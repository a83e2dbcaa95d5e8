use mtproxy::config::{
    check_secret, parse_i16, parse_proxy_config, parse_secret, Config, Endpoint, ProxyFor,
};
use mtproxy::error::Error;

fn v4(a: u8, port: u16) -> Endpoint {
    Endpoint::V4([149, 154, 175, a], port)
}

#[test]
fn parse_i16_reads_signed_decimals() {
    assert_eq!(parse_i16(b"0"), Some(0));
    assert_eq!(parse_i16(b"5"), Some(5));
    assert_eq!(parse_i16(b"-5"), Some(-5));
    assert_eq!(parse_i16(b"+5"), Some(5));
    assert_eq!(parse_i16(b"007"), Some(7));
    assert_eq!(parse_i16(b"32767"), Some(32767));
    assert_eq!(parse_i16(b"-32768"), Some(-32768));
    assert_eq!(parse_i16(b"-0"), Some(0));
    assert_eq!(parse_i16(b"0000000000000000000012"), Some(12));
}

#[test]
fn parse_i16_refuses_what_is_no_number() {
    assert_eq!(parse_i16(b""), None);
    assert_eq!(parse_i16(b"-"), None);
    assert_eq!(parse_i16(b"+"), None);
    assert_eq!(parse_i16(b"32768"), None);
    assert_eq!(parse_i16(b"-32769"), None);
    assert_eq!(parse_i16(b"99999999999999999999999"), None);
    assert_eq!(parse_i16(b"1a"), None);
    assert_eq!(parse_i16(b" 1"), None);
    assert_eq!(parse_i16(b"1 "), None);
    assert_eq!(parse_i16(b"--1"), None);
    assert_eq!(parse_i16(b"1-"), None);
    assert_eq!(parse_i16(b"0x10"), None);
}

#[test]
fn parse_i16_agrees_with_std() {
    for text in ["12", "-12", "+0", "65535", "-40000", "4x", "", "+-3", "32767", "032768"] {
        assert_eq!(parse_i16(text.as_bytes()), text.parse::<i16>().ok(), "{}", text);
    }
}

#[test]
fn listing_is_read_line_by_line() {
    let text = b"# force_probability 10 10\n\
        default 2;\n\
        proxy_for 1 149.154.175.50:8888;\n\
        proxy_for -1 149.154.175.50:8888;\r\n\
        proxy_for 2 [2001:b28:f23d:f001::d]:8888;\n\
        \n\
        proxy_for 1 149.154.175.51:8888;";
    let parsed = parse_proxy_config(text).unwrap();
    assert_eq!(
        parsed,
        vec![
            ProxyFor { dc: 1, addr: b"149.154.175.50:8888".to_vec() },
            ProxyFor { dc: -1, addr: b"149.154.175.50:8888".to_vec() },
            ProxyFor { dc: 2, addr: b"[2001:b28:f23d:f001::d]:8888".to_vec() },
            ProxyFor { dc: 1, addr: b"149.154.175.51:8888".to_vec() },
        ]
    );
}

#[test]
fn listing_without_entries_is_empty() {
    assert_eq!(parse_proxy_config(b""), Ok(vec![]));
    assert_eq!(parse_proxy_config(b"\n\n"), Ok(vec![]));
    assert_eq!(parse_proxy_config(b"proxy_for"), Ok(vec![]));
    assert_eq!(parse_proxy_config(b"proxy_forever 1 x;"), Ok(vec![]));
    assert_eq!(parse_proxy_config(b" proxy_for 1 x;"), Ok(vec![]));
}

#[test]
fn one_malformed_line_fails_the_listing() {
    assert_eq!(parse_proxy_config(b"proxy_for 1"), Err(Error::BootstrapFailed));
    assert_eq!(parse_proxy_config(b"proxy_for x 1.2.3.4:5;"), Err(Error::BootstrapFailed));
    assert_eq!(parse_proxy_config(b"proxy_for  1.2.3.4:5;"), Err(Error::BootstrapFailed));
    assert_eq!(parse_proxy_config(b"proxy_for 70000 1.2.3.4:5;"), Err(Error::BootstrapFailed));
    assert_eq!(
        parse_proxy_config(b"proxy_for 1 1.2.3.4:5;\nproxy_for one 1.2.3.4:5;\nproxy_for 2 1.2.3.4:5;"),
        Err(Error::BootstrapFailed)
    );
}

#[test]
fn the_closing_character_is_dropped() {
    assert_eq!(
        parse_proxy_config(b"proxy_for 3 1.2.3.4:5;\n"),
        Ok(vec![ProxyFor { dc: 3, addr: b"1.2.3.4:5".to_vec() }])
    );
    assert_eq!(
        parse_proxy_config(b"proxy_for 3 1.2.3.4:5 6;"),
        Ok(vec![ProxyFor { dc: 3, addr: b"1.2.3.4:5 6".to_vec() }])
    );
    assert_eq!(
        parse_proxy_config(b"proxy_for 3 "),
        Ok(vec![ProxyFor { dc: 3, addr: vec![] }])
    );
    assert_eq!(
        parse_proxy_config(b"proxy_for 3 ;\r"),
        Ok(vec![ProxyFor { dc: 3, addr: b";".to_vec() }])
    );
}

#[test]
fn init_groups_the_endpoints_by_data_center() {
    let config = Config::init(
        v4(1, 1984),
        vec![1; 16],
        vec![2; 32],
        vec![(1, v4(50, 8888)), (2, v4(51, 8888)), (1, v4(52, 8888)), (-2, v4(53, 443))],
    );
    assert_eq!(config.bind_addr(), &v4(1, 1984));
    assert_eq!(config.secret(), &[1u8; 16]);
    assert_eq!(config.dc_secret(), &[2u8; 32]);
    assert_eq!(config.addrs(1), &[v4(50, 8888), v4(52, 8888)]);
    assert_eq!(config.addrs(2), &[v4(51, 8888)]);
    assert_eq!(config.addrs(-2), &[v4(53, 443)]);
    assert_eq!(config.addrs(3), &[] as &[Endpoint]);
}

#[test]
fn dc_addr_picks_a_listed_endpoint() {
    let config = Config::init(
        v4(1, 1984),
        vec![1; 16],
        vec![2; 32],
        vec![(1, v4(50, 8888)), (2, v4(51, 8888)), (1, v4(52, 8888))],
    );
    let mut seen = std::collections::HashSet::new();
    for _ in 0..200 {
        let picked = *config.dc_addr(1).unwrap();
        assert!(picked == v4(50, 8888) || picked == v4(52, 8888));
        seen.insert(picked == v4(50, 8888));
    }
    assert_eq!(seen.len(), 2);
    assert_eq!(config.dc_addr(2), Some(&v4(51, 8888)));
    assert_eq!(config.dc_addr(5), None);
}

#[test]
fn secret_has_to_be_sixteen_bytes_of_hex() {
    assert_eq!(
        parse_secret("000102030405060708090a0b0c0d0e0F"),
        Ok((0..16u8).collect::<Vec<u8>>())
    );
    assert_eq!(parse_secret("0001"), Err(Error::UnsupportedSecretLength));
    assert_eq!(parse_secret(""), Err(Error::UnsupportedSecretLength));
    assert_eq!(
        parse_secret("000102030405060708090a0b0c0d0e0f10"),
        Err(Error::UnsupportedSecretLength)
    );
    assert_eq!(parse_secret("zz0102030405060708090a0b0c0d0e0f"), Err(Error::MalformedSecret));
    assert_eq!(parse_secret("000"), Err(Error::MalformedSecret));
}

#[test]
fn check_secret_judges_what_was_decoded() {
    assert_eq!(check_secret(None), Err(Error::MalformedSecret));
    assert_eq!(check_secret(Some(vec![7; 16])), Ok(vec![7; 16]));
    assert_eq!(check_secret(Some(vec![7; 15])), Err(Error::UnsupportedSecretLength));
    assert_eq!(check_secret(Some(vec![7; 17])), Err(Error::UnsupportedSecretLength));
}
