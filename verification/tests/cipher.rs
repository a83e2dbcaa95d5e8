use crypto::symmetriccipher::SynchronousStreamCipher;
use mtproxy::cipher::{mask, CtrStream};

fn hex(text: &str) -> Vec<u8> {
    (0..text.len() / 2).map(|i| u8::from_str_radix(&text[2 * i..2 * i + 2], 16).unwrap()).collect()
}

fn aes_ctr(key: &[u8], iv: &[u8], data: &[u8]) -> Vec<u8> {
    let mut out = vec![0u8; data.len()];
    crypto::aes::ctr(crypto::aes::KeySize::KeySize256, key, iv).process(data, &mut out);
    out
}

#[test]
fn apply_matches_the_published_vector() {
    let key = hex("603deb1015ca71be2b73aef0857d77811f352c073b6108d72d9810a30914dff4");
    let iv = hex("f0f1f2f3f4f5f6f7f8f9fafbfcfdfeff");
    let plain = hex("6bc1bee22e409f96e93d7e117393172aae2d8a571e03ac9c9eb76fac45af8e51");
    let mut stream = CtrStream::new(&key, &iv);
    let cipher = stream.apply(&plain);
    assert_eq!(
        cipher,
        hex("601ec313775789a5b7a7f504bbf3d228f443e3ca4d62b59aca84e990cacaf5c5")
    );
}

#[test]
fn apply_in_pieces_is_one_stream() {
    let key: Vec<u8> = (0..32u8).collect();
    let iv = hex("000102030405060708090a0b0c0dfffe");
    let data: Vec<u8> = (0..1000u32).map(|i| (i * 31 % 251) as u8).collect();
    let expected = aes_ctr(&key, &iv, &data);
    for sizes in [vec![1usize, 2, 3, 5, 8, 13, 21, 34, 55, 89, 144, 625], vec![16, 16, 968], vec![15, 1, 17, 967], vec![0, 1000], vec![1000]] {
        let mut stream = CtrStream::new(&key, &iv);
        let mut out = Vec::new();
        let mut at = 0;
        for size in sizes {
            out.extend_from_slice(&stream.apply(&data[at..at + size]));
            at += size;
        }
        assert_eq!(at, 1000);
        assert_eq!(out, expected);
    }
}

#[test]
fn counter_wraps_after_the_last_block() {
    let key = [0x42u8; 32];
    let iv = [0xffu8; 16];
    let data = [0u8; 80];
    let expected = aes_ctr(&key, &iv, &data);
    let mut stream = CtrStream::new(&key, &iv);
    let mut out = stream.apply(&data[..16]);
    out.extend_from_slice(&stream.apply(&data[16..]));
    assert_eq!(out, expected);
    // the second block is the keystream of the all-zero counter
    assert_eq!(&expected[16..32], &aes_ctr(&key, &[0u8; 16], &[0u8; 16])[..]);
}

#[test]
fn counter_carries_across_bytes() {
    let key = [0x17u8; 32];
    let iv = hex("00000000000000000000000000ffffff");
    let data = [0u8; 48];
    let mut stream = CtrStream::new(&key, &iv);
    let first = stream.apply(&data[..16]);
    let second = stream.apply(&data[16..32]);
    assert_eq!(first, aes_ctr(&key, &iv, &data[..16]));
    assert_eq!(second, aes_ctr(&key, &hex("00000000000000000000000001000000"), &data[..16]));
}

#[test]
fn two_streams_in_step_invert_each_other() {
    let key = [9u8; 32];
    let iv = [3u8; 16];
    let mut enc = CtrStream::new(&key, &iv);
    let mut dec = CtrStream::new(&key, &iv);
    let first: Vec<u8> = (0..77u8).collect();
    let second = vec![0xaau8; 300];
    let sent = enc.apply(&first);
    assert_ne!(sent, first);
    assert_eq!(dec.apply(&sent), first);
    let sent = enc.apply(&second);
    assert_eq!(dec.apply(&sent), second);
}

#[test]
fn streams_out_of_step_do_not_invert() {
    let key = [9u8; 32];
    let iv = [3u8; 16];
    let mut enc = CtrStream::new(&key, &iv);
    let mut dec = CtrStream::new(&key, &iv);
    enc.apply(&[0u8; 5]);
    let data = [0x55u8; 40];
    let sent = enc.apply(&data);
    assert_ne!(dec.apply(&sent), data);
}

#[test]
fn apply_of_nothing_is_nothing() {
    let mut stream = CtrStream::new(&[1u8; 32], &[2u8; 16]);
    assert_eq!(stream.apply(&[]), Vec::<u8>::new());
    assert_eq!(stream.apply(&[0u8; 4]), aes_ctr(&[1u8; 32], &[2u8; 16], &[0u8; 4]));
}

#[test]
fn mask_is_bytewise_exclusive_or() {
    assert_eq!(mask(&[0x0f, 0xf0, 0xaa], &[0xff, 0xff, 0x55, 0x01]), vec![0xf0, 0x0f, 0xff]);
    assert_eq!(mask(&[], &[1, 2, 3]), Vec::<u8>::new());
    let data = [0x12u8, 0x34, 0x56];
    let pad = [0x9au8, 0xbc, 0xde];
    assert_eq!(mask(&mask(&data, &pad), &pad), data);
}

#[test]
fn advance_counts_blocks_and_bytes() {
    let iv = hex("000000000000000000000000000000fe");
    let mut stream = CtrStream::new(&[0u8; 32], &iv);
    assert_eq!(stream.counter(), &iv[..]);
    assert_eq!(stream.used(), 0);
    stream.advance(15);
    assert_eq!((stream.counter().to_vec(), stream.used()), (iv.clone(), 15));
    stream.advance(1);
    assert_eq!(
        (stream.counter().to_vec(), stream.used()),
        (hex("000000000000000000000000000000ff"), 0)
    );
    stream.advance(16 * 3 + 5);
    assert_eq!(
        (stream.counter().to_vec(), stream.used()),
        (hex("00000000000000000000000000000102"), 5)
    );
    stream.advance(0);
    assert_eq!(stream.used(), 5);
    stream.advance(11 + 16 * 65536);
    assert_eq!(
        (stream.counter().to_vec(), stream.used()),
        (hex("00000000000000000000000000010103"), 0)
    );
    let mut last = CtrStream::new(&[0u8; 32], &[0xff; 16]);
    last.advance(16);
    assert_eq!(last.counter(), &[0u8; 16]);
}

#[test]
fn advance_is_what_apply_does_to_the_stream() {
    let mut applied = CtrStream::new(&[5u8; 32], &[6u8; 16]);
    let mut advanced = CtrStream::new(&[5u8; 32], &[6u8; 16]);
    applied.apply(&[0u8; 37]);
    advanced.advance(37);
    assert_eq!(applied.counter(), advanced.counter());
    assert_eq!(applied.used(), advanced.used());
    assert_eq!(applied.apply(&[0u8; 20]), advanced.apply(&[0u8; 20]));
}
