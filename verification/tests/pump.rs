use crypto::digest::Digest;
use crypto::symmetriccipher::SynchronousStreamCipher;
use mtproxy::error::Error;
use mtproxy::proto::Proto;
use mtproxy::pump::{
    Drained, Flushed, Interest, Pump, ReadEvent, WriteEvent, BUF_SIZE, MAX_READ_BUF_SIZE,
};

fn sha256(data: &[u8]) -> Vec<u8> {
    let mut hash = crypto::sha2::Sha256::new();
    let mut out = vec![0u8; 32];
    hash.input(data);
    hash.result(&mut out);
    out
}

fn aes_ctr(key: &[u8], iv: &[u8], data: &[u8]) -> Vec<u8> {
    let mut out = vec![0u8; data.len()];
    crypto::aes::ctr(crypto::aes::KeySize::KeySize256, key, iv).process(data, &mut out);
    out
}

/// What a client with `secret` puts on the wire: its handshake for `dc`,
/// then `payload`, all under its encrypting stream.
fn client_wire(secret: &[u8], dc: i16, payload: &[u8]) -> Vec<u8> {
    let mut plain: Vec<u8> = (0..64u8).map(|i| i.wrapping_mul(5).wrapping_add(1)).collect();
    plain[56..60].copy_from_slice(&[0xef; 4]);
    plain[60..62].copy_from_slice(&dc.to_le_bytes());
    let mut key_src = plain[8..40].to_vec();
    key_src.extend_from_slice(secret);
    let mut whole = plain.clone();
    whole.extend_from_slice(payload);
    let sealed = aes_ctr(&sha256(&key_src), &plain[40..56], &whole);
    let mut wire = plain[..56].to_vec();
    wire.extend_from_slice(&sealed[56..]);
    wire
}

fn all_but_writable() -> Interest {
    Interest { readable: true, writable: false, error: true, hup: true }
}

fn all_four() -> Interest {
    Interest { readable: true, writable: true, error: true, hup: true }
}

#[test]
fn upstream_starts_idle() {
    let mut pump = Pump::upstream(&[1u8; 16]);
    assert_eq!(pump.interest(), all_but_writable());
    assert!(!pump.is_ready());
    assert_eq!(pump.pending(), &[] as &[u8]);
    assert_eq!(pump.unread(), 0);
    assert_eq!(pump.pull(), Vec::<u8>::new());
}

#[test]
fn downstream_sends_its_handshake_first() {
    let pump = Pump::downstream(&[1u8; 16]).unwrap();
    assert_eq!(pump.interest(), all_four());
    assert!(pump.is_ready());
    let seed = pump.pending().to_vec();
    assert_eq!(seed.len(), 64);
    assert_ne!(seed[0], 0xef);
    let opened = aes_ctr(&seed[8..40], &seed[40..56], &seed);
    assert_eq!(&opened[56..60], &[0xef; 4]);
}

#[test]
fn seeded_sends_the_handshake_verbatim_then_ciphertext() {
    let sample: Vec<u8> = (100..164u8).collect();
    let proto = Proto::with_entropy(&sample).unwrap();
    let seed = proto.seed().to_vec();
    let mut pump = Pump::seeded(&[0u8; 16], proto);
    assert_eq!(pump.pending(), &seed[..]);
    pump.push(b"hello data center");
    let mut stream = vec![0u8; 64];
    stream.extend_from_slice(b"hello data center");
    let expected = aes_ctr(&sample[8..40], &sample[40..56], &stream);
    assert_eq!(&pump.pending()[..64], &seed[..]);
    assert_eq!(&pump.pending()[64..], &expected[64..]);
}

#[test]
fn push_before_the_handshake_is_dropped() {
    let mut pump = Pump::upstream(&[1u8; 16]);
    pump.push(b"too early");
    assert_eq!(pump.pending(), &[] as &[u8]);
    assert_eq!(pump.interest(), all_but_writable());
}

#[test]
fn push_keeps_the_order_and_asks_to_write() {
    let secret = [4u8; 16];
    let wire = client_wire(&secret, 1, &[]);
    let mut pump = Pump::upstream(&secret);
    assert_eq!(pump.begin_drain(), Drained::More(MAX_READ_BUF_SIZE));
    assert!(matches!(pump.drain(ReadEvent::Data(wire.clone())), Ok(Drained::More(_))));
    assert!(!pump.interest().writable);
    pump.push(b"first");
    assert!(pump.interest().writable);
    pump.push(b"second");
    // the client decrypts with the stream keyed by the reversed material
    let rev: Vec<u8> = wire[8..56].iter().rev().cloned().collect();
    let mut key_src = rev[..32].to_vec();
    key_src.extend_from_slice(&secret);
    let plain = aes_ctr(&sha256(&key_src), &rev[32..48], pump.pending());
    assert_eq!(plain, b"firstsecond");
}

#[test]
fn handshake_rejection_on_zero_bytes() {
    let mut pump = Pump::upstream(&[0u8; 16]);
    assert_eq!(pump.drain(ReadEvent::Data(vec![0u8; 64])), Err(Error::UnknownProtocol));
    assert!(!pump.is_ready());
}

#[test]
fn dc_zero_is_coerced_to_one() {
    let secret = [3u8; 16];
    let mut pump = Pump::upstream(&secret);
    let next = pump.drain(ReadEvent::Data(client_wire(&secret, 0, &[]))).unwrap();
    assert_eq!(next, Drained::More(MAX_READ_BUF_SIZE));
    assert!(pump.is_ready());
    assert_eq!(pump.drain(ReadEvent::WouldBlock), Ok(Drained::Done(Some(1))));
    assert_eq!(pump.drain(ReadEvent::WouldBlock), Ok(Drained::Done(None)));
}

#[test]
fn dc_seven_is_refused() {
    let secret = [3u8; 16];
    let mut pump = Pump::upstream(&secret);
    assert_eq!(
        pump.drain(ReadEvent::Data(client_wire(&secret, 7, &[]))),
        Err(Error::UnsupportedDc)
    );
    assert!(!pump.is_ready());
}

#[test]
fn fake_pq_probe_is_refused() {
    let mut pump = Pump::upstream(&[3u8; 16]);
    assert_eq!(pump.drain(ReadEvent::Data(vec![7u8; 41])), Err(Error::FakePqReq));
    let mut pump = Pump::upstream(&[3u8; 16]);
    assert_eq!(pump.drain(ReadEvent::Data(vec![7u8; 40])), Ok(Drained::More(MAX_READ_BUF_SIZE - 40)));
    assert_eq!(pump.drain(ReadEvent::Data(vec![7u8; 1])), Err(Error::FakePqReq));
    let mut pump = Pump::upstream(&[3u8; 16]);
    assert_eq!(pump.drain(ReadEvent::Data(vec![7u8; 42])), Ok(Drained::More(MAX_READ_BUF_SIZE - 42)));
}

#[test]
fn handshake_may_come_in_pieces() {
    let secret = [8u8; 16];
    let payload = b"first bytes of the session";
    let wire = client_wire(&secret, -2, payload);
    let mut pump = Pump::upstream(&secret);
    assert_eq!(pump.drain(ReadEvent::Data(wire[..10].to_vec())), Ok(Drained::More(MAX_READ_BUF_SIZE - 10)));
    assert_eq!(pump.drain(ReadEvent::WouldBlock), Ok(Drained::Done(None)));
    assert_eq!(pump.pull(), Vec::<u8>::new());
    assert_eq!(pump.unread(), 10);
    assert_eq!(pump.drain(ReadEvent::Data(wire[10..70].to_vec())), Ok(Drained::More(MAX_READ_BUF_SIZE - 6)));
    assert!(pump.is_ready());
    assert_eq!(pump.unread(), 6);
    assert_eq!(pump.drain(ReadEvent::Data(wire[70..].to_vec())), Ok(Drained::More(MAX_READ_BUF_SIZE - payload.len())));
    assert_eq!(pump.drain(ReadEvent::Closed), Ok(Drained::Done(Some(2))));
    assert_eq!(pump.pull(), payload);
    assert_eq!(pump.unread(), 0);
}

#[test]
fn empty_data_ends_the_drain() {
    let mut pump = Pump::upstream(&[8u8; 16]);
    assert_eq!(pump.drain(ReadEvent::Data(vec![])), Ok(Drained::Done(None)));
    assert_eq!(pump.unread(), 0);
}

#[test]
fn failed_read_surfaces() {
    let mut pump = Pump::upstream(&[8u8; 16]);
    assert_eq!(pump.drain(ReadEvent::Failed), Err(Error::IoTransport));
}

#[test]
fn quota_is_one_scratch_buffer_at_most() {
    assert!(BUF_SIZE > MAX_READ_BUF_SIZE);
    assert_eq!(BUF_SIZE, 128 * 1024);
    assert_eq!(MAX_READ_BUF_SIZE, 2 * u16::MAX as usize);
    let mut pump = Pump::upstream(&[8u8; 16]);
    assert_eq!(pump.begin_drain(), Drained::More(131070));
}

#[test]
fn backpressure_stops_and_resumes_reading() {
    let secret = [6u8; 16];
    let payload: Vec<u8> = (0..MAX_READ_BUF_SIZE + 500).map(|i| (i % 253) as u8).collect();
    let wire = client_wire(&secret, 3, &payload);
    let mut pump = Pump::upstream(&secret);
    let mut at = 0;
    let mut next = pump.begin_drain();
    let mut link = None;
    while let Drained::More(quota) = next {
        assert!(quota > 0 && quota <= BUF_SIZE);
        let take = quota.min(wire.len() - at).min(50_000);
        next = pump.drain(ReadEvent::Data(wire[at..at + take].to_vec())).unwrap();
        at += take;
        assert!(pump.unread() <= MAX_READ_BUF_SIZE);
    }
    if let Drained::Done(found) = next {
        link = found;
    }
    assert_eq!(link, Some(3));
    assert_eq!(pump.unread(), MAX_READ_BUF_SIZE);
    assert!(!pump.interest().readable);
    assert_eq!(pump.begin_drain(), Drained::Done(None));
    let first = pump.pull();
    assert!(pump.interest().readable);
    assert_eq!(first, &payload[..MAX_READ_BUF_SIZE]);
    assert_eq!(at, 64 + MAX_READ_BUF_SIZE);
    let next = pump.begin_drain();
    assert_eq!(next, Drained::More(MAX_READ_BUF_SIZE));
    assert_eq!(pump.drain(ReadEvent::Data(wire[at..].to_vec())), Ok(Drained::More(MAX_READ_BUF_SIZE - 500)));
    assert_eq!(pump.pull(), &payload[MAX_READ_BUF_SIZE..]);
}

#[test]
fn flush_keeps_the_tail_of_a_partial_write() {
    let sample: Vec<u8> = (100..164u8).collect();
    let proto = Proto::with_entropy(&sample).unwrap();
    let seed = proto.seed().to_vec();
    let mut pump = Pump::seeded(&[0u8; 16], proto);
    assert_eq!(pump.flush(WriteEvent::Wrote(10)), Ok(Flushed::More));
    assert_eq!(pump.pending(), &seed[10..]);
    assert!(pump.interest().writable);
    assert_eq!(pump.flush(WriteEvent::WouldBlock), Ok(Flushed::Done));
    assert_eq!(pump.pending(), &seed[10..]);
    assert!(pump.interest().writable);
    assert_eq!(pump.flush(WriteEvent::Wrote(0)), Ok(Flushed::More));
    assert_eq!(pump.flush(WriteEvent::Wrote(54)), Ok(Flushed::Done));
    assert_eq!(pump.pending(), &[] as &[u8]);
    assert!(!pump.interest().writable);
    assert_eq!(pump.flush(WriteEvent::Wrote(0)), Ok(Flushed::Done));
}

#[test]
fn failed_write_surfaces() {
    let mut pump = Pump::downstream(&[0u8; 16]).unwrap();
    assert_eq!(pump.flush(WriteEvent::Failed), Err(Error::IoTransport));
    assert_eq!(pump.pending().len(), 64);
}

#[test]
fn a_matched_pair_of_pumps_recovers_the_plaintext() {
    // the relay's pump towards a data center, and the data center's view of it
    let sample: Vec<u8> = (1..=64u8).collect();
    let mut relay = Pump::seeded(&[0u8; 16], Proto::with_entropy(&sample).unwrap());
    relay.push(b"one");
    relay.push(b"two and three");
    let wire = relay.pending().to_vec();
    let opened = aes_ctr(&wire[8..40], &wire[40..56], &wire);
    assert_eq!(&opened[56..60], &[0xef; 4]);
    assert_eq!(&opened[64..], b"onetwo and three");
    // the pump's own two streams are not inverse to each other
    let mut own = Pump::seeded(&[0u8; 16], Proto::with_entropy(&sample).unwrap());
    own.push(b"some plaintext");
    let sent = own.pending()[64..].to_vec();
    assert_eq!(own.drain(ReadEvent::Data(sent)), Ok(Drained::More(MAX_READ_BUF_SIZE - 14)));
    assert_ne!(own.pull(), b"some plaintext");
}
