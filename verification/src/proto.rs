//! The 64-byte handshake: parsing the one a client sends, and producing the
//! one that opens a connection to a data center.

use crate::cipher::{sha256, sha256_digest, CtrStream, StreamState};
use crate::error::Error;
use bytes::{Buf, IntoBuf};
use rand::RngCore;
use vstd::prelude::*;

verus! {

/// Length of a handshake in bytes.
pub const SEED_LEN: usize = 64;

/// The highest data center index a handshake may name.
pub const MAX_DC: usize = 5;

/// How often `Proto::new` draws a sample before it gives up.
pub const MAX_DRAWS: u64 = u64::MAX;

/// Fills a buffer of `len` bytes from `rand::thread_rng()` with
/// `RngCore::fill_bytes`.
///
/// Trusted: the buffer comes back `len` bytes long; nothing is claimed of
/// its contents. (The generator panics where the system gives it no seed.)
#[verifier::external_body]
fn random_bytes(len: usize) -> (bytes: Vec<u8>)
    ensures
        bytes@.len() == len,
{
    let mut bytes = vec![0u8; len];
    rand::thread_rng().fill_bytes(&mut bytes);
    bytes
}

/// Reads the first two bytes of `pair` with `bytes::Buf::get_i16_le`.
///
/// Trusted: the result is the signed 16-bit number whose low byte comes
/// first.
#[verifier::external_body]
fn read_i16_le(pair: &[u8]) -> (value: i16)
    requires
        pair@.len() >= 2,
    ensures
        value == le_i16(pair@[0], pair@[1]),
{
    pair.into_buf().get_i16_le()
}

/// The signed 16-bit number with low byte `lo` and high byte `hi`.
pub open spec fn le_i16(lo: u8, hi: u8) -> int {
    if hi < 128 {
        lo + 256 * hi
    } else {
        lo + 256 * hi - 65536
    }
}

/// The unsigned 32-bit number stored at `at`, low byte first.
pub open spec fn le_u32(bytes: Seq<u8>, at: int) -> int {
    bytes[at] + 256 * bytes[at + 1] + 65536 * bytes[at + 2] + 16777216 * bytes[at + 3]
}

/// First words that would make a handshake look like HTTP (`HEAD`, `POST`,
/// `GET `, `OPTI`) or like another transport.
pub open spec fn reserved_word(word: int) -> bool {
    ||| word == 0x44414548
    ||| word == 0x54534f50
    ||| word == 0x20544547
    ||| word == 0x4954504f
    ||| word == 0xeeeeeeee
}

/// Whether 64 random bytes may become a handshake.
pub open spec fn sample_admissible(sample: Seq<u8>) -> bool {
    &&& sample.len() == SEED_LEN
    &&& sample[0] != 0xef
    &&& le_u32(sample, 4) != 0
    &&& !reserved_word(le_u32(sample, 0))
}

/// The four bytes that mark the obfuscated transport.
pub open spec fn magic() -> Seq<u8> {
    seq![0xefu8, 0xefu8, 0xefu8, 0xefu8]
}

/// Whether `plain` carries the magic at bytes 56..60.
pub open spec fn has_magic(plain: Seq<u8>) -> bool {
    plain.subrange(56, 60) == magic()
}

/// The key and IV material of a handshake, bytes 8..56.
pub open spec fn key_iv(seed: Seq<u8>) -> Seq<u8> {
    seed.subrange(8, 56)
}

/// `sample` with the magic written over bytes 56..60.
pub open spec fn marked(sample: Seq<u8>) -> Seq<u8> {
    sample.subrange(0, 56) + magic() + sample.subrange(60, 64)
}

/// The stream that encrypts towards the data center: keyed by the
/// handshake's own bytes.
pub open spec fn outbound_enc(seed: Seq<u8>) -> StreamState {
    StreamState::fresh(key_iv(seed).subrange(0, 32), key_iv(seed).subrange(32, 48))
}

/// The stream that decrypts what the data center sends: keyed by the same
/// bytes in reverse order.
pub open spec fn outbound_dec(seed: Seq<u8>) -> StreamState {
    StreamState::fresh(
        key_iv(seed).reverse().subrange(0, 32),
        key_iv(seed).reverse().subrange(32, 48),
    )
}

/// The handshake made from `sample`: the marked sample, its last eight bytes
/// replaced by their ciphertext.
pub open spec fn sealed_seed(sample: Seq<u8>) -> Seq<u8> {
    let plain = marked(sample);
    plain.subrange(0, 56) + outbound_enc(plain).apply(plain).subrange(56, 64)
}

/// The stream that decrypts what a client sends.
pub open spec fn inbound_dec(seed: Seq<u8>, secret: Seq<u8>) -> StreamState {
    StreamState::fresh(sha256_digest(seed.subrange(8, 40) + secret), seed.subrange(40, 56))
}

/// The stream that encrypts towards a client.
pub open spec fn inbound_enc(seed: Seq<u8>, secret: Seq<u8>) -> StreamState {
    StreamState::fresh(
        sha256_digest(key_iv(seed).reverse().subrange(0, 32) + secret),
        key_iv(seed).reverse().subrange(32, 48),
    )
}

/// A client's handshake, decrypted.
pub open spec fn opened(seed: Seq<u8>, secret: Seq<u8>) -> Seq<u8> {
    inbound_dec(seed, secret).apply(seed)
}

/// The data center field of a decrypted handshake: the absolute value of
/// the signed number at bytes 60..62.
pub open spec fn dc_field(plain: Seq<u8>) -> int {
    let raw = le_i16(plain[60], plain[61]);
    if raw < 0 {
        -raw
    } else {
        raw
    }
}

/// What a decrypted handshake asks for: a data center in 1..=5, where a
/// field of 0 stands for 1, or the reason why it is refused.
pub open spec fn verdict(plain: Seq<u8>) -> Result<usize, Error> {
    if !has_magic(plain) {
        Err(Error::UnknownProtocol)
    } else if dc_field(plain) > MAX_DC {
        Err(Error::UnsupportedDc)
    } else if dc_field(plain) == 0 {
        Ok(1usize)
    } else {
        Ok(dc_field(plain) as usize)
    }
}

/// What a `Proto` is: the handshake it came from, the data center it names,
/// and its two streams.
pub struct ProtoState {
    pub seed: Seq<u8>,
    pub dc: usize,
    pub dec: StreamState,
    pub enc: StreamState,
}

impl ProtoState {
    /// A 64-byte handshake and two well-formed streams.
    pub open spec fn wf(self) -> bool {
        &&& self.seed.len() == SEED_LEN
        &&& self.dec.wf()
        &&& self.enc.wf()
    }
}

/// The state of a connection that a client opened with `seed`.
pub open spec fn inbound_state(seed: Seq<u8>, secret: Seq<u8>, dc: usize) -> ProtoState {
    ProtoState {
        seed,
        dc,
        dec: inbound_dec(seed, secret).after(SEED_LEN as nat),
        enc: inbound_enc(seed, secret),
    }
}

/// The state of a connection to a data center whose handshake was made from
/// `sample`.
pub open spec fn outbound_state(sample: Seq<u8>) -> ProtoState {
    ProtoState {
        seed: sealed_seed(sample),
        dc: 0,
        dec: outbound_dec(marked(sample)),
        enc: outbound_enc(marked(sample)).after(SEED_LEN as nat),
    }
}

/// A handshake that is accepted names a data center in 1..=5.
pub proof fn lemma_verdict_in_range(plain: Seq<u8>)
    ensures
        verdict(plain) matches Ok(dc) ==> 1 <= dc <= MAX_DC,
        verdict(plain) is Ok <==> has_magic(plain) && dc_field(plain) <= MAX_DC,
{
}

/// A handshake made from an admissible sample begins with the sample's
/// first 56 bytes: its first byte is not 0xef, its first word is not
/// reserved, its second word is not zero, and its key material is the
/// sample's.
pub proof fn lemma_sealed_seed_head(sample: Seq<u8>)
    requires
        sample_admissible(sample),
    ensures
        sealed_seed(sample).len() == SEED_LEN,
        sealed_seed(sample).subrange(0, 56) == sample.subrange(0, 56),
        sealed_seed(sample)[0] != 0xef,
        !reserved_word(le_u32(sealed_seed(sample), 0)),
        le_u32(sealed_seed(sample), 4) != 0,
        key_iv(sealed_seed(sample)) == key_iv(sample),
{
    let plain = marked(sample);
    let seed = sealed_seed(sample);
    assert(seed.subrange(0, 56) =~= sample.subrange(0, 56));
    assert forall|i: int| 0 <= i < 56 implies seed[i] == sample[i] by {
        assert(seed.subrange(0, 56)[i] == sample.subrange(0, 56)[i]);
    }
    assert(key_iv(seed) =~= key_iv(sample));
}

/// The plaintext behind a fresh handshake carries the magic at bytes 56..60:
/// whoever keys a stream with the handshake's own bytes 8..56, as the data
/// center does, finds it there.
pub proof fn lemma_sealed_seed_opens(sample: Seq<u8>)
    requires
        sample_admissible(sample),
    ensures
        has_magic(marked(sample)),
        has_magic(outbound_enc(sealed_seed(sample)).apply(sealed_seed(sample))),
{
    let plain = marked(sample);
    let seed = sealed_seed(sample);
    lemma_sealed_seed_head(sample);
    assert(key_iv(plain) =~= key_iv(sample));
    let stream = outbound_enc(plain);
    assert(outbound_enc(seed) == stream);
    let pad = stream.pad(SEED_LEN as nat);
    assert(plain.subrange(56, 60) =~= magic());
    assert forall|i: int| 56 <= i < 60 implies stream.apply(seed)[i] == 0xefu8 by {
        assert(seed[i] == stream.apply(plain)[i]);
        assert(plain[i] == 0xefu8);
        let a = plain[i];
        let b = pad[i];
        assert((a ^ b) ^ b == a) by (bit_vector);
    }
    assert(stream.apply(seed).subrange(56, 60) =~= magic());
}

/// Whoever reads a fresh handshake and keys its streams with the
/// handshake's bytes 8..56 stands, once the handshake is read, where the
/// connection that made it stands: its decrypting stream where the
/// connection encrypts, its encrypting stream where the connection decrypts.
pub proof fn lemma_fresh_streams_match(sample: Seq<u8>)
    requires
        sample_admissible(sample),
    ensures
        outbound_state(sample).enc == outbound_enc(sealed_seed(sample)).after(SEED_LEN as nat),
        outbound_state(sample).dec == outbound_dec(sealed_seed(sample)),
        outbound_state(sample).wf(),
{
    lemma_sealed_seed_head(sample);
    assert(key_iv(marked(sample)) =~= key_iv(sample));
    crate::cipher::lemma_after_after(outbound_enc(marked(sample)), SEED_LEN as nat, 0);
}

/// Cipher state of one connection.
pub struct Proto {
    seed: Vec<u8>,
    dc_idx: usize,
    dec: CtrStream,
    enc: CtrStream,
}

impl View for Proto {
    type V = ProtoState;

    closed spec fn view(&self) -> ProtoState {
        ProtoState { seed: self.seed@, dc: self.dc_idx, dec: self.dec@, enc: self.enc@ }
    }
}

/// `a` followed by `b`.
fn concat(a: &[u8], b: &[u8]) -> (joined: Vec<u8>)
    ensures
        joined@ == a@ + b@,
{
    let mut joined = vstd::slice::slice_to_vec(a);
    let mut tail = vstd::slice::slice_to_vec(b);
    joined.append(&mut tail);
    joined
}

/// `bytes` back to front.
fn reversed(bytes: &[u8]) -> (back: Vec<u8>)
    ensures
        back@ == bytes@.reverse(),
{
    let len = bytes.len();
    let mut back: Vec<u8> = Vec::new();
    let mut i: usize = 0;
    while i < len
        invariant
            i <= len,
            len == bytes@.len(),
            back@.len() == i,
            forall|j: int| 0 <= j < i ==> back@[j] == bytes@[len - 1 - j],
        decreases len - i,
    {
        back.push(bytes[len - 1 - i]);
        i = i + 1;
    }
    assert(back@ =~= bytes@.reverse());
    back
}

/// The number stored in four bytes, low byte first.
fn word_at(bytes: &[u8], at: usize) -> (word: u32)
    requires
        at + 4 <= bytes@.len(),
    ensures
        word == le_u32(bytes@, at as int),
{
    let b0: u32 = bytes[at] as u32;
    let b1: u32 = bytes[at + 1] as u32;
    let b2: u32 = bytes[at + 2] as u32;
    let b3: u32 = bytes[at + 3] as u32;
    b0 + 256 * b1 + 65536 * b2 + 16777216 * b3
}

impl Proto {
    /// Well-formedness: a 64-byte handshake and two well-formed streams.
    pub open spec fn wf(&self) -> bool {
        self@.wf()
    }

    /// Whether `sample` may become a handshake: its first byte is not 0xef,
    /// its second word is not zero and its first word is not reserved.
    pub fn admissible(sample: &[u8]) -> (ok: bool)
        ensures
            ok == sample_admissible(sample@),
    {
        if sample.len() != SEED_LEN {
            return false;
        }
        if sample[0] == 0xef || word_at(sample, 4) == 0 {
            return false;
        }
        let first = word_at(sample, 0);
        !(first == 0x44414548 || first == 0x54534f50 || first == 0x20544547 || first == 0x4954504f
            || first == 0xeeeeeeee)
    }

    /// The handshake as it is sent: the first 56 bytes of `plain`, then the
    /// last eight of `cipher`, its ciphertext.
    pub fn seal(plain: &[u8], cipher: &[u8]) -> (seed: Vec<u8>)
        requires
            plain@.len() == SEED_LEN,
            cipher@.len() == SEED_LEN,
        ensures
            seed@ == plain@.subrange(0, 56) + cipher@.subrange(56, 64),
    {
        concat(
            vstd::slice::slice_subrange(plain, 0, 56),
            vstd::slice::slice_subrange(cipher, 56, 64),
        )
    }

    /// The connection to a data center whose handshake is made from the
    /// random bytes `sample`, or `None` where the sample is not admissible.
    pub fn with_entropy(sample: &[u8]) -> (made: Option<Proto>)
        ensures
            made is Some <==> sample_admissible(sample@),
            made matches Some(proto) ==> proto.wf() && proto@ == outbound_state(sample@),
    {
        if !Proto::admissible(sample) {
            return None;
        }
        let mut buf = vstd::slice::slice_to_vec(sample);
        buf.set(56, 0xef);
        buf.set(57, 0xef);
        buf.set(58, 0xef);
        buf.set(59, 0xef);
        assert(buf@ =~= marked(sample@));
        let key_iv_enc = vstd::slice::slice_subrange(buf.as_slice(), 8, 56);
        let key_iv_dec = reversed(key_iv_enc);
        let mut enc = CtrStream::new(
            vstd::slice::slice_subrange(key_iv_enc, 0, 32),
            vstd::slice::slice_subrange(key_iv_enc, 32, 48),
        );
        let dec = CtrStream::new(
            vstd::slice::slice_subrange(key_iv_dec.as_slice(), 0, 32),
            vstd::slice::slice_subrange(key_iv_dec.as_slice(), 32, 48),
        );
        let cipher = enc.apply(buf.as_slice());
        let seed = Proto::seal(buf.as_slice(), cipher.as_slice());
        Some(Proto { seed, dc_idx: 0, dec, enc })
    }

    /// A connection to a data center with a handshake of its own: random
    /// bytes are drawn until a sample is admissible. `None` only where
    /// `MAX_DRAWS` samples in a row were not.
    pub fn new() -> (made: Option<Proto>)
        ensures
            made matches Some(proto) ==> proto.wf() && exists|sample: Seq<u8>|
                sample_admissible(sample) && proto@ == outbound_state(sample),
    {
        let mut draws: u64 = MAX_DRAWS;
        while draws > 0
            decreases draws,
        {
            let sample = random_bytes(SEED_LEN);
            match Proto::with_entropy(sample.as_slice()) {
                Some(proto) => {
                    return Some(proto);
                },
                None => {},
            }
            draws = draws - 1;
        }
        None
    }

    /// Judges a decrypted handshake: the data center it names, or why it is
    /// refused.
    pub fn inspect(plain: &[u8]) -> (judged: Result<usize, Error>)
        requires
            plain@.len() == SEED_LEN,
        ensures
            judged == verdict(plain@),
    {
        if plain[56] != 0xef || plain[57] != 0xef || plain[58] != 0xef || plain[59] != 0xef {
            assert(plain@.subrange(56, 60)[0] == plain@[56]);
            assert(plain@.subrange(56, 60)[1] == plain@[57]);
            assert(plain@.subrange(56, 60)[2] == plain@[58]);
            assert(plain@.subrange(56, 60)[3] == plain@[59]);
            return Err(Error::UnknownProtocol);
        }
        assert(plain@.subrange(56, 60) =~= magic());
        let field = vstd::slice::slice_subrange(plain, 60, 62);
        let raw: i32 = read_i16_le(field) as i32;
        let dc: i32 = if raw < 0 {
            -raw
        } else {
            raw
        };
        if dc == 0 {
            Ok(1)
        } else if dc > 5 {
            Err(Error::UnsupportedDc)
        } else {
            Ok(dc as usize)
        }
    }

    /// Opens the 64-byte handshake `buf` of a client that shares `secret`.
    ///
    /// The handshake is decrypted under the key derived from it and from the
    /// secret; what it then holds decides (see `verdict`).
    pub fn from_seed(buf: &[u8], secret: &[u8]) -> (opened_proto: Result<Proto, Error>)
        requires
            buf@.len() == SEED_LEN,
        ensures
            match verdict(opened(buf@, secret@)) {
                Ok(dc) => opened_proto matches Ok(proto) && proto.wf() && proto@ == inbound_state(
                    buf@,
                    secret@,
                    dc,
                ),
                Err(e) => opened_proto matches Err(err) && err == e,
            },
            opened_proto matches Ok(proto) ==> {
                &&& 1 <= proto@.dc <= MAX_DC
                &&& proto@.seed == buf@
                &&& proto@.dec.key == sha256_digest(buf@.subrange(8, 40) + secret@)
                &&& proto@.enc.key == sha256_digest(
                    buf@.subrange(8, 56).reverse().subrange(0, 32) + secret@,
                )
            },
    {
        let dec_key = sha256(concat(vstd::slice::slice_subrange(buf, 8, 40), secret).as_slice());
        let key_iv_rev = reversed(vstd::slice::slice_subrange(buf, 8, 56));
        let enc_key = sha256(
            concat(vstd::slice::slice_subrange(key_iv_rev.as_slice(), 0, 32), secret).as_slice(),
        );
        let mut dec = CtrStream::new(dec_key.as_slice(), vstd::slice::slice_subrange(buf, 40, 56));
        let enc = CtrStream::new(
            enc_key.as_slice(),
            vstd::slice::slice_subrange(key_iv_rev.as_slice(), 32, 48),
        );
        let buf_dec = dec.apply(buf);
        match Proto::inspect(buf_dec.as_slice()) {
            Ok(dc) => Ok(Proto { seed: vstd::slice::slice_to_vec(buf), dc_idx: dc, dec, enc }),
            Err(e) => Err(e),
        }
    }

    /// The handshake this connection was made with.
    pub fn seed(&self) -> (seed: &[u8])
        ensures
            seed@ == self@.seed,
    {
        self.seed.as_slice()
    }

    /// The data center a client asked for, in 1..=5; 0 on a connection to a
    /// data center.
    pub fn dc(&self) -> (dc: usize)
        ensures
            dc == self@.dc,
    {
        self.dc_idx
    }

    /// Decrypts `input` into `output`.
    pub fn dec(&mut self, input: &[u8], output: &mut Vec<u8>)
        requires
            old(self).wf(),
            input@.len() + 16 <= usize::MAX,
        ensures
            final(self).wf(),
            final(output)@ == old(self)@.dec.apply(input@),
            final(self)@ == (ProtoState { dec: old(self)@.dec.after(input@.len()), ..old(self)@ }),
    {
        let plain = self.dec.apply(input);
        *output = plain;
    }

    /// Encrypts `input` into `output`.
    pub fn enc(&mut self, input: &[u8], output: &mut Vec<u8>)
        requires
            old(self).wf(),
            input@.len() + 16 <= usize::MAX,
        ensures
            final(self).wf(),
            final(output)@ == old(self)@.enc.apply(input@),
            final(self)@ == (ProtoState { enc: old(self)@.enc.after(input@.len()), ..old(self)@ }),
    {
        let cipher = self.enc.apply(input);
        *output = cipher;
    }
}

} // verus!
