//! The two primitives the handshake rests on, SHA-256 and the AES-256-CTR
//! keystream, and the stream cipher state built over the keystream.
//!
//! A stream is held as plain values: its key, the counter block it stands
//! in, and how far into that block it is. For every chunk the keystream is
//! asked for anew from the block the stream stands in, laid over the chunk,
//! and the counter is moved past what was used; so a stream goes on, chunk
//! after chunk, where it stopped, and is never set back.

use crypto::digest::Digest;
use crypto::symmetriccipher::SynchronousStreamCipher;
use vstd::prelude::*;

verus! {

/// Length of an AES-256 key in bytes.
pub const KEY_LEN: usize = 32;

/// Length of a counter block in bytes.
pub const BLOCK_LEN: usize = 16;

/// SHA-256 digest of `data`, as `crypto::sha2::Sha256` computes it.
pub uninterp spec fn sha256_digest(data: Seq<u8>) -> Seq<u8>;

/// The first `len` bytes that AES-256 in counter mode produces for `key`,
/// starting at the counter block `counter`, as `crypto::aes::ctr` computes
/// them.
pub uninterp spec fn aes256_ctr_keystream(key: Seq<u8>, counter: Seq<u8>, len: nat) -> Seq<u8>;

/// Calls `crypto::sha2::Sha256` (`new`, `input`, `result`) on `data`.
///
/// Trusted: the digest depends on `data` alone and is `output_bytes()`, that
/// is 32, bytes long.
#[verifier::external_body]
pub(crate) fn sha256(data: &[u8]) -> (digest: Vec<u8>)
    ensures
        digest@ == sha256_digest(data@),
        digest@.len() == 32,
{
    let mut hash = crypto::sha2::Sha256::new();
    let mut digest = vec![0u8; hash.output_bytes()];
    hash.input(data);
    hash.result(&mut digest);
    digest
}

/// Calls `crypto::aes::ctr` with a 256-bit key and runs the cipher it returns
/// over `len` zero bytes, which leaves the keystream itself in the output.
///
/// Trusted: the bytes depend on `key`, `counter` and `len` alone, and there
/// are `len` of them.
#[verifier::external_body]
fn ctr_keystream(key: &[u8], counter: &[u8], len: usize) -> (pad: Vec<u8>)
    requires
        key@.len() == KEY_LEN,
        counter@.len() == BLOCK_LEN,
    ensures
        pad@ == aes256_ctr_keystream(key@, counter@, len as nat),
        pad@.len() == len,
{
    let zeros = vec![0u8; len];
    let mut pad = vec![0u8; len];
    crypto::aes::ctr(crypto::aes::KeySize::KeySize256, key, counter).process(&zeros, &mut pad);
    pad
}

/// The counter block that follows `counter`: the block read as one
/// big-endian number, plus one, wrapping to zero after the largest.
pub open spec fn next_counter(counter: Seq<u8>) -> Seq<u8>
    decreases counter.len(),
{
    if counter.len() == 0 {
        counter
    } else if counter.last() < 255 {
        counter.drop_last().push((counter.last() + 1) as u8)
    } else {
        next_counter(counter.drop_last()).push(0u8)
    }
}

/// The counter block `blocks` steps after `counter`.
pub open spec fn counter_after(counter: Seq<u8>, blocks: nat) -> Seq<u8>
    decreases blocks,
{
    if blocks == 0 {
        counter
    } else {
        next_counter(counter_after(counter, (blocks - 1) as nat))
    }
}

/// The number that `counter` writes, most significant byte first.
pub open spec fn counter_value(counter: Seq<u8>) -> nat
    decreases counter.len(),
{
    if counter.len() == 0 {
        0
    } else {
        256 * counter_value(counter.drop_last()) + counter.last() as nat
    }
}

/// How many counter blocks of `len` bytes there are: 256 to the power of
/// `len`.
pub open spec fn counter_span(len: nat) -> nat
    decreases len,
{
    if len == 0 {
        1
    } else {
        256 * counter_span((len - 1) as nat)
    }
}

/// Stepping a counter block adds one to the number it writes, and the
/// largest number is followed by zero.
pub proof fn lemma_next_counter(counter: Seq<u8>)
    ensures
        next_counter(counter).len() == counter.len(),
        counter_value(counter) < counter_span(counter.len()),
        counter_value(next_counter(counter)) == (counter_value(counter) + 1) % counter_span(
            counter.len(),
        ),
    decreases counter.len(),
{
    let span = counter_span(counter.len());
    if counter.len() == 0 {
        assert((0nat + 1) % 1nat == 0);
    } else {
        let head = counter.drop_last();
        let head_span = counter_span(head.len());
        lemma_next_counter(head);
        assert(span == 256 * head_span);
        if counter.last() < 255 {
            let next = head.push((counter.last() + 1) as u8);
            assert(next.drop_last() == head);
            assert(counter_value(next) == counter_value(counter) + 1);
            vstd::arithmetic::div_mod::lemma_small_mod(counter_value(next), span);
        } else {
            let next = next_counter(head).push(0u8);
            assert(next.drop_last() == next_counter(head));
            assert(counter_value(next) == 256 * counter_value(next_counter(head)));
            if counter_value(head) + 1 < head_span {
                vstd::arithmetic::div_mod::lemma_small_mod(
                    counter_value(head) + 1,
                    head_span,
                );
                vstd::arithmetic::div_mod::lemma_small_mod(counter_value(next), span);
            } else {
                vstd::arithmetic::div_mod::lemma_mod_self_0(head_span as int);
                vstd::arithmetic::div_mod::lemma_mod_self_0(span as int);
                assert(counter_value(counter) + 1 == span);
            }
        }
    }
}

/// The counter block `blocks` steps after `counter` writes the number of
/// `counter` plus `blocks`, counted modulo the number of blocks there are.
pub proof fn lemma_counter_after(counter: Seq<u8>, blocks: nat)
    ensures
        counter_after(counter, blocks).len() == counter.len(),
        counter_value(counter_after(counter, blocks)) == (counter_value(counter) + blocks)
            % counter_span(counter.len()),
    decreases blocks,
{
    let span = counter_span(counter.len()) as int;
    lemma_next_counter(counter);
    if blocks == 0 {
        vstd::arithmetic::div_mod::lemma_small_mod(counter_value(counter), span as nat);
    } else {
        let before = counter_after(counter, (blocks - 1) as nat);
        lemma_counter_after(counter, (blocks - 1) as nat);
        lemma_next_counter(before);
        vstd::arithmetic::div_mod::lemma_add_mod_noop(
            counter_value(counter) + blocks - 1,
            1,
            span,
        );
        if span == 1 {
            assert(counter_value(before) == 0);
        } else {
            vstd::arithmetic::div_mod::lemma_small_mod(1, span as nat);
        }
    }
}

/// Bytewise exclusive or of `data` with the front of `pad`.
pub open spec fn xor_bytes(data: Seq<u8>, pad: Seq<u8>) -> Seq<u8> {
    Seq::new(data.len(), |i: int| data[i] ^ pad[i])
}

/// What a counter-mode stream is: its key, the counter block it stands in,
/// and how many bytes of that block's keystream are spent.
pub struct StreamState {
    pub key: Seq<u8>,
    pub counter: Seq<u8>,
    pub used: nat,
}

impl StreamState {
    /// A stream that has produced nothing yet.
    pub open spec fn fresh(key: Seq<u8>, iv: Seq<u8>) -> StreamState {
        StreamState { key, counter: iv, used: 0 }
    }

    pub open spec fn wf(self) -> bool {
        &&& self.key.len() == KEY_LEN
        &&& self.counter.len() == BLOCK_LEN
        &&& self.used < BLOCK_LEN
    }

    /// The next `len` bytes of keystream.
    pub open spec fn pad(self, len: nat) -> Seq<u8> {
        aes256_ctr_keystream(self.key, self.counter, self.used + len).skip(self.used as int)
    }

    /// The stream once `len` more bytes are spent.
    pub open spec fn after(self, len: nat) -> StreamState {
        StreamState {
            key: self.key,
            counter: counter_after(self.counter, (self.used + len) / (BLOCK_LEN as nat)),
            used: (self.used + len) % (BLOCK_LEN as nat),
        }
    }

    /// `data` under the stream: encryption and decryption alike.
    pub open spec fn apply(self, data: Seq<u8>) -> Seq<u8> {
        xor_bytes(data, self.pad(data.len()))
    }
}

/// Advancing a stream in two steps is advancing it once by the sum.
pub proof fn lemma_after_after(stream: StreamState, first: nat, second: nat)
    requires
        stream.wf(),
    ensures
        stream.after(first).wf(),
        stream.after(first).after(second) == stream.after(first + second),
{
    let whole = (stream.used + first) / 16;
    let left = (stream.used + first) % 16;
    let more = (left + second) / 16;
    assert((stream.used + first + second) / 16 == whole + more && (stream.used + first + second)
        % 16 == (left + second) % 16) by (nonlinear_arith)
        requires
            whole == (stream.used + first) / 16,
            left == (stream.used + first) % 16,
            more == (left + second) / 16,
    ;
    lemma_counter_split(stream.counter, whole, more);
    lemma_counter_after(stream.counter, whole);
}

/// Stepping a counter block `first` times and then `second` times is
/// stepping it `first + second` times.
pub proof fn lemma_counter_split(counter: Seq<u8>, first: nat, second: nat)
    ensures
        counter_after(counter_after(counter, first), second) == counter_after(
            counter,
            first + second,
        ),
    decreases second,
{
    if second > 0 {
        lemma_counter_split(counter, first, (second - 1) as nat);
    }
}

/// Applying one pad twice gives the data back.
pub proof fn lemma_xor_twice(data: Seq<u8>, pad: Seq<u8>)
    ensures
        xor_bytes(xor_bytes(data, pad), pad) == data,
{
    assert forall|i: int| 0 <= i < data.len() implies #[trigger] xor_bytes(
        xor_bytes(data, pad),
        pad,
    )[i] == data[i] by {
        let a = data[i];
        let b = pad[i];
        assert((a ^ b) ^ b == a) by (bit_vector);
    }
    assert(xor_bytes(xor_bytes(data, pad), pad) =~= data);
}

/// A stream in the state in which another encrypted some data decrypts that
/// data: the two directions of one stream are inverse to each other.
pub proof fn lemma_stream_round_trip(stream: StreamState, data: Seq<u8>)
    ensures
        stream.apply(stream.apply(data)) == data,
{
    assert(stream.apply(data).len() == data.len());
    lemma_xor_twice(data, stream.pad(data.len()));
}

/// One direction of a connection's cipher: AES-256 in counter mode, held as
/// plain values so that it can be carried from one chunk to the next.
pub struct CtrStream {
    key: Vec<u8>,
    counter: Vec<u8>,
    used: usize,
}

impl View for CtrStream {
    type V = StreamState;

    closed spec fn view(&self) -> StreamState {
        StreamState { key: self.key@, counter: self.counter@, used: self.used as nat }
    }
}

/// Steps `counter` to the block that follows it.
fn step_counter(counter: &mut Vec<u8>)
    ensures
        final(counter)@ == next_counter(old(counter)@),
        final(counter)@.len() == old(counter)@.len(),
{
    let ghost start = counter@;
    let mut i: usize = counter.len();
    assert(start.take(i as int) == start);
    assert(next_counter(start) + counter@.skip(i as int) == next_counter(start));
    while i > 0
        invariant
            i <= counter.len(),
            start == old(counter)@,
            counter@.len() == start.len(),
            forall|j: int| 0 <= j < i ==> counter@[j] == start[j],
            forall|j: int| i <= j < start.len() ==> counter@[j] == 0u8,
            next_counter(start) == next_counter(start.take(i as int)) + counter@.skip(i as int),
        decreases i,
    {
        i = i - 1;
        let ghost head = start.take(i + 1);
        assert(head.drop_last() == start.take(i as int));
        assert(head.last() == start[i as int]);
        if counter[i] < 255 {
            let ghost before = counter@;
            counter.set(i, counter[i] + 1);
            assert(counter@ == next_counter(head) + before.skip(i + 1));
            return ;
        }
        counter.set(i, 0);
        assert(counter@.skip(i as int) == seq![0u8] + counter@.skip(i + 1));
        assert(next_counter(head) + counter@.skip(i + 1) == next_counter(start.take(i as int))
            + counter@.skip(i as int));
    }
    assert(start.take(0) == Seq::<u8>::empty());
    assert(counter@.skip(0) == counter@);
}

/// `data` with the front of `pad` laid over it, byte by byte.
pub fn mask(data: &[u8], pad: &[u8]) -> (masked: Vec<u8>)
    requires
        data@.len() <= pad@.len(),
    ensures
        masked@ == xor_bytes(data@, pad@),
{
    let len = data.len();
    let mut masked: Vec<u8> = Vec::new();
    let mut i: usize = 0;
    while i < len
        invariant
            i <= len,
            len == data@.len(),
            len <= pad@.len(),
            masked@.len() == i,
            forall|j: int| 0 <= j < i ==> masked@[j] == data@[j] ^ pad@[j],
        decreases len - i,
    {
        masked.push(data[i] ^ pad[i]);
        i = i + 1;
    }
    assert(masked@ =~= xor_bytes(data@, pad@));
    masked
}

impl CtrStream {
    /// Well-formedness: a 32-byte key, a 16-byte counter block, and an offset
    /// inside that block.
    pub open spec fn wf(&self) -> bool {
        self@.wf()
    }

    /// A stream over `key` that starts at the counter block `iv`.
    pub fn new(key: &[u8], iv: &[u8]) -> (stream: CtrStream)
        requires
            key@.len() == KEY_LEN,
            iv@.len() == BLOCK_LEN,
        ensures
            stream.wf(),
            stream@ == StreamState::fresh(key@, iv@),
    {
        CtrStream { key: vstd::slice::slice_to_vec(key), counter: vstd::slice::slice_to_vec(iv), used: 0 }
    }

    /// The counter block the stream stands in.
    pub fn counter(&self) -> (counter: &[u8])
        ensures
            counter@ == self@.counter,
    {
        self.counter.as_slice()
    }

    /// How many bytes of the block's keystream are spent.
    pub fn used(&self) -> (used: usize)
        ensures
            used == self@.used,
    {
        self.used
    }

    /// Moves the stream past `len` bytes.
    pub fn advance(&mut self, len: usize)
        requires
            old(self).wf(),
            len + BLOCK_LEN <= usize::MAX,
        ensures
            final(self).wf(),
            final(self)@ == old(self)@.after(len as nat),
    {
        let span = self.used + len;
        let blocks = span / BLOCK_LEN;
        let mut done: usize = 0;
        while done < blocks
            invariant
                done <= blocks,
                self.key == old(self).key,
                self.used == old(self).used,
                self.counter@.len() == BLOCK_LEN,
                self.counter@ == counter_after(old(self).counter@, done as nat),
            decreases blocks - done,
        {
            step_counter(&mut self.counter);
            done = done + 1;
        }
        self.used = span % BLOCK_LEN;
    }

    /// Runs `input` through the stream and moves the stream past it.
    pub fn apply(&mut self, input: &[u8]) -> (output: Vec<u8>)
        requires
            old(self).wf(),
            input@.len() + BLOCK_LEN <= usize::MAX,
        ensures
            final(self).wf(),
            output@ == old(self)@.apply(input@),
            output@.len() == input@.len(),
            final(self)@ == old(self)@.after(input@.len()),
    {
        let pad = ctr_keystream(
            self.key.as_slice(),
            self.counter.as_slice(),
            self.used + input.len(),
        );
        let output = mask(input, vstd::slice::slice_subrange(pad.as_slice(), self.used, pad.len()));
        assert(pad@.subrange(self.used as int, pad@.len() as int) =~= pad@.skip(self.used as int));
        self.advance(input.len());
        output
    }
}

} // verus!
