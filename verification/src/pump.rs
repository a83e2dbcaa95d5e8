//! One end of a relay: the cipher state of a connection and the bytes that
//! wait on either side of its socket. The socket itself stays with the
//! caller, which reports what each read and write did.

use crate::error::Error;
use crate::proto::{inbound_state, opened, verdict, Proto, ProtoState, SEED_LEN};
use vstd::prelude::*;

verus! {

/// Size of the scratch buffer one read fills at most.
pub const BUF_SIZE: usize = 131072;

/// The most bytes a pump holds unread before it stops asking for more.
pub const MAX_READ_BUF_SIZE: usize = 131070;

/// Length of the bare probe that is refused in place of a handshake.
pub const FAKE_PQ_LEN: usize = 41;

/// The readiness conditions a pump asks its selector to report.
#[derive(Clone, Copy, Debug, PartialEq, Eq, Structural)]
pub struct Interest {
    pub readable: bool,
    pub writable: bool,
    pub error: bool,
    pub hup: bool,
}

/// What one read on the socket did.
#[derive(Debug, PartialEq, Eq)]
pub enum ReadEvent {
    /// These bytes came in.
    Data(Vec<u8>),
    /// The read returned nothing: the other side has closed.
    Closed,
    /// Nothing to read for now.
    WouldBlock,
    /// The read failed.
    Failed,
}

/// What one write on the socket did.
#[derive(Clone, Copy, Debug, PartialEq, Eq)]
pub enum WriteEvent {
    /// The socket took this many of the bytes offered.
    Wrote(usize),
    /// The socket takes nothing for now.
    WouldBlock,
    /// The write failed.
    Failed,
}

/// What to do next while draining a socket.
#[derive(Clone, Copy, Debug, PartialEq, Eq)]
pub enum Drained {
    /// Read again, at most this many bytes.
    More(usize),
    /// Stop reading. Where a handshake was opened since the drain began,
    /// the data center it names.
    Done(Option<i16>),
}

/// What to do next while flushing to a socket.
#[derive(Clone, Copy, Debug, PartialEq, Eq)]
pub enum Flushed {
    /// Offer the pending bytes again.
    More,
    /// Stop writing.
    Done,
}

/// What a pump is.
pub struct PumpState {
    pub secret: Seq<u8>,
    pub proto: Option<ProtoState>,
    /// Bytes read and not yet pulled: ciphertext, but for the part of a
    /// handshake that has come so far.
    pub read_buf: Seq<u8>,
    /// Bytes ready to be sent, already encrypted.
    pub write_buf: Seq<u8>,
    pub interest: Interest,
    /// The data center of a handshake opened in the drain under way.
    pub link: Option<i16>,
}

impl PumpState {
    /// The cipher state, where there is one, is well formed, and the read
    /// buffer is within its bound.
    pub open spec fn wf(self) -> bool {
        &&& self.read_buf.len() <= MAX_READ_BUF_SIZE
        &&& self.proto matches Some(proto) ==> proto.wf()
    }

    /// A pump is ready once its handshake is done.
    pub open spec fn ready(self) -> bool {
        self.proto is Some
    }

    /// How many bytes the read buffer still takes.
    pub open spec fn room(self) -> int {
        MAX_READ_BUF_SIZE - self.read_buf.len()
    }

    /// The state of a pump made for an accepted client.
    pub open spec fn upstream(secret: Seq<u8>) -> PumpState {
        PumpState {
            secret,
            proto: None,
            read_buf: Seq::empty(),
            write_buf: Seq::empty(),
            interest: Interest { readable: true, writable: false, error: true, hup: true },
            link: None,
        }
    }

    /// The state of a pump made for a connection to a data center.
    pub open spec fn downstream(secret: Seq<u8>, proto: ProtoState) -> PumpState {
        PumpState {
            secret,
            proto: Some(proto),
            read_buf: Seq::empty(),
            write_buf: proto.seed,
            interest: Interest { readable: true, writable: true, error: true, hup: true },
            link: None,
        }
    }

    /// The pump after `input` was pushed.
    pub open spec fn pushed(self, input: Seq<u8>) -> PumpState {
        match self.proto {
            Some(proto) => PumpState {
                proto: Some(ProtoState { enc: proto.enc.after(input.len()), ..proto }),
                write_buf: self.write_buf + proto.enc.apply(input),
                interest: Interest { writable: true, ..self.interest },
                ..self
            },
            None => self,
        }
    }

    /// What a pull hands out.
    pub open spec fn pull_output(self) -> Seq<u8> {
        match self.proto {
            Some(proto) => proto.dec.apply(self.read_buf),
            None => Seq::empty(),
        }
    }

    /// The pump after a pull.
    pub open spec fn pulled(self) -> PumpState {
        match self.proto {
            Some(proto) => PumpState {
                proto: Some(ProtoState { dec: proto.dec.after(self.read_buf.len()), ..proto }),
                read_buf: Seq::empty(),
                interest: Interest { readable: true, ..self.interest },
                ..self
            },
            None => self,
        }
    }

    /// The decision before a read: stop, and ask for no more, once the read
    /// buffer is full; else read what still fits.
    pub open spec fn read_next(self) -> (PumpState, Drained) {
        if self.read_buf.len() >= MAX_READ_BUF_SIZE {
            (
                PumpState {
                    interest: Interest { readable: false, ..self.interest },
                    link: None,
                    ..self
                },
                Drained::Done(self.link),
            )
        } else if self.room() < BUF_SIZE {
            (self, Drained::More(self.room() as usize))
        } else {
            (self, Drained::More(BUF_SIZE))
        }
    }

    /// The pump after `data` came in, or the reason why the connection is
    /// refused. A pump that is not ready looks for its handshake.
    pub open spec fn absorbed(self, data: Seq<u8>) -> (PumpState, Option<Error>) {
        let grown = self.read_buf + data;
        if self.ready() {
            (PumpState { read_buf: grown, ..self }, None)
        } else if grown.len() == FAKE_PQ_LEN {
            (PumpState { read_buf: grown, ..self }, Some(Error::FakePqReq))
        } else if grown.len() < SEED_LEN {
            (PumpState { read_buf: grown, ..self }, None)
        } else {
            let seed = grown.subrange(0, SEED_LEN as int);
            let rest = grown.subrange(SEED_LEN as int, grown.len() as int);
            match verdict(opened(seed, self.secret)) {
                Ok(dc) => (
                    PumpState {
                        read_buf: rest,
                        proto: Some(inbound_state(seed, self.secret, dc)),
                        link: Some(dc as i16),
                        ..self
                    },
                    None,
                ),
                Err(e) => (PumpState { read_buf: rest, ..self }, Some(e)),
            }
        }
    }

    /// The pump after one read, and what to do next.
    pub open spec fn drained(self, event: ReadEvent) -> (PumpState, Result<Drained, Error>) {
        match event {
            ReadEvent::Failed => (self, Err(Error::IoTransport)),
            ReadEvent::Closed | ReadEvent::WouldBlock => (
                PumpState { link: None, ..self },
                Ok(Drained::Done(self.link)),
            ),
            ReadEvent::Data(data) => if data@.len() == 0 {
                (PumpState { link: None, ..self }, Ok(Drained::Done(self.link)))
            } else {
                let (grown, refused) = self.absorbed(data@);
                match refused {
                    Some(e) => (grown, Err(e)),
                    None => (grown.read_next().0, Ok(grown.read_next().1)),
                }
            },
        }
    }

    /// The pump after one write, and what to do next.
    pub open spec fn flushed(self, event: WriteEvent) -> (PumpState, Result<Flushed, Error>) {
        match event {
            WriteEvent::Failed => (self, Err(Error::IoTransport)),
            WriteEvent::WouldBlock => (self, Ok(Flushed::Done)),
            WriteEvent::Wrote(n) => {
                let rest = self.write_buf.subrange(n as int, self.write_buf.len() as int);
                if rest.len() == 0 {
                    (
                        PumpState {
                            write_buf: rest,
                            interest: Interest { writable: false, ..self.interest },
                            ..self
                        },
                        Ok(Flushed::Done),
                    )
                } else {
                    (PumpState { write_buf: rest, ..self }, Ok(Flushed::More))
                }
            },
        }
    }
}

/// What a ready pump appends to its write buffer, a reader whose stream
/// stands where the pump's encrypting stream stood turns back into the
/// plaintext that was pushed, byte for byte and in order.
pub proof fn lemma_push_recovered(pump: PumpState, input: Seq<u8>)
    requires
        pump.ready(),
    ensures
        pump.pushed(input).write_buf.subrange(0, pump.write_buf.len() as int) == pump.write_buf,
        pump.proto->0.enc.apply(
            pump.pushed(input).write_buf.subrange(
                pump.write_buf.len() as int,
                pump.pushed(input).write_buf.len() as int,
            ),
        ) == input,
{
    let stream = pump.proto->0.enc;
    let sent = stream.apply(input);
    let after = pump.pushed(input).write_buf;
    assert(after.subrange(0, pump.write_buf.len() as int) =~= pump.write_buf);
    assert(after.subrange(pump.write_buf.len() as int, after.len() as int) =~= sent);
    crate::cipher::lemma_stream_round_trip(stream, input);
}

/// What one pump pushed and its reader pulled is the plaintext again: a
/// pump whose decrypting stream stands where the sender's encrypting stream
/// stood, and which has read exactly what the sender appended, pulls the
/// sender's input.
pub proof fn lemma_pull_inverts_push(sender: PumpState, reader: PumpState, input: Seq<u8>)
    requires
        sender.ready(),
        reader.ready(),
        reader.proto->0.dec == sender.proto->0.enc,
        reader.read_buf == sender.proto->0.enc.apply(input),
    ensures
        reader.pull_output() == input,
{
    crate::cipher::lemma_stream_round_trip(sender.proto->0.enc, input);
}

/// No step of a drain leaves more than `MAX_READ_BUF_SIZE` bytes unread.
pub proof fn lemma_drain_bounded(pump: PumpState, event: ReadEvent)
    requires
        pump.wf(),
        event matches ReadEvent::Data(data) ==> data@.len() <= pump.room(),
    ensures
        pump.drained(event).0.read_buf.len() <= MAX_READ_BUF_SIZE,
        pump.read_next().0.read_buf.len() <= MAX_READ_BUF_SIZE,
        pump.read_next().1 is Done ==> !pump.read_next().0.interest.readable,
{
}

/// One end of a relay.
pub struct Pump {
    secret: Vec<u8>,
    proto: Option<Proto>,
    read_buf: Vec<u8>,
    write_buf: Vec<u8>,
    interest: Interest,
    link_pending: Option<i16>,
}

impl View for Pump {
    type V = PumpState;

    closed spec fn view(&self) -> PumpState {
        PumpState {
            secret: self.secret@,
            proto: match self.proto {
                Some(proto) => Some(proto@),
                None => None,
            },
            read_buf: self.read_buf@,
            write_buf: self.write_buf@,
            interest: self.interest,
            link: self.link_pending,
        }
    }
}

impl Pump {
    /// Well-formedness: the cipher state, where there is one, is well
    /// formed, and the read buffer is within its bound.
    pub open spec fn wf(&self) -> bool {
        self@.wf()
    }

    /// The pump of an accepted client: not ready, nothing buffered, waiting
    /// to read.
    pub fn upstream(secret: &[u8]) -> (pump: Pump)
        ensures
            pump.wf(),
            pump@ == PumpState::upstream(secret@),
    {
        Pump {
            secret: vstd::slice::slice_to_vec(secret),
            proto: None,
            read_buf: Vec::new(),
            write_buf: Vec::new(),
            interest: Interest { readable: true, writable: false, error: true, hup: true },
            link_pending: None,
        }
    }

    /// The pump of a connection to a data center that opens with `proto`'s
    /// handshake: the handshake is the first thing to be sent, as it is.
    pub fn seeded(secret: &[u8], proto: Proto) -> (pump: Pump)
        requires
            proto.wf(),
        ensures
            pump.wf(),
            pump@ == PumpState::downstream(secret@, proto@),
    {
        let write_buf = vstd::slice::slice_to_vec(proto.seed());
        Pump {
            secret: vstd::slice::slice_to_vec(secret),
            proto: Some(proto),
            read_buf: Vec::new(),
            write_buf,
            interest: Interest { readable: true, writable: true, error: true, hup: true },
            link_pending: None,
        }
    }

    /// The pump of a connection to a data center, with a fresh handshake.
    /// `None` only where `Proto::new` found no admissible sample.
    pub fn downstream(secret: &[u8]) -> (made: Option<Pump>)
        ensures
            made matches Some(pump) ==> pump.wf() && exists|sample: Seq<u8>|
                crate::proto::sample_admissible(sample) && pump@ == PumpState::downstream(
                    secret@,
                    crate::proto::outbound_state(sample),
                ),
    {
        match Proto::new() {
            Some(proto) => Some(Pump::seeded(secret, proto)),
            None => None,
        }
    }

    /// The readiness conditions to ask for.
    pub fn interest(&self) -> (interest: Interest)
        ensures
            interest == self@.interest,
    {
        self.interest
    }

    /// Whether the handshake is done.
    pub fn is_ready(&self) -> (ready: bool)
        ensures
            ready == self@.ready(),
    {
        self.proto.is_some()
    }

    /// The bytes to offer to the socket.
    pub fn pending(&self) -> (bytes: &[u8])
        ensures
            bytes@ == self@.write_buf,
    {
        self.write_buf.as_slice()
    }

    /// How many bytes wait to be pulled.
    pub fn unread(&self) -> (len: usize)
        ensures
            len == self@.read_buf.len(),
    {
        self.read_buf.len()
    }

    /// Takes plaintext for the other side: encrypts it behind what is
    /// already waiting and asks for a writable socket. A pump that is not
    /// ready drops it.
    pub fn push(&mut self, input: &[u8])
        requires
            old(self).wf(),
            input@.len() + 16 <= usize::MAX,
        ensures
            final(self).wf(),
            final(self)@ == old(self)@.pushed(input@),
    {
        match &mut self.proto {
            Some(proto) => {
                let mut buf: Vec<u8> = Vec::new();
                proto.enc(input, &mut buf);
                self.write_buf.append(&mut buf);
                self.interest.writable = true;
            },
            None => {},
        }
    }

    /// Hands out, decrypted, what was read, and asks for a readable socket
    /// again. A pump that is not ready hands out nothing and keeps what it
    /// has.
    pub fn pull(&mut self) -> (output: Vec<u8>)
        requires
            old(self).wf(),
        ensures
            final(self).wf(),
            output@ == old(self)@.pull_output(),
            output@.len() <= MAX_READ_BUF_SIZE,
            final(self)@ == old(self)@.pulled(),
    {
        match &mut self.proto {
            Some(proto) => {
                let mut buf: Vec<u8> = Vec::new();
                proto.dec(self.read_buf.as_slice(), &mut buf);
                self.read_buf.clear();
                self.interest.readable = true;
                buf
            },
            None => Vec::new(),
        }
    }

    /// Begins a drain: says whether to read, and how much.
    pub fn begin_drain(&mut self) -> (next: Drained)
        requires
            old(self).wf(),
        ensures
            final(self).wf(),
            (final(self)@, next) == old(self)@.read_next(),
            next matches Drained::More(quota) ==> 0 < quota <= final(self)@.room(),
    {
        let len = self.read_buf.len();
        if len >= MAX_READ_BUF_SIZE {
            self.interest.readable = false;
            let link = self.link_pending;
            self.link_pending = None;
            Drained::Done(link)
        } else if MAX_READ_BUF_SIZE - len < BUF_SIZE {
            Drained::More(MAX_READ_BUF_SIZE - len)
        } else {
            Drained::More(BUF_SIZE)
        }
    }

    /// Takes in what one read did, and says what to do next.
    ///
    /// Bytes that came in join the read buffer. A pump that is not ready
    /// refuses a buffer of exactly 41 bytes, and opens its handshake as soon
    /// as 64 bytes are there; what follows them stays in the buffer.
    pub fn drain(&mut self, event: ReadEvent) -> (next: Result<Drained, Error>)
        requires
            old(self).wf(),
            event matches ReadEvent::Data(data) ==> data@.len() <= old(self)@.room(),
        ensures
            final(self).wf(),
            (final(self)@, next) == old(self)@.drained(event),
            next matches Ok(Drained::More(quota)) ==> 0 < quota <= final(self)@.room(),
    {
        match event {
            ReadEvent::Failed => Err(Error::IoTransport),
            ReadEvent::Closed | ReadEvent::WouldBlock => {
                let link = self.link_pending;
                self.link_pending = None;
                Ok(Drained::Done(link))
            },
            ReadEvent::Data(data) => {
                if data.len() == 0 {
                    let link = self.link_pending;
                    self.link_pending = None;
                    return Ok(Drained::Done(link));
                }
                let mut data = data;
                self.read_buf.append(&mut data);
                if self.proto.is_none() {
                    if self.read_buf.len() == FAKE_PQ_LEN {
                        return Err(Error::FakePqReq);
                    }
                    if self.read_buf.len() >= SEED_LEN {
                        let rest = self.read_buf.split_off(SEED_LEN);
                        let opened_proto = Proto::from_seed(
                            self.read_buf.as_slice(),
                            self.secret.as_slice(),
                        );
                        self.read_buf = rest;
                        match opened_proto {
                            Ok(proto) => {
                                self.link_pending = Some(proto.dc() as i16);
                                self.proto = Some(proto);
                            },
                            Err(e) => {
                                return Err(e);
                            },
                        }
                    }
                }
                Ok(self.begin_drain())
            },
        }
    }

    /// Takes in what one write did, and says what to do next.
    ///
    /// Bytes that the socket took leave the write buffer; once it is empty
    /// the pump no longer asks for a writable socket.
    pub fn flush(&mut self, event: WriteEvent) -> (next: Result<Flushed, Error>)
        requires
            old(self).wf(),
            event matches WriteEvent::Wrote(n) ==> n <= old(self)@.write_buf.len(),
        ensures
            final(self).wf(),
            (final(self)@, next) == old(self)@.flushed(event),
    {
        match event {
            WriteEvent::Failed => Err(Error::IoTransport),
            WriteEvent::WouldBlock => Ok(Flushed::Done),
            WriteEvent::Wrote(n) => {
                let rest = self.write_buf.split_off(n);
                self.write_buf = rest;
                if self.write_buf.len() == 0 {
                    self.interest.writable = false;
                    Ok(Flushed::Done)
                } else {
                    Ok(Flushed::More)
                }
            },
        }
    }
}

} // verus!
