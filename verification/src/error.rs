//! The ways in which a connection, or the start of the relay, can fail.

use vstd::prelude::*;

verus! {

#[derive(Clone, Copy, Debug, PartialEq, Eq, Structural)]
pub enum Error {
    /// The handshake does not carry the obfuscation magic.
    UnknownProtocol,
    /// The handshake names a data center outside 1..=5.
    UnsupportedDc,
    /// A bare 41-byte probe came in place of a handshake.
    FakePqReq,
    /// The socket failed with anything but a would-block.
    IoTransport,
    /// The arena is full; no further connection is taken.
    CapacityExceeded,
    /// The list of data centers could not be read.
    BootstrapFailed,
    /// The secret is not written in hexadecimal.
    MalformedSecret,
    /// The secret is not 16 bytes long.
    UnsupportedSecretLength,
}

} // verus!
