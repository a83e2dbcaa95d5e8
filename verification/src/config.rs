//! What the relay is started with: its own secret, and where the data
//! centers are.

use crate::error::Error;
use rand::Rng;
use rustc_serialize::hex::FromHex;
use std::collections::HashMap;
use vstd::prelude::*;

verus! {

/// An IP address and a TCP port.
#[derive(Clone, Copy, Debug, PartialEq, Eq)]
pub enum Endpoint {
    /// The four bytes of an IPv4 address, and the port.
    V4([u8; 4], u16),
    /// The sixteen bytes of an IPv6 address, and the port.
    V6([u8; 16], u16),
}

/// Picks one of `items` with `rand::Rng::choose` on `rand::thread_rng()`.
///
/// Trusted: of an empty slice nothing is picked; else what is picked is one
/// of the items. Which one is not said. (The generator panics where the
/// system gives it no seed.)
#[verifier::external_body]
fn pick_one<'a>(items: &'a [Endpoint]) -> (picked: Option<&'a Endpoint>)
    ensures
        match picked {
            Some(item) => items@.contains(*item),
            None => items@.len() == 0,
        },
{
    rand::thread_rng().choose(items)
}

/// Length of the secret shared with the clients, in bytes.
pub const SECRET_LEN: usize = 16;

/// The bytes that `text` writes in hexadecimal, as
/// `rustc_serialize::hex::FromHex::from_hex` reads them; `None` where it
/// reads none.
pub uninterp spec fn hex_decoded(text: Seq<char>) -> Option<Seq<u8>>;

/// Calls `rustc_serialize::hex::FromHex::from_hex` on `text`; an error
/// becomes `None`.
///
/// Trusted: the outcome depends on `text` alone.
#[verifier::external_body]
fn hex_to_bytes(text: &str) -> (bytes: Option<Vec<u8>>)
    ensures
        match bytes {
            Some(bytes) => hex_decoded(text@) == Some(bytes@),
            None => hex_decoded(text@) is None,
        },
{
    text.from_hex().ok()
}

/// Judges a secret that was read from hexadecimal: it has to be there, and
/// to be 16 bytes long.
pub fn check_secret(decoded: Option<Vec<u8>>) -> (secret: Result<Vec<u8>, Error>)
    ensures
        match decoded {
            None => secret == Err::<Vec<u8>, Error>(Error::MalformedSecret),
            Some(bytes) => if bytes@.len() == SECRET_LEN {
                secret == Ok::<Vec<u8>, Error>(bytes)
            } else {
                secret == Err::<Vec<u8>, Error>(Error::UnsupportedSecretLength)
            },
        },
{
    match decoded {
        None => Err(Error::MalformedSecret),
        Some(bytes) => if bytes.len() == SECRET_LEN {
            Ok(bytes)
        } else {
            Err(Error::UnsupportedSecretLength)
        },
    }
}

/// Reads the relay's secret from the hexadecimal `text`.
pub fn parse_secret(text: &str) -> (secret: Result<Vec<u8>, Error>)
    ensures
        match hex_decoded(text@) {
            None => secret == Err::<Vec<u8>, Error>(Error::MalformedSecret),
            Some(bytes) => if bytes.len() == SECRET_LEN {
                secret matches Ok(read) && read@ == bytes
            } else {
                secret == Err::<Vec<u8>, Error>(Error::UnsupportedSecretLength)
            },
        },
{
    check_secret(hex_to_bytes(text))
}

/// One line of the data centers' listing: a data center and the text of one
/// of its endpoints.
#[derive(Debug, PartialEq, Eq)]
pub struct ProxyFor {
    pub dc: i16,
    pub addr: Vec<u8>,
}

/// The words that open a line of the listing that names an endpoint.
pub open spec fn entry_prefix() -> Seq<u8> {
    seq![0x70u8, 0x72u8, 0x6fu8, 0x78u8, 0x79u8, 0x5fu8, 0x66u8, 0x6fu8, 0x72u8, 0x20u8]
}

/// How many bytes of `text` come before its first line feed.
pub open spec fn line_len(text: Seq<u8>) -> nat
    decreases text.len(),
{
    if text.len() == 0 || text[0] == 0x0a {
        0
    } else {
        1 + line_len(text.skip(1))
    }
}

/// `line` without the carriage return it may end in.
pub open spec fn without_cr(line: Seq<u8>) -> Seq<u8> {
    if line.len() > 0 && line.last() == 0x0d {
        line.drop_last()
    } else {
        line
    }
}

/// The lines of `text`. A line ends in a line feed, or in a carriage return
/// and a line feed, neither of which belongs to it; what follows the last
/// line feed, if anything does, is the last line.
pub open spec fn lines_of(text: Seq<u8>) -> Seq<Seq<u8>>
    decreases text.len(),
{
    if text.len() == 0 {
        Seq::empty()
    } else if line_len(text) >= text.len() {
        seq![text]
    } else {
        seq![without_cr(text.take(line_len(text) as int))] + lines_of(
            text.skip(line_len(text) as int + 1),
        )
    }
}

/// The number that the decimal digits `digits` write.
pub open spec fn digits_value(digits: Seq<u8>) -> int
    decreases digits.len(),
{
    if digits.len() == 0 {
        0
    } else {
        10 * digits_value(digits.drop_last()) + (digits.last() - 0x30)
    }
}

/// Whether `digits` holds decimal digits only.
pub open spec fn all_digits(digits: Seq<u8>) -> bool {
    forall|i: int| 0 <= i < digits.len() ==> 0x30 <= #[trigger] digits[i] <= 0x39
}

/// The signed 16-bit number that `text` writes in decimal: an optional sign
/// and at least one digit, nothing else, and a value that fits.
pub open spec fn decimal_i16(text: Seq<u8>) -> Option<i16> {
    let signed = text.len() > 0 && (text[0] == 0x2d || text[0] == 0x2b);
    let digits = if signed {
        text.skip(1)
    } else {
        text
    };
    let value = if text.len() > 0 && text[0] == 0x2d {
        -digits_value(digits)
    } else {
        digits_value(digits)
    };
    if digits.len() == 0 || !all_digits(digits) || value < -32768 || value > 32767 {
        None
    } else {
        Some(value as i16)
    }
}

/// How many bytes of `text` come before its first space.
pub open spec fn word_len(text: Seq<u8>) -> nat
    decreases text.len(),
{
    if text.len() == 0 || text[0] == 0x20 {
        0
    } else {
        1 + word_len(text.skip(1))
    }
}

/// What a line of the listing says.
pub enum LineMeaning {
    /// Nothing about endpoints: the line does not open with `proxy_for `.
    Other,
    /// A data center and the text of an endpoint.
    Entry(i16, Seq<u8>),
    /// The line opens with `proxy_for ` and is not of the form that
    /// follows.
    Malformed,
}

/// Reads one line: `proxy_for `, the data center as a decimal number, a
/// space, and the endpoint followed by one closing character (a `;`), which
/// is dropped.
pub open spec fn line_meaning(line: Seq<u8>) -> LineMeaning {
    if line.len() < 10 || line.take(10) != entry_prefix() {
        LineMeaning::Other
    } else {
        let body = line.skip(10);
        let dc_len = word_len(body) as int;
        if dc_len >= body.len() {
            LineMeaning::Malformed
        } else {
            let rest = body.skip(dc_len + 1);
            match decimal_i16(body.take(dc_len)) {
                None => LineMeaning::Malformed,
                Some(dc) => LineMeaning::Entry(
                    dc,
                    if rest.len() == 0 {
                        rest
                    } else {
                        rest.drop_last()
                    },
                ),
            }
        }
    }
}

/// The entries of a row of lines, or `None` where one of them is
/// malformed.
pub open spec fn entries_of(lines: Seq<Seq<u8>>) -> Option<Seq<(i16, Seq<u8>)>>
    decreases lines.len(),
{
    if lines.len() == 0 {
        Some(Seq::empty())
    } else {
        match (entries_of(lines.drop_last()), line_meaning(lines.last())) {
            (None, _) => None,
            (_, LineMeaning::Malformed) => None,
            (Some(head), LineMeaning::Other) => Some(head),
            (Some(head), LineMeaning::Entry(dc, addr)) => Some(head.push((dc, addr))),
        }
    }
}

/// What a row of parsed entries is.
pub open spec fn entries_view(entries: Seq<ProxyFor>) -> Seq<(i16, Seq<u8>)> {
    entries.map_values(|entry: ProxyFor| (entry.dc, entry.addr@))
}

/// A stretch of `text` with no byte `stop` in it, which ends at the first
/// `stop` or at the end of `text`, is as long as `line_len` and `word_len`
/// say.
proof fn lemma_line_len(text: Seq<u8>, n: int)
    requires
        0 <= n <= text.len(),
        forall|k: int| 0 <= k < n ==> text[k] != 0x0a,
        n == text.len() || text[n] == 0x0a,
    ensures
        line_len(text) == n,
    decreases n,
{
    if n > 0 {
        lemma_line_len(text.skip(1), n - 1);
    }
}

proof fn lemma_word_len(text: Seq<u8>, n: int)
    requires
        0 <= n <= text.len(),
        forall|k: int| 0 <= k < n ==> text[k] != 0x20,
        n == text.len() || text[n] == 0x20,
    ensures
        word_len(text) == n,
    decreases n,
{
    if n > 0 {
        lemma_word_len(text.skip(1), n - 1);
    }
}

/// The value of a row of digits is at least the value of each row it begins
/// with.
proof fn lemma_digits_grow(digits: Seq<u8>, n: int)
    requires
        all_digits(digits),
        0 <= n <= digits.len(),
    ensures
        0 <= digits_value(digits.take(n)) <= digits_value(digits),
    decreases digits.len(),
{
    if digits.len() == 0 {
        assert(digits.take(n) =~= digits);
    } else if n == digits.len() {
        assert(digits.take(n) =~= digits);
        lemma_digits_grow(digits.drop_last(), n - 1);
        assert(digits.drop_last().take(n - 1) =~= digits.drop_last());
    } else {
        lemma_digits_grow(digits.drop_last(), n);
        assert(digits.drop_last().take(n) =~= digits.take(n));
    }
}

/// How far the stretch that begins at `from` goes before the byte `stop`.
fn stretch(text: &[u8], from: usize, stop: u8) -> (end: usize)
    requires
        from <= text@.len(),
    ensures
        from <= end <= text@.len(),
        forall|k: int| from <= k < end ==> text@[k] != stop,
        end == text@.len() || text@[end as int] == stop,
{
    let mut end = from;
    while end < text.len() && text[end] != stop
        invariant
            from <= end <= text@.len(),
            forall|k: int| from <= k < end ==> text@[k] != stop,
        decreases text@.len() - end,
    {
        end = end + 1;
    }
    end
}

/// Reads a signed 16-bit number in decimal.
pub fn parse_i16(text: &[u8]) -> (number: Option<i16>)
    ensures
        number == decimal_i16(text@),
{
    if text.len() == 0 {
        return None;
    }
    let negative = text[0] == 0x2d;
    let start: usize = if negative || text[0] == 0x2b {
        1
    } else {
        0
    };
    let ghost digits = if start == 1 {
        text@.skip(1)
    } else {
        text@
    };
    if start == text.len() {
        return None;
    }
    let mut value: i32 = 0;
    let mut i: usize = start;
    assert(digits.take(0) =~= Seq::<u8>::empty());
    while i < text.len()
        invariant
            start <= i <= text@.len(),
            start <= 1,
            text@.len() > 0,
            negative == (text@[0] == 0x2d),
            start == 1 <==> text@[0] == 0x2d || text@[0] == 0x2b,
            digits == (if start == 1 {
                text@.skip(1)
            } else {
                text@
            }),
            all_digits(digits.take(i - start)),
            value == digits_value(digits.take(i - start)),
            0 <= value <= 32768,
        decreases text@.len() - i,
    {
        let byte = text[i];
        let ghost seen = digits.take(i - start);
        let ghost next = digits.take(i - start + 1);
        assert(next.drop_last() =~= seen);
        assert(next.last() == byte);
        if byte < 0x30 || byte > 0x39 {
            assert(digits[i - start] == byte);
            return None;
        }
        value = 10 * value + (byte - 0x30) as i32;
        assert(all_digits(next)) by {
            assert forall|k: int| 0 <= k < next.len() implies 0x30 <= #[trigger] next[k]
                <= 0x39 by {
                if k < seen.len() {
                    assert(seen[k] == next[k]);
                }
            }
        }
        if value > 32768 {
            proof {
                if all_digits(digits) {
                    lemma_digits_grow(digits, i - start + 1);
                }
            }
            return None;
        }
        i = i + 1;
    }
    assert(digits.take(i - start) =~= digits);
    if negative {
        Some((-value) as i16)
    } else if value > 32767 {
        None
    } else {
        Some(value as i16)
    }
}

/// Splits `text` into its lines.
fn split_lines(text: &[u8]) -> (lines: Vec<Vec<u8>>)
    ensures
        lines@.map_values(|line: Vec<u8>| line@) == lines_of(text@),
{
    let mut lines: Vec<Vec<u8>> = Vec::new();
    let mut pos: usize = 0;
    assert(text@.skip(0) =~= text@);
    assert(lines@.map_values(|line: Vec<u8>| line@) + lines_of(text@) =~= lines_of(text@));
    while pos < text.len()
        invariant
            pos <= text@.len(),
            lines@.map_values(|line: Vec<u8>| line@) + lines_of(text@.skip(pos as int))
                == lines_of(text@),
        decreases text@.len() - pos,
    {
        let ghost tail = text@.skip(pos as int);
        let ghost before = lines@.map_values(|line: Vec<u8>| line@);
        let end = stretch(text, pos, 0x0a);
        proof {
            lemma_line_len(tail, end - pos);
        }
        if end == text.len() {
            lines.push(vstd::slice::slice_to_vec(vstd::slice::slice_subrange(text, pos, end)));
            assert(text@.subrange(pos as int, end as int) =~= tail);
            pos = end;
            assert(lines@.map_values(|line: Vec<u8>| line@) =~= before + seq![tail]);
            assert(lines_of(text@.skip(pos as int)) =~= Seq::<Seq<u8>>::empty());
        } else {
            let cut = if end > pos && text[end - 1] == 0x0d {
                end - 1
            } else {
                end
            };
            lines.push(vstd::slice::slice_to_vec(vstd::slice::slice_subrange(text, pos, cut)));
            assert(text@.subrange(pos as int, cut as int) =~= without_cr(
                tail.take(end - pos),
            ));
            assert(tail.skip(end - pos + 1) =~= text@.skip(end + 1));
            pos = end + 1;
            assert(lines@.map_values(|line: Vec<u8>| line@) =~= before + seq![
                without_cr(tail.take(line_len(tail) as int)),
            ]);
        }
    }
    assert(lines_of(text@.skip(pos as int)) =~= Seq::<Seq<u8>>::empty());
    lines
}

/// What `line` says, with the entry it holds where it holds one.
fn read_line(line: &[u8]) -> (read: Result<Option<ProxyFor>, Error>)
    ensures
        match line_meaning(line@) {
            LineMeaning::Other => read == Ok::<Option<ProxyFor>, Error>(None),
            LineMeaning::Malformed => read matches Err(e) && e == Error::BootstrapFailed,
            LineMeaning::Entry(dc, addr) => read matches Ok(Some(entry)) && entry.dc == dc
                && entry.addr@ == addr,
        },
{
    let prefix: [u8; 10] = [0x70, 0x72, 0x6f, 0x78, 0x79, 0x5f, 0x66, 0x6f, 0x72, 0x20];
    if line.len() < 10 {
        return Ok(None);
    }
    let mut i: usize = 0;
    while i < 10
        invariant
            i <= 10,
            line@.len() >= 10,
            prefix@ == entry_prefix(),
            forall|k: int| 0 <= k < i ==> line@[k] == entry_prefix()[k],
        decreases 10 - i,
    {
        if line[i] != prefix[i] {
            assert(line@.take(10)[i as int] != entry_prefix()[i as int]);
            return Ok(None);
        }
        i = i + 1;
    }
    assert(line@.take(10) =~= entry_prefix());
    let ghost body = line@.skip(10);
    let dc_end = stretch(line, 10, 0x20);
    proof {
        lemma_word_len(body, dc_end - 10);
    }
    if dc_end == line.len() {
        return Err(Error::BootstrapFailed);
    }
    assert(line@.subrange(10, dc_end as int) =~= body.take(dc_end - 10));
    let dc = match parse_i16(vstd::slice::slice_subrange(line, 10, dc_end)) {
        Some(dc) => dc,
        None => {
            return Err(Error::BootstrapFailed);
        },
    };
    let rest_end = if dc_end + 1 == line.len() {
        dc_end + 1
    } else {
        line.len() - 1
    };
    let addr = vstd::slice::slice_to_vec(vstd::slice::slice_subrange(line, dc_end + 1, rest_end));
    assert(addr@ =~= (if body.skip(dc_end - 10 + 1).len() == 0 {
        body.skip(dc_end - 10 + 1)
    } else {
        body.skip(dc_end - 10 + 1).drop_last()
    }));
    Ok(Some(ProxyFor { dc, addr }))
}

/// Reads the data centers' listing: every line that opens with
/// `proxy_for ` names a data center and one of its endpoints; other lines
/// say nothing. One malformed line fails the whole listing.
pub fn parse_proxy_config(text: &[u8]) -> (parsed: Result<Vec<ProxyFor>, Error>)
    ensures
        match entries_of(lines_of(text@)) {
            Some(entries) => parsed matches Ok(list) && entries_view(list@) == entries,
            None => parsed matches Err(e) && e == Error::BootstrapFailed,
        },
{
    let lines = split_lines(text);
    let ghost all = lines_of(text@);
    let mut list: Vec<ProxyFor> = Vec::new();
    let mut i: usize = 0;
    assert(all.take(0) =~= Seq::<Seq<u8>>::empty());
    assert(entries_view(list@) =~= Seq::empty());
    while i < lines.len()
        invariant
            i <= lines.len(),
            all == lines_of(text@),
            lines@.map_values(|line: Vec<u8>| line@) == all,
            entries_of(all.take(i as int)) == Some(entries_view(list@)),
        decreases lines.len() - i,
    {
        let ghost seen = all.take(i as int);
        let ghost next = all.take(i + 1);
        let ghost before = entries_view(list@);
        assert(next.drop_last() =~= seen);
        assert(next.last() == lines@[i as int]@);
        match read_line(lines[i].as_slice()) {
            Ok(Some(entry)) => {
                list.push(entry);
                assert(entries_view(list@) =~= before.push((entry.dc, entry.addr@)));
            },
            Ok(None) => {},
            Err(e) => {
                proof {
                    assert(line_meaning(next.last()) is Malformed);
                    assert(entries_of(next) is None);
                    lemma_malformed_stays(all, i + 1);
                }
                return Err(e);
            },
        }
        i = i + 1;
    }
    assert(all.take(i as int) =~= all);
    Ok(list)
}

/// A listing with a malformed line among its first `n` has no entries.
proof fn lemma_malformed_stays(lines: Seq<Seq<u8>>, n: int)
    requires
        0 <= n <= lines.len(),
        entries_of(lines.take(n)) is None,
    ensures
        entries_of(lines) is None,
    decreases lines.len() - n,
{
    if n < lines.len() {
        assert(lines.take(n + 1).drop_last() =~= lines.take(n));
        lemma_malformed_stays(lines, n + 1);
    } else {
        assert(lines.take(n) =~= lines);
    }
}

/// The endpoints listed for `dc`, in the order of the listing.
pub open spec fn addrs_of(entries: Seq<(i16, Endpoint)>, dc: i16) -> Seq<Endpoint>
    decreases entries.len(),
{
    if entries.len() == 0 {
        Seq::empty()
    } else if entries.last().0 == dc {
        addrs_of(entries.drop_last(), dc).push(entries.last().1)
    } else {
        addrs_of(entries.drop_last(), dc)
    }
}

/// The data centers of a listing, each with its endpoints.
pub open spec fn servers_of(entries: Seq<(i16, Endpoint)>) -> Map<i16, Seq<Endpoint>> {
    Map::new(|dc: i16| addrs_of(entries, dc).len() > 0, |dc: i16| addrs_of(entries, dc))
}

/// What a configuration holds.
pub struct ConfigState {
    pub bind_addr: Endpoint,
    pub secret: Seq<u8>,
    pub dc_secret: Seq<u8>,
    pub servers: Map<i16, Seq<Endpoint>>,
}

/// The relay's configuration, read-only once made.
pub struct Config {
    bind_addr: Endpoint,
    secret: Vec<u8>,
    dc_secret: Vec<u8>,
    servers: HashMap<i16, Vec<Endpoint>>,
}

impl View for Config {
    type V = ConfigState;

    closed spec fn view(&self) -> ConfigState {
        ConfigState {
            bind_addr: self.bind_addr,
            secret: self.secret@,
            dc_secret: self.dc_secret@,
            servers: self.servers@.map_values(|addrs: Vec<Endpoint>| addrs@),
        }
    }
}

impl Config {
    /// The configuration for a relay that listens on `bind_addr`, shares
    /// `secret` with its clients and `dc_secret` with the data centers, and
    /// knows the data centers by the listing `entries`.
    pub fn init(
        bind_addr: Endpoint,
        secret: Vec<u8>,
        dc_secret: Vec<u8>,
        entries: Vec<(i16, Endpoint)>,
    ) -> (config: Config)
        ensures
            config@ == (ConfigState {
                bind_addr,
                secret: secret@,
                dc_secret: dc_secret@,
                servers: servers_of(entries@),
            }),
    {
        broadcast use vstd::std_specs::hash::group_hash_axioms;

        let mut servers: HashMap<i16, Vec<Endpoint>> = HashMap::new();
        let mut i: usize = 0;
        assert(servers@.map_values(|addrs: Vec<Endpoint>| addrs@) =~= servers_of(
            entries@.take(0),
        ));
        while i < entries.len()
            invariant
                i <= entries.len(),
                servers@.map_values(|addrs: Vec<Endpoint>| addrs@) == servers_of(
                    entries@.take(i as int),
                ),
            decreases entries.len() - i,
        {
            let (dc, addr) = entries[i];
            let ghost before = servers@;
            let ghost seen = entries@.take(i as int);
            let ghost next = entries@.take(i + 1);
            assert(next.drop_last() == seen);
            assert(next.last() == entries@[i as int]);
            let mut dc_config = match servers.remove(&dc) {
                Some(listed) => listed,
                None => Vec::new(),
            };
            assert(dc_config@ == addrs_of(seen, dc)) by {
                if before.contains_key(dc) {
                    assert(before.map_values(|addrs: Vec<Endpoint>| addrs@)[dc] == before[dc]@);
                } else {
                    assert(!servers_of(seen).contains_key(dc));
                }
            }
            dc_config.push(addr);
            servers.insert(dc, dc_config);
            i = i + 1;
            assert(servers@.map_values(|addrs: Vec<Endpoint>| addrs@) =~= servers_of(next)) by {
                assert forall|k: i16| #[trigger]
                    servers_of(next).contains_key(k) == servers@.contains_key(k) by {
                    if k != dc {
                        assert(before.map_values(|addrs: Vec<Endpoint>| addrs@).contains_key(k)
                            == before.contains_key(k));
                    }
                }
                assert forall|k: i16| servers@.contains_key(k) implies #[trigger] servers@[k]@
                    == addrs_of(next, k) by {
                    if k != dc {
                        assert(before.map_values(|addrs: Vec<Endpoint>| addrs@)[k] == before[k]@);
                    }
                }
            }
        }
        assert(entries@.take(i as int) == entries@);
        Config { bind_addr, secret, dc_secret, servers }
    }

    /// The address to listen on.
    pub fn bind_addr(&self) -> (addr: &Endpoint)
        ensures
            *addr == self@.bind_addr,
    {
        &self.bind_addr
    }

    /// The secret shared with the clients.
    pub fn secret(&self) -> (secret: &[u8])
        ensures
            secret@ == self@.secret,
    {
        self.secret.as_slice()
    }

    /// The secret shared with the data centers.
    pub fn dc_secret(&self) -> (secret: &[u8])
        ensures
            secret@ == self@.dc_secret,
    {
        self.dc_secret.as_slice()
    }

    /// The endpoints of data center `dc_idx`; none where it is not listed.
    pub fn addrs(&self, dc_idx: i16) -> (addrs: &[Endpoint])
        ensures
            addrs@ == (if self@.servers.contains_key(dc_idx) {
                self@.servers[dc_idx]
            } else {
                Seq::empty()
            }),
    {
        broadcast use vstd::std_specs::hash::group_hash_axioms;

        match self.servers.get(&dc_idx) {
            Some(listed) => listed.as_slice(),
            None => {
                let none: &[Endpoint] = &[];
                none
            },
        }
    }

    /// One endpoint of data center `dc_idx`, picked at random; `None` where
    /// the data center has none.
    pub fn dc_addr(&self, dc_idx: i16) -> (picked: Option<&Endpoint>)
        ensures
            match picked {
                Some(addr) => self@.servers.contains_key(dc_idx) && self@.servers[dc_idx].contains(
                    *addr,
                ),
                None => !self@.servers.contains_key(dc_idx) || self@.servers[dc_idx].len() == 0,
            },
    {
        pick_one(self.addrs(dc_idx))
    }
}

} // verus!
