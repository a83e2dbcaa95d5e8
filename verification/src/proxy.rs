//! The bookkeeping of the relay: the arena that holds every pump under a
//! token, the table that links each client to its peer, and the tokens that
//! only wait to flush. The sockets and the selector stay with the caller,
//! which owns them under the same tokens.

use crate::config::Config;
use crate::error::Error;
use crate::pump::{Drained, Flushed, Interest, Pump, PumpState, ReadEvent, WriteEvent};
use slab::Slab;
use std::collections::{HashMap, HashSet};
use vstd::prelude::*;
use vstd::std_specs::iter::IteratorSpec;

verus! {

/// The most pumps the arena holds before no further client is accepted.
pub const MAX_PUMPS: usize = 262144;

/// The token that stands for the listener.
pub const ROOT_TOKEN: usize = usize::MAX - 1;

#[verifier::external_type_specification]
#[verifier::external_body]
#[verifier::reject_recursive_types(T)]
pub struct ExSlab<T>(slab::Slab<T>);

/// The pumps that an arena holds, each under its key.
pub uninterp spec fn arena_entries(arena: Slab<Pump>) -> Map<usize, Pump>;

/// Calls `slab::Slab::with_capacity`.
///
/// Trusted: the arena comes back empty.
#[verifier::external_body]
fn arena_new(capacity: usize) -> (arena: Slab<Pump>)
    requires
        capacity <= MAX_PUMPS,
    ensures
        arena_entries(arena) == no_pumps(),
{
    Slab::with_capacity(capacity)
}

/// Calls `slab::Slab::len`.
///
/// Trusted: the length counts the keys that hold a pump.
#[verifier::external_body]
fn arena_len(arena: &Slab<Pump>) -> (len: usize)
    ensures
        len == arena_entries(*arena).dom().len(),
{
    arena.len()
}

/// Calls `slab::Slab::contains`.
///
/// Trusted: true exactly for the keys that hold a pump.
#[verifier::external_body]
fn arena_contains(arena: &Slab<Pump>, key: usize) -> (held: bool)
    ensures
        held == arena_entries(*arena).contains_key(key),
{
    arena.contains(key)
}

/// Calls `slab::Slab::get`.
///
/// Trusted: the pump under `key`, where there is one.
#[verifier::external_body]
fn arena_get(arena: &Slab<Pump>, key: usize) -> (found: Option<&Pump>)
    ensures
        match found {
            Some(pump) => arena_entries(*arena).contains_key(key) && *pump == arena_entries(
                *arena,
            )[key],
            None => !arena_entries(*arena).contains_key(key),
        },
{
    arena.get(key)
}

/// Calls `slab::Slab::get_mut`.
///
/// Trusted: the pump under `key`, where there is one; what the caller
/// leaves in it is what the arena then holds under `key`, and no other
/// entry changes.
#[verifier::external_body]
fn arena_get_mut(arena: &mut Slab<Pump>, key: usize) -> (found: Option<&mut Pump>)
    ensures
        match found {
            Some(pump) => {
                &&& arena_entries(*old(arena)).contains_key(key)
                &&& *pump == arena_entries(*old(arena))[key]
                &&& arena_entries(*final(arena)) == arena_entries(*old(arena)).insert(
                    key,
                    *final(pump),
                )
            },
            None => {
                &&& !arena_entries(*old(arena)).contains_key(key)
                &&& arena_entries(*final(arena)) == arena_entries(*old(arena))
            },
        },
{
    arena.get_mut(key)
}

/// Calls `slab::Slab::insert`.
///
/// Trusted: the pump goes under a key that held none, which is returned,
/// and no other entry changes. Which key it is is not said.
#[verifier::external_body]
fn arena_insert(arena: &mut Slab<Pump>, pump: Pump) -> (key: usize)
    ensures
        !arena_entries(*old(arena)).contains_key(key),
        arena_entries(*final(arena)) == arena_entries(*old(arena)).insert(key, pump),
{
    arena.insert(pump)
}

/// Calls `slab::Slab::remove`, which panics on a key that holds nothing.
///
/// Trusted: the pump under `key` leaves the arena and is returned, and no
/// other entry changes.
#[verifier::external_body]
fn arena_remove(arena: &mut Slab<Pump>, key: usize) -> (pump: Pump)
    requires
        arena_entries(*old(arena)).contains_key(key),
    ensures
        pump == arena_entries(*old(arena))[key],
        arena_entries(*final(arena)) == arena_entries(*old(arena)).remove(key),
{
    arena.remove(key)
}

/// No pump at all.
pub open spec fn no_pumps() -> Map<usize, Pump> {
    Map::empty()
}

/// What the pumps of a collection are.
pub open spec fn states(pumps: Map<usize, Pump>) -> Map<usize, PumpState> {
    pumps.map_values(|pump: Pump| pump@)
}

/// What the relay's bookkeeping holds.
pub struct ServerState {
    /// The secret shared with the clients.
    pub secret: Seq<u8>,
    /// The secret shared with the data centers.
    pub dc_secret: Seq<u8>,
    /// The arena: every live pump under its token.
    pub pumps: Map<usize, PumpState>,
    /// The link table: each paired token with its peer.
    pub links: Map<usize, usize>,
    /// Tokens whose peer is gone and which only flush what they hold.
    pub detached: Set<usize>,
    /// Tokens to be torn down when the batch of events is settled.
    pub stale: Set<usize>,
    /// Peers made in this batch, each under its client's token, not yet in
    /// the arena.
    pub new_peers: Map<usize, PumpState>,
}

impl ServerState {
    /// Whether `a` and `b` are linked to each other.
    pub open spec fn paired(self, a: usize, b: usize) -> bool {
        self.links.contains_key(a) && self.links[a] == b
    }

    /// The invariant of the bookkeeping.
    pub open spec fn wf(self) -> bool {
        &&& self.pumps.dom().finite()
        &&& self.links.dom().finite()
        &&& self.detached.finite()
        &&& self.stale.finite()
        &&& self.new_peers.dom().finite()
        &&& forall|t: usize| self.pumps.contains_key(t) ==> (#[trigger] self.pumps[t]).wf()
        &&& forall|a: usize| #[trigger]
            self.links.contains_key(a) ==> {
                &&& self.pumps.contains_key(a)
                &&& self.links[a] != a
                &&& self.paired(self.links[a], a)
            }
        &&& forall|t: usize| #[trigger]
            self.detached.contains(t) ==> self.pumps.contains_key(t) && !self.links.contains_key(t)
        &&& forall|t: usize| #[trigger] self.stale.contains(t) ==> self.pumps.contains_key(t)
        &&& forall|t: usize| #[trigger]
            self.new_peers.contains_key(t) ==> {
                &&& self.pumps.contains_key(t)
                &&& !self.links.contains_key(t)
                &&& !self.detached.contains(t)
                &&& self.new_peers[t].wf()
            }
    }

    /// A relay that holds nothing yet.
    pub open spec fn empty(secret: Seq<u8>, dc_secret: Seq<u8>) -> ServerState {
        ServerState {
            secret,
            dc_secret,
            pumps: Map::empty(),
            links: Map::empty(),
            detached: Set::empty(),
            stale: Set::empty(),
            new_peers: Map::empty(),
        }
    }

    /// Whether the arena takes no further client.
    pub open spec fn full(self) -> bool {
        self.pumps.dom().len() >= MAX_PUMPS
    }

    /// The relay after a client came in under `token`.
    pub open spec fn accepted(self, token: usize) -> ServerState {
        ServerState { pumps: self.pumps.insert(token, PumpState::upstream(self.secret)), ..self }
    }

    /// The relay after `token` was marked for teardown; a token that the
    /// arena does not hold is not marked.
    pub open spec fn marked(self, token: usize) -> ServerState {
        if self.pumps.contains_key(token) {
            ServerState { stale: self.stale.insert(token), ..self }
        } else {
            self
        }
    }
}

impl ServerState {
    /// The relay with `pump` in place of what the arena held under `token`.
    pub open spec fn with_pump(self, token: usize, pump: PumpState) -> ServerState {
        ServerState { pumps: self.pumps.insert(token, pump), ..self }
    }

    /// The relay after the pump under `token` took in what one read did,
    /// and what to do next. A refusal marks the token.
    pub open spec fn drained(self, token: usize, event: ReadEvent) -> (
        ServerState,
        Result<Drained, Error>,
    ) {
        let (pump, next) = self.pumps[token].drained(event);
        if next is Err {
            (self.with_pump(token, pump).marked(token), next)
        } else {
            (self.with_pump(token, pump), next)
        }
    }

    /// The relay after the pump under `token` took in what one write did,
    /// and what to do next. A failure marks the token.
    pub open spec fn flushed(self, token: usize, event: WriteEvent) -> (
        ServerState,
        Result<Flushed, Error>,
    ) {
        let (pump, next) = self.pumps[token].flushed(event);
        if next is Err {
            (self.with_pump(token, pump).marked(token), next)
        } else {
            (self.with_pump(token, pump), next)
        }
    }

    /// The relay after what the pump under `from` had read went, decrypted
    /// and encrypted anew, to the pump under `to`. Where there was nothing
    /// to hand over, `to` stays as it is.
    pub open spec fn relayed(self, from: usize, to: usize) -> ServerState {
        let data = self.pumps[from].pull_output();
        let pulled = self.with_pump(from, self.pumps[from].pulled());
        if data.len() == 0 {
            pulled
        } else {
            pulled.with_pump(to, self.pumps[to].pushed(data))
        }
    }

    /// Whether a relay from `from` to `to` hands anything over.
    pub open spec fn relays(self, from: usize) -> bool {
        self.pumps[from].pull_output().len() > 0
    }

    /// Whether `token` can be given a peer: the arena holds it, and it has
    /// no peer yet, neither linked nor made in this batch nor gone.
    pub open spec fn attachable(self, token: usize) -> bool {
        &&& self.pumps.contains_key(token)
        &&& !self.links.contains_key(token)
        &&& !self.detached.contains(token)
        &&& !self.new_peers.contains_key(token)
    }

    /// The relay after `peer` was made for the client under `token`: what
    /// the client had read beyond its handshake goes to the peer at once,
    /// and the peer waits for the batch to be settled.
    pub open spec fn attached(self, token: usize, peer: PumpState) -> ServerState {
        let data = self.pumps[token].pull_output();
        let fed = if data.len() == 0 {
            peer
        } else {
            peer.pushed(data)
        };
        ServerState {
            pumps: self.pumps.insert(token, self.pumps[token].pulled()),
            new_peers: self.new_peers.insert(token, fed),
            ..self
        }
    }
}

impl ServerState {
    /// The relay after the peer made for `client` entered the arena under
    /// `peer` and the two were linked.
    pub open spec fn linked(self, client: usize, peer: usize) -> ServerState {
        ServerState {
            pumps: self.pumps.insert(peer, self.new_peers[client]),
            links: self.links.insert(peer, client).insert(client, peer),
            new_peers: self.new_peers.remove(client),
            ..self
        }
    }

    /// The relay after each pair of `pairs`, a client and the token of its
    /// peer, was linked in turn.
    pub open spec fn linked_all(self, pairs: Seq<(usize, usize)>) -> ServerState
        decreases pairs.len(),
    {
        if pairs.len() == 0 {
            self
        } else {
            self.linked_all(pairs.drop_last()).linked(pairs.last().0, pairs.last().1)
        }
    }

    /// Whether a detached token has flushed all it had: its pump no longer
    /// asks for a writable socket.
    pub open spec fn flushed_out(self, token: usize) -> bool {
        self.detached.contains(token) && !self.pumps[token].interest.writable
    }

    /// The relay after every detached token that has flushed all it had
    /// was marked for teardown.
    pub open spec fn swept(self) -> ServerState {
        ServerState {
            stale: self.stale.union(Set::new(|t: usize| self.flushed_out(t))),
            ..self
        }
    }

    /// The relay after the teardown of `token`: it leaves the arena, the
    /// link table and every set; the peer it was linked to loses its link
    /// and becomes detached. A token that the arena does not hold changes
    /// nothing.
    pub open spec fn dropped(self, token: usize) -> ServerState {
        if !self.pumps.contains_key(token) {
            self
        } else if self.links.contains_key(token) {
            ServerState {
                pumps: self.pumps.remove(token),
                links: self.links.remove(token).remove(self.links[token]),
                detached: self.detached.remove(token).insert(self.links[token]),
                stale: self.stale.remove(token),
                new_peers: self.new_peers.remove(token),
                ..self
            }
        } else {
            ServerState {
                pumps: self.pumps.remove(token),
                detached: self.detached.remove(token),
                stale: self.stale.remove(token),
                new_peers: self.new_peers.remove(token),
                ..self
            }
        }
    }

    /// The relay after the teardown of each of `tokens` in turn.
    pub open spec fn dropped_all(self, tokens: Seq<usize>) -> ServerState
        decreases tokens.len(),
    {
        if tokens.len() == 0 {
            self
        } else {
            self.dropped_all(tokens.drop_last()).dropped(tokens.last())
        }
    }
}

/// A teardown keeps the invariant, and the token is gone from the arena, the
/// link table and the detached set; the peer it had is detached and linked
/// to nothing.
pub proof fn lemma_teardown(relay: ServerState, token: usize)
    requires
        relay.wf(),
    ensures
        relay.dropped(token).wf(),
        !relay.dropped(token).pumps.contains_key(token),
        !relay.dropped(token).links.contains_key(token),
        !relay.dropped(token).detached.contains(token),
        !relay.dropped(token).stale.contains(token),
        relay.pumps.contains_key(token) && relay.links.contains_key(token) ==> {
            &&& relay.dropped(token).detached.contains(relay.links[token])
            &&& !relay.dropped(token).links.contains_key(relay.links[token])
            &&& relay.dropped(token).pumps.contains_key(relay.links[token])
        },
        forall|t: usize| relay.dropped(token).pumps.contains_key(t) ==> relay.pumps.contains_key(t),
{
    let after = relay.dropped(token);
    if relay.pumps.contains_key(token) && relay.links.contains_key(token) {
        let peer = relay.links[token];
        assert(relay.paired(peer, token));
        assert forall|a: usize| #[trigger] after.links.contains_key(a) implies {
            &&& after.pumps.contains_key(a)
            &&& after.links[a] != a
            &&& after.paired(after.links[a], a)
        } by {
            assert(relay.links.contains_key(a));
            assert(relay.paired(relay.links[a], a));
        }
    } else if relay.pumps.contains_key(token) {
        assert forall|a: usize| #[trigger] after.links.contains_key(a) implies {
            &&& after.pumps.contains_key(a)
            &&& after.links[a] != a
            &&& after.paired(after.links[a], a)
        } by {
            assert(relay.paired(relay.links[a], a));
        }
    }
}

/// Teardowns in a row keep the invariant and bring nothing back.
pub proof fn lemma_teardowns(relay: ServerState, tokens: Seq<usize>)
    requires
        relay.wf(),
    ensures
        relay.dropped_all(tokens).wf(),
        forall|t: usize|
            relay.dropped_all(tokens).pumps.contains_key(t) ==> relay.pumps.contains_key(t),
        forall|i: int|
            0 <= i < tokens.len() ==> !relay.dropped_all(tokens).pumps.contains_key(
                #[trigger] tokens[i],
            ),
    decreases tokens.len(),
{
    if tokens.len() > 0 {
        let before = relay.dropped_all(tokens.drop_last());
        lemma_teardowns(relay, tokens.drop_last());
        lemma_teardown(before, tokens.last());
        assert forall|i: int| 0 <= i < tokens.len() implies !relay.dropped_all(
            tokens,
        ).pumps.contains_key(#[trigger] tokens[i]) by {
            if i < tokens.len() - 1 {
                assert(tokens.drop_last()[i] == tokens[i]);
            }
        }
    }
}

/// Teardowns make no peer: what waits to be linked afterwards waited
/// before.
pub proof fn lemma_teardowns_keep(relay: ServerState, tokens: Seq<usize>)
    ensures
        forall|t: usize|
            relay.dropped_all(tokens).new_peers.contains_key(t) ==> relay.new_peers.contains_key(t),
    decreases tokens.len(),
{
    if tokens.len() > 0 {
        lemma_teardowns_keep(relay, tokens.drop_last());
    }
}

/// After a row of teardowns every token of the row is absent from the
/// arena, from the link table, on either side, and from the detached set.
pub proof fn lemma_torn_down_is_gone(relay: ServerState, tokens: Seq<usize>, token: usize)
    requires
        relay.wf(),
        tokens.contains(token),
    ensures
        !relay.dropped_all(tokens).pumps.contains_key(token),
        !relay.dropped_all(tokens).links.contains_key(token),
        !relay.dropped_all(tokens).detached.contains(token),
        forall|a: usize| !relay.dropped_all(tokens).paired(a, token),
{
    lemma_teardowns(relay, tokens);
    let after = relay.dropped_all(tokens);
    let i = choose|i: int| 0 <= i < tokens.len() && tokens[i] == token;
    assert(!after.pumps.contains_key(tokens[i]));
    assert forall|a: usize| !after.paired(a, token) by {
        if after.paired(a, token) {
            assert(after.links.contains_key(a));
            assert(after.paired(after.links[a], a));
        }
    }
}

/// A detached token that has flushed all it had is gone once the batch is
/// settled: the sweep marks it, and the teardowns that follow take every
/// marked token.
pub proof fn lemma_flushed_out_is_gone(relay: ServerState, order: Seq<usize>, token: usize)
    requires
        relay.wf(),
        relay.flushed_out(token),
        order.to_set() == relay.swept().stale,
    ensures
        !relay.swept().dropped_all(order).pumps.contains_key(token),
        !relay.swept().dropped_all(order).links.contains_key(token),
        !relay.swept().dropped_all(order).detached.contains(token),
{
    assert(relay.swept().stale.contains(token));
    assert(order.to_set().contains(token));
    assert(order.contains(token));
    assert(relay.swept().wf());
    lemma_torn_down_is_gone(relay.swept(), order, token);
}

/// The link table is symmetric: `a` is linked to `b` exactly if `b` is
/// linked to `a`.
pub proof fn lemma_links_symmetric(relay: ServerState, a: usize, b: usize)
    requires
        relay.wf(),
    ensures
        relay.paired(a, b) <==> relay.paired(b, a),
{
}

/// A detached token has no peer: it is neither a key of the link table nor
/// the peer of any key.
pub proof fn lemma_detached_unlinked(relay: ServerState, token: usize, other: usize)
    requires
        relay.wf(),
        relay.detached.contains(token),
    ensures
        !relay.links.contains_key(token),
        !relay.paired(other, token),
{
}

/// What settling a batch did.
pub struct Settled {
    /// Each client that got its peer, with the token the peer entered the
    /// arena under, in the order in which they were linked.
    pub linked: Vec<(usize, usize)>,
    /// The tokens that were torn down, in the order of their teardown.
    pub dropped: Vec<usize>,
}

/// The clients of a row of linked pairs.
pub open spec fn clients_of(pairs: Seq<(usize, usize)>) -> Seq<usize> {
    pairs.map_values(|pair: (usize, usize)| pair.0)
}

/// The tokens of `set`, each once, in the order in which the set hands them
/// out.
fn tokens_of(set: &HashSet<usize>) -> (tokens: Vec<usize>)
    ensures
        tokens@.to_set() == set@,
        tokens@.no_duplicates(),
{
    broadcast use vstd::std_specs::hash::group_hash_axioms;

    let mut tokens: Vec<usize> = Vec::new();
    let ghost all = set.iter().remaining();
    for token in it: set.iter()
        invariant
            it.seq() == all,
            tokens@.len() == it.index(),
            forall|j: int| 0 <= j < tokens@.len() ==> tokens@[j] == *all[j],
    {
        tokens.push(*token);
    }
    assert(tokens@ =~= all.unref());
    tokens
}

/// The keys of `peers`, each once, in the order in which the map hands them
/// out.
fn clients_in(peers: &HashMap<usize, Pump>) -> (clients: Vec<usize>)
    ensures
        clients@.to_set() == peers@.dom(),
        clients@.no_duplicates(),
{
    broadcast use vstd::std_specs::hash::group_hash_axioms;

    let mut clients: Vec<usize> = Vec::new();
    let ghost all = peers.keys().remaining();
    for client in it: peers.keys()
        invariant
            it.seq() == all,
            clients@.len() == it.index(),
            forall|j: int| 0 <= j < clients@.len() ==> clients@[j] == *all[j],
    {
        clients.push(*client);
    }
    assert(clients@ =~= all.unref());
    clients
}

/// The relay's bookkeeping.
pub struct Server {
    config: Config,
    pumps: Slab<Pump>,
    detached: HashSet<usize>,
    links: HashMap<usize, usize>,
    stale: HashSet<usize>,
    new_peers: HashMap<usize, Pump>,
}

impl View for Server {
    type V = ServerState;

    closed spec fn view(&self) -> ServerState {
        ServerState {
            secret: self.config@.secret,
            dc_secret: self.config@.dc_secret,
            pumps: states(arena_entries(self.pumps)),
            links: self.links@,
            detached: self.detached@,
            stale: self.stale@,
            new_peers: states(self.new_peers@),
        }
    }
}

impl Server {
    /// Well-formedness: the invariant of the bookkeeping holds.
    pub open spec fn wf(&self) -> bool {
        self@.wf()
    }

    /// The configuration the relay was made with.
    pub closed spec fn config_view(&self) -> crate::config::ConfigState {
        self.config@
    }

    /// A relay that holds nothing yet.
    pub fn new(config: Config) -> (server: Server)
        ensures
            server.wf(),
            server@ == ServerState::empty(config@.secret, config@.dc_secret),
            server.config_view() == config@,
    {
        let server = Server {
            config,
            pumps: arena_new(MAX_PUMPS),
            detached: HashSet::new(),
            links: HashMap::new(),
            stale: HashSet::new(),
            new_peers: HashMap::new(),
        };
        assert(server@.pumps =~= Map::empty());
        assert(server@.new_peers =~= Map::empty());
        server
    }

    /// The configuration.
    pub fn config(&self) -> (config: &Config)
        ensures
            config@ == self.config_view(),
            config@.secret == self@.secret,
            config@.dc_secret == self@.dc_secret,
    {
        &self.config
    }

    /// How many pumps the arena holds.
    pub fn len(&self) -> (len: usize)
        ensures
            len == self@.pumps.dom().len(),
    {
        let len = arena_len(&self.pumps);
        assert(self@.pumps.dom() =~= arena_entries(self.pumps).dom());
        len
    }

    /// Whether the arena takes no further client.
    pub fn is_full(&self) -> (full: bool)
        ensures
            full == self@.full(),
    {
        self.len() >= MAX_PUMPS
    }

    /// Whether the arena holds a pump under `token`.
    pub fn contains(&self, token: usize) -> (held: bool)
        ensures
            held == self@.pumps.contains_key(token),
    {
        arena_contains(&self.pumps, token)
    }

    /// Whether `token` waits only to flush.
    pub fn is_detached(&self, token: usize) -> (detached: bool)
        ensures
            detached == self@.detached.contains(token),
    {
        broadcast use vstd::std_specs::hash::group_hash_axioms;

        self.detached.contains(&token)
    }

    /// The peer that `token` is linked to.
    pub fn peer(&self, token: usize) -> (peer: Option<usize>)
        ensures
            peer == (if self@.links.contains_key(token) {
                Some(self@.links[token])
            } else {
                None
            }),
    {
        broadcast use vstd::std_specs::hash::group_hash_axioms;

        match self.links.get(&token) {
            Some(peer) => Some(*peer),
            None => None,
        }
    }

    /// The readiness conditions that the pump under `token` asks for.
    pub fn interest(&self, token: usize) -> (interest: Option<Interest>)
        ensures
            interest == (if self@.pumps.contains_key(token) {
                Some(self@.pumps[token].interest)
            } else {
                None
            }),
    {
        match arena_get(&self.pumps, token) {
            Some(pump) => Some(pump.interest()),
            None => None,
        }
    }

    /// Takes in a client: an upstream pump enters the arena, under the
    /// token that is returned. Refused once the arena holds `MAX_PUMPS`.
    pub fn accept(&mut self) -> (token: Result<usize, Error>)
        requires
            old(self).wf(),
        ensures
            final(self).wf(),
            match token {
                Ok(token) => {
                    &&& !old(self)@.full()
                    &&& !old(self)@.pumps.contains_key(token)
                    &&& final(self)@ == old(self)@.accepted(token)
                },
                Err(e) => {
                    &&& e == Error::CapacityExceeded
                    &&& old(self)@.full()
                    &&& final(self)@ == old(self)@
                },
            },
    {
        if self.is_full() {
            return Err(Error::CapacityExceeded);
        }
        let pump = Pump::upstream(self.config.secret());
        let token = arena_insert(&mut self.pumps, pump);
        assert(final(self)@.pumps =~= old(self)@.pumps.insert(
            token,
            PumpState::upstream(old(self)@.secret),
        ));
        Ok(token)
    }

    /// Begins a drain of the pump under `token`: says whether to read, and
    /// how much. `None` where the arena holds no such pump.
    pub fn begin_drain(&mut self, token: usize) -> (next: Option<Drained>)
        requires
            old(self).wf(),
        ensures
            final(self).wf(),
            match next {
                Some(next) => {
                    &&& old(self)@.pumps.contains_key(token)
                    &&& final(self)@ == old(self)@.with_pump(
                        token,
                        old(self)@.pumps[token].read_next().0,
                    )
                    &&& next == old(self)@.pumps[token].read_next().1
                    &&& next matches Drained::More(quota) ==> 0 < quota
                        <= final(self)@.pumps[token].room()
                },
                None => !old(self)@.pumps.contains_key(token) && final(self)@ == old(self)@,
            },
    {
        match arena_get_mut(&mut self.pumps, token) {
            Some(pump) => {
                let next = pump.begin_drain();
                assert(final(self)@.pumps =~= old(self)@.pumps.insert(
                    token,
                    old(self)@.pumps[token].read_next().0,
                ));
                Some(next)
            },
            None => None,
        }
    }

    /// Hands what one read did to the pump under `token`, and says what to
    /// do next. A refusal marks the token for teardown.
    pub fn drain(&mut self, token: usize, event: ReadEvent) -> (next: Result<Drained, Error>)
        requires
            old(self).wf(),
            old(self)@.pumps.contains_key(token),
            event matches ReadEvent::Data(data) ==> data@.len() <= old(self)@.pumps[token].room(),
        ensures
            final(self).wf(),
            (final(self)@, next) == old(self)@.drained(token, event),
            next matches Ok(Drained::More(quota)) ==> 0 < quota <= final(self)@.pumps[token].room(),
    {
        broadcast use vstd::std_specs::hash::group_hash_axioms;

        let next = match arena_get_mut(&mut self.pumps, token) {
            Some(pump) => pump.drain(event),
            None => Err(Error::IoTransport),
        };
        assert(self@.pumps =~= old(self)@.pumps.insert(
            token,
            old(self)@.pumps[token].drained(event).0,
        ));
        if next.is_err() {
            self.stale.insert(token);
        }
        next
    }

    /// The bytes that the pump under `token` has to send: what to offer to
    /// its socket.
    pub fn pending(&self, token: usize) -> (bytes: Option<&[u8]>)
        ensures
            match bytes {
                Some(bytes) => self@.pumps.contains_key(token) && bytes@
                    == self@.pumps[token].write_buf,
                None => !self@.pumps.contains_key(token),
            },
    {
        match arena_get(&self.pumps, token) {
            Some(pump) => Some(pump.pending()),
            None => None,
        }
    }

    /// Hands what one write did to the pump under `token`, and says what to
    /// do next. A failure marks the token for teardown.
    pub fn flush(&mut self, token: usize, event: WriteEvent) -> (next: Result<Flushed, Error>)
        requires
            old(self).wf(),
            old(self)@.pumps.contains_key(token),
            event matches WriteEvent::Wrote(n) ==> n <= old(self)@.pumps[token].write_buf.len(),
        ensures
            final(self).wf(),
            (final(self)@, next) == old(self)@.flushed(token, event),
    {
        broadcast use vstd::std_specs::hash::group_hash_axioms;

        let next = match arena_get_mut(&mut self.pumps, token) {
            Some(pump) => pump.flush(event),
            None => Err(Error::IoTransport),
        };
        assert(self@.pumps =~= old(self)@.pumps.insert(
            token,
            old(self)@.pumps[token].flushed(event).0,
        ));
        if next.is_err() {
            self.stale.insert(token);
        }
        next
    }

    /// Moves what the pump under `from` has read to the pump under `to`.
    /// Returns whether anything was handed over.
    fn relay(&mut self, from: usize, to: usize) -> (moved: bool)
        requires
            old(self).wf(),
            old(self)@.pumps.contains_key(from),
            old(self)@.pumps.contains_key(to),
            from != to,
        ensures
            final(self).wf(),
            final(self)@ == old(self)@.relayed(from, to),
            moved == old(self)@.relays(from),
    {
        let buf = match arena_get_mut(&mut self.pumps, from) {
            Some(pump) => pump.pull(),
            None => Vec::new(),
        };
        assert(self@.pumps =~= old(self)@.pumps.insert(from, old(self)@.pumps[from].pulled()));
        if buf.len() == 0 {
            return false;
        }
        let ghost mid = self@;
        match arena_get_mut(&mut self.pumps, to) {
            Some(peer) => {
                peer.push(buf.as_slice());
            },
            None => {},
        }
        assert(self@.pumps =~= mid.pumps.insert(to, mid.pumps[to].pushed(buf@)));
        true
    }

    /// After a read on `token`: where it is linked, what it has read goes
    /// to its peer. Returns the peer and what the peer now asks for, to
    /// register anew, where anything was handed over.
    pub fn fan_out(&mut self, token: usize) -> (rearm: Option<(usize, Interest)>)
        requires
            old(self).wf(),
        ensures
            final(self).wf(),
            final(self)@ == (if old(self)@.links.contains_key(token) {
                old(self)@.relayed(token, old(self)@.links[token])
            } else {
                old(self)@
            }),
            rearm == (if old(self)@.links.contains_key(token) && old(self)@.relays(token) {
                Some((old(self)@.links[token], final(self)@.pumps[old(self)@.links[token]].interest))
            } else {
                None
            }),
    {
        match self.peer(token) {
            Some(peer_token) => {
                assert(self@.paired(peer_token, token));
                if self.relay(token, peer_token) {
                    match self.interest(peer_token) {
                        Some(interest) => Some((peer_token, interest)),
                        None => None,
                    }
                } else {
                    None
                }
            },
            None => None,
        }
    }

    /// Before a write on `token`: where it is linked, what its peer has
    /// read comes to it. Returns the peer and what the peer now asks for, to
    /// register anew, where anything was handed over.
    pub fn fan_in(&mut self, token: usize) -> (rearm: Option<(usize, Interest)>)
        requires
            old(self).wf(),
        ensures
            final(self).wf(),
            final(self)@ == (if old(self)@.links.contains_key(token) {
                old(self)@.relayed(old(self)@.links[token], token)
            } else {
                old(self)@
            }),
            rearm == (if old(self)@.links.contains_key(token) && old(self)@.relays(
                old(self)@.links[token],
            ) {
                Some((old(self)@.links[token], final(self)@.pumps[old(self)@.links[token]].interest))
            } else {
                None
            }),
    {
        match self.peer(token) {
            Some(peer_token) => {
                assert(self@.paired(peer_token, token));
                if self.relay(peer_token, token) {
                    match self.interest(peer_token) {
                        Some(interest) => Some((peer_token, interest)),
                        None => None,
                    }
                } else {
                    None
                }
            },
            None => None,
        }
    }

    /// Whether `token` can be given a peer.
    pub fn attachable(&self, token: usize) -> (free: bool)
        ensures
            free == self@.attachable(token),
    {
        broadcast use vstd::std_specs::hash::group_hash_axioms;

        assert(self.new_peers@.contains_key(token) == self@.new_peers.contains_key(token));
        arena_contains(&self.pumps, token) && !self.links.contains_key(&token)
            && !self.detached.contains(&token) && !self.new_peers.contains_key(&token)
    }

    /// Gives the client under `token` the peer `peer`, a pump made for a
    /// connection to a data center. Returns whether it was taken: a token
    /// that cannot be given a peer leaves everything as it was.
    pub fn attach(&mut self, token: usize, peer: Pump) -> (taken: bool)
        requires
            old(self).wf(),
            peer.wf(),
        ensures
            final(self).wf(),
            taken == old(self)@.attachable(token),
            final(self)@ == (if taken {
                old(self)@.attached(token, peer@)
            } else {
                old(self)@
            }),
    {
        broadcast use vstd::std_specs::hash::group_hash_axioms;

        if !self.attachable(token) {
            return false;
        }
        let mut peer = peer;
        let buf = match arena_get_mut(&mut self.pumps, token) {
            Some(pump) => pump.pull(),
            None => Vec::new(),
        };
        assert(self@.pumps =~= old(self)@.pumps.insert(token, old(self)@.pumps[token].pulled()));
        if buf.len() > 0 {
            peer.push(buf.as_slice());
        }
        let ghost fed = peer@;
        self.new_peers.insert(token, peer);
        assert(self@.new_peers =~= old(self)@.new_peers.insert(token, fed));
        true
    }

    /// After a connection to a data center was opened for the client under
    /// `token`: makes the peer, with a fresh handshake and the data
    /// centers' secret, and attaches it. Returns whether the peer was
    /// taken. A token that cannot be given a peer leaves everything as it
    /// was; a client for which no handshake could be made is marked for
    /// teardown.
    pub fn connected(&mut self, token: usize) -> (taken: bool)
        requires
            old(self).wf(),
        ensures
            final(self).wf(),
            !old(self)@.attachable(token) ==> !taken && final(self)@ == old(self)@,
            old(self)@.attachable(token) && !taken ==> final(self)@ == old(self)@.marked(token),
            taken ==> exists|sample: Seq<u8>|
                crate::proto::sample_admissible(sample) && final(self)@ == old(self)@.attached(
                    token,
                    PumpState::downstream(
                        old(self)@.dc_secret,
                        crate::proto::outbound_state(sample),
                    ),
                ),
    {
        if !self.attachable(token) {
            return false;
        }
        match Pump::downstream(self.config.dc_secret()) {
            Some(peer) => self.attach(token, peer),
            None => {
                self.mark_stale(token);
                false
            },
        }
    }

    /// Ends the handling of one event on `token`: a hang-up or an error
    /// marks the token for teardown; else what its pump asks for is
    /// returned, to register the socket anew.
    pub fn finish_event(&mut self, token: usize, hup: bool, error: bool) -> (rearm: Option<Interest>)
        requires
            old(self).wf(),
        ensures
            final(self).wf(),
            final(self)@ == (if hup || error {
                old(self)@.marked(token)
            } else {
                old(self)@
            }),
            rearm == (if hup || error || !old(self)@.pumps.contains_key(token) {
                None
            } else {
                Some(old(self)@.pumps[token].interest)
            }),
    {
        if hup || error {
            self.mark_stale(token);
            None
        } else {
            self.interest(token)
        }
    }

    /// Tears down the pump under `token`: it leaves the arena, the link
    /// table and every set, and the peer it was linked to becomes detached.
    /// Returns whether the arena held it.
    pub fn drop_pump(&mut self, token: usize) -> (held: bool)
        requires
            old(self).wf(),
        ensures
            final(self).wf(),
            held == old(self)@.pumps.contains_key(token),
            final(self)@ == old(self)@.dropped(token),
    {
        broadcast use vstd::std_specs::hash::group_hash_axioms;

        proof {
            lemma_teardown(self@, token);
        }
        if !arena_contains(&self.pumps, token) {
            return false;
        }
        self.detached.remove(&token);
        self.stale.remove(&token);
        self.new_peers.remove(&token);
        let pump = arena_remove(&mut self.pumps, token);
        match self.links.remove(&token) {
            Some(peer_token) => {
                self.links.remove(&peer_token);
                self.detached.insert(peer_token);
            },
            None => {},
        }
        assert(self@.pumps =~= old(self)@.dropped(token).pumps);
        assert(self@.new_peers =~= old(self)@.dropped(token).new_peers);
        assert(self@.links =~= old(self)@.dropped(token).links);
        assert(self@.detached =~= old(self)@.dropped(token).detached);
        assert(self@.stale =~= old(self)@.dropped(token).stale);
        true
    }

    /// Brings the peer made for `client` into the arena and links the two.
    /// Returns the peer's token.
    fn link_peer(&mut self, client: usize) -> (peer: usize)
        requires
            old(self).wf(),
            old(self)@.new_peers.contains_key(client),
        ensures
            final(self).wf(),
            !old(self)@.pumps.contains_key(peer),
            final(self)@ == old(self)@.linked(client, peer),
    {
        broadcast use vstd::std_specs::hash::group_hash_axioms;

        assert(old(self).new_peers@.contains_key(client));
        let ghost made = old(self).new_peers@[client];
        let peer = match self.new_peers.remove(&client) {
            Some(pump) => arena_insert(&mut self.pumps, pump),
            None => 0,
        };
        self.links.insert(peer, client);
        self.links.insert(client, peer);
        assert(self@.pumps =~= old(self)@.pumps.insert(peer, made@));
        assert(self@.new_peers =~= old(self)@.new_peers.remove(client));
        assert(made@ == old(self)@.new_peers[client]);
        assert(self@ == old(self)@.linked(client, peer));
        assert(self@.wf()) by {
            let before = old(self)@;
            let after = self@;
            assert forall|a: usize| #[trigger] after.links.contains_key(a) implies {
                &&& after.pumps.contains_key(a)
                &&& after.links[a] != a
                &&& after.paired(after.links[a], a)
            } by {
                if a != peer && a != client {
                    assert(before.links.contains_key(a));
                    assert(before.paired(before.links[a], a));
                }
            }
        }
        peer
    }

    /// Settles a batch of events: every peer made in the batch enters the
    /// arena and is linked to its client; every detached token that has
    /// flushed all it had is marked; and every marked token is torn down.
    ///
    /// The order in which the peers are linked, the tokens they get, and
    /// the order of the teardowns are not fixed; what is returned tells
    /// them, and the relay is what these steps, taken in that order, make
    /// of it.
    pub fn settle(&mut self) -> (settled: Settled)
        requires
            old(self).wf(),
        ensures
            final(self).wf(),
            clients_of(settled.linked@).to_set() == old(self)@.new_peers.dom(),
            clients_of(settled.linked@).no_duplicates(),
            forall|i: int|
                0 <= i < settled.linked@.len() ==> !old(self)@.linked_all(
                    settled.linked@.take(i),
                ).pumps.contains_key((#[trigger] settled.linked@[i]).1),
            settled.dropped@.to_set() == old(self)@.linked_all(settled.linked@).swept().stale,
            settled.dropped@.no_duplicates(),
            final(self)@ == old(self)@.linked_all(settled.linked@).swept().dropped_all(
                settled.dropped@,
            ),
            final(self)@.stale == Set::<usize>::empty(),
            final(self)@.new_peers == Map::<usize, PumpState>::empty(),
    {
        let clients = clients_in(&self.new_peers);
        assert(clients@.to_set() =~= self@.new_peers.dom());
        let mut linked: Vec<(usize, usize)> = Vec::new();
        let mut i: usize = 0;
        assert(clients_of(linked@) =~= clients@.take(0));
        while i < clients.len()
            invariant
                i <= clients.len(),
                self.wf(),
                clients@.no_duplicates(),
                clients@.to_set() == old(self)@.new_peers.dom(),
                linked@.len() == i,
                clients_of(linked@) == clients@.take(i as int),
                self@ == old(self)@.linked_all(linked@),
                forall|t: usize|
                    self@.new_peers.contains_key(t) <==> old(self)@.new_peers.contains_key(t)
                        && !clients@.take(i as int).contains(t),
                forall|j: int|
                    0 <= j < linked@.len() ==> !old(self)@.linked_all(
                        linked@.take(j),
                    ).pumps.contains_key((#[trigger] linked@[j]).1),
            decreases clients.len() - i,
        {
            let client = clients[i];
            assert(clients@.to_set().contains(client));
            assert(!clients@.take(i as int).contains(client)) by {
                let done = clients@.take(i as int);
                if done.contains(client) {
                    let j = choose|j: int| 0 <= j < done.len() && done[j] == client;
                    assert(clients@[j] == clients@[i as int]);
                }
            }
            let ghost before = linked@;
            let peer = self.link_peer(client);
            linked.push((client, peer));
            i = i + 1;
            assert(linked@.drop_last() == before);
            assert(clients_of(linked@) =~= clients@.take(i as int));
            let ghost seen = clients@.take(i - 1);
            let ghost now = clients@.take(i as int);
            assert forall|t: usize|
                self@.new_peers.contains_key(t) <==> old(self)@.new_peers.contains_key(t)
                    && !now.contains(t) by {
                if now.contains(t) {
                    let j = choose|j: int| 0 <= j < now.len() && now[j] == t;
                    if j < i - 1 {
                        assert(seen[j] == t);
                    }
                }
                if seen.contains(t) {
                    let j = choose|j: int| 0 <= j < seen.len() && seen[j] == t;
                    assert(now[j] == t);
                }
                if t == client {
                    assert(now[i - 1] == t);
                }
            }
            assert forall|j: int| 0 <= j < linked@.len() implies !old(self)@.linked_all(
                linked@.take(j),
            ).pumps.contains_key((#[trigger] linked@[j]).1) by {
                if j < i - 1 {
                    assert(linked@.take(j) == before.take(j));
                    assert(linked@[j] == before[j]);
                } else {
                    assert(linked@.take(j) == before);
                }
            }
        }
        assert(clients@.take(i as int) == clients@);
        assert(self@.new_peers =~= Map::<usize, PumpState>::empty()) by {
            assert forall|t: usize| !self@.new_peers.contains_key(t) by {
                if old(self)@.new_peers.contains_key(t) {
                    assert(clients@.to_set().contains(t));
                }
            }
        }
        self.sweep();
        let ghost swept = self@;
        let marked = tokens_of(&self.stale);
        let mut dropped: Vec<usize> = Vec::new();
        let mut n: usize = 0;
        while n < marked.len()
            invariant
                n <= marked.len(),
                self.wf(),
                swept.wf(),
                marked@.to_set() == swept.stale,
                dropped@ == marked@.take(n as int),
                self@ == swept.dropped_all(dropped@),
                forall|t: usize|
                    self@.stale.contains(t) ==> swept.stale.contains(t) && !dropped@.contains(t),
            decreases marked.len() - n,
        {
            let token = marked[n];
            let ghost before = dropped@;
            let ghost prev = self@;
            self.drop_pump(token);
            dropped.push(token);
            n = n + 1;
            assert(dropped@.drop_last() == before);
            assert(dropped@ =~= marked@.take(n as int));
            assert(dropped@[n - 1] == token);
            assert forall|t: usize| self@.stale.contains(t) implies swept.stale.contains(t)
                && !dropped@.contains(t) by {
                lemma_teardown(prev, token);
                assert(prev.stale.contains(t));
                assert(t != token);
                assert(swept.stale.contains(t));
                if dropped@.contains(t) {
                    let j = choose|j: int| 0 <= j < dropped@.len() && dropped@[j] == t;
                    assert(before[j] == t);
                    assert(before.contains(t));
                }
                assert(!dropped@.contains(t));
            }
        }
        assert(marked@.take(n as int) == marked@);
        assert(self@.stale =~= Set::<usize>::empty()) by {
            assert forall|t: usize| !self@.stale.contains(t) by {
                if self@.stale.contains(t) {
                    assert(marked@.to_set().contains(t));
                }
            }
        }
        assert(self@.new_peers =~= Map::<usize, PumpState>::empty()) by {
            lemma_teardowns(swept, dropped@);
            lemma_teardowns_keep(swept, dropped@);
        }
        Settled { linked, dropped }
    }

    /// Marks every detached token that has flushed all it had.
    fn sweep(&mut self)
        requires
            old(self).wf(),
        ensures
            final(self).wf(),
            final(self)@ == old(self)@.swept(),
    {
        broadcast use vstd::std_specs::hash::group_hash_axioms;

        let mut waiting: Vec<usize> = Vec::new();
        let ghost all = self.detached.iter().remaining();
        for token in it: self.detached.iter()
            invariant
                it.seq() == all,
                waiting@.len() == it.index(),
                forall|j: int| 0 <= j < waiting@.len() ==> waiting@[j] == *all[j],
        {
            waiting.push(*token);
        }
        assert(waiting@ =~= all.unref());
        assert(waiting@.to_set() == self@.detached);
        let mut i: usize = 0;
        while i < waiting.len()
            invariant
                i <= waiting.len(),
                self.wf(),
                waiting@.to_set() == old(self)@.detached,
                self@ == (ServerState { stale: self@.stale, ..old(self)@ }),
                forall|t: usize|
                    self@.stale.contains(t) <==> old(self)@.stale.contains(t) || (exists|j: int|
                        0 <= j < i && waiting@[j] == t && old(self)@.flushed_out(t)),
            decreases waiting.len() - i,
        {
            let token = waiting[i];
            assert(waiting@.to_set().contains(token));
            let writable = match arena_get(&self.pumps, token) {
                Some(pump) => pump.interest().writable,
                None => true,
            };
            let ghost marked_before = self@.stale;
            if !writable {
                self.stale.insert(token);
            }
            i = i + 1;
            assert forall|t: usize|
                self@.stale.contains(t) <==> old(self)@.stale.contains(t) || (exists|j: int|
                    0 <= j < i && waiting@[j] == t && old(self)@.flushed_out(t)) by {
                if marked_before.contains(t) && !old(self)@.stale.contains(t) {
                    let j = choose|j: int|
                        0 <= j < i - 1 && waiting@[j] == t && old(self)@.flushed_out(t);
                    assert(0 <= j < i && waiting@[j] == t);
                }
                if t == token && !writable {
                    assert(waiting@[i - 1] == t);
                }
            }
        }
        assert(self@.stale =~= old(self)@.swept().stale) by {
            assert forall|t: usize| old(self)@.flushed_out(t) implies self@.stale.contains(t) by {
                assert(waiting@.to_set().contains(t));
                let j = choose|j: int| 0 <= j < waiting@.len() && waiting@[j] == t;
                assert(0 <= j < i && waiting@[j] == t);
            }
        }
    }

    /// Marks `token` for teardown when the batch is settled.
    pub fn mark_stale(&mut self, token: usize)
        requires
            old(self).wf(),
        ensures
            final(self).wf(),
            final(self)@ == old(self)@.marked(token),
    {
        broadcast use vstd::std_specs::hash::group_hash_axioms;

        if arena_contains(&self.pumps, token) {
            self.stale.insert(token);
        }
    }
}

} // verus!
