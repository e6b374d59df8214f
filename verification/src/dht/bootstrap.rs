//! Joining the mesh: the resolver names some peers, and the routing table hears
//! of them.

use super::dedupe::{firsts, has_one, keys_distinct, lemma_firsts_push};
use super::id::{NodeDescriptor, NodeId};
use super::lookup::peer_id;
use super::routing::{
    active_in, bucket_of, law_active_peers, law_bucket_exists, law_heard_address_is_given, law_heard_is_known, place_of,
    BucketView, InsertOutcome, RoutingEntry, TableView,
};
use super::{Dht, DhtView};
use vstd::prelude::*;
use vstd::string::StringSliceAdditionalSpecFns;
use vstd::utf8::encode_utf8;

verus! {

/// How far joining has come.
#[derive(Clone, Copy, Debug, PartialEq, Eq, Structural)]
pub enum BootstrapState {
    /// Nothing was asked yet.
    Cold,
    /// The resolver answered and the table hears of the peers.
    Warming,
    /// The walk towards this relay's own id is on its way.
    Walking,
    /// Done.
    Ready,
}

/// Peers close by distance that are asked of the resolver.
pub const BOOTSTRAP_COUNT_XOR_NEAR: u8 = 8;

/// Peers close by latency that are asked of the resolver.
pub const BOOTSTRAP_COUNT_RTT_NEAR: u8 = 4;

/// Why joining failed. None of it is fatal.
#[derive(Debug)]
pub enum BootstrapError {
    /// There is no session with the resolver at the moment.
    ResolverUnavailable,
    /// The resolver knows nobody.
    EmptyRegistry,
    /// The resolver's answer could not be had or read; with the cause.
    Decode(String),
}

/// The words in an error that tell that there is no session.
pub open spec fn no_session() -> Seq<u8> {
    "no live resolver session".spec_bytes()
}

/// `needle` stands in `hay` at `i`.
pub open spec fn occurs_at(hay: Seq<u8>, needle: Seq<u8>, i: int) -> bool {
    0 <= i && i + needle.len() <= hay.len() && hay.subrange(i, i + needle.len()) == needle
}

/// `needle` stands somewhere in `hay`.
pub open spec fn occurs(hay: Seq<u8>, needle: Seq<u8>) -> bool {
    exists|i: int| #[trigger] occurs_at(hay, needle, i)
}

/// Whether `needle` stands somewhere in `hay`.
fn contains_bytes(hay: &[u8], needle: &[u8]) -> (r: bool)
    ensures
        r == occurs(hay@, needle@),
{
    if hay.len() < needle.len() {
        return false;
    }
    let mut i: usize = 0;
    while i <= hay.len() - needle.len()
        invariant
            0 <= i <= hay.len() - needle.len() + 1,
            needle.len() <= hay.len(),
            forall|j: int| 0 <= j < i ==> !#[trigger] occurs_at(hay@, needle@, j),
        decreases hay.len() - needle.len() + 1 - i,
    {
        let part: &[u8] = vstd::slice::slice_subrange(hay, i, i + needle.len());
        if super::bytes::bytes_eq(part, needle) {
            assert(occurs_at(hay@, needle@, i as int));
            return true;
        }
        if i == hay.len() - needle.len() {
            assert forall|j: int| !#[trigger] occurs_at(hay@, needle@, j) by {
                if occurs_at(hay@, needle@, j) {
                    assert(j <= i);
                }
            }
            return false;
        }
        i = i + 1;
    }
    false
}

/// What an error of the resolver session means, by its words: without a
/// session the resolver is not available, and everything else is trouble on
/// the wire.
pub fn classify_handle_error(message: String) -> (r: BootstrapError)
    ensures
        occurs(encode_utf8(message@), no_session()) ==> r is ResolverUnavailable,
        !occurs(encode_utf8(message@), no_session()) ==> r == BootstrapError::Decode(message),
{
    let gone: bool = contains_bytes(message.as_str().as_bytes(), "no live resolver session".as_bytes());
    if gone {
        BootstrapError::ResolverUnavailable
    } else {
        BootstrapError::Decode(message)
    }
}

/// How the table took the peers.
#[derive(Clone, Copy, Debug, PartialEq, Eq, Structural)]
pub struct SeedCounts {
    pub inserted: usize,
    pub refreshed: usize,
    pub deferred: usize,
    pub self_skipped: usize,
}

/// The table after it heard of these peers, one after the other.
pub open spec fn heard_all(t: TableView, peers: Seq<NodeDescriptor>, now: u64) -> TableView
    decreases peers.len(),
{
    if peers.len() == 0 {
        t
    } else {
        heard_all(t, peers.drop_last(), now).heard(peers.last(), now).0
    }
}

/// How many of the peers the table took in which way.
pub open spec fn count_of(t: TableView, peers: Seq<NodeDescriptor>, now: u64, way: spec_fn(InsertOutcome) -> bool) -> nat
    decreases peers.len(),
{
    if peers.len() == 0 {
        0
    } else {
        count_of(t, peers.drop_last(), now, way) + (if way(
            heard_all(t, peers.drop_last(), now).heard(peers.last(), now).1,
        ) {
            1nat
        } else {
            0nat
        })
    }
}

/// The peer was appended.
pub open spec fn was_inserted() -> spec_fn(InsertOutcome) -> bool {
    |o: InsertOutcome| o is Inserted
}

/// The peer was known.
pub open spec fn was_refreshed() -> spec_fn(InsertOutcome) -> bool {
    |o: InsertOutcome| o is Refreshed
}

/// The peer waits, or was not taken.
pub open spec fn was_deferred() -> spec_fn(InsertOutcome) -> bool {
    |o: InsertOutcome| o is PendingPing || o is Discarded
}

/// The peer is this relay.
pub open spec fn was_self() -> spec_fn(InsertOutcome) -> bool {
    |o: InsertOutcome| o is IsSelf
}

/// Whether a peer with this id is in the list.
fn lists_peer(peers: &Vec<NodeDescriptor>, id: &NodeId) -> (r: bool)
    ensures
        r == has_one(peers@, peer_id(), *id),
{
    let mut i: usize = 0;
    while i < peers.len()
        invariant
            0 <= i <= peers.len(),
            forall|k: int| 0 <= k < i ==> peer_id()(#[trigger] peers@[k]) != *id,
        decreases peers.len() - i,
    {
        if peers[i].id.same(id) {
            assert(peer_id()(peers@[i as int]) == *id);
            return true;
        }
        i = i + 1;
    }
    false
}

/// Takes the peers of a list that are not there yet.
fn take_new(out: &mut Vec<NodeDescriptor>, list: &Vec<NodeDescriptor>, Ghost(base): Ghost<Seq<NodeDescriptor>>)
    requires
        old(out)@ == firsts(base, peer_id()),
    ensures
        final(out)@ == firsts(base + list@, peer_id()),
{
    let mut i: usize = 0;
    assert(base + list@.take(0) =~= base);
    while i < list.len()
        invariant
            0 <= i <= list.len(),
            out@ == firsts(base + list@.take(i as int), peer_id()),
        decreases list.len() - i,
    {
        proof {
            lemma_firsts_push(base + list@.take(i as int), peer_id(), list@[i as int]);
            assert((base + list@.take(i as int)).push(list@[i as int]) =~= base + list@.take(i + 1));
        }
        if !lists_peer(out, &list[i].id) {
            out.push(list[i]);
        }
        i = i + 1;
    }
    assert(list@.take(i as int) =~= list@);
}

/// The peers that the resolver named, each once: those close by distance
/// first, then those close by latency.
pub fn distinct_peers(xor_near: &Vec<NodeDescriptor>, rtt_near: &Vec<NodeDescriptor>) -> (r: Vec<NodeDescriptor>)
    ensures
        r@ == firsts(xor_near@ + rtt_near@, peer_id()),
{
    let mut out: Vec<NodeDescriptor> = Vec::new();
    assert(out@ =~= firsts(Seq::<NodeDescriptor>::empty(), peer_id()));
    take_new(&mut out, xor_near, Ghost(Seq::<NodeDescriptor>::empty()));
    assert(Seq::<NodeDescriptor>::empty() + xor_near@ =~= xor_near@);
    take_new(&mut out, rtt_near, Ghost(xor_near@));
    out
}

/// Tells the routing table of the peers that the resolver named. Where the
/// resolver named nobody, the registry is empty.
pub fn seed_routing(dht: &mut Dht, xor_near: &Vec<NodeDescriptor>, rtt_near: &Vec<NodeDescriptor>, now: u64) -> (r:
    Result<SeedCounts, BootstrapError>)
    requires
        old(dht).wf(),
    ensures
        final(dht).wf(),
        match r {
            Err(e) => {
                &&& e is EmptyRegistry
                &&& xor_near@.len() == 0
                &&& rtt_near@.len() == 0
                &&& final(dht)@ == old(dht)@
            },
            Ok(counts) => {
                let peers = firsts(xor_near@ + rtt_near@, peer_id());
                &&& xor_near@.len() + rtt_near@.len() > 0
                &&& final(dht)@ == (DhtView { routing: heard_all(old(dht)@.routing, peers, now), ..old(dht)@ })
                &&& counts.inserted == count_of(old(dht)@.routing, peers, now, was_inserted())
                &&& counts.refreshed == count_of(old(dht)@.routing, peers, now, was_refreshed())
                &&& counts.deferred == count_of(old(dht)@.routing, peers, now, was_deferred())
                &&& counts.self_skipped == count_of(old(dht)@.routing, peers, now, was_self())
            },
        },
{
    if xor_near.len() == 0 && rtt_near.len() == 0 {
        return Err(BootstrapError::EmptyRegistry);
    }
    let peers: Vec<NodeDescriptor> = distinct_peers(xor_near, rtt_near);
    let ghost before = dht@;
    let ghost t = dht@.routing;
    let mut counts = SeedCounts { inserted: 0, refreshed: 0, deferred: 0, self_skipped: 0 };
    let mut i: usize = 0;
    while i < peers.len()
        invariant
            0 <= i <= peers.len(),
            dht.wf(),
            t == before.routing,
            dht@ == (DhtView { routing: heard_all(t, peers@.take(i as int), now), ..before }),
            counts.inserted == count_of(t, peers@.take(i as int), now, was_inserted()),
            counts.refreshed == count_of(t, peers@.take(i as int), now, was_refreshed()),
            counts.deferred == count_of(t, peers@.take(i as int), now, was_deferred()),
            counts.self_skipped == count_of(t, peers@.take(i as int), now, was_self()),
            counts.inserted <= i,
            counts.refreshed <= i,
            counts.deferred <= i,
            counts.self_skipped <= i,
        decreases peers.len() - i,
    {
        proof {
            assert(peers@.take(i + 1).drop_last() =~= peers@.take(i as int));
            assert(peers@.take(i + 1).last() == peers@[i as int]);
        }
        match dht.routing.insert(peers[i], now) {
            InsertOutcome::Inserted => {
                counts.inserted = counts.inserted + 1;
            },
            InsertOutcome::Refreshed => {
                counts.refreshed = counts.refreshed + 1;
            },
            InsertOutcome::PendingPing(_) => {
                counts.deferred = counts.deferred + 1;
            },
            InsertOutcome::Discarded => {
                counts.deferred = counts.deferred + 1;
            },
            InsertOutcome::IsSelf => {
                counts.self_skipped = counts.self_skipped + 1;
            },
        }
        i = i + 1;
    }
    assert(peers@.take(i as int) =~= peers@);
    Ok(counts)
}

/// Takes the answer of the resolver: the peers that it named, close by
/// distance and close by latency, or the words of what went wrong. Where the
/// table hears of peers, the walk towards this relay's own id follows.
pub fn take_answer(
    dht: &mut Dht,
    answer: Result<(Vec<NodeDescriptor>, Vec<NodeDescriptor>), String>,
    now: u64,
) -> (r: Result<SeedCounts, BootstrapError>)
    requires
        old(dht).wf(),
    ensures
        final(dht).wf(),
        match answer {
            Err(message) => {
                &&& final(dht)@ == old(dht)@
                &&& r matches Err(e)
                &&& e == (if occurs(encode_utf8(message@), no_session()) {
                    BootstrapError::ResolverUnavailable
                } else {
                    BootstrapError::Decode(message)
                })
            },
            Ok((xor_near, rtt_near)) => if xor_near@.len() == 0 && rtt_near@.len() == 0 {
                &&& final(dht)@ == old(dht)@
                &&& r matches Err(e)
                &&& e is EmptyRegistry
            } else {
                let peers = firsts(xor_near@ + rtt_near@, peer_id());
                &&& final(dht)@ == (DhtView { routing: heard_all(old(dht)@.routing, peers, now), ..old(dht)@ })
                &&& r matches Ok(counts)
                &&& counts.inserted == count_of(old(dht)@.routing, peers, now, was_inserted())
                &&& counts.refreshed == count_of(old(dht)@.routing, peers, now, was_refreshed())
                &&& counts.deferred == count_of(old(dht)@.routing, peers, now, was_deferred())
                &&& counts.self_skipped == count_of(old(dht)@.routing, peers, now, was_self())
            },
        },
{
    match answer {
        Err(message) => Err(classify_handle_error(message)),
        Ok((xor_near, rtt_near)) => seed_routing(dht, &xor_near, &rtt_near, now),
    }
}

/// Where joining ends after the table heard of peers, given whether the walk
/// towards this relay's own id found any: a relay can answer with the peers
/// that the resolver named, so it is done also where the walk failed.
pub fn bootstrap_done(_walked: bool) -> (r: BootstrapState)
    ensures
        r == BootstrapState::Ready,
{
    BootstrapState::Ready
}

/// Every peer that the resolver named once is taken in exactly one way.
pub proof fn law_counts_add_up(t: TableView, peers: Seq<NodeDescriptor>, now: u64)
    ensures
        count_of(t, peers, now, was_inserted()) + count_of(t, peers, now, was_refreshed()) + count_of(
            t,
            peers,
            now,
            was_deferred(),
        ) + count_of(t, peers, now, was_self()) == peers.len(),
    decreases peers.len(),
{
    if peers.len() > 0 {
        law_counts_add_up(t, peers.drop_last(), now);
    }
}

/// Byte strings in which the words stand are those that can be split around
/// them.
pub proof fn law_occurs_is_in_the_middle(hay: Seq<u8>, needle: Seq<u8>, before: Seq<u8>, behind: Seq<u8>)
    ensures
        occurs(before + needle + behind, needle),
        occurs(hay, needle) ==> exists|a: Seq<u8>, b: Seq<u8>| hay == #[trigger] (a + needle + b),
{
    let whole = before + needle + behind;
    assert(whole.subrange(before.len() as int, (before.len() + needle.len()) as int) =~= needle);
    assert(occurs_at(whole, needle, before.len() as int));
    if occurs(hay, needle) {
        let i = choose|i: int| #[trigger] occurs_at(hay, needle, i);
        let a = hay.take(i);
        let b = hay.skip(i + needle.len());
        assert(hay =~= a + needle + b);
    }
}

/// Hearing of peers keeps the table well formed and this relay's.
proof fn lemma_heard_all_wf(t: TableView, peers: Seq<NodeDescriptor>, now: u64)
    requires
        t.wf(),
    ensures
        heard_all(t, peers, now).wf(),
        heard_all(t, peers, now).self_id == t.self_id,
    decreases peers.len(),
{
    if peers.len() > 0 {
        lemma_heard_all_wf(t, peers.drop_last(), now);
        law_heard_is_known(heard_all(t, peers.drop_last(), now), peers.last(), now);
    }
}

/// What the table gives for the peers that it was told of: where it knows one of
/// them, under the address that the resolver named, and seen now. Who was known
/// before is still known, and nobody is known whom it was neither told of nor
/// knew.
pub proof fn law_seeds_are_known_by_their_address(
    t: TableView,
    peers: Seq<NodeDescriptor>,
    now: u64,
    i: int,
    e: RoutingEntry,
)
    requires
        t.wf(),
        keys_distinct(peers, peer_id()),
        0 <= i < peers.len(),
    ensures
        ({
            let after = heard_all(t, peers, now);
            &&& after.active().contains(e) && e.id == peers[i].id ==> e.addr == peers[i].addr && e.last_seen == now
            &&& after.active().contains(e) ==> t.active().contains(e) || exists|k: int|
                0 <= k < peers.len() && (#[trigger] peers[k]).id == e.id
            &&& t.active().contains(e) ==> after.knows(e.id)
        }),
    decreases peers.len(),
{
    let n = peers.len() - 1;
    let init = peers.drop_last();
    let last = peers.last();
    let mid = heard_all(t, init, now);
    let after = heard_all(t, peers, now);
    lemma_heard_all_wf(t, init, now);
    law_heard_address_is_given(mid, last, now, e, e);
    law_heard_is_known(mid, last, now);
    assert forall|a: int, b: int| 0 <= a < b < init.len() implies peer_id()(#[trigger] init[a]) != peer_id()(
        #[trigger] init[b],
    ) by {
        assert(peer_id()(peers[a]) != peer_id()(peers[b]));
    }
    if i < n {
        assert(peer_id()(peers[i]) != peer_id()(peers[n]));
        assert(init[i] == peers[i]);
        law_seeds_are_known_by_their_address(t, init, now, i, e);
    } else if n > 0 {
        law_seeds_are_known_by_their_address(t, init, now, 0, e);
    }
    if after.active().contains(e) {
        if e.id == last.id {
            assert(peers[n].id == e.id);
        } else if n > 0 && !t.active().contains(e) {
            let k = choose|k: int| 0 <= k < init.len() && (#[trigger] init[k]).id == e.id;
            assert(peers[k].id == e.id);
        }
    }
    if t.active().contains(e) && n == 0 {
        let all = t.active();
        let k = choose|k: int| 0 <= k < all.len() && all[k] == e;
        assert(all[k].id == e.id);
        assert(t.knows(e.id));
    }
}

/// Every peer that counts as inserted is one more that the table knows, and
/// nothing else changes how many it knows.
pub proof fn law_inserted_peers_are_more(t: TableView, peers: Seq<NodeDescriptor>, now: u64)
    requires
        t.wf(),
    ensures
        heard_all(t, peers, now).active().len() == t.active().len() + count_of(t, peers, now, was_inserted()),
    decreases peers.len(),
{
    if peers.len() > 0 {
        let init = peers.drop_last();
        let mid = heard_all(t, init, now);
        law_inserted_peers_are_more(t, init, now);
        lemma_heard_all_wf(t, init, now);
        lemma_heard_grows(mid, peers.last(), now);
    }
}

proof fn lemma_heard_grows(t: TableView, d: NodeDescriptor, now: u64)
    requires
        t.wf(),
    ensures
        t.heard(d, now).0.active().len() == t.active().len() + (if t.heard(d, now).1 is Inserted {
            1int
        } else {
            0
        }),
{
    if d.id != t.self_id {
        law_bucket_exists(t.self_id, d.id);
        let i = bucket_of(t.self_id, d.id);
        lemma_active_len(t.buckets, i, t.buckets[i].hear(d, now).0);
    }
}

proof fn lemma_active_len(buckets: Seq<BucketView>, i: int, b: BucketView)
    requires
        0 <= i < buckets.len(),
    ensures
        active_in(buckets.update(i, b)).len() == active_in(buckets).len() - buckets[i].entries.len() + b.entries.len(),
    decreases buckets.len(),
{
    let n = buckets.len() - 1;
    let after = buckets.update(i, b);
    if i < n {
        assert(after.drop_last() =~= buckets.drop_last().update(i, b));
        lemma_active_len(buckets.drop_last(), i, b);
    } else {
        assert(after.drop_last() =~= buckets.drop_last());
    }
}

/// Which way each peer counts: this relay itself as skipped, who was known
/// before as refreshed, and of the others those that the table took as
/// inserted and the rest as deferred.
pub proof fn law_each_peer_counts_its_way(t: TableView, peers: Seq<NodeDescriptor>, d: NodeDescriptor, now: u64)
    requires
        t.wf(),
        keys_distinct(peers.push(d), peer_id()),
    ensures
        ({
            let more = peers.push(d);
            let known = t.knows(d.id);
            let after = heard_all(t, more, now);
            &&& count_of(t, more, now, was_self()) == count_of(t, peers, now, was_self()) + (if d.id == t.self_id {
                1int
            } else {
                0
            })
            &&& count_of(t, more, now, was_refreshed()) == count_of(t, peers, now, was_refreshed()) + (if known {
                1int
            } else {
                0
            })
            &&& count_of(t, more, now, was_inserted()) == count_of(t, peers, now, was_inserted()) + (if !known
                && after.knows(d.id) {
                1int
            } else {
                0
            })
            &&& count_of(t, more, now, was_deferred()) == count_of(t, peers, now, was_deferred()) + (if d.id
                != t.self_id && !after.knows(d.id) {
                1int
            } else {
                0
            })
        }),
{
    let more = peers.push(d);
    assert(more.drop_last() =~= peers);
    let mid = heard_all(t, peers, now);
    lemma_heard_all_wf(t, peers, now);
    let e: RoutingEntry = RoutingEntry::learned(d, now);
    law_heard_address_is_given(mid, d, now, e, e);
    law_active_peers(t);
    law_active_peers(mid);
    law_heard_is_known(mid, d, now);
    law_active_peers(mid.heard(d, now).0);
    assert forall|k: int| 0 <= k < peers.len() implies (#[trigger] peers[k]).id != d.id by {
        assert(peer_id()(more[k]) != peer_id()(more[peers.len() as int]));
    }
    lemma_known_by_others(t, peers, now, d.id);
}

/// Hearing of others does not make a peer known, nor forgotten.
proof fn lemma_known_by_others(t: TableView, peers: Seq<NodeDescriptor>, now: u64, id: NodeId)
    requires
        t.wf(),
        forall|k: int| 0 <= k < peers.len() ==> (#[trigger] peers[k]).id != id,
    ensures
        heard_all(t, peers, now).knows(id) <==> t.knows(id),
    decreases peers.len(),
{
    if peers.len() > 0 {
        let init = peers.drop_last();
        let mid = heard_all(t, init, now);
        assert forall|k: int| 0 <= k < init.len() implies (#[trigger] init[k]).id != id by {
            assert(init[k] == peers[k]);
        }
        lemma_known_by_others(t, init, now, id);
        lemma_heard_all_wf(t, init, now);
        let after = mid.heard(peers.last(), now).0;
        assert(peers[peers.len() - 1].id != id);
        if mid.knows(id) {
            law_heard_is_known(mid, peers.last(), now);
        }
        if after.knows(id) {
            let e = after.active()[place_of(after.active(), id)];
            assert(after.active().contains(e));
            law_heard_address_is_given(mid, peers.last(), now, e, e);
            let all = mid.active();
            let k = choose|k: int| 0 <= k < all.len() && all[k] == e;
            assert(all[k].id == id);
        }
    }
}

} // verus!
