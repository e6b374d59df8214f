//! Routing table of 256 buckets over the keyspace of node ids.
//!
//! Bucket `i` holds the peers whose XOR distance from this relay lies in
//! `[2^i, 2^(i+1))`. Each bucket keeps its active peers in order of last
//! sighting and a bounded cache of replacements.

use super::bytes::{lemma_be_nat_range, lemma_leading_zeros_range, lemma_zeros_spell_zero, less32, xor32, xor_seq};
use super::config::{BUCKETS, BUCKET_REFRESH_MS, BUCKET_SIZE, K};
use super::id::{distance, law_distance_tells_apart, law_distance_zero, NodeDescriptor, NodeId, PeerAddr};
use vstd::arithmetic::power2::{lemma2_to64, lemma_pow2_adds, lemma_pow2_pos, lemma_pow2_strictly_increases, pow2};
use vstd::prelude::*;

verus! {

/// Failed probes in a row after which a peer is evicted.
pub const PING_FAILURES_BEFORE_EVICTION: u8 = 3;

/// One over the weight of a new sample in the moving average of round trips.
pub const RTT_EMA_DENOM: u64 = 8;

/// A peer in a bucket.
#[derive(Clone, Copy, Debug, PartialEq, Eq)]
pub struct RoutingEntry {
    pub id: NodeId,
    /// Last known address.
    pub addr: PeerAddr,
    /// Ed25519 public key of the peer.
    pub pubkey: [u8; 32],
    /// When the peer was last observed alive, in milliseconds of a monotonic
    /// clock.
    pub last_seen: u64,
    /// Moving average of the round-trip time; `None` before the first sample.
    pub rtt_ema_ms: Option<u32>,
    /// Failed probes since the last success.
    pub failed_pings: u8,
    /// Handle of an open connection to the peer.
    pub conn: Option<u64>,
}

impl RoutingEntry {
    /// The entry as it travels in answers.
    pub open spec fn as_descriptor(self) -> NodeDescriptor {
        NodeDescriptor { id: self.id, addr: self.addr, pubkey: self.pubkey }
    }

    /// The entry as it travels in answers.
    pub fn descriptor(&self) -> (r: NodeDescriptor)
        ensures
            r == self.as_descriptor(),
    {
        NodeDescriptor { id: self.id, addr: self.addr, pubkey: self.pubkey }
    }

    /// The entry of a peer that was just learned of.
    pub open spec fn learned(desc: NodeDescriptor, now: u64) -> RoutingEntry {
        RoutingEntry {
            id: desc.id,
            addr: desc.addr,
            pubkey: desc.pubkey,
            last_seen: now,
            rtt_ema_ms: None,
            failed_pings: 0,
            conn: None,
        }
    }

    /// The entry of a peer that was just learned of.
    pub fn from_descriptor(desc: &NodeDescriptor, now: u64) -> (r: RoutingEntry)
        ensures
            r == RoutingEntry::learned(*desc, now),
    {
        RoutingEntry {
            id: desc.id,
            addr: desc.addr,
            pubkey: desc.pubkey,
            last_seen: now,
            rtt_ema_ms: None,
            failed_pings: 0,
            conn: None,
        }
    }
}

// ---------------------------------------------------------------------------
// Distance classes
// ---------------------------------------------------------------------------

/// `peer` belongs to bucket `i` of the table of `self_id`.
pub open spec fn in_bucket(self_id: NodeId, peer: NodeId, i: int) -> bool {
    &&& 0 <= i < BUCKETS
    &&& pow2(i as nat) <= distance(self_id, peer) < pow2((i + 1) as nat)
}

/// The bucket of `peer` in the table of `self_id`.
pub open spec fn bucket_of(self_id: NodeId, peer: NodeId) -> int {
    choose|i: int| in_bucket(self_id, peer, i)
}

/// A peer belongs to one bucket only.
pub proof fn law_bucket_unique(self_id: NodeId, peer: NodeId, i: int, j: int)
    requires
        in_bucket(self_id, peer, i),
        in_bucket(self_id, peer, j),
    ensures
        i == j,
{
    if i < j {
        if i + 1 < j {
            lemma_pow2_strictly_increases((i + 1) as nat, j as nat);
        }
    } else if j < i {
        if j + 1 < i {
            lemma_pow2_strictly_increases((j + 1) as nat, i as nat);
        }
    }
}

/// Every peer but the relay itself has a bucket, and the relay has none.
pub proof fn law_bucket_exists(self_id: NodeId, peer: NodeId)
    ensures
        self_id != peer ==> in_bucket(self_id, peer, bucket_of(self_id, peer)),
        self_id == peer ==> forall|i: int| !in_bucket(self_id, peer, i),
{
    law_distance_zero(self_id, peer);
    let x = xor_seq(self_id@, peer@);
    if self_id != peer {
        if forall|j: int| 0 <= j < 32 ==> x[j] == 0 {
            lemma_zeros_spell_zero(x);
        }
        let some = choose|j: int| 0 <= j < 32 && x[j] != 0;
        lemma_first_nonzero(x, some);
        let first = choose|j: int| 0 <= j < 32 && x[j] != 0 && forall|k: int| 0 <= k < j ==> x[k] == 0;
        lemma_bucket_from_first_byte(self_id, peer, first);
    } else {
        assert forall|i: int| !in_bucket(self_id, peer, i) by {
            if in_bucket(self_id, peer, i) {
                lemma_pow2_pos(i as nat);
            }
        }
    }
}

proof fn lemma_first_nonzero(x: Seq<u8>, some: int)
    requires
        0 <= some < x.len(),
        x[some] != 0,
    ensures
        exists|j: int| 0 <= j <= some && x[j] != 0 && forall|k: int| 0 <= k < j ==> x[k] == 0,
    decreases some,
{
    if exists|k: int| 0 <= k < some && x[k] != 0 {
        let k = choose|k: int| 0 <= k < some && x[k] != 0;
        lemma_first_nonzero(x, k);
    } else {
        assert(0 <= some <= some && x[some] != 0 && forall|k: int| 0 <= k < some ==> x[k] == 0);
    }
}

proof fn lemma_bucket_from_first_byte(self_id: NodeId, peer: NodeId, j: int)
    requires
        0 <= j < 32,
        xor_seq(self_id@, peer@)[j] != 0,
        forall|k: int| 0 <= k < j ==> xor_seq(self_id@, peer@)[k] == 0,
    ensures
        in_bucket(
            self_id,
            peer,
            255 - 8 * j - vstd::std_specs::bits::u8_leading_zeros(xor_seq(self_id@, peer@)[j]),
        ),
{
    let x = xor_seq(self_id@, peer@);
    let b = x[j];
    let z = vstd::std_specs::bits::u8_leading_zeros(b) as int;
    lemma_leading_zeros_range(b);
    let head = x.take(j + 1);
    assert(head.drop_last() =~= x.take(j));
    lemma_zeros_spell_zero(x.take(j));
    assert(super::bytes::be_nat(head) == b as nat);
    lemma_be_nat_range(x, j + 1);
    let m = (8 * (31 - j)) as nat;
    assert((8 * (x.len() - (j + 1))) as nat == m);
    lemma_pow2_adds((7 - z) as nat, m);
    lemma_pow2_adds((8 - z) as nat, m);
    let p = pow2(m) as int;
    let lo = pow2((7 - z) as nat) as int;
    let hi = pow2((8 - z) as nat) as int;
    let d = distance(self_id, peer) as int;
    let v = b as int;
    assert(lo * p <= v * p) by (nonlinear_arith)
        requires
            lo <= v,
            0 <= p,
    ;
    assert((v + 1) * p <= hi * p) by (nonlinear_arith)
        requires
            v + 1 <= hi,
            0 <= p,
    ;
    assert((7 - z) + m == 255 - 8 * j - z);
    assert((8 - z) + m == 255 - 8 * j - z + 1);
}

/// The bucket index of `peer_id` in the table of `self_id`; `None` when the
/// two are the same.
pub fn bucket_for(self_id: &NodeId, peer_id: &NodeId) -> (r: Option<usize>)
    ensures
        match r {
            Some(i) => in_bucket(*self_id, *peer_id, i as int) && bucket_of(*self_id, *peer_id) == i,
            None => *self_id == *peer_id,
        },
        r is None <==> *self_id == *peer_id,
{
    let xor: [u8; 32] = xor32(self_id.as_bytes(), peer_id.as_bytes());
    let mut i: usize = 0;
    while i < 32
        invariant
            0 <= i <= 32,
            xor@ == xor_seq(self_id@, peer_id@),
            forall|k: int| 0 <= k < i ==> xor@[k] == 0,
        decreases 32 - i,
    {
        let b: u8 = xor[i];
        if b != 0 {
            let lzc: usize = 8 * i + b.leading_zeros() as usize;
            proof {
                lemma_leading_zeros_range(b);
                lemma_bucket_from_first_byte(*self_id, *peer_id, i as int);
                law_bucket_exists(*self_id, *peer_id);
                law_bucket_unique(
                    *self_id,
                    *peer_id,
                    255 - lzc as int,
                    bucket_of(*self_id, *peer_id),
                );
            }
            return Some(BUCKETS - 1 - lzc);
        }
        i = i + 1;
    }
    proof {
        lemma_zeros_spell_zero(xor@);
        law_distance_zero(*self_id, *peer_id);
    }
    None
}

/// The byte that makes an id differ from another first in bit `k`, with the
/// bits below it from `x`.
pub open spec fn first_difference(k: u8, x: u8) -> u8 {
    (1u8 << k) | (x & ((1u8 << k) - 1) as u8)
}

/// An id in bucket `idx` of the table of `self_id`, made from random bytes:
/// the id of this relay up to the bit of the bucket, the other bit there, and
/// random bits below it. `None` where there is no such bucket.
pub fn random_id_in_bucket(self_id: &NodeId, idx: usize, random: &[u8; 32]) -> (r: Option<NodeId>)
    ensures
        match r {
            Some(id) => {
                let j = 31 - idx / 8;
                &&& in_bucket(*self_id, id, idx as int)
                &&& id@[j] == self_id@[j] ^ first_difference((idx % 8) as u8, random@[j])
                &&& forall|m: int| 0 <= m < j ==> id@[m] == self_id@[m]
                &&& forall|m: int| j < m < 32 ==> id@[m] == random@[m]
            },
            None => idx >= BUCKETS,
        },
{
    if idx >= BUCKETS {
        return None;
    }
    let j: usize = 31 - idx / 8;
    let k: u8 = (idx % 8) as u8;
    let x: u8 = random[j];
    assert(k < 8 ==> 1u8 << k >= 1) by (bit_vector);
    let below: u8 = (1u8 << k) - 1;
    let top: u8 = (1u8 << k) | (x & below);
    proof {
        assert(k < 8 ==> 1u8 << k >= 1 && ((1u8 << k) | (x & ((1u8 << k) - 1) as u8)) >= 1u8 << k) by (bit_vector);
        assert(k < 7 ==> ((1u8 << k) | (x & ((1u8 << k) - 1) as u8)) < 1u8 << ((k + 1) as u8)) by (bit_vector);
    }
    let mut bytes: [u8; 32] = self_id.bytes;
    bytes[j] = self_id.bytes[j] ^ top;
    let mut i: usize = j + 1;
    while i < 32
        invariant
            j < i <= 32,
            forall|m: int| 0 <= m < j ==> bytes@[m] == self_id@[m],
            forall|m: int| j < m < i ==> bytes@[m] == random@[m],
            bytes@[j as int] == self_id@[j as int] ^ top,
        decreases 32 - i,
    {
        bytes[i] = random[i];
        i = i + 1;
    }
    let id: NodeId = NodeId::from_bytes(bytes);
    proof {
        let xor = xor_seq(self_id@, id@);
        assert forall|m: int| 0 <= m < j implies xor[m] == 0 by {
            let b = self_id@[m];
            assert(b ^ b == 0) by (bit_vector);
        }
        let b = self_id@[j as int];
        assert(b ^ (b ^ top) == top) by (bit_vector);
        assert(xor[j as int] == top);
        lemma_leading_zeros_range(top);
        lemma_bucket_from_first_byte(*self_id, id, j as int);
        lemma_top_bit(top, k);
    }
    Some(id)
}

/// The leading zeros of a byte with highest bit `k`.
proof fn lemma_top_bit(top: u8, k: u8)
    requires
        k < 8,
        1u8 << k <= top,
        k < 7 ==> top < 1u8 << ((k + 1) as u8),
    ensures
        vstd::std_specs::bits::u8_leading_zeros(top) == 7 - k,
{
    assert(k < 8 ==> 1u8 << k >= 1) by (bit_vector);
    lemma_leading_zeros_range(top);
    let lz = vstd::std_specs::bits::u8_leading_zeros(top) as int;
    assert(pow2(0) == 1 && pow2(1) == 2 && pow2(2) == 4 && pow2(3) == 8 && pow2(4) == 16 && pow2(5) == 32 && pow2(6)
        == 64 && pow2(7) == 128 && pow2(8) == 256) by {
        vstd::arithmetic::power2::lemma2_to64();
    }
    assert(1u8 << 0u8 == 1 && 1u8 << 1u8 == 2 && 1u8 << 2u8 == 4 && 1u8 << 3u8 == 8 && 1u8 << 4u8 == 16 && 1u8 << 5u8
        == 32 && 1u8 << 6u8 == 64 && 1u8 << 7u8 == 128) by (bit_vector);
}

// ---------------------------------------------------------------------------
// Buckets
// ---------------------------------------------------------------------------

/// `id` is the id of one of the entries.
pub open spec fn holds_id(entries: Seq<RoutingEntry>, id: NodeId) -> bool {
    exists|i: int| 0 <= i < entries.len() && #[trigger] entries[i].id == id
}

/// Where the entry of `id` stands.
pub open spec fn place_of(entries: Seq<RoutingEntry>, id: NodeId) -> int {
    choose|i: int| 0 <= i < entries.len() && #[trigger] entries[i].id == id
}

/// No id occurs twice.
pub open spec fn ids_distinct(entries: Seq<RoutingEntry>) -> bool {
    forall|i: int, j: int|
        0 <= i < j < entries.len() ==> #[trigger] entries[i].id != #[trigger] entries[j].id
}

/// Entries stand in the order of their last sighting.
pub open spec fn in_sighting_order(entries: Seq<RoutingEntry>) -> bool {
    forall|i: int, j: int|
        0 <= i <= j < entries.len() ==> #[trigger] entries[i].last_seen <= #[trigger] entries[j].last_seen
}

/// No entry was sighted after `now`.
pub open spec fn sighted_by(entries: Seq<RoutingEntry>, now: u64) -> bool {
    forall|i: int| 0 <= i < entries.len() ==> (#[trigger] entries[i]).last_seen <= now
}

/// One bucket of the table.
#[derive(Debug)]
pub struct Bucket {
    /// Active peers, the one not seen for longest first.
    pub entries: Vec<RoutingEntry>,
    /// When the bucket was last touched.
    pub refresh_at: u64,
    /// Peers that wait for a slot, the one that waits longest first.
    pub candidates: Vec<RoutingEntry>,
}

/// What a [`Bucket`] holds.
#[verifier::ext_equal]
pub struct BucketView {
    pub entries: Seq<RoutingEntry>,
    pub refresh_at: u64,
    pub candidates: Seq<RoutingEntry>,
}

impl View for Bucket {
    type V = BucketView;

    open spec fn view(&self) -> BucketView {
        BucketView {
            entries: self.entries@,
            refresh_at: self.refresh_at,
            candidates: self.candidates@,
        }
    }
}

impl BucketView {
    /// What holds of bucket `i` in the table of `self_id`: both lists are
    /// bounded, hold peers of this distance class only and no peer twice, and
    /// nobody waits while there is a free slot.
    pub open spec fn wf(self, self_id: NodeId, i: int) -> bool {
        &&& self.entries.len() <= BUCKET_SIZE
        &&& self.candidates.len() <= BUCKET_SIZE
        &&& self.candidates.len() > 0 ==> self.entries.len() == BUCKET_SIZE
        &&& ids_distinct(self.entries)
        &&& ids_distinct(self.candidates)
        &&& forall|j: int| 0 <= j < self.entries.len() ==> in_bucket(self_id, (#[trigger] self.entries[j]).id, i)
        &&& forall|j: int| 0 <= j < self.candidates.len() ==> in_bucket(self_id, (#[trigger] self.candidates[j]).id, i)
        &&& forall|j: int| 0 <= j < self.candidates.len() ==> !holds_id(self.entries, (#[trigger] self.candidates[j]).id)
    }

    /// The bucket after `desc` was heard of, and what its hearer has to do.
    pub open spec fn hear(self, desc: NodeDescriptor, now: u64) -> (BucketView, InsertOutcome) {
        let touched = BucketView { refresh_at: now, ..self };
        if holds_id(self.entries, desc.id) {
            let p = place_of(self.entries, desc.id);
            let moved = RoutingEntry { last_seen: now, addr: desc.addr, ..self.entries[p] };
            (
                BucketView { entries: self.entries.remove(p).push(moved), ..touched },
                InsertOutcome::Refreshed,
            )
        } else if self.entries.len() < BUCKET_SIZE {
            (
                BucketView { entries: self.entries.push(RoutingEntry::learned(desc, now)), ..touched },
                InsertOutcome::Inserted,
            )
        } else if self.candidates.len() < BUCKET_SIZE && !holds_id(self.candidates, desc.id) {
            (
                BucketView { candidates: self.candidates.push(RoutingEntry::learned(desc, now)), ..touched },
                InsertOutcome::PendingPing(self.entries[0].as_descriptor()),
            )
        } else {
            (touched, InsertOutcome::Discarded)
        }
    }

    /// The bucket after a probe of `id` failed, and what became of the peer.
    pub open spec fn probe_failed(self, id: NodeId, now: u64) -> (BucketView, PingFailedOutcome) {
        let p = place_of(self.entries, id);
        if !holds_id(self.entries, id) {
            (self, PingFailedOutcome::Unknown)
        } else if self.entries[p].failed_pings + 1 < PING_FAILURES_BEFORE_EVICTION {
            let failed = RoutingEntry {
                failed_pings: (self.entries[p].failed_pings + 1) as u8,
                ..self.entries[p]
            };
            (
                BucketView { entries: self.entries.update(p, failed), ..self },
                PingFailedOutcome::Continued,
            )
        } else if self.candidates.len() == 0 {
            (BucketView { entries: self.entries.remove(p), ..self }, PingFailedOutcome::Evicted)
        } else {
            let promoted = RoutingEntry { last_seen: now, failed_pings: 0, ..self.candidates[0] };
            (
                BucketView {
                    entries: self.entries.remove(p).push(promoted),
                    candidates: self.candidates.remove(0),
                    ..self
                },
                PingFailedOutcome::EvictedAndPromoted,
            )
        }
    }

    /// The bucket after a probe of `id`, one of its active peers, came back
    /// in `rtt_ms`.
    pub open spec fn probe_succeeded(self, id: NodeId, rtt_ms: u32, now: u64) -> BucketView {
        let p = place_of(self.entries, id);
        let seen = RoutingEntry {
            failed_pings: 0,
            last_seen: now,
            rtt_ema_ms: Some(smoothed(self.entries[p].rtt_ema_ms, rtt_ms)),
            ..self.entries[p]
        };
        BucketView {
            entries: self.entries.remove(p).push(seen),
            refresh_at: now,
            candidates: self.candidates,
        }
    }
}

/// The moving average after one more sample: the first sample itself, then
/// seven parts of the old average to one part of the sample.
pub open spec fn smoothed(prev: Option<u32>, sample: u32) -> u32 {
    match prev {
        None => sample,
        Some(ema) => ((ema * 7 + sample) / 8) as u32,
    }
}

impl Bucket {
    /// A bucket without peers.
    pub fn empty(now: u64) -> (r: Bucket)
        ensures
            r@.entries.len() == 0,
            r@.candidates.len() == 0,
            r@.refresh_at == now,
    {
        Bucket {
            entries: Vec::with_capacity(BUCKET_SIZE),
            refresh_at: now,
            candidates: Vec::with_capacity(BUCKET_SIZE),
        }
    }
}

/// What [`RoutingTable::insert`] asks of its caller.
#[derive(Clone, Copy, Debug, PartialEq, Eq)]
pub enum InsertOutcome {
    /// The descriptor names this relay; nothing was done.
    IsSelf,
    /// The peer was known and is now the one seen last.
    Refreshed,
    /// The peer was appended to its bucket.
    Inserted,
    /// The bucket is full and the peer waits for a slot. The caller is to
    /// probe the peer given here, the one not seen for longest.
    PendingPing(NodeDescriptor),
    /// The peer is waiting already, or bucket and cache are both full.
    Discarded,
}

/// What [`RoutingTable::ping_failed`] did.
#[derive(Clone, Copy, Debug, PartialEq, Eq, Structural)]
pub enum PingFailedOutcome {
    /// The peer is not in the table.
    Unknown,
    /// The failure was counted.
    Continued,
    /// The peer was evicted and nobody waited for its slot.
    Evicted,
    /// The peer was evicted and the one that waited longest took its slot.
    EvictedAndPromoted,
}

/// Where the entry of `id` stands, if there is one.
fn position_of(entries: &Vec<RoutingEntry>, id: &NodeId) -> (r: Option<usize>)
    requires
        ids_distinct(entries@),
    ensures
        match r {
            Some(p) => p < entries.len() && holds_id(entries@, *id) && place_of(entries@, *id) == p
                && entries@[p as int].id == *id,
            None => !holds_id(entries@, *id),
        },
{
    let mut i: usize = 0;
    while i < entries.len()
        invariant
            0 <= i <= entries.len(),
            ids_distinct(entries@),
            forall|j: int| 0 <= j < i ==> (#[trigger] entries@[j]).id != *id,
        decreases entries.len() - i,
    {
        if entries[i].id.same(id) {
            assert(entries@[i as int].id == *id);
            return Some(i);
        }
        i = i + 1;
    }
    None
}

/// Removing an entry and appending one with an id of its own keeps ids apart.
proof fn lemma_replace_keeps_distinct(s: Seq<RoutingEntry>, p: int, e: RoutingEntry)
    requires
        ids_distinct(s),
        0 <= p < s.len(),
        e.id == s[p].id || !holds_id(s, e.id),
    ensures
        ids_distinct(s.remove(p)),
        ids_distinct(s.remove(p).push(e)),
        !holds_id(s.remove(p), e.id),
        forall|id: NodeId| holds_id(s.remove(p).push(e), id) ==> holds_id(s, id) || id == e.id,
{
    let r = s.remove(p);
    assert forall|i: int| 0 <= i < r.len() implies #[trigger] r[i].id != e.id && holds_id(s, r[i].id) by {
        let k = if i < p { i } else { i + 1 };
        assert(r[i] == s[k]);
        assert(s[k].id == r[i].id);
        assert(s[p].id != s[k].id);
    }
    assert forall|i: int, j: int| 0 <= i < j < r.len() implies #[trigger] r[i].id != #[trigger] r[j].id by {
        let ki = if i < p { i } else { i + 1 };
        let kj = if j < p { j } else { j + 1 };
        assert(s[ki].id != s[kj].id);
    }
    let t = r.push(e);
    assert forall|id: NodeId| holds_id(t, id) implies holds_id(s, id) || id == e.id by {
        let i = choose|i: int| 0 <= i < t.len() && #[trigger] t[i].id == id;
        if i < r.len() {
            assert(t[i] == r[i]);
        }
    }
}

/// Hearing of a peer keeps its bucket well formed.
pub proof fn law_hear_keeps_bucket(b: BucketView, self_id: NodeId, i: int, desc: NodeDescriptor, now: u64)
    requires
        b.wf(self_id, i),
        in_bucket(self_id, desc.id, i),
    ensures
        b.hear(desc, now).0.wf(self_id, i),
{
    let r = b.hear(desc, now).0;
    if holds_id(b.entries, desc.id) {
        let p = place_of(b.entries, desc.id);
        lemma_replace_keeps_distinct(
            b.entries,
            p,
            RoutingEntry { last_seen: now, addr: desc.addr, ..b.entries[p] },
        );
        assert forall|j: int| 0 <= j < r.candidates.len() implies !holds_id(
            r.entries,
            (#[trigger] r.candidates[j]).id,
        ) by {
            assert(!holds_id(b.entries, b.candidates[j].id));
        }
    } else if b.entries.len() < BUCKET_SIZE {
        assert(b.candidates.len() == 0);
        assert forall|k: int, j: int| 0 <= k < j < r.entries.len() implies #[trigger] r.entries[k].id
            != #[trigger] r.entries[j].id by {
            if j == b.entries.len() {
                assert(b.entries[k].id != desc.id);
            }
        }
    } else if b.candidates.len() < BUCKET_SIZE && !holds_id(b.candidates, desc.id) {
        assert forall|k: int, j: int| 0 <= k < j < r.candidates.len() implies #[trigger] r.candidates[k].id
            != #[trigger] r.candidates[j].id by {
            if j == b.candidates.len() {
                assert(b.candidates[k].id != desc.id);
            }
        }
        assert forall|j: int| 0 <= j < r.candidates.len() implies !holds_id(
            r.entries,
            (#[trigger] r.candidates[j]).id,
        ) by {
            if j < b.candidates.len() {
                assert(!holds_id(b.entries, b.candidates[j].id));
            }
        }
    }
}

/// A failed probe keeps the bucket well formed.
pub proof fn law_probe_failed_keeps_bucket(b: BucketView, self_id: NodeId, i: int, id: NodeId, now: u64)
    requires
        b.wf(self_id, i),
    ensures
        b.probe_failed(id, now).0.wf(self_id, i),
{
    let (r, outcome) = b.probe_failed(id, now);
    let p = place_of(b.entries, id);
    if outcome == PingFailedOutcome::Continued {
        assert forall|k: int| 0 <= k < r.entries.len() implies #[trigger] r.entries[k].id == b.entries[k].id by {}
        assert forall|other: NodeId| holds_id(r.entries, other) implies holds_id(b.entries, other) by {
            let k = place_of(r.entries, other);
            assert(b.entries[k].id == other);
        }
        assert forall|j: int| 0 <= j < r.candidates.len() implies !holds_id(
            r.entries,
            (#[trigger] r.candidates[j]).id,
        ) by {
            assert(!holds_id(b.entries, b.candidates[j].id));
        }
    } else if outcome == PingFailedOutcome::Evicted {
        lemma_replace_keeps_distinct(b.entries, p, b.entries[p]);
    } else if outcome == PingFailedOutcome::EvictedAndPromoted {
        let promoted = RoutingEntry { last_seen: now, failed_pings: 0, ..b.candidates[0] };
        assert(!holds_id(b.entries, b.candidates[0].id));
        lemma_replace_keeps_distinct(b.entries, p, promoted);
        assert forall|k: int, j: int| 0 <= k < j < r.candidates.len() implies #[trigger] r.candidates[k].id
            != #[trigger] r.candidates[j].id by {
            assert(b.candidates[k + 1].id != b.candidates[j + 1].id);
        }
        assert forall|j: int| 0 <= j < r.candidates.len() implies !holds_id(
            r.entries,
            (#[trigger] r.candidates[j]).id,
        ) && in_bucket(self_id, r.candidates[j].id, i) by {
            assert(r.candidates[j] == b.candidates[j + 1]);
            assert(!holds_id(b.entries, b.candidates[j + 1].id));
            assert(b.candidates[0].id != b.candidates[j + 1].id);
        }
        assert forall|j: int| 0 <= j < r.entries.len() implies in_bucket(
            self_id,
            (#[trigger] r.entries[j]).id,
            i,
        ) by {
            if j < r.entries.len() - 1 {
                let k = if j < p { j } else { j + 1 };
                assert(r.entries[j] == b.entries[k]);
            } else {
                assert(in_bucket(self_id, b.candidates[0].id, i));
            }
        }
    }
}

/// A successful probe keeps the bucket well formed.
pub proof fn law_probe_succeeded_keeps_bucket(
    b: BucketView,
    self_id: NodeId,
    i: int,
    id: NodeId,
    rtt_ms: u32,
    now: u64,
)
    requires
        b.wf(self_id, i),
        holds_id(b.entries, id),
    ensures
        b.probe_succeeded(id, rtt_ms, now).wf(self_id, i),
{
    let r = b.probe_succeeded(id, rtt_ms, now);
    let p = place_of(b.entries, id);
    let seen = r.entries.last();
    lemma_replace_keeps_distinct(b.entries, p, seen);
    assert forall|j: int| 0 <= j < r.entries.len() implies in_bucket(
        self_id,
        (#[trigger] r.entries[j]).id,
        i,
    ) by {
        if j < r.entries.len() - 1 {
            let k = if j < p { j } else { j + 1 };
            assert(r.entries[j] == b.entries[k]);
        }
    }
    assert forall|j: int| 0 <= j < r.candidates.len() implies !holds_id(
        r.entries,
        (#[trigger] r.candidates[j]).id,
    ) by {
        assert(!holds_id(b.entries, b.candidates[j].id));
    }
}

/// On a clock that does not run backwards, every change of a bucket keeps its
/// active peers in the order of their last sighting: the head is the one not
/// seen for longest, the tail the one seen last.
pub proof fn law_changes_keep_sighting_order(
    b: BucketView,
    desc: NodeDescriptor,
    id: NodeId,
    rtt_ms: u32,
    now: u64,
)
    requires
        in_sighting_order(b.entries),
        sighted_by(b.entries, now),
    ensures
        in_sighting_order(b.hear(desc, now).0.entries),
        sighted_by(b.hear(desc, now).0.entries, now),
        in_sighting_order(b.probe_failed(id, now).0.entries),
        sighted_by(b.probe_failed(id, now).0.entries, now),
        holds_id(b.entries, id) ==> in_sighting_order(b.probe_succeeded(id, rtt_ms, now).entries)
            && sighted_by(b.probe_succeeded(id, rtt_ms, now).entries, now),
{
    if holds_id(b.entries, desc.id) {
        lemma_remove_keeps_order(b.entries, place_of(b.entries, desc.id), now);
    }
    if holds_id(b.entries, id) {
        lemma_remove_keeps_order(b.entries, place_of(b.entries, id), now);
    }
}

proof fn lemma_remove_keeps_order(s: Seq<RoutingEntry>, p: int, now: u64)
    requires
        in_sighting_order(s),
        sighted_by(s, now),
        0 <= p < s.len(),
    ensures
        in_sighting_order(s.remove(p)),
        sighted_by(s.remove(p), now),
{
    let r = s.remove(p);
    assert forall|i: int, j: int| 0 <= i <= j < r.len() implies #[trigger] r[i].last_seen <= #[trigger] r[j].last_seen by {
        let ki = if i < p { i } else { i + 1 };
        let kj = if j < p { j } else { j + 1 };
        assert(s[ki].last_seen <= s[kj].last_seen);
    }
    assert forall|i: int| 0 <= i < r.len() implies (#[trigger] r[i]).last_seen <= now by {
        let ki = if i < p { i } else { i + 1 };
        assert(s[ki].last_seen <= now);
    }
}

// ---------------------------------------------------------------------------
// The table
// ---------------------------------------------------------------------------

/// The routing table of one relay.
#[derive(Debug)]
pub struct RoutingTable {
    /// Id of the relay that the table belongs to.
    pub self_id: NodeId,
    /// Bucket `i` holds the peers at a distance in `[2^i, 2^(i+1))`.
    pub buckets: Vec<Bucket>,
}

/// What a [`RoutingTable`] holds.
#[verifier::ext_equal]
pub struct TableView {
    pub self_id: NodeId,
    pub buckets: Seq<BucketView>,
}

impl View for RoutingTable {
    type V = TableView;

    open spec fn view(&self) -> TableView {
        TableView {
            self_id: self.self_id,
            buckets: Seq::new(self.buckets@.len(), |i: int| self.buckets@[i]@),
        }
    }
}

impl TableView {
    /// There are 256 buckets, each well formed.
    pub open spec fn wf(self) -> bool {
        &&& self.buckets.len() == BUCKETS
        &&& forall|i: int| 0 <= i < BUCKETS ==> (#[trigger] self.buckets[i]).wf(self.self_id, i)
    }

    /// The table with another bucket in place of bucket `i`.
    pub open spec fn with_bucket(self, i: int, b: BucketView) -> TableView {
        TableView { buckets: self.buckets.update(i, b), ..self }
    }

    /// The active peers, bucket by bucket.
    pub open spec fn active(self) -> Seq<RoutingEntry> {
        active_in(self.buckets)
    }

    /// The active peer with this id is in the table.
    pub open spec fn knows(self, id: NodeId) -> bool {
        holds_id(self.active(), id)
    }

    /// The table after it heard of a peer, and what is left to do.
    pub open spec fn heard(self, descriptor: NodeDescriptor, now: u64) -> (TableView, InsertOutcome) {
        if descriptor.id == self.self_id {
            (self, InsertOutcome::IsSelf)
        } else {
            let i = bucket_of(self.self_id, descriptor.id);
            let (bucket, outcome) = self.buckets[i].hear(descriptor, now);
            (self.with_bucket(i, bucket), outcome)
        }
    }

    /// The table after a probe of `id` failed, and what became of the peer.
    pub open spec fn probe_failed(self, id: NodeId, now: u64) -> (TableView, PingFailedOutcome) {
        if id == self.self_id {
            (self, PingFailedOutcome::Unknown)
        } else {
            let i = bucket_of(self.self_id, id);
            let (bucket, outcome) = self.buckets[i].probe_failed(id, now);
            (self.with_bucket(i, bucket), outcome)
        }
    }

    /// The table after a probe of `id` came back in `rtt_ms`.
    pub open spec fn probe_succeeded(self, id: NodeId, rtt_ms: u32, now: u64) -> TableView {
        let i = bucket_of(self.self_id, id);
        if id == self.self_id || !holds_id(self.buckets[i].entries, id) {
            self
        } else {
            self.with_bucket(i, self.buckets[i].probe_succeeded(id, rtt_ms, now))
        }
    }
}

/// The active peers of some buckets, bucket by bucket.
pub open spec fn active_in(buckets: Seq<BucketView>) -> Seq<RoutingEntry>
    decreases buckets.len(),
{
    if buckets.len() == 0 {
        Seq::empty()
    } else {
        active_in(buckets.drop_last()) + buckets.last().entries
    }
}

impl RoutingTable {
    /// A table that knows nobody.
    pub fn empty(self_id: NodeId, now: u64) -> (r: RoutingTable)
        ensures
            r@.wf(),
            r@.self_id == self_id,
            forall|i: int| 0 <= i < BUCKETS ==> (#[trigger] r@.buckets[i]) == (BucketView {
                entries: Seq::empty(),
                refresh_at: now,
                candidates: Seq::empty(),
            }),
            r@.active().len() == 0,
    {
        let mut buckets: Vec<Bucket> = Vec::with_capacity(BUCKETS);
        let mut i: usize = 0;
        while i < BUCKETS
            invariant
                0 <= i <= BUCKETS,
                buckets.len() == i,
                forall|j: int| 0 <= j < i ==> (#[trigger] buckets@[j])@ == (BucketView {
                    entries: Seq::empty(),
                    refresh_at: now,
                    candidates: Seq::empty(),
                }),
            decreases BUCKETS - i,
        {
            let b = Bucket::empty(now);
            assert(b@ =~= (BucketView {
                entries: Seq::empty(),
                refresh_at: now,
                candidates: Seq::empty(),
            }));
            buckets.push(b);
            i = i + 1;
        }
        let r = RoutingTable { self_id, buckets };
        proof {
            lemma_no_active(r@.buckets);
        }
        r
    }

    /// The bucket index of `target`; `None` for this relay itself.
    pub fn bucket_index(&self, target: &NodeId) -> (r: Option<usize>)
        ensures
            match r {
                Some(i) => in_bucket(self.self_id, *target, i as int) && bucket_of(self.self_id, *target) == i,
                None => self.self_id == *target,
            },
            r is None <==> self.self_id == *target,
    {
        bucket_for(&self.self_id, target)
    }

    /// Hears of a peer. The table is up to date when this returns; what is
    /// left to do on the network is in the outcome.
    pub fn insert(&mut self, descriptor: NodeDescriptor, now: u64) -> (r: InsertOutcome)
        requires
            old(self)@.wf(),
        ensures
            final(self)@.wf(),
            final(self)@ == old(self)@.heard(descriptor, now).0,
            r == old(self)@.heard(descriptor, now).1,
    {
        let ghost before = self@;
        let bucket_idx: usize = match bucket_for(&self.self_id, &descriptor.id) {
            Some(i) => i,
            None => {
                return InsertOutcome::IsSelf;
            },
        };
        let ghost b0 = before.buckets[bucket_idx as int];
        assert(b0 == self.buckets@[bucket_idx as int]@);
        assert(b0.wf(before.self_id, bucket_idx as int));
        proof {
            law_hear_keeps_bucket(b0, before.self_id, bucket_idx as int, descriptor, now);
        }
        let bucket: &mut Bucket = &mut self.buckets[bucket_idx];
        bucket.refresh_at = now;
        let known: Option<usize> = position_of(&bucket.entries, &descriptor.id);
        let outcome: InsertOutcome = match known {
            Some(pos) => {
                let mut entry: RoutingEntry = bucket.entries.remove(pos);
                entry.last_seen = now;
                entry.addr = descriptor.addr;
                bucket.entries.push(entry);
                InsertOutcome::Refreshed
            },
            None => {
                if bucket.entries.len() < BUCKET_SIZE {
                    bucket.entries.push(RoutingEntry::from_descriptor(&descriptor, now));
                    InsertOutcome::Inserted
                } else if bucket.candidates.len() < BUCKET_SIZE {
                    match position_of(&bucket.candidates, &descriptor.id) {
                        Some(_) => InsertOutcome::Discarded,
                        None => {
                            let lru: NodeDescriptor = bucket.entries[0].descriptor();
                            bucket.candidates.push(RoutingEntry::from_descriptor(&descriptor, now));
                            InsertOutcome::PendingPing(lru)
                        },
                    }
                } else {
                    InsertOutcome::Discarded
                }
            },
        };
        assert(self.buckets@[bucket_idx as int]@ =~= b0.hear(descriptor, now).0);
        assert(self@ =~= before.with_bucket(bucket_idx as int, b0.hear(descriptor, now).0));
        outcome
    }

    /// A probe of `peer_id` failed.
    pub fn ping_failed(&mut self, peer_id: &NodeId, now: u64) -> (r: PingFailedOutcome)
        requires
            old(self)@.wf(),
        ensures
            final(self)@.wf(),
            final(self)@ == old(self)@.probe_failed(*peer_id, now).0,
            r == old(self)@.probe_failed(*peer_id, now).1,
    {
        let ghost before = self@;
        let bucket_idx: usize = match bucket_for(&self.self_id, peer_id) {
            Some(i) => i,
            None => {
                return PingFailedOutcome::Unknown;
            },
        };
        let ghost b0 = before.buckets[bucket_idx as int];
        assert(b0 == self.buckets@[bucket_idx as int]@);
        assert(b0.wf(before.self_id, bucket_idx as int));
        proof {
            law_probe_failed_keeps_bucket(b0, before.self_id, bucket_idx as int, *peer_id, now);
        }
        let bucket: &mut Bucket = &mut self.buckets[bucket_idx];
        let outcome: PingFailedOutcome = match position_of(&bucket.entries, peer_id) {
            None => PingFailedOutcome::Unknown,
            Some(pos) => {
                let mut entry: RoutingEntry = bucket.entries[pos];
                entry.failed_pings = entry.failed_pings.saturating_add(1);
                if entry.failed_pings < PING_FAILURES_BEFORE_EVICTION {
                    bucket.entries[pos] = entry;
                    PingFailedOutcome::Continued
                } else {
                    bucket.entries.remove(pos);
                    if bucket.candidates.len() > 0 {
                        let mut promoted: RoutingEntry = bucket.candidates.remove(0);
                        promoted.last_seen = now;
                        promoted.failed_pings = 0;
                        bucket.entries.push(promoted);
                        PingFailedOutcome::EvictedAndPromoted
                    } else {
                        PingFailedOutcome::Evicted
                    }
                }
            },
        };
        assert(self.buckets@[bucket_idx as int]@ =~= b0.probe_failed(*peer_id, now).0);
        assert(self@ =~= before.with_bucket(bucket_idx as int, b0.probe_failed(*peer_id, now).0));
        outcome
    }

    /// A probe of `peer_id` came back in `rtt_ms`. Tells whether the peer is
    /// in the table.
    pub fn ping_succeeded(&mut self, peer_id: &NodeId, rtt_ms: u32, now: u64) -> (r: bool)
        requires
            old(self)@.wf(),
        ensures
            final(self)@.wf(),
            r == (*peer_id != old(self)@.self_id && holds_id(
                old(self)@.buckets[bucket_of(old(self)@.self_id, *peer_id)].entries,
                *peer_id,
            )),
            final(self)@ == old(self)@.probe_succeeded(*peer_id, rtt_ms, now),
    {
        let ghost before = self@;
        let bucket_idx: usize = match bucket_for(&self.self_id, peer_id) {
            Some(i) => i,
            None => {
                return false;
            },
        };
        let ghost b0 = before.buckets[bucket_idx as int];
        assert(b0 == self.buckets@[bucket_idx as int]@);
        assert(b0.wf(before.self_id, bucket_idx as int));
        let pos: usize = match position_of(&self.buckets[bucket_idx].entries, peer_id) {
            Some(p) => p,
            None => {
                return false;
            },
        };
        proof {
            law_probe_succeeded_keeps_bucket(b0, before.self_id, bucket_idx as int, *peer_id, rtt_ms, now);
        }
        let bucket: &mut Bucket = &mut self.buckets[bucket_idx];
        let mut entry: RoutingEntry = bucket.entries.remove(pos);
        entry.failed_pings = 0;
        entry.last_seen = now;
        entry.rtt_ema_ms = Some(match entry.rtt_ema_ms {
            None => rtt_ms,
            Some(prev) => ((prev as u64 * (RTT_EMA_DENOM - 1) + rtt_ms as u64) / RTT_EMA_DENOM) as u32,
        });
        bucket.entries.push(entry);
        bucket.refresh_at = now;
        assert(self.buckets@[bucket_idx as int]@ =~= b0.probe_succeeded(*peer_id, rtt_ms, now));
        assert(self@ =~= before.with_bucket(bucket_idx as int, b0.probe_succeeded(*peer_id, rtt_ms, now)));
        true
    }
}

proof fn lemma_no_active(buckets: Seq<BucketView>)
    requires
        forall|i: int| 0 <= i < buckets.len() ==> (#[trigger] buckets[i]).entries.len() == 0,
    ensures
        active_in(buckets).len() == 0,
    decreases buckets.len(),
{
    if buckets.len() > 0 {
        lemma_no_active(buckets.drop_last());
    }
}

// ---------------------------------------------------------------------------
// Nearest peers
// ---------------------------------------------------------------------------

/// `r` holds the `count` entries of `all` that are closest to `target`, the
/// closest first: its entries come from `all`, their distances rise, and an
/// entry is left out only when `count` closer ones were taken.
pub open spec fn is_nearest(all: Seq<RoutingEntry>, target: NodeId, count: nat, r: Seq<RoutingEntry>) -> bool {
    &&& r.len() <= count
    &&& r.len() <= all.len()
    &&& forall|i: int| 0 <= i < r.len() ==> all.contains(#[trigger] r[i])
    &&& forall|i: int, j: int|
        0 <= i < j < r.len() ==> distance(#[trigger] r[i].id, target) < distance(#[trigger] r[j].id, target)
    &&& forall|k: int|
        0 <= k < all.len() ==> r.contains(#[trigger] all[k]) || (r.len() == count && forall|i: int|
            0 <= i < r.len() ==> distance(#[trigger] r[i].id, target) < distance(all[k].id, target))
}

/// The distances of `all` from `target` differ from that of `e`.
proof fn lemma_distances_differ(all: Seq<RoutingEntry>, e: RoutingEntry, target: NodeId)
    requires
        !holds_id(all, e.id),
    ensures
        forall|k: int| 0 <= k < all.len() ==> distance(#[trigger] all[k].id, target) != distance(e.id, target),
{
    assert forall|k: int| 0 <= k < all.len() implies distance(#[trigger] all[k].id, target) != distance(
        e.id,
        target,
    ) by {
        if distance(all[k].id, target) == distance(e.id, target) {
            law_distance_tells_apart(all[k].id, e.id, target);
        }
    }
}

/// Considers one more entry for the `count` closest ones.
fn consider(found: &mut Vec<RoutingEntry>, e: RoutingEntry, target: &NodeId, count: usize)
    requires
        old(found).len() <= count,
        count < usize::MAX,
    ensures
        forall|all: Seq<RoutingEntry>|
            #[trigger] is_nearest(all, *target, count as nat, old(found)@) && !holds_id(all, e.id) ==> is_nearest(
                all.push(e),
                *target,
                count as nat,
                final(found)@,
            ),
        final(found).len() <= count,
{
    let ghost before = found@;
    let d: [u8; 32] = xor32(e.id.as_bytes(), target.as_bytes());
    let mut p: usize = 0;
    let mut searching: bool = true;
    while p < found.len() && searching
        invariant
            0 <= p <= found.len(),
            found@ == before,
            d@ == xor_seq(e.id@, target@),
            forall|i: int| 0 <= i < p ==> distance(#[trigger] before[i].id, *target) < distance(e.id, *target),
            !searching ==> p < found.len() && distance(before[p as int].id, *target) >= distance(e.id, *target),
        decreases found.len() - p + (if searching { 1int } else { 0int }),
    {
        let dp: [u8; 32] = xor32(found[p].id.as_bytes(), target.as_bytes());
        if less32(&dp, &d) {
            p = p + 1;
        } else {
            searching = false;
        }
    }
    found.insert(p, e);
    let ghost wide = found@;
    if found.len() > count {
        found.pop();
    }
    proof {
        let t = *target;
        let n = count as nat;
        let after = found@;
        assert forall|all: Seq<RoutingEntry>|
            #[trigger] is_nearest(all, t, n, before) && !holds_id(all, e.id) implies is_nearest(
            all.push(e),
            t,
            n,
            after,
        ) by {
            lemma_consider(all, before, e, t, n, p as int);
            assert(after =~= (if wide.len() > n { wide.drop_last() } else { wide }));
        }
    }
}

#[verifier::spinoff_prover]
#[verifier::rlimit(60)]
proof fn lemma_consider(all: Seq<RoutingEntry>, before: Seq<RoutingEntry>, e: RoutingEntry, t: NodeId, n: nat, p: int)
    requires
        is_nearest(all, t, n, before),
        !holds_id(all, e.id),
        0 <= p <= before.len(),
        forall|i: int| 0 <= i < p ==> distance(#[trigger] before[i].id, t) < distance(e.id, t),
        p < before.len() ==> distance(before[p].id, t) >= distance(e.id, t),
    ensures
        ({
            let wide = before.insert(p, e);
            is_nearest(all.push(e), t, n, if wide.len() > n { wide.drop_last() } else { wide })
        }),
{
    let wide = before.insert(p, e);
    let r = if wide.len() > n { wide.drop_last() } else { wide };
    let more = all.push(e);
    assert(more[all.len() as int] == e);
    lemma_distances_differ(all, e, t);
    assert forall|i: int| 0 <= i < before.len() implies distance(#[trigger] before[i].id, t) != distance(e.id, t) by {
        assert(all.contains(before[i]));
        let k = choose|k: int| 0 <= k < all.len() && all[k] == before[i];
        assert(distance(all[k].id, t) != distance(e.id, t));
    }
    assert forall|i: int| p <= i < before.len() implies distance(#[trigger] before[i].id, t) > distance(e.id, t) by {
        if i > p {
            assert(distance(before[p].id, t) < distance(before[i].id, t));
        }
    }
    assert forall|i: int| 0 <= i < wide.len() implies more.contains(#[trigger] wide[i]) by {
        if i == p {
        } else {
            let k0 = if i < p { i } else { i - 1 };
            assert(wide[i] == before[k0]);
            assert(all.contains(before[k0]));
            let k = choose|k: int| 0 <= k < all.len() && all[k] == before[k0];
            assert(more[k] == wide[i]);
        }
    }
    assert forall|i: int, j: int| 0 <= i < j < wide.len() implies distance(#[trigger] wide[i].id, t) < distance(
        #[trigger] wide[j].id,
        t,
    ) by {
        let ki = if i < p { i } else { i - 1 };
        let kj = if j < p { j } else { j - 1 };
        if i != p && j != p {
            assert(wide[i] == before[ki] && wide[j] == before[kj]);
            assert(distance(before[ki].id, t) < distance(before[kj].id, t));
        } else if i == p {
            assert(wide[j] == before[kj]);
        } else {
            assert(wide[i] == before[ki]);
        }
    }
    assert forall|k: int| 0 <= k < more.len() implies r.contains(#[trigger] more[k]) || (r.len() == n && forall|
        i: int,
    |
        0 <= i < r.len() ==> distance(#[trigger] r[i].id, t) < distance(more[k].id, t)) by {
        let x = more[k];
        if k == all.len() {
            if wide.len() > n && p == before.len() {
                assert(wide[p] == e);
                assert forall|i: int| 0 <= i < r.len() implies distance(#[trigger] r[i].id, t) < distance(x.id, t) by {
                    assert(r[i] == wide[i]);
                    assert(distance(wide[i].id, t) < distance(wide[p].id, t));
                }
            } else {
                assert(r[p] == e);
            }
        } else {
            assert(x == all[k]);
            if before.contains(x) {
                let i0 = choose|i: int| 0 <= i < before.len() && before[i] == x;
                let w = if i0 < p { i0 } else { i0 + 1 };
                assert(wide[w] == x);
                if w < r.len() {
                    assert(r[w] == x);
                } else {
                    assert forall|i: int| 0 <= i < r.len() implies distance(#[trigger] r[i].id, t) < distance(
                        x.id,
                        t,
                    ) by {
                        assert(r[i] == wide[i]);
                        assert(distance(wide[i].id, t) < distance(wide[w].id, t));
                    }
                }
            } else {
                assert(before.len() == n);
                assert forall|i: int| 0 <= i < r.len() implies distance(#[trigger] r[i].id, t) < distance(x.id, t) by {
                    assert(r[i] == wide[i]);
                    if i == p {
                        assert(p < before.len());
                        assert(distance(before[p].id, t) < distance(x.id, t));
                    } else {
                        let k0 = if i < p { i } else { i - 1 };
                        assert(wide[i] == before[k0]);
                        assert(distance(before[k0].id, t) < distance(x.id, t));
                    }
                }
            }
        }
    }
    assert forall|i: int| 0 <= i < r.len() implies more.contains(#[trigger] r[i]) by {
        assert(r[i] == wide[i]);
    }
    assert forall|i: int, j: int| 0 <= i < j < r.len() implies distance(#[trigger] r[i].id, t) < distance(
        #[trigger] r[j].id,
        t,
    ) by {
        assert(r[i] == wide[i] && r[j] == wide[j]);
    }
}

/// What the first `n` buckets of a table hold: each active peer belongs to one
/// of them, no id occurs twice, and there are no more than fit.
proof fn lemma_active_below(t: TableView, n: int)
    requires
        t.wf(),
        0 <= n <= BUCKETS,
    ensures
        ids_distinct(active_in(t.buckets.take(n))),
        active_in(t.buckets.take(n)).len() <= BUCKET_SIZE * n,
        forall|k: int|
            0 <= k < active_in(t.buckets.take(n)).len() ==> exists|i: int|
                0 <= i < n && in_bucket(t.self_id, (#[trigger] active_in(t.buckets.take(n))[k]).id, i)
                    && holds_id(t.buckets[i].entries, active_in(t.buckets.take(n))[k].id),
        forall|i: int, id: NodeId|
            0 <= i < n && #[trigger] holds_id(t.buckets[i].entries, id) ==> holds_id(
                active_in(t.buckets.take(n)),
                id,
            ),
    decreases n,
{
    if n > 0 {
        lemma_active_below(t, n - 1);
        assert(t.buckets.take(n).drop_last() =~= t.buckets.take(n - 1));
        let head = active_in(t.buckets.take(n - 1));
        let last = t.buckets[n - 1].entries;
        let all = active_in(t.buckets.take(n));
        assert(all == head + last);
        assert(t.buckets[n - 1].wf(t.self_id, n - 1));
        assert forall|i: int, j: int| 0 <= i < j < all.len() implies #[trigger] all[i].id != #[trigger] all[j].id by {
            if j < head.len() {
                assert(head[i].id != head[j].id);
            } else if i >= head.len() {
                assert(last[i - head.len()].id != last[j - head.len()].id);
            } else {
                let bi = choose|b: int|
                    0 <= b < n - 1 && in_bucket(t.self_id, head[i].id, b) && holds_id(
                        t.buckets[b].entries,
                        head[i].id,
                    );
                assert(in_bucket(t.self_id, head[i].id, bi));
                assert(in_bucket(t.self_id, last[j - head.len()].id, n - 1));
                if all[i].id == all[j].id {
                    law_bucket_unique(t.self_id, all[i].id, bi, n - 1);
                }
            }
        }
        assert forall|k: int| 0 <= k < all.len() implies exists|i: int|
            0 <= i < n && in_bucket(t.self_id, (#[trigger] all[k]).id, i) && holds_id(
                t.buckets[i].entries,
                all[k].id,
            ) by {
            if k < head.len() {
                let b = choose|b: int|
                    0 <= b < n - 1 && in_bucket(t.self_id, head[k].id, b) && holds_id(
                        t.buckets[b].entries,
                        head[k].id,
                    );
                assert(0 <= b < n && in_bucket(t.self_id, all[k].id, b) && holds_id(
                    t.buckets[b].entries,
                    all[k].id,
                ));
            } else {
                assert(last[k - head.len()] == all[k]);
                assert(0 <= n - 1 < n && in_bucket(t.self_id, all[k].id, n - 1) && holds_id(
                    t.buckets[n - 1].entries,
                    all[k].id,
                ));
            }
        }
        assert forall|i: int, id: NodeId|
            0 <= i < n && #[trigger] holds_id(t.buckets[i].entries, id) implies holds_id(all, id) by {
            if i < n - 1 {
                assert(holds_id(head, id));
                let k = place_of(head, id);
                assert(all[k].id == id);
            } else {
                let k = place_of(last, id);
                assert(all[head.len() + k].id == id);
            }
        }
    }
}

/// The active peers of a table: their ids differ from each other and from the
/// relay's own, and a peer is among them exactly when its bucket holds it.
pub proof fn law_active_peers(t: TableView)
    requires
        t.wf(),
    ensures
        ids_distinct(t.active()),
        t.active().len() <= BUCKETS * BUCKET_SIZE,
        !t.knows(t.self_id),
        forall|id: NodeId|
            id != t.self_id ==> (#[trigger] t.knows(id) <==> holds_id(
                t.buckets[bucket_of(t.self_id, id)].entries,
                id,
            )),
{
    lemma_active_below(t, BUCKETS as int);
    assert(t.buckets.take(BUCKETS as int) =~= t.buckets);
    let all = t.active();
    assert forall|id: NodeId| #[trigger] t.knows(id) implies id != t.self_id && holds_id(
        t.buckets[bucket_of(t.self_id, id)].entries,
        id,
    ) by {
        let k = place_of(all, id);
        let i = choose|i: int|
            0 <= i < BUCKETS && in_bucket(t.self_id, all[k].id, i) && holds_id(t.buckets[i].entries, all[k].id);
        law_bucket_exists(t.self_id, id);
        law_bucket_unique(t.self_id, id, i, bucket_of(t.self_id, id));
    }
    assert forall|id: NodeId|
        id != t.self_id && holds_id(t.buckets[bucket_of(t.self_id, id)].entries, id) implies #[trigger] t.knows(
        id,
    ) by {
        law_bucket_exists(t.self_id, id);
    }
}

impl RoutingTable {
    /// The `count` active peers closest to `target`, the closest first.
    pub fn closest(&self, target: &NodeId, count: usize) -> (r: Vec<RoutingEntry>)
        requires
            self@.wf(),
        ensures
            is_nearest(self@.active(), *target, count as nat, r@),
    {
        let want: usize = if count <= BUCKETS * BUCKET_SIZE { count } else { BUCKETS * BUCKET_SIZE + 1 };
        let mut found: Vec<RoutingEntry> = Vec::new();
        let ghost t = self@;
        let mut i: usize = 0;
        assert(active_in(t.buckets.take(0)) =~= Seq::empty());
        while i < self.buckets.len()
            invariant
                0 <= i <= self.buckets.len(),
                self@.wf(),
                t == self@,
                want <= BUCKETS * BUCKET_SIZE + 1,
                found.len() <= want,
                is_nearest(active_in(t.buckets.take(i as int)), *target, want as nat, found@),
            decreases self.buckets.len() - i,
        {
            let ghost head = active_in(t.buckets.take(i as int));
            let ghost here = t.buckets[i as int].entries;
            proof {
                lemma_active_below(t, i + 1);
                assert(t.buckets.take(i + 1).drop_last() =~= t.buckets.take(i as int));
                assert(here.take(0) =~= Seq::empty());
                assert(head + here.take(0) =~= head);
            }
            let mut j: usize = 0;
            while j < self.buckets[i as usize].entries.len()
                invariant
                    0 <= i < self.buckets.len(),
                    self@.wf(),
                    t == self@,
                    here == t.buckets[i as int].entries,
                    here == self.buckets@[i as int].entries@,
                    0 <= j <= here.len(),
                    want <= BUCKETS * BUCKET_SIZE + 1,
                    found.len() <= want,
                    ids_distinct(head + here),
                    is_nearest(head + here.take(j as int), *target, want as nat, found@),
                decreases self.buckets@[i as int].entries@.len() - j,
            {
                let e: RoutingEntry = self.buckets[i].entries[j];
                let ghost seen = head + here.take(j as int);
                proof {
                    let all = head + here;
                    assert(all[head.len() + j] == e);
                    assert forall|k: int| 0 <= k < seen.len() implies #[trigger] seen[k].id != e.id by {
                        assert(seen[k] == all[k]);
                    }
                }
                consider(&mut found, e, target, want);
                assert(seen.push(e) =~= head + here.take(j + 1));
                j = j + 1;
            }
            assert(here.take(j as int) =~= here);
            i = i + 1;
        }
        proof {
            assert(t.buckets.take(i as int) =~= t.buckets);
            law_active_peers(t);
        }
        found
    }

    /// The `count` active peers closest to `target`, the closest first, as
    /// they travel in answers.
    pub fn find_closest(&self, target: &NodeId, count: usize) -> (r: Vec<NodeDescriptor>)
        requires
            self@.wf(),
        ensures
            nearest_descriptors(self@, *target, count as nat, r@),
    {
        let found: Vec<RoutingEntry> = self.closest(target, count);
        let mut out: Vec<NodeDescriptor> = Vec::new();
        let mut i: usize = 0;
        while i < found.len()
            invariant
                0 <= i <= found.len(),
                out.len() == i,
                forall|j: int| 0 <= j < i ==> #[trigger] out@[j] == found@[j].as_descriptor(),
            decreases found.len() - i,
        {
            out.push(found[i].descriptor());
            i = i + 1;
        }
        assert(out@ =~= descriptors(found@));
        out
    }

    /// The active peers, bucket by bucket.
    pub fn active_peers(&self) -> (r: Vec<NodeDescriptor>)
        requires
            self@.wf(),
        ensures
            r@ == descriptors(self@.active()),
    {
        let ghost t = self@;
        let mut out: Vec<NodeDescriptor> = Vec::new();
        let mut i: usize = 0;
        assert(out@ =~= descriptors(active_in(t.buckets.take(0))));
        while i < self.buckets.len()
            invariant
                0 <= i <= self.buckets.len(),
                t == self@,
                out@ == descriptors(active_in(t.buckets.take(i as int))),
            decreases self.buckets.len() - i,
        {
            let entries: &Vec<RoutingEntry> = &self.buckets[i].entries;
            let ghost base = active_in(t.buckets.take(i as int));
            proof {
                assert(t.buckets.take(i + 1).drop_last() =~= t.buckets.take(i as int));
                assert(t.buckets[i as int].entries == entries@);
                assert(base + entries@.take(0) =~= base);
            }
            let mut j: usize = 0;
            while j < entries.len()
                invariant
                    0 <= j <= entries.len(),
                    out@ == descriptors(base + entries@.take(j as int)),
                decreases entries.len() - j,
            {
                out.push(entries[j].descriptor());
                j = j + 1;
                assert(out@ =~= descriptors(base + entries@.take(j as int)));
            }
            assert(entries@.take(j as int) =~= entries@);
            i = i + 1;
        }
        assert(t.buckets.take(i as int) =~= t.buckets);
        out
    }

    /// The number of active peers.
    pub fn total_known(&self) -> (r: usize)
        requires
            self@.wf(),
        ensures
            r == self@.active().len(),
    {
        let ghost t = self@;
        let mut n: usize = 0;
        let mut i: usize = 0;
        assert(active_in(t.buckets.take(0)) =~= Seq::empty());
        while i < self.buckets.len()
            invariant
                0 <= i <= self.buckets.len(),
                self@.wf(),
                t == self@,
                n == active_in(t.buckets.take(i as int)).len(),
            decreases self.buckets.len() - i,
        {
            proof {
                lemma_active_below(t, i + 1);
                assert(t.buckets.take(i + 1).drop_last() =~= t.buckets.take(i as int));
                assert(t.buckets[i as int].entries == self.buckets@[i as int].entries@);
            }
            n = n + self.buckets[i].entries.len();
            i = i + 1;
        }
        assert(t.buckets.take(i as int) =~= t.buckets);
        n
    }

    /// The buckets that were not touched for [`BUCKET_REFRESH_MS`], in
    /// ascending order.
    pub fn buckets_needing_refresh(&self, now: u64) -> (r: Vec<usize>)
        requires
            self@.wf(),
        ensures
            forall|i: int, j: int| 0 <= i < j < r.len() ==> r@[i] < r@[j],
            forall|b: int|
                0 <= b < BUCKETS ==> ((exists|i: int| 0 <= i < r.len() && r@[i] == b)
                    <==> (#[trigger] self@.buckets[b]).refresh_at + BUCKET_REFRESH_MS <= now),
            forall|i: int| 0 <= i < r.len() ==> #[trigger] r@[i] < BUCKETS,
    {
        let mut out: Vec<usize> = Vec::new();
        let mut idx: usize = 0;
        while idx < self.buckets.len()
            invariant
                0 <= idx <= self.buckets.len(),
                self@.wf(),
                forall|i: int, j: int| 0 <= i < j < out.len() ==> out@[i] < out@[j],
                forall|i: int| 0 <= i < out.len() ==> #[trigger] out@[i] < idx,
                forall|b: int|
                    0 <= b < idx ==> ((exists|i: int| 0 <= i < out.len() && out@[i] == b)
                        <==> (#[trigger] self@.buckets[b]).refresh_at + BUCKET_REFRESH_MS <= now),
            decreases self.buckets.len() - idx,
        {
            let at: u64 = self.buckets[idx].refresh_at;
            let ghost before = out@;
            assert(self@.buckets[idx as int].refresh_at == at);
            if at <= now && now - at >= BUCKET_REFRESH_MS {
                out.push(idx);
                assert(out@[before.len() as int] == idx);
                assert forall|b: int| 0 <= b < idx + 1 implies ((exists|i: int| 0 <= i < out.len() && out@[i] == b)
                    <==> (#[trigger] self@.buckets[b]).refresh_at + BUCKET_REFRESH_MS <= now) by {
                    if b < idx {
                        if exists|i: int| 0 <= i < before.len() && before[i] == b {
                            let i = choose|i: int| 0 <= i < before.len() && before[i] == b;
                            assert(out@[i] == b);
                        }
                        if exists|i: int| 0 <= i < out.len() && out@[i] == b {
                            let i = choose|i: int| 0 <= i < out.len() && out@[i] == b;
                            assert(before[i] == b);
                        }
                    }
                }
            }
            idx = idx + 1;
        }
        out
    }

    /// Notes that a refresh walk of bucket `bucket_idx` is done. An index out
    /// of range changes nothing.
    pub fn mark_refreshed(&mut self, bucket_idx: usize, now: u64)
        requires
            old(self)@.wf(),
        ensures
            final(self)@.wf(),
            bucket_idx < BUCKETS ==> final(self)@ == old(self)@.with_bucket(
                bucket_idx as int,
                (BucketView { refresh_at: now, ..old(self)@.buckets[bucket_idx as int] }),
            ),
            bucket_idx >= BUCKETS ==> final(self)@ == old(self)@,
    {
        let ghost before = self@;
        if bucket_idx < self.buckets.len() {
            assert(before.buckets[bucket_idx as int].wf(before.self_id, bucket_idx as int));
            self.buckets[bucket_idx].refresh_at = now;
            assert(self@ =~= before.with_bucket(
                bucket_idx as int,
                BucketView { refresh_at: now, ..before.buckets[bucket_idx as int] },
            ));
        }
    }
}

/// The entries as they travel in answers.
pub open spec fn descriptors(s: Seq<RoutingEntry>) -> Seq<NodeDescriptor> {
    Seq::new(s.len(), |i: int| s[i].as_descriptor())
}

/// `r` holds the `count` active peers of `t` that are closest to `target`, the
/// closest first.
pub open spec fn nearest_descriptors(t: TableView, target: NodeId, count: nat, r: Seq<NodeDescriptor>) -> bool {
    exists|s: Seq<RoutingEntry>| #[trigger] is_nearest(t.active(), target, count, s) && r == descriptors(s)
}

/// The nearest entries are determined: there is one sequence of them only.
pub proof fn law_nearest_unique(
    all: Seq<RoutingEntry>,
    target: NodeId,
    count: nat,
    r1: Seq<RoutingEntry>,
    r2: Seq<RoutingEntry>,
)
    requires
        ids_distinct(all),
        is_nearest(all, target, count, r1),
        is_nearest(all, target, count, r2),
    ensures
        r1 == r2,
{
    lemma_nearest_prefix(all, target, count, r1, r2, if r1.len() < r2.len() { r1.len() as int } else { r2.len() as int });
    if r1.len() < r2.len() {
        lemma_nearest_not_longer(all, target, count, r1, r2);
    }
    if r2.len() < r1.len() {
        lemma_nearest_not_longer(all, target, count, r2, r1);
    }
    assert(r1 =~= r2);
}

proof fn lemma_nearest_not_longer(
    all: Seq<RoutingEntry>,
    target: NodeId,
    count: nat,
    r1: Seq<RoutingEntry>,
    r2: Seq<RoutingEntry>,
)
    requires
        is_nearest(all, target, count, r1),
        is_nearest(all, target, count, r2),
        forall|i: int| 0 <= i < r1.len() && i < r2.len() ==> #[trigger] r1[i] == r2[i],
    ensures
        r2.len() <= r1.len(),
{
    if r1.len() < r2.len() {
        let y = r2[r1.len() as int];
        let k = choose|k: int| 0 <= k < all.len() && all[k] == y;
        assert(all[k] == y);
        if r1.contains(y) {
            let j = choose|j: int| 0 <= j < r1.len() && r1[j] == y;
            assert(r1[j] == r2[j]);
            assert(distance(r2[j].id, target) < distance(r2[r1.len() as int].id, target));
        }
    }
}

proof fn lemma_nearest_prefix(
    all: Seq<RoutingEntry>,
    target: NodeId,
    count: nat,
    r1: Seq<RoutingEntry>,
    r2: Seq<RoutingEntry>,
    n: int,
)
    requires
        ids_distinct(all),
        is_nearest(all, target, count, r1),
        is_nearest(all, target, count, r2),
        0 <= n <= r1.len(),
        n <= r2.len(),
    ensures
        forall|i: int| 0 <= i < n ==> #[trigger] r1[i] == r2[i],
    decreases n,
{
    if n > 0 {
        lemma_nearest_prefix(all, target, count, r1, r2, n - 1);
        lemma_nearest_not_closer(all, target, count, r1, r2, n - 1);
        lemma_nearest_not_closer(all, target, count, r2, r1, n - 1);
        let x = r1[n - 1];
        let y = r2[n - 1];
        law_distance_tells_apart(x.id, y.id, target);
        let kx = choose|k: int| 0 <= k < all.len() && all[k] == x;
        let ky = choose|k: int| 0 <= k < all.len() && all[k] == y;
        assert(all.contains(x) && all.contains(y));
        assert(all[kx].id == all[ky].id);
        assert(kx == ky);
    }
}

proof fn lemma_nearest_not_closer(
    all: Seq<RoutingEntry>,
    target: NodeId,
    count: nat,
    r1: Seq<RoutingEntry>,
    r2: Seq<RoutingEntry>,
    i: int,
)
    requires
        is_nearest(all, target, count, r1),
        is_nearest(all, target, count, r2),
        0 <= i < r1.len(),
        i < r2.len(),
        forall|j: int| 0 <= j < i ==> #[trigger] r1[j] == r2[j],
    ensures
        distance(r2[i].id, target) <= distance(r1[i].id, target),
{
    let x = r1[i];
    assert(all.contains(x));
    let k = choose|k: int| 0 <= k < all.len() && all[k] == x;
    assert(all[k] == x);
    if r2.contains(x) {
        let j = choose|j: int| 0 <= j < r2.len() && r2[j] == x;
        if j < i {
            assert(r1[j] == r2[j]);
            assert(distance(r1[j].id, target) < distance(r1[i].id, target));
        }
        if i < j {
            assert(distance(r2[i].id, target) < distance(r2[j].id, target));
        }
    } else {
        assert(distance(r2[i].id, target) < distance(all[k].id, target));
    }
}

// ---------------------------------------------------------------------------
// Ownership
// ---------------------------------------------------------------------------

/// The ids of the active peers.
pub open spec fn known_ids(t: TableView) -> Set<NodeId> {
    Set::new(|id: NodeId| t.knows(id))
}

/// The active peers at a distance below `d` from `target`.
pub open spec fn closer_than(t: TableView, target: NodeId, d: nat) -> Set<NodeId> {
    known_ids(t).filter(|id: NodeId| distance(id, target) < d)
}

/// `id` is one of the [`K`] closest to `target` as far as the table knows:
/// fewer than [`K`] active peers are closer.
pub open spec fn among_k_closest(t: TableView, id: NodeId, target: NodeId) -> bool {
    closer_than(t, target, distance(id, target)).len() < K
}

/// The ids of some entries, as a set.
proof fn lemma_ids_of(s: Seq<RoutingEntry>) -> (ids: Seq<NodeId>)
    ensures
        ids.len() == s.len(),
        forall|i: int| 0 <= i < s.len() ==> ids[i] == #[trigger] s[i].id,
        ids.to_set().finite(),
        forall|id: NodeId| #[trigger] ids.to_set().contains(id) <==> holds_id(s, id),
        ids.to_set().len() <= s.len(),
        ids_distinct(s) ==> ids.to_set().len() == s.len(),
{
    let ids = Seq::new(s.len(), |i: int| s[i].id);
    vstd::seq_lib::seq_to_set_is_finite(ids);
    ids.lemma_cardinality_of_set();
    assert forall|id: NodeId| #[trigger] ids.to_set().contains(id) implies holds_id(s, id) by {
        let i = choose|i: int| 0 <= i < ids.len() && ids[i] == id;
        assert(s[i].id == id);
    }
    assert forall|id: NodeId| holds_id(s, id) implies #[trigger] ids.to_set().contains(id) by {
        let i = place_of(s, id);
        assert(ids[i] == id);
    }
    if ids_distinct(s) {
        assert forall|i: int, j: int| 0 <= i < ids.len() && 0 <= j < ids.len() && i != j implies ids[i]
            != ids[j] by {
            if i < j {
                assert(s[i].id != s[j].id);
            } else {
                assert(s[j].id != s[i].id);
            }
        }
        assert(ids.no_duplicates());
        ids.unique_seq_to_set();
    }
    ids
}

/// The place of the [`K`]-th closest peer decides ownership: with fewer than
/// [`K`] peers everybody is among the closest, else those that are no farther
/// than the [`K`]-th.
pub proof fn law_kth_decides(t: TableView, target: NodeId, count: nat, s: Seq<RoutingEntry>, d: nat)
    requires
        t.wf(),
        count >= K,
        is_nearest(t.active(), target, count, s),
    ensures
        s.len() < K ==> closer_than(t, target, d).len() < K,
        s.len() >= K ==> (closer_than(t, target, d).len() < K <==> d <= distance(s[K - 1].id, target)),
{
    let all = t.active();
    law_active_peers(t);
    let ids = lemma_ids_of(all);
    assert(known_ids(t) =~= ids.to_set());
    let closer = closer_than(t, target, d);
    assert(closer.subset_of(ids.to_set()));
    vstd::set_lib::lemma_len_subset(closer, ids.to_set());
    if s.len() < K {
        let s_ids = lemma_ids_of(s);
        assert forall|id: NodeId| closer.contains(id) implies s_ids.to_set().contains(id) by {
            let k = place_of(all, id);
            assert(all[k].id == id);
            assert(s.contains(all[k]));
            let i = choose|i: int| 0 <= i < s.len() && s[i] == all[k];
            assert(s[i].id == id);
        }
        vstd::set_lib::lemma_len_subset(closer, s_ids.to_set());
    } else {
        assert(ids_distinct(s)) by {
            assert forall|i: int, j: int| 0 <= i < j < s.len() implies #[trigger] s[i].id != #[trigger] s[j].id by {
                assert(distance(s[i].id, target) < distance(s[j].id, target));
            }
        }
        let last = distance(s[K - 1].id, target);
        if d <= last {
            let head = s.take(K - 1);
            let h_ids = lemma_ids_of(head);
            assert forall|id: NodeId| closer.contains(id) implies h_ids.to_set().contains(id) by {
                let k = place_of(all, id);
                assert(all[k].id == id);
                if s.contains(all[k]) {
                    let i = choose|i: int| 0 <= i < s.len() && s[i] == all[k];
                    assert(s[i].id == id);
                    if i >= K - 1 {
                        if i > K - 1 {
                            assert(distance(s[K - 1].id, target) < distance(s[i].id, target));
                        }
                    }
                    assert(head[i].id == id);
                } else {
                    assert(distance(s[K - 1].id, target) < distance(all[k].id, target));
                }
            }
            vstd::set_lib::lemma_len_subset(closer, h_ids.to_set());
        } else {
            let head = s.take(K as int);
            let h_ids = lemma_ids_of(head);
            assert(ids_distinct(head)) by {
                assert forall|i: int, j: int| 0 <= i < j < head.len() implies #[trigger] head[i].id
                    != #[trigger] head[j].id by {
                    assert(s[i].id != s[j].id);
                }
            }
            assert forall|id: NodeId| h_ids.to_set().contains(id) implies closer.contains(id) by {
                let i = place_of(head, id);
                assert(s[i].id == id);
                assert(all.contains(s[i]));
                let k = choose|k: int| 0 <= k < all.len() && all[k] == s[i];
                assert(all[k].id == id);
                if i < K - 1 {
                    assert(distance(s[i].id, target) < distance(s[K - 1].id, target));
                }
            }
            vstd::set_lib::lemma_len_subset(h_ids.to_set(), closer);
        }
    }
}

/// Whether `node_id` is one of the [`K`] closest to `target` as far as the
/// table knows. A table with fewer than [`K`] peers says yes, so that a fresh
/// network can be seeded.
pub fn self_in_top_k(routing: &RoutingTable, node_id: &NodeId, target: &NodeId) -> (r: bool)
    requires
        routing@.wf(),
    ensures
        r == among_k_closest(routing@, *node_id, *target),
{
    let candidates: Vec<NodeDescriptor> = routing.find_closest(target, K + 1);
    let ghost s = choose|s: Seq<RoutingEntry>|
        #[trigger] is_nearest(routing@.active(), *target, (K + 1) as nat, s) && candidates@ == descriptors(s);
    proof {
        law_kth_decides(routing@, *target, (K + 1) as nat, s, distance(*node_id, *target));
    }
    if candidates.len() < K {
        return true;
    }
    let self_dist: [u8; 32] = xor32(node_id.as_bytes(), target.as_bytes());
    let kth_dist: [u8; 32] = xor32(candidates[K - 1].id.as_bytes(), target.as_bytes());
    !less32(&kth_dist, &self_dist)
}

/// A peer that the table takes is known from then on, and hearing of one peer
/// makes the table forget no other.
pub proof fn law_heard_is_known(t: TableView, desc: NodeDescriptor, now: u64)
    requires
        t.wf(),
    ensures
        ({
            let (after, outcome) = t.heard(desc, now);
            &&& after.wf()
            &&& outcome is Inserted || outcome is Refreshed ==> after.knows(desc.id)
            &&& forall|id: NodeId| t.knows(id) ==> #[trigger] after.knows(id)
        }),
{
    let (after, outcome) = t.heard(desc, now);
    law_active_peers(t);
    if desc.id != t.self_id {
        let i = bucket_of(t.self_id, desc.id);
        let b = t.buckets[i];
        law_bucket_exists(t.self_id, desc.id);
        law_hear_keeps_bucket(b, t.self_id, i, desc, now);
        let heard = b.hear(desc, now).0;
        assert(after.wf());
        law_active_peers(after);
        if outcome is Inserted || outcome is Refreshed {
            assert(heard.entries.last().id == desc.id);
            assert(holds_id(heard.entries, desc.id));
        }
        assert forall|id: NodeId| t.knows(id) implies #[trigger] after.knows(id) by {
            let j = bucket_of(t.self_id, id);
            law_bucket_exists(t.self_id, id);
            if j == i {
                lemma_hear_forgets_nobody(b, desc, now, id);
            }
        }
    }
}

/// Who was active in a bucket is active after it heard of a peer.
proof fn lemma_hear_forgets_nobody(b: BucketView, desc: NodeDescriptor, now: u64, id: NodeId)
    requires
        holds_id(b.entries, id),
    ensures
        holds_id(b.hear(desc, now).0.entries, id),
{
    let heard = b.hear(desc, now).0.entries;
    let k = place_of(b.entries, id);
    if holds_id(b.entries, desc.id) {
        let p = place_of(b.entries, desc.id);
        if k < p {
            assert(heard[k].id == id);
        } else if k > p {
            assert(heard[k - 1].id == id);
        } else {
            assert(heard.last().id == id);
        }
    } else if b.entries.len() < BUCKET_SIZE {
        assert(heard[k].id == id);
    }
}

/// A peer without failed probes survives two failures in a row and is gone
/// after the third; the one that waited longest then has its slot.
pub proof fn law_three_failures_evict(b: BucketView, self_id: NodeId, i: int, id: NodeId, t1: u64, t2: u64, t3: u64)
    requires
        b.wf(self_id, i),
        holds_id(b.entries, id),
        b.entries[place_of(b.entries, id)].failed_pings == 0,
    ensures
        ({
            let (b1, o1) = b.probe_failed(id, t1);
            let (b2, o2) = b1.probe_failed(id, t2);
            let (b3, o3) = b2.probe_failed(id, t3);
            &&& o1 == PingFailedOutcome::Continued
            &&& o2 == PingFailedOutcome::Continued
            &&& o3 == (if b.candidates.len() == 0 {
                PingFailedOutcome::Evicted
            } else {
                PingFailedOutcome::EvictedAndPromoted
            })
            &&& !holds_id(b3.entries, id)
            &&& b.candidates.len() > 0 ==> {
                &&& b3.entries.len() == b.entries.len()
                &&& b3.entries.last().id == b.candidates[0].id
                &&& b3.candidates == b.candidates.remove(0)
            }
        }),
{
    let p = place_of(b.entries, id);
    let (b1, o1) = b.probe_failed(id, t1);
    law_probe_failed_keeps_bucket(b, self_id, i, id, t1);
    assert(b1.entries[p].id == id);
    assert(place_of(b1.entries, id) == p);
    let (b2, o2) = b1.probe_failed(id, t2);
    law_probe_failed_keeps_bucket(b1, self_id, i, id, t2);
    assert(b2.entries[p].id == id);
    assert(place_of(b2.entries, id) == p);
    let (b3, o3) = b2.probe_failed(id, t3);
    lemma_replace_keeps_distinct(b2.entries, p, b2.entries[p]);
    if b.candidates.len() > 0 {
        assert(!holds_id(b2.entries, b2.candidates[0].id));
        lemma_replace_keeps_distinct(
            b2.entries,
            p,
            RoutingEntry { last_seen: t3, failed_pings: 0, ..b2.candidates[0] },
        );
        assert(b2.candidates[0].id != id);
        assert forall|k: int| 0 <= k < b3.entries.len() implies #[trigger] b3.entries[k].id != id by {
            if k < b3.entries.len() - 1 {
                assert(b3.entries[k] == b2.entries.remove(p)[k]);
            }
        }
    }
}

/// A successful probe clears the failures, so that the next two are survived.
pub proof fn law_success_clears_failures(
    b: BucketView,
    self_id: NodeId,
    i: int,
    id: NodeId,
    rtt_ms: u32,
    now: u64,
)
    requires
        b.wf(self_id, i),
        holds_id(b.entries, id),
    ensures
        ({
            let after = b.probe_succeeded(id, rtt_ms, now);
            &&& holds_id(after.entries, id)
            &&& place_of(after.entries, id) == after.entries.len() - 1
            &&& after.entries.last().failed_pings == 0
            &&& after.entries.last().id == id
            &&& after.entries.len() == b.entries.len()
        }),
{
    law_probe_succeeded_keeps_bucket(b, self_id, i, id, rtt_ms, now);
    let after = b.probe_succeeded(id, rtt_ms, now);
    let last = after.entries.len() - 1;
    assert(after.entries[last].id == id);
}

/// Which entries are active in some buckets: those of the buckets.
proof fn lemma_active_contains(buckets: Seq<BucketView>, e: RoutingEntry)
    ensures
        active_in(buckets).contains(e) <==> exists|i: int| 0 <= i < buckets.len() && (#[trigger] buckets[i]).entries.contains(e),
    decreases buckets.len(),
{
    if buckets.len() > 0 {
        let init = buckets.drop_last();
        let head = active_in(init);
        let last = buckets.last().entries;
        let all = active_in(buckets);
        lemma_active_contains(init, e);
        if all.contains(e) {
            let k = choose|k: int| 0 <= k < all.len() && all[k] == e;
            if k < head.len() {
                assert(head[k] == e);
                let i = choose|i: int| 0 <= i < init.len() && (#[trigger] init[i]).entries.contains(e);
                assert(buckets[i].entries.contains(e));
            } else {
                assert(last[k - head.len()] == e);
                assert(buckets[buckets.len() - 1].entries.contains(e));
            }
        }
        if exists|i: int| 0 <= i < buckets.len() && (#[trigger] buckets[i]).entries.contains(e) {
            let i = choose|i: int| 0 <= i < buckets.len() && (#[trigger] buckets[i]).entries.contains(e);
            if i < init.len() {
                assert(init[i].entries.contains(e));
                let k = choose|k: int| 0 <= k < head.len() && head[k] == e;
                assert(all[k] == e);
            } else {
                let k = choose|k: int| 0 <= k < last.len() && last[k] == e;
                assert(all[head.len() + k] == e);
            }
        }
    }
}

/// An entry is active exactly where the bucket of its id holds it.
proof fn lemma_active_entry(t: TableView, e: RoutingEntry)
    requires
        t.wf(),
    ensures
        t.active().contains(e) <==> e.id != t.self_id && t.buckets[bucket_of(t.self_id, e.id)].entries.contains(e),
{
    lemma_active_contains(t.buckets, e);
    law_bucket_exists(t.self_id, e.id);
    if t.active().contains(e) {
        let i = choose|i: int| 0 <= i < t.buckets.len() && (#[trigger] t.buckets[i]).entries.contains(e);
        let k = choose|k: int| 0 <= k < t.buckets[i].entries.len() && t.buckets[i].entries[k] == e;
        assert(t.buckets[i].wf(t.self_id, i));
        assert(in_bucket(t.self_id, t.buckets[i].entries[k].id, i));
        law_bucket_unique(t.self_id, e.id, i, bucket_of(t.self_id, e.id));
    }
}

/// An id is known exactly where an active entry has it.
proof fn lemma_known_entry(t: TableView, id: NodeId)
    ensures
        t.knows(id) <==> exists|e: RoutingEntry| #[trigger] t.active().contains(e) && e.id == id,
{
    let all = t.active();
    if t.knows(id) {
        let k = place_of(all, id);
        assert(all.contains(all[k]));
    }
    if exists|e: RoutingEntry| #[trigger] all.contains(e) && e.id == id {
        let e = choose|e: RoutingEntry| #[trigger] all.contains(e) && e.id == id;
        let k = choose|k: int| 0 <= k < all.len() && all[k] == e;
        assert(all[k].id == id);
    }
}

/// Entries of a bucket, one of them taken out and another put at the end.
proof fn lemma_moved(s: Seq<RoutingEntry>, p: int, e: RoutingEntry, x: RoutingEntry)
    requires
        ids_distinct(s),
        0 <= p < s.len(),
    ensures
        s.remove(p).contains(x) <==> s.contains(x) && x.id != s[p].id,
        s.remove(p).push(e).contains(x) <==> x == e || (s.contains(x) && x.id != s[p].id),
        s.update(p, e).contains(x) <==> x == e || (s.contains(x) && x.id != s[p].id),
        s.push(e).contains(x) <==> x == e || s.contains(x),
{
    let r = s.remove(p);
    let m = r.push(e);
    let u = s.update(p, e);
    let g = s.push(e);
    if r.contains(x) {
        let i = choose|i: int| 0 <= i < r.len() && r[i] == x;
        let k = if i < p { i } else { i + 1 };
        assert(s[k] == x);
        assert(k < p ==> s[k].id != s[p].id);
        assert(k > p ==> s[p].id != s[k].id);
    }
    if s.contains(x) {
        let k = choose|k: int| 0 <= k < s.len() && s[k] == x;
        assert(g[k] == x);
        if x.id != s[p].id {
            let i = if k < p { k } else { k - 1 };
            assert(r[i] == x);
            assert(m[i] == x);
            assert(u[k] == x);
        }
    }
    if m.contains(x) {
        let i = choose|i: int| 0 <= i < m.len() && m[i] == x;
        if i < r.len() {
            assert(r[i] == x);
        }
    }
    if u.contains(x) {
        let i = choose|i: int| 0 <= i < u.len() && u[i] == x;
        if i != p {
            assert(s[i] == x);
            assert(i < p ==> s[i].id != s[p].id);
            assert(i > p ==> s[p].id != s[i].id);
        }
    }
    if g.contains(x) {
        let i = choose|i: int| 0 <= i < g.len() && g[i] == x;
        if i < s.len() {
            assert(s[i] == x);
        }
    }
    assert(m[r.len() as int] == e);
    assert(u[p] == e);
    assert(g[s.len() as int] == e);
}

/// What a change of one bucket does to the active entries: those of other
/// buckets stay.
proof fn lemma_other_buckets(t: TableView, i: int, b: BucketView, x: RoutingEntry)
    requires
        t.wf(),
        0 <= i < BUCKETS,
        b.wf(t.self_id, i),
    ensures
        t.with_bucket(i, b).wf(),
        x.id == t.self_id ==> !t.with_bucket(i, b).active().contains(x),
        x.id != t.self_id && bucket_of(t.self_id, x.id) == i ==> (t.with_bucket(i, b).active().contains(x) <==> b.entries.contains(x)),
        x.id != t.self_id && bucket_of(t.self_id, x.id) != i ==> (t.with_bucket(i, b).active().contains(x)
            <==> t.active().contains(x)),
{
    let after = t.with_bucket(i, b);
    assert(after.wf()) by {
        assert forall|j: int| 0 <= j < BUCKETS implies (#[trigger] after.buckets[j]).wf(after.self_id, j) by {
            if j != i {
                assert(t.buckets[j].wf(t.self_id, j));
            }
        }
    }
    lemma_active_entry(after, x);
    lemma_active_entry(t, x);
    law_bucket_exists(t.self_id, x.id);
}

/// What the table gives for a peer after it was heard of. Where the table took
/// the peer in or knew it, its entry has the address that was heard now and was
/// seen now; its public key is the one that was heard first, and so are its
/// average and its failures those it had. A peer that was not known starts with
/// no failures. The entry of every other peer is as it was.
pub proof fn law_heard_address_is_given(t: TableView, desc: NodeDescriptor, now: u64, e: RoutingEntry, had: RoutingEntry)
    requires
        t.wf(),
    ensures
        ({
            let (after, outcome) = t.heard(desc, now);
            &&& outcome is IsSelf <==> desc.id == t.self_id
            &&& outcome is Refreshed <==> t.knows(desc.id)
            &&& outcome is Inserted || outcome is Refreshed ==> after.knows(desc.id)
            &&& after.knows(desc.id) ==> outcome is Inserted || outcome is Refreshed
            &&& after.active().contains(e) && e.id == desc.id ==> e.addr == desc.addr && e.last_seen == now
            &&& after.active().contains(e) && e.id == desc.id && !t.knows(desc.id) ==> e.pubkey == desc.pubkey
                && e.failed_pings == 0 && e.rtt_ema_ms is None && e.conn is None
            &&& after.active().contains(e) && e.id == desc.id && t.active().contains(had) && had.id == desc.id
                ==> e.pubkey == had.pubkey && e.failed_pings == had.failed_pings && e.rtt_ema_ms == had.rtt_ema_ms
                && e.conn == had.conn
            &&& e.id != desc.id ==> (after.active().contains(e) <==> t.active().contains(e))
        }),
{
    let (after, outcome) = t.heard(desc, now);
    law_active_peers(t);
    law_heard_is_known(t, desc, now);
    law_active_peers(after);
    if desc.id != t.self_id {
        let i = bucket_of(t.self_id, desc.id);
        let b = t.buckets[i];
        law_bucket_exists(t.self_id, desc.id);
        assert(b.wf(t.self_id, i));
        law_hear_keeps_bucket(b, t.self_id, i, desc, now);
        let h = b.hear(desc, now).0;
        lemma_other_buckets(t, i, h, e);
        lemma_active_entry(t, e);
        lemma_active_entry(t, had);
        if holds_id(b.entries, desc.id) {
            let p = place_of(b.entries, desc.id);
            lemma_moved(b.entries, p, h.entries.last(), e);
            if t.active().contains(had) && had.id == desc.id {
                let k = choose|k: int| 0 <= k < b.entries.len() && b.entries[k] == had;
                assert(b.entries[k].id == desc.id);
                assert(k < p ==> b.entries[k].id != b.entries[p].id);
                assert(k > p ==> b.entries[p].id != b.entries[k].id);
            }
        } else {
            if b.entries.contains(e) {
                let k = choose|k: int| 0 <= k < b.entries.len() && b.entries[k] == e;
                assert(b.entries[k].id == e.id);
            }
            if h.entries.contains(e) {
                let k = choose|k: int| 0 <= k < h.entries.len() && h.entries[k] == e;
                if k < b.entries.len() {
                    assert(b.entries[k] == e);
                    assert(b.entries[k].id == e.id);
                }
            }
            if b.entries.contains(e) && b.entries.len() < BUCKET_SIZE {
                let k = choose|k: int| 0 <= k < b.entries.len() && b.entries[k] == e;
                assert(h.entries[k] == e);
            }
        }
        if after.knows(desc.id) {
            assert(holds_id(h.entries, desc.id));
            if !holds_id(b.entries, desc.id) && b.entries.len() >= BUCKET_SIZE {
                assert(h.entries == b.entries);
            }
        }
    }
}

/// The answers to other relays carry what was heard last: once a peer was
/// inserted or refreshed, the closest to its own id is the peer itself, under
/// the address that was heard, and no answer gives another address for it.
pub proof fn law_heard_address_travels(
    t: TableView,
    desc: NodeDescriptor,
    now: u64,
    target: NodeId,
    count: nat,
    r: Seq<NodeDescriptor>,
    k: int,
)
    requires
        t.wf(),
        t.heard(desc, now).1 is Inserted || t.heard(desc, now).1 is Refreshed,
        nearest_descriptors(t.heard(desc, now).0, target, count, r),
    ensures
        0 <= k < r.len() && r[k].id == desc.id ==> r[k].addr == desc.addr && (!t.knows(desc.id) ==> r[k].pubkey
            == desc.pubkey),
        target == desc.id && count > 0 ==> r.len() > 0 && r[0].id == desc.id && r[0].addr == desc.addr,
{
    let after = t.heard(desc, now).0;
    let s = choose|s: Seq<RoutingEntry>| #[trigger] is_nearest(after.active(), target, count, s) && r == descriptors(s);
    law_heard_is_known(t, desc, now);
    if 0 <= k < r.len() {
        assert(after.active().contains(s[k]));
        law_heard_address_is_given(t, desc, now, s[k], s[k]);
    }
    if target == desc.id && count > 0 {
        let all = after.active();
        let m = place_of(all, desc.id);
        assert(all[m].id == desc.id);
        law_distance_zero(desc.id, target);
        if !s.contains(all[m]) {
            assert(distance(s[0].id, target) < distance(all[m].id, target));
        }
        let j = choose|j: int| 0 <= j < s.len() && s[j] == all[m];
        if j > 0 {
            assert(distance(s[0].id, target) < distance(s[j].id, target));
        }
        assert(all.contains(s[0]));
        law_heard_address_is_given(t, desc, now, s[0], s[0]);
    }
}

/// Where a peer that is not known goes: into its bucket while that has fewer
/// than sixteen active peers; else to the end of those that wait, with what was
/// heard of it, while fewer than sixteen wait and it does not wait yet, and the
/// peer to probe is the one at the head of the bucket. A peer for which there
/// is no room changes no list.
pub proof fn law_new_peer_goes_where_there_is_room(t: TableView, desc: NodeDescriptor, now: u64)
    requires
        t.wf(),
        desc.id != t.self_id,
        !t.knows(desc.id),
    ensures
        ({
            let (after, outcome) = t.heard(desc, now);
            let i = bucket_of(t.self_id, desc.id);
            let b = t.buckets[i];
            let h = after.buckets[i];
            let waits = exists|k: int| 0 <= k < b.candidates.len() && (#[trigger] b.candidates[k]).id == desc.id;
            &&& outcome is Inserted <==> b.entries.len() < 16
            &&& outcome is PendingPing <==> b.entries.len() >= 16 && b.candidates.len() < 16 && !waits
            &&& outcome is Discarded <==> b.entries.len() >= 16 && (b.candidates.len() >= 16 || waits)
            &&& outcome is PendingPing ==> {
                &&& outcome->PendingPing_0 == (NodeDescriptor {
                    id: b.entries[0].id,
                    addr: b.entries[0].addr,
                    pubkey: b.entries[0].pubkey,
                })
                &&& h.entries == b.entries
                &&& h.candidates.drop_last() == b.candidates
                &&& h.candidates.last().id == desc.id
                &&& h.candidates.last().addr == desc.addr
                &&& h.candidates.last().pubkey == desc.pubkey
            }
            &&& outcome is Inserted ==> h.entries.drop_last() == b.entries && h.candidates == b.candidates
            &&& outcome is Discarded ==> h.entries == b.entries && h.candidates == b.candidates
            &&& h.refresh_at == now
        }),
{
    law_active_peers(t);
    law_bucket_exists(t.self_id, desc.id);
    let i = bucket_of(t.self_id, desc.id);
    let b = t.buckets[i];
    let h = t.heard(desc, now).0.buckets[i];
    if b.entries.len() < 16 {
        assert(h.entries.drop_last() =~= b.entries);
    } else if h.candidates.len() > b.candidates.len() {
        assert(h.candidates.drop_last() =~= b.candidates);
    }
}

/// What a probe that came back does: the peer was seen now and has no failures,
/// its address and key stay, and its average is the sample where it had none,
/// else the old average moved towards the sample by an eighth of the way,
/// rounded down. Every other entry stays.
pub proof fn law_probe_success_is_noted(
    t: TableView,
    id: NodeId,
    rtt_ms: u32,
    now: u64,
    e: RoutingEntry,
    had: RoutingEntry,
)
    requires
        t.wf(),
    ensures
        ({
            let after = t.probe_succeeded(id, rtt_ms, now);
            &&& after.knows(id) <==> t.knows(id)
            &&& !t.knows(id) ==> after == t
            &&& e.id != id ==> (after.active().contains(e) <==> t.active().contains(e))
            &&& after.active().contains(e) && e.id == id ==> e.failed_pings == 0 && e.last_seen == now
                && e.rtt_ema_ms is Some
            &&& after.active().contains(e) && e.id == id && t.active().contains(had) && had.id == id ==> {
                &&& e.addr == had.addr
                &&& e.pubkey == had.pubkey
                &&& e.conn == had.conn
                &&& had.rtt_ema_ms is None ==> e.rtt_ema_ms == Some(rtt_ms)
                &&& had.rtt_ema_ms matches Some(ema) ==> 8 * (e.rtt_ema_ms->0) <= 7 * ema + rtt_ms < 8 * (
                e.rtt_ema_ms->0) + 8
            }
        }),
{
    let after = t.probe_succeeded(id, rtt_ms, now);
    law_active_peers(t);
    if t.knows(id) {
        let i = bucket_of(t.self_id, id);
        let b = t.buckets[i];
        law_bucket_exists(t.self_id, id);
        assert(b.wf(t.self_id, i));
        assert(holds_id(b.entries, id));
        law_probe_succeeded_keeps_bucket(b, t.self_id, i, id, rtt_ms, now);
        let h = b.probe_succeeded(id, rtt_ms, now);
        lemma_other_buckets(t, i, h, e);
        law_active_peers(after);
        lemma_active_entry(t, e);
        lemma_active_entry(t, had);
        let p = place_of(b.entries, id);
        lemma_moved(b.entries, p, h.entries.last(), e);
        assert(h.entries[h.entries.len() - 1].id == id);
        assert(holds_id(h.entries, id));
        if t.active().contains(had) && had.id == id {
            let k = choose|k: int| 0 <= k < b.entries.len() && b.entries[k] == had;
            assert(b.entries[k].id == id);
            assert(k < p ==> b.entries[k].id != b.entries[p].id);
            assert(k > p ==> b.entries[p].id != b.entries[k].id);
            if let Some(ema) = had.rtt_ema_ms {
                assert((ema * 7 + rtt_ms) / 8 <= u32::MAX);
            }
        }
    }
}

/// What a failed probe does: the first and the second in a row are counted and
/// the peer stays as it is else; with the third it is gone, and where somebody
/// waits for a slot of its bucket, the one that waited longest is active from
/// then on, seen now and without failures. Every other entry stays.
pub proof fn law_probe_failure_is_noted(t: TableView, id: NodeId, now: u64, e: RoutingEntry, had: RoutingEntry)
    requires
        t.wf(),
    ensures
        ({
            let (after, outcome) = t.probe_failed(id, now);
            let b = t.buckets[bucket_of(t.self_id, id)];
            &&& outcome == PingFailedOutcome::Unknown <==> !t.knows(id)
            &&& !t.knows(id) ==> after.active() == t.active()
            &&& t.active().contains(had) && had.id == id ==> {
                &&& outcome == PingFailedOutcome::Continued <==> had.failed_pings + 1 < 3
                &&& outcome == PingFailedOutcome::Evicted <==> had.failed_pings + 1 >= 3 && b.candidates.len() == 0
                &&& outcome == PingFailedOutcome::EvictedAndPromoted <==> had.failed_pings + 1 >= 3
                    && b.candidates.len() > 0
                &&& after.knows(id) <==> had.failed_pings + 1 < 3
                &&& after.active().contains(e) && e.id == id ==> e == (RoutingEntry {
                    failed_pings: (had.failed_pings + 1) as u8,
                    ..had
                })
                &&& had.failed_pings + 1 >= 3 && b.candidates.len() > 0 ==> {
                    let next = b.candidates[0];
                    &&& after.active().contains(
                        RoutingEntry { last_seen: now, failed_pings: 0, ..next },
                    )
                    &&& after.buckets[bucket_of(t.self_id, id)].candidates == b.candidates.drop_first()
                    &&& e.id != id && e.id != next.id ==> (after.active().contains(e) <==> t.active().contains(e))
                }
                &&& !(had.failed_pings + 1 >= 3 && b.candidates.len() > 0) && e.id != id ==> (after.active().contains(e)
                    <==> t.active().contains(e))
            }
        }),
{
    let (after, outcome) = t.probe_failed(id, now);
    law_active_peers(t);
    lemma_known_entry(t, id);
    if id != t.self_id {
        let i = bucket_of(t.self_id, id);
        let b = t.buckets[i];
        law_bucket_exists(t.self_id, id);
        assert(b.wf(t.self_id, i));
        law_probe_failed_keeps_bucket(b, t.self_id, i, id, now);
        let h = b.probe_failed(id, now).0;
        lemma_other_buckets(t, i, h, e);
        law_active_peers(after);
        lemma_active_entry(t, e);
        lemma_active_entry(t, had);
        if t.active().contains(had) && had.id == id {
            let p = place_of(b.entries, id);
            let k = choose|k: int| 0 <= k < b.entries.len() && b.entries[k] == had;
            assert(b.entries[k].id == id);
            assert(k < p ==> b.entries[k].id != b.entries[p].id);
            assert(k > p ==> b.entries[p].id != b.entries[k].id);
            lemma_moved(b.entries, p, RoutingEntry { failed_pings: (had.failed_pings + 1) as u8, ..had }, e);
            if had.failed_pings + 1 < 3 {
                assert(h.entries[p].id == id);
            } else if b.candidates.len() > 0 {
                let next = RoutingEntry { last_seen: now, failed_pings: 0, ..b.candidates[0] };
                lemma_moved(b.entries, p, next, e);
                lemma_moved(b.entries, p, next, next);
                assert(in_bucket(t.self_id, b.candidates[0].id, i));
                law_bucket_exists(t.self_id, next.id);
                law_bucket_unique(t.self_id, next.id, i, bucket_of(t.self_id, next.id));
                lemma_other_buckets(t, i, h, next);
                assert(!holds_id(b.entries, b.candidates[0].id));
                assert(b.candidates.remove(0) =~= b.candidates.drop_first());
                if holds_id(h.entries, id) {
                    let m = place_of(h.entries, id);
                    lemma_moved(b.entries, p, next, h.entries[m]);
                    assert(h.entries.contains(h.entries[m]));
                    assert(b.entries[p].id == id);
                }
            } else if holds_id(h.entries, id) {
                let m = place_of(h.entries, id);
                lemma_moved(b.entries, p, had, h.entries[m]);
                assert(h.entries.contains(h.entries[m]));
            }
        }
        if !t.knows(id) {
            assert(t.buckets.update(i, b) =~= t.buckets);
        }
    }
}

/// A list of the nearest is as long as it may be, lists active peers only, and
/// nobody that it leaves out is closer than one that it lists.
pub proof fn law_nearest_leaves_out_the_farther(
    all: Seq<RoutingEntry>,
    target: NodeId,
    count: nat,
    r: Seq<RoutingEntry>,
    i: int,
    k: int,
)
    requires
        ids_distinct(all),
        is_nearest(all, target, count, r),
        0 <= i < r.len(),
        0 <= k < all.len(),
    ensures
        r.len() == (if count < all.len() {
            count
        } else {
            all.len()
        }),
        exists|m: int| 0 <= m < all.len() && all[m] == r[i],
        distance(r[0].id, target) <= distance(all[k].id, target),
        i + 1 < r.len() ==> distance(r[i].id, target) < distance(r[i + 1].id, target),
        r.contains(all[k]) || distance(r[i].id, target) < distance(all[k].id, target),
{
    assert(all.contains(r[i]));
    let x = all[k];
    assert(x == all[k]);
    if r.contains(x) {
        let j = choose|j: int| 0 <= j < r.len() && r[j] == x;
        if j > 0 {
            assert(distance(r[0].id, target) < distance(r[j].id, target));
        }
    }
    if r.len() < count {
        let all_ids = lemma_ids_of(all);
        let r_ids = lemma_ids_of(r);
        assert forall|id: NodeId| all_ids.to_set().contains(id) implies r_ids.to_set().contains(id) by {
            let m = place_of(all, id);
            assert(r.contains(all[m]));
            let j = choose|j: int| 0 <= j < r.len() && r[j] == all[m];
            assert(r[j].id == id);
        }
        vstd::set_lib::lemma_len_subset(all_ids.to_set(), r_ids.to_set());
    }
}

/// A relay is among the closest to a target unless three known peers are closer
/// to it.
pub proof fn law_three_closer_displace(t: TableView, id: NodeId, target: NodeId, a: NodeId, b: NodeId, c: NodeId)
    requires
        t.wf(),
        t.knows(a) && t.knows(b) && t.knows(c),
        a != b && b != c && a != c,
        distance(a, target) < distance(id, target),
        distance(b, target) < distance(id, target),
        distance(c, target) < distance(id, target),
    ensures
        !among_k_closest(t, id, target),
{
    let closer = closer_than(t, target, distance(id, target));
    lemma_closer_finite(t, target, distance(id, target));
    let three = set![a, b, c];
    assert(three.len() == 3);
    assert(three.subset_of(closer));
    vstd::set_lib::lemma_len_subset(three, closer);
}

/// Who is among the closest though others are: where at most two known peers
/// are closer, a relay is among the closest to a target. A table of two peers
/// displaces nobody.
pub proof fn law_two_closer_displace_nobody(t: TableView, id: NodeId, target: NodeId, a: NodeId, b: NodeId)
    requires
        t.wf(),
        forall|p: NodeId| #[trigger] t.knows(p) && p != a && p != b ==> distance(p, target) >= distance(id, target),
    ensures
        among_k_closest(t, id, target),
{
    let closer = closer_than(t, target, distance(id, target));
    let two = set![a, b];
    assert forall|p: NodeId| closer.contains(p) implies two.contains(p) by {
        assert(t.knows(p));
    }
    vstd::set_lib::lemma_len_subset(closer, two);
    assert(set![a].len() == 1);
    assert(two.len() <= 2);
}

/// Who is as close as one of the closest is one of them too.
pub proof fn law_closer_is_among_the_closest(t: TableView, id: NodeId, other: NodeId, target: NodeId)
    requires
        t.wf(),
        among_k_closest(t, id, target),
        distance(other, target) <= distance(id, target),
    ensures
        among_k_closest(t, other, target),
{
    lemma_closer_finite(t, target, distance(id, target));
    let near = closer_than(t, target, distance(other, target));
    let far = closer_than(t, target, distance(id, target));
    assert(near.subset_of(far));
    vstd::set_lib::lemma_len_subset(near, far);
}

proof fn lemma_closer_finite(t: TableView, target: NodeId, d: nat)
    requires
        t.wf(),
    ensures
        closer_than(t, target, d).finite(),
{
    let ids = lemma_ids_of(t.active());
    assert(known_ids(t) =~= ids.to_set());
    let closer = closer_than(t, target, d);
    assert(closer.subset_of(ids.to_set()));
    vstd::set_lib::lemma_len_subset(closer, ids.to_set());
}

/// The bucket of a peer goes by the first byte in which its id differs from the
/// relay's: a peer that differs earlier is in a higher bucket.
pub proof fn law_bucket_goes_by_first_difference(self_id: NodeId, peer: NodeId, j: int)
    requires
        0 <= j < 32,
        forall|k: int| 0 <= k < j ==> self_id.bytes@[k] == peer.bytes@[k],
        self_id.bytes@[j] != peer.bytes@[j],
    ensures
        8 * (31 - j) <= bucket_of(self_id, peer) < 8 * (32 - j),
{
    let x = xor_seq(self_id@, peer@);
    assert forall|k: int| 0 <= k < j implies x[k] == 0 by {
        let b = self_id@[k];
        assert(b ^ b == 0) by (bit_vector);
    }
    let a = self_id@[j];
    let b = peer@[j];
    assert(a != b ==> a ^ b != 0) by (bit_vector);
    lemma_bucket_from_first_byte(self_id, peer, j);
    lemma_leading_zeros_range(x[j]);
    law_bucket_exists(self_id, peer);
    law_bucket_unique(
        self_id,
        peer,
        255 - 8 * j - vstd::std_specs::bits::u8_leading_zeros(x[j]),
        bucket_of(self_id, peer),
    );
}

} // verus!
