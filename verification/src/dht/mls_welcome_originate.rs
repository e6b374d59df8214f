//! Sending a client's welcome requests to the homes of a user: this relay's own
//! part where it is a home, and what the answers of the others come to.

use super::bytes::copy_bytes;
use super::config::{FORWARD_K_MIN, K};
use super::dedupe::{firsts, has_one, keys_distinct, law_firsts_once, law_no_repeats, lemma_firsts_push};
use super::hash::blake3_hash;
use super::id::{NodeDescriptor, NodeId};
use super::keyspace::{apart_from, law_filter_keeps_order, law_put, value_at};
use super::mls_fanout::closest_homes_with_self;
use super::mls_welcome::{
    ack_handled, expiry, fetch_handled, handle_welcome_ack, handle_welcome_fetch, handle_welcome_publish,
    keys_of_ids, law_ack_draws_for_its_peer, owns_stash, publish_handled, stash_of, stash_prefix, welcome_key,
};
use super::routing::{among_k_closest, nearest_descriptors};
use super::sig::ed25519_signed;
use super::wire::{
    same_array, StoredWelcomeView, WelcomeAckReq, WelcomeAckResp, WelcomeEntry, WelcomeEntryView, WelcomeFetchOutcome,
    WelcomeFetchReq, WelcomePublishOutcome, WelcomePublishReq,
};
use super::{Dht, DhtView};
use vstd::prelude::*;
use vstd::string::StringSliceAdditionalSpecFns;

verus! {

// ---------------------------------------------------------------------------
// Publishing
// ---------------------------------------------------------------------------

/// What this relay does with an invitation that it sends to the homes: where
/// it is one of them, it is asked like the others. `stored` says whether it
/// stored the invitation.
pub open spec fn stored_here(before: DhtView, after: DhtView, req: WelcomePublishReq, now_ms: u64, stored: bool) -> bool {
    if owns_stash(before, req.envelope.recipient_ipk) {
        exists|token: bool, id: Option<[u8; 8]>, r: WelcomePublishOutcome|
            {
                &&& #[trigger] publish_handled(before, after, req, before.node_id, now_ms, token, id, r)
                &&& stored == (r == WelcomePublishOutcome::Stored)
            }
    } else {
        !stored && after == before
    }
}

/// Begins to publish an invitation: the homes that are to be asked, and
/// whether this relay stored it.
pub fn originate_welcome_publish(dht: &mut Dht, req: &WelcomePublishReq, now_ms: u64) -> (r: (
    Vec<NodeDescriptor>,
    bool,
))
    requires
        old(dht).wf(),
    ensures
        final(dht).wf(),
        nearest_descriptors(
            old(dht)@.routing,
            NodeId { bytes: stash_of(req.envelope.recipient_ipk) },
            K as nat,
            r.0@,
        ),
        stored_here(old(dht)@, final(dht)@, *req, now_ms, r.1),
{
    let target: NodeId = NodeId::from_bytes(stash_prefix(&req.envelope.recipient_ipk));
    let (homes, self_in_k): (Vec<NodeDescriptor>, bool) = closest_homes_with_self(dht, &target);
    let mut stored: bool = false;
    if self_in_k {
        let node_id: NodeId = dht.node_id;
        let outcome: WelcomePublishOutcome = handle_welcome_publish(dht, req, &node_id, now_ms);
        stored = outcome == WelcomePublishOutcome::Stored;
    }
    (homes, stored)
}

/// The answers that say stored.
pub open spec fn says_stored() -> spec_fn(WelcomePublishOutcome) -> bool {
    |o: WelcomePublishOutcome| o == WelcomePublishOutcome::Stored
}

/// Whether enough homes stored an invitation, given whether this relay did and
/// what the homes that answered said.
pub fn publish_quorum(stored_here: bool, replies: &Vec<WelcomePublishOutcome>) -> (r: bool)
    ensures
        r == ((if stored_here {
            1int
        } else {
            0
        }) + replies@.filter(says_stored()).len() >= FORWARD_K_MIN),
        r <==> replies@.filter(says_stored()).len() >= 2 || (stored_here && replies@.filter(says_stored()).len() >= 1),
{
    let ghost keep = says_stored();
    let mut count: usize = 0;
    let mut i: usize = 0;
    proof {
        super::keyspace::lemma_filter_empty(replies@, keep);
    }
    while i < replies.len()
        invariant
            0 <= i <= replies.len(),
            keep == says_stored(),
            count <= i,
            count == replies@.take(i as int).filter(keep).len(),
        decreases replies.len() - i,
    {
        proof {
            super::keyspace::lemma_filter_step(replies@, keep, i as int);
        }
        if replies[i] == WelcomePublishOutcome::Stored {
            count = count + 1;
        }
        i = i + 1;
    }
    assert(replies@.take(i as int) =~= replies@);
    if stored_here {
        count >= FORWARD_K_MIN - 1
    } else {
        count >= FORWARD_K_MIN
    }
}

// ---------------------------------------------------------------------------
// Fetching
// ---------------------------------------------------------------------------

/// What tells invitations apart: the group and the key package that was used.
/// The id differs from home to home.
pub open spec fn welcome_identity() -> spec_fn(WelcomeEntryView) -> ([u8; 32], [u8; 32]) {
    |e: WelcomeEntryView| (e.envelope.group_id, e.envelope.kp_ref_used)
}

/// The entries in a list.
pub open spec fn entries_of(entries: Seq<WelcomeEntry>) -> Seq<WelcomeEntryView> {
    Seq::new(entries.len(), |i: int| entries[i]@)
}

/// Whether an invitation into this group with this key package is in the list.
fn has_welcome(entries: &Vec<WelcomeEntry>, group_id: &[u8; 32], kp_ref: &[u8; 32]) -> (r: bool)
    ensures
        r == has_one(entries_of(entries@), welcome_identity(), (*group_id, *kp_ref)),
{
    let mut i: usize = 0;
    while i < entries.len()
        invariant
            0 <= i <= entries.len(),
            forall|k: int|
                0 <= k < i ==> welcome_identity()(#[trigger] entries_of(entries@)[k]) != (*group_id, *kp_ref),
        decreases entries.len() - i,
    {
        if same_array(&entries[i].envelope.group_id, group_id) && same_array(
            &entries[i].envelope.kp_ref_used,
            kp_ref,
        ) {
            assert(welcome_identity()(entries_of(entries@)[i as int]) == (*group_id, *kp_ref));
            return true;
        }
        i = i + 1;
    }
    false
}

/// Merges what one home listed into what is merged already: invitations that
/// are there under another id are passed over.
pub fn absorb(entries: &Vec<WelcomeEntry>, merged: &mut Vec<WelcomeEntry>)
    requires
        keys_distinct(entries_of(old(merged)@), welcome_identity()),
    ensures
        entries_of(final(merged)@) == firsts(
            entries_of(old(merged)@) + entries_of(entries@),
            welcome_identity(),
        ),
        keys_distinct(entries_of(final(merged)@), welcome_identity()),
{
    let ghost had = entries_of(merged@);
    let ghost new = entries_of(entries@);
    let ghost key = welcome_identity();
    let mut i: usize = 0;
    proof {
        law_firsts_once(had, key);
        assert(had + new.take(0) =~= had);
    }
    while i < entries.len()
        invariant
            0 <= i <= entries.len(),
            new == entries_of(entries@),
            key == welcome_identity(),
            entries_of(merged@) == firsts(had + new.take(i as int), key),
        decreases entries.len() - i,
    {
        let e: &WelcomeEntry = &entries[i];
        let ghost m0 = merged@;
        proof {
            lemma_firsts_push(had + new.take(i as int), key, new[i as int]);
            assert((had + new.take(i as int)).push(new[i as int]) =~= had + new.take(i + 1));
        }
        if !has_welcome(merged, &e.envelope.group_id, &e.envelope.kp_ref_used) {
            merged.push(WelcomeEntry { welcome_id: e.welcome_id, envelope: e.envelope.copy() });
            assert(entries_of(merged@) =~= entries_of(m0).push(new[i as int]));
        }
        i = i + 1;
    }
    proof {
        assert(new.take(i as int) =~= new);
        law_no_repeats(had + new, key);
    }
}

/// What this relay lists of a user's invitations that are fetched from the
/// homes: where it is one of them, it is asked like the others.
pub open spec fn listed_here(
    before: DhtView,
    after: DhtView,
    req: WelcomeFetchReq,
    now_ms: u64,
    merged: Seq<WelcomeEntryView>,
) -> bool {
    if owns_stash(before, req.user_ipk) {
        exists|token: bool, r: WelcomeFetchOutcome|
            {
                &&& #[trigger] fetch_handled(before, after, req, before.node_id, now_ms, token, r)
                &&& merged == (match r {
                    WelcomeFetchOutcome::Found(entries) => firsts(entries_of(entries@), welcome_identity()),
                    _ => Seq::<WelcomeEntryView>::empty(),
                })
            }
    } else {
        merged.len() == 0 && after == before
    }
}

/// Begins to fetch a user's invitations: the request, the homes that are to be
/// asked, and what this relay lists itself.
pub fn originate_welcome_fetch(
    dht: &mut Dht,
    user_ipk: &[u8; 32],
    timestamp: u64,
    user_sig: &[u8; 64],
    transcript: &[u8],
    now_ms: u64,
) -> (r: (WelcomeFetchReq, Vec<NodeDescriptor>, Vec<WelcomeEntry>))
    requires
        old(dht).wf(),
    ensures
        final(dht).wf(),
        r.0.user_ipk == *user_ipk,
        r.0.requester_relay_id == old(dht)@.node_id,
        r.0.timestamp == timestamp,
        r.0.user_sig == *user_sig,
        r.0.transcript@ == transcript@,
        nearest_descriptors(old(dht)@.routing, NodeId { bytes: stash_of(*user_ipk) }, K as nat, r.1@),
        listed_here(old(dht)@, final(dht)@, r.0, now_ms, entries_of(r.2@)),
        keys_distinct(entries_of(r.2@), welcome_identity()),
{
    let target: NodeId = NodeId::from_bytes(stash_prefix(user_ipk));
    let (homes, self_in_k): (Vec<NodeDescriptor>, bool) = closest_homes_with_self(dht, &target);
    let node_id: NodeId = dht.node_id;
    let req = WelcomeFetchReq {
        user_ipk: *user_ipk,
        requester_relay_id: node_id,
        timestamp,
        user_sig: *user_sig,
        transcript: copy_bytes(transcript),
    };
    let mut merged: Vec<WelcomeEntry> = Vec::new();
    assert(entries_of(merged@) =~= Seq::<WelcomeEntryView>::empty());
    if self_in_k {
        let r: WelcomeFetchOutcome = handle_welcome_fetch(dht, &req, &node_id, now_ms);
        if let WelcomeFetchOutcome::Found(entries) = &r {
            absorb(entries, &mut merged);
            assert(Seq::<WelcomeEntryView>::empty() + entries_of(entries@) =~= entries_of(entries@));
        }
        proof {
            assert(fetch_handled(old(dht)@, dht@, req, node_id, now_ms, true, r) || fetch_handled(
                old(dht)@,
                dht@,
                req,
                node_id,
                now_ms,
                false,
                r,
            ));
        }
    }
    (req, homes, merged)
}

// ---------------------------------------------------------------------------
// Acknowledging
// ---------------------------------------------------------------------------

/// What this relay does with an acknowledgement that it sends to the homes:
/// where it is one of them, it is asked like the others.
pub open spec fn acked_here(before: DhtView, after: DhtView, req: WelcomeAckReq, now_ms: u64) -> bool {
    if owns_stash(before, req.user_ipk) {
        exists|token: bool, r: WelcomeAckResp| #[trigger]
            ack_handled(before, after, req, before.node_id, now_ms, token, r)
    } else {
        after == before
    }
}

/// Begins to acknowledge invitations: the request and the homes that are to be
/// told. None of them has to answer.
pub fn originate_welcome_ack(
    dht: &mut Dht,
    user_ipk: &[u8; 32],
    welcome_ids: Vec<[u8; 8]>,
    timestamp: u64,
    user_sig: &[u8; 64],
    transcript: &[u8],
    now_ms: u64,
) -> (r: (WelcomeAckReq, Vec<NodeDescriptor>))
    requires
        old(dht).wf(),
    ensures
        final(dht).wf(),
        r.0.user_ipk == *user_ipk,
        r.0.requester_relay_id == old(dht)@.node_id,
        r.0.welcome_ids@ == welcome_ids@,
        r.0.timestamp == timestamp,
        r.0.user_sig == *user_sig,
        r.0.transcript@ == transcript@,
        nearest_descriptors(old(dht)@.routing, NodeId { bytes: stash_of(*user_ipk) }, K as nat, r.1@),
        acked_here(old(dht)@, final(dht)@, r.0, now_ms),
{
    let target: NodeId = NodeId::from_bytes(stash_prefix(user_ipk));
    let (homes, self_in_k): (Vec<NodeDescriptor>, bool) = closest_homes_with_self(dht, &target);
    let node_id: NodeId = dht.node_id;
    let req = WelcomeAckReq {
        user_ipk: *user_ipk,
        requester_relay_id: node_id,
        welcome_ids,
        timestamp,
        user_sig: *user_sig,
        transcript: copy_bytes(transcript),
    };
    if self_in_k {
        let r: WelcomeAckResp = handle_welcome_ack(dht, &req, &node_id, now_ms);
        proof {
            assert(ack_handled(old(dht)@, dht@, req, node_id, now_ms, true, r) || ack_handled(
                old(dht)@,
                dht@,
                req,
                node_id,
                now_ms,
                false,
                r,
            ));
        }
    }
    (req, homes)
}

/// Every home that stored an invitation counts for one, and no other answer
/// counts; two make a quorum, this relay's own among them.
pub proof fn law_each_stored_answer_counts(replies: Seq<WelcomePublishOutcome>, reply: WelcomePublishOutcome)
    ensures
        replies.push(reply).filter(says_stored()).len() == replies.filter(says_stored()).len() + (if reply
            == WelcomePublishOutcome::Stored {
            1int
        } else {
            0
        }),
        Seq::<WelcomePublishOutcome>::empty().filter(says_stored()).len() == 0,
{
    reveal(Seq::filter);
    assert(replies.push(reply).drop_last() =~= replies);
}

/// What homes list is merged by what the invitations are: no two that are kept
/// invite into the same group with the same key package, each that some home
/// listed is kept under its group and key package, and each that is kept was
/// listed, whole, by some home.
pub proof fn law_merge_keeps_one_of_each(
    a: Seq<WelcomeEntryView>,
    b: Seq<WelcomeEntryView>,
    i: int,
    j: int,
    listed: WelcomeEntryView,
)
    requires
        0 <= i < firsts(a + b, welcome_identity()).len(),
        0 <= j < firsts(a + b, welcome_identity()).len(),
    ensures
        ({
            let merged = firsts(a + b, welcome_identity());
            &&& i != j ==> merged[i].envelope.group_id != merged[j].envelope.group_id || merged[i].envelope.kp_ref_used
                != merged[j].envelope.kp_ref_used
            &&& a.contains(merged[i]) || b.contains(merged[i])
            &&& a.contains(listed) || b.contains(listed) ==> exists|k: int|
                0 <= k < merged.len() && (#[trigger] merged[k]).envelope.group_id == listed.envelope.group_id
                    && merged[k].envelope.kp_ref_used == listed.envelope.kp_ref_used
        }),
{
    let key = welcome_identity();
    let all = a + b;
    let merged = firsts(all, key);
    law_no_repeats(all, key);
    if i < j {
        assert(key(merged[i]) != key(merged[j]));
    } else if j < i {
        assert(key(merged[j]) != key(merged[i]));
    }
    super::dedupe::law_first_occurrence_stays(all, key);
    let at = choose|at: Seq<int>| super::dedupe::stood_first(all, key, merged, at);
    assert(all[at[i]] == merged[i]);
    if at[i] < a.len() {
        assert(a[at[i]] == merged[i]);
    } else {
        assert(b[at[i] - a.len()] == merged[i]);
    }
    if a.contains(listed) || b.contains(listed) {
        if a.contains(listed) {
            let m = choose|m: int| 0 <= m < a.len() && a[m] == listed;
            assert(key(all[m]) == key(listed));
        } else {
            let m = choose|m: int| 0 <= m < b.len() && b[m] == listed;
            assert(key(all[a.len() + m]) == key(listed));
        }
        super::dedupe::law_every_key_stays(all, key, key(listed));
        let k = choose|k: int| 0 <= k < merged.len() && key(#[trigger] merged[k]) == key(listed);
        assert(merged[k].envelope.group_id == listed.envelope.group_id);
    }
}

/// This relay says that it stored an invitation only where it did: a row under
/// the recipient's key holds it. Where it says that it did not, its stashes are
/// as they were.
pub proof fn law_stored_here_is_kept(before: DhtView, after: DhtView, req: WelcomePublishReq, now_ms: u64, stored: bool)
    requires
        before.welcome.wf(),
        stored_here(before, after, req, now_ms, stored),
    ensures
        stored ==> exists|id: [u8; 8]|
            {
                &&& value_at(
                    after.welcome.rows,
                    #[trigger] welcome_key(req.envelope.recipient_ipk, id),
                ) matches Some(Some(kept))
                &&& kept.envelope == req.envelope@
                &&& kept.expires_at_ms > now_ms || kept.expires_at_ms == u64::MAX
            },
        !stored ==> after.welcome == before.welcome,
        stored ==> among_k_closest(
            before.routing,
            before.node_id,
            NodeId { bytes: blake3_hash("welcome:".spec_bytes() + req.envelope.recipient_ipk@) },
        ),
{
    if owns_stash(before, req.envelope.recipient_ipk) {
        let (token, id, r) = choose|token: bool, id: Option<[u8; 8]>, r: WelcomePublishOutcome|
            {
                &&& #[trigger] publish_handled(before, after, req, before.node_id, now_ms, token, id, r)
                &&& stored == (r == WelcomePublishOutcome::Stored)
            };
        if stored {
            let key = welcome_key(req.envelope.recipient_ipk, id->0);
            law_put(
                before.welcome.rows,
                key,
                StoredWelcomeView { expires_at_ms: expiry(now_ms), envelope: req.envelope@ },
                key,
            );
        }
    }
}

/// What this relay lists itself are invitations that stand in the user's stash
/// and have not expired, no two of them for the same group and key package.
pub proof fn law_listed_here_is_kept(
    before: DhtView,
    after: DhtView,
    req: WelcomeFetchReq,
    now_ms: u64,
    merged: Seq<WelcomeEntryView>,
    i: int,
    j: int,
)
    requires
        listed_here(before, after, req, now_ms, merged),
        0 <= i < j < merged.len(),
    ensures
        merged[i].envelope.group_id != merged[j].envelope.group_id || merged[i].envelope.kp_ref_used
            != merged[j].envelope.kp_ref_used,
        ed25519_signed(req.user_ipk@, req.transcript@, req.user_sig@),
        among_k_closest(
            before.routing,
            before.node_id,
            NodeId { bytes: blake3_hash("welcome:".spec_bytes() + req.user_ipk@) },
        ),
{
    let (token, r) = choose|token: bool, r: WelcomeFetchOutcome|
        {
            &&& #[trigger] fetch_handled(before, after, req, before.node_id, now_ms, token, r)
            &&& merged == (match r {
                WelcomeFetchOutcome::Found(entries) => firsts(entries_of(entries@), welcome_identity()),
                _ => Seq::<WelcomeEntryView>::empty(),
            })
        };
    if let WelcomeFetchOutcome::Found(entries) = r {
        law_no_repeats(entries_of(entries@), welcome_identity());
        let key = welcome_identity();
        assert(key(merged[i]) != key(merged[j]));
    }
}

/// An acknowledgement that this relay begins itself, and that it may honour,
/// leaves no row of the user under an id that it lists.
pub proof fn law_acked_here_is_gone(before: DhtView, after: DhtView, req: WelcomeAckReq, now_ms: u64, i: int, k: int)
    requires
        before.welcome.wf(),
        acked_here(before, after, req, now_ms),
        req.requester_relay_id == before.node_id,
        now_ms <= req.timestamp + 60_000,
        req.timestamp <= now_ms + 60_000,
        req.welcome_ids@.len() <= before.limits.max_welcome_ack_ids,
        ed25519_signed(req.user_ipk@, req.transcript@, req.user_sig@),
        among_k_closest(
            before.routing,
            before.node_id,
            NodeId { bytes: blake3_hash("welcome:".spec_bytes() + req.user_ipk@) },
        ),
        !before.welcome_limiters.asked.contains(before.node_id.bytes@),
        before.welcome.writable,
        0 <= i < req.welcome_ids@.len(),
        0 <= k < after.welcome.rows.len(),
    ensures
        after.welcome.rows[k].0 != blake3_hash("welcome:".spec_bytes() + req.user_ipk@)@ + req.welcome_ids@[i]@,
{
    let (token, r) = choose|token: bool, r: WelcomeAckResp| #[trigger]
        ack_handled(before, after, req, before.node_id, now_ms, token, r);
    law_ack_draws_for_its_peer(before, after, req, before.node_id, now_ms, token, r);
    let keys = keys_of_ids(req.user_ipk, req.welcome_ids@);
    let keep = apart_from::<StoredWelcomeView>(keys);
    law_filter_keeps_order(before.welcome.rows, keep);
    assert(keys[i] == welcome_key(req.user_ipk, req.welcome_ids@[i]));
    assert(keep(after.welcome.rows[k]));
}

} // verus!
