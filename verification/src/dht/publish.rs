//! Publishing a presence record: which relays store it, and whether enough
//! did.

use super::bytes::{less32, xor32};
use super::config::K;
use super::id::{distance, NodeDescriptor, NodeId};
use super::lookup::LookupError;
use super::routing::{
    among_k_closest, descriptors, is_nearest, law_active_peers, law_kth_decides, RoutingEntry, TableView,
};
use super::wire::StoreOutcome;
use vstd::prelude::*;

verus! {

/// Replicas that must store a record for its publish to succeed.
pub const K_MIN: usize = 2;

/// What one relay did with the record.
#[derive(Clone, Copy, Debug, PartialEq, Eq)]
pub struct ReplicaResult {
    pub node_id: NodeId,
    pub outcome: StoreOutcome,
}

/// Where a record was stored, and where it was not.
#[derive(Debug)]
pub struct PublishOutcome {
    /// Relays that stored the record.
    pub stored_at: Vec<NodeId>,
    /// Relays that did anything else, or did not answer.
    pub failed_at: Vec<ReplicaResult>,
}

impl PublishOutcome {
    /// Whether enough relays stored the record.
    pub fn is_successful(&self) -> (r: bool)
        ensures
            r == (self.stored_at@.len() >= K_MIN),
    {
        self.stored_at.len() >= K_MIN
    }
}

/// Why a publish failed.
#[derive(Debug)]
pub enum PublishError {
    /// The closest relays could not be found.
    LookupFailed(LookupError),
    /// Too few relays stored the record.
    InsufficientReplicas { wanted: usize, got: usize },
}

/// Whether this relay stores the record itself, beside the closest peers that
/// a lookup found: it does where they are fewer than [`K`], or where it is
/// closer than the last of them.
pub fn self_should_store(node_id: &NodeId, target: &NodeId, found: &Vec<NodeDescriptor>) -> (r: bool)
    ensures
        r == (found@.len() < K || distance(*node_id, *target) < distance(found@[K - 1].id, *target)),
{
    if found.len() < K {
        return true;
    }
    let self_dist: [u8; 32] = xor32(node_id.as_bytes(), target.as_bytes());
    let kth_dist: [u8; 32] = xor32(found[K - 1].id.as_bytes(), target.as_bytes());
    less32(&self_dist, &kth_dist)
}

/// Where a user's record goes, given what the lookup of the user came to: the
/// peers that are asked to store it, and whether this relay stores it too.
pub fn plan_publish(
    node_id: &NodeId,
    user_ipk: &[u8; 32],
    found: Result<Vec<NodeDescriptor>, LookupError>,
) -> (r: Result<(Vec<NodeDescriptor>, bool), PublishError>)
    ensures
        match found {
            Err(e) => r == Err::<(Vec<NodeDescriptor>, bool), PublishError>(PublishError::LookupFailed(e)),
            Ok(peers) => {
                let target = NodeId { bytes: *user_ipk };
                &&& r matches Ok((asked, own))
                &&& asked == peers
                &&& own == (peers@.len() < K || distance(*node_id, target) < distance(peers@[K - 1].id, target))
            },
        },
{
    match found {
        Err(e) => Err(PublishError::LookupFailed(e)),
        Ok(peers) => {
            let own: bool = self_should_store(node_id, &NodeId::from_bytes(*user_ipk), &peers);
            Ok((peers, own))
        },
    }
}

/// Whether a relay stored the record.
pub open spec fn did_store() -> spec_fn(ReplicaResult) -> bool {
    |r: ReplicaResult| r.outcome == StoreOutcome::Stored
}

/// Whether a relay did not store the record.
pub open spec fn did_not_store() -> spec_fn(ReplicaResult) -> bool {
    |r: ReplicaResult| r.outcome != StoreOutcome::Stored
}

/// The relays of results.
pub open spec fn relays_of(results: Seq<ReplicaResult>) -> Seq<NodeId> {
    Seq::new(results.len(), |i: int| results[i].node_id)
}

/// What a remote store came to; a relay that could not be reached, or that
/// answered something else, counts as one that refused the record.
pub fn replica_result(node_id: NodeId, reply: Option<StoreOutcome>) -> (r: ReplicaResult)
    ensures
        r.node_id == node_id,
        r.outcome == (match reply {
            Some(outcome) => outcome,
            None => StoreOutcome::BadSig,
        }),
{
    let outcome: StoreOutcome = match reply {
        Some(outcome) => outcome,
        None => StoreOutcome::BadSig,
    };
    ReplicaResult { node_id, outcome }
}

/// What a publish comes to, given what this relay did where it was to store
/// the record, and what the others did.
pub fn tally(own: Option<ReplicaResult>, remote: &Vec<ReplicaResult>) -> (r: Result<PublishOutcome, PublishError>)
    ensures
        ({
            let all = (match own {
                Some(o) => seq![o],
                None => Seq::<ReplicaResult>::empty(),
            }) + remote@;
            let stored = relays_of(all.filter(did_store()));
            match r {
                Ok(p) => {
                    &&& stored.len() >= K_MIN
                    &&& p.stored_at@ == stored
                    &&& p.failed_at@ == all.filter(did_not_store())
                },
                Err(e) => {
                    &&& stored.len() < K_MIN
                    &&& e matches PublishError::InsufficientReplicas { wanted, got }
                    &&& wanted == K_MIN
                    &&& got == stored.len()
                },
            }
        }),
        r matches Ok(p) ==> p.stored_at@.len() >= 2 && p.stored_at@.len() + p.failed_at@.len() == remote@.len() + (if own
            is Some {
            1int
        } else {
            0
        }),
        r matches Err(PublishError::InsufficientReplicas { wanted, got }) ==> wanted == 2 && got < 2,
{
    let ghost first: Seq<ReplicaResult> = match own {
        Some(o) => seq![o],
        None => Seq::<ReplicaResult>::empty(),
    };
    let ghost yes = did_store();
    let ghost no = did_not_store();
    let mut stored_at: Vec<NodeId> = Vec::new();
    let mut failed_at: Vec<ReplicaResult> = Vec::new();
    if let Some(o) = own {
        if o.outcome == StoreOutcome::Stored {
            stored_at.push(o.node_id);
        } else {
            failed_at.push(o);
        }
        proof {
            super::keyspace::lemma_filter_one(o, yes);
            super::keyspace::lemma_filter_one(o, no);
        }
    }
    proof {
        super::keyspace::lemma_filter_empty(first, yes);
        super::keyspace::lemma_filter_empty(first, no);
        assert(first.len() == 0 ==> first.take(0) =~= first);
        assert(first + remote@.take(0) =~= first);
        assert(stored_at@ =~= relays_of((first + remote@.take(0)).filter(yes)));
        assert(failed_at@ =~= (first + remote@.take(0)).filter(no));
    }
    let mut i: usize = 0;
    while i < remote.len()
        invariant
            0 <= i <= remote.len(),
            yes == did_store(),
            no == did_not_store(),
            stored_at@ == relays_of((first + remote@.take(i as int)).filter(yes)),
            failed_at@ == (first + remote@.take(i as int)).filter(no),
        decreases remote.len() - i,
    {
        let x: ReplicaResult = remote[i];
        let ghost s0 = stored_at@;
        proof {
            let sofar = first + remote@.take(i as int);
            assert(first + remote@.take(i + 1) =~= sofar + seq![x]);
            Seq::filter_distributes_over_add(sofar, seq![x], yes);
            Seq::filter_distributes_over_add(sofar, seq![x], no);
            super::keyspace::lemma_filter_one(x, yes);
            super::keyspace::lemma_filter_one(x, no);
        }
        if x.outcome == StoreOutcome::Stored {
            stored_at.push(x.node_id);
        } else {
            failed_at.push(x);
        }
        i = i + 1;
        assert(stored_at@ =~= relays_of((first + remote@.take(i as int)).filter(yes)));
        assert(failed_at@ =~= (first + remote@.take(i as int)).filter(no));
    }
    assert(remote@.take(i as int) =~= remote@);
    proof {
        lemma_nobody_left_out(first + remote@);
    }
    if stored_at.len() < K_MIN {
        return Err(PublishError::InsufficientReplicas { wanted: K_MIN, got: stored_at.len() });
    }
    Ok(PublishOutcome { stored_at, failed_at })
}

/// This relay stores a record exactly where it is a home of the record's key,
/// when the lookup found what the routing table knows.
pub proof fn law_home_stores_its_records(t: TableView, node_id: NodeId, target: NodeId, s: Seq<RoutingEntry>)
    requires
        t.wf(),
        t.self_id == node_id,
        is_nearest(t.active(), target, K as nat, s),
    ensures
        ({
            let found = descriptors(s);
            (found.len() < K || distance(node_id, target) < distance(found[K - 1].id, target)) <==> among_k_closest(
                t,
                node_id,
                target,
            )
        }),
{
    law_kth_decides(t, target, K as nat, s, distance(node_id, target));
    law_active_peers(t);
    if s.len() >= K {
        let kth = s[K - 1];
        assert(t.active().contains(kth));
        if distance(node_id, target) == distance(kth.id, target) {
            super::id::law_distance_tells_apart(node_id, kth.id, target);
            let k = choose|k: int| 0 <= k < t.active().len() && t.active()[k] == kth;
            assert(super::routing::holds_id(t.active(), kth.id));
            assert(t.knows(node_id));
        }
    }
}

/// Every relay stored the record or did not.
proof fn lemma_nobody_left_out(all: Seq<ReplicaResult>)
    ensures
        all.filter(did_store()).len() + all.filter(did_not_store()).len() == all.len(),
    decreases all.len(),
{
    reveal(Seq::filter);
    if all.len() > 0 {
        lemma_nobody_left_out(all.drop_last());
    }
}

/// Each relay that was asked is told apart by what it did: those that stored the
/// record count, all others are failures, and nobody is left out or counted
/// twice.
pub proof fn law_replicas_are_told_apart(all: Seq<ReplicaResult>, x: ReplicaResult)
    ensures
        all.filter(did_store()).len() + all.filter(did_not_store()).len() == all.len(),
        all.push(x).filter(did_store()).len() == all.filter(did_store()).len() + (if x.outcome == StoreOutcome::Stored {
            1int
        } else {
            0
        }),
        x.outcome != StoreOutcome::Stored ==> all.push(x).filter(did_not_store()) == all.filter(did_not_store()).push(x),
        x.outcome == StoreOutcome::Stored ==> relays_of(all.push(x).filter(did_store())) == relays_of(
            all.filter(did_store()),
        ).push(x.node_id),
{
    reveal(Seq::filter);
    lemma_nobody_left_out(all);
    assert(all.push(x).drop_last() =~= all);
    if x.outcome == StoreOutcome::Stored {
        assert(relays_of(all.push(x).filter(did_store())) =~= relays_of(all.filter(did_store())).push(x.node_id));
    }
}

} // verus!
