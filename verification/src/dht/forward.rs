//! The home's side of forwarding: a message that another relay hands over for
//! a user whose home this relay is.

use super::id::NodeId;
use super::routing::{
    among_k_closest, descriptors, holds_id, law_active_peers, place_of, self_in_top_k, RoutingEntry,
    RoutingTable, TableView,
};
use super::sig::{ed25519_signed, signature_holds};
use super::store::{enqueue_for_home, enqueued};
use super::wire::{DispatchP, ForwardOutcome};
use super::{Dht, DhtView};
use vstd::prelude::*;

verus! {

/// A message that another relay hands over. Where the recipient is connected
/// here, `delivered` tells that the message was handed on.
#[derive(Debug)]
pub struct Forward {
    pub dispatch: DispatchP,
    /// What the sender of the message signed.
    pub dispatch_transcript: Vec<u8>,
    pub sender_relay_id: NodeId,
    pub timestamp: u64,
    pub sig: [u8; 64],
    /// What the relay signed.
    pub transcript: Vec<u8>,
    pub delivered: bool,
}

/// The key of an active peer.
pub open spec fn known_key(t: TableView, id: NodeId) -> Option<[u8; 32]> {
    let active = t.active();
    if holds_id(active, id) {
        Some(active[place_of(active, id)].pubkey)
    } else {
        None
    }
}

/// The relay that hands the message over is an active peer and signed.
pub open spec fn relay_vouches(d: DhtView, f: Forward) -> bool {
    &&& known_key(d.routing, f.sender_relay_id) matches Some(key)
    &&& ed25519_signed(key@, f.transcript@, f.sig@)
}

/// The sender of the message signed it.
pub open spec fn sender_vouches(f: Forward) -> bool {
    ed25519_signed(f.dispatch.from@, f.dispatch_transcript@, f.dispatch.sig@)
}

/// Why a message is refused, given whether the relay and the sender signed and
/// whether this relay is a home of the recipient.
pub open spec fn forward_refusal(relay_signed: bool, sender_signed: bool, home: bool) -> Option<ForwardOutcome> {
    if !relay_signed || !sender_signed {
        Some(ForwardOutcome::BadSig)
    } else if !home {
        Some(ForwardOutcome::NotOwner)
    } else {
        None
    }
}

/// Why this relay refuses a message.
pub open spec fn refused(d: DhtView, f: Forward) -> Option<ForwardOutcome> {
    forward_refusal(
        relay_vouches(d, f),
        sender_vouches(f),
        among_k_closest(d.routing, d.node_id, NodeId { bytes: f.dispatch.to }),
    )
}

/// What a message does to the state and what its relay is answered, given why
/// it is refused. What was delivered is not queued.
pub open spec fn forward_answered(
    before: DhtView,
    after: DhtView,
    f: Forward,
    now_ms: u64,
    refusal: Option<ForwardOutcome>,
    r: ForwardOutcome,
) -> bool {
    match refusal {
        Some(outcome) => r == outcome && after == before,
        None => if f.delivered {
            r == ForwardOutcome::Delivered && after == before
        } else {
            enqueued(before, after, f.dispatch.to, f.dispatch@, now_ms, r)
        },
    }
}

/// Finds the key of an active peer.
fn find_key(routing: &RoutingTable, id: &NodeId) -> (r: Option<[u8; 32]>)
    requires
        routing@.wf(),
    ensures
        r == known_key(routing@, *id),
{
    let ghost active = routing@.active();
    let peers = routing.active_peers();
    let mut i: usize = 0;
    while i < peers.len()
        invariant
            0 <= i <= peers.len(),
            peers@ == descriptors(active),
            active == routing@.active(),
            routing@.wf(),
            forall|j: int| 0 <= j < i ==> (#[trigger] active[j]).id != *id,
        decreases peers.len() - i,
    {
        assert(peers@[i as int] == active[i as int].as_descriptor());
        if peers[i].id.same(id) {
            proof {
                law_active_peers(routing@);
                assert(holds_id(active, *id));
                assert(place_of(active, *id) == i);
            }
            return Some(peers[i].pubkey);
        }
        i = i + 1;
    }
    None
}

/// Tells why a message is refused, given whether the relay and the sender
/// signed and whether this relay is a home of the recipient.
pub fn gate_forward(relay_signed: bool, sender_signed: bool, home: bool) -> (r: Option<ForwardOutcome>)
    ensures
        r == forward_refusal(relay_signed, sender_signed, home),
{
    if !relay_signed || !sender_signed {
        Some(ForwardOutcome::BadSig)
    } else if !home {
        Some(ForwardOutcome::NotOwner)
    } else {
        None
    }
}

/// Tells why this relay refuses a message; `None` where it takes it, and the
/// recipient, if connected, is to have it.
pub fn forward_is_refused(dht: &Dht, f: &Forward) -> (r: Option<ForwardOutcome>)
    requires
        dht.wf(),
    ensures
        r == refused(dht@, *f),
{
    let relay_signed: bool = match find_key(&dht.routing, &f.sender_relay_id) {
        Some(key) => signature_holds(&key, &f.transcript, &f.sig),
        None => false,
    };
    let sender_signed: bool = signature_holds(&f.dispatch.from, &f.dispatch_transcript, &f.dispatch.sig);
    let home: bool = self_in_top_k(&dht.routing, &dht.node_id, &NodeId::from_bytes(f.dispatch.to));
    gate_forward(relay_signed, sender_signed, home)
}

/// Answers a message, given why it is refused.
pub fn answer_forward(dht: &mut Dht, f: &Forward, now_ms: u64, refusal: Option<ForwardOutcome>) -> (r: ForwardOutcome)
    requires
        old(dht).wf(),
    ensures
        final(dht).wf(),
        forward_answered(old(dht)@, final(dht)@, *f, now_ms, refusal, r),
{
    if let Some(outcome) = refusal {
        return outcome;
    }
    if f.delivered {
        return ForwardOutcome::Delivered;
    }
    enqueue_for_home(dht, &f.dispatch.to, &f.dispatch, now_ms)
}

/// Answers a message that another relay hands over: it is delivered to a
/// recipient who is connected here, and queued for any other.
pub fn handle_forward_rpc(dht: &mut Dht, f: &Forward, now_ms: u64) -> (r: ForwardOutcome)
    requires
        old(dht).wf(),
    ensures
        final(dht).wf(),
        forward_answered(old(dht)@, final(dht)@, *f, now_ms, refused(old(dht)@, *f), r),
{
    let refusal: Option<ForwardOutcome> = forward_is_refused(dht, f);
    answer_forward(dht, f, now_ms, refusal)
}

/// A relay that vouches for a message is an active peer, and nothing is taken
/// that its relay or its sender did not sign.
pub proof fn law_only_signed_messages_enter(
    before: DhtView,
    after: DhtView,
    f: Forward,
    now_ms: u64,
    r: ForwardOutcome,
)
    requires
        before.routing.wf(),
        forward_answered(before, after, f, now_ms, refused(before, f), r),
        r == ForwardOutcome::Stored || r == ForwardOutcome::Delivered,
    ensures
        before.routing.knows(f.sender_relay_id),
        relay_vouches(before, f),
        sender_vouches(f),
        among_k_closest(before.routing, before.node_id, NodeId { bytes: f.dispatch.to }),
{
    law_active_peers(before.routing);
}

/// A message that is not stored leaves everything but the counters as it was.
pub proof fn law_refused_message_leaves_no_trace(
    before: DhtView,
    after: DhtView,
    f: Forward,
    now_ms: u64,
    r: ForwardOutcome,
)
    requires
        forward_answered(before, after, f, now_ms, refused(before, f), r),
        r != ForwardOutcome::Stored,
    ensures
        after == (DhtView { metrics: after.metrics, ..before }),
        r != ForwardOutcome::QueueFull ==> after == before,
{
}

/// What a message must have to be taken: an active peer with the id of the relay
/// that hands it over, whose key the relay signed with; the signature of its
/// sender; and a recipient of whom this relay is a home. Where one of the
/// signatures is missing it is refused as badly signed, and where only the home
/// is wrong, as sent to the wrong relay.
pub proof fn law_message_needs_all_of_it(
    before: DhtView,
    after: DhtView,
    f: Forward,
    now_ms: u64,
    r: ForwardOutcome,
    e: RoutingEntry,
)
    requires
        before.routing.wf(),
        forward_answered(before, after, f, now_ms, refused(before, f), r),
        before.routing.active().contains(e),
        e.id == f.sender_relay_id,
    ensures
        ({
            let signed = ed25519_signed(e.pubkey@, f.transcript@, f.sig@) && ed25519_signed(
                f.dispatch.from@,
                f.dispatch_transcript@,
                f.dispatch.sig@,
            );
            let home = among_k_closest(before.routing, before.node_id, NodeId { bytes: f.dispatch.to });
            &&& !signed ==> r == ForwardOutcome::BadSig && after == before
            &&& r == ForwardOutcome::NotOwner <==> signed && !home
            &&& r == ForwardOutcome::Delivered <==> signed && home && f.delivered
            &&& r == ForwardOutcome::Stored || r == ForwardOutcome::QueueFull ==> signed && home && !f.delivered
            &&& signed && home && !f.delivered ==> enqueued(before, after, f.dispatch.to, f.dispatch@, now_ms, r)
        }),
{
    let active = before.routing.active();
    law_active_peers(before.routing);
    let k = choose|k: int| 0 <= k < active.len() && active[k] == e;
    assert(active[k].id == f.sender_relay_id);
    let p = place_of(active, f.sender_relay_id);
    assert(k < p ==> active[k].id != active[p].id);
    assert(p < k ==> active[p].id != active[k].id);
    assert(p == k);
}

/// A relay that is no active peer hands over nothing, whatever it signed.
pub proof fn law_strangers_hand_over_nothing(
    before: DhtView,
    after: DhtView,
    f: Forward,
    now_ms: u64,
    r: ForwardOutcome,
)
    requires
        forward_answered(before, after, f, now_ms, refused(before, f), r),
        forall|k: int| 0 <= k < before.routing.active().len() ==> (#[trigger] before.routing.active()[k]).id
            != f.sender_relay_id,
    ensures
        r == ForwardOutcome::BadSig,
        after == before,
{
}

} // verus!
