//! Which relays are asked when a request goes to the homes of a key.

use super::config::K;
use super::id::{NodeDescriptor, NodeId};
use super::publish::{law_home_stores_its_records, self_should_store};
use super::routing::{among_k_closest, descriptors, is_nearest, nearest_descriptors, RoutingEntry};
use super::Dht;
use vstd::prelude::*;

verus! {

/// The peers closest to `target`, and whether this relay is one of its homes
/// beside them. A table with fewer than [`K`] peers says yes.
pub fn closest_homes_with_self(dht: &Dht, target: &NodeId) -> (r: (Vec<NodeDescriptor>, bool))
    requires
        dht.wf(),
    ensures
        nearest_descriptors(dht@.routing, *target, K as nat, r.0@),
        r.1 == among_k_closest(dht@.routing, dht@.node_id, *target),
{
    let homes: Vec<NodeDescriptor> = dht.routing.find_closest(target, K);
    let self_in_k: bool = self_should_store(&dht.node_id, target, &homes);
    proof {
        let s = choose|s: Seq<RoutingEntry>|
            #[trigger] is_nearest(dht@.routing.active(), *target, K as nat, s) && homes@ == descriptors(s);
        law_home_stores_its_records(dht@.routing, dht@.node_id, *target, s);
    }
    (homes, self_in_k)
}

} // verus!
