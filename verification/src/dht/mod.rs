//! The peer mesh of a relay: Kademlia routing, the sticky-home queue of
//! messages and the stashes of MLS key packages and welcomes.
//!
//! [`Dht`] holds the state; the logic lives in the modules beside it.

pub mod bootstrap;
pub mod bytes;
pub mod cache;
pub mod config;
pub mod dedupe;
pub mod forward;
pub mod handler;
pub mod hash;
pub mod id;
pub mod key_helpers;
pub mod keyspace;
pub mod lookup;
pub mod metrics;
pub mod mls_fanout;
pub mod mls_kp;
pub mod mls_welcome;
pub mod mls_welcome_originate;
pub mod publish;
pub mod push_wake;
pub mod queue_drain;
pub mod rate_limit;
pub mod routing;
pub mod sig;
pub mod store;
pub mod sync;
pub mod tls_extract;
pub mod wire;

use self::config::DhtConfig;
use self::id::{NodeId, PeerAddr};
use self::keyspace::{Keyspace, KeyspaceView};
use self::metrics::{zeroed, Metrics};
use self::rate_limit::{
    fresh_limiters, BucketsView, KpFetchLimiters, PairsView, PerPeerLimiters, PerPeerView, WelcomeLimiters,
};
use self::routing::{BucketView, RoutingTable, TableView};
use self::sync::state::{MerkleState, SliceView, SLICES};
use self::wire::{DispatchP, DispatchView, KeyPackageRecord, RecordView, StoredWelcome, StoredWelcomeView, WireLimits};
use vstd::prelude::*;

verus! {

/// The tables of a relay.
#[derive(Debug)]
pub struct Store {
    /// Messages for offline users, by [`store::MessageKey`].
    pub queue: Keyspace<DispatchP>,
    /// Key packages, by stash key and reference.
    pub keypackage: Keyspace<KeyPackageRecord>,
    /// Welcomes, by stash key and id.
    pub welcome: Keyspace<StoredWelcome>,
}

/// A cached connection to a peer. The connection itself is known by a handle.
#[derive(Clone, Copy, Debug, PartialEq, Eq)]
pub struct PeerConn {
    pub id: NodeId,
    /// Handle of the connection.
    pub conn: u64,
    /// Public key of the peer, zero where none was presented.
    pub pubkey: [u8; 32],
}

/// A push gateway as the resolver lists it.
#[derive(Clone, Copy, Debug, PartialEq, Eq)]
pub struct GatewayDescriptor {
    pub id: NodeId,
    pub addr: PeerAddr,
}

/// No peer has two cached connections.
pub open spec fn conns_distinct(conns: Seq<PeerConn>) -> bool {
    forall|i: int, j: int| 0 <= i < j < conns.len() ==> (#[trigger] conns[i]).id != (#[trigger] conns[j]).id
}

/// The state of a relay in the mesh.
pub struct Dht {
    pub routing: RoutingTable,
    pub store: Store,
    /// Connections to peers that are open now.
    pub peer_conns: Vec<PeerConn>,
    /// This relay's id.
    pub node_id: NodeId,
    pub cfg: DhtConfig,
    /// Limits of the wire codec.
    pub limits: WireLimits,
    pub metrics: Metrics,
    pub merkle: MerkleState,
    pub rate_limiters: PerPeerLimiters,
    pub kp_fetch_limiters: KpFetchLimiters,
    pub welcome_limiters: WelcomeLimiters,
    /// Handle of the endpoint that dials peers.
    pub endpoint: Option<u64>,
    /// Handle of the client configuration that dials peers.
    pub peer_client_cfg: Option<u64>,
    /// Handle of the map of connected clients.
    pub clients: Option<u64>,
    /// Handle of the resolver session.
    pub resolver: Option<u64>,
    /// Push pseudonyms by user.
    pub push_pseudonyms: Option<Vec<([u8; 32], [u8; 32])>>,
    /// Push gateways that the resolver knows.
    pub push_gateways: Vec<GatewayDescriptor>,
}

/// What a [`Dht`] holds.
#[verifier::ext_equal]
pub struct DhtView {
    pub routing: TableView,
    pub queue: KeyspaceView<DispatchView>,
    pub keypackage: KeyspaceView<RecordView>,
    pub welcome: KeyspaceView<StoredWelcomeView>,
    pub peer_conns: Seq<PeerConn>,
    pub node_id: NodeId,
    pub cfg: DhtConfig,
    pub limits: WireLimits,
    pub metrics: Metrics,
    pub merkle: Seq<SliceView>,
    pub rate_limiters: PerPeerView,
    pub kp_fetch_limiters: PairsView,
    pub welcome_limiters: BucketsView,
    pub endpoint: Option<u64>,
    pub peer_client_cfg: Option<u64>,
    pub clients: Option<u64>,
    pub resolver: Option<u64>,
    pub push_pseudonyms: Option<Seq<([u8; 32], [u8; 32])>>,
    pub push_gateways: Seq<GatewayDescriptor>,
}

impl View for Dht {
    type V = DhtView;

    open spec fn view(&self) -> DhtView {
        DhtView {
            routing: self.routing@,
            queue: self.store.queue@,
            keypackage: self.store.keypackage@,
            welcome: self.store.welcome@,
            peer_conns: self.peer_conns@,
            node_id: self.node_id,
            cfg: self.cfg,
            limits: self.limits,
            metrics: self.metrics,
            merkle: self.merkle@,
            rate_limiters: self.rate_limiters@,
            kp_fetch_limiters: self.kp_fetch_limiters@,
            welcome_limiters: self.welcome_limiters@,
            endpoint: self.endpoint,
            peer_client_cfg: self.peer_client_cfg,
            clients: self.clients,
            resolver: self.resolver,
            push_pseudonyms: match self.push_pseudonyms {
                Some(v) => Some(v@),
                None => None,
            },
            push_gateways: self.push_gateways@,
        }
    }
}

impl Dht {
    /// What holds of the state between calls: the routing table is this
    /// relay's and well formed, the tables are in order, and no peer is
    /// cached twice.
    pub open spec fn wf(&self) -> bool {
        &&& self.routing@.wf()
        &&& self.routing@.self_id == self.node_id
        &&& self.store.queue@.wf()
        &&& self.store.keypackage@.wf()
        &&& self.store.welcome@.wf()
        &&& conns_distinct(self.peer_conns@)
        &&& self.merkle.wf()
        &&& self.limits.max_find_node_results < usize::MAX
    }

    /// The state of a relay that just started, over the tables it opened.
    pub fn new(
        node_id: NodeId,
        cfg: DhtConfig,
        limits: WireLimits,
        store: Store,
        global_per_sec: u32,
        global_burst: u32,
        now: u64,
    ) -> (r: Dht)
        requires
            store.queue@.wf(),
            store.keypackage@.wf(),
            store.welcome@.wf(),
            global_per_sec <= 1_000_000_000,
            limits.max_find_node_results < usize::MAX,
        ensures
            r.wf(),
            r@.routing.self_id == node_id,
            forall|i: int| 0 <= i < config::BUCKETS ==> (#[trigger] r@.routing.buckets[i]) == (BucketView {
                entries: Seq::empty(),
                refresh_at: now,
                candidates: Seq::empty(),
            }),
            r@.routing.active().len() == 0,
            r@.merkle.len() == SLICES,
            forall|i: int| 0 <= i < SLICES ==> #[trigger] r@.merkle[i] == Map::<[u8; 32], [u8; 32]>::empty(),
            r@ == (DhtView {
                routing: r@.routing,
                queue: store.queue@,
                keypackage: store.keypackage@,
                welcome: store.welcome@,
                peer_conns: Seq::empty(),
                node_id,
                cfg,
                limits,
                metrics: zeroed(),
                merkle: r@.merkle,
                rate_limiters: fresh_limiters(global_per_sec, global_burst),
                kp_fetch_limiters: PairsView::fresh((60_000_000_000, 60)),
                welcome_limiters: BucketsView::fresh((15_000_000_000, 240)),
                endpoint: None,
                peer_client_cfg: None,
                clients: None,
                resolver: None,
                push_pseudonyms: None,
                push_gateways: Seq::empty(),
            }),
    {
        Dht {
            routing: RoutingTable::empty(node_id, now),
            store,
            peer_conns: Vec::new(),
            node_id,
            cfg,
            limits,
            metrics: Metrics::new(),
            merkle: MerkleState::empty(),
            rate_limiters: PerPeerLimiters::new(global_per_sec, global_burst),
            kp_fetch_limiters: KpFetchLimiters::new(),
            welcome_limiters: WelcomeLimiters::new(),
            endpoint: None,
            peer_client_cfg: None,
            clients: None,
            resolver: None,
            push_pseudonyms: None,
            push_gateways: Vec::new(),
        }
    }

    /// Gives the relay what it dials peers with.
    pub fn attach_dialer(&mut self, endpoint: u64, peer_client_cfg: u64)
        requires
            old(self).wf(),
        ensures
            final(self).wf(),
            final(self)@ == (DhtView {
                endpoint: Some(endpoint),
                peer_client_cfg: Some(peer_client_cfg),
                ..old(self)@
            }),
    {
        self.endpoint = Some(endpoint);
        self.peer_client_cfg = Some(peer_client_cfg);
    }

    /// Gives the relay the map of connected clients.
    pub fn attach_clients(&mut self, clients: u64)
        requires
            old(self).wf(),
        ensures
            final(self).wf(),
            final(self)@ == (DhtView { clients: Some(clients), ..old(self)@ }),
    {
        self.clients = Some(clients);
    }

    /// Gives the relay the push pseudonyms of its users.
    pub fn attach_push(&mut self, pseudonyms: Vec<([u8; 32], [u8; 32])>)
        requires
            old(self).wf(),
        ensures
            final(self).wf(),
            final(self)@ == (DhtView { push_pseudonyms: Some(pseudonyms@), ..old(self)@ }),
    {
        self.push_pseudonyms = Some(pseudonyms);
    }

    /// Gives the relay its resolver session, in place of an earlier one.
    pub fn attach_resolver(&mut self, handle: u64)
        requires
            old(self).wf(),
        ensures
            final(self).wf(),
            final(self)@ == (DhtView { resolver: Some(handle), ..old(self)@ }),
    {
        self.resolver = Some(handle);
    }

    /// Forgets every cached connection. The handles that come back are to be
    /// closed; each is counted.
    pub fn shutdown(&mut self) -> (r: Vec<u64>)
        requires
            old(self).wf(),
        ensures
            final(self).wf(),
            r@ == Seq::new(old(self)@.peer_conns.len(), |i: int| old(self)@.peer_conns[i].conn),
            final(self)@ == (DhtView {
                peer_conns: Seq::empty(),
                metrics: Metrics {
                    peer_conns_closed: bumped_by(
                        old(self)@.metrics.peer_conns_closed,
                        old(self)@.peer_conns.len(),
                    ),
                    ..old(self)@.metrics
                },
                ..old(self)@
            }),
    {
        let ghost before = self@;
        let mut out: Vec<u64> = Vec::new();
        let mut i: usize = 0;
        while i < self.peer_conns.len()
            invariant
                0 <= i <= self.peer_conns.len(),
                self.wf(),
                out@ == Seq::new(i as nat, |j: int| before.peer_conns[j].conn),
                self@ == (DhtView {
                    metrics: Metrics {
                        peer_conns_closed: bumped_by(before.metrics.peer_conns_closed, i as nat),
                        ..before.metrics
                    },
                    ..before
                }),
            decreases self.peer_conns.len() - i,
        {
            out.push(self.peer_conns[i].conn);
            self.metrics.inc_peer_conns_closed();
            i = i + 1;
            assert(out@ =~= Seq::new(i as nat, |j: int| before.peer_conns[j].conn));
        }
        self.peer_conns.clear();
        assert(self@.peer_conns =~= Seq::empty());
        out
    }
}

/// A counter after `n` more events.
pub open spec fn bumped_by(count: u64, n: nat) -> u64
    decreases n,
{
    if n == 0 {
        count
    } else {
        metrics::bumped(bumped_by(count, (n - 1) as nat))
    }
}

/// Several events count as many, as far as 64 bits hold.
pub proof fn law_events_add_up(count: u64, n: nat)
    ensures
        bumped_by(count, n) as int == (count + n) % 0x1_0000_0000_0000_0000,
    decreases n,
{
    if n > 0 {
        law_events_add_up(count, (n - 1) as nat);
    }
}

} // verus!
