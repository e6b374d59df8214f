//! Inbound connections and requests of other relays: the signed hello, the
//! admission of streams, and the dispatch of requests.

use super::forward::{forward_answered, handle_forward_rpc, refused, Forward};
use super::hash::blake3_hash;
use super::id::{distance, NodeDescriptor, NodeId, PeerAddr};
use super::lookup::at_most;
use super::metrics::{bumped, Counter, Metrics};
use super::mls_kp::{
    batch_result, handle_keypackage_fetch, handle_keypackage_publish, handle_keypackage_refill,
    publish_outcome, refill_outcome,
};
use super::mls_welcome::{handle_welcome_ack, handle_welcome_fetch, handle_welcome_publish};
use super::queue_drain::{
    ack_is_honoured, after_ack, clocks_agree, fetch_page, handle_queue_fetch_ack_rpc,
    handle_queue_fetch_rpc, not_the, without_peer,
};
use super::rate_limit::{checked, RpcClass, RpcKind};
use super::routing::{
    among_k_closest, descriptors, is_nearest, law_heard_address_is_given, nearest_descriptors, self_in_top_k,
    RoutingEntry, RoutingTable, TableView,
};
use super::sig::{
    ed25519_key_parses, ed25519_public_key, ed25519_signature, ed25519_signed, key_parses,
    public_key_of, sign_with, signature_holds,
};
use super::sync::merkle::NodePath;
use super::sync::rpc::{
    handle_fetch_record, handle_merkle_diff, handle_merkle_summary, records_of, tombstones_of,
    FetchRecordResp, Held,
};
use super::sync::state::{is_diff, is_summary, MerkleDiffResp};
use super::tls_extract::{extract_pubkey_from_leaf_der, key_verdict, x509_leaf};
use super::wire::{
    same_array, CloseReason, ForwardOutcome, KeyPackageBatch, KeyPackageFetchOutcome,
    KeyPackageFetchReq, KeyPackagePublishOutcome, KeyPackageRefillOutcome, PresenceRecord,
    QueueFetch, QueueFetchAck, QueueFetchAckResp, QueueFetchResp, StoreOutcome, TombstoneOutcome,
    WelcomeAckReq, WelcomeAckResp, WelcomeFetchOutcome, WelcomeFetchReq, WelcomePublishOutcome,
    WelcomePublishReq,
};
use super::{conns_distinct, mls_kp, mls_welcome, Dht, DhtView, PeerConn};
use vstd::prelude::*;

verus! {

/// Streams of one peer that are served at the same time.
pub const MAX_CONCURRENT_STREAMS_PER_PEER: usize = 16;

/// How long a peer may take to say hello, in milliseconds.
pub const HELLO_RECV_TIMEOUT_MS: u64 = 5_000;

/// How far the clock of a hello may be off, in milliseconds.
pub const MAX_HELLO_SKEW_MS: u64 = 60_000;

// ---------------------------------------------------------------------------
// Hello
// ---------------------------------------------------------------------------

/// What a relay says first on a connection: who it is, signed.
#[derive(Debug)]
pub struct DhtHello {
    pub node_id: NodeId,
    pub pubkey: [u8; 32],
    pub timestamp: u64,
    pub sig: [u8; 64],
    /// The bytes that `sig` signs.
    pub transcript: Vec<u8>,
}

/// Why a hello is refused.
#[derive(Clone, Copy, Debug, PartialEq, Eq, Structural)]
pub enum DhtHelloVerifyError {
    /// The id does not belong to the public key.
    IdMismatch,
    /// The public key is not one.
    MalformedPubkey,
    BadSignature,
    ClockSkew,
}

/// What the checks of a hello come to, in their order.
pub open spec fn hello_verdict(id_bound: bool, key_ok: bool, signed: bool, fresh: bool) -> Result<
    (),
    DhtHelloVerifyError,
> {
    if !id_bound {
        Err(DhtHelloVerifyError::IdMismatch)
    } else if !key_ok {
        Err(DhtHelloVerifyError::MalformedPubkey)
    } else if !signed {
        Err(DhtHelloVerifyError::BadSignature)
    } else if !fresh {
        Err(DhtHelloVerifyError::ClockSkew)
    } else {
        Ok(())
    }
}

/// Judges a hello, given whether its id belongs to its key, whether the key is
/// one, and whether it signed.
pub fn judge_hello(timestamp: u64, id_bound: bool, key_ok: bool, signed: bool, now_ms: u64) -> (r: Result<
    (),
    DhtHelloVerifyError,
>)
    ensures
        r == hello_verdict(id_bound, key_ok, signed, clocks_agree(now_ms, timestamp, MAX_HELLO_SKEW_MS)),
{
    if !id_bound {
        return Err(DhtHelloVerifyError::IdMismatch);
    }
    if !key_ok {
        return Err(DhtHelloVerifyError::MalformedPubkey);
    }
    if !signed {
        return Err(DhtHelloVerifyError::BadSignature);
    }
    let skew: u64 = if now_ms <= timestamp {
        timestamp - now_ms
    } else {
        now_ms - timestamp
    };
    if skew > MAX_HELLO_SKEW_MS {
        return Err(DhtHelloVerifyError::ClockSkew);
    }
    Ok(())
}

/// What the checks of a hello come to.
pub open spec fn verdict_on_hello(hello: DhtHello, now_ms: u64) -> Result<(), DhtHelloVerifyError> {
    hello_verdict(
        blake3_hash(hello.pubkey@) == hello.node_id.bytes,
        ed25519_key_parses(hello.pubkey@),
        ed25519_signed(hello.pubkey@, hello.transcript@, hello.sig@),
        clocks_agree(now_ms, hello.timestamp, MAX_HELLO_SKEW_MS),
    )
}

impl DhtHello {
    /// Checks that the id belongs to the key, that the key is one and signed,
    /// and that the clock is not off.
    pub fn verify(&self, now_ms: u64) -> (r: Result<(), DhtHelloVerifyError>)
        ensures
            r == verdict_on_hello(*self, now_ms),
    {
        let derived: NodeId = NodeId::new(&self.pubkey);
        judge_hello(
            self.timestamp,
            derived.same(&self.node_id),
            key_parses(&self.pubkey),
            signature_holds(&self.pubkey, &self.transcript, &self.sig),
            now_ms,
        )
    }
}

/// Why the connection is closed after a hello that is refused.
pub open spec fn hello_close_reason(e: DhtHelloVerifyError) -> CloseReason {
    match e {
        DhtHelloVerifyError::IdMismatch | DhtHelloVerifyError::MalformedPubkey => CloseReason::DhtMalformedKey,
        DhtHelloVerifyError::BadSignature => CloseReason::DhtBadSignature,
        DhtHelloVerifyError::ClockSkew => CloseReason::DhtClockSkew,
    }
}

/// Checks a hello; a refusal says why the connection is closed.
pub fn verify_hello_with_close_reason(hello: &DhtHello, now_ms: u64) -> (r: Result<(), CloseReason>)
    ensures
        r == (match verdict_on_hello(*hello, now_ms) {
            Ok(()) => Ok(()),
            Err(e) => Err(hello_close_reason(e)),
        }),
{
    match hello.verify(now_ms) {
        Ok(()) => Ok(()),
        Err(DhtHelloVerifyError::IdMismatch) => Err(CloseReason::DhtMalformedKey),
        Err(DhtHelloVerifyError::MalformedPubkey) => Err(CloseReason::DhtMalformedKey),
        Err(DhtHelloVerifyError::BadSignature) => Err(CloseReason::DhtBadSignature),
        Err(DhtHelloVerifyError::ClockSkew) => Err(CloseReason::DhtClockSkew),
    }
}

/// The public key of this relay.
pub fn own_pubkey(secret: &[u8; 32]) -> (r: [u8; 32])
    ensures
        r == ed25519_public_key(secret@),
{
    public_key_of(secret)
}

/// The hello of this relay: `transcript` is what the codec makes of the id,
/// the public key and the time.
pub fn make_hello(node_id: NodeId, secret: &[u8; 32], timestamp: u64, transcript: Vec<u8>) -> (r: DhtHello)
    ensures
        r.node_id == node_id,
        r.pubkey == ed25519_public_key(secret@),
        r.timestamp == timestamp,
        r.sig == ed25519_signature(secret@, transcript@),
        r.transcript == transcript,
{
    let sig: [u8; 64] = sign_with(secret, &transcript);
    DhtHello { node_id, pubkey: public_key_of(secret), timestamp, sig, transcript }
}

/// A peer whose hello was accepted.
#[derive(Clone, Copy, Debug, PartialEq, Eq)]
pub struct AuthenticatedPeer {
    pub node_id: NodeId,
    pub pubkey: [u8; 32],
}

impl AuthenticatedPeer {
    /// The peer with this id and this public key.
    pub fn new(node_id: NodeId, pubkey: [u8; 32]) -> (r: AuthenticatedPeer)
        ensures
            r.node_id == node_id,
            r.pubkey == pubkey,
    {
        AuthenticatedPeer { node_id, pubkey }
    }
}

/// What comes first on an inbound connection.
#[derive(Debug)]
pub enum HelloEvent {
    /// The connection ended.
    ConnectionEnded,
    /// Nothing came in time.
    TimedOut,
    /// What came is not a hello.
    Malformed,
    Hello(DhtHello),
}

/// The peer behind a hello, or why the connection is closed; `None` where it
/// has ended by itself.
pub open spec fn heard_hello(event: HelloEvent, now_ms: u64) -> Result<AuthenticatedPeer, Option<CloseReason>> {
    match event {
        HelloEvent::ConnectionEnded => Err(None),
        HelloEvent::TimedOut => Err(Some(CloseReason::DhtClockSkew)),
        HelloEvent::Malformed => Err(Some(CloseReason::DhtMalformedKey)),
        HelloEvent::Hello(hello) => match verdict_on_hello(hello, now_ms) {
            Ok(()) => Ok(AuthenticatedPeer { node_id: hello.node_id, pubkey: hello.pubkey }),
            Err(e) => Err(Some(hello_close_reason(e))),
        },
    }
}

/// Takes what comes first on an inbound connection. Every hello that is
/// accepted is counted, and every refusal.
pub fn recv_and_verify_hello(dht: &mut Dht, event: &HelloEvent, now_ms: u64) -> (r: Result<
    AuthenticatedPeer,
    Option<CloseReason>,
>)
    requires
        old(dht).wf(),
    ensures
        final(dht).wf(),
        r == heard_hello(*event, now_ms),
        r matches Ok(auth) ==> event matches HelloEvent::Hello(hello) && auth.node_id == hello.node_id && auth.pubkey
            == hello.pubkey && blake3_hash(auth.pubkey@) == auth.node_id.bytes,
        r is Ok ==> final(dht)@.metrics == old(dht)@.metrics.counted(Counter::DhtHelloAccepted),
        r is Err ==> final(dht)@.metrics == old(dht)@.metrics.counted(Counter::DhtHelloRejected),
        final(dht)@ == (DhtView {
            metrics: if r is Ok {
                Metrics {
                    dht_hello_accepted: bumped(old(dht)@.metrics.dht_hello_accepted),
                    ..old(dht)@.metrics
                }
            } else {
                Metrics {
                    dht_hello_rejected: bumped(old(dht)@.metrics.dht_hello_rejected),
                    ..old(dht)@.metrics
                }
            },
            ..old(dht)@
        }),
{
    let r: Result<AuthenticatedPeer, Option<CloseReason>> = match event {
        HelloEvent::ConnectionEnded => Err(None),
        HelloEvent::TimedOut => Err(Some(CloseReason::DhtClockSkew)),
        HelloEvent::Malformed => Err(Some(CloseReason::DhtMalformedKey)),
        HelloEvent::Hello(hello) => match verify_hello_with_close_reason(hello, now_ms) {
            Ok(()) => Ok(AuthenticatedPeer::new(hello.node_id, hello.pubkey)),
            Err(reason) => Err(Some(reason)),
        },
    };
    if r.is_err() {
        dht.metrics.inc_dht_hello_rejected();
    } else {
        dht.metrics.inc_dht_hello_accepted();
    }
    r
}

// ---------------------------------------------------------------------------
// Connections
// ---------------------------------------------------------------------------

/// Takes the certificate of an inbound connection, where one was presented:
/// one without a usable key closes the connection and is counted.
pub fn inbound_cert(dht: &mut Dht, leaf: &Option<Vec<u8>>) -> (r: Result<Option<[u8; 32]>, CloseReason>)
    requires
        old(dht).wf(),
    ensures
        final(dht).wf(),
        match leaf {
            None => r == Ok::<Option<[u8; 32]>, CloseReason>(None) && final(dht)@ == old(dht)@,
            Some(der) => match key_verdict(x509_leaf(der@)) {
                Ok(pk) => r matches Ok(Some(k)) && k@ == pk && final(dht)@ == old(dht)@,
                Err(_) => r == Err::<Option<[u8; 32]>, CloseReason>(CloseReason::DhtMalformedKey) && final(dht)@ == (
                DhtView {
                    metrics: Metrics {
                        cert_pubkey_extraction_failures: bumped(
                            old(dht)@.metrics.cert_pubkey_extraction_failures,
                        ),
                        ..old(dht)@.metrics
                    },
                    ..old(dht)@
                }),
            },
        },
{
    match leaf {
        None => Ok(None),
        Some(der) => match extract_pubkey_from_leaf_der(der) {
            Ok(pk) => Ok(Some(pk)),
            Err(_) => {
                dht.metrics.inc_cert_pubkey_extraction_failures();
                Err(CloseReason::DhtMalformedKey)
            },
        },
    }
}

/// A connection to this peer is cached.
pub open spec fn has_conn(conns: Seq<PeerConn>, id: NodeId) -> bool {
    exists|i: int| 0 <= i < conns.len() && (#[trigger] conns[i]).id == id
}

/// The state after a peer was admitted: the routing table heard of it, and its
/// connection is cached unless another one is.
pub open spec fn admitted(dht: DhtView, auth: AuthenticatedPeer, addr: PeerAddr, conn: u64, now: u64) -> DhtView {
    DhtView {
        routing: dht.routing.heard(NodeDescriptor { id: auth.node_id, addr, pubkey: auth.pubkey }, now).0,
        peer_conns: if has_conn(dht.peer_conns, auth.node_id) {
            dht.peer_conns
        } else {
            dht.peer_conns.push(PeerConn { id: auth.node_id, conn, pubkey: auth.pubkey })
        },
        ..dht
    }
}

/// Admits a peer whose hello was accepted. Where the peer also presented a
/// certificate, its key has to be that of the hello.
pub fn handle_peer_connection(
    dht: &mut Dht,
    cert_pubkey: Option<[u8; 32]>,
    auth: &AuthenticatedPeer,
    addr: PeerAddr,
    conn: u64,
    now: u64,
) -> (r: Result<(), CloseReason>)
    requires
        old(dht).wf(),
    ensures
        final(dht).wf(),
        if cert_pubkey matches Some(pk) && pk != auth.pubkey {
            &&& r == Err::<(), CloseReason>(CloseReason::DhtBadSignature)
            &&& final(dht)@ == (DhtView {
                metrics: Metrics {
                    dht_hello_rejected: bumped(old(dht)@.metrics.dht_hello_rejected),
                    ..old(dht)@.metrics
                },
                ..old(dht)@
            })
        } else {
            r is Ok && final(dht)@ == admitted(old(dht)@, *auth, addr, conn, now)
        },
        r is Ok <==> cert_pubkey is None || cert_pubkey == Some(auth.pubkey),
        r is Err ==> final(dht)@.routing == old(dht)@.routing && final(dht)@.peer_conns == old(dht)@.peer_conns,
        r is Ok ==> final(dht)@.metrics == old(dht)@.metrics,
{
    if let Some(pk) = cert_pubkey {
        if !same_array(&pk, &auth.pubkey) {
            dht.metrics.inc_dht_hello_rejected();
            return Err(CloseReason::DhtBadSignature);
        }
    }
    dht.routing.insert(NodeDescriptor { id: auth.node_id, addr, pubkey: auth.pubkey }, now);
    let ghost before = dht@.peer_conns;
    let cached: Option<u64> = super::lookup::cached_conn(dht, &auth.node_id);
    if cached.is_none() {
        dht.peer_conns.push(PeerConn { id: auth.node_id, conn, pubkey: auth.pubkey });
        assert(conns_distinct(dht.peer_conns@)) by {
            assert forall|i: int, j: int| 0 <= i < j < dht.peer_conns@.len() implies (#[trigger] dht.peer_conns@[i]).id
                != (#[trigger] dht.peer_conns@[j]).id by {
                assert(dht.peer_conns@[i] == before[i]);
                if j < before.len() {
                    assert(dht.peer_conns@[j] == before[j]);
                }
            }
        }
    }
    Ok(())
}

/// The streams of one peer that are served now.
#[derive(Clone, Copy, Debug, PartialEq, Eq, Structural)]
pub struct StreamSlots {
    pub open: usize,
}

impl StreamSlots {
    /// No more streams are served than may be.
    pub open spec fn wf(self) -> bool {
        self.open <= MAX_CONCURRENT_STREAMS_PER_PEER
    }

    /// No stream is served.
    pub fn new() -> (r: StreamSlots)
        ensures
            r.wf(),
            r.open == 0,
    {
        StreamSlots { open: 0 }
    }

    /// Takes a slot for a stream, where one is free. A stream without a slot
    /// is dropped; the connection goes on.
    pub fn take(&mut self) -> (r: bool)
        requires
            old(self).wf(),
        ensures
            final(self).wf(),
            r == (old(self).open < MAX_CONCURRENT_STREAMS_PER_PEER),
            r <==> old(self).open < 16,
            final(self).open == old(self).open + (if r {
                1int
            } else {
                0
            }),
    {
        if self.open >= MAX_CONCURRENT_STREAMS_PER_PEER {
            return false;
        }
        self.open = self.open + 1;
        true
    }

    /// Gives a slot back.
    pub fn give_back(&mut self)
        requires
            old(self).wf(),
            old(self).open > 0,
        ensures
            final(self).wf(),
            final(self).open == old(self).open - 1,
    {
        self.open = self.open - 1;
    }
}

/// The first cached connection with this handle stands at `i`.
pub open spec fn first_with_handle(conns: Seq<PeerConn>, conn: u64, i: int) -> bool {
    &&& 0 <= i < conns.len()
    &&& conns[i].conn == conn
    &&& forall|j: int| 0 <= j < i ==> (#[trigger] conns[j]).conn != conn
}

/// Forgets a connection that has ended, where it is the cached one, and counts
/// it. A newer connection to the same peer stays.
pub fn serve_peer_streams_ended(dht: &mut Dht, conn: u64) -> (r: bool)
    requires
        old(dht).wf(),
    ensures
        final(dht).wf(),
        r == (exists|i: int| #[trigger] first_with_handle(old(dht)@.peer_conns, conn, i)),
        !r ==> final(dht)@ == old(dht)@,
        forall|i: int| #[trigger]
            first_with_handle(old(dht)@.peer_conns, conn, i) ==> final(dht)@ == (DhtView {
                peer_conns: old(dht)@.peer_conns.remove(i),
                metrics: Metrics {
                    peer_conns_closed: bumped(old(dht)@.metrics.peer_conns_closed),
                    ..old(dht)@.metrics
                },
                ..old(dht)@
            }),
        r <==> exists|i: int| 0 <= i < old(dht)@.peer_conns.len() && (#[trigger] old(dht)@.peer_conns[i]).conn == conn,
        r ==> final(dht)@.peer_conns.len() + 1 == old(dht)@.peer_conns.len(),
        forall|i: int|
            0 <= i < final(dht)@.peer_conns.len() ==> (#[trigger] final(dht)@.peer_conns[i] == old(
                dht,
            )@.peer_conns[i] && old(dht)@.peer_conns[i].conn != conn) || (final(dht)@.peer_conns[i] == old(
                dht,
            )@.peer_conns[i + 1] && exists|j: int|
                0 <= j <= i && (#[trigger] old(dht)@.peer_conns[j]).conn == conn),
{
    let ghost before = dht@;
    let mut i: usize = 0;
    while i < dht.peer_conns.len()
        invariant
            0 <= i <= dht.peer_conns.len(),
            dht.wf(),
            dht@ == before,
            before == old(dht)@,
            forall|j: int| 0 <= j < i ==> (#[trigger] before.peer_conns[j]).conn != conn,
        decreases dht.peer_conns.len() - i,
    {
        if dht.peer_conns[i].conn == conn {
            dht.peer_conns.remove(i);
            proof {
                assert(first_with_handle(before.peer_conns, conn, i as int));
                assert forall|k: int| #[trigger] first_with_handle(before.peer_conns, conn, k) implies k == i by {}
                assert forall|a: int, b: int| 0 <= a < b < dht.peer_conns@.len() implies (
                #[trigger] dht.peer_conns@[a]).id != (#[trigger] dht.peer_conns@[b]).id by {
                    let a0 = if a < i { a } else { a + 1 };
                    let b0 = if b < i { b } else { b + 1 };
                    assert(before.peer_conns[a0].id != before.peer_conns[b0].id);
                }
            }
            dht.metrics.inc_peer_conns_closed();
            return true;
        }
        i = i + 1;
    }
    false
}

// ---------------------------------------------------------------------------
// Requests
// ---------------------------------------------------------------------------

/// A request of another relay. What the record store has to say about it comes
/// with it.
#[derive(Debug)]
pub enum DhtRequest {
    Ping { nonce: [u8; 16], timestamp: u64 },
    FindNode { target: [u8; 32], requester: NodeId },
    /// With the record that is held for the user, where one is.
    FindValue { user_ipk: [u8; 32], requester: NodeId, held: Option<PresenceRecord> },
    /// A record, with what the store did with it.
    Store(StoreOutcome),
    /// A tombstone, with what the store did with it.
    Tombstone(TombstoneOutcome),
    MerkleSummary { slices: [u8; 32] },
    MerkleDiff { slice_id: u8, path: NodePath },
    /// With what is held for the users that it names.
    FetchRecord(Vec<Held>),
    Forward(Forward),
    QueueFetch(QueueFetch),
    QueueFetchAck(QueueFetchAck),
    KeyPackagePublish(KeyPackageBatch),
    KeyPackageFetch(KeyPackageFetchReq),
    KeyPackageRefill(KeyPackageBatch),
    WelcomePublish(WelcomePublishReq),
    WelcomeFetch(WelcomeFetchReq),
    WelcomeAck(WelcomeAckReq),
}

/// What a lookup of a user's record finds.
#[derive(Debug)]
pub enum FindValueOutcome {
    Found(PresenceRecord),
    /// This relay is a home of the user and holds nothing.
    NotPresent,
    /// These peers are closer to the user.
    Closer(Vec<NodeDescriptor>),
}

/// The answer to a request.
#[derive(Debug)]
pub enum DhtResponse {
    Pong { nonce: [u8; 16], timestamp: u64 },
    FindNode(Vec<NodeDescriptor>),
    FindValue(FindValueOutcome),
    Store(StoreOutcome),
    Tombstone(TombstoneOutcome),
    MerkleSummary(Vec<(u8, [u8; 32])>),
    MerkleDiff(MerkleDiffResp),
    FetchRecord(FetchRecordResp),
    Forward(ForwardOutcome),
    QueueFetch(QueueFetchResp),
    QueueFetchAck(QueueFetchAckResp),
    KeyPackagePublish(KeyPackagePublishOutcome),
    KeyPackageFetch(KeyPackageFetchOutcome),
    KeyPackageRefill(KeyPackageRefillOutcome),
    WelcomePublish(WelcomePublishOutcome),
    WelcomeFetch(WelcomeFetchOutcome),
    WelcomeAck(WelcomeAckResp),
}

impl DhtRequest {
    /// The kind of a request.
    pub open spec fn kind_of(self) -> RpcKind {
        match self {
            DhtRequest::Ping { .. } => RpcKind::Ping,
            DhtRequest::FindNode { .. } => RpcKind::FindNode,
            DhtRequest::FindValue { .. } => RpcKind::FindValue,
            DhtRequest::Store(_) => RpcKind::Store,
            DhtRequest::Tombstone(_) => RpcKind::Tombstone,
            DhtRequest::MerkleSummary { .. } => RpcKind::MerkleSummary,
            DhtRequest::MerkleDiff { .. } => RpcKind::MerkleDiff,
            DhtRequest::FetchRecord(_) => RpcKind::FetchRecord,
            DhtRequest::Forward(_) => RpcKind::Forward,
            DhtRequest::QueueFetch(_) => RpcKind::QueueFetch,
            DhtRequest::QueueFetchAck(_) => RpcKind::QueueFetchAck,
            DhtRequest::KeyPackagePublish(_) => RpcKind::KeyPackagePublish,
            DhtRequest::KeyPackageFetch(_) => RpcKind::KeyPackageFetch,
            DhtRequest::KeyPackageRefill(_) => RpcKind::KeyPackageRefill,
            DhtRequest::WelcomePublish(_) => RpcKind::WelcomePublish,
            DhtRequest::WelcomeFetch(_) => RpcKind::WelcomeFetch,
            DhtRequest::WelcomeAck(_) => RpcKind::WelcomeAck,
        }
    }

    /// The kind of a request.
    pub fn kind(&self) -> (r: RpcKind)
        ensures
            r == self.kind_of(),
    {
        match self {
            DhtRequest::Ping { .. } => RpcKind::Ping,
            DhtRequest::FindNode { .. } => RpcKind::FindNode,
            DhtRequest::FindValue { .. } => RpcKind::FindValue,
            DhtRequest::Store(_) => RpcKind::Store,
            DhtRequest::Tombstone(_) => RpcKind::Tombstone,
            DhtRequest::MerkleSummary { .. } => RpcKind::MerkleSummary,
            DhtRequest::MerkleDiff { .. } => RpcKind::MerkleDiff,
            DhtRequest::FetchRecord(_) => RpcKind::FetchRecord,
            DhtRequest::Forward(_) => RpcKind::Forward,
            DhtRequest::QueueFetch(_) => RpcKind::QueueFetch,
            DhtRequest::QueueFetchAck(_) => RpcKind::QueueFetchAck,
            DhtRequest::KeyPackagePublish(_) => RpcKind::KeyPackagePublish,
            DhtRequest::KeyPackageFetch(_) => RpcKind::KeyPackageFetch,
            DhtRequest::KeyPackageRefill(_) => RpcKind::KeyPackageRefill,
            DhtRequest::WelcomePublish(_) => RpcKind::WelcomePublish,
            DhtRequest::WelcomeFetch(_) => RpcKind::WelcomeFetch,
            DhtRequest::WelcomeAck(_) => RpcKind::WelcomeAck,
        }
    }
}

/// `r` names the active peers closest to `target` but for `exclude`, at most
/// `limit` of them, the closest first.
pub open spec fn names_closest(t: TableView, target: NodeId, exclude: NodeId, limit: nat, r: Seq<NodeDescriptor>) -> bool {
    exists|near: Seq<NodeDescriptor>|
        #[trigger] nearest_descriptors(t, target, limit + 1, near) && r == at_most(
            near.filter(not_the(exclude)),
            limit,
        )
}

/// Names the active peers closest to `target` but for `exclude`.
pub fn closest_excluding(routing: &RoutingTable, target: &NodeId, exclude: &NodeId, limit: usize) -> (r: Vec<
    NodeDescriptor,
>)
    requires
        routing@.wf(),
        limit < usize::MAX,
    ensures
        names_closest(routing@, *target, *exclude, limit as nat, r@),
{
    let near: Vec<NodeDescriptor> = routing.find_closest(target, limit + 1);
    let mut out: Vec<NodeDescriptor> = without_peer(&near, exclude);
    let ghost all = out@;
    if out.len() > limit {
        out.truncate(limit);
    }
    assert(nearest_descriptors(routing@, *target, limit as nat + 1, near@));
    assert(out@ =~= at_most(all, limit as nat));
    out
}

/// What a request does to the state, and what it is answered.
pub open spec fn answered(
    before: DhtView,
    after: DhtView,
    req: DhtRequest,
    peer: NodeId,
    now_ms: u64,
    r: DhtResponse,
) -> bool {
    let m = before.metrics;
    match req {
        DhtRequest::Ping { nonce, timestamp } => {
            &&& r == (DhtResponse::Pong { nonce, timestamp: now_ms })
            &&& after == (DhtView { metrics: Metrics { pings_received: bumped(m.pings_received), ..m }, ..before })
        },
        DhtRequest::FindNode { target, requester } => {
            &&& r matches DhtResponse::FindNode(closer)
            &&& names_closest(
                before.routing,
                NodeId { bytes: target },
                requester,
                before.limits.max_find_node_results as nat,
                closer@,
            )
            &&& after == (DhtView { metrics: Metrics { find_node_rpcs: bumped(m.find_node_rpcs), ..m }, ..before })
        },
        DhtRequest::FindValue { user_ipk, requester, held } => {
            &&& r matches DhtResponse::FindValue(found)
            &&& match held {
                Some(record) => found == FindValueOutcome::Found(record),
                None => if among_k_closest(before.routing, before.node_id, NodeId { bytes: user_ipk }) {
                    found is NotPresent
                } else {
                    &&& found matches FindValueOutcome::Closer(closer)
                    &&& names_closest(
                        before.routing,
                        NodeId { bytes: user_ipk },
                        requester,
                        before.limits.max_find_node_results as nat,
                        closer@,
                    )
                },
            }
            &&& after == (DhtView { metrics: Metrics { find_value_rpcs: bumped(m.find_value_rpcs), ..m }, ..before })
        },
        DhtRequest::Store(outcome) => r == DhtResponse::Store(outcome) && after == before,
        DhtRequest::Tombstone(outcome) => r == DhtResponse::Tombstone(outcome) && after == before,
        DhtRequest::MerkleSummary { slices } => {
            &&& r matches DhtResponse::MerkleSummary(roots)
            &&& is_summary(before.merkle, slices, roots@)
            &&& after == (DhtView {
                metrics: Metrics { merkle_summaries_received: bumped(m.merkle_summaries_received), ..m },
                ..before
            })
        },
        DhtRequest::MerkleDiff { slice_id, path } => {
            &&& r matches DhtResponse::MerkleDiff(diff)
            &&& is_diff(before.merkle[slice_id as int], path@, diff)
            &&& after == (DhtView {
                metrics: Metrics { merkle_diffs_received: bumped(m.merkle_diffs_received), ..m },
                ..before
            })
        },
        DhtRequest::FetchRecord(held) => {
            &&& r matches DhtResponse::FetchRecord(found)
            &&& found.records@ == records_of(at_most(held@, super::config::FETCH_RECORD_MAX as nat))
            &&& found.tombstones@ == tombstones_of(at_most(held@, super::config::FETCH_RECORD_MAX as nat))
            &&& after == before
        },
        DhtRequest::Forward(f) => {
            &&& r matches DhtResponse::Forward(outcome)
            &&& forward_answered(before, after, f, now_ms, refused(before, f), outcome)
        },
        DhtRequest::QueueFetch(q) => {
            &&& r matches DhtResponse::QueueFetch(page)
            &&& fetch_page(before, q, peer, now_ms, ed25519_signed(q.user_ipk@, q.transcript@, q.user_sig@), page)
            &&& after == before
        },
        DhtRequest::QueueFetchAck(a) => {
            let signed = ed25519_signed(a.user_ipk@, a.transcript@, a.user_sig@);
            &&& r == DhtResponse::QueueFetchAck(
                QueueFetchAckResp { ok: ack_is_honoured(before, a, peer, now_ms, signed) },
            )
            &&& after == after_ack(before, a, peer, now_ms, signed)
        },
        DhtRequest::KeyPackagePublish(batch) => {
            &&& r == DhtResponse::KeyPackagePublish(publish_outcome(batch_result(before, batch@, now_ms).1))
            &&& after == (DhtView { keypackage: batch_result(before, batch@, now_ms).0, ..before })
        },
        DhtRequest::KeyPackageRefill(batch) => {
            &&& r == DhtResponse::KeyPackageRefill(refill_outcome(batch_result(before, batch@, now_ms).1))
            &&& after == (DhtView { keypackage: batch_result(before, batch@, now_ms).0, ..before })
        },
        DhtRequest::KeyPackageFetch(f) => {
            &&& r matches DhtResponse::KeyPackageFetch(outcome)
            &&& {
                ||| mls_kp::fetch_handled(before, after, f, peer, now_ms, true, outcome)
                ||| mls_kp::fetch_handled(before, after, f, peer, now_ms, false, outcome)
            }
        },
        DhtRequest::WelcomePublish(w) => {
            &&& r matches DhtResponse::WelcomePublish(outcome)
            &&& exists|token: bool, id: Option<[u8; 8]>| #[trigger]
                mls_welcome::publish_handled(before, after, w, peer, now_ms, token, id, outcome)
        },
        DhtRequest::WelcomeFetch(w) => {
            &&& r matches DhtResponse::WelcomeFetch(outcome)
            &&& {
                ||| mls_welcome::fetch_handled(before, after, w, peer, now_ms, true, outcome)
                ||| mls_welcome::fetch_handled(before, after, w, peer, now_ms, false, outcome)
            }
        },
        DhtRequest::WelcomeAck(w) => {
            &&& r matches DhtResponse::WelcomeAck(resp)
            &&& {
                ||| mls_welcome::ack_handled(before, after, w, peer, now_ms, true, resp)
                ||| mls_welcome::ack_handled(before, after, w, peer, now_ms, false, resp)
            }
        },
    }
}

/// Answers a request of a peer. What the rate limiters of key packages and
/// invitations say depends on the clock, but for the first token.
pub fn handle_dht_request(dht: &mut Dht, req: &DhtRequest, peer: &NodeId, now_ms: u64) -> (r: DhtResponse)
    requires
        old(dht).wf(),
    ensures
        final(dht).wf(),
        answered(old(dht)@, final(dht)@, *req, *peer, now_ms, r),
{
    match req {
        DhtRequest::Ping { nonce, timestamp: _ } => {
            dht.metrics.inc_pings_received();
            DhtResponse::Pong { nonce: *nonce, timestamp: now_ms }
        },
        DhtRequest::FindNode { target, requester } => {
            dht.metrics.inc_find_node_rpcs();
            let limit: usize = dht.limits.max_find_node_results;
            DhtResponse::FindNode(closest_excluding(&dht.routing, &NodeId::from_bytes(*target), requester, limit))
        },
        DhtRequest::FindValue { user_ipk, requester, held } => {
            dht.metrics.inc_find_value_rpcs();
            DhtResponse::FindValue(find_value(dht, user_ipk, requester, held))
        },
        DhtRequest::Store(outcome) => DhtResponse::Store(*outcome),
        DhtRequest::Tombstone(outcome) => DhtResponse::Tombstone(*outcome),
        DhtRequest::MerkleSummary { slices } => DhtResponse::MerkleSummary(handle_merkle_summary(dht, slices)),
        DhtRequest::MerkleDiff { slice_id, path } => DhtResponse::MerkleDiff(
            handle_merkle_diff(dht, *slice_id, path),
        ),
        DhtRequest::FetchRecord(held) => DhtResponse::FetchRecord(handle_fetch_record(held)),
        DhtRequest::Forward(f) => DhtResponse::Forward(handle_forward_rpc(dht, f, now_ms)),
        DhtRequest::QueueFetch(q) => DhtResponse::QueueFetch(handle_queue_fetch_rpc(dht, q, peer, now_ms)),
        DhtRequest::QueueFetchAck(a) => DhtResponse::QueueFetchAck(
            handle_queue_fetch_ack_rpc(dht, a, peer, now_ms),
        ),
        DhtRequest::KeyPackagePublish(batch) => DhtResponse::KeyPackagePublish(
            handle_keypackage_publish(dht, batch, now_ms),
        ),
        DhtRequest::KeyPackageFetch(f) => DhtResponse::KeyPackageFetch(
            handle_keypackage_fetch(dht, f, peer, now_ms),
        ),
        DhtRequest::KeyPackageRefill(batch) => DhtResponse::KeyPackageRefill(
            handle_keypackage_refill(dht, batch, now_ms),
        ),
        DhtRequest::WelcomePublish(w) => DhtResponse::WelcomePublish(handle_welcome_publish(dht, w, peer, now_ms)),
        DhtRequest::WelcomeFetch(w) => DhtResponse::WelcomeFetch(handle_welcome_fetch(dht, w, peer, now_ms)),
        DhtRequest::WelcomeAck(w) => DhtResponse::WelcomeAck(handle_welcome_ack(dht, w, peer, now_ms)),
    }
}

/// What a lookup of a user's record finds, given the record that is held.
fn find_value(dht: &Dht, user_ipk: &[u8; 32], requester: &NodeId, held: &Option<PresenceRecord>) -> (r:
    FindValueOutcome)
    requires
        dht.wf(),
    ensures
        match held {
            Some(record) => r == FindValueOutcome::Found(*record),
            None => if among_k_closest(dht@.routing, dht@.node_id, NodeId { bytes: *user_ipk }) {
                r is NotPresent
            } else {
                &&& r matches FindValueOutcome::Closer(closer)
                &&& names_closest(
                    dht@.routing,
                    NodeId { bytes: *user_ipk },
                    *requester,
                    dht@.limits.max_find_node_results as nat,
                    closer@,
                )
            },
        },
{
    if let Some(record) = held {
        return FindValueOutcome::Found(*record);
    }
    let target: NodeId = NodeId::from_bytes(*user_ipk);
    if self_in_top_k(&dht.routing, &dht.node_id, &target) {
        return FindValueOutcome::NotPresent;
    }
    FindValueOutcome::Closer(
        closest_excluding(&dht.routing, &target, requester, dht.limits.max_find_node_results),
    )
}

// ---------------------------------------------------------------------------
// Streams
// ---------------------------------------------------------------------------

/// What came on a stream.
#[derive(Debug)]
pub enum Inbound {
    /// What came cannot be read.
    Undecodable,
    /// An answer, where a request belongs.
    Response,
    Request(DhtRequest),
}

/// What is done about a stream.
#[derive(Debug)]
pub enum StreamStep {
    /// Close the whole connection.
    Close(CloseReason),
    Respond(DhtResponse),
}

/// What a stream does to the state and what is done about it, given whether
/// the rate limiters passed a request.
pub open spec fn stream_answered(
    before: DhtView,
    after: DhtView,
    inbound: Inbound,
    auth: AuthenticatedPeer,
    addr: PeerAddr,
    now_ms: u64,
    passed: bool,
    r: StreamStep,
) -> bool {
    match inbound {
        Inbound::Undecodable => r == StreamStep::Close(CloseReason::DhtMalformedKey) && after == before,
        Inbound::Response => r == StreamStep::Close(CloseReason::PacketMismatch) && after == before,
        Inbound::Request(req) => if !passed {
            &&& r == StreamStep::Close(CloseReason::DhtFlood)
            &&& after == (DhtView {
                metrics: Metrics {
                    rate_limit_rejections: bumped(before.metrics.rate_limit_rejections),
                    ..before.metrics
                },
                ..before
            })
        } else {
            &&& r matches StreamStep::Respond(resp)
            &&& exists|served: DhtView|
                {
                    &&& #[trigger] answered(before, served, req, auth.node_id, now_ms, resp)
                    &&& after == (DhtView {
                        routing: served.routing.heard(
                            NodeDescriptor { id: auth.node_id, addr, pubkey: auth.pubkey },
                            now_ms,
                        ).0,
                        ..served
                    })
                }
        },
    }
}

/// Answers a stream, given whether the rate limiters passed a request. After
/// each request that is served the routing table hears of the peer.
pub fn answer_stream(
    dht: &mut Dht,
    inbound: &Inbound,
    auth: &AuthenticatedPeer,
    addr: PeerAddr,
    now_ms: u64,
    passed: bool,
) -> (r: StreamStep)
    requires
        old(dht).wf(),
    ensures
        final(dht).wf(),
        stream_answered(old(dht)@, final(dht)@, *inbound, *auth, addr, now_ms, passed, r),
{
    match inbound {
        Inbound::Undecodable => StreamStep::Close(CloseReason::DhtMalformedKey),
        Inbound::Response => StreamStep::Close(CloseReason::PacketMismatch),
        Inbound::Request(req) => {
            if !passed {
                dht.metrics.inc_rate_limit_rejections();
                return StreamStep::Close(CloseReason::DhtFlood);
            }
            let resp: DhtResponse = handle_dht_request(dht, req, &auth.node_id, now_ms);
            let ghost served = dht@;
            let desc = NodeDescriptor { id: auth.node_id, addr, pubkey: auth.pubkey };
            dht.routing.insert(desc, now_ms);
            proof {
                assert(answered(old(dht)@, served, *req, auth.node_id, now_ms, resp));
                assert(dht@ =~= (DhtView { routing: served.routing.heard(desc, now_ms).0, ..served }));
            }
            StreamStep::Respond(resp)
        },
    }
}

/// What a stream does to the state and what is done about it, the tokens that
/// a request draws along with the rest, given what the bucket that all share
/// says and what that of the peer would.
pub open spec fn stream_handled(
    before: DhtView,
    after: DhtView,
    inbound: Inbound,
    auth: AuthenticatedPeer,
    addr: PeerAddr,
    now_ms: u64,
    shared: bool,
    own: bool,
    r: StreamStep,
) -> bool {
    match inbound {
        Inbound::Request(req) => {
            let class = RpcClass::of(req.kind_of());
            let drawn = DhtView {
                rate_limiters: before.rate_limiters.after_check(auth.node_id, class, shared),
                ..before
            };
            &&& before.rate_limiters.can_answer(auth.node_id, class, shared, own)
            &&& stream_answered(drawn, after, inbound, auth, addr, now_ms, shared && own, r)
        },
        _ => stream_answered(before, after, inbound, auth, addr, now_ms, true, r),
    }
}

/// Answers a stream. The rate limiters are asked about requests only, for the
/// peer and the class of the request. The first token they give; what they say
/// later depends on the clock.
pub fn handle_one_stream(dht: &mut Dht, inbound: &Inbound, auth: &AuthenticatedPeer, addr: PeerAddr, now_ms: u64) -> (r:
    StreamStep)
    requires
        old(dht).wf(),
    ensures
        final(dht).wf(),
        exists|shared: bool, own: bool| #[trigger]
            stream_handled(old(dht)@, final(dht)@, *inbound, *auth, addr, now_ms, shared, own, r),
{
    match inbound {
        Inbound::Request(req) => {
            let class: RpcClass = RpcClass::for_request(&req.kind());
            let drawn: Result<(), ()> = dht.rate_limiters.check(&auth.node_id, class);
            let ghost after = dht@.rate_limiters;
            let r: StreamStep = answer_stream(dht, inbound, auth, addr, now_ms, drawn.is_ok());
            proof {
                let (shared, own) = choose|shared: bool, own: bool| #[trigger]
                    checked(old(dht)@.rate_limiters, after, auth.node_id, class, shared, own, drawn);
                assert(stream_handled(old(dht)@, dht@, *inbound, *auth, addr, now_ms, shared, own, r));
            }
            r
        },
        _ => {
            let r: StreamStep = answer_stream(dht, inbound, auth, addr, now_ms, true);
            assert(stream_handled(old(dht)@, dht@, *inbound, *auth, addr, now_ms, true, true, r));
            r
        },
    }
}

// ---------------------------------------------------------------------------
// Laws
// ---------------------------------------------------------------------------

/// A hello is accepted exactly when its id belongs to its key, the key is one
/// and signed, and the clock is not off; and of an accepted peer the id is the
/// digest of its key.
pub proof fn law_accepted_hello_binds_id(event: HelloEvent, now_ms: u64)
    ensures
        heard_hello(event, now_ms) is Ok <==> (event matches HelloEvent::Hello(hello) && blake3_hash(hello.pubkey@)
            == hello.node_id.bytes && ed25519_key_parses(hello.pubkey@) && ed25519_signed(
            hello.pubkey@,
            hello.transcript@,
            hello.sig@,
        ) && clocks_agree(now_ms, hello.timestamp, MAX_HELLO_SKEW_MS)),
        heard_hello(event, now_ms) matches Ok(auth) ==> blake3_hash(auth.pubkey@) == auth.node_id.bytes,
{
}

/// No answer names the peer that asked.
pub proof fn law_answer_excludes_requester(
    t: TableView,
    target: NodeId,
    requester: NodeId,
    limit: nat,
    r: Seq<NodeDescriptor>,
    i: int,
)
    requires
        names_closest(t, target, requester, limit, r),
        0 <= i < r.len(),
    ensures
        r.len() <= limit,
        r[i].id != requester,
{
    let near = choose|near: Seq<NodeDescriptor>|
        #[trigger] nearest_descriptors(t, target, limit + 1, near) && r == at_most(
            near.filter(not_the(requester)),
            limit,
        );
    lemma_filter_passes(near, not_the(requester), i);
}

/// What a filter keeps passes it.
proof fn lemma_filter_passes(s: Seq<NodeDescriptor>, keep: spec_fn(NodeDescriptor) -> bool, i: int)
    requires
        0 <= i < s.filter(keep).len(),
    ensures
        keep(s.filter(keep)[i]),
    decreases s.len(),
{
    reveal(Seq::filter);
    if s.len() > 0 && i < s.drop_last().filter(keep).len() {
        lemma_filter_passes(s.drop_last(), keep, i);
    }
}

/// Looking does not change anything: requests that only ask leave everything
/// but the counters as it was.
pub proof fn law_reads_change_only_counters(
    before: DhtView,
    after: DhtView,
    req: DhtRequest,
    peer: NodeId,
    now_ms: u64,
    r: DhtResponse,
)
    requires
        answered(before, after, req, peer, now_ms, r),
        RpcClass::of(req.kind_of()) == RpcClass::Cheap || req is FetchRecord || req is QueueFetch,
    ensures
        after == (DhtView { metrics: after.metrics, ..before }),
{
}

/// The relay for which a request was made, where it names one.
pub open spec fn made_for(req: DhtRequest) -> Option<NodeId> {
    match req {
        DhtRequest::QueueFetch(q) => Some(q.requester_relay_id),
        DhtRequest::QueueFetchAck(a) => Some(a.requester_relay_id),
        DhtRequest::KeyPackageFetch(f) => Some(f.requester_relay_id),
        DhtRequest::WelcomeFetch(w) => Some(w.requester_relay_id),
        DhtRequest::WelcomeAck(w) => Some(w.requester_relay_id),
        _ => None,
    }
}

/// The answer says nothing of what is kept for a user.
pub open spec fn tells_nothing(r: DhtResponse) -> bool {
    match r {
        DhtResponse::QueueFetch(page) => page.messages@.len() == 0 && page.exhausted,
        DhtResponse::QueueFetchAck(ack) => !ack.ok,
        DhtResponse::KeyPackageFetch(outcome) => outcome is RateLimited,
        DhtResponse::WelcomeFetch(outcome) => outcome is BadSig,
        DhtResponse::WelcomeAck(ack) => !ack.ok,
        _ => false,
    }
}

/// A request that was made for one relay serves no other: sent by another peer
/// it changes nothing, and its answer tells nothing.
pub proof fn law_request_serves_its_relay_only(
    before: DhtView,
    after: DhtView,
    req: DhtRequest,
    peer: NodeId,
    now_ms: u64,
    r: DhtResponse,
)
    requires
        answered(before, after, req, peer, now_ms, r),
        made_for(req) is Some,
        made_for(req) != Some(peer),
    ensures
        after == before,
        tells_nothing(r),
{
}

/// Who may change a table: queued messages come from relays that vouch for
/// them and leave when their user says so; key packages come from their owner,
/// and each fetch is for the relay that makes it; invitations come signed by
/// their sender, and are listed and leave for their user only.
pub proof fn law_tables_change_by_right_only(
    before: DhtView,
    after: DhtView,
    req: DhtRequest,
    peer: NodeId,
    now_ms: u64,
    r: DhtResponse,
)
    requires
        answered(before, after, req, peer, now_ms, r),
    ensures
        after.queue != before.queue ==> {
            ||| req matches DhtRequest::Forward(f) && refused(before, f) is None
            ||| req matches DhtRequest::QueueFetchAck(a) && a.requester_relay_id == peer && ed25519_signed(
                a.user_ipk@,
                a.transcript@,
                a.user_sig@,
            )
        },
        after.keypackage != before.keypackage ==> {
            ||| req matches DhtRequest::KeyPackagePublish(b) && ed25519_signed(b.ipk@, b.transcript@, b.sig@)
            ||| req matches DhtRequest::KeyPackageRefill(b) && ed25519_signed(b.ipk@, b.transcript@, b.sig@)
            ||| req matches DhtRequest::KeyPackageFetch(f) && f.requester_relay_id == peer
        },
        after.welcome != before.welcome ==> {
            ||| req matches DhtRequest::WelcomePublish(w) && ed25519_signed(
                w.envelope.sender_ipk@,
                w.transcript@,
                w.envelope.sender_sig@,
            )
            ||| req matches DhtRequest::WelcomeFetch(w) && w.requester_relay_id == peer && ed25519_signed(
                w.user_ipk@,
                w.transcript@,
                w.user_sig@,
            )
            ||| req matches DhtRequest::WelcomeAck(w) && w.requester_relay_id == peer && ed25519_signed(
                w.user_ipk@,
                w.transcript@,
                w.user_sig@,
            )
        },
        after.routing == before.routing,
        after.peer_conns == before.peer_conns,
        after.merkle == before.merkle,
{
}

/// What a hello must say to be accepted, and how the connection is closed
/// where it does not: an id that is not the digest of the key, or a key that is
/// none, is malformed; a signature that does not hold is bad; a clock that is
/// off by more than a minute is skewed. Who is accepted is who said it.
pub proof fn law_hello_says_it_all(hello: DhtHello, now_ms: u64)
    ensures
        ({
            let whole = blake3_hash(hello.pubkey@) == hello.node_id.bytes && ed25519_key_parses(hello.pubkey@);
            let signed = ed25519_signed(hello.pubkey@, hello.transcript@, hello.sig@);
            let fresh = now_ms <= hello.timestamp + 60_000 && hello.timestamp <= now_ms + 60_000;
            let r = heard_hello(HelloEvent::Hello(hello), now_ms);
            &&& r is Ok <==> whole && signed && fresh
            &&& r matches Ok(auth) ==> auth.node_id == hello.node_id && auth.pubkey == hello.pubkey
            &&& r == Err::<AuthenticatedPeer, Option<CloseReason>>(Some(CloseReason::DhtMalformedKey)) <==> !whole
            &&& r == Err::<AuthenticatedPeer, Option<CloseReason>>(Some(CloseReason::DhtBadSignature)) <==> whole
                && !signed
            &&& r == Err::<AuthenticatedPeer, Option<CloseReason>>(Some(CloseReason::DhtClockSkew)) <==> whole && signed
                && !fresh
        }),
        heard_hello(HelloEvent::ConnectionEnded, now_ms) == Err::<AuthenticatedPeer, Option<CloseReason>>(None),
        heard_hello(HelloEvent::TimedOut, now_ms) == Err::<AuthenticatedPeer, Option<CloseReason>>(
            Some(CloseReason::DhtClockSkew),
        ),
        heard_hello(HelloEvent::Malformed, now_ms) == Err::<AuthenticatedPeer, Option<CloseReason>>(
            Some(CloseReason::DhtMalformedKey),
        ),
{
}

/// A peer that is admitted has a cached connection from then on: its first one,
/// until that ends. The connections of others stay, and what the table gives for
/// the peer is the address that it came from.
pub proof fn law_admitted_peer_is_reachable(
    dht: DhtView,
    auth: AuthenticatedPeer,
    addr: PeerAddr,
    conn: u64,
    now: u64,
    c: PeerConn,
    e: RoutingEntry,
)
    requires
        dht.routing.wf(),
    ensures
        ({
            let after = admitted(dht, auth, addr, conn, now);
            let had = exists|i: int| 0 <= i < dht.peer_conns.len() && (#[trigger] dht.peer_conns[i]).id == auth.node_id;
            &&& exists|i: int| 0 <= i < after.peer_conns.len() && (#[trigger] after.peer_conns[i]).id == auth.node_id
            &&& had ==> after.peer_conns == dht.peer_conns
            &&& !had ==> (after.peer_conns.contains(c) <==> dht.peer_conns.contains(c) || c == (PeerConn {
                id: auth.node_id,
                conn,
                pubkey: auth.pubkey,
            }))
            &&& after.routing.active().contains(e) && e.id == auth.node_id ==> e.addr == addr && e.last_seen == now
            &&& e.id != auth.node_id ==> (after.routing.active().contains(e) <==> dht.routing.active().contains(e))
            &&& after == (DhtView { routing: after.routing, peer_conns: after.peer_conns, ..dht })
        }),
{
    let after = admitted(dht, auth, addr, conn, now);
    let desc = NodeDescriptor { id: auth.node_id, addr, pubkey: auth.pubkey };
    law_heard_address_is_given(dht.routing, desc, now, e, e);
    let mine = PeerConn { id: auth.node_id, conn, pubkey: auth.pubkey };
    if !has_conn(dht.peer_conns, auth.node_id) {
        let all = after.peer_conns;
        let n = dht.peer_conns.len() as int;
        assert(all[n] == mine);
        if all.contains(c) {
            let i = choose|i: int| 0 <= i < all.len() && all[i] == c;
            if i < n {
                assert(dht.peer_conns[i] == c);
            }
        }
        if dht.peer_conns.contains(c) {
            let i = choose|i: int| 0 <= i < dht.peer_conns.len() && dht.peer_conns[i] == c;
            assert(all[i] == c);
        }
    }
}

/// Strictly rising distances rise in what a filter keeps.
proof fn lemma_filter_rises(target: NodeId, s: Seq<NodeDescriptor>, keep: spec_fn(NodeDescriptor) -> bool)
    requires
        forall|i: int, j: int| 0 <= i < j < s.len() ==> distance(#[trigger] s[i].id, target) < distance(
            #[trigger] s[j].id,
            target,
        ),
    ensures
        forall|i: int, j: int| 0 <= i < j < s.filter(keep).len() ==> distance(
            #[trigger] s.filter(keep)[i].id,
            target,
        ) < distance(#[trigger] s.filter(keep)[j].id, target),
        forall|i: int| 0 <= i < s.filter(keep).len() ==> s.contains(#[trigger] s.filter(keep)[i]),
        forall|i: int| 0 <= i < s.len() && keep(#[trigger] s[i]) ==> s.filter(keep).contains(s[i]),
    decreases s.len(),
{
    reveal(Seq::filter);
    if s.len() > 0 {
        let init = s.drop_last();
        let n = s.len() - 1;
        assert forall|i: int, j: int| 0 <= i < j < init.len() implies distance(#[trigger] init[i].id, target)
            < distance(#[trigger] init[j].id, target) by {
            assert(distance(s[i].id, target) < distance(s[j].id, target));
        }
        lemma_filter_rises(target, init, keep);
        let f0 = init.filter(keep);
        let f = s.filter(keep);
        assert forall|i: int| 0 <= i < f.len() implies s.contains(#[trigger] f[i]) by {
            if i < f0.len() {
                assert(f[i] == f0[i]);
                assert(init.contains(f0[i]));
                let k = choose|k: int| 0 <= k < init.len() && init[k] == f0[i];
                assert(s[k] == f[i]);
            } else {
                assert(s[n] == f[i]);
            }
        }
        assert forall|i: int, j: int| 0 <= i < j < f.len() implies distance(#[trigger] f[i].id, target) < distance(
            #[trigger] f[j].id,
            target,
        ) by {
            assert(f[i] == f0[i]);
            if j < f0.len() {
                assert(f[j] == f0[j]);
            } else {
                assert(init.contains(f0[i]));
                let k = choose|k: int| 0 <= k < init.len() && init[k] == f0[i];
                assert(distance(s[k].id, target) < distance(s[n].id, target));
            }
        }
        assert forall|i: int| 0 <= i < s.len() && keep(#[trigger] s[i]) implies f.contains(s[i]) by {
            if i < n {
                assert(init[i] == s[i]);
                assert(f0.contains(init[i]));
                let k = choose|k: int| 0 <= k < f0.len() && f0[k] == s[i];
                assert(f[k] == s[i]);
            } else {
                assert(f[f0.len() as int] == s[i]);
            }
        }
    }
}

/// Leaving one peer out of a list without repeats makes it shorter by one at
/// most.
proof fn lemma_one_left_out(target: NodeId, s: Seq<NodeDescriptor>, id: NodeId)
    requires
        forall|i: int, j: int| 0 <= i < j < s.len() ==> distance(#[trigger] s[i].id, target) < distance(
            #[trigger] s[j].id,
            target,
        ),
    ensures
        s.filter(not_the(id)).len() >= s.len() - 1,
        (forall|i: int| 0 <= i < s.len() ==> (#[trigger] s[i]).id != id) ==> s.filter(not_the(id)).len() == s.len(),
    decreases s.len(),
{
    reveal(Seq::filter);
    if s.len() > 0 {
        let init = s.drop_last();
        let n = s.len() - 1;
        assert forall|i: int, j: int| 0 <= i < j < init.len() implies distance(#[trigger] init[i].id, target)
            < distance(#[trigger] init[j].id, target) by {
            assert(distance(s[i].id, target) < distance(s[j].id, target));
        }
        lemma_one_left_out(target, init, id);
        if s.last().id == id {
            assert forall|i: int| 0 <= i < init.len() implies (#[trigger] init[i]).id != id by {
                assert(distance(s[i].id, target) < distance(s[n].id, target));
            }
        }
        if forall|i: int| 0 <= i < s.len() ==> (#[trigger] s[i]).id != id {
            assert(s[n].id != id);
            assert forall|i: int| 0 <= i < init.len() implies (#[trigger] init[i]).id != id by {
                assert(s[i].id != id);
            }
        }
    }
}

/// An answer names the closest that there are: in the order of distance, active
/// peers only, as they are known; and of the others than the one that asked,
/// nobody is left out unless the answer is full of closer ones.
pub proof fn law_answer_names_the_closest(
    t: TableView,
    target: NodeId,
    requester: NodeId,
    limit: nat,
    r: Seq<NodeDescriptor>,
    e: RoutingEntry,
)
    requires
        t.wf(),
        names_closest(t, target, requester, limit, r),
    ensures
        r.len() <= limit,
        forall|i: int, j: int| 0 <= i < j < r.len() ==> distance(#[trigger] r[i].id, target) < distance(
            #[trigger] r[j].id,
            target,
        ),
        forall|i: int| 0 <= i < r.len() ==> exists|k: int|
            0 <= k < t.active().len() && (#[trigger] t.active()[k]).id == (#[trigger] r[i]).id && t.active()[k].addr
                == r[i].addr && t.active()[k].pubkey == r[i].pubkey,
        t.active().contains(e) && e.id != requester ==> r.contains(
            NodeDescriptor { id: e.id, addr: e.addr, pubkey: e.pubkey },
        ) || (r.len() == limit && forall|i: int|
            0 <= i < r.len() ==> distance(#[trigger] r[i].id, target) < distance(e.id, target)),
{
    let near = choose|near: Seq<NodeDescriptor>|
        #[trigger] nearest_descriptors(t, target, limit + 1, near) && r == at_most(
            near.filter(not_the(requester)),
            limit,
        );
    let all = t.active();
    let s = choose|s: Seq<RoutingEntry>| #[trigger] is_nearest(all, target, limit + 1, s) && near == descriptors(s);
    let keep = not_the(requester);
    let f = near.filter(keep);
    assert forall|a: int, b: int| 0 <= a < b < near.len() implies distance(#[trigger] near[a].id, target) < distance(
        #[trigger] near[b].id,
        target,
    ) by {
        assert(distance(s[a].id, target) < distance(s[b].id, target));
    }
    lemma_filter_rises(target, near, keep);
    lemma_one_left_out(target, near, requester);
    assert forall|i: int| 0 <= i < r.len() implies exists|k: int|
        0 <= k < all.len() && (#[trigger] all[k]).id == (#[trigger] r[i]).id && all[k].addr == r[i].addr && all[k].pubkey
            == r[i].pubkey by {
        assert(r[i] == f[i]);
        assert(near.contains(f[i]));
        let m = choose|m: int| 0 <= m < near.len() && near[m] == f[i];
        assert(all.contains(s[m]));
        let k = choose|k: int| 0 <= k < all.len() && all[k] == s[m];
        assert(all[k].id == r[i].id);
    }
    assert forall|i: int, j: int| 0 <= i < j < r.len() implies distance(#[trigger] r[i].id, target) < distance(
        #[trigger] r[j].id,
        target,
    ) by {
        assert(r[i] == f[i] && r[j] == f[j]);
    }
    if all.contains(e) && e.id != requester {
        let ke = choose|ke: int| 0 <= ke < all.len() && all[ke] == e;
        assert(all[ke] == e);
        if s.contains(e) {
            let q = choose|q: int| 0 <= q < s.len() && s[q] == e;
            assert(near[q] == e.as_descriptor());
            assert(keep(near[q]));
            assert(f.contains(near[q]));
            let p = choose|p: int| 0 <= p < f.len() && f[p] == near[q];
            if p < r.len() {
                assert(r[p] == near[q]);
            } else {
                assert forall|i: int| 0 <= i < r.len() implies distance(#[trigger] r[i].id, target) < distance(
                    e.id,
                    target,
                ) by {
                    assert(r[i] == f[i]);
                    assert(distance(f[i].id, target) < distance(f[p].id, target));
                }
            }
        } else {
            assert forall|i: int| 0 <= i < r.len() implies distance(#[trigger] r[i].id, target) < distance(
                e.id,
                target,
            ) by {
                assert(r[i] == f[i]);
                assert(near.contains(f[i]));
                let m = choose|m: int| 0 <= m < near.len() && near[m] == f[i];
                assert(distance(s[m].id, target) < distance(all[ke].id, target));
            }
        }
    }
}

/// A request is answered in kind, and an echo carries what it is to return: a
/// ping comes back with its own nonce and this relay's time; what the record
/// store did is handed on as it is.
pub proof fn law_requests_are_answered_in_kind(
    before: DhtView,
    after: DhtView,
    req: DhtRequest,
    peer: NodeId,
    now_ms: u64,
    r: DhtResponse,
)
    requires
        answered(before, after, req, peer, now_ms, r),
    ensures
        req matches DhtRequest::Ping { nonce, timestamp } ==> (r matches DhtResponse::Pong { nonce: n, timestamp: ts }
            && n == nonce && ts == now_ms),
        req matches DhtRequest::Store(outcome) ==> (r matches DhtResponse::Store(o) && o == outcome),
        req matches DhtRequest::Tombstone(outcome) ==> (r matches DhtResponse::Tombstone(o) && o == outcome),
        req is FindNode <==> r is FindNode,
        req is FindValue <==> r is FindValue,
        req is MerkleSummary <==> r is MerkleSummary,
        req is MerkleDiff <==> r is MerkleDiff,
        req is FetchRecord <==> r is FetchRecord,
        req is Forward <==> r is Forward,
        req is QueueFetch <==> r is QueueFetch,
        req is QueueFetchAck <==> r is QueueFetchAck,
        req is KeyPackagePublish <==> r is KeyPackagePublish,
        req is KeyPackageFetch <==> r is KeyPackageFetch,
        req is KeyPackageRefill <==> r is KeyPackageRefill,
        req is WelcomePublish <==> r is WelcomePublish,
        req is WelcomeFetch <==> r is WelcomeFetch,
        req is WelcomeAck <==> r is WelcomeAck,
{
}

/// A lookup of a user's record finds the record where one is held, whoever is a
/// home; says that there is none where this relay is one of the closest to the
/// user; and else names closer peers.
pub proof fn law_held_record_is_found(
    before: DhtView,
    after: DhtView,
    user_ipk: [u8; 32],
    requester: NodeId,
    held: Option<PresenceRecord>,
    peer: NodeId,
    now_ms: u64,
    found: FindValueOutcome,
)
    requires
        answered(
            before,
            after,
            DhtRequest::FindValue { user_ipk, requester, held },
            peer,
            now_ms,
            DhtResponse::FindValue(found),
        ),
    ensures
        held matches Some(record) ==> found == FindValueOutcome::Found(record),
        found is Found ==> held is Some,
        found is NotPresent <==> held is None && among_k_closest(
            before.routing,
            before.node_id,
            NodeId { bytes: user_ipk },
        ),
        found is Closer <==> held is None && !among_k_closest(
            before.routing,
            before.node_id,
            NodeId { bytes: user_ipk },
        ),
{
}

/// What happens to a stream: what cannot be read, and an answer where a request
/// belongs, close the connection and change nothing; a request that the rate
/// limiters refuse closes it too, and is only counted; any other is answered,
/// and then the table gives for the peer the address that it came from.
pub proof fn law_stream_is_answered_or_closed(
    before: DhtView,
    after: DhtView,
    inbound: Inbound,
    auth: AuthenticatedPeer,
    addr: PeerAddr,
    now_ms: u64,
    passed: bool,
    r: StreamStep,
    e: RoutingEntry,
)
    requires
        before.routing.wf(),
        stream_answered(before, after, inbound, auth, addr, now_ms, passed, r),
    ensures
        inbound is Undecodable ==> r == StreamStep::Close(CloseReason::DhtMalformedKey) && after == before,
        inbound is Response ==> r == StreamStep::Close(CloseReason::PacketMismatch) && after == before,
        inbound is Request && !passed ==> r == StreamStep::Close(CloseReason::DhtFlood) && after == (DhtView {
            metrics: before.metrics.counted(Counter::RateLimitRejections),
            ..before
        }),
        inbound is Request && passed <==> r is Respond,
        r is Respond && after.routing.active().contains(e) && e.id == auth.node_id ==> e.addr == addr && e.last_seen
            == now_ms,
        r is Respond && e.id != auth.node_id ==> (after.routing.active().contains(e)
            <==> before.routing.active().contains(e)),
{
    if let StreamStep::Respond(resp) = r {
        if let Inbound::Request(req) = inbound {
            let desc = NodeDescriptor { id: auth.node_id, addr, pubkey: auth.pubkey };
            let served = choose|served: DhtView|
                {
                    &&& #[trigger] answered(before, served, req, auth.node_id, now_ms, resp)
                    &&& after == (DhtView { routing: served.routing.heard(desc, now_ms).0, ..served })
                };
            law_tables_change_by_right_only(before, served, req, auth.node_id, now_ms, resp);
            law_heard_address_is_given(before.routing, desc, now_ms, e, e);
        }
    }
}

/// A peer is not cut off by its first request, nor by what other peers ask: one
/// that has not asked in the class of its request yet is answered, where the
/// bucket that all share lets it through.
pub proof fn law_first_request_is_answered(
    before: DhtView,
    after: DhtView,
    req: DhtRequest,
    auth: AuthenticatedPeer,
    addr: PeerAddr,
    now_ms: u64,
    shared: bool,
    own: bool,
    r: StreamStep,
)
    requires
        stream_handled(before, after, Inbound::Request(req), auth, addr, now_ms, shared, own, r),
    ensures
        !before.rate_limiters.global.asked ==> shared,
        shared && !before.rate_limiters.of_class(RpcClass::of(req.kind_of())).asked.contains(auth.node_id.bytes@) ==> r is Respond,
        !shared || !own ==> r == StreamStep::Close(CloseReason::DhtFlood),
{
}

/// A request draws from the bucket that all share and, where that lets it
/// through, from that of its peer for its own class; what is no request draws
/// nothing.
pub proof fn law_streams_draw_for_their_peer(
    before: DhtView,
    after: DhtView,
    inbound: Inbound,
    auth: AuthenticatedPeer,
    addr: PeerAddr,
    now_ms: u64,
    shared: bool,
    own: bool,
    r: StreamStep,
)
    requires
        stream_handled(before, after, inbound, auth, addr, now_ms, shared, own, r),
    ensures
        !(inbound is Request) ==> after == before && r is Close,
        inbound matches Inbound::Request(req) ==> {
            let class = RpcClass::of(req.kind_of());
            &&& after.rate_limiters.global.asked
            &&& shared ==> after.rate_limiters.of_class(class).asked == before.rate_limiters.of_class(
                class,
            ).asked.insert(auth.node_id.bytes@)
            &&& !shared ==> after.rate_limiters.of_class(class) == before.rate_limiters.of_class(class)
            &&& shared && own <==> r is Respond
        },
{
    if let Inbound::Request(req) = inbound {
        let class = RpcClass::of(req.kind_of());
        let drawn = DhtView { rate_limiters: before.rate_limiters.after_check(auth.node_id, class, shared), ..before };
        if let StreamStep::Respond(resp) = r {
            let desc = NodeDescriptor { id: auth.node_id, addr, pubkey: auth.pubkey };
            let served = choose|served: DhtView|
                {
                    &&& #[trigger] answered(drawn, served, req, auth.node_id, now_ms, resp)
                    &&& after == (DhtView { routing: served.routing.heard(desc, now_ms).0, ..served })
                };
            law_requests_keep_what_is_not_theirs(drawn, served, req, auth.node_id, now_ms, resp);
        }
    }
}

/// A request changes only what it is about: the tables and counters, and the
/// tokens of key packages and invitations. This relay's id, its limits, its
/// handles and the rate limiters of streams stay.
#[verifier::rlimit(60)]
pub proof fn law_requests_keep_what_is_not_theirs(
    before: DhtView,
    after: DhtView,
    req: DhtRequest,
    peer: NodeId,
    now_ms: u64,
    r: DhtResponse,
)
    requires
        answered(before, after, req, peer, now_ms, r),
    ensures
        after == (DhtView {
            queue: after.queue,
            keypackage: after.keypackage,
            welcome: after.welcome,
            metrics: after.metrics,
            kp_fetch_limiters: after.kp_fetch_limiters,
            welcome_limiters: after.welcome_limiters,
            ..before
        }),
        after.queue != before.queue ==> req is Forward || req is QueueFetchAck,
        after.keypackage != before.keypackage ==> req is KeyPackagePublish || req is KeyPackageRefill || req is KeyPackageFetch,
        after.welcome != before.welcome ==> req is WelcomePublish || req is WelcomeFetch || req is WelcomeAck,
        after.kp_fetch_limiters != before.kp_fetch_limiters ==> req is KeyPackageFetch,
        after.welcome_limiters != before.welcome_limiters ==> req is WelcomePublish || req is WelcomeFetch
            || req is WelcomeAck,
{
    match req {
        DhtRequest::Forward(f) => {
            assert(after == (DhtView { queue: after.queue, metrics: after.metrics, ..before }));
        },
        DhtRequest::QueueFetchAck(a) => {
            assert(after == (DhtView { queue: after.queue, ..before }));
        },
        DhtRequest::KeyPackagePublish(batch) => {
            assert(after == (DhtView { keypackage: after.keypackage, ..before }));
        },
        DhtRequest::KeyPackageRefill(batch) => {
            assert(after == (DhtView { keypackage: after.keypackage, ..before }));
        },
        DhtRequest::KeyPackageFetch(f) => {
            let outcome = r->KeyPackageFetch_0;
            if mls_kp::fetch_handled(before, after, f, peer, now_ms, true, outcome) {
                mls_kp::law_fetch_draws_for_its_pair(before, after, f, peer, now_ms, true, outcome);
            } else {
                mls_kp::law_fetch_draws_for_its_pair(before, after, f, peer, now_ms, false, outcome);
            }
        },
        DhtRequest::WelcomePublish(w) => {
            assert(after == (DhtView { welcome: after.welcome, welcome_limiters: after.welcome_limiters, ..before }));
        },
        DhtRequest::WelcomeFetch(w) => {
            let outcome = r->WelcomeFetch_0;
            if mls_welcome::fetch_handled(before, after, w, peer, now_ms, true, outcome) {
                mls_welcome::law_fetch_draws_for_its_peer(before, after, w, peer, now_ms, true, outcome);
            } else {
                mls_welcome::law_fetch_draws_for_its_peer(before, after, w, peer, now_ms, false, outcome);
            }
        },
        DhtRequest::WelcomeAck(w) => {
            let resp = r->WelcomeAck_0;
            if mls_welcome::ack_handled(before, after, w, peer, now_ms, true, resp) {
                mls_welcome::law_ack_draws_for_its_peer(before, after, w, peer, now_ms, true, resp);
            } else {
                mls_welcome::law_ack_draws_for_its_peer(before, after, w, peer, now_ms, false, resp);
            }
        },
        _ => {},
    }
}

/// Each kind of request counts as what it is.
pub proof fn law_kinds_go_by_their_names(req: DhtRequest)
    ensures
        req.kind_of() is Ping <==> req is Ping,
        req.kind_of() is FindNode <==> req is FindNode,
        req.kind_of() is FindValue <==> req is FindValue,
        req.kind_of() is Store <==> req is Store,
        req.kind_of() is Tombstone <==> req is Tombstone,
        req.kind_of() is MerkleSummary <==> req is MerkleSummary,
        req.kind_of() is MerkleDiff <==> req is MerkleDiff,
        req.kind_of() is FetchRecord <==> req is FetchRecord,
        req.kind_of() is Forward <==> req is Forward,
        req.kind_of() is QueueFetch <==> req is QueueFetch,
        req.kind_of() is QueueFetchAck <==> req is QueueFetchAck,
        req.kind_of() is KeyPackagePublish <==> req is KeyPackagePublish,
        req.kind_of() is KeyPackageFetch <==> req is KeyPackageFetch,
        req.kind_of() is KeyPackageRefill <==> req is KeyPackageRefill,
        req.kind_of() is WelcomePublish <==> req is WelcomePublish,
        req.kind_of() is WelcomeFetch <==> req is WelcomeFetch,
        req.kind_of() is WelcomeAck <==> req is WelcomeAck,
{
}

/// What is counted when a request is answered: pings, lookups of peers and of
/// records, and the two kinds of Merkle requests each at their own counter; no
/// counter of the others moves with them.
pub proof fn law_requests_are_counted(
    before: DhtView,
    after: DhtView,
    req: DhtRequest,
    peer: NodeId,
    now_ms: u64,
    r: DhtResponse,
)
    requires
        answered(before, after, req, peer, now_ms, r),
    ensures
        req is Ping ==> after.metrics == before.metrics.counted(Counter::PingsReceived),
        req is FindNode ==> after.metrics == before.metrics.counted(Counter::FindNodeRpcs),
        req is FindValue ==> after.metrics == before.metrics.counted(Counter::FindValueRpcs),
        req is MerkleSummary ==> after.metrics == before.metrics.counted(Counter::MerkleSummariesReceived),
        req is MerkleDiff ==> after.metrics == before.metrics.counted(Counter::MerkleDiffsReceived),
        req is Store || req is Tombstone || req is FetchRecord || req is QueueFetch || req is QueueFetchAck
            || req is KeyPackagePublish || req is KeyPackageFetch || req is KeyPackageRefill || req is WelcomePublish
            || req is WelcomeFetch || req is WelcomeAck ==> after.metrics == before.metrics,
{
}

} // verus!
