use ed25519_dalek::{Signer, SigningKey};
use relay::dht::bytes::xor32;
use relay::dht::config::{DhtConfig, K, RATE_LIMIT_EXPENSIVE_BURST};
use relay::dht::handler::{
    answer_stream, closest_excluding, handle_dht_request, handle_one_stream, handle_peer_connection, inbound_cert,
    judge_hello, make_hello, own_pubkey, recv_and_verify_hello, serve_peer_streams_ended,
    verify_hello_with_close_reason, AuthenticatedPeer, DhtHello, DhtHelloVerifyError, DhtRequest, DhtResponse,
    FindValueOutcome, HelloEvent, Inbound, StreamSlots, StreamStep,
};
use relay::dht::id::{NodeDescriptor, NodeId, PeerAddr};
use relay::dht::keyspace::Keyspace;
use relay::dht::queue_drain::MAX_FETCH_QUEUE_BATCH;
use relay::dht::rate_limit::{RpcClass, RpcKind};
use relay::dht::store::{enqueue_for_home, lookup_queue_for_user};
use relay::dht::sync::rpc::Held;
use relay::dht::wire::{
    CloseReason, DispatchP, ForwardOutcome, PresenceRecord, QueueFetch, QueueFetchAck, StoreOutcome,
    TombstoneOutcome, WireLimits,
};
use relay::dht::{Dht, Store};

const MAX_FIND_NODE_RESULTS: usize = 16;

fn key_n(n: u8) -> SigningKey {
    let mut seed = [0u8; 32];
    seed[0] = n;
    seed[31] = n;
    SigningKey::from_bytes(&seed)
}

fn id_n(n: u8) -> NodeId {
    let mut seed = [0u8; 32];
    seed[0] = n;
    NodeId::new(&seed)
}

fn fresh_dht(self_id: NodeId) -> Dht {
    let limits = WireLimits {
        max_find_node_results: MAX_FIND_NODE_RESULTS,
        max_fetch_record_batch: 64,
        queue_skew_ms: 60_000,
        max_fetch_queue_ack_ids: 256,
        kp_stash_target: 100,
        keypackage_lifetime_ms: 2_592_000_000,
        max_welcome_ack_ids: 64,
    };
    let store = Store { queue: Keyspace::new(), keypackage: Keyspace::new(), welcome: Keyspace::new() };
    Dht::new(self_id, DhtConfig::default(), limits, store, 1000, 1000, 0)
}

fn local() -> PeerAddr {
    PeerAddr::V4 { octets: [127, 0, 0, 1], port: 1 }
}

fn desc(id: NodeId) -> NodeDescriptor {
    NodeDescriptor { id, addr: local(), pubkey: [0u8; 32] }
}

fn fake_peer_id() -> NodeId {
    NodeId::new(&[0xFAu8; 32])
}

fn wall_clock_ms() -> u64 {
    std::time::SystemTime::now().duration_since(std::time::UNIX_EPOCH).map(|d| d.as_millis() as u64).unwrap_or(0)
}

fn build_record(user_ipk: [u8; 32], relay: &SigningKey, generation: u64, not_before: u64, ttl_ms: u64) -> PresenceRecord {
    let relay_pubkey = relay.verifying_key().to_bytes();
    PresenceRecord {
        user_ipk,
        relay_id: NodeId::new(&relay_pubkey),
        relay_pubkey,
        not_before,
        not_after: not_before + ttl_ms,
        generation,
        capabilities: 0,
        user_sig: [1u8; 64],
        relay_sig: [2u8; 64],
    }
}

fn build_dispatch(from_user: &SigningKey, to_ipk: &[u8; 32], id: [u8; 16], payload: &[u8]) -> DispatchP {
    let from = from_user.verifying_key().to_bytes();
    DispatchP { to: *to_ipk, from, id, payload: payload.to_vec(), sig: from_user.sign(payload).to_bytes() }
}

fn fetch_of(user: &SigningKey, requester_relay_id: NodeId, timestamp: u64) -> QueueFetch {
    let user_ipk = user.verifying_key().to_bytes();
    let mut transcript = b"queue-fetch".to_vec();
    transcript.extend_from_slice(&user_ipk);
    transcript.extend_from_slice(requester_relay_id.as_bytes());
    transcript.extend_from_slice(&timestamp.to_be_bytes());
    let user_sig = user.sign(&transcript).to_bytes();
    QueueFetch { user_ipk, requester_relay_id, timestamp, user_sig, transcript }
}

fn ack_of(user: &SigningKey, requester_relay_id: NodeId, ids: Vec<[u8; 16]>, timestamp: u64) -> QueueFetchAck {
    let user_ipk = user.verifying_key().to_bytes();
    let mut transcript = b"queue-fetch-ack".to_vec();
    transcript.extend_from_slice(&user_ipk);
    transcript.extend_from_slice(requester_relay_id.as_bytes());
    for id in &ids {
        transcript.extend_from_slice(id);
    }
    transcript.extend_from_slice(&timestamp.to_be_bytes());
    let user_sig = user.sign(&transcript).to_bytes();
    QueueFetchAck { user_ipk, requester_relay_id, delivered_ids: ids, timestamp, user_sig, transcript }
}

#[test]
fn handle_ping_returns_pong_with_same_nonce() {
    let mut dht = fresh_dht(id_n(1));
    let nonce = [42u8; 16];
    let req = DhtRequest::Ping { nonce, timestamp: 999 };
    match handle_dht_request(&mut dht, &req, &fake_peer_id(), wall_clock_ms()) {
        DhtResponse::Pong { nonce: back, timestamp } => {
            assert_eq!(back, nonce);
            assert!(timestamp > 0);
        }
        other => panic!("expected Pong, got {other:?}"),
    }
    assert_eq!(dht.metrics.pings_received, 1);
}

#[test]
fn handle_find_node_returns_closer_excluding_requester() {
    let mut dht = fresh_dht(id_n(1));
    for n in 2..=6u8 {
        dht.routing.insert(desc(id_n(n)), 0);
    }
    let requester = id_n(3);
    let target = id_n(4);
    let req = DhtRequest::FindNode { target: *target.as_bytes(), requester };
    match handle_dht_request(&mut dht, &req, &fake_peer_id(), wall_clock_ms()) {
        DhtResponse::FindNode(closer) => {
            assert!(closer.len() <= MAX_FIND_NODE_RESULTS);
            assert!(closer.iter().all(|d| d.id != requester));
            assert_eq!(closer.len(), 4);
            assert_eq!(closer[0].id, target);
        }
        other => panic!("expected FindNode, got {other:?}"),
    }
}

#[test]
fn handle_find_value_returns_found_when_record_present() {
    let user_ipk = key_n(1).verifying_key().to_bytes();
    let relay = key_n(2);
    let mut dht = fresh_dht(NodeId::new(&relay.verifying_key().to_bytes()));
    let now = wall_clock_ms();
    let record = build_record(user_ipk, &relay, 1, now, 600_000);
    let req = DhtRequest::FindValue { user_ipk, requester: id_n(99), held: Some(record) };
    match handle_dht_request(&mut dht, &req, &fake_peer_id(), now) {
        DhtResponse::FindValue(FindValueOutcome::Found(rec)) => assert_eq!(rec, record),
        other => panic!("expected Found, got {other:?}"),
    }
}

#[test]
fn handle_find_value_returns_not_present_when_self_in_owners() {
    let mut dht = fresh_dht(id_n(1));
    let req = DhtRequest::FindValue { user_ipk: [7u8; 32], requester: id_n(99), held: None };
    match handle_dht_request(&mut dht, &req, &fake_peer_id(), wall_clock_ms()) {
        DhtResponse::FindValue(r) => assert!(matches!(r, FindValueOutcome::NotPresent)),
        other => panic!("expected FindValue, got {other:?}"),
    }
}

#[test]
fn find_value_far_from_home_names_closer_peers() {
    let mut dht = fresh_dht(NodeId::from_bytes([0x80; 32]));
    for n in 1..=3u8 {
        dht.routing.insert(desc(NodeId::from_bytes([n; 32])), 0);
    }
    let requester = NodeId::from_bytes([2; 32]);
    let req = DhtRequest::FindValue { user_ipk: [0u8; 32], requester, held: None };
    match handle_dht_request(&mut dht, &req, &fake_peer_id(), 5) {
        DhtResponse::FindValue(FindValueOutcome::Closer(peers)) => {
            let ids: Vec<u8> = peers.iter().map(|d| d.id.as_bytes()[0]).collect();
            assert_eq!(ids, vec![1, 3]);
        }
        other => panic!("expected Closer, got {other:?}"),
    }
}

#[test]
fn handle_dispatch_per_peer_rate_limit_trips_on_store_burst() {
    let mut dht = fresh_dht(id_n(1));
    let peer_id = NodeId::new(&[0xAA; 32]);
    for _ in 0..((RATE_LIMIT_EXPENSIVE_BURST as usize) + 5) {
        let _ = dht.rate_limiters.check(&peer_id, RpcClass::Expensive);
    }
    let mut denied = 0;
    for _ in 0..50 {
        if dht.rate_limiters.check(&peer_id, RpcClass::Expensive).is_err() {
            denied += 1;
        }
    }
    assert!(denied > 0, "Dht::rate_limiters must trip under burst");
}

#[test]
fn handle_merkle_summary_with_zero_bitset_returns_no_roots() {
    let mut dht = fresh_dht(id_n(1));
    let req = DhtRequest::MerkleSummary { slices: [0u8; 32] };
    match handle_dht_request(&mut dht, &req, &fake_peer_id(), 0) {
        DhtResponse::MerkleSummary(roots) => assert!(roots.is_empty()),
        other => panic!("expected MerkleSummary, got {other:?}"),
    }
}

fn hello_of(secret: u8, timestamp: u64) -> DhtHello {
    let key = key_n(secret);
    let pubkey = key.verifying_key().to_bytes();
    let node_id = NodeId::new(&pubkey);
    let mut transcript = b"dht-hello".to_vec();
    transcript.extend_from_slice(node_id.as_bytes());
    transcript.extend_from_slice(&pubkey);
    transcript.extend_from_slice(&timestamp.to_be_bytes());
    make_hello(node_id, &key.to_bytes(), timestamp, transcript)
}

#[test]
fn verify_hello_close_reason_maps_clock_skew() {
    let now: u64 = 1_700_000_000_000;
    let stale = hello_of(1, now - 120_000);
    match verify_hello_with_close_reason(&stale, now) {
        Err(CloseReason::DhtClockSkew) => {}
        other => panic!("expected DhtClockSkew, got {other:?}"),
    }
}

#[test]
fn verify_hello_close_reason_maps_bad_signature() {
    let now: u64 = 1_700_000_000_000;
    let mut hello = hello_of(1, now);
    hello.sig[0] ^= 0xFF;
    match verify_hello_with_close_reason(&hello, now) {
        Err(CloseReason::DhtBadSignature) => {}
        other => panic!("expected DhtBadSignature, got {other:?}"),
    }
}

#[test]
fn verify_hello_close_reason_maps_id_mismatch_to_malformed_key() {
    let now: u64 = 1_700_000_000_000;
    let mut hello = hello_of(1, now);
    hello.node_id = NodeId::new(&key_n(2).verifying_key().to_bytes());
    match verify_hello_with_close_reason(&hello, now) {
        Err(CloseReason::DhtMalformedKey) => {}
        other => panic!("expected DhtMalformedKey, got {other:?}"),
    }
}

#[test]
fn verify_hello_close_reason_passes_freshly_signed() {
    let now: u64 = 1_700_000_000_000;
    let hello = hello_of(1, now);
    verify_hello_with_close_reason(&hello, now).expect("valid hello must pass");
    verify_hello_with_close_reason(&hello, now + 5).expect("inside skew window must pass");
}

#[test]
fn dht_hello_metrics_initially_zero_then_bump_on_reject() {
    let mut dht = fresh_dht(id_n(1));
    assert_eq!(dht.metrics.dht_hello_accepted, 0);
    assert_eq!(dht.metrics.dht_hello_rejected, 0);
    dht.metrics.inc_dht_hello_accepted();
    dht.metrics.inc_dht_hello_rejected();
    dht.metrics.inc_dht_hello_rejected();
    assert_eq!(dht.metrics.dht_hello_accepted, 1);
    assert_eq!(dht.metrics.dht_hello_rejected, 2);
}

#[test]
fn handle_queue_fetch_rpc_returns_messages_for_owned_user() {
    let self_id = id_n(1);
    let mut dht = fresh_dht(self_id);
    let user = key_n(1);
    let user_ipk = user.verifying_key().to_bytes();
    let from_user = key_n(2);
    let now = wall_clock_ms();
    for i in 0..3u8 {
        let mut id = [0u8; 16];
        id[0] = i;
        let dispatch = build_dispatch(&from_user, &user_ipk, id, b"qf");
        let outcome = enqueue_for_home(&mut dht, &user_ipk, &dispatch, now + i as u64);
        assert_eq!(outcome, ForwardOutcome::Stored);
    }
    let req = DhtRequest::QueueFetch(fetch_of(&user, self_id, now));
    match handle_dht_request(&mut dht, &req, &self_id, now) {
        DhtResponse::QueueFetch(r) => {
            assert_eq!(r.messages.len(), 3, "all three queued returned");
            assert!(r.exhausted, "fewer than batch cap is exhausted");
        }
        other => panic!("expected QueueFetch, got {other:?}"),
    }
}

#[test]
fn handle_queue_fetch_rpc_returns_empty_when_self_not_owner() {
    let self_id = id_n(0xFF);
    let mut dht = fresh_dht(self_id);
    for i in 0..3u8 {
        let mut s = [0u8; 32];
        s[31] = i;
        dht.routing.insert(desc(NodeId::new(&s)), 0);
    }
    let now = wall_clock_ms();
    let mut drifted = 0;
    for n in 1..=50u8 {
        let user = key_n(n);
        let user_ipk = user.verifying_key().to_bytes();
        let closest = dht.routing.find_closest(&NodeId::from_bytes(user_ipk), K);
        assert_eq!(closest.len(), K);
        if xor32(self_id.as_bytes(), &user_ipk) <= xor32(closest[K - 1].id.as_bytes(), &user_ipk) {
            continue;
        }
        drifted += 1;
        let dispatch = build_dispatch(&key_n(60), &user_ipk, [1u8; 16], b"held");
        enqueue_for_home(&mut dht, &user_ipk, &dispatch, now);
        let req = DhtRequest::QueueFetch(fetch_of(&user, self_id, now));
        match handle_dht_request(&mut dht, &req, &self_id, now) {
            DhtResponse::QueueFetch(r) => {
                assert!(r.messages.is_empty());
                assert!(r.exhausted);
            }
            other => panic!("expected QueueFetch, got {other:?}"),
        }
    }
    assert!(drifted > 0);
}

#[test]
fn handle_queue_fetch_rpc_caps_at_max_batch() {
    let self_id = id_n(1);
    let mut dht = fresh_dht(self_id);
    let user = key_n(1);
    let user_ipk = user.verifying_key().to_bytes();
    let from_user = key_n(2);
    let now = wall_clock_ms();
    for i in 0..MAX_FETCH_QUEUE_BATCH + 5 {
        let mut id = [0u8; 16];
        id[0..8].copy_from_slice(&(i as u64).to_be_bytes());
        let dispatch = build_dispatch(&from_user, &user_ipk, id, b"x");
        enqueue_for_home(&mut dht, &user_ipk, &dispatch, now + i as u64);
    }
    let req = DhtRequest::QueueFetch(fetch_of(&user, self_id, now));
    match handle_dht_request(&mut dht, &req, &self_id, now) {
        DhtResponse::QueueFetch(r) => {
            assert_eq!(r.messages.len(), MAX_FETCH_QUEUE_BATCH);
            assert!(!r.exhausted, "more entries remain after the cap");
        }
        other => panic!("expected QueueFetch, got {other:?}"),
    }
}

#[test]
fn handle_queue_fetch_rpc_marks_exhausted_correctly() {
    let self_id = id_n(1);
    let mut dht = fresh_dht(self_id);
    let user = key_n(1);
    let user_ipk = user.verifying_key().to_bytes();
    let from_user = key_n(2);
    let now = wall_clock_ms();
    for i in 0..MAX_FETCH_QUEUE_BATCH {
        let mut id = [0u8; 16];
        id[0..8].copy_from_slice(&(i as u64).to_be_bytes());
        let dispatch = build_dispatch(&from_user, &user_ipk, id, b"y");
        enqueue_for_home(&mut dht, &user_ipk, &dispatch, now + i as u64);
    }
    let req = DhtRequest::QueueFetch(fetch_of(&user, self_id, now));
    match handle_dht_request(&mut dht, &req, &self_id, now) {
        DhtResponse::QueueFetch(r) => {
            assert_eq!(r.messages.len(), MAX_FETCH_QUEUE_BATCH);
            assert!(r.exhausted, "exactly cap is exhausted");
        }
        other => panic!("expected QueueFetch, got {other:?}"),
    }
}

#[test]
fn handle_queue_fetch_ack_rpc_deletes_listed_ids() {
    let mut dht = fresh_dht(id_n(1));
    let user = key_n(1);
    let user_ipk = user.verifying_key().to_bytes();
    let from_user = key_n(2);
    let now = wall_clock_ms();
    let ids = [[1u8; 16], [2u8; 16], [3u8; 16]];
    for &id in &ids {
        let dispatch = build_dispatch(&from_user, &user_ipk, id, b"ack-test");
        enqueue_for_home(&mut dht, &user_ipk, &dispatch, now);
    }
    let requester = id_n(0x77);
    let req = DhtRequest::QueueFetchAck(ack_of(&user, requester, vec![ids[0], ids[1]], now));
    match handle_dht_request(&mut dht, &req, &requester, now) {
        DhtResponse::QueueFetchAck(r) => assert!(r.ok),
        other => panic!("expected QueueFetchAck, got {other:?}"),
    }
    let remaining = lookup_queue_for_user(&dht, &user_ipk, 8);
    assert_eq!(remaining.len(), 1, "exactly one entry left");
    assert_eq!(remaining[0].1.id, ids[2], "the un-acked id survived");
}

#[test]
fn handle_queue_fetch_ack_rpc_rejects_redirected_requester() {
    let mut dht = fresh_dht(id_n(1));
    let user = key_n(1);
    let user_ipk = user.verifying_key().to_bytes();
    let now = wall_clock_ms();
    let id = [42u8; 16];
    let dispatch = build_dispatch(&key_n(2), &user_ipk, id, b"redirected");
    enqueue_for_home(&mut dht, &user_ipk, &dispatch, now);
    let requester_a = id_n(0xAA);
    let requester_b = id_n(0xBB);
    let req = DhtRequest::QueueFetchAck(ack_of(&user, requester_a, vec![id], now));
    match handle_dht_request(&mut dht, &req, &requester_b, now) {
        DhtResponse::QueueFetchAck(r) => assert!(!r.ok, "redirected ack must be rejected"),
        other => panic!("expected QueueFetchAck, got {other:?}"),
    }
    let remaining = lookup_queue_for_user(&dht, &user_ipk, 8);
    assert_eq!(remaining.len(), 1, "queue untouched after rejection");
}

#[test]
fn handle_queue_fetch_rpc_rejects_redirected_requester() {
    let mut dht = fresh_dht(id_n(1));
    let user = key_n(1);
    let user_ipk = user.verifying_key().to_bytes();
    let now = wall_clock_ms();
    let dispatch = build_dispatch(&key_n(2), &user_ipk, [7u8; 16], b"qf-redirect");
    enqueue_for_home(&mut dht, &user_ipk, &dispatch, now);
    let requester_a = id_n(0xAA);
    let requester_b = id_n(0xBB);
    let req = DhtRequest::QueueFetch(fetch_of(&user, requester_a, now));
    match handle_dht_request(&mut dht, &req, &requester_b, now) {
        DhtResponse::QueueFetch(r) => {
            assert!(r.messages.is_empty(), "must not leak queue to redirector");
            assert!(r.exhausted);
        }
        other => panic!("expected QueueFetch, got {other:?}"),
    }
}

#[test]
fn handle_queue_fetch_ack_rpc_rejects_bad_sig() {
    let mut dht = fresh_dht(id_n(1));
    let user = key_n(1);
    let user_ipk = user.verifying_key().to_bytes();
    let now = wall_clock_ms();
    let id = [9u8; 16];
    let dispatch = build_dispatch(&key_n(2), &user_ipk, id, b"ack-bad");
    enqueue_for_home(&mut dht, &user_ipk, &dispatch, now);
    let requester = id_n(0x77);
    let mut ack = ack_of(&user, requester, vec![id], now);
    ack.user_sig = [0u8; 64];
    match handle_dht_request(&mut dht, &DhtRequest::QueueFetchAck(ack), &requester, now) {
        DhtResponse::QueueFetchAck(r) => assert!(!r.ok),
        other => panic!("expected QueueFetchAck, got {other:?}"),
    }
    let remaining = lookup_queue_for_user(&dht, &user_ipk, 8);
    assert_eq!(remaining.len(), 1);
}

#[test]
fn each_refusal_of_a_hello_has_its_input() {
    let now = 1_000_000;
    assert_eq!(judge_hello(now, true, true, true, now), Ok(()));
    assert_eq!(judge_hello(now, false, false, false, now), Err(DhtHelloVerifyError::IdMismatch));
    assert_eq!(judge_hello(now, true, false, false, now), Err(DhtHelloVerifyError::MalformedPubkey));
    assert_eq!(judge_hello(now, true, true, false, now), Err(DhtHelloVerifyError::BadSignature));
    assert_eq!(judge_hello(now + 60_001, true, true, true, now), Err(DhtHelloVerifyError::ClockSkew));
    assert_eq!(judge_hello(now + 60_000, true, true, true, now), Ok(()));
    assert_eq!(hello_of(1, now).verify(now), Ok(()));
}

#[test]
fn hello_carries_the_key_and_its_signature() {
    let key = key_n(5);
    assert_eq!(own_pubkey(&key.to_bytes()), key.verifying_key().to_bytes());
    let hello = make_hello(id_n(1), &key.to_bytes(), 7, b"transcript".to_vec());
    assert_eq!(hello.pubkey, key.verifying_key().to_bytes());
    assert_eq!(hello.sig, key.sign(b"transcript").to_bytes());
    assert_eq!(hello.timestamp, 7);
}

#[test]
fn hello_events_are_told_apart() {
    let mut dht = fresh_dht(id_n(1));
    let now = 1_700_000_000_000;
    assert_eq!(recv_and_verify_hello(&mut dht, &HelloEvent::ConnectionEnded, now).unwrap_err(), None);
    assert_eq!(dht.metrics.dht_hello_rejected, 1);
    assert!(recv_and_verify_hello(&mut dht, &HelloEvent::TimedOut, now).is_err());
    assert!(recv_and_verify_hello(&mut dht, &HelloEvent::Malformed, now).is_err());
    assert_eq!(dht.metrics.dht_hello_rejected, 3);
    let auth = recv_and_verify_hello(&mut dht, &HelloEvent::Hello(hello_of(4, now)), now).unwrap();
    assert_eq!(auth.pubkey, key_n(4).verifying_key().to_bytes());
    assert_eq!(auth.node_id, NodeId::new(&auth.pubkey));
    assert_eq!(dht.metrics.dht_hello_rejected, 3);
    assert_eq!(dht.metrics.dht_hello_accepted, 1);
}

#[test]
fn connection_is_admitted_under_its_own_key_only() {
    let mut dht = fresh_dht(id_n(1));
    let pubkey = key_n(4).verifying_key().to_bytes();
    let auth = AuthenticatedPeer::new(NodeId::new(&pubkey), pubkey);
    assert_eq!(
        handle_peer_connection(&mut dht, Some([9u8; 32]), &auth, local(), 11, 5),
        Err(CloseReason::DhtBadSignature)
    );
    assert_eq!(dht.routing.total_known(), 0);
    assert_eq!(handle_peer_connection(&mut dht, Some(pubkey), &auth, local(), 11, 5), Ok(()));
    assert_eq!(dht.routing.total_known(), 1);
    assert_eq!(dht.peer_conns.len(), 1);
    assert_eq!(dht.metrics.dht_hello_rejected, 1);
    assert_eq!(dht.metrics.dht_hello_accepted, 0);
    assert!(!serve_peer_streams_ended(&mut dht, 12));
    assert!(serve_peer_streams_ended(&mut dht, 11));
    assert!(dht.peer_conns.is_empty());
    assert_eq!(dht.metrics.peer_conns_closed, 1);
}

#[test]
fn certificate_that_cannot_be_read_ends_the_connection() {
    let mut dht = fresh_dht(id_n(1));
    assert_eq!(inbound_cert(&mut dht, &None), Ok(None));
    assert_eq!(inbound_cert(&mut dht, &Some(vec![1, 2, 3])), Err(CloseReason::DhtMalformedKey));
    assert_eq!(dht.metrics.cert_pubkey_extraction_failures, 1);
}

#[test]
fn stream_slots_are_sixteen() {
    let mut slots = StreamSlots::new();
    for _ in 0..16 {
        assert!(slots.take());
    }
    assert!(!slots.take());
    slots.give_back();
    assert!(slots.take());
}

#[test]
fn streams_are_answered_or_closed() {
    let mut dht = fresh_dht(id_n(1));
    let pubkey = key_n(4).verifying_key().to_bytes();
    let auth = AuthenticatedPeer::new(NodeId::new(&pubkey), pubkey);
    assert!(matches!(
        handle_one_stream(&mut dht, &Inbound::Undecodable, &auth, local(), 5),
        StreamStep::Close(CloseReason::DhtMalformedKey)
    ));
    assert!(matches!(
        handle_one_stream(&mut dht, &Inbound::Response, &auth, local(), 5),
        StreamStep::Close(CloseReason::PacketMismatch)
    ));
    let ping = Inbound::Request(DhtRequest::Ping { nonce: [1u8; 16], timestamp: 1 });
    assert!(matches!(
        answer_stream(&mut dht, &ping, &auth, local(), 5, false),
        StreamStep::Close(CloseReason::DhtFlood)
    ));
    assert_eq!(dht.metrics.rate_limit_rejections, 1);
    assert_eq!(dht.routing.total_known(), 0);
    assert!(matches!(
        handle_one_stream(&mut dht, &ping, &auth, local(), 5),
        StreamStep::Respond(DhtResponse::Pong { timestamp: 5, .. })
    ));
    assert_eq!(dht.routing.total_known(), 1);
}

#[test]
fn outcomes_of_the_stores_are_passed_on() {
    let mut dht = fresh_dht(id_n(1));
    let peer = fake_peer_id();
    let stored = handle_dht_request(&mut dht, &DhtRequest::Store(StoreOutcome::Stored), &peer, 1);
    assert!(matches!(stored, DhtResponse::Store(StoreOutcome::Stored)));
    let refused = handle_dht_request(&mut dht, &DhtRequest::Store(StoreOutcome::BadSig), &peer, 1);
    assert!(matches!(refused, DhtResponse::Store(StoreOutcome::BadSig)));
    let tomb = handle_dht_request(&mut dht, &DhtRequest::Tombstone(TombstoneOutcome::Stored), &peer, 1);
    assert!(matches!(tomb, DhtResponse::Tombstone(TombstoneOutcome::Stored)));
    let held = vec![Held { tombstone: None, record: None }];
    match handle_dht_request(&mut dht, &DhtRequest::FetchRecord(held), &peer, 1) {
        DhtResponse::FetchRecord(r) => assert!(r.records.is_empty() && r.tombstones.is_empty()),
        other => panic!("expected FetchRecord, got {other:?}"),
    }
}

#[test]
fn requests_have_their_kind() {
    assert_eq!(DhtRequest::Ping { nonce: [0u8; 16], timestamp: 0 }.kind(), RpcKind::Ping);
    assert_eq!(DhtRequest::Store(StoreOutcome::Stored).kind(), RpcKind::Store);
    assert_eq!(DhtRequest::FetchRecord(Vec::new()).kind(), RpcKind::FetchRecord);
}

#[test]
fn closest_peers_leave_out_the_one_that_asks() {
    let mut dht = fresh_dht(NodeId::from_bytes([0x80; 32]));
    for n in 1..=5u8 {
        dht.routing.insert(desc(NodeId::from_bytes([n; 32])), 0);
    }
    let target = NodeId::from_bytes([0u8; 32]);
    let got = closest_excluding(&dht.routing, &target, &NodeId::from_bytes([2; 32]), 3);
    let ids: Vec<u8> = got.iter().map(|d| d.id.as_bytes()[0]).collect();
    assert_eq!(ids, vec![1, 3, 4]);
}
