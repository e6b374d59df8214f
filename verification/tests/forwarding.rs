use ed25519_dalek::{Signer, SigningKey};
use relay::dht::config::DhtConfig;
use relay::dht::forward::{answer_forward, forward_is_refused, gate_forward, handle_forward_rpc, Forward};
use relay::dht::handler::{handle_dht_request, DhtRequest, DhtResponse};
use relay::dht::id::{NodeDescriptor, NodeId, PeerAddr};
use relay::dht::keyspace::Keyspace;
use relay::dht::store::{lookup_queue_for_user, MAX_QUEUED_PER_RECIPIENT};
use relay::dht::wire::{DispatchP, ForwardOutcome, WireLimits};
use relay::dht::{Dht, Store};

fn key_n(n: u8) -> SigningKey {
    let mut seed = [0u8; 32];
    seed[0] = n;
    seed[31] = n;
    SigningKey::from_bytes(&seed)
}

fn fresh_dht(self_id: NodeId) -> Dht {
    let limits = WireLimits {
        max_find_node_results: 16,
        max_fetch_record_batch: 64,
        queue_skew_ms: 60_000,
        max_fetch_queue_ack_ids: 256,
        kp_stash_target: 100,
        keypackage_lifetime_ms: 2_592_000_000,
        max_welcome_ack_ids: 64,
    };
    let store = Store { queue: Keyspace::new(), keypackage: Keyspace::new(), welcome: Keyspace::new() };
    Dht::new(self_id, DhtConfig::default(), limits, store, 1000, 1000, 0)
}

fn dht_of_seed(n: u8) -> Dht {
    let mut seed = [0u8; 32];
    seed[0] = n;
    fresh_dht(NodeId::new(&seed))
}

fn fake_peer_id() -> NodeId {
    NodeId::new(&[0xFAu8; 32])
}

fn wall_clock_ms() -> u64 {
    std::time::SystemTime::now().duration_since(std::time::UNIX_EPOCH).map(|d| d.as_millis() as u64).unwrap_or(0)
}

fn descriptor(id: NodeId, pubkey: [u8; 32]) -> NodeDescriptor {
    NodeDescriptor { id, addr: PeerAddr::V4 { octets: [127, 0, 0, 1], port: 1 }, pubkey }
}

fn install_peer_in_routing(dht: &mut Dht, relay: &SigningKey) {
    let pubkey = relay.verifying_key().to_bytes();
    dht.routing.insert(descriptor(NodeId::new(&pubkey), pubkey), 0);
}

fn build_dispatch(from_user: &SigningKey, to: &[u8; 32], id: [u8; 16], payload: &[u8]) -> (DispatchP, Vec<u8>) {
    let from = from_user.verifying_key().to_bytes();
    let mut transcript = b"dispatch".to_vec();
    transcript.extend_from_slice(to);
    transcript.extend_from_slice(&from);
    transcript.extend_from_slice(&id);
    transcript.extend_from_slice(payload);
    let sig = from_user.sign(&transcript).to_bytes();
    (DispatchP { to: *to, from, id, payload: payload.to_vec(), sig }, transcript)
}

fn build_signed_forward(relay: &SigningKey, dispatch: (DispatchP, Vec<u8>), now_ms: u64) -> Forward {
    let (dispatch, dispatch_transcript) = dispatch;
    let sender_relay_id = NodeId::new(&relay.verifying_key().to_bytes());
    let mut transcript = b"forward".to_vec();
    transcript.extend_from_slice(&dispatch.id);
    transcript.extend_from_slice(sender_relay_id.as_bytes());
    transcript.extend_from_slice(&now_ms.to_be_bytes());
    let sig = relay.sign(&transcript).to_bytes();
    Forward { dispatch, dispatch_transcript, sender_relay_id, timestamp: now_ms, sig, transcript, delivered: false }
}

fn outcome_of(resp: DhtResponse) -> ForwardOutcome {
    match resp {
        DhtResponse::Forward(outcome) => outcome,
        other => panic!("expected Forward, got {other:?}"),
    }
}

#[test]
fn handle_forward_rpc_queues_when_recipient_offline() {
    let mut dht = dht_of_seed(1);
    let relay = key_n(1);
    install_peer_in_routing(&mut dht, &relay);
    let to_ipk = key_n(3).verifying_key().to_bytes();
    let now = wall_clock_ms();
    let fwd = build_signed_forward(&relay, build_dispatch(&key_n(2), &to_ipk, [0xAB; 16], b"hi-offline"), now);
    let resp = handle_dht_request(&mut dht, &DhtRequest::Forward(fwd), &fake_peer_id(), now);
    assert_eq!(outcome_of(resp), ForwardOutcome::Stored);
    let queue = lookup_queue_for_user(&dht, &to_ipk, 8);
    assert_eq!(queue.len(), 1);
    assert_eq!(queue[0].1.id, [0xAB; 16]);
}

#[test]
fn handle_forward_rpc_rejects_bad_sender_sig() {
    let mut dht = dht_of_seed(1);
    let relay = key_n(1);
    install_peer_in_routing(&mut dht, &relay);
    let to_ipk = key_n(3).verifying_key().to_bytes();
    let now = wall_clock_ms();
    let mut fwd = build_signed_forward(&relay, build_dispatch(&key_n(2), &to_ipk, [0xAB; 16], b"hi"), now);
    fwd.sig[0] ^= 0xFF;
    let resp = handle_dht_request(&mut dht, &DhtRequest::Forward(fwd), &fake_peer_id(), now);
    assert_eq!(outcome_of(resp), ForwardOutcome::BadSig);
}

#[test]
fn handle_forward_rpc_rejects_bad_dispatch_sig() {
    let mut dht = dht_of_seed(1);
    let relay = key_n(1);
    install_peer_in_routing(&mut dht, &relay);
    let to_ipk = key_n(3).verifying_key().to_bytes();
    let now = wall_clock_ms();
    let mut dispatch = build_dispatch(&key_n(2), &to_ipk, [0xAB; 16], b"hi");
    dispatch.0.sig[0] ^= 0xFF;
    let fwd = build_signed_forward(&relay, dispatch, now);
    let resp = handle_dht_request(&mut dht, &DhtRequest::Forward(fwd), &fake_peer_id(), now);
    assert_eq!(outcome_of(resp), ForwardOutcome::BadSig);
}

#[test]
fn handle_forward_rpc_returns_not_owner_when_self_not_in_k_closest() {
    let mut dht = dht_of_seed(0xFF);
    let relay = key_n(1);
    install_peer_in_routing(&mut dht, &relay);
    for i in 0..3u8 {
        let mut s = [0u8; 32];
        s[31] = i;
        dht.routing.insert(descriptor(NodeId::new(&s), [0u8; 32]), 0);
    }
    let to_ipk = [0u8; 32];
    let now = wall_clock_ms();
    let fwd = build_signed_forward(&relay, build_dispatch(&key_n(2), &to_ipk, [0xAB; 16], b"hi"), now);
    let resp = handle_dht_request(&mut dht, &DhtRequest::Forward(fwd), &fake_peer_id(), now);
    assert_eq!(outcome_of(resp), ForwardOutcome::NotOwner);
    assert!(lookup_queue_for_user(&dht, &to_ipk, 8).is_empty());
}

#[test]
fn handle_forward_rpc_delivers_when_recipient_online() {
    let mut dht = dht_of_seed(1);
    let relay = key_n(1);
    install_peer_in_routing(&mut dht, &relay);
    let to_ipk = key_n(3).verifying_key().to_bytes();
    let now = wall_clock_ms();
    let fwd = build_signed_forward(&relay, build_dispatch(&key_n(2), &to_ipk, [0xAB; 16], b"online-test"), now);
    let resp = handle_dht_request(&mut dht, &DhtRequest::Forward(fwd), &fake_peer_id(), now);
    assert_eq!(outcome_of(resp), ForwardOutcome::Stored);
}

#[test]
fn delivered_message_is_not_queued() {
    let mut dht = dht_of_seed(1);
    let relay = key_n(1);
    install_peer_in_routing(&mut dht, &relay);
    let to_ipk = key_n(3).verifying_key().to_bytes();
    let mut fwd = build_signed_forward(&relay, build_dispatch(&key_n(2), &to_ipk, [7; 16], b"here"), 1);
    fwd.delivered = true;
    assert_eq!(forward_is_refused(&dht, &fwd), None);
    assert_eq!(handle_forward_rpc(&mut dht, &fwd, 1), ForwardOutcome::Delivered);
    assert!(lookup_queue_for_user(&dht, &to_ipk, 8).is_empty());
    fwd.dispatch_transcript.push(0);
    assert_eq!(handle_forward_rpc(&mut dht, &fwd, 1), ForwardOutcome::BadSig);
}

#[test]
fn unknown_relay_vouches_for_nothing() {
    let mut dht = dht_of_seed(1);
    let relay = key_n(1);
    let to_ipk = key_n(3).verifying_key().to_bytes();
    let fwd = build_signed_forward(&relay, build_dispatch(&key_n(2), &to_ipk, [7; 16], b"who"), 1);
    assert_eq!(handle_forward_rpc(&mut dht, &fwd, 1), ForwardOutcome::BadSig);
    install_peer_in_routing(&mut dht, &key_n(4));
    assert_eq!(handle_forward_rpc(&mut dht, &fwd, 1), ForwardOutcome::BadSig);
    install_peer_in_routing(&mut dht, &relay);
    assert_eq!(handle_forward_rpc(&mut dht, &fwd, 1), ForwardOutcome::Stored);
}

#[test]
fn refusals_of_messages() {
    for sender in [false, true] {
        for home in [false, true] {
            assert_eq!(gate_forward(false, sender, home), Some(ForwardOutcome::BadSig));
        }
    }
    assert_eq!(gate_forward(true, false, true), Some(ForwardOutcome::BadSig));
    assert_eq!(gate_forward(true, true, false), Some(ForwardOutcome::NotOwner));
    assert_eq!(gate_forward(true, true, true), None);
}

#[test]
fn full_queue_takes_no_forward() {
    let mut dht = dht_of_seed(1);
    let to_ipk = [5u8; 32];
    let relay = key_n(1);
    for n in 0..MAX_QUEUED_PER_RECIPIENT {
        let mut id = [0u8; 16];
        id[..8].copy_from_slice(&(n as u64).to_be_bytes());
        let dispatch = DispatchP { to: to_ipk, from: [0; 32], id, payload: Vec::new(), sig: [0; 64] };
        let fwd = build_signed_forward(&relay, (dispatch, Vec::new()), 1);
        assert_eq!(answer_forward(&mut dht, &fwd, 1, None), ForwardOutcome::Stored);
    }
    let fwd = build_signed_forward(&relay, build_dispatch(&key_n(2), &to_ipk, [0xFF; 16], b"late"), 1);
    assert_eq!(answer_forward(&mut dht, &fwd, 1, None), ForwardOutcome::QueueFull);
    assert_eq!(answer_forward(&mut dht, &fwd, 1, Some(ForwardOutcome::NotOwner)), ForwardOutcome::NotOwner);
    assert_eq!(dht.metrics.dht_queue_full_rejections, 1);
}
