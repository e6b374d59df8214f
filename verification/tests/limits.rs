use relay::dht::config::RATE_LIMIT_EXPENSIVE_BURST;
use relay::dht::handler::DhtRequest;
use relay::dht::id::NodeId;
use relay::dht::rate_limit::{admitted, KpFetchLimiters, PerPeerLimiters, RpcClass, RpcKind, WelcomeLimiters};
use relay::dht::wire::QueueFetchAck;

const RATE_LIMIT_GLOBAL_PER_SEC: u32 = 1_000;
const RATE_LIMIT_GLOBAL_BURST: u32 = 500;

fn limiters() -> PerPeerLimiters {
    PerPeerLimiters::new(RATE_LIMIT_GLOBAL_PER_SEC, RATE_LIMIT_GLOBAL_BURST)
}

fn id_from_seed(seed: u8) -> NodeId {
    let mut s = [0u8; 32];
    s[0] = seed;
    NodeId::new(&s)
}

#[test]
fn per_peer_limiters_classify_rpcs_correctly() {
    let dummy_id = NodeId::from_bytes([0u8; 32]);
    let find_node = DhtRequest::FindNode { target: [0u8; 32], requester: dummy_id };
    assert_eq!(RpcClass::for_request(&find_node.kind()), RpcClass::Cheap);
    let ack = DhtRequest::QueueFetchAck(QueueFetchAck {
        user_ipk: [0u8; 32],
        requester_relay_id: dummy_id,
        delivered_ids: vec![[0u8; 16]],
        timestamp: 0,
        user_sig: [0u8; 64],
        transcript: Vec::new(),
    });
    assert_eq!(RpcClass::for_request(&ack.kind()), RpcClass::Expensive);
    assert_eq!(RpcClass::for_request(&RpcKind::FetchRecord), RpcClass::Bulk);
}

#[test]
fn global_budget_denies_a_peer_that_is_under_its_own_quota() {
    let mut limiters = limiters();
    for i in 0..(RATE_LIMIT_GLOBAL_BURST as usize) {
        let peer = NodeId::from_bytes([(i % 251) as u8; 32]);
        let _ = limiters.check(&peer, RpcClass::Cheap);
    }
    let fresh = id_from_seed(0xC3);
    let denied = (0..200).filter(|_| limiters.check(&fresh, RpcClass::Cheap).is_err()).count();
    assert!(denied > 0, "global budget must deny once its burst is drained");
}

#[test]
fn limiter_grants_burst_then_denies() {
    let mut limiters = limiters();
    let peer = id_from_seed(7);
    let mut allowed = 0;
    for _ in 0..(RATE_LIMIT_EXPENSIVE_BURST as usize) {
        if limiters.check(&peer, RpcClass::Expensive).is_ok() {
            allowed += 1;
        }
    }
    assert!(
        allowed >= (RATE_LIMIT_EXPENSIVE_BURST as usize).saturating_sub(1),
        "expected ~{} allowed in burst, got {}",
        RATE_LIMIT_EXPENSIVE_BURST,
        allowed
    );
    let mut denied = 0;
    for _ in 0..50 {
        if limiters.check(&peer, RpcClass::Expensive).is_err() {
            denied += 1;
        }
    }
    assert!(denied > 0, "expected at least one deny after burst exhausted");
}

#[test]
fn limiter_isolates_per_peer() {
    let mut limiters = limiters();
    let peer_a = id_from_seed(1);
    let peer_b = id_from_seed(2);
    for _ in 0..((RATE_LIMIT_EXPENSIVE_BURST as usize) + 5) {
        let _ = limiters.check(&peer_a, RpcClass::Expensive);
    }
    assert!(limiters.check(&peer_b, RpcClass::Expensive).is_ok());
    limiters.sweep();
    assert!(limiters.check(&peer_b, RpcClass::Expensive).is_ok());
}

#[test]
fn both_budgets_are_needed() {
    assert_eq!(admitted(true, true), Ok(()));
    assert_eq!(admitted(true, false), Err(()));
    assert_eq!(admitted(false, true), Err(()));
    assert_eq!(admitted(false, false), Err(()));
}

#[test]
fn first_request_passes_in_every_class() {
    let mut limiters = PerPeerLimiters::new(1, 1);
    assert!(limiters.check(&id_from_seed(1), RpcClass::Cheap).is_ok());
    // The one shared token is gone, whoever asks.
    assert!(limiters.check(&id_from_seed(2), RpcClass::Cheap).is_err());
    let mut limiters = self::limiters();
    for seed in 0..50 {
        for class in [RpcClass::Cheap, RpcClass::Expensive, RpcClass::Bulk] {
            assert!(limiters.check(&id_from_seed(seed), class).is_ok());
        }
    }
}

#[test]
fn hourly_quotas_grant_their_burst() {
    let mut kp = KpFetchLimiters::new();
    let granted = (0..70).filter(|_| kp.check(&[1u8; 32], &id_from_seed(1)).is_ok()).count();
    assert_eq!(granted, 60);
    assert!(kp.check(&[2u8; 32], &id_from_seed(1)).is_ok());
    assert!(kp.check(&[1u8; 32], &id_from_seed(2)).is_ok());
    let mut welcome = WelcomeLimiters::new();
    let granted = (0..250).filter(|_| welcome.check(&id_from_seed(1)).is_ok()).count();
    assert_eq!(granted, 240);
    assert!(welcome.check(&id_from_seed(2)).is_ok());
}
