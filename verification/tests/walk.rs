use relay::dht::bootstrap::{
    bootstrap_done, classify_handle_error, distinct_peers, seed_routing, take_answer, BootstrapError, BootstrapState,
};
use relay::dht::cache::{CachedAnswer, LookupCache};
use relay::dht::config::{DhtConfig, LOOKUP_CACHE_CAP, LOOKUP_MAX_HOPS};
use relay::dht::id::{NodeDescriptor, NodeId, PeerAddr};
use relay::dht::keyspace::Keyspace;
use relay::dht::lookup::{
    begin_lookup, cached_conn, dial_failed, dial_with, finish_lookup, hop_wait, record_liveness, remember_conn,
    DialError, DialFault, HopEvent, HopStep, HopWait, LookupError, LookupStep,
};
use relay::dht::mls_fanout::closest_homes_with_self;
use relay::dht::publish::{plan_publish, replica_result, self_should_store, tally, PublishError, PublishOutcome, ReplicaResult};
use relay::dht::push_wake::{admit_gateway, has_capability, WakeRefusal};
use relay::dht::wire::{CloseReason, StoreOutcome, WireLimits};
use relay::dht::{Dht, GatewayDescriptor, PeerConn, Store};

fn fresh_dht(self_id: NodeId) -> Dht {
    let limits = WireLimits {
        max_find_node_results: 16,
        max_fetch_record_batch: 64,
        queue_skew_ms: 60_000,
        max_fetch_queue_ack_ids: 256,
        kp_stash_target: 100,
        keypackage_lifetime_ms: 2_592_000_000,
        max_welcome_ack_ids: 64,
    };
    let store = Store { queue: Keyspace::new(), keypackage: Keyspace::new(), welcome: Keyspace::new() };
    Dht::new(self_id, DhtConfig::default(), limits, store, 1000, 1000, 0)
}

fn id(n: u8) -> NodeId {
    NodeId::from_bytes([n; 32])
}

fn addr() -> PeerAddr {
    PeerAddr::V4 { octets: [127, 0, 0, 1], port: 1 }
}

fn desc(n: u8) -> NodeDescriptor {
    NodeDescriptor { id: id(n), addr: addr(), pubkey: [n; 32] }
}

fn ids(peers: &[NodeDescriptor]) -> Vec<u8> {
    peers.iter().map(|d| d.id.as_bytes()[0]).collect()
}

#[test]
fn lookup_node_with_empty_routing_table_returns_no_candidates() {
    let mut self_seed = [0u8; 32];
    self_seed[0] = 1;
    let mut dht = fresh_dht(NodeId::new(&self_seed));
    let mut target_seed = [0u8; 32];
    target_seed[0] = 2;
    let result = begin_lookup(&mut dht, &NodeId::new(&target_seed));
    assert!(matches!(result, Err(LookupError::NoCandidates)));
    assert_eq!(dht.metrics.lookups_failed, 1);
}

#[test]
fn walk_converges_on_the_closest() {
    let mut dht = fresh_dht(id(0x80));
    for n in [40u8, 50, 60] {
        dht.routing.insert(desc(n), 0);
    }
    let mut walk = begin_lookup(&mut dht, &id(0)).unwrap();
    let mut asked: Vec<u8> = Vec::new();
    loop {
        match walk.next_batch(false) {
            LookupStep::Ask(batch) => {
                assert!(batch.len() <= 3);
                let mut got_one = false;
                for p in &batch {
                    let n = p.id.as_bytes()[0];
                    assert!(!asked.contains(&n));
                    asked.push(n);
                    let closer = if n > 10 { vec![desc(n - 10), desc(n)] } else { Vec::new() };
                    assert!(matches!(walk.on_event(&mut got_one, &HopEvent::Reply(closer)), HopStep::Wait));
                }
                assert!(matches!(walk.on_event(&mut got_one, &HopEvent::Drained), HopStep::End));
                if walk.end_hop() {
                    break;
                }
            }
            LookupStep::Done => break,
            LookupStep::Failed(e) => panic!("{e:?}"),
        }
    }
    let found = finish_lookup(&mut dht, &walk, None).unwrap();
    assert_eq!(ids(&found), vec![10, 20, 30]);
    assert_eq!(dht.metrics.lookups_started, 1);
    assert_eq!(dht.metrics.lookups_succeeded, 1);
}

#[test]
fn walk_goes_on_while_somebody_in_its_result_was_not_asked() {
    let mut dht = fresh_dht(id(0x80));
    for n in [10u8, 20, 40] {
        dht.routing.insert(desc(n), 0);
    }
    let mut walk = begin_lookup(&mut dht, &id(0)).unwrap();
    assert!(matches!(walk.next_batch(false), LookupStep::Ask(batch) if ids(&batch) == vec![10, 20, 40]));
    // Closer than the farthest of the three, and now the farthest itself.
    walk.integrate_descriptors(&vec![desc(30)]);
    assert!(!walk.end_hop());
    assert!(matches!(walk.next_batch(false), LookupStep::Ask(batch) if ids(&batch) == vec![30]));
    assert!(walk.end_hop());
    assert_eq!(ids(&finish_lookup(&mut dht, &walk, None).unwrap()), vec![10, 20, 30]);
    assert!(matches!(walk.next_batch(false), LookupStep::Done));
}

#[test]
fn walk_leaves_those_behind_its_result_alone() {
    let mut dht = fresh_dht(id(0x80));
    for n in [10u8, 20, 30] {
        dht.routing.insert(desc(n), 0);
    }
    let mut walk = begin_lookup(&mut dht, &id(0)).unwrap();
    assert!(matches!(walk.next_batch(false), LookupStep::Ask(batch) if batch.len() == 3));
    walk.integrate_descriptors(&vec![desc(31)]);
    assert!(walk.end_hop());
}

#[test]
fn peer_that_a_reply_names_twice_is_taken_once() {
    let mut dht = fresh_dht(id(0x80));
    dht.routing.insert(desc(40), 0);
    let mut walk = begin_lookup(&mut dht, &id(0)).unwrap();
    assert!(matches!(walk.next_batch(false), LookupStep::Ask(batch) if ids(&batch) == vec![40]));
    walk.integrate_descriptors(&vec![desc(30), desc(40), desc(30), desc(20), desc(20)]);
    walk.integrate_descriptors(&vec![desc(20), desc(30)]);
    let known: Vec<u8> = walk.candidates.iter().map(|c| c.desc.id.as_bytes()[0]).collect();
    assert_eq!(known, vec![40, 30, 20]);
    assert!(!walk.end_hop());
    assert!(matches!(walk.next_batch(false), LookupStep::Ask(batch) if ids(&batch) == vec![20, 30]));
}

#[test]
fn walk_on_which_every_peer_failed_has_no_result() {
    let mut dht = fresh_dht(id(0x80));
    for n in [10u8, 20] {
        dht.routing.insert(desc(n), 0);
    }
    let mut walk = begin_lookup(&mut dht, &id(0)).unwrap();
    assert!(matches!(walk.next_batch(false), LookupStep::Ask(batch) if batch.len() == 2));
    let mut got_one = false;
    walk.on_event(&mut got_one, &HopEvent::Failed);
    walk.on_event(&mut got_one, &HopEvent::Failed);
    assert!(walk.end_hop());
    match finish_lookup(&mut dht, &walk, None) {
        Err(LookupError::PeerConnect(why)) => assert_eq!(why, "no peer could be reached"),
        other => panic!("{other:?}"),
    }
    assert_eq!((dht.metrics.lookups_failed, dht.metrics.lookups_succeeded), (1, 0));
    assert!(matches!(finish_lookup(&mut dht, &walk, Some(LookupError::Timeout)), Err(LookupError::Timeout)));
}

#[test]
fn walk_passes_over_a_peer_that_failed() {
    let mut dht = fresh_dht(id(0x80));
    for n in [10u8, 20] {
        dht.routing.insert(desc(n), 0);
    }
    let mut walk = begin_lookup(&mut dht, &id(0)).unwrap();
    // Nobody was asked yet, so nobody failed.
    assert!(finish_lookup(&mut dht, &walk, None).unwrap().is_empty());
    assert!(matches!(walk.next_batch(false), LookupStep::Ask(_)));
    let mut got_one = false;
    walk.on_event(&mut got_one, &HopEvent::Failed);
    walk.on_event(&mut got_one, &HopEvent::Reply(Vec::new()));
    assert!(walk.end_hop());
    assert_eq!(ids(&finish_lookup(&mut dht, &walk, None).unwrap()), vec![10, 20]);
}

#[test]
fn walks_drop_peers_that_do_not_answer() {
    let mut dht = fresh_dht(id(0x80));
    dht.routing.insert(desc(10), 0);
    record_liveness(&mut dht, &id(10), None, 1);
    record_liveness(&mut dht, &id(10), None, 2);
    record_liveness(&mut dht, &id(10), Some(70), 3);
    let entry = dht.routing.buckets.iter().flat_map(|b| b.entries.iter()).next().unwrap();
    assert_eq!((entry.failed_pings, entry.last_seen, entry.rtt_ema_ms), (0, 3, Some(70)));
    for now in 4..6 {
        record_liveness(&mut dht, &id(10), None, now);
        assert_eq!(dht.routing.total_known(), 1);
        assert_eq!(dht.metrics.bucket_evictions, 0);
    }
    record_liveness(&mut dht, &id(10), None, 6);
    assert_eq!(dht.routing.total_known(), 0);
    assert_eq!(dht.metrics.bucket_evictions, 1);
    record_liveness(&mut dht, &id(10), None, 7);
    record_liveness(&mut dht, &id(10), Some(5), 8);
    assert_eq!(dht.routing.total_known(), 0);
    assert_eq!(dht.metrics.bucket_evictions, 1);
}

#[test]
fn walk_ends_with_its_time_or_its_hops() {
    let mut dht = fresh_dht(id(0x80));
    dht.routing.insert(desc(40), 0);
    let mut walk = begin_lookup(&mut dht, &id(0)).unwrap();
    assert!(matches!(walk.next_batch(true), LookupStep::Failed(LookupError::Timeout)));
    let mut lookup = begin_lookup(&mut dht, &id(0)).unwrap();
    for n in 0..LOOKUP_MAX_HOPS as u8 {
        assert!(matches!(lookup.next_batch(false), LookupStep::Ask(_)));
        lookup.integrate_descriptors(&vec![desc(39 - n)]);
        lookup.end_hop();
    }
    assert!(matches!(lookup.next_batch(false), LookupStep::Failed(LookupError::MaxHopsExceeded)));
    let failed = finish_lookup(&mut dht, &lookup, Some(LookupError::MaxHopsExceeded));
    assert!(matches!(failed, Err(LookupError::MaxHopsExceeded)));
    assert_eq!(dht.metrics.lookups_failed, 1);
}

#[test]
fn hop_asks_the_next_candidate_when_nobody_answers() {
    assert_eq!(hop_wait(0), HopWait::TimedOut);
    assert_eq!(hop_wait(900), HopWait::For(150));
    assert_eq!(hop_wait(100), HopWait::For(100));
    let mut dht = fresh_dht(id(0x80));
    for n in [10u8, 20, 30, 40, 50] {
        dht.routing.insert(desc(n), 0);
    }
    let mut walk = begin_lookup(&mut dht, &id(0)).unwrap();
    match walk.next_batch(false) {
        LookupStep::Ask(batch) => assert_eq!(ids(&batch), vec![10, 20, 30]),
        other => panic!("{other:?}"),
    }
    let mut got_one = false;
    for n in [40u8, 50] {
        match walk.on_event(&mut got_one, &HopEvent::Silence) {
            HopStep::Hedge(peer) => assert_eq!(peer.id, id(n)),
            other => panic!("{other:?}"),
        }
    }
    assert!(matches!(walk.on_event(&mut got_one, &HopEvent::Silence), HopStep::Wait));
    assert!(matches!(walk.on_event(&mut got_one, &HopEvent::Lost), HopStep::Wait));
    assert!(!got_one);
    assert!(matches!(walk.on_event(&mut got_one, &HopEvent::Failed), HopStep::Wait));
    assert!(got_one);
    assert!(matches!(walk.on_event(&mut got_one, &HopEvent::Silence), HopStep::End));
}

#[test]
fn connection_is_kept_once() {
    let mut dht = fresh_dht(id(0x80));
    assert_eq!(dial_with(&dht), Err(DialError::NoEndpoint));
    dht.attach_dialer(3, 4);
    assert_eq!(dial_with(&dht), Ok((3, 4)));
    let conn = |handle: u64| PeerConn { id: id(1), conn: handle, pubkey: [1u8; 32] };
    assert_eq!(cached_conn(&dht, &id(1)), None);
    assert_eq!(remember_conn(&mut dht, conn(11), false), 11);
    assert_eq!(cached_conn(&dht, &id(1)), Some(11));
    assert_eq!(remember_conn(&mut dht, conn(12), true), 11);
    assert_eq!(remember_conn(&mut dht, conn(13), false), 13);
    assert_eq!(dht.peer_conns.len(), 1);
    assert_eq!(dht.metrics.peer_conns_opened, 2);
    assert_eq!(dial_failed(&mut dht, DialFault::Pubkey), CloseReason::DhtMalformedKey);
    assert_eq!(dht.metrics.cert_pubkey_extraction_failures, 1);
    assert_eq!(dial_failed(&mut dht, DialFault::Hello), CloseReason::DhtMalformedKey);
    assert_eq!(dht.metrics.dht_hello_rejected, 1);
    assert_eq!(dht.shutdown(), vec![13]);
    assert!(dht.peer_conns.is_empty());
}

#[test]
fn publish_needs_two_replicas() {
    let replica = |n: u8, outcome: StoreOutcome| replica_result(id(n), Some(outcome));
    assert_eq!(replica_result(id(1), None), ReplicaResult { node_id: id(1), outcome: StoreOutcome::BadSig });
    let stored = StoreOutcome::Stored;
    let ok = tally(Some(replica(1, stored)), &vec![replica(2, StoreOutcome::BadSig), replica(3, stored)]).unwrap();
    assert_eq!(ok.stored_at, vec![id(1), id(3)]);
    assert_eq!(ok.failed_at.len(), 1);
    assert!(ok.is_successful());
    match tally(None, &vec![replica(2, stored)]) {
        Err(PublishError::InsufficientReplicas { wanted, got }) => assert_eq!((wanted, got), (2, 1)),
        other => panic!("{other:?}"),
    }
    assert!(!PublishOutcome { stored_at: vec![id(1)], failed_at: Vec::new() }.is_successful());
}

#[test]
fn publish_propagates_lookup_failure_when_routing_empty() {
    let mut self_seed = [0u8; 32];
    self_seed[0] = 1;
    let self_id = NodeId::new(&self_seed);
    let mut dht = fresh_dht(self_id);
    let user_ipk = ed25519_dalek::SigningKey::from_bytes(&[9u8; 32]).verifying_key().to_bytes();
    let found = match begin_lookup(&mut dht, &NodeId::from_bytes(user_ipk)) {
        Err(e) => Err(e),
        Ok(walk) => finish_lookup(&mut dht, &walk, None),
    };
    match plan_publish(&self_id, &user_ipk, found) {
        Err(PublishError::LookupFailed(LookupError::NoCandidates)) => {}
        other => panic!("expected LookupFailed(NoCandidates), got {other:?}"),
    }
    assert_eq!(dht.metrics.lookups_failed, 1);
    let (asked, own) = plan_publish(&id(0x80), &[0u8; 32], Ok(vec![desc(1), desc(2), desc(3)])).unwrap();
    assert_eq!(ids(&asked), vec![1, 2, 3]);
    assert!(!own);
}

#[test]
fn publisher_stores_where_it_is_among_the_closest() {
    let found = vec![desc(1), desc(2), desc(3)];
    assert!(!self_should_store(&id(0x80), &id(0), &found));
    assert!(self_should_store(&id(0x80), &id(0), &vec![desc(1), desc(2)]));
    assert!(self_should_store(&id(2), &id(0), &found));
}

#[test]
fn homes_and_the_part_of_this_relay() {
    let mut dht = fresh_dht(id(0x80));
    for n in [1u8, 2, 3, 4] {
        dht.routing.insert(desc(n), 0);
    }
    let (homes, own) = closest_homes_with_self(&dht, &id(0));
    assert_eq!(ids(&homes), vec![1, 2, 3]);
    assert!(!own);
    assert!(closest_homes_with_self(&dht, &id(0x81)).1);
}

#[test]
fn lookup_cache_forgets_what_expired() {
    let mut cache = LookupCache::empty();
    let answer = |n: u8, expires_at: u64| CachedAnswer {
        relay_id: [n; 32],
        relay_addr: addr(),
        relay_pubkey: [n; 32],
        expires_at,
    };
    cache.put([1u8; 32], answer(1, 100));
    assert_eq!(cache.get(&[1u8; 32], 99).unwrap().relay_id, [1u8; 32]);
    assert!(cache.get(&[1u8; 32], 100).is_none());
    assert!(cache.entries.is_empty());
    cache.put([2u8; 32], answer(2, 100));
    cache.put([2u8; 32], answer(3, 100));
    assert_eq!(cache.get(&[2u8; 32], 1).unwrap().relay_id, [3u8; 32]);
    cache.invalidate(&[2u8; 32]);
    assert!(cache.get(&[2u8; 32], 1).is_none());
}

#[test]
fn lookup_cache_drops_the_longest_unused() {
    let mut cache = LookupCache::empty();
    let user = |n: usize| {
        let mut ipk = [0u8; 32];
        ipk[..8].copy_from_slice(&(n as u64).to_be_bytes());
        ipk
    };
    let answer = CachedAnswer { relay_id: [1u8; 32], relay_addr: addr(), relay_pubkey: [1u8; 32], expires_at: 100 };
    for n in 0..LOOKUP_CACHE_CAP {
        cache.put(user(n), answer);
    }
    assert!(cache.get(&user(0), 1).is_some());
    cache.put(user(LOOKUP_CACHE_CAP), answer);
    assert_eq!(cache.entries.len(), LOOKUP_CACHE_CAP);
    assert!(cache.get(&user(0), 1).is_some());
    assert!(cache.get(&user(1), 1).is_none());
}

#[test]
fn wake_goes_to_the_first_gateway() {
    let mut dht = fresh_dht(id(0x80));
    assert!(dht.trigger_wake(&[1u8; 32]).is_none());
    dht.attach_push(vec![([1u8; 32], [9u8; 32])]);
    dht.attach_dialer(3, 4);
    assert!(dht.trigger_wake(&[1u8; 32]).is_none());
    let gateway = |n: u8| GatewayDescriptor { id: id(n), addr: addr() };
    dht.refresh_gateways(Some(vec![gateway(5), gateway(6)]));
    dht.refresh_gateways(None);
    let wake = dht.trigger_wake(&[1u8; 32]).unwrap();
    assert_eq!(wake.gateway.id, id(5));
    assert_eq!(wake.pseudonym, [9u8; 32]);
    assert_eq!(wake.endpoint, 3);
    assert!(dht.trigger_wake(&[2u8; 32]).is_none());
    assert_eq!(admit_gateway(None), Err(WakeRefusal::NoCapabilities));
    assert_eq!(admit_gateway(Some(false)), Err(WakeRefusal::NotAGateway));
    assert_eq!(admit_gateway(Some(true)), Ok(()));
}

#[test]
fn joining_hears_of_each_peer_once() {
    let mut dht = fresh_dht(id(0x80));
    assert!(matches!(seed_routing(&mut dht, &vec![], &vec![], 1), Err(BootstrapError::EmptyRegistry)));
    dht.routing.insert(desc(2), 0);
    assert_eq!(ids(&distinct_peers(&vec![desc(1), desc(2)], &vec![desc(2), desc(3)])), vec![1, 2, 3]);
    let counts = seed_routing(&mut dht, &vec![desc(1), desc(2)], &vec![desc(2), desc(3), desc(0x80)], 1).unwrap();
    assert_eq!(counts.inserted, 2);
    assert_eq!(counts.refreshed, 1);
    assert_eq!(counts.deferred, 0);
    assert_eq!(counts.self_skipped, 1);
    assert_eq!(dht.routing.total_known(), 3);
}

#[test]
fn joining_is_done_also_where_its_walk_failed() {
    let mut dht = fresh_dht(id(0x80));
    let gone = Err("no live resolver session".to_string());
    assert!(matches!(take_answer(&mut dht, gone, 1), Err(BootstrapError::ResolverUnavailable)));
    assert!(matches!(take_answer(&mut dht, Err("cut off".to_string()), 1), Err(BootstrapError::Decode(m)) if m == "cut off"));
    assert!(matches!(take_answer(&mut dht, Ok((vec![], vec![])), 1), Err(BootstrapError::EmptyRegistry)));
    assert_eq!(dht.routing.total_known(), 0);
    let counts = take_answer(&mut dht, Ok((vec![desc(1)], vec![desc(1), desc(2)])), 1).unwrap();
    assert_eq!(counts.inserted, 2);
    assert_eq!(bootstrap_done(true), BootstrapState::Ready);
    assert_eq!(bootstrap_done(false), BootstrapState::Ready);
}

#[test]
fn capabilities_are_read_from_the_last_byte_on() {
    let bits = [0b0000_0010u8, 0b1000_0001];
    let set: Vec<usize> = (0..24).filter(|n| has_capability(&bits, *n)).collect();
    assert_eq!(set, vec![0, 7, 9]);
    assert!(!has_capability(&[], 0));
}

#[test]
fn resolver_faults_are_told_apart() {
    assert!(matches!(
        classify_handle_error("there is no live resolver session now".to_string()),
        BootstrapError::ResolverUnavailable
    ));
    match classify_handle_error("timed out".to_string()) {
        BootstrapError::Decode(m) => assert_eq!(m, "timed out"),
        other => panic!("{other:?}"),
    }
}
