use relay::dht::config::{DhtConfig, MAX_QUEUE_FETCH_PAGES, QUEUE_FETCH_TIMEOUT_MS};
use relay::dht::id::{NodeDescriptor, NodeId, PeerAddr};
use relay::dht::keyspace::Keyspace;
use relay::dht::queue_drain::{
    ack_remote_queues, answer_queue_ack, answer_queue_fetch, begin_drain, finish_drain, homes_of, note_ack, note_home,
    union_of, without_peer, HomeDrain, PageStep, QueueDrainError,
};
use relay::dht::store::enqueue_for_home;
use relay::dht::wire::{DispatchP, QueueFetch, QueueFetchAck, QueueFetchResp, WireLimits};
use relay::dht::{Dht, Store};
use std::collections::HashSet;

fn fresh_dht(self_id: NodeId) -> Dht {
    let limits = WireLimits {
        max_find_node_results: 16,
        max_fetch_record_batch: 64,
        queue_skew_ms: 60_000,
        max_fetch_queue_ack_ids: 2,
        kp_stash_target: 100,
        keypackage_lifetime_ms: 2_592_000_000,
        max_welcome_ack_ids: 64,
    };
    let store = Store { queue: Keyspace::new(), keypackage: Keyspace::new(), welcome: Keyspace::new() };
    Dht::new(self_id, DhtConfig::default(), limits, store, 1000, 1000, 0)
}

fn desc(id: NodeId) -> NodeDescriptor {
    NodeDescriptor { id, addr: PeerAddr::V4 { octets: [127, 0, 0, 1], port: 1 }, pubkey: [0u8; 32] }
}

fn mock_dispatch(id: [u8; 16], payload: &[u8]) -> DispatchP {
    DispatchP { to: [1u8; 32], from: [2u8; 32], id, payload: payload.to_vec(), sig: [0u8; 64] }
}

fn home(n: u8) -> NodeId {
    NodeId::from_bytes([n; 32])
}

#[test]
fn fetch_remote_queues_returns_no_homes_when_routing_table_empty() {
    let mut self_seed = [0u8; 32];
    self_seed[0] = 1;
    let self_id = NodeId::new(&self_seed);
    let dht = fresh_dht(self_id);
    match begin_drain(&dht, &[7u8; 32], &self_id, 1_700_000_000_000, &[0xAB; 64], b"t") {
        Err(QueueDrainError::NoHomes) => {}
        other => panic!("expected NoHomes, got {other:?}"),
    }
}

#[test]
fn fetch_remote_queues_filters_out_self() {
    let me = home(1);
    let left = without_peer(&vec![desc(home(2)), desc(me), desc(home(3))], &me);
    let ids: Vec<NodeId> = left.iter().map(|d| d.id).collect();
    assert_eq!(ids, vec![home(2), home(3)]);
    let mut dht = fresh_dht(home(9));
    dht.routing.insert(desc(me), 0);
    assert!(matches!(begin_drain(&dht, &[7u8; 32], &me, 5, &[1u8; 64], b"t"), Err(QueueDrainError::NoHomes)));
    let (homes, req) = begin_drain(&dht, &[7u8; 32], &home(9), 5, &[1u8; 64], b"t").unwrap();
    assert_eq!(homes.len(), 1);
    assert_eq!((req.user_ipk, req.requester_relay_id, req.timestamp), ([7u8; 32], home(9), 5));
    assert_eq!((req.user_sig, req.transcript), ([1u8; 64], b"t".to_vec()));
    assert!(ack_remote_queues(&dht, &[7u8; 32], vec![[2u8; 16]], 6, &[1u8; 64], b"a", &Vec::new()).is_none());
    let ack = ack_remote_queues(&dht, &[7u8; 32], vec![[2u8; 16]], 6, &[1u8; 64], b"a", &homes).unwrap();
    assert_eq!((ack.requester_relay_id, ack.delivered_ids, ack.timestamp), (home(9), vec![[2u8; 16]], 6));
    let drain = HomeDrain::new();
    drain.ask(&mut dht);
    drain.ask(&mut dht);
    assert_eq!(dht.metrics.queue_fetches_sent, 2);
}

#[test]
fn fetch_remote_queues_dedupe_collapses_replicated_messages() {
    let id_a: [u8; 16] = [0x11; 16];
    let id_b: [u8; 16] = [0x22; 16];
    let batch = || vec![mock_dispatch(id_a, b"hello"), mock_dispatch(id_b, b"world")];
    let out = union_of(&vec![(home(1), batch()), (home(2), batch())]);
    assert_eq!(out.len(), 2, "two unique messages expected");
    let ids: HashSet<[u8; 16]> = out.iter().map(|d| d.id).collect();
    assert!(ids.contains(&id_a));
    assert!(ids.contains(&id_b));
}

#[test]
fn fetch_remote_queues_dedupe_preserves_first_occurrence_order() {
    let id_first: [u8; 16] = [0xAA; 16];
    let id_second: [u8; 16] = [0xBB; 16];
    let id_third: [u8; 16] = [0xCC; 16];
    let per_home = vec![
        (home(1), vec![mock_dispatch(id_first, b"1"), mock_dispatch(id_third, b"3")]),
        (home(2), vec![mock_dispatch(id_first, b"1"), mock_dispatch(id_second, b"2")]),
    ];
    let out = union_of(&per_home);
    assert_eq!(out.len(), 3);
    assert_eq!(out[0].id, id_first);
    assert_eq!(out[1].id, id_third);
    assert_eq!(out[2].id, id_second);
    let homes = homes_of(&per_home);
    assert_eq!(homes.len(), 2);
    assert_eq!(homes[0], (home(1), vec![id_first, id_third]));
    assert_eq!(homes[1], (home(2), vec![id_first, id_second]));
}

#[test]
fn fetch_remote_queues_max_pages_constant_is_ten() {
    assert_eq!(MAX_QUEUE_FETCH_PAGES, 10);
}

#[test]
fn fetch_remote_queues_timeout_constant_is_three_seconds() {
    assert_eq!(QUEUE_FETCH_TIMEOUT_MS, 3000);
}

#[test]
fn home_is_asked_until_it_is_exhausted_or_ten_pages_came() {
    let page = |exhausted: bool| Some(QueueFetchResp { messages: vec![mock_dispatch([1u8; 16], b"x")], exhausted });
    let mut d = HomeDrain::new();
    assert_eq!(d.on_reply(page(false)), PageStep::Again);
    assert_eq!(d.on_reply(page(true)), PageStep::Done);
    assert_eq!(d.messages.len(), 2);
    assert_eq!(HomeDrain::new().on_reply(None), PageStep::Failed);
    let mut long = HomeDrain::new();
    for _ in 0..9 {
        assert_eq!(long.on_reply(page(false)), PageStep::Again);
    }
    assert_eq!(long.on_reply(page(false)), PageStep::Done);
    assert_eq!(long.messages.len(), 10);
}

#[test]
fn drain_fails_where_no_home_answers() {
    let mut dht = fresh_dht(home(1));
    let mut results: Vec<(NodeId, Vec<DispatchP>)> = Vec::new();
    note_home(&mut dht, &mut results, None);
    assert_eq!(dht.metrics.queue_fetch_failures, 1);
    assert!(matches!(finish_drain(&mut dht, &results, false), Err(QueueDrainError::AllFailed)));
    assert!(matches!(finish_drain(&mut dht, &results, true), Err(QueueDrainError::Timeout)));
    note_home(&mut dht, &mut results, Some((home(2), Vec::new())));
    assert!(finish_drain(&mut dht, &results, true).unwrap().0.is_empty());
    assert_eq!(dht.metrics.queue_fetches_succeeded, 0);
    note_home(&mut dht, &mut results, Some((home(3), vec![mock_dispatch([1u8; 16], b"x")])));
    assert_eq!(finish_drain(&mut dht, &results, true).unwrap().0.len(), 1);
    assert_eq!(dht.metrics.queue_fetches_succeeded, 1);
}

#[test]
fn page_and_ack_follow_the_checks() {
    let mut dht = fresh_dht(home(1));
    let peer = home(2);
    let user_ipk = [1u8; 32];
    enqueue_for_home(&mut dht, &user_ipk, &mock_dispatch([5u8; 16], b"x"), 100);
    let req = QueueFetch {
        user_ipk,
        requester_relay_id: peer,
        timestamp: 100_000,
        user_sig: [0u8; 64],
        transcript: Vec::new(),
    };
    assert_eq!(answer_queue_fetch(&dht, &req, &peer, 160_000, true).messages.len(), 1);
    assert_eq!(answer_queue_fetch(&dht, &req, &peer, 160_001, true).messages.len(), 0);
    assert_eq!(answer_queue_fetch(&dht, &req, &peer, 100_000, false).messages.len(), 0);

    let ack = |ids: Vec<[u8; 16]>| QueueFetchAck {
        user_ipk,
        requester_relay_id: peer,
        delivered_ids: ids,
        timestamp: 100_000,
        user_sig: [0u8; 64],
        transcript: Vec::new(),
    };
    assert!(!answer_queue_ack(&mut dht, &ack(vec![[5u8; 16]; 3]), &peer, 100_000, true).ok);
    assert!(!answer_queue_ack(&mut dht, &ack(vec![[5u8; 16]]), &peer, 160_001, true).ok);
    assert_eq!(answer_queue_fetch(&dht, &req, &peer, 100_000, true).messages.len(), 1);
    assert!(answer_queue_ack(&mut dht, &ack(vec![[5u8; 16]]), &peer, 100_000, true).ok);
    assert_eq!(answer_queue_fetch(&dht, &req, &peer, 100_000, true).messages.len(), 0);
}

#[test]
fn home_that_does_not_answer_an_acknowledgement_is_a_failure() {
    let mut dht = fresh_dht(NodeId::from_bytes([1u8; 32]));
    note_ack(&mut dht, true);
    assert_eq!(dht.metrics.queue_fetch_failures, 0);
    note_ack(&mut dht, false);
    assert_eq!(dht.metrics.queue_fetch_failures, 1);
}
