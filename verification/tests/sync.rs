use ed25519_dalek::SigningKey;
use relay::dht::bootstrap::{BootstrapError, BootstrapState};
use relay::dht::config::{DhtConfig, FETCH_RECORD_MAX, MERKLE_FANOUT};
use relay::dht::id::{NodeDescriptor, NodeId, PeerAddr};
use relay::dht::keyspace::Keyspace;
use relay::dht::lookup::remember_conn;
use relay::dht::store::{enqueue_for_home, lookup_queue_for_user, MessageKey};
use relay::dht::sync::merkle::{nibble_path_for, record_value_hash, tombstone_value_hash};
use relay::dht::sync::rpc::{
    diff_leaves, differing_slices, fetch_chunks, handle_fetch_record, handle_merkle_diff, handle_merkle_summary,
    pick_peer, Bisect, Held,
};
use relay::dht::sync::scheduler::{
    begin_migration, bootstrap_tick, handover_is_durable, migrate_one, stale_buckets, BootstrapRetry, ForwardSummary,
    RetryStep, Sweep,
};
use relay::dht::sync::state::{all_slices_bitset, set_slice_bit, MerkleDiffResp};
use relay::dht::wire::{DispatchP, PresenceRecord, TombstoneRecord, WireLimits};
use relay::dht::{Dht, PeerConn, Store};

fn key_n(n: u64) -> SigningKey {
    let mut seed = [0u8; 32];
    seed[..8].copy_from_slice(&n.to_le_bytes());
    seed[31] = (n & 0xff) as u8;
    seed[16] = ((n >> 8) & 0xff) as u8;
    SigningKey::from_bytes(&seed)
}

fn fresh_dht(self_id: NodeId) -> Dht {
    let limits = WireLimits {
        max_find_node_results: 16,
        max_fetch_record_batch: 64,
        queue_skew_ms: 60_000,
        max_fetch_queue_ack_ids: 256,
        kp_stash_target: 100,
        keypackage_lifetime_ms: 2_592_000_000,
        max_welcome_ack_ids: 64,
    };
    let store = Store { queue: Keyspace::new(), keypackage: Keyspace::new(), welcome: Keyspace::new() };
    Dht::new(self_id, DhtConfig::default(), limits, store, 1000, 1000, 0)
}

fn build_record(n: u64, generation: u64) -> PresenceRecord {
    let relay_pubkey = key_n(500).verifying_key().to_bytes();
    PresenceRecord {
        user_ipk: key_n(n).verifying_key().to_bytes(),
        relay_id: NodeId::new(&relay_pubkey),
        relay_pubkey,
        not_before: 1_000,
        not_after: 601_000,
        generation,
        capabilities: 0,
        user_sig: [1u8; 64],
        relay_sig: [2u8; 64],
    }
}

fn dht_with(rec: &PresenceRecord) -> Dht {
    let mut dht = fresh_dht(rec.relay_id);
    let mut bytes = rec.user_ipk.to_vec();
    bytes.extend_from_slice(&rec.generation.to_be_bytes());
    dht.merkle.insert(&rec.user_ipk, record_value_hash(&bytes));
    dht
}

fn peer(n: u8) -> NodeDescriptor {
    let addr = PeerAddr::V4 { octets: [127, 0, 0, 1], port: 1 };
    NodeDescriptor { id: NodeId::from_bytes([n; 32]), addr, pubkey: [n; 32] }
}

#[test]
fn handle_merkle_summary_returns_root_for_populated_slice() {
    let rec = build_record(1, 1);
    let mut dht = dht_with(&rec);
    let user_slice = rec.user_ipk[0];
    let mut bs = [0u8; 32];
    set_slice_bit(&mut bs, user_slice);
    let roots = handle_merkle_summary(&mut dht, &bs);
    assert_eq!(roots.len(), 1);
    assert_eq!(roots[0].0, user_slice);
    assert_ne!(roots[0].1, [0u8; 32]);
    assert_eq!(handle_merkle_summary(&mut dht, &all_slices_bitset()), roots);
    assert_eq!(dht.metrics.merkle_summaries_received, 2);
}

#[test]
fn handle_merkle_summary_skips_unrequested_slices() {
    let rec = build_record(1, 1);
    let mut dht = dht_with(&rec);
    let other_slice = rec.user_ipk[0].wrapping_add(1);
    let mut bs = [0u8; 32];
    set_slice_bit(&mut bs, other_slice);
    assert!(handle_merkle_summary(&mut dht, &bs).is_empty());
}

#[test]
fn handle_merkle_diff_at_root_returns_children() {
    let rec = build_record(1, 1);
    let mut dht = dht_with(&rec);
    match handle_merkle_diff(&mut dht, rec.user_ipk[0], &Vec::new()) {
        MerkleDiffResp::Children(hashes) => {
            assert_eq!(hashes.len(), MERKLE_FANOUT);
            let first_nibble = (rec.user_ipk[1] >> 4) & 0x0F;
            assert_ne!(hashes[first_nibble as usize], [0u8; 32]);
            assert_eq!(hashes.iter().filter(|h| **h != [0u8; 32]).count(), 1);
        }
        MerkleDiffResp::Leaves(_) => panic!("expected Children at root depth"),
    }
}

#[test]
fn handle_merkle_diff_at_leaf_depth_returns_leaves() {
    let rec = build_record(1, 1);
    let mut dht = dht_with(&rec);
    let (slice_id, path) = nibble_path_for(&rec.user_ipk);
    match handle_merkle_diff(&mut dht, slice_id, &path) {
        MerkleDiffResp::Leaves(entries) => {
            assert_eq!(entries.len(), 1);
            assert_eq!(entries[0].0, rec.user_ipk);
        }
        MerkleDiffResp::Children(_) => panic!("expected Leaves at leaf depth"),
    }
    assert_eq!(dht.metrics.merkle_diffs_received, 1);
}

fn held(record: PresenceRecord) -> Held {
    Held { tombstone: None, record: Some(record) }
}

#[test]
fn handle_fetch_record_returns_known_records() {
    let rec = build_record(1, 1);
    let resp = handle_fetch_record(&vec![held(rec), Held { tombstone: None, record: None }]);
    assert_eq!(resp.records.len(), 1);
    assert_eq!(resp.records[0], rec);
}

#[test]
fn handle_fetch_record_returns_tombstones_for_known_ipks() {
    let rec = build_record(1, 1);
    let tomb = TombstoneRecord {
        user_ipk: rec.user_ipk,
        relay_id: rec.relay_id,
        relay_pubkey: rec.relay_pubkey,
        generation: 1,
        deleted_at: 1_000,
        relay_sig: [3u8; 64],
    };
    let resp = handle_fetch_record(&vec![Held { tombstone: Some(tomb), record: None }]);
    assert_eq!(resp.records.len(), 0);
    assert_eq!(resp.tombstones.len(), 1);
    assert_eq!(resp.tombstones[0].generation, 1);
    assert_eq!(resp.tombstones[0].user_ipk, rec.user_ipk);
    let both = handle_fetch_record(&vec![Held { tombstone: Some(tomb), record: Some(rec) }]);
    assert_eq!((both.records.len(), both.tombstones.len()), (0, 1));
}

#[test]
fn handle_fetch_record_caps_response_length() {
    let all: Vec<Held> = (0..(FETCH_RECORD_MAX as u64 + 5)).map(|n| held(build_record(n + 1, 1))).collect();
    let resp = handle_fetch_record(&all);
    assert!(resp.records.len() + resp.tombstones.len() <= FETCH_RECORD_MAX);
    assert_eq!(resp.records.len(), FETCH_RECORD_MAX);
}

#[test]
fn drift_migration_sweep_is_noop_on_empty_plan() {
    let mut seed = [0u8; 32];
    seed[0] = 2;
    let dht = fresh_dht(NodeId::new(&seed));
    let mut sweep = Sweep::plan(&dht);
    assert!(sweep.next().is_none());
}

#[test]
fn bisection_fetches_what_differs_and_no_more() {
    let shared = build_record(1, 1).user_ipk;
    let mut lacking = shared;
    lacking[31] ^= 1;
    let mut stale = shared;
    stale[1] ^= 0x10;
    let mut ours = fresh_dht(NodeId::from_bytes([1; 32]));
    let mut theirs = fresh_dht(NodeId::from_bytes([2; 32]));
    ours.merkle.insert(&shared, [7u8; 32]);
    theirs.merkle.insert(&shared, [7u8; 32]);
    theirs.merkle.insert(&lacking, [8u8; 32]);
    ours.merkle.insert(&stale, [9u8; 32]);
    theirs.merkle.insert(&stale, [10u8; 32]);

    let roots = handle_merkle_summary(&mut theirs, &all_slices_bitset());
    let slices = differing_slices(&ours, &roots);
    assert_eq!(slices, vec![shared[0]]);

    let mut walk = Bisect::new(shared[0]);
    while let Some(path) = walk.next(&mut ours) {
        let reply = Some(handle_merkle_diff(&mut theirs, shared[0], &path));
        walk.on_reply(&ours, &path, &reply);
    }
    let mut got = walk.to_fetch;
    got.sort();
    let mut expected = vec![lacking, stale];
    expected.sort();
    assert_eq!(got, expected);
    assert!(differing_slices(&theirs, &roots).is_empty());
}

#[test]
fn leaves_that_agree_are_not_fetched() {
    let mut dht = fresh_dht(NodeId::from_bytes([1; 32]));
    let a = [5u8; 32];
    let mut b = a;
    b[31] = 6;
    dht.merkle.insert(&a, [1u8; 32]);
    let (slice, path) = nibble_path_for(&a);
    let mut out = Vec::new();
    diff_leaves(&dht, slice, &path, &vec![(a, [1u8; 32]), (b, [2u8; 32])], &mut out);
    assert_eq!(out, vec![b]);
}

#[test]
fn value_hashes_carry_their_label() {
    let mut buf = b"dht-merkle-record-v1".to_vec();
    buf.extend_from_slice(b"value");
    assert_eq!(record_value_hash(b"value"), *blake3::hash(&buf).as_bytes());
    let mut buf = b"dht-merkle-tombstone-v1".to_vec();
    buf.extend_from_slice(b"value");
    assert_eq!(tombstone_value_hash(b"value"), *blake3::hash(&buf).as_bytes());
}

#[test]
fn chunks_hold_everything_in_order() {
    let ipks: Vec<[u8; 32]> = (0..5u8).map(|n| [n; 32]).collect();
    let chunks = fetch_chunks(&ipks, 2);
    let sizes: Vec<usize> = chunks.iter().map(|c| c.len()).collect();
    assert_eq!(sizes, vec![2, 2, 1]);
    assert_eq!(chunks.concat(), ipks);
    assert!(fetch_chunks(&Vec::new(), 2).is_empty());
}

#[test]
fn every_peer_can_be_picked() {
    let mut dht = fresh_dht(NodeId::from_bytes([0x80; 32]));
    assert!(pick_peer(&dht, 1).is_none());
    for n in 1..=3u8 {
        dht.routing.insert(peer(n), 0);
    }
    let mut seen = std::collections::HashSet::new();
    for seed in 0..100 {
        let picked = pick_peer(&dht, seed).unwrap();
        assert_eq!(pick_peer(&dht, seed).unwrap().id, picked.id);
        seen.insert(*picked.id.as_bytes());
    }
    assert_eq!(seen.len(), 3);
}

#[test]
fn joining_is_retried_with_growing_pauses() {
    let mut dht = fresh_dht(NodeId::from_bytes([0x80; 32]));
    let mut retry = BootstrapRetry::new();
    assert_eq!(bootstrap_tick(&dht, &mut retry, 10_000), RetryStep::Wait);
    assert_eq!(retry.backoff_ms, 10_000);
    dht.attach_resolver(7);
    assert_eq!(bootstrap_tick(&dht, &mut retry, 15_000), RetryStep::Wait);
    assert_eq!(bootstrap_tick(&dht, &mut retry, 20_000), RetryStep::Attempt(7));
    assert!(!retry.on_outcome(&Err(BootstrapError::ResolverUnavailable)));
    assert_eq!(retry.backoff_ms, 20_000);
    for _ in 0..8 {
        retry.on_outcome(&Err(BootstrapError::Decode(String::new())));
    }
    assert_eq!(retry.backoff_ms, 300_000);
    retry.on_outcome(&Err(BootstrapError::EmptyRegistry));
    assert_eq!(retry.backoff_ms, 5_000);
    assert!(retry.on_outcome(&Ok(BootstrapState::Ready)));
    for n in 1..=8u8 {
        dht.routing.insert(peer(n), 0);
    }
    assert_eq!(bootstrap_tick(&dht, &mut retry, 30_000), RetryStep::Settled);
}

#[test]
fn four_stale_buckets_at_a_time() {
    let dht = fresh_dht(NodeId::from_bytes([0x80; 32]));
    assert!(stale_buckets(&dht, 1).is_empty());
    assert_eq!(stale_buckets(&dht, 3_600_001).len(), 4);
}

fn drifted() -> Dht {
    let mut dht = fresh_dht(NodeId::from_bytes([0x80; 32]));
    for n in 1..=3u8 {
        dht.routing.insert(peer(n), 0);
    }
    for n in 0..10u8 {
        let dispatch =
            DispatchP { to: [0u8; 32], from: [2u8; 32], id: [n; 16], payload: vec![n], sig: [0u8; 64] };
        enqueue_for_home(&mut dht, &[0u8; 32], &dispatch, n as u64);
    }
    dht
}

#[test]
fn eight_migrations_run_at_once() {
    let dht = drifted();
    let mut sweep = Sweep::plan(&dht);
    for n in 0..8u8 {
        assert_eq!(sweep.next().unwrap().1.id, [n; 16]);
    }
    assert!(sweep.next().is_none());
    sweep.ended();
    assert_eq!(sweep.next().unwrap().1.id, [8u8; 16]);
    sweep.ended();
    assert_eq!(sweep.next().unwrap().1.id, [9u8; 16]);
    sweep.ended();
    assert!(sweep.next().is_none());
}

#[test]
fn handed_over_message_leaves_when_two_known_relays_took_it() {
    let mut dht = drifted();
    let key = MessageKey::new(&[0u8; 32], 0, &[0u8; 16]);
    let bound = |n: u8| PeerConn { id: NodeId::new(&[n; 32]), conn: n as u64, pubkey: [n; 32] };
    remember_conn(&mut dht, bound(1), false);
    remember_conn(&mut dht, bound(2), false);
    remember_conn(&mut dht, PeerConn { id: NodeId::new(&[3; 32]), conn: 3, pubkey: [4; 32] }, false);
    begin_migration(&mut dht);
    for other in [NodeId::new(&[3; 32]), NodeId::new(&[5; 32]), dht.node_id] {
        let weak = ForwardSummary { delivered_at: vec![NodeId::new(&[1; 32])], stored_at: vec![other] };
        assert!(!handover_is_durable(&dht, &weak));
        assert!(!migrate_one(&mut dht, &key, &Some(weak)));
    }
    assert!(!migrate_one(&mut dht, &key, &None));
    assert_eq!(lookup_queue_for_user(&dht, &[0u8; 32], 20).len(), 10);
    let firm = ForwardSummary {
        delivered_at: vec![NodeId::new(&[1; 32])],
        stored_at: vec![NodeId::new(&[2; 32])],
    };
    assert!(handover_is_durable(&dht, &firm));
    assert!(migrate_one(&mut dht, &key, &Some(firm)));
    let left = lookup_queue_for_user(&dht, &[0u8; 32], 20);
    assert_eq!(left.len(), 9);
    assert_eq!(left[0].1.id, [1u8; 16]);
    assert_eq!(dht.metrics.migrations_attempted, 1);
    assert_eq!(dht.metrics.migrations_succeeded, 1);
    assert_eq!(dht.metrics.migrations_failed, 4);
}

#[test]
fn copy_that_cannot_be_deleted_is_not_counted_as_migrated() {
    let mut dht = drifted();
    let key = MessageKey::new(&[0u8; 32], 0, &[0u8; 16]);
    for n in 1..=2u8 {
        remember_conn(&mut dht, PeerConn { id: NodeId::new(&[n; 32]), conn: n as u64, pubkey: [n; 32] }, false);
    }
    let firm = ForwardSummary {
        delivered_at: Vec::new(),
        stored_at: vec![NodeId::new(&[1; 32]), NodeId::new(&[2; 32])],
    };
    dht.store.queue.writable = false;
    assert!(!migrate_one(&mut dht, &key, &Some(firm)));
    assert_eq!(lookup_queue_for_user(&dht, &[0u8; 32], 20).len(), 10);
    assert_eq!(dht.metrics.migrations_succeeded, 0);
    assert_eq!(dht.metrics.migrations_failed, 0);
}
