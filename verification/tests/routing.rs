use relay::dht::bytes::xor32;
use relay::dht::config::{BUCKETS, BUCKET_REFRESH_MS, BUCKET_SIZE, K};
use relay::dht::id::{NodeDescriptor, NodeId, PeerAddr};
use relay::dht::routing::{
    bucket_for, random_id_in_bucket, self_in_top_k, InsertOutcome, PingFailedOutcome, RoutingTable,
};

fn id_n(n: u8) -> NodeId {
    let mut seed = [0u8; 32];
    seed[0] = n;
    NodeId::new(&seed)
}

fn desc(id: NodeId) -> NodeDescriptor {
    NodeDescriptor { id, addr: PeerAddr::V4 { octets: [127, 0, 0, 1], port: 1 }, pubkey: [0u8; 32] }
}

fn fresh_table(self_seed: u8) -> RoutingTable {
    RoutingTable::empty(id_n(self_seed), 0)
}

fn id_in_bucket(self_id: &NodeId, target_bucket: usize, cursor: &mut u32) -> NodeId {
    let start = *cursor;
    for offset in 0u32..1_000_000 {
        let n = start.wrapping_add(offset);
        let mut seed = [0u8; 32];
        seed[..4].copy_from_slice(&n.to_le_bytes());
        seed[31] = (n & 0xff) as u8;
        let id = NodeId::new(&seed);
        if bucket_for(self_id, &id) == Some(target_bucket) {
            *cursor = n.wrapping_add(1);
            return id;
        }
    }
    panic!("could not find id mapping to bucket {target_bucket}")
}

fn fill_bucket(t: &mut RoutingTable, bucket: usize, cursor: &mut u32) -> Vec<NodeId> {
    let mut filled: Vec<NodeId> = Vec::new();
    while filled.len() < BUCKET_SIZE {
        let id = id_in_bucket(&t.self_id, bucket, cursor);
        if filled.contains(&id) {
            continue;
        }
        filled.push(id);
        assert_eq!(t.insert(desc(id), 0), InsertOutcome::Inserted);
    }
    filled
}

#[test]
fn bucket_for_msb_diff_returns_max_bucket() {
    let a_bytes = [0u8; 32];
    let mut b_bytes = [0u8; 32];
    b_bytes[0] = 0b1000_0000;
    let a = NodeId::from_bytes(a_bytes);
    let b = NodeId::from_bytes(b_bytes);
    assert_eq!(bucket_for(&a, &b), Some(BUCKETS - 1));
}

#[test]
fn bucket_for_lsb_diff_returns_zero_bucket() {
    let a_bytes = [0u8; 32];
    let mut b_bytes = [0u8; 32];
    b_bytes[31] = 0x01;
    let a = NodeId::from_bytes(a_bytes);
    let b = NodeId::from_bytes(b_bytes);
    assert_eq!(bucket_for(&a, &b), Some(0));
}

#[test]
fn bucket_for_self_returns_none() {
    let a = id_n(7);
    assert_eq!(bucket_for(&a, &a), None);
}

#[test]
fn insert_returns_inserted_for_new_peer() {
    let mut t = fresh_table(0);
    let p = id_n(1);
    assert_ne!(p, t.self_id);
    assert_eq!(t.insert(desc(p), 0), InsertOutcome::Inserted);
    assert_eq!(t.total_known(), 1);
}

#[test]
fn insert_returns_refreshed_for_seen_peer() {
    let mut t = fresh_table(0);
    let p = id_n(1);
    assert_eq!(t.insert(desc(p), 0), InsertOutcome::Inserted);
    assert_eq!(t.insert(desc(p), 0), InsertOutcome::Refreshed);
    assert_eq!(t.total_known(), 1);
}

#[test]
fn insert_returns_pending_ping_when_bucket_full() {
    let mut t = fresh_table(0);
    let mut cursor = 0u32;
    let target_bucket = 255;
    let filled = fill_bucket(&mut t, target_bucket, &mut cursor);
    loop {
        let id = id_in_bucket(&t.self_id, target_bucket, &mut cursor);
        if filled.contains(&id) {
            continue;
        }
        match t.insert(desc(id), 0) {
            InsertOutcome::PendingPing(lru) => {
                assert_eq!(lru.id, filled[0]);
                break;
            }
            other => panic!("expected PendingPing, got {other:?}"),
        }
    }
}

#[test]
fn insert_returns_discarded_when_replacement_slot_taken() {
    let mut t = fresh_table(0);
    let mut cursor = 0u32;
    let target_bucket = 255;
    let active = fill_bucket(&mut t, target_bucket, &mut cursor);
    let mut parked: Vec<NodeId> = Vec::new();
    while parked.len() < BUCKET_SIZE {
        let id = id_in_bucket(&t.self_id, target_bucket, &mut cursor);
        if active.contains(&id) || parked.contains(&id) {
            continue;
        }
        parked.push(id);
        match t.insert(desc(id), 0) {
            InsertOutcome::PendingPing(_) => {}
            other => panic!("expected PendingPing while filling candidates, got {other:?}"),
        }
    }
    loop {
        let id = id_in_bucket(&t.self_id, target_bucket, &mut cursor);
        if active.contains(&id) || parked.contains(&id) {
            continue;
        }
        assert_eq!(t.insert(desc(id), 0), InsertOutcome::Discarded);
        break;
    }
}

#[test]
fn insert_self_id_returns_is_self() {
    let mut t = fresh_table(7);
    let self_desc = desc(t.self_id);
    assert_eq!(t.insert(self_desc, 0), InsertOutcome::IsSelf);
    assert_eq!(t.total_known(), 0);
    for bucket in t.buckets.iter() {
        assert!(bucket.candidates.is_empty());
    }
}

#[test]
fn find_closest_returns_xor_sorted_descriptors() {
    let mut t = fresh_table(0);
    let mut inserted: Vec<NodeId> = Vec::new();
    for n in 1..=10u8 {
        let id = id_n(n);
        assert_ne!(id, t.self_id);
        inserted.push(id);
        assert_eq!(t.insert(desc(id), 0), InsertOutcome::Inserted);
    }
    let target = id_n(0xAA);
    let got = t.find_closest(&target, 5);
    assert_eq!(got.len(), 5);
    let mut expected: Vec<([u8; 32], NodeId)> = inserted
        .iter()
        .copied()
        .map(|id| (xor32(id.as_bytes(), target.as_bytes()), id))
        .collect();
    expected.sort_by_key(|a| a.0);
    let expected_ids: Vec<NodeId> = expected.into_iter().take(5).map(|(_, id)| id).collect();
    let got_ids: Vec<NodeId> = got.iter().map(|d| d.id).collect();
    assert_eq!(got_ids, expected_ids);
}

#[test]
fn find_closest_empty_table_returns_empty() {
    let t = fresh_table(0);
    let got = t.find_closest(&id_n(99), 5);
    assert!(got.is_empty());
}

#[test]
fn find_closest_count_zero_returns_empty() {
    let mut t = fresh_table(0);
    t.insert(desc(id_n(1)), 0);
    assert!(t.find_closest(&id_n(2), 0).is_empty());
}

#[test]
fn ping_failed_evicts_after_three_failures() {
    let mut t = fresh_table(0);
    let p = id_n(1);
    t.insert(desc(p), 0);
    assert_eq!(t.total_known(), 1);
    assert_eq!(t.ping_failed(&p, 0), PingFailedOutcome::Continued);
    assert_eq!(t.ping_failed(&p, 0), PingFailedOutcome::Continued);
    assert_eq!(t.ping_failed(&p, 0), PingFailedOutcome::Evicted);
    assert_eq!(t.total_known(), 0);
    assert_eq!(t.ping_failed(&p, 0), PingFailedOutcome::Unknown);
}

#[test]
fn ping_failed_evicts_and_promotes_candidate() {
    let mut t = fresh_table(0);
    let mut cursor = 0u32;
    let target_bucket = 255;
    let active = fill_bucket(&mut t, target_bucket, &mut cursor);
    let candidate_id = loop {
        let id = id_in_bucket(&t.self_id, target_bucket, &mut cursor);
        if !active.contains(&id) {
            break id;
        }
    };
    assert!(matches!(t.insert(desc(candidate_id), 0), InsertOutcome::PendingPing(_)));
    let lru = active[0];
    assert_eq!(t.ping_failed(&lru, 0), PingFailedOutcome::Continued);
    assert_eq!(t.ping_failed(&lru, 0), PingFailedOutcome::Continued);
    assert_eq!(t.ping_failed(&lru, 0), PingFailedOutcome::EvictedAndPromoted);
    assert_eq!(t.total_known(), BUCKET_SIZE);
    let bucket = &t.buckets[target_bucket];
    assert!(bucket.entries.iter().any(|e| e.id == candidate_id));
    assert!(!bucket.entries.iter().any(|e| e.id == lru));
    assert!(bucket.candidates.is_empty());
}

#[test]
fn ping_succeeded_resets_failure_counter() {
    let mut t = fresh_table(0);
    let p = id_n(1);
    t.insert(desc(p), 0);
    assert_eq!(t.ping_failed(&p, 0), PingFailedOutcome::Continued);
    assert_eq!(t.ping_failed(&p, 0), PingFailedOutcome::Continued);
    assert!(t.ping_succeeded(&p, 100, 0));
    assert_eq!(t.ping_failed(&p, 0), PingFailedOutcome::Continued);
    assert_eq!(t.ping_failed(&p, 0), PingFailedOutcome::Continued);
    assert_eq!(t.total_known(), 1);
}

#[test]
fn ping_succeeded_updates_ema() {
    let mut t = fresh_table(0);
    let p = id_n(1);
    t.insert(desc(p), 0);
    assert!(t.ping_succeeded(&p, 100, 0));
    let bucket_idx = bucket_for(&t.self_id, &p).unwrap();
    let ema_after_first = t.buckets[bucket_idx].entries.iter().find(|e| e.id == p).unwrap().rtt_ema_ms;
    assert_eq!(ema_after_first, Some(100));
    assert!(t.ping_succeeded(&p, 200, 0));
    let ema_after_second = t.buckets[bucket_idx].entries.iter().find(|e| e.id == p).unwrap().rtt_ema_ms;
    assert_eq!(ema_after_second, Some(112));
}

#[test]
fn ping_succeeded_unknown_peer_returns_false() {
    let mut t = fresh_table(0);
    assert!(!t.ping_succeeded(&id_n(1), 50, 0));
}

#[test]
fn buckets_needing_refresh_returns_stale_indices() {
    let t = fresh_table(0);
    assert!(t.buckets_needing_refresh(0).is_empty());
    let far_future = BUCKET_REFRESH_MS + 1_000;
    let stale = t.buckets_needing_refresh(far_future);
    assert_eq!(stale.len(), BUCKETS);
}

#[test]
fn refreshed_bucket_is_not_stale() {
    let mut t = fresh_table(0);
    let later = BUCKET_REFRESH_MS + 1_000;
    t.mark_refreshed(17, later);
    let stale = t.buckets_needing_refresh(later);
    assert_eq!(stale.len(), BUCKETS - 1);
    assert!(!stale.contains(&17));
}

#[test]
fn id_is_the_blake3_digest() {
    let empty = NodeId::new(&[]);
    let expected: [u8; 32] = [
        0xaf, 0x13, 0x49, 0xb9, 0xf5, 0xf9, 0xa1, 0xa6, 0xa0, 0x40, 0x4d, 0xea, 0x36, 0xdc, 0xc9, 0x49, 0x9b, 0xcb,
        0x25, 0xc9, 0xad, 0xc1, 0x12, 0xb7, 0xcc, 0x9a, 0x93, 0xca, 0xe4, 0x1f, 0x32, 0x62,
    ];
    assert_eq!(*empty.as_bytes(), expected);
}

#[test]
fn random_id_lands_in_its_bucket() {
    let me = id_n(9);
    let random = *id_n(77).as_bytes();
    for idx in 0..BUCKETS {
        let id = random_id_in_bucket(&me, idx, &random).unwrap();
        assert_eq!(bucket_for(&me, &id), Some(idx));
    }
    assert!(random_id_in_bucket(&me, BUCKETS, &random).is_none());
}

#[test]
fn home_is_among_the_k_closest() {
    let me = NodeId::from_bytes([0x80; 32]);
    let mut t = RoutingTable::empty(me, 0);
    let target = NodeId::from_bytes([0u8; 32]);
    for n in 1..=3u8 {
        assert!(self_in_top_k(&t, &me, &target));
        t.insert(desc(NodeId::from_bytes([n; 32])), 0);
    }
    assert_eq!(t.total_known(), K);
    assert!(!self_in_top_k(&t, &me, &target));
    assert!(self_in_top_k(&t, &me, &NodeId::from_bytes([0x81; 32])));
}

#[test]
fn active_peers_lists_every_peer_once() {
    let mut t = fresh_table(0);
    for n in 1..=10u8 {
        t.insert(desc(id_n(n)), 0);
    }
    let all = t.active_peers();
    assert_eq!(all.len(), 10);
    for n in 1..=10u8 {
        assert_eq!(all.iter().filter(|d| d.id == id_n(n)).count(), 1);
    }
}

#[test]
fn random_id_keeps_what_is_above_its_bit() {
    let own = NodeId::from_bytes([0xF0u8; 32]);
    let id = random_id_in_bucket(&own, 12, &[0xFFu8; 32]).unwrap();
    let mut expected = [0xF0u8; 32];
    expected[30] = 0xF0 ^ 0x1F;
    expected[31] = 0xFF;
    assert_eq!(id.bytes, expected);
    let id = random_id_in_bucket(&own, 255, &[0u8; 32]).unwrap();
    let mut expected = [0u8; 32];
    expected[0] = 0x70;
    assert_eq!(id.bytes, expected);
}

#[test]
fn table_forgets_nobody_by_hearing() {
    let mut table = RoutingTable::empty(NodeId::from_bytes([0u8; 32]), 0);
    for n in 1..=40u8 {
        let mut bytes = [0u8; 32];
        bytes[0] = 0x80;
        bytes[31] = n;
        let id = NodeId::from_bytes(bytes);
        let before: Vec<NodeId> = table.active_peers().iter().map(|d| d.id).collect();
        let outcome = table.insert(
            NodeDescriptor { id, addr: PeerAddr::V4 { octets: [127, 0, 0, 1], port: 1 }, pubkey: [0u8; 32] },
            n as u64,
        );
        let after: Vec<NodeId> = table.active_peers().iter().map(|d| d.id).collect();
        assert!(before.iter().all(|known| after.contains(known)));
        assert_eq!(after.contains(&id), matches!(outcome, InsertOutcome::Inserted | InsertOutcome::Refreshed));
    }
}
