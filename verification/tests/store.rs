use ed25519_dalek::{Signer, SigningKey};
use relay::dht::config::DhtConfig;
use relay::dht::id::{NodeDescriptor, NodeId, PeerAddr};
use relay::dht::keyspace::{Keyspace, Row};
use relay::dht::store::{
    delete_migrated_entry, delete_queue_entries, enqueue_for_home, lookup_queue_for_user, plan_drift_migrations,
    MessageKey, MAX_QUEUED_PER_RECIPIENT,
};
use relay::dht::wire::{DispatchP, ForwardOutcome, WireLimits};
use relay::dht::{Dht, Store};

fn key_n(n: u8) -> SigningKey {
    let mut seed = [0u8; 32];
    seed[0] = n;
    seed[31] = n;
    SigningKey::from_bytes(&seed)
}

fn limits() -> WireLimits {
    WireLimits {
        max_find_node_results: 16,
        max_fetch_record_batch: 64,
        queue_skew_ms: 60_000,
        max_fetch_queue_ack_ids: 256,
        kp_stash_target: 100,
        keypackage_lifetime_ms: 2_592_000_000,
        max_welcome_ack_ids: 64,
    }
}

fn fresh_dht(self_id: NodeId) -> Dht {
    let store = Store { queue: Keyspace::new(), keypackage: Keyspace::new(), welcome: Keyspace::new() };
    Dht::new(self_id, DhtConfig::default(), limits(), store, 1000, 1000, 0)
}

fn relay_dht() -> Dht {
    fresh_dht(NodeId::new(&key_n(1).verifying_key().to_bytes()))
}

fn build_dispatch(from_user: &SigningKey, to_ipk: &[u8; 32], id: [u8; 16], payload: &[u8]) -> DispatchP {
    let from: [u8; 32] = from_user.verifying_key().to_bytes();
    let mut msg = Vec::new();
    msg.extend_from_slice(to_ipk);
    msg.extend_from_slice(&from);
    msg.extend_from_slice(&id);
    msg.extend_from_slice(payload);
    DispatchP { to: *to_ipk, from, id, payload: payload.to_vec(), sig: from_user.sign(&msg).to_bytes() }
}

fn peer(id: NodeId) -> NodeDescriptor {
    NodeDescriptor { id, addr: PeerAddr::V4 { octets: [127, 0, 0, 1], port: 1 }, pubkey: [0u8; 32] }
}

fn fill_to_cap(dht: &mut Dht, ipk: &[u8; 32], now: u64) {
    for i in 0..MAX_QUEUED_PER_RECIPIENT {
        let mut id = [0u8; 16];
        id[0..8].copy_from_slice(&(i as u64).to_be_bytes());
        let key = MessageKey::new(ipk, now + (i as u64), &id);
        dht.store.queue.rows.push(Row { key: key.as_bytes(), value: None });
    }
}

#[test]
fn enqueue_for_home_writes_with_correct_key_shape() {
    let mut dht = relay_dht();
    let to_ipk: [u8; 32] = key_n(3).verifying_key().to_bytes();
    let id: [u8; 16] = [0xAB; 16];
    let dispatch = build_dispatch(&key_n(2), &to_ipk, id, b"payload-x");
    let now: u64 = 1_700_000_000_000;

    let outcome = enqueue_for_home(&mut dht, &to_ipk, &dispatch, now);
    assert_eq!(outcome, ForwardOutcome::Stored);

    let rows = &dht.store.queue.rows;
    assert_eq!(rows.len(), 1, "exactly one queued message expected");
    let key = &rows[0].key;
    assert_eq!(key.len(), 56, "MessageKey is 56 bytes");
    assert_eq!(&key[0..32], &to_ipk[..]);
    assert_eq!(&key[32..40], &now.to_be_bytes()[..]);
    assert_eq!(&key[40..56], &id[..]);
    let kept = rows[0].value.as_ref().unwrap();
    assert_eq!(kept.to, dispatch.to);
    assert_eq!(kept.from, dispatch.from);
    assert_eq!(kept.id, dispatch.id);
    assert_eq!(kept.payload, dispatch.payload);
    assert_eq!(kept.sig, dispatch.sig);
}

#[test]
fn enqueue_for_home_returns_queue_full_at_cap() {
    let mut dht = relay_dht();
    let to_ipk: [u8; 32] = key_n(3).verifying_key().to_bytes();
    let now: u64 = 1_700_000_000_000;
    fill_to_cap(&mut dht, &to_ipk, now);

    let dispatch = build_dispatch(&key_n(2), &to_ipk, [0xFF; 16], b"overflow");
    let outcome = enqueue_for_home(&mut dht, &to_ipk, &dispatch, now + 99_999);
    assert_eq!(outcome, ForwardOutcome::QueueFull);
    assert_eq!(dht.metrics.dht_queue_full_rejections, 1);

    let found_overflow = dht.store.queue.rows.iter().any(|r| r.key.ends_with(&[0xFF; 16]));
    assert!(!found_overflow, "QueueFull rejection must not write the entry");
}

#[test]
fn enqueue_for_home_does_not_count_other_recipients_against_cap() {
    let mut dht = relay_dht();
    let ipk_a: [u8; 32] = key_n(3).verifying_key().to_bytes();
    let ipk_b: [u8; 32] = key_n(4).verifying_key().to_bytes();
    let now: u64 = 1_700_000_000_000;
    fill_to_cap(&mut dht, &ipk_a, now);

    let dispatch_b = build_dispatch(&key_n(2), &ipk_b, [1u8; 16], b"hi-B");
    let outcome = enqueue_for_home(&mut dht, &ipk_b, &dispatch_b, now);
    assert_eq!(outcome, ForwardOutcome::Stored);
}

#[test]
fn lookup_queue_for_user_returns_chronological_order() {
    let mut dht = relay_dht();
    let to_ipk: [u8; 32] = key_n(3).verifying_key().to_bytes();
    let dispatch_b = build_dispatch(&key_n(2), &to_ipk, [2u8; 16], b"second");
    let dispatch_a = build_dispatch(&key_n(2), &to_ipk, [1u8; 16], b"first");
    enqueue_for_home(&mut dht, &to_ipk, &dispatch_b, 200);
    enqueue_for_home(&mut dht, &to_ipk, &dispatch_a, 100);

    let got = lookup_queue_for_user(&dht, &to_ipk, 8);
    assert_eq!(got.len(), 2);
    assert_eq!(got[0].1.id, [1u8; 16]);
    assert_eq!(got[1].1.id, [2u8; 16]);
}

#[test]
fn lookup_queue_for_user_caps_at_max() {
    let mut dht = relay_dht();
    let to_ipk: [u8; 32] = key_n(3).verifying_key().to_bytes();
    for i in 0..10u8 {
        let mut id = [0u8; 16];
        id[0] = i;
        let dispatch = build_dispatch(&key_n(2), &to_ipk, id, b"x");
        enqueue_for_home(&mut dht, &to_ipk, &dispatch, 100 + i as u64);
    }
    let got = lookup_queue_for_user(&dht, &to_ipk, 3);
    assert_eq!(got.len(), 3);
    for (i, item) in got.iter().enumerate() {
        assert_eq!(item.1.id[0], i as u8);
    }
}

#[test]
fn lookup_queue_for_user_returns_empty_for_unknown_recipient() {
    let dht = relay_dht();
    let unknown_ipk = [0xFFu8; 32];
    let got = lookup_queue_for_user(&dht, &unknown_ipk, 8);
    assert!(got.is_empty());
}

#[test]
fn delete_queue_entries_removes_listed_ids_only() {
    let mut dht = relay_dht();
    let to_ipk: [u8; 32] = key_n(3).verifying_key().to_bytes();
    let ids = [[1u8; 16], [2u8; 16], [3u8; 16], [4u8; 16]];
    for &id in &ids {
        let dispatch = build_dispatch(&key_n(2), &to_ipk, id, b"d");
        enqueue_for_home(&mut dht, &to_ipk, &dispatch, 100);
    }
    let removed = delete_queue_entries(&mut dht, &to_ipk, &[ids[1], ids[3]]);
    assert_eq!(removed, 2);

    let remaining = lookup_queue_for_user(&dht, &to_ipk, 8);
    assert_eq!(remaining.len(), 2);
    assert!(remaining.iter().any(|(_, d)| d.id == [1u8; 16]));
    assert!(remaining.iter().any(|(_, d)| d.id == [3u8; 16]));
}

#[test]
fn delete_queue_entries_idempotent_for_missing_ids() {
    let mut dht = relay_dht();
    let to_ipk: [u8; 32] = key_n(3).verifying_key().to_bytes();
    let dispatch = build_dispatch(&key_n(2), &to_ipk, [1u8; 16], b"alone");
    enqueue_for_home(&mut dht, &to_ipk, &dispatch, 100);

    let removed = delete_queue_entries(&mut dht, &to_ipk, &[[1u8; 16], [2u8; 16]]);
    assert_eq!(removed, 1, "only the present id contributes");

    let remaining = lookup_queue_for_user(&dht, &to_ipk, 8);
    assert!(remaining.is_empty());
}

fn drifted_dht() -> Dht {
    let mut self_seed = [0u8; 32];
    self_seed[0] = 0xFF;
    let mut dht = fresh_dht(NodeId::new(&self_seed));
    for i in 0..3u8 {
        let mut s = [0u8; 32];
        s[31] = i;
        dht.routing.insert(peer(NodeId::new(&s)), 0);
    }
    dht
}

#[test]
fn drift_plan_migrates_queue_when_drifted_out_of_k_closest() {
    let mut dht = drifted_dht();
    let to_ipk: [u8; 32] = [0u8; 32];
    let dispatch = build_dispatch(&key_n(2), &to_ipk, [9u8; 16], b"drifted");
    enqueue_for_home(&mut dht, &to_ipk, &dispatch, 100);

    let migrations = plan_drift_migrations(&dht, 16);
    assert_eq!(migrations.len(), 1);
    assert_eq!(migrations[0].1.id, [9u8; 16]);
}

#[test]
fn drift_plan_no_migration_when_still_owner() {
    let mut dht = relay_dht();
    let to_ipk: [u8; 32] = key_n(3).verifying_key().to_bytes();
    let dispatch = build_dispatch(&key_n(2), &to_ipk, [1u8; 16], b"stay");
    enqueue_for_home(&mut dht, &to_ipk, &dispatch, 100);

    let migrations = plan_drift_migrations(&dht, 16);
    assert!(migrations.is_empty());
}

#[test]
fn drift_plan_caps_migration_at_max_per_sweep() {
    let mut dht = drifted_dht();
    for i in 0..5u8 {
        let mut to_ipk = [0u8; 32];
        to_ipk[31] = 0xA0 | i;
        let dispatch = build_dispatch(&key_n(2), &to_ipk, [i; 16], b"cap");
        enqueue_for_home(&mut dht, &to_ipk, &dispatch, 100);
    }
    let migrations = plan_drift_migrations(&dht, 3);
    assert_eq!(migrations.len(), 3, "cap respected");
}

#[test]
fn migrated_entry_is_deleted() {
    let mut dht = drifted_dht();
    let to_ipk: [u8; 32] = [0u8; 32];
    let dispatch = build_dispatch(&key_n(2), &to_ipk, [9u8; 16], b"drifted");
    enqueue_for_home(&mut dht, &to_ipk, &dispatch, 100);
    let migrations = plan_drift_migrations(&dht, 16);
    assert!(delete_migrated_entry(&mut dht, &migrations[0].0));
    assert!(plan_drift_migrations(&dht, 16).is_empty());
}

#[test]
fn medium_that_fails_is_told_as_bad_sig() {
    let mut dht = relay_dht();
    dht.store.queue.writable = false;
    let to_ipk = [7u8; 32];
    let dispatch = build_dispatch(&key_n(2), &to_ipk, [1u8; 16], b"x");
    assert_eq!(enqueue_for_home(&mut dht, &to_ipk, &dispatch, 1), ForwardOutcome::BadSig);
    assert!(dht.store.queue.rows.is_empty());
    assert_eq!(delete_queue_entries(&mut dht, &to_ipk, &[[1u8; 16]]), 0);
    dht.store.queue.writable = true;
    assert_eq!(enqueue_for_home(&mut dht, &to_ipk, &dispatch, 1), ForwardOutcome::Stored);
    dht.store.queue.readable = false;
    assert_eq!(enqueue_for_home(&mut dht, &to_ipk, &dispatch, 2), ForwardOutcome::BadSig);
    assert_eq!(lookup_queue_for_user(&dht, &to_ipk, 8).len(), 1);
}

#[test]
fn message_key_parses_back() {
    let key = MessageKey::new(&[5u8; 32], 0x0102_0304_0506_0708, &[6u8; 16]);
    let bytes = key.as_bytes();
    assert_eq!(bytes.len(), 56);
    assert_eq!(&bytes[32..40], &[1, 2, 3, 4, 5, 6, 7, 8]);
    assert_eq!(MessageKey::parse(&bytes), Some(key));
    assert_eq!(MessageKey::parse(&bytes[..55]), None);
}
