use ed25519_dalek::{Signer, SigningKey};
use relay::dht::config::DhtConfig;
use relay::dht::id::{NodeDescriptor, NodeId, PeerAddr};
use relay::dht::keyspace::Keyspace;
use relay::dht::mls_kp::{
    answer_fetch, close_reason_for_fetch, close_reason_for_publish, close_reason_for_refill, compute_static_hash,
    gate_batch, gate_record, handle_keypackage_fetch, handle_keypackage_publish, handle_keypackage_refill,
    iterate_stash, judge_record, skew_ok, stash_prefix, storage_key, verify_record, BatchOutcome,
    KeyPackageVerifyError,
};
use relay::dht::rate_limit::MAX_KP_FETCH_PER_HOUR;
use relay::dht::wire::{
    CloseReason, KeyPackageBatch, KeyPackageFetchOutcome, KeyPackageFetchReq, KeyPackagePublishOutcome,
    KeyPackageRecord, KeyPackageRefillOutcome, SignedRecord, WireLimits,
};
use relay::dht::{Dht, Store};

const KP_STASH_TARGET: usize = 100;

fn key_n(n: u64) -> SigningKey {
    let mut seed = [0u8; 32];
    seed[..8].copy_from_slice(&n.to_le_bytes());
    seed[31] = (n & 0xff) as u8;
    seed[16] = ((n >> 8) & 0xff) as u8;
    SigningKey::from_bytes(&seed)
}

fn limits() -> WireLimits {
    WireLimits {
        max_find_node_results: 16,
        max_fetch_record_batch: 64,
        queue_skew_ms: 60_000,
        max_fetch_queue_ack_ids: 256,
        kp_stash_target: KP_STASH_TARGET,
        keypackage_lifetime_ms: 2_592_000_000,
        max_welcome_ack_ids: 64,
    }
}

fn fresh_dht() -> Dht {
    let store = Store { queue: Keyspace::new(), keypackage: Keyspace::new(), welcome: Keyspace::new() };
    Dht::new(NodeId::new(&[0u8; 32]), DhtConfig::default(), limits(), store, 1000, 1000, 0)
}

fn record_transcript(rec: &KeyPackageRecord) -> Vec<u8> {
    let mut msg = b"kp-record".to_vec();
    msg.extend_from_slice(&rec.ipk);
    msg.extend_from_slice(&rec.kp_ref);
    msg.extend_from_slice(&rec.kp_bytes);
    msg.extend_from_slice(&rec.expires_at_ms.to_be_bytes());
    msg
}

fn build_record(owner: &SigningKey, kp_ref: [u8; 32], kp_bytes: Vec<u8>, expires_at_ms: u64) -> KeyPackageRecord {
    let ipk = owner.verifying_key().to_bytes();
    let mut rec = KeyPackageRecord { ipk, kp_ref: kp_ref.to_vec(), kp_bytes, expires_at_ms, owner_sig: [0u8; 64] };
    rec.owner_sig = owner.sign(&record_transcript(&rec)).to_bytes();
    rec
}

fn build_batch(
    label: &[u8],
    owner: &SigningKey,
    records: Vec<KeyPackageRecord>,
    timestamp: u64,
) -> KeyPackageBatch {
    let ipk = owner.verifying_key().to_bytes();
    let mut transcript = label.to_vec();
    transcript.extend_from_slice(&ipk);
    transcript.extend_from_slice(&(records.len() as u32).to_be_bytes());
    transcript.extend_from_slice(&timestamp.to_be_bytes());
    let records: Vec<SignedRecord> = records
        .into_iter()
        .map(|record| {
            let transcript = record_transcript(&record);
            SignedRecord { record, transcript }
        })
        .collect();
    for rec in records.iter() {
        transcript.extend_from_slice(&rec.transcript);
    }
    let sig = owner.sign(&transcript).to_bytes();
    KeyPackageBatch { ipk, records, timestamp, sig, transcript }
}

fn build_publish(owner: &SigningKey, records: Vec<KeyPackageRecord>, timestamp: u64) -> KeyPackageBatch {
    build_batch(b"kp-publish", owner, records, timestamp)
}

fn build_refill(owner: &SigningKey, records: Vec<KeyPackageRecord>, timestamp: u64) -> KeyPackageBatch {
    build_batch(b"kp-refill", owner, records, timestamp)
}

fn fetch_of(owner: &SigningKey, requester: NodeId, timestamp: u64) -> KeyPackageFetchReq {
    KeyPackageFetchReq { target_ipk: owner.verifying_key().to_bytes(), requester_relay_id: requester, timestamp }
}

fn fresh_now() -> u64 {
    1_700_000_000_000
}

fn same_record(a: &KeyPackageRecord, b: &KeyPackageRecord) -> bool {
    a.ipk == b.ipk
        && a.kp_ref == b.kp_ref
        && a.kp_bytes == b.kp_bytes
        && a.expires_at_ms == b.expires_at_ms
        && a.owner_sig == b.owner_sig
}

#[test]
fn publish_then_fetch_round_trip_single_record() {
    let owner = key_n(1);
    let mut dht = fresh_dht();
    let now = fresh_now();
    let rec = build_record(&owner, [0xAA; 32], b"kp-bytes".to_vec(), now + 60_000);
    let pub_req = build_publish(&owner, vec![rec.copy()], now);
    let auth_peer = NodeId::new(&[0xBB; 32]);
    assert_eq!(handle_keypackage_publish(&mut dht, &pub_req, now), KeyPackagePublishOutcome::Stored);

    match handle_keypackage_fetch(&mut dht, &fetch_of(&owner, auth_peer, now), &auth_peer, now) {
        KeyPackageFetchOutcome::Found(found) => {
            assert!(same_record(&found.record, &rec));
            assert_eq!(found.remaining, 0, "stash empty after popping the only KP");
            let mut buf = rec.ipk.to_vec();
            buf.extend_from_slice(&rec.kp_ref);
            buf.extend_from_slice(blake3::hash(&rec.kp_bytes).as_bytes());
            assert_eq!(found.static_hash, *blake3::hash(&buf).as_bytes());
        }
        other => panic!("expected Found, got {other:?}"),
    }
}

#[test]
fn publish_then_fetch_with_multiple_records() {
    let owner = key_n(1);
    let mut dht = fresh_dht();
    let now = fresh_now();
    let auth_peer = NodeId::new(&[0xBB; 32]);
    let recs: Vec<KeyPackageRecord> = (0..3u8)
        .map(|i| {
            let mut kp_ref = [0u8; 32];
            kp_ref[0] = i;
            build_record(&owner, kp_ref, vec![i], now + 60_000)
        })
        .collect();
    let pub_req = build_publish(&owner, recs, now);
    assert_eq!(handle_keypackage_publish(&mut dht, &pub_req, now), KeyPackagePublishOutcome::Stored);

    let fetch_req = fetch_of(&owner, auth_peer, now);
    match handle_keypackage_fetch(&mut dht, &fetch_req, &auth_peer, now) {
        KeyPackageFetchOutcome::Found(f) => assert_eq!(f.remaining, 2),
        other => panic!("first fetch: {other:?}"),
    }
    match handle_keypackage_fetch(&mut dht, &fetch_req, &auth_peer, now) {
        KeyPackageFetchOutcome::Found(f) => assert_eq!(f.remaining, 1),
        other => panic!("second fetch: {other:?}"),
    }
    match handle_keypackage_fetch(&mut dht, &fetch_req, &auth_peer, now) {
        KeyPackageFetchOutcome::Found(f) => assert_eq!(f.remaining, 0),
        other => panic!("third fetch: {other:?}"),
    }
    assert!(matches!(
        handle_keypackage_fetch(&mut dht, &fetch_req, &auth_peer, now),
        KeyPackageFetchOutcome::NoStash
    ));
}

#[test]
fn fetch_returns_no_stash_for_unknown_ipk() {
    let mut dht = fresh_dht();
    let now = fresh_now();
    let auth_peer = NodeId::new(&[0xBB; 32]);
    let req = KeyPackageFetchReq { target_ipk: [0x99; 32], requester_relay_id: auth_peer, timestamp: now };
    assert!(matches!(
        handle_keypackage_fetch(&mut dht, &req, &auth_peer, now),
        KeyPackageFetchOutcome::NoStash
    ));
}

#[test]
fn fetch_consumes_each_record_exactly_once() {
    let owner = key_n(1);
    let mut dht = fresh_dht();
    let now = fresh_now();
    let auth_peer = NodeId::new(&[0xBB; 32]);
    let recs: Vec<KeyPackageRecord> = (0..3u8)
        .map(|i| {
            let mut kp_ref = [0u8; 32];
            kp_ref[0] = 100 + i;
            build_record(&owner, kp_ref, vec![i], now + 60_000)
        })
        .collect();
    assert_eq!(
        handle_keypackage_publish(&mut dht, &build_publish(&owner, recs, now), now),
        KeyPackagePublishOutcome::Stored
    );

    let fetch_req = fetch_of(&owner, auth_peer, now);
    let mut seen: std::collections::HashSet<Vec<u8>> = std::collections::HashSet::new();
    for _ in 0..3 {
        match handle_keypackage_fetch(&mut dht, &fetch_req, &auth_peer, now) {
            KeyPackageFetchOutcome::Found(f) => {
                let inserted = seen.insert(f.record.kp_ref.clone());
                assert!(inserted, "each fetch must return a distinct kp_ref");
            }
            other => panic!("expected Found, got {other:?}"),
        }
    }
    assert_eq!(seen.len(), 3, "all three KPs consumed exactly once");
}

#[test]
fn publish_with_expired_record_is_rejected() {
    let owner = key_n(1);
    let mut dht = fresh_dht();
    let now = fresh_now();
    let rec = build_record(&owner, [0xCC; 32], b"x".to_vec(), now);
    let req = build_publish(&owner, vec![rec], now);
    assert_eq!(handle_keypackage_publish(&mut dht, &req, now), KeyPackagePublishOutcome::Expired);
}

#[test]
fn fetch_silently_filters_expired_records() {
    let owner = key_n(1);
    let mut dht = fresh_dht();
    let auth_peer = NodeId::new(&[0xBB; 32]);
    let t0 = fresh_now();
    let short = build_record(&owner, [0x01; 32], b"short".to_vec(), t0 + 1_000);
    let long = build_record(&owner, [0x02; 32], b"long".to_vec(), t0 + 60_000);
    let pub_req = build_publish(&owner, vec![short.copy(), long.copy()], t0);
    assert_eq!(handle_keypackage_publish(&mut dht, &pub_req, t0), KeyPackagePublishOutcome::Stored);

    let t1 = t0 + 5_000;
    match handle_keypackage_fetch(&mut dht, &fetch_of(&owner, auth_peer, t1), &auth_peer, t1) {
        KeyPackageFetchOutcome::Found(f) => {
            assert_eq!(f.record.kp_ref, long.kp_ref);
            assert_eq!(f.remaining, 0, "expired short was filtered");
        }
        other => panic!("expected Found(long), got {other:?}"),
    }
}

#[test]
fn what_is_left_counts_fresh_records_only() {
    let owner = key_n(1);
    let mut dht = fresh_dht();
    let auth_peer = NodeId::new(&[0xBB; 32]);
    let t0 = fresh_now();
    let records = vec![
        build_record(&owner, [0x01; 32], b"first".to_vec(), t0 + 60_000),
        build_record(&owner, [0x02; 32], b"short".to_vec(), t0 + 1_000),
        build_record(&owner, [0x03; 32], b"last".to_vec(), t0 + 60_000),
        build_record(&owner, [0x04; 32], b"short too".to_vec(), t0 + 1_000),
    ];
    let publish = build_publish(&owner, records, t0);
    assert_eq!(handle_keypackage_publish(&mut dht, &publish, t0), KeyPackagePublishOutcome::Stored);
    let t1 = t0 + 5_000;
    let fetch = fetch_of(&owner, auth_peer, t1);
    for (kp_ref, remaining) in [([0x01; 32], 1), ([0x03; 32], 0)] {
        match handle_keypackage_fetch(&mut dht, &fetch, &auth_peer, t1) {
            KeyPackageFetchOutcome::Found(f) => {
                assert_eq!(f.record.kp_ref, kp_ref);
                assert_eq!(f.remaining, remaining);
            }
            other => panic!("expected Found, got {other:?}"),
        }
    }
    assert!(matches!(
        handle_keypackage_fetch(&mut dht, &fetch, &auth_peer, t1),
        KeyPackageFetchOutcome::NoStash
    ));
}

#[test]
fn publish_signature_does_not_serve_for_a_refill() {
    let owner = key_n(1);
    let mut dht = fresh_dht();
    let now = fresh_now();
    let rec = build_record(&owner, [0xA0; 32], b"a".to_vec(), now + 60_000);
    let publish = build_publish(&owner, vec![rec.copy()], now);
    assert_eq!(handle_keypackage_publish(&mut dht, &publish, now), KeyPackagePublishOutcome::Stored);
    let mut refill = build_refill(&owner, vec![rec.copy()], now);
    refill.sig = publish.sig;
    assert_eq!(handle_keypackage_refill(&mut dht, &refill, now), KeyPackageRefillOutcome::BadSig);
    assert_eq!(iterate_stash(&dht, &rec.ipk).len(), 1);
}

#[test]
fn publish_with_tampered_owner_sig_is_rejected() {
    let owner = key_n(1);
    let mut dht = fresh_dht();
    let now = fresh_now();
    let mut rec = build_record(&owner, [0xAA; 32], b"x".to_vec(), now + 60_000);
    rec.owner_sig[0] ^= 0xFF;
    let req = build_publish(&owner, vec![rec], now);
    assert_eq!(handle_keypackage_publish(&mut dht, &req, now), KeyPackagePublishOutcome::BadSig);
}

#[test]
fn publish_with_tampered_outer_sig_is_rejected() {
    let owner = key_n(1);
    let mut dht = fresh_dht();
    let now = fresh_now();
    let rec = build_record(&owner, [0xAA; 32], b"x".to_vec(), now + 60_000);
    let mut req = build_publish(&owner, vec![rec], now);
    req.sig[0] ^= 0xFF;
    assert_eq!(handle_keypackage_publish(&mut dht, &req, now), KeyPackagePublishOutcome::BadSig);
}

#[test]
fn republish_with_different_kp_bytes_is_static_fields_conflict() {
    let owner = key_n(1);
    let mut dht = fresh_dht();
    let now = fresh_now();
    let kp_ref = [0xDD; 32];
    let rec_a = build_record(&owner, kp_ref, b"original-bytes".to_vec(), now + 60_000);
    assert_eq!(
        handle_keypackage_publish(&mut dht, &build_publish(&owner, vec![rec_a], now), now),
        KeyPackagePublishOutcome::Stored
    );
    let rec_b = build_record(&owner, kp_ref, b"FORGED-bytes".to_vec(), now + 60_000);
    assert_eq!(
        handle_keypackage_publish(&mut dht, &build_publish(&owner, vec![rec_b], now), now),
        KeyPackagePublishOutcome::StaticFieldsConflict
    );
}

#[test]
fn fresh_publish_does_not_evict_old_records() {
    let owner = key_n(1);
    let mut dht = fresh_dht();
    let now = fresh_now();
    let rec_a = build_record(&owner, [0xA1; 32], b"alpha".to_vec(), now + 60_000);
    assert_eq!(
        handle_keypackage_publish(&mut dht, &build_publish(&owner, vec![rec_a.copy()], now), now),
        KeyPackagePublishOutcome::Stored
    );
    let rec_b = build_record(&owner, [0xB1; 32], b"beta".to_vec(), now + 60_000);
    assert_eq!(
        handle_keypackage_publish(&mut dht, &build_publish(&owner, vec![rec_b.copy()], now), now),
        KeyPackagePublishOutcome::Stored
    );
    let stash = iterate_stash(&dht, &rec_a.ipk);
    assert_eq!(stash.len(), 2, "rotation must not evict in-lifetime old records");
    let kp_refs: std::collections::HashSet<Vec<u8>> = stash.iter().map(|(_, r)| r.kp_ref.clone()).collect();
    assert!(kp_refs.contains(&rec_a.kp_ref));
    assert!(kp_refs.contains(&rec_b.kp_ref));
}

#[test]
fn fetch_rate_limit_trips_per_pair() {
    let owner = key_n(1);
    let mut dht = fresh_dht();
    let now = fresh_now();
    let auth_peer = NodeId::new(&[0xBB; 32]);
    let recs: Vec<KeyPackageRecord> = (0..KP_STASH_TARGET as u8)
        .map(|i| {
            let mut kp_ref = [0u8; 32];
            kp_ref[0] = i;
            build_record(&owner, kp_ref, vec![i], now + 60_000)
        })
        .collect();
    assert_eq!(
        handle_keypackage_publish(&mut dht, &build_publish(&owner, recs, now), now),
        KeyPackagePublishOutcome::Stored
    );
    let fetch_req = fetch_of(&owner, auth_peer, now);
    let mut denied = 0usize;
    for _ in 0..(MAX_KP_FETCH_PER_HOUR as usize + 5) {
        match handle_keypackage_fetch(&mut dht, &fetch_req, &auth_peer, now) {
            KeyPackageFetchOutcome::Found(_) | KeyPackageFetchOutcome::NoStash => {}
            KeyPackageFetchOutcome::RateLimited => denied += 1,
            other => panic!("unexpected: {other:?}"),
        }
    }
    assert!(denied > 0, "rate limit must trip after the burst is exhausted");
}

#[test]
fn fetch_rate_limit_does_not_share_quota_across_requesters() {
    let owner = key_n(1);
    let mut dht = fresh_dht();
    let now = fresh_now();
    let req_a = NodeId::new(&[0xAA; 32]);
    let req_b = NodeId::new(&[0xBB; 32]);
    let recs: Vec<KeyPackageRecord> = (0..2u8)
        .map(|i| {
            let mut kp_ref = [0u8; 32];
            kp_ref[0] = i;
            build_record(&owner, kp_ref, vec![i], now + 60_000)
        })
        .collect();
    assert_eq!(
        handle_keypackage_publish(&mut dht, &build_publish(&owner, recs, now), now),
        KeyPackagePublishOutcome::Stored
    );
    let fetch_a = fetch_of(&owner, req_a, now);
    for _ in 0..(MAX_KP_FETCH_PER_HOUR as usize + 5) {
        let _ = handle_keypackage_fetch(&mut dht, &fetch_a, &req_a, now);
    }
    let outcome = handle_keypackage_fetch(&mut dht, &fetch_of(&owner, req_b, now), &req_b, now);
    assert!(
        !matches!(outcome, KeyPackageFetchOutcome::RateLimited),
        "different requester must not share quota; got {outcome:?}"
    );
}

#[test]
fn fetch_rate_limit_does_not_share_quota_across_targets() {
    let owner_a = key_n(1);
    let owner_b = key_n(2);
    let mut dht = fresh_dht();
    let now = fresh_now();
    let req = NodeId::new(&[0xCC; 32]);
    let rec_a = build_record(&owner_a, [0xA1; 32], b"a".to_vec(), now + 60_000);
    let rec_b = build_record(&owner_b, [0xB1; 32], b"b".to_vec(), now + 60_000);
    assert_eq!(
        handle_keypackage_publish(&mut dht, &build_publish(&owner_a, vec![rec_a], now), now),
        KeyPackagePublishOutcome::Stored
    );
    assert_eq!(
        handle_keypackage_publish(&mut dht, &build_publish(&owner_b, vec![rec_b], now), now),
        KeyPackagePublishOutcome::Stored
    );
    let fetch_a = fetch_of(&owner_a, req, now);
    for _ in 0..(MAX_KP_FETCH_PER_HOUR as usize + 5) {
        let _ = handle_keypackage_fetch(&mut dht, &fetch_a, &req, now);
    }
    let outcome = handle_keypackage_fetch(&mut dht, &fetch_of(&owner_b, req, now), &req, now);
    assert!(
        !matches!(outcome, KeyPackageFetchOutcome::RateLimited),
        "different target must not share quota; got {outcome:?}"
    );
}

#[test]
fn mls_kp_close_reason_mapping_for_publish_outcomes() {
    assert!(matches!(
        close_reason_for_publish(KeyPackagePublishOutcome::BadSig),
        Some(CloseReason::KeyPackageMalformed)
    ));
    assert!(matches!(
        close_reason_for_publish(KeyPackagePublishOutcome::TooMany),
        Some(CloseReason::KeyPackageMalformed)
    ));
    assert!(matches!(
        close_reason_for_publish(KeyPackagePublishOutcome::StaticFieldsConflict),
        Some(CloseReason::KeyPackageMalformed)
    ));
    assert!(matches!(
        close_reason_for_publish(KeyPackagePublishOutcome::Expired),
        Some(CloseReason::KeyPackageExpired)
    ));
    assert!(matches!(
        close_reason_for_publish(KeyPackagePublishOutcome::RateLimited),
        Some(CloseReason::KeyPackageRateLimited)
    ));
    assert!(close_reason_for_publish(KeyPackagePublishOutcome::Stored).is_none());
    assert!(close_reason_for_publish(KeyPackagePublishOutcome::NotOwner).is_none());
}

#[test]
fn mls_kp_close_reason_mapping_for_fetch_outcomes() {
    assert!(matches!(
        close_reason_for_fetch(&KeyPackageFetchOutcome::RateLimited),
        Some(CloseReason::KeyPackageRateLimited)
    ));
    assert!(close_reason_for_fetch(&KeyPackageFetchOutcome::NoStash).is_none());
    assert!(close_reason_for_fetch(&KeyPackageFetchOutcome::NotOwner).is_none());
}

#[test]
fn refill_close_reasons_are_those_of_a_publish() {
    assert_eq!(close_reason_for_refill(KeyPackageRefillOutcome::BadSig), Some(CloseReason::KeyPackageMalformed));
    assert_eq!(close_reason_for_refill(KeyPackageRefillOutcome::TooMany), Some(CloseReason::KeyPackageMalformed));
    assert_eq!(close_reason_for_refill(KeyPackageRefillOutcome::Expired), Some(CloseReason::KeyPackageExpired));
    assert_eq!(close_reason_for_refill(KeyPackageRefillOutcome::Appended), None);
    assert_eq!(close_reason_for_refill(KeyPackageRefillOutcome::NotOwner), None);
}

#[test]
fn refill_appends_to_existing_stash() {
    let owner = key_n(1);
    let mut dht = fresh_dht();
    let now = fresh_now();
    let rec_a = build_record(&owner, [0xA0; 32], b"a".to_vec(), now + 60_000);
    assert_eq!(
        handle_keypackage_publish(&mut dht, &build_publish(&owner, vec![rec_a.copy()], now), now),
        KeyPackagePublishOutcome::Stored
    );
    let rec_b = build_record(&owner, [0xB0; 32], b"b".to_vec(), now + 60_000);
    assert_eq!(
        handle_keypackage_refill(&mut dht, &build_refill(&owner, vec![rec_b], now), now),
        KeyPackageRefillOutcome::Appended
    );
    let stash = iterate_stash(&dht, &rec_a.ipk);
    assert_eq!(stash.len(), 2);
}

#[test]
fn refill_with_static_fields_conflict_is_rejected() {
    let owner = key_n(1);
    let mut dht = fresh_dht();
    let now = fresh_now();
    let kp_ref = [0xCC; 32];
    let rec_a = build_record(&owner, kp_ref, b"original".to_vec(), now + 60_000);
    assert_eq!(
        handle_keypackage_publish(&mut dht, &build_publish(&owner, vec![rec_a], now), now),
        KeyPackagePublishOutcome::Stored
    );
    let rec_b = build_record(&owner, kp_ref, b"FORGED".to_vec(), now + 60_000);
    assert_eq!(
        handle_keypackage_refill(&mut dht, &build_refill(&owner, vec![rec_b], now), now),
        KeyPackageRefillOutcome::StaticFieldsConflict
    );
}

#[test]
fn publish_with_too_many_records_is_rejected() {
    let owner = key_n(1);
    let mut dht = fresh_dht();
    let now = fresh_now();
    let recs: Vec<KeyPackageRecord> = (0..(KP_STASH_TARGET as u32 + 1))
        .map(|i| {
            let mut kp_ref = [0u8; 32];
            kp_ref[..4].copy_from_slice(&i.to_be_bytes());
            build_record(&owner, kp_ref, vec![1, 2, 3], now + 60_000)
        })
        .collect();
    let req = build_publish(&owner, recs, now);
    assert_eq!(handle_keypackage_publish(&mut dht, &req, now), KeyPackagePublishOutcome::TooMany);
}

#[test]
fn mls_kp_fetch_rejects_redirected_requester() {
    let owner = key_n(1);
    let mut dht = fresh_dht();
    let now = fresh_now();
    let req_a = NodeId::new(&[0xAA; 32]);
    let req_b = NodeId::new(&[0xBB; 32]);
    let outcome = handle_keypackage_fetch(&mut dht, &fetch_of(&owner, req_a, now), &req_b, now);
    assert!(matches!(outcome, KeyPackageFetchOutcome::RateLimited));
}

#[test]
fn publish_outside_skew_window_is_rejected_as_bad_sig() {
    let owner = key_n(1);
    let mut dht = fresh_dht();
    let now = fresh_now();
    let rec = build_record(&owner, [0xEE; 32], b"x".to_vec(), now + 120_000);
    let req = build_publish(&owner, vec![rec], now);
    let later = now + 120_000;
    assert_eq!(handle_keypackage_publish(&mut dht, &req, later), KeyPackagePublishOutcome::BadSig);
}

#[test]
fn stash_key_is_a_labelled_digest() {
    let mut buf = b"kp:".to_vec();
    buf.extend_from_slice(&[7u8; 32]);
    let prefix = *blake3::hash(&buf).as_bytes();
    assert_eq!(stash_prefix(&[7u8; 32]), prefix);
    let key = storage_key(&[7u8; 32], &[9u8; 32]).unwrap();
    assert_eq!(&key[..32], &prefix);
    assert_eq!(&key[32..], &[9u8; 32]);
    assert!(storage_key(&[7u8; 32], &[9u8; 31]).is_none());
}

#[test]
fn skew_reaches_sixty_seconds_either_way() {
    assert!(skew_ok(100_000, 160_000));
    assert!(skew_ok(160_000, 100_000));
    assert!(!skew_ok(100_000, 160_001));
}

#[test]
fn each_refusal_of_a_record_has_its_input() {
    let owner = key_n(1);
    let now = fresh_now();
    let rec = build_record(&owner, [1u8; 32], b"x".to_vec(), now + 60_000);
    assert_eq!(judge_record(&rec, true, true, 60_000, now), Ok(()));
    assert_eq!(judge_record(&rec, false, false, 60_000, now), Err(KeyPackageVerifyError::Malformed));
    assert_eq!(judge_record(&rec, true, false, 60_000, now), Err(KeyPackageVerifyError::BadSig));
    assert_eq!(judge_record(&rec, true, true, 60_000, now + 60_000), Err(KeyPackageVerifyError::Expired));
    assert_eq!(judge_record(&rec, true, true, 0, now), Ok(()));
    assert_eq!(judge_record(&rec, true, true, 0, now - 1), Err(KeyPackageVerifyError::Malformed));
    let bare = build_record(&owner, [1u8; 32], Vec::new(), now + 60_000);
    assert_eq!(judge_record(&bare, true, true, 60_000, now), Err(KeyPackageVerifyError::Malformed));
    let mut short = rec.copy();
    short.kp_ref.pop();
    assert_eq!(judge_record(&short, true, true, 60_000, now), Err(KeyPackageVerifyError::Malformed));

    let transcript = record_transcript(&rec);
    let mut signed = SignedRecord { record: rec, transcript };
    assert_eq!(verify_record(&signed, 60_000, now), Ok(()));
    signed.transcript.push(0);
    assert_eq!(verify_record(&signed, 60_000, now), Err(KeyPackageVerifyError::BadSig));
}

#[test]
fn batch_gates_come_in_order() {
    assert_eq!(gate_batch(3, 2, false, false), Some(BatchOutcome::TooMany));
    assert_eq!(gate_batch(0, 2, false, false), Some(BatchOutcome::Accepted));
    assert_eq!(gate_batch(2, 2, false, false), Some(BatchOutcome::BadSig));
    assert_eq!(gate_batch(2, 2, true, false), Some(BatchOutcome::NotOwner));
    assert_eq!(gate_batch(2, 2, true, true), None);
    assert_eq!(gate_record(false, Ok(())), Some(BatchOutcome::BadSig));
    assert_eq!(gate_record(true, Err(KeyPackageVerifyError::Malformed)), Some(BatchOutcome::BadSig));
    assert_eq!(gate_record(true, Err(KeyPackageVerifyError::Expired)), Some(BatchOutcome::Expired));
    assert_eq!(gate_record(true, Ok(())), None);
}

#[test]
fn relay_far_from_the_stash_is_not_its_home() {
    let owner = key_n(1);
    let now = fresh_now();
    let ipk = owner.verifying_key().to_bytes();
    let stash = stash_prefix(&ipk);
    let mut dht = fresh_dht();
    for n in 1..=3u8 {
        let mut id = stash;
        id[31] ^= n;
        let addr = PeerAddr::V4 { octets: [127, 0, 0, 1], port: 1 };
        dht.routing.insert(NodeDescriptor { id: NodeId::from_bytes(id), addr, pubkey: [0u8; 32] }, 0);
    }
    let rec = build_record(&owner, [1u8; 32], b"x".to_vec(), now + 60_000);
    let req = build_publish(&owner, vec![rec], now);
    assert_eq!(handle_keypackage_publish(&mut dht, &req, now), KeyPackagePublishOutcome::NotOwner);
    let peer = NodeId::new(&[0xBB; 32]);
    let outcome = handle_keypackage_fetch(&mut dht, &fetch_of(&owner, peer, now), &peer, now);
    assert!(matches!(outcome, KeyPackageFetchOutcome::NotOwner));
}

#[test]
fn refused_fetch_leaves_the_stash() {
    let owner = key_n(1);
    let mut dht = fresh_dht();
    let now = fresh_now();
    let peer = NodeId::new(&[0xBB; 32]);
    let rec = build_record(&owner, [1u8; 32], b"x".to_vec(), now + 60_000);
    let expected = compute_static_hash(&rec);
    handle_keypackage_publish(&mut dht, &build_publish(&owner, vec![rec.copy()], now), now);
    let req = fetch_of(&owner, peer, now);
    assert!(matches!(answer_fetch(&mut dht, &req, &peer, now, false, true), KeyPackageFetchOutcome::NotOwner));
    assert!(matches!(answer_fetch(&mut dht, &req, &peer, now, true, false), KeyPackageFetchOutcome::RateLimited));
    assert_eq!(iterate_stash(&dht, &rec.ipk).len(), 1);
    match answer_fetch(&mut dht, &req, &peer, now, true, true) {
        KeyPackageFetchOutcome::Found(f) => assert_eq!(f.static_hash, expected),
        other => panic!("expected Found, got {other:?}"),
    }
    assert!(iterate_stash(&dht, &rec.ipk).is_empty());
}

#[test]
fn repeated_publish_stores_once() {
    let owner = key_n(1);
    let mut dht = fresh_dht();
    let now = fresh_now();
    let rec = build_record(&owner, [1u8; 32], b"x".to_vec(), now + 60_000);
    let req = build_publish(&owner, vec![rec.copy()], now);
    assert_eq!(handle_keypackage_publish(&mut dht, &req, now), KeyPackagePublishOutcome::Stored);
    assert_eq!(handle_keypackage_publish(&mut dht, &req, now), KeyPackagePublishOutcome::Stored);
    assert_eq!(iterate_stash(&dht, &rec.ipk).len(), 1);
}
