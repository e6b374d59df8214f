use ed25519_dalek::{Signer, SigningKey};
use relay::dht::config::DhtConfig;
use relay::dht::id::NodeId;
use relay::dht::keyspace::Keyspace;
use relay::dht::mls_welcome::{
    answer_ack, answer_publish, close_reason_for_fetch, close_reason_for_publish, frame_welcome, handle_welcome_ack,
    handle_welcome_fetch, handle_welcome_publish, judge_envelope, stash_prefix, storage_key, unframe_welcome,
    verify_welcome_envelope, welcome_count_bounded, WelcomeVerifyError, MAX_WELCOMES_PER_RECIPIENT,
    MAX_WELCOME_BYTES, WELCOME_LIFETIME_MS,
};
use relay::dht::mls_welcome_originate::{
    absorb, originate_welcome_ack, originate_welcome_fetch, originate_welcome_publish, publish_quorum,
};
use relay::dht::rate_limit::MAX_WELCOME_RPC_PER_HOUR;
use relay::dht::wire::{
    CloseReason, WelcomeAckReq, WelcomeEntry, WelcomeEnvelopeP, WelcomeFetchOutcome, WelcomeFetchReq,
    WelcomePublishOutcome, WelcomePublishReq, WireLimits,
};
use relay::dht::{Dht, Store};

const MAX_WELCOME_ACK_IDS: usize = 64;

fn key_n(n: u64) -> SigningKey {
    let mut seed = [0u8; 32];
    seed[..8].copy_from_slice(&n.to_le_bytes());
    seed[31] = (n & 0xff) as u8;
    seed[16] = ((n >> 8) & 0xff) as u8;
    SigningKey::from_bytes(&seed)
}

fn fresh_dht() -> Dht {
    let limits = WireLimits {
        max_find_node_results: 16,
        max_fetch_record_batch: 64,
        queue_skew_ms: 60_000,
        max_fetch_queue_ack_ids: 256,
        kp_stash_target: 100,
        keypackage_lifetime_ms: 2_592_000_000,
        max_welcome_ack_ids: MAX_WELCOME_ACK_IDS,
    };
    let store = Store { queue: Keyspace::new(), keypackage: Keyspace::new(), welcome: Keyspace::new() };
    Dht::new(NodeId::new(&[0u8; 32]), DhtConfig::default(), limits, store, 1000, 1000, 0)
}

fn envelope_transcript(env: &WelcomeEnvelopeP) -> Vec<u8> {
    let mut msg = b"welcome".to_vec();
    msg.extend_from_slice(&env.group_id);
    msg.extend_from_slice(&env.sender_ipk);
    msg.extend_from_slice(&env.recipient_ipk);
    msg.extend_from_slice(&env.kp_ref_used);
    msg.extend_from_slice(&env.welcome_blob);
    msg
}

fn build_tagged(sender: &SigningKey, recipient_ipk: [u8; 32], blob: Vec<u8>, tag: u8) -> WelcomeEnvelopeP {
    let mut env = WelcomeEnvelopeP {
        version: 1,
        group_id: [0xAA ^ tag; 32],
        sender_ipk: sender.verifying_key().to_bytes(),
        recipient_ipk,
        welcome_blob: blob,
        kp_ref_used: [0xBB ^ tag; 32],
        sender_sig: [0u8; 64],
    };
    env.sender_sig = sender.sign(&envelope_transcript(&env)).to_bytes();
    env
}

fn build_envelope(sender: &SigningKey, recipient_ipk: [u8; 32], blob: Vec<u8>) -> WelcomeEnvelopeP {
    build_tagged(sender, recipient_ipk, blob, 0)
}

fn publish_of(envelope: WelcomeEnvelopeP, timestamp: u64) -> WelcomePublishReq {
    let transcript = envelope_transcript(&envelope);
    WelcomePublishReq { envelope, transcript, timestamp }
}

fn fetch_transcript(user_ipk: &[u8; 32], requester: &NodeId, timestamp: u64) -> Vec<u8> {
    let mut msg = b"welcome-fetch".to_vec();
    msg.extend_from_slice(user_ipk);
    msg.extend_from_slice(requester.as_bytes());
    msg.extend_from_slice(&timestamp.to_be_bytes());
    msg
}

fn ack_transcript(user_ipk: &[u8; 32], requester: &NodeId, ids: &[[u8; 8]], timestamp: u64) -> Vec<u8> {
    let mut msg = b"welcome-ack".to_vec();
    msg.extend_from_slice(user_ipk);
    msg.extend_from_slice(requester.as_bytes());
    for id in ids {
        msg.extend_from_slice(id);
    }
    msg.extend_from_slice(&timestamp.to_be_bytes());
    msg
}

fn build_fetch(user: &SigningKey, requester: NodeId, timestamp: u64) -> WelcomeFetchReq {
    let user_ipk = user.verifying_key().to_bytes();
    let transcript = fetch_transcript(&user_ipk, &requester, timestamp);
    let user_sig = user.sign(&transcript).to_bytes();
    WelcomeFetchReq { user_ipk, requester_relay_id: requester, timestamp, user_sig, transcript }
}

fn build_ack(user: &SigningKey, requester: NodeId, ids: Vec<[u8; 8]>, timestamp: u64) -> WelcomeAckReq {
    let user_ipk = user.verifying_key().to_bytes();
    let transcript = ack_transcript(&user_ipk, &requester, &ids, timestamp);
    let user_sig = user.sign(&transcript).to_bytes();
    WelcomeAckReq { user_ipk, requester_relay_id: requester, welcome_ids: ids, timestamp, user_sig, transcript }
}

fn found(outcome: WelcomeFetchOutcome) -> Vec<WelcomeEntry> {
    match outcome {
        WelcomeFetchOutcome::Found(entries) => entries,
        other => panic!("expected Found, got {other:?}"),
    }
}

fn fresh_now() -> u64 {
    1_700_000_000_000
}

#[test]
fn publish_then_fetch_round_trip_single_welcome() {
    let sender = key_n(1);
    let recipient = key_n(2);
    let recipient_ipk = recipient.verifying_key().to_bytes();
    let mut dht = fresh_dht();
    let now = fresh_now();
    let auth_peer = NodeId::new(&[0xBB; 32]);
    let env = build_envelope(&sender, recipient_ipk, b"welcome-bytes".to_vec());
    assert_eq!(
        handle_welcome_publish(&mut dht, &publish_of(env.copy(), now), &auth_peer, now),
        WelcomePublishOutcome::Stored
    );
    let got = found(handle_welcome_fetch(&mut dht, &build_fetch(&recipient, auth_peer, now), &auth_peer, now));
    assert_eq!(got.len(), 1);
    let back = &got[0].envelope;
    assert_eq!(back.version, env.version);
    assert_eq!(back.group_id, env.group_id);
    assert_eq!(back.sender_ipk, env.sender_ipk);
    assert_eq!(back.recipient_ipk, env.recipient_ipk);
    assert_eq!(back.welcome_blob, env.welcome_blob);
    assert_eq!(back.kp_ref_used, env.kp_ref_used);
    assert_eq!(back.sender_sig, env.sender_sig);
}

#[test]
fn publish_multiple_welcomes_for_same_recipient_returns_all_on_fetch() {
    let recipient = key_n(1);
    let recipient_ipk = recipient.verifying_key().to_bytes();
    let mut dht = fresh_dht();
    let now = fresh_now();
    let auth_peer = NodeId::new(&[0xBB; 32]);
    let mut expected: std::collections::HashSet<Vec<u8>> = std::collections::HashSet::new();
    for i in 0..3u8 {
        let sender = key_n(2 + i as u64);
        let env = build_envelope(&sender, recipient_ipk, vec![i; 8]);
        expected.insert(env.welcome_blob.clone());
        assert_eq!(
            handle_welcome_publish(&mut dht, &publish_of(env, now), &auth_peer, now),
            WelcomePublishOutcome::Stored
        );
    }
    let got = found(handle_welcome_fetch(&mut dht, &build_fetch(&recipient, auth_peer, now), &auth_peer, now));
    assert_eq!(got.len(), 3);
    let blobs: std::collections::HashSet<Vec<u8>> = got.iter().map(|w| w.envelope.welcome_blob.clone()).collect();
    assert_eq!(blobs, expected);
}

#[test]
fn publish_beyond_per_recipient_cap_is_queue_full() {
    let recipient = key_n(1);
    let recipient_ipk = recipient.verifying_key().to_bytes();
    let mut dht = fresh_dht();
    let now = fresh_now();
    let auth_peer = NodeId::new(&[0xBB; 32]);
    let sender = key_n(2);
    for _ in 0..MAX_WELCOMES_PER_RECIPIENT {
        let env = build_envelope(&sender, recipient_ipk, b"x".to_vec());
        assert_eq!(
            handle_welcome_publish(&mut dht, &publish_of(env, now), &auth_peer, now),
            WelcomePublishOutcome::Stored
        );
    }
    let env = build_envelope(&sender, recipient_ipk, b"overflow".to_vec());
    assert_eq!(
        handle_welcome_publish(&mut dht, &publish_of(env, now), &auth_peer, now),
        WelcomePublishOutcome::QueueFull
    );
    assert_eq!(welcome_count_bounded(&dht, &recipient_ipk), (32, true));
}

#[test]
fn mls_welcome_fetch_rejects_redirected_requester() {
    let user = key_n(1);
    let mut dht = fresh_dht();
    let now = fresh_now();
    let req_a = NodeId::new(&[0xAA; 32]);
    let req_b = NodeId::new(&[0xBB; 32]);
    let outcome = handle_welcome_fetch(&mut dht, &build_fetch(&user, req_a, now), &req_b, now);
    assert!(matches!(outcome, WelcomeFetchOutcome::BadSig), "got {outcome:?}");
}

#[test]
fn ack_rejects_redirected_requester() {
    let user = key_n(1);
    let mut dht = fresh_dht();
    let now = fresh_now();
    let req_a = NodeId::new(&[0xAA; 32]);
    let req_b = NodeId::new(&[0xBB; 32]);
    let resp = handle_welcome_ack(&mut dht, &build_ack(&user, req_a, vec![[1u8; 8]], now), &req_b, now);
    assert!(!resp.ok);
}

#[test]
fn ack_deletes_welcome_so_subsequent_fetch_returns_empty() {
    let sender = key_n(1);
    let recipient = key_n(2);
    let recipient_ipk = recipient.verifying_key().to_bytes();
    let mut dht = fresh_dht();
    let now = fresh_now();
    let auth_peer = NodeId::new(&[0xBB; 32]);
    let env = build_envelope(&sender, recipient_ipk, b"x".to_vec());
    assert_eq!(
        handle_welcome_publish(&mut dht, &publish_of(env, now), &auth_peer, now),
        WelcomePublishOutcome::Stored
    );
    let fetch = build_fetch(&recipient, auth_peer, now);
    let ids: Vec<[u8; 8]> =
        found(handle_welcome_fetch(&mut dht, &fetch, &auth_peer, now)).iter().map(|w| w.welcome_id).collect();
    assert_eq!(ids.len(), 1);
    let resp = handle_welcome_ack(&mut dht, &build_ack(&recipient, auth_peer, ids, now), &auth_peer, now);
    assert!(resp.ok);
    assert!(found(handle_welcome_fetch(&mut dht, &fetch, &auth_peer, now)).is_empty());
}

#[test]
fn publish_with_tampered_sender_sig_is_rejected() {
    let sender = key_n(1);
    let recipient_ipk = key_n(2).verifying_key().to_bytes();
    let mut dht = fresh_dht();
    let now = fresh_now();
    let auth_peer = NodeId::new(&[0xBB; 32]);
    let mut env = build_envelope(&sender, recipient_ipk, b"x".to_vec());
    env.sender_sig[0] ^= 0xFF;
    assert_eq!(
        handle_welcome_publish(&mut dht, &publish_of(env, now), &auth_peer, now),
        WelcomePublishOutcome::BadSig
    );
}

#[test]
fn fetch_silently_filters_expired_welcomes() {
    let sender = key_n(1);
    let recipient = key_n(2);
    let recipient_ipk = recipient.verifying_key().to_bytes();
    let mut dht = fresh_dht();
    let auth_peer = NodeId::new(&[0xBB; 32]);
    let t0 = fresh_now();
    let env = build_envelope(&sender, recipient_ipk, b"x".to_vec());
    assert_eq!(
        handle_welcome_publish(&mut dht, &publish_of(env, t0), &auth_peer, t0),
        WelcomePublishOutcome::Stored
    );
    let t1 = t0 + WELCOME_LIFETIME_MS + 1;
    assert!(found(handle_welcome_fetch(&mut dht, &build_fetch(&recipient, auth_peer, t1), &auth_peer, t1)).is_empty());
}

#[test]
fn publish_outside_skew_window_is_stale_timestamp() {
    let sender = key_n(1);
    let recipient_ipk = key_n(2).verifying_key().to_bytes();
    let mut dht = fresh_dht();
    let auth_peer = NodeId::new(&[0xBB; 32]);
    let now = fresh_now();
    let env = build_envelope(&sender, recipient_ipk, b"x".to_vec());
    let later = now + 120_000;
    assert_eq!(
        handle_welcome_publish(&mut dht, &publish_of(env, now), &auth_peer, later),
        WelcomePublishOutcome::StaleTimestamp
    );
}

#[test]
fn rate_limit_trips_after_burst() {
    let user = key_n(1);
    let mut dht = fresh_dht();
    let now = fresh_now();
    let auth_peer = NodeId::new(&[0xBB; 32]);
    let fetch = build_fetch(&user, auth_peer, now);
    let mut rate_limited_count = 0;
    for _ in 0..(MAX_WELCOME_RPC_PER_HOUR as usize + 5) {
        if matches!(handle_welcome_fetch(&mut dht, &fetch, &auth_peer, now), WelcomeFetchOutcome::RateLimited) {
            rate_limited_count += 1
        }
    }
    assert!(rate_limited_count > 0, "rate limit must trip after the burst is exhausted");
}

#[test]
fn ack_with_oversize_id_list_is_rejected() {
    let user = key_n(1);
    let mut dht = fresh_dht();
    let now = fresh_now();
    let auth_peer = NodeId::new(&[0xBB; 32]);
    let mut ids: Vec<[u8; 8]> = Vec::new();
    for i in 0..(MAX_WELCOME_ACK_IDS as u32 + 1) {
        let mut id = [0u8; 8];
        id[..4].copy_from_slice(&i.to_be_bytes());
        ids.push(id);
    }
    let resp = handle_welcome_ack(&mut dht, &build_ack(&user, auth_peer, ids, now), &auth_peer, now);
    assert!(!resp.ok);
}

#[test]
fn mls_welcome_close_reason_mapping_for_publish_outcomes() {
    assert!(matches!(
        close_reason_for_publish(WelcomePublishOutcome::BadSig),
        Some(CloseReason::WelcomeMalformed)
    ));
    assert!(matches!(
        close_reason_for_publish(WelcomePublishOutcome::RateLimited),
        Some(CloseReason::WelcomeRateLimited)
    ));
    assert!(matches!(
        close_reason_for_publish(WelcomePublishOutcome::QueueFull),
        Some(CloseReason::WelcomeQueueFull)
    ));
    assert!(close_reason_for_publish(WelcomePublishOutcome::Stored).is_none());
    assert!(close_reason_for_publish(WelcomePublishOutcome::NotOwner).is_none());
    assert!(close_reason_for_publish(WelcomePublishOutcome::StaleTimestamp).is_none());
}

#[test]
fn mls_welcome_close_reason_mapping_for_fetch_outcomes() {
    assert!(matches!(
        close_reason_for_fetch(&WelcomeFetchOutcome::BadSig),
        Some(CloseReason::WelcomeMalformed)
    ));
    assert!(matches!(
        close_reason_for_fetch(&WelcomeFetchOutcome::RateLimited),
        Some(CloseReason::WelcomeRateLimited)
    ));
    assert!(close_reason_for_fetch(&WelcomeFetchOutcome::NotOwner).is_none());
}

#[test]
fn stash_prefix_is_deterministic_and_change_sensitive() {
    let a = stash_prefix(&[0u8; 32]);
    let b = stash_prefix(&[0u8; 32]);
    assert_eq!(a, b);
    let c = stash_prefix(&[1u8; 32]);
    assert_ne!(a, c);
}

#[test]
fn welcome_key_is_a_labelled_digest_and_the_id() {
    let mut buf = b"welcome:".to_vec();
    buf.extend_from_slice(&[7u8; 32]);
    let key = storage_key(&[7u8; 32], &[9u8; 8]);
    assert_eq!(&key[..32], blake3::hash(&buf).as_bytes());
    assert_eq!(&key[32..], &[9u8; 8]);
}

#[test]
fn frame_reads_back() {
    let value = frame_welcome(0x0102_0304_0506_0708, b"env");
    assert_eq!(value, b"\x01\x02\x03\x04\x05\x06\x07\x08env".to_vec());
    assert_eq!(unframe_welcome(&value), Some((0x0102_0304_0506_0708, b"env".to_vec())));
    assert_eq!(unframe_welcome(&value[..7]), None);
}

#[test]
fn each_refusal_of_an_envelope_has_its_input() {
    let sender = key_n(1);
    let env = build_envelope(&sender, [3u8; 32], b"x".to_vec());
    assert_eq!(judge_envelope(&env, true, true), Ok(()));
    assert_eq!(judge_envelope(&env, false, true), Err(WelcomeVerifyError::Malformed));
    assert_eq!(judge_envelope(&env, true, false), Err(WelcomeVerifyError::BadSig));
    let empty = build_envelope(&sender, [3u8; 32], Vec::new());
    assert_eq!(judge_envelope(&empty, true, true), Err(WelcomeVerifyError::Malformed));
    let big = build_envelope(&sender, [3u8; 32], vec![0u8; MAX_WELCOME_BYTES + 1]);
    assert_eq!(judge_envelope(&big, true, true), Err(WelcomeVerifyError::Malformed));
    assert_eq!(verify_welcome_envelope(&env, &envelope_transcript(&env)), Ok(()));
    assert_eq!(verify_welcome_envelope(&env, b"other"), Err(WelcomeVerifyError::BadSig));
}

#[test]
fn publish_gates_come_in_order() {
    let mut dht = fresh_dht();
    let now = fresh_now();
    let req = publish_of(build_envelope(&key_n(1), [3u8; 32], b"x".to_vec()), now);
    let bad = Err(WelcomeVerifyError::BadSig);
    let id = Some([5u8; 8]);
    assert_eq!(
        answer_publish(&mut dht, &req, now + 60_001, false, false, bad, id),
        WelcomePublishOutcome::StaleTimestamp
    );
    assert_eq!(answer_publish(&mut dht, &req, now, false, false, bad, id), WelcomePublishOutcome::RateLimited);
    assert_eq!(answer_publish(&mut dht, &req, now, true, false, bad, id), WelcomePublishOutcome::NotOwner);
    assert_eq!(answer_publish(&mut dht, &req, now, true, true, bad, id), WelcomePublishOutcome::BadSig);
    assert_eq!(answer_publish(&mut dht, &req, now, true, true, Ok(()), None), WelcomePublishOutcome::BadSig);
    assert!(dht.store.welcome.rows.is_empty());
    assert_eq!(answer_publish(&mut dht, &req, now, true, true, Ok(()), id), WelcomePublishOutcome::Stored);
    let kept = &dht.store.welcome.rows[0];
    assert_eq!(kept.key, storage_key(&[3u8; 32], &[5u8; 8]));
    assert_eq!(kept.value.as_ref().unwrap().expires_at_ms, now + 2_592_000_000);
}

#[test]
fn ack_leaves_what_it_does_not_name() {
    let mut dht = fresh_dht();
    let now = fresh_now();
    let peer = NodeId::new(&[0xBB; 32]);
    let user = key_n(2);
    let ipk = user.verifying_key().to_bytes();
    for n in 1..=3u8 {
        let req = publish_of(build_envelope(&key_n(1), ipk, vec![n]), now);
        answer_publish(&mut dht, &req, now, true, true, Ok(()), Some([n; 8]));
    }
    let ack = build_ack(&user, peer, vec![[2u8; 8], [9u8; 8]], now);
    assert!(!answer_ack(&mut dht, &ack, &peer, now, true, true, false).ok);
    assert_eq!(dht.store.welcome.rows.len(), 3);
    assert!(answer_ack(&mut dht, &ack, &peer, now, true, true, true).ok);
    let left = found(handle_welcome_fetch(&mut dht, &build_fetch(&user, peer, now), &peer, now));
    let ids: Vec<[u8; 8]> = left.iter().map(|w| w.welcome_id).collect();
    assert_eq!(ids, vec![[1u8; 8], [3u8; 8]]);
}

#[test]
fn self_only_publish_fetch_ack_round_trip() {
    let mut dht = fresh_dht();
    let now = 1_700_000_000_000;
    let sender = key_n(1);
    let recipient = key_n(2);
    let recipient_ipk = recipient.verifying_key().to_bytes();
    let me = dht.node_id;

    let envelope = build_tagged(&sender, recipient_ipk, b"welcome".to_vec(), b'w');
    let (homes, stored) = originate_welcome_publish(&mut dht, &publish_of(envelope, now), now);
    assert!(homes.is_empty());
    assert!(stored);
    assert!(!publish_quorum(stored, &Vec::new()));

    let transcript = fetch_transcript(&recipient_ipk, &me, now);
    let sig = recipient.sign(&transcript).to_bytes();
    let (_, _, entries) = originate_welcome_fetch(&mut dht, &recipient_ipk, now, &sig, &transcript, now);
    assert_eq!(entries.len(), 1, "fetch should return the stored welcome");

    let ids: Vec<[u8; 8]> = entries.iter().map(|e| e.welcome_id).collect();
    let ack = ack_transcript(&recipient_ipk, &me, &ids, now);
    let ack_sig = recipient.sign(&ack).to_bytes();
    originate_welcome_ack(&mut dht, &recipient_ipk, ids, now, &ack_sig, &ack, now);

    let (_, _, after) = originate_welcome_fetch(&mut dht, &recipient_ipk, now, &sig, &transcript, now);
    assert!(after.is_empty(), "ack should have deleted the welcome");
}

#[test]
fn fetch_returns_distinct_welcomes() {
    let mut dht = fresh_dht();
    let now = 1_700_000_000_000;
    let recipient = key_n(1);
    let recipient_ipk = recipient.verifying_key().to_bytes();
    let me = dht.node_id;
    for i in 0..2u8 {
        let sender = key_n(2 + i as u64);
        let env = build_tagged(&sender, recipient_ipk, vec![i; 8], i);
        originate_welcome_publish(&mut dht, &publish_of(env, now), now);
    }
    let transcript = fetch_transcript(&recipient_ipk, &me, now);
    let sig = recipient.sign(&transcript).to_bytes();
    let (_, _, entries) = originate_welcome_fetch(&mut dht, &recipient_ipk, now, &sig, &transcript, now);
    assert_eq!(entries.len(), 2);
}

#[test]
fn absorbed_copies_collapse() {
    let entry = |n: u8, id: u8| WelcomeEntry {
        welcome_id: [id; 8],
        envelope: build_tagged(&key_n(1), [3u8; 32], vec![n], n),
    };
    let mut merged: Vec<WelcomeEntry> = Vec::new();
    absorb(&vec![entry(1, 10), entry(2, 20)], &mut merged);
    absorb(&vec![entry(2, 21), entry(3, 30), entry(1, 11)], &mut merged);
    let ids: Vec<u8> = merged.iter().map(|e| e.welcome_id[0]).collect();
    assert_eq!(ids, vec![10, 20, 30]);
}

#[test]
fn quorum_counts_the_local_copy() {
    let stored = WelcomePublishOutcome::Stored;
    let full = WelcomePublishOutcome::QueueFull;
    assert!(publish_quorum(true, &vec![full, stored]));
    assert!(publish_quorum(false, &vec![stored, stored]));
    assert!(!publish_quorum(false, &vec![stored, full]));
    assert!(!publish_quorum(true, &vec![full]));
}
