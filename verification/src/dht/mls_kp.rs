//! The stash of one-time MLS key packages.
//!
//! A user's key packages stand under `BLAKE3("kp:" || ipk)` followed by their
//! reference. Their owner publishes and refills them in signed batches; a
//! fetch takes one out for good.

use super::bytes::{append_bytes, copy_bytes};
use super::hash::{blake3_hash, blake3_of, digests_collide};
use super::id::NodeId;
use super::key_helpers;
use super::keyspace::{
    apart_from, decoded_under, has_key, is_scan, keys_of, law_filter_keeps_order, law_put,
    law_put_filtered, lemma_drop_all, lemma_drop_none, lemma_filter_empty, lemma_filter_one,
    lemma_filter_step, lemma_filter_twice, lemma_found_at_slot, lemma_lex_irreflexive, lex_less, strings,
    value_at, with_row, KeyspaceView, RowView,
};
use super::routing::{among_k_closest, self_in_top_k};
use super::sig::{ed25519_key_parses, ed25519_signed, key_parses, signature_holds};
use super::wire::{
    lemma_array_eq, same_array, BatchView, CloseReason, KeyPackageBatch, KeyPackageFetchFound,
    KeyPackageFetchOutcome, KeyPackageFetchReq, KeyPackagePublishOutcome, KeyPackageRecord,
    KeyPackageRefillOutcome, RecordView, SignedRecord, SignedRecordView,
};
use super::{Dht, DhtView};
use vstd::prelude::*;
use vstd::string::StringSliceAdditionalSpecFns;

verus! {

/// Bytes of a key-package reference.
pub const KP_REF_LEN: usize = 32;

/// Bytes of a stash key.
pub const STASH_PREFIX_LEN: usize = 32;

/// Bytes of the key of a stored key package.
pub const STORAGE_KEY_LEN: usize = 64;

/// How far the clock of a request may be off, in milliseconds.
pub const MAX_KP_SKEW_MS: u64 = 60_000;

// ---------------------------------------------------------------------------
// Keys
// ---------------------------------------------------------------------------

/// The stash key of a user.
pub open spec fn stash_of(ipk: [u8; 32]) -> [u8; 32] {
    blake3_hash("kp:".spec_bytes() + ipk@)
}

/// The key of a stored key package.
pub open spec fn record_key(ipk: [u8; 32], kp_ref: Seq<u8>) -> Seq<u8> {
    stash_of(ipk)@ + kp_ref
}

/// The stash key of a user: `BLAKE3("kp:" || ipk)`.
pub fn stash_prefix(ipk: &[u8; 32]) -> (r: [u8; 32])
    ensures
        r == stash_of(*ipk),
{
    key_helpers::stash_prefix("kp:".as_bytes(), ipk)
}

/// The key of a stored key package; `None` where the reference has not the
/// length of one.
pub fn storage_key(ipk: &[u8; 32], kp_ref: &[u8]) -> (r: Option<Vec<u8>>)
    ensures
        match r {
            Some(k) => kp_ref.len() == KP_REF_LEN && k@ == record_key(*ipk, kp_ref@) && k.len() == STORAGE_KEY_LEN,
            None => kp_ref.len() != KP_REF_LEN,
        },
{
    if kp_ref.len() != KP_REF_LEN {
        return None;
    }
    let mut k: Vec<u8> = Vec::new();
    append_bytes(&mut k, &stash_prefix(ipk));
    append_bytes(&mut k, kp_ref);
    assert(k@ =~= record_key(*ipk, kp_ref@));
    Some(k)
}

/// Whether this relay is a home of the stash of `ipk`.
fn self_is_owner_for_stash(dht: &Dht, ipk: &[u8; 32]) -> (r: bool)
    requires
        dht.wf(),
    ensures
        r == owns_stash(dht@, *ipk),
{
    self_in_top_k(&dht.routing, &dht.node_id, &NodeId::from_bytes(stash_prefix(ipk)))
}

/// This relay is a home of the stash of `ipk`.
pub open spec fn owns_stash(dht: DhtView, ipk: [u8; 32]) -> bool {
    among_k_closest(dht.routing, dht.node_id, NodeId { bytes: stash_of(ipk) })
}

// ---------------------------------------------------------------------------
// Checks
// ---------------------------------------------------------------------------

/// Two clock readings are no farther apart than a request may be off.
pub open spec fn within_skew(a: u64, b: u64) -> bool {
    a <= b + MAX_KP_SKEW_MS && b <= a + MAX_KP_SKEW_MS
}

/// Whether two clock readings are no farther apart than a request may be off.
pub fn skew_ok(a: u64, b: u64) -> (r: bool)
    ensures
        r == within_skew(a, b),
{
    let skew: u64 = if a <= b {
        b - a
    } else {
        a - b
    };
    skew <= MAX_KP_SKEW_MS
}

/// Why a record is refused.
#[derive(Clone, Copy, Debug, PartialEq, Eq, Structural)]
pub enum KeyPackageVerifyError {
    Malformed,
    BadSig,
    Expired,
}

/// What the checks of a record come to, in their order: its shape, whether
/// `ipk` is a key, the owner's signature, and a lifetime that has neither
/// ended nor reaches too far ahead.
pub open spec fn record_verdict(
    rec: RecordView,
    key_ok: bool,
    signed: bool,
    lifetime_ms: u64,
    now_ms: u64,
) -> Result<(), KeyPackageVerifyError> {
    if rec.kp_ref.len() != KP_REF_LEN || rec.kp_bytes.len() == 0 || !key_ok {
        Err(KeyPackageVerifyError::Malformed)
    } else if !signed {
        Err(KeyPackageVerifyError::BadSig)
    } else if rec.expires_at_ms <= now_ms {
        Err(KeyPackageVerifyError::Expired)
    } else if rec.expires_at_ms > now_ms + lifetime_ms + MAX_KP_SKEW_MS {
        Err(KeyPackageVerifyError::Malformed)
    } else {
        Ok(())
    }
}

/// Judges a record, given whether its `ipk` is a key and whether the owner
/// signed.
pub fn judge_record(rec: &KeyPackageRecord, key_ok: bool, signed: bool, lifetime_ms: u64, now_ms: u64) -> (r: Result<
    (),
    KeyPackageVerifyError,
>)
    ensures
        r == record_verdict(rec@, key_ok, signed, lifetime_ms, now_ms),
{
    if rec.kp_ref.len() != KP_REF_LEN {
        return Err(KeyPackageVerifyError::Malformed);
    }
    if rec.kp_bytes.len() == 0 {
        return Err(KeyPackageVerifyError::Malformed);
    }
    if !key_ok {
        return Err(KeyPackageVerifyError::Malformed);
    }
    if !signed {
        return Err(KeyPackageVerifyError::BadSig);
    }
    if rec.expires_at_ms <= now_ms {
        return Err(KeyPackageVerifyError::Expired);
    }
    let max_expiry: u64 = now_ms.saturating_add(lifetime_ms).saturating_add(MAX_KP_SKEW_MS);
    if rec.expires_at_ms > max_expiry {
        return Err(KeyPackageVerifyError::Malformed);
    }
    Ok(())
}

/// What the checks of a record come to.
pub open spec fn verdict_on(rec: SignedRecordView, lifetime_ms: u64, now_ms: u64) -> Result<
    (),
    KeyPackageVerifyError,
> {
    record_verdict(
        rec.record,
        ed25519_key_parses(rec.record.ipk@),
        ed25519_signed(rec.record.ipk@, rec.transcript, rec.record.owner_sig@),
        lifetime_ms,
        now_ms,
    )
}

/// Checks the shape, the signature and the lifetime of a record.
pub fn verify_record(rec: &SignedRecord, lifetime_ms: u64, now_ms: u64) -> (r: Result<(), KeyPackageVerifyError>)
    ensures
        r == verdict_on(rec@, lifetime_ms, now_ms),
{
    judge_record(
        &rec.record,
        key_parses(&rec.record.ipk),
        signature_holds(&rec.record.ipk, &rec.transcript, &rec.record.owner_sig),
        lifetime_ms,
        now_ms,
    )
}

/// The publisher's signature on a batch holds and its clock is not off.
pub open spec fn outer_ok(
    publisher_ipk: [u8; 32],
    sig: [u8; 64],
    transcript: Seq<u8>,
    timestamp: u64,
    now_ms: u64,
) -> bool {
    within_skew(now_ms, timestamp) && ed25519_signed(publisher_ipk@, transcript, sig@)
}

/// Checks the clock and the signature of the publisher of a batch.
pub fn verify_outer_sig(
    publisher_ipk: &[u8; 32],
    outer_sig: &[u8; 64],
    transcript: &[u8],
    timestamp: u64,
    now_ms: u64,
) -> (r: bool)
    ensures
        r == outer_ok(*publisher_ipk, *outer_sig, transcript@, timestamp, now_ms),
{
    if !skew_ok(now_ms, timestamp) {
        return false;
    }
    signature_holds(publisher_ipk, transcript, outer_sig)
}

// ---------------------------------------------------------------------------
// Storing
// ---------------------------------------------------------------------------

/// Why a record was not stored.
#[derive(Clone, Copy, Debug, PartialEq, Eq, Structural)]
pub enum InsertError {
    /// The stash holds something else under the same reference.
    StaticFieldsConflict,
    /// The medium did not answer, or the reference has not the length of one.
    Storage,
}

/// What storing a record does to the stash, and whether it was stored.
pub open spec fn inserted(ks: KeyspaceView<RecordView>, rec: RecordView) -> (
    KeyspaceView<RecordView>,
    Result<(), InsertError>,
) {
    let key = record_key(rec.ipk, rec.kp_ref);
    if rec.kp_ref.len() != KP_REF_LEN || !ks.readable {
        (ks, Err(InsertError::Storage))
    } else if has_key(ks.rows, key) && value_at(ks.rows, key) != Some(Some(rec)) {
        (ks, Err(InsertError::StaticFieldsConflict))
    } else if !ks.writable {
        (ks, Err(InsertError::Storage))
    } else {
        (ks.with_rows(with_row(ks.rows, key, rec)), Ok(()))
    }
}

/// Stores a record. Storing the same record again changes nothing; another
/// record under the same reference is a conflict.
pub fn insert_record(dht: &mut Dht, rec: &KeyPackageRecord) -> (r: Result<(), InsertError>)
    requires
        old(dht).wf(),
    ensures
        final(dht).wf(),
        r == inserted(old(dht)@.keypackage, rec@).1,
        final(dht)@ == (DhtView { keypackage: inserted(old(dht)@.keypackage, rec@).0, ..old(dht)@ }),
{
    let ghost before = dht@;
    let key: Vec<u8> = match storage_key(&rec.ipk, &rec.kp_ref) {
        Some(k) => k,
        None => {
            return Err(InsertError::Storage);
        },
    };
    if !dht.store.keypackage.readable {
        return Err(InsertError::Storage);
    }
    let (found, at): (bool, usize) = dht.store.keypackage.locate(&key);
    if found {
        let row = &dht.store.keypackage.rows[at];
        assert(before.keypackage.rows[at as int] == row.row_view());
        let same: bool = match &row.value {
            Some(existing) => existing.same(rec),
            None => false,
        };
        if !same {
            return Err(InsertError::StaticFieldsConflict);
        }
    }
    match dht.store.keypackage.put(key, rec.copy()) {
        Ok(()) => Ok(()),
        Err(_) => Err(InsertError::Storage),
    }
}

// ---------------------------------------------------------------------------
// Publishing and refilling
// ---------------------------------------------------------------------------

/// What became of a batch.
#[derive(Clone, Copy, Debug, PartialEq, Eq, Structural)]
pub enum BatchOutcome {
    Accepted,
    BadSig,
    NotOwner,
    Expired,
    TooMany,
    StaticFieldsConflict,
}

/// What the size of a batch, its publisher's signature and this relay's part
/// in the stash settle; `None` where its records are to be looked at.
pub open spec fn batch_gate(count: nat, limit: nat, signed: bool, owner: bool) -> Option<BatchOutcome> {
    if count > limit {
        Some(BatchOutcome::TooMany)
    } else if count == 0 {
        Some(BatchOutcome::Accepted)
    } else if !signed {
        Some(BatchOutcome::BadSig)
    } else if !owner {
        Some(BatchOutcome::NotOwner)
    } else {
        None
    }
}

/// Settles a batch by its size, its publisher's signature and this relay's
/// part in the stash, as far as they do.
pub fn gate_batch(count: usize, limit: usize, signed: bool, owner: bool) -> (r: Option<BatchOutcome>)
    ensures
        r == batch_gate(count as nat, limit as nat, signed, owner),
{
    if count > limit {
        return Some(BatchOutcome::TooMany);
    }
    if count == 0 {
        return Some(BatchOutcome::Accepted);
    }
    if !signed {
        return Some(BatchOutcome::BadSig);
    }
    if !owner {
        return Some(BatchOutcome::NotOwner);
    }
    None
}

/// What one record of a batch settles: one of another user, or one that does
/// not pass its checks, refuses the whole batch.
pub open spec fn record_gate(same_owner: bool, verdict: Result<(), KeyPackageVerifyError>) -> Option<BatchOutcome> {
    if !same_owner {
        Some(BatchOutcome::BadSig)
    } else {
        match verdict {
            Ok(()) => None,
            Err(KeyPackageVerifyError::Expired) => Some(BatchOutcome::Expired),
            Err(_) => Some(BatchOutcome::BadSig),
        }
    }
}

/// Settles a batch by one of its records, given whether it is of the same user
/// and what its checks came to.
pub fn gate_record(same_owner: bool, verdict: Result<(), KeyPackageVerifyError>) -> (r: Option<BatchOutcome>)
    ensures
        r == record_gate(same_owner, verdict),
{
    if !same_owner {
        return Some(BatchOutcome::BadSig);
    }
    match verdict {
        Ok(()) => None,
        Err(KeyPackageVerifyError::Expired) => Some(BatchOutcome::Expired),
        Err(_) => Some(BatchOutcome::BadSig),
    }
}

/// What the first record that refuses the batch settles; `None` where every
/// record passes.
pub open spec fn first_refusal(
    records: Seq<SignedRecordView>,
    ipk: [u8; 32],
    lifetime_ms: u64,
    now_ms: u64,
) -> Option<BatchOutcome>
    decreases records.len(),
{
    if records.len() == 0 {
        None
    } else {
        match record_gate(records[0].record.ipk == ipk, verdict_on(records[0], lifetime_ms, now_ms)) {
            Some(outcome) => Some(outcome),
            None => first_refusal(records.drop_first(), ipk, lifetime_ms, now_ms),
        }
    }
}

/// The first record of a batch that refuses it decides.
fn check_records(records: &Vec<SignedRecord>, ipk: &[u8; 32], lifetime_ms: u64, now_ms: u64) -> (r: Option<BatchOutcome>)
    ensures
        r == first_refusal(Seq::new(records@.len(), |i: int| records@[i]@), *ipk, lifetime_ms, now_ms),
        r is None <==> forall|i: int|
            0 <= i < records@.len() ==> (#[trigger] records@[i]).record.ipk == *ipk && verdict_on(
                records@[i]@,
                lifetime_ms,
                now_ms,
            ) is Ok,
{
    let ghost all = Seq::new(records@.len(), |i: int| records@[i]@);
    let mut i: usize = 0;
    assert(all.skip(0) =~= all);
    while i < records.len()
        invariant
            0 <= i <= records.len(),
            all == Seq::new(records@.len(), |k: int| records@[k]@),
            first_refusal(all, *ipk, lifetime_ms, now_ms) == first_refusal(
                all.skip(i as int),
                *ipk,
                lifetime_ms,
                now_ms,
            ),
            forall|k: int|
                0 <= k < i ==> (#[trigger] records@[k]).record.ipk == *ipk && verdict_on(
                    records@[k]@,
                    lifetime_ms,
                    now_ms,
                ) is Ok,
        decreases records.len() - i,
    {
        assert(all.skip(i as int)[0] == records@[i as int]@);
        assert(all.skip(i as int).drop_first() =~= all.skip(i + 1));
        let rec = &records[i];
        let same: bool = same_array(&rec.record.ipk, ipk);
        let gate: Option<BatchOutcome> = gate_record(same, verify_record(rec, lifetime_ms, now_ms));
        if gate.is_some() {
            return gate;
        }
        i = i + 1;
    }
    None
}

/// What storing records one by one does to the stash, up to the first that
/// cannot be stored. Records that were stored before it stay.
pub open spec fn batch_stored(ks: KeyspaceView<RecordView>, records: Seq<SignedRecordView>) -> (
    KeyspaceView<RecordView>,
    BatchOutcome,
)
    decreases records.len(),
{
    if records.len() == 0 {
        (ks, BatchOutcome::Accepted)
    } else {
        let (next, r) = inserted(ks, records[0].record);
        match r {
            Ok(()) => batch_stored(next, records.drop_first()),
            Err(InsertError::StaticFieldsConflict) => (next, BatchOutcome::StaticFieldsConflict),
            Err(InsertError::Storage) => (next, BatchOutcome::BadSig),
        }
    }
}

/// Stores records one by one, up to the first that cannot be stored.
fn store_records(dht: &mut Dht, records: &Vec<SignedRecord>) -> (r: BatchOutcome)
    requires
        old(dht).wf(),
    ensures
        final(dht).wf(),
        ({
            let all = Seq::new(records@.len(), |i: int| records@[i]@);
            &&& r == batch_stored(old(dht)@.keypackage, all).1
            &&& final(dht)@ == (DhtView { keypackage: batch_stored(old(dht)@.keypackage, all).0, ..old(dht)@ })
        }),
{
    let ghost before = dht@;
    let ghost all = Seq::new(records@.len(), |i: int| records@[i]@);
    let mut i: usize = 0;
    assert(all.skip(0) =~= all);
    while i < records.len()
        invariant
            0 <= i <= records.len(),
            dht.wf(),
            before == old(dht)@,
            all == Seq::new(records@.len(), |k: int| records@[k]@),
            dht@ == (DhtView { keypackage: dht@.keypackage, ..before }),
            batch_stored(before.keypackage, all) == batch_stored(dht@.keypackage, all.skip(i as int)),
        decreases records.len() - i,
    {
        assert(all.skip(i as int)[0] == records@[i as int]@);
        assert(all.skip(i as int).drop_first() =~= all.skip(i + 1));
        match insert_record(dht, &records[i].record) {
            Ok(()) => {},
            Err(InsertError::StaticFieldsConflict) => {
                return BatchOutcome::StaticFieldsConflict;
            },
            Err(InsertError::Storage) => {
                return BatchOutcome::BadSig;
            },
        }
        i = i + 1;
    }
    BatchOutcome::Accepted
}

/// What a batch does to the stashes, and what becomes of it.
pub open spec fn batch_result(dht: DhtView, req: BatchView, now_ms: u64) -> (KeyspaceView<RecordView>, BatchOutcome) {
    let signed = outer_ok(req.ipk, req.sig, req.transcript, req.timestamp, now_ms);
    match batch_gate(req.records.len(), dht.limits.kp_stash_target as nat, signed, owns_stash(dht, req.ipk)) {
        Some(outcome) => (dht.keypackage, outcome),
        None => match first_refusal(req.records, req.ipk, dht.limits.keypackage_lifetime_ms, now_ms) {
            Some(outcome) => (dht.keypackage, outcome),
            None => batch_stored(dht.keypackage, req.records),
        },
    }
}

/// Takes a batch of key packages from their owner.
fn store_batch(dht: &mut Dht, req: &KeyPackageBatch, now_ms: u64) -> (r: BatchOutcome)
    requires
        old(dht).wf(),
    ensures
        final(dht).wf(),
        r == batch_result(old(dht)@, req@, now_ms).1,
        final(dht)@ == (DhtView { keypackage: batch_result(old(dht)@, req@, now_ms).0, ..old(dht)@ }),
{
    let count: usize = req.records.len();
    let limit: usize = dht.limits.kp_stash_target;
    let signed: bool = 0 < count && count <= limit && verify_outer_sig(
        &req.ipk,
        &req.sig,
        &req.transcript,
        req.timestamp,
        now_ms,
    );
    let owner: bool = signed && self_is_owner_for_stash(dht, &req.ipk);
    if let Some(outcome) = gate_batch(count, limit, signed, owner) {
        return outcome;
    }
    if let Some(outcome) = check_records(&req.records, &req.ipk, dht.limits.keypackage_lifetime_ms, now_ms) {
        return outcome;
    }
    store_records(dht, &req.records)
}

/// How the outcome of a batch is told to its publisher.
pub open spec fn publish_outcome(b: BatchOutcome) -> KeyPackagePublishOutcome {
    match b {
        BatchOutcome::Accepted => KeyPackagePublishOutcome::Stored,
        BatchOutcome::BadSig => KeyPackagePublishOutcome::BadSig,
        BatchOutcome::NotOwner => KeyPackagePublishOutcome::NotOwner,
        BatchOutcome::Expired => KeyPackagePublishOutcome::Expired,
        BatchOutcome::TooMany => KeyPackagePublishOutcome::TooMany,
        BatchOutcome::StaticFieldsConflict => KeyPackagePublishOutcome::StaticFieldsConflict,
    }
}

/// How the outcome of a refill is told to its publisher.
pub open spec fn refill_outcome(b: BatchOutcome) -> KeyPackageRefillOutcome {
    match b {
        BatchOutcome::Accepted => KeyPackageRefillOutcome::Appended,
        BatchOutcome::BadSig => KeyPackageRefillOutcome::BadSig,
        BatchOutcome::NotOwner => KeyPackageRefillOutcome::NotOwner,
        BatchOutcome::Expired => KeyPackageRefillOutcome::Expired,
        BatchOutcome::TooMany => KeyPackageRefillOutcome::TooMany,
        BatchOutcome::StaticFieldsConflict => KeyPackageRefillOutcome::StaticFieldsConflict,
    }
}

/// Takes a fresh batch of key packages from their owner.
pub fn handle_keypackage_publish(dht: &mut Dht, req: &KeyPackageBatch, now_ms: u64) -> (r: KeyPackagePublishOutcome)
    requires
        old(dht).wf(),
    ensures
        final(dht).wf(),
        r == publish_outcome(batch_result(old(dht)@, req@, now_ms).1),
        final(dht)@ == (DhtView { keypackage: batch_result(old(dht)@, req@, now_ms).0, ..old(dht)@ }),
{
    match store_batch(dht, req, now_ms) {
        BatchOutcome::Accepted => KeyPackagePublishOutcome::Stored,
        BatchOutcome::BadSig => KeyPackagePublishOutcome::BadSig,
        BatchOutcome::NotOwner => KeyPackagePublishOutcome::NotOwner,
        BatchOutcome::Expired => KeyPackagePublishOutcome::Expired,
        BatchOutcome::TooMany => KeyPackagePublishOutcome::TooMany,
        BatchOutcome::StaticFieldsConflict => KeyPackagePublishOutcome::StaticFieldsConflict,
    }
}

/// Takes more key packages from their owner.
pub fn handle_keypackage_refill(dht: &mut Dht, req: &KeyPackageBatch, now_ms: u64) -> (r: KeyPackageRefillOutcome)
    requires
        old(dht).wf(),
    ensures
        final(dht).wf(),
        r == refill_outcome(batch_result(old(dht)@, req@, now_ms).1),
        final(dht)@ == (DhtView { keypackage: batch_result(old(dht)@, req@, now_ms).0, ..old(dht)@ }),
{
    match store_batch(dht, req, now_ms) {
        BatchOutcome::Accepted => KeyPackageRefillOutcome::Appended,
        BatchOutcome::BadSig => KeyPackageRefillOutcome::BadSig,
        BatchOutcome::NotOwner => KeyPackageRefillOutcome::NotOwner,
        BatchOutcome::Expired => KeyPackageRefillOutcome::Expired,
        BatchOutcome::TooMany => KeyPackageRefillOutcome::TooMany,
        BatchOutcome::StaticFieldsConflict => KeyPackageRefillOutcome::StaticFieldsConflict,
    }
}

// ---------------------------------------------------------------------------
// Fetching
// ---------------------------------------------------------------------------

/// The rows of a user's stash, in the order of their references.
pub open spec fn stash_rows(ks: KeyspaceView<RecordView>, ipk: [u8; 32]) -> Seq<RowView<RecordView>> {
    ks.rows.filter(decoded_under(stash_of(ipk)@, STORAGE_KEY_LEN as nat))
}

/// The record of this row has not expired.
pub open spec fn is_fresh(row: RowView<RecordView>, now_ms: u64) -> bool {
    row.1 is Some && row.1->0.expires_at_ms > now_ms
}

/// The rows whose record has not expired.
pub open spec fn fresh_at(now_ms: u64) -> spec_fn(RowView<RecordView>) -> bool {
    |row: RowView<RecordView>| is_fresh(row, now_ms)
}

/// How many expired rows stand at the beginning.
pub open spec fn expired_ahead(rows: Seq<RowView<RecordView>>, now_ms: u64) -> nat
    decreases rows.len(),
{
    if rows.len() == 0 || is_fresh(rows[0], now_ms) {
        0
    } else {
        1 + expired_ahead(rows.drop_first(), now_ms)
    }
}

/// The rows that a fetch takes out of the stash: the expired ones at the
/// beginning, and the first that is not.
pub open spec fn taken_by_fetch(stash: Seq<RowView<RecordView>>, now_ms: u64) -> Seq<RowView<RecordView>> {
    let n = expired_ahead(stash, now_ms);
    if n < stash.len() {
        stash.take(n as int + 1)
    } else {
        stash
    }
}

/// The key package that a fetch hands out, and how many are left behind it
/// that have not expired.
pub open spec fn popped(stash: Seq<RowView<RecordView>>, now_ms: u64) -> Option<(RecordView, nat)> {
    let n = expired_ahead(stash, now_ms);
    if n < stash.len() {
        Some((stash[n as int].1->0, stash.skip(n as int + 1).filter(fresh_at(now_ms)).len()))
    } else {
        None
    }
}

/// The stashes after a fetch. Where the medium takes no deletion, nothing
/// leaves.
pub open spec fn after_fetch(ks: KeyspaceView<RecordView>, ipk: [u8; 32], now_ms: u64) -> KeyspaceView<RecordView> {
    if ks.writable {
        ks.with_rows(ks.rows.filter(apart_from(keys_of(taken_by_fetch(stash_rows(ks, ipk), now_ms)))))
    } else {
        ks
    }
}

/// What replicas compare of a record:
/// `BLAKE3(ipk || kp_ref || BLAKE3(kp_bytes))`.
pub open spec fn static_hash_of(rec: RecordView) -> [u8; 32] {
    blake3_hash(rec.ipk@ + rec.kp_ref + blake3_hash(rec.kp_bytes)@)
}

/// What replicas compare of a record.
pub fn compute_static_hash(rec: &KeyPackageRecord) -> (r: [u8; 32])
    ensures
        r == static_hash_of(rec@),
{
    let digest: [u8; 32] = blake3_of(&rec.kp_bytes);
    let mut buf: Vec<u8> = Vec::new();
    append_bytes(&mut buf, &rec.ipk);
    append_bytes(&mut buf, &rec.kp_ref);
    append_bytes(&mut buf, &digest);
    assert(buf@ =~= rec.ipk@ + rec.kp_ref@ + digest@);
    blake3_of(&buf)
}

/// The rows that a listing of a stash stands for.
pub open spec fn listed(list: Seq<(Vec<u8>, KeyPackageRecord)>) -> Seq<RowView<RecordView>> {
    Seq::new(list.len(), |i: int| (list[i].0@, Some(list[i].1@)))
}

/// Lists a user's stash, in the order of the references.
pub fn iterate_stash(dht: &Dht, ipk: &[u8; 32]) -> (r: Vec<(Vec<u8>, KeyPackageRecord)>)
    requires
        dht.wf(),
    ensures
        listed(r@) == stash_rows(dht@.keypackage, *ipk),
{
    let ghost rows = dht@.keypackage.rows;
    let mut out: Vec<(Vec<u8>, KeyPackageRecord)> = Vec::new();
    let prefix: [u8; 32] = stash_prefix(ipk);
    let ghost keep = decoded_under::<RecordView>(prefix@, STORAGE_KEY_LEN as nat);
    let places: Vec<usize> = dht.store.keypackage.scan(&prefix, STORAGE_KEY_LEN);
    proof {
        law_filter_keeps_order(rows, keep);
    }
    let mut i: usize = 0;
    while i < places.len()
        invariant
            0 <= i <= places.len(),
            out.len() == i,
            dht@.keypackage.rows == rows,
            is_scan(rows, prefix@, STORAGE_KEY_LEN as nat, places@),
            keep == decoded_under::<RecordView>(prefix@, STORAGE_KEY_LEN as nat),
            forall|k: int| 0 <= k < rows.filter(keep).len() ==> keep(#[trigger] rows.filter(keep)[k]),
            forall|k: int| 0 <= k < i ==> (#[trigger] listed(out@)[k]) == rows.filter(keep)[k],
        decreases places.len() - i,
    {
        let row = &dht.store.keypackage.rows[places[i]];
        let ghost seen = out@;
        proof {
            assert(rows[places@[i as int] as int] == row.row_view());
            assert(keep(rows.filter(keep)[i as int]));
        }
        if let Some(rec) = &row.value {
            out.push((copy_bytes(&row.key), rec.copy()));
            assert forall|k: int| 0 <= k <= i implies (#[trigger] listed(out@)[k]) == rows.filter(keep)[k] by {
                if k < i {
                    assert(listed(seen)[k] == rows.filter(keep)[k]);
                }
            }
        }
        i = i + 1;
    }
    assert(listed(out@) =~= rows.filter(keep));
    out
}

/// Takes the first key package that has not expired out of the stash, and
/// the expired ones before it.
pub fn pop_stash(dht: &mut Dht, ipk: &[u8; 32], now_ms: u64) -> (r: Option<(KeyPackageRecord, usize)>)
    requires
        old(dht).wf(),
    ensures
        final(dht).wf(),
        match r {
            Some((rec, left)) => popped(stash_rows(old(dht)@.keypackage, *ipk), now_ms) == Some((rec@, left as nat)),
            None => popped(stash_rows(old(dht)@.keypackage, *ipk), now_ms) is None,
        },
        final(dht)@ == (DhtView { keypackage: after_fetch(old(dht)@.keypackage, *ipk, now_ms), ..old(dht)@ }),
{
    let ghost stash = stash_rows(dht@.keypackage, *ipk);
    let list: Vec<(Vec<u8>, KeyPackageRecord)> = iterate_stash(dht, ipk);
    let mut keys: Vec<Vec<u8>> = Vec::new();
    let mut found: Option<KeyPackageRecord> = None;
    assert(stash.skip(0) =~= stash);
    let mut i: usize = 0;
    while i < list.len() && found.is_none()
        invariant
            0 <= i <= list.len(),
            keys.len() == i,
            stash == listed(list@),
            forall|k: int| 0 <= k < i ==> (#[trigger] keys@[k])@ == stash[k].0,
            found is None ==> expired_ahead(stash, now_ms) == i + expired_ahead(stash.skip(i as int), now_ms),
            found matches Some(rec) ==> i == expired_ahead(stash, now_ms) + 1 && i <= stash.len()
                && stash[i - 1].1 == Some(rec@),
        decreases list.len() - i,
    {
        proof {
            assert(stash.skip(i as int)[0] == stash[i as int]);
            assert(stash.skip(i as int).drop_first() =~= stash.skip(i + 1));
        }
        keys.push(copy_bytes(&list[i].0));
        if list[i].1.expires_at_ms > now_ms {
            found = Some(list[i].1.copy());
        }
        i = i + 1;
    }
    let left: usize = count_fresh(&list, i, now_ms);
    dht.store.keypackage.delete_each(&keys);
    assert(strings(keys@) =~= keys_of(taken_by_fetch(stash, now_ms)));
    match found {
        Some(rec) => Some((rec, left)),
        None => None,
    }
}

/// How many of the records from `from` on have not expired.
fn count_fresh(list: &Vec<(Vec<u8>, KeyPackageRecord)>, from: usize, now_ms: u64) -> (r: usize)
    requires
        from <= list.len(),
    ensures
        r == listed(list@).skip(from as int).filter(fresh_at(now_ms)).len(),
{
    let ghost rest = listed(list@).skip(from as int);
    let ghost keep = fresh_at(now_ms);
    let mut count: usize = 0;
    let mut i: usize = from;
    proof {
        lemma_filter_empty(rest, keep);
    }
    while i < list.len()
        invariant
            from <= i <= list.len(),
            rest == listed(list@).skip(from as int),
            keep == fresh_at(now_ms),
            count <= i - from,
            count == rest.take(i - from).filter(keep).len(),
        decreases list.len() - i,
    {
        proof {
            lemma_filter_step(rest, keep, i - from);
            assert(rest[i - from] == listed(list@)[i as int]);
        }
        if list[i].1.expires_at_ms > now_ms {
            count = count + 1;
        }
        i = i + 1;
    }
    assert(rest.take(i - from) =~= rest);
    count
}

/// What lets a fetch through, or what answers it before the stash is looked
/// at.
#[derive(Clone, Copy, Debug, PartialEq, Eq, Structural)]
pub enum FetchGate {
    RateLimited,
    NotOwner,
    Serve,
}

/// A fetch is served to the relay that it names, within the clock skew, by a
/// home of the stash, while the pair of target and requester has a token.
pub open spec fn fetch_gate(req: KeyPackageFetchReq, peer: NodeId, now_ms: u64, owner: bool, token: bool) -> FetchGate {
    if req.requester_relay_id != peer || !within_skew(now_ms, req.timestamp) {
        FetchGate::RateLimited
    } else if !owner {
        FetchGate::NotOwner
    } else if !token {
        FetchGate::RateLimited
    } else {
        FetchGate::Serve
    }
}

/// What a fetch does to the state and what it answers, given whether this
/// relay is a home of the stash and whether the rate limiter gave a token.
pub open spec fn fetch_answered(
    before: DhtView,
    after: DhtView,
    req: KeyPackageFetchReq,
    peer: NodeId,
    now_ms: u64,
    owner: bool,
    token: bool,
    r: KeyPackageFetchOutcome,
) -> bool {
    match fetch_gate(req, peer, now_ms, owner, token) {
        FetchGate::RateLimited => r is RateLimited && after == before,
        FetchGate::NotOwner => r is NotOwner && after == before,
        FetchGate::Serve => {
            &&& after == (DhtView { keypackage: after_fetch(before.keypackage, req.target_ipk, now_ms), ..before })
            &&& match popped(stash_rows(before.keypackage, req.target_ipk), now_ms) {
                Some((rec, left)) => {
                    &&& r matches KeyPackageFetchOutcome::Found(f)
                    &&& f.record@ == rec
                    &&& f.remaining == left as u32
                    &&& f.static_hash == static_hash_of(rec)
                },
                None => r is NoStash,
            }
        },
    }
}

/// Answers a fetch, given whether this relay is a home of the stash and
/// whether the rate limiter gave a token.
pub fn answer_fetch(
    dht: &mut Dht,
    req: &KeyPackageFetchReq,
    peer: &NodeId,
    now_ms: u64,
    owner: bool,
    token: bool,
) -> (r: KeyPackageFetchOutcome)
    requires
        old(dht).wf(),
    ensures
        final(dht).wf(),
        fetch_answered(old(dht)@, final(dht)@, *req, *peer, now_ms, owner, token, r),
{
    if !req.requester_relay_id.same(peer) {
        return KeyPackageFetchOutcome::RateLimited;
    }
    if !skew_ok(now_ms, req.timestamp) {
        return KeyPackageFetchOutcome::RateLimited;
    }
    if !owner {
        return KeyPackageFetchOutcome::NotOwner;
    }
    if !token {
        return KeyPackageFetchOutcome::RateLimited;
    }
    match pop_stash(dht, &req.target_ipk, now_ms) {
        None => KeyPackageFetchOutcome::NoStash,
        Some((record, left)) => {
            let remaining: u32 = left as u32;
            let static_hash: [u8; 32] = compute_static_hash(&record);
            KeyPackageFetchOutcome::Found(KeyPackageFetchFound { record, remaining, static_hash })
        },
    }
}

/// What a fetch does to the state and what it answers, the token that it draws
/// along with the rest, given what the rate limiter says.
pub open spec fn fetch_handled(
    before: DhtView,
    after: DhtView,
    req: KeyPackageFetchReq,
    peer: NodeId,
    now_ms: u64,
    token: bool,
    r: KeyPackageFetchOutcome,
) -> bool {
    let owner = owns_stash(before, req.target_ipk);
    let asks = req.requester_relay_id == peer && within_skew(now_ms, req.timestamp) && owner;
    let drawn = if asks {
        DhtView {
            kp_fetch_limiters: before.kp_fetch_limiters.after_ask(req.target_ipk@, peer.bytes@),
            ..before
        }
    } else {
        before
    };
    &&& asks ==> before.kp_fetch_limiters.can_answer(req.target_ipk@, peer.bytes@, token)
    &&& fetch_answered(drawn, after, req, peer, now_ms, owner, token, r)
}

/// Hands out one key package of a user, for good. The rate limiter is asked
/// only where everything else lets the fetch through. The first token of a
/// pair of target and requester it gives; what it says later depends on the
/// clock.
pub fn handle_keypackage_fetch(dht: &mut Dht, req: &KeyPackageFetchReq, peer: &NodeId, now_ms: u64) -> (r:
    KeyPackageFetchOutcome)
    requires
        old(dht).wf(),
    ensures
        final(dht).wf(),
        ({
            ||| fetch_handled(old(dht)@, final(dht)@, *req, *peer, now_ms, true, r)
            ||| fetch_handled(old(dht)@, final(dht)@, *req, *peer, now_ms, false, r)
        }),
{
    let bound: bool = req.requester_relay_id.same(peer) && skew_ok(now_ms, req.timestamp);
    let owner: bool = bound && self_is_owner_for_stash(dht, &req.target_ipk);
    let token: bool = owner && dht.kp_fetch_limiters.check(&req.target_ipk, &req.requester_relay_id).is_ok();
    let r: KeyPackageFetchOutcome = answer_fetch(dht, req, peer, now_ms, owner, token);
    assert(fetch_handled(old(dht)@, dht@, *req, *peer, now_ms, token, r));
    r
}

// ---------------------------------------------------------------------------
// Closing
// ---------------------------------------------------------------------------

/// Why the connection is closed after a publish, where it is.
pub fn close_reason_for_publish(outcome: KeyPackagePublishOutcome) -> (r: Option<CloseReason>)
    ensures
        r == (match outcome {
            KeyPackagePublishOutcome::BadSig
            | KeyPackagePublishOutcome::TooMany
            | KeyPackagePublishOutcome::StaticFieldsConflict => Some(CloseReason::KeyPackageMalformed),
            KeyPackagePublishOutcome::Expired => Some(CloseReason::KeyPackageExpired),
            KeyPackagePublishOutcome::RateLimited => Some(CloseReason::KeyPackageRateLimited),
            KeyPackagePublishOutcome::NotOwner | KeyPackagePublishOutcome::Stored => None,
        }),
{
    match outcome {
        KeyPackagePublishOutcome::BadSig
        | KeyPackagePublishOutcome::TooMany
        | KeyPackagePublishOutcome::StaticFieldsConflict => Some(CloseReason::KeyPackageMalformed),
        KeyPackagePublishOutcome::Expired => Some(CloseReason::KeyPackageExpired),
        KeyPackagePublishOutcome::RateLimited => Some(CloseReason::KeyPackageRateLimited),
        KeyPackagePublishOutcome::NotOwner | KeyPackagePublishOutcome::Stored => None,
    }
}

/// Why the connection is closed after a refill, where it is.
pub fn close_reason_for_refill(outcome: KeyPackageRefillOutcome) -> (r: Option<CloseReason>)
    ensures
        r == (match outcome {
            KeyPackageRefillOutcome::BadSig
            | KeyPackageRefillOutcome::TooMany
            | KeyPackageRefillOutcome::StaticFieldsConflict => Some(CloseReason::KeyPackageMalformed),
            KeyPackageRefillOutcome::Expired => Some(CloseReason::KeyPackageExpired),
            KeyPackageRefillOutcome::RateLimited => Some(CloseReason::KeyPackageRateLimited),
            KeyPackageRefillOutcome::NotOwner | KeyPackageRefillOutcome::Appended => None,
        }),
{
    match outcome {
        KeyPackageRefillOutcome::BadSig
        | KeyPackageRefillOutcome::TooMany
        | KeyPackageRefillOutcome::StaticFieldsConflict => Some(CloseReason::KeyPackageMalformed),
        KeyPackageRefillOutcome::Expired => Some(CloseReason::KeyPackageExpired),
        KeyPackageRefillOutcome::RateLimited => Some(CloseReason::KeyPackageRateLimited),
        KeyPackageRefillOutcome::NotOwner | KeyPackageRefillOutcome::Appended => None,
    }
}

/// Why the connection is closed after a fetch, where it is.
pub fn close_reason_for_fetch(outcome: &KeyPackageFetchOutcome) -> (r: Option<CloseReason>)
    ensures
        r == (if outcome is RateLimited {
            Some(CloseReason::KeyPackageRateLimited)
        } else {
            None
        }),
{
    match outcome {
        KeyPackageFetchOutcome::RateLimited => Some(CloseReason::KeyPackageRateLimited),
        KeyPackageFetchOutcome::NotOwner
        | KeyPackageFetchOutcome::Found(_)
        | KeyPackageFetchOutcome::NoStash => None,
    }
}

// ---------------------------------------------------------------------------
// Laws
// ---------------------------------------------------------------------------

/// The expired rows at the beginning are expired, and what follows them is
/// not.
pub proof fn lemma_expired_ahead(rows: Seq<RowView<RecordView>>, now_ms: u64)
    ensures
        expired_ahead(rows, now_ms) <= rows.len(),
        forall|i: int| 0 <= i < expired_ahead(rows, now_ms) ==> !is_fresh(#[trigger] rows[i], now_ms),
        expired_ahead(rows, now_ms) < rows.len() ==> is_fresh(rows[expired_ahead(rows, now_ms) as int], now_ms),
    decreases rows.len(),
{
    if rows.len() > 0 && !is_fresh(rows[0], now_ms) {
        let rest = rows.drop_first();
        lemma_expired_ahead(rest, now_ms);
        assert forall|i: int| 0 <= i < expired_ahead(rows, now_ms) implies !is_fresh(#[trigger] rows[i], now_ms) by {
            if i > 0 {
                assert(rest[i - 1] == rows[i]);
            }
        }
        if expired_ahead(rows, now_ms) < rows.len() {
            assert(rest[expired_ahead(rest, now_ms) as int] == rows[expired_ahead(rows, now_ms) as int]);
        }
    }
}

/// A fetch finds a key package exactly where the stash holds one that has not
/// expired; it is the first of those in the order of their references.
pub proof fn law_fetch_takes_first_fresh(ks: KeyspaceView<RecordView>, ipk: [u8; 32], now_ms: u64)
    ensures
        ({
            let stash = stash_rows(ks, ipk);
            &&& popped(stash, now_ms) is Some <==> exists|i: int| 0 <= i < stash.len() && is_fresh(#[trigger] stash[i], now_ms)
            &&& popped(stash, now_ms) matches Some((rec, left)) ==> {
                let n = expired_ahead(stash, now_ms) as int;
                &&& 0 <= n < stash.len()
                &&& stash[n].1 == Some(rec)
                &&& rec.expires_at_ms > now_ms
                &&& forall|i: int| 0 <= i < n ==> !is_fresh(#[trigger] stash[i], now_ms)
            }
        }),
{
    lemma_expired_ahead(stash_rows(ks, ipk), now_ms);
}

/// A key package is handed out once: where the medium takes the deletion, no
/// row is left under its key.
pub proof fn law_fetch_is_one_shot(ks: KeyspaceView<RecordView>, ipk: [u8; 32], now_ms: u64)
    requires
        ks.wf(),
        ks.writable,
        popped(stash_rows(ks, ipk), now_ms) is Some,
    ensures
        ({
            let stash = stash_rows(ks, ipk);
            let row = stash[expired_ahead(stash, now_ms) as int];
            &&& row.1 == Some((popped(stash, now_ms)->0).0)
            &&& has_key(ks.rows, row.0)
            &&& !has_key(after_fetch(ks, ipk, now_ms).rows, row.0)
        }),
{
    let stash = stash_rows(ks, ipk);
    lemma_expired_ahead(stash, now_ms);
    let n = expired_ahead(stash, now_ms) as int;
    let row = stash[n];
    let keep = decoded_under::<RecordView>(stash_of(ipk)@, STORAGE_KEY_LEN as nat);
    law_filter_keeps_order(ks.rows, keep);
    assert(ks.rows.contains(stash[n]));
    let k = choose|k: int| 0 <= k < ks.rows.len() && ks.rows[k] == row;
    assert(ks.rows[k].0 == row.0);
    let taken = taken_by_fetch(stash, now_ms);
    assert(keys_of(taken)[n] == row.0);
    let gone = apart_from::<RecordView>(keys_of(taken));
    law_filter_keeps_order(ks.rows, gone);
    let after = ks.rows.filter(gone);
    if has_key(after, row.0) {
        let i = choose|i: int| 0 <= i < after.len() && #[trigger] after[i].0 == row.0;
        assert(gone(after[i]));
    }
}

/// What a fetch says is left is what the stash then holds that has not
/// expired, where the medium takes the deletion.
pub proof fn law_fetch_counts_what_is_left(ks: KeyspaceView<RecordView>, ipk: [u8; 32], now_ms: u64)
    requires
        ks.wf(),
        ks.writable,
    ensures
        ({
            let stash = stash_rows(ks, ipk);
            stash_rows(after_fetch(ks, ipk, now_ms), ipk) == stash.skip(taken_by_fetch(stash, now_ms).len() as int)
        }),
        popped(stash_rows(ks, ipk), now_ms) matches Some((rec, left)) ==> stash_rows(
            after_fetch(ks, ipk, now_ms),
            ipk,
        ).filter(fresh_at(now_ms)).len() == left,
{
    let stash = stash_rows(ks, ipk);
    lemma_expired_ahead(stash, now_ms);
    let taken = taken_by_fetch(stash, now_ms);
    let m = taken.len() as int;
    let keep = decoded_under::<RecordView>(stash_of(ipk)@, STORAGE_KEY_LEN as nat);
    let gone = apart_from::<RecordView>(keys_of(taken));
    let both = |r: RowView<RecordView>| gone(r) && keep(r);
    lemma_filter_twice(ks.rows, gone, keep, both);
    lemma_filter_twice(ks.rows, keep, gone, both);
    law_filter_keeps_order(ks.rows, keep);
    assert(stash =~= stash.take(m) + stash.skip(m));
    Seq::filter_distributes_over_add(stash.take(m), stash.skip(m), gone);
    assert forall|i: int| 0 <= i < stash.skip(m).len() implies gone(#[trigger] stash.skip(m)[i]) by {
        if keys_of(taken).contains(stash[m + i].0) {
            let k = choose|k: int| 0 <= k < keys_of(taken).len() && keys_of(taken)[k] == stash[m + i].0;
            assert(stash[k].0 == keys_of(taken)[k]);
            assert(lex_less(stash[k].0, stash[m + i].0));
            lemma_lex_irreflexive(stash[k].0);
        }
    }
    lemma_drop_none(stash.skip(m), gone);
    assert forall|i: int| 0 <= i < stash.take(m).len() implies !gone(#[trigger] stash.take(m)[i]) by {
        assert(keys_of(taken)[i] == stash[i].0);
    }
    lemma_drop_all(stash.take(m), gone);
    assert(Seq::<RowView<RecordView>>::empty() + stash.skip(m) =~= stash.skip(m));
}

/// The stashes after `n` fetches from the stash of `ipk`, all at one time.
pub open spec fn after_fetches(ks: KeyspaceView<RecordView>, ipk: [u8; 32], now_ms: u64, n: nat) -> KeyspaceView<
    RecordView,
>
    decreases n,
{
    if n == 0 {
        ks
    } else {
        after_fetches(after_fetch(ks, ipk, now_ms), ipk, now_ms, (n - 1) as nat)
    }
}

/// What a fetch says is left is how many further fetches at that time find
/// something, where the medium takes the deletions: the next `left` do, and
/// those after them do not.
pub proof fn law_what_is_left_can_be_fetched(ks: KeyspaceView<RecordView>, ipk: [u8; 32], now_ms: u64, n: nat)
    requires
        ks.wf(),
        ks.writable,
        popped(stash_rows(ks, ipk), now_ms) is Some,
    ensures
        ({
            let left = (popped(stash_rows(ks, ipk), now_ms)->0).1;
            let later = after_fetches(after_fetch(ks, ipk, now_ms), ipk, now_ms, n);
            popped(stash_rows(later, ipk), now_ms) is Some <==> n < left
        }),
{
    law_fetch_counts_what_is_left(ks, ipk, now_ms);
    lemma_fetch_keeps_order(ks, ipk, now_ms);
    lemma_fetches_find(after_fetch(ks, ipk, now_ms), ipk, now_ms, n);
}

/// The tables stay in order.
proof fn lemma_fetch_keeps_order(ks: KeyspaceView<RecordView>, ipk: [u8; 32], now_ms: u64)
    requires
        ks.wf(),
    ensures
        after_fetch(ks, ipk, now_ms).wf(),
{
    law_filter_keeps_order(
        ks.rows,
        apart_from::<RecordView>(keys_of(taken_by_fetch(stash_rows(ks, ipk), now_ms))),
    );
}

/// How many fetches find something.
proof fn lemma_fetches_find(ks: KeyspaceView<RecordView>, ipk: [u8; 32], now_ms: u64, n: nat)
    requires
        ks.wf(),
        ks.writable,
    ensures
        popped(stash_rows(after_fetches(ks, ipk, now_ms, n), ipk), now_ms) is Some <==> n < stash_rows(
            ks,
            ipk,
        ).filter(fresh_at(now_ms)).len(),
    decreases n,
{
    let stash = stash_rows(ks, ipk);
    let keep = fresh_at(now_ms);
    let m = expired_ahead(stash, now_ms) as int;
    lemma_expired_ahead(stash, now_ms);
    assert(stash =~= stash.take(m) + stash.skip(m));
    Seq::filter_distributes_over_add(stash.take(m), stash.skip(m), keep);
    lemma_drop_all(stash.take(m), keep);
    if m < stash.len() {
        assert(stash.skip(m) =~= seq![stash[m]] + stash.skip(m + 1));
        Seq::filter_distributes_over_add(seq![stash[m]], stash.skip(m + 1), keep);
        lemma_filter_one(stash[m], keep);
        assert(stash.filter(keep).len() == 1 + stash.skip(m + 1).filter(keep).len());
    } else {
        lemma_filter_empty(stash, keep);
        assert(stash.skip(m) =~= Seq::empty());
        lemma_drop_all(stash.skip(m), keep);
    }
    if n > 0 {
        law_fetch_counts_what_is_left(ks, ipk, now_ms);
        lemma_fetch_keeps_order(ks, ipk, now_ms);
        lemma_fetches_find(after_fetch(ks, ipk, now_ms), ipk, now_ms, (n - 1) as nat);
        if m == stash.len() {
            assert(stash.skip(m) =~= stash.skip(taken_by_fetch(stash, now_ms).len() as int));
        }
    }
}

/// A record that was stored stands in its owner's stash.
pub proof fn law_stored_is_in_stash(ks: KeyspaceView<RecordView>, rec: RecordView)
    requires
        ks.wf(),
        inserted(ks, rec).1 is Ok,
    ensures
        stash_rows(inserted(ks, rec).0, rec.ipk).contains((record_key(rec.ipk, rec.kp_ref), Some(rec))),
{
    let key = record_key(rec.ipk, rec.kp_ref);
    let after = with_row(ks.rows, key, rec);
    law_put(ks.rows, key, rec, key);
    assert(key.take(32) =~= stash_of(rec.ipk)@);
    let k = choose|k: int| 0 <= k < after.len() && #[trigger] after[k].0 == key;
    lemma_found_at_slot(after, key, k);
    law_filter_keeps_order(after, decoded_under::<RecordView>(stash_of(rec.ipk)@, STORAGE_KEY_LEN as nat));
    assert(after[k] == (key, Some(rec)));
}

/// What was published can be fetched: after a record that has not expired was
/// stored, a fetch from its owner's stash finds a key package.
pub proof fn law_stored_can_be_fetched(ks: KeyspaceView<RecordView>, rec: RecordView, now_ms: u64)
    requires
        ks.wf(),
        inserted(ks, rec).1 is Ok,
        rec.expires_at_ms > now_ms,
    ensures
        popped(stash_rows(inserted(ks, rec).0, rec.ipk), now_ms) is Some,
{
    law_stored_is_in_stash(ks, rec);
    let stash = stash_rows(inserted(ks, rec).0, rec.ipk);
    let row = (record_key(rec.ipk, rec.kp_ref), Some(rec));
    let i = choose|i: int| 0 <= i < stash.len() && stash[i] == row;
    assert(is_fresh(stash[i], now_ms));
    law_fetch_takes_first_fresh(inserted(ks, rec).0, rec.ipk, now_ms);
}

/// Storing a record twice is storing it once.
pub proof fn law_store_is_idempotent(ks: KeyspaceView<RecordView>, rec: RecordView)
    requires
        ks.wf(),
        inserted(ks, rec).1 is Ok,
    ensures
        inserted(inserted(ks, rec).0, rec) == inserted(ks, rec),
{
    let key = record_key(rec.ipk, rec.kp_ref);
    let once = with_row(ks.rows, key, rec);
    law_put(ks.rows, key, rec, key);
    let k = choose|k: int| 0 <= k < once.len() && #[trigger] once[k].0 == key;
    lemma_found_at_slot(once, key, k);
    assert(once[k] == (key, Some(rec)));
    assert(with_row(once, key, rec) =~= once);
}

/// Another record under the reference of a stored one is refused, and the
/// stored one stays.
pub proof fn law_other_record_conflicts(ks: KeyspaceView<RecordView>, rec: RecordView, other: RecordView)
    requires
        ks.wf(),
        inserted(ks, rec).1 is Ok,
        other.ipk == rec.ipk,
        other.kp_ref == rec.kp_ref,
        other != rec,
    ensures
        inserted(inserted(ks, rec).0, other) == (inserted(ks, rec).0, Err::<(), InsertError>(
            InsertError::StaticFieldsConflict,
        )),
{
    let key = record_key(rec.ipk, rec.kp_ref);
    law_put(ks.rows, key, rec, key);
}

/// Storing for one user leaves the stash of another as it is, where their
/// stash keys differ.
pub proof fn law_stashes_are_apart(ks: KeyspaceView<RecordView>, rec: RecordView, other: [u8; 32])
    requires
        ks.wf(),
        stash_of(rec.ipk) != stash_of(other),
    ensures
        stash_rows(inserted(ks, rec).0, other) == stash_rows(ks, other),
{
    let key = record_key(rec.ipk, rec.kp_ref);
    let keep = decoded_under::<RecordView>(stash_of(other)@, STORAGE_KEY_LEN as nat);
    assert(key.take(32) =~= stash_of(rec.ipk)@);
    if stash_of(rec.ipk)@ == stash_of(other)@ {
        lemma_array_eq(stash_of(rec.ipk), stash_of(other));
    }
    if has_key(ks.rows, key) {
        let k = choose|k: int| 0 <= k < ks.rows.len() && #[trigger] ks.rows[k].0 == key;
        lemma_found_at_slot(ks.rows, key, k);
    }
    law_put_filtered(ks.rows, key, rec, keep);
}

/// A batch that is refused before its records are stored stores nothing at
/// all, not even its good records: one that is too large, is not signed by its
/// publisher within the clock skew, is sent to the wrong relay or holds a
/// record that does not pass. One that is not so signed is answered as such,
/// where it is not too large and holds something.
pub proof fn law_refused_batch_stores_nothing(dht: DhtView, req: BatchView, now_ms: u64)
    requires
        ({
            let outcome = batch_result(dht, req, now_ms).1;
            ||| outcome == BatchOutcome::TooMany
            ||| outcome == BatchOutcome::NotOwner
            ||| outcome == BatchOutcome::Expired
            ||| !outer_ok(req.ipk, req.sig, req.transcript, req.timestamp, now_ms)
            ||| first_refusal(req.records, req.ipk, dht.limits.keypackage_lifetime_ms, now_ms) is Some
        }),
    ensures
        batch_result(dht, req, now_ms).0 == dht.keypackage,
        !outer_ok(req.ipk, req.sig, req.transcript, req.timestamp, now_ms) && 0 < req.records.len()
            <= dht.limits.kp_stash_target ==> batch_result(dht, req, now_ms).1 == BatchOutcome::BadSig,
{
    lemma_storing_outcomes(dht.keypackage, req.records);
}

/// A refill needs a signature of its own: one whose signature does not hold
/// over the transcript of the refill, whatever else it was made for, is refused
/// and leaves the stashes as they were.
pub proof fn law_refill_needs_its_own_signature(dht: DhtView, refill: BatchView, now_ms: u64)
    requires
        0 < refill.records.len() <= dht.limits.kp_stash_target,
        !ed25519_signed(refill.ipk@, refill.transcript, refill.sig@),
    ensures
        refill_outcome(batch_result(dht, refill, now_ms).1) == KeyPackageRefillOutcome::BadSig,
        batch_result(dht, refill, now_ms).0 == dht.keypackage,
{
}

/// This signature of this key holds over one message only.
pub open spec fn signs_one_message(ipk: [u8; 32], sig: [u8; 64]) -> bool {
    forall|a: Seq<u8>, b: Seq<u8>|
        #![trigger ed25519_signed(ipk@, a, sig@), ed25519_signed(ipk@, b, sig@)]
        ed25519_signed(ipk@, a, sig@) && ed25519_signed(ipk@, b, sig@) ==> a == b
}

/// The signature of a publish is none of a refill: a refill of the records that
/// a publish stored, with the publish's signature, is refused and leaves the
/// stashes as the publish left them. The two have different transcripts, and
/// the signature holds over one message only.
pub proof fn law_publish_signature_is_no_refill(dht: DhtView, publish: BatchView, refill: BatchView, now_ms: u64)
    requires
        publish.records.len() > 0,
        publish_outcome(batch_result(dht, publish, now_ms).1) == KeyPackagePublishOutcome::Stored,
        refill.ipk == publish.ipk,
        refill.records == publish.records,
        refill.timestamp == publish.timestamp,
        refill.sig == publish.sig,
        refill.transcript != publish.transcript,
        signs_one_message(publish.ipk, publish.sig),
    ensures
        ({
            let after = DhtView { keypackage: batch_result(dht, publish, now_ms).0, ..dht };
            &&& refill_outcome(batch_result(after, refill, now_ms).1) == KeyPackageRefillOutcome::BadSig
            &&& batch_result(after, refill, now_ms).0 == after.keypackage
        }),
{
    let after = DhtView { keypackage: batch_result(dht, publish, now_ms).0, ..dht };
    assert(ed25519_signed(publish.ipk@, publish.transcript, publish.sig@));
    assert(!ed25519_signed(refill.ipk@, refill.transcript, refill.sig@));
    law_refill_needs_its_own_signature(after, refill, now_ms);
}

/// What storing records can come to.
proof fn lemma_storing_outcomes(ks: KeyspaceView<RecordView>, records: Seq<SignedRecordView>)
    ensures
        ({
            let outcome = batch_stored(ks, records).1;
            outcome == BatchOutcome::Accepted || outcome == BatchOutcome::StaticFieldsConflict || outcome
                == BatchOutcome::BadSig
        }),
    decreases records.len(),
{
    if records.len() > 0 {
        lemma_storing_outcomes(inserted(ks, records[0].record).0, records.drop_first());
    }
}

/// A batch that is accepted leaves every record of it in the stash.
pub proof fn law_accepted_batch_is_stored(ks: KeyspaceView<RecordView>, records: Seq<SignedRecordView>, i: int)
    requires
        ks.wf(),
        batch_stored(ks, records).1 == BatchOutcome::Accepted,
        0 <= i < records.len(),
    ensures
        value_at(
            batch_stored(ks, records).0.rows,
            record_key(records[i].record.ipk, records[i].record.kp_ref),
        ) == Some(Some(records[i].record)),
    decreases records.len(),
{
    let first = records[0].record;
    let (next, r) = inserted(ks, first);
    let key = record_key(first.ipk, first.kp_ref);
    law_put(ks.rows, key, first, key);
    let rest = records.drop_first();
    if i > 0 {
        assert(rest[i - 1] == records[i]);
        law_accepted_batch_is_stored(next, rest, i - 1);
    } else {
        lemma_batch_keeps(next, rest, key, first);
    }
}

/// A batch that is accepted keeps what is stored.
proof fn lemma_batch_keeps(ks: KeyspaceView<RecordView>, records: Seq<SignedRecordView>, key: Seq<u8>, value: RecordView)
    requires
        ks.wf(),
        batch_stored(ks, records).1 == BatchOutcome::Accepted,
        value_at(ks.rows, key) == Some(Some(value)),
    ensures
        value_at(batch_stored(ks, records).0.rows, key) == Some(Some(value)),
    decreases records.len(),
{
    if records.len() > 0 {
        let first = records[0].record;
        let (next, r) = inserted(ks, first);
        law_put(ks.rows, record_key(first.ipk, first.kp_ref), first, key);
        lemma_batch_keeps(next, records.drop_first(), key, value);
    }
}

/// Two users have two stash keys, but for a collision of digests.
pub proof fn law_stash_keys_tell_users_apart(a: [u8; 32], b: [u8; 32])
    requires
        a != b,
        !digests_collide(),
    ensures
        stash_of(a) != stash_of(b),
{
    let x = "kp:".spec_bytes() + a@;
    let y = "kp:".spec_bytes() + b@;
    let n = "kp:".spec_bytes().len() as int;
    if x == y {
        assert(x.skip(n) =~= a@);
        assert(y.skip(n) =~= b@);
        lemma_array_eq(a, b);
    }
}

/// Key packages stand under the digest of the three letters that mark their
/// namespace and the user's key, then the 32 bytes of their reference.
pub proof fn law_record_key_layout(ipk: [u8; 32], kp_ref: Seq<u8>)
    requires
        kp_ref.len() == 32,
    ensures
        record_key(ipk, kp_ref).len() == 64,
        record_key(ipk, kp_ref).take(32) == blake3_hash("kp:".spec_bytes() + ipk@)@,
        record_key(ipk, kp_ref).skip(32) == kp_ref,
{
    assert(record_key(ipk, kp_ref).take(32) =~= stash_of(ipk)@);
    assert(record_key(ipk, kp_ref).skip(32) =~= kp_ref);
}

/// When a record passes: its reference has 32 bytes, its package is not empty,
/// its owner's key is one, its owner signed it, and it expires after now and no
/// later than the lifetime and a minute of clock skew allow. A record that would
/// pass but for its time is said to be expired exactly where its time is over.
pub proof fn law_record_passes(rec: SignedRecordView, lifetime_ms: u64, now_ms: u64)
    ensures
        ({
            let r = rec.record;
            let whole = r.kp_ref.len() == 32 && r.kp_bytes.len() > 0 && ed25519_key_parses(r.ipk@);
            let signed = ed25519_signed(r.ipk@, rec.transcript, r.owner_sig@);
            &&& verdict_on(rec, lifetime_ms, now_ms) is Ok <==> whole && signed && now_ms < r.expires_at_ms
                && r.expires_at_ms - now_ms <= lifetime_ms + 60_000
            &&& verdict_on(rec, lifetime_ms, now_ms) == Err::<(), KeyPackageVerifyError>(KeyPackageVerifyError::Expired)
                <==> whole && signed && r.expires_at_ms <= now_ms
            &&& verdict_on(rec, lifetime_ms, now_ms) == Err::<(), KeyPackageVerifyError>(KeyPackageVerifyError::BadSig)
                <==> whole && !signed
        }),
{
}

/// Every record that a batch is checked for passes, or the first that does not
/// refuses it.
proof fn lemma_first_refusal(records: Seq<SignedRecordView>, ipk: [u8; 32], lifetime_ms: u64, now_ms: u64)
    ensures
        first_refusal(records, ipk, lifetime_ms, now_ms) is None <==> forall|i: int|
            0 <= i < records.len() ==> (#[trigger] records[i]).record.ipk == ipk && verdict_on(
                records[i],
                lifetime_ms,
                now_ms,
            ) is Ok,
        first_refusal(records, ipk, lifetime_ms, now_ms) matches Some(outcome) ==> exists|i: int|
            0 <= i < records.len() && outcome == (if (#[trigger] records[i]).record.ipk == ipk && verdict_on(
                records[i],
                lifetime_ms,
                now_ms,
            ) == Err::<(), KeyPackageVerifyError>(KeyPackageVerifyError::Expired) {
                BatchOutcome::Expired
            } else {
                BatchOutcome::BadSig
            }) && !(records[i].record.ipk == ipk && verdict_on(records[i], lifetime_ms, now_ms) is Ok) && forall|
                k: int,
            |
                0 <= k < i ==> (#[trigger] records[k]).record.ipk == ipk && verdict_on(
                    records[k],
                    lifetime_ms,
                    now_ms,
                ) is Ok,
    decreases records.len(),
{
    if records.len() > 0 {
        let rest = records.drop_first();
        lemma_first_refusal(rest, ipk, lifetime_ms, now_ms);
        let passes = |r: SignedRecordView| r.record.ipk == ipk && verdict_on(r, lifetime_ms, now_ms) is Ok;
        if first_refusal(rest, ipk, lifetime_ms, now_ms) is None && passes(records[0]) {
            assert forall|i: int| 0 <= i < records.len() implies passes(#[trigger] records[i]) by {
                if i > 0 {
                    assert(records[i] == rest[i - 1]);
                }
            }
        } else if passes(records[0]) {
            let j = choose|i: int|
                0 <= i < rest.len() && first_refusal(rest, ipk, lifetime_ms, now_ms)->0 == (if (
                #[trigger] rest[i]).record.ipk == ipk && verdict_on(rest[i], lifetime_ms, now_ms) == Err::<
                    (),
                    KeyPackageVerifyError,
                >(KeyPackageVerifyError::Expired) {
                    BatchOutcome::Expired
                } else {
                    BatchOutcome::BadSig
                }) && !(rest[i].record.ipk == ipk && verdict_on(rest[i], lifetime_ms, now_ms) is Ok) && forall|k: int|
                    0 <= k < i ==> (#[trigger] rest[k]).record.ipk == ipk && verdict_on(
                        rest[k],
                        lifetime_ms,
                        now_ms,
                    ) is Ok;
            assert(records[j + 1] == rest[j]);
            assert forall|k: int| 0 <= k < j + 1 implies (#[trigger] records[k]).record.ipk == ipk && verdict_on(
                records[k],
                lifetime_ms,
                now_ms,
            ) is Ok by {
                if k > 0 {
                    assert(records[k] == rest[k - 1]);
                }
            }
        } else {
            assert(records[0] == records[0]);
        }
    }
}

/// A batch that is accepted was good in every part: it is no larger than a
/// stash, its publisher signed it within a minute of now, this relay is a home
/// of the stash, and each of its records is the publisher's and passes its own
/// checks. The answers to a publish and to a refill say so, and nothing else
/// does.
pub proof fn law_accepted_batch_is_good(dht: DhtView, req: BatchView, now_ms: u64, i: int)
    requires
        batch_result(dht, req, now_ms).1 == BatchOutcome::Accepted || publish_outcome(
            batch_result(dht, req, now_ms).1,
        ) == KeyPackagePublishOutcome::Stored || refill_outcome(batch_result(dht, req, now_ms).1)
            == KeyPackageRefillOutcome::Appended,
        0 <= i < req.records.len(),
    ensures
        req.records.len() <= dht.limits.kp_stash_target,
        ed25519_signed(req.ipk@, req.transcript, req.sig@),
        now_ms <= req.timestamp + 60_000 && req.timestamp <= now_ms + 60_000,
        among_k_closest(dht.routing, dht.node_id, NodeId { bytes: blake3_hash("kp:".spec_bytes() + req.ipk@) }),
        req.records[i].record.ipk == req.ipk,
        verdict_on(req.records[i], dht.limits.keypackage_lifetime_ms, now_ms) is Ok,
        ed25519_signed(req.ipk@, req.records[i].transcript, req.records[i].record.owner_sig@),
        req.records[i].record.kp_ref.len() == 32,
        req.records[i].record.kp_bytes.len() > 0,
        now_ms < req.records[i].record.expires_at_ms,
        req.records[i].record.expires_at_ms - now_ms <= dht.limits.keypackage_lifetime_ms + 60_000,
{
    lemma_first_refusal(req.records, req.ipk, dht.limits.keypackage_lifetime_ms, now_ms);
    law_record_passes(req.records[i], dht.limits.keypackage_lifetime_ms, now_ms);
}

/// One bad record refuses the whole batch: where any record is another user's
/// or does not pass its own checks, the batch is not accepted and the stashes
/// stay as they were, the good records of the batch included.
pub proof fn law_bad_record_refuses_the_batch(dht: DhtView, req: BatchView, now_ms: u64, i: int)
    requires
        0 <= i < req.records.len(),
        req.records[i].record.ipk != req.ipk || verdict_on(
            req.records[i],
            dht.limits.keypackage_lifetime_ms,
            now_ms,
        ) is Err,
    ensures
        batch_result(dht, req, now_ms).1 != BatchOutcome::Accepted,
        publish_outcome(batch_result(dht, req, now_ms).1) != KeyPackagePublishOutcome::Stored,
        refill_outcome(batch_result(dht, req, now_ms).1) != KeyPackageRefillOutcome::Appended,
        batch_result(dht, req, now_ms).0 == dht.keypackage,
{
    lemma_first_refusal(req.records, req.ipk, dht.limits.keypackage_lifetime_ms, now_ms);
}

/// The first bad record says how the batch is refused: as expired where nothing
/// but its time is wrong with it, else as badly signed.
pub proof fn law_first_bad_record_decides(dht: DhtView, req: BatchView, now_ms: u64, i: int)
    requires
        0 <= i < req.records.len() <= dht.limits.kp_stash_target,
        ed25519_signed(req.ipk@, req.transcript, req.sig@),
        now_ms <= req.timestamp + 60_000 && req.timestamp <= now_ms + 60_000,
        owns_stash(dht, req.ipk),
        forall|k: int| 0 <= k < i ==> (#[trigger] req.records[k]).record.ipk == req.ipk && verdict_on(
            req.records[k],
            dht.limits.keypackage_lifetime_ms,
            now_ms,
        ) is Ok,
        req.records[i].record.ipk != req.ipk || verdict_on(
            req.records[i],
            dht.limits.keypackage_lifetime_ms,
            now_ms,
        ) is Err,
    ensures
        batch_result(dht, req, now_ms).1 == (if req.records[i].record.ipk == req.ipk && verdict_on(
            req.records[i],
            dht.limits.keypackage_lifetime_ms,
            now_ms,
        ) == Err::<(), KeyPackageVerifyError>(KeyPackageVerifyError::Expired) {
            BatchOutcome::Expired
        } else {
            BatchOutcome::BadSig
        }),
{
    let lifetime_ms = dht.limits.keypackage_lifetime_ms;
    let records = req.records;
    let ipk = req.ipk;
    lemma_first_refusal(records, ipk, lifetime_ms, now_ms);
    let j = choose|i: int|
        0 <= i < records.len() && first_refusal(records, ipk, lifetime_ms, now_ms)->0 == (if (
        #[trigger] records[i]).record.ipk == ipk && verdict_on(records[i], lifetime_ms, now_ms) == Err::<
            (),
            KeyPackageVerifyError,
        >(KeyPackageVerifyError::Expired) {
            BatchOutcome::Expired
        } else {
            BatchOutcome::BadSig
        }) && !(records[i].record.ipk == ipk && verdict_on(records[i], lifetime_ms, now_ms) is Ok) && forall|k: int|
            0 <= k < i ==> (#[trigger] records[k]).record.ipk == ipk && verdict_on(
                records[k],
                lifetime_ms,
                now_ms,
            ) is Ok;
    assert(records[i].record.ipk == ipk ==> !(verdict_on(records[i], lifetime_ms, now_ms) is Ok));
    assert(records[j] == records[j]);
    assert(i == j);
}

/// What a batch that cannot be looked into is answered: too large, not signed
/// within a minute of now, or sent to a relay that is no home of the stash. An
/// empty batch is accepted and stores nothing.
pub proof fn law_batch_is_gated(dht: DhtView, req: BatchView, now_ms: u64)
    ensures
        ({
            let n = req.records.len();
            let signed = ed25519_signed(req.ipk@, req.transcript, req.sig@) && now_ms <= req.timestamp + 60_000
                && req.timestamp <= now_ms + 60_000;
            let home = among_k_closest(
                dht.routing,
                dht.node_id,
                NodeId { bytes: blake3_hash("kp:".spec_bytes() + req.ipk@) },
            );
            let (ks, outcome) = batch_result(dht, req, now_ms);
            &&& outcome == BatchOutcome::TooMany <==> n > dht.limits.kp_stash_target
            &&& outcome == BatchOutcome::NotOwner <==> 0 < n <= dht.limits.kp_stash_target && signed && !home
            &&& 0 < n <= dht.limits.kp_stash_target && !signed ==> outcome == BatchOutcome::BadSig
            &&& n == 0 ==> outcome == BatchOutcome::Accepted && ks == dht.keypackage
            &&& n > dht.limits.kp_stash_target || !signed || !home ==> ks == dht.keypackage
        }),
{
    lemma_storing_outcomes(dht.keypackage, req.records);
    lemma_first_refusal(req.records, req.ipk, dht.limits.keypackage_lifetime_ms, now_ms);
}

/// A good batch is accepted: one of no more records than a stash holds, signed
/// by its publisher within a minute of now, at a home of the stash, whose
/// records are the publisher's and pass their checks, where the medium answers
/// and no reference is taken by another record, stored or in the batch.
pub proof fn law_good_batch_is_accepted(dht: DhtView, req: BatchView, now_ms: u64)
    requires
        dht.keypackage.wf(),
        dht.keypackage.readable,
        dht.keypackage.writable,
        req.records.len() <= dht.limits.kp_stash_target,
        ed25519_signed(req.ipk@, req.transcript, req.sig@),
        now_ms <= req.timestamp + 60_000 && req.timestamp <= now_ms + 60_000,
        owns_stash(dht, req.ipk),
        forall|i: int| 0 <= i < req.records.len() ==> (#[trigger] req.records[i]).record.ipk == req.ipk && verdict_on(
            req.records[i],
            dht.limits.keypackage_lifetime_ms,
            now_ms,
        ) is Ok,
        forall|i: int, j: int| #![trigger req.records[i], req.records[j]]
            0 <= i < req.records.len() && 0 <= j < req.records.len() && req.records[i].record.kp_ref
                == req.records[j].record.kp_ref ==> req.records[i].record == req.records[j].record,
        forall|i: int| 0 <= i < req.records.len() ==> value_at(
            dht.keypackage.rows,
            record_key(req.ipk, (#[trigger] req.records[i]).record.kp_ref),
        ) is None || value_at(dht.keypackage.rows, record_key(req.ipk, req.records[i].record.kp_ref)) == Some(
            Some(req.records[i].record),
        ),
    ensures
        batch_result(dht, req, now_ms).1 == BatchOutcome::Accepted,
        publish_outcome(batch_result(dht, req, now_ms).1) == KeyPackagePublishOutcome::Stored,
        refill_outcome(batch_result(dht, req, now_ms).1) == KeyPackageRefillOutcome::Appended,
{
    lemma_first_refusal(req.records, req.ipk, dht.limits.keypackage_lifetime_ms, now_ms);
    assert forall|i: int| 0 <= i < req.records.len() implies (#[trigger] req.records[i]).record.kp_ref.len() == 32 by {
        law_record_passes(req.records[i], dht.limits.keypackage_lifetime_ms, now_ms);
    }
    lemma_batch_fits(dht.keypackage, req.ipk, req.records);
}

/// Records that clash with nothing are stored.
proof fn lemma_batch_fits(ks: KeyspaceView<RecordView>, ipk: [u8; 32], records: Seq<SignedRecordView>)
    requires
        ks.wf(),
        ks.readable,
        ks.writable,
        forall|i: int| 0 <= i < records.len() ==> (#[trigger] records[i]).record.ipk == ipk
            && records[i].record.kp_ref.len() == 32,
        forall|i: int, j: int| #![trigger records[i], records[j]]
            0 <= i < records.len() && 0 <= j < records.len() && records[i].record.kp_ref == records[j].record.kp_ref
                ==> records[i].record == records[j].record,
        forall|i: int| 0 <= i < records.len() ==> value_at(ks.rows, record_key(ipk, (#[trigger] records[i]).record.kp_ref)) is None
            || value_at(ks.rows, record_key(ipk, records[i].record.kp_ref)) == Some(Some(records[i].record)),
    ensures
        batch_stored(ks, records).1 == BatchOutcome::Accepted,
    decreases records.len(),
{
    if records.len() > 0 {
        let first = records[0].record;
        let key = record_key(ipk, first.kp_ref);
        let (next, r) = inserted(ks, first);
        let rest = records.drop_first();
        assert(r is Ok);
        assert forall|i: int| 0 <= i < rest.len() implies (value_at(
            next.rows,
            record_key(ipk, (#[trigger] rest[i]).record.kp_ref),
        ) is None || value_at(next.rows, record_key(ipk, rest[i].record.kp_ref)) == Some(Some(rest[i].record)))
            && rest[i].record.ipk == ipk && rest[i].record.kp_ref.len() == 32 by {
            assert(rest[i] == records[i + 1]);
            let other = record_key(ipk, rest[i].record.kp_ref);
            law_put(ks.rows, key, first, other);
            if other == key {
                law_record_key_layout(ipk, rest[i].record.kp_ref);
                law_record_key_layout(ipk, first.kp_ref);
                assert(rest[i].record.kp_ref == first.kp_ref);
                assert(records[0].record == records[i + 1].record);
            }
        }
        assert forall|i: int, j: int| #![trigger rest[i], rest[j]]
            0 <= i < rest.len() && 0 <= j < rest.len() && rest[i].record.kp_ref == rest[j].record.kp_ref implies rest[i].record
            == rest[j].record by {
            assert(rest[i] == records[i + 1] && rest[j] == records[j + 1]);
        }
        law_put(ks.rows, key, first, key);
        lemma_batch_fits(next, ipk, rest);
    }
}

/// A batch touches nothing but the rows of its own records: what stands under
/// any other key stays.
pub proof fn law_batch_keeps_other_rows(dht: DhtView, req: BatchView, now_ms: u64, key: Seq<u8>)
    requires
        dht.keypackage.wf(),
        forall|i: int| 0 <= i < req.records.len() ==> key != blake3_hash(
            "kp:".spec_bytes() + (#[trigger] req.records[i]).record.ipk@,
        )@ + req.records[i].record.kp_ref,
    ensures
        value_at(batch_result(dht, req, now_ms).0.rows, key) == value_at(dht.keypackage.rows, key),
{
    assert forall|i: int| 0 <= i < req.records.len() implies key != record_key(
        (#[trigger] req.records[i]).record.ipk,
        req.records[i].record.kp_ref,
    ) by {}
    lemma_storing_keeps(dht.keypackage, req.records, key);
}

proof fn lemma_storing_keeps(ks: KeyspaceView<RecordView>, records: Seq<SignedRecordView>, key: Seq<u8>)
    requires
        ks.wf(),
        forall|i: int| 0 <= i < records.len() ==> key != record_key(
            (#[trigger] records[i]).record.ipk,
            records[i].record.kp_ref,
        ),
    ensures
        value_at(batch_stored(ks, records).0.rows, key) == value_at(ks.rows, key),
    decreases records.len(),
{
    if records.len() > 0 {
        let first = records[0].record;
        let (next, r) = inserted(ks, first);
        let rest = records.drop_first();
        law_put(ks.rows, record_key(first.ipk, first.kp_ref), first, key);
        assert forall|i: int| 0 <= i < rest.len() implies key != record_key(
            (#[trigger] rest[i]).record.ipk,
            rest[i].record.kp_ref,
        ) by {
            assert(rest[i] == records[i + 1]);
        }
        lemma_storing_keeps(next, rest, key);
    }
}

/// The answers to a publish and to a refill tell the same thing, and tell the
/// outcomes of batches apart.
pub proof fn law_answers_tell_outcomes_apart(a: BatchOutcome, b: BatchOutcome)
    ensures
        publish_outcome(a) == publish_outcome(b) ==> a == b,
        refill_outcome(a) == refill_outcome(b) ==> a == b,
        publish_outcome(a) == KeyPackagePublishOutcome::BadSig <==> refill_outcome(a) == KeyPackageRefillOutcome::BadSig,
        publish_outcome(a) == KeyPackagePublishOutcome::NotOwner <==> refill_outcome(a)
            == KeyPackageRefillOutcome::NotOwner,
        publish_outcome(a) == KeyPackagePublishOutcome::Expired <==> refill_outcome(a)
            == KeyPackageRefillOutcome::Expired,
        publish_outcome(a) == KeyPackagePublishOutcome::TooMany <==> refill_outcome(a)
            == KeyPackageRefillOutcome::TooMany,
        publish_outcome(a) == KeyPackagePublishOutcome::StaticFieldsConflict <==> refill_outcome(a)
            == KeyPackageRefillOutcome::StaticFieldsConflict,
        publish_outcome(a) == KeyPackagePublishOutcome::BadSig <==> a == BatchOutcome::BadSig,
        publish_outcome(a) == KeyPackagePublishOutcome::NotOwner <==> a == BatchOutcome::NotOwner,
        publish_outcome(a) == KeyPackagePublishOutcome::Expired <==> a == BatchOutcome::Expired,
        publish_outcome(a) == KeyPackagePublishOutcome::TooMany <==> a == BatchOutcome::TooMany,
{
}

/// When a fetch is served: it names the relay that sent it, is no more than a
/// minute off the clock, comes to a home of the stash and has a token. A fetch
/// that is not served changes no stash and hands nothing out.
pub proof fn law_fetch_needs_all_of_it(
    before: DhtView,
    after: DhtView,
    req: KeyPackageFetchReq,
    peer: NodeId,
    now_ms: u64,
    owner: bool,
    token: bool,
    r: KeyPackageFetchOutcome,
)
    requires
        fetch_answered(before, after, req, peer, now_ms, owner, token, r),
    ensures
        ({
            let bound = req.requester_relay_id == peer && now_ms <= req.timestamp + 60_000 && req.timestamp <= now_ms
                + 60_000;
            &&& r is Found || r is NoStash <==> bound && owner && token
            &&& r is NotOwner <==> bound && !owner
            &&& !(bound && owner && token) ==> after.keypackage == before.keypackage
        }),
{
}

/// What a fetch hands out stood in the stash of the user that it asks for, in
/// full and not expired; with it comes the digest over its owner, its reference
/// and the digest of its package.
pub proof fn law_fetch_hands_out_what_was_stored(
    before: DhtView,
    after: DhtView,
    req: KeyPackageFetchReq,
    peer: NodeId,
    now_ms: u64,
    owner: bool,
    token: bool,
    r: KeyPackageFetchOutcome,
)
    requires
        before.keypackage.wf(),
        fetch_answered(before, after, req, peer, now_ms, owner, token, r),
        r is Found,
    ensures
        ({
            let found = r->Found_0;
            let rec = found.record@;
            &&& rec.expires_at_ms > now_ms
            &&& exists|i: int| 0 <= i < before.keypackage.rows.len() && (#[trigger] before.keypackage.rows[i]).1
                == Some(rec) && before.keypackage.rows[i].0.len() == 64 && before.keypackage.rows[i].0.take(32)
                == blake3_hash("kp:".spec_bytes() + req.target_ipk@)@
            &&& found.static_hash == blake3_hash(rec.ipk@ + rec.kp_ref + blake3_hash(rec.kp_bytes)@)
        }),
{
    let ks = before.keypackage;
    let stash = stash_rows(ks, req.target_ipk);
    law_fetch_takes_first_fresh(ks, req.target_ipk, now_ms);
    let n = expired_ahead(stash, now_ms) as int;
    law_filter_keeps_order(ks.rows, decoded_under::<RecordView>(stash_of(req.target_ipk)@, STORAGE_KEY_LEN as nat));
    assert(ks.rows.contains(stash[n]));
    let i = choose|i: int| 0 <= i < ks.rows.len() && ks.rows[i] == stash[n];
    assert(ks.rows[i].0.take(32) =~= stash_of(req.target_ipk)@);
}

/// A fetch takes nothing out of the table but what it hands out and what has
/// expired: a row that is gone was of the user that it asks for, and a second
/// one that had not expired is never among those.
pub proof fn law_fetch_keeps_the_rest(ks: KeyspaceView<RecordView>, ipk: [u8; 32], now_ms: u64, i: int, j: int)
    requires
        ks.wf(),
        0 <= i < ks.rows.len(),
        0 <= j < ks.rows.len(),
    ensures
        ({
            let after = after_fetch(ks, ipk, now_ms).rows;
            let key = ks.rows[i].0;
            &&& !(key.len() == 64 && key.take(32) == blake3_hash("kp:".spec_bytes() + ipk@)@ && ks.rows[i].1 is Some)
                ==> after.contains(ks.rows[i])
            &&& !after.contains(ks.rows[i]) && !after.contains(ks.rows[j]) && (ks.rows[i].1->0).expires_at_ms > now_ms
                && (ks.rows[j].1->0).expires_at_ms > now_ms ==> i == j
            &&& after.contains(ks.rows[i]) ==> value_at(after, key) == value_at(ks.rows, key)
        }),
{
    let stash = stash_rows(ks, ipk);
    let keep = decoded_under::<RecordView>(stash_of(ipk)@, STORAGE_KEY_LEN as nat);
    law_filter_keeps_order(ks.rows, keep);
    lemma_expired_ahead(stash, now_ms);
    let taken = taken_by_fetch(stash, now_ms);
    let gone = apart_from::<RecordView>(keys_of(taken));
    law_filter_keeps_order(ks.rows, gone);
    lemma_gone_is_taken(ks, ipk, now_ms, i);
    lemma_gone_is_taken(ks, ipk, now_ms, j);
    let after = after_fetch(ks, ipk, now_ms).rows;
    if after.contains(ks.rows[i]) {
        let a = choose|a: int| 0 <= a < after.len() && after[a] == ks.rows[i];
        assert(after[a].0 == ks.rows[i].0);
        lemma_found_at_slot(ks.rows, ks.rows[i].0, i);
        lemma_found_at_slot(after, ks.rows[i].0, a);
    }
    if !after.contains(ks.rows[i]) && !after.contains(ks.rows[j]) {
        let n = expired_ahead(stash, now_ms) as int;
        let a = choose|a: int| 0 <= a < taken.len() && taken[a] == ks.rows[i];
        let b = choose|b: int| 0 <= b < taken.len() && taken[b] == ks.rows[j];
        assert(taken[a] == stash[a] && taken[b] == stash[b]);
        if (ks.rows[i].1->0).expires_at_ms > now_ms && (ks.rows[j].1->0).expires_at_ms > now_ms {
            assert(is_fresh(stash[a], now_ms) && is_fresh(stash[b], now_ms));
            assert(a == n && b == n);
            if i < j {
                assert(lex_less(ks.rows[i].0, ks.rows[j].0));
            } else if j < i {
                assert(lex_less(ks.rows[j].0, ks.rows[i].0));
            }
            lemma_lex_irreflexive(ks.rows[i].0);
        }
    }
}

/// A row that a fetch takes out of the table is one of those that it takes.
proof fn lemma_gone_is_taken(ks: KeyspaceView<RecordView>, ipk: [u8; 32], now_ms: u64, i: int)
    requires
        ks.wf(),
        0 <= i < ks.rows.len(),
    ensures
        ({
            let stash = stash_rows(ks, ipk);
            !after_fetch(ks, ipk, now_ms).rows.contains(ks.rows[i]) ==> taken_by_fetch(stash, now_ms).contains(ks.rows[i])
                && ks.rows[i].0.len() == 64 && ks.rows[i].0.take(32) == stash_of(ipk)@ && ks.rows[i].1 is Some
        }),
{
    let stash = stash_rows(ks, ipk);
    let keep = decoded_under::<RecordView>(stash_of(ipk)@, STORAGE_KEY_LEN as nat);
    law_filter_keeps_order(ks.rows, keep);
    let taken = taken_by_fetch(stash, now_ms);
    let gone = apart_from::<RecordView>(keys_of(taken));
    law_filter_keeps_order(ks.rows, gone);
    if !after_fetch(ks, ipk, now_ms).rows.contains(ks.rows[i]) {
        if ks.writable {
            assert(!gone(ks.rows[i]));
            assert(keys_of(taken).contains(ks.rows[i].0));
            let k = choose|k: int| 0 <= k < keys_of(taken).len() && keys_of(taken)[k] == ks.rows[i].0;
            lemma_expired_ahead(stash, now_ms);
            assert(taken[k] == stash[k]);
            assert(ks.rows.contains(stash[k]));
            let m = choose|m: int| 0 <= m < ks.rows.len() && ks.rows[m] == stash[k];
            assert(ks.rows[m].0 == ks.rows[i].0);
            if m < i {
                assert(lex_less(ks.rows[m].0, ks.rows[i].0));
            } else if i < m {
                assert(lex_less(ks.rows[i].0, ks.rows[m].0));
            }
            lemma_lex_irreflexive(ks.rows[i].0);
            assert(m == i);
            assert(taken[k] == ks.rows[i]);
            assert(ks.rows[i].0.take(32) =~= stash_of(ipk)@);
        }
    }
}

/// Two key packages with one static hash have the same owner, reference and
/// package, but for a collision of digests.
pub proof fn law_static_hash_tells_apart(a: RecordView, b: RecordView)
    requires
        a.kp_ref.len() == 32,
        b.kp_ref.len() == 32,
        static_hash_of(a) == static_hash_of(b),
        !digests_collide(),
    ensures
        a.ipk == b.ipk,
        a.kp_ref == b.kp_ref,
        a.kp_bytes == b.kp_bytes,
{
    let x = a.ipk@ + a.kp_ref + blake3_hash(a.kp_bytes)@;
    let y = b.ipk@ + b.kp_ref + blake3_hash(b.kp_bytes)@;
    assert(x == y);
    assert(x.take(32) =~= a.ipk@ && y.take(32) =~= b.ipk@);
    assert(x.subrange(32, 64) =~= a.kp_ref && y.subrange(32, 64) =~= b.kp_ref);
    assert(x.skip(64) =~= blake3_hash(a.kp_bytes)@ && y.skip(64) =~= blake3_hash(b.kp_bytes)@);
    lemma_array_eq(a.ipk, b.ipk);
    lemma_array_eq(blake3_hash(a.kp_bytes), blake3_hash(b.kp_bytes));
}

/// A fetch draws one token, for the pair of the user and the relay that asks,
/// and only where everything else lets it through: the relay that it names sent
/// it, its clock is off by a minute at most, and this relay is a home of the
/// stash. The first fetch of such a pair is served, whatever others drew.
pub proof fn law_fetch_draws_for_its_pair(
    before: DhtView,
    after: DhtView,
    req: KeyPackageFetchReq,
    peer: NodeId,
    now_ms: u64,
    token: bool,
    r: KeyPackageFetchOutcome,
)
    requires
        fetch_handled(before, after, req, peer, now_ms, token, r),
    ensures
        ({
            let bound = req.requester_relay_id == peer && now_ms <= req.timestamp + 60_000 && req.timestamp <= now_ms
                + 60_000;
            let home = among_k_closest(
                before.routing,
                before.node_id,
                NodeId { bytes: blake3_hash("kp:".spec_bytes() + req.target_ipk@) },
            );
            let asked = before.kp_fetch_limiters.asked;
            let pair = (req.target_ipk@, peer.bytes@);
            &&& bound && home ==> after.kp_fetch_limiters.asked == asked.insert(pair)
            &&& !(bound && home) ==> after == before
            &&& bound && !home ==> r is NotOwner
            &&& bound && home && !asked.contains(pair) ==> r is Found || r is NoStash
            &&& r is Found || r is NoStash ==> bound && home
            &&& after == (DhtView {
                keypackage: after.keypackage,
                kp_fetch_limiters: after.kp_fetch_limiters,
                ..before
            })
        }),
{
}

/// Where a record of a batch meets another one under its reference, the batch
/// is answered with a conflict; where the medium does not take it, with a bad
/// signature. The records before it stay stored, those behind it are not looked
/// at.
pub proof fn law_first_failure_ends_the_storing(ks: KeyspaceView<RecordView>, records: Seq<SignedRecordView>, i: int)
    requires
        0 <= i < records.len(),
        batch_stored(ks, records.take(i)).1 == BatchOutcome::Accepted,
        records[i].record.kp_ref.len() == 32,
    ensures
        ({
            let reached = batch_stored(ks, records.take(i)).0;
            let rec = records[i].record;
            let key = blake3_hash("kp:".spec_bytes() + rec.ipk@)@ + rec.kp_ref;
            let other = has_key(reached.rows, key) && value_at(reached.rows, key) != Some(Some(rec));
            &&& reached.readable && other ==> batch_stored(ks, records) == (reached, BatchOutcome::StaticFieldsConflict)
            &&& !reached.readable || (!reached.writable && !other) ==> batch_stored(ks, records) == (
                reached,
                BatchOutcome::BadSig,
            )
            &&& reached.readable && reached.writable && !other && i == records.len() - 1 ==> batch_stored(ks, records).1
                == BatchOutcome::Accepted
        }),
    decreases records.len(),
{
    reveal_with_fuel(batch_stored, 2);
    if i == 0 {
        assert(records.take(0).len() == 0);
    } else {
        let (next, r) = inserted(ks, records[0].record);
        let rest = records.drop_first();
        assert(records.take(i)[0] == records[0]);
        assert(records.take(i).drop_first() =~= rest.take(i - 1));
        assert(rest[i - 1] == records[i]);
        law_first_failure_ends_the_storing(next, rest, i - 1);
    }
}

} // verus!
