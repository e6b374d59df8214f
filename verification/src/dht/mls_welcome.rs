//! Invitations into groups, kept for offline recipients.
//!
//! A user's invitations stand under `BLAKE3("welcome:" || ipk)` followed by an
//! id that this home drew for each. A fetch lists them and leaves them; an
//! acknowledgement deletes them.

use super::bytes::{
    append_bytes, be8, be_bytes, be_nat, copy_bytes, lemma_be_bytes_spell, lemma_be_nat_injective, read8,
    take8,
};
use super::id::NodeId;
use super::key_helpers;
use super::keyspace::{
    apart_from, decoded_under, has_key, is_scan, keys_of, law_filter_keeps_order, law_put,
    law_put_filtered, lemma_filter_empty, lemma_filter_step, lemma_found_at_slot, strings,
    under_prefix, value_at, with_row, KeyspaceView, RowView,
};
use super::mls_kp::{skew_ok, within_skew};
use super::routing::{among_k_closest, self_in_top_k};
use super::sig::{ed25519_key_parses, ed25519_signed, key_parses, signature_holds};
use super::wire::{
    lemma_array_eq, CloseReason, EnvelopeView, StoredWelcome, StoredWelcomeView, WelcomeAckReq,
    WelcomeAckResp, WelcomeEntry, WelcomeEnvelopeP, WelcomeFetchOutcome, WelcomeFetchReq,
    WelcomePublishOutcome, WelcomePublishReq,
};
use super::hash::{blake3_hash, digests_collide};
use super::{Dht, DhtView};
use vstd::prelude::*;
use vstd::string::StringSliceAdditionalSpecFns;

verus! {

/// Bytes of a stash key.
pub const STASH_PREFIX_LEN: usize = 32;

/// Bytes of the id of an invitation.
pub const WELCOME_ID_LEN: usize = 8;

/// Bytes of the key of a stored invitation.
pub const STORAGE_KEY_LEN: usize = 40;

/// Invitations kept for one recipient.
pub const MAX_WELCOMES_PER_RECIPIENT: usize = 32;

/// How long an invitation is kept, in milliseconds: thirty days.
pub const WELCOME_LIFETIME_MS: u64 = 2_592_000_000;

/// Bytes of an invitation.
pub const MAX_WELCOME_BYTES: usize = 262_144;

// ---------------------------------------------------------------------------
// Keys and values
// ---------------------------------------------------------------------------

/// The stash key of a user.
pub open spec fn stash_of(ipk: [u8; 32]) -> [u8; 32] {
    blake3_hash("welcome:".spec_bytes() + ipk@)
}

/// The key of a stored invitation.
pub open spec fn welcome_key(ipk: [u8; 32], welcome_id: [u8; 8]) -> Seq<u8> {
    stash_of(ipk)@ + welcome_id@
}

/// The stash key of a user: `BLAKE3("welcome:" || ipk)`.
pub fn stash_prefix(ipk: &[u8; 32]) -> (r: [u8; 32])
    ensures
        r == stash_of(*ipk),
{
    key_helpers::stash_prefix("welcome:".as_bytes(), ipk)
}

/// The key of a stored invitation.
pub fn storage_key(ipk: &[u8; 32], welcome_id: &[u8; 8]) -> (r: Vec<u8>)
    ensures
        r@ == welcome_key(*ipk, *welcome_id),
        r.len() == STORAGE_KEY_LEN,
{
    let mut k: Vec<u8> = Vec::new();
    append_bytes(&mut k, &stash_prefix(ipk));
    append_bytes(&mut k, welcome_id);
    assert(k@ =~= welcome_key(*ipk, *welcome_id));
    k
}

/// How an invitation is written: when it expires, in eight bytes with the most
/// significant first, and the encoded envelope.
pub open spec fn framed(expires_at_ms: u64, envelope: Seq<u8>) -> Seq<u8> {
    be_bytes(expires_at_ms as nat, 8) + envelope
}

/// Writes an invitation.
pub fn frame_welcome(expires_at_ms: u64, envelope: &[u8]) -> (r: Vec<u8>)
    ensures
        r@ == framed(expires_at_ms, envelope@),
{
    let mut out: Vec<u8> = Vec::new();
    append_bytes(&mut out, &be8(expires_at_ms));
    append_bytes(&mut out, envelope);
    assert(out@ =~= framed(expires_at_ms, envelope@));
    out
}

/// Reads an invitation; `None` where there is no room for its expiry.
pub fn unframe_welcome(value: &[u8]) -> (r: Option<(u64, Vec<u8>)>)
    ensures
        match r {
            Some((expires, envelope)) => value@ == framed(expires, envelope@),
            None => value.len() < 8,
        },
{
    if value.len() < 8 {
        return None;
    }
    let head: [u8; 8] = take8(value, 0);
    let expires: u64 = read8(&head);
    let rest: Vec<u8> = copy_bytes(vstd::slice::slice_subrange(value, 8, value.len()));
    proof {
        lemma_be_bytes_spell(expires);
        lemma_be_nat_injective(be_bytes(expires as nat, 8), head@);
        assert(value@ =~= head@ + rest@);
    }
    Some((expires, rest))
}

/// What is written is read back: two writings are equal only if they hold the
/// same expiry and the same envelope.
pub proof fn law_frame_reads_back(e1: u64, env1: Seq<u8>, e2: u64, env2: Seq<u8>)
    requires
        framed(e1, env1) == framed(e2, env2),
    ensures
        e1 == e2,
        env1 == env2,
{
    lemma_be_bytes_spell(e1);
    lemma_be_bytes_spell(e2);
    let a = framed(e1, env1);
    let b = framed(e2, env2);
    assert(a.take(8) =~= be_bytes(e1 as nat, 8));
    assert(b.take(8) =~= be_bytes(e2 as nat, 8));
    assert(a.skip(8) =~= env1);
    assert(b.skip(8) =~= env2);
}

/// This relay is a home of the invitations of `ipk`.
pub open spec fn owns_stash(dht: DhtView, ipk: [u8; 32]) -> bool {
    among_k_closest(dht.routing, dht.node_id, NodeId { bytes: stash_of(ipk) })
}

/// Whether this relay is a home of the invitations of `recipient_ipk`.
fn self_is_owner_for_recipient(dht: &Dht, recipient_ipk: &[u8; 32]) -> (r: bool)
    requires
        dht.wf(),
    ensures
        r == owns_stash(dht@, *recipient_ipk),
{
    self_in_top_k(&dht.routing, &dht.node_id, &NodeId::from_bytes(stash_prefix(recipient_ipk)))
}

// ---------------------------------------------------------------------------
// Checks
// ---------------------------------------------------------------------------

/// Why an envelope is refused.
#[derive(Clone, Copy, Debug, PartialEq, Eq, Structural)]
pub enum WelcomeVerifyError {
    Malformed,
    BadSig,
}

/// What the checks of an envelope come to, in their order: the size of the
/// invitation, whether the sender's key is one, and the sender's signature.
pub open spec fn envelope_verdict(env: EnvelopeView, key_ok: bool, signed: bool) -> Result<(), WelcomeVerifyError> {
    if env.welcome_blob.len() == 0 || env.welcome_blob.len() > MAX_WELCOME_BYTES || !key_ok {
        Err(WelcomeVerifyError::Malformed)
    } else if !signed {
        Err(WelcomeVerifyError::BadSig)
    } else {
        Ok(())
    }
}

/// Judges an envelope, given whether the sender's key is one and whether the
/// sender signed.
pub fn judge_envelope(env: &WelcomeEnvelopeP, key_ok: bool, signed: bool) -> (r: Result<(), WelcomeVerifyError>)
    ensures
        r == envelope_verdict(env@, key_ok, signed),
{
    if env.welcome_blob.len() == 0 {
        return Err(WelcomeVerifyError::Malformed);
    }
    if env.welcome_blob.len() > MAX_WELCOME_BYTES {
        return Err(WelcomeVerifyError::Malformed);
    }
    if !key_ok {
        return Err(WelcomeVerifyError::Malformed);
    }
    if !signed {
        return Err(WelcomeVerifyError::BadSig);
    }
    Ok(())
}

/// What the checks of an envelope come to.
pub open spec fn verdict_on(env: EnvelopeView, transcript: Seq<u8>) -> Result<(), WelcomeVerifyError> {
    envelope_verdict(
        env,
        ed25519_key_parses(env.sender_ipk@),
        ed25519_signed(env.sender_ipk@, transcript, env.sender_sig@),
    )
}

/// Checks the size and the signature of an envelope.
pub fn verify_welcome_envelope(env: &WelcomeEnvelopeP, transcript: &[u8]) -> (r: Result<(), WelcomeVerifyError>)
    ensures
        r == verdict_on(env@, transcript@),
{
    judge_envelope(env, key_parses(&env.sender_ipk), signature_holds(&env.sender_ipk, transcript, &env.sender_sig))
}

// ---------------------------------------------------------------------------
// Publishing
// ---------------------------------------------------------------------------

/// The number of rows kept for a recipient, readable or not.
pub open spec fn kept_for(ks: KeyspaceView<StoredWelcomeView>, ipk: [u8; 32]) -> nat {
    ks.rows.filter(under_prefix(stash_of(ipk)@)).len()
}

/// There is no room for another invitation. A medium that fails has none.
pub open spec fn is_full(ks: KeyspaceView<StoredWelcomeView>, ipk: [u8; 32]) -> bool {
    !ks.readable || kept_for(ks, ipk) >= MAX_WELCOMES_PER_RECIPIENT
}

/// How many invitations are kept for a recipient, counted up to one more than
/// there is room for, and whether there is no room for another.
pub fn welcome_count_bounded(dht: &Dht, ipk: &[u8; 32]) -> (r: (usize, bool))
    requires
        dht.wf(),
    ensures
        r.1 == is_full(dht@.welcome, *ipk),
        r.0 == (if kept_for(dht@.welcome, *ipk) <= MAX_WELCOMES_PER_RECIPIENT {
            kept_for(dht@.welcome, *ipk)
        } else {
            (MAX_WELCOMES_PER_RECIPIENT + 1) as nat
        }),
{
    let n: usize = dht.store.welcome.count_under(&stash_prefix(ipk));
    if n > MAX_WELCOMES_PER_RECIPIENT {
        return (MAX_WELCOMES_PER_RECIPIENT + 1, true);
    }
    (n, !dht.store.welcome.readable || n >= MAX_WELCOMES_PER_RECIPIENT)
}

/// The state after `peer` asked for a token, where it did.
pub open spec fn after_draw(dht: DhtView, peer: NodeId, asks: bool) -> DhtView {
    if asks {
        DhtView { welcome_limiters: dht.welcome_limiters.after_ask(peer.bytes@), ..dht }
    } else {
        dht
    }
}

/// The rate limiter can answer `peer` so, where it is asked.
pub open spec fn can_draw(dht: DhtView, peer: NodeId, asks: bool, token: bool) -> bool {
    asks ==> dht.welcome_limiters.can_answer(peer.bytes@, token)
}

/// Calls `rand::rngs::OsRng::try_fill_bytes` for eight random bytes; `None`
/// where the system gives none. The bytes depend on chance, so nothing is
/// claimed of them.
#[verifier::external_body]
fn draw_welcome_id() -> Option<[u8; 8]> {
    let mut id: [u8; 8] = [0u8; 8];
    match rand::TryRngCore::try_fill_bytes(&mut rand::rngs::OsRng, &mut id) {
        Ok(()) => Some(id),
        Err(_) => None,
    }
}

/// What answers a publish before there is a look at the room that is left;
/// `None` where nothing does. The clock comes first, so that a stale request
/// draws no token.
pub open spec fn publish_gate(
    timestamp: u64,
    now_ms: u64,
    token: bool,
    owner: bool,
    verdict: Result<(), WelcomeVerifyError>,
) -> Option<WelcomePublishOutcome> {
    if !within_skew(now_ms, timestamp) {
        Some(WelcomePublishOutcome::StaleTimestamp)
    } else if !token {
        Some(WelcomePublishOutcome::RateLimited)
    } else if !owner {
        Some(WelcomePublishOutcome::NotOwner)
    } else if verdict is Err {
        Some(WelcomePublishOutcome::BadSig)
    } else {
        None
    }
}

/// When an invitation that is stored now expires.
pub open spec fn expiry(now_ms: u64) -> u64 {
    if now_ms + WELCOME_LIFETIME_MS <= u64::MAX {
        (now_ms + WELCOME_LIFETIME_MS) as u64
    } else {
        u64::MAX
    }
}

/// What a publish does to the invitations and what becomes of it, given the
/// token, the ownership, the verdict on the envelope and the id that was
/// drawn.
pub open spec fn published(
    ks: KeyspaceView<StoredWelcomeView>,
    env: EnvelopeView,
    timestamp: u64,
    now_ms: u64,
    token: bool,
    owner: bool,
    verdict: Result<(), WelcomeVerifyError>,
    id: Option<[u8; 8]>,
) -> (KeyspaceView<StoredWelcomeView>, WelcomePublishOutcome) {
    match publish_gate(timestamp, now_ms, token, owner, verdict) {
        Some(outcome) => (ks, outcome),
        None => if is_full(ks, env.recipient_ipk) {
            (ks, WelcomePublishOutcome::QueueFull)
        } else if id is None || !ks.writable {
            (ks, WelcomePublishOutcome::BadSig)
        } else {
            (
                ks.with_rows(
                    with_row(
                        ks.rows,
                        welcome_key(env.recipient_ipk, id->0),
                        StoredWelcomeView { expires_at_ms: expiry(now_ms), envelope: env },
                    ),
                ),
                WelcomePublishOutcome::Stored,
            )
        },
    }
}

/// Keeps an invitation, given the token, the ownership, the verdict on the
/// envelope and the id that was drawn.
pub fn answer_publish(
    dht: &mut Dht,
    req: &WelcomePublishReq,
    now_ms: u64,
    token: bool,
    owner: bool,
    verdict: Result<(), WelcomeVerifyError>,
    id: Option<[u8; 8]>,
) -> (r: WelcomePublishOutcome)
    requires
        old(dht).wf(),
    ensures
        final(dht).wf(),
        ({
            let p = published(
                old(dht)@.welcome,
                req.envelope@,
                req.timestamp,
                now_ms,
                token,
                owner,
                verdict,
                id,
            );
            &&& r == p.1
            &&& final(dht)@ == (DhtView { welcome: p.0, ..old(dht)@ })
        }),
{
    if !skew_ok(now_ms, req.timestamp) {
        return WelcomePublishOutcome::StaleTimestamp;
    }
    if !token {
        return WelcomePublishOutcome::RateLimited;
    }
    if !owner {
        return WelcomePublishOutcome::NotOwner;
    }
    if verdict.is_err() {
        return WelcomePublishOutcome::BadSig;
    }
    let (_count, full): (usize, bool) = welcome_count_bounded(dht, &req.envelope.recipient_ipk);
    if full {
        return WelcomePublishOutcome::QueueFull;
    }
    let welcome_id: [u8; 8] = match id {
        Some(id) => id,
        None => {
            return WelcomePublishOutcome::BadSig;
        },
    };
    let key: Vec<u8> = storage_key(&req.envelope.recipient_ipk, &welcome_id);
    let stored = StoredWelcome {
        expires_at_ms: now_ms.saturating_add(WELCOME_LIFETIME_MS),
        envelope: req.envelope.copy(),
    };
    match dht.store.welcome.put(key, stored) {
        Ok(()) => WelcomePublishOutcome::Stored,
        Err(_) => WelcomePublishOutcome::BadSig,
    }
}

/// Keeps an invitation for its recipient under an id of its own. A publish
/// within the clock skew draws a token of `peer`. The first one it gets; what
/// the rate limiter says later depends on the clock, and the id on chance.
pub fn handle_welcome_publish(dht: &mut Dht, req: &WelcomePublishReq, peer: &NodeId, now_ms: u64) -> (r:
    WelcomePublishOutcome)
    requires
        old(dht).wf(),
    ensures
        final(dht).wf(),
        exists|token: bool, id: Option<[u8; 8]>| #[trigger]
            publish_handled(old(dht)@, final(dht)@, *req, *peer, now_ms, token, id, r),
{
    let fresh: bool = skew_ok(now_ms, req.timestamp);
    let token: bool = fresh && dht.welcome_limiters.check(peer).is_ok();
    let owner: bool = token && self_is_owner_for_recipient(dht, &req.envelope.recipient_ipk);
    let verdict: Result<(), WelcomeVerifyError> = if owner {
        verify_welcome_envelope(&req.envelope, &req.transcript)
    } else {
        Err(WelcomeVerifyError::BadSig)
    };
    let id: Option<[u8; 8]> = if verdict.is_ok() {
        draw_welcome_id()
    } else {
        None
    };
    let r: WelcomePublishOutcome = answer_publish(dht, req, now_ms, token, owner, verdict, id);
    assert(publish_handled(old(dht)@, dht@, *req, *peer, now_ms, token, id, r));
    r
}

/// What a publish does to the state and what it answers, given what the rate
/// limiter said and the id that was drawn.
pub open spec fn publish_answered(
    before: DhtView,
    after: DhtView,
    req: WelcomePublishReq,
    now_ms: u64,
    token: bool,
    id: Option<[u8; 8]>,
    r: WelcomePublishOutcome,
) -> bool {
    let p = published(
        before.welcome,
        req.envelope@,
        req.timestamp,
        now_ms,
        token,
        owns_stash(before, req.envelope.recipient_ipk),
        verdict_on(req.envelope@, req.transcript@),
        id,
    );
    &&& r == p.1
    &&& after == (DhtView { welcome: p.0, ..before })
}

/// What a publish does to the state and what it answers, the token that it
/// draws along with the rest, given what the rate limiter says and the id that
/// was drawn.
pub open spec fn publish_handled(
    before: DhtView,
    after: DhtView,
    req: WelcomePublishReq,
    peer: NodeId,
    now_ms: u64,
    token: bool,
    id: Option<[u8; 8]>,
    r: WelcomePublishOutcome,
) -> bool {
    let asks = within_skew(now_ms, req.timestamp);
    &&& can_draw(before, peer, asks, token)
    &&& publish_answered(after_draw(before, peer, asks), after, req, now_ms, token, id, r)
}

// ---------------------------------------------------------------------------
// Fetching
// ---------------------------------------------------------------------------

/// The rows of a user's invitations that can be decoded, in the order of their
/// ids.
pub open spec fn welcome_rows(ks: KeyspaceView<StoredWelcomeView>, ipk: [u8; 32]) -> Seq<RowView<StoredWelcomeView>> {
    ks.rows.filter(decoded_under(stash_of(ipk)@, STORAGE_KEY_LEN as nat))
}

/// The rows whose invitation has not expired.
pub open spec fn live_at(now_ms: u64) -> spec_fn(RowView<StoredWelcomeView>) -> bool {
    |r: RowView<StoredWelcomeView>| r.1 is Some && r.1->0.expires_at_ms > now_ms
}

/// The rows whose invitation has expired.
pub open spec fn dead_at(now_ms: u64) -> spec_fn(RowView<StoredWelcomeView>) -> bool {
    |r: RowView<StoredWelcomeView>| r.1 is Some && r.1->0.expires_at_ms <= now_ms
}

/// How many rows a fetch looks at until it has `room` that have not expired.
pub open spec fn walked(rows: Seq<RowView<StoredWelcomeView>>, now_ms: u64, room: nat) -> nat
    decreases rows.len(),
{
    if rows.len() == 0 || room == 0 {
        0
    } else {
        1 + walked(
            rows.drop_first(),
            now_ms,
            if live_at(now_ms)(rows[0]) {
                (room - 1) as nat
            } else {
                room
            },
        )
    }
}

/// The rows that a fetch looks at.
pub open spec fn looked_at(rows: Seq<RowView<StoredWelcomeView>>, now_ms: u64) -> Seq<RowView<StoredWelcomeView>> {
    rows.take(walked(rows, now_ms, MAX_WELCOMES_PER_RECIPIENT as nat) as int)
}

/// The entries tell of these rows, one for one.
pub open spec fn tells_of(rows: Seq<RowView<StoredWelcomeView>>, entries: Seq<WelcomeEntry>) -> bool {
    &&& entries.len() == rows.len()
    &&& forall|i: int|
        0 <= i < entries.len() ==> {
            &&& (#[trigger] entries[i]).welcome_id@ == rows[i].0.subrange(32, 40)
            &&& rows[i].1 matches Some(w)
            &&& entries[i].envelope@ == w.envelope
        }
}

/// The invitations after a fetch: those that it found expired are gone, where
/// the medium takes the deletion.
pub open spec fn after_fetch(ks: KeyspaceView<StoredWelcomeView>, ipk: [u8; 32], now_ms: u64) -> KeyspaceView<
    StoredWelcomeView,
> {
    if ks.writable {
        ks.with_rows(
            ks.rows.filter(
                apart_from(keys_of(looked_at(welcome_rows(ks, ipk), now_ms).filter(dead_at(now_ms)))),
            ),
        )
    } else {
        ks
    }
}

/// Lists a user's invitations that have not expired and deletes those that
/// have.
pub fn list_welcomes(dht: &mut Dht, ipk: &[u8; 32], now_ms: u64) -> (r: Vec<WelcomeEntry>)
    requires
        old(dht).wf(),
    ensures
        final(dht).wf(),
        tells_of(looked_at(welcome_rows(old(dht)@.welcome, *ipk), now_ms).filter(live_at(now_ms)), r@),
        final(dht)@ == (DhtView { welcome: after_fetch(old(dht)@.welcome, *ipk, now_ms), ..old(dht)@ }),
{
    let ghost rows = dht@.welcome.rows;
    let ghost all = welcome_rows(dht@.welcome, *ipk);
    let ghost live = live_at(now_ms);
    let ghost dead = dead_at(now_ms);
    let prefix: [u8; 32] = stash_prefix(ipk);
    let mut keys: Vec<Vec<u8>> = Vec::new();
    let mut out: Vec<WelcomeEntry> = Vec::new();
    proof {
        lemma_filter_empty(all, live);
        lemma_filter_empty(all, dead);
    }
    let places: Vec<usize> = dht.store.welcome.scan(&prefix, STORAGE_KEY_LEN);
    proof {
        law_filter_keeps_order(rows, decoded_under::<StoredWelcomeView>(prefix@, STORAGE_KEY_LEN as nat));
        assert(all.skip(0) =~= all);
    }
    let mut i: usize = 0;
    while i < places.len() && out.len() < MAX_WELCOMES_PER_RECIPIENT
        invariant
            0 <= i <= places.len(),
            out.len() <= MAX_WELCOMES_PER_RECIPIENT,
            dht@.welcome.rows == rows,
            is_scan(rows, prefix@, STORAGE_KEY_LEN as nat, places@),
            all == rows.filter(decoded_under::<StoredWelcomeView>(prefix@, STORAGE_KEY_LEN as nat)),
            live == live_at(now_ms),
            dead == dead_at(now_ms),
            forall|k: int|
                0 <= k < all.len() ==> decoded_under::<StoredWelcomeView>(prefix@, STORAGE_KEY_LEN as nat)(
                    #[trigger] all[k],
                ),
            tells_of(all.take(i as int).filter(live), out@),
            strings(keys@) == keys_of(all.take(i as int).filter(dead)),
            walked(all, now_ms, MAX_WELCOMES_PER_RECIPIENT as nat) == i + walked(
                all.skip(i as int),
                now_ms,
                (MAX_WELCOMES_PER_RECIPIENT - out.len()) as nat,
            ),
        decreases places.len() - i,
    {
        let row = &dht.store.welcome.rows[places[i]];
        let ghost keys0 = keys@;
        proof {
            assert(rows[places@[i as int] as int] == row.row_view());
            assert(decoded_under::<StoredWelcomeView>(prefix@, STORAGE_KEY_LEN as nat)(all[i as int]));
            assert(all.skip(i as int)[0] == all[i as int]);
            assert(all.skip(i as int).drop_first() =~= all.skip(i + 1));
            lemma_filter_step(all, live, i as int);
            lemma_filter_step(all, dead, i as int);
        }
        if let Some(w) = &row.value {
            if w.expires_at_ms <= now_ms {
                keys.push(copy_bytes(&row.key));
                assert(strings(keys@) =~= strings(keys0).push(all[i as int].0));
                assert(strings(keys@) =~= keys_of(all.take(i + 1).filter(dead)));
            } else {
                out.push(WelcomeEntry { welcome_id: take8(&row.key, 32), envelope: w.envelope.copy() });
            }
        }
        i = i + 1;
    }
    proof {
        assert(strings(keys@) =~= keys_of(looked_at(all, now_ms).filter(dead)));
    }
    dht.store.welcome.delete_each(&keys);
    out
}

/// What answers a fetch before the invitations are looked at; `None` where
/// nothing does.
pub open spec fn fetch_gate(
    bound: bool,
    fresh: bool,
    token: bool,
    owner: bool,
    signed: bool,
) -> Option<WelcomeFetchOutcome> {
    if !bound || !fresh {
        Some(WelcomeFetchOutcome::BadSig)
    } else if !token {
        Some(WelcomeFetchOutcome::RateLimited)
    } else if !owner {
        Some(WelcomeFetchOutcome::NotOwner)
    } else if !signed {
        Some(WelcomeFetchOutcome::BadSig)
    } else {
        None
    }
}

/// What a fetch does to the state and what it answers, given what the rate
/// limiter said, whether this relay is a home and whether the user signed.
pub open spec fn fetch_answered(
    before: DhtView,
    after: DhtView,
    req: WelcomeFetchReq,
    peer: NodeId,
    now_ms: u64,
    token: bool,
    owner: bool,
    signed: bool,
    r: WelcomeFetchOutcome,
) -> bool {
    match fetch_gate(req.requester_relay_id == peer, within_skew(now_ms, req.timestamp), token, owner, signed) {
        Some(outcome) => r == outcome && after == before,
        None => {
            &&& r matches WelcomeFetchOutcome::Found(entries)
            &&& tells_of(
                looked_at(welcome_rows(before.welcome, req.user_ipk), now_ms).filter(live_at(now_ms)),
                entries@,
            )
            &&& after == (DhtView { welcome: after_fetch(before.welcome, req.user_ipk, now_ms), ..before })
        },
    }
}

/// Answers a fetch, given what the rate limiter said, whether this relay is a
/// home and whether the user signed.
pub fn answer_fetch(
    dht: &mut Dht,
    req: &WelcomeFetchReq,
    peer: &NodeId,
    now_ms: u64,
    token: bool,
    owner: bool,
    signed: bool,
) -> (r: WelcomeFetchOutcome)
    requires
        old(dht).wf(),
    ensures
        final(dht).wf(),
        fetch_answered(old(dht)@, final(dht)@, *req, *peer, now_ms, token, owner, signed, r),
{
    if !req.requester_relay_id.same(peer) {
        return WelcomeFetchOutcome::BadSig;
    }
    if !skew_ok(now_ms, req.timestamp) {
        return WelcomeFetchOutcome::BadSig;
    }
    if !token {
        return WelcomeFetchOutcome::RateLimited;
    }
    if !owner {
        return WelcomeFetchOutcome::NotOwner;
    }
    if !signed {
        return WelcomeFetchOutcome::BadSig;
    }
    WelcomeFetchOutcome::Found(list_welcomes(dht, &req.user_ipk, now_ms))
}

/// What a fetch does to the state and what it answers, the token that it draws
/// along with the rest, given what the rate limiter says.
pub open spec fn fetch_handled(
    before: DhtView,
    after: DhtView,
    req: WelcomeFetchReq,
    peer: NodeId,
    now_ms: u64,
    token: bool,
    r: WelcomeFetchOutcome,
) -> bool {
    let asks = req.requester_relay_id == peer && within_skew(now_ms, req.timestamp);
    let owner = owns_stash(before, req.user_ipk);
    let signed = ed25519_signed(req.user_ipk@, req.transcript@, req.user_sig@);
    &&& can_draw(before, peer, asks, token)
    &&& fetch_answered(after_draw(before, peer, asks), after, req, peer, now_ms, token, owner, signed, r)
}

/// Lists a user's invitations for the relay that the user's request names. A
/// fetch by that relay within the clock skew draws a token of it. The first
/// one it gets; what the rate limiter says later depends on the clock.
pub fn handle_welcome_fetch(dht: &mut Dht, req: &WelcomeFetchReq, peer: &NodeId, now_ms: u64) -> (r:
    WelcomeFetchOutcome)
    requires
        old(dht).wf(),
    ensures
        final(dht).wf(),
        ({
            ||| fetch_handled(old(dht)@, final(dht)@, *req, *peer, now_ms, true, r)
            ||| fetch_handled(old(dht)@, final(dht)@, *req, *peer, now_ms, false, r)
        }),
{
    let fresh: bool = req.requester_relay_id.same(peer) && skew_ok(now_ms, req.timestamp);
    let token: bool = fresh && dht.welcome_limiters.check(peer).is_ok();
    let owner: bool = token && self_is_owner_for_recipient(dht, &req.user_ipk);
    let signed: bool = owner && signature_holds(&req.user_ipk, &req.transcript, &req.user_sig);
    let r: WelcomeFetchOutcome = answer_fetch(dht, req, peer, now_ms, token, owner, signed);
    assert(fetch_handled(old(dht)@, dht@, *req, *peer, now_ms, token, r));
    r
}

// ---------------------------------------------------------------------------
// Acknowledging
// ---------------------------------------------------------------------------

/// An acknowledgement is honoured when it lists no more ids than one may, is
/// sent by the relay that it names, within the clock skew, while that relay
/// has a token, to a home of the user, who signed it.
pub open spec fn ack_gate(
    count: nat,
    limit: nat,
    bound: bool,
    fresh: bool,
    token: bool,
    owner: bool,
    signed: bool,
) -> bool {
    count <= limit && bound && fresh && token && owner && signed
}

/// The keys of these invitations.
pub open spec fn keys_of_ids(ipk: [u8; 32], ids: Seq<[u8; 8]>) -> Seq<Seq<u8>> {
    Seq::new(ids.len(), |i: int| welcome_key(ipk, ids[i]))
}

/// The invitations after those with these ids were deleted, where the medium
/// takes the deletion.
pub open spec fn after_ack(ks: KeyspaceView<StoredWelcomeView>, ipk: [u8; 32], ids: Seq<[u8; 8]>) -> KeyspaceView<
    StoredWelcomeView,
> {
    if ks.writable {
        ks.with_rows(ks.rows.filter(apart_from(keys_of_ids(ipk, ids))))
    } else {
        ks
    }
}

/// What an acknowledgement does to the state and what it answers, given what
/// the rate limiter said, whether this relay is a home and whether the user
/// signed.
pub open spec fn ack_answered(
    before: DhtView,
    after: DhtView,
    req: WelcomeAckReq,
    peer: NodeId,
    now_ms: u64,
    token: bool,
    owner: bool,
    signed: bool,
    r: WelcomeAckResp,
) -> bool {
    if ack_gate(
        req.welcome_ids@.len(),
        before.limits.max_welcome_ack_ids as nat,
        req.requester_relay_id == peer,
        within_skew(now_ms, req.timestamp),
        token,
        owner,
        signed,
    ) {
        &&& r.ok == (req.welcome_ids@.len() == 0 || before.welcome.writable)
        &&& after == (DhtView { welcome: after_ack(before.welcome, req.user_ipk, req.welcome_ids@), ..before })
    } else {
        !r.ok && after == before
    }
}

/// Answers an acknowledgement, given what the rate limiter said, whether this
/// relay is a home and whether the user signed.
pub fn answer_ack(
    dht: &mut Dht,
    req: &WelcomeAckReq,
    peer: &NodeId,
    now_ms: u64,
    token: bool,
    owner: bool,
    signed: bool,
) -> (r: WelcomeAckResp)
    requires
        old(dht).wf(),
    ensures
        final(dht).wf(),
        ack_answered(old(dht)@, final(dht)@, *req, *peer, now_ms, token, owner, signed, r),
{
    if req.welcome_ids.len() > dht.limits.max_welcome_ack_ids {
        return WelcomeAckResp { ok: false };
    }
    if !req.requester_relay_id.same(peer) {
        return WelcomeAckResp { ok: false };
    }
    if !skew_ok(now_ms, req.timestamp) {
        return WelcomeAckResp { ok: false };
    }
    if !token || !owner || !signed {
        return WelcomeAckResp { ok: false };
    }
    let mut keys: Vec<Vec<u8>> = Vec::new();
    let mut i: usize = 0;
    while i < req.welcome_ids.len()
        invariant
            0 <= i <= req.welcome_ids.len(),
            keys.len() == i,
            forall|k: int| 0 <= k < i ==> (#[trigger] keys@[k])@ == welcome_key(req.user_ipk, req.welcome_ids@[k]),
        decreases req.welcome_ids.len() - i,
    {
        keys.push(storage_key(&req.user_ipk, &req.welcome_ids[i]));
        i = i + 1;
    }
    assert(strings(keys@) =~= keys_of_ids(req.user_ipk, req.welcome_ids@));
    let ok: bool = dht.store.welcome.delete_each(&keys);
    WelcomeAckResp { ok }
}

/// What an acknowledgement does to the state and what it answers, the token
/// that it draws along with the rest, given what the rate limiter says.
pub open spec fn ack_handled(
    before: DhtView,
    after: DhtView,
    req: WelcomeAckReq,
    peer: NodeId,
    now_ms: u64,
    token: bool,
    r: WelcomeAckResp,
) -> bool {
    let asks = req.welcome_ids@.len() <= before.limits.max_welcome_ack_ids && req.requester_relay_id == peer
        && within_skew(now_ms, req.timestamp);
    let owner = owns_stash(before, req.user_ipk);
    let signed = ed25519_signed(req.user_ipk@, req.transcript@, req.user_sig@);
    &&& can_draw(before, peer, asks, token)
    &&& ack_answered(after_draw(before, peer, asks), after, req, peer, now_ms, token, owner, signed, r)
}

/// Deletes invitations that their recipient has. An acknowledgement of no more
/// ids than one may list, by the relay that it names, within the clock skew,
/// draws a token of that relay. The first one it gets; what the rate limiter
/// says later depends on the clock.
pub fn handle_welcome_ack(dht: &mut Dht, req: &WelcomeAckReq, peer: &NodeId, now_ms: u64) -> (r: WelcomeAckResp)
    requires
        old(dht).wf(),
    ensures
        final(dht).wf(),
        ({
            ||| ack_handled(old(dht)@, final(dht)@, *req, *peer, now_ms, true, r)
            ||| ack_handled(old(dht)@, final(dht)@, *req, *peer, now_ms, false, r)
        }),
{
    let fresh: bool = req.welcome_ids.len() <= dht.limits.max_welcome_ack_ids && req.requester_relay_id.same(peer)
        && skew_ok(now_ms, req.timestamp);
    let token: bool = fresh && dht.welcome_limiters.check(peer).is_ok();
    let owner: bool = token && self_is_owner_for_recipient(dht, &req.user_ipk);
    let signed: bool = owner && signature_holds(&req.user_ipk, &req.transcript, &req.user_sig);
    let r: WelcomeAckResp = answer_ack(dht, req, peer, now_ms, token, owner, signed);
    assert(ack_handled(old(dht)@, dht@, *req, *peer, now_ms, token, r));
    r
}

// ---------------------------------------------------------------------------
// Closing
// ---------------------------------------------------------------------------

/// Why the connection is closed after a publish, where it is.
pub fn close_reason_for_publish(outcome: WelcomePublishOutcome) -> (r: Option<CloseReason>)
    ensures
        r == (match outcome {
            WelcomePublishOutcome::BadSig => Some(CloseReason::WelcomeMalformed),
            WelcomePublishOutcome::RateLimited => Some(CloseReason::WelcomeRateLimited),
            WelcomePublishOutcome::QueueFull => Some(CloseReason::WelcomeQueueFull),
            WelcomePublishOutcome::Stored
            | WelcomePublishOutcome::NotOwner
            | WelcomePublishOutcome::StaleTimestamp => None,
        }),
{
    match outcome {
        WelcomePublishOutcome::BadSig => Some(CloseReason::WelcomeMalformed),
        WelcomePublishOutcome::RateLimited => Some(CloseReason::WelcomeRateLimited),
        WelcomePublishOutcome::QueueFull => Some(CloseReason::WelcomeQueueFull),
        WelcomePublishOutcome::Stored
        | WelcomePublishOutcome::NotOwner
        | WelcomePublishOutcome::StaleTimestamp => None,
    }
}

/// Why the connection is closed after a fetch, where it is.
pub fn close_reason_for_fetch(outcome: &WelcomeFetchOutcome) -> (r: Option<CloseReason>)
    ensures
        r == (match outcome {
            WelcomeFetchOutcome::BadSig => Some(CloseReason::WelcomeMalformed),
            WelcomeFetchOutcome::RateLimited => Some(CloseReason::WelcomeRateLimited),
            WelcomeFetchOutcome::Found(_) | WelcomeFetchOutcome::NotOwner => None,
        }),
{
    match outcome {
        WelcomeFetchOutcome::BadSig => Some(CloseReason::WelcomeMalformed),
        WelcomeFetchOutcome::RateLimited => Some(CloseReason::WelcomeRateLimited),
        WelcomeFetchOutcome::Found(_) | WelcomeFetchOutcome::NotOwner => None,
    }
}

// ---------------------------------------------------------------------------
// Laws
// ---------------------------------------------------------------------------

/// A fetch that finds no more rows than there is room for looks at all.
pub proof fn lemma_looks_at_all(rows: Seq<RowView<StoredWelcomeView>>, now_ms: u64, room: nat)
    requires
        rows.len() <= room,
    ensures
        walked(rows, now_ms, room) == rows.len(),
    decreases rows.len(),
{
    if rows.len() > 0 {
        let next: nat = if live_at(now_ms)(rows[0]) {
            (room - 1) as nat
        } else {
            room
        };
        lemma_looks_at_all(rows.drop_first(), now_ms, next);
    }
}

/// The rows under a prefix are at least those of them that can be read.
proof fn lemma_fewer_decoded(rows: Seq<RowView<StoredWelcomeView>>, prefix: Seq<u8>, len: nat)
    ensures
        rows.filter(decoded_under(prefix, len)).len() <= rows.filter(under_prefix(prefix)).len(),
    decreases rows.len(),
{
    reveal(Seq::filter);
    if rows.len() > 0 {
        lemma_fewer_decoded(rows.drop_last(), prefix, len);
    }
}

/// A recipient never has more invitations than there is room for.
pub proof fn law_cap_holds(
    ks: KeyspaceView<StoredWelcomeView>,
    env: EnvelopeView,
    timestamp: u64,
    now_ms: u64,
    token: bool,
    owner: bool,
    verdict: Result<(), WelcomeVerifyError>,
    id: Option<[u8; 8]>,
)
    requires
        ks.wf(),
        kept_for(ks, env.recipient_ipk) <= MAX_WELCOMES_PER_RECIPIENT,
    ensures
        kept_for(published(ks, env, timestamp, now_ms, token, owner, verdict, id).0, env.recipient_ipk)
            <= MAX_WELCOMES_PER_RECIPIENT,
{
    if id is Some {
        law_put_filtered(
            ks.rows,
            welcome_key(env.recipient_ipk, id->0),
            StoredWelcomeView { expires_at_ms: expiry(now_ms), envelope: env },
            under_prefix::<StoredWelcomeView>(stash_of(env.recipient_ipk)@),
        );
    }
}

/// What was published is listed: until it expires, a fetch by its recipient
/// lists an invitation that was stored, under the id it was stored with.
pub proof fn law_published_is_listed(
    ks: KeyspaceView<StoredWelcomeView>,
    env: EnvelopeView,
    timestamp: u64,
    now_ms: u64,
    token: bool,
    owner: bool,
    verdict: Result<(), WelcomeVerifyError>,
    id: Option<[u8; 8]>,
    later_ms: u64,
    entries: Seq<WelcomeEntry>,
)
    requires
        ks.wf(),
        published(ks, env, timestamp, now_ms, token, owner, verdict, id).1 == WelcomePublishOutcome::Stored,
        later_ms < expiry(now_ms),
        ({
            let after = published(ks, env, timestamp, now_ms, token, owner, verdict, id).0;
            tells_of(
                looked_at(welcome_rows(after, env.recipient_ipk), later_ms).filter(live_at(later_ms)),
                entries,
            )
        }),
    ensures
        id is Some,
        exists|i: int|
            0 <= i < entries.len() && (#[trigger] entries[i]).welcome_id == id->0 && entries[i].envelope@ == env,
{
    let after = published(ks, env, timestamp, now_ms, token, owner, verdict, id).0;
    let key = welcome_key(env.recipient_ipk, id->0);
    let value = StoredWelcomeView { expires_at_ms: expiry(now_ms), envelope: env };
    let prefix = stash_of(env.recipient_ipk)@;
    let readable = decoded_under::<StoredWelcomeView>(prefix, STORAGE_KEY_LEN as nat);
    law_put(ks.rows, key, value, key);
    assert(key.take(32) =~= prefix);
    let k = choose|k: int| 0 <= k < after.rows.len() && #[trigger] after.rows[k].0 == key;
    lemma_found_at_slot(after.rows, key, k);
    assert(after.rows[k] == (key, Some(value)));
    law_filter_keeps_order(after.rows, readable);
    let rows = welcome_rows(after, env.recipient_ipk);
    assert(rows.contains(after.rows[k]));
    law_put_filtered(ks.rows, key, value, under_prefix::<StoredWelcomeView>(prefix));
    lemma_fewer_decoded(after.rows, prefix, STORAGE_KEY_LEN as nat);
    lemma_looks_at_all(rows, later_ms, MAX_WELCOMES_PER_RECIPIENT as nat);
    assert(looked_at(rows, later_ms) =~= rows);
    let live = live_at(later_ms);
    law_filter_keeps_order(rows, live);
    let j = choose|j: int| 0 <= j < rows.len() && rows[j] == after.rows[k];
    assert(live(rows[j]));
    let listed = rows.filter(live);
    assert(listed.contains(rows[j]));
    let i = choose|i: int| 0 <= i < listed.len() && listed[i] == rows[j];
    assert(entries[i].welcome_id@ == listed[i].0.subrange(32, 40));
    assert(key.subrange(32, 40) =~= (id->0)@);
    lemma_array_eq(entries[i].welcome_id, id->0);
}

/// A fetch deletes no invitation that has not expired.
pub proof fn law_fetch_keeps_live(
    ks: KeyspaceView<StoredWelcomeView>,
    ipk: [u8; 32],
    now_ms: u64,
    row: RowView<StoredWelcomeView>,
)
    requires
        ks.wf(),
        ks.rows.contains(row),
        !dead_at(now_ms)(row),
    ensures
        after_fetch(ks, ipk, now_ms).rows.contains(row),
{
    let rows = welcome_rows(ks, ipk);
    let seen = looked_at(rows, now_ms);
    let gone = seen.filter(dead_at(now_ms));
    let keep = apart_from::<StoredWelcomeView>(keys_of(gone));
    law_filter_keeps_order(ks.rows, keep);
    let k = choose|k: int| 0 <= k < ks.rows.len() && ks.rows[k] == row;
    if ks.writable {
        if keys_of(gone).contains(row.0) {
            let i = choose|i: int| 0 <= i < keys_of(gone).len() && keys_of(gone)[i] == row.0;
            lemma_walked_bound(rows, now_ms, MAX_WELCOMES_PER_RECIPIENT as nat);
            law_filter_keeps_order(ks.rows, decoded_under::<StoredWelcomeView>(stash_of(ipk)@, STORAGE_KEY_LEN as nat));
            assert(super::keyspace::in_key_order(seen)) by {
                assert forall|a: int, b: int| 0 <= a < b < seen.len() implies super::keyspace::lex_less(
                    #[trigger] seen[a].0,
                    #[trigger] seen[b].0,
                ) by {
                    assert(super::keyspace::lex_less(rows[a].0, rows[b].0));
                }
            }
            law_filter_keeps_order(seen, dead_at(now_ms));
            assert(seen.contains(gone[i]));
            let j = choose|j: int| 0 <= j < seen.len() && seen[j] == gone[i];
            assert(ks.rows.contains(rows[j]));
            let m = choose|m: int| 0 <= m < ks.rows.len() && ks.rows[m] == rows[j];
            assert(dead_at(now_ms)(gone[i]));
            assert(ks.rows[m].0 == row.0);
            lemma_found_at_slot(ks.rows, row.0, m);
            lemma_found_at_slot(ks.rows, row.0, k);
        }
        assert(keep(ks.rows[k]));
    }
}

/// A fetch looks at no more rows than there are.
proof fn lemma_walked_bound(rows: Seq<RowView<StoredWelcomeView>>, now_ms: u64, room: nat)
    ensures
        walked(rows, now_ms, room) <= rows.len(),
    decreases rows.len(),
{
    if rows.len() > 0 && room > 0 {
        let next: nat = if live_at(now_ms)(rows[0]) {
            (room - 1) as nat
        } else {
            room
        };
        lemma_walked_bound(rows.drop_first(), now_ms, next);
    }
}

/// What is acknowledged is gone, and nothing else is: of the rows, those under
/// the keys of the acknowledged ids leave.
pub proof fn law_acked_leave(
    ks: KeyspaceView<StoredWelcomeView>,
    ipk: [u8; 32],
    ids: Seq<[u8; 8]>,
    row: RowView<StoredWelcomeView>,
)
    requires
        ks.wf(),
        ks.writable,
        ks.rows.contains(row),
    ensures
        after_ack(ks, ipk, ids).rows.contains(row) <==> !exists|i: int|
            0 <= i < ids.len() && row.0 == welcome_key(ipk, #[trigger] ids[i]),
{
    let keys = keys_of_ids(ipk, ids);
    let keep = apart_from::<StoredWelcomeView>(keys);
    law_filter_keeps_order(ks.rows, keep);
    let k = choose|k: int| 0 <= k < ks.rows.len() && ks.rows[k] == row;
    let after = ks.rows.filter(keep);
    if after.contains(row) {
        let i = choose|i: int| 0 <= i < after.len() && after[i] == row;
        assert(keep(after[i]));
        if exists|j: int| 0 <= j < ids.len() && row.0 == welcome_key(ipk, #[trigger] ids[j]) {
            let j = choose|j: int| 0 <= j < ids.len() && row.0 == welcome_key(ipk, #[trigger] ids[j]);
            assert(keys[j] == row.0);
        }
    } else {
        if keys.contains(row.0) {
            let j = choose|j: int| 0 <= j < keys.len() && keys[j] == row.0;
            assert(row.0 == welcome_key(ipk, ids[j]));
        } else {
            assert(keep(ks.rows[k]));
        }
    }
}

/// Keeping an invitation for one recipient leaves those of another as they
/// are, where their stash keys differ.
pub proof fn law_stashes_are_apart(
    ks: KeyspaceView<StoredWelcomeView>,
    env: EnvelopeView,
    timestamp: u64,
    now_ms: u64,
    token: bool,
    owner: bool,
    verdict: Result<(), WelcomeVerifyError>,
    id: Option<[u8; 8]>,
    other: [u8; 32],
)
    requires
        ks.wf(),
        stash_of(env.recipient_ipk) != stash_of(other),
    ensures
        welcome_rows(published(ks, env, timestamp, now_ms, token, owner, verdict, id).0, other) == welcome_rows(
            ks,
            other,
        ),
{
    if id is Some {
        let key = welcome_key(env.recipient_ipk, id->0);
        let keep = decoded_under::<StoredWelcomeView>(stash_of(other)@, STORAGE_KEY_LEN as nat);
        assert(key.take(32) =~= stash_of(env.recipient_ipk)@);
        if stash_of(env.recipient_ipk)@ == stash_of(other)@ {
            lemma_array_eq(stash_of(env.recipient_ipk), stash_of(other));
        }
        if has_key(ks.rows, key) {
            let k = choose|k: int| 0 <= k < ks.rows.len() && #[trigger] ks.rows[k].0 == key;
            lemma_found_at_slot(ks.rows, key, k);
        }
        law_put_filtered(
            ks.rows,
            key,
            StoredWelcomeView { expires_at_ms: expiry(now_ms), envelope: env },
            keep,
        );
    }
}

/// Two users have two stash keys, but for a collision of digests.
pub proof fn law_stash_keys_tell_users_apart(a: [u8; 32], b: [u8; 32])
    requires
        a != b,
        !digests_collide(),
    ensures
        stash_of(a) != stash_of(b),
{
    let x = "welcome:".spec_bytes() + a@;
    let y = "welcome:".spec_bytes() + b@;
    let n = "welcome:".spec_bytes().len() as int;
    if x == y {
        assert(x.skip(n) =~= a@);
        assert(y.skip(n) =~= b@);
        lemma_array_eq(a, b);
    }
}

/// An invitation stands under the digest of the word that marks its namespace
/// and the recipient's key, then the eight bytes of its id.
pub proof fn law_welcome_key_layout(ipk: [u8; 32], id: [u8; 8])
    ensures
        welcome_key(ipk, id).len() == 40,
        welcome_key(ipk, id).take(32) == blake3_hash("welcome:".spec_bytes() + ipk@)@,
        welcome_key(ipk, id).skip(32) == id@,
{
    assert(welcome_key(ipk, id).take(32) =~= stash_of(ipk)@);
    assert(welcome_key(ipk, id).skip(32) =~= id@);
}

/// The first eight bytes of a written invitation spell its expiry, and the rest
/// is the envelope.
pub proof fn law_frame_layout(expires_at_ms: u64, envelope: Seq<u8>)
    ensures
        framed(expires_at_ms, envelope).len() == 8 + envelope.len(),
        be_nat(framed(expires_at_ms, envelope).take(8)) == expires_at_ms,
        framed(expires_at_ms, envelope).skip(8) == envelope,
{
    lemma_be_bytes_spell(expires_at_ms);
    assert(framed(expires_at_ms, envelope).take(8) =~= be_bytes(expires_at_ms as nat, 8));
    assert(framed(expires_at_ms, envelope).skip(8) =~= envelope);
}

/// When an envelope passes: its invitation has between one byte and 262144, its
/// sender's key is one, and the sender signed it. It is said to be badly signed
/// exactly where nothing but the signature is wrong.
pub proof fn law_envelope_passes(env: EnvelopeView, transcript: Seq<u8>)
    ensures
        ({
            let whole = 0 < env.welcome_blob.len() <= 262_144 && ed25519_key_parses(env.sender_ipk@);
            let signed = ed25519_signed(env.sender_ipk@, transcript, env.sender_sig@);
            &&& verdict_on(env, transcript) is Ok <==> whole && signed
            &&& verdict_on(env, transcript) == Err::<(), WelcomeVerifyError>(WelcomeVerifyError::BadSig) <==> whole
                && !signed
        }),
{
}

/// What becomes of an invitation that is published: it is stored exactly where
/// the clock of the request is off by a minute at most, the peer has a token,
/// this relay is a home of the recipient, the envelope passes, fewer than 32
/// rows stand in the recipient's stash, an id was drawn and the medium answers.
/// Each refusal has its own place in that order, and none of them changes a row.
pub proof fn law_publish_outcome(
    ks: KeyspaceView<StoredWelcomeView>,
    env: EnvelopeView,
    timestamp: u64,
    now_ms: u64,
    token: bool,
    owner: bool,
    verdict: Result<(), WelcomeVerifyError>,
    id: Option<[u8; 8]>,
)
    ensures
        ({
            let (after, r) = published(ks, env, timestamp, now_ms, token, owner, verdict, id);
            let fresh = now_ms <= timestamp + 60_000 && timestamp <= now_ms + 60_000;
            let kept = ks.rows.filter(
                |row: RowView<StoredWelcomeView>|
                    32 <= row.0.len() && row.0.take(32) == blake3_hash("welcome:".spec_bytes() + env.recipient_ipk@)@,
            ).len();
            let good = fresh && token && owner && verdict is Ok;
            &&& r == WelcomePublishOutcome::StaleTimestamp <==> !fresh
            &&& r == WelcomePublishOutcome::RateLimited <==> fresh && !token
            &&& r == WelcomePublishOutcome::NotOwner <==> fresh && token && !owner
            &&& r == WelcomePublishOutcome::QueueFull <==> good && (!ks.readable || kept >= 32)
            &&& r == WelcomePublishOutcome::Stored <==> good && ks.readable && kept < 32 && id is Some && ks.writable
            &&& r != WelcomePublishOutcome::Stored ==> after == ks
        }),
{
    let raw = |row: RowView<StoredWelcomeView>|
        32 <= row.0.len() && row.0.take(32) == blake3_hash("welcome:".spec_bytes() + env.recipient_ipk@)@;
    super::keyspace::lemma_filter_agree(
        ks.rows,
        under_prefix::<StoredWelcomeView>(stash_of(env.recipient_ipk)@),
        raw,
    );
}

/// An invitation that is stored is stored whole, under its recipient and the id
/// that was drawn, and for thirty days, or as long as the clock goes; what
/// stands under other keys stays.
pub proof fn law_stored_for_thirty_days(
    ks: KeyspaceView<StoredWelcomeView>,
    env: EnvelopeView,
    timestamp: u64,
    now_ms: u64,
    token: bool,
    owner: bool,
    verdict: Result<(), WelcomeVerifyError>,
    id: [u8; 8],
    other: Seq<u8>,
)
    requires
        ks.wf(),
        published(ks, env, timestamp, now_ms, token, owner, verdict, Some(id)).1 == WelcomePublishOutcome::Stored,
        other != blake3_hash("welcome:".spec_bytes() + env.recipient_ipk@)@ + id@,
    ensures
        ({
            let after = published(ks, env, timestamp, now_ms, token, owner, verdict, Some(id)).0;
            let kept = value_at(after.rows, blake3_hash("welcome:".spec_bytes() + env.recipient_ipk@)@ + id@);
            &&& kept matches Some(Some(w))
            &&& w.envelope == env
            &&& now_ms + 30 * 24 * 60 * 60 * 1000 <= u64::MAX ==> w.expires_at_ms == now_ms + 30 * 24 * 60 * 60 * 1000
            &&& now_ms + 30 * 24 * 60 * 60 * 1000 > u64::MAX ==> w.expires_at_ms == u64::MAX
            &&& value_at(after.rows, other) == value_at(ks.rows, other)
        }),
{
    law_put(
        ks.rows,
        welcome_key(env.recipient_ipk, id),
        StoredWelcomeView { expires_at_ms: expiry(now_ms), envelope: env },
        other,
    );
}

/// What a fetch lists stood in the stash of the user, has not expired, and is
/// listed whole under the last eight bytes of its key.
pub proof fn law_listed_is_stored(
    ks: KeyspaceView<StoredWelcomeView>,
    ipk: [u8; 32],
    now_ms: u64,
    entries: Seq<WelcomeEntry>,
    i: int,
)
    requires
        ks.wf(),
        tells_of(looked_at(welcome_rows(ks, ipk), now_ms).filter(live_at(now_ms)), entries),
        0 <= i < entries.len(),
    ensures
        exists|k: int|
            {
                &&& 0 <= k < ks.rows.len()
                &&& (#[trigger] ks.rows[k]).0 == blake3_hash("welcome:".spec_bytes() + ipk@)@ + entries[i].welcome_id@
                &&& ks.rows[k].1 matches Some(w)
                &&& w.expires_at_ms > now_ms
                &&& w.envelope == entries[i].envelope@
            },
{
    let rows = welcome_rows(ks, ipk);
    let seen = looked_at(rows, now_ms);
    let live = live_at(now_ms);
    let readable = decoded_under::<StoredWelcomeView>(stash_of(ipk)@, STORAGE_KEY_LEN as nat);
    lemma_walked_bound(rows, now_ms, MAX_WELCOMES_PER_RECIPIENT as nat);
    law_filter_keeps_order(ks.rows, readable);
    lemma_seen_in_order(ks, ipk, now_ms);
    law_filter_keeps_order(seen, live);
    let listed = seen.filter(live);
    assert(entries[i].welcome_id@ == listed[i].0.subrange(32, 40));
    assert(seen.contains(listed[i]) && live(listed[i]));
    let j = choose|j: int| 0 <= j < seen.len() && seen[j] == listed[i];
    assert(seen[j] == rows[j]);
    assert(ks.rows.contains(rows[j]) && readable(rows[j]));
    let k = choose|k: int| 0 <= k < ks.rows.len() && ks.rows[k] == rows[j];
    let key = ks.rows[k].0;
    assert(key =~= key.take(32) + key.subrange(32, 40));
}

/// The rows that a fetch looks at are in the order of their keys.
proof fn lemma_seen_in_order(ks: KeyspaceView<StoredWelcomeView>, ipk: [u8; 32], now_ms: u64)
    requires
        ks.wf(),
    ensures
        super::keyspace::in_key_order(looked_at(welcome_rows(ks, ipk), now_ms)),
{
    let rows = welcome_rows(ks, ipk);
    let seen = looked_at(rows, now_ms);
    lemma_walked_bound(rows, now_ms, MAX_WELCOMES_PER_RECIPIENT as nat);
    law_filter_keeps_order(ks.rows, decoded_under::<StoredWelcomeView>(stash_of(ipk)@, STORAGE_KEY_LEN as nat));
    assert forall|a: int, b: int| 0 <= a < b < seen.len() implies super::keyspace::lex_less(
        #[trigger] seen[a].0,
        #[trigger] seen[b].0,
    ) by {
        assert(super::keyspace::lex_less(rows[a].0, rows[b].0));
    }
}

/// A fetch lists everything that has not expired, where no more than 32 rows
/// stand in the stash, and leaves none of the stash that has expired, where the
/// medium takes the deletion.
pub proof fn law_fetch_is_complete(
    ks: KeyspaceView<StoredWelcomeView>,
    ipk: [u8; 32],
    now_ms: u64,
    entries: Seq<WelcomeEntry>,
    k: int,
    id: [u8; 8],
)
    requires
        ks.wf(),
        welcome_rows(ks, ipk).len() <= 32,
        tells_of(looked_at(welcome_rows(ks, ipk), now_ms).filter(live_at(now_ms)), entries),
        0 <= k < ks.rows.len(),
        ks.rows[k].0 == blake3_hash("welcome:".spec_bytes() + ipk@)@ + id@,
        ks.rows[k].1 is Some,
    ensures
        (ks.rows[k].1->0).expires_at_ms > now_ms ==> exists|i: int|
            0 <= i < entries.len() && (#[trigger] entries[i]).welcome_id == id && entries[i].envelope@ == (
            ks.rows[k].1->0).envelope,
        (ks.rows[k].1->0).expires_at_ms <= now_ms && ks.writable ==> !after_fetch(ks, ipk, now_ms).rows.contains(
            ks.rows[k],
        ),
{
    let rows = welcome_rows(ks, ipk);
    let row = ks.rows[k];
    let readable = decoded_under::<StoredWelcomeView>(stash_of(ipk)@, STORAGE_KEY_LEN as nat);
    law_filter_keeps_order(ks.rows, readable);
    assert(row.0.take(32) =~= stash_of(ipk)@);
    assert(row.0.subrange(32, 40) =~= id@);
    assert(readable(ks.rows[k]));
    assert(rows.contains(row));
    let j = choose|j: int| 0 <= j < rows.len() && rows[j] == row;
    lemma_looks_at_all(rows, now_ms, MAX_WELCOMES_PER_RECIPIENT as nat);
    let seen = looked_at(rows, now_ms);
    assert(seen =~= rows);
    let live = live_at(now_ms);
    let dead = dead_at(now_ms);
    law_filter_keeps_order(rows, live);
    law_filter_keeps_order(rows, dead);
    if (row.1->0).expires_at_ms > now_ms {
        assert(live(rows[j]));
        let listed = rows.filter(live);
        assert(listed.contains(rows[j]));
        let i = choose|i: int| 0 <= i < listed.len() && listed[i] == row;
        assert(entries[i].welcome_id@ == listed[i].0.subrange(32, 40));
        lemma_array_eq(entries[i].welcome_id, id);
    } else if ks.writable {
        assert(dead(rows[j]));
        let gone = rows.filter(dead);
        assert(gone.contains(rows[j]));
        let i = choose|i: int| 0 <= i < gone.len() && gone[i] == row;
        assert(keys_of(gone)[i] == row.0);
        let keep = apart_from::<StoredWelcomeView>(keys_of(gone));
        law_filter_keeps_order(ks.rows, keep);
        let after = ks.rows.filter(keep);
        if after.contains(row) {
            let m = choose|m: int| 0 <= m < after.len() && after[m] == row;
            assert(keep(after[m]));
        }
    }
}

/// A fetch takes nothing out of the table that has not expired, could not be
/// read, or is another user's.
pub proof fn law_fetch_takes_only_the_expired(
    ks: KeyspaceView<StoredWelcomeView>,
    ipk: [u8; 32],
    now_ms: u64,
    k: int,
)
    requires
        ks.wf(),
        0 <= k < ks.rows.len(),
        ks.rows[k].1 is None || (ks.rows[k].1->0).expires_at_ms > now_ms || ks.rows[k].0.take(32) != blake3_hash(
            "welcome:".spec_bytes() + ipk@,
        )@,
    ensures
        after_fetch(ks, ipk, now_ms).rows.contains(ks.rows[k]),
{
    let row = ks.rows[k];
    if !dead_at(now_ms)(row) {
        law_fetch_keeps_live(ks, ipk, now_ms, row);
    } else {
        let rows = welcome_rows(ks, ipk);
        let seen = looked_at(rows, now_ms);
        let dead = dead_at(now_ms);
        let gone = seen.filter(dead);
        let keep = apart_from::<StoredWelcomeView>(keys_of(gone));
        let readable = decoded_under::<StoredWelcomeView>(stash_of(ipk)@, STORAGE_KEY_LEN as nat);
        law_filter_keeps_order(ks.rows, keep);
        if ks.writable && keys_of(gone).contains(row.0) {
            let i = choose|i: int| 0 <= i < keys_of(gone).len() && keys_of(gone)[i] == row.0;
            lemma_walked_bound(rows, now_ms, MAX_WELCOMES_PER_RECIPIENT as nat);
            law_filter_keeps_order(ks.rows, readable);
            lemma_seen_in_order(ks, ipk, now_ms);
            law_filter_keeps_order(seen, dead);
            assert(seen.contains(gone[i]));
            let j = choose|j: int| 0 <= j < seen.len() && seen[j] == gone[i];
            assert(seen[j] == rows[j]);
            assert(readable(rows[j]));
            assert(row.0.take(32) =~= stash_of(ipk)@);
        }
        assert(ks.writable ==> keep(ks.rows[k]));
    }
}

/// When a fetch lists anything: the relay that it names sent it, its clock is
/// off by a minute at most, the peer has a token, this relay is a home of the
/// user, and the user signed it. Every other fetch leaves the stashes as they
/// are.
pub proof fn law_fetch_needs_all_of_it(
    before: DhtView,
    after: DhtView,
    req: WelcomeFetchReq,
    peer: NodeId,
    now_ms: u64,
    token: bool,
    owner: bool,
    signed: bool,
    r: WelcomeFetchOutcome,
)
    requires
        fetch_answered(before, after, req, peer, now_ms, token, owner, signed, r),
    ensures
        ({
            let bound = req.requester_relay_id == peer && now_ms <= req.timestamp + 60_000 && req.timestamp <= now_ms
                + 60_000;
            &&& r is Found <==> bound && token && owner && signed
            &&& r is RateLimited <==> bound && !token
            &&& r is NotOwner <==> bound && token && !owner
            &&& !(r is Found) ==> after == before
        }),
{
}

/// An acknowledgement goes by all eight bytes of the ids: a row stays unless it
/// stands in the user's stash under exactly one of them; and then it goes, where
/// the medium takes the deletion.
pub proof fn law_only_named_welcomes_leave(
    ks: KeyspaceView<StoredWelcomeView>,
    ipk: [u8; 32],
    ids: Seq<[u8; 8]>,
    k: int,
)
    requires
        ks.wf(),
        0 <= k < ks.rows.len(),
    ensures
        ({
            let key = ks.rows[k].0;
            let after = after_ack(ks, ipk, ids).rows;
            let stash = blake3_hash("welcome:".spec_bytes() + ipk@)@;
            &&& (forall|i: int| 0 <= i < ids.len() ==> (#[trigger] ids[i])@ != key.skip(32)) ==> after.contains(ks.rows[k])
            &&& key.take(32) != stash || key.len() != 40 ==> after.contains(ks.rows[k])
            &&& ks.writable && key.len() == 40 && key.take(32) == stash && (exists|i: int|
                0 <= i < ids.len() && (#[trigger] ids[i])@ == key.skip(32)) ==> !after.contains(ks.rows[k])
        }),
{
    let row = ks.rows[k];
    let key = row.0;
    if ks.writable {
        law_acked_leave(ks, ipk, ids, row);
        let stash = stash_of(ipk)@;
        if !after_ack(ks, ipk, ids).rows.contains(row) {
            let i = choose|i: int| 0 <= i < ids.len() && row.0 == welcome_key(ipk, #[trigger] ids[i]);
            law_welcome_key_layout(ipk, ids[i]);
            assert(ids[i]@ == key.skip(32));
        }
        if key.len() == 40 && key.take(32) == stash && (exists|i: int|
            0 <= i < ids.len() && (#[trigger] ids[i])@ == key.skip(32)) {
            let i = choose|i: int| 0 <= i < ids.len() && (#[trigger] ids[i])@ == key.skip(32);
            assert(key =~= key.take(32) + key.skip(32));
            assert(row.0 == welcome_key(ipk, ids[i]));
        }
    }
}

/// When an acknowledgement takes anything out: it lists no more ids than one
/// may, the relay that it names sent it, its clock is off by a minute at most,
/// the peer has a token, this relay is a home of the user, and the user signed
/// it. It is answered with a yes then, unless the medium fails it, and with a no
/// else.
pub proof fn law_ack_needs_all_of_it(
    before: DhtView,
    after: DhtView,
    req: WelcomeAckReq,
    peer: NodeId,
    now_ms: u64,
    token: bool,
    owner: bool,
    signed: bool,
    r: WelcomeAckResp,
)
    requires
        ack_answered(before, after, req, peer, now_ms, token, owner, signed, r),
    ensures
        ({
            let good = req.welcome_ids@.len() <= before.limits.max_welcome_ack_ids && req.requester_relay_id == peer
                && now_ms <= req.timestamp + 60_000 && req.timestamp <= now_ms + 60_000 && token && owner && signed;
            &&& !good ==> !r.ok && after == before
            &&& good && before.welcome.writable ==> r.ok
            &&& after == (DhtView { welcome: after.welcome, ..before })
        }),
{
}

/// A publish that is answered with a yes had everything: a clock that is off by
/// a minute at most, a home, and a sender who signed; and only the stashes and
/// the peer's tokens changed with it.
pub proof fn law_stored_was_due(
    before: DhtView,
    after: DhtView,
    req: WelcomePublishReq,
    peer: NodeId,
    now_ms: u64,
    token: bool,
    id: Option<[u8; 8]>,
    r: WelcomePublishOutcome,
)
    requires
        publish_handled(before, after, req, peer, now_ms, token, id, r),
    ensures
        r == WelcomePublishOutcome::Stored ==> {
            &&& now_ms <= req.timestamp + 60_000 && req.timestamp <= now_ms + 60_000
            &&& among_k_closest(
                before.routing,
                before.node_id,
                NodeId { bytes: blake3_hash("welcome:".spec_bytes() + req.envelope.recipient_ipk@) },
            )
            &&& ed25519_signed(req.envelope.sender_ipk@, req.transcript@, req.envelope.sender_sig@)
            &&& token
        },
        r != WelcomePublishOutcome::Stored ==> after.welcome == before.welcome,
        after == (DhtView { welcome: after.welcome, welcome_limiters: after.welcome_limiters, ..before }),
        now_ms > req.timestamp + 60_000 || req.timestamp > now_ms + 60_000 ==> after == before,
{
    let drawn = after_draw(before, peer, within_skew(now_ms, req.timestamp));
    law_publish_outcome(
        drawn.welcome,
        req.envelope@,
        req.timestamp,
        now_ms,
        token,
        owns_stash(drawn, req.envelope.recipient_ipk),
        verdict_on(req.envelope@, req.transcript@),
        id,
    );
}

/// A publish draws one token, of the peer that sends it, where its clock is off
/// by a minute at most, and none else. The first one of a peer is not refused
/// for its rate.
pub proof fn law_publish_draws_for_its_peer(
    before: DhtView,
    after: DhtView,
    req: WelcomePublishReq,
    peer: NodeId,
    now_ms: u64,
    token: bool,
    id: Option<[u8; 8]>,
    r: WelcomePublishOutcome,
)
    requires
        publish_handled(before, after, req, peer, now_ms, token, id, r),
    ensures
        ({
            let fresh = now_ms <= req.timestamp + 60_000 && req.timestamp <= now_ms + 60_000;
            let asked = before.welcome_limiters.asked;
            &&& fresh ==> after.welcome_limiters.asked == asked.insert(peer.bytes@)
            &&& !fresh ==> after == before && r == WelcomePublishOutcome::StaleTimestamp
            &&& fresh && !asked.contains(peer.bytes@) ==> r != WelcomePublishOutcome::RateLimited
        }),
{
}

/// A fetch draws one token, of the peer that sends it, where that is the relay
/// that it names and its clock is off by a minute at most. The first one of a
/// peer, signed by its user and sent to a home, is answered with a list.
pub proof fn law_fetch_draws_for_its_peer(
    before: DhtView,
    after: DhtView,
    req: WelcomeFetchReq,
    peer: NodeId,
    now_ms: u64,
    token: bool,
    r: WelcomeFetchOutcome,
)
    requires
        fetch_handled(before, after, req, peer, now_ms, token, r),
    ensures
        ({
            let bound = req.requester_relay_id == peer && now_ms <= req.timestamp + 60_000 && req.timestamp <= now_ms
                + 60_000;
            let home = among_k_closest(
                before.routing,
                before.node_id,
                NodeId { bytes: blake3_hash("welcome:".spec_bytes() + req.user_ipk@) },
            );
            let signed = ed25519_signed(req.user_ipk@, req.transcript@, req.user_sig@);
            let asked = before.welcome_limiters.asked;
            &&& bound ==> after.welcome_limiters.asked == asked.insert(peer.bytes@)
            &&& !bound ==> after == before && r is BadSig
            &&& bound && home && signed && !asked.contains(peer.bytes@) ==> r is Found
            &&& r is Found ==> bound && home && signed
            &&& after == (DhtView { welcome: after.welcome, welcome_limiters: after.welcome_limiters, ..before })
        }),
{
}

/// An acknowledgement draws one token, of the peer that sends it, where it lists
/// no more ids than one may, that peer is the relay that it names, and its clock
/// is off by a minute at most. The first one of a peer, signed by its user and
/// sent to a home, is honoured, unless the medium fails it.
pub proof fn law_ack_draws_for_its_peer(
    before: DhtView,
    after: DhtView,
    req: WelcomeAckReq,
    peer: NodeId,
    now_ms: u64,
    token: bool,
    r: WelcomeAckResp,
)
    requires
        ack_handled(before, after, req, peer, now_ms, token, r),
    ensures
        ({
            let bound = req.welcome_ids@.len() <= before.limits.max_welcome_ack_ids && req.requester_relay_id == peer
                && now_ms <= req.timestamp + 60_000 && req.timestamp <= now_ms + 60_000;
            let home = among_k_closest(
                before.routing,
                before.node_id,
                NodeId { bytes: blake3_hash("welcome:".spec_bytes() + req.user_ipk@) },
            );
            let signed = ed25519_signed(req.user_ipk@, req.transcript@, req.user_sig@);
            let asked = before.welcome_limiters.asked;
            &&& bound ==> after.welcome_limiters.asked == asked.insert(peer.bytes@)
            &&& !bound ==> after == before && !r.ok
            &&& bound && home && signed && !asked.contains(peer.bytes@) && before.welcome.writable ==> r.ok
            &&& r.ok ==> bound && home && signed
            &&& !(home && signed) ==> after.welcome == before.welcome
            &&& after == (DhtView { welcome: after.welcome, welcome_limiters: after.welcome_limiters, ..before })
        }),
{
}

/// A fetch stops as soon as it has found as many as there is room for.
proof fn lemma_walked_finds(rows: Seq<RowView<StoredWelcomeView>>, now_ms: u64, room: nat)
    ensures
        ({
            let n = walked(rows, now_ms, room) as int;
            &&& n <= rows.len()
            &&& rows.take(n).filter(live_at(now_ms)).len() <= room
            &&& n < rows.len() ==> rows.take(n).filter(live_at(now_ms)).len() == room
        }),
    decreases rows.len(),
{
    let live = live_at(now_ms);
    let n = walked(rows, now_ms, room) as int;
    reveal_with_fuel(Seq::filter, 2);
    if rows.len() == 0 || room == 0 {
        assert(rows.take(0).filter(live).len() == 0);
    } else {
        let next: nat = if live(rows[0]) {
            (room - 1) as nat
        } else {
            room
        };
        let rest = rows.drop_first();
        lemma_walked_finds(rest, now_ms, next);
        let one = seq![rows[0]];
        assert(rows.take(n) =~= one + rest.take(n - 1));
        Seq::filter_distributes_over_add(one, rest.take(n - 1), live);
        assert(one.drop_last() =~= Seq::empty());
    }
}

/// A fetch lists the first 32 invitations of the user that have not expired, in
/// the order of their keys, and all of them where there are fewer.
pub proof fn law_fetch_lists_the_first(ks: KeyspaceView<StoredWelcomeView>, ipk: [u8; 32], now_ms: u64, entries: Seq<WelcomeEntry>)
    requires
        tells_of(looked_at(welcome_rows(ks, ipk), now_ms).filter(live_at(now_ms)), entries),
    ensures
        entries.len() <= 32,
        entries.len() <= welcome_rows(ks, ipk).filter(live_at(now_ms)).len(),
        entries.len() < 32 ==> entries.len() == welcome_rows(ks, ipk).filter(live_at(now_ms)).len(),
        forall|i: int|
            0 <= i < entries.len() ==> {
                let row = welcome_rows(ks, ipk).filter(live_at(now_ms))[i];
                &&& (#[trigger] entries[i]).welcome_id@ == row.0.subrange(32, 40)
                &&& row.1 matches Some(w)
                &&& entries[i].envelope@ == w.envelope
            },
{
    let rows = welcome_rows(ks, ipk);
    let live = live_at(now_ms);
    lemma_walked_finds(rows, now_ms, 32);
    let n = walked(rows, now_ms, 32) as int;
    assert(rows =~= rows.take(n) + rows.skip(n));
    Seq::filter_distributes_over_add(rows.take(n), rows.skip(n), live);
    if n == rows.len() {
        assert(rows.take(n) =~= rows);
    }
}

/// An acknowledgement that is answered with success has taken everything that it
/// lists: no row of the user stands under one of its ids any more. One that
/// could not be written is answered with failure.
pub proof fn law_success_means_gone(
    before: DhtView,
    after: DhtView,
    req: WelcomeAckReq,
    peer: NodeId,
    now_ms: u64,
    token: bool,
    owner: bool,
    signed: bool,
    r: WelcomeAckResp,
    i: int,
    k: int,
)
    requires
        before.welcome.wf(),
        ack_answered(before, after, req, peer, now_ms, token, owner, signed, r),
        r.ok,
        0 <= i < req.welcome_ids@.len(),
        0 <= k < after.welcome.rows.len(),
    ensures
        after.welcome.rows[k].0 != blake3_hash("welcome:".spec_bytes() + req.user_ipk@)@ + req.welcome_ids@[i]@,
{
    let keys = keys_of_ids(req.user_ipk, req.welcome_ids@);
    let keep = apart_from::<StoredWelcomeView>(keys);
    law_filter_keeps_order(before.welcome.rows, keep);
    assert(keys[i] == welcome_key(req.user_ipk, req.welcome_ids@[i]));
    assert(keep(after.welcome.rows[k]));
}

} // verus!
