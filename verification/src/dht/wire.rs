//! The values that relays exchange and store.
//!
//! Where a value is signed, the bytes under the signature (its transcript) and
//! the encoding on the wire belong to the codec. A transcript is handed in
//! beside the value it covers.

use super::bytes::{bytes_eq, copy_bytes};
use super::id::NodeId;
use vstd::prelude::*;

verus! {

/// Arrays with the same bytes are the same.
pub proof fn lemma_array_eq<const N: usize>(a: [u8; N], b: [u8; N])
    requires
        a@ == b@,
    ensures
        a == b,
{
    assert(a =~= b);
}

/// Whether two arrays of bytes are the same.
pub fn same_array<const N: usize>(a: &[u8; N], b: &[u8; N]) -> (r: bool)
    ensures
        r == (*a == *b),
{
    let r: bool = bytes_eq(a, b);
    proof {
        if a@ == b@ {
            lemma_array_eq(*a, *b);
        }
    }
    r
}

/// Limits that the wire codec shares with its users.
#[derive(Clone, Copy, Debug, PartialEq, Eq, Structural)]
pub struct WireLimits {
    /// Peers in one `FindNode` answer.
    pub max_find_node_results: usize,
    /// Keys in one record fetch.
    pub max_fetch_record_batch: usize,
    /// How far the clock of a queue request may be off, in milliseconds.
    pub queue_skew_ms: u64,
    /// Ids in one queue acknowledgement.
    pub max_fetch_queue_ack_ids: usize,
    /// Key packages in one batch.
    pub kp_stash_target: usize,
    /// How long a key package lives, in milliseconds.
    pub keypackage_lifetime_ms: u64,
    /// Ids in one welcome acknowledgement.
    pub max_welcome_ack_ids: usize,
}

/// Why a connection is closed.
#[derive(Clone, Copy, Debug, PartialEq, Eq, Structural)]
pub enum CloseReason {
    ShuttingDown,
    PacketMismatch,
    DhtMalformedKey,
    DhtBadSignature,
    DhtClockSkew,
    DhtFlood,
    KeyPackageMalformed,
    KeyPackageExpired,
    KeyPackageRateLimited,
    WelcomeMalformed,
    WelcomeRateLimited,
    WelcomeQueueFull,
}

// ---------------------------------------------------------------------------
// Messages
// ---------------------------------------------------------------------------

/// Where a user is, as the user and the relay signed it.
#[derive(Clone, Copy, Debug, PartialEq, Eq)]
pub struct PresenceRecord {
    pub user_ipk: [u8; 32],
    pub relay_id: NodeId,
    pub relay_pubkey: [u8; 32],
    pub not_before: u64,
    pub not_after: u64,
    pub generation: u64,
    pub capabilities: u16,
    pub user_sig: [u8; 64],
    pub relay_sig: [u8; 64],
}

/// That a user is not anywhere any more, as the relay signed it.
#[derive(Clone, Copy, Debug, PartialEq, Eq)]
pub struct TombstoneRecord {
    pub user_ipk: [u8; 32],
    pub relay_id: NodeId,
    pub relay_pubkey: [u8; 32],
    pub generation: u64,
    pub deleted_at: u64,
    pub relay_sig: [u8; 64],
}

/// What a relay did with a tombstone.
#[derive(Clone, Copy, Debug, PartialEq, Eq, Structural)]
pub enum TombstoneOutcome {
    Stored,
    /// Refused, by the code on the wire.
    Refused { code: u8 },
}

/// What a relay did with a presence record.
#[derive(Clone, Copy, Debug, PartialEq, Eq, Structural)]
pub enum StoreOutcome {
    Stored,
    BadSig,
    /// Refused for another reason, by its code on the wire.
    Refused { code: u8 },
}

/// A message on its way to a user.
#[derive(Debug)]
pub struct DispatchP {
    pub to: [u8; 32],
    pub from: [u8; 32],
    pub id: [u8; 16],
    pub payload: Vec<u8>,
    pub sig: [u8; 64],
}

/// What a [`DispatchP`] holds.
#[verifier::ext_equal]
pub struct DispatchView {
    pub to: [u8; 32],
    pub from: [u8; 32],
    pub id: [u8; 16],
    pub payload: Seq<u8>,
    pub sig: [u8; 64],
}

impl View for DispatchP {
    type V = DispatchView;

    open spec fn view(&self) -> DispatchView {
        DispatchView { to: self.to, from: self.from, id: self.id, payload: self.payload@, sig: self.sig }
    }
}

impl DispatchP {
    /// Another copy of the message.
    pub fn copy(&self) -> (r: DispatchP)
        ensures
            r@ == self@,
    {
        DispatchP {
            to: self.to,
            from: self.from,
            id: self.id,
            payload: copy_bytes(&self.payload),
            sig: self.sig,
        }
    }
}

/// What a home did with a forwarded message.
#[derive(Clone, Copy, Debug, PartialEq, Eq, Structural)]
pub enum ForwardOutcome {
    Delivered,
    Stored,
    QueueFull,
    NotOwner,
    BadSig,
}

/// A request for a user's queued messages.
#[derive(Debug)]
pub struct QueueFetch {
    pub user_ipk: [u8; 32],
    pub requester_relay_id: NodeId,
    pub timestamp: u64,
    pub user_sig: [u8; 64],
    /// The bytes that `user_sig` signs.
    pub transcript: Vec<u8>,
}

/// One page of a user's queue.
#[derive(Debug)]
pub struct QueueFetchResp {
    pub messages: Vec<DispatchP>,
    pub exhausted: bool,
}

/// A user's word that messages arrived.
#[derive(Debug)]
pub struct QueueFetchAck {
    pub user_ipk: [u8; 32],
    pub requester_relay_id: NodeId,
    pub delivered_ids: Vec<[u8; 16]>,
    pub timestamp: u64,
    pub user_sig: [u8; 64],
    /// The bytes that `user_sig` signs.
    pub transcript: Vec<u8>,
}

/// Whether an acknowledgement was honoured.
#[derive(Clone, Copy, Debug, PartialEq, Eq, Structural)]
pub struct QueueFetchAckResp {
    pub ok: bool,
}

// ---------------------------------------------------------------------------
// Key packages
// ---------------------------------------------------------------------------

/// A one-time MLS key package of a user.
#[derive(Debug)]
pub struct KeyPackageRecord {
    pub ipk: [u8; 32],
    pub kp_ref: Vec<u8>,
    pub kp_bytes: Vec<u8>,
    pub expires_at_ms: u64,
    pub owner_sig: [u8; 64],
}

/// What a [`KeyPackageRecord`] holds.
#[verifier::ext_equal]
pub struct RecordView {
    pub ipk: [u8; 32],
    pub kp_ref: Seq<u8>,
    pub kp_bytes: Seq<u8>,
    pub expires_at_ms: u64,
    pub owner_sig: [u8; 64],
}

impl View for KeyPackageRecord {
    type V = RecordView;

    open spec fn view(&self) -> RecordView {
        RecordView {
            ipk: self.ipk,
            kp_ref: self.kp_ref@,
            kp_bytes: self.kp_bytes@,
            expires_at_ms: self.expires_at_ms,
            owner_sig: self.owner_sig,
        }
    }
}

impl KeyPackageRecord {
    /// Another copy of the record.
    pub fn copy(&self) -> (r: KeyPackageRecord)
        ensures
            r@ == self@,
    {
        KeyPackageRecord {
            ipk: self.ipk,
            kp_ref: copy_bytes(&self.kp_ref),
            kp_bytes: copy_bytes(&self.kp_bytes),
            expires_at_ms: self.expires_at_ms,
            owner_sig: self.owner_sig,
        }
    }

    /// Whether two records are the same in every field.
    pub fn same(&self, other: &KeyPackageRecord) -> (r: bool)
        ensures
            r == (self@ == other@),
    {
        let r: bool = same_array(&self.ipk, &other.ipk) && bytes_eq(&self.kp_ref, &other.kp_ref) && bytes_eq(
            &self.kp_bytes,
            &other.kp_bytes,
        ) && self.expires_at_ms == other.expires_at_ms && same_array(&self.owner_sig, &other.owner_sig);
        proof {
            if r {
                assert(self@ =~= other@);
            }
        }
        r
    }
}

/// A record with the bytes that its signature covers.
#[derive(Debug)]
pub struct SignedRecord {
    pub record: KeyPackageRecord,
    /// The bytes that `record.owner_sig` signs.
    pub transcript: Vec<u8>,
}

/// What a [`SignedRecord`] holds.
#[verifier::ext_equal]
pub struct SignedRecordView {
    pub record: RecordView,
    pub transcript: Seq<u8>,
}

impl View for SignedRecord {
    type V = SignedRecordView;

    open spec fn view(&self) -> SignedRecordView {
        SignedRecordView { record: self.record@, transcript: self.transcript@ }
    }
}

/// A batch of key packages from their owner. Publishing and refilling carry
/// the same fields under different transcripts.
#[derive(Debug)]
pub struct KeyPackageBatch {
    pub ipk: [u8; 32],
    pub records: Vec<SignedRecord>,
    pub timestamp: u64,
    pub sig: [u8; 64],
    /// The bytes that `sig` signs.
    pub transcript: Vec<u8>,
}

/// What a [`KeyPackageBatch`] holds.
#[verifier::ext_equal]
pub struct BatchView {
    pub ipk: [u8; 32],
    pub records: Seq<SignedRecordView>,
    pub timestamp: u64,
    pub sig: [u8; 64],
    pub transcript: Seq<u8>,
}

impl View for KeyPackageBatch {
    type V = BatchView;

    open spec fn view(&self) -> BatchView {
        BatchView {
            ipk: self.ipk,
            records: Seq::new(self.records@.len(), |i: int| self.records@[i]@),
            timestamp: self.timestamp,
            sig: self.sig,
            transcript: self.transcript@,
        }
    }
}

/// What became of a published batch.
#[derive(Clone, Copy, Debug, PartialEq, Eq, Structural)]
pub enum KeyPackagePublishOutcome {
    Stored,
    BadSig,
    NotOwner,
    RateLimited,
    Expired,
    TooMany,
    StaticFieldsConflict,
}

/// What became of a refill.
#[derive(Clone, Copy, Debug, PartialEq, Eq, Structural)]
pub enum KeyPackageRefillOutcome {
    Appended,
    BadSig,
    NotOwner,
    RateLimited,
    Expired,
    TooMany,
    StaticFieldsConflict,
}

/// A request for one key package of `target_ipk`.
#[derive(Clone, Copy, Debug, PartialEq, Eq)]
pub struct KeyPackageFetchReq {
    pub target_ipk: [u8; 32],
    pub requester_relay_id: NodeId,
    pub timestamp: u64,
}

/// A key package that was taken out of the stash.
#[derive(Debug)]
pub struct KeyPackageFetchFound {
    pub record: KeyPackageRecord,
    pub remaining: u32,
    pub static_hash: [u8; 32],
}

/// What became of a fetch.
#[derive(Debug)]
pub enum KeyPackageFetchOutcome {
    Found(KeyPackageFetchFound),
    NoStash,
    NotOwner,
    RateLimited,
}

// ---------------------------------------------------------------------------
// Welcomes
// ---------------------------------------------------------------------------

/// An invitation into a group.
#[derive(Debug)]
pub struct WelcomeEnvelopeP {
    pub version: u16,
    pub group_id: [u8; 32],
    pub sender_ipk: [u8; 32],
    pub recipient_ipk: [u8; 32],
    pub welcome_blob: Vec<u8>,
    pub kp_ref_used: [u8; 32],
    pub sender_sig: [u8; 64],
}

/// What a [`WelcomeEnvelopeP`] holds.
#[verifier::ext_equal]
pub struct EnvelopeView {
    pub version: u16,
    pub group_id: [u8; 32],
    pub sender_ipk: [u8; 32],
    pub recipient_ipk: [u8; 32],
    pub welcome_blob: Seq<u8>,
    pub kp_ref_used: [u8; 32],
    pub sender_sig: [u8; 64],
}

impl View for WelcomeEnvelopeP {
    type V = EnvelopeView;

    open spec fn view(&self) -> EnvelopeView {
        EnvelopeView {
            version: self.version,
            group_id: self.group_id,
            sender_ipk: self.sender_ipk,
            recipient_ipk: self.recipient_ipk,
            welcome_blob: self.welcome_blob@,
            kp_ref_used: self.kp_ref_used,
            sender_sig: self.sender_sig,
        }
    }
}

impl WelcomeEnvelopeP {
    /// Another copy of the envelope.
    pub fn copy(&self) -> (r: WelcomeEnvelopeP)
        ensures
            r@ == self@,
    {
        WelcomeEnvelopeP {
            version: self.version,
            group_id: self.group_id,
            sender_ipk: self.sender_ipk,
            recipient_ipk: self.recipient_ipk,
            welcome_blob: copy_bytes(&self.welcome_blob),
            kp_ref_used: self.kp_ref_used,
            sender_sig: self.sender_sig,
        }
    }
}

/// An invitation as it is kept for its recipient.
#[derive(Debug)]
pub struct StoredWelcome {
    pub expires_at_ms: u64,
    pub envelope: WelcomeEnvelopeP,
}

/// What a [`StoredWelcome`] holds.
#[verifier::ext_equal]
pub struct StoredWelcomeView {
    pub expires_at_ms: u64,
    pub envelope: EnvelopeView,
}

impl View for StoredWelcome {
    type V = StoredWelcomeView;

    open spec fn view(&self) -> StoredWelcomeView {
        StoredWelcomeView { expires_at_ms: self.expires_at_ms, envelope: self.envelope@ }
    }
}

/// A request to keep an invitation for its recipient.
#[derive(Debug)]
pub struct WelcomePublishReq {
    pub envelope: WelcomeEnvelopeP,
    /// The bytes that `envelope.sender_sig` signs.
    pub transcript: Vec<u8>,
    pub timestamp: u64,
}

/// What became of a published invitation.
#[derive(Clone, Copy, Debug, PartialEq, Eq, Structural)]
pub enum WelcomePublishOutcome {
    Stored,
    BadSig,
    NotOwner,
    RateLimited,
    QueueFull,
    StaleTimestamp,
}

/// A request for a user's invitations.
#[derive(Debug)]
pub struct WelcomeFetchReq {
    pub user_ipk: [u8; 32],
    pub requester_relay_id: NodeId,
    pub timestamp: u64,
    pub user_sig: [u8; 64],
    /// The bytes that `user_sig` signs.
    pub transcript: Vec<u8>,
}

/// An invitation with the id under which this home keeps it.
#[derive(Debug)]
pub struct WelcomeEntry {
    pub welcome_id: [u8; 8],
    pub envelope: WelcomeEnvelopeP,
}

/// What a [`WelcomeEntry`] holds.
#[verifier::ext_equal]
pub struct WelcomeEntryView {
    pub welcome_id: [u8; 8],
    pub envelope: EnvelopeView,
}

impl View for WelcomeEntry {
    type V = WelcomeEntryView;

    open spec fn view(&self) -> WelcomeEntryView {
        WelcomeEntryView { welcome_id: self.welcome_id, envelope: self.envelope@ }
    }
}

/// What became of a welcome fetch.
#[derive(Debug)]
pub enum WelcomeFetchOutcome {
    Found(Vec<WelcomeEntry>),
    NotOwner,
    RateLimited,
    BadSig,
}

/// A user's word that invitations arrived.
#[derive(Debug)]
pub struct WelcomeAckReq {
    pub user_ipk: [u8; 32],
    pub requester_relay_id: NodeId,
    pub welcome_ids: Vec<[u8; 8]>,
    pub timestamp: u64,
    pub user_sig: [u8; 64],
    /// The bytes that `user_sig` signs.
    pub transcript: Vec<u8>,
}

/// Whether a welcome acknowledgement was honoured.
#[derive(Clone, Copy, Debug, PartialEq, Eq, Structural)]
pub struct WelcomeAckResp {
    pub ok: bool,
}

// ---------------------------------------------------------------------------
// Laws
// ---------------------------------------------------------------------------

/// Two messages with one view agree in every field.
pub proof fn law_messages_show_every_field(a: DispatchP, b: DispatchP)
    ensures
        a@ == b@ <==> a.to == b.to && a.from == b.from && a.id == b.id && a.payload@ == b.payload@ && a.sig == b.sig,
{
}

/// Two key packages with one view agree in every field, and so do two that are
/// signed.
pub proof fn law_records_show_every_field(a: SignedRecord, b: SignedRecord)
    ensures
        a.record@ == b.record@ <==> {
            &&& a.record.ipk == b.record.ipk
            &&& a.record.kp_ref@ == b.record.kp_ref@
            &&& a.record.kp_bytes@ == b.record.kp_bytes@
            &&& a.record.expires_at_ms == b.record.expires_at_ms
            &&& a.record.owner_sig == b.record.owner_sig
        },
        a@ == b@ <==> a.record@ == b.record@ && a.transcript@ == b.transcript@,
{
}

/// Two batches with one view agree in every field and in every record.
pub proof fn law_batches_show_every_field(a: KeyPackageBatch, b: KeyPackageBatch, i: int)
    ensures
        a@ == b@ ==> {
            &&& a.ipk == b.ipk
            &&& a.timestamp == b.timestamp
            &&& a.sig == b.sig
            &&& a.transcript@ == b.transcript@
            &&& a.records@.len() == b.records@.len()
            &&& 0 <= i < a.records@.len() ==> a.records@[i]@ == b.records@[i]@
        },
        a@.records.len() == a.records@.len(),
        0 <= i < a.records@.len() ==> a@.records[i] == a.records@[i]@,
{
    assert(a@.records.len() == a.records@.len());
    assert(b@.records.len() == b.records@.len());
    if a@ == b@ && 0 <= i < a.records@.len() {
        assert(a@.records[i] == a.records@[i]@);
        assert(b@.records[i] == b.records@[i]@);
    }
}

/// Two invitations with one view agree in every field; so do two as they are
/// kept, and two as they are listed.
pub proof fn law_invitations_show_every_field(a: WelcomeEntry, b: WelcomeEntry, c: StoredWelcome, d: StoredWelcome)
    ensures
        a.envelope@ == b.envelope@ <==> {
            &&& a.envelope.version == b.envelope.version
            &&& a.envelope.group_id == b.envelope.group_id
            &&& a.envelope.sender_ipk == b.envelope.sender_ipk
            &&& a.envelope.recipient_ipk == b.envelope.recipient_ipk
            &&& a.envelope.welcome_blob@ == b.envelope.welcome_blob@
            &&& a.envelope.kp_ref_used == b.envelope.kp_ref_used
            &&& a.envelope.sender_sig == b.envelope.sender_sig
        },
        a@ == b@ <==> a.welcome_id == b.welcome_id && a.envelope@ == b.envelope@,
        c@ == d@ <==> c.expires_at_ms == d.expires_at_ms && c.envelope@ == d.envelope@,
{
}

} // verus!
