//! Rate limits on inbound requests.
//!
//! Every request draws on one bucket that all peers share and on a bucket of
//! its peer for the cost class of the request. What a bucket answers depends
//! on the clock, but for the first token that it is asked for, which it always
//! gives; whose bucket is asked, and the decision that follows, are here.

use super::config::{
    RATE_LIMIT_BULK_BURST, RATE_LIMIT_BULK_PER_SEC, RATE_LIMIT_CHEAP_BURST, RATE_LIMIT_CHEAP_PER_SEC,
    RATE_LIMIT_EXPENSIVE_BURST, RATE_LIMIT_EXPENSIVE_PER_SEC,
};
use super::id::NodeId;
use super::wire::lemma_array_eq;
use vstd::prelude::*;

verus! {

/// How a bucket refills: the nanoseconds after which one token returns, and
/// the number of tokens it holds.
pub type Refill = (nat, nat);

/// Buckets by 32-byte key: a `governor::RateLimiter` over its default keyed
/// store and clock.
#[verifier::external_body]
pub struct NodeLimiter {
    inner: governor::RateLimiter<
        [u8; 32],
        governor::state::keyed::DefaultKeyedStateStore<[u8; 32]>,
        governor::clock::DefaultClock,
    >,
}

/// Buckets by a pair of 32-byte keys: a `governor::RateLimiter` over its
/// default keyed store and clock.
#[verifier::external_body]
pub struct PairLimiter {
    inner: governor::RateLimiter<
        ([u8; 32], [u8; 32]),
        governor::state::keyed::DefaultKeyedStateStore<([u8; 32], [u8; 32])>,
        governor::clock::DefaultClock,
    >,
}

/// One bucket for everybody: a direct `governor::RateLimiter`.
#[verifier::external_body]
pub struct GlobalLimiter {
    inner: governor::RateLimiter<
        governor::state::NotKeyed,
        governor::state::InMemoryState,
        governor::clock::DefaultClock,
    >,
}

/// The refill that the limiter was made with.
pub uninterp spec fn node_refill(l: NodeLimiter) -> Refill;

/// The refill that the limiter was made with.
pub uninterp spec fn pair_refill(l: PairLimiter) -> Refill;

/// The refill that the limiter was made with.
pub uninterp spec fn global_refill(l: GlobalLimiter) -> Refill;

/// The keys for which the limiter was asked for a token since it was made.
pub uninterp spec fn node_asked(l: NodeLimiter) -> Set<Seq<u8>>;

/// The pairs for which the limiter was asked for a token since it was made.
pub uninterp spec fn pair_asked(l: PairLimiter) -> Set<(Seq<u8>, Seq<u8>)>;

/// Whether the limiter was asked for a token since it was made.
pub uninterp spec fn global_asked(l: GlobalLimiter) -> bool;

/// What is known of buckets by key: how they refill, and the keys that were
/// asked for.
#[verifier::ext_equal]
pub struct BucketsView {
    pub refill: Refill,
    pub asked: Set<Seq<u8>>,
}

impl BucketsView {
    /// Buckets that were not asked yet.
    pub open spec fn fresh(refill: Refill) -> BucketsView {
        BucketsView { refill, asked: Set::empty() }
    }

    /// The buckets after a token was asked for.
    pub open spec fn after_ask(self, key: Seq<u8>) -> BucketsView {
        BucketsView { asked: self.asked.insert(key), ..self }
    }

    /// The bucket of `key` can answer so: it gives a token where it was not
    /// asked before. Later answers depend on the clock.
    pub open spec fn can_answer(self, key: Seq<u8>, token: bool) -> bool {
        !self.asked.contains(key) ==> token
    }
}

impl View for NodeLimiter {
    type V = BucketsView;

    open spec fn view(&self) -> BucketsView {
        BucketsView { refill: node_refill(*self), asked: node_asked(*self) }
    }
}

/// What is known of buckets by pair: how they refill, and the pairs that were
/// asked for.
#[verifier::ext_equal]
pub struct PairsView {
    pub refill: Refill,
    pub asked: Set<(Seq<u8>, Seq<u8>)>,
}

impl PairsView {
    /// Buckets that were not asked yet.
    pub open spec fn fresh(refill: Refill) -> PairsView {
        PairsView { refill, asked: Set::empty() }
    }

    /// The buckets after a token was asked for.
    pub open spec fn after_ask(self, a: Seq<u8>, b: Seq<u8>) -> PairsView {
        PairsView { asked: self.asked.insert((a, b)), ..self }
    }

    /// The bucket of the pair can answer so: it gives a token where it was not
    /// asked before. Later answers depend on the clock.
    pub open spec fn can_answer(self, a: Seq<u8>, b: Seq<u8>, token: bool) -> bool {
        !self.asked.contains((a, b)) ==> token
    }
}

impl View for PairLimiter {
    type V = PairsView;

    open spec fn view(&self) -> PairsView {
        PairsView { refill: pair_refill(*self), asked: pair_asked(*self) }
    }
}

/// What is known of the bucket that all share: how it refills, and whether it
/// was asked.
#[verifier::ext_equal]
pub struct SharedView {
    pub refill: Refill,
    pub asked: bool,
}

impl View for GlobalLimiter {
    type V = SharedView;

    open spec fn view(&self) -> SharedView {
        SharedView { refill: global_refill(*self), asked: global_asked(*self) }
    }
}

/// Calls `governor::RateLimiter::keyed` with a quota of `Quota::per_second`
/// and `Quota::allow_burst`. Trusted: the limiter is made with a refill of one
/// token every second divided by the rate, and with this burst, and holds no
/// key.
#[verifier::external_body]
fn node_limiter_per_second(rate: u32, burst: u32) -> (r: NodeLimiter)
    requires
        0 < rate <= 1_000_000_000,
        0 < burst,
    ensures
        node_refill(r) == (1_000_000_000nat / rate as nat, burst as nat),
        node_asked(r) == Set::<Seq<u8>>::empty(),
{
    let quota = governor::Quota::per_second(std::num::NonZeroU32::new(rate).unwrap());
    let quota = quota.allow_burst(std::num::NonZeroU32::new(burst).unwrap());
    NodeLimiter { inner: governor::RateLimiter::keyed(quota) }
}

/// Calls `governor::RateLimiter::keyed` with a quota of `Quota::with_period`
/// and `Quota::allow_burst`. Trusted: the limiter is made with a refill of one
/// token every `secs` seconds, and with this burst, and holds no key.
#[verifier::external_body]
fn node_limiter_every(secs: u64, burst: u32) -> (r: NodeLimiter)
    requires
        0 < secs <= 3600,
        0 < burst <= 1_000_000,
    ensures
        node_refill(r) == (1_000_000_000nat * secs as nat, burst as nat),
        node_asked(r) == Set::<Seq<u8>>::empty(),
{
    let quota = governor::Quota::with_period(std::time::Duration::from_secs(secs)).unwrap();
    let quota = quota.allow_burst(std::num::NonZeroU32::new(burst).unwrap());
    NodeLimiter { inner: governor::RateLimiter::keyed(quota) }
}

/// As [`node_limiter_every`], for a limiter by pairs of keys.
#[verifier::external_body]
fn pair_limiter_every(secs: u64, burst: u32) -> (r: PairLimiter)
    requires
        0 < secs <= 3600,
        0 < burst <= 1_000_000,
    ensures
        pair_refill(r) == (1_000_000_000nat * secs as nat, burst as nat),
        pair_asked(r) == Set::<(Seq<u8>, Seq<u8>)>::empty(),
{
    let quota = governor::Quota::with_period(std::time::Duration::from_secs(secs)).unwrap();
    let quota = quota.allow_burst(std::num::NonZeroU32::new(burst).unwrap());
    PairLimiter { inner: governor::RateLimiter::keyed(quota) }
}

/// Calls `governor::RateLimiter::direct` with a quota of `Quota::per_second`
/// and `Quota::allow_burst`. Trusted: the limiter is made with a refill of one
/// token every second divided by the rate, and with this burst, and was not
/// asked yet.
#[verifier::external_body]
fn global_limiter_per_second(rate: u32, burst: u32) -> (r: GlobalLimiter)
    requires
        0 < rate <= 1_000_000_000,
        0 < burst,
    ensures
        global_refill(r) == (1_000_000_000nat / rate as nat, burst as nat),
        !global_asked(r),
{
    let quota = governor::Quota::per_second(std::num::NonZeroU32::new(rate).unwrap());
    let quota = quota.allow_burst(std::num::NonZeroU32::new(burst).unwrap());
    GlobalLimiter { inner: governor::RateLimiter::direct(quota) }
}

/// Calls `governor::RateLimiter::check_key`: draws a token from the bucket of
/// `key` and tells whether there was one. Trusted: a key without a row has a
/// full bucket and gets its token at any time of the clock, the draw is one for
/// this key and no other, and the refill stays. What a key gets that was asked
/// for before depends on the clock and on earlier draws, so nothing is claimed
/// of it: the default clock reads a raw counter that may step back, and then
/// even the rest of a burst can be refused.
#[verifier::external_body]
fn draw_node(l: &mut NodeLimiter, key: &[u8; 32]) -> (r: bool)
    ensures
        node_refill(*final(l)) == node_refill(*old(l)),
        node_asked(*final(l)) == node_asked(*old(l)).insert(key@),
        !node_asked(*old(l)).contains(key@) ==> r,
{
    l.inner.check_key(key).is_ok()
}

/// As [`draw_node`], for a pair of keys.
#[verifier::external_body]
fn draw_pair(l: &mut PairLimiter, a: &[u8; 32], b: &[u8; 32]) -> (r: bool)
    ensures
        pair_refill(*final(l)) == pair_refill(*old(l)),
        pair_asked(*final(l)) == pair_asked(*old(l)).insert((a@, b@)),
        !pair_asked(*old(l)).contains((a@, b@)) ==> r,
{
    l.inner.check_key(&(*a, *b)).is_ok()
}

/// Calls `governor::RateLimiter::check`: draws a token and tells whether there
/// was one. Trusted: the first draw gets its token at any time of the clock,
/// and the refill stays. Later answers depend on the clock, which may step
/// back, and on earlier draws, so nothing is claimed of them.
#[verifier::external_body]
fn draw_global(l: &mut GlobalLimiter) -> (r: bool)
    ensures
        global_refill(*final(l)) == global_refill(*old(l)),
        global_asked(*final(l)),
        !global_asked(*old(l)) ==> r,
{
    l.inner.check().is_ok()
}

/// Calls `governor::RateLimiter::retain_recent`: drops the rows of keys whose
/// bucket is full again, which then answers as one without a row. Which they
/// are depends on the clock, so nothing is claimed of it.
#[verifier::external_body]
fn retain_recent(l: &NodeLimiter) {
    l.inner.retain_recent()
}

/// Calls `governor::RateLimiter::shrink_to_fit`: gives unused memory back.
/// Nothing is claimed of it.
#[verifier::external_body]
fn shrink_to_fit(l: &NodeLimiter) {
    l.inner.shrink_to_fit()
}

/// A rate or burst that is never zero.
fn at_least_one(n: u32) -> (r: u32)
    ensures
        r == (if n == 0 {
            1u32
        } else {
            n
        }),
{
    if n == 0 {
        1
    } else {
        n
    }
}

/// What a request costs to serve.
#[derive(Clone, Copy, Debug, PartialEq, Eq, Structural)]
pub enum RpcClass {
    /// A look at tables in memory.
    Cheap,
    /// A signature check and a write or a bounded scan.
    Expensive,
    /// The heaviest payloads.
    Bulk,
}

/// The kinds of requests between relays.
#[derive(Clone, Copy, Debug, PartialEq, Eq, Structural)]
pub enum RpcKind {
    Ping,
    FindNode,
    FindValue,
    Store,
    Tombstone,
    MerkleSummary,
    MerkleDiff,
    FetchRecord,
    Forward,
    ActivityForward,
    PresenceConsent,
    PresenceState,
    PresenceLease,
    LiveForward,
    PushPseudonymPublish,
    QueueFetch,
    QueueFetchAck,
    KeyPackagePublish,
    KeyPackageFetch,
    KeyPackageRefill,
    WelcomePublish,
    WelcomeFetch,
    WelcomeAck,
}

impl RpcClass {
    /// The cost class of a kind of request: what only looks at tables is
    /// cheap, records and invitations in quantity are bulk, and the rest,
    /// which checks a signature, is expensive.
    pub open spec fn of(kind: RpcKind) -> RpcClass {
        match kind {
            RpcKind::Ping
            | RpcKind::FindNode
            | RpcKind::FindValue
            | RpcKind::MerkleSummary
            | RpcKind::MerkleDiff => RpcClass::Cheap,
            RpcKind::FetchRecord
            | RpcKind::WelcomePublish
            | RpcKind::WelcomeFetch
            | RpcKind::WelcomeAck => RpcClass::Bulk,
            _ => RpcClass::Expensive,
        }
    }

    /// The cost class of a kind of request.
    pub fn for_request(kind: &RpcKind) -> (r: RpcClass)
        ensures
            r == RpcClass::of(*kind),
    {
        match kind {
            RpcKind::Ping
            | RpcKind::FindNode
            | RpcKind::FindValue
            | RpcKind::MerkleSummary
            | RpcKind::MerkleDiff => RpcClass::Cheap,
            RpcKind::Store
            | RpcKind::Tombstone
            | RpcKind::Forward
            | RpcKind::ActivityForward
            | RpcKind::PresenceConsent
            | RpcKind::PresenceState
            | RpcKind::PresenceLease
            | RpcKind::LiveForward
            | RpcKind::PushPseudonymPublish
            | RpcKind::QueueFetch
            | RpcKind::QueueFetchAck
            | RpcKind::KeyPackagePublish
            | RpcKind::KeyPackageFetch
            | RpcKind::KeyPackageRefill => RpcClass::Expensive,
            RpcKind::FetchRecord
            | RpcKind::WelcomePublish
            | RpcKind::WelcomeFetch
            | RpcKind::WelcomeAck => RpcClass::Bulk,
        }
    }
}

/// What is known of the limiters that every inbound request passes.
#[verifier::ext_equal]
pub struct PerPeerView {
    pub cheap: BucketsView,
    pub expensive: BucketsView,
    pub bulk: BucketsView,
    pub global: SharedView,
}

impl PerPeerView {
    /// The buckets of a cost class.
    pub open spec fn of_class(self, class: RpcClass) -> BucketsView {
        match class {
            RpcClass::Cheap => self.cheap,
            RpcClass::Expensive => self.expensive,
            RpcClass::Bulk => self.bulk,
        }
    }

    /// The limiters after a request of `peer`: the shared bucket was asked
    /// and, where it gave a token, that of the peer for the class.
    pub open spec fn after_check(self, peer: NodeId, class: RpcClass, shared: bool) -> PerPeerView {
        let asked = PerPeerView { global: SharedView { asked: true, ..self.global }, ..self };
        if !shared {
            asked
        } else {
            match class {
                RpcClass::Cheap => PerPeerView { cheap: self.cheap.after_ask(peer.bytes@), ..asked },
                RpcClass::Expensive => PerPeerView { expensive: self.expensive.after_ask(peer.bytes@), ..asked },
                RpcClass::Bulk => PerPeerView { bulk: self.bulk.after_ask(peer.bytes@), ..asked },
            }
        }
    }

    /// The shared bucket and that of the peer can answer so.
    pub open spec fn can_answer(self, peer: NodeId, class: RpcClass, shared: bool, own: bool) -> bool {
        &&& !self.global.asked ==> shared
        &&& self.of_class(class).can_answer(peer.bytes@, own)
    }
}

/// What the check of a request comes to, given what the shared bucket answers
/// and what that of its peer would.
pub open spec fn checked(
    before: PerPeerView,
    after: PerPeerView,
    peer: NodeId,
    class: RpcClass,
    shared: bool,
    own: bool,
    r: Result<(), ()>,
) -> bool {
    &&& before.can_answer(peer, class, shared, own)
    &&& after == before.after_check(peer, class, shared)
    &&& r is Ok <==> shared && own
}

/// Limiters that were not asked yet, at the rates of the protocol, under a
/// shared bucket with this rate and burst; zero counts as one.
pub open spec fn fresh_limiters(global_per_sec: u32, global_burst: u32) -> PerPeerView {
    PerPeerView {
        cheap: BucketsView::fresh((10_000_000, 50)),
        expensive: BucketsView::fresh((50_000_000, 10)),
        bulk: BucketsView::fresh((20_000_000, 25)),
        global: SharedView {
            refill: (
                1_000_000_000nat / (if global_per_sec == 0 {
                    1nat
                } else {
                    global_per_sec as nat
                }),
                if global_burst == 0 {
                    1nat
                } else {
                    global_burst as nat
                },
            ),
            asked: false,
        },
    }
}

/// The limiters that every inbound request passes.
pub struct PerPeerLimiters {
    pub cheap: NodeLimiter,
    pub expensive: NodeLimiter,
    pub bulk: NodeLimiter,
    pub global: GlobalLimiter,
}

impl View for PerPeerLimiters {
    type V = PerPeerView;

    open spec fn view(&self) -> PerPeerView {
        PerPeerView { cheap: self.cheap@, expensive: self.expensive@, bulk: self.bulk@, global: self.global@ }
    }
}

impl PerPeerLimiters {
    /// The limiters at the rates of the protocol, under a shared bucket with
    /// this rate and burst; zero counts as one.
    pub fn new(global_per_sec: u32, global_burst: u32) -> (r: PerPeerLimiters)
        requires
            global_per_sec <= 1_000_000_000,
        ensures
            r@ == fresh_limiters(global_per_sec, global_burst),
    {
        PerPeerLimiters {
            cheap: node_limiter_per_second(RATE_LIMIT_CHEAP_PER_SEC, RATE_LIMIT_CHEAP_BURST),
            expensive: node_limiter_per_second(RATE_LIMIT_EXPENSIVE_PER_SEC, RATE_LIMIT_EXPENSIVE_BURST),
            bulk: node_limiter_per_second(RATE_LIMIT_BULK_PER_SEC, RATE_LIMIT_BULK_BURST),
            global: global_limiter_per_second(at_least_one(global_per_sec), at_least_one(global_burst)),
        }
    }

    /// Draws a token from the shared bucket and, where it gave one, from that
    /// of `peer` for the class. The first token that a bucket is asked for it
    /// gives; what else it answers depends on the clock.
    pub fn check(&mut self, peer: &NodeId, class: RpcClass) -> (r: Result<(), ()>)
        ensures
            exists|shared: bool, own: bool| #[trigger]
                checked(old(self)@, final(self)@, *peer, class, shared, own, r),
    {
        let shared: bool = draw_global(&mut self.global);
        if !shared {
            assert(checked(old(self)@, self@, *peer, class, false, true, Err(())));
            return Err(());
        }
        let own: bool = match class {
            RpcClass::Cheap => draw_node(&mut self.cheap, peer.as_bytes()),
            RpcClass::Expensive => draw_node(&mut self.expensive, peer.as_bytes()),
            RpcClass::Bulk => draw_node(&mut self.bulk, peer.as_bytes()),
        };
        let r: Result<(), ()> = admitted(shared, own);
        assert(checked(old(self)@, self@, *peer, class, shared, own, r));
        r
    }

    /// Forgets peers whose buckets are full again.
    pub fn sweep(&self) {
        retain_recent(&self.cheap);
        shrink_to_fit(&self.cheap);
        retain_recent(&self.expensive);
        shrink_to_fit(&self.expensive);
        retain_recent(&self.bulk);
        shrink_to_fit(&self.bulk);
    }
}

/// A request passes when both the shared bucket and that of its peer gave a
/// token.
pub fn admitted(global_drawn: bool, peer_drawn: bool) -> (r: Result<(), ()>)
    ensures
        r is Ok <==> global_drawn && peer_drawn,
{
    if global_drawn && peer_drawn {
        Ok(())
    } else {
        Err(())
    }
}

/// Peers do not share a bucket: however another peer asked before it, a peer
/// that asks for the first time is refused by the shared bucket only.
pub proof fn law_peers_do_not_share(
    before: PerPeerView,
    between: PerPeerView,
    after: PerPeerView,
    other: NodeId,
    other_class: RpcClass,
    other_shared: bool,
    other_own: bool,
    other_r: Result<(), ()>,
    peer: NodeId,
    class: RpcClass,
    shared: bool,
    own: bool,
    r: Result<(), ()>,
)
    requires
        other != peer,
        !before.of_class(class).asked.contains(peer.bytes@),
        checked(before, between, other, other_class, other_shared, other_own, other_r),
        checked(between, after, peer, class, shared, own, r),
    ensures
        r is Ok <==> shared,
{
    if other.bytes@ == peer.bytes@ {
        lemma_array_eq(other.bytes, peer.bytes);
    }
}

/// Key-package fetches that one relay may make for one user in an hour.
pub const MAX_KP_FETCH_PER_HOUR: u32 = 60;

/// An hour over [`MAX_KP_FETCH_PER_HOUR`], in seconds.
pub const SECS_PER_KP_FETCH: u64 = 60;

/// Welcome requests that one relay may make in an hour.
pub const MAX_WELCOME_RPC_PER_HOUR: u32 = 240;

/// An hour over [`MAX_WELCOME_RPC_PER_HOUR`], in seconds.
pub const SECS_PER_WELCOME_RPC: u64 = 15;

/// Limits key-package fetches by target and requester.
pub struct KpFetchLimiters {
    pub limiter: PairLimiter,
}

impl View for KpFetchLimiters {
    type V = PairsView;

    open spec fn view(&self) -> PairsView {
        self.limiter@
    }
}

impl KpFetchLimiters {
    /// One token a minute for each pair, sixty at once.
    pub fn new() -> (r: KpFetchLimiters)
        ensures
            r@ == PairsView::fresh((60_000_000_000, 60)),
    {
        KpFetchLimiters {
            limiter: pair_limiter_every(SECS_PER_KP_FETCH, MAX_KP_FETCH_PER_HOUR),
        }
    }

    /// Draws a token for the pair. The first one it gets; later answers depend
    /// on the clock.
    pub fn check(&mut self, target_ipk: &[u8; 32], requester: &NodeId) -> (r: Result<(), ()>)
        ensures
            final(self)@ == old(self)@.after_ask(target_ipk@, requester.bytes@),
            old(self)@.can_answer(target_ipk@, requester.bytes@, r is Ok),
    {
        admitted(true, draw_pair(&mut self.limiter, target_ipk, requester.as_bytes()))
    }
}

/// Limits welcome requests by requester.
pub struct WelcomeLimiters {
    pub limiter: NodeLimiter,
}

impl View for WelcomeLimiters {
    type V = BucketsView;

    open spec fn view(&self) -> BucketsView {
        self.limiter@
    }
}

impl WelcomeLimiters {
    /// One token every fifteen seconds for each relay, 240 at once.
    pub fn new() -> (r: WelcomeLimiters)
        ensures
            r@ == BucketsView::fresh((15_000_000_000, 240)),
    {
        WelcomeLimiters {
            limiter: node_limiter_every(SECS_PER_WELCOME_RPC, MAX_WELCOME_RPC_PER_HOUR),
        }
    }

    /// Draws a token for the relay. The first one it gets; later answers
    /// depend on the clock.
    pub fn check(&mut self, requester: &NodeId) -> (r: Result<(), ()>)
        ensures
            final(self)@ == old(self)@.after_ask(requester.bytes@),
            old(self)@.can_answer(requester.bytes@, r is Ok),
    {
        admitted(true, draw_node(&mut self.limiter, requester.as_bytes()))
    }
}

/// What requests cost: the five that look at tables in memory are cheap, those
/// that carry records or invitations in quantity are bulk, and every other one
/// is expensive.
pub proof fn law_cost_classes(kind: RpcKind)
    ensures
        RpcClass::of(kind) == RpcClass::Cheap <==> kind is Ping || kind is FindNode || kind is FindValue
            || kind is MerkleSummary || kind is MerkleDiff,
        RpcClass::of(kind) == RpcClass::Bulk <==> kind is FetchRecord || kind is WelcomePublish || kind is WelcomeFetch
            || kind is WelcomeAck,
{
}

/// The rates of the protocol for one peer: of cheap requests a hundred a second
/// and fifty at once, of expensive ones twenty and ten, of bulk ones fifty and
/// twenty-five. The bucket that all share has the rate that it is given, at
/// least one.
pub proof fn law_protocol_rates(global_per_sec: u32, global_burst: u32)
    ensures
        ({
            let l = fresh_limiters(global_per_sec, global_burst);
            &&& l.cheap.refill.0 * 100 == 1_000_000_000 && l.cheap.refill.1 == 50
            &&& l.expensive.refill.0 * 20 == 1_000_000_000 && l.expensive.refill.1 == 10
            &&& l.bulk.refill.0 * 50 == 1_000_000_000 && l.bulk.refill.1 == 25
            &&& global_per_sec > 0 ==> l.global.refill.0 == 1_000_000_000nat / global_per_sec as nat
            &&& global_per_sec == 0 ==> l.global.refill.0 == 1_000_000_000
            &&& l.global.refill.1 >= 1 && l.global.refill.1 >= global_burst && l.global.refill.1 <= global_burst + 1
            &&& !l.global.asked
        }),
{
}

/// The first token of a key is always given, whatever other keys asked for; of
/// a key that asked before nothing is owed.
pub proof fn law_first_token_is_given(b: BucketsView, key: Seq<u8>, other: Seq<u8>, token: bool, refill: Refill)
    ensures
        BucketsView::fresh(refill).can_answer(key, token) ==> token,
        other != key && !b.asked.contains(other) && b.after_ask(key).can_answer(other, token) ==> token,
        b.after_ask(key).can_answer(key, token),
        b.after_ask(key).refill == b.refill,
        b.can_answer(key, true),
{
}

/// The first token of a pair is always given, whatever other pairs asked for:
/// another user, or another relay, makes another pair.
pub proof fn law_first_token_of_a_pair_is_given(
    p: PairsView,
    a: Seq<u8>,
    b: Seq<u8>,
    c: Seq<u8>,
    d: Seq<u8>,
    token: bool,
    refill: Refill,
)
    ensures
        PairsView::fresh(refill).can_answer(a, b, token) ==> token,
        (a != c || b != d) && !p.asked.contains((c, d)) && p.after_ask(a, b).can_answer(c, d, token) ==> token,
        p.after_ask(a, b).can_answer(a, b, token),
        p.after_ask(a, b).refill == p.refill,
        p.can_answer(a, b, true),
{
}

/// The first request of all passes, and so does the first of a peer in a class
/// that the shared bucket lets through. A request that the shared bucket refuses
/// is refused, and draws nothing from its peer's buckets; one that it lets
/// through draws from that of its class only.
pub proof fn law_request_draws_from_its_class(
    before: PerPeerView,
    after: PerPeerView,
    peer: NodeId,
    class: RpcClass,
    other: RpcClass,
    shared: bool,
    own: bool,
    r: Result<(), ()>,
)
    requires
        checked(before, after, peer, class, shared, own, r),
    ensures
        !before.global.asked && !before.of_class(class).asked.contains(peer.bytes@) ==> r is Ok,
        shared && !before.of_class(class).asked.contains(peer.bytes@) ==> r is Ok,
        !shared || !own ==> r is Err,
        !shared ==> after.cheap == before.cheap && after.expensive == before.expensive && after.bulk == before.bulk,
        other != class ==> after.of_class(other) == before.of_class(other),
        shared ==> after.of_class(class).asked == before.of_class(class).asked.insert(peer.bytes@),
        after.of_class(class).refill == before.of_class(class).refill,
        after.global.asked && after.global.refill == before.global.refill,
{
}

/// Each class has buckets of its own.
pub proof fn law_classes_have_their_own_buckets(l: PerPeerView)
    ensures
        l.of_class(RpcClass::Cheap) == l.cheap,
        l.of_class(RpcClass::Expensive) == l.expensive,
        l.of_class(RpcClass::Bulk) == l.bulk,
{
}

} // verus!
