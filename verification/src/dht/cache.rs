//! A bounded cache of lookup answers. What was used longest ago leaves first,
//! and an answer that has expired is dropped when it is asked for.

use super::config::LOOKUP_CACHE_CAP;
use super::id::PeerAddr;
use super::wire::same_array;
use vstd::prelude::*;

verus! {

/// Where a user's home relay is.
#[derive(Clone, Copy, Debug)]
pub struct CachedAnswer {
    pub relay_id: [u8; 32],
    pub relay_addr: PeerAddr,
    pub relay_pubkey: [u8; 32],
    /// Time from which the answer is not used any more.
    pub expires_at: u64,
}

/// One answer of the cache.
#[derive(Clone, Copy, Debug)]
pub struct Entry {
    pub user_ipk: [u8; 32],
    pub answer: CachedAnswer,
    /// Stamp of the last use.
    pub used: u64,
}

/// The cache.
#[derive(Debug)]
pub struct LookupCache {
    pub entries: Vec<Entry>,
    pub cap: usize,
    /// The last stamp that was given.
    pub seq: u64,
}

/// An answer with the stamp of its last use.
pub type Stamped = (CachedAnswer, u64);

/// The entry of `k` stands at `i`.
pub open spec fn stands_at(entries: Seq<Entry>, k: [u8; 32], i: int) -> bool {
    0 <= i < entries.len() && entries[i].user_ipk == k
}

/// The answers by user.
pub open spec fn answers(entries: Seq<Entry>) -> Map<[u8; 32], Stamped> {
    Map::new(
        |k: [u8; 32]| exists|i: int| #[trigger] stands_at(entries, k, i),
        |k: [u8; 32]|
            {
                let i = choose|i: int| #[trigger] stands_at(entries, k, i);
                (entries[i].answer, entries[i].used)
            },
    )
}

/// No user has two entries.
pub open spec fn users_distinct(entries: Seq<Entry>) -> bool {
    forall|i: int, j: int|
        0 <= i < j < entries.len() ==> (#[trigger] entries[i]).user_ipk != (#[trigger] entries[j]).user_ipk
}

/// No two entries were used at the same time.
pub open spec fn stamps_distinct(entries: Seq<Entry>) -> bool {
    forall|i: int, j: int|
        0 <= i < j < entries.len() ==> (#[trigger] entries[i]).used != (#[trigger] entries[j]).used
}

/// What a [`LookupCache`] holds.
#[verifier::ext_equal]
pub struct CacheView {
    pub answers: Map<[u8; 32], Stamped>,
    pub cap: usize,
    pub seq: u64,
}

impl View for LookupCache {
    type V = CacheView;

    open spec fn view(&self) -> CacheView {
        CacheView { answers: answers(self.entries@), cap: self.cap, seq: self.seq }
    }
}

/// The user whose answer was used longest ago.
pub open spec fn is_oldest(m: Map<[u8; 32], Stamped>, k: [u8; 32]) -> bool {
    &&& m.dom().contains(k)
    &&& forall|other: [u8; 32]| #[trigger] m.dom().contains(other) ==> m[k].1 <= m[other].1
}

/// The answer for a user that has not expired.
pub open spec fn fresh_answer(c: CacheView, user_ipk: [u8; 32], now: u64) -> Option<CachedAnswer> {
    if c.answers.dom().contains(user_ipk) && c.answers[user_ipk].0.expires_at > now {
        Some(c.answers[user_ipk].0)
    } else {
        None
    }
}

/// The cache after an answer was asked for: one that is given counts as used
/// now, one that has expired is gone.
pub open spec fn after_get(c: CacheView, user_ipk: [u8; 32], now: u64) -> CacheView {
    if fresh_answer(c, user_ipk, now) is Some {
        let stamp = (c.seq + 1) as u64;
        CacheView { answers: c.answers.insert(user_ipk, (c.answers[user_ipk].0, stamp)), seq: stamp, ..c }
    } else {
        CacheView { answers: c.answers.remove(user_ipk), ..c }
    }
}

/// What putting an answer does: it counts as used now, in place of an earlier
/// one. Where a new user finds the cache full, the answer that was used
/// longest ago leaves.
pub open spec fn is_put(before: CacheView, after: CacheView, user_ipk: [u8; 32], answer: CachedAnswer) -> bool {
    let m = before.answers;
    let stamp = (before.seq + 1) as u64;
    if m.dom().contains(user_ipk) || m.dom().len() < before.cap {
        after == (CacheView { answers: m.insert(user_ipk, (answer, stamp)), seq: stamp, ..before })
    } else {
        exists|k: [u8; 32]|
            {
                &&& #[trigger] is_oldest(m, k)
                &&& after == (CacheView {
                    answers: m.remove(k).insert(user_ipk, (answer, stamp)),
                    seq: stamp,
                    ..before
                })
            }
    }
}

/// What the map says of an entry.
proof fn lemma_answer(entries: Seq<Entry>, i: int)
    requires
        users_distinct(entries),
        0 <= i < entries.len(),
    ensures
        answers(entries).dom().contains(entries[i].user_ipk),
        answers(entries)[entries[i].user_ipk] == (entries[i].answer, entries[i].used),
{
    let k = entries[i].user_ipk;
    assert(stands_at(entries, k, i));
    let j = choose|j: int| #[trigger] stands_at(entries, k, j);
    if j < i {
        assert(entries[j].user_ipk != entries[i].user_ipk);
    }
    if i < j {
        assert(entries[i].user_ipk != entries[j].user_ipk);
    }
}

/// Taking an entry out takes its user out of the map.
proof fn lemma_removed(entries: Seq<Entry>, i: int)
    requires
        users_distinct(entries),
        0 <= i < entries.len(),
    ensures
        users_distinct(entries.remove(i)),
        stamps_distinct(entries) ==> stamps_distinct(entries.remove(i)),
        answers(entries.remove(i)) == answers(entries).remove(entries[i].user_ipk),
{
    let left = entries.remove(i);
    let k = entries[i].user_ipk;
    assert forall|a: int, b: int| 0 <= a < b < left.len() implies (#[trigger] left[a]).user_ipk != (
    #[trigger] left[b]).user_ipk by {
        let a0 = if a < i { a } else { a + 1 };
        let b0 = if b < i { b } else { b + 1 };
        assert(entries[a0].user_ipk != entries[b0].user_ipk);
    }
    if stamps_distinct(entries) {
        assert forall|a: int, b: int| 0 <= a < b < left.len() implies (#[trigger] left[a]).used != (
        #[trigger] left[b]).used by {
            let a0 = if a < i { a } else { a + 1 };
            let b0 = if b < i { b } else { b + 1 };
            assert(entries[a0].used != entries[b0].used);
        }
    }
    let m = answers(left);
    let n = answers(entries).remove(k);
    assert forall|u: [u8; 32]| m.dom().contains(u) <==> n.dom().contains(u) by {
        if m.dom().contains(u) {
            let a = choose|a: int| #[trigger] stands_at(left, u, a);
            let a0 = if a < i { a } else { a + 1 };
            assert(entries[a0] == left[a]);
            lemma_answer(entries, a0);
            if a0 < i {
                assert(entries[a0].user_ipk != entries[i].user_ipk);
            } else {
                assert(entries[i].user_ipk != entries[a0].user_ipk);
            }
        }
        if n.dom().contains(u) {
            let a0 = choose|a0: int| #[trigger] stands_at(entries, u, a0);
            let a = if a0 < i { a0 } else { a0 - 1 };
            assert(left[a] == entries[a0]);
            assert(stands_at(left, u, a));
        }
    }
    assert forall|u: [u8; 32]| m.dom().contains(u) implies m[u] == n[u] by {
        let a = choose|a: int| #[trigger] stands_at(left, u, a);
        let a0 = if a < i { a } else { a + 1 };
        assert(entries[a0] == left[a]);
        lemma_answer(entries, a0);
        lemma_answer(left, a);
    }
    assert(m =~= n);
}

/// Adding an entry puts its user into the map.
proof fn lemma_added(entries: Seq<Entry>, e: Entry)
    requires
        users_distinct(entries),
        !answers(entries).dom().contains(e.user_ipk),
    ensures
        users_distinct(entries.push(e)),
        answers(entries.push(e)) == answers(entries).insert(e.user_ipk, (e.answer, e.used)),
{
    let more = entries.push(e);
    assert forall|a: int, b: int| 0 <= a < b < more.len() implies (#[trigger] more[a]).user_ipk != (
    #[trigger] more[b]).user_ipk by {
        if b < entries.len() {
            assert(entries[a].user_ipk != entries[b].user_ipk);
        } else {
            lemma_answer(entries, a);
        }
    }
    let m = answers(more);
    let n = answers(entries).insert(e.user_ipk, (e.answer, e.used));
    assert forall|u: [u8; 32]| m.dom().contains(u) <==> n.dom().contains(u) by {
        if m.dom().contains(u) {
            let a = choose|a: int| #[trigger] stands_at(more, u, a);
            if a < entries.len() {
                lemma_answer(entries, a);
            }
        }
        if answers(entries).dom().contains(u) {
            let a = choose|a: int| #[trigger] stands_at(entries, u, a);
            assert(stands_at(more, u, a));
        }
        if u == e.user_ipk {
            assert(stands_at(more, u, entries.len() as int));
        }
    }
    assert forall|u: [u8; 32]| m.dom().contains(u) implies m[u] == n[u] by {
        let a = choose|a: int| #[trigger] stands_at(more, u, a);
        lemma_answer(more, a);
        if a < entries.len() {
            lemma_answer(entries, a);
        }
    }
    assert(m =~= n);
}

/// There are as many answers as entries.
proof fn lemma_count(entries: Seq<Entry>)
    requires
        users_distinct(entries),
    ensures
        answers(entries).dom().finite(),
        answers(entries).dom().len() == entries.len(),
    decreases entries.len(),
{
    if entries.len() == 0 {
        assert(answers(entries).dom() =~= Set::empty()) by {
            assert forall|k: [u8; 32]| !answers(entries).dom().contains(k) by {
                if answers(entries).dom().contains(k) {
                    let i = choose|i: int| #[trigger] stands_at(entries, k, i);
                }
            }
        }
    } else {
        let last = entries.len() - 1;
        lemma_removed(entries, last);
        lemma_count(entries.remove(last));
        lemma_answer(entries, last);
        let d = answers(entries).dom();
        let k = entries[last].user_ipk;
        assert(answers(entries.remove(last)).dom() =~= d.remove(k));
        assert(d =~= d.remove(k).insert(k));
    }
}

impl LookupCache {
    /// No user and no stamp occurs twice, stamps were given, and there is no
    /// more than the cache may hold.
    pub open spec fn wf(&self) -> bool {
        &&& users_distinct(self.entries@)
        &&& stamps_distinct(self.entries@)
        &&& forall|i: int| 0 <= i < self.entries@.len() ==> (#[trigger] self.entries@[i]).used <= self.seq
        &&& self.entries@.len() <= self.cap
        &&& 0 < self.cap
    }

    /// A cache without answers.
    pub fn empty() -> (r: LookupCache)
        ensures
            r.wf(),
            r@ == (CacheView { answers: Map::empty(), cap: LOOKUP_CACHE_CAP, seq: 0 }),
    {
        let r = LookupCache { entries: Vec::new(), cap: LOOKUP_CACHE_CAP, seq: 0 };
        proof {
            assert forall|k: [u8; 32]| !answers(r.entries@).dom().contains(k) by {
                if answers(r.entries@).dom().contains(k) {
                    let i = choose|i: int| #[trigger] stands_at(r.entries@, k, i);
                }
            }
            assert(r@.answers =~= Map::<[u8; 32], Stamped>::empty());
        }
        r
    }

    /// Where the entry of a user stands.
    fn find(&self, user_ipk: &[u8; 32]) -> (r: Option<usize>)
        requires
            self.wf(),
        ensures
            match r {
                Some(i) => i < self.entries@.len() && self.entries@[i as int].user_ipk == *user_ipk
                    && self@.answers.dom().contains(*user_ipk) && self@.answers[*user_ipk] == (
                    self.entries@[i as int].answer,
                    self.entries@[i as int].used,
                ),
                None => !self@.answers.dom().contains(*user_ipk),
            },
    {
        let mut i: usize = 0;
        while i < self.entries.len()
            invariant
                0 <= i <= self.entries.len(),
                self.wf(),
                forall|k: int| 0 <= k < i ==> (#[trigger] self.entries@[k]).user_ipk != *user_ipk,
            decreases self.entries.len() - i,
        {
            if same_array(&self.entries[i].user_ipk, user_ipk) {
                proof {
                    lemma_answer(self.entries@, i as int);
                }
                return Some(i);
            }
            i = i + 1;
        }
        proof {
            if self@.answers.dom().contains(*user_ipk) {
                let k = choose|k: int| #[trigger] stands_at(self.entries@, *user_ipk, k);
                assert(self.entries@[k].user_ipk != *user_ipk);
            }
        }
        None
    }

    /// The answer for a user, which counts as used now. One that has expired
    /// is dropped and not given.
    pub fn get(&mut self, user_ipk: &[u8; 32], now: u64) -> (r: Option<CachedAnswer>)
        requires
            old(self).wf(),
            old(self)@.seq < u64::MAX,
        ensures
            final(self).wf(),
            r == fresh_answer(old(self)@, *user_ipk, now),
            final(self)@ == after_get(old(self)@, *user_ipk, now),
    {
        let ghost all = self.entries@;
        let i: usize = match self.find(user_ipk) {
            None => {
                assert(self@.answers =~= old(self)@.answers.remove(*user_ipk));
                return None;
            },
            Some(i) => i,
        };
        proof {
            lemma_removed(all, i as int);
        }
        let e: Entry = self.entries.remove(i);
        if e.answer.expires_at <= now {
            return None;
        }
        let stamp: u64 = self.seq + 1;
        self.seq = stamp;
        self.add(Entry { user_ipk: *user_ipk, answer: e.answer, used: stamp });
        proof {
            assert(self@.answers =~= answers(all).insert(*user_ipk, (e.answer, stamp)));
        }
        Some(e.answer)
    }

    /// Adds an entry of a user that has none, with the last stamp.
    fn add(&mut self, e: Entry)
        requires
            users_distinct(old(self).entries@),
            stamps_distinct(old(self).entries@),
            forall|i: int| 0 <= i < old(self).entries@.len() ==> (#[trigger] old(self).entries@[i]).used < old(self).seq,
            old(self).entries@.len() < old(self).cap,
            !old(self)@.answers.dom().contains(e.user_ipk),
            e.used == old(self).seq,
        ensures
            final(self).wf(),
            final(self)@ == (CacheView {
                answers: old(self)@.answers.insert(e.user_ipk, (e.answer, e.used)),
                ..old(self)@
            }),
    {
        proof {
            lemma_added(self.entries@, e);
        }
        self.entries.push(e);
    }

    /// Puts the answer for a user, which counts as used now, in place of an
    /// earlier one. Where a new user finds the cache full, the answer that was
    /// used longest ago leaves.
    pub fn put(&mut self, user_ipk: [u8; 32], answer: CachedAnswer)
        requires
            old(self).wf(),
            old(self)@.seq < u64::MAX,
        ensures
            final(self).wf(),
            is_put(old(self)@, final(self)@, user_ipk, answer),
    {
        let ghost all = self.entries@;
        let ghost m = self@.answers;
        let ghost seq0 = self.seq;
        proof {
            lemma_count(all);
        }
        let found: Option<usize> = self.find(&user_ipk);
        let stamp: u64 = self.seq + 1;
        self.seq = stamp;
        match found {
            Some(i) => {
                proof {
                    lemma_removed(all, i as int);
                }
                self.entries.remove(i);
                self.add(Entry { user_ipk, answer, used: stamp });
                assert(self@.answers =~= m.insert(user_ipk, (answer, stamp)));
            },
            None => {
                if self.entries.len() >= self.cap {
                    let i: usize = self.oldest();
                    let ghost k = all[i as int].user_ipk;
                    proof {
                        lemma_removed(all, i as int);
                        lemma_answer(all, i as int);
                        assert forall|other: [u8; 32]| #[trigger] m.dom().contains(other) implies m[k].1
                            <= m[other].1 by {
                            let j = choose|j: int| #[trigger] stands_at(all, other, j);
                            lemma_answer(all, j);
                            assert(all[i as int].used <= all[j].used);
                        }
                        assert(is_oldest(m, k));
                    }
                    self.entries.remove(i);
                    self.add(Entry { user_ipk, answer, used: stamp });
                    assert(self@ =~= (CacheView {
                        answers: m.remove(k).insert(user_ipk, (answer, stamp)),
                        seq: stamp,
                        cap: old(self)@.cap,
                    }));
                } else {
                    self.add(Entry { user_ipk, answer, used: stamp });
                }
            },
        }
    }

    /// Where the entry stands that was used longest ago.
    fn oldest(&self) -> (r: usize)
        requires
            self.entries@.len() > 0,
        ensures
            r < self.entries@.len(),
            forall|j: int| 0 <= j < self.entries@.len() ==> self.entries@[r as int].used <= (
            #[trigger] self.entries@[j]).used,
    {
        let mut best: usize = 0;
        let mut i: usize = 1;
        while i < self.entries.len()
            invariant
                1 <= i <= self.entries.len(),
                best < i,
                forall|j: int| 0 <= j < i ==> self.entries@[best as int].used <= (#[trigger] self.entries@[j]).used,
            decreases self.entries.len() - i,
        {
            if self.entries[i].used < self.entries[best].used {
                best = i;
            }
            i = i + 1;
        }
        best
    }

    /// Drops the answer for a user.
    pub fn invalidate(&mut self, user_ipk: &[u8; 32])
        requires
            old(self).wf(),
        ensures
            final(self).wf(),
            final(self)@ == (CacheView { answers: old(self)@.answers.remove(*user_ipk), ..old(self)@ }),
    {
        let ghost all = self.entries@;
        match self.find(user_ipk) {
            None => {
                assert(self@.answers =~= old(self)@.answers.remove(*user_ipk));
            },
            Some(i) => {
                proof {
                    lemma_removed(all, i as int);
                }
                self.entries.remove(i);
            },
        }
    }
}

/// The cache never holds more than it may.
pub proof fn law_cache_is_bounded(c: LookupCache)
    requires
        c.wf(),
    ensures
        c@.answers.dom().finite(),
        c@.answers.dom().len() <= c@.cap,
{
    lemma_count(c.entries@);
}

/// What leaves a full cache is determined: only one answer was used longest
/// ago.
pub proof fn law_one_answer_is_oldest(c: LookupCache, a: [u8; 32], b: [u8; 32])
    requires
        c.wf(),
        is_oldest(c@.answers, a),
        is_oldest(c@.answers, b),
    ensures
        a == b,
{
    let all = c.entries@;
    let i = choose|i: int| #[trigger] stands_at(all, a, i);
    let j = choose|j: int| #[trigger] stands_at(all, b, j);
    lemma_answer(all, i);
    lemma_answer(all, j);
    assert(all[i].used == all[j].used);
    if i < j {
        assert(all[i].used != all[j].used);
    }
    if j < i {
        assert(all[j].used != all[i].used);
    }
}

/// An answer that was just used is not the one that leaves, unless it is the
/// only one.
pub proof fn law_last_used_stays(c: LookupCache, user: [u8; 32], other: [u8; 32])
    requires
        c.wf(),
        c@.answers.dom().contains(user),
        c@.answers[user].1 == c@.seq,
        c@.answers.dom().contains(other),
        other != user,
    ensures
        !is_oldest(c@.answers, user),
{
    let all = c.entries@;
    let i = choose|i: int| #[trigger] stands_at(all, user, i);
    let j = choose|j: int| #[trigger] stands_at(all, other, j);
    lemma_answer(all, i);
    lemma_answer(all, j);
    if i < j {
        assert(all[i].used != all[j].used);
    } else if j < i {
        assert(all[j].used != all[i].used);
    }
    assert(c@.answers[other].1 < c@.answers[user].1);
}

/// What was put is got until it expires, and nothing is got after that.
pub proof fn law_put_is_got(
    before: CacheView,
    after: CacheView,
    user_ipk: [u8; 32],
    answer: CachedAnswer,
    now: u64,
)
    requires
        is_put(before, after, user_ipk, answer),
    ensures
        fresh_answer(after, user_ipk, now) == (if now < answer.expires_at {
            Some(answer)
        } else {
            None
        }),
{
}

/// Asking for one user's answer leaves those of the others as they are.
pub proof fn law_gets_are_apart(c: CacheView, user_ipk: [u8; 32], other: [u8; 32], now: u64, later: u64)
    requires
        user_ipk != other,
    ensures
        fresh_answer(after_get(c, user_ipk, now), other, later) == fresh_answer(c, other, later),
{
}

/// Putting one user's answer leaves those of the others as they are, but for the
/// one that was used longest ago, where a new user finds the cache full.
pub proof fn law_puts_are_apart(
    before: CacheView,
    after: CacheView,
    user_ipk: [u8; 32],
    answer: CachedAnswer,
    other: [u8; 32],
    third: [u8; 32],
)
    requires
        is_put(before, after, user_ipk, answer),
        other != user_ipk,
        before.answers.dom().contains(other),
        before.answers.dom().contains(third),
    ensures
        after.answers.dom().contains(other) ==> after.answers[other] == before.answers[other],
        before.answers.dom().contains(user_ipk) || before.answers.dom().len() < before.cap
            ==> after.answers.dom().contains(other),
        !after.answers.dom().contains(other) ==> before.answers[other].1 <= before.answers[third].1,
        after.cap == before.cap,
{
}

/// What is got or put counts as used last: its stamp is the newest one that was
/// given. What has expired is dropped when it is asked for.
pub proof fn law_use_is_stamped(c: CacheView, after: CacheView, user_ipk: [u8; 32], answer: CachedAnswer, now: u64)
    requires
        c.seq < u64::MAX,
    ensures
        fresh_answer(c, user_ipk, now) is Some ==> {
            let got = after_get(c, user_ipk, now);
            &&& got.seq == c.seq + 1
            &&& got.answers.dom().contains(user_ipk)
            &&& got.answers[user_ipk] == (c.answers[user_ipk].0, got.seq)
        },
        c.answers.dom().contains(user_ipk) && c.answers[user_ipk].0.expires_at <= now ==> !after_get(
            c,
            user_ipk,
            now,
        ).answers.dom().contains(user_ipk) && fresh_answer(c, user_ipk, now) is None,
        c.answers.dom().contains(user_ipk) && c.answers[user_ipk].0.expires_at > now ==> fresh_answer(
            c,
            user_ipk,
            now,
        ) == Some(c.answers[user_ipk].0),
        is_put(c, after, user_ipk, answer) ==> after.seq == c.seq + 1 && after.answers.dom().contains(user_ipk)
            && after.answers[user_ipk] == (answer, after.seq),
{
}

/// A put keeps the cache within its bound, and makes room for a new user only
/// where there is none left.
pub proof fn law_cache_stays_within_bound(before: CacheView, after: CacheView, user_ipk: [u8; 32], answer: CachedAnswer)
    requires
        is_put(before, after, user_ipk, answer),
        before.answers.dom().finite(),
        before.answers.dom().len() <= before.cap,
        0 < before.cap,
    ensures
        after.answers.dom().len() <= after.cap,
        before.answers.dom().contains(user_ipk) ==> after.answers.dom() =~= before.answers.dom(),
        !before.answers.dom().contains(user_ipk) && before.answers.dom().len() < before.cap
            ==> after.answers.dom().len() == before.answers.dom().len() + 1,
        !before.answers.dom().contains(user_ipk) && before.answers.dom().len() == before.cap
            ==> after.answers.dom().len() == before.cap,
{
    if before.answers.dom().contains(user_ipk) {
        assert(after.answers.dom() =~= before.answers.dom());
    } else if before.answers.dom().len() < before.cap {
        assert(after.answers.dom() =~= before.answers.dom().insert(user_ipk));
    } else {
        let stamp = (before.seq + 1) as u64;
        let k = choose|k: [u8; 32]|
            {
                &&& #[trigger] is_oldest(before.answers, k)
                &&& after == (CacheView {
                    answers: before.answers.remove(k).insert(user_ipk, (answer, stamp)),
                    seq: stamp,
                    ..before
                })
            };
        assert(after.answers.dom() =~= before.answers.dom().remove(k).insert(user_ipk));
    }
}

} // verus!
