//! Keeping the first of each: what several homes answered, made into one list
//! without repeats.

use vstd::prelude::*;

verus! {

/// Some element has this key.
pub open spec fn has_one<A, B>(s: Seq<A>, key: spec_fn(A) -> B, k: B) -> bool {
    exists|i: int| 0 <= i < s.len() && key(#[trigger] s[i]) == k
}

/// The elements whose key did not occur before, in their order.
pub open spec fn firsts<A, B>(s: Seq<A>, key: spec_fn(A) -> B) -> Seq<A>
    decreases s.len(),
{
    if s.len() == 0 {
        s
    } else {
        let before = firsts(s.drop_last(), key);
        if has_one(s.drop_last(), key, key(s.last())) {
            before
        } else {
            before.push(s.last())
        }
    }
}

/// No two elements share a key.
pub open spec fn keys_distinct<A, B>(s: Seq<A>, key: spec_fn(A) -> B) -> bool {
    forall|i: int, j: int| 0 <= i < j < s.len() ==> key(#[trigger] s[i]) != key(#[trigger] s[j])
}

/// One more element.
pub proof fn lemma_firsts_push<A, B>(s: Seq<A>, key: spec_fn(A) -> B, x: A)
    ensures
        firsts(s.push(x), key) == (if has_one(firsts(s, key), key, key(x)) {
            firsts(s, key)
        } else {
            firsts(s, key).push(x)
        }),
{
    assert(s.push(x).drop_last() =~= s);
    law_every_key_stays(s, key, key(x));
}

/// No key is lost and none is added.
pub proof fn law_every_key_stays<A, B>(s: Seq<A>, key: spec_fn(A) -> B, k: B)
    ensures
        has_one(firsts(s, key), key, k) <==> has_one(s, key, k),
    decreases s.len(),
{
    if s.len() > 0 {
        let init = s.drop_last();
        law_every_key_stays(init, key, k);
        law_every_key_stays(init, key, key(s.last()));
        let f0 = firsts(init, key);
        let f = firsts(s, key);
        if has_one(f, key, k) {
            let i = choose|i: int| 0 <= i < f.len() && key(#[trigger] f[i]) == k;
            if i < f0.len() {
                assert(key(f0[i]) == k);
                let j = choose|j: int| 0 <= j < init.len() && key(#[trigger] init[j]) == k;
                assert(key(s[j]) == k);
            } else {
                assert(key(s[s.len() - 1]) == k);
            }
        }
        if has_one(s, key, k) {
            let j = choose|j: int| 0 <= j < s.len() && key(#[trigger] s[j]) == k;
            if j < init.len() {
                assert(key(init[j]) == k);
                let i = choose|i: int| 0 <= i < f0.len() && key(#[trigger] f0[i]) == k;
                assert(key(f[i]) == k);
            } else if has_one(init, key, k) {
                let i = choose|i: int| 0 <= i < f0.len() && key(#[trigger] f0[i]) == k;
                assert(key(f[i]) == k);
            } else {
                assert(key(f[f.len() - 1]) == k);
            }
        }
    }
}

/// What is left has no repeats.
pub proof fn law_no_repeats<A, B>(s: Seq<A>, key: spec_fn(A) -> B)
    ensures
        keys_distinct(firsts(s, key), key),
    decreases s.len(),
{
    if s.len() > 0 {
        let init = s.drop_last();
        law_no_repeats(init, key);
        law_every_key_stays(init, key, key(s.last()));
        let f0 = firsts(init, key);
        let f = firsts(s, key);
        assert forall|i: int, j: int| 0 <= i < j < f.len() implies key(#[trigger] f[i]) != key(#[trigger] f[j]) by {
            if j < f0.len() {
                assert(key(f0[i]) != key(f0[j]));
            } else {
                assert(f[i] == f0[i]);
            }
        }
    }
}

/// A list without repeats stays as it is; so keeping the firsts twice is
/// keeping them once.
pub proof fn law_firsts_once<A, B>(s: Seq<A>, key: spec_fn(A) -> B)
    ensures
        keys_distinct(s, key) ==> firsts(s, key) == s,
        firsts(firsts(s, key), key) == firsts(s, key),
    decreases s.len(),
{
    law_no_repeats(s, key);
    lemma_distinct_stay(s, key);
    lemma_distinct_stay(firsts(s, key), key);
}

/// Keeping the firsts list by list is keeping those of all lists together.
pub proof fn law_firsts_in_steps<A, B>(a: Seq<A>, b: Seq<A>, key: spec_fn(A) -> B)
    ensures
        firsts(firsts(a, key) + b, key) == firsts(a + b, key),
    decreases b.len(),
{
    if b.len() == 0 {
        assert(firsts(a, key) + b =~= firsts(a, key));
        assert(a + b =~= a);
        law_firsts_once(a, key);
    } else {
        let rest = b.drop_last();
        law_firsts_in_steps(a, rest, key);
        assert(firsts(a, key) + b =~= (firsts(a, key) + rest).push(b.last()));
        assert(a + b =~= (a + rest).push(b.last()));
        lemma_firsts_push(firsts(a, key) + rest, key, b.last());
        lemma_firsts_push(a + rest, key, b.last());
    }
}

proof fn lemma_distinct_stay<A, B>(s: Seq<A>, key: spec_fn(A) -> B)
    ensures
        keys_distinct(s, key) ==> firsts(s, key) == s,
    decreases s.len(),
{
    if s.len() > 0 && keys_distinct(s, key) {
        let init = s.drop_last();
        assert forall|i: int, j: int| 0 <= i < j < init.len() implies key(#[trigger] init[i]) != key(
            #[trigger] init[j],
        ) by {
            assert(key(s[i]) != key(s[j]));
        }
        lemma_distinct_stay(init, key);
        if has_one(init, key, key(s.last())) {
            let i = choose|i: int| 0 <= i < init.len() && key(#[trigger] init[i]) == key(s.last());
            assert(key(s[i]) != key(s[s.len() - 1]));
        }
        assert(firsts(s, key) =~= s);
    }
}

/// Where the elements of `f` stood in `s`: in the same order, and nothing
/// before one of them has its key.
pub open spec fn stood_first<A, B>(s: Seq<A>, key: spec_fn(A) -> B, f: Seq<A>, at: Seq<int>) -> bool {
    &&& at.len() == f.len()
    &&& forall|i: int| 0 <= i < at.len() ==> 0 <= #[trigger] at[i] < s.len() && s[at[i]] == f[i]
    &&& forall|i: int, j: int| 0 <= i < j < at.len() ==> at[i] < at[j]
    &&& forall|i: int, j: int| 0 <= i < at.len() && 0 <= j < at[i] ==> key(#[trigger] s[j]) != key(#[trigger] f[i])
}

/// Order is kept, and of several elements with one key the first stays.
pub proof fn law_first_occurrence_stays<A, B>(s: Seq<A>, key: spec_fn(A) -> B)
    ensures
        exists|at: Seq<int>| stood_first(s, key, firsts(s, key), at),
    decreases s.len(),
{
    if s.len() == 0 {
        assert(stood_first(s, key, firsts(s, key), Seq::<int>::empty()));
    } else {
        let init = s.drop_last();
        law_first_occurrence_stays(init, key);
        let f0 = firsts(init, key);
        let f = firsts(s, key);
        let at0 = choose|at: Seq<int>| stood_first(init, key, f0, at);
        if has_one(init, key, key(s.last())) {
            assert(stood_first(s, key, f, at0)) by {
                assert forall|i: int, j: int| 0 <= i < at0.len() && 0 <= j < at0[i] implies key(#[trigger] s[j]) != key(
                    #[trigger] f[i],
                ) by {
                    assert(s[j] == init[j]);
                }
            }
        } else {
            let at = at0.push(s.len() - 1);
            assert(stood_first(s, key, f, at)) by {
                assert forall|i: int| 0 <= i < at.len() implies 0 <= #[trigger] at[i] < s.len() && s[at[i]] == f[i] by {
                    if i < at0.len() {
                        assert(at[i] == at0[i]);
                    }
                }
                assert forall|i: int, j: int| 0 <= i < j < at.len() implies at[i] < at[j] by {
                    assert(at[i] == at0[i]);
                    if j < at0.len() {
                        assert(at[j] == at0[j]);
                    }
                }
                assert forall|i: int, j: int| 0 <= i < at.len() && 0 <= j < at[i] implies key(#[trigger] s[j]) != key(
                    #[trigger] f[i],
                ) by {
                    assert(s[j] == init[j]);
                    if i < at0.len() {
                        assert(at[i] == at0[i] && f[i] == f0[i]);
                    }
                }
            }
        }
    }
}

} // verus!
