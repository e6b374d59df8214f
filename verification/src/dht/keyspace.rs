//! Ordered tables of rows under byte-string keys.
//!
//! A [`Keyspace`] is one table of the relay's store, held in the order of its
//! keys. A row whose value could not be decoded keeps its place with no value.
//! Two flags say whether the medium behind the table answers.

use super::bytes::{be_nat, bytes_eq, lemma_first_difference_decides, starts_with};
use vstd::prelude::*;

verus! {

/// The order of byte strings: at the first difference the smaller byte
/// decides, and a proper beginning comes first.
pub open spec fn lex_less(a: Seq<u8>, b: Seq<u8>) -> bool
    decreases a.len(),
{
    if b.len() == 0 {
        false
    } else if a.len() == 0 {
        true
    } else if a[0] != b[0] {
        a[0] < b[0]
    } else {
        lex_less(a.drop_first(), b.drop_first())
    }
}

/// No byte string comes before itself.
pub proof fn lemma_lex_irreflexive(a: Seq<u8>)
    ensures
        !lex_less(a, a),
    decreases a.len(),
{
    if a.len() > 0 {
        lemma_lex_irreflexive(a.drop_first());
    }
}

/// The order is transitive.
pub proof fn lemma_lex_transitive(a: Seq<u8>, b: Seq<u8>, c: Seq<u8>)
    requires
        lex_less(a, b),
        lex_less(b, c),
    ensures
        lex_less(a, c),
    decreases a.len(),
{
    if a.len() > 0 && b.len() > 0 && c.len() > 0 && a[0] == b[0] && b[0] == c[0] {
        lemma_lex_transitive(a.drop_first(), b.drop_first(), c.drop_first());
    }
}

/// Of two different byte strings one comes first.
pub proof fn lemma_lex_total(a: Seq<u8>, b: Seq<u8>)
    ensures
        lex_less(a, b) || lex_less(b, a) || a == b,
    decreases a.len(),
{
    if a.len() == 0 || b.len() == 0 {
        if a.len() == 0 && b.len() == 0 {
            assert(a =~= b);
        }
    } else if a[0] == b[0] {
        lemma_lex_total(a.drop_first(), b.drop_first());
        if a.drop_first() == b.drop_first() {
            assert(a =~= seq![a[0]] + a.drop_first());
            assert(b =~= seq![b[0]] + b.drop_first());
        }
    }
}

/// The order of the strings at their first difference.
pub proof fn lemma_lex_first_difference(a: Seq<u8>, b: Seq<u8>, i: int)
    requires
        0 <= i <= a.len(),
        i <= b.len(),
        forall|j: int| 0 <= j < i ==> a[j] == b[j],
        i < a.len() && i < b.len() ==> a[i] != b[i],
    ensures
        lex_less(a, b) == (i < b.len() && (i == a.len() || a[i] < b[i])),
    decreases i,
{
    if i > 0 {
        assert(a[0] == b[0]);
        lemma_lex_first_difference(a.drop_first(), b.drop_first(), i - 1);
    }
}

/// Two strings that agree up to `from` are in the order of what follows.
pub proof fn lemma_lex_extends(a: Seq<u8>, b: Seq<u8>, from: int, to: int)
    requires
        0 <= from <= to <= a.len(),
        to <= b.len(),
        a.take(from) == b.take(from),
        lex_less(a.subrange(from, to), b.subrange(from, to)),
    ensures
        lex_less(a, b),
{
    let ta = a.subrange(from, to);
    let tb = b.subrange(from, to);
    lemma_lex_irreflexive(ta);
    assert(exists|j: int| 0 <= j < ta.len() && ta[j] != tb[j]) by {
        if forall|j: int| 0 <= j < ta.len() ==> ta[j] == tb[j] {
            assert(ta =~= tb);
        }
    }
    let some = choose|j: int| 0 <= j < ta.len() && ta[j] != tb[j];
    let i = lemma_first_mismatch(ta, tb, some);
    lemma_lex_first_difference(ta, tb, i);
    assert forall|j: int| 0 <= j < from + i implies a[j] == b[j] by {
        if j < from {
            assert(a.take(from)[j] == a[j] && b.take(from)[j] == b[j]);
        } else {
            assert(ta[j - from] == a[j] && tb[j - from] == b[j]);
        }
    }
    lemma_lex_first_difference(a, b, from + i);
}

/// Among strings of one length the order is that of the numbers they spell.
pub proof fn law_lex_is_numeric(a: Seq<u8>, b: Seq<u8>)
    requires
        a.len() == b.len(),
    ensures
        lex_less(a, b) <==> be_nat(a) < be_nat(b),
{
    if a == b {
        lemma_lex_irreflexive(a);
    } else {
        let some = choose|j: int| 0 <= j < a.len() && a[j] != b[j];
        assert(exists|j: int| 0 <= j < a.len() && a[j] != b[j]) by {
            if forall|j: int| 0 <= j < a.len() ==> a[j] == b[j] {
                assert(a =~= b);
            }
        }
        let i = lemma_first_mismatch(a, b, some);
        lemma_lex_first_difference(a, b, i);
        assert(a.take(a.len() as int) =~= a);
        assert(b.take(b.len() as int) =~= b);
        if a[i] < b[i] {
            lemma_first_difference_decides(a, b, i, a.len() as int);
        } else {
            lemma_first_difference_decides(b, a, i, a.len() as int);
        }
    }
}

proof fn lemma_first_mismatch(a: Seq<u8>, b: Seq<u8>, some: int) -> (i: int)
    requires
        a.len() == b.len(),
        0 <= some < a.len(),
        a[some] != b[some],
    ensures
        0 <= i <= some,
        a[i] != b[i],
        forall|j: int| 0 <= j < i ==> a[j] == b[j],
    decreases some,
{
    if exists|k: int| 0 <= k < some && a[k] != b[k] {
        let k = choose|k: int| 0 <= k < some && a[k] != b[k];
        lemma_first_mismatch(a, b, k)
    } else {
        some
    }
}

/// Whether `a` comes before `b`.
pub fn key_less(a: &[u8], b: &[u8]) -> (r: bool)
    ensures
        r == lex_less(a@, b@),
{
    let mut i: usize = 0;
    while i < a.len() && i < b.len()
        invariant
            0 <= i <= a.len(),
            i <= b.len(),
            forall|j: int| 0 <= j < i ==> a[j] == b[j],
        decreases a.len() - i,
    {
        if a[i] != b[i] {
            proof {
                lemma_lex_first_difference(a@, b@, i as int);
            }
            return a[i] < b[i];
        }
        i = i + 1;
    }
    proof {
        lemma_lex_first_difference(a@, b@, i as int);
    }
    i < b.len()
}

/// Whether `key` begins with `prefix`.
pub fn has_prefix(key: &[u8], prefix: &[u8]) -> (r: bool)
    ensures
        r == starts_with(key@, prefix@),
{
    if key.len() < prefix.len() {
        return false;
    }
    let head: &[u8] = vstd::slice::slice_subrange(key, 0, prefix.len());
    assert(head@ =~= key@.take(prefix@.len() as int));
    bytes_eq(head, prefix)
}

// ---------------------------------------------------------------------------
// Rows
// ---------------------------------------------------------------------------

/// A key and, where it could be decoded, the value under it.
pub type RowView<V> = (Seq<u8>, Option<V>);

/// Keys stand in ascending order.
pub open spec fn in_key_order<V>(rows: Seq<RowView<V>>) -> bool {
    forall|i: int, j: int| 0 <= i < j < rows.len() ==> lex_less(#[trigger] rows[i].0, #[trigger] rows[j].0)
}

/// There is a row under `key`.
pub open spec fn has_key<V>(rows: Seq<RowView<V>>, key: Seq<u8>) -> bool {
    exists|i: int| 0 <= i < rows.len() && #[trigger] rows[i].0 == key
}

/// Where the row of `key` stands, or belongs.
pub open spec fn is_slot<V>(rows: Seq<RowView<V>>, key: Seq<u8>, i: int) -> bool {
    &&& 0 <= i <= rows.len()
    &&& forall|j: int| 0 <= j < i ==> lex_less(#[trigger] rows[j].0, key)
    &&& forall|j: int| i <= j < rows.len() ==> !lex_less(#[trigger] rows[j].0, key)
}

/// Where the row of `key` stands, or belongs.
pub open spec fn slot<V>(rows: Seq<RowView<V>>, key: Seq<u8>) -> int {
    choose|i: int| is_slot(rows, key, i)
}

/// The rows after `value` was put under `key`.
pub open spec fn with_row<V>(rows: Seq<RowView<V>>, key: Seq<u8>, value: V) -> Seq<RowView<V>> {
    if has_key(rows, key) {
        rows.update(slot(rows, key), (key, Some(value)))
    } else {
        rows.insert(slot(rows, key), (key, Some(value)))
    }
}

/// The rows after the one under `key` was deleted.
pub open spec fn without_row<V>(rows: Seq<RowView<V>>, key: Seq<u8>) -> Seq<RowView<V>> {
    rows.filter(key_differs(key))
}

/// The rows under other keys than `key`.
pub open spec fn key_differs<V>(key: Seq<u8>) -> spec_fn(RowView<V>) -> bool {
    |r: RowView<V>| r.0 != key
}

/// What is stored under `key`.
pub open spec fn value_at<V>(rows: Seq<RowView<V>>, key: Seq<u8>) -> Option<Option<V>> {
    if has_key(rows, key) {
        Some(rows[slot(rows, key)].1)
    } else {
        None
    }
}

/// There is one place only where a row stands or belongs.
pub proof fn lemma_slot_unique<V>(rows: Seq<RowView<V>>, key: Seq<u8>, i: int, j: int)
    requires
        is_slot(rows, key, i),
        is_slot(rows, key, j),
    ensures
        i == j,
{
    if i < j {
        assert(lex_less(rows[i].0, key));
    }
    if j < i {
        assert(lex_less(rows[j].0, key));
    }
}

/// Every key has its place.
pub proof fn lemma_slot_exists<V>(rows: Seq<RowView<V>>, key: Seq<u8>, n: int) -> (i: int)
    requires
        in_key_order(rows),
        0 <= n <= rows.len(),
        forall|j: int| n <= j < rows.len() ==> !lex_less(#[trigger] rows[j].0, key),
    ensures
        is_slot(rows, key, i),
        slot(rows, key) == i,
    decreases n,
{
    if n > 0 && !lex_less(rows[n - 1].0, key) {
        lemma_slot_exists(rows, key, n - 1)
    } else {
        assert forall|j: int| 0 <= j < n implies lex_less(#[trigger] rows[j].0, key) by {
            if j < n - 1 {
                assert(lex_less(rows[j].0, rows[n - 1].0));
                lemma_lex_transitive(rows[j].0, rows[n - 1].0, key);
            }
        }
        assert(is_slot(rows, key, n));
        lemma_slot_unique(rows, key, n, slot(rows, key));
        n
    }
}

/// The row of a key that is there stands at its place.
pub proof fn lemma_found_at_slot<V>(rows: Seq<RowView<V>>, key: Seq<u8>, k: int)
    requires
        in_key_order(rows),
        0 <= k < rows.len(),
        rows[k].0 == key,
    ensures
        is_slot(rows, key, k),
        slot(rows, key) == k,
{
    lemma_lex_irreflexive(key);
    assert forall|j: int| k <= j < rows.len() implies !lex_less(#[trigger] rows[j].0, key) by {
        if j > k {
            assert(lex_less(rows[k].0, rows[j].0));
            if lex_less(rows[j].0, key) {
                lemma_lex_transitive(key, rows[j].0, key);
            }
        }
    }
    lemma_slot_unique(rows, key, k, slot(rows, key));
}

/// What a put does: keys stay in order, the row of the key is the new one and
/// every other row is as it was.
pub proof fn law_put<V>(rows: Seq<RowView<V>>, key: Seq<u8>, value: V, other: Seq<u8>)
    requires
        in_key_order(rows),
    ensures
        in_key_order(with_row(rows, key, value)),
        value_at(with_row(rows, key, value), key) == Some(Some(value)),
        other != key ==> value_at(with_row(rows, key, value), other) == value_at(rows, other),
{
    let s = lemma_slot_exists(rows, key, rows.len() as int);
    let after = with_row(rows, key, value);
    let found = has_key(rows, key);
    if found {
        let k = choose|k: int| 0 <= k < rows.len() && #[trigger] rows[k].0 == key;
        lemma_found_at_slot(rows, key, k);
    }
    assert forall|i: int, j: int| 0 <= i < j < after.len() implies lex_less(
        #[trigger] after[i].0,
        #[trigger] after[j].0,
    ) by {
        if found {
            assert(lex_less(rows[i].0, rows[j].0));
        } else {
            let oi = if i < s { i } else { i - 1 };
            let oj = if j < s { j } else { j - 1 };
            if i != s && j != s {
                assert(lex_less(rows[oi].0, rows[oj].0));
            } else if j == s {
                assert(lex_less(rows[oi].0, key));
            } else {
                assert(!lex_less(rows[oj].0, key));
                lemma_lex_total(rows[oj].0, key);
            }
        }
    }
    assert(after[s] == (key, Some(value)));
    assert(after[s].0 == key);
    lemma_found_at_slot(after, key, s);
    if other != key {
        if has_key(rows, other) {
            let k = choose|k: int| 0 <= k < rows.len() && #[trigger] rows[k].0 == other;
            lemma_found_at_slot(rows, other, k);
            let a = if found || k < s { k } else { k + 1 };
            assert(after[a] == rows[k]);
            assert(after[a].0 == other);
            lemma_found_at_slot(after, other, a);
        }
        if has_key(after, other) {
            let a = choose|a: int| 0 <= a < after.len() && #[trigger] after[a].0 == other;
            let k = if found || a < s { a } else { a - 1 };
            assert(after[a] == rows[k]);
            assert(rows[k].0 == other);
        }
    }
}

/// A subsequence of ordered rows is ordered, and what it says of a key that it
/// keeps is what the rows said.
pub proof fn law_filter_keeps_order<V>(rows: Seq<RowView<V>>, keep: spec_fn(RowView<V>) -> bool)
    requires
        in_key_order(rows),
    ensures
        in_key_order(rows.filter(keep)),
        forall|i: int| 0 <= i < rows.filter(keep).len() ==> rows.contains(#[trigger] rows.filter(keep)[i]) && keep(
            rows.filter(keep)[i],
        ),
        forall|i: int| 0 <= i < rows.len() && keep(#[trigger] rows[i]) ==> rows.filter(keep).contains(rows[i]),
    decreases rows.len(),
{
    reveal(Seq::filter);
    if rows.len() > 0 {
        let init = rows.drop_last();
        assert(in_key_order(init)) by {
            assert forall|i: int, j: int| 0 <= i < j < init.len() implies lex_less(
                #[trigger] init[i].0,
                #[trigger] init[j].0,
            ) by {
                assert(lex_less(rows[i].0, rows[j].0));
            }
        }
        law_filter_keeps_order(init, keep);
        let f0 = init.filter(keep);
        let f = rows.filter(keep);
        assert forall|i: int| 0 <= i < f.len() implies rows.contains(#[trigger] f[i]) && keep(f[i]) by {
            if i < f0.len() {
                assert(f[i] == f0[i]);
                assert(init.contains(f0[i]));
                let k = choose|k: int| 0 <= k < init.len() && init[k] == f0[i];
                assert(rows[k] == f[i]);
            } else {
                assert(rows[rows.len() - 1] == f[i]);
            }
        }
        assert forall|i: int, j: int| 0 <= i < j < f.len() implies lex_less(#[trigger] f[i].0, #[trigger] f[j].0) by {
            if j < f0.len() {
                assert(lex_less(f0[i].0, f0[j].0));
            } else {
                assert(init.contains(f0[i]));
                let k = choose|k: int| 0 <= k < init.len() && init[k] == f0[i];
                assert(lex_less(rows[k].0, rows[rows.len() - 1].0));
            }
        }
        assert forall|i: int| 0 <= i < rows.len() && keep(#[trigger] rows[i]) implies f.contains(rows[i]) by {
            if i < init.len() {
                assert(init[i] == rows[i]);
                assert(f0.contains(init[i]));
                let k = choose|k: int| 0 <= k < f0.len() && f0[k] == init[i];
                assert(f[k] == rows[i]);
            } else {
                assert(f[f.len() - 1] == rows[i]);
            }
        }
    }
}

/// What dropping rows does: a key that is kept is stored as before, one that
/// is dropped is not stored.
pub proof fn law_filter_values<V>(rows: Seq<RowView<V>>, keep: spec_fn(RowView<V>) -> bool, key: Seq<u8>)
    requires
        in_key_order(rows),
    ensures
        has_key(rows.filter(keep), key) <==> has_key(rows, key) && keep(rows[slot(rows, key)]),
        has_key(rows.filter(keep), key) ==> value_at(rows.filter(keep), key) == value_at(rows, key),
{
    law_filter_keeps_order(rows, keep);
    let f = rows.filter(keep);
    if has_key(f, key) {
        let i = choose|i: int| 0 <= i < f.len() && #[trigger] f[i].0 == key;
        lemma_found_at_slot(f, key, i);
        assert(rows.contains(f[i]));
        let k = choose|k: int| 0 <= k < rows.len() && rows[k] == f[i];
        assert(rows[k].0 == key);
        lemma_found_at_slot(rows, key, k);
    }
    if has_key(rows, key) && keep(rows[slot(rows, key)]) {
        let k = choose|k: int| 0 <= k < rows.len() && #[trigger] rows[k].0 == key;
        lemma_found_at_slot(rows, key, k);
        assert(f.contains(rows[k]));
        let i = choose|i: int| 0 <= i < f.len() && f[i] == rows[k];
        assert(f[i].0 == key);
    }
}

// ---------------------------------------------------------------------------
// The table
// ---------------------------------------------------------------------------

/// The medium behind a table did not answer.
#[derive(Clone, Copy, Debug, PartialEq, Eq, Structural)]
pub struct StorageFault;

/// One row of a table. The value is `None` where it could not be decoded.
#[derive(Debug)]
pub struct Row<T> {
    pub key: Vec<u8>,
    pub value: Option<T>,
}

impl<T: View> Row<T> {
    /// The row as key and value.
    pub open spec fn row_view(&self) -> RowView<T::V> {
        (
            self.key@,
            match self.value {
                Some(v) => Some(v@),
                None => None,
            },
        )
    }
}

/// A table of rows in the order of their keys.
#[derive(Debug)]
pub struct Keyspace<T> {
    /// The rows that the medium gives, up to where a read of it fails.
    pub rows: Vec<Row<T>>,
    /// Whether reads of the medium do not fail.
    pub readable: bool,
    /// Whether the medium takes writes.
    pub writable: bool,
}

/// What a [`Keyspace`] holds.
#[verifier::ext_equal]
pub struct KeyspaceView<V> {
    pub rows: Seq<RowView<V>>,
    pub readable: bool,
    pub writable: bool,
}

impl<V> KeyspaceView<V> {
    /// Keys stand in ascending order.
    pub open spec fn wf(self) -> bool {
        in_key_order(self.rows)
    }

    /// The table with other rows.
    pub open spec fn with_rows(self, rows: Seq<RowView<V>>) -> KeyspaceView<V> {
        KeyspaceView { rows, ..self }
    }
}

impl<T: View> View for Keyspace<T> {
    type V = KeyspaceView<T::V>;

    open spec fn view(&self) -> KeyspaceView<T::V> {
        KeyspaceView {
            rows: Seq::new(self.rows@.len(), |i: int| self.rows@[i].row_view()),
            readable: self.readable,
            writable: self.writable,
        }
    }
}

impl<T: View> Keyspace<T> {
    /// An empty table on a medium that answers.
    pub fn new() -> (r: Keyspace<T>)
        ensures
            r@.wf(),
            r@ == (KeyspaceView::<T::V> { rows: Seq::empty(), readable: true, writable: true }),
    {
        let r = Keyspace { rows: Vec::new(), readable: true, writable: true };
        assert(r@.rows =~= Seq::empty());
        r
    }

    /// Where the row of `key` stands or belongs, and whether it is there.
    pub fn locate(&self, key: &[u8]) -> (r: (bool, usize))
        requires
            self@.wf(),
        ensures
            r.0 == has_key(self@.rows, key@),
            is_slot(self@.rows, key@, r.1 as int),
            slot(self@.rows, key@) == r.1,
            r.0 ==> r.1 < self.rows@.len() && self@.rows[r.1 as int].0 == key@,
    {
        let mut i: usize = 0;
        let ghost rows = self@.rows;
        while i < self.rows.len() && key_less(&self.rows[i].key, key)
            invariant
                0 <= i <= self.rows.len(),
                rows == self@.rows,
                forall|j: int| 0 <= j < i ==> lex_less(#[trigger] rows[j].0, key@),
            decreases self.rows.len() - i,
        {
            assert(rows[i as int].0 == self.rows@[i as int].key@);
            i = i + 1;
        }
        proof {
            let s = lemma_slot_exists(rows, key@, rows.len() as int);
            if i < rows.len() {
                assert(rows[i as int].0 == self.rows@[i as int].key@);
            }
            if s < i {
                assert(lex_less(rows[s].0, key@));
            }
            if i < s {
                assert(lex_less(rows[i as int].0, key@));
            }
        }
        let found: bool = i < self.rows.len() && bytes_eq(&self.rows[i].key, key);
        proof {
            if found {
                assert(rows[i as int].0 == key@);
            } else if has_key(rows, key@) {
                let k = choose|k: int| 0 <= k < rows.len() && #[trigger] rows[k].0 == key@;
                lemma_found_at_slot(rows, key@, k);
                assert(rows[i as int].0 == self.rows@[i as int].key@);
            }
        }
        (found, i)
    }

    /// Puts `value` under `key`, in place of what was there.
    pub fn put(&mut self, key: Vec<u8>, value: T) -> (r: Result<(), StorageFault>)
        requires
            old(self)@.wf(),
        ensures
            final(self)@.wf(),
            r is Ok <==> old(self)@.writable,
            r is Ok ==> final(self)@ == old(self)@.with_rows(with_row(old(self)@.rows, key@, value@)),
            r is Err ==> final(self)@ == old(self)@,
    {
        if !self.writable {
            return Err(StorageFault);
        }
        let ghost before = self@;
        let (found, i): (bool, usize) = self.locate(&key);
        proof {
            law_put(before.rows, key@, value@, key@);
        }
        let ghost k = key@;
        let ghost v = value@;
        let row: Row<T> = Row { key, value: Some(value) };
        assert(row.row_view() == (k, Some(v)));
        if found {
            self.rows[i] = row;
        } else {
            self.rows.insert(i, row);
        }
        assert(self@.rows =~= with_row(before.rows, k, v));
        Ok(())
    }

    /// Deletes the row under `key`; a key that is not there changes nothing.
    pub fn delete(&mut self, key: &[u8]) -> (r: Result<(), StorageFault>)
        requires
            old(self)@.wf(),
        ensures
            final(self)@.wf(),
            r is Ok <==> old(self)@.writable,
            r is Ok ==> final(self)@ == old(self)@.with_rows(without_row(old(self)@.rows, key@)),
            r is Err ==> final(self)@ == old(self)@,
    {
        if !self.writable {
            return Err(StorageFault);
        }
        let ghost before = self@;
        let (found, i): (bool, usize) = self.locate(key);
        if found {
            self.rows.remove(i);
        }
        proof {
            lemma_without_row(before.rows, key@);
            law_filter_keeps_order(before.rows, key_differs::<T::V>(key@));
            assert(self@.rows =~= without_row(before.rows, key@));
        }
        Ok(())
    }
}

/// Deleting a row takes out the one that stands at its place.
pub proof fn lemma_without_row<V>(rows: Seq<RowView<V>>, key: Seq<u8>)
    requires
        in_key_order(rows),
    ensures
        without_row(rows, key) == (if has_key(rows, key) {
            rows.remove(slot(rows, key))
        } else {
            rows
        }),
{
    let keep = key_differs::<V>(key);
    if has_key(rows, key) {
        let k = choose|k: int| 0 <= k < rows.len() && #[trigger] rows[k].0 == key;
        lemma_found_at_slot(rows, key, k);
        lemma_drop_one(rows, keep, k);
    } else {
        lemma_drop_none(rows, keep);
    }
}

/// A filter that every row passes changes nothing.
pub proof fn lemma_drop_none<V>(rows: Seq<V>, keep: spec_fn(V) -> bool)
    requires
        forall|i: int| 0 <= i < rows.len() ==> keep(#[trigger] rows[i]),
    ensures
        rows.filter(keep) == rows,
    decreases rows.len(),
{
    reveal(Seq::filter);
    if rows.len() > 0 {
        lemma_drop_none(rows.drop_last(), keep);
        assert(rows =~= rows.drop_last().push(rows.last()));
    } else {
        assert(rows.filter(keep) =~= rows);
    }
}

/// A filter that no row passes leaves nothing.
pub proof fn lemma_drop_all<V>(rows: Seq<V>, keep: spec_fn(V) -> bool)
    requires
        forall|i: int| 0 <= i < rows.len() ==> !keep(#[trigger] rows[i]),
    ensures
        rows.filter(keep) == Seq::<V>::empty(),
    decreases rows.len(),
{
    reveal(Seq::filter);
    if rows.len() > 0 {
        lemma_drop_all(rows.drop_last(), keep);
    } else {
        assert(rows.filter(keep) =~= Seq::<V>::empty());
    }
}

/// A filter that one row does not pass takes out that row.
proof fn lemma_drop_one<V>(rows: Seq<RowView<V>>, keep: spec_fn(RowView<V>) -> bool, k: int)
    requires
        in_key_order(rows),
        0 <= k < rows.len(),
        forall|r: RowView<V>| #[trigger] keep(r) <==> r.0 != rows[k].0,
    ensures
        rows.filter(keep) == rows.remove(k),
    decreases rows.len(),
{
    reveal(Seq::filter);
    let init = rows.drop_last();
    if k == rows.len() - 1 {
        assert forall|i: int| 0 <= i < init.len() implies keep(#[trigger] init[i]) by {
            assert(lex_less(rows[i].0, rows[k].0));
            lemma_lex_irreflexive(rows[k].0);
        }
        lemma_drop_none(init, keep);
        assert(rows.remove(k) =~= init);
    } else {
        assert(in_key_order(init)) by {
            assert forall|i: int, j: int| 0 <= i < j < init.len() implies lex_less(
                #[trigger] init[i].0,
                #[trigger] init[j].0,
            ) by {
                assert(lex_less(rows[i].0, rows[j].0));
            }
        }
        lemma_drop_one(init, keep, k);
        assert(lex_less(rows[k].0, rows.last().0));
        lemma_lex_irreflexive(rows[k].0);
        assert(rows.remove(k) =~= init.remove(k).push(rows.last()));
    }
}

/// What a delete does: the key is gone and every other row is as it was.
pub proof fn law_delete<V>(rows: Seq<RowView<V>>, key: Seq<u8>, other: Seq<u8>)
    requires
        in_key_order(rows),
    ensures
        in_key_order(without_row(rows, key)),
        value_at(without_row(rows, key), key) is None,
        other != key ==> value_at(without_row(rows, key), other) == value_at(rows, other),
{
    let keep = key_differs::<V>(key);
    law_filter_keeps_order(rows, keep);
    law_filter_values(rows, keep, key);
    law_filter_values(rows, keep, other);
    if has_key(rows, key) {
        let k = choose|k: int| 0 <= k < rows.len() && #[trigger] rows[k].0 == key;
        lemma_found_at_slot(rows, key, k);
    }
    if has_key(rows, other) {
        let k = choose|k: int| 0 <= k < rows.len() && #[trigger] rows[k].0 == other;
        lemma_found_at_slot(rows, other, k);
    }
}

// ---------------------------------------------------------------------------
// Scans
// ---------------------------------------------------------------------------

/// The rows whose key begins with `prefix`.
pub open spec fn under_prefix<V>(prefix: Seq<u8>) -> spec_fn(RowView<V>) -> bool {
    |r: RowView<V>| starts_with(r.0, prefix)
}

/// The rows whose key begins with `prefix` and has `len` bytes, and whose
/// value could be decoded.
pub open spec fn decoded_under<V>(prefix: Seq<u8>, len: nat) -> spec_fn(RowView<V>) -> bool {
    |r: RowView<V>| starts_with(r.0, prefix) && r.0.len() == len && r.1 is Some
}

/// One more element of a filtered sequence.
pub proof fn lemma_filter_step<A>(s: Seq<A>, keep: spec_fn(A) -> bool, i: int)
    requires
        0 <= i < s.len(),
    ensures
        s.take(i + 1).filter(keep) == (if keep(s[i]) {
            s.take(i).filter(keep).push(s[i])
        } else {
            s.take(i).filter(keep)
        }),
{
    reveal(Seq::filter);
    assert(s.take(i + 1).drop_last() =~= s.take(i));
}

/// Filtering one element keeps it or nothing.
pub proof fn lemma_filter_one<A>(x: A, keep: spec_fn(A) -> bool)
    ensures
        seq![x].filter(keep) == (if keep(x) {
            seq![x]
        } else {
            Seq::<A>::empty()
        }),
{
    let s = seq![x];
    lemma_filter_empty(s, keep);
    lemma_filter_step(s, keep, 0);
    assert(s.take(1) =~= s);
    assert(Seq::<A>::empty().push(x) =~= s);
}

/// Filtering nothing gives nothing.
pub proof fn lemma_filter_empty<A>(s: Seq<A>, keep: spec_fn(A) -> bool)
    ensures
        s.take(0).filter(keep) == Seq::<A>::empty(),
{
    reveal(Seq::filter);
    assert(s.take(0).filter(keep) =~= Seq::<A>::empty());
}

impl<T: View> Keyspace<T> {
    /// The number of rows whose key begins with `prefix`.
    pub fn count_under(&self, prefix: &[u8]) -> (r: usize)
        ensures
            r == self@.rows.filter(under_prefix(prefix@)).len(),
    {
        let ghost rows = self@.rows;
        let ghost keep = under_prefix::<T::V>(prefix@);
        let mut n: usize = 0;
        let mut i: usize = 0;
        proof {
            lemma_filter_empty(rows, keep);
        }
        while i < self.rows.len()
            invariant
                0 <= i <= self.rows.len(),
                rows == self@.rows,
                keep == under_prefix::<T::V>(prefix@),
                n <= i,
                n == rows.take(i as int).filter(keep).len(),
            decreases self.rows.len() - i,
        {
            proof {
                lemma_filter_step(rows, keep, i as int);
                assert(rows[i as int].0 == self.rows@[i as int].key@);
            }
            if has_prefix(&self.rows[i].key, prefix) {
                n = n + 1;
            }
            i = i + 1;
        }
        assert(rows.take(i as int) =~= rows);
        n
    }

    /// Where the rows stand whose key begins with `prefix` and has `len`
    /// bytes and whose value could be decoded, in the order of their keys.
    pub fn scan(&self, prefix: &[u8], len: usize) -> (r: Vec<usize>)
        ensures
            is_scan(self@.rows, prefix@, len as nat, r@),
    {
        let ghost rows = self@.rows;
        let ghost keep = decoded_under::<T::V>(prefix@, len as nat);
        let mut out: Vec<usize> = Vec::new();
        let mut i: usize = 0;
        proof {
            lemma_filter_empty(rows, keep);
        }
        while i < self.rows.len()
            invariant
                0 <= i <= self.rows.len(),
                rows == self@.rows,
                keep == decoded_under::<T::V>(prefix@, len as nat),
                out.len() == rows.take(i as int).filter(keep).len(),
                forall|k: int|
                    0 <= k < out.len() ==> #[trigger] out@[k] < i && rows[out@[k] as int] == rows.take(
                        i as int,
                    ).filter(keep)[k],
                forall|j: int, k: int| 0 <= j < k < out.len() ==> out@[j] < out@[k],
            decreases self.rows.len() - i,
        {
            proof {
                lemma_filter_step(rows, keep, i as int);
                assert(rows[i as int] == self.rows@[i as int].row_view());
            }
            let row: &Row<T> = &self.rows[i];
            let good: bool = has_prefix(&row.key, prefix) && row.key.len() == len && row.value.is_some();
            if good {
                out.push(i);
            }
            i = i + 1;
        }
        assert(rows.take(i as int) =~= rows);
        out
    }
}

/// `r` says where the rows stand whose key begins with `prefix` and has `len`
/// bytes and whose value could be decoded, in the order of their keys.
pub open spec fn is_scan<V>(rows: Seq<RowView<V>>, prefix: Seq<u8>, len: nat, r: Seq<usize>) -> bool {
    let found = rows.filter(decoded_under(prefix, len));
    &&& r.len() == found.len()
    &&& forall|k: int| 0 <= k < r.len() ==> #[trigger] r[k] < rows.len() && rows[r[k] as int] == found[k]
    &&& forall|j: int, k: int| 0 <= j < k < r.len() ==> r[j] < r[k]
}

/// The rows that another choice leaves.
pub open spec fn others<V>(drop: spec_fn(RowView<V>) -> bool) -> spec_fn(RowView<V>) -> bool {
    |r: RowView<V>| !drop(r)
}

/// What a filter keeps of rows after a put: the put row counts as every other.
pub proof fn law_put_filtered<V>(rows: Seq<RowView<V>>, key: Seq<u8>, value: V, keep: spec_fn(RowView<V>) -> bool)
    requires
        in_key_order(rows),
    ensures
        with_row(rows, key, value).filter(keep).len() <= rows.filter(keep).len() + 1,
        !keep((key, Some(value))) && (has_key(rows, key) ==> !keep(rows[slot(rows, key)])) ==> with_row(
            rows,
            key,
            value,
        ).filter(keep) == rows.filter(keep),
{
    let s = lemma_slot_exists(rows, key, rows.len() as int);
    let new = seq![(key, Some(value))];
    lemma_filter_one((key, Some(value)), keep);
    let after = with_row(rows, key, value);
    Seq::filter_distributes_over_add(rows.take(s), new, keep);
    if has_key(rows, key) {
        let k = choose|k: int| 0 <= k < rows.len() && #[trigger] rows[k].0 == key;
        lemma_found_at_slot(rows, key, k);
        let old_row = seq![rows[s]];
        lemma_filter_one(rows[s], keep);
        assert(rows =~= (rows.take(s) + old_row) + rows.skip(s + 1));
        assert(after =~= (rows.take(s) + new) + rows.skip(s + 1));
        Seq::filter_distributes_over_add(rows.take(s), old_row, keep);
        Seq::filter_distributes_over_add(rows.take(s) + old_row, rows.skip(s + 1), keep);
        Seq::filter_distributes_over_add(rows.take(s) + new, rows.skip(s + 1), keep);
    } else {
        assert(rows =~= rows.take(s) + rows.skip(s));
        assert(after =~= (rows.take(s) + new) + rows.skip(s));
        Seq::filter_distributes_over_add(rows.take(s), rows.skip(s), keep);
        Seq::filter_distributes_over_add(rows.take(s) + new, rows.skip(s), keep);
    }
    if !keep((key, Some(value))) && (has_key(rows, key) ==> !keep(rows[s])) {
        assert(after.filter(keep) =~= rows.filter(keep));
    }
}

/// Filtering twice is filtering by both.
pub proof fn lemma_filter_twice<A>(
    s: Seq<A>,
    p: spec_fn(A) -> bool,
    q: spec_fn(A) -> bool,
    both: spec_fn(A) -> bool,
)
    requires
        forall|i: int| 0 <= i < s.len() ==> (#[trigger] both(s[i]) <==> p(s[i]) && q(s[i])),
    ensures
        s.filter(p).filter(q) == s.filter(both),
    decreases s.len(),
{
    reveal(Seq::filter);
    if s.len() > 0 {
        let init = s.drop_last();
        assert forall|i: int| 0 <= i < init.len() implies (#[trigger] both(init[i]) <==> p(init[i]) && q(init[i])) by {
            assert(both(s[i]) <==> p(s[i]) && q(s[i]));
        }
        lemma_filter_twice(init, p, q, both);
        assert(both(s[s.len() - 1]) <==> p(s[s.len() - 1]) && q(s[s.len() - 1]));
        if p(s.last()) {
            let f = init.filter(p).push(s.last());
            assert(f.drop_last() =~= init.filter(p));
        }
    }
}

/// Filters that agree on every element keep the same.
pub proof fn lemma_filter_agree<A>(s: Seq<A>, p: spec_fn(A) -> bool, q: spec_fn(A) -> bool)
    requires
        forall|i: int| 0 <= i < s.len() ==> (#[trigger] p(s[i]) <==> q(s[i])),
    ensures
        s.filter(p) == s.filter(q),
    decreases s.len(),
{
    reveal(Seq::filter);
    if s.len() > 0 {
        let init = s.drop_last();
        assert forall|i: int| 0 <= i < init.len() implies (#[trigger] p(init[i]) <==> q(init[i])) by {
            assert(p(s[i]) <==> q(s[i]));
        }
        lemma_filter_agree(init, p, q);
        assert(p(s[s.len() - 1]) <==> q(s[s.len() - 1]));
    }
}

/// The rows under none of these keys.
pub open spec fn apart_from<V>(keys: Seq<Seq<u8>>) -> spec_fn(RowView<V>) -> bool {
    |r: RowView<V>| !keys.contains(r.0)
}

/// The keys of these rows.
pub open spec fn keys_of<V>(rows: Seq<RowView<V>>) -> Seq<Seq<u8>> {
    Seq::new(rows.len(), |i: int| rows[i].0)
}

/// The byte strings in a list.
pub open spec fn strings(keys: Seq<Vec<u8>>) -> Seq<Seq<u8>> {
    Seq::new(keys.len(), |i: int| keys[i]@)
}

/// Deleting one more key.
proof fn lemma_one_more_key<V>(rows: Seq<RowView<V>>, keys: Seq<Seq<u8>>, key: Seq<u8>)
    ensures
        without_row(rows.filter(apart_from(keys)), key) == rows.filter(apart_from(keys.push(key))),
{
    let p = apart_from::<V>(keys);
    let q = key_differs::<V>(key);
    let both = apart_from::<V>(keys.push(key));
    assert forall|i: int| 0 <= i < rows.len() implies (#[trigger] both(rows[i]) <==> p(rows[i]) && q(rows[i])) by {
        if keys.contains(rows[i].0) {
            let k = choose|k: int| 0 <= k < keys.len() && keys[k] == rows[i].0;
            assert(keys.push(key)[k] == rows[i].0);
        }
        assert(keys.push(key)[keys.len() as int] == key);
    }
    lemma_filter_twice(rows, p, q, both);
}

impl<T: View> Keyspace<T> {
    /// Deletes the rows under these keys, and tells whether the medium took
    /// every deletion. Where it takes none, nothing leaves.
    pub fn delete_each(&mut self, keys: &Vec<Vec<u8>>) -> (r: bool)
        requires
            old(self)@.wf(),
        ensures
            final(self)@.wf(),
            r == (keys.len() == 0 || old(self)@.writable),
            old(self)@.writable ==> final(self)@ == old(self)@.with_rows(
                old(self)@.rows.filter(apart_from(strings(keys@))),
            ),
            !old(self)@.writable ==> final(self)@ == old(self)@,
    {
        let ghost before = self@;
        let ghost all = strings(keys@);
        let mut ok: bool = true;
        let mut i: usize = 0;
        proof {
            lemma_drop_none(before.rows, apart_from::<T::V>(all.take(0)));
        }
        while i < keys.len()
            invariant
                0 <= i <= keys.len(),
                all == strings(keys@),
                self@.wf(),
                ok == (i == 0 || before.writable),
                before.writable ==> self@ == before.with_rows(before.rows.filter(apart_from(all.take(i as int)))),
                !before.writable ==> self@ == before,
            decreases keys.len() - i,
        {
            proof {
                lemma_one_more_key(before.rows, all.take(i as int), keys@[i as int]@);
                assert(all.take(i as int).push(keys@[i as int]@) =~= all.take(i + 1));
            }
            if self.delete(&keys[i]).is_err() {
                ok = false;
            }
            i = i + 1;
        }
        assert(all.take(i as int) =~= all);
        ok
    }
}

} // verus!
