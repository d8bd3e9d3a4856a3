//! Stable sorting by a total preorder, and the string order it uses.
//!
//! Every sort in this crate is a stable sort by some key (`sort_by` /
//! `sort_by_key` keep equal elements in input order). [`stable_sort`] is an
//! insertion sort proved equal to [`sort_seq`]; [`lemma_sort_seq_sorted`]
//! and [`lemma_sort_seq_permutation`] show that result is ordered and a
//! permutation of the input.
use vstd::prelude::*;

use crate::text::str_to_chars;

verus! {

/// A total preorder on a type, with an executable test for it.
pub trait SortKey: Sized {
    spec fn key_le(self, other: Self) -> bool;

    proof fn lemma_key_total(a: Self, b: Self)
        ensures
            a.key_le(b) || b.key_le(a),
    ;

    proof fn lemma_key_trans(a: Self, b: Self, c: Self)
        requires
            a.key_le(b),
            b.key_le(c),
        ensures
            a.key_le(c),
    ;

    fn le(&self, other: &Self) -> (r: bool)
        ensures
            r == self.key_le(*other),
    ;
}

/// Inserts `x` into `s` right after the last element that is not greater
/// than it (scanning from the back), as one step of insertion sort.
pub open spec fn insert_sorted<T: SortKey>(s: Seq<T>, x: T) -> Seq<T>
    decreases s.len(),
{
    if s.len() == 0 {
        seq![x]
    } else if s.last().key_le(x) {
        s.push(x)
    } else {
        insert_sorted(s.drop_last(), x).push(s.last())
    }
}

/// The stable sort of `s`: its elements inserted one at a time, in order.
pub open spec fn sort_seq<T: SortKey>(s: Seq<T>) -> Seq<T>
    decreases s.len(),
{
    if s.len() == 0 {
        seq![]
    } else {
        insert_sorted(sort_seq(s.drop_last()), s.last())
    }
}

/// `s` is in non-decreasing key order.
pub open spec fn is_sorted<T: SortKey>(s: Seq<T>) -> bool {
    forall|i: int, j: int| 0 <= i < j < s.len() ==> (#[trigger] s[i]).key_le(#[trigger] s[j])
}

proof fn lemma_insert_sorted_sorted<T: SortKey>(s: Seq<T>, x: T)
    requires
        is_sorted(s),
    ensures
        is_sorted(insert_sorted(s, x)),
        insert_sorted(s, x).len() == s.len() + 1,
        forall|k: int|
            0 <= k < insert_sorted(s, x).len() ==> #[trigger] insert_sorted(s, x)[k] == x
                || s.contains(insert_sorted(s, x)[k]),
    decreases s.len(),
{
    if s.len() == 0 {
    } else if s.last().key_le(x) {
        let r = s.push(x);
        assert forall|i: int, j: int| 0 <= i < j < r.len() implies (#[trigger] r[i]).key_le(
            #[trigger] r[j],
        ) by {
            if j == s.len() {
                if i < s.len() - 1 {
                    T::lemma_key_trans(s[i], s.last(), x);
                }
            }
        }
        assert forall|k: int| 0 <= k < r.len() implies #[trigger] r[k] == x || s.contains(r[k]) by {
            if k < s.len() {
                assert(s[k] == r[k]);
            }
        }
    } else {
        let t = s.drop_last();
        assert forall|i: int, j: int| 0 <= i < j < t.len() implies (#[trigger] t[i]).key_le(
            #[trigger] t[j],
        ) by {
            assert(t[i] == s[i] && t[j] == s[j]);
        }
        lemma_insert_sorted_sorted(t, x);
        let m = insert_sorted(t, x);
        let r = m.push(s.last());
        T::lemma_key_total(s.last(), x);
        assert forall|i: int, j: int| 0 <= i < j < r.len() implies (#[trigger] r[i]).key_le(
            #[trigger] r[j],
        ) by {
            if j == m.len() {
                assert(r[i] == m[i]);
                if m[i] == x {
                } else {
                    assert(t.contains(m[i]));
                    let q = choose|q: int| 0 <= q < t.len() && t[q] == m[i];
                    assert(s[q] == t[q]);
                }
            } else {
                assert(r[i] == m[i] && r[j] == m[j]);
            }
        }
        assert forall|k: int| 0 <= k < r.len() implies #[trigger] r[k] == x || s.contains(r[k]) by {
            if k < m.len() {
                assert(r[k] == m[k]);
                if m[k] != x {
                    let q = choose|q: int| 0 <= q < t.len() && t[q] == m[k];
                    assert(s[q] == t[q]);
                }
            } else {
                assert(s[s.len() - 1] == r[k]);
            }
        }
    }
}

/// The stable sort is in key order.
pub proof fn lemma_sort_seq_sorted<T: SortKey>(s: Seq<T>)
    ensures
        is_sorted(sort_seq(s)),
        sort_seq(s).len() == s.len(),
    decreases s.len(),
{
    if s.len() > 0 {
        lemma_sort_seq_sorted(s.drop_last());
        lemma_insert_sorted_sorted(sort_seq(s.drop_last()), s.last());
    }
}

proof fn lemma_insert_sorted_multiset<T: SortKey>(s: Seq<T>, x: T)
    ensures
        insert_sorted(s, x).to_multiset() == s.to_multiset().insert(x),
    decreases s.len(),
{
    broadcast use vstd::seq_lib::group_seq_properties;
    broadcast use vstd::multiset::group_multiset_axioms;

    if s.len() == 0 {
        assert(seq![x] =~= Seq::<T>::empty().push(x));
    } else if s.last().key_le(x) {
    } else {
        lemma_insert_sorted_multiset(s.drop_last(), x);
        assert(s.drop_last().push(s.last()) =~= s);
        assert(insert_sorted(s, x).to_multiset() =~= s.to_multiset().insert(x));
    }
}

/// The stable sort keeps exactly the input's elements.
pub proof fn lemma_sort_seq_permutation<T: SortKey>(s: Seq<T>)
    ensures
        sort_seq(s).to_multiset() == s.to_multiset(),
    decreases s.len(),
{
    broadcast use vstd::seq_lib::group_seq_properties;

    if s.len() > 0 {
        lemma_sort_seq_permutation(s.drop_last());
        lemma_insert_sorted_multiset(sort_seq(s.drop_last()), s.last());
        assert(s.drop_last().push(s.last()) =~= s);
    }
}

proof fn lemma_insert_sorted_multiset_map<T: SortKey, B>(s: Seq<T>, x: T, f: spec_fn(T) -> B)
    ensures
        insert_sorted(s, x).map_values(f).to_multiset() == s.map_values(f).to_multiset().insert(
            f(x),
        ),
    decreases s.len(),
{
    broadcast use vstd::seq_lib::group_seq_properties;
    broadcast use vstd::multiset::group_multiset_axioms;

    if s.len() == 0 {
        assert(insert_sorted(s, x).map_values(f) =~= Seq::<B>::empty().push(f(x)));
        assert(s.map_values(f) =~= Seq::<B>::empty());
    } else if s.last().key_le(x) {
        assert(s.push(x).map_values(f) =~= s.map_values(f).push(f(x)));
    } else {
        lemma_insert_sorted_multiset_map(s.drop_last(), x, f);
        assert(insert_sorted(s, x).map_values(f) =~= insert_sorted(s.drop_last(), x).map_values(
            f,
        ).push(f(s.last())));
        assert(s.map_values(f) =~= s.drop_last().map_values(f).push(f(s.last())));
        assert(insert_sorted(s, x).map_values(f).to_multiset() =~= s.map_values(f).to_multiset().insert(
            f(x),
        ));
    }
}

/// The stable sort keeps exactly the input's elements, seen through any
/// function of them.
pub proof fn lemma_sort_seq_permutation_map<T: SortKey, B>(s: Seq<T>, f: spec_fn(T) -> B)
    ensures
        sort_seq(s).map_values(f).to_multiset() == s.map_values(f).to_multiset(),
    decreases s.len(),
{
    broadcast use vstd::seq_lib::group_seq_properties;

    if s.len() > 0 {
        lemma_sort_seq_permutation_map(s.drop_last(), f);
        lemma_insert_sorted_multiset_map(sort_seq(s.drop_last()), s.last(), f);
        assert(s.map_values(f) =~= s.drop_last().map_values(f).push(f(s.last())));
    }
}

/// Inserts `x` into `out` the way [`insert_sorted`] does.
fn insert_by_key<T: SortKey>(out: &mut Vec<T>, x: T)
    ensures
        final(out)@ == insert_sorted(old(out)@, x),
{
    let ghost s = out@;
    let mut p = out.len();
    assert(s.take(p as int) =~= s && s.skip(p as int) =~= Seq::<T>::empty());
    while p > 0 && !out[p - 1].le(&x)
        invariant
            out@ == s,
            p <= s.len(),
            insert_sorted(s, x) == insert_sorted(s.take(p as int), x) + s.skip(p as int),
        decreases p,
    {
        assert(s.take(p as int).drop_last() =~= s.take(p - 1));
        assert(s.take(p as int).last() == s[p - 1]);
        assert(seq![s[p - 1]] + s.skip(p as int) =~= s.skip(p - 1));
        assert(insert_sorted(s.take(p - 1), x).push(s[p - 1]) + s.skip(p as int) =~= insert_sorted(
            s.take(p - 1),
            x,
        ) + s.skip(p - 1));
        p -= 1;
    }
    if p > 0 {
        assert(s.take(p as int).last() == s[p - 1]);
    }
    out.insert(p, x);
    assert(out@ =~= insert_sorted(s, x));
}

/// Sorts `v` stably by `T`'s key (`slice::sort_by` with a total preorder).
pub fn stable_sort<T: SortKey>(v: Vec<T>) -> (r: Vec<T>)
    ensures
        r@ == sort_seq(v@),
{
    let ghost orig = v@;
    let n = v.len();
    let mut rest = v;
    let mut out: Vec<T> = Vec::new();
    let mut k: usize = 0;
    while rest.len() > 0
        invariant
            k <= orig.len(),
            orig.len() == n,
            rest@ == orig.skip(k as int),
            out@ == sort_seq(orig.take(k as int)),
        decreases rest.len(),
    {
        let x = rest.remove(0);
        assert(orig.take(k + 1).drop_last() =~= orig.take(k as int));
        assert(orig.take(k + 1).last() == x);
        insert_by_key(&mut out, x);
        k += 1;
        assert(rest@ =~= orig.skip(k as int));
    }
    assert(orig.take(k as int) =~= orig);
    out
}

// ---------------------------------------------------------------------
// String order.
// ---------------------------------------------------------------------

/// Lexicographic order on character sequences, by code point (`String`'s
/// `Ord`: UTF-8 byte order agrees with code point order).
pub open spec fn lex_le(a: Seq<char>, b: Seq<char>) -> bool
    decreases a.len(),
{
    if a.len() == 0 {
        true
    } else if b.len() == 0 {
        false
    } else if a[0] != b[0] {
        a[0] < b[0]
    } else {
        lex_le(a.skip(1), b.skip(1))
    }
}

/// Strict lexicographic order.
pub open spec fn lex_lt(a: Seq<char>, b: Seq<char>) -> bool {
    lex_le(a, b) && a != b
}

pub proof fn lemma_lex_total(a: Seq<char>, b: Seq<char>)
    ensures
        lex_le(a, b) || lex_le(b, a),
    decreases a.len(),
{
    if a.len() > 0 && b.len() > 0 && a[0] == b[0] {
        lemma_lex_total(a.skip(1), b.skip(1));
    }
}

pub proof fn lemma_lex_trans(a: Seq<char>, b: Seq<char>, c: Seq<char>)
    requires
        lex_le(a, b),
        lex_le(b, c),
    ensures
        lex_le(a, c),
    decreases a.len(),
{
    if a.len() > 0 && b.len() > 0 && c.len() > 0 && a[0] == b[0] && b[0] == c[0] {
        lemma_lex_trans(a.skip(1), b.skip(1), c.skip(1));
    }
}

pub proof fn lemma_lex_antisym(a: Seq<char>, b: Seq<char>)
    requires
        lex_le(a, b),
        lex_le(b, a),
    ensures
        a == b,
    decreases a.len(),
{
    if a.len() > 0 && b.len() > 0 {
        lemma_lex_antisym(a.skip(1), b.skip(1));
        assert(a =~= seq![a[0]] + a.skip(1));
        assert(b =~= seq![b[0]] + b.skip(1));
    }
}

pub proof fn lemma_lex_refl(a: Seq<char>)
    ensures
        lex_le(a, a),
    decreases a.len(),
{
    if a.len() > 0 {
        lemma_lex_refl(a.skip(1));
    }
}

/// Compares two character slices lexicographically.
pub fn chars_le(a: &[char], b: &[char]) -> (r: bool)
    ensures
        r == lex_le(a@, b@),
{
    let mut i: usize = 0;
    assert(a@.skip(0) =~= a@ && b@.skip(0) =~= b@);
    while i < a.len() && i < b.len() && a[i] == b[i]
        invariant
            i <= a@.len(),
            i <= b@.len(),
            lex_le(a@, b@) == lex_le(a@.skip(i as int), b@.skip(i as int)),
        decreases a.len() - i,
    {
        assert(a@.skip(i as int).skip(1) =~= a@.skip(i + 1));
        assert(b@.skip(i as int).skip(1) =~= b@.skip(i + 1));
        i += 1;
    }
    if i == a.len() {
        true
    } else if i == b.len() {
        false
    } else {
        a[i] < b[i]
    }
}

/// Whether `a` sorts before or equal to `b` as strings.
pub fn str_le(a: &str, b: &str) -> (r: bool)
    ensures
        r == lex_le(a@, b@),
{
    let ac = str_to_chars(a);
    let bc = str_to_chars(b);
    chars_le(ac.as_slice(), bc.as_slice())
}

impl SortKey for String {
    open spec fn key_le(self, other: Self) -> bool {
        lex_le(self@, other@)
    }

    proof fn lemma_key_total(a: Self, b: Self) {
        lemma_lex_total(a@, b@);
    }

    proof fn lemma_key_trans(a: Self, b: Self, c: Self) {
        lemma_lex_trans(a@, b@, c@);
    }

    fn le(&self, other: &Self) -> (r: bool) {
        str_le(self.as_str(), other.as_str())
    }
}

impl SortKey for usize {
    open spec fn key_le(self, other: Self) -> bool {
        self <= other
    }

    proof fn lemma_key_total(a: Self, b: Self) {
    }

    proof fn lemma_key_trans(a: Self, b: Self, c: Self) {
    }

    fn le(&self, other: &Self) -> (r: bool) {
        *self <= *other
    }
}

} // verus!
