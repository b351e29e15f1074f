//! Stable ordering of small lists by selection: the byte-wise order of
//! strings that `Ord` on `String` uses, and the lemmas that make a linear
//! scan find the element that comes first.

use vstd::prelude::*;

use crate::text::{first_in, lemma_first_in};

verus! {

/// `a` comes before `b` in lexicographic byte order.
pub open spec fn bytes_lt(a: Seq<u8>, b: Seq<u8>) -> bool
    decreases a.len(),
{
    if a.len() == 0 {
        b.len() > 0
    } else if b.len() == 0 {
        false
    } else if a[0] != b[0] {
        a[0] < b[0]
    } else {
        bytes_lt(a.drop_first(), b.drop_first())
    }
}

pub proof fn lemma_bytes_lt_irreflexive(a: Seq<u8>)
    ensures
        !bytes_lt(a, a),
    decreases a.len(),
{
    if a.len() > 0 {
        lemma_bytes_lt_irreflexive(a.drop_first());
    }
}

pub proof fn lemma_bytes_lt_transitive(a: Seq<u8>, b: Seq<u8>, c: Seq<u8>)
    requires
        bytes_lt(a, b),
        bytes_lt(b, c),
    ensures
        bytes_lt(a, c),
    decreases a.len(),
{
    if a.len() > 0 && b.len() > 0 && c.len() > 0 && a[0] == b[0] && b[0] == c[0] {
        lemma_bytes_lt_transitive(a.drop_first(), b.drop_first(), c.drop_first());
    }
}

pub proof fn lemma_bytes_lt_total(a: Seq<u8>, b: Seq<u8>)
    ensures
        a == b || bytes_lt(a, b) || bytes_lt(b, a),
    decreases a.len(),
{
    if a.len() > 0 && b.len() > 0 && a[0] == b[0] {
        lemma_bytes_lt_total(a.drop_first(), b.drop_first());
        if a.drop_first() == b.drop_first() {
            assert(a =~= seq![a[0]] + a.drop_first());
            assert(b =~= seq![b[0]] + b.drop_first());
        }
    } else if a.len() == 0 && b.len() == 0 {
        assert(a =~= b);
    }
}

/// Whether `a` comes before `b` in lexicographic byte order, from position
/// `i` on.
fn bytes_lt_from(a: &[u8], b: &[u8], i: usize) -> (r: bool)
    requires
        i <= a@.len(),
        i <= b@.len(),
    ensures
        r == bytes_lt(a@.skip(i as int), b@.skip(i as int)),
    decreases a@.len() - i,
{
    let ghost sa = a@.skip(i as int);
    let ghost sb = b@.skip(i as int);
    if i == a.len() {
        i < b.len()
    } else if i == b.len() {
        false
    } else if a[i] != b[i] {
        a[i] < b[i]
    } else {
        assert(sa.drop_first() =~= a@.skip(i + 1));
        assert(sb.drop_first() =~= b@.skip(i + 1));
        bytes_lt_from(a, b, i + 1)
    }
}

/// Whether `a` comes before `b` in lexicographic byte order.
pub fn bytes_less(a: &[u8], b: &[u8]) -> (r: bool)
    ensures
        r == bytes_lt(a@, b@),
{
    assert(a@.skip(0) =~= a@);
    assert(b@.skip(0) =~= b@);
    bytes_lt_from(a, b, 0)
}

/// A strict weak order: irreflexive, transitive, and whatever comes before
/// something comes before or after any third element.
pub open spec fn is_strict_weak_order<A>(before: spec_fn(A, A) -> bool) -> bool {
    &&& forall|x: A| !#[trigger] before(x, x)
    &&& forall|x: A, y: A, z: A| #[trigger] before(x, y) && #[trigger] before(y, z) ==> before(x, z)
    &&& forall|x: A, y: A, z: A| #[trigger] before(x, y) ==> before(x, z) || #[trigger] before(z, y)
}

/// No element of `s` comes before `s[i]`.
pub open spec fn is_first_choice<A>(s: Seq<A>, before: spec_fn(A, A) -> bool, i: int) -> bool {
    forall|j: int| 0 <= j < s.len() ==> !before(#[trigger] s[j], s[i])
}

/// The earliest element of `s` that nothing comes before.
pub open spec fn best_index<A>(s: Seq<A>, before: spec_fn(A, A) -> bool) -> int {
    match first_in(|i: int| is_first_choice(s, before, i), 0, s.len() as int) {
        Some(k) => k,
        None => 0,
    }
}

/// `s` ordered by `before`, elements that neither comes before the other
/// keeping their order in `s`: the first element that nothing comes before,
/// then the rest ordered the same way.
pub open spec fn selection_order<A>(s: Seq<A>, before: spec_fn(A, A) -> bool) -> Seq<A>
    decreases s.len(),
{
    if s.len() == 0 {
        Seq::empty()
    } else {
        let k = best_index(s, before);
        if 0 <= k < s.len() {
            seq![s[k]] + selection_order(s.remove(k), before)
        } else {
            Seq::empty()
        }
    }
}

/// An element that nothing comes before, and that comes before every
/// earlier element, is the best index.
pub proof fn lemma_best_index<A>(s: Seq<A>, before: spec_fn(A, A) -> bool, b: int)
    requires
        0 <= b < s.len(),
        is_first_choice(s, before, b),
        forall|j: int| 0 <= j < b ==> before(s[b], #[trigger] s[j]),
    ensures
        best_index(s, before) == b,
{
    let pred = |i: int| is_first_choice(s, before, i);
    lemma_first_in(pred, 0, s.len() as int);
    match first_in(pred, 0, s.len() as int) {
        Some(k) => {
            if k < b {
                assert(before(s[b], s[k]));
                assert(!before(s[b], s[k]));
            } else if k > b {
                assert(!pred(b));
            }
        },
        None => {
            assert(!pred(b));
        },
    }
}

/// The scan that keeps the first element nothing comes before stays
/// correct as it moves past index `i`.
pub proof fn lemma_scan_step<A>(s: Seq<A>, before: spec_fn(A, A) -> bool, best: int, i: int)
    requires
        is_strict_weak_order(before),
        0 <= best < i < s.len(),
        forall|j: int| 0 <= j < i ==> !before(#[trigger] s[j], s[best]),
        forall|j: int| 0 <= j < best ==> before(s[best], #[trigger] s[j]),
    ensures
        before(s[i], s[best]) ==> (forall|j: int| 0 <= j < i + 1 ==> !before(#[trigger] s[j], s[i]))
            && (forall|j: int| 0 <= j < i ==> before(s[i], #[trigger] s[j])),
        !before(s[i], s[best]) ==> (forall|j: int| 0 <= j < i + 1 ==> !before(#[trigger] s[j], s[best])),
{
    if before(s[i], s[best]) {
        assert forall|j: int| 0 <= j < i + 1 implies !before(#[trigger] s[j], s[i]) by {
            if j < i && before(s[j], s[i]) {
                assert(before(s[j], s[best]));
            }
        }
        assert forall|j: int| 0 <= j < i implies before(s[i], #[trigger] s[j]) by {
            assert(before(s[i], s[j]) || before(s[j], s[best]));
        }
    }
}


proof fn lemma_first_choice_exists<A>(s: Seq<A>, before: spec_fn(A, A) -> bool, n: int) -> (b: int)
    requires
        is_strict_weak_order(before),
        0 < n <= s.len(),
    ensures
        0 <= b < n,
        forall|j: int| 0 <= j < n ==> !before(#[trigger] s[j], s[b]),
    decreases n,
{
    if n == 1 {
        0
    } else {
        let b0 = lemma_first_choice_exists(s, before, n - 1);
        if before(s[n - 1], s[b0]) {
            assert forall|j: int| 0 <= j < n implies !before(#[trigger] s[j], s[n - 1]) by {
                if j < n - 1 && before(s[j], s[n - 1]) {
                    assert(before(s[j], s[b0]));
                }
            }
            n - 1
        } else {
            b0
        }
    }
}

/// Ordering by selection keeps every element exactly as often as it occurs,
/// and puts no element after one that it comes before.
pub proof fn lemma_selection_order<A>(s: Seq<A>, before: spec_fn(A, A) -> bool)
    requires
        is_strict_weak_order(before),
    ensures
        selection_order(s, before).len() == s.len(),
        selection_order(s, before).to_multiset() == s.to_multiset(),
        forall|i: int, j: int|
            0 <= i < j < s.len() ==> !before(
                #[trigger] selection_order(s, before)[j],
                #[trigger] selection_order(s, before)[i],
            ),
    decreases s.len(),
{
    broadcast use vstd::multiset::group_multiset_axioms;

    let r = selection_order(s, before);
    if s.len() == 0 {
        assert(r =~= s);
    } else {
        let b = lemma_first_choice_exists(s, before, s.len() as int);
        let pred = |i: int| is_first_choice(s, before, i);
        assert(pred(b));
        crate::text::lemma_first_in(pred, 0, s.len() as int);
        let k = best_index(s, before);
        assert(0 <= k < s.len() && is_first_choice(s, before, k));
        let t = s.remove(k);
        let rest = selection_order(t, before);
        lemma_selection_order(t, before);
        assert(r == seq![s[k]] + rest);
        vstd::seq_lib::to_multiset_remove(s, k);
        assert(r =~= rest.insert(0, s[k]));
        vstd::seq_lib::to_multiset_insert(rest, 0, s[k]);
        vstd::seq_lib::to_multiset_contains(s, s[k]);
        assert(r.to_multiset() =~= s.to_multiset());
        assert forall|i: int, j: int| 0 <= i < j < s.len() implies !before(
            #[trigger] r[j],
            #[trigger] r[i],
        ) by {
            if i == 0 {
                let x = r[j];
                assert(x == rest[j - 1]);
                vstd::seq_lib::to_multiset_contains(rest, x);
                vstd::seq_lib::to_multiset_contains(t, x);
                vstd::seq_lib::to_multiset_contains(s, x);
                assert(t.to_multiset().count(x) <= s.to_multiset().count(x));
                assert(s.contains(x));
                let m = choose|m: int| 0 <= m < s.len() && s[m] == x;
                assert(!before(s[m], s[k]));
            } else {
                assert(r[i] == rest[i - 1] && r[j] == rest[j - 1]);
            }
        }
    }
}

} // verus!
