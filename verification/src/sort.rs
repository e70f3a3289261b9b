//! Stable ordering of ranked items.
//!
//! [`stable_sort`] places every item before those it has to precede and
//! behind every item that came earlier and does not have to follow it.
//! The order is described once for any precedence relation, so that it can
//! be stated of items and of their views alike.

use vstd::prelude::*;

verus! {

/// Items with a precedence: a strict order that says which of two items
/// has to stand before the other. Items of which neither precedes the
/// other count as equal in rank.
pub trait Ranked: Sized {
    /// `self` has to stand before `other`.
    spec fn before(&self, other: &Self) -> bool;

    /// Decides [`Ranked::before`].
    fn is_before(&self, other: &Self) -> (r: bool)
        ensures
            r == self.before(other),
    ;

    /// Nothing precedes itself.
    proof fn before_is_irreflexive(a: Self)
        ensures
            !a.before(&a),
    ;

    /// Precedence carries over a middle item.
    proof fn before_is_transitive(a: Self, b: Self, c: Self)
        requires
            a.before(&b),
            b.before(&c),
        ensures
            a.before(&c),
    ;
}

/// The precedence of a ranked type as a relation.
pub open spec fn precedence<T: Ranked>() -> spec_fn(T, T) -> bool {
    |a: T, b: T| a.before(&b)
}

/// `before` is irreflexive and transitive.
pub open spec fn is_strict_order<T>(before: spec_fn(T, T) -> bool) -> bool {
    &&& forall|a: T| !#[trigger] before(a, a)
    &&& forall|a: T, b: T, c: T| #[trigger]
        before(a, b) && #[trigger] before(b, c) ==> before(a, c)
}

/// No item of `s` stands behind one that it has to precede.
pub open spec fn ordered<T>(s: Seq<T>, before: spec_fn(T, T) -> bool) -> bool {
    forall|i: int, j: int| #![trigger s[i], s[j]] 0 <= i < j < s.len() ==> !before(s[j], s[i])
}

/// Where `x` goes into `s`: the position of the first item that `x`
/// precedes, or the end if there is none.
pub open spec fn insertion_point<T>(s: Seq<T>, x: T, before: spec_fn(T, T) -> bool) -> int
    decreases s.len(),
{
    if s.len() == 0 {
        0
    } else if before(x, s[0]) {
        0
    } else {
        1 + insertion_point(s.drop_first(), x, before)
    }
}

/// The items of `s` in stable order: each in turn is inserted among those
/// before it, behind every one that it does not precede.
pub open spec fn stable_sorted<T>(s: Seq<T>, before: spec_fn(T, T) -> bool) -> Seq<T>
    decreases s.len(),
{
    if s.len() == 0 {
        s
    } else {
        let rest = stable_sorted(s.drop_last(), before);
        rest.insert(insertion_point(rest, s.last(), before), s.last())
    }
}

/// The precedence of a ranked type is a strict order.
pub proof fn lemma_precedence_is_strict<T: Ranked>()
    ensures
        is_strict_order(precedence::<T>()),
{
    let before = precedence::<T>();
    assert forall|a: T| !#[trigger] before(a, a) by {
        T::before_is_irreflexive(a);
    }
    assert forall|a: T, b: T, c: T| #[trigger] before(a, b) && #[trigger] before(b, c) implies before(
        a,
        c,
    ) by {
        T::before_is_transitive(a, b, c);
    }
}

/// The insertion point lies within the sequence, `x` precedes no item in
/// front of it, and `x` precedes the item at it.
pub proof fn lemma_insertion_point<T>(s: Seq<T>, x: T, before: spec_fn(T, T) -> bool)
    ensures
        0 <= insertion_point(s, x, before) <= s.len(),
        forall|k: int| 0 <= k < insertion_point(s, x, before) ==> !before(x, #[trigger] s[k]),
        insertion_point(s, x, before) < s.len() ==> before(x, s[insertion_point(s, x, before)]),
    decreases s.len(),
{
    if s.len() != 0 && !before(x, s[0]) {
        let tail = s.drop_first();
        lemma_insertion_point(tail, x, before);
        let p = insertion_point(s, x, before);
        assert forall|k: int| 0 <= k < p implies !before(x, #[trigger] s[k]) by {
            if k > 0 {
                assert(s[k] == tail[k - 1]);
            }
        }
        if p < s.len() {
            assert(s[p] == tail[p - 1]);
        }
    }
}

/// Stable order keeps the number of items.
pub proof fn lemma_stable_sorted_len<T>(s: Seq<T>, before: spec_fn(T, T) -> bool)
    ensures
        stable_sorted(s, before).len() == s.len(),
    decreases s.len(),
{
    if s.len() != 0 {
        lemma_stable_sorted_len(s.drop_last(), before);
        lemma_insertion_point(stable_sorted(s.drop_last(), before), s.last(), before);
    }
}

/// In stable order no item stands behind one that it has to precede.
pub proof fn lemma_stable_sorted_ordered<T>(s: Seq<T>, before: spec_fn(T, T) -> bool)
    requires
        is_strict_order(before),
    ensures
        ordered(stable_sorted(s, before), before),
    decreases s.len(),
{
    if s.len() != 0 {
        let rest = stable_sorted(s.drop_last(), before);
        let x = s.last();
        let p = insertion_point(rest, x, before);
        let out = stable_sorted(s, before);
        lemma_stable_sorted_ordered(s.drop_last(), before);
        lemma_insertion_point(rest, x, before);
        assert forall|i: int, j: int| #![trigger out[i], out[j]] 0 <= i < j < out.len() implies !before(
            out[j],
            out[i],
        ) by {
            if j == p {
                assert(out[i] == rest[i]);
            } else if i == p {
                assert(out[j] == rest[j - 1]);
                if before(out[j], x) {
                    assert(before(x, rest[p]));
                    assert(before(out[j], rest[p]));
                    if j - 1 != p {
                        assert(!before(rest[j - 1], rest[p]));
                    }
                }
            } else {
                let i0 = if i < p {
                    i
                } else {
                    i - 1
                };
                let j0 = if j < p {
                    j
                } else {
                    j - 1
                };
                assert(out[i] == rest[i0] && out[j] == rest[j0]);
                assert(!before(rest[j0], rest[i0]));
            }
        }
    }
}

/// Stable order holds the same items, each as often as before.
pub proof fn lemma_stable_sorted_permutes<T>(s: Seq<T>, before: spec_fn(T, T) -> bool)
    ensures
        stable_sorted(s, before).to_multiset() == s.to_multiset(),
    decreases s.len(),
{
    if s.len() != 0 {
        let head = s.drop_last();
        let rest = stable_sorted(head, before);
        lemma_stable_sorted_permutes(head, before);
        lemma_insertion_point(rest, s.last(), before);
        vstd::seq_lib::to_multiset_insert(rest, insertion_point(rest, s.last(), before), s.last());
        assert(head.push(s.last()) =~= s);
        vstd::seq_lib::to_multiset_build(head, s.last());
    }
}

/// Stable order commutes with a mapping that carries one precedence to
/// another: ordering the items and mapping them gives what ordering the
/// mapped items gives.
pub proof fn lemma_stable_sorted_maps<A, B>(
    s: Seq<A>,
    f: spec_fn(A) -> B,
    before_a: spec_fn(A, A) -> bool,
    before_b: spec_fn(B, B) -> bool,
)
    requires
        forall|x: A, y: A| #[trigger] before_a(x, y) == before_b(f(x), f(y)),
    ensures
        stable_sorted(s, before_a).map_values(f) == stable_sorted(s.map_values(f), before_b),
    decreases s.len(),
{
    if s.len() == 0 {
        assert(s.map_values(f) =~= Seq::<B>::empty());
        assert(stable_sorted(s, before_a).map_values(f) =~= Seq::<B>::empty());
    } else {
        let head = s.drop_last();
        let rest = stable_sorted(head, before_a);
        lemma_stable_sorted_maps(head, f, before_a, before_b);
        assert(s.map_values(f).drop_last() =~= head.map_values(f));
        lemma_insertion_point_maps(rest, s.last(), f, before_a, before_b);
        lemma_insertion_point(rest, s.last(), before_a);
        let p = insertion_point(rest, s.last(), before_a);
        assert(rest.insert(p, s.last()).map_values(f) =~= rest.map_values(f).insert(
            p,
            f(s.last()),
        ));
    }
}

/// The insertion point is the same before and after such a mapping.
pub proof fn lemma_insertion_point_maps<A, B>(
    s: Seq<A>,
    x: A,
    f: spec_fn(A) -> B,
    before_a: spec_fn(A, A) -> bool,
    before_b: spec_fn(B, B) -> bool,
)
    requires
        forall|x: A, y: A| #[trigger] before_a(x, y) == before_b(f(x), f(y)),
    ensures
        insertion_point(s, x, before_a) == insertion_point(s.map_values(f), f(x), before_b),
    decreases s.len(),
{
    if s.len() != 0 {
        assert(before_a(x, s[0]) == before_b(f(x), f(s[0])));
        if !before_a(x, s[0]) {
            lemma_insertion_point_maps(s.drop_first(), x, f, before_a, before_b);
            assert(s.map_values(f).drop_first() =~= s.drop_first().map_values(f));
        }
    }
}

/// The position at which `x` goes into `sorted`.
fn find_place<T: Ranked>(sorted: &Vec<T>, x: &T) -> (p: usize)
    ensures
        p == insertion_point(sorted@, *x, precedence::<T>()),
        p <= sorted.len(),
{
    let mut p: usize = 0;
    proof {
        assert(sorted@.skip(0) =~= sorted@);
    }
    while p < sorted.len() && !x.is_before(&sorted[p])
        invariant
            p <= sorted.len(),
            insertion_point(sorted@, *x, precedence::<T>()) == p + insertion_point(
                sorted@.skip(p as int),
                *x,
                precedence::<T>(),
            ),
        decreases sorted.len() - p,
    {
        proof {
            assert(sorted@.skip(p as int).drop_first() =~= sorted@.skip(p + 1));
        }
        p += 1;
    }
    proof {
        if p < sorted.len() {
            assert(sorted@.skip(p as int)[0] == sorted@[p as int]);
        }
    }
    p
}

/// Puts `items` in stable order of their precedence.
pub fn stable_sort<T: Ranked>(items: Vec<T>) -> (out: Vec<T>)
    ensures
        out@ == stable_sorted(items@, precedence::<T>()),
        ordered(out@, precedence::<T>()),
        out@.to_multiset() == items@.to_multiset(),
        out.len() == items.len(),
{
    let ghost src = items@;
    let mut out: Vec<T> = Vec::new();
    for x in it: items
        invariant
            it.seq() == src,
            out@ == stable_sorted(src.take(it.index() as int), precedence::<T>()),
    {
        proof {
            let i = it.index() as int;
            assert(src.take(i + 1).drop_last() =~= src.take(i));
        }
        let p = find_place(&out, &x);
        out.insert(p, x);
    }
    proof {
        assert(src.take(src.len() as int) =~= src);
        lemma_precedence_is_strict::<T>();
        lemma_stable_sorted_ordered(src, precedence::<T>());
        lemma_stable_sorted_permutes(src, precedence::<T>());
        lemma_stable_sorted_len(src, precedence::<T>());
    }
    out
}

} // verus!
