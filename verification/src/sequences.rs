//! Facts about filtered sequences.

use vstd::prelude::*;

verus! {

/// A filter leaves a sequence unchanged when every element passes it.
pub proof fn lemma_filter_keeps_all<A>(s: Seq<A>, pred: spec_fn(A) -> bool)
    requires
        forall|i: int| 0 <= i < s.len() ==> pred(#[trigger] s[i]),
    ensures
        s.filter(pred) == s,
    decreases s.len(),
{
    if s.len() == 0 {
        reveal(Seq::filter);
    } else {
        let head = s.drop_last();
        lemma_filter_keeps_all(head, pred);
        head.lemma_filter_push(s.last(), pred);
        assert(head.push(s.last()) =~= s);
    }
}

/// A filtered sequence holds the items of the sequence that pass the
/// filter, and no others.
pub proof fn lemma_filter_members<A>(s: Seq<A>, pred: spec_fn(A) -> bool)
    ensures
        forall|x: A| s.filter(pred).contains(x) <==> s.contains(x) && pred(x),
{
    assert forall|x: A| s.filter(pred).contains(x) <==> s.contains(x) && pred(x) by {
        if s.filter(pred).contains(x) {
            let i = choose|i: int| 0 <= i < s.filter(pred).len() && s.filter(pred)[i] == x;
            s.lemma_filter_pred(pred, i);
            s.lemma_filter_contains_rev(pred, x);
        }
        if s.contains(x) && pred(x) {
            let i = choose|i: int| 0 <= i < s.len() && s[i] == x;
            s.lemma_filter_contains(pred, i);
        }
    }
}

} // verus!
