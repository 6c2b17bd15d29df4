//! Facts about `Seq::filter` that the cascade deletes rely on: how a
//! filter grows element by element, and that filtering keeps every
//! pairwise property of the rows.

use vstd::prelude::*;

verus! {

broadcast use vstd::seq::group_seq_axioms;

/// Filtering a one-element sequence keeps or drops that element.
pub proof fn lemma_filter_singleton<A>(x: A, pred: spec_fn(A) -> bool)
    ensures
        seq![x].filter(pred) == if pred(x) {
            seq![x]
        } else {
            Seq::<A>::empty()
        },
{
    reveal_with_fuel(Seq::filter, 3);
    assert(seq![x].drop_last() =~= Seq::<A>::empty());
    if pred(x) {
        assert(Seq::<A>::empty().push(x) =~= seq![x]);
    }
}

/// Appending one element extends the filter by that element exactly when
/// it satisfies the predicate.
pub proof fn lemma_filter_push<A>(s: Seq<A>, x: A, pred: spec_fn(A) -> bool)
    ensures
        (s + seq![x]).filter(pred) == if pred(x) {
            s.filter(pred).push(x)
        } else {
            s.filter(pred)
        },
{
    Seq::<A>::filter_distributes_over_add(s, seq![x], pred);
    lemma_filter_singleton(x, pred);
    if pred(x) {
        assert(s.filter(pred) + seq![x] =~= s.filter(pred).push(x));
    } else {
        assert(s.filter(pred) + Seq::<A>::empty() =~= s.filter(pred));
    }
}

/// Every row of the filter is a row of the sequence it was taken from.
pub proof fn lemma_filter_elems<A>(s: Seq<A>, pred: spec_fn(A) -> bool)
    ensures
        forall|m: int|
            0 <= m < s.filter(pred).len() ==> exists|w: int|
                0 <= w < s.len() && s[w] == #[trigger] s.filter(pred)[m],
    decreases s.len(),
{
    reveal_with_fuel(Seq::filter, 3);
    if s.len() == 0 {
    } else {
        let t = s.drop_last();
        lemma_filter_elems(t, pred);
        assert forall|m: int| 0 <= m < s.filter(pred).len() implies exists|w: int|
            0 <= w < s.len() && s[w] == #[trigger] s.filter(pred)[m] by {
            if m < t.filter(pred).len() {
                let w = choose|w: int| 0 <= w < t.len() && t[w] == t.filter(pred)[m];
                assert(s[w] == s.filter(pred)[m]);
            } else {
                assert(s[s.len() - 1] == s.filter(pred)[m]);
            }
        }
    }
}

/// A property that holds of every ordered pair of rows still holds after
/// filtering.
pub proof fn lemma_filter_keeps_pairwise<A>(
    s: Seq<A>,
    pred: spec_fn(A) -> bool,
    rel: spec_fn(A, A) -> bool,
)
    requires
        forall|i: int, j: int| 0 <= i < j < s.len() ==> #[trigger] rel(s[i], s[j]),
    ensures
        forall|i: int, j: int|
            #![trigger s.filter(pred)[i], s.filter(pred)[j]]
            0 <= i < j < s.filter(pred).len() ==> rel(s.filter(pred)[i], s.filter(pred)[j]),
    decreases s.len(),
{
    reveal_with_fuel(Seq::filter, 3);
    if s.len() == 0 {
    } else {
        let t = s.drop_last();
        assert forall|i: int, j: int| 0 <= i < j < t.len() implies #[trigger] rel(
            t[i],
            t[j],
        ) by {
            assert(rel(s[i], s[j]));
        }
        lemma_filter_keeps_pairwise(t, pred, rel);
        lemma_filter_elems(t, pred);
        let f = s.filter(pred);
        assert forall|i: int, j: int| 0 <= i < j < f.len() implies #[trigger] rel(
            f[i],
            f[j],
        ) by {
            if j < t.filter(pred).len() {
                assert(rel(t.filter(pred)[i], t.filter(pred)[j]));
            } else if pred(s.last()) && j == t.filter(pred).len() {
                let w = choose|w: int| 0 <= w < t.len() && t[w] == t.filter(pred)[i];
                assert(rel(s[w], s[s.len() - 1]));
            }
        }
    }
}

} // verus!
