use vstd::prelude::*;

use crate::monoid::FoldPredicate;
use crate::monoid::SegTreeType;
use crate::monoid::lemma_fold_singleton;
use crate::monoid::lemma_fold_split;
use crate::monoid::seq_fold;
use crate::seg_tree::SegTree;

verus! {

/// Build-fold consistency: a tree holding exactly the elements of `items`
/// reduces over its full index range to the left-to-right reduction of
/// `items`.
pub proof fn lemma_build_fold_consistency<T: SegTreeType>(t: SegTree<T>, items: Seq<T::Item>)
    requires
        t@ == items,
    ensures
        seq_fold::<T>(t@.subrange(0, t@.len() as int)) == seq_fold::<T>(items),
{
    assert(t@.subrange(0, t@.len() as int) =~= items);
}

/// Get-set round trip: after overwriting index `i` with `v`, the element at
/// `i` reads back as `v`; the reduction of a range excluding `i` is
/// unchanged, and the reduction of a range containing `i` is the old
/// reduction with `v` in place of the old element at `i`.
pub proof fn lemma_get_set_round_trip<T: SegTreeType>(
    s: Seq<T::Item>,
    i: int,
    v: T::Item,
    a: int,
    b: int,
)
    requires
        0 <= i < s.len(),
        0 <= a <= b <= s.len(),
    ensures
        s.update(i, v)[i] == v,
        (b <= i || i < a) ==> seq_fold::<T>(s.update(i, v).subrange(a, b)) == seq_fold::<T>(
            s.subrange(a, b),
        ),
        (a <= i < b) ==> seq_fold::<T>(s.update(i, v).subrange(a, b)) == T::spec_prod(
            T::spec_prod(seq_fold::<T>(s.subrange(a, i)), v),
            seq_fold::<T>(s.subrange(i + 1, b)),
        ),
{
    let u = s.update(i, v);
    if b <= i || i < a {
        assert(u.subrange(a, b) =~= s.subrange(a, b));
    } else {
        lemma_fold_split::<T>(u, a, i, b);
        lemma_fold_split::<T>(u, i, i + 1, b);
        assert(u.subrange(a, i) =~= s.subrange(a, i));
        assert(u.subrange(i + 1, b) =~= s.subrange(i + 1, b));
        assert(u.subrange(i, i + 1) =~= seq![v]);
        lemma_fold_singleton::<T>(u.subrange(i, i + 1));
        T::lemma_associative(
            seq_fold::<T>(s.subrange(a, i)),
            v,
            seq_fold::<T>(s.subrange(i + 1, b)),
        );
    }
}

/// Range decomposition: the reduction of `[a, c)` is the combination of the
/// reductions of `[a, b)` and `[b, c)` for any split point `b` between
/// them — associativity surfaced through range splitting.
pub proof fn lemma_range_decomposition<T: SegTreeType>(t: SegTree<T>, a: int, b: int, c: int)
    requires
        0 <= a <= b <= c <= t@.len(),
    ensures
        seq_fold::<T>(t@.subrange(a, c)) == T::spec_prod(
            seq_fold::<T>(t@.subrange(a, b)),
            seq_fold::<T>(t@.subrange(b, c)),
        ),
{
    lemma_fold_split::<T>(t@, a, b, c);
}

/// Empty range identity: the reduction of `[k, k)` is the identity for
/// every valid `k`.
pub proof fn lemma_empty_range_identity<T: SegTreeType>(t: SegTree<T>, k: int)
    requires
        0 <= k <= t@.len(),
    ensures
        seq_fold::<T>(t@.subrange(k, k)) == T::spec_id(),
{
    assert(t@.subrange(k, k) =~= Seq::<T::Item>::empty());
}

/// Maximality of the boundary reported by `max_end`: for a predicate that,
/// once false, stays false as the range grows rightward, a boundary `e`
/// whose one-longer range is already rejected has every strictly longer
/// range rejected as well. Together with the contract of `max_end` this
/// makes the reported boundary the largest accepted end.
pub proof fn lemma_max_end_maximal<T: SegTreeType, P: FoldPredicate<T>>(
    pred: P,
    s: Seq<T::Item>,
    start: int,
    e: int,
    e2: int,
)
    requires
        0 <= start <= e < s.len(),
        e < e2 <= s.len(),
        forall|i: int, j: int|
            #![trigger s.subrange(start, i), s.subrange(start, j)]
            start <= i <= j <= s.len() && pred.spec_test(seq_fold::<T>(s.subrange(start, j)))
                ==> pred.spec_test(seq_fold::<T>(s.subrange(start, i))),
        !pred.spec_test(seq_fold::<T>(s.subrange(start, e + 1))),
    ensures
        !pred.spec_test(seq_fold::<T>(s.subrange(start, e2))),
{
    if pred.spec_test(seq_fold::<T>(s.subrange(start, e2))) {
        assert(pred.spec_test(seq_fold::<T>(s.subrange(start, e + 1))));
    }
}

/// Minimality of the boundary reported by `min_start`: for a predicate
/// that, once false, stays false as the range grows leftward, a boundary
/// `st` whose one-longer range is already rejected has every strictly
/// longer range rejected as well. Together with the contract of
/// `min_start` this makes the reported boundary the smallest accepted
/// start.
pub proof fn lemma_min_start_minimal<T: SegTreeType, P: FoldPredicate<T>>(
    pred: P,
    s: Seq<T::Item>,
    end: int,
    st: int,
    s2: int,
)
    requires
        0 < st <= end <= s.len(),
        0 <= s2 < st,
        forall|i: int, j: int|
            #![trigger s.subrange(i, end), s.subrange(j, end)]
            0 <= i <= j <= end && pred.spec_test(seq_fold::<T>(s.subrange(i, end)))
                ==> pred.spec_test(seq_fold::<T>(s.subrange(j, end))),
        !pred.spec_test(seq_fold::<T>(s.subrange(st - 1, end))),
    ensures
        !pred.spec_test(seq_fold::<T>(s.subrange(s2, end))),
{
    if pred.spec_test(seq_fold::<T>(s.subrange(s2, end))) {
        assert(pred.spec_test(seq_fold::<T>(s.subrange(st - 1, end))));
    }
}

} // verus!
