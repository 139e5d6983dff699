use vstd::prelude::*;

verus! {

/// The combining capability a segment tree is parameterized over: an element
/// type, an identity element, and an associative binary operation.
///
/// `spec_id` and `spec_prod` give the mathematical meaning of the operation;
/// the executable `id` and `prod` must return exactly those values, and the
/// two proof obligations require every implementation to establish the monoid
/// laws (identity on both sides, associativity). The tree's contracts are
/// sound only because these laws are proved, not assumed.
pub trait SegTreeType: Sized {
    type Item: Copy;

    /// The identity element, as a mathematical value.
    spec fn spec_id() -> Self::Item;

    /// The combining operation, as a mathematical function.
    spec fn spec_prod(a: Self::Item, b: Self::Item) -> Self::Item;

    /// The identity element is neutral on both sides.
    proof fn lemma_identity(a: Self::Item)
        ensures
            Self::spec_prod(Self::spec_id(), a) == a,
            Self::spec_prod(a, Self::spec_id()) == a,
    ;

    /// The combining operation is associative.
    proof fn lemma_associative(a: Self::Item, b: Self::Item, c: Self::Item)
        ensures
            Self::spec_prod(Self::spec_prod(a, b), c) == Self::spec_prod(
                a,
                Self::spec_prod(b, c),
            ),
    ;

    /// Returns the identity element.
    fn id() -> (r: Self::Item)
        ensures
            r == Self::spec_id(),
    ;

    /// Combines two elements, left operand first.
    fn prod(a: &Self::Item, b: &Self::Item) -> (r: Self::Item)
        ensures
            r == Self::spec_prod(*a, *b),
    ;
}

/// A monotone test over aggregated values, used by the boundary searches.
/// `spec_test` is the mathematical predicate; the executable `test` must
/// decide exactly it.
pub trait FoldPredicate<T: SegTreeType> {
    /// The predicate, as a mathematical function of the aggregated value.
    spec fn spec_test(&self, v: T::Item) -> bool;

    /// Decides the predicate on an aggregated value.
    fn test(&self, v: &T::Item) -> (r: bool)
        ensures
            r == self.spec_test(*v),
    ;
}

/// The left-to-right combine-reduction of a sequence: the identity for the
/// empty sequence, and otherwise the reduction of the prefix combined with
/// the last element.
pub open spec fn seq_fold<T: SegTreeType>(s: Seq<T::Item>) -> T::Item
    decreases s.len(),
{
    if s.len() == 0 {
        T::spec_id()
    } else {
        T::spec_prod(seq_fold::<T>(s.drop_last()), s.last())
    }
}

/// The reduction of a one-element sequence is that element.
pub proof fn lemma_fold_singleton<T: SegTreeType>(s: Seq<T::Item>)
    requires
        s.len() == 1,
    ensures
        seq_fold::<T>(s) == s[0],
{
    assert(s.drop_last() =~= Seq::<T::Item>::empty());
    assert(seq_fold::<T>(s.drop_last()) == T::spec_id());
    T::lemma_identity(s[0]);
}

/// Reducing a concatenation equals combining the two reductions, in order.
pub proof fn lemma_fold_concat<T: SegTreeType>(a: Seq<T::Item>, b: Seq<T::Item>)
    ensures
        seq_fold::<T>(a + b) == T::spec_prod(seq_fold::<T>(a), seq_fold::<T>(b)),
    decreases b.len(),
{
    if b.len() == 0 {
        assert(a + b =~= a);
        T::lemma_identity(seq_fold::<T>(a));
    } else {
        assert((a + b).drop_last() =~= a + b.drop_last());
        assert((a + b).last() == b.last());
        lemma_fold_concat::<T>(a, b.drop_last());
        T::lemma_associative(seq_fold::<T>(a), seq_fold::<T>(b.drop_last()), b.last());
    }
}

/// Reducing `s[a..c]` equals combining the reductions of `s[a..b]` and
/// `s[b..c]`, for any split point `b` inside the range.
pub proof fn lemma_fold_split<T: SegTreeType>(s: Seq<T::Item>, a: int, b: int, c: int)
    requires
        0 <= a <= b <= c <= s.len(),
    ensures
        seq_fold::<T>(s.subrange(a, c)) == T::spec_prod(
            seq_fold::<T>(s.subrange(a, b)),
            seq_fold::<T>(s.subrange(b, c)),
        ),
{
    assert(s.subrange(a, c) =~= s.subrange(a, b) + s.subrange(b, c));
    lemma_fold_concat::<T>(s.subrange(a, b), s.subrange(b, c));
}

} // verus!
