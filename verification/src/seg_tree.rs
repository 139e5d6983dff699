use vstd::prelude::*;

use crate::monoid::FoldPredicate;
use crate::monoid::SegTreeType;
use crate::monoid::lemma_fold_concat;
use crate::monoid::lemma_fold_singleton;
use crate::monoid::lemma_fold_split;
use crate::monoid::seq_fold;

verus! {

/// The ways a call can be rejected: building an empty tree, a point access
/// past the end, or a fold or search range that is not contained in the tree.
#[derive(Clone, Copy, Debug, PartialEq, Eq, Structural)]
pub enum SegTreeError {
    InvalidSize,
    IndexOutOfBounds,
    InvalidRange,
}

/// A segment tree over the monoid `T`: a binary tree of fixed shape whose
/// leaves hold the elements and whose internal nodes cache the reduction of
/// their subtree, left-to-right.
pub enum SegTree<T: SegTreeType> {
    Leaf { val: T::Item },
    Node { len: usize, prod: T::Item, left: Box<SegTree<T>>, right: Box<SegTree<T>> },
}

impl<T: SegTreeType> SegTree<T> {
    /// The elements stored at the leaves, in left-to-right order.
    pub open spec fn elems(self) -> Seq<T::Item>
        decreases self,
    {
        match self {
            SegTree::Leaf { val } => seq![val],
            SegTree::Node { left, right, .. } => left.elems() + right.elems(),
        }
    }

    /// Structural invariant: every internal node's stored length is the
    /// number of elements below it, and its cached value is the reduction of
    /// those elements.
    pub open spec fn wf(self) -> bool
        decreases self,
    {
        match self {
            SegTree::Leaf { .. } => true,
            SegTree::Node { len, prod, left, right } => {
                &&& left.wf()
                &&& right.wf()
                &&& len == left.elems().len() + right.elems().len()
                &&& prod == seq_fold::<T>(left.elems() + right.elems())
            },
        }
    }

    /// Every internal node splits its range at the midpoint, rounding down:
    /// the shape the two constructors produce.
    pub open spec fn balanced(self) -> bool
        decreases self,
    {
        match self {
            SegTree::Leaf { .. } => true,
            SegTree::Node { left, right, .. } => {
                &&& left.balanced()
                &&& right.balanced()
                &&& left.elems().len() == (left.elems().len() + right.elems().len()) / 2
            },
        }
    }

    /// A tree always holds at least one element.
    pub proof fn lemma_nonempty(self)
        ensures
            self.elems().len() >= 1,
        decreases self,
    {
        match self {
            SegTree::Leaf { .. } => {},
            SegTree::Node { left, right, .. } => {
                left.lemma_nonempty();
                right.lemma_nonempty();
            },
        }
    }

    /// The number of elements.
    pub fn len(&self) -> (n: usize)
        requires
            self.wf(),
        ensures
            n == self@.len(),
    {
        match self {
            SegTree::Leaf { .. } => 1,
            SegTree::Node { len, .. } => *len,
        }
    }

    /// A reference to the reduction of all elements.
    pub fn prod_ref(&self) -> (r: &T::Item)
        requires
            self.wf(),
        ensures
            *r == seq_fold::<T>(self@),
    {
        match self {
            SegTree::Leaf { val } => {
                proof {
                    lemma_fold_singleton::<T>(self@);
                }
                val
            },
            SegTree::Node { prod, .. } => prod,
        }
    }

    /// Builds a tree of `n` elements, all the identity. A size of zero is
    /// rejected with `InvalidSize`.
    pub fn new(n: usize) -> (r: Result<SegTree<T>, SegTreeError>)
        ensures
            match r {
                Ok(t) => {
                    &&& n >= 1
                    &&& t.wf()
                    &&& t.balanced()
                    &&& t@.len() == n
                    &&& forall|i: int| 0 <= i < n ==> t@[i] == T::spec_id()
                },
                Err(e) => e == SegTreeError::InvalidSize && n == 0,
            },
    {
        if n == 0 {
            Err(SegTreeError::InvalidSize)
        } else {
            Ok(Self::new_inner(n))
        }
    }

    fn new_inner(n: usize) -> (t: SegTree<T>)
        requires
            n >= 1,
        ensures
            t.wf(),
            t.balanced(),
            t@.len() == n,
            forall|i: int| 0 <= i < n ==> t@[i] == T::spec_id(),
        decreases n,
    {
        if n == 1 {
            SegTree::Leaf { val: T::id() }
        } else {
            let half: usize = n / 2;
            let left = Self::new_inner(half);
            let right = Self::new_inner(n - half);
            let prod = T::prod(left.prod_ref(), right.prod_ref());
            proof {
                lemma_fold_concat::<T>(left@, right@);
            }
            SegTree::Node { len: n, prod, left: Box::new(left), right: Box::new(right) }
        }
    }

    /// Builds a balanced tree holding exactly the elements of `items`, in
    /// order. An empty slice is rejected with `InvalidSize`.
    pub fn from_slice(items: &[T::Item]) -> (r: Result<SegTree<T>, SegTreeError>)
        ensures
            match r {
                Ok(t) => {
                    &&& items@.len() >= 1
                    &&& t.wf()
                    &&& t.balanced()
                    &&& t@ == items@
                },
                Err(e) => e == SegTreeError::InvalidSize && items@.len() == 0,
            },
    {
        if items.len() == 0 {
            Err(SegTreeError::InvalidSize)
        } else {
            let t = Self::from_sub(items, 0, items.len());
            proof {
                assert(items@.subrange(0, items@.len() as int) =~= items@);
            }
            Ok(t)
        }
    }

    fn from_sub(items: &[T::Item], start: usize, end: usize) -> (t: SegTree<T>)
        requires
            start < end <= items@.len(),
        ensures
            t.wf(),
            t.balanced(),
            t@ == items@.subrange(start as int, end as int),
        decreases end - start,
    {
        let n: usize = end - start;
        if n == 1 {
            let t = SegTree::Leaf { val: items[start] };
            proof {
                assert(t@ =~= items@.subrange(start as int, end as int));
            }
            t
        } else {
            let mid: usize = start + n / 2;
            let left = Self::from_sub(items, start, mid);
            let right = Self::from_sub(items, mid, end);
            let prod = T::prod(left.prod_ref(), right.prod_ref());
            proof {
                lemma_fold_concat::<T>(left@, right@);
                assert(left@ + right@ =~= items@.subrange(start as int, end as int));
            }
            SegTree::Node { len: n, prod, left: Box::new(left), right: Box::new(right) }
        }
    }

    /// The element at index `i`. An index at or past the end is rejected
    /// with `IndexOutOfBounds`.
    pub fn get(&self, i: usize) -> (r: Result<T::Item, SegTreeError>)
        requires
            self.wf(),
        ensures
            match r {
                Ok(v) => i < self@.len() && v == self@[i as int],
                Err(e) => e == SegTreeError::IndexOutOfBounds && i >= self@.len(),
            },
    {
        if i >= self.len() {
            Err(SegTreeError::IndexOutOfBounds)
        } else {
            Ok(self.get_inner(i))
        }
    }

    fn get_inner(&self, i: usize) -> (v: T::Item)
        requires
            self.wf(),
            i < self@.len(),
        ensures
            v == self@[i as int],
        decreases self,
    {
        match self {
            SegTree::Leaf { val } => *val,
            SegTree::Node { left, right, .. } => {
                let mid = left.len();
                if i < mid {
                    left.get_inner(i)
                } else {
                    right.get_inner(i - mid)
                }
            },
        }
    }

    /// Overwrites the element at index `i` with `v`, refreshing the cached
    /// reductions on the path to that leaf. An index at or past the end is
    /// rejected with `IndexOutOfBounds` and the tree is left untouched.
    pub fn set(&mut self, i: usize, v: T::Item) -> (r: Result<(), SegTreeError>)
        requires
            old(self).wf(),
        ensures
            match r {
                Ok(u) => {
                    &&& i < old(self)@.len()
                    &&& final(self).wf()
                    &&& final(self)@ == old(self)@.update(i as int, v)
                    &&& (old(self).balanced() ==> final(self).balanced())
                },
                Err(e) => {
                    &&& e == SegTreeError::IndexOutOfBounds
                    &&& i >= old(self)@.len()
                    &&& *final(self) == *old(self)
                },
            },
    {
        if i >= self.len() {
            Err(SegTreeError::IndexOutOfBounds)
        } else {
            self.set_inner(i, v);
            Ok(())
        }
    }

    fn set_inner(&mut self, i: usize, v: T::Item)
        requires
            old(self).wf(),
            i < old(self)@.len(),
        ensures
            final(self).wf(),
            final(self)@ == old(self)@.update(i as int, v),
            old(self).balanced() ==> final(self).balanced(),
        decreases *old(self),
    {
        match self {
            SegTree::Leaf { val } => {
                *val = v;
                proof {
                    assert(final(self)@ =~= old(self)@.update(i as int, v));
                }
            },
            SegTree::Node { len, prod, left, right } => {
                let mid = left.len();
                if i < mid {
                    left.set_inner(i, v);
                } else {
                    right.set_inner(i - mid, v);
                }
                *prod = T::prod(left.prod_ref(), right.prod_ref());
                proof {
                    lemma_fold_concat::<T>(left@, right@);
                    assert(left@ + right@ =~= old(self)@.update(i as int, v));
                }
            },
        }
    }

    /// The reduction of the elements in the half-open range `[start, end)`,
    /// left-to-right. An empty range yields the identity. A range with
    /// `start > end` or `end` past the end of the tree is rejected with
    /// `InvalidRange`.
    pub fn prod_range(&self, start: usize, end: usize) -> (r: Result<T::Item, SegTreeError>)
        requires
            self.wf(),
        ensures
            match r {
                Ok(v) => {
                    &&& start <= end <= self@.len()
                    &&& v == seq_fold::<T>(self@.subrange(start as int, end as int))
                    &&& (start == end ==> v == T::spec_id())
                },
                Err(e) => {
                    &&& e == SegTreeError::InvalidRange
                    &&& (start > end || end > self@.len())
                },
            },
    {
        if start > end || end > self.len() {
            Err(SegTreeError::InvalidRange)
        } else if start == end {
            Ok(T::id())
        } else {
            Ok(self.prod_range_inner(start, end))
        }
    }

    fn prod_range_inner(&self, start: usize, end: usize) -> (v: T::Item)
        requires
            self.wf(),
            start < end <= self@.len(),
        ensures
            v == seq_fold::<T>(self@.subrange(start as int, end as int)),
        decreases self,
    {
        match self {
            SegTree::Leaf { val } => {
                proof {
                    assert(self@.subrange(start as int, end as int) =~= self@);
                    lemma_fold_singleton::<T>(self@);
                }
                *val
            },
            SegTree::Node { len, prod, left, right } => {
                if start == 0 && end == *len {
                    proof {
                        assert(self@.subrange(start as int, end as int) =~= self@);
                    }
                    return *prod;
                }
                let mid = left.len();
                if end <= mid {
                    proof {
                        assert(left@.subrange(start as int, end as int) =~= self@.subrange(
                            start as int,
                            end as int,
                        ));
                    }
                    left.prod_range_inner(start, end)
                } else if mid <= start {
                    proof {
                        assert(right@.subrange(start - mid, end - mid) =~= self@.subrange(
                            start as int,
                            end as int,
                        ));
                    }
                    right.prod_range_inner(start - mid, end - mid)
                } else {
                    let a = left.prod_range_inner(start, mid);
                    let b = right.prod_range_inner(0, end - mid);
                    proof {
                        assert(left@.subrange(start as int, mid as int) =~= self@.subrange(
                            start as int,
                            mid as int,
                        ));
                        assert(right@.subrange(0, end - mid) =~= self@.subrange(
                            mid as int,
                            end as int,
                        ));
                        lemma_fold_split::<T>(self@, start as int, mid as int, end as int);
                    }
                    T::prod(&a, &b)
                }
            },
        }
    }

    /// The largest `end` with `start <= end <= len` such that the predicate
    /// accepts the reduction of `[start, end)`, for a predicate that is true
    /// on the identity and, once false for some end, stays false as the
    /// range grows. The result `e` is characterized exactly: the predicate
    /// accepts the reduction of `[start, e)`, and either `e` is the length
    /// or it rejects the reduction of `[start, e + 1)`. A `start` past the
    /// end of the tree is rejected with `InvalidRange`.
    pub fn max_end<P: FoldPredicate<T>>(&self, start: usize, pred: &P) -> (r: Result<
        usize,
        SegTreeError,
    >)
        requires
            self.wf(),
            pred.spec_test(T::spec_id()),
        ensures
            match r {
                Ok(e) => {
                    &&& start <= e <= self@.len()
                    &&& pred.spec_test(seq_fold::<T>(self@.subrange(start as int, e as int)))
                    &&& (e < self@.len() ==> !pred.spec_test(
                        seq_fold::<T>(self@.subrange(start as int, e as int + 1)),
                    ))
                },
                Err(err) => err == SegTreeError::InvalidRange && start > self@.len(),
            },
    {
        let n = self.len();
        if start > n {
            return Err(SegTreeError::InvalidRange);
        }
        if start == n {
            proof {
                assert(self@.subrange(start as int, start as int) =~= Seq::<T::Item>::empty());
            }
            return Ok(n);
        }
        let acc = T::id();
        let (res, merged) = self.max_end_inner(start, pred, acc);
        proof {
            T::lemma_identity(seq_fold::<T>(self@.subrange(start as int, res as int)));
            if res < self@.len() {
                T::lemma_identity(seq_fold::<T>(self@.subrange(start as int, res as int + 1)));
            }
        }
        Ok(res)
    }

    /// Extends the frontier rightward from `start` within this subtree.
    /// `acc` is the already-accepted reduction of the elements before this
    /// subtree's range (from the query's start); the returned pair is the
    /// frontier relative to this subtree and the accepted reduction
    /// including everything up to that frontier.
    fn max_end_inner<P: FoldPredicate<T>>(&self, start: usize, pred: &P, acc: T::Item) -> (r: (
        usize,
        T::Item,
    ))
        requires
            self.wf(),
            start < self@.len(),
            pred.spec_test(acc),
        ensures
            start <= r.0 <= self@.len(),
            r.1 == T::spec_prod(acc, seq_fold::<T>(self@.subrange(start as int, r.0 as int))),
            pred.spec_test(r.1),
            r.0 < self@.len() ==> !pred.spec_test(
                T::spec_prod(acc, seq_fold::<T>(self@.subrange(start as int, r.0 as int + 1))),
            ),
        decreases self,
    {
        if start == 0 {
            let merged = T::prod(&acc, self.prod_ref());
            if pred.test(&merged) {
                let n = self.len();
                proof {
                    assert(self@.subrange(0, self@.len() as int) =~= self@);
                }
                return (n, merged);
            }
        }
        match self {
            SegTree::Leaf { .. } => {
                proof {
                    assert(self@.subrange(0, 0) =~= Seq::<T::Item>::empty());
                    T::lemma_identity(acc);
                    assert(self@.subrange(0, 1) =~= self@);
                }
                (0, acc)
            },
            SegTree::Node { left, right, .. } => {
                let mid = left.len();
                if mid <= start {
                    let (res, acc2) = right.max_end_inner(start - mid, pred, acc);
                    proof {
                        assert(right@.subrange(start - mid, res as int) =~= self@.subrange(
                            start as int,
                            mid as int + res as int,
                        ));
                        if res < right@.len() {
                            assert(right@.subrange(start - mid, res as int + 1) =~= self@.subrange(
                                start as int,
                                mid as int + res as int + 1,
                            ));
                        }
                    }
                    (mid + res, acc2)
                } else {
                    let (res_l, acc2) = left.max_end_inner(start, pred, acc);
                    if res_l != mid {
                        proof {
                            assert(left@.subrange(start as int, res_l as int) =~= self@.subrange(
                                start as int,
                                res_l as int,
                            ));
                            assert(left@.subrange(start as int, res_l as int + 1)
                                =~= self@.subrange(start as int, res_l as int + 1));
                        }
                        (res_l, acc2)
                    } else {
                        proof {
                            right.lemma_nonempty();
                        }
                        let (res_r, acc3) = right.max_end_inner(0, pred, acc2);
                        proof {
                            assert(left@.subrange(start as int, mid as int) =~= self@.subrange(
                                start as int,
                                mid as int,
                            ));
                            assert(right@.subrange(0, res_r as int) =~= self@.subrange(
                                mid as int,
                                mid as int + res_r as int,
                            ));
                            lemma_fold_split::<T>(
                                self@,
                                start as int,
                                mid as int,
                                mid as int + res_r as int,
                            );
                            T::lemma_associative(
                                acc,
                                seq_fold::<T>(self@.subrange(start as int, mid as int)),
                                seq_fold::<T>(
                                    self@.subrange(mid as int, mid as int + res_r as int),
                                ),
                            );
                            if res_r < right@.len() {
                                assert(right@.subrange(0, res_r as int + 1) =~= self@.subrange(
                                    mid as int,
                                    mid as int + res_r as int + 1,
                                ));
                                lemma_fold_split::<T>(
                                    self@,
                                    start as int,
                                    mid as int,
                                    mid as int + res_r as int + 1,
                                );
                                T::lemma_associative(
                                    acc,
                                    seq_fold::<T>(self@.subrange(start as int, mid as int)),
                                    seq_fold::<T>(
                                        self@.subrange(mid as int, mid as int + res_r as int + 1),
                                    ),
                                );
                            }
                        }
                        (mid + res_r, acc3)
                    }
                }
            },
        }
    }

    /// The smallest `start` with `0 <= start <= end` such that the
    /// predicate accepts the reduction of `[start, end)`, for a predicate
    /// that is true on the identity and, once false for some start, stays
    /// false as the range grows leftward. The result `s` is characterized
    /// exactly: the predicate accepts the reduction of `[s, end)`, and
    /// either `s` is zero or it rejects the reduction of `[s - 1, end)`.
    /// An `end` past the end of the tree is rejected with `InvalidRange`.
    pub fn min_start<P: FoldPredicate<T>>(&self, end: usize, pred: &P) -> (r: Result<
        usize,
        SegTreeError,
    >)
        requires
            self.wf(),
            pred.spec_test(T::spec_id()),
        ensures
            match r {
                Ok(s) => {
                    &&& s <= end <= self@.len()
                    &&& pred.spec_test(seq_fold::<T>(self@.subrange(s as int, end as int)))
                    &&& (s > 0 ==> !pred.spec_test(
                        seq_fold::<T>(self@.subrange(s as int - 1, end as int)),
                    ))
                },
                Err(err) => err == SegTreeError::InvalidRange && end > self@.len(),
            },
    {
        let n = self.len();
        if end > n {
            return Err(SegTreeError::InvalidRange);
        }
        if end == 0 {
            proof {
                assert(self@.subrange(0, 0) =~= Seq::<T::Item>::empty());
            }
            return Ok(0);
        }
        let acc = T::id();
        let (res, merged) = self.min_start_inner(end, pred, acc);
        proof {
            T::lemma_identity(seq_fold::<T>(self@.subrange(res as int, end as int)));
            if res > 0 {
                T::lemma_identity(seq_fold::<T>(self@.subrange(res as int - 1, end as int)));
            }
        }
        Ok(res)
    }

    /// Extends the frontier leftward from `end` within this subtree. `acc`
    /// is the already-accepted reduction of the elements after this
    /// subtree's range (up to the query's end); the returned pair is the
    /// frontier relative to this subtree and the accepted reduction
    /// including everything down to that frontier.
    fn min_start_inner<P: FoldPredicate<T>>(&self, end: usize, pred: &P, acc: T::Item) -> (r: (
        usize,
        T::Item,
    ))
        requires
            self.wf(),
            1 <= end <= self@.len(),
            pred.spec_test(acc),
        ensures
            r.0 <= end,
            r.1 == T::spec_prod(seq_fold::<T>(self@.subrange(r.0 as int, end as int)), acc),
            pred.spec_test(r.1),
            r.0 > 0 ==> !pred.spec_test(
                T::spec_prod(seq_fold::<T>(self@.subrange(r.0 as int - 1, end as int)), acc),
            ),
        decreases self,
    {
        let n = self.len();
        if end == n {
            let merged = T::prod(self.prod_ref(), &acc);
            if pred.test(&merged) {
                proof {
                    assert(self@.subrange(0, self@.len() as int) =~= self@);
                }
                return (0, merged);
            }
        }
        match self {
            SegTree::Leaf { .. } => {
                proof {
                    assert(self@.subrange(1, 1) =~= Seq::<T::Item>::empty());
                    T::lemma_identity(acc);
                    assert(self@.subrange(0, 1) =~= self@);
                }
                (1, acc)
            },
            SegTree::Node { left, right, .. } => {
                let mid = left.len();
                if end <= mid {
                    let (res, acc2) = left.min_start_inner(end, pred, acc);
                    proof {
                        assert(left@.subrange(res as int, end as int) =~= self@.subrange(
                            res as int,
                            end as int,
                        ));
                        if res > 0 {
                            assert(left@.subrange(res as int - 1, end as int) =~= self@.subrange(
                                res as int - 1,
                                end as int,
                            ));
                        }
                    }
                    (res, acc2)
                } else {
                    let (res_r, acc2) = right.min_start_inner(end - mid, pred, acc);
                    if res_r != 0 {
                        proof {
                            assert(right@.subrange(res_r as int, end - mid) =~= self@.subrange(
                                mid as int + res_r as int,
                                end as int,
                            ));
                            assert(right@.subrange(res_r as int - 1, end - mid) =~= self@.subrange(
                                mid as int + res_r as int - 1,
                                end as int,
                            ));
                        }
                        (mid + res_r, acc2)
                    } else {
                        proof {
                            left.lemma_nonempty();
                        }
                        let (res_l, acc3) = left.min_start_inner(mid, pred, acc2);
                        proof {
                            assert(right@.subrange(0, end - mid) =~= self@.subrange(
                                mid as int,
                                end as int,
                            ));
                            assert(left@.subrange(res_l as int, mid as int) =~= self@.subrange(
                                res_l as int,
                                mid as int,
                            ));
                            lemma_fold_split::<T>(self@, res_l as int, mid as int, end as int);
                            T::lemma_associative(
                                seq_fold::<T>(self@.subrange(res_l as int, mid as int)),
                                seq_fold::<T>(self@.subrange(mid as int, end as int)),
                                acc,
                            );
                            if res_l > 0 {
                                assert(left@.subrange(res_l as int - 1, mid as int)
                                    =~= self@.subrange(res_l as int - 1, mid as int));
                                lemma_fold_split::<T>(
                                    self@,
                                    res_l as int - 1,
                                    mid as int,
                                    end as int,
                                );
                                T::lemma_associative(
                                    seq_fold::<T>(self@.subrange(res_l as int - 1, mid as int)),
                                    seq_fold::<T>(self@.subrange(mid as int, end as int)),
                                    acc,
                                );
                            }
                        }
                        (res_l, acc3)
                    }
                }
            },
        }
    }

    /// The reduction of all elements.
    pub fn prod(&self) -> (r: T::Item)
        requires
            self.wf(),
        ensures
            r == seq_fold::<T>(self@),
    {
        *self.prod_ref()
    }
}

impl<T: SegTreeType> View for SegTree<T> {
    type V = Seq<T::Item>;

    open spec fn view(&self) -> Seq<T::Item> {
        self.elems()
    }
}

} // verus!
