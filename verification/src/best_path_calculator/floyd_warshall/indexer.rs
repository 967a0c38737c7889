//! The index of a totally ordered type's values: dense ids in ascending order.

use crate::order::{before, is_before, lemma_chain, lemma_one_of_three, same, total_order};
use vstd::prelude::*;

verus! {

/// The values of `s` ascend strictly.
pub open spec fn ascending_by<T: Ord>(s: Seq<T>) -> bool {
    forall|a: int, b: int| 0 <= a < b < s.len() ==> #[trigger] before(s[a], s[b])
}

/// `ids` is an index of `items`: it ascends strictly, each of its values is one of the
/// items, and every item takes the place of one of its values.
pub open spec fn indexes<T: Ord>(ids: Seq<T>, items: Seq<T>) -> bool {
    &&& ascending_by(ids)
    &&& forall|i: int| 0 <= i < ids.len() ==> #[trigger] items.contains(ids[i])
    &&& forall|j: int|
        0 <= j < items.len() ==> #[trigger] has_place(ids, items[j])
}

/// `item` takes the place of one of `ids`.
pub open spec fn has_place<T: Ord>(ids: Seq<T>, item: T) -> bool {
    exists|i: int| 0 <= i < ids.len() && #[trigger] same(ids[i], item)
}

/// An index stays an index of the items and one more, where that one takes the place of
/// an indexed value.
pub proof fn lemma_indexes_skip<T: Ord>(ids: Seq<T>, done: Seq<T>, item: T, at: int)
    requires
        total_order::<T>(),
        indexes(ids, done),
        0 <= at < ids.len(),
        same(ids[at], item),
    ensures
        indexes(ids, done.push(item)),
{
    let next = done.push(item);
    assert forall|i: int| 0 <= i < ids.len() implies #[trigger] next.contains(ids[i]) by {
        assert(done.contains(ids[i]));
        let j = choose|j: int| 0 <= j < done.len() && done[j] == ids[i];
        assert(next[j] == ids[i]);
    }
    assert forall|j: int| 0 <= j < next.len() implies #[trigger] has_place(ids, next[j]) by {
        if j < done.len() {
            assert(has_place(ids, done[j]));
        }
    }
}

/// An index with a new item put between the values before it and the values after it is
/// an index of the items and the new one.
pub proof fn lemma_indexes_insert<T: Ord>(ids: Seq<T>, done: Seq<T>, item: T, at: int)
    requires
        total_order::<T>(),
        indexes(ids, done),
        0 <= at <= ids.len(),
        forall|y: int| 0 <= y < at ==> #[trigger] before(ids[y], item),
        at < ids.len() ==> before(item, ids[at]),
    ensures
        indexes(ids.insert(at, item), done.push(item)),
{
    let next = done.push(item);
    let r = ids.insert(at, item);
    assert forall|y: int| at <= y < ids.len() implies #[trigger] before(item, ids[y]) by {
        if y > at {
            assert(before(ids[at], ids[y]));
            lemma_chain(item, ids[at], ids[y]);
        }
    }
    assert forall|a: int, b: int| 0 <= a < b < r.len() implies #[trigger] before(r[a], r[b]) by {
        if b < at {
            assert(before(ids[a], ids[b]));
        } else if b == at {
            assert(before(ids[a], item));
        } else if a == at {
            assert(before(item, ids[b - 1]));
        } else if a < at {
            assert(before(ids[a], ids[b - 1]));
        } else {
            assert(before(ids[a - 1], ids[b - 1]));
        }
    }
    assert forall|i: int| 0 <= i < r.len() implies #[trigger] next.contains(r[i]) by {
        if i == at {
            assert(next[done.len() as int] == r[i]);
        } else {
            let o = if i < at {
                i
            } else {
                i - 1
            };
            assert(done.contains(ids[o]));
            let j = choose|j: int| 0 <= j < done.len() && done[j] == ids[o];
            assert(next[j] == r[i]);
        }
    }
    lemma_one_of_three(item, item);
    assert forall|j: int| 0 <= j < next.len() implies #[trigger] has_place(r, next[j]) by {
        if j < done.len() {
            assert(has_place(ids, done[j]));
            let i = choose|i: int| 0 <= i < ids.len() && #[trigger] same(ids[i], done[j]);
            if i < at {
                assert(same(r[i], next[j]));
            } else {
                assert(same(r[i + 1], next[j]));
            }
        } else {
            assert(same(r[at], next[j]));
        }
    }
}

/// The id of `x` in the index `ids`: the position of the value whose place `x` takes.
pub open spec fn place<T: Ord>(ids: Seq<T>, x: T) -> int {
    choose|i: int| 0 <= i < ids.len() && #[trigger] same(ids[i], x)
}

/// A value has one id only.
pub proof fn lemma_place<T: Ord>(ids: Seq<T>, x: T, i: int)
    requires
        total_order::<T>(),
        ascending_by(ids),
        0 <= i < ids.len(),
        same(ids[i], x),
    ensures
        place(ids, x) == i,
{
    let j = place(ids, x);
    lemma_one_of_three(ids[i], x);
    lemma_one_of_three(ids[j], x);
    if i < j {
        assert(before(ids[i], ids[j]));
        lemma_chain(ids[i], ids[j], x);
    }
    if j < i {
        assert(before(ids[j], ids[i]));
        lemma_chain(ids[j], ids[i], x);
    }
}

/// The values that references point to.
pub open spec fn values<T>(refs: Seq<&T>) -> Seq<T> {
    refs.map_values(|r: &T| *r)
}

/// Utility for creating an index of values, providing lookup by value or position: the
/// distinct values stand in ascending order, and a value's id is its position.
pub struct PositionIndexer<'a, T: Ord> {
    vec: Vec<&'a T>,
}

impl<'a, T: Ord> View for PositionIndexer<'a, T> {
    type V = Seq<T>;

    /// The indexed values in the order of their ids.
    closed spec fn view(&self) -> Seq<T> {
        values(self.vec@)
    }
}

impl<'a, T: Ord> PositionIndexer<'a, T> {
    /// The order of `T` is total and the indexed values ascend strictly.
    #[verifier::type_invariant]
    pub closed spec fn well_formed(&self) -> bool {
        total_order::<T>() && ascending_by(values(self.vec@))
    }
}

impl<'a, T: Ord + Clone> PositionIndexer<'a, T> {
    /// The index of the values that `set` refers to.
    pub fn new(set: &[&'a T]) -> (r: Self)
        requires
            total_order::<T>(),
        ensures
            indexes(r@, values(set@)),
    {
        let mut vec: Vec<&'a T> = Vec::new();
        let mut n: usize = 0;
        while n < set.len()
            invariant
                n <= set.len(),
                total_order::<T>(),
                indexes(values(vec@), values(set@.take(n as int))),
            decreases set.len() - n,
        {
            let item: &'a T = set[n];
            let ghost old_ids = values(vec@);
            let ghost done = values(set@.take(n as int));
            let mut at: usize = 0;
            while at < vec.len() && is_before(vec[at], item)
                invariant
                    at <= vec.len(),
                    total_order::<T>(),
                    forall|y: int| 0 <= y < at ==> #[trigger] before(values(vec@)[y], *item),
                decreases vec.len() - at,
            {
                at += 1;
            }
            let present = at < vec.len() && !is_before(item, vec[at]);
            if present {
                proof {
                    lemma_one_of_three(old_ids[at as int], *item);
                    lemma_indexes_skip(old_ids, done, *item, at as int);
                }
            } else {
                vec.insert(at, item);
                proof {
                    if at < old_ids.len() {
                        lemma_one_of_three(old_ids[at as int], *item);
                    }
                    lemma_indexes_insert(old_ids, done, *item, at as int);
                    assert(values(vec@) =~= old_ids.insert(at as int, *item));
                }
            }
            proof {
                assert(values(set@.take(n + 1)) =~= done.push(*item));
            }
            n += 1;
        }
        proof {
            assert(set@.take(n as int) =~= set@);
        }
        PositionIndexer { vec }
    }

    /// The indexed values in the order of their ids.
    pub fn iter(&self) -> (r: Vec<&'a T>)
        ensures
            values(r@) == self@,
    {
        let mut r: Vec<&'a T> = Vec::new();
        let mut n: usize = 0;
        while n < self.vec.len()
            invariant
                n <= self.vec.len(),
                r@ == self.vec@.take(n as int),
            decreases self.vec.len() - n,
        {
            r.push(self.vec[n]);
            proof {
                assert(r@ =~= self.vec@.take(n + 1));
            }
            n += 1;
        }
        proof {
            assert(self.vec@.take(n as int) =~= self.vec@);
        }
        r
    }

    /// How many values are indexed.
    pub fn len(&self) -> (r: usize)
        ensures
            r == self@.len(),
    {
        self.vec.len()
    }

    /// The id of `val`, which has to take the place of one of the indexed values.
    pub fn by_val(&self, val: &T) -> (r: usize)
        requires
            has_place(self@, *val),
        ensures
            r < self@.len(),
            same(self@[r as int], *val),
            r == place(self@, *val),
    {
        proof {
            use_type_invariant(self);
        }
        let ghost ids = values(self.vec@);
        let ghost found = choose|i: int| 0 <= i < ids.len() && #[trigger] same(ids[i], *val);
        let mut lo: usize = 0;
        let mut hi: usize = self.vec.len();
        while lo < hi
            invariant
                lo <= hi <= self.vec.len(),
                total_order::<T>(),
                ids == values(self.vec@),
                ascending_by(ids),
                forall|y: int| 0 <= y < lo ==> #[trigger] before(ids[y], *val),
                forall|y: int| hi <= y < ids.len() ==> !#[trigger] before(ids[y], *val),
            decreases hi - lo,
        {
            let mid = lo + (hi - lo) / 2;
            if is_before(self.vec[mid], val) {
                proof {
                    assert forall|y: int| 0 <= y < mid + 1 implies #[trigger] before(
                        ids[y],
                        *val,
                    ) by {
                        if y < mid {
                            assert(before(ids[y], ids[mid as int]));
                            lemma_chain(ids[y], ids[mid as int], *val);
                        }
                    }
                }
                lo = mid + 1;
            } else {
                proof {
                    assert forall|y: int| mid <= y < ids.len() implies !#[trigger] before(
                        ids[y],
                        *val,
                    ) by {
                        if y > mid {
                            assert(before(ids[mid as int], ids[y]));
                            lemma_chain(ids[mid as int], ids[y], *val);
                        }
                    }
                }
                hi = mid;
            }
        }
        proof {
            if found < lo {
                assert(before(ids[found], *val));
                lemma_one_of_three(ids[found], *val);
            }
            if found > lo {
                assert(before(ids[lo as int], ids[found]));
                lemma_chain(ids[lo as int], ids[found], *val);
            }
            lemma_place(ids, *val, lo as int);
        }
        lo
    }

    /// A copy of the value with id `ind`, which has to be an id of this index.
    pub fn by_ind(&self, ind: usize) -> (r: T)
        requires
            ind < self@.len(),
        ensures
            cloned(self@[ind as int], r),
    {
        self.vec[ind].clone()
    }
}

} // verus!
