use vstd::prelude::*;

use crate::inversions::{inversions, lemma_inversions_swap, lemma_swap_adjacent_multiset};
use std::cmp::Ordering;
use vstd::laws_cmp::{obeys_cmp, obeys_cmp_ord, obeys_partial_cmp_spec_properties};
use vstd::std_specs::cmp::{OrdSpec, PartialOrdSpec};

verus! {

/// The two ways a positional primitive can fail.
#[derive(Debug, PartialEq, Eq, Structural)]
pub enum LinearListError {
    /// The position lies outside the range valid for the operation.
    OutOfRange,
    /// An insertion was attempted while the storage was full.
    MemoryOverflow,
}

/// What a positional primitive returns.
pub type LinearListResult<T> = Result<T, LinearListError>;

/// Every adjacent pair of `s` is in natural order: `s[i] <= s[i + 1]`.
pub open spec fn sorted<T: Ord>(s: Seq<T>) -> bool {
    forall|i: int| 0 <= i < s.len() - 1 ==> #[trigger] s[i].cmp_spec(&s[i + 1]) != Ordering::Greater
}

/// A lawful total order never puts `a` above `b` and `b` above `a`.
pub proof fn lemma_cmp_asymmetric<T: Ord>()
    requires
        obeys_cmp::<T>(),
    ensures
        T::obeys_cmp_spec(),
        forall|a: T, b: T|
            #[trigger] a.cmp_spec(&b) == Ordering::Greater ==> b.cmp_spec(&a) == Ordering::Less,
{
    reveal(obeys_cmp_ord);
    reveal(obeys_partial_cmp_spec_properties);
    assert forall|a: T, b: T| #[trigger] a.cmp_spec(&b) == Ordering::Greater implies b.cmp_spec(&a)
        == Ordering::Less by {
        assert(a.partial_cmp_spec(&b) == Some(a.cmp_spec(&b)));
        assert(b.partial_cmp_spec(&a) == Some(b.cmp_spec(&a)));
    }
}

/// Each item of `b` is a clone of the item of `a` at the same position.
pub open spec fn clones_of<T: Clone>(a: Seq<T>, b: Seq<T>) -> bool {
    &&& a.len() == b.len()
    &&& forall|i: int| 0 <= i < a.len() ==> cloned(a[i], #[trigger] b[i])
}

/// Clones side by side concatenate to clones side by side.
pub proof fn lemma_clones_of_append<T: Clone>(a: Seq<T>, b: Seq<T>, c: Seq<T>, d: Seq<T>)
    requires
        clones_of(a, c),
        clones_of(b, d),
    ensures
        clones_of(a + b, c + d),
{
    assert forall|i: int| 0 <= i < (a + b).len() implies cloned((a + b)[i], #[trigger] (c + d)[i]) by {
        if i >= a.len() {
            assert(cloned(b[i - a.len()], d[i - a.len()]));
        }
    }
}

/// The items of all the lists of `ls`, list after list.
pub open spec fn concat_items<L: LinearList>(ls: Seq<L>) -> Seq<L::Item>
    decreases ls.len(),
{
    if ls.len() == 0 {
        Seq::empty()
    } else {
        concat_items(ls.drop_last()) + ls.last().items()
    }
}

/// Concatenation of the lists' items distributes over appending lists.
pub proof fn lemma_concat_items_append<L: LinearList>(a: Seq<L>, b: Seq<L>)
    ensures
        concat_items(a + b) == concat_items(a) + concat_items(b),
    decreases b.len(),
{
    if b.len() == 0 {
        assert(a + b =~= a);
        assert(concat_items(a) + concat_items(b) =~= concat_items(a));
    } else {
        assert((a + b).drop_last() =~= a + b.drop_last());
        lemma_concat_items_append(a, b.drop_last());
        assert(concat_items(a + b) =~= concat_items(a) + concat_items(b));
    }
}

/// The first `n` items of `s` are rejected by `predicate`.
pub open spec fn none_match<T, P: Fn(&T) -> bool>(predicate: P, s: Seq<T>, n: int) -> bool {
    forall|j: int| 0 <= j < n ==> #[trigger] call_ensures(predicate, (&s[j],), false)
}

/// `s[i]` is accepted by `predicate` and every item before it was rejected.
pub open spec fn first_match_at<T, P: Fn(&T) -> bool>(predicate: P, s: Seq<T>, i: int) -> bool {
    &&& 0 <= i < s.len()
    &&& call_ensures(predicate, (&s[i],), true)
    &&& none_match(predicate, s, i)
}

/// `compare` was seen to report something other than `Greater` for `(a, b)`.
pub open spec fn in_order_by<T, F: Fn(&T, &T) -> Ordering>(compare: F, a: T, b: T) -> bool {
    exists|o: Ordering| #[trigger] call_ensures(compare, (&a, &b), o) && o != Ordering::Greater
}

/// Every adjacent pair of `s` is in order under `compare`.
pub open spec fn sorted_by<T, F: Fn(&T, &T) -> Ordering>(compare: F, s: Seq<T>) -> bool {
    forall|i: int| 0 <= i < s.len() - 1 ==> #[trigger] in_order_by(compare, s[i], s[i + 1])
}

/// `compare` may report `Greater` for `(a, b)`.
pub open spec fn may_be_greater<T, F: Fn(&T, &T) -> Ordering>(compare: F, a: T, b: T) -> bool {
    call_ensures(compare, (&a, &b), Ordering::Greater)
}

/// `may_be_greater` as a relation on items.
pub open spec fn greater_by<T, F: Fn(&T, &T) -> Ordering>(compare: F) -> spec_fn(T, T) -> bool {
    |a: T, b: T| may_be_greater(compare, a, b)
}

/// `compare` accepts every pair and never reports `Greater` both ways round;
/// with such a comparator every exchange removes an inversion, so sorting ends.
pub open spec fn is_asymmetric<T, F: Fn(&T, &T) -> Ordering>(compare: F) -> bool {
    &&& forall|a: &T, b: &T| #[trigger] call_requires(compare, (a, b))
    &&& forall|a: T, b: T|
        #[trigger] may_be_greater(compare, a, b) ==> !may_be_greater(compare, b, a)
}

/// An ordered sequence of items addressed by position `0..length`.
///
/// Implementors supply the primitives; everything else is derived from them.
pub trait LinearList: Sized {
    type Item;

    /// The items, front to back.
    spec fn items(&self) -> Seq<Self::Item>;

    /// The internal invariant of the representation.
    spec fn wf(&self) -> bool;

    /// The number of items any list of this type can hold.
    spec fn capacity() -> nat;

    /// A well-formed list never holds more than the capacity.
    proof fn lemma_wf_within_capacity(&self)
        requires
            self.wf(),
        ensures
            self.items().len() <= Self::capacity(),
            self.items().len() <= usize::MAX,
    ;

    /// An empty list.
    fn new() -> (r: Self)
        ensures
            r.wf(),
            r.items() == Seq::<Self::Item>::empty(),
    ;

    /// The number of items.
    fn length(&self) -> (n: usize)
        requires
            self.wf(),
        ensures
            n == self.items().len(),
    ;

    /// The item at `pos`, if there is one.
    fn get(&self, pos: usize) -> (r: Option<&Self::Item>)
        requires
            self.wf(),
        ensures
            pos < self.items().len() ==> r == Some(&self.items()[pos as int]),
            pos >= self.items().len() ==> r is None,
    ;

    /// A mutable reference to the item at `pos`; writing through it replaces that item.
    fn get_mut(&mut self, pos: usize) -> (r: Option<&mut Self::Item>)
        requires
            old(self).wf(),
        ensures
            match r {
                Some(m) => {
                    &&& pos < old(self).items().len()
                    &&& *m == old(self).items()[pos as int]
                    &&& final(self).wf()
                    &&& final(self).items() == old(self).items().update(pos as int, *final(m))
                },
                None => pos >= old(self).items().len() && *final(self) == *old(self),
            },
    ;

    /// Exchanges the items at positions `i` and `j` in place.
    fn swap(&mut self, i: usize, j: usize)
        requires
            old(self).wf(),
            i < old(self).items().len(),
            j < old(self).items().len(),
        ensures
            final(self).wf(),
            final(self).items() == old(self).items().update(i as int, old(self).items()[j as int]).update(
                j as int,
                old(self).items()[i as int],
            ),
    ;

    /// Inserts `item` so that it becomes the item at `pos`, moving the items
    /// from `pos` on one position later. An out-of-range position is reported
    /// before a full list.
    fn insert_before(&mut self, pos: usize, item: Self::Item) -> (r: LinearListResult<()>)
        requires
            old(self).wf(),
        ensures
            final(self).wf(),
            pos > old(self).items().len() ==> r == Err::<(), _>(LinearListError::OutOfRange)
                && *final(self) == *old(self),
            pos <= old(self).items().len() && old(self).items().len() >= Self::capacity() ==> r
                == Err::<(), _>(LinearListError::MemoryOverflow) && *final(self) == *old(self),
            pos <= old(self).items().len() && old(self).items().len() < Self::capacity() ==> r
                == Ok::<(), LinearListError>(()) && final(self).items() == old(self).items().insert(
                pos as int,
                item,
            ),
    ;

    /// Removes the item at `pos` and hands it back, moving the later items one
    /// position earlier.
    fn delete(&mut self, pos: usize) -> (r: LinearListResult<Self::Item>)
        requires
            old(self).wf(),
        ensures
            final(self).wf(),
            pos >= old(self).items().len() ==> r == Err::<Self::Item, _>(
                LinearListError::OutOfRange,
            ) && *final(self) == *old(self),
            pos < old(self).items().len() ==> r == Ok::<Self::Item, LinearListError>(
                old(self).items()[pos as int],
            ) && final(self).items() == old(self).items().remove(pos as int),
    ;

    /// Inserts `item` right after position `pos`, as `insert_before(pos + 1, item)`.
    fn insert_after(&mut self, pos: usize, item: Self::Item) -> (r: LinearListResult<()>)
        requires
            old(self).wf(),
        ensures
            final(self).wf(),
            pos + 1 > old(self).items().len() ==> r == Err::<(), _>(LinearListError::OutOfRange)
                && *final(self) == *old(self),
            pos + 1 <= old(self).items().len() && old(self).items().len() >= Self::capacity() ==> r
                == Err::<(), _>(LinearListError::MemoryOverflow) && *final(self) == *old(self),
            pos + 1 <= old(self).items().len() && old(self).items().len() < Self::capacity() ==> r
                == Ok::<(), LinearListError>(()) && final(self).items() == old(self).items().insert(
                pos + 1,
                item,
            ),
    {
        proof {
            self.lemma_wf_within_capacity();
        }
        if pos == usize::MAX {
            Err(LinearListError::OutOfRange)
        } else {
            self.insert_before(pos + 1, item)
        }
    }

    /// A new list holding a clone of each item, in order.
    fn clone(&self) -> (r: Self) where Self::Item: Clone
        requires
            self.wf(),
        ensures
            r.wf(),
            clones_of(self.items(), r.items()),
    {
        proof {
            self.lemma_wf_within_capacity();
        }
        let mut new_list = Self::new();
        let n = self.length();
        for i in 0..n
            invariant
                self.wf(),
                new_list.wf(),
                n == self.items().len(),
                n <= Self::capacity(),
                new_list.items().len() == i,
                forall|k: int| 0 <= k < i ==> cloned(self.items()[k], #[trigger] new_list.items()[k]),
        {
            let item = self.get(i).unwrap().clone();
            let inserted = new_list.insert_before(i, item);
            assert(inserted is Ok);
        }
        new_list
    }

    /// The first item, from the front, that `predicate` accepts.
    fn search_by<P>(&self, predicate: P) -> (r: Option<&Self::Item>) where
        P: Fn(&Self::Item) -> bool,
        requires
            self.wf(),
            forall|x: &Self::Item| #[trigger] call_requires(predicate, (x,)),
        ensures
            match r {
                Some(x) => exists|i: int| #[trigger]
                    first_match_at(predicate, self.items(), i) && *x == self.items()[i],
                None => none_match(predicate, self.items(), self.items().len() as int),
            },
    {
        let n = self.length();
        for i in 0..n
            invariant
                self.wf(),
                n == self.items().len(),
                forall|x: &Self::Item| #[trigger] call_requires(predicate, (x,)),
                none_match(predicate, self.items(), i as int),
        {
            let item = self.get(i).unwrap();
            if predicate(item) {
                assert(first_match_at(predicate, self.items(), i as int));
                return Some(item);
            }
        }
        None
    }

    /// Bubble sort under `compare`: passes over adjacent pairs, exchanging those
    /// reported `Greater`, until a pass exchanges nothing.
    fn sort_by<F>(&mut self, compare: F) where F: Fn(&Self::Item, &Self::Item) -> Ordering
        requires
            old(self).wf(),
            is_asymmetric(compare),
        ensures
            final(self).wf(),
            final(self).items().to_multiset() == old(self).items().to_multiset(),
            sorted_by(compare, final(self).items()),
    {
        let ghost start = self.items();
        let n = self.length();
        let mut sorted = false;
        while !sorted
            invariant
                self.wf(),
                self.items().len() == n,
                is_asymmetric(compare),
                self.items().to_multiset() == start.to_multiset(),
                sorted ==> sorted_by(compare, self.items()),
            decreases inversions(greater_by(compare), self.items()) + if sorted {
                0nat
            } else {
                1nat
            },
        {
            let ghost pass_start = self.items();
            sorted = true;
            let mut j: usize = 1;
            while j < n
                invariant
                    self.wf(),
                    self.items().len() == n,
                    is_asymmetric(compare),
                    1 <= j,
                    j <= n || n == 0,
                    self.items().to_multiset() == start.to_multiset(),
                    sorted ==> self.items() == pass_start,
                    sorted ==> forall|k: int|
                        0 <= k < j - 1 ==> #[trigger] in_order_by(compare, self.items()[k], self.items()[k + 1]),
                    !sorted ==> inversions(greater_by(compare), self.items()) < inversions(greater_by(compare), pass_start),
                decreases n - j,
            {
                let i = j - 1;
                let o = compare(self.get(i).unwrap(), self.get(j).unwrap());
                match o {
                    Ordering::Greater => {
                        proof {
                            let s = self.items();
                            assert(may_be_greater(compare, s[i as int], s[j as int]));
                            assert(!may_be_greater(compare, s[j as int], s[i as int]));
                            assert(greater_by(compare)(s[i as int], s[j as int]));
                            assert(!greater_by(compare)(s[j as int], s[i as int]));
                            lemma_inversions_swap(greater_by(compare), s, i as int);
                            lemma_swap_adjacent_multiset(s, i as int);
                        }
                        self.swap(i, j);
                        sorted = false;
                    },
                    _ => {
                        assert(in_order_by(compare, self.items()[i as int], self.items()[j as int]));
                    },
                }
                j += 1;
            }
        }
    }

    /// Sorts the items into ascending natural order with the same bubble sort.
    fn sort(&mut self) where Self::Item: Ord
        requires
            old(self).wf(),
            obeys_cmp::<Self::Item>(),
        ensures
            final(self).wf(),
            final(self).items().to_multiset() == old(self).items().to_multiset(),
            sorted(final(self).items()),
    {
        proof {
            lemma_cmp_asymmetric::<Self::Item>();
        }
        let natural = |a: &Self::Item, b: &Self::Item| -> (o: Ordering)
            ensures
                Self::Item::obeys_cmp_spec() ==> o == a.cmp_spec(b),
            { a.cmp(b) };
        assert forall|a: Self::Item, b: Self::Item| #[trigger]
            may_be_greater(natural, a, b) implies !may_be_greater(natural, b, a) by {
            assert(a.cmp_spec(&b) == Ordering::Greater);
        }
        self.sort_by(natural);
        assert forall|i: int| 0 <= i < self.items().len() - 1 implies #[trigger] self.items()[i].cmp_spec(
            &self.items()[i + 1],
        ) != Ordering::Greater by {
            assert(in_order_by(natural, self.items()[i], self.items()[i + 1]));
        }
    }

}

/// Operations that move or copy the items of other lists onto the end of a
/// list, built from the primitives of both.
pub trait Combine: LinearList {
    /// Appends a clone of each item of `other`, in order, leaving `other` as it is.
    fn clone_combine<L>(&mut self, other: &L) where
        L: LinearList<Item = Self::Item>,
        Self::Item: Clone,
        requires
            old(self).wf(),
            other.wf(),
            old(self).items().len() + other.items().len() <= Self::capacity(),
        ensures
            final(self).wf(),
            final(self).items().len() == old(self).items().len() + other.items().len(),
            final(self).items().take(old(self).items().len() as int) == old(self).items(),
            clones_of(other.items(), final(self).items().skip(old(self).items().len() as int)),
    ;

    /// Clone-combines with each list of `others` in turn.
    fn clone_combine_all<L>(&mut self, others: &[L]) where
        L: LinearList<Item = Self::Item>,
        Self::Item: Clone,
        requires
            old(self).wf(),
            forall|i: int| 0 <= i < others@.len() ==> (#[trigger] others@[i]).wf(),
            old(self).items().len() + concat_items(others@).len() <= Self::capacity(),
        ensures
            final(self).wf(),
            final(self).items().len() == old(self).items().len() + concat_items(others@).len(),
            final(self).items().take(old(self).items().len() as int) == old(self).items(),
            clones_of(concat_items(others@), final(self).items().skip(old(self).items().len() as int)),
    ;

    /// Moves every item of `other`, front first, to the end of this list.
    fn combine<L>(&mut self, other: L) where L: LinearList<Item = Self::Item>
        requires
            old(self).wf(),
            other.wf(),
            old(self).items().len() + other.items().len() <= Self::capacity(),
        ensures
            final(self).wf(),
            final(self).items() == old(self).items() + other.items(),
    ;

    /// Combines with each list of `others` in turn.
    fn combine_all<L>(&mut self, others: Vec<L>) where L: LinearList<Item = Self::Item>
        requires
            old(self).wf(),
            forall|i: int| 0 <= i < others.len() ==> (#[trigger] others[i]).wf(),
            old(self).items().len() + concat_items(others@).len() <= Self::capacity(),
        ensures
            final(self).wf(),
            final(self).items() == old(self).items() + concat_items(others@),
    ;
}

impl<S: LinearList> Combine for S {
    fn clone_combine<L>(&mut self, other: &L) where
        L: LinearList<Item = Self::Item>,
        Self::Item: Clone,
    {
        let ghost start = self.items();
        let ghost n = start.len() as int;
        let m = other.length();
        for i in 0..m
            invariant
                self.wf(),
                other.wf(),
                m == other.items().len(),
                n == start.len(),
                n + m <= Self::capacity(),
                self.items().len() == n + i,
                self.items().take(n) == start,
                clones_of(other.items().take(i as int), self.items().skip(n)),
        {
            let item = other.get(i).unwrap();
            let len = self.length();
            let ghost before = self.items();
            let copy = item.clone();
            let inserted = self.insert_before(len, copy);
            assert(inserted is Ok);
            assert(self.items() =~= before.push(copy));
            assert(self.items().take(n) =~= before.take(n));
            assert(self.items().skip(n) =~= before.skip(n).push(copy));
            assert(other.items().take(i + 1) =~= other.items().take(i as int).push(other.items()[i as int]));
        }
        assert(other.items().take(m as int) =~= other.items());
    }

    fn clone_combine_all<L>(&mut self, others: &[L]) where
        L: LinearList<Item = Self::Item>,
        Self::Item: Clone,
    {
        let ghost start = self.items();
        let ghost n = start.len() as int;
        let ghost all = others@;
        let count = others.len();
        for i in 0..count
            invariant
                self.wf(),
                all == others@,
                count == all.len(),
                forall|k: int| 0 <= k < all.len() ==> (#[trigger] all[k]).wf(),
                n == start.len(),
                n + concat_items(all).len() <= Self::capacity(),
                self.items().len() == n + concat_items(all.take(i as int)).len(),
                self.items().take(n) == start,
                clones_of(concat_items(all.take(i as int)), self.items().skip(n)),
        {
            let ghost before = self.items();
            proof {
                assert(all.take(i + 1).drop_last() =~= all.take(i as int));
                assert(all =~= all.take(i + 1) + all.skip(i + 1));
                lemma_concat_items_append(all.take(i + 1), all.skip(i + 1));
            }
            self.clone_combine(&others[i]);
            proof {
                let m = before.len() as int;
                assert(self.items().take(n) =~= before.take(n));
                assert(self.items().skip(n) =~= before.skip(n) + self.items().skip(m));
                lemma_clones_of_append(
                    concat_items(all.take(i as int)),
                    all[i as int].items(),
                    before.skip(n),
                    self.items().skip(m),
                );
            }
        }
        assert(all.take(count as int) =~= all);
    }

    fn combine<L>(&mut self, other: L) where L: LinearList<Item = Self::Item>
    {
        let mut other = other;
        let ghost whole = self.items() + other.items();
        loop
            invariant
                self.wf(),
                other.wf(),
                self.items() + other.items() == whole,
                whole.len() <= Self::capacity(),
            ensures
                self.wf(),
                self.items() == whole,
            decreases other.items().len(),
        {
            match other.delete(0) {
                Ok(item) => {
                    let len = self.length();
                    let inserted = self.insert_before(len, item);
                    assert(inserted is Ok);
                    assert(self.items() + other.items() =~= whole);
                },
                Err(_) => {
                    assert(self.items() =~= whole);
                    break ;
                },
            }
        }
    }

    fn combine_all<L>(&mut self, others: Vec<L>) where L: LinearList<Item = Self::Item>
    {
        let ghost start = self.items();
        let ghost all = others@;
        for list in it: others
            invariant
                self.wf(),
                it.seq() == all,
                forall|i: int| 0 <= i < all.len() ==> (#[trigger] all[i]).wf(),
                start.len() + concat_items(all).len() <= Self::capacity(),
                self.items() == start + concat_items(all.take(it.index() as int)),
        {
            let ghost k = it.index() as int;
            proof {
                assert(all.take(k + 1).drop_last() =~= all.take(k));
                assert(all =~= all.take(k + 1) + all.skip(k + 1));
                lemma_concat_items_append(all.take(k + 1), all.skip(k + 1));
            }
            self.combine(list);
            assert(self.items() =~= start + concat_items(all.take(k + 1)));
        }
        assert(all.take(all.len() as int) =~= all);
    }
}

} // verus!
