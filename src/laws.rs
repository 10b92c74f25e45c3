//! Laws relating several operations, stated over the sequence of items that
//! the operations' contracts speak of.
use vstd::prelude::*;

use crate::linear_list::{in_order_by, sorted_by};
use std::cmp::Ordering;
use vstd::laws_cmp::{obeys_cmp, obeys_cmp_ord, obeys_partial_cmp_spec_properties};
use vstd::laws_eq::obeys_concrete_eq;
use vstd::std_specs::cmp::{OrdSpec, PartialEqSpec, PartialOrdSpec};

verus! {

/// The items of an empty list after `insert_before(0, x)` for each `x` of `xs`, in order.
pub open spec fn insert_each_at_front<T>(xs: Seq<T>) -> Seq<T>
    decreases xs.len(),
{
    if xs.len() == 0 {
        Seq::empty()
    } else {
        insert_each_at_front(xs.drop_last()).insert(0, xs.last())
    }
}

/// The items of an empty list after `insert_before(length, x)` for each `x` of `xs`, in order.
pub open spec fn insert_each_at_end<T>(xs: Seq<T>) -> Seq<T>
    decreases xs.len(),
{
    if xs.len() == 0 {
        Seq::empty()
    } else {
        let prev = insert_each_at_end(xs.drop_last());
        prev.insert(prev.len() as int, xs.last())
    }
}

/// The items that `delete(0)`, called until it fails, returns from a list holding `s`.
pub open spec fn delete_each_from_front<T>(s: Seq<T>) -> Seq<T>
    decreases s.len(),
{
    if s.len() == 0 {
        Seq::empty()
    } else {
        seq![s[0]] + delete_each_from_front(s.remove(0))
    }
}

/// After inserting `x` at a valid position `pos`, the item at `pos` is `x`
/// and the list is one longer.
pub proof fn lemma_insert_then_get<T>(s: Seq<T>, pos: int, x: T)
    requires
        0 <= pos <= s.len(),
    ensures
        s.insert(pos, x)[pos] == x,
        s.insert(pos, x).len() == s.len() + 1,
{
}

/// Deleting at the position just inserted at returns the inserted item and
/// restores the list.
pub proof fn lemma_insert_then_delete<T>(s: Seq<T>, pos: int, x: T)
    requires
        0 <= pos <= s.len(),
    ensures
        s.insert(pos, x)[pos] == x,
        s.insert(pos, x).remove(pos) == s,
{
    assert(s.insert(pos, x).remove(pos) =~= s);
}

/// Deleting from the front until empty yields the items front to back.
pub proof fn lemma_delete_each_from_front<T>(s: Seq<T>)
    ensures
        delete_each_from_front(s) == s,
    decreases s.len(),
{
    if s.len() > 0 {
        lemma_delete_each_from_front(s.remove(0));
        assert(seq![s[0]] + s.remove(0) =~= s);
    }
}

/// Inserting at the front, then deleting from the front, is last in, first out.
pub proof fn lemma_front_inserts_come_out_reversed<T>(xs: Seq<T>)
    ensures
        insert_each_at_front(xs) == xs.reverse(),
        delete_each_from_front(insert_each_at_front(xs)) == xs.reverse(),
    decreases xs.len(),
{
    if xs.len() > 0 {
        lemma_front_inserts_come_out_reversed(xs.drop_last());
        assert(xs.drop_last().reverse().insert(0, xs.last()) =~= xs.reverse());
    }
    lemma_delete_each_from_front(insert_each_at_front(xs));
}

/// Inserting at the end, then deleting from the front, is first in, first out.
pub proof fn lemma_end_inserts_come_out_in_order<T>(xs: Seq<T>)
    ensures
        insert_each_at_end(xs) == xs,
        delete_each_from_front(insert_each_at_end(xs)) == xs,
    decreases xs.len(),
{
    if xs.len() > 0 {
        lemma_end_inserts_come_out_in_order(xs.drop_last());
        assert(xs.drop_last().insert(xs.len() - 1, xs.last()) =~= xs);
    }
    lemma_delete_each_from_front(insert_each_at_end(xs));
}

/// Sorting distinct items with a comparator that reverses the natural order
/// leaves them strictly descending.
pub proof fn lemma_reverse_order_sorts_descending<T: Ord, F: Fn(&T, &T) -> Ordering>(
    compare: F,
    before: Seq<T>,
    after: Seq<T>,
)
    requires
        obeys_cmp::<T>(),
        obeys_concrete_eq::<T>(),
        forall|a: T, b: T, o: Ordering| #[trigger]
            call_ensures(compare, (&a, &b), o) ==> o == b.cmp_spec(&a),
        before.no_duplicates(),
        after.to_multiset() == before.to_multiset(),
        sorted_by(compare, after),
    ensures
        forall|i: int|
            0 <= i < after.len() - 1 ==> #[trigger] after[i].cmp_spec(&after[i + 1])
                == Ordering::Greater,
{
    reveal(obeys_cmp_ord);
    reveal(obeys_partial_cmp_spec_properties);
    reveal(obeys_concrete_eq);
    before.lemma_multiset_has_no_duplicates();
    after.lemma_multiset_has_no_duplicates_conv();
    assert forall|i: int| 0 <= i < after.len() - 1 implies #[trigger] after[i].cmp_spec(
        &after[i + 1],
    ) == Ordering::Greater by {
        let a = after[i];
        let b = after[i + 1];
        assert(in_order_by(compare, a, b));
        let o = choose|o: Ordering| #[trigger]
            call_ensures(compare, (&a, &b), o) && o != Ordering::Greater;
        assert(b.cmp_spec(&a) != Ordering::Greater);
        assert(a != b);
        assert(b.partial_cmp_spec(&a) == Some(b.cmp_spec(&a)));
        assert(a.partial_cmp_spec(&b) == Some(a.cmp_spec(&b)));
        assert(!b.eq_spec(&a));
    }
}

} // verus!
