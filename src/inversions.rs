//! Inversion counts under an arbitrary "greater than" relation: the measure
//! that an exchange of an out-of-order adjacent pair strictly decreases.
use vstd::prelude::*;

verus! {

/// `s` with the items at `k` and `k + 1` exchanged.
pub open spec fn swap_adjacent<T>(s: Seq<T>, k: int) -> Seq<T> {
    s.update(k, s[k + 1]).update(k + 1, s[k])
}

/// How many items of `t` the item `x` is greater than.
pub open spec fn count_below<T>(gt: spec_fn(T, T) -> bool, x: T, t: Seq<T>) -> nat
    decreases t.len(),
{
    if t.len() == 0 {
        0
    } else {
        (if gt(x, t[0]) {
            1nat
        } else {
            0nat
        }) + count_below(gt, x, t.drop_first())
    }
}

/// The number of pairs `i < j` with `s[i]` greater than `s[j]`.
pub open spec fn inversions<T>(gt: spec_fn(T, T) -> bool, s: Seq<T>) -> nat
    decreases s.len(),
{
    if s.len() == 0 {
        0
    } else {
        count_below(gt, s[0], s.drop_first()) + inversions(gt, s.drop_first())
    }
}

proof fn lemma_count_below_swap<T>(gt: spec_fn(T, T) -> bool, x: T, t: Seq<T>, k: int)
    requires
        0 <= k,
        k + 1 < t.len(),
    ensures
        count_below(gt, x, swap_adjacent(t, k)) == count_below(gt, x, t),
    decreases k,
{
    let u = swap_adjacent(t, k);
    if k == 0 {
        assert(u.drop_first().drop_first() =~= t.drop_first().drop_first());
        assert(u.drop_first()[0] == t[0]);
        assert(t.drop_first()[0] == u[0]);
        reveal_with_fuel(count_below, 2);
    } else {
        assert(u.drop_first() =~= swap_adjacent(t.drop_first(), k - 1));
        assert(u[0] == t[0]);
        lemma_count_below_swap(gt, x, t.drop_first(), k - 1);
    }
}

/// Exchanging an adjacent pair that is out of order, and not out of order the
/// other way round, removes exactly one inversion.
pub proof fn lemma_inversions_swap<T>(gt: spec_fn(T, T) -> bool, s: Seq<T>, k: int)
    requires
        0 <= k,
        k + 1 < s.len(),
        gt(s[k], s[k + 1]),
        !gt(s[k + 1], s[k]),
    ensures
        inversions(gt, swap_adjacent(s, k)) + 1 == inversions(gt, s),
    decreases k,
{
    let u = swap_adjacent(s, k);
    if k == 0 {
        let rest = s.drop_first().drop_first();
        assert(u.drop_first().drop_first() =~= rest);
        assert(u.drop_first()[0] == s[0]);
        assert(s.drop_first()[0] == u[0]);
        reveal_with_fuel(count_below, 2);
        reveal_with_fuel(inversions, 2);
        assert(count_below(gt, s[0], s.drop_first()) == 1 + count_below(gt, s[0], rest));
        assert(count_below(gt, u[0], u.drop_first()) == count_below(gt, u[0], rest));
    } else {
        assert(u.drop_first() =~= swap_adjacent(s.drop_first(), k - 1));
        assert(u[0] == s[0]);
        lemma_count_below_swap(gt, s[0], s.drop_first(), k - 1);
        lemma_inversions_swap(gt, s.drop_first(), k - 1);
    }
}

/// Exchanging two adjacent items keeps the same items.
pub proof fn lemma_swap_adjacent_multiset<T>(s: Seq<T>, k: int)
    requires
        0 <= k,
        k + 1 < s.len(),
    ensures
        swap_adjacent(s, k).to_multiset() =~= s.to_multiset(),
{
    broadcast use vstd::seq_lib::group_to_multiset_ensures;

    let u = swap_adjacent(s, k);
    assert(u.remove(k) =~= s.remove(k + 1));
    assert(u.remove(k).to_multiset() =~= u.to_multiset().remove(s[k + 1]));
    assert(s.remove(k + 1).to_multiset() =~= s.to_multiset().remove(s[k + 1]));
    assert(u.contains(s[k + 1]));
    assert(s.contains(s[k + 1]));
}

} // verus!
