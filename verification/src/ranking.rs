//! Ranking values from the largest down.
use vstd::prelude::*;
use crate::scalar::{arithmetic, comparable, in_order, less, ordering, Real};

verus! {

/// Any two of the values stand in some order to each other.
pub open spec fn rankable<R: Real>(values: Seq<R>) -> bool {
    forall|i: int, j: int|
        0 <= i < values.len() && 0 <= j < values.len() && i != j ==> #[trigger] comparable(
            values[i],
            values[j],
        )
}

/// The number of leading entries of `order` that are not below `v`.
pub open spec fn slot<R: Real>(values: Seq<R>, order: Seq<usize>, v: R) -> int
    decreases order.len(),
{
    if order.len() == 0 {
        0
    } else if less(values[order.last() as int], v) {
        slot(values, order.drop_last(), v)
    } else {
        order.len() as int
    }
}

/// The first `n` indices, each put behind all those whose values are not below its own.
pub open spec fn ranking<R: Real>(values: Seq<R>, n: nat) -> Seq<usize>
    decreases n,
{
    if n == 0 {
        Seq::empty()
    } else {
        let before = ranking(values, (n - 1) as nat);
        before.insert(slot(values, before, values[n - 1]), (n - 1) as usize)
    }
}

proof fn slot_is_a_place<R: Real>(values: Seq<R>, order: Seq<usize>, v: R)
    ensures
        0 <= slot(values, order, v) <= order.len(),
    decreases order.len(),
{
    if order.len() > 0 {
        slot_is_a_place(values, order.drop_last(), v);
    }
}

/// A ranking of the first `n` indices holds `n` indices below `n`.
pub proof fn ranking_is_of_indices<R: Real>(values: Seq<R>, n: nat)
    requires
        n <= usize::MAX,
    ensures
        ranking(values, n).len() == n,
        forall|k: int| 0 <= k < n ==> 0 <= #[trigger] ranking(values, n)[k] < n,
    decreases n,
{
    if n > 0 {
        let before = ranking(values, (n - 1) as nat);
        ranking_is_of_indices(values, (n - 1) as nat);
        slot_is_a_place(values, before, values[n - 1]);
    }
}

/// Whether any two of the values stand in some order to each other.
fn all_comparable<R: Real>(values: &[R]) -> (r: bool)
    requires
        arithmetic::<R>(),
    ensures
        r == rankable(values@),
{
    let n = values.len();
    for i in 0..n
        invariant
            arithmetic::<R>(),
            n == values@.len(),
            forall|k: int, l: int|
                0 <= k < i && 0 <= l < n && k != l ==> #[trigger] comparable(values@[k], values@[l]),
    {
        for j in 0..n
            invariant
                arithmetic::<R>(),
                n == values@.len(),
                i < n,
                forall|l: int|
                    0 <= l < j && i != l ==> #[trigger] comparable(values@[i as int], values@[l]),
        {
            if i != j && !in_order(values[i], values[j]) {
                assert(!comparable(values@[i as int], values@[j as int]));
                return false;
            }
        }
    }
    true
}

/// The indices of the values from the largest down, equal values in the order in
/// which they stand; `None` where two values cannot be compared.
pub fn rank<R: Real>(values: &[R]) -> (r: Option<Vec<usize>>)
    requires
        arithmetic::<R>(),
    ensures
        r is Some <==> rankable(values@),
        r matches Some(order) ==> order@ == ranking(values@, values@.len()),
{
    if !all_comparable(values) {
        return None;
    }
    let n = values.len();
    let mut order: Vec<usize> = Vec::new();
    for i in 0..n
        invariant
            arithmetic::<R>(),
            n == values@.len(),
            order@ == ranking(values@, i as nat),
            order@.len() == i,
    {
        let v = values[i];
        let mut place: usize = i;
        proof {
            ranking_is_of_indices(values@, i as nat);
            assert(order@.take(i as int) =~= order@);
        }
        while place > 0 && values[order[place - 1]] < v
            invariant
                arithmetic::<R>(),
                n == values@.len(),
                i < n,
                order@.len() == i,
                place <= i,
                v == values@[i as int],
                forall|k: int| 0 <= k < i ==> 0 <= #[trigger] order@[k] < n,
                slot(values@, order@, v) == slot(values@, order@.take(place as int), v),
            decreases place,
        {
            assert(order@.take(place as int).drop_last() =~= order@.take(place - 1));
            place = place - 1;
        }
        proof {
            assert(slot(values@, order@, v) == place);
        }
        order.insert(place, i);
    }
    Some(order)
}

// ---- what holds of every ranking --------------------------------------------

/// Behind its slot a value is larger than all others, and right before it is not.
proof fn slot_divides<R: Real>(values: Seq<R>, order: Seq<usize>, v: R)
    ensures
        0 <= slot(values, order, v) <= order.len(),
        forall|l: int|
            slot(values, order, v) <= l < order.len() ==> less(
                values[#[trigger] order[l] as int],
                v,
            ),
        slot(values, order, v) > 0 ==> !less(
            values[order[slot(values, order, v) - 1] as int],
            v,
        ),
    decreases order.len(),
{
    if order.len() > 0 && less(values[order.last() as int], v) {
        let rest = order.drop_last();
        slot_divides(values, rest, v);
        assert forall|l: int| slot(values, order, v) <= l < order.len() implies less(
            values[#[trigger] order[l] as int],
            v,
        ) by {
            if l < rest.len() {
                assert(rest[l] == order[l]);
            }
        }
    }
}

/// A ranking holds every index exactly once.
pub proof fn ranking_is_a_permutation<R: Real>(values: Seq<R>, n: nat)
    requires
        n <= usize::MAX,
    ensures
        ranking(values, n).len() == n,
        forall|k: int, l: int|
            0 <= k < l < n ==> #[trigger] ranking(values, n)[k] != #[trigger] ranking(values, n)[l],
        forall|i: int| 0 <= i < n ==> #[trigger] ranking(values, n).contains(i as usize),
    decreases n,
{
    ranking_is_of_indices(values, n);
    if n > 0 {
        let before = ranking(values, (n - 1) as nat);
        let after = ranking(values, n);
        let s = slot(values, before, values[n - 1]);
        ranking_is_a_permutation(values, (n - 1) as nat);
        ranking_is_of_indices(values, (n - 1) as nat);
        slot_is_a_place(values, before, values[n - 1]);
        assert forall|k: int, l: int| 0 <= k < l < n implies #[trigger] after[k]
            != #[trigger] after[l] by {
            let (k0, l0) = (
                if k < s {
                    k
                } else {
                    k - 1
                },
                if l < s {
                    l
                } else {
                    l - 1
                },
            );
            if k != s && l != s {
                assert(before[k0] != before[l0]);
            } else if k != s {
                assert(before[k0] < n - 1);
            } else {
                assert(before[l0] < n - 1);
            }
        }
        assert forall|i: int| 0 <= i < n implies #[trigger] after.contains(i as usize) by {
            if i == n - 1 {
                assert(after[s] == i as usize);
            } else {
                assert(before.contains(i as usize));
                let k = choose|k: int| 0 <= k < before.len() && before[k] == i as usize;
                if k < s {
                    assert(after[k] == i as usize);
                } else {
                    assert(after[k + 1] == i as usize);
                }
            }
        }
    }
}

/// A ranking runs from the largest value down, and keeps equal values in the order in which
/// they stand.
pub proof fn ranking_descends<R: Real>(values: Seq<R>, n: nat, k: int, l: int)
    requires
        ordering::<R>(),
        rankable(values),
        n <= values.len(),
        n <= usize::MAX,
        0 <= k < l < n,
    ensures
        !less(values[ranking(values, n)[k] as int], values[ranking(values, n)[l] as int]),
        !less(values[ranking(values, n)[l] as int], values[ranking(values, n)[k] as int])
            ==> ranking(values, n)[k] < ranking(values, n)[l],
    decreases n,
{
    let before = ranking(values, (n - 1) as nat);
    let after = ranking(values, n);
    let v = values[n - 1];
    let s = slot(values, before, v);
    ranking_is_of_indices(values, (n - 1) as nat);
    ranking_is_of_indices(values, n);
    slot_divides(values, before, v);
    if k == s {
        assert(after[l] == before[l - 1]);
        assert(less(values[before[l - 1] as int], v));
    } else if l == s {
        assert(after[k] == before[k]);
        assert(!less(values[before[s - 1] as int], v));
        if k < s - 1 {
            ranking_descends(values, (n - 1) as nat, k, s - 1);
            ranking_is_a_permutation(values, (n - 1) as nat);
            let (a, b) = (before[k] as int, before[s - 1] as int);
            assert(before[k] != before[s - 1]);
            assert(comparable(v, values[b]) && comparable(values[b], values[a]) && comparable(
                v,
                values[a],
            ));
        }
    } else {
        let (k0, l0) = (
            if k < s {
                k
            } else {
                k - 1
            },
            if l < s {
                l
            } else {
                l - 1
            },
        );
        assert(after[k] == before[k0]);
        assert(after[l] == before[l0]);
        ranking_descends(values, (n - 1) as nat, k0, l0);
    }
}

} // verus!
