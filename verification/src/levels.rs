//! Levels in decibels and their normalization.
use vstd::prelude::*;
use crate::scalar::{
    arithmetic, clamped, comparable, evaluates, larger, less, max_of, minus, ordering, over,
    smaller, times, unordered, value, whole, Elementary, Real,
};
use crate::table::vector_of;

verus! {

/// 10 to the power of -15.
pub open spec fn faintest<R: Real>() -> R {
    over(whole(1), times(whole(1_000_000_000), whole(1_000_000)))
}

/// 10 to the power of -15.
pub fn least_magnitude<R: Real>() -> (r: R)
    requires
        arithmetic::<R>(),
    ensures
        r == faintest::<R>(),
{
    R::from(1) / (R::from(1_000_000_000) * R::from(1_000_000))
}

/// The level of a magnitude: twenty times its logarithm, and -150 where it is negligible.
pub open spec fn level<R: Real, M: Fn(Elementary<R>) -> R>(math: M, magnitude: R) -> R {
    if less(faintest(), magnitude) {
        times(whole(20), value(math, Elementary::Log10(magnitude)))
    } else {
        whole(-150)
    }
}

/// The level of a magnitude in decibels.
pub fn to_db<R: Real, M: Fn(Elementary<R>) -> R>(magnitude: R, math: &M) -> (r: R)
    requires
        arithmetic::<R>(),
        evaluates(*math),
    ensures
        r == level(*math, magnitude),
{
    if least_magnitude::<R>() < magnitude {
        R::from(20) * math(Elementary::Log10(magnitude))
    } else {
        R::from(-150)
    }
}

/// The largest of `start` and the values.
pub open spec fn largest<R: Real>(start: R, values: Seq<R>) -> R
    decreases values.len(),
{
    if values.len() == 0 {
        start
    } else {
        larger(largest(start, values.drop_last()), values.last())
    }
}

/// The largest of `start` and the values.
pub fn maximum<R: Real>(start: R, values: &[R]) -> (r: R)
    requires
        arithmetic::<R>(),
    ensures
        r == largest(start, values@),
{
    let mut best = start;
    for i in 0..values.len()
        invariant
            arithmetic::<R>(),
            best == largest(start, values@.take(i as int)),
    {
        assert(values@.take(i + 1).drop_last() =~= values@.take(i as int));
        best = max_of(best, values[i]);
    }
    assert(values@.take(values@.len() as int) =~= values@);
    best
}

/// The largest of the values that compare with themselves, if there is one.
pub open spec fn peak<R: Real>(values: Seq<R>) -> Option<R>
    decreases values.len(),
{
    if values.len() == 0 {
        None
    } else {
        match peak(values.drop_last()) {
            Some(best) => Some(larger(best, values.last())),
            None => if unordered(values.last()) {
                None
            } else {
                Some(values.last())
            },
        }
    }
}

/// The values less their peak; values without a peak stay as they are.
pub open spec fn normalized<R: Real>(values: Seq<R>) -> Seq<R> {
    match peak(values) {
        Some(best) => Seq::new(values.len(), |i: int| minus(values[i], best)),
        None => values,
    }
}

/// The largest of the values that compare with themselves, if there is one.
pub fn peak_of<R: Real>(values: &[R]) -> (r: Option<R>)
    requires
        arithmetic::<R>(),
    ensures
        r == peak(values@),
{
    let mut best: Option<R> = None;
    for i in 0..values.len()
        invariant
            arithmetic::<R>(),
            best == peak(values@.take(i as int)),
    {
        assert(values@.take(i + 1).drop_last() =~= values@.take(i as int));
        let v = values[i];
        best = match best {
            Some(b) => Some(max_of(b, v)),
            None => if v <= v {
                Some(v)
            } else {
                None
            },
        };
    }
    assert(values@.take(values@.len() as int) =~= values@);
    best
}

/// The values less their peak.
pub fn normalize<R: Real>(values: &[R]) -> (r: Vec<R>)
    requires
        arithmetic::<R>(),
    ensures
        r@ == normalized(values@),
{
    let best = peak_of(values);
    vector_of(
        values.len(),
        |i: usize| -> (v: R)
            requires
                i < values@.len(),
            ensures
                v == normalized(values@)[i as int],
            {
                match best {
                    Some(b) => values[i] - b,
                    None => values[i],
                }
            })
}

// ---- what holds of every normalization --------------------------------------

/// The values stand in some order to each other, and each to itself.
pub open spec fn in_line<R: Real>(values: Seq<R>) -> bool {
    &&& forall|i: int, j: int|
        0 <= i < values.len() && 0 <= j < values.len() ==> #[trigger] comparable(
            values[i],
            values[j],
        )
    &&& forall|i: int| 0 <= i < values.len() ==> !unordered(#[trigger] values[i])
}

/// The largest of a start and values in line with it is one of them, and none is larger.
pub proof fn largest_is_the_largest<R: Real>(start: R, values: Seq<R>)
    requires
        ordering::<R>(),
        in_line(seq![start] + values),
    ensures
        largest(start, values) == start || exists|i: int|
            0 <= i < values.len() && #[trigger] values[i] == largest(start, values),
        !less(largest(start, values), start),
        forall|i: int|
            0 <= i < values.len() ==> !less(largest(start, values), #[trigger] values[i]),
    decreases values.len(),
{
    let all = seq![start] + values;
    assert(all[0] == start);
    assert(comparable(all[0], all[0]));
    if values.len() > 0 {
        let rest = values.drop_last();
        let n = values.len() as int;
        assert(all.drop_last() =~= seq![start] + rest);
        assert forall|i: int, j: int| 0 <= i < n && 0 <= j < n implies #[trigger] comparable(
            (seq![start] + rest)[i],
            (seq![start] + rest)[j],
        ) by {
            assert(comparable(all[i], all[j]));
        }
        assert forall|i: int| 0 <= i < n implies !unordered(
            #[trigger] (seq![start] + rest)[i],
        ) by {
            assert(!unordered(all[i]));
        }
        largest_is_the_largest(start, rest);
        let b = largest(start, rest);
        let v = values.last();
        let k = if b == start {
            0
        } else {
            let i = choose|i: int| 0 <= i < rest.len() && #[trigger] rest[i] == b;
            i + 1
        };
        assert(all[k] == b);
        assert(all[n] == v);
        assert(comparable(all[k], all[n]) && !unordered(all[k]));
        let m = largest(start, values);
        assert(m == b || m == v);
        assert(m == v ==> values[n - 1] == m);
        assert(m == b && b != start ==> values[k - 1] == m);
        assert forall|i: int| 0 <= i <= n implies !less(m, #[trigger] all[i]) by {
            assert(comparable(all[i], all[k]) && comparable(all[i], all[n]));
            assert(comparable(all[i], all[i]));
            if i < n && i > 0 {
                assert(rest[i - 1] == all[i]);
            }
        }
        assert forall|i: int| 0 <= i < values.len() implies !less(m, #[trigger] values[i]) by {
            assert(all[i + 1] == values[i]);
        }
    }
}

/// The peak of values in line is one of them, and none is larger.
pub proof fn peak_is_the_largest<R: Real>(values: Seq<R>)
    requires
        ordering::<R>(),
        in_line(values),
        0 < values.len(),
    ensures
        peak(values) is Some,
        exists|i: int|
            0 <= i < values.len() && #[trigger] values[i] == peak(values)->Some_0,
        forall|i: int|
            0 <= i < values.len() ==> !less(peak(values)->Some_0, #[trigger] values[i]),
    decreases values.len(),
{
    let n = values.len() as int;
    let v = values[n - 1];
    assert(comparable(v, v) && !unordered(v));
    if n > 1 {
        let rest = values.drop_last();
        peak_is_the_largest(rest);
        let b = peak(rest)->Some_0;
        let k = choose|i: int| 0 <= i < rest.len() && #[trigger] rest[i] == b;
        assert(values[k] == b);
        assert(comparable(values[k], v) && !unordered(values[k]));
        let m = peak(values)->Some_0;
        assert(values[n - 1] == m || values[k] == m);
        assert forall|i: int| 0 <= i < n implies !less(m, #[trigger] values[i]) by {
            assert(comparable(values[i], values[k]) && comparable(values[i], v));
            if i < n - 1 {
                assert(rest[i] == values[i]);
            }
        }
    } else {
        assert(peak(values.drop_last()) is None);
        assert(values[0] == v);
    }
}

/// Subtraction tells the order of the values: what is not above another leaves no positive
/// difference, and a value less itself is nothing.
pub open spec fn differences_tell<R: Real>(values: Seq<R>) -> bool {
    &&& forall|i: int|
        0 <= i < values.len() ==> #[trigger] minus(values[i], values[i]) == whole::<R>(0)
    &&& forall|i: int, j: int|
        0 <= i < values.len() && 0 <= j < values.len() && !less(values[j], values[i]) ==> !less(
            whole(0),
            #[trigger] minus(values[i], values[j]),
        )
}

/// Normalized values have their maximum at zero.
pub proof fn normalized_peaks_at_zero<R: Real>(values: Seq<R>)
    requires
        ordering::<R>(),
        in_line(values),
        differences_tell(values),
        0 < values.len(),
    ensures
        exists|i: int|
            0 <= i < values.len() && #[trigger] normalized(values)[i] == whole::<R>(0),
        forall|i: int|
            0 <= i < values.len() ==> !less(whole(0), #[trigger] normalized(values)[i]),
{
    peak_is_the_largest(values);
    let p = peak(values)->Some_0;
    let k = choose|i: int| 0 <= i < values.len() && #[trigger] values[i] == p;
    assert(minus(values[k], values[k]) == whole::<R>(0));
    assert(normalized(values)[k] == whole::<R>(0));
    assert forall|i: int| 0 <= i < values.len() implies !less(
        whole(0),
        #[trigger] normalized(values)[i],
    ) by {
        assert(!less(p, values[i]));
        assert(!less(whole(0), minus(values[i], values[k])));
    }
}

// ---- what holds of every comparison -----------------------------------------

/// Of two scalars that compare, the larger one is one of them and not below either, and the
/// smaller one is one of them and not above either. A scalar that compares with nothing gives
/// way to the other. What is clamped stays between the two ends, and stays as it is where it
/// lies between them.
pub proof fn extremes_are_extreme<R: Real>(a: R, b: R, low: R, high: R)
    requires
        ordering::<R>(),
        !less(high, low),
        forall|c: R, d: R| #[trigger] less(c, d) ==> !unordered(c) && !unordered(d),
    ensures
        larger(a, b) == a || larger(a, b) == b,
        smaller(a, b) == a || smaller(a, b) == b,
        !less(larger(a, b), a) && !less(larger(a, b), b),
        !less(a, smaller(a, b)) && !less(b, smaller(a, b)),
        unordered(a) ==> larger(a, b) == b && smaller(a, b) == b,
        unordered(b) && !unordered(a) ==> larger(a, b) == a && smaller(a, b) == a,
        !less(clamped(a, low, high), low) && !less(high, clamped(a, low, high)),
        !less(a, low) && !less(high, a) ==> clamped(a, low, high) == a,
        less(a, low) ==> clamped(a, low, high) == low,
        less(high, a) && !less(a, low) ==> clamped(a, low, high) == high,
{
    assert(less(a, b) ==> !less(b, a));
    assert(less(a, a) ==> !less(a, a));
    assert(less(b, b) ==> !less(b, b));
    assert(less(low, low) ==> !less(low, low));
    assert(less(high, high) ==> !less(high, high));
}

/// The values that compare with themselves.
pub open spec fn compared<R: Real>(values: Seq<R>) -> Seq<R>
    decreases values.len(),
{
    if values.len() == 0 {
        values
    } else if unordered(values.last()) {
        compared(values.drop_last())
    } else {
        compared(values.drop_last()).push(values.last())
    }
}

/// A peak passes over the values that compare with nothing: it is that of the others, and
/// there is none where there are no others.
pub proof fn peaks_pass_over_what_does_not_compare<R: Real>(values: Seq<R>)
    requires
        forall|c: R, d: R| #[trigger] less(c, d) ==> !unordered(c) && !unordered(d),
    ensures
        peak(values) == peak(compared(values)),
        peak(values) is None <==> forall|i: int|
            0 <= i < values.len() ==> unordered(#[trigger] values[i]),
        peak(values) matches Some(p) ==> !unordered(p),
    decreases values.len(),
{
    if values.len() > 0 {
        let rest = values.drop_last();
        peaks_pass_over_what_does_not_compare(rest);
        let v = values.last();
        if unordered(v) {
            assert forall|i: int| 0 <= i < rest.len() implies rest[i] == values[i] by {}
            assert((forall|i: int| 0 <= i < rest.len() ==> unordered(#[trigger] rest[i])) ==> (
            forall|i: int| 0 <= i < values.len() ==> unordered(#[trigger] values[i]))) by {
                if forall|i: int| 0 <= i < rest.len() ==> unordered(#[trigger] rest[i]) {
                    assert forall|i: int| 0 <= i < values.len() implies unordered(
                        #[trigger] values[i],
                    ) by {
                        if i < rest.len() {
                            assert(unordered(rest[i]));
                        }
                    }
                }
            }
            assert((forall|i: int| 0 <= i < values.len() ==> unordered(#[trigger] values[i])) ==> (
            forall|i: int| 0 <= i < rest.len() ==> unordered(#[trigger] rest[i])));
        } else {
            assert(compared(values).drop_last() =~= compared(rest));
            assert(compared(values).last() == v);
            assert(!unordered(values[values.len() - 1]));
        }
    }
}

} // verus!
