//! What holds of Taylor windows where nothing is rounded.
use vstd::prelude::*;
use crate::beamforming::{
    scaled_to_peak, taylor_lobes, taylor_place, taylor_product, taylor_raw, taylor_square,
    taylor_terms, taylor_zero,
};
use crate::exact::{
    at_most, counts_add, counts_keep_order, differences_have_signs, field, minus_adds_opposite,
    mirrored, negative_quotient, nothing_over, one_is_positive, opposite_is_unique,
    opposite_of_nothing, opposite_of_product, opposite_of_sum, opposites_cancel, order_chains,
    order_decides, order_is_total, ordered_field, over_itself, over_of_product, over_of_sum,
    over_undoes_times, plus_commutes, plus_exchanges, plus_keeps_order, plus_nothing, plus_regroups,
    products_have_signs, quotient_is_unique, quotients_have_signs, squares_are_positive,
    sum_of_counts, sums_keep_order, times_commutes, times_distributes, times_exchanges,
    times_keeps_order, times_nothing, times_one, times_regroups, total_of_multiples,
    total_of_nothing, total_of_sums, two_is_one_and_one,
};
use crate::levels::{peak, peak_is_the_largest};
use crate::scalar::{
    comparable, count, equal_terms, less, minus, negated, over, plus, ratio, times, total, value,
    whole, Elementary, Real,
};

verus! {

// ---- shape -------------------------------------------------------------------

/// The entries of a window that stand as far from either end stand at opposite places.
proof fn places_are_mirrored<R: Real>(n: int, i: int)
    requires
        field::<R>(),
        counts_add::<R>(),
        two_is_one_and_one::<R>(),
        whole::<R>(2) != whole::<R>(0),
        count::<R>(n) != whole::<R>(0),
        0 <= i < n,
    ensures
        taylor_place::<R>(n, n - 1 - i) == negated(taylor_place::<R>(n, i)),
{
    let j = n - 1 - i;
    let (a, b): (R, R) = (count(i), count(j));
    let span: R = count(n - 1);
    let half: R = over(span, whole(2));
    assert(count::<R>(i + j) == plus(a, b));
    times_distributes(half, whole::<R>(1), whole::<R>(1));
    times_one(half);
    over_undoes_times(span, whole(2));
    assert(plus(half, half) == span);
    minus_adds_opposite(a, half);
    minus_adds_opposite(b, half);
    plus_exchanges(a, negated(half), b, negated(half));
    opposite_of_sum(half, half);
    opposites_cancel(span);
    opposite_is_unique(minus(a, half), minus(b, half));
    negative_quotient(minus(a, half), count(n));
    opposite_of_product(over(minus(a, half), count(n)), whole(2));
}

/// A Taylor window is symmetric, where nothing is rounded and cosine is even.
pub proof fn taylor_windows_are_symmetric<R: Real, M: Fn(Elementary<R>) -> R>(
    math: M,
    n: nat,
    sll_db: R,
    i: int,
)
    requires
        field::<R>(),
        counts_add::<R>(),
        two_is_one_and_one::<R>(),
        whole::<R>(2) != whole::<R>(0),
        count::<R>(n as int) != whole::<R>(0),
        forall|t: R| #[trigger] mirrored(math, t),
        0 <= i < n,
    ensures
        scaled_to_peak(taylor_raw(math, n, sll_db))[n - 1 - i] == scaled_to_peak(
            taylor_raw(math, n, sll_db),
        )[i],
{
    let j = n - 1 - i;
    let lobes = taylor_lobes(n as int);
    let a2 = taylor_square(math, sll_db);
    let (p, q): (R, R) = (taylor_place(n as int, i), taylor_place(n as int, j));
    places_are_mirrored::<R>(n as int, i);
    let (f, g) = (taylor_terms(math, a2, lobes, p), taylor_terms(math, a2, lobes, q));
    assert forall|k: int| 0 <= k < lobes - 1 implies #[trigger] f(k) == g(k) by {
        let turn = times(value(math, Elementary::Pi), count::<R>(k + 1));
        opposite_of_product(turn, p);
        assert(mirrored(math, times(turn, p)));
    }
    equal_terms(whole(0), f, g, (lobes - 1) as nat);
}

/// The sign of the sidelobe level does not matter to a Taylor window, where a value and its
/// opposite have the same magnitude.
pub proof fn taylor_windows_ignore_the_sign<R: Real, M: Fn(Elementary<R>) -> R>(
    math: M,
    n: nat,
    sll_db: R,
)
    requires
        value(math, Elementary::Abs(negated(sll_db))) == value(math, Elementary::Abs(sll_db)),
    ensures
        scaled_to_peak(taylor_raw(math, n, negated(sll_db))) == scaled_to_peak(
            taylor_raw(math, n, sll_db),
        ),
{
    assert(taylor_square(math, negated(sll_db)) == taylor_square(math, sll_db));
    assert(taylor_raw(math, n, negated(sll_db)) =~= taylor_raw(math, n, sll_db));
}

/// A Taylor window of up to three entries is all ones, where nothing is rounded.
pub proof fn short_taylor_windows_are_uniform<R: Real, M: Fn(Elementary<R>) -> R>(
    math: M,
    n: nat,
    sll_db: R,
    i: int,
)
    requires
        ordered_field::<R>(),
        n <= 3,
        0 <= i < n,
    ensures
        scaled_to_peak(taylor_raw(math, n, sll_db))[i] == whole::<R>(1),
{
    order_is_total::<R>();
    let raw = taylor_raw(math, n, sll_db);
    let one: R = whole(1);
    assert forall|k: int| 0 <= k < n implies #[trigger] raw[k] == one by {
        times_nothing(whole::<R>(2));
        plus_nothing(one);
    }
    assert forall|k: int, l: int|
        0 <= k < raw.len() && 0 <= l < raw.len() implies #[trigger] comparable(raw[k], raw[l]) by {}
    peak_is_the_largest(raw);
    let m = choose|k: int| 0 <= k < raw.len() && #[trigger] raw[k] == peak(raw)->Some_0;
    assert(raw[m] == one);
    one_is_positive::<R>();
    order_decides(whole(0), one);
    over_itself(one);
}

/// A window that is scaled to a positive peak reaches one and does not exceed it, where
/// nothing is rounded.
pub proof fn scaled_windows_end_at_one<R: Real>(values: Seq<R>)
    requires
        ordered_field::<R>(),
        0 < values.len(),
        less(whole(0), peak(values)->Some_0),
    ensures
        exists|i: int|
            0 <= i < values.len() && #[trigger] scaled_to_peak(values)[i] == whole::<R>(1),
        forall|i: int|
            0 <= i < values.len() ==> at_most(#[trigger] scaled_to_peak(values)[i], whole(1)),
{
    order_is_total::<R>();
    assert forall|k: int, l: int|
        0 <= k < values.len() && 0 <= l < values.len() implies #[trigger] comparable(
        values[k],
        values[l],
    ) by {}
    peak_is_the_largest(values);
    let p = peak(values)->Some_0;
    let one: R = whole(1);
    order_decides(whole(0), p);
    let m = choose|k: int| 0 <= k < values.len() && #[trigger] values[k] == p;
    over_itself(p);
    assert(scaled_to_peak(values)[m] == one);
    assert forall|i: int| 0 <= i < values.len() implies at_most(
        #[trigger] scaled_to_peak(values)[i],
        one,
    ) by {
        let q = over(values[i], p);
        assert(at_most(values[i], p));
        over_undoes_times(values[i], p);
        times_one(p);
        order_decides(q, one);
        order_decides(one, q);
        if less(one, q) {
            times_keeps_order(one, q, p);
            order_decides(p, values[i]);
        }
    }
}

// ---- mean and peak -----------------------------------------------------------

/// Sine and cosine turn a product into a difference.
pub open spec fn product_to_difference<R: Real, M: Fn(Elementary<R>) -> R>(
    math: M,
    a: R,
    b: R,
) -> bool {
    let s = value(math, Elementary::Sin(b));
    minus(
        value(math, Elementary::Sin(plus(a, b))),
        value(math, Elementary::Sin(minus(a, b))),
    ) == times(plus(s, s), value(math, Elementary::Cos(a)))
}

/// The sine of `m` half turns is nothing.
pub open spec fn half_turns_end_at_nothing<R: Real, M: Fn(Elementary<R>) -> R>(
    math: M,
    m: int,
) -> bool {
    value(math, Elementary::Sin(times(value(math, Elementary::Pi), count::<R>(m)))) == whole::<R>(0)
}

/// The sine of `m` of `n` parts of a half turn is something.
pub open spec fn parts_of_half_turns_do_not<R: Real, M: Fn(Elementary<R>) -> R>(
    math: M,
    m: int,
    n: int,
) -> bool {
    value(
        math,
        Elementary::Sin(over(times(value(math, Elementary::Pi), count::<R>(m)), count::<R>(n))),
    ) != whole::<R>(0)
}

/// Sine and cosine are exact as far as sums over full turns need it.
pub open spec fn exact_turns<R: Real, M: Fn(Elementary<R>) -> R>(math: M) -> bool {
    &&& forall|a: R, b: R| #[trigger] product_to_difference(math, a, b)
    &&& forall|t: R| #[trigger] mirrored(math, t)
    &&& forall|m: int| 0 <= m ==> #[trigger] half_turns_end_at_nothing(math, m)
    &&& forall|m: int, n: int| 0 < m < n ==> #[trigger] parts_of_half_turns_do_not(math, m, n)
}

/// The phase of lobe `m` at entry `i`.
spec fn lobe_phase<R: Real, M: Fn(Elementary<R>) -> R>(math: M, n: int, m: int, i: int) -> R {
    times(times(value(math, Elementary::Pi), count(m)), taylor_place(n, i))
}

/// The phase of lobe `m` halfway between entry `i` and the one before.
spec fn edge_phase<R: Real, M: Fn(Elementary<R>) -> R>(math: M, n: int, m: int, i: int) -> R {
    times(
        times(value(math, Elementary::Pi), count(m)),
        over(minus(plus(count(i), count(i)), count(n)), count(n)),
    )
}

/// The phase of lobe `m` over half an entry.
spec fn half_entry<R: Real, M: Fn(Elementary<R>) -> R>(math: M, n: int, m: int) -> R {
    over(times(value(math, Elementary::Pi), count(m)), count(n))
}

/// The place of an entry is one part in `n` from either of its edges.
proof fn place_between_edges<R: Real>(n: int, i: int)
    requires
        field::<R>(),
        counts_add::<R>(),
        two_is_one_and_one::<R>(),
        whole::<R>(2) != whole::<R>(0),
        count::<R>(n) != whole::<R>(0),
        0 <= i < n,
    ensures
        ({
            let part: R = over(whole(1), count(n));
            let before: R = over(minus(plus(count(i), count(i)), count(n)), count(n));
            let after: R = over(minus(plus(count(i + 1), count(i + 1)), count(n)), count(n));
            &&& taylor_place::<R>(n, i) == plus(before, part)
            &&& plus(taylor_place::<R>(n, i), part) == after
        }),
{
    let (c, k): (R, R) = (count(n), count(i));
    let (span, one): (R, R) = (count(n - 1), whole(1));
    let half: R = over(span, whole(2));
    sum_of_counts::<R>(n - 1, 1);
    // Twice the distance from the middle.
    let at = minus(k, half);
    times_distributes(at, one, one);
    times_one(at);
    times_distributes(half, one, one);
    times_one(half);
    over_undoes_times(span, whole(2));
    minus_adds_opposite(k, half);
    plus_exchanges(k, negated(half), k, negated(half));
    opposite_of_sum(half, half);
    let kk = plus(k, k);
    let edge = minus(kk, c);
    minus_adds_opposite(kk, c);
    opposite_of_sum(span, one);
    plus_regroups(kk, negated(span), negated(one));
    let twice = plus(kk, negated(span));
    assert(edge == plus(twice, negated(one)));
    plus_regroups(twice, negated(one), one);
    plus_commutes(negated(one), one);
    opposites_cancel(one);
    plus_nothing(twice);
    assert(times(at, whole(2)) == plus(edge, one));
    over_of_product(at, whole(2), c);
    over_of_sum(edge, one, c);
    // The edge after it.
    sum_of_counts::<R>(i, 1);
    plus_exchanges(k, one, k, one);
    let two = plus(one, one);
    minus_adds_opposite(plus(kk, two), c);
    plus_regroups(kk, two, negated(c));
    plus_commutes(two, negated(c));
    plus_regroups(kk, negated(c), two);
    plus_regroups(edge, one, one);
    over_of_sum(plus(edge, one), one, c);
}

/// The phases of an entry and its edges.
proof fn phases_between_edges<R: Real, M: Fn(Elementary<R>) -> R>(math: M, n: int, m: int, i: int)
    requires
        field::<R>(),
        counts_add::<R>(),
        two_is_one_and_one::<R>(),
        whole::<R>(2) != whole::<R>(0),
        count::<R>(n) != whole::<R>(0),
        0 <= i < n,
    ensures
        minus(lobe_phase(math, n, m, i), half_entry(math, n, m)) == edge_phase(math, n, m, i),
        plus(lobe_phase(math, n, m, i), half_entry(math, n, m)) == edge_phase(math, n, m, i + 1),
{
    place_between_edges::<R>(n, i);
    let turn = times(value(math, Elementary::Pi), count::<R>(m));
    let part: R = over(whole(1), count(n));
    let before: R = over(minus(plus(count(i), count(i)), count(n)), count(n));
    let here: R = taylor_place(n, i);
    times_one(turn);
    over_of_product(turn, whole(1), count(n));
    let b = half_entry(math, n, m);
    times_distributes(turn, before, part);
    times_distributes(turn, here, part);
    let e = times(turn, before);
    minus_adds_opposite(plus(e, b), b);
    plus_regroups(e, b, negated(b));
    opposites_cancel(b);
    plus_nothing(e);
}

/// The cosines of one lobe.
spec fn lobe_cosines<R: Real, M: Fn(Elementary<R>) -> R>(math: M, n: int, m: int) -> spec_fn(
    int,
) -> R {
    |i: int| value(math, Elementary::Cos(lobe_phase(math, n, m, i)))
}

/// Twice the sine of half an entry, times the cosines of the entries so far, is the
/// difference of the sines at the outermost edges.
proof fn cosines_telescope<R: Real, M: Fn(Elementary<R>) -> R>(math: M, n: int, m: int, k: nat)
    requires
        field::<R>(),
        counts_add::<R>(),
        two_is_one_and_one::<R>(),
        whole::<R>(2) != whole::<R>(0),
        count::<R>(n) != whole::<R>(0),
        exact_turns(math),
        k <= n,
    ensures
        ({
            let s = value(math, Elementary::Sin(half_entry(math, n, m)));
            times(plus(s, s), total(whole(0), lobe_cosines(math, n, m), k)) == minus(
                value(math, Elementary::Sin(edge_phase(math, n, m, k as int))),
                value(math, Elementary::Sin(edge_phase(math, n, m, 0))),
            )
        }),
    decreases k,
{
    let s = value(math, Elementary::Sin(half_entry(math, n, m)));
    let d = plus(s, s);
    let first = value(math, Elementary::Sin(edge_phase(math, n, m, 0)));
    if k == 0 {
        times_nothing(d);
        minus_adds_opposite(first, first);
        opposites_cancel(first);
    } else {
        let i = k - 1;
        cosines_telescope(math, n, m, i as nat);
        phases_between_edges(math, n, m, i);
        assert(product_to_difference(math, lobe_phase(math, n, m, i), half_entry(math, n, m)));
        let f = lobe_cosines(math, n, m);
        times_distributes(d, total(whole(0), f, i as nat), f(i));
        let before = value(math, Elementary::Sin(edge_phase(math, n, m, i)));
        let after = value(math, Elementary::Sin(edge_phase(math, n, m, i + 1)));
        minus_adds_opposite(before, first);
        minus_adds_opposite(after, before);
        minus_adds_opposite(after, first);
        plus_commutes(plus(before, negated(first)), plus(after, negated(before)));
        plus_regroups(after, negated(before), plus(before, negated(first)));
        plus_regroups(negated(before), before, negated(first));
        plus_commutes(negated(before), before);
        opposites_cancel(before);
        plus_commutes(whole(0), negated(first));
        plus_nothing(negated(first));
    }
}

/// Where nothing is rounded, the cosines of each lobe cancel over the window.
pub proof fn lobes_cancel_over_the_window<R: Real, M: Fn(Elementary<R>) -> R>(
    math: M,
    n: int,
    m: int,
)
    requires
        ordered_field::<R>(),
        counts_add::<R>(),
        exact_turns(math),
        0 < m < n,
    ensures
        total(
            whole(0),
            |i: int|
                value(
                    math,
                    Elementary::Cos(
                        times(
                            times(value(math, Elementary::Pi), count(m)),
                            taylor_place(n, i),
                        ),
                    ),
                ),
            n as nat,
        ) == whole::<R>(0),
{
    two_is_positive::<R>();
    order_is_total::<R>();
    counts_keep_order::<R>(0, n);
    assert(count::<R>(0) == whole::<R>(0));
    let c: R = count(n);
    order_decides(whole(0), c);
    let f = lobe_cosines(math, n, m);
    assert(f =~= |i: int|
        value(
            math,
            Elementary::Cos(
                times(times(value(math, Elementary::Pi), count(m)), taylor_place(n, i)),
            ),
        ));
    cosines_telescope(math, n, m, n as nat);
    // The outermost edges are half turns.
    let turn = times(value(math, Elementary::Pi), count::<R>(m));
    plus_nothing(whole::<R>(0));
    minus_adds_opposite(whole(0), c);
    plus_commutes(whole(0), negated(c));
    plus_nothing(negated(c));
    negative_quotient(c, c);
    over_itself(c);
    opposite_of_product(turn, whole(1));
    times_one(turn);
    assert(edge_phase(math, n, m, 0) == negated(turn));
    minus_adds_opposite(plus(c, c), c);
    plus_regroups(c, c, negated(c));
    opposites_cancel(c);
    plus_nothing(c);
    assert(edge_phase(math, n, m, n) == turn);
    assert(half_turns_end_at_nothing(math, m));
    assert(mirrored(math, turn));
    opposite_of_nothing::<R>();
    minus_adds_opposite(whole::<R>(0), whole(0));
    // The factor is something.
    let s = value(math, Elementary::Sin(half_entry(math, n, m)));
    assert(parts_of_half_turns_do_not(math, m, n));
    let d = plus(s, s);
    times_distributes(s, whole(1), whole(1));
    times_one(s);
    if d == whole::<R>(0) {
        quotient_is_unique(s, whole(0), whole(2));
        nothing_over(whole::<R>(2));
    }
    let sum = total(whole(0), f, n as nat);
    times_commutes(d, sum);
    quotient_is_unique(sum, whole(0), d);
    nothing_over(d);
}

/// Two is one and one, and above nothing.
proof fn two_is_positive<R: Real>()
    requires
        ordered_field::<R>(),
        counts_add::<R>(),
    ensures
        two_is_one_and_one::<R>(),
        less(whole::<R>(0), whole(2)),
        whole::<R>(2) != whole::<R>(0),
{
    sum_of_counts::<R>(1, 1);
    counts_keep_order::<R>(0, 2);
    order_decides(whole::<R>(0), whole(2));
}

/// What the first `k` lobes add to the entries.
spec fn lobes_so_far<R: Real, M: Fn(Elementary<R>) -> R>(
    math: M,
    n: int,
    sll_db: R,
    k: nat,
) -> spec_fn(int) -> R {
    |i: int|
        total(
            whole(0),
            taylor_terms(math, taylor_square(math, sll_db), taylor_lobes(n), taylor_place(n, i)),
            k,
        )
}

/// What the lobes add to the entries adds up to nothing.
proof fn lobes_add_up_to_nothing<R: Real, M: Fn(Elementary<R>) -> R>(
    math: M,
    n: int,
    sll_db: R,
    k: nat,
)
    requires
        ordered_field::<R>(),
        counts_add::<R>(),
        exact_turns(math),
        k < n,
    ensures
        total(whole(0), lobes_so_far(math, n, sll_db, k), n as nat) == whole::<R>(0),
    decreases k,
{
    order_is_total::<R>();
    let h = lobes_so_far(math, n, sll_db, k);
    if k == 0 {
        total_of_nothing(h, n as nat);
    } else {
        let l = k - 1;
        lobes_add_up_to_nothing(math, n, sll_db, l as nat);
        let a2 = taylor_square(math, sll_db);
        let factor = times(
            taylor_product(a2, k as int, taylor_lobes(n)),
            value(math, Elementary::Sqrt(taylor_zero(a2, k as int))),
        );
        let f = lobes_so_far(math, n, sll_db, l as nat);
        let cosines = lobe_cosines(math, n, k as int);
        let g = |i: int| times(factor, cosines(i));
        assert forall|i: int| 0 <= i < n implies #[trigger] h(i) == plus(f(i), g(i)) by {}
        total_of_sums(f, g, h, n as nat);
        total_of_multiples(factor, cosines, g, n as nat);
        lobes_cancel_over_the_window(math, n, k as int);
        assert(cosines =~= |i: int|
            value(
                math,
                Elementary::Cos(
                    times(
                        times(value(math, Elementary::Pi), count(k as int)),
                        taylor_place(n, i),
                    ),
                ),
            ));
        times_nothing(factor);
        plus_nothing(whole::<R>(0));
    }
}

/// Ones add up to their number.
proof fn ones_count<R: Real>(n: nat)
    requires
        counts_add::<R>(),
    ensures
        total(whole(0), |i: int| whole::<R>(1), n) == count::<R>(n as int),
    decreases n,
{
    if n > 0 {
        ones_count::<R>((n - 1) as nat);
        sum_of_counts::<R>(n - 1, 1);
    }
}

/// Where nothing is rounded, the entries of a Taylor window average to one before they are
/// scaled.
pub proof fn taylor_windows_average_to_one<R: Real, M: Fn(Elementary<R>) -> R>(
    math: M,
    n: nat,
    sll_db: R,
)
    requires
        ordered_field::<R>(),
        counts_add::<R>(),
        exact_turns(math),
        1 <= n,
    ensures
        total(whole(0), |i: int| taylor_raw(math, n, sll_db)[i], n) == count::<R>(n as int),
{
    order_is_total::<R>();
    let raw = taylor_raw(math, n, sll_db);
    let k = (taylor_lobes(n as int) - 1) as nat;
    let h = |i: int| raw[i];
    let ones = |i: int| whole::<R>(1);
    let lobes = lobes_so_far(math, n as int, sll_db, k);
    let twice = |i: int| times(whole::<R>(2), lobes(i));
    assert forall|i: int| 0 <= i < n implies #[trigger] h(i) == plus(ones(i), twice(i)) by {}
    total_of_sums(ones, twice, h, n);
    total_of_multiples(whole::<R>(2), lobes, twice, n);
    lobes_add_up_to_nothing(math, n as int, sll_db, k);
    times_nothing(whole::<R>(2));
    ones_count::<R>(n);
    plus_nothing(count::<R>(n as int));
}

/// Terms that are at most nothing add up to at most nothing.
proof fn no_positive_total<R: Real>(f: spec_fn(int) -> R, n: nat)
    requires
        ordered_field::<R>(),
        forall|i: int| 0 <= i < n ==> at_most(#[trigger] f(i), whole(0)),
    ensures
        at_most(total(whole(0), f, n), whole(0)),
    decreases n,
{
    order_is_total::<R>();
    order_decides(whole::<R>(0), whole(0));
    if n > 0 {
        no_positive_total(f, (n - 1) as nat);
        assert(at_most(f(n - 1), whole(0)));
        sums_keep_order(total(whole(0), f, (n - 1) as nat), whole(0), f(n - 1), whole(0));
        plus_nothing(whole::<R>(0));
    }
}

/// Where nothing is rounded, a Taylor window has a positive peak before it is scaled.
pub proof fn taylor_windows_have_a_positive_peak<R: Real, M: Fn(Elementary<R>) -> R>(
    math: M,
    n: nat,
    sll_db: R,
)
    requires
        ordered_field::<R>(),
        counts_add::<R>(),
        exact_turns(math),
        1 <= n,
    ensures
        less(whole(0), peak(taylor_raw(math, n, sll_db))->Some_0),
{
    order_is_total::<R>();
    let raw = taylor_raw(math, n, sll_db);
    assert forall|i: int, j: int|
        0 <= i < raw.len() && 0 <= j < raw.len() implies #[trigger] comparable(raw[i], raw[j]) by {}
    peak_is_the_largest(raw);
    let p = peak(raw)->Some_0;
    order_decides(whole(0), p);
    order_decides(p, whole(0));
    if !less(whole(0), p) {
        let f = |i: int| raw[i];
        assert forall|i: int| 0 <= i < n implies at_most(#[trigger] f(i), whole(0)) by {
            assert(at_most(raw[i], p));
            order_chains(raw[i], p, whole(0));
        }
        no_positive_total(f, n);
        taylor_windows_average_to_one(math, n, sll_db);
        counts_keep_order::<R>(0, n as int);
        assert(count::<R>(0) == whole::<R>(0));
    }
}

/// Where nothing is rounded, a Taylor window reaches one and does not exceed it.
pub proof fn taylor_windows_end_at_one<R: Real, M: Fn(Elementary<R>) -> R>(
    math: M,
    n: nat,
    sll_db: R,
)
    requires
        ordered_field::<R>(),
        counts_add::<R>(),
        exact_turns(math),
        1 <= n,
    ensures
        ({
            let w = scaled_to_peak(taylor_raw(math, n, sll_db));
            &&& exists|i: int| 0 <= i < n && #[trigger] w[i] == whole::<R>(1)
            &&& forall|i: int| 0 <= i < n ==> at_most(#[trigger] w[i], whole(1))
        }),
{
    taylor_windows_have_a_positive_peak(math, n, sll_db);
    let raw = taylor_raw(math, n, sll_db);
    scaled_windows_end_at_one(raw);
    let w = scaled_to_peak(raw);
    let i = choose|i: int| 0 <= i < raw.len() && #[trigger] scaled_to_peak(raw)[i] == whole::<R>(1);
    assert(w[i] == whole::<R>(1));
}

// ---- lobes ------------------------------------------------------------------

/// The product of the first `k` counts.
pub open spec fn factorial<R: Real>(k: nat) -> R
    decreases k,
{
    if k == 0 {
        whole(1)
    } else {
        times(factorial((k - 1) as nat), count(k as int))
    }
}

/// `z` multiplied with itself `k` times.
pub open spec fn raised<R: Real>(z: R, k: nat) -> R
    decreases k,
{
    if k == 0 {
        whole(1)
    } else {
        times(raised(z, (k - 1) as nat), z)
    }
}

/// One or its opposite, in turns.
pub open spec fn in_turns<R: Real>(m: int) -> R {
    if m % 2 == 1 {
        whole(1)
    } else {
        whole(-1)
    }
}

/// One more factor `q` twice over `z`, against one more `z`.
proof fn one_more_factor<R: Real>(p: R, q: R, z: R, c: R, r: R)
    requires
        field::<R>(),
        z != whole::<R>(0),
    ensures
        times(over(times(times(p, q), q), z), times(c, times(r, z))) == times(
            times(p, times(c, r)),
            times(q, q),
        ),
{
    let n = over(times(times(p, q), q), z);
    let d = times(c, r);
    times_regroups(c, r, z);
    times_commutes(d, z);
    times_regroups(n, z, d);
    over_undoes_times(times(times(p, q), q), z);
    times_regroups(p, q, q);
    times_regroups(p, times(q, q), d);
    times_commutes(times(q, q), d);
    times_regroups(p, d, times(q, q));
}

/// The coefficient product of lobe `m`: the squared factorial over the powers of the zero,
/// but for what lobe `m` itself brings in.
proof fn product_in_closed_form<R: Real>(a2: R, m: int, p: int)
    requires
        ordered_field::<R>(),
        counts_add::<R>(),
        taylor_zero(a2, m) != whole::<R>(0),
        1 <= m,
        1 <= p,
    ensures
        ({
            let z = taylor_zero(a2, m);
            let (k, two): (R, R) = (count(m), whole(2));
            let f = factorial::<R>((p - 1) as nat);
            if p <= m {
                times(taylor_product(a2, m, p), raised(z, (p - 1) as nat)) == times(f, f)
            } else {
                times(
                    taylor_product(a2, m, p),
                    times(times(times(two, k), times(k, k)), raised(z, (p - 2) as nat)),
                ) == times(in_turns(m), times(f, f))
            }
        }),
    decreases p,
{
    order_is_total::<R>();
    let z = taylor_zero(a2, m);
    let (k, one, two): (R, R, R) = (count(m), whole(1), whole(2));
    if p == 1 {
        times_one(one);
    } else {
        let q = p - 1;
        product_in_closed_form(a2, m, q);
        let before = taylor_product(a2, m, q);
        let c: R = count(q);
        let f = factorial::<R>((q - 1) as nat);
        let ff = times(f, f);
        times_exchanges(f, c, f, c);
        assert(factorial::<R>((p - 1) as nat) == times(f, c));
        if q < m {
            let r = raised(z, (q - 1) as nat);
            one_more_factor(before, c, z, one, r);
            times_commutes(one, r);
            times_one(r);
            times_commutes(one, times(r, z));
            times_one(times(r, z));
            assert(raised(z, (p - 1) as nat) == times(r, z));
        } else if q > m {
            let r = raised(z, (q - 2) as nat);
            let own = times(times(two, k), times(k, k));
            one_more_factor(before, c, z, own, r);
            assert(raised(z, (p - 2) as nat) == times(r, z));
            times_regroups(in_turns(m), ff, times(c, c));
        } else {
            let s = in_turns::<R>(m);
            let twice = times(two, k);
            two_is_positive::<R>();
            counts_keep_order::<R>(0, m);
            assert(count::<R>(0) == whole::<R>(0));
            order_decides(whole(0), k);
            order_decides(whole(0), two);
            products_have_signs(two, k);
            order_decides(whole(0), twice);
            let n = over(times(before, s), twice);
            over_undoes_times(times(before, s), twice);
            let r = raised(z, (p - 2) as nat);
            let kk = times(k, k);
            times_regroups(twice, kk, r);
            times_regroups(n, twice, times(kk, r));
            times_commutes(before, s);
            times_regroups(s, before, times(kk, r));
            times_commutes(kk, r);
            times_regroups(before, r, kk);
            assert(times(before, r) == ff);
        }
    }
}

/// The place of an entry, twice its distance from the middle over the length.
proof fn place_in_halves<R: Real>(n: int, i: int)
    requires
        field::<R>(),
        counts_add::<R>(),
        whole::<R>(2) != whole::<R>(0),
        count::<R>(n) != whole::<R>(0),
        0 <= i < n,
    ensures
        taylor_place::<R>(n, i) == over(
            minus(plus(count(i), count(i)), count(n - 1)),
            count::<R>(n),
        ),
{
    let (k, span, one): (R, R, R) = (count(i), count(n - 1), whole(1));
    let half: R = over(span, whole(2));
    sum_of_counts::<R>(1, 1);
    let at = minus(k, half);
    times_distributes(at, one, one);
    times_one(at);
    times_distributes(half, one, one);
    times_one(half);
    over_undoes_times(span, whole(2));
    minus_adds_opposite(k, half);
    plus_exchanges(k, negated(half), k, negated(half));
    opposite_of_sum(half, half);
    minus_adds_opposite(plus(k, k), span);
    over_of_product(at, whole(2), count(n));
}

/// Where nothing is rounded, a Taylor window is made of its lobes: over its mean it is one and
/// twice the sum of the cosines of one, two and more half turns across the window, as many as
/// there are `lobes`, but one. Lobe `m` enters with the factor `f(m)`, which goes by the square
/// `z` of its zero: the squared factorial of the lobes but one, over the powers of `z` and
/// twice the third power of `m`, times the root of `z`, in alternating signs. There are half as
/// many lobes as entries, five at the most and one at the least.
pub proof fn taylor_windows_are_made_of_lobes<R: Real, M: Fn(Elementary<R>) -> R>(
    math: M,
    n: nat,
    sll_db: R,
    i: int,
    lobes: int,
    f: spec_fn(int) -> R,
)
    requires
        ordered_field::<R>(),
        counts_add::<R>(),
        exact_turns(math),
        0 <= i < n,
        n < 2 ==> lobes == 1,
        2 <= n < 10 ==> 2 * lobes <= n < 2 * lobes + 2,
        10 <= n ==> lobes == 5,
        forall|m: int|
            1 <= m < lobes ==> {
                let wanted = value(
                    math,
                    Elementary::Pow(
                        whole(10),
                        over(value(math, Elementary::Abs(sll_db)), whole(20)),
                    ),
                );
                let a = over(
                    value(math, Elementary::Acosh(wanted)),
                    value(math, Elementary::Pi),
                );
                let away = minus(count::<R>(m), ratio(1, 2));
                let z = plus(times(a, a), times(away, away));
                let k = count::<R>(m);
                let all = factorial::<R>((lobes - 1) as nat);
                times(
                    #[trigger] f(m),
                    times(times(times(whole(2), k), times(k, k)), raised(z, (lobes - 2) as nat)),
                ) == times(
                    times(
                        if m % 2 == 1 {
                            whole(1)
                        } else {
                            whole(-1)
                        },
                        times(all, all),
                    ),
                    value(math, Elementary::Sqrt(z)),
                )
            },
    ensures
        ({
            let w = scaled_to_peak(taylor_raw(math, n, sll_db));
            let place = over(
                minus(plus(count(i), count(i)), count(n - 1)),
                count::<R>(n as int),
            );
            let pi = value(math, Elementary::Pi);
            times(w[i], count(n as int)) == times(
                total(whole(0), |k: int| w[k], n),
                plus(
                    whole(1),
                    times(
                        whole(2),
                        total(
                            whole(0),
                            |k: int|
                                times(
                                    f(k + 1),
                                    value(
                                        math,
                                        Elementary::Cos(
                                            times(times(pi, count(k + 1)), place),
                                        ),
                                    ),
                                ),
                            (lobes - 1) as nat,
                        ),
                    ),
                ),
            )
        }),
{
    order_is_total::<R>();
    two_is_positive::<R>();
    let raw = taylor_raw(math, n, sll_db);
    let w = scaled_to_peak(raw);
    let pi = value(math, Elementary::Pi);
    let c: R = count(n as int);
    counts_keep_order::<R>(0, n as int);
    assert(count::<R>(0) == whole::<R>(0));
    order_decides(whole(0), c);
    place_in_halves::<R>(n as int, i);
    let place: R = taylor_place(n as int, i);
    assert(lobes == taylor_lobes(n as int));
    // The factors.
    let a2 = taylor_square(math, sll_db);
    let terms = taylor_terms(math, a2, lobes, place);
    let shown = |k: int|
        times(f(k + 1), value(math, Elementary::Cos(times(times(pi, count(k + 1)), place))));
    assert forall|k: int| 0 <= k < lobes - 1 implies #[trigger] terms(k) == shown(k) by {
        let m = k + 1;
        let z = taylor_zero(a2, m);
        zeros_are_something(math, sll_db, m);
        product_in_closed_form(a2, m, lobes);
        let q = count::<R>(m);
        let d = times(times(times(whole(2), q), times(q, q)), raised(z, (lobes - 2) as nat));
        let all = factorial::<R>((lobes - 1) as nat);
        let p = taylor_product(a2, m, lobes);
        let root = value(math, Elementary::Sqrt(z));
        // Both sides times the same are the same.
        counts_keep_order::<R>(0, m);
        order_decides(whole(0), q);
        products_have_signs(whole(2), q);
        products_have_signs(q, q);
        order_decides(whole(0), times(whole(2), q));
        order_decides(whole(0), times(q, q));
        products_have_signs(times(whole(2), q), times(q, q));
        powers_are_positive(z, (lobes - 2) as nat);
        let head = times(times(whole(2), q), times(q, q));
        order_decides(whole(0), head);
        order_decides(whole(0), raised(z, (lobes - 2) as nat));
        products_have_signs(head, raised(z, (lobes - 2) as nat));
        order_decides(whole(0), d);
        times_commutes(p, root);
        times_regroups(root, p, d);
        times_commutes(root, times(p, d));
        assert(times(f(m), d) == times(times(p, root), d));
        quotient_is_unique(f(m), times(f(m), d), d);
        quotient_is_unique(times(p, root), times(f(m), d), d);
    }
    equal_terms(whole(0), terms, shown, (lobes - 1) as nat);
    // The window over its mean.
    taylor_windows_have_a_positive_peak(math, n, sll_db);
    taylor_windows_average_to_one(math, n, sll_db);
    let values: Seq<R> = raw;
    assert forall|k: int, l: int|
        0 <= k < raw.len() && 0 <= l < raw.len() implies #[trigger] comparable(raw[k], raw[l]) by {}
    peak_is_the_largest(raw);
    let p = peak(raw)->Some_0;
    order_decides(whole(0), p);
    let g = |k: int| w[k];
    let h = |k: int| raw[k];
    assert forall|k: int| 0 <= k < n implies #[trigger] h(k) == times(p, g(k)) by {
        over_undoes_times(raw[k], p);
        times_commutes(p, w[k]);
    }
    total_of_multiples(p, g, h, n);
    let sum = total(whole(0), g, n);
    times_commutes(p, w[i]);
    times_regroups(w[i], p, sum);
    assert(raw[i] == times(w[i], p)) by {
        assert(h(i) == times(p, g(i)));
    }
    times_commutes(raw[i], sum);
}

/// The squared zeros are above nothing.
proof fn zeros_are_something<R: Real, M: Fn(Elementary<R>) -> R>(math: M, sll_db: R, m: int)
    requires
        ordered_field::<R>(),
        counts_add::<R>(),
        1 <= m,
    ensures
        less(whole(0), taylor_zero(taylor_square(math, sll_db), m)),
        taylor_zero(taylor_square(math, sll_db), m) != whole::<R>(0),
{
    order_is_total::<R>();
    two_is_positive::<R>();
    let a = over(
        value(
            math,
            Elementary::Acosh(
                value(
                    math,
                    Elementary::Pow(
                        whole(10),
                        over(value(math, Elementary::Abs(sll_db)), whole(20)),
                    ),
                ),
            ),
        ),
        value(math, Elementary::Pi),
    );
    let half: R = ratio(1, 2);
    let away = minus(count::<R>(m), half);
    squares_are_positive(a);
    // A half is below one, which is at most `m`.
    let one: R = whole(1);
    one_is_positive::<R>();
    quotients_have_signs(one, whole(2));
    over_undoes_times(one, whole(2));
    times_distributes(half, one, one);
    times_one(half);
    plus_keeps_order(whole(0), half, half);
    plus_commutes(whole(0), half);
    plus_nothing(half);
    assert(less(half, one));
    counts_keep_order::<R>(1, m);
    order_chains(half, one, count(m));
    differences_have_signs(half, count(m));
    order_decides(whole(0), away);
    squares_are_positive(away);
    let (x, y) = (times(a, a), times(away, away));
    plus_keeps_order(whole(0), x, y);
    plus_commutes(whole(0), y);
    plus_nothing(y);
    order_chains(whole(0), y, plus(x, y));
    order_decides(whole(0), plus(x, y));
}

/// Powers of what is above nothing are above nothing.
proof fn powers_are_positive<R: Real>(z: R, k: nat)
    requires
        ordered_field::<R>(),
        less(whole(0), z),
    ensures
        less(whole(0), raised(z, k)),
    decreases k,
{
    if k == 0 {
        one_is_positive::<R>();
    } else {
        powers_are_positive(z, (k - 1) as nat);
        order_decides(whole(0), z);
        order_decides(whole(0), raised(z, (k - 1) as nat));
        products_have_signs(raised(z, (k - 1) as nat), z);
    }
}

} // verus!
