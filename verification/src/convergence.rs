//! That the Jacobi rotations converge where nothing is rounded, and how close what they end
//! with is to eigenpairs.
use vstd::prelude::*;
use crate::complex::{conjugate, modulus, power, scaled, Complex};
use crate::eigen::{
    best_above, diagonalized, rotated, rotation, spectrum, tolerance, turned, turned_p, turned_q,
    Rotation,
};
use crate::exact::{
    arithmetic_on_axis, at_most, complex_field, conjugate_of_product, conjugate_of_real,
    conjugate_of_sum, conjugate_twice, counts_add, counts_keep_order, field, middle_cancels,
    minus_adds_opposite, on_axis, opposite_of_product, opposite_twice, opposites_cancel,
    order_chains, order_decides, order_is_total, ordered_field, ordered_powers_tell, plus_commutes,
    plus_exchanges, plus_keeps_order, plus_nothing, plus_regroups, power_is_product, powers_tell,
    quotient_is_unique, scaling_is_product, squares_are_positive, sum_of_counts, sums_keep_order,
    sums_multiply, times_commutes, times_distributes, times_exchanges, times_keeps_order,
    times_nothing, times_one, times_regroups, total_of_nothing, total_of_sums, two_is_one_and_one,
};
use crate::forms::{measures_lengths, orthonormal_columns_keep_length};
use crate::linalg::{column, identity, image, image_terms, inner_terms};
use crate::scalar::{
    count, equal_terms, less, minus, negated, plus, times, total, whole, Elementary, Real, Scalar,
};
use crate::similarity::{
    best_of_rows, chosen_rotation_keeps_lengths, eigenvectors_are_orthonormal, exact_order,
    exact_trigonometry, hermitian, inner, keeps_lengths, leftover_terms, lengths_in_complex,
    pivot_is_the_largest, rotated_stays_hermitian, rotations_decompose, rotations_made,
    spectrum_is_of_eigenpairs_but_for_the_rest, total_without_pair, totals_agree,
    what_is_left_is_small,
};

verus! {

// ---- one rotation -----------------------------------------------------------

/// The powers of the entries of row `i` off the diagonal.
pub open spec fn off_row<R: Real>(a: spec_fn(int, int) -> Complex<R>, i: int) -> spec_fn(int) -> R {
    |j: int|
        if i == j {
            whole(0)
        } else {
            power(a(i, j))
        }
}

/// The power of each row off the diagonal.
pub open spec fn off_rows<R: Real>(a: spec_fn(int, int) -> Complex<R>, n: nat) -> spec_fn(
    int,
) -> R {
    |i: int| total(whole(0), off_row(a, i), n)
}

/// The power of the entries off the diagonal.
pub open spec fn off_power<R: Real>(a: spec_fn(int, int) -> Complex<R>, n: nat) -> R {
    total(whole(0), off_rows(a, n), n)
}

/// A rotation that keeps lengths keeps the power of the pair that it turns.
proof fn turned_pairs_keep_power<R: Real>(
    t: Rotation<R>,
    m: spec_fn(int, int) -> Complex<R>,
    i: int,
)
    requires
        field::<R>(),
        powers_tell::<R>(),
        keeps_lengths(t),
    ensures
        plus(power(turned_p(t, m, i)), power(turned_q(t, m, i))) == plus(
            power(m(i, t.p as int)),
            power(m(i, t.q as int)),
        ),
{
    complex_field::<R>();
    let (x, y, s) = (m(i, t.p as int), m(i, t.q as int), t.s);
    let (xc, yc, sc) = (conjugate(x), conjugate(y), conjugate(s));
    let c = on_axis(t.c);
    let (u, w) = (turned_p(t, m, i), turned_q(t, m, i));
    scaling_is_product(x, t.c);
    scaling_is_product(y, t.c);
    conjugate_of_real(t.c);
    // The conjugates of the turned pair.
    conjugate_of_sum(times(x, c), times(y, sc));
    conjugate_of_product(x, c);
    conjugate_of_product(y, sc);
    conjugate_twice(s);
    opposite_of_product(x, s);
    let xs = times(x, s);
    let xcsc = times(xc, sc);
    assert(w == plus(negated(xs), times(y, c)));
    conjugate_of_sum(negated(xs), times(y, c));
    conjugate_of_product(y, c);
    conjugate_of_product(x, s);
    assert(conjugate(negated(xs)) == negated(xcsc));
    // Their powers.
    let a = times(times(x, xc), times(c, c));
    let b = times(times(x, yc), times(c, s));
    let d = times(times(y, xc), times(sc, c));
    let e = times(times(y, yc), times(s, sc));
    sums_multiply(times(x, c), times(y, sc), times(xc, c), times(yc, s));
    times_exchanges(x, c, xc, c);
    times_exchanges(x, c, yc, s);
    times_exchanges(y, sc, xc, c);
    times_exchanges(y, sc, yc, s);
    times_commutes(sc, s);
    assert(times(u, conjugate(u)) == plus(plus(a, b), plus(d, e)));
    let f = times(times(x, xc), times(s, sc));
    let g = times(times(y, yc), times(c, c));
    sums_multiply(negated(xs), times(y, c), negated(xcsc), times(yc, c));
    opposite_of_product(xs, negated(xcsc));
    opposite_of_product(xs, xcsc);
    opposite_twice(times(xs, xcsc));
    times_exchanges(x, s, xc, sc);
    opposite_of_product(xs, times(yc, c));
    times_exchanges(x, s, yc, c);
    times_commutes(s, c);
    opposite_of_product(times(y, c), xcsc);
    times_exchanges(y, c, xc, sc);
    times_commutes(c, sc);
    times_exchanges(y, c, yc, c);
    assert(times(w, conjugate(w)) == plus(plus(f, negated(b)), plus(negated(d), g)));
    // The mixed terms cancel.
    let (ab, de) = (plus(a, b), plus(d, e));
    let (fb, dg) = (plus(f, negated(b)), plus(negated(d), g));
    plus_exchanges(ab, de, fb, dg);
    plus_commutes(f, negated(b));
    middle_cancels(a, b, f);
    plus_commutes(d, e);
    middle_cancels(e, d, g);
    lengths_in_complex(t);
    times_distributes(times(x, xc), times(c, c), times(s, sc));
    times_distributes(times(y, yc), times(s, sc), times(c, c));
    plus_commutes(times(s, sc), times(c, c));
    times_one(times(x, xc));
    times_one(times(y, yc));
    assert(plus(times(u, conjugate(u)), times(w, conjugate(w))) == plus(
        times(x, xc),
        times(y, yc),
    ));
    power_is_product(u);
    power_is_product(w);
    power_is_product(x);
    power_is_product(y);
    arithmetic_on_axis(power(u), power(w));
    arithmetic_on_axis(power(x), power(y));
}

/// The two rows that a rotation turns lose twice the power of the pivot.
proof fn turned_rows_lose_the_pivot<R: Real>(
    t: Rotation<R>,
    d: spec_fn(int, int) -> Complex<R>,
    n: nat,
)
    requires
        field::<R>(),
        powers_tell::<R>(),
        hermitian(d, n),
        keeps_lengths(t),
        t.p < n,
        t.q < n,
    ensures
        ({
            let (p, q) = (t.p as int, t.q as int);
            let (before, after) = (off_rows(d, n), off_rows(rotated(t, d), n));
            let lost = power(d(p, q));
            plus(before(p), before(q)) == plus(plus(after(p), after(q)), plus(lost, lost))
        }),
{
    let (p, q) = (t.p as int, t.q as int);
    let r = rotated(t, d);
    let lost = power(d(p, q));
    let f = |j: int| plus(off_row(d, p)(j), off_row(d, q)(j));
    let g = |j: int| plus(off_row(r, p)(j), off_row(r, q)(j));
    total_of_sums(off_row(d, p), off_row(d, q), f, n);
    total_of_sums(off_row(r, p), off_row(r, q), g, n);
    let f_rest = |i: int|
        if i == p || i == q {
            whole(0)
        } else {
            f(i)
        };
    let g_rest = |i: int|
        if i == p || i == q {
            whole(0)
        } else {
            g(i)
        };
    assert forall|j: int| 0 <= j < n implies #[trigger] f_rest(j) == g_rest(j) by {
        if j != p && j != q {
            turned_pairs_keep_power(t, d, j);
            power_is_product(turned_p(t, d, j));
            power_is_product(turned_q(t, d, j));
            assert(d(p, j) == conjugate(d(j, p)));
            assert(d(q, j) == conjugate(d(j, q)));
            power_is_product(d(j, p));
            power_is_product(d(j, q));
        }
    }
    equal_terms(whole(0), f_rest, g_rest, n);
    total_without_pair(f, p, q, n);
    total_without_pair(g, p, q, n);
    assert(d(q, p) == conjugate(d(p, q)));
    power_is_product(d(p, q));
    times_nothing(whole::<R>(0));
    plus_nothing(whole::<R>(0));
    plus_nothing(lost);
    plus_commutes(whole(0), lost);
    assert(f(p) == lost && f(q) == lost);
    assert(g(p) == whole::<R>(0) && g(q) == whole::<R>(0));
    plus_nothing(total(whole(0), g_rest, n));
}

/// Where nothing is rounded, a rotation lowers the power off the diagonal by twice the power
/// of its pivot, once on either side.
pub proof fn rotation_lowers_the_off_power<R: Real>(
    t: Rotation<R>,
    d: spec_fn(int, int) -> Complex<R>,
    n: nat,
)
    requires
        field::<R>(),
        powers_tell::<R>(),
        hermitian(d, n),
        keeps_lengths(t),
        t.p < n,
        t.q < n,
    ensures
        ({
            let lost = power(d(t.p as int, t.q as int));
            plus(off_power(rotated(t, d), n), plus(lost, lost)) == off_power(d, n)
        }),
{
    let (p, q) = (t.p as int, t.q as int);
    let r = rotated(t, d);
    let lost = power(d(p, q));
    let (f, g) = (off_rows(d, n), off_rows(r, n));
    let f_rest = |i: int|
        if i == p || i == q {
            whole(0)
        } else {
            f(i)
        };
    let g_rest = |i: int|
        if i == p || i == q {
            whole(0)
        } else {
            g(i)
        };
    assert forall|i: int| 0 <= i < n implies #[trigger] f_rest(i) == g_rest(i) by {
        if i != p && i != q {
            turned_pairs_keep_power(t, d, i);
            totals_agree(off_row(r, i), off_row(d, i), p, q, n);
        }
    }
    equal_terms(whole(0), f_rest, g_rest, n);
    total_without_pair(f, p, q, n);
    total_without_pair(g, p, q, n);
    turned_rows_lose_the_pivot(t, d, n);
    plus_regroups(total(whole(0), g_rest, n), plus(g(p), g(q)), plus(lost, lost));
}

// ---- above the diagonal -----------------------------------------------------

/// The powers of the entries of row `i` above the diagonal.
pub open spec fn row_above<R: Real>(a: spec_fn(int, int) -> Complex<R>, i: int) -> spec_fn(
    int,
) -> R {
    |j: int|
        if i < j {
            power(a(i, j))
        } else {
            whole(0)
        }
}

/// The power of each row above the diagonal.
pub open spec fn rows_above<R: Real>(a: spec_fn(int, int) -> Complex<R>, n: nat) -> spec_fn(
    int,
) -> R {
    |i: int| total(whole(0), row_above(a, i), n)
}

/// The power of the entries above the diagonal.
pub open spec fn power_above<R: Real>(a: spec_fn(int, int) -> Complex<R>, n: nat) -> R {
    total(whole(0), rows_above(a, n), n)
}

/// The entries of a table add up to the same by rows and by columns.
proof fn rows_and_columns_agree<T: Scalar>(f: spec_fn(int, int) -> T, n: nat, m: nat)
    requires
        field::<T>(),
    ensures
        total(whole(0), |i: int| total(whole(0), |j: int| f(i, j), m), n) == total(
            whole(0),
            |j: int| total(whole(0), |i: int| f(i, j), n),
            m,
        ),
    decreases n,
{
    let columns = |j: int| total(whole(0), |i: int| f(i, j), n);
    let rows = |i: int| total(whole(0), |j: int| f(i, j), m);
    if n == 0 {
        total_of_nothing(columns, m);
    } else {
        let k = n - 1;
        rows_and_columns_agree(f, k as nat, m);
        let before = |j: int| total(whole(0), |i: int| f(i, j), k as nat);
        let last = |j: int| f(k, j);
        assert forall|j: int| 0 <= j < m implies #[trigger] columns(j) == plus(
            before(j),
            last(j),
        ) by {
            let own = |i: int| f(i, j);
            assert(total(whole(0), own, n) == plus(total(whole(0), own, k as nat), own(k)));
        }
        total_of_sums(before, last, columns, m);
        assert(rows(k) == total(whole(0), last, m));
    }
}

/// In a Hermitian matrix the power off the diagonal is that above it, twice.
proof fn both_sides_are_equal<R: Real>(a: spec_fn(int, int) -> Complex<R>, n: nat)
    requires
        field::<R>(),
        hermitian(a, n),
    ensures
        off_power(a, n) == plus(power_above(a, n), power_above(a, n)),
{
    let up = |i: int, j: int| row_above(a, i)(j);
    let down = |j: int| total(whole(0), |i: int| up(i, j), n);
    let (off, above) = (off_rows(a, n), rows_above(a, n));
    assert forall|i: int| 0 <= i < n implies #[trigger] off(i) == plus(above(i), down(i)) by {
        let f = row_above(a, i);
        let g = |k: int| up(k, i);
        let h = off_row(a, i);
        assert forall|j: int| 0 <= j < n implies #[trigger] h(j) == plus(f(j), g(j)) by {
            let z = power(a(i, j));
            plus_nothing(z);
            plus_commutes(whole(0), z);
            plus_nothing(whole::<R>(0));
            assert(a(j, i) == conjugate(a(i, j)));
            power_is_product(a(i, j));
        }
        total_of_sums(f, g, h, n);
    }
    total_of_sums(above, down, off, n);
    rows_and_columns_agree(up, n, n);
    let rows = |i: int| total(whole(0), |j: int| up(i, j), n);
    assert forall|i: int| 0 <= i < n implies #[trigger] rows(i) == above(i) by {
        assert((|j: int| up(i, j)) =~= row_above(a, i));
    }
    equal_terms(whole(0), rows, above, n);
}

/// Where nothing is rounded, a rotation lowers the power above the diagonal by that of its
/// pivot.
pub proof fn rotation_lowers_the_power_above<R: Real>(
    t: Rotation<R>,
    d: spec_fn(int, int) -> Complex<R>,
    n: nat,
)
    requires
        field::<R>(),
        powers_tell::<R>(),
        two_is_one_and_one::<R>(),
        whole::<R>(2) != whole::<R>(0),
        hermitian(d, n),
        keeps_lengths(t),
        t.p < n,
        t.q < n,
    ensures
        plus(power_above(rotated(t, d), n), power(d(t.p as int, t.q as int))) == power_above(d, n),
{
    let lost = power(d(t.p as int, t.q as int));
    let r = rotated(t, d);
    rotation_lowers_the_off_power(t, d, n);
    rotated_stays_hermitian(t, d, n);
    both_sides_are_equal(d, n);
    both_sides_are_equal(r, n);
    let (x, y) = (power_above(r, n), power_above(d, n));
    plus_exchanges(x, x, lost, lost);
    let s = plus(x, lost);
    assert(plus(s, s) == plus(y, y));
    times_distributes(s, whole(1), whole(1));
    times_one(s);
    times_distributes(y, whole(1), whole(1));
    times_one(y);
    quotient_is_unique(s, plus(y, y), whole(2));
    quotient_is_unique(y, plus(y, y), whole(2));
}

// ---- the iteration ----------------------------------------------------------

/// Terms of at most `b` add up to at most their number times `b`.
proof fn bounded_terms<R: Real>(f: spec_fn(int) -> R, b: R, n: nat)
    requires
        ordered_field::<R>(),
        counts_add::<R>(),
        forall|i: int| 0 <= i < n ==> at_most(#[trigger] f(i), b),
    ensures
        at_most(total(whole(0), f, n), times(count(n as int), b)),
    decreases n,
{
    order_is_total::<R>();
    times_commutes(count(n as int), b);
    if n == 0 {
        assert(count::<R>(0) == whole::<R>(0));
        times_nothing(b);
        order_decides(whole::<R>(0), whole(0));
    } else {
        let k = n - 1;
        bounded_terms(f, b, k as nat);
        assert(at_most(f(k), b));
        sums_keep_order(total(whole(0), f, k as nat), times(count(k), b), f(k), b);
        sum_of_counts::<R>(k, 1);
        times_distributes(b, count(k), whole(1));
        times_one(b);
        times_commutes(count(k), b);
    }
}

/// Terms of at least nothing add up to at least nothing.
pub proof fn total_is_positive<R: Real>(f: spec_fn(int) -> R, n: nat)
    requires
        ordered_field::<R>(),
        forall|i: int| 0 <= i < n ==> at_most(whole(0), #[trigger] f(i)),
    ensures
        at_most(whole(0), total(whole(0), f, n)),
    decreases n,
{
    order_is_total::<R>();
    order_decides(whole::<R>(0), whole(0));
    if n > 0 {
        let k = n - 1;
        total_is_positive(f, k as nat);
        assert(at_most(whole(0), f(k)));
        sums_keep_order(whole(0), total(whole(0), f, k as nat), whole(0), f(k));
        plus_nothing(whole::<R>(0));
    }
}

/// Powers are at least nothing.
proof fn power_is_positive<R: Real>(z: Complex<R>)
    requires
        ordered_field::<R>(),
    ensures
        at_most(whole(0), power(z)),
{
    order_is_total::<R>();
    squares_are_positive(z.re);
    squares_are_positive(z.im);
    sums_keep_order(whole(0), times(z.re, z.re), whole(0), times(z.im, z.im));
    plus_nothing(whole::<R>(0));
}

/// The power above the diagonal is at least nothing.
proof fn power_above_is_positive<R: Real>(a: spec_fn(int, int) -> Complex<R>, n: nat)
    requires
        ordered_field::<R>(),
    ensures
        at_most(whole(0), power_above(a, n)),
{
    order_decides(whole::<R>(0), whole(0));
    assert forall|i: int| 0 <= i < n implies at_most(
        whole(0),
        #[trigger] rows_above(a, n)(i),
    ) by {
        assert forall|j: int| 0 <= j < n implies at_most(
            whole(0),
            #[trigger] row_above(a, i)(j),
        ) by {
            power_is_positive(a(i, j));
        }
        total_is_positive(row_above(a, i), n);
    }
    total_is_positive(rows_above(a, n), n);
}

/// Squares of what is at least nothing keep its order.
proof fn squares_keep_order<R: Real>(a: R, b: R)
    requires
        ordered_field::<R>(),
        at_most(whole(0), a),
        at_most(a, b),
    ensures
        at_most(times(a, a), times(b, b)),
{
    order_is_total::<R>();
    order_chains(whole(0), a, b);
    times_keeps_order(a, b, a);
    times_keeps_order(a, b, b);
    times_commutes(a, b);
    order_chains(times(a, a), times(a, b), times(b, b));
}

/// Where nothing is rounded, the pivot of the iteration holds its share of the power above
/// the diagonal: at least one part in `n` times `n`. So a rotation about it lowers that power
/// by at least this part.
pub proof fn pivot_holds_its_share<R: Real, M: Fn(Elementary<R>) -> R>(
    math: M,
    a: spec_fn(int, int) -> Complex<R>,
    n: nat,
)
    requires
        ordered_field::<R>(),
        counts_add::<R>(),
        exact_trigonometry(math),
        exact_order::<R>(),
        measures_lengths(math),
        n <= usize::MAX,
        hermitian(a, n),
        best_above(math, a, n as int, n as int) is Some,
        !less(best_above(math, a, n as int, n as int)->Some_0.size, tolerance()),
    ensures
        ({
            let b = best_above(math, a, n as int, n as int)->Some_0;
            let r = rotated(rotation(math, a, b.p, b.q), a);
            let parts: R = times(count(n as int), count(n as int));
            &&& at_most(power_above(a, n), times(parts, power(a(b.p as int, b.q as int))))
            &&& at_most(
                plus(times(parts, power_above(r, n)), power_above(a, n)),
                times(parts, power_above(a, n)),
            )
        }),
{
    order_is_total::<R>();
    ordered_powers_tell::<R>();
    let b = best_above(math, a, n as int, n as int)->Some_0;
    best_of_rows(math, a, n as int, n as int);
    let z = a(b.p as int, b.q as int);
    let top = power(z);
    let c: R = count(n as int);
    assert(times(modulus(math, z), modulus(math, z)) == top);
    assert forall|i: int| 0 <= i < n implies at_most(
        #[trigger] rows_above(a, n)(i),
        times(c, top),
    ) by {
        assert forall|j: int| 0 <= j < n implies at_most(#[trigger] row_above(a, i)(j), top) by {
            if i < j {
                let m = modulus(math, a(i, j));
                pivot_is_the_largest(math, a, n as int, i, j);
                assert(at_most(whole(0), m));
                squares_keep_order(m, b.size);
            } else {
                power_is_positive(z);
            }
        }
        bounded_terms(row_above(a, i), top, n);
    }
    bounded_terms(rows_above(a, n), times(c, top), n);
    times_regroups(c, c, top);
    // What the rotation leaves.
    sum_of_counts::<R>(1, 1);
    counts_keep_order::<R>(0, 2);
    order_decides(whole::<R>(0), whole(2));
    let t = rotation(math, a, b.p, b.q);
    chosen_rotation_keeps_lengths(math, a, b.p, b.q);
    rotation_lowers_the_power_above(t, a, n);
    let parts = times(c, c);
    let (before, after) = (power_above(a, n), power_above(rotated(t, a), n));
    times_distributes(parts, after, top);
    let kept = times(parts, after);
    plus_keeps_order(before, times(parts, top), kept);
    plus_commutes(before, kept);
    plus_commutes(times(parts, top), kept);
}

/// Where nothing is rounded, the iteration lowers the power above the diagonal by at least
/// the square of the tolerance with every rotation that it makes.
pub proof fn rotations_lower_the_power_above<R: Real, M: Fn(Elementary<R>) -> R>(
    math: M,
    n: nat,
    a: spec_fn(int, int) -> Complex<R>,
    v: spec_fn(int, int) -> Complex<R>,
    rounds: nat,
)
    requires
        ordered_field::<R>(),
        counts_add::<R>(),
        exact_trigonometry(math),
        exact_order::<R>(),
        measures_lengths(math),
        n <= usize::MAX,
        hermitian(a, n),
    ensures
        ({
            let made = rotations_made(math, n as int, a, rounds);
            let step = times(tolerance::<R>(), tolerance());
            at_most(
                plus(
                    power_above(diagonalized(math, n as int, a, v, rounds).0, n),
                    times(count(made as int), step),
                ),
                power_above(a, n),
            )
        }),
    decreases rounds,
{
    order_is_total::<R>();
    ordered_powers_tell::<R>();
    let step = times(tolerance::<R>(), tolerance());
    let before = power_above(a, n);
    let best = best_above(math, a, n as int, n as int);
    if rounds > 0 && best is Some && !less(best->Some_0.size, tolerance()) {
        let b = best->Some_0;
        best_of_rows(math, a, n as int, n as int);
        sum_of_counts::<R>(1, 1);
        counts_keep_order::<R>(0, 2);
        order_decides(whole::<R>(0), whole(2));
        let t = rotation(math, a, b.p, b.q);
        let r = rotated(t, a);
        chosen_rotation_keeps_lengths(math, a, b.p, b.q);
        rotation_lowers_the_power_above(t, a, n);
        rotated_stays_hermitian(t, a, n);
        let k = (rounds - 1) as nat;
        rotations_lower_the_power_above(math, n, r, turned(t, v), k);
        let z = a(b.p as int, b.q as int);
        assert(times(modulus(math, z), modulus(math, z)) == power(z));
        order_decides(whole(0), tolerance::<R>());
        squares_keep_order(tolerance(), modulus(math, z));
        let made = rotations_made(math, n as int, r, k);
        let left = power_above(diagonalized(math, n as int, r, turned(t, v), k).0, n);
        let gained = times(count(made as int), step);
        sums_keep_order(plus(left, gained), power_above(r, n), step, power(z));
        plus_regroups(left, gained, step);
        sum_of_counts::<R>(made as int, 1);
        times_commutes(count(made as int), step);
        times_commutes(count(made as int + 1), step);
        times_distributes(step, count(made as int), whole(1));
        times_one(step);
    } else {
        assert(count::<R>(0) == whole::<R>(0));
        times_commutes(whole(0), step);
        times_nothing(step);
        plus_nothing(before);
        order_decides(before, before);
    }
}

/// The iteration makes no more rotations than it has rounds.
proof fn no_more_than_the_rounds<R: Real, M: Fn(Elementary<R>) -> R>(
    math: M,
    n: int,
    a: spec_fn(int, int) -> Complex<R>,
    rounds: nat,
)
    ensures
        rotations_made(math, n, a, rounds) <= rounds,
    decreases rounds,
{
    if rounds > 0 {
        match best_above(math, a, n, n) {
            None => {},
            Some(b) => {
                no_more_than_the_rounds(
                    math,
                    n,
                    rotated(rotation(math, a, b.p, b.q), a),
                    (rounds - 1) as nat,
                );
            },
        }
    }
}

/// Where nothing is rounded, the iteration ends before its rounds are used up if the power
/// above the diagonal is below the number of rounds times the square of the tolerance.
pub proof fn iteration_ends<R: Real, M: Fn(Elementary<R>) -> R>(
    math: M,
    n: nat,
    a: spec_fn(int, int) -> Complex<R>,
    rounds: nat,
)
    requires
        ordered_field::<R>(),
        counts_add::<R>(),
        exact_trigonometry(math),
        exact_order::<R>(),
        measures_lengths(math),
        n <= usize::MAX,
        hermitian(a, n),
        less(
            power_above(a, n),
            times(count(rounds as int), times(tolerance::<R>(), tolerance())),
        ),
    ensures
        rotations_made(math, n as int, a, rounds) < rounds,
{
    order_is_total::<R>();
    no_more_than_the_rounds(math, n as int, a, rounds);
    let made = rotations_made(math, n as int, a, rounds);
    if made == rounds {
        let d = diagonalized(math, n as int, a, identity(), rounds).0;
        let gained = times(count(made as int), times(tolerance::<R>(), tolerance()));
        rotations_lower_the_power_above(math, n, a, identity(), rounds);
        power_above_is_positive(d, n);
        let left = power_above(d, n);
        plus_keeps_order(whole(0), left, gained);
        plus_commutes(whole(0), gained);
        plus_nothing(gained);
        order_chains(gained, plus(left, gained), power_above(a, n));
    }
}

// ---- the residuals ----------------------------------------------------------

/// By how much the matrix misses the multiple of eigenvector `j` by its eigenvalue.
pub open spec fn residual<R: Real, M: Fn(Elementary<R>) -> R>(
    math: M,
    a: spec_fn(int, int) -> Complex<R>,
    n: nat,
    j: int,
) -> spec_fn(int) -> Complex<R> {
    let (values, v) = spectrum(math, a, n);
    |k: int| minus(image(a, column(v, j), n)(k), scaled(v(k, j), values[j]))
}

/// What an iteration that ends early leaves off the diagonal has at most the power of the
/// tolerance.
proof fn leftover_power<R: Real, M: Fn(Elementary<R>) -> R>(
    math: M,
    a: spec_fn(int, int) -> Complex<R>,
    n: nat,
    i: int,
    j: int,
)
    requires
        ordered_field::<R>(),
        counts_add::<R>(),
        exact_trigonometry(math),
        exact_order::<R>(),
        measures_lengths(math),
        n <= usize::MAX,
        hermitian(a, n),
        rotations_made(math, n as int, a, 50 * n) < 50 * n,
        0 <= i < n,
        0 <= j < n,
        i != j,
    ensures
        at_most(
            power(diagonalized(math, n as int, a, identity(), 50 * n).0(i, j)),
            times(tolerance::<R>(), tolerance()),
        ),
{
    order_is_total::<R>();
    ordered_powers_tell::<R>();
    sum_of_counts::<R>(1, 1);
    rotations_decompose(math, a, n, 50 * n);
    let d = diagonalized(math, n as int, a, identity(), 50 * n).0;
    let (k, l) = if i < j {
        (i, j)
    } else {
        (j, i)
    };
    what_is_left_is_small(math, n, a, identity(), 50 * n, k, l);
    let z = d(k, l);
    let m = modulus(math, z);
    order_decides(m, tolerance());
    squares_keep_order(m, tolerance());
    assert(times(m, m) == power(z));
    assert(d(l, k) == conjugate(d(k, l)));
    power_is_product(z);
}

/// Where nothing is rounded and the iteration ends before its rounds are used up, the columns
/// of the spectrum are eigenvectors up to the tolerance: the squared length of what the
/// matrix misses the multiple by is at most `n` times the square of the tolerance.
pub proof fn residuals_are_small<R: Real, M: Fn(Elementary<R>) -> R>(
    math: M,
    a: spec_fn(int, int) -> Complex<R>,
    n: nat,
    j: int,
)
    requires
        ordered_field::<R>(),
        counts_add::<R>(),
        exact_trigonometry(math),
        exact_order::<R>(),
        measures_lengths(math),
        n <= usize::MAX,
        hermitian(a, n),
        rotations_made(math, n as int, a, 50 * n) < 50 * n,
        0 <= j < n,
    ensures
        at_most(
            inner(residual(math, a, n, j), residual(math, a, n, j), n).re,
            times(count(n as int), times(tolerance::<R>(), tolerance())),
        ),
{
    order_is_total::<R>();
    ordered_powers_tell::<R>();
    complex_field::<R>();
    sum_of_counts::<R>(1, 1);
    let (d, v) = diagonalized(math, n as int, a, identity(), 50 * n);
    let values = spectrum(math, a, n).0;
    let step = times(tolerance::<R>(), tolerance());
    let res = residual(math, a, n, j);
    let y = |i: int|
        if i == j {
            whole(0)
        } else {
            d(i, j)
        };
    let vy = image(v, y, n);
    // The residual is the image of what is left in the column.
    assert forall|k: int| 0 <= k < n implies #[trigger] res(k) == vy(k) by {
        spectrum_is_of_eigenpairs_but_for_the_rest(math, a, n, j, k);
        let rest = leftover_terms(d, v, j, k);
        assert forall|i: int| 0 <= i < n implies #[trigger] rest(i) == image_terms(v, y, k)(
            i,
        ) by {
            times_nothing(v(k, i));
        }
        equal_terms(whole(0), rest, image_terms(v, y, k), n);
        let own = scaled(v(k, j), values[j]);
        minus_adds_opposite(plus(own, vy(k)), own);
        plus_commutes(own, vy(k));
        plus_regroups(vy(k), own, negated(own));
        opposites_cancel(own);
        plus_nothing(vy(k));
    }
    equal_terms(whole(0), inner_terms(res, res), inner_terms(vy, vy), n);
    eigenvectors_are_orthonormal(math, a, n);
    orthonormal_columns_keep_length(v, y, n);
    // What is left in the column is small.
    let powers = |i: int| power(y(i));
    length_is_a_sum_of_powers(y, n);
    assert forall|i: int| 0 <= i < n implies at_most(#[trigger] powers(i), step) by {
        if i == j {
            squares_are_positive(tolerance::<R>());
            times_nothing(whole::<R>(0));
            plus_nothing(whole::<R>(0));
        } else {
            leftover_power(math, a, n, i, j);
        }
    }
    bounded_terms(powers, step, n);
}

/// The squared length of a vector is the sum of the powers of its entries.
proof fn length_is_a_sum_of_powers<R: Real>(y: spec_fn(int) -> Complex<R>, n: nat)
    requires
        field::<R>(),
        field::<Complex<R>>(),
    ensures
        inner(y, y, n).re == total(whole(0), |i: int| power(y(i)), n),
    decreases n,
{
    if n > 0 {
        let k = n - 1;
        length_is_a_sum_of_powers(y, k as nat);
        power_is_product(y(k));
        times_commutes(conjugate(y(k)), y(k));
    }
}

} // verus!
