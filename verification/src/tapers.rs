//! What tapers do to the elements of an array: by distance off a rectangular grid, by rows
//! and columns on one.
use vstd::prelude::*;
use vstd::arithmetic::div_mod::lemma_fundamental_div_mod_converse;
use crate::beamforming::{
    radial_weight, raised_cosine, relative_radii, scaled_to_peak, separable, taper_weights,
    taylor_raw, TaperType,
};
use crate::exact::{
    at_most, counts_add, counts_keep_order, field, minus_adds_opposite, nothing_over,
    nothing_points_ahead, one_is_positive, opposite_of_product, opposite_twice, opposites_cancel,
    order_chains, order_decides, order_is_total, ordered_field, over_of_sum, plus_commutes,
    plus_exchanges, plus_nothing, quotient_is_unique, sum_of_counts, times_commutes,
    times_distributes, times_exchanges, times_nothing, times_one, times_regroups,
};
use crate::levels::{largest, largest_is_the_largest};
use crate::scalar::{
    comparable, count, larger, less, minus, negated, over, plus, ratio, times, value, whole,
    Elementary, Real,
};
use crate::windows::short_taylor_windows_are_uniform;

verus! {

/// Without a taper every element has the weight one.
pub proof fn uniform_tapers_are_ones<R: Real, M: Fn(Elementary<R>) -> R>(
    math: M,
    x: Seq<R>,
    y: Seq<R>,
    nx: nat,
    ny: nat,
    sll_db: R,
    geometry: Seq<char>,
    i: int,
)
    requires
        0 <= i < x.len(),
    ensures
        taper_weights(math, x, y, nx, ny, TaperType::Uniform, sll_db, geometry).len() == x.len(),
        taper_weights(math, x, y, nx, ny, TaperType::Uniform, sll_db, geometry)[i] == whole::<R>(1),
        forall|radius: R|
            #[trigger] radial_weight(math, TaperType::Uniform, sll_db, radius) == whole::<R>(1),
{
}

// ---- by distance ------------------------------------------------------------

/// Off a rectangular grid a taper depends on the distance from the centre alone: elements
/// that stand as far from it have equal weights, and exchanging `x` and `y` changes no weight,
/// where nothing is rounded.
pub proof fn tapers_depend_on_the_distance<R: Real, M: Fn(Elementary<R>) -> R>(
    math: M,
    x: Seq<R>,
    y: Seq<R>,
    nx: nat,
    ny: nat,
    taper: TaperType,
    sll_db: R,
    geometry: Seq<char>,
    i: int,
    j: int,
)
    requires
        field::<R>(),
        geometry != "rectangular"@,
        x.len() == y.len(),
        0 <= i < x.len(),
        0 <= j < x.len(),
    ensures
        ({
            let w = taper_weights(math, x, y, nx, ny, taper, sll_db, geometry);
            &&& w.len() == x.len()
            &&& plus(times(x[i], x[i]), times(y[i], y[i])) == plus(
                times(x[j], x[j]),
                times(y[j], y[j]),
            ) ==> w[i] == w[j]
            &&& taper_weights(math, y, x, nx, ny, taper, sll_db, geometry) == w
        }),
{
    let w = taper_weights(math, x, y, nx, ny, taper, sll_db, geometry);
    let v = taper_weights(math, y, x, nx, ny, taper, sll_db, geometry);
    let r = Seq::new(
        x.len(),
        |k: int| value(math, Elementary::Sqrt(plus(times(x[k], x[k]), times(y[k], y[k])))),
    );
    let s = Seq::new(
        y.len(),
        |k: int| value(math, Elementary::Sqrt(plus(times(y[k], y[k]), times(x[k], x[k])))),
    );
    assert forall|k: int| 0 <= k < x.len() implies #[trigger] r[k] == s[k] by {
        plus_commutes(times(x[k], x[k]), times(y[k], y[k]));
    }
    assert(r =~= s);
    assert(relative_radii(math, x, y) =~= relative_radii(math, y, x));
    assert(v =~= w);
}

/// Off a rectangular grid the weight of an element goes by its distance from the centre,
/// counted in the largest distance `far` or in one where that is larger. A raised cosine runs
/// through a full turn from the centre to the rim. A Taylor taper is a power of the cosine of
/// what is left of a quarter turn towards the rim, up to 0.99 of the way; the power is the
/// sidelobe level over 30, and a half at the least.
pub proof fn tapers_run_from_the_centre_to_the_rim<R: Real, M: Fn(Elementary<R>) -> R>(
    math: M,
    x: Seq<R>,
    y: Seq<R>,
    nx: nat,
    ny: nat,
    sll_db: R,
    geometry: Seq<char>,
    i: int,
    far: R,
)
    requires
        ordered_field::<R>(),
        geometry != "rectangular"@,
        0 <= i < x.len(),
        // The largest distance, or one.
        forall|k: int|
            #![trigger x[k]]
            0 <= k < x.len() ==> at_most(
                value(math, Elementary::Sqrt(plus(times(x[k], x[k]), times(y[k], y[k])))),
                far,
            ),
        at_most(whole(1), far),
        far == whole::<R>(1) || exists|k: int|
            #![trigger x[k]]
            0 <= k < x.len() && far == value(
                math,
                Elementary::Sqrt(plus(times(x[k], x[k]), times(y[k], y[k]))),
            ),
    ensures
        ({
            let distance = value(
                math,
                Elementary::Sqrt(plus(times(x[i], x[i]), times(y[i], y[i]))),
            );
            let part = over(distance, far);
            let turn = times(times(whole(2), value(math, Elementary::Pi)), part);
            let c = value(math, Elementary::Cos(turn));
            let hanning = taper_weights(
                math,
                x,
                y,
                nx,
                ny,
                TaperType::Hanning,
                sll_db,
                geometry,
            );
            let hamming = taper_weights(
                math,
                x,
                y,
                nx,
                ny,
                TaperType::Hamming,
                sll_db,
                geometry,
            );
            let taylor = taper_weights(math, x, y, nx, ny, TaperType::Taylor, sll_db, geometry);
            let shape = over(value(math, Elementary::Abs(sll_db)), whole(30));
            let quarter = over(value(math, Elementary::Pi), whole(2));
            let base = |p: R| value(math, Elementary::Cos(times(quarter, minus(whole(1), p))));
            let power = |b: R, e: R| value(math, Elementary::Pow(b, e));
            let near = if at_most(part, ratio(99, 100)) {
                part
            } else {
                ratio(99, 100)
            };
            let exponent = if at_most(ratio(1, 2), shape) {
                shape
            } else {
                ratio(1, 2)
            };
            &&& hanning[i] == minus(ratio(1, 2), times(ratio(1, 2), c))
            &&& hamming[i] == minus(ratio(54, 100), times(ratio(46, 100), c))
            &&& taylor[i] == power(base(near), exponent)
        }),
{
    order_is_total::<R>();
    let r = Seq::new(
        x.len(),
        |k: int| value(math, Elementary::Sqrt(plus(times(x[k], x[k]), times(y[k], y[k])))),
    );
    let all = seq![whole::<R>(0)] + r;
    assert forall|a: int, b: int|
        0 <= a < all.len() && 0 <= b < all.len() implies #[trigger] comparable(all[a], all[b]) by {}
    largest_is_the_largest(whole(0), r);
    let top = largest(whole(0), r);
    let one: R = whole(1);
    one_is_positive::<R>();
    // The two largest distances are the same.
    let found = larger(top, one);
    order_decides(top, one);
    order_decides(one, top);
    order_decides(one, one);
    assert forall|k: int| 0 <= k < x.len() implies at_most(#[trigger] r[k], found) by {
        assert(!less(top, r[k]));
        order_chains(r[k], top, one);
    }
    assert(at_most(one, found));
    order_decides(found, far);
    if far == one {
        if found != one {
            assert(found == top);
            if top == whole::<R>(0) {
                order_decides(whole(0), one);
            } else {
                let k = choose|k: int| 0 <= k < r.len() && #[trigger] r[k] == top;
                assert(x[k] == x[k]);
                assert(at_most(r[k], far));
                order_decides(top, one);
            }
        }
    } else {
        let k = choose|k: int|
            #![trigger x[k]]
            0 <= k < x.len() && far == value(
                math,
                Elementary::Sqrt(plus(times(x[k], x[k]), times(y[k], y[k]))),
            );
        assert(r[k] == far);
        assert(at_most(far, found));
        if found == one {
            order_decides(far, one);
        } else {
            if top == whole::<R>(0) {
                order_decides(whole(0), one);
            } else {
                let l = choose|l: int| 0 <= l < r.len() && #[trigger] r[l] == top;
                assert(x[l] == x[l]);
                assert(at_most(r[l], far));
            }
        }
    }
    assert(found == far);
    let part = over(r[i], far);
    assert(relative_radii(math, x, y)[i] == part);
    order_decides(part, ratio(99, 100));
    let shape = over(value(math, Elementary::Abs(sll_db)), whole(30));
    order_decides(ratio(1, 2), shape);
    order_decides(shape, ratio(1, 2));
}

// ---- by rows and columns ----------------------------------------------------

/// The cell in row `r` and column `c`.
proof fn cell(nx: int, ny: int, r: int, c: int)
    requires
        0 <= r < ny,
        0 <= c < nx,
    ensures
        0 <= r * nx + c < nx * ny,
        (r * nx + c) / nx == r,
        (r * nx + c) % nx == c,
{
    assert(0 <= r * nx && r * nx + nx <= nx * ny) by (nonlinear_arith)
        requires
            0 <= r < ny,
            0 <= c < nx,
    ;
    lemma_fundamental_div_mod_converse(r * nx + c, nx, r, c);
}

/// On a rectangular grid a raised cosine taper is the product of one raised cosine over the
/// rows and one over the columns, each through a full turn.
pub proof fn grid_tapers_are_products_of_cosines<R: Real, M: Fn(Elementary<R>) -> R>(
    math: M,
    x: Seq<R>,
    y: Seq<R>,
    nx: nat,
    ny: nat,
    sll_db: R,
    r: int,
    c: int,
)
    requires
        0 <= r < ny,
        0 <= c < nx,
    ensures
        ({
            let turn = times(whole(2), value(math, Elementary::Pi));
            let across = value(
                math,
                Elementary::Cos(over(times(turn, count(c)), count(nx as int))),
            );
            let up = value(math, Elementary::Cos(over(times(turn, count(r)), count(ny as int))));
            let hanning = taper_weights(
                math,
                x,
                y,
                nx,
                ny,
                TaperType::Hanning,
                sll_db,
                "rectangular"@,
            );
            let hamming = taper_weights(
                math,
                x,
                y,
                nx,
                ny,
                TaperType::Hamming,
                sll_db,
                "rectangular"@,
            );
            let half: R = ratio(1, 2);
            let (a, b): (R, R) = (ratio(54, 100), ratio(46, 100));
            &&& hanning.len() == nx * ny && hamming.len() == nx * ny
            &&& hanning[r * nx + c] == times(
                minus(half, times(half, up)),
                minus(half, times(half, across)),
            )
            &&& hamming[r * nx + c] == times(
                minus(a, times(b, up)),
                minus(a, times(b, across)),
            )
        }),
{
    cell(nx as int, ny as int, r, c);
}

/// On a rectangular grid every taper but the uniform one goes by rows and columns: in any two
/// rows and two columns the corners multiply to the same, and exchanging the numbers of rows
/// and columns turns the rows into columns, where nothing is rounded.
pub proof fn grid_tapers_go_by_rows_and_columns<R: Real, M: Fn(Elementary<R>) -> R>(
    math: M,
    x: Seq<R>,
    y: Seq<R>,
    nx: nat,
    ny: nat,
    taper: TaperType,
    sll_db: R,
    r: int,
    c: int,
    s: int,
    d: int,
)
    requires
        field::<R>(),
        taper != TaperType::Uniform,
        0 <= r < ny,
        0 <= s < ny,
        0 <= c < nx,
        0 <= d < nx,
    ensures
        ({
            let w = taper_weights(math, x, y, nx, ny, taper, sll_db, "rectangular"@);
            let v = taper_weights(math, x, y, ny, nx, taper, sll_db, "rectangular"@);
            &&& w.len() == nx * ny
            &&& times(w[r * nx + c], w[s * nx + d]) == times(w[r * nx + d], w[s * nx + c])
            &&& v[c * ny + r] == w[r * nx + c]
        }),
{
    cell(nx as int, ny as int, r, c);
    cell(nx as int, ny as int, s, d);
    cell(nx as int, ny as int, r, d);
    cell(nx as int, ny as int, s, c);
    cell(ny as int, nx as int, c, r);
    let (wx, wy) = match taper {
        TaperType::Taylor => (
            scaled_to_peak(taylor_raw(math, nx, sll_db)),
            scaled_to_peak(taylor_raw(math, ny, sll_db)),
        ),
        TaperType::Hamming => (
            raised_cosine(math, ratio(54, 100), ratio(46, 100), nx),
            raised_cosine(math, ratio(54, 100), ratio(46, 100), ny),
        ),
        _ => (
            raised_cosine(math, ratio(1, 2), ratio(1, 2), nx),
            raised_cosine(math, ratio(1, 2), ratio(1, 2), ny),
        ),
    };
    assert(wx.len() == nx && wy.len() == ny);
    times_exchanges(wy[r], wx[c], wy[s], wx[d]);
    times_exchanges(wy[r], wx[d], wy[s], wx[c]);
    times_commutes(wx[c], wx[d]);
    times_commutes(wy[r], wx[c]);
}

/// On a rectangular grid a Taylor taper is that of a single row times that of a single
/// column, where nothing is rounded.
pub proof fn taylor_tapers_are_of_rows_and_columns<R: Real, M: Fn(Elementary<R>) -> R>(
    math: M,
    x: Seq<R>,
    y: Seq<R>,
    nx: nat,
    ny: nat,
    sll_db: R,
    r: int,
    c: int,
)
    requires
        ordered_field::<R>(),
        0 <= r < ny,
        0 <= c < nx,
    ensures
        ({
            let w = taper_weights(math, x, y, nx, ny, TaperType::Taylor, sll_db, "rectangular"@);
            let row = taper_weights(math, x, y, nx, 1, TaperType::Taylor, sll_db, "rectangular"@);
            let line = taper_weights(math, x, y, 1, ny, TaperType::Taylor, sll_db, "rectangular"@);
            &&& row == scaled_to_peak(taylor_raw(math, nx, sll_db))
            &&& line == scaled_to_peak(taylor_raw(math, ny, sll_db))
            &&& w[r * nx + c] == times(line[r], row[c])
        }),
{
    order_is_total::<R>();
    cell(nx as int, ny as int, r, c);
    short_taylor_windows_are_uniform(math, 1, sll_db, 0);
    let (wx, wy) = (
        scaled_to_peak(taylor_raw(math, nx, sll_db)),
        scaled_to_peak(taylor_raw(math, ny, sll_db)),
    );
    let row = taper_weights(math, x, y, nx, 1, TaperType::Taylor, sll_db, "rectangular"@);
    let line = taper_weights(math, x, y, 1, ny, TaperType::Taylor, sll_db, "rectangular"@);
    assert forall|k: int| 0 <= k < nx implies #[trigger] row[k] == wx[k] by {
        cell(nx as int, 1, 0, k);
        times_commutes(whole(1), wx[k]);
        times_one(wx[k]);
    }
    assert(row =~= wx);
    assert forall|k: int| 0 <= k < ny implies #[trigger] line[k] == wy[k] by {
        cell(1, ny as int, k, 0);
        times_one(wy[k]);
    }
    assert(line =~= wy);
}

/// A raised cosine with offset `a` and swing `b` starts at its foot, `a - b`, and two entries
/// that stand half the window apart add up to twice the offset, where nothing is rounded.
pub proof fn raised_cosines_balance<R: Real, M: Fn(Elementary<R>) -> R>(
    math: M,
    a: R,
    b: R,
    n: int,
    i: int,
)
    requires
        ordered_field::<R>(),
        counts_add::<R>(),
        nothing_points_ahead(math),
        forall|t: R|
            #[trigger] value(
                math,
                Elementary::Cos(plus(t, value(math, Elementary::Pi))),
            ) == negated(value(math, Elementary::Cos(t))),
        1 <= n,
        0 <= i < n,
    ensures
        ({
            let w = raised_cosine(math, a, b, (2 * n) as nat);
            &&& w.len() == 2 * n
            &&& w[0] == minus(a, b)
            &&& plus(w[i], w[i + n]) == plus(a, a)
        }),
{
    order_is_total::<R>();
    let m: R = count(2 * n);
    let pi = value(math, Elementary::Pi);
    let turn = times(whole(2), pi);
    counts_keep_order::<R>(0, 2 * n);
    counts_keep_order::<R>(0, n);
    assert(count::<R>(0) == whole::<R>(0));
    order_decides(whole(0), m);
    times_nothing(turn);
    nothing_over(m);
    times_one(b);
    // Half the window is half a turn.
    let k: R = count(n);
    sum_of_counts::<R>(n, n);
    sum_of_counts::<R>(1, 1);
    times_distributes(k, whole(1), whole(1));
    times_one(k);
    times_commutes(k, whole(2));
    times_commutes(whole(2), pi);
    times_regroups(pi, whole(2), k);
    assert(times(turn, k) == times(pi, m));
    quotient_is_unique(pi, times(pi, m), m);
    sum_of_counts::<R>(i, n);
    times_distributes(turn, count(i), k);
    let t = over(times(turn, count(i)), m);
    over_of_sum(times(turn, count(i)), times(turn, k), m);
    assert(over(times(turn, count(i + n)), m) == plus(t, pi));
    let c = value(math, Elementary::Cos(t));
    assert(value(math, Elementary::Cos(plus(t, pi))) == negated(c));
    opposite_of_product(b, c);
    let p = times(b, c);
    minus_adds_opposite(a, p);
    minus_adds_opposite(a, negated(p));
    opposite_twice(p);
    plus_exchanges(a, negated(p), a, p);
    plus_commutes(negated(p), p);
    opposites_cancel(p);
    plus_nothing(plus(a, a));
}

/// A separable window holds in row `r` and column `c` the product of the two entries.
pub proof fn separable_windows_are_products<R: Real>(wx: Seq<R>, wy: Seq<R>, r: int, c: int)
    requires
        0 <= r < wy.len(),
        0 <= c < wx.len(),
    ensures
        separable(wx, wy).len() == wx.len() * wy.len(),
        separable(wx, wy)[r * wx.len() + c] == times(wy[r], wx[c]),
{
    cell(wx.len() as int, wy.len() as int, r, c);
}

} // verus!
