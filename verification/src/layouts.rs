//! Where the elements of an array stand to each other, where nothing is rounded.
use vstd::prelude::*;
use vstd::arithmetic::div_mod::lemma_fundamental_div_mod_converse;
use crate::array::{
    lines_are_centred, offset, positions, ring_positions, rings, rings_pair_up, ArrayConfig,
    ArrayGeometry,
};
use crate::exact::{
    angles_add, counts_add, counts_keep_order, field, minus_adds_opposite, nothing_over,
    nothing_points_ahead, order_decides, order_is_total, ordered_field, over_of_product,
    over_of_sum, plus_commutes, plus_nothing, plus_regroups, sum_of_counts, times_commutes,
    times_distributes, times_distributes_minus, times_nothing, times_one, times_regroups,
};
use crate::scalar::{
    answer, count, minus, negated, over, plus, times, value, whole, Elementary, Real,
};

verus! {

// ---- lines ------------------------------------------------------------------

/// The next line stands one line on.
proof fn next_line<R: Real>(n: int, i: int)
    requires
        field::<R>(),
        counts_add::<R>(),
        0 <= i,
    ensures
        offset::<R>(n, i + 1) == plus(offset::<R>(n, i), whole(1)),
{
    let middle: R = over(minus(count(n), whole(1)), whole(2));
    let (k, one): (R, R) = (count(i), whole(1));
    sum_of_counts::<R>(i, 1);
    minus_adds_opposite(plus(k, one), middle);
    minus_adds_opposite(k, middle);
    plus_regroups(k, one, negated(middle));
    plus_commutes(one, negated(middle));
    plus_regroups(k, negated(middle), one);
}

/// The next line stands a spacing on.
proof fn next_place<R: Real>(n: int, i: int, d: R)
    requires
        field::<R>(),
        counts_add::<R>(),
        0 <= i,
    ensures
        times(offset::<R>(n, i + 1), d) == plus(times(offset::<R>(n, i), d), d),
{
    next_line::<R>(n, i);
    let at: R = offset(n, i);
    times_commutes(plus(at, whole(1)), d);
    times_distributes(d, at, whole(1));
    times_commutes(d, at);
    times_one(d);
}

/// Two lines that stand as far from either end stand at opposite places.
proof fn opposite_places<R: Real>(n: int, i: int, d: R)
    requires
        field::<R>(),
        counts_add::<R>(),
        whole::<R>(2) != whole::<R>(0),
        0 <= i < n,
    ensures
        plus(times(offset::<R>(n, i), d), times(offset::<R>(n, n - 1 - i), d)) == whole::<R>(0),
{
    sum_of_counts::<R>(1, 1);
    lines_are_centred::<R>(n, i);
    let (a, b): (R, R) = (offset(n, i), offset(n, n - 1 - i));
    times_commutes(a, d);
    times_commutes(b, d);
    times_distributes(d, a, b);
    times_nothing(d);
}

/// The cell in row `r` and column `c` of a table of `nx` columns and `ny` rows, its
/// neighbours and the cell opposite.
proof fn cells(nx: int, ny: int, r: int, c: int)
    requires
        0 <= r < ny,
        0 <= c < nx,
    ensures
        ({
            let k = r * nx + c;
            &&& 0 <= k < nx * ny
            &&& k / nx == r && k % nx == c
            &&& c + 1 < nx ==> k + 1 < nx * ny && (k + 1) / nx == r && (k + 1) % nx == c + 1
            &&& r + 1 < ny ==> k + nx < nx * ny && (k + nx) / nx == r + 1 && (k + nx) % nx == c
            &&& 0 <= nx * ny - 1 - k
            &&& (nx * ny - 1 - k) / nx == ny - 1 - r
            &&& (nx * ny - 1 - k) % nx == nx - 1 - c
            &&& 0 <= r * nx + nx - 1 - c < nx * ny
            &&& (r * nx + nx - 1 - c) / nx == r
            &&& (r * nx + nx - 1 - c) % nx == nx - 1 - c
        }),
{
    let k = r * nx + c;
    assert(0 <= r * nx && (r + 1) * nx <= ny * nx) by (nonlinear_arith)
        requires
            0 <= r < ny,
            0 <= c < nx,
    ;
    assert((r + 1) * nx == r * nx + nx) by (nonlinear_arith);
    assert(nx * ny == ny * nx) by (nonlinear_arith);
    lemma_fundamental_div_mod_converse(k, nx, r, c);
    if c + 1 < nx {
        lemma_fundamental_div_mod_converse(k + 1, nx, r, c + 1);
    }
    if r + 1 < ny {
        assert((r + 2) * nx <= ny * nx) by (nonlinear_arith)
            requires
                r + 2 <= ny,
                0 <= nx,
        ;
        assert((r + 2) * nx == r * nx + nx + nx) by (nonlinear_arith);
        lemma_fundamental_div_mod_converse(k + nx, nx, r + 1, c);
    }
    assert(nx * ny - 1 - k == (ny - 1 - r) * nx + (nx - 1 - c)) by (nonlinear_arith)
        requires
            k == r * nx + c,
    ;
    lemma_fundamental_div_mod_converse(nx * ny - 1 - k, nx, ny - 1 - r, nx - 1 - c);
    lemma_fundamental_div_mod_converse(r * nx + nx - 1 - c, nx, r, nx - 1 - c);
}

// ---- grids ------------------------------------------------------------------

/// In a rectangular layout an element stands `dx` beside the one before it in its row and
/// `dy` above the one below it in its column, and the element opposite stands at the opposite
/// place: the layout is centred.
pub proof fn rectangular_elements_stand_a_spacing_apart<
    R: Real,
    M: Fn(Elementary<R>) -> R,
    T: Fn(R) -> usize,
>(cfg: ArrayConfig<R>, math: M, truncate: T, r: int, c: int)
    requires
        field::<R>(),
        counts_add::<R>(),
        whole::<R>(2) != whole::<R>(0),
        cfg.geometry == ArrayGeometry::Rectangular,
        0 <= r < cfg.ny,
        0 <= c < cfg.nx,
    ensures
        ({
            let (x, y) = positions(cfg, math, truncate);
            let (nx, ny) = (cfg.nx as int, cfg.ny as int);
            let k = r * nx + c;
            &&& 0 <= k < x.len() && x.len() == nx * ny && y.len() == nx * ny
            &&& c + 1 < nx ==> x[k + 1] == plus(x[k], cfg.dx) && y[k + 1] == y[k]
            &&& r + 1 < ny ==> x[k + nx] == x[k] && y[k + nx] == plus(y[k], cfg.dy)
            &&& plus(x[k], x[nx * ny - 1 - k]) == whole::<R>(0)
            &&& plus(y[k], y[nx * ny - 1 - k]) == whole::<R>(0)
        }),
{
    let (nx, ny) = (cfg.nx as int, cfg.ny as int);
    cells(nx, ny, r, c);
    next_place::<R>(nx, c, cfg.dx);
    next_place::<R>(ny, r, cfg.dy);
    opposite_places::<R>(nx, c, cfg.dx);
    opposite_places::<R>(ny, r, cfg.dy);
}

/// In a triangular layout an element stands `dx` beside the one before it in its row. The
/// elements of an odd row stand halfway between the columns of the even rows: `dx / 2` on
/// from those in the even row below and in the even row above. From row to row the elements
/// stand `dy` times half the root of three apart. The rows are centred, and the elements of
/// an even row are centred in it.
pub proof fn triangular_elements_stand_halfway_between<
    R: Real,
    M: Fn(Elementary<R>) -> R,
    T: Fn(R) -> usize,
>(cfg: ArrayConfig<R>, math: M, truncate: T, r: int, c: int)
    requires
        field::<R>(),
        counts_add::<R>(),
        whole::<R>(2) != whole::<R>(0),
        cfg.geometry == ArrayGeometry::Triangular,
        0 <= r < cfg.ny,
        0 <= c < cfg.nx,
    ensures
        ({
            let (x, y) = positions(cfg, math, truncate);
            let (nx, ny) = (cfg.nx as int, cfg.ny as int);
            let k = r * nx + c;
            let half = over(cfg.dx, whole(2));
            let rise = over(times(cfg.dy, value(math, Elementary::Sqrt(whole(3)))), whole(2));
            &&& 0 <= k < x.len() && x.len() == nx * ny && y.len() == nx * ny
            &&& c + 1 < nx ==> x[k + 1] == plus(x[k], cfg.dx) && y[k + 1] == y[k]
            &&& r + 1 < ny && r % 2 == 0 ==> x[k + nx] == plus(x[k], half)
            &&& r + 1 < ny && r % 2 == 1 ==> x[k] == plus(x[k + nx], half)
            &&& r + 1 < ny ==> y[k + nx] == plus(y[k], rise)
            &&& r % 2 == 0 ==> plus(x[k], x[r * nx + nx - 1 - c]) == whole::<R>(0)
            &&& plus(y[k], y[nx * ny - 1 - k]) == whole::<R>(0)
        }),
{
    let (nx, ny) = (cfg.nx as int, cfg.ny as int);
    let (dx, dy) = (cfg.dx, cfg.dy);
    let two: R = whole(2);
    let root: R = value(math, Elementary::Sqrt(whole(3)));
    let squeeze: R = over(root, two);
    let (x, y) = positions(cfg, math, truncate);
    let k = r * nx + c;
    cells(nx, ny, r, c);
    next_place::<R>(nx, c, dx);
    next_place::<R>(ny, r, dy);
    opposite_places::<R>(nx, c, dx);
    opposite_places::<R>(ny, r, dy);
    // How far a row is shifted.
    let zero: R = whole(0);
    assert(count::<R>(0) == zero && count::<R>(1) == whole::<R>(1));
    times_commutes(zero, dx);
    times_nothing(dx);
    nothing_over(two);
    times_commutes(whole(1), dx);
    times_one(dx);
    let half = over(dx, two);
    let even = times(offset::<R>(nx, c), dx);
    plus_nothing(even);
    // Along a row.
    if c + 1 < nx {
        let shift = over(times(count::<R>(r % 2), dx), two);
        plus_regroups(even, dx, shift);
        plus_commutes(dx, shift);
        plus_regroups(even, shift, dx);
    }
    // From row to row.
    if r + 1 < ny {
        let at = times(offset::<R>(ny, r), dy);
        times_commutes(plus(at, dy), squeeze);
        times_distributes(squeeze, at, dy);
        times_commutes(squeeze, at);
        times_commutes(squeeze, dy);
        over_of_product(dy, root, two);
    }
    // Across the middle.
    plus_nothing(times(offset::<R>(nx, nx - 1 - c), dx));
    let (a, b) = (times(offset::<R>(ny, r), dy), times(offset::<R>(ny, ny - 1 - r), dy));
    times_commutes(a, squeeze);
    times_commutes(b, squeeze);
    times_distributes(squeeze, a, b);
    times_nothing(squeeze);
}

// ---- rings ------------------------------------------------------------------

/// In a circular layout one more row and column add one more ring outside of the others. It
/// holds as many elements as `truncate` leaves of its circumference in units of `dx` and one, and
/// six at the least. Its first element stands on the axis, as many spacings `dx` from the
/// centre as there are rings, and each of its elements is the one before it, turned about the
/// centre by an equal part of a full turn.
pub proof fn circular_elements_stand_on_rings<
    R: Real,
    M: Fn(Elementary<R>) -> R,
    T: Fn(R) -> usize,
>(inner: ArrayConfig<R>, outer: ArrayConfig<R>, math: M, truncate: T, ring: nat, i: int)
    requires
        ordered_field::<R>(),
        counts_add::<R>(),
        forall|a: R, b: R| #[trigger] angles_add(math, a, b),
        nothing_points_ahead(math),
        inner.geometry == ArrayGeometry::Circular,
        outer.geometry == ArrayGeometry::Circular,
        inner.dx == outer.dx,
        1 <= ring,
        ring == outer.nx && outer.nx <= outer.ny || ring == outer.ny && outer.ny <= outer.nx,
        ring - 1 == inner.nx && inner.nx <= inner.ny || ring - 1 == inner.ny && inner.ny
            <= inner.nx,
    ensures
        ({
            let (x, y) = positions(outer, math, truncate);
            let before = positions(inner, math, truncate);
            let first = before.0.len() as int;
            let n = x.len() - first;
            let turn = times(whole(2), value(math, Elementary::Pi));
            let wanted = answer(truncate, plus(times(turn, count(ring as int)), whole(1)));
            let part = over(turn, count(n));
            let (c, s) = (value(math, Elementary::Cos(part)), value(math, Elementary::Sin(part)));
            &&& ring == 1 ==> first == 0
            &&& x.len() == y.len() && before.1.len() == first
            &&& x.take(first) == before.0 && y.take(first) == before.1
            &&& 6 <= n && wanted <= n && (n == 6 || n == wanted)
            &&& x[first] == times(count(ring as int), outer.dx) && y[first] == whole::<R>(0)
            &&& 0 <= i < n - 1 ==> {
                let (a, b) = (x[first + i], y[first + i]);
                &&& x[first + i + 1] == minus(times(a, c), times(b, s))
                &&& y[first + i + 1] == plus(times(a, s), times(b, c))
            }
        }),
{
    order_is_total::<R>();
    let dr = outer.dx;
    let before = rings(math, truncate, dr, (ring - 1) as nat);
    let own = ring_positions(math, truncate, dr, ring as int);
    let first = before.0.len() as int;
    rings_pair_up(math, truncate, dr, (ring - 1) as nat);
    assert(positions(inner, math, truncate) == before);
    let (x, y) = positions(outer, math, truncate);
    assert((x, y) == (before.0 + own.0, before.1 + own.1));
    assert(x.take(first) =~= before.0);
    assert(y.take(first) =~= before.1);
    assert(ring == 1 ==> rings(math, truncate, dr, 0).0.len() == 0);
    let n = own.0.len() as int;
    let turn = times(whole(2), value(math, Elementary::Pi));
    let part = over(turn, count(n));
    let r = times(count(ring as int), dr);
    counts_keep_order::<R>(0, n);
    assert(count::<R>(0) == whole::<R>(0));
    order_decides(whole(0), count::<R>(n));
    // The first element.
    times_nothing(turn);
    nothing_over(count::<R>(n));
    times_one(r);
    times_nothing(r);
    // Every next one.
    if 0 <= i < n - 1 {
        let a = over(times(turn, count(i)), count(n));
        sum_of_counts::<R>(i, 1);
        times_distributes(turn, count(i), whole(1));
        times_one(turn);
        over_of_sum(times(turn, count(i)), turn, count(n));
        assert(over(times(turn, count(i + 1)), count(n)) == plus(a, part));
        assert(angles_add(math, a, part));
        let (ca, sa) = (value(math, Elementary::Cos(a)), value(math, Elementary::Sin(a)));
        let (c, s) = (value(math, Elementary::Cos(part)), value(math, Elementary::Sin(part)));
        times_commutes(r, minus(times(ca, c), times(sa, s)));
        times_distributes_minus(r, times(ca, c), times(sa, s));
        times_commutes(times(ca, c), r);
        times_commutes(times(sa, s), r);
        times_regroups(r, ca, c);
        times_regroups(r, sa, s);
        times_distributes(r, times(sa, c), times(ca, s));
        times_regroups(r, sa, c);
        times_regroups(r, ca, s);
        plus_commutes(times(times(r, sa), c), times(times(r, ca), s));
        assert(x[first + i] == times(r, ca) && y[first + i] == times(r, sa));
        assert(x[first + i + 1] == times(r, value(math, Elementary::Cos(plus(a, part)))));
        assert(y[first + i + 1] == times(r, value(math, Elementary::Sin(plus(a, part)))));
    }
}

} // verus!
