//! Array geometry and element positions, in wavelengths.
use vstd::prelude::*;
use crate::exact::{
    counts_add, field, minus_adds_opposite, opposite_of_sum, opposites_cancel, over_undoes_times,
    plus_exchanges, plus_nothing, plus_regroups, times_distributes, times_one,
};
use crate::scalar::{
    answer, answers, arithmetic, count, counted, evaluates, fraction, minus, negated, over, plus,
    ratio, times, value, whole, Elementary, Real,
};
use crate::table::{place_has_cell, vector_of};

verus! {

/// How the elements are laid out.
#[derive(Clone, Copy, Debug, PartialEq, Eq, Structural)]
pub enum ArrayGeometry {
    Rectangular,
    Circular,
    Triangular,
}

impl ArrayGeometry {
    /// The name of the geometry in lower case.
    pub open spec fn id(self) -> Seq<char> {
        match self {
            ArrayGeometry::Rectangular => "rectangular"@,
            ArrayGeometry::Circular => "circular"@,
            ArrayGeometry::Triangular => "triangular"@,
        }
    }

    /// What the geometry is called.
    pub open spec fn title(self) -> Seq<char> {
        match self {
            ArrayGeometry::Rectangular => "Rectangular Grid"@,
            ArrayGeometry::Circular => "Circular Array"@,
            ArrayGeometry::Triangular => "Triangular Grid"@,
        }
    }

    /// What the geometry is called.
    pub fn label(&self) -> (r: &'static str)
        ensures
            r@ == self.title(),
    {
        match self {
            ArrayGeometry::Rectangular => "Rectangular Grid",
            ArrayGeometry::Circular => "Circular Array",
            ArrayGeometry::Triangular => "Triangular Grid",
        }
    }

    /// The name of the geometry in lower case.
    pub fn name(&self) -> (r: &'static str)
        ensures
            r@ == self.id(),
    {
        match self {
            ArrayGeometry::Rectangular => "rectangular",
            ArrayGeometry::Circular => "circular",
            ArrayGeometry::Triangular => "triangular",
        }
    }
}

/// An array: its geometry, the number of elements along each axis and their spacing.
#[derive(Clone, Copy, Debug)]
pub struct ArrayConfig<R> {
    pub geometry: ArrayGeometry,
    pub nx: usize,
    pub ny: usize,
    pub dx: R,
    pub dy: R,
}

impl<R: Real> ArrayConfig<R> {
    /// The array that is meant where nothing else is said: a square of eight by eight
    /// elements, half a wavelength apart.
    pub fn standard() -> (r: Self)
        requires
            arithmetic::<R>(),
        ensures
            r == (ArrayConfig::<R> {
                geometry: ArrayGeometry::Rectangular,
                nx: 8,
                ny: 8,
                dx: ratio(1, 2),
                dy: ratio(1, 2),
            }),
    {
        ArrayConfig {
            geometry: ArrayGeometry::Rectangular,
            nx: 8,
            ny: 8,
            dx: fraction(1, 2),
            dy: fraction(1, 2),
        }
    }
}

/// Element positions: the coordinates along `x` and along `y`.
pub open spec fn positions<R: Real, M: Fn(Elementary<R>) -> R, T: Fn(R) -> usize>(
    cfg: ArrayConfig<R>,
    math: M,
    truncate: T,
) -> (Seq<R>, Seq<R>) {
    match cfg.geometry {
        ArrayGeometry::Rectangular => grid(cfg.nx as int, cfg.ny as int, cfg.dx, cfg.dy),
        ArrayGeometry::Circular => rings(
            math,
            truncate,
            cfg.dx,
            if cfg.nx <= cfg.ny {
                cfg.nx as nat
            } else {
                cfg.ny as nat
            },
        ),
        ArrayGeometry::Triangular => staggered(
            math,
            cfg.nx as int,
            cfg.ny as int,
            cfg.dx,
            cfg.dy,
        ),
    }
}

/// The offset of line `i` of `n` from the middle, in lines.
pub open spec fn offset<R: Real>(n: int, i: int) -> R {
    minus(count(i), over(minus(count(n), whole(1)), whole(2)))
}

/// A rectangular grid, read row by row.
pub open spec fn grid<R: Real>(nx: int, ny: int, dx: R, dy: R) -> (Seq<R>, Seq<R>) {
    (
        Seq::new((nx * ny) as nat, |k: int| times(offset(nx, k % nx), dx)),
        Seq::new((nx * ny) as nat, |k: int| times(offset(ny, k / nx), dy)),
    )
}

/// A triangular grid, read row by row: every other row is shifted by half a spacing, and
/// the rows stand closer by half the root of three.
pub open spec fn staggered<R: Real, M: Fn(Elementary<R>) -> R>(
    math: M,
    nx: int,
    ny: int,
    dx: R,
    dy: R,
) -> (Seq<R>, Seq<R>) {
    (
        Seq::new(
            (nx * ny) as nat,
            |k: int|
                plus(
                    times(offset(nx, k % nx), dx),
                    over(times(count((k / nx) % 2), dx), whole(2)),
                ),
        ),
        Seq::new(
            (nx * ny) as nat,
            |k: int|
                times(
                    times(offset(ny, k / nx), dy),
                    over(value(math, Elementary::Sqrt(whole(3))), whole(2)),
                ),
        ),
    )
}

/// The circumference of the unit circle.
pub open spec fn full_turn<R: Real, M: Fn(Elementary<R>) -> R>(math: M) -> R {
    times(whole(2), value(math, Elementary::Pi))
}

/// The number of elements on a ring: about one for each unit of its circumference, and
/// six at the least.
pub open spec fn ring_size<R: Real, M: Fn(Elementary<R>) -> R, T: Fn(R) -> usize>(
    math: M,
    truncate: T,
    ring: int,
) -> nat {
    let n = answer(truncate, plus(times(full_turn(math), count(ring)), whole(1)));
    if n < 6 {
        6
    } else {
        n as nat
    }
}

/// The angle of `i` of the `n` equal parts of a full turn.
pub open spec fn turn_part<R: Real, M: Fn(Elementary<R>) -> R>(math: M, n: int, i: int) -> R {
    over(times(full_turn(math), count(i)), count(n))
}

/// The elements of one ring of radius `ring * dr`.
pub open spec fn ring_positions<R: Real, M: Fn(Elementary<R>) -> R, T: Fn(R) -> usize>(
    math: M,
    truncate: T,
    dr: R,
    ring: int,
) -> (Seq<R>, Seq<R>) {
    let n = ring_size(math, truncate, ring);
    let r = times(count(ring), dr);
    (
        Seq::new(
            n,
            |i: int| times(r, value(math, Elementary::Cos(turn_part(math, n as int, i)))),
        ),
        Seq::new(
            n,
            |i: int| times(r, value(math, Elementary::Sin(turn_part(math, n as int, i)))),
        ),
    )
}

/// Concentric rings, from the innermost out.
pub open spec fn rings<R: Real, M: Fn(Elementary<R>) -> R, T: Fn(R) -> usize>(
    math: M,
    truncate: T,
    dr: R,
    n_rings: nat,
) -> (Seq<R>, Seq<R>)
    decreases n_rings,
{
    if n_rings == 0 {
        (Seq::empty(), Seq::empty())
    } else {
        let inner = rings(math, truncate, dr, (n_rings - 1) as nat);
        let outer = ring_positions(math, truncate, dr, n_rings as int);
        (inner.0 + outer.0, inner.1 + outer.1)
    }
}

/// The positions of the elements of an array.
pub fn generate_positions<R: Real, M: Fn(Elementary<R>) -> R, T: Fn(R) -> usize>(
    cfg: &ArrayConfig<R>,
    math: &M,
    truncate: &T,
) -> (r: (Vec<R>, Vec<R>))
    requires
        arithmetic::<R>(),
        evaluates(*math),
        answers::<R, usize, T>(*truncate),
        cfg.geometry != ArrayGeometry::Circular ==> cfg.nx * cfg.ny <= usize::MAX,
    ensures
        (r.0@, r.1@) == positions(*cfg, *math, *truncate),
{
    match cfg.geometry {
        ArrayGeometry::Rectangular => rect_positions(cfg.nx, cfg.ny, cfg.dx, cfg.dy),
        ArrayGeometry::Circular => circular_positions(cfg.nx, cfg.ny, cfg.dx, math, truncate),
        ArrayGeometry::Triangular => triangular_positions(cfg.nx, cfg.ny, cfg.dx, cfg.dy, math),
    }
}

/// The offset of line `i` of `n` from the middle, in lines.
fn offset_of<R: Real>(n: usize, i: usize) -> (r: R)
    requires
        arithmetic::<R>(),
    ensures
        r == offset::<R>(n as int, i as int),
{
    counted::<R>(i as u64) - (counted::<R>(n as u64) - R::from(1)) / R::from(2)
}

/// The positions on a rectangular grid.
pub fn rect_positions<R: Real>(nx: usize, ny: usize, dx: R, dy: R) -> (r: (Vec<R>, Vec<R>))
    requires
        arithmetic::<R>(),
        nx * ny <= usize::MAX,
    ensures
        (r.0@, r.1@) == grid(nx as int, ny as int, dx, dy),
{
    let n = nx * ny;
    let x = vector_of(
        n,
        |k: usize| -> (p: R)
            requires
                k < n,
            ensures
                p == times(offset(nx as int, k as int % nx as int), dx),
            {
                proof {
                    place_has_cell(k as int, nx as int, ny as int);
                }
                offset_of::<R>(nx, k % nx) * dx
            });
    let y = vector_of(
        n,
        |k: usize| -> (p: R)
            requires
                k < n,
            ensures
                p == times(offset(ny as int, k as int / nx as int), dy),
            {
                proof {
                    place_has_cell(k as int, nx as int, ny as int);
                }
                offset_of::<R>(ny, k / nx) * dy
            });
    assert(x@ =~= grid(nx as int, ny as int, dx, dy).0);
    assert(y@ =~= grid(nx as int, ny as int, dx, dy).1);
    (x, y)
}

/// The positions on concentric rings.
pub fn circular_positions<R: Real, M: Fn(Elementary<R>) -> R, T: Fn(R) -> usize>(
    nx: usize,
    ny: usize,
    dr: R,
    math: &M,
    truncate: &T,
) -> (r: (Vec<R>, Vec<R>))
    requires
        arithmetic::<R>(),
        evaluates(*math),
        answers::<R, usize, T>(*truncate),
    ensures
        (r.0@, r.1@) == rings(
            *math,
            *truncate,
            dr,
            if nx <= ny {
                nx as nat
            } else {
                ny as nat
            },
        ),
{
    let n_rings = if nx <= ny {
        nx
    } else {
        ny
    };
    let mut x: Vec<R> = Vec::new();
    let mut y: Vec<R> = Vec::new();
    for done in 0..n_rings
        invariant
            arithmetic::<R>(),
            evaluates(*math),
            answers::<R, usize, T>(*truncate),
            (x@, y@) == rings(*math, *truncate, dr, done as nat),
    {
        let ring = done + 1;
        let turn = R::from(2) * math(Elementary::Pi);
        let radius = counted::<R>(ring as u64) * dr;
        let wanted = truncate(turn * counted(ring as u64) + R::from(1));
        let n: usize = if wanted < 6 {
            6
        } else {
            wanted
        };
        let ghost inner = (x@, y@);
        let ghost outer = ring_positions(*math, *truncate, dr, ring as int);
        for i in 0..n
            invariant
                arithmetic::<R>(),
                evaluates(*math),
                n == ring_size::<R, M, T>(*math, *truncate, ring as int),
                turn == full_turn::<R, M>(*math),
                radius == times(count(ring as int), dr),
                outer == ring_positions(*math, *truncate, dr, ring as int),
                x@ == inner.0 + outer.0.take(i as int),
                y@ == inner.1 + outer.1.take(i as int),
        {
            let angle = turn * counted(i as u64) / counted(n as u64);
            x.push(radius * math(Elementary::Cos(angle)));
            y.push(radius * math(Elementary::Sin(angle)));
            assert(outer.0.take(i + 1) =~= outer.0.take(i as int).push(outer.0[i as int]));
            assert(outer.1.take(i + 1) =~= outer.1.take(i as int).push(outer.1[i as int]));
        }
        assert(outer.0.take(n as int) =~= outer.0);
        assert(outer.1.take(n as int) =~= outer.1);
    }
    (x, y)
}

/// The positions on a triangular grid.
pub fn triangular_positions<R: Real, M: Fn(Elementary<R>) -> R>(
    nx: usize,
    ny: usize,
    dx: R,
    dy: R,
    math: &M,
) -> (r: (Vec<R>, Vec<R>))
    requires
        arithmetic::<R>(),
        evaluates(*math),
        nx * ny <= usize::MAX,
    ensures
        (r.0@, r.1@) == staggered(*math, nx as int, ny as int, dx, dy),
{
    let n = nx * ny;
    let squeeze = math(Elementary::Sqrt(R::from(3))) / R::from(2);
    let ghost g = staggered(*math, nx as int, ny as int, dx, dy);
    let x = vector_of(
        n,
        |k: usize| -> (p: R)
            requires
                k < n,
            ensures
                p == g.0[k as int],
            {
                proof {
                    place_has_cell(k as int, nx as int, ny as int);
                }
                offset_of::<R>(nx, k % nx) * dx + counted::<R>(((k / nx) % 2) as u64) * dx
                    / R::from(2)
            });
    let y = vector_of(
        n,
        |k: usize| -> (p: R)
            requires
                k < n,
            ensures
                p == g.1[k as int],
            {
                proof {
                    place_has_cell(k as int, nx as int, ny as int);
                }
                offset_of::<R>(ny, k / nx) * dy * squeeze
            });
    assert(x@ =~= g.0);
    assert(y@ =~= g.1);
    (x, y)
}

// ---- what holds of every layout ---------------------------------------------

/// Rings hold as many abscissae as ordinates, and at least six elements each.
pub proof fn rings_pair_up<R: Real, M: Fn(Elementary<R>) -> R, T: Fn(R) -> usize>(
    math: M,
    truncate: T,
    dr: R,
    n_rings: nat,
)
    ensures
        rings(math, truncate, dr, n_rings).0.len() == rings(math, truncate, dr, n_rings).1.len(),
        6 * n_rings <= rings(math, truncate, dr, n_rings).0.len(),
    decreases n_rings,
{
    if n_rings > 0 {
        rings_pair_up(math, truncate, dr, (n_rings - 1) as nat);
    }
}

/// Every element has one abscissa and one ordinate. The two grids hold one element for each
/// column and row, the rings at least six each.
pub proof fn positions_pair_up<R: Real, M: Fn(Elementary<R>) -> R, T: Fn(R) -> usize>(
    cfg: ArrayConfig<R>,
    math: M,
    truncate: T,
)
    ensures
        positions(cfg, math, truncate).0.len() == positions(cfg, math, truncate).1.len(),
        cfg.geometry != ArrayGeometry::Circular ==> positions(cfg, math, truncate).0.len() == cfg.nx
            * cfg.ny,
        cfg.geometry == ArrayGeometry::Circular && cfg.nx <= cfg.ny ==> 6 * cfg.nx <= positions(
            cfg,
            math,
            truncate,
        ).0.len(),
        cfg.geometry == ArrayGeometry::Circular && cfg.ny <= cfg.nx ==> 6 * cfg.ny <= positions(
            cfg,
            math,
            truncate,
        ).0.len(),
{
    assert(0 <= cfg.nx * cfg.ny) by (nonlinear_arith);
    rings_pair_up(math, truncate, cfg.dx, cfg.nx as nat);
    rings_pair_up(math, truncate, cfg.dx, cfg.ny as nat);
}

/// Lines are laid out round the middle: where nothing is rounded, a line and the one that
/// stands as far from the other end have opposite offsets.
pub proof fn lines_are_centred<R: Real>(n: int, i: int)
    requires
        field::<R>(),
        counts_add::<R>(),
        whole::<R>(2) == plus(whole::<R>(1), whole::<R>(1)),
        whole::<R>(2) != whole::<R>(0),
        0 <= i < n,
    ensures
        plus(offset::<R>(n, i), offset::<R>(n, n - 1 - i)) == whole::<R>(0),
{
    let j = n - 1 - i;
    let (a, b): (R, R) = (count(i), count(j));
    let span: R = minus(count(n), whole(1));
    let half: R = over(span, whole(2));
    assert(count::<R>(1) == whole::<R>(1));
    assert(count::<R>(i + j) == plus(a, b));
    assert(count::<R>((n - 1) + 1) == plus(count::<R>(n - 1), count::<R>(1)));
    minus_adds_opposite(count::<R>(n), whole(1));
    plus_regroups(count::<R>(n - 1), whole(1), negated(whole(1)));
    opposites_cancel(whole::<R>(1));
    plus_nothing(count::<R>(n - 1));
    assert(span == plus(a, b));
    times_distributes(half, whole::<R>(1), whole::<R>(1));
    times_one(half);
    over_undoes_times(span, whole(2));
    assert(plus(half, half) == span);
    minus_adds_opposite(a, half);
    minus_adds_opposite(b, half);
    plus_exchanges(a, negated(half), b, negated(half));
    opposite_of_sum(half, half);
    opposites_cancel(span);
}

/// Each geometry goes by its own name, in lower case.
pub proof fn geometries_go_by_their_names()
    ensures
        ArrayGeometry::Rectangular.id() == "rectangular"@,
        ArrayGeometry::Circular.id() == "circular"@,
        ArrayGeometry::Triangular.id() == "triangular"@,
        ArrayGeometry::Rectangular.title() == "Rectangular Grid"@,
        ArrayGeometry::Circular.title() == "Circular Array"@,
        ArrayGeometry::Triangular.title() == "Triangular Grid"@,
        forall|g: ArrayGeometry, h: ArrayGeometry| #[trigger] g.id() == #[trigger] h.id() ==> g == h,
{
    reveal_strlit("rectangular");
    reveal_strlit("circular");
    reveal_strlit("triangular");
    assert("rectangular"@[0] == 'r' && "circular"@[0] == 'c' && "triangular"@[0] == 't');
}

} // verus!
