//! Eigenvalues and eigenvectors of Hermitian matrices by Jacobi rotations.
use vstd::prelude::*;
use core::ops::Neg;
use crate::complex::{conjugate, modulus, power, scaled, Complex};
use crate::levels::{faintest, least_magnitude};
use crate::linalg::identity;
use crate::ranking::{rank, rankable, ranking, ranking_descends, ranking_is_of_indices};
use crate::scalar::{
    arithmetic, evaluates, fraction, larger, less, max_of, minus, negated, ordering, over, plus,
    ratio, times, value, whole, Elementary, Real,
};
use crate::table::{vector_of, Matrix};

verus! {

// ---- the pivot --------------------------------------------------------------

/// An entry above the diagonal and its modulus.
pub struct Pivot<R> {
    pub size: R,
    pub p: usize,
    pub q: usize,
}

/// The better of `best` and the entry at `(i, j)`, whose modulus is `size`: the
/// entry has to be strictly larger, and larger than zero.
pub open spec fn improved<R: Real>(best: Option<Pivot<R>>, size: R, i: int, j: int) -> Option<Pivot<R>> {
    let held = match best {
        Some(b) => b.size,
        None => whole(0),
    };
    if less(held, size) {
        Some(Pivot { size, p: i as usize, q: j as usize })
    } else {
        best
    }
}

/// `best`, improved by the entries of row `i` from column `i + 1` to `j - 1`.
pub open spec fn best_in_row<R: Real, M: Fn(Elementary<R>) -> R>(
    math: M,
    a: spec_fn(int, int) -> Complex<R>,
    best: Option<Pivot<R>>,
    i: int,
    j: int,
) -> Option<Pivot<R>>
    decreases j - i,
{
    if j <= i + 1 {
        best
    } else {
        improved(best_in_row(math, a, best, i, j - 1), modulus(math, a(i, j - 1)), i, j - 1)
    }
}

/// The first largest entry above the diagonal in the rows before `i`.
pub open spec fn best_above<R: Real, M: Fn(Elementary<R>) -> R>(
    math: M,
    a: spec_fn(int, int) -> Complex<R>,
    n: int,
    i: int,
) -> Option<Pivot<R>>
    decreases i,
{
    if i <= 0 {
        None
    } else {
        best_in_row(math, a, best_above(math, a, n, i - 1), i - 1, n)
    }
}

/// The first largest entry above the diagonal, read row by row.
fn find_pivot<R: Real, M: Fn(Elementary<R>) -> R>(a: &Matrix<Complex<R>>, math: &M) -> (r: Option<
    Pivot<R>,
>)
    requires
        arithmetic::<R>(),
        evaluates(*math),
        a.wf(),
        a.height() == a.breadth(),
    ensures
        r == best_above(*math, a.entry(), a.height() as int, a.height() as int),
        r matches Some(b) ==> b.p < b.q < a.height(),
{
    let n = a.rows();
    let mut best: Option<Pivot<R>> = None;
    for i in 0..n
        invariant
            arithmetic::<R>(),
            evaluates(*math),
            a.wf(),
            n == a.height(),
            n == a.breadth(),
            best == best_above(*math, a.entry(), n as int, i as int),
            best matches Some(b) ==> b.p < b.q < n,
    {
        let ghost above = best;
        for j in i + 1..n
            invariant
                arithmetic::<R>(),
                evaluates(*math),
                a.wf(),
                n == a.height(),
                n == a.breadth(),
                i < n,
                best == best_in_row(*math, a.entry(), above, i as int, j as int),
                best matches Some(b) ==> b.p < b.q < n,
        {
            let size = a.get(i, j).norm(math);
            let held = match &best {
                Some(b) => b.size,
                None => R::from(0),
            };
            if held < size {
                best = Some(Pivot { size, p: i, q: j });
            }
        }
    }
    best
}

// ---- one rotation -----------------------------------------------------------

/// A rotation in the plane of the coordinates `p` and `q`.
pub struct Rotation<R> {
    pub p: usize,
    pub q: usize,
    pub c: R,
    pub s: Complex<R>,
}

/// The rotation that clears entry `(p, q)` of `a`: half the angle between twice the
/// modulus of the entry and the difference of the diagonal entries, in the direction
/// of the entry.
pub open spec fn rotation<R: Real, M: Fn(Elementary<R>) -> R>(
    math: M,
    a: spec_fn(int, int) -> Complex<R>,
    p: usize,
    q: usize,
) -> Rotation<R> {
    let apq = a(p as int, q as int);
    let size = modulus(math, apq);
    let theta = times(
        ratio(1, 2),
        value(
            math,
            Elementary::Atan2(
                times(whole(2), size),
                minus(a(p as int, p as int).re, a(q as int, q as int).re),
            ),
        ),
    );
    let sin = value(math, Elementary::Sin(theta));
    let length = larger(size, faintest());
    Rotation {
        p,
        q,
        c: value(math, Elementary::Cos(theta)),
        s: Complex {
            re: over(times(sin, apq.re), length),
            im: over(times(sin, apq.im), length),
        },
    }
}

/// What the rotation puts in row `i` of column `p`.
pub open spec fn turned_p<R: Real>(
    t: Rotation<R>,
    m: spec_fn(int, int) -> Complex<R>,
    i: int,
) -> Complex<R> {
    plus(scaled(m(i, t.p as int), t.c), times(m(i, t.q as int), conjugate(t.s)))
}

/// What the rotation puts in row `i` of column `q`.
pub open spec fn turned_q<R: Real>(
    t: Rotation<R>,
    m: spec_fn(int, int) -> Complex<R>,
    i: int,
) -> Complex<R> {
    plus(times(negated(m(i, t.p as int)), t.s), scaled(m(i, t.q as int), t.c))
}

/// The entries of `v` once its columns `p` and `q` are turned.
pub open spec fn turned<R: Real>(t: Rotation<R>, v: spec_fn(int, int) -> Complex<R>) -> spec_fn(
    int,
    int,
) -> Complex<R> {
    |i: int, j: int|
        if j == t.p {
            turned_p(t, v, i)
        } else if j == t.q {
            turned_q(t, v, i)
        } else {
            v(i, j)
        }
}

/// The part of the two new diagonal entries that comes from entry `(p, q)`: twice the cosine
/// times the real part of the product of the entry and the conjugate of the sine.
pub open spec fn cross_part<R: Real>(t: Rotation<R>, a: spec_fn(int, int) -> Complex<R>) -> R {
    let apq = a(t.p as int, t.q as int);
    plus(
        times(times(times(whole(2), apq.re), t.c), t.s.re),
        times(times(times(whole(2), apq.im), t.c), t.s.im),
    )
}

/// The entries of `a` turned on both sides: entry `(p, q)` is cleared, rows and
/// columns `p` and `q` stay conjugate to each other, the rest is untouched.
pub open spec fn rotated<R: Real>(t: Rotation<R>, a: spec_fn(int, int) -> Complex<R>) -> spec_fn(
    int,
    int,
) -> Complex<R> {
    let (p, q) = (t.p as int, t.q as int);
    let (app, aqq) = (a(p, p).re, a(q, q).re);
    |i: int, j: int|
        if i == p && j == p {
            Complex {
                re: plus(
                    plus(times(times(app, t.c), t.c), times(aqq, power(t.s))),
                    cross_part(t, a),
                ),
                im: whole(0),
            }
        } else if i == q && j == q {
            Complex {
                re: minus(
                    plus(times(app, power(t.s)), times(times(aqq, t.c), t.c)),
                    cross_part(t, a),
                ),
                im: whole(0),
            }
        } else if (i == p && j == q) || (i == q && j == p) {
            whole(0)
        } else if j == p {
            turned_p(t, a, i)
        } else if j == q {
            turned_q(t, a, i)
        } else if i == p {
            conjugate(turned_p(t, a, j))
        } else if i == q {
            conjugate(turned_q(t, a, j))
        } else {
            a(i, j)
        }
}

/// The rotation that clears entry `(p, q)` of `a`.
fn find_rotation<R: Real, M: Fn(Elementary<R>) -> R>(
    a: &Matrix<Complex<R>>,
    p: usize,
    q: usize,
    math: &M,
) -> (r: Rotation<R>)
    requires
        arithmetic::<R>(),
        evaluates(*math),
        a.wf(),
        a.height() == a.breadth(),
        p < q < a.height(),
    ensures
        r == rotation(*math, a.entry(), p, q),
{
    let apq = a.get(p, q);
    let size = apq.norm(math);
    let theta = fraction::<R>(1, 2) * math(
        Elementary::Atan2(R::from(2) * size, a.get(p, p).re - a.get(q, q).re),
    );
    let sin = math(Elementary::Sin(theta));
    let length = max_of(size, least_magnitude());
    Rotation {
        p,
        q,
        c: math(Elementary::Cos(theta)),
        s: Complex { re: sin * apq.re / length, im: sin * apq.im / length },
    }
}

/// Row `i` of column `p` after the rotation.
fn turn_p<R: Real>(t: &Rotation<R>, m: &Matrix<Complex<R>>, i: usize) -> (r: Complex<R>)
    requires
        arithmetic::<R>(),
        m.wf(),
        i < m.height(),
        t.p < m.breadth(),
        t.q < m.breadth(),
    ensures
        r == turned_p(*t, m.entry(), i as int),
{
    m.get(i, t.p).scale(t.c) + m.get(i, t.q) * t.s.conj()
}

/// Row `i` of column `q` after the rotation.
fn turn_q<R: Real>(t: &Rotation<R>, m: &Matrix<Complex<R>>, i: usize) -> (r: Complex<R>)
    requires
        arithmetic::<R>(),
        m.wf(),
        i < m.height(),
        t.p < m.breadth(),
        t.q < m.breadth(),
    ensures
        r == turned_q(*t, m.entry(), i as int),
{
    m.get(i, t.p).neg() * t.s + m.get(i, t.q).scale(t.c)
}

/// Turns the columns `p` and `q` of `v`.
fn turn_columns<R: Real>(t: &Rotation<R>, v: &Matrix<Complex<R>>) -> (r: Matrix<Complex<R>>)
    requires
        arithmetic::<R>(),
        v.wf(),
        t.p < v.breadth(),
        t.q < v.breadth(),
    ensures
        r.holds(v.height() as int, v.breadth() as int, turned(*t, v.entry())),
{
    Matrix::build(
        v.rows(),
        v.cols(),
        |i: usize, j: usize| -> (z: Complex<R>)
            requires
                i < v.height(),
                j < v.breadth(),
            ensures
                z == turned(*t, v.entry())(i as int, j as int),
            {
                if j == t.p {
                    turn_p(t, v, i)
                } else if j == t.q {
                    turn_q(t, v, i)
                } else {
                    v.get(i, j)
                }
            })
}

/// Turns `a` on both sides.
fn rotate<R: Real>(t: &Rotation<R>, a: &Matrix<Complex<R>>) -> (r: Matrix<Complex<R>>)
    requires
        arithmetic::<R>(),
        a.wf(),
        a.height() == a.breadth(),
        t.p < t.q < a.height(),
    ensures
        r.holds(a.height() as int, a.height() as int, rotated(*t, a.entry())),
{
    let (p, q) = (t.p, t.q);
    let (app, aqq) = (a.get(p, p).re, a.get(q, q).re);
    let apq = a.get(p, q);
    let cross = R::from(2) * apq.re * t.c * t.s.re + R::from(2) * apq.im * t.c * t.s.im;
    let spread = t.s.norm_sqr();
    Matrix::build(
        a.rows(),
        a.rows(),
        |i: usize, j: usize| -> (z: Complex<R>)
            requires
                i < a.height(),
                j < a.height(),
            ensures
                z == rotated(*t, a.entry())(i as int, j as int),
            {
                if i == p && j == p {
                    Complex { re: app * t.c * t.c + aqq * spread + cross, im: R::from(0) }
                } else if i == q && j == q {
                    Complex { re: app * spread + aqq * t.c * t.c - cross, im: R::from(0) }
                } else if (i == p && j == q) || (i == q && j == p) {
                    Complex::from(0)
                } else if j == p {
                    turn_p(t, a, i)
                } else if j == q {
                    turn_q(t, a, i)
                } else if i == p {
                    turn_p(t, a, j).conj()
                } else if i == q {
                    turn_q(t, a, j).conj()
                } else {
                    a.get(i, j)
                }
            })
}

// ---- the iteration ----------------------------------------------------------

/// The modulus below which an entry counts as cleared: 10 to the power of -10.
pub open spec fn tolerance<R: Real>() -> R {
    over(whole(1), times(whole(100_000), whole(100_000)))
}

/// The entries of `a` and `v` after at most `rounds` rotations, each of which clears
/// the largest entry above the diagonal; it ends early once that entry is below the
/// tolerance.
pub open spec fn diagonalized<R: Real, M: Fn(Elementary<R>) -> R>(
    math: M,
    n: int,
    a: spec_fn(int, int) -> Complex<R>,
    v: spec_fn(int, int) -> Complex<R>,
    rounds: nat,
) -> (spec_fn(int, int) -> Complex<R>, spec_fn(int, int) -> Complex<R>)
    decreases rounds,
{
    if rounds == 0 {
        (a, v)
    } else {
        match best_above(math, a, n, n) {
            None => (a, v),
            Some(b) => {
                if less(b.size, tolerance()) {
                    (a, v)
                } else {
                    let t = rotation(math, a, b.p, b.q);
                    diagonalized(math, n, rotated(t, a), turned(t, v), (rounds - 1) as nat)
                }
            },
        }
    }
}

/// The diagonal of `a` and the accumulated rotations, after at most fifty rounds for
/// each of the `n` rows.
pub open spec fn spectrum<R: Real, M: Fn(Elementary<R>) -> R>(
    math: M,
    a: spec_fn(int, int) -> Complex<R>,
    n: nat,
) -> (Seq<R>, spec_fn(int, int) -> Complex<R>) {
    let (d, v) = diagonalized(math, n as int, a, identity(), 50 * n);
    (Seq::new(n, |i: int| d(i, i).re), v)
}

/// `values` in the order of `order`.
pub open spec fn arranged<R>(values: Seq<R>, order: Seq<usize>) -> Seq<R> {
    Seq::new(order.len(), |k: int| values[order[k] as int])
}

/// The entries of `v`, its columns in the order of `order`.
pub open spec fn columns_arranged<T>(v: spec_fn(int, int) -> T, order: Seq<usize>) -> spec_fn(
    int,
    int,
) -> T {
    |i: int, j: int| v(i, order[j] as int)
}

/// `a` and `b` agree on the first `n` rows and columns.
pub open spec fn agree<T>(a: spec_fn(int, int) -> T, b: spec_fn(int, int) -> T, n: int) -> bool {
    forall|k: int, l: int| 0 <= k < n && 0 <= l < n ==> #[trigger] a(k, l) == b(k, l)
}

proof fn same_row<R: Real, M: Fn(Elementary<R>) -> R>(
    math: M,
    a: spec_fn(int, int) -> Complex<R>,
    b: spec_fn(int, int) -> Complex<R>,
    best: Option<Pivot<R>>,
    n: int,
    i: int,
    j: int,
)
    requires
        0 <= i < n <= usize::MAX,
        j <= n,
        agree(a, b, n),
        best matches Some(x) ==> x.p < x.q < n,
    ensures
        best_in_row(math, a, best, i, j) == best_in_row(math, b, best, i, j),
        best_in_row(math, a, best, i, j) matches Some(x) ==> x.p < x.q < n,
    decreases j - i,
{
    if j > i + 1 {
        same_row(math, a, b, best, n, i, j - 1);
        assert(a(i, j - 1) == b(i, j - 1));
    }
}

/// The pivot is an entry of the square, and depends on nothing outside of it.
proof fn same_pivot<R: Real, M: Fn(Elementary<R>) -> R>(
    math: M,
    a: spec_fn(int, int) -> Complex<R>,
    b: spec_fn(int, int) -> Complex<R>,
    n: int,
    i: int,
)
    requires
        i <= n <= usize::MAX,
        agree(a, b, n),
    ensures
        best_above(math, a, n, i) == best_above(math, b, n, i),
        best_above(math, a, n, i) matches Some(x) ==> x.p < x.q < n,
    decreases i,
{
    if i > 0 {
        same_pivot(math, a, b, n, i - 1);
        same_row(math, a, b, best_above(math, a, n, i - 1), n, i - 1, n);
    }
}

/// The iteration depends on nothing outside of the square.
proof fn same_iteration<R: Real, M: Fn(Elementary<R>) -> R>(
    math: M,
    n: int,
    a: spec_fn(int, int) -> Complex<R>,
    b: spec_fn(int, int) -> Complex<R>,
    v: spec_fn(int, int) -> Complex<R>,
    rounds: nat,
)
    requires
        n <= usize::MAX,
        agree(a, b, n),
    ensures
        agree(diagonalized(math, n, a, v, rounds).0, diagonalized(math, n, b, v, rounds).0, n),
        diagonalized(math, n, a, v, rounds).1 == diagonalized(math, n, b, v, rounds).1,
    decreases rounds,
{
    if rounds > 0 {
        same_pivot(math, a, b, n, n);
        match best_above(math, a, n, n) {
            None => {},
            Some(x) => {
                let t = rotation(math, a, x.p, x.q);
                assert(t == rotation(math, b, x.p, x.q));
                same_iteration(
                    math,
                    n,
                    rotated(t, a),
                    rotated(t, b),
                    turned(t, v),
                    (rounds - 1) as nat,
                );
            },
        }
    }
}

/// The spectrum depends on nothing outside of the first `n` rows and columns.
pub proof fn equal_spectra<R: Real, M: Fn(Elementary<R>) -> R>(
    math: M,
    a: spec_fn(int, int) -> Complex<R>,
    b: spec_fn(int, int) -> Complex<R>,
    n: nat,
)
    requires
        n <= usize::MAX,
        agree(a, b, n as int),
    ensures
        spectrum(math, a, n) == spectrum(math, b, n),
{
    same_iteration(math, n as int, a, b, identity(), 50 * n);
    assert(spectrum(math, a, n).0 =~= spectrum(math, b, n).0);
}

/// The eigenvalues of the Hermitian matrix in the first `n` rows and columns of `r`, from the
/// largest down, and the eigenvectors as columns in the same order. `None` where the
/// eigenvalues cannot be put in order.
///
/// The contract says how they are approached, by Jacobi rotations. That they are eigenvalues
/// and eigenvectors where nothing is rounded is
/// [`crate::similarity::spectrum_is_of_eigenpairs`].
pub fn eigen_hermitian<R: Real, M: Fn(Elementary<R>) -> R>(
    r: &Matrix<Complex<R>>,
    n: usize,
    math: &M,
) -> (e: Option<(Vec<R>, Matrix<Complex<R>>)>)
    requires
        arithmetic::<R>(),
        evaluates(*math),
        r.wf(),
        n <= r.height(),
        n <= r.breadth(),
        50 * n <= usize::MAX,
    ensures
        e is Some <==> rankable(spectrum(*math, r.entry(), n as nat).0),
        e matches Some((values, vectors)) ==> {
            let (d, v) = spectrum(*math, r.entry(), n as nat);
            let order = ranking(d, n as nat);
            &&& values@ == arranged(d, order)
            &&& vectors.holds(n as int, n as int, columns_arranged(v, order))
        },
{
    let small: R = R::from(1) / (R::from(100_000) * R::from(100_000));
    let mut a = Matrix::build(
        n,
        n,
        |i: usize, j: usize| -> (z: Complex<R>)
            requires
                i < n,
                j < n,
            ensures
                z == r.entry()(i as int, j as int),
            { r.get(i, j) });
    let mut v = Matrix::build(
        n,
        n,
        |i: usize, j: usize| -> (z: Complex<R>)
            requires
                i < n,
                j < n,
            ensures
                z == identity::<Complex<R>>()(i as int, j as int),
            {
                if i == j {
                    Complex::from(1)
                } else {
                    Complex::from(0)
                }
            });
    let rounds: usize = 50 * n;
    let ghost mut ga = r.entry();
    let ghost mut gv = identity::<Complex<R>>();
    let mut round: usize = 0;
    let mut done = false;
    while round < rounds && !done
        invariant
            arithmetic::<R>(),
            evaluates(*math),
            round <= rounds,
            small == tolerance::<R>(),
            a.holds(n as int, n as int, ga),
            v.holds(n as int, n as int, gv),
            diagonalized(*math, n as int, r.entry(), identity(), rounds as nat) == if done {
                (ga, gv)
            } else {
                diagonalized(*math, n as int, ga, gv, (rounds - round) as nat)
            },
        decreases rounds - round,
    {
        proof {
            same_pivot(*math, a.entry(), ga, n as int, n as int);
        }
        match find_pivot(&a, math) {
            None => {
                done = true;
            },
            Some(b) => {
                if b.size < small {
                    done = true;
                } else {
                    let t = find_rotation(&a, b.p, b.q, math);
                    v = turn_columns(&t, &v);
                    a = rotate(&t, &a);
                    proof {
                        gv = turned(t, gv);
                        ga = rotated(t, ga);
                    }
                }
            },
        }
        round = round + 1;
    }
    let values = vector_of(
        n,
        |i: usize| -> (x: R)
            requires
                i < n,
            ensures
                x == ga(i as int, i as int).re,
            { a.get(i, i).re });
    assert(values@ =~= spectrum(*math, r.entry(), n as nat).0);
    match rank(values.as_slice()) {
        None => None,
        Some(order) => {
            proof {
                ranking_is_of_indices(values@, n as nat);
            }
            let sorted = vector_of(
                n,
                |k: usize| -> (x: R)
                    requires
                        k < n,
                    ensures
                        x == values@[order@[k as int] as int],
                    { values[order[k]] });
            assert(sorted@ =~= arranged(values@, order@));
            let vectors = Matrix::build(
                n,
                n,
                |i: usize, j: usize| -> (z: Complex<R>)
                    requires
                        i < n,
                        j < n,
                    ensures
                        z == columns_arranged(gv, order@)(i as int, j as int),
                    { v.get(i, order[j]) });
            Some((sorted, vectors))
        },
    }
}

/// The eigenvalues come from the largest down.
pub proof fn eigenvalues_descend<R: Real>(values: Seq<R>, k: int, l: int)
    requires
        ordering::<R>(),
        rankable(values),
        values.len() <= usize::MAX,
        0 <= k < l < values.len(),
    ensures
        !less(
            arranged(values, ranking(values, values.len()))[k],
            arranged(values, ranking(values, values.len()))[l],
        ),
{
    ranking_is_of_indices(values, values.len());
    ranking_descends(values, values.len(), k, l);
}

} // verus!
