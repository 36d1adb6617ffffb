//! Dense linear algebra: products and inversion by Gauss-Jordan elimination.
use vstd::prelude::*;
use crate::complex::{conjugate, modulus, Complex};
use crate::exact::{
    field, minus_adds_opposite, nothing_over, opposite_of_nothing, opposite_of_product,
    opposite_twice, opposites_cancel, over_itself, over_of_product, over_undoes_times, plus_cancels,
    plus_nothing, times_distributes, times_nothing, times_one, times_regroups, total_of_multiples,
    total_of_nothing, total_of_one, total_of_sums,
};
use crate::scalar::{
    arithmetic, equal_terms, evaluates, less, minus, negated, operators, over, plus, times, total,
    whole, Elementary, Real, Scalar,
};
use crate::table::{vector_of, Matrix};

verus! {

// ---- products ---------------------------------------------------------------

/// The terms of the sum that makes up entry `(i, j)` of the product of `a` and `b`.
pub open spec fn product_terms<T: Scalar>(
    a: spec_fn(int, int) -> T,
    b: spec_fn(int, int) -> T,
    i: int,
    j: int,
) -> spec_fn(int) -> T {
    |k: int| times(a(i, k), b(k, j))
}

/// The entries of the product of `a` and `b`, which share `inner` columns and rows.
pub open spec fn product<T: Scalar>(
    a: spec_fn(int, int) -> T,
    b: spec_fn(int, int) -> T,
    inner: nat,
) -> spec_fn(int, int) -> T {
    |i: int, j: int| total(whole(0), product_terms(a, b, i, j), inner)
}

/// An entry of a product is made of one row of `a` and one column of `b`.
pub proof fn equal_products<T: Scalar>(
    a: spec_fn(int, int) -> T,
    b: spec_fn(int, int) -> T,
    c: spec_fn(int, int) -> T,
    d: spec_fn(int, int) -> T,
    inner: nat,
    i: int,
    j: int,
)
    requires
        forall|k: int| 0 <= k < inner ==> #[trigger] a(i, k) == c(i, k),
        forall|k: int| 0 <= k < inner ==> #[trigger] b(k, j) == d(k, j),
    ensures
        product(a, b, inner)(i, j) == product(c, d, inner)(i, j),
{
    equal_terms(whole(0), product_terms(a, b, i, j), product_terms(c, d, i, j), inner);
}

/// Entry `(i, j)` of the product of two matrices.
pub fn product_entry<T: Scalar>(a: &Matrix<T>, b: &Matrix<T>, i: usize, j: usize) -> (r: T)
    requires
        operators::<T>(),
        a.wf(),
        b.wf(),
        a.breadth() == b.height(),
        i < a.height(),
        j < b.breadth(),
    ensures
        r == product(a.entry(), b.entry(), a.breadth())(i as int, j as int),
{
    let n = a.cols();
    let mut sum: T = T::from(0);
    for k in 0..n
        invariant
            operators::<T>(),
            a.wf(),
            b.wf(),
            n == a.breadth(),
            a.breadth() == b.height(),
            i < a.height(),
            j < b.breadth(),
            sum == total(
                whole(0),
                product_terms(a.entry(), b.entry(), i as int, j as int),
                k as nat,
            ),
    {
        sum = sum + a.get(i, k) * b.get(k, j);
    }
    sum
}

/// The product of two matrices.
pub fn multiply<T: Scalar>(a: &Matrix<T>, b: &Matrix<T>) -> (r: Matrix<T>)
    requires
        operators::<T>(),
        a.wf(),
        b.wf(),
        a.breadth() == b.height(),
    ensures
        r.holds(
            a.height() as int,
            b.breadth() as int,
            product(a.entry(), b.entry(), a.breadth()),
        ),
{
    Matrix::build(
        a.rows(),
        b.cols(),
        |i: usize, j: usize| -> (z: T)
            requires
                i < a.height(),
                j < b.breadth(),
            ensures
                z == product(a.entry(), b.entry(), a.breadth())(i as int, j as int),
                { product_entry(a, b, i, j) })
}

/// The entries of a vector as a function of their place.
pub open spec fn along<T>(v: Seq<T>) -> spec_fn(int) -> T {
    |i: int| v[i]
}

/// The terms of entry `i` of a matrix times a vector.
pub open spec fn image_terms<T: Scalar>(
    m: spec_fn(int, int) -> T,
    a: spec_fn(int) -> T,
    i: int,
) -> spec_fn(int) -> T {
    |j: int| times(m(i, j), a(j))
}

/// The first `n` columns of a matrix times a vector.
pub open spec fn image<T: Scalar>(
    m: spec_fn(int, int) -> T,
    a: spec_fn(int) -> T,
    n: nat,
) -> spec_fn(int) -> T {
    |i: int| total(whole(0), image_terms(m, a, i), n)
}

/// A matrix times a vector.
pub fn apply<T: Scalar>(m: &Matrix<T>, a: &[T]) -> (r: Vec<T>)
    requires
        operators::<T>(),
        m.wf(),
        m.breadth() <= a@.len(),
    ensures
        r@ == Seq::new(m.height(), |i: int| image(m.entry(), along(a@), m.breadth())(i)),
{
    let n = m.cols();
    vector_of(
        m.rows(),
        |i: usize| -> (z: T)
            requires
                i < m.height(),
            ensures
                z == image(m.entry(), along(a@), m.breadth())(i as int),
            {
                let mut sum: T = T::from(0);
                for j in 0..n
                    invariant
                        operators::<T>(),
                        m.wf(),
                        n == m.breadth(),
                        i < m.height(),
                        m.breadth() <= a@.len(),
                        sum == total(
                            whole(0),
                            image_terms(m.entry(), along(a@), i as int),
                            j as nat,
                        ),
                {
                    sum = sum + m.get(i, j) * a[j];
                }
                sum
            })
}

/// The entries of the conjugate transpose of `a`.
pub open spec fn adjoint<R: Real>(a: spec_fn(int, int) -> Complex<R>) -> spec_fn(int, int) -> Complex<R> {
    |i: int, j: int| conjugate(a(j, i))
}

/// The conjugate transpose.
pub fn conjugate_transpose<R: Real>(a: &Matrix<Complex<R>>) -> (r: Matrix<Complex<R>>)
    requires
        arithmetic::<R>(),
        a.wf(),
    ensures
        r.holds(a.breadth() as int, a.height() as int, adjoint(a.entry())),
{
    Matrix::build(
        a.cols(),
        a.rows(),
        |i: usize, j: usize| -> (z: Complex<R>)
            requires
                i < a.breadth(),
                j < a.height(),
            ensures
                z == adjoint(a.entry())(i as int, j as int),
                { a.get(j, i).conj() })
}

/// The terms of the inner product of `a` and `b`.
pub open spec fn inner_terms<R: Real>(
    a: spec_fn(int) -> Complex<R>,
    b: spec_fn(int) -> Complex<R>,
) -> spec_fn(int) -> Complex<R> {
    |i: int| times(conjugate(a(i)), b(i))
}

// ---- inversion --------------------------------------------------------------

/// The entries of the identity.
pub open spec fn identity<T: Scalar>() -> spec_fn(int, int) -> T {
    |i: int, j: int|
        if i == j {
            whole(1)
        } else {
            whole(0)
        }
}

/// The entries of `a` with the identity to its right, from column `n` on.
pub open spec fn augmented<T: Scalar>(a: spec_fn(int, int) -> T, n: int) -> spec_fn(int, int) -> T {
    |i: int, j: int|
        if j < n {
            a(i, j)
        } else if j == i + n {
            whole(1)
        } else {
            whole(0)
        }
}

/// The entries of `m` once row `col` is divided by its entry in column `col`, and
/// every other row has lost that multiple of it which clears its own entry there.
pub open spec fn reduced<T: Scalar>(m: spec_fn(int, int) -> T, col: int) -> spec_fn(int, int) -> T {
    |i: int, j: int|
        if i == col {
            over(m(col, j), m(col, col))
        } else {
            minus(m(i, j), times(m(i, col), over(m(col, j), m(col, col))))
        }
}

/// The entries of `m` after the columns before `cols` have been reduced in turn, a
/// column being passed over where `usable` turns its pivot down.
pub open spec fn eliminated<T: Scalar>(
    m: spec_fn(int, int) -> T,
    usable: spec_fn(T) -> bool,
    cols: nat,
) -> spec_fn(int, int) -> T
    decreases cols,
{
    if cols == 0 {
        m
    } else {
        let before = eliminated(m, usable, (cols - 1) as nat);
        if usable(before(cols - 1, cols - 1)) {
            reduced(before, cols - 1)
        } else {
            before
        }
    }
}

/// The right half of the eliminated matrix: the inverse that elimination yields.
pub open spec fn inverse<T: Scalar>(
    a: spec_fn(int, int) -> T,
    usable: spec_fn(T) -> bool,
    n: int,
) -> spec_fn(int, int) -> T {
    |i: int, j: int| eliminated(augmented(a, n), usable, n as nat)(i, j + n)
}

/// Elimination depends on nothing outside of the rows and columns it works on.
proof fn same_elimination<T: Scalar>(
    a: spec_fn(int, int) -> T,
    b: spec_fn(int, int) -> T,
    usable: spec_fn(T) -> bool,
    n: int,
    cols: nat,
)
    requires
        cols <= n,
        forall|i: int, j: int| 0 <= i < n && 0 <= j < 2 * n ==> #[trigger] a(i, j) == b(i, j),
    ensures
        forall|i: int, j: int|
            0 <= i < n && 0 <= j < 2 * n ==> #[trigger] eliminated(a, usable, cols)(i, j)
                == eliminated(b, usable, cols)(i, j),
    decreases cols,
{
    if cols > 0 {
        same_elimination(a, b, usable, n, (cols - 1) as nat);
        let (p, q) = (
            eliminated(a, usable, (cols - 1) as nat),
            eliminated(b, usable, (cols - 1) as nat),
        );
        let c = cols - 1;
        assert(p(c, c) == q(c, c));
        assert forall|i: int, j: int| 0 <= i < n && 0 <= j < 2 * n implies #[trigger] eliminated(
            a,
            usable,
            cols,
        )(i, j) == eliminated(b, usable, cols)(i, j) by {
            assert(p(i, j) == q(i, j));
            assert(p(c, j) == q(c, j));
            assert(p(i, c) == q(i, c));
        }
    }
}

/// Matrices that agree on the first `n` rows and columns have the same inverse there.
pub proof fn equal_inverses<T: Scalar>(
    a: spec_fn(int, int) -> T,
    b: spec_fn(int, int) -> T,
    usable: spec_fn(T) -> bool,
    n: int,
)
    requires
        0 <= n,
        forall|i: int, j: int| 0 <= i < n && 0 <= j < n ==> #[trigger] a(i, j) == b(i, j),
    ensures
        forall|i: int, j: int|
            0 <= i < n && 0 <= j < n ==> #[trigger] inverse(a, usable, n)(i, j) == inverse(
                b,
                usable,
                n,
            )(i, j),
{
    same_elimination(augmented(a, n), augmented(b, n), usable, n, n as nat);
}

/// The least modulus of a pivot: 10 to the power of -12.
pub open spec fn pivot_floor<R: Real>() -> R {
    over(whole(1), times(whole(1_000_000), whole(1_000_000)))
}

/// A pivot is used unless its modulus is below the floor.
pub open spec fn usable_pivot<R: Real, M: Fn(Elementary<R>) -> R>(math: M) -> spec_fn(
    Complex<R>,
) -> bool {
    |z: Complex<R>| !less(modulus(math, z), pivot_floor())
}

/// One column of the elimination.
fn reduce_column<R: Real>(m: &Matrix<Complex<R>>, col: usize) -> (r: Matrix<Complex<R>>)
    requires
        arithmetic::<R>(),
        m.wf(),
        col < m.height(),
        col < m.breadth(),
    ensures
        r.holds(m.height() as int, m.breadth() as int, reduced(m.entry(), col as int)),
{
    let pivot = m.get(col, col);
    let base = vector_of(
        m.cols(),
        |j: usize| -> (z: Complex<R>)
            requires
                j < m.breadth(),
            ensures
                z == over(m.at(col as int, j as int), pivot),
            { m.get(col, j) / pivot });
    Matrix::build(
        m.rows(),
        m.cols(),
        |i: usize, j: usize| -> (z: Complex<R>)
            requires
                i < m.height(),
                j < m.breadth(),
            ensures
                z == reduced(m.entry(), col as int)(i as int, j as int),
            {
                if i == col {
                    base[j]
                } else {
                    m.get(i, j) - m.get(i, col) * base[j]
                }
            })
}

/// The inverse of the square matrix in the first columns of `a`, by Gauss-Jordan
/// elimination without exchange of rows; a column whose pivot is negligible is
/// passed over.
pub fn invert_2d<R: Real, M: Fn(Elementary<R>) -> R>(a: &Matrix<Complex<R>>, math: &M) -> (r: Matrix<
    Complex<R>,
>)
    requires
        arithmetic::<R>(),
        evaluates(*math),
        a.wf(),
        a.height() <= a.breadth(),
        2 * a.height() <= usize::MAX,
    ensures
        r.holds(
            a.height() as int,
            a.height() as int,
            inverse(a.entry(), usable_pivot(*math), a.height() as int),
        ),
{
    let n = a.rows();
    let floor: R = R::from(1) / (R::from(1_000_000) * R::from(1_000_000));
    let mut m = Matrix::build(
        n,
        2 * n,
        |i: usize, j: usize| -> (z: Complex<R>)
            requires
                i < n,
                j < 2 * n,
            ensures
                z == augmented(a.entry(), n as int)(i as int, j as int),
                {
                if j < n {
                    a.get(i, j)
                } else if j - n == i {
                    Complex::from(1)
                } else {
                    Complex::from(0)
                }
                });
    for col in 0..n
        invariant
            arithmetic::<R>(),
            evaluates(*math),
            n == a.height(),
            2 * n <= usize::MAX,
            floor == pivot_floor::<R>(),
            m.holds(
                n as int,
                2 * n,
                eliminated(augmented(a.entry(), n as int), usable_pivot(*math), col as nat),
            ),
    {
        let pivot = m.get(col, col);
        if !(pivot.norm(math) < floor) {
            m = reduce_column(&m, col);
        }
    }
    Matrix::build(
        n,
        n,
        |i: usize, j: usize| -> (z: Complex<R>)
            requires
                i < n,
                j < n,
            ensures
                z == inverse(a.entry(), usable_pivot(*math), n as int)(i as int, j as int),
                { m.get(i, j + n) })
}


// ---- inversion where nothing is rounded -------------------------------------

/// The right half of an augmented matrix.
pub open spec fn right_half<T>(m: spec_fn(int, int) -> T, n: int) -> spec_fn(int, int) -> T {
    |i: int, j: int| m(i, j + n)
}

/// Elimination passes over none of the columns before `cols`.
pub open spec fn pivots_used<T: Scalar>(
    a: spec_fn(int, int) -> T,
    usable: spec_fn(T) -> bool,
    n: int,
    cols: int,
) -> bool {
    forall|k: nat|
        k < cols ==> usable(
            #[trigger] eliminated(augmented(a, n), usable, k)(k as int, k as int),
        )
}

/// Elimination passes over no column.
pub open spec fn all_pivots_used<T: Scalar>(
    a: spec_fn(int, int) -> T,
    usable: spec_fn(T) -> bool,
    n: int,
) -> bool {
    pivots_used(a, usable, n, n)
}

/// Column `j` of a matrix.
pub open spec fn column<T>(m: spec_fn(int, int) -> T, j: int) -> spec_fn(int) -> T {
    |i: int| m(i, j)
}

/// A column of a product is the image of that column.
pub proof fn product_by_columns<T: Scalar>(
    a: spec_fn(int, int) -> T,
    b: spec_fn(int, int) -> T,
    n: nat,
    i: int,
    j: int,
)
    ensures
        product(a, b, n)(i, j) == image(a, column(b, j), n)(i),
{
    assert(product_terms(a, b, i, j) =~= image_terms(a, column(b, j), i));
}

/// What reduction of column `c` does to the images of a vector under the `n` columns from
/// column `o` on: it works on them as it works on the rows.
proof fn reduction_of_images<T: Scalar>(
    m: spec_fn(int, int) -> T,
    c: int,
    o: int,
    v: spec_fn(int) -> T,
    n: nat,
    i: int,
)
    requires
        field::<T>(),
        m(c, c) != whole::<T>(0),
    ensures
        ({
            let before = image(right_half(m, o), v, n);
            let after = image(right_half(reduced(m, c), o), v, n);
            &&& after(c) == over(before(c), m(c, c))
            &&& i != c ==> after(i) == minus(before(i), times(m(i, c), after(c)))
        }),
{
    let r = reduced(m, c);
    let p = m(c, c);
    let q = over(whole(1), p);
    let before = image(right_half(m, o), v, n);
    let after = image(right_half(r, o), v, n);
    let old_row = image_terms(right_half(m, o), v, c);
    let new_row = image_terms(right_half(r, o), v, c);
    assert forall|k: int| 0 <= k < n implies #[trigger] new_row(k) == times(q, old_row(k)) by {
        let x = m(c, k + o);
        times_one(x);
        over_of_product(whole(1), x, p);
        times_regroups(q, x, v(k));
    }
    total_of_multiples(q, old_row, new_row, n);
    times_one(before(c));
    over_of_product(whole(1), before(c), p);
    if i != c {
        let f = m(i, c);
        let g = negated(f);
        let old_terms = image_terms(right_half(m, o), v, i);
        let new_terms = image_terms(right_half(r, o), v, i);
        let lost = |k: int| times(g, new_row(k));
        assert forall|k: int| 0 <= k < n implies #[trigger] new_terms(k) == plus(
            old_terms(k),
            lost(k),
        ) by {
            let x = m(i, k + o);
            let y = r(c, k + o);
            minus_adds_opposite(x, times(f, y));
            opposite_of_product(f, y);
            times_distributes(v(k), x, times(g, y));
            times_regroups(g, y, v(k));
        }
        total_of_sums(old_terms, lost, new_terms, n);
        total_of_multiples(g, new_row, lost, n);
        minus_adds_opposite(before(i), times(f, after(c)));
        opposite_of_product(f, after(c));
    }
}

/// Reduction of a column keeps the left half the product of the right half and `a`.
proof fn reduction_keeps_the_product<T: Scalar>(
    a: spec_fn(int, int) -> T,
    m: spec_fn(int, int) -> T,
    c: int,
    n: int,
)
    requires
        field::<T>(),
        0 <= c < n,
        m(c, c) != whole::<T>(0),
        forall|i: int, j: int|
            0 <= i < n && 0 <= j < n ==> #[trigger] product(right_half(m, n), a, n as nat)(i, j)
                == m(i, j),
    ensures
        forall|i: int, j: int|
            0 <= i < n && 0 <= j < n ==> #[trigger] product(
                right_half(reduced(m, c), n),
                a,
                n as nat,
            )(i, j) == reduced(m, c)(i, j),
{
    let r = reduced(m, c);
    assert forall|i: int, j: int| 0 <= i < n && 0 <= j < n implies #[trigger] product(
        right_half(r, n),
        a,
        n as nat,
    )(i, j) == r(i, j) by {
        reduction_of_images(m, c, n, column(a, j), n as nat, i);
        product_by_columns(right_half(m, n), a, n as nat, i, j);
        product_by_columns(right_half(m, n), a, n as nat, c, j);
        product_by_columns(right_half(r, n), a, n as nat, i, j);
        assert(product(right_half(m, n), a, n as nat)(i, j) == m(i, j));
        assert(product(right_half(m, n), a, n as nat)(c, j) == m(c, j));
    }
}

/// Reduction of a column makes it a column of the identity, and keeps those before it.
proof fn reduction_clears_the_column<T: Scalar>(m: spec_fn(int, int) -> T, c: int, n: int)
    requires
        field::<T>(),
        0 <= c < n,
        m(c, c) != whole::<T>(0),
        forall|i: int, j: int|
            0 <= i < n && 0 <= j < c ==> #[trigger] m(i, j) == identity::<T>()(i, j),
    ensures
        forall|i: int, j: int|
            0 <= i < n && 0 <= j <= c ==> #[trigger] reduced(m, c)(i, j) == identity::<T>()(i, j),
{
    let p = m(c, c);
    assert forall|i: int, j: int| 0 <= i < n && 0 <= j <= c implies #[trigger] reduced(m, c)(i, j)
        == identity::<T>()(i, j) by {
        if j == c {
            over_itself(p);
            times_one(m(i, c));
            opposites_cancel(m(i, c));
        } else {
            assert(m(c, j) == whole::<T>(0));
            nothing_over(p);
            times_nothing(m(i, c));
            opposite_of_nothing::<T>();
            minus_adds_opposite(m(i, j), whole(0));
            plus_nothing(m(i, j));
            assert(m(i, j) == identity::<T>()(i, j));
        }
    }
}

/// What holds after each column of an elimination that passes over none: the left half is
/// the product of the right half and `a`, the columns of the left half that are done are
/// those of the identity, and the columns of the right half that are not done still are.
proof fn elimination_advances<T: Scalar>(
    a: spec_fn(int, int) -> T,
    usable: spec_fn(T) -> bool,
    n: int,
    cols: nat,
)
    requires
        field::<T>(),
        forall|z: T| #[trigger] usable(z) ==> z != whole::<T>(0),
        pivots_used(a, usable, n, cols as int),
        cols <= n,
    ensures
        ({
            let m = eliminated(augmented(a, n), usable, cols);
            &&& forall|i: int, j: int|
                0 <= i < n && 0 <= j < n ==> #[trigger] product(
                    right_half(m, n),
                    a,
                    n as nat,
                )(i, j) == m(i, j)
            &&& forall|i: int, j: int|
                0 <= i < n && 0 <= j < cols ==> #[trigger] m(i, j) == identity::<T>()(i, j)
            &&& forall|i: int, j: int|
                0 <= i < n && cols <= j < n ==> #[trigger] right_half(m, n)(i, j)
                    == identity::<T>()(i, j)
        }),
    decreases cols,
{
    if cols == 0 {
        let m = augmented(a, n);
        assert forall|i: int, j: int| 0 <= i < n && 0 <= j < n implies #[trigger] product(
            right_half(m, n),
            a,
            n as nat,
        )(i, j) == m(i, j) by {
            let terms = product_terms(right_half(m, n), a, i, j);
            assert forall|k: int| 0 <= k < n && k != i implies #[trigger] terms(k) == whole::<T>(
                0,
            ) by {
                times_nothing(a(k, j));
            }
            total_of_one(terms, i, n as nat);
            times_one(a(i, j));
        }
    } else {
        let c = (cols - 1) as nat;
        let m = eliminated(augmented(a, n), usable, c);
        elimination_advances(a, usable, n, c);
        assert(usable(m(c as int, c as int)));
        reduction_keeps_the_product(a, m, c as int, n);
        reduction_clears_the_column(m, c as int, n);
        let after = reduced(m, c as int);
        assert forall|i: int, j: int| 0 <= i < n && cols <= j < n implies #[trigger] right_half(
            after,
            n,
        )(i, j) == identity::<T>()(i, j) by {
            assert(right_half(m, n)(i, j) == identity::<T>()(i, j));
            assert(right_half(m, n)(c as int, j) == identity::<T>()(c as int, j));
            nothing_over(m(c as int, c as int));
            times_nothing(m(i, c as int));
            opposite_of_nothing::<T>();
            minus_adds_opposite(m(i, j + n), whole(0));
            plus_nothing(m(i, j + n));
        }
    }
}

/// What holds of entry `(i, j)` after the first `cols` columns of an elimination that passes
/// over none of them.
pub proof fn elimination_stage<T: Scalar>(
    a: spec_fn(int, int) -> T,
    usable: spec_fn(T) -> bool,
    n: int,
    cols: nat,
    i: int,
    j: int,
)
    requires
        field::<T>(),
        forall|z: T| #[trigger] usable(z) ==> z != whole::<T>(0),
        pivots_used(a, usable, n, cols as int),
        cols <= n,
        0 <= i < n,
        0 <= j < n,
    ensures
        ({
            let m = eliminated(augmented(a, n), usable, cols);
            &&& product(right_half(m, n), a, n as nat)(i, j) == m(i, j)
            &&& j < cols ==> m(i, j) == identity::<T>()(i, j)
            &&& cols <= j ==> m(i, j + n) == identity::<T>()(i, j)
        }),
{
    elimination_advances(a, usable, n, cols);
    let m = eliminated(augmented(a, n), usable, cols);
    assert(product(right_half(m, n), a, n as nat)(i, j) == m(i, j));
    assert(right_half(m, n)(i, j) == m(i, j + n));
}

/// Where nothing is rounded and no column is passed over, the inverse times the matrix is
/// the identity.
pub proof fn inverse_inverts<T: Scalar>(
    a: spec_fn(int, int) -> T,
    usable: spec_fn(T) -> bool,
    n: int,
    i: int,
    j: int,
)
    requires
        field::<T>(),
        forall|z: T| #[trigger] usable(z) ==> z != whole::<T>(0),
        all_pivots_used(a, usable, n),
        0 <= i < n,
        0 <= j < n,
    ensures
        product(inverse(a, usable, n), a, n as nat)(i, j) == identity::<T>()(i, j),
{
    let m = eliminated(augmented(a, n), usable, n as nat);
    elimination_advances(a, usable, n, n as nat);
    assert(product(right_half(m, n), a, n as nat)(i, j) == m(i, j));
    assert(right_half(m, n) =~= inverse(a, usable, n));
}

/// The vector that the left half takes to the image of `b` under the right half, it takes
/// there before a reduction if it does so after it.
proof fn reduction_keeps_solutions<T: Scalar>(
    m: spec_fn(int, int) -> T,
    c: int,
    n: int,
    x: spec_fn(int) -> T,
    b: spec_fn(int) -> T,
    i: int,
)
    requires
        field::<T>(),
        0 <= c < n,
        0 <= i < n,
        m(c, c) != whole::<T>(0),
        forall|k: int|
            0 <= k < n ==> #[trigger] image(right_half(reduced(m, c), 0), x, n as nat)(k) == image(
                right_half(reduced(m, c), n),
                b,
                n as nat,
            )(k),
    ensures
        image(right_half(m, 0), x, n as nat)(i) == image(right_half(m, n), b, n as nat)(i),
{
    let r = reduced(m, c);
    let (l0, l1) = (image(right_half(m, 0), x, n as nat), image(right_half(r, 0), x, n as nat));
    let (r0, r1) = (image(right_half(m, n), b, n as nat), image(right_half(r, n), b, n as nat));
    reduction_of_images(m, c, 0, x, n as nat, i);
    reduction_of_images(m, c, n, b, n as nat, i);
    assert(l1(c) == r1(c));
    assert(l1(i) == r1(i));
    over_undoes_times(l0(c), m(c, c));
    over_undoes_times(r0(c), m(c, c));
    if i != c {
        let lost = negated(times(m(i, c), l1(c)));
        minus_adds_opposite(l0(i), times(m(i, c), l1(c)));
        minus_adds_opposite(r0(i), times(m(i, c), r1(c)));
        plus_cancels(l0(i), r0(i), lost);
    }
}

/// The image of `b` under the final right half solves the equations of every stage.
proof fn solution_of_every_stage<T: Scalar>(
    a: spec_fn(int, int) -> T,
    usable: spec_fn(T) -> bool,
    n: int,
    b: spec_fn(int) -> T,
    cols: nat,
)
    requires
        field::<T>(),
        forall|z: T| #[trigger] usable(z) ==> z != whole::<T>(0),
        all_pivots_used(a, usable, n),
        cols <= n,
    ensures
        ({
            let m = eliminated(augmented(a, n), usable, cols);
            let x = image(inverse(a, usable, n), b, n as nat);
            forall|i: int|
                0 <= i < n ==> #[trigger] image(right_half(m, 0), x, n as nat)(i) == image(
                    right_half(m, n),
                    b,
                    n as nat,
                )(i)
        }),
    decreases n - cols,
{
    let m = eliminated(augmented(a, n), usable, cols);
    let x = image(inverse(a, usable, n), b, n as nat);
    if cols == n {
        elimination_advances(a, usable, n, n as nat);
        assert(right_half(m, n) =~= inverse(a, usable, n));
        assert forall|i: int| 0 <= i < n implies #[trigger] image(right_half(m, 0), x, n as nat)(i)
            == image(right_half(m, n), b, n as nat)(i) by {
            let terms = image_terms(right_half(m, 0), x, i);
            assert forall|k: int| 0 <= k < n && k != i implies #[trigger] terms(k) == whole::<T>(
                0,
            ) by {
                assert(m(i, k) == identity::<T>()(i, k));
                times_nothing(x(k));
            }
            total_of_one(terms, i, n as nat);
            assert(m(i, i) == identity::<T>()(i, i));
            times_one(x(i));
        }
    } else {
        solution_of_every_stage(a, usable, n, b, cols + 1);
        let c = cols as int;
        assert(usable(m(c, c)));
        assert(eliminated(augmented(a, n), usable, cols + 1) == reduced(m, c));
        assert forall|i: int| 0 <= i < n implies #[trigger] image(right_half(m, 0), x, n as nat)(i)
            == image(right_half(m, n), b, n as nat)(i) by {
            reduction_keeps_solutions(m, c, n, x, b, i);
        }
    }
}

/// Where nothing is rounded and no column is passed over, the inverse solves every system
/// of equations: the matrix takes the image of `b` under the inverse to `b`.
pub proof fn inverse_solves<T: Scalar>(
    a: spec_fn(int, int) -> T,
    usable: spec_fn(T) -> bool,
    n: int,
    b: spec_fn(int) -> T,
    i: int,
)
    requires
        field::<T>(),
        forall|z: T| #[trigger] usable(z) ==> z != whole::<T>(0),
        all_pivots_used(a, usable, n),
        0 <= i < n,
    ensures
        image(a, image(inverse(a, usable, n), b, n as nat), n as nat)(i) == b(i),
{
    let m = augmented(a, n);
    let x = image(inverse(a, usable, n), b, n as nat);
    solution_of_every_stage(a, usable, n, b, 0);
    assert(eliminated(m, usable, 0) == m);
    assert(image(right_half(m, 0), x, n as nat)(i) == image(right_half(m, n), b, n as nat)(i));
    equal_terms(
        whole(0),
        image_terms(right_half(m, 0), x, i),
        image_terms(a, x, i),
        n as nat,
    );
    let terms = image_terms(right_half(m, n), b, i);
    assert forall|k: int| 0 <= k < n && k != i implies #[trigger] terms(k) == whole::<T>(0) by {
        times_nothing(b(k));
    }
    total_of_one(terms, i, n as nat);
    times_one(b(i));
}

/// The conjugate transpose of the conjugate transpose is the matrix itself.
pub proof fn adjoint_twice<R: Real>(a: spec_fn(int, int) -> Complex<R>, i: int, j: int)
    requires
        field::<R>(),
    ensures
        adjoint(adjoint(a))(i, j) == a(i, j),
{
    opposite_twice(a(i, j).im);
}

// ---- products where nothing is rounded --------------------------------------

/// A product of three matrices does not depend on which two are multiplied first.
pub proof fn products_regroup<T: Scalar>(
    a: spec_fn(int, int) -> T,
    b: spec_fn(int, int) -> T,
    c: spec_fn(int, int) -> T,
    n: nat,
    m: nat,
    i: int,
    j: int,
)
    requires
        field::<T>(),
    ensures
        product(a, product(b, c, m), n)(i, j) == product(product(a, b, n), c, m)(i, j),
    decreases n,
{
    let bc = product(b, c, m);
    let ab = product(a, b, n);
    let left = product_terms(a, bc, i, j);
    let right = product_terms(ab, c, i, j);
    if n == 0 {
        assert forall|r: int| 0 <= r < m implies #[trigger] right(r) == whole::<T>(0) by {
            times_nothing(c(r, j));
        }
        total_of_nothing(right, m);
    } else {
        let l = n - 1;
        let shorter = product_terms(product(a, b, l as nat), c, i, j);
        products_regroup(a, b, c, l as nat, m, i, j);
        // What row `l` adds.
        let inner = product_terms(b, c, l, j);
        let added = |r: int| times(a(i, l), inner(r));
        total_of_multiples(a(i, l), inner, added, m);
        assert forall|r: int| 0 <= r < m implies #[trigger] right(r) == plus(
            shorter(r),
            added(r),
        ) by {
            times_distributes(c(r, j), product(a, b, l as nat)(i, r), times(a(i, l), b(l, r)));
            times_regroups(a(i, l), b(l, r), c(r, j));
        }
        total_of_sums(shorter, added, right, m);
    }
}

/// The identity times a matrix is the matrix.
pub proof fn identity_times<T: Scalar>(a: spec_fn(int, int) -> T, n: nat, i: int, j: int)
    requires
        field::<T>(),
        0 <= i < n,
    ensures
        product(identity(), a, n)(i, j) == a(i, j),
{
    let terms = product_terms(identity(), a, i, j);
    assert forall|k: int| 0 <= k < n && k != i implies #[trigger] terms(k) == whole::<T>(0) by {
        times_nothing(a(k, j));
    }
    total_of_one(terms, i, n);
    times_one(a(i, j));
}

/// A matrix times the identity is the matrix.
pub proof fn times_identity<T: Scalar>(a: spec_fn(int, int) -> T, n: nat, i: int, j: int)
    requires
        field::<T>(),
        0 <= j < n,
    ensures
        product(a, identity(), n)(i, j) == a(i, j),
{
    let terms = product_terms(a, identity(), i, j);
    assert forall|k: int| 0 <= k < n && k != j implies #[trigger] terms(k) == whole::<T>(0) by {
        times_nothing(a(i, k));
    }
    total_of_one(terms, j, n);
    times_one(a(i, j));
}

/// Where nothing is rounded and no column is passed over, the matrix times its inverse is
/// the identity.
pub proof fn inverse_inverts_on_the_right<T: Scalar>(
    a: spec_fn(int, int) -> T,
    usable: spec_fn(T) -> bool,
    n: int,
    i: int,
    j: int,
)
    requires
        field::<T>(),
        forall|z: T| #[trigger] usable(z) ==> z != whole::<T>(0),
        all_pivots_used(a, usable, n),
        0 <= i < n,
        0 <= j < n,
    ensures
        product(a, inverse(a, usable, n), n as nat)(i, j) == identity::<T>()(i, j),
{
    let b = inverse(a, usable, n);
    let e = column(identity::<T>(), j);
    inverse_solves(a, usable, n, e, i);
    assert forall|k: int| 0 <= k < n implies #[trigger] image(b, e, n as nat)(k) == column(b, j)(
        k,
    ) by {
        product_by_columns(b, identity(), n as nat, k, j);
        times_identity(b, n as nat, k, j);
    }
    equal_terms(
        whole(0),
        image_terms(a, image(b, e, n as nat), i),
        image_terms(a, column(b, j), i),
        n as nat,
    );
    product_by_columns(a, b, n as nat, i, j);
}

/// Where nothing is rounded and no column is passed over, inverting twice gives the matrix
/// back.
pub proof fn inverse_of_inverse<T: Scalar>(
    a: spec_fn(int, int) -> T,
    usable: spec_fn(T) -> bool,
    n: int,
    i: int,
    j: int,
)
    requires
        field::<T>(),
        forall|z: T| #[trigger] usable(z) ==> z != whole::<T>(0),
        all_pivots_used(a, usable, n),
        all_pivots_used(inverse(a, usable, n), usable, n),
        0 <= i < n,
        0 <= j < n,
    ensures
        inverse(inverse(a, usable, n), usable, n)(i, j) == a(i, j),
{
    let b = inverse(a, usable, n);
    let c = inverse(b, usable, n);
    let ba = product(b, a, n as nat);
    let cb = product(c, b, n as nat);
    products_regroup(c, b, a, n as nat, n as nat, i, j);
    assert forall|k: int| 0 <= k < n implies #[trigger] ba(k, j) == identity::<T>()(k, j) by {
        inverse_inverts(a, usable, n, k, j);
    }
    assert forall|k: int| 0 <= k < n implies #[trigger] cb(i, k) == identity::<T>()(i, k) by {
        inverse_inverts(b, usable, n, i, k);
    }
    equal_products(c, ba, c, identity(), n as nat, i, j);
    equal_products(cb, a, identity(), a, n as nat, i, j);
    times_identity(c, n as nat, i, j);
    identity_times(a, n as nat, i, j);
}

} // verus!
