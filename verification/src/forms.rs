//! Hermitian forms where nothing is rounded, and matrices that are definite.
use vstd::prelude::*;
use crate::complex::{conjugate, modulus, power, Complex};
use crate::exact::{
    at_most, complex_field, conjugate_of_product, conjugate_of_sum, conjugate_twice, counts_add,
    counts_keep_order, field, one_is_positive, opposite_of_nothing, order_chains, order_decides,
    order_is_total, ordered_field, ordered_powers_tell, plus_commutes, plus_keeps_order,
    plus_nothing, power_is_product, powers_tell, products_have_signs, quotients_have_signs,
    squares_are_positive, squares_tell, sums_keep_order, times_commutes, times_keeps_order,
    times_nothing, times_one, total_of_one,
};
use crate::linalg::{
    adjoint, adjoint_twice, all_pivots_used, augmented, column, eliminated, elimination_stage,
    identity, image, image_terms, inner_terms, inverse, inverse_inverts,
    inverse_inverts_on_the_right, inverse_of_inverse, pivot_floor, pivots_used, product,
    product_by_columns, product_terms, products_regroup, right_half, usable_pivot,
};
use crate::scalar::{equal_terms, less, times, total, whole, Elementary, Real};
use crate::similarity::{hermitian, inner, inner_is_hermitian, orthonormal};

verus! {

/// The form of `a` at `x` and `y`: the inner product of `x` and the image of `y`.
pub open spec fn form<R: Real>(
    a: spec_fn(int, int) -> Complex<R>,
    x: spec_fn(int) -> Complex<R>,
    y: spec_fn(int) -> Complex<R>,
    n: nat,
) -> Complex<R> {
    inner(x, image(a, y, n), n)
}

/// A vector as a matrix of one column.
pub open spec fn upright<T>(y: spec_fn(int) -> T) -> spec_fn(int, int) -> T {
    |i: int, j: int| y(i)
}

/// The conjugate of a vector as a matrix of one row.
pub open spec fn lying<R: Real>(x: spec_fn(int) -> Complex<R>) -> spec_fn(int, int) -> Complex<R> {
    |i: int, j: int| conjugate(x(j))
}

/// A form can be taken from the left: as the product of the row that `x` makes with the
/// matrix, and `y`.
pub proof fn form_from_the_left<R: Real>(
    a: spec_fn(int, int) -> Complex<R>,
    x: spec_fn(int) -> Complex<R>,
    y: spec_fn(int) -> Complex<R>,
    n: nat,
)
    requires
        field::<R>(),
        powers_tell::<R>(),
    ensures
        form(a, x, y, n) == product(product(lying(x), a, n), upright(y), n)(0, 0),
{
    complex_field::<R>();
    let ay = product(a, upright(y), n);
    assert forall|k: int| 0 <= k < n implies #[trigger] ay(k, 0) == image(a, y, n)(k) by {
        product_by_columns(a, upright(y), n, k, 0);
        assert(column(upright(y), 0) =~= y);
    }
    equal_terms(
        whole(0),
        product_terms(lying(x), ay, 0, 0),
        inner_terms(x, image(a, y, n)),
        n,
    );
    products_regroup(lying(x), a, upright(y), n, n, 0, 0);
}

/// The row that `x` makes with a Hermitian matrix holds the conjugates of the image of `x`.
proof fn row_of_hermitian<R: Real>(
    a: spec_fn(int, int) -> Complex<R>,
    x: spec_fn(int) -> Complex<R>,
    n: nat,
    m: nat,
    l: int,
)
    requires
        field::<R>(),
        powers_tell::<R>(),
        hermitian(a, n),
        m <= n,
        0 <= l < n,
    ensures
        total(whole(0), product_terms(lying(x), a, 0, l), m) == conjugate(
            total(whole(0), image_terms(a, x, l), m),
        ),
    decreases m,
{
    complex_field::<R>();
    if m == 0 {
        opposite_of_nothing::<R>();
    } else {
        let k = m - 1;
        row_of_hermitian(a, x, n, k as nat, l);
        conjugate_of_sum(total(whole(0), image_terms(a, x, l), k as nat), times(a(l, k), x(k)));
        conjugate_of_product(a(l, k), x(k));
        assert(a(k, l) == conjugate(a(l, k)));
        times_commutes(conjugate(x(k)), a(k, l));
    }
}

/// The form of a Hermitian matrix turns into its conjugate where its operands change places.
pub proof fn form_is_hermitian<R: Real>(
    a: spec_fn(int, int) -> Complex<R>,
    x: spec_fn(int) -> Complex<R>,
    y: spec_fn(int) -> Complex<R>,
    n: nat,
)
    requires
        field::<R>(),
        powers_tell::<R>(),
        hermitian(a, n),
    ensures
        form(a, x, y, n) == conjugate(form(a, y, x, n)),
{
    form_from_the_left(a, x, y, n);
    let row = product(lying(x), a, n);
    let ax = image(a, x, n);
    assert forall|l: int| 0 <= l < n implies #[trigger] product_terms(row, upright(y), 0, 0)(l)
        == inner_terms(ax, y)(l) by {
        row_of_hermitian(a, x, n, n, l);
    }
    equal_terms(whole(0), product_terms(row, upright(y), 0, 0), inner_terms(ax, y), n);
    inner_is_hermitian(ax, y, n);
}

/// The row that `z` makes with a matrix holds the conjugates of the image of `z` under its
/// adjoint.
proof fn row_and_adjoint<R: Real>(
    x: spec_fn(int, int) -> Complex<R>,
    z: spec_fn(int) -> Complex<R>,
    n: nat,
    k: int,
)
    requires
        field::<R>(),
        powers_tell::<R>(),
    ensures
        product(lying(z), x, n)(0, k) == conjugate(image(adjoint(x), z, n)(k)),
    decreases n,
{
    complex_field::<R>();
    if n == 0 {
        opposite_of_nothing::<R>();
    } else {
        let i = n - 1;
        row_and_adjoint(x, z, i as nat, k);
        let term = times(conjugate(x(i, k)), z(i));
        conjugate_of_sum(image(adjoint(x), z, i as nat)(k), term);
        conjugate_of_product(conjugate(x(i, k)), z(i));
        conjugate_twice(x(i, k));
        times_commutes(x(i, k), conjugate(z(i)));
    }
}

/// The form of a product of `m` columns with their own adjoint is the length of the image of
/// the vector under the adjoint.
pub proof fn form_of_gram<R: Real>(
    x: spec_fn(int, int) -> Complex<R>,
    z: spec_fn(int) -> Complex<R>,
    n: nat,
    m: nat,
)
    requires
        field::<R>(),
        powers_tell::<R>(),
    ensures
        form(product(x, adjoint(x), m), z, z, n) == inner(
            image(adjoint(x), z, n),
            image(adjoint(x), z, n),
            m,
        ),
{
    complex_field::<R>();
    let gram = product(x, adjoint(x), m);
    let y = image(adjoint(x), z, n);
    let row = product(lying(z), x, n);
    form_from_the_left(gram, z, z, n);
    assert forall|l: int| 0 <= l < n implies #[trigger] product_terms(
        product(lying(z), gram, n),
        upright(z),
        0,
        0,
    )(l) == product_terms(product(row, adjoint(x), m), upright(z), 0, 0)(l) by {
        products_regroup(lying(z), x, adjoint(x), n, m, 0, l);
    }
    equal_terms(
        whole(0),
        product_terms(product(lying(z), gram, n), upright(z), 0, 0),
        product_terms(product(row, adjoint(x), m), upright(z), 0, 0),
        n,
    );
    products_regroup(row, adjoint(x), upright(z), m, n, 0, 0);
    let right = product(adjoint(x), upright(z), n);
    assert forall|k: int| 0 <= k < m implies #[trigger] product_terms(row, right, 0, 0)(k)
        == inner_terms(y, y)(k) by {
        row_and_adjoint(x, z, n, k);
        product_by_columns(adjoint(x), upright(z), n, k, 0);
        assert(column(upright(z), 0) =~= z);
    }
    equal_terms(whole(0), product_terms(row, right, 0, 0), inner_terms(y, y), m);
}

/// Orthonormal columns keep lengths: their combination with the factors `y` is as long as `y`.
pub proof fn orthonormal_columns_keep_length<R: Real>(
    v: spec_fn(int, int) -> Complex<R>,
    y: spec_fn(int) -> Complex<R>,
    n: nat,
)
    requires
        field::<R>(),
        powers_tell::<R>(),
        orthonormal(v, n),
    ensures
        inner(image(v, y, n), image(v, y, n), n) == inner(y, y, n),
{
    complex_field::<R>();
    let turned = adjoint(v);
    let back = adjoint(turned);
    assert forall|i: int, j: int| #[trigger] back(i, j) == v(i, j) by {
        adjoint_twice(v, i, j);
    }
    assert(back =~= v);
    form_of_gram(turned, y, n, n);
    let gram = product(turned, v, n);
    let gy = image(gram, y, n);
    assert forall|i: int| 0 <= i < n implies #[trigger] gy(i) == y(i) by {
        let terms = image_terms(gram, y, i);
        assert forall|k: int| 0 <= k < n implies #[trigger] gram(i, k) == identity::<Complex<R>>()(
            i,
            k,
        ) by {
            assert(product_terms(turned, v, i, k) =~= inner_terms(column(v, i), column(v, k)));
            assert(inner(column(v, i), column(v, k), n) == identity::<Complex<R>>()(i, k));
        }
        assert forall|k: int| 0 <= k < n && k != i implies #[trigger] terms(k) == whole::<
            Complex<R>,
        >(0) by {
            assert(gram(i, k) == identity::<Complex<R>>()(i, k));
            times_commutes(whole(0), y(k));
            times_nothing(y(k));
        }
        total_of_one(terms, i, n);
        assert(gram(i, i) == identity::<Complex<R>>()(i, i));
        times_commutes(whole(1), y(i));
        times_one(y(i));
    }
    equal_terms(whole(0), inner_terms(y, gy), inner_terms(y, y), n);
}

/// The matrix is definite beyond the floor under pivots: at every vector with an entry of
/// one, its form is not below that floor.
pub open spec fn definite<R: Real, M: Fn(Elementary<R>) -> R>(
    math: M,
    a: spec_fn(int, int) -> Complex<R>,
    n: nat,
) -> bool {
    forall|z: spec_fn(int) -> Complex<R>, c: int|
        #![trigger form(a, z, z, n), z(c)]
        0 <= c < n && z(c) == whole::<Complex<R>>(1) ==> !less(
            modulus(math, form(a, z, z, n)),
            pivot_floor(),
        )
}

/// A pivot is the form of the matrix at a vector with an entry of one.
proof fn pivot_is_a_form<R: Real, M: Fn(Elementary<R>) -> R>(
    math: M,
    a: spec_fn(int, int) -> Complex<R>,
    n: nat,
    c: nat,
) -> (z: spec_fn(int) -> Complex<R>)
    requires
        field::<R>(),
        powers_tell::<R>(),
        less(modulus(math, whole(0)), pivot_floor()),
        pivots_used(a, usable_pivot(math), n as int, c as int),
        c < n,
    ensures
        z(c as int) == whole::<Complex<R>>(1),
        form(a, z, z, n) == eliminated(augmented(a, n as int), usable_pivot(math), c)(
            c as int,
            c as int,
        ),
{
    complex_field::<R>();
    let m = eliminated(augmented(a, n as int), usable_pivot(math), c);
    let b = right_half(m, n as int);
    let r = c as int;
    let z = |k: int| conjugate(b(r, k));
    elimination_stage(a, usable_pivot(math), n as int, c, r, r);
    opposite_of_nothing::<R>();
    assert(b(r, r) == identity::<Complex<R>>()(r, r));
    form_from_the_left(a, z, z, n);
    // The row that the vector makes with the matrix is the row of the pivot.
    let row = product(lying(z), a, n);
    assert forall|l: int| 0 <= l < n implies #[trigger] row(0, l) == m(r, l) by {
        assert forall|k: int| 0 <= k < n implies #[trigger] product_terms(lying(z), a, 0, l)(k)
            == product_terms(b, a, r, l)(k) by {
            conjugate_twice(b(r, k));
        }
        equal_terms(whole(0), product_terms(lying(z), a, 0, l), product_terms(b, a, r, l), n);
        elimination_stage(a, usable_pivot(math), n as int, c, r, l);
    }
    // In it only the pivot meets an entry of the vector that is not nothing.
    let terms = product_terms(row, upright(z), 0, 0);
    assert forall|l: int| 0 <= l < n && l != r implies #[trigger] terms(l) == whole::<
        Complex<R>,
    >(0) by {
        assert(row(0, l) == m(r, l));
        elimination_stage(a, usable_pivot(math), n as int, c, r, l);
        if l < r {
            assert(m(r, l) == identity::<Complex<R>>()(r, l));
            times_nothing(z(l));
        } else {
            assert(b(r, l) == identity::<Complex<R>>()(r, l));
            times_nothing(row(0, l));
        }
    }
    total_of_one(terms, r, n);
    assert(row(0, r) == m(r, r));
    times_one(m(r, r));
    z
}

/// Where nothing is rounded, elimination passes over no column of a definite matrix.
pub proof fn definite_matrices_use_every_pivot<R: Real, M: Fn(Elementary<R>) -> R>(
    math: M,
    a: spec_fn(int, int) -> Complex<R>,
    n: nat,
)
    requires
        field::<R>(),
        powers_tell::<R>(),
        less(modulus(math, whole(0)), pivot_floor()),
        definite(math, a, n),
    ensures
        all_pivots_used(a, usable_pivot(math), n as int),
{
    pivots_before_are_used(math, a, n, n);
}

proof fn pivots_before_are_used<R: Real, M: Fn(Elementary<R>) -> R>(
    math: M,
    a: spec_fn(int, int) -> Complex<R>,
    n: nat,
    cols: nat,
)
    requires
        field::<R>(),
        powers_tell::<R>(),
        less(modulus(math, whole(0)), pivot_floor()),
        definite(math, a, n),
        cols <= n,
    ensures
        pivots_used(a, usable_pivot(math), n as int, cols as int),
    decreases cols,
{
    if cols > 0 {
        let c = (cols - 1) as nat;
        pivots_before_are_used(math, a, n, c);
        let z = pivot_is_a_form(math, a, n, c);
        assert(z(c as int) == whole::<Complex<R>>(1));
        assert(!less(modulus(math, form(a, z, z, n)), pivot_floor()));
    }
}

/// The inner product of a vector with itself is at least the power of any of its entries.
pub proof fn entries_are_part_of_the_length<R: Real>(z: spec_fn(int) -> Complex<R>, n: nat, c: int)
    requires
        ordered_field::<R>(),
    ensures
        at_most(whole(0), inner(z, z, n).re),
        0 <= c < n ==> at_most(power(z(c)), inner(z, z, n).re),
    decreases n,
{
    order_is_total::<R>();
    order_decides(whole::<R>(0), whole(0));
    if n > 0 {
        let k = n - 1;
        entries_are_part_of_the_length(z, k as nat, c);
        let before = inner(z, z, k as nat).re;
        let own = power(z(k));
        power_is_product(z(k));
        ordered_powers_tell::<R>();
        complex_field::<R>();
        times_commutes(conjugate(z(k)), z(k));
        squares_are_positive(z(k).re);
        squares_are_positive(z(k).im);
        plus_nothing(whole::<R>(0));
        sums_keep_order(whole(0), times(z(k).re, z(k).re), whole(0), times(z(k).im, z(k).im));
        sums_keep_order(whole(0), before, whole(0), own);
        if 0 <= c < k {
            plus_nothing(power(z(c)));
            sums_keep_order(power(z(c)), before, whole(0), own);
        } else if c == k {
            order_decides(own, own);
            plus_nothing(own);
            sums_keep_order(whole(0), before, own, own);
        }
    }
}

/// Moduli are at least nothing, and their squares are the powers.
pub open spec fn measures_lengths<R: Real, M: Fn(Elementary<R>) -> R>(math: M) -> bool {
    forall|z: Complex<R>|
        {
            &&& at_most(whole(0), #[trigger] modulus(math, z))
            &&& times(modulus(math, z), modulus(math, z)) == power(z)
        }
}

/// Where moduli are exact, that of nothing is below the floor under pivots.
pub proof fn nothing_is_no_pivot<R: Real, M: Fn(Elementary<R>) -> R>(math: M)
    requires
        ordered_field::<R>(),
        counts_add::<R>(),
        measures_lengths(math),
    ensures
        less(whole::<R>(0), pivot_floor()),
        less(modulus(math, whole(0)), pivot_floor()),
{
    order_is_total::<R>();
    one_is_positive::<R>();
    counts_keep_order::<R>(0, 1_000_000);
    let million: R = whole(1_000_000);
    order_decides(whole(0), million);
    products_have_signs(million, million);
    quotients_have_signs(whole(1), times(million, million));
    let m = modulus(math, whole(0));
    assert(times(m, m) == power(whole::<Complex<R>>(0)));
    times_nothing(whole::<R>(0));
    plus_nothing(whole::<R>(0));
    squares_are_positive(m);
    order_decides(whole::<R>(0), times(m, m));
}

/// A matrix whose form is at least `least` times the length of the vector, as that of a
/// positive definite matrix with eigenvalues from `least` on, is definite where `least` is
/// not below the floor under pivots.
pub proof fn bounded_forms_are_definite<R: Real, M: Fn(Elementary<R>) -> R>(
    math: M,
    a: spec_fn(int, int) -> Complex<R>,
    n: nat,
    least: R,
)
    requires
        ordered_field::<R>(),
        measures_lengths(math),
        at_most(whole(0), least),
        at_most(pivot_floor(), least),
        forall|z: spec_fn(int) -> Complex<R>|
            at_most(times(inner(z, z, n).re, least), (#[trigger] form(a, z, z, n)).re),
    ensures
        definite(math, a, n),
{
    order_is_total::<R>();
    assert forall|z: spec_fn(int) -> Complex<R>, c: int|
        #![trigger form(a, z, z, n), z(c)]
        0 <= c < n && z(c) == whole::<Complex<R>>(1) implies !less(
        modulus(math, form(a, z, z, n)),
        pivot_floor(),
    ) by {
        let f = form(a, z, z, n);
        let m = modulus(math, f);
        let length = inner(z, z, n).re;
        let one: R = whole(1);
        entries_are_part_of_the_length(z, n, c);
        times_one(one);
        times_nothing(whole::<R>(0));
        plus_nothing(one);
        assert(power(z(c)) == one);
        times_keeps_order(one, length, least);
        times_one(least);
        assert(at_most(times(length, least), f.re));
        order_chains(least, times(length, least), f.re);
        // The modulus is at least the real part.
        squares_are_positive(f.im);
        plus_keeps_order(whole(0), times(f.im, f.im), times(f.re, f.re));
        plus_nothing(times(f.re, f.re));
        plus_commutes(times(f.im, f.im), times(f.re, f.re));
        squares_tell(f.re, m);
        order_chains(least, f.re, m);
        order_chains(pivot_floor(), least, m);
    }
}

/// Where nothing is rounded, a definite matrix is inverted from both sides, and where its
/// inverse is definite too, inverting twice gives the matrix back.
pub proof fn definite_matrices_are_inverted<R: Real, M: Fn(Elementary<R>) -> R>(
    math: M,
    a: spec_fn(int, int) -> Complex<R>,
    n: nat,
    i: int,
    j: int,
)
    requires
        field::<R>(),
        powers_tell::<R>(),
        less(modulus(math, whole(0)), pivot_floor()),
        definite(math, a, n),
        0 <= i < n,
        0 <= j < n,
    ensures
        ({
            let b = inverse(a, usable_pivot(math), n as int);
            &&& product(a, b, n)(i, j) == identity::<Complex<R>>()(i, j)
            &&& product(b, a, n)(i, j) == identity::<Complex<R>>()(i, j)
            &&& definite(math, b, n) ==> inverse(b, usable_pivot(math), n as int)(i, j) == a(i, j)
        }),
{
    complex_field::<R>();
    let b = inverse(a, usable_pivot(math), n as int);
    definite_matrices_use_every_pivot(math, a, n);
    inverse_inverts(a, usable_pivot(math), n as int, i, j);
    inverse_inverts_on_the_right(a, usable_pivot(math), n as int, i, j);
    if definite(math, b, n) {
        definite_matrices_use_every_pivot(math, b, n);
        inverse_of_inverse(a, usable_pivot(math), n as int, i, j);
    }
}

} // verus!
