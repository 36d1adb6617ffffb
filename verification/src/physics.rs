//! What separates a real array from an ideal one: element patterns, mutual coupling,
//! phase quantization, element failures and beam squint.
use vstd::prelude::*;
use vstd::arithmetic::power2::{
    lemma2_to64, lemma_pow2_strictly_increases, lemma_pow2_unfold, pow2,
};
use core::ops::Neg;
use crate::array::full_turn;
use crate::complex::{angle, conjugate, modulus, phasor, polar, power, Complex};
use crate::exact::{
    at_most, counts_add, counts_keep_order, field, on_circle, order_chains, order_decides,
    order_is_total, ordered_field, over_of_product, over_undoes_times, phasors_have_power_one,
    power_of_product, powers_tell, times_distributes, times_distributes_minus, times_exchanges,
    times_keeps_order, times_nothing, times_one,
};
use crate::levels::{faintest, least_magnitude};
use crate::random::{uniform, uniform_from, word_stream, words};
use crate::scalar::{
    arithmetic, clamp_to, clamped, comparable, count, counted, equals, evaluates, fraction, larger,
    less, max_of, minus, negated, ordering, over, plus, ratio, times, total, unordered, value,
    whole, Elementary, Real,
};
use crate::table::{vector_of, Matrix};
use crate::text::same_text;

verus! {

// ---- element patterns -------------------------------------------------------

/// The pattern of one element at an angle: the cosine, cut off at zero, raised to `q`.
pub open spec fn element_gain<R: Real, M: Fn(Elementary<R>) -> R>(math: M, theta: R, q: R) -> R {
    if equals(q, whole(0)) {
        whole(1)
    } else {
        value(math, Elementary::Pow(larger(value(math, Elementary::Cos(theta)), whole(0)), q))
    }
}

/// The level of the pattern of one element at an angle.
pub open spec fn element_level<R: Real, M: Fn(Elementary<R>) -> R>(math: M, theta: R, q: R) -> R {
    times(
        whole(20),
        value(math, Elementary::Log10(larger(element_gain(math, theta, q), faintest()))),
    )
}

/// The pattern of one element at each of the angles.
pub fn element_pattern_cosq<R: Real, M: Fn(Elementary<R>) -> R>(theta: &[R], q: R, math: &M) -> (r: Vec<
    R,
>)
    requires
        arithmetic::<R>(),
        evaluates(*math),
    ensures
        r@ == Seq::new(theta@.len(), |i: int| element_gain(*math, theta@[i], q)),
{
    vector_of(
        theta.len(),
        |i: usize| -> (v: R)
            requires
                i < theta@.len(),
            ensures
                v == element_gain(*math, theta@[i as int], q),
            {
                let cosine = max_of(math(Elementary::Cos(theta[i])), R::from(0));
                if q == R::from(0) {
                    R::from(1)
                } else {
                    math(Elementary::Pow(cosine, q))
                }
            })
}

/// Adds the level of the element pattern to a pattern in decibels, theta by theta.
pub fn apply_element_pattern<R: Real, M: Fn(Elementary<R>) -> R>(
    pattern_db: &mut Vec<Vec<R>>,
    theta: &[R],
    phi: &[R],
    q: R,
    math: &M,
)
    requires
        arithmetic::<R>(),
        evaluates(*math),
        phi@.len() > 0 ==> theta@.len() <= old(pattern_db)@.len(),
        forall|i: int|
            0 <= i < theta@.len() && phi@.len() > 0 ==> phi@.len() <= (#[trigger] old(
                pattern_db,
            )@[i])@.len(),
    ensures
        final(pattern_db)@.len() == old(pattern_db)@.len(),
        forall|i: int|
            0 <= i < old(pattern_db)@.len() ==> (#[trigger] final(pattern_db)@[i])@ == Seq::new(
                old(pattern_db)@[i]@.len(),
                |j: int|
                    if i < theta@.len() && j < phi@.len() {
                        plus(
                            old(pattern_db)@[i]@[j],
                            element_level(*math, theta@[i], q),
                        )
                    } else {
                        old(pattern_db)@[i]@[j]
                    },
            ),
{
    if phi.len() == 0 {
        return ;
    }
    let gains = element_pattern_cosq(theta, q, math);
    let n_phi = phi.len();
    for i in 0..theta.len()
        invariant
            arithmetic::<R>(),
            evaluates(*math),
            n_phi == phi@.len(),
            0 < n_phi,
            gains@ == Seq::new(theta@.len(), |i: int| element_gain(*math, theta@[i], q)),
            theta@.len() <= old(pattern_db)@.len(),
            pattern_db@.len() == old(pattern_db)@.len(),
            forall|k: int|
                0 <= k < theta@.len() ==> n_phi <= (#[trigger] old(pattern_db)@[k])@.len(),
            forall|k: int|
                0 <= k < old(pattern_db)@.len() ==> (#[trigger] pattern_db@[k])@ == Seq::new(
                    old(pattern_db)@[k]@.len(),
                    |j: int|
                        if k < i && j < n_phi {
                            plus(
                                old(pattern_db)@[k]@[j],
                                element_level(*math, theta@[k], q),
                            )
                        } else {
                            old(pattern_db)@[k]@[j]
                        },
                ),
    {
        let gain = R::from(20) * math(Elementary::Log10(max_of(gains[i], least_magnitude())));
        let row = &pattern_db[i];
        let ghost before = old(pattern_db)@[i as int]@;
        assert(row@ =~= before);
        let raised = vector_of(
            row.len(),
            |j: usize| -> (v: R)
                requires
                    j < before.len(),
                ensures
                    v == (if j < n_phi {
                        plus(before[j as int], gain)
                    } else {
                        before[j as int]
                    }),
                {
                    if j < n_phi {
                        row[j] + gain
                    } else {
                        row[j]
                    }
                });
        pattern_db.set(i, raised);
        assert(pattern_db@[i as int]@ =~= Seq::new(
            before.len(),
            |j: int|
                if i < i + 1 && j < n_phi {
                    plus(before[j], element_level(*math, theta@[i as int], q))
                } else {
                    before[j]
                },
        ));
    }
}

// ---- mutual coupling --------------------------------------------------------

/// How strongly two elements couple that stand `d` places apart.
pub open spec fn coupling<R: Real, M: Fn(Elementary<R>) -> R>(
    math: M,
    strength: R,
    decay: R,
    d: int,
) -> Complex<R> {
    polar(
        math,
        times(strength, value(math, Elementary::Exp(over(negated(count(d)), decay)))),
        times(times(value(math, Elementary::Pi), count(d)), ratio(1, 10)),
    )
}

/// The entries of the coupling matrix: one on the diagonal, the coupling over the distance
/// above it, and the conjugates below.
pub open spec fn coupling_entries<R: Real, M: Fn(Elementary<R>) -> R>(
    math: M,
    strength: R,
    decay: R,
) -> spec_fn(int, int) -> Complex<R> {
    |i: int, j: int|
        if i == j {
            whole(1)
        } else if i < j {
            coupling(math, strength, decay, j - i)
        } else {
            conjugate(coupling(math, strength, decay, i - j))
        }
}

/// How strongly two elements couple that stand `d` places apart.
fn coupling_over<R: Real, M: Fn(Elementary<R>) -> R>(strength: R, decay: R, d: usize, math: &M) -> (r:
    Complex<R>)
    requires
        arithmetic::<R>(),
        evaluates(*math),
    ensures
        r == coupling(*math, strength, decay, d as int),
{
    let distance: R = counted(d as u64);
    let amplitude = strength * math(Elementary::Exp(distance.neg() / decay));
    Complex::from_polar(amplitude, math(Elementary::Pi) * distance * fraction(1, 10), math)
}

/// The matrix by which the elements of an array couple to each other.
pub fn mutual_coupling_matrix<R: Real, M: Fn(Elementary<R>) -> R>(
    n_elements: usize,
    strength: R,
    decay: R,
    math: &M,
) -> (r: Matrix<Complex<R>>)
    requires
        arithmetic::<R>(),
        evaluates(*math),
    ensures
        r.holds(
            n_elements as int,
            n_elements as int,
            coupling_entries(*math, strength, decay),
        ),
{
    Matrix::build(
        n_elements,
        n_elements,
        |i: usize, j: usize| -> (z: Complex<R>)
            requires
                i < n_elements,
                j < n_elements,
            ensures
                z == coupling_entries(*math, strength, decay)(i as int, j as int),
            {
                if i == j {
                    Complex::from(1)
                } else if i < j {
                    coupling_over(strength, decay, j - i, math)
                } else {
                    coupling_over(strength, decay, i - j, math).conj()
                }
            })
}

// ---- phase quantization -----------------------------------------------------

/// The step between the phases that `n_bits` bits can tell apart.
pub open spec fn phase_step<R: Real, M: Fn(Elementary<R>) -> R>(math: M, n_bits: nat) -> R {
    over(full_turn(math), count(pow2(n_bits) as int))
}

/// The multiple of `step` next to the phase of `w`.
pub open spec fn quantized_phase<R: Real, M: Fn(Elementary<R>) -> R>(
    math: M,
    step: R,
    w: Complex<R>,
) -> R {
    times(value(math, Elementary::Round(over(angle(math, w), step))), step)
}

/// The squared errors that quantization makes.
pub open spec fn squared_errors<R: Real, M: Fn(Elementary<R>) -> R>(
    math: M,
    step: R,
    weights: Seq<Complex<R>>,
) -> spec_fn(int) -> R {
    |i: int|
        {
            let e = minus(angle(math, weights[i]), quantized_phase(math, step, weights[i]));
            times(e, e)
        }
}

/// The weights with their phases moved to those that `n_bits` bits can tell apart; with no
/// bits they stay as they are.
pub open spec fn quantized_weights<R: Real, M: Fn(Elementary<R>) -> R>(
    math: M,
    n_bits: nat,
    weights: Seq<Complex<R>>,
) -> Seq<Complex<R>> {
    if n_bits == 0 {
        weights
    } else {
        let step = phase_step(math, n_bits);
        Seq::new(
            weights.len(),
            |i: int|
                polar(math, modulus(math, weights[i]), quantized_phase(math, step, weights[i])),
        )
    }
}

/// The root of the mean squared error of quantization, in degrees.
pub open spec fn rms_error_deg<R: Real, M: Fn(Elementary<R>) -> R>(
    math: M,
    n_bits: nat,
    weights: Seq<Complex<R>>,
) -> R {
    if n_bits == 0 {
        whole(0)
    } else {
        let sum = total(
            whole(0),
            squared_errors(math, phase_step(math, n_bits), weights),
            weights.len(),
        );
        let rms = value(math, Elementary::Sqrt(over(sum, count(weights.len() as int))));
        value(math, Elementary::ToDegrees(rms))
    }
}

/// Moves the phases of the weights to those that `n_bits` bits can tell apart, and
/// returns the root of the mean squared error in degrees. With no bits the weights stay
/// as they are.
pub fn quantize_phase<R: Real, M: Fn(Elementary<R>) -> R>(
    weights: &mut Vec<Complex<R>>,
    n_bits: u32,
    math: &M,
) -> (r: R)
    requires
        arithmetic::<R>(),
        evaluates(*math),
        n_bits < 32,
    ensures
        final(weights)@ == quantized_weights(*math, n_bits as nat, old(weights)@),
        r == rms_error_deg(*math, n_bits as nat, old(weights)@),
{
    if n_bits == 0 {
        return R::from(0);
    }
    let levels = phase_levels(n_bits);
    let step = R::from(2) * math(Elementary::Pi) / counted(levels as u64);
    let ghost w = old(weights)@;
    let mut sum: R = R::from(0);
    let n = weights.len();
    for i in 0..n
        invariant
            arithmetic::<R>(),
            evaluates(*math),
            n == w.len(),
            weights@.len() == n,
            forall|k: int| i <= k < n ==> #[trigger] weights@[k] == w[k],
            forall|k: int|
                0 <= k < i ==> #[trigger] weights@[k] == polar(
                    *math,
                    modulus(*math, w[k]),
                    quantized_phase(*math, step, w[k]),
                ),
            sum == total(whole(0), squared_errors(*math, step, w), i as nat),
    {
        let here = weights[i];
        let amplitude = here.norm(math);
        let phase = here.arg(math);
        let quantized = math(Elementary::Round(phase / step)) * step;
        let error = phase - quantized;
        sum = sum + error * error;
        weights.set(i, Complex::from_polar(amplitude, quantized, math));
    }
    math(Elementary::ToDegrees(math(Elementary::Sqrt(sum / counted(n as u64)))))
}

/// The number of phases that `n_bits` bits can tell apart.
pub fn phase_levels(n_bits: u32) -> (r: u32)
    requires
        n_bits < 32,
    ensures
        r == pow2(n_bits as nat),
{
    let mut r: u32 = 1;
    proof {
        lemma2_to64();
    }
    for i in 0..n_bits
        invariant
            n_bits < 32,
            r == pow2(i as nat),
    {
        proof {
            lemma_pow2_unfold((i + 1) as nat);
            lemma2_to64();
            if i + 1 < 31 {
                lemma_pow2_strictly_increases((i + 1) as nat, 31);
            }
        }
        r = r * 2;
    }
    r
}

// ---- failures ---------------------------------------------------------------

/// What happens to an element that fails.
#[derive(Clone, Copy, Debug, PartialEq, Eq, Structural)]
pub enum FailureType {
    /// It goes silent.
    Open,
    /// Its phase becomes a random one.
    Short,
    /// Its phase moves by up to an eighth of a turn either way.
    Drift,
    /// Nothing.
    Other,
}

/// The kind of failure that a text names.
pub open spec fn failure_named(text: Seq<char>) -> FailureType {
    if text == "open"@ {
        FailureType::Open
    } else if text == "short"@ {
        FailureType::Short
    } else if text == "drift"@ {
        FailureType::Drift
    } else {
        FailureType::Other
    }
}

/// The kind of failure that a text names.
pub fn failure_type_named(text: &str) -> (r: FailureType)
    ensures
        r == failure_named(text@),
{
    if same_text(text, "open") {
        FailureType::Open
    } else if same_text(text, "short") {
        FailureType::Short
    } else if same_text(text, "drift") {
        FailureType::Drift
    } else {
        FailureType::Other
    }
}

/// Whether a failure of this kind draws a number of its own.
pub open spec fn draws_again(kind: FailureType) -> bool {
    kind == FailureType::Short || kind == FailureType::Drift
}

/// The element that is decided by word `at` fails: the number drawn lies below the rate.
pub open spec fn fails<R: Real>(words: Seq<u64>, rate: R, at: int) -> bool {
    less(uniform(words[at]), rate)
}

/// The number of words that the first `n` elements use: one each, and another one for an
/// element that fails in a way that draws again.
pub open spec fn words_used<R: Real>(words: Seq<u64>, rate: R, kind: FailureType, n: nat) -> nat
    decreases n,
{
    if n == 0 {
        0
    } else {
        let at = words_used(words, rate, kind, (n - 1) as nat);
        if fails(words, rate, at as int) && draws_again(kind) {
            at + 2
        } else {
            at + 1
        }
    }
}

/// Element `i` fails.
pub open spec fn element_fails<R: Real>(words: Seq<u64>, rate: R, kind: FailureType, i: int) -> bool {
    fails(words, rate, words_used(words, rate, kind, i as nat) as int)
}

/// The number of elements that fail among the first `n`.
pub open spec fn failures<R: Real>(words: Seq<u64>, rate: R, kind: FailureType, n: nat) -> nat
    decreases n,
{
    if n == 0 {
        0
    } else {
        failures(words, rate, kind, (n - 1) as nat) + if element_fails(words, rate, kind, n - 1) {
            1nat
        } else {
            0nat
        }
    }
}

/// The weight of an element that has failed, with the number `u` drawn for it.
pub open spec fn failed_weight<R: Real, M: Fn(Elementary<R>) -> R>(
    math: M,
    kind: FailureType,
    w: Complex<R>,
    u: R,
) -> Complex<R> {
    match kind {
        FailureType::Open => whole(0),
        FailureType::Short => polar(
            math,
            modulus(math, w),
            times(times(u, whole(2)), value(math, Elementary::Pi)),
        ),
        FailureType::Drift => times(
            w,
            phasor(
                math,
                minus(
                    over(times(u, value(math, Elementary::Pi)), whole(2)),
                    over(value(math, Elementary::Pi), whole(4)),
                ),
            ),
        ),
        FailureType::Other => w,
    }
}

/// The weights after the failures that the words decide.
pub open spec fn weights_after<R: Real, M: Fn(Elementary<R>) -> R>(
    math: M,
    words: Seq<u64>,
    rate: R,
    kind: FailureType,
    weights: Seq<Complex<R>>,
) -> Seq<Complex<R>> {
    Seq::new(
        weights.len(),
        |i: int|
            if element_fails(words, rate, kind, i) {
                failed_weight(
                    math,
                    kind,
                    weights[i],
                    uniform(words[words_used(words, rate, kind, i as nat) as int + 1]),
                )
            } else {
                weights[i]
            },
    )
}

/// Lets elements fail as the given random words decide, and returns how many do.
pub fn fail_elements<R: Real, M: Fn(Elementary<R>) -> R>(
    weights: &mut Vec<Complex<R>>,
    failure_rate: R,
    failure_type: &str,
    words: &[u64],
    math: &M,
) -> (n_failed: usize)
    requires
        arithmetic::<R>(),
        evaluates(*math),
        2 * old(weights)@.len() <= words@.len(),
    ensures
        final(weights)@ == weights_after(
            *math,
            words@,
            failure_rate,
            failure_named(failure_type@),
            old(weights)@,
        ),
        n_failed == failures(
            words@,
            failure_rate,
            failure_named(failure_type@),
            old(weights)@.len(),
        ),
{
    let kind = failure_type_named(failure_type);
    let n = weights.len();
    let ghost w = old(weights)@;
    assert(2 * n <= words.len());
    let mut n_failed: usize = 0;
    let mut at: usize = 0;
    for i in 0..n
        invariant
            arithmetic::<R>(),
            evaluates(*math),
            n == w.len(),
            weights@.len() == n,
            2 * n <= words@.len(),
            2 * n <= usize::MAX,
            kind == failure_named(failure_type@),
            at == words_used(words@, failure_rate, kind, i as nat),
            at <= 2 * i,
            n_failed == failures(words@, failure_rate, kind, i as nat),
            n_failed <= i,
            forall|k: int| i <= k < n ==> #[trigger] weights@[k] == w[k],
            forall|k: int|
                0 <= k < i ==> #[trigger] weights@[k] == weights_after(
                    *math,
                    words@,
                    failure_rate,
                    kind,
                    w,
                )[k],
    {
        let drawn: R = uniform_from(words[at]);
        let failed = drawn < failure_rate;
        if failed {
            n_failed = n_failed + 1;
            let here = weights[i];
            match kind {
                FailureType::Open => {
                    weights.set(i, Complex::from(0));
                },
                FailureType::Short => {
                    let u: R = uniform_from(words[at + 1]);
                    let phase = u * R::from(2) * math(Elementary::Pi);
                    weights.set(i, Complex::from_polar(here.norm(math), phase, math));
                },
                FailureType::Drift => {
                    let u: R = uniform_from(words[at + 1]);
                    let drift = u * math(Elementary::Pi) / R::from(2) - math(Elementary::Pi)
                        / R::from(4);
                    weights.set(i, here * Complex::cis(drift, math));
                },
                FailureType::Other => {},
            }
        }
        if failed && (kind == FailureType::Short || kind == FailureType::Drift) {
            at = at + 2;
        } else {
            at = at + 1;
        }
    }
    n_failed
}

/// Lets elements fail at random, reproducibly by the seed, and returns how many do.
pub fn simulate_failures<R: Real, M: Fn(Elementary<R>) -> R>(
    weights: &mut Vec<Complex<R>>,
    failure_rate: R,
    failure_type: &str,
    seed: u64,
    math: &M,
) -> (n_failed: usize)
    requires
        arithmetic::<R>(),
        evaluates(*math),
        16 * old(weights)@.len() <= isize::MAX,
    ensures
        final(weights)@ == weights_after(
            *math,
            word_stream(seed, 2 * old(weights)@.len()),
            failure_rate,
            failure_named(failure_type@),
            old(weights)@,
        ),
        n_failed == failures(
            word_stream(seed, 2 * old(weights)@.len()),
            failure_rate,
            failure_named(failure_type@),
            old(weights)@.len(),
        ),
{
    let stream = words(seed, 2 * weights.len());
    assert(stream@ =~= word_stream(seed, 2 * old(weights)@.len()));
    fail_elements(weights, failure_rate, failure_type, stream.as_slice(), math)
}

// ---- beam squint ------------------------------------------------------------

/// Where a beam steered for `f0` points at the frequency `f0 + df`.
pub open spec fn squinted<R: Real, M: Fn(Elementary<R>) -> R>(
    math: M,
    theta_steer_deg: R,
    f0: R,
    df: R,
) -> R {
    let sine = value(math, Elementary::Sin(value(math, Elementary::ToRadians(theta_steer_deg))));
    let bent = clamped(times(over(f0, plus(f0, df)), sine), whole(-1), whole(1));
    value(math, Elementary::ToDegrees(value(math, Elementary::Asin(bent))))
}

/// Where a beam points at each frequency offset, and how far that is from where it is
/// steered.
pub fn beam_squint_analysis<R: Real, M: Fn(Elementary<R>) -> R>(
    theta_steer_deg: R,
    f0: R,
    f_offsets: &[R],
    math: &M,
) -> (r: (Vec<R>, Vec<R>))
    requires
        arithmetic::<R>(),
        evaluates(*math),
    ensures
        r.0@ == Seq::new(
            f_offsets@.len(),
            |i: int| squinted(*math, theta_steer_deg, f0, f_offsets@[i]),
        ),
        r.1@ == Seq::new(f_offsets@.len(), |i: int| minus(r.0@[i], theta_steer_deg)),
{
    let sine = math(Elementary::Sin(math(Elementary::ToRadians(theta_steer_deg))));
    let actual = vector_of(
        f_offsets.len(),
        |i: usize| -> (v: R)
            requires
                i < f_offsets@.len(),
            ensures
                v == squinted(*math, theta_steer_deg, f0, f_offsets@[i as int]),
            {
                let f = f0 + f_offsets[i];
                let bent = clamp_to(f0 / f * sine, R::from(-1), R::from(1));
                math(Elementary::ToDegrees(math(Elementary::Asin(bent))))
            });
    let squint = vector_of(
        actual.len(),
        |i: usize| -> (v: R)
            requires
                i < actual@.len(),
            ensures
                v == minus(actual@[i as int], theta_steer_deg),
            { actual[i] - theta_steer_deg });
    (actual, squint)
}

// ---- what holds of every impairment -----------------------------------------

/// The coupling matrix is a Toeplitz matrix: its entries depend on how far apart the
/// elements stand, and on nothing else. Its diagonal is one, and below the diagonal stand
/// the conjugates of what stands above it.
pub proof fn coupling_is_toeplitz<R: Real, M: Fn(Elementary<R>) -> R>(
    math: M,
    strength: R,
    decay: R,
    i: int,
    j: int,
    shift: int,
)
    ensures
        coupling_entries(math, strength, decay)(i + shift, j + shift) == coupling_entries(
            math,
            strength,
            decay,
        )(i, j),
        coupling_entries(math, strength, decay)(i, i) == whole::<Complex<R>>(1),
        j < i ==> coupling_entries(math, strength, decay)(i, j) == conjugate(
            coupling_entries(math, strength, decay)(j, i),
        ),
{
}

/// Not more elements fail than there are.
pub proof fn failures_are_bounded<R: Real>(words: Seq<u64>, rate: R, kind: FailureType, n: nat)
    ensures
        failures(words, rate, kind, n) <= n,
    decreases n,
{
    if n > 0 {
        failures_are_bounded(words, rate, kind, (n - 1) as nat);
    }
}

/// An element that does not fail keeps its weight, one that fails open loses it, and a
/// failure without a known name leaves every weight as it is.
pub proof fn failures_touch_what_fails<R: Real, M: Fn(Elementary<R>) -> R>(
    math: M,
    words: Seq<u64>,
    rate: R,
    kind: FailureType,
    weights: Seq<Complex<R>>,
    i: int,
)
    requires
        0 <= i < weights.len(),
    ensures
        !element_fails(words, rate, kind, i) ==> weights_after(math, words, rate, kind, weights)[i]
            == weights[i],
        element_fails(words, rate, kind, i) && kind == FailureType::Open ==> weights_after(
            math,
            words,
            rate,
            kind,
            weights,
        )[i] == whole::<Complex<R>>(0),
        kind == FailureType::Other ==> weights_after(math, words, rate, kind, weights)[i]
            == weights[i],
{
}

/// A rate that no number drawn lies below lets no element fail.
pub proof fn nothing_fails_below_the_rate<R: Real, M: Fn(Elementary<R>) -> R>(
    math: M,
    words: Seq<u64>,
    rate: R,
    kind: FailureType,
    weights: Seq<Complex<R>>,
)
    requires
        forall|word: u64| !less(#[trigger] uniform(word), rate),
    ensures
        weights_after(math, words, rate, kind, weights) == weights,
        failures(words, rate, kind, weights.len()) == 0,
    decreases weights.len(),
{
    if weights.len() > 0 {
        nothing_fails_below_the_rate(math, words, rate, kind, weights.drop_last());
    }
    assert(weights_after(math, words, rate, kind, weights) =~= weights);
}

/// At the frequency that it is steered for, a beam does not squint: it points where the
/// sine of its angle says.
pub proof fn no_squint_at_the_design_frequency<R: Real, M: Fn(Elementary<R>) -> R>(
    math: M,
    theta_steer_deg: R,
    f0: R,
    df: R,
)
    requires
        plus(f0, df) == f0,
        over(f0, f0) == whole::<R>(1),
        ({
            let sine = value(
                math,
                Elementary::Sin(value(math, Elementary::ToRadians(theta_steer_deg))),
            );
            &&& times(whole(1), sine) == sine
            &&& !less(sine, whole(-1))
            &&& !less(whole(1), sine)
        }),
    ensures
        squinted(math, theta_steer_deg, f0, df) == value(
            math,
            Elementary::ToDegrees(
                value(
                    math,
                    Elementary::Asin(
                        value(
                            math,
                            Elementary::Sin(value(math, Elementary::ToRadians(theta_steer_deg))),
                        ),
                    ),
                ),
            ),
        ),
{
}

/// The error of a quantized phase is the error of rounding, counted in steps.
pub proof fn quantization_error_is_a_rounding_error<R: Real, M: Fn(Elementary<R>) -> R>(
    math: M,
    step: R,
    w: Complex<R>,
)
    requires
        field::<R>(),
        step != whole::<R>(0),
    ensures
        ({
            let steps = over(angle(math, w), step);
            minus(angle(math, w), quantized_phase(math, step, w)) == times(
                minus(steps, value(math, Elementary::Round(steps))),
                step,
            )
        }),
{
    let steps = over(angle(math, w), step);
    over_undoes_times(angle(math, w), step);
    times_distributes_minus(step, steps, value(math, Elementary::Round(steps)));
}

/// Failures that draw no number of their own use one word for each element.
proof fn one_word_each<R: Real>(words: Seq<u64>, rate: R, kind: FailureType, n: nat)
    requires
        !draws_again(kind),
    ensures
        words_used(words, rate, kind, n) == n,
    decreases n,
{
    if n > 0 {
        one_word_each(words, rate, kind, (n - 1) as nat);
    }
}

/// Open failures grow with the rate: what fails at a rate fails at every rate that is not
/// below it.
pub proof fn open_failures_grow_with_the_rate<R: Real>(words: Seq<u64>, low: R, high: R, n: nat)
    requires
        ordering::<R>(),
        comparable(low, high),
        !less(high, low),
        forall|word: u64| comparable(#[trigger] uniform(word), high),
    ensures
        forall|i: int|
            0 <= i < n && #[trigger] element_fails(words, low, FailureType::Open, i)
                ==> element_fails(words, high, FailureType::Open, i),
        failures(words, low, FailureType::Open, n) <= failures(
            words,
            high,
            FailureType::Open,
            n,
        ),
    decreases n,
{
    if n > 0 {
        open_failures_grow_with_the_rate(words, low, high, (n - 1) as nat);
        one_word_each(words, low, FailureType::Open, (n - 1) as nat);
        one_word_each(words, high, FailureType::Open, (n - 1) as nat);
        let u: R = uniform(words[n - 1]);
        assert(comparable(u, high));
        if less(u, low) && !less(u, high) {
            assert(comparable(low, high) && comparable(high, u) && comparable(low, u));
            assert(!less(u, low));
        }
    }
}

/// A rate above every number drawn lets every element fail, and open failures then silence
/// all of them.
pub proof fn everything_fails_above_the_draws<R: Real, M: Fn(Elementary<R>) -> R>(
    math: M,
    words: Seq<u64>,
    rate: R,
    kind: FailureType,
    weights: Seq<Complex<R>>,
)
    requires
        forall|word: u64| less(#[trigger] uniform(word), rate),
    ensures
        failures(words, rate, kind, weights.len()) == weights.len(),
        kind == FailureType::Open ==> weights_after(math, words, rate, kind, weights) == Seq::new(
            weights.len(),
            |i: int| whole::<Complex<R>>(0),
        ),
    decreases weights.len(),
{
    if weights.len() > 0 {
        everything_fails_above_the_draws(math, words, rate, kind, weights.drop_last());
    }
    if kind == FailureType::Open {
        assert(weights_after(math, words, rate, kind, weights) =~= Seq::new(
            weights.len(),
            |i: int| whole::<Complex<R>>(0),
        ));
    }
}

/// Where nothing is rounded, the numbers drawn lie from zero to below one.
pub proof fn draws_lie_below_one<R: Real>(word: u64)
    requires
        ordered_field::<R>(),
        counts_add::<R>(),
    ensures
        at_most(whole(0), uniform::<R>(word)),
        less(uniform::<R>(word), whole(1)),
{
    order_is_total::<R>();
    let p: R = count(0x20_0000_0000_0000);
    let k: R = count(word as int / 2048);
    let one: R = whole(1);
    assert(count::<R>(0) == whole::<R>(0));
    counts_keep_order::<R>(0, 0x20_0000_0000_0000);
    counts_keep_order::<R>(word as int / 2048, 0x20_0000_0000_0000);
    order_decides(whole(0), p);
    let u: R = uniform(word);
    times_one(k);
    over_of_product(one, k, p);
    over_undoes_times(k, p);
    assert(times(u, p) == k);
    times_one(p);
    times_nothing(p);
    order_decides(u, one);
    order_decides(one, u);
    if !less(u, one) {
        times_keeps_order(one, u, p);
        order_decides(k, p);
        order_decides(p, k);
    }
    order_decides(whole(0), u);
    order_decides(u, whole(0));
    if less(u, whole(0)) {
        times_keeps_order(u, whole(0), p);
        order_decides(k, whole(0));
        order_decides(whole(0), k);
    }
}

/// Where nothing is rounded, a rate of nothing or less lets no element fail, and a rate of
/// one or more lets every element fail.
pub proof fn rates_at_the_ends<R: Real>(words: Seq<u64>, rate: R, kind: FailureType, n: nat)
    requires
        ordered_field::<R>(),
        counts_add::<R>(),
    ensures
        at_most(rate, whole(0)) ==> failures(words, rate, kind, n) == 0,
        at_most(whole(1), rate) ==> failures(words, rate, kind, n) == n,
    decreases n,
{
    if n > 0 {
        rates_at_the_ends(words, rate, kind, (n - 1) as nat);
        let at = words_used(words, rate, kind, (n - 1) as nat) as int;
        let u: R = uniform(words[at]);
        draws_lie_below_one::<R>(words[at]);
        order_chains(rate, whole(0), u);
        order_chains(u, whole(1), rate);
        order_decides(u, rate);
    }
}

/// Failures of an unknown kind are as many as open ones.
pub proof fn unknown_failures_count_as_open<R: Real>(words: Seq<u64>, rate: R, n: nat)
    ensures
        failures(words, rate, FailureType::Other, n) == failures(
            words,
            rate,
            FailureType::Open,
            n,
        ),
    decreases n,
{
    if n > 0 {
        unknown_failures_count_as_open(words, rate, (n - 1) as nat);
        one_word_each(words, rate, FailureType::Other, (n - 1) as nat);
        one_word_each(words, rate, FailureType::Open, (n - 1) as nat);
    }
}

/// Short and drifting elements keep their modulus, where nothing is rounded: only the phase
/// moves.
pub proof fn short_and_drift_keep_the_modulus<R: Real, M: Fn(Elementary<R>) -> R>(
    math: M,
    words: Seq<u64>,
    rate: R,
    kind: FailureType,
    weights: Seq<Complex<R>>,
    i: int,
)
    requires
        field::<R>(),
        powers_tell::<R>(),
        forall|t: R| #[trigger] on_circle(math, t),
        forall|z: Complex<R>|
            {
                &&& #[trigger] modulus(math, z) == value(math, Elementary::Sqrt(power(z)))
                &&& times(modulus(math, z), modulus(math, z)) == power(z)
            },
        kind == FailureType::Short || kind == FailureType::Drift,
        0 <= i < weights.len(),
    ensures
        modulus(math, weights_after(math, words, rate, kind, weights)[i]) == modulus(
            math,
            weights[i],
        ),
{
    if element_fails(words, rate, kind, i) {
        let w = weights[i];
        let m = modulus(math, w);
        let u: R = uniform(words[words_used(words, rate, kind, i as nat) as int + 1]);
        if kind == FailureType::Short {
            let phase = times(times(u, whole(2)), value(math, Elementary::Pi));
            let z = phasor(math, phase);
            assert(on_circle(math, phase));
            phasors_have_power_one(math, phase);
            times_exchanges(m, z.re, m, z.re);
            times_exchanges(m, z.im, m, z.im);
            times_distributes(times(m, m), times(z.re, z.re), times(z.im, z.im));
            times_one(times(m, m));
            assert(power(polar(math, m, phase)) == power(w));
        } else {
            let phase = minus(
                over(times(u, value(math, Elementary::Pi)), whole(2)),
                over(value(math, Elementary::Pi), whole(4)),
            );
            assert(on_circle(math, phase));
            phasors_have_power_one(math, phase);
            power_of_product(w, phasor(math, phase));
            times_one(power(w));
        }
        assert(power(failed_weight(math, kind, w, u)) == power(w));
    }
}

/// An element pattern with the exponent zero adds nothing to any cell.
pub proof fn exponent_zero_changes_nothing<R: Real, M: Fn(Elementary<R>) -> R>(
    math: M,
    theta: R,
    q: R,
    cell: R,
)
    requires
        equals(q, whole(0)),
        !less(whole(1), faintest::<R>()),
        !unordered(whole::<R>(1)),
        value(math, Elementary::Log10(whole(1))) == whole::<R>(0),
        times(whole::<R>(20), whole(0)) == whole::<R>(0),
        plus(cell, whole(0)) == cell,
    ensures
        element_gain(math, theta, q) == whole::<R>(1),
        plus(cell, element_level(math, theta, q)) == cell,
{
}

} // verus!
