//! What each impairment does to an array: how phases are quantized, what becomes of elements
//! that fail, how coupling falls off, and how beams squint.
use vstd::prelude::*;
use vstd::arithmetic::power2::pow2;
use crate::complex::Complex;
use crate::convergence::total_is_positive;
use crate::exact::{
    angles_add, at_most, counts_add, counts_keep_order, field, minus_adds_opposite, nothing_over,
    nothing_points_ahead, on_circle, opposite_of_nothing, opposite_of_sum, opposites_cancel,
    order_chains, order_decides, order_is_total, ordered_field, over_of_product, over_of_sum,
    over_undoes_times, plus_commutes, plus_keeps_order, plus_nothing, plus_regroups,
    products_have_signs, quotient_is_unique, quotients_have_signs, squares_are_positive,
    sum_of_counts, times_commutes, times_distributes, times_distributes_minus, times_exchanges,
    times_keeps_order, times_nothing, times_one, times_regroups,
};
use crate::levels::faintest;
use crate::physics::{
    coupling_entries, draws_lie_below_one, element_gain, element_level, fails, failure_named,
    failures, phase_step, quantized_weights, rms_error_deg, squared_errors, squinted, weights_after,
    words_used, FailureType,
};
use crate::random::uniform;
use crate::scalar::{
    clamped, count, equals, less, minus, negated, over, plus, ratio, times, total, unordered, value,
    whole, Elementary, Real,
};

verus! {

// ---- phase quantization -----------------------------------------------------

/// The phase of a quantized weight is the multiple of the step next to its old phase, where
/// the step is a full turn over the number of phases that `n_bits` bits can tell apart. Its
/// modulus stays.
pub proof fn quantized_weights_stand_on_the_grid<R: Real, M: Fn(Elementary<R>) -> R>(
    math: M,
    n_bits: nat,
    weights: Seq<Complex<R>>,
    i: int,
)
    requires
        1 <= n_bits,
        0 <= i < weights.len(),
    ensures
        ({
            let w = weights[i];
            let step = over(
                times(whole(2), value(math, Elementary::Pi)),
                count(pow2(n_bits) as int),
            );
            let phase = value(math, Elementary::Atan2(w.im, w.re));
            let near = times(value(math, Elementary::Round(over(phase, step))), step);
            let length = value(math, Elementary::Hypot(w.re, w.im));
            let z = quantized_weights(math, n_bits, weights)[i];
            &&& quantized_weights(math, n_bits, weights).len() == weights.len()
            &&& z.re == times(length, value(math, Elementary::Cos(near)))
            &&& z.im == times(length, value(math, Elementary::Sin(near)))
        }),
{
}

/// Where nothing is rounded, a weight whose phase already is a whole multiple of the step
/// stays as it is.
pub proof fn weights_on_the_grid_stay<R: Real, M: Fn(Elementary<R>) -> R>(
    math: M,
    n_bits: nat,
    weights: Seq<Complex<R>>,
    i: int,
    steps: R,
)
    requires
        field::<R>(),
        0 <= i < weights.len(),
        value(math, Elementary::Round(steps)) == steps,
        ({
            let w = weights[i];
            let step = over(
                times(whole(2), value(math, Elementary::Pi)),
                count(pow2(n_bits) as int),
            );
            let phase = value(math, Elementary::Atan2(w.im, w.re));
            let length = value(math, Elementary::Hypot(w.re, w.im));
            &&& step != whole::<R>(0)
            &&& phase == times(steps, step)
            &&& w.re == times(length, value(math, Elementary::Cos(phase)))
            &&& w.im == times(length, value(math, Elementary::Sin(phase)))
        }),
    ensures
        quantized_weights(math, n_bits, weights)[i] == weights[i],
{
    let step = over(times(whole(2), value(math, Elementary::Pi)), count(pow2(n_bits) as int));
    quotient_is_unique(steps, times(steps, step), step);
}

/// Quantizing what is quantized changes nothing more, where nothing is rounded and the
/// quantized weight has the phase that it was given.
pub proof fn quantizing_twice_is_quantizing_once<R: Real, M: Fn(Elementary<R>) -> R>(
    math: M,
    n_bits: nat,
    weights: Seq<Complex<R>>,
    i: int,
    steps: R,
)
    requires
        field::<R>(),
        0 <= i < weights.len(),
        value(math, Elementary::Round(steps)) == steps,
        ({
            let z = quantized_weights(math, n_bits, weights)[i];
            let step = over(
                times(whole(2), value(math, Elementary::Pi)),
                count(pow2(n_bits) as int),
            );
            let phase = value(math, Elementary::Atan2(z.im, z.re));
            let length = value(math, Elementary::Hypot(z.re, z.im));
            &&& step != whole::<R>(0)
            &&& phase == times(steps, step)
            &&& z.re == times(length, value(math, Elementary::Cos(phase)))
            &&& z.im == times(length, value(math, Elementary::Sin(phase)))
        }),
    ensures
        quantized_weights(math, n_bits, quantized_weights(math, n_bits, weights))[i]
            == quantized_weights(math, n_bits, weights)[i],
{
    weights_on_the_grid_stay(math, n_bits, quantized_weights(math, n_bits, weights), i, steps);
}

/// Where nothing is rounded, quantization moves only the phase of a weight: its power stays.
pub proof fn quantization_keeps_the_power<R: Real, M: Fn(Elementary<R>) -> R>(
    math: M,
    n_bits: nat,
    weights: Seq<Complex<R>>,
    i: int,
)
    requires
        field::<R>(),
        forall|t: R| #[trigger] on_circle(math, t),
        0 <= i < weights.len(),
        ({
            let w = weights[i];
            let length = value(math, Elementary::Hypot(w.re, w.im));
            times(length, length) == plus(times(w.re, w.re), times(w.im, w.im))
        }),
    ensures
        ({
            let (w, z) = (weights[i], quantized_weights(math, n_bits, weights)[i]);
            plus(times(z.re, z.re), times(z.im, z.im)) == plus(
                times(w.re, w.re),
                times(w.im, w.im),
            )
        }),
{
    if n_bits > 0 {
        let w = weights[i];
        let step = over(times(whole(2), value(math, Elementary::Pi)), count(pow2(n_bits) as int));
        let phase = value(math, Elementary::Atan2(w.im, w.re));
        let near = times(value(math, Elementary::Round(over(phase, step))), step);
        let m = value(math, Elementary::Hypot(w.re, w.im));
        let (c, s) = (value(math, Elementary::Cos(near)), value(math, Elementary::Sin(near)));
        assert(on_circle(math, near));
        times_exchanges(m, c, m, c);
        times_exchanges(m, s, m, s);
        times_distributes(times(m, m), times(c, c), times(s, s));
        times_one(times(m, m));
    }
}

/// How far the phase of `w` stands from the next multiple of `step`.
pub open spec fn phase_error<R: Real, M: Fn(Elementary<R>) -> R>(
    math: M,
    step: R,
    w: Complex<R>,
) -> R {
    let phase = value(math, Elementary::Atan2(w.im, w.re));
    minus(phase, times(value(math, Elementary::Round(over(phase, step))), step))
}

/// The error that quantization reports is the root of the mean square of the single errors, in
/// degrees. Without bits there is no error and no weight moves.
pub proof fn quantization_reports_the_root<R: Real, M: Fn(Elementary<R>) -> R>(
    math: M,
    n_bits: nat,
    weights: Seq<Complex<R>>,
)
    ensures
        n_bits == 0 ==> rms_error_deg(math, n_bits, weights) == whole::<R>(0)
            && quantized_weights(math, n_bits, weights) == weights,
        n_bits > 0 ==> ({
            let step = over(
                times(whole(2), value(math, Elementary::Pi)),
                count(pow2(n_bits) as int),
            );
            let sum = total(
                whole(0),
                |i: int|
                    times(
                        phase_error(math, step, weights[i]),
                        phase_error(math, step, weights[i]),
                    ),
                weights.len(),
            );
            let mean = over(sum, count(weights.len() as int));
            rms_error_deg(math, n_bits, weights) == value(
                math,
                Elementary::ToDegrees(value(math, Elementary::Sqrt(mean))),
            )
        }),
{
    let step = over(times(whole(2), value(math, Elementary::Pi)), count(pow2(n_bits) as int));
    let f = |i: int|
        times(phase_error(math, step, weights[i]), phase_error(math, step, weights[i]));
    assert(f =~= squared_errors(math, phase_step(math, n_bits), weights));
}

/// The error that quantization reports is the root of the mean square of the single errors:
/// where roots are roots and degrees undo radians, its square times the number of weights is
/// the sum of their squares.
pub proof fn quantization_reports_the_mean_square<R: Real, M: Fn(Elementary<R>) -> R>(
    math: M,
    n_bits: nat,
    weights: Seq<Complex<R>>,
)
    requires
        ordered_field::<R>(),
        counts_add::<R>(),
        1 <= weights.len(),
        forall|a: R|
            at_most(whole(0), a) ==> {
                let r = #[trigger] value(math, Elementary::Sqrt(a));
                times(r, r) == a
            },
        forall|a: R|
            #[trigger] value(
                math,
                Elementary::ToRadians(value(math, Elementary::ToDegrees(a))),
            ) == a,
    ensures
        n_bits > 0 ==> ({
            let step = over(
                times(whole(2), value(math, Elementary::Pi)),
                count(pow2(n_bits) as int),
            );
            let rms = value(
                math,
                Elementary::ToRadians(rms_error_deg(math, n_bits, weights)),
            );
            times(times(rms, rms), count(weights.len() as int)) == total(
                whole(0),
                |i: int|
                    times(
                        phase_error(math, step, weights[i]),
                        phase_error(math, step, weights[i]),
                    ),
                weights.len(),
            )
        }),
{
    order_is_total::<R>();
    if n_bits > 0 {
        let step = over(times(whole(2), value(math, Elementary::Pi)), count(pow2(n_bits) as int));
        let f = |i: int|
            times(phase_error(math, step, weights[i]), phase_error(math, step, weights[i]));
        let g = squared_errors(
            math,
            phase_step(math, n_bits),
            weights,
        );
        assert(f =~= g);
        let sum = total(whole(0), f, weights.len());
        let mean = over(sum, count(weights.len() as int));
        // The mean is at least nothing.
        assert forall|i: int| 0 <= i < weights.len() implies at_most(
            whole(0),
            #[trigger] f(i),
        ) by {
            squares_are_positive(phase_error(math, step, weights[i]));
        }
        total_is_positive(f, weights.len());
        counts_keep_order::<R>(0, weights.len() as int);
        assert(count::<R>(0) == whole::<R>(0));
        let c: R = count(weights.len() as int);
        order_decides(whole(0), c);
        order_decides(whole(0), sum);
        nothing_over(c);
        order_decides(whole::<R>(0), whole(0));
        if sum != whole::<R>(0) {
            quotients_have_signs(sum, c);
            order_decides(whole(0), mean);
        }
        let rms = value(math, Elementary::Sqrt(mean));
        assert(times(rms, rms) == mean);
        assert(value(math, Elementary::ToRadians(value(math, Elementary::ToDegrees(rms)))) == rms);
        over_undoes_times(sum, count(weights.len() as int));
    }
}

// ---- failures ---------------------------------------------------------------

/// The number from zero to one that a word stands for: its 53 leading bits over two to the
/// power of 53.
pub proof fn draws_are_leading_bits<R: Real>(word: u64)
    requires
        field::<R>(),
        count::<R>(0x20_0000_0000_0000) != whole::<R>(0),
    ensures
        times(uniform::<R>(word), count(0x20_0000_0000_0000)) == count::<R>(word as int / 2048),
{
    let p: R = count(0x20_0000_0000_0000);
    let k: R = count(word as int / 2048);
    over_undoes_times(whole(1), p);
    times_regroups(over(whole(1), p), k, p);
    times_commutes(k, p);
    times_regroups(over(whole(1), p), p, k);
    times_commutes(whole(1), k);
    times_one(k);
}

/// The words of which the first `c` are taken away serve the later elements.
proof fn later_words<R: Real>(words: Seq<u64>, rate: R, kind: FailureType, c: nat, i: nat)
    requires
        c == words_used(words, rate, kind, 1),
        2 * (i + 1) <= words.len(),
    ensures
        words_used(words, rate, kind, i + 1) == c + words_used(
            words.skip(c as int),
            rate,
            kind,
            i,
        ),
        words_used(words, rate, kind, i + 1) <= 2 * (i + 1),
        1 <= c <= 2,
    decreases i,
{
    assert(words_used(words, rate, kind, 0) == 0);
    if i > 0 {
        later_words(words, rate, kind, c, (i - 1) as nat);
        let at = words_used(words.skip(c as int), rate, kind, (i - 1) as nat) as int;
        assert(words.skip(c as int)[at] == words[c + at]);
    }
}

/// The failures of the first `n + 1` elements are that of the first one and those of the
/// others.
proof fn later_failures<R: Real>(words: Seq<u64>, rate: R, kind: FailureType, c: nat, n: nat)
    requires
        c == words_used(words, rate, kind, 1),
        2 * (n + 1) <= words.len(),
    ensures
        failures(words, rate, kind, n + 1) == failures(words.skip(c as int), rate, kind, n) + (
        if less(uniform(words[0]), rate) {
            1nat
        } else {
            0nat
        }),
    decreases n,
{
    assert(words_used(words, rate, kind, 0) == 0);
    assert(failures(words, rate, kind, 0) == 0);
    if n > 0 {
        later_failures(words, rate, kind, c, (n - 1) as nat);
        later_words(words, rate, kind, c, (n - 1) as nat);
        let at = words_used(words.skip(c as int), rate, kind, (n - 1) as nat) as int;
        assert(words.skip(c as int)[at] == words[c + at]);
        assert((n - 1) as nat + 1 == n);
    }
}

/// The kinds of failure and their names.
proof fn names_of_failures()
    ensures
        failure_named("open"@) == FailureType::Open,
        failure_named("short"@) == FailureType::Short,
        failure_named("drift"@) == FailureType::Drift,
        forall|text: Seq<char>|
            text != "open"@ && text != "short"@ && text != "drift"@ ==> #[trigger] failure_named(
                text,
            ) == FailureType::Other,
        "open"@ != "short"@,
        "open"@ != "drift"@,
        "short"@ != "drift"@,
{
    reveal_strlit("open");
    reveal_strlit("short");
    reveal_strlit("drift");
    assert("open"@[0] == 'o' && "short"@[0] == 's' && "drift"@[0] == 'd');
}

/// Elements fail one after the other. The first word decides over the first element: it
/// fails if the number that the word stands for lies below the rate. An element that fails
/// open goes silent; a short one keeps its modulus and takes the phase that the second word
/// draws from a full turn; one that drifts is turned from the phase that it had by what the
/// second word draws, between an eighth of a turn back and an eighth of a turn on. Any other
/// failure leaves the element as it is, and so does none. The words behind those that were
/// used decide over the other elements in the same way.
pub proof fn elements_fail_one_after_the_other<R: Real, M: Fn(Elementary<R>) -> R>(
    math: M,
    words: Seq<u64>,
    rate: R,
    text: Seq<char>,
    weights: Seq<Complex<R>>,
)
    requires
        1 <= weights.len(),
        2 * weights.len() <= words.len(),
    ensures
        ({
            let kind = failure_named(text);
            let after = weights_after(math, words, rate, kind, weights);
            let fails = less(uniform(words[0]), rate);
            let u: R = uniform(words[1]);
            let pi = value(math, Elementary::Pi);
            let w = weights[0];
            let used = if fails && (text == "short"@ || text == "drift"@) {
                2int
            } else {
                1int
            };
            let n = weights.len();
            &&& after.len() == n
            &&& !fails ==> after[0] == w
            &&& fails && text == "open"@ ==> after[0] == whole::<Complex<R>>(0)
            &&& fails && text == "short"@ ==> {
                let phase = times(times(u, whole(2)), pi);
                let length = value(math, Elementary::Hypot(w.re, w.im));
                &&& after[0].re == times(length, value(math, Elementary::Cos(phase)))
                &&& after[0].im == times(length, value(math, Elementary::Sin(phase)))
            }
            &&& fails && text == "drift"@ ==> {
                let drift = minus(over(times(u, pi), whole(2)), over(pi, whole(4)));
                let (c, s) = (
                    value(math, Elementary::Cos(drift)),
                    value(math, Elementary::Sin(drift)),
                );
                &&& after[0].re == minus(times(w.re, c), times(w.im, s))
                &&& after[0].im == plus(times(w.re, s), times(w.im, c))
            }
            &&& text != "open"@ && text != "short"@ && text != "drift"@ ==> after[0] == w
            &&& after.skip(1) == weights_after(
                math,
                words.skip(used),
                rate,
                kind,
                weights.skip(1),
            )
            &&& failures(words, rate, kind, n) == failures(
                words.skip(used),
                rate,
                kind,
                (n - 1) as nat,
            ) + (if fails {
                1nat
            } else {
                0nat
            })
        }),
{
    names_of_failures();
    let kind = failure_named(text);
    let after = weights_after(math, words, rate, kind, weights);
    let n = weights.len();
    assert(words_used(words, rate, kind, 0) == 0);
    let c = words_used(words, rate, kind, 1);
    let rest = weights_after(math, words.skip(c as int), rate, kind, weights.skip(1));
    assert forall|i: int| 0 <= i < n - 1 implies #[trigger] after.skip(1)[i] == rest[i] by {
        later_words(words, rate, kind, c, i as nat);
        let at = words_used(words.skip(c as int), rate, kind, i as nat) as int;
        assert(words.skip(c as int)[at] == words[c + at]);
        if i > 0 {
            later_words(words, rate, kind, c, (i - 1) as nat);
        }
        assert(words.skip(c as int)[at + 1] == words[c + at + 1]);
        assert((i as nat) + 1 == (i + 1) as nat);
    }
    assert(after.skip(1) =~= rest);
    later_failures(words, rate, kind, c, (n - 1) as nat);
    assert((n - 1) as nat + 1 == n);
}

/// Where nothing is rounded, a drift lies between an eighth of a turn back and an eighth of a
/// turn on.
pub proof fn drifts_are_bounded<R: Real>(word: u64, pi: R)
    requires
        ordered_field::<R>(),
        counts_add::<R>(),
        less(whole(0), pi),
    ensures
        ({
            let eighth = over(pi, whole(4));
            let drift = minus(over(times(uniform(word), pi), whole(2)), eighth);
            &&& at_most(negated(eighth), drift)
            &&& less(drift, eighth)
        }),
{
    order_is_total::<R>();
    draws_lie_below_one::<R>(word);
    let u: R = uniform(word);
    let (two, four): (R, R) = (whole(2), whole(4));
    sum_of_counts::<R>(1, 1);
    sum_of_counts::<R>(2, 2);
    counts_keep_order::<R>(0, 2);
    counts_keep_order::<R>(0, 4);
    order_decides(whole(0), two);
    order_decides(whole(0), four);
    order_decides(whole(0), pi);
    let eighth = over(pi, four);
    let quarter = over(pi, two);
    // Two eighths are a quarter.
    over_undoes_times(pi, four);
    times_distributes(eighth, two, two);
    times_distributes(eighth, whole(1), whole(1));
    times_one(eighth);
    let pair = plus(eighth, eighth);
    times_commutes(pair, two);
    times_distributes(two, eighth, eighth);
    times_commutes(two, eighth);
    quotient_is_unique(pair, pi, two);
    assert(quarter == pair);
    // The number drawn, of a quarter.
    quotients_have_signs(pi, two);
    order_decides(whole(0), quarter);
    over_of_product(u, pi, two);
    let part = times(u, quarter);
    products_have_signs(u, quarter);
    order_decides(u, whole(1));
    times_keeps_order(u, whole(1), quarter);
    times_commutes(whole(1), quarter);
    times_one(quarter);
    let drift = minus(part, eighth);
    minus_adds_opposite(part, eighth);
    plus_keeps_order(whole(0), part, negated(eighth));
    plus_commutes(whole(0), negated(eighth));
    plus_nothing(negated(eighth));
    plus_keeps_order(part, pair, negated(eighth));
    plus_regroups(eighth, eighth, negated(eighth));
    opposites_cancel(eighth);
    plus_nothing(eighth);
}

/// A drift of nothing leaves the element as it is, where nothing is rounded.
pub proof fn no_drift_leaves_the_element<R: Real, M: Fn(Elementary<R>) -> R>(
    math: M,
    words: Seq<u64>,
    rate: R,
    weights: Seq<Complex<R>>,
)
    requires
        field::<R>(),
        nothing_points_ahead(math),
        1 <= weights.len(),
        2 * weights.len() <= words.len(),
        ({
            let pi = value(math, Elementary::Pi);
            over(times(uniform(words[1]), pi), whole(2)) == over(pi, whole(4))
        }),
    ensures
        weights_after(math, words, rate, failure_named("drift"@), weights)[0] == weights[0],
{
    elements_fail_one_after_the_other(math, words, rate, "drift"@, weights);
    let eighth = over(value(math, Elementary::Pi), whole(4));
    let w = weights[0];
    minus_adds_opposite(eighth, eighth);
    opposites_cancel(eighth);
    times_one(w.re);
    times_one(w.im);
    times_nothing(w.re);
    times_nothing(w.im);
    minus_adds_opposite(w.re, whole(0));
    opposite_of_nothing::<R>();
    plus_nothing(w.re);
    plus_commutes(whole(0), w.im);
    plus_nothing(w.im);
}

// ---- mutual coupling --------------------------------------------------------

/// Exponentials of sums are products of exponentials.
pub open spec fn exponents_add<R: Real, M: Fn(Elementary<R>) -> R>(math: M, a: R, b: R) -> bool {
    value(math, Elementary::Exp(plus(a, b))) == times(
        value(math, Elementary::Exp(a)),
        value(math, Elementary::Exp(b)),
    )
}

/// Two elements `d` places apart couple by `strength`, weakened by the exponential of their
/// distance over `decay` and turned by a tenth of half a turn for each place.
pub proof fn coupling_goes_by_the_distance<R: Real, M: Fn(Elementary<R>) -> R>(
    math: M,
    strength: R,
    decay: R,
    i: int,
    d: int,
)
    requires
        1 <= d,
    ensures
        ({
            let e = coupling_entries(math, strength, decay);
            let weak = times(
                strength,
                value(math, Elementary::Exp(over(negated(count(d)), decay))),
            );
            let phase = times(
                times(value(math, Elementary::Pi), count(d)),
                over(whole(1), whole(10)),
            );
            let (c, s) = (
                value(math, Elementary::Cos(phase)),
                value(math, Elementary::Sin(phase)),
            );
            &&& e(i, i).re == whole::<R>(1) && e(i, i).im == whole::<R>(0)
            &&& e(i, i + d).re == times(weak, c) && e(i, i + d).im == times(weak, s)
            &&& e(i + d, i).re == times(weak, c) && e(i + d, i).im == negated(times(weak, s))
        }),
{
}

/// Coupling falls off from element to element, where nothing is rounded. A neighbour couples
/// by `strength`, weakened by the exponential of `-1 / decay` and turned on by a tenth of half
/// a turn; every place farther weakens and turns the coupling once more by as much. An element
/// couples to itself by one, and what stands below the diagonal is the conjugate of what
/// stands above it.
pub proof fn coupling_falls_off<R: Real, M: Fn(Elementary<R>) -> R>(
    math: M,
    strength: R,
    decay: R,
    i: int,
    d: int,
)
    requires
        field::<R>(),
        counts_add::<R>(),
        decay != whole::<R>(0),
        forall|a: R, b: R| #[trigger] angles_add(math, a, b),
        forall|a: R, b: R| #[trigger] exponents_add(math, a, b),
        1 <= d,
    ensures
        ({
            let e = coupling_entries(math, strength, decay);
            let weaker = value(math, Elementary::Exp(over(negated(whole(1)), decay)));
            let tenth = times(value(math, Elementary::Pi), ratio(1, 10));
            let (c, s) = (
                value(math, Elementary::Cos(tenth)),
                value(math, Elementary::Sin(tenth)),
            );
            let (here, next) = (e(i, i + d), e(i, i + d + 1));
            &&& e(i, i) == whole::<Complex<R>>(1)
            &&& e(i, i + 1).re == times(times(strength, weaker), c)
            &&& e(i, i + 1).im == times(times(strength, weaker), s)
            &&& next.re == times(weaker, minus(times(here.re, c), times(here.im, s)))
            &&& next.im == times(weaker, plus(times(here.re, s), times(here.im, c)))
            &&& e(i + d, i).re == here.re
            &&& e(i + d, i).im == negated(here.im)
        }),
{
    let e = coupling_entries(math, strength, decay);
    let pi = value(math, Elementary::Pi);
    let one: R = whole(1);
    let part: R = ratio(1, 10);
    let tenth = times(pi, part);
    let step = over(negated(one), decay);
    let weaker = value(math, Elementary::Exp(step));
    let (c, s) = (value(math, Elementary::Cos(tenth)), value(math, Elementary::Sin(tenth)));
    assert(count::<R>(1) == one);
    times_one(pi);
    // The exponent and the phase of the next place.
    let k: R = count(d);
    sum_of_counts::<R>(d, 1);
    opposite_of_sum(k, one);
    over_of_sum(negated(k), negated(one), decay);
    let far = over(negated(k), decay);
    assert(exponents_add(math, far, step));
    times_distributes(pi, k, one);
    times_commutes(plus(times(pi, k), pi), part);
    times_distributes(part, times(pi, k), pi);
    times_commutes(part, times(pi, k));
    times_commutes(part, pi);
    let a = times(times(pi, k), part);
    assert(times(times(pi, count::<R>(d + 1)), part) == plus(a, tenth));
    assert(angles_add(math, a, tenth));
    let (ca, sa) = (value(math, Elementary::Cos(a)), value(math, Elementary::Sin(a)));
    let ex = value(math, Elementary::Exp(far));
    let m = times(strength, ex);
    times_regroups(strength, ex, weaker);
    times_commutes(m, weaker);
    // The amplitude of the next place is that of this one, weakened.
    let nm = times(weaker, m);
    let re = minus(times(ca, c), times(sa, s));
    times_regroups(weaker, m, re);
    times_commutes(m, re);
    times_distributes_minus(m, times(ca, c), times(sa, s));
    times_commutes(times(ca, c), m);
    times_commutes(times(sa, s), m);
    times_regroups(m, ca, c);
    times_regroups(m, sa, s);
    let im = plus(times(sa, c), times(ca, s));
    times_regroups(weaker, m, im);
    times_distributes(m, times(sa, c), times(ca, s));
    times_regroups(m, sa, c);
    times_regroups(m, ca, s);
    plus_commutes(times(times(m, sa), c), times(times(m, ca), s));
    assert(e(i, i + d).re == times(m, ca) && e(i, i + d).im == times(m, sa));
    assert(e(i, i + d + 1).re == times(nm, re));
    assert(e(i, i + d + 1).im == times(nm, im));
}

// ---- element patterns -------------------------------------------------------

/// The pattern of an element is its cosine raised to `q` before the horizon, and that of the
/// horizon behind it; with `q` of zero it is one everywhere. Its level is twenty times the
/// logarithm, and not below that of ten to the power of -15.
pub proof fn elements_see_by_their_cosine<R: Real, M: Fn(Elementary<R>) -> R>(
    math: M,
    theta: R,
    q: R,
)
    requires
        forall|a: R| !#[trigger] unordered(a),
    ensures
        ({
            let c = value(math, Elementary::Cos(theta));
            let gain = element_gain(math, theta, q);
            let least: R = over(whole(1), times(whole(1_000_000_000), whole(1_000_000)));
            &&& equals(q, whole(0)) ==> gain == whole::<R>(1)
            &&& !equals(q, whole(0)) && !less(c, whole(0)) ==> gain == value(
                math,
                Elementary::Pow(c, q),
            )
            &&& !equals(q, whole(0)) && less(c, whole(0)) ==> gain == value(
                math,
                Elementary::Pow(whole(0), q),
            )
            &&& !less(gain, least) ==> element_level(math, theta, q) == times(
                whole(20),
                value(math, Elementary::Log10(gain)),
            )
            &&& less(gain, least) ==> element_level(math, theta, q) == times(
                whole(20),
                value(math, Elementary::Log10(least)),
            )
        }),
{
}

/// The levels of element patterns add up as their exponents do, where nothing is rounded, no
/// level is cut off and powers and logarithms are exact.
pub proof fn levels_of_elements_add_up<R: Real, M: Fn(Elementary<R>) -> R>(
    math: M,
    theta: R,
    p: R,
    q: R,
)
    requires
        field::<R>(),
        forall|a: R| !#[trigger] unordered(a),
        !equals(p, whole(0)) && !equals(q, whole(0)) && !equals(plus(p, q), whole(0)),
        ({
            let c = value(math, Elementary::Cos(theta));
            let least: R = over(whole(1), times(whole(1_000_000_000), whole(1_000_000)));
            let (a, b) = (value(math, Elementary::Pow(c, p)), value(math, Elementary::Pow(c, q)));
            &&& !less(c, whole(0))
            &&& !less(a, least) && !less(b, least) && !less(times(a, b), least)
            &&& value(math, Elementary::Pow(c, plus(p, q))) == times(a, b)
            &&& value(math, Elementary::Log10(times(a, b))) == plus(
                value(math, Elementary::Log10(a)),
                value(math, Elementary::Log10(b)),
            )
        }),
    ensures
        element_level(math, theta, plus(p, q)) == plus(
            element_level(math, theta, p),
            element_level(math, theta, q),
        ),
{
    let c = value(math, Elementary::Cos(theta));
    let (a, b) = (value(math, Elementary::Pow(c, p)), value(math, Elementary::Pow(c, q)));
    times_distributes(
        whole(20),
        value(math, Elementary::Log10(a)),
        value(math, Elementary::Log10(b)),
    );
}

// ---- beam squint ------------------------------------------------------------

/// Away from the frequency that it is steered for, a beam points where the sine of its angle
/// is that of the steered one times the ratio of the frequencies, moved to one or its opposite
/// where it lies beyond.
pub proof fn squint_bends_the_sine<R: Real, M: Fn(Elementary<R>) -> R>(
    math: M,
    theta_steer_deg: R,
    f0: R,
    df: R,
)
    ensures
        ({
            let steered = value(
                math,
                Elementary::Sin(value(math, Elementary::ToRadians(theta_steer_deg))),
            );
            let bent = times(over(f0, plus(f0, df)), steered);
            let reached = if less(bent, whole(-1)) {
                whole(-1)
            } else if less(whole(1), bent) {
                whole(1)
            } else {
                bent
            };
            squinted(math, theta_steer_deg, f0, df) == value(
                math,
                Elementary::ToDegrees(value(math, Elementary::Asin(reached))),
            )
        }),
{
}

/// A beam that is steered for `f0` keeps the product of frequency and sine of its angle, where
/// nothing is rounded; where no angle has the sine that this asks for, it points along the
/// horizon.
pub proof fn squint_keeps_frequency_times_sine<R: Real, M: Fn(Elementary<R>) -> R>(
    math: M,
    theta_steer_deg: R,
    f0: R,
    df: R,
)
    requires
        ordered_field::<R>(),
        plus(f0, df) != whole::<R>(0),
        forall|a: R|
            at_most(whole(-1), a) && at_most(a, whole(1)) ==> value(
                math,
                Elementary::Sin(#[trigger] value(math, Elementary::Asin(a))),
            ) == a,
        less(whole::<R>(-1), whole(1)),
        forall|a: R|
            #[trigger] value(
                math,
                Elementary::ToRadians(value(math, Elementary::ToDegrees(a))),
            ) == a,
    ensures
        ({
            let f = plus(f0, df);
            let steered = value(
                math,
                Elementary::Sin(value(math, Elementary::ToRadians(theta_steer_deg))),
            );
            let actual = value(
                math,
                Elementary::Sin(
                    value(
                        math,
                        Elementary::ToRadians(squinted(math, theta_steer_deg, f0, df)),
                    ),
                ),
            );
            let asked = over(times(f0, steered), f);
            &&& at_most(whole(-1), asked) && at_most(asked, whole(1)) ==> times(f, actual)
                == times(f0, steered)
            &&& less(asked, whole(-1)) ==> actual == whole::<R>(-1)
            &&& less(whole(1), asked) ==> actual == whole::<R>(1)
        }),
{
    order_is_total::<R>();
    let f = plus(f0, df);
    let steered = value(
        math,
        Elementary::Sin(value(math, Elementary::ToRadians(theta_steer_deg))),
    );
    let asked = over(times(f0, steered), f);
    over_of_product(f0, steered, f);
    let bent = clamped(times(over(f0, f), steered), whole(-1), whole(1));
    let a = value(math, Elementary::Asin(bent));
    assert(value(math, Elementary::ToRadians(value(math, Elementary::ToDegrees(a)))) == a);
    order_decides(whole::<R>(-1), whole(1));
    order_decides(whole::<R>(1), whole(1));
    order_decides(whole::<R>(-1), whole(-1));
    order_chains(whole(-1), whole(1), asked);
    order_decides(asked, whole(-1));
    assert(value(math, Elementary::Sin(a)) == bent);
    over_undoes_times(times(f0, steered), f);
    times_commutes(f, asked);
}

} // verus!
