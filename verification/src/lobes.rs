//! Which sidelobe of a beam cut is the first one, and how high it is.
use vstd::prelude::*;
use crate::beamforming::{
    first_place, first_place_is_wanted, guard_width, last_place, last_place_is_wanted,
    left_edge_of_beam, left_range, local_peak, off_beam, right_edge_of_beam, right_range, sidelobe,
};
use crate::scalar::{less, ordering, unordered, whole, Real};

verus! {

/// Place `k` stands above both of its neighbours and above -50 decibels.
pub open spec fn stands_out<R: Real>(pattern: Seq<R>, k: int) -> bool {
    &&& less(pattern[k - 1], pattern[k])
    &&& less(pattern[k + 1], pattern[k])
    &&& less(whole(-50), pattern[k])
}

/// The sidelobe level of a beam cut is the higher one of two local peaks: the first one to
/// the right of the beam and the first one to its left. Where there is only one of them it is
/// the level of that one, and where there is none it is -30.
///
/// The beam reaches from `left` to `right`, the nearest places at either side that lie below
/// -3 decibels; a side without such a place ends at the beam. A sidelobe is looked for from
/// `guard` and five places beyond either end on, where `guard` is nine fifths of the longer
/// side, which counts as two places at least. The outermost places, three to the right and
/// five to the left, hold no sidelobe. A local peak stands above both of its neighbours and
/// above -50 decibels.
pub proof fn sidelobe_is_the_higher_of_the_two<R: Real>(
    pattern: Seq<R>,
    beam: int,
    left: int,
    right: int,
    guard: int,
    peak_left: int,
    peak_right: int,
)
    requires
        ordering::<R>(),
        3 <= pattern.len(),
        0 <= beam <= pattern.len(),
        // The beam.
        forall|k: int| left < k < beam ==> !less(#[trigger] pattern[k], whole(-3)),
        0 <= left < beam && less(pattern[left], whole(-3)) || left == beam && forall|k: int|
            0 <= k < beam ==> !less(#[trigger] pattern[k], whole(-3)),
        forall|k: int| beam <= k < right ==> !less(#[trigger] pattern[k], whole(-3)),
        beam <= right < pattern.len() && less(pattern[right], whole(-3)) || right == beam
            && forall|k: int|
            beam <= k < pattern.len() ==> !less(#[trigger] pattern[k], whole(-3)),
        // The guard.
        5 * guard <= 18 || 5 * guard <= 9 * (beam - left) || 5 * guard <= 9 * (right - beam),
        18 < 5 * (guard + 1),
        9 * (beam - left) < 5 * (guard + 1),
        9 * (right - beam) < 5 * (guard + 1),
        // What is below or above another compares with itself.
        forall|a: R, b: R| #[trigger] less(a, b) ==> !unordered(a) && !unordered(b),
    ensures
        ({
            let n = pattern.len() as int;
            // The nearest peak to the left, and the nearest one to the right.
            let on_left = 5 <= peak_left < left - guard - 5 && stands_out(pattern, peak_left)
                && forall|k: int|
                peak_left < k < left - guard - 5 ==> !#[trigger] stands_out(pattern, k);
            let on_right = right + guard + 5 <= peak_right < n - 3 && stands_out(
                pattern,
                peak_right,
            ) && forall|k: int|
                right + guard + 5 <= k < peak_right ==> !#[trigger] stands_out(pattern, k);
            let none_left = forall|k: int|
                5 <= k < left - guard - 5 ==> !#[trigger] stands_out(pattern, k);
            let none_right = forall|k: int|
                right + guard + 5 <= k < n - 3 ==> !#[trigger] stands_out(pattern, k);
            let level = sidelobe(pattern, beam);
            &&& on_left && on_right ==> {
                &&& level == pattern[peak_left] || level == pattern[peak_right]
                &&& !less(level, pattern[peak_left])
                &&& !less(level, pattern[peak_right])
            }
            &&& on_left && none_right ==> level == pattern[peak_left]
            &&& none_left && on_right ==> level == pattern[peak_right]
            &&& none_left && none_right ==> level == whole::<R>(-30)
        }),
{
    let n = pattern.len() as int;
    let off = off_beam(pattern);
    let peaks = local_peak(pattern);
    assert(forall|k: int| #[trigger] stands_out(pattern, k) == peaks(k));
    assert(forall|k: int| #[trigger] off(k) == less(pattern[k], whole(-3)));
    // The beam.
    last_place_is_wanted(off, 0, beam);
    first_place_is_wanted(off, beam, n);
    match last_place(off, 0, beam) {
        Some(i) => {
            assert(off(i) && less(pattern[i], whole(-3)));
            if left < beam {
                assert(off(left));
            }
        },
        None => {
            if left < beam {
                assert(off(left));
            }
        },
    }
    assert(left_edge_of_beam(pattern, beam) == left);
    match first_place(off, beam, n) {
        Some(i) => {
            assert(off(i) && less(pattern[i], whole(-3)));
            if right < n {
                assert(off(right) == less(pattern[right], whole(-3)));
            }
        },
        None => {
            if right < n {
                assert(off(right) == less(pattern[right], whole(-3)));
            }
        },
    }
    assert(right_edge_of_beam(pattern, beam) == right);
    assert(guard_width(pattern, beam) == guard);
    // The peaks.
    let (rl, rh) = right_range(pattern, beam);
    let (ll, lh) = left_range(pattern, beam);
    first_place_is_wanted(peaks, rl, rh);
    last_place_is_wanted(peaks, ll, lh);
    assert(right + guard + 5 <= n - 3 ==> rl == right + guard + 5);
    assert(left - guard - 5 > 5 ==> lh == left - guard - 5);
    assert(stands_out(pattern, peak_left) == peaks(peak_left));
    assert(stands_out(pattern, peak_right) == peaks(peak_right));
    match first_place(peaks, rl, rh) {
        Some(i) => {
            assert(stands_out(pattern, i));
        },
        None => {},
    }
    match last_place(peaks, ll, lh) {
        Some(i) => {
            assert(stands_out(pattern, i));
        },
        None => {},
    }
}

} // verus!
