//! Reproducible random numbers.
use vstd::prelude::*;
use rand::distributions::Standard;
use rand::rngs::StdRng;
use rand::{Rng, SeedableRng};
use crate::complex::Complex;
use crate::scalar::{arithmetic, count, counted, over, times, whole, Real};

verus! {

/// The word with this index in the stream of the standard generator with this seed.
pub uninterp spec fn std_rng_word(seed: u64, index: nat) -> u64;

/// The first `n` words of the stream.
pub open spec fn word_stream(seed: u64, n: nat) -> Seq<u64> {
    Seq::new(n, |i: int| std_rng_word(seed, i as nat))
}

/// The first `n` words of the stream of `StdRng::seed_from_u64(seed)`, sampled with the
/// `Standard` distribution of rand, which takes one `next_u64` for each word.
///
/// What is relied on: there are `n` words, and each of them is determined by the seed
/// and its place in the stream alone. What the words are is left open. A vector of more
/// bytes than `isize::MAX` cannot be collected.
#[verifier::external_body]
pub(crate) fn words(seed: u64, n: usize) -> (r: Vec<u64>)
    requires
        8 * n <= isize::MAX,
    ensures
        r@.len() == n,
        forall|i: int| 0 <= i < n ==> #[trigger] r@[i] == std_rng_word(seed, i as nat),
{
    StdRng::seed_from_u64(seed).sample_iter(Standard).take(n).collect()
}

/// The number in `0..1` that the 53 leading bits of a word stand for.
pub open spec fn uniform<R: Real>(word: u64) -> R {
    times(over(whole(1), count(0x20_0000_0000_0000)), count(word as int / 2048))
}

/// The number in `0..1` that the 53 leading bits of a word stand for.
pub fn uniform_from<R: Real>(word: u64) -> (r: R)
    requires
        arithmetic::<R>(),
    ensures
        r == uniform::<R>(word),
{
    R::from(1) / counted::<R>(0x20_0000_0000_0000) * counted::<R>(word / 2048)
}

/// The complex number whose parts are drawn from words `2 * k` and `2 * k + 1`.
pub open spec fn draw<R: Real>(words: Seq<u64>, k: int) -> Complex<R> {
    Complex { re: uniform(words[2 * k]), im: uniform(words[2 * k + 1]) }
}

/// The complex number whose parts are drawn from words `2 * k` and `2 * k + 1`.
pub fn drawn<R: Real>(words: &[u64], k: usize) -> (z: Complex<R>)
    requires
        arithmetic::<R>(),
        2 * k + 1 < words@.len(),
    ensures
        z == draw::<R>(words@, k as int),
{
    assert(2 * k + 1 < words.len());
    Complex { re: uniform_from(words[2 * k]), im: uniform_from(words[2 * k + 1]) }
}

/// A stream starts with the first word of its seed, and a longer one only goes on.
pub proof fn streams_start_at_the_first_word(seed: u64, n: nat, m: nat, i: int)
    requires
        n <= m,
        0 <= i < n,
    ensures
        word_stream(seed, n).len() == n,
        word_stream(seed, n)[i] == std_rng_word(seed, i as nat),
        word_stream(seed, m).take(n as int) == word_stream(seed, n),
{
    assert(word_stream(seed, m).take(n as int) =~= word_stream(seed, n));
}

} // verus!
