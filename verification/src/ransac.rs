//! The random trials of a robust fit: their seed, their samples, and which trial wins.

use rand::rngs::StdRng;
use rand::seq::index;
use rand::SeedableRng;
use vstd::prelude::*;

verus! {

/// The number of trials of a fit.
pub const RANSAC_ITERATIONS: usize = 2500;

/// Fewer agreeing points connect no two images.
pub const MIN_INLIERS_FOR_CONNECTION: usize = 15;

/// The points in a sample.
pub const SAMPLE_SIZE: usize = 4;

pub const SEED_BASE: u64 = 0x9E37_79B9_7F4A_7C15;

pub const SEED_FACTOR: u64 = 0xD6E8_FEB8_6659_FD93;

/// The seed for a number of points.
pub open spec fn seed_of(point_count: usize) -> u64 {
    SEED_BASE ^ ((point_count * SEED_FACTOR) % 0x1_0000_0000_0000_0000) as u64
}

/// The seed for a number of points, so that a fit gives the same result every time.
pub fn trial_seed(point_count: usize) -> (seed: u64)
    ensures
        seed == seed_of(point_count),
        seed == 0x9E37_79B9_7F4A_7C15u64 ^ ((point_count * 0xD6E8_FEB8_6659_FD93u64)
            % 0x1_0000_0000_0000_0000) as u64,
{
    let count: u64 = point_count as u64;
    let product: u64 = count.wrapping_mul(SEED_FACTOR);
    assert(0 <= count * SEED_FACTOR) by (nonlinear_arith);
    SEED_BASE ^ product
}

/// A sample of different positions below a count.
pub open spec fn is_sample(sample: Seq<usize>, count: int) -> bool {
    &&& sample.len() == SAMPLE_SIZE
    &&& forall|i: int| 0 <= i < sample.len() ==> #[trigger] sample[i] < count
    &&& sample.no_duplicates()
}

/// The samples that a seeded generator draws one after the other.
pub uninterp spec fn drawn_samples(seed: u64, point_count: usize, trials: usize) -> Seq<Seq<usize>>;

/// The positions in a list of samples.
pub open spec fn sample_views(samples: Seq<Vec<usize>>) -> Seq<Seq<usize>> {
    samples.map_values(|sample: Vec<usize>| sample@)
}

/// Draws samples with `rand::seq::index::sample`, one after the other from a `StdRng` that is
/// seeded once by `seed_from_u64`. The generator is a fixed ChaCha stream cipher, so that the
/// samples follow from the seed, the count and the number of trials. Every sample holds different
/// positions below the count. Which positions come is named and not stated.
#[verifier::external_body]
fn draw_samples(seed: u64, point_count: usize, trials: usize) -> (samples: Vec<Vec<usize>>)
    requires
        point_count >= SAMPLE_SIZE,
    ensures
        sample_views(samples@) == drawn_samples(seed, point_count, trials),
        samples@.len() == trials,
        forall|i: int| 0 <= i < trials ==> is_sample((#[trigger] samples@[i])@, point_count as int),
{
    let mut rng = StdRng::seed_from_u64(seed);
    let draw = |_| index::sample(&mut rng, point_count, SAMPLE_SIZE).into_vec();
    (0..trials).map(draw).collect()
}

/// The samples of a fit; `None` where there are too few points for one. Fits of as many points
/// draw the same samples.
pub fn trial_samples(point_count: usize) -> (samples: Option<Vec<Vec<usize>>>)
    ensures
        samples is Some <==> point_count >= 4,
        samples matches Some(list) ==> sample_views(list@) == drawn_samples(
            seed_of(point_count),
            point_count,
            RANSAC_ITERATIONS,
        ),
        samples matches Some(list) ==> list@.len() == 2500 && forall|i: int|
            0 <= i < list@.len() ==> is_sample((#[trigger] list@[i])@, point_count as int),
{
    if point_count < SAMPLE_SIZE {
        return None;
    }
    Some(draw_samples(trial_seed(point_count), point_count, RANSAC_ITERATIONS))
}

/// The number of points that agree with a trial; none with a trial that failed.
pub open spec fn agreement(counts: Seq<Option<usize>>, i: int) -> int {
    match counts[i] {
        Some(count) => count as int,
        None => 0,
    }
}

/// The first trial with which most points agree.
pub open spec fn is_best_trial(counts: Seq<Option<usize>>, best: int) -> bool {
    &&& 0 <= best < counts.len()
    &&& forall|i: int| 0 <= i < counts.len() ==> #[trigger] agreement(counts, i) <= agreement(
        counts,
        best,
    )
    &&& forall|i: int| 0 <= i < best ==> #[trigger] agreement(counts, i) < agreement(counts, best)
}

/// The trial that wins: the first with which most points agree, if enough do. `counts` holds the
/// agreeing points of every trial, `None` where it failed.
pub fn best_trial(counts: &Vec<Option<usize>>, minimum_inliers: usize) -> (best: Option<usize>)
    requires
        minimum_inliers > 0,
    ensures
        best matches Some(k) ==> is_best_trial(counts@, k as int) && agreement(counts@, k as int)
            >= minimum_inliers,
        best is None ==> forall|i: int|
            0 <= i < counts@.len() ==> #[trigger] agreement(counts@, i) < minimum_inliers,
{
    let mut best: Option<usize> = None;
    let mut most: usize = 0;
    let mut i: usize = 0;
    while i < counts.len()
        invariant
            i <= counts@.len(),
            best is None ==> most == 0,
            best matches Some(k) ==> k < i && most == agreement(counts@, k as int) && most > 0
                && forall|j: int| 0 <= j < k ==> #[trigger] agreement(counts@, j) < most,
            forall|j: int| 0 <= j < i ==> #[trigger] agreement(counts@, j) <= most,
        decreases counts@.len() - i,
    {
        let count: usize = match counts[i] {
            Some(count) => count,
            None => 0,
        };
        assert(count == agreement(counts@, i as int));
        if count > most {
            most = count;
            best = Some(i);
        }
        i += 1;
    }
    if most >= minimum_inliers {
        best
    } else {
        None
    }
}

/// No fit is accepted from fewer than four agreeing points, whatever is asked for.
pub fn least_inliers(requested: usize) -> (least: usize)
    ensures
        least == if requested < 4 {
            4
        } else {
            requested
        },
{
    if requested < 4 {
        4
    } else {
        requested
    }
}

/// The trial that wins is the first with which most points agree.
pub proof fn law_no_trial_has_more_agreement(
    counts: Seq<Option<usize>>,
    best: int,
    i: int,
    count: usize,
)
    requires
        is_best_trial(counts, best),
        0 <= i < counts.len(),
        counts[i] == Some(count),
        0 < count,
    ensures
        counts[best] is Some,
        counts[best]->0 >= count,
        counts[best]->0 == count ==> best <= i,
{
    assert(agreement(counts, i) == count);
    assert(agreement(counts, best) >= count);
}

/// A sample holds four different points of those that there are.
pub proof fn law_samples_hold_different_points(sample: Seq<usize>, count: int, i: int, j: int)
    requires
        is_sample(sample, count),
        0 <= i < j < 4,
    ensures
        sample.len() == 4,
        sample[i] != sample[j],
        sample[i] < count,
        sample[j] < count,
{
}

} // verus!
