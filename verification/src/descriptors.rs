//! Binary descriptors of image patches: the pairs of pixels that are compared, the bits
//! that come of it, and the choice of features among the levels of a pyramid.

use rand::distr::Uniform;
use rand::prelude::Distribution;
use rand::rngs::StdRng;
use rand::SeedableRng;
use vstd::prelude::*;

use crate::features::BRIEF_DESCRIPTOR_SIZE;
use crate::features::BRIEF_PATCH_SIZE;
use crate::features::KeyPoint;
use crate::window::sum_range;

verus! {

/// The bytes of a descriptor.
pub const DESCRIPTOR_BYTES: usize = 32;

/// The seed of the pairs, which are the same in every run of a build.
pub const BRIEF_SEED: u64 = 12345;

/// The numbers of a half-open range that a seeded generator draws one after the other.
pub uninterp spec fn drawn_numbers(seed: u64, low: i32, high: i32, count: usize) -> Seq<i32>;

/// Draws numbers from `rand::distr::Uniform` over a half-open range with a `StdRng` seeded by
/// `seed_from_u64`. The generator is a fixed ChaCha stream cipher, so that the numbers follow
/// from the seed, the range and the count. Every number lies in the range. Which numbers come is
/// named and not stated.
#[verifier::external_body]
fn draw_numbers(seed: u64, low: i32, high: i32, count: usize) -> (numbers: Vec<i32>)
    requires
        low < high,
    ensures
        numbers@ == drawn_numbers(seed, low, high, count),
        numbers@.len() == count,
        forall|i: int| 0 <= i < count ==> low <= #[trigger] numbers@[i] < high,
{
    let range = Uniform::new(low, high).unwrap();
    range.sample_iter(StdRng::seed_from_u64(seed)).take(count).collect()
}

/// A position in a patch, from its middle.
#[derive(Debug, Clone, Copy, PartialEq, Eq, Structural)]
pub struct PatchPoint {
    pub x: i32,
    pub y: i32,
}

/// Two positions whose brightness is compared.
#[derive(Debug, Clone, Copy, PartialEq, Eq, Structural)]
pub struct BriefPair {
    pub first: PatchPoint,
    pub second: PatchPoint,
}

/// Four numbers make a pair: the column and the row of the first position, then of the
/// second.
pub open spec fn pair_of(numbers: Seq<i32>, i: int) -> BriefPair {
    BriefPair {
        first: PatchPoint { x: numbers[4 * i], y: numbers[4 * i + 1] },
        second: PatchPoint { x: numbers[4 * i + 2], y: numbers[4 * i + 3] },
    }
}

/// The pairs that a list of numbers makes; what is left over of it is not used.
pub fn pairs_from_numbers(numbers: &Vec<i32>) -> (pairs: Vec<BriefPair>)
    ensures
        pairs@.len() == numbers@.len() / 4,
        forall|i: int| 0 <= i < pairs@.len() ==> #[trigger] pairs@[i] == pair_of(numbers@, i),
{
    let total: usize = numbers.len();
    let count: usize = total / 4;
    let mut pairs: Vec<BriefPair> = Vec::new();
    let mut i: usize = 0;
    while i < count
        invariant
            i <= count,
            total == numbers@.len(),
            count == total / 4,
            pairs@.len() == i,
            forall|j: int| 0 <= j < i ==> #[trigger] pairs@[j] == pair_of(numbers@, j),
        decreases count - i,
    {
        assert(4 * i + 3 < numbers@.len());
        pairs.push(
            BriefPair {
                first: PatchPoint { x: numbers[4 * i], y: numbers[4 * i + 1] },
                second: PatchPoint { x: numbers[4 * i + 2], y: numbers[4 * i + 3] },
            },
        );
        i += 1;
    }
    pairs
}

/// The position lies in the patch.
pub open spec fn in_patch(point: PatchPoint) -> bool {
    let half = BRIEF_PATCH_SIZE as int / 2;
    -half <= point.x < half && -half <= point.y < half
}

/// The pairs of positions that make the bits of a descriptor, the same at every call.
pub fn generate_brief_pairs() -> (pairs: Vec<BriefPair>)
    ensures
        pairs@.len() == 256,
        forall|i: int|
            0 <= i < pairs@.len() ==> #[trigger] pairs@[i] == pair_of(
                drawn_numbers(BRIEF_SEED, -16i32, 16i32, 1024usize),
                i,
            ),
        forall|i: int|
            0 <= i < pairs@.len() ==> in_patch((#[trigger] pairs@[i]).first) && in_patch(
                pairs@[i].second,
            ),
{
    let half: i32 = (BRIEF_PATCH_SIZE / 2) as i32;
    let numbers: Vec<i32> = draw_numbers(BRIEF_SEED, -half, half, BRIEF_DESCRIPTOR_SIZE * 4);
    let pairs: Vec<BriefPair> = pairs_from_numbers(&numbers);
    proof {
        assert forall|i: int| 0 <= i < pairs@.len() implies in_patch((#[trigger] pairs@[i]).first)
            && in_patch(pairs@[i].second) by {
            assert(-16 <= numbers@[4 * i] < 16);
            assert(-16 <= numbers@[4 * i + 1] < 16);
            assert(-16 <= numbers@[4 * i + 2] < 16);
            assert(-16 <= numbers@[4 * i + 3] < 16);
        }
    }
    pairs
}

/// The squared length of a position.
pub open spec fn squared_length(point: PatchPoint) -> int {
    point.x * point.x + point.y * point.y
}

/// The radius holds every position of the pairs, however they are turned, and the patch, and
/// one pixel more.
pub open spec fn is_pair_radius(pairs: Seq<BriefPair>, half_patch: int, radius: int) -> bool {
    let inner = radius - 1;
    &&& inner >= half_patch
    &&& forall|i: int|
        0 <= i < pairs.len() ==> squared_length((#[trigger] pairs[i]).first) <= inner * inner
            && squared_length(pairs[i].second) <= inner * inner
}

fn squared(point: PatchPoint) -> (length: i64)
    requires
        -0x7fff <= point.x <= 0x7fff,
        -0x7fff <= point.y <= 0x7fff,
    ensures
        length == squared_length(point),
        0 <= length <= 0x7fff * 0x7fff * 2,
{
    assert(0 <= point.x * point.x <= 0x7fff * 0x7fff) by (nonlinear_arith)
        requires
            -0x7fff <= point.x <= 0x7fff,
    ;
    assert(0 <= point.y * point.y <= 0x7fff * 0x7fff) by (nonlinear_arith)
        requires
            -0x7fff <= point.y <= 0x7fff,
    ;
    (point.x as i64) * (point.x as i64) + (point.y as i64) * (point.y as i64)
}

/// The smallest radius that holds the pairs and the patch.
pub fn pair_radius(pairs: &Vec<BriefPair>, patch_size: u32) -> (radius: u32)
    requires
        patch_size <= 0xffff,
        forall|i: int|
            0 <= i < pairs@.len() ==> -0x7fff <= (#[trigger] pairs@[i]).first.x <= 0x7fff && -0x7fff
                <= pairs@[i].first.y <= 0x7fff && -0x7fff <= pairs@[i].second.x <= 0x7fff && -0x7fff
                <= pairs@[i].second.y <= 0x7fff,
    ensures
        is_pair_radius(pairs@, patch_size as int / 2, radius as int),
        forall|other: int| #[trigger]
            is_pair_radius(pairs@, patch_size as int / 2, other) && other >= 1 ==> radius <= other,
        radius <= 0x1_0000,
{
    let mut longest: i64 = 0;
    let ghost mut at: Option<(int, bool)> = None;
    let mut i: usize = 0;
    while i < pairs.len()
        invariant
            i <= pairs@.len(),
            forall|j: int|
                0 <= j < pairs@.len() ==> -0x7fff <= (#[trigger] pairs@[j]).first.x <= 0x7fff
                    && -0x7fff <= pairs@[j].first.y <= 0x7fff && -0x7fff <= pairs@[j].second.x
                    <= 0x7fff && -0x7fff <= pairs@[j].second.y <= 0x7fff,
            0 <= longest <= 0x7fff * 0x7fff * 2,
            forall|j: int|
                0 <= j < i ==> squared_length((#[trigger] pairs@[j]).first) <= longest
                    && squared_length(pairs@[j].second) <= longest,
            match at {
                None => longest == 0,
                Some((k, first)) => 0 <= k < i && longest == squared_length(
                    if first {
                        pairs@[k].first
                    } else {
                        pairs@[k].second
                    },
                ),
            },
        decreases pairs@.len() - i,
    {
        let first: i64 = squared(pairs[i].first);
        let second: i64 = squared(pairs[i].second);
        if first > longest {
            longest = first;
            proof {
                at = Some((i as int, true));
            }
        }
        if second > longest {
            longest = second;
            proof {
                at = Some((i as int, false));
            }
        }
        i += 1;
    }
    let mut inner: i64 = (patch_size / 2) as i64;
    let ghost half = patch_size as int / 2;
    assert(0 <= inner * inner <= 0xffff * 0xffff) by (nonlinear_arith)
        requires
            0 <= inner <= 0xffff,
    ;
    while inner * inner < longest
        invariant
            0 <= half <= inner <= 0xffff,
            0 <= longest <= 0x7fff * 0x7fff * 2,
            0 <= inner * inner <= 0xffff * 0xffff,
            inner == half || (inner - 1) * (inner - 1) < longest,
        decreases 0xffff - inner,
    {
        assert(inner < 0xffff) by {
            if inner == 0xffff {
                assert(inner * inner == 0xffff * 0xffff) by (nonlinear_arith)
                    requires
                        inner == 0xffff,
                ;
            }
        }
        inner += 1;
        assert(0 <= inner * inner <= 0xffff * 0xffff) by (nonlinear_arith)
            requires
                0 <= inner <= 0xffff,
        ;
    }
    proof {
        assert(is_pair_radius(pairs@, half, inner + 1));
        assert forall|other: int| #[trigger]
            is_pair_radius(pairs@, half, other) && other >= 1 implies inner + 1 <= other by {
            if other - 1 < inner {
                let small = other - 1;
                assert(small * small <= (inner - 1) * (inner - 1)) by (nonlinear_arith)
                    requires
                        0 <= small <= inner - 1,
                ;
                assert(longest > 0);
                match at {
                    Some((k, first)) => {
                        assert(squared_length(pairs@[k].first) <= small * small);
                        assert(squared_length(pairs@[k].second) <= small * small);
                    },
                    None => {},
                }
            }
        }
    }
    (inner + 1) as u32
}

/// Whether the patch around a point, with this radius, lies inside of an image.
pub fn patch_fits(point: KeyPoint, radius: u32, width: u32, height: u32) -> (fits: bool)
    requires
        radius <= 0x1_0000,
    ensures
        fits == (width > 2 * radius && height > 2 * radius && radius <= point.x && radius <= point.y
            && point.x + radius < width && point.y + radius < height),
{
    width > 2 * radius && height > 2 * radius && point.x >= radius && point.y >= radius && (
    point.x as u64) + (radius as u64) < width as u64 && (point.y as u64) + (radius as u64)
        < height as u64
}

/// Bit `i` of a descriptor; the bits of a byte count from the lowest.
pub open spec fn descriptor_bit(descriptor: Seq<u8>, i: int) -> bool {
    (descriptor[i / 8] >> ((i % 8) as u8)) & 1u8 == 1u8
}

/// The descriptor whose bits say for each pair whether the first position is darker.
pub fn pack_descriptor(darker: &Vec<bool>) -> (descriptor: [u8; 32])
    requires
        darker@.len() == BRIEF_DESCRIPTOR_SIZE,
    ensures
        forall|i: int|
            0 <= i < BRIEF_DESCRIPTOR_SIZE ==> #[trigger] descriptor_bit(descriptor@, i)
                == darker@[i],
{
    let mut descriptor: [u8; 32] = [0;32];
    let mut i: usize = 0;
    assert forall|j: int| 0 <= j < 256 implies !(#[trigger] descriptor_bit(descriptor@, j)) by {
        let k = (j % 8) as u8;
        assert((0u8 >> k) & 1u8 == 0u8) by (bit_vector);
    }
    while i < 256
        invariant
            i <= 256,
            darker@.len() == 256,
            descriptor@.len() == 32,
            forall|j: int| 0 <= j < i ==> #[trigger] descriptor_bit(descriptor@, j) == darker@[j],
            forall|j: int| i <= j < 256 ==> !(#[trigger] descriptor_bit(descriptor@, j)),
        decreases 256 - i,
    {
        if darker[i] {
            let ghost before = descriptor@;
            let byte: u8 = descriptor[i / 8];
            let shift: u8 = (i % 8) as u8;
            descriptor[i / 8] = byte | (1u8 << shift);
            proof {
                assert forall|j: int| 0 <= j < 256 implies #[trigger] descriptor_bit(descriptor@, j)
                    == (descriptor_bit(before, j) || j == i) by {
                    if j / 8 == i / 8 {
                        lemma_set_bit(byte, shift, (j % 8) as u8);
                    }
                }
            }
        }
        i += 1;
    }
    descriptor
}

proof fn lemma_set_bit(byte: u8, shift: u8, k: u8)
    requires
        shift < 8,
        k < 8,
    ensures
        (((byte | (1u8 << shift)) >> k) & 1u8 == 1u8) == ((byte >> k) & 1u8 == 1u8 || k == shift),
{
    assert((((byte | (1u8 << shift)) >> k) & 1u8 == 1u8) == ((byte >> k) & 1u8 == 1u8 || k
        == shift)) by (bit_vector)
        requires
            shift < 8,
            k < 8,
    ;
}

/// The number of features that the first level may give at first.
pub open spec fn native_quota(levels: int, most: int) -> int {
    if levels == 1 {
        most
    } else if most * 2 / 5 < 1 {
        1
    } else {
        most * 2 / 5
    }
}

/// The number of features that every other level may give at first.
pub open spec fn secondary_quota(levels: int, most: int) -> int {
    if levels <= 1 {
        1
    } else {
        let left = if most > native_quota(levels, most) {
            most - native_quota(levels, most)
        } else {
            0
        };
        if left / (levels - 1) < 1 {
            1
        } else {
            left / (levels - 1)
        }
    }
}

/// The number of features that a level gives at first.
pub open spec fn first_share(lengths: Seq<nat>, level: int, most: int) -> int {
    let quota = if level == 0 {
        native_quota(lengths.len() as int, most)
    } else {
        secondary_quota(lengths.len() as int, most)
    };
    if quota < lengths[level] {
        quota
    } else {
        lengths[level] as int
    }
}

pub open spec fn level_lengths<T>(levels: Seq<Vec<T>>) -> Seq<nat> {
    levels.map_values(|level: Vec<T>| level@.len())
}

/// The first features of the first levels, one level after the other.
pub open spec fn first_features<T>(levels: Seq<Vec<T>>, count: int, most: int) -> Seq<T>
    decreases count,
{
    if count <= 0 {
        Seq::empty()
    } else {
        first_features(levels, count - 1, most) + levels[count - 1]@.take(
            first_share(level_lengths(levels), count - 1, most),
        )
    }
}

/// The first features of all levels, followed by what else the first levels have, as far as
/// there is room.
pub open spec fn all_features<T>(levels: Seq<Vec<T>>, count: int, most: int) -> Seq<T>
    decreases count,
{
    if count <= 0 {
        first_features(levels, levels.len() as int, most)
    } else {
        let earlier = all_features(levels, count - 1, most);
        let start = first_share(level_lengths(levels), count - 1, most);
        let left = levels[count - 1]@.len() - start;
        let room = if most > earlier.len() {
            most - earlier.len()
        } else {
            0
        };
        earlier + levels[count - 1]@.subrange(
            start,
            start + (if room < left {
                room
            } else {
                left
            }),
        )
    }
}

fn append_range<T: Copy>(list: &mut Vec<T>, source: &Vec<T>, start: usize, end: usize)
    requires
        start <= end <= source@.len(),
    ensures
        final(list)@ == old(list)@ + source@.subrange(start as int, end as int),
{
    let ghost before = list@;
    let mut i: usize = start;
    while i < end
        invariant
            start <= i <= end <= source@.len(),
            before == old(list)@,
            list@ == before + source@.subrange(start as int, i as int),
        decreases end - i,
    {
        list.push(source[i]);
        i += 1;
        assert(source@.subrange(start as int, i as int) =~= source@.subrange(
            start as int,
            i - 1,
        ).push(source@[i - 1]));
    }
}

/// Chooses features from the levels of a pyramid, the image itself first. Most places are kept
/// for the image, the rest is spread over the other levels, and what a level leaves free is
/// taken up by the others in their order. No more than `most` come out.
pub fn select_features<T: Copy>(levels: &Vec<Vec<T>>, most: usize) -> (selected: Vec<T>)
    requires
        levels@.len() > 0,
        most <= usize::MAX / 2,
    ensures
        ({
            let all = all_features(levels@, levels@.len() as int, most as int);
            selected@ == if all.len() > most {
                all.take(most as int)
            } else {
                all
            }
        }),
        selected@.len() <= most,
{
    let count: usize = levels.len();
    let native: usize = if count == 1 {
        most
    } else if most * 2 / 5 < 1 {
        1
    } else {
        most * 2 / 5
    };
    let left: usize = if most > native {
        most - native
    } else {
        0
    };
    let secondary: usize = if count <= 1 || left / (count - 1) < 1 {
        1
    } else {
        left / (count - 1)
    };
    assert(native == native_quota(count as int, most as int));
    assert(secondary == secondary_quota(count as int, most as int));
    let ghost lengths = level_lengths(levels@);
    let mut shares: Vec<usize> = Vec::new();
    let mut selected: Vec<T> = Vec::new();
    let mut level: usize = 0;
    while level < count
        invariant
            level <= count,
            count == levels@.len(),
            lengths == level_lengths(levels@),
            native == native_quota(count as int, most as int),
            secondary == secondary_quota(count as int, most as int),
            shares@.len() == level,
            forall|k: int|
                0 <= k < level ==> #[trigger] shares@[k] == first_share(lengths, k, most as int)
                    && shares@[k] <= levels@[k]@.len(),
            selected@ == first_features(levels@, level as int, most as int),
        decreases count - level,
    {
        let quota: usize = if level == 0 {
            native
        } else {
            secondary
        };
        let available: usize = levels[level].len();
        let share: usize = if quota < available {
            quota
        } else {
            available
        };
        assert(lengths[level as int] == levels@[level as int]@.len());
        append_range(&mut selected, &levels[level], 0, share);
        assert(levels@[level as int]@.subrange(0, share as int) =~= levels@[level as int]@.take(
            share as int,
        ));
        shares.push(share);
        level += 1;
    }
    let mut next: usize = 0;
    while next < count
        invariant
            next <= count,
            count == levels@.len(),
            lengths == level_lengths(levels@),
            shares@.len() == count,
            forall|k: int|
                0 <= k < count ==> #[trigger] shares@[k] == first_share(lengths, k, most as int)
                    && shares@[k] <= levels@[k]@.len(),
            selected@ == all_features(levels@, next as int, most as int),
        decreases count - next,
    {
        let start: usize = shares[next];
        let rest: usize = levels[next].len() - start;
        let room: usize = if most > selected.len() {
            most - selected.len()
        } else {
            0
        };
        let taken: usize = if room < rest {
            room
        } else {
            rest
        };
        append_range(&mut selected, &levels[next], start, start + taken);
        next += 1;
    }
    if selected.len() > most {
        let ghost all = selected@;
        selected.truncate(most);
        assert(selected@ =~= all.take(most as int));
    }
    selected
}

/// The number of features on the first levels.
pub open spec fn feature_total<T>(levels: Seq<Vec<T>>, count: int) -> int
    decreases count,
{
    if count <= 0 {
        0
    } else {
        feature_total(levels, count - 1) + levels[count - 1]@.len()
    }
}

proof fn lemma_shares_add_up<T>(levels: Seq<Vec<T>>, count: int, most: int)
    requires
        0 <= count <= levels.len(),
        most >= 0,
    ensures
        0 <= first_features(levels, count, most).len() <= feature_total(levels, count),
    decreases count,
{
    if count > 0 {
        lemma_shares_add_up(levels, count - 1, most);
        assert(level_lengths(levels)[count - 1] == levels[count - 1]@.len());
    }
}

proof fn lemma_levels_lend<T>(levels: Seq<Vec<T>>, count: int, most: int)
    requires
        0 <= count <= levels.len(),
        most >= 0,
    ensures
        all_features(levels, count, most).len() >= most || all_features(levels, count, most).len()
            == first_features(levels, levels.len() as int, most).len() + feature_total(levels, count)
            - first_features(levels, count, most).len(),
    decreases count,
{
    if count > 0 {
        lemma_levels_lend(levels, count - 1, most);
        assert(level_lengths(levels)[count - 1] == levels[count - 1]@.len());
    }
}

/// No place stays free while a level has a feature left: as many features come out as are
/// asked for, or all there are.
pub proof fn law_selection_is_full<T>(levels: Seq<Vec<T>>, most: int)
    requires
        levels.len() > 0,
        most >= 0,
    ensures
        all_features(levels, levels.len() as int, most).len() >= if most < feature_total(
            levels,
            levels.len() as int,
        ) {
            most
        } else {
            feature_total(levels, levels.len() as int)
        },
{
    lemma_levels_lend(levels, levels.len() as int, most);
    lemma_shares_add_up(levels, levels.len() as int, most);
}

/// Four numbers of the list make a pair, and every one of them is used once, in order.
pub proof fn law_numbers_make_pairs_in_order(numbers: Seq<i32>, i: int)
    requires
        0 <= 4 * i,
        4 * i + 3 < numbers.len(),
    ensures
        seq![
            pair_of(numbers, i).first.x,
            pair_of(numbers, i).first.y,
            pair_of(numbers, i).second.x,
            pair_of(numbers, i).second.y,
        ] == numbers.subrange(4 * i, 4 * i + 4),
{
    assert(seq![
        pair_of(numbers, i).first.x,
        pair_of(numbers, i).first.y,
        pair_of(numbers, i).second.x,
        pair_of(numbers, i).second.y,
    ] =~= numbers.subrange(4 * i, 4 * i + 4));
}

/// A patch has 32 columns and rows, from 16 before its middle on.
pub proof fn law_patches_surround_their_middle(point: PatchPoint)
    ensures
        in_patch(point) <==> -16 <= point.x < 16 && -16 <= point.y < 16,
{
}

/// The radius of the pairs is larger than half of the patch, and by one pixel or more larger than
/// the way to every position.
pub proof fn law_radii_reach_past_every_position(
    pairs: Seq<BriefPair>,
    half_patch: int,
    radius: int,
    i: int,
)
    requires
        is_pair_radius(pairs, half_patch, radius),
        0 <= i < pairs.len(),
    ensures
        radius > half_patch,
        ({
            let (first, second) = (pairs[i].first, pairs[i].second);
            &&& first.x * first.x + first.y * first.y <= (radius - 1) * (radius - 1)
            &&& second.x * second.x + second.y * second.y <= (radius - 1) * (radius - 1)
        }),
{
}

/// A byte of a descriptor holds eight bits, the first one as its unit.
pub proof fn law_bytes_hold_eight_bits(descriptor: Seq<u8>, k: int)
    requires
        0 <= k < descriptor.len(),
    ensures
        ({
            let bit = |j: int|
                if descriptor_bit(descriptor, 8 * k + j) {
                    1int
                } else {
                    0
                };
            descriptor[k] == bit(0) + 2 * bit(1) + 4 * bit(2) + 8 * bit(3) + 16 * bit(4) + 32 * bit(5)
                + 64 * bit(6) + 128 * bit(7)
        }),
{
    let byte = descriptor[k];
    assert(byte == ((byte >> 0u8) & 1u8) + 2 * ((byte >> 1u8) & 1u8) + 4 * ((byte >> 2u8) & 1u8) + 8
        * ((byte >> 3u8) & 1u8) + 16 * ((byte >> 4u8) & 1u8) + 32 * ((byte >> 5u8) & 1u8) + 64 * ((
    byte >> 6u8) & 1u8) + 128 * ((byte >> 7u8) & 1u8)) by (bit_vector);
    assert forall|j: u8| (#[trigger] (byte >> j) & 1u8) == 0 || (byte >> j) & 1u8 == 1 by {
        let rest = byte >> j;
        assert(rest & 1u8 == 0 || rest & 1u8 == 1) by (bit_vector);
    }
    assert((8 * k + 0) / 8 == k && (8 * k + 0) % 8 == 0);
    assert((8 * k + 1) / 8 == k && (8 * k + 1) % 8 == 1);
    assert((8 * k + 2) / 8 == k && (8 * k + 2) % 8 == 2);
    assert((8 * k + 3) / 8 == k && (8 * k + 3) % 8 == 3);
    assert((8 * k + 4) / 8 == k && (8 * k + 4) % 8 == 4);
    assert((8 * k + 5) / 8 == k && (8 * k + 5) % 8 == 5);
    assert((8 * k + 6) / 8 == k && (8 * k + 6) % 8 == 6);
    assert((8 * k + 7) / 8 == k && (8 * k + 7) % 8 == 7);
}

/// How many features a level gives at first: all places if there is one level; otherwise the
/// image two fifths of them, one at least, and the other levels the same share of what is left
/// then, one at least. A level that has fewer gives all it has.
pub proof fn law_levels_share_the_places(lengths: Seq<nat>, level: int, most: int)
    requires
        0 <= level < lengths.len(),
        0 <= most,
    ensures
        ({
            let share = first_share(lengths, level, most);
            let levels = lengths.len() as int;
            &&& 0 <= share <= lengths[level]
            &&& levels == 1 ==> share == if most < lengths[level] {
                most
            } else {
                lengths[level] as int
            }
            &&& levels > 1 && level == 0 && share < lengths[level] ==> (share == 1 && 2 * most < 10
                || 5 * share <= 2 * most < 5 * (share + 1))
            &&& levels > 1 && level > 0 && share < lengths[level] && most >= 3 ==> {
                let left = most - 2 * most / 5;
                share == 1 && left < 2 * (levels - 1) || (levels - 1) * share <= left < (levels - 1)
                    * (share + 1)
            }
        }),
{
    let levels = lengths.len() as int;
    if levels > 1 && level > 0 && most >= 3 {
        let left = most - 2 * most / 5;
        vstd::arithmetic::div_mod::lemma_fundamental_div_mod(left, levels - 1);
        let quota = left / (levels - 1);
        assert((levels - 1) * (quota + 1) == (levels - 1) * quota + (levels - 1))
            by (nonlinear_arith);
        assert((levels - 1) * 0 == 0) by (nonlinear_arith);
    }
}

/// The first features of every level come out first, one level after the other.
pub proof fn law_first_features_lead<T>(levels: Seq<Vec<T>>, most: int, level: int, i: int)
    requires
        0 <= level < levels.len(),
        0 <= most,
        0 <= i < first_share(level_lengths(levels), level, most),
    ensures
        ({
            let shares = |l: int| first_share(level_lengths(levels), l, most);
            let all = all_features(levels, levels.len() as int, most);
            let place = sum_range(shares, 0, level) + i;
            0 <= place < all.len() && all[place] == levels[level]@[i]
        }),
{
    let shares = |l: int| first_share(level_lengths(levels), l, most);
    lemma_first_features(levels, most, levels.len() as int, level, i);
    lemma_first_features_stay(levels, most, levels.len() as int);
}

proof fn lemma_first_features<T>(levels: Seq<Vec<T>>, most: int, count: int, level: int, i: int)
    requires
        0 <= level < levels.len(),
        count <= levels.len(),
        0 <= most,
        0 <= i < first_share(level_lengths(levels), level, most),
        0 <= count,
    ensures
        ({
            let shares = |l: int| first_share(level_lengths(levels), l, most);
            let all = first_features(levels, count, most);
            let place = sum_range(shares, 0, level) + i;
            &&& all.len() == sum_range(shares, 0, count)
            &&& level < count ==> 0 <= place < all.len() && all[place] == levels[level]@[i]
        }),
    decreases count,
{
    let shares = |l: int| first_share(level_lengths(levels), l, most);
    if count > 0 {
        lemma_first_features(levels, most, count - 1, level, i);
        law_levels_share_the_places(level_lengths(levels), count - 1, most);
        assert(shares(count - 1) == first_share(level_lengths(levels), count - 1, most));
    }
}

proof fn lemma_first_features_stay<T>(levels: Seq<Vec<T>>, most: int, count: int)
    requires
        0 <= count <= levels.len(),
        0 <= most,
    ensures
        ({
            let first = first_features(levels, levels.len() as int, most);
            let all = all_features(levels, count, most);
            &&& first.len() <= all.len()
            &&& forall|k: int| 0 <= k < first.len() ==> #[trigger] all[k] == first[k]
        }),
    decreases count,
{
    if count > 0 {
        lemma_first_features_stay(levels, most, count - 1);
        law_levels_share_the_places(level_lengths(levels), count - 1, most);
    }
}

/// A radius is large enough as soon as it is larger than half of the patch and one pixel larger
/// than the way to every position.
pub proof fn law_radii_need_not_be_larger(pairs: Seq<BriefPair>, half_patch: int, radius: int)
    requires
        radius >= half_patch + 1,
        forall|i: int|
            #![trigger pairs[i]]
            0 <= i < pairs.len() ==> pairs[i].first.x * pairs[i].first.x + pairs[i].first.y
                * pairs[i].first.y <= (radius - 1) * (radius - 1) && pairs[i].second.x
                * pairs[i].second.x + pairs[i].second.y * pairs[i].second.y <= (radius - 1) * (radius
                - 1),
    ensures
        is_pair_radius(pairs, half_patch, radius),
{
}

} // verus!
