//! Mutual matches between the features of two images.

use vstd::prelude::*;

use crate::features::KeyPoint;

verus! {

/// A point of an image with the descriptor of its patch.
#[derive(Debug, Clone, Copy)]
pub struct Feature {
    pub keypoint: KeyPoint,
    pub descriptor: [u8; 32],
}

/// A feature of the first image and one of the second that show the same thing.
#[derive(Debug, Clone, Copy, PartialEq, Eq, Structural)]
pub struct Match {
    pub index1: usize,
    pub index2: usize,
}

/// A ratio of two whole numbers.
#[derive(Debug, Clone, Copy, PartialEq, Eq, Structural)]
pub struct Ratio {
    pub numerator: u32,
    pub denominator: u32,
}

/// The distance of a feature that is not there.
pub const NO_DISTANCE: u32 = 0xffff_ffff;

/// The number of bits that are set.
pub open spec fn bit_count(byte: u8) -> int
    decreases byte,
{
    if byte == 0 {
        0
    } else {
        byte % 2 + bit_count((byte / 2) as u8)
    }
}

/// The number of bits in which the first bytes of two descriptors differ.
pub open spec fn bit_difference(a: Seq<u8>, b: Seq<u8>, count: int) -> int
    decreases count,
{
    if count <= 0 {
        0
    } else {
        bit_difference(a, b, count - 1) + bit_count(a[count - 1] ^ b[count - 1])
    }
}

/// The number of bits in which two descriptors differ.
pub open spec fn distance(a: Feature, b: Feature) -> int {
    bit_difference(a.descriptor@, b.descriptor@, 32)
}

fn count_bits(byte: u8) -> (count: u32)
    ensures
        count == bit_count(byte),
        count <= 8,
{
    let mut rest: u8 = byte;
    let mut count: u32 = 0;
    let mut steps: u32 = 0;
    while rest > 0
        invariant
            count + bit_count(rest) == bit_count(byte),
            count <= steps,
            steps <= 8,
            steps == 0 ==> rest <= 255,
            steps == 1 ==> rest < 128,
            steps == 2 ==> rest < 64,
            steps == 3 ==> rest < 32,
            steps == 4 ==> rest < 16,
            steps == 5 ==> rest < 8,
            steps == 6 ==> rest < 4,
            steps == 7 ==> rest < 2,
            steps == 8 ==> rest == 0,
        decreases rest,
    {
        count += (rest % 2) as u32;
        rest = rest / 2;
        steps += 1;
    }
    count
}

/// The number of bits in which the descriptors of two features differ.
pub fn hamming_distance(a: &Feature, b: &Feature) -> (bits: u32)
    ensures
        bits == distance(*a, *b),
        bits <= 256,
{
    let mut bits: u32 = 0;
    let mut i: usize = 0;
    while i < 32
        invariant
            i <= 32,
            bits == bit_difference(a.descriptor@, b.descriptor@, i as int),
            bits <= i * 8,
        decreases 32 - i,
    {
        bits += count_bits(a.descriptor[i] ^ b.descriptor[i]);
        i += 1;
    }
    bits
}

/// The distance does not depend on the order.
pub proof fn law_distance_is_symmetric(a: Feature, b: Feature)
    ensures
        distance(a, b) == distance(b, a),
{
    lemma_difference_is_symmetric(a.descriptor@, b.descriptor@, 32);
}

proof fn lemma_difference_is_symmetric(a: Seq<u8>, b: Seq<u8>, count: int)
    ensures
        bit_difference(a, b, count) == bit_difference(b, a, count),
    decreases count,
{
    if count > 0 {
        lemma_difference_is_symmetric(a, b, count - 1);
        let (x, y) = (a[count - 1], b[count - 1]);
        assert(x ^ y == y ^ x) by (bit_vector);
    }
}

/// A feature does not differ from itself.
pub proof fn law_distance_to_itself_is_zero(a: Feature)
    ensures
        distance(a, a) == 0,
{
    lemma_no_difference(a.descriptor@, 32);
}

proof fn lemma_no_difference(a: Seq<u8>, count: int)
    ensures
        bit_difference(a, a, count) == 0,
    decreases count,
{
    if count > 0 {
        lemma_no_difference(a, count - 1);
        let x = a[count - 1];
        assert(x ^ x == 0) by (bit_vector);
    }
}

/// Flipping one bit of a descriptor takes it one step closer to another descriptor where the
/// two differed in that bit, and one step away where they agreed.
pub proof fn law_every_bit_counts_once(a: Feature, flipped: Feature, b: Feature, i: int, k: u8)
    requires
        0 <= i < 32,
        k < 8,
        flipped.descriptor@ == a.descriptor@.update(i, a.descriptor@[i] ^ (1u8 << k)),
    ensures
        (a.descriptor@[i] >> k) & 1 == (b.descriptor@[i] >> k) & 1 ==> distance(flipped, b)
            == distance(a, b) + 1,
        (a.descriptor@[i] >> k) & 1 != (b.descriptor@[i] >> k) & 1 ==> distance(flipped, b)
            == distance(a, b) - 1,
{
    let (x, y) = (a.descriptor@[i], b.descriptor@[i]);
    let bit = 1u8 << k;
    lemma_flip_bit(x ^ y, k);
    assert((x ^ bit) ^ y == (x ^ y) ^ bit) by (bit_vector);
    assert(((x ^ y) >> k) & 1 == 0 <==> (x >> k) & 1 == (y >> k) & 1) by (bit_vector);
    lemma_difference_of_update(a.descriptor@, b.descriptor@, i, x ^ bit, 32);
}

/// Only equal descriptors have no distance.
pub proof fn law_no_distance_means_equal(a: Feature, b: Feature)
    requires
        distance(a, b) == 0,
    ensures
        a.descriptor@ == b.descriptor@,
{
    lemma_difference_bounds(a.descriptor@, b.descriptor@, 32);
    assert forall|i: int| 0 <= i < 32 implies a.descriptor@[i] == b.descriptor@[i] by {
        lemma_no_difference_means_equal(a.descriptor@, b.descriptor@, 32, i);
    }
    assert(a.descriptor@ =~= b.descriptor@);
}

/// There is no shorter way over a third descriptor.
pub proof fn law_no_detour_is_shorter(a: Feature, b: Feature, c: Feature)
    ensures
        distance(a, c) <= distance(a, b) + distance(b, c),
{
    lemma_difference_triangle(a.descriptor@, b.descriptor@, c.descriptor@, 32);
}

proof fn lemma_flip_bit(z: u8, k: u8)
    requires
        k < 8,
    ensures
        bit_count(z ^ (1u8 << k)) == bit_count(z) + if (z >> k) & 1 == 0 {
            1int
        } else {
            -1int
        },
    decreases k,
{
    let f = z ^ (1u8 << k);
    lemma_bit_count_step(z);
    lemma_bit_count_step(f);
    if k == 0 {
        assert(f / 2 == z / 2 && f % 2 == 1 - z % 2 && ((z >> k) & 1 == 0 <==> z % 2 == 0))
            by (bit_vector)
            requires
                k == 0,
                f == z ^ (1u8 << k),
        ;
    } else {
        let j = (k - 1) as u8;
        let half = z / 2;
        lemma_flip_bit(half, j);
        assert(f / 2 == half ^ (1u8 << j) && f % 2 == z % 2 && (z >> k) & 1 == (half >> j) & 1)
            by (bit_vector)
            requires
                0 < k < 8,
                j == k - 1,
                half == z / 2,
                f == z ^ (1u8 << k),
        ;
    }
}

proof fn lemma_bit_count_step(z: u8)
    ensures
        bit_count(z) == z % 2 + bit_count((z / 2) as u8),
{
    if z == 0 {
        assert(bit_count(0) == 0);
    }
}

proof fn lemma_bit_count_bounds(z: u8)
    ensures
        0 <= bit_count(z),
        bit_count(z) == 0 ==> z == 0,
    decreases z,
{
    if z > 0 {
        lemma_bit_count_bounds((z / 2) as u8);
    }
}

proof fn lemma_bit_count_triangle(x: u8, y: u8)
    ensures
        bit_count(x ^ y) <= bit_count(x) + bit_count(y),
    decreases x + y,
{
    let z = x ^ y;
    lemma_bit_count_step(x);
    lemma_bit_count_step(y);
    lemma_bit_count_step(z);
    assert(z / 2 == (x / 2) ^ (y / 2) && z % 2 <= x % 2 + y % 2) by (bit_vector)
        requires
            z == x ^ y,
    ;
    if x > 0 || y > 0 {
        lemma_bit_count_triangle((x / 2) as u8, (y / 2) as u8);
    } else {
        assert(z == 0) by (bit_vector)
            requires
                z == x ^ y,
                x == 0,
                y == 0,
        ;
    }
}

proof fn lemma_difference_triangle(a: Seq<u8>, b: Seq<u8>, c: Seq<u8>, count: int)
    ensures
        bit_difference(a, c, count) <= bit_difference(a, b, count) + bit_difference(b, c, count),
    decreases count,
{
    if count > 0 {
        lemma_difference_triangle(a, b, c, count - 1);
        let (x, y, z) = (a[count - 1], b[count - 1], c[count - 1]);
        lemma_bit_count_triangle(x ^ y, y ^ z);
        assert((x ^ y) ^ (y ^ z) == x ^ z) by (bit_vector);
    }
}

proof fn lemma_difference_of_update(a: Seq<u8>, b: Seq<u8>, i: int, value: u8, count: int)
    requires
        0 <= i < a.len(),
        count <= a.len(),
    ensures
        bit_difference(a.update(i, value), b, count) == bit_difference(a, b, count) + if i < count {
            bit_count(value ^ b[i]) - bit_count(a[i] ^ b[i])
        } else {
            0
        },
    decreases count,
{
    if count > 0 {
        lemma_difference_of_update(a, b, i, value, count - 1);
    }
}

proof fn lemma_difference_bounds(a: Seq<u8>, b: Seq<u8>, count: int)
    ensures
        0 <= bit_difference(a, b, count),
    decreases count,
{
    if count > 0 {
        lemma_difference_bounds(a, b, count - 1);
        lemma_bit_count_bounds(a[count - 1] ^ b[count - 1]);
    }
}

proof fn lemma_no_difference_means_equal(a: Seq<u8>, b: Seq<u8>, count: int, i: int)
    requires
        bit_difference(a, b, count) == 0,
        0 <= i < count,
    ensures
        a[i] == b[i],
    decreases count,
{
    lemma_difference_bounds(a, b, count - 1);
    let (x, y) = (a[count - 1], b[count - 1]);
    lemma_bit_count_bounds(x ^ y);
    if i == count - 1 {
        assert(x ^ y == 0 ==> x == y) by (bit_vector);
    } else {
        lemma_no_difference_means_equal(a, b, count - 1, i);
    }
}

/// Which features of two images may be matched at all: a table with one row for every feature
/// of the first image, or all where there is no table.
pub open spec fn may_match(allowed: Option<Seq<Vec<bool>>>, i: int, j: int) -> bool {
    match allowed {
        Some(table) => table[i]@[j],
        None => true,
    }
}

/// One list of flags for every feature of the first image, as long as the second has
/// features.
pub open spec fn is_table(allowed: Option<Seq<Vec<bool>>>, rows: int, columns: int) -> bool {
    match allowed {
        Some(table) => table.len() == rows && forall|i: int|
            0 <= i < rows ==> (#[trigger] table[i])@.len() == columns,
        None => true,
    }
}

/// The table that a list of rows stands for.
pub open spec fn table_of(allowed: Option<&Vec<Vec<bool>>>) -> Option<Seq<Vec<bool>>> {
    match allowed {
        Some(table) => Some(table@),
        None => None,
    }
}

/// Whether two features may be matched.
fn permits(
    allowed: Option<&Vec<Vec<bool>>>,
    rows: Ghost<int>,
    columns: Ghost<int>,
    i: usize,
    j: usize,
) -> (permitted: bool)
    requires
        is_table(table_of(allowed), rows@, columns@),
        i < rows@,
        j < columns@,
    ensures
        permitted == may_match(table_of(allowed), i as int, j as int),
{
    match allowed {
        Some(table) => {
            assert(table@[i as int]@.len() == columns@);
            table[i][j]
        },
        None => true,
    }
}

/// Feature `j` of the second image is the nearest that feature `i` of the first may be
/// matched with; of several, the first.
pub open spec fn is_nearest(
    first: Seq<Feature>,
    second: Seq<Feature>,
    allowed: Option<Seq<Vec<bool>>>,
    i: int,
    j: int,
) -> bool {
    &&& 0 <= j < second.len()
    &&& may_match(allowed, i, j)
    &&& forall|k: int|
        0 <= k < second.len() && #[trigger] may_match(allowed, i, k) ==> distance(
            first[i],
            second[j],
        ) <= distance(first[i], second[k]) && (k < j ==> distance(first[i], second[j]) < distance(
            first[i],
            second[k],
        ))
}

/// Feature `i` of the first image is the nearest that feature `j` of the second may be
/// matched with; of several, the first.
pub open spec fn is_nearest_back(
    first: Seq<Feature>,
    second: Seq<Feature>,
    allowed: Option<Seq<Vec<bool>>>,
    i: int,
    j: int,
) -> bool {
    &&& 0 <= i < first.len()
    &&& may_match(allowed, i, j)
    &&& forall|k: int|
        0 <= k < first.len() && #[trigger] may_match(allowed, k, j) ==> distance(
            first[i],
            second[j],
        ) <= distance(first[k], second[j]) && (k < i ==> distance(first[i], second[j]) < distance(
            first[k],
            second[j],
        ))
}

/// The distance of the nearest feature other than `j`, if there is one.
pub open spec fn is_second_distance(
    first: Seq<Feature>,
    second: Seq<Feature>,
    allowed: Option<Seq<Vec<bool>>>,
    i: int,
    j: int,
    found: u32,
) -> bool {
    &&& forall|k: int|
        0 <= k < second.len() && k != j && #[trigger] may_match(allowed, i, k) ==> found <= distance(
            first[i],
            second[k],
        )
    &&& found == NO_DISTANCE || exists|k: int|
        0 <= k < second.len() && k != j && #[trigger] may_match(allowed, i, k) && found == distance(
            first[i],
            second[k],
        )
}

/// The nearest feature is clearly nearer than the second nearest.
pub open spec fn is_clear(best: int, second: int, ratio: Ratio) -> bool {
    second > 0 && best * ratio.denominator < second * ratio.numerator
}

/// The two features are each other's nearest, and clearly so for the first.
pub open spec fn is_match(
    first: Seq<Feature>,
    second: Seq<Feature>,
    allowed: Option<Seq<Vec<bool>>>,
    ratio: Ratio,
    i: int,
    j: int,
) -> bool {
    &&& 0 <= i < first.len()
    &&& is_nearest(first, second, allowed, i, j)
    &&& is_nearest_back(first, second, allowed, i, j)
    &&& exists|runner_up: u32|
        {
            &&& #[trigger] is_second_distance(first, second, allowed, i, j, runner_up)
            &&& is_clear(distance(first[i], second[j]), runner_up as int, ratio)
        }
}

/// The nearest feature, its distance and that of the second nearest.
struct Nearest {
    index: Option<usize>,
    best: u32,
    second: u32,
}

fn nearest(
    first: &Vec<Feature>,
    second: &Vec<Feature>,
    allowed: Option<&Vec<Vec<bool>>>,
    i: usize,
) -> (found: Nearest)
    requires
        i < first@.len(),
        is_table(table_of(allowed), first@.len() as int, second@.len() as int),
    ensures
        found.index is None ==> forall|j: int|
            0 <= j < second@.len() ==> !(#[trigger] may_match(table_of(allowed), i as int, j)),
        found.index matches Some(j) ==> is_nearest(
            first@,
            second@,
            table_of(allowed),
            i as int,
            j as int,
        ) && found.best == distance(first@[i as int], second@[j as int]) && is_second_distance(
            first@,
            second@,
            table_of(allowed),
            i as int,
            j as int,
            found.second,
        ),
{
    let mut index: Option<usize> = None;
    let mut best: u32 = NO_DISTANCE;
    let mut runner_up: u32 = NO_DISTANCE;
    let ghost mut runner: int = 0;
    let ghost a = first@[i as int];
    let mut j: usize = 0;
    while j < second.len()
        invariant
            j <= second@.len(),
            i < first@.len(),
            a == first@[i as int],
            is_table(table_of(allowed), first@.len() as int, second@.len() as int),
            index is None ==> best == NO_DISTANCE && runner_up == NO_DISTANCE && forall|k: int|
                0 <= k < j ==> !(#[trigger] may_match(table_of(allowed), i as int, k)),
            index matches Some(m) ==> {
                &&& m < j
                &&& may_match(table_of(allowed), i as int, m as int)
                &&& best == distance(a, second@[m as int])
                &&& best <= 256
                &&& best <= runner_up
                &&& forall|k: int|
                    0 <= k < j && #[trigger] may_match(table_of(allowed), i as int, k) ==> best <= distance(
                        a,
                        second@[k],
                    ) && (k < m ==> best < distance(a, second@[k])) && (k != m ==> runner_up
                        <= distance(a, second@[k]))
                &&& runner_up == NO_DISTANCE || (0 <= runner < j && runner != m && may_match(
                    table_of(allowed),
                    i as int,
                    runner,
                ) && runner_up == distance(a, second@[runner]))
            },
        decreases second@.len() - j,
    {
        if permits(allowed, Ghost(first@.len() as int), Ghost(second@.len() as int), i, j) {
            assert(may_match(table_of(allowed), i as int, j as int));
            let bits: u32 = hamming_distance(&first[i], &second[j]);
            if bits < best {
                proof {
                    if let Some(m) = index {
                        runner = m as int;
                    }
                }
                runner_up = best;
                best = bits;
                index = Some(j);
            } else if bits < runner_up {
                runner_up = bits;
                proof {
                    runner = j as int;
                }
            }
        } else {
            assert(!may_match(table_of(allowed), i as int, j as int));
        }
        j += 1;
    }
    proof {
        if let Some(m) = index {
            if runner_up != NO_DISTANCE {
                assert(may_match(table_of(allowed), i as int, runner));
            }
        }
    }
    Nearest { index, best, second: runner_up }
}

fn nearest_back(
    first: &Vec<Feature>,
    second: &Vec<Feature>,
    allowed: Option<&Vec<Vec<bool>>>,
    j: usize,
) -> (found: Option<usize>)
    requires
        j < second@.len(),
        is_table(table_of(allowed), first@.len() as int, second@.len() as int),
    ensures
        found is None ==> forall|i: int|
            0 <= i < first@.len() ==> !(#[trigger] may_match(table_of(allowed), i, j as int)),
        found matches Some(i) ==> is_nearest_back(first@, second@, table_of(allowed), i as int, j as int),
{
    let mut index: Option<usize> = None;
    let mut best: u32 = NO_DISTANCE;
    let ghost b = second@[j as int];
    let mut i: usize = 0;
    while i < first.len()
        invariant
            i <= first@.len(),
            j < second@.len(),
            b == second@[j as int],
            is_table(table_of(allowed), first@.len() as int, second@.len() as int),
            index is None ==> best == NO_DISTANCE && forall|k: int|
                0 <= k < i ==> !(#[trigger] may_match(table_of(allowed), k, j as int)),
            index matches Some(m) ==> {
                &&& m < i
                &&& may_match(table_of(allowed), m as int, j as int)
                &&& best == distance(first@[m as int], b)
                &&& best <= 256
                &&& forall|k: int|
                    0 <= k < i && #[trigger] may_match(table_of(allowed), k, j as int) ==> best <= distance(
                        first@[k],
                        b,
                    ) && (k < m ==> best < distance(first@[k], b))
            },
        decreases first@.len() - i,
    {
            if permits(allowed, Ghost(first@.len() as int), Ghost(second@.len() as int), i, j) {
            assert(may_match(table_of(allowed), i as int, j as int));
            let bits: u32 = hamming_distance(&first[i], &second[j]);
            if bits < best {
                best = bits;
                index = Some(i);
            }
        } else {
            assert(!may_match(table_of(allowed), i as int, j as int));
        }
        i += 1;
    }
    index
}

/// There is one nearest feature.
proof fn lemma_nearest_is_unique(
    first: Seq<Feature>,
    second: Seq<Feature>,
    allowed: Option<Seq<Vec<bool>>>,
    i: int,
    a: int,
    b: int,
)
    requires
        is_nearest(first, second, allowed, i, a),
        is_nearest(first, second, allowed, i, b),
    ensures
        a == b,
{
    assert(may_match(allowed, i, a));
    assert(may_match(allowed, i, b));
}

proof fn lemma_nearest_back_is_unique(
    first: Seq<Feature>,
    second: Seq<Feature>,
    allowed: Option<Seq<Vec<bool>>>,
    j: int,
    a: int,
    b: int,
)
    requires
        is_nearest_back(first, second, allowed, a, j),
        is_nearest_back(first, second, allowed, b, j),
    ensures
        a == b,
{
    assert(may_match(allowed, a, j));
    assert(may_match(allowed, b, j));
}

/// There is one second distance.
proof fn lemma_second_is_unique(
    first: Seq<Feature>,
    second: Seq<Feature>,
    allowed: Option<Seq<Vec<bool>>>,
    i: int,
    j: int,
    a: u32,
    b: u32,
)
    requires
        is_second_distance(first, second, allowed, i, j, a),
        is_second_distance(first, second, allowed, i, j, b),
    ensures
        a == b,
{
    if a != NO_DISTANCE {
        let k = choose|k: int|
            0 <= k < second.len() && k != j && #[trigger] may_match(allowed, i, k) && a == distance(
                first[i],
                second[k],
            );
        assert(may_match(allowed, i, k));
    }
    if b != NO_DISTANCE {
        let k = choose|k: int|
            0 <= k < second.len() && k != j && #[trigger] may_match(allowed, i, k) && b == distance(
                first[i],
                second[k],
            );
        assert(may_match(allowed, i, k));
    }
}

/// The match of a feature of the first image, if it has one.
fn match_of(
    first: &Vec<Feature>,
    second: &Vec<Feature>,
    allowed: Option<&Vec<Vec<bool>>>,
    ratio: Ratio,
    i: usize,
) -> (matched: Option<usize>)
    requires
        i < first@.len(),
        is_table(table_of(allowed), first@.len() as int, second@.len() as int),
    ensures
        matched matches Some(j) ==> is_match(first@, second@, table_of(allowed), ratio, i as int, j as int),
        matched is None ==> forall|j: int|
            !(#[trigger] is_match(first@, second@, table_of(allowed), ratio, i as int, j)),
{
    let found: Nearest = nearest(first, second, allowed, i);
    let j: usize = match found.index {
        None => {
            assert forall|j: int| !(#[trigger] is_match(
                first@,
                second@,
                table_of(allowed),
                ratio,
                i as int,
                j,
            )) by {
                if is_match(first@, second@, table_of(allowed), ratio, i as int, j) {
                    assert(may_match(table_of(allowed), i as int, j));
                }
            }
            return None;
        },
        Some(j) => j,
    };
    let back: Option<usize> = nearest_back(first, second, allowed, j);
    assert(0 <= found.best * ratio.denominator <= 0xffff_ffff * 0xffff_ffff) by (nonlinear_arith)
        requires
            0 <= found.best <= 0xffff_ffff,
            0 <= ratio.denominator <= 0xffff_ffff,
    ;
    assert(0 <= found.second * ratio.numerator <= 0xffff_ffff * 0xffff_ffff) by (nonlinear_arith)
        requires
            0 <= found.second <= 0xffff_ffff,
            0 <= ratio.numerator <= 0xffff_ffff,
    ;
    let clear: bool = found.second > 0 && (found.best as u64) * (ratio.denominator as u64) < (
    found.second as u64) * (ratio.numerator as u64);
    let mutual: bool = match back {
        Some(k) => k == i,
        None => false,
    };
    proof {
        assert(clear == is_clear(found.best as int, found.second as int, ratio));
        assert forall|m: int| #[trigger]
            is_match(first@, second@, table_of(allowed), ratio, i as int, m) implies m == j && clear
            && mutual by {
            lemma_nearest_is_unique(first@, second@, table_of(allowed), i as int, m, j as int);
            let other = choose|other: u32|
                {
                    &&& #[trigger] is_second_distance(
                        first@,
                        second@,
                        table_of(allowed),
                        i as int,
                        m,
                        other,
                    )
                    &&& is_clear(distance(first@[i as int], second@[m]), other as int, ratio)
                };
            lemma_second_is_unique(
                first@,
                second@,
                table_of(allowed),
                i as int,
                j as int,
                other,
                found.second,
            );
            match back {
                Some(k) => {
                    lemma_nearest_back_is_unique(
                        first@,
                        second@,
                        table_of(allowed),
                        j as int,
                        i as int,
                        k as int,
                    );
                },
                None => {
                    assert(may_match(table_of(allowed), i as int, m));
                },
            }
        }
    }
    if clear && mutual {
        assert(is_second_distance(
            first@,
            second@,
            table_of(allowed),
            i as int,
            j as int,
            found.second,
        ));
        Some(j)
    } else {
        None
    }
}

/// The list holds exactly the matches, in the order of the first image.
pub open spec fn is_match_list(
    first: Seq<Feature>,
    second: Seq<Feature>,
    allowed: Option<Seq<Vec<bool>>>,
    ratio: Ratio,
    count: int,
    list: Seq<Match>,
) -> bool {
    &&& forall|k: int|
        0 <= k < list.len() ==> (#[trigger] list[k]).index1 < count && is_match(
            first,
            second,
            allowed,
            ratio,
            list[k].index1 as int,
            list[k].index2 as int,
        )
    &&& forall|k: int, m: int|
        0 <= k < m < list.len() ==> (#[trigger] list[k]).index1 < (#[trigger] list[m]).index1
    &&& forall|i: int, j: int|
        i < count && #[trigger] is_match(first, second, allowed, ratio, i, j) ==> lists_match(
            list,
            i,
            j,
        )
}

pub open spec fn lists_match(list: Seq<Match>, i: int, j: int) -> bool {
    exists|k: int| 0 <= k < list.len() && (#[trigger] list[k]).index1 == i && list[k].index2 == j
}

/// A list of matches grows by the match of the next feature, if it has one.
proof fn lemma_list_grows(
    first: Seq<Feature>,
    second: Seq<Feature>,
    allowed: Option<Seq<Vec<bool>>>,
    ratio: Ratio,
    before: Seq<Match>,
    i: usize,
    matched: Option<usize>,
)
    requires
        is_match_list(first, second, allowed, ratio, i as int, before),
        matched matches Some(j) ==> is_match(first, second, allowed, ratio, i as int, j as int),
        matched is None ==> forall|j: int|
            !(#[trigger] is_match(first, second, allowed, ratio, i as int, j)),
    ensures
        is_match_list(
            first,
            second,
            allowed,
            ratio,
            i + 1,
            match matched {
                Some(j) => before.push(Match { index1: i, index2: j }),
                None => before,
            },
        ),
{
    let list = match matched {
        Some(j) => before.push(Match { index1: i, index2: j }),
        None => before,
    };
    assert forall|a: int, b: int|
        a < i + 1 && #[trigger] is_match(first, second, allowed, ratio, a, b) implies lists_match(
        list,
        a,
        b,
    ) by {
        if a < i {
            assert(lists_match(before, a, b));
            let k = choose|k: int|
                0 <= k < before.len() && (#[trigger] before[k]).index1 == a && before[k].index2
                    == b;
            assert(list[k] == before[k]);
        } else {
            match matched {
                Some(j) => {
                    lemma_nearest_is_unique(first, second, allowed, a, b, j as int);
                    assert(list[before.len() as int].index1 == a);
                },
                None => {},
            }
        }
    }
}

/// The mutual matches of two images among the features that may be matched.
fn matches_among(
    features1: &Vec<Feature>,
    features2: &Vec<Feature>,
    ratio: Ratio,
    allowed: Option<&Vec<Vec<bool>>>,
) -> (matches: Vec<Match>)
    requires
        is_table(table_of(allowed), features1@.len() as int, features2@.len() as int),
    ensures
        is_match_list(
            features1@,
            features2@,
            table_of(allowed),
            ratio,
            features1@.len() as int,
            matches@,
        ),
{
    let mut list: Vec<Match> = Vec::new();
    let mut i: usize = 0;
    while i < features1.len()
        invariant
            i <= features1@.len(),
            is_table(table_of(allowed), features1@.len() as int, features2@.len() as int),
            is_match_list(features1@, features2@, table_of(allowed), ratio, i as int, list@),
        decreases features1@.len() - i,
    {
        let ghost before = list@;
        let matched: Option<usize> = match_of(features1, features2, allowed, ratio, i);
        if let Some(j) = matched {
            list.push(Match { index1: i, index2: j });
        }
        proof {
            lemma_list_grows(
                features1@,
                features2@,
                table_of(allowed),
                ratio,
                before,
                i,
                matched,
            );
        }
        i += 1;
    }
    list
}

/// The mutual matches of two images among the features that may be matched: each one's
/// nearest is the other, and the nearest is clearly nearer than the second nearest.
pub fn match_features_with_ratio_and_scale(
    features1: &Vec<Feature>,
    features2: &Vec<Feature>,
    ratio: Ratio,
    allowed: &Vec<Vec<bool>>,
) -> (matches: Vec<Match>)
    requires
        is_table(Some(allowed@), features1@.len() as int, features2@.len() as int),
    ensures
        is_match_list(
            features1@,
            features2@,
            Some(allowed@),
            ratio,
            features1@.len() as int,
            matches@,
        ),
{
    matches_among(features1, features2, ratio, Some(allowed))
}

/// The list holds exactly the mutual matches of all features.
pub open spec fn is_full_match_list(
    first: Seq<Feature>,
    second: Seq<Feature>,
    ratio: Ratio,
    list: Seq<Match>,
) -> bool {
    is_match_list(first, second, None, ratio, first.len() as int, list)
}

/// The mutual matches of two images.
pub fn match_features_with_ratio(
    features1: &Vec<Feature>,
    features2: &Vec<Feature>,
    ratio: Ratio,
) -> (matches: Vec<Match>)
    ensures
        is_full_match_list(features1@, features2@, ratio, matches@),
{
    matches_among(features1, features2, ratio, None)
}

/// The mutual matches of two images whose nearest is less than four fifths as far as the
/// second nearest.
pub fn match_features(features1: &Vec<Feature>, features2: &Vec<Feature>) -> (matches: Vec<Match>)
    ensures
        is_full_match_list(
            features1@,
            features2@,
            Ratio { numerator: 4, denominator: 5 },
            matches@,
        ),
{
    match_features_with_ratio(features1, features2, Ratio { numerator: 4, denominator: 5 })
}

/// The number of mutual matches of two images, counted one by one: neither the distances nor
/// the matches are kept.
pub fn count_mutual_descriptor_matches_with_ratio(
    features1: &Vec<Feature>,
    features2: &Vec<Feature>,
    ratio: Ratio,
) -> (count: usize)
    ensures
        exists|list: Seq<Match>| #[trigger]
            is_full_match_list(features1@, features2@, ratio, list) && count == list.len(),
{
    let mut count: usize = 0;
    let ghost mut list = Seq::<Match>::empty();
    let mut i: usize = 0;
    while i < features1.len()
        invariant
            i <= features1@.len(),
            count == list.len(),
            count <= i,
            is_match_list(features1@, features2@, None, ratio, i as int, list),
        decreases features1@.len() - i,
    {
        let matched: Option<usize> = match_of(features1, features2, None, ratio, i);
        let ghost before = list;
        if let Some(j) = matched {
            count += 1;
            proof {
                list = list.push(Match { index1: i, index2: j });
            }
        }
        proof {
            lemma_list_grows(features1@, features2@, None, ratio, before, i, matched);
        }
        i += 1;
    }
    assert(is_full_match_list(features1@, features2@, ratio, list));
    count
}

/// No feature of either image is matched twice.
pub proof fn law_matches_are_one_to_one(
    first: Seq<Feature>,
    second: Seq<Feature>,
    allowed: Option<Seq<Vec<bool>>>,
    ratio: Ratio,
    a: Match,
    b: Match,
)
    requires
        is_match(first, second, allowed, ratio, a.index1 as int, a.index2 as int),
        is_match(first, second, allowed, ratio, b.index1 as int, b.index2 as int),
        a.index1 == b.index1 || a.index2 == b.index2,
    ensures
        a == b,
{
    if a.index1 == b.index1 {
        lemma_nearest_is_unique(
            first,
            second,
            allowed,
            a.index1 as int,
            a.index2 as int,
            b.index2 as int,
        );
    } else {
        lemma_nearest_back_is_unique(
            first,
            second,
            allowed,
            a.index2 as int,
            a.index1 as int,
            b.index1 as int,
        );
    }
}

/// What a list of matches holds: no feature of the second image that may be matched is nearer
/// to the first of a pair, none but its own is even within the ratio, and no feature of the
/// first image that may be matched is nearer to the second of the pair.
pub proof fn law_matches_are_nearest_both_ways(
    first: Seq<Feature>,
    second: Seq<Feature>,
    allowed: Option<Seq<Vec<bool>>>,
    ratio: Ratio,
    list: Seq<Match>,
    found: Match,
)
    requires
        is_match_list(first, second, allowed, ratio, first.len() as int, list),
        list.contains(found),
    ensures
        found.index1 < first.len(),
        found.index2 < second.len(),
        allowed matches Some(table) ==> table[found.index1 as int]@[found.index2 as int],
        forall|j: int|
            #![trigger second[j]]
            0 <= j < second.len() && (allowed matches Some(table) ==> table[found.index1 as int]@[j])
                ==> {
                let own = distance(first[found.index1 as int], second[found.index2 as int]);
                let other = distance(first[found.index1 as int], second[j]);
                &&& own <= other
                &&& j != found.index2 ==> own * ratio.denominator < other * ratio.numerator
            },
        forall|i: int|
            #![trigger first[i]]
            0 <= i < first.len() && (allowed matches Some(table) ==> table[i]@[found.index2 as int])
                ==> distance(first[found.index1 as int], second[found.index2 as int]) <= distance(
                first[i],
                second[found.index2 as int],
            ),
{
    let k = choose|k: int| 0 <= k < list.len() && list[k] == found;
    assert(list[k].index1 < first.len());
    let (a, b) = (found.index1 as int, found.index2 as int);
    assert(is_match(first, second, allowed, ratio, a, b));
    assert(may_match(allowed, a, b));
    let own = distance(first[a], second[b]);
    let runner_up = choose|runner_up: u32|
        {
            &&& #[trigger] is_second_distance(first, second, allowed, a, b, runner_up)
            &&& is_clear(own, runner_up as int, ratio)
        };
    assert forall|j: int|
        #![trigger second[j]]
        0 <= j < second.len() && (allowed matches Some(table) ==> table[a]@[j]) implies {
        let other = distance(first[a], second[j]);
        &&& own <= other
        &&& j != found.index2 ==> own * ratio.denominator < other * ratio.numerator
    } by {
        assert(may_match(allowed, a, j));
        let other = distance(first[a], second[j]);
        if j != b {
            assert(runner_up <= other);
            assert(runner_up * ratio.numerator <= other * ratio.numerator) by (nonlinear_arith)
                requires
                    runner_up <= other,
                    0 <= ratio.numerator,
            ;
        }
    }
    assert forall|i: int|
        #![trigger first[i]]
        0 <= i < first.len() && (allowed matches Some(table) ==> table[i]@[b]) implies own
        <= distance(first[i], second[b]) by {
        assert(may_match(allowed, i, b));
    }
}

/// A list of matches leaves none out: two features that are nearer to each other than to all
/// others that they may be matched with, the first one by the ratio, are listed. A feature that
/// is alone is measured against `NO_DISTANCE`.
pub proof fn law_no_match_is_missed(
    first: Seq<Feature>,
    second: Seq<Feature>,
    allowed: Option<Seq<Vec<bool>>>,
    ratio: Ratio,
    list: Seq<Match>,
    found: Match,
)
    requires
        is_match_list(first, second, allowed, ratio, first.len() as int, list),
        found.index1 < first.len(),
        found.index2 < second.len(),
        allowed matches Some(table) ==> table[found.index1 as int]@[found.index2 as int],
        distance(first[found.index1 as int], second[found.index2 as int]) * ratio.denominator
            < 0xffff_ffff * ratio.numerator,
        forall|j: int|
            #![trigger second[j]]
            0 <= j < second.len() && j != found.index2 && (allowed matches Some(table)
                ==> table[found.index1 as int]@[j]) ==> {
                let own = distance(first[found.index1 as int], second[found.index2 as int]);
                let other = distance(first[found.index1 as int], second[j]);
                &&& own < other
                &&& own * ratio.denominator < other * ratio.numerator
            },
        forall|i: int|
            #![trigger first[i]]
            0 <= i < first.len() && i != found.index1 && (allowed matches Some(table)
                ==> table[i]@[found.index2 as int]) ==> distance(
                first[found.index1 as int],
                second[found.index2 as int],
            ) < distance(first[i], second[found.index2 as int]),
    ensures
        list.contains(found),
{
    let (a, b) = (found.index1 as int, found.index2 as int);
    let own = distance(first[a], second[b]);
    assert forall|j: int| 0 <= j < second.len() && #[trigger] may_match(allowed, a, j) implies own
        <= distance(first[a], second[j]) && (j < b ==> own < distance(first[a], second[j])) by {
        assert(second[j] == second[j]);
        assert(allowed matches Some(table) ==> table[a]@[j]);
    }
    assert(may_match(allowed, a, b));
    assert(is_nearest(first, second, allowed, a, b));
    assert forall|i: int| 0 <= i < first.len() && #[trigger] may_match(allowed, i, b) implies own
        <= distance(first[i], second[b]) && (i < a ==> own < distance(first[i], second[b])) by {
        assert(first[i] == first[i]);
        assert(allowed matches Some(table) ==> table[i]@[b]);
    }
    assert(is_nearest_back(first, second, allowed, a, b));
    let runner_up = lemma_second_exists(first, second, allowed, a, b, second.len() as int);
    assert(is_second_distance(first, second, allowed, a, b, runner_up));
    lemma_difference_bounds(first[a].descriptor@, second[b].descriptor@, 32);
    if runner_up != NO_DISTANCE {
        let j = choose|j: int|
            0 <= j < second.len() && j != b && #[trigger] may_match(allowed, a, j) && runner_up
                == distance(first[a], second[j]);
        assert(allowed matches Some(table) ==> table[a]@[j]);
        assert(second[j] == second[j]);
    }
    assert(is_clear(own, runner_up as int, ratio));
    assert(is_match(first, second, allowed, ratio, a, b));
    assert(lists_match(list, a, b));
    let k = choose|k: int|
        0 <= k < list.len() && (#[trigger] list[k]).index1 == a && list[k].index2 == b;
    assert(list[k] == found);
}

proof fn lemma_second_exists(
    first: Seq<Feature>,
    second: Seq<Feature>,
    allowed: Option<Seq<Vec<bool>>>,
    i: int,
    j: int,
    count: int,
) -> (found: u32)
    requires
        0 <= count <= second.len(),
    ensures
        forall|k: int|
            0 <= k < count && k != j && #[trigger] may_match(allowed, i, k) ==> found <= distance(
                first[i],
                second[k],
            ),
        found == NO_DISTANCE || exists|k: int|
            0 <= k < count && k != j && #[trigger] may_match(allowed, i, k) && found == distance(
                first[i],
                second[k],
            ),
    decreases count,
{
    if count == 0 {
        NO_DISTANCE
    } else {
        let before = lemma_second_exists(first, second, allowed, i, j, count - 1);
        let k = count - 1;
        let own = distance(first[i], second[k]);
        lemma_difference_bounds(first[i].descriptor@, second[k].descriptor@, 32);
        if k != j && may_match(allowed, i, k) && own < before {
            own as u32
        } else {
            before
        }
    }
}

/// What a list of the matches of whole images holds: no feature of either image is nearer to the
/// other of a pair, and in the second image none but its own is even within the ratio.
pub proof fn law_full_matches_are_nearest_of_all(
    first: Seq<Feature>,
    second: Seq<Feature>,
    ratio: Ratio,
    list: Seq<Match>,
    found: Match,
    i: int,
    j: int,
)
    requires
        is_full_match_list(first, second, ratio, list),
        list.contains(found),
        0 <= i < first.len(),
        0 <= j < second.len(),
    ensures
        found.index1 < first.len(),
        found.index2 < second.len(),
        ({
            let (one, two) = (first[found.index1 as int], second[found.index2 as int]);
            &&& distance(one, two) <= distance(one, second[j])
            &&& distance(one, two) <= distance(first[i], two)
            &&& j != found.index2 ==> distance(one, two) * ratio.denominator < distance(
                one,
                second[j],
            ) * ratio.numerator
        }),
{
    law_matches_are_nearest_both_ways(first, second, None, ratio, list, found);
    assert(second[j] == second[j] && first[i] == first[i]);
}

} // verus!
