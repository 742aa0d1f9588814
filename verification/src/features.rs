//! Image features: contrast, corners, their selection, and binary descriptors.

use image::GrayImage;
use imageproc::corners::corners_fast9;
use vstd::prelude::*;

use crate::order::lemma_sorted;
use crate::order::sort_ascending;
use crate::raster::tabulate;
use crate::raster::Raster;

verus! {

/// Images are matched at no more than this length.
pub const MAX_PROCESSING_DIMENSION: u32 = 2400;

/// The bits of a descriptor.
pub const BRIEF_DESCRIPTOR_SIZE: usize = 256;

/// The edge of the patch that a descriptor looks at.
pub const BRIEF_PATCH_SIZE: u32 = 32;

/// The size of an image for matching. A pixel of it stands for `scale_numerator /
/// scale_denominator` pixels of the image.
#[derive(Debug, Clone, Copy, PartialEq, Eq, Structural)]
pub struct Downscaled {
    pub width: u32,
    pub height: u32,
    pub scale_numerator: u32,
    pub scale_denominator: u32,
}

/// A length divided by a ratio, rounded to the nearest whole number, halves up.
pub open spec fn rounded_ratio(length: int, numerator: int, denominator: int) -> int {
    (2 * length * denominator + numerator) / (2 * numerator)
}

pub open spec fn longer(a: u32, b: u32) -> u32 {
    if a > b {
        a
    } else {
        b
    }
}

/// The size of an image whose longer side is cut to a maximum. The division is exact, and
/// halves are rounded up.
pub fn calculate_downscale_dimensions_capped(width: u32, height: u32, max_dimension: u32) -> (scaled:
    Downscaled)
    requires
        max_dimension > 0,
    ensures
        longer(width, height) <= max_dimension ==> scaled == (Downscaled {
            width,
            height,
            scale_numerator: 1,
            scale_denominator: 1,
        }),
        longer(width, height) > max_dimension ==> {
            &&& scaled.scale_numerator == longer(width, height)
            &&& scaled.scale_denominator == max_dimension
            &&& scaled.width == rounded_ratio(
                width as int,
                longer(width, height) as int,
                max_dimension as int,
            )
            &&& scaled.height == rounded_ratio(
                height as int,
                longer(width, height) as int,
                max_dimension as int,
            )
            &&& scaled.width <= max_dimension
            &&& scaled.height <= max_dimension
        },
{
    let long_side: u32 = if width > height {
        width
    } else {
        height
    };
    if long_side <= max_dimension {
        return Downscaled { width, height, scale_numerator: 1, scale_denominator: 1 };
    }
    Downscaled {
        width: scale_down(width, long_side, max_dimension),
        height: scale_down(height, long_side, max_dimension),
        scale_numerator: long_side,
        scale_denominator: max_dimension,
    }
}

fn scale_down(length: u32, long_side: u32, max_dimension: u32) -> (scaled: u32)
    requires
        length <= long_side,
        0 < max_dimension < long_side,
    ensures
        scaled == rounded_ratio(length as int, long_side as int, max_dimension as int),
        scaled <= max_dimension,
{
    let (n, l, m) = (length as u128, long_side as u128, max_dimension as u128);
    assert(0 <= length * max_dimension <= long_side * max_dimension <= 0xffff_ffff * 0xffff_ffff)
        by (nonlinear_arith)
        requires
            0 <= length <= long_side <= 0xffff_ffff,
            0 <= max_dimension <= 0xffff_ffff,
    ;
    assert(2 * length * max_dimension == 2 * (length * max_dimension)) by (nonlinear_arith);
    let scaled: u128 = (2 * (n * m) + l) / (2 * l);
    assert((2 * (length * max_dimension) + long_side) / (2 * long_side) <= max_dimension)
        by (nonlinear_arith)
        requires
            length * max_dimension <= long_side * max_dimension,
            long_side > 0,
            max_dimension >= 0,
    ;
    scaled as u32
}

/// The size of an image for matching.
pub fn calculate_downscale_dimensions(width: u32, height: u32) -> (scaled: Downscaled)
    ensures
        longer(width, height) <= 2400 ==> scaled == (Downscaled {
            width,
            height,
            scale_numerator: 1,
            scale_denominator: 1,
        }),
        longer(width, height) > 2400 ==> {
            &&& scaled.scale_numerator == longer(width, height)
            &&& scaled.scale_denominator == 2400
            &&& scaled.width == rounded_ratio(
                width as int,
                longer(width, height) as int,
                2400,
            )
            &&& scaled.height == rounded_ratio(
                height as int,
                longer(width, height) as int,
                2400,
            )
        },
{
    calculate_downscale_dimensions_capped(width, height, MAX_PROCESSING_DIMENSION)
}

/// The smallest and the largest of some values.
pub open spec fn is_range(values: Seq<u8>, minimum: u8, maximum: u8) -> bool {
    &&& values.contains(minimum)
    &&& values.contains(maximum)
    &&& forall|i: int| 0 <= i < values.len() ==> minimum <= #[trigger] values[i] <= maximum
}

/// A value stretched from its range to the range of a byte, halves rounded up.
pub open spec fn stretched(value: u8, minimum: u8, maximum: u8) -> int {
    if maximum <= minimum {
        value as int
    } else {
        (2 * 255 * (value - minimum) + (maximum - minimum)) / (2 * (maximum - minimum))
    }
}

/// Stretches the values of an image over the whole range. An image of one value stays as
/// it is.
pub fn normalize_grayscale(img: &Raster<u8>) -> (normalized: Raster<u8>)
    requires
        img.well_formed(),
    ensures
        normalized.well_formed(),
        normalized.same_size(img),
        img.pixels@.len() == 0 ==> normalized.pixels@.len() == 0,
        img.pixels@.len() > 0 ==> exists|minimum: u8, maximum: u8|
            {
                &&& #[trigger] is_range(img.pixels@, minimum, maximum)
                &&& forall|i: int|
                    0 <= i < img.pixels@.len() ==> #[trigger] normalized.pixels@[i] == stretched(
                        img.pixels@[i],
                        minimum,
                        maximum,
                    )
            },
{
    let size: usize = img.pixels.len();
    let mut minimum: u8 = 255;
    let mut maximum: u8 = 0;
    let mut i: usize = 0;
    while i < size
        invariant
            i <= size,
            size == img.pixels@.len(),
            i == 0 ==> minimum == 255 && maximum == 0,
            i > 0 ==> img.pixels@.contains(minimum) && img.pixels@.contains(maximum),
            forall|j: int| 0 <= j < i ==> minimum <= #[trigger] img.pixels@[j] <= maximum,
        decreases size - i,
    {
        let value: u8 = img.pixels[i];
        assert(img.pixels@.contains(value));
        if value < minimum || i == 0 {
            minimum = value;
        }
        if value > maximum || i == 0 {
            maximum = value;
        }
        i += 1;
    }
    let pixels: Vec<u8> = tabulate(
        size,
        |i: usize| -> (next: u8)
            requires
                i < img.pixels@.len(),
                minimum <= img.pixels@[i as int] <= maximum,
            ensures
                next == stretched(img.pixels@[i as int], minimum, maximum)
            {
                let value: u8 = img.pixels[i];
                if maximum <= minimum {
                    value
                } else {
                    let span: u32 = (maximum - minimum) as u32;
                    let offset: u32 = (value - minimum) as u32;
                    assert((510 * offset + span) / (2 * span) <= 255) by (nonlinear_arith)
                        requires
                            0 <= offset <= span,
                            0 < span <= 255,
                    ;
                    ((510 * offset + span) / (2 * span)) as u8
                }
            },
    );
    proof {
        if size > 0 {
            assert(is_range(img.pixels@, minimum, maximum));
        }
    }
    Raster { width: img.width, height: img.height, pixels }
}

/// The FAST-9 corners of an image with their columns, rows and scores.
pub uninterp spec fn fast9_corners(
    pixels: Seq<u8>,
    width: u32,
    height: u32,
    threshold: u8,
) -> Seq<(u32, u32, u8)>;

/// Calls `imageproc::corners::corners_fast9`. It takes every pixel at most once, finds no corner
/// within three pixels of the border, and scores each with a whole number up to 255.
/// Which pixels are corners is named and not stated.
#[verifier::external_body]
fn find_corners(pixels: &Vec<u8>, width: u32, height: u32, threshold: u8) -> (corners: Vec<
    (u32, u32, u8),
>)
    requires
        pixels@.len() == width * height,
    ensures
        corners@ == fast9_corners(pixels@, width, height, threshold),
        corners@.len() <= pixels@.len(),
        forall|i: int|
            0 <= i < corners@.len() ==> 3 <= (#[trigger] corners@[i]).0 && corners@[i].0 + 3 < width
                && 3 <= corners@[i].1 && corners@[i].1 + 3 < height,
{
    let image = GrayImage::from_raw(width, height, pixels.clone()).unwrap();
    let corners = corners_fast9(&image, threshold);
    corners.iter().map(|corner| (corner.x, corner.y, corner.score as u8)).collect()
}

#[derive(Debug, Clone, Copy, PartialEq, Eq, Structural)]
pub struct KeyPoint {
    pub x: u32,
    pub y: u32,
}

/// Corner `a` comes before corner `b`: it scores higher, or as high and was found first.
pub open spec fn ranks_before(corners: Seq<(u32, u32, u8)>, a: int, b: int) -> bool {
    corners[a].2 > corners[b].2 || corners[a].2 == corners[b].2 && a < b
}

/// The positions of the corners from the first to the last in rank.
pub open spec fn is_ranking(corners: Seq<(u32, u32, u8)>, ranking: Seq<int>) -> bool {
    &&& ranking.len() == corners.len()
    &&& forall|k: int| 0 <= k < ranking.len() ==> 0 <= #[trigger] ranking[k] < corners.len()
    &&& forall|j: int, k: int|
        0 <= j < k < ranking.len() ==> ranks_before(
            corners,
            #[trigger] ranking[j],
            #[trigger] ranking[k],
        )
}

pub open spec fn square(value: int) -> int {
    value * value
}

/// The squared distance of two points.
pub open spec fn squared_gap(a: KeyPoint, b: KeyPoint) -> int {
    square(a.x - b.x) + square(a.y - b.y)
}

/// A point is too near to one of a list.
pub open spec fn is_suppressed(accepted: Seq<KeyPoint>, point: KeyPoint, radius_squared: int) -> bool {
    exists|i: int|
        0 <= i < accepted.len() && squared_gap(#[trigger] accepted[i], point) < radius_squared
}

pub open spec fn point_of(corner: (u32, u32, u8)) -> KeyPoint {
    KeyPoint { x: corner.0, y: corner.1 }
}

/// What is left of the first corners in rank when each one suppresses those after it
/// within the radius.
pub open spec fn survivors(
    corners: Seq<(u32, u32, u8)>,
    ranking: Seq<int>,
    count: int,
    radius_squared: int,
) -> Seq<KeyPoint>
    decreases count,
{
    if count <= 0 {
        Seq::empty()
    } else {
        let earlier = survivors(corners, ranking, count - 1, radius_squared);
        let point = point_of(corners[ranking[count - 1]]);
        if is_suppressed(earlier, point, radius_squared) {
            earlier
        } else {
            earlier.push(point)
        }
    }
}

/// What is left of all corners.
pub open spec fn is_suppression(
    corners: Seq<(u32, u32, u8)>,
    radius_squared: int,
    points: Seq<KeyPoint>,
) -> bool {
    exists|ranking: Seq<int>|
        {
            &&& #[trigger] is_ranking(corners, ranking)
            &&& points == survivors(corners, ranking, corners.len() as int, radius_squared)
        }
}

/// The key by which a corner is sorted.
spec fn rank_key(corners: Seq<(u32, u32, u8)>, i: int) -> i64 {
    ((255 - corners[i].2) * 0x1_0000_0000_0000 + i) as i64
}

/// The positions of corners in the order of their rank.
fn rank_corners(corners: &Vec<(u32, u32, u8)>) -> (ranking: Vec<usize>)
    requires
        corners@.len() <= 0xffff_ffff_ffff,
    ensures
        is_ranking(corners@, ranking@.map_values(|i: usize| i as int)),
{
    let count: usize = corners.len();
    let mut keys: Vec<i64> = Vec::new();
    let mut i: usize = 0;
    while i < count
        invariant
            i <= count,
            count == corners@.len(),
            count <= 0xffff_ffff_ffff,
            keys@.len() == i,
            forall|j: int| 0 <= j < i ==> #[trigger] keys@[j] == rank_key(corners@, j),
        decreases count - i,
    {
        keys.push(((255 - corners[i].2) as i64) * 0x1_0000_0000_0000 + (i as i64));
        i += 1;
    }
    let ghost all = keys@;
    let list: Vec<i64> = sort_ascending(keys);
    proof {
        lemma_sorted(all);
        all.to_multiset_ensures();
        list@.to_multiset_ensures();
        assert(all.no_duplicates()) by {
            assert forall|j: int, k: int|
                0 <= j < all.len() && 0 <= k < all.len() && j != k implies all[j] != all[k] by {}
        }
        all.lemma_multiset_has_no_duplicates();
        list@.lemma_multiset_has_no_duplicates_conv();
        assert forall|k: int| 0 <= k < list@.len() implies all.contains(#[trigger] list@[k]) by {
            assert(list@.contains(list@[k]));
            assert(list@.to_multiset().count(list@[k]) > 0);
            assert(all.contains(list@[k]));
        }
    }
    let mut ranking: Vec<usize> = Vec::new();
    let mut k: usize = 0;
    while k < count
        invariant
            k <= count,
            count == corners@.len(),
            count == all.len(),
            count == list@.len(),
            count <= 0xffff_ffff_ffff,
            ranking@.len() == k,
            forall|j: int| 0 <= j < count ==> #[trigger] all[j] == rank_key(corners@, j),
            forall|m: int| 0 <= m < count ==> all.contains(#[trigger] list@[m]),
            forall|m: int|
                0 <= m < k ==> #[trigger] ranking@[m] < count && list@[m] == rank_key(
                    corners@,
                    ranking@[m] as int,
                ),
        decreases count - k,
    {
        proof {
            let j = choose|j: int| 0 <= j < all.len() && #[trigger] all[j] == list@[k as int];
            assert(all[j] == rank_key(corners@, j));
            assert(list@[k as int] % 0x1_0000_0000_0000 == j);
        }
        ranking.push((list[k] % 0x1_0000_0000_0000) as usize);
        k += 1;
    }
    proof {
        let order = ranking@.map_values(|i: usize| i as int);
        assert forall|j: int, k: int| 0 <= j < k < order.len() implies ranks_before(
            corners@,
            #[trigger] order[j],
            #[trigger] order[k],
        ) by {
            assert(list@[j] <= list@[k]);
            assert(list@[j] != list@[k]);
            assert(ranking@[j] < count && ranking@[k] < count);
        }
    }
    ranking
}

/// There is one ranking.
proof fn lemma_ranking_is_unique(corners: Seq<(u32, u32, u8)>, a: Seq<int>, b: Seq<int>, k: int)
    requires
        is_ranking(corners, a),
        is_ranking(corners, b),
        0 <= k <= corners.len(),
    ensures
        a.take(k) == b.take(k),
    decreases k,
{
    if k > 0 {
        lemma_ranking_is_unique(corners, a, b, k - 1);
        let (x, y) = (a[k - 1], b[k - 1]);
        lemma_ranking_is_complete(corners, a, y);
        lemma_ranking_is_complete(corners, b, x);
        let at_a = choose|i: int| 0 <= i < a.len() && #[trigger] a[i] == y;
        let at_b = choose|i: int| 0 <= i < b.len() && #[trigger] b[i] == x;
        if x != y {
            if at_a < k - 1 {
                assert(a.take(k - 1)[at_a] == b.take(k - 1)[at_a]);
                assert(ranks_before(corners, b[at_a], b[k - 1]));
            }
            if at_b < k - 1 {
                assert(a.take(k - 1)[at_b] == b.take(k - 1)[at_b]);
                assert(ranks_before(corners, a[at_b], a[k - 1]));
            }
            assert(ranks_before(corners, a[k - 1], a[at_a]));
            assert(ranks_before(corners, b[k - 1], b[at_b]));
        }
        assert(a.take(k) =~= a.take(k - 1).push(x));
        assert(b.take(k) =~= b.take(k - 1).push(y));
    }
}

/// Every corner has a rank.
proof fn lemma_ranking_is_complete(corners: Seq<(u32, u32, u8)>, ranking: Seq<int>, i: int)
    requires
        is_ranking(corners, ranking),
        0 <= i < corners.len(),
    ensures
        exists|k: int| 0 <= k < ranking.len() && #[trigger] ranking[k] == i,
{
    let n = corners.len() as int;
    let all = Set::new(|j: int| 0 <= j < n);
    assert(ranking.no_duplicates()) by {
        assert forall|j: int, k: int|
            0 <= j < ranking.len() && 0 <= k < ranking.len() && j != k implies ranking[j]
            != ranking[k] by {
            if j < k {
                assert(ranks_before(corners, ranking[j], ranking[k]));
            } else {
                assert(ranks_before(corners, ranking[k], ranking[j]));
            }
        }
    }
    ranking.unique_seq_to_set();
    vstd::set_lib::lemma_int_range(0, n);
    assert(all =~= vstd::set_lib::set_int_range(0, n));
    assert(ranking.to_set().subset_of(all)) by {
        assert forall|j: int| ranking.to_set().contains(j) implies all.contains(j) by {
            let k = choose|k: int| 0 <= k < ranking.len() && ranking[k] == j;
            assert(0 <= ranking[k] < n);
        }
    }
    vstd::set_lib::lemma_subset_equality(ranking.to_set(), all);
    assert(all.contains(i));
    assert(ranking.to_set().contains(i));
    assert(ranking.contains(i));
}

/// The order of the corners does not matter beyond their rank: one ranking, one result.
pub proof fn law_suppression_is_determined(
    corners: Seq<(u32, u32, u8)>,
    a: Seq<int>,
    b: Seq<int>,
    radius_squared: int,
)
    requires
        is_ranking(corners, a),
        is_ranking(corners, b),
    ensures
        survivors(corners, a, corners.len() as int, radius_squared) == survivors(
            corners,
            b,
            corners.len() as int,
            radius_squared,
        ),
{
    lemma_ranking_is_unique(corners, a, b, corners.len() as int);
    assert(a.take(corners.len() as int) =~= a);
    assert(b.take(corners.len() as int) =~= b);
}

fn squared_difference(a: u32, b: u32) -> (squared: u64)
    ensures
        squared == square(a - b),
{
    let gap: u64 = if a > b {
        (a - b) as u64
    } else {
        (b - a) as u64
    };
    assert(gap * gap <= 0xffff_ffff * 0xffff_ffff) by (nonlinear_arith)
        requires
            0 <= gap <= 0xffff_ffff,
    ;
    assert(gap * gap == square(a - b)) by (nonlinear_arith)
        requires
            gap == a - b || gap == b - a,
    ;
    gap * gap
}

/// Keeps the corners that no better corner within the radius suppresses, best first.
pub fn non_maximal_suppression(corners: &Vec<(u32, u32, u8)>, radius_squared: u64) -> (points: Vec<
    KeyPoint,
>)
    requires
        corners@.len() <= 0xffff_ffff_ffff,
    ensures
        is_suppression(corners@, radius_squared as int, points@),
{
    let order: Vec<usize> = rank_corners(corners);
    let ghost ranking = order@.map_values(|i: usize| i as int);
    let mut points: Vec<KeyPoint> = Vec::new();
    let mut k: usize = 0;
    while k < order.len()
        invariant
            k <= order@.len(),
            ranking == order@.map_values(|i: usize| i as int),
            is_ranking(corners@, ranking),
            order@.len() == corners@.len(),
            points@ == survivors(corners@, ranking, k as int, radius_squared as int),
        decreases order@.len() - k,
    {
        assert(ranking[k as int] == order@[k as int]);
        let corner: (u32, u32, u8) = corners[order[k]];
        let point = KeyPoint { x: corner.0, y: corner.1 };
        let mut suppressed: bool = false;
        let mut i: usize = 0;
        while i < points.len() && !suppressed
            invariant
                i <= points@.len(),
                !suppressed ==> forall|j: int|
                    0 <= j < i ==> squared_gap(#[trigger] points@[j], point) >= radius_squared,
                suppressed ==> is_suppressed(points@, point, radius_squared as int),
            decreases points@.len() - i + (if suppressed { 0int } else { 1 }),
        {
            let gap: u128 = (squared_difference(points[i].x, point.x) as u128) + (squared_difference(
                points[i].y,
                point.y,
            ) as u128);
            if gap < radius_squared as u128 {
                assert(squared_gap(points@[i as int], point) < radius_squared);
                suppressed = true;
            } else {
                i += 1;
            }
        }
        if !suppressed {
            points.push(point);
        }
        k += 1;
    }
    points
}

/// Survivors keep their distance from each other.
pub proof fn law_survivors_keep_their_distance(
    corners: Seq<(u32, u32, u8)>,
    ranking: Seq<int>,
    count: int,
    radius_squared: int,
    i: int,
    j: int,
)
    requires
        0 <= i < j < survivors(corners, ranking, count, radius_squared).len(),
    ensures
        squared_gap(
            survivors(corners, ranking, count, radius_squared)[i],
            survivors(corners, ranking, count, radius_squared)[j],
        ) >= radius_squared,
    decreases count,
{
    if count > 0 {
        let earlier = survivors(corners, ranking, count - 1, radius_squared);
        let point = point_of(corners[ranking[count - 1]]);
        if is_suppressed(earlier, point, radius_squared) {
            law_survivors_keep_their_distance(corners, ranking, count - 1, radius_squared, i, j);
        } else if j < earlier.len() {
            law_survivors_keep_their_distance(corners, ranking, count - 1, radius_squared, i, j);
        } else {
            assert(!(squared_gap(earlier[i], point) < radius_squared));
        }
    }
}

/// The corners of an image that is already smoothed, best first, without those near to a
/// better one.
pub fn find_keypoints(smoothed: &Raster<u8>, threshold: u8, radius_squared: u64) -> (points: Vec<
    KeyPoint,
>)
    requires
        smoothed.well_formed(),
        smoothed.pixels@.len() <= 0xffff_ffff_ffff,
    ensures
        is_suppression(
            fast9_corners(smoothed.pixels@, smoothed.width, smoothed.height, threshold),
            radius_squared as int,
            points@,
        ),
{
    let corners: Vec<(u32, u32, u8)> = find_corners(
        &smoothed.pixels,
        smoothed.width,
        smoothed.height,
        threshold,
    );
    non_maximal_suppression(&corners, radius_squared)
}

/// The coordinate on an image that a coordinate on a resized copy of it stands for, no
/// further than the last pixel.
pub open spec fn on_image(coordinate: int, copy_length: int, length: int) -> int {
    let place = rounded_ratio(coordinate, copy_length, length);
    if place < length - 1 {
        place
    } else {
        length - 1
    }
}

fn coordinate_on_image(coordinate: u32, copy_length: u32, length: u32) -> (place: u32)
    requires
        copy_length > 0,
        length > 0,
    ensures
        place == on_image(coordinate as int, copy_length as int, length as int),
{
    let (n, c, l) = (coordinate as u128, copy_length as u128, length as u128);
    assert(0 <= coordinate * length <= 0xffff_ffff * 0xffff_ffff) by (nonlinear_arith)
        requires
            coordinate <= 0xffff_ffff,
            length <= 0xffff_ffff,
    ;
    assert(2 * coordinate * length == 2 * (coordinate * length)) by (nonlinear_arith);
    let place: u128 = (2 * (n * l) + c) / (2 * c);
    if place < l - 1 {
        place as u32
    } else {
        length - 1
    }
}

/// The point of an image that a point of a resized copy of it stands for.
pub fn keypoint_on_image(
    point: KeyPoint,
    copy_width: u32,
    copy_height: u32,
    width: u32,
    height: u32,
) -> (place: KeyPoint)
    requires
        copy_width > 0,
        copy_height > 0,
        width > 0,
        height > 0,
    ensures
        place.x == on_image(point.x as int, copy_width as int, width as int),
        place.y == on_image(point.y as int, copy_height as int, height as int),
        place.x < width,
        place.y < height,
{
    KeyPoint {
        x: coordinate_on_image(point.x, copy_width, width),
        y: coordinate_on_image(point.y, copy_height, height),
    }
}

/// A point of a copy of the same size stands for itself.
pub proof fn law_same_size_keeps_points(coordinate: int, length: int)
    requires
        0 <= coordinate < length,
    ensures
        on_image(coordinate, length, length) == coordinate,
{
    assert((2 * coordinate * length + length) / (2 * length) == coordinate) by {
        assert(2 * coordinate * length + length == coordinate * (2 * length) + length)
            by (nonlinear_arith);
        vstd::arithmetic::div_mod::lemma_fundamental_div_mod_converse(
            2 * coordinate * length + length,
            2 * length,
            coordinate,
            length,
        );
    }
}

/// A length divided by a ratio is no further from the exact quotient than half a pixel.
pub proof fn law_scaled_lengths_are_nearest(length: int, numerator: int, denominator: int)
    requires
        0 <= length,
        0 < numerator,
        0 < denominator,
    ensures
        ({
            let scaled = rounded_ratio(length, numerator, denominator);
            -numerator < 2 * (length * denominator) - 2 * (scaled * numerator) + 1 <= numerator + 1
        }),
{
    let scaled = rounded_ratio(length, numerator, denominator);
    let value = 2 * length * denominator + numerator;
    let unit = 2 * numerator;
    vstd::arithmetic::div_mod::lemma_fundamental_div_mod(value, unit);
    assert(unit * scaled == 2 * (scaled * numerator)) by (nonlinear_arith)
        requires
            unit == 2 * numerator,
    ;
    assert(2 * length * denominator == 2 * (length * denominator)) by (nonlinear_arith);
}

/// Stretching maps the darkest value to 0 and the brightest to 255, and keeps the order of those
/// between, each at its share of the range to the nearest value.
pub proof fn law_stretching_spans_the_range(value: u8, other: u8, minimum: u8, maximum: u8)
    requires
        minimum < maximum,
        minimum <= value <= other <= maximum,
    ensures
        stretched(minimum, minimum, maximum) == 0,
        stretched(maximum, minimum, maximum) == 255,
        0 <= stretched(value, minimum, maximum) <= stretched(other, minimum, maximum) <= 255,
        -(maximum - minimum) <= 2 * (255 * (value - minimum)) - 2 * (stretched(
            value,
            minimum,
            maximum,
        ) * (maximum - minimum)) < maximum - minimum,
{
    let range = maximum - minimum;
    let unit = 2 * range;
    let a = 2 * 255 * (value - minimum) + range;
    let b = 2 * 255 * (other - minimum) + range;
    let (p, q) = (a / unit, b / unit);
    vstd::arithmetic::div_mod::lemma_fundamental_div_mod(a, unit);
    vstd::arithmetic::div_mod::lemma_fundamental_div_mod(b, unit);
    assert(unit * p == 2 * (p * range) && unit * q == 2 * (q * range)) by (nonlinear_arith)
        requires
            unit == 2 * range,
    ;
    assert(range <= a <= b <= 2 * 255 * range + range) by (nonlinear_arith)
        requires
            a == 2 * 255 * (value - minimum) + range,
            b == 2 * 255 * (other - minimum) + range,
            range == maximum - minimum,
            minimum <= value <= other <= maximum,
    ;
    assert(0 <= p <= q <= 255) by (nonlinear_arith)
        requires
            2 * (p * range) <= a < 2 * (p * range) + 2 * range,
            2 * (q * range) <= b < 2 * (q * range) + 2 * range,
            range <= a <= b <= 2 * 255 * range + range,
            0 < range,
    ;
    assert((2 * 255 * 0 + range) / unit == 0) by (nonlinear_arith)
        requires
            unit == 2 * range,
            0 < range,
    ;
    assert((2 * 255 * range + range) / unit == 255) by (nonlinear_arith)
        requires
            unit == 2 * range,
            0 < range,
    ;
}

/// What suppression leaves: every point is a corner, no two are within the radius of each other,
/// and every corner is left itself or has a point within the radius that scores as high or
/// higher.
pub proof fn law_every_corner_is_kept_or_beaten(
    corners: Seq<(u32, u32, u8)>,
    radius_squared: int,
    points: Seq<KeyPoint>,
    c: int,
)
    requires
        is_suppression(corners, radius_squared, points),
        0 <= c < corners.len(),
    ensures
        exists|d: int, k: int|
            #![trigger corners[d], points[k]]
            0 <= d < corners.len() && 0 <= k < points.len() && points[k].x == corners[d].0
                && points[k].y == corners[d].1 && corners[d].2 >= corners[c].2 && (d == c || (
            corners[d].0 - corners[c].0) * (corners[d].0 - corners[c].0) + (corners[d].1
                - corners[c].1) * (corners[d].1 - corners[c].1) < radius_squared),
        forall|i: int, j: int|
            #![trigger points[i], points[j]]
            0 <= i < j < points.len() ==> (points[i].x - points[j].x) * (points[i].x - points[j].x)
                + (points[i].y - points[j].y) * (points[i].y - points[j].y) >= radius_squared,
        forall|k: int|
            #![trigger points[k]]
            0 <= k < points.len() ==> exists|d: int|
                0 <= d < corners.len() && points[k].x == (#[trigger] corners[d]).0 && points[k].y
                    == corners[d].1,
{
    let n = corners.len() as int;
    let ranking = choose|ranking: Seq<int>|
        {
            &&& #[trigger] is_ranking(corners, ranking)
            &&& points == survivors(corners, ranking, n, radius_squared)
        };
    lemma_ranking_is_complete(corners, ranking, c);
    let r = choose|r: int| 0 <= r < n && ranking[r] == c;
    lemma_fate_of_corner(corners, ranking, n, radius_squared, r);
    lemma_survivors_are_corners(corners, ranking, n, radius_squared);
    assert forall|i: int, j: int|
        #![trigger points[i], points[j]]
        0 <= i < j < points.len() implies (points[i].x - points[j].x) * (points[i].x - points[j].x)
        + (points[i].y - points[j].y) * (points[i].y - points[j].y) >= radius_squared by {
        law_survivors_keep_their_distance(corners, ranking, n, radius_squared, i, j);
    }
}

proof fn lemma_survivors_grow(
    corners: Seq<(u32, u32, u8)>,
    ranking: Seq<int>,
    from: int,
    to: int,
    radius_squared: int,
)
    requires
        0 <= from <= to,
    ensures
        survivors(corners, ranking, from, radius_squared).len() <= survivors(
            corners,
            ranking,
            to,
            radius_squared,
        ).len(),
        forall|k: int|
            0 <= k < survivors(corners, ranking, from, radius_squared).len() ==> #[trigger] survivors(
                corners,
                ranking,
                to,
                radius_squared,
            )[k] == survivors(corners, ranking, from, radius_squared)[k],
    decreases to - from,
{
    if from < to {
        lemma_survivors_grow(corners, ranking, from, to - 1, radius_squared);
        let before = survivors(corners, ranking, to - 1, radius_squared);
        let after = survivors(corners, ranking, to, radius_squared);
        assert forall|k: int|
            0 <= k < survivors(
                corners,
                ranking,
                from,
                radius_squared,
            ).len() implies #[trigger] after[k] == survivors(
            corners,
            ranking,
            from,
            radius_squared,
        )[k] by {
            assert(after[k] == before[k]);
        }
    }
}

proof fn lemma_survivors_are_corners(
    corners: Seq<(u32, u32, u8)>,
    ranking: Seq<int>,
    count: int,
    radius_squared: int,
)
    requires
        is_ranking(corners, ranking),
        0 <= count <= corners.len(),
    ensures
        forall|k: int|
            #![trigger survivors(corners, ranking, count, radius_squared)[k]]
            0 <= k < survivors(corners, ranking, count, radius_squared).len() ==> exists|r: int|
                0 <= r < count && survivors(corners, ranking, count, radius_squared)[k] == point_of(
                    corners[#[trigger] ranking[r]],
                ) && 0 <= ranking[r] < corners.len(),
    decreases count,
{
    if count > 0 {
        lemma_survivors_are_corners(corners, ranking, count - 1, radius_squared);
        let before = survivors(corners, ranking, count - 1, radius_squared);
        let after = survivors(corners, ranking, count, radius_squared);
        assert forall|k: int| #![trigger after[k]] 0 <= k < after.len() implies exists|r: int|
            0 <= r < count && after[k] == point_of(corners[#[trigger] ranking[r]]) && 0 <= ranking[r]
                < corners.len() by {
            if k < before.len() {
                assert(after[k] == before[k]);
                let r = choose|r: int|
                    0 <= r < count - 1 && before[k] == point_of(corners[#[trigger] ranking[r]]) && 0
                        <= ranking[r] < corners.len();
                assert(0 <= ranking[r]);
            } else {
                assert(0 <= ranking[count - 1]);
            }
        }
    }
}

proof fn lemma_fate_of_corner(
    corners: Seq<(u32, u32, u8)>,
    ranking: Seq<int>,
    n: int,
    radius_squared: int,
    r: int,
)
    requires
        is_ranking(corners, ranking),
        n == corners.len(),
        0 <= r < n,
    ensures
        exists|d: int, k: int|
            #![trigger corners[d], survivors(corners, ranking, n, radius_squared)[k]]
            0 <= d < corners.len() && 0 <= k < survivors(corners, ranking, n, radius_squared).len()
                && survivors(corners, ranking, n, radius_squared)[k].x == corners[d].0 && survivors(
                corners,
                ranking,
                n,
                radius_squared,
            )[k].y == corners[d].1 && corners[d].2 >= corners[ranking[r]].2 && (d == ranking[r] || (
            corners[d].0 - corners[ranking[r]].0) * (corners[d].0 - corners[ranking[r]].0) + (
            corners[d].1 - corners[ranking[r]].1) * (corners[d].1 - corners[ranking[r]].1)
                < radius_squared),
{
    let earlier = survivors(corners, ranking, r, radius_squared);
    let with = survivors(corners, ranking, r + 1, radius_squared);
    let all = survivors(corners, ranking, n, radius_squared);
    let c = ranking[r];
    let point = point_of(corners[c]);
    lemma_survivors_grow(corners, ranking, r + 1, n, radius_squared);
    if is_suppressed(earlier, point, radius_squared) {
        let k = choose|k: int|
            0 <= k < earlier.len() && squared_gap(#[trigger] earlier[k], point) < radius_squared;
        lemma_survivors_are_corners(corners, ranking, r, radius_squared);
        assert(earlier[k] == earlier[k]);
        let q = choose|q: int|
            0 <= q < r && earlier[k] == point_of(corners[#[trigger] ranking[q]]) && 0 <= ranking[q]
                < corners.len();
        let d = ranking[q];
        assert(ranks_before(corners, ranking[q], ranking[r]));
        assert(with[k] == earlier[k]);
        assert(all[k] == with[k]);
        assert(all[k].x == corners[d].0);
    } else {
        let k = earlier.len() as int;
        assert(with[k] == point);
        assert(all[k] == with[k]);
        assert(all[k].x == corners[c].0);
    }
}

} // verus!
