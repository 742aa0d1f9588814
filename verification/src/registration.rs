//! Local registration: where patches are compared, which shift of a patch counts, and
//! which measurements their neighbours confirm. Correlations are fixed-point numbers in
//! units of one billionth.

use vstd::prelude::*;

use crate::color_samples::cell_medians;
use crate::color_samples::group_by_cell;
use crate::color_samples::keys_in_cell;
use crate::grid::cell;
use crate::grid::lemma_cell;
use crate::grid::lemma_split;
use crate::order::median;
use crate::order::median_of;
use crate::raster::Raster;

verus! {

/// The distance between patches in the reduced view.
pub const GRID_STEP: u32 = 32;

/// The distance of patches from the border of the reduced view.
pub const GRID_MARGIN: u32 = 16;

/// The reach of a patch, within which the canvas has to be covered.
pub const PATCH_REACH: u32 = 14;

/// The distance between patches at full size, and their distance from the border.
pub const NATIVE_REFINE_STEP: u32 = 16;

pub const NATIVE_REFINE_MARGIN: u32 = 20;

/// The least correlation of a shift.
pub const LEAST_CORRELATION: i64 = 800_000_000;

/// The least lead over every shift that is not next to it.
pub const LEAST_LEAD: i64 = 6_000_000;

/// A correlation of minus one: nothing is worse.
pub const WORST_CORRELATION: i64 = -1_000_000_000;

/// The squared distance up to which measurements confirm each other.
pub const SUPPORT_RADIUS_SQUARED: u64 = 22_500;

/// The least number of measurements, itself counted, that confirm one.
pub const LEAST_SUPPORT: usize = 3;

/// A pixel at which a patch is centred.
#[derive(Clone, Copy, Debug, PartialEq, Eq, Structural)]
pub struct GridPoint {
    pub x: u32,
    pub y: u32,
}

/// The number of points along a side, at `step` from each other and at least `margin`
/// from both ends.
pub open spec fn points_along(length: int, margin: int, step: int) -> int {
    if length <= 2 * margin {
        0
    } else {
        (length - 2 * margin + step - 1) / step
    }
}

/// The points of a lattice, row by row.
pub open spec fn lattice(width: int, height: int, margin: int, step: int) -> Seq<GridPoint> {
    let columns = points_along(width, margin, step);
    Seq::new(
        (columns * points_along(height, margin, step)) as nat,
        |i: int|
            GridPoint {
                x: (margin + step * (i % columns)) as u32,
                y: (margin + step * (i / columns)) as u32,
            },
    )
}

fn count_points(length: u32, margin: u32, step: u32) -> (count: u32)
    requires
        step > 0,
        margin <= 0x1000,
    ensures
        count == points_along(length as int, margin as int, step as int),
        count > 0 ==> margin + step * (count - 1) < length,
{
    if length <= 2 * margin {
        return 0;
    }
    let rest: u32 = length - 2 * margin;
    let count: u64 = (rest as u64 + step as u64 - 1) / step as u64;
    proof {
        let sum = rest + step - 1;
        vstd::arithmetic::div_mod::lemma_fundamental_div_mod(sum, step as int);
        assert(step * (count - 1) < rest) by (nonlinear_arith)
            requires
                sum == step * count + sum % (step as int),
                0 <= sum % (step as int),
                sum == rest + step - 1,
                step > 0,
        ;
        assert(count <= rest) by (nonlinear_arith)
            requires
                step * (count - 1) < rest,
                step > 0,
                rest > 0,
        ;
    }
    count as u32
}

/// The points of a lattice, row by row.
pub fn lattice_points(width: u32, height: u32, margin: u32, step: u32) -> (points: Vec<GridPoint>)
    requires
        step > 0,
        margin <= 0x1000,
        width * height <= usize::MAX,
    ensures
        points@ == lattice(width as int, height as int, margin as int, step as int),
        forall|i: int|
            0 <= i < points@.len() ==> margin <= (#[trigger] points@[i]).x < width && margin
                <= points@[i].y < height,
{
    let columns: u32 = count_points(width, margin, step);
    let rows: u32 = count_points(height, margin, step);
    let ghost list = lattice(width as int, height as int, margin as int, step as int);
    let ghost (c, r, s) = (columns as int, rows as int, step as int);
    let mut points: Vec<GridPoint> = Vec::new();
    let mut y: u32 = 0;
    while y < rows
        invariant
            y <= rows,
            c == columns,
            r == rows,
            s == step,
            s > 0,
            margin <= 0x1000,
            c == points_along(width as int, margin as int, step as int),
            r == points_along(height as int, margin as int, step as int),
            c > 0 ==> margin + step * (c - 1) < width,
            r > 0 ==> margin + step * (r - 1) < height,
            list == lattice(width as int, height as int, margin as int, step as int),
            points@ == list.take(y * c),
            forall|i: int|
                0 <= i < points@.len() ==> margin <= (#[trigger] points@[i]).x < width && margin
                    <= points@[i].y < height,
        decreases rows - y,
    {
        let mut x: u32 = 0;
        assert(y * c + 0 == y * c);
        while x < columns
            invariant
                x <= columns,
                y < rows,
                c == columns,
                r == rows,
                s == step,
                s > 0,
                margin <= 0x1000,
                c == points_along(width as int, margin as int, step as int),
                r == points_along(height as int, margin as int, step as int),
                c > 0 ==> margin + step * (c - 1) < width,
                r > 0 ==> margin + step * (r - 1) < height,
                list == lattice(width as int, height as int, margin as int, step as int),
                points@ == list.take(y * c + x),
                forall|i: int|
                    0 <= i < points@.len() ==> margin <= (#[trigger] points@[i]).x < width && margin
                        <= points@[i].y < height,
            decreases columns - x,
        {
            proof {
                crate::grid::lemma_cell(c, r, x as int, y as int);
                assert(0 <= step * x <= step * (c - 1)) by (nonlinear_arith)
                    requires
                        0 <= x <= c - 1,
                        step > 0,
                ;
                assert(0 <= step * y <= step * (r - 1)) by (nonlinear_arith)
                    requires
                        0 <= y <= r - 1,
                        step > 0,
                ;
            }
            let point: GridPoint = GridPoint { x: margin + step * x, y: margin + step * y };
            assert(list[y * c + x] == point);
            points.push(point);
            assert(list.take(y * c + x + 1) =~= list.take(y * c + x).push(point));
            x += 1;
        }
        assert((y + 1) * c == y * c + c) by (nonlinear_arith);
        y += 1;
    }
    assert(r * c == c * r) by (nonlinear_arith);
    assert(list.take(r * c) =~= list);
    points
}

/// The view is covered at the point and around it.
pub open spec fn is_surrounded(valid: &Raster<u8>, point: GridPoint) -> bool {
    forall|dx: int, dy: int|
        #![trigger valid.at(point.x + dx * PATCH_REACH, point.y + dy * PATCH_REACH)]
        -1 <= dx <= 1 && -1 <= dy <= 1 ==> valid.at(
            point.x + dx * PATCH_REACH,
            point.y + dy * PATCH_REACH,
        ) != 0
}

/// The first `count` points that are surrounded by covered pixels.
pub open spec fn surrounded_points(
    valid: &Raster<u8>,
    points: Seq<GridPoint>,
    count: int,
) -> Seq<GridPoint>
    decreases count,
{
    if count <= 0 {
        Seq::empty()
    } else {
        let earlier = surrounded_points(valid, points, count - 1);
        if is_surrounded(valid, points[count - 1]) {
            earlier.push(points[count - 1])
        } else {
            earlier
        }
    }
}

fn surrounded(valid: &Raster<u8>, point: GridPoint) -> (all: bool)
    requires
        valid.well_formed(),
        PATCH_REACH <= point.x,
        PATCH_REACH <= point.y,
        point.x + PATCH_REACH < valid.width,
        point.y + PATCH_REACH < valid.height,
    ensures
        all == is_surrounded(valid, point),
{
    let (left, right) = (point.x - PATCH_REACH, point.x + PATCH_REACH);
    let (top, bottom) = (point.y - PATCH_REACH, point.y + PATCH_REACH);
    let all: bool = valid.pixel(left, top) != 0 && valid.pixel(point.x, top) != 0 && valid.pixel(
        right,
        top,
    ) != 0 && valid.pixel(left, point.y) != 0 && valid.pixel(point.x, point.y) != 0
        && valid.pixel(right, point.y) != 0 && valid.pixel(left, bottom) != 0 && valid.pixel(
        point.x,
        bottom,
    ) != 0 && valid.pixel(right, bottom) != 0;
    proof {
        if is_surrounded(valid, point) {
            assert(valid.at(point.x + (-1) * PATCH_REACH, point.y + (-1) * PATCH_REACH) != 0);
            assert(valid.at(point.x + 0 * PATCH_REACH, point.y + (-1) * PATCH_REACH) != 0);
            assert(valid.at(point.x + 1 * PATCH_REACH, point.y + (-1) * PATCH_REACH) != 0);
            assert(valid.at(point.x + (-1) * PATCH_REACH, point.y + 0 * PATCH_REACH) != 0);
            assert(valid.at(point.x + 0 * PATCH_REACH, point.y + 0 * PATCH_REACH) != 0);
            assert(valid.at(point.x + 1 * PATCH_REACH, point.y + 0 * PATCH_REACH) != 0);
            assert(valid.at(point.x + (-1) * PATCH_REACH, point.y + 1 * PATCH_REACH) != 0);
            assert(valid.at(point.x + 0 * PATCH_REACH, point.y + 1 * PATCH_REACH) != 0);
            assert(valid.at(point.x + 1 * PATCH_REACH, point.y + 1 * PATCH_REACH) != 0);
        }
        if all {
            assert forall|dx: int, dy: int|
                #![trigger valid.at(point.x + dx * PATCH_REACH, point.y + dy * PATCH_REACH)]
                -1 <= dx <= 1 && -1 <= dy <= 1 implies valid.at(
                point.x + dx * PATCH_REACH,
                point.y + dy * PATCH_REACH,
            ) != 0 by {
                assert(dx == -1 || dx == 0 || dx == 1);
                assert(dy == -1 || dy == 0 || dy == 1);
            }
        }
    }
    all
}

/// The points of the reduced view at which the source is compared with the canvas.
pub fn refinement_points(valid: &Raster<u8>) -> (list: Vec<GridPoint>)
    requires
        valid.well_formed(),
    ensures
        ({
            let points = lattice(
                valid.width as int,
                valid.height as int,
                16,
                32,
            );
            list@ == surrounded_points(valid, points, points.len() as int)
        }),
{
    let size: usize = valid.pixels.len();
    let points: Vec<GridPoint> = lattice_points(valid.width, valid.height, GRID_MARGIN, GRID_STEP);
    let mut list: Vec<GridPoint> = Vec::new();
    let mut i: usize = 0;
    while i < points.len()
        invariant
            i <= points@.len(),
            valid.well_formed(),
            points@ == lattice(
                valid.width as int,
                valid.height as int,
                GRID_MARGIN as int,
                GRID_STEP as int,
            ),
            list@ == surrounded_points(valid, points@, i as int),
        decreases points@.len() - i,
    {
        proof {
            lemma_lattice_point(valid.width as int, valid.height as int, i as int);
        }
        if surrounded(valid, points[i]) {
            list.push(points[i]);
        }
        i += 1;
    }
    list
}

/// Every point of the coarse lattice keeps its margin on all sides.
proof fn lemma_lattice_point(width: int, height: int, i: int)
    requires
        0 <= width <= u32::MAX,
        0 <= height <= u32::MAX,
        0 <= i < lattice(width, height, GRID_MARGIN as int, GRID_STEP as int).len(),
    ensures
        ({
            let point = lattice(width, height, GRID_MARGIN as int, GRID_STEP as int)[i];
            &&& GRID_MARGIN <= point.x < width - GRID_MARGIN
            &&& GRID_MARGIN <= point.y < height - GRID_MARGIN
        }),
{
    let columns = points_along(width, GRID_MARGIN as int, GRID_STEP as int);
    let rows = points_along(height, GRID_MARGIN as int, GRID_STEP as int);
    assert(columns > 0) by (nonlinear_arith)
        requires
            0 < columns * rows,
            columns >= 0,
            rows >= 0,
    ;
    crate::grid::lemma_split(columns, rows, i);
}

/// The shift of a patch that the search settled on.
#[derive(Clone, Copy, Debug, PartialEq, Eq, Structural)]
pub struct Peak {
    pub x: i32,
    pub y: i32,
    pub score: i64,
}

/// The first of the largest scores.
pub open spec fn is_first_maximum(scores: Seq<i64>, k: int) -> bool {
    &&& 0 <= k < scores.len()
    &&& forall|j: int| 0 <= j < scores.len() ==> #[trigger] scores[j] <= scores[k]
    &&& forall|j: int| 0 <= j < k ==> #[trigger] scores[j] < scores[k]
}

/// The horizontal shift of a score; the shifts run from `-search` to `search`, row by
/// row.
pub open spec fn shift_x(search: int, k: int) -> int {
    k % (2 * search + 1) - search
}

pub open spec fn shift_y(search: int, k: int) -> int {
    k / (2 * search + 1) - search
}

/// Two shifts lie two and a half pixels or more apart.
pub open spec fn is_apart(search: int, k: int, j: int) -> bool {
    let (dx, dy) = (shift_x(search, j) - shift_x(search, k), shift_y(search, j) - shift_y(
        search,
        k,
    ));
    4 * (dx * dx + dy * dy) >= 25
}

/// The best shift is good, does not lie on the border of the search and leads clearly.
pub open spec fn is_accepted(scores: Seq<i64>, search: int, k: int) -> bool {
    &&& is_first_maximum(scores, k)
    &&& scores[k] >= LEAST_CORRELATION
    &&& -search < shift_x(search, k) < search
    &&& -search < shift_y(search, k) < search
    &&& scores[k] - WORST_CORRELATION >= LEAST_LEAD
    &&& forall|j: int|
        #![trigger scores[j]]
        0 <= j < scores.len() && is_apart(search, k, j) ==> scores[k] - scores[j] >= LEAST_LEAD
}

/// The number of scores of a search.
pub open spec fn score_count(search: int) -> int {
    (2 * search + 1) * (2 * search + 1)
}

/// Settles on a whole-pixel shift, or on none where the texture repeats or the motion
/// leaves the search.
pub fn choose_peak(scores: &Vec<i64>, search: i32) -> (peak: Option<Peak>)
    requires
        0 < search <= 0x1000,
        scores@.len() == score_count(search as int),
        forall|j: int|
            0 <= j < scores@.len() ==> WORST_CORRELATION <= #[trigger] scores@[j] <= 1_000_000_000,
    ensures
        match peak {
            Some(found) => exists|k: int|
                #[trigger] is_accepted(scores@, search as int, k) && found.x == shift_x(
                    search as int,
                    k,
                ) && found.y == shift_y(search as int, k) && found.score == scores@[k],
            None => forall|k: int| !(#[trigger] is_accepted(scores@, search as int, k)),
        },
{
    let side: usize = (2 * search + 1) as usize;
    let ghost s = search as int;
    let count: usize = scores.len();
    assert(count > 0) by (nonlinear_arith)
        requires
            count == (2 * s + 1) * (2 * s + 1),
            s > 0,
    ;
    let mut best: usize = 0;
    let mut i: usize = 1;
    while i < count
        invariant
            1 <= i <= count,
            count == scores@.len(),
            best < i,
            forall|j: int| 0 <= j < i ==> #[trigger] scores@[j] <= scores@[best as int],
            forall|j: int| 0 <= j < best ==> #[trigger] scores@[j] < scores@[best as int],
        decreases count - i,
    {
        if scores[i] > scores[best] {
            best = i;
        }
        i += 1;
    }
    assert(is_first_maximum(scores@, best as int));
    assert forall|k: int| #[trigger] is_accepted(scores@, s, k) implies k == best by {
        assert(scores@[k] <= scores@[best as int]);
        assert(scores@[best as int] <= scores@[k]);
    }
    proof {
        crate::grid::lemma_split(side as int, side as int, best as int);
    }
    let x: i32 = (best % side) as i32 - search;
    let y: i32 = (best / side) as i32 - search;
    let score: i64 = scores[best];
    if score < LEAST_CORRELATION || x <= -search || x >= search || y <= -search || y >= search {
        return None;
    }
    let mut j: usize = 0;
    while j < count
        invariant
            j <= count,
            0 < s <= 0x1000,
            s == search,
            side == 2 * s + 1,
            count == side * side,
            count == scores@.len(),
            best < count,
            score == scores@[best as int],
            x == shift_x(s, best as int),
            y == shift_y(s, best as int),
            -s < x < s,
            -s < y < s,
            forall|k: int|
                0 <= k < scores@.len() ==> WORST_CORRELATION <= #[trigger] scores@[k]
                    <= 1_000_000_000,
            forall|k: int| #[trigger] is_accepted(scores@, s, k) ==> k == best,
            forall|k: int|
                #![trigger scores@[k]]
                0 <= k < j && is_apart(s, best as int, k) ==> score - scores@[k] >= LEAST_LEAD,
        decreases count - j,
    {
        proof {
            crate::grid::lemma_split(side as int, side as int, j as int);
        }
        let dx: i64 = (j % side) as i64 - search as i64 - x as i64;
        let dy: i64 = (j / side) as i64 - search as i64 - y as i64;
        assert(0 <= dx * dx <= 0x4000 * 0x4000) by (nonlinear_arith)
            requires
                -0x4000 <= dx <= 0x4000,
        ;
        assert(0 <= dy * dy <= 0x4000 * 0x4000) by (nonlinear_arith)
            requires
                -0x4000 <= dy <= 0x4000,
        ;
        let apart: bool = 4 * (dx * dx + dy * dy) >= 25;
        assert(apart == is_apart(s, best as int, j as int));
        if apart && score - scores[j] < LEAST_LEAD {
            assert(!is_accepted(scores@, s, best as int)) by {
                assert(scores@[best as int] - scores@[j as int] < LEAST_LEAD);
            }
            return None;
        }
        j += 1;
    }
    assert(is_accepted(scores@, s, best as int));
    Some(Peak { x, y, score })
}

/// The shift at a place of the ring around another, row by row.
pub open spec fn ring_shift(center: Peak, step: int, k: int) -> (int, int) {
    (center.x + (k % 3 - 1) * step, center.y + (k / 3 - 1) * step)
}

/// Moves to the best of the nine shifts at `step` around a peak if one of them is
/// better. Shifts count in fractions of a pixel here.
pub fn finer_peak(center: Peak, step: i32, ring: &Vec<i64>) -> (peak: Peak)
    requires
        ring@.len() == 9,
        0 < step <= 0x1000,
        -0x1000_0000 <= center.x <= 0x1000_0000,
        -0x1000_0000 <= center.y <= 0x1000_0000,
    ensures
        if forall|k: int| 0 <= k < 9 ==> #[trigger] ring@[k] <= center.score {
            peak == center
        } else {
            exists|k: int|
                #[trigger] is_first_maximum(ring@, k) && peak.score == ring@[k] && (
                peak.x as int,
                peak.y as int,
                ) == ring_shift(center, step as int, k)
        },
{
    let mut best: usize = 0;
    let mut i: usize = 1;
    while i < 9
        invariant
            1 <= i <= 9,
            ring@.len() == 9,
            best < i,
            forall|j: int| 0 <= j < i ==> #[trigger] ring@[j] <= ring@[best as int],
            forall|j: int| 0 <= j < best ==> #[trigger] ring@[j] < ring@[best as int],
        decreases 9 - i,
    {
        if ring[i] > ring[best] {
            best = i;
        }
        i += 1;
    }
    let score: i64 = ring[best];
    assert(is_first_maximum(ring@, best as int));
    if score <= center.score {
        return center;
    }
    assert(!(forall|k: int| 0 <= k < 9 ==> #[trigger] ring@[k] <= center.score)) by {
        assert(ring@[best as int] > center.score);
    }
    let (across, down) = ((best % 3) as i32 - 1, (best / 3) as i32 - 1);
    assert(-0x1000 <= across * step <= 0x1000) by (nonlinear_arith)
        requires
            -1 <= across <= 1,
            0 < step <= 0x1000,
    ;
    assert(-0x1000 <= down * step <= 0x1000) by (nonlinear_arith)
        requires
            -1 <= down <= 1,
            0 < step <= 0x1000,
    ;
    Peak { x: center.x + across * step, y: center.y + down * step, score }
}

/// Two patches are close enough to confirm each other.
pub open spec fn confirms(a: GridPoint, b: GridPoint) -> bool {
    (a.x - b.x) * (a.x - b.x) + (a.y - b.y) * (a.y - b.y) <= SUPPORT_RADIUS_SQUARED
}

/// The keys of the first `count` measurements near a point.
pub open spec fn keys_near(points: Seq<GridPoint>, keys: Seq<i64>, center: GridPoint, count: int) -> Seq<
    i64,
>
    decreases count,
{
    if count <= 0 {
        Seq::empty()
    } else {
        let earlier = keys_near(points, keys, center, count - 1);
        if confirms(points[count - 1], center) {
            earlier.push(keys[count - 1])
        } else {
            earlier
        }
    }
}

fn is_near(a: GridPoint, b: GridPoint) -> (near: bool)
    ensures
        near == confirms(a, b),
{
    let dx: i128 = a.x as i128 - b.x as i128;
    let dy: i128 = a.y as i128 - b.y as i128;
    assert(0 <= dx * dx <= 0xffff_ffff * 0xffff_ffff) by (nonlinear_arith)
        requires
            -0xffff_ffff <= dx <= 0xffff_ffff,
    ;
    assert(0 <= dy * dy <= 0xffff_ffff * 0xffff_ffff) by (nonlinear_arith)
        requires
            -0xffff_ffff <= dy <= 0xffff_ffff,
    ;
    dx * dx + dy * dy <= SUPPORT_RADIUS_SQUARED as i128
}

/// The middle shift of the measurements around a point.
#[derive(Clone, Copy, Debug, PartialEq, Eq, Structural)]
pub struct MedianShift {
    pub x: i64,
    pub y: i64,
}

/// The middle shift around every measurement; `None` where too few measurements are
/// near. `x_keys` and `y_keys` order the shifts.
pub fn neighbour_medians(
    points: &Vec<GridPoint>,
    x_keys: &Vec<i64>,
    y_keys: &Vec<i64>,
) -> (medians: Vec<Option<MedianShift>>)
    requires
        x_keys@.len() == points@.len(),
        y_keys@.len() == points@.len(),
    ensures
        medians@.len() == points@.len(),
        forall|i: int|
            0 <= i < points@.len() ==> #[trigger] medians@[i] == {
                let near_x = keys_near(points@, x_keys@, points@[i], points@.len() as int);
                let near_y = keys_near(points@, y_keys@, points@[i], points@.len() as int);
                if near_x.len() < 3 {
                    None
                } else {
                    Some(MedianShift { x: median_of(near_x), y: median_of(near_y) })
                }
            },
{
    let mut medians: Vec<Option<MedianShift>> = Vec::new();
    let mut i: usize = 0;
    while i < points.len()
        invariant
            i <= points@.len(),
            x_keys@.len() == points@.len(),
            y_keys@.len() == points@.len(),
            medians@.len() == i,
            forall|k: int|
                0 <= k < i ==> #[trigger] medians@[k] == {
                    let near_x = keys_near(points@, x_keys@, points@[k], points@.len() as int);
                    let near_y = keys_near(points@, y_keys@, points@[k], points@.len() as int);
                    if near_x.len() < LEAST_SUPPORT {
                        None
                    } else {
                        Some(MedianShift { x: median_of(near_x), y: median_of(near_y) })
                    }
                },
        decreases points@.len() - i,
    {
        let center: GridPoint = points[i];
        let mut near_x: Vec<i64> = Vec::new();
        let mut near_y: Vec<i64> = Vec::new();
        let mut j: usize = 0;
        while j < points.len()
            invariant
                j <= points@.len(),
                x_keys@.len() == points@.len(),
                y_keys@.len() == points@.len(),
                near_x@ == keys_near(points@, x_keys@, center, j as int),
                near_y@ == keys_near(points@, y_keys@, center, j as int),
                near_y@.len() == near_x@.len(),
            decreases points@.len() - j,
        {
            if is_near(points[j], center) {
                near_x.push(x_keys[j]);
                near_y.push(y_keys[j]);
            }
            j += 1;
        }
        let enough: bool = near_x.len() >= LEAST_SUPPORT;
        let x: Option<i64> = median(near_x);
        let y: Option<i64> = median(near_y);
        let found: Option<MedianShift> = match (x, y) {
            (Some(x), Some(y)) => if enough {
                Some(MedianShift { x, y })
            } else {
                None
            },
            _ => None,
        };
        medians.push(found);
        i += 1;
    }
    medians
}

/// The middle gain of every node of a tone field, and of all measurements.
pub struct ToneMedians {
    pub nodes: Vec<Option<i64>>,
    pub overall: Option<i64>,
}

/// Gathers the gains of one channel by the node of the field that they belong to. A node
/// with fewer than `minimum` gains has no median of its own.
pub fn tone_medians(nodes: &Vec<usize>, keys: Vec<i64>, node_count: usize, minimum: usize) -> (found:
    ToneMedians)
    requires
        nodes@.len() == keys@.len(),
        minimum > 0,
        forall|i: int| 0 <= i < nodes@.len() ==> #[trigger] nodes@[i] < node_count,
    ensures
        found.nodes@.len() == node_count,
        forall|c: int|
            0 <= c < node_count ==> #[trigger] found.nodes@[c] == {
                let own = keys_in_cell(nodes@, keys@, c);
                if own.len() >= minimum {
                    Some(median_of(own))
                } else {
                    None
                }
            },
        found.overall == if keys@.len() == 0 {
            None::<i64>
        } else {
            Some(median_of(keys@))
        },
{
    let groups: Vec<Vec<i64>> = group_by_cell(nodes, &keys, node_count);
    let medians: Vec<Option<i64>> = cell_medians(groups, minimum);
    ToneMedians { nodes: medians, overall: median(keys) }
}

/// A lattice starts at the margin in both directions, goes on by whole steps, and holds every
/// such point that is at least the margin away from the far ends.
pub proof fn law_lattices_keep_the_margin(
    width: int,
    height: int,
    margin: int,
    step: int,
    x: int,
    y: int,
)
    requires
        0 < step,
        0 <= margin,
        width <= u32::MAX,
        height <= u32::MAX,
        margin <= x < width - margin,
        margin <= y < height - margin,
        (x - margin) % step == 0,
        (y - margin) % step == 0,
    ensures
        exists|i: int|
            0 <= i < lattice(width, height, margin, step).len() && (#[trigger] lattice(
                width,
                height,
                margin,
                step,
            )[i]).x == x && lattice(width, height, margin, step)[i].y == y,
{
    let (columns, rows) = (points_along(width, margin, step), points_along(height, margin, step));
    let (a, b) = ((x - margin) / step, (y - margin) / step);
    lemma_place_on_lattice(width, margin, step, x);
    lemma_place_on_lattice(height, margin, step, y);
    lemma_cell(columns, rows, a, b);
    let i = cell(columns, a, b);
    assert(lattice(width, height, margin, step)[i].x == x);
}

proof fn lemma_place_on_lattice(length: int, margin: int, step: int, x: int)
    requires
        0 < step,
        0 <= margin,
        margin <= x < length - margin,
        (x - margin) % step == 0,
    ensures
        0 <= (x - margin) / step < points_along(length, margin, step),
        margin + step * ((x - margin) / step) == x,
{
    let q = (x - margin) / step;
    let n = points_along(length, margin, step);
    vstd::arithmetic::div_mod::lemma_fundamental_div_mod(x - margin, step);
    vstd::arithmetic::div_mod::lemma_fundamental_div_mod(length - 2 * margin + step - 1, step);
    assert(0 <= q < n) by (nonlinear_arith)
        requires
            step * q == x - margin,
            0 <= x - margin < length - 2 * margin,
            step * n <= length - 2 * margin + step - 1,
            length - 2 * margin + step - 1 < step * n + step,
            0 < step,
    ;
}

/// All points of a lattice lie on it: whole steps from the margin, and the margin away from the
/// far ends.
pub proof fn law_lattice_points_are_whole_steps_apart(
    width: int,
    height: int,
    margin: int,
    step: int,
    i: int,
)
    requires
        0 < step,
        0 <= margin,
        width <= u32::MAX,
        height <= u32::MAX,
        0 <= i < lattice(width, height, margin, step).len(),
    ensures
        ({
            let point = lattice(width, height, margin, step)[i];
            &&& margin <= point.x < width - margin
            &&& margin <= point.y < height - margin
            &&& (point.x - margin) % step == 0
            &&& (point.y - margin) % step == 0
        }),
{
    let (columns, rows) = (points_along(width, margin, step), points_along(height, margin, step));
    lemma_count_is_positive(width, margin, step);
    lemma_count_is_positive(height, margin, step);
    assert(columns > 0 && rows > 0) by (nonlinear_arith)
        requires
            0 < columns * rows,
            0 <= columns,
            0 <= rows,
    ;
    lemma_split(columns, rows, i);
    lemma_lattice_place(width, margin, step, i % columns);
    lemma_lattice_place(height, margin, step, i / columns);
}

proof fn lemma_count_is_positive(length: int, margin: int, step: int)
    requires
        0 < step,
        0 <= margin,
    ensures
        0 <= points_along(length, margin, step),
{
    if length > 2 * margin {
        vstd::arithmetic::div_mod::lemma_div_pos_is_pos(length - 2 * margin + step - 1, step);
    }
}

proof fn lemma_lattice_place(length: int, margin: int, step: int, k: int)
    requires
        0 < step,
        0 <= margin,
        0 <= k < points_along(length, margin, step),
    ensures
        0 <= step * k,
        margin + step * k < length - margin,
        (step * k) % step == 0,
{
    let n = points_along(length, margin, step);
    vstd::arithmetic::div_mod::lemma_fundamental_div_mod(length - 2 * margin + step - 1, step);
    assert(0 <= step * k && step * k < length - 2 * margin) by (nonlinear_arith)
        requires
            step * n <= length - 2 * margin + step - 1,
            0 <= k <= n - 1,
            0 < step,
    ;
    vstd::arithmetic::div_mod::lemma_mod_multiples_basic(k, step);
    assert(step * k == k * step) by (nonlinear_arith);
}

/// A peak that is accepted correlates by 0.8 or more, lies within the search, and no shift two
/// and a half pixels or more away from it comes nearer than 0.006.
pub proof fn law_accepted_peaks_lead_clearly(
    scores: Seq<i64>,
    search: int,
    k: int,
    x: int,
    y: int,
)
    requires
        0 < search,
        scores.len() == (2 * search + 1) * (2 * search + 1),
        is_accepted(scores, search, k),
        -search <= x <= search,
        -search <= y <= search,
    ensures
        0 <= k < scores.len(),
        ({
            let side = 2 * search + 1;
            let (u, v) = (k % side - search, k / side - search);
            let other = scores[(y + search) * side + (x + search)];
            &&& -search < u < search
            &&& -search < v < search
            &&& scores[k] >= 800_000_000
            &&& other <= scores[k]
            &&& 4 * ((x - u) * (x - u) + (y - v) * (y - v)) >= 25 ==> other + 6_000_000 <= scores[k]
        }),
{
    let side = 2 * search + 1;
    lemma_cell(side, side, x + search, y + search);
    let j = cell(side, x + search, y + search);
    assert(scores[j] <= scores[k]);
}

/// A measurement counts around a point exactly if it lies within 150 pixels of it: one more
/// measurement adds its key, or nothing.
pub proof fn law_measurements_count_where_they_are_near(
    points: Seq<GridPoint>,
    keys: Seq<i64>,
    center: GridPoint,
    point: GridPoint,
    key: i64,
)
    requires
        keys.len() == points.len(),
    ensures
        ({
            let before = keys_near(points, keys, center, points.len() as int);
            let after = keys_near(
                points.push(point),
                keys.push(key),
                center,
                points.len() as int + 1,
            );
            let (dx, dy) = (point.x - center.x, point.y - center.y);
            after == if dx * dx + dy * dy <= 150 * 150 {
                before.push(key)
            } else {
                before
            }
        }),
{
    lemma_keys_of_prefix(points, keys, center, point, key, points.len() as int);
}

proof fn lemma_keys_of_prefix(
    points: Seq<GridPoint>,
    keys: Seq<i64>,
    center: GridPoint,
    point: GridPoint,
    key: i64,
    count: int,
)
    requires
        keys.len() == points.len(),
        count <= points.len(),
    ensures
        keys_near(points.push(point), keys.push(key), center, count) == keys_near(
            points,
            keys,
            center,
            count,
        ),
    decreases count,
{
    if count > 0 {
        lemma_keys_of_prefix(points, keys, center, point, key, count - 1);
        assert(points.push(point)[count - 1] == points[count - 1]);
        assert(keys.push(key)[count - 1] == keys[count - 1]);
    }
}

/// A point is used exactly if it and the eight places around it at the reach of a patch are
/// covered.
pub proof fn law_patches_lie_on_covered_pixels(
    valid: &Raster<u8>,
    points: Seq<GridPoint>,
    count: int,
    i: int,
)
    requires
        0 <= i < count <= points.len(),
    ensures
        surrounded_points(valid, points, count).contains(points[i]) <== (forall|dx: int, dy: int|
            #![trigger valid.at(points[i].x + dx, points[i].y + dy)]
            (dx == -14 || dx == 0 || dx == 14) && (dy == -14 || dy == 0 || dy == 14) ==> valid.at(
                points[i].x + dx,
                points[i].y + dy,
            ) > 0),
        forall|k: int, dx: int, dy: int|
            #![trigger surrounded_points(valid, points, count)[k], valid.at(surrounded_points(valid, points, count)[k].x + dx, surrounded_points(valid, points, count)[k].y + dy)]
            0 <= k < surrounded_points(valid, points, count).len() && (dx == -14 || dx == 0 || dx
                == 14) && (dy == -14 || dy == 0 || dy == 14) ==> valid.at(
                surrounded_points(valid, points, count)[k].x + dx,
                surrounded_points(valid, points, count)[k].y + dy,
            ) > 0,
    decreases count,
{
    let list = surrounded_points(valid, points, count);
    lemma_used_points(valid, points, count);
    assert forall|k: int, dx: int, dy: int|
        #![trigger list[k], valid.at(list[k].x + dx, list[k].y + dy)]
        0 <= k < list.len() && (dx == -14 || dx == 0 || dx == 14) && (dy == -14 || dy == 0 || dy
            == 14) implies valid.at(list[k].x + dx, list[k].y + dy) > 0 by {
        assert(is_surrounded(valid, list[k]));
        let (a, b) = (dx / 14, dy / 14);
        assert(dx == a * PATCH_REACH && dy == b * PATCH_REACH);
        assert(valid.at(list[k].x + a * PATCH_REACH, list[k].y + b * PATCH_REACH) != 0);
    }
    if forall|dx: int, dy: int|
        #![trigger valid.at(points[i].x + dx, points[i].y + dy)]
        (dx == -14 || dx == 0 || dx == 14) && (dy == -14 || dy == 0 || dy == 14) ==> valid.at(
            points[i].x + dx,
            points[i].y + dy,
        ) > 0 {
        assert(is_surrounded(valid, points[i])) by {
            assert forall|dx: int, dy: int|
                #![trigger valid.at(points[i].x + dx * PATCH_REACH, points[i].y + dy * PATCH_REACH)]
                -1 <= dx <= 1 && -1 <= dy <= 1 implies valid.at(
                points[i].x + dx * PATCH_REACH,
                points[i].y + dy * PATCH_REACH,
            ) != 0 by {
                let (a, b) = (dx * PATCH_REACH, dy * PATCH_REACH);
                assert(valid.at(points[i].x + a, points[i].y + b) > 0);
            }
        }
        lemma_point_is_used(valid, points, count, i);
    }
}

proof fn lemma_used_points(valid: &Raster<u8>, points: Seq<GridPoint>, count: int)
    ensures
        forall|k: int|
            0 <= k < surrounded_points(valid, points, count).len() ==> is_surrounded(
                valid,
                #[trigger] surrounded_points(valid, points, count)[k],
            ),
    decreases count,
{
    if count > 0 {
        lemma_used_points(valid, points, count - 1);
        let before = surrounded_points(valid, points, count - 1);
        let after = surrounded_points(valid, points, count);
        assert forall|k: int| 0 <= k < after.len() implies is_surrounded(
            valid,
            #[trigger] after[k],
        ) by {
            if k < before.len() {
                assert(after[k] == before[k]);
            }
        }
    }
}

proof fn lemma_point_is_used(valid: &Raster<u8>, points: Seq<GridPoint>, count: int, i: int)
    requires
        0 <= i < count,
        is_surrounded(valid, points[i]),
    ensures
        surrounded_points(valid, points, count).contains(points[i]),
    decreases count,
{
    let before = surrounded_points(valid, points, count - 1);
    let after = surrounded_points(valid, points, count);
    if i == count - 1 {
        assert(after[before.len() as int] == points[i]);
    } else {
        lemma_point_is_used(valid, points, count - 1, i);
        let k = choose|k: int| 0 <= k < before.len() && before[k] == points[i];
        assert(after[k] == points[i]);
    }
}

/// The scores of a search stand row by row: every shift has its place, and the place its shift.
pub proof fn law_scores_stand_row_by_row(search: int, x: int, y: int)
    requires
        0 < search,
        -search <= x <= search,
        -search <= y <= search,
    ensures
        ({
            let k = (y + search) * (2 * search + 1) + (x + search);
            &&& 0 <= k < (2 * search + 1) * (2 * search + 1)
            &&& shift_x(search, k) == x
            &&& shift_y(search, k) == y
        }),
{
    let side = 2 * search + 1;
    lemma_cell(side, side, x + search, y + search);
}

/// The nine shifts around a peak stand row by row, each a step away, with the peak in the middle.
pub proof fn law_rings_surround_their_peak(center: Peak, step: int, i: int, j: int)
    requires
        -1 <= i <= 1,
        -1 <= j <= 1,
    ensures
        ring_shift(center, step, 3 * (j + 1) + (i + 1)) == (center.x + i * step, center.y + j * step),
{
    let k = 3 * (j + 1) + (i + 1);
    assert(k % 3 - 1 == i && k / 3 - 1 == j);
}

/// Of equal scores the first counts.
pub proof fn law_the_first_of_the_largest_counts(scores: Seq<i64>, k: int, j: int)
    requires
        is_first_maximum(scores, k),
        0 <= j < scores.len(),
    ensures
        scores[j] <= scores[k],
        scores[j] == scores[k] ==> k <= j,
        0 <= k < scores.len(),
{
}

/// A search has a score for every shift from one end to the other, in both directions.
pub proof fn law_searches_have_a_score_for_every_shift(search: int, x: int, y: int)
    requires
        0 < search,
        -search <= x <= search,
        -search <= y <= search,
    ensures
        0 <= (y + search) * (2 * search + 1) + (x + search) < score_count(search),
        score_count(search) == (2 * search + 1) * (2 * search + 1),
{
    law_scores_stand_row_by_row(search, x, y);
}

/// A peak is accepted if it is the first of the largest scores, correlates by 0.8, lies inside of
/// the search and leads by 0.006 before every shift two and a half pixels or more away.
pub proof fn law_clear_peaks_are_accepted(scores: Seq<i64>, search: int, k: int)
    requires
        0 < search,
        scores.len() == (2 * search + 1) * (2 * search + 1),
        0 <= k < scores.len(),
        scores[k] >= 800_000_000,
        forall|j: int|
            #![trigger scores[j]]
            0 <= j < scores.len() ==> scores[j] <= scores[k] && (j < k ==> scores[j] < scores[k]),
        ({
            let side = 2 * search + 1;
            let (u, v) = (k % side - search, k / side - search);
            &&& -search < u < search
            &&& -search < v < search
            &&& forall|j: int|
                #![trigger scores[j]]
                0 <= j < scores.len() && 4 * ((j % side - search - u) * (j % side - search - u) + (j
                    / side - search - v) * (j / side - search - v)) >= 25 ==> scores[j] + 6_000_000
                    <= scores[k]
        }),
    ensures
        is_accepted(scores, search, k),
{
}

} // verus!
