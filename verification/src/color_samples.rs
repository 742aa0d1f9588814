//! Where the colour of a layer is compared with the canvas, how the measurements are
//! gathered in cells, and which cells lend their correction to which.

use vstd::prelude::*;

use crate::focus_layer::RenderedFocusLayer;
use crate::grid::cell;
use crate::grid::lemma_cell;
use crate::grid::lemma_split;
use crate::order::median;
use crate::order::median_of;
use crate::raster::region_fits;
use crate::raster::Raster;

verus! {

/// About this many pixels of a layer are compared.
pub const FOCUS_COLOR_SAMPLE_BUDGET: u64 = 12_000;

/// The edge of a cell of the correction field in pixels.
pub const FOCUS_COLOR_CELL_SIZE: u32 = 768;

/// The least number of measurements from which a correction of a whole layer follows.
pub const FOCUS_COLOR_MIN_SAMPLES: usize = 96;

/// Fewer measurements in a cell say nothing about it.
pub const FOCUS_COLOR_MIN_CELL_SAMPLES: usize = 12;

/// How far a measured correction reaches, in cells.
pub const FOCUS_COLOR_PROPAGATION_RADIUS_CELLS: usize = 3;

/// The distance between samples: the least with which no more than the budget of
/// samples comes out of an area of whole steps.
pub fn sample_step(area: u64) -> (step: u32)
    ensures
        step >= 1,
        step * step * 12_000 >= area,
        step > 1 ==> (step - 1) * (step - 1) * 12_000 < area,
{
    let mut step: u32 = 1;
    while !is_enough(step, area)
        invariant
            1 <= step <= 40_000_000,
            step > 1 ==> (step - 1) * (step - 1) * FOCUS_COLOR_SAMPLE_BUDGET < area,
        decreases 40_000_001 - step,
    {
        assert(step < 40_000_000) by {
            if step == 40_000_000 {
                assert(step * step == 1_600_000_000_000_000) by (nonlinear_arith)
                    requires
                        step == 40_000_000,
                ;
            }
        }
        step += 1;
    }
    step
}

fn is_enough(step: u32, area: u64) -> (enough: bool)
    requires
        step <= 40_000_000,
    ensures
        enough == (step * step * FOCUS_COLOR_SAMPLE_BUDGET >= area),
{
    assert(step * step <= 40_000_000 * 40_000_000) by (nonlinear_arith)
        requires
            step <= 40_000_000,
    ;
    let square: u128 = (step as u128) * (step as u128);
    square * (FOCUS_COLOR_SAMPLE_BUDGET as u128) >= area as u128
}

/// A pixel of a layer that is compared with the canvas.
#[derive(Debug, Clone, Copy, PartialEq, Eq, Structural)]
pub struct ColorSample {
    pub x: u32,
    pub y: u32,
    /// The pixel lies on an edge that canvas and layer have in common.
    pub relaxed: bool,
    /// The cell of the correction field that the pixel lies in.
    pub cell: usize,
}

/// Canvas and layer show the same physical edge here.
pub open spec fn is_shared_edge<P>(
    merged_foreground: &Raster<u8>,
    candidate: &RenderedFocusLayer<P>,
    x: int,
    y: int,
) -> bool {
    &&& candidate.relaxed_foreground_mask.at(x, y) > 0
    &&& candidate.foreground_mask.at(x, y) > 0
    &&& merged_foreground.at(candidate.left + x, candidate.top + y) > 0
}

/// The colours of canvas and layer can be compared here: both are valid, and neither
/// shows foreground, unless they show the same edge.
pub open spec fn is_comparable<P>(
    base_mask: &Raster<u8>,
    merged_foreground: &Raster<u8>,
    candidate: &RenderedFocusLayer<P>,
    x: int,
    y: int,
) -> bool {
    &&& candidate.mask.at(x, y) > 0
    &&& base_mask.at(candidate.left + x, candidate.top + y) > 0
    &&& (candidate.foreground_mask.at(x, y) == 0 && merged_foreground.at(
        candidate.left + x,
        candidate.top + y,
    ) == 0) || is_shared_edge(merged_foreground, candidate, x, y)
}

/// The number of cells that cover a length.
pub open spec fn cells_along(length: int) -> int {
    (length + FOCUS_COLOR_CELL_SIZE - 1) / FOCUS_COLOR_CELL_SIZE as int
}

/// The sample for a pixel.
pub open spec fn sample_at<P>(
    merged_foreground: &Raster<u8>,
    candidate: &RenderedFocusLayer<P>,
    x: int,
    y: int,
) -> ColorSample {
    ColorSample {
        x: x as u32,
        y: y as u32,
        relaxed: is_shared_edge(merged_foreground, candidate, x, y),
        cell: cell(
            cells_along(candidate.image.width as int),
            x / FOCUS_COLOR_CELL_SIZE as int,
            y / FOCUS_COLOR_CELL_SIZE as int,
        ) as usize,
    }
}

/// The pixel is on the sampling lattice of the layer and can be compared.
pub open spec fn is_sampled<P>(
    base_mask: &Raster<u8>,
    merged_foreground: &Raster<u8>,
    candidate: &RenderedFocusLayer<P>,
    step: int,
    x: int,
    y: int,
) -> bool {
    &&& 0 <= x < candidate.image.width
    &&& 0 <= y < candidate.image.height
    &&& x % step == 0
    &&& y % step == 0
    &&& is_comparable(base_mask, merged_foreground, candidate, x, y)
}

/// One sample comes before another row by row.
pub open spec fn is_ordered(a: ColorSample, b: ColorSample) -> bool {
    a.y < b.y || a.y == b.y && a.x < b.x
}

/// The pixel has a sample.
pub open spec fn has_sample(samples: Seq<ColorSample>, x: int, y: int) -> bool {
    exists|i: int| 0 <= i < samples.len() && (#[trigger] samples[i]).x == x && samples[i].y == y
}

/// The samples of all pixels before a position in a row by row pass.
spec fn sampled_before<P>(
    samples: Seq<ColorSample>,
    base_mask: &Raster<u8>,
    merged_foreground: &Raster<u8>,
    candidate: &RenderedFocusLayer<P>,
    step: int,
    x: int,
    y: int,
) -> bool {
    &&& forall|i: int|
        0 <= i < samples.len() ==> is_sampled(
            base_mask,
            merged_foreground,
            candidate,
            step,
            (#[trigger] samples[i]).x as int,
            samples[i].y as int,
        ) && samples[i] == sample_at(
            merged_foreground,
            candidate,
            samples[i].x as int,
            samples[i].y as int,
        ) && (samples[i].y < y || samples[i].y == y && samples[i].x < x)
    &&& forall|i: int, j: int|
        0 <= i < j < samples.len() ==> is_ordered(#[trigger] samples[i], #[trigger] samples[j])
    &&& forall|a: int, b: int| #[trigger]
        is_sampled(base_mask, merged_foreground, candidate, step, a, b) && (b < y || b == y && a
            < x) ==> has_sample(samples, a, b)
}

/// Between one multiple of a step and the next there is no other.
proof fn lemma_next_multiple(step: int, a: int, b: int)
    requires
        step > 0,
        a % step == 0,
        b % step == 0,
        a < b,
    ensures
        a + step <= b,
{
    assert(a + step <= b) by (nonlinear_arith)
        requires
            step > 0,
            a % step == 0,
            b % step == 0,
            a < b,
    ;
}

proof fn lemma_step_keeps_multiple(step: int, a: int)
    requires
        step > 0,
        a % step == 0,
    ensures
        (a + step) % step == 0,
{
    assert((a + step) % step == 0) by (nonlinear_arith)
        requires
            step > 0,
            a % step == 0,
    ;
}

/// The cell of a pixel is one of the cells of the field.
proof fn lemma_cell_of_pixel(width: int, height: int, x: int, y: int)
    requires
        0 <= x < width <= u32::MAX,
        0 <= y < height <= u32::MAX,
    ensures
        0 <= cell(cells_along(width), x / 768, y / 768) < cells_along(width) * cells_along(height),
        0 <= x / 768 < cells_along(width),
        0 <= y / 768 < cells_along(height),
        cells_along(width) * cells_along(height) <= width * height,
{
    lemma_cell(cells_along(width), cells_along(height), x / 768, y / 768);
    assert(cells_along(width) * cells_along(height) <= width * height) by (nonlinear_arith)
        requires
            0 <= cells_along(width) <= width,
            0 <= cells_along(height) <= height,
    ;
}

/// The pixels at which the colour of a layer is compared with the canvas, row by row.
/// `None` where the layer does not lie on the canvas or the masks do not fit it.
pub fn find_color_samples<P: Copy>(
    base: &Raster<P>,
    base_mask: &Raster<u8>,
    merged_foreground_mask: &Raster<u8>,
    candidate: &RenderedFocusLayer<P>,
    step: u32,
) -> (samples: Option<Vec<ColorSample>>)
    requires
        base.well_formed(),
        base_mask.well_formed(),
        merged_foreground_mask.well_formed(),
        candidate.well_formed(),
        step >= 1,
    ensures
        samples is Some <==> base_mask.same_size(base) && merged_foreground_mask.same_size(base)
            && candidate.image.width > 0 && candidate.image.height > 0 && candidate.fits(
            base.width as int,
            base.height as int,
        ),
        samples matches Some(list) ==> {
            &&& forall|i: int|
                0 <= i < list@.len() ==> is_sampled(
                    base_mask,
                    merged_foreground_mask,
                    candidate,
                    step as int,
                    (#[trigger] list@[i]).x as int,
                    list@[i].y as int,
                ) && list@[i] == sample_at(
                    merged_foreground_mask,
                    candidate,
                    list@[i].x as int,
                    list@[i].y as int,
                )
            &&& forall|i: int, j: int|
                0 <= i < j < list@.len() ==> is_ordered(#[trigger] list@[i], #[trigger] list@[j])
            &&& forall|x: int, y: int| #[trigger]
                is_sampled(base_mask, merged_foreground_mask, candidate, step as int, x, y)
                    ==> has_sample(list@, x, y)
            &&& forall|i: int|
                0 <= i < list@.len() ==> (#[trigger] list@[i]).cell < cells_along(
                    candidate.image.width as int,
                ) * cells_along(candidate.image.height as int)
        },
{
    let width: u32 = candidate.image.width;
    let height: u32 = candidate.image.height;
    if width == 0 || height == 0 || base_mask.width != base.width || base_mask.height != base.height
        || merged_foreground_mask.width != base.width || merged_foreground_mask.height != base.height
        || !region_fits(candidate.left, candidate.top, width, height, base.width, base.height) {
        return None;
    }
    let size: usize = candidate.image.pixels.len();
    let stride: usize = ((width - 1) / FOCUS_COLOR_CELL_SIZE) as usize + 1;
    let ghost s = step as int;
    let ghost (w, h) = (width as int, height as int);
    assert(stride == cells_along(w));
    let mut list: Vec<ColorSample> = Vec::new();
    let mut y: u64 = 0;
    assert(0int % s == 0) by (nonlinear_arith)
        requires
            s > 0,
    ;
    while y < height as u64
        invariant
            s == step,
            s >= 1,
            w == width,
            h == height,
            width > 0,
            width == candidate.image.width,
            height == candidate.image.height,
            stride == cells_along(w),
            size == w * h,
            base_mask.well_formed(),
            merged_foreground_mask.well_formed(),
            candidate.well_formed(),
            base_mask.same_size(base),
            merged_foreground_mask.same_size(base),
            candidate.fits(base.width as int, base.height as int),
            y as int % s == 0,
            y <= 0x2_0000_0000,
            sampled_before(
                list@,
                base_mask,
                merged_foreground_mask,
                candidate,
                s,
                0,
                y as int,
            ),
        decreases 0x2_0000_0000 - y,
    {
        let mut x: u64 = 0;
        let row: u32 = y as u32;
        while x < width as u64
            invariant
                s == step,
                s >= 1,
                w == width,
                h == height,
                width == candidate.image.width,
                height == candidate.image.height,
                stride == cells_along(w),
                size == w * h,
                base_mask.well_formed(),
                merged_foreground_mask.well_formed(),
                candidate.well_formed(),
                base_mask.same_size(base),
                merged_foreground_mask.same_size(base),
                candidate.fits(base.width as int, base.height as int),
                row == y,
                y < height,
                y as int % s == 0,
                x as int % s == 0,
                x <= 0x2_0000_0000,
                sampled_before(
                    list@,
                    base_mask,
                    merged_foreground_mask,
                    candidate,
                    s,
                    x as int,
                    y as int,
                ),
            decreases 0x2_0000_0000 - x,
        {
            let column: u32 = x as u32;
            let ghost before = list@;
            let valid: bool = candidate.mask.pixel(column, row) > 0 && base_mask.pixel(
                candidate.left + column,
                candidate.top + row,
            ) > 0;
            let ours: bool = candidate.foreground_mask.pixel(column, row) > 0;
            let theirs: bool = merged_foreground_mask.pixel(
                candidate.left + column,
                candidate.top + row,
            ) > 0;
            let relaxed: bool = candidate.relaxed_foreground_mask.pixel(column, row) > 0 && ours
                && theirs;
            assert(relaxed == is_shared_edge(
                merged_foreground_mask,
                candidate,
                x as int,
                y as int,
            ));
            let comparable: bool = valid && ((!ours && !theirs) || relaxed);
            assert(comparable == is_sampled(
                base_mask,
                merged_foreground_mask,
                candidate,
                s,
                x as int,
                y as int,
            ));
            if comparable {
                proof {
                    lemma_cell_of_pixel(w, h, x as int, y as int);
                    assert(0 <= (y as int / 768) * cells_along(w)) by (nonlinear_arith)
                        requires
                            y >= 0,
                            cells_along(w) >= 0,
                    ;
                }
                let index: usize = ((row / FOCUS_COLOR_CELL_SIZE) as usize) * stride + ((column
                    / FOCUS_COLOR_CELL_SIZE) as usize);
                list.push(ColorSample { x: column, y: row, relaxed, cell: index });
            }
            proof {
                lemma_step_keeps_multiple(s, x as int);
                assert forall|a: int, b: int| #[trigger]
                    is_sampled(base_mask, merged_foreground_mask, candidate, s, a, b) && (b < y || b
                        == y && a < x + s) implies has_sample(list@, a, b) by {
                    if b == y && a >= x {
                        if a > x {
                            lemma_next_multiple(s, x as int, a);
                        }
                        assert(list@[before.len() as int].x == a);
                    } else {
                        assert(has_sample(before, a, b));
                        let i = choose|i: int|
                            0 <= i < before.len() && (#[trigger] before[i]).x == a && before[i].y
                                == b;
                        assert(list@[i] == before[i]);
                    }
                }
            }
            x += step as u64;
        }
        proof {
            lemma_step_keeps_multiple(s, y as int);
            assert forall|a: int, b: int| #[trigger]
                is_sampled(base_mask, merged_foreground_mask, candidate, s, a, b) && b < y
                    + s implies has_sample(list@, a, b) by {
                if b > y {
                    lemma_next_multiple(s, y as int, b);
                }
            }
        }
        y += step as u64;
    }
    proof {
        assert forall|i: int| 0 <= i < list@.len() implies (#[trigger] list@[i]).cell < cells_along(w)
            * cells_along(h) by {
            lemma_cell_of_pixel(w, h, list@[i].x as int, list@[i].y as int);
        }
    }
    Some(list)
}

/// The keys of the measurements in one cell, in order.
pub open spec fn keys_in_cell(cells: Seq<usize>, keys: Seq<i64>, wanted: int) -> Seq<i64>
    decreases cells.len(),
{
    if cells.len() == 0 {
        Seq::empty()
    } else {
        let earlier = keys_in_cell(cells.drop_last(), keys, wanted);
        if cells.last() == wanted {
            earlier.push(keys[cells.len() - 1])
        } else {
            earlier
        }
    }
}

/// Gathers measurements by cell. `cells` and `keys` hold the cell and the key of each
/// measurement.
pub fn group_by_cell(cells: &Vec<usize>, keys: &Vec<i64>, cell_count: usize) -> (groups: Vec<
    Vec<i64>,
>)
    requires
        cells@.len() == keys@.len(),
        forall|i: int| 0 <= i < cells@.len() ==> #[trigger] cells@[i] < cell_count,
    ensures
        groups@.len() == cell_count,
        forall|c: int|
            0 <= c < cell_count ==> (#[trigger] groups@[c])@ == keys_in_cell(cells@, keys@, c),
{
    let mut groups: Vec<Vec<i64>> = Vec::new();
    let mut c: usize = 0;
    assert(cells@.take(0) =~= Seq::<usize>::empty());
    while c < cell_count
        invariant
            c <= cell_count,
            groups@.len() == c,
            cells@.take(0) == Seq::<usize>::empty(),
            forall|j: int|
                0 <= j < c ==> (#[trigger] groups@[j])@ == keys_in_cell(cells@.take(0), keys@, j),
        decreases cell_count - c,
    {
        groups.push(Vec::new());
        c += 1;
    }
    let mut i: usize = 0;
    while i < cells.len()
        invariant
            i <= cells@.len(),
            cells@.len() == keys@.len(),
            groups@.len() == cell_count,
            forall|j: int| 0 <= j < cells@.len() ==> #[trigger] cells@[j] < cell_count,
            forall|j: int|
                0 <= j < cell_count ==> (#[trigger] groups@[j])@ == keys_in_cell(
                    cells@.take(i as int),
                    keys@,
                    j,
                ),
        decreases cells@.len() - i,
    {
        assert(cells@.take(i + 1).drop_last() =~= cells@.take(i as int));
        let target: usize = cells[i];
        groups[target].push(keys[i]);
        i += 1;
    }
    assert(cells@.take(cells@.len() as int) =~= cells@);
    groups
}

/// The median of every cell with enough measurements.
pub fn cell_medians(groups: Vec<Vec<i64>>, minimum: usize) -> (medians: Vec<Option<i64>>)
    requires
        minimum > 0,
    ensures
        medians@.len() == groups@.len(),
        forall|c: int|
            0 <= c < medians@.len() ==> #[trigger] medians@[c] == if groups@[c]@.len() >= minimum {
                Some(median_of(groups@[c]@))
            } else {
                None
            },
{
    let mut medians: Vec<Option<i64>> = Vec::new();
    let mut c: usize = 0;
    while c < groups.len()
        invariant
            c <= groups@.len(),
            minimum > 0,
            medians@.len() == c,
            forall|j: int|
                0 <= j < c ==> #[trigger] medians@[j] == if groups@[j]@.len() >= minimum {
                    Some(median_of(groups@[j]@))
                } else {
                    None
                },
        decreases groups@.len() - c,
    {
        if groups[c].len() >= minimum {
            let keys: Vec<i64> = copy_keys(&groups[c]);
            medians.push(median(keys));
        } else {
            medians.push(None);
        }
        c += 1;
    }
    medians
}

/// The median over a whole layer; `None` of too few measurements.
pub fn overall_median(keys: Vec<i64>) -> (middle: Option<i64>)
    ensures
        middle == if keys@.len() < 96 {
            None::<i64>
        } else {
            Some(median_of(keys@))
        },
{
    if keys.len() < FOCUS_COLOR_MIN_SAMPLES {
        None
    } else {
        median(keys)
    }
}

fn copy_keys(keys: &Vec<i64>) -> (copy: Vec<i64>)
    ensures
        copy@ == keys@,
{
    let mut copy: Vec<i64> = Vec::new();
    let mut i: usize = 0;
    while i < keys.len()
        invariant
            i <= keys@.len(),
            copy@ == keys@.take(i as int),
        decreases keys@.len() - i,
    {
        copy.push(keys[i]);
        i += 1;
        assert(keys@.take(i as int) =~= keys@.take(i - 1).push(keys@[i - 1]));
    }
    assert(keys@.take(keys@.len() as int) =~= keys@);
    copy
}

/// A known cell near another.
#[derive(Debug, Clone, Copy, PartialEq, Eq, Structural)]
pub struct NearCell {
    pub index: usize,
    pub squared_distance: usize,
}

/// The squared distance between two cells of a grid.
pub open spec fn squared_distance(width: int, a: int, b: int) -> int {
    let dx = a % width - b % width;
    let dy = a / width - b / width;
    dx * dx + dy * dy
}

/// A known cell lends its correction to another: it is no further away than the limit.
pub open spec fn lends_to(known: Seq<bool>, width: int, limit: int, from: int, to: int) -> bool {
    &&& 0 <= from < known.len()
    &&& known[from]
    &&& squared_distance(width, from, to) <= limit
}

/// The list holds the cell.
pub open spec fn lists_cell(list: Seq<NearCell>, index: int) -> bool {
    exists|i: int| 0 <= i < list.len() && (#[trigger] list[i]).index == index
}

fn difference(a: usize, b: usize) -> (d: usize)
    ensures
        d == if a > b {
            a - b
        } else {
            b - a
        },
{
    if a > b {
        a - b
    } else {
        b - a
    }
}

/// The known cells that lend their correction to a cell, in the order of the grid, with
/// their squared distances. With a limit of two these are the cell itself and its
/// eight neighbours.
pub fn lending_cells(
    known: &Vec<bool>,
    grid_width: usize,
    grid_height: usize,
    index: usize,
    limit: usize,
) -> (list: Vec<NearCell>)
    requires
        known@.len() == grid_width * grid_height,
        index < known@.len(),
        grid_width <= 0xffff_ffff,
        grid_height <= 0xffff_ffff,
    ensures
        forall|i: int|
            0 <= i < list@.len() ==> lends_to(
                known@,
                grid_width as int,
                limit as int,
                (#[trigger] list@[i]).index as int,
                index as int,
            ) && list@[i].squared_distance == squared_distance(
                grid_width as int,
                list@[i].index as int,
                index as int,
            ),
        forall|i: int, j: int|
            0 <= i < j < list@.len() ==> (#[trigger] list@[i]).index < (#[trigger] list@[j]).index,
        forall|from: int| #[trigger]
            lends_to(known@, grid_width as int, limit as int, from, index as int) ==> lists_cell(
                list@,
                from,
            ),
{
    let ghost w = grid_width as int;
    assert(grid_width > 0) by (nonlinear_arith)
        requires
            0 < grid_width * grid_height,
    ;
    let column: usize = index % grid_width;
    let row: usize = index / grid_width;
    let mut list: Vec<NearCell> = Vec::new();
    let mut i: usize = 0;
    while i < known.len()
        invariant
            i <= known@.len(),
            w == grid_width,
            w > 0,
            column == index as int % w,
            row == index as int / w,
            index < known@.len(),
            known@.len() == w * grid_height,
            grid_width <= 0xffff_ffff,
            grid_height <= 0xffff_ffff,
            forall|j: int|
                0 <= j < list@.len() ==> lends_to(
                    known@,
                    w,
                    limit as int,
                    (#[trigger] list@[j]).index as int,
                    index as int,
                ) && list@[j].squared_distance == squared_distance(
                    w,
                    list@[j].index as int,
                    index as int,
                ) && list@[j].index < i,
            forall|j: int, k: int|
                0 <= j < k < list@.len() ==> (#[trigger] list@[j]).index < (
                #[trigger] list@[k]).index,
            forall|from: int| #[trigger]
                lends_to(known@, w, limit as int, from, index as int) && from < i ==> lists_cell(
                    list@,
                    from,
                ),
        decreases known@.len() - i,
    {
        let ghost before = list@;
        proof {
            lemma_split(w, grid_height as int, i as int);
            lemma_split(w, grid_height as int, index as int);
        }
        if known[i] {
            let dx: usize = difference(i % grid_width, column);
            let dy: usize = difference(i / grid_width, row);
            proof {
                lemma_squares(dx as int, dy as int);
                let (a, b) = (i as int % w - column, i as int / w - row);
                assert(dx * dx == a * a) by (nonlinear_arith)
                    requires
                        dx == a || dx == -a,
                ;
                assert(dy * dy == b * b) by (nonlinear_arith)
                    requires
                        dy == b || dy == -b,
                ;
            }
            let squared: u128 = (dx as u128) * (dx as u128) + (dy as u128) * (dy as u128);
            if squared <= limit as u128 {
                list.push(NearCell { index: i, squared_distance: squared as usize });
            }
        }
        proof {
            assert forall|from: int| #[trigger]
                lends_to(known@, w, limit as int, from, index as int) && from < i
                    + 1 implies lists_cell(list@, from) by {
                if from < i {
                    assert(lists_cell(before, from));
                    let k = choose|k: int|
                        0 <= k < before.len() && (#[trigger] before[k]).index == from;
                    assert(list@[k] == before[k]);
                } else {
                    assert(list@[before.len() as int].index == from);
                }
            }
        }
        i += 1;
    }
    list
}

proof fn lemma_squares(dx: int, dy: int)
    requires
        0 <= dx <= 0xffff_ffff,
        0 <= dy <= 0xffff_ffff,
    ensures
        0 <= dx * dx <= 0xffff_ffff * 0xffff_ffff,
        0 <= dy * dy <= 0xffff_ffff * 0xffff_ffff,
{
    assert(0 <= dx * dx <= 0xffff_ffff * 0xffff_ffff) by (nonlinear_arith)
        requires
            0 <= dx <= 0xffff_ffff,
    ;
    assert(0 <= dy * dy <= 0xffff_ffff * 0xffff_ffff) by (nonlinear_arith)
        requires
            0 <= dy <= 0xffff_ffff,
    ;
}

/// A known cell lends to itself whatever the limit.
pub proof fn law_known_cells_keep_their_own(known: Seq<bool>, width: int, limit: int, index: int)
    requires
        width > 0,
        limit >= 0,
        0 <= index < known.len(),
        known[index],
    ensures
        lends_to(known, width, limit, index, index),
{
}

/// Two known cells lend to each other or not at all.
pub proof fn law_lending_is_mutual(known: Seq<bool>, width: int, limit: int, a: int, b: int)
    requires
        width > 0,
        0 <= a < known.len(),
        0 <= b < known.len(),
        known[a],
        known[b],
    ensures
        lends_to(known, width, limit, a, b) == lends_to(known, width, limit, b, a),
{
    let dx = a % width - b % width;
    let dy = a / width - b / width;
    assert(dx * dx == (-dx) * (-dx)) by (nonlinear_arith);
    assert(dy * dy == (-dy) * (-dy)) by (nonlinear_arith);
}

/// Colours are compared only where both sources are valid; never where one of them alone shows
/// foreground; always, on the lattice, where both are valid and neither does; and where both do,
/// only on a relaxed edge.
pub proof fn law_colours_are_compared_like_with_like<P>(
    base_mask: &Raster<u8>,
    merged_foreground: &Raster<u8>,
    candidate: &RenderedFocusLayer<P>,
    step: int,
    x: int,
    y: int,
)
    requires
        0 < step,
        0 <= x < candidate.image.width,
        0 <= y < candidate.image.height,
    ensures
        ({
            let sampled = is_sampled(base_mask, merged_foreground, candidate, step, x, y);
            let (a, b) = (candidate.left + x, candidate.top + y);
            let own = candidate.foreground_mask.at(x, y) != 0;
            let theirs = merged_foreground.at(a, b) != 0;
            let valid = candidate.mask.at(x, y) != 0 && base_mask.at(a, b) != 0;
            let relaxed = candidate.relaxed_foreground_mask.at(x, y) != 0;
            let on_lattice = x % step == 0 && y % step == 0;
            &&& !valid ==> !sampled
            &&& !on_lattice ==> !sampled
            &&& own != theirs ==> !sampled
            &&& valid && on_lattice && !own && !theirs ==> sampled
            &&& valid && on_lattice && own && theirs ==> sampled == relaxed
            &&& sample_at(merged_foreground, candidate, x, y).relaxed == (own && theirs && relaxed)
        }),
{
}

/// Samples are gathered in squares of 768 by 768: two of them are in one cell of the field exactly
/// if they lie in the same square.
pub proof fn law_sample_cells_are_squares<P>(
    merged_foreground: &Raster<u8>,
    candidate: &RenderedFocusLayer<P>,
    x: int,
    y: int,
    u: int,
    v: int,
)
    requires
        0 <= x < candidate.image.width,
        0 <= y < candidate.image.height,
        0 <= u < candidate.image.width,
        0 <= v < candidate.image.height,
        cells_along(candidate.image.width as int) * cells_along(candidate.image.height as int)
            <= usize::MAX,
    ensures
        sample_at(merged_foreground, candidate, x, y).cell == sample_at(
            merged_foreground,
            candidate,
            u,
            v,
        ).cell <==> x / 768 == u / 768 && y / 768 == v / 768,
        sample_at(merged_foreground, candidate, x, y).x == x,
        sample_at(merged_foreground, candidate, x, y).y == y,
{
    let columns = cells_along(candidate.image.width as int);
    let rows = cells_along(candidate.image.height as int);
    lemma_cell(columns, rows, x / 768, y / 768);
    lemma_cell(columns, rows, u / 768, v / 768);
}

/// Every measurement counts in its own cell and in no other: one more adds its key there and
/// changes nothing elsewhere.
pub proof fn law_measurements_count_in_their_cell(
    cells: Seq<usize>,
    keys: Seq<i64>,
    cell: usize,
    key: i64,
    wanted: int,
)
    requires
        cells.len() == keys.len(),
    ensures
        keys_in_cell(cells.push(cell), keys.push(key), wanted) == if cell == wanted {
            keys_in_cell(cells, keys, wanted).push(key)
        } else {
            keys_in_cell(cells, keys, wanted)
        },
{
    assert(cells.push(cell).drop_last() =~= cells);
    lemma_keys_beyond(cells, keys, key, wanted);
}

proof fn lemma_keys_beyond(cells: Seq<usize>, keys: Seq<i64>, key: i64, wanted: int)
    requires
        cells.len() <= keys.len(),
    ensures
        keys_in_cell(cells, keys.push(key), wanted) == keys_in_cell(cells, keys, wanted),
    decreases cells.len(),
{
    if cells.len() > 0 {
        lemma_keys_beyond(cells.drop_last(), keys, key, wanted);
    }
}

/// A cell borrows from the known cells around it: with a limit of two exactly from those that are
/// at most one column and one row away.
pub proof fn law_cells_borrow_from_their_neighbours(
    known: Seq<bool>,
    width: int,
    height: int,
    x: int,
    y: int,
    u: int,
    v: int,
)
    requires
        known.len() == width * height,
        0 <= x < width,
        0 <= y < height,
        0 <= u < width,
        0 <= v < height,
    ensures
        lends_to(known, width, 2, cell(width, u, v), cell(width, x, y)) <==> known[cell(width, u, v)]
            && -1 <= x - u <= 1 && -1 <= y - v <= 1,
        squared_distance(width, cell(width, u, v), cell(width, x, y)) == (x - u) * (x - u) + (y - v)
            * (y - v),
{
    lemma_cell(width, height, x, y);
    lemma_cell(width, height, u, v);
    assert((u - x) * (u - x) == (x - u) * (x - u) && (v - y) * (v - y) == (y - v) * (y - v))
        by (nonlinear_arith);
    let (dx, dy) = (x - u, y - v);
    assert(dx * dx >= 0 && dy * dy >= 0) by (nonlinear_arith);
    assert(dx * dx <= 2 <==> -1 <= dx <= 1) by (nonlinear_arith);
    assert(dy * dy <= 2 <==> -1 <= dy <= 1) by (nonlinear_arith);
    assert(-1 <= dx <= 1 ==> dx * dx <= 1) by (nonlinear_arith);
    assert(-1 <= dy <= 1 ==> dy * dy <= 1) by (nonlinear_arith);
}

/// The samples and cells of a list are found at any place of it.
pub proof fn law_lists_hold_their_entries(samples: Seq<ColorSample>, cells: Seq<NearCell>, k: int)
    ensures
        0 <= k < samples.len() ==> has_sample(samples, samples[k].x as int, samples[k].y as int),
        0 <= k < cells.len() ==> lists_cell(cells, cells[k].index as int),
        forall|x: int, y: int| #[trigger]
            has_sample(samples, x, y) ==> exists|j: int|
                #![trigger samples[j]]
                0 <= j < samples.len() && samples[j].x == x && samples[j].y == y,
        forall|index: int| #[trigger]
            lists_cell(cells, index) ==> exists|j: int|
                #![trigger cells[j]]
                0 <= j < cells.len() && cells[j].index == index,
{
    if 0 <= k < samples.len() {
        assert(samples[k] == samples[k]);
    }
    if 0 <= k < cells.len() {
        assert(cells[k] == cells[k]);
    }
}

} // verus!
