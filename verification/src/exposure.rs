//! Where the exposure of a frame is compared with the panorama.

use vstd::prelude::*;

use crate::background::lattice_pixels;
use crate::background::on_lattice;
use crate::bounds::Bounds;
use crate::grid::cell;
use crate::grid::lemma_cell;
use crate::grid::lemma_split;
use crate::order::median;
use crate::order::median_of;
use crate::raster::Raster;

verus! {

/// The side of a cell of the exposure grid in pixels.
pub const EXPOSURE_CELL_SIZE: u32 = 256;

/// The number of samples along the longer side of the panorama.
pub const EXPOSURE_SAMPLES: u32 = 720;

/// The least distance between samples.
pub const LEAST_EXPOSURE_STEP: u32 = 8;

/// The least number of ratios from which an overall gain follows.
pub const LEAST_EXPOSURE_RATIOS: usize = 32;

/// The number of cells along a side of the exposure grid: one for every started cell,
/// and one for the end.
pub open spec fn exposure_cells(length: int) -> int {
    (length + EXPOSURE_CELL_SIZE - 1) / (EXPOSURE_CELL_SIZE as int) + 1
}

/// The number of cells along a side of the exposure grid.
pub fn count_exposure_cells(length: u32) -> (count: u32)
    ensures
        count == exposure_cells(length as int),
{
    ((length as u64 + EXPOSURE_CELL_SIZE as u64 - 1) / EXPOSURE_CELL_SIZE as u64 + 1) as u32
}

/// The distance between the samples of a panorama.
pub fn exposure_step(width: u32, height: u32) -> (step: u32)
    ensures
        step >= 8,
        step * 720 >= width,
        step * 720 >= height,
        step > 8 ==> (step - 1) * 720 < width || (step - 1) * 720 < height,
        ({
            let longest = if width < height {
                height as int
            } else {
                width as int
            };
            let wanted = (longest + EXPOSURE_SAMPLES - 1) / (EXPOSURE_SAMPLES as int);
            step == if wanted < LEAST_EXPOSURE_STEP {
                LEAST_EXPOSURE_STEP as int
            } else {
                wanted
            }
        }),
{
    let longest: u64 = if width < height {
        height as u64
    } else {
        width as u64
    };
    let wanted: u64 = (longest + EXPOSURE_SAMPLES as u64 - 1) / EXPOSURE_SAMPLES as u64;
    if wanted < LEAST_EXPOSURE_STEP as u64 {
        LEAST_EXPOSURE_STEP
    } else {
        wanted as u32
    }
}

/// A pixel at which exposures are compared, with its cell of the grid.
#[derive(Clone, Copy, Debug, PartialEq, Eq, Structural)]
pub struct ExposureSample {
    pub x: u32,
    pub y: u32,
    pub cell: usize,
}

/// The pixel is covered, lies in the region of the frame and on the lattice.
pub open spec fn is_exposure_sample(
    mask: &Raster<u8>,
    region: Bounds,
    step: int,
    x: int,
    y: int,
) -> bool {
    &&& 0 <= x < mask.width
    &&& 0 <= y < mask.height
    &&& region.contains(x, y)
    &&& x % step == 0
    &&& y % step == 0
    &&& mask.at(x, y) > 0
}

/// The cell of the exposure grid that holds a pixel.
pub open spec fn exposure_cell(width: int, x: int, y: int) -> int {
    cell(
        exposure_cells(width),
        x / (EXPOSURE_CELL_SIZE as int),
        y / (EXPOSURE_CELL_SIZE as int),
    )
}

pub open spec fn has_exposure_sample(list: Seq<ExposureSample>, x: int, y: int) -> bool {
    exists|k: int| 0 <= k < list.len() && (#[trigger] list[k]).x == x && list[k].y == y
}

/// The pixels at which a frame is compared with the panorama, row by row.
pub fn exposure_samples(mask: &Raster<u8>, region: Bounds, step: u32) -> (list: Vec<ExposureSample>)
    requires
        mask.well_formed(),
        step >= 1,
        exposure_cells(mask.width as int) * exposure_cells(mask.height as int) <= usize::MAX,
    ensures
        forall|k: int|
            0 <= k < list@.len() ==> is_exposure_sample(
                mask,
                region,
                step as int,
                (#[trigger] list@[k]).x as int,
                list@[k].y as int,
            ) && list@[k].cell == exposure_cell(
                mask.width as int,
                list@[k].x as int,
                list@[k].y as int,
            ),
        forall|j: int, k: int|
            0 <= j < k < list@.len() ==> (#[trigger] list@[j]).y < (#[trigger] list@[k]).y
                || list@[j].y == list@[k].y && list@[j].x < list@[k].x,
        forall|x: int, y: int| #[trigger]
            is_exposure_sample(mask, region, step as int, x, y) ==> has_exposure_sample(
                list@,
                x,
                y,
            ),
{
    let ghost (w, h, s) = (mask.width as int, mask.height as int, step as int);
    let width: usize = mask.width as usize;
    let size: usize = mask.pixels.len();
    let stride: u32 = count_exposure_cells(mask.width);
    let ghost rows = exposure_cells(h);
    let lattice: Vec<usize> = lattice_pixels(mask, step as usize);
    let mut list: Vec<ExposureSample> = Vec::new();
    let mut i: usize = 0;
    while i < lattice.len()
        invariant
            i <= lattice@.len(),
            mask.well_formed(),
            w == mask.width,
            h == mask.height,
            s == step,
            s >= 1,
            width == w,
            size == mask.pixels@.len(),
            stride == exposure_cells(w),
            rows == exposure_cells(h),
            stride * rows <= usize::MAX,
            forall|k: int|
                0 <= k < lattice@.len() ==> on_lattice(
                    mask.pixels@,
                    w,
                    s,
                    #[trigger] lattice@[k] as int,
                ),
            forall|j: int, k: int|
                0 <= j < k < lattice@.len() ==> #[trigger] lattice@[j] < #[trigger] lattice@[k],
            forall|k: int|
                0 <= k < list@.len() ==> is_exposure_sample(
                    mask,
                    region,
                    s,
                    (#[trigger] list@[k]).x as int,
                    list@[k].y as int,
                ) && list@[k].cell == exposure_cell(w, list@[k].x as int, list@[k].y as int),
            forall|k: int|
                0 <= k < list@.len() && i < lattice@.len() ==> cell(
                    w,
                    (#[trigger] list@[k]).x as int,
                    list@[k].y as int,
                ) < lattice@[i as int],
            forall|j: int, k: int|
                0 <= j < k < list@.len() ==> (#[trigger] list@[j]).y < (#[trigger] list@[k]).y
                    || list@[j].y == list@[k].y && list@[j].x < list@[k].x,
            forall|k: int|
                #![trigger lattice@[k]]
                0 <= k < i && region.contains(
                    lattice@[k] as int % w,
                    lattice@[k] as int / w,
                ) ==> has_exposure_sample(
                    list@,
                    lattice@[k] as int % w,
                    lattice@[k] as int / w,
                ),
        decreases lattice@.len() - i,
    {
        let position: usize = lattice[i];
        assert(on_lattice(mask.pixels@, w, s, position as int));
        assert(width > 0) by (nonlinear_arith)
            requires
                0 < w * h,
                width == w,
                w >= 0,
        ;
        proof {
            lemma_split(w, h, position as int);
        }
        let x: u32 = (position % width) as u32;
        let y: u32 = (position / width) as u32;
        let ghost before = list@;
        if region.left <= x && x <= region.right && region.top <= y && y <= region.bottom {
            proof {
                lemma_cell(
                    stride as int,
                    rows,
                    x as int / EXPOSURE_CELL_SIZE as int,
                    y as int / EXPOSURE_CELL_SIZE as int,
                );
            }
            let index: usize = (y / EXPOSURE_CELL_SIZE) as usize * stride as usize + (x
                / EXPOSURE_CELL_SIZE) as usize;
            list.push(ExposureSample { x, y, cell: index });
            proof {
                assert(list@[list@.len() - 1].x == x);
                assert forall|j: int, k: int| 0 <= j < k < list@.len() implies (
                #[trigger] list@[j]).y < (#[trigger] list@[k]).y || list@[j].y == list@[k].y
                    && list@[j].x < list@[k].x by {
                    assert(list@[j] == before[j]);
                    if k < before.len() {
                        assert(list@[k] == before[k]);
                    } else {
                        lemma_order(w, before[j].x as int, before[j].y as int, x as int, y as int);
                    }
                }
            }
        }
        proof {
            assert forall|k: int|
                #![trigger lattice@[k]]
                0 <= k < i + 1 && region.contains(
                    lattice@[k] as int % w,
                    lattice@[k] as int / w,
                ) implies has_exposure_sample(
                list@,
                lattice@[k] as int % w,
                lattice@[k] as int / w,
            ) by {
                if k < i {
                    let n = choose|n: int|
                        0 <= n < before.len() && (#[trigger] before[n]).x == lattice@[k] as int % w
                            && before[n].y == lattice@[k] as int / w;
                    assert(list@[n] == before[n]);
                } else {
                    assert(list@[list@.len() - 1].x == x && list@[list@.len() - 1].y == y);
                }
            }
        }
        i += 1;
    }
    assert forall|x: int, y: int| #[trigger]
        is_exposure_sample(mask, region, step as int, x, y) implies has_exposure_sample(
        list@,
        x,
        y,
    ) by {
        lemma_cell(w, h, x, y);
        let position = cell(w, x, y);
        assert(on_lattice(mask.pixels@, w, s, position));
        assert(lattice@.contains(position as usize));
        let k = choose|k: int| 0 <= k < lattice@.len() && lattice@[k] == position as usize;
        assert(lattice@[k] as int % w == x);
    }
    list
}

/// A pixel that comes earlier in the storage lies in an earlier row or further left.
proof fn lemma_order(width: int, a: int, b: int, x: int, y: int)
    requires
        0 <= a < width,
        0 <= x < width,
        cell(width, a, b) < cell(width, x, y),
    ensures
        b < y || b == y && a < x,
{
    if b > y {
        assert((y + 1) * width <= b * width) by (nonlinear_arith)
            requires
                y + 1 <= b,
                0 < width,
        ;
        assert((y + 1) * width == y * width + width) by (nonlinear_arith);
    }
}

/// The middle ratio of the exposures; `None` where too few pixels can be compared. The
/// keys order the ratios.
pub fn representative_ratio(keys: Vec<i64>) -> (ratio: Option<i64>)
    ensures
        ratio == if keys@.len() < 32 {
            None::<i64>
        } else {
            Some(median_of(keys@))
        },
{
    if keys.len() < LEAST_EXPOSURE_RATIOS {
        None
    } else {
        median(keys)
    }
}

/// Pixels are gathered in squares of 256 by 256: two of them are in one cell of the grid exactly
/// if they lie in the same square, and every cell is one of the grid.
pub proof fn law_cells_are_squares(width: int, height: int, x: int, y: int, u: int, v: int)
    requires
        0 <= x < width,
        0 <= y < height,
        0 <= u < width,
        0 <= v < height,
    ensures
        exposure_cell(width, x, y) == exposure_cell(width, u, v) <==> x / 256 == u / 256 && y / 256
            == v / 256,
        0 <= exposure_cell(width, x, y) < exposure_cells(width) * exposure_cells(height),
{
    let (columns, rows) = (exposure_cells(width), exposure_cells(height));
    lemma_cell(columns, rows, x / 256, y / 256);
    lemma_cell(columns, rows, u / 256, v / 256);
}

/// A frame is compared with the panorama at covered pixels in its region whose column and row are
/// whole multiples of the step, and at all of them.
pub proof fn law_frames_are_compared_on_covered_pixels(
    mask: &Raster<u8>,
    region: Bounds,
    step: int,
    x: int,
    y: int,
)
    requires
        0 < step,
    ensures
        is_exposure_sample(mask, region, step, x, y) ==> mask.at(x, y) != 0 && region.left <= x
            <= region.right && region.top <= y <= region.bottom && x < mask.width && y < mask.height,
        region.left <= step * x <= region.right && region.top <= step * y <= region.bottom && 0
            <= step * x < mask.width && 0 <= step * y < mask.height && mask.at(step * x, step * y)
            != 0 ==> is_exposure_sample(mask, region, step, step * x, step * y),
        is_exposure_sample(mask, region, step, x, y) && is_exposure_sample(
            mask,
            region,
            step,
            x + 1,
            y,
        ) ==> step == 1,
{
    vstd::arithmetic::div_mod::lemma_mod_multiples_basic(x, step);
    vstd::arithmetic::div_mod::lemma_mod_multiples_basic(y, step);
    assert(step * x == x * step && step * y == y * step) by (nonlinear_arith);
    if x % step == 0 && (x + 1) % step == 0 && step > 1 {
        vstd::arithmetic::div_mod::lemma_add_mod_noop(x, 1, step);
        vstd::arithmetic::div_mod::lemma_small_mod(1, step as nat);
    }
}

/// The grid has a node on both ends of every cell: the last but one starts before the end of the
/// length and the last reaches it.
pub proof fn law_grids_reach_the_end(length: int)
    requires
        0 < length,
    ensures
        (exposure_cells(length) - 2) * 256 < length <= (exposure_cells(length) - 1) * 256,
{
}

/// A pixel has a sample if one of the list, at any place, stands for it.
pub proof fn law_listed_samples_are_had(list: Seq<ExposureSample>, k: int)
    requires
        0 <= k < list.len(),
    ensures
        has_exposure_sample(list, list[k].x as int, list[k].y as int),
        forall|x: int, y: int| #[trigger]
            has_exposure_sample(list, x, y) ==> exists|j: int|
                #![trigger list[j]]
                0 <= j < list.len() && list[j].x == x && list[j].y == y,
{
    assert(list[k] == list[k]);
}

} // verus!
