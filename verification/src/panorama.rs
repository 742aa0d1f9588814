//! The course of a panorama: where a new image overlaps, on which side of the seam it
//! lies, and which of its pixels are placed at once.

use vstd::prelude::*;

use crate::bounds::Bounds;
use crate::bounds::bounding_box;
use crate::bounds::has_cell;
use crate::grid::cell;
use crate::grid::lemma_cell;
use crate::grid::lemma_split;
use crate::raster::Raster;
use crate::raster::in_region;
use crate::raster::tabulate;
use crate::raster::update_region;
use crate::seam_band::is_box_of;
use crate::seam_path::SeamOrientation;

verus! {

/// The pixels of a region that are covered already and reached by the new image.
pub open spec fn overlap_cells(mask: &Raster<u8>, region: Bounds, reached: Seq<bool>) -> Seq<bool> {
    Seq::new(
        reached.len(),
        |i: int|
            reached[i] && mask.at(
                region.left + i % region.width(),
                region.top + i / region.width(),
            ) > 0,
    )
}

/// A box of a region, in coordinates of the canvas.
pub open spec fn moved_box(local: Option<Bounds>, region: Bounds) -> Option<Bounds> {
    match local {
        None => None,
        Some(bounds) => Some(
            Bounds {
                left: (bounds.left + region.left) as u32,
                right: (bounds.right + region.left) as u32,
                top: (bounds.top + region.top) as u32,
                bottom: (bounds.bottom + region.top) as u32,
            },
        ),
    }
}

/// The box around the overlap of a new image with the panorama. `reached` says for every
/// pixel of the region of the new image whether it shows it.
pub fn find_overlap(mask: &Raster<u8>, region: Bounds, reached: &Vec<bool>) -> (overlap: Option<Bounds>)
    requires
        mask.well_formed(),
        region.inside(mask.width as int, mask.height as int),
        reached@.len() == region.width() * region.height(),
    ensures
        exists|local: Option<Bounds>|
            {
                &&& #[trigger] is_box_of(
                    overlap_cells(mask, region, reached@),
                    region.width(),
                    region.height(),
                    local,
                )
                &&& overlap == moved_box(local, region)
            },
        overlap matches Some(bounds) ==> bounds.inside(mask.width as int, mask.height as int),
{
    let width: u32 = region.right - region.left + 1;
    let height: u32 = region.bottom - region.top + 1;
    let size: usize = reached.len();
    let stride: usize = width as usize;
    let ghost (w, h) = (region.width(), region.height());
    let cells: Vec<bool> = tabulate(
        size,
        |i: usize| -> (both: bool)
            requires
                i < size,
                size == w * h,
                w > 0,
                stride == w,
                w == region.width(),
                h == region.height(),
                reached@.len() == size,
                mask.well_formed(),
                region.inside(mask.width as int, mask.height as int),
            ensures
                both == (reached@[i as int] && mask.at(
                    region.left + i as int % w,
                    region.top + i as int / w,
                ) > 0)
            {
                proof {
                    lemma_split(w, h, i as int);
                }
                reached[i] && mask.pixel(
                    region.left + ((i % stride) as u32),
                    region.top + ((i / stride) as u32),
                ) > 0
            },
    );
    assert(cells@ =~= overlap_cells(mask, region, reached@));
    let local: Option<Bounds> = bounding_box(&cells, width, height);
    assert(is_box_of(overlap_cells(mask, region, reached@), w, h, local));
    match local {
        None => None,
        Some(bounds) => Some(
            Bounds {
                left: bounds.left + region.left,
                right: bounds.right + region.left,
                top: bounds.top + region.top,
                bottom: bounds.bottom + region.top,
            },
        ),
    }
}

/// The side of the seam on which a new image lies.
#[derive(Debug, Clone, Copy, PartialEq, Eq, Structural)]
pub enum SeamSide {
    Left,
    Right,
    Top,
    Bottom,
}

/// The side on which a new image lies, given whether its centre lies right of the overlap
/// and below it.
pub fn seam_side(orientation: SeamOrientation, is_right: bool, is_below: bool) -> (side: SeamSide)
    ensures
        side == match orientation {
            SeamOrientation::Vertical => if is_right {
                SeamSide::Right
            } else {
                SeamSide::Left
            },
            SeamOrientation::Horizontal => if is_below {
                SeamSide::Bottom
            } else {
                SeamSide::Top
            },
        },
{
    match orientation {
        SeamOrientation::Vertical => if is_right {
            SeamSide::Right
        } else {
            SeamSide::Left
        },
        SeamOrientation::Horizontal => if is_below {
            SeamSide::Bottom
        } else {
            SeamSide::Top
        },
    }
}

/// What is done with a pixel of the panorama when an image is added.
#[derive(Debug, Clone, Copy, PartialEq, Eq, Structural)]
pub enum Placement {
    /// The new image does not show it.
    Keep,
    /// Both show it: the blend along the seam needs both.
    Defer,
    /// The new image supplies it.
    Write,
}

/// What is done with a pixel: with a seam, pixels that both images show are left to it.
pub open spec fn placement(shown: bool, covered: bool, use_seam: bool) -> Placement {
    if !shown {
        Placement::Keep
    } else if covered && use_seam {
        Placement::Defer
    } else {
        Placement::Write
    }
}

/// Places the pixels of a new image that no seam decides. `samples` holds its pixel for
/// every pixel of the region, `None` where it shows nothing.
pub fn place_panorama_pixels<P: Copy>(
    panorama: &mut Raster<P>,
    mask: &mut Raster<u8>,
    region: Bounds,
    samples: &Vec<Option<P>>,
    use_seam: bool,
)
    requires
        old(panorama).well_formed(),
        old(mask).well_formed(),
        old(mask).same_size(old(panorama)),
        region.inside(old(panorama).width as int, old(panorama).height as int),
        samples@.len() == region.width() * region.height(),
    ensures
        final(panorama).well_formed(),
        final(mask).well_formed(),
        final(panorama).same_size(old(panorama)),
        final(mask).same_size(old(panorama)),
        forall|x: int, y: int|
            0 <= x < old(panorama).width && 0 <= y < old(panorama).height ==> {
                let sample = samples@[cell(region.width(), x - region.left, y - region.top)];
                #[trigger] final(panorama).at(x, y) == if region.contains(x, y) && placement(
                    sample is Some,
                    old(mask).at(x, y) > 0,
                    use_seam,
                ) == Placement::Write {
                    sample->0
                } else {
                    old(panorama).at(x, y)
                }
            },
        forall|x: int, y: int|
            0 <= x < old(panorama).width && 0 <= y < old(panorama).height ==> {
                let sample = samples@[cell(region.width(), x - region.left, y - region.top)];
                #[trigger] final(mask).at(x, y) == if region.contains(x, y) && placement(
                    sample is Some,
                    old(mask).at(x, y) > 0,
                    use_seam,
                ) == Placement::Write {
                    255
                } else {
                    old(mask).at(x, y)
                }
            },
{
    let ghost start = *panorama;
    let ghost start_mask = *mask;
    let width: u32 = region.right - region.left + 1;
    let height: u32 = region.bottom - region.top + 1;
    let size: usize = samples.len();
    let canvas_size: usize = mask.pixels.len();
    let ghost (w, h) = (region.width(), region.height());
    proof {
        assert forall|a: int, b: int|
            in_region(region.left as int, region.top as int, w, h, a, b) implies 0
            <= #[trigger] cell(w, a - region.left, b - region.top) < size by {
            lemma_cell(w, h, a - region.left, b - region.top);
        }
        assert forall|a: int, b: int|
            0 <= a < start.width && 0 <= b < start.height implies 0 <= #[trigger] cell(
            start.width as int,
            a,
            b,
        ) < canvas_size by {
            lemma_cell(start.width as int, start.height as int, a, b);
        }
    }
    let covered: &Raster<u8> = mask;
    update_region(
        panorama,
        region.left,
        region.top,
        width,
        height,
        |local: usize, global: usize, pixel: P| -> (next: P)
            requires
                local < samples@.len(),
                global < covered.pixels@.len(),
            ensures
                next == if placement(
                    samples@[local as int] is Some,
                    covered.pixels@[global as int] > 0,
                    use_seam,
                ) == Placement::Write {
                    samples@[local as int]->0
                } else {
                    pixel
                }
            {
                match samples[local] {
                    None => pixel,
                    Some(sample) => if covered.pixels[global] > 0 && use_seam {
                        pixel
                    } else {
                        sample
                    },
                }
            },
    );
    update_region(
        mask,
        region.left,
        region.top,
        width,
        height,
        |local: usize, global: usize, valid: u8| -> (next: u8)
            requires
                local < samples@.len(),
            ensures
                next == if placement(samples@[local as int] is Some, valid > 0, use_seam)
                    == Placement::Write {
                    255
                } else {
                    valid
                }
            {
                match samples[local] {
                    None => valid,
                    Some(_) => if valid > 0 && use_seam {
                        valid
                    } else {
                        255
                    },
                }
            },
    );
    proof {
        assert forall|x: int, y: int|
            0 <= x < start.width && 0 <= y < start.height implies in_region(
            region.left as int,
            region.top as int,
            w,
            h,
            x,
            y,
        ) == #[trigger] region.contains(x, y) by {}
    }
}

/// With a seam, adding an image changes no pixel that was covered.
pub proof fn law_seam_keeps_both_inputs(shown: bool)
    ensures
        placement(shown, true, true) != Placement::Write,
{
}

/// A pixel that only the new image shows is always placed.
pub proof fn law_new_pixels_are_placed(use_seam: bool)
    ensures
        placement(true, false, use_seam) == Placement::Write,
{
}

/// Where a pixel of a larger image lies between the pixels of a smaller one: the share of
/// the upper neighbour is `numerator / denominator`.
#[derive(Debug, Clone, Copy, PartialEq, Eq, Structural)]
pub struct LinearSample {
    pub lower: usize,
    pub upper: usize,
    pub numerator: u64,
    pub denominator: u64,
}

/// The position of a pixel in units of one over `2 * target_length`, from the middle of the
/// first source pixel on, no further than the last one.
pub open spec fn linear_position(target: int, source_length: int, target_length: int) -> int {
    let position = (2 * target + 1) * source_length - target_length;
    let last = (source_length - 1) * (2 * target_length);
    if position < 0 || source_length == 0 {
        0
    } else if position > last {
        last
    } else {
        position
    }
}

/// The sample for a position.
pub open spec fn is_linear_sample(
    sample: LinearSample,
    target: int,
    source_length: int,
    target_length: int,
) -> bool {
    let position = linear_position(target, source_length, target_length);
    &&& sample.denominator == 2 * target_length
    &&& sample.lower == position / (2 * target_length)
    &&& sample.numerator == position % (2 * target_length)
    &&& sample.upper == if sample.lower + 1 < source_length {
        sample.lower + 1
    } else {
        sample.lower as int
    }
}

/// Where the pixels of an image of one length lie between those of another length.
pub fn linear_samples(source_length: u32, target_length: u32) -> (samples: Vec<LinearSample>)
    ensures
        samples@.len() == if target_length == 0 {
            1
        } else {
            target_length as int
        },
        forall|i: int|
            0 <= i < samples@.len() ==> is_linear_sample(
                #[trigger] samples@[i],
                i,
                source_length as int,
                samples@.len() as int,
            ),
{
    let count: u32 = if target_length == 0 {
        1
    } else {
        target_length
    };
    let mut samples: Vec<LinearSample> = Vec::new();
    let mut i: u32 = 0;
    while i < count
        invariant
            i <= count,
            count > 0,
            samples@.len() == i,
            forall|j: int|
                0 <= j < i ==> is_linear_sample(
                    #[trigger] samples@[j],
                    j,
                    source_length as int,
                    count as int,
                ),
        decreases count - i,
    {
        proof {
            assert(0 <= (2 * i + 1) * source_length <= 0x1_ffff_ffff * 0xffff_ffff)
                by (nonlinear_arith)
                requires
                    0 <= 2 * i + 1 <= 0x1_ffff_ffff,
                    0 <= source_length <= 0xffff_ffff,
            ;
            assert(0 <= source_length * (2 * count) <= 0xffff_ffff * 0x1_ffff_fffe)
                by (nonlinear_arith)
                requires
                    0 <= 2 * count <= 0x1_ffff_fffe,
                    0 <= source_length <= 0xffff_ffff,
            ;
        }
        let unit: u128 = 2 * (count as u128);
        let raised: u128 = (2 * (i as u128) + 1) * (source_length as u128);
        let position: u128 = if source_length == 0 || raised < count as u128 {
            0
        } else {
            let last: u128 = {
                assert((source_length - 1) * (2 * count) == source_length * (2 * count) - 2 * count)
                    by (nonlinear_arith);
                (source_length as u128) * unit - unit
            };
            if raised - (count as u128) > last {
                last
            } else {
                raised - (count as u128)
            }
        };
        assert(position == linear_position(i as int, source_length as int, count as int));
        proof {
            lemma_position(position as int, unit as int, source_length as int);
        }
        let lower: u32 = (position / unit) as u32;
        let numerator: u64 = (position % unit) as u64;
        let upper: u32 = if source_length > 0 && lower < source_length - 1 {
            lower + 1
        } else {
            lower
        };
        samples.push(
            LinearSample {
                lower: lower as usize,
                upper: upper as usize,
                numerator,
                denominator: 2 * (count as u64),
            },
        );
        i += 1;
    }
    samples
}

proof fn lemma_position(position: int, unit: int, length: int)
    requires
        unit > 0,
        length >= 0,
        position == 0 || 0 <= position <= (length - 1) * unit,
    ensures
        0 <= position / unit,
        position / unit == 0 || position / unit <= length - 1,
        0 <= position % unit < unit,
{
    assert(0 <= position / unit) by (nonlinear_arith)
        requires
            position >= 0,
            unit > 0,
    ;
    assert(0 <= position % unit < unit) by (nonlinear_arith)
        requires
            unit > 0,
    ;
    if position > 0 {
        assert(position / unit <= length - 1) by (nonlinear_arith)
            requires
                position <= (length - 1) * unit,
                unit > 0,
        ;
    } else {
        assert(0int / unit == 0) by (nonlinear_arith)
            requires
                unit > 0,
        ;
    }
}

/// An image keeps its pixels where the length stays.
pub proof fn law_same_length_keeps_pixels(sample: LinearSample, target: int, length: int)
    requires
        0 <= target < length,
        is_linear_sample(sample, target, length, length),
    ensures
        sample.lower == target,
        sample.numerator == 0,
{
    assert((2 * target + 1) * length - length == target * (2 * length)) by (nonlinear_arith);
    assert(0 <= target * (2 * length)) by (nonlinear_arith)
        requires
            0 <= target,
            0 <= length,
    ;
    assert(target * (2 * length) <= (length - 1) * (2 * length)) by (nonlinear_arith)
        requires
            target <= length - 1,
            0 <= length,
    ;
    vstd::arithmetic::div_mod::lemma_fundamental_div_mod_converse(
        target * (2 * length),
        2 * length,
        target,
        0,
    );
}

/// The box of the overlap holds every pixel that is covered already and shown by the new image,
/// and each of its four sides touches such a pixel; there is no box exactly if there is none.
pub proof fn law_overlap_boxes_hold_what_both_show(
    mask: &Raster<u8>,
    region: Bounds,
    reached: Seq<bool>,
    local: Option<Bounds>,
    x: int,
    y: int,
)
    requires
        region.left <= region.right,
        region.top <= region.bottom,
        reached.len() == region.width() * region.height(),
        is_box_of(
            overlap_cells(mask, region, reached),
            region.width(),
            region.height(),
            local,
        ),
    ensures
        region.left <= x <= region.right && region.top <= y <= region.bottom && mask.at(x, y) > 0
            && reached[(y - region.top) * (region.right - region.left + 1) + (x - region.left)] ==> (
        moved_box(local, region) matches Some(found) && found.left <= x <= found.right && found.top
            <= y <= found.bottom),
        moved_box(local, region) matches Some(found) ==> {
            &&& exists|v: int|
                region.top <= v <= region.bottom && (#[trigger] mask.at(found.left as int, v)) > 0
                    && reached[(v - region.top) * (region.right - region.left + 1) + (found.left
                    - region.left)]
            &&& exists|v: int|
                region.top <= v <= region.bottom && (#[trigger] mask.at(found.right as int, v)) > 0
                    && reached[(v - region.top) * (region.right - region.left + 1) + (found.right
                    - region.left)]
            &&& exists|u: int|
                region.left <= u <= region.right && (#[trigger] mask.at(u, found.top as int)) > 0
                    && reached[(found.top - region.top) * (region.right - region.left + 1) + (u
                    - region.left)]
            &&& exists|u: int|
                region.left <= u <= region.right && (#[trigger] mask.at(u, found.bottom as int)) > 0
                    && reached[(found.bottom - region.top) * (region.right - region.left + 1) + (u
                    - region.left)]
        },
{
    let cells = overlap_cells(mask, region, reached);
    let (w, h) = (region.width(), region.height());
    if region.left <= x <= region.right && region.top <= y <= region.bottom && mask.at(x, y) > 0
        && reached[(y - region.top) * w + (x - region.left)] {
        lemma_cell(w, h, x - region.left, y - region.top);
        assert(has_cell(cells, w, h, x - region.left, y - region.top));
    }
    if let Some(bounds) = local {
        let found = moved_box(local, region)->0;
        let a = choose|v: int| #[trigger] has_cell(cells, w, h, bounds.left as int, v);
        lemma_cell(w, h, bounds.left as int, a);
        assert(mask.at(found.left as int, a + region.top) > 0);
        let b = choose|v: int| #[trigger] has_cell(cells, w, h, bounds.right as int, v);
        lemma_cell(w, h, bounds.right as int, b);
        assert(mask.at(found.right as int, b + region.top) > 0);
        let c = choose|u: int| #[trigger] has_cell(cells, w, h, u, bounds.top as int);
        lemma_cell(w, h, c, bounds.top as int);
        assert(mask.at(c + region.left, found.top as int) > 0);
        let d = choose|u: int| #[trigger] has_cell(cells, w, h, u, bounds.bottom as int);
        lemma_cell(w, h, d, bounds.bottom as int);
        assert(mask.at(d + region.left, found.bottom as int) > 0);
    }
}

/// A pixel that the new image does not show is kept, and without a seam every pixel that it does
/// show is written.
pub proof fn law_placement_depends_on_what_is_shown(covered: bool, use_seam: bool)
    ensures
        placement(false, covered, use_seam) == Placement::Keep,
        placement(true, covered, false) == Placement::Write,
        placement(true, true, true) == Placement::Defer,
{
}

/// The middle of every pixel lies at the same share of both lengths: twice the place of the
/// sample on the source, from the outer edge of its first pixel, is to its length as twice the
/// place of the pixel is to the target length, no nearer to the ends than the middle of the
/// outermost source pixels.
pub proof fn law_samples_lie_at_the_same_share(
    sample: LinearSample,
    target: int,
    source_length: int,
    target_length: int,
)
    requires
        0 < source_length,
        0 <= target < target_length,
        is_linear_sample(sample, target, source_length, target_length),
    ensures
        ({
            let place = sample.lower * (2 * target_length) + sample.numerator;
            let middle = (2 * target + 1) * source_length - target_length;
            let last = (source_length - 1) * (2 * target_length);
            &&& sample.denominator == 2 * target_length
            &&& 0 <= sample.numerator < 2 * target_length
            &&& 0 <= middle <= last ==> place == middle
            &&& middle < 0 ==> place == 0
            &&& middle > last ==> place == last
            &&& sample.lower < source_length
            &&& sample.upper == sample.lower + 1 || sample.upper == sample.lower && sample.lower + 1
                == source_length
        }),
{
    let unit = 2 * target_length;
    let position = linear_position(target, source_length, target_length);
    let last = (source_length - 1) * unit;
    assert(0 <= last) by (nonlinear_arith)
        requires
            last == (source_length - 1) * unit,
            1 <= source_length,
            0 < unit,
    ;
    vstd::arithmetic::div_mod::lemma_fundamental_div_mod(position, unit);
    let q = position / unit;
    assert(unit * q == q * unit) by (nonlinear_arith);
    assert(q < source_length) by (nonlinear_arith)
        requires
            q * unit <= position,
            position <= (source_length - 1) * unit,
            0 < unit,
    ;
}

} // verus!
