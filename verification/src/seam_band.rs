//! The band along a seam: which part of the canvas is blended, what goes into the
//! blend, and how its result is put back.

use vstd::prelude::*;

use crate::bounds::bounding_box;
use crate::bounds::has_cell;
use crate::bounds::is_tight;
use crate::bounds::Bounds;
use crate::focus_layer::hard_select_focus_layer_outside_patch;
use crate::focus_layer::takes_candidate;
use crate::focus_layer::RenderedFocusLayer;
use crate::grid::cell;
use crate::grid::lemma_cell;
use crate::grid::lemma_split;
use crate::ownership::focus_foreground_edge_mask;
use crate::ownership::focus_foreground_overlap_mask_for_region;
use crate::ownership::is_guarded;
use crate::raster::in_region;
use crate::raster::region_fits;
use crate::raster::tabulate;
use crate::raster::update_region;
use crate::raster::Raster;
use crate::seam_path::SeamOrientation;

verus! {

/// Bands of a blend at most, the coarsest one counted.
pub const PANORAMA_BLEND_BANDS: usize = 9;

/// The first band that may follow the tone ramp across the whole overlap. Finer
/// bands hold visible detail and stay with one source.
pub const PANORAMA_GLOBAL_TONE_FIRST_BAND: usize = 5;

/// Half the width of the detail feather, in pixels.
pub const PANORAMA_DETAIL_SEAM_FEATHER_RADIUS: i64 = 4;

/// The smallest side of a patch that is blended.
pub const MIN_BLEND_SIDE: u32 = 8;

/// How far a focus seam patch reaches beyond the seam without an overlap.
pub const FOCUS_SEAM_BLEND_RADIUS: u32 = 512;

/// The weight of the candidate in the detail bands, from 0 to 255, at a signed
/// distance from the seam: a ramp over twice the feather radius.
pub open spec fn detail_weight(distance: int) -> int {
    if distance <= -4 {
        0
    } else if distance >= 4 {
        255
    } else {
        (510 * (4 + distance) + 8) / 16
    }
}

/// The detail weight at a signed distance from the seam.
pub fn panorama_detail_weight(distance: i64) -> (weight: u8)
    ensures
        weight == detail_weight(distance as int),
{
    if distance <= -PANORAMA_DETAIL_SEAM_FEATHER_RADIUS {
        0
    } else if distance >= PANORAMA_DETAIL_SEAM_FEATHER_RADIUS {
        255
    } else {
        ((510 * (4 + distance) + 8) / 16) as u8
    }
}

/// The feather treats the two sides of a seam alike, up to the rounding at its
/// middle.
pub proof fn law_detail_feather_is_symmetric(distance: int)
    ensures
        255 <= detail_weight(distance) + detail_weight(-distance) <= 256,
        distance >= 4 ==> detail_weight(distance) == 255 && detail_weight(-distance) == 0,
        forall|farther: int|
            distance <= farther ==> detail_weight(distance) <= #[trigger] detail_weight(farther),
{
}

/// The share of a position in a span as a weight from 0 to 255, rounded.
pub open spec fn ramp_weight(position: int, span: int) -> int {
    (510 * position + span) / (2 * span)
}

/// The weight of the candidate in the tone bands at a position of the overlap, counted
/// across the seam: a ramp over the whole overlap towards its own side.
pub open spec fn tone_weight(position: int, length: int, dominant: bool) -> int {
    let span = if length > 1 {
        length - 1
    } else {
        1
    };
    ramp_weight(
        if dominant {
            position
        } else {
            span - position
        },
        span,
    )
}

proof fn lemma_ramp_weight(position: int, span: int)
    requires
        0 <= position <= span,
        1 <= span,
    ensures
        0 <= ramp_weight(position, span) <= 255,
        position == 0 ==> ramp_weight(position, span) == 0,
        position == span ==> ramp_weight(position, span) == 255,
{
    let value = 510 * position + span;
    let q = value / (2 * span);
    vstd::arithmetic::div_mod::lemma_fundamental_div_mod(value, 2 * span);
    assert(0 <= q <= 255) by (nonlinear_arith)
        requires
            (2 * span) * q <= 510 * position + span < (2 * span) * q + 2 * span,
            0 <= position <= span,
            1 <= span,
    ;
    if position == 0 {
        assert(q == 0) by (nonlinear_arith)
            requires
                (2 * span) * q <= span,
                0 <= q,
                1 <= span,
        ;
    }
    if position == span {
        assert(q == 255) by (nonlinear_arith)
            requires
                511 * span < (2 * span) * q + 2 * span,
                q <= 255,
                1 <= span,
        ;
    }
}

/// The tone ramp goes from nothing at one end of the overlap to everything at the other,
/// and never back.
pub proof fn law_tone_ramp_spans_the_overlap(position: int, farther: int, length: int)
    requires
        0 <= position <= farther < length,
        2 <= length,
    ensures
        tone_weight(0, length, true) == 0,
        tone_weight(length - 1, length, true) == 255,
        tone_weight(0, length, false) == 255,
        tone_weight(length - 1, length, false) == 0,
        0 <= tone_weight(position, length, true) <= tone_weight(farther, length, true) <= 255,
        0 <= tone_weight(farther, length, false) <= tone_weight(position, length, false) <= 255,
{
    let span = length - 1;
    lemma_ramp_weight(0, span);
    lemma_ramp_weight(span, span);
    lemma_ramp_weight(position, span);
    lemma_ramp_weight(farther, span);
    lemma_ramp_weight(span - position, span);
    lemma_ramp_weight(span - farther, span);
    vstd::arithmetic::div_mod::lemma_div_is_ordered(
        510 * position + span,
        510 * farther + span,
        2 * span,
    );
    vstd::arithmetic::div_mod::lemma_div_is_ordered(
        510 * (span - farther) + span,
        510 * (span - position) + span,
        2 * span,
    );
}

/// The tone weight at a position of the overlap.
fn panorama_tone_weight(position: u32, length: u32, dominant: bool) -> (weight: u8)
    requires
        position < length,
    ensures
        weight == tone_weight(position as int, length as int, dominant),
{
    let span: u64 = if length > 1 {
        length as u64 - 1
    } else {
        1
    };
    let share: u64 = if dominant {
        position as u64
    } else {
        span - position as u64
    };
    proof {
        lemma_ramp_weight(share as int, span as int);
    }
    ((510 * share + span) / (2 * span)) as u8
}

pub open spec fn least(a: int, b: int) -> int {
    if a < b {
        a
    } else {
        b
    }
}

/// The overlap, cut to the canvas.
pub open spec fn overlap_on_canvas(
    out_width: int,
    out_height: int,
    min_x: int,
    max_x: int,
    min_y: int,
    max_y: int,
) -> (int, int, int, int) {
    (
        least(min_x, out_width - 1),
        least(max_x, out_width - 1),
        least(min_y, out_height - 1),
        least(max_y, out_height - 1),
    )
}

/// The seam has a position for every line of the overlap.
pub open spec fn seam_reaches(orientation: SeamOrientation, seam_length: int, right: int, bottom: int)
    -> bool {
    match orientation {
        SeamOrientation::Horizontal => seam_length > right,
        SeamOrientation::Vertical => seam_length > bottom,
    }
}

/// The part of the canvas that is blended along a panorama seam: the whole overlap,
/// if it is large enough and the seam runs through all of it.
pub fn panorama_seam_patch(
    out_width: u32,
    out_height: u32,
    orientation: SeamOrientation,
    seam_length: usize,
    min_x: u32,
    max_x: u32,
    min_y: u32,
    max_y: u32,
) -> (patch: Option<Bounds>)
    ensures
        ({
            let (left, right, top, bottom) = overlap_on_canvas(
                out_width as int,
                out_height as int,
                min_x as int,
                max_x as int,
                min_y as int,
                max_y as int,
            );
            let blended = out_width > 0 && out_height > 0 && seam_length > 0 && seam_reaches(
                orientation,
                seam_length as int,
                right,
                bottom,
            ) && right - left + 1 >= 8 && bottom - top + 1 >= 8;
            match patch {
                None => !blended,
                Some(found) => blended && found.left == left && found.right == right && found.top
                    == top && found.bottom == bottom && found.inside(
                    out_width as int,
                    out_height as int,
                ),
            }
        }),
{
    if out_width == 0 || out_height == 0 || seam_length == 0 {
        return None;
    }
    let left: u32 = if min_x < out_width - 1 {
        min_x
    } else {
        out_width - 1
    };
    let right: u32 = if max_x < out_width - 1 {
        max_x
    } else {
        out_width - 1
    };
    let top: u32 = if min_y < out_height - 1 {
        min_y
    } else {
        out_height - 1
    };
    let bottom: u32 = if max_y < out_height - 1 {
        max_y
    } else {
        out_height - 1
    };
    if left > right || top > bottom {
        return None;
    }
    let reaches: bool = match orientation {
        SeamOrientation::Horizontal => seam_length > right as usize,
        SeamOrientation::Vertical => seam_length > bottom as usize,
    };
    if !reaches || right - left < MIN_BLEND_SIDE - 1 || bottom - top < MIN_BLEND_SIDE - 1 {
        return None;
    }
    Some(Bounds { left, right, top, bottom })
}

/// What goes into the blend along a panorama seam.
pub struct PanoramaPatch<P> {
    pub base: Vec<P>,
    pub candidate: Vec<P>,
    /// The weights of the candidate in the detail bands.
    pub detail: Vec<u8>,
    /// The weights of the candidate in the tone bands.
    pub tone: Vec<u8>,
}

/// The side of the seam on which a pixel lies: how far on the side of the
/// candidate.
pub open spec fn seam_side(
    orientation: SeamOrientation,
    seam: Seq<i32>,
    dominant: bool,
    x: int,
    y: int,
) -> int {
    let distance = match orientation {
        SeamOrientation::Horizontal => y - not_negative(seam[x]),
        SeamOrientation::Vertical => x - not_negative(seam[y]),
    };
    if dominant {
        distance
    } else {
        -distance
    }
}

pub open spec fn not_negative(value: i32) -> int {
    if value < 0 {
        0
    } else {
        value as int
    }
}

/// The detail weight of a pixel: all for the source that alone covers it, else by
/// the distance from the seam.
pub open spec fn detail_at(candidate_valid: bool, canvas_valid: bool, side: int) -> int {
    if !candidate_valid {
        0
    } else if !canvas_valid {
        255
    } else {
        detail_weight(side)
    }
}

/// The tone weight of a pixel: all for the source that alone covers it, else by its
/// place in the overlap.
pub open spec fn tone_at(
    candidate_valid: bool,
    canvas_valid: bool,
    orientation: SeamOrientation,
    dominant: bool,
    patch: Bounds,
    x: int,
    y: int,
) -> int {
    if !candidate_valid {
        0
    } else if !canvas_valid {
        255
    } else {
        match orientation {
            SeamOrientation::Horizontal => tone_weight(y - patch.top, patch.height(), dominant),
            SeamOrientation::Vertical => tone_weight(x - patch.left, patch.width(), dominant),
        }
    }
}

/// The pixel that stands for the candidate: its own, else the canvas.
pub open spec fn candidate_pixel<P>(sample: Option<P>, canvas_valid: bool, current: P, blank: P) -> P {
    match sample {
        Some(pixel) => pixel,
        None => if canvas_valid {
            current
        } else {
            blank
        },
    }
}

/// The pixel that stands for the canvas: its own, else the candidate.
pub open spec fn base_pixel<P>(sample: Option<P>, canvas_valid: bool, current: P) -> P {
    match sample {
        Some(pixel) => if canvas_valid {
            current
        } else {
            pixel
        },
        None => current,
    }
}

/// Collects what goes into the blend along a panorama seam. `samples` holds the
/// pixels of the candidate over the patch, row by row, where it has one.
pub fn panorama_patch<P: Copy>(
    panorama: &Raster<P>,
    panorama_mask: &Raster<u8>,
    samples: &Vec<Option<P>>,
    patch: Bounds,
    orientation: SeamOrientation,
    seam: &Vec<i32>,
    dominant: bool,
    blank: P,
) -> (parts: PanoramaPatch<P>)
    requires
        panorama.well_formed(),
        panorama_mask.well_formed(),
        panorama_mask.same_size(panorama),
        patch.inside(panorama.width as int, panorama.height as int),
        samples@.len() == patch.width() * patch.height(),
        seam_reaches(
            orientation,
            seam@.len() as int,
            patch.right as int,
            patch.bottom as int,
        ),
    ensures
        parts.base@.len() == samples@.len(),
        parts.candidate@.len() == samples@.len(),
        parts.detail@.len() == samples@.len(),
        parts.tone@.len() == samples@.len(),
        forall|x: int, y: int|
            #![trigger cell(patch.width(), x - patch.left, y - patch.top)]
            patch.contains(x, y) ==> {
                let i = cell(patch.width(), x - patch.left, y - patch.top);
                let canvas_valid = panorama_mask.at(x, y) > 0;
                &&& parts.base@[i] == base_pixel(samples@[i], canvas_valid, panorama.at(x, y))
                &&& parts.candidate@[i] == candidate_pixel(
                    samples@[i],
                    canvas_valid,
                    panorama.at(x, y),
                    blank,
                )
                &&& parts.detail@[i] == detail_at(
                    samples@[i] is Some,
                    canvas_valid,
                    seam_side(orientation, seam@, dominant, x, y),
                )
                &&& parts.tone@[i] == tone_at(
                    samples@[i] is Some,
                    canvas_valid,
                    orientation,
                    dominant,
                    patch,
                    x,
                    y,
                )
            },
{
    let size: usize = samples.len();
    let width: usize = (patch.right - patch.left) as usize + 1;
    let ghost w = patch.width();
    let ghost h = patch.height();
    let base: Vec<P> = tabulate(
        size,
        |i: usize| -> (pixel: P)
            requires
                i < size,
                size == w * h,
                width == w,
                samples@.len() == size,
                patch.inside(panorama.width as int, panorama.height as int),
                w == patch.width(),
                h == patch.height(),
                panorama.well_formed(),
                panorama_mask.well_formed(),
                panorama_mask.same_size(panorama),
            ensures
                pixel == base_pixel(
                    samples@[i as int],
                    panorama_mask.at(patch.left + i as int % w, patch.top + i as int / w) > 0,
                    panorama.at(patch.left + i as int % w, patch.top + i as int / w),
                )
            {
                proof {
                    lemma_split(w, h, i as int);
                }
                let x: u32 = patch.left + ((i % width) as u32);
                let y: u32 = patch.top + ((i / width) as u32);
                match samples[i] {
                    Some(pixel) => if panorama_mask.pixel(x, y) > 0 {
                        panorama.pixel(x, y)
                    } else {
                        pixel
                    },
                    None => panorama.pixel(x, y),
                }
            },
    );
    let candidate: Vec<P> = tabulate(
        size,
        |i: usize| -> (pixel: P)
            requires
                i < size,
                size == w * h,
                width == w,
                samples@.len() == size,
                patch.inside(panorama.width as int, panorama.height as int),
                w == patch.width(),
                h == patch.height(),
                panorama.well_formed(),
                panorama_mask.well_formed(),
                panorama_mask.same_size(panorama),
            ensures
                pixel == candidate_pixel(
                    samples@[i as int],
                    panorama_mask.at(patch.left + i as int % w, patch.top + i as int / w) > 0,
                    panorama.at(patch.left + i as int % w, patch.top + i as int / w),
                    blank,
                )
            {
                proof {
                    lemma_split(w, h, i as int);
                }
                let x: u32 = patch.left + ((i % width) as u32);
                let y: u32 = patch.top + ((i / width) as u32);
                match samples[i] {
                    Some(pixel) => pixel,
                    None => if panorama_mask.pixel(x, y) > 0 {
                        panorama.pixel(x, y)
                    } else {
                        blank
                    },
                }
            },
    );
    let detail: Vec<u8> = tabulate(
        size,
        |i: usize| -> (weight: u8)
            requires
                i < size,
                size == w * h,
                width == w,
                samples@.len() == size,
                patch.inside(panorama.width as int, panorama.height as int),
                w == patch.width(),
                h == patch.height(),
                panorama_mask.well_formed(),
                panorama_mask.same_size(panorama),
                seam_reaches(
                    orientation,
                    seam@.len() as int,
                    patch.right as int,
                    patch.bottom as int,
                ),
            ensures
                weight == detail_at(
                    samples@[i as int] is Some,
                    panorama_mask.at(patch.left + i as int % w, patch.top + i as int / w) > 0,
                    seam_side(
                        orientation,
                        seam@,
                        dominant,
                        patch.left + i as int % w,
                        patch.top + i as int / w,
                    ),
                )
            {
                proof {
                    lemma_split(w, h, i as int);
                }
                let x: u32 = patch.left + ((i % width) as u32);
                let y: u32 = patch.top + ((i / width) as u32);
                let distance: i64 = match orientation {
                    SeamOrientation::Horizontal => {
                        let position: i32 = seam[x as usize];
                        (y as i64) - (if position < 0 {
                            0
                        } else {
                            position as i64
                        })
                    },
                    SeamOrientation::Vertical => {
                        let position: i32 = seam[y as usize];
                        (x as i64) - (if position < 0 {
                            0
                        } else {
                            position as i64
                        })
                    },
                };
                if samples[i].is_none() {
                    0
                } else if panorama_mask.pixel(x, y) == 0 {
                    255
                } else if dominant {
                    panorama_detail_weight(distance)
                } else {
                    panorama_detail_weight(-distance)
                }
            },
    );
    let tone: Vec<u8> = tabulate(
        size,
        |i: usize| -> (weight: u8)
            requires
                i < size,
                size == w * h,
                width == w,
                samples@.len() == size,
                patch.inside(panorama.width as int, panorama.height as int),
                w == patch.width(),
                h == patch.height(),
                panorama_mask.well_formed(),
                panorama_mask.same_size(panorama),
            ensures
                weight == tone_at(
                    samples@[i as int] is Some,
                    panorama_mask.at(patch.left + i as int % w, patch.top + i as int / w) > 0,
                    orientation,
                    dominant,
                    patch,
                    patch.left + i as int % w,
                    patch.top + i as int / w,
                )
            {
                proof {
                    lemma_split(w, h, i as int);
                }
                let column: u32 = (i % width) as u32;
                let row: u32 = (i / width) as u32;
                if samples[i].is_none() {
                    0
                } else if panorama_mask.pixel(patch.left + column, patch.top + row) == 0 {
                    255
                } else {
                    match orientation {
                        SeamOrientation::Horizontal => panorama_tone_weight(
                            row,
                            patch.bottom - patch.top + 1,
                            dominant,
                        ),
                        SeamOrientation::Vertical => panorama_tone_weight(
                            column,
                            patch.right - patch.left + 1,
                            dominant,
                        ),
                    }
                }
            },
    );
    proof {
        assert forall|x: int, y: int|
            #![trigger cell(w, x - patch.left, y - patch.top)]
            patch.contains(x, y) implies {
            let i = cell(w, x - patch.left, y - patch.top);
            let canvas_valid = panorama_mask.at(x, y) > 0;
            &&& base@[i] == base_pixel(samples@[i], canvas_valid, panorama.at(x, y))
            &&& candidate@[i] == candidate_pixel(
                samples@[i],
                canvas_valid,
                panorama.at(x, y),
                blank,
            )
            &&& detail@[i] == detail_at(
                samples@[i] is Some,
                canvas_valid,
                seam_side(orientation, seam@, dominant, x, y),
            )
            &&& tone@[i] == tone_at(
                samples@[i] is Some,
                canvas_valid,
                orientation,
                dominant,
                patch,
                x,
                y,
            )
        } by {
            lemma_cell(w, h, x - patch.left, y - patch.top);
        }
    }
    PanoramaPatch { base, candidate, detail, tone }
}

/// Puts a blended patch back on the canvas. A pixel becomes valid where the
/// candidate has weight.
pub fn commit_panorama_patch<P: Copy>(
    panorama: &mut Raster<P>,
    panorama_mask: &mut Raster<u8>,
    patch: Bounds,
    blended: &Vec<P>,
    detail: &Vec<u8>,
)
    requires
        old(panorama).well_formed(),
        old(panorama_mask).well_formed(),
        old(panorama_mask).same_size(old(panorama)),
        patch.inside(old(panorama).width as int, old(panorama).height as int),
        blended@.len() == patch.width() * patch.height(),
        detail@.len() == patch.width() * patch.height(),
    ensures
        final(panorama).well_formed(),
        final(panorama).same_size(old(panorama)),
        final(panorama_mask).well_formed(),
        final(panorama_mask).same_size(old(panorama)),
        forall|x: int, y: int|
            0 <= x < old(panorama).width && 0 <= y < old(panorama).height ==> #[trigger] final(panorama).at(x, y) == if patch.contains(x, y) {
                blended@[cell(patch.width(), x - patch.left, y - patch.top)]
            } else {
                old(panorama).at(x, y)
            },
        forall|x: int, y: int|
            0 <= x < old(panorama).width && 0 <= y < old(panorama).height ==> #[trigger] final(panorama_mask).at(x, y) == if patch.contains(x, y) && (old(panorama_mask).at(x, y) > 0
                || detail@[cell(patch.width(), x - patch.left, y - patch.top)] > 0) {
                255
            } else {
                old(panorama_mask).at(x, y)
            },
{
    let width: u32 = patch.right - patch.left + 1;
    let height: u32 = patch.bottom - patch.top + 1;
    let size: usize = blended.len();
    let ghost (w, h) = (patch.width(), patch.height());
    proof {
        assert forall|a: int, b: int|
            in_region(patch.left as int, patch.top as int, w, h, a, b) implies 0 <= #[trigger] cell(
            w,
            a - patch.left,
            b - patch.top,
        ) < size by {
            lemma_cell(w, h, a - patch.left, b - patch.top);
        }
    }
    update_region(
        panorama,
        patch.left,
        patch.top,
        width,
        height,
        |local: usize, global: usize, pixel: P| -> (next: P)
            requires
                local < blended@.len(),
            ensures
                next == blended@[local as int]
            { blended[local] },
    );
    update_region(
        panorama_mask,
        patch.left,
        patch.top,
        width,
        height,
        |local: usize, global: usize, valid: u8| -> (next: u8)
            requires
                local < detail@.len(),
            ensures
                next == if valid > 0 || detail@[local as int] > 0 {
                    255
                } else {
                    valid
                }
            {
                if valid > 0 || detail[local] > 0 {
                    255
                } else {
                    valid
                }
            },
    );
}

/// The sizes of the levels of a blend, the finest first.
pub open spec fn level_sizes(width: int, height: int, bands: int) -> Seq<(int, int)>
    decreases bands,
{
    if bands <= 1 || width <= 4 || height <= 4 {
        seq![(width, height)]
    } else {
        seq![(width, height)] + level_sizes((width + 1) / 2, (height + 1) / 2, bands - 1)
    }
}

/// How one level of a blend is mixed.
#[derive(Clone, Copy, Debug, PartialEq, Eq, Structural)]
pub struct BandPlan {
    pub width: u32,
    pub height: u32,
    /// The mask of the tone ramp is used in place of the mask of the seam.
    pub tone_mask: bool,
    /// The mask is cut at one half: every pixel belongs to one source.
    pub hard: bool,
}

/// The plan of level `k` of `levels`.
pub open spec fn band_plan(size: (int, int), k: int, levels: int, hard_detail: bool) -> BandPlan {
    BandPlan {
        width: size.0 as u32,
        height: size.1 as u32,
        tone_mask: k == levels - 1 || k >= PANORAMA_GLOBAL_TONE_FIRST_BAND,
        hard: k < levels - 1 && hard_detail && k < PANORAMA_GLOBAL_TONE_FIRST_BAND,
    }
}

/// The levels of a blend: sizes are halved until a side has at most four pixels or
/// the bands are used up. The coarsest level and the broad tone bands follow the
/// tone ramp; detail bands follow the seam, hard if asked for.
pub fn plan_bands(width: u32, height: u32, max_bands: usize, hard_detail: bool) -> (bands: Vec<
    BandPlan,
>)
    ensures
        bands@.len() == level_sizes(width as int, height as int, max_bands as int).len(),
        forall|k: int|
            0 <= k < bands@.len() ==> #[trigger] bands@[k] == band_plan(
                level_sizes(width as int, height as int, max_bands as int)[k],
                k,
                bands@.len() as int,
                hard_detail,
            ),
{
    let ghost sizes = level_sizes(width as int, height as int, max_bands as int);
    let mut collected: Vec<(u32, u32)> = Vec::new();
    let mut w: u32 = width;
    let mut h: u32 = height;
    let mut left: usize = max_bands;
    let mut halving: bool = true;
    while halving
        invariant
            halving ==> sizes =~= Seq::new(
                collected@.len(),
                |i: int| (collected@[i].0 as int, collected@[i].1 as int),
            ) + level_sizes(w as int, h as int, left as int),
            !halving ==> sizes =~= Seq::new(
                collected@.len(),
                |i: int| (collected@[i].0 as int, collected@[i].1 as int),
            ),
        decreases left, halving as int,
    {
        let ghost before = collected@;
        collected.push((w, h));
        proof {
            let now = Seq::new(
                collected@.len(),
                |i: int| (collected@[i].0 as int, collected@[i].1 as int),
            );
            let then = Seq::new(before.len(), |i: int| (before[i].0 as int, before[i].1 as int));
            assert(now =~= then.push((w as int, h as int)));
        }
        if left <= 1 || w <= 4 || h <= 4 {
            halving = false;
        } else {
            w = w / 2 + w % 2;
            h = h / 2 + h % 2;
            left = left - 1;
        }
    }
    let levels: usize = collected.len();
    let mut bands: Vec<BandPlan> = Vec::new();
    let mut k: usize = 0;
    while k < levels
        invariant
            k <= levels,
            levels == collected@.len(),
            levels == sizes.len(),
            sizes =~= Seq::new(
                collected@.len(),
                |i: int| (collected@[i].0 as int, collected@[i].1 as int),
            ),
            bands@.len() == k,
            forall|j: int|
                0 <= j < k ==> #[trigger] bands@[j] == band_plan(
                    sizes[j],
                    j,
                    levels as int,
                    hard_detail,
                ),
        decreases levels - k,
    {
        let last: bool = k == levels - 1;
        bands.push(
            BandPlan {
                width: collected[k].0,
                height: collected[k].1,
                tone_mask: last || k >= PANORAMA_GLOBAL_TONE_FIRST_BAND,
                hard: !last && hard_detail && k < PANORAMA_GLOBAL_TONE_FIRST_BAND,
            },
        );
        k += 1;
    }
    bands
}

/// What the seam between a layer and the canvas asks for.
#[derive(Clone, Copy, Debug, PartialEq, Eq, Structural)]
pub enum FocusSeamPlan {
    /// The layer is too small or does not lie on the canvas.
    Nothing,
    /// There is no seam to blend: pixels go to the source that owns them.
    HardSelect,
    /// The patch of the layer is blended.
    Blend(Bounds),
}

/// The pixel of the layer belongs to the candidate.
pub open spec fn owns<P>(
    base_mask: &Raster<u8>,
    candidate: &RenderedFocusLayer<P>,
    decision: &Raster<u8>,
    x: int,
    y: int,
) -> bool {
    takes_candidate(
        base_mask.at(candidate.left + x, candidate.top + y),
        candidate.mask.at(x, y),
        decision.at(x, y),
    )
}

/// The pixel is foreground of the candidate or near to foreground of the canvas,
/// and not relaxed.
pub open spec fn is_protected_foreground<P>(
    merged_foreground: &Raster<u8>,
    candidate: &RenderedFocusLayer<P>,
    overlap_radius: usize,
    x: int,
    y: int,
) -> bool {
    (candidate.foreground_mask.at(x, y) > 0 || is_guarded(
        merged_foreground,
        candidate.left,
        candidate.top,
        candidate.image.width,
        candidate.image.height,
        overlap_radius,
        x,
        y,
    )) && candidate.relaxed_foreground_mask.at(x, y) == 0
}

/// The band along the silhouette of the protected foreground.
pub open spec fn on_silhouette<P>(
    merged_foreground: &Raster<u8>,
    candidate: &RenderedFocusLayer<P>,
    overlap_radius: usize,
    edge_radius: usize,
    x: int,
    y: int,
) -> bool {
    &&& is_protected_foreground(merged_foreground, candidate, overlap_radius, x, y)
    &&& exists|a: int, b: int|
        0 <= a < candidate.image.width && 0 <= b < candidate.image.height && x - edge_radius <= a
            <= x + edge_radius && y - edge_radius <= b <= y + edge_radius && !(#[trigger]
        is_protected_foreground(merged_foreground, candidate, overlap_radius, a, b))
}

/// The two pixels belong to different sources, and neither lies on a silhouette.
pub open spec fn is_transition(owned: Seq<bool>, silhouette: Seq<bool>, from: int, to: int) -> bool {
    !silhouette[to] && owned[to] != owned[from]
}

/// A seam runs between the inner pixel and one of its four neighbours.
pub open spec fn on_seam(
    owned: Seq<bool>,
    silhouette: Seq<bool>,
    width: int,
    height: int,
    x: int,
    y: int,
) -> bool {
    &&& 1 <= x < width - 1
    &&& 1 <= y < height - 1
    &&& !silhouette[cell(width, x, y)]
    &&& (is_transition(owned, silhouette, cell(width, x, y), cell(width, x - 1, y)) || is_transition(
        owned,
        silhouette,
        cell(width, x, y),
        cell(width, x + 1, y),
    ) || is_transition(owned, silhouette, cell(width, x, y), cell(width, x, y - 1))
        || is_transition(owned, silhouette, cell(width, x, y), cell(width, x, y + 1)))
}

/// The patch of a layer that is blended: the overlap with the canvas, or the
/// surroundings of the seam where there is none.
pub open spec fn patch_of(
    seam: Bounds,
    overlap: Option<Bounds>,
    width: int,
    height: int,
) -> Bounds {
    let longest = if width > height {
        width
    } else {
        height
    };
    let radius = least(FOCUS_SEAM_BLEND_RADIUS as int, longest);
    match overlap {
        Some(bounds) => bounds,
        None => Bounds {
            left: if seam.left < radius {
                0
            } else {
                (seam.left - radius) as u32
            },
            right: least(seam.right + radius, width - 1) as u32,
            top: if seam.top < radius {
                0
            } else {
                (seam.top - radius) as u32
            },
            bottom: least(seam.bottom + radius, height - 1) as u32,
        },
    }
}

pub open spec fn large_enough(patch: Bounds) -> bool {
    patch.width() >= MIN_BLEND_SIDE && patch.height() >= MIN_BLEND_SIDE
}

/// The cells of the layer along the seam.
fn find_seam_cells(owned: &Vec<bool>, silhouette: &Vec<bool>, width: u32, height: u32) -> (cells:
    Vec<bool>)
    requires
        owned@.len() == width * height,
        silhouette@.len() == width * height,
    ensures
        cells@.len() == width * height,
        forall|x: int, y: int| #[trigger]
            has_cell(cells@, width as int, height as int, x, y) == (0 <= x < width && 0 <= y < height
                && on_seam(owned@, silhouette@, width as int, height as int, x, y)),
{
    let ghost w = width as int;
    let ghost h = height as int;
    let size: usize = owned.len();
    let stride: usize = width as usize;
    let cells: Vec<bool> = tabulate(
        size,
        |i: usize| -> (seam: bool)
            requires
                i < size,
                size == w * h,
                w == width,
                h == height,
                stride == w,
                owned@.len() == size,
                silhouette@.len() == size,
            ensures
                seam == on_seam(owned@, silhouette@, w, h, i as int % w, i as int / w)
            {
                proof {
                    assert(w > 0) by (nonlinear_arith)
                        requires
                            i < w * h,
                            0 <= i,
                            0 <= w,
                            0 <= h,
                    ;
                    lemma_split(w, h, i as int);
                }
                let x: u32 = (i % stride) as u32;
                let y: u32 = (i / stride) as u32;
                if x < 1 || y < 1 || x >= width - 1 || y >= height - 1 || silhouette[i] {
                    false
                } else {
                    proof {
                        lemma_cell(w, h, x - 1, y as int);
                        lemma_cell(w, h, x + 1, y as int);
                        lemma_cell(w, h, x as int, y - 1);
                        lemma_cell(w, h, x as int, y + 1);
                        crate::grid::lemma_row_below(w, x as int, y as int);
                    }
                    let mine: bool = owned[i];
                    !silhouette[i - 1] && owned[i - 1] != mine || !silhouette[i + 1] && owned[i + 1]
                        != mine || !silhouette[i - stride] && owned[i - stride] != mine
                        || !silhouette[i + stride] && owned[i + stride] != mine
                }
            },
    );
    proof {
        assert forall|x: int, y: int| #[trigger]
            has_cell(cells@, w, h, x, y) == (0 <= x < w && 0 <= y < h && on_seam(
                owned@,
                silhouette@,
                w,
                h,
                x,
                y,
            )) by {
            if 0 <= x < w && 0 <= y < h {
                lemma_cell(w, h, x, y);
            }
        }
    }
    cells
}

/// For every pixel of a layer, whether it belongs to the candidate.
pub open spec fn owned_cells<P>(
    base_mask: &Raster<u8>,
    candidate: &RenderedFocusLayer<P>,
    decision: &Raster<u8>,
) -> Seq<bool> {
    Seq::new(
        candidate.image.pixels@.len(),
        |i: int|
            owns(
                base_mask,
                candidate,
                decision,
                i % candidate.image.width as int,
                i / candidate.image.width as int,
            ),
    )
}

/// For every pixel of a layer, whether it lies on a silhouette.
pub open spec fn silhouette_cells<P>(
    merged_foreground: &Raster<u8>,
    candidate: &RenderedFocusLayer<P>,
    overlap_radius: usize,
    edge_radius: usize,
) -> Seq<bool> {
    Seq::new(
        candidate.image.pixels@.len(),
        |i: int|
            on_silhouette(
                merged_foreground,
                candidate,
                overlap_radius,
                edge_radius,
                i % candidate.image.width as int,
                i / candidate.image.width as int,
            ),
    )
}

/// The cells of a layer along its seam with the canvas.
pub open spec fn seam_cells<P>(
    base_mask: &Raster<u8>,
    merged_foreground: &Raster<u8>,
    candidate: &RenderedFocusLayer<P>,
    decision: &Raster<u8>,
    overlap_radius: usize,
    edge_radius: usize,
) -> Seq<bool> {
    let width = candidate.image.width as int;
    let height = candidate.image.height as int;
    Seq::new(
        candidate.image.pixels@.len(),
        |i: int|
            on_seam(
                owned_cells(base_mask, candidate, decision),
                silhouette_cells(merged_foreground, candidate, overlap_radius, edge_radius),
                width,
                height,
                i % width,
                i / width,
            ),
    )
}

/// The cells of a layer where both it and the canvas are valid.
pub open spec fn shared_cells<P>(base_mask: &Raster<u8>, candidate: &RenderedFocusLayer<P>) -> Seq<
    bool,
> {
    let width = candidate.image.width as int;
    Seq::new(
        candidate.image.pixels@.len(),
        |i: int|
            candidate.mask.at(i % width, i / width) > 0 && base_mask.at(
                candidate.left + i % width,
                candidate.top + i / width,
            ) > 0,
    )
}

/// The bounding box of a set of cells, if it is not empty.
pub open spec fn is_box_of(cells: Seq<bool>, width: int, height: int, found: Option<Bounds>) -> bool {
    match found {
        None => forall|x: int, y: int| !(#[trigger] has_cell(cells, width, height, x, y)),
        Some(bounds) => is_tight(cells, width, height, bounds) && bounds.inside(width, height),
    }
}

/// What is done about the seam, given the boxes of the seam and of the overlap.
pub open spec fn seam_decision(
    seam: Option<Bounds>,
    overlap: Option<Bounds>,
    width: int,
    height: int,
) -> FocusSeamPlan {
    match seam {
        None => FocusSeamPlan::HardSelect,
        Some(bounds) => {
            let patch = patch_of(bounds, overlap, width, height);
            if large_enough(patch) {
                FocusSeamPlan::Blend(patch)
            } else {
                FocusSeamPlan::HardSelect
            }
        },
    }
}

/// Decides whether and where the seam between a layer and the canvas is blended.
/// Silhouettes of protected foreground do not count as seams.
pub fn plan_focus_seam<P: Copy>(
    base_mask: &Raster<u8>,
    merged_foreground_mask: &Raster<u8>,
    candidate: &RenderedFocusLayer<P>,
    decision_mask: &Raster<u8>,
    overlap_radius: usize,
    edge_radius: usize,
) -> (plan: FocusSeamPlan)
    requires
        base_mask.well_formed(),
        merged_foreground_mask.well_formed(),
        candidate.well_formed(),
        decision_mask.well_formed(),
        decision_mask.same_size(&candidate.image),
        overlap_radius <= 0x3fff_ffff,
        0 < edge_radius <= 0x3fff_ffff,
    ensures
        plan == FocusSeamPlan::Nothing <==> candidate.image.width < 3 || candidate.image.height < 3
            || !candidate.fits(base_mask.width as int, base_mask.height as int),
        plan != FocusSeamPlan::Nothing ==> exists|seam: Option<Bounds>, overlap: Option<Bounds>|
            {
                &&& #[trigger] is_box_of(
                    seam_cells(
                        base_mask,
                        merged_foreground_mask,
                        candidate,
                        decision_mask,
                        overlap_radius,
                        edge_radius,
                    ),
                    candidate.image.width as int,
                    candidate.image.height as int,
                    seam,
                )
                &&& #[trigger] is_box_of(
                    shared_cells(base_mask, candidate),
                    candidate.image.width as int,
                    candidate.image.height as int,
                    overlap,
                )
                &&& plan == seam_decision(
                    seam,
                    overlap,
                    candidate.image.width as int,
                    candidate.image.height as int,
                )
            },
        plan matches FocusSeamPlan::Blend(patch) ==> patch.inside(
            candidate.image.width as int,
            candidate.image.height as int,
        ),
{
    let width: u32 = candidate.image.width;
    let height: u32 = candidate.image.height;
    if width < 3 || height < 3 || !region_fits(
        candidate.left,
        candidate.top,
        width,
        height,
        base_mask.width,
        base_mask.height,
    ) {
        return FocusSeamPlan::Nothing;
    }
    let ghost w = width as int;
    let ghost h = height as int;
    let size: usize = candidate.image.pixels.len();
    let stride: usize = width as usize;
    let silhouette: Vec<bool> = find_silhouette(
        merged_foreground_mask,
        candidate,
        overlap_radius,
        edge_radius,
    );
    let owned: Vec<bool> = tabulate(
        size,
        |i: usize| -> (mine: bool)
            requires
                i < size,
                size == w * h,
                stride == w,
                w > 0,
                w == candidate.image.width,
                h == candidate.image.height,
                candidate.image.pixels@.len() == size,
                base_mask.well_formed(),
                candidate.well_formed(),
                decision_mask.well_formed(),
                decision_mask.same_size(&candidate.image),
                candidate.fits(base_mask.width as int, base_mask.height as int),
            ensures
                mine == owns(base_mask, candidate, decision_mask, i as int % w, i as int / w)
            {
                proof {
                    lemma_split(w, h, i as int);
                }
                let x: u32 = (i % stride) as u32;
                let y: u32 = (i / stride) as u32;
                candidate.mask.pixel(x, y) > 0 && (base_mask.pixel(
                    candidate.left + x,
                    candidate.top + y,
                ) == 0 || decision_mask.pixel(x, y) > 0)
            },
    );
    let shared: Vec<bool> = tabulate(
        size,
        |i: usize| -> (both: bool)
            requires
                i < size,
                size == w * h,
                stride == w,
                w > 0,
                w == candidate.image.width,
                h == candidate.image.height,
                candidate.image.pixels@.len() == size,
                base_mask.well_formed(),
                candidate.well_formed(),
                candidate.fits(base_mask.width as int, base_mask.height as int),
            ensures
                both == (candidate.mask.at(i as int % w, i as int / w) > 0 && base_mask.at(
                    candidate.left + i as int % w,
                    candidate.top + i as int / w,
                ) > 0)
            {
                proof {
                    lemma_split(w, h, i as int);
                }
                let x: u32 = (i % stride) as u32;
                let y: u32 = (i / stride) as u32;
                candidate.mask.pixel(x, y) > 0 && base_mask.pixel(
                    candidate.left + x,
                    candidate.top + y,
                ) > 0
            },
    );
    let cells: Vec<bool> = find_seam_cells(&owned, &silhouette, width, height);
    let seam: Option<Bounds> = bounding_box(&cells, width, height);
    let overlap: Option<Bounds> = bounding_box(&shared, width, height);
    proof {
        assert(owned@ =~= owned_cells(base_mask, candidate, decision_mask));
        assert(silhouette@ =~= silhouette_cells(
            merged_foreground_mask,
            candidate,
            overlap_radius,
            edge_radius,
        ));
        assert(shared@ =~= shared_cells(base_mask, candidate));
        let expected = seam_cells(
            base_mask,
            merged_foreground_mask,
            candidate,
            decision_mask,
            overlap_radius,
            edge_radius,
        );
        assert forall|i: int| 0 <= i < size implies cells@[i] == #[trigger] expected[i] by {
            lemma_split(w, h, i);
            assert(has_cell(cells@, w, h, i % w, i / w) == cells@[i]);
        }
        assert(cells@ =~= expected);
        assert(is_box_of(expected, w, h, seam));
        assert(is_box_of(shared_cells(base_mask, candidate), w, h, overlap));
    }
    let plan: FocusSeamPlan = match seam {
        None => FocusSeamPlan::HardSelect,
        Some(bounds) => {
            let patch: Bounds = match overlap {
                Some(found) => found,
                None => {
                    let longest: u32 = if width > height {
                        width
                    } else {
                        height
                    };
                    let radius: u32 = if FOCUS_SEAM_BLEND_RADIUS < longest {
                        FOCUS_SEAM_BLEND_RADIUS
                    } else {
                        longest
                    };
                    Bounds {
                        left: if bounds.left < radius {
                            0
                        } else {
                            bounds.left - radius
                        },
                        right: if width - 1 - bounds.right < radius {
                            width - 1
                        } else {
                            bounds.right + radius
                        },
                        top: if bounds.top < radius {
                            0
                        } else {
                            bounds.top - radius
                        },
                        bottom: if height - 1 - bounds.bottom < radius {
                            height - 1
                        } else {
                            bounds.bottom + radius
                        },
                    }
                },
            };
            assert(patch == patch_of(bounds, overlap, w, h));
            if patch.right - patch.left >= MIN_BLEND_SIDE - 1 && patch.bottom - patch.top
                >= MIN_BLEND_SIDE - 1 {
                FocusSeamPlan::Blend(patch)
            } else {
                FocusSeamPlan::HardSelect
            }
        },
    };
    plan
}

/// The pixels of a layer on the silhouette of its protected foreground.
fn find_silhouette<P: Copy>(
    merged_foreground_mask: &Raster<u8>,
    candidate: &RenderedFocusLayer<P>,
    overlap_radius: usize,
    edge_radius: usize,
) -> (silhouette: Vec<bool>)
    requires
        merged_foreground_mask.well_formed(),
        candidate.well_formed(),
        candidate.image.width > 0,
        candidate.image.height > 0,
        overlap_radius <= 0x3fff_ffff,
        0 < edge_radius <= 0x3fff_ffff,
    ensures
        silhouette@.len() == candidate.image.pixels@.len(),
        forall|i: int|
            0 <= i < silhouette@.len() ==> #[trigger] silhouette@[i] == on_silhouette(
                merged_foreground_mask,
                candidate,
                overlap_radius,
                edge_radius,
                i % candidate.image.width as int,
                i / candidate.image.width as int,
            ),
{
    let width: u32 = candidate.image.width;
    let height: u32 = candidate.image.height;
    let ghost w = width as int;
    let ghost h = height as int;
    let size: usize = candidate.image.pixels.len();
    let overlap: Vec<u8> = focus_foreground_overlap_mask_for_region(
        merged_foreground_mask,
        candidate.left,
        candidate.top,
        width,
        height,
        overlap_radius,
    );
    let protected: Vec<u8> = tabulate(
        size,
        |i: usize| -> (kept: u8)
            requires
                i < size,
                overlap@.len() == size,
                candidate.foreground_mask.pixels@.len() == size,
                candidate.relaxed_foreground_mask.pixels@.len() == size,
            ensures
                kept == if (candidate.foreground_mask.pixels@[i as int] > 0 || overlap@[i as int] > 0)
                    && candidate.relaxed_foreground_mask.pixels@[i as int] == 0 {
                    1u8
                } else {
                    0u8
                }
            {
                if (candidate.foreground_mask.pixels[i] > 0 || overlap[i] > 0)
                    && candidate.relaxed_foreground_mask.pixels[i] == 0 {
                    1
                } else {
                    0
                }
            },
    );
    let edge: Vec<u8> = focus_foreground_edge_mask(&protected, width, height, edge_radius);
    let silhouette: Vec<bool> = tabulate(
        size,
        |i: usize| -> (marked: bool)
            requires
                i < edge@.len(),
            ensures
                marked == (edge@[i as int] > 0)
            { edge[i] > 0 },
    );
    proof {
        assert forall|x: int, y: int|
            #![trigger cell(w, x, y)]
            0 <= x < w && 0 <= y < h implies (protected@[cell(w, x, y)] > 0)
            == is_protected_foreground(merged_foreground_mask, candidate, overlap_radius, x, y) by {
            lemma_cell(w, h, x, y);
            assert(overlap@[cell(w, x, y)] > 0 <==> is_guarded(
                merged_foreground_mask,
                candidate.left,
                candidate.top,
                width,
                height,
                overlap_radius,
                x,
                y,
            ));
        }
        assert forall|i: int| 0 <= i < size implies #[trigger] silhouette@[i] == on_silhouette(
            merged_foreground_mask,
            candidate,
            overlap_radius,
            edge_radius,
            i % w,
            i / w,
        ) by {
            lemma_split(w, h, i);
            let x = i % w;
            let y = i / w;
            let r = edge_radius as int;
            assert(edge@[cell(w, x, y)] > 0 <==> protected@[cell(w, x, y)] > 0
                && !crate::ownership::is_interior(protected@, w, h, r, x, y));
            if !crate::ownership::is_interior(protected@, w, h, r, x, y) {
                let (a, b) = choose|a: int, b: int|
                    #![trigger cell(w, a, b)]
                    0 <= a < w && 0 <= b < h && x - r <= a <= x + r && y - r <= b <= y + r && !(
                    protected@[cell(w, a, b)] > 0);
                assert(!is_protected_foreground(
                    merged_foreground_mask,
                    candidate,
                    overlap_radius,
                    a,
                    b,
                ));
            } else {
                assert forall|a: int, b: int|
                    0 <= a < w && 0 <= b < h && x - r <= a <= x + r && y - r <= b <= y + r implies #[trigger]
                is_protected_foreground(merged_foreground_mask, candidate, overlap_radius, a, b) by {
                    assert(protected@[cell(w, a, b)] > 0);
                }
            }
        }
    }
    silhouette
}

/// What goes into the blend along the seam of a layer.
pub struct FocusSeamPatch<P> {
    pub base: Vec<P>,
    pub candidate: Vec<P>,
    /// The pixel belongs to the candidate.
    pub owned: Vec<bool>,
    /// The tone of the pixel may be blended: canvas, and not artwork.
    pub tone_blend: Vec<bool>,
    /// Both sources show canvas here.
    pub tone_sample: Vec<bool>,
    /// Artwork: the pixel stays with the source that owns it.
    pub protected: Vec<bool>,
}

/// How the two sources meet in one pixel of a patch.
pub struct PatchPixel {
    pub base_valid: bool,
    pub candidate_valid: bool,
    pub decided: bool,
    /// The candidate shows foreground, or foreground of the canvas is near.
    pub foreground: bool,
    /// The pixel of the canvas shows paint.
    pub base_painted: bool,
    /// The pixel of the candidate shows paint.
    pub candidate_painted: bool,
}

/// The canvas supplies the base pixel.
pub open spec fn uses_canvas(pixel: PatchPixel) -> bool {
    pixel.base_valid || !pixel.candidate_valid
}

/// The pixel shows artwork in the base or in the candidate of the blend.
pub open spec fn is_artwork(pixel: PatchPixel) -> bool {
    let base_painted = if uses_canvas(pixel) {
        pixel.base_painted
    } else {
        pixel.candidate_painted
    };
    pixel.foreground || base_painted || (if pixel.candidate_valid {
        pixel.candidate_painted
    } else {
        base_painted
    })
}

/// The pixel of the patch in column `x` of row `y` of the layer.
pub open spec fn patch_pixel<P>(
    base_mask: &Raster<u8>,
    merged_foreground: &Raster<u8>,
    candidate: &RenderedFocusLayer<P>,
    decision: &Raster<u8>,
    overlap_radius: usize,
    base_painted: bool,
    candidate_painted: bool,
    x: int,
    y: int,
) -> PatchPixel {
    PatchPixel {
        base_valid: base_mask.at(candidate.left + x, candidate.top + y) > 0,
        candidate_valid: candidate.mask.at(x, y) > 0,
        decided: decision.at(x, y) > 0,
        foreground: candidate.foreground_mask.at(x, y) > 0 || is_guarded(
            merged_foreground,
            candidate.left,
            candidate.top,
            candidate.image.width,
            candidate.image.height,
            overlap_radius,
            x,
            y,
        ),
        base_painted,
        candidate_painted,
    }
}

/// The parts of the blend hold for pixel `i` what its two sources ask for.
pub open spec fn holds_pixel<P>(
    parts: &FocusSeamPatch<P>,
    i: int,
    pixel: PatchPixel,
    current: P,
    sample: P,
) -> bool {
    let base = if uses_canvas(pixel) {
        current
    } else {
        sample
    };
    &&& parts.base@[i] == base
    &&& parts.candidate@[i] == (if pixel.candidate_valid {
        sample
    } else {
        base
    })
    &&& parts.owned@[i] == (pixel.candidate_valid && (!pixel.base_valid || pixel.decided))
    &&& parts.tone_blend@[i] == ((pixel.base_valid || pixel.candidate_valid) && !is_artwork(pixel))
    &&& parts.tone_sample@[i] == (pixel.base_valid && pixel.candidate_valid && !is_artwork(pixel))
    &&& parts.protected@[i] == is_artwork(pixel)
}

/// Pixel `i` of the parts is collected from the pixel of the layer that it shows.
spec fn is_collected<P>(
    parts: &FocusSeamPatch<P>,
    base: &Raster<P>,
    base_mask: &Raster<u8>,
    merged_foreground: &Raster<u8>,
    candidate: &RenderedFocusLayer<P>,
    decision: &Raster<u8>,
    overlap_radius: usize,
    patch: Bounds,
    base_painted: Seq<bool>,
    candidate_painted: Seq<bool>,
    i: int,
) -> bool {
    let x = patch.left + i % patch.width();
    let y = patch.top + i / patch.width();
    holds_pixel(
        parts,
        i,
        patch_pixel(
            base_mask,
            merged_foreground,
            candidate,
            decision,
            overlap_radius,
            base_painted[i],
            candidate_painted[i],
            x,
            y,
        ),
        base.at(candidate.left + x, candidate.top + y),
        candidate.image.at(x, y),
    )
}

/// Collects what goes into the blend along the seam of a layer. `base_painted` and
/// `candidate_painted` say for every pixel of the patch whether the canvas and the
/// layer show paint there.
pub fn focus_seam_patch<P: Copy>(
    base: &Raster<P>,
    base_mask: &Raster<u8>,
    merged_foreground_mask: &Raster<u8>,
    candidate: &RenderedFocusLayer<P>,
    decision_mask: &Raster<u8>,
    overlap_radius: usize,
    patch: Bounds,
    base_painted: &Vec<bool>,
    candidate_painted: &Vec<bool>,
) -> (parts: FocusSeamPatch<P>)
    requires
        base.well_formed(),
        base_mask.well_formed(),
        base_mask.same_size(base),
        merged_foreground_mask.well_formed(),
        candidate.well_formed(),
        candidate.fits(base.width as int, base.height as int),
        decision_mask.well_formed(),
        decision_mask.same_size(&candidate.image),
        overlap_radius <= 0x3fff_ffff,
        patch.inside(candidate.image.width as int, candidate.image.height as int),
        base_painted@.len() == patch.width() * patch.height(),
        candidate_painted@.len() == patch.width() * patch.height(),
    ensures
        parts.base@.len() == patch.width() * patch.height(),
        parts.candidate@.len() == patch.width() * patch.height(),
        parts.owned@.len() == patch.width() * patch.height(),
        parts.tone_blend@.len() == patch.width() * patch.height(),
        parts.tone_sample@.len() == patch.width() * patch.height(),
        parts.protected@.len() == patch.width() * patch.height(),
        forall|x: int, y: int|
            #![trigger cell(patch.width(), x - patch.left, y - patch.top)]
            patch.contains(x, y) ==> holds_pixel(
                &parts,
                cell(patch.width(), x - patch.left, y - patch.top),
                patch_pixel(
                    base_mask,
                    merged_foreground_mask,
                    candidate,
                    decision_mask,
                    overlap_radius,
                    base_painted@[cell(patch.width(), x - patch.left, y - patch.top)],
                    candidate_painted@[cell(patch.width(), x - patch.left, y - patch.top)],
                    x,
                    y,
                ),
                base.at(candidate.left + x, candidate.top + y),
                candidate.image.at(x, y),
            ),
{
    let layer_width: u32 = candidate.image.width;
    let layer_height: u32 = candidate.image.height;
    let ghost lw = layer_width as int;
    let ghost lh = layer_height as int;
    let layer_size: usize = candidate.image.pixels.len();
    let overlap: Vec<u8> = focus_foreground_overlap_mask_for_region(
        merged_foreground_mask,
        candidate.left,
        candidate.top,
        layer_width,
        layer_height,
        overlap_radius,
    );
    let ghost w = patch.width();
    let ghost h = patch.height();
    let size: usize = base_painted.len();
    let mut parts: FocusSeamPatch<P> = FocusSeamPatch {
        base: Vec::new(),
        candidate: Vec::new(),
        owned: Vec::new(),
        tone_blend: Vec::new(),
        tone_sample: Vec::new(),
        protected: Vec::new(),
    };
    let width: usize = (patch.right - patch.left) as usize + 1;
    let mut i: usize = 0;
    while i < size
        invariant
            i <= size,
            size == w * h,
            w == patch.width(),
            h == patch.height(),
            width == w,
            lw == layer_width,
            lh == layer_height,
            layer_width == candidate.image.width,
            layer_height == candidate.image.height,
            layer_size == lw * lh,
            base.well_formed(),
            base_mask.well_formed(),
            base_mask.same_size(base),
            candidate.well_formed(),
            candidate.fits(base.width as int, base.height as int),
            decision_mask.well_formed(),
            decision_mask.same_size(&candidate.image),
            patch.inside(lw, lh),
            base_painted@.len() == size,
            candidate_painted@.len() == size,
            overlap@.len() == layer_size,
            forall|x: int, y: int|
                #![trigger overlap@[cell(lw, x, y)]]
                0 <= x < lw && 0 <= y < lh ==> overlap@[cell(lw, x, y)] == if is_guarded(
                    merged_foreground_mask,
                    candidate.left,
                    candidate.top,
                    layer_width,
                    layer_height,
                    overlap_radius,
                    x,
                    y,
                ) {
                    1u8
                } else {
                    0u8
                },
            parts.base@.len() == i,
            parts.candidate@.len() == i,
            parts.owned@.len() == i,
            parts.tone_blend@.len() == i,
            parts.tone_sample@.len() == i,
            parts.protected@.len() == i,
            forall|j: int|
                0 <= j < i ==> #[trigger] is_collected(
                    &parts,
                    base,
                    base_mask,
                    merged_foreground_mask,
                    candidate,
                    decision_mask,
                    overlap_radius,
                    patch,
                    base_painted@,
                    candidate_painted@,
                    j,
                ),
        decreases size - i,
    {
        proof {
            lemma_split(w, h, i as int);
        }
        let x: u32 = patch.left + ((i % width) as u32);
        let y: u32 = patch.top + ((i / width) as u32);
        proof {
            lemma_cell(lw, lh, x as int, y as int);
        }
        let near: bool = overlap[(y as usize) * (layer_width as usize) + (x as usize)] > 0;
        assert(near == (overlap@[cell(lw, x as int, y as int)] > 0));
        let base_valid: bool = base_mask.pixel(candidate.left + x, candidate.top + y) > 0;
        let candidate_valid: bool = candidate.mask.pixel(x, y) > 0;
        let decided: bool = decision_mask.pixel(x, y) > 0;
        let foreground: bool = candidate.foreground_mask.pixel(x, y) > 0 || near;
        let current: P = base.pixel(candidate.left + x, candidate.top + y);
        let sample: P = candidate.image.pixel(x, y);
        let canvas: bool = base_valid || !candidate_valid;
        let first: P = if canvas {
            current
        } else {
            sample
        };
        let first_painted: bool = if canvas {
            base_painted[i]
        } else {
            candidate_painted[i]
        };
        let second_painted: bool = if candidate_valid {
            candidate_painted[i]
        } else {
            first_painted
        };
        let artwork: bool = foreground || first_painted || second_painted;
        let ghost before = parts;
        parts.base.push(first);
        parts.candidate.push(
            if candidate_valid {
                sample
            } else {
                first
            },
        );
        parts.owned.push(candidate_valid && (!base_valid || decided));
        parts.tone_blend.push((base_valid || candidate_valid) && !artwork);
        parts.tone_sample.push(base_valid && candidate_valid && !artwork);
        parts.protected.push(artwork);
        proof {
            let pixel = patch_pixel(
                base_mask,
                merged_foreground_mask,
                candidate,
                decision_mask,
                overlap_radius,
                base_painted@[i as int],
                candidate_painted@[i as int],
                x as int,
                y as int,
            );
            assert(artwork == is_artwork(pixel));
            assert forall|j: int| 0 <= j < i + 1 implies #[trigger] is_collected(
                &parts,
                base,
                base_mask,
                merged_foreground_mask,
                candidate,
                decision_mask,
                overlap_radius,
                patch,
                base_painted@,
                candidate_painted@,
                j,
            ) by {
                if j < i {
                    assert(is_collected(
                        &before,
                        base,
                        base_mask,
                        merged_foreground_mask,
                        candidate,
                        decision_mask,
                        overlap_radius,
                        patch,
                        base_painted@,
                        candidate_painted@,
                        j,
                    ));
                }
            }
        }
        i += 1;
    }
    proof {
        assert forall|x: int, y: int|
            #![trigger cell(w, x - patch.left, y - patch.top)]
            patch.contains(x, y) implies holds_pixel(
            &parts,
            cell(w, x - patch.left, y - patch.top),
            patch_pixel(
                base_mask,
                merged_foreground_mask,
                candidate,
                decision_mask,
                overlap_radius,
                base_painted@[cell(w, x - patch.left, y - patch.top)],
                candidate_painted@[cell(w, x - patch.left, y - patch.top)],
                x,
                y,
            ),
            base.at(candidate.left + x, candidate.top + y),
            candidate.image.at(x, y),
        ) by {
            lemma_cell(w, h, x - patch.left, y - patch.top);
            let j = cell(w, x - patch.left, y - patch.top);
            assert(is_collected(
                &parts,
                base,
                base_mask,
                merged_foreground_mask,
                candidate,
                decision_mask,
                overlap_radius,
                patch,
                base_painted@,
                candidate_painted@,
                j,
            ));
        }
    }
    parts
}

/// Puts the blended patch of a layer back on the canvas. Artwork keeps the pixel
/// of the source that owns it; the rest of the layer is selected without a
/// blend.
pub fn commit_focus_seam<P: Copy>(
    base: &mut Raster<P>,
    base_mask: &mut Raster<u8>,
    candidate: &RenderedFocusLayer<P>,
    decision_mask: &Raster<u8>,
    patch: Bounds,
    parts: &FocusSeamPatch<P>,
    blended: &Vec<P>,
)
    requires
        old(base).well_formed(),
        old(base_mask).well_formed(),
        old(base_mask).same_size(old(base)),
        candidate.well_formed(),
        candidate.fits(old(base).width as int, old(base).height as int),
        decision_mask.well_formed(),
        decision_mask.same_size(&candidate.image),
        patch.inside(candidate.image.width as int, candidate.image.height as int),
        blended@.len() == patch.width() * patch.height(),
        parts.base@.len() == blended@.len(),
        parts.candidate@.len() == blended@.len(),
        parts.owned@.len() == blended@.len(),
        parts.protected@.len() == blended@.len(),
    ensures
        final(base).well_formed(),
        final(base_mask).well_formed(),
        final(base).same_size(old(base)),
        final(base_mask).same_size(old(base)),
        forall|x: int, y: int|
            0 <= x < old(base).width && 0 <= y < old(base).height ==> #[trigger] final(base).at(x, y)
                == {
                let a = x - candidate.left;
                let b = y - candidate.top;
                let i = cell(patch.width(), a - patch.left, b - patch.top);
                if candidate.covers(x, y) && patch.contains(a, b) {
                    if !parts.protected@[i] {
                        blended@[i]
                    } else if parts.owned@[i] {
                        parts.candidate@[i]
                    } else {
                        parts.base@[i]
                    }
                } else if candidate.covers(x, y) && owns(
                    old(base_mask),
                    candidate,
                    decision_mask,
                    a,
                    b,
                ) {
                    candidate.image.at(a, b)
                } else {
                    old(base).at(x, y)
                }
            },
        forall|x: int, y: int|
            0 <= x < old(base).width && 0 <= y < old(base).height ==> #[trigger] final(base_mask).at(
                x,
                y,
            ) == if candidate.covers(x, y) && candidate.mask.at(
                x - candidate.left,
                y - candidate.top,
            ) > 0 {
                255
            } else {
                old(base_mask).at(x, y)
            },
{
    let ghost start = *base;
    let ghost start_mask = *base_mask;
    hard_select_focus_layer_outside_patch(
        base,
        base_mask,
        candidate,
        decision_mask,
        patch.left,
        patch.right,
        patch.top,
        patch.bottom,
    );
    let ghost outside = *base;
    let ghost outside_mask = *base_mask;
    let width: u32 = patch.right - patch.left + 1;
    let height: u32 = patch.bottom - patch.top + 1;
    let left: u32 = candidate.left + patch.left;
    let top: u32 = candidate.top + patch.top;
    let size: usize = blended.len();
    let ghost (w, h) = (patch.width(), patch.height());
    let stride: usize = width as usize;
    proof {
        assert forall|a: int, b: int|
            in_region(left as int, top as int, w, h, a, b) implies 0 <= #[trigger] cell(
            w,
            a - left,
            b - top,
        ) < size && cell(w, a - left, b - top) % w == a - left && cell(w, a - left, b - top) / w
            == b - top by {
            lemma_cell(w, h, a - left, b - top);
        }
    }
    update_region(
        base,
        left,
        top,
        width,
        height,
        |local: usize, global: usize, pixel: P| -> (next: P)
            requires
                local < size,
                blended@.len() == size,
                parts.base@.len() == size,
                parts.candidate@.len() == size,
                parts.owned@.len() == size,
                parts.protected@.len() == size,
            ensures
                next == if !parts.protected@[local as int] {
                    blended@[local as int]
                } else if parts.owned@[local as int] {
                    parts.candidate@[local as int]
                } else {
                    parts.base@[local as int]
                }
            {
                if !parts.protected[local] {
                    blended[local]
                } else if parts.owned[local] {
                    parts.candidate[local]
                } else {
                    parts.base[local]
                }
            },
    );
    update_region(
        base_mask,
        left,
        top,
        width,
        height,
        |local: usize, global: usize, valid: u8| -> (next: u8)
            requires
                local < size,
                size == w * h,
                stride == w,
                w > 0,
                w == patch.width(),
                h == patch.height(),
                candidate.well_formed(),
                patch.inside(candidate.image.width as int, candidate.image.height as int),
            ensures
                next == if candidate.mask.at(
                    patch.left + local as int % w,
                    patch.top + local as int / w,
                ) > 0 {
                    255
                } else {
                    valid
                }
            {
                proof {
                    lemma_split(w, h, local as int);
                }
                let x: u32 = patch.left + ((local % stride) as u32);
                let y: u32 = patch.top + ((local / stride) as u32);
                if candidate.mask.pixel(x, y) > 0 {
                    255
                } else {
                    valid
                }
            },
    );
    proof {
        assert forall|x: int, y: int|
            0 <= x < start.width && 0 <= y < start.height implies in_region(
            left as int,
            top as int,
            w,
            h,
            x,
            y,
        ) == (candidate.covers(x, y) && #[trigger] patch.contains(
            x - candidate.left,
            y - candidate.top,
        )) by {}
        assert forall|x: int, y: int|
            0 <= x < start.width && 0 <= y < start.height implies #[trigger] base_mask.at(x, y)
            == if candidate.covers(x, y) && candidate.mask.at(
            x - candidate.left,
            y - candidate.top,
        ) > 0 {
            255
        } else {
            start_mask.at(x, y)
        } by {
            assert(patch.contains(x - candidate.left, y - candidate.top) || !patch.contains(
                x - candidate.left,
                y - candidate.top,
            ));
            assert(outside_mask.at(x, y) == outside_mask.at(x, y));
        }
        assert forall|x: int, y: int|
            0 <= x < start.width && 0 <= y < start.height implies #[trigger] base.at(x, y) == {
            let a = x - candidate.left;
            let b = y - candidate.top;
            let i = cell(w, a - patch.left, b - patch.top);
            if candidate.covers(x, y) && patch.contains(a, b) {
                if !parts.protected@[i] {
                    blended@[i]
                } else if parts.owned@[i] {
                    parts.candidate@[i]
                } else {
                    parts.base@[i]
                }
            } else if candidate.covers(x, y) && owns(
                &start_mask,
                candidate,
                decision_mask,
                a,
                b,
            ) {
                candidate.image.at(a, b)
            } else {
                start.at(x, y)
            }
        } by {
            assert(patch.contains(x - candidate.left, y - candidate.top) || !patch.contains(
                x - candidate.left,
                y - candidate.top,
            ));
            assert(outside.at(x, y) == outside.at(x, y));
        }
    }
}

/// Between four pixels before the seam and four behind it the detail weight rises in a straight
/// line from nothing to everything, to the nearest whole number.
pub proof fn law_detail_feather_is_straight(distance: int)
    ensures
        distance <= -4 ==> detail_weight(distance) == 0,
        distance >= 4 ==> detail_weight(distance) == 255,
        -4 <= distance <= 4 ==> -8 <= 510 * (4 + distance) - 16 * detail_weight(distance) <= 8,
{
}

/// The tone weight rises in a straight line over the whole overlap, towards the side of the
/// candidate, to the nearest whole number.
pub proof fn law_tone_ramp_is_straight(position: int, length: int)
    requires
        0 <= position < length,
        2 <= length,
    ensures
        ({
            let span = length - 1;
            let rising = tone_weight(position, length, true);
            let falling = tone_weight(position, length, false);
            &&& -span <= 510 * position - 2 * (span * rising) <= span
            &&& -span <= 510 * (span - position) - 2 * (span * falling) <= span
        }),
{
    let span = length - 1;
    lemma_ramp_is_nearest(position, span);
    lemma_ramp_is_nearest(span - position, span);
}

proof fn lemma_ramp_is_nearest(position: int, span: int)
    requires
        0 < span,
    ensures
        -span <= 510 * position - 2 * (span * ramp_weight(position, span)) <= span,
{
    let value = 510 * position + span;
    let weight = ramp_weight(position, span);
    vstd::arithmetic::div_mod::lemma_fundamental_div_mod(value, 2 * span);
    assert((2 * span) * weight == 2 * (span * weight)) by (nonlinear_arith);
}

/// How much the candidate weighs beside a seam from top to bottom, or from left to right: nothing
/// where it has no pixel, everything where it alone has one; where both have one everything from
/// four pixels on its own side of the seam on, and nothing from four pixels on the other side on.
pub proof fn law_each_side_of_a_seam_keeps_its_detail(
    orientation: SeamOrientation,
    seam: Seq<i32>,
    dominant: bool,
    canvas_valid: bool,
    x: int,
    y: int,
)
    requires
        0 <= x,
        0 <= y,
    ensures
        ({
            let side = seam_side(orientation, seam, dominant, x, y);
            let (place, line) = match orientation {
                SeamOrientation::Vertical => (x, seam[y] as int),
                SeamOrientation::Horizontal => (y, seam[x] as int),
            };
            &&& detail_at(false, canvas_valid, side) == 0
            &&& detail_at(true, false, side) == 255
            &&& 0 <= line && dominant && place >= line + 4 ==> detail_at(true, true, side) == 255
            &&& 0 <= line && dominant && place <= line - 4 ==> detail_at(true, true, side) == 0
            &&& 0 <= line && !dominant && place >= line + 4 ==> detail_at(true, true, side) == 0
            &&& 0 <= line && !dominant && place <= line - 4 ==> detail_at(true, true, side) == 255
            &&& 0 <= line && place == line ==> detail_at(true, true, side) == 128
            &&& line < 0 ==> side == if dominant {
                place
            } else {
                -place
            }
        }),
{
}

/// The tone of a pixel follows the ramp across the seam where both sources have it, and the only
/// source elsewhere.
pub proof fn law_tone_follows_the_overlap(
    candidate_valid: bool,
    canvas_valid: bool,
    dominant: bool,
    patch: Bounds,
    x: int,
    y: int,
)
    ensures
        !candidate_valid ==> tone_at(
            candidate_valid,
            canvas_valid,
            SeamOrientation::Vertical,
            dominant,
            patch,
            x,
            y,
        ) == 0 && tone_at(
            candidate_valid,
            canvas_valid,
            SeamOrientation::Horizontal,
            dominant,
            patch,
            x,
            y,
        ) == 0,
        candidate_valid && !canvas_valid ==> tone_at(
            candidate_valid,
            canvas_valid,
            SeamOrientation::Vertical,
            dominant,
            patch,
            x,
            y,
        ) == 255 && tone_at(
            candidate_valid,
            canvas_valid,
            SeamOrientation::Horizontal,
            dominant,
            patch,
            x,
            y,
        ) == 255,
        candidate_valid && canvas_valid ==> tone_at(
            candidate_valid,
            canvas_valid,
            SeamOrientation::Vertical,
            dominant,
            patch,
            x,
            y,
        ) == tone_weight(x - patch.left, patch.right - patch.left + 1, dominant) && tone_at(
            candidate_valid,
            canvas_valid,
            SeamOrientation::Horizontal,
            dominant,
            patch,
            x,
            y,
        ) == tone_weight(y - patch.top, patch.bottom - patch.top + 1, dominant),
{
}

/// In a blend each source stands for itself where it has a pixel, and the other one where only
/// that has.
pub proof fn law_blends_use_what_is_there<P>(sample: P, current: P, blank: P)
    ensures
        base_pixel(Some(sample), true, current) == current,
        candidate_pixel(Some(sample), true, current, blank) == sample,
        base_pixel(Some(sample), false, current) == sample,
        candidate_pixel(Some(sample), false, current, blank) == sample,
        base_pixel(None, true, current) == current,
        candidate_pixel(None, true, current, blank) == current,
        candidate_pixel(None, false, current, blank) == blank,
{
}

/// The levels of a blend start with the full size and are halved one after the other, rounded up,
/// until a side has at most four pixels or the bands are used up.
pub proof fn law_levels_are_halved(width: int, height: int, bands: int, k: int)
    requires
        0 <= k < level_sizes(width, height, bands).len(),
    ensures
        ({
            let sizes = level_sizes(width, height, bands);
            &&& sizes[0] == (width, height)
            &&& sizes.len() <= if bands < 1 {
                1
            } else {
                bands
            }
            &&& k + 1 < sizes.len() ==> sizes[k].0 > 4 && sizes[k].1 > 4 && sizes[k + 1] == (
                (sizes[k].0 + 1) / 2,
                (sizes[k].1 + 1) / 2,
            )
            &&& k + 1 == sizes.len() ==> sizes[k].0 <= 4 || sizes[k].1 <= 4 || k + 1 >= bands
        }),
    decreases bands,
{
    if !(bands <= 1 || width <= 4 || height <= 4) {
        let rest = level_sizes((width + 1) / 2, (height + 1) / 2, bands - 1);
        let sizes = level_sizes(width, height, bands);
        assert(rest.len() > 0);
        assert(sizes =~= seq![(width, height)] + rest);
        law_levels_are_halved((width + 1) / 2, (height + 1) / 2, bands - 1, 0);
        if k > 0 {
            law_levels_are_halved((width + 1) / 2, (height + 1) / 2, bands - 1, k - 1);
            assert(sizes[k] == rest[k - 1]);
            if k + 1 < sizes.len() {
                assert(sizes[k + 1] == rest[k]);
            }
        } else {
            assert(sizes[1] == rest[0]);
        }
    }
}

/// The coarsest band and all from the sixth on follow the tone ramp; the others follow the seam,
/// and only those are ever hard.
pub proof fn law_detail_bands_follow_the_seam(
    size: (int, int),
    k: int,
    levels: int,
    hard_detail: bool,
)
    requires
        0 <= k < levels,
    ensures
        ({
            let plan = band_plan(size, k, levels, hard_detail);
            &&& k + 1 == levels || k >= 5 ==> plan.tone_mask && !plan.hard
            &&& k + 1 < levels && k < 5 ==> !plan.tone_mask && plan.hard == hard_detail
        }),
{
}

/// Two neighbouring pixels away from the border of a layer that belong to different sources are
/// both on the seam, unless one of them lies on a silhouette; a pixel all of whose neighbours
/// belong to its own source is not.
pub proof fn law_seams_part_the_sources(
    owned: Seq<bool>,
    silhouette: Seq<bool>,
    width: int,
    height: int,
    x: int,
    y: int,
    u: int,
    v: int,
)
    requires
        1 <= x < width - 1,
        1 <= y < height - 1,
        (x == u && (v == y + 1 || v == y - 1)) || (y == v && (u == x + 1 || u == x - 1)),
    ensures
        owned[y * width + x] != owned[v * width + u] && !silhouette[y * width + x] && !silhouette[v
            * width + u] ==> on_seam(owned, silhouette, width, height, x, y),
        silhouette[y * width + x] ==> !on_seam(owned, silhouette, width, height, x, y),
        owned[y * width + x] == owned[y * width + x - 1] && owned[y * width + x] == owned[y * width + x
            + 1] && owned[y * width + x] == owned[(y - 1) * width + x] && owned[y * width + x]
            == owned[(y + 1) * width + x] ==> !on_seam(owned, silhouette, width, height, x, y),
        !on_seam(owned, silhouette, width, height, 0, y),
        !on_seam(owned, silhouette, width, height, x, 0),
        !on_seam(owned, silhouette, width, height, width - 1, y),
        !on_seam(owned, silhouette, width, height, x, height - 1),
{
}

/// What is blended: the overlap where there is one; otherwise what lies within 512 pixels of the
/// seam, or within the longer side of the layer if that is less. Nothing is blended without a
/// seam, or on less than eight pixels.
pub proof fn law_blends_surround_the_seam(
    seam: Bounds,
    overlap: Option<Bounds>,
    width: int,
    height: int,
    x: int,
    y: int,
)
    requires
        seam.inside(width, height),
        width <= u32::MAX,
        height <= u32::MAX,
        0 <= x < width,
        0 <= y < height,
    ensures
        seam_decision(None, overlap, width, height) == FocusSeamPlan::HardSelect,
        overlap matches Some(bounds) ==> seam_decision(Some(seam), overlap, width, height)
            == if bounds.right - bounds.left >= 7 && bounds.bottom - bounds.top >= 7 {
            FocusSeamPlan::Blend(bounds)
        } else {
            FocusSeamPlan::HardSelect
        },
        overlap is None && (width >= 512 || height >= 512) ==> (patch_of(
            seam,
            overlap,
            width,
            height,
        ).contains(x, y) <==> seam.left - 512 <= x <= seam.right + 512 && seam.top - 512 <= y
            <= seam.bottom + 512),
        overlap is None && width < 512 && height < 512 ==> patch_of(
            seam,
            overlap,
            width,
            height,
        ).contains(x, y),
{
}

/// Artwork is never blended and the rest always may be: a pixel is protected exactly if a source
/// that it is taken from shows paint, or foreground is near. The canvas stands for itself where it
/// is valid, the candidate where it is.
pub proof fn law_artwork_is_never_blended<P>(
    parts: &FocusSeamPatch<P>,
    i: int,
    pixel: PatchPixel,
    current: P,
    sample: P,
)
    requires
        holds_pixel(parts, i, pixel, current, sample),
    ensures
        pixel.foreground ==> parts.protected@[i],
        pixel.base_valid && pixel.base_painted ==> parts.protected@[i],
        pixel.candidate_valid && pixel.candidate_painted ==> parts.protected@[i],
        !pixel.foreground && !pixel.base_painted && !pixel.candidate_painted
            ==> !parts.protected@[i],
        parts.protected@[i] ==> !parts.tone_blend@[i] && !parts.tone_sample@[i],
        !parts.protected@[i] ==> parts.tone_blend@[i] == (pixel.base_valid || pixel.candidate_valid)
            && parts.tone_sample@[i] == (pixel.base_valid && pixel.candidate_valid),
        pixel.base_valid ==> parts.base@[i] == current,
        pixel.candidate_valid ==> parts.candidate@[i] == sample,
        pixel.candidate_valid && !pixel.base_valid ==> parts.base@[i] == sample && parts.owned@[i],
        !pixel.candidate_valid ==> parts.candidate@[i] == current && !parts.owned@[i],
        pixel.candidate_valid && pixel.base_valid ==> parts.owned@[i] == pixel.decided,
{
}

/// The overlap of a layer are the pixels where both it and the canvas under it are valid.
pub proof fn law_overlaps_are_valid_in_both<P>(
    base_mask: &Raster<u8>,
    candidate: &RenderedFocusLayer<P>,
    x: int,
    y: int,
)
    requires
        candidate.well_formed(),
        0 <= x < candidate.image.width,
        0 <= y < candidate.image.height,
    ensures
        shared_cells(base_mask, candidate)[y * candidate.image.width + x] == (candidate.mask.at(x, y)
            != 0 && base_mask.at(candidate.left + x, candidate.top + y) != 0),
{
    lemma_cell(candidate.image.width as int, candidate.image.height as int, x, y);
}

/// The pixel of a layer is foreground, or foreground of the canvas guards it, and it is not
/// relaxed.
pub open spec fn keeps_its_edge<P>(
    merged_foreground: &Raster<u8>,
    candidate: &RenderedFocusLayer<P>,
    overlap_radius: usize,
    x: int,
    y: int,
) -> bool {
    &&& candidate.relaxed_foreground_mask.at(x, y) == 0
    &&& candidate.foreground_mask.at(x, y) != 0 || is_guarded(
        merged_foreground,
        candidate.left,
        candidate.top,
        candidate.image.width,
        candidate.image.height,
        overlap_radius,
        x,
        y,
    )
}

/// A pixel of a layer lies on a silhouette exactly if it keeps its edge and one within the radius
/// does not.
pub proof fn law_silhouettes_border_the_foreground<P>(
    merged_foreground: &Raster<u8>,
    candidate: &RenderedFocusLayer<P>,
    overlap_radius: usize,
    edge_radius: usize,
    x: int,
    y: int,
)
    ensures
        on_silhouette(merged_foreground, candidate, overlap_radius, edge_radius, x, y)
            <==> keeps_its_edge(merged_foreground, candidate, overlap_radius, x, y) && exists|
            a: int,
            b: int,
        |
            0 <= a < candidate.image.width && 0 <= b < candidate.image.height && -edge_radius <= a - x
                <= edge_radius && -edge_radius <= b - y <= edge_radius && !(#[trigger]
            keeps_its_edge(merged_foreground, candidate, overlap_radius, a, b)),
{
    assert forall|a: int, b: int|
        #![trigger keeps_its_edge(merged_foreground, candidate, overlap_radius, a, b)]
        #![trigger is_protected_foreground(merged_foreground, candidate, overlap_radius, a, b)]
        keeps_its_edge(merged_foreground, candidate, overlap_radius, a, b)
            == is_protected_foreground(merged_foreground, candidate, overlap_radius, a, b) by {}
}

/// The seam of a layer runs between its own pixels and those of the canvas: which source a pixel
/// belongs to goes by the masks under it and the decision, and which lies on a silhouette by the
/// foreground.
pub proof fn law_seam_cells_go_by_the_masks<P>(
    base_mask: &Raster<u8>,
    merged_foreground: &Raster<u8>,
    candidate: &RenderedFocusLayer<P>,
    decision: &Raster<u8>,
    overlap_radius: usize,
    edge_radius: usize,
    x: int,
    y: int,
)
    requires
        candidate.well_formed(),
        0 <= x < candidate.image.width,
        0 <= y < candidate.image.height,
    ensures
        ({
            let width = candidate.image.width as int;
            let height = candidate.image.height as int;
            let owned = owned_cells(base_mask, candidate, decision);
            let silhouette = silhouette_cells(
                merged_foreground,
                candidate,
                overlap_radius,
                edge_radius,
            );
            &&& owned[y * width + x] == (candidate.mask.at(x, y) != 0 && (base_mask.at(
                candidate.left + x,
                candidate.top + y,
            ) == 0 || decision.at(x, y) != 0))
            &&& silhouette[y * width + x] == on_silhouette(
                merged_foreground,
                candidate,
                overlap_radius,
                edge_radius,
                x,
                y,
            )
            &&& seam_cells(
                base_mask,
                merged_foreground,
                candidate,
                decision,
                overlap_radius,
                edge_radius,
            )[y * width + x] == on_seam(owned, silhouette, width, height, x, y)
        }),
{
    lemma_cell(candidate.image.width as int, candidate.image.height as int, x, y);
}

/// What is known of a pixel of a patch: its own validity and that of the canvas under it, the
/// decision, the foreground that it belongs to or is guarded by, and the paint of both.
pub proof fn law_patch_pixels_are_seen_as_they_are<P>(
    base_mask: &Raster<u8>,
    merged_foreground: &Raster<u8>,
    candidate: &RenderedFocusLayer<P>,
    decision: &Raster<u8>,
    overlap_radius: usize,
    base_painted: bool,
    candidate_painted: bool,
    x: int,
    y: int,
)
    ensures
        ({
            let pixel = patch_pixel(
                base_mask,
                merged_foreground,
                candidate,
                decision,
                overlap_radius,
                base_painted,
                candidate_painted,
                x,
                y,
            );
            &&& pixel.base_valid == (base_mask.at(candidate.left + x, candidate.top + y) != 0)
            &&& pixel.candidate_valid == (candidate.mask.at(x, y) != 0)
            &&& pixel.decided == (decision.at(x, y) != 0)
            &&& candidate.foreground_mask.at(x, y) != 0 ==> pixel.foreground
            &&& is_guarded(
                merged_foreground,
                candidate.left,
                candidate.top,
                candidate.image.width,
                candidate.image.height,
                overlap_radius,
                x,
                y,
            ) ==> pixel.foreground
            &&& pixel.foreground && candidate.foreground_mask.at(x, y) == 0 ==> is_guarded(
                merged_foreground,
                candidate.left,
                candidate.top,
                candidate.image.width,
                candidate.image.height,
                overlap_radius,
                x,
                y,
            )
            &&& pixel.base_painted == base_painted
            &&& pixel.candidate_painted == candidate_painted
        }),
{
}

/// The overlap that is blended lies on the canvas: it ends where the overlap does, or where the
/// canvas does if that comes first. A seam that runs from side to side needs a position for every
/// column of it, one that runs from top to bottom for every row.
pub proof fn law_blended_overlaps_lie_on_the_canvas(
    out_width: int,
    out_height: int,
    min_x: int,
    max_x: int,
    min_y: int,
    max_y: int,
    seam_length: int,
)
    requires
        0 < out_width,
        0 < out_height,
    ensures
        ({
            let (left, right, top, bottom) = overlap_on_canvas(
                out_width,
                out_height,
                min_x,
                max_x,
                min_y,
                max_y,
            );
            &&& left < out_width && left <= min_x && (left == min_x || left == out_width - 1)
            &&& right < out_width && right <= max_x && (right == max_x || right == out_width - 1)
            &&& top < out_height && top <= min_y && (top == min_y || top == out_height - 1)
            &&& bottom < out_height && bottom <= max_y && (bottom == max_y || bottom == out_height - 1)
            &&& seam_reaches(SeamOrientation::Horizontal, seam_length, right, bottom)
                <==> seam_length >= right + 1
            &&& seam_reaches(SeamOrientation::Vertical, seam_length, right, bottom)
                <==> seam_length >= bottom + 1
        }),
{
}

} // verus!
