//! Rendered layers of a focus stack and their placement on the merged canvas.

use vstd::prelude::*;

use crate::bounds::Bounds;
use crate::grid::cell;
use crate::grid::lemma_cell;
use crate::raster::Raster;
use crate::raster::fits_inside;
use crate::raster::in_region;
use crate::raster::region_fits;
use crate::raster::update_cells;
use crate::raster::update_region;

verus! {

/// One source of a focus stack, warped into the frame of the canvas.
pub struct RenderedFocusLayer<P> {
    pub image: Raster<P>,
    pub mask: Raster<u8>,
    pub foreground_mask: Raster<u8>,
    /// Foreground pixels of a repeated long edge, which may be switched between
    /// aligned sources. Other foreground belongs to the first source that has it.
    pub relaxed_foreground_mask: Raster<u8>,
    pub left: u32,
    pub top: u32,
}

impl<P> RenderedFocusLayer<P> {
    /// The image and its masks have one size.
    pub open spec fn well_formed(&self) -> bool {
        &&& self.image.well_formed()
        &&& self.mask.well_formed()
        &&& self.foreground_mask.well_formed()
        &&& self.relaxed_foreground_mask.well_formed()
        &&& self.mask.same_size(&self.image)
        &&& self.foreground_mask.same_size(&self.image)
        &&& self.relaxed_foreground_mask.same_size(&self.image)
    }

    /// The layer is not empty and lies inside of a canvas of this size.
    pub open spec fn fits(&self, width: int, height: int) -> bool {
        fits_inside(
            self.left as int,
            self.top as int,
            self.image.width as int,
            self.image.height as int,
            width,
            height,
        )
    }

    /// The layer covers this pixel of the canvas.
    pub open spec fn covers(&self, x: int, y: int) -> bool {
        in_region(
            self.left as int,
            self.top as int,
            self.image.width as int,
            self.image.height as int,
            x,
            y,
        )
    }
}

/// The candidate pixel replaces the base pixel.
pub open spec fn takes_candidate(base_valid: u8, candidate_valid: u8, decision: u8) -> bool {
    candidate_valid > 0 && (base_valid == 0 || decision > 0)
}

/// Copies candidate pixels over the base where the candidate is valid and the
/// base is not, or where the decision is for the candidate.
pub fn hard_select_focus_pixels<P: Copy>(
    base: &mut Raster<P>,
    base_mask: &mut Raster<u8>,
    candidate: &Raster<P>,
    candidate_mask: &Raster<u8>,
    decision_mask: &Raster<u8>,
)
    requires
        old(base).well_formed(),
        old(base_mask).well_formed(),
        candidate.well_formed(),
        candidate_mask.well_formed(),
        decision_mask.well_formed(),
        candidate.same_size(old(base)),
        old(base_mask).same_size(old(base)),
        candidate_mask.same_size(old(base)),
        decision_mask.same_size(old(base)),
    ensures
        final(base).well_formed(),
        final(base_mask).well_formed(),
        final(base).same_size(old(base)),
        final(base_mask).same_size(old(base)),
        forall|i: int|
            0 <= i < old(base).pixels@.len() ==> #[trigger] final(base).pixels@[i]
                == if takes_candidate(
                old(base_mask).pixels@[i],
                candidate_mask.pixels@[i],
                decision_mask.pixels@[i],
            ) {
                candidate.pixels@[i]
            } else {
                old(base).pixels@[i]
            },
        forall|i: int|
            0 <= i < old(base).pixels@.len() ==> #[trigger] final(base_mask).pixels@[i]
                == if candidate_mask.pixels@[i] > 0 {
                255
            } else {
                old(base_mask).pixels@[i]
            },
{
    let size: usize = base.pixels.len();
    let covered: &Vec<u8> = &base_mask.pixels;
    update_cells(
        &mut base.pixels,
        |i: usize, pixel: P| -> (next: P)
            requires
                i < size,
                candidate.pixels@.len() == size,
                candidate_mask.pixels@.len() == size,
                decision_mask.pixels@.len() == size,
                covered@.len() == size,
            ensures
                next == if takes_candidate(
                    covered@[i as int],
                    candidate_mask.pixels@[i as int],
                    decision_mask.pixels@[i as int],
                ) {
                    candidate.pixels@[i as int]
                } else {
                    pixel
                }
            {
                if candidate_mask.pixels[i] > 0 && (covered[i] == 0 || decision_mask.pixels[i] > 0) {
                    candidate.pixels[i]
                } else {
                    pixel
                }
            },
    );
    update_cells(
        &mut base_mask.pixels,
        |i: usize, valid: u8| -> (next: u8)
            requires
                i < candidate_mask.pixels@.len(),
            ensures
                next == if candidate_mask.pixels@[i as int] > 0 {
                    255
                } else {
                    valid
                }
            {
                if candidate_mask.pixels[i] > 0 {
                    255
                } else {
                    valid
                }
            },
    );
}

/// Places the first layer: its pixels and its mask replace those of the canvas.
/// A layer that does not fit is left out.
pub fn place_focus_layer<P: Copy>(
    base: &mut Raster<P>,
    base_mask: &mut Raster<u8>,
    candidate: &RenderedFocusLayer<P>,
)
    requires
        old(base).well_formed(),
        old(base_mask).well_formed(),
        old(base_mask).same_size(old(base)),
        candidate.well_formed(),
    ensures
        final(base).well_formed(),
        final(base_mask).well_formed(),
        final(base).same_size(old(base)),
        final(base_mask).same_size(old(base)),
        forall|x: int, y: int|
            0 <= x < old(base).width && 0 <= y < old(base).height ==> #[trigger] final(base).at(x, y)
                == if candidate.fits(old(base).width as int, old(base).height as int)
                && candidate.covers(x, y) {
                candidate.image.at(x - candidate.left, y - candidate.top)
            } else {
                old(base).at(x, y)
            },
        forall|x: int, y: int|
            0 <= x < old(base).width && 0 <= y < old(base).height ==> #[trigger] final(base_mask).at(
                x,
                y,
            ) == if candidate.fits(old(base).width as int, old(base).height as int)
                && candidate.covers(x, y) {
                candidate.mask.at(x - candidate.left, y - candidate.top)
            } else {
                old(base_mask).at(x, y)
            },
{
    let width: u32 = candidate.image.width;
    let height: u32 = candidate.image.height;
    if !region_fits(candidate.left, candidate.top, width, height, base.width, base.height) {
        return ;
    }
    copy_region(base, candidate.left, candidate.top, &candidate.image);
    copy_region(base_mask, candidate.left, candidate.top, &candidate.mask);
}

/// Copies an image into a larger one.
pub fn copy_region<P: Copy>(base: &mut Raster<P>, left: u32, top: u32, part: &Raster<P>)
    requires
        old(base).well_formed(),
        part.well_formed(),
        fits_inside(
            left as int,
            top as int,
            part.width as int,
            part.height as int,
            old(base).width as int,
            old(base).height as int,
        ),
    ensures
        final(base).well_formed(),
        final(base).same_size(old(base)),
        forall|x: int, y: int|
            0 <= x < old(base).width && 0 <= y < old(base).height ==> #[trigger] final(base).at(x, y)
                == if in_region(
                left as int,
                top as int,
                part.width as int,
                part.height as int,
                x,
                y,
            ) {
                part.at(x - left, y - top)
            } else {
                old(base).at(x, y)
            },
{
    let ghost (w, h) = (part.width as int, part.height as int);
    let size: usize = part.pixels.len();
    proof {
        assert forall|a: int, b: int| in_region(left as int, top as int, w, h, a, b) implies 0
            <= #[trigger] cell(w, a - left, b - top) < size by {
            lemma_cell(w, h, a - left, b - top);
        }
    }
    update_region(
        base,
        left,
        top,
        part.width,
        part.height,
        |local: usize, global: usize, pixel: P| -> (next: P)
            requires
                local < part.pixels@.len(),
            ensures
                next == part.pixels@[local as int]
            { part.pixels[local] },
    );
}

/// Places the foreground of the first layer.
pub fn place_focus_foreground_mask<P: Copy>(base: &mut Raster<u8>, candidate: &RenderedFocusLayer<P>)
    requires
        old(base).well_formed(),
        candidate.well_formed(),
    ensures
        final(base).well_formed(),
        final(base).same_size(old(base)),
        forall|x: int, y: int|
            0 <= x < old(base).width && 0 <= y < old(base).height ==> #[trigger] final(base).at(x, y)
                == if candidate.fits(old(base).width as int, old(base).height as int)
                && candidate.covers(x, y) {
                candidate.foreground_mask.at(x - candidate.left, y - candidate.top)
            } else {
                old(base).at(x, y)
            },
{
    let width: u32 = candidate.foreground_mask.width;
    let height: u32 = candidate.foreground_mask.height;
    if !region_fits(candidate.left, candidate.top, width, height, base.width, base.height) {
        return ;
    }
    copy_region(base, candidate.left, candidate.top, &candidate.foreground_mask);
}

/// The pixel of the layer lies in the patch with these first and last columns and
/// rows.
pub open spec fn in_patch(
    left: u32,
    right: u32,
    top: u32,
    bottom: u32,
    x: int,
    y: int,
) -> bool {
    left <= x <= right && top <= y <= bottom
}

/// The layer pixel under a canvas pixel, as an index into the layer.
spec fn local_cell<P>(candidate: &RenderedFocusLayer<P>, x: int, y: int) -> int {
    cell(candidate.image.width as int, x - candidate.left, y - candidate.top)
}

proof fn lemma_local<P>(candidate: &RenderedFocusLayer<P>, x: int, y: int)
    requires
        candidate.well_formed(),
        candidate.covers(x, y),
    ensures
        0 <= local_cell(candidate, x, y) < candidate.image.pixels@.len(),
        local_cell(candidate, x, y) % candidate.image.width as int == x - candidate.left,
        local_cell(candidate, x, y) / candidate.image.width as int == y - candidate.top,
{
    lemma_cell(
        candidate.image.width as int,
        candidate.image.height as int,
        x - candidate.left,
        y - candidate.top,
    );
}

/// Gives every pixel of the canvas outside of a patch of the layer to the source
/// that owns it. The patch is empty where its first column or row comes after the
/// last.
pub fn hard_select_focus_layer_outside_patch<P: Copy>(
    base: &mut Raster<P>,
    base_mask: &mut Raster<u8>,
    candidate: &RenderedFocusLayer<P>,
    decision_mask: &Raster<u8>,
    excluded_left: u32,
    excluded_right: u32,
    excluded_top: u32,
    excluded_bottom: u32,
)
    requires
        old(base).well_formed(),
        old(base_mask).well_formed(),
        old(base_mask).same_size(old(base)),
        candidate.well_formed(),
        decision_mask.well_formed(),
        decision_mask.same_size(&candidate.image),
    ensures
        final(base).well_formed(),
        final(base_mask).well_formed(),
        final(base).same_size(old(base)),
        final(base_mask).same_size(old(base)),
        forall|x: int, y: int|
            0 <= x < old(base).width && 0 <= y < old(base).height ==> #[trigger] final(base).at(x, y)
                == if candidate.fits(old(base).width as int, old(base).height as int)
                && candidate.covers(x, y) && !in_patch(
                excluded_left,
                excluded_right,
                excluded_top,
                excluded_bottom,
                x - candidate.left,
                y - candidate.top,
            ) && takes_candidate(
                old(base_mask).at(x, y),
                candidate.mask.at(x - candidate.left, y - candidate.top),
                decision_mask.at(x - candidate.left, y - candidate.top),
            ) {
                candidate.image.at(x - candidate.left, y - candidate.top)
            } else {
                old(base).at(x, y)
            },
        forall|x: int, y: int|
            0 <= x < old(base).width && 0 <= y < old(base).height ==> #[trigger] final(base_mask).at(
                x,
                y,
            ) == if candidate.fits(old(base).width as int, old(base).height as int)
                && candidate.covers(x, y) && !in_patch(
                excluded_left,
                excluded_right,
                excluded_top,
                excluded_bottom,
                x - candidate.left,
                y - candidate.top,
            ) && candidate.mask.at(x - candidate.left, y - candidate.top) > 0 {
                255
            } else {
                old(base_mask).at(x, y)
            },
{
    let width: u32 = candidate.image.width;
    let height: u32 = candidate.image.height;
    if !region_fits(candidate.left, candidate.top, width, height, base.width, base.height) {
        return ;
    }
    let layer_size: usize = candidate.image.pixels.len();
    let canvas_size: usize = base.pixels.len();
    let stride: usize = width as usize;
    let covered: &Vec<u8> = &base_mask.pixels;
    proof {
        assert forall|a: int, b: int| candidate.covers(a, b) implies 0 <= #[trigger] cell(
            width as int,
            a - candidate.left,
            b - candidate.top,
        ) < layer_size by {
            lemma_local(candidate, a, b);
        }
        assert forall|a: int, b: int|
            0 <= a < base.width && 0 <= b < base.height implies 0 <= #[trigger] cell(
            base.width as int,
            a,
            b,
        ) < base.pixels@.len() by {
            lemma_cell(base.width as int, base.height as int, a, b);
        }
        assert forall|a: int, b: int| candidate.covers(a, b) implies #[trigger] cell(
            width as int,
            a - candidate.left,
            b - candidate.top,
        ) % (stride as int) == a - candidate.left && cell(
            width as int,
            a - candidate.left,
            b - candidate.top,
        ) / (stride as int) == b - candidate.top by {
            lemma_local(candidate, a, b);
        }
    }
    update_region(
        base,
        candidate.left,
        candidate.top,
        width,
        height,
        |local: usize, global: usize, pixel: P| -> (next: P)
            requires
                stride > 0,
                local < layer_size,
                candidate.image.pixels@.len() == layer_size,
                candidate.mask.pixels@.len() == layer_size,
                decision_mask.pixels@.len() == layer_size,
                global < covered@.len(),
            ensures
                next == if !in_patch(
                    excluded_left,
                    excluded_right,
                    excluded_top,
                    excluded_bottom,
                    local as int % stride as int,
                    local as int / stride as int,
                ) && takes_candidate(
                    covered@[global as int],
                    candidate.mask.pixels@[local as int],
                    decision_mask.pixels@[local as int],
                ) {
                    candidate.image.pixels@[local as int]
                } else {
                    pixel
                }
            {
                let x: usize = local % stride;
                let y: usize = local / stride;
                let excluded: bool = x >= excluded_left as usize && x <= excluded_right as usize && y
                    >= excluded_top as usize && y <= excluded_bottom as usize;
                if !excluded && candidate.mask.pixels[local] > 0 && (covered[global] == 0
                    || decision_mask.pixels[local] > 0) {
                    candidate.image.pixels[local]
                } else {
                    pixel
                }
            },
    );
    update_region(
        base_mask,
        candidate.left,
        candidate.top,
        width,
        height,
        |local: usize, global: usize, valid: u8| -> (next: u8)
            requires
                stride > 0,
                local < candidate.mask.pixels@.len(),
            ensures
                next == if !in_patch(
                    excluded_left,
                    excluded_right,
                    excluded_top,
                    excluded_bottom,
                    local as int % stride as int,
                    local as int / stride as int,
                ) && candidate.mask.pixels@[local as int] > 0 {
                    255
                } else {
                    valid
                }
            {
                let x: usize = local % stride;
                let y: usize = local / stride;
                let excluded: bool = x >= excluded_left as usize && x <= excluded_right as usize && y
                    >= excluded_top as usize && y <= excluded_bottom as usize;
                if !excluded && candidate.mask.pixels[local] > 0 {
                    255
                } else {
                    valid
                }
            },
    );
}

/// Gives every pixel of the canvas to the source that owns it: the candidate
/// where it is valid and the canvas is not, or where the decision is for it.
pub fn hard_select_focus_layer<P: Copy>(
    base: &mut Raster<P>,
    base_mask: &mut Raster<u8>,
    candidate: &RenderedFocusLayer<P>,
    decision_mask: &Raster<u8>,
)
    requires
        old(base).well_formed(),
        old(base_mask).well_formed(),
        old(base_mask).same_size(old(base)),
        candidate.well_formed(),
        decision_mask.well_formed(),
        decision_mask.same_size(&candidate.image),
    ensures
        final(base).well_formed(),
        final(base_mask).well_formed(),
        final(base).same_size(old(base)),
        final(base_mask).same_size(old(base)),
        forall|x: int, y: int|
            0 <= x < old(base).width && 0 <= y < old(base).height ==> #[trigger] final(base).at(x, y)
                == if candidate.fits(old(base).width as int, old(base).height as int)
                && candidate.covers(x, y) && takes_candidate(
                old(base_mask).at(x, y),
                candidate.mask.at(x - candidate.left, y - candidate.top),
                decision_mask.at(x - candidate.left, y - candidate.top),
            ) {
                candidate.image.at(x - candidate.left, y - candidate.top)
            } else {
                old(base).at(x, y)
            },
        forall|x: int, y: int|
            0 <= x < old(base).width && 0 <= y < old(base).height ==> #[trigger] final(base_mask).at(
                x,
                y,
            ) == if candidate.fits(old(base).width as int, old(base).height as int)
                && candidate.covers(x, y) && candidate.mask.at(
                x - candidate.left,
                y - candidate.top,
            ) > 0 {
                255
            } else {
                old(base_mask).at(x, y)
            },
{
    hard_select_focus_layer_outside_patch(base, base_mask, candidate, decision_mask, 1, 0, 1, 0);
}

/// Records the candidate as owner of the pixels that were decided for it.
pub fn mark_focus_owner_pixels<P: Copy>(
    owner: &mut Raster<u8>,
    candidate: &RenderedFocusLayer<P>,
    decision_mask: &Raster<u8>,
    owner_id: u8,
)
    requires
        old(owner).well_formed(),
        candidate.well_formed(),
        decision_mask.well_formed(),
    ensures
        final(owner).well_formed(),
        final(owner).same_size(old(owner)),
        forall|x: int, y: int|
            0 <= x < old(owner).width && 0 <= y < old(owner).height ==> #[trigger] final(owner).at(
                x,
                y,
            ) == if candidate.fits(old(owner).width as int, old(owner).height as int)
                && decision_mask.same_size(&candidate.image) && candidate.covers(x, y)
                && candidate.mask.at(x - candidate.left, y - candidate.top) > 0
                && decision_mask.at(x - candidate.left, y - candidate.top) > 0 {
                owner_id
            } else {
                old(owner).at(x, y)
            },
{
    let width: u32 = candidate.image.width;
    let height: u32 = candidate.image.height;
    if decision_mask.width != width || decision_mask.height != height || !region_fits(
        candidate.left,
        candidate.top,
        width,
        height,
        owner.width,
        owner.height,
    ) {
        return ;
    }
    let layer_size: usize = candidate.image.pixels.len();
    proof {
        assert forall|a: int, b: int| candidate.covers(a, b) implies 0 <= #[trigger] cell(
            width as int,
            a - candidate.left,
            b - candidate.top,
        ) < layer_size by {
            lemma_local(candidate, a, b);
        }
    }
    update_region(
        owner,
        candidate.left,
        candidate.top,
        width,
        height,
        |local: usize, global: usize, current: u8| -> (next: u8)
            requires
                local < layer_size,
                candidate.mask.pixels@.len() == layer_size,
                decision_mask.pixels@.len() == layer_size,
            ensures
                next == if candidate.mask.pixels@[local as int] > 0
                    && decision_mask.pixels@[local as int] > 0 {
                    owner_id
                } else {
                    current
                }
            {
                if candidate.mask.pixels[local] > 0 && decision_mask.pixels[local] > 0 {
                    owner_id
                } else {
                    current
                }
            },
    );
}

/// Adds to the merged foreground the foreground of a candidate where the canvas
/// was empty or the decision is for the candidate.
pub fn mark_focus_foreground_pixels_in_region(
    merged_foreground_mask: &mut Raster<u8>,
    merged_mask: &Raster<u8>,
    candidate_left: u32,
    candidate_top: u32,
    candidate_foreground_mask: &Raster<u8>,
    decision_mask: &Raster<u8>,
)
    requires
        old(merged_foreground_mask).well_formed(),
        merged_mask.well_formed(),
        merged_mask.same_size(old(merged_foreground_mask)),
        candidate_foreground_mask.well_formed(),
        decision_mask.well_formed(),
        decision_mask.same_size(candidate_foreground_mask),
    ensures
        final(merged_foreground_mask).well_formed(),
        final(merged_foreground_mask).same_size(old(merged_foreground_mask)),
        forall|x: int, y: int|
            0 <= x < old(merged_foreground_mask).width && 0 <= y < old(merged_foreground_mask).height
                ==> #[trigger] final(merged_foreground_mask).at(x, y) == if fits_inside(
                candidate_left as int,
                candidate_top as int,
                candidate_foreground_mask.width as int,
                candidate_foreground_mask.height as int,
                old(merged_foreground_mask).width as int,
                old(merged_foreground_mask).height as int,
            ) && in_region(
                candidate_left as int,
                candidate_top as int,
                candidate_foreground_mask.width as int,
                candidate_foreground_mask.height as int,
                x,
                y,
            ) && takes_candidate(
                merged_mask.at(x, y),
                candidate_foreground_mask.at(x - candidate_left, y - candidate_top),
                decision_mask.at(x - candidate_left, y - candidate_top),
            ) {
                255
            } else {
                old(merged_foreground_mask).at(x, y)
            },
{
    let width: u32 = candidate_foreground_mask.width;
    let height: u32 = candidate_foreground_mask.height;
    if !region_fits(
        candidate_left,
        candidate_top,
        width,
        height,
        merged_foreground_mask.width,
        merged_foreground_mask.height,
    ) {
        return ;
    }
    let layer_size: usize = candidate_foreground_mask.pixels.len();
    let canvas_size: usize = merged_foreground_mask.pixels.len();
    let ghost (w, h) = (width as int, height as int);
    proof {
        assert forall|a: int, b: int|
            in_region(candidate_left as int, candidate_top as int, w, h, a, b) implies 0
            <= #[trigger] cell(w, a - candidate_left, b - candidate_top) < layer_size by {
            lemma_cell(w, h, a - candidate_left, b - candidate_top);
        }
        assert forall|a: int, b: int|
            0 <= a < merged_mask.width && 0 <= b < merged_mask.height implies 0 <= #[trigger] cell(
            merged_mask.width as int,
            a,
            b,
        ) < canvas_size by {
            lemma_cell(merged_mask.width as int, merged_mask.height as int, a, b);
        }
    }
    update_region(
        merged_foreground_mask,
        candidate_left,
        candidate_top,
        width,
        height,
        |local: usize, global: usize, current: u8| -> (next: u8)
            requires
                local < layer_size,
                global < canvas_size,
                candidate_foreground_mask.pixels@.len() == layer_size,
                decision_mask.pixels@.len() == layer_size,
                merged_mask.pixels@.len() == canvas_size,
            ensures
                next == if takes_candidate(
                    merged_mask.pixels@[global as int],
                    candidate_foreground_mask.pixels@[local as int],
                    decision_mask.pixels@[local as int],
                ) {
                    255
                } else {
                    current
                }
            {
                if candidate_foreground_mask.pixels[local] > 0 && (merged_mask.pixels[global] == 0
                    || decision_mask.pixels[local] > 0) {
                    255
                } else {
                    current
                }
            },
    );
}

/// Adds the foreground of a layer to the merged foreground.
pub fn mark_focus_foreground_pixels<P: Copy>(
    merged_foreground_mask: &mut Raster<u8>,
    merged_mask: &Raster<u8>,
    candidate: &RenderedFocusLayer<P>,
    decision_mask: &Raster<u8>,
)
    requires
        old(merged_foreground_mask).well_formed(),
        merged_mask.well_formed(),
        merged_mask.same_size(old(merged_foreground_mask)),
        candidate.well_formed(),
        decision_mask.well_formed(),
        decision_mask.same_size(&candidate.image),
    ensures
        final(merged_foreground_mask).well_formed(),
        final(merged_foreground_mask).same_size(old(merged_foreground_mask)),
        forall|x: int, y: int|
            0 <= x < old(merged_foreground_mask).width && 0 <= y < old(merged_foreground_mask).height
                ==> #[trigger] final(merged_foreground_mask).at(x, y) == if candidate.fits(
                old(merged_foreground_mask).width as int,
                old(merged_foreground_mask).height as int,
            ) && candidate.covers(x, y) && takes_candidate(
                merged_mask.at(x, y),
                candidate.foreground_mask.at(x - candidate.left, y - candidate.top),
                decision_mask.at(x - candidate.left, y - candidate.top),
            ) {
                255
            } else {
                old(merged_foreground_mask).at(x, y)
            },
{
    mark_focus_foreground_pixels_in_region(
        merged_foreground_mask,
        merged_mask,
        candidate.left,
        candidate.top,
        &candidate.foreground_mask,
        decision_mask,
    );
}

/// Who supplies a pixel: nobody but the canvas where the candidate is not valid, the candidate
/// where it alone is, and where both are the one that the decision is for.
pub proof fn law_valid_sources_supply_their_pixels(
    base_valid: u8,
    candidate_valid: u8,
    decision: u8,
)
    ensures
        candidate_valid == 0 ==> !takes_candidate(base_valid, candidate_valid, decision),
        candidate_valid != 0 && base_valid == 0 ==> takes_candidate(
            base_valid,
            candidate_valid,
            decision,
        ),
        candidate_valid != 0 && base_valid != 0 ==> takes_candidate(
            base_valid,
            candidate_valid,
            decision,
        ) == (decision != 0),
{
}

/// A patch holds the pixels of the box with the same sides.
pub proof fn law_patches_are_boxes(bounds: Bounds, x: int, y: int)
    ensures
        in_patch(bounds.left, bounds.right, bounds.top, bounds.bottom, x, y) <==> bounds.contains(
            x,
            y,
        ),
        in_patch(bounds.left, bounds.right, bounds.top, bounds.bottom, x, y) ==> bounds.left <= x <= bounds.right
            && bounds.top <= y <= bounds.bottom,
        bounds.left <= x <= bounds.right && bounds.top <= y <= bounds.bottom ==> in_patch(
            bounds.left,
            bounds.right,
            bounds.top,
            bounds.bottom,
            x,
            y,
        ),
{
}

} // verus!
