//! Guards on the ownership of canvas pixels: a foreground object that one source
//! supplied is not replaced by the same object of a later source.

use vstd::prelude::*;

use crate::focus_layer::RenderedFocusLayer;
use crate::grid::cell;
use crate::grid::lemma_cell;
use crate::grid::lemma_split;
use crate::raster::fits_inside;
use crate::raster::region_fits;
use crate::raster::update_cells;
use crate::raster::Raster;
use crate::window::box_count;
use crate::window::box_counts;
use crate::window::lemma_box_count_positive;
use crate::window::set_nearby;

verus! {

/// A pixel of the merged foreground lies within `radius` columns and rows of the
/// pixel in column `x` of row `y` of a layer, in a row that the layer covers.
pub open spec fn owned_nearby(
    merged: &Raster<u8>,
    left: int,
    top: int,
    layer_height: int,
    radius: int,
    x: int,
    y: int,
) -> bool {
    exists|a: int, b: int|
        #![trigger merged.at(a, b)]
        0 <= a < merged.width && top <= b < top + layer_height && left + x - radius <= a <= left + x
            + radius && top + y - radius <= b <= top + y + radius && merged.at(a, b) > 0
}

/// The layer lies on the canvas and its pixel is near to foreground that is
/// owned.
pub open spec fn is_guarded(
    merged: &Raster<u8>,
    left: u32,
    top: u32,
    layer_width: u32,
    layer_height: u32,
    radius: usize,
    x: int,
    y: int,
) -> bool {
    fits_inside(
        left as int,
        top as int,
        layer_width as int,
        layer_height as int,
        merged.width as int,
        merged.height as int,
    ) && owned_nearby(
        merged,
        left as int,
        top as int,
        layer_height as int,
        radius as int,
        x,
        y,
    )
}

/// Marks with 1 the pixels of a layer that lie near to foreground which is owned
/// already; all 0 where the layer does not lie on the canvas.
pub fn focus_foreground_overlap_mask_for_region(
    merged_foreground_mask: &Raster<u8>,
    candidate_left: u32,
    candidate_top: u32,
    layer_width: u32,
    layer_height: u32,
    radius: usize,
) -> (overlap: Vec<u8>)
    requires
        merged_foreground_mask.well_formed(),
        layer_width * layer_height <= usize::MAX,
        radius <= 0x3fff_ffff,
    ensures
        overlap@.len() == layer_width * layer_height,
        forall|x: int, y: int|
            #![trigger overlap@[cell(layer_width as int, x, y)]]
            0 <= x < layer_width && 0 <= y < layer_height ==> overlap@[cell(
                layer_width as int,
                x,
                y,
            )] == if is_guarded(
                merged_foreground_mask,
                candidate_left,
                candidate_top,
                layer_width,
                layer_height,
                radius,
                x,
                y,
            ) {
                1u8
            } else {
                0u8
            },
{
    let blank: Raster<u8> = Raster::filled(layer_width, layer_height, 0u8);
    let mut overlap: Vec<u8> = blank.pixels;
    let size: usize = overlap.len();
    let ghost lw = layer_width as int;
    let ghost lh = layer_height as int;
    proof {
        assert forall|x: int, y: int|
            #![trigger overlap@[cell(lw, x, y)]]
            0 <= x < lw && 0 <= y < lh implies overlap@[cell(lw, x, y)] == 0 by {
            lemma_cell(lw, lh, x, y);
        }
    }
    if !region_fits(
        candidate_left,
        candidate_top,
        layer_width,
        layer_height,
        merged_foreground_mask.width,
        merged_foreground_mask.height,
    ) {
        return overlap;
    }
    let first: u32 = if (candidate_left as usize) < radius {
        0
    } else {
        candidate_left - (radius as u32)
    };
    let end: u64 = (candidate_left as u64) + (layer_width as u64) + (radius as u64);
    let last: u32 = if end > merged_foreground_mask.width as u64 {
        merged_foreground_mask.width
    } else {
        end as u32
    };
    let strip: Raster<u8> = merged_foreground_mask.crop(
        first,
        candidate_top,
        last - first,
        layer_height,
    );
    let counts: Vec<u64> = box_counts(
        &strip.pixels,
        strip.width as usize,
        strip.height as usize,
        radius,
    );
    let ghost sw = strip.width as int;
    let shift: usize = (candidate_left - first) as usize;
    let stride: usize = strip.width as usize;
    let width: usize = layer_width as usize;
    proof {
        assert forall|x: int, y: int| 0 <= x < lw && 0 <= y < lh implies set_nearby(
            strip.pixels@,
            sw,
            lh,
            shift + x,
            y,
            radius as int,
        ) == #[trigger] owned_nearby(
            merged_foreground_mask,
            candidate_left as int,
            candidate_top as int,
            lh,
            radius as int,
            x,
            y,
        ) by {
            lemma_strip(
                merged_foreground_mask,
                &strip,
                candidate_left as int,
                candidate_top as int,
                lw,
                lh,
                radius as int,
                first as int,
                x,
                y,
            );
        }
    }
    let counted: usize = counts.len();
    update_cells(
        &mut overlap,
        |i: usize, current: u8| -> (next: u8)
            requires
                i < size,
                size == lw * lh,
                width == lw,
                width > 0,
                stride == sw,
                shift + width <= stride,
                counts@.len() == sw * lh,
                counts@.len() == counted,
            ensures
                next == if counts@[cell(sw, shift + i as int % lw, i as int / lw)] > 0 {
                    1u8
                } else {
                    0u8
                }
            {
                proof {
                    lemma_split(lw, lh, i as int);
                    lemma_cell(sw, lh, shift + i as int % lw, i as int / lw);
                }
                let x: usize = i % width;
                let y: usize = i / width;
                if counts[y * stride + (shift + x)] > 0 {
                    1
                } else {
                    0
                }
            },
    );
    proof {
        assert forall|x: int, y: int|
            #![trigger overlap@[cell(lw, x, y)]]
            0 <= x < lw && 0 <= y < lh implies overlap@[cell(lw, x, y)] == if is_guarded(
            merged_foreground_mask,
            candidate_left,
            candidate_top,
            layer_width,
            layer_height,
            radius,
            x,
            y,
        ) {
            1u8
        } else {
            0u8
        } by {
            lemma_cell(lw, lh, x, y);
            lemma_cell(sw, lh, shift + x, y);
            lemma_box_count_positive(strip.pixels@, sw, lh, shift + x, y, radius as int);
            assert(counts@[cell(sw, shift + x, y)] == box_count(
                strip.pixels@,
                sw,
                lh,
                shift + x,
                y,
                radius as int,
            ));
            assert(owned_nearby(
                merged_foreground_mask,
                candidate_left as int,
                candidate_top as int,
                lh,
                radius as int,
                x,
                y,
            ) == set_nearby(strip.pixels@, sw, lh, shift + x, y, radius as int));
        }
    }
    overlap
}

proof fn lemma_strip(
    merged: &Raster<u8>,
    strip: &Raster<u8>,
    left: int,
    top: int,
    lw: int,
    lh: int,
    radius: int,
    first: int,
    x: int,
    y: int,
)
    requires
        merged.well_formed(),
        strip.well_formed(),
        strip.height == lh,
        0 <= left,
        0 <= top,
        0 <= radius,
        left + lw <= merged.width,
        top + lh <= merged.height,
        first == if left < radius {
            0
        } else {
            left - radius
        },
        first + strip.width == if left + lw + radius > merged.width {
            merged.width as int
        } else {
            left + lw + radius
        },
        forall|a: int, b: int|
            0 <= a < strip.width && 0 <= b < strip.height ==> #[trigger] strip.at(a, b) == merged.at(
                first + a,
                top + b,
            ),
        0 <= x < lw,
        0 <= y < lh,
    ensures
        set_nearby(
            strip.pixels@,
            strip.width as int,
            strip.height as int,
            left - first + x,
            y,
            radius,
        ) == owned_nearby(merged, left, top, lh, radius, x, y),
{
    let sw = strip.width as int;
    if set_nearby(strip.pixels@, sw, lh, left - first + x, y, radius) {
        let (a, b) = choose|a: int, b: int|
            #![trigger cell(sw, a, b)]
            0 <= a < sw && 0 <= b < lh && left - first + x - radius <= a <= left - first + x + radius
                && y - radius <= b <= y + radius && strip.pixels@[cell(sw, a, b)] > 0;
        assert(strip.at(a, b) > 0);
        assert(merged.at(first + a, top + b) > 0);
    }
    if owned_nearby(merged, left, top, lh, radius, x, y) {
        let (a, b) = choose|a: int, b: int|
            #![trigger merged.at(a, b)]
            0 <= a < merged.width && top <= b < top + lh && left + x - radius <= a <= left + x
                + radius && top + y - radius <= b <= top + y + radius && merged.at(a, b) > 0;
        assert(strip.at(a - first, b - top) == merged.at(a, b));
        assert(strip.pixels@[cell(sw, a - first, b - top)] > 0);
    }
}

/// All pixels of the image within `radius` columns and rows are set.
pub open spec fn is_interior(
    mask: Seq<u8>,
    width: int,
    height: int,
    radius: int,
    x: int,
    y: int,
) -> bool {
    forall|a: int, b: int|
        #![trigger cell(width, a, b)]
        0 <= a < width && 0 <= b < height && x - radius <= a <= x + radius && y - radius <= b <= y
            + radius ==> mask[cell(width, a, b)] > 0
}

/// Marks with 1 the set pixels that are not interior: the band along the
/// silhouette. For a radius of 0 the mask comes back as it is; for a mask of
/// another size, nothing does.
pub fn focus_foreground_edge_mask(mask: &Vec<u8>, width: u32, height: u32, radius: usize) -> (edge:
    Vec<u8>)
    requires
        radius <= 0x3fff_ffff,
    ensures
        width == 0 || height == 0 || mask@.len() != width * height ==> edge@.len() == 0,
        0 < width && 0 < height && mask@.len() == width * height ==> {
            &&& edge@.len() == mask@.len()
            &&& radius == 0 ==> edge@ == mask@
            &&& radius > 0 ==> forall|x: int, y: int|
                #![trigger edge@[cell(width as int, x, y)]]
                0 <= x < width && 0 <= y < height ==> edge@[cell(width as int, x, y)] == if mask@[cell(
                    width as int,
                    x,
                    y,
                )] > 0 && !is_interior(
                    mask@,
                    width as int,
                    height as int,
                    radius as int,
                    x,
                    y,
                ) {
                    1u8
                } else {
                    0u8
                }
        },
{
    let size: usize = mask.len();
    assert(0 <= width * height <= 0xffff_ffff * 0xffff_ffff) by (nonlinear_arith)
        requires
            0 <= width <= 0xffff_ffff,
            0 <= height <= 0xffff_ffff,
    ;
    if width == 0 || height == 0 || size as u128 != (width as u128) * (height as u128) {
        return Vec::new();
    }
    let mut edge: Vec<u8> = Vec::new();
    let mut inverse: Vec<u8> = Vec::new();
    let mut i: usize = 0;
    while i < size
        invariant
            i <= size,
            size == mask@.len(),
            edge@ == mask@.take(i as int),
            inverse@.len() == i,
            forall|j: int|
                0 <= j < i ==> #[trigger] inverse@[j] == if mask@[j] > 0 {
                    0u8
                } else {
                    1u8
                },
        decreases size - i,
    {
        edge.push(mask[i]);
        inverse.push(
            if mask[i] > 0 {
                0
            } else {
                1
            },
        );
        i += 1;
        assert(edge@ =~= mask@.take(i as int));
    }
    assert(edge@ =~= mask@);
    if radius == 0 {
        return edge;
    }
    let ghost w = width as int;
    let ghost h = height as int;
    let counts: Vec<u64> = box_counts(&inverse, width as usize, height as usize, radius);
    update_cells(
        &mut edge,
        |i: usize, value: u8| -> (next: u8)
            requires
                i < size,
                counts@.len() == size,
            ensures
                next == if value > 0 && counts@[i as int] > 0 {
                    1u8
                } else {
                    0u8
                }
            {
                if value > 0 && counts[i] > 0 {
                    1
                } else {
                    0
                }
            },
    );
    proof {
        assert forall|x: int, y: int|
            #![trigger edge@[cell(w, x, y)]]
            0 <= x < w && 0 <= y < h implies edge@[cell(w, x, y)] == if mask@[cell(w, x, y)] > 0
            && !is_interior(mask@, w, h, radius as int, x, y) {
            1u8
        } else {
            0u8
        } by {
            lemma_cell(w, h, x, y);
            lemma_box_count_positive(inverse@, w, h, x, y, radius as int);
            assert(counts@[cell(w, x, y)] == box_count(inverse@, w, h, x, y, radius as int));
            if set_nearby(inverse@, w, h, x, y, radius as int) {
                let (a, b) = choose|a: int, b: int|
                    #![trigger cell(w, a, b)]
                    0 <= a < w && 0 <= b < h && x - radius <= a <= x + radius && y - radius <= b
                        <= y + radius && inverse@[cell(w, a, b)] > 0;
                lemma_cell(w, h, a, b);
                assert(mask@[cell(w, a, b)] == 0);
            } else {
                assert forall|a: int, b: int|
                    #![trigger cell(w, a, b)]
                    0 <= a < w && 0 <= b < h && x - radius <= a <= x + radius && y - radius <= b
                        <= y + radius implies mask@[cell(w, a, b)] > 0 by {
                    lemma_cell(w, h, a, b);
                    assert(!(inverse@[cell(w, a, b)] > 0));
                }
            }
        }
    }
    edge
}

/// The decision after the guard: against the candidate where it is shown, the
/// pixel is not relaxed and the overlap is marked.
pub open spec fn guarded_decision(decision: u8, shown: u8, relaxed: u8, guarded: bool) -> u8 {
    if shown > 0 && relaxed == 0 && guarded {
        0
    } else {
        decision
    }
}

/// Takes back the decisions for the candidate near to foreground that is owned.
fn apply_guard(
    decision_mask: &mut Raster<u8>,
    merged_foreground_mask: &Raster<u8>,
    candidate_left: u32,
    candidate_top: u32,
    shown: &Raster<u8>,
    relaxed_foreground_mask: &Raster<u8>,
    radius: usize,
)
    requires
        old(decision_mask).well_formed(),
        merged_foreground_mask.well_formed(),
        shown.well_formed(),
        relaxed_foreground_mask.well_formed(),
        shown.same_size(old(decision_mask)),
        relaxed_foreground_mask.same_size(old(decision_mask)),
        radius <= 0x3fff_ffff,
    ensures
        final(decision_mask).well_formed(),
        final(decision_mask).same_size(old(decision_mask)),
        forall|x: int, y: int|
            0 <= x < old(decision_mask).width && 0 <= y < old(decision_mask).height
                ==> #[trigger] final(decision_mask).at(x, y) == guarded_decision(
                old(decision_mask).at(x, y),
                shown.at(x, y),
                relaxed_foreground_mask.at(x, y),
                is_guarded(
                    merged_foreground_mask,
                    candidate_left,
                    candidate_top,
                    shown.width,
                    shown.height,
                    radius,
                    x,
                    y,
                ),
            ),
{
    let size: usize = decision_mask.pixels.len();
    let ghost before = *decision_mask;
    let overlap: Vec<u8> = focus_foreground_overlap_mask_for_region(
        merged_foreground_mask,
        candidate_left,
        candidate_top,
        shown.width,
        shown.height,
        radius,
    );
    update_cells(
        &mut decision_mask.pixels,
        |i: usize, decision: u8| -> (next: u8)
            requires
                i < size,
                shown.pixels@.len() == size,
                relaxed_foreground_mask.pixels@.len() == size,
                overlap@.len() == size,
            ensures
                next == guarded_decision(
                    decision,
                    shown.pixels@[i as int],
                    relaxed_foreground_mask.pixels@[i as int],
                    overlap@[i as int] > 0,
                )
            {
                if shown.pixels[i] > 0 && relaxed_foreground_mask.pixels[i] == 0 && overlap[i] > 0 {
                    0
                } else {
                    decision
                }
            },
    );
    proof {
        let w = shown.width as int;
        let h = shown.height as int;
        assert forall|x: int, y: int|
            0 <= x < before.width && 0 <= y < before.height implies #[trigger] decision_mask.at(x, y)
            == guarded_decision(
            before.at(x, y),
            shown.at(x, y),
            relaxed_foreground_mask.at(x, y),
            is_guarded(
                merged_foreground_mask,
                candidate_left,
                candidate_top,
                shown.width,
                shown.height,
                radius,
                x,
                y,
            ),
        ) by {
            lemma_cell(w, h, x, y);
            assert(overlap@[cell(w, x, y)] > 0 <==> is_guarded(
                merged_foreground_mask,
                candidate_left,
                candidate_top,
                shown.width,
                shown.height,
                radius,
                x,
                y,
            ));
        }
    }
}

/// Takes back decisions for the candidate where its foreground would replace
/// foreground that is owned.
pub fn suppress_focus_foreground_switches_in_region(
    decision_mask: &mut Raster<u8>,
    merged_foreground_mask: &Raster<u8>,
    candidate_left: u32,
    candidate_top: u32,
    candidate_foreground_mask: &Raster<u8>,
    relaxed_foreground_mask: &Raster<u8>,
    radius: usize,
)
    requires
        old(decision_mask).well_formed(),
        merged_foreground_mask.well_formed(),
        candidate_foreground_mask.well_formed(),
        relaxed_foreground_mask.well_formed(),
        old(decision_mask).same_size(candidate_foreground_mask),
        radius <= 0x3fff_ffff,
    ensures
        final(decision_mask).well_formed(),
        final(decision_mask).same_size(old(decision_mask)),
        forall|x: int, y: int|
            0 <= x < old(decision_mask).width && 0 <= y < old(decision_mask).height
                ==> #[trigger] final(decision_mask).at(x, y) == if relaxed_foreground_mask.same_size(
                candidate_foreground_mask,
            ) {
                guarded_decision(
                    old(decision_mask).at(x, y),
                    candidate_foreground_mask.at(x, y),
                    relaxed_foreground_mask.at(x, y),
                    is_guarded(
                        merged_foreground_mask,
                        candidate_left,
                        candidate_top,
                        candidate_foreground_mask.width,
                        candidate_foreground_mask.height,
                        radius,
                        x,
                        y,
                    ),
                )
            } else {
                old(decision_mask).at(x, y)
            },
{
    if relaxed_foreground_mask.width != candidate_foreground_mask.width
        || relaxed_foreground_mask.height != candidate_foreground_mask.height {
        return ;
    }
    apply_guard(
        decision_mask,
        merged_foreground_mask,
        candidate_left,
        candidate_top,
        candidate_foreground_mask,
        relaxed_foreground_mask,
        radius,
    );
}

/// Takes back decisions for a layer where its foreground would replace
/// foreground that is owned.
pub fn suppress_focus_foreground_switches<P: Copy>(
    decision_mask: &mut Raster<u8>,
    merged_foreground_mask: &Raster<u8>,
    candidate: &RenderedFocusLayer<P>,
    radius: usize,
)
    requires
        old(decision_mask).well_formed(),
        merged_foreground_mask.well_formed(),
        candidate.well_formed(),
        old(decision_mask).same_size(&candidate.image),
        radius <= 0x3fff_ffff,
    ensures
        final(decision_mask).well_formed(),
        final(decision_mask).same_size(old(decision_mask)),
        forall|x: int, y: int|
            0 <= x < old(decision_mask).width && 0 <= y < old(decision_mask).height
                ==> #[trigger] final(decision_mask).at(x, y) == guarded_decision(
                old(decision_mask).at(x, y),
                candidate.foreground_mask.at(x, y),
                candidate.relaxed_foreground_mask.at(x, y),
                is_guarded(
                    merged_foreground_mask,
                    candidate.left,
                    candidate.top,
                    candidate.image.width,
                    candidate.image.height,
                    radius,
                    x,
                    y,
                ),
            ),
{
    suppress_focus_foreground_switches_in_region(
        decision_mask,
        merged_foreground_mask,
        candidate.left,
        candidate.top,
        &candidate.foreground_mask,
        &candidate.relaxed_foreground_mask,
        radius,
    );
}

/// Takes back decisions for the candidate wherever it is valid near to
/// foreground that is owned. Masks of another size change nothing.
pub fn suppress_focus_foreground_ownership_switches(
    decision_mask: &mut Raster<u8>,
    merged_foreground_mask: &Raster<u8>,
    candidate_mask: &Raster<u8>,
    candidate_left: u32,
    candidate_top: u32,
    relaxed_foreground_mask: &Raster<u8>,
    radius: usize,
)
    requires
        old(decision_mask).well_formed(),
        merged_foreground_mask.well_formed(),
        candidate_mask.well_formed(),
        relaxed_foreground_mask.well_formed(),
        radius <= 0x3fff_ffff,
    ensures
        final(decision_mask).well_formed(),
        final(decision_mask).same_size(old(decision_mask)),
        forall|x: int, y: int|
            0 <= x < old(decision_mask).width && 0 <= y < old(decision_mask).height
                ==> #[trigger] final(decision_mask).at(x, y) == if old(decision_mask).same_size(
                candidate_mask,
            ) && relaxed_foreground_mask.same_size(candidate_mask) {
                guarded_decision(
                    old(decision_mask).at(x, y),
                    candidate_mask.at(x, y),
                    relaxed_foreground_mask.at(x, y),
                    is_guarded(
                        merged_foreground_mask,
                        candidate_left,
                        candidate_top,
                        candidate_mask.width,
                        candidate_mask.height,
                        radius,
                        x,
                        y,
                    ),
                )
            } else {
                old(decision_mask).at(x, y)
            },
{
    if decision_mask.width != candidate_mask.width || decision_mask.height != candidate_mask.height
        || relaxed_foreground_mask.width != candidate_mask.width || relaxed_foreground_mask.height
        != candidate_mask.height {
        return ;
    }
    apply_guard(
        decision_mask,
        merged_foreground_mask,
        candidate_left,
        candidate_top,
        candidate_mask,
        relaxed_foreground_mask,
        radius,
    );
}

/// The guard on foreground switches, on the analysis canvas. Masks of another
/// size change nothing.
pub fn suppress_focus_foreground_switches_on_canvas(
    decision_mask: &mut Raster<u8>,
    merged_foreground_mask: &Raster<u8>,
    candidate_foreground_mask: &Raster<u8>,
    relaxed_foreground_mask: &Raster<u8>,
    radius: usize,
)
    requires
        old(decision_mask).well_formed(),
        merged_foreground_mask.well_formed(),
        candidate_foreground_mask.well_formed(),
        relaxed_foreground_mask.well_formed(),
        radius <= 0x3fff_ffff,
    ensures
        final(decision_mask).well_formed(),
        final(decision_mask).same_size(old(decision_mask)),
        forall|x: int, y: int|
            0 <= x < old(decision_mask).width && 0 <= y < old(decision_mask).height
                ==> #[trigger] final(decision_mask).at(x, y) == if old(decision_mask).same_size(
                merged_foreground_mask,
            ) && old(decision_mask).same_size(candidate_foreground_mask)
                && relaxed_foreground_mask.same_size(candidate_foreground_mask) {
                guarded_decision(
                    old(decision_mask).at(x, y),
                    candidate_foreground_mask.at(x, y),
                    relaxed_foreground_mask.at(x, y),
                    is_guarded(
                        merged_foreground_mask,
                        0,
                        0,
                        candidate_foreground_mask.width,
                        candidate_foreground_mask.height,
                        radius,
                        x,
                        y,
                    ),
                )
            } else {
                old(decision_mask).at(x, y)
            },
{
    if decision_mask.width != merged_foreground_mask.width || decision_mask.height
        != merged_foreground_mask.height {
        return ;
    }
    suppress_focus_foreground_ownership_switches(
        decision_mask,
        merged_foreground_mask,
        candidate_foreground_mask,
        0,
        0,
        relaxed_foreground_mask,
        radius,
    );
}

/// The guard on ownership switches, on the analysis canvas. Masks of another
/// size change nothing.
pub fn suppress_focus_foreground_ownership_switches_on_canvas(
    decision_mask: &mut Raster<u8>,
    merged_foreground_mask: &Raster<u8>,
    candidate_mask: &Raster<u8>,
    relaxed_foreground_mask: &Raster<u8>,
    radius: usize,
)
    requires
        old(decision_mask).well_formed(),
        merged_foreground_mask.well_formed(),
        candidate_mask.well_formed(),
        relaxed_foreground_mask.well_formed(),
        radius <= 0x3fff_ffff,
    ensures
        final(decision_mask).well_formed(),
        final(decision_mask).same_size(old(decision_mask)),
        forall|x: int, y: int|
            0 <= x < old(decision_mask).width && 0 <= y < old(decision_mask).height
                ==> #[trigger] final(decision_mask).at(x, y) == if old(decision_mask).same_size(
                merged_foreground_mask,
            ) && old(decision_mask).same_size(candidate_mask) && relaxed_foreground_mask.same_size(
                candidate_mask,
            ) {
                guarded_decision(
                    old(decision_mask).at(x, y),
                    candidate_mask.at(x, y),
                    relaxed_foreground_mask.at(x, y),
                    is_guarded(
                        merged_foreground_mask,
                        0,
                        0,
                        candidate_mask.width,
                        candidate_mask.height,
                        radius,
                        x,
                        y,
                    ),
                )
            } else {
                old(decision_mask).at(x, y)
            },
{
    suppress_focus_foreground_switches_on_canvas(
        decision_mask,
        merged_foreground_mask,
        candidate_mask,
        relaxed_foreground_mask,
        radius,
    );
}

/// Takes back decisions for the candidate where both sources are valid and both
/// show plain canvas; `base_canvas` and `candidate_canvas` say where a source
/// does. Masks of another size change nothing.
pub fn suppress_focus_canvas_switches(
    decision_mask: &mut Raster<u8>,
    base_canvas: &Raster<bool>,
    candidate_canvas: &Raster<bool>,
    base_mask: &Raster<u8>,
    candidate_mask: &Raster<u8>,
)
    requires
        old(decision_mask).well_formed(),
        base_canvas.well_formed(),
        candidate_canvas.well_formed(),
        base_mask.well_formed(),
        candidate_mask.well_formed(),
    ensures
        final(decision_mask).well_formed(),
        final(decision_mask).same_size(old(decision_mask)),
        forall|i: int|
            0 <= i < old(decision_mask).pixels@.len() ==> #[trigger] final(decision_mask).pixels@[i]
                == if old(decision_mask).same_size(base_canvas) && base_canvas.same_size(
                candidate_canvas,
            ) && base_mask.same_size(base_canvas) && candidate_mask.same_size(base_canvas)
                && base_mask.pixels@[i] > 0 && candidate_mask.pixels@[i] > 0
                && base_canvas.pixels@[i] && candidate_canvas.pixels@[i] {
                0
            } else {
                old(decision_mask).pixels@[i]
            },
{
    if decision_mask.width != base_canvas.width || decision_mask.height != base_canvas.height
        || base_canvas.width != candidate_canvas.width || base_canvas.height
        != candidate_canvas.height || base_mask.width != base_canvas.width || base_mask.height
        != base_canvas.height || candidate_mask.width != base_canvas.width || candidate_mask.height
        != base_canvas.height {
        return ;
    }
    let size: usize = decision_mask.pixels.len();
    update_cells(
        &mut decision_mask.pixels,
        |i: usize, decision: u8| -> (next: u8)
            requires
                i < size,
                base_canvas.pixels@.len() == size,
                candidate_canvas.pixels@.len() == size,
                base_mask.pixels@.len() == size,
                candidate_mask.pixels@.len() == size,
            ensures
                next == if base_mask.pixels@[i as int] > 0 && candidate_mask.pixels@[i as int] > 0
                    && base_canvas.pixels@[i as int] && candidate_canvas.pixels@[i as int] {
                    0
                } else {
                    decision
                }
            {
                if base_mask.pixels[i] > 0 && candidate_mask.pixels[i] > 0 && base_canvas.pixels[i]
                    && candidate_canvas.pixels[i] {
                    0
                } else {
                    decision
                }
            },
    );
}

/// What guards a pixel of a layer: merged foreground within the radius, in a row that the layer
/// covers, under a layer that lies on the canvas. Nothing else does.
pub proof fn law_only_near_foreground_guards(
    merged: &Raster<u8>,
    left: u32,
    top: u32,
    layer_width: u32,
    layer_height: u32,
    radius: usize,
    x: int,
    y: int,
)
    requires
        merged.well_formed(),
    ensures
        is_guarded(merged, left, top, layer_width, layer_height, radius, x, y) ==> 0 < layer_width
            && 0 < layer_height && left + layer_width <= merged.width && top + layer_height
            <= merged.height,
        0 < layer_width && 0 < layer_height && left + layer_width <= merged.width && top
            + layer_height <= merged.height ==> (is_guarded(
            merged,
            left,
            top,
            layer_width,
            layer_height,
            radius,
            x,
            y,
        ) <==> exists|a: int, b: int|
            #![trigger merged.at(a, b)]
            0 <= a < merged.width && top <= b < top + layer_height && merged.at(a, b) != 0 && -radius
                <= a - (left + x) <= radius && -radius <= b - (top + y) <= radius),
{
    if exists|a: int, b: int|
        #![trigger merged.at(a, b)]
        0 <= a < merged.width && top <= b < top + layer_height && merged.at(a, b) != 0 && -radius <= a
            - (left + x) <= radius && -radius <= b - (top + y) <= radius {
        let (a, b) = choose|a: int, b: int|
            #![trigger merged.at(a, b)]
            0 <= a < merged.width && top <= b < top + layer_height && merged.at(a, b) != 0 && -radius
                <= a - (left + x) <= radius && -radius <= b - (top + y) <= radius;
        assert(merged.at(a, b) > 0);
    }
}

/// A guard only ever takes decisions back: where the candidate shows nothing, on relaxed edges
/// and away from owned foreground the decision stays; elsewhere the candidate loses.
pub proof fn law_guards_only_take_back(decision: u8, shown: u8, relaxed: u8, guarded: bool)
    ensures
        shown == 0 ==> guarded_decision(decision, shown, relaxed, guarded) == decision,
        relaxed != 0 ==> guarded_decision(decision, shown, relaxed, guarded) == decision,
        !guarded ==> guarded_decision(decision, shown, relaxed, guarded) == decision,
        shown != 0 && relaxed == 0 && guarded ==> guarded_decision(decision, shown, relaxed, guarded)
            == 0,
{
}

/// The pixels of a silhouette that are not interior have a cleared pixel of the image within the
/// radius; interior pixels have none.
pub proof fn law_interior_pixels_are_surrounded(
    mask: Seq<u8>,
    width: int,
    height: int,
    radius: int,
    x: int,
    y: int,
    a: int,
    b: int,
)
    requires
        is_interior(mask, width, height, radius, x, y),
        0 <= a < width,
        0 <= b < height,
        -radius <= a - x <= radius,
        -radius <= b - y <= radius,
    ensures
        mask[b * width + a] > 0,
{
    assert(mask[cell(width, a, b)] > 0);
}

/// A pixel all of whose surroundings on the image are set is interior, at the border too.
pub proof fn law_surrounded_pixels_are_interior(
    mask: Seq<u8>,
    width: int,
    height: int,
    radius: int,
    x: int,
    y: int,
)
    requires
        forall|a: int, b: int|
            #![trigger mask[b * width + a]]
            0 <= a < width && 0 <= b < height && -radius <= a - x <= radius && -radius <= b - y
                <= radius ==> mask[b * width + a] > 0,
    ensures
        is_interior(mask, width, height, radius, x, y),
{
    assert forall|a: int, b: int|
        #![trigger cell(width, a, b)]
        0 <= a < width && 0 <= b < height && x - radius <= a <= x + radius && y - radius <= b <= y
            + radius implies mask[cell(width, a, b)] > 0 by {
        assert(mask[b * width + a] > 0);
    }
}

} // verus!
