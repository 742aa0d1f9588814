//! Moving a rendered layer on the canvas, and moving its foreground onto the
//! foreground that is there already.

use vstd::prelude::*;

use crate::focus_layer::RenderedFocusLayer;
use crate::grid::cell;
use crate::grid::lemma_cell;
use crate::grid::lemma_split;
use crate::masks::count_set;
use crate::masks::set_count;
use crate::raster::tabulate;
use crate::raster::Raster;
use crate::window::sum_range;

verus! {

/// The largest shift of a foreground refinement.
pub const FOCUS_FOREGROUND_REFINEMENT_MAX_SHIFT: i32 = 32;

/// The fewest foreground pixels, and the fewest anchors, of a refinement.
pub const FOCUS_FOREGROUND_REFINEMENT_MIN_SUPPORT: usize = 32;

/// About as many anchors are used at most.
pub const FOCUS_FOREGROUND_REFINEMENT_ANCHORS: usize = 2048;

/// `value` moved to the nearest number from `low` to `high`.
pub open spec fn limited(value: int, low: int, high: int) -> int {
    if value < low {
        low
    } else if value > high {
        high
    } else {
        value
    }
}

fn limit(value: i64, low: i64, high: i64) -> (nearest: i64)
    requires
        low <= high,
    ensures
        nearest == limited(value as int, low as int, high as int),
{
    if value < low {
        low
    } else if value > high {
        high
    } else {
        value
    }
}

/// The image seen through a window of another size whose corner lies at `dx`,
/// `dy` of the image; `blank` where the window shows no pixel of it.
fn shifted<P: Copy>(source: &Raster<P>, width: u32, height: u32, dx: i64, dy: i64, blank: P) -> (view:
    Raster<P>)
    requires
        source.well_formed(),
        width * height <= usize::MAX,
        -0x2_0000_0000 <= dx <= 0x2_0000_0000,
        -0x2_0000_0000 <= dy <= 0x2_0000_0000,
    ensures
        view.well_formed(),
        view.width == width,
        view.height == height,
        forall|x: int, y: int|
            0 <= x < width && 0 <= y < height ==> #[trigger] view.at(x, y) == if 0 <= x + dx
                < source.width && 0 <= y + dy < source.height {
                source.at(x + dx, y + dy)
            } else {
                blank
            },
{
    let ghost w = width as int;
    let ghost h = height as int;
    if width == 0 || height == 0 {
        return Raster { width, height, pixels: Vec::new() };
    }
    assert(0 <= width * height) by (nonlinear_arith);
    let count: usize = (width as usize) * (height as usize);
    let pixels: Vec<P> = tabulate(
        count,
        |i: usize| -> (pixel: P)
            requires
                i < count,
                count == w * h,
                w == width,
                h == height,
                width > 0,
                source.well_formed(),
                -0x2_0000_0000 <= dx <= 0x2_0000_0000,
                -0x2_0000_0000 <= dy <= 0x2_0000_0000,
            ensures
                pixel == if 0 <= i as int % w + dx < source.width && 0 <= i as int / w + dy
                    < source.height {
                    source.at(i as int % w + dx, i as int / w + dy)
                } else {
                    blank
                }
            {
                proof {
                    lemma_split(w, h, i as int);
                }
                let x: i64 = (i % (width as usize)) as i64 + dx;
                let y: i64 = (i / (width as usize)) as i64 + dy;
                if 0 <= x && x < source.width as i64 && 0 <= y && y < source.height as i64 {
                    source.pixel(x as u32, y as u32)
                } else {
                    blank
                }
            },
    );
    let view = Raster { width, height, pixels };
    proof {
        assert forall|x: int, y: int| 0 <= x < w && 0 <= y < h implies #[trigger] view.at(x, y)
            == if 0 <= x + dx < source.width && 0 <= y + dy < source.height {
            source.at(x + dx, y + dy)
        } else {
            blank
        } by {
            lemma_cell(w, h, x, y);
        }
    }
    view
}

/// A shift that does nothing: no distance, or nothing to move it on.
pub open spec fn stays<P>(
    candidate: &RenderedFocusLayer<P>,
    delta_x: i32,
    delta_y: i32,
    out_width: u32,
    out_height: u32,
) -> bool {
    ||| delta_x == 0 && delta_y == 0
    ||| candidate.image.width == 0
    ||| candidate.image.height == 0
    ||| out_width == 0
    ||| out_height == 0
}

/// The layer has moved on the canvas.
pub open spec fn is_translated<P>(
    candidate: &RenderedFocusLayer<P>,
    delta_x: i32,
    delta_y: i32,
    out_width: u32,
    out_height: u32,
    blank: P,
    moved: &RenderedFocusLayer<P>,
) -> bool {
    if stays(candidate, delta_x, delta_y, out_width, out_height) {
        *moved == *candidate
    } else {
        &&& moved.left == limited(candidate.left + delta_x, 0, out_width - 1)
        &&& moved.top == limited(candidate.top + delta_y, 0, out_height - 1)
        &&& moved.left + moved.image.width - 1 == limited(
            candidate.left + candidate.image.width - 1 + delta_x,
            0,
            out_width - 1,
        )
        &&& moved.top + moved.image.height - 1 == limited(
            candidate.top + candidate.image.height - 1 + delta_y,
            0,
            out_height - 1,
        )
        &&& forall|x: int, y: int|
            0 <= x < moved.image.width && 0 <= y < moved.image.height ==> {
                let a = moved.left + x - delta_x - candidate.left;
                let b = moved.top + y - delta_y - candidate.top;
                if 0 <= a < candidate.image.width && 0 <= b < candidate.image.height {
                    &&& #[trigger] moved.image.at(x, y) == candidate.image.at(a, b)
                    &&& moved.mask.at(x, y) == candidate.mask.at(a, b)
                    &&& moved.foreground_mask.at(x, y) == candidate.foreground_mask.at(a, b)
                    &&& moved.relaxed_foreground_mask.at(x, y)
                        == candidate.relaxed_foreground_mask.at(a, b)
                } else {
                    &&& moved.image.at(x, y) == blank
                    &&& moved.mask.at(x, y) == 0
                    &&& moved.foreground_mask.at(x, y) == 0
                    &&& moved.relaxed_foreground_mask.at(x, y) == 0
                }
            }
    }
}

/// Every pixel of a layer keeps its distance: the one at column `a` of row `b` lies further on
/// the canvas by exactly the shift, with all its masks, as long as it lies on the canvas.
pub proof fn law_translated_pixels_keep_their_distance<P>(
    candidate: &RenderedFocusLayer<P>,
    delta_x: i32,
    delta_y: i32,
    out_width: u32,
    out_height: u32,
    blank: P,
    moved: &RenderedFocusLayer<P>,
    a: int,
    b: int,
)
    requires
        is_translated(candidate, delta_x, delta_y, out_width, out_height, blank, moved),
        0 <= a < candidate.image.width,
        0 <= b < candidate.image.height,
        0 <= candidate.left + a + delta_x < out_width,
        0 <= candidate.top + b + delta_y < out_height,
    ensures
        ({
            let x = candidate.left + a + delta_x - moved.left;
            let y = candidate.top + b + delta_y - moved.top;
            &&& 0 <= x < moved.image.width
            &&& 0 <= y < moved.image.height
            &&& moved.image.at(x, y) == candidate.image.at(a, b)
            &&& moved.mask.at(x, y) == candidate.mask.at(a, b)
            &&& moved.foreground_mask.at(x, y) == candidate.foreground_mask.at(a, b)
            &&& moved.relaxed_foreground_mask.at(x, y) == candidate.relaxed_foreground_mask.at(a, b)
        }),
{
    let x = candidate.left + a + delta_x - moved.left;
    let y = candidate.top + b + delta_y - moved.top;
    if !stays(candidate, delta_x, delta_y, out_width, out_height) {
        assert(moved.image.at(x, y) == candidate.image.at(a, b));
    }
}

/// A translated layer makes nothing up: what is valid in it, or foreground, was so at its old
/// place.
pub proof fn law_translated_layers_make_nothing_up<P>(
    candidate: &RenderedFocusLayer<P>,
    delta_x: i32,
    delta_y: i32,
    out_width: u32,
    out_height: u32,
    blank: P,
    moved: &RenderedFocusLayer<P>,
    x: int,
    y: int,
)
    requires
        is_translated(candidate, delta_x, delta_y, out_width, out_height, blank, moved),
        0 < out_width,
        0 < out_height,
        0 <= x < moved.image.width,
        0 <= y < moved.image.height,
        moved.mask.at(x, y) > 0 || moved.foreground_mask.at(x, y) > 0,
    ensures
        ({
            let a = moved.left + x - delta_x - candidate.left;
            let b = moved.top + y - delta_y - candidate.top;
            &&& 0 <= a < candidate.image.width
            &&& 0 <= b < candidate.image.height
            &&& moved.image.at(x, y) == candidate.image.at(a, b)
            &&& moved.mask.at(x, y) == candidate.mask.at(a, b)
            &&& moved.foreground_mask.at(x, y) == candidate.foreground_mask.at(a, b)
        }),
{
    if !stays(candidate, delta_x, delta_y, out_width, out_height) {
        let a = moved.left + x - delta_x - candidate.left;
        let b = moved.top + y - delta_y - candidate.top;
        assert(moved.image.at(x, y) == if 0 <= a < candidate.image.width && 0 <= b
            < candidate.image.height {
            candidate.image.at(a, b)
        } else {
            blank
        });
    }
}

/// Moves a layer on the canvas. What leaves the canvas is cut off; the layer that
/// remains keeps at least one pixel, blank if none of the source is left in it.
pub fn translate_rendered_focus_layer<P: Copy>(
    candidate: RenderedFocusLayer<P>,
    delta_x: i32,
    delta_y: i32,
    out_width: u32,
    out_height: u32,
    blank: P,
) -> (moved: RenderedFocusLayer<P>)
    requires
        candidate.well_formed(),
    ensures
        moved.well_formed(),
        is_translated(&candidate, delta_x, delta_y, out_width, out_height, blank, &moved),
{
    let width: u32 = candidate.image.width;
    let height: u32 = candidate.image.height;
    if delta_x == 0 && delta_y == 0 || width == 0 || height == 0 || out_width == 0 || out_height
        == 0 {
        return candidate;
    }
    let size: usize = candidate.image.pixels.len();
    let old_left: i64 = candidate.left as i64;
    let old_top: i64 = candidate.top as i64;
    let old_right: i64 = old_left + (width as i64) - 1;
    let old_bottom: i64 = old_top + (height as i64) - 1;
    let new_left: i64 = limit(old_left + (delta_x as i64), 0, (out_width as i64) - 1);
    let new_top: i64 = limit(old_top + (delta_y as i64), 0, (out_height as i64) - 1);
    let new_right: i64 = limit(old_right + (delta_x as i64), 0, (out_width as i64) - 1);
    let new_bottom: i64 = limit(old_bottom + (delta_y as i64), 0, (out_height as i64) - 1);
    let new_width: u32 = (new_right - new_left + 1) as u32;
    let new_height: u32 = (new_bottom - new_top + 1) as u32;
    assert(new_width * new_height <= width * height) by (nonlinear_arith)
        requires
            0 <= new_width <= width,
            0 <= new_height <= height,
    ;
    let dx: i64 = new_left - (delta_x as i64) - old_left;
    let dy: i64 = new_top - (delta_y as i64) - old_top;
    RenderedFocusLayer {
        image: shifted(&candidate.image, new_width, new_height, dx, dy, blank),
        mask: shifted(&candidate.mask, new_width, new_height, dx, dy, 0u8),
        foreground_mask: shifted(&candidate.foreground_mask, new_width, new_height, dx, dy, 0u8),
        relaxed_foreground_mask: shifted(
            &candidate.relaxed_foreground_mask,
            new_width,
            new_height,
            dx,
            dy,
            0u8,
        ),
        left: new_left as u32,
        top: new_top as u32,
    }
}

/// Every `stride`-th of the set pixels among the first `len`.
pub open spec fn anchor_cells(foreground: Seq<u8>, stride: int, len: int) -> Seq<int>
    decreases len,
{
    if len <= 0 {
        Seq::empty()
    } else {
        let before = anchor_cells(foreground, stride, len - 1);
        if foreground[len - 1] > 0 && set_count(foreground, len - 1) % stride == 0 {
            before.push(len - 1)
        } else {
            before
        }
    }
}

/// The anchor, moved by the shift, lies on foreground of the canvas.
pub open spec fn anchor_hits<P>(
    candidate: &RenderedFocusLayer<P>,
    merged: &Raster<u8>,
    anchor: int,
    shift: (int, int),
) -> bool {
    let x = candidate.left + anchor % candidate.image.width as int + shift.0;
    let y = candidate.top + anchor / candidate.image.width as int + shift.1;
    0 <= x < merged.width && 0 <= y < merged.height && merged.at(x, y) > 0
}

/// How many of the first `len` anchors lie on foreground of the canvas.
pub open spec fn hit_count<P>(
    candidate: &RenderedFocusLayer<P>,
    merged: &Raster<u8>,
    anchors: Seq<int>,
    shift: (int, int),
    len: int,
) -> int
    decreases len,
{
    if len <= 0 {
        0
    } else {
        hit_count(candidate, merged, anchors, shift, len - 1) + if anchor_hits(
            candidate,
            merged,
            anchors[len - 1],
            shift,
        ) {
            1int
        } else {
            0int
        }
    }
}

/// The shift at position `n` of a row by row pass over all shifts of at most
/// `radius`.
pub open spec fn shift_at(radius: int, n: int) -> (int, int) {
    (n % (2 * radius + 1) - radius, n / (2 * radius + 1) - radius)
}

/// The best of the first `n` shifts and its hits; no shift counts first, a later
/// one only if it has more hits.
pub open spec fn best_shift<P>(
    candidate: &RenderedFocusLayer<P>,
    merged: &Raster<u8>,
    anchors: Seq<int>,
    radius: int,
    n: int,
) -> ((int, int), int)
    decreases n,
{
    if n <= 0 {
        (
            (0int, 0int),
            hit_count(candidate, merged, anchors, (0int, 0int), anchors.len() as int),
        )
    } else {
        let before = best_shift(candidate, merged, anchors, radius, n - 1);
        let shift = shift_at(radius, n - 1);
        let hits = hit_count(candidate, merged, anchors, shift, anchors.len() as int);
        if hits > before.1 {
            (shift, hits)
        } else {
            before
        }
    }
}

/// The distance between two anchors, counted in foreground pixels.
pub open spec fn anchor_stride(foreground: Seq<u8>) -> int {
    let stride = set_count(foreground, foreground.len() as int)
        / FOCUS_FOREGROUND_REFINEMENT_ANCHORS as int;
    if stride < 1 {
        1
    } else {
        stride
    }
}

/// The shift that moves the foreground of a layer onto the foreground of the
/// canvas: enough anchors, and enough hits more than without a shift.
pub open spec fn foreground_shift<P>(
    candidate: &RenderedFocusLayer<P>,
    merged: &Raster<u8>,
    radius: int,
) -> Option<(int, int)> {
    let foreground = candidate.foreground_mask.pixels@;
    let anchors = anchor_cells(foreground, anchor_stride(foreground), foreground.len() as int);
    let side = 2 * radius + 1;
    let (shift, hits) = best_shift(candidate, merged, anchors, radius, side * side);
    let gain = if anchors.len() / 20 < 12 {
        12
    } else {
        anchors.len() as int / 20
    };
    if set_count(foreground, foreground.len() as int) < FOCUS_FOREGROUND_REFINEMENT_MIN_SUPPORT
        || set_count(merged.pixels@, merged.pixels@.len() as int)
        < FOCUS_FOREGROUND_REFINEMENT_MIN_SUPPORT || anchors.len()
        < FOCUS_FOREGROUND_REFINEMENT_MIN_SUPPORT || shift == (0int, 0int) || hits < hit_count(
        candidate,
        merged,
        anchors,
        (0int, 0int),
        anchors.len() as int,
    ) + gain || hits < anchors.len() as int / 20 {
        None
    } else {
        Some(shift)
    }
}

/// The layer pixel holds foreground that the shift brings to column `x` of row
/// `y`.
pub open spec fn receives<P>(
    candidate: &RenderedFocusLayer<P>,
    shift: (int, int),
    x: int,
    y: int,
) -> bool {
    &&& 0 <= x - shift.0 < candidate.image.width
    &&& 0 <= y - shift.1 < candidate.image.height
    &&& candidate.foreground_mask.at(x - shift.0, y - shift.1) > 0
}

/// The pixel is foreground that the shift takes away to another pixel of the
/// layer.
pub open spec fn gives<P>(
    candidate: &RenderedFocusLayer<P>,
    shift: (int, int),
    x: int,
    y: int,
) -> bool {
    &&& candidate.foreground_mask.at(x, y) > 0
    &&& 0 <= x + shift.0 < candidate.image.width
    &&& 0 <= y + shift.1 < candidate.image.height
}

/// The layer with its foreground moved by the shift: the foreground carries its
/// pixels along and leaves holes in the mask.
pub open spec fn has_moved_foreground<P>(
    candidate: &RenderedFocusLayer<P>,
    shift: (int, int),
    moved: &RenderedFocusLayer<P>,
) -> bool {
    &&& moved.left == candidate.left
    &&& moved.top == candidate.top
    &&& moved.image.same_size(&candidate.image)
    &&& forall|x: int, y: int|
        0 <= x < candidate.image.width && 0 <= y < candidate.image.height ==> #[trigger]
        is_moved_pixel(candidate, shift, moved, x, y)
}

/// The pixel in column `x` of row `y` after the foreground has moved.
pub open spec fn is_moved_pixel<P>(
    candidate: &RenderedFocusLayer<P>,
    shift: (int, int),
    moved: &RenderedFocusLayer<P>,
    x: int,
    y: int,
) -> bool {
    let from_x = x - shift.0;
    let from_y = y - shift.1;
    if receives(candidate, shift, x, y) {
        &&& moved.image.at(x, y) == candidate.image.at(from_x, from_y)
        &&& moved.mask.at(x, y) == 255
        &&& moved.foreground_mask.at(x, y) == 255
        &&& moved.relaxed_foreground_mask.at(x, y) == (
        if candidate.relaxed_foreground_mask.at(from_x, from_y) > 0 {
            255u8
        } else {
            0u8
        })
    } else {
        &&& moved.image.at(x, y) == candidate.image.at(x, y)
        &&& moved.mask.at(x, y) == (if gives(candidate, shift, x, y) {
            0u8
        } else {
            candidate.mask.at(x, y)
        })
        &&& moved.foreground_mask.at(x, y) == 0
        &&& moved.relaxed_foreground_mask.at(x, y) == 0
    }
}

/// The anchors of a layer.
fn find_anchors(foreground: &Vec<u8>, stride: usize) -> (anchors: Vec<usize>)
    requires
        stride > 0,
    ensures
        anchors@.len() == anchor_cells(
            foreground@,
            stride as int,
            foreground@.len() as int,
        ).len(),
        forall|k: int|
            0 <= k < anchors@.len() ==> #[trigger] anchors@[k] == anchor_cells(
                foreground@,
                stride as int,
                foreground@.len() as int,
            )[k] && anchors@[k] < foreground@.len(),
{
    let mut anchors: Vec<usize> = Vec::new();
    let mut seen: usize = 0;
    let mut i: usize = 0;
    while i < foreground.len()
        invariant
            i <= foreground@.len(),
            stride > 0,
            seen <= i,
            seen == set_count(foreground@, i as int),
            anchors@.len() == anchor_cells(foreground@, stride as int, i as int).len(),
            forall|k: int|
                0 <= k < anchors@.len() ==> #[trigger] anchors@[k] == anchor_cells(
                    foreground@,
                    stride as int,
                    i as int,
                )[k] && anchors@[k] < foreground@.len(),
        decreases foreground@.len() - i,
    {
        if foreground[i] > 0 {
            if seen % stride == 0 {
                anchors.push(i);
            }
            seen += 1;
        }
        i += 1;
    }
    anchors
}

/// Counts the anchors that a shift brings onto foreground of the canvas.
fn count_hits<P: Copy>(
    candidate: &RenderedFocusLayer<P>,
    merged: &Raster<u8>,
    anchors: &Vec<usize>,
    delta_x: i64,
    delta_y: i64,
    Ghost(cells): Ghost<Seq<int>>,
) -> (hits: usize)
    requires
        candidate.well_formed(),
        merged.well_formed(),
        candidate.image.width > 0,
        -64 <= delta_x <= 64,
        -64 <= delta_y <= 64,
        anchors@.len() == cells.len(),
        forall|k: int|
            0 <= k < anchors@.len() ==> #[trigger] anchors@[k] == cells[k] && anchors@[k]
                < candidate.image.pixels@.len(),
    ensures
        hits <= anchors@.len(),
        hits == hit_count(
            candidate,
            merged,
            cells,
            (delta_x as int, delta_y as int),
            cells.len() as int,
        ),
{
    let mut hits: usize = 0;
    let mut k: usize = 0;
    while k < anchors.len()
        invariant
            k <= anchors@.len(),
            hits <= k,
            candidate.well_formed(),
            merged.well_formed(),
            candidate.image.width > 0,
            -64 <= delta_x <= 64,
            -64 <= delta_y <= 64,
            anchors@.len() == cells.len(),
            forall|j: int|
                0 <= j < anchors@.len() ==> #[trigger] anchors@[j] == cells[j] && anchors@[j]
                    < candidate.image.pixels@.len(),
            hits == hit_count(candidate, merged, cells, (delta_x as int, delta_y as int), k as int),
        decreases anchors@.len() - k,
    {
        let anchor: usize = anchors[k];
        proof {
            lemma_split(
                candidate.image.width as int,
                candidate.image.height as int,
                anchor as int,
            );
        }
        let width: usize = candidate.image.width as usize;
        let x: i64 = (candidate.left as i64) + ((anchor % width) as i64) + delta_x;
        let y: i64 = (candidate.top as i64) + ((anchor / width) as i64) + delta_y;
        if x >= 0 && y >= 0 && x < merged.width as i64 && y < merged.height as i64 && merged.pixel(
            x as u32,
            y as u32,
        ) > 0 {
            hits += 1;
        }
        k += 1;
    }
    hits
}

/// Finds the shift that moves the foreground of a layer onto the foreground of
/// the canvas.
fn find_foreground_shift<P: Copy>(
    candidate: &RenderedFocusLayer<P>,
    merged: &Raster<u8>,
    radius: i32,
) -> (found: Option<(i64, i64)>)
    requires
        candidate.well_formed(),
        merged.well_formed(),
        candidate.image.width > 0,
        0 <= radius <= FOCUS_FOREGROUND_REFINEMENT_MAX_SHIFT,
    ensures
        match found {
            Some(shift) => foreground_shift(candidate, merged, radius as int) == Some(
                (shift.0 as int, shift.1 as int),
            ) && -radius <= shift.0 <= radius && -radius <= shift.1 <= radius,
            None => foreground_shift(candidate, merged, radius as int) is None,
        },
{
    let foreground_count: usize = count_set(&candidate.foreground_mask.pixels);
    let existing_count: usize = count_set(&merged.pixels);
    let mut stride: usize = foreground_count / FOCUS_FOREGROUND_REFINEMENT_ANCHORS;
    if stride < 1 {
        stride = 1;
    }
    let anchors: Vec<usize> = find_anchors(&candidate.foreground_mask.pixels, stride);
    let ghost cells = anchor_cells(
        candidate.foreground_mask.pixels@,
        stride as int,
        candidate.foreground_mask.pixels@.len() as int,
    );
    if foreground_count < FOCUS_FOREGROUND_REFINEMENT_MIN_SUPPORT || existing_count
        < FOCUS_FOREGROUND_REFINEMENT_MIN_SUPPORT || anchors.len()
        < FOCUS_FOREGROUND_REFINEMENT_MIN_SUPPORT {
        return None;
    }
    let current: usize = count_hits(candidate, merged, &anchors, 0, 0, Ghost(cells));
    let reach: i64 = radius as i64;
    let ghost r = radius as int;
    let ghost side = 2 * r + 1;
    let mut best: (i64, i64) = (0, 0);
    let mut best_hits: usize = current;
    let mut y: i64 = -reach;
    proof {
        assert((y + r) * side == 0) by (nonlinear_arith)
            requires
                y + r == 0,
        ;
    }
    while y <= reach
        invariant
            -reach <= y <= reach + 1,
            reach == radius,
            r == radius,
            side == 2 * r + 1,
            0 <= radius <= FOCUS_FOREGROUND_REFINEMENT_MAX_SHIFT,
            candidate.well_formed(),
            merged.well_formed(),
            candidate.image.width > 0,
            anchors@.len() == cells.len(),
            forall|k: int|
                0 <= k < anchors@.len() ==> #[trigger] anchors@[k] == cells[k] && anchors@[k]
                    < candidate.image.pixels@.len(),
            best_shift(candidate, merged, cells, r, (y + r) * side) == (
                (best.0 as int, best.1 as int),
                best_hits as int,
            ),
            best_hits <= anchors@.len(),
            -radius <= best.0 <= radius,
            -radius <= best.1 <= radius,
        decreases reach + 1 - y,
    {
        let mut x: i64 = -reach;
        while x <= reach
            invariant
                -reach <= x <= reach + 1,
                -reach <= y <= reach,
                reach == radius,
                r == radius,
                side == 2 * r + 1,
                0 <= radius <= FOCUS_FOREGROUND_REFINEMENT_MAX_SHIFT,
                candidate.well_formed(),
                merged.well_formed(),
                candidate.image.width > 0,
                anchors@.len() == cells.len(),
                forall|k: int|
                    0 <= k < anchors@.len() ==> #[trigger] anchors@[k] == cells[k] && anchors@[k]
                        < candidate.image.pixels@.len(),
                best_shift(candidate, merged, cells, r, (y + r) * side + (x + r)) == (
                    (best.0 as int, best.1 as int),
                    best_hits as int,
                ),
                best_hits <= anchors@.len(),
                -radius <= best.0 <= radius,
                -radius <= best.1 <= radius,
            decreases reach + 1 - x,
        {
            let hits: usize = count_hits(candidate, merged, &anchors, x, y, Ghost(cells));
            proof {
                lemma_cell(side, side, x + r, y + r);
                assert(shift_at(r, (y + r) * side + (x + r)) == (x as int, y as int));
            }
            if hits > best_hits {
                best_hits = hits;
                best = (x, y);
            }
            x += 1;
        }
        assert((y + 1 + r) * side == (y + r) * side + side) by (nonlinear_arith);
        y += 1;
    }
    let mut gain: usize = anchors.len() / 20;
    if gain < 12 {
        gain = 12;
    }
    assert((y + r) * side == side * side) by (nonlinear_arith)
        requires
            y + r == side,
    ;
    if best.0 == 0 && best.1 == 0 || (best_hits as u128) < (current as u128) + (gain as u128)
        || best_hits < anchors.len() / 20 {
        None
    } else {
        Some(best)
    }
}

/// Moves the foreground of a layer onto the foreground of the canvas where a
/// small shift makes clearly more of it coincide; otherwise the layer stays as it
/// is. The mask is a cue for registration only: the pixels move with it.
pub fn align_focus_foreground_layer_to_existing<P: Copy>(
    candidate: RenderedFocusLayer<P>,
    merged_foreground_mask: &Raster<u8>,
    search_radius: i32,
) -> (aligned: RenderedFocusLayer<P>)
    requires
        candidate.well_formed(),
        merged_foreground_mask.well_formed(),
        0 <= search_radius <= FOCUS_FOREGROUND_REFINEMENT_MAX_SHIFT,
    ensures
        aligned.well_formed(),
        candidate.image.width == 0 || candidate.image.height == 0 || merged_foreground_mask.width
            == 0 ==> aligned == candidate,
        candidate.image.width > 0 && candidate.image.height > 0 && merged_foreground_mask.width > 0
            ==> match foreground_shift(&candidate, merged_foreground_mask, search_radius as int) {
            None => aligned == candidate,
            Some(shift) => has_moved_foreground(&candidate, shift, &aligned),
        },
{
    let width: u32 = candidate.image.width;
    let height: u32 = candidate.image.height;
    if width == 0 || height == 0 || merged_foreground_mask.width == 0 {
        return candidate;
    }
    let (delta_x, delta_y): (i64, i64) = match find_foreground_shift(
        &candidate,
        merged_foreground_mask,
        search_radius,
    ) {
        None => {
            return candidate;
        },
        Some(shift) => shift,
    };
    let size: usize = candidate.image.pixels.len();
    let layer: &RenderedFocusLayer<P> = &candidate;
    let ghost w = width as int;
    let ghost h = height as int;
    let ghost shift = (delta_x as int, delta_y as int);
    let origin: Vec<Option<usize>> = tabulate(
        size,
        |i: usize| -> (source: Option<usize>)
            requires
                i < size,
                layer.well_formed(),
                layer.image.pixels@.len() == size,
                width == layer.image.width,
                height == layer.image.height,
                width > 0,
                -64 <= delta_x <= 64,
                -64 <= delta_y <= 64,
            ensures
                receives(
                    layer,
                    (delta_x as int, delta_y as int),
                    i as int % w,
                    i as int / w,
                ) == (source is Some),
                source matches Some(s) ==> s == cell(
                    w,
                    i as int % w - delta_x,
                    i as int / w - delta_y,
                ) && s < size
            {
                proof {
                    lemma_split(w, h, i as int);
                }
                let x: i64 = (i % (width as usize)) as i64 - delta_x;
                let y: i64 = (i / (width as usize)) as i64 - delta_y;
                if 0 <= x && x < width as i64 && 0 <= y && y < height as i64 {
                    proof {
                        lemma_cell(w, h, x as int, y as int);
                    }
                    let s: usize = (y as usize) * (width as usize) + (x as usize);
                    if layer.foreground_mask.pixels[s] > 0 {
                        Some(s)
                    } else {
                        None
                    }
                } else {
                    None
                }
            },
    );
    let image_pixels: Vec<P> = tabulate(
        size,
        |i: usize| -> (pixel: P)
            requires
                i < size,
                layer.image.pixels@.len() == size,
                origin@.len() == size,
                origin@[i as int] matches Some(s) ==> s < size,
            ensures
                pixel == match origin@[i as int] {
                    Some(s) => layer.image.pixels@[s as int],
                    None => layer.image.pixels@[i as int],
                }
            {
                match origin[i] {
                    Some(s) => layer.image.pixels[s],
                    None => layer.image.pixels[i],
                }
            },
    );
    let mask_pixels: Vec<u8> = tabulate(
        size,
        |i: usize| -> (value: u8)
            requires
                i < size,
                layer.well_formed(),
                layer.image.pixels@.len() == size,
                origin@.len() == size,
                width == layer.image.width,
                height == layer.image.height,
                width > 0,
                -64 <= delta_x <= 64,
                -64 <= delta_y <= 64,
            ensures
                value == (if origin@[i as int] is Some {
                    255u8
                } else if gives(
                    layer,
                    (delta_x as int, delta_y as int),
                    i as int % w,
                    i as int / w,
                ) {
                    0u8
                } else {
                    layer.mask.pixels@[i as int]
                })
            {
                proof {
                    lemma_split(w, h, i as int);
                }
                let x: i64 = (i % (width as usize)) as i64 + delta_x;
                let y: i64 = (i / (width as usize)) as i64 + delta_y;
                if origin[i].is_some() {
                    255
                } else if layer.foreground_mask.pixels[i] > 0 && 0 <= x && x < width as i64 && 0 <= y
                    && y < height as i64 {
                    0
                } else {
                    layer.mask.pixels[i]
                }
            },
    );
    let foreground_pixels: Vec<u8> = tabulate(
        size,
        |i: usize| -> (value: u8)
            requires
                i < size,
                origin@.len() == size,
            ensures
                value == if origin@[i as int] is Some {
                    255u8
                } else {
                    0u8
                }
            {
                if origin[i].is_some() {
                    255
                } else {
                    0
                }
            },
    );
    let relaxed_pixels: Vec<u8> = tabulate(
        size,
        |i: usize| -> (value: u8)
            requires
                i < size,
                layer.relaxed_foreground_mask.pixels@.len() == size,
                origin@.len() == size,
                origin@[i as int] matches Some(s) ==> s < size,
            ensures
                value == match origin@[i as int] {
                    Some(s) => if layer.relaxed_foreground_mask.pixels@[s as int] > 0 {
                        255u8
                    } else {
                        0u8
                    },
                    None => 0u8,
                }
            {
                match origin[i] {
                    Some(s) => if layer.relaxed_foreground_mask.pixels[s] > 0 {
                        255
                    } else {
                        0
                    },
                    None => 0,
                }
            },
    );
    let aligned = RenderedFocusLayer {
        image: Raster { width, height, pixels: image_pixels },
        mask: Raster { width, height, pixels: mask_pixels },
        foreground_mask: Raster { width, height, pixels: foreground_pixels },
        relaxed_foreground_mask: Raster { width, height, pixels: relaxed_pixels },
        left: layer.left,
        top: layer.top,
    };
    proof {
        assert forall|x: int, y: int| 0 <= x < w && 0 <= y < h implies #[trigger] is_moved_pixel(
            &candidate,
            shift,
            &aligned,
            x,
            y,
        ) by {
            lemma_cell(w, h, x, y);
            let i = cell(w, x, y);
            assert(aligned.image.at(x, y) == image_pixels@[i]);
            assert(aligned.mask.at(x, y) == mask_pixels@[i]);
            assert(aligned.foreground_mask.at(x, y) == foreground_pixels@[i]);
            assert(aligned.relaxed_foreground_mask.at(x, y) == relaxed_pixels@[i]);
        }
        assert(foreground_shift(&candidate, merged_foreground_mask, search_radius as int) == Some(
            shift,
        ));
        assert(aligned.well_formed());
        assert(aligned.left == candidate.left && aligned.top == candidate.top);
        assert(has_moved_foreground(&candidate, shift, &aligned));
    }
    aligned
}

/// Foreground that moves takes everything along and leaves no double: its new place is valid
/// foreground with its own pixel, and its old place, unless other foreground comes there, is
/// neither foreground nor valid any more.
pub proof fn law_moved_foreground_leaves_no_double<P>(
    candidate: &RenderedFocusLayer<P>,
    shift: (int, int),
    moved: &RenderedFocusLayer<P>,
    x: int,
    y: int,
)
    requires
        candidate.well_formed(),
        has_moved_foreground(candidate, shift, moved),
        0 <= x < candidate.image.width,
        0 <= y < candidate.image.height,
        0 <= x + shift.0 < candidate.image.width,
        0 <= y + shift.1 < candidate.image.height,
        candidate.foreground_mask.at(x, y) > 0,
    ensures
        moved.image.at(x + shift.0, y + shift.1) == candidate.image.at(x, y),
        moved.mask.at(x + shift.0, y + shift.1) == 255,
        moved.foreground_mask.at(x + shift.0, y + shift.1) == 255,
        moved.relaxed_foreground_mask.at(x + shift.0, y + shift.1) > 0
            <==> candidate.relaxed_foreground_mask.at(x, y) > 0,
        !(0 <= x - shift.0 < candidate.image.width && 0 <= y - shift.1 < candidate.image.height
            && candidate.foreground_mask.at(x - shift.0, y - shift.1) > 0) ==> moved.mask.at(x, y)
            == 0 && moved.foreground_mask.at(x, y) == 0,
{
    assert(is_moved_pixel(candidate, shift, moved, x, y));
    assert(is_moved_pixel(candidate, shift, moved, x + shift.0, y + shift.1));
}

/// What is not foreground, and has none moved onto it, stays as it is; foreground is found only
/// where foreground has moved to.
pub proof fn law_background_stays_where_foreground_moves<P>(
    candidate: &RenderedFocusLayer<P>,
    shift: (int, int),
    moved: &RenderedFocusLayer<P>,
    x: int,
    y: int,
)
    requires
        candidate.well_formed(),
        has_moved_foreground(candidate, shift, moved),
        0 <= x < candidate.image.width,
        0 <= y < candidate.image.height,
        !(0 <= x - shift.0 < candidate.image.width && 0 <= y - shift.1 < candidate.image.height
            && candidate.foreground_mask.at(x - shift.0, y - shift.1) > 0),
    ensures
        moved.foreground_mask.at(x, y) == 0,
        moved.relaxed_foreground_mask.at(x, y) == 0,
        moved.image.at(x, y) == candidate.image.at(x, y),
        candidate.foreground_mask.at(x, y) == 0 ==> moved.mask.at(x, y) == candidate.mask.at(x, y),
{
    assert(is_moved_pixel(candidate, shift, moved, x, y));
}

/// 1 where the foreground of a layer, moved by the shift, lies on foreground of the canvas.
pub open spec fn coincidence<P>(
    candidate: &RenderedFocusLayer<P>,
    merged: &Raster<u8>,
    shift: (int, int),
) -> spec_fn(int) -> int {
    |i: int|
        {
            let x = candidate.left + i % candidate.image.width as int + shift.0;
            let y = candidate.top + i / candidate.image.width as int + shift.1;
            if candidate.foreground_mask.pixels@[i] > 0 && 0 <= x < merged.width && 0 <= y
                < merged.height && merged.at(x, y) > 0 {
                1
            } else {
                0
            }
        }
}

/// The shift of a foreground lies within the radius and is the best there: no other brings
/// more of the foreground onto the foreground of the canvas, and without it at least twelve
/// pixels fewer, and a twentieth fewer, lie there. Of a foreground of 4096 pixels or more, not
/// every pixel is counted.
pub proof fn law_foreground_is_moved_where_most_coincides<P>(
    candidate: &RenderedFocusLayer<P>,
    merged: &Raster<u8>,
    radius: int,
    shift: (int, int),
    other: (int, int),
)
    requires
        candidate.well_formed(),
        merged.well_formed(),
        candidate.image.width > 0,
        0 <= radius,
        foreground_shift(candidate, merged, radius) == Some(shift),
        set_count(
            candidate.foreground_mask.pixels@,
            candidate.foreground_mask.pixels@.len() as int,
        ) < 4096,
        -radius <= other.0 <= radius,
        -radius <= other.1 <= radius,
    ensures
        -radius <= shift.0 <= radius,
        -radius <= shift.1 <= radius,
        shift != (0int, 0int),
        ({
            let pixels = candidate.foreground_mask.pixels@.len() as int;
            let foreground = set_count(candidate.foreground_mask.pixels@, pixels);
            let found = sum_range(coincidence(candidate, merged, shift), 0, pixels);
            let without = sum_range(coincidence(candidate, merged, (0int, 0int)), 0, pixels);
            &&& found >= sum_range(coincidence(candidate, merged, other), 0, pixels)
            &&& found >= without + 12
            &&& found >= without + foreground / 20
        }),
{
    let foreground = candidate.foreground_mask.pixels@;
    let pixels = foreground.len() as int;
    let anchors = anchor_cells(foreground, 1, pixels);
    let side = 2 * radius + 1;
    assert(anchor_stride(foreground) == 1);
    lemma_all_are_anchors(candidate, merged, shift, pixels);
    lemma_all_are_anchors(candidate, merged, other, pixels);
    lemma_all_are_anchors(candidate, merged, (0int, 0int), pixels);
    lemma_best_shift(candidate, merged, anchors, radius, side * side, other);
    lemma_shift_is_tried(radius, other);
    assert(side * side >= 0) by (nonlinear_arith);
}

/// A foreground that stays where it is gains nothing much by a shift: if both foregrounds have
/// 32 pixels and fewer than 4096 are to be moved, every shift within the radius brings fewer
/// than twelve more, or fewer than a twentieth more, onto the foreground of the canvas.
pub proof fn law_foreground_stays_where_nothing_is_gained<P>(
    candidate: &RenderedFocusLayer<P>,
    merged: &Raster<u8>,
    radius: int,
    other: (int, int),
)
    requires
        candidate.well_formed(),
        merged.well_formed(),
        candidate.image.width > 0,
        0 <= radius,
        foreground_shift(candidate, merged, radius) is None,
        32 <= set_count(
            candidate.foreground_mask.pixels@,
            candidate.foreground_mask.pixels@.len() as int,
        ) < 4096,
        set_count(merged.pixels@, merged.pixels@.len() as int) >= 32,
        -radius <= other.0 <= radius,
        -radius <= other.1 <= radius,
    ensures
        ({
            let pixels = candidate.foreground_mask.pixels@.len() as int;
            let foreground = set_count(candidate.foreground_mask.pixels@, pixels);
            let found = sum_range(coincidence(candidate, merged, other), 0, pixels);
            let without = sum_range(coincidence(candidate, merged, (0int, 0int)), 0, pixels);
            found < without + 12 || found < without + foreground / 20
        }),
{
    let foreground = candidate.foreground_mask.pixels@;
    let pixels = foreground.len() as int;
    let anchors = anchor_cells(foreground, 1, pixels);
    let side = 2 * radius + 1;
    assert(anchor_stride(foreground) == 1);
    lemma_all_are_anchors(candidate, merged, other, pixels);
    lemma_all_are_anchors(candidate, merged, (0int, 0int), pixels);
    lemma_best_shift(candidate, merged, anchors, radius, side * side, other);
    lemma_shift_is_tried(radius, other);
    assert(side * side >= 0) by (nonlinear_arith);
    lemma_hits_are_positive(candidate, merged, anchors, (0int, 0int), anchors.len() as int);
}

proof fn lemma_hits_are_positive<P>(
    candidate: &RenderedFocusLayer<P>,
    merged: &Raster<u8>,
    anchors: Seq<int>,
    shift: (int, int),
    len: int,
)
    ensures
        0 <= hit_count(candidate, merged, anchors, shift, len),
    decreases len,
{
    if len > 0 {
        lemma_hits_are_positive(candidate, merged, anchors, shift, len - 1);
    }
}

proof fn lemma_hits_of_prefix<P>(
    candidate: &RenderedFocusLayer<P>,
    merged: &Raster<u8>,
    anchors: Seq<int>,
    more: int,
    shift: (int, int),
    len: int,
)
    requires
        len <= anchors.len(),
    ensures
        hit_count(candidate, merged, anchors.push(more), shift, len) == hit_count(
            candidate,
            merged,
            anchors,
            shift,
            len,
        ),
    decreases len,
{
    if len > 0 {
        lemma_hits_of_prefix(candidate, merged, anchors, more, shift, len - 1);
        assert(anchors.push(more)[len - 1] == anchors[len - 1]);
    }
}

/// With a stride of one every foreground pixel is an anchor, and the hits are the foreground
/// pixels that coincide.
proof fn lemma_all_are_anchors<P>(
    candidate: &RenderedFocusLayer<P>,
    merged: &Raster<u8>,
    shift: (int, int),
    len: int,
)
    requires
        0 <= len,
    ensures
        anchor_cells(candidate.foreground_mask.pixels@, 1, len).len() == set_count(
            candidate.foreground_mask.pixels@,
            len,
        ),
        hit_count(
            candidate,
            merged,
            anchor_cells(candidate.foreground_mask.pixels@, 1, len),
            shift,
            anchor_cells(candidate.foreground_mask.pixels@, 1, len).len() as int,
        ) == sum_range(coincidence(candidate, merged, shift), 0, len),
    decreases len,
{
    let foreground = candidate.foreground_mask.pixels@;
    if len > 0 {
        lemma_all_are_anchors(candidate, merged, shift, len - 1);
        let before = anchor_cells(foreground, 1, len - 1);
        let f = coincidence(candidate, merged, shift);
        assert(set_count(foreground, len - 1) % 1 == 0);
        if foreground[len - 1] > 0 {
            lemma_hits_of_prefix(
                candidate,
                merged,
                before,
                len - 1,
                shift,
                before.len() as int,
            );
            assert(before.push(len - 1)[before.len() as int] == len - 1);
            assert(f(len - 1) == if anchor_hits(candidate, merged, len - 1, shift) {
                1int
            } else {
                0
            });
        } else {
            assert(f(len - 1) == 0);
        }
    }
}

/// The place of a shift in the pass over all shifts.
proof fn lemma_shift_is_tried(radius: int, shift: (int, int))
    requires
        0 <= radius,
        -radius <= shift.0 <= radius,
        -radius <= shift.1 <= radius,
    ensures
        ({
            let side = 2 * radius + 1;
            let n = (shift.1 + radius) * side + (shift.0 + radius);
            0 <= n < side * side && shift_at(radius, n) == shift
        }),
{
    let side = 2 * radius + 1;
    lemma_cell(side, side, shift.0 + radius, shift.1 + radius);
}

proof fn lemma_best_shift<P>(
    candidate: &RenderedFocusLayer<P>,
    merged: &Raster<u8>,
    anchors: Seq<int>,
    radius: int,
    n: int,
    other: (int, int),
)
    requires
        0 <= radius,
        0 <= n <= (2 * radius + 1) * (2 * radius + 1),
    ensures
        ({
            let (shift, hits) = best_shift(candidate, merged, anchors, radius, n);
            let all = anchors.len() as int;
            &&& -radius <= shift.0 <= radius
            &&& -radius <= shift.1 <= radius
            &&& hits == hit_count(candidate, merged, anchors, shift, all)
            &&& hits >= hit_count(candidate, merged, anchors, (0int, 0int), all)
            &&& forall|k: int|
                0 <= k < n && #[trigger] shift_at(radius, k) == other ==> hits >= hit_count(
                    candidate,
                    merged,
                    anchors,
                    other,
                    all,
                )
        }),
    decreases n,
{
    if n > 0 {
        lemma_best_shift(candidate, merged, anchors, radius, n - 1, other);
        let side = 2 * radius + 1;
        lemma_split(side, side, n - 1);
        let k = n - 1;
        assert(shift_at(radius, k) == shift_at(radius, k));
    }
}

/// The pixel of a foreground is counted: one of every so many foreground pixels is, the first one
/// among them, so that of a large foreground no more than some thousands are.
pub open spec fn is_counted(foreground: Seq<u8>, i: int) -> bool {
    let part = set_count(foreground, foreground.len() as int) / 2048;
    foreground[i] > 0 && (part <= 1 || set_count(foreground, i) % part == 0)
}

/// 1 where a pixel is counted, and lies on foreground of the canvas when it is moved.
pub open spec fn counted_coincidence<P>(
    candidate: &RenderedFocusLayer<P>,
    merged: &Raster<u8>,
    shift: (int, int),
) -> spec_fn(int) -> int {
    |i: int|
        if is_counted(candidate.foreground_mask.pixels@, i) {
            coincidence(candidate, merged, shift)(i)
        } else {
            0
        }
}

/// 1 where a pixel is counted.
pub open spec fn counted<P>(candidate: &RenderedFocusLayer<P>) -> spec_fn(int) -> int {
    |i: int|
        if is_counted(candidate.foreground_mask.pixels@, i) {
            1
        } else {
            0
        }
}

/// A foreground of any size is moved where most of its counted pixels lie on the foreground of
/// the canvas: no shift within the radius brings more there, one that is tried earlier, row by
/// row, brings fewer, and without a shift there are twelve fewer, and a twentieth of all that are
/// counted.
pub proof fn law_counted_pixels_decide_the_shift<P>(
    candidate: &RenderedFocusLayer<P>,
    merged: &Raster<u8>,
    radius: int,
    shift: (int, int),
    other: (int, int),
)
    requires
        candidate.well_formed(),
        merged.well_formed(),
        candidate.image.width > 0,
        0 <= radius,
        foreground_shift(candidate, merged, radius) == Some(shift),
        -radius <= other.0 <= radius,
        -radius <= other.1 <= radius,
    ensures
        -radius <= shift.0 <= radius,
        -radius <= shift.1 <= radius,
        shift != (0int, 0int),
        ({
            let pixels = candidate.foreground_mask.pixels@.len() as int;
            let all = sum_range(counted(candidate), 0, pixels);
            let found = sum_range(counted_coincidence(candidate, merged, shift), 0, pixels);
            let without = sum_range(
                counted_coincidence(candidate, merged, (0int, 0int)),
                0,
                pixels,
            );
            let others = sum_range(counted_coincidence(candidate, merged, other), 0, pixels);
            &&& found >= others
            &&& other.1 < shift.1 || other.1 == shift.1 && other.0 < shift.0 ==> found > others
            &&& found >= without + 12
            &&& found >= without + all / 20
        }),
{
    let foreground = candidate.foreground_mask.pixels@;
    let pixels = foreground.len() as int;
    let anchors = anchor_cells(foreground, anchor_stride(foreground), pixels);
    let side = 2 * radius + 1;
    lemma_counted_are_anchors(candidate, merged, shift, pixels);
    lemma_counted_are_anchors(candidate, merged, other, pixels);
    lemma_counted_are_anchors(candidate, merged, (0int, 0int), pixels);
    lemma_best_shift(candidate, merged, anchors, radius, side * side, other);
    lemma_first_best_shift(candidate, merged, anchors, radius, side * side, other);
    lemma_shift_is_tried(radius, other);
    assert(side * side >= 0) by (nonlinear_arith);
}

/// A foreground of any size stays where it is only if it is too small, or no shift within the
/// radius gains twelve of its counted pixels and a twentieth of them.
pub proof fn law_counted_pixels_keep_the_place<P>(
    candidate: &RenderedFocusLayer<P>,
    merged: &Raster<u8>,
    radius: int,
    other: (int, int),
)
    requires
        candidate.well_formed(),
        merged.well_formed(),
        candidate.image.width > 0,
        0 <= radius,
        foreground_shift(candidate, merged, radius) is None,
        sum_range(counted(candidate), 0, candidate.foreground_mask.pixels@.len() as int) >= 32,
        set_count(merged.pixels@, merged.pixels@.len() as int) >= 32,
        -radius <= other.0 <= radius,
        -radius <= other.1 <= radius,
    ensures
        ({
            let pixels = candidate.foreground_mask.pixels@.len() as int;
            let all = sum_range(counted(candidate), 0, pixels);
            let found = sum_range(counted_coincidence(candidate, merged, other), 0, pixels);
            let without = sum_range(
                counted_coincidence(candidate, merged, (0int, 0int)),
                0,
                pixels,
            );
            found < without + 12 || found < without + all / 20
        }),
{
    let foreground = candidate.foreground_mask.pixels@;
    let pixels = foreground.len() as int;
    let anchors = anchor_cells(foreground, anchor_stride(foreground), pixels);
    let side = 2 * radius + 1;
    let (shift, hits) = best_shift(candidate, merged, anchors, radius, side * side);
    lemma_counted_are_anchors(candidate, merged, other, pixels);
    lemma_counted_are_anchors(candidate, merged, (0int, 0int), pixels);
    lemma_best_shift(candidate, merged, anchors, radius, side * side, other);
    lemma_shift_is_tried(radius, other);
    assert(side * side >= 0) by (nonlinear_arith);
    lemma_hits_are_positive(candidate, merged, anchors, (0int, 0int), anchors.len() as int);
    assert(anchors.len() <= set_count(foreground, pixels));
}

/// The anchors are the pixels that are counted, and their hits those that coincide.
proof fn lemma_counted_are_anchors<P>(
    candidate: &RenderedFocusLayer<P>,
    merged: &Raster<u8>,
    shift: (int, int),
    len: int,
)
    requires
        0 <= len,
    ensures
        ({
            let foreground = candidate.foreground_mask.pixels@;
            let anchors = anchor_cells(foreground, anchor_stride(foreground), len);
            &&& anchors.len() == sum_range(counted(candidate), 0, len)
            &&& anchors.len() <= set_count(foreground, len)
            &&& hit_count(candidate, merged, anchors, shift, anchors.len() as int) == sum_range(
                counted_coincidence(candidate, merged, shift),
                0,
                len,
            )
        }),
    decreases len,
{
    let foreground = candidate.foreground_mask.pixels@;
    let stride = anchor_stride(foreground);
    if len > 0 {
        lemma_counted_are_anchors(candidate, merged, shift, len - 1);
        let before = anchor_cells(foreground, stride, len - 1);
        let f = counted_coincidence(candidate, merged, shift);
        assert(set_count(foreground, len - 1) % 1 == 0);
        assert(is_counted(foreground, len - 1) == (foreground[len - 1] > 0 && set_count(
            foreground,
            len - 1,
        ) % stride == 0));
        assert(counted(candidate)(len - 1) == if is_counted(foreground, len - 1) {
            1int
        } else {
            0
        });
        if is_counted(foreground, len - 1) {
            lemma_hits_of_prefix(
                candidate,
                merged,
                before,
                len - 1,
                shift,
                before.len() as int,
            );
            assert(before.push(len - 1)[before.len() as int] == len - 1);
            assert(f(len - 1) == if anchor_hits(candidate, merged, len - 1, shift) {
                1int
            } else {
                0
            });
        } else {
            assert(f(len - 1) == 0);
        }
    }
}

/// A shift that was tried before the best one has fewer hits.
proof fn lemma_first_best_shift<P>(
    candidate: &RenderedFocusLayer<P>,
    merged: &Raster<u8>,
    anchors: Seq<int>,
    radius: int,
    n: int,
    other: (int, int),
)
    requires
        0 <= radius,
        0 <= n <= (2 * radius + 1) * (2 * radius + 1),
        -radius <= other.0 <= radius,
        -radius <= other.1 <= radius,
    ensures
        ({
            let (shift, hits) = best_shift(candidate, merged, anchors, radius, n);
            shift != (0int, 0int) && (other.1 < shift.1 || other.1 == shift.1 && other.0 < shift.0)
                ==> hits > hit_count(candidate, merged, anchors, other, anchors.len() as int)
        }),
    decreases n,
{
    if n > 0 {
        let side = 2 * radius + 1;
        lemma_first_best_shift(candidate, merged, anchors, radius, n - 1, other);
        lemma_best_shift(candidate, merged, anchors, radius, n - 1, other);
        lemma_shift_is_tried(radius, other);
        lemma_split(side, side, n - 1);
        let place = (other.1 + radius) * side + (other.0 + radius);
        let shift = shift_at(radius, n - 1);
        if other.1 < shift.1 || other.1 == shift.1 && other.0 < shift.0 {
            vstd::arithmetic::div_mod::lemma_fundamental_div_mod(n - 1, side);
            assert(place < n - 1) by (nonlinear_arith)
                requires
                    side == 2 * radius + 1,
                    place == (other.1 + radius) * side + (other.0 + radius),
                    n - 1 == side * ((n - 1) / side) + (n - 1) % side,
                    shift.0 == (n - 1) % side - radius,
                    shift.1 == (n - 1) / side - radius,
                    -radius <= other.0 <= radius,
                    0 <= (n - 1) % side,
                    other.1 < shift.1 || other.1 == shift.1 && other.0 < shift.0,
            ;
            assert(shift_at(radius, place) == other);
        }
    }
}

/// A layer whose foreground moves stays where it is on the canvas, with its size. Foreground that
/// the shift would take off the layer goes nowhere: its pixel stays valid if it was, but is
/// foreground no more, unless other foreground comes there.
pub proof fn law_layers_stay_where_their_foreground_moves<P>(
    candidate: &RenderedFocusLayer<P>,
    shift: (int, int),
    moved: &RenderedFocusLayer<P>,
    x: int,
    y: int,
)
    requires
        candidate.well_formed(),
        has_moved_foreground(candidate, shift, moved),
        0 <= x < candidate.image.width,
        0 <= y < candidate.image.height,
        candidate.foreground_mask.at(x, y) > 0,
        !(0 <= x + shift.0 < candidate.image.width && 0 <= y + shift.1 < candidate.image.height),
        !(0 <= x - shift.0 < candidate.image.width && 0 <= y - shift.1 < candidate.image.height
            && candidate.foreground_mask.at(x - shift.0, y - shift.1) > 0),
    ensures
        moved.left == candidate.left,
        moved.top == candidate.top,
        moved.image.width == candidate.image.width,
        moved.image.height == candidate.image.height,
        moved.mask.at(x, y) == candidate.mask.at(x, y),
        moved.foreground_mask.at(x, y) == 0,
{
    assert(is_moved_pixel(candidate, shift, moved, x, y));
}

/// Only foreground of 32 pixels or more is moved, onto foreground of as many, and as many of its
/// pixels are counted.
pub proof fn law_small_foreground_stays<P>(
    candidate: &RenderedFocusLayer<P>,
    merged: &Raster<u8>,
    radius: int,
)
    requires
        foreground_shift(candidate, merged, radius) is Some,
    ensures
        set_count(
            candidate.foreground_mask.pixels@,
            candidate.foreground_mask.pixels@.len() as int,
        ) >= 32,
        set_count(merged.pixels@, merged.pixels@.len() as int) >= 32,
        sum_range(counted(candidate), 0, candidate.foreground_mask.pixels@.len() as int) >= 32,
{
    lemma_counted_are_anchors(
        candidate,
        merged,
        (0int, 0int),
        candidate.foreground_mask.pixels@.len() as int,
    );
}

} // verus!
