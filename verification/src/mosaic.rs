//! Assembly of a detail-preserving mosaic: the plan for each source and the pixels that
//! it writes into the canvas.

use vstd::prelude::*;

use crate::bounds::Bounds;
use crate::grid::cell;
use crate::grid::lemma_cell;
use crate::grid::lemma_split;
use crate::raster::fits_inside;
use crate::raster::in_region;
use crate::raster::update_region;
use crate::raster::Raster;
use crate::tiles::AnalysisRegion;
use crate::tiles::CanvasPixel;

verus! {

/// The longer side of the reduced view that a source is registered in.
pub const ANALYSIS_LONG_SIDE: u32 = 1400;

/// The longer side of the ownership grid of a source.
pub const SELECTION_LONG_SIDE: u32 = 512;

/// The same in a long sequence.
pub const LONG_SEQUENCE_SELECTION_LONG_SIDE: u32 = 256;

/// The longer side of the view in which seams are harmonised.
pub const STREAMING_HARMONIZATION_LONG_SIDE: u32 = 2400;

/// A canvas with more pixels is kept in tiles.
pub const STREAMING_CANVAS_MIN_PIXELS: u64 = 120_000_000;

/// The most sources of a sequence that are registered one by one.
pub const SHORT_SEQUENCE: usize = 8;

/// The least overlap of a source with the covered part of the canvas.
pub const LEAST_OVERLAP: u32 = 128;

/// Whether the canvas is kept in tiles.
pub fn streams_canvas(
    capture_groups: usize,
    sequence_gap_aware: bool,
    images: usize,
    width: u32,
    height: u32,
) -> (streams: bool)
    ensures
        streams == (capture_groups > 1 || sequence_gap_aware && images > 8 || width * height
            > 120_000_000),
{
    assert(width * height <= 0xffff_ffff * 0xffff_ffff) by (nonlinear_arith)
        requires
            width <= 0xffff_ffff,
            height <= 0xffff_ffff,
    ;
    assert(0 <= width * height) by (nonlinear_arith);
    let pixels: u64 = (width as u64) * (height as u64);
    capture_groups > 1 || sequence_gap_aware && images > SHORT_SEQUENCE || pixels
        > STREAMING_CANVAS_MIN_PIXELS
}

/// The length that two spans share; both ends of a span belong to it, and the last
/// shared pixel is not counted.
pub open spec fn shared_length(start: int, end: int, other_start: int, other_end: int) -> int {
    let first = if start < other_start {
        other_start
    } else {
        start
    };
    let last = if end < other_end {
        end
    } else {
        other_end
    };
    if last < first {
        0
    } else {
        last - first
    }
}

/// The source overlaps the covered part of the canvas enough to be registered.
pub open spec fn overlaps(covered: Option<Bounds>, layer: Bounds) -> bool {
    match covered {
        Some(area) => shared_length(
            layer.left as int,
            layer.right as int,
            area.left as int,
            area.right as int,
        ) >= LEAST_OVERLAP && shared_length(
            layer.top as int,
            layer.bottom as int,
            area.top as int,
            area.bottom as int,
        ) >= LEAST_OVERLAP,
        None => false,
    }
}

fn span_overlap(start: u32, end: u32, other_start: u32, other_end: u32) -> (length: u32)
    ensures
        length == shared_length(start as int, end as int, other_start as int, other_end as int),
{
    let first: u32 = if start < other_start {
        other_start
    } else {
        start
    };
    let last: u32 = if end < other_end {
        end
    } else {
        other_end
    };
    if last < first {
        0
    } else {
        last - first
    }
}

/// The smallest box around two boxes.
pub open spec fn joined(covered: Option<Bounds>, layer: Bounds) -> Bounds {
    match covered {
        Some(area) => Bounds {
            left: if area.left < layer.left {
                area.left
            } else {
                layer.left
            },
            right: if area.right > layer.right {
                area.right
            } else {
                layer.right
            },
            top: if area.top < layer.top {
                area.top
            } else {
                layer.top
            },
            bottom: if area.bottom > layer.bottom {
                area.bottom
            } else {
                layer.bottom
            },
        },
        None => layer,
    }
}

/// The part of the canvas that may be covered once a source has been added.
pub fn extend_coverage(covered: Option<Bounds>, layer: Bounds) -> (extended: Bounds)
    ensures
        extended == joined(covered, layer),
{
    match covered {
        Some(area) => Bounds {
            left: if area.left < layer.left {
                area.left
            } else {
                layer.left
            },
            right: if area.right > layer.right {
                area.right
            } else {
                layer.right
            },
            top: if area.top < layer.top {
                area.top
            } else {
                layer.top
            },
            bottom: if area.bottom > layer.bottom {
                area.bottom
            } else {
                layer.bottom
            },
        },
        None => layer,
    }
}

/// No pixel of the covered part is lost, and the box holds the new source.
pub proof fn law_coverage_is_kept(covered: Option<Bounds>, layer: Bounds, x: int, y: int)
    ensures
        layer.contains(x, y) ==> joined(covered, layer).contains(x, y),
        covered matches Some(area) && area.contains(x, y) ==> joined(covered, layer).contains(x, y),
{
}

/// What is done with a source.
#[derive(Clone, Copy, Debug, PartialEq, Eq, Structural)]
pub enum LayerPlan {
    /// Its pixels are copied as they are: it overlaps nothing.
    Copy,
    /// It competes for cells.
    Select {
        /// Its position is refined first.
        refine: bool,
        /// Its colour is matched to the canvas first.
        match_tone: bool,
        /// The longer side of its ownership grid.
        long_side: u32,
    },
}

pub open spec fn layer_plan(
    index: int,
    images: int,
    sequence_gap_aware: bool,
    covered: Option<Bounds>,
    layer: Bounds,
) -> LayerPlan {
    if sequence_gap_aware && !overlaps(covered, layer) {
        LayerPlan::Copy
    } else {
        LayerPlan::Select {
            refine: index > 0 && (!sequence_gap_aware || images <= SHORT_SEQUENCE),
            match_tone: index > 0,
            long_side: if sequence_gap_aware && images > SHORT_SEQUENCE {
                LONG_SEQUENCE_SELECTION_LONG_SIDE
            } else {
                SELECTION_LONG_SIDE
            },
        }
    }
}

/// Plans the source at a place of the stack.
pub fn plan_layer(
    index: usize,
    images: usize,
    sequence_gap_aware: bool,
    covered: Option<Bounds>,
    layer: Bounds,
) -> (plan: LayerPlan)
    ensures
        plan == layer_plan(index as int, images as int, sequence_gap_aware, covered, layer),
{
    let overlapping: bool = match covered {
        Some(area) => span_overlap(layer.left, layer.right, area.left, area.right) >= LEAST_OVERLAP
            && span_overlap(layer.top, layer.bottom, area.top, area.bottom) >= LEAST_OVERLAP,
        None => false,
    };
    if sequence_gap_aware && !overlapping {
        LayerPlan::Copy
    } else {
        LayerPlan::Select {
            refine: index > 0 && (!sequence_gap_aware || images <= SHORT_SEQUENCE),
            match_tone: index > 0,
            long_side: if sequence_gap_aware && images > SHORT_SEQUENCE {
                LONG_SEQUENCE_SELECTION_LONG_SIDE
            } else {
                SELECTION_LONG_SIDE
            },
        }
    }
}

/// The capture group of a source: the given one, or one of its own.
pub fn capture_group(given: Option<u8>, index: usize) -> (group: u8)
    requires
        given is Some || index < 255,
    ensures
        group == match given {
            Some(id) => id as int,
            None => index + 1,
        },
{
    match given {
        Some(id) => id,
        None => (index + 1) as u8,
    }
}

/// Notes the capture group of a source; true for its first source.
pub fn enter_group(seen: &mut Vec<u8>, group: u8) -> (first: bool)
    ensures
        first == !old(seen)@.contains(group),
        final(seen)@ == if old(seen)@.contains(group) {
            old(seen)@
        } else {
            old(seen)@.push(group)
        },
{
    let mut i: usize = 0;
    while i < seen.len()
        invariant
            i <= seen@.len(),
            seen@ == old(seen)@,
            forall|k: int| 0 <= k < i ==> #[trigger] seen@[k] != group,
        decreases seen@.len() - i,
    {
        if seen[i] == group {
            assert(seen@.contains(group));
            return false;
        }
        i += 1;
    }
    seen.push(group);
    true
}

/// The covered pixels that belong to a capture group. A later frame of the group is
/// registered against these alone.
pub fn group_refinement_mask(mask: &Raster<u8>, owner: &Raster<u8>, group: u8) -> (own: Raster<u8>)
    requires
        mask.well_formed(),
        owner.well_formed(),
        owner.same_size(mask),
    ensures
        own.well_formed(),
        own.same_size(mask),
        forall|i: int|
            0 <= i < mask.pixels@.len() ==> #[trigger] own.pixels@[i] == if mask.pixels@[i] != 0
                && owner.pixels@[i] == group {
                255u8
            } else {
                0u8
            },
{
    let mut pixels: Vec<u8> = Vec::new();
    let mut i: usize = 0;
    while i < mask.pixels.len()
        invariant
            i <= mask.pixels@.len(),
            mask.pixels@.len() == owner.pixels@.len(),
            pixels@.len() == i,
            forall|k: int|
                0 <= k < i ==> #[trigger] pixels@[k] == if mask.pixels@[k] != 0
                    && owner.pixels@[k] == group {
                    255u8
                } else {
                    0u8
                },
        decreases mask.pixels@.len() - i,
    {
        pixels.push(
            if mask.pixels[i] != 0 && owner.pixels[i] == group {
                255
            } else {
                0
            },
        );
        i += 1;
    }
    Raster { width: mask.width, height: mask.height, pixels }
}

/// A tile of the canvas, or the whole of it.
pub struct CanvasTile<P> {
    pub image: Raster<P>,
    pub mask: Raster<u8>,
    pub owner: Raster<u8>,
}

impl<P> CanvasTile<P> {
    pub open spec fn well_formed(&self) -> bool {
        &&& self.image.well_formed()
        &&& self.mask.well_formed()
        &&& self.owner.well_formed()
        &&& self.mask.same_size(&self.image)
        &&& self.owner.same_size(&self.image)
    }

    pub open spec fn same_size(&self, other: &CanvasTile<P>) -> bool {
        self.image.same_size(&other.image)
    }

    /// The region is not empty and lies inside of the tile.
    pub open spec fn holds<Q>(&self, left: int, top: int, region: &Raster<Q>) -> bool {
        &&& region.well_formed()
        &&& fits_inside(
            left,
            top,
            region.width as int,
            region.height as int,
            self.image.width as int,
            self.image.height as int,
        )
    }
}

/// The pixel has been taken from a source.
pub open spec fn is_placed<P>(
    before: &CanvasTile<P>,
    after: &CanvasTile<P>,
    group: u8,
    x: int,
    y: int,
    sample: Option<P>,
    taken: bool,
) -> bool {
    if taken {
        &&& sample == Some(after.image.at(x, y))
        &&& after.mask.at(x, y) == 255
        &&& after.owner.at(x, y) == group
    } else {
        &&& after.image.at(x, y) == before.image.at(x, y)
        &&& after.mask.at(x, y) == before.mask.at(x, y)
        &&& after.owner.at(x, y) == before.owner.at(x, y)
    }
}

/// The place of a pixel in a region.
pub open spec fn region_index<Q>(region: &Raster<Q>, left: int, top: int, x: int, y: int) -> int {
    cell(region.width as int, x - left, y - top)
}

/// The pixel of the tile lies in the region.
pub open spec fn covers_pixel<Q>(region: &Raster<Q>, left: int, top: int, x: int, y: int) -> bool {
    in_region(left, top, region.width as int, region.height as int, x, y)
}

/// Writes the taken samples of a region into a tile.
fn place_taken<P: Copy>(
    tile: &mut CanvasTile<P>,
    group: u8,
    left: u32,
    top: u32,
    samples: &Raster<Option<P>>,
    taken: &Vec<bool>,
)
    requires
        old(tile).well_formed(),
        old(tile).holds(left as int, top as int, samples),
        taken@.len() == samples.pixels@.len(),
        forall|i: int|
            0 <= i < taken@.len() && #[trigger] taken@[i] ==> samples.pixels@[i] is Some,
    ensures
        final(tile).well_formed(),
        final(tile).same_size(old(tile)),
        forall|x: int, y: int|
            #![trigger final(tile).image.at(x, y)]
            #![trigger final(tile).mask.at(x, y)]
            #![trigger final(tile).owner.at(x, y)]
            0 <= x < old(tile).image.width && 0 <= y < old(tile).image.height ==> is_placed(
                old(tile),
                final(tile),
                group,
                x,
                y,
                samples.pixels@[region_index(samples, left as int, top as int, x, y)],
                covers_pixel(samples, left as int, top as int, x, y) && taken@[region_index(
                    samples,
                    left as int,
                    top as int,
                    x,
                    y,
                )],
            ),
{
    let ghost before = *tile;
    let ghost (w, h) = (samples.width as int, samples.height as int);
    let size: usize = samples.pixels.len();
    proof {
        assert forall|a: int, b: int| in_region(left as int, top as int, w, h, a, b) implies 0
            <= #[trigger] cell(w, a - left, b - top) < size by {
            lemma_cell(w, h, a - left, b - top);
        }
    }
    update_region(
        &mut tile.image,
        left,
        top,
        samples.width,
        samples.height,
        |local: usize, global: usize, pixel: P| -> (next: P)
            requires
                local < taken@.len(),
                taken@.len() == samples.pixels@.len(),
            ensures
                next == match samples.pixels@[local as int] {
                    Some(sample) => if taken@[local as int] {
                        sample
                    } else {
                        pixel
                    },
                    None => pixel,
                }
            {
                match samples.pixels[local] {
                    Some(sample) => if taken[local] {
                        sample
                    } else {
                        pixel
                    },
                    None => pixel,
                }
            },
    );
    update_region(
        &mut tile.mask,
        left,
        top,
        samples.width,
        samples.height,
        |local: usize, global: usize, pixel: u8| -> (next: u8)
            requires
                local < taken@.len(),
            ensures
                next == if taken@[local as int] {
                    255u8
                } else {
                    pixel
                }
            {
                if taken[local] {
                    255
                } else {
                    pixel
                }
            },
    );
    update_region(
        &mut tile.owner,
        left,
        top,
        samples.width,
        samples.height,
        |local: usize, global: usize, pixel: u8| -> (next: u8)
            requires
                local < taken@.len(),
            ensures
                next == if taken@[local as int] {
                    group
                } else {
                    pixel
                }
            {
                if taken[local] {
                    group
                } else {
                    pixel
                }
            },
    );
    assert forall|x: int, y: int|
        #![trigger tile.image.at(x, y)]
        #![trigger tile.mask.at(x, y)]
        #![trigger tile.owner.at(x, y)]
        0 <= x < before.image.width && 0 <= y < before.image.height implies is_placed(
        &before,
        tile,
        group,
        x,
        y,
        samples.pixels@[region_index(samples, left as int, top as int, x, y)],
        covers_pixel(samples, left as int, top as int, x, y) && taken@[region_index(
            samples,
            left as int,
            top as int,
            x,
            y,
        )],
    ) by {
        let i = region_index(samples, left as int, top as int, x, y);
        let (image, mask, owner) = (tile.image.at(x, y), tile.mask.at(x, y), tile.owner.at(x, y));
        if covers_pixel(samples, left as int, top as int, x, y) {
            lemma_cell(w, h, x - left, y - top);
            assert(taken@[i] ==> samples.pixels@[i] is Some);
        }
    }
}

/// Marks the samples of a region that exist and that `keep` accepts.
fn mark_taken<P: Copy, F: Fn(u32, u32) -> bool>(samples: &Raster<Option<P>>, keep: F) -> (taken: Vec<
    bool,
>)
    requires
        samples.well_formed(),
        forall|x: u32, y: u32|
            x < samples.width && y < samples.height ==> #[trigger] call_requires(keep, (x, y)),
    ensures
        taken@.len() == samples.pixels@.len(),
        forall|a: int, b: int|
            #![trigger taken@[cell(samples.width as int, a, b)]]
            0 <= a < samples.width && 0 <= b < samples.height ==> if taken@[cell(
                samples.width as int,
                a,
                b,
            )] {
                samples.at(a, b) is Some && call_ensures(keep, (a as u32, b as u32), true)
            } else {
                samples.at(a, b) is None || call_ensures(keep, (a as u32, b as u32), false)
            },
        forall|i: int|
            0 <= i < taken@.len() && #[trigger] taken@[i] ==> samples.pixels@[i] is Some,
{
    let (width, height) = (samples.width, samples.height);
    let size: usize = samples.pixels.len();
    let mut taken: Vec<bool> = Vec::new();
    let mut y: u32 = 0;
    while y < height
        invariant
            y <= height,
            samples.well_formed(),
            width == samples.width,
            height == samples.height,
            size == samples.pixels@.len(),
            forall|a: u32, b: u32|
                a < width && b < height ==> #[trigger] call_requires(keep, (a, b)),
            taken@.len() == y * width,
            forall|a: int, b: int|
                #![trigger taken@[cell(width as int, a, b)]]
                0 <= a < width && 0 <= b < y ==> if taken@[cell(width as int, a, b)] {
                    samples.at(a, b) is Some && call_ensures(keep, (a as u32, b as u32), true)
                } else {
                    samples.at(a, b) is None || call_ensures(keep, (a as u32, b as u32), false)
                },
        decreases height - y,
    {
        let mut x: u32 = 0;
        while x < width
            invariant
                x <= width,
                y < height,
                samples.well_formed(),
                width == samples.width,
                height == samples.height,
                size == samples.pixels@.len(),
                forall|a: u32, b: u32|
                    a < width && b < height ==> #[trigger] call_requires(keep, (a, b)),
                taken@.len() == y * width + x,
                forall|a: int, b: int|
                    #![trigger taken@[cell(width as int, a, b)]]
                    0 <= a < width && 0 <= b < height && (b < y || b == y && a < x) ==> if taken@[cell(
                        width as int,
                        a,
                        b,
                    )] {
                        samples.at(a, b) is Some && call_ensures(keep, (a as u32, b as u32), true)
                    } else {
                        samples.at(a, b) is None || call_ensures(keep, (a as u32, b as u32), false)
                    },
            decreases width - x,
        {
            let sample: Option<P> = samples.pixel(x, y);
            let kept: bool = keep(x, y);
            let ghost earlier = taken@;
            taken.push(sample.is_some() && kept);
            proof {
                lemma_cell(width as int, height as int, x as int, y as int);
                assert forall|a: int, b: int|
                    #![trigger taken@[cell(width as int, a, b)]]
                    0 <= a < width && 0 <= b < height && (b < y || b == y && a < x + 1) implies if taken@[cell(
                    width as int,
                    a,
                    b,
                )] {
                    samples.at(a, b) is Some && call_ensures(keep, (a as u32, b as u32), true)
                } else {
                    samples.at(a, b) is None || call_ensures(keep, (a as u32, b as u32), false)
                } by {
                    lemma_cell(width as int, height as int, a, b);
                    if b < y || a < x {
                        lemma_before(width as int, a, b, x as int, y as int);
                        assert(taken@[cell(width as int, a, b)] == earlier[cell(width as int, a, b)]);
                    }
                }
            }
            x += 1;
        }
        assert((y + 1) * width == y * width + width) by (nonlinear_arith);
        y += 1;
    }
    assert(height * width == width * height) by (nonlinear_arith);
    assert forall|i: int| 0 <= i < taken@.len() && #[trigger] taken@[i] implies samples.pixels@[i] is Some by {
        assert(width > 0) by (nonlinear_arith)
            requires
                0 < width * height,
                0 <= width,
                0 <= height,
        ;
        crate::grid::lemma_split(width as int, height as int, i);
        assert(taken@[cell(width as int, i % width as int, i / width as int)]);
    }
    taken
}

/// The tile after samples of a source were written into it: `takes` says for each pixel
/// of the region whether its sample is taken.
pub open spec fn is_written<P>(
    before: &CanvasTile<P>,
    after: &CanvasTile<P>,
    group: u8,
    left: int,
    top: int,
    samples: &Raster<Option<P>>,
    takes: spec_fn(int, int) -> bool,
) -> bool {
    &&& after.well_formed()
    &&& after.same_size(before)
    &&& forall|x: int, y: int|
        #![trigger after.image.at(x, y)]
        #![trigger after.mask.at(x, y)]
        #![trigger after.owner.at(x, y)]
        0 <= x < before.image.width && 0 <= y < before.image.height ==> is_placed(
            before,
            after,
            group,
            x,
            y,
            samples.at(x - left, y - top),
            covers_pixel(samples, left, top, x, y) && samples.at(x - left, y - top) is Some && takes(
                x,
                y,
            ),
        )
}

/// Copies every sample of a source that has no overlap with the canvas.
pub fn copy_streaming_tile_region<P: Copy>(
    tile: &mut CanvasTile<P>,
    group: u8,
    left: u32,
    top: u32,
    samples: &Raster<Option<P>>,
)
    requires
        old(tile).well_formed(),
        old(tile).holds(left as int, top as int, samples),
    ensures
        is_written(
            old(tile),
            final(tile),
            group,
            left as int,
            top as int,
            samples,
            |x: int, y: int| true,
        ),
{
    let ghost before = *tile;
    let ghost takes = |x: int, y: int| true;
    let taken: Vec<bool> = mark_taken(
        samples,
        |x: u32, y: u32| -> (keep: bool)
            ensures
                keep
            { true },
    );
    place_taken(tile, group, left, top, samples, &taken);
    proof {
        lemma_written(&before, tile, group, left as int, top as int, samples, taken@, takes);
    }
}

proof fn lemma_written<P>(
    before: &CanvasTile<P>,
    after: &CanvasTile<P>,
    group: u8,
    left: int,
    top: int,
    samples: &Raster<Option<P>>,
    taken: Seq<bool>,
    takes: spec_fn(int, int) -> bool,
)
    requires
        before.holds(left, top, samples),
        0 <= left,
        0 <= top,
        taken.len() == samples.pixels@.len(),
        after.well_formed(),
        after.same_size(before),
        forall|a: int, b: int|
            0 <= a < samples.width && 0 <= b < samples.height ==> #[trigger] taken[cell(
                samples.width as int,
                a,
                b,
            )] == (samples.at(a, b) is Some && takes(left + a, top + b)),
        forall|x: int, y: int|
            #![trigger after.image.at(x, y)]
            #![trigger after.mask.at(x, y)]
            #![trigger after.owner.at(x, y)]
            0 <= x < before.image.width && 0 <= y < before.image.height ==> is_placed(
                before,
                after,
                group,
                x,
                y,
                samples.pixels@[region_index(samples, left, top, x, y)],
                covers_pixel(samples, left, top, x, y) && taken[region_index(
                    samples,
                    left,
                    top,
                    x,
                    y,
                )],
            ),
    ensures
        is_written(before, after, group, left, top, samples, takes),
{
    assert forall|x: int, y: int|
        #![trigger after.image.at(x, y)]
        #![trigger after.mask.at(x, y)]
        #![trigger after.owner.at(x, y)]
        0 <= x < before.image.width && 0 <= y < before.image.height implies is_placed(
        before,
        after,
        group,
        x,
        y,
        samples.at(x - left, y - top),
        covers_pixel(samples, left, top, x, y) && samples.at(x - left, y - top) is Some && takes(
            x,
            y,
        ),
    ) by {
        let image = after.image.at(x, y);
        if covers_pixel(samples, left, top, x, y) {
            assert(taken[cell(samples.width as int, x - left, y - top)] == (samples.at(
                x - left,
                y - top,
            ) is Some && takes(left + (x - left), top + (y - top))));
        }
    }
}

/// Admits the samples of a source into pixels that are still uncovered. What is covered
/// keeps its owner.
pub fn fill_streaming_uncovered_tile_region<P: Copy>(
    tile: &mut CanvasTile<P>,
    group: u8,
    left: u32,
    top: u32,
    samples: &Raster<Option<P>>,
)
    requires
        old(tile).well_formed(),
        old(tile).holds(left as int, top as int, samples),
    ensures
        is_written(
            old(tile),
            final(tile),
            group,
            left as int,
            top as int,
            samples,
            |x: int, y: int| old(tile).mask.at(x, y) == 0,
        ),
{
    let ghost before = *tile;
    let ghost takes = |x: int, y: int| before.mask.at(x, y) == 0;
    let mask: &Raster<u8> = &tile.mask;
    let taken: Vec<bool> = mark_taken(
        samples,
        |x: u32, y: u32| -> (keep: bool)
            requires
                mask.well_formed(),
                left + x < mask.width,
                top + y < mask.height,
            ensures
                keep == (mask.at(left + x, top + y) == 0)
            { mask.pixel(left + x, top + y) == 0 },
    );
    place_taken(tile, group, left, top, samples, &taken);
    proof {
        lemma_written(&before, tile, group, left as int, top as int, samples, taken@, takes);
    }
}

/// A cell comes before another in a row by row pass.
proof fn lemma_before(width: int, a: int, b: int, x: int, y: int)
    requires
        0 <= a < width,
        0 <= x < width,
        b < y || b == y && a < x,
    ensures
        cell(width, a, b) < cell(width, x, y),
{
    if b < y {
        assert((b + 1) * width <= y * width) by (nonlinear_arith)
            requires
                b + 1 <= y,
                0 < width,
        ;
        assert((b + 1) * width == b * width + width) by (nonlinear_arith);
    }
}

/// A cell of the ownership grid that was given to the source holds this column.
pub open spec fn column_is_owned(decision: &Raster<u8>, row: int, bounds: Seq<u32>, column: int) -> bool {
    exists|k: int| #[trigger] owns_column(decision, row, bounds, k, column)
}

pub open spec fn owns_column(
    decision: &Raster<u8>,
    row: int,
    bounds: Seq<u32>,
    k: int,
    column: int,
) -> bool {
    0 <= k < decision.width && decision.at(k, row) != 0 && bounds[k] <= column < bounds[k + 1]
}

/// Whether a cell that was given to the source holds this column.
fn is_owned_column(decision: &Raster<u8>, row: u32, bounds: &Vec<u32>, column: u32) -> (owned: bool)
    requires
        decision.well_formed(),
        row < decision.height,
        bounds@.len() == decision.width + 1,
    ensures
        owned == column_is_owned(decision, row as int, bounds@, column as int),
{
    let mut k: u32 = 0;
    while k < decision.width
        invariant
            k <= decision.width,
            decision.well_formed(),
            row < decision.height,
            bounds@.len() == decision.width + 1,
            forall|j: int|
                0 <= j < k ==> !(#[trigger] owns_column(
                    decision,
                    row as int,
                    bounds@,
                    j,
                    column as int,
                )),
        decreases decision.width - k,
    {
        if bounds[k as usize] <= column && column < bounds[k as usize + 1] && decision.pixel(k, row)
            != 0 {
            assert(owns_column(decision, row as int, bounds@, k as int, column as int));
            return true;
        }
        k += 1;
    }
    false
}

/// Copies the samples that fall into cells that a source was given. `bounds` holds the
/// first layer column of every cell and the end of the last one, `rows` the row of
/// cells for each row of the region; `first_column` is the layer column at which the
/// region starts.
pub fn copy_streaming_owned_tile_region<P: Copy>(
    tile: &mut CanvasTile<P>,
    group: u8,
    left: u32,
    top: u32,
    samples: &Raster<Option<P>>,
    decision: &Raster<u8>,
    bounds: &Vec<u32>,
    rows: &Vec<u32>,
    first_column: u32,
)
    requires
        old(tile).well_formed(),
        old(tile).holds(left as int, top as int, samples),
        decision.well_formed(),
        bounds@.len() == decision.width + 1,
        rows@.len() == samples.height,
        forall|i: int| 0 <= i < rows@.len() ==> #[trigger] rows@[i] < decision.height,
        first_column + samples.width <= u32::MAX,
    ensures
        is_written(
            old(tile),
            final(tile),
            group,
            left as int,
            top as int,
            samples,
            |x: int, y: int|
                column_is_owned(
                    decision,
                    rows@[y - top] as int,
                    bounds@,
                    first_column + (x - left),
                ),
        ),
{
    let ghost before = *tile;
    let ghost takes = |x: int, y: int|
        column_is_owned(decision, rows@[y - top] as int, bounds@, first_column + (x - left));
    let taken: Vec<bool> = mark_taken(
        samples,
        |x: u32, y: u32| -> (keep: bool)
            requires
                decision.well_formed(),
                bounds@.len() == decision.width + 1,
                y < rows@.len(),
                rows@[y as int] < decision.height,
                first_column + x <= u32::MAX,
            ensures
                keep == column_is_owned(decision, rows@[y as int] as int, bounds@, first_column + x)
            { is_owned_column(decision, rows[y as usize], bounds, first_column + x) },
    );
    place_taken(tile, group, left, top, samples, &taken);
    proof {
        assert forall|a: int, b: int|
            0 <= a < samples.width && 0 <= b < samples.height implies #[trigger] taken@[cell(
            samples.width as int,
            a,
            b,
        )] == (samples.at(a, b) is Some && takes(left + a, top + b)) by {
            assert(rows@[b] < decision.height);
        }
        lemma_written(&before, tile, group, left as int, top as int, samples, taken@, takes);
    }
}

/// The smallest integer that is no less than a quotient.
pub open spec fn ceiling(numerator: int, denominator: int) -> int {
    (numerator + denominator - 1) / denominator
}

/// The first layer column of a cell of the ownership grid. The grid has `cells` columns
/// over `analysis` samples, each of which stands for `numerator / denominator` layer
/// columns.
pub open spec fn cell_start(
    analysis: int,
    numerator: int,
    denominator: int,
    cells: int,
    k: int,
) -> int {
    ceiling(k * (analysis * numerator), denominator * cells)
}

/// The cell that a layer column or row falls into.
pub open spec fn cell_of(
    analysis: int,
    numerator: int,
    denominator: int,
    cells: int,
    position: int,
) -> int {
    position * (denominator * cells) / (analysis * numerator)
}

/// The columns of a layer at which the cells of its ownership grid start, and the end
/// of the last one; none lies behind `limit`.
pub fn cell_bounds(
    analysis: u32,
    numerator: u32,
    denominator: u32,
    cells: u32,
    limit: u32,
) -> (bounds: Vec<u32>)
    requires
        denominator > 0,
        cells > 0,
    ensures
        bounds@.len() == cells + 1,
        forall|k: int|
            0 <= k <= cells ==> #[trigger] bounds@[k] == {
                let start = cell_start(
                    analysis as int,
                    numerator as int,
                    denominator as int,
                    cells as int,
                    k,
                );
                if start < limit {
                    start
                } else {
                    limit as int
                }
            },
{
    let mut bounds: Vec<u32> = Vec::new();
    let length: u64 = multiply(analysis, numerator);
    let divisor: u64 = multiply(denominator, cells);
    assert(divisor > 0) by (nonlinear_arith)
        requires
            divisor == denominator * cells,
            denominator > 0,
            cells > 0,
    ;
    let mut k: u64 = 0;
    while k <= cells as u64
        invariant
            k <= cells + 1,
            bounds@.len() == k,
            length == analysis * numerator,
            divisor == denominator * cells,
            divisor > 0,
            forall|j: int|
                0 <= j < k ==> #[trigger] bounds@[j] == {
                    let start = cell_start(
                        analysis as int,
                        numerator as int,
                        denominator as int,
                        cells as int,
                        j,
                    );
                    if start < limit {
                        start
                    } else {
                        limit as int
                    }
                },
        decreases cells + 1 - k,
    {
        assert(k * length <= 0x1_0000_0000 * 0xffff_ffff_ffff_ffff) by (nonlinear_arith)
            requires
                k <= 0x1_0000_0000,
                length <= 0xffff_ffff_ffff_ffff,
        ;
        assert(0 <= k * length) by (nonlinear_arith);
        let start: u128 = (k as u128 * length as u128 + divisor as u128 - 1) / divisor as u128;
        bounds.push(
            if start < limit as u128 {
                start as u32
            } else {
                limit
            },
        );
        k += 1;
    }
    bounds
}

fn multiply(a: u32, b: u32) -> (product: u64)
    ensures
        product == a * b,
{
    assert(0 <= a * b <= 0xffff_ffff * 0xffff_ffff) by (nonlinear_arith)
        requires
            a <= 0xffff_ffff,
            b <= 0xffff_ffff,
    ;
    (a as u64) * (b as u64)
}

/// The row of cells for a row of a layer.
pub fn cell_row(analysis: u32, numerator: u32, denominator: u32, cells: u32, position: u32) -> (row:
    u32)
    requires
        analysis > 0,
        numerator > 0,
        cells > 0,
    ensures
        row == {
            let found = cell_of(
                analysis as int,
                numerator as int,
                denominator as int,
                cells as int,
                position as int,
            );
            if found < cells - 1 {
                found
            } else {
                cells - 1
            }
        },
        row < cells,
{
    let length: u64 = multiply(analysis, numerator);
    let scaled: u64 = multiply(denominator, cells);
    assert(length > 0) by (nonlinear_arith)
        requires
            length == analysis * numerator,
            analysis > 0,
            numerator > 0,
    ;
    assert(0 <= position * scaled <= 0xffff_ffff * 0xffff_ffff_ffff_ffff) by (nonlinear_arith)
        requires
            position <= 0xffff_ffff,
            scaled <= 0xffff_ffff_ffff_ffff,
    ;
    let found: u128 = position as u128 * scaled as u128 / length as u128;
    if found < (cells - 1) as u128 {
        found as u32
    } else {
        cells - 1
    }
}

/// The start of a cell is the inverse of the search for the cell of a column: a column
/// lies in the cell that is found for it, so neighbouring cells leave no gap between
/// them and share no column.
pub proof fn law_bounds_invert_the_search(
    analysis: int,
    numerator: int,
    denominator: int,
    cells: int,
    k: int,
    column: int,
)
    requires
        0 < analysis,
        0 < numerator,
        0 < denominator,
        0 < cells,
        0 <= column,
    ensures
        cell_start(analysis, numerator, denominator, cells, k) <= column < cell_start(
            analysis,
            numerator,
            denominator,
            cells,
            k + 1,
        ) <==> cell_of(analysis, numerator, denominator, cells, column) == k,
{
    let length = analysis * numerator;
    let divisor = denominator * cells;
    assert(length > 0) by (nonlinear_arith)
        requires
            length == analysis * numerator,
            analysis > 0,
            numerator > 0,
    ;
    assert(divisor > 0) by (nonlinear_arith)
        requires
            divisor == denominator * cells,
            denominator > 0,
            cells > 0,
    ;
    lemma_ceiling(k * length, divisor, column);
    lemma_ceiling((k + 1) * length, divisor, column);
    lemma_floor(column * divisor, length, k);
    lemma_floor(column * divisor, length, k + 1);
}

proof fn lemma_ceiling(numerator: int, denominator: int, column: int)
    requires
        denominator > 0,
    ensures
        ceiling(numerator, denominator) <= column <==> numerator <= column * denominator,
{
    let sum = numerator + denominator - 1;
    let q = sum / denominator;
    vstd::arithmetic::div_mod::lemma_fundamental_div_mod(sum, denominator);
    let r = sum % denominator;
    assert(sum == denominator * q + r);
    assert(0 <= r < denominator);
    if q <= column {
        assert(numerator <= column * denominator) by (nonlinear_arith)
            requires
                numerator + denominator - 1 == denominator * q + r,
                r < denominator,
                q <= column,
                denominator > 0,
        ;
    } else {
        assert(numerator > column * denominator) by (nonlinear_arith)
            requires
                numerator + denominator - 1 == denominator * q + r,
                r >= 0,
                q >= column + 1,
                denominator > 0,
        ;
    }
}

proof fn lemma_floor(numerator: int, denominator: int, k: int)
    requires
        denominator > 0,
    ensures
        k <= numerator / denominator <==> k * denominator <= numerator,
{
    let q = numerator / denominator;
    vstd::arithmetic::div_mod::lemma_fundamental_div_mod(numerator, denominator);
    let r = numerator % denominator;
    assert(0 <= r < denominator);
    if k <= q {
        assert(k * denominator <= numerator) by (nonlinear_arith)
            requires
                numerator == denominator * q + r,
                r >= 0,
                k <= q,
                denominator > 0,
        ;
    } else {
        assert(k * denominator > numerator) by (nonlinear_arith)
            requires
                numerator == denominator * q + r,
                r < denominator,
                k >= q + 1,
                denominator > 0,
        ;
    }
}

/// Once a source has been selected from and has filled what was left open, every pixel
/// it shows is covered, and no pixel has lost its cover.
pub proof fn law_no_sample_is_lost<P>(
    before: &CanvasTile<P>,
    selected: &CanvasTile<P>,
    filled: &CanvasTile<P>,
    group: u8,
    left: int,
    top: int,
    samples: &Raster<Option<P>>,
    takes: spec_fn(int, int) -> bool,
    x: int,
    y: int,
)
    requires
        is_written(before, selected, group, left, top, samples, takes),
        is_written(
            selected,
            filled,
            group,
            left,
            top,
            samples,
            |a: int, b: int| selected.mask.at(a, b) == 0,
        ),
        0 <= x < before.image.width,
        0 <= y < before.image.height,
    ensures
        covers_pixel(samples, left, top, x, y) && samples.at(x - left, y - top) is Some
            ==> filled.mask.at(x, y) != 0,
        before.mask.at(x, y) != 0 ==> filled.mask.at(x, y) != 0,
{
    let (first, second) = (selected.mask.at(x, y), filled.mask.at(x, y));
}

/// The size of a reduced view: a view whose longer side exceeds `long_side` is scaled to
/// it, and a part of a sample counts as one.
pub open spec fn analysis_length(length: int, longest: int, long_side: int) -> int {
    if longest <= long_side {
        length
    } else {
        ceiling(length * long_side, longest)
    }
}

/// A reduced view, and the scale at which it shows its pixels.
#[derive(Clone, Copy, Debug, PartialEq, Eq, Structural)]
pub struct AnalysisView {
    pub width: u32,
    pub height: u32,
    /// Pixels for each sample, as a quotient.
    pub numerator: u32,
    pub denominator: u32,
}

/// The reduced view of an area.
pub fn analysis_view(width: u32, height: u32, long_side: u32) -> (view: AnalysisView)
    requires
        long_side > 0,
    ensures
        ({
            let longest = if width < height {
                height
            } else {
                width
            };
            &&& view.width == analysis_length(width as int, longest as int, long_side as int)
            &&& view.height == analysis_length(height as int, longest as int, long_side as int)
            &&& view.denominator == long_side
            &&& view.numerator == if longest < long_side {
                long_side
            } else {
                longest
            }
        }),
{
    let longest: u32 = if width < height {
        height
    } else {
        width
    };
    AnalysisView {
        width: reduced_length(width, longest, long_side),
        height: reduced_length(height, longest, long_side),
        numerator: if longest < long_side {
            long_side
        } else {
            longest
        },
        denominator: long_side,
    }
}

/// The pixel of the canvas that sample `k` of an analysis view shows.
pub open spec fn sampled_position(start: int, numerator: int, denominator: int, k: int) -> int {
    let position = start + k * numerator / denominator;
    if position < u32::MAX {
        position
    } else {
        u32::MAX as int
    }
}

/// The pixels of the canvas that the samples of a row or a column of a view show.
pub fn sampled_positions(start: u32, numerator: u32, denominator: u32, count: u32) -> (positions: Vec<
    u32,
>)
    requires
        denominator > 0,
    ensures
        positions@.len() == count,
        forall|k: int|
            0 <= k < count ==> #[trigger] positions@[k] == sampled_position(
                start as int,
                numerator as int,
                denominator as int,
                k,
            ),
{
    let mut positions: Vec<u32> = Vec::new();
    let mut k: u32 = 0;
    while k < count
        invariant
            k <= count,
            denominator > 0,
            positions@.len() == k,
            forall|i: int|
                0 <= i < k ==> #[trigger] positions@[i] == sampled_position(
                    start as int,
                    numerator as int,
                    denominator as int,
                    i,
                ),
        decreases count - k,
    {
        let length: u64 = multiply(k, numerator);
        let position: u128 = start as u128 + (length / denominator as u64) as u128;
        if position < u32::MAX as u128 {
            positions.push(position as u32);
        } else {
            positions.push(u32::MAX);
        }
        k += 1;
    }
    positions
}

/// What a canvas shows at a pixel; nothing outside of it and where it is not covered.
pub open spec fn seen_pixel<P>(canvas: &CanvasTile<P>, x: int, y: int, blank: P) -> CanvasPixel<P> {
    if 0 <= x < canvas.image.width && 0 <= y < canvas.image.height && canvas.mask.at(x, y) != 0 {
        CanvasPixel { color: canvas.image.at(x, y), covered: 255, owner: canvas.owner.at(x, y) }
    } else {
        CanvasPixel { color: blank, covered: 0, owner: 0 }
    }
}

/// Reads a canvas at the crossings of columns and rows.
pub fn sample_canvas<P: Copy>(
    canvas: &CanvasTile<P>,
    columns: &Vec<u32>,
    rows: &Vec<u32>,
    blank: P,
) -> (region: AnalysisRegion<P>)
    requires
        canvas.well_formed(),
        columns@.len() <= u32::MAX,
        rows@.len() <= u32::MAX,
        columns@.len() * rows@.len() <= usize::MAX,
    ensures
        region.well_formed(),
        region.image.width == columns@.len(),
        region.image.height == rows@.len(),
        forall|x: int, y: int|
            #![trigger region.image.at(x, y)]
            #![trigger region.mask.at(x, y)]
            #![trigger region.owner.at(x, y)]
            0 <= x < columns@.len() && 0 <= y < rows@.len() ==> {
                let seen = seen_pixel(canvas, columns@[x] as int, rows@[y] as int, blank);
                &&& region.image.at(x, y) == seen.color
                &&& region.mask.at(x, y) == seen.covered
                &&& region.owner.at(x, y) == seen.owner
            },
{
    let width: usize = columns.len();
    let height: usize = rows.len();
    let count: usize = width * height;
    let ghost (w, h) = (width as int, height as int);
    let mut image: Vec<P> = Vec::new();
    let mut mask: Vec<u8> = Vec::new();
    let mut owner: Vec<u8> = Vec::new();
    let mut i: usize = 0;
    while i < count
        invariant
            i <= count,
            count == width * height,
            w == width,
            h == height,
            width == columns@.len(),
            height == rows@.len(),
            canvas.well_formed(),
            image@.len() == i,
            mask@.len() == i,
            owner@.len() == i,
            forall|k: int|
                0 <= k < i ==> {
                    let seen = seen_pixel(
                        canvas,
                        columns@[k % w] as int,
                        rows@[k / w] as int,
                        blank,
                    );
                    &&& #[trigger] image@[k] == seen.color
                    &&& mask@[k] == seen.covered
                    &&& owner@[k] == seen.owner
                },
        decreases count - i,
    {
        proof {
            assert(w > 0) by (nonlinear_arith)
                requires
                    0 < w * h,
                    0 <= w,
                    0 <= h,
            ;
            lemma_split(w, h, i as int);
        }
        let x: u32 = columns[i % width];
        let y: u32 = rows[i / width];
        if x < canvas.image.width && y < canvas.image.height && canvas.mask.pixel(x, y) != 0 {
            image.push(canvas.image.pixel(x, y));
            mask.push(255);
            owner.push(canvas.owner.pixel(x, y));
        } else {
            image.push(blank);
            mask.push(0);
            owner.push(0);
        }
        i += 1;
    }
    let (wide, high) = (width as u32, height as u32);
    let region = AnalysisRegion {
        image: Raster { width: wide, height: high, pixels: image },
        mask: Raster { width: wide, height: high, pixels: mask },
        owner: Raster { width: wide, height: high, pixels: owner },
    };
    proof {
        assert forall|x: int, y: int|
            #![trigger region.image.at(x, y)]
            #![trigger region.mask.at(x, y)]
            #![trigger region.owner.at(x, y)]
            0 <= x < columns@.len() && 0 <= y < rows@.len() implies {
            let seen = seen_pixel(canvas, columns@[x] as int, rows@[y] as int, blank);
            &&& region.image.at(x, y) == seen.color
            &&& region.mask.at(x, y) == seen.covered
            &&& region.owner.at(x, y) == seen.owner
        } by {
            lemma_cell(w, h, x, y);
            assert(region.image.pixels@[cell(w, x, y)] == region.image.at(x, y));
        }
    }
    region
}

/// A view at full resolution shows every pixel.
pub proof fn law_full_views_show_every_pixel(start: int, side: int, k: int)
    requires
        side > 0,
        0 <= k,
        start + k < u32::MAX,
    ensures
        sampled_position(start, side, side, k) == start + k,
{
    vstd::arithmetic::div_mod::lemma_div_by_multiple(k, side);
}

fn reduced_length(length: u32, longest: u32, long_side: u32) -> (reduced: u32)
    requires
        length <= longest,
        long_side > 0,
    ensures
        reduced == analysis_length(length as int, longest as int, long_side as int),
{
    if longest <= long_side {
        return length;
    }
    let product: u64 = multiply(length, long_side);
    proof {
        let sum = product + longest - 1;
        assert(product <= longest * long_side) by (nonlinear_arith)
            requires
                product == length * long_side,
                length <= longest,
                long_side > 0,
        ;
        assert(sum / (longest as int) <= long_side) by (nonlinear_arith)
            requires
                sum <= longest * long_side + longest - 1,
                longest > 0,
        ;
        assert(sum <= 0xffff_ffff * 0xffff_ffff + 0xffff_ffff) by (nonlinear_arith)
            requires
                sum <= longest * long_side + longest - 1,
                longest <= 0xffff_ffff,
                long_side <= 0xffff_ffff,
        ;
    }
    ((product + longest as u64 - 1) / longest as u64) as u32
}

/// The number of nodes of a field along a side: one for every started step, and one for
/// the end.
pub fn field_length(length: u32, step: u32) -> (nodes: u64)
    requires
        step > 0,
    ensures
        nodes == ceiling(length as int, step as int) + 1,
{
    (length as u64 + step as u64 - 1) / step as u64 + 1
}

/// The node of a field that a coordinate belongs to: the nearest one, and the later one
/// half way between two.
pub open spec fn nearest_node(coordinate: int, step: int, nodes: int) -> int {
    let nearest = (2 * coordinate + step) / (2 * step);
    if nearest < nodes - 1 {
        nearest
    } else {
        nodes - 1
    }
}

/// The node of a field that a coordinate belongs to.
pub fn field_node(coordinate: u32, step: u32, nodes: u64) -> (node: u64)
    requires
        step > 0,
        nodes > 0,
    ensures
        node == nearest_node(coordinate as int, step as int, nodes as int),
        node < nodes,
{
    let nearest: u64 = (2 * coordinate as u64 + step as u64) / (2 * step as u64);
    if nearest < nodes - 1 {
        nearest
    } else {
        nodes - 1
    }
}

/// Two spans share a length exactly if a stretch of it lies in both.
pub proof fn law_shared_lengths_lie_in_both(
    start: int,
    end: int,
    other_start: int,
    other_end: int,
    length: int,
)
    requires
        0 < length,
    ensures
        shared_length(start, end, other_start, other_end) >= length <==> exists|first: int|
            #![trigger spans(first, length)]
            spans(first, length) && start <= first && first + length <= end && other_start <= first
                && first + length <= other_end,
        shared_length(start, end, other_start, other_end) == shared_length(
            other_start,
            other_end,
            start,
            end,
        ),
        shared_length(start, end, other_start, other_end) >= 0,
{
    let first = if start < other_start {
        other_start
    } else {
        start
    };
    assert(spans(first, length));
}

/// Marks a stretch of a line.
pub open spec fn spans(first: int, length: int) -> bool {
    true
}

/// A box around two boxes is no larger than it has to be: each of its sides is a side of one of
/// them.
pub proof fn law_joined_boxes_are_tight(area: Bounds, layer: Bounds)
    ensures
        ({
            let box_of_both = joined(Some(area), layer);
            &&& box_of_both.left == area.left || box_of_both.left == layer.left
            &&& box_of_both.right == area.right || box_of_both.right == layer.right
            &&& box_of_both.top == area.top || box_of_both.top == layer.top
            &&& box_of_both.bottom == area.bottom || box_of_both.bottom == layer.bottom
            &&& box_of_both.left <= area.left && box_of_both.left <= layer.left
            &&& box_of_both.right >= area.right && box_of_both.right >= layer.right
            &&& box_of_both.top <= area.top && box_of_both.top <= layer.top
            &&& box_of_both.bottom >= area.bottom && box_of_both.bottom >= layer.bottom
        }),
        joined(None, layer) == layer,
{
}

/// A source that overlaps nothing by 128 pixels in both directions is copied as it is where the
/// sequence has gaps; every other source competes for cells. The first one is neither moved nor
/// matched, and long sequences with gaps are not refined and compete on coarser cells.
pub proof fn law_sources_compete_where_they_overlap(
    index: int,
    images: int,
    sequence_gap_aware: bool,
    covered: Option<Bounds>,
    layer: Bounds,
)
    ensures
        ({
            let plan = layer_plan(index, images, sequence_gap_aware, covered, layer);
            let apart = match covered {
                None => true,
                Some(area) => shared_length(
                    layer.left as int,
                    layer.right as int,
                    area.left as int,
                    area.right as int,
                ) < 128 || shared_length(
                    layer.top as int,
                    layer.bottom as int,
                    area.top as int,
                    area.bottom as int,
                ) < 128,
            };
            &&& sequence_gap_aware && apart ==> plan == LayerPlan::Copy
            &&& !sequence_gap_aware ==> plan == (LayerPlan::Select {
                refine: index > 0,
                match_tone: index > 0,
                long_side: 512,
            })
            &&& sequence_gap_aware && !apart && images <= 8 ==> plan == (LayerPlan::Select {
                refine: index > 0,
                match_tone: index > 0,
                long_side: 512,
            })
            &&& sequence_gap_aware && !apart && images > 8 ==> plan == (LayerPlan::Select {
                refine: false,
                match_tone: index > 0,
                long_side: 256,
            })
        }),
{
}

/// A tile takes exactly the samples that it is to take: such a pixel shows its sample, is covered
/// and belongs to the group of the source; every other pixel stays as it was.
pub proof fn law_taken_samples_belong_to_their_group<P>(
    before: &CanvasTile<P>,
    after: &CanvasTile<P>,
    group: u8,
    left: int,
    top: int,
    samples: &Raster<Option<P>>,
    takes: spec_fn(int, int) -> bool,
    x: int,
    y: int,
)
    requires
        is_written(before, after, group, left, top, samples, takes),
        0 <= x < before.image.width,
        0 <= y < before.image.height,
    ensures
        ({
            let inside = left <= x < left + samples.width && top <= y < top + samples.height;
            let sample = samples.at(x - left, y - top);
            &&& inside && sample is Some && takes(x, y) ==> after.image.at(x, y) == sample->0
                && after.mask.at(x, y) == 255 && after.owner.at(x, y) == group
            &&& !(inside && sample is Some && takes(x, y)) ==> after.image.at(x, y)
                == before.image.at(x, y) && after.mask.at(x, y) == before.mask.at(x, y)
                && after.owner.at(x, y) == before.owner.at(x, y)
        }),
{
    assert(is_placed(
        before,
        after,
        group,
        x,
        y,
        samples.at(x - left, y - top),
        covers_pixel(samples, left, top, x, y) && samples.at(x - left, y - top) is Some && takes(
            x,
            y,
        ),
    )) by {
        let shown = after.image.at(x, y);
        assert(shown == after.image.at(x, y));
    }
}

/// A column of a layer goes with the cell that holds it: it is owned exactly if that cell was
/// given to the source.
pub proof fn law_columns_go_with_their_cell(
    decision: &Raster<u8>,
    row: int,
    bounds: Seq<u32>,
    k: int,
    column: int,
)
    requires
        bounds.len() == decision.width + 1,
        forall|i: int, j: int|
            #![trigger bounds[i], bounds[j]]
            0 <= i <= j < bounds.len() ==> bounds[i] <= bounds[j],
        0 <= k < decision.width,
        bounds[k] <= column < bounds[k + 1],
    ensures
        column_is_owned(decision, row, bounds, column) <==> decision.at(k, row) > 0,
{
    if column_is_owned(decision, row, bounds, column) {
        let j = choose|j: int| #[trigger] owns_column(decision, row, bounds, j, column);
        if j < k {
            assert(bounds[j + 1] <= bounds[k]);
        } else if j > k {
            assert(bounds[k + 1] <= bounds[j]);
        }
    }
    if decision.at(k, row) > 0 {
        assert(owns_column(decision, row, bounds, k, column));
    }
}

/// A reduced view has at most the long side, keeps the shape of its area, and counts a part of a
/// sample as one: it is the shortest that is long enough.
pub proof fn law_reduced_views_keep_the_shape(length: int, longest: int, long_side: int)
    requires
        0 <= length <= longest,
        0 < long_side,
    ensures
        longest <= long_side ==> analysis_length(length, longest, long_side) == length,
        longest > long_side ==> {
            let reduced = analysis_length(length, longest, long_side);
            &&& length * long_side <= reduced * longest
            &&& reduced > 0 ==> (reduced - 1) * longest < length * long_side
            &&& 0 <= reduced <= long_side
            &&& length == longest ==> reduced == long_side
        },
{
    if longest > long_side {
        let reduced = analysis_length(length, longest, long_side);
        let total = length * long_side;
        vstd::arithmetic::div_mod::lemma_fundamental_div_mod(total + longest - 1, longest);
        assert(longest * reduced == reduced * longest && (reduced - 1) * longest == reduced * longest
            - longest) by (nonlinear_arith);
        assert(0 <= total <= long_side * longest) by (nonlinear_arith)
            requires
                total == length * long_side,
                0 <= length <= longest,
                0 < long_side,
        ;
        assert(0 <= reduced <= long_side) by (nonlinear_arith)
            requires
                reduced * longest <= total + longest - 1,
                total <= reduced * longest,
                0 <= total <= long_side * longest,
                0 < longest,
        ;
        if length == longest {
            assert(reduced >= long_side) by (nonlinear_arith)
                requires
                    total <= reduced * longest,
                    total == longest * long_side,
                    0 < longest,
            ;
        }
    }
}

/// A sample shows the pixel that as many pixels lie before as stand for the samples before it,
/// without the fraction.
pub proof fn law_samples_are_evenly_spread(start: int, numerator: int, denominator: int, k: int)
    requires
        0 <= start,
        0 < numerator,
        0 < denominator,
        0 <= k,
    ensures
        sampled_position(start, numerator, denominator, k) < u32::MAX ==> {
            let pixels = sampled_position(start, numerator, denominator, k) - start;
            &&& 0 <= pixels
            &&& pixels * denominator <= k * numerator
            &&& k * numerator < (pixels + 1) * denominator
        },
{
    let total = k * numerator;
    let q = total / denominator;
    vstd::arithmetic::div_mod::lemma_fundamental_div_mod(total, denominator);
    assert(denominator * q == q * denominator && (q + 1) * denominator == q * denominator
        + denominator) by (nonlinear_arith);
    assert(0 <= q) by (nonlinear_arith)
        requires
            total < q * denominator + denominator,
            0 <= total,
            0 < denominator,
            total == k * numerator,
    ;
}

/// A view shows what the canvas shows: a covered pixel with its colour and owner, and nothing
/// elsewhere.
pub proof fn law_views_show_the_canvas<P>(canvas: &CanvasTile<P>, x: int, y: int, blank: P)
    ensures
        0 <= x < canvas.image.width && 0 <= y < canvas.image.height && canvas.mask.at(x, y) > 0
            ==> seen_pixel(canvas, x, y, blank).color == canvas.image.at(x, y) && seen_pixel(
            canvas,
            x,
            y,
            blank,
        ).covered == 255 && seen_pixel(canvas, x, y, blank).owner == canvas.owner.at(x, y),
        0 <= x < canvas.image.width && 0 <= y < canvas.image.height && canvas.mask.at(x, y) == 0
            ==> seen_pixel(canvas, x, y, blank).color == blank && seen_pixel(
            canvas,
            x,
            y,
            blank,
        ).covered == 0 && seen_pixel(canvas, x, y, blank).owner == 0,
        x >= canvas.image.width || y >= canvas.image.height ==> seen_pixel(
            canvas,
            x,
            y,
            blank,
        ).covered == 0,
{
}

/// A coordinate belongs to the nearest node of a field, and to the later one half way.
pub proof fn law_coordinates_belong_to_the_nearest_node(coordinate: int, step: int, nodes: int)
    requires
        0 <= coordinate,
        0 < step,
        0 < nodes,
    ensures
        ({
            let node = nearest_node(coordinate, step, nodes);
            &&& 0 <= node < nodes
            &&& 2 * (node * step) - step <= 2 * coordinate
            &&& node < nodes - 1 ==> 2 * coordinate < 2 * (node * step) + step
        }),
{
    let value = 2 * coordinate + step;
    let q = value / (2 * step);
    vstd::arithmetic::div_mod::lemma_fundamental_div_mod(value, 2 * step);
    assert((2 * step) * q == 2 * (q * step)) by (nonlinear_arith);
    assert(0 <= q) by (nonlinear_arith)
        requires
            value < 2 * (q * step) + 2 * step,
            0 < value,
            0 < step,
    ;
    let node = nearest_node(coordinate, step, nodes);
    assert(node * step <= q * step) by (nonlinear_arith)
        requires
            node <= q,
            0 < step,
    ;
}

} // verus!
