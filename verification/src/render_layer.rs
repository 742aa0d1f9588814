//! How a source frame becomes a layer: which local correction applies to a pixel,
//! which mapping is sampled, and what the samples make of the masks.

use vstd::prelude::*;

use crate::bounds::Bounds;
use crate::focus_layer::RenderedFocusLayer;
use crate::raster::tabulate;
use crate::raster::Raster;

verus! {

/// The region of the canvas between four edges, cut off at its border. `None` where
/// nothing is left, or where the edges are out of order.
pub fn clamped_region(
    left: i64,
    right: i64,
    top: i64,
    bottom: i64,
    canvas_width: u32,
    canvas_height: u32,
) -> (region: Option<Bounds>)
    ensures
        region is Some <==> canvas_width > 0 && canvas_height > 0 && clamped_edge(
            left as int,
            canvas_width as int,
        ) <= clamped_edge(right as int, canvas_width as int) && clamped_edge(
            top as int,
            canvas_height as int,
        ) <= clamped_edge(bottom as int, canvas_height as int),
        region matches Some(bounds) ==> {
            &&& bounds.left == clamped_edge(left as int, canvas_width as int)
            &&& bounds.right == clamped_edge(right as int, canvas_width as int)
            &&& bounds.top == clamped_edge(top as int, canvas_height as int)
            &&& bounds.bottom == clamped_edge(bottom as int, canvas_height as int)
            &&& bounds.inside(canvas_width as int, canvas_height as int)
        },
{
    if canvas_width == 0 || canvas_height == 0 {
        return None;
    }
    let bounds = Bounds {
        left: clamp_edge(left, canvas_width),
        right: clamp_edge(right, canvas_width),
        top: clamp_edge(top, canvas_height),
        bottom: clamp_edge(bottom, canvas_height),
    };
    if bounds.left <= bounds.right && bounds.top <= bounds.bottom {
        Some(bounds)
    } else {
        None
    }
}

/// The column or row of the canvas that is nearest to a coordinate.
pub open spec fn clamped_edge(edge: int, length: int) -> int {
    if edge < 0 {
        0
    } else if edge > length - 1 {
        length - 1
    } else {
        edge
    }
}

fn clamp_edge(edge: i64, length: u32) -> (clamped: u32)
    requires
        length > 0,
    ensures
        clamped == clamped_edge(edge as int, length as int),
{
    if edge < 0 {
        0
    } else if edge > (length - 1) as i64 {
        length - 1
    } else {
        edge as u32
    }
}

/// The direction in which a band of the source is narrow.
#[derive(Debug, Clone, Copy, PartialEq, Eq, Structural)]
pub enum BandAxis {
    /// A vertical edge: a narrow range of columns.
    Vertical,
    /// A horizontal edge or a depth band: a narrow range of rows.
    Horizontal,
}

/// A local correction that maps a pixel into its band. The keys order like the numbers
/// that they stand for.
#[derive(Debug, Clone, Copy, PartialEq, Eq, Structural)]
pub struct LocalCandidate {
    pub axis: BandAxis,
    /// The width of the band.
    pub span: i64,
    /// How far the pixel lies from the middle of the band.
    pub distance: i64,
    /// How strongly the correction applies, from zero at the edge of the band.
    pub strength: i64,
    pub relax_foreground_seam: bool,
}

/// The key of an infinite width.
pub const INFINITE_SPAN: i64 = 0x7ff0_0000_0000_0000;

/// `a` is preferred to `b`: its band is narrower, or as wide with the pixel nearer to
/// its middle.
pub open spec fn is_nearer(a: LocalCandidate, b: LocalCandidate) -> bool {
    a.span < b.span || a.span == b.span && a.distance < b.distance
}

/// Candidate `k` is the first of its axis to which none is preferred.
pub open spec fn is_selected(candidates: Seq<LocalCandidate>, axis: BandAxis, k: int) -> bool {
    &&& 0 <= k < candidates.len()
    &&& candidates[k].axis == axis
    &&& candidates[k].span < INFINITE_SPAN
    &&& forall|j: int|
        0 <= j < candidates.len() && (#[trigger] candidates[j]).axis == axis ==> !is_nearer(
            candidates[j],
            candidates[k],
        )
    &&& forall|j: int|
        0 <= j < k && (#[trigger] candidates[j]).axis == axis ==> is_nearer(
            candidates[k],
            candidates[j],
        )
}

/// The correction of one axis that applies to a pixel.
pub fn select_local_candidate(candidates: &Vec<LocalCandidate>, axis: BandAxis) -> (selected: Option<
    usize,
>)
    ensures
        selected matches Some(k) ==> is_selected(candidates@, axis, k as int),
        selected is None ==> forall|j: int|
            0 <= j < candidates@.len() && (#[trigger] candidates@[j]).axis == axis
                ==> candidates@[j].span >= INFINITE_SPAN,
{
    let mut best: Option<usize> = None;
    let mut i: usize = 0;
    while i < candidates.len()
        invariant
            i <= candidates@.len(),
            best is None ==> forall|j: int|
                0 <= j < i ==> (#[trigger] candidates@[j]).axis != axis,
            best matches Some(k) ==> {
                &&& k < i
                &&& candidates@[k as int].axis == axis
                &&& forall|j: int|
                    0 <= j < i && (#[trigger] candidates@[j]).axis == axis ==> !is_nearer(
                        candidates@[j],
                        candidates@[k as int],
                    )
                &&& forall|j: int|
                    0 <= j < k && (#[trigger] candidates@[j]).axis == axis ==> is_nearer(
                        candidates@[k as int],
                        candidates@[j],
                    )
            },
        decreases candidates@.len() - i,
    {
        let next: LocalCandidate = candidates[i];
        if next.axis == axis {
            let better: bool = match best {
                None => true,
                Some(k) => next.span < candidates[k].span || (next.span == candidates[k].span
                    && next.distance < candidates[k].distance),
            };
            if better {
                best = Some(i);
            }
        }
        i += 1;
    }
    match best {
        None => None,
        Some(k) => {
            if candidates[k].span < INFINITE_SPAN {
                Some(k)
            } else {
                None
            }
        },
    }
}

/// No two candidates are selected for one axis.
pub proof fn law_selection_is_unique(
    candidates: Seq<LocalCandidate>,
    axis: BandAxis,
    a: int,
    b: int,
)
    requires
        is_selected(candidates, axis, a),
        is_selected(candidates, axis, b),
    ensures
        a == b,
{
    if a < b {
        assert(is_nearer(candidates[b], candidates[a]));
    } else if b < a {
        assert(is_nearer(candidates[a], candidates[b]));
    }
}

/// Which local mapping applies to a pixel.
#[derive(Debug, Clone, Copy, PartialEq, Eq, Structural)]
pub enum LocalMapping {
    /// There is none.
    Absent,
    /// The mapping of this candidate.
    Single(usize),
    /// The corrections of a vertical and a horizontal candidate, one after the other.
    Composed(usize, usize),
}

/// A local mapping, how strongly it applies, and whether foreground seen through it may
/// change its owner.
#[derive(Debug, Clone, Copy, PartialEq, Eq, Structural)]
pub struct LocalChoice {
    pub mapping: LocalMapping,
    pub strength: i64,
    pub relax_foreground_seam: bool,
}

/// The choice of no local mapping.
pub open spec fn no_local_choice() -> LocalChoice {
    LocalChoice { mapping: LocalMapping::Absent, strength: 0, relax_foreground_seam: false }
}

/// The choice for the candidates selected on the two axes. Two corrections apply as
/// strongly as the weaker one; a correction without strength does not apply.
pub open spec fn chosen_mapping(
    candidates: Seq<LocalCandidate>,
    vertical: Option<usize>,
    horizontal: Option<usize>,
) -> LocalChoice {
    let choice = match (vertical, horizontal) {
        (Some(v), Some(h)) => {
            let (first, second) = (candidates[v as int], candidates[h as int]);
            LocalChoice {
                mapping: LocalMapping::Composed(v, h),
                strength: if first.strength < second.strength {
                    first.strength
                } else {
                    second.strength
                },
                relax_foreground_seam: first.relax_foreground_seam || second.relax_foreground_seam,
            }
        },
        (Some(k), None) => LocalChoice {
            mapping: LocalMapping::Single(k),
            strength: candidates[k as int].strength,
            relax_foreground_seam: candidates[k as int].relax_foreground_seam,
        },
        (None, Some(k)) => LocalChoice {
            mapping: LocalMapping::Single(k),
            strength: candidates[k as int].strength,
            relax_foreground_seam: candidates[k as int].relax_foreground_seam,
        },
        (None, None) => no_local_choice(),
    };
    if choice.strength > 0 {
        choice
    } else {
        no_local_choice()
    }
}

/// The local mapping of a pixel.
pub fn choose_local_mapping(candidates: &Vec<LocalCandidate>) -> (choice: LocalChoice)
    ensures
        exists|vertical: Option<usize>, horizontal: Option<usize>|
            {
                &&& #[trigger] is_selection(candidates@, BandAxis::Vertical, vertical)
                &&& #[trigger] is_selection(candidates@, BandAxis::Horizontal, horizontal)
                &&& choice == chosen_mapping(candidates@, vertical, horizontal)
            },
{
    let vertical: Option<usize> = select_local_candidate(candidates, BandAxis::Vertical);
    let horizontal: Option<usize> = select_local_candidate(candidates, BandAxis::Horizontal);
    assert(is_selection(candidates@, BandAxis::Vertical, vertical));
    assert(is_selection(candidates@, BandAxis::Horizontal, horizontal));
    let choice: LocalChoice = match (vertical, horizontal) {
        (Some(v), Some(h)) => {
            let (first, second) = (candidates[v], candidates[h]);
            LocalChoice {
                mapping: LocalMapping::Composed(v, h),
                strength: if first.strength < second.strength {
                    first.strength
                } else {
                    second.strength
                },
                relax_foreground_seam: first.relax_foreground_seam || second.relax_foreground_seam,
            }
        },
        (Some(k), None) => LocalChoice {
            mapping: LocalMapping::Single(k),
            strength: candidates[k].strength,
            relax_foreground_seam: candidates[k].relax_foreground_seam,
        },
        (None, Some(k)) => LocalChoice {
            mapping: LocalMapping::Single(k),
            strength: candidates[k].strength,
            relax_foreground_seam: candidates[k].relax_foreground_seam,
        },
        (None, None) => LocalChoice {
            mapping: LocalMapping::Absent,
            strength: 0,
            relax_foreground_seam: false,
        },
    };
    if choice.strength > 0 {
        choice
    } else {
        LocalChoice { mapping: LocalMapping::Absent, strength: 0, relax_foreground_seam: false }
    }
}

/// This is what is selected on an axis, if anything is.
pub open spec fn is_selection(
    candidates: Seq<LocalCandidate>,
    axis: BandAxis,
    selected: Option<usize>,
) -> bool {
    match selected {
        Some(k) => is_selected(candidates, axis, k as int),
        None => forall|j: int|
            0 <= j < candidates.len() && (#[trigger] candidates[j]).axis == axis
                ==> candidates[j].span >= INFINITE_SPAN,
    }
}

/// The mapping through which a pixel is sampled.
#[derive(Debug, Clone, Copy, PartialEq, Eq, Structural)]
pub enum SourceChoice {
    /// The pixel is not sampled.
    Skip,
    Global,
    Local,
    /// Between the global and the local mapping, by the strength of the local one.
    Blend,
}

/// The mapping through which a pixel is sampled, given which mappings reach the source.
pub fn choose_source(global_reaches: bool, local_reaches: bool) -> (choice: SourceChoice)
    ensures
        choice == match (global_reaches, local_reaches) {
            (true, true) => SourceChoice::Blend,
            (true, false) => SourceChoice::Global,
            (false, true) => SourceChoice::Local,
            (false, false) => SourceChoice::Skip,
        },
{
    if global_reaches && local_reaches {
        SourceChoice::Blend
    } else if global_reaches {
        SourceChoice::Global
    } else if local_reaches {
        SourceChoice::Local
    } else {
        SourceChoice::Skip
    }
}

/// What was sampled for a pixel of a layer.
#[derive(Debug, Clone, Copy)]
pub struct LayerSample<P> {
    pub pixel: P,
    /// The source shows foreground here.
    pub foreground: bool,
    /// The local mapping lets foreground change its owner.
    pub relaxed: bool,
}

/// Pixel `i` of a layer and of its masks shows a sample.
pub open spec fn shows_sample<P>(
    layer: RenderedFocusLayer<P>,
    i: int,
    sample: Option<LayerSample<P>>,
    blank: P,
) -> bool {
    match sample {
        Some(found) => {
            &&& layer.image.pixels@[i] == found.pixel
            &&& layer.mask.pixels@[i] == 255
            &&& layer.foreground_mask.pixels@[i] == if found.foreground {
                255u8
            } else {
                0u8
            }
            &&& layer.relaxed_foreground_mask.pixels@[i] == if found.foreground && found.relaxed {
                255u8
            } else {
                0u8
            }
        },
        None => {
            &&& layer.image.pixels@[i] == blank
            &&& layer.mask.pixels@[i] == 0
            &&& layer.foreground_mask.pixels@[i] == 0
            &&& layer.relaxed_foreground_mask.pixels@[i] == 0
        },
    }
}

/// The layer of a region of the canvas, made of one sample for each pixel, row by row;
/// `None` where the source has none.
pub fn assemble_focus_layer<P: Copy>(
    region: Bounds,
    samples: &Vec<Option<LayerSample<P>>>,
    blank: P,
) -> (layer: RenderedFocusLayer<P>)
    requires
        region.left <= region.right < u32::MAX,
        region.top <= region.bottom < u32::MAX,
        samples@.len() == region.width() * region.height(),
    ensures
        layer.well_formed(),
        layer.left == region.left,
        layer.top == region.top,
        layer.image.width == region.width(),
        layer.image.height == region.height(),
        forall|i: int|
            #![trigger samples@[i]]
            0 <= i < samples@.len() ==> shows_sample(layer, i, samples@[i], blank),
{
    let width: u32 = region.right - region.left + 1;
    let height: u32 = region.bottom - region.top + 1;
    let size: usize = samples.len();
    let pixels: Vec<P> = tabulate(
        size,
        |i: usize| -> (pixel: P)
            requires
                i < samples@.len(),
            ensures
                pixel == match samples@[i as int] {
                    Some(sample) => sample.pixel,
                    None => blank,
                }
            {
                match samples[i] {
                    Some(sample) => sample.pixel,
                    None => blank,
                }
            },
    );
    let mask: Vec<u8> = tabulate(
        size,
        |i: usize| -> (valid: u8)
            requires
                i < samples@.len(),
            ensures
                valid == match samples@[i as int] {
                    Some(_) => 255u8,
                    None => 0u8,
                }
            {
                match samples[i] {
                    Some(_) => 255,
                    None => 0,
                }
            },
    );
    let foreground: Vec<u8> = tabulate(
        size,
        |i: usize| -> (shown: u8)
            requires
                i < samples@.len(),
            ensures
                shown == match samples@[i as int] {
                    Some(sample) => if sample.foreground {
                        255u8
                    } else {
                        0u8
                    },
                    None => 0u8,
                }
            {
                match samples[i] {
                    Some(sample) => if sample.foreground {
                        255
                    } else {
                        0
                    },
                    None => 0,
                }
            },
    );
    let relaxed: Vec<u8> = tabulate(
        size,
        |i: usize| -> (shown: u8)
            requires
                i < samples@.len(),
            ensures
                shown == match samples@[i as int] {
                    Some(sample) => if sample.foreground && sample.relaxed {
                        255u8
                    } else {
                        0u8
                    },
                    None => 0u8,
                }
            {
                match samples[i] {
                    Some(sample) => if sample.foreground && sample.relaxed {
                        255
                    } else {
                        0
                    },
                    None => 0,
                }
            },
    );
    RenderedFocusLayer {
        image: Raster { width, height, pixels },
        mask: Raster { width, height, pixels: mask },
        foreground_mask: Raster { width, height, pixels: foreground },
        relaxed_foreground_mask: Raster { width, height, pixels: relaxed },
        left: region.left,
        top: region.top,
    }
}

/// Relaxed pixels are foreground, and foreground is valid.
pub proof fn law_layer_masks_are_nested<P>(
    layer: RenderedFocusLayer<P>,
    i: int,
    sample: Option<LayerSample<P>>,
    blank: P,
)
    requires
        shows_sample(layer, i, sample, blank),
    ensures
        layer.relaxed_foreground_mask.pixels@[i] > 0 ==> layer.foreground_mask.pixels@[i] > 0,
        layer.foreground_mask.pixels@[i] > 0 ==> layer.mask.pixels@[i] > 0,
{
}

/// A clamped edge is the nearest column or row of the canvas.
pub proof fn law_clamped_edges_are_nearest(edge: int, length: int, other: int)
    requires
        0 < length,
        0 <= other < length,
    ensures
        0 <= clamped_edge(edge, length) < length,
        0 <= edge < length ==> clamped_edge(edge, length) == edge,
        edge < 0 ==> clamped_edge(edge, length) <= other,
        edge >= length ==> clamped_edge(edge, length) >= other,
{
}

/// The correction that applies on an axis has the narrowest band, and of the narrowest the one in
/// whose middle the pixel lies nearest.
pub proof fn law_narrow_bands_are_preferred(
    candidates: Seq<LocalCandidate>,
    axis: BandAxis,
    selected: Option<usize>,
    j: int,
)
    requires
        is_selection(candidates, axis, selected),
        0 <= j < candidates.len(),
        candidates[j].axis == axis,
        candidates[j].span < 0x7ff0_0000_0000_0000,
    ensures
        selected is Some,
        ({
            let k = selected->0 as int;
            &&& candidates[k].axis == axis
            &&& candidates[k].span <= candidates[j].span
            &&& candidates[k].span == candidates[j].span ==> candidates[k].distance
                <= candidates[j].distance
            &&& candidates[k].span == candidates[j].span && candidates[k].distance
                == candidates[j].distance ==> k <= j
        }),
{
    assert(candidates[j].axis == axis);
}

/// Corrections on both axes are applied one after the other, as strongly as the weaker of them; a
/// single one applies alone; without strength there is none.
pub proof fn law_corrections_are_composed(
    candidates: Seq<LocalCandidate>,
    vertical: Option<usize>,
    horizontal: Option<usize>,
)
    ensures
        ({
            let choice = chosen_mapping(candidates, vertical, horizontal);
            &&& vertical is None && horizontal is None ==> choice.mapping == LocalMapping::Absent
            &&& vertical is Some && horizontal is Some ==> {
                let (v, h) = (vertical->0, horizontal->0);
                let (a, b) = (candidates[v as int], candidates[h as int]);
                if a.strength > 0 && b.strength > 0 {
                    &&& choice.mapping == LocalMapping::Composed(v, h)
                    &&& choice.strength <= a.strength
                    &&& choice.strength <= b.strength
                    &&& choice.strength == a.strength || choice.strength == b.strength
                    &&& choice.relax_foreground_seam == (a.relax_foreground_seam
                        || b.relax_foreground_seam)
                } else {
                    choice.mapping == LocalMapping::Absent && choice.strength == 0
                }
            }
            &&& (vertical is Some) != (horizontal is Some) ==> {
                let k = if vertical is Some {
                    vertical->0
                } else {
                    horizontal->0
                };
                let only = candidates[k as int];
                if only.strength > 0 {
                    &&& choice.mapping == LocalMapping::Single(k)
                    &&& choice.strength == only.strength
                    &&& choice.relax_foreground_seam == only.relax_foreground_seam
                } else {
                    choice.mapping == LocalMapping::Absent && choice.strength == 0
                }
            }
        }),
{
}

/// A layer shows what was sampled: valid exactly where there is a sample, foreground exactly where
/// that is foreground, relaxed exactly where relaxed foreground is.
pub proof fn law_layers_show_their_samples<P>(
    layer: RenderedFocusLayer<P>,
    i: int,
    sample: Option<LayerSample<P>>,
    blank: P,
)
    requires
        shows_sample(layer, i, sample, blank),
    ensures
        layer.mask.pixels@[i] > 0 <==> sample is Some,
        layer.foreground_mask.pixels@[i] > 0 <==> sample is Some && sample->0.foreground,
        layer.relaxed_foreground_mask.pixels@[i] > 0 <==> sample is Some && sample->0.foreground
            && sample->0.relaxed,
        sample is Some ==> layer.image.pixels@[i] == sample->0.pixel,
        sample is None ==> layer.image.pixels@[i] == blank,
{
}

} // verus!
