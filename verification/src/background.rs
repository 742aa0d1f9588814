//! Which pixels of a focus stack show the background, and how a reference of it is
//! gathered from the sources.

use vstd::prelude::*;

use crate::color_samples::FOCUS_COLOR_MIN_SAMPLES;
use crate::color_samples::keys_in_cell;
use crate::grid::cell;
use crate::grid::lemma_cell;
use crate::grid::lemma_split;
use crate::masks::blank_mask;
use crate::masks::component_is_kept;
use crate::masks::count_set;
use crate::masks::dilate_focus_binary_mask;
use crate::masks::fill_focus_foreground_holes;
use crate::masks::flag;
use crate::masks::is_outside;
use crate::masks::law_opening_adds_nothing;
use crate::masks::law_outside_spreads_over_cleared_pixels;
use crate::masks::open_focus_binary_mask;
use crate::masks::retain_focus_foreground_components;
use crate::masks::set_count;
use crate::masks::survivor_nearby;
use crate::order::median_of;
use crate::raster::Raster;
use crate::raster::tabulate;
use crate::registration::ToneMedians;
use crate::registration::tone_medians;
use crate::window::set_nearby;

verus! {

/// Fewer foreground pixels are taken for noise.
pub const MIN_ENVELOPE_PIXELS: usize = 24;

/// Fewer background pixels say nothing about its tone.
pub const MIN_BACKGROUND_PIXELS: usize = 128;

/// How the foreground is cleaned up and widened. All lengths are in pixels.
pub struct EnvelopeSettings {
    pub cleanup_radius: usize,
    pub growth_radius: usize,
    pub existing_growth_radius: usize,
    pub minimum_component_size: usize,
    pub minimum_component_width: usize,
}

impl EnvelopeSettings {
    /// The radii are small enough for the counts of a window.
    pub open spec fn well_formed(&self) -> bool {
        &&& 0 < self.cleanup_radius <= 0x1fff_ffff
        &&& self.growth_radius <= 0x3fff_ffff
        &&& self.existing_growth_radius <= 0x3fff_ffff
    }
}

/// A mask without its thin runs.
pub open spec fn opened(mask: Seq<u8>, width: int, height: int, radius: int) -> Seq<u8> {
    Seq::new(
        mask.len(),
        |i: int| flag(survivor_nearby(mask, width, height, i % width, i / width, radius)),
    )
}

/// The components of a mask that are large enough.
pub open spec fn retained(
    mask: Seq<u8>,
    width: int,
    height: int,
    least_size: int,
    least_width: int,
) -> Seq<u8> {
    Seq::new(
        mask.len(),
        |i: int|
            flag(
                mask[i] > 0 && component_is_kept(
                    mask,
                    mask,
                    width,
                    height,
                    least_size,
                    least_width,
                    i,
                ),
            ),
    )
}

/// A mask with its holes set.
pub open spec fn filled(mask: Seq<u8>, width: int, height: int) -> Seq<u8> {
    Seq::new(
        mask.len(),
        |i: int|
            if mask[i] == 0 && !is_outside(mask, width, height, i) {
                255u8
            } else {
                mask[i]
            },
    )
}

/// A mask grown by some columns and rows.
pub open spec fn grown(mask: Seq<u8>, width: int, height: int, radius: int) -> Seq<u8> {
    Seq::new(
        mask.len(),
        |i: int| flag(set_nearby(mask, width, height, i % width, i / width, radius)),
    )
}

/// A mask with no pixel set.
pub open spec fn cleared_mask(length: nat) -> Seq<u8> {
    Seq::new(length, |i: int| 0u8)
}

/// The valid pixels of a foreground tone.
pub open spec fn tone_seed(tone: Seq<bool>, valid: Seq<u8>) -> Seq<u8> {
    Seq::new(valid.len(), |i: int| flag(valid[i] > 0 && tone[i]))
}

/// The pixels that the background is kept away from: painted content, cleaned up and
/// widened, and the widened foreground that was found before.
pub open spec fn envelope_of(
    tone: Seq<bool>,
    valid: Seq<u8>,
    existing: Seq<u8>,
    width: int,
    height: int,
    settings: EnvelopeSettings,
) -> Seq<u8> {
    let content = filled(
        retained(
            opened(tone_seed(tone, valid), width, height, settings.cleanup_radius as int),
            width,
            height,
            settings.minimum_component_size as int,
            settings.minimum_component_width as int,
        ),
        width,
        height,
    );
    let painted = if set_count(content, content.len() as int) >= MIN_ENVELOPE_PIXELS {
        grown(content, width, height, settings.growth_radius as int)
    } else {
        cleared_mask(valid.len())
    };
    let known = if set_count(existing, existing.len() as int) > 0 {
        grown(existing, width, height, settings.existing_growth_radius as int)
    } else {
        cleared_mask(valid.len())
    };
    Seq::new(
        valid.len(),
        |i: int|
            if painted[i] > known[i] {
                painted[i]
            } else {
                known[i]
            },
    )
}

/// Grows a mask, told by position.
fn grow(mask: &Raster<u8>, radius: usize) -> (result: Raster<u8>)
    requires
        mask.well_formed(),
        mask.width > 0,
        radius <= 0x3fff_ffff,
    ensures
        result.well_formed(),
        result.same_size(mask),
        result.pixels@ == grown(mask.pixels@, mask.width as int, mask.height as int, radius as int),
{
    let result: Raster<u8> = dilate_focus_binary_mask(mask, radius);
    proof {
        let (w, h) = (mask.width as int, mask.height as int);
        assert forall|i: int| 0 <= i < mask.pixels@.len() implies #[trigger] result.pixels@[i]
            == grown(mask.pixels@, w, h, radius as int)[i] by {
            lemma_split(w, h, i);
            assert(result.at(i % w, i / w) == result.pixels@[i]);
        }
        assert(result.pixels@ =~= grown(mask.pixels@, w, h, radius as int));
    }
    result
}

/// The pixels that the background is kept away from. Blank where the masks differ in
/// size.
pub fn build_focus_background_foreground_envelope(
    tone: &Raster<bool>,
    analysis_mask: &Raster<u8>,
    existing_foreground_mask: &Raster<u8>,
    settings: &EnvelopeSettings,
) -> (envelope: Raster<u8>)
    requires
        tone.well_formed(),
        analysis_mask.well_formed(),
        existing_foreground_mask.well_formed(),
        settings.well_formed(),
    ensures
        envelope.well_formed(),
        envelope.same_size(tone),
        envelope.pixels@ == if analysis_mask.same_size(tone) && existing_foreground_mask.same_size(
            tone,
        ) && tone.width > 0 && tone.height > 0 {
            envelope_of(
                tone.pixels@,
                analysis_mask.pixels@,
                existing_foreground_mask.pixels@,
                tone.width as int,
                tone.height as int,
                *settings,
            )
        } else {
            cleared_mask(tone.pixels@.len())
        },
{
    let width: u32 = tone.width;
    let height: u32 = tone.height;
    let size: usize = tone.pixels.len();
    let ghost (w, h) = (width as int, height as int);
    if width == 0 || height == 0 || analysis_mask.width != width || analysis_mask.height != height
        || existing_foreground_mask.width != width || existing_foreground_mask.height != height {
        let blank: Raster<u8> = blank_mask(width, height);
        assert(blank.pixels@ =~= cleared_mask(tone.pixels@.len()));
        return blank;
    }
    let seed_pixels: Vec<u8> = tabulate(
        size,
        |i: usize| -> (set: u8)
            requires
                i < tone.pixels@.len(),
                i < analysis_mask.pixels@.len(),
            ensures
                set == flag(analysis_mask.pixels@[i as int] > 0 && tone.pixels@[i as int])
            {
                if analysis_mask.pixels[i] > 0 && tone.pixels[i] {
                    255
                } else {
                    0
                }
            },
    );
    let seed: Raster<u8> = Raster { width, height, pixels: seed_pixels };
    let ghost seed_cells = tone_seed(tone.pixels@, analysis_mask.pixels@);
    assert(seed.pixels@ =~= seed_cells);
    let cleaned: Raster<u8> = open_focus_binary_mask(&seed, settings.cleanup_radius);
    let ghost cleaned_cells = opened(seed_cells, w, h, settings.cleanup_radius as int);
    proof {
        assert forall|i: int| 0 <= i < size implies #[trigger] cleaned.pixels@[i]
            == cleaned_cells[i] by {
            lemma_split(w, h, i);
            assert(cleaned.at(i % w, i / w) == cleaned.pixels@[i]);
        }
        assert(cleaned.pixels@ =~= cleaned_cells);
    }
    let kept: Raster<u8> = retain_focus_foreground_components(
        &cleaned,
        &cleaned,
        settings.minimum_component_size,
        settings.minimum_component_width,
    );
    let ghost kept_cells = retained(
        cleaned_cells,
        w,
        h,
        settings.minimum_component_size as int,
        settings.minimum_component_width as int,
    );
    assert(kept.pixels@ =~= kept_cells);
    let content: Raster<u8> = fill_focus_foreground_holes(&kept);
    assert(content.pixels@ =~= filled(kept_cells, w, h));
    let painted: Raster<u8> = if count_set(&content.pixels) >= MIN_ENVELOPE_PIXELS {
        grow(&content, settings.growth_radius)
    } else {
        blank_mask(width, height)
    };
    let known: Raster<u8> = if count_set(&existing_foreground_mask.pixels) > 0 {
        grow(existing_foreground_mask, settings.existing_growth_radius)
    } else {
        blank_mask(width, height)
    };
    let pixels: Vec<u8> = tabulate(
        size,
        |i: usize| -> (set: u8)
            requires
                i < painted.pixels@.len(),
                i < known.pixels@.len(),
            ensures
                set == if painted.pixels@[i as int] > known.pixels@[i as int] {
                    painted.pixels@[i as int]
                } else {
                    known.pixels@[i as int]
                }
            {
                if painted.pixels[i] > known.pixels[i] {
                    painted.pixels[i]
                } else {
                    known.pixels[i]
                }
            },
    );
    let envelope: Raster<u8> = Raster { width, height, pixels };
    assert(envelope.pixels@ =~= envelope_of(
        tone.pixels@,
        analysis_mask.pixels@,
        existing_foreground_mask.pixels@,
        w,
        h,
        *settings,
    ));
    envelope
}

/// The valid pixels outside of the envelope.
pub open spec fn background_of(valid: Seq<u8>, envelope: Seq<u8>) -> Seq<u8> {
    Seq::new(valid.len(), |i: int| flag(valid[i] > 0 && envelope[i] == 0))
}

/// The pixels of a source from which the background reference is gathered. No colour
/// threshold takes part, as the exposure of the background differs between sources.
pub fn build_focus_background_reference_mask(
    tone: &Raster<bool>,
    analysis_mask: &Raster<u8>,
    existing_foreground_mask: &Raster<u8>,
    settings: &EnvelopeSettings,
) -> (mask: Raster<u8>)
    requires
        tone.well_formed(),
        analysis_mask.well_formed(),
        existing_foreground_mask.well_formed(),
        settings.well_formed(),
    ensures
        mask.well_formed(),
        mask.same_size(tone),
        mask.pixels@ == if analysis_mask.same_size(tone) && existing_foreground_mask.same_size(tone)
            && tone.width > 0 && tone.height > 0 {
            background_of(
                analysis_mask.pixels@,
                envelope_of(
                    tone.pixels@,
                    analysis_mask.pixels@,
                    existing_foreground_mask.pixels@,
                    tone.width as int,
                    tone.height as int,
                    *settings,
                ),
            )
        } else {
            cleared_mask(tone.pixels@.len())
        },
{
    let width: u32 = tone.width;
    let height: u32 = tone.height;
    let envelope: Raster<u8> = build_focus_background_foreground_envelope(
        tone,
        analysis_mask,
        existing_foreground_mask,
        settings,
    );
    if width == 0 || height == 0 || analysis_mask.width != width || analysis_mask.height != height
        || existing_foreground_mask.width != width || existing_foreground_mask.height != height {
        return envelope;
    }
    let size: usize = tone.pixels.len();
    let pixels: Vec<u8> = tabulate(
        size,
        |i: usize| -> (set: u8)
            requires
                i < analysis_mask.pixels@.len(),
                i < envelope.pixels@.len(),
            ensures
                set == flag(
                    analysis_mask.pixels@[i as int] > 0 && envelope.pixels@[i as int] == 0,
                )
            {
                if analysis_mask.pixels[i] > 0 && envelope.pixels[i] == 0 {
                    255
                } else {
                    0
                }
            },
    );
    assert(pixels@ =~= background_of(analysis_mask.pixels@, envelope.pixels@));
    Raster { width, height, pixels }
}

/// The background pixels of one kind.
pub open spec fn eligible_background(
    valid: Seq<u8>,
    envelope: Seq<u8>,
    eligible: Seq<bool>,
) -> Seq<u8> {
    Seq::new(valid.len(), |i: int| flag(valid[i] > 0 && envelope[i] == 0 && eligible[i]))
}

/// The background from which a tone is measured. `None` where it is too small.
pub fn measured_background(
    analysis_mask: &Raster<u8>,
    envelope: &Raster<u8>,
    eligible: &Vec<bool>,
) -> (background: Option<Raster<u8>>)
    requires
        analysis_mask.well_formed(),
        envelope.well_formed(),
        envelope.same_size(analysis_mask),
        eligible@.len() == analysis_mask.pixels@.len(),
    ensures
        ({
            let cells = eligible_background(analysis_mask.pixels@, envelope.pixels@, eligible@);
            &&& background is Some <==> set_count(cells, cells.len() as int) >= 128
            &&& background matches Some(mask) ==> mask.well_formed() && mask.same_size(
                analysis_mask,
            ) && mask.pixels@ == cells
        }),
{
    let size: usize = analysis_mask.pixels.len();
    let pixels: Vec<u8> = tabulate(
        size,
        |i: usize| -> (set: u8)
            requires
                i < analysis_mask.pixels@.len(),
                i < envelope.pixels@.len(),
                i < eligible@.len(),
            ensures
                set == flag(
                    analysis_mask.pixels@[i as int] > 0 && envelope.pixels@[i as int] == 0
                        && eligible@[i as int],
                )
            {
                if analysis_mask.pixels[i] > 0 && envelope.pixels[i] == 0 && eligible[i] {
                    255
                } else {
                    0
                }
            },
    );
    assert(pixels@ =~= eligible_background(analysis_mask.pixels@, envelope.pixels@, eligible@));
    if count_set(&pixels) < MIN_BACKGROUND_PIXELS {
        None
    } else {
        Some(Raster { width: analysis_mask.width, height: analysis_mask.height, pixels })
    }
}

/// The background never reaches into the envelope, nor beyond what is valid.
pub proof fn law_background_keeps_off_the_foreground(
    valid: Seq<u8>,
    envelope: Seq<u8>,
    eligible: Seq<bool>,
    i: int,
)
    requires
        0 <= i < valid.len(),
        eligible_background(valid, envelope, eligible)[i] > 0,
    ensures
        valid[i] > 0,
        envelope[i] == 0,
{
}

/// How much the value so far weighs when a source is added to the reference: `None`
/// where the source adds nothing, 0 where it starts anew.
pub open spec fn reference_weight(valid: u8, count: u16, candidate_valid: u8) -> Option<u16> {
    if candidate_valid == 0 {
        None
    } else if valid == 0 {
        Some(0)
    } else {
        Some(count)
    }
}

/// The number of sources in a pixel of the reference after one more, as far as 16 bits
/// count.
pub open spec fn next_count(valid: u8, count: u16, candidate_valid: u8) -> u16 {
    match reference_weight(valid, count, candidate_valid) {
        None => count,
        Some(weight) => if weight == u16::MAX {
            u16::MAX
        } else {
            (weight + 1) as u16
        },
    }
}

/// Adds the pixels of a source to the reference and returns how much the values so far
/// weigh. Nothing happens where the sizes differ.
pub fn update_focus_background_reference(
    reference_mask: &mut Raster<u8>,
    reference_counts: &mut Vec<u16>,
    candidate_mask: &Raster<u8>,
) -> (weights: Option<Vec<Option<u16>>>)
    requires
        old(reference_mask).well_formed(),
        candidate_mask.well_formed(),
    ensures
        final(reference_mask).well_formed(),
        final(reference_mask).same_size(old(reference_mask)),
        final(reference_counts)@.len() == old(reference_counts)@.len(),
        weights is Some <==> old(reference_mask).width > 0 && old(reference_mask).height > 0
            && candidate_mask.same_size(old(reference_mask)) && old(reference_counts)@.len()
            == old(reference_mask).pixels@.len(),
        weights is None ==> final(reference_mask).pixels@ == old(reference_mask).pixels@
            && final(reference_counts)@ == old(reference_counts)@,
        weights matches Some(list) ==> list@.len() == candidate_mask.pixels@.len() && forall|i: int|
            #![trigger list@[i]]
            0 <= i < list@.len() ==> {
                let valid = old(reference_mask).pixels@[i];
                let count = old(reference_counts)@[i];
                let candidate_valid = candidate_mask.pixels@[i];
                &&& list@[i] == reference_weight(valid, count, candidate_valid)
                &&& final(reference_counts)@[i] == next_count(valid, count, candidate_valid)
                &&& final(reference_mask).pixels@[i] == if list@[i] == Some(0u16) {
                    255
                } else {
                    valid
                }
            },
{
    let ghost start_mask = reference_mask.pixels@;
    let ghost start_counts = reference_counts@;
    if reference_mask.width == 0 || reference_mask.height == 0 || candidate_mask.width
        != reference_mask.width || candidate_mask.height != reference_mask.height
        || reference_counts.len() != reference_mask.pixels.len() {
        return None;
    }
    let size: usize = candidate_mask.pixels.len();
    let mut list: Vec<Option<u16>> = Vec::new();
    let mut i: usize = 0;
    while i < size
        invariant
            i <= size,
            size == candidate_mask.pixels@.len(),
            start_mask == old(reference_mask).pixels@,
            start_counts == old(reference_counts)@,
            start_mask.len() == size,
            start_counts.len() == size,
            reference_mask.pixels@.len() == size,
            reference_mask.same_size(old(reference_mask)),
            reference_counts@.len() == size,
            list@.len() == i,
            forall|j: int|
                #![trigger list@[j]]
                0 <= j < i ==> list@[j] == reference_weight(
                    start_mask[j],
                    start_counts[j],
                    candidate_mask.pixels@[j],
                ),
            forall|j: int|
                0 <= j < i ==> #[trigger] reference_counts@[j] == next_count(
                    start_mask[j],
                    start_counts[j],
                    candidate_mask.pixels@[j],
                ),
            forall|j: int|
                0 <= j < i ==> #[trigger] reference_mask.pixels@[j] == if list@[j] == Some(0u16) {
                    255
                } else {
                    start_mask[j]
                },
            forall|j: int| i <= j < size ==> #[trigger] reference_counts@[j] == start_counts[j],
            forall|j: int| i <= j < size ==> #[trigger] reference_mask.pixels@[j] == start_mask[j],
        decreases size - i,
    {
        let count: u16 = reference_counts[i];
        if candidate_mask.pixels[i] == 0 {
            list.push(None);
        } else {
            let weight: u16 = if reference_mask.pixels[i] == 0 {
                0
            } else {
                count
            };
            list.push(Some(weight));
            reference_counts.set(
                i,
                if weight == u16::MAX {
                    u16::MAX
                } else {
                    weight + 1
                },
            );
            if weight == 0 {
                reference_mask.pixels.set(i, 255);
            }
        }
        i += 1;
    }
    assert(reference_mask.pixels@.len() == reference_mask.width * reference_mask.height);
    Some(list)
}

/// The distance between the pixels that a tone is measured at: the least whose square
/// reaches the area in units of 120000 pixels.
pub fn tone_sample_step(width: u32, height: u32) -> (step: usize)
    ensures
        step >= 1,
        step * step >= width as int * height as int / 120_000,
        step > 1 ==> (step - 1) * (step - 1) < width as int * height as int / 120_000,
{
    assert(0 <= width * height <= 0xffff_ffff * 0xffff_ffff) by (nonlinear_arith)
        requires
            0 <= width <= 0xffff_ffff,
            0 <= height <= 0xffff_ffff,
    ;
    let units: u64 = (width as u64) * (height as u64) / 120_000;
    let mut step: u64 = 1;
    while step * step < units
        invariant
            1 <= step <= 20_000_000,
            units <= 200_000_000_000_000,
            0 <= step * step <= 400_000_000_000_000,
            step > 1 ==> (step - 1) * (step - 1) < units,
        decreases 20_000_001 - step,
    {
        assert(step < 20_000_000) by {
            if step == 20_000_000 {
                assert(step * step == 400_000_000_000_000) by (nonlinear_arith)
                    requires
                        step == 20_000_000,
                ;
            }
        }
        step += 1;
        assert(0 <= step * step <= 400_000_000_000_000) by (nonlinear_arith)
            requires
                1 <= step <= 20_000_000,
        ;
    }
    step as usize
}

/// The cell is on the lattice with this distance, and set.
pub open spec fn on_lattice(mask: Seq<u8>, width: int, step: int, i: int) -> bool {
    0 <= i < mask.len() && (i % width) % step == 0 && (i / width) % step == 0 && mask[i] > 0
}

/// The set pixels on a lattice, in order.
pub fn lattice_pixels(mask: &Raster<u8>, step: usize) -> (list: Vec<usize>)
    requires
        mask.well_formed(),
        step >= 1,
    ensures
        forall|k: int|
            0 <= k < list@.len() ==> on_lattice(
                mask.pixels@,
                mask.width as int,
                step as int,
                #[trigger] list@[k] as int,
            ),
        forall|j: int, k: int| 0 <= j < k < list@.len() ==> #[trigger] list@[j] < #[trigger] list@[k],
        forall|i: int| #[trigger]
            on_lattice(mask.pixels@, mask.width as int, step as int, i) ==> list@.contains(
                i as usize,
            ),
{
    let mut list: Vec<usize> = Vec::new();
    let width: usize = mask.width as usize;
    let size: usize = mask.pixels.len();
    let ghost w = width as int;
    let ghost s = step as int;
    let mut i: usize = 0;
    while i < size
        invariant
            i <= size,
            size == mask.pixels@.len(),
            mask.well_formed(),
            width == mask.width,
            w == width,
            s == step,
            s >= 1,
            forall|k: int|
                0 <= k < list@.len() ==> on_lattice(
                    mask.pixels@,
                    w,
                    s,
                    #[trigger] list@[k] as int,
                ) && list@[k] < i,
            forall|j: int, k: int|
                0 <= j < k < list@.len() ==> #[trigger] list@[j] < #[trigger] list@[k],
            forall|j: int| #[trigger]
                on_lattice(mask.pixels@, w, s, j) && j < i ==> list@.contains(j as usize),
        decreases size - i,
    {
        assert(width > 0) by (nonlinear_arith)
            requires
                0 < mask.width * mask.height,
                width == mask.width,
        ;
        let ghost before = list@;
        if (i % width) % step == 0 && (i / width) % step == 0 && mask.pixels[i] > 0 {
            list.push(i);
        }
        proof {
            assert forall|j: int| #[trigger]
                on_lattice(mask.pixels@, w, s, j) && j < i + 1 implies list@.contains(
                j as usize,
            ) by {
                if j < i {
                    let k = choose|k: int| 0 <= k < before.len() && before[k] == j as usize;
                    assert(list@[k] == j as usize);
                } else {
                    assert(list@[before.len() as int] == j as usize);
                }
            }
        }
        i += 1;
    }
    list
}

/// The owners of some pixels.
pub open spec fn owners_at(owner: Seq<u8>, pixels: Seq<usize>) -> Seq<usize> {
    pixels.map_values(|i: usize| owner[i as int] as usize)
}

/// The middle tone of one channel over some pixels, and over those of each owner. Pixels
/// without an owner count for the whole only.
pub fn owner_tones(pixels: &Vec<usize>, owner: &Raster<u8>, keys: Vec<i64>) -> (tones: ToneMedians)
    requires
        pixels@.len() == keys@.len(),
        forall|k: int|
            0 <= k < pixels@.len() ==> #[trigger] pixels@[k] < owner.pixels@.len(),
    ensures
        tones.nodes@.len() == 256,
        tones.nodes@[0] is None,
        forall|n: int|
            0 < n < 256 ==> #[trigger] tones.nodes@[n] == {
                let own = keys_in_cell(owners_at(owner.pixels@, pixels@), keys@, n);
                if own.len() >= 96 {
                    Some(median_of(own))
                } else {
                    None
                }
            },
        tones.overall == if keys@.len() == 0 {
            None::<i64>
        } else {
            Some(median_of(keys@))
        },
{
    let mut nodes: Vec<usize> = Vec::new();
    let mut i: usize = 0;
    while i < pixels.len()
        invariant
            i <= pixels@.len(),
            nodes@.len() == i,
            forall|k: int|
                0 <= k < pixels@.len() ==> #[trigger] pixels@[k] < owner.pixels@.len(),
            forall|k: int|
                0 <= k < i ==> #[trigger] nodes@[k] == owners_at(owner.pixels@, pixels@)[k]
                    && nodes@[k] < 256,
        decreases pixels@.len() - i,
    {
        assert(pixels@[i as int] < owner.pixels@.len());
        nodes.push(owner.pixels[pixels[i]] as usize);
        i += 1;
    }
    assert(nodes@ =~= owners_at(owner.pixels@, pixels@));
    let mut tones: ToneMedians = tone_medians(&nodes, keys, 256, FOCUS_COLOR_MIN_SAMPLES);
    tones.nodes.set(0, None);
    tones
}

/// Foreground that was found before is kept away from, with everything within its growth.
pub proof fn law_known_foreground_is_enveloped(
    tone: Seq<bool>,
    valid: Seq<u8>,
    existing: Seq<u8>,
    width: int,
    height: int,
    settings: EnvelopeSettings,
    x: int,
    y: int,
    a: int,
    b: int,
)
    requires
        valid.len() == width * height,
        existing.len() == valid.len(),
        0 <= x < width,
        0 <= y < height,
        0 <= a < width,
        0 <= b < height,
        existing[b * width + a] > 0,
        -settings.existing_growth_radius <= a - x <= settings.existing_growth_radius,
        -settings.existing_growth_radius <= b - y <= settings.existing_growth_radius,
    ensures
        envelope_of(tone, valid, existing, width, height, settings)[y * width + x] == 255,
        background_of(valid, envelope_of(tone, valid, existing, width, height, settings))[y * width
            + x] == 0,
{
    lemma_cell(width, height, x, y);
    lemma_cell(width, height, a, b);
    let i = cell(width, x, y);
    lemma_some_are_set(existing, cell(width, a, b), existing.len() as int);
    assert(set_nearby(
        existing,
        width,
        height,
        x,
        y,
        settings.existing_growth_radius as int,
    )) by {
        assert(existing[cell(width, a, b)] > 0);
    }
    assert(grown(existing, width, height, settings.existing_growth_radius as int)[i] == 255);
}

proof fn lemma_some_are_set(mask: Seq<u8>, i: int, len: int)
    requires
        0 <= i < len <= mask.len(),
        mask[i] > 0,
    ensures
        set_count(mask, len) > 0,
    decreases len,
{
    lemma_count_is_positive(mask, len - 1);
    if i < len - 1 {
        lemma_some_are_set(mask, i, len - 1);
    }
}

proof fn lemma_count_is_positive(mask: Seq<u8>, len: int)
    ensures
        set_count(mask, len) >= 0,
    decreases len,
{
    if len > 0 {
        lemma_count_is_positive(mask, len - 1);
    }
}

proof fn lemma_none_are_set(mask: Seq<u8>, len: int)
    requires
        0 <= len <= mask.len(),
        forall|i: int| 0 <= i < mask.len() ==> #[trigger] mask[i] == 0,
    ensures
        set_count(mask, len) == 0,
    decreases len,
{
    if len > 0 {
        lemma_none_are_set(mask, len - 1);
    }
}

/// Without foreground and without painted content every valid pixel is background, and no other.
pub proof fn law_plain_sources_are_all_background(
    tone: Seq<bool>,
    valid: Seq<u8>,
    existing: Seq<u8>,
    width: int,
    height: int,
    settings: EnvelopeSettings,
    i: int,
)
    requires
        0 < width,
        valid.len() == width * height,
        existing.len() == valid.len(),
        settings.well_formed(),
        (2 * settings.cleanup_radius + 1) * (2 * settings.cleanup_radius + 1) < 1000,
        forall|j: int| 0 <= j < existing.len() ==> #[trigger] existing[j] == 0,
        forall|j: int| #![trigger tone[j]] 0 <= j < valid.len() ==> !tone[j] || valid[j] == 0,
        0 <= i < valid.len(),
    ensures
        background_of(valid, envelope_of(tone, valid, existing, width, height, settings))[i]
            == if valid[i] > 0 {
            255
        } else {
            0u8
        },
{
    let seeds = tone_seed(tone, valid);
    let thin = opened(seeds, width, height, settings.cleanup_radius as int);
    assert forall|j: int| 0 <= j < thin.len() implies #[trigger] thin[j] == 0 by {
        lemma_split(width, height, j);
        let (x, y) = (j % width, j / width);
        if survivor_nearby(seeds, width, height, x, y, settings.cleanup_radius as int) {
            let centre = law_opening_adds_nothing(
                seeds,
                width,
                height,
                settings.cleanup_radius as int,
                x,
                y,
            );
            assert(seeds[j] > 0);
            assert(!tone[j] || valid[j] == 0);
        }
    }
    let large = retained(
        thin,
        width,
        height,
        settings.minimum_component_size as int,
        settings.minimum_component_width as int,
    );
    let content = filled(large, width, height);
    assert forall|j: int| 0 <= j < content.len() implies #[trigger] content[j] == 0 by {
        lemma_clear_is_outside(large, width, height, j);
    }
    lemma_none_are_set(content, content.len() as int);
    lemma_none_are_set(existing, existing.len() as int);
}

proof fn lemma_clear_is_outside(mask: Seq<u8>, width: int, height: int, i: int)
    requires
        0 < width,
        mask.len() == width * height,
        0 <= i < mask.len(),
        forall|j: int| 0 <= j < mask.len() ==> #[trigger] mask[j] == 0,
    ensures
        is_outside(mask, width, height, i),
    decreases i / width,
{
    lemma_split(width, height, i);
    let (x, y) = (i % width, i / width);
    if y == 0 {
        law_outside_spreads_over_cleared_pixels(mask, width, height, x, y, x, y);
    } else {
        lemma_cell(width, height, x, y - 1);
        lemma_clear_is_outside(mask, width, height, cell(width, x, y - 1));
        law_outside_spreads_over_cleared_pixels(mask, width, height, x, y, x, y - 1);
    }
}

/// Every source counts once for a pixel where it is valid: the value so far weighs as many as
/// were added before, and a pixel without a value starts anew.
pub proof fn law_sources_weigh_the_same(valid: u8, count: u16, candidate_valid: u8)
    ensures
        candidate_valid == 0 ==> reference_weight(valid, count, candidate_valid) is None
            && next_count(valid, count, candidate_valid) == count,
        candidate_valid > 0 && valid > 0 ==> reference_weight(valid, count, candidate_valid) == Some(
            count,
        ),
        candidate_valid > 0 && valid > 0 && count < 0xffff ==> next_count(
            valid,
            count,
            candidate_valid,
        ) == count + 1,
        candidate_valid > 0 && valid > 0 && count == 0xffff ==> next_count(
            valid,
            count,
            candidate_valid,
        ) == 0xffff,
        candidate_valid > 0 && valid == 0 ==> reference_weight(valid, count, candidate_valid)
            == Some(0u16) && next_count(valid, count, candidate_valid) == 1,
{
}

/// The painted content of a source: the valid pixels of a foreground tone, without thin runs, of
/// the components that are large enough, with their holes.
pub open spec fn painted_content(
    tone: Seq<bool>,
    valid: Seq<u8>,
    width: int,
    height: int,
    settings: EnvelopeSettings,
) -> Seq<u8> {
    filled(
        retained(
            opened(
                Seq::new(
                    valid.len(),
                    |i: int|
                        if valid[i] != 0 && tone[i] {
                            255u8
                        } else {
                            0u8
                        },
                ),
                width,
                height,
                settings.cleanup_radius as int,
            ),
            width,
            height,
            settings.minimum_component_size as int,
            settings.minimum_component_width as int,
        ),
        width,
        height,
    )
}

/// Painted content of 24 pixels or more is kept away from, with everything within its growth;
/// where neither that nor known foreground is near, nothing is.
pub proof fn law_painted_content_is_enveloped(
    tone: Seq<bool>,
    valid: Seq<u8>,
    existing: Seq<u8>,
    width: int,
    height: int,
    settings: EnvelopeSettings,
    x: int,
    y: int,
)
    requires
        valid.len() == width * height,
        existing.len() == valid.len(),
        0 <= x < width,
        0 <= y < height,
    ensures
        ({
            let content = painted_content(tone, valid, width, height, settings);
            let painted = set_count(content, content.len() as int) >= 24 && set_nearby(
                content,
                width,
                height,
                x,
                y,
                settings.growth_radius as int,
            );
            let known = set_nearby(
                existing,
                width,
                height,
                x,
                y,
                settings.existing_growth_radius as int,
            );
            envelope_of(tone, valid, existing, width, height, settings)[y * width + x]
                == if painted || known {
                255u8
            } else {
                0
            }
        }),
{
    lemma_cell(width, height, x, y);
    let i = cell(width, x, y);
    let content = painted_content(tone, valid, width, height, settings);
    assert(tone_seed(tone, valid) =~= Seq::new(
        valid.len(),
        |i: int|
            if valid[i] != 0 && tone[i] {
                255u8
            } else {
                0u8
            },
    ));
    if set_nearby(existing, width, height, x, y, settings.existing_growth_radius as int) {
        let (a, b) = choose|a: int, b: int|
            #![trigger cell(width, a, b)]
            0 <= a < width && 0 <= b < height && x - settings.existing_growth_radius <= a <= x
                + settings.existing_growth_radius && y - settings.existing_growth_radius <= b <= y
                + settings.existing_growth_radius && existing[cell(width, a, b)] > 0;
        lemma_cell(width, height, a, b);
        lemma_some_are_set(existing, cell(width, a, b), existing.len() as int);
    }
}

/// The steps of the clean-up: a pixel is in the opened mask if a full window reaches it, in the
/// retained one if it was set and its component is large enough, and in the filled one if it was
/// set or cannot be reached from outside.
pub proof fn law_masks_are_cleaned_up_step_by_step(
    mask: Seq<u8>,
    width: int,
    height: int,
    radius: int,
    least_size: int,
    least_width: int,
    x: int,
    y: int,
)
    requires
        mask.len() == width * height,
        0 <= x < width,
        0 <= y < height,
    ensures
        ({
            let i = y * width + x;
            &&& opened(mask, width, height, radius)[i] != 0 <==> survivor_nearby(
                mask,
                width,
                height,
                x,
                y,
                radius,
            )
            &&& retained(mask, width, height, least_size, least_width)[i] != 0 <==> mask[i] != 0
                && component_is_kept(mask, mask, width, height, least_size, least_width, i)
            &&& filled(mask, width, height)[i] != 0 <==> mask[i] != 0 || !is_outside(
                mask,
                width,
                height,
                i,
            )
            &&& grown(mask, width, height, radius)[i] != 0 <==> set_nearby(
                mask,
                width,
                height,
                x,
                y,
                radius,
            )
        }),
{
    lemma_cell(width, height, x, y);
}

/// The pixels of a lattice are the set ones in every so many columns and rows.
pub proof fn law_lattices_hold_every_step(mask: Seq<u8>, width: int, height: int, step: int, x: int, y: int)
    requires
        mask.len() == width * height,
        0 <= x < width,
        0 <= y < height,
        0 < step,
    ensures
        on_lattice(mask, width, step, y * width + x) <==> x % step == 0 && y % step == 0 && mask[y
            * width + x] != 0,
{
    lemma_cell(width, height, x, y);
}

} // verus!
