//! The course of a focus stack: which way a stack is merged, which source owns a
//! pixel, and how a layer is committed to the canvas.

use vstd::prelude::*;

use crate::bounds::Bounds;
use crate::focus_layer::RenderedFocusLayer;
use crate::focus_layer::copy_region;
use crate::focus_layer::hard_select_focus_layer;
use crate::focus_layer::mark_focus_foreground_pixels;
use crate::focus_layer::mark_focus_owner_pixels;
use crate::focus_layer::place_focus_foreground_mask;
use crate::focus_layer::place_focus_layer;
use crate::focus_layer::takes_candidate;
use crate::grid::cell;
use crate::grid::lemma_cell;
use crate::grid::lemma_split;
use crate::masks::blank_mask;
use crate::masks::flag;
use crate::ownership::guarded_decision;
use crate::ownership::is_guarded;
use crate::ownership::law_only_near_foreground_guards;
use crate::ownership::suppress_focus_canvas_switches;
use crate::ownership::suppress_focus_foreground_ownership_switches;
use crate::ownership::suppress_focus_foreground_ownership_switches_on_canvas;
use crate::ownership::suppress_focus_foreground_switches;
use crate::ownership::suppress_focus_foreground_switches_on_canvas;
use crate::raster::Raster;
use crate::raster::tabulate;
use crate::resample::can_resize;
use crate::resample::divisor;
use crate::resample::nearest_resized;
use crate::resample::resize_binary_mask;
use crate::resample::saturated;
use crate::resample::scaled_region_end;
use crate::resample::scaled_region_start;
use crate::window::box_count;
use crate::window::box_counts;
use crate::window::law_even_windows;

verus! {

/// The way in which a stack of images is merged.
#[derive(Debug, Clone, Copy, PartialEq, Eq, Structural)]
pub enum StackRoute {
    /// There is nothing to merge.
    Empty,
    /// The camera moved: each position owns its part of the canvas.
    Mosaic,
    /// One position with different focus: the sharpest source owns a pixel.
    Focus,
}

/// The number of different groups.
pub open spec fn group_count(groups: Seq<u8>) -> nat {
    groups.to_set().len()
}

fn holds_group(groups: &Vec<u8>, wanted: u8) -> (holds: bool)
    ensures
        holds == groups@.contains(wanted),
{
    let mut i: usize = 0;
    while i < groups.len()
        invariant
            i <= groups@.len(),
            forall|j: int| 0 <= j < i ==> #[trigger] groups@[j] != wanted,
        decreases groups@.len() - i,
    {
        if groups[i] == wanted {
            return true;
        }
        i += 1;
    }
    false
}

/// Counts the different groups.
pub fn count_groups(groups: &Vec<u8>) -> (count: usize)
    ensures
        count == group_count(groups@),
{
    let mut known: Vec<u8> = Vec::new();
    let mut i: usize = 0;
    assert(groups@.take(0).to_set() =~= Set::<u8>::empty());
    assert(known@.to_set() =~= Set::<u8>::empty());
    while i < groups.len()
        invariant
            i <= groups@.len(),
            known@.no_duplicates(),
            known@.to_set() == groups@.take(i as int).to_set(),
        decreases groups@.len() - i,
    {
        let group: u8 = groups[i];
        let found: bool = holds_group(&known, group);
        let ghost before = known@;
        if !found {
            known.push(group);
        }
        proof {
            let shorter = groups@.take(i as int);
            let longer = groups@.take(i + 1);
            assert(longer =~= shorter.push(group));
            assert(longer.to_set() =~= shorter.to_set().insert(group)) by {
                assert forall|g: u8| longer.to_set().contains(g) == shorter.to_set().insert(
                    group,
                ).contains(g) by {
                    if shorter.contains(g) {
                        let k = choose|k: int| 0 <= k < shorter.len() && shorter[k] == g;
                        assert(longer[k] == g);
                    }
                    if g == group {
                        assert(longer[i as int] == g);
                    }
                    if longer.contains(g) {
                        let k = choose|k: int| 0 <= k < longer.len() && longer[k] == g;
                        if k < i {
                            assert(shorter[k] == g);
                        }
                    }
                }
            }
            if found {
                assert(shorter.to_set().contains(group));
                assert(shorter.to_set().insert(group) =~= shorter.to_set());
            } else {
                assert(known@.to_set() =~= before.to_set().insert(group)) by {
                    assert forall|g: u8| known@.to_set().contains(g) == before.to_set().insert(
                        group,
                    ).contains(g) by {
                        if before.contains(g) {
                            let k = choose|k: int| 0 <= k < before.len() && before[k] == g;
                            assert(known@[k] == g);
                        }
                        if g == group {
                            assert(known@[before.len() as int] == g);
                        }
                        if known@.contains(g) {
                            let k = choose|k: int| 0 <= k < known@.len() && known@[k] == g;
                            if k < before.len() {
                                assert(before[k] == g);
                            }
                        }
                    }
                }
            }
        }
        i += 1;
    }
    proof {
        assert(groups@.take(groups@.len() as int) =~= groups@);
        known@.unique_seq_to_set();
    }
    known.len()
}

/// The way in which a stack is merged. A gap in the sequence makes it a mosaic, and so
/// do several capture positions whose frames are shifted against each other; a single
/// position never does, as focus breathing alone can look like a shift.
pub open spec fn route_for(
    image_count: usize,
    sequence_gap_aware: bool,
    groups: Seq<u8>,
    frames_are_shifted: bool,
) -> StackRoute {
    if image_count == 0 {
        StackRoute::Empty
    } else if sequence_gap_aware || (group_count(groups) > 1 && frames_are_shifted) {
        StackRoute::Mosaic
    } else {
        StackRoute::Focus
    }
}

/// The way in which a stack is merged.
pub fn choose_route(
    image_count: usize,
    sequence_gap_aware: bool,
    groups: &Vec<u8>,
    frames_are_shifted: bool,
) -> (route: StackRoute)
    ensures
        route == route_for(image_count, sequence_gap_aware, groups@, frames_are_shifted),
{
    if image_count == 0 {
        StackRoute::Empty
    } else if sequence_gap_aware || (count_groups(groups) > 1 && frames_are_shifted) {
        StackRoute::Mosaic
    } else {
        StackRoute::Focus
    }
}

/// The number under which a source owns pixels: one for the first, two more than its
/// index for the others, as far as a byte counts.
pub fn owner_number(index: usize) -> (number: u8)
    ensures
        number == if index == 0 {
            1
        } else if index + 2 > 255 {
            255
        } else {
            index + 2
        },
{
    if index == 0 {
        1
    } else if index > 253 {
        255
    } else {
        (index + 2) as u8
    }
}

/// What has been merged of a focus stack.
pub struct FocusCanvas<P> {
    pub image: Raster<P>,
    pub mask: Raster<u8>,
    pub foreground: Raster<u8>,
    pub owner: Raster<u8>,
}

impl<P> FocusCanvas<P> {
    /// The image and its masks have one size.
    pub open spec fn well_formed(&self) -> bool {
        &&& self.image.well_formed()
        &&& self.mask.well_formed()
        &&& self.foreground.well_formed()
        &&& self.owner.well_formed()
        &&& self.mask.same_size(&self.image)
        &&& self.foreground.same_size(&self.image)
        &&& self.owner.same_size(&self.image)
    }

    pub open spec fn holds(&self, x: int, y: int) -> bool {
        0 <= x < self.image.width && 0 <= y < self.image.height
    }
}

/// The decision for a pixel of a layer after foreground that is owned has been
/// protected.
pub open spec fn settled_decision<P>(
    foreground: &Raster<u8>,
    candidate: &RenderedFocusLayer<P>,
    decision: u8,
    radius: usize,
    x: int,
    y: int,
) -> u8 {
    let guarded = is_guarded(
        foreground,
        candidate.left,
        candidate.top,
        candidate.image.width,
        candidate.image.height,
        radius,
        x,
        y,
    );
    let relaxed = candidate.relaxed_foreground_mask.at(x, y);
    guarded_decision(
        guarded_decision(decision, candidate.foreground_mask.at(x, y), relaxed, guarded),
        candidate.mask.at(x, y),
        relaxed,
        guarded,
    )
}

/// The candidate lies on the canvas and covers this pixel.
pub open spec fn reaches<P>(canvas: &FocusCanvas<P>, candidate: &RenderedFocusLayer<P>, x: int, y: int) -> bool {
    candidate.fits(canvas.image.width as int, canvas.image.height as int) && candidate.covers(x, y)
}

/// The candidate takes this pixel of the canvas.
pub open spec fn wins<P>(
    canvas: &FocusCanvas<P>,
    candidate: &RenderedFocusLayer<P>,
    decision: &Raster<u8>,
    x: int,
    y: int,
) -> bool {
    reaches(canvas, candidate, x, y) && takes_candidate(
        canvas.mask.at(x, y),
        candidate.mask.at(x - candidate.left, y - candidate.top),
        decision.at(x - candidate.left, y - candidate.top),
    )
}

/// The candidate is valid in this pixel of the canvas, and the decision is for it.
pub open spec fn is_decided<P>(
    canvas: &FocusCanvas<P>,
    candidate: &RenderedFocusLayer<P>,
    decision: &Raster<u8>,
    x: int,
    y: int,
) -> bool {
    reaches(canvas, candidate, x, y) && candidate.mask.at(x - candidate.left, y - candidate.top) > 0
        && decision.at(x - candidate.left, y - candidate.top) > 0
}

/// One pixel of a canvas after a layer was committed with the settled decision.
pub open spec fn is_committed<P>(
    before: &FocusCanvas<P>,
    after: &FocusCanvas<P>,
    candidate: &RenderedFocusLayer<P>,
    decision: &Raster<u8>,
    number: u8,
    x: int,
    y: int,
) -> bool {
    let a = x - candidate.left;
    let b = y - candidate.top;
    &&& after.image.at(x, y) == if wins(before, candidate, decision, x, y) {
        candidate.image.at(a, b)
    } else {
        before.image.at(x, y)
    }
    &&& after.mask.at(x, y) == if reaches(before, candidate, x, y) && candidate.mask.at(a, b) > 0 {
        255
    } else {
        before.mask.at(x, y)
    }
    &&& after.foreground.at(x, y) == if reaches(before, candidate, x, y) && takes_candidate(
        after.mask.at(x, y),
        candidate.foreground_mask.at(a, b),
        decision.at(a, b),
    ) {
        255
    } else {
        before.foreground.at(x, y)
    }
    &&& after.owner.at(x, y) == if is_decided(before, candidate, decision, x, y) {
        number
    } else {
        before.owner.at(x, y)
    }
}

/// Commits a layer to the canvas: foreground that is owned is protected, every pixel goes
/// to the source that owns it, and foreground and owners are noted. Returns the decision
/// as it was settled.
pub fn commit_focus_layer<P: Copy>(
    canvas: &mut FocusCanvas<P>,
    candidate: &RenderedFocusLayer<P>,
    decision: Raster<u8>,
    radius: usize,
    index: usize,
) -> (settled: Raster<u8>)
    requires
        old(canvas).well_formed(),
        candidate.well_formed(),
        decision.well_formed(),
        decision.same_size(&candidate.image),
        radius <= 0x3fff_ffff,
        index > 0,
    ensures
        final(canvas).well_formed(),
        final(canvas).image.same_size(&old(canvas).image),
        settled.well_formed(),
        settled.same_size(&candidate.image),
        forall|x: int, y: int|
            0 <= x < candidate.image.width && 0 <= y < candidate.image.height
                ==> #[trigger] settled.at(x, y) == settled_decision(
                &old(canvas).foreground,
                candidate,
                decision.at(x, y),
                radius,
                x,
                y,
            ),
        commits(
            old(canvas),
            final(canvas),
            candidate,
            &settled,
            (if index + 2 > 255 {
                255
            } else {
                index + 2
            }) as u8,
        ),
{
    let ghost before = *canvas;
    let mut settled: Raster<u8> = decision;
    suppress_focus_foreground_switches(&mut settled, &canvas.foreground, candidate, radius);
    let ghost halfway = settled;
    suppress_focus_foreground_ownership_switches(
        &mut settled,
        &canvas.foreground,
        &candidate.mask,
        candidate.left,
        candidate.top,
        &candidate.relaxed_foreground_mask,
        radius,
    );
    proof {
        assert forall|x: int, y: int|
            0 <= x < candidate.image.width && 0 <= y < candidate.image.height implies #[trigger] settled.at(
        x, y) == settled_decision(
            &before.foreground,
            candidate,
            decision.at(x, y),
            radius,
            x,
            y,
        ) by {
            assert(halfway.at(x, y) == halfway.at(x, y));
        }
    }
    hard_select_focus_layer(&mut canvas.image, &mut canvas.mask, candidate, &settled);
    mark_focus_foreground_pixels(&mut canvas.foreground, &canvas.mask, candidate, &settled);
    mark_focus_owner_pixels(&mut canvas.owner, candidate, &settled, owner_number(index));
    proof {
        assert forall|x: int, y: int| #[trigger] before.holds(x, y) implies is_committed(
            &before,
            canvas,
            candidate,
            &settled,
            (if index + 2 > 255 {
                255
            } else {
                index + 2
            }) as u8,
            x,
            y,
        ) by {
            assert(canvas.image.at(x, y) == canvas.image.at(x, y));
            assert(canvas.mask.at(x, y) == canvas.mask.at(x, y));
            assert(canvas.foreground.at(x, y) == canvas.foreground.at(x, y));
            assert(canvas.owner.at(x, y) == canvas.owner.at(x, y));
        }
    }
    settled
}

/// The canvas came from another by a commit of this layer.
pub open spec fn commits<P>(
    before: &FocusCanvas<P>,
    after: &FocusCanvas<P>,
    candidate: &RenderedFocusLayer<P>,
    settled: &Raster<u8>,
    number: u8,
) -> bool {
    &&& after.well_formed()
    &&& after.image.same_size(&before.image)
    &&& forall|x: int, y: int| #[trigger]
        before.holds(x, y) ==> is_committed(before, after, candidate, settled, number, x, y)
}

/// The canvas came from another by a commit of some layer.
pub open spec fn is_commit<P>(before: &FocusCanvas<P>, after: &FocusCanvas<P>) -> bool {
    exists|candidate: RenderedFocusLayer<P>, settled: Raster<u8>, number: u8| #[trigger]
        commits(before, after, &candidate, &settled, number)
}

/// A canvas of a given size that holds nothing but a first layer, which owns what it covers.
pub open spec fn is_started<P>(
    canvas: &FocusCanvas<P>,
    width: u32,
    height: u32,
    blank: P,
    first: &RenderedFocusLayer<P>,
) -> bool {
    &&& canvas.well_formed()
    &&& canvas.image.width == width
    &&& canvas.image.height == height
    &&& forall|x: int, y: int| #[trigger]
        canvas.holds(x, y) ==> {
            let (a, b) = (x - first.left, y - first.top);
            let placed = reaches(canvas, first, x, y);
            &&& canvas.image.at(x, y) == if placed {
                first.image.at(a, b)
            } else {
                blank
            }
            &&& canvas.mask.at(x, y) == if placed {
                first.mask.at(a, b)
            } else {
                0
            }
            &&& canvas.foreground.at(x, y) == if placed {
                first.foreground_mask.at(a, b)
            } else {
                0
            }
            &&& canvas.owner.at(x, y) == if canvas.mask.at(x, y) > 0 {
                1
            } else {
                0u8
            }
        }
}

/// Starts a canvas with its first layer. A layer that does not fit is left out.
pub fn start_focus_canvas<P: Copy>(
    width: u32,
    height: u32,
    blank: P,
    first: &RenderedFocusLayer<P>,
) -> (canvas: FocusCanvas<P>)
    requires
        width * height <= usize::MAX,
        first.well_formed(),
    ensures
        is_started(&canvas, width, height, blank, first),
{
    let mut image: Raster<P> = Raster::filled(width, height, blank);
    let mut mask: Raster<u8> = Raster::filled(width, height, 0u8);
    let mut foreground: Raster<u8> = Raster::filled(width, height, 0u8);
    let ghost (w, h) = (width as int, height as int);
    let ghost (empty, clear, open) = (image, mask, foreground);
    place_focus_layer(&mut image, &mut mask, first);
    place_focus_foreground_mask(&mut foreground, first);
    let owner: Raster<u8> = first_owners(&mask);
    let canvas: FocusCanvas<P> = FocusCanvas { image, mask, foreground, owner };
    proof {
        assert forall|x: int, y: int| #[trigger] canvas.holds(x, y) implies {
            let (a, b) = (x - first.left, y - first.top);
            let placed = reaches(&canvas, first, x, y);
            &&& canvas.image.at(x, y) == if placed {
                first.image.at(a, b)
            } else {
                blank
            }
            &&& canvas.mask.at(x, y) == if placed {
                first.mask.at(a, b)
            } else {
                0
            }
            &&& canvas.foreground.at(x, y) == if placed {
                first.foreground_mask.at(a, b)
            } else {
                0
            }
            &&& canvas.owner.at(x, y) == if canvas.mask.at(x, y) > 0 {
                1
            } else {
                0u8
            }
        } by {
            lemma_cell(w, h, x, y);
            let i = cell(w, x, y);
            assert(empty.at(x, y) == empty.pixels@[i]);
            assert(clear.at(x, y) == clear.pixels@[i]);
            assert(open.at(x, y) == open.pixels@[i]);
            assert(canvas.owner.at(x, y) == canvas.owner.pixels@[i]);
            assert(canvas.mask.at(x, y) == canvas.mask.pixels@[i]);
            assert(canvas.image.at(x, y) == image.at(x, y));
            assert(canvas.foreground.at(x, y) == foreground.at(x, y));
        }
    }
    canvas
}

/// A stack of one capture position is focus-stacked however its frames are shifted. Its canvas
/// keeps the size that it was started with, whatever layers are committed, and what the first
/// layer covers stays covered.
pub proof fn law_one_position_keeps_the_canvas<P>(
    image_count: usize,
    groups: Seq<u8>,
    frames_are_shifted: bool,
    width: u32,
    height: u32,
    blank: P,
    first: RenderedFocusLayer<P>,
    canvases: Seq<FocusCanvas<P>>,
)
    requires
        image_count > 0,
        group_count(groups) <= 1,
        canvases.len() > 0,
        is_started(&canvases[0], width, height, blank, &first),
        forall|i: int|
            #![trigger canvases[i]]
            0 < i < canvases.len() ==> is_commit(&canvases[i - 1], &canvases[i]),
    ensures
        route_for(image_count, false, groups, frames_are_shifted) == StackRoute::Focus,
        canvases.last().image.width == width,
        canvases.last().image.height == height,
        forall|x: int, y: int| #[trigger]
            canvases[0].holds(x, y) && canvases[0].mask.at(x, y) > 0 ==> canvases.last().mask.at(
                x,
                y,
            ) > 0,
    decreases canvases.len(),
{
    if canvases.len() > 1 {
        let earlier = canvases.drop_last();
        assert forall|i: int|
            #![trigger earlier[i]]
            0 < i < earlier.len() implies is_commit(&earlier[i - 1], &earlier[i]) by {
            assert(is_commit(&canvases[i - 1], &canvases[i]));
        }
        law_one_position_keeps_the_canvas(
            image_count,
            groups,
            frames_are_shifted,
            width,
            height,
            blank,
            first,
            earlier,
        );
        let (before, after) = (canvases[canvases.len() - 2], canvases[canvases.len() - 1]);
        assert(is_commit(&before, &after));
        let (candidate, settled, number) = choose|
            candidate: RenderedFocusLayer<P>,
            settled: Raster<u8>,
            number: u8,
        | #[trigger] commits(&before, &after, &candidate, &settled, number);
        assert forall|x: int, y: int| #[trigger]
            canvases[0].holds(x, y) && canvases[0].mask.at(x, y) > 0 implies after.mask.at(x, y)
            > 0 by {
            assert(before.holds(x, y));
            assert(is_committed(&before, &after, &candidate, &settled, number, x, y));
        }
    }
}

/// A committed pixel is one that was there or one of the layer: pixels are never
/// averaged.
pub proof fn law_pixels_are_never_averaged<P>(
    before: &FocusCanvas<P>,
    after: &FocusCanvas<P>,
    candidate: &RenderedFocusLayer<P>,
    decision: &Raster<u8>,
    number: u8,
    x: int,
    y: int,
)
    requires
        is_committed(before, after, candidate, decision, number, x, y),
    ensures
        after.image.at(x, y) == before.image.at(x, y) || after.image.at(x, y)
            == candidate.image.at(x - candidate.left, y - candidate.top),
{
}

/// What is covered stays covered.
pub proof fn law_coverage_only_grows<P>(
    before: &FocusCanvas<P>,
    after: &FocusCanvas<P>,
    candidate: &RenderedFocusLayer<P>,
    decision: &Raster<u8>,
    number: u8,
    x: int,
    y: int,
)
    requires
        is_committed(before, after, candidate, decision, number, x, y),
        before.mask.at(x, y) > 0,
    ensures
        after.mask.at(x, y) > 0,
{
}

/// Foreground that is owned keeps its pixels: a layer replaces it neither by foreground of
/// its own nor by anything else, unless the layer shows the same relaxed edge there.
pub proof fn law_owned_foreground_is_kept<P>(
    before: &FocusCanvas<P>,
    after: &FocusCanvas<P>,
    candidate: &RenderedFocusLayer<P>,
    decision: &Raster<u8>,
    settled: &Raster<u8>,
    radius: usize,
    number: u8,
    x: int,
    y: int,
)
    requires
        before.holds(x, y),
        before.foreground.same_size(&before.image),
        is_committed(before, after, candidate, settled, number, x, y),
        candidate.covers(x, y) ==> settled.at(x - candidate.left, y - candidate.top)
            == settled_decision(
            &before.foreground,
            candidate,
            decision.at(x - candidate.left, y - candidate.top),
            radius,
            x - candidate.left,
            y - candidate.top,
        ),
        before.foreground.at(x, y) > 0,
        before.mask.at(x, y) > 0,
        candidate.covers(x, y) ==> candidate.relaxed_foreground_mask.at(
            x - candidate.left,
            y - candidate.top,
        ) == 0,
    ensures
        after.image.at(x, y) == before.image.at(x, y),
{
    if reaches(before, candidate, x, y) {
        let a = x - candidate.left;
        let b = y - candidate.top;
        assert(before.foreground.at(candidate.left + a, candidate.top + b) > 0);
        assert(is_guarded(
            &before.foreground,
            candidate.left,
            candidate.top,
            candidate.image.width,
            candidate.image.height,
            radius,
            a,
            b,
        ));
    }
}

/// Which source is clearly sharper in a pixel.
#[derive(Debug, Clone, Copy, PartialEq, Eq, Structural)]
pub enum Lead {
    Base,
    Candidate,
    Neither,
}

/// The pixels where both sources are valid and one clearly leads.
pub open spec fn claims(
    leads: Seq<Lead>,
    base_valid: Seq<u8>,
    candidate_valid: Seq<u8>,
    leader: Lead,
) -> Seq<u8> {
    Seq::new(
        leads.len(),
        |i: int| flag(base_valid[i] > 0 && candidate_valid[i] > 0 && leads[i] == leader),
    )
}

/// More than 8 percent of a window are claimed.
pub open spec fn is_strong(count: int, radius: int) -> bool {
    count * 100 > 8 * ((2 * radius + 1) * (2 * radius + 1))
}

/// The candidate wins a pixel: it is valid, and the base is not, or clear structure nearby
/// is mostly the candidate's, or, where none is, the candidate is ahead.
pub open spec fn candidate_wins(
    base_valid: bool,
    candidate_valid: bool,
    base_claim: int,
    candidate_claim: int,
    radius: int,
    ahead: bool,
) -> bool {
    candidate_valid && (!base_valid || (if is_strong(candidate_claim, radius) && candidate_claim
        > base_claim {
        true
    } else if is_strong(base_claim, radius) && base_claim > candidate_claim {
        false
    } else {
        ahead
    }))
}

fn claim_mask(
    leads: &Vec<Lead>,
    base_mask: &Raster<u8>,
    candidate_mask: &Raster<u8>,
    leader: Lead,
) -> (mask: Vec<u8>)
    requires
        base_mask.pixels@.len() == leads@.len(),
        candidate_mask.pixels@.len() == leads@.len(),
    ensures
        mask@ == claims(leads@, base_mask.pixels@, candidate_mask.pixels@, leader),
{
    let mask: Vec<u8> = tabulate(
        leads.len(),
        |i: usize| -> (set: u8)
            requires
                i < leads@.len(),
                base_mask.pixels@.len() == leads@.len(),
                candidate_mask.pixels@.len() == leads@.len(),
            ensures
                set == flag(
                    base_mask.pixels@[i as int] > 0 && candidate_mask.pixels@[i as int] > 0
                        && leads@[i as int] == leader,
                )
            {
                if base_mask.pixels[i] > 0 && candidate_mask.pixels[i] > 0 && leads[i] == leader {
                    255
                } else {
                    0
                }
            },
    );
    assert(mask@ =~= claims(leads@, base_mask.pixels@, candidate_mask.pixels@, leader));
    mask
}

/// The mask decides every pixel by the claims around it.
pub open spec fn is_focus_decision(
    decision: &Raster<u8>,
    leads: Seq<Lead>,
    ahead: Seq<bool>,
    base_mask: &Raster<u8>,
    candidate_mask: &Raster<u8>,
    radius: int,
) -> bool {
    &&& decision.well_formed()
    &&& decision.same_size(base_mask)
    &&& forall|x: int, y: int|
        0 <= x < base_mask.width && 0 <= y < base_mask.height ==> #[trigger] decision.at(x, y)
            == flag(
            candidate_wins(
                base_mask.at(x, y) > 0,
                candidate_mask.at(x, y) > 0,
                box_count(
                    claims(leads, base_mask.pixels@, candidate_mask.pixels@, Lead::Base),
                    base_mask.width as int,
                    base_mask.height as int,
                    x,
                    y,
                    radius,
                ),
                box_count(
                    claims(leads, base_mask.pixels@, candidate_mask.pixels@, Lead::Candidate),
                    base_mask.width as int,
                    base_mask.height as int,
                    x,
                    y,
                    radius,
                ),
                radius,
                ahead[cell(base_mask.width as int, x, y)],
            ),
        )
}

/// Decides for every pixel which source is in focus. `leads` says where one of the two is
/// clearly sharper, `ahead` where the candidate is the sharper one in its neighbourhood.
/// Clear structure also claims the ambiguous pixels around it, so that the halo of a
/// defocused subject does not win beside it.
pub fn focus_decision_mask(
    leads: &Vec<Lead>,
    ahead: &Vec<bool>,
    base_mask: &Raster<u8>,
    candidate_mask: &Raster<u8>,
    protection_radius: usize,
) -> (decision: Raster<u8>)
    requires
        base_mask.well_formed(),
        candidate_mask.well_formed(),
        candidate_mask.same_size(base_mask),
        leads@.len() == base_mask.pixels@.len(),
        ahead@.len() == base_mask.pixels@.len(),
        protection_radius <= 6,
    ensures
        is_focus_decision(
            &decision,
            leads@,
            ahead@,
            base_mask,
            candidate_mask,
            protection_radius as int,
        ),
{
    let width: u32 = base_mask.width;
    let height: u32 = base_mask.height;
    let size: usize = leads.len();
    if width == 0 || height == 0 {
        return blank_mask(width, height);
    }
    let base_claims: Vec<u8> = claim_mask(leads, base_mask, candidate_mask, Lead::Base);
    let candidate_claims: Vec<u8> = claim_mask(leads, base_mask, candidate_mask, Lead::Candidate);
    let base_counts: Vec<u64> = box_counts(
        &base_claims,
        width as usize,
        height as usize,
        protection_radius,
    );
    let candidate_counts: Vec<u64> = box_counts(
        &candidate_claims,
        width as usize,
        height as usize,
        protection_radius,
    );
    let window: u64 = 2 * (protection_radius as u64) + 1;
    assert(window * window <= 13 * 13) by (nonlinear_arith)
        requires
            0 <= window <= 13,
    ;
    let threshold: u64 = window * window * 8;
    let pixels: Vec<u8> = tabulate(
        size,
        |i: usize| -> (set: u8)
            requires
                i < size,
                base_mask.pixels@.len() == size,
                candidate_mask.pixels@.len() == size,
                base_counts@.len() == size,
                candidate_counts@.len() == size,
                ahead@.len() == size,
                protection_radius <= 6,
                threshold == 8 * ((2 * protection_radius + 1) * (2 * protection_radius + 1)),
            ensures
                set == flag(
                    candidate_wins(
                        base_mask.pixels@[i as int] > 0,
                        candidate_mask.pixels@[i as int] > 0,
                        base_counts@[i as int] as int,
                        candidate_counts@[i as int] as int,
                        protection_radius as int,
                        ahead@[i as int],
                    ),
                )
            {
                let base_claim: u128 = base_counts[i] as u128;
                let candidate_claim: u128 = candidate_counts[i] as u128;
                let wins: bool = if base_mask.pixels[i] == 0 {
                    true
                } else if candidate_claim * 100 > threshold as u128 && candidate_claim > base_claim {
                    true
                } else if base_claim * 100 > threshold as u128 && base_claim > candidate_claim {
                    false
                } else {
                    ahead[i]
                };
                if candidate_mask.pixels[i] > 0 && wins {
                    255
                } else {
                    0
                }
            },
    );
    let decision: Raster<u8> = Raster { width, height, pixels };
    proof {
        let (w, h) = (width as int, height as int);
        assert forall|x: int, y: int| 0 <= x < w && 0 <= y < h implies #[trigger] decision.at(x, y)
            == flag(
            candidate_wins(
                base_mask.at(x, y) > 0,
                candidate_mask.at(x, y) > 0,
                box_count(base_claims@, w, h, x, y, protection_radius as int),
                box_count(candidate_claims@, w, h, x, y, protection_radius as int),
                protection_radius as int,
                ahead@[cell(w, x, y)],
            ),
        ) by {
            lemma_cell(w, h, x, y);
            assert(base_counts@[cell(w, x, y)] == box_count(
                base_claims@,
                w,
                h,
                x,
                y,
                protection_radius as int,
            ));
            assert(candidate_counts@[cell(w, x, y)] == box_count(
                candidate_claims@,
                w,
                h,
                x,
                y,
                protection_radius as int,
            ));
        }
    }
    decision
}

/// A source that is not valid never wins, and one that alone is valid always does.
pub proof fn law_only_valid_sources_win(
    base_valid: bool,
    candidate_valid: bool,
    base_claim: int,
    candidate_claim: int,
    radius: int,
    ahead: bool,
)
    ensures
        !candidate_valid ==> !candidate_wins(
            base_valid,
            candidate_valid,
            base_claim,
            candidate_claim,
            radius,
            ahead,
        ),
        candidate_valid && !base_valid ==> candidate_wins(
            base_valid,
            candidate_valid,
            base_claim,
            candidate_claim,
            radius,
            ahead,
        ),
{
}

/// Structure protects the base as it protects the candidate: where both are valid and the
/// claims decide, swapping the two sources swaps the decision.
pub proof fn law_structure_protects_both_sides(
    base_claim: int,
    candidate_claim: int,
    radius: int,
    ahead: bool,
    other_ahead: bool,
)
    requires
        is_strong(base_claim, radius) || is_strong(candidate_claim, radius),
        base_claim != candidate_claim,
    ensures
        candidate_wins(true, true, base_claim, candidate_claim, radius, ahead) == !candidate_wins(
            true,
            true,
            candidate_claim,
            base_claim,
            radius,
            other_ahead,
        ),
{
}

/// Claims that fill more than 8 percent of the window and exceed those of the other side
/// decide for their own side; where neither side has such claims, the candidate wins exactly
/// where it is ahead.
pub proof fn law_claims_decide_or_the_sharper_wins(
    base_claim: int,
    candidate_claim: int,
    radius: int,
    ahead: bool,
)
    ensures
        candidate_claim > base_claim && 100 * candidate_claim > 8 * ((2 * radius + 1) * (2 * radius
            + 1)) ==> candidate_wins(true, true, base_claim, candidate_claim, radius, ahead),
        base_claim > candidate_claim && 100 * base_claim > 8 * ((2 * radius + 1) * (2 * radius
            + 1)) ==> !candidate_wins(true, true, base_claim, candidate_claim, radius, ahead),
        !(candidate_claim > base_claim && 100 * candidate_claim > 8 * ((2 * radius + 1) * (2
            * radius + 1))) && !(base_claim > candidate_claim && 100 * base_claim > 8 * ((2 * radius
            + 1) * (2 * radius + 1))) ==> candidate_wins(
            true,
            true,
            base_claim,
            candidate_claim,
            radius,
            ahead,
        ) == ahead,
{
}

/// Where both sources are valid and no pixel within the radius is clearly sharper in either,
/// the candidate is taken exactly where it is ahead.
pub proof fn law_quiet_places_take_the_sharper_source(
    decision: &Raster<u8>,
    leads: Seq<Lead>,
    ahead: Seq<bool>,
    base_mask: &Raster<u8>,
    candidate_mask: &Raster<u8>,
    radius: int,
    x: int,
    y: int,
)
    requires
        is_focus_decision(decision, leads, ahead, base_mask, candidate_mask, radius),
        base_mask.well_formed(),
        candidate_mask.same_size(base_mask),
        leads.len() == base_mask.pixels@.len(),
        0 <= radius,
        0 <= x < base_mask.width,
        0 <= y < base_mask.height,
        base_mask.at(x, y) > 0,
        candidate_mask.at(x, y) > 0,
        forall|a: int, b: int|
            #![trigger cell(base_mask.width as int, a, b)]
            0 <= a < base_mask.width && 0 <= b < base_mask.height && x - radius <= a <= x + radius
                && y - radius <= b <= y + radius ==> leads[cell(base_mask.width as int, a, b)]
                == Lead::Neither || base_mask.at(a, b) == 0 || candidate_mask.at(a, b) == 0,
    ensures
        ahead[cell(base_mask.width as int, x, y)] ==> decision.at(x, y) == 255,
        !ahead[cell(base_mask.width as int, x, y)] ==> decision.at(x, y) == 0,
{
    let (w, h) = (base_mask.width as int, base_mask.height as int);
    assert forall|leader: Lead| leader != Lead::Neither implies box_count(
        #[trigger] claims(leads, base_mask.pixels@, candidate_mask.pixels@, leader),
        w,
        h,
        x,
        y,
        radius,
    ) == 0 by {
        let mask = claims(leads, base_mask.pixels@, candidate_mask.pixels@, leader);
        assert forall|a: int, b: int|
            #![trigger cell(w, a, b)]
            0 <= a < w && 0 <= b < h && x - radius <= a <= x + radius && y - radius <= b <= y
                + radius implies (mask[cell(w, a, b)] > 0) == false by {
            lemma_cell(w, h, a, b);
        }
        law_even_windows(mask, w, h, x, y, radius, false);
    }
    assert(Lead::Base != Lead::Neither && Lead::Candidate != Lead::Neither);
    assert(decision.at(x, y) == decision.at(x, y));
}

/// Where all pixels within the radius are clearly sharper in one source, and valid in both,
/// that source is taken, whichever is ahead.
pub proof fn law_clear_structure_takes_its_own_source(
    decision: &Raster<u8>,
    leads: Seq<Lead>,
    ahead: Seq<bool>,
    base_mask: &Raster<u8>,
    candidate_mask: &Raster<u8>,
    radius: int,
    leader: Lead,
    x: int,
    y: int,
)
    requires
        is_focus_decision(decision, leads, ahead, base_mask, candidate_mask, radius),
        base_mask.well_formed(),
        candidate_mask.same_size(base_mask),
        leads.len() == base_mask.pixels@.len(),
        0 <= radius,
        0 <= x < base_mask.width,
        0 <= y < base_mask.height,
        leader != Lead::Neither,
        forall|a: int, b: int|
            #![trigger cell(base_mask.width as int, a, b)]
            0 <= a < base_mask.width && 0 <= b < base_mask.height && x - radius <= a <= x + radius
                && y - radius <= b <= y + radius ==> leads[cell(base_mask.width as int, a, b)]
                == leader && base_mask.at(a, b) > 0 && candidate_mask.at(a, b) > 0,
    ensures
        leader == Lead::Candidate ==> decision.at(x, y) == 255,
        leader == Lead::Base ==> decision.at(x, y) == 0,
{
    let (w, h) = (base_mask.width as int, base_mask.height as int);
    assert forall|side: Lead| side != Lead::Neither implies box_count(
        #[trigger] claims(leads, base_mask.pixels@, candidate_mask.pixels@, side),
        w,
        h,
        x,
        y,
        radius,
    ) == if side == leader {
        (2 * radius + 1) * (2 * radius + 1)
    } else {
        0
    } by {
        let mask = claims(leads, base_mask.pixels@, candidate_mask.pixels@, side);
        assert forall|a: int, b: int|
            #![trigger cell(w, a, b)]
            0 <= a < w && 0 <= b < h && x - radius <= a <= x + radius && y - radius <= b <= y
                + radius implies (mask[cell(w, a, b)] > 0) == (side == leader) by {
            lemma_cell(w, h, a, b);
        }
        law_even_windows(mask, w, h, x, y, radius, side == leader);
    }
    assert((2 * radius + 1) * (2 * radius + 1) > 0) by (nonlinear_arith)
        requires
            radius >= 0,
    ;
    assert(cell(w, x, y) == cell(w, x, y));
    assert(Lead::Base != Lead::Neither && Lead::Candidate != Lead::Neither);
    assert(decision.at(x, y) == decision.at(x, y));
}

/// The decision does not depend on which source is called the base: with the leads exchanged
/// and `ahead` turned round, the other source is taken wherever both are valid.
pub proof fn law_focus_decisions_are_fair(
    decision: &Raster<u8>,
    leads: Seq<Lead>,
    ahead: Seq<bool>,
    exchanged: &Raster<u8>,
    other_leads: Seq<Lead>,
    other_ahead: Seq<bool>,
    base_mask: &Raster<u8>,
    candidate_mask: &Raster<u8>,
    radius: int,
    x: int,
    y: int,
)
    requires
        is_focus_decision(decision, leads, ahead, base_mask, candidate_mask, radius),
        is_focus_decision(
            exchanged,
            other_leads,
            other_ahead,
            candidate_mask,
            base_mask,
            radius,
        ),
        base_mask.well_formed(),
        candidate_mask.well_formed(),
        candidate_mask.same_size(base_mask),
        leads.len() == base_mask.pixels@.len(),
        other_leads.len() == leads.len(),
        forall|i: int|
            0 <= i < leads.len() ==> {
                &&& leads[i] == Lead::Base <==> #[trigger] other_leads[i] == Lead::Candidate
                &&& leads[i] == Lead::Candidate <==> other_leads[i] == Lead::Base
            },
        0 <= x < base_mask.width,
        0 <= y < base_mask.height,
        base_mask.at(x, y) > 0,
        candidate_mask.at(x, y) > 0,
        ahead[cell(base_mask.width as int, x, y)] != other_ahead[cell(
            base_mask.width as int,
            x,
            y,
        )],
    ensures
        decision.at(x, y) == 255 <==> exchanged.at(x, y) == 0,
{
    let (base, candidate) = (base_mask.pixels@, candidate_mask.pixels@);
    assert(claims(leads, base, candidate, Lead::Base) =~= claims(
        other_leads,
        candidate,
        base,
        Lead::Candidate,
    ));
    assert(claims(leads, base, candidate, Lead::Candidate) =~= claims(
        other_leads,
        candidate,
        base,
        Lead::Base,
    ));
    assert(decision.at(x, y) == decision.at(x, y));
    assert(exchanged.at(x, y) == exchanged.at(x, y));
}

/// The pixels whose focus scores set the level of confidence: one of every 4096th part of
/// the image, if a source is valid there.
pub fn confidence_samples(base_mask: &Raster<u8>, candidate_mask: &Raster<u8>) -> (list: Vec<usize>)
    requires
        base_mask.well_formed(),
        candidate_mask.well_formed(),
        candidate_mask.same_size(base_mask),
    ensures
        forall|k: int|
            0 <= k < list@.len() ==> is_confidence_sample(
                base_mask.pixels@,
                candidate_mask.pixels@,
                #[trigger] list@[k] as int,
            ),
        forall|j: int, k: int| 0 <= j < k < list@.len() ==> #[trigger] list@[j] < #[trigger] list@[k],
        forall|i: int| #[trigger]
            is_confidence_sample(base_mask.pixels@, candidate_mask.pixels@, i) ==> list@.contains(
                i as usize,
            ),
{
    let size: usize = base_mask.pixels.len();
    let step: usize = if size / 4096 == 0 {
        1
    } else {
        size / 4096
    };
    let mut list: Vec<usize> = Vec::new();
    let mut i: usize = 0;
    while i < size
        invariant
            i <= size,
            size == base_mask.pixels@.len(),
            size == candidate_mask.pixels@.len(),
            step == sample_distance(size as int),
            forall|k: int|
                0 <= k < list@.len() ==> is_confidence_sample(
                    base_mask.pixels@,
                    candidate_mask.pixels@,
                    #[trigger] list@[k] as int,
                ) && list@[k] < i,
            forall|j: int, k: int|
                0 <= j < k < list@.len() ==> #[trigger] list@[j] < #[trigger] list@[k],
            forall|j: int| #[trigger]
                is_confidence_sample(base_mask.pixels@, candidate_mask.pixels@, j) && j < i
                    ==> list@.contains(j as usize),
        decreases size - i,
    {
        let ghost before = list@;
        if i % step == 0 && (base_mask.pixels[i] > 0 || candidate_mask.pixels[i] > 0) {
            list.push(i);
        }
        proof {
            assert forall|j: int| #[trigger]
                is_confidence_sample(base_mask.pixels@, candidate_mask.pixels@, j) && j < i
                    + 1 implies list@.contains(j as usize) by {
                if j < i {
                    let k = choose|k: int| 0 <= k < before.len() && before[k] == j as usize;
                    assert(list@[k] == j as usize);
                } else {
                    assert(list@[before.len() as int] == j as usize);
                }
            }
        }
        i += 1;
    }
    list
}

/// The distance between the samples of an image of this many pixels.
pub open spec fn sample_distance(size: int) -> int {
    if size / 4096 == 0 {
        1
    } else {
        size / 4096
    }
}

/// The pixel takes part in the level of confidence.
pub open spec fn is_confidence_sample(base_valid: Seq<u8>, candidate_valid: Seq<u8>, i: int) -> bool {
    &&& 0 <= i < base_valid.len()
    &&& i % sample_distance(base_valid.len() as int) == 0
    &&& base_valid[i] > 0 || candidate_valid[i] > 0
}

/// The first analysis pixel of a layer along one direction.
pub open spec fn analysis_start(start: u32, canvas: u32, analysis: u32) -> int {
    let scaled = ((start * analysis) / divisor(canvas)) % 0x1_0000_0000;
    if scaled < analysis {
        scaled
    } else {
        analysis as int
    }
}

/// The analysis pixel behind the last of a layer along one direction.
pub open spec fn analysis_end(start: u32, length: u32, canvas: u32, analysis: u32) -> int {
    let scaled = ((saturated(start as int, length as int) * analysis + divisor(canvas) - 1)
        / divisor(canvas)) % 0x1_0000_0000;
    if scaled < analysis {
        scaled
    } else {
        analysis as int
    }
}

fn scaled_start(start: u32, canvas: u32, analysis: u32) -> (position: u32)
    ensures
        position == analysis_start(start, canvas, analysis),
{
    let scaled: u32 = scaled_region_start(start, canvas, analysis);
    if scaled < analysis {
        scaled
    } else {
        analysis
    }
}

fn scaled_end(start: u32, length: u32, canvas: u32, analysis: u32) -> (position: u32)
    ensures
        position == analysis_end(start, length, canvas, analysis),
{
    let scaled: u32 = scaled_region_end(start.saturating_add(length), canvas, analysis);
    if scaled < analysis {
        scaled
    } else {
        analysis
    }
}

/// The layer shows up on the analysis canvas.
pub open spec fn has_analysis_region<P>(
    layer: &RenderedFocusLayer<P>,
    out_width: u32,
    out_height: u32,
    analysis_width: u32,
    analysis_height: u32,
) -> bool {
    &&& layer.image.width > 0
    &&& layer.image.height > 0
    &&& out_width > 0
    &&& out_height > 0
    &&& analysis_start(layer.left, out_width, analysis_width) < analysis_end(
        layer.left,
        layer.image.width,
        out_width,
        analysis_width,
    )
    &&& analysis_start(layer.top, out_height, analysis_height) < analysis_end(
        layer.top,
        layer.image.height,
        out_height,
        analysis_height,
    )
}

/// The part of the analysis canvas that shows a layer.
pub fn analysis_region<P: Copy>(
    layer: &RenderedFocusLayer<P>,
    out_width: u32,
    out_height: u32,
    analysis_width: u32,
    analysis_height: u32,
) -> (region: Option<Bounds>)
    ensures
        region is Some <==> has_analysis_region(
            layer,
            out_width,
            out_height,
            analysis_width,
            analysis_height,
        ),
        region matches Some(bounds) ==> {
            &&& bounds.left == analysis_start(layer.left, out_width, analysis_width)
            &&& bounds.right + 1 == analysis_end(
                layer.left,
                layer.image.width,
                out_width,
                analysis_width,
            )
            &&& bounds.top == analysis_start(layer.top, out_height, analysis_height)
            &&& bounds.bottom + 1 == analysis_end(
                layer.top,
                layer.image.height,
                out_height,
                analysis_height,
            )
            &&& bounds.inside(analysis_width as int, analysis_height as int)
        },
{
    if layer.image.width == 0 || layer.image.height == 0 || out_width == 0 || out_height == 0 {
        return None;
    }
    let left: u32 = scaled_start(layer.left, out_width, analysis_width);
    let right: u32 = scaled_end(layer.left, layer.image.width, out_width, analysis_width);
    let top: u32 = scaled_start(layer.top, out_height, analysis_height);
    let bottom: u32 = scaled_end(layer.top, layer.image.height, out_height, analysis_height);
    if left >= right || top >= bottom {
        None
    } else {
        Some(Bounds { left, right: right - 1, top, bottom: bottom - 1 })
    }
}

/// A layer on the analysis canvas.
pub struct RenderedFocusAnalysisLayer<P> {
    pub image: Raster<P>,
    pub mask: Raster<u8>,
    pub foreground_mask: Raster<u8>,
    pub relaxed_foreground_mask: Raster<u8>,
}

impl<P> RenderedFocusAnalysisLayer<P> {
    /// The masks are masks of this size.
    pub open spec fn has_masks_of(&self, size: &Raster<u8>) -> bool {
        &&& self.mask.well_formed()
        &&& self.foreground_mask.well_formed()
        &&& self.relaxed_foreground_mask.well_formed()
        &&& self.mask.same_size(size)
        &&& self.foreground_mask.same_size(size)
        &&& self.relaxed_foreground_mask.same_size(size)
    }
}

/// The decision for a pixel of the analysis canvas after the guards: foreground that is owned
/// is replaced neither by other foreground nor by anything else, and where both sources are
/// valid and show plain canvas, the source stays.
pub open spec fn guarded_analysis_decision<P>(
    decision: u8,
    foreground: &Raster<u8>,
    base_mask: &Raster<u8>,
    base_canvas: &Raster<bool>,
    layer: &RenderedFocusAnalysisLayer<P>,
    layer_canvas: &Raster<bool>,
    radius: usize,
    x: int,
    y: int,
) -> u8 {
    let guarded = is_guarded(
        foreground,
        0,
        0,
        foreground.width,
        foreground.height,
        radius,
        x,
        y,
    );
    let relaxed = layer.relaxed_foreground_mask.at(x, y);
    if base_mask.at(x, y) > 0 && layer.mask.at(x, y) > 0 && base_canvas.at(x, y)
        && layer_canvas.at(x, y) {
        0
    } else {
        guarded_decision(
            guarded_decision(decision, layer.foreground_mask.at(x, y), relaxed, guarded),
            layer.mask.at(x, y),
            relaxed,
            guarded,
        )
    }
}

/// Takes back decisions on the analysis canvas that the canvas in full resolution would not
/// follow. `base_canvas` and `layer_canvas` say where the merged image and the layer show plain
/// canvas.
pub fn guard_analysis_decision<P>(
    decision: Raster<u8>,
    foreground: &Raster<u8>,
    base_mask: &Raster<u8>,
    base_canvas: &Raster<bool>,
    layer: &RenderedFocusAnalysisLayer<P>,
    layer_canvas: &Raster<bool>,
    radius: usize,
) -> (settled: Raster<u8>)
    requires
        decision.well_formed(),
        foreground.well_formed(),
        base_mask.well_formed(),
        base_canvas.well_formed(),
        layer_canvas.well_formed(),
        foreground.same_size(&decision),
        base_mask.same_size(&decision),
        base_canvas.same_size(&decision),
        layer_canvas.same_size(&decision),
        layer.has_masks_of(&decision),
        radius <= 0x3fff_ffff,
    ensures
        settled.well_formed(),
        settled.same_size(&decision),
        forall|x: int, y: int|
            0 <= x < decision.width && 0 <= y < decision.height ==> #[trigger] settled.at(x, y)
                == guarded_analysis_decision(
                decision.at(x, y),
                foreground,
                base_mask,
                base_canvas,
                layer,
                layer_canvas,
                radius,
                x,
                y,
            ),
{
    let mut settled: Raster<u8> = decision;
    suppress_focus_foreground_switches_on_canvas(
        &mut settled,
        foreground,
        &layer.foreground_mask,
        &layer.relaxed_foreground_mask,
        radius,
    );
    let ghost first = settled;
    suppress_focus_foreground_ownership_switches_on_canvas(
        &mut settled,
        foreground,
        &layer.mask,
        &layer.relaxed_foreground_mask,
        radius,
    );
    let ghost second = settled;
    suppress_focus_canvas_switches(&mut settled, base_canvas, layer_canvas, base_mask, &layer.mask);
    proof {
        assert forall|x: int, y: int|
            0 <= x < decision.width && 0 <= y < decision.height implies #[trigger] settled.at(x, y)
            == guarded_analysis_decision(
            decision.at(x, y),
            foreground,
            base_mask,
            base_canvas,
            layer,
            layer_canvas,
            radius,
            x,
            y,
        ) by {
            let (w, h) = (decision.width as int, decision.height as int);
            lemma_cell(w, h, x, y);
            let i = cell(w, x, y);
            assert(first.at(x, y) == first.at(x, y));
            assert(second.at(x, y) == second.pixels@[i]);
            assert(settled.at(x, y) == settled.pixels@[i]);
        }
    }
    settled
}

/// A mask shows a resampled mask in a region and is clear elsewhere.
pub open spec fn shows_resized(shown: &Raster<u8>, region: Bounds, source: &Raster<u8>) -> bool {
    forall|x: int, y: int|
        0 <= x < shown.width && 0 <= y < shown.height ==> #[trigger] shown.at(x, y)
            == if region.contains(x, y) {
            nearest_resized(
                source.pixels@,
                source.width,
                source.height,
                region.width() as u32,
                region.height() as u32,
            )[cell(region.width(), x - region.left, y - region.top)]
        } else {
            0
        }
}

/// Puts a mask at the resolution of the analysis into its region of the canvas.
fn place_resized(source: &Raster<u8>, region: Bounds, width: u32, height: u32) -> (placed: Raster<u8>)
    requires
        source.well_formed(),
        region.inside(width as int, height as int),
        width * height <= usize::MAX,
        can_resize(
            source.width,
            source.height,
            region.width() as u32,
            region.height() as u32,
        ),
    ensures
        placed.well_formed(),
        placed.width == width,
        placed.height == height,
        shows_resized(&placed, region, source),
{
    let part_width: u32 = region.right - region.left + 1;
    let part_height: u32 = region.bottom - region.top + 1;
    let resized: Raster<u8> = resize_binary_mask(source, part_width, part_height);
    let mut placed: Raster<u8> = blank_mask(width, height);
    let ghost blank = placed;
    copy_region(&mut placed, region.left, region.top, &resized);
    proof {
        assert forall|x: int, y: int|
            0 <= x < width && 0 <= y < height implies #[trigger] placed.at(x, y)
            == if region.contains(x, y) {
            nearest_resized(
                source.pixels@,
                source.width,
                source.height,
                region.width() as u32,
                region.height() as u32,
            )[cell(region.width(), x - region.left, y - region.top)]
        } else {
            0
        } by {
            lemma_cell(width as int, height as int, x, y);
            assert(blank.at(x, y) == 0);
        }
    }
    placed
}

/// A layer on the analysis canvas, given its pixels at the resolution of the analysis.
pub fn render_focus_analysis_layer<P: Copy>(
    layer: &RenderedFocusLayer<P>,
    region: Bounds,
    resized: &Raster<P>,
    blank: P,
    analysis_width: u32,
    analysis_height: u32,
) -> (analysis: RenderedFocusAnalysisLayer<P>)
    requires
        layer.well_formed(),
        region.inside(analysis_width as int, analysis_height as int),
        resized.well_formed(),
        resized.width == region.width(),
        resized.height == region.height(),
        analysis_width * analysis_height <= usize::MAX,
        can_resize(
            layer.image.width,
            layer.image.height,
            region.width() as u32,
            region.height() as u32,
        ),
    ensures
        analysis.image.well_formed(),
        analysis.mask.well_formed(),
        analysis.foreground_mask.well_formed(),
        analysis.relaxed_foreground_mask.well_formed(),
        analysis.image.width == analysis_width,
        analysis.image.height == analysis_height,
        analysis.mask.same_size(&analysis.image),
        analysis.foreground_mask.same_size(&analysis.image),
        analysis.relaxed_foreground_mask.same_size(&analysis.image),
        forall|x: int, y: int|
            0 <= x < analysis_width && 0 <= y < analysis_height ==> #[trigger] analysis.image.at(x, y)
                == if region.contains(x, y) {
                resized.at(x - region.left, y - region.top)
            } else {
                blank
            },
        shows_resized(&analysis.mask, region, &layer.mask),
        shows_resized(&analysis.foreground_mask, region, &layer.foreground_mask),
        shows_resized(&analysis.relaxed_foreground_mask, region, &layer.relaxed_foreground_mask),
{
    let mut image: Raster<P> = Raster::filled(analysis_width, analysis_height, blank);
    let ghost empty = image;
    copy_region(&mut image, region.left, region.top, resized);
    proof {
        assert forall|x: int, y: int|
            0 <= x < analysis_width && 0 <= y < analysis_height implies #[trigger] image.at(x, y)
            == if region.contains(x, y) {
            resized.at(x - region.left, y - region.top)
        } else {
            blank
        } by {
            lemma_cell(analysis_width as int, analysis_height as int, x, y);
            assert(empty.at(x, y) == blank);
        }
    }
    RenderedFocusAnalysisLayer {
        image,
        mask: place_resized(&layer.mask, region, analysis_width, analysis_height),
        foreground_mask: place_resized(
            &layer.foreground_mask,
            region,
            analysis_width,
            analysis_height,
        ),
        relaxed_foreground_mask: place_resized(
            &layer.relaxed_foreground_mask,
            region,
            analysis_width,
            analysis_height,
        ),
    }
}

/// Notes the scores of a layer in a region, where it is valid and was committed.
pub fn commit_scores<S: Copy>(
    best: &mut Vec<S>,
    candidate_scores: &Vec<S>,
    candidate_mask: &Raster<u8>,
    committed: &Raster<u8>,
    region: Bounds,
)
    requires
        old(best)@.len() == candidate_scores@.len(),
        candidate_mask.well_formed(),
        candidate_scores@.len() == candidate_mask.pixels@.len(),
        committed.well_formed(),
        region.inside(candidate_mask.width as int, candidate_mask.height as int),
        committed.width == region.width(),
        committed.height == region.height(),
    ensures
        final(best)@.len() == old(best)@.len(),
        forall|x: int, y: int|
            #![trigger cell(candidate_mask.width as int, x, y)]
            0 <= x < candidate_mask.width && 0 <= y < candidate_mask.height ==> final(best)@[cell(
                candidate_mask.width as int,
                x,
                y,
            )] == if region.contains(x, y) && candidate_mask.at(x, y) > 0 && committed.at(
                x - region.left,
                y - region.top,
            ) > 0 {
                candidate_scores@[cell(candidate_mask.width as int, x, y)]
            } else {
                old(best)@[cell(candidate_mask.width as int, x, y)]
            },
{
    let width: u32 = candidate_mask.width;
    let height: u32 = candidate_mask.height;
    let ghost (w, h) = (width as int, height as int);
    let ghost before = best@;
    let stride: usize = width as usize;
    let size: usize = candidate_scores.len();
    crate::raster::update_cells(
        best,
        |i: usize, current: S| -> (next: S)
            requires
                i < size,
                size == w * h,
                w > 0,
                stride == w,
                w == candidate_mask.width,
                h == candidate_mask.height,
                candidate_mask.well_formed(),
                candidate_scores@.len() == size,
                committed.well_formed(),
                committed.width == region.width(),
                committed.height == region.height(),
                region.inside(w, h),
            ensures
                next == if region.contains(i as int % w, i as int / w)
                    && candidate_mask.pixels@[i as int] > 0 && committed.at(
                    i as int % w - region.left,
                    i as int / w - region.top,
                ) > 0 {
                    candidate_scores@[i as int]
                } else {
                    current
                }
            {
                proof {
                    lemma_split(w, h, i as int);
                }
                let x: u32 = (i % stride) as u32;
                let y: u32 = (i / stride) as u32;
                if region.left <= x && x <= region.right && region.top <= y && y <= region.bottom
                    && candidate_mask.pixels[i] > 0 && committed.pixel(
                    x - region.left,
                    y - region.top,
                ) > 0 {
                    candidate_scores[i]
                } else {
                    current
                }
            },
    );
    proof {
        assert forall|x: int, y: int|
            #![trigger cell(w, x, y)]
            0 <= x < w && 0 <= y < h implies best@[cell(w, x, y)] == if region.contains(x, y)
            && candidate_mask.at(x, y) > 0 && committed.at(x - region.left, y - region.top) > 0 {
            candidate_scores@[cell(w, x, y)]
        } else {
            before[cell(w, x, y)]
        } by {
            lemma_cell(w, h, x, y);
        }
    }
}

/// Notes the scores of a layer where it has really entered the canvas: the settled
/// decision, at the resolution of the analysis, is for it, and it is valid there.
pub fn commit_focus_analysis_scores<S: Copy, P: Copy>(
    best: &mut Vec<S>,
    candidate_scores: &Vec<S>,
    candidate_mask: &Raster<u8>,
    candidate: &RenderedFocusLayer<P>,
    settled: &Raster<u8>,
    region: Bounds,
)
    requires
        old(best)@.len() == candidate_scores@.len(),
        candidate_mask.well_formed(),
        candidate_scores@.len() == candidate_mask.pixels@.len(),
        settled.well_formed(),
        settled.same_size(&candidate.image),
        region.inside(candidate_mask.width as int, candidate_mask.height as int),
        can_resize(
            settled.width,
            settled.height,
            region.width() as u32,
            region.height() as u32,
        ),
    ensures
        final(best)@.len() == old(best)@.len(),
        forall|x: int, y: int|
            #![trigger cell(candidate_mask.width as int, x, y)]
            0 <= x < candidate_mask.width && 0 <= y < candidate_mask.height ==> final(best)@[cell(
                candidate_mask.width as int,
                x,
                y,
            )] == if region.contains(x, y) && candidate_mask.at(x, y) > 0 && nearest_resized(
                settled.pixels@,
                settled.width,
                settled.height,
                region.width() as u32,
                region.height() as u32,
            )[cell(region.width(), x - region.left, y - region.top)] > 0 {
                candidate_scores@[cell(candidate_mask.width as int, x, y)]
            } else {
                old(best)@[cell(candidate_mask.width as int, x, y)]
            },
{
    let part_width: u32 = region.right - region.left + 1;
    let part_height: u32 = region.bottom - region.top + 1;
    let committed: Raster<u8> = resize_binary_mask(settled, part_width, part_height);
    commit_scores(best, candidate_scores, candidate_mask, &committed, region);
}

/// The first layer owns what it covers.
pub fn first_owners(mask: &Raster<u8>) -> (owner: Raster<u8>)
    requires
        mask.well_formed(),
    ensures
        owner.well_formed(),
        owner.same_size(mask),
        forall|i: int|
            0 <= i < mask.pixels@.len() ==> #[trigger] owner.pixels@[i] == if mask.pixels@[i] > 0 {
                1u8
            } else {
                0u8
            },
{
    let pixels: Vec<u8> = tabulate(
        mask.pixels.len(),
        |i: usize| -> (number: u8)
            requires
                i < mask.pixels@.len(),
            ensures
                number == if mask.pixels@[i as int] > 0 {
                    1u8
                } else {
                    0u8
                }
            {
                if mask.pixels[i] > 0 {
                    1
                } else {
                    0
                }
            },
    );
    Raster { width: mask.width, height: mask.height, pixels }
}

/// The route of a stack: nothing to merge without images; a mosaic where the sequence has gaps,
/// or where frames of different positions are shifted; a focus stack otherwise, so always where
/// all frames are of one position.
pub proof fn law_routes_follow_the_camera(
    image_count: usize,
    sequence_gap_aware: bool,
    groups: Seq<u8>,
    frames_are_shifted: bool,
)
    ensures
        ({
            let route = route_for(image_count, sequence_gap_aware, groups, frames_are_shifted);
            &&& image_count == 0 <==> route == StackRoute::Empty
            &&& image_count > 0 && sequence_gap_aware ==> route == StackRoute::Mosaic
            &&& image_count > 0 && !sequence_gap_aware && !frames_are_shifted ==> route
                == StackRoute::Focus
            &&& image_count > 0 && !sequence_gap_aware && (forall|i: int, j: int|
                #![trigger groups[i], groups[j]]
                0 <= i < groups.len() && 0 <= j < groups.len() ==> groups[i] == groups[j]) ==> route
                == StackRoute::Focus
            &&& forall|i: int, j: int|
                #![trigger groups[i], groups[j]]
                image_count > 0 && frames_are_shifted && 0 <= i < groups.len() && 0 <= j < groups.len()
                    && groups[i] != groups[j] ==> route == StackRoute::Mosaic
        }),
{
    let set = groups.to_set();
    groups.lemma_cardinality_of_set();
    if forall|i: int, j: int|
        #![trigger groups[i], groups[j]]
        0 <= i < groups.len() && 0 <= j < groups.len() ==> groups[i] == groups[j] {
        if groups.len() == 0 {
            assert(set =~= Set::empty());
        } else {
            let one = Set::<u8>::empty().insert(groups[0]);
            assert forall|g: u8| set.contains(g) implies one.contains(g) by {
                let k = choose|k: int| 0 <= k < groups.len() && groups[k] == g;
                assert(groups[k] == groups[0]);
            }
            vstd::set_lib::lemma_len_subset(set, one);
        }
    }
    assert forall|i: int, j: int|
        #![trigger groups[i], groups[j]]
        0 <= i < groups.len() && 0 <= j < groups.len() && groups[i] != groups[j] implies set.len()
        > 1 by {
        let two = Set::<u8>::empty().insert(groups[i]).insert(groups[j]);
        assert(two.len() == 2);
        assert(set.contains(groups[i]) && set.contains(groups[j]));
        vstd::set_lib::lemma_len_subset(two, set);
    }
}

/// Where every pixel of a canvas comes from after a layer was committed. Outside of the layer,
/// and where it is not valid, nothing changes. Where only the layer is valid, it is taken. Where
/// both are, the decision counts, except beside foreground that is owned already: there the
/// canvas keeps its pixel and its owner, unless the layer shows a relaxed edge.
pub proof fn law_every_pixel_goes_to_its_source<P>(
    before: &FocusCanvas<P>,
    after: &FocusCanvas<P>,
    candidate: &RenderedFocusLayer<P>,
    decision: &Raster<u8>,
    settled: &Raster<u8>,
    radius: usize,
    number: u8,
    x: int,
    y: int,
)
    requires
        before.well_formed(),
        candidate.well_formed(),
        0 <= x < before.image.width,
        0 <= y < before.image.height,
        commits(before, after, candidate, settled, number),
        candidate.covers(x, y) ==> settled.at(x - candidate.left, y - candidate.top)
            == settled_decision(
            &before.foreground,
            candidate,
            decision.at(x - candidate.left, y - candidate.top),
            radius,
            x - candidate.left,
            y - candidate.top,
        ),
    ensures
        ({
            let (a, b) = (x - candidate.left, y - candidate.top);
            let inside = candidate.left + candidate.image.width <= before.image.width
                && candidate.top + candidate.image.height <= before.image.height && 0 <= a
                < candidate.image.width && 0 <= b < candidate.image.height;
            let near = exists|c: int, d: int|
                #![trigger before.foreground.at(c, d)]
                0 <= c < before.image.width && candidate.top <= d < candidate.top
                    + candidate.image.height && -radius <= c - x <= radius && -radius <= d - y
                    <= radius && before.foreground.at(c, d) != 0;
            &&& !inside ==> after.image.at(x, y) == before.image.at(x, y) && after.mask.at(x, y)
                == before.mask.at(x, y) && after.foreground.at(x, y) == before.foreground.at(x, y)
                && after.owner.at(x, y) == before.owner.at(x, y)
            &&& inside && candidate.mask.at(a, b) == 0 ==> after.image.at(x, y) == before.image.at(
                x,
                y,
            ) && after.mask.at(x, y) == before.mask.at(x, y) && after.owner.at(x, y)
                == before.owner.at(x, y)
            &&& inside && candidate.mask.at(a, b) != 0 ==> after.mask.at(x, y) == 255
            &&& inside && candidate.mask.at(a, b) != 0 && before.mask.at(x, y) == 0
                ==> after.image.at(x, y) == candidate.image.at(a, b)
            &&& inside && candidate.mask.at(a, b) != 0 && before.mask.at(x, y) != 0 && (!near
                || candidate.relaxed_foreground_mask.at(a, b) != 0) && decision.at(a, b) != 0
                ==> after.image.at(x, y) == candidate.image.at(a, b) && after.owner.at(x, y)
                == number
            &&& inside && candidate.mask.at(a, b) != 0 && before.mask.at(x, y) != 0 && (decision.at(
                a,
                b,
            ) == 0 || near && candidate.relaxed_foreground_mask.at(a, b) == 0) ==> after.image.at(
                x,
                y,
            ) == before.image.at(x, y) && after.owner.at(x, y) == before.owner.at(x, y)
        }),
{
    assert(before.holds(x, y));
    assert(is_committed(before, after, candidate, settled, number, x, y));
    law_only_near_foreground_guards(
        &before.foreground,
        candidate.left,
        candidate.top,
        candidate.image.width,
        candidate.image.height,
        radius,
        x - candidate.left,
        y - candidate.top,
    );
    let (a, b) = (x - candidate.left, y - candidate.top);
    if candidate.covers(x, y) {
        let near = exists|c: int, d: int|
            #![trigger before.foreground.at(c, d)]
            0 <= c < before.image.width && candidate.top <= d < candidate.top
                + candidate.image.height && -radius <= c - x <= radius && -radius <= d - y <= radius
                && before.foreground.at(c, d) != 0;
        if candidate.fits(before.image.width as int, before.image.height as int) {
            assert(is_guarded(
                &before.foreground,
                candidate.left,
                candidate.top,
                candidate.image.width,
                candidate.image.height,
                radius,
                a,
                b,
            ) <==> near) by {
                if near {
                    let (c, d) = choose|c: int, d: int|
                        #![trigger before.foreground.at(c, d)]
                        0 <= c < before.image.width && candidate.top <= d < candidate.top
                            + candidate.image.height && -radius <= c - x <= radius && -radius <= d
                            - y <= radius && before.foreground.at(c, d) != 0;
                    assert(before.foreground.at(c, d) != 0);
                }
            }
        }
    }
}

/// The merged foreground only grows, and only by foreground of the layer that is committed.
pub proof fn law_foreground_only_grows<P>(
    before: &FocusCanvas<P>,
    after: &FocusCanvas<P>,
    candidate: &RenderedFocusLayer<P>,
    settled: &Raster<u8>,
    number: u8,
    x: int,
    y: int,
)
    requires
        before.holds(x, y),
        commits(before, after, candidate, settled, number),
    ensures
        before.foreground.at(x, y) > 0 ==> after.foreground.at(x, y) > 0,
        after.foreground.at(x, y) != before.foreground.at(x, y) ==> candidate.covers(x, y)
            && candidate.foreground_mask.at(x - candidate.left, y - candidate.top) > 0,
        candidate.fits(before.image.width as int, before.image.height as int) && candidate.covers(
            x,
            y,
        ) && candidate.foreground_mask.at(x - candidate.left, y - candidate.top) > 0 && settled.at(
            x - candidate.left,
            y - candidate.top,
        ) > 0 ==> after.foreground.at(x, y) == 255,
{
    assert(is_committed(before, after, candidate, settled, number, x, y));
}

/// The part of the analysis canvas that shows a layer holds every pixel of it: the scaled place
/// of each canvas pixel of the layer lies in it, and without its first and last row and column it
/// would not.
pub proof fn law_analysis_regions_hold_their_layer(
    start: u32,
    length: u32,
    canvas: u32,
    analysis: u32,
    position: int,
)
    requires
        0 < length,
        0 < analysis <= canvas,
        start + length <= canvas,
        start <= position < start + length,
    ensures
        analysis_start(start, canvas, analysis) <= position * analysis / canvas as int,
        position * analysis / canvas as int <= analysis_end(start, length, canvas, analysis) - 1,
        analysis_start(start, canvas, analysis) == start * analysis / canvas as int,
        analysis_end(start, length, canvas, analysis) <= analysis,
        (analysis_end(start, length, canvas, analysis) - 1) * canvas < (start + length) * analysis,
        (start + length) * analysis <= analysis_end(start, length, canvas, analysis) * canvas,
{
    let (s, c, n) = (start as int, canvas as int, analysis as int);
    let e = start + length;
    let first = s * n / c;
    let behind = (e * n + c - 1) / c;
    let place = position * n / c;
    vstd::arithmetic::div_mod::lemma_fundamental_div_mod(s * n, c);
    vstd::arithmetic::div_mod::lemma_fundamental_div_mod(e * n + c - 1, c);
    vstd::arithmetic::div_mod::lemma_fundamental_div_mod(position * n, c);
    assert(c * first == first * c && c * behind == behind * c && c * place == place * c)
        by (nonlinear_arith);
    assert(s * n <= position * n && position * n + n <= e * n && e * n <= c * n && 0 <= s * n)
        by (nonlinear_arith)
        requires
            0 <= s <= position,
            position + 1 <= e,
            e <= c,
            0 < n,
    ;
    assert(0 <= first <= place && place < n) by (nonlinear_arith)
        requires
            first * c <= s * n,
            s * n < first * c + c,
            place * c <= position * n,
            position * n < place * c + c,
            0 <= s * n <= position * n,
            position * n + n <= c * n,
            0 < n,
            0 < c,
    ;
    assert(behind * c >= e * n && (behind - 1) * c < e * n) by (nonlinear_arith)
        requires
            behind * c <= e * n + c - 1,
            e * n + c - 1 < behind * c + c,
    ;
    assert(place < behind && behind <= n) by (nonlinear_arith)
        requires
            place * c <= position * n,
            position * n + n <= e * n,
            behind * c >= e * n,
            (behind - 1) * c < e * n,
            e * n <= c * n,
            0 < n,
            0 < c,
    ;
    assert(0 <= behind <= 0xffff_ffff && 0 <= first <= 0xffff_ffff);
    assert(first % 0x1_0000_0000 == first && behind % 0x1_0000_0000 == behind);
}

/// The guards on the analysis canvas never give the candidate a pixel: plain canvas that both
/// sources show stays, owned foreground stays, and elsewhere the decision stands.
pub proof fn law_analysis_guards_only_take_back<P>(
    decision: u8,
    foreground: &Raster<u8>,
    base_mask: &Raster<u8>,
    base_canvas: &Raster<bool>,
    layer: &RenderedFocusAnalysisLayer<P>,
    layer_canvas: &Raster<bool>,
    radius: usize,
    x: int,
    y: int,
)
    requires
        foreground.well_formed(),
        0 <= x < foreground.width,
        0 <= y < foreground.height,
    ensures
        ({
            let settled = guarded_analysis_decision(
                decision,
                foreground,
                base_mask,
                base_canvas,
                layer,
                layer_canvas,
                radius,
                x,
                y,
            );
            let plain = base_mask.at(x, y) != 0 && layer.mask.at(x, y) != 0 && base_canvas.at(x, y)
                && layer_canvas.at(x, y);
            let near = exists|a: int, b: int|
                #![trigger foreground.at(a, b)]
                0 <= a < foreground.width && 0 <= b < foreground.height && foreground.at(a, b) != 0
                    && -radius <= a - x <= radius && -radius <= b - y <= radius;
            let shown = layer.mask.at(x, y) != 0 || layer.foreground_mask.at(x, y) != 0;
            &&& plain ==> settled == 0
            &&& near && shown && layer.relaxed_foreground_mask.at(x, y) == 0 ==> settled == 0
            &&& !plain && (!near || !shown || layer.relaxed_foreground_mask.at(x, y) != 0)
                ==> settled == decision
        }),
{
    law_only_near_foreground_guards(
        foreground,
        0,
        0,
        foreground.width,
        foreground.height,
        radius,
        x,
        y,
    );
    let near = exists|a: int, b: int|
        #![trigger foreground.at(a, b)]
        0 <= a < foreground.width && 0 <= b < foreground.height && foreground.at(a, b) != 0
            && -radius <= a - x <= radius && -radius <= b - y <= radius;
    assert(is_guarded(
        foreground,
        0,
        0,
        foreground.width,
        foreground.height,
        radius,
        x,
        y,
    ) <==> near) by {
        if near {
            let (a, b) = choose|a: int, b: int|
                #![trigger foreground.at(a, b)]
                0 <= a < foreground.width && 0 <= b < foreground.height && foreground.at(a, b) != 0
                    && -radius <= a - x <= radius && -radius <= b - y <= radius;
            assert(foreground.at(a, b) != 0);
        }
    }
}

/// The level of confidence is set by some thousands of pixels, spread evenly: by every pixel of
/// an image of fewer than 8192, and otherwise by 4096 to 8192 of them, the first one among them.
pub proof fn law_confidence_samples_are_spread_evenly(
    base_valid: Seq<u8>,
    candidate_valid: Seq<u8>,
    i: int,
)
    requires
        0 <= i < base_valid.len(),
        candidate_valid.len() == base_valid.len(),
    ensures
        base_valid[i] == 0 && candidate_valid[i] == 0 ==> !is_confidence_sample(
            base_valid,
            candidate_valid,
            i,
        ),
        base_valid.len() < 8192 && (base_valid[i] > 0 || candidate_valid[i] > 0)
            ==> is_confidence_sample(base_valid, candidate_valid, i),
        base_valid.len() >= 4096 ==> exists|part: int|
            #![trigger part * 4096]
            part * 4096 <= base_valid.len() < (part + 1) * 4096 && (is_confidence_sample(
                base_valid,
                candidate_valid,
                i,
            ) <==> i % part == 0 && (base_valid[i] > 0 || candidate_valid[i] > 0)),
{
    let part = base_valid.len() as int / 4096;
    assert(part * 4096 <= base_valid.len() < (part + 1) * 4096);
    assert(i % 1 == 0);
}

/// A layer on the canvas that is not empty shows up on every analysis canvas that is not larger.
pub proof fn law_layers_show_up_in_the_analysis<P>(
    layer: &RenderedFocusLayer<P>,
    out_width: u32,
    out_height: u32,
    analysis_width: u32,
    analysis_height: u32,
)
    requires
        0 < layer.image.width,
        0 < layer.image.height,
        layer.left + layer.image.width <= out_width,
        layer.top + layer.image.height <= out_height,
        0 < analysis_width <= out_width,
        0 < analysis_height <= out_height,
    ensures
        has_analysis_region(layer, out_width, out_height, analysis_width, analysis_height),
{
    law_analysis_regions_hold_their_layer(
        layer.left,
        layer.image.width,
        out_width,
        analysis_width,
        layer.left as int,
    );
    law_analysis_regions_hold_their_layer(
        layer.top,
        layer.image.height,
        out_height,
        analysis_height,
        layer.top as int,
    );
}

/// A mask that is shown in a region is clear outside of it.
pub proof fn law_masks_show_in_their_region_alone(
    shown: &Raster<u8>,
    region: Bounds,
    source: &Raster<u8>,
    x: int,
    y: int,
)
    requires
        shows_resized(shown, region, source),
        0 <= x < shown.width,
        0 <= y < shown.height,
    ensures
        x < region.left || x > region.right || y < region.top || y > region.bottom ==> shown.at(x, y)
            == 0,
        region.left <= x <= region.right && region.top <= y <= region.bottom ==> shown.at(x, y)
            == nearest_resized(
            source.pixels@,
            source.width,
            source.height,
            (region.right - region.left + 1) as u32,
            (region.bottom - region.top + 1) as u32,
        )[(y - region.top) * (region.right - region.left + 1) + (x - region.left)],
{
    assert(shown.at(x, y) == shown.at(x, y));
}

/// A canvas starts with its first layer: what lies under the layer shows it, the rest is blank and
/// without a mask, and the layer owns what is valid.
pub proof fn law_canvases_start_with_their_first_layer<P>(
    canvas: &FocusCanvas<P>,
    width: u32,
    height: u32,
    blank: P,
    first: &RenderedFocusLayer<P>,
    x: int,
    y: int,
)
    requires
        is_started(canvas, width, height, blank, first),
        0 <= x < width,
        0 <= y < height,
    ensures
        canvas.image.width == width,
        canvas.image.height == height,
        ({
            let (a, b) = (x - first.left, y - first.top);
            let fits = 0 < first.image.width && 0 < first.image.height && first.left
                + first.image.width <= width && first.top + first.image.height <= height;
            let under = 0 <= a < first.image.width && 0 <= b < first.image.height;
            &&& fits && under ==> canvas.image.at(x, y) == first.image.at(a, b) && canvas.mask.at(x, y)
                == first.mask.at(a, b) && canvas.foreground.at(x, y) == first.foreground_mask.at(a, b)
            &&& !under ==> canvas.image.at(x, y) == blank && canvas.mask.at(x, y) == 0
                && canvas.foreground.at(x, y) == 0
            &&& canvas.owner.at(x, y) == 1 <==> canvas.mask.at(x, y) != 0
            &&& canvas.owner.at(x, y) <= 1
        }),
{
    assert(canvas.holds(x, y));
}

/// Nothing shows up on an empty canvas, and no empty layer does.
pub proof fn law_nothing_empty_shows_up<P>(
    layer: &RenderedFocusLayer<P>,
    out_width: u32,
    out_height: u32,
    analysis_width: u32,
    analysis_height: u32,
)
    requires
        has_analysis_region(layer, out_width, out_height, analysis_width, analysis_height),
    ensures
        0 < out_width,
        0 < out_height,
        0 < layer.image.width,
        0 < layer.image.height,
{
}

/// What shows up on the analysis canvas has a column and a row there.
pub proof fn law_shown_layers_have_pixels<P>(
    layer: &RenderedFocusLayer<P>,
    out_width: u32,
    out_height: u32,
    analysis_width: u32,
    analysis_height: u32,
)
    requires
        has_analysis_region(layer, out_width, out_height, analysis_width, analysis_height),
    ensures
        analysis_end(layer.left, layer.image.width, out_width, analysis_width) - analysis_start(
            layer.left,
            out_width,
            analysis_width,
        ) >= 1,
        analysis_end(layer.top, layer.image.height, out_height, analysis_height) - analysis_start(
            layer.top,
            out_height,
            analysis_height,
        ) >= 1,
{
}

} // verus!
