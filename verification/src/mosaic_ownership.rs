//! Which source owns a cell of a mosaic: the evidence of every cell becomes a seed or a
//! vote, and a cut through the grid settles all cells at once.

use vstd::prelude::*;

use crate::grid::lemma_split;
use crate::seam_cut::base_cost;
use crate::seam_cut::candidate_cost;
use crate::seam_cut::boundary_price;
use crate::seam_cut::cell_energy;
use crate::seam_cut::cut_grid;
use crate::seam_cut::grid_energy;
use crate::seam_cut::has_below;
use crate::seam_cut::has_right;
use crate::seam_cut::incident_cost;
use crate::seam_cut::is_cheapest;
use crate::seam_cut::law_boundaries_run_where_they_cost_least;
use crate::seam_cut::law_seeds_are_obeyed;
use crate::seam_cut::mask_labels;
use crate::seam_cut::side_within;
use crate::seam_cut::won_votes;
use crate::window::lemma_sum_same;
use crate::window::sum_range;

verus! {

/// One, in the fixed-point unit of votes and disagreements.
pub const OWNERSHIP_UNIT: i64 = 1_000_000_000;

/// The disagreement of a cell costs its candidate 2.4 times as much, in hundredths.
pub const OWNERSHIP_MISMATCH_PERCENT: i64 = 240;

/// The same for a candidate that is clearly sharper.
pub const SHARPER_MISMATCH_PERCENT: i64 = 72;

/// The largest vote, in whole units.
pub const OWNERSHIP_VOTE_LIMIT: i64 = 12_000_000_000;

/// The least mean energy that votes are measured in. Energies count in units of a
/// thousandth of a millionth of a millionth.
pub const OWNERSHIP_ENERGY_FLOOR: u64 = 1_000_000_000;

/// The vote of every contested cell when a camera position is first added.
pub const TRANSITION_VOTE: i64 = -750_000_000;

/// What was measured in one cell of the ownership grid.
#[derive(Clone, Copy, Debug)]
pub struct CellEvidence {
    /// The candidate has a pixel here.
    pub candidate_valid: bool,
    /// The canvas is covered here.
    pub base_valid: bool,
    /// A neighbouring sample lies outside of the candidate's frame.
    pub at_source_edge: bool,
    /// The capture group that owns the canvas here.
    pub owner: u8,
    /// The squared edge response of the candidate.
    pub candidate_energy: u64,
    /// The squared edge response of the canvas.
    pub base_energy: u64,
    /// How much the colours differ, from 0 to `OWNERSHIP_UNIT`.
    pub disagreement: i64,
}

/// How a candidate competes for cells.
#[derive(Clone, Copy, Debug, PartialEq, Eq, Structural)]
pub enum OwnershipRule {
    /// By sharpness, guarded along the border of the grid.
    Mosaic,
    /// By sharpness among the cells of its own capture group.
    Group(u8),
    /// As the first frame of a camera position, through a seam only.
    Transition,
}

/// How a frame of a capture group competes: the first one enters through a seam, the others
/// compete with their own group.
pub fn rule_for(first_of_group: bool, group: u8) -> (rule: OwnershipRule)
    ensures
        rule == if first_of_group {
            OwnershipRule::Transition
        } else {
            OwnershipRule::Group(group)
        },
{
    if first_of_group {
        OwnershipRule::Transition
    } else {
        OwnershipRule::Group(group)
    }
}

/// The cell lies on the border of the grid.
pub open spec fn on_border(width: int, height: int, i: int) -> bool {
    i % width == 0 || i / width == 0 || i % width + 1 == width || i / width + 1 == height
}

/// The seed of a cell: 1 for the candidate, -1 for the canvas, 0 for a contested cell.
pub open spec fn seed(rule: OwnershipRule, border: bool, evidence: CellEvidence) -> int {
    if !evidence.candidate_valid {
        -1
    } else if !evidence.base_valid {
        1int
    } else {
        match rule {
            OwnershipRule::Mosaic => if border && evidence.at_source_edge {
                -1
            } else {
                0
            },
            OwnershipRule::Group(group) => if evidence.owner != group || evidence.at_source_edge {
                -1
            } else {
                0
            },
            OwnershipRule::Transition => if evidence.at_source_edge {
                -1
            } else {
                0
            },
        }
    }
}

pub open spec fn seeds(rule: OwnershipRule, width: int, height: int, cells: Seq<CellEvidence>) -> Seq<
    i8,
> {
    Seq::new(cells.len(), |i: int| seed(rule, on_border(width, height, i), cells[i]) as i8)
}

/// The number of contested cells among the first `count`.
pub open spec fn contested_count(labels: Seq<i8>, count: int) -> int
    decreases count,
{
    if count <= 0 {
        0
    } else {
        contested_count(labels, count - 1) + if labels[count - 1] == 0 {
            1int
        } else {
            0
        }
    }
}

/// The energy of both sources in the contested ones of the first `count` cells.
pub open spec fn contested_energy(cells: Seq<CellEvidence>, labels: Seq<i8>, count: int) -> int
    decreases count,
{
    if count <= 0 {
        0
    } else {
        contested_energy(cells, labels, count - 1) + if labels[count - 1] == 0 {
            cells[count - 1].candidate_energy + cells[count - 1].base_energy
        } else {
            0
        }
    }
}

/// The mean energy of a source in a contested cell, from which one scale for all votes
/// follows.
pub open spec fn energy_scale(cells: Seq<CellEvidence>, labels: Seq<i8>) -> int {
    let count = contested_count(labels, labels.len() as int);
    let mean = contested_energy(cells, labels, labels.len() as int) / (2 * if count < 1 {
        1
    } else {
        count
    });
    if mean < OWNERSHIP_ENERGY_FLOOR {
        OWNERSHIP_ENERGY_FLOOR as int
    } else {
        mean
    }
}

/// What the sharpness of a cell says for the candidate. The canvas keeps a margin of six
/// per cent, so equal detail stays where it is.
pub open spec fn sharpness_vote(candidate: int, base: int, scale: int) -> int {
    let lead = 100 * candidate - 106 * base;
    let size = (if lead < 0 {
        -lead
    } else {
        lead
    }) * OWNERSHIP_UNIT / (100 * scale);
    let bounded = if size > OWNERSHIP_VOTE_LIMIT {
        OWNERSHIP_VOTE_LIMIT as int
    } else {
        size
    };
    if lead < 0 {
        -bounded
    } else {
        bounded
    }
}

/// What a displaced contour takes off the vote. A candidate whose edge response leads
/// by more than twelve per cent is not held back for changing soft pixels.
pub open spec fn mismatch(disagreement: int, candidate: int, base: int) -> int {
    let percent = if 10_000 * candidate > 12_544 * base {
        SHARPER_MISMATCH_PERCENT as int
    } else {
        OWNERSHIP_MISMATCH_PERCENT as int
    };
    let cost = disagreement * percent / 100;
    if cost > OWNERSHIP_UNIT {
        OWNERSHIP_UNIT as int
    } else {
        cost
    }
}

/// The vote of a cell.
pub open spec fn vote(rule: OwnershipRule, label: i8, evidence: CellEvidence, scale: int) -> int {
    if label != 0 {
        0
    } else if rule == OwnershipRule::Transition {
        TRANSITION_VOTE as int
    } else {
        sharpness_vote(evidence.candidate_energy as int, evidence.base_energy as int, scale)
            - mismatch(
            evidence.disagreement as int,
            evidence.candidate_energy as int,
            evidence.base_energy as int,
        )
    }
}

pub open spec fn votes(
    rule: OwnershipRule,
    width: int,
    height: int,
    cells: Seq<CellEvidence>,
) -> Seq<i64> {
    let labels = seeds(rule, width, height, cells);
    let scale = energy_scale(cells, labels);
    Seq::new(cells.len(), |i: int| vote(rule, labels[i], cells[i], scale) as i64)
}

/// The disagreement of contested cells; seeded cells have none.
pub open spec fn disagreements(
    rule: OwnershipRule,
    width: int,
    height: int,
    cells: Seq<CellEvidence>,
) -> Seq<i64> {
    let labels = seeds(rule, width, height, cells);
    Seq::new(
        cells.len(),
        |i: int|
            if labels[i] == 0 {
                cells[i].disagreement
            } else {
                0
            },
    )
}

/// All disagreements are between 0 and 1.
pub open spec fn is_evidence(cells: Seq<CellEvidence>) -> bool {
    forall|i: int|
        0 <= i < cells.len() ==> 0 <= (#[trigger] cells[i]).disagreement <= OWNERSHIP_UNIT
}

/// The mask gives the candidate the fewest cells among the cheapest labellings.
pub open spec fn is_decision(
    rule: OwnershipRule,
    width: int,
    height: int,
    cells: Seq<CellEvidence>,
    mask: Seq<u8>,
) -> bool {
    let preference = votes(rule, width, height, cells);
    let difference = disagreements(rule, width, height, cells);
    let fixed = seeds(rule, width, height, cells);
    &&& mask.len() == cells.len()
    &&& forall|i: int| 0 <= i < mask.len() ==> #[trigger] mask[i] == 0 || mask[i] == 255
    &&& is_cheapest(width, height, preference, difference, fixed, mask_labels(mask))
    &&& forall|other: Seq<bool>|
        #![trigger is_cheapest(width, height, preference, difference, fixed, other)]
        other.len() == mask.len() && is_cheapest(
            width,
            height,
            preference,
            difference,
            fixed,
            other,
        ) ==> side_within(mask_labels(mask), other)
}

fn cell_seed(rule: OwnershipRule, border: bool, evidence: &CellEvidence) -> (label: i8)
    ensures
        label == seed(rule, border, *evidence),
{
    if !evidence.candidate_valid {
        return -1;
    }
    if !evidence.base_valid {
        return 1;
    }
    let guarded: bool = match rule {
        OwnershipRule::Mosaic => border && evidence.at_source_edge,
        OwnershipRule::Group(group) => evidence.owner != group || evidence.at_source_edge,
        OwnershipRule::Transition => evidence.at_source_edge,
    };
    if guarded {
        -1
    } else {
        0
    }
}

fn cell_vote(rule: OwnershipRule, label: i8, evidence: &CellEvidence, scale: u128) -> (result: i64)
    requires
        0 < scale <= 0x1_ffff_ffff_ffff_ffff,
        0 <= evidence.disagreement <= OWNERSHIP_UNIT,
    ensures
        result == vote(rule, label, *evidence, scale as int),
        -OWNERSHIP_VOTE_LIMIT - OWNERSHIP_UNIT <= result <= OWNERSHIP_VOTE_LIMIT,
{
    if label != 0 {
        return 0;
    }
    if rule == OwnershipRule::Transition {
        return TRANSITION_VOTE;
    }
    let candidate: u128 = evidence.candidate_energy as u128;
    let base: u128 = evidence.base_energy as u128;
    let gain: u128 = 100 * candidate;
    let margin: u128 = 106 * base;
    let lead: u128 = if gain < margin {
        margin - gain
    } else {
        gain - margin
    };
    let unit: u128 = 1_000_000_000;
    let size: u128 = lead * unit / (100 * scale);
    let bounded: i64 = if size > 12_000_000_000 {
        OWNERSHIP_VOTE_LIMIT
    } else {
        size as i64
    };
    let percent: i64 = if 10_000 * candidate > 12_544 * base {
        SHARPER_MISMATCH_PERCENT
    } else {
        OWNERSHIP_MISMATCH_PERCENT
    };
    let cost: i64 = evidence.disagreement * percent / 100;
    let penalty: i64 = if cost > OWNERSHIP_UNIT {
        OWNERSHIP_UNIT
    } else {
        cost
    };
    if gain < margin {
        -bounded - penalty
    } else {
        bounded - penalty
    }
}

/// Decides which cells of a grid a candidate takes over.
pub fn ownership_grid(
    rule: OwnershipRule,
    width: usize,
    height: usize,
    cells: &Vec<CellEvidence>,
) -> (mask: Vec<u8>)
    requires
        cells@.len() == width * height,
        width * height * 8 + 8 <= usize::MAX,
        is_evidence(cells@),
    ensures
        is_decision(rule, width as int, height as int, cells@, mask@),
{
    let ghost (w, h) = (width as int, height as int);
    let ghost labels = seeds(rule, w, h, cells@);
    let count: usize = cells.len();
    let mut fixed: Vec<i8> = Vec::new();
    let mut contested: usize = 0;
    let mut energy: u128 = 0;
    let mut i: usize = 0;
    while i < count
        invariant
            i <= count,
            count == cells@.len(),
            count == width * height,
            count * 8 + 8 <= usize::MAX,
            w == width,
            h == height,
            labels == seeds(rule, w, h, cells@),
            fixed@ == labels.take(i as int),
            contested <= i,
            contested == contested_count(labels, i as int),
            energy == contested_energy(cells@, labels, i as int),
            energy <= contested * 0x1_ffff_ffff_ffff_fffe,
        decreases count - i,
    {
        assert(width > 0) by (nonlinear_arith)
            requires
                0 < width * height,
                0 <= width,
                0 <= height,
        ;
        proof {
            lemma_split(w, h, i as int);
        }
        let x: usize = i % width;
        let y: usize = i / width;
        let border: bool = x == 0 || y == 0 || x == width - 1 || y == height - 1;
        let label: i8 = cell_seed(rule, border, &cells[i]);
        assert(label == labels[i as int]);
        if label == 0 {
            assert((contested + 1) * 0x1_ffff_ffff_ffff_fffe == contested
                * 0x1_ffff_ffff_ffff_fffe + 0x1_ffff_ffff_ffff_fffe);
            assert(energy + 0x1_ffff_ffff_ffff_fffe <= u128::MAX) by (nonlinear_arith)
                requires
                    energy <= contested * 0x1_ffff_ffff_ffff_fffe,
                    contested <= 0x1fff_ffff_ffff_ffff,
            ;
            energy = energy + cells[i].candidate_energy as u128 + cells[i].base_energy as u128;
            contested += 1;
        }
        fixed.push(label);
        i += 1;
        assert(labels.take(i as int) =~= labels.take(i - 1).push(labels[i - 1]));
    }
    assert(labels.take(count as int) =~= labels);
    let divisor: u128 = 2 * if contested < 1 {
        1
    } else {
        contested as u128
    };
    let mean: u128 = energy / divisor;
    proof {
        assert(energy / divisor <= 0x1_ffff_ffff_ffff_ffff) by (nonlinear_arith)
            requires
                energy <= contested * 0x1_ffff_ffff_ffff_fffe,
                divisor >= contested,
                divisor > 0,
        ;
    }
    let scale: u128 = if mean < OWNERSHIP_ENERGY_FLOOR as u128 {
        OWNERSHIP_ENERGY_FLOOR as u128
    } else {
        mean
    };
    assert(scale == energy_scale(cells@, labels));
    let mut preference: Vec<i64> = Vec::new();
    let mut difference: Vec<i64> = Vec::new();
    let mut k: usize = 0;
    while k < count
        invariant
            k <= count,
            count == cells@.len(),
            is_evidence(cells@),
            labels == seeds(rule, w, h, cells@),
            fixed@ == labels,
            0 < scale <= 0x1_ffff_ffff_ffff_ffff,
            scale == energy_scale(cells@, labels),
            preference@.len() == k,
            difference@.len() == k,
            forall|j: int|
                0 <= j < k ==> #[trigger] preference@[j] == votes(rule, w, h, cells@)[j]
                    && preference@[j] > i64::MIN,
            forall|j: int|
                0 <= j < k ==> #[trigger] difference@[j] == disagreements(rule, w, h, cells@)[j]
                    && 0 <= difference@[j] <= OWNERSHIP_UNIT,
        decreases count - k,
    {
        let label: i8 = fixed[k];
        assert(0 <= cells@[k as int].disagreement <= OWNERSHIP_UNIT);
        preference.push(cell_vote(rule, label, &cells[k], scale));
        difference.push(
            if label == 0 {
                cells[k].disagreement
            } else {
                0
            },
        );
        k += 1;
    }
    assert(preference@ =~= votes(rule, w, h, cells@));
    assert(difference@ =~= disagreements(rule, w, h, cells@));
    cut_grid(width, height, &preference, &difference, &fixed)
}

/// Where only one of canvas and candidate has a pixel, that one owns the cell. Where
/// both have one, a later frame of a capture group never takes a cell from another
/// group.
pub proof fn law_coverage_and_groups_are_kept(
    rule: OwnershipRule,
    width: int,
    height: int,
    cells: Seq<CellEvidence>,
    mask: Seq<u8>,
    i: int,
)
    requires
        0 < width,
        cells.len() == width * height,
        is_evidence(cells),
        is_decision(rule, width, height, cells, mask),
        0 <= i < cells.len(),
    ensures
        !cells[i].candidate_valid ==> mask[i] == 0,
        cells[i].candidate_valid && !cells[i].base_valid ==> mask[i] == 255,
        (rule matches OwnershipRule::Group(group) && cells[i].base_valid && cells[i].owner != group)
            ==> mask[i] == 0,
{
    let preference = votes(rule, width, height, cells);
    let difference = disagreements(rule, width, height, cells);
    let fixed = seeds(rule, width, height, cells);
    let labels = mask_labels(mask);
    assert forall|j: int| 0 <= j < difference.len() implies 0 <= #[trigger] difference[j]
        <= OWNERSHIP_UNIT by {
        assert(0 <= cells[j].disagreement <= OWNERSHIP_UNIT);
    }
    lemma_split(width, height, i);
    crate::grid::lemma_row_below(width, i % width, i / width);
    lemma_incident(width, height, difference, i);
    if fixed[i] == 1 || fixed[i] == -1 {
        law_seeds_are_obeyed(width, height, preference, difference, fixed, labels, i);
        assert(labels[i] == (mask[i] > 0));
    }
}

proof fn lemma_incident(width: int, height: int, difference: Seq<i64>, i: int)
    requires
        0 < width,
        difference.len() == width * height,
        0 <= i < difference.len(),
        forall|j: int|
            0 <= j < difference.len() ==> 0 <= #[trigger] difference[j] <= OWNERSHIP_UNIT,
    ensures
        incident_cost(width, height, difference, i, difference.len() as int)
            <= 100_000_000_000,
{
    lemma_split(width, height, i);
    assert(0 <= difference[i] <= OWNERSHIP_UNIT);
    if has_right(width, i) {
        crate::grid::lemma_cell(width, height, i % width + 1, i / width);
        assert(0 <= difference[i + 1] <= OWNERSHIP_UNIT);
    }
    if has_below(width, height, i) {
        crate::grid::lemma_row_below(width, i % width, i / width);
        crate::grid::lemma_cell(width, height, i % width, i / width + 1);
        assert(0 <= difference[i + width] <= OWNERSHIP_UNIT);
    }
    if i > 0 {
        assert(0 <= difference[i - 1] <= OWNERSHIP_UNIT);
    }
    if i >= width {
        assert(0 <= difference[i - width] <= OWNERSHIP_UNIT);
    }
}

/// A candidate that covers nothing new and leads nowhere by more than the margin changes
/// nothing: a duplicate of the canvas is dropped, and the first frame of a camera
/// position enters only where it brings new coverage.
pub proof fn law_duplicates_change_nothing(
    rule: OwnershipRule,
    width: int,
    height: int,
    cells: Seq<CellEvidence>,
    mask: Seq<u8>,
    i: int,
)
    requires
        0 < width,
        cells.len() == width * height,
        is_evidence(cells),
        is_decision(rule, width, height, cells, mask),
        forall|j: int|
            0 <= j < cells.len() ==> {
                let evidence = #[trigger] cells[j];
                &&& evidence.candidate_valid ==> evidence.base_valid
                &&& rule == OwnershipRule::Transition || 100 * evidence.candidate_energy <= 106
                    * evidence.base_energy
            },
        0 <= i < cells.len(),
    ensures
        mask[i] == 0,
{
    let preference = votes(rule, width, height, cells);
    let difference = disagreements(rule, width, height, cells);
    let fixed = seeds(rule, width, height, cells);
    let scale = energy_scale(cells, fixed);
    let nothing = Seq::new(cells.len(), |j: int| false);
    lemma_scale_is_positive(cells, fixed);
    assert forall|j: int| 0 <= j < cells.len() implies #[trigger] fixed[j] != 1 && preference[j] <= 0
        by {
        let evidence = cells[j];
        assert(0 <= evidence.disagreement <= OWNERSHIP_UNIT);
        if fixed[j] == 0 && rule != OwnershipRule::Transition {
            let (candidate, base) = (evidence.candidate_energy as int, evidence.base_energy as int);
            let lead = 106 * base - 100 * candidate;
            assert(0 <= lead * OWNERSHIP_UNIT / (100 * scale)) by (nonlinear_arith)
                requires
                    lead >= 0,
                    scale > 0,
                    OWNERSHIP_UNIT > 0,
            ;
            assert(-OWNERSHIP_VOTE_LIMIT <= sharpness_vote(candidate, base, scale) <= 0) by {
                if lead == 0 {
                    assert(0 * OWNERSHIP_UNIT / (100 * scale) == 0) by (nonlinear_arith)
                        requires
                            scale > 0,
                    ;
                }
            }
            let cost = mismatch(evidence.disagreement as int, candidate, base);
            assert(0 <= cost <= OWNERSHIP_UNIT);
            assert(preference[j] == vote(rule, fixed[j], evidence, scale));
        }
    }
    assert forall|j: int| 0 <= j < difference.len() implies 0 <= #[trigger] difference[j] by {
        assert(0 <= cells[j].disagreement <= OWNERSHIP_UNIT);
    }
    lemma_empty_labelling(width, height, preference, difference, fixed, nothing, nothing.len());
    assert(is_cheapest(width, height, preference, difference, fixed, nothing)) by {
        assert forall|other: Seq<bool>|
            #![trigger grid_energy(width, height, preference, difference, fixed, other, nothing.len())]
            other.len() == nothing.len() implies grid_energy(
            width,
            height,
            preference,
            difference,
            fixed,
            nothing,
            nothing.len(),
        ) <= grid_energy(width, height, preference, difference, fixed, other, nothing.len()) by {
            lemma_energy_is_positive(
                width,
                height,
                preference,
                difference,
                fixed,
                other,
                nothing.len(),
            );
        }
    }
    assert(side_within(mask_labels(mask), nothing));
    if mask[i] > 0 {
        assert(mask_labels(mask)[i]);
        assert(nothing[i]);
    }
}

proof fn lemma_scale_is_positive(cells: Seq<CellEvidence>, labels: Seq<i8>)
    ensures
        energy_scale(cells, labels) > 0,
{
}

/// The labelling that keeps everything costs nothing if no cell asks for the candidate.
proof fn lemma_empty_labelling(
    width: int,
    height: int,
    preference: Seq<i64>,
    disagreement: Seq<i64>,
    fixed: Seq<i8>,
    labels: Seq<bool>,
    cells: nat,
)
    requires
        0 < width,
        labels.len() == width * height,
        cells <= labels.len(),
        forall|j: int| 0 <= j < labels.len() ==> !(#[trigger] labels[j]),
        forall|j: int|
            0 <= j < labels.len() ==> #[trigger] fixed[j] != 1 && preference[j] <= 0,
    ensures
        grid_energy(width, height, preference, disagreement, fixed, labels, cells) == 0,
    decreases cells,
{
    if cells > 0 {
        let j = cells - 1;
        lemma_empty_labelling(width, height, preference, disagreement, fixed, labels, j as nat);
        lemma_split(width, height, j);
        if has_right(width, j) {
            crate::grid::lemma_cell(width, height, j % width + 1, j / width);
            assert(!labels[j + 1]);
        }
        if has_below(width, height, j) {
            crate::grid::lemma_row_below(width, j % width, j / width);
            crate::grid::lemma_cell(width, height, j % width, j / width + 1);
            assert(!labels[j + width]);
        }
        assert(0 <= j < labels.len());
        assert(!labels[j]);
        assert(fixed[j] != 1);
        assert(preference[j] <= 0);
        assert(base_cost(preference[j], fixed[j]) == 0);
        assert(cell_energy(width, height, preference, disagreement, fixed, labels, j) == 0);
    }
}

proof fn lemma_energy_is_positive(
    width: int,
    height: int,
    preference: Seq<i64>,
    disagreement: Seq<i64>,
    fixed: Seq<i8>,
    labels: Seq<bool>,
    cells: nat,
)
    requires
        0 < width,
        labels.len() == width * height,
        disagreement.len() == labels.len(),
        cells <= labels.len(),
        forall|j: int| 0 <= j < disagreement.len() ==> 0 <= #[trigger] disagreement[j],
    ensures
        grid_energy(width, height, preference, disagreement, fixed, labels, cells) >= 0,
    decreases cells,
{
    if cells > 0 {
        let j = cells - 1;
        lemma_energy_is_positive(
            width,
            height,
            preference,
            disagreement,
            fixed,
            labels,
            j as nat,
        );
        lemma_split(width, height, j);
        assert(0 <= disagreement[j]);
        if has_right(width, j) {
            crate::grid::lemma_cell(width, height, j % width + 1, j / width);
            assert(0 <= disagreement[j + 1]);
        }
        if has_below(width, height, j) {
            crate::grid::lemma_row_below(width, j % width, j / width);
            crate::grid::lemma_cell(width, height, j % width, j / width + 1);
            assert(0 <= disagreement[j + width]);
        }
        assert(candidate_cost(preference[j], fixed[j]) >= 0);
        assert(base_cost(preference[j], fixed[j]) >= 0);
    }
}

/// Both sources have a pixel, and nothing keeps the cell with the canvas beforehand: it lies in
/// the frame, with the first frame of a position and within a group, or away from the border
/// of a mosaic, and it belongs to the same group.
pub open spec fn is_open(
    rule: OwnershipRule,
    width: int,
    height: int,
    cells: Seq<CellEvidence>,
    i: int,
) -> bool {
    &&& cells[i].candidate_valid
    &&& cells[i].base_valid
    &&& cells[i].at_source_edge ==> rule == OwnershipRule::Mosaic && 0 < i % width < width - 1 && 0
        < i / width < height - 1
    &&& rule matches OwnershipRule::Group(group) ==> cells[i].owner == group
}

/// The labelling leaves every cell that is not contested where it has to be: with the only
/// source that has a pixel, and otherwise with the canvas.
pub open spec fn keeps_closed_cells(
    rule: OwnershipRule,
    width: int,
    height: int,
    cells: Seq<CellEvidence>,
    labels: Seq<bool>,
) -> bool {
    forall|i: int|
        #![trigger labels[i]]
        0 <= i < cells.len() && !is_open(rule, width, height, cells, i) ==> labels[i] == (
        cells[i].candidate_valid && !cells[i].base_valid)
}

/// What the sources disagree in an open cell.
pub open spec fn open_disagreement(
    rule: OwnershipRule,
    width: int,
    height: int,
    cells: Seq<CellEvidence>,
) -> spec_fn(int) -> int {
    |i: int|
        if is_open(rule, width, height, cells, i) {
            cells[i].disagreement as int
        } else {
            0
        }
}

/// Seams run where the sources agree: no other labelling that leaves the closed cells where they
/// have to be has a smaller price of its boundaries, by the measured disagreement of the open
/// cells beside them, less the votes that it wins; where another is as good, the mask gives the
/// candidate no cell that the other does not.
pub proof fn law_seams_run_where_sources_agree(
    rule: OwnershipRule,
    width: int,
    height: int,
    cells: Seq<CellEvidence>,
    mask: Seq<u8>,
    other: Seq<bool>,
)
    requires
        0 < width,
        cells.len() == width * height,
        is_evidence(cells),
        is_decision(rule, width, height, cells, mask),
        other.len() == cells.len(),
        keeps_closed_cells(rule, width, height, cells, other),
    ensures
        ({
            let labels = Seq::new(mask.len(), |i: int| mask[i] == 255);
            let count = cells.len() as int;
            let d = open_disagreement(rule, width, height, cells);
            let v = |i: int| votes(rule, width, height, cells)[i] as int;
            let own = sum_range(boundary_price(width, height, d, labels), 0, count) - sum_range(
                won_votes(v, labels),
                0,
                count,
            );
            let others = sum_range(boundary_price(width, height, d, other), 0, count) - sum_range(
                won_votes(v, other),
                0,
                count,
            );
            &&& keeps_closed_cells(rule, width, height, cells, labels)
            &&& own <= others
            &&& own == others ==> forall|i: int| 0 <= i < count && #[trigger] labels[i] ==> other[i]
        }),
{
    let preference = votes(rule, width, height, cells);
    let difference = disagreements(rule, width, height, cells);
    let fixed = seeds(rule, width, height, cells);
    let shown = Seq::new(mask.len(), |i: int| mask[i] == 255);
    let labels = mask_labels(mask);
    assert(shown =~= labels) by {
        assert forall|i: int| 0 <= i < mask.len() implies shown[i] == labels[i] by {
            assert(mask[i] == 0 || mask[i] == 255);
        }
    }
    let count = cells.len() as int;
    assert forall|i: int| 0 <= i < count implies #[trigger] fixed[i] == if is_open(
        rule,
        width,
        height,
        cells,
        i,
    ) {
        0i8
    } else if cells[i].candidate_valid && !cells[i].base_valid {
        1i8
    } else {
        -1i8
    } by {
        lemma_split(width, height, i);
    }
    assert forall|i: int| 0 <= i < count && !is_open(rule, width, height, cells, i) implies (
    #[trigger] labels[i]) == (cells[i].candidate_valid && !cells[i].base_valid) by {
        lemma_seeded(rule, width, height, cells, mask, i);
        assert(mask[i] == 0 || mask[i] == 255);
    }
    let d = open_disagreement(rule, width, height, cells);
    let e = |i: int| difference[i] as int;
    let v = |i: int| preference[i] as int;
    let u = |i: int|
        if fixed[i] == 0 {
            preference[i] as int
        } else {
            0
        };
    assert forall|i: int| 0 <= i < count implies d(i) == #[trigger] e(i) by {
        assert(fixed[i] == 0 <==> is_open(rule, width, height, cells, i));
    }
    assert forall|i: int| 0 <= i < count implies v(i) == #[trigger] u(i) by {
        assert(fixed[i] == 0 || preference[i] == 0);
    }
    assert forall|i: int| #![trigger fixed[i]] 0 <= i < count && fixed[i] == 1 implies labels[i]
        && other[i] by {
        assert(labels[i] == labels[i] && other[i] == other[i]);
    }
    assert forall|i: int| #![trigger fixed[i]] 0 <= i < count && fixed[i] == -1 implies !labels[i]
        && !other[i] by {
        assert(labels[i] == labels[i] && other[i] == other[i]);
    }
    law_boundaries_run_where_they_cost_least(
        width,
        height,
        preference,
        difference,
        fixed,
        labels,
        other,
    );
    lemma_same_price(width, height, e, d, labels);
    lemma_same_price(width, height, e, d, other);
    lemma_sum_same(won_votes(u, labels), won_votes(v, labels), 0, count);
    lemma_sum_same(won_votes(u, other), won_votes(v, other), 0, count);
    if is_cheapest(width, height, preference, difference, fixed, other) {
        assert(side_within(labels, other));
    }
}

proof fn lemma_same_price(
    width: int,
    height: int,
    first: spec_fn(int) -> int,
    second: spec_fn(int) -> int,
    labels: Seq<bool>,
)
    requires
        0 < width,
        labels.len() == width * height,
        forall|i: int| 0 <= i < labels.len() ==> second(i) == #[trigger] first(i),
    ensures
        sum_range(boundary_price(width, height, first, labels), 0, labels.len() as int)
            == sum_range(boundary_price(width, height, second, labels), 0, labels.len() as int),
{
    let f = boundary_price(width, height, first, labels);
    let g = boundary_price(width, height, second, labels);
    assert forall|i: int| 0 <= i < labels.len() implies #[trigger] g(i) == f(i) by {
        lemma_split(width, height, i);
        assert(second(i) == first(i));
        if i % width + 1 < width {
            crate::grid::lemma_cell(width, height, i % width + 1, i / width);
            assert(second(i + 1) == first(i + 1));
        }
        if i / width + 1 < height {
            crate::grid::lemma_row_below(width, i % width, i / width);
            crate::grid::lemma_cell(width, height, i % width, i / width + 1);
            assert(second(i + width) == first(i + width));
        }
    }
    lemma_sum_same(f, g, 0, labels.len() as int);
}

proof fn lemma_seeded(
    rule: OwnershipRule,
    width: int,
    height: int,
    cells: Seq<CellEvidence>,
    mask: Seq<u8>,
    i: int,
)
    requires
        0 < width,
        cells.len() == width * height,
        is_evidence(cells),
        is_decision(rule, width, height, cells, mask),
        0 <= i < cells.len(),
    ensures
        seeds(rule, width, height, cells)[i] == 1 ==> mask[i] > 0,
        seeds(rule, width, height, cells)[i] == -1 ==> mask[i] == 0,
{
    let preference = votes(rule, width, height, cells);
    let difference = disagreements(rule, width, height, cells);
    let fixed = seeds(rule, width, height, cells);
    let labels = mask_labels(mask);
    assert forall|j: int| 0 <= j < difference.len() implies 0 <= #[trigger] difference[j]
        <= OWNERSHIP_UNIT by {
        assert(0 <= cells[j].disagreement <= OWNERSHIP_UNIT);
    }
    lemma_split(width, height, i);
    lemma_incident(width, height, difference, i);
    if fixed[i] == 1 || fixed[i] == -1 {
        law_seeds_are_obeyed(width, height, preference, difference, fixed, labels, i);
        assert(labels[i] == (mask[i] > 0));
    }
}

/// A frame that opens a camera position is entered through a seam alone: every open cell costs
/// it the same, so among labellings that give it equally many open cells, none has cheaper
/// boundaries than the mask.
pub proof fn law_transitions_follow_the_agreement(
    width: int,
    height: int,
    cells: Seq<CellEvidence>,
    mask: Seq<u8>,
    other: Seq<bool>,
)
    requires
        0 < width,
        cells.len() == width * height,
        is_evidence(cells),
        is_decision(OwnershipRule::Transition, width, height, cells, mask),
        other.len() == cells.len(),
        keeps_closed_cells(OwnershipRule::Transition, width, height, cells, other),
    ensures
        ({
            let rule = OwnershipRule::Transition;
            let labels = Seq::new(mask.len(), |i: int| mask[i] == 255);
            let count = cells.len() as int;
            let d = open_disagreement(rule, width, height, cells);
            let taken = |i: int|
                if labels[i] && is_open(rule, width, height, cells, i) {
                    1int
                } else {
                    0int
                };
            let other_taken = |i: int|
                if other[i] && is_open(rule, width, height, cells, i) {
                    1int
                } else {
                    0int
                };
            sum_range(boundary_price(width, height, d, labels), 0, count) + 750_000_000 * sum_range(
                taken,
                0,
                count,
            ) <= sum_range(boundary_price(width, height, d, other), 0, count) + 750_000_000
                * sum_range(other_taken, 0, count)
        }),
{
    let rule = OwnershipRule::Transition;
    let labels = Seq::new(mask.len(), |i: int| mask[i] == 255);
    let count = cells.len() as int;
    law_seams_run_where_sources_agree(rule, width, height, cells, mask, other);
    let v = |i: int| votes(rule, width, height, cells)[i] as int;
    assert forall|i: int| 0 <= i < count implies #[trigger] v(i) == if is_open(
        rule,
        width,
        height,
        cells,
        i,
    ) {
        -750_000_000int
    } else {
        0
    } by {
        lemma_split(width, height, i);
        assert(seeds(rule, width, height, cells)[i] == 0 <==> is_open(
            rule,
            width,
            height,
            cells,
            i,
        ));
    }
    let taken = |i: int|
        if labels[i] && is_open(rule, width, height, cells, i) {
            1int
        } else {
            0int
        };
    let other_taken = |i: int|
        if other[i] && is_open(rule, width, height, cells, i) {
            1int
        } else {
            0int
        };
    lemma_even_votes(v, labels, taken, count);
    lemma_even_votes(v, other, other_taken, count);
}

proof fn lemma_even_votes(
    votes: spec_fn(int) -> int,
    labels: Seq<bool>,
    taken: spec_fn(int) -> int,
    count: int,
)
    requires
        forall|i: int|
            0 <= i < count ==> #[trigger] won_votes(votes, labels)(i) == -750_000_000 * taken(i),
    ensures
        sum_range(won_votes(votes, labels), 0, count) == -750_000_000 * sum_range(taken, 0, count),
    decreases count,
{
    if count > 0 {
        lemma_even_votes(votes, labels, taken, count - 1);
        let i = count - 1;
        assert(won_votes(votes, labels)(i) == -750_000_000 * taken(i));
    }
}

/// The vote of an open cell: 0.75 against a frame that opens a camera position; otherwise what
/// the sharpness says less what the disagreement takes off. Closed cells have none.
pub proof fn law_votes_of_open_cells(
    rule: OwnershipRule,
    width: int,
    height: int,
    cells: Seq<CellEvidence>,
    i: int,
)
    requires
        0 < width,
        cells.len() == width * height,
        is_evidence(cells),
        0 <= i < cells.len(),
    ensures
        ({
            let vote = votes(rule, width, height, cells)[i];
            let scale = energy_scale(cells, seeds(rule, width, height, cells));
            let (candidate, base) = (cells[i].candidate_energy as int, cells[i].base_energy as int);
            if !is_open(rule, width, height, cells, i) {
                vote == 0
            } else if rule == OwnershipRule::Transition {
                vote == -750_000_000
            } else {
                vote + mismatch(cells[i].disagreement as int, candidate, base) == sharpness_vote(
                    candidate,
                    base,
                    scale,
                )
            }
        }),
{
    lemma_split(width, height, i);
    let labels = seeds(rule, width, height, cells);
    let scale = energy_scale(cells, labels);
    lemma_scale_is_positive(cells, labels);
    assert(labels[i] == 0 <==> is_open(rule, width, height, cells, i));
    assert(0 <= cells[i].disagreement <= OWNERSHIP_UNIT);
    let (candidate, base) = (cells[i].candidate_energy as int, cells[i].base_energy as int);
    law_sharpness_votes_measure_the_lead(candidate, base, scale);
    law_disagreement_takes_off_at_most_one(cells[i].disagreement as int, candidate, base);
}

/// The vote for sharpness has the sign of the candidate's lead over the canvas and its margin of
/// six per cent, and is the lead in units of the scale, without its fraction, up to twelve.
pub proof fn law_sharpness_votes_measure_the_lead(candidate: int, base: int, scale: int)
    requires
        0 < scale,
    ensures
        ({
            let vote = sharpness_vote(candidate, base, scale);
            let size = if vote < 0 {
                -vote
            } else {
                vote
            };
            let lead = 100 * candidate - 106 * base;
            let distance = if lead < 0 {
                -lead
            } else {
                lead
            };
            &&& lead <= 0 ==> vote <= 0
            &&& lead >= 0 ==> vote >= 0
            &&& size <= 12_000_000_000
            &&& (100 * scale) * size <= 1_000_000_000 * distance
            &&& size < 12_000_000_000 ==> 1_000_000_000 * distance < (100 * scale) * (size + 1)
        }),
{
    let lead = 100 * candidate - 106 * base;
    let distance = if lead < 0 {
        -lead
    } else {
        lead
    };
    let q = distance * OWNERSHIP_UNIT / (100 * scale);
    let unit = 100 * scale;
    let total = distance * OWNERSHIP_UNIT;
    vstd::arithmetic::div_mod::lemma_fundamental_div_mod(total, unit);
    assert(unit * (q + 1) == unit * q + unit) by (nonlinear_arith);
    assert(0 <= q) by (nonlinear_arith)
        requires
            q == total / unit,
            total >= 0,
            unit > 0,
    ;
    if q > 12_000_000_000 {
        assert(unit * 12_000_000_000 <= unit * q) by (nonlinear_arith)
            requires
                12_000_000_000 <= q,
                0 < unit,
        ;
    }
}

/// The disagreement takes 2.4 times as much off the vote, without its fraction, but at most one;
/// of a candidate with more than 1.2544 times the energy of the canvas only 0.72 times as much.
pub proof fn law_disagreement_takes_off_at_most_one(disagreement: int, candidate: int, base: int)
    requires
        0 <= disagreement <= 1_000_000_000,
    ensures
        ({
            let cost = mismatch(disagreement, candidate, base);
            let hundredfold = if 10_000 * candidate > 12_544 * base {
                72 * disagreement
            } else {
                240 * disagreement
            };
            &&& 0 <= cost <= 1_000_000_000
            &&& 100 * cost <= hundredfold
            &&& cost < 1_000_000_000 ==> hundredfold < 100 * (cost + 1)
        }),
{
    let percent = if 10_000 * candidate > 12_544 * base {
        72int
    } else {
        240int
    };
    assert(disagreement * percent == percent * disagreement) by (nonlinear_arith);
}

/// The scale of the votes is the mean energy of both sources over the open cells, without its
/// fraction, but never less than its floor.
pub proof fn law_votes_are_scaled_by_the_mean_energy(
    rule: OwnershipRule,
    width: int,
    height: int,
    cells: Seq<CellEvidence>,
)
    requires
        0 < width,
        cells.len() == width * height,
    ensures
        ({
            let scale = energy_scale(cells, seeds(rule, width, height, cells));
            let sources = sum_range(
                |i: int|
                    if is_open(rule, width, height, cells, i) {
                        2int
                    } else {
                        0int
                    },
                0,
                cells.len() as int,
            );
            let total = sum_range(
                |i: int|
                    if is_open(rule, width, height, cells, i) {
                        cells[i].candidate_energy + cells[i].base_energy
                    } else {
                        0int
                    },
                0,
                cells.len() as int,
            );
            &&& scale >= 1_000_000_000
            &&& sources > 0 ==> total < sources * (scale + 1)
            &&& scale > 1_000_000_000 ==> sources * scale <= total
        }),
{
    let labels = seeds(rule, width, height, cells);
    let n = cells.len() as int;
    let f = |i: int|
        if is_open(rule, width, height, cells, i) {
            2int
        } else {
            0int
        };
    let g = |i: int|
        if is_open(rule, width, height, cells, i) {
            cells[i].candidate_energy + cells[i].base_energy
        } else {
            0int
        };
    assert forall|i: int| 0 <= i < n implies (#[trigger] labels[i] == 0 <==> is_open(
        rule,
        width,
        height,
        cells,
        i,
    )) by {
        lemma_split(width, height, i);
    }
    lemma_open_sums(rule, width, height, cells, n);
    let total = contested_energy(cells, labels, n);
    let count = contested_count(labels, n);
    let divisor = 2 * if count < 1 {
        1
    } else {
        count
    };
    vstd::arithmetic::div_mod::lemma_fundamental_div_mod(total, divisor);
    let mean = total / divisor;
    let scale = energy_scale(cells, labels);
    assert(divisor * (mean + 1) == divisor * mean + divisor) by (nonlinear_arith);
    assert(divisor * (mean + 1) <= divisor * (scale + 1)) by (nonlinear_arith)
        requires
            mean <= scale,
            divisor > 0,
    ;
    if count < 1 {
        assert(total == 0);
    }
}

proof fn lemma_open_sums(
    rule: OwnershipRule,
    width: int,
    height: int,
    cells: Seq<CellEvidence>,
    n: int,
)
    requires
        0 < width,
        0 <= n <= cells.len(),
        forall|i: int|
            0 <= i < n ==> (#[trigger] seeds(rule, width, height, cells)[i] == 0 <==> is_open(
                rule,
                width,
                height,
                cells,
                i,
            )),
    ensures
        2 * contested_count(seeds(rule, width, height, cells), n) == sum_range(
            |i: int|
                if is_open(rule, width, height, cells, i) {
                    2int
                } else {
                    0int
                },
            0,
            n,
        ),
        contested_energy(cells, seeds(rule, width, height, cells), n) == sum_range(
            |i: int|
                if is_open(rule, width, height, cells, i) {
                    cells[i].candidate_energy + cells[i].base_energy
                } else {
                    0int
                },
            0,
            n,
        ),
        contested_count(seeds(rule, width, height, cells), n) >= 0,
        contested_count(seeds(rule, width, height, cells), n) == 0 ==> contested_energy(
            cells,
            seeds(rule, width, height, cells),
            n,
        ) == 0,
    decreases n,
{
    if n > 0 {
        lemma_open_sums(rule, width, height, cells, n - 1);
        assert(seeds(rule, width, height, cells)[n - 1] == 0 <==> is_open(
            rule,
            width,
            height,
            cells,
            n - 1,
        ));
    }
}

} // verus!
