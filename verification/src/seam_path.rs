//! The cheapest seam through the overlap of two images.
//!
//! The overlap is sampled on a grid: rows of samples along the seam, samples of a
//! row across it. Energies are fixed-point numbers in units of one billionth.

use vstd::prelude::*;

use crate::grid::cell;
use crate::grid::lemma_cell;
use crate::grid::lemma_split;
use crate::window::sum_range;

verus! {

/// The sampling grid has about this many steps in its longer direction at most.
pub const MAX_GRID_DIMENSION: u32 = 2_400;

/// Extra energy per sample by which a sample is closer to the border of the
/// overlap than `BORDER_DISTANCE`.
pub const BORDER_PENALTY: u64 = 10_000_000;

pub const BORDER_DISTANCE: usize = 6;

/// The largest energy of a sample.
pub const MAX_SEAM_ENERGY: u64 = 0xffff_ffff_ffff;

/// A seam runs from top to bottom, or from left to right.
#[derive(Clone, Copy, Debug, PartialEq, Eq, Structural)]
pub enum SeamOrientation {
    Vertical,
    Horizontal,
}

/// The sampling of an overlap.
#[derive(Clone, Copy, Debug, PartialEq, Eq, Structural)]
pub struct SeamGrid {
    pub along_min: u32,
    pub along_max: u32,
    pub cross_min: u32,
    pub cross_max: u32,
    /// Pixels from one sample to the next.
    pub step: u32,
    /// Rows of samples.
    pub along_count: usize,
    /// Samples of a row.
    pub cross_count: usize,
}

/// The quotient rounded up.
pub open spec fn ceiling(value: int, divisor: int) -> int {
    (value + divisor - 1) / divisor
}

/// The distance between two samples for the longer side of an overlap.
pub open spec fn sample_step(along_span: int, cross_span: int) -> int {
    let longest = if along_span > cross_span {
        along_span
    } else {
        cross_span
    };
    let step = ceiling(longest, MAX_GRID_DIMENSION as int);
    if step < 1 {
        1
    } else {
        step
    }
}

impl SeamGrid {
    pub open spec fn well_formed(&self) -> bool {
        &&& self.along_min <= self.along_max
        &&& self.cross_min <= self.cross_max
        &&& self.step == sample_step(
            self.along_max - self.along_min,
            self.cross_max - self.cross_min,
        )
        &&& 0 < self.step
        &&& self.along_count == ceiling(self.along_max - self.along_min, self.step as int) + 1
        &&& self.cross_count == ceiling(self.cross_max - self.cross_min, self.step as int) + 1
        &&& 2 <= self.along_count <= MAX_GRID_DIMENSION + 1
        &&& 2 <= self.cross_count <= MAX_GRID_DIMENSION + 1
    }
}

fn divide_up(value: u32, divisor: u32) -> (quotient: u32)
    requires
        divisor > 0,
    ensures
        quotient == ceiling(value as int, divisor as int),
{
    proof {
        lemma_ceiling_small(value as int, divisor as int);
    }
    (((value as u64) + (divisor as u64) - 1) / (divisor as u64)) as u32
}

proof fn lemma_ceiling_bound(value: int, divisor: int, most: int)
    requires
        0 <= value <= divisor * most,
        0 < divisor,
    ensures
        0 <= ceiling(value, divisor) <= most,
        value <= ceiling(value, divisor) * divisor,
        (ceiling(value, divisor) - 1) * divisor < value || ceiling(value, divisor) == 0,
{
    let q = ceiling(value, divisor);
    vstd::arithmetic::div_mod::lemma_fundamental_div_mod(value + divisor - 1, divisor);
    let r = (value + divisor - 1) % divisor;
    assert(divisor * q == q * divisor) by (nonlinear_arith);
    assert(q <= most) by (nonlinear_arith)
        requires
            q * divisor + r == value + divisor - 1,
            0 <= r < divisor,
            value <= divisor * most,
            0 < divisor,
    ;
    assert(0 <= q) by (nonlinear_arith)
        requires
            q * divisor + r == value + divisor - 1,
            0 <= r < divisor,
            0 <= value,
            0 < divisor,
    ;
    assert((q - 1) * divisor == q * divisor - divisor) by (nonlinear_arith);
}

proof fn lemma_ceiling_small(value: int, divisor: int)
    requires
        0 <= value,
        0 < divisor,
    ensures
        value <= ceiling(value, divisor) * divisor,
        0 <= ceiling(value, divisor) <= value,
{
    assert(value <= divisor * value) by (nonlinear_arith)
        requires
            0 <= value,
            1 <= divisor,
    ;
    lemma_ceiling_bound(value, divisor, value);
}

/// How the overlap is sampled; nothing for an overlap with fewer than two rows of
/// samples or two samples in a row.
pub fn plan_seam_grid(
    orientation: SeamOrientation,
    min_x: u32,
    max_x: u32,
    min_y: u32,
    max_y: u32,
) -> (grid: Option<SeamGrid>)
    ensures
        grid is Some <==> min_x < max_x && min_y < max_y,
        grid matches Some(g) ==> g.well_formed() && (orientation == SeamOrientation::Vertical
            ==> g.along_min == min_y && g.along_max == max_y && g.cross_min == min_x && g.cross_max
            == max_x) && (orientation == SeamOrientation::Horizontal ==> g.along_min == min_x
            && g.along_max == max_x && g.cross_min == min_y && g.cross_max == max_y),
{
    let (along_min, along_max, cross_min, cross_max): (u32, u32, u32, u32) = match orientation {
        SeamOrientation::Vertical => (min_y, max_y, min_x, max_x),
        SeamOrientation::Horizontal => (min_x, max_x, min_y, max_y),
    };
    if along_min > along_max || cross_min > cross_max {
        return None;
    }
    let along_span: u32 = along_max - along_min;
    let cross_span: u32 = cross_max - cross_min;
    let longest: u32 = if along_span > cross_span {
        along_span
    } else {
        cross_span
    };
    let mut step: u32 = divide_up(longest, MAX_GRID_DIMENSION);
    if step < 1 {
        step = 1;
    }
    let along_steps: u32 = divide_up(along_span, step);
    let cross_steps: u32 = divide_up(cross_span, step);
    proof {
        lemma_ceiling_small(longest as int, MAX_GRID_DIMENSION as int);
        lemma_ceiling_bound(along_span as int, step as int, MAX_GRID_DIMENSION as int);
        lemma_ceiling_bound(cross_span as int, step as int, MAX_GRID_DIMENSION as int);
        assert(along_steps == 0 ==> along_span == 0) by (nonlinear_arith)
            requires
                along_span <= along_steps * step,
        ;
        assert(cross_steps == 0 ==> cross_span == 0) by (nonlinear_arith)
            requires
                cross_span <= cross_steps * step,
        ;
    }
    if along_steps < 1 || cross_steps < 1 {
        proof {
            if along_span > 0 {
                assert(along_steps >= 1);
            }
            if along_span == 0 {
                assert(min_x == max_x || min_y == max_y);
            }
            if cross_span == 0 {
                assert(min_x == max_x || min_y == max_y);
            }
        }
        return None;
    }
    proof {
        if along_span == 0 {
            assert((0 + step - 1) / step as int == 0) by (nonlinear_arith)
                requires
                    step > 0,
            ;
        }
        if cross_span == 0 {
            assert((0 + step - 1) / step as int == 0) by (nonlinear_arith)
                requires
                    step > 0,
            ;
        }
    }
    Some(
        SeamGrid {
            along_min,
            along_max,
            cross_min,
            cross_max,
            step,
            along_count: along_steps as usize + 1,
            cross_count: cross_steps as usize + 1,
        },
    )
}

/// The pixel of sample `index`, no further than the end of the overlap.
pub open spec fn sample_position(minimum: int, maximum: int, step: int, index: int) -> int {
    if minimum + index * step > maximum {
        maximum
    } else {
        minimum + index * step
    }
}

/// The pixel of sample `index`.
pub fn coordinate(minimum: u32, maximum: u32, step: u32, index: usize) -> (position: u32)
    requires
        minimum <= maximum,
        index <= MAX_GRID_DIMENSION,
    ensures
        position == sample_position(minimum as int, maximum as int, step as int, index as int),
{
    assert(0 <= index * step <= MAX_GRID_DIMENSION * 0xffff_ffff) by (nonlinear_arith)
        requires
            0 <= index <= MAX_GRID_DIMENSION,
            0 <= step <= 0xffff_ffff,
    ;
    let position: u64 = (minimum as u64) + (index as u64) * (step as u64);
    if position > maximum as u64 {
        maximum
    } else {
        position as u32
    }
}

/// The energy of a sample with the penalty for tracing the border of the overlap.
pub open spec fn sample_energy(
    energies: Seq<Option<u64>>,
    cross: int,
    i: int,
    c: int,
) -> Option<int> {
    let distance = if c < cross - 1 - c {
        c
    } else {
        cross - 1 - c
    };
    match energies[cell(cross, c, i)] {
        None => None,
        Some(energy) => Some(
            energy + if distance < BORDER_DISTANCE {
                (BORDER_DISTANCE - distance) * BORDER_PENALTY
            } else {
                0
            },
        ),
    }
}

/// Some sample of the row lies on a path.
pub open spec fn is_active(costs: Seq<Option<int>>) -> bool {
    exists|c: int| 0 <= c < costs.len() && (#[trigger] costs[c]) is Some
}

/// `b` is cheaper than `a`.
pub open spec fn cheaper(costs: Seq<Option<int>>, a: Option<int>, b: int) -> bool {
    &&& 0 <= b < costs.len()
    &&& costs[b] is Some
    &&& a is None || costs[b]->0 < costs[a->0]->0
}

/// The cheaper of the two, `a` where they cost the same.
pub open spec fn better(costs: Seq<Option<int>>, a: Option<int>, b: int) -> Option<int> {
    if cheaper(costs, a, b) {
        Some(b)
    } else {
        a
    }
}

/// The cheapest sample of the row before that a path can come from: the first of
/// the three next to `c`.
pub open spec fn best_neighbour(costs: Seq<Option<int>>, c: int) -> Option<int> {
    better(costs, better(costs, better(costs, None, c - 1), c), c + 1)
}

/// The cost of the cheapest path to a sample, given the costs of the row before. A
/// path starts anew where the row before lies on none.
pub open spec fn next_cost(before: Seq<Option<int>>, energy: Option<int>, c: int) -> Option<int> {
    match energy {
        None => None,
        Some(k) => if !is_active(before) {
            Some(k)
        } else {
            match best_neighbour(before, c) {
                None => None,
                Some(p) => Some(before[p]->0 + k),
            }
        },
    }
}

/// The costs of the cheapest paths to the samples of row `i`.
pub open spec fn costs_row(energies: Seq<Option<u64>>, cross: int, i: int) -> Seq<Option<int>>
    decreases i,
{
    if i <= 0 {
        Seq::new(cross as nat, |c: int| sample_energy(energies, cross, 0, c))
    } else {
        let before = costs_row(energies, cross, i - 1);
        Seq::new(
            cross as nat,
            |c: int| next_cost(before, sample_energy(energies, cross, i, c), c),
        )
    }
}

/// The row in which the paths through row `i` start.
pub open spec fn block_start(energies: Seq<Option<u64>>, cross: int, i: int) -> int
    decreases i,
{
    if i <= 0 {
        0
    } else if !is_active(costs_row(energies, cross, i - 1)) {
        i
    } else {
        block_start(energies, cross, i - 1)
    }
}

/// The last row that lies on a path, among the first `rows`.
pub open spec fn last_active(energies: Seq<Option<u64>>, cross: int, rows: int) -> Option<int>
    decreases rows,
{
    if rows <= 0 {
        None
    } else if is_active(costs_row(energies, cross, rows - 1)) {
        Some(rows - 1)
    } else {
        last_active(energies, cross, rows - 1)
    }
}

/// Consecutive samples of a path are at most one column apart and can be
/// crossed.
pub open spec fn is_path(
    energies: Seq<Option<u64>>,
    cross: int,
    path: Seq<int>,
    start: int,
    end: int,
) -> bool {
    &&& forall|i: int|
        #![trigger path[i]]
        start <= i <= end ==> 0 <= path[i] < cross && sample_energy(
            energies,
            cross,
            i,
            path[i],
        ) is Some
    &&& forall|i: int| start < i <= end ==> #[trigger] is_near(path, i)
}

pub open spec fn is_near(path: Seq<int>, i: int) -> bool {
    path[i - 1] - 1 <= path[i] <= path[i - 1] + 1
}

/// The energy along a path.
pub open spec fn path_cost(
    energies: Seq<Option<u64>>,
    cross: int,
    path: Seq<int>,
    start: int,
    end: int,
) -> int
    decreases end - start + 1,
{
    if end < start {
        0
    } else {
        path_cost(energies, cross, path, start, end - 1) + sample_energy(
            energies,
            cross,
            end,
            path[end],
        )->0
    }
}

/// The first of the cheapest samples of a row.
pub open spec fn is_first_cheapest(costs: Seq<Option<int>>, c: int) -> bool {
    &&& 0 <= c < costs.len()
    &&& costs[c] is Some
    &&& forall|d: int|
        #![trigger costs[d]]
        0 <= d < costs.len() && costs[d] is Some ==> costs[c]->0 <= costs[d]->0 && (d < c
            ==> costs[c]->0 < costs[d]->0)
}

/// The path that leads back from the cheapest sample of row `end` to row `start`,
/// always over the first of the cheapest samples next to it.
pub open spec fn is_traced(
    energies: Seq<Option<u64>>,
    cross: int,
    path: Seq<int>,
    start: int,
    end: int,
) -> bool {
    &&& is_first_cheapest(costs_row(energies, cross, end), path[end])
    &&& forall|i: int| start < i <= end ==> #[trigger] comes_from(energies, cross, path, i)
}

pub open spec fn comes_from(
    energies: Seq<Option<u64>>,
    cross: int,
    path: Seq<int>,
    i: int,
) -> bool {
    best_neighbour(costs_row(energies, cross, i - 1), path[i]) == Some(path[i - 1])
}

proof fn lemma_best_neighbour(costs: Seq<Option<int>>, c: int)
    ensures
        best_neighbour(costs, c) matches Some(p) ==> 0 <= p < costs.len() && costs[p] is Some && c
            - 1 <= p <= c + 1,
        forall|d: int|
            #![trigger costs[d]]
            0 <= d < costs.len() && costs[d] is Some && c - 1 <= d <= c + 1 ==> best_neighbour(
                costs,
                c,
            ) is Some && costs[best_neighbour(costs, c)->0]->0 <= costs[d]->0 && (d
                < best_neighbour(costs, c)->0 ==> costs[best_neighbour(costs, c)->0]->0
                < costs[d]->0),
{
}

/// A block is a run of rows that lie on paths.
proof fn lemma_block(energies: Seq<Option<u64>>, cross: int, i: int)
    requires
        0 <= i,
    ensures
        0 <= block_start(energies, cross, i) <= i,
        block_start(energies, cross, i) == 0 || !is_active(
            costs_row(energies, cross, block_start(energies, cross, i) - 1),
        ),
        forall|j: int|
            block_start(energies, cross, i) < j <= i ==> is_active(
                #[trigger] costs_row(energies, cross, j - 1),
            ),
    decreases i,
{
    if i > 0 && is_active(costs_row(energies, cross, i - 1)) {
        lemma_block(energies, cross, i - 1);
        assert forall|j: int| block_start(energies, cross, i) < j <= i implies is_active(
            #[trigger] costs_row(energies, cross, j - 1),
        ) by {}
    }
}

/// No path of a block is cheaper than the cost that the samples carry.
proof fn lemma_no_cheaper_path(
    energies: Seq<Option<u64>>,
    cross: int,
    path: Seq<int>,
    start: int,
    end: int,
)
    requires
        0 <= start <= end,
        start == 0 || !is_active(costs_row(energies, cross, start - 1)),
        forall|j: int|
            start < j <= end ==> is_active(#[trigger] costs_row(energies, cross, j - 1)),
        is_path(energies, cross, path, start, end),
    ensures
        costs_row(energies, cross, end)[path[end]] is Some,
        costs_row(energies, cross, end)[path[end]]->0 <= path_cost(
            energies,
            cross,
            path,
            start,
            end,
        ),
    decreases end - start,
{
    let c = path[end];
    let row = costs_row(energies, cross, end);
    assert(row[c] == if end <= 0 {
        sample_energy(energies, cross, 0, c)
    } else {
        next_cost(
            costs_row(energies, cross, end - 1),
            sample_energy(energies, cross, end, c),
            c,
        )
    });
    if end == start {
        assert(path_cost(energies, cross, path, start, end - 1) == 0);
    } else {
        lemma_no_cheaper_path(energies, cross, path, start, end - 1);
        let before = costs_row(energies, cross, end - 1);
        assert(is_near(path, end));
        lemma_best_neighbour(before, c);
        assert(before[path[end - 1]] is Some);
        assert(is_active(before));
    }
}

/// The traced path costs exactly what its last sample carries, and can be walked.
proof fn lemma_traced_cost(
    energies: Seq<Option<u64>>,
    cross: int,
    path: Seq<int>,
    start: int,
    end: int,
)
    requires
        0 <= start <= end,
        start == 0 || !is_active(costs_row(energies, cross, start - 1)),
        forall|j: int|
            start < j <= end ==> is_active(#[trigger] costs_row(energies, cross, j - 1)),
        forall|i: int| start < i <= end ==> #[trigger] comes_from(energies, cross, path, i),
        0 <= path[end] < cross,
        costs_row(energies, cross, end)[path[end]] is Some,
    ensures
        is_path(energies, cross, path, start, end),
        path_cost(energies, cross, path, start, end) == costs_row(
            energies,
            cross,
            end,
        )[path[end]]->0,
    decreases end - start,
{
    let c = path[end];
    let row = costs_row(energies, cross, end);
    assert(row[c] == if end <= 0 {
        sample_energy(energies, cross, 0, c)
    } else {
        next_cost(
            costs_row(energies, cross, end - 1),
            sample_energy(energies, cross, end, c),
            c,
        )
    });
    if end == start {
        assert(path_cost(energies, cross, path, start, end - 1) == 0);
    } else {
        let before = costs_row(energies, cross, end - 1);
        assert(comes_from(energies, cross, path, end));
        lemma_best_neighbour(before, c);
        lemma_traced_cost(energies, cross, path, start, end - 1);
        assert(is_near(path, end));
    }
}

/// No seam through the last block of rows that can be crossed is cheaper than the
/// one that is traced.
pub proof fn law_seam_is_cheapest(
    energies: Seq<Option<u64>>,
    cross: int,
    path: Seq<int>,
    other: Seq<int>,
    end: int,
)
    requires
        0 <= end,
        is_active(costs_row(energies, cross, end)),
        is_traced(energies, cross, path, block_start(energies, cross, end), end),
        is_path(energies, cross, other, block_start(energies, cross, end), end),
    ensures
        is_path(energies, cross, path, block_start(energies, cross, end), end),
        path_cost(energies, cross, path, block_start(energies, cross, end), end) <= path_cost(
            energies,
            cross,
            other,
            block_start(energies, cross, end),
            end,
        ),
{
    let start = block_start(energies, cross, end);
    lemma_block(energies, cross, end);
    lemma_costs_len(energies, cross, end);
    lemma_no_cheaper_path(energies, cross, other, start, end);
    lemma_traced_cost(energies, cross, path, start, end);
}

proof fn lemma_costs_len(energies: Seq<Option<u64>>, cross: int, i: int)
    ensures
        costs_row(energies, cross, i).len() == cross as nat,
{
}

/// How a path reaches a sample.
#[derive(Clone, Copy)]
enum Arrival {
    Never,
    Start,
    From(usize),
}

/// What the forward pass leaves behind for the samples of row `i`.
spec fn arrives(
    energies: Seq<Option<u64>>,
    cross: int,
    i: int,
    c: int,
    arrival: Arrival,
) -> bool {
    let costs = costs_row(energies, cross, i);
    match arrival {
        Arrival::Never => costs[c] is None,
        Arrival::Start => costs[c] is Some && block_start(energies, cross, i) == i,
        Arrival::From(p) => costs[c] is Some && i > 0 && block_start(energies, cross, i) < i
            && best_neighbour(costs_row(energies, cross, i - 1), c) == Some(p as int),
    }
}

spec fn holds_costs(costs: Seq<Option<u64>>, row: Seq<Option<int>>) -> bool {
    &&& costs.len() == row.len()
    &&& forall|c: int|
        #![trigger costs[c]]
        #![trigger row[c]]
        0 <= c < row.len() ==> match costs[c] {
            None => row[c] is None,
            Some(k) => row[c] == Some(k as int),
        }
}

/// The energies fit the grid and cannot overflow a sum.
pub open spec fn fits_grid(energies: Seq<Option<u64>>, grid: &SeamGrid) -> bool {
    &&& energies.len() == grid.along_count * grid.cross_count
    &&& forall|i: int|
        #![trigger energies[i]]
        0 <= i < energies.len() ==> match energies[i] {
            None => true,
            Some(energy) => energy <= MAX_SEAM_ENERGY,
        }
}

/// The border penalty is bounded.
fn border_penalty(cross_index: usize, cross_count: usize) -> (penalty: u64)
    requires
        cross_index < cross_count,
    ensures
        penalty <= 60_000_000,
        penalty == {
            let distance = if cross_index < cross_count - 1 - cross_index {
                cross_index as int
            } else {
                cross_count - 1 - cross_index
            };
            if distance < BORDER_DISTANCE {
                (BORDER_DISTANCE - distance) * BORDER_PENALTY
            } else {
                0
            }
        },
{
    let opposite: usize = cross_count - 1 - cross_index;
    let distance: usize = if cross_index < opposite {
        cross_index
    } else {
        opposite
    };
    if distance < BORDER_DISTANCE {
        ((BORDER_DISTANCE - distance) as u64) * BORDER_PENALTY
    } else {
        0
    }
}

/// The first of the cheapest samples next to `c`.
fn pick_neighbour(costs: &Vec<Option<u64>>, c: usize, Ghost(row): Ghost<Seq<Option<int>>>) -> (best:
    Option<(usize, u64)>)
    requires
        holds_costs(costs@, row),
        c < costs@.len(),
    ensures
        match best {
            None => best_neighbour(row, c as int) is None,
            Some((p, k)) => p < costs@.len() && best_neighbour(row, c as int) == Some(p as int)
                && row[p as int] == Some(k as int) && costs@[p as int] == Some(k),
        },
{
    let mut best: Option<(usize, u64)> = None;
    if c > 0 {
        match costs[c - 1] {
            Some(k) => {
                best = Some((c - 1, k));
            },
            None => {},
        }
    }
    proof {
        let ghost first = better(row, None, c - 1);
        assert(match best {
            None => first is None,
            Some((p, k)) => first == Some(p as int) && row[p as int] == Some(k as int),
        });
    }
    match costs[c] {
        Some(k) => {
            let replace: bool = match best {
                None => true,
                Some((_, other)) => k < other,
            };
            assert(row[c as int] == Some(k as int));
            if replace {
                best = Some((c, k));
            }
        },
        None => {},
    }
    if c < costs.len() - 1 {
        match costs[c + 1] {
            Some(k) => {
                let replace: bool = match best {
                    None => true,
                    Some((_, other)) => k < other,
                };
                assert(row[c + 1] == Some(k as int));
                if replace {
                    best = Some((c + 1, k));
                }
            },
            None => {},
        }
    }
    best
}

/// `samples` holds for every row of the grid the sample of the cheapest seam
/// through the last block of rows that can be crossed.
pub open spec fn is_seam(energies: Seq<Option<u64>>, grid: &SeamGrid, samples: Seq<usize>) -> bool {
    let cross = grid.cross_count as int;
    let positions = Seq::new(samples.len(), |i: int| samples[i] as int);
    let end = last_active(energies, cross, grid.along_count as int);
    &&& end is Some
    &&& samples.len() == grid.along_count
    &&& forall|i: int| 0 <= i < samples.len() ==> #[trigger] samples[i] < cross
    &&& is_traced(energies, cross, positions, block_start(energies, cross, end->0), end->0)
    &&& forall|i: int|
        0 <= i < block_start(energies, cross, end->0) ==> #[trigger] samples[i]
            == samples[block_start(energies, cross, end->0)]
    &&& forall|i: int| end->0 < i < samples.len() ==> #[trigger] samples[i] == samples[end->0]
}

/// The samples of the cheapest seam, one for every row of the grid; nothing where
/// no row can be crossed. Rows before the seam take its first sample, rows
/// behind it its last.
#[verifier::rlimit(40)]
pub fn find_seam_samples(grid: &SeamGrid, energies: &Vec<Option<u64>>) -> (path: Option<Vec<usize>>)
    requires
        grid.well_formed(),
        fits_grid(energies@, grid),
    ensures
        match path {
            None => last_active(
                energies@,
                grid.cross_count as int,
                grid.along_count as int,
            ) is None,
            Some(samples) => is_seam(energies@, grid, samples@),
        },
{
    let rows: usize = grid.along_count;
    let cross: usize = grid.cross_count;
    let ghost e = energies@;
    let ghost n = cross as int;
    let size: usize = energies.len();
    let mut previous: Vec<Option<u64>> = Vec::new();
    let mut arrivals: Vec<Arrival> = Vec::new();
    let mut last_row: Option<usize> = None;
    let mut last_costs: Vec<Option<u64>> = Vec::new();
    let mut was_active: bool = false;
    let mut i: usize = 0;
    while i < rows
        invariant
            i <= rows,
            rows == grid.along_count,
            cross == grid.cross_count,
            n == cross,
            e == energies@,
            size == rows * cross,
            size == e.len(),
            grid.well_formed(),
            fits_grid(e, grid),
            arrivals@.len() == i * cross,
            i > 0 ==> holds_costs(previous@, costs_row(e, n, i - 1)),
            i > 0 ==> forall|c: int|
                #![trigger previous@[c]]
                0 <= c < cross ==> match previous@[c] {
                    None => true,
                    Some(k) => k <= i * (MAX_SEAM_ENERGY + 60_000_000),
                },
            was_active == (i > 0 && is_active(costs_row(e, n, i - 1))),
            match last_row {
                None => last_active(e, n, i as int) is None,
                Some(r) => r < i && last_active(e, n, i as int) == Some(r as int) && holds_costs(
                    last_costs@,
                    costs_row(e, n, r as int),
                ),
            },
            forall|r: int, c: int|
                #![trigger arrivals@[cell(n, c, r)]]
                0 <= r < i && 0 <= c < n ==> arrives(e, n, r, c, arrivals@[cell(n, c, r)]),
        decreases rows - i,
    {
        let ghost before = costs_row(e, n, i - 1);
        let mut current: Vec<Option<u64>> = Vec::new();
        let mut active: bool = false;
        let mut c: usize = 0;
        let ghost arrivals_before = arrivals@;
        proof {
            lemma_block(e, n, i as int);
        }
        assert(block_start(e, n, i as int) == i <==> !was_active) by {
            if i > 0 {
                lemma_block(e, n, i - 1);
            }
        }
        while c < cross
            invariant
                c <= cross,
                i < rows,
                rows == grid.along_count,
                cross == grid.cross_count,
                n == cross,
                e == energies@,
                size == rows * cross,
                size == e.len(),
                grid.well_formed(),
                fits_grid(e, grid),
                before == costs_row(e, n, i - 1),
                i > 0 ==> holds_costs(previous@, before),
                i > 0 ==> forall|d: int|
                    #![trigger previous@[d]]
                    0 <= d < cross ==> match previous@[d] {
                        None => true,
                        Some(k) => k <= i * (MAX_SEAM_ENERGY + 60_000_000),
                    },
                was_active == (i > 0 && is_active(before)),
                block_start(e, n, i as int) == i <==> !was_active,
                block_start(e, n, i as int) <= i,
                current@.len() == c,
                active <==> exists|d: int| 0 <= d < c && (#[trigger] current@[d]) is Some,
                forall|d: int|
                    #![trigger current@[d]]
                    0 <= d < c ==> match current@[d] {
                        None => costs_row(e, n, i as int)[d] is None,
                        Some(k) => costs_row(e, n, i as int)[d] == Some(k as int) && k <= (i + 1) * (
                        MAX_SEAM_ENERGY + 60_000_000),
                    },
                arrivals@.len() == i * cross + c,
                arrivals_before.len() == i * cross,
                forall|k: int|
                    #![trigger arrivals@[k]]
                    0 <= k < i * cross ==> arrivals@[k] == arrivals_before[k],
                forall|d: int|
                    #![trigger arrivals@[i * cross + d]]
                    0 <= d < c ==> arrives(e, n, i as int, d, arrivals@[i * cross + d]),
            decreases cross - c,
        {
            proof {
                lemma_cell(n, rows as int, c as int, i as int);
                assert(n * rows == rows * n) by (nonlinear_arith);
                assert((i + 1) * (MAX_SEAM_ENERGY + 60_000_000) == i * (MAX_SEAM_ENERGY
                    + 60_000_000) + (MAX_SEAM_ENERGY + 60_000_000)) by (nonlinear_arith);
                assert(i * (MAX_SEAM_ENERGY + 60_000_000) <= 2_401 * (MAX_SEAM_ENERGY + 60_000_000))
                    by (nonlinear_arith)
                    requires
                        0 <= i <= 2_401,
                ;
                assert(0 <= i * (MAX_SEAM_ENERGY + 60_000_000)) by (nonlinear_arith);
                assert(costs_row(e, n, i as int)[c as int] == if i <= 0 {
                    sample_energy(e, n, 0, c as int)
                } else {
                    next_cost(before, sample_energy(e, n, i as int, c as int), c as int)
                });
            }
            let ghost so_far = current@;
            let ghost arrivals_so_far = arrivals@;
            let mut cost: Option<u64> = None;
            let mut arrival: Arrival = Arrival::Never;
            match energies[i * cross + c] {
                None => {},
                Some(energy) => {
                    assert(e[cell(n, c as int, i as int)] == Some(energy));
                    assert(energy <= MAX_SEAM_ENERGY);
                    let own: u64 = energy + border_penalty(c, cross);
                    assert(sample_energy(e, n, i as int, c as int) == Some(own as int));
                    if !was_active {
                        cost = Some(own);
                        arrival = Arrival::Start;
                    } else {
                        match pick_neighbour(&previous, c, Ghost(before)) {
                            None => {},
                            Some((p, k)) => {
                                assert(previous@[p as int] == Some(k));
                                cost = Some(k + own);
                                arrival = Arrival::From(p);
                            },
                        }
                    }
                },
            }
            if cost.is_some() {
                active = true;
            }
            current.push(cost);
            arrivals.push(arrival);
            proof {
                assert(current@[c as int] == cost);
                assert forall|d: int| 0 <= d < c implies current@[d] == #[trigger] so_far[d] by {}
                if exists|d: int| 0 <= d < c && (#[trigger] so_far[d]) is Some {
                    let d = choose|d: int| 0 <= d < c && (#[trigger] so_far[d]) is Some;
                    assert(current@[d] is Some);
                }
                if exists|d: int| 0 <= d < c + 1 && (#[trigger] current@[d]) is Some {
                    let d = choose|d: int| 0 <= d < c + 1 && (#[trigger] current@[d]) is Some;
                    if d < c {
                        assert(so_far[d] is Some);
                    }
                }
                assert(0 <= i * cross) by (nonlinear_arith);
                assert forall|d: int|
                    #![trigger arrivals@[i * cross + d]]
                    0 <= d < c + 1 implies arrives(
                    e,
                    n,
                    i as int,
                    d,
                    arrivals@[i * cross + d],
                ) by {
                    if d < c {
                        assert(arrivals@[i * cross + d] == arrivals_so_far[i * cross + d]);
                    } else {
                        assert(arrivals@[i * cross + d] == arrival);
                    }
                }
            }
            c += 1;
        }
        let ghost row = costs_row(e, n, i as int);
        proof {
            assert(holds_costs(current@, row));
            if active {
                let d = choose|d: int| 0 <= d < cross && (#[trigger] current@[d]) is Some;
                assert(row[d] is Some);
            }
            if is_active(row) {
                let d = choose|d: int| 0 <= d < row.len() && (#[trigger] row[d]) is Some;
                assert(current@[d] is Some);
            }
            assert((i + 1) * cross == i * cross + cross) by (nonlinear_arith);
            assert forall|r: int, d: int|
                #![trigger arrivals@[cell(n, d, r)]]
                0 <= r < i + 1 && 0 <= d < n implies arrives(e, n, r, d, arrivals@[cell(n, d, r)]) by {
                if r < i {
                    lemma_cell(n, i as int, d, r);
                    assert(n * i == i * cross) by (nonlinear_arith)
                        requires
                            n == cross,
                    ;
                    assert(arrivals@[cell(n, d, r)] == arrivals_before[cell(n, d, r)]);
                } else {
                    assert(cell(n, d, r) == i * cross + d);
                }
            }
        }
        if active {
            last_row = Some(i);
            last_costs = Vec::new();
            let mut d: usize = 0;
            while d < cross
                invariant
                    d <= cross,
                    cross == current@.len(),
                    last_costs@ == current@.take(d as int),
                decreases cross - d,
            {
                last_costs.push(current[d]);
                d += 1;
                assert(last_costs@ =~= current@.take(d as int));
            }
            assert(last_costs@ =~= current@);
        }
        was_active = active;
        previous = current;
        i += 1;
    }
    let end: usize = match last_row {
        None => {
            return None;
        },
        Some(r) => r,
    };
    let ghost start = block_start(e, n, end as int);
    proof {
        lemma_block(e, n, end as int);
        lemma_last_active(e, n, rows as int);
    }
    let first: usize = first_cheapest(&last_costs, Ghost(costs_row(e, n, end as int)));
    let mut path: Vec<usize> = Vec::new();
    let mut f: usize = 0;
    while f < rows
        invariant
            f <= rows,
            path@.len() == f,
            forall|j: int| 0 <= j < f ==> #[trigger] path@[j] == first,
        decreases rows - f,
    {
        path.push(first);
        f += 1;
    }
    let mut at: usize = end;
    let mut tracing: bool = true;
    proof {
        lemma_costs_len(e, n, end as int);
    }
    while tracing
        invariant
            tracing ==> start <= at,
            !tracing ==> at == start,
            at <= end < rows,
            rows == grid.along_count,
            cross == grid.cross_count,
            n == cross,
            e == energies@,
            size == rows * cross,
            arrivals@.len() == rows * cross,
            start == block_start(e, n, end as int),
            0 <= start <= end,
            start == 0 || !is_active(costs_row(e, n, start - 1)),
            forall|j: int| start < j <= end ==> is_active(#[trigger] costs_row(e, n, j - 1)),
            forall|r: int, c: int|
                #![trigger arrivals@[cell(n, c, r)]]
                0 <= r < rows && 0 <= c < n ==> arrives(e, n, r, c, arrivals@[cell(n, c, r)]),
            path@.len() == rows,
            forall|j: int| 0 <= j < rows ==> #[trigger] path@[j] < cross,
            path@[end as int] == first,
            forall|j: int| end <= j < rows ==> #[trigger] path@[j] == first,
            is_first_cheapest(costs_row(e, n, end as int), first as int),
            costs_row(e, n, at as int)[path@[at as int] as int] is Some,
            forall|j: int|
                at < j <= end ==> best_neighbour(
                    costs_row(e, n, j - 1),
                    (#[trigger] path@[j]) as int,
                ) == Some(path@[j - 1] as int),
        decreases at, tracing as int,
    {
        let c: usize = path[at];
        proof {
            lemma_cell(n, rows as int, c as int, at as int);
            assert(n * rows == rows * cross) by (nonlinear_arith)
                requires
                    n == cross,
            ;
            assert(arrives(
                e,
                n,
                at as int,
                c as int,
                arrivals@[cell(n, c as int, at as int)],
            ));
            lemma_block_of(e, n, at as int, end as int);
        }
        match arrivals[at * cross + c] {
            Arrival::From(p) => {
                proof {
                    lemma_best_neighbour(costs_row(e, n, at - 1), c as int);
                    lemma_costs_len(e, n, at - 1);
                }
                let ghost path_before = path@;
                path.set(at - 1, p);
                proof {
                    assert forall|j: int| at - 1 < j <= end implies best_neighbour(
                        costs_row(e, n, j - 1),
                        (#[trigger] path@[j]) as int,
                    ) == Some(path@[j - 1] as int) by {
                        assert(path@[j] == path_before[j]);
                        if j > at {
                            assert(path@[j - 1] == path_before[j - 1]);
                        }
                    }
                    assert forall|j: int| end <= j < rows implies #[trigger] path@[j] == first by {
                        assert(path@[j] == path_before[j]);
                    }
                }
                at = at - 1;
            },
            _ => {
                tracing = false;
            },
        }
    }
    let head: usize = path[at];
    let ghost traced = path@;
    let mut k: usize = 0;
    while k < at
        invariant
            k <= at,
            at <= end < rows,
            path@.len() == rows,
            traced.len() == rows,
            head < cross,
            forall|j: int| 0 <= j < k ==> #[trigger] path@[j] == head,
            forall|j: int| at <= j < rows ==> #[trigger] path@[j] == traced[j],
            forall|j: int| 0 <= j < rows ==> #[trigger] path@[j] < cross,
        decreases at - k,
    {
        path.set(k, head);
        k += 1;
    }
    proof {
        let positions = Seq::new(path@.len(), |j: int| path@[j] as int);
        assert forall|j: int| start < j <= end implies #[trigger] comes_from(
            e,
            n,
            positions,
            j,
        ) by {
            assert(path@[j] == traced[j]);
            assert(path@[j - 1] == traced[j - 1]);
        }
        assert(path@[end as int] == traced[end as int]);
        assert(is_traced(e, n, positions, start, end as int));
        assert forall|j: int| end < j < rows implies #[trigger] path@[j] == path@[end as int] by {
            assert(path@[j] == traced[j]);
        }
        assert(path@[at as int] == traced[at as int]);
    }
    Some(path)
}

proof fn lemma_last_active(energies: Seq<Option<u64>>, cross: int, rows: int)
    requires
        0 <= rows,
    ensures
        last_active(energies, cross, rows) matches Some(r) ==> 0 <= r < rows && is_active(
            costs_row(energies, cross, r),
        ),
    decreases rows,
{
    if rows > 0 && !is_active(costs_row(energies, cross, rows - 1)) {
        lemma_last_active(energies, cross, rows - 1);
    }
}

/// All rows of a block start in the same row.
proof fn lemma_block_of(energies: Seq<Option<u64>>, cross: int, i: int, end: int)
    requires
        0 <= i <= end,
        block_start(energies, cross, end) <= i,
    ensures
        block_start(energies, cross, i) == block_start(energies, cross, end),
    decreases end - i,
{
    if i < end {
        lemma_block(energies, cross, end);
        assert(is_active(costs_row(energies, cross, end - 1)));
        lemma_block_of(energies, cross, i, end - 1);
    }
}

/// The first of the cheapest samples of a row.
fn first_cheapest(costs: &Vec<Option<u64>>, Ghost(row): Ghost<Seq<Option<int>>>) -> (best: usize)
    requires
        holds_costs(costs@, row),
        is_active(row),
    ensures
        best < costs@.len(),
        is_first_cheapest(row, best as int),
{
    let mut best: Option<(usize, u64)> = None;
    let mut c: usize = 0;
    while c < costs.len()
        invariant
            c <= costs@.len(),
            holds_costs(costs@, row),
            match best {
                None => forall|d: int| 0 <= d < c ==> (#[trigger] row[d]) is None,
                Some((b, k)) => b < c && row[b as int] == Some(k as int) && forall|d: int|
                    #![trigger row[d]]
                    0 <= d < c && row[d] is Some ==> k <= row[d]->0 && (d < b ==> k < row[d]->0),
            },
        decreases costs@.len() - c,
    {
        match costs[c] {
            None => {
                assert(row[c as int] is None);
            },
            Some(k) => {
                assert(row[c as int] == Some(k as int));
                let replace: bool = match best {
                    None => true,
                    Some((_, other)) => k < other,
                };
                if replace {
                    best = Some((c, k));
                }
            },
        }
        c += 1;
    }
    match best {
        Some((b, _)) => b,
        None => {
            proof {
                let d = choose|d: int| 0 <= d < row.len() && (#[trigger] row[d]) is Some;
                assert(row[d] is None);
            }
            0
        },
    }
}

/// The pixel across the seam of sample `i`.
pub open spec fn cross_position(grid: &SeamGrid, samples: Seq<usize>, i: int) -> int {
    sample_position(
        grid.cross_min as int,
        grid.cross_max as int,
        grid.step as int,
        samples[i] as int,
    )
}

/// The pixel along the seam of row `i`.
pub open spec fn along_position(grid: &SeamGrid, i: int) -> int {
    sample_position(grid.along_min as int, grid.along_max as int, grid.step as int, i)
}

/// The row of samples at or before a pixel, never the last one.
pub open spec fn lower_row(grid: &SeamGrid, along: int) -> int {
    let row = (along - grid.along_min) / grid.step as int;
    if row > grid.along_count - 2 {
        grid.along_count - 2
    } else {
        row
    }
}

/// The quotient of two numbers that are not negative, rounded half up.
pub open spec fn rounded(value: int, divisor: int) -> int {
    (2 * value + divisor) / (2 * divisor)
}

/// Where the seam crosses the line at `along`: on the straight line between the
/// samples before and behind it, and straight on outside of the overlap.
pub open spec fn seam_position(grid: &SeamGrid, samples: Seq<usize>, along: int) -> int {
    if along < grid.along_min {
        cross_position(grid, samples, 0)
    } else if along > grid.along_max {
        cross_position(grid, samples, samples.len() - 1)
    } else {
        let row = lower_row(grid, along);
        let lower = along_position(grid, row);
        let upper = along_position(grid, row + 1);
        rounded(
            cross_position(grid, samples, row) * (upper - along) + cross_position(
                grid,
                samples,
                row + 1,
            ) * (along - lower),
            upper - lower,
        )
    }
}

proof fn lemma_rows(grid: &SeamGrid, along: int)
    requires
        grid.well_formed(),
        grid.along_min <= along <= grid.along_max,
    ensures
        0 <= lower_row(grid, along) <= grid.along_count - 2,
        along_position(grid, lower_row(grid, along)) <= along <= along_position(
            grid,
            lower_row(grid, along) + 1,
        ),
        along_position(grid, lower_row(grid, along)) < along_position(
            grid,
            lower_row(grid, along) + 1,
        ),
        along_position(grid, lower_row(grid, along) + 1) - along_position(
            grid,
            lower_row(grid, along),
        ) <= grid.step,
{
    let step = grid.step as int;
    let span = grid.along_max - grid.along_min;
    let relative = along - grid.along_min;
    let last = grid.along_count - 1;
    assert(span <= step * span) by (nonlinear_arith)
        requires
            0 <= span,
            1 <= step,
    ;
    lemma_ceiling_bound(span, step, span);
    vstd::arithmetic::div_mod::lemma_fundamental_div_mod(relative, step);
    let q = relative / step;
    assert(step * q == q * step) by (nonlinear_arith);
    assert(q >= 0) by (nonlinear_arith)
        requires
            q * step + relative % step == relative,
            relative >= 0,
            relative % step < step,
            step > 0,
    ;
    let row = lower_row(grid, along);
    assert(row * step <= q * step) by (nonlinear_arith)
        requires
            row <= q,
            step > 0,
    ;
    assert((row + 1) * step == row * step + step) by (nonlinear_arith);
    assert(last * step >= span);
    assert((last - 1) * step < span);
    assert(row * step <= (last - 1) * step) by (nonlinear_arith)
        requires
            row <= last - 1,
            step > 0,
    ;
    if row < q {
        assert(row + 1 == last);
    } else {
        assert(row == q);
    }
}

/// The cheapest seam as one pixel for every line from 0 to `output_length - 1`;
/// empty where the overlap cannot be crossed.
pub fn find_pairwise_seam_dp(
    grid: &SeamGrid,
    energies: &Vec<Option<u64>>,
    output_length: u32,
) -> (seam: Vec<i32>)
    requires
        grid.well_formed(),
        fits_grid(energies@, grid),
        grid.along_max < output_length,
        grid.cross_max <= i32::MAX,
    ensures
        last_active(energies@, grid.cross_count as int, grid.along_count as int) is None ==> seam@.len()
            == 0,
        last_active(energies@, grid.cross_count as int, grid.along_count as int) is Some ==> seam@.len()
            == output_length && exists|samples: Seq<usize>| #[trigger]
            is_seam(energies@, grid, samples) && forall|along: int|
                0 <= along < output_length ==> #[trigger] seam@[along] == seam_position(
                    grid,
                    samples,
                    along,
                ),
{
    let samples: Vec<usize> = match find_seam_samples(grid, energies) {
        None => {
            return Vec::new();
        },
        Some(samples) => samples,
    };
    let mut seam: Vec<i32> = Vec::new();
    let last: usize = grid.along_count - 1;
    let mut along: u32 = 0;
    while along < output_length
        invariant
            along <= output_length,
            grid.well_formed(),
            grid.along_max < output_length,
            grid.cross_max <= i32::MAX,
            last == grid.along_count - 1,
            is_seam(energies@, grid, samples@),
            seam@.len() == along,
            forall|a: int|
                0 <= a < along ==> #[trigger] seam@[a] == seam_position(grid, samples@, a),
        decreases output_length - along,
    {
        let position: u32 = if along < grid.along_min {
            coordinate(grid.cross_min, grid.cross_max, grid.step, samples[0])
        } else if along > grid.along_max {
            coordinate(grid.cross_min, grid.cross_max, grid.step, samples[last])
        } else {
            proof {
                lemma_rows(grid, along as int);
            }
            let mut row: usize = ((along - grid.along_min) / grid.step) as usize;
            if row > last - 1 {
                row = last - 1;
            }
            let lower: u32 = coordinate(grid.along_min, grid.along_max, grid.step, row);
            let upper: u32 = coordinate(grid.along_min, grid.along_max, grid.step, row + 1);
            let before: u32 = coordinate(grid.cross_min, grid.cross_max, grid.step, samples[row]);
            let behind: u32 = coordinate(
                grid.cross_min,
                grid.cross_max,
                grid.step,
                samples[row + 1],
            );
            let span: u64 = (upper - lower) as u64;
            let near: u64 = (upper - along) as u64;
            let far: u64 = (along - lower) as u64;
            proof {
                assert(0 <= before * near <= 0x7fff_ffff * near) by (nonlinear_arith)
                    requires
                        0 <= before <= 0x7fff_ffff,
                        0 <= near,
                ;
                assert(0 <= behind * far <= 0x7fff_ffff * far) by (nonlinear_arith)
                    requires
                        0 <= behind <= 0x7fff_ffff,
                        0 <= far,
                ;
                assert(near + far == span);
                assert(before * near + behind * far <= 0x7fff_ffff * span);
            }
            let value: u64 = (before as u64) * near + (behind as u64) * far;
            let rounded_value: u64 = (2 * value + span) / (2 * span);
            proof {
                assert(rounded_value <= 0x7fff_ffff) by (nonlinear_arith)
                    requires
                        rounded_value == (2 * value + span) / (2 * span),
                        value <= 0x7fff_ffff * span,
                        span > 0,
                ;
            }
            rounded_value as u32
        };
        proof {
            assert(position == seam_position(grid, samples@, along as int));
            assert(position <= i32::MAX);
        }
        seam.push(position as i32);
        along += 1;
    }
    seam
}

/// The samples can be walked from row `start` to row `end`: each has an energy, and each is at
/// most one column away from the one before.
pub open spec fn is_crossing(
    energies: Seq<Option<u64>>,
    cross: int,
    path: Seq<usize>,
    start: int,
    end: int,
) -> bool {
    &&& forall|i: int|
        #![trigger path[i]]
        start <= i <= end ==> path[i] < cross && energies[i * cross + path[i]] is Some
    &&& forall|i: int, j: int|
        #![trigger path[i], path[j]]
        start <= i < end && j == i + 1 ==> -1 <= path[j] - path[i] <= 1
}

/// What a row of a crossing costs: the measured energy of its sample, and one hundredth for
/// every sample by which it is nearer than six to one of the borders.
pub open spec fn crossing_price(
    energies: Seq<Option<u64>>,
    cross: int,
    path: Seq<usize>,
) -> spec_fn(int) -> int {
    |i: int|
        {
            let left = 6 - path[i];
            let right = 6 - (cross - 1 - path[i]);
            let nearer = if left > right {
                left
            } else {
                right
            };
            energies[i * cross + path[i]]->0 + if nearer > 0 {
                nearer * 10_000_000
            } else {
                0
            }
        }
}

spec fn positions_of(path: Seq<usize>) -> Seq<int> {
    Seq::new(path.len(), |i: int| path[i] as int)
}

/// No crossing of all rows costs less than the seam: the sum of the measured energies and the
/// border penalties along it is the least there is.
pub proof fn law_no_crossing_costs_less(
    energies: Seq<Option<u64>>,
    grid: &SeamGrid,
    samples: Seq<usize>,
    other: Seq<usize>,
)
    requires
        grid.well_formed(),
        is_seam(energies, grid, samples),
        other.len() == grid.along_count,
        is_crossing(energies, grid.cross_count as int, other, 0, grid.along_count - 1),
    ensures
        is_crossing(energies, grid.cross_count as int, samples, 0, grid.along_count - 1),
        sum_range(
            crossing_price(energies, grid.cross_count as int, samples),
            0,
            grid.along_count as int,
        ) <= sum_range(
            crossing_price(energies, grid.cross_count as int, other),
            0,
            grid.along_count as int,
        ),
{
    let cross = grid.cross_count as int;
    let end = grid.along_count - 1;
    let (p, q) = (positions_of(samples), positions_of(other));
    lemma_crossing_is_path(energies, cross, other, 0, end);
    lemma_crossing_is_active(energies, cross, q, end);
    lemma_crossing_price(energies, cross, other, 0, end);
    law_seam_is_cheapest(energies, cross, p, q, end);
    lemma_path_is_crossing(energies, cross, samples, 0, end);
    lemma_crossing_price(energies, cross, samples, 0, end);
}

/// Of several crossings that cost the same the seam is the one whose samples come first, from
/// the last row back: where a crossing of the same cost parts from it, it parts to the right.
pub proof fn law_ties_go_to_the_first_sample(
    energies: Seq<Option<u64>>,
    grid: &SeamGrid,
    samples: Seq<usize>,
    other: Seq<usize>,
    i: int,
)
    requires
        grid.well_formed(),
        is_seam(energies, grid, samples),
        other.len() == grid.along_count,
        is_crossing(energies, grid.cross_count as int, other, 0, grid.along_count - 1),
        sum_range(
            crossing_price(energies, grid.cross_count as int, samples),
            0,
            grid.along_count as int,
        ) == sum_range(
            crossing_price(energies, grid.cross_count as int, other),
            0,
            grid.along_count as int,
        ),
        0 <= i < grid.along_count,
        forall|j: int| i < j < grid.along_count ==> #[trigger] other[j] == samples[j],
    ensures
        samples[i] <= other[i],
{
    let cross = grid.cross_count as int;
    let end = grid.along_count - 1;
    let (p, q) = (positions_of(samples), positions_of(other));
    law_no_crossing_costs_less(energies, grid, samples, other);
    lemma_crossing_is_path(energies, cross, other, 0, end);
    lemma_crossing_is_path(energies, cross, samples, 0, end);
    lemma_crossing_is_active(energies, cross, q, end);
    lemma_crossing_price(energies, cross, samples, 0, end);
    lemma_crossing_price(energies, cross, other, 0, end);
    assert forall|j: int| i < j <= end implies #[trigger] q[j] == p[j] by {
        assert(other[j] == samples[j]);
    }
    lemma_same_rest(energies, cross, p, q, i, end);
    lemma_part_of_path(energies, cross, p, i, end);
    lemma_part_of_path(energies, cross, q, i, end);
    lemma_no_cheaper_path(energies, cross, p, 0, i);
    lemma_no_cheaper_path(energies, cross, q, 0, i);
    lemma_traced_cost(energies, cross, p, 0, i);
    lemma_costs_len(energies, cross, i);
    let costs = costs_row(energies, cross, i);
    assert(costs[q[i]]->0 <= costs[p[i]]->0);
    if i < end {
        assert(comes_from(energies, cross, p, i + 1));
        assert(q[i + 1] == p[i + 1]);
        assert(is_near(q, i + 1));
        lemma_best_neighbour(costs, p[i + 1]);
    }
}

/// Where no crossing leads through all rows, the seam is still a crossing of a run of rows, at
/// the least cost for those rows; rows before and behind them repeat its first and last
/// sample.
pub proof fn law_every_seam_crosses_a_run_of_rows(
    energies: Seq<Option<u64>>,
    grid: &SeamGrid,
    samples: Seq<usize>,
) -> (run: (int, int))
    requires
        grid.well_formed(),
        is_seam(energies, grid, samples),
    ensures
        0 <= run.0 <= run.1 < grid.along_count,
        is_crossing(energies, grid.cross_count as int, samples, run.0, run.1),
        forall|i: int| 0 <= i < run.0 ==> #[trigger] samples[i] == samples[run.0],
        forall|i: int| run.1 < i < grid.along_count ==> #[trigger] samples[i] == samples[run.1],
        forall|other: Seq<usize>|
            #![trigger is_crossing(energies, grid.cross_count as int, other, run.0, run.1)]
            other.len() == grid.along_count && is_crossing(
                energies,
                grid.cross_count as int,
                other,
                run.0,
                run.1,
            ) ==> sum_range(
                crossing_price(energies, grid.cross_count as int, samples),
                run.0,
                run.1 + 1,
            ) <= sum_range(
                crossing_price(energies, grid.cross_count as int, other),
                run.0,
                run.1 + 1,
            ),
        forall|i: int, c: int|
            run.1 + 1 < i < grid.along_count && 0 <= c < grid.cross_count
                ==> #[trigger] energies[cell(grid.cross_count as int, c, i)] is None,
{
    let cross = grid.cross_count as int;
    let rows = grid.along_count as int;
    let end = last_active(energies, cross, rows)->0;
    lemma_last_active(energies, cross, rows);
    lemma_block(energies, cross, end);
    lemma_costs_len(energies, cross, end);
    let start = block_start(energies, cross, end);
    let p = positions_of(samples);
    lemma_traced_cost(energies, cross, p, start, end);
    lemma_path_is_crossing(energies, cross, samples, start, end);
    lemma_crossing_price(energies, cross, samples, start, end);
    assert forall|other: Seq<usize>|
        #![trigger is_crossing(energies, cross, other, start, end)]
        other.len() == rows && is_crossing(energies, cross, other, start, end) implies sum_range(
        crossing_price(energies, cross, samples),
        start,
        end + 1,
    ) <= sum_range(crossing_price(energies, cross, other), start, end + 1) by {
        lemma_crossing_is_path(energies, cross, other, start, end);
        lemma_crossing_price(energies, cross, other, start, end);
        law_seam_is_cheapest(energies, cross, p, positions_of(other), end);
    }
    assert forall|i: int, c: int| end + 1 < i < rows && 0 <= c < cross implies #[trigger] energies[cell(
        cross,
        c,
        i,
    )] is None by {
        lemma_rows_behind(energies, cross, rows, i - 1);
        lemma_rows_behind(energies, cross, rows, i);
        lemma_costs_len(energies, cross, i);
        if energies[cell(cross, c, i)] is Some {
            assert(costs_row(energies, cross, i)[c] is Some);
        }
    }
    (start, end)
}

/// There is no seam exactly where no sample has an energy.
pub proof fn law_only_empty_overlaps_have_no_seam(
    energies: Seq<Option<u64>>,
    grid: &SeamGrid,
)
    requires
        grid.well_formed(),
        energies.len() == grid.along_count * grid.cross_count,
    ensures
        last_active(energies, grid.cross_count as int, grid.along_count as int) is None
            <==> forall|i: int| 0 <= i < energies.len() ==> (#[trigger] energies[i]) is None,
{
    let cross = grid.cross_count as int;
    let rows = grid.along_count as int;
    assert(rows * cross == cross * rows) by (nonlinear_arith);
    if last_active(energies, cross, rows) is None {
        assert forall|i: int| 0 <= i < energies.len() implies (#[trigger] energies[i]) is None by {
            lemma_split(cross, rows, i);
            let (c, r) = (i % cross, i / cross);
            assert(cell(cross, c, r) == i);
            lemma_rows_behind(energies, cross, rows, r);
            if r > 0 {
                lemma_rows_behind(energies, cross, rows, r - 1);
            }
            lemma_costs_len(energies, cross, r);
            if energies[i] is Some {
                assert(costs_row(energies, cross, r)[c] is Some);
            }
        }
    } else {
        lemma_last_active(energies, cross, rows);
        let r = last_active(energies, cross, rows)->0;
        let costs = costs_row(energies, cross, r);
        lemma_costs_len(energies, cross, r);
        let c = choose|c: int| 0 <= c < costs.len() && (#[trigger] costs[c]) is Some;
        lemma_cell(cross, rows, c, r);
        assert(sample_energy(energies, cross, r, c) is Some);
        assert(energies[cell(cross, c, r)] is Some);
    }
}

proof fn lemma_rows_behind(energies: Seq<Option<u64>>, cross: int, rows: int, i: int)
    requires
        0 <= i < rows,
        last_active(energies, cross, rows) is None || last_active(energies, cross, rows)->0 < i,
    ensures
        !is_active(costs_row(energies, cross, i)),
    decreases rows,
{
    if i < rows - 1 && !is_active(costs_row(energies, cross, rows - 1)) {
        lemma_rows_behind(energies, cross, rows - 1, i);
    }
}

proof fn lemma_crossing_is_path(
    energies: Seq<Option<u64>>,
    cross: int,
    path: Seq<usize>,
    start: int,
    end: int,
)
    requires
        0 <= start <= end < path.len(),
        is_crossing(energies, cross, path, start, end),
    ensures
        is_path(energies, cross, positions_of(path), start, end),
{
    let p = positions_of(path);
    assert forall|i: int| #![trigger p[i]] start <= i <= end implies 0 <= p[i] < cross
        && sample_energy(energies, cross, i, p[i]) is Some by {
        assert(path[i] < cross);
        assert(cell(cross, p[i], i) == i * cross + path[i]);
    }
    assert forall|i: int| start < i <= end implies #[trigger] is_near(p, i) by {
        assert(-1 <= path[i] - path[i - 1] <= 1);
    }
}

proof fn lemma_path_is_crossing(
    energies: Seq<Option<u64>>,
    cross: int,
    path: Seq<usize>,
    start: int,
    end: int,
)
    requires
        0 <= start <= end < path.len(),
        is_path(energies, cross, positions_of(path), start, end),
    ensures
        is_crossing(energies, cross, path, start, end),
{
    let p = positions_of(path);
    assert forall|i: int| #![trigger path[i]] start <= i <= end implies path[i] < cross
        && energies[i * cross + path[i]] is Some by {
        assert(0 <= p[i] < cross);
        assert(cell(cross, p[i], i) == i * cross + path[i]);
    }
    assert forall|i: int, j: int|
        #![trigger path[i], path[j]]
        start <= i < end && j == i + 1 implies -1 <= path[j] - path[i] <= 1 by {
        assert(is_near(p, j));
    }
}

/// All rows of a crossing from the first row on lie on paths.
proof fn lemma_crossing_is_active(
    energies: Seq<Option<u64>>,
    cross: int,
    path: Seq<int>,
    end: int,
)
    requires
        0 <= end,
        is_path(energies, cross, path, 0, end),
    ensures
        costs_row(energies, cross, end)[path[end]] is Some,
        is_active(costs_row(energies, cross, end)),
        block_start(energies, cross, end) == 0,
        last_active(energies, cross, end + 1) == Some(end),
        forall|j: int| 0 < j <= end ==> is_active(#[trigger] costs_row(energies, cross, j - 1)),
    decreases end,
{
    lemma_costs_len(energies, cross, end);
    let c = path[end];
    let row = costs_row(energies, cross, end);
    assert(0 <= c < cross);
    assert(row[c] == if end <= 0 {
        sample_energy(energies, cross, 0, c)
    } else {
        next_cost(
            costs_row(energies, cross, end - 1),
            sample_energy(energies, cross, end, c),
            c,
        )
    });
    if end > 0 {
        assert(is_path(energies, cross, path, 0, end - 1));
        lemma_crossing_is_active(energies, cross, path, end - 1);
        let before = costs_row(energies, cross, end - 1);
        assert(is_near(path, end));
        lemma_best_neighbour(before, c);
        lemma_costs_len(energies, cross, end - 1);
        assert(0 <= path[end - 1] < cross);
        assert(before[path[end - 1]] is Some);
    }
    assert(row[c] is Some);
}

proof fn lemma_crossing_price(
    energies: Seq<Option<u64>>,
    cross: int,
    path: Seq<usize>,
    start: int,
    end: int,
)
    requires
        0 <= start <= end + 1 <= path.len(),
        forall|i: int|
            #![trigger path[i]]
            start <= i <= end ==> path[i] < cross && energies[i * cross + path[i]] is Some,
    ensures
        path_cost(energies, cross, positions_of(path), start, end) == sum_range(
            crossing_price(energies, cross, path),
            start,
            end + 1,
        ),
    decreases end - start + 1,
{
    if start <= end {
        lemma_crossing_price(energies, cross, path, start, end - 1);
        let p = positions_of(path);
        let f = crossing_price(energies, cross, path);
        assert(path[end] < cross);
        assert(cell(cross, p[end], end) == end * cross + path[end]);
        assert(sample_energy(energies, cross, end, p[end])->0 == f(end));
    }
}

proof fn lemma_same_rest(
    energies: Seq<Option<u64>>,
    cross: int,
    p: Seq<int>,
    q: Seq<int>,
    i: int,
    end: int,
)
    requires
        0 <= i <= end,
        forall|j: int| i < j <= end ==> #[trigger] q[j] == p[j],
    ensures
        path_cost(energies, cross, p, 0, end) - path_cost(energies, cross, p, 0, i) == path_cost(
            energies,
            cross,
            q,
            0,
            end,
        ) - path_cost(energies, cross, q, 0, i),
    decreases end,
{
    if i < end {
        lemma_same_rest(energies, cross, p, q, i, end - 1);
        assert(q[end] == p[end]);
    }
}

proof fn lemma_part_of_path(
    energies: Seq<Option<u64>>,
    cross: int,
    path: Seq<int>,
    i: int,
    end: int,
)
    requires
        0 <= i <= end,
        is_path(energies, cross, path, 0, end),
    ensures
        is_path(energies, cross, path, 0, i),
        0 <= path[i] < cross,
{
}

/// The step is the smallest with which a grid has at most 2400 steps in either direction.
pub proof fn law_grids_are_as_fine_as_they_may(grid: &SeamGrid)
    requires
        grid.well_formed(),
    ensures
        grid.along_max - grid.along_min <= 2400 * grid.step,
        grid.cross_max - grid.cross_min <= 2400 * grid.step,
        grid.step > 1 ==> grid.along_max - grid.along_min > 2400 * (grid.step - 1)
            || grid.cross_max - grid.cross_min > 2400 * (grid.step - 1),
{
    let along = grid.along_max - grid.along_min;
    let across = grid.cross_max - grid.cross_min;
    let longest = if along > across {
        along
    } else {
        across
    };
    assert(longest <= 2400 * longest);
    lemma_ceiling_bound(longest, 2400, longest);
}

/// The samples of one direction start at the beginning of the overlap and end at its end,
/// always one step apart but for the last.
pub proof fn law_samples_span_the_overlap(minimum: int, maximum: int, step: int, count: int, i: int)
    requires
        minimum < maximum,
        0 < step,
        count == ceiling(maximum - minimum, step) + 1,
        0 <= i < count - 1,
    ensures
        sample_position(minimum, maximum, step, 0) == minimum,
        sample_position(minimum, maximum, step, count - 1) == maximum,
        sample_position(minimum, maximum, step, i) == minimum + i * step,
        sample_position(minimum, maximum, step, i) < sample_position(minimum, maximum, step, i + 1),
        sample_position(minimum, maximum, step, i + 1) - sample_position(minimum, maximum, step, i)
            <= step,
{
    let span = maximum - minimum;
    assert(span <= step * span) by (nonlinear_arith)
        requires
            0 <= span,
            1 <= step,
    ;
    lemma_ceiling_bound(span, step, span);
    let last = count - 1;
    assert(i * step <= (last - 1) * step) by (nonlinear_arith)
        requires
            i <= last - 1,
            0 < step,
    ;
    assert((i + 1) * step == i * step + step) by (nonlinear_arith);
    assert(0 * step == 0) by (nonlinear_arith);
}

/// The seam keeps to the straight lines between its samples: it lies between the two, as far
/// along as the line at hand, to the nearest pixel.
pub proof fn law_seams_run_straight_between_samples(
    grid: &SeamGrid,
    samples: Seq<usize>,
    along: int,
) -> (row: int)
    requires
        grid.well_formed(),
        samples.len() == grid.along_count,
        grid.along_min <= along <= grid.along_max,
    ensures
        0 <= row < grid.along_count - 1,
        ({
            let step = grid.step as int;
            let lower = grid.along_min + row * step;
            let upper = if row + 1 == grid.along_count - 1 {
                grid.along_max as int
            } else {
                grid.along_min + (row + 1) * step
            };
            let before = sample_position(
                grid.cross_min as int,
                grid.cross_max as int,
                step,
                samples[row] as int,
            );
            let behind = sample_position(
                grid.cross_min as int,
                grid.cross_max as int,
                step,
                samples[row + 1] as int,
            );
            let seam = seam_position(grid, samples, along);
            let line = before * (upper - along) + behind * (along - lower);
            &&& lower <= along <= upper
            &&& lower < upper
            &&& 2 * line - (upper - lower) < 2 * (seam * (upper - lower)) <= 2 * line + (upper
                - lower)
            &&& along == lower ==> seam == before
            &&& along == upper ==> seam == behind
        }),
{
    let row = lower_row(grid, along);
    let step = grid.step as int;
    lemma_rows(grid, along);
    law_samples_span_the_overlap(
        grid.along_min as int,
        grid.along_max as int,
        step,
        grid.along_count as int,
        row,
    );
    if row + 1 < grid.along_count - 1 {
        law_samples_span_the_overlap(
            grid.along_min as int,
            grid.along_max as int,
            step,
            grid.along_count as int,
            row + 1,
        );
    }
    let lower = along_position(grid, row);
    let upper = along_position(grid, row + 1);
    let span = upper - lower;
    let before = cross_position(grid, samples, row);
    let behind = cross_position(grid, samples, row + 1);
    let line = before * (upper - along) + behind * (along - lower);
    let seam = seam_position(grid, samples, along);
    assert(seam == (2 * line + span) / (2 * span));
    assert(2 * line - span < 2 * (seam * span) <= 2 * line + span) by (nonlinear_arith)
        requires
            seam == (2 * line + span) / (2 * span),
            span > 0,
    ;
    if along == lower {
        assert(line == before * span) by (nonlinear_arith)
            requires
                line == before * (upper - along) + behind * (along - lower),
                along == lower,
                span == upper - lower,
        ;
        assert(seam == before) by (nonlinear_arith)
            requires
                2 * line - span < 2 * (seam * span) <= 2 * line + span,
                line == before * span,
                span > 0,
        ;
    }
    if along == upper {
        assert(line == behind * span) by (nonlinear_arith)
            requires
                line == before * (upper - along) + behind * (along - lower),
                along == upper,
                span == upper - lower,
        ;
        assert(seam == behind) by (nonlinear_arith)
            requires
                2 * line - span < 2 * (seam * span) <= 2 * line + span,
                line == behind * span,
                span > 0,
        ;
    }
    row
}

/// Outside of the overlap the seam goes straight on from its ends.
pub proof fn law_seams_go_straight_on(grid: &SeamGrid, samples: Seq<usize>, along: int)
    requires
        grid.well_formed(),
        samples.len() == grid.along_count,
    ensures
        along <= grid.along_min ==> seam_position(grid, samples, along) == seam_position(
            grid,
            samples,
            grid.along_min as int,
        ),
        along >= grid.along_max ==> seam_position(grid, samples, along) == seam_position(
            grid,
            samples,
            grid.along_max as int,
        ),
{
    let step = grid.step as int;
    let last = grid.along_count - 1;
    lemma_rows(grid, grid.along_min as int);
    let start = law_seams_run_straight_between_samples(grid, samples, grid.along_min as int);
    let end = law_seams_run_straight_between_samples(grid, samples, grid.along_max as int);
    assert(start == 0) by (nonlinear_arith)
        requires
            start * step <= 0,
            0 <= start,
            0 < step,
    ;
    if end < last - 1 {
        law_samples_span_the_overlap(
            grid.along_min as int,
            grid.along_max as int,
            step,
            grid.along_count as int,
            end + 1,
        );
        law_samples_span_the_overlap(
            grid.along_min as int,
            grid.along_max as int,
            step,
            grid.along_count as int,
            last - 1,
        );
        assert((end + 1) * step <= (last - 1) * step) by (nonlinear_arith)
            requires
                end + 1 <= last - 1,
                0 < step,
        ;
        assert(false);
    }
}

} // verus!
