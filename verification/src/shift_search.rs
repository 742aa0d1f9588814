//! The search for the small shift that aligns a full-resolution layer with the
//! canvas: where it is measured, which shifts are tried, and when the patches agree.

use vstd::prelude::*;

use crate::order::law_median_is_a_key;
use crate::order::median;
use crate::order::median_of;

verus! {

pub const FOCUS_FULL_RES_ALIGNMENT_PATCH_RADIUS: i32 = 8;

pub const FOCUS_FULL_RES_ALIGNMENT_MAX_SHIFT: i32 = 16;

pub const FOCUS_FULL_RES_ALIGNMENT_GRID_SIZE: i32 = 4;

pub const FOCUS_FULL_RES_ALIGNMENT_MIN_PATCHES: usize = 4;

/// The distance between the shifts of the first pass.
pub const COARSE_STEP: i32 = 4;

/// No image is wider or higher than this.
pub const MAX_LENGTH: u32 = 0x1fff_ffff;

#[derive(Debug, Clone, Copy, PartialEq, Eq, Structural)]
pub struct Shift {
    pub x: i32,
    pub y: i32,
}

/// The last column or row that a layer shares with the canvas.
pub open spec fn last_shared(start: int, length: int, canvas: int) -> int {
    if start + length - 1 < canvas - 1 {
        start + length - 1
    } else {
        canvas - 1
    }
}

/// The first column or row that a layer shares with the canvas.
pub open spec fn first_shared(start: int, canvas: int) -> int {
    if start < canvas - 1 {
        start
    } else {
        canvas - 1
    }
}

/// Patches can be compared: layer and canvas are large enough, and so is what they
/// share.
pub open spec fn has_room_for_patches(
    start: int,
    length: int,
    canvas: int,
) -> bool {
    &&& length >= 2 * (FOCUS_FULL_RES_ALIGNMENT_PATCH_RADIUS + 2)
    &&& canvas >= 2
    &&& last_shared(start, length, canvas) - first_shared(start, canvas) >= 2
        * FOCUS_FULL_RES_ALIGNMENT_PATCH_RADIUS + 2
}

/// Coordinate `step` of the evenly spread patches, from the start of the layer.
pub open spec fn patch_coordinate(start: int, length: int, canvas: int, step: int) -> int {
    first_shared(start, canvas) + (last_shared(start, length, canvas) - first_shared(
        start,
        canvas,
    )) * (step + 1) / (FOCUS_FULL_RES_ALIGNMENT_GRID_SIZE + 1) - start
}

fn spread(start: u32, length: u32, canvas: u32, step: i32) -> (coordinate: i32)
    requires
        start <= MAX_LENGTH,
        length <= MAX_LENGTH,
        2 <= canvas <= MAX_LENGTH,
        0 <= step < FOCUS_FULL_RES_ALIGNMENT_GRID_SIZE,
        has_room_for_patches(start as int, length as int, canvas as int),
    ensures
        coordinate == patch_coordinate(start as int, length as int, canvas as int, step as int),
        0 <= coordinate < length,
{
    let first: i64 = if start < canvas - 1 {
        start as i64
    } else {
        (canvas - 1) as i64
    };
    let end: i64 = (start as i64) + (length as i64) - 1;
    let last: i64 = if end < (canvas - 1) as i64 {
        end
    } else {
        (canvas - 1) as i64
    };
    let span: i64 = last - first;
    let factor: i64 = (step + 1) as i64;
    assert(0 <= span * factor <= span * 4) by (nonlinear_arith)
        requires
            span >= 0,
            0 <= factor <= 4,
    ;
    let coordinate: i64 = first + span * factor / 5 - (start as i64);
    coordinate as i32
}

/// The centres of the patches that are compared, row by row, in coordinates of the
/// layer. `None` where layer and canvas share too little.
pub fn patch_centers(
    layer_left: u32,
    layer_top: u32,
    layer_width: u32,
    layer_height: u32,
    canvas_width: u32,
    canvas_height: u32,
) -> (centers: Option<Vec<Shift>>)
    requires
        layer_left <= MAX_LENGTH,
        layer_top <= MAX_LENGTH,
        layer_width <= MAX_LENGTH,
        layer_height <= MAX_LENGTH,
        canvas_width <= MAX_LENGTH,
        canvas_height <= MAX_LENGTH,
    ensures
        centers is Some <==> has_room_for_patches(
            layer_left as int,
            layer_width as int,
            canvas_width as int,
        ) && has_room_for_patches(layer_top as int, layer_height as int, canvas_height as int),
        centers matches Some(list) ==> list@.len() == 16 && forall|i: int|
            0 <= i < 16 ==> (#[trigger] list@[i]).x == patch_coordinate(
                layer_left as int,
                layer_width as int,
                canvas_width as int,
                i % 4,
            ) && list@[i].y == patch_coordinate(
                layer_top as int,
                layer_height as int,
                canvas_height as int,
                i / 4,
            ) && 0 <= list@[i].x < layer_width && 0 <= list@[i].y < layer_height,
{
    if !room_for_patches(layer_left, layer_width, canvas_width) || !room_for_patches(
        layer_top,
        layer_height,
        canvas_height,
    ) {
        return None;
    }
    let mut list: Vec<Shift> = Vec::new();
    let mut i: i32 = 0;
    while i < 16
        invariant
            0 <= i <= 16,
            layer_left <= MAX_LENGTH,
            layer_top <= MAX_LENGTH,
            layer_width <= MAX_LENGTH,
            layer_height <= MAX_LENGTH,
            canvas_width <= MAX_LENGTH,
            canvas_height <= MAX_LENGTH,
            has_room_for_patches(layer_left as int, layer_width as int, canvas_width as int),
            has_room_for_patches(layer_top as int, layer_height as int, canvas_height as int),
            list@.len() == i,
            forall|j: int|
                0 <= j < i ==> (#[trigger] list@[j]).x == patch_coordinate(
                    layer_left as int,
                    layer_width as int,
                    canvas_width as int,
                    j % 4,
                ) && list@[j].y == patch_coordinate(
                    layer_top as int,
                    layer_height as int,
                    canvas_height as int,
                    j / 4,
                ) && 0 <= list@[j].x < layer_width && 0 <= list@[j].y < layer_height,
        decreases 16 - i,
    {
        let x: i32 = spread(layer_left, layer_width, canvas_width, i % 4);
        let y: i32 = spread(layer_top, layer_height, canvas_height, i / 4);
        list.push(Shift { x, y });
        i += 1;
    }
    Some(list)
}

fn room_for_patches(start: u32, length: u32, canvas: u32) -> (room: bool)
    requires
        start <= MAX_LENGTH,
        length <= MAX_LENGTH,
        canvas <= MAX_LENGTH,
    ensures
        room == has_room_for_patches(start as int, length as int, canvas as int),
{
    if length < 20 || canvas < 2 {
        return false;
    }
    let first: u32 = if start < canvas - 1 {
        start
    } else {
        canvas - 1
    };
    let last: u32 = if start + length - 1 < canvas - 1 {
        start + length - 1
    } else {
        canvas - 1
    };
    last >= first && last - first >= 18
}

/// The shifts of the first pass: multiples of the step in both directions, row by row.
pub fn coarse_shifts() -> (shifts: Vec<Shift>)
    ensures
        shifts@.len() == 81,
        forall|i: int|
            0 <= i < 81 ==> (#[trigger] shifts@[i]).x == i % 9 * 4 - 16 && shifts@[i].y == i / 9 * 4
                - 16,
{
    let mut shifts: Vec<Shift> = Vec::new();
    let mut i: i32 = 0;
    while i < 81
        invariant
            0 <= i <= 81,
            shifts@.len() == i,
            forall|j: int|
                0 <= j < i ==> (#[trigger] shifts@[j]).x == j % 9 * 4 - 16 && shifts@[j].y == j / 9
                    * 4 - 16,
        decreases 81 - i,
    {
        shifts.push(
            Shift {
                x: i % 9 * COARSE_STEP - FOCUS_FULL_RES_ALIGNMENT_MAX_SHIFT,
                y: i / 9 * COARSE_STEP - FOCUS_FULL_RES_ALIGNMENT_MAX_SHIFT,
            },
        );
        i += 1;
    }
    shifts
}

/// The shift is tried in the second pass around a shift of the first.
pub open spec fn is_fine_shift(coarse: Shift, x: int, y: int) -> bool {
    &&& coarse.x - 3 <= x <= coarse.x + 3
    &&& coarse.y - 3 <= y <= coarse.y + 3
    &&& -16 <= x <= 16
    &&& -16 <= y <= 16
    &&& !(x == coarse.x && y == coarse.y)
}

/// The shift comes before another row by row.
pub open spec fn is_earlier(a: Shift, b: Shift) -> bool {
    a.y < b.y || a.y == b.y && a.x < b.x
}

/// Some shift in the list has these coordinates.
pub open spec fn lists_shift(list: Seq<Shift>, x: int, y: int) -> bool {
    exists|i: int| 0 <= i < list.len() && (#[trigger] list[i]).x == x && list[i].y == y
}

/// The shifts of the second pass: every other shift less than a step away, row by row.
pub fn fine_shifts(coarse: Shift) -> (shifts: Vec<Shift>)
    requires
        -16 <= coarse.x <= 16,
        -16 <= coarse.y <= 16,
    ensures
        forall|i: int|
            0 <= i < shifts@.len() ==> is_fine_shift(
                coarse,
                (#[trigger] shifts@[i]).x as int,
                shifts@[i].y as int,
            ),
        forall|i: int, j: int|
            0 <= i < j < shifts@.len() ==> is_earlier(#[trigger] shifts@[i], #[trigger] shifts@[j]),
        forall|x: int, y: int| #[trigger]
            is_fine_shift(coarse, x, y) ==> lists_shift(shifts@, x, y),
{
    let mut shifts: Vec<Shift> = Vec::new();
    let mut y: i32 = coarse.y - COARSE_STEP + 1;
    while y < coarse.y + COARSE_STEP
        invariant
            -16 <= coarse.x <= 16,
            -16 <= coarse.y <= 16,
            coarse.y - 3 <= y <= coarse.y + 4,
            forall|i: int|
                0 <= i < shifts@.len() ==> is_fine_shift(
                    coarse,
                    (#[trigger] shifts@[i]).x as int,
                    shifts@[i].y as int,
                ) && shifts@[i].y < y,
            forall|i: int, j: int|
                0 <= i < j < shifts@.len() ==> is_earlier(
                    #[trigger] shifts@[i],
                    #[trigger] shifts@[j],
                ),
            forall|a: int, b: int| #[trigger]
                is_fine_shift(coarse, a, b) && b < y ==> lists_shift(shifts@, a, b),
        decreases coarse.y + 4 - y,
    {
        let mut x: i32 = coarse.x - COARSE_STEP + 1;
        while x < coarse.x + COARSE_STEP
            invariant
                -16 <= coarse.x <= 16,
                -16 <= coarse.y <= 16,
                coarse.y - 3 <= y <= coarse.y + 3,
                coarse.x - 3 <= x <= coarse.x + 4,
                forall|i: int|
                    0 <= i < shifts@.len() ==> is_fine_shift(
                        coarse,
                        (#[trigger] shifts@[i]).x as int,
                        shifts@[i].y as int,
                    ) && (shifts@[i].y < y || shifts@[i].y == y && shifts@[i].x < x),
                forall|i: int, j: int|
                    0 <= i < j < shifts@.len() ==> is_earlier(
                        #[trigger] shifts@[i],
                        #[trigger] shifts@[j],
                    ),
                forall|a: int, b: int| #[trigger]
                    is_fine_shift(coarse, a, b) && (b < y || b == y && a < x) ==> lists_shift(
                        shifts@,
                        a,
                        b,
                    ),
            decreases coarse.x + 4 - x,
        {
            let ghost before = shifts@;
            if -16 <= x && x <= 16 && -16 <= y && y <= 16 && !(x == coarse.x && y == coarse.y) {
                shifts.push(Shift { x, y });
            }
            proof {
                assert forall|a: int, b: int| #[trigger]
                    is_fine_shift(coarse, a, b) && (b < y || b == y && a < x + 1) implies lists_shift(
                shifts@, a, b) by {
                    if b < y || b == y && a < x {
                        assert(lists_shift(before, a, b));
                        let i = choose|i: int|
                            0 <= i < before.len() && (#[trigger] before[i]).x == a && before[i].y
                                == b;
                        assert(shifts@[i] == before[i]);
                    } else {
                        assert(shifts@[before.len() as int].x == a);
                    }
                }
            }
            x += 1;
        }
        y += 1;
    }
    shifts
}

/// A shift and how well it aligns a patch: a key that grows with the score.
#[derive(Debug, Clone, Copy, PartialEq, Eq, Structural)]
pub struct ShiftScore {
    pub shift: Shift,
    pub score: i64,
}

pub open spec fn magnitude(value: int) -> int {
    if value < 0 {
        -value
    } else {
        value
    }
}

/// How far a shift goes in both directions together.
pub open spec fn length_of(shift: Shift) -> int {
    magnitude(shift.x as int) + magnitude(shift.y as int)
}

/// `a` is preferred to `b`: it scores higher, or as high with a shorter shift.
pub open spec fn is_preferred(a: ShiftScore, b: ShiftScore) -> bool {
    a.score > b.score || a.score == b.score && length_of(a.shift) < length_of(b.shift)
}

/// Nothing is preferred to entry `k`, and it is the first such entry.
pub open spec fn is_best(scores: Seq<ShiftScore>, k: int) -> bool {
    &&& 0 <= k < scores.len()
    &&& forall|j: int| 0 <= j < scores.len() ==> !is_preferred(#[trigger] scores[j], scores[k])
    &&& forall|j: int| 0 <= j < k ==> is_preferred(scores[k], #[trigger] scores[j])
}

/// The highest score of the entries other than `k`.
pub open spec fn is_runner_up(scores: Seq<ShiftScore>, k: int, runner_up: Option<i64>) -> bool {
    match runner_up {
        None => scores.len() <= 1,
        Some(score) => {
            &&& exists|j: int| 0 <= j < scores.len() && j != k && (#[trigger] scores[j]).score
                == score
            &&& forall|j: int|
                0 <= j < scores.len() && j != k ==> (#[trigger] scores[j]).score <= score
        },
    }
}

/// Entry `k` is the last that tries no shift at all.
pub open spec fn is_last_unshifted(scores: Seq<ShiftScore>, k: int) -> bool {
    &&& 0 <= k < scores.len()
    &&& scores[k].shift == Shift { x: 0, y: 0 }
    &&& forall|j: int| k < j < scores.len() ==> (#[trigger] scores[j]).shift != Shift { x: 0, y: 0 }
}

/// The best shift of a patch, the highest score of the others, and the score without
/// a shift.
#[derive(Debug, Clone, Copy, PartialEq, Eq, Structural)]
pub struct RankedShift {
    pub best: usize,
    pub runner_up: Option<i64>,
    pub unshifted: Option<i64>,
}

fn length(shift: Shift) -> (sum: i32)
    requires
        -16 <= shift.x <= 16,
        -16 <= shift.y <= 16,
    ensures
        sum == length_of(shift),
{
    let x: i32 = if shift.x < 0 {
        -shift.x
    } else {
        shift.x
    };
    let y: i32 = if shift.y < 0 {
        -shift.y
    } else {
        shift.y
    };
    x + y
}

/// Ranks the scores of a patch in the order in which they were measured. `None` where
/// there are none.
pub fn rank_shifts(scores: &Vec<ShiftScore>) -> (ranked: Option<RankedShift>)
    requires
        forall|i: int|
            0 <= i < scores@.len() ==> -16 <= (#[trigger] scores@[i]).shift.x <= 16 && -16
                <= scores@[i].shift.y <= 16,
    ensures
        ranked is None <==> scores@.len() == 0,
        ranked matches Some(found) ==> {
            &&& is_best(scores@, found.best as int)
            &&& is_runner_up(scores@, found.best as int, found.runner_up)
            &&& match found.unshifted {
                None => forall|k: int| !(#[trigger] is_last_unshifted(scores@, k)),
                Some(score) => exists|k: int| #[trigger]
                    is_last_unshifted(scores@, k) && scores@[k].score == score,
            }
        },
{
    if scores.len() == 0 {
        return None;
    }
    let mut best: usize = 0;
    let mut runner_up: Option<i64> = None;
    let mut last: Option<usize> = if scores[0].shift.x == 0 && scores[0].shift.y == 0 {
        Some(0)
    } else {
        None
    };
    let mut i: usize = 1;
    assert(scores@.take(1)[0] == scores@[0]);
    while i < scores.len()
        invariant
            1 <= i <= scores@.len(),
            forall|j: int|
                0 <= j < scores@.len() ==> -16 <= (#[trigger] scores@[j]).shift.x <= 16 && -16
                    <= scores@[j].shift.y <= 16,
            best < i,
            forall|j: int| 0 <= j < i ==> !is_preferred(#[trigger] scores@[j], scores@[best as int]),
            forall|j: int|
                0 <= j < best ==> is_preferred(scores@[best as int], #[trigger] scores@[j]),
            runner_up is None <==> i == 1,
            runner_up matches Some(score) ==> (exists|j: int|
                0 <= j < i && j != best && (#[trigger] scores@[j]).score == score),
            runner_up matches Some(score) ==> forall|j: int|
                0 <= j < i && j != best ==> (#[trigger] scores@[j]).score <= score,
            last is None ==> forall|j: int|
                0 <= j < i ==> (#[trigger] scores@[j]).shift != (Shift { x: 0, y: 0 }),
            last matches Some(k) ==> k < i && scores@[k as int].shift == (Shift { x: 0, y: 0 })
                && forall|j: int|
                k < j < i ==> (#[trigger] scores@[j]).shift != (Shift { x: 0, y: 0 }),
        decreases scores@.len() - i,
    {
        let next: ShiftScore = scores[i];
        let current: ShiftScore = scores[best];
        let preferred: bool = next.score > current.score || (next.score == current.score && length(
            next.shift,
        ) < length(current.shift));
        let loser: i64 = if preferred {
            current.score
        } else {
            next.score
        };
        let ghost beaten = if preferred {
            best as int
        } else {
            i as int
        };
        if preferred {
            best = i;
        }
        let ghost earlier = runner_up;
        runner_up =
        match runner_up {
            None => Some(loser),
            Some(score) => if loser > score {
                Some(loser)
            } else {
                Some(score)
            },
        };
        proof {
            assert(scores@[beaten].score == loser);
            if let Some(score) = earlier {
                if loser <= score {
                    let j = choose|j: int|
                        0 <= j < i && j != (if preferred {
                            beaten
                        } else {
                            best as int
                        }) && (#[trigger] scores@[j]).score == score;
                    assert(scores@[j].score == score && j != best);
                }
            }
        }
        if next.shift.x == 0 && next.shift.y == 0 {
            last = Some(i);
        }
        i += 1;
    }
    let unshifted: Option<i64> = match last {
        None => None,
        Some(k) => {
            assert(is_last_unshifted(scores@, k as int));
            Some(scores[k].score)
        },
    };
    Some(RankedShift { best, runner_up, unshifted })
}

/// The shift that the patches agree on.
#[derive(Debug, Clone, Copy, PartialEq, Eq, Structural)]
pub struct Consensus {
    pub shift: Shift,
    pub support: usize,
}

pub open spec fn columns(shifts: Seq<Shift>) -> Seq<i64> {
    shifts.map_values(|s: Shift| s.x as i64)
}

pub open spec fn rows(shifts: Seq<Shift>) -> Seq<i64> {
    shifts.map_values(|s: Shift| s.y as i64)
}

/// The shift differs from another by no more than one pixel in each direction.
pub open spec fn is_close(shift: Shift, x: int, y: int) -> bool {
    -1 <= shift.x - x <= 1 && -1 <= shift.y - y <= 1
}

/// The number of shifts close to another.
pub open spec fn support_of(shifts: Seq<Shift>, x: int, y: int) -> int
    decreases shifts.len(),
{
    if shifts.len() == 0 {
        0
    } else {
        support_of(shifts.drop_last(), x, y) + (if is_close(shifts.last(), x, y) {
            1int
        } else {
            0
        })
    }
}

/// The patches agree: four and no less than half of them are close to the median,
/// which is a shift at all.
pub open spec fn has_consensus(shifts: Seq<Shift>) -> bool {
    let x = median_of(columns(shifts)) as int;
    let y = median_of(rows(shifts)) as int;
    let support = support_of(shifts, x, y);
    &&& shifts.len() > 0
    &&& support >= FOCUS_FULL_RES_ALIGNMENT_MIN_PATCHES
    &&& support * 2 >= shifts.len()
    &&& !(x == 0 && y == 0)
}

/// The shift that the patches agree on: the median in both directions.
pub fn shift_consensus(shifts: &Vec<Shift>) -> (consensus: Option<Consensus>)
    requires
        shifts@.len() <= usize::MAX / 2,
        forall|i: int|
            0 <= i < shifts@.len() ==> -16 <= (#[trigger] shifts@[i]).x <= 16 && -16 <= shifts@[i].y
                <= 16,
    ensures
        consensus is Some <==> has_consensus(shifts@),
        consensus matches Some(found) ==> found.shift.x == median_of(columns(shifts@))
            && found.shift.y == median_of(rows(shifts@)) && found.support == support_of(
            shifts@,
            found.shift.x as int,
            found.shift.y as int,
        ),
{
    let mut xs: Vec<i64> = Vec::new();
    let mut ys: Vec<i64> = Vec::new();
    let mut i: usize = 0;
    while i < shifts.len()
        invariant
            i <= shifts@.len(),
            xs@ == columns(shifts@).take(i as int),
            ys@ == rows(shifts@).take(i as int),
        decreases shifts@.len() - i,
    {
        xs.push(shifts[i].x as i64);
        ys.push(shifts[i].y as i64);
        i += 1;
        assert(columns(shifts@).take(i as int) =~= columns(shifts@).take(i - 1).push(
            shifts@[i - 1].x as i64,
        ));
        assert(rows(shifts@).take(i as int) =~= rows(shifts@).take(i - 1).push(
            shifts@[i - 1].y as i64,
        ));
    }
    assert(xs@ =~= columns(shifts@));
    assert(ys@ =~= rows(shifts@));
    let (middle_x, middle_y) = match (median(xs), median(ys)) {
        (Some(x), Some(y)) => (x, y),
        _ => {
            return None;
        },
    };
    proof {
        crate::order::law_median_is_a_key(columns(shifts@));
        crate::order::law_median_is_a_key(rows(shifts@));
        assert forall|i: int| 0 <= i < shifts@.len() implies -16 <= #[trigger] columns(shifts@)[i]
            <= 16 by {
            assert(-16 <= shifts@[i].x <= 16);
        }
        assert forall|i: int| 0 <= i < shifts@.len() implies -16 <= #[trigger] rows(shifts@)[i]
            <= 16 by {
            assert(-16 <= shifts@[i].y <= 16);
        }
    }
    let x: i32 = middle_x as i32;
    let y: i32 = middle_y as i32;
    let mut support: usize = 0;
    let mut k: usize = 0;
    assert(shifts@.take(0) =~= Seq::<Shift>::empty());
    while k < shifts.len()
        invariant
            k <= shifts@.len(),
            -16 <= x <= 16,
            -16 <= y <= 16,
            forall|i: int|
                0 <= i < shifts@.len() ==> -16 <= (#[trigger] shifts@[i]).x <= 16 && -16
                    <= shifts@[i].y <= 16,
            support <= k,
            support == support_of(shifts@.take(k as int), x as int, y as int),
        decreases shifts@.len() - k,
    {
        assert(shifts@.take(k + 1).drop_last() =~= shifts@.take(k as int));
        let dx: i32 = shifts[k].x - x;
        let dy: i32 = shifts[k].y - y;
        if -1 <= dx && dx <= 1 && -1 <= dy && dy <= 1 {
            support += 1;
        }
        k += 1;
    }
    assert(shifts@.take(shifts@.len() as int) =~= shifts@);
    if support < FOCUS_FULL_RES_ALIGNMENT_MIN_PATCHES || support * 2 < shifts.len() || (x == 0 && y
        == 0) {
        None
    } else {
        Some(Consensus { shift: Shift { x, y }, support })
    }
}

/// The patches are spread evenly over what layer and canvas share: patch `step` lies that many
/// fifths of the way from its first to its last column or row, without the fraction, and none on
/// its ends.
pub proof fn law_patches_are_spread_evenly(start: int, length: int, canvas: int, step: int)
    requires
        0 <= start,
        has_room_for_patches(start, length, canvas),
        0 <= step < 4,
    ensures
        ({
            let first = if start < canvas - 1 {
                start
            } else {
                canvas - 1
            };
            let last = if start + length < canvas {
                start + length - 1
            } else {
                canvas - 1
            };
            let place = start + patch_coordinate(start, length, canvas, step);
            &&& last - first >= 18
            &&& first < place < last
            &&& 0 <= (last - first) * (step + 1) - 5 * (place - first) < 5
        }),
{
    let span = last_shared(start, length, canvas) - first_shared(start, canvas);
    assert(span * (step + 1) >= span && span * (step + 1) <= 4 * span) by (nonlinear_arith)
        requires
            0 <= step < 4,
            span >= 0,
    ;
}

/// The best shift of a patch scores highest; of several that do, it moves the patch least, right
/// and down taken together, and of those it was measured first.
pub proof fn law_best_shifts_score_highest(scores: Seq<ShiftScore>, k: int, j: int)
    requires
        is_best(scores, k),
        0 <= j < scores.len(),
    ensures
        0 <= k < scores.len(),
        scores[j].score <= scores[k].score,
        scores[j].score == scores[k].score ==> {
            let own = (if scores[k].shift.x < 0 {
                -scores[k].shift.x
            } else {
                scores[k].shift.x as int
            }) + (if scores[k].shift.y < 0 {
                -scores[k].shift.y
            } else {
                scores[k].shift.y as int
            });
            let other = (if scores[j].shift.x < 0 {
                -scores[j].shift.x
            } else {
                scores[j].shift.x as int
            }) + (if scores[j].shift.y < 0 {
                -scores[j].shift.y
            } else {
                scores[j].shift.y as int
            });
            own <= other && (own == other ==> k <= j)
        },
{
    assert(!is_preferred(scores[j], scores[k]));
    if j < k {
        assert(is_preferred(scores[k], scores[j]));
    }
}

/// The runner-up is the best score but for the best entry's own.
pub proof fn law_runners_up_are_next(
    scores: Seq<ShiftScore>,
    k: int,
    runner_up: Option<i64>,
    j: int,
)
    requires
        is_runner_up(scores, k, runner_up),
        0 <= k < scores.len(),
        0 <= j < scores.len(),
        j != k,
    ensures
        runner_up is Some,
        scores[j].score <= runner_up->0,
        exists|i: int|
            0 <= i < scores.len() && i != k && (#[trigger] scores[i]).score == runner_up->0,
{
    assert(scores[j].score <= runner_up->0);
}

/// Every patch that differs from a shift by at most one pixel in each direction supports it, and
/// no other does: one more patch adds one or nothing.
pub proof fn law_close_shifts_support_each_other(shifts: Seq<Shift>, more: Shift, x: int, y: int)
    ensures
        support_of(shifts.push(more), x, y) == support_of(shifts, x, y) + if x - 1 <= more.x <= x + 1
            && y - 1 <= more.y <= y + 1 {
            1int
        } else {
            0int
        },
        support_of(Seq::empty(), x, y) == 0,
{
    assert(shifts.push(more).drop_last() =~= shifts);
}

/// Four patches or more that all ask for the same shift agree on it; if they ask for none, there is
/// no consensus.
pub proof fn law_patches_agree_on_a_common_shift(shifts: Seq<Shift>, shift: Shift)
    requires
        4 <= shifts.len(),
        forall|i: int| 0 <= i < shifts.len() ==> #[trigger] shifts[i] == shift,
    ensures
        median_of(columns(shifts)) == shift.x,
        median_of(rows(shifts)) == shift.y,
        support_of(shifts, shift.x as int, shift.y as int) == shifts.len(),
        has_consensus(shifts) <==> shift.x != 0 || shift.y != 0,
{
    let (a, b) = (columns(shifts), rows(shifts));
    law_median_is_a_key(a);
    law_median_is_a_key(b);
    let i = choose|i: int| 0 <= i < a.len() && a[i] == median_of(a);
    let j = choose|j: int| 0 <= j < b.len() && b[j] == median_of(b);
    assert(shifts[i] == shift);
    assert(shifts[j] == shift);
    lemma_all_support(shifts, shift);
}

proof fn lemma_all_support(shifts: Seq<Shift>, shift: Shift)
    requires
        forall|i: int| 0 <= i < shifts.len() ==> #[trigger] shifts[i] == shift,
    ensures
        support_of(shifts, shift.x as int, shift.y as int) == shifts.len(),
    decreases shifts.len(),
{
    if shifts.len() > 0 {
        let rest = shifts.drop_last();
        assert forall|i: int| 0 <= i < rest.len() implies #[trigger] rest[i] == shift by {
            assert(shifts[i] == shift);
        }
        lemma_all_support(rest, shift);
        assert(shifts.last() == shift);
    }
}

/// A consensus has the support of four patches and of half of them, and is a shift at all.
pub proof fn law_consensus_needs_support(shifts: Seq<Shift>)
    ensures
        ({
            let (x, y) = (median_of(columns(shifts)) as int, median_of(rows(shifts)) as int);
            has_consensus(shifts) <==> (x != 0 || y != 0) && support_of(shifts, x, y) >= 4 && 2
                * support_of(shifts, x, y) >= shifts.len()
        }),
{
    if shifts.len() == 0 {
        assert(support_of(
            shifts,
            median_of(columns(shifts)) as int,
            median_of(rows(shifts)) as int,
        ) == 0);
    }
}

/// Every shift of at most 16 pixels that is less than a coarse step away from a coarse shift is
/// tried after it, and no other.
pub proof fn law_fine_shifts_close_the_gaps(coarse: Shift, x: int, y: int)
    ensures
        is_fine_shift(coarse, x, y) <==> (x != coarse.x || y != coarse.y) && -4 < x - coarse.x < 4
            && -4 < y - coarse.y < 4 && -17 < x < 17 && -17 < y < 17,
{
}

/// If any score is that of no shift, the last such one counts, and only such a one does.
pub proof fn law_the_last_unshifted_score_counts(scores: Seq<ShiftScore>, j: int)
    requires
        0 <= j < scores.len(),
        scores[j].shift.x == 0,
        scores[j].shift.y == 0,
    ensures
        exists|k: int| #[trigger] is_last_unshifted(scores, k),
        forall|k: int| #[trigger]
            is_last_unshifted(scores, k) ==> j <= k < scores.len() && scores[k].shift.x == 0
                && scores[k].shift.y == 0,
    decreases scores.len() - j,
{
    assert forall|k: int| #[trigger] is_last_unshifted(scores, k) implies j <= k by {
        if k < j {
            assert(scores[j].shift != Shift { x: 0, y: 0 });
        }
    }
    if forall|i: int| j < i < scores.len() ==> (#[trigger] scores[i]).shift != (Shift { x: 0, y: 0 }) {
        assert(is_last_unshifted(scores, j));
    } else {
        let i = choose|i: int|
            j < i < scores.len() && (#[trigger] scores[i]).shift == (Shift { x: 0, y: 0 });
        law_the_last_unshifted_score_counts(scores, i);
    }
}

/// A list holds the shifts that stand in it, and no other.
pub proof fn law_lists_hold_their_shifts(list: Seq<Shift>, k: int, x: int, y: int)
    ensures
        0 <= k < list.len() ==> lists_shift(list, list[k].x as int, list[k].y as int),
        lists_shift(list, x, y) ==> exists|j: int|
            #![trigger list[j]]
            0 <= j < list.len() && list[j].x == x && list[j].y == y,
{
    if 0 <= k < list.len() {
        assert(list[k] == list[k]);
    }
}

} // verus!
