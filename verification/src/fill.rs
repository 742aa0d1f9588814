//! Filling the invalid margins of a canvas by reflection at the nearest valid
//! pixels.
//!
//! A plan says for every invalid pixel which pixel it is copied from, and between
//! which valid neighbours it lies, in the order in which the pixels are filled.

use vstd::prelude::*;

use crate::grid::cell;
use crate::grid::lemma_cell;
use crate::grid::lemma_split;
use crate::masks::set_count;
use crate::raster::Raster;

verus! {

/// One pixel of a line to fill.
#[derive(Clone, Copy, Debug, PartialEq, Eq, Structural)]
pub struct FillStep {
    /// The row or the column that is filled.
    pub line: usize,
    /// The position in the line that is filled.
    pub target: usize,
    /// The position in the line that is copied.
    pub source: usize,
    /// The last valid position before the run of invalid ones.
    pub left: Option<usize>,
    /// The first valid position behind the run.
    pub right: Option<usize>,
}

/// The position mirrored at the nearer end of its run, within a line of `limit`
/// positions.
pub open spec fn reflected(target: int, limit: int, left: Option<int>, right: Option<int>) -> int {
    match (left, right) {
        (Some(l), Some(r)) => if target - l <= r - target {
            mirror_left(target, l)
        } else {
            mirror_right(target, r, limit)
        },
        (Some(l), None) => mirror_left(target, l),
        (None, Some(r)) => mirror_right(target, r, limit),
        (None, None) => target,
    }
}

pub open spec fn mirror_left(target: int, left: int) -> int {
    if left - (target - left) < 0 {
        0
    } else {
        left - (target - left)
    }
}

pub open spec fn mirror_right(target: int, right: int, limit: int) -> int {
    if right + (right - target) > limit - 1 {
        limit - 1
    } else {
        right + (right - target)
    }
}

pub open spec fn as_int(position: Option<usize>) -> Option<int> {
    match position {
        Some(p) => Some(p as int),
        None => None,
    }
}

/// The position that an invalid one is copied from: its mirror image at the
/// nearer valid end.
pub fn reflected_run_source_index(
    target: usize,
    limit: usize,
    left: Option<usize>,
    right: Option<usize>,
) -> (source: usize)
    requires
        target < limit,
        left matches Some(l) ==> l < target,
        right matches Some(r) ==> target < r < limit,
    ensures
        source == reflected(target as int, limit as int, as_int(left), as_int(right)),
        source < limit,
{
    match (left, right) {
        (Some(l), Some(r)) => {
            let before: usize = target - l;
            let behind: usize = r - target;
            if before <= behind {
                l.saturating_sub(before)
            } else if limit - 1 - r < behind {
                limit - 1
            } else {
                r + behind
            }
        },
        (Some(l), None) => l.saturating_sub(target - l),
        (None, Some(r)) => {
            let behind: usize = r - target;
            if limit - 1 - r < behind {
                limit - 1
            } else {
                r + behind
            }
        },
        (None, None) => target,
    }
}

/// The last valid position before `at`.
pub open spec fn valid_before(valid: Seq<bool>, at: int) -> Option<usize>
    decreases at,
{
    if at <= 0 {
        None
    } else if valid[at - 1] {
        Some((at - 1) as usize)
    } else {
        valid_before(valid, at - 1)
    }
}

/// The first valid position at or behind `at`.
pub open spec fn valid_behind(valid: Seq<bool>, at: int) -> Option<usize>
    decreases valid.len() - at,
{
    if at >= valid.len() {
        None
    } else if valid[at] {
        Some(at as usize)
    } else {
        valid_behind(valid, at + 1)
    }
}

/// How the invalid position `target` is filled. What lies before it in the line is
/// valid or filled by then; a mirror image behind it that is invalid gives way
/// to the valid neighbour.
pub open spec fn fill_step(valid: Seq<bool>, line: usize, target: int) -> FillStep {
    let left = valid_before(valid, target);
    let right = valid_behind(valid, target);
    let mirror = reflected(target, valid.len() as int, as_int(left), as_int(right));
    let source = if mirror < target || valid[mirror] {
        mirror as usize
    } else if left is Some {
        left->0
    } else {
        right->0
    };
    FillStep { line, target: target as usize, source, left, right }
}

/// The steps for the first `len` positions of a line with a valid position.
pub open spec fn fill_steps(valid: Seq<bool>, line: usize, len: int) -> Seq<FillStep>
    decreases len,
{
    if len <= 0 {
        Seq::empty()
    } else if valid[len - 1] {
        fill_steps(valid, line, len - 1)
    } else {
        fill_steps(valid, line, len - 1).push(fill_step(valid, line, len - 1))
    }
}

pub open spec fn any_valid(valid: Seq<bool>) -> bool {
    exists|i: int| 0 <= i < valid.len() && #[trigger] valid[i]
}

/// The steps that fill a line; none if it holds nothing valid.
pub open spec fn line_plan(valid: Seq<bool>, line: usize) -> Seq<FillStep> {
    if any_valid(valid) {
        fill_steps(valid, line, valid.len() as int)
    } else {
        Seq::empty()
    }
}

proof fn lemma_valid_before(valid: Seq<bool>, start: int, at: int)
    requires
        0 <= start <= at <= valid.len(),
        forall|i: int| start <= i < at ==> !(#[trigger] valid[i]),
        start == 0 || valid[start - 1],
    ensures
        valid_before(valid, at) == if start == 0 {
            None::<usize>
        } else {
            Some((start - 1) as usize)
        },
    decreases at - start,
{
    if at > start {
        assert(!valid[at - 1]);
        lemma_valid_before(valid, start, at - 1);
    }
}

proof fn lemma_valid_behind(valid: Seq<bool>, at: int, end: int)
    requires
        0 <= at <= end <= valid.len(),
        forall|i: int| at <= i < end ==> !(#[trigger] valid[i]),
        end == valid.len() || valid[end],
    ensures
        valid_behind(valid, at) == if end == valid.len() {
            None::<usize>
        } else {
            Some(end as usize)
        },
    decreases end - at,
{
    if at < end {
        assert(!valid[at]);
        lemma_valid_behind(valid, at + 1, end);
    }
}

/// Plans how the invalid positions of a line are filled.
fn plan_line(valid: &Vec<bool>, line: usize, steps: &mut Vec<FillStep>)
    ensures
        final(steps)@ == old(steps)@ + line_plan(valid@, line),
{
    let ghost before = steps@;
    let width: usize = valid.len();
    let mut start: usize = 0;
    let ghost mut added: Seq<FillStep> = Seq::empty();
    while start < width
        invariant
            start <= width,
            width == valid@.len(),
            before == old(steps)@,
            start == 0 || start == width || valid@[start - 1] || valid@[start as int],
            start > 0 ==> any_valid(valid@),
            added == fill_steps(valid@, line, start as int),
            steps@ == before + added,
        decreases width - start,
    {
        if valid[start] {
            assert(any_valid(valid@)) by {
                assert(valid@[start as int]);
            }
            start += 1;
        } else {
            let ghost run = start as int;
            let mut end: usize = start + 1;
            while end < width && !valid[end]
                invariant
                    start < end <= width,
                    width == valid@.len(),
                    forall|i: int| start <= i < end ==> !(#[trigger] valid@[i]),
                decreases width - end,
            {
                end += 1;
            }
            let left: Option<usize> = if start == 0 {
                None
            } else {
                Some(start - 1)
            };
            let right: Option<usize> = if end < width {
                Some(end)
            } else {
                None
            };
            if left.is_none() && right.is_none() {
                proof {
                    assert(start == 0 && end == width);
                    assert(!any_valid(valid@));
                    assert(steps@ =~= before);
                    assert(before + line_plan(valid@, line) =~= before);
                }
                return ;
            }
            assert(any_valid(valid@)) by {
                if right is Some {
                    assert(valid@[end as int]);
                } else {
                    assert(valid@[start - 1]);
                }
            }
            let mut target: usize = start;
            while target < end
                invariant
                    run == start,
                    start <= target <= end <= width,
                    width == valid@.len(),
                    start == 0 || valid@[start - 1],
                    end == width || valid@[end as int],
                    start > 0 || end < width,
                    forall|i: int| start <= i < end ==> !(#[trigger] valid@[i]),
                    left == (if start == 0 {
                        None::<usize>
                    } else {
                        Some((start - 1) as usize)
                    }),
                    right == (if end < width {
                        Some(end)
                    } else {
                        None::<usize>
                    }),
                    added == fill_steps(valid@, line, target as int),
                    steps@ == before + added,
                decreases end - target,
            {
                let mirror: usize = reflected_run_source_index(target, width, left, right);
                let source: usize = if mirror < target || valid[mirror] {
                    mirror
                } else {
                    match left {
                        Some(l) => l,
                        None => end,
                    }
                };
                let step = FillStep { line, target, source, left, right };
                proof {
                    lemma_valid_before(valid@, start as int, target as int);
                    lemma_valid_behind(valid@, target as int, end as int);
                    assert(step == fill_step(valid@, line, target as int));
                    assert(!valid@[target as int]);
                    assert(fill_steps(valid@, line, target + 1) =~= fill_steps(
                        valid@,
                        line,
                        target as int,
                    ).push(step));
                    assert((before + added).push(step) =~= before + added.push(step));
                    added = added.push(step);
                }
                steps.push(step);
                target += 1;
            }
            start = end;
        }
    }
    proof {
        if !any_valid(valid@) {
            assert(width == 0);
        }
        assert(before + line_plan(valid@, line) =~= before + added);
    }
}

/// The valid pixels of row `y`.
pub open spec fn row_of(mask: Seq<u8>, width: int, y: int) -> Seq<bool> {
    Seq::new(width as nat, |x: int| mask[cell(width, x, y)] > 0)
}

/// The valid pixels of column `x`.
pub open spec fn column_of(mask: Seq<u8>, width: int, height: int, x: int) -> Seq<bool> {
    Seq::new(height as nat, |y: int| mask[cell(width, x, y)] > 0)
}

/// The steps that fill the first `rows` rows.
pub open spec fn rows_plan(mask: Seq<u8>, width: int, rows: int) -> Seq<FillStep>
    decreases rows,
{
    if rows <= 0 {
        Seq::empty()
    } else {
        rows_plan(mask, width, rows - 1) + line_plan(
            row_of(mask, width, rows - 1),
            (rows - 1) as usize,
        )
    }
}

/// The steps that fill the first `columns` columns.
pub open spec fn columns_plan(mask: Seq<u8>, width: int, height: int, columns: int) -> Seq<FillStep>
    decreases columns,
{
    if columns <= 0 {
        Seq::empty()
    } else {
        columns_plan(mask, width, height, columns - 1) + line_plan(
            column_of(mask, width, height, columns - 1),
            (columns - 1) as usize,
        )
    }
}

/// A mask pixel after its line was filled.
pub open spec fn filled_value(value: u8, line_has_valid: bool) -> u8 {
    if value == 0 && line_has_valid {
        255
    } else {
        value
    }
}

/// Plans how the invalid pixels are filled along their rows, and marks them as
/// valid. A row without a valid pixel stays as it is.
pub fn fill_invalid_runs_horizontally(mask: &mut Raster<u8>) -> (steps: Vec<FillStep>)
    requires
        old(mask).well_formed(),
    ensures
        final(mask).well_formed(),
        final(mask).same_size(old(mask)),
        steps@ == rows_plan(old(mask).pixels@, old(mask).width as int, old(mask).height as int),
        forall|x: int, y: int|
            0 <= x < old(mask).width && 0 <= y < old(mask).height ==> #[trigger] final(mask).at(x, y)
                == filled_value(
                old(mask).at(x, y),
                any_valid(row_of(old(mask).pixels@, old(mask).width as int, y)),
            ),
{
    let ghost before = mask.pixels@;
    let ghost w = mask.width as int;
    let ghost h = mask.height as int;
    let width: usize = mask.width as usize;
    let height: usize = mask.height as usize;
    let size: usize = mask.pixels.len();
    let mut steps: Vec<FillStep> = Vec::new();
    let mut y: usize = 0;
    while y < height
        invariant
            y <= height,
            w == width,
            h == height,
            w == mask.width,
            h == mask.height,
            size == w * h,
            before.len() == size,
            mask.pixels@.len() == size,
            steps@ == rows_plan(before, w, y as int),
            forall|a: int, b: int|
                #![trigger mask.pixels@[cell(w, a, b)]]
                0 <= a < w && 0 <= b < h ==> mask.pixels@[cell(w, a, b)] == if b < y {
                    filled_value(before[cell(w, a, b)], any_valid(row_of(before, w, b)))
                } else {
                    before[cell(w, a, b)]
                },
        decreases height - y,
    {
        let mut valid: Vec<bool> = Vec::new();
        let mut any: bool = false;
        let mut x: usize = 0;
        while x < width
            invariant
                x <= width,
                y < height,
                w == width,
                h == height,
                size == w * h,
                before.len() == size,
                mask.pixels@.len() == size,
                valid@.len() == x,
                any <==> exists|i: int| 0 <= i < x && #[trigger] valid@[i],
                forall|i: int|
                    0 <= i < x ==> #[trigger] valid@[i] == (before[cell(w, i, y as int)] > 0),
                forall|a: int|
                    #![trigger mask.pixels@[cell(w, a, y as int)]]
                    0 <= a < w ==> mask.pixels@[cell(w, a, y as int)] == before[cell(
                        w,
                        a,
                        y as int,
                    )],
            decreases width - x,
        {
            proof {
                lemma_cell(w, h, x as int, y as int);
                assert(mask.pixels@[cell(w, x as int, y as int)] == before[cell(
                    w,
                    x as int,
                    y as int,
                )]);
            }
            let set: bool = mask.pixels[y * width + x] > 0;
            let ghost so_far = valid@;
            valid.push(set);
            proof {
                assert(valid@[x as int] == set);
                assert forall|i: int| 0 <= i < x implies valid@[i] == #[trigger] so_far[i] by {}
                if any {
                    let i = choose|i: int| 0 <= i < x && #[trigger] so_far[i];
                    assert(valid@[i]);
                }
                if exists|i: int| 0 <= i < x + 1 && #[trigger] valid@[i] {
                    let i = choose|i: int| 0 <= i < x + 1 && #[trigger] valid@[i];
                    if i < x {
                        assert(so_far[i]);
                    }
                }
            }
            if set {
                any = true;
            }
            x += 1;
        }
        proof {
            assert(valid@ =~= row_of(before, w, y as int));
        }
        plan_line(&valid, y, &mut steps);
        if any {
            let mut k: usize = 0;
            while k < width
                invariant
                    k <= width,
                    y < height,
                    w == width,
                    h == height,
                    w == mask.width,
                    h == mask.height,
                    size == w * h,
                    before.len() == size,
                    mask.pixels@.len() == size,
                    any_valid(row_of(before, w, y as int)),
                    valid@ == row_of(before, w, y as int),
                    forall|a: int, b: int|
                        #![trigger mask.pixels@[cell(w, a, b)]]
                        0 <= a < w && 0 <= b < h ==> mask.pixels@[cell(w, a, b)] == if b < y || b
                            == y && a < k {
                            filled_value(before[cell(w, a, b)], any_valid(row_of(before, w, b)))
                        } else {
                            before[cell(w, a, b)]
                        },
                decreases width - k,
            {
                let ghost stage = mask.pixels@;
                proof {
                    lemma_cell(w, h, k as int, y as int);
                }
                if !valid[k] {
                    mask.pixels.set(y * width + k, 255);
                }
                proof {
                    assert forall|a: int, b: int|
                        #![trigger mask.pixels@[cell(w, a, b)]]
                        0 <= a < w && 0 <= b < h implies mask.pixels@[cell(w, a, b)] == if b < y || b
                        == y && a < k + 1 {
                        filled_value(before[cell(w, a, b)], any_valid(row_of(before, w, b)))
                    } else {
                        before[cell(w, a, b)]
                    } by {
                        lemma_cell(w, h, a, b);
                        assert(stage[cell(w, a, b)] == if b < y || b == y && a < k {
                            filled_value(before[cell(w, a, b)], any_valid(row_of(before, w, b)))
                        } else {
                            before[cell(w, a, b)]
                        });
                    }
                }
                k += 1;
            }
        }
        y += 1;
    }
    steps
}

/// Plans how the invalid pixels are filled along their columns, and marks them as
/// valid. A column without a valid pixel stays as it is.
pub fn fill_invalid_runs_vertically(mask: &mut Raster<u8>) -> (steps: Vec<FillStep>)
    requires
        old(mask).well_formed(),
    ensures
        final(mask).well_formed(),
        final(mask).same_size(old(mask)),
        steps@ == columns_plan(
            old(mask).pixels@,
            old(mask).width as int,
            old(mask).height as int,
            old(mask).width as int,
        ),
        forall|x: int, y: int|
            0 <= x < old(mask).width && 0 <= y < old(mask).height ==> #[trigger] final(mask).at(x, y)
                == filled_value(
                old(mask).at(x, y),
                any_valid(
                    column_of(
                        old(mask).pixels@,
                        old(mask).width as int,
                        old(mask).height as int,
                        x,
                    ),
                ),
            ),
{
    let ghost before = mask.pixels@;
    let ghost w = mask.width as int;
    let ghost h = mask.height as int;
    let width: usize = mask.width as usize;
    let height: usize = mask.height as usize;
    let size: usize = mask.pixels.len();
    let mut steps: Vec<FillStep> = Vec::new();
    let mut x: usize = 0;
    while x < width
        invariant
            x <= width,
            w == width,
            h == height,
            w == mask.width,
            h == mask.height,
            size == w * h,
            before.len() == size,
            mask.pixels@.len() == size,
            steps@ == columns_plan(before, w, h, x as int),
            forall|a: int, b: int|
                #![trigger mask.pixels@[cell(w, a, b)]]
                0 <= a < w && 0 <= b < h ==> mask.pixels@[cell(w, a, b)] == if a < x {
                    filled_value(before[cell(w, a, b)], any_valid(column_of(before, w, h, a)))
                } else {
                    before[cell(w, a, b)]
                },
        decreases width - x,
    {
        let mut valid: Vec<bool> = Vec::new();
        let mut any: bool = false;
        let mut y: usize = 0;
        while y < height
            invariant
                y <= height,
                x < width,
                w == width,
                h == height,
                size == w * h,
                before.len() == size,
                mask.pixels@.len() == size,
                valid@.len() == y,
                any <==> exists|i: int| 0 <= i < y && #[trigger] valid@[i],
                forall|i: int|
                    0 <= i < y ==> #[trigger] valid@[i] == (before[cell(w, x as int, i)] > 0),
                forall|b: int|
                    #![trigger mask.pixels@[cell(w, x as int, b)]]
                    0 <= b < h ==> mask.pixels@[cell(w, x as int, b)] == before[cell(
                        w,
                        x as int,
                        b,
                    )],
            decreases height - y,
        {
            proof {
                lemma_cell(w, h, x as int, y as int);
                assert(mask.pixels@[cell(w, x as int, y as int)] == before[cell(
                    w,
                    x as int,
                    y as int,
                )]);
            }
            let set: bool = mask.pixels[y * width + x] > 0;
            let ghost so_far = valid@;
            valid.push(set);
            proof {
                assert(valid@[y as int] == set);
                assert forall|i: int| 0 <= i < y implies valid@[i] == #[trigger] so_far[i] by {}
                if any {
                    let i = choose|i: int| 0 <= i < y && #[trigger] so_far[i];
                    assert(valid@[i]);
                }
                if exists|i: int| 0 <= i < y + 1 && #[trigger] valid@[i] {
                    let i = choose|i: int| 0 <= i < y + 1 && #[trigger] valid@[i];
                    if i < y {
                        assert(so_far[i]);
                    }
                }
            }
            if set {
                any = true;
            }
            y += 1;
        }
        proof {
            assert(valid@ =~= column_of(before, w, h, x as int));
        }
        plan_line(&valid, x, &mut steps);
        if any {
            let mut k: usize = 0;
            while k < height
                invariant
                    k <= height,
                    x < width,
                    w == width,
                    h == height,
                    w == mask.width,
                    h == mask.height,
                    size == w * h,
                    before.len() == size,
                    mask.pixels@.len() == size,
                    any_valid(column_of(before, w, h, x as int)),
                    valid@ == column_of(before, w, h, x as int),
                    forall|a: int, b: int|
                        #![trigger mask.pixels@[cell(w, a, b)]]
                        0 <= a < w && 0 <= b < h ==> mask.pixels@[cell(w, a, b)] == if a < x || a
                            == x && b < k {
                            filled_value(
                                before[cell(w, a, b)],
                                any_valid(column_of(before, w, h, a)),
                            )
                        } else {
                            before[cell(w, a, b)]
                        },
                decreases height - k,
            {
                let ghost stage = mask.pixels@;
                proof {
                    lemma_cell(w, h, x as int, k as int);
                }
                if !valid[k] {
                    mask.pixels.set(k * width + x, 255);
                }
                proof {
                    assert forall|a: int, b: int|
                        #![trigger mask.pixels@[cell(w, a, b)]]
                        0 <= a < w && 0 <= b < h implies mask.pixels@[cell(w, a, b)] == if a < x || a
                        == x && b < k + 1 {
                        filled_value(before[cell(w, a, b)], any_valid(column_of(before, w, h, a)))
                    } else {
                        before[cell(w, a, b)]
                    } by {
                        lemma_cell(w, h, a, b);
                        assert(stage[cell(w, a, b)] == if a < x || a == x && b < k {
                            filled_value(
                                before[cell(w, a, b)],
                                any_valid(column_of(before, w, h, a)),
                            )
                        } else {
                            before[cell(w, a, b)]
                        });
                    }
                }
                k += 1;
            }
        }
        x += 1;
    }
    steps
}

/// How the margins of a canvas are filled: first along the rows, then along the
/// columns.
pub struct MarginPlan {
    pub rows: Vec<FillStep>,
    pub columns: Vec<FillStep>,
    /// Invalid pixels that stay.
    pub remaining: usize,
}

pub open spec fn has_valid(mask: Seq<u8>) -> bool {
    exists|i: int| 0 <= i < mask.len() && #[trigger] mask[i] > 0
}

proof fn lemma_set_count_full(mask: Seq<u8>, len: int)
    requires
        0 <= len <= mask.len(),
        forall|i: int| 0 <= i < len ==> #[trigger] mask[i] > 0,
    ensures
        set_count(mask, len) == len,
    decreases len,
{
    if len > 0 {
        lemma_set_count_full(mask, len - 1);
    }
}

/// Plans how the whole canvas is filled. With one valid pixel, no invalid one
/// remains: its row is filled first, and then every column has a valid pixel.
pub fn fill_focus_canvas_margins(mask: &mut Raster<u8>) -> (plan: MarginPlan)
    requires
        old(mask).well_formed(),
    ensures
        final(mask).well_formed(),
        final(mask).same_size(old(mask)),
        plan.rows@ == rows_plan(
            old(mask).pixels@,
            old(mask).width as int,
            old(mask).height as int,
        ),
        has_valid(old(mask).pixels@) ==> plan.remaining == 0,
        has_valid(old(mask).pixels@) ==> forall|i: int|
            0 <= i < final(mask).pixels@.len() ==> #[trigger] final(mask).pixels@[i] == filled_value(
                old(mask).pixels@[i],
                true,
            ),
        !has_valid(old(mask).pixels@) ==> final(mask).pixels@ == old(mask).pixels@
            && plan.remaining == old(mask).pixels@.len() && plan.rows@.len() == 0
            && plan.columns@.len() == 0,
        exists|between: Raster<u8>|
            {
                &&& between.well_formed()
                &&& between.same_size(old(mask))
                &&& forall|x: int, y: int|
                    0 <= x < old(mask).width && 0 <= y < old(mask).height ==> #[trigger] between.at(
                        x,
                        y,
                    ) == filled_value(
                        old(mask).at(x, y),
                        any_valid(row_of(old(mask).pixels@, old(mask).width as int, y)),
                    )
                &&& plan.columns@ == #[trigger] columns_plan(
                    between.pixels@,
                    old(mask).width as int,
                    old(mask).height as int,
                    old(mask).width as int,
                )
            },
{
    let ghost start = *mask;
    let ghost w = mask.width as int;
    let ghost h = mask.height as int;
    let rows: Vec<FillStep> = fill_invalid_runs_horizontally(mask);
    let ghost between = *mask;
    let columns: Vec<FillStep> = fill_invalid_runs_vertically(mask);
    let set: usize = crate::masks::count_set(&mask.pixels);
    let size: usize = mask.pixels.len();
    proof {
        lemma_margins(&start, &between, mask, rows@, columns@);
        lemma_set_count_bound(mask.pixels@, size as int);
    }
    MarginPlan { rows, columns, remaining: size - set }
}

proof fn lemma_set_count_bound(mask: Seq<u8>, len: int)
    requires
        0 <= len,
    ensures
        0 <= set_count(mask, len) <= len,
    decreases len,
{
    if len > 0 {
        lemma_set_count_bound(mask, len - 1);
    }
}

proof fn lemma_set_count_none(mask: Seq<u8>, len: int)
    requires
        0 <= len <= mask.len(),
        forall|i: int| 0 <= i < len ==> #[trigger] mask[i] == 0,
    ensures
        set_count(mask, len) == 0,
    decreases len,
{
    if len > 0 {
        lemma_set_count_none(mask, len - 1);
    }
}

proof fn lemma_no_plan(mask: Seq<u8>, width: int, height: int, lines: int)
    requires
        mask.len() == width * height,
        0 <= width,
        0 <= height,
        forall|i: int| 0 <= i < mask.len() ==> #[trigger] mask[i] == 0,
    ensures
        lines <= height ==> rows_plan(mask, width, lines).len() == 0,
        lines <= width ==> columns_plan(mask, width, height, lines).len() == 0,
    decreases lines,
{
    if lines > 0 {
        lemma_no_plan(mask, width, height, lines - 1);
        if lines <= height {
            let row = row_of(mask, width, lines - 1);
            assert forall|x: int| 0 <= x < row.len() implies !(#[trigger] row[x]) by {
                lemma_cell(width, height, x, lines - 1);
            }
            assert(!any_valid(row));
        }
        if lines <= width {
            let column = column_of(mask, width, height, lines - 1);
            assert forall|y: int| 0 <= y < column.len() implies !(#[trigger] column[y]) by {
                lemma_cell(width, height, lines - 1, y);
            }
            assert(!any_valid(column));
        }
    }
}

proof fn lemma_margins(
    start: &Raster<u8>,
    between: &Raster<u8>,
    end: &Raster<u8>,
    rows: Seq<FillStep>,
    columns: Seq<FillStep>,
)
    requires
        start.well_formed(),
        between.well_formed(),
        end.well_formed(),
        between.same_size(start),
        end.same_size(start),
        rows == rows_plan(start.pixels@, start.width as int, start.height as int),
        columns == columns_plan(
            between.pixels@,
            start.width as int,
            start.height as int,
            start.width as int,
        ),
        forall|x: int, y: int|
            0 <= x < start.width && 0 <= y < start.height ==> #[trigger] between.at(x, y)
                == filled_value(
                start.at(x, y),
                any_valid(row_of(start.pixels@, start.width as int, y)),
            ),
        forall|x: int, y: int|
            0 <= x < start.width && 0 <= y < start.height ==> #[trigger] end.at(x, y) == filled_value(
                between.at(x, y),
                any_valid(column_of(between.pixels@, start.width as int, start.height as int, x)),
            ),
    ensures
        has_valid(start.pixels@) ==> set_count(end.pixels@, end.pixels@.len() as int)
            == end.pixels@.len(),
        has_valid(start.pixels@) ==> forall|i: int|
            0 <= i < end.pixels@.len() ==> #[trigger] end.pixels@[i] == filled_value(
                start.pixels@[i],
                true,
            ),
        !has_valid(start.pixels@) ==> end.pixels@ == start.pixels@ && set_count(
            end.pixels@,
            end.pixels@.len() as int,
        ) == 0 && rows.len() == 0 && columns.len() == 0,
{
    let w = start.width as int;
    let h = start.height as int;
    if has_valid(start.pixels@) {
        let i = choose|i: int| 0 <= i < start.pixels@.len() && #[trigger] start.pixels@[i] > 0;
        assert(w > 0) by (nonlinear_arith)
            requires
                0 <= i < w * h,
                w >= 0,
                h >= 0,
        ;
        lemma_split(w, h, i);
        let x0 = i % w;
        let y0 = i / w;
        let row = row_of(start.pixels@, w, y0);
        assert(row[x0]);
        assert forall|x: int| 0 <= x < w implies any_valid(
            #[trigger] column_of(between.pixels@, w, h, x),
        ) by {
            assert(between.at(x, y0) > 0);
            assert(column_of(between.pixels@, w, h, x)[y0]);
        }
        assert forall|j: int| 0 <= j < end.pixels@.len() implies #[trigger] end.pixels@[j]
            == filled_value(start.pixels@[j], true) by {
            lemma_split(w, h, j);
            let x = j % w;
            let y = j / w;
            assert(end.at(x, y) == end.pixels@[j]);
            assert(between.at(x, y) == between.pixels@[j]);
            assert(start.at(x, y) == start.pixels@[j]);
            assert(any_valid(column_of(between.pixels@, w, h, x)));
        }
        assert forall|j: int| 0 <= j < end.pixels@.len() implies #[trigger] end.pixels@[j] > 0 by {}
        lemma_set_count_full(end.pixels@, end.pixels@.len() as int);
    } else {
        assert forall|j: int| 0 <= j < start.pixels@.len() implies #[trigger] start.pixels@[j] == 0 by {
            assert(!(start.pixels@[j] > 0));
        }
        assert forall|j: int|
            #![trigger between.pixels@[j]]
            #![trigger end.pixels@[j]]
            0 <= j < start.pixels@.len() implies between.pixels@[j] == 0 && end.pixels@[j] == 0 by {
            assert(w > 0) by (nonlinear_arith)
                requires
                    0 <= j < w * h,
                    w >= 0,
                    h >= 0,
            ;
            lemma_split(w, h, j);
            let x = j % w;
            let y = j / w;
            let row = row_of(start.pixels@, w, y);
            assert forall|a: int| 0 <= a < row.len() implies !(#[trigger] row[a]) by {
                lemma_cell(w, h, a, y);
            }
            assert(between.at(x, y) == 0);
            let column = column_of(between.pixels@, w, h, x);
            assert forall|b: int| 0 <= b < column.len() implies !(#[trigger] column[b]) by {
                lemma_cell(w, h, x, b);
                let other = row_of(start.pixels@, w, b);
                assert forall|a: int| 0 <= a < other.len() implies !(#[trigger] other[a]) by {
                    lemma_cell(w, h, a, b);
                }
                assert(between.at(x, b) == 0);
            }
            assert(end.at(x, y) == 0);
        }
        assert(end.pixels@ =~= start.pixels@);
        lemma_set_count_none(end.pixels@, end.pixels@.len() as int);
        lemma_no_plan(start.pixels@, w, h, h);
        lemma_no_plan(between.pixels@, w, h, w);
    }
}

proof fn lemma_ends_of_run(valid: Seq<bool>, at: int)
    requires
        0 <= at <= valid.len(),
        valid.len() <= usize::MAX,
    ensures
        match valid_before(valid, at) {
            Some(l) => l < at && valid[l as int] && forall|i: int|
                l < i < at ==> !(#[trigger] valid[i]),
            None => forall|i: int| 0 <= i < at ==> !(#[trigger] valid[i]),
        },
    decreases at,
{
    if at > 0 && !valid[at - 1] {
        lemma_ends_of_run(valid, at - 1);
    }
}

proof fn lemma_end_behind_run(valid: Seq<bool>, at: int)
    requires
        0 <= at <= valid.len(),
        valid.len() <= usize::MAX,
    ensures
        match valid_behind(valid, at) {
            Some(r) => at <= r < valid.len() && valid[r as int] && forall|i: int|
                at <= i < r ==> !(#[trigger] valid[i]),
            None => forall|i: int| at <= i < valid.len() ==> !(#[trigger] valid[i]),
        },
    decreases valid.len() - at,
{
    if at < valid.len() && !valid[at] {
        lemma_end_behind_run(valid, at + 1);
    }
}

/// An invalid position of a line is filled from the mirror image at the nearer valid end, the
/// one before it where both are as near, and what is copied is valid or was filled before. Where
/// the mirror image lies outside of the line or is not there yet, another position of the line
/// that is there stands in.
pub proof fn law_gaps_are_filled_by_reflection(valid: Seq<bool>, line: usize, target: int)
    requires
        valid.len() <= usize::MAX,
        0 <= target < valid.len(),
        !valid[target],
        any_valid(valid),
    ensures
        ({
            let step = fill_step(valid, line, target);
            &&& step.line == line
            &&& step.target == target
            &&& step.source < valid.len()
            &&& step.source < target || valid[step.source as int]
            &&& step.left is Some || step.right is Some
            &&& step.left matches Some(l) ==> l < target && valid[l as int] && forall|i: int|
                l < i < target ==> !(#[trigger] valid[i])
            &&& step.right matches Some(r) ==> target < r < valid.len() && valid[r as int]
                && forall|i: int| target < i < r ==> !(#[trigger] valid[i])
            &&& forall|l: int| #![trigger valid[l]] 0 <= l < target && valid[l] ==> step.left is Some
            &&& forall|r: int|
                #![trigger valid[r]]
                target < r < valid.len() && valid[r] ==> step.right is Some
            &&& step.left is Some && (step.right is None || target - step.left->0 <= step.right->0
                - target) && 0 <= 2 * step.left->0 - target ==> step.source == 2 * step.left->0
                - target
            &&& step.right is Some && (step.left is None || target - step.left->0 > step.right->0
                - target) && 2 * step.right->0 - target < valid.len() && valid[2 * step.right->0
                - target] ==> step.source == 2 * step.right->0 - target
        }),
{
    lemma_ends_of_run(valid, target);
    lemma_end_behind_run(valid, target);
    let k = choose|k: int| 0 <= k < valid.len() && #[trigger] valid[k];
}

/// A plan for a line with a valid position fills each invalid one once, from the first to the
/// last, and no valid one.
pub proof fn law_every_gap_of_a_line_is_filled(valid: Seq<bool>, line: usize, target: int)
    requires
        valid.len() <= usize::MAX,
        any_valid(valid),
        0 <= target < valid.len(),
    ensures
        !valid[target] ==> line_plan(valid, line).contains(fill_step(valid, line, target)),
        forall|k: int|
            #![trigger line_plan(valid, line)[k]]
            0 <= k < line_plan(valid, line).len() ==> !valid[line_plan(
                valid,
                line,
            )[k].target as int] && line_plan(valid, line)[k].line == line,
        forall|j: int, k: int|
            #![trigger line_plan(valid, line)[j], line_plan(valid, line)[k]]
            0 <= j < k < line_plan(valid, line).len() ==> line_plan(valid, line)[j].target
                < line_plan(valid, line)[k].target,
{
    lemma_steps_cover(valid, line, valid.len() as int, target);
}

proof fn lemma_steps_cover(valid: Seq<bool>, line: usize, len: int, target: int)
    requires
        0 <= len <= valid.len(),
        valid.len() <= usize::MAX,
    ensures
        0 <= target < len && !valid[target] ==> fill_steps(valid, line, len).contains(
            fill_step(valid, line, target),
        ),
        forall|k: int|
            #![trigger fill_steps(valid, line, len)[k]]
            0 <= k < fill_steps(valid, line, len).len() ==> fill_steps(valid, line, len)[k].target
                < len && !valid[fill_steps(valid, line, len)[k].target as int] && fill_steps(
                valid,
                line,
                len,
            )[k].line == line,
        forall|j: int, k: int|
            #![trigger fill_steps(valid, line, len)[j], fill_steps(valid, line, len)[k]]
            0 <= j < k < fill_steps(valid, line, len).len() ==> fill_steps(
                valid,
                line,
                len,
            )[j].target < fill_steps(valid, line, len)[k].target,
    decreases len,
{
    if len > 0 {
        lemma_steps_cover(valid, line, len - 1, target);
        let before = fill_steps(valid, line, len - 1);
        let steps = fill_steps(valid, line, len);
        if !valid[len - 1] {
            let own = fill_step(valid, line, len - 1);
            assert(steps == before.push(own));
            if target == len - 1 {
                assert(steps[before.len() as int] == own);
            } else if 0 <= target < len && !valid[target] {
                let k = choose|k: int|
                    0 <= k < before.len() && before[k] == fill_step(valid, line, target);
                assert(steps[k] == before[k]);
            }
            assert forall|k: int| #![trigger steps[k]] 0 <= k < steps.len() implies steps[k].target
                < len && !valid[steps[k].target as int] && steps[k].line == line by {
                if k < before.len() {
                    assert(steps[k] == before[k]);
                }
            }
            assert forall|j: int, k: int|
                #![trigger steps[j], steps[k]]
                0 <= j < k < steps.len() implies steps[j].target < steps[k].target by {
                assert(steps[j] == before[j]);
                if k < before.len() {
                    assert(steps[k] == before[k]);
                }
            }
        }
    }
}

/// All gaps of all rows that hold a valid pixel are filled.
pub proof fn law_every_gap_of_a_row_is_filled(
    mask: Seq<u8>,
    width: int,
    rows: int,
    x: int,
    y: int,
    u: int,
)
    requires
        0 <= x < width <= usize::MAX,
        0 <= u < width,
        0 <= y < rows <= usize::MAX,
        mask[y * width + x] == 0,
        mask[y * width + u] > 0,
    ensures
        exists|k: int|
            0 <= k < rows_plan(mask, width, rows).len() && (#[trigger] rows_plan(
                mask,
                width,
                rows,
            )[k]).line == y && rows_plan(mask, width, rows)[k].target == x,
    decreases rows,
{
    let before = rows_plan(mask, width, rows - 1);
    let valid = row_of(mask, width, rows - 1);
    let last = line_plan(valid, (rows - 1) as usize);
    let all = rows_plan(mask, width, rows);
    assert(all == before + last);
    if y == rows - 1 {
        assert(valid[u]);
        law_every_gap_of_a_line_is_filled(valid, y as usize, x);
        let step = fill_step(valid, y as usize, x);
        let k = choose|k: int| 0 <= k < last.len() && last[k] == step;
        assert(all[before.len() + k] == step);
    } else {
        law_every_gap_of_a_row_is_filled(mask, width, rows - 1, x, y, u);
        let k = choose|k: int|
            0 <= k < before.len() && (#[trigger] before[k]).line == y && before[k].target == x;
        assert(all[k] == before[k]);
    }
}

/// All gaps of all columns that hold a valid pixel are filled.
pub proof fn law_every_gap_of_a_column_is_filled(
    mask: Seq<u8>,
    width: int,
    height: int,
    columns: int,
    x: int,
    y: int,
    v: int,
)
    requires
        0 <= x < columns <= usize::MAX,
        0 <= y < height <= usize::MAX,
        0 <= v < height,
        mask[y * width + x] == 0,
        mask[v * width + x] > 0,
    ensures
        exists|k: int|
            0 <= k < columns_plan(mask, width, height, columns).len() && (#[trigger] columns_plan(
                mask,
                width,
                height,
                columns,
            )[k]).line == x && columns_plan(mask, width, height, columns)[k].target == y,
    decreases columns,
{
    let before = columns_plan(mask, width, height, columns - 1);
    let valid = column_of(mask, width, height, columns - 1);
    let last = line_plan(valid, (columns - 1) as usize);
    let all = columns_plan(mask, width, height, columns);
    assert(all == before + last);
    if x == columns - 1 {
        assert(valid[v]);
        law_every_gap_of_a_line_is_filled(valid, x as usize, y);
        let step = fill_step(valid, x as usize, y);
        let k = choose|k: int| 0 <= k < last.len() && last[k] == step;
        assert(all[before.len() + k] == step);
    } else {
        law_every_gap_of_a_column_is_filled(mask, width, height, columns - 1, x, y, v);
        let k = choose|k: int|
            0 <= k < before.len() && (#[trigger] before[k]).line == x && before[k].target == y;
        assert(all[k] == before[k]);
    }
}

/// Filling marks exactly what it fills: valid pixels keep their value, an invalid one is valid
/// afterwards if its line holds a valid pixel.
pub proof fn law_filled_pixels_are_valid(value: u8, line_has_valid: bool)
    ensures
        value > 0 ==> filled_value(value, line_has_valid) == value,
        value == 0 && line_has_valid ==> filled_value(value, line_has_valid) == 255,
        value == 0 && !line_has_valid ==> filled_value(value, line_has_valid) == 0,
{
}

/// An invalid position is copied from its mirror image at the nearer end of its run, as far from
/// that end as it is itself, or from the end of the line where the image would lie outside.
pub proof fn law_reflections_keep_the_distance(
    target: int,
    limit: int,
    left: Option<int>,
    right: Option<int>,
)
    requires
        0 <= target < limit,
        left matches Some(l) ==> 0 <= l < target,
        right matches Some(r) ==> target < r < limit,
    ensures
        ({
            let source = reflected(target, limit, left, right);
            &&& 0 <= source < limit
            &&& left is None && right is None ==> source == target
            &&& left is Some && (right is None || target - left->0 <= right->0 - target) ==> source
                <= left->0 && (left->0 - source == target - left->0 || source == 0 && left->0 < target
                - left->0)
            &&& right is Some && (left is None || target - left->0 > right->0 - target) ==> source
                >= right->0 && (source - right->0 == right->0 - target || source == limit - 1 && limit
                - 1 - right->0 < right->0 - target)
        }),
{
}

} // verus!
