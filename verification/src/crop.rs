//! The largest rectangle of valid pixels, and the crop to it.

use vstd::prelude::*;

use crate::grid::cell;
use crate::grid::lemma_cell;
use crate::raster::Raster;

verus! {

/// A rectangle of pixels. Its right and bottom edge lie outside.
#[derive(Clone, Copy, Debug, PartialEq, Eq, Structural)]
pub struct Rectangle {
    pub left: usize,
    pub top: usize,
    pub width: usize,
    pub height: usize,
}

impl Rectangle {
    pub open spec fn right(self) -> int {
        self.left + self.width
    }

    pub open spec fn bottom(self) -> int {
        self.top + self.height
    }

    pub open spec fn area(self) -> int {
        self.width * self.height
    }
}

pub open spec fn is_valid(mask: Seq<u8>, width: int, x: int, y: int) -> bool {
    mask[cell(width, x, y)] > 0
}

/// Every pixel of the rectangle is valid, and the rectangle lies in the image.
pub open spec fn is_filled(mask: Seq<u8>, width: int, height: int, area: Rectangle) -> bool {
    &&& area.right() <= width
    &&& area.bottom() <= height
    &&& forall|x: int, y: int|
        #![trigger is_valid(mask, width, x, y)]
        area.left <= x < area.right() && area.top <= y < area.bottom() ==> is_valid(
            mask,
            width,
            x,
            y,
        )
}

/// The order of rectangles of the same area: by bottom edge, then by right edge,
/// then the taller one first.
pub open spec fn comes_first(first: Rectangle, second: Rectangle) -> bool {
    ||| first.bottom() < second.bottom()
    ||| first.bottom() == second.bottom() && first.right() < second.right()
    ||| first.bottom() == second.bottom() && first.right() == second.right() && first.height
        >= second.height
}

/// `best` is the first of the largest valid rectangles.
pub open spec fn is_largest_valid(
    mask: Seq<u8>,
    width: int,
    height: int,
    best: Rectangle,
) -> bool {
    &&& best.area() > 0
    &&& is_filled(mask, width, height, best)
    &&& forall|other: Rectangle|
        #![trigger is_filled(mask, width, height, other)]
        is_filled(mask, width, height, other) ==> other.area() <= best.area() && (other.area()
            == best.area() ==> comes_first(best, other))
}

/// The number of valid pixels that stand on the pixel in column `x` of row `y`,
/// this pixel counted.
spec fn column_height(mask: Seq<u8>, width: int, x: int, y: int) -> int
    decreases y + 1,
{
    if y < 0 || !is_valid(mask, width, x, y) {
        0
    } else {
        column_height(mask, width, x, y - 1) + 1
    }
}

proof fn lemma_column_filled(mask: Seq<u8>, width: int, x: int, y: int, row: int)
    requires
        y - column_height(mask, width, x, y) < row <= y,
    ensures
        0 <= row,
        is_valid(mask, width, x, row),
    decreases y + 1,
{
    if row < y {
        lemma_column_filled(mask, width, x, y - 1, row);
    }
}

proof fn lemma_column_bounds(mask: Seq<u8>, width: int, x: int, y: int)
    requires
        y >= -1,
    ensures
        0 <= column_height(mask, width, x, y) <= y + 1,
    decreases y + 1,
{
    if y >= 0 && is_valid(mask, width, x, y) {
        lemma_column_bounds(mask, width, x, y - 1);
    }
}

proof fn lemma_column_reaches(mask: Seq<u8>, width: int, x: int, y: int, top: int)
    requires
        0 <= top <= y + 1,
        forall|row: int| top <= row <= y ==> #[trigger] is_valid(mask, width, x, row),
    ensures
        column_height(mask, width, x, y) >= y + 1 - top,
    decreases y + 1,
{
    lemma_column_bounds(mask, width, x, y);
    if top <= y {
        assert(is_valid(mask, width, x, y));
        lemma_column_reaches(mask, width, x, y - 1, top);
    }
}

/// All bars from `left` to `right` are at least `height` tall.
spec fn under_bars(bars: Seq<usize>, left: int, right: int, height: int) -> bool {
    &&& 0 <= left < right <= bars.len()
    &&& 0 < height
    &&& forall|j: int| left <= j < right ==> #[trigger] bars[j] >= height
}

/// The height of bar `x`, and 0 behind the last one.
spec fn bar(bars: Seq<usize>, x: int) -> int {
    if x < bars.len() {
        bars[x] as int
    } else {
        0
    }
}

/// Every rectangle under the bars that ends at or before `right` and cannot be
/// extended is no larger than `best`, and an equally large one does not come
/// before it.
spec fn covers(bars: Seq<usize>, bottom: int, best: Rectangle, right: int) -> bool {
    forall|l: int, r: int, h: int|
        #![trigger under_bars(bars, l, r, h)]
        r <= right && under_bars(bars, l, r, h) && h > bar(bars, r) ==> not_before(
            best,
            bottom,
            l,
            r,
            h,
        )
}

/// The rectangle under the bars from `l` to `r` of height `h` does not beat
/// `best`.
spec fn not_before(best: Rectangle, bottom: int, l: int, r: int, h: int) -> bool {
    &&& (r - l) * h <= best.area()
    &&& (r - l) * h == best.area() ==> {
        ||| best.bottom() < bottom
        ||| best.bottom() == bottom && best.right() < r
        ||| best.bottom() == bottom && best.right() == r && best.height >= h
    }
}

/// The stack of bars that may still grow to the right, seen from `x`.
spec fn rising(bars: Seq<usize>, stack: Seq<usize>, x: int) -> bool {
    &&& forall|k: int| #![trigger stack[k]] 0 <= k < stack.len() ==> stack[k] < x
    &&& forall|k: int, l: int|
        #![trigger stack[k], stack[l]]
        0 <= k < l < stack.len() ==> stack[k] < stack[l] && bar(bars, stack[k] as int) <= bar(
            bars,
            stack[l] as int,
        )
    &&& forall|k: int, j: int|
        #![trigger stack[k], bars[j]]
        0 <= k < stack.len() && below(stack, k) < j < stack[k] ==> bars[j] > bar(
            bars,
            stack[k] as int,
        )
}

/// The entry under position `k` of the stack, or -1.
spec fn below(stack: Seq<usize>, k: int) -> int {
    if k == 0 {
        -1
    } else {
        stack[k - 1] as int
    }
}

proof fn lemma_extend(bars: Seq<usize>, l: int, r: int, h: int) -> (end: int)
    requires
        under_bars(bars, l, r, h),
    ensures
        r <= end <= bars.len(),
        under_bars(bars, l, end, h),
        h > bar(bars, end),
    decreases bars.len() - r,
{
    if h > bar(bars, r) {
        r
    } else {
        assert(under_bars(bars, l, r + 1, h));
        lemma_extend(bars, l, r + 1, h)
    }
}

/// Takes the bar on top of the stack as the height of a rectangle that ends at
/// `x`, and keeps the rectangle if it is larger than `best`.
proof fn lemma_pop(
    bars: Seq<usize>,
    bottom: int,
    stack: Seq<usize>,
    x: int,
    best: Rectangle,
    candidate: Rectangle,
    after: Rectangle,
)
    requires
        stack.len() > 0,
        0 < x <= bars.len(),
        rising(bars, stack, x),
        popped(bars, bottom, stack, x, best),
        bar(bars, stack[stack.len() - 1] as int) > bar(bars, x),
        candidate.left == below(stack, stack.len() - 1) + 1,
        candidate.right() == x,
        candidate.height == bars[stack[stack.len() - 1] as int],
        candidate.bottom() == bottom,
        after == if candidate.area() > best.area() {
            candidate
        } else {
            best
        },
    ensures
        under_bars(bars, candidate.left as int, x, candidate.height as int),
        rising(bars, stack.drop_last(), x),
        popped(bars, bottom, stack.drop_last(), x, after),
{
    let top = stack[stack.len() - 1] as int;
    let rest = stack.drop_last();
    assert forall|k: int| 0 <= k < rest.len() implies rest[k] == #[trigger] stack[k] by {}
    assert forall|k: int, j: int|
        #![trigger rest[k], bars[j]]
        0 <= k < rest.len() && below(rest, k) < j < rest[k] implies bars[j] > bar(
        bars,
        rest[k] as int,
    ) by {
        assert(stack[k] == rest[k]);
        if k > 0 {
            assert(stack[k - 1] == rest[k - 1]);
        }
    }
    assert(rising(bars, rest, x));
    let p = below(stack, stack.len() - 1);
    assert forall|j: int| p < j < x implies #[trigger] bars[j] >= candidate.height by {
        if j < top {
            assert(stack[stack.len() - 1] == top);
        }
    }
    assert(p < top);
    assert(under_bars(bars, candidate.left as int, x, candidate.height as int));
    if rest.len() > 0 {
        assert(rest[rest.len() - 1] == stack[stack.len() - 2]);
    }
    let last = if rest.len() > 0 {
        rest[rest.len() - 1] as int
    } else {
        -1
    };
    assert(last == p);
    assert forall|j: int| last < j < x implies #[trigger] bars[j] > bar(bars, x) by {
        if j < top {
            assert(stack[stack.len() - 1] == top);
        }
    }
    assert forall|j: int| last < j < x && last >= 0 implies #[trigger] bars[j] >= bar(bars, last) by {
        if j < top {
            assert(stack[stack.len() - 1] == top);
        }
    }
    assert forall|l: int, r: int, h: int|
        #![trigger under_bars(bars, l, r, h)]
        under_bars(bars, l, r, h) && h > bar(bars, r) && (r < x || r == x && l > last) implies not_before(
        after,
        bottom,
        l,
        r,
        h,
    ) by {
        if r < x || l > top {
            assert(not_before(best, bottom, l, r, h));
        } else {
            assert(bars[top] >= h);
            assert((x - l) * h <= candidate.width * candidate.height) by (nonlinear_arith)
                requires
                    0 <= x - l <= candidate.width,
                    0 <= h <= candidate.height,
            ;
            assert(candidate.area() == candidate.width * candidate.height);
            if (x - l) * h == candidate.area() {
                assert(h == candidate.height) by (nonlinear_arith)
                    requires
                        (x - l) * h == candidate.width * candidate.height,
                        0 < x - l <= candidate.width,
                        0 < h <= candidate.height,
                ;
            }
        }
    }
}

/// The state while bars are taken off the stack at `x`: the rectangles that end
/// before `x`, and those that end at `x` right of the stack, are covered.
spec fn popped(
    bars: Seq<usize>,
    bottom: int,
    stack: Seq<usize>,
    x: int,
    best: Rectangle,
) -> bool {
    let last = if stack.len() > 0 {
        stack[stack.len() - 1] as int
    } else {
        -1
    };
    &&& forall|j: int| last < j < x ==> #[trigger] bars[j] > bar(bars, x)
    &&& forall|j: int| last < j < x && last >= 0 ==> #[trigger] bars[j] >= bar(bars, last)
    &&& forall|l: int, r: int, h: int|
        #![trigger under_bars(bars, l, r, h)]
        under_bars(bars, l, r, h) && h > bar(bars, r) && (r < x || r == x && l > last)
            ==> not_before(best, bottom, l, r, h)
    &&& best.bottom() <= bottom
    &&& best.bottom() == bottom ==> best.right() < x || best.right() == x && (last >= 0
        ==> best.height >= bar(bars, last))
}

/// Bar `x` joins the stack once nothing taller is left on it.
proof fn lemma_push(
    bars: Seq<usize>,
    bottom: int,
    stack: Seq<usize>,
    x: usize,
    found: Rectangle,
)
    requires
        x <= bars.len(),
        rising(bars, stack, x as int),
        popped(bars, bottom, stack, x as int, found),
        stack.len() == 0 || bars[stack[stack.len() - 1] as int] <= bar(bars, x as int),
    ensures
        rising(bars, stack.push(x), x + 1),
        forall|l: int, r: int, h: int|
            #![trigger under_bars(bars, l, r, h)]
            under_bars(bars, l, r, h) && h > bar(bars, r) && r < x + 1 ==> not_before(
                found,
                bottom,
                l,
                r,
                h,
            ),
{
    let pushed = stack.push(x);
    let last = pushed.len() - 1;
    assert forall|k: int| 0 <= k < last implies pushed[k] == #[trigger] stack[k] by {}
    assert forall|k: int, j: int|
        #![trigger pushed[k], bars[j]]
        0 <= k < pushed.len() && below(pushed, k) < j < pushed[k] implies bars[j] > bar(
        bars,
        pushed[k] as int,
    ) by {
        if k < last {
            assert(below(stack, k) == below(pushed, k));
            assert(pushed[k] == stack[k]);
        }
    }
    assert forall|k: int, l: int|
        #![trigger pushed[k], pushed[l]]
        0 <= k < l < pushed.len() implies pushed[k] < pushed[l] && bar(bars, pushed[k] as int)
        <= bar(bars, pushed[l] as int) by {
        assert(pushed[k] == stack[k]);
        if l < last {
            assert(pushed[l] == stack[l]);
        } else if k < last - 1 {
            assert(stack[k] < stack[last - 1]);
        }
    }
    assert forall|l: int, r: int, h: int|
        #![trigger under_bars(bars, l, r, h)]
        under_bars(bars, l, r, h) && h > bar(bars, r) && r < x + 1 implies not_before(
        found,
        bottom,
        l,
        r,
        h,
    ) by {
        if r == x && stack.len() > 0 {
            let p = stack[stack.len() - 1] as int;
            if l <= p {
                assert(bars[p] >= h);
            }
        }
    }
}

/// Looks through the rectangles under a row of bars that stand on `bottom`.
fn scan_bars(bars: &Vec<usize>, bottom: usize, cells: usize, best: Rectangle) -> (after: Rectangle)
    requires
        forall|j: int| 0 <= j < bars@.len() ==> #[trigger] bars@[j] <= bottom,
        bars@.len() < usize::MAX,
        bars@.len() * bottom <= cells,
        0 <= best.area() <= cells,
        best.bottom() < bottom,
    ensures
        after == best || after.bottom() == bottom && under_bars(
            bars@,
            after.left as int,
            after.right(),
            after.height as int,
        ) && after.area() > best.area(),
        after.area() <= cells,
        after.area() >= best.area(),
        forall|l: int, r: int, h: int|
            #![trigger under_bars(bars@, l, r, h)]
            under_bars(bars@, l, r, h) ==> not_before(after, bottom as int, l, r, h),
{
    let width: usize = bars.len();
    let mut stack: Vec<usize> = Vec::new();
    let mut found: Rectangle = best;
    let mut x: usize = 0;
    while x <= width
        invariant
            width == bars@.len(),
            width < usize::MAX,
            x <= width + 1,
            forall|j: int| 0 <= j < bars@.len() ==> #[trigger] bars@[j] <= bottom,
            bars@.len() * bottom <= cells,
            rising(bars@, stack@, x as int),
            x > 0 ==> stack@.len() > 0 && stack@[stack@.len() - 1] == x - 1,
            x == 0 ==> stack@.len() == 0,
            forall|l: int, r: int, h: int|
                #![trigger under_bars(bars@, l, r, h)]
                under_bars(bars@, l, r, h) && h > bar(bars@, r) && r < x ==> not_before(
                    found,
                    bottom as int,
                    l,
                    r,
                    h,
                ),
            found.bottom() <= bottom,
            found.bottom() == bottom ==> found.right() < x,
            0 <= best.area() <= found.area() <= cells,
            found == best || found.bottom() == bottom && under_bars(
                bars@,
                found.left as int,
                found.right(),
                found.height as int,
            ) && found.area() > best.area(),
        decreases width + 1 - x,
    {
        let current: usize = if x < width {
            bars[x]
        } else {
            0
        };
        assert(popped(bars@, bottom as int, stack@, x as int, found));
        let mut popping: bool = true;
        while popping
            invariant
                width == bars@.len(),
                x <= width,
                current == bar(bars@, x as int),
                forall|j: int| 0 <= j < bars@.len() ==> #[trigger] bars@[j] <= bottom,
                bars@.len() * bottom <= cells,
                rising(bars@, stack@, x as int),
                popped(bars@, bottom as int, stack@, x as int, found),
                !popping ==> stack@.len() == 0 || bars@[stack@[stack@.len() - 1] as int] <= current,
                0 <= best.area() <= found.area() <= cells,
                found == best || found.bottom() == bottom && under_bars(
                    bars@,
                    found.left as int,
                    found.right(),
                    found.height as int,
                ) && found.area() > best.area(),
            decreases stack@.len(), popping as int,
        {
            if stack.len() == 0 {
                popping = false;
            } else {
                let at: usize = stack.len() - 1;
                let index: usize = stack[at];
                let height: usize = bars[index];
                if height <= current {
                    popping = false;
                } else {
                    let ghost stack_before = stack@;
                    let ghost found_before = found;
                    stack.pop();
                    let left: usize = if stack.len() == 0 {
                        0
                    } else {
                        assert(stack_before[stack@.len() - 1] < stack_before[at as int]);
                        stack[stack.len() - 1] + 1
                    };
                    assert(left == below(stack_before, at as int) + 1);
                    let candidate = Rectangle {
                        left,
                        top: bottom - height,
                        width: x - left,
                        height,
                    };
                    assert((x - left) * height <= bars@.len() * bottom) by (nonlinear_arith)
                        requires
                            0 <= x - left <= bars@.len(),
                            0 <= height <= bottom,
                    ;
                    assert(candidate.area() >= 0) by (nonlinear_arith)
                        requires
                            candidate.area() == candidate.width * candidate.height,
                            candidate.width >= 0,
                            candidate.height >= 0,
                    ;
                    let area: usize = candidate.width * candidate.height;
                    assert(found.width * found.height == found.area());
                    let found_area: usize = found.width * found.height;
                    if area > found_area {
                        found = candidate;
                    }
                    proof {
                        assert(stack@ =~= stack_before.drop_last());
                        lemma_pop(
                            bars@,
                            bottom as int,
                            stack_before,
                            x as int,
                            found_before,
                            candidate,
                            found,
                        );
                    }
                }
            }
        }
        proof {
            lemma_push(bars@, bottom as int, stack@, x, found);
        }
        stack.push(x);
        x += 1;
    }
    assert forall|l: int, r: int, h: int|
        #![trigger under_bars(bars@, l, r, h)]
        under_bars(bars@, l, r, h) implies not_before(found, bottom as int, l, r, h) by {
        let end = lemma_extend(bars@, l, r, h);
        assert(not_before(found, bottom as int, l, end, h));
        assert((end - l) * h == (r - l) * h + (end - r) * h) by (nonlinear_arith);
        assert((end - r) * h >= 0 && (end > r ==> (end - r) * h > 0)) by (nonlinear_arith)
            requires
                end >= r,
                h > 0,
        ;
    }
    found
}

/// `best` is the first of the largest valid rectangles, or empty where no pixel is valid.
spec fn is_best(mask: Seq<u8>, width: int, height: int, best: Rectangle) -> bool {
    &&& best.bottom() <= height
    &&& 0 <= best.area() <= width * height
    &&& best.area() > 0 ==> is_filled(mask, width, height, best)
    &&& forall|other: Rectangle|
        #![trigger is_filled(mask, width, height, other)]
        is_filled(mask, width, height, other) && other.area() > 0 ==> other.area() <= best.area()
            && (other.area() == best.area() ==> comes_first(best, other))
}

/// A further row changes none of the rows before.
proof fn lemma_rows_stay(mask: Seq<u8>, row: Seq<u8>, width: int, height: int, x: int, y: int)
    requires
        mask.len() == width * height,
        0 <= x < width,
        0 <= y < height,
    ensures
        is_valid(mask + row, width, x, y) == is_valid(mask, width, x, y),
{
    lemma_cell(width, height, x, y);
}

proof fn lemma_columns_stay(mask: Seq<u8>, row: Seq<u8>, width: int, height: int, x: int, y: int)
    requires
        mask.len() == width * height,
        0 <= x < width,
        y < height,
    ensures
        column_height(mask + row, width, x, y) == column_height(mask, width, x, y),
    decreases y + 1,
{
    if y >= 0 {
        lemma_rows_stay(mask, row, width, height, x, y);
        lemma_columns_stay(mask, row, width, height, x, y - 1);
    }
}

proof fn lemma_rectangles_stay(
    mask: Seq<u8>,
    row: Seq<u8>,
    width: int,
    height: int,
    area: Rectangle,
)
    requires
        mask.len() == width * height,
        area.bottom() <= height,
    ensures
        is_filled(mask + row, width, height + 1, area) == is_filled(mask, width, height, area),
{
    let all = mask + row;
    if area.right() <= width {
        assert forall|x: int, y: int|
            area.left <= x < area.right() && area.top <= y < area.bottom() implies #[trigger] is_valid(
            all,
            width,
            x,
            y,
        ) == is_valid(mask, width, x, y) by {
            lemma_rows_stay(mask, row, width, height, x, y);
        }
        if is_filled(all, width, height + 1, area) {
            assert forall|x: int, y: int|
                #![trigger is_valid(mask, width, x, y)]
                area.left <= x < area.right() && area.top <= y < area.bottom() implies is_valid(
                mask,
                width,
                x,
                y,
            ) by {
                assert(is_valid(all, width, x, y));
            }
        }
    }
}

/// A search for the largest rectangle of valid pixels that takes one row of the mask after
/// the other and keeps a count for every column.
pub struct RectangleScan {
    width: usize,
    rows: usize,
    bars: Vec<usize>,
    best: Rectangle,
    seen: Ghost<Seq<u8>>,
}

impl RectangleScan {
    /// The rows that have been seen, one after the other.
    pub closed spec fn mask(self) -> Seq<u8> {
        self.seen@
    }

    pub closed spec fn columns(self) -> usize {
        self.width
    }

    pub closed spec fn seen_rows(self) -> usize {
        self.rows
    }

    pub closed spec fn well_formed(self) -> bool {
        &&& self.width < usize::MAX
        &&& self.seen@.len() == self.width * self.rows
        &&& self.bars@.len() == self.width
        &&& forall|x: int|
            0 <= x < self.width ==> #[trigger] self.bars@[x] == column_height(
                self.seen@,
                self.width as int,
                x,
                self.rows - 1,
            )
        &&& is_best(self.seen@, self.width as int, self.rows as int, self.best)
    }

    /// A search that has seen no row.
    pub fn new(width: usize) -> (scan: Self)
        requires
            width < usize::MAX,
        ensures
            scan.well_formed(),
            scan.columns() == width,
            scan.seen_rows() == 0,
            scan.mask() == Seq::<u8>::empty(),
    {
        let mut bars: Vec<usize> = Vec::new();
        let mut filled: usize = 0;
        while filled < width
            invariant
                filled <= width,
                bars@.len() == filled,
                forall|j: int| 0 <= j < filled ==> #[trigger] bars@[j] == 0,
            decreases width - filled,
        {
            bars.push(0);
            filled += 1;
        }
        let best: Rectangle = Rectangle { left: 0, top: 0, width: 0, height: 0 };
        proof {
            assert(best.area() == 0) by (nonlinear_arith)
                requires
                    best.area() == best.width * best.height,
                    best.width == 0,
            ;
            assert(width * 0 == 0) by (nonlinear_arith);
            assert forall|other: Rectangle|
                #![trigger is_filled(Seq::<u8>::empty(), width as int, 0, other)]
                is_filled(Seq::<u8>::empty(), width as int, 0, other) implies other.area() == 0 by {
                assert(other.area() == 0) by (nonlinear_arith)
                    requires
                        other.area() == other.width * other.height,
                        other.height == 0,
                ;
            }
        }
        RectangleScan { width, rows: 0, bars, best, seen: Ghost(Seq::empty()) }
    }

    /// Takes the next row, which stands in `values` from `start` on.
    pub fn add_row(&mut self, values: &Vec<u8>, start: usize)
        requires
            old(self).well_formed(),
            start + old(self).columns() <= values@.len(),
            old(self).seen_rows() < usize::MAX,
            old(self).columns() * (old(self).seen_rows() + 1) <= usize::MAX,
        ensures
            final(self).well_formed(),
            final(self).columns() == old(self).columns(),
            final(self).seen_rows() == old(self).seen_rows() + 1,
            final(self).mask() == old(self).mask() + values@.subrange(
                start as int,
                start + old(self).columns(),
            ),
    {
        let width: usize = self.width;
        let y: usize = self.rows;
        let total: usize = values.len();
        let ghost w = width as int;
        let ghost before = self.seen@;
        let ghost row = values@.subrange(start as int, start + width);
        let ghost all = before + row;
        let ghost first = self.best;
        proof {
            assert(w * (y + 1) == w * y + w) by (nonlinear_arith);
            assert forall|x: int| 0 <= x < w implies #[trigger] self.bars@[x] == column_height(
                all,
                w,
                x,
                y - 1,
            ) by {
                lemma_columns_stay(before, row, w, y as int, x, y - 1);
            }
        }
        let mut bars: Vec<usize> = Vec::new();
        let mut x: usize = 0;
        while x < width
            invariant
                x <= width,
                w == width,
                self.width == width,
                self.bars@.len() == width,
                total == values@.len(),
                start + width <= total,
                before.len() == w * y,
                all == before + row,
                row == values@.subrange(start as int, start + width),
                w * (y + 1) == w * y + w,
                y < usize::MAX,
                bars@.len() == x,
                forall|j: int|
                    0 <= j < w ==> #[trigger] self.bars@[j] == column_height(all, w, j, y - 1),
                forall|j: int|
                    0 <= j < x ==> #[trigger] bars@[j] == column_height(all, w, j, y as int),
            decreases width - x,
        {
            proof {
                lemma_cell(w, y + 1, x as int, y as int);
                lemma_column_bounds(all, w, x as int, y - 1);
                assert(y * w == w * y) by (nonlinear_arith);
                assert(cell(w, x as int, y as int) == before.len() + x);
                assert(all[before.len() + x] == values@[start + x]);
            }
            let valid: bool = values[start + x] > 0;
            assert(is_valid(all, w, x as int, y as int) == valid);
            bars.push(
                if valid {
                    self.bars[x] + 1
                } else {
                    0
                },
            );
            x += 1;
        }
        proof {
            assert forall|j: int| 0 <= j < bars@.len() implies #[trigger] bars@[j] <= y + 1 by {
                lemma_column_bounds(all, w, j, y as int);
            }
        }
        let cells: usize = width * (y + 1);
        assert(w * y <= w * (y + 1));
        let best: Rectangle = scan_bars(&bars, y + 1, cells, self.best);
        proof {
            lemma_rectangles_stay(before, row, w, y as int, first);
            if best != first {
                assert forall|i: int, j: int|
                    #![trigger is_valid(all, w, i, j)]
                    best.left <= i < best.right() && best.top <= j < best.bottom() implies is_valid(
                    all,
                    w,
                    i,
                    j,
                ) by {
                    assert(bars@[i] >= best.height);
                    lemma_column_filled(all, w, i, y as int, j);
                }
                assert(is_filled(all, w, y + 1, best));
            }
            assert forall|other: Rectangle|
                #![trigger is_filled(all, w, y + 1, other)]
                is_filled(all, w, y + 1, other) && other.area() > 0 implies other.area()
                <= best.area() && (other.area() == best.area() ==> comes_first(best, other)) by {
                if other.bottom() == y + 1 {
                    assert(other.width > 0 && other.height > 0) by (nonlinear_arith)
                        requires
                            other.area() > 0,
                            other.area() == other.width * other.height,
                            other.width >= 0,
                            other.height >= 0,
                    ;
                    assert forall|j: int| other.left <= j < other.right() implies #[trigger] bars@[j]
                        >= other.height by {
                        assert forall|line: int| other.top <= line <= y implies #[trigger] is_valid(
                            all,
                            w,
                            j,
                            line,
                        ) by {}
                        lemma_column_reaches(all, w, j, y as int, other.top as int);
                    }
                    assert(under_bars(bars@, other.left as int, other.right(), other.height as int));
                } else {
                    lemma_rectangles_stay(before, row, w, y as int, other);
                    assert(is_filled(before, w, y as int, other));
                }
            }
        }
        self.bars = bars;
        self.best = best;
        self.rows = y + 1;
        self.seen = Ghost(all);
    }

    /// The largest rectangle of the rows that have been seen. There is none if no pixel is
    /// valid.
    pub fn found(&self) -> (found: Option<Rectangle>)
        requires
            self.well_formed(),
            self.columns() * self.seen_rows() <= usize::MAX,
        ensures
            match found {
                Some(best) => is_largest_valid(
                    self.mask(),
                    self.columns() as int,
                    self.seen_rows() as int,
                    best,
                ),
                None => forall|i: int| 0 <= i < self.mask().len() ==> #[trigger] self.mask()[i] == 0,
            },
    {
        let best: Rectangle = self.best;
        let ghost mask = self.seen@;
        let ghost width = self.width as int;
        let ghost height = self.rows as int;
        let area: usize = best.width * best.height;
        if area == 0 {
            proof {
                assert forall|i: int| 0 <= i < mask.len() implies #[trigger] mask[i] == 0 by {
                    if mask[i] > 0 {
                        assert(width > 0) by (nonlinear_arith)
                            requires
                                0 < width * height,
                                width >= 0,
                                height >= 0,
                        ;
                        crate::grid::lemma_split(width, height, i);
                        let dot = Rectangle {
                            left: (i % width) as usize,
                            top: (i / width) as usize,
                            width: 1,
                            height: 1,
                        };
                        assert(dot.area() == 1);
                        assert forall|a: int, b: int|
                            #![trigger is_valid(mask, width, a, b)]
                            dot.left <= a < dot.right() && dot.top <= b
                                < dot.bottom() implies is_valid(mask, width, a, b) by {
                            assert(a == i % width && b == i / width);
                        }
                        assert(is_filled(mask, width, height, dot));
                    }
                }
            }
            None
        } else {
            assert forall|other: Rectangle|
                #![trigger is_filled(mask, width, height, other)]
                is_filled(mask, width, height, other) implies other.area() <= best.area() && (
            other.area() == best.area() ==> comes_first(best, other)) by {}
            Some(best)
        }
    }
}

/// The largest rectangle of valid pixels; of several of the same area, the one
/// whose bottom edge comes first, then whose right edge comes first, then the
/// tallest. There is none if no pixel is valid.
pub fn largest_valid_rectangle(mask: &Vec<u8>, width: usize, height: usize) -> (found: Option<
    Rectangle,
>)
    requires
        mask@.len() == width * height,
        width < usize::MAX,
    ensures
        match found {
            Some(best) => is_largest_valid(mask@, width as int, height as int, best),
            None => forall|i: int| 0 <= i < mask@.len() ==> #[trigger] mask@[i] == 0,
        },
{
    let cells: usize = mask.len();
    let mut scan: RectangleScan = RectangleScan::new(width);
    let mut y: usize = 0;
    let mut start: usize = 0;
    assert(width * 0 == 0) by (nonlinear_arith);
    assert(mask@.take(0) =~= Seq::empty());
    while y < height
        invariant
            y <= height,
            cells == width * height,
            mask@.len() == cells,
            start == width * y,
            start <= cells,
            scan.well_formed(),
            scan.columns() == width,
            scan.seen_rows() == y,
            scan.mask() == mask@.take(start as int),
        decreases height - y,
    {
        proof {
            assert(width * (y + 1) == width * y + width) by (nonlinear_arith);
            assert(width * (y + 1) <= width * height) by (nonlinear_arith)
                requires
                    y + 1 <= height,
                    width >= 0,
            ;
            assert(mask@.take(start as int) + mask@.subrange(start as int, start + width)
                =~= mask@.take(start + width));
        }
        scan.add_row(mask, start);
        start += width;
        y += 1;
    }
    assert(mask@.take(cells as int) =~= mask@);
    scan.found()
}

/// A valid rectangle that is not empty has a valid pixel in its corner.
proof fn lemma_corner_is_valid(mask: Seq<u8>, width: int, height: int, area: Rectangle)
    requires
        is_filled(mask, width, height, area),
        area.area() > 0,
    ensures
        0 <= cell(width, area.left as int, area.top as int) < width * height,
        mask[cell(width, area.left as int, area.top as int)] > 0,
{
    assert(area.width > 0 && area.height > 0) by (nonlinear_arith)
        requires
            area.width * area.height > 0,
            area.width >= 0,
            area.height >= 0,
    ;
    lemma_cell(width, height, area.left as int, area.top as int);
    assert(is_valid(mask, width, area.left as int, area.top as int));
}

/// The image inside the largest rectangle of valid pixels. The image is handed
/// back as it is where the mask has another size or no valid pixel.
pub fn crop_to_valid_rectangle<P: Copy>(image: Raster<P>, mask: &Raster<u8>) -> (cropped: Raster<P>)
    requires
        image.well_formed(),
        mask.well_formed(),
        image.width < usize::MAX,
    ensures
        cropped.well_formed(),
        mask.width != image.width || mask.height != image.height ==> cropped == image,
        mask.width == image.width && mask.height == image.height && (forall|i: int|
            0 <= i < mask.pixels@.len() ==> #[trigger] mask.pixels@[i] == 0) ==> cropped == image,
        mask.width == image.width && mask.height == image.height ==> forall|best: Rectangle|
            is_largest_valid(mask.pixels@, image.width as int, image.height as int, best) ==> {
                &&& cropped.width == best.width
                &&& cropped.height == best.height
                &&& forall|x: int, y: int|
                    0 <= x < best.width && 0 <= y < best.height ==> #[trigger] cropped.at(x, y)
                        == image.at(best.left + x, best.top + y)
            },
{
    if mask.width != image.width || mask.height != image.height {
        return image;
    }
    match largest_valid_rectangle(&mask.pixels, image.width as usize, image.height as usize) {
        None => {
            proof {
                assert forall|best: Rectangle| !is_largest_valid(
                    mask.pixels@,
                    image.width as int,
                    image.height as int,
                    best,
                ) by {
                    if is_largest_valid(
                        mask.pixels@,
                        image.width as int,
                        image.height as int,
                        best,
                    ) {
                        lemma_corner_is_valid(
                            mask.pixels@,
                            image.width as int,
                            image.height as int,
                            best,
                        );
                    }
                }
            }
            image
        },
        Some(area) => {
            proof {
                lemma_corner_is_valid(
                    mask.pixels@,
                    image.width as int,
                    image.height as int,
                    area,
                );
            }
            if area.left == 0 && area.top == 0 && area.width == image.width as usize && area.height
                == image.height as usize {
                proof {
                    assert forall|best: Rectangle| is_largest_valid(
                        mask.pixels@,
                        image.width as int,
                        image.height as int,
                        best,
                    ) implies best == area by {
                        lemma_largest_is_unique(
                            mask.pixels@,
                            image.width as int,
                            image.height as int,
                            best,
                            area,
                        );
                    }
                }
                return image;
            }
            let cropped = image.crop(
                area.left as u32,
                area.top as u32,
                area.width as u32,
                area.height as u32,
            );
            proof {
                assert forall|best: Rectangle| is_largest_valid(
                    mask.pixels@,
                    image.width as int,
                    image.height as int,
                    best,
                ) implies best == area by {
                    lemma_largest_is_unique(
                        mask.pixels@,
                        image.width as int,
                        image.height as int,
                        best,
                        area,
                    );
                }
            }
            cropped
        },
    }
}

/// There is only one largest valid rectangle once ties are broken.
pub proof fn lemma_largest_is_unique(
    mask: Seq<u8>,
    width: int,
    height: int,
    first: Rectangle,
    second: Rectangle,
)
    requires
        is_largest_valid(mask, width, height, first),
        is_largest_valid(mask, width, height, second),
    ensures
        first == second,
{
    assert(first.area() == second.area());
    assert(comes_first(first, second) && comes_first(second, first));
    assert(first.height == second.height);
    assert(first.width == second.width) by (nonlinear_arith)
        requires
            first.width * first.height == second.width * second.height,
            first.height == second.height,
            first.width * first.height > 0,
            first.height >= 0,
            first.width >= 0,
            second.width >= 0,
    ;
}

/// No rectangle of valid pixels is larger than the one that is found, and all of its own pixels
/// are valid; one as large neither ends higher nor, on the same height, further left.
pub proof fn law_no_valid_rectangle_is_larger(
    mask: Seq<u8>,
    width: int,
    height: int,
    best: Rectangle,
    left: usize,
    top: usize,
    columns: usize,
    rows: usize,
)
    requires
        is_largest_valid(mask, width, height, best),
        left + columns <= width,
        top + rows <= height,
        forall|x: int, y: int|
            #![trigger mask[y * width + x]]
            left <= x < left + columns && top <= y < top + rows ==> mask[y * width + x] > 0,
    ensures
        columns * rows <= best.width * best.height,
        columns * rows == best.width * best.height ==> best.top + best.height <= top + rows,
        columns * rows == best.width * best.height && best.top + best.height == top + rows
            ==> best.left + best.width <= left + columns,
        best.left + best.width <= width,
        best.top + best.height <= height,
        forall|x: int, y: int|
            #![trigger mask[y * width + x]]
            best.left <= x < best.left + best.width && best.top <= y < best.top + best.height
                ==> mask[y * width + x] > 0,
{
    let other = Rectangle { left, top, width: columns, height: rows };
    assert forall|x: int, y: int|
        #![trigger is_valid(mask, width, x, y)]
        other.left <= x < other.right() && other.top <= y < other.bottom() implies is_valid(
        mask,
        width,
        x,
        y,
    ) by {
        assert(mask[y * width + x] > 0);
    }
    assert(is_filled(mask, width, height, other));
    assert forall|x: int, y: int|
        #![trigger mask[y * width + x]]
        best.left <= x < best.left + best.width && best.top <= y < best.top
            + best.height implies mask[y * width + x] > 0 by {
        assert(is_valid(mask, width, x, y));
    }
}

} // verus!
