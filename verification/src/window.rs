//! Sums over sliding windows whose ends are clamped to the image.

use vstd::prelude::*;

use crate::grid::cell;
use crate::grid::lemma_cell;

verus! {

/// The sum of `f` from `lo` up to, not including, `hi`.
pub open spec fn sum_range(f: spec_fn(int) -> int, lo: int, hi: int) -> int
    decreases hi - lo,
{
    if lo >= hi {
        0
    } else {
        sum_range(f, lo, hi - 1) + f(hi - 1)
    }
}

pub proof fn lemma_sum_front(f: spec_fn(int) -> int, lo: int, hi: int)
    requires
        lo < hi,
    ensures
        sum_range(f, lo, hi) == f(lo) + sum_range(f, lo + 1, hi),
    decreases hi - lo,
{
    if lo + 1 < hi {
        lemma_sum_front(f, lo, hi - 1);
    } else {
        assert(sum_range(f, lo, hi - 1) == 0);
        assert(sum_range(f, lo + 1, hi) == 0);
    }
}

/// Sliding a window by one adds the value that enters and takes the one that
/// leaves.
pub proof fn lemma_sum_slide(f: spec_fn(int) -> int, lo: int, hi: int)
    requires
        lo <= hi,
    ensures
        sum_range(f, lo + 1, hi + 1) == sum_range(f, lo, hi) + f(hi) - f(lo),
{
    lemma_sum_front(f, lo, hi + 1);
}

pub proof fn lemma_sum_bounds(f: spec_fn(int) -> int, lo: int, hi: int, most: int)
    requires
        lo <= hi,
        forall|k: int| lo <= k < hi ==> 0 <= #[trigger] f(k) <= most,
    ensures
        0 <= sum_range(f, lo, hi) <= most * (hi - lo),
    decreases hi - lo,
{
    if lo < hi {
        lemma_sum_bounds(f, lo, hi - 1, most);
        assert(0 <= f(hi - 1) <= most);
        assert(most * (hi - lo) == most * (hi - 1 - lo) + most) by (nonlinear_arith);
    } else {
        assert(most * (hi - lo) == 0) by (nonlinear_arith)
            requires
                hi == lo,
        ;
    }
}

pub proof fn lemma_sum_positive(f: spec_fn(int) -> int, lo: int, hi: int)
    requires
        forall|k: int| lo <= k < hi ==> 0 <= #[trigger] f(k),
    ensures
        sum_range(f, lo, hi) >= 0,
        sum_range(f, lo, hi) > 0 <==> exists|k: int| lo <= k < hi && #[trigger] f(k) > 0,
    decreases hi - lo,
{
    if lo < hi {
        lemma_sum_positive(f, lo, hi - 1);
        assert(f(hi - 1) >= 0);
        if sum_range(f, lo, hi) > 0 && f(hi - 1) == 0 {
            let k = choose|k: int| lo <= k < hi - 1 && #[trigger] f(k) > 0;
            assert(lo <= k < hi && f(k) > 0);
        }
        if exists|k: int| lo <= k < hi && #[trigger] f(k) > 0 {
            let k = choose|k: int| lo <= k < hi && #[trigger] f(k) > 0;
            if k < hi - 1 {
                assert(lo <= k < hi - 1 && f(k) > 0);
            }
        }
    }
}

/// `i` moved to the nearest position from 0 to `len - 1`.
pub open spec fn clamped(i: int, len: int) -> int {
    if i < 0 {
        0
    } else if i >= len {
        len - 1
    } else {
        i
    }
}

/// The values of a line of cells, its ends repeated without limit.
pub open spec fn line(
    values: Seq<u64>,
    start: int,
    stride: int,
    len: int,
) -> spec_fn(int) -> int {
    |k: int| values[start + clamped(k, len) * stride] as int
}

proof fn lemma_line_index(start: int, stride: int, len: int, k: int, size: int)
    requires
        0 <= start,
        0 < stride,
        0 <= k < len,
        start + (len - 1) * stride < size,
    ensures
        0 <= k * stride,
        0 <= start + k * stride < size,
{
    assert(0 <= k * stride) by (nonlinear_arith)
        requires
            0 <= k,
            0 < stride,
    ;
    assert(k * stride <= (len - 1) * stride) by (nonlinear_arith)
        requires
            k <= len - 1,
            0 < stride,
    ;
}

proof fn lemma_line_distinct(stride: int, k: int, l: int)
    requires
        0 < stride,
        k * stride == l * stride,
    ensures
        k == l,
{
    assert(k == l) by (nonlinear_arith)
        requires
            0 < stride,
            k * stride == l * stride,
    ;
}

/// Writes for every cell of a line the sum over the window of `radius` cells to
/// either side of it.
fn slide_line(
    values: &Vec<u64>,
    sums: &mut Vec<u64>,
    start: usize,
    stride: usize,
    len: usize,
    radius: usize,
    most: u64,
)
    requires
        old(sums)@.len() == values@.len(),
        0 < stride,
        0 < len,
        start + (len - 1) * stride < values@.len(),
        radius <= 0x3fff_ffff,
        most * (2 * radius + 1) <= u64::MAX,
        forall|i: int| 0 <= i < values@.len() ==> #[trigger] values@[i] <= most,
    ensures
        final(sums)@.len() == old(sums)@.len(),
        forall|k: int|
            #![trigger final(sums)@[start + k * stride]]
            0 <= k < len ==> final(sums)@[start + k * stride] == sum_range(
                line(values@, start as int, stride as int, len as int),
                k - radius,
                k + radius + 1,
            ),
        forall|i: int|
            #![trigger final(sums)@[i]]
            0 <= i < values@.len() && (forall|k: int|
                0 <= k < len ==> i != start + #[trigger] (k * stride)) ==> final(sums)@[i] == old(
                sums,
            )@[i],
{
    let ghost f = line(values@, start as int, stride as int, len as int);
    let ghost before = sums@;
    let size: usize = values.len();
    proof {
        assert forall|k: int| 0 <= #[trigger] f(k) <= most by {
            lemma_line_index(
                start as int,
                stride as int,
                len as int,
                clamped(k, len as int),
                size as int,
            );
        }
        lemma_sum_bounds(f, -(radius as int), radius + 1, most as int);
        assert forall|k: int| sum_range(f, #[trigger] (k - radius), k + radius + 1) <= u64::MAX by {
            lemma_sum_bounds(f, k - radius, k + radius + 1, most as int);
        }
    }
    let window: usize = radius * 2 + 1;
    let mut sum: u64 = 0;
    let mut offset: usize = 0;
    while offset < window
        invariant
            offset <= window,
            window == radius * 2 + 1,
            radius <= 0x3fff_ffff,
            size == values@.len(),
            0 < stride,
            0 < len,
            start + (len - 1) * stride < size,
            f == line(values@, start as int, stride as int, len as int),
            most * window <= u64::MAX,
            forall|k: int| 0 <= #[trigger] f(k) <= most,
            sum == sum_range(f, -(radius as int), offset - radius),
        decreases window - offset,
    {
        let mut k: usize = if offset < radius {
            0
        } else {
            offset - radius
        };
        if k > len - 1 {
            k = len - 1;
        }
        proof {
            assert(k == clamped(offset - radius, len as int));
            lemma_line_index(start as int, stride as int, len as int, k as int, size as int);
            lemma_sum_bounds(f, -(radius as int), offset - radius + 1, most as int);
            assert(most * (offset + 1) <= most * window) by (nonlinear_arith)
                requires
                    offset + 1 <= window,
                    most >= 0,
            ;
            assert(f(offset - radius) == values@[start + k * stride]);
        }
        sum = sum + values[start + k * stride];
        offset += 1;
    }
    proof {
        lemma_line_index(start as int, stride as int, len as int, 0, size as int);
        assert(0 * stride == 0);
    }
    sums.set(start, sum);
    let mut k: usize = 1;
    while k < len
        invariant
            1 <= k <= len,
            radius <= 0x3fff_ffff,
            size == values@.len(),
            sums@.len() == size,
            before.len() == size,
            0 < stride,
            0 < len,
            start + (len - 1) * stride < size,
            f == line(values@, start as int, stride as int, len as int),
            forall|j: int| 0 <= #[trigger] f(j) <= most,
            forall|j: int| sum_range(f, #[trigger] (j - radius), j + radius + 1) <= u64::MAX,
            sum == sum_range(f, k - 1 - radius, k + radius),
            most * (2 * radius + 1) <= u64::MAX,
            forall|j: int|
                #![trigger sums@[start + j * stride]]
                0 <= j < k ==> sums@[start + j * stride] == sum_range(
                    f,
                    j - radius,
                    j + radius + 1,
                ),
            forall|i: int|
                #![trigger sums@[i]]
                0 <= i < size && (forall|j: int|
                    0 <= j < len ==> i != start + #[trigger] (j * stride)) ==> sums@[i]
                    == before[i],
        decreases len - k,
    {
        let mut enters: usize = k;
        if len - 1 - k < radius {
            enters = len - 1;
        } else {
            enters = k + radius;
        }
        let leaves: usize = if k <= radius {
            0
        } else {
            k - radius - 1
        };
        proof {
            assert(enters == clamped(k + radius, len as int));
            assert(leaves == clamped(k - 1 - radius, len as int));
            lemma_line_index(start as int, stride as int, len as int, enters as int, size as int);
            lemma_line_index(start as int, stride as int, len as int, leaves as int, size as int);
            lemma_line_index(start as int, stride as int, len as int, k as int, size as int);
            lemma_sum_slide(f, k - 1 - radius, k + radius);
            assert(f(k + radius) == values@[start + enters * stride]);
            assert(f(k - 1 - radius) == values@[start + leaves * stride]);
            lemma_sum_front(f, k - 1 - radius, k + radius);
            lemma_sum_bounds(f, k - radius, k + radius, most as int);
            lemma_sum_bounds(f, k - radius, k + radius + 1, most as int);
        }
        let ghost sums_before = sums@;
        sum = sum - values[start + leaves * stride];
        sum = sum + values[start + enters * stride];
        sums.set(start + k * stride, sum);
        proof {
            assert forall|j: int|
                #![trigger sums@[start + j * stride]]
                0 <= j < k + 1 implies sums@[start + j * stride] == sum_range(
                f,
                j - radius,
                j + radius + 1,
            ) by {
                lemma_line_index(start as int, stride as int, len as int, j, size as int);
                if j < k {
                    if j * stride == k * stride {
                        lemma_line_distinct(stride as int, j, k as int);
                    }
                    assert(sums@[start + j * stride] == sums_before[start + j * stride]);
                }
            }
        }
        k += 1;
    }
}

/// 1 where the mask is set, 0 elsewhere.
pub open spec fn mask_value(mask: Seq<u8>, i: int) -> int {
    if mask[i] > 0 {
        1
    } else {
        0
    }
}

/// Row `y` of the mask, its ends repeated without limit.
pub open spec fn mask_row(
    mask: Seq<u8>,
    width: int,
    y: int,
) -> spec_fn(int) -> int {
    |k: int| mask_value(mask, cell(width, clamped(k, width), y))
}

/// The set cells in a horizontal window of every row, the rows at the ends
/// repeated without limit.
pub open spec fn row_counts(
    mask: Seq<u8>,
    width: int,
    height: int,
    x: int,
    radius: int,
) -> spec_fn(int) -> int {
    |k: int|
        sum_range(mask_row(mask, width, clamped(k, height)), x - radius, x + radius + 1)
}

/// The number of set cells in the square window around a cell, where the part of
/// the window outside of the image repeats the nearest cell of the image.
pub open spec fn box_count(
    mask: Seq<u8>,
    width: int,
    height: int,
    x: int,
    y: int,
    radius: int,
) -> int {
    sum_range(row_counts(mask, width, height, x, radius), y - radius, y + radius + 1)
}

/// Some cell of the image within `radius` columns and rows of the cell is set.
pub open spec fn set_nearby(
    mask: Seq<u8>,
    width: int,
    height: int,
    x: int,
    y: int,
    radius: int,
) -> bool {
    exists|a: int, b: int|
        #![trigger cell(width, a, b)]
        0 <= a < width && 0 <= b < height && x - radius <= a <= x + radius && y - radius <= b <= y
            + radius && mask[cell(width, a, b)] > 0
}

/// A window holds a set cell exactly if one is nearby.
pub proof fn lemma_box_count_positive(
    mask: Seq<u8>,
    width: int,
    height: int,
    x: int,
    y: int,
    radius: int,
)
    requires
        0 <= x < width,
        0 <= y < height,
        0 <= radius,
    ensures
        box_count(mask, width, height, x, y, radius) > 0 <==> set_nearby(
            mask,
            width,
            height,
            x,
            y,
            radius,
        ),
{
    let f = row_counts(mask, width, height, x, radius);
    assert forall|k: int| 0 <= #[trigger] f(k) by {
        lemma_sum_positive(mask_row(mask, width, clamped(k, height)), x - radius, x + radius + 1);
    }
    lemma_sum_positive(f, y - radius, y + radius + 1);
    if box_count(mask, width, height, x, y, radius) > 0 {
        let k = choose|k: int| y - radius <= k < y + radius + 1 && #[trigger] f(k) > 0;
        let b = clamped(k, height);
        let g = mask_row(mask, width, b);
        lemma_sum_positive(g, x - radius, x + radius + 1);
        let j = choose|j: int| x - radius <= j < x + radius + 1 && #[trigger] g(j) > 0;
        let a = clamped(j, width);
        assert(mask[cell(width, a, b)] > 0);
    }
    if set_nearby(mask, width, height, x, y, radius) {
        let (a, b) = choose|a: int, b: int|
            #![trigger cell(width, a, b)]
            0 <= a < width && 0 <= b < height && x - radius <= a <= x + radius && y - radius <= b
                <= y + radius && mask[cell(width, a, b)] > 0;
        let g = mask_row(mask, width, b);
        assert(g(a) > 0);
        lemma_sum_positive(g, x - radius, x + radius + 1);
        assert(f(b) > 0);
    }
}

/// The window counts of every cell of a mask.
pub fn box_counts(mask: &Vec<u8>, width: usize, height: usize, radius: usize) -> (counts: Vec<u64>)
    requires
        mask@.len() == width * height,
        0 < width,
        0 < height,
        radius <= 0x3fff_ffff,
    ensures
        counts@.len() == mask@.len(),
        forall|x: int, y: int|
            #![trigger counts@[cell(width as int, x, y)]]
            0 <= x < width && 0 <= y < height ==> counts@[cell(width as int, x, y)] == box_count(
                mask@,
                width as int,
                height as int,
                x,
                y,
                radius as int,
            ),
{
    let size: usize = mask.len();
    let mut seed: Vec<u64> = Vec::new();
    let mut rows: Vec<u64> = Vec::new();
    let mut counts: Vec<u64> = Vec::new();
    let mut i: usize = 0;
    while i < size
        invariant
            i <= size,
            size == mask@.len(),
            seed@.len() == i,
            rows@.len() == i,
            counts@.len() == i,
            forall|j: int| 0 <= j < i ==> #[trigger] seed@[j] == mask_value(mask@, j),
        decreases size - i,
    {
        seed.push(
            if mask[i] > 0 {
                1
            } else {
                0
            },
        );
        rows.push(0);
        counts.push(0);
        i += 1;
    }
    let ghost w = width as int;
    let ghost h = height as int;
    let ghost r = radius as int;
    let most: u64 = 2 * (radius as u64) + 1;
    proof {
        assert(most * most <= u64::MAX) by (nonlinear_arith)
            requires
                0 <= most <= 0x7fff_ffff,
        ;
    }
    let mut y: usize = 0;
    while y < height
        invariant
            y <= height,
            size == width * height,
            w == width,
            h == height,
            r == radius,
            0 < width,
            mask@.len() == size,
            seed@.len() == size,
            rows@.len() == size,
            radius <= 0x3fff_ffff,
            most == 2 * radius + 1,
            forall|j: int| 0 <= j < size ==> #[trigger] seed@[j] == mask_value(mask@, j),
            forall|a: int, b: int|
                #![trigger rows@[cell(w, a, b)]]
                0 <= a < w && 0 <= b < y ==> rows@[cell(w, a, b)] == sum_range(
                    mask_row(mask@, w, b),
                    a - r,
                    a + r + 1,
                ) && rows@[cell(w, a, b)] <= most,
        decreases height - y,
    {
        proof {
            lemma_cell(w, h, 0, y as int);
            lemma_cell(w, h, w - 1, y as int);
        }
        let ghost before = rows@;
        slide_line(&seed, &mut rows, y * width, 1, width, radius, 1);
        proof {
            assert forall|a: int, b: int|
                #![trigger rows@[cell(w, a, b)]]
                0 <= a < w && 0 <= b < y + 1 implies rows@[cell(w, a, b)] == sum_range(
                mask_row(mask@, w, b),
                a - r,
                a + r + 1,
            ) && rows@[cell(w, a, b)] <= most by {
                lemma_cell(w, h, a, b);
                if b == y {
                    let f = line(seed@, (y * width) as int, 1, w);
                    let g = mask_row(mask@, w, b);
                    assert forall|k: int| #[trigger] f(k) == g(k) by {
                        lemma_cell(w, h, clamped(k, w), b);
                        assert(clamped(k, w) * 1 == clamped(k, w));
                    }
                    assert(f =~= g);
                    assert(a * 1 == a);
                    assert(rows@[(y * width) as int + a * 1] == sum_range(f, a - r, a + r + 1));
                    lemma_sum_bounds(g, a - r, a + r + 1, 1);
                } else {
                    assert forall|k: int| 0 <= k < w implies cell(w, a, b) != (y * width) as int
                        + #[trigger] (k * 1) by {
                        lemma_cell(w, h, k, y as int);
                    }
                    assert(rows@[cell(w, a, b)] == before[cell(w, a, b)]);
                }
            }
        }
        y += 1;
    }
    proof {
        assert forall|j: int| 0 <= j < rows@.len() implies #[trigger] rows@[j] <= most by {
            crate::grid::lemma_split(w, h, j);
            assert(rows@[cell(w, j % w, j / w)] <= most);
        }
    }
    let mut x: usize = 0;
    while x < width
        invariant
            x <= width,
            size == width * height,
            w == width,
            h == height,
            r == radius,
            0 < height,
            0 < width,
            mask@.len() == size,
            rows@.len() == size,
            counts@.len() == size,
            radius <= 0x3fff_ffff,
            most == 2 * radius + 1,
            most * most <= u64::MAX,
            forall|j: int| 0 <= j < rows@.len() ==> #[trigger] rows@[j] <= most,
            forall|a: int, b: int|
                #![trigger rows@[cell(w, a, b)]]
                0 <= a < w && 0 <= b < h ==> rows@[cell(w, a, b)] == sum_range(
                    mask_row(mask@, w, b),
                    a - r,
                    a + r + 1,
                ),
            forall|a: int, b: int|
                #![trigger counts@[cell(w, a, b)]]
                0 <= a < x && 0 <= b < h ==> counts@[cell(w, a, b)] == box_count(
                    mask@,
                    w,
                    h,
                    a,
                    b,
                    r,
                ),
        decreases width - x,
    {
        proof {
            lemma_cell(w, h, x as int, h - 1);
            assert(x + (h - 1) * w == cell(w, x as int, h - 1));
        }
        let ghost before = counts@;
        slide_line(&rows, &mut counts, x, width, height, radius, most);
        proof {
            assert forall|a: int, b: int|
                #![trigger counts@[cell(w, a, b)]]
                0 <= a < x + 1 && 0 <= b < h implies counts@[cell(w, a, b)] == box_count(
                mask@,
                w,
                h,
                a,
                b,
                r,
            ) by {
                lemma_cell(w, h, a, b);
                if a == x {
                    let f = line(rows@, x as int, w, h);
                    let g = row_counts(mask@, w, h, a, r);
                    assert forall|k: int| #[trigger] f(k) == g(k) by {
                        lemma_cell(w, h, a, clamped(k, h));
                        assert(x + clamped(k, h) * w == cell(w, a, clamped(k, h)));
                    }
                    assert(f =~= g);
                    assert(counts@[x + b * w] == sum_range(f, b - r, b + r + 1));
                    assert(x + b * w == cell(w, a, b));
                } else {
                    assert forall|k: int| 0 <= k < h implies cell(w, a, b) != x
                        + #[trigger] (k * width) by {
                        lemma_cell(w, h, x as int, k);
                    }
                    assert(counts@[cell(w, a, b)] == before[cell(w, a, b)]);
                }
            }
        }
        x += 1;
    }
    counts
}

/// Sums of functions that differ in at most one place differ by as much.
pub proof fn lemma_sum_bump(
    f: spec_fn(int) -> int,
    g: spec_fn(int) -> int,
    lo: int,
    hi: int,
    at: int,
    step: int,
)
    requires
        forall|k: int|
            lo <= k < hi ==> #[trigger] g(k) == f(k) + if k == at {
                step
            } else {
                0
            },
    ensures
        sum_range(g, lo, hi) == sum_range(f, lo, hi) + if lo <= at < hi {
            step
        } else {
            0
        },
    decreases hi - lo,
{
    if lo < hi {
        lemma_sum_bump(f, g, lo, hi - 1, at, step);
        assert(g(hi - 1) == f(hi - 1) + if hi - 1 == at {
            step
        } else {
            0
        });
    }
}

/// Functions that agree have the same sum.
pub proof fn lemma_sum_same(f: spec_fn(int) -> int, g: spec_fn(int) -> int, lo: int, hi: int)
    requires
        forall|k: int| lo <= k < hi ==> #[trigger] g(k) == f(k),
    ensures
        sum_range(g, lo, hi) == sum_range(f, lo, hi),
{
    lemma_sum_bump(f, g, lo, hi, hi, 0);
}

/// The sum of a constant.
pub proof fn lemma_sum_constant(f: spec_fn(int) -> int, lo: int, hi: int, value: int)
    requires
        lo <= hi,
        forall|k: int| lo <= k < hi ==> #[trigger] f(k) == value,
    ensures
        sum_range(f, lo, hi) == value * (hi - lo),
    decreases hi - lo,
{
    if lo < hi {
        lemma_sum_constant(f, lo, hi - 1, value);
        assert(f(hi - 1) == value);
        assert(value * (hi - lo) == value * (hi - 1 - lo) + value) by (nonlinear_arith);
    } else {
        assert(value * (hi - lo) == 0) by (nonlinear_arith)
            requires
                hi == lo,
        ;
    }
}

/// The window of a cell is full where all cells of the image within its reach are set, and
/// empty where none is.
pub proof fn law_even_windows(
    mask: Seq<u8>,
    width: int,
    height: int,
    x: int,
    y: int,
    radius: int,
    set: bool,
)
    requires
        0 <= x < width,
        0 <= y < height,
        0 <= radius,
        forall|a: int, b: int|
            #![trigger cell(width, a, b)]
            0 <= a < width && 0 <= b < height && x - radius <= a <= x + radius && y - radius <= b
                <= y + radius ==> (mask[cell(width, a, b)] > 0) == set,
    ensures
        box_count(mask, width, height, x, y, radius) == if set {
            (2 * radius + 1) * (2 * radius + 1)
        } else {
            0
        },
{
    let value = if set {
        1int
    } else {
        0int
    };
    let side = 2 * radius + 1;
    let f = row_counts(mask, width, height, x, radius);
    assert forall|k: int| y - radius <= k < y + radius + 1 implies #[trigger] f(k) == value * side
        by {
        let b = clamped(k, height);
        let g = mask_row(mask, width, b);
        assert forall|j: int| x - radius <= j < x + radius + 1 implies #[trigger] g(j) == value by {
            let a = clamped(j, width);
            assert((mask[cell(width, a, b)] > 0) == set);
        }
        lemma_sum_constant(g, x - radius, x + radius + 1, value);
    }
    lemma_sum_constant(f, y - radius, y + radius + 1, value * side);
    assert(value * side * side == if set {
        side * side
    } else {
        0
    }) by (nonlinear_arith)
        requires
            value == if set {
                1int
            } else {
                0int
            },
    ;
}

/// A window counts only the cells within its reach: masks that agree there have the same
/// count.
pub proof fn law_windows_are_local(
    first: Seq<u8>,
    second: Seq<u8>,
    width: int,
    height: int,
    x: int,
    y: int,
    radius: int,
)
    requires
        0 <= x < width,
        0 <= y < height,
        0 <= radius,
        forall|a: int, b: int|
            #![trigger cell(width, a, b)]
            0 <= a < width && 0 <= b < height && x - radius <= a <= x + radius && y - radius <= b
                <= y + radius ==> (first[cell(width, a, b)] > 0) == (second[cell(width, a, b)] > 0),
    ensures
        box_count(first, width, height, x, y, radius) == box_count(
            second,
            width,
            height,
            x,
            y,
            radius,
        ),
{
    let f = row_counts(first, width, height, x, radius);
    let g = row_counts(second, width, height, x, radius);
    assert forall|k: int| y - radius <= k < y + radius + 1 implies #[trigger] g(k) == f(k) by {
        let b = clamped(k, height);
        let (p, q) = (mask_row(first, width, b), mask_row(second, width, b));
        assert forall|j: int| x - radius <= j < x + radius + 1 implies #[trigger] q(j) == p(j) by {
            let a = clamped(j, width);
            assert((first[cell(width, a, b)] > 0) == (second[cell(width, a, b)] > 0));
        }
        lemma_sum_same(p, q, x - radius, x + radius + 1);
    }
    lemma_sum_same(f, g, y - radius, y + radius + 1);
}

/// One more set cell within a window that lies in the image raises its count by one.
pub proof fn law_windows_count_every_cell(
    mask: Seq<u8>,
    more: Seq<u8>,
    width: int,
    height: int,
    x: int,
    y: int,
    radius: int,
    a: int,
    b: int,
)
    requires
        0 <= radius <= x,
        radius <= y,
        x + radius < width,
        y + radius < height,
        mask.len() == width * height,
        x - radius <= a <= x + radius,
        y - radius <= b <= y + radius,
        mask[cell(width, a, b)] == 0,
        more == mask.update(cell(width, a, b), 255u8),
    ensures
        box_count(more, width, height, x, y, radius) == box_count(
            mask,
            width,
            height,
            x,
            y,
            radius,
        ) + 1,
{
    lemma_cell(width, height, a, b);
    let f = row_counts(mask, width, height, x, radius);
    let g = row_counts(more, width, height, x, radius);
    assert forall|k: int| y - radius <= k < y + radius + 1 implies #[trigger] g(k) == f(k) + if k
        == b {
        1int
    } else {
        0
    } by {
        let (p, q) = (mask_row(mask, width, k), mask_row(more, width, k));
        let step = if k == b {
            1int
        } else {
            0int
        };
        assert forall|j: int| x - radius <= j < x + radius + 1 implies #[trigger] q(j) == p(j)
            + if j == a {
            step
        } else {
            0
        } by {
            lemma_cell(width, height, j, k);
        }
        lemma_sum_bump(p, q, x - radius, x + radius + 1, a, step);
    }
    lemma_sum_bump(f, g, y - radius, y + radius + 1, b, 1);
}

/// A function that is nowhere larger has no larger sum.
pub proof fn lemma_sum_no_more(f: spec_fn(int) -> int, g: spec_fn(int) -> int, lo: int, hi: int)
    requires
        forall|k: int| lo <= k < hi ==> #[trigger] f(k) <= g(k),
    ensures
        sum_range(f, lo, hi) <= sum_range(g, lo, hi),
    decreases hi - lo,
{
    if lo < hi {
        lemma_sum_no_more(f, g, lo, hi - 1);
        assert(f(hi - 1) <= g(hi - 1));
    }
}

/// A cell has a set one nearby exactly if one lies within the radius, in columns and in rows.
pub proof fn law_cells_within_the_radius_are_near(
    mask: Seq<u8>,
    width: int,
    height: int,
    x: int,
    y: int,
    radius: int,
)
    ensures
        forall|a: int, b: int|
            #![trigger mask[b * width + a]]
            0 <= a < width && 0 <= b < height && -radius <= a - x <= radius && -radius <= b - y
                <= radius && mask[b * width + a] > 0 ==> set_nearby(mask, width, height, x, y, radius),
        set_nearby(mask, width, height, x, y, radius) ==> exists|a: int, b: int|
            #![trigger mask[b * width + a]]
            0 <= a < width && 0 <= b < height && -radius <= a - x <= radius && -radius <= b - y
                <= radius && mask[b * width + a] > 0,
{
    assert forall|a: int, b: int|
        #![trigger mask[b * width + a]]
        0 <= a < width && 0 <= b < height && -radius <= a - x <= radius && -radius <= b - y <= radius
            && mask[b * width + a] > 0 implies set_nearby(mask, width, height, x, y, radius) by {
        assert(mask[cell(width, a, b)] > 0);
    }
    if set_nearby(mask, width, height, x, y, radius) {
        let (a, b) = choose|a: int, b: int|
            #![trigger cell(width, a, b)]
            0 <= a < width && 0 <= b < height && x - radius <= a <= x + radius && y - radius <= b
                <= y + radius && mask[cell(width, a, b)] > 0;
        assert(mask[b * width + a] > 0);
    }
}

} // verus!
