//! Binary masks of the focus stack: growing, opening, hole filling, component
//! selection, resampling.
//!
//! A mask pixel is set when it is not 0. The radii and size limits that depend on
//! the image size are handed in by the caller.

use vstd::prelude::*;

use crate::flood::adjacent;
use crate::flood::flood;
use crate::flood::is_closed_region;
use crate::flood::law_neighbours_share_an_edge;
use crate::flood::law_walks_go_on;
use crate::flood::law_walks_leave_over_a_neighbour;
use crate::flood::lemma_reach_back;
use crate::flood::lemma_reach_self;
use crate::flood::lemma_reached_is_inside;
use crate::flood::reachable;
use crate::grid::cell;
use crate::grid::lemma_cell;
use crate::grid::lemma_split;
use crate::raster::Raster;
use crate::window::box_count;
use crate::window::box_counts;
use crate::window::clamped;
use crate::window::law_even_windows;
use crate::window::lemma_box_count_positive;
use crate::window::lemma_sum_bump;
use crate::window::lemma_sum_constant;
use crate::window::lemma_sum_no_more;
use crate::window::mask_row;
use crate::window::row_counts;
use crate::window::set_nearby;
use crate::window::sum_range;

verus! {

/// 255 for true, 0 for false.
pub open spec fn flag(value: bool) -> u8 {
    if value {
        255
    } else {
        0
    }
}

/// A mask with every pixel cleared.
pub fn blank_mask(width: u32, height: u32) -> (mask: Raster<u8>)
    requires
        width * height <= usize::MAX,
    ensures
        mask.well_formed(),
        mask.width == width,
        mask.height == height,
        forall|i: int| 0 <= i < mask.pixels@.len() ==> #[trigger] mask.pixels@[i] == 0,
{
    Raster::filled(width, height, 0u8)
}

/// A copy of the mask.
pub fn copy_mask(mask: &Raster<u8>) -> (copy: Raster<u8>)
    requires
        mask.well_formed(),
    ensures
        copy.well_formed(),
        copy.width == mask.width,
        copy.height == mask.height,
        copy.pixels@ == mask.pixels@,
{
    let mut pixels: Vec<u8> = Vec::new();
    let mut i: usize = 0;
    while i < mask.pixels.len()
        invariant
            i <= mask.pixels@.len(),
            pixels@ == mask.pixels@.take(i as int),
        decreases mask.pixels@.len() - i,
    {
        pixels.push(mask.pixels[i]);
        i += 1;
        assert(pixels@ =~= mask.pixels@.take(i as int));
    }
    assert(pixels@ =~= mask.pixels@);
    Raster { width: mask.width, height: mask.height, pixels }
}

/// The number of set pixels among the first `len`.
pub open spec fn set_count(pixels: Seq<u8>, len: int) -> int
    decreases len,
{
    if len <= 0 {
        0
    } else {
        set_count(pixels, len - 1) + if pixels[len - 1] > 0 {
            1int
        } else {
            0int
        }
    }
}

/// Counts the set pixels of a mask.
pub fn count_set(pixels: &Vec<u8>) -> (count: usize)
    ensures
        count == set_count(pixels@, pixels@.len() as int),
{
    let mut count: usize = 0;
    let mut i: usize = 0;
    while i < pixels.len()
        invariant
            i <= pixels@.len(),
            count <= i,
            count == set_count(pixels@, i as int),
        decreases pixels@.len() - i,
    {
        if pixels[i] > 0 {
            count += 1;
        }
        i += 1;
    }
    count
}

/// Sets every pixel that has a set pixel within `radius` columns and rows.
pub fn dilate_focus_binary_mask(mask: &Raster<u8>, radius: usize) -> (grown: Raster<u8>)
    requires
        mask.well_formed(),
        radius <= 0x3fff_ffff,
    ensures
        grown.well_formed(),
        grown.width == mask.width,
        grown.height == mask.height,
        forall|x: int, y: int|
            0 <= x < mask.width && 0 <= y < mask.height ==> #[trigger] grown.at(x, y) == flag(
                set_nearby(
                    mask.pixels@,
                    mask.width as int,
                    mask.height as int,
                    x,
                    y,
                    radius as int,
                ),
            ),
{
    if mask.width == 0 || mask.height == 0 {
        proof {
            assert(mask.width * mask.height == 0) by (nonlinear_arith)
                requires
                    mask.width == 0 || mask.height == 0,
            ;
        }
        return blank_mask(mask.width, mask.height);
    }
    let ghost w = mask.width as int;
    let ghost h = mask.height as int;
    let counts: Vec<u64> = box_counts(
        &mask.pixels,
        mask.width as usize,
        mask.height as usize,
        radius,
    );
    let mut pixels: Vec<u8> = Vec::new();
    let mut i: usize = 0;
    while i < counts.len()
        invariant
            i <= counts@.len(),
            pixels@.len() == i,
            forall|j: int| 0 <= j < i ==> #[trigger] pixels@[j] == flag(counts@[j] > 0),
        decreases counts@.len() - i,
    {
        pixels.push(
            if counts[i] > 0 {
                255
            } else {
                0
            },
        );
        i += 1;
    }
    let grown = Raster { width: mask.width, height: mask.height, pixels };
    proof {
        assert forall|x: int, y: int| 0 <= x < w && 0 <= y < h implies #[trigger] grown.at(x, y)
            == flag(set_nearby(mask.pixels@, w, h, x, y, radius as int)) by {
            lemma_cell(w, h, x, y);
            lemma_box_count_positive(mask.pixels@, w, h, x, y, radius as int);
            assert(counts@[cell(w, x, y)] == box_count(mask.pixels@, w, h, x, y, radius as int));
        }
    }
    grown
}

/// At least 999 of 1000 cells of the window are set.
pub open spec fn survives(
    mask: Seq<u8>,
    width: int,
    height: int,
    x: int,
    y: int,
    radius: int,
) -> bool {
    box_count(mask, width, height, x, y, radius) * 1000 >= 999 * ((2 * radius + 1) * (2 * radius
        + 1))
}

/// Some cell within `radius` columns and rows of the cell survives.
pub open spec fn survivor_nearby(
    mask: Seq<u8>,
    width: int,
    height: int,
    x: int,
    y: int,
    radius: int,
) -> bool {
    exists|a: int, b: int|
        #![trigger survives(mask, width, height, a, b, radius)]
        0 <= a < width && 0 <= b < height && x - radius <= a <= x + radius && y - radius <= b <= y
            + radius && survives(mask, width, height, a, b, radius)
}

/// Keeps the pixels whose window is set all over, then grows them again: thin
/// runs disappear, large regions keep their extent.
pub fn open_focus_binary_mask(mask: &Raster<u8>, radius: usize) -> (opened: Raster<u8>)
    requires
        mask.well_formed(),
        radius <= 0x1fff_ffff,
    ensures
        opened.well_formed(),
        opened.width == mask.width,
        opened.height == mask.height,
        radius == 0 ==> opened.pixels@ == mask.pixels@,
        radius > 0 ==> forall|x: int, y: int|
            0 <= x < mask.width && 0 <= y < mask.height ==> #[trigger] opened.at(x, y) == flag(
                survivor_nearby(
                    mask.pixels@,
                    mask.width as int,
                    mask.height as int,
                    x,
                    y,
                    radius as int,
                ),
            ),
{
    if mask.width == 0 || mask.height == 0 || radius == 0 {
        return copy_mask(mask);
    }
    let ghost w = mask.width as int;
    let ghost h = mask.height as int;
    let ghost r = radius as int;
    let counts: Vec<u64> = box_counts(
        &mask.pixels,
        mask.width as usize,
        mask.height as usize,
        radius,
    );
    let window: u64 = 2 * (radius as u64) + 1;
    proof {
        assert(window * window <= 0x3fff_ffff * 0x3fff_ffff) by (nonlinear_arith)
            requires
                0 <= window <= 0x3fff_ffff,
        ;
        assert(0 <= window * window) by (nonlinear_arith);
        assert(window * window * 1000 >= 0);
    }
    let full: u64 = window * window;
    let mut pixels: Vec<u8> = Vec::new();
    let mut i: usize = 0;
    while i < counts.len()
        invariant
            i <= counts@.len(),
            full <= 0x3fff_ffff * 0x3fff_ffff,
            pixels@.len() == i,
            forall|j: int|
                0 <= j < i ==> #[trigger] pixels@[j] == flag(counts@[j] * 1000 >= 999 * full),
        decreases counts@.len() - i,
    {
        let enough: bool = (counts[i] as u128) * 1000 >= 999 * (full as u128);
        pixels.push(
            if enough {
                255
            } else {
                0
            },
        );
        i += 1;
    }
    let eroded = Raster { width: mask.width, height: mask.height, pixels };
    let opened = dilate_focus_binary_mask(&eroded, radius);
    proof {
        assert forall|a: int, b: int|
            #![trigger cell(w, a, b)]
            0 <= a < w && 0 <= b < h implies (eroded.pixels@[cell(w, a, b)] > 0) == survives(
            mask.pixels@,
            w,
            h,
            a,
            b,
            r,
        ) by {
            lemma_cell(w, h, a, b);
            assert(counts@[cell(w, a, b)] == box_count(mask.pixels@, w, h, a, b, r));
            assert(full == (2 * r + 1) * (2 * r + 1));
        }
        assert forall|x: int, y: int| 0 <= x < w && 0 <= y < h implies #[trigger] opened.at(x, y)
            == flag(survivor_nearby(mask.pixels@, w, h, x, y, r)) by {
            if set_nearby(eroded.pixels@, w, h, x, y, r) {
                let (a, b) = choose|a: int, b: int|
                    #![trigger cell(w, a, b)]
                    0 <= a < w && 0 <= b < h && x - r <= a <= x + r && y - r <= b <= y + r
                        && eroded.pixels@[cell(w, a, b)] > 0;
                assert(survives(mask.pixels@, w, h, a, b, r));
            }
            if survivor_nearby(mask.pixels@, w, h, x, y, r) {
                let (a, b) = choose|a: int, b: int|
                    #![trigger survives(mask.pixels@, w, h, a, b, r)]
                    0 <= a < w && 0 <= b < h && x - r <= a <= x + r && y - r <= b <= y + r
                        && survives(mask.pixels@, w, h, a, b, r);
                assert(eroded.pixels@[cell(w, a, b)] > 0);
            }
        }
    }
    opened
}

/// The cell lies on the outermost row or column.
pub open spec fn on_border(width: int, height: int, i: int) -> bool {
    ||| i % width == 0
    ||| i % width == width - 1
    ||| i / width == 0
    ||| i / width == height - 1
}

/// The cleared pixels, as the cells that a walk may use.
pub open spec fn cleared(mask: Seq<u8>) -> Seq<bool> {
    Seq::new(mask.len(), |i: int| mask[i] == 0)
}

/// The set pixels, as the cells that a walk may use.
pub open spec fn set_cells(mask: Seq<u8>) -> Seq<bool> {
    Seq::new(mask.len(), |i: int| mask[i] > 0)
}

/// A walk over cleared pixels leads from the border to the pixel.
pub open spec fn is_outside(mask: Seq<u8>, width: int, height: int, i: int) -> bool {
    exists|b: int|
        0 <= b < mask.len() && on_border(width, height, b) && #[trigger] reachable(
            width,
            height,
            cleared(mask),
            b,
            i,
        )
}

/// Sets the cleared pixels that are cut off from the border by set ones.
pub fn fill_focus_foreground_holes(mask: &Raster<u8>) -> (filled: Raster<u8>)
    requires
        mask.well_formed(),
    ensures
        filled.well_formed(),
        filled.width == mask.width,
        filled.height == mask.height,
        forall|i: int|
            0 <= i < mask.pixels@.len() ==> #[trigger] filled.pixels@[i] == if mask.pixels@[i] == 0
                && !is_outside(mask.pixels@, mask.width as int, mask.height as int, i) {
                255
            } else {
                mask.pixels@[i]
            },
{
    if mask.width == 0 || mask.height == 0 {
        proof {
            assert(mask.width * mask.height == 0) by (nonlinear_arith)
                requires
                    mask.width == 0 || mask.height == 0,
            ;
        }
        return copy_mask(mask);
    }
    let width: usize = mask.width as usize;
    let height: usize = mask.height as usize;
    let size: usize = mask.pixels.len();
    let ghost w = width as int;
    let ghost h = height as int;
    let mut open: Vec<bool> = Vec::new();
    let mut outside: Vec<bool> = Vec::new();
    let mut i: usize = 0;
    while i < size
        invariant
            i <= size,
            size == mask.pixels@.len(),
            open@.len() == i,
            outside@.len() == i,
            forall|j: int| 0 <= j < i ==> #[trigger] open@[j] == (mask.pixels@[j] == 0),
            forall|j: int| 0 <= j < i ==> !(#[trigger] outside@[j]),
        decreases size - i,
    {
        open.push(mask.pixels[i] == 0);
        outside.push(false);
        i += 1;
    }
    proof {
        assert(open@ =~= cleared(mask.pixels@));
    }
    let mut at: usize = 0;
    while at < size
        invariant
            at <= size,
            0 < width,
            w == width,
            h == height,
            size == width * height,
            size == mask.pixels@.len(),
            open@ == cleared(mask.pixels@),
            open@.len() == size,
            is_closed_region(w, h, open@, outside@),
            forall|j: int|
                #![trigger outside@[j]]
                0 <= j < size && outside@[j] ==> is_outside(mask.pixels@, w, h, j),
            forall|b: int|
                #![trigger outside@[b]]
                0 <= b < at && on_border(w, h, b) && open@[b] ==> outside@[b],
        decreases size - at,
    {
        proof {
            lemma_split(w, h, at as int);
        }
        let x: usize = at % width;
        let y: usize = at / width;
        if (x == 0 || x == width - 1 || y == 0 || y == height - 1) && open[at] && !outside[at] {
            let ghost before = outside@;
            let _component: Vec<usize> = flood(width, height, &open, &mut outside, at);
            proof {
                lemma_reach_self(w, h, open@, at as int);
                assert forall|j: int|
                    #![trigger outside@[j]]
                    0 <= j < size && outside@[j] implies is_outside(mask.pixels@, w, h, j) by {
                    if before[j] {
                        assert(is_outside(mask.pixels@, w, h, j));
                    } else {
                        assert(reachable(w, h, cleared(mask.pixels@), at as int, j));
                    }
                }
                assert forall|b: int|
                    #![trigger outside@[b]]
                    0 <= b < at + 1 && on_border(w, h, b) && open@[b] implies outside@[b] by {
                    if b < at {
                        assert(before[b]);
                    }
                }
            }
        }
        at += 1;
    }
    proof {
        assert forall|j: int|
            #![trigger outside@[j]]
            0 <= j < size && is_outside(mask.pixels@, w, h, j) implies outside@[j] by {
            let b = choose|b: int|
                0 <= b < mask.pixels@.len() && on_border(w, h, b) && #[trigger] reachable(
                    w,
                    h,
                    cleared(mask.pixels@),
                    b,
                    j,
                );
            lemma_reach_starts_open(w, h, open@, b, j);
            assert(outside@[b]);
            lemma_reached_is_inside(w, h, open@, outside@, b, j);
        }
    }
    let mut pixels: Vec<u8> = Vec::new();
    let mut k: usize = 0;
    while k < size
        invariant
            k <= size,
            size == mask.pixels@.len(),
            outside@.len() == size,
            pixels@.len() == k,
            forall|j: int|
                0 <= j < k ==> #[trigger] pixels@[j] == if mask.pixels@[j] == 0 && !outside@[j] {
                    255
                } else {
                    mask.pixels@[j]
                },
        decreases size - k,
    {
        let value: u8 = mask.pixels[k];
        pixels.push(
            if value == 0 && !outside[k] {
                255
            } else {
                value
            },
        );
        k += 1;
    }
    proof {
        assert forall|j: int| 0 <= j < size implies #[trigger] pixels@[j] == if mask.pixels@[j] == 0
            && !is_outside(mask.pixels@, w, h, j) {
            255
        } else {
            mask.pixels@[j]
        } by {
            assert(outside@[j] == is_outside(mask.pixels@, w, h, j));
        }
    }
    Raster { width: mask.width, height: mask.height, pixels }
}

proof fn lemma_reach_starts_open(width: int, height: int, open: Seq<bool>, from: int, to: int)
    requires
        reachable(width, height, open, from, to),
    ensures
        0 <= from < open.len(),
        open[from],
        0 <= to < open.len(),
        open[to],
{
    let path = choose|path: Seq<int>| #[trigger]
        crate::flood::is_walk(width, height, open, path) && path[0] == from && path[path.len() - 1]
            == to;
    assert(path[0] == from);
    assert(path[path.len() - 1] == to);
}

/// The set pixels that hang together with pixel `i`.
pub open spec fn component_of(mask: Seq<u8>, width: int, height: int, i: int) -> Set<usize> {
    Set::new(
        |v: usize|
            v < mask.len() && reachable(width, height, set_cells(mask), i, v as int),
    )
}

/// The component of pixel `i` holds a seed, has at least `least_size` pixels and
/// spans at least `least_extent` columns and rows.
pub open spec fn component_is_kept(
    mask: Seq<u8>,
    seeds: Seq<u8>,
    width: int,
    height: int,
    least_size: int,
    least_extent: int,
    i: int,
) -> bool {
    let component = component_of(mask, width, height, i);
    &&& exists|v: usize| #[trigger] component.contains(v) && seeds[v as int] > 0
    &&& component.len() >= least_size
    &&& exists|a: usize, b: usize| #[trigger]
        component.contains(a) && #[trigger] component.contains(b) && a as int % width - b as int
            % width + 1 >= least_extent
    &&& exists|a: usize, b: usize| #[trigger]
        component.contains(a) && #[trigger] component.contains(b) && a as int / width - b as int
            / width + 1 >= least_extent
}

proof fn lemma_component_shared(mask: Seq<u8>, width: int, height: int, start: int, v: int)
    requires
        0 < width,
        mask.len() == width * height,
        0 <= start < mask.len(),
        reachable(width, height, set_cells(mask), start, v),
    ensures
        component_of(mask, width, height, v) =~= component_of(mask, width, height, start),
{
    let open = set_cells(mask);
    lemma_reach_starts_open(width, height, open, start, v);
    let from_start = Seq::new(mask.len(), |j: int| reachable(width, height, open, start, j));
    let from_v = Seq::new(mask.len(), |j: int| reachable(width, height, open, v, j));
    crate::flood::lemma_reach_self(width, height, open, start);
    crate::flood::lemma_reach_self(width, height, open, v);
    crate::flood::lemma_reachable_is_closed(width, height, open, start);
    crate::flood::lemma_reachable_is_closed(width, height, open, v);
    assert(from_start[v]);
    assert(from_v[v]);
    crate::flood::lemma_reach_back(width, height, open, start, v);
    assert forall|j: usize|
        #![auto]
        component_of(mask, width, height, v).contains(j) == component_of(
            mask,
            width,
            height,
            start,
        ).contains(j) by {
        if j < mask.len() && reachable(width, height, open, v, j as int) {
            lemma_reached_is_inside(width, height, open, from_start, v, j as int);
        }
        if j < mask.len() && reachable(width, height, open, start, j as int) {
            lemma_reached_is_inside(width, height, open, from_v, start, j as int);
        }
    }
}

/// Whether the component `found` holds a seed, and its first and last column and
/// row.
fn measure_component(
    found: &Vec<usize>,
    seeds: &Vec<u8>,
    width: usize,
    height: usize,
    least_size: usize,
    least_extent: usize,
    Ghost(mask): Ghost<Seq<u8>>,
    Ghost(start): Ghost<int>,
) -> (kept: bool)
    requires
        0 < width,
        mask.len() == width * height,
        seeds@.len() == mask.len(),
        found@.len() > 0,
        found@.no_duplicates(),
        forall|k: int| 0 <= k < found@.len() ==> #[trigger] found@[k] < mask.len(),
        component_of(mask, width as int, height as int, start) == found@.to_set(),
    ensures
        kept == component_is_kept(
            mask,
            seeds@,
            width as int,
            height as int,
            least_size as int,
            least_extent as int,
            start,
        ),
{
    let ghost w = width as int;
    let ghost h = height as int;
    let mut has_seed: bool = false;
    let mut left: usize = found[0] % width;
    let mut right: usize = left;
    let mut top: usize = found[0] / width;
    let mut bottom: usize = top;
    let ghost mut at_left: int = 0;
    let ghost mut at_right: int = 0;
    let ghost mut at_top: int = 0;
    let ghost mut at_bottom: int = 0;
    let mut k: usize = 0;
    while k < found.len()
        invariant
            k <= found@.len(),
            0 < width,
            w == width,
            found@.len() > 0,
            seeds@.len() == mask.len(),
            forall|j: int| 0 <= j < found@.len() ==> #[trigger] found@[j] < mask.len(),
            has_seed <==> exists|j: int| 0 <= j < k && seeds@[#[trigger] found@[j] as int] > 0,
            0 <= at_left < found@.len(),
            0 <= at_right < found@.len(),
            0 <= at_top < found@.len(),
            0 <= at_bottom < found@.len(),
            left == found@[at_left] as int % w,
            right == found@[at_right] as int % w,
            top == found@[at_top] as int / w,
            bottom == found@[at_bottom] as int / w,
            left <= right,
            top <= bottom,
            forall|j: int|
                #![trigger found@[j]]
                0 <= j < k ==> left <= found@[j] as int % w <= right && top <= found@[j] as int / w
                    <= bottom,
        decreases found@.len() - k,
    {
        let index: usize = found[k];
        let x: usize = index % width;
        let y: usize = index / width;
        if seeds[index] > 0 {
            has_seed = true;
        }
        if x < left {
            left = x;
            proof {
                at_left = k as int;
            }
        }
        if x > right {
            right = x;
            proof {
                at_right = k as int;
            }
        }
        if y < top {
            top = y;
            proof {
                at_top = k as int;
            }
        }
        if y > bottom {
            bottom = y;
            proof {
                at_bottom = k as int;
            }
        }
        k += 1;
    }
    let ghost component = component_of(mask, w, h, start);
    proof {
        found@.unique_seq_to_set();
        assert(component.len() == found@.len());
        assert forall|j: int| 0 <= j < found@.len() implies component.contains(
            #[trigger] found@[j],
        ) by {}
        assert forall|v: usize| #[trigger] component.contains(v) implies exists|j: int|
            0 <= j < found@.len() && #[trigger] found@[j] == v by {
            assert(found@.contains(v));
        }
        if has_seed {
            let j = choose|j: int|
                0 <= j < found@.len() && seeds@[#[trigger] found@[j] as int] > 0;
            assert(component.contains(found@[j]));
        }
        if exists|v: usize| #[trigger] component.contains(v) && seeds@[v as int] > 0 {
            let v = choose|v: usize| #[trigger] component.contains(v) && seeds@[v as int] > 0;
            let j = choose|j: int| 0 <= j < found@.len() && #[trigger] found@[j] == v;
            assert(seeds@[found@[j] as int] > 0);
        }
        assert(component.contains(found@[at_left]) && component.contains(found@[at_right]));
        assert(component.contains(found@[at_top]) && component.contains(found@[at_bottom]));
        assert forall|a: usize, b: usize| #[trigger]
            component.contains(a) && #[trigger] component.contains(b) implies a as int % w
            - b as int % w <= right - left && a as int / w - b as int / w <= bottom - top by {
            let i = choose|i: int| 0 <= i < found@.len() && #[trigger] found@[i] == a;
            let j = choose|j: int| 0 <= j < found@.len() && #[trigger] found@[j] == b;
        }
    }
    has_seed && found.len() >= least_size && (right - left) as u128 + 1 >= least_extent as u128 && (
    bottom - top) as u128 + 1 >= least_extent as u128
}

/// Keeps the components of the foreground that hold a seed and are large enough.
/// The result is blank where the two masks differ in size.
pub fn retain_focus_foreground_components(
    foreground_mask: &Raster<u8>,
    seed_mask: &Raster<u8>,
    minimum_component_size: usize,
    minimum_component_width: usize,
) -> (retained: Raster<u8>)
    requires
        foreground_mask.well_formed(),
        seed_mask.well_formed(),
    ensures
        retained.well_formed(),
        retained.width == foreground_mask.width,
        retained.height == foreground_mask.height,
        forall|i: int|
            0 <= i < foreground_mask.pixels@.len() ==> #[trigger] retained.pixels@[i] == flag(
                foreground_mask.same_size(seed_mask) && foreground_mask.pixels@[i] > 0
                    && component_is_kept(
                    foreground_mask.pixels@,
                    seed_mask.pixels@,
                    foreground_mask.width as int,
                    foreground_mask.height as int,
                    minimum_component_size as int,
                    minimum_component_width as int,
                    i,
                ),
            ),
{
    let size: usize = foreground_mask.pixels.len();
    if foreground_mask.width != seed_mask.width || foreground_mask.height != seed_mask.height
        || foreground_mask.width == 0 || foreground_mask.height == 0 {
        proof {
            assert(foreground_mask.width * foreground_mask.height == 0
                || !foreground_mask.same_size(seed_mask)) by (nonlinear_arith)
                requires
                    foreground_mask.width == 0 || foreground_mask.height == 0
                        || !foreground_mask.same_size(seed_mask),
            ;
        }
        return blank_mask(foreground_mask.width, foreground_mask.height);
    }
    let width: usize = foreground_mask.width as usize;
    let height: usize = foreground_mask.height as usize;
    let ghost w = width as int;
    let ghost h = height as int;
    let ghost mask = foreground_mask.pixels@;
    let ghost seeds = seed_mask.pixels@;
    let ghost least = minimum_component_size as int;
    let ghost extent = minimum_component_width as int;
    let mut open: Vec<bool> = Vec::new();
    let mut visited: Vec<bool> = Vec::new();
    let mut pixels: Vec<u8> = Vec::new();
    let mut i: usize = 0;
    while i < size
        invariant
            i <= size,
            size == mask.len(),
            mask == foreground_mask.pixels@,
            open@.len() == i,
            visited@.len() == i,
            pixels@.len() == i,
            forall|j: int| 0 <= j < i ==> #[trigger] open@[j] == (mask[j] > 0),
            forall|j: int| 0 <= j < i ==> !(#[trigger] visited@[j]),
            forall|j: int| 0 <= j < i ==> #[trigger] pixels@[j] == 0,
        decreases size - i,
    {
        open.push(foreground_mask.pixels[i] > 0);
        visited.push(false);
        pixels.push(0);
        i += 1;
    }
    proof {
        assert(open@ =~= set_cells(mask));
    }
    let mut start: usize = 0;
    while start < size
        invariant
            start <= size,
            0 < width,
            w == width,
            h == height,
            size == width * height,
            size == mask.len(),
            seeds == seed_mask.pixels@,
            seeds.len() == size,
            least == minimum_component_size,
            extent == minimum_component_width,
            open@ == set_cells(mask),
            open@.len() == size,
            pixels@.len() == size,
            is_closed_region(w, h, open@, visited@),
            forall|j: int|
                #![trigger visited@[j]]
                0 <= j < start && open@[j] ==> visited@[j],
            forall|j: int|
                #![trigger pixels@[j]]
                0 <= j < size ==> pixels@[j] == flag(
                    visited@[j] && component_is_kept(mask, seeds, w, h, least, extent, j),
                ),
        decreases size - start,
    {
        if open[start] && !visited[start] {
            let ghost before = visited@;
            let found: Vec<usize> = flood(width, height, &open, &mut visited, start);
            proof {
                lemma_reach_self(w, h, open@, start as int);
                assert(found@.contains(start));
                assert forall|v: usize|
                    #![auto]
                    component_of(mask, w, h, start as int).contains(v)
                        == found@.to_set().contains(v) by {
                    if found@.contains(v) {
                        let k = choose|k: int| 0 <= k < found@.len() && #[trigger] found@[k] == v;
                        assert(found@[k] < open@.len());
                    }
                    if v < size && reachable(w, h, open@, start as int, v as int) {
                        assert(found@.contains(v));
                    }
                }
                assert(component_of(mask, w, h, start as int) =~= found@.to_set());
            }
            let kept: bool = measure_component(
                &found,
                &seed_mask.pixels,
                width,
                height,
                minimum_component_size,
                minimum_component_width,
                Ghost(mask),
                Ghost(start as int),
            );
            let ghost pixels_before = pixels@;
            if kept {
                let mut k: usize = 0;
                while k < found.len()
                    invariant
                        k <= found@.len(),
                        size == mask.len(),
                        pixels@.len() == size,
                        pixels_before.len() == size,
                        forall|j: int| 0 <= j < found@.len() ==> #[trigger] found@[j] < size,
                        forall|j: int|
                            #![trigger pixels@[j]]
                            0 <= j < size ==> pixels@[j] == if found@.take(k as int).contains(
                                j as usize,
                            ) {
                                255
                            } else {
                                pixels_before[j]
                            },
                    decreases found@.len() - k,
                {
                    let ghost stage = pixels@;
                    pixels.set(found[k], 255);
                    proof {
                        assert(found@.take(k + 1) =~= found@.take(k as int).push(found@[k as int]));
                        assert forall|j: int|
                            #![trigger pixels@[j]]
                            0 <= j < size implies pixels@[j] == if found@.take(k + 1).contains(
                            j as usize,
                        ) {
                            255
                        } else {
                            pixels_before[j]
                        } by {
                            if j == found@[k as int] {
                                assert(found@.take(k + 1)[k as int] == j as usize);
                            } else {
                                if found@.take(k as int).contains(j as usize) {
                                    let q = choose|q: int|
                                        0 <= q < k && #[trigger] found@.take(k as int)[q] == j as usize;
                                    assert(found@.take(k + 1)[q] == j as usize);
                                }
                                if found@.take(k + 1).contains(j as usize) {
                                    let q = choose|q: int|
                                        0 <= q < k + 1 && #[trigger] found@.take(k + 1)[q]
                                            == j as usize;
                                    assert(found@.take(k as int)[q] == j as usize);
                                }
                            }
                        }
                    }
                    k += 1;
                }
                assert(found@.take(found@.len() as int) =~= found@);
            }
            proof {
                assert forall|j: int|
                    #![trigger pixels@[j]]
                    0 <= j < size implies pixels@[j] == flag(
                    visited@[j] && component_is_kept(mask, seeds, w, h, least, extent, j),
                ) by {
                    if reachable(w, h, open@, start as int, j) {
                        lemma_component_shared(mask, w, h, start as int, j);
                        assert(found@.contains(j as usize));
                        assert(visited@[j]);
                        assert(!before[j]);
                        assert(component_is_kept(mask, seeds, w, h, least, extent, j) == kept);
                    } else {
                        assert(visited@[j] == before[j]);
                        if kept && found@.contains(j as usize) {
                            let k = choose|k: int|
                                0 <= k < found@.len() && #[trigger] found@[k] == j as usize;
                            assert(reachable(w, h, open@, start as int, found@[k] as int));
                        }
                    }
                }
                assert forall|j: int|
                    #![trigger visited@[j]]
                    0 <= j < start + 1 && open@[j] implies visited@[j] by {
                    if j < start {
                        assert(before[j]);
                    }
                }
            }
        }
        start += 1;
    }
    proof {
        assert forall|j: int| 0 <= j < size implies #[trigger] pixels@[j] == flag(
            foreground_mask.same_size(seed_mask) && mask[j] > 0 && component_is_kept(
                mask,
                seeds,
                w,
                h,
                least,
                extent,
                j,
            ),
        ) by {
            assert(visited@[j] == open@[j]);
        }
    }
    Raster { width: foreground_mask.width, height: foreground_mask.height, pixels }
}

/// A window of fewer than 1000 cells survives exactly if every cell of the image within its
/// reach is set.
pub proof fn law_only_full_windows_survive(
    mask: Seq<u8>,
    width: int,
    height: int,
    x: int,
    y: int,
    radius: int,
)
    requires
        0 <= x < width,
        0 <= y < height,
        0 <= radius,
        (2 * radius + 1) * (2 * radius + 1) < 1000,
    ensures
        survives(mask, width, height, x, y, radius) <==> forall|a: int, b: int|
            #![trigger cell(width, a, b)]
            0 <= a < width && 0 <= b < height && x - radius <= a <= x + radius && y - radius <= b <= y
                + radius ==> mask[cell(width, a, b)] > 0,
{
    let side = 2 * radius + 1;
    if forall|a: int, b: int|
        #![trigger cell(width, a, b)]
        0 <= a < width && 0 <= b < height && x - radius <= a <= x + radius && y - radius <= b <= y
            + radius ==> mask[cell(width, a, b)] > 0 {
        law_even_windows(mask, width, height, x, y, radius, true);
        assert(side * side >= 0) by (nonlinear_arith);
    } else {
        let (a, b) = choose|a: int, b: int|
            #![trigger cell(width, a, b)]
            0 <= a < width && 0 <= b < height && x - radius <= a <= x + radius && y - radius <= b
                <= y + radius && !(mask[cell(width, a, b)] > 0);
        lemma_gap_is_noticed(mask, width, height, x, y, radius, a, b);
    }
}

proof fn lemma_gap_is_noticed(
    mask: Seq<u8>,
    width: int,
    height: int,
    x: int,
    y: int,
    radius: int,
    a: int,
    b: int,
)
    requires
        0 <= x < width,
        0 <= y < height,
        0 <= radius,
        0 <= a < width,
        0 <= b < height,
        x - radius <= a <= x + radius,
        y - radius <= b <= y + radius,
        mask[cell(width, a, b)] == 0,
    ensures
        box_count(mask, width, height, x, y, radius) <= (2 * radius + 1) * (2 * radius + 1) - 1,
{
    let side = 2 * radius + 1;
    let f = row_counts(mask, width, height, x, radius);
    let full = |k: int|
        if k == b {
            side - 1
        } else {
            side
        };
    assert forall|k: int| y - radius <= k < y + radius + 1 implies #[trigger] f(k) <= full(k) by {
        let g = mask_row(mask, width, clamped(k, height));
        if k == b {
            let ones = |j: int|
                if j == a {
                    0int
                } else {
                    1int
                };
            let all = |j: int| 1int;
            lemma_sum_no_more(g, ones, x - radius, x + radius + 1);
            lemma_sum_bump(all, ones, x - radius, x + radius + 1, a, -1);
            lemma_sum_constant(all, x - radius, x + radius + 1, 1);
        } else {
            let all = |j: int| 1int;
            lemma_sum_no_more(g, all, x - radius, x + radius + 1);
            lemma_sum_constant(all, x - radius, x + radius + 1, 1);
        }
    }
    lemma_sum_no_more(f, full, y - radius, y + radius + 1);
    let even = |k: int| side;
    lemma_sum_bump(even, full, y - radius, y + radius + 1, b, -1);
    lemma_sum_constant(even, y - radius, y + radius + 1, side);
}

/// Opening a mask keeps whole windows: a pixel within reach of one whose window is set all over
/// stays.
pub proof fn law_opening_keeps_large_regions(
    mask: Seq<u8>,
    width: int,
    height: int,
    radius: int,
    x: int,
    y: int,
    a: int,
    b: int,
)
    requires
        0 <= a < width,
        0 <= b < height,
        0 <= radius,
        a - radius <= x <= a + radius,
        b - radius <= y <= b + radius,
        forall|u: int, v: int|
            #![trigger cell(width, u, v)]
            0 <= u < width && 0 <= v < height && a - radius <= u <= a + radius && b - radius <= v <= b
                + radius ==> mask[cell(width, u, v)] > 0,
    ensures
        survivor_nearby(mask, width, height, x, y, radius),
{
    law_even_windows(mask, width, height, a, b, radius, true);
    assert((2 * radius + 1) * (2 * radius + 1) >= 0) by (nonlinear_arith);
    assert(survives(mask, width, height, a, b, radius));
}

/// Opening a mask with a window of fewer than 1000 cells adds nothing, and what stays lies in a
/// window that is set all over.
pub proof fn law_opening_adds_nothing(
    mask: Seq<u8>,
    width: int,
    height: int,
    radius: int,
    x: int,
    y: int,
) -> (centre: (int, int))
    requires
        0 <= x < width,
        0 <= y < height,
        0 <= radius,
        (2 * radius + 1) * (2 * radius + 1) < 1000,
        survivor_nearby(mask, width, height, x, y, radius),
    ensures
        mask[cell(width, x, y)] > 0,
        x - radius <= centre.0 <= x + radius,
        y - radius <= centre.1 <= y + radius,
        forall|u: int, v: int|
            #![trigger cell(width, u, v)]
            0 <= u < width && 0 <= v < height && centre.0 - radius <= u <= centre.0 + radius
                && centre.1 - radius <= v <= centre.1 + radius ==> mask[cell(width, u, v)] > 0,
{
    let (a, b) = choose|a: int, b: int|
        #![trigger survives(mask, width, height, a, b, radius)]
        0 <= a < width && 0 <= b < height && x - radius <= a <= x + radius && y - radius <= b <= y
            + radius && survives(mask, width, height, a, b, radius);
    law_only_full_windows_survive(mask, width, height, a, b, radius);
    (a, b)
}

/// Cleared pixels on the border are outside, and so is every cleared neighbour of one that is
/// outside: only what set pixels cut off is a hole.
pub proof fn law_outside_spreads_over_cleared_pixels(
    mask: Seq<u8>,
    width: int,
    height: int,
    x: int,
    y: int,
    u: int,
    v: int,
)
    requires
        mask.len() == width * height,
        0 <= x < width,
        0 <= y < height,
        0 <= u < width,
        0 <= v < height,
        mask[cell(width, x, y)] == 0,
        (x == 0 || y == 0 || x == width - 1 || y == height - 1) || (is_outside(
            mask,
            width,
            height,
            cell(width, u, v),
        ) && ((x == u && (v == y + 1 || v == y - 1)) || (y == v && (u == x + 1 || u == x - 1)))),
    ensures
        is_outside(mask, width, height, cell(width, x, y)),
{
    lemma_cell(width, height, x, y);
    lemma_cell(width, height, u, v);
    let (i, j) = (cell(width, x, y), cell(width, u, v));
    let open = cleared(mask);
    if x == 0 || y == 0 || x == width - 1 || y == height - 1 {
        lemma_reach_self(width, height, open, i);
        assert(on_border(width, height, i));
    } else {
        let b = choose|b: int|
            0 <= b < mask.len() && on_border(width, height, b) && #[trigger] reachable(
                width,
                height,
                open,
                b,
                j,
            );
        law_neighbours_share_an_edge(width, height, u, v, x, y);
        law_walks_go_on(width, height, open, b, j, i);
    }
}

/// A cleared pixel away from the border whose four neighbours are set is a hole, and so is a
/// region of them that set pixels enclose: what is outside is cleared and lies on the border or
/// beside another pixel that is cleared.
pub proof fn law_enclosed_pixels_are_holes(mask: Seq<u8>, width: int, height: int, x: int, y: int)
    requires
        mask.len() == width * height,
        0 < x < width - 1,
        0 < y < height - 1,
        mask[cell(width, x - 1, y)] > 0,
        mask[cell(width, x + 1, y)] > 0,
        mask[cell(width, x, y - 1)] > 0,
        mask[cell(width, x, y + 1)] > 0,
    ensures
        !is_outside(mask, width, height, cell(width, x, y)),
{
    let i = cell(width, x, y);
    let open = cleared(mask);
    lemma_cell(width, height, x, y);
    if is_outside(mask, width, height, i) {
        let b = choose|b: int|
            0 <= b < mask.len() && on_border(width, height, b) && #[trigger] reachable(
                width,
                height,
                open,
                b,
                i,
            );
        law_walks_leave_over_a_neighbour(width, height, open, b, i);
        let a = choose|a: int|
            0 <= a < open.len() && open[a] && #[trigger] adjacent(width, height, a, i);
        lemma_split(width, height, a);
        let (u, v) = (a % width, a / width);
        law_neighbours_share_an_edge(width, height, u, v, x, y);
        assert(a == cell(width, u, v));
        assert(mask[cell(width, u, v)] > 0);
        assert(false);
    }
}

/// Set pixels that touch are kept or dropped together.
pub proof fn law_components_share_their_fate(
    mask: Seq<u8>,
    seeds: Seq<u8>,
    width: int,
    height: int,
    least_size: int,
    least_extent: int,
    x: int,
    y: int,
    u: int,
    v: int,
)
    requires
        mask.len() == width * height,
        0 <= x < width,
        0 <= y < height,
        0 <= u < width,
        0 <= v < height,
        mask[cell(width, x, y)] > 0,
        mask[cell(width, u, v)] > 0,
        (x == u && (v == y + 1 || v == y - 1)) || (y == v && (u == x + 1 || u == x - 1)),
    ensures
        component_is_kept(
            mask,
            seeds,
            width,
            height,
            least_size,
            least_extent,
            cell(width, x, y),
        ) == component_is_kept(
            mask,
            seeds,
            width,
            height,
            least_size,
            least_extent,
            cell(width, u, v),
        ),
{
    lemma_cell(width, height, x, y);
    lemma_cell(width, height, u, v);
    let (i, j) = (cell(width, x, y), cell(width, u, v));
    let open = set_cells(mask);
    lemma_reach_self(width, height, open, i);
    law_neighbours_share_an_edge(width, height, x, y, u, v);
    law_walks_go_on(width, height, open, i, i, j);
    lemma_component_shared(mask, width, height, i, j);
}

/// A single pixel with no set neighbour is kept exactly if it is a seed and one pixel is enough.
pub proof fn law_single_pixels_stand_for_themselves(
    mask: Seq<u8>,
    seeds: Seq<u8>,
    width: int,
    height: int,
    least_size: int,
    least_extent: int,
    x: int,
    y: int,
)
    requires
        mask.len() == width * height,
        mask.len() <= usize::MAX,
        0 <= x < width,
        0 <= y < height,
        mask[cell(width, x, y)] > 0,
        x > 0 ==> mask[cell(width, x - 1, y)] == 0,
        x + 1 < width ==> mask[cell(width, x + 1, y)] == 0,
        y > 0 ==> mask[cell(width, x, y - 1)] == 0,
        y + 1 < height ==> mask[cell(width, x, y + 1)] == 0,
    ensures
        component_is_kept(
            mask,
            seeds,
            width,
            height,
            least_size,
            least_extent,
            cell(width, x, y),
        ) <==> seeds[cell(width, x, y)] > 0 && least_size <= 1 && least_extent <= 1,
{
    lemma_cell(width, height, x, y);
    let i = cell(width, x, y);
    let open = set_cells(mask);
    let component = component_of(mask, width, height, i);
    lemma_reach_self(width, height, open, i);
    assert forall|w: usize| component.contains(w) implies w == i by {
        if w != i {
            lemma_reach_back(width, height, open, i, w as int);
            law_walks_leave_over_a_neighbour(width, height, open, w as int, i);
            let a = choose|a: int|
                0 <= a < open.len() && open[a] && #[trigger] adjacent(width, height, a, i);
            lemma_split(width, height, a);
            law_neighbours_share_an_edge(width, height, a % width, a / width, x, y);
            assert(a == cell(width, a % width, a / width));
            assert(false);
        }
    }
    assert(component =~= Set::empty().insert(i as usize));
    assert(component.contains(i as usize));
    assert(component.len() == 1);
}

/// A component without a seed is dropped, and one that is kept has the least size.
pub proof fn law_kept_components_have_a_seed_and_a_size(
    mask: Seq<u8>,
    seeds: Seq<u8>,
    width: int,
    height: int,
    least_size: int,
    least_extent: int,
    i: int,
)
    requires
        0 < width,
        mask.len() == width * height,
        mask.len() <= usize::MAX,
        0 <= i < mask.len(),
        component_is_kept(mask, seeds, width, height, least_size, least_extent, i),
    ensures
        exists|j: int|
            0 <= j < mask.len() && mask[j] > 0 && seeds[j] > 0 && #[trigger] reachable(
                width,
                height,
                set_cells(mask),
                i,
                j,
            ),
        least_size <= set_count(mask, mask.len() as int),
        least_extent <= width,
        least_extent <= height,
{
    let component = component_of(mask, width, height, i);
    let open = set_cells(mask);
    let v = choose|v: usize| #[trigger] component.contains(v) && seeds[v as int] > 0;
    lemma_reach_starts_open(width, height, open, i, v as int);
    assert(reachable(width, height, open, i, v as int));
    let (a, b) = choose|a: usize, b: usize| #[trigger]
        component.contains(a) && #[trigger] component.contains(b) && a as int % width - b as int
            % width + 1 >= least_extent;
    lemma_split(width, height, a as int);
    lemma_split(width, height, b as int);
    let (c, d) = choose|a: usize, b: usize| #[trigger]
        component.contains(a) && #[trigger] component.contains(b) && a as int / width - b as int
            / width + 1 >= least_extent;
    lemma_split(width, height, c as int);
    lemma_split(width, height, d as int);
    assert forall|w: usize| component.contains(w) implies w < mask.len() && mask[w as int] > 0 by {
        lemma_reach_starts_open(width, height, open, i, w as int);
    }
    lemma_set_pixels_bound(mask, component, mask.len() as int);
}

proof fn lemma_set_pixels_bound(mask: Seq<u8>, part: Set<usize>, len: int)
    requires
        0 <= len <= mask.len(),
        mask.len() <= usize::MAX,
        forall|w: usize| part.contains(w) ==> w < len && mask[w as int] > 0,
    ensures
        part.finite(),
        part.len() <= set_count(mask, len),
    decreases len,
{
    if len == 0 {
        assert(part =~= Set::empty());
    } else {
        let last = (len - 1) as usize;
        let rest = part.remove(last);
        lemma_set_pixels_bound(mask, rest, len - 1);
        if part.contains(last) {
            assert(part =~= rest.insert(last));
        } else {
            assert(part =~= rest);
        }
    }
}

/// A set pixel of a mask is 255, any other 0.
pub proof fn law_flags_are_the_ends_of_the_range(value: bool)
    ensures
        value ==> flag(value) == 255,
        !value ==> flag(value) == 0,
{
}

/// 1 where a pixel is one of the members.
pub open spec fn membership(members: Seq<bool>) -> spec_fn(int) -> int {
    |j: int|
        if members[j] {
            1
        } else {
            0
        }
}

/// A component is kept exactly if it has a seed, as many pixels as are asked for, and two pixels
/// that lie far enough apart in columns and two in rows. Its members are the pixels that a walk
/// over set pixels leads to.
pub proof fn law_components_are_kept_for_their_extent(
    mask: Seq<u8>,
    seeds: Seq<u8>,
    width: int,
    height: int,
    least_size: int,
    least_extent: int,
    i: int,
    members: Seq<bool>,
)
    requires
        0 < width,
        mask.len() == width * height,
        mask.len() <= usize::MAX,
        members.len() == mask.len(),
        forall|j: int|
            #![trigger members[j]]
            0 <= j < mask.len() ==> members[j] == reachable(width, height, set_cells(mask), i, j),
    ensures
        component_is_kept(mask, seeds, width, height, least_size, least_extent, i) <==> (exists|j: int|
            #![trigger members[j]]
            0 <= j < members.len() && members[j] && seeds[j] > 0) && sum_range(
            membership(members),
            0,
            members.len() as int,
        ) >= least_size && (exists|a: int, b: int|
            #![trigger members[a], members[b]]
            0 <= a < members.len() && 0 <= b < members.len() && members[a] && members[b] && a % width
                >= b % width + least_extent - 1) && (exists|a: int, b: int|
            #![trigger members[a], members[b]]
            0 <= a < members.len() && 0 <= b < members.len() && members[a] && members[b] && a / width
                >= b / width + least_extent - 1),
{
    let component = component_of(mask, width, height, i);
    assert forall|v: usize| #[trigger] component.contains(v) == (v < members.len()
        && members[v as int]) by {}
    lemma_members_are_counted(members, component, members.len() as int);
    if component_is_kept(mask, seeds, width, height, least_size, least_extent, i) {
        let v = choose|v: usize| #[trigger] component.contains(v) && seeds[v as int] > 0;
        assert(members[v as int]);
        let (a, b) = choose|a: usize, b: usize| #[trigger]
            component.contains(a) && #[trigger] component.contains(b) && a as int % width - b as int
                % width + 1 >= least_extent;
        assert(members[a as int] && members[b as int]);
        let (c, d) = choose|a: usize, b: usize| #[trigger]
            component.contains(a) && #[trigger] component.contains(b) && a as int / width - b as int
                / width + 1 >= least_extent;
        assert(members[c as int] && members[d as int]);
    }
    if (exists|j: int|
        #![trigger members[j]]
        0 <= j < members.len() && members[j] && seeds[j] > 0) && (exists|a: int, b: int|
        #![trigger members[a], members[b]]
        0 <= a < members.len() && 0 <= b < members.len() && members[a] && members[b] && a % width >= b
            % width + least_extent - 1) && (exists|a: int, b: int|
        #![trigger members[a], members[b]]
        0 <= a < members.len() && 0 <= b < members.len() && members[a] && members[b] && a / width >= b
            / width + least_extent - 1) {
        let j = choose|j: int|
            #![trigger members[j]]
            0 <= j < members.len() && members[j] && seeds[j] > 0;
        assert(component.contains(j as usize));
        let (a, b) = choose|a: int, b: int|
            #![trigger members[a], members[b]]
            0 <= a < members.len() && 0 <= b < members.len() && members[a] && members[b] && a % width
                >= b % width + least_extent - 1;
        assert(component.contains(a as usize) && component.contains(b as usize));
        let (c, d) = choose|a: int, b: int|
            #![trigger members[a], members[b]]
            0 <= a < members.len() && 0 <= b < members.len() && members[a] && members[b] && a / width
                >= b / width + least_extent - 1;
        assert(component.contains(c as usize) && component.contains(d as usize));
    }
}

proof fn lemma_members_are_counted(members: Seq<bool>, part: Set<usize>, len: int)
    requires
        0 <= len <= members.len(),
        members.len() <= usize::MAX,
        forall|v: usize| #[trigger] part.contains(v) == (v < len && members[v as int]),
    ensures
        part.finite(),
        part.len() == sum_range(membership(members), 0, len),
    decreases len,
{
    if len == 0 {
        assert(part =~= Set::empty());
    } else {
        let last = (len - 1) as usize;
        let rest = part.remove(last);
        lemma_members_are_counted(members, rest, len - 1);
        assert(membership(members)(len - 1) == if members[len - 1] {
            1int
        } else {
            0
        });
        if part.contains(last) {
            assert(part =~= rest.insert(last));
        } else {
            assert(part =~= rest);
        }
    }
}

} // verus!
