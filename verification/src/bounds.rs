//! Bounding boxes of sets of cells.

use vstd::prelude::*;

use crate::grid::cell;
use crate::grid::lemma_cell;

verus! {

/// The first and last column and row of a box; all four belong to it.
#[derive(Clone, Copy, Debug, PartialEq, Eq, Structural)]
pub struct Bounds {
    pub left: u32,
    pub right: u32,
    pub top: u32,
    pub bottom: u32,
}

impl Bounds {
    pub open spec fn contains(self, x: int, y: int) -> bool {
        self.left <= x <= self.right && self.top <= y <= self.bottom
    }

    /// The box is not empty and lies in an image of this size.
    pub open spec fn inside(self, width: int, height: int) -> bool {
        self.left <= self.right < width && self.top <= self.bottom < height
    }

    pub open spec fn width(self) -> int {
        self.right - self.left + 1
    }

    pub open spec fn height(self) -> int {
        self.bottom - self.top + 1
    }
}

/// The cell in column `x` of row `y` belongs to the set.
pub open spec fn has_cell(cells: Seq<bool>, width: int, height: int, x: int, y: int) -> bool {
    0 <= x < width && 0 <= y < height && cells[cell(width, x, y)]
}

/// The box holds every cell of the set, and each of its sides touches one.
pub open spec fn is_tight(cells: Seq<bool>, width: int, height: int, bounds: Bounds) -> bool {
    &&& forall|x: int, y: int| #[trigger]
        has_cell(cells, width, height, x, y) ==> bounds.contains(x, y)
    &&& exists|y: int| #[trigger] has_cell(cells, width, height, bounds.left as int, y)
    &&& exists|y: int| #[trigger] has_cell(cells, width, height, bounds.right as int, y)
    &&& exists|x: int| #[trigger] has_cell(cells, width, height, x, bounds.top as int)
    &&& exists|x: int| #[trigger] has_cell(cells, width, height, x, bounds.bottom as int)
}

/// The cell comes before column `x` of row `y` in a row by row pass.
spec fn is_seen(x: int, y: int, a: int, b: int) -> bool {
    b < y || b == y && a < x
}

spec fn tight_so_far(
    cells: Seq<bool>,
    width: int,
    height: int,
    x: int,
    y: int,
    bounds: Option<Bounds>,
) -> bool {
    match bounds {
        None => forall|a: int, b: int| #[trigger]
            has_cell(cells, width, height, a, b) ==> !is_seen(x, y, a, b),
        Some(found) => {
            &&& forall|a: int, b: int| #[trigger]
                has_cell(cells, width, height, a, b) && is_seen(x, y, a, b) ==> found.contains(a, b)
            &&& exists|b: int| #[trigger] has_cell(cells, width, height, found.left as int, b)
            &&& exists|b: int| #[trigger] has_cell(cells, width, height, found.right as int, b)
            &&& exists|a: int| #[trigger] has_cell(cells, width, height, a, found.top as int)
            &&& exists|a: int| #[trigger] has_cell(cells, width, height, a, found.bottom as int)
            &&& found.inside(width, height)
        },
    }
}

/// The smallest box around the cells of a set; nothing for an empty set.
pub fn bounding_box(cells: &Vec<bool>, width: u32, height: u32) -> (bounds: Option<Bounds>)
    requires
        cells@.len() == width * height,
    ensures
        match bounds {
            None => forall|x: int, y: int|
                !(#[trigger] has_cell(cells@, width as int, height as int, x, y)),
            Some(found) => is_tight(cells@, width as int, height as int, found) && found.inside(
                width as int,
                height as int,
            ),
        },
{
    let ghost w = width as int;
    let ghost h = height as int;
    let size: usize = cells.len();
    let mut bounds: Option<Bounds> = None;
    let mut y: u32 = 0;
    while y < height
        invariant
            y <= height,
            w == width,
            h == height,
            size == w * h,
            cells@.len() == size,
            tight_so_far(cells@, w, h, 0, y as int, bounds),
        decreases height - y,
    {
        let mut x: u32 = 0;
        while x < width
            invariant
                x <= width,
                y < height,
                w == width,
                h == height,
                size == w * h,
                cells@.len() == size,
                tight_so_far(cells@, w, h, x as int, y as int, bounds),
            decreases width - x,
        {
            proof {
                lemma_cell(w, h, x as int, y as int);
            }
            let ghost before = bounds;
            if cells[(y as usize) * (width as usize) + (x as usize)] {
                assert(has_cell(cells@, w, h, x as int, y as int));
                bounds = match bounds {
                    None => Some(Bounds { left: x, right: x, top: y, bottom: y }),
                    Some(found) => Some(
                        Bounds {
                            left: if x < found.left {
                                x
                            } else {
                                found.left
                            },
                            right: if x > found.right {
                                x
                            } else {
                                found.right
                            },
                            top: if y < found.top {
                                y
                            } else {
                                found.top
                            },
                            bottom: if y > found.bottom {
                                y
                            } else {
                                found.bottom
                            },
                        },
                    ),
                };
            }
            proof {
                assert forall|a: int, b: int| #[trigger]
                    has_cell(cells@, w, h, a, b) && is_seen(x + 1, y as int, a, b) implies bounds
                    is Some && bounds->0.contains(a, b) by {
                    if is_seen(x as int, y as int, a, b) {
                        assert(before is Some && before->0.contains(a, b));
                    } else {
                        assert(a == x && b == y);
                    }
                }
            }
            x += 1;
        }
        proof {
            assert forall|a: int, b: int| #[trigger]
                has_cell(cells@, w, h, a, b) implies is_seen(0, y + 1, a, b) == is_seen(
                w,
                y as int,
                a,
                b,
            ) by {}
        }
        y += 1;
    }
    proof {
        assert forall|a: int, b: int| #[trigger]
            has_cell(cells@, w, h, a, b) implies is_seen(0, h, a, b) by {}
    }
    bounds
}

/// No smaller box holds the cells: every box that holds all of them holds the box that is found.
pub proof fn law_no_smaller_box_holds_the_cells(
    cells: Seq<bool>,
    width: int,
    height: int,
    bounds: Bounds,
    other: Bounds,
    x: int,
    y: int,
)
    requires
        is_tight(cells, width, height, bounds),
        forall|a: int, b: int|
            #![trigger cells[b * width + a]]
            0 <= a < width && 0 <= b < height && cells[b * width + a] ==> other.left <= a
                <= other.right && other.top <= b <= other.bottom,
        0 <= x < width,
        0 <= y < height,
        cells[y * width + x],
    ensures
        bounds.left <= x <= bounds.right,
        bounds.top <= y <= bounds.bottom,
        other.left <= bounds.left,
        bounds.right <= other.right,
        other.top <= bounds.top,
        bounds.bottom <= other.bottom,
{
    assert(cells[cell(width, x, y)] == cells[y * width + x]);
    assert(has_cell(cells, width, height, x, y));
    let a = choose|b: int| #[trigger] has_cell(cells, width, height, bounds.left as int, b);
    let b = choose|b: int| #[trigger] has_cell(cells, width, height, bounds.right as int, b);
    let c = choose|c: int| #[trigger] has_cell(cells, width, height, c, bounds.top as int);
    let d = choose|d: int| #[trigger] has_cell(cells, width, height, d, bounds.bottom as int);
    assert(cells[a * width + bounds.left]);
    assert(cells[b * width + bounds.right]);
    assert(cells[bounds.top * width + c]);
    assert(cells[bounds.bottom * width + d]);
}

/// A box holds its first and its last column and row, and has as many of them as lie from the one
/// to the other.
pub proof fn law_boxes_hold_their_sides(bounds: Bounds, x: int, y: int)
    ensures
        bounds.contains(x, y) <==> bounds.left <= x && x <= bounds.right && bounds.top <= y && y
            <= bounds.bottom,
        bounds.left + bounds.width() == bounds.right + 1,
        bounds.top + bounds.height() == bounds.bottom + 1,
{
}

} // verus!
