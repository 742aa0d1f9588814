//! Distances to the seams between the owners of a canvas.

use vstd::prelude::*;

use crate::bounds::has_cell;
use crate::grid::cell;
use crate::grid::lemma_cell;
use crate::raster::Raster;

verus! {

/// The distance of pixels that no seam can be reached from.
pub const UNREACHABLE: u32 = 0x3fff_ffff;

pub open spec fn gap(a: int, b: int) -> int {
    if a < b {
        b - a
    } else {
        a - b
    }
}

/// The number of steps along rows and columns from one pixel to another.
pub open spec fn steps(x: int, y: int, a: int, b: int) -> int {
    gap(x, a) + gap(y, b)
}

/// The pixel lies in the image and belongs to an owner other than `current`.
pub open spec fn belongs_to_other(owner: &Raster<u8>, current: u8, x: int, y: int) -> bool {
    &&& 0 <= x < owner.width
    &&& 0 <= y < owner.height
    &&& owner.at(x, y) != 0
    &&& owner.at(x, y) != current
}

/// The pixel is covered and has an owner, and a pixel next to it has another one.
pub open spec fn lies_on_seam(owner: &Raster<u8>, mask: &Raster<u8>, x: int, y: int) -> bool {
    let current = owner.at(x, y);
    &&& current != 0
    &&& mask.at(x, y) != 0
    &&& {
        ||| belongs_to_other(owner, current, x - 1, y)
        ||| belongs_to_other(owner, current, x + 1, y)
        ||| belongs_to_other(owner, current, x, y - 1)
        ||| belongs_to_other(owner, current, x, y + 1)
    }
}

fn is_other(owner: &Raster<u8>, current: u8, x: u32, y: u32) -> (other: bool)
    requires
        owner.well_formed(),
        x < owner.width,
        y < owner.height,
    ensures
        other == belongs_to_other(owner, current, x as int, y as int),
{
    let value: u8 = owner.pixel(x, y);
    value != 0 && value != current
}

/// Marks the pixels on both sides of every seam between two owners.
pub fn seam_pixels(owner: &Raster<u8>, mask: &Raster<u8>) -> (marks: Raster<bool>)
    requires
        owner.well_formed(),
        mask.well_formed(),
        mask.same_size(owner),
    ensures
        marks.well_formed(),
        marks.same_size(owner),
        forall|x: int, y: int|
            0 <= x < owner.width && 0 <= y < owner.height ==> #[trigger] marks.at(x, y)
                == lies_on_seam(owner, mask, x, y),
{
    let (width, height) = (owner.width, owner.height);
    let count: usize = owner.pixels.len();
    let mut marks: Raster<bool> = Raster::filled(width, height, false);
    let mut y: u32 = 0;
    while y < height
        invariant
            y <= height,
            owner.well_formed(),
            mask.well_formed(),
            mask.same_size(owner),
            width == owner.width,
            height == owner.height,
            marks.well_formed(),
            marks.same_size(owner),
            forall|a: int, b: int|
                0 <= a < width && 0 <= b < y ==> #[trigger] marks.at(a, b) == lies_on_seam(
                    owner,
                    mask,
                    a,
                    b,
                ),
        decreases height - y,
    {
        let mut x: u32 = 0;
        while x < width
            invariant
                x <= width,
                y < height,
                owner.well_formed(),
                mask.well_formed(),
                mask.same_size(owner),
                width == owner.width,
                height == owner.height,
                marks.well_formed(),
                marks.same_size(owner),
                forall|a: int, b: int|
                    0 <= a < width && 0 <= b < height && (b < y || b == y && a < x)
                        ==> #[trigger] marks.at(a, b) == lies_on_seam(owner, mask, a, b),
            decreases width - x,
        {
            let current: u8 = owner.pixel(x, y);
            let covered: u8 = mask.pixel(x, y);
            let on_seam: bool = current != 0 && covered != 0 && (x > 0 && is_other(
                owner,
                current,
                x - 1,
                y,
            ) || x < width - 1 && is_other(owner, current, x + 1, y) || y > 0 && is_other(
                owner,
                current,
                x,
                y - 1,
            ) || y < height - 1 && is_other(owner, current, x, y + 1));
            assert(on_seam == lies_on_seam(owner, mask, x as int, y as int));
            let ghost before = marks;
            marks.put(x, y, on_seam);
            assert forall|a: int, b: int|
                0 <= a < width && 0 <= b < height && (b < y || b == y && a < x + 1) implies #[trigger] marks.at(
                a,
                b,
            ) == lies_on_seam(owner, mask, a, b) by {
                lemma_cell(width as int, height as int, a, b);
                lemma_cell(width as int, height as int, x as int, y as int);
                if a != x || b != y {
                    assert(marks.at(a, b) == before.at(a, b));
                }
            }
            x += 1;
        }
        y += 1;
    }
    marks
}

/// The distance is that of the nearest mark, and `UNREACHABLE` if no mark is nearer
/// than that.
pub open spec fn is_distance(marks: &Raster<bool>, x: int, y: int, distance: int) -> bool {
    &&& distance <= UNREACHABLE
    &&& distance < UNREACHABLE ==> exists|a: int, b: int|
        #[trigger] is_marked(marks, a, b) && steps(x, y, a, b) == distance
    &&& forall|a: int, b: int| #[trigger] is_marked(marks, a, b) ==> distance <= steps(x, y, a, b)
}

/// The pixel lies in the image and is marked.
pub open spec fn is_marked(marks: &Raster<bool>, x: int, y: int) -> bool {
    has_cell(marks.pixels@, marks.width as int, marks.height as int, x, y)
}

/// A mark is at most this far away.
spec fn is_attained(marks: &Raster<bool>, x: int, y: int, distance: int) -> bool {
    distance >= UNREACHABLE || exists|a: int, b: int|
        #[trigger] is_marked(marks, a, b) && steps(x, y, a, b) <= distance
}

/// The distance counts the marks above and to the left.
spec fn counts_before(marks: &Raster<bool>, x: int, y: int, distance: int) -> bool {
    forall|a: int, b: int|
        #[trigger] is_marked(marks, a, b) && a <= x && b <= y ==> distance <= steps(x, y, a, b)
}

/// The distance counts what the pixels below and to the right have found.
spec fn counts_after(found: &Raster<u32>, x: int, y: int, distance: int) -> bool {
    forall|a: int, b: int|
        #![trigger found.at(a, b)]
        x <= a < found.width && y <= b < found.height ==> distance <= found.at(a, b) + steps(
            x,
            y,
            a,
            b,
        )
}

proof fn lemma_attained_next(marks: &Raster<bool>, x: int, y: int, u: int, v: int, distance: int)
    requires
        is_attained(marks, u, v, distance),
        steps(x, y, u, v) == 1,
    ensures
        is_attained(marks, x, y, distance + 1),
{
    if distance < UNREACHABLE {
        let (a, b) = choose|a: int, b: int|
            #[trigger] is_marked(marks, a, b) && steps(u, v, a, b) <= distance;
        assert(is_marked(marks, a, b) && steps(x, y, a, b) <= distance + 1);
    }
}

fn nearer(a: u32, b: u32) -> (least: u32)
    requires
        b <= UNREACHABLE,
    ensures
        least <= a,
        least <= b + 1,
        least == a || least == b + 1,
{
    if b + 1 < a {
        b + 1
    } else {
        a
    }
}

/// For every pixel the number of steps to the nearest mark, found in one pass down and
/// one pass up.
pub fn city_distances(marks: &Raster<bool>) -> (distances: Raster<u32>)
    requires
        marks.well_formed(),
    ensures
        distances.well_formed(),
        distances.same_size(marks),
        forall|x: int, y: int|
            #![trigger distances.at(x, y)]
            0 <= x < marks.width && 0 <= y < marks.height ==> is_distance(
                marks,
                x,
                y,
                distances.at(x, y) as int,
            ),
{
    let found: Raster<u32> = pass_down(marks);
    let mut distances: Raster<u32> = found.crop(0, 0, found.width, found.height);
    let (width, height) = (marks.width, marks.height);
    let mut y: u32 = height;
    while y > 0
        invariant
            y <= height,
            marks.well_formed(),
            found.well_formed(),
            distances.well_formed(),
            width == marks.width,
            height == marks.height,
            found.same_size(marks),
            distances.same_size(marks),
            forall|a: int, b: int|
                #![trigger distances.at(a, b)]
                0 <= a < width && 0 <= b < height ==> {
                    &&& distances.at(a, b) <= UNREACHABLE
                    &&& is_attained(marks, a, b, distances.at(a, b) as int)
                    &&& b >= y ==> counts_after(&found, a, b, distances.at(a, b) as int)
                    &&& b < y ==> distances.at(a, b) == found.at(a, b)
                },
        decreases y,
    {
        y -= 1;
        let mut x: u32 = width;
        while x > 0
            invariant
                x <= width,
                y < height,
                marks.well_formed(),
                found.well_formed(),
                distances.well_formed(),
                width == marks.width,
                height == marks.height,
                found.same_size(marks),
                distances.same_size(marks),
                forall|a: int, b: int|
                    #![trigger distances.at(a, b)]
                    0 <= a < width && 0 <= b < height ==> {
                        &&& distances.at(a, b) <= UNREACHABLE
                        &&& is_attained(marks, a, b, distances.at(a, b) as int)
                        &&& b > y || b == y && a >= x ==> counts_after(
                            &found,
                            a,
                            b,
                            distances.at(a, b) as int,
                        )
                        &&& b < y || b == y && a < x ==> distances.at(a, b) == found.at(a, b)
                    },
            decreases x,
        {
            x -= 1;
            let ghost before = distances;
            let own: u32 = distances.pixel(x, y);
            let mut least: u32 = own;
            if x < width - 1 {
                let right: u32 = distances.pixel(x + 1, y);
                least = nearer(least, right);
                proof {
                    lemma_attained_next(marks, x as int, y as int, x + 1, y as int, right as int);
                }
            }
            if y < height - 1 {
                let lower: u32 = distances.pixel(x, y + 1);
                least = nearer(least, lower);
                proof {
                    lemma_attained_next(marks, x as int, y as int, x as int, y + 1, lower as int);
                }
            }
            distances.put(x, y, least);
            proof {
                assert(is_attained(marks, x as int, y as int, least as int));
                assert forall|a: int, b: int|
                    #![trigger found.at(a, b)]
                    x <= a < found.width && y <= b < found.height implies least <= found.at(a, b)
                    + steps(x as int, y as int, a, b) by {
                    if a > x {
                        assert(counts_after(
                            &found,
                            x + 1,
                            y as int,
                            before.at(x + 1, y as int) as int,
                        ));
                    } else if b > y {
                        assert(counts_after(
                            &found,
                            x as int,
                            y + 1,
                            before.at(x as int, y + 1) as int,
                        ));
                    } else {
                        assert(before.at(x as int, y as int) == found.at(a, b));
                    }
                }
                assert forall|a: int, b: int|
                    #![trigger distances.at(a, b)]
                    0 <= a < width && 0 <= b < height implies {
                    &&& distances.at(a, b) <= UNREACHABLE
                    &&& is_attained(marks, a, b, distances.at(a, b) as int)
                    &&& b > y || b == y && a >= x ==> counts_after(
                        &found,
                        a,
                        b,
                        distances.at(a, b) as int,
                    )
                    &&& b < y || b == y && a < x ==> distances.at(a, b) == found.at(a, b)
                } by {
                    lemma_cell(width as int, height as int, a, b);
                    lemma_cell(width as int, height as int, x as int, y as int);
                    if a == x && b == y {
                        assert(distances.at(a, b) == least);
                    } else {
                        assert(distances.at(a, b) == before.at(a, b));
                    }
                }
            }
        }
    }
    assert forall|x: int, y: int|
        #![trigger distances.at(x, y)]
        0 <= x < marks.width && 0 <= y < marks.height implies is_distance(
        marks,
        x,
        y,
        distances.at(x, y) as int,
    ) by {
        let distance = distances.at(x, y) as int;
        assert forall|a: int, b: int| #[trigger] is_marked(marks, a, b) implies distance <= steps(
            x,
            y,
            a,
            b,
        ) by {
            let u = if x < a {
                a
            } else {
                x
            };
            let v = if y < b {
                b
            } else {
                y
            };
            assert(counts_before(marks, u, v, found.at(u, v) as int));
            assert(counts_after(&found, x, y, distance));
        }
        if distance < UNREACHABLE {
            let (a, b) = choose|a: int, b: int|
                #[trigger] is_marked(marks, a, b) && steps(x, y, a, b) <= distance;
            assert(is_marked(marks, a, b) && steps(x, y, a, b) == distance);
        }
    }
    distances
}

/// The number of steps to the nearest mark above and to the left, or less if another
/// mark is nearer.
fn pass_down(marks: &Raster<bool>) -> (found: Raster<u32>)
    requires
        marks.well_formed(),
    ensures
        found.well_formed(),
        found.same_size(marks),
        forall|x: int, y: int|
            #![trigger found.at(x, y)]
            0 <= x < marks.width && 0 <= y < marks.height ==> {
                &&& found.at(x, y) <= UNREACHABLE
                &&& is_attained(marks, x, y, found.at(x, y) as int)
                &&& counts_before(marks, x, y, found.at(x, y) as int)
            },
{
    let (width, height) = (marks.width, marks.height);
    let count: usize = marks.pixels.len();
    let mut found: Raster<u32> = Raster::filled(width, height, UNREACHABLE);
    let mut y: u32 = 0;
    assert forall|a: int, b: int|
        #![trigger found.at(a, b)]
        0 <= a < width && 0 <= b < height implies found.at(a, b) == UNREACHABLE by {
        lemma_cell(width as int, height as int, a, b);
    }
    while y < height
        invariant
            y <= height,
            marks.well_formed(),
            found.well_formed(),
            width == marks.width,
            height == marks.height,
            found.same_size(marks),
            forall|a: int, b: int|
                #![trigger found.at(a, b)]
                0 <= a < width && 0 <= b < height ==> {
                    &&& found.at(a, b) <= UNREACHABLE
                    &&& b < y ==> is_attained(marks, a, b, found.at(a, b) as int)
                    &&& b < y ==> counts_before(marks, a, b, found.at(a, b) as int)
                },
        decreases height - y,
    {
        let mut x: u32 = 0;
        while x < width
            invariant
                x <= width,
                y < height,
                marks.well_formed(),
                found.well_formed(),
                width == marks.width,
                height == marks.height,
                found.same_size(marks),
                forall|a: int, b: int|
                    #![trigger found.at(a, b)]
                    0 <= a < width && 0 <= b < height ==> {
                        &&& found.at(a, b) <= UNREACHABLE
                        &&& b < y || b == y && a < x ==> is_attained(
                            marks,
                            a,
                            b,
                            found.at(a, b) as int,
                        )
                        &&& b < y || b == y && a < x ==> counts_before(
                            marks,
                            a,
                            b,
                            found.at(a, b) as int,
                        )
                    },
            decreases width - x,
        {
            let ghost before = found;
            let marked: bool = marks.pixel(x, y);
            let mut least: u32 = UNREACHABLE;
            if marked {
                least = 0;
                assert(is_marked(marks, x as int, y as int));
            }
            if x > 0 {
                let left: u32 = found.pixel(x - 1, y);
                least = nearer(least, left);
                proof {
                    lemma_attained_next(marks, x as int, y as int, x - 1, y as int, left as int);
                }
            }
            if y > 0 {
                let upper: u32 = found.pixel(x, y - 1);
                least = nearer(least, upper);
                proof {
                    lemma_attained_next(marks, x as int, y as int, x as int, y - 1, upper as int);
                }
            }
            found.put(x, y, least);
            proof {
                assert(is_attained(marks, x as int, y as int, least as int)) by {
                    if marked {
                        assert(is_marked(marks, x as int, y as int) && steps(
                            x as int,
                            y as int,
                            x as int,
                            y as int,
                        ) == 0);
                    }
                }
                assert forall|a: int, b: int|
                    #[trigger] is_marked(marks, a, b) && a <= x && b <= y implies least <= steps(
                    x as int,
                    y as int,
                    a,
                    b,
                ) by {
                    if a < x {
                        assert(counts_before(
                            marks,
                            x - 1,
                            y as int,
                            before.at(x - 1, y as int) as int,
                        ));
                    } else if b < y {
                        assert(counts_before(
                            marks,
                            x as int,
                            y - 1,
                            before.at(x as int, y - 1) as int,
                        ));
                    } else {
                        assert(marked);
                    }
                }
                assert forall|a: int, b: int|
                    #![trigger found.at(a, b)]
                    0 <= a < width && 0 <= b < height implies {
                    &&& found.at(a, b) <= UNREACHABLE
                    &&& b < y || b == y && a < x + 1 ==> is_attained(
                        marks,
                        a,
                        b,
                        found.at(a, b) as int,
                    )
                    &&& b < y || b == y && a < x + 1 ==> counts_before(
                        marks,
                        a,
                        b,
                        found.at(a, b) as int,
                    )
                } by {
                    lemma_cell(width as int, height as int, a, b);
                    lemma_cell(width as int, height as int, x as int, y as int);
                    if a == x && b == y {
                        assert(found.at(a, b) == least);
                    } else {
                        assert(found.at(a, b) == before.at(a, b));
                    }
                }
            }
            x += 1;
        }
        y += 1;
    }
    found
}

/// For every pixel the distance to the nearest seam between two owners; `None` where
/// there is no seam.
pub fn seam_distances(owner: &Raster<u8>, mask: &Raster<u8>) -> (distances: Option<Raster<u32>>)
    requires
        owner.well_formed(),
        mask.well_formed(),
        mask.same_size(owner),
    ensures
        distances is None <==> forall|x: int, y: int|
            0 <= x < owner.width && 0 <= y < owner.height ==> !(#[trigger] lies_on_seam(
                owner,
                mask,
                x,
                y,
            )),
        distances matches Some(found) ==> {
            &&& found.well_formed()
            &&& found.same_size(owner)
            &&& forall|x: int, y: int|
                #![trigger found.at(x, y)]
                0 <= x < owner.width && 0 <= y < owner.height ==> is_seam_distance(
                    owner,
                    mask,
                    x,
                    y,
                    found.at(x, y) as int,
                )
        },
{
    let marks: Raster<bool> = seam_pixels(owner, mask);
    let mut i: usize = 0;
    let ghost (w, h) = (owner.width as int, owner.height as int);
    while i < marks.pixels.len() && !marks.pixels[i]
        invariant
            i <= marks.pixels@.len(),
            forall|k: int| 0 <= k < i ==> !(#[trigger] marks.pixels@[k]),
        decreases marks.pixels@.len() - i,
    {
        i += 1;
    }
    if i == marks.pixels.len() {
        assert forall|x: int, y: int| 0 <= x < w && 0 <= y < h implies !(#[trigger] lies_on_seam(
            owner,
            mask,
            x,
            y,
        )) by {
            lemma_cell(w, h, x, y);
            assert(!marks.pixels@[cell(w, x, y)]);
            assert(marks.at(x, y) == lies_on_seam(owner, mask, x, y));
        }
        return None;
    }
    proof {
        assert(w > 0) by (nonlinear_arith)
            requires
                0 < w * h,
                0 <= w,
                0 <= h,
        ;
        crate::grid::lemma_split(w, h, i as int);
        assert(marks.at(i as int % w, i as int / w));
        assert(lies_on_seam(owner, mask, i as int % w, i as int / w));
    }
    let found: Raster<u32> = city_distances(&marks);
    assert forall|x: int, y: int|
        #![trigger found.at(x, y)]
        0 <= x < owner.width && 0 <= y < owner.height implies is_seam_distance(
        owner,
        mask,
        x,
        y,
        found.at(x, y) as int,
    ) by {
        let distance = found.at(x, y) as int;
        assert(is_distance(&marks, x, y, distance));
        assert forall|a: int, b: int| #[trigger]
            is_on_seam(owner, mask, a, b) == is_marked(&marks, a, b) by {
            if 0 <= a < w && 0 <= b < h {
                assert(marks.at(a, b) == lies_on_seam(owner, mask, a, b));
            }
        }
        if distance < UNREACHABLE {
            let (a, b) = choose|a: int, b: int|
                #[trigger] is_marked(&marks, a, b) && steps(x, y, a, b) == distance;
            assert(is_on_seam(owner, mask, a, b));
        }
        assert forall|a: int, b: int| #[trigger] is_on_seam(owner, mask, a, b) implies distance
            <= steps(x, y, a, b) by {
            assert(is_marked(&marks, a, b));
        }
    }
    Some(found)
}

/// The pixel lies in the image and on a seam.
pub open spec fn is_on_seam(owner: &Raster<u8>, mask: &Raster<u8>, x: int, y: int) -> bool {
    0 <= x < owner.width && 0 <= y < owner.height && lies_on_seam(owner, mask, x, y)
}

/// The distance is that of the nearest pixel on a seam, and `UNREACHABLE` if none is
/// nearer than that.
pub open spec fn is_seam_distance(
    owner: &Raster<u8>,
    mask: &Raster<u8>,
    x: int,
    y: int,
    distance: int,
) -> bool {
    &&& distance <= UNREACHABLE
    &&& distance < UNREACHABLE ==> exists|a: int, b: int|
        #[trigger] is_on_seam(owner, mask, a, b) && steps(x, y, a, b) == distance
    &&& forall|a: int, b: int| #[trigger]
        is_on_seam(owner, mask, a, b) ==> distance <= steps(x, y, a, b)
}

/// Next to each other, two pixels differ by at most one step in their distance, so the
/// weight of a seam fades without a jump.
pub proof fn law_distances_fade_evenly(
    owner: &Raster<u8>,
    mask: &Raster<u8>,
    x: int,
    y: int,
    distance: int,
    u: int,
    v: int,
    other: int,
)
    requires
        is_seam_distance(owner, mask, x, y, distance),
        is_seam_distance(owner, mask, u, v, other),
        steps(x, y, u, v) == 1,
    ensures
        distance <= other + 1,
        other <= distance + 1,
{
    if other < UNREACHABLE {
        let (a, b) = choose|a: int, b: int|
            #[trigger] is_on_seam(owner, mask, a, b) && steps(u, v, a, b) == other;
        assert(distance <= steps(x, y, a, b));
    }
    if distance < UNREACHABLE {
        let (a, b) = choose|a: int, b: int|
            #[trigger] is_on_seam(owner, mask, a, b) && steps(x, y, a, b) == distance;
        assert(other <= steps(u, v, a, b));
    }
}

/// A seam lies between any two neighbouring pixels with different owners, and nowhere else: two
/// such pixels that are covered are both on it, and a pixel none of whose neighbours has another
/// owner is not.
pub proof fn law_seams_lie_between_owners(
    owner: &Raster<u8>,
    mask: &Raster<u8>,
    x: int,
    y: int,
    u: int,
    v: int,
)
    requires
        0 <= x < owner.width,
        0 <= y < owner.height,
        0 <= u < owner.width,
        0 <= v < owner.height,
        (x == u && (v == y + 1 || v == y - 1)) || (y == v && (u == x + 1 || u == x - 1)),
    ensures
        mask.at(x, y) > 0 && owner.at(x, y) > 0 && owner.at(u, v) > 0 && owner.at(x, y) != owner.at(
            u,
            v,
        ) ==> lies_on_seam(owner, mask, x, y),
        (forall|a: int, b: int|
            #![trigger owner.at(a, b)]
            0 <= a < owner.width && 0 <= b < owner.height && -1 <= a - x <= 1 && -1 <= b - y <= 1 && (a
                == x || b == y) ==> owner.at(a, b) == owner.at(x, y) || owner.at(a, b) == 0)
            ==> !lies_on_seam(owner, mask, x, y),
        lies_on_seam(owner, mask, x, y) ==> mask.at(x, y) > 0 && owner.at(x, y) > 0,
{
}

/// The distance counts steps to the left, right, up and down: it is 0 exactly on a seam, no pixel
/// on a seam is nearer, and one is that far away.
pub proof fn law_distances_count_steps(
    owner: &Raster<u8>,
    mask: &Raster<u8>,
    x: int,
    y: int,
    distance: int,
    u: int,
    v: int,
)
    requires
        is_seam_distance(owner, mask, x, y, distance),
        0 <= x < owner.width,
        0 <= y < owner.height,
        0 <= u < owner.width,
        0 <= v < owner.height,
        lies_on_seam(owner, mask, u, v),
    ensures
        x <= u && y <= v ==> distance <= (u - x) + (v - y),
        x <= u && y >= v ==> distance <= (u - x) + (y - v),
        x >= u && y <= v ==> distance <= (x - u) + (v - y),
        x >= u && y >= v ==> distance <= (x - u) + (y - v),
        distance == 0 <==> lies_on_seam(owner, mask, x, y),
        0 <= distance,
        distance < 0x3fff_ffff ==> exists|a: int, b: int|
            0 <= a < owner.width && 0 <= b < owner.height && #[trigger] lies_on_seam(owner, mask, a, b)
                && (distance == (a - x) + (b - y) || distance == (a - x) + (y - b) || distance == (x
                - a) + (b - y) || distance == (x - a) + (y - b)),
{
    assert(is_on_seam(owner, mask, u, v));
    if lies_on_seam(owner, mask, x, y) {
        assert(is_on_seam(owner, mask, x, y));
    }
    if distance < UNREACHABLE {
        let (a, b) = choose|a: int, b: int|
            #[trigger] is_on_seam(owner, mask, a, b) && steps(x, y, a, b) == distance;
        assert(lies_on_seam(owner, mask, a, b));
    }
}

/// The distance to the marks counts steps: no mark is nearer, and one is that far away.
pub proof fn law_marks_are_that_far_away(
    marks: &Raster<bool>,
    x: int,
    y: int,
    distance: int,
    u: int,
    v: int,
)
    requires
        is_distance(marks, x, y, distance),
        0 <= u < marks.width,
        0 <= v < marks.height,
        marks.pixels@[v * marks.width + u],
    ensures
        x <= u && y <= v ==> distance <= (u - x) + (v - y),
        x <= u && y >= v ==> distance <= (u - x) + (y - v),
        x >= u && y <= v ==> distance <= (x - u) + (v - y),
        x >= u && y >= v ==> distance <= (x - u) + (y - v),
        distance < 0x3fff_ffff ==> exists|a: int, b: int|
            #![trigger marks.pixels@[b * marks.width + a]]
            0 <= a < marks.width && 0 <= b < marks.height && marks.pixels@[b * marks.width + a] && (
            distance == (a - x) + (b - y) || distance == (a - x) + (y - b) || distance == (x - a) + (b
                - y) || distance == (x - a) + (y - b)),
{
    assert(marks.pixels@[cell(marks.width as int, u, v)]);
    assert(is_marked(marks, u, v));
    if distance < 0x3fff_ffff {
        let (a, b) = choose|a: int, b: int|
            #[trigger] is_marked(marks, a, b) && steps(x, y, a, b) == distance;
        assert(marks.pixels@[b * marks.width + a]);
    }
}

} // verus!
