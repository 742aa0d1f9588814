//! Images and masks as row-major pixel buffers.

use vstd::prelude::*;

use crate::grid::cell;
use crate::grid::lemma_cell;

verus! {

/// A row-major buffer of pixels.
pub struct Raster<P> {
    pub width: u32,
    pub height: u32,
    pub pixels: Vec<P>,
}

impl<P> Raster<P> {
    /// The buffer holds one pixel for every cell of the image.
    pub open spec fn well_formed(&self) -> bool {
        self.pixels@.len() == self.width * self.height
    }

    /// The pixel in column `x` of row `y`.
    pub open spec fn at(&self, x: int, y: int) -> P {
        self.pixels@[cell(self.width as int, x, y)]
    }

    pub open spec fn same_size<Q>(&self, other: &Raster<Q>) -> bool {
        self.width == other.width && self.height == other.height
    }
}

impl<P: Copy> Raster<P> {
    /// An image of one colour.
    pub fn filled(width: u32, height: u32, pixel: P) -> (image: Raster<P>)
        requires
            width * height <= usize::MAX,
        ensures
            image.well_formed(),
            image.width == width,
            image.height == height,
            forall|i: int| 0 <= i < image.pixels@.len() ==> #[trigger] image.pixels@[i] == pixel,
    {
        assert(0 <= width * height) by (nonlinear_arith);
        let count: usize = (width as usize) * (height as usize);
        let mut pixels: Vec<P> = Vec::new();
        let mut i: usize = 0;
        while i < count
            invariant
                i <= count,
                pixels@.len() == i,
                forall|j: int| 0 <= j < i ==> #[trigger] pixels@[j] == pixel,
            decreases count - i,
        {
            pixels.push(pixel);
            i += 1;
        }
        Raster { width, height, pixels }
    }

    /// The pixel in column `x` of row `y`.
    pub fn pixel(&self, x: u32, y: u32) -> (pixel: P)
        requires
            self.well_formed(),
            x < self.width,
            y < self.height,
        ensures
            pixel == self.at(x as int, y as int),
    {
        proof {
            lemma_cell(self.width as int, self.height as int, x as int, y as int);
        }
        let count: usize = self.pixels.len();
        self.pixels[(y as usize) * (self.width as usize) + (x as usize)]
    }

    /// Replaces the pixel in column `x` of row `y`.
    pub fn put(&mut self, x: u32, y: u32, pixel: P)
        requires
            old(self).well_formed(),
            x < old(self).width,
            y < old(self).height,
        ensures
            final(self).well_formed(),
            final(self).width == old(self).width,
            final(self).height == old(self).height,
            final(self).pixels@ == old(self).pixels@.update(
                cell(old(self).width as int, x as int, y as int),
                pixel,
            ),
    {
        proof {
            lemma_cell(self.width as int, self.height as int, x as int, y as int);
        }
        let count: usize = self.pixels.len();
        let index: usize = (y as usize) * (self.width as usize) + (x as usize);
        self.pixels.set(index, pixel);
    }

    /// The part of the image that starts at column `left` of row `top`.
    pub fn crop(&self, left: u32, top: u32, width: u32, height: u32) -> (part: Raster<P>)
        requires
            self.well_formed(),
            left + width <= self.width,
            top + height <= self.height,
        ensures
            part.well_formed(),
            part.width == width,
            part.height == height,
            forall|x: int, y: int|
                0 <= x < width && 0 <= y < height ==> #[trigger] part.at(x, y) == self.at(
                    left + x,
                    top + y,
                ),
    {
        let mut pixels: Vec<P> = Vec::new();
        let mut y: u32 = 0;
        let count: usize = self.pixels.len();
        while y < height
            invariant
                y <= height,
                self.well_formed(),
                count == self.pixels@.len(),
                left + width <= self.width,
                top + height <= self.height,
                pixels@.len() == y * width,
                forall|i: int, j: int|
                    #![trigger cell(width as int, i, j)]
                    0 <= i < width && 0 <= j < y ==> pixels@[cell(width as int, i, j)] == self.at(
                        left + i,
                        top + j,
                    ),
            decreases height - y,
        {
            let mut x: u32 = 0;
            while x < width
                invariant
                    x <= width,
                    y < height,
                    self.well_formed(),
                    count == self.pixels@.len(),
                    left + width <= self.width,
                    top + height <= self.height,
                    pixels@.len() == y * width + x,
                    forall|i: int, j: int|
                        #![trigger cell(width as int, i, j)]
                        0 <= i < width && 0 <= j < y ==> pixels@[cell(width as int, i, j)]
                            == self.at(left + i, top + j),
                    forall|i: int|
                        #![trigger cell(width as int, i, y as int)]
                        0 <= i < x ==> pixels@[cell(width as int, i, y as int)] == self.at(
                            left + i,
                            top + y,
                        ),
                decreases width - x,
            {
                let ghost before = pixels@;
                let pixel: P = self.pixel(left + x, top + y);
                pixels.push(pixel);
                proof {
                    assert forall|i: int, j: int|
                        #![trigger cell(width as int, i, j)]
                        0 <= i < width && 0 <= j < y implies pixels@[cell(width as int, i, j)]
                        == self.at(left + i, top + j) by {
                        lemma_cell(width as int, y as int, i, j);
                        assert(width * y == y * width) by (nonlinear_arith);
                        assert(before[cell(width as int, i, j)] == self.at(left + i, top + j));
                    }
                    assert forall|i: int|
                        #![trigger cell(width as int, i, y as int)]
                        0 <= i < x + 1 implies pixels@[cell(width as int, i, y as int)] == self.at(
                        left + i,
                        top + y,
                    ) by {
                        assert(0 <= y * width) by (nonlinear_arith);
                        if i < x {
                            assert(before[cell(width as int, i, y as int)] == self.at(
                                left + i,
                                top + y,
                            ));
                        }
                    }
                }
                x += 1;
            }
            assert((y + 1) * width == y * width + width) by (nonlinear_arith);
            y += 1;
        }
        assert(height * width == width * height) by (nonlinear_arith);
        let part = Raster { width, height, pixels };
        assert forall|x: int, y: int| 0 <= x < width && 0 <= y < height implies #[trigger] part.at(
            x,
            y,
        ) == self.at(left + x, top + y) by {
            assert(part.at(x, y) == pixels@[cell(width as int, x, y)]);
        }
        part
    }
}

/// The pixel lies in the rectangle whose corner is `left`, `top`.
pub open spec fn in_region(left: int, top: int, width: int, height: int, x: int, y: int) -> bool {
    left <= x < left + width && top <= y < top + height
}

/// The rectangle is not empty and lies inside of an image.
pub open spec fn fits_inside(
    left: int,
    top: int,
    width: int,
    height: int,
    image_width: int,
    image_height: int,
) -> bool {
    0 < width && 0 < height && left + width <= image_width && top + height <= image_height
}

/// Whether the rectangle is not empty and lies inside of the image.
pub fn region_fits(
    left: u32,
    top: u32,
    width: u32,
    height: u32,
    image_width: u32,
    image_height: u32,
) -> (fits: bool)
    ensures
        fits == fits_inside(
            left as int,
            top as int,
            width as int,
            height as int,
            image_width as int,
            image_height as int,
        ),
{
    width > 0 && height > 0 && (left as u64) + (width as u64) <= image_width as u64 && (top as u64)
        + (height as u64) <= image_height as u64
}

/// Replaces every item by what `f` makes of its position and of the item.
pub fn update_cells<B: Copy, F: Fn(usize, B) -> B>(items: &mut Vec<B>, f: F)
    requires
        forall|i: int|
            0 <= i < old(items)@.len() ==> call_requires(f, (i as usize, #[trigger] old(items)@[i])),
    ensures
        final(items)@.len() == old(items)@.len(),
        forall|i: int|
            #![trigger final(items)@[i]]
            0 <= i < old(items)@.len() ==> call_ensures(
                f,
                (i as usize, old(items)@[i]),
                final(items)@[i],
            ),
{
    let ghost before = items@;
    let mut i: usize = 0;
    while i < items.len()
        invariant
            i <= items@.len(),
            items@.len() == before.len(),
            forall|j: int|
                0 <= j < before.len() ==> call_requires(f, (j as usize, #[trigger] before[j])),
            forall|j: int|
                #![trigger items@[j]]
                0 <= j < i ==> call_ensures(f, (j as usize, before[j]), items@[j]),
            forall|j: int| #![trigger items@[j]] i <= j < items@.len() ==> items@[j] == before[j],
        decreases items@.len() - i,
    {
        let item: B = items[i];
        assert(item == before[i as int]);
        let next: B = f(i, item);
        items.set(i, next);
        i += 1;
    }
}

/// The items that `f` gives for the positions from 0 to `count - 1`.
pub fn tabulate<B, F: Fn(usize) -> B>(count: usize, f: F) -> (items: Vec<B>)
    requires
        forall|i: usize| i < count ==> #[trigger] call_requires(f, (i,)),
    ensures
        items@.len() == count,
        forall|i: int|
            #![trigger items@[i]]
            0 <= i < count ==> call_ensures(f, (i as usize,), items@[i]),
{
    let mut items: Vec<B> = Vec::new();
    let mut i: usize = 0;
    while i < count
        invariant
            i <= count,
            items@.len() == i,
            forall|j: usize| j < count ==> #[trigger] call_requires(f, (j,)),
            forall|j: int|
                #![trigger items@[j]]
                0 <= j < i ==> call_ensures(f, (j as usize,), items@[j]),
        decreases count - i,
    {
        let item: B = f(i);
        items.push(item);
        i += 1;
    }
    items
}

/// The part of a region that a row by row pass up to column `x` of row `y` has
/// seen.
spec fn is_passed(
    left: int,
    top: int,
    width: int,
    height: int,
    x: int,
    y: int,
    a: int,
    b: int,
) -> bool {
    in_region(left, top, width, height, a, b) && (b - top < y || b - top == y && a - left < x)
}

/// Replaces every pixel of a rectangle by what `f` makes of its position in the
/// rectangle, its position in the image, and the pixel.
pub fn update_region<B: Copy, F: Fn(usize, usize, B) -> B>(
    image: &mut Raster<B>,
    left: u32,
    top: u32,
    width: u32,
    height: u32,
    f: F,
)
    requires
        old(image).well_formed(),
        fits_inside(
            left as int,
            top as int,
            width as int,
            height as int,
            old(image).width as int,
            old(image).height as int,
        ),
        width * height <= usize::MAX,
        forall|a: int, b: int, pixel: B|
            #![trigger cell(old(image).width as int, a, b), call_requires(f, (
                cell(width as int, a - left, b - top) as usize,
                cell(old(image).width as int, a, b) as usize,
                pixel,
            ))]
            in_region(left as int, top as int, width as int, height as int, a, b) ==> call_requires(
                f,
                (
                    cell(width as int, a - left, b - top) as usize,
                    cell(old(image).width as int, a, b) as usize,
                    pixel,
                ),
            ),
    ensures
        final(image).well_formed(),
        final(image).width == old(image).width,
        final(image).height == old(image).height,
        forall|a: int, b: int|
            #![trigger final(image).at(a, b)]
            0 <= a < old(image).width && 0 <= b < old(image).height ==> if in_region(
                left as int,
                top as int,
                width as int,
                height as int,
                a,
                b,
            ) {
                call_ensures(
                    f,
                    (
                        cell(width as int, a - left, b - top) as usize,
                        cell(old(image).width as int, a, b) as usize,
                        old(image).at(a, b),
                    ),
                    final(image).at(a, b),
                )
            } else {
                final(image).at(a, b) == old(image).at(a, b)
            },
{
    let ghost before = *image;
    let ghost w = image.width as int;
    let ghost h = image.height as int;
    let ghost (l, t, rw, rh) = (left as int, top as int, width as int, height as int);
    let size: usize = image.pixels.len();
    let mut y: u32 = 0;
    while y < height
        invariant
            y <= height,
            image.well_formed(),
            before.well_formed(),
            image.width == before.width,
            image.height == before.height,
            w == image.width,
            h == image.height,
            l == left,
            t == top,
            rw == width,
            rh == height,
            size == w * h,
            fits_inside(l, t, rw, rh, w, h),
            width * height <= usize::MAX,
            forall|a: int, b: int, pixel: B|
                #![trigger cell(w, a, b), call_requires(f, (
                    cell(rw, a - l, b - t) as usize,
                    cell(w, a, b) as usize,
                    pixel,
                ))]
                in_region(l, t, rw, rh, a, b) ==> call_requires(
                    f,
                    (cell(rw, a - l, b - t) as usize, cell(w, a, b) as usize, pixel),
                ),
            forall|a: int, b: int|
                #![trigger image.at(a, b)]
                0 <= a < w && 0 <= b < h ==> if is_passed(l, t, rw, rh, 0, y as int, a, b) {
                    call_ensures(
                        f,
                        (cell(rw, a - l, b - t) as usize, cell(w, a, b) as usize, before.at(a, b)),
                        image.at(a, b),
                    )
                } else {
                    image.at(a, b) == before.at(a, b)
                },
        decreases height - y,
    {
        let mut x: u32 = 0;
        while x < width
            invariant
                x <= width,
                y < height,
                image.well_formed(),
                before.well_formed(),
                image.width == before.width,
                image.height == before.height,
                w == image.width,
                h == image.height,
                l == left,
                t == top,
                rw == width,
                rh == height,
                size == w * h,
                fits_inside(l, t, rw, rh, w, h),
                width * height <= usize::MAX,
                forall|a: int, b: int, pixel: B|
                    #![trigger cell(w, a, b), call_requires(f, (
                        cell(rw, a - l, b - t) as usize,
                        cell(w, a, b) as usize,
                        pixel,
                    ))]
                    in_region(l, t, rw, rh, a, b) ==> call_requires(
                        f,
                        (cell(rw, a - l, b - t) as usize, cell(w, a, b) as usize, pixel),
                    ),
                forall|a: int, b: int|
                    #![trigger image.at(a, b)]
                    0 <= a < w && 0 <= b < h ==> if is_passed(l, t, rw, rh, x as int, y as int, a, b) {
                        call_ensures(
                            f,
                            (
                                cell(rw, a - l, b - t) as usize,
                                cell(w, a, b) as usize,
                                before.at(a, b),
                            ),
                            image.at(a, b),
                        )
                    } else {
                        image.at(a, b) == before.at(a, b)
                    },
            decreases width - x,
        {
            proof {
                lemma_cell(w, h, l + x, t + y);
                lemma_cell(rw, rh, x as int, y as int);
            }
            let local: usize = (y as usize) * (width as usize) + (x as usize);
            let global: usize = ((top + y) as usize) * (image.width as usize) + ((left + x) as usize);
            let pixel: B = image.pixels[global];
            let ghost stage = *image;
            assert(pixel == before.at(l + x, t + y)) by {
                assert(image.at(l + x, t + y) == pixel);
            }
            assert(call_requires(
                f,
                (
                    cell(rw, (l + x) - l, (t + y) - t) as usize,
                    cell(w, l + x, t + y) as usize,
                    pixel,
                ),
            ));
            let next: B = f(local, global, pixel);
            image.pixels.set(global, next);
            proof {
                assert forall|a: int, b: int|
                    #![trigger image.at(a, b)]
                    0 <= a < w && 0 <= b < h implies if is_passed(
                    l,
                    t,
                    rw,
                    rh,
                    x + 1,
                    y as int,
                    a,
                    b,
                ) {
                    call_ensures(
                        f,
                        (cell(rw, a - l, b - t) as usize, cell(w, a, b) as usize, before.at(a, b)),
                        image.at(a, b),
                    )
                } else {
                    image.at(a, b) == before.at(a, b)
                } by {
                    lemma_cell(w, h, a, b);
                    if a == l + x && b == t + y {
                        assert(image.at(a, b) == next);
                    } else {
                        assert(cell(w, a, b) != global) by {
                            lemma_cell(w, h, l + x, t + y);
                        }
                        assert(image.at(a, b) == stage.at(a, b));
                    }
                }
            }
            x += 1;
        }
        proof {
            assert forall|a: int, b: int|
                #![trigger image.at(a, b)]
                0 <= a < w && 0 <= b < h implies if is_passed(l, t, rw, rh, 0, y + 1, a, b) {
                call_ensures(
                    f,
                    (cell(rw, a - l, b - t) as usize, cell(w, a, b) as usize, before.at(a, b)),
                    image.at(a, b),
                )
            } else {
                image.at(a, b) == before.at(a, b)
            } by {
                assert(is_passed(l, t, rw, rh, 0, y + 1, a, b) == is_passed(
                    l,
                    t,
                    rw,
                    rh,
                    rw,
                    y as int,
                    a,
                    b,
                ));
            }
        }
        y += 1;
    }
}

/// A rectangle that is not empty fits in an image exactly if its last pixel lies there, and then
/// all of its pixels do.
pub proof fn law_regions_fit_with_their_last_pixel(
    left: int,
    top: int,
    width: int,
    height: int,
    image_width: int,
    image_height: int,
    x: int,
    y: int,
)
    requires
        0 <= left,
        0 <= top,
    ensures
        in_region(left, top, width, height, left + x, top + y) <==> 0 <= x < width && 0 <= y < height,
        fits_inside(left, top, width, height, image_width, image_height) <==> 0 < width && 0 < height
            && left + width - 1 < image_width && top + height - 1 < image_height,
        fits_inside(left, top, width, height, image_width, image_height) && in_region(
            left,
            top,
            width,
            height,
            x,
            y,
        ) ==> 0 <= x < image_width && 0 <= y < image_height,
{
}

} // verus!
