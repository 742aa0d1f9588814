//! Masks at other resolutions, and the regions of a layer on the analysis canvas.

use vstd::prelude::*;

use crate::grid::cell;
use crate::grid::lemma_cell;
use crate::masks::copy_mask;
use crate::raster::Raster;
use crate::window::clamped;

verus! {

/// What nearest-neighbour resampling makes of a row-major buffer of one byte per
/// pixel, its size, and the new size.
pub uninterp spec fn nearest_resized(
    pixels: Seq<u8>,
    width: u32,
    height: u32,
    new_width: u32,
    new_height: u32,
) -> Seq<u8>;

/// The new size and the buffers in between fit in memory.
pub open spec fn can_resize(width: u32, height: u32, new_width: u32, new_height: u32) -> bool {
    &&& width * new_height * 16 <= isize::MAX
    &&& new_width * new_height <= isize::MAX
}

/// `image::imageops::resize` with `FilterType::Nearest` on an image of one byte
/// per pixel: the result is a function of the arguments; it has the new size, is
/// the source where the size stays, is 0 throughout where the source is empty,
/// and otherwise holds only pixels of the source.
#[verifier::external_body]
fn resize_nearest(
    pixels: &Vec<u8>,
    width: u32,
    height: u32,
    new_width: u32,
    new_height: u32,
) -> (resized: Vec<u8>)
    requires
        pixels@.len() == width * height,
        can_resize(width, height, new_width, new_height),
    ensures
        resized@ == nearest_resized(pixels@, width, height, new_width, new_height),
        resized@.len() == new_width * new_height,
        width == new_width && height == new_height ==> resized@ == pixels@,
        pixels@.len() == 0 ==> forall|i: int| 0 <= i < resized@.len() ==> #[trigger] resized@[i] == 0,
        pixels@.len() > 0 ==> forall|i: int|
            0 <= i < resized@.len() ==> pixels@.contains(#[trigger] resized@[i]),
{
    let source = image::GrayImage::from_raw(width, height, pixels.clone()).unwrap();
    let filter = image::imageops::FilterType::Nearest;
    image::imageops::resize(&source, new_width, new_height, filter).into_raw()
}

/// What resampling with a triangle filter makes of a row-major buffer of one byte per pixel,
/// its size, and the new size.
pub uninterp spec fn triangle_resized(
    pixels: Seq<u8>,
    width: u32,
    height: u32,
    new_width: u32,
    new_height: u32,
) -> Seq<u8>;

/// The longest side that is resampled with a triangle filter. Up to it the place of every pixel
/// in the source is known to an eighth of a pixel, so that the filter weighs at least one.
pub const MAX_SMOOTH_SIDE: u32 = 1_048_576;

/// The sizes can be resampled with a triangle filter.
pub open spec fn can_smooth(width: u32, height: u32, new_width: u32, new_height: u32) -> bool {
    &&& can_resize(width, height, new_width, new_height)
    &&& width <= MAX_SMOOTH_SIDE
    &&& height <= MAX_SMOOTH_SIDE
    &&& new_width <= MAX_SMOOTH_SIDE
    &&& new_height <= MAX_SMOOTH_SIDE
}

/// `image::imageops::resize` with `FilterType::Triangle` on an image of one byte per pixel:
/// the result is a function of the arguments, has the new size, and is the source where the
/// size stays. Which values come of the filter is named and not stated.
#[verifier::external_body]
fn resize_triangle(
    pixels: &Vec<u8>,
    width: u32,
    height: u32,
    new_width: u32,
    new_height: u32,
) -> (resized: Vec<u8>)
    requires
        pixels@.len() == width * height,
        can_smooth(width, height, new_width, new_height),
    ensures
        resized@ == triangle_resized(pixels@, width, height, new_width, new_height),
        resized@.len() == new_width * new_height,
        width == new_width && height == new_height ==> resized@ == pixels@,
{
    let source = image::GrayImage::from_raw(width, height, pixels.clone()).unwrap();
    let filter = image::imageops::FilterType::Triangle;
    image::imageops::resize(&source, new_width, new_height, filter).into_raw()
}

/// A grey image at another resolution, smoothed; `None` where a side is too long or the
/// buffers would not fit in memory.
pub fn resize_gray(image: &Raster<u8>, width: u32, height: u32) -> (resized: Option<Raster<u8>>)
    requires
        image.well_formed(),
    ensures
        resized is Some <==> can_smooth(image.width, image.height, width, height),
        resized matches Some(copy) ==> {
            &&& copy.well_formed()
            &&& copy.width == width
            &&& copy.height == height
            &&& copy.pixels@ == triangle_resized(
                image.pixels@,
                image.width,
                image.height,
                width,
                height,
            )
            &&& copy.same_size(image) ==> copy.pixels@ == image.pixels@
        },
{
    if image.width > MAX_SMOOTH_SIDE || image.height > MAX_SMOOTH_SIDE || width > MAX_SMOOTH_SIDE
        || height > MAX_SMOOTH_SIDE {
        return None;
    }
    proof {
        assert(0 <= image.width * height <= 0x10_0000 * 0x10_0000) by (nonlinear_arith)
            requires
                0 <= image.width <= 0x10_0000,
                0 <= height <= 0x10_0000,
        ;
        assert(0 <= width * height <= 0x10_0000 * 0x10_0000) by (nonlinear_arith)
            requires
                0 <= width <= 0x10_0000,
                0 <= height <= 0x10_0000,
        ;
    }
    let limit: u64 = isize::MAX as u64;
    if (image.width as u64 * height as u64) * 16 > limit || width as u64 * height as u64 > limit {
        return None;
    }
    let pixels: Vec<u8> = resize_triangle(
        &image.pixels,
        image.width,
        image.height,
        width,
        height,
    );
    Some(Raster { width, height, pixels })
}

pub open spec fn at_least_one(size: u32) -> u32 {
    if size == 0 {
        1
    } else {
        size
    }
}

/// The mask at another resolution, at least one pixel wide and high.
pub fn resize_binary_mask(mask: &Raster<u8>, width: u32, height: u32) -> (resized: Raster<u8>)
    requires
        mask.well_formed(),
        can_resize(mask.width, mask.height, at_least_one(width), at_least_one(height)),
    ensures
        resized.well_formed(),
        resized.width == at_least_one(width),
        resized.height == at_least_one(height),
        resized.pixels@ == nearest_resized(
            mask.pixels@,
            mask.width,
            mask.height,
            at_least_one(width),
            at_least_one(height),
        ),
        mask.width == at_least_one(width) && mask.height == at_least_one(height) ==> resized.pixels@
            == mask.pixels@,
        mask.pixels@.len() > 0 ==> forall|i: int|
            0 <= i < resized.pixels@.len() ==> mask.pixels@.contains(#[trigger] resized.pixels@[i]),
{
    let new_width: u32 = if width == 0 {
        1
    } else {
        width
    };
    let new_height: u32 = if height == 0 {
        1
    } else {
        height
    };
    let pixels: Vec<u8> = resize_nearest(
        &mask.pixels,
        mask.width,
        mask.height,
        new_width,
        new_height,
    );
    Raster { width: new_width, height: new_height, pixels }
}

/// Half of the size, rounded up.
pub open spec fn half_size(size: int) -> int {
    (size + 1) / 2
}

/// The mean of the two by two pixels at twice the position, rounded half up; the
/// last column and row stand in for what lies behind them.
pub open spec fn half_pixel(mask: Seq<u8>, width: int, height: int, x: int, y: int) -> int {
    let x0 = clamped(2 * x, width);
    let x1 = clamped(2 * x + 1, width);
    let y0 = clamped(2 * y, height);
    let y1 = clamped(2 * y + 1, height);
    (mask[cell(width, x0, y0)] + mask[cell(width, x1, y0)] + mask[cell(width, x0, y1)]
        + mask[cell(width, x1, y1)] + 2) / 4
}

/// The mask at half the resolution.
pub fn downsample_mask_half(mask: &Raster<u8>) -> (half: Raster<u8>)
    requires
        mask.well_formed(),
        0 < mask.width,
        0 < mask.height,
    ensures
        half.well_formed(),
        half.width == half_size(mask.width as int),
        half.height == half_size(mask.height as int),
        forall|x: int, y: int|
            0 <= x < half.width && 0 <= y < half.height ==> #[trigger] half.at(x, y) == half_pixel(
                mask.pixels@,
                mask.width as int,
                mask.height as int,
                x,
                y,
            ),
{
    let ghost w = mask.width as int;
    let ghost h = mask.height as int;
    let width: u32 = mask.width / 2 + mask.width % 2;
    let height: u32 = mask.height / 2 + mask.height % 2;
    if mask.width == width && mask.height == height {
        let copy = copy_mask(mask);
        proof {
            assert(w == 1 && h == 1);
            assert forall|x: int, y: int|
                0 <= x < copy.width && 0 <= y < copy.height implies #[trigger] copy.at(x, y)
                == half_pixel(mask.pixels@, w, h, x, y) by {
                assert(cell(w, x, y) == 0);
                assert(cell(w, clamped(2 * x, w), clamped(2 * y, h)) == 0);
            }
        }
        return copy;
    }
    let size: usize = mask.pixels.len();
    let last_x: u32 = mask.width - 1;
    let last_y: u32 = mask.height - 1;
    let mut pixels: Vec<u8> = Vec::new();
    let mut y: u32 = 0;
    while y < height
        invariant
            y <= height,
            mask.well_formed(),
            w == mask.width,
            h == mask.height,
            0 < w,
            0 < h,
            width == half_size(w),
            height == half_size(h),
            last_x == w - 1,
            last_y == h - 1,
            size == w * h,
            pixels@.len() == y * width,
            forall|a: int, b: int|
                #![trigger cell(width as int, a, b)]
                0 <= a < width && 0 <= b < y ==> pixels@[cell(width as int, a, b)] == half_pixel(
                    mask.pixels@,
                    w,
                    h,
                    a,
                    b,
                ),
        decreases height - y,
    {
        let y0: u32 = 2 * y;
        let y1: u32 = if y0 < last_y {
            y0 + 1
        } else {
            last_y
        };
        let mut x: u32 = 0;
        while x < width
            invariant
                x <= width,
                y < height,
                mask.well_formed(),
                w == mask.width,
                h == mask.height,
                0 < w,
                0 < h,
                width == half_size(w),
                height == half_size(h),
                last_x == w - 1,
                last_y == h - 1,
                y0 == clamped(2 * y, h),
                y1 == clamped(2 * y + 1, h),
                size == w * h,
                pixels@.len() == y * width + x,
                forall|a: int, b: int|
                    #![trigger cell(width as int, a, b)]
                    0 <= a < width && 0 <= b < y ==> pixels@[cell(width as int, a, b)]
                        == half_pixel(mask.pixels@, w, h, a, b),
                forall|a: int|
                    #![trigger cell(width as int, a, y as int)]
                    0 <= a < x ==> pixels@[cell(width as int, a, y as int)] == half_pixel(
                        mask.pixels@,
                        w,
                        h,
                        a,
                        y as int,
                    ),
            decreases width - x,
        {
            let x0: u32 = 2 * x;
            let x1: u32 = if x0 < last_x {
                x0 + 1
            } else {
                last_x
            };
            let total: u16 = mask.pixel(x0, y0) as u16 + mask.pixel(x1, y0) as u16 + mask.pixel(
                x0,
                y1,
            ) as u16 + mask.pixel(x1, y1) as u16;
            let ghost before = pixels@;
            pixels.push(((total + 2) / 4) as u8);
            proof {
                assert(0 <= y * width) by (nonlinear_arith);
                assert forall|a: int, b: int|
                    #![trigger cell(width as int, a, b)]
                    0 <= a < width && 0 <= b < y implies pixels@[cell(width as int, a, b)]
                    == half_pixel(mask.pixels@, w, h, a, b) by {
                    lemma_cell(width as int, y as int, a, b);
                    assert(width * y == y * width) by (nonlinear_arith);
                    assert(before[cell(width as int, a, b)] == half_pixel(
                        mask.pixels@,
                        w,
                        h,
                        a,
                        b,
                    ));
                }
                assert forall|a: int|
                    #![trigger cell(width as int, a, y as int)]
                    0 <= a < x + 1 implies pixels@[cell(width as int, a, y as int)] == half_pixel(
                    mask.pixels@,
                    w,
                    h,
                    a,
                    y as int,
                ) by {
                    if a < x {
                        assert(before[cell(width as int, a, y as int)] == half_pixel(
                            mask.pixels@,
                            w,
                            h,
                            a,
                            y as int,
                        ));
                    }
                }
            }
            x += 1;
        }
        assert((y + 1) * width == y * width + width) by (nonlinear_arith);
        y += 1;
    }
    assert(height * width == width * height) by (nonlinear_arith);
    let half = Raster { width, height, pixels };
    assert forall|x: int, y: int| 0 <= x < width && 0 <= y < height implies #[trigger] half.at(x, y)
        == half_pixel(mask.pixels@, w, h, x, y) by {
        assert(half.at(x, y) == pixels@[cell(width as int, x, y)]);
    }
    half
}

/// A size that never divides by zero.
pub open spec fn divisor(size: u32) -> int {
    if size == 0 {
        1
    } else {
        size as int
    }
}

/// Where a position of an image of `source_size` starts at `target_size`, cut to
/// 32 bits.
pub fn scaled_region_start(value: u32, source_size: u32, target_size: u32) -> (start: u32)
    ensures
        start == ((value * target_size) / divisor(source_size)) % 0x1_0000_0000,
{
    proof {
        assert(value * target_size <= 0xffff_ffff * 0xffff_ffff) by (nonlinear_arith)
            requires
                0 <= value <= 0xffff_ffff,
                0 <= target_size <= 0xffff_ffff,
        ;
        assert(0 <= value * target_size) by (nonlinear_arith);
    }
    let source: u64 = if source_size == 0 {
        1
    } else {
        source_size as u64
    };
    let position: u64 = ((value as u64) * (target_size as u64)) / source;
    assert((position as u32) == position % 0x1_0000_0000) by (bit_vector);
    #[verifier::truncate]
    (position as u32)
}

/// Where a position of an image of `source_size` ends at `target_size`, rounded
/// up and cut to 32 bits.
pub fn scaled_region_end(value: u32, source_size: u32, target_size: u32) -> (end: u32)
    ensures
        end == ((value * target_size + divisor(source_size) - 1) / divisor(source_size))
            % 0x1_0000_0000,
{
    proof {
        assert(value * target_size <= 0xffff_ffff * 0xffff_ffff) by (nonlinear_arith)
            requires
                0 <= value <= 0xffff_ffff,
                0 <= target_size <= 0xffff_ffff,
        ;
        assert(0 <= value * target_size) by (nonlinear_arith);
    }
    let source: u64 = if source_size == 0 {
        1
    } else {
        source_size as u64
    };
    let position: u64 = ((value as u64) * (target_size as u64) + (source - 1)) / source;
    assert((position as u32) == position % 0x1_0000_0000) by (bit_vector);
    #[verifier::truncate]
    (position as u32)
}

/// A position of the canvas at the resolution of the analysis.
pub open spec fn analysis_position(position: int, canvas: u32, analysis: u32) -> int {
    clamped(position * analysis / canvas as int, analysis as int)
}

/// The sum of two positions, cut to 32 bits from above.
pub open spec fn saturated(first: int, second: int) -> int {
    if first + second > u32::MAX {
        u32::MAX as int
    } else {
        first + second
    }
}

/// The decision of the analysis canvas for every pixel of a layer; all against
/// the layer where one of the canvases is empty.
pub fn focus_decision_for_layer(
    analysis_decision: &Raster<u8>,
    layer_left: u32,
    layer_top: u32,
    layer_width: u32,
    layer_height: u32,
    out_width: u32,
    out_height: u32,
) -> (decision: Raster<u8>)
    requires
        analysis_decision.well_formed(),
        layer_width * layer_height <= usize::MAX,
    ensures
        decision.well_formed(),
        decision.width == layer_width,
        decision.height == layer_height,
        forall|x: int, y: int|
            0 <= x < layer_width && 0 <= y < layer_height ==> #[trigger] decision.at(x, y) == if out_width
                == 0 || out_height == 0 || analysis_decision.width == 0 || analysis_decision.height
                == 0 {
                0
            } else {
                analysis_decision.at(
                    analysis_position(
                        saturated(layer_left as int, x),
                        out_width,
                        analysis_decision.width,
                    ),
                    analysis_position(
                        saturated(layer_top as int, y),
                        out_height,
                        analysis_decision.height,
                    ),
                )
            },
{
    let mut decision: Raster<u8> = Raster::filled(layer_width, layer_height, 0u8);
    if out_width == 0 || out_height == 0 || analysis_decision.width == 0 || analysis_decision.height
        == 0 {
        proof {
            assert forall|x: int, y: int|
                0 <= x < layer_width && 0 <= y < layer_height implies #[trigger] decision.at(x, y)
                == 0 by {
                lemma_cell(layer_width as int, layer_height as int, x, y);
            }
        }
        return decision;
    }
    if layer_width == 0 || layer_height == 0 {
        return decision;
    }
    let ghost w = layer_width as int;
    let size: usize = decision.pixels.len();
    crate::raster::update_cells(
        &mut decision.pixels,
        |i: usize, current: u8| -> (next: u8)
            requires
                i < size,
                size == layer_width * layer_height,
                layer_width > 0,
                out_width > 0,
                out_height > 0,
                analysis_decision.width > 0,
                analysis_decision.height > 0,
                analysis_decision.well_formed(),
            ensures
                next == analysis_decision.at(
                    analysis_position(
                        saturated(layer_left as int, i as int % layer_width as int),
                        out_width,
                        analysis_decision.width,
                    ),
                    analysis_position(
                        saturated(layer_top as int, i as int / layer_width as int),
                        out_height,
                        analysis_decision.height,
                    ),
                )
            {
                proof {
                    crate::grid::lemma_split(layer_width as int, layer_height as int, i as int);
                }
                let x: u32 = (i % (layer_width as usize)) as u32;
                let y: u32 = (i / (layer_width as usize)) as u32;
                let column: u32 = scaled_position(
                    layer_left.saturating_add(x),
                    out_width,
                    analysis_decision.width,
                );
                let row: u32 = scaled_position(
                    layer_top.saturating_add(y),
                    out_height,
                    analysis_decision.height,
                );
                analysis_decision.pixel(column, row)
            },
    );
    proof {
        assert forall|x: int, y: int|
            0 <= x < layer_width && 0 <= y < layer_height implies #[trigger] decision.at(x, y)
            == analysis_decision.at(
            analysis_position(
                saturated(layer_left as int, x),
                out_width,
                analysis_decision.width,
            ),
            analysis_position(
                saturated(layer_top as int, y),
                out_height,
                analysis_decision.height,
            ),
        ) by {
            lemma_cell(layer_width as int, layer_height as int, x, y);
        }
    }
    decision
}

/// A position of the canvas at the resolution of the analysis.
fn scaled_position(position: u32, canvas: u32, analysis: u32) -> (scaled: u32)
    requires
        canvas > 0,
        analysis > 0,
    ensures
        scaled == analysis_position(position as int, canvas, analysis),
        scaled < analysis,
{
    proof {
        assert(position * analysis <= 0xffff_ffff * 0xffff_ffff) by (nonlinear_arith)
            requires
                0 <= position <= 0xffff_ffff,
                0 <= analysis <= 0xffff_ffff,
        ;
        assert(0 <= position * analysis) by (nonlinear_arith);
        assert(0 <= (position * analysis) / canvas as int) by (nonlinear_arith)
            requires
                0 <= position * analysis,
                canvas > 0,
        ;
    }
    let scaled: u64 = ((position as u64) * (analysis as u64)) / (canvas as u64);
    if scaled >= analysis as u64 {
        analysis - 1
    } else {
        scaled as u32
    }
}

/// A pixel at half the resolution is the mean of the two by two pixels that it stands for, to the
/// nearest value; of a single column or row at the end, that one counts twice.
pub proof fn law_half_pixels_are_means(mask: Seq<u8>, width: int, height: int, x: int, y: int)
    requires
        0 < width,
        0 < height,
        0 <= 2 * x < width,
        0 <= 2 * y < height,
    ensures
        ({
            let right = if 2 * x + 1 < width {
                2 * x + 1
            } else {
                2 * x
            };
            let lower = if 2 * y + 1 < height {
                2 * y + 1
            } else {
                2 * y
            };
            let total = mask[2 * y * width + 2 * x] + mask[2 * y * width + right] + mask[lower * width
                + 2 * x] + mask[lower * width + right];
            let half = half_pixel(mask, width, height, x, y);
            -2 <= total - 4 * half <= 1
        }),
        0 <= half_pixel(mask, width, height, x, y) <= 255,
{
}

/// A position of the canvas shows up on the analysis canvas where the same share of the length
/// lies before it: the scaled position is the last one that does not come after it.
pub proof fn law_analysis_positions_keep_the_share(position: int, canvas: u32, analysis: u32)
    requires
        0 <= position < canvas,
        0 < analysis,
    ensures
        ({
            let scaled = analysis_position(position, canvas, analysis);
            &&& 0 <= scaled < analysis
            &&& scaled * canvas <= position * analysis
            &&& position * analysis < (scaled + 1) * canvas
        }),
        canvas == analysis ==> analysis_position(position, canvas, analysis) == position,
{
    let (c, n) = (canvas as int, analysis as int);
    let q = position * n / c;
    vstd::arithmetic::div_mod::lemma_fundamental_div_mod(position * n, c);
    assert(c * q == q * c && (q + 1) * c == q * c + c) by (nonlinear_arith);
    assert(0 <= q < n) by (nonlinear_arith)
        requires
            q * c <= position * n,
            position * n < q * c + c,
            0 <= position < c,
            0 < n,
    ;
    if c == n {
        assert(q == position) by (nonlinear_arith)
            requires
                q * c <= position * c,
                position * c < q * c + c,
                0 < c,
        ;
    }
}

/// Half of a size has room for every pair of pixels, and for no pair more.
pub proof fn law_halves_have_room_for_every_pixel(size: int)
    requires
        0 < size,
    ensures
        2 * half_size(size) - 1 <= size <= 2 * half_size(size),
{
}

/// A layer pixel is looked up where it lies on the canvas.
pub proof fn law_positions_add_up(first: int, second: int)
    requires
        0 <= first,
        0 <= second,
        first + second <= u32::MAX,
    ensures
        saturated(first, second) == first + second,
{
}

/// A mask is resized to the size that is asked for, and to one column or row where that is none.
pub proof fn law_sizes_are_never_empty(size: u32)
    ensures
        size > 0 ==> at_least_one(size) == size && divisor(size) == size,
        at_least_one(0) == 1,
        divisor(0) == 1,
{
}

} // verus!
