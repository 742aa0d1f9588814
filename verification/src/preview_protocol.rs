//! The binary message that carries a re-rendered part of a preview.

use vstd::prelude::*;

verus! {

/// A region of an image in pixels.
#[derive(Debug, Clone, Copy, PartialEq, Eq, Structural)]
pub struct Roi {
    pub x: u32,
    pub y: u32,
    pub width: u32,
    pub height: u32,
}

/// `RAWROI01` in ASCII.
pub const PREVIEW_PATCH_MAGIC: [u8; 8] = [82, 65, 87, 82, 79, 73, 48, 49];

/// The magic and six 32-bit numbers.
pub const PREVIEW_PATCH_HEADER_LEN: usize = 32;

/// The bytes of a number, lowest first.
pub open spec fn little_endian(number: u32) -> Seq<u8> {
    seq![
        (number % 256) as u8,
        (number / 256 % 256) as u8,
        (number / 65536 % 256) as u8,
        (number / 16777216) as u8,
    ]
}

/// The number that four bytes stand for, lowest first.
pub open spec fn number_at(bytes: Seq<u8>, offset: int) -> int {
    bytes[offset] + bytes[offset + 1] * 256 + bytes[offset + 2] * 65536 + bytes[offset + 3]
        * 16777216
}

/// The message for a patch of an image.
pub open spec fn patch_message(jpeg: Seq<u8>, patch: Roi, full_width: u32, full_height: u32) -> Seq<
    u8,
> {
    PREVIEW_PATCH_MAGIC@ + little_endian(patch.x) + little_endian(patch.y) + little_endian(
        patch.width,
    ) + little_endian(patch.height) + little_endian(full_width) + little_endian(full_height) + jpeg
}

fn push_number(bytes: &mut Vec<u8>, number: u32)
    ensures
        final(bytes)@ == old(bytes)@ + little_endian(number),
{
    bytes.push((number % 256) as u8);
    bytes.push((number / 256 % 256) as u8);
    bytes.push((number / 65536 % 256) as u8);
    bytes.push((number / 16777216) as u8);
}

fn push_bytes(bytes: &mut Vec<u8>, more: &[u8])
    ensures
        final(bytes)@ == old(bytes)@ + more@,
{
    let ghost before = bytes@;
    let mut i: usize = 0;
    while i < more.len()
        invariant
            i <= more@.len(),
            before == old(bytes)@,
            bytes@ == before + more@.take(i as int),
        decreases more@.len() - i,
    {
        bytes.push(more[i]);
        i += 1;
        assert(more@.take(i as int) == more@.take(i - 1).push(more@[i - 1]));
    }
    assert(more@.take(more@.len() as int) == more@);
}

/// Puts the geometry of a patch and of its image in front of the encoded pixels.
pub fn encode_preview_patch(
    jpeg_bytes: &[u8],
    patch: Roi,
    full_width: u32,
    full_height: u32,
) -> (response: Vec<u8>)
    ensures
        response@ == patch_message(jpeg_bytes@, patch, full_width, full_height),
{
    let mut response: Vec<u8> = Vec::new();
    push_bytes(&mut response, &PREVIEW_PATCH_MAGIC);
    push_number(&mut response, patch.x);
    push_number(&mut response, patch.y);
    push_number(&mut response, patch.width);
    push_number(&mut response, patch.height);
    push_number(&mut response, full_width);
    push_number(&mut response, full_height);
    push_bytes(&mut response, jpeg_bytes);
    response
}

/// A message can be taken apart again: the magic comes first, the six numbers stand
/// at fixed places and the encoded pixels follow the header.
pub proof fn law_patch_message_can_be_read(
    jpeg: Seq<u8>,
    patch: Roi,
    full_width: u32,
    full_height: u32,
)
    ensures
        ({
            let message = patch_message(jpeg, patch, full_width, full_height);
            &&& message.len() == PREVIEW_PATCH_HEADER_LEN + jpeg.len()
            &&& message.take(8) == PREVIEW_PATCH_MAGIC@
            &&& number_at(message, 8) == patch.x
            &&& number_at(message, 12) == patch.y
            &&& number_at(message, 16) == patch.width
            &&& number_at(message, 20) == patch.height
            &&& number_at(message, 24) == full_width
            &&& number_at(message, 28) == full_height
            &&& message.skip(PREVIEW_PATCH_HEADER_LEN as int) == jpeg
        }),
{
    let message = patch_message(jpeg, patch, full_width, full_height);
    assert(PREVIEW_PATCH_MAGIC@.len() == 8);
    assert(message.take(8) =~= PREVIEW_PATCH_MAGIC@);
    assert(message.skip(32) =~= jpeg);
    lemma_number(patch.x);
    lemma_number(patch.y);
    lemma_number(patch.width);
    lemma_number(patch.height);
    lemma_number(full_width);
    lemma_number(full_height);
    assert(message.subrange(8, 12) =~= little_endian(patch.x));
    assert(message.subrange(12, 16) =~= little_endian(patch.y));
    assert(message.subrange(16, 20) =~= little_endian(patch.width));
    assert(message.subrange(20, 24) =~= little_endian(patch.height));
    assert(message.subrange(24, 28) =~= little_endian(full_width));
    assert(message.subrange(28, 32) =~= little_endian(full_height));
    assert forall|offset: int, number: u32|
        0 <= offset <= message.len() - 4 && #[trigger] message.subrange(offset, offset + 4)
            == #[trigger] little_endian(number) implies number_at(message, offset) == number by {
        lemma_number(number);
        assert(message.subrange(offset, offset + 4)[0] == message[offset]);
        assert(message.subrange(offset, offset + 4)[1] == message[offset + 1]);
        assert(message.subrange(offset, offset + 4)[2] == message[offset + 2]);
        assert(message.subrange(offset, offset + 4)[3] == message[offset + 3]);
    }
}

/// The bytes of a number give the number back.
pub proof fn lemma_number(number: u32)
    ensures
        number_at(little_endian(number), 0) == number,
{
}

/// The whole pixels that cover a region, given the pixels in which its left and top
/// edges fall and the pixels before which its right and bottom edges end. The
/// result is never empty and never leaves the image.
pub fn covering_roi(
    left: u32,
    top: u32,
    right: u32,
    bottom: u32,
    full_width: u32,
    full_height: u32,
) -> (roi: Option<Roi>)
    ensures
        roi == if full_width == 0 || full_height == 0 {
            None::<Roi>
        } else {
            let (x, width) = covering_span(left as int, right as int, full_width as int);
            let (y, height) = covering_span(top as int, bottom as int, full_height as int);
            Some(Roi { x: x as u32, y: y as u32, width: width as u32, height: height as u32 })
        },
        roi matches Some(region) ==> region.width > 0 && region.height > 0 && region.x
            + region.width <= full_width && region.y + region.height <= full_height,
{
    if full_width == 0 || full_height == 0 {
        return None;
    }
    let (x, width) = cover(left, right, full_width);
    let (y, height) = cover(top, bottom, full_height);
    Some(Roi { x, y, width, height })
}

/// The start and the length of the pixels that cover a span of a line.
pub open spec fn covering_span(start: int, end: int, length: int) -> (int, int) {
    let first = if start < length {
        start
    } else {
        length - 1
    };
    let past = if end <= first {
        first + 1
    } else if end > length {
        length
    } else {
        end
    };
    (first, past - first)
}

fn cover(start: u32, end: u32, length: u32) -> (span: (u32, u32))
    requires
        length > 0,
    ensures
        (span.0 as int, span.1 as int) == covering_span(start as int, end as int, length as int),
        span.1 > 0,
        span.0 + span.1 <= length,
{
    let first: u32 = if start < length {
        start
    } else {
        length - 1
    };
    let past: u32 = if end <= first {
        first + 1
    } else if end > length {
        length
    } else {
        end
    };
    (first, past - first)
}

/// The pixels that cover a span hold all of it that lies in the line and nothing beside it; a span
/// without a pixel in the line still has one.
pub proof fn law_covering_spans_hold_the_region(start: int, end: int, length: int, pixel: int)
    requires
        0 < length,
        0 <= start,
        0 <= pixel < length,
    ensures
        ({
            let (first, count) = covering_span(start, end, length);
            &&& 0 <= first
            &&& 0 < count
            &&& first + count <= length
            &&& start <= pixel < end ==> first <= pixel < first + count
            &&& start < end && start < length && first <= pixel < first + count ==> start <= pixel
                < end
            &&& end <= start || length <= start ==> count == 1
        }),
{
}

} // verus!
