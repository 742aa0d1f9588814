use rapidraw_core::preview_protocol::covering_roi;
use rapidraw_core::preview_protocol::encode_preview_patch;
use rapidraw_core::preview_protocol::Roi;
use rapidraw_core::preview_protocol::PREVIEW_PATCH_HEADER_LEN;
use rapidraw_core::preview_protocol::PREVIEW_PATCH_MAGIC;

#[test]
fn preview_patch_response_has_versioned_geometry_header() {
    let jpeg = [0xff, 0xd8, 0xff, 0xd9];
    let response = encode_preview_patch(
        &jpeg,
        Roi {
            x: 11,
            y: 12,
            width: 640,
            height: 480,
        },
        4000,
        3000,
    );

    assert_eq!(&response[..PREVIEW_PATCH_MAGIC.len()], &PREVIEW_PATCH_MAGIC);
    assert_eq!(PREVIEW_PATCH_MAGIC, *b"RAWROI01");
    assert_eq!(response.len(), PREVIEW_PATCH_HEADER_LEN + jpeg.len());

    let read_u32 =
        |offset: usize| u32::from_le_bytes(response[offset..offset + 4].try_into().unwrap());
    assert_eq!(read_u32(8), 11);
    assert_eq!(read_u32(12), 12);
    assert_eq!(read_u32(16), 640);
    assert_eq!(read_u32(20), 480);
    assert_eq!(read_u32(24), 4000);
    assert_eq!(read_u32(28), 3000);
    assert_eq!(&response[PREVIEW_PATCH_HEADER_LEN..], jpeg);
}

#[test]
fn large_numbers_are_written_lowest_byte_first() {
    let patch = Roi {
        x: 0x0102_0304,
        y: 0,
        width: u32::MAX,
        height: 256,
    };
    let response = encode_preview_patch(&[], patch, 1, 2);
    assert_eq!(&response[8..12], &[4, 3, 2, 1]);
    assert_eq!(&response[16..20], &[255, 255, 255, 255]);
    assert_eq!(&response[20..24], &[0, 1, 0, 0]);
}

/// The pixels in which the edges of a normalized region fall.
fn pixel_edges(roi: Option<(f32, f32, f32, f32)>, width: u32, height: u32) -> Option<Roi> {
    let (x, y, w, h) = roi?;
    if width == 0 || height == 0 || ![x, y, w, h].iter().all(|value| value.is_finite()) {
        return None;
    }
    let left = x.clamp(0.0, 1.0);
    let top = y.clamp(0.0, 1.0);
    let right = (x + w).clamp(0.0, 1.0);
    let bottom = (y + h).clamp(0.0, 1.0);
    if right <= left || bottom <= top {
        return None;
    }
    covering_roi(
        (left * width as f32).floor() as u32,
        (top * height as f32).floor() as u32,
        (right * width as f32).ceil() as u32,
        (bottom * height as f32).ceil() as u32,
        width,
        height,
    )
}

#[test]
fn normalized_roi_uses_covering_pixel_bounds_and_clamps_to_image() {
    let roi = pixel_edges(Some((0.101, -0.2, 0.25, 0.7)), 100, 80).unwrap();

    assert_eq!(roi.x, 10);
    assert_eq!(roi.y, 0);
    assert_eq!(roi.width, 26);
    assert_eq!(roi.height, 40);
}

#[test]
fn normalized_roi_rejects_invalid_or_outside_regions() {
    assert!(pixel_edges(Some((0.0, 0.0, f32::NAN, 1.0)), 100, 80).is_none());
    assert!(pixel_edges(Some((1.2, 0.0, 0.2, 1.0)), 100, 80).is_none());
    assert!(pixel_edges(Some((0.0, 0.0, 1.0, 1.0)), 0, 80).is_none());
    assert_eq!(covering_roi(0, 0, 1, 1, 0, 80), None);
    assert_eq!(covering_roi(0, 0, 1, 1, 100, 0), None);
}

#[test]
fn a_covering_region_is_never_empty_and_stays_inside() {
    let roi = covering_roi(120, 7, 130, 7, 100, 80).unwrap();
    assert_eq!((roi.x, roi.width), (99, 1));
    assert_eq!((roi.y, roi.height), (7, 1));
    let roi = covering_roi(10, 0, 400, 400, 100, 80).unwrap();
    assert_eq!((roi.x, roi.width, roi.y, roi.height), (10, 90, 0, 80));
}
