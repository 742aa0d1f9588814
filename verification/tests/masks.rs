use rapidraw_core::crop::crop_to_valid_rectangle;
use rapidraw_core::crop::largest_valid_rectangle;
use rapidraw_core::fill::fill_focus_canvas_margins;
use rapidraw_core::fill::reflected_run_source_index;
use rapidraw_core::fill::FillStep;
use rapidraw_core::masks::count_set;
use rapidraw_core::masks::dilate_focus_binary_mask;
use rapidraw_core::masks::fill_focus_foreground_holes;
use rapidraw_core::masks::open_focus_binary_mask;
use rapidraw_core::masks::retain_focus_foreground_components;
use rapidraw_core::order::median;
use rapidraw_core::order::sort_ascending;
use rapidraw_core::order::upper_decile;
use rapidraw_core::raster::Raster;
use rapidraw_core::resample::downsample_mask_half;
use rapidraw_core::resample::focus_decision_for_layer;
use rapidraw_core::resample::resize_binary_mask;
use rapidraw_core::resample::resize_gray;
use rapidraw_core::resample::scaled_region_end;
use rapidraw_core::resample::scaled_region_start;
use rapidraw_core::window::box_counts;

/// A mask from rows of marks.
fn mask(rows: &[&str]) -> Raster<u8> {
    let pixels: Vec<u8> = rows
        .iter()
        .flat_map(|row| row.bytes().map(|mark| if mark == b'#' { 255 } else { 0 }))
        .collect();
    Raster {
        width: rows[0].len() as u32,
        height: rows.len() as u32,
        pixels,
    }
}

#[test]
fn focus_canvas_margin_fill_keeps_the_full_canvas_and_extends_texture() {
    let mut image: Vec<[f32; 3]> = (0..48)
        .map(|i| {
            let value = ((i % 8) as f32 * 0.07 + (i / 8) as f32 * 0.11).fract();
            [value, value * 0.8, value * 0.6]
        })
        .collect();
    let mut mask: Raster<u8> = Raster::filled(8, 6, 0);
    for y in 1..5 {
        for x in 1..7 {
            mask.put(x, y, 255);
        }
    }
    image[0] = [0.0; 3];

    let plan = fill_focus_canvas_margins(&mut mask);
    let filled = plan.rows.len() + plan.columns.len();
    let copy = |image: &mut Vec<[f32; 3]>, step: &FillStep, along_row: bool| {
        let at = |position: usize| {
            if along_row {
                step.line * 8 + position
            } else {
                position * 8 + step.line
            }
        };
        image[at(step.target)] = image[at(step.source)];
    };
    for step in &plan.rows {
        copy(&mut image, step, true);
    }
    for step in &plan.columns {
        copy(&mut image, step, false);
    }

    assert_eq!(image.len(), 48);
    assert!(filled > 0);
    assert_eq!(plan.remaining, 0);
    assert!(mask.pixels.iter().all(|&value| value > 0));
    assert!(image[0].iter().any(|&value| value != 0.0));
}

#[test]
fn runs_are_filled_by_reflection() {
    assert_eq!(reflected_run_source_index(0, 8, None, Some(1)), 2);
    assert_eq!(reflected_run_source_index(7, 8, Some(6), None), 5);
}

#[test]
fn the_largest_rectangle_is_found() {
    let shape = mask(&["##..#", "####.", "####.", "..#.."]);
    let found = largest_valid_rectangle(&shape.pixels, 5, 4).unwrap();
    assert_eq!(
        (found.left, found.top, found.width, found.height),
        (0, 1, 4, 2)
    );
    assert!(largest_valid_rectangle(&vec![0; 6], 3, 2).is_none());
}

#[test]
fn of_equal_rectangles_the_upper_left_one_is_taken() {
    let shape = mask(&["##.##"]);
    let found = largest_valid_rectangle(&shape.pixels, 5, 1).unwrap();
    assert_eq!((found.left, found.width), (0, 2));
}

#[test]
fn an_image_is_cropped_to_what_is_covered() {
    let image = Raster {
        width: 3,
        height: 2,
        pixels: vec![1, 2, 3, 4, 5, 6],
    };
    let cropped = crop_to_valid_rectangle(image, &mask(&[".##", ".##"]));
    assert_eq!((cropped.width, cropped.height), (2, 2));
    assert_eq!(cropped.pixels, vec![2, 3, 5, 6]);
    let image = Raster {
        width: 3,
        height: 1,
        pixels: vec![1, 2, 3],
    };
    assert_eq!(
        crop_to_valid_rectangle(image, &mask(&["..."])).pixels,
        vec![1, 2, 3]
    );
}

#[test]
fn windows_count_the_border_as_repeated() {
    let shape = mask(&["#..", "...", "..."]);
    let counts = box_counts(&shape.pixels, 3, 3, 1);
    assert_eq!(counts, vec![4, 2, 0, 2, 1, 0, 0, 0, 0]);
}

#[test]
fn dilation_and_opening_use_square_windows() {
    let dot = mask(&[".....", ".....", "..#..", ".....", "....."]);
    let grown = dilate_focus_binary_mask(&dot, 1);
    assert_eq!(
        grown.pixels,
        mask(&[".....", ".###.", ".###.", ".###.", "....."]).pixels
    );
    assert_eq!(count_set(&grown.pixels), 9);
    assert_eq!(open_focus_binary_mask(&dot, 1).pixels, vec![0; 25]);
    assert_eq!(open_focus_binary_mask(&grown, 1).pixels, grown.pixels);
    assert_eq!(open_focus_binary_mask(&dot, 0).pixels, dot.pixels);
}

#[test]
fn enclosed_holes_are_filled() {
    let ring = mask(&["####.", "#..#.", "####.", "....."]);
    let filled = fill_focus_foreground_holes(&ring);
    assert_eq!(
        filled.pixels,
        mask(&["####.", "####.", "####.", "....."]).pixels
    );
    let open = mask(&["####", "#...", "####"]);
    assert_eq!(fill_focus_foreground_holes(&open).pixels, open.pixels);
}

#[test]
fn small_components_without_a_seed_are_dropped() {
    let shape = mask(&["##..###", "##..###", ".......", "#......"]);
    let seeds = mask(&["......#", ".......", ".......", "......."]);
    let kept = retain_focus_foreground_components(&shape, &seeds, 2, 2);
    assert_eq!(
        kept.pixels,
        mask(&["....###", "....###", ".......", "......."]).pixels
    );
}

#[test]
fn masks_are_resized_to_the_nearest_pixel() {
    let shape = mask(&["#.", ".#"]);
    let larger = resize_binary_mask(&shape, 4, 4);
    assert_eq!(
        larger.pixels,
        mask(&["##..", "##..", "..##", "..##"]).pixels
    );
    assert_eq!(resize_binary_mask(&shape, 2, 2).pixels, shape.pixels);
    let least = resize_binary_mask(&shape, 0, 0);
    assert_eq!((least.width, least.height), (1, 1));
}

#[test]
fn halving_averages_and_keeps_odd_edges() {
    let shape = Raster {
        width: 3,
        height: 1,
        pixels: vec![255, 0, 100],
    };
    let half = downsample_mask_half(&shape);
    assert_eq!((half.width, half.height), (2, 1));
    assert_eq!(half.pixels, vec![128, 100]);
}

#[test]
fn regions_scale_outwards() {
    assert_eq!(scaled_region_start(3, 10, 4), 1);
    assert_eq!(scaled_region_end(3, 10, 4), 2);
    assert_eq!(scaled_region_end(10, 10, 4), 4);
}

#[test]
fn a_decision_is_cut_out_for_its_layer() {
    let decision = mask(&["#...", "#...", "....", "...."]);
    let part = focus_decision_for_layer(&decision, 0, 0, 2, 2, 4, 4);
    assert_eq!(part.pixels, mask(&["#.", "#."]).pixels);
}

#[test]
fn the_middle_key_is_the_upper_one_of_two() {
    assert_eq!(sort_ascending(vec![3, -1, 2]), vec![-1, 2, 3]);
    assert_eq!(median(vec![4, 1, 3, 2]), Some(3));
    assert_eq!(median(vec![5]), Some(5));
    assert_eq!(median(vec![]), None);
    assert_eq!(upper_decile((0..11).rev().collect()), Some(9));
    assert_eq!(upper_decile(vec![]), None);
}

#[test]
fn grey_images_are_smoothed_when_they_are_resized() {
    let image = Raster {
        width: 4,
        height: 1,
        pixels: vec![0u8, 0, 200, 200],
    };
    assert_eq!(resize_gray(&image, 4, 1).unwrap().pixels, image.pixels);
    let half = resize_gray(&image, 2, 1).unwrap();
    assert_eq!((half.width, half.height), (2, 1));
    assert!(half.pixels[0] < half.pixels[1]);
    assert!(half.pixels.iter().any(|value| ![0, 200].contains(value)));
    assert!(resize_gray(&image, 1_048_577, 1).is_none());
    assert!(resize_gray(&image, 1, u32::MAX).is_none());
}
