use rapidraw_core::bounds::Bounds;
use rapidraw_core::exposure::count_exposure_cells;
use rapidraw_core::exposure::exposure_samples;
use rapidraw_core::exposure::exposure_step;
use rapidraw_core::exposure::representative_ratio;
use rapidraw_core::panorama::find_overlap;
use rapidraw_core::panorama::linear_samples;
use rapidraw_core::panorama::place_panorama_pixels;
use rapidraw_core::panorama::seam_side;
use rapidraw_core::panorama::LinearSample;
use rapidraw_core::panorama::SeamSide;
use rapidraw_core::raster::Raster;
use rapidraw_core::seam_band::commit_panorama_patch;
use rapidraw_core::seam_band::panorama_detail_weight;
use rapidraw_core::seam_band::panorama_patch;
use rapidraw_core::seam_band::panorama_seam_patch;
use rapidraw_core::seam_band::plan_bands;
use rapidraw_core::seam_band::BandPlan;
use rapidraw_core::seam_band::PANORAMA_BLEND_BANDS;
use rapidraw_core::seam_band::PANORAMA_DETAIL_SEAM_FEATHER_RADIUS;
use rapidraw_core::seam_path::coordinate;
use rapidraw_core::seam_path::find_pairwise_seam_dp;
use rapidraw_core::seam_path::find_seam_samples;
use rapidraw_core::seam_path::plan_seam_grid;
use rapidraw_core::seam_path::SeamOrientation;

fn raster<P>(width: u32, pixels: Vec<P>) -> Raster<P> {
    let height = pixels.len() as u32 / width;
    Raster {
        width,
        height,
        pixels,
    }
}

fn bounds(left: u32, right: u32, top: u32, bottom: u32) -> Bounds {
    Bounds {
        left,
        right,
        top,
        bottom,
    }
}

#[test]
fn panorama_detail_feather_is_local_and_symmetric() {
    let radius = PANORAMA_DETAIL_SEAM_FEATHER_RADIUS;

    assert_eq!(panorama_detail_weight(i64::MIN), 0);
    assert_eq!(panorama_detail_weight(-radius), 0);
    assert_eq!(panorama_detail_weight(0), (0.5f32 * 255.0).round() as u8);
    assert_eq!(panorama_detail_weight(radius), 255);
    assert_eq!(panorama_detail_weight(i64::MAX), 255);
    for distance in -radius..=radius {
        let alpha = 0.5 + distance as f32 / (radius as f32 * 2.0);
        assert_eq!(
            panorama_detail_weight(distance),
            (alpha.clamp(0.0, 1.0) * 255.0).round() as u8
        );
    }
}

#[test]
fn the_overlap_is_boxed() {
    let mask = raster(4, vec![0, 0, 255, 0, 0, 255, 0, 0]);
    let region = bounds(1, 3, 0, 1);
    let overlap = find_overlap(&mask, region, &vec![true; 6]);
    assert_eq!(overlap, Some(bounds(1, 2, 0, 1)));
    let one = find_overlap(&mask, region, &vec![false, true, true, false, true, true]);
    assert_eq!(one, Some(bounds(2, 2, 0, 0)));
    assert_eq!(find_overlap(&mask, region, &vec![false; 6]), None);
}

#[test]
fn a_seam_has_two_sides() {
    let vertical = SeamOrientation::Vertical;
    let horizontal = SeamOrientation::Horizontal;
    assert_eq!(seam_side(vertical, true, false), SeamSide::Right);
    assert_eq!(seam_side(vertical, false, true), SeamSide::Left);
    assert_eq!(seam_side(horizontal, true, false), SeamSide::Top);
    assert_eq!(seam_side(horizontal, false, true), SeamSide::Bottom);
}

#[test]
fn pixels_of_both_images_wait_for_the_seam() {
    let samples = vec![Some(7), Some(8), None];
    let mut panorama = raster(4, vec![1, 2, 3, 4]);
    let mut mask = raster(4, vec![255, 255, 0, 0]);
    place_panorama_pixels(&mut panorama, &mut mask, bounds(1, 3, 0, 0), &samples, true);
    assert_eq!(panorama.pixels, vec![1, 2, 8, 4]);
    assert_eq!(mask.pixels, vec![255, 255, 255, 0]);
    place_panorama_pixels(&mut panorama, &mut mask, bounds(1, 3, 0, 0), &samples, false);
    assert_eq!(panorama.pixels, vec![1, 7, 8, 4]);
}

#[test]
fn linear_samples_keep_pixel_centres() {
    let sample = |lower, upper, numerator, denominator| LinearSample {
        lower,
        upper,
        numerator,
        denominator,
    };
    assert_eq!(
        linear_samples(2, 4),
        vec![
            sample(0, 1, 0, 8),
            sample(0, 1, 2, 8),
            sample(0, 1, 6, 8),
            sample(1, 1, 0, 8)
        ]
    );
    for (i, found) in linear_samples(5, 5).iter().enumerate() {
        assert_eq!((found.lower, found.numerator), (i, 0));
    }
    assert_eq!(linear_samples(3, 0).len(), 1);
}

#[test]
fn the_seam_follows_the_cheap_samples() {
    let grid = plan_seam_grid(SeamOrientation::Vertical, 10, 12, 0, 3).unwrap();
    assert_eq!((grid.step, grid.along_count, grid.cross_count), (1, 4, 3));
    assert_eq!(coordinate(grid.cross_min, grid.cross_max, grid.step, 2), 12);
    let dear = Some(1_000_000_000_000);
    let cheap = Some(1);
    let energies = vec![
        dear, cheap, dear, //
        dear, dear, cheap, //
        dear, cheap, dear, //
        cheap, dear, dear,
    ];
    assert_eq!(find_seam_samples(&grid, &energies), Some(vec![1, 2, 1, 0]));
    assert_eq!(
        find_pairwise_seam_dp(&grid, &energies, 6),
        vec![11, 12, 11, 10, 10, 10]
    );
    assert_eq!(find_seam_samples(&grid, &vec![None; 12]), None);
    assert!(find_pairwise_seam_dp(&grid, &vec![None; 12], 6).is_empty());
}

#[test]
fn the_cheapest_seam_has_no_cheaper_rival() {
    let grid = plan_seam_grid(SeamOrientation::Horizontal, 0, 3, 0, 2).unwrap();
    let energies: Vec<Option<u64>> = [5, 2, 9, 4, 4, 1, 8, 3, 2, 7, 6, 5]
        .iter()
        .map(|value| Some(*value))
        .collect();
    let found = find_seam_samples(&grid, &energies).unwrap();
    let penalty = |column: usize| {
        let margin = column.min(2 - column) as u64;
        (6 - margin) * 10_000_000
    };
    let cost = |path: &[usize]| -> u64 {
        path.iter()
            .enumerate()
            .map(|(row, column)| energies[row * 3 + column].unwrap() + penalty(*column))
            .sum()
    };
    for code in 0..81usize {
        let path = [code % 3, code / 3 % 3, code / 9 % 3, code / 27];
        if path.windows(2).all(|pair| pair[0].abs_diff(pair[1]) <= 1) {
            assert!(cost(&found) <= cost(&path));
        }
    }
}

#[test]
fn a_patch_takes_the_whole_overlap() {
    let vertical = SeamOrientation::Vertical;
    let horizontal = SeamOrientation::Horizontal;
    assert_eq!(
        panorama_seam_patch(100, 80, vertical, 80, 10, 200, 5, 60),
        Some(bounds(10, 99, 5, 60))
    );
    assert_eq!(panorama_seam_patch(100, 80, vertical, 60, 10, 200, 5, 60), None);
    assert_eq!(panorama_seam_patch(100, 80, horizontal, 99, 10, 200, 5, 60), None);
    assert_eq!(panorama_seam_patch(100, 80, vertical, 80, 10, 16, 5, 60), None);
}

#[test]
fn a_patch_holds_both_sources_and_goes_back() {
    let mut panorama = raster(4, vec![1, 2, 3, 4]);
    let mut mask = raster(4, vec![255, 255, 0, 0]);
    let patch = bounds(0, 3, 0, 0);
    let samples = vec![None, Some(8), Some(9), None];
    let parts = panorama_patch(
        &panorama,
        &mask,
        &samples,
        patch,
        SeamOrientation::Vertical,
        &vec![1],
        true,
        0,
    );
    assert_eq!(parts.base, vec![1, 2, 9, 4]);
    assert_eq!(parts.candidate, vec![1, 8, 9, 0]);
    assert_eq!(parts.detail, vec![0, 128, 255, 0]);
    assert_eq!(parts.tone, vec![0, 85, 255, 0]);
    commit_panorama_patch(&mut panorama, &mut mask, patch, &vec![5, 6, 7, 8], &parts.detail);
    assert_eq!(panorama.pixels, vec![5, 6, 7, 8]);
    assert_eq!(mask.pixels, vec![255, 255, 255, 0]);
}

#[test]
fn the_tone_ramp_spans_the_overlap() {
    let panorama = Raster::filled(3, 4, 1);
    let mask = Raster::filled(3, 4, 255u8);
    let tones = |orientation, dominant| {
        panorama_patch(
            &panorama,
            &mask,
            &vec![Some(2); 12],
            bounds(0, 2, 0, 3),
            orientation,
            &vec![1; 4],
            dominant,
            0,
        )
        .tone
    };
    let row = [0, 128, 255];
    assert_eq!(tones(SeamOrientation::Vertical, true), row.repeat(4));
    let back = [255, 128, 0];
    assert_eq!(tones(SeamOrientation::Vertical, false), back.repeat(4));
    assert_eq!(
        tones(SeamOrientation::Horizontal, true),
        vec![0, 0, 0, 85, 85, 85, 170, 170, 170, 255, 255, 255]
    );
}

#[test]
fn bands_follow_the_seam_and_then_the_tone() {
    let plan = |width, height, tone_mask, hard| BandPlan {
        width,
        height,
        tone_mask,
        hard,
    };
    assert_eq!(
        plan_bands(17, 9, PANORAMA_BLEND_BANDS, true),
        vec![
            plan(17, 9, false, true),
            plan(9, 5, false, true),
            plan(5, 3, true, false)
        ]
    );
    let levels = plan_bands(4096, 4096, PANORAMA_BLEND_BANDS, false);
    assert_eq!(levels.len(), 9);
    assert!(levels.iter().all(|level| !level.hard));
    assert_eq!(levels.iter().position(|level| level.tone_mask), Some(5));
}

#[test]
fn exposures_are_compared_on_a_lattice() {
    assert_eq!(count_exposure_cells(257), 3);
    assert_eq!(exposure_step(100, 200), 8);
    assert_eq!(exposure_step(7200, 100), 10);
    let mut mask = Raster::filled(300, 20, 255u8);
    mask.put(288, 8, 0);
    let samples = exposure_samples(&mask, bounds(280, 299, 1, 19), 8);
    let found: Vec<(u32, u32, usize)> = samples
        .iter()
        .map(|sample| (sample.x, sample.y, sample.cell))
        .collect();
    assert_eq!(
        found,
        vec![
            (280, 8, 1),
            (296, 8, 1),
            (280, 16, 1),
            (288, 16, 1),
            (296, 16, 1)
        ]
    );
    assert_eq!(representative_ratio(vec![3; 31]), None);
    let keys: Vec<i64> = (0..33).rev().collect();
    assert_eq!(representative_ratio(keys), Some(16));
}
