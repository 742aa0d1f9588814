use image::GrayImage;
use imageproc::corners::corners_fast9;
use rapidraw_core::descriptors::generate_brief_pairs;
use rapidraw_core::descriptors::pack_descriptor;
use rapidraw_core::descriptors::pair_radius;
use rapidraw_core::descriptors::pairs_from_numbers;
use rapidraw_core::descriptors::patch_fits;
use rapidraw_core::descriptors::select_features;
use rapidraw_core::descriptors::BriefPair;
use rapidraw_core::descriptors::PatchPoint;
use rapidraw_core::features::calculate_downscale_dimensions;
use rapidraw_core::features::calculate_downscale_dimensions_capped;
use rapidraw_core::features::find_keypoints;
use rapidraw_core::features::keypoint_on_image;
use rapidraw_core::features::non_maximal_suppression;
use rapidraw_core::features::normalize_grayscale;
use rapidraw_core::features::Downscaled;
use rapidraw_core::features::KeyPoint;
use rapidraw_core::matching::count_mutual_descriptor_matches_with_ratio;
use rapidraw_core::matching::hamming_distance;
use rapidraw_core::matching::match_features;
use rapidraw_core::matching::match_features_with_ratio;
use rapidraw_core::matching::match_features_with_ratio_and_scale;
use rapidraw_core::matching::Feature;
use rapidraw_core::matching::Ratio;
use rapidraw_core::ransac::best_trial;
use rapidraw_core::ransac::least_inliers;
use rapidraw_core::ransac::trial_samples;
use rapidraw_core::ransac::trial_seed;
use rapidraw_core::raster::Raster;

fn feature(descriptor: [u8; 32]) -> Feature {
    Feature {
        keypoint: KeyPoint { x: 0, y: 0 },
        descriptor,
    }
}

#[test]
fn cached_distance_matrix_preserves_mutual_ratio_matches() {
    let source = vec![feature([0; 32]), feature([u8::MAX; 32])];
    let mut near_zero = [0; 32];
    near_zero[0] = 1;
    let mut near_max = [u8::MAX; 32];
    near_max[0] = u8::MAX - 1;
    let target = vec![feature(near_zero), feature(near_max)];

    let matches = match_features(&source, &target);
    assert_eq!(matches.len(), 2);
    assert_eq!((matches[0].index1, matches[0].index2), (0, 0));
    assert_eq!((matches[1].index1, matches[1].index2), (1, 1));
}

#[test]
fn distances_count_differing_bits_both_ways() {
    let mut other = [0u8; 32];
    other[3] = 0b1011;
    other[31] = 0x80;
    let (a, b) = (feature([0; 32]), feature(other));
    assert_eq!(hamming_distance(&a, &b), 4);
    assert_eq!(hamming_distance(&b, &a), 4);
    assert_eq!(hamming_distance(&b, &b), 0);
    assert_eq!(hamming_distance(&a, &feature([255; 32])), 256);
}

#[test]
fn an_unclear_match_is_dropped() {
    let mut near = [0u8; 32];
    near[0] = 0b0000_1111;
    let mut far = [0u8; 32];
    far[0] = 0b0001_1111;
    let source = vec![feature([0; 32])];
    let target = vec![feature(near), feature(far)];
    let ratio = |numerator, denominator| Ratio {
        numerator,
        denominator,
    };
    assert!(match_features_with_ratio(&source, &target, ratio(4, 5)).is_empty());
    assert_eq!(
        match_features_with_ratio(&source, &target, ratio(9, 10)).len(),
        1
    );
    assert_eq!(
        count_mutual_descriptor_matches_with_ratio(&source, &target, ratio(9, 10)),
        1
    );
    assert_eq!(
        count_mutual_descriptor_matches_with_ratio(&source, &target, ratio(4, 5)),
        0
    );
}

#[test]
fn only_allowed_features_are_matched() {
    let mut one = [0u8; 32];
    one[0] = 1;
    let source = vec![feature([0; 32])];
    let target = vec![feature([0; 32]), feature(one)];
    let ratio = Ratio {
        numerator: 9,
        denominator: 10,
    };
    let matches =
        match_features_with_ratio_and_scale(&source, &target, ratio, &vec![vec![false, true]]);
    assert_eq!(matches.len(), 1);
    assert_eq!(matches[0].index2, 1);
    assert!(
        match_features_with_ratio_and_scale(&source, &target, ratio, &vec![vec![false, false]])
            .is_empty()
    );
}

#[test]
fn the_longer_side_is_cut_to_the_maximum() {
    assert_eq!(
        calculate_downscale_dimensions(2400, 100),
        Downscaled {
            width: 2400,
            height: 100,
            scale_numerator: 1,
            scale_denominator: 1
        }
    );
    let scaled = calculate_downscale_dimensions_capped(9504, 6336, 2400);
    assert_eq!((scaled.width, scaled.height), (2400, 1600));
    assert_eq!((scaled.scale_numerator, scaled.scale_denominator), (9504, 2400));
    let scaled = calculate_downscale_dimensions_capped(3, 1000, 100);
    assert_eq!((scaled.width, scaled.height), (0, 100));
}

#[test]
fn grey_values_are_stretched_over_the_whole_range() {
    let image = Raster {
        width: 3,
        height: 1,
        pixels: vec![50, 100, 75],
    };
    assert_eq!(normalize_grayscale(&image).pixels, vec![0, 255, 128]);
    let flat = Raster {
        width: 2,
        height: 1,
        pixels: vec![9, 9],
    };
    assert_eq!(normalize_grayscale(&flat).pixels, vec![9, 9]);
}

#[test]
fn better_corners_suppress_their_neighbours() {
    let corners = vec![(10, 10, 5), (12, 10, 9), (30, 30, 1), (30, 34, 1)];
    let points = non_maximal_suppression(&corners, 16);
    let found: Vec<(u32, u32)> = points.iter().map(|point| (point.x, point.y)).collect();
    assert_eq!(found, vec![(12, 10), (30, 30), (30, 34)]);
    let points = non_maximal_suppression(&corners, 17);
    assert_eq!(points.len(), 2);
    for (i, a) in points.iter().enumerate() {
        for b in &points[i + 1..] {
            let (dx, dy) = (a.x as i64 - b.x as i64, a.y as i64 - b.y as i64);
            assert!(dx * dx + dy * dy >= 17);
        }
    }
}

#[test]
fn keypoints_are_the_corners_of_the_detector() {
    let image = GrayImage::from_fn(40, 40, |x, y| {
        image::Luma([if (12..28).contains(&x) && (12..28).contains(&y) {
            220
        } else {
            20
        }])
    });
    let mut expected: Vec<(u32, u32)> = corners_fast9(&image, 30)
        .iter()
        .map(|corner| (corner.x, corner.y))
        .collect();
    assert!(!expected.is_empty());
    let raster = Raster {
        width: 40,
        height: 40,
        pixels: image.into_raw(),
    };
    let mut found: Vec<(u32, u32)> = find_keypoints(&raster, 30, 1)
        .iter()
        .map(|point| (point.x, point.y))
        .collect();
    expected.sort();
    found.sort();
    assert_eq!(found, expected);
    assert!(find_keypoints(&raster, 30, 10_000).len() == 1);
    assert!(find_keypoints(&raster, 250, 1).is_empty());
}

#[test]
fn four_numbers_make_a_pair() {
    let pairs = pairs_from_numbers(&vec![1, 2, 3, 4, 5]);
    let point = |x, y| PatchPoint { x, y };
    assert_eq!(
        pairs,
        vec![BriefPair {
            first: point(1, 2),
            second: point(3, 4)
        }]
    );
}

#[test]
fn the_pairs_lie_in_the_patch_and_differ() {
    let pairs = generate_brief_pairs();
    assert_eq!(pairs.len(), 256);
    for pair in &pairs {
        for point in [pair.first, pair.second] {
            assert!((-16..16).contains(&point.x) && (-16..16).contains(&point.y));
        }
    }
    assert!(pairs.iter().any(|pair| *pair != pairs[0]));
    assert_eq!(pairs, generate_brief_pairs());
}

#[test]
fn the_radius_holds_every_turn_of_the_pairs() {
    let pair = |x, y| BriefPair {
        first: PatchPoint { x, y },
        second: PatchPoint { x: 0, y: 0 },
    };
    assert_eq!(pair_radius(&vec![], 32), 17);
    assert_eq!(pair_radius(&vec![pair(16, 16)], 32), 24);
    assert_eq!(pair_radius(&vec![pair(3, 4)], 2), 6);
    let point = KeyPoint { x: 24, y: 30 };
    assert!(patch_fits(point, 24, 100, 100));
    assert!(!patch_fits(point, 25, 100, 100));
    assert!(!patch_fits(point, 24, 48, 100));
}

#[test]
fn bits_of_a_descriptor_count_from_the_lowest() {
    let mut darker = vec![false; 256];
    darker[0] = true;
    darker[9] = true;
    darker[255] = true;
    let descriptor = pack_descriptor(&darker);
    assert_eq!(descriptor[0], 1);
    assert_eq!(descriptor[1], 2);
    assert_eq!(descriptor[31], 128);
    assert_eq!(descriptor[2..31].iter().filter(|&&byte| byte != 0).count(), 0);
}

#[test]
fn free_places_are_taken_up_by_other_levels() {
    let levels = vec![vec![1, 2, 3, 4, 5], vec![11, 12], vec![21]];
    assert_eq!(select_features(&levels, 5).len(), 5);
    assert_eq!(select_features(&levels, 100).len(), 8);
    assert_eq!(select_features(&vec![vec![1, 2, 3]], 2), vec![1, 2]);
}

#[test]
fn samples_hold_different_positions() {
    assert!(trial_samples(3).is_none());
    let samples = trial_samples(6).unwrap();
    assert_eq!(samples.len(), 2500);
    for sample in &samples {
        assert_eq!(sample.len(), 4);
        for (i, a) in sample.iter().enumerate() {
            assert!(*a < 6);
            assert!(!sample[i + 1..].contains(a));
        }
    }
    assert!(samples.iter().any(|sample| *sample != samples[0]));
    assert_eq!(samples, trial_samples(6).unwrap());
}

#[test]
fn the_seed_follows_from_the_number_of_points() {
    assert_eq!(trial_seed(0), 0x9E37_79B9_7F4A_7C15);
    assert_eq!(
        trial_seed(1),
        0x9E37_79B9_7F4A_7C15 ^ 0xD6E8_FEB8_6659_FD93
    );
    assert_eq!(
        trial_seed(7),
        0x9E37_79B9_7F4A_7C15 ^ 0xD6E8_FEB8_6659_FD93u64.wrapping_mul(7)
    );
}

#[test]
fn the_first_trial_with_most_agreement_wins() {
    assert_eq!(best_trial(&vec![Some(5), None, Some(9), Some(9)], 6), Some(2));
    assert_eq!(best_trial(&vec![Some(5), None], 6), None);
    assert_eq!(best_trial(&vec![], 1), None);
    assert_eq!(least_inliers(0), 4);
    assert_eq!(least_inliers(15), 15);
}

#[test]
fn points_of_a_copy_stand_for_points_of_the_image() {
    let point = |x, y| KeyPoint { x, y };
    assert_eq!(keypoint_on_image(point(10, 20), 50, 40, 100, 100), point(20, 50));
    assert_eq!(keypoint_on_image(point(1, 39), 3, 40, 100, 10), point(33, 9));
    assert_eq!(keypoint_on_image(point(7, 8), 50, 40, 50, 40), point(7, 8));
}
