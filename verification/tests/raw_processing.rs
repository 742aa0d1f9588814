use rapidraw_core::raw_processing::expand_monochrome;
use rapidraw_core::raw_processing::as_shot_white;
use rapidraw_core::raw_processing::choose_white;
use rapidraw_core::raw_processing::get_fast_demosaic_scale_factor;
use rapidraw_core::raw_processing::keeps_step;
use rapidraw_core::raw_processing::open_white_levels;
use rapidraw_core::raw_processing::parse_linear_mode;
use rapidraw_core::raw_processing::plan_development;
use rapidraw_core::raw_processing::prepare_development;
use rapidraw_core::raw_processing::preview_scale;
use rapidraw_core::raw_processing::scale_factor_for_frame;
use rapidraw_core::raw_processing::DevelopStep;
use rapidraw_core::raw_processing::DevelopmentEvidence;
use rapidraw_core::raw_processing::LinearMode;
use rapidraw_core::raw_processing::PreviewScale;
use rapidraw_core::raw_processing::WhiteEvidence;
use std::mem::size_of;

#[test]
fn zero_copy_raw_handoff_removes_60mp_rgba_expansion() {
    const WIDTH: u64 = 9_504;
    const HEIGHT: u64 = 6_336;
    const RGB32F_BYTES: u64 = 722_608_128;
    const RGBA32F_BYTES: u64 = 963_477_504;

    let pixels = WIDTH * HEIGHT;
    assert_eq!(pixels * 3 * size_of::<f32>() as u64, RGB32F_BYTES);
    assert_eq!(pixels * 4 * size_of::<f32>() as u64, RGBA32F_BYTES);
    assert_eq!(RGB32F_BYTES + RGBA32F_BYTES, 1_686_085_632);
    assert_eq!(RGB32F_BYTES + RGBA32F_BYTES - RGB32F_BYTES, RGBA32F_BYTES);
    assert_eq!(RGBA32F_BYTES - RGB32F_BYTES, 240_869_376);
}

#[test]
fn monochrome_values_become_three_equal_channels() {
    assert_eq!(
        expand_monochrome(&vec![0.2f32, 0.7]),
        vec![0.2, 0.2, 0.2, 0.7, 0.7, 0.7]
    );
    assert!(expand_monochrome::<f32>(&vec![]).is_empty());
}

#[test]
fn linear_settings_choose_tone_curve_and_calibration() {
    let mode = |apply_ungamma, apply_calibration| LinearMode {
        apply_ungamma,
        apply_calibration,
    };
    assert_eq!(parse_linear_mode("gamma"), mode(true, true));
    assert_eq!(parse_linear_mode("skip_calib"), mode(false, false));
    assert_eq!(parse_linear_mode("gamma_skip_calib"), mode(true, false));
    assert_eq!(parse_linear_mode("default"), mode(false, true));
}

#[test]
fn linear_files_skip_what_they_do_not_need() {
    assert!(!keeps_step(DevelopStep::SRgb, false, true));
    assert!(keeps_step(DevelopStep::Demosaic, false, true));
    assert!(!keeps_step(DevelopStep::Demosaic, true, true));
    assert!(keeps_step(DevelopStep::Calibrate, true, true));
    assert!(!keeps_step(DevelopStep::Calibrate, true, false));
    assert!(keeps_step(DevelopStep::Calibrate, false, false));
    assert!(keeps_step(DevelopStep::WhiteBalance, true, false));
}

#[test]
fn white_levels_are_opened_and_the_first_is_remembered() {
    let mut levels = vec![16_383, 15_000];
    assert_eq!(open_white_levels(&mut levels), 16_383);
    assert_eq!(levels, vec![u32::MAX, u32::MAX]);
    let mut none = vec![];
    assert_eq!(open_white_levels(&mut none), 65_535);
    assert!(none.is_empty());
}

#[test]
fn preview_edges_decide_the_scale() {
    assert_eq!(preview_scale(1000, 500, 100, 50), PreviewScale::Full);
    assert_eq!(preview_scale(1000, 500, 101, 50), PreviewScale::Quarter);
    assert_eq!(preview_scale(1000, 500, 349, 50), PreviewScale::Quarter);
    assert_eq!(preview_scale(1000, 500, 350, 50), PreviewScale::Half);
    assert_eq!(preview_scale(1000, 500, 20, 749), PreviewScale::Half);
    assert_eq!(preview_scale(1000, 500, 750, 50), PreviewScale::Full);
    assert_eq!(preview_scale(0, 0, 10, 10), PreviewScale::Full);
    assert_eq!(scale_factor_for_frame(Some((500, 1000)), 50, 350), PreviewScale::Half);
    assert_eq!(scale_factor_for_frame(None, 50, 350), PreviewScale::Full);
}

/// A small linear DNG file without compression.
fn linear_dng(width: u32, height: u32) -> Vec<u8> {
    let bytes = width * height * 3 * 2;
    let entry = |tag: u16, kind: u16, count: u32, value: u32| (tag, kind, count, value);
    let count = 15u32;
    let bits_offset = 8 + 2 + count * 12 + 4;
    let data_offset = bits_offset + 8;
    let entries = [
        entry(254, 4, 1, 0),
        entry(256, 4, 1, width),
        entry(257, 4, 1, height),
        entry(258, 3, 3, bits_offset),
        entry(259, 3, 1, 1),
        entry(262, 3, 1, 34_892),
        entry(271, 2, 4, 0x0043_4241),
        entry(272, 2, 4, 0x0046_4544),
        entry(273, 4, 1, data_offset),
        entry(274, 3, 1, 1),
        entry(277, 3, 1, 3),
        entry(278, 4, 1, height),
        entry(279, 4, 1, bytes),
        entry(284, 3, 1, 1),
        entry(50_706, 1, 4, 0x0000_0401),
    ];
    let mut file = vec![b'I', b'I', 42, 0, 8, 0, 0, 0];
    file.extend_from_slice(&(entries.len() as u16).to_le_bytes());
    for (tag, kind, amount, value) in entries {
        file.extend_from_slice(&tag.to_le_bytes());
        file.extend_from_slice(&kind.to_le_bytes());
        file.extend_from_slice(&amount.to_le_bytes());
        file.extend_from_slice(&value.to_le_bytes());
    }
    file.extend_from_slice(&[0; 4]);
    for _ in 0..3 {
        file.extend_from_slice(&16u16.to_le_bytes());
    }
    file.extend_from_slice(&[0; 2]);
    file.extend(vec![0u8; bytes as usize]);
    file
}

#[test]
fn the_frame_of_a_file_decides_the_scale_of_its_preview() {
    let file = linear_dng(80, 40);
    assert_eq!(
        get_fast_demosaic_scale_factor(&file, 20, 10),
        PreviewScale::Quarter
    );
    assert_eq!(
        get_fast_demosaic_scale_factor(&file, 40, 20),
        PreviewScale::Half
    );
    assert_eq!(
        get_fast_demosaic_scale_factor(&file, 80, 40),
        PreviewScale::Full
    );
}

#[test]
fn a_file_that_cannot_be_decoded_counts_as_not_scaled() {
    assert_eq!(
        get_fast_demosaic_scale_factor(&[1, 2, 3, 4], 20, 10),
        PreviewScale::Full
    );
}

fn evidence(d65: Option<Vec<u32>>, other: Option<Vec<u32>>) -> Option<WhiteEvidence> {
    Some(WhiteEvidence {
        coefficients: [2.0f32, 1.0, 1.5, f32::NAN].map(f32::to_bits),
        d65,
        other,
    })
}

#[test]
fn daylight_is_preferred_for_the_white_of_a_file() {
    let white = choose_white(evidence(Some(vec![1; 9]), Some(vec![2; 12]))).unwrap();
    assert_eq!(white.matrix, vec![1; 9]);
    assert_eq!(white.coefficients[0], 2.0f32.to_bits());
    let other = choose_white(evidence(None, Some(vec![2; 12]))).unwrap();
    assert_eq!(other.matrix, vec![2; 12]);
    assert!(choose_white(evidence(Some(vec![1; 8]), Some(vec![2; 12]))).is_none());
    assert!(choose_white(evidence(None, None)).is_none());
    assert!(choose_white(None).is_none());
    for bad in [0.0f32, -1.0, f32::INFINITY, f32::NAN] {
        let mut found = evidence(Some(vec![1; 9]), None).unwrap();
        found.coefficients[1] = bad.to_bits();
        assert!(choose_white(Some(found)).is_none(), "{bad}");
    }
    assert!(as_shot_white(&[1, 2, 3]).is_none());
}

#[test]
fn a_development_follows_from_the_file_and_the_setting() {
    let bayer = DevelopmentEvidence {
        is_linear: false,
        white_levels: vec![16_383, 16_000],
        black_level: Some(512.0f32.to_bits()),
    };
    let plan = plan_development(bayer, "skip_calib");
    assert_eq!(
        plan.steps,
        vec![
            DevelopStep::Rescale,
            DevelopStep::Demosaic,
            DevelopStep::FujiRotate,
            DevelopStep::CropActiveArea,
            DevelopStep::WhiteBalance,
            DevelopStep::Calibrate,
            DevelopStep::CropDefault,
        ]
    );
    assert_eq!((plan.white_level, plan.opened_levels), (16_383, vec![u32::MAX; 2]));
    assert_eq!(plan.black_level, 512.0f32.to_bits());
    assert!(!plan.is_linear && !plan.mode.apply_calibration);

    let linear = DevelopmentEvidence {
        is_linear: true,
        white_levels: vec![],
        black_level: None,
    };
    let plan = plan_development(linear, "skip_calib");
    assert!(!plan.steps.contains(&DevelopStep::Demosaic));
    assert!(!plan.steps.contains(&DevelopStep::Calibrate));
    assert_eq!((plan.white_level, plan.black_level), (0xffff, 0));
}

#[test]
fn a_decoded_file_is_prepared_for_its_development() {
    let prepared = prepare_development(&linear_dng(80, 40), "gamma").unwrap();
    assert!(prepared.plan.is_linear && prepared.plan.mode.apply_ungamma);
    assert_eq!((prepared.image.width, prepared.image.height), (80, 40));
    assert!(prepared.plan.opened_levels.iter().all(|level| *level == u32::MAX));
    assert_eq!(prepared.plan.steps.len(), 6);
    assert!(prepare_development(&[1, 2, 3], "gamma").is_none());
}
