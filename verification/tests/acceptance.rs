use rapidraw_core::acceptance::aligned_length;
use rapidraw_core::acceptance::centered_cfa_probe;
use rapidraw_core::acceptance::check_digest;
use rapidraw_core::acceptance::check_fixture;
use rapidraw_core::acceptance::check_raw_file;
use rapidraw_core::acceptance::check_raw_properties;
use rapidraw_core::acceptance::check_source_bit_depth;
use rapidraw_core::acceptance::check_source_file;
use rapidraw_core::acceptance::fitted_dimensions;
use rapidraw_core::acceptance::judge_raw;
use rapidraw_core::acceptance::probe_frame;
use rapidraw_core::acceptance::raw_properties;
use rapidraw_core::acceptance::safe_component;
use rapidraw_core::acceptance::sample;
use rapidraw_core::acceptance::sampling_stride;
use rapidraw_core::acceptance::sha256_hex;
use rapidraw_core::acceptance::summarize_float_samples;
use rapidraw_core::acceptance::summarize_raw_samples;
use rapidraw_core::acceptance::summarize_samples;
use rapidraw_core::acceptance::validate_sony_a7_rv_scenario_coverage;
use rapidraw_core::acceptance::Authorization;
use rapidraw_core::acceptance::CameraIdentity;
use rapidraw_core::acceptance::Classification;
use rapidraw_core::acceptance::CoverageProblem;
use rapidraw_core::acceptance::Dimensions;
use rapidraw_core::acceptance::ExpectedRawProperties;
use rapidraw_core::acceptance::FileProblem;
use rapidraw_core::acceptance::Fixture;
use rapidraw_core::acceptance::FixtureProblem;
use rapidraw_core::acceptance::FrameProbe;
use rapidraw_core::acceptance::MosaicSummary;
use rapidraw_core::acceptance::RawFileProblem;
use rapidraw_core::acceptance::RawProblem;
use rapidraw_core::acceptance::RawProperties;
use rapidraw_core::raw_processing::CfaPattern;
use rapidraw_core::raw_processing::DecodedRaw;
use rapidraw_core::raw_processing::RawDescription;
use rapidraw_core::raw_processing::RawSamples;

const ABC: &str = "ba7816bf8f01cfea414140de5dae2223b00361a396177a9cb410ff61f20015ad";

fn fixture() -> Fixture {
    let size = |width, height| Dimensions { width, height };
    Fixture {
        id: String::from("sample"),
        camera: CameraIdentity {
            make: String::from("SONY"),
            model: String::from("ILCE-7RM5"),
        },
        capture_purpose: String::from("daylight"),
        original_filename: String::from("DSC00001.ARW"),
        byte_size: 3,
        sha256: String::from(ABC),
        source: String::from("own camera"),
        authorization: Authorization {
            scope: String::from("tests"),
            permission: String::from("owner"),
            redistribution: false,
        },
        expected_sensor_dimensions: size(8, 6),
        expected_output_dimensions: size(8, 6),
        expected_raw_properties: ExpectedRawProperties {
            source_bits_per_sample: 14,
            decoded_bits_per_sample: 16,
            cfa: String::from("RGGB"),
            compression: String::from("lossless"),
        },
        classification: Classification {
            real_camera_sample: true,
            image_quality_baseline: true,
            image_quality_scope: Some(String::from("daylight")),
            performance_baseline: String::from("none"),
        },
        covered_sony_a7_rv_scenarios: vec![String::from("high-dynamic-range")],
    }
}

fn raw() -> RawProperties {
    RawProperties {
        make: String::from("SONY"),
        model: String::from("ILCE-7RM5"),
        width: 8,
        height: 6,
        bits_per_sample: 16,
        components_per_pixel: 1,
        cfa: Some(String::from("RGGB")),
        white_balance_is_valid: true,
        color_matrix_count: 2,
        white_level: 16_383,
        cfa_width: 2,
        cfa_height: 2,
        samples: RawSamples::Integer((0..48).collect()),
    }
}

fn decoded() -> DecodedRaw {
    DecodedRaw {
        description: RawDescription {
            make: String::from("SONY"),
            model: String::from("ILCE-7RM5"),
            width: 8,
            height: 6,
            bits_per_sample: 16,
            components_per_pixel: 1,
            cfa: Some(CfaPattern {
                name: String::from("RGGB"),
                width: 2,
                height: 0,
            }),
            white_balance: [2.5f32, 1.0, 1.75, f32::NAN].map(f32::to_bits),
            white_levels: vec![16_383, 7],
            color_matrix_count: 2,
        },
        samples: RawSamples::Integer((0..48).collect()),
    }
}

/// A small linear DNG file without compression.
fn linear_dng(width: u32, height: u32) -> Vec<u8> {
    let bytes = width * height * 3 * 2;
    let entry = |tag: u16, kind: u16, count: u32, value: u32| (tag, kind, count, value);
    let count = 15u32;
    let bits_offset = 8 + 2 + count * 12 + 4;
    let data_offset = bits_offset + 8;
    let entries = [
        entry(254, 4, 1, 0),
        entry(256, 4, 1, width),
        entry(257, 4, 1, height),
        entry(258, 3, 3, bits_offset),
        entry(259, 3, 1, 1),
        entry(262, 3, 1, 34_892),
        entry(271, 2, 4, 0x0043_4241),
        entry(272, 2, 4, 0x0046_4544),
        entry(273, 4, 1, data_offset),
        entry(274, 3, 1, 1),
        entry(277, 3, 1, 3),
        entry(278, 4, 1, height),
        entry(279, 4, 1, bytes),
        entry(284, 3, 1, 1),
        entry(50_706, 1, 4, 0x0000_0401),
    ];
    let mut file = vec![b'I', b'I', 42, 0, 8, 0, 0, 0];
    file.extend_from_slice(&(entries.len() as u16).to_le_bytes());
    for (tag, kind, amount, value) in entries {
        file.extend_from_slice(&tag.to_le_bytes());
        file.extend_from_slice(&kind.to_le_bytes());
        file.extend_from_slice(&amount.to_le_bytes());
        file.extend_from_slice(&value.to_le_bytes());
    }
    file.extend_from_slice(&[0; 4]);
    for _ in 0..3 {
        file.extend_from_slice(&16u16.to_le_bytes());
    }
    file.extend_from_slice(&[0; 2]);
    file.extend(vec![0u8; bytes as usize]);
    file
}

#[test]
fn digests_are_written_in_lowercase_hexadecimal() {
    assert_eq!(sha256_hex(b"abc"), ABC);
    assert_eq!(
        sha256_hex(b""),
        "e3b0c44298fc1c149afbf4c8996fb92427ae41e4649b934ca495991b7852b855"
    );
}

#[test]
fn a_component_is_one_name_below_its_directory() {
    for name in ["a", "a.jpg", "...", "a/", "a/.", "a//./"] {
        assert!(safe_component(name, false), "{name}");
    }
    for name in ["", ".", "..", "/a", "a/b", "a/..", "../a"] {
        assert!(!safe_component(name, false), "{name}");
    }
}

#[test]
fn each_rule_for_fixtures_is_checked() {
    let broken = |change: &dyn Fn(&mut Fixture)| {
        let mut changed = fixture();
        change(&mut changed);
        check_fixture(&changed, false)
    };
    assert_eq!(check_fixture(&fixture(), false), None);
    assert_eq!(
        broken(&|f| f.id = String::from("a/b")),
        Some(FixtureProblem::UnsafeId)
    );
    assert_eq!(
        broken(&|f| f.original_filename = String::from("..")),
        Some(FixtureProblem::UnsafeFilename)
    );
    assert_eq!(
        broken(&|f| f.classification.real_camera_sample = false),
        Some(FixtureProblem::NotACameraSample)
    );
    assert_eq!(
        broken(&|f| f.camera.model = String::from("ILCE-7M4")),
        Some(FixtureProblem::WrongModel)
    );
    assert_eq!(
        broken(&|f| f.classification.image_quality_scope = Some(String::from(" \t"))),
        Some(FixtureProblem::NoScope)
    );
    assert_eq!(
        broken(&|f| f.covered_sony_a7_rv_scenarios.clear()),
        Some(FixtureProblem::NoScenario)
    );
    assert_eq!(
        broken(&|f| f.classification.image_quality_baseline = false),
        Some(FixtureProblem::ScenarioWithoutBaseline)
    );
    assert_eq!(
        broken(&|f| f.authorization.scope = String::new()),
        Some(FixtureProblem::NoAuthorizationScope)
    );
    assert_eq!(
        broken(&|f| f.authorization.permission = String::from(" ")),
        Some(FixtureProblem::NoPermission)
    );
    assert_eq!(
        broken(&|f| f.source = String::from("\n")),
        Some(FixtureProblem::NoSource)
    );
    assert_eq!(
        broken(&|f| f.expected_raw_properties.compression = String::new()),
        Some(FixtureProblem::NoCompression)
    );
}

#[test]
fn a_changed_file_is_noticed() {
    assert_eq!(check_source_file(&fixture(), b"abc"), Ok(String::from(ABC)));
    assert_eq!(
        check_source_file(&fixture(), b"abcd"),
        Err(FileProblem::SizeChanged)
    );
    assert_eq!(
        check_source_file(&fixture(), b"abd"),
        Err(FileProblem::DigestChanged)
    );
    assert_eq!(
        check_digest(&fixture(), 3, String::from("0")),
        Err(FileProblem::DigestChanged)
    );
}

#[test]
fn white_levels_use_the_upper_half_of_their_bits() {
    assert_eq!(check_source_bit_depth(14, 16_383), None);
    assert_eq!(check_source_bit_depth(14, 8_192), None);
    assert_eq!(
        check_source_bit_depth(14, 8_191),
        Some(RawProblem::WhiteLevel)
    );
    assert_eq!(
        check_source_bit_depth(14, 16_384),
        Some(RawProblem::WhiteLevel)
    );
    assert_eq!(check_source_bit_depth(0, 1), Some(RawProblem::SourceBits));
    assert_eq!(check_source_bit_depth(32, 1), Some(RawProblem::SourceBits));
    assert_eq!(check_source_bit_depth(1, 1), None);
}

#[test]
fn each_expectation_of_a_decoded_file_is_checked() {
    let broken = |change: &dyn Fn(&mut RawProperties)| {
        let mut changed = raw();
        change(&mut changed);
        check_raw_properties(&fixture(), &changed)
    };
    assert_eq!(check_raw_properties(&fixture(), &raw()), None);
    assert_eq!(
        broken(&|r| r.make = String::from("Sony")),
        Some(RawProblem::Make)
    );
    assert_eq!(broken(&|r| r.model.clear()), Some(RawProblem::Model));
    assert_eq!(
        broken(&|r| r.height = 7),
        Some(RawProblem::SensorDimensions)
    );
    assert_eq!(
        broken(&|r| r.bits_per_sample = 14),
        Some(RawProblem::DecodedBits)
    );
    assert_eq!(
        broken(&|r| r.components_per_pixel = 3),
        Some(RawProblem::Components)
    );
    assert_eq!(broken(&|r| r.cfa = None), Some(RawProblem::NoMosaic));
    assert_eq!(
        broken(&|r| r.cfa = Some(String::from("BGGR"))),
        Some(RawProblem::Cfa)
    );
    assert_eq!(
        broken(&|r| r.white_balance_is_valid = false),
        Some(RawProblem::WhiteBalance)
    );
    assert_eq!(
        broken(&|r| r.color_matrix_count = 0),
        Some(RawProblem::NoColorMatrix)
    );
    assert_eq!(
        broken(&|r| r.white_level = 100),
        Some(RawProblem::WhiteLevel)
    );
    let mut unrecorded = fixture();
    unrecorded.expected_raw_properties.source_bits_per_sample = 0;
    assert_eq!(
        check_raw_properties(&unrecorded, &raw()),
        Some(RawProblem::SourceBitsNotRecorded)
    );
    unrecorded.expected_raw_properties.source_bits_per_sample = 40;
    assert_eq!(
        check_raw_properties(&unrecorded, &raw()),
        Some(RawProblem::SourceBits)
    );
}

#[test]
fn a_probe_starts_on_a_whole_period_in_the_middle() {
    assert_eq!(aligned_length(7, 2), 6);
    assert_eq!(aligned_length(6, 3), 6);
    let values: Vec<u16> = (0..80).collect();
    let probe = centered_cfa_probe(&values, 10, 8, 1, 2, 2, 5);
    assert_eq!((probe.width, probe.height), (4, 4));
    assert_eq!((probe.origin_x, probe.origin_y), (2, 2));
    assert_eq!(probe.values[0], 22);
    assert_eq!(probe.values[15], 55);
    let whole = centered_cfa_probe(&values, 10, 8, 1, 1, 1, 512);
    assert_eq!(whole.values, values);
}

#[test]
fn samples_are_drawn_at_the_multiples_of_the_stride() {
    assert_eq!(sampling_stride(0), 1);
    assert_eq!(sampling_stride(262_144), 1);
    assert_eq!(sampling_stride(262_145), 2);
    assert_eq!(sample(&vec![10, 11, 12, 13, 14], 2), vec![10, 12, 14]);
    assert!(sample::<u8>(&vec![], 3).is_empty());
}

#[test]
fn a_summary_holds_extremes_sum_and_digest() {
    let summary = summarize_samples(&vec![0x6261, 0x0063]);
    assert_eq!((summary.min, summary.max), (Some(0x63), Some(0x6261)));
    assert_eq!(summary.sum, 0x6261 + 0x63);
    assert_eq!(summary.values, 2);
    assert_eq!(summary.sha256, sha256_hex(b"abc\0"));
    let nothing = summarize_samples(&vec![]);
    assert_eq!((nothing.values, nothing.sum, nothing.min, nothing.max), (0, 0, None, None));
    assert_eq!(nothing.sha256, sha256_hex(b""));
}

const SCENARIOS: [&str; 8] = [
    "daylight",
    "tungsten",
    "high-iso",
    "underexposed",
    "saturated-light",
    "lossy-arw",
    "lossless-l-arw",
    "uncompressed-arw",
];

fn names(list: &[&str]) -> Vec<String> {
    list.iter().map(|name| String::from(*name)).collect()
}

#[test]
fn every_scenario_is_covered_or_deferred() {
    assert_eq!(
        validate_sony_a7_rv_scenario_coverage(&names(&SCENARIOS[2..]), &names(&["tungsten", "daylight"])),
        Ok(names(&["daylight", "tungsten"]))
    );
    assert_eq!(
        validate_sony_a7_rv_scenario_coverage(&names(&SCENARIOS), &vec![]),
        Ok(vec![])
    );
}

#[test]
fn each_fault_of_the_coverage_is_reported() {
    let check = |deferred: &[&str], covered: &[&str]| {
        validate_sony_a7_rv_scenario_coverage(&names(deferred), &names(covered)).unwrap_err()
    };
    assert_eq!(
        check(&["daylight", "daylight"], &["nonsense"]),
        CoverageProblem::DeferredTwice
    );
    assert_eq!(
        check(&SCENARIOS[1..], &["daylight", "nonsense"]),
        CoverageProblem::Unknown(1)
    );
    assert_eq!(
        check(&SCENARIOS[1..], &["daylight", "daylight"]),
        CoverageProblem::CoveredTwice(1)
    );
    assert_eq!(
        check(&SCENARIOS, &["daylight"]),
        CoverageProblem::StillDeferred
    );
    assert_eq!(
        check(&SCENARIOS[2..], &["daylight"]),
        CoverageProblem::Unaccounted
    );
    assert_eq!(
        check(&["daylight", "nonsense"], &[]),
        CoverageProblem::Unaccounted
    );
}

#[test]
fn previews_fit_into_their_edge() {
    let size = |width: u32, height: u32| Dimensions { width, height };
    assert_eq!(fitted_dimensions(800, 600, 2048), size(800, 600));
    assert_eq!(fitted_dimensions(9504, 6336, 2048), size(2048, 1365));
    assert_eq!(fitted_dimensions(6336, 9504, 2048), size(1365, 2048));
    assert_eq!(fitted_dimensions(3, 1, 2), size(2, 1));
    assert_eq!(fitted_dimensions(5, 7, 0), size(0, 0));
}

#[test]
fn what_a_decoder_finds_is_reported() {
    let found = raw_properties(decoded());
    assert_eq!((found.width, found.height), (8, 6));
    assert_eq!((found.cfa_width, found.cfa_height), (2, 1));
    assert_eq!(found.cfa, Some(String::from("RGGB")));
    assert_eq!(found.white_level, 16_383);
    assert!(found.white_balance_is_valid);
    for bad in [0.0f32, -1.0, f32::INFINITY, f32::NAN] {
        let mut raw = decoded();
        raw.description.white_balance[2] = bad.to_bits();
        assert!(!raw_properties(raw).white_balance_is_valid, "{bad}");
    }
    let mut bare = decoded();
    bare.description.cfa = None;
    bare.description.white_levels.clear();
    let bare = raw_properties(bare);
    assert_eq!((bare.cfa_width, bare.cfa_height), (1, 1));
    assert_eq!(bare.white_level, u32::MAX);
    assert!(judge_raw(&fixture(), Some(decoded())).is_ok());
    assert!(matches!(judge_raw(&fixture(), None), Err(RawFileProblem::NotDecoded)));
}

#[test]
fn a_raw_file_is_decoded_and_judged() {
    let file = linear_dng(80, 40);
    let mut expected = fixture();
    expected.byte_size = file.len() as u64;
    expected.sha256 = sha256_hex(&file);
    let problem = |fixture: &Fixture, file: &[u8]| check_raw_file(fixture, file, false).err();
    assert_eq!(problem(&expected, &file), Some(RawFileProblem::Raw(RawProblem::Make)));
    expected.camera.make = String::from("ABC");
    assert_eq!(problem(&expected, &file), Some(RawFileProblem::Raw(RawProblem::Model)));
    expected.classification.image_quality_baseline = false;
    expected.covered_sony_a7_rv_scenarios.clear();
    expected.camera.model = String::from("DEF");
    expected.expected_sensor_dimensions = Dimensions { width: 80, height: 41 };
    assert_eq!(
        problem(&expected, &file),
        Some(RawFileProblem::Raw(RawProblem::SensorDimensions))
    );
    expected.expected_sensor_dimensions.height = 40;
    expected.expected_raw_properties.decoded_bits_per_sample = 16;
    assert_eq!(problem(&expected, &file), Some(RawFileProblem::Raw(RawProblem::Components)));

    assert_eq!(
        problem(&expected, &file[1..]),
        Some(RawFileProblem::File(FileProblem::SizeChanged))
    );
    let text = vec![7u8; file.len()];
    assert_eq!(
        problem(&expected, &text),
        Some(RawFileProblem::File(FileProblem::DigestChanged))
    );
    expected.sha256 = sha256_hex(&text);
    assert_eq!(problem(&expected, &text), Some(RawFileProblem::NotDecoded));
    expected.id = String::from("a/b");
    assert_eq!(
        problem(&expected, &text),
        Some(RawFileProblem::Fixture(FixtureProblem::UnsafeId))
    );
}

#[test]
fn names_follow_the_rules_of_the_system() {
    assert!(safe_component("a\\b", false));
    assert!(!safe_component("a\\b", true));
    assert!(!safe_component("C:", true));
    assert!(safe_component("C:", false));
}

#[test]
fn frames_are_summarised_and_probed() {
    match summarize_raw_samples(&raw().samples) {
        Some(MosaicSummary::Integer(found)) => {
            assert_eq!((found.min, found.max), (Some(0), Some(47)));
            assert_eq!((found.values, found.sum), (48, 1128));
        }
        _ => panic!("the samples are whole numbers"),
    }
    assert!(matches!(
        summarize_raw_samples(&RawSamples::Integer(vec![])),
        Some(MosaicSummary::Integer(_))
    ));
    let bits = vec![u32::from_le_bytes(*b"abc\0"), (-1.5f32).to_bits()];
    let found = summarize_float_samples(&bits).unwrap();
    assert_eq!(found.values, 2);
    assert_eq!(found.sha256, sha256_hex(b"abc\0\0\0\xc0\xbf"));
    assert_eq!((found.min, found.max), (Some(bits[1]), Some(bits[0])));
    let signed = [-0.5f32, 3.0, -8.0, 0.0].map(f32::to_bits).to_vec();
    let found = summarize_float_samples(&signed).unwrap();
    assert_eq!((found.min, found.max), (Some(signed[2]), Some(signed[1])));
    assert_eq!(summarize_float_samples(&vec![]).unwrap().min, None);
    assert!(summarize_float_samples(&vec![f32::NEG_INFINITY.to_bits()]).is_none());
    assert!(summarize_raw_samples(&RawSamples::Float(vec![f32::NAN.to_bits()])).is_none());

    match probe_frame(&raw()) {
        Some(FrameProbe::Integer(probe)) => {
            assert_eq!((probe.width, probe.height), (8, 6));
            assert_eq!(probe.values[47], 47);
        }
        _ => panic!("the frame can be probed"),
    }
    let mut long = raw();
    long.samples = RawSamples::Integer((0..60).collect());
    match probe_frame(&long) {
        Some(FrameProbe::Integer(probe)) => assert_eq!(probe.values, (0..48).collect::<Vec<u16>>()),
        _ => panic!("samples behind the frame change nothing"),
    }
    let mut short = raw();
    short.samples = RawSamples::Float(vec![0; 47]);
    assert!(probe_frame(&short).is_none());
}
