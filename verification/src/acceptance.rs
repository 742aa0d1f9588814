//! The rules of the RAW acceptance run: which fixtures are accepted, how samples are
//! drawn from a frame, and what identifies a file.

use sha2::Digest;
use vstd::arithmetic::power2::lemma2_to64;
use vstd::arithmetic::power2::lemma_pow2_strictly_increases;
use vstd::arithmetic::power2::pow2;
use vstd::prelude::*;

use crate::features::Downscaled;
use crate::features::calculate_downscale_dimensions_capped;
use crate::features::law_scaled_lengths_are_nearest;
use crate::features::longer;
use crate::features::rounded_ratio;
use crate::paths::is_plain_name;
use crate::paths::plain_name;
use crate::raw_processing::DecodedRaw;
use crate::raw_processing::RawDescription;
use crate::raw_processing::RawSamples;
use crate::raw_processing::decode_raw;
use crate::raw_processing::is_finite_number;
use crate::raw_processing::is_positive;
use crate::raw_processing::is_positive_number;
use crate::text::blank;
use crate::text::holds_text;
use crate::text::insert_text;
use crate::text::is_ascending;
use crate::text::is_blank;
use crate::text::same_text;
use crate::text::texts;
use crate::tiles::encode_tile;
use crate::tiles::tile_bytes;

verus! {

/// The edge of the square that is probed in the middle of a frame.
pub const PROBE_EDGE: usize = 512;

/// No more than about this many values of a frame are sampled.
pub const MAX_SAMPLED_PIXELS: usize = 262_144;

/// The SHA-256 digest of some bytes.
pub uninterp spec fn sha256_digest(bytes: Seq<u8>) -> Seq<u8>;

/// Calls `Sha256::digest`, whose result has 32 bytes. Which bytes they are is named
/// and not stated.
#[verifier::external_body]
fn digest(bytes: &[u8]) -> (digest: Vec<u8>)
    ensures
        digest@ == sha256_digest(bytes@),
        digest@.len() == 32,
{
    sha2::Sha256::digest(bytes).to_vec()
}

/// A lowercase hexadecimal digit.
pub open spec fn hex_digit(value: int) -> char {
    if value < 10 {
        ('0' as u32 + value) as char
    } else {
        ('a' as u32 + (value - 10)) as char
    }
}

/// Two lowercase digits for every byte, the higher half of the byte first.
pub open spec fn hex_text(bytes: Seq<u8>) -> Seq<char> {
    Seq::new(
        bytes.len() * 2,
        |i: int|
            hex_digit(
                if i % 2 == 0 {
                    bytes[i / 2] as int / 16
                } else {
                    bytes[i / 2] as int % 16
                },
            ),
    )
}

/// Calls `hex::encode`, which writes every byte as two lowercase hexadecimal digits.
#[verifier::external_body]
fn encode_hex(bytes: &Vec<u8>) -> (text: String)
    ensures
        text@ == hex_text(bytes@),
{
    hex::encode(bytes)
}

/// The digest of some bytes as text.
pub fn sha256_hex(bytes: &[u8]) -> (text: String)
    ensures
        text@ == hex_text(sha256_digest(bytes@)),
        text@.len() == 64,
{
    encode_hex(&digest(bytes))
}

#[derive(Debug, Clone, Copy, PartialEq, Eq, Structural)]
pub struct Dimensions {
    pub width: u32,
    pub height: u32,
}

pub struct CameraIdentity {
    pub make: String,
    pub model: String,
}

pub struct Authorization {
    pub scope: String,
    pub permission: String,
    pub redistribution: bool,
}

pub struct ExpectedRawProperties {
    pub source_bits_per_sample: usize,
    pub decoded_bits_per_sample: usize,
    pub cfa: String,
    pub compression: String,
}

pub struct Classification {
    pub real_camera_sample: bool,
    pub image_quality_baseline: bool,
    pub image_quality_scope: Option<String>,
    pub performance_baseline: String,
}

/// A RAW file of the acceptance run and what is expected of it.
pub struct Fixture {
    pub id: String,
    pub camera: CameraIdentity,
    pub capture_purpose: String,
    pub original_filename: String,
    pub byte_size: u64,
    pub sha256: String,
    pub source: String,
    pub authorization: Authorization,
    pub expected_sensor_dimensions: Dimensions,
    pub expected_output_dimensions: Dimensions,
    pub expected_raw_properties: ExpectedRawProperties,
    pub classification: Classification,
    pub covered_sony_a7_rv_scenarios: Vec<String>,
}

/// Whether a text is the name of one file: it neither leaves the directory nor enters
/// another.
pub fn safe_component(text: &str, windows: bool) -> (safe: bool)
    ensures
        safe == is_plain_name(text@, windows),
{
    plain_name(text, windows)
}

/// Why a fixture is not accepted.
#[derive(Debug, Clone, Copy, PartialEq, Eq, Structural)]
pub enum FixtureProblem {
    UnsafeId,
    UnsafeFilename,
    NotACameraSample,
    WrongModel,
    NoScope,
    NoScenario,
    ScenarioWithoutBaseline,
    NoAuthorizationScope,
    NoPermission,
    NoSource,
    NoCompression,
}

/// The scope of the image quality baseline is given and not blank.
pub open spec fn has_scope(classification: Classification) -> bool {
    match classification.image_quality_scope {
        Some(scope) => !is_blank(scope@),
        None => false,
    }
}

/// The first rule that a fixture breaks; its names follow the rules for paths of Windows or
/// of other systems. Scenarios of the reference camera are covered by files of that camera
/// with a scoped image quality baseline, and by no others.
pub open spec fn fixture_problem(fixture: Fixture, windows: bool) -> Option<FixtureProblem> {
    let baseline = fixture.classification.image_quality_baseline;
    if !is_plain_name(fixture.id@, windows) {
        Some(FixtureProblem::UnsafeId)
    } else if !is_plain_name(fixture.original_filename@, windows) {
        Some(FixtureProblem::UnsafeFilename)
    } else if !fixture.classification.real_camera_sample {
        Some(FixtureProblem::NotACameraSample)
    } else if baseline && fixture.camera.model@ != "ILCE-7RM5"@ {
        Some(FixtureProblem::WrongModel)
    } else if baseline && !has_scope(fixture.classification) {
        Some(FixtureProblem::NoScope)
    } else if baseline && fixture.covered_sony_a7_rv_scenarios@.len() == 0 {
        Some(FixtureProblem::NoScenario)
    } else if !baseline && fixture.covered_sony_a7_rv_scenarios@.len() > 0 {
        Some(FixtureProblem::ScenarioWithoutBaseline)
    } else if is_blank(fixture.authorization.scope@) {
        Some(FixtureProblem::NoAuthorizationScope)
    } else if is_blank(fixture.authorization.permission@) {
        Some(FixtureProblem::NoPermission)
    } else if is_blank(fixture.source@) {
        Some(FixtureProblem::NoSource)
    } else if is_blank(fixture.expected_raw_properties.compression@) {
        Some(FixtureProblem::NoCompression)
    } else {
        None
    }
}

pub fn check_fixture(fixture: &Fixture, windows: bool) -> (problem: Option<FixtureProblem>)
    ensures
        problem == fixture_problem(*fixture, windows),
{
    let baseline: bool = fixture.classification.image_quality_baseline;
    let scoped: bool = match &fixture.classification.image_quality_scope {
        Some(scope) => !blank(scope.as_str()),
        None => false,
    };
    let scenarios: usize = fixture.covered_sony_a7_rv_scenarios.len();
    if !safe_component(fixture.id.as_str(), windows) {
        Some(FixtureProblem::UnsafeId)
    } else if !safe_component(fixture.original_filename.as_str(), windows) {
        Some(FixtureProblem::UnsafeFilename)
    } else if !fixture.classification.real_camera_sample {
        Some(FixtureProblem::NotACameraSample)
    } else if baseline && !same_text(fixture.camera.model.as_str(), "ILCE-7RM5") {
        Some(FixtureProblem::WrongModel)
    } else if baseline && !scoped {
        Some(FixtureProblem::NoScope)
    } else if baseline && scenarios == 0 {
        Some(FixtureProblem::NoScenario)
    } else if !baseline && scenarios > 0 {
        Some(FixtureProblem::ScenarioWithoutBaseline)
    } else if blank(fixture.authorization.scope.as_str()) {
        Some(FixtureProblem::NoAuthorizationScope)
    } else if blank(fixture.authorization.permission.as_str()) {
        Some(FixtureProblem::NoPermission)
    } else if blank(fixture.source.as_str()) {
        Some(FixtureProblem::NoSource)
    } else if blank(fixture.expected_raw_properties.compression.as_str()) {
        Some(FixtureProblem::NoCompression)
    } else {
        None
    }
}

/// An accepted fixture covers scenarios exactly if it is an image quality baseline,
/// and then it is a file of the reference camera.
pub proof fn law_scenarios_need_a_baseline(fixture: Fixture, windows: bool)
    requires
        fixture_problem(fixture, windows) is None,
    ensures
        fixture.covered_sony_a7_rv_scenarios@.len() > 0
            <==> fixture.classification.image_quality_baseline,
        fixture.covered_sony_a7_rv_scenarios@.len() > 0 ==> fixture.camera.model@ == "ILCE-7RM5"@,
{
}

/// Why a file is not the file of its fixture.
#[derive(Debug, Clone, Copy, PartialEq, Eq, Structural)]
pub enum FileProblem {
    SizeChanged,
    DigestChanged,
}

/// Accepts the digest of a file of the right size if it is the digest of the fixture.
pub fn check_digest(fixture: &Fixture, file_size: u64, text: String) -> (result: Result<
    String,
    FileProblem,
>)
    ensures
        result == Err::<String, _>(FileProblem::SizeChanged) <==> file_size != fixture.byte_size,
        result == Err::<String, _>(FileProblem::DigestChanged) <==> file_size == fixture.byte_size
            && text@ != fixture.sha256@,
        result matches Ok(accepted) ==> accepted == text,
{
    if file_size != fixture.byte_size {
        Err(FileProblem::SizeChanged)
    } else if same_text(text.as_str(), fixture.sha256.as_str()) {
        Ok(text)
    } else {
        Err(FileProblem::DigestChanged)
    }
}

/// Why some bytes are not the file of a fixture.
pub open spec fn file_problem(fixture: Fixture, bytes: Seq<u8>) -> Option<FileProblem> {
    if bytes.len() != fixture.byte_size {
        Some(FileProblem::SizeChanged)
    } else if hex_text(sha256_digest(bytes)) != fixture.sha256@ {
        Some(FileProblem::DigestChanged)
    } else {
        None
    }
}

/// The digest of a file that is the file of its fixture.
pub fn check_source_file(fixture: &Fixture, file_bytes: &[u8]) -> (result: Result<
    String,
    FileProblem,
>)
    ensures
        match result {
            Err(problem) => file_problem(*fixture, file_bytes@) == Some(problem),
            Ok(text) => file_problem(*fixture, file_bytes@) is None && text@ == hex_text(
                sha256_digest(file_bytes@),
            ),
        },
{
    check_digest(fixture, file_bytes.len() as u64, sha256_hex(file_bytes))
}

/// What a decoder reports of a RAW file.
pub struct RawProperties {
    pub make: String,
    pub model: String,
    pub width: usize,
    pub height: usize,
    pub bits_per_sample: usize,
    pub components_per_pixel: usize,
    /// The colour pattern of the mosaic, if the file holds one.
    pub cfa: Option<String>,
    /// The coefficients of the three channels are finite and positive.
    pub white_balance_is_valid: bool,
    pub color_matrix_count: usize,
    pub white_level: u32,
    /// The period of the colour pattern.
    pub cfa_width: usize,
    pub cfa_height: usize,
    pub samples: RawSamples,
}

pub open spec fn one_or_more(length: usize) -> usize {
    if length == 0 {
        1
    } else {
        length
    }
}

/// What is reported of a decoded file. A pattern repeats after one sample at least, a frame
/// without a pattern counts as repeating after one, and a file that gives no white level as
/// one with the largest.
pub open spec fn properties_of(raw: DecodedRaw) -> RawProperties {
    let found = raw.description;
    RawProperties {
        make: found.make,
        model: found.model,
        width: found.width,
        height: found.height,
        bits_per_sample: found.bits_per_sample,
        components_per_pixel: found.components_per_pixel,
        cfa: match found.cfa {
            Some(pattern) => Some(pattern.name),
            None => None,
        },
        white_balance_is_valid: forall|i: int|
            0 <= i < 3 ==> is_positive_number(#[trigger] found.white_balance[i]),
        color_matrix_count: found.color_matrix_count,
        white_level: if found.white_levels@.len() == 0 {
            u32::MAX
        } else {
            found.white_levels@[0]
        },
        cfa_width: match found.cfa {
            Some(pattern) => one_or_more(pattern.width),
            None => 1,
        },
        cfa_height: match found.cfa {
            Some(pattern) => one_or_more(pattern.height),
            None => 1,
        },
        samples: raw.samples,
    }
}

fn at_least_one(length: usize) -> (result: usize)
    ensures
        result == one_or_more(length),
{
    if length == 0 {
        1
    } else {
        length
    }
}

/// What is reported of a decoded file.
pub fn raw_properties(raw: DecodedRaw) -> (properties: RawProperties)
    ensures
        properties == properties_of(raw),
{
    let found: RawDescription = raw.description;
    let balance: [u32; 4] = found.white_balance;
    let white_balance_is_valid: bool = is_positive(balance[0]) && is_positive(balance[1])
        && is_positive(balance[2]);
    proof {
        assert(balance[0] == found.white_balance[0] && balance[1] == found.white_balance[1]
            && balance[2] == found.white_balance[2]);
    }
    let white_level: u32 = if found.white_levels.len() == 0 {
        u32::MAX
    } else {
        found.white_levels[0]
    };
    let (cfa, cfa_width, cfa_height) = match found.cfa {
        Some(pattern) => (
            Some(pattern.name),
            at_least_one(pattern.width),
            at_least_one(pattern.height),
        ),
        None => (None, 1, 1),
    };
    RawProperties {
        make: found.make,
        model: found.model,
        width: found.width,
        height: found.height,
        bits_per_sample: found.bits_per_sample,
        components_per_pixel: found.components_per_pixel,
        cfa,
        white_balance_is_valid,
        color_matrix_count: found.color_matrix_count,
        white_level,
        cfa_width,
        cfa_height,
        samples: raw.samples,
    }
}

/// Why a decoded file does not fit its fixture.
#[derive(Debug, Clone, Copy, PartialEq, Eq, Structural)]
pub enum RawProblem {
    Make,
    Model,
    SensorDimensions,
    DecodedBits,
    SourceBitsNotRecorded,
    Components,
    NoMosaic,
    Cfa,
    WhiteBalance,
    NoColorMatrix,
    SourceBits,
    WhiteLevel,
}

/// A width or height as a 32-bit number.
pub open spec fn as_length(value: usize) -> int {
    value as int % 0x1_0000_0000
}

fn to_length(value: usize) -> (length: u32)
    ensures
        length == as_length(value),
{
    let wide: u64 = value as u64;
    assert(wide as u32 == wide % 0x1_0000_0000) by (bit_vector);
    #[verifier::truncate]
    (wide as u32)
}

/// The largest value of a sample with this many bits.
pub open spec fn largest_code(bits: int) -> int {
    pow2(bits as nat) - 1
}

/// The white level uses the upper half of the values of a sample.
pub open spec fn fits_depth(white_level: int, bits: int) -> bool {
    largest_code(bits) / 2 < white_level <= largest_code(bits)
}

/// Checks a white level against the bits of a sample. A depth of no bits, or of 32 bits
/// and more, is not accepted.
pub fn check_source_bit_depth(source_bits: usize, white_level: u32) -> (problem: Option<RawProblem>)
    ensures
        problem == if !(1 <= source_bits < 32) {
            Some(RawProblem::SourceBits)
        } else if !fits_depth(white_level as int, source_bits as int) {
            Some(RawProblem::WhiteLevel)
        } else {
            None
        },
{
    if source_bits < 1 || source_bits >= 32 {
        return Some(RawProblem::SourceBits);
    }
    let shift: u32 = source_bits as u32;
    proof {
        lemma2_to64();
        lemma_pow2_strictly_increases(0, shift as nat);
        lemma_pow2_strictly_increases(shift as nat, 32);
        vstd::bits::lemma_u32_shl_is_mul(1, shift);
    }
    let maximum_code: u32 = (1u32 << shift) - 1;
    if white_level <= maximum_code && white_level > maximum_code / 2 {
        None
    } else {
        Some(RawProblem::WhiteLevel)
    }
}

/// The first expectation that a decoded file does not meet.
pub open spec fn raw_problem(fixture: Fixture, raw: RawProperties) -> Option<RawProblem> {
    let expected = fixture.expected_raw_properties;
    if raw.make@ != fixture.camera.make@ {
        Some(RawProblem::Make)
    } else if raw.model@ != fixture.camera.model@ {
        Some(RawProblem::Model)
    } else if as_length(raw.width) != fixture.expected_sensor_dimensions.width || as_length(
        raw.height,
    ) != fixture.expected_sensor_dimensions.height {
        Some(RawProblem::SensorDimensions)
    } else if raw.bits_per_sample != expected.decoded_bits_per_sample {
        Some(RawProblem::DecodedBits)
    } else if expected.source_bits_per_sample == 0 {
        Some(RawProblem::SourceBitsNotRecorded)
    } else if raw.components_per_pixel != 1 {
        Some(RawProblem::Components)
    } else if raw.cfa is None {
        Some(RawProblem::NoMosaic)
    } else if raw.cfa->0@ != expected.cfa@ {
        Some(RawProblem::Cfa)
    } else if !raw.white_balance_is_valid {
        Some(RawProblem::WhiteBalance)
    } else if raw.color_matrix_count == 0 {
        Some(RawProblem::NoColorMatrix)
    } else if expected.source_bits_per_sample >= 32 {
        Some(RawProblem::SourceBits)
    } else if !fits_depth(raw.white_level as int, expected.source_bits_per_sample as int) {
        Some(RawProblem::WhiteLevel)
    } else {
        None
    }
}

pub fn check_raw_properties(fixture: &Fixture, raw: &RawProperties) -> (problem: Option<RawProblem>)
    ensures
        problem == raw_problem(*fixture, *raw),
{
    let expected: &ExpectedRawProperties = &fixture.expected_raw_properties;
    let same_cfa: Option<bool> = match &raw.cfa {
        Some(cfa) => Some(same_text(cfa.as_str(), expected.cfa.as_str())),
        None => None,
    };
    if !same_text(raw.make.as_str(), fixture.camera.make.as_str()) {
        return Some(RawProblem::Make);
    }
    if !same_text(raw.model.as_str(), fixture.camera.model.as_str()) {
        return Some(RawProblem::Model);
    }
    if to_length(raw.width) != fixture.expected_sensor_dimensions.width || to_length(raw.height)
        != fixture.expected_sensor_dimensions.height {
        return Some(RawProblem::SensorDimensions);
    }
    if raw.bits_per_sample != expected.decoded_bits_per_sample {
        return Some(RawProblem::DecodedBits);
    }
    if expected.source_bits_per_sample == 0 {
        return Some(RawProblem::SourceBitsNotRecorded);
    }
    if raw.components_per_pixel != 1 {
        return Some(RawProblem::Components);
    }
    match same_cfa {
        None => {
            return Some(RawProblem::NoMosaic);
        },
        Some(same) => {
            if !same {
                return Some(RawProblem::Cfa);
            }
        },
    }
    if !raw.white_balance_is_valid {
        return Some(RawProblem::WhiteBalance);
    }
    if raw.color_matrix_count == 0 {
        return Some(RawProblem::NoColorMatrix);
    }
    check_source_bit_depth(expected.source_bits_per_sample, raw.white_level)
}

/// Why a RAW file is not accepted.
#[derive(Debug, Clone, Copy, PartialEq, Eq, Structural)]
pub enum RawFileProblem {
    Fixture(FixtureProblem),
    File(FileProblem),
    NotDecoded,
    Raw(RawProblem),
}

/// What is decided of a decoded file, or of one that could not be decoded.
pub open spec fn judgement(fixture: Fixture, raw: Option<DecodedRaw>) -> Result<
    RawProperties,
    RawFileProblem,
> {
    match raw {
        None => Err(RawFileProblem::NotDecoded),
        Some(decoded) => match raw_problem(fixture, properties_of(decoded)) {
            Some(problem) => Err(RawFileProblem::Raw(problem)),
            None => Ok(properties_of(decoded)),
        },
    }
}

/// Accepts a decoded file that meets the expectations of its fixture.
pub fn judge_raw(fixture: &Fixture, raw: Option<DecodedRaw>) -> (result: Result<
    RawProperties,
    RawFileProblem,
>)
    ensures
        result == judgement(*fixture, raw),
{
    match raw {
        None => Err(RawFileProblem::NotDecoded),
        Some(decoded) => {
            let properties: RawProperties = raw_properties(decoded);
            match check_raw_properties(fixture, &properties) {
                Some(problem) => Err(RawFileProblem::Raw(problem)),
                None => Ok(properties),
            }
        },
    }
}

/// Decodes the file of a fixture and holds it against what is expected. The fixture, the size
/// and the digest are checked before anything is decoded; what the decoder finds is judged
/// whatever it is.
pub fn check_raw_file(fixture: &Fixture, file_bytes: &[u8], windows: bool) -> (result: Result<
    RawProperties,
    RawFileProblem,
>)
    ensures
        match fixture_problem(*fixture, windows) {
            Some(problem) => result == Err::<RawProperties, _>(RawFileProblem::Fixture(problem)),
            None => match file_problem(*fixture, file_bytes@) {
                Some(problem) => result == Err::<RawProperties, _>(RawFileProblem::File(problem)),
                None => exists|raw: Option<DecodedRaw>|
                    result == #[trigger] judgement(*fixture, raw),
            },
        },
        result matches Err(RawFileProblem::Fixture(problem)) ==> fixture_problem(*fixture, windows) == Some(
            problem,
        ),
        result matches Err(RawFileProblem::File(problem)) ==> fixture_problem(*fixture, windows) is None
            && file_problem(*fixture, file_bytes@) == Some(problem),
        result matches Ok(raw) ==> fixture_problem(*fixture, windows) is None && file_problem(
            *fixture,
            file_bytes@,
        ) is None && raw_problem(*fixture, raw) is None,
{
    match check_fixture(fixture, windows) {
        Some(problem) => {
            return Err(RawFileProblem::Fixture(problem));
        },
        None => {},
    }
    match check_source_file(fixture, file_bytes) {
        Err(problem) => Err(RawFileProblem::File(problem)),
        Ok(_) => judge_raw(fixture, decode_raw(file_bytes, false)),
    }
}

/// The part of a length that holds whole periods.
pub fn aligned_length(length: usize, period: usize) -> (aligned: usize)
    requires
        0 < period <= length,
    ensures
        aligned == length as int / period as int * period,
        0 < aligned <= length,
{
    proof {
        lemma_whole_periods(length as int, period as int);
    }
    length - length % period
}

proof fn lemma_whole_periods(length: int, period: int)
    requires
        0 < period <= length,
    ensures
        length - length % period == length / period * period,
        0 < length / period * period <= length,
{
    assert(length == length / period * period + length % period) by (nonlinear_arith)
        requires
            period > 0,
    ;
    assert(0 <= length % period < period) by (nonlinear_arith)
        requires
            period > 0,
    ;
}

/// A part of a frame.
pub struct Probe<T> {
    pub values: Vec<T>,
    pub width: usize,
    pub height: usize,
    pub origin_x: usize,
    pub origin_y: usize,
}

/// The start of a length in the middle of a longer one, on a whole period.
pub open spec fn centered_start(total: int, length: int, period: int) -> int {
    (total - length) / 2 / period * period
}

/// The length that is probed: as much as is asked for and there, in whole periods.
pub open spec fn probed_length(total: int, requested: int, period: int) -> int {
    (if requested < total {
        requested
    } else {
        total
    }) / period * period
}

/// The largest multiple of a period is no larger, and it starts the same pattern.
proof fn lemma_centered(total: int, length: int, period: int)
    requires
        0 < period,
        0 <= length <= total,
    ensures
        0 <= centered_start(total, length, period),
        centered_start(total, length, period) + length <= total,
        centered_start(total, length, period) % period == 0,
{
    let half = (total - length) / 2;
    assert(half == half / period * period + half % period) by (nonlinear_arith)
        requires
            period > 0,
    ;
    assert(0 <= half % period < period) by (nonlinear_arith)
        requires
            period > 0,
    ;
    assert(0 <= half / period * period) by (nonlinear_arith)
        requires
            half >= 0,
            period > 0,
    ;
    assert((half / period * period) % period == 0) by (nonlinear_arith)
        requires
            period > 0,
    ;
}

/// Value `c` of the pixel in column `x` of row `y` of a frame with this width.
pub open spec fn value_index(width: int, components: int, x: int, y: int, c: int) -> int {
    (y * width + x) * components + c
}

/// Cuts the middle out of a frame. The cut starts on a whole period of the colour
/// pattern in both directions, so that the pattern of the part is that of the frame.
pub fn centered_cfa_probe<T: Copy>(
    values: &Vec<T>,
    width: usize,
    height: usize,
    components: usize,
    period_x: usize,
    period_y: usize,
    requested_edge: usize,
) -> (probe: Probe<T>)
    requires
        values@.len() >= width * height * components,
        0 < period_x <= width,
        0 < period_y <= height,
        period_x <= requested_edge,
        period_y <= requested_edge,
    ensures
        probe.width == probed_length(width as int, requested_edge as int, period_x as int),
        probe.height == probed_length(height as int, requested_edge as int, period_y as int),
        probe.origin_x == centered_start(width as int, probe.width as int, period_x as int),
        probe.origin_y == centered_start(height as int, probe.height as int, period_y as int),
        probe.origin_x % period_x == 0,
        probe.origin_y % period_y == 0,
        0 < probe.width,
        0 < probe.height,
        probe.origin_x + probe.width <= width,
        probe.origin_y + probe.height <= height,
        probe.values@.len() == probe.width * probe.height * components,
        forall|x: int, y: int, c: int|
            0 <= x < probe.width && 0 <= y < probe.height && 0 <= c < components
                ==> probe.values@[#[trigger] value_index(
                probe.width as int,
                components as int,
                x,
                y,
                c,
            )] == values@[value_index(
                width as int,
                components as int,
                probe.origin_x + x,
                probe.origin_y + y,
                c,
            )],
{
    let wanted_width: usize = if requested_edge < width {
        requested_edge
    } else {
        width
    };
    let wanted_height: usize = if requested_edge < height {
        requested_edge
    } else {
        height
    };
    let probe_width: usize = aligned_length(wanted_width, period_x);
    let probe_height: usize = aligned_length(wanted_height, period_y);
    proof {
        lemma_centered(width as int, probe_width as int, period_x as int);
        lemma_centered(height as int, probe_height as int, period_y as int);
        lemma_fits((width - probe_width) / 2, period_x as int);
        lemma_fits((height - probe_height) / 2, period_y as int);
    }
    let origin_x: usize = (width - probe_width) / 2 / period_x * period_x;
    let origin_y: usize = (height - probe_height) / 2 / period_y * period_y;
    let ghost (w, n) = (width as int, components as int);
    let ghost (pw, ox, oy) = (probe_width as int, origin_x as int, origin_y as int);
    let mut cut: Vec<T> = Vec::new();
    let total: usize = values.len();
    let mut y: usize = 0;
    assert(pw * 0 == 0) by (nonlinear_arith);
    assert(0 * n == 0) by (nonlinear_arith);
    while y < probe_height
        invariant
            y <= probe_height,
            w == width,
            n == components,
            pw == probe_width,
            ox == origin_x,
            oy == origin_y,
            total == values@.len(),
            values@.len() >= w * height * n,
            origin_x + probe_width <= width,
            origin_y + probe_height <= height,
            0 < probe_width,
            cut@.len() == pw * y * n,
            forall|a: int, b: int, c: int|
                0 <= a < pw && 0 <= b < y && 0 <= c < n ==> cut@[#[trigger] value_index(
                    pw,
                    n,
                    a,
                    b,
                    c,
                )] == values@[value_index(w, n, ox + a, oy + b, c)],
        decreases probe_height - y,
    {
        let ghost before = cut@;
        let ghost start = value_index(w, n, ox, oy + y, 0);
        proof {
            lemma_row(w, height as int, n, ox, oy + y, pw);
            lemma_row(pw, probe_height as int, n, 0, y as int, pw);
            assert(width * components <= total && (oy + y) * w <= w * height && ((oy + y) * w + ox)
                * n <= total) by (nonlinear_arith)
                requires
                    total >= w * height * n,
                    w == width,
                    n == components,
                    0 <= oy + y < height,
                    0 <= ox < w,
                    n >= 0,
            ;
            assert((oy + y) * w + ox <= w * height) by (nonlinear_arith)
                requires
                    0 <= oy + y <= height - 1,
                    0 <= ox < w,
            ;
            assert(n > 0 ==> w * height <= total) by (nonlinear_arith)
                requires
                    total >= w * height * n,
                    w >= 0,
                    n >= 0,
            ;
            assert(pw * n <= w * n) by (nonlinear_arith)
                requires
                    pw <= w,
                    n >= 0,
            ;
        }
        if components > 0 {
            let first: usize = ((origin_y + y) * width + origin_x) * components;
            let row_values: usize = probe_width * components;
            assert(first == start);
            let mut i: usize = 0;
            while i < row_values
                invariant
                    i <= row_values,
                    total == values@.len(),
                    first == start,
                    row_values == pw * n,
                    start + pw * n <= values@.len(),
                    cut@.len() == before.len() + i,
                    forall|j: int| 0 <= j < before.len() ==> #[trigger] cut@[j] == before[j],
                    forall|j: int|
                        before.len() <= j < cut@.len() ==> #[trigger] cut@[j] == values@[start + (j
                            - before.len())],
                decreases row_values - i,
            {
                cut.push(values[first + i]);
                i += 1;
            }
        } else {
            assert(pw * n == 0) by (nonlinear_arith)
                requires
                    n == 0,
            ;
        }
        proof {
            assert(pw * (y + 1) * n == pw * y * n + pw * n) by (nonlinear_arith);
            assert forall|a: int, b: int, c: int|
                0 <= a < pw && 0 <= b < y + 1 && 0 <= c < n implies cut@[#[trigger] value_index(
                pw,
                n,
                a,
                b,
                c,
            )] == values@[value_index(w, n, ox + a, oy + b, c)] by {
                lemma_value(pw, y as int, n, a, b, c, ox, oy, w);
            }
        }
        y += 1;
    }
    Probe { values: cut, width: probe_width, height: probe_height, origin_x, origin_y }
}

proof fn lemma_fits(half: int, period: int)
    requires
        half >= 0,
        period > 0,
    ensures
        0 <= half / period * period <= half,
{
    assert(half == half / period * period + half % period) by (nonlinear_arith)
        requires
            period > 0,
    ;
    assert(0 <= half % period) by (nonlinear_arith)
        requires
            period > 0,
    ;
    assert(0 <= half / period * period) by (nonlinear_arith)
        requires
            half >= 0,
            period > 0,
    ;
}

/// A part of a row lies inside the frame.
proof fn lemma_row(width: int, height: int, n: int, x: int, y: int, count: int)
    requires
        0 <= n,
        0 <= x,
        0 <= count,
        x + count <= width,
        0 <= y < height,
    ensures
        0 <= value_index(width, n, x, y, 0),
        value_index(width, n, x, y, 0) + count * n <= width * height * n,
{
    assert(0 <= (y * width + x) * n) by (nonlinear_arith)
        requires
            0 <= y,
            0 <= width,
            0 <= x,
            0 <= n,
    ;
    assert((y * width + x) * n + count * n <= width * height * n) by (nonlinear_arith)
        requires
            y + 1 <= height,
            0 <= y,
            x + count <= width,
            0 <= width,
            0 <= n,
    {
        assert((y + 1) * width <= height * width);
        assert(y * width + x + count <= height * width);
        assert((y * width + x + count) * n <= height * width * n);
    }
}

/// Where a value of the new row, or of an earlier one, is found.
proof fn lemma_value(
    pw: int,
    y: int,
    n: int,
    a: int,
    b: int,
    c: int,
    ox: int,
    oy: int,
    w: int,
)
    requires
        0 <= a < pw,
        0 <= b <= y,
        0 <= c < n,
    ensures
        b < y ==> 0 <= value_index(pw, n, a, b, c) < pw * y * n,
        b == y ==> value_index(pw, n, a, b, c) == pw * y * n + (a * n + c),
        0 <= a * n + c < pw * n,
        value_index(w, n, ox + a, oy + b, c) == value_index(w, n, ox, oy + b, 0) + (a * n + c),
{
    assert(0 <= a * n + c < pw * n) by (nonlinear_arith)
        requires
            0 <= a,
            a + 1 <= pw,
            0 <= c < n,
    ;
    assert((b * pw + a) * n + c == pw * b * n + (a * n + c)) by (nonlinear_arith);
    assert(((oy + b) * w + (ox + a)) * n + c == ((oy + b) * w + ox) * n + (a * n + c))
        by (nonlinear_arith);
    if b < y {
        assert(pw * b * n + pw * n <= pw * y * n) by (nonlinear_arith)
            requires
                b + 1 <= y,
                0 <= pw,
                0 <= n,
        ;
        assert(0 <= pw * b * n) by (nonlinear_arith)
            requires
                0 <= b,
                0 <= pw,
                0 <= n,
        ;
    }
}

/// The probe is cut from the middle of these samples of a frame.
pub open spec fn is_probe_of<T>(probe: Probe<T>, values: Seq<T>, raw: RawProperties) -> bool {
    let (width, height) = (raw.width as int, raw.height as int);
    let components = raw.components_per_pixel as int;
    let (period_x, period_y) = (raw.cfa_width as int, raw.cfa_height as int);
    &&& probe.width == probed_length(width, PROBE_EDGE as int, period_x)
    &&& probe.height == probed_length(height, PROBE_EDGE as int, period_y)
    &&& probe.origin_x == centered_start(width, probe.width as int, period_x)
    &&& probe.origin_y == centered_start(height, probe.height as int, period_y)
    &&& probe.values@.len() == probe.width * probe.height * components
    &&& forall|x: int, y: int, c: int|
        0 <= x < probe.width && 0 <= y < probe.height && 0 <= c < components
            ==> probe.values@[#[trigger] value_index(probe.width as int, components, x, y, c)]
            == values[value_index(width, components, probe.origin_x + x, probe.origin_y + y, c)]
}

/// The frame holds a whole period of its pattern, and at least a sample for every place.
pub open spec fn can_probe(raw: RawProperties) -> bool {
    let count = match raw.samples {
        RawSamples::Integer(values) => values@.len(),
        RawSamples::Float(values) => values@.len(),
    };
    &&& count >= raw.width * raw.height * raw.components_per_pixel
    &&& 0 < raw.cfa_width <= raw.width
    &&& 0 < raw.cfa_height <= raw.height
    &&& raw.cfa_width <= PROBE_EDGE
    &&& raw.cfa_height <= PROBE_EDGE
}

/// The middle of a frame.
pub enum FrameProbe {
    Integer(Probe<u16>),
    Float(Probe<u32>),
}

/// Cuts the middle out of a frame. `None` where the frame is smaller than its pattern or does
/// not hold a sample for every place.
pub fn probe_frame(raw: &RawProperties) -> (probe: Option<FrameProbe>)
    ensures
        probe is Some <==> can_probe(*raw),
        match probe {
            Some(FrameProbe::Integer(part)) => raw.samples matches RawSamples::Integer(values)
                && is_probe_of(part, values@, *raw),
            Some(FrameProbe::Float(part)) => raw.samples matches RawSamples::Float(values)
                && is_probe_of(part, values@, *raw),
            None => true,
        },
{
    let (width, height) = (raw.width, raw.height);
    let count: usize = match &raw.samples {
        RawSamples::Integer(values) => values.len(),
        RawSamples::Float(values) => values.len(),
    };
    if raw.cfa_width == 0 || raw.cfa_width > width || raw.cfa_width > PROBE_EDGE || raw.cfa_height
        == 0 || raw.cfa_height > height || raw.cfa_height > PROBE_EDGE {
        return None;
    }
    if !suffices(count, width, height, raw.components_per_pixel) {
        return None;
    }
    match &raw.samples {
        RawSamples::Integer(values) => Some(
            FrameProbe::Integer(
                centered_cfa_probe(
                    values,
                    width,
                    height,
                    raw.components_per_pixel,
                    raw.cfa_width,
                    raw.cfa_height,
                    PROBE_EDGE,
                ),
            ),
        ),
        RawSamples::Float(values) => Some(
            FrameProbe::Float(
                centered_cfa_probe(
                    values,
                    width,
                    height,
                    raw.components_per_pixel,
                    raw.cfa_width,
                    raw.cfa_height,
                    PROBE_EDGE,
                ),
            ),
        ),
    }
}

/// Whether a count is no less than the product of three lengths.
fn suffices(count: usize, width: usize, height: usize, components: usize) -> (enough: bool)
    requires
        width > 0,
        height > 0,
    ensures
        enough == (count >= width * height * components),
{
    assert(0 < width * height <= 0xffff_ffff_ffff_ffff * 0xffff_ffff_ffff_ffff) by (nonlinear_arith)
        requires
            0 < width <= 0xffff_ffff_ffff_ffff,
            0 < height <= 0xffff_ffff_ffff_ffff,
    ;
    let area: u128 = width as u128 * height as u128;
    let ghost a = width * height;
    let ghost c = components as int;
    if components == 0 {
        assert(a * 0 == 0) by (nonlinear_arith);
        return true;
    }
    let parts: u128 = count as u128 / components as u128;
    proof {
        assert(count >= a * c <==> count as int / c >= a) by (nonlinear_arith)
            requires
                c > 0,
                a > 0,
                count >= 0,
        ;
    }
    parts >= area
}

/// The size of a preview of an image: the image itself where no edge is longer than the
/// maximum, and otherwise scaled down so that the longer edge has it.
pub open spec fn fitted(width: u32, height: u32, max_edge: u32) -> Dimensions {
    if longer(width, height) <= max_edge {
        Dimensions { width, height }
    } else {
        let edge = longer(width, height) as int;
        Dimensions {
            width: rounded_ratio(width as int, edge, max_edge as int) as u32,
            height: rounded_ratio(height as int, edge, max_edge as int) as u32,
        }
    }
}

/// The size that a preview of an image has to have. The division is exact, and halves are
/// rounded up.
pub fn fitted_dimensions(width: u32, height: u32, max_edge: u32) -> (dimensions: Dimensions)
    ensures
        dimensions == fitted(width, height, max_edge),
        longer(width, height) > max_edge ==> longer(dimensions.width, dimensions.height) == max_edge,
{
    if max_edge == 0 {
        proof {
            let edge = longer(width, height) as int;
            assert(2 * width * 0 == 0 && 2 * height * 0 == 0) by (nonlinear_arith);
            assert(edge > 0 ==> edge / (2 * edge) == 0) by (nonlinear_arith);
        }
        return Dimensions { width: 0, height: 0 };
    }
    let scaled: Downscaled = calculate_downscale_dimensions_capped(width, height, max_edge);
    proof {
        let edge = longer(width, height) as int;
        let m = max_edge as int;
        assert(edge > 0 ==> (2 * edge * m + edge) / (2 * edge) == m) by (nonlinear_arith);
    }
    Dimensions { width: scaled.width, height: scaled.height }
}

/// How many values one sample stands for.
pub open spec fn stride_of(values: int) -> int {
    if values == 0 {
        1
    } else {
        (values + MAX_SAMPLED_PIXELS - 1) / MAX_SAMPLED_PIXELS as int
    }
}

/// How many values one sample stands for: one of that many is drawn, so that no more
/// than the maximum is.
pub fn sampling_stride(values: usize) -> (stride: usize)
    ensures
        stride == stride_of(values as int),
        stride >= 1,
        stride * 262_144 >= values,
        stride > 1 ==> (stride - 1) * 262_144 < values,
{
    let whole: usize = values / MAX_SAMPLED_PIXELS;
    let stride: usize = if values % MAX_SAMPLED_PIXELS == 0 {
        whole
    } else {
        whole + 1
    };
    if stride == 0 {
        1
    } else {
        stride
    }
}

/// Sample `i` is drawn from its multiple of the stride.
pub open spec fn is_drawn<T>(samples: Seq<T>, values: Seq<T>, stride: int, i: int) -> bool {
    0 <= i * stride < values.len() && samples[i] == values[i * stride]
}

/// The values at the multiples of a stride.
pub open spec fn drawn<T>(values: Seq<T>, stride: int) -> Seq<T> {
    Seq::new(((values.len() + stride - 1) / stride) as nat, |i: int| values[i * stride])
}

/// The values at the multiples of a stride.
pub fn sample<T: Copy>(values: &Vec<T>, stride: usize) -> (samples: Vec<T>)
    requires
        stride > 0,
    ensures
        samples@ == drawn(values@, stride as int),
        forall|i: int|
            0 <= i < samples@.len() ==> #[trigger] is_drawn(samples@, values@, stride as int, i),
{
    let mut samples: Vec<T> = Vec::new();
    let total: usize = values.len();
    let ghost s = stride as int;
    let mut index: usize = 0;
    let mut done: bool = total == 0;
    assert(0 * s == 0) by (nonlinear_arith);
    while !done
        invariant
            total == values@.len(),
            s == stride,
            s > 0,
            !done ==> index < total && index == samples@.len() * s,
            done ==> samples@.len() * s >= total && (samples@.len() > 0 ==> (samples@.len() - 1) * s
                < total),
            done && samples@.len() == 0 ==> total == 0,
            forall|i: int|
                0 <= i < samples@.len() ==> #[trigger] is_drawn(samples@, values@, s, i),
        decreases (if done { 0int } else { total - index }),
    {
        assert((samples@.len() + 1) * s == samples@.len() * s + s) by (nonlinear_arith);
        let ghost before = samples@;
        samples.push(values[index]);
        assert forall|i: int| 0 <= i < samples@.len() implies #[trigger] is_drawn(
            samples@,
            values@,
            s,
            i,
        ) by {
            if i < before.len() {
                assert(is_drawn(before, values@, s, i));
            }
        }
        if stride < total - index {
            index += stride;
        } else {
            done = true;
        }
    }
    proof {
        let n = samples@.len() as int;
        assert(n == (total + s - 1) / s) by (nonlinear_arith)
            requires
                s > 0,
                n >= 0,
                n * s >= total,
                n > 0 ==> (n - 1) * s < total,
                n == 0 ==> total == 0,
                total >= 0,
        ;
        assert forall|i: int| 0 <= i < n implies samples@[i] == drawn(values@, s)[i] by {
            assert(is_drawn(samples@, values@, s, i));
        }
        assert(samples@ =~= drawn(values@, s));
    }
    samples
}

/// The bytes of 16-bit samples, low bytes first.
pub open spec fn sample_bytes(samples: Seq<u16>) -> Seq<u8> {
    Seq::new(
        samples.len() * 2,
        |i: int|
            (if i % 2 == 0 {
                samples[i / 2] % 256
            } else {
                samples[i / 2] / 256
            }) as u8,
    )
}

/// The sum of some samples.
pub open spec fn sample_sum(samples: Seq<u16>) -> int
    decreases samples.len(),
{
    if samples.len() == 0 {
        0
    } else {
        sample_sum(samples.drop_last()) + samples.last()
    }
}

/// What identifies the samples of a mosaic.
pub struct RawSampleSummary {
    pub sha256: String,
    pub values: usize,
    /// The smallest and the largest sample, if there is one.
    pub min: Option<u16>,
    pub max: Option<u16>,
    pub sum: u64,
}

/// The summary is that of these samples.
pub open spec fn is_summary(summary: RawSampleSummary, samples: Seq<u16>) -> bool {
    &&& summary.sha256@ == hex_text(sha256_digest(sample_bytes(samples)))
    &&& summary.values == samples.len()
    &&& summary.sum == sample_sum(samples)
    &&& summary.min is Some <==> samples.len() > 0
    &&& summary.max is Some <==> samples.len() > 0
    &&& summary.min matches Some(min) ==> samples.contains(min) && forall|i: int|
        0 <= i < samples.len() ==> min <= #[trigger] samples[i]
    &&& summary.max matches Some(max) ==> samples.contains(max) && forall|i: int|
        0 <= i < samples.len() ==> #[trigger] samples[i] <= max
}

/// Summarises samples drawn from a mosaic.
pub fn summarize_samples(samples: &Vec<u16>) -> (summary: RawSampleSummary)
    requires
        samples@.len() <= 0xffff_ffff_ffff,
        samples@.len() * 2 <= usize::MAX,
    ensures
        is_summary(summary, samples@),
{
    let mut bytes: Vec<u8> = Vec::new();
    let mut min: u16 = 0xffff;
    let mut max: u16 = 0;
    let mut sum: u64 = 0;
    let mut i: usize = 0;
    while i < samples.len()
        invariant
            i <= samples@.len() <= 0xffff_ffff_ffff,
            bytes@.len() == i * 2,
            forall|j: int|
                0 <= j < bytes@.len() ==> #[trigger] bytes@[j] == sample_bytes(samples@)[j],
            sum == sample_sum(samples@.take(i as int)),
            sum <= i * 0xffff,
            i == 0 ==> min == 0xffff && max == 0,
            i > 0 ==> samples@.contains(min) && samples@.contains(max),
            forall|j: int| 0 <= j < i ==> min <= #[trigger] samples@[j] <= max,
        decreases samples@.len() - i,
    {
        let value: u16 = samples[i];
        bytes.push((value % 256) as u8);
        bytes.push((value / 256) as u8);
        assert(samples@.contains(value));
        if i == 0 || value < min {
            min = value;
        }
        if i == 0 || value > max {
            max = value;
        }
        assert(samples@.take(i + 1).drop_last() =~= samples@.take(i as int));
        sum = sum + value as u64;
        i += 1;
    }
    assert(bytes@ =~= sample_bytes(samples@));
    assert(samples@.take(samples@.len() as int) =~= samples@);
    let held: bool = samples.len() > 0;
    RawSampleSummary {
        sha256: sha256_hex(bytes.as_slice()),
        values: samples.len(),
        min: if held {
            Some(min)
        } else {
            None
        },
        max: if held {
            Some(max)
        } else {
            None
        },
        sum,
    }
}

/// All numbers with these bits are finite.
pub open spec fn all_finite(samples: Seq<u32>) -> bool {
    forall|i: int| 0 <= i < samples.len() ==> is_finite_number(#[trigger] samples[i])
}

/// A whole number that orders like the finite number with these bits; both zeros have the
/// same.
pub open spec fn float_rank(bits: u32) -> int {
    if bits < 0x8000_0000 {
        bits as int
    } else {
        -(bits - 0x8000_0000)
    }
}

fn rank(bits: u32) -> (rank: i64)
    ensures
        rank == float_rank(bits),
{
    if bits < 0x8000_0000 {
        bits as i64
    } else {
        0 - ((bits - 0x8000_0000) as i64)
    }
}

/// What identifies the floating-point samples of a mosaic.
pub struct FloatSampleSummary {
    pub sha256: String,
    pub values: usize,
    /// The bits of a smallest and of a largest sample, if there is one.
    pub min: Option<u32>,
    pub max: Option<u32>,
}

/// The summary is that of the samples with these bits.
pub open spec fn is_float_summary(summary: FloatSampleSummary, samples: Seq<u32>) -> bool {
    &&& summary.sha256@ == hex_text(sha256_digest(tile_bytes(samples)))
    &&& summary.values == samples.len()
    &&& summary.min is Some <==> samples.len() > 0
    &&& summary.max is Some <==> samples.len() > 0
    &&& summary.min matches Some(min) ==> samples.contains(min) && forall|i: int|
        0 <= i < samples.len() ==> float_rank(min) <= float_rank(#[trigger] samples[i])
    &&& summary.max matches Some(max) ==> samples.contains(max) && forall|i: int|
        0 <= i < samples.len() ==> float_rank(#[trigger] samples[i]) <= float_rank(max)
}

/// Summarises floating-point samples, given by their bits. `None` where one is not finite.
pub fn summarize_float_samples(samples: &Vec<u32>) -> (summary: Option<FloatSampleSummary>)
    ensures
        summary is Some <==> all_finite(samples@),
        summary matches Some(found) ==> is_float_summary(found, samples@),
{
    let mut min: Option<u32> = None;
    let mut max: Option<u32> = None;
    let mut i: usize = 0;
    while i < samples.len()
        invariant
            i <= samples@.len(),
            forall|j: int| 0 <= j < i ==> is_finite_number(#[trigger] samples@[j]),
            min is Some <==> i > 0,
            max is Some <==> i > 0,
            min matches Some(least) ==> samples@.contains(least) && forall|j: int|
                0 <= j < i ==> float_rank(least) <= float_rank(#[trigger] samples@[j]),
            max matches Some(most) ==> samples@.contains(most) && forall|j: int|
                0 <= j < i ==> float_rank(#[trigger] samples@[j]) <= float_rank(most),
        decreases samples@.len() - i,
    {
        let bits: u32 = samples[i];
        assert(samples@.contains(bits));
        if bits % 0x8000_0000 >= 0x7f80_0000 {
            assert(!is_finite_number(samples@[i as int]));
            return None;
        }
        min = match min {
            Some(least) => if rank(bits) < rank(least) {
                Some(bits)
            } else {
                Some(least)
            },
            None => Some(bits),
        };
        max = match max {
            Some(most) => if rank(bits) > rank(most) {
                Some(bits)
            } else {
                Some(most)
            },
            None => Some(bits),
        };
        i += 1;
    }
    let bytes: Vec<u8> = encode_tile(samples);
    Some(
        FloatSampleSummary {
            sha256: sha256_hex(bytes.as_slice()),
            values: samples.len(),
            min,
            max,
        },
    )
}

/// What identifies the mosaic of a frame.
pub enum MosaicSummary {
    Integer(RawSampleSummary),
    Float(FloatSampleSummary),
}

proof fn lemma_few_are_drawn(values: int)
    requires
        values >= 0,
    ensures
        stride_of(values) >= 1,
        0 <= (values + stride_of(values) - 1) / stride_of(values) <= MAX_SAMPLED_PIXELS,
{
    let stride = stride_of(values);
    if values > 0 {
        assert((values + stride - 1) / stride <= MAX_SAMPLED_PIXELS) by (nonlinear_arith)
            requires
                stride >= 1,
                stride * MAX_SAMPLED_PIXELS >= values,
        ;
        assert(0 <= (values + stride - 1) / stride) by (nonlinear_arith)
            requires
                stride >= 1,
                values > 0,
        ;
    }
}

/// Summarises the samples of a frame, of which no more than the maximum are drawn. `None`
/// where a sample that is drawn is not finite.
pub fn summarize_raw_samples(samples: &RawSamples) -> (summary: Option<MosaicSummary>)
    ensures
        match samples {
            RawSamples::Integer(values) => {
                let picked = drawn(values@, stride_of(values@.len() as int));
                summary matches Some(MosaicSummary::Integer(found)) && is_summary(found, picked)
            },
            RawSamples::Float(values) => {
                let picked = drawn(values@, stride_of(values@.len() as int));
                match summary {
                    None => !all_finite(picked),
                    Some(MosaicSummary::Float(found)) => all_finite(picked) && is_float_summary(
                        found,
                        picked,
                    ),
                    _ => false,
                }
            },
        },
{
    match samples {
        RawSamples::Integer(values) => {
            let picked: Vec<u16> = sample(values, sampling_stride(values.len()));
            proof {
                lemma_few_are_drawn(values@.len() as int);
            }
            Some(MosaicSummary::Integer(summarize_samples(&picked)))
        },
        RawSamples::Float(values) => {
            let picked: Vec<u32> = sample(values, sampling_stride(values.len()));
            match summarize_float_samples(&picked) {
                Some(found) => Some(MosaicSummary::Float(found)),
                None => None,
            }
        },
    }
}

/// The scenarios that the reference camera is tried in.
pub open spec fn scenario_names() -> Seq<Seq<char>> {
    seq![
        "daylight"@,
        "tungsten"@,
        "high-iso"@,
        "underexposed"@,
        "saturated-light"@,
        "lossy-arw"@,
        "lossless-l-arw"@,
        "uncompressed-arw"@,
    ]
}

fn list_scenarios() -> (names: Vec<String>)
    ensures
        texts(names@) == scenario_names(),
{
    let mut names: Vec<String> = Vec::new();
    names.push("daylight".to_owned());
    names.push("tungsten".to_owned());
    names.push("high-iso".to_owned());
    names.push("underexposed".to_owned());
    names.push("saturated-light".to_owned());
    names.push("lossy-arw".to_owned());
    names.push("lossless-l-arw".to_owned());
    names.push("uncompressed-arw".to_owned());
    assert(texts(names@) =~= scenario_names());
    names
}

/// Why the scenarios of an acceptance run do not add up.
#[derive(Debug, Clone, Copy, PartialEq, Eq, Structural)]
pub enum CoverageProblem {
    /// A scenario is deferred twice.
    DeferredTwice,
    /// The covered scenario at this place is unknown.
    Unknown(usize),
    /// The covered scenario at this place is covered before.
    CoveredTwice(usize),
    /// A covered scenario is still deferred.
    StillDeferred,
    /// A scenario is neither covered nor deferred, or something unknown is deferred.
    Unaccounted,
}

/// Some text occurs before position `i` too.
pub open spec fn occurs_before(list: Seq<Seq<char>>, i: int) -> bool {
    list.take(i).contains(list[i])
}

/// No text occurs twice.
pub open spec fn all_differ(list: Seq<Seq<char>>) -> bool {
    forall|i: int| 0 <= i < list.len() ==> !(#[trigger] occurs_before(list, i))
}

/// The covered scenario at this place is known, and covered for the first time.
pub open spec fn is_sound(covered: Seq<Seq<char>>, i: int) -> bool {
    scenario_names().contains(covered[i]) && !occurs_before(covered, i)
}

/// The covered scenario at this place is the first that is not sound.
pub open spec fn is_first_fault(covered: Seq<Seq<char>>, i: int) -> bool {
    &&& 0 <= i < covered.len()
    &&& !is_sound(covered, i)
    &&& forall|j: int| 0 <= j < i ==> #[trigger] is_sound(covered, j)
}

/// Every covered scenario is sound.
pub open spec fn all_sound(covered: Seq<Seq<char>>) -> bool {
    forall|i: int| 0 <= i < covered.len() ==> #[trigger] is_sound(covered, i)
}

/// Some text stands in both lists.
pub open spec fn lists_meet(a: Seq<Seq<char>>, b: Seq<Seq<char>>) -> bool {
    exists|i: int| 0 <= i < a.len() && b.contains(#[trigger] a[i])
}

/// The two lists together hold the scenarios and nothing else.
pub open spec fn accounts_for_all(deferred: Seq<Seq<char>>, covered: Seq<Seq<char>>) -> bool {
    &&& forall|i: int| 0 <= i < deferred.len() ==> scenario_names().contains(#[trigger] deferred[i])
    &&& forall|i: int|
        0 <= i < scenario_names().len() ==> deferred.contains(#[trigger] scenario_names()[i])
            || covered.contains(scenario_names()[i])
}

/// The position of the first text that occurs twice.
fn first_repeat(list: &Vec<String>) -> (found: Option<usize>)
    ensures
        found is None <==> all_differ(texts(list@)),
{
    let ghost all = texts(list@);
    let mut i: usize = 0;
    while i < list.len()
        invariant
            i <= list@.len(),
            all == texts(list@),
            forall|j: int| 0 <= j < i ==> !(#[trigger] occurs_before(all, j)),
        decreases list@.len() - i,
    {
        if repeats_at(list, i) {
            return Some(i);
        }
        i += 1;
    }
    None
}

fn repeats_at(list: &Vec<String>, i: usize) -> (repeats: bool)
    requires
        i < list@.len(),
    ensures
        repeats == occurs_before(texts(list@), i as int),
{
    let ghost all = texts(list@);
    let mut j: usize = 0;
    while j < i
        invariant
            j <= i < list@.len(),
            all == texts(list@),
            forall|k: int| 0 <= k < j ==> #[trigger] all[k] != all[i as int],
        decreases i - j,
    {
        if same_text(list[j].as_str(), list[i].as_str()) {
            assert(all.take(i as int)[j as int] == all[i as int]);
            return true;
        }
        assert(all[j as int] == list@[j as int]@);
        assert(all[i as int] == list@[i as int]@);
        j += 1;
    }
    assert(!occurs_before(all, i as int)) by {
        if all.take(i as int).contains(all[i as int]) {
            let k = choose|k: int|
                0 <= k < all.take(i as int).len() && all.take(i as int)[k] == all[i as int];
            assert(all[k] == all[i as int]);
        }
    }
    false
}

/// Whether two lists have a text in common.
fn share_text(a: &Vec<String>, b: &Vec<String>) -> (share: bool)
    ensures
        share == lists_meet(texts(a@), texts(b@)),
{
    let ghost (first, second) = (texts(a@), texts(b@));
    let mut i: usize = 0;
    while i < a.len()
        invariant
            i <= a@.len(),
            first == texts(a@),
            second == texts(b@),
            forall|j: int| 0 <= j < i ==> !second.contains(#[trigger] first[j]),
        decreases a@.len() - i,
    {
        assert(first[i as int] == a@[i as int]@);
        if holds_text(b, a[i].as_str()) {
            return true;
        }
        i += 1;
    }
    false
}

/// Whether the two lists together hold the scenarios and nothing else.
fn accounted(names: &Vec<String>, deferred: &Vec<String>, covered: &Vec<String>) -> (all: bool)
    requires
        texts(names@) == scenario_names(),
    ensures
        all == accounts_for_all(texts(deferred@), texts(covered@)),
{
    let ghost (first, second) = (texts(deferred@), texts(covered@));
    let mut i: usize = 0;
    while i < deferred.len()
        invariant
            i <= deferred@.len(),
            texts(names@) == scenario_names(),
            first == texts(deferred@),
            forall|j: int| 0 <= j < i ==> scenario_names().contains(#[trigger] first[j]),
        decreases deferred@.len() - i,
    {
        assert(first[i as int] == deferred@[i as int]@);
        if !holds_text(names, deferred[i].as_str()) {
            return false;
        }
        i += 1;
    }
    let mut k: usize = 0;
    while k < names.len()
        invariant
            k <= names@.len(),
            texts(names@) == scenario_names(),
            first == texts(deferred@),
            second == texts(covered@),
            forall|j: int|
                0 <= j < k ==> first.contains(#[trigger] scenario_names()[j]) || second.contains(
                    scenario_names()[j],
                ),
        decreases names@.len() - k,
    {
        assert(scenario_names()[k as int] == names@[k as int]@) by {
            assert(texts(names@)[k as int] == names@[k as int]@);
        }
        if !holds_text(deferred, names[k].as_str()) && !holds_text(covered, names[k].as_str()) {
            return false;
        }
        k += 1;
    }
    assert(names@.len() == texts(names@).len());
    true
}

/// Checks that every scenario is either covered by one fixture or deferred, and lists
/// the covered ones in ascending order. `covered` holds what the fixtures cover, one
/// after the other.
pub fn validate_sony_a7_rv_scenario_coverage(deferred: &Vec<String>, covered: &Vec<String>) -> (result:
    Result<Vec<String>, CoverageProblem>)
    ensures
        result matches Err(CoverageProblem::DeferredTwice) <==> !all_differ(texts(deferred@)),
        result matches Err(CoverageProblem::Unknown(i)) ==> all_differ(texts(deferred@))
            && is_first_fault(texts(covered@), i as int) && !scenario_names().contains(
            texts(covered@)[i as int],
        ),
        result matches Err(CoverageProblem::CoveredTwice(i)) ==> all_differ(texts(deferred@))
            && is_first_fault(texts(covered@), i as int) && scenario_names().contains(
            texts(covered@)[i as int],
        ),
        forall|i: usize|
            all_differ(texts(deferred@)) && #[trigger] is_first_fault(texts(covered@), i as int)
                ==> result == Err::<Vec<String>, _>(
                if scenario_names().contains(texts(covered@)[i as int]) {
                    CoverageProblem::CoveredTwice(i)
                } else {
                    CoverageProblem::Unknown(i)
                },
            ),
        result matches Err(CoverageProblem::StillDeferred) <==> all_differ(texts(deferred@))
            && all_sound(texts(covered@)) && lists_meet(texts(deferred@), texts(covered@)),
        result matches Err(CoverageProblem::Unaccounted) <==> all_differ(texts(deferred@))
            && all_sound(texts(covered@)) && !lists_meet(texts(deferred@), texts(covered@))
            && !accounts_for_all(texts(deferred@), texts(covered@)),
        result matches Ok(list) ==> is_ascending(texts(list@)) && forall|name: Seq<char>| #[trigger]
            texts(list@).contains(name) <==> texts(covered@).contains(name),
{
    let names: Vec<String> = list_scenarios();
    let ghost (first, second) = (texts(deferred@), texts(covered@));
    if first_repeat(deferred).is_some() {
        return Err(CoverageProblem::DeferredTwice);
    }
    let mut list: Vec<String> = Vec::new();
    let mut i: usize = 0;
    while i < covered.len()
        invariant
            i <= covered@.len(),
            texts(names@) == scenario_names(),
            first == texts(deferred@),
            second == texts(covered@),
            all_differ(first),
            forall|j: int| 0 <= j < i ==> #[trigger] is_sound(second, j),
            is_ascending(texts(list@)),
            forall|name: Seq<char>| #[trigger]
                texts(list@).contains(name) <==> second.take(i as int).contains(name),
        decreases covered@.len() - i,
    {
        assert(second[i as int] == covered@[i as int]@);
        let known: bool = holds_text(&names, covered[i].as_str());
        let repeated: bool = repeats_at(covered, i);
        assert((known && !repeated) == is_sound(second, i as int));
        if !known || repeated {
            assert(is_first_fault(second, i as int));
            assert forall|j: usize| #[trigger] is_first_fault(second, j as int) implies j == i by {
                if j > i {
                    assert(is_sound(second, i as int));
                } else if j < i {
                    assert(is_sound(second, j as int));
                }
            }
            assert(!all_sound(second));
            if !known {
                return Err(CoverageProblem::Unknown(i));
            }
            return Err(CoverageProblem::CoveredTwice(i));
        }
        let ghost before = texts(list@);
        insert_text(&mut list, covered[i].clone());
        proof {
            let (shorter, longer) = (second.take(i as int), second.take(i + 1));
            assert(longer =~= shorter.push(second[i as int]));
            assert forall|name: Seq<char>| #[trigger] texts(list@).contains(name)
                <==> longer.contains(name) by {
                assert(longer.contains(name) <==> shorter.contains(name) || name
                    == second[i as int]) by {
                    if shorter.contains(name) {
                        let k = choose|k: int| 0 <= k < shorter.len() && shorter[k] == name;
                        assert(longer[k] == name);
                    }
                    if name == second[i as int] {
                        assert(longer[i as int] == name);
                    }
                }
                assert(before.contains(name) <==> shorter.contains(name));
            }
        }
        i += 1;
    }
    assert(second.take(covered@.len() as int) =~= second);
    assert forall|j: usize| !(#[trigger] is_first_fault(second, j as int)) by {
        if 0 <= j < second.len() {
            assert(is_sound(second, j as int));
        }
    }
    if share_text(deferred, covered) {
        return Err(CoverageProblem::StillDeferred);
    }
    if !accounted(&names, deferred, covered) {
        return Err(CoverageProblem::Unaccounted);
    }
    Ok(list)
}

/// A fixture is accepted exactly if it meets every rule: plain names, a sample of a real camera,
/// scenarios exactly with a baseline, and then of the reference camera with a scope, and no blank
/// where something has to be said.
pub proof fn law_accepted_fixtures_meet_every_rule(fixture: Fixture, windows: bool)
    ensures
        ({
            let kind = fixture.classification;
            let scenarios = fixture.covered_sony_a7_rv_scenarios@.len();
            fixture_problem(fixture, windows) is None <==> is_plain_name(fixture.id@, windows)
                && is_plain_name(fixture.original_filename@, windows) && kind.real_camera_sample
                && kind.image_quality_baseline == (scenarios > 0) && (scenarios > 0 ==> (
            kind.image_quality_scope is Some && !is_blank(kind.image_quality_scope->0@)
                && fixture.camera.model@ == "ILCE-7RM5"@)) && !is_blank(
                fixture.authorization.scope@,
            ) && !is_blank(fixture.authorization.permission@) && !is_blank(fixture.source@)
                && !is_blank(fixture.expected_raw_properties.compression@)
        }),
{
}

/// The file of a fixture has its size and its digest, and a file that has both is accepted.
pub proof fn law_only_the_file_itself_is_accepted(fixture: Fixture, bytes: Seq<u8>)
    ensures
        file_problem(fixture, bytes) is None <==> bytes.len() == fixture.byte_size && hex_text(
            sha256_digest(bytes),
        ) == fixture.sha256@,
        file_problem(fixture, bytes) == Some(FileProblem::SizeChanged) <==> bytes.len()
            != fixture.byte_size,
{
}

/// A decoded file is accepted exactly if it meets every expectation: the camera, the size of the
/// sensor, one component of the expected depth in the expected mosaic, a usable white balance, a
/// colour matrix, and a white level in the upper half of what the recorded bits hold.
pub proof fn law_accepted_files_meet_every_expectation(fixture: Fixture, raw: RawProperties)
    requires
        raw.width <= u32::MAX,
        raw.height <= u32::MAX,
    ensures
        ({
            let expected = fixture.expected_raw_properties;
            raw_problem(fixture, raw) is None <==> raw.make@ == fixture.camera.make@ && raw.model@
                == fixture.camera.model@ && raw.width == fixture.expected_sensor_dimensions.width
                && raw.height == fixture.expected_sensor_dimensions.height && raw.bits_per_sample
                == expected.decoded_bits_per_sample && raw.components_per_pixel == 1 && (
            raw.cfa is Some && raw.cfa->0@ == expected.cfa@) && raw.white_balance_is_valid
                && raw.color_matrix_count > 0 && 1 <= expected.source_bits_per_sample < 32
                && fits_depth(raw.white_level as int, expected.source_bits_per_sample as int)
        }),
{
}

/// A white level fits a number of bits exactly if it takes all of them.
pub proof fn law_white_levels_take_all_bits(white_level: int, bits: int)
    requires
        1 <= bits,
    ensures
        fits_depth(white_level, bits) <==> pow2((bits - 1) as nat) <= white_level < pow2(
            bits as nat,
        ),
{
    vstd::arithmetic::power2::lemma_pow2_unfold(bits as nat);
    vstd::arithmetic::power2::lemma_pow2_pos((bits - 1) as nat);
}

/// What is reported of a decoded file is what the decoder found: the first white level, or the
/// largest there is, the pattern of the mosaic with a period of one at least, and a white balance
/// that is valid exactly if the three channels have positive numbers.
pub proof fn law_reports_show_what_was_found(raw: DecodedRaw)
    ensures
        ({
            let found = raw.description;
            let shown = properties_of(raw);
            &&& shown.make@ == found.make@
            &&& shown.model@ == found.model@
            &&& shown.width == found.width
            &&& shown.height == found.height
            &&& shown.bits_per_sample == found.bits_per_sample
            &&& shown.components_per_pixel == found.components_per_pixel
            &&& shown.color_matrix_count == found.color_matrix_count
            &&& shown.samples == raw.samples
            &&& found.white_levels@.len() > 0 ==> shown.white_level == found.white_levels@[0]
            &&& found.white_levels@.len() == 0 ==> shown.white_level == 0xffff_ffff
            &&& shown.cfa is Some <==> found.cfa is Some
            &&& found.cfa matches Some(pattern) ==> shown.cfa->0@ == pattern.name@
                && shown.cfa_width >= 1 && (pattern.width >= 1 ==> shown.cfa_width == pattern.width)
                && shown.cfa_height >= 1 && (pattern.height >= 1 ==> shown.cfa_height
                == pattern.height)
            &&& found.cfa is None ==> shown.cfa_width == 1 && shown.cfa_height == 1
            &&& shown.white_balance_is_valid <==> 0 < found.white_balance[0] < 0x7f80_0000 && 0
                < found.white_balance[1] < 0x7f80_0000 && 0 < found.white_balance[2] < 0x7f80_0000
        }),
{
    let c = raw.description.white_balance;
    assert((forall|i: int| 0 <= i < 3 ==> is_positive_number(#[trigger] c[i])) <==> (
    is_positive_number(c[0]) && is_positive_number(c[1]) && is_positive_number(c[2]))) by {
        if is_positive_number(c[0]) && is_positive_number(c[1]) && is_positive_number(c[2]) {
            assert forall|i: int| 0 <= i < 3 implies is_positive_number(#[trigger] c[i]) by {
                if i == 0 {
                } else if i == 1 {
                } else {
                    assert(i == 2);
                }
            }
        }
    }
}

/// A probe lies in the middle: it starts on a whole period, holds whole periods, as many as are
/// asked for and there, and what is left on both sides differs by less than two periods and a
/// sample.
pub proof fn law_probes_lie_in_the_middle(total: int, requested: int, period: int)
    requires
        0 < period <= total,
        period <= requested,
    ensures
        ({
            let length = probed_length(total, requested, period);
            let start = centered_start(total, length, period);
            &&& length % period == 0
            &&& start % period == 0
            &&& 0 < length
            &&& length <= total
            &&& length <= requested
            &&& length + period > total || length + period > requested
            &&& 0 <= start
            &&& start + length <= total
            &&& 0 <= (total - start - length) - start < 2 * period
        }),
{
    let least = if requested < total {
        requested
    } else {
        total
    };
    let length = probed_length(total, requested, period);
    let rest = total - length;
    let half = rest / 2;
    let start = centered_start(total, length, period);
    vstd::arithmetic::div_mod::lemma_fundamental_div_mod(least, period);
    vstd::arithmetic::div_mod::lemma_fundamental_div_mod(half, period);
    vstd::arithmetic::div_mod::lemma_mod_multiples_basic(least / period, period);
    vstd::arithmetic::div_mod::lemma_mod_multiples_basic(half / period, period);
    assert(period * (least / period) == least / period * period && period * (half / period) == half
        / period * period) by (nonlinear_arith);
    assert(0 < length) by (nonlinear_arith)
        requires
            length == least - least % period,
            0 <= least % period < period,
            period <= least,
    ;
}

/// The bytes of samples can be read back: the low byte of each comes before its high byte.
pub proof fn law_sample_bytes_can_be_read(samples: Seq<u16>, i: int)
    requires
        0 <= i < samples.len(),
    ensures
        sample_bytes(samples).len() == 2 * samples.len(),
        sample_bytes(samples)[2 * i] + 256 * sample_bytes(samples)[2 * i + 1] == samples[i],
{
}

/// The sum of samples counts each of them once.
pub proof fn law_sums_count_every_sample(samples: Seq<u16>, more: u16)
    ensures
        sample_sum(samples.push(more)) == sample_sum(samples) + more,
        sample_sum(Seq::empty()) == 0,
{
    assert(samples.push(more).drop_last() =~= samples);
}

/// The rank of numbers by their bits is their order: negative ones come before the others, larger
/// bits are farther from zero, and both zeros have one rank.
pub proof fn law_ranks_order_numbers(a: u32, b: u32)
    ensures
        a < 0x8000_0000 && b < 0x8000_0000 ==> (float_rank(a) < float_rank(b) <==> a < b),
        a > 0x8000_0000 && b < 0x8000_0000 ==> float_rank(a) < float_rank(b),
        a >= 0x8000_0000 && b >= 0x8000_0000 ==> (float_rank(a) < float_rank(b) <==> a > b),
        float_rank(0x8000_0000) == float_rank(0),
{
}

/// The values that are drawn stand a stride apart, from the first one on, to the end.
pub proof fn law_drawn_values_are_a_stride_apart<T>(values: Seq<T>, stride: int, i: int)
    requires
        0 < stride,
        0 <= i * stride < values.len(),
        0 <= i,
    ensures
        0 <= i < drawn(values, stride).len(),
        drawn(values, stride)[i] == values[i * stride],
        (drawn(values, stride).len() - 1) * stride < values.len(),
{
    let n = (values.len() + stride - 1) / stride;
    vstd::arithmetic::div_mod::lemma_fundamental_div_mod(values.len() + stride - 1, stride);
    assert(stride * n == n * stride && (n - 1) * stride == n * stride - stride) by (nonlinear_arith);
    assert(i < n) by (nonlinear_arith)
        requires
            i * stride < values.len(),
            values.len() <= n * stride,
            0 < stride,
    ;
    assert(0 <= n);
}

/// A preview keeps the size of an image that fits; otherwise its longer edge is the maximum and the
/// other one keeps the proportion, to the nearest pixel.
pub proof fn law_previews_keep_the_proportion(width: u32, height: u32, max_edge: u32)
    requires
        0 < max_edge,
    ensures
        width <= max_edge && height <= max_edge ==> fitted(width, height, max_edge).width == width
            && fitted(width, height, max_edge).height == height,
        width > max_edge && width >= height ==> {
            let found = fitted(width, height, max_edge);
            &&& found.width == max_edge
            &&& -width <= 2 * (height * max_edge) - 2 * (found.height * width) <= width
        },
        height > max_edge && height >= width ==> {
            let found = fitted(width, height, max_edge);
            &&& found.height == max_edge
            &&& -height <= 2 * (width * max_edge) - 2 * (found.width * height) <= height
        },
{
    if width > max_edge || height > max_edge {
        let edge = longer(width, height) as int;
        lemma_edge_is_fitted(width as int, edge, max_edge as int);
        lemma_edge_is_fitted(height as int, edge, max_edge as int);
    }
}

proof fn lemma_edge_is_fitted(length: int, edge: int, max_edge: int)
    requires
        0 <= length <= edge,
        0 < max_edge < edge,
        max_edge <= u32::MAX,
    ensures
        0 <= rounded_ratio(length, edge, max_edge) <= max_edge,
        length == edge ==> rounded_ratio(length, edge, max_edge) == max_edge,
        -edge <= 2 * (length * max_edge) - 2 * (rounded_ratio(length, edge, max_edge) * edge)
            <= edge,
{
    let scaled = rounded_ratio(length, edge, max_edge);
    law_scaled_lengths_are_nearest(length, edge, max_edge);
    assert(0 <= length * max_edge <= edge * max_edge) by (nonlinear_arith)
        requires
            0 <= length <= edge,
            0 < max_edge,
    ;
    assert(0 <= scaled <= max_edge) by (nonlinear_arith)
        requires
            -edge <= 2 * (length * max_edge) - 2 * (scaled * edge) <= edge,
            0 <= length * max_edge <= edge * max_edge,
            0 < edge,
    ;
    if length == edge {
        assert(scaled == max_edge) by (nonlinear_arith)
            requires
                -edge < 2 * (edge * max_edge) - 2 * (scaled * edge) + 1 <= edge + 1,
                0 < edge,
                scaled <= max_edge,
        ;
    }
}

/// A file is accepted exactly if it could be decoded and meets every expectation, and what is
/// reported of it is what was found.
pub proof fn law_only_sound_files_are_accepted(fixture: Fixture, raw: Option<DecodedRaw>)
    ensures
        raw is None ==> judgement(fixture, raw) == Err::<RawProperties, _>(RawFileProblem::NotDecoded),
        judgement(fixture, raw) is Ok <==> raw is Some && raw_problem(
            fixture,
            properties_of(raw->0),
        ) is None,
        raw is Some && raw_problem(fixture, properties_of(raw->0)) is None ==> judgement(fixture, raw)
            == Ok::<_, RawFileProblem>(properties_of(raw->0)),
        raw is Some && raw_problem(fixture, properties_of(raw->0)) is Some ==> judgement(fixture, raw)
            == Err::<RawProperties, _>(
            RawFileProblem::Raw(raw_problem(fixture, properties_of(raw->0))->0),
        ),
{
}

/// The values of a frame stand pixel by pixel and row by row, and every value has a place of its
/// own.
pub proof fn law_values_have_their_own_places(
    width: int,
    components: int,
    x: int,
    y: int,
    c: int,
    u: int,
    v: int,
    d: int,
)
    requires
        0 <= x < width,
        0 <= u < width,
        0 <= c < components,
        0 <= d < components,
        value_index(width, components, x, y, c) == value_index(width, components, u, v, d),
    ensures
        x == u,
        y == v,
        c == d,
        c + 1 < components ==> value_index(width, components, x, y, c + 1) == value_index(
            width,
            components,
            x,
            y,
            c,
        ) + 1,
        value_index(width, components, x, y + 1, c) == value_index(width, components, x, y, c) + width
            * components,
{
    let (p, q) = (y * width + x, v * width + u);
    assert(p == q && c == d) by (nonlinear_arith)
        requires
            p * components + c == q * components + d,
            0 <= c < components,
            0 <= d < components,
    ;
    assert(y == v && x == u) by (nonlinear_arith)
        requires
            y * width + x == v * width + u,
            0 <= x < width,
            0 <= u < width,
    ;
    assert(((y + 1) * width + x) * components + c == ((y * width + x) * components + c) + width
        * components) by (nonlinear_arith);
}

/// A probe shows the middle of a frame: whole periods of its pattern, 512 columns and rows at
/// most and as many of them as fit, and every value of it is that of the frame at the same place.
pub proof fn law_probes_show_the_middle_of_a_frame<T>(
    probe: Probe<T>,
    values: Seq<T>,
    raw: RawProperties,
    x: int,
    y: int,
    c: int,
)
    requires
        is_probe_of(probe, values, raw),
        can_probe(raw),
        0 <= x < probe.width,
        0 <= y < probe.height,
        0 <= c < raw.components_per_pixel,
    ensures
        probe.width <= 512,
        probe.height <= 512,
        probe.width <= raw.width,
        probe.height <= raw.height,
        probe.width + raw.cfa_width > 512 || probe.width + raw.cfa_width > raw.width,
        probe.height + raw.cfa_height > 512 || probe.height + raw.cfa_height > raw.height,
        probe.width as int % raw.cfa_width as int == 0,
        probe.height as int % raw.cfa_height as int == 0,
        probe.origin_x as int % raw.cfa_width as int == 0,
        probe.origin_y as int % raw.cfa_height as int == 0,
        0 <= (raw.width - probe.origin_x - probe.width) - probe.origin_x < 2 * raw.cfa_width,
        0 <= (raw.height - probe.origin_y - probe.height) - probe.origin_y < 2 * raw.cfa_height,
        probe.values@[(y * probe.width + x) * raw.components_per_pixel + c] == values[((probe.origin_y
            + y) * raw.width + probe.origin_x + x) * raw.components_per_pixel + c],
{
    law_probes_lie_in_the_middle(raw.width as int, 512, raw.cfa_width as int);
    law_probes_lie_in_the_middle(raw.height as int, 512, raw.cfa_height as int);
    let components = raw.components_per_pixel as int;
    assert(probe.values@[value_index(probe.width as int, components, x, y, c)]
        == values[value_index(
        raw.width as int,
        components,
        probe.origin_x + x,
        probe.origin_y + y,
        c,
    )]);
    assert((probe.origin_y + y) * raw.width + (probe.origin_x + x) == (probe.origin_y + y) * raw.width
        + probe.origin_x + x);
}

/// The stride is the least with which no more than 262144 values are drawn.
pub proof fn law_strides_are_as_short_as_they_may(values: int)
    requires
        0 <= values,
    ensures
        stride_of(values) >= 1,
        stride_of(values) * 262_144 >= values,
        stride_of(values) > 1 ==> (stride_of(values) - 1) * 262_144 < values,
{
}

/// What a summary says of samples fits together: none is smaller than the least or larger than
/// the largest, both occur, and the sum lies between as many of the least and as many of the
/// largest.
pub proof fn law_summaries_fit_together(summary: RawSampleSummary, samples: Seq<u16>, i: int)
    requires
        is_summary(summary, samples),
        0 <= i < samples.len(),
    ensures
        summary.values == samples.len(),
        summary.min is Some,
        summary.max is Some,
        summary.min->0 <= samples[i] <= summary.max->0,
        samples.contains(summary.min->0),
        samples.contains(summary.max->0),
        summary.min->0 * samples.len() <= summary.sum <= summary.max->0 * samples.len(),
        samples.len() == 1 ==> summary.sum == samples[i],
{
    lemma_sum_lies_between(samples, summary.min->0 as int, summary.max->0 as int);
    if samples.len() == 1 {
        reveal_with_fuel(sample_sum, 2);
    }
}

proof fn lemma_sum_lies_between(samples: Seq<u16>, low: int, high: int)
    requires
        forall|i: int| 0 <= i < samples.len() ==> low <= #[trigger] samples[i] <= high,
    ensures
        low * samples.len() <= sample_sum(samples) <= high * samples.len(),
    decreases samples.len(),
{
    if samples.len() > 0 {
        let rest = samples.drop_last();
        assert forall|i: int| 0 <= i < rest.len() implies low <= #[trigger] rest[i] <= high by {
            assert(rest[i] == samples[i]);
        }
        lemma_sum_lies_between(rest, low, high);
        let n = samples.len() as int;
        assert(low * n == low * (n - 1) + low && high * n == high * (n - 1) + high)
            by (nonlinear_arith);
        assert(rest.len() == n - 1);
    } else {
        assert(low * 0 == 0 && high * 0 == 0) by (nonlinear_arith);
    }
}

/// The numbers that are summarised are finite ones, and the least and the largest of them are
/// among them.
pub proof fn law_float_summaries_hold_the_ends(
    summary: FloatSampleSummary,
    samples: Seq<u32>,
    i: int,
)
    requires
        is_float_summary(summary, samples),
        all_finite(samples),
        0 <= i < samples.len(),
    ensures
        summary.values == samples.len(),
        summary.min is Some,
        summary.max is Some,
        samples.contains(summary.min->0),
        samples.contains(summary.max->0),
        samples[i] < 0x7f80_0000 || 0x8000_0000 <= samples[i] < 0xff80_0000,
        samples[i] < 0x8000_0000 && summary.max->0 < 0x8000_0000 ==> samples[i] <= summary.max->0,
        samples[i] < 0x8000_0000 && summary.min->0 < 0x8000_0000 ==> summary.min->0 <= samples[i],
        samples[i] > 0x8000_0000 && summary.max->0 >= 0x8000_0000 ==> samples[i] >= summary.max->0,
        samples[i] > 0x8000_0000 ==> summary.min->0 >= samples[i],
        samples[i] < 0x8000_0000 && samples[i] > 0 ==> summary.max->0 < 0x8000_0000
            && summary.max->0 >= samples[i],
{
    let x = samples[i];
    assert(is_finite_number(x));
    assert(float_rank(summary.min->0) <= float_rank(x) <= float_rank(summary.max->0));
}

/// A coverage that is accepted has every scenario once: none is deferred twice, covered twice,
/// both deferred and covered, or neither, and there is no other. The eight scenarios differ in
/// their names.
pub proof fn law_every_scenario_is_accounted_for(
    deferred: Seq<Seq<char>>,
    covered: Seq<Seq<char>>,
    name: Seq<char>,
    i: int,
    j: int,
)
    requires
        all_differ(deferred),
        all_sound(covered),
        !lists_meet(deferred, covered),
        accounts_for_all(deferred, covered),
    ensures
        scenario_names().len() == 8,
        deferred.contains(name) || covered.contains(name) <==> scenario_names().contains(name),
        !(deferred.contains(name) && covered.contains(name)),
        0 <= i < j < deferred.len() ==> deferred[i] != deferred[j],
        0 <= i < j < covered.len() ==> covered[i] != covered[j],
{
    if deferred.contains(name) {
        let k = deferred.index_of(name);
        assert(scenario_names().contains(deferred[k]));
        assert(!covered.contains(deferred[k]));
    }
    if covered.contains(name) {
        let k = covered.index_of(name);
        assert(is_sound(covered, k));
    }
    if scenario_names().contains(name) {
        let k = scenario_names().index_of(name);
        assert(scenario_names()[k] == name);
    }
    if 0 <= i < j < deferred.len() {
        assert(!occurs_before(deferred, j));
        assert(deferred.take(j)[i] == deferred[i]);
    }
    if 0 <= i < j < covered.len() {
        assert(is_sound(covered, j));
        assert(covered.take(j)[i] == covered[i]);
    }
}

/// A digest is written with two digits for every byte, the sixteens before the units.
pub proof fn law_digests_are_written_in_hex(bytes: Seq<u8>, i: int)
    requires
        0 <= i < bytes.len(),
    ensures
        hex_text(bytes).len() == 2 * bytes.len(),
        ({
            let value = |digit: char|
                if '0' <= digit <= '9' {
                    digit as int - '0' as int
                } else {
                    digit as int - 'a' as int + 10
                };
            let (high, low) = (hex_text(bytes)[2 * i], hex_text(bytes)[2 * i + 1]);
            &&& '0' <= high <= '9' || 'a' <= high <= 'f'
            &&& '0' <= low <= '9' || 'a' <= low <= 'f'
            &&& 16 * value(high) + value(low) == bytes[i]
        }),
{
}

/// Without samples there is neither a least nor a largest one, and the sum is 0.
pub proof fn law_empty_summaries_have_no_ends(
    summary: RawSampleSummary,
    float_summary: FloatSampleSummary,
)
    requires
        is_summary(summary, Seq::empty()),
        is_float_summary(float_summary, Seq::empty()),
    ensures
        summary.min is None,
        summary.max is None,
        summary.sum == 0,
        summary.values == 0,
        float_summary.min is None,
        float_summary.max is None,
        float_summary.values == 0,
{
}

/// What is drawn from values is drawn at the multiples of the stride.
pub proof fn law_samples_are_drawn_from_values<T>(
    samples: Seq<T>,
    values: Seq<T>,
    stride: int,
    i: int,
)
    requires
        samples == drawn(values, stride),
        0 < stride,
        0 <= i < samples.len(),
        is_drawn(samples, values, stride, i),
    ensures
        i * stride < values.len(),
        samples[i] == values[i * stride],
{
}

/// A frame can be probed exactly if its pattern has a period in both directions that is no longer
/// than the frame and than 512, and there is a sample for every place.
pub proof fn law_frames_with_a_period_can_be_probed(raw: RawProperties, count: int)
    requires
        count == match raw.samples {
            RawSamples::Integer(values) => values@.len() as int,
            RawSamples::Float(values) => values@.len() as int,
        },
    ensures
        can_probe(raw) <==> 1 <= raw.cfa_width && raw.cfa_width <= raw.width && raw.cfa_width <= 512
            && 1 <= raw.cfa_height && raw.cfa_height <= raw.height && raw.cfa_height <= 512
            && raw.width * raw.height * raw.components_per_pixel <= count,
{
}

/// A probe has a value for every component of its pixels.
pub proof fn law_probes_are_complete<T>(probe: Probe<T>, values: Seq<T>, raw: RawProperties)
    requires
        is_probe_of(probe, values, raw),
    ensures
        probe.values@.len() == probe.width * probe.height * raw.components_per_pixel,
{
}

} // verus!
