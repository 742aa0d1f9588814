//! The decisions behind the development of a RAW file: which steps run, how levels
//! are opened, and how much a fast preview was scaled down.

use rawler::decoders::RawDecodeParams;
use rawler::imgop::develop::ProcessingStep;
use rawler::imgop::develop::RawDevelop;
use rawler::imgop::xyz::Illuminant;
use rawler::rawimage::CFAConfig;
use rawler::rawimage::RawImage;
use rawler::rawimage::RawImageData;
use rawler::rawimage::RawPhotometricInterpretation as Photometric;
use rawler::rawsource::RawSource;
use vstd::prelude::*;

use crate::text::same_text;

verus! {

/// How the pixels of a linear RAW file are treated.
#[derive(Debug, Clone, Copy, PartialEq, Eq, Structural)]
pub struct LinearMode {
    pub apply_ungamma: bool,
    pub apply_calibration: bool,
}

/// The treatment that a setting stands for. Unknown settings leave the tone curve
/// alone and calibrate.
pub open spec fn linear_mode_of(setting: Seq<char>) -> LinearMode {
    LinearMode {
        apply_ungamma: setting == "gamma"@ || setting == "gamma_skip_calib"@,
        apply_calibration: setting != "skip_calib"@ && setting != "gamma_skip_calib"@,
    }
}

pub fn parse_linear_mode(setting: &str) -> (mode: LinearMode)
    ensures
        mode == linear_mode_of(setting@),
{
    let gamma: bool = same_text(setting, "gamma");
    let skip_calib: bool = same_text(setting, "skip_calib");
    let gamma_skip_calib: bool = same_text(setting, "gamma_skip_calib");
    LinearMode {
        apply_ungamma: gamma || gamma_skip_calib,
        apply_calibration: !skip_calib && !gamma_skip_calib,
    }
}

/// A step of the development of a RAW file.
#[derive(Debug, Clone, Copy, PartialEq, Eq, Structural)]
pub enum DevelopStep {
    Rescale,
    Demosaic,
    FujiRotate,
    CropActiveArea,
    WhiteBalance,
    Calibrate,
    CropDefault,
    SRgb,
}

/// Whether a step runs. The result always stays linear; a file that is linear already needs
/// no demosaicing and may skip the calibration.
pub open spec fn is_kept(step: DevelopStep, is_linear: bool, apply_calibration: bool) -> bool {
    step != DevelopStep::SRgb && (is_linear ==> step != DevelopStep::Demosaic && (step
        == DevelopStep::Calibrate ==> apply_calibration))
}

/// Whether a step runs.
pub fn keeps_step(step: DevelopStep, is_linear_format: bool, apply_calibration: bool) -> (keeps: bool)
    ensures
        keeps == is_kept(step, is_linear_format, apply_calibration),
{
    match step {
        DevelopStep::SRgb => false,
        DevelopStep::Demosaic => !is_linear_format,
        DevelopStep::Calibrate => !is_linear_format || apply_calibration,
        _ => true,
    }
}

/// The first white level, or the largest 16-bit value where there is none.
pub open spec fn first_white_level(levels: Seq<u32>) -> u32 {
    if levels.len() == 0 {
        0xffff
    } else {
        levels[0]
    }
}

/// Opens every white level to the largest value and returns the first level as it
/// was, or the largest 16-bit value where there is none.
pub fn open_white_levels(levels: &mut Vec<u32>) -> (original: u32)
    ensures
        original == first_white_level(old(levels)@),
        final(levels)@ == Seq::new(old(levels)@.len(), |i: int| u32::MAX),
{
    let original: u32 = if levels.len() == 0 {
        0xffff
    } else {
        levels[0]
    };
    let ghost count = levels@.len();
    let mut i: usize = 0;
    while i < levels.len()
        invariant
            i <= levels@.len(),
            levels@.len() == count,
            forall|j: int| 0 <= j < i ==> #[trigger] levels@[j] == u32::MAX,
        decreases levels@.len() - i,
    {
        levels.set(i, u32::MAX);
        i += 1;
    }
    assert(levels@ =~= Seq::new(count, |i: int| u32::MAX));
    original
}

/// Repeats every value three times, so that a monochrome frame becomes a frame of
/// three equal channels.
pub fn expand_monochrome<T: Copy>(values: &Vec<T>) -> (channels: Vec<T>)
    requires
        values@.len() * 3 <= usize::MAX,
    ensures
        channels@.len() == values@.len() * 3,
        forall|i: int| 0 <= i < channels@.len() ==> #[trigger] channels@[i] == values@[i / 3],
{
    let mut channels: Vec<T> = Vec::new();
    let mut i: usize = 0;
    while i < values.len()
        invariant
            i <= values@.len(),
            channels@.len() == i * 3,
            forall|j: int| 0 <= j < channels@.len() ==> #[trigger] channels@[j] == values@[j / 3],
        decreases values@.len() - i,
    {
        channels.push(values[i]);
        channels.push(values[i]);
        channels.push(values[i]);
        i += 1;
    }
    channels
}

/// The samples of a frame. A floating-point sample is given by its bits.
pub enum RawSamples {
    Integer(Vec<u16>),
    Float(Vec<u32>),
}

/// The colour pattern of a mosaic and the size of its period.
pub struct CfaPattern {
    pub name: String,
    pub width: usize,
    pub height: usize,
}

/// How a decoder describes the frame of a RAW file.
pub struct RawDescription {
    pub make: String,
    pub model: String,
    pub width: usize,
    pub height: usize,
    pub bits_per_sample: usize,
    pub components_per_pixel: usize,
    pub cfa: Option<CfaPattern>,
    /// The bits of the white-balance coefficients: red, green, blue, and a fourth colour.
    pub white_balance: [u32; 4],
    pub white_levels: Vec<u32>,
    pub color_matrix_count: usize,
}

/// What a decoder finds in a RAW file.
pub struct DecodedRaw {
    pub description: RawDescription,
    pub samples: RawSamples,
}

/// The image that `rawler` decodes from a file.
#[verifier::external_type_specification]
#[verifier::external_body]
pub struct ExRawImage(RawImage);

/// Decodes a RAW file with `RawLoader::decode` of the global loader, or only what describes
/// the frame where no pixels are asked for. The loader turns a panic of a decoder into an
/// error. Nothing is claimed of the result: some decoders ask the environment which track of a
/// file to read.
#[verifier::external_body]
fn decode_image(file_bytes: &[u8], without_pixels: bool) -> (image: Option<RawImage>) {
    let source = RawSource::new_from_slice(file_bytes);
    let params = RawDecodeParams::default();
    rawler::global_loader().decode(&source, &params, without_pixels).ok()
}

/// Copies fields of a decoded image. Nothing is claimed of them, as nothing is known of the
/// image.
#[verifier::external_body]
fn describe_image(image: &RawImage) -> (description: RawDescription) {
    RawDescription {
        make: image.make.clone(),
        model: image.model.clone(),
        width: image.width,
        height: image.height,
        bits_per_sample: image.bps,
        components_per_pixel: image.cpp,
        cfa: match &image.photometric {
            Photometric::Cfa(CFAConfig { cfa, .. }) => Some(
                CfaPattern { name: cfa.name.clone(), width: cfa.width, height: cfa.height },
            ),
            Photometric::BlackIsZero | Photometric::LinearRaw => None,
        },
        white_balance: image.wb_coeffs.map(|coefficient| coefficient.to_bits()),
        white_levels: image.whitelevel.0.clone(), color_matrix_count: image.color_matrix.len() }
}

/// Takes the samples out of a decoded image. Nothing is claimed of them, as nothing is known
/// of the image.
#[verifier::external_body]
fn take_samples(image: RawImage) -> (samples: RawSamples) {
    match image.data {
        RawImageData::Integer(values) => RawSamples::Integer(values),
        RawImageData::Float(values) => RawSamples::Float(
            values.iter().map(|value| value.to_bits()).collect(),
        ),
    }
}

/// What a decoder finds in a RAW file, or `None` where it cannot be decoded.
pub(crate) fn decode_raw(file_bytes: &[u8], without_pixels: bool) -> (raw: Option<DecodedRaw>) {
    match decode_image(file_bytes, without_pixels) {
        Some(image) => {
            let description: RawDescription = describe_image(&image);
            Some(DecodedRaw { description, samples: take_samples(image) })
        },
        None => None,
    }
}

/// The number with these bits is finite.
pub open spec fn is_finite_number(bits: u32) -> bool {
    bits % 0x8000_0000 < 0x7f80_0000
}

/// The number with these bits is finite and positive.
pub open spec fn is_positive_number(bits: u32) -> bool {
    0 < bits < 0x7f80_0000
}

pub fn is_positive(bits: u32) -> (positive: bool)
    ensures
        positive == is_positive_number(bits),
{
    0 < bits && bits < 0x7f80_0000
}

/// What a file tells of the light that it was taken in, by the bits of its numbers: the
/// white-balance coefficients, the colour matrix for daylight, and one of all its matrices.
pub struct WhiteEvidence {
    pub coefficients: [u32; 4],
    pub d65: Option<Vec<u32>>,
    pub other: Option<Vec<u32>>,
}

/// The numbers that the temperature of the light is computed from.
pub struct AsShotWhite {
    pub coefficients: [u32; 4],
    pub matrix: Vec<u32>,
}

/// The white of a file: its coefficients with the matrix for daylight, or else with any other.
/// There is none without a matrix of nine values, or where one of the first three coefficients
/// is not finite and positive.
pub open spec fn chosen_white(evidence: Option<WhiteEvidence>) -> Option<AsShotWhite> {
    match evidence {
        None => None,
        Some(found) => {
            let matrix = match found.d65 {
                Some(matrix) => Some(matrix),
                None => found.other,
            };
            match matrix {
                None => None,
                Some(matrix) => if matrix@.len() >= 9 && (forall|i: int|
                    0 <= i < 3 ==> is_positive_number(#[trigger] found.coefficients[i])) {
                    Some(AsShotWhite { coefficients: found.coefficients, matrix })
                } else {
                    None
                },
            }
        },
    }
}

/// The white of a file, from what the file tells.
pub fn choose_white(evidence: Option<WhiteEvidence>) -> (white: Option<AsShotWhite>)
    ensures
        white == chosen_white(evidence),
{
    let found: WhiteEvidence = match evidence {
        Some(found) => found,
        None => {
            return None;
        },
    };
    let coefficients: [u32; 4] = found.coefficients;
    let positive: bool = is_positive(coefficients[0]) && is_positive(coefficients[1])
        && is_positive(coefficients[2]);
    assert(positive == forall|i: int|
        0 <= i < 3 ==> is_positive_number(#[trigger] found.coefficients[i])) by {
        assert(coefficients[0] == found.coefficients[0] && coefficients[1]
            == found.coefficients[1] && coefficients[2] == found.coefficients[2]);
    }
    let matrix: Option<Vec<u32>> = match found.d65 {
        Some(matrix) => Some(matrix),
        None => found.other,
    };
    match matrix {
        Some(matrix) => if matrix.len() >= 9 && positive {
            Some(AsShotWhite { coefficients, matrix })
        } else {
            None
        },
        None => None,
    }
}

/// Copies the coefficients and colour matrices of a decoded image: the one for the illuminant
/// D65, and the first that the map of all matrices hands out. Nothing is claimed of them, as
/// nothing is known of the image, and the order of the map is open.
#[verifier::external_body]
fn white_of_image(image: &RawImage) -> (evidence: WhiteEvidence) {
    let matrix = image.color_matrix.get(&Illuminant::D65);
    let any = image.color_matrix.values().next();
    WhiteEvidence {
        coefficients: image.wb_coeffs.map(|value| value.to_bits()),
        d65: matrix.map(|values| values.iter().map(|value| value.to_bits()).collect()),
        other: any.map(|values| values.iter().map(|value| value.to_bits()).collect()),
    }
}

/// The white that a RAW file was taken in. What the file tells rests with the decoder: the
/// white is chosen from some evidence, or from none.
pub fn as_shot_white(file_bytes: &[u8]) -> (white: Option<AsShotWhite>)
    ensures
        exists|evidence: Option<WhiteEvidence>| white == #[trigger] chosen_white(evidence),
{
    let evidence: Option<WhiteEvidence> = match decode_image(file_bytes, true) {
        Some(image) => Some(white_of_image(&image)),
        None => None,
    };
    choose_white(evidence)
}

/// What a decoded file tells of how it is to be developed.
pub struct DevelopmentEvidence {
    pub is_linear: bool,
    pub white_levels: Vec<u32>,
    /// The bits of the first black level.
    pub black_level: Option<u32>,
}

/// How a RAW file is developed.
pub struct DevelopmentPlan {
    pub is_linear: bool,
    pub mode: LinearMode,
    /// The steps that run, in their order.
    pub steps: Vec<DevelopStep>,
    /// The white level that the values are scaled by afterwards.
    pub white_level: u32,
    /// The white levels that the development runs with.
    pub opened_levels: Vec<u32>,
    /// The bits of the black level.
    pub black_level: u32,
}

/// The steps that run, in their order.
pub open spec fn kept_steps(
    steps: Seq<DevelopStep>,
    is_linear: bool,
    apply_calibration: bool,
) -> Seq<DevelopStep>
    decreases steps.len(),
{
    if steps.len() == 0 {
        Seq::empty()
    } else {
        let earlier = kept_steps(steps.drop_last(), is_linear, apply_calibration);
        if is_kept(steps.last(), is_linear, apply_calibration) {
            earlier.push(steps.last())
        } else {
            earlier
        }
    }
}

/// All steps of a development, in the order in which they run.
pub open spec fn development_steps() -> Seq<DevelopStep> {
    seq![
        DevelopStep::Rescale,
        DevelopStep::Demosaic,
        DevelopStep::FujiRotate,
        DevelopStep::CropActiveArea,
        DevelopStep::WhiteBalance,
        DevelopStep::Calibrate,
        DevelopStep::CropDefault,
        DevelopStep::SRgb,
    ]
}

/// The steps of `RawDevelop::default`, in the order in which they run: all that there are.
#[verifier::external_body]
fn default_steps() -> (steps: Vec<DevelopStep>)
    ensures
        steps@ == development_steps(),
{
    let named = RawDevelop::default().steps.into_iter().map(|step| match step {
        ProcessingStep::Rescale => DevelopStep::Rescale,
        ProcessingStep::Demosaic => DevelopStep::Demosaic,
        ProcessingStep::FujiRotate => DevelopStep::FujiRotate,
        ProcessingStep::CropActiveArea => DevelopStep::CropActiveArea,
        ProcessingStep::WhiteBalance => DevelopStep::WhiteBalance,
        ProcessingStep::Calibrate => DevelopStep::Calibrate,
        ProcessingStep::CropDefault => DevelopStep::CropDefault,
        ProcessingStep::SRgb => DevelopStep::SRgb,
    });
    named.collect()
}

/// The plan follows from what the file tells and from the setting for linear files: the kept
/// steps, the first levels, and every white level opened to the largest value.
pub open spec fn is_plan(
    plan: DevelopmentPlan,
    raw: DevelopmentEvidence,
    linear_mode: Seq<char>,
) -> bool {
    let mode = linear_mode_of(linear_mode);
    &&& plan.is_linear == raw.is_linear
    &&& plan.mode == mode
    &&& plan.steps@ == kept_steps(development_steps(), raw.is_linear, mode.apply_calibration)
    &&& plan.white_level == first_white_level(raw.white_levels@)
    &&& plan.opened_levels@ == Seq::new(raw.white_levels@.len(), |i: int| u32::MAX)
    &&& plan.black_level == match raw.black_level {
        Some(bits) => bits,
        None => 0,
    }
}

/// Plans the development of a file, from what the file tells.
pub fn plan_development(raw: DevelopmentEvidence, linear_mode: &str) -> (plan: DevelopmentPlan)
    ensures
        is_plan(plan, raw, linear_mode@),
{
    let mode: LinearMode = parse_linear_mode(linear_mode);
    let mut opened_levels: Vec<u32> = raw.white_levels;
    let white_level: u32 = open_white_levels(&mut opened_levels);
    let all: Vec<DevelopStep> = default_steps();
    let mut steps: Vec<DevelopStep> = Vec::new();
    let mut i: usize = 0;
    assert(all@.take(0) =~= Seq::empty());
    assert(steps@ =~= Seq::empty());
    while i < all.len()
        invariant
            i <= all@.len(),
            steps@ == kept_steps(all@.take(i as int), raw.is_linear, mode.apply_calibration),
        decreases all@.len() - i,
    {
        let step: DevelopStep = all[i];
        assert(all@.take(i + 1).drop_last() =~= all@.take(i as int));
        if keeps_step(step, raw.is_linear, mode.apply_calibration) {
            steps.push(step);
        }
        i += 1;
    }
    assert(all@.take(all@.len() as int) =~= all@);
    let black_level: u32 = match raw.black_level {
        Some(bits) => bits,
        None => 0,
    };
    DevelopmentPlan {
        is_linear: raw.is_linear,
        mode,
        steps,
        white_level,
        opened_levels,
        black_level,
    }
}

/// Copies the levels of a decoded image, and says whether it is linear. Nothing is claimed of
/// them, as nothing is known of the image.
#[verifier::external_body]
fn development_of_image(image: &RawImage) -> (evidence: DevelopmentEvidence) {
    DevelopmentEvidence {
        is_linear: match image.photometric {
            Photometric::LinearRaw => true,
            Photometric::BlackIsZero | Photometric::Cfa(_) => false,
        },
        white_levels: image.whitelevel.0.clone(),
        black_level: image.blacklevel.levels.first().map(|level| level.as_f32().to_bits()),
    }
}

/// A decoded file with the plan of its development.
pub struct PreparedRaw {
    pub plan: DevelopmentPlan,
    pub image: RawImage,
}

/// The plan of a file that could be decoded follows from the evidence; a file that could not
/// be decoded has none.
pub open spec fn is_prepared(
    prepared: Option<PreparedRaw>,
    raw: Option<DevelopmentEvidence>,
    linear_mode: Seq<char>,
) -> bool {
    match (prepared, raw) {
        (Some(found), Some(evidence)) => is_plan(found.plan, evidence, linear_mode),
        (None, None) => true,
        _ => false,
    }
}

/// Decodes a RAW file and plans its development. What the file tells rests with the decoder:
/// the plan follows from some evidence, or there is none.
pub fn prepare_development(file_bytes: &[u8], linear_mode: &str) -> (prepared: Option<PreparedRaw>)
    ensures
        exists|raw: Option<DevelopmentEvidence>| #[trigger] is_prepared(
            prepared,
            raw,
            linear_mode@,
        ),
{
    match decode_image(file_bytes, false) {
        Some(image) => {
            let evidence: DevelopmentEvidence = development_of_image(&image);
            let ghost seen = evidence;
            let plan: DevelopmentPlan = plan_development(evidence, linear_mode);
            let prepared: PreparedRaw = PreparedRaw { plan, image };
            assert(is_prepared(Some(prepared), Some(seen), linear_mode@));
            Some(prepared)
        },
        None => {
            assert(is_prepared(None, None, linear_mode@));
            None
        },
    }
}

/// The size of a fast preview in relation to the frame of its file.
#[derive(Debug, Clone, Copy, PartialEq, Eq, Structural)]
pub enum PreviewScale {
    Quarter,
    Half,
    Full,
}

/// The scale of a preview, from the longest edges of the frame and of the preview:
/// above a tenth and below 35 percent it is a quarter, from there to below three
/// quarters a half.
pub open spec fn scale_of(frame_edge: int, preview_edge: int) -> PreviewScale {
    if frame_edge == 0 {
        PreviewScale::Full
    } else if preview_edge * 10 > frame_edge && preview_edge * 20 < frame_edge * 7 {
        PreviewScale::Quarter
    } else if preview_edge * 20 >= frame_edge * 7 && preview_edge * 4 < frame_edge * 3 {
        PreviewScale::Half
    } else {
        PreviewScale::Full
    }
}

pub open spec fn longer_edge(width: int, height: int) -> int {
    if width > height {
        width
    } else {
        height
    }
}

/// The scale of a preview of a frame whose size is known. The ratio of the edges is compared
/// exactly, however long they are.
pub fn preview_scale(
    frame_width: usize,
    frame_height: usize,
    decoded_width: u32,
    decoded_height: u32,
) -> (scale: PreviewScale)
    ensures
        scale == scale_of(
            longer_edge(frame_width as int, frame_height as int),
            longer_edge(decoded_width as int, decoded_height as int),
        ),
{
    let frame_edge: u128 = if frame_width > frame_height {
        frame_width as u128
    } else {
        frame_height as u128
    };
    let preview_edge: u128 = if decoded_width > decoded_height {
        decoded_width as u128
    } else {
        decoded_height as u128
    };
    if frame_edge == 0 {
        PreviewScale::Full
    } else if preview_edge * 10 > frame_edge && preview_edge * 20 < frame_edge * 7 {
        PreviewScale::Quarter
    } else if preview_edge * 20 >= frame_edge * 7 && preview_edge * 4 < frame_edge * 3 {
        PreviewScale::Half
    } else {
        PreviewScale::Full
    }
}

/// The scale of a preview that stands for a frame; a file without a frame counts as not
/// scaled.
pub open spec fn scale_for_frame(
    frame: Option<(usize, usize)>,
    decoded_width: u32,
    decoded_height: u32,
) -> PreviewScale {
    match frame {
        Some(size) => scale_of(
            longer_edge(size.0 as int, size.1 as int),
            longer_edge(decoded_width as int, decoded_height as int),
        ),
        None => PreviewScale::Full,
    }
}

/// How much a fast preview was scaled down, given the size of the frame of its file, if the
/// file could be decoded.
pub fn scale_factor_for_frame(
    frame: Option<(usize, usize)>,
    decoded_width: u32,
    decoded_height: u32,
) -> (scale: PreviewScale)
    ensures
        scale == scale_for_frame(frame, decoded_width, decoded_height),
{
    match frame {
        Some((width, height)) => preview_scale(width, height, decoded_width, decoded_height),
        None => PreviewScale::Full,
    }
}

/// How much a fast preview of a RAW file was scaled down. A file that cannot be decoded counts
/// as not scaled. Which frame a file holds rests with the decoder: the scale is that of some
/// frame, or of none.
pub fn get_fast_demosaic_scale_factor(
    file_bytes: &[u8],
    decoded_width: u32,
    decoded_height: u32,
) -> (scale: PreviewScale)
    ensures
        exists|frame: Option<(usize, usize)>|
            scale == #[trigger] scale_for_frame(frame, decoded_width, decoded_height),
{
    let frame: Option<(usize, usize)> = match decode_raw(file_bytes, true) {
        Some(raw) => Some((raw.description.width, raw.description.height)),
        None => None,
    };
    scale_factor_for_frame(frame, decoded_width, decoded_height)
}

/// Every step runs but for these: the conversion to sRGB never does, so that the result stays
/// linear; a file that is linear already is not demosaiced, and calibrated only if that is asked
/// for.
pub proof fn law_developments_stay_linear(step: DevelopStep, is_linear: bool, apply_calibration: bool)
    ensures
        step == DevelopStep::SRgb ==> !is_kept(step, is_linear, apply_calibration),
        step == DevelopStep::Demosaic ==> is_kept(step, is_linear, apply_calibration) == !is_linear,
        step == DevelopStep::Calibrate && is_linear ==> is_kept(step, is_linear, apply_calibration)
            == apply_calibration,
        step == DevelopStep::Calibrate && !is_linear ==> is_kept(step, is_linear, apply_calibration),
        step == DevelopStep::Rescale || step == DevelopStep::FujiRotate || step
            == DevelopStep::CropActiveArea || step == DevelopStep::WhiteBalance || step
            == DevelopStep::CropDefault ==> is_kept(step, is_linear, apply_calibration),
{
}

/// The steps that run are those that are kept, in the order in which they were given.
pub proof fn law_kept_steps_keep_their_order(
    steps: Seq<DevelopStep>,
    more: DevelopStep,
    is_linear: bool,
    apply_calibration: bool,
)
    ensures
        kept_steps(steps.push(more), is_linear, apply_calibration) == if is_kept(
            more,
            is_linear,
            apply_calibration,
        ) {
            kept_steps(steps, is_linear, apply_calibration).push(more)
        } else {
            kept_steps(steps, is_linear, apply_calibration)
        },
        kept_steps(Seq::empty(), is_linear, apply_calibration).len() == 0,
{
    assert(steps.push(more).drop_last() =~= steps);
}

/// A development that is planned scales by the first white level of the file and runs with all
/// white levels out of the way; its black level is the first one, or none.
pub proof fn law_plans_follow_the_file(
    plan: DevelopmentPlan,
    raw: DevelopmentEvidence,
    linear_mode: Seq<char>,
    i: int,
)
    requires
        is_plan(plan, raw, linear_mode),
        0 <= i < raw.white_levels@.len(),
    ensures
        plan.is_linear == raw.is_linear,
        plan.white_level == raw.white_levels@[0],
        plan.opened_levels@.len() == raw.white_levels@.len(),
        plan.opened_levels@[i] == 0xffff_ffff,
        raw.black_level matches Some(bits) ==> plan.black_level == bits,
        raw.black_level is None ==> plan.black_level == 0,
        !plan.steps@.contains(DevelopStep::SRgb),
        raw.is_linear ==> !plan.steps@.contains(DevelopStep::Demosaic),
{
    let mode = linear_mode_of(linear_mode);
    lemma_kept_are_kept(development_steps(), raw.is_linear, mode.apply_calibration);
}

proof fn lemma_kept_are_kept(steps: Seq<DevelopStep>, is_linear: bool, apply_calibration: bool)
    ensures
        forall|k: int|
            0 <= k < kept_steps(steps, is_linear, apply_calibration).len() ==> is_kept(
                #[trigger] kept_steps(steps, is_linear, apply_calibration)[k],
                is_linear,
                apply_calibration,
            ),
    decreases steps.len(),
{
    if steps.len() > 0 {
        let before = kept_steps(steps.drop_last(), is_linear, apply_calibration);
        let after = kept_steps(steps, is_linear, apply_calibration);
        lemma_kept_are_kept(steps.drop_last(), is_linear, apply_calibration);
        assert forall|k: int| 0 <= k < after.len() implies is_kept(
            #[trigger] after[k],
            is_linear,
            apply_calibration,
        ) by {
            if k < before.len() {
                assert(after[k] == before[k]);
            }
        }
    }
}

/// The white of a file has the matrix for daylight wherever there is one; only without it another
/// one, and none where the values are too few or a coefficient of the three channels is not a
/// positive number.
pub proof fn law_daylight_is_preferred(evidence: WhiteEvidence)
    ensures
        ({
            let white = chosen_white(Some(evidence));
            let valid = 0 < evidence.coefficients[0] < 0x7f80_0000 && 0 < evidence.coefficients[1]
                < 0x7f80_0000 && 0 < evidence.coefficients[2] < 0x7f80_0000;
            &&& !valid ==> white is None
            &&& evidence.d65 is Some && valid && evidence.d65->0@.len() >= 9 ==> white is Some
                && white->0.matrix@ == evidence.d65->0@ && white->0.coefficients
                == evidence.coefficients
            &&& evidence.d65 is Some && evidence.d65->0@.len() < 9 ==> white is None
            &&& evidence.d65 is None && evidence.other is Some && valid
                && evidence.other->0@.len() >= 9 ==> white is Some && white->0.matrix@
                == evidence.other->0@ && white->0.coefficients == evidence.coefficients
            &&& evidence.d65 is None && evidence.other is None ==> white is None
        }),
        chosen_white(None) is None,
{
    let c = evidence.coefficients;
    assert((forall|i: int| 0 <= i < 3 ==> is_positive_number(#[trigger] c[i])) <==> (
    is_positive_number(c[0]) && is_positive_number(c[1]) && is_positive_number(c[2]))) by {
        if is_positive_number(c[0]) && is_positive_number(c[1]) && is_positive_number(c[2]) {
            assert forall|i: int| 0 <= i < 3 implies is_positive_number(#[trigger] c[i]) by {
                if i == 0 {
                } else if i == 1 {
                } else {
                    assert(i == 2);
                }
            }
        }
    }
}

/// A preview counts as scaled to a half from 35 to below 75 hundredths of the frame, to a quarter
/// from above 10 to below 35 hundredths, and otherwise as not scaled.
pub proof fn law_previews_have_a_nominal_scale(frame_edge: int, preview_edge: int)
    requires
        0 < frame_edge,
        0 <= preview_edge,
    ensures
        scale_of(frame_edge, preview_edge) == PreviewScale::Half <==> 35 * frame_edge <= 100
            * preview_edge < 75 * frame_edge,
        scale_of(frame_edge, preview_edge) == PreviewScale::Quarter <==> 10 * frame_edge < 100
            * preview_edge < 35 * frame_edge,
        2 * preview_edge == frame_edge ==> scale_of(frame_edge, preview_edge) == PreviewScale::Half,
        4 * preview_edge == frame_edge ==> scale_of(frame_edge, preview_edge)
            == PreviewScale::Quarter,
        preview_edge == frame_edge ==> scale_of(frame_edge, preview_edge) == PreviewScale::Full,
{
}

/// The scale goes by the longer edge of the frame and of the preview, whichever way they are
/// turned.
pub proof fn law_scales_ignore_the_orientation(
    frame_width: usize,
    frame_height: usize,
    width: u32,
    height: u32,
)
    ensures
        scale_for_frame(Some((frame_width, frame_height)), width, height) == scale_for_frame(
            Some((frame_height, frame_width)),
            height,
            width,
        ),
        longer_edge(frame_width as int, frame_height as int) >= frame_width,
        longer_edge(frame_width as int, frame_height as int) >= frame_height,
        scale_for_frame(None, width, height) == PreviewScale::Full,
{
}

/// Which settings change the treatment of a linear file: two take the tone curve back, and two
/// leave the calibration out; the others calibrate and take nothing back.
pub proof fn law_settings_name_their_treatment(setting: Seq<char>)
    ensures
        setting == "gamma"@ ==> linear_mode_of(setting).apply_ungamma,
        setting == "gamma_skip_calib"@ ==> linear_mode_of(setting).apply_ungamma
            && !linear_mode_of(setting).apply_calibration,
        setting == "skip_calib"@ ==> !linear_mode_of(setting).apply_calibration,
        setting != "gamma"@ && setting != "gamma_skip_calib"@ ==> !linear_mode_of(
            setting,
        ).apply_ungamma,
        setting != "skip_calib"@ && setting != "gamma_skip_calib"@ ==> linear_mode_of(
            setting,
        ).apply_calibration,
{
}

/// The steps of a development in their order: of a file with a mosaic all but the conversion to
/// sRGB, of a linear file also without the demosaicing, and without the calibration if it is left
/// out.
pub proof fn law_developments_run_in_order(
    plan: DevelopmentPlan,
    raw: DevelopmentEvidence,
    linear_mode: Seq<char>,
)
    requires
        is_plan(plan, raw, linear_mode),
    ensures
        raw.white_levels@.len() == 0 ==> plan.white_level == 0xffff,
        !raw.is_linear ==> plan.steps@ == seq![
            DevelopStep::Rescale,
            DevelopStep::Demosaic,
            DevelopStep::FujiRotate,
            DevelopStep::CropActiveArea,
            DevelopStep::WhiteBalance,
            DevelopStep::Calibrate,
            DevelopStep::CropDefault,
        ],
        raw.is_linear && plan.mode.apply_calibration ==> plan.steps@ == seq![
            DevelopStep::Rescale,
            DevelopStep::FujiRotate,
            DevelopStep::CropActiveArea,
            DevelopStep::WhiteBalance,
            DevelopStep::Calibrate,
            DevelopStep::CropDefault,
        ],
        raw.is_linear && !plan.mode.apply_calibration ==> plan.steps@ == seq![
            DevelopStep::Rescale,
            DevelopStep::FujiRotate,
            DevelopStep::CropActiveArea,
            DevelopStep::WhiteBalance,
            DevelopStep::CropDefault,
        ],
{
    let linear = raw.is_linear;
    let calibrates = plan.mode.apply_calibration;
    let all = development_steps();
    law_kept_steps_keep_their_order(Seq::empty(), all[0], linear, calibrates);
    law_kept_steps_keep_their_order(all.take(1), all[1], linear, calibrates);
    law_kept_steps_keep_their_order(all.take(2), all[2], linear, calibrates);
    law_kept_steps_keep_their_order(all.take(3), all[3], linear, calibrates);
    law_kept_steps_keep_their_order(all.take(4), all[4], linear, calibrates);
    law_kept_steps_keep_their_order(all.take(5), all[5], linear, calibrates);
    law_kept_steps_keep_their_order(all.take(6), all[6], linear, calibrates);
    law_kept_steps_keep_their_order(all.take(7), all[7], linear, calibrates);
    assert(Seq::empty().push(all[0]) =~= all.take(1));
    assert(all.take(1).push(all[1]) =~= all.take(2));
    assert(all.take(2).push(all[2]) =~= all.take(3));
    assert(all.take(3).push(all[3]) =~= all.take(4));
    assert(all.take(4).push(all[4]) =~= all.take(5));
    assert(all.take(5).push(all[5]) =~= all.take(6));
    assert(all.take(6).push(all[6]) =~= all.take(7));
    assert(all.take(7).push(all[7]) =~= all);
}

} // verus!
