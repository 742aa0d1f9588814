//! How much memory a render takes and how it is split up: preview tiers, mask
//! textures, reusable processor textures and export bands.

use vstd::prelude::*;

verus! {

pub const GPU_TILE_SIZE: u32 = 2_048;

pub const GPU_TILE_OVERLAP: u32 = 128;

/// 512 MiB.
pub const GPU_RECLAIM_HIGH_WATER_BYTES: usize = 536_870_912;

pub const RGBA8_BYTES_PER_PIXEL: usize = 4;

pub const RGBA16_FLOAT_BYTES_PER_PIXEL: usize = 8;

pub const PROCESSOR_RGBA16_TILE_COUNT: usize = 5;

pub const FLARE_TEXTURE_COUNT: usize = 3;

pub const FLARE_TEXTURE_EDGE: usize = 512;

/// The longest edge of a tile with its overlap on both sides.
pub const MAX_TILE_EDGE: u32 = GPU_TILE_SIZE + GPU_TILE_OVERLAP * 2;

/// A byte count that stops at the largest value a `usize` holds.
pub open spec fn capped(bytes: int) -> int {
    if bytes > usize::MAX {
        usize::MAX as int
    } else {
        bytes
    }
}

/// The smaller of two numbers.
pub open spec fn least(a: int, b: int) -> int {
    if a < b {
        a
    } else {
        b
    }
}

/// The larger of two numbers.
pub open spec fn greatest(a: int, b: int) -> int {
    if a > b {
        a
    } else {
        b
    }
}

/// Capping a factor before it is multiplied changes nothing after a cap.
proof fn lemma_capped_product(a: int, b: int)
    requires
        0 <= a,
        0 <= b,
    ensures
        capped(capped(a) * b) == capped(a * b),
        0 <= a * b,
{
    assert(0 <= a * b) by (nonlinear_arith)
        requires
            0 <= a,
            0 <= b,
    ;
    if a > usize::MAX && b > 0 {
        assert(usize::MAX * b >= usize::MAX) by (nonlinear_arith)
            requires
                b >= 1,
        ;
        assert(a * b > usize::MAX) by (nonlinear_arith)
            requires
                a > usize::MAX,
                b >= 1,
        ;
    } else if b == 0 {
        assert(capped(a) * b == 0) by (nonlinear_arith)
            requires
                b == 0,
        ;
        assert(a * b == 0) by (nonlinear_arith)
            requires
                b == 0,
        ;
    }
}

fn product(a: usize, b: usize) -> (bytes: usize)
    ensures
        bytes == capped(a * b),
{
    match a.checked_mul(b) {
        Some(exact) => exact,
        None => usize::MAX,
    }
}

fn product_of_three(a: usize, b: usize, c: usize) -> (bytes: usize)
    ensures
        bytes == capped(a * b * c),
{
    proof {
        lemma_capped_product(a as int, b as int);
        lemma_capped_product(a * b, c as int);
    }
    product(product(a, b), c)
}

/// GPU memory is reclaimed once the processor and its input together reach the
/// high-water mark.
pub fn should_reclaim_gpu_resources(processor_bytes: usize, input_bytes: usize) -> (reclaim: bool)
    ensures
        reclaim == (processor_bytes + input_bytes >= GPU_RECLAIM_HIGH_WATER_BYTES),
{
    processor_bytes.saturating_add(input_bytes) >= GPU_RECLAIM_HIGH_WATER_BYTES
}

#[derive(Debug, Clone, Copy, PartialEq, Eq, Structural)]
pub enum RenderTier {
    RapidPreview,
    HalfResolutionEdit,
    FullResolutionRoi,
    FullResolutionExport,
}

impl RenderTier {
    /// The name of a tier in messages to the front end.
    pub open spec fn name(self) -> Seq<char> {
        match self {
            RenderTier::RapidPreview => "rapidPreview"@,
            RenderTier::HalfResolutionEdit => "halfResolutionEdit"@,
            RenderTier::FullResolutionRoi => "fullResolutionRoi"@,
            RenderTier::FullResolutionExport => "fullResolutionExport"@,
        }
    }

    pub fn as_str(self) -> (name: &'static str)
        ensures
            name@ == self.name(),
    {
        match self {
            RenderTier::RapidPreview => "rapidPreview",
            RenderTier::HalfResolutionEdit => "halfResolutionEdit",
            RenderTier::FullResolutionRoi => "fullResolutionRoi",
            RenderTier::FullResolutionExport => "fullResolutionExport",
        }
    }
}

/// No two tiers share a name.
pub proof fn law_tier_names_differ(a: RenderTier, b: RenderTier)
    ensures
        a.name() == b.name() ==> a == b,
{
    reveal_strlit("rapidPreview");
    reveal_strlit("halfResolutionEdit");
    reveal_strlit("fullResolutionRoi");
    reveal_strlit("fullResolutionExport");
    let (first, second) = (a.name(), b.name());
    if first == second {
        assert(first.len() == second.len());
        assert(first[0] == second[0]);
    }
}

/// The tier of a preview job that asks for none.
pub open spec fn default_tier(
    is_interactive: bool,
    has_roi: bool,
    target_resolution: u32,
    source_longest_edge: u32,
) -> RenderTier {
    if is_interactive {
        RenderTier::RapidPreview
    } else if has_roi && 0 < source_longest_edge <= target_resolution {
        RenderTier::FullResolutionRoi
    } else {
        RenderTier::HalfResolutionEdit
    }
}

/// Why a preview job may not use a tier; `None` where it may.
pub open spec fn tier_objection(
    tier: RenderTier,
    is_interactive: bool,
    has_roi: bool,
    target_resolution: u32,
    source_longest_edge: u32,
) -> Option<Seq<char>> {
    match tier {
        RenderTier::RapidPreview => if is_interactive {
            None
        } else {
            Some("rapidPreview is only valid for interactive preview jobs"@)
        },
        RenderTier::HalfResolutionEdit => if is_interactive {
            Some("interactive preview jobs must use rapidPreview"@)
        } else {
            None
        },
        RenderTier::FullResolutionRoi => if is_interactive {
            Some("fullResolutionRoi is only valid for settled preview jobs"@)
        } else if !has_roi {
            Some("fullResolutionRoi requires a viewport ROI"@)
        } else if target_resolution < source_longest_edge {
            Some("fullResolutionRoi must render at the source resolution"@)
        } else {
            None
        },
        RenderTier::FullResolutionExport => Some(
            "fullResolutionExport cannot be submitted to the preview worker"@,
        ),
    }
}

/// The tier that a preview job runs at, or why it may not run.
pub fn resolve_preview_render_tier(
    requested: Option<RenderTier>,
    is_interactive: bool,
    has_roi: bool,
    target_resolution: u32,
    source_longest_edge: u32,
) -> (resolved: Result<RenderTier, String>)
    ensures
        ({
            let tier = match requested {
                Some(tier) => tier,
                None => default_tier(
                    is_interactive,
                    has_roi,
                    target_resolution,
                    source_longest_edge,
                ),
            };
            match tier_objection(
                tier,
                is_interactive,
                has_roi,
                target_resolution,
                source_longest_edge,
            ) {
                None => resolved == Ok::<RenderTier, String>(tier),
                Some(message) => resolved is Err && resolved->Err_0@ == message,
            }
        }),
{
    let fallback = if is_interactive {
        RenderTier::RapidPreview
    } else if has_roi && source_longest_edge > 0 && target_resolution >= source_longest_edge {
        RenderTier::FullResolutionRoi
    } else {
        RenderTier::HalfResolutionEdit
    };
    let tier = match requested {
        Some(tier) => tier,
        None => fallback,
    };
    match tier {
        RenderTier::RapidPreview => if is_interactive {
            Ok(tier)
        } else {
            Err("rapidPreview is only valid for interactive preview jobs".to_owned())
        },
        RenderTier::HalfResolutionEdit => if is_interactive {
            Err("interactive preview jobs must use rapidPreview".to_owned())
        } else {
            Ok(tier)
        },
        RenderTier::FullResolutionRoi => if is_interactive {
            Err("fullResolutionRoi is only valid for settled preview jobs".to_owned())
        } else if !has_roi {
            Err("fullResolutionRoi requires a viewport ROI".to_owned())
        } else if target_resolution < source_longest_edge {
            Err("fullResolutionRoi must render at the source resolution".to_owned())
        } else {
            Ok(tier)
        },
        RenderTier::FullResolutionExport => Err(
            "fullResolutionExport cannot be submitted to the preview worker".to_owned(),
        ),
    }
}

/// A job that asks for no tier is always given one.
pub proof fn law_default_tier_is_accepted(
    is_interactive: bool,
    has_roi: bool,
    target_resolution: u32,
    source_longest_edge: u32,
)
    ensures
        tier_objection(
            default_tier(is_interactive, has_roi, target_resolution, source_longest_edge),
            is_interactive,
            has_roi,
            target_resolution,
            source_longest_edge,
        ) is None,
{
}

/// An interactive preview runs at the rapid tier and at no other, and a preview
/// never runs at the export tier.
pub proof fn law_tiers_stay_on_their_side(
    tier: RenderTier,
    is_interactive: bool,
    has_roi: bool,
    target_resolution: u32,
    source_longest_edge: u32,
)
    requires
        tier_objection(
            tier,
            is_interactive,
            has_roi,
            target_resolution,
            source_longest_edge,
        ) is None,
    ensures
        is_interactive == (tier == RenderTier::RapidPreview),
        tier != RenderTier::FullResolutionExport,
{
}

/// The texture array that holds the masks of an edit.
#[derive(Debug, Clone, Copy, PartialEq, Eq, Structural)]
pub struct MaskTexturePlan {
    pub source_width: u32,
    pub source_height: u32,
    pub texture_width: u32,
    pub texture_height: u32,
    pub layers: u32,
    pub upload_layers: u32,
    pub use_dummy: bool,
}

/// The number of mask layers that are wanted and may be had, as a 32-bit number.
pub open spec fn mask_layers(active: int, available: int, max_masks: int) -> int {
    least(greatest(active, available), max_masks) % 0x1_0000_0000
}

impl MaskTexturePlan {
    /// The plan for an image of this size.
    pub open spec fn planned(
        width: u32,
        height: u32,
        active: int,
        available: int,
        max_masks: int,
    ) -> MaskTexturePlan {
        let layers = mask_layers(active, available, max_masks);
        if layers == 0 {
            MaskTexturePlan {
                source_width: width,
                source_height: height,
                texture_width: 1,
                texture_height: 1,
                layers: 1,
                upload_layers: 0,
                use_dummy: true,
            }
        } else {
            MaskTexturePlan {
                source_width: width,
                source_height: height,
                texture_width: greatest(least(width as int, MAX_TILE_EDGE as int), 1) as u32,
                texture_height: greatest(least(height as int, MAX_TILE_EDGE as int), 1) as u32,
                layers: layers as u32,
                upload_layers: least(available, layers) as u32,
                use_dummy: false,
            }
        }
    }

    pub fn new(
        width: u32,
        height: u32,
        active_mask_count: usize,
        available_bitmap_count: usize,
        max_masks: usize,
    ) -> (plan: Self)
        ensures
            plan == MaskTexturePlan::planned(
                width,
                height,
                active_mask_count as int,
                available_bitmap_count as int,
                max_masks as int,
            ),
    {
        let wanted: usize = if active_mask_count > available_bitmap_count {
            active_mask_count
        } else {
            available_bitmap_count
        };
        let allowed: usize = if wanted < max_masks {
            wanted
        } else {
            max_masks
        };
        let wide: u64 = allowed as u64;
        let layers: u32 = #[verifier::truncate] (wide as u32);
        assert(wide as u32 == wide % 0x1_0000_0000) by (bit_vector);
        let upload_layers: u32 = if available_bitmap_count < layers as usize {
            available_bitmap_count as u32
        } else {
            layers
        };
        if layers == 0 {
            Self {
                source_width: width,
                source_height: height,
                texture_width: 1,
                texture_height: 1,
                layers: 1,
                upload_layers: 0,
                use_dummy: true,
            }
        } else {
            Self {
                source_width: width,
                source_height: height,
                texture_width: tile_edge(width),
                texture_height: tile_edge(height),
                layers,
                upload_layers,
                use_dummy: false,
            }
        }
    }

    pub fn logical_texture_bytes(self) -> (bytes: usize)
        ensures
            bytes == capped(self.texture_width * self.texture_height * self.layers),
    {
        product_of_three(
            self.texture_width as usize,
            self.texture_height as usize,
            self.layers as usize,
        )
    }

    /// What one texture per mask over the whole image would take.
    pub fn legacy_full_texture_bytes(self) -> (bytes: usize)
        ensures
            bytes == if self.use_dummy {
                0
            } else {
                capped(self.source_width * self.source_height * self.layers)
            },
    {
        if self.use_dummy {
            return 0;
        }
        product_of_three(
            self.source_width as usize,
            self.source_height as usize,
            self.layers as usize,
        )
    }

    pub fn saved_texture_bytes(self) -> (bytes: usize)
        ensures
            bytes == greatest(
                (if self.use_dummy {
                    0
                } else {
                    capped(self.source_width * self.source_height * self.layers)
                }) - capped(self.texture_width * self.texture_height * self.layers),
                0,
            ),
    {
        self.legacy_full_texture_bytes().saturating_sub(self.logical_texture_bytes())
    }
}

fn tile_edge(length: u32) -> (edge: u32)
    ensures
        edge == greatest(least(length as int, MAX_TILE_EDGE as int), 1),
{
    if length == 0 {
        1
    } else if length < MAX_TILE_EDGE {
        length
    } else {
        MAX_TILE_EDGE
    }
}

/// However large the image, a mask layer takes no more than one tile with its
/// overlap, and no layer is uploaded that the texture does not hold.
pub proof fn law_mask_textures_are_bounded(
    width: u32,
    height: u32,
    active: usize,
    available: usize,
    max_masks: usize,
)
    ensures
        ({
            let plan = MaskTexturePlan::planned(
                width,
                height,
                active as int,
                available as int,
                max_masks as int,
            );
            &&& 1 <= plan.texture_width <= MAX_TILE_EDGE
            &&& 1 <= plan.texture_height <= MAX_TILE_EDGE
            &&& plan.upload_layers <= plan.layers
            &&& 1 <= plan.layers
            &&& plan.layers <= greatest(max_masks as int, 1)
        }),
{
}

/// Where the rows of a mask tile lie in the mask of the whole image.
#[derive(Debug, Clone, Copy, PartialEq, Eq, Structural)]
pub struct MaskTileUploadPlan {
    pub source_offset_bytes: u64,
    pub bytes_per_row: u32,
    pub rows_per_image: u32,
    pub width: u32,
    pub height: u32,
}

impl MaskTileUploadPlan {
    /// The upload of a tile that is not empty and lies inside its source.
    pub open spec fn planned(
        source_width: u32,
        source_height: u32,
        x: u32,
        y: u32,
        width: u32,
        height: u32,
    ) -> Option<MaskTileUploadPlan> {
        if width > 0 && height > 0 && x + width <= source_width && y + height <= source_height {
            Some(
                MaskTileUploadPlan {
                    source_offset_bytes: (y * source_width + x) as u64,
                    bytes_per_row: source_width,
                    rows_per_image: source_height,
                    width,
                    height,
                },
            )
        } else {
            None
        }
    }

    pub fn new(
        source_width: u32,
        source_height: u32,
        x: u32,
        y: u32,
        width: u32,
        height: u32,
    ) -> (plan: Option<Self>)
        ensures
            plan == MaskTileUploadPlan::planned(source_width, source_height, x, y, width, height),
            plan matches Some(upload) ==> upload.source_offset_bytes == y * source_width + x,
    {
        if width == 0 || height == 0 {
            return None;
        }
        if x > source_width || width > source_width - x || y > source_height || height
            > source_height - y {
            return None;
        }
        assert(y * source_width <= 0xffff_ffff * 0xffff_ffff) by (nonlinear_arith)
            requires
                y <= 0xffff_ffff,
                source_width <= 0xffff_ffff,
        ;
        let source_offset_bytes: u64 = (y as u64) * (source_width as u64) + (x as u64);
        Some(
            Self {
                source_offset_bytes,
                bytes_per_row: source_width,
                rows_per_image: source_height,
                width,
                height,
            },
        )
    }
}

/// A pixel of a tile, addressed through the upload of the tile, is the pixel of the
/// source that it shows.
pub proof fn law_tile_pixels_are_source_pixels(
    source_width: u32,
    source_height: u32,
    x: u32,
    y: u32,
    width: u32,
    height: u32,
    local_x: u32,
    local_y: u32,
)
    requires
        local_x < width,
        local_y < height,
    ensures
        MaskTileUploadPlan::planned(source_width, source_height, x, y, width, height) matches Some(
            upload,
        ) ==> upload.source_offset_bytes + local_y * upload.bytes_per_row + local_x == (y + local_y)
            * source_width + (x + local_x) && (y + local_y) * source_width + (x + local_x)
            < source_width * source_height,
{
    if x + width <= source_width && y + height <= source_height {
        assert(y * source_width <= 0xffff_ffff * 0xffff_ffff) by (nonlinear_arith)
            requires
                y <= 0xffff_ffff,
                source_width <= 0xffff_ffff,
        ;
        assert((y + local_y) * source_width == y * source_width + local_y * source_width)
            by (nonlinear_arith);
        assert((y + local_y) * source_width <= (source_height - 1) * source_width)
            by (nonlinear_arith)
            requires
                y + local_y <= source_height - 1,
                0 <= source_width,
        ;
        assert((source_height - 1) * source_width == source_width * source_height - source_width)
            by (nonlinear_arith);
    }
}

/// Logical sizes of the long-lived textures of a processor.
///
/// Jobs that read back to the CPU only need the reusable tile textures. Native
/// display jobs additionally need two full-frame RGBA8 surfaces. Keeping those two
/// cases explicit prevents a large file export from retaining blank full-frame
/// display textures after the encoder has finished.
#[derive(Debug, Clone, Copy, PartialEq, Eq, Structural)]
pub struct GpuProcessorTexturePlan {
    pub processing_width: u32,
    pub processing_height: u32,
    pub display_width: u32,
    pub display_height: u32,
}

/// A length rounded up to a multiple of 256 as far as 32 bits reach, and no less
/// than one.
pub open spec fn padded(length: u32) -> int {
    greatest(least(length + 255, 0xffff_ffff) / 256 * 256, 1)
}

fn pad(length: u32) -> (edge: u32)
    ensures
        edge == padded(length),
{
    let raised: u32 = length.saturating_add(255);
    let edge: u32 = raised & !255;
    assert(raised & !255 == raised / 256 * 256) by (bit_vector);
    if edge == 0 {
        1
    } else {
        edge
    }
}

impl GpuProcessorTexturePlan {
    /// The plan for a render of this size.
    pub open spec fn planned(width: u32, height: u32, needs_native_display: bool) -> Self {
        GpuProcessorTexturePlan {
            processing_width: padded(width) as u32,
            processing_height: padded(height) as u32,
            display_width: (if needs_native_display {
                padded(width)
            } else {
                1
            }) as u32,
            display_height: (if needs_native_display {
                padded(height)
            } else {
                1
            }) as u32,
        }
    }

    /// The bytes of all textures: five half-float and one byte texture per tile, two
    /// display surfaces and the flare textures.
    pub open spec fn texture_bytes(self) -> int {
        capped(
            least(self.processing_width as int, MAX_TILE_EDGE as int) * least(
                self.processing_height as int,
                MAX_TILE_EDGE as int,
            ) * 44 + self.display_width * self.display_height * 8 + 6_291_456,
        )
    }

    /// The textures are replaced for a render of this size: they are too small for it,
    /// or they take much memory that it does not need.
    pub open spec fn is_replaced_for(
        self,
        width: u32,
        height: u32,
        needs_native_display: bool,
    ) -> bool {
        let wanted = GpuProcessorTexturePlan::planned(width, height, needs_native_display);
        let too_small = self.processing_width < width || self.processing_height < height || (
        needs_native_display && (self.display_width < width || self.display_height < height));
        let high_water = self.texture_bytes() >= GPU_RECLAIM_HIGH_WATER_BYTES;
        let halves = capped(wanted.texture_bytes() * 2) <= self.texture_bytes();
        let sheds_display = !needs_native_display && (self.display_width > 1 || self.display_height
            > 1);
        let quarter_area = capped(wanted.processing_width * wanted.processing_height * 4) <= capped(
            self.processing_width * self.processing_height,
        );
        too_small || (high_water && halves && (sheds_display || quarter_area))
    }

    pub fn new(width: u32, height: u32, needs_native_display: bool) -> (plan: Self)
        ensures
            plan == GpuProcessorTexturePlan::planned(width, height, needs_native_display),
    {
        let processing_width: u32 = pad(width);
        let processing_height: u32 = pad(height);
        Self {
            processing_width,
            processing_height,
            display_width: if needs_native_display {
                processing_width
            } else {
                1
            },
            display_height: if needs_native_display {
                processing_height
            } else {
                1
            },
        }
    }

    pub fn has_native_display_surfaces(self) -> (has: bool)
        ensures
            has == (self.display_width > 1 || self.display_height > 1),
    {
        self.display_width > 1 || self.display_height > 1
    }

    pub fn logical_texture_bytes(self) -> (bytes: usize)
        ensures
            bytes == self.texture_bytes(),
    {
        let tile_width: usize = if self.processing_width < MAX_TILE_EDGE {
            self.processing_width as usize
        } else {
            MAX_TILE_EDGE as usize
        };
        let tile_height: usize = if self.processing_height < MAX_TILE_EDGE {
            self.processing_height as usize
        } else {
            MAX_TILE_EDGE as usize
        };
        assert(tile_width * tile_height <= 2304 * 2304) by (nonlinear_arith)
            requires
                tile_width <= 2304,
                tile_height <= 2304,
        ;
        let tile_pixels: usize = tile_width * tile_height;
        let pixel_bytes: usize = PROCESSOR_RGBA16_TILE_COUNT * RGBA16_FLOAT_BYTES_PER_PIXEL
            + RGBA8_BYTES_PER_PIXEL;
        assert(tile_pixels * pixel_bytes == tile_pixels * 44) by (nonlinear_arith)
            requires
                pixel_bytes == 44,
        ;
        let tile_bytes: usize = tile_pixels * pixel_bytes;
        let display_bytes: usize = product_of_three(
            self.display_width as usize,
            self.display_height as usize,
            RGBA8_BYTES_PER_PIXEL * 2,
        );
        let flare_bytes: usize = FLARE_TEXTURE_EDGE * FLARE_TEXTURE_EDGE * FLARE_TEXTURE_COUNT
            * RGBA16_FLOAT_BYTES_PER_PIXEL;
        tile_bytes.saturating_add(display_bytes).saturating_add(flare_bytes)
    }

    pub fn should_rebuild_for(self, width: u32, height: u32, needs_native_display: bool) -> (rebuild:
        bool)
        ensures
            rebuild == self.is_replaced_for(width, height, needs_native_display),
    {
        let requested: GpuProcessorTexturePlan = Self::new(width, height, needs_native_display);
        if self.processing_width < width || self.processing_height < height || (
        needs_native_display && (self.display_width < width || self.display_height < height)) {
            return true;
        }
        let bytes: usize = self.logical_texture_bytes();
        let halves: bool = product(requested.logical_texture_bytes(), 2) <= bytes;
        if !needs_native_display && self.has_native_display_surfaces() && bytes
            >= GPU_RECLAIM_HIGH_WATER_BYTES && halves {
            return true;
        }
        let current_area: usize = product(
            self.processing_width as usize,
            self.processing_height as usize,
        );
        bytes >= GPU_RECLAIM_HIGH_WATER_BYTES && product_of_three(
            requested.processing_width as usize,
            requested.processing_height as usize,
            4,
        ) <= current_area && halves
    }
}

/// Textures made for a render are kept for the next render of the same kind, so
/// that they are not rebuilt over and over.
pub proof fn law_textures_are_kept_for_their_own_size(
    width: u32,
    height: u32,
    needs_native_display: bool,
)
    requires
        width <= 0xffff_ff00,
        height <= 0xffff_ff00,
        padded(width) * padded(height) < usize::MAX,
    ensures
        !GpuProcessorTexturePlan::planned(width, height, needs_native_display).is_replaced_for(
            width,
            height,
            needs_native_display,
        ),
{
    let area = padded(width) * padded(height);
    assert(area >= 1) by (nonlinear_arith)
        requires
            area == padded(width) * padded(height),
            padded(width) >= 1,
            padded(height) >= 1,
    ;
    assert(area == padded(width) as u32 * padded(height) as u32);
}

/// A processor below the high-water mark is only replaced when it is too small.
pub proof fn law_small_textures_only_grow(
    plan: GpuProcessorTexturePlan,
    width: u32,
    height: u32,
    needs_native_display: bool,
)
    requires
        plan.texture_bytes() < GPU_RECLAIM_HIGH_WATER_BYTES,
        plan.is_replaced_for(width, height, needs_native_display),
    ensures
        plan.processing_width < width || plan.processing_height < height || needs_native_display
            && (plan.display_width < width || plan.display_height < height),
{
}

/// The rows of an export that are held in memory at a time.
#[derive(Debug, Clone, Copy, PartialEq, Eq, Structural)]
pub struct StreamingExportBufferPlan {
    pub width: u32,
    pub height: u32,
    pub band_rows: u32,
}

impl StreamingExportBufferPlan {
    pub fn new(width: u32, height: u32) -> (plan: Self)
        ensures
            plan.width == width,
            plan.height == height,
            plan.band_rows == least(height as int, 2_048),
    {
        Self {
            width,
            height,
            band_rows: if height < GPU_TILE_SIZE {
                height
            } else {
                GPU_TILE_SIZE
            },
        }
    }

    pub fn band_rgba_bytes(self) -> (bytes: usize)
        ensures
            bytes == capped(self.width * self.band_rows * 4),
    {
        product_of_three(self.width as usize, self.band_rows as usize, RGBA8_BYTES_PER_PIXEL)
    }

    pub fn legacy_full_rgba_bytes(self) -> (bytes: usize)
        ensures
            bytes == capped(self.width * self.height * 4),
    {
        product_of_three(self.width as usize, self.height as usize, RGBA8_BYTES_PER_PIXEL)
    }
}

/// A band never takes more than the whole frame.
pub proof fn law_bands_are_no_larger_than_the_frame(width: u32, height: u32)
    ensures
        capped(width * least(height as int, GPU_TILE_SIZE as int) * 4) <= capped(width * height * 4),
{
    assert(width * least(height as int, GPU_TILE_SIZE as int) <= width * height) by (nonlinear_arith)
        requires
            least(height as int, GPU_TILE_SIZE as int) <= height,
    ;
}

/// Which preview jobs may use a tier: rapid previews are for interactive jobs, half resolution
/// and regions at full resolution for settled ones, the latter only with a region and at no less
/// than the resolution of the source; exports are for no preview.
pub proof fn law_tiers_are_for_their_jobs(
    is_interactive: bool,
    has_roi: bool,
    target_resolution: u32,
    source_longest_edge: u32,
)
    ensures
        tier_objection(
            RenderTier::RapidPreview,
            is_interactive,
            has_roi,
            target_resolution,
            source_longest_edge,
        ) is None <==> is_interactive,
        tier_objection(
            RenderTier::HalfResolutionEdit,
            is_interactive,
            has_roi,
            target_resolution,
            source_longest_edge,
        ) is None <==> !is_interactive,
        tier_objection(
            RenderTier::FullResolutionRoi,
            is_interactive,
            has_roi,
            target_resolution,
            source_longest_edge,
        ) is None <==> !is_interactive && has_roi && target_resolution >= source_longest_edge,
        tier_objection(
            RenderTier::FullResolutionExport,
            is_interactive,
            has_roi,
            target_resolution,
            source_longest_edge,
        ) is Some,
        default_tier(is_interactive, has_roi, target_resolution, source_longest_edge)
            == RenderTier::RapidPreview <==> is_interactive,
        default_tier(is_interactive, has_roi, target_resolution, source_longest_edge)
            == RenderTier::FullResolutionRoi <==> !is_interactive && has_roi && source_longest_edge
            > 0 && target_resolution >= source_longest_edge,
        default_tier(is_interactive, has_roi, target_resolution, source_longest_edge)
            != RenderTier::FullResolutionExport,
{
}

/// Every mask that is active or there has a layer, as far as layers are allowed; those that are
/// there are uploaded. A texture has the size of the image, up to one tile with its overlap on
/// both sides; without masks it is a single pixel that stands for none.
pub proof fn law_masks_have_their_layers(
    width: u32,
    height: u32,
    active: usize,
    available: usize,
    max_masks: usize,
)
    requires
        max_masks <= u32::MAX,
        0 < width,
        0 < height,
    ensures
        ({
            let plan = MaskTexturePlan::planned(
                width,
                height,
                active as int,
                available as int,
                max_masks as int,
            );
            let none = max_masks == 0 || active == 0 && available == 0;
            &&& plan.use_dummy == none
            &&& none ==> plan.texture_width == 1 && plan.texture_height == 1 && plan.upload_layers
                == 0
            &&& !none && active <= max_masks && available <= max_masks ==> (plan.layers == active
                || plan.layers == available) && plan.layers >= active && plan.layers >= available
                && plan.upload_layers == available
            &&& !none && (active > max_masks || available > max_masks) ==> plan.layers == max_masks
            &&& !none && available >= max_masks ==> plan.upload_layers == max_masks
            &&& !none && width <= 2304 ==> plan.texture_width == width
            &&& !none && width > 2304 ==> plan.texture_width == 2304
            &&& !none && height <= 2304 ==> plan.texture_height == height
            &&& !none && height > 2304 ==> plan.texture_height == 2304
        }),
{
}

/// A padded length is the next multiple of 256 that is long enough.
pub proof fn law_padding_reaches_the_next_multiple(length: u32)
    requires
        0 < length <= 0xffff_ff00,
    ensures
        padded(length) % 256 == 0,
        length <= padded(length) < length + 256,
{
}

/// What the textures of a processor take: for every pixel of a tile five textures of eight bytes
/// and one of four, for every pixel of the display two of four, and three square flare textures of
/// 512 pixels with eight bytes each.
pub proof fn law_texture_bytes_add_up(plan: GpuProcessorTexturePlan)
    requires
        plan.processing_width <= 2304,
        plan.processing_height <= 2304,
        plan.display_width <= 2304,
        plan.display_height <= 2304,
    ensures
        plan.texture_bytes() == plan.processing_width * plan.processing_height * (5 * 8 + 4)
            + plan.display_width * plan.display_height * (2 * 4) + 3 * (512 * 512) * 8,
{
    let (a, b) = (plan.processing_width * plan.processing_height, plan.display_width
        * plan.display_height);
    assert(0 <= a <= 2304 * 2304) by (nonlinear_arith)
        requires
            a == plan.processing_width * plan.processing_height,
            0 <= plan.processing_width <= 2304,
            0 <= plan.processing_height <= 2304,
    ;
    assert(0 <= b <= 2304 * 2304) by (nonlinear_arith)
        requires
            b == plan.display_width * plan.display_height,
            0 <= plan.display_width <= 2304,
            0 <= plan.display_height <= 2304,
    ;
    assert(least(plan.processing_width as int, MAX_TILE_EDGE as int) == plan.processing_width);
    assert(least(plan.processing_height as int, MAX_TILE_EDGE as int) == plan.processing_height);
    assert(a * (5 * 8 + 4) == a * 44 && b * (2 * 4) == b * 8) by (nonlinear_arith);
    assert(a * 44 <= 2304 * 2304 * 44);
    assert(b * 8 <= 2304 * 2304 * 8);
    assert(2304 * 2304 * 44 + 2304 * 2304 * 8 + 6_291_456 <= 0xffff_ffff);
    assert(usize::MAX >= 0xffff_ffff);
}

/// Textures that are too small for a render are always replaced, and so are ones of half a
/// gigabyte or more that take twice what the render needs and either hold a display that it does
/// not need or four times its area; others are kept.
pub proof fn law_textures_are_replaced_when_they_do_not_fit(
    plan: GpuProcessorTexturePlan,
    width: u32,
    height: u32,
    needs_native_display: bool,
)
    ensures
        plan.processing_width < width || plan.processing_height < height ==> plan.is_replaced_for(
            width,
            height,
            needs_native_display,
        ),
        needs_native_display && (plan.display_width < width || plan.display_height < height)
            ==> plan.is_replaced_for(width, height, needs_native_display),
        ({
            let wanted = GpuProcessorTexturePlan::planned(width, height, needs_native_display);
            let large = plan.texture_bytes() >= 0x2000_0000 && plan.texture_bytes() < usize::MAX
                && 2 * wanted.texture_bytes() <= plan.texture_bytes();
            &&& large && !needs_native_display && plan.display_width > 1 ==> plan.is_replaced_for(
                width,
                height,
                needs_native_display,
            )
            &&& plan.is_replaced_for(width, height, needs_native_display) && plan.processing_width
                >= width && plan.processing_height >= height && (!needs_native_display || (
            plan.display_width >= width && plan.display_height >= height)) ==> plan.texture_bytes()
                >= 0x2000_0000 && (wanted.texture_bytes() <= plan.texture_bytes())
        }),
{
    let wanted = GpuProcessorTexturePlan::planned(width, height, needs_native_display);
    assert(wanted.texture_bytes() >= 0) by {
        let (a, b) = (least(wanted.processing_width as int, MAX_TILE_EDGE as int) * least(
            wanted.processing_height as int,
            MAX_TILE_EDGE as int,
        ), wanted.display_width * wanted.display_height);
        assert(a >= 0 && b >= 0) by (nonlinear_arith)
            requires
                a == least(wanted.processing_width as int, MAX_TILE_EDGE as int) * least(
                    wanted.processing_height as int,
                    MAX_TILE_EDGE as int,
                ),
                b == wanted.display_width * wanted.display_height,
                0 <= least(wanted.processing_width as int, MAX_TILE_EDGE as int),
                0 <= least(wanted.processing_height as int, MAX_TILE_EDGE as int),
                0 <= wanted.display_width,
                0 <= wanted.display_height,
        ;
    }
}

/// A tile is uploaded exactly if it is not empty and its last pixel lies in the source.
pub proof fn law_tiles_inside_their_source_are_uploaded(
    source_width: u32,
    source_height: u32,
    x: u32,
    y: u32,
    width: u32,
    height: u32,
)
    ensures
        MaskTileUploadPlan::planned(source_width, source_height, x, y, width, height) is Some
            <==> 0 < width && 0 < height && x + width - 1 < source_width && y + height - 1
            < source_height,
{
}

} // verus!
