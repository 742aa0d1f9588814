use rapidraw_core::render_strategy::resolve_preview_render_tier;
use rapidraw_core::render_strategy::should_reclaim_gpu_resources;
use rapidraw_core::render_strategy::GpuProcessorTexturePlan;
use rapidraw_core::render_strategy::MaskTexturePlan;
use rapidraw_core::render_strategy::MaskTileUploadPlan;
use rapidraw_core::render_strategy::RenderTier;
use rapidraw_core::render_strategy::StreamingExportBufferPlan;
use rapidraw_core::render_strategy::GPU_RECLAIM_HIGH_WATER_BYTES;

const A7R_V_WIDTH: u32 = 9_504;
const A7R_V_HEIGHT: u32 = 6_336;

#[test]
fn preview_tiers_reject_crossing_the_preview_export_boundary() {
    assert_eq!(
        resolve_preview_render_tier(None, true, false, 2_048, A7R_V_WIDTH).unwrap(),
        RenderTier::RapidPreview
    );
    assert_eq!(
        resolve_preview_render_tier(None, false, true, A7R_V_WIDTH, A7R_V_WIDTH,).unwrap(),
        RenderTier::FullResolutionRoi
    );
    assert_eq!(
        resolve_preview_render_tier(
            Some(RenderTier::RapidPreview),
            true,
            false,
            2_048,
            A7R_V_WIDTH,
        )
        .unwrap(),
        RenderTier::RapidPreview
    );
    assert_eq!(
        resolve_preview_render_tier(
            Some(RenderTier::FullResolutionRoi),
            false,
            true,
            A7R_V_WIDTH,
            A7R_V_WIDTH,
        )
        .unwrap(),
        RenderTier::FullResolutionRoi
    );
    assert!(
        resolve_preview_render_tier(
            Some(RenderTier::FullResolutionExport),
            false,
            false,
            A7R_V_WIDTH,
            A7R_V_WIDTH,
        )
        .is_err()
    );
    assert!(
        resolve_preview_render_tier(
            Some(RenderTier::FullResolutionRoi),
            false,
            true,
            A7R_V_WIDTH / 2,
            A7R_V_WIDTH,
        )
        .is_err()
    );
}

#[test]
fn mask_textures_use_a_dummy_or_bounded_tiles_at_60mp() {
    let plan = MaskTexturePlan::new(A7R_V_WIDTH, A7R_V_HEIGHT, 0, 0, 32);
    assert!(plan.use_dummy);
    assert_eq!(plan.upload_layers, 0);
    assert_eq!(plan.texture_width, 1);
    assert_eq!(plan.texture_height, 1);
    assert_eq!(plan.logical_texture_bytes(), 1);

    let legacy_two_layer_bytes = A7R_V_WIDTH as usize * A7R_V_HEIGHT as usize * 2;
    assert_eq!(legacy_two_layer_bytes, 120_434_688);

    let one_mask = MaskTexturePlan::new(A7R_V_WIDTH, A7R_V_HEIGHT, 1, 1, 32);
    assert_eq!(one_mask.upload_layers, 1);
    assert_eq!(one_mask.texture_width, 2_304);
    assert_eq!(one_mask.texture_height, 2_304);
    assert_eq!(one_mask.logical_texture_bytes(), 5_308_416);
    assert_eq!(one_mask.legacy_full_texture_bytes(), 60_217_344);
    assert_eq!(one_mask.saved_texture_bytes(), 54_908_928);

    let missing_bitmap = MaskTexturePlan::new(A7R_V_WIDTH, A7R_V_HEIGHT, 2, 1, 32);
    assert!(!missing_bitmap.use_dummy);
    assert_eq!(missing_bitmap.layers, 2);
    assert_eq!(missing_bitmap.upload_layers, 1);

    let all_missing = MaskTexturePlan::new(A7R_V_WIDTH, A7R_V_HEIGHT, 2, 0, 32);
    assert!(!all_missing.use_dummy);
    assert_eq!(all_missing.layers, 2);
    assert_eq!(all_missing.upload_layers, 0);

    let capped = MaskTexturePlan::new(A7R_V_WIDTH, A7R_V_HEIGHT, 40, 40, 32);
    assert_eq!(capped.upload_layers, 32);
    assert_eq!(capped.logical_texture_bytes(), 169_869_312);
    assert_eq!(capped.legacy_full_texture_bytes(), 1_926_955_008);
    assert_eq!(capped.saved_texture_bytes(), 1_757_085_696);

    let ordinary_preview = MaskTexturePlan::new(1_920, 1_280, 1, 1, 32);
    assert_eq!(ordinary_preview.texture_width, 1_920);
    assert_eq!(ordinary_preview.texture_height, 1_280);
    assert_eq!(ordinary_preview.saved_texture_bytes(), 0);
}

#[test]
fn mask_tile_upload_maps_local_shader_coordinates_to_source_pixels() {
    let upload = MaskTileUploadPlan::new(A7R_V_WIDTH, A7R_V_HEIGHT, 1_920, 2_048, 2_304, 2_304)
        .expect("interior 60MP mask tile");

    assert_eq!(upload.source_offset_bytes, 19_466_112);
    assert_eq!(upload.bytes_per_row, A7R_V_WIDTH);
    assert_eq!(upload.rows_per_image, A7R_V_HEIGHT);
    assert_eq!(upload.width, 2_304);
    assert_eq!(upload.height, 2_304);

    for (local_x, local_y) in [(0_u32, 0_u32), (127, 511), (2_303, 2_303)] {
        let tiled_index = upload.source_offset_bytes
            + u64::from(local_y) * u64::from(upload.bytes_per_row)
            + u64::from(local_x);
        let full_frame_index =
            u64::from(2_048 + local_y) * u64::from(A7R_V_WIDTH) + u64::from(1_920 + local_x);
        assert_eq!(tiled_index, full_frame_index);
    }

    assert!(MaskTileUploadPlan::new(A7R_V_WIDTH, A7R_V_HEIGHT, 9_000, 0, 2_304, 1).is_none());
    assert!(MaskTileUploadPlan::new(A7R_V_WIDTH, A7R_V_HEIGHT, 0, 0, 0, 1).is_none());
}

#[test]
fn cpu_export_avoids_full_frame_display_textures() {
    let cpu_export = GpuProcessorTexturePlan::new(A7R_V_WIDTH, A7R_V_HEIGHT, false);
    let native_display = GpuProcessorTexturePlan::new(A7R_V_WIDTH, A7R_V_HEIGHT, true);

    assert!(!cpu_export.has_native_display_surfaces());
    assert!(native_display.has_native_display_surfaces());
    assert_eq!(cpu_export.display_width, 1);
    assert_eq!(cpu_export.display_height, 1);
    assert_eq!(native_display.display_width, 9_728);
    assert_eq!(native_display.display_height, 6_400);
    assert_eq!(
        native_display.logical_texture_bytes() - cpu_export.logical_texture_bytes(),
        498_073_592
    );
}

#[test]
fn high_water_processor_shrinks_with_hysteresis() {
    let high_water = GpuProcessorTexturePlan::new(A7R_V_WIDTH, A7R_V_HEIGHT, true);
    assert!(high_water.logical_texture_bytes() > GPU_RECLAIM_HIGH_WATER_BYTES);
    assert!(high_water.should_rebuild_for(A7R_V_WIDTH, A7R_V_HEIGHT, false));
    assert!(high_water.should_rebuild_for(2_048, 1_365, true));
    assert!(!high_water.should_rebuild_for(A7R_V_WIDTH, A7R_V_HEIGHT, true));

    let ordinary_preview = GpuProcessorTexturePlan::new(2_048, 1_365, true);
    assert!(!ordinary_preview.should_rebuild_for(1_920, 1_280, true));
    assert!(ordinary_preview.should_rebuild_for(4_096, 2_731, true));
}

#[test]
fn gpu_reclamation_uses_the_combined_processor_and_input_high_water() {
    assert!(!should_reclaim_gpu_resources(
        256 * 1024 * 1024,
        255 * 1024 * 1024
    ));
    assert!(should_reclaim_gpu_resources(
        256 * 1024 * 1024,
        256 * 1024 * 1024
    ));
    assert!(should_reclaim_gpu_resources(usize::MAX, usize::MAX));
}

#[test]
fn streaming_export_bounds_the_60mp_cpu_output_band() {
    let plan = StreamingExportBufferPlan::new(A7R_V_WIDTH, A7R_V_HEIGHT);
    assert_eq!(plan.band_rows, 2_048);
    assert_eq!(plan.band_rgba_bytes(), 77_856_768);
    assert_eq!(plan.legacy_full_rgba_bytes(), 240_869_376);
    assert_eq!(
        plan.legacy_full_rgba_bytes() - plan.band_rgba_bytes(),
        163_012_608
    );
}

#[test]
fn tiers_are_named_as_the_interface_spells_them() {
    assert_eq!(RenderTier::RapidPreview.as_str(), "rapidPreview");
    assert_eq!(RenderTier::HalfResolutionEdit.as_str(), "halfResolutionEdit");
    assert_eq!(RenderTier::FullResolutionRoi.as_str(), "fullResolutionRoi");
    assert_eq!(
        RenderTier::FullResolutionExport.as_str(),
        "fullResolutionExport"
    );
}

#[test]
fn every_objection_to_a_tier_has_its_message() {
    let message = |tier, interactive, roi, target| {
        resolve_preview_render_tier(Some(tier), interactive, roi, target, 100).unwrap_err()
    };
    assert_eq!(
        message(RenderTier::RapidPreview, false, false, 100),
        "rapidPreview is only valid for interactive preview jobs"
    );
    assert_eq!(
        message(RenderTier::HalfResolutionEdit, true, false, 100),
        "interactive preview jobs must use rapidPreview"
    );
    assert_eq!(
        message(RenderTier::FullResolutionRoi, true, true, 100),
        "fullResolutionRoi is only valid for settled preview jobs"
    );
    assert_eq!(
        message(RenderTier::FullResolutionRoi, false, false, 100),
        "fullResolutionRoi requires a viewport ROI"
    );
    assert_eq!(
        message(RenderTier::FullResolutionRoi, false, true, 99),
        "fullResolutionRoi must render at the source resolution"
    );
    assert_eq!(
        message(RenderTier::FullResolutionExport, false, true, 100),
        "fullResolutionExport cannot be submitted to the preview worker"
    );
}

#[test]
fn jobs_without_a_tier_are_given_one_that_is_accepted() {
    for interactive in [false, true] {
        for roi in [false, true] {
            for target in [0, 50, 100, 200] {
                let tier = resolve_preview_render_tier(None, interactive, roi, target, 100);
                assert!(tier.is_ok());
                let tier = tier.unwrap();
                assert_eq!(
                    resolve_preview_render_tier(Some(tier), interactive, roi, target, 100),
                    Ok(tier)
                );
            }
        }
    }
    assert_eq!(
        resolve_preview_render_tier(None, false, true, 0, 0),
        Ok(RenderTier::HalfResolutionEdit)
    );
}

#[test]
fn textures_for_a_small_render_only_grow() {
    let small = GpuProcessorTexturePlan::new(640, 480, false);
    assert!(!small.should_rebuild_for(640, 480, false));
    assert!(!small.should_rebuild_for(16, 16, false));
    assert!(small.should_rebuild_for(641 + 256, 480, false));
}

#[test]
fn a_band_is_no_larger_than_its_frame() {
    let plan = StreamingExportBufferPlan::new(300, 200);
    assert_eq!(plan.band_rows, 200);
    assert_eq!(plan.band_rgba_bytes(), 240_000);
    assert_eq!(plan.legacy_full_rgba_bytes(), 240_000);
}
