use rapidraw_core::background::build_focus_background_foreground_envelope;
use rapidraw_core::background::build_focus_background_reference_mask;
use rapidraw_core::background::lattice_pixels;
use rapidraw_core::background::measured_background;
use rapidraw_core::background::owner_tones;
use rapidraw_core::background::tone_sample_step;
use rapidraw_core::background::update_focus_background_reference;
use rapidraw_core::background::EnvelopeSettings;
use rapidraw_core::bounds::Bounds;
use rapidraw_core::color_samples::cell_medians;
use rapidraw_core::color_samples::find_color_samples;
use rapidraw_core::color_samples::group_by_cell;
use rapidraw_core::color_samples::lending_cells;
use rapidraw_core::color_samples::overall_median;
use rapidraw_core::color_samples::sample_step;
use rapidraw_core::focus_layer::hard_select_focus_layer;
use rapidraw_core::focus_layer::hard_select_focus_layer_outside_patch;
use rapidraw_core::focus_layer::hard_select_focus_pixels;
use rapidraw_core::focus_layer::mark_focus_foreground_pixels;
use rapidraw_core::focus_layer::mark_focus_owner_pixels;
use rapidraw_core::focus_layer::place_focus_foreground_mask;
use rapidraw_core::focus_layer::place_focus_layer;
use rapidraw_core::focus_layer::RenderedFocusLayer;
use rapidraw_core::focus_stack::analysis_region;
use rapidraw_core::focus_stack::choose_route;
use rapidraw_core::focus_stack::commit_focus_analysis_scores;
use rapidraw_core::focus_stack::commit_focus_layer;
use rapidraw_core::focus_stack::commit_scores;
use rapidraw_core::focus_stack::confidence_samples;
use rapidraw_core::focus_stack::count_groups;
use rapidraw_core::focus_stack::first_owners;
use rapidraw_core::focus_stack::focus_decision_mask;
use rapidraw_core::focus_stack::guard_analysis_decision;
use rapidraw_core::focus_stack::owner_number;
use rapidraw_core::focus_stack::render_focus_analysis_layer;
use rapidraw_core::focus_stack::start_focus_canvas;
use rapidraw_core::focus_stack::FocusCanvas;
use rapidraw_core::focus_stack::Lead;
use rapidraw_core::focus_stack::RenderedFocusAnalysisLayer;
use rapidraw_core::focus_stack::StackRoute;
use rapidraw_core::layer_shift::align_focus_foreground_layer_to_existing;
use rapidraw_core::layer_shift::translate_rendered_focus_layer;
use rapidraw_core::ownership::focus_foreground_edge_mask;
use rapidraw_core::ownership::focus_foreground_overlap_mask_for_region;
use rapidraw_core::ownership::suppress_focus_canvas_switches;
use rapidraw_core::ownership::suppress_focus_foreground_ownership_switches;
use rapidraw_core::ownership::suppress_focus_foreground_ownership_switches_on_canvas;
use rapidraw_core::ownership::suppress_focus_foreground_switches;
use rapidraw_core::ownership::suppress_focus_foreground_switches_on_canvas;
use rapidraw_core::raster::Raster;
use rapidraw_core::render_layer::assemble_focus_layer;
use rapidraw_core::render_layer::choose_local_mapping;
use rapidraw_core::render_layer::choose_source;
use rapidraw_core::render_layer::clamped_region;
use rapidraw_core::render_layer::select_local_candidate;
use rapidraw_core::render_layer::BandAxis;
use rapidraw_core::render_layer::LayerSample;
use rapidraw_core::render_layer::LocalCandidate;
use rapidraw_core::render_layer::LocalMapping;
use rapidraw_core::render_layer::SourceChoice;
use rapidraw_core::seam_band::commit_focus_seam;
use rapidraw_core::seam_band::focus_seam_patch;
use rapidraw_core::seam_band::plan_focus_seam;
use rapidraw_core::seam_band::FocusSeamPlan;
use rapidraw_core::shift_search::coarse_shifts;
use rapidraw_core::shift_search::fine_shifts;
use rapidraw_core::shift_search::patch_centers;
use rapidraw_core::shift_search::rank_shifts;
use rapidraw_core::shift_search::shift_consensus;
use rapidraw_core::shift_search::Shift;
use rapidraw_core::shift_search::ShiftScore;

fn raster<P>(width: u32, pixels: Vec<P>) -> Raster<P> {
    let height = pixels.len() as u32 / width;
    Raster {
        width,
        height,
        pixels,
    }
}

fn layer<P: Copy>(image: Raster<P>, left: u32, top: u32) -> RenderedFocusLayer<P> {
    let (width, height) = (image.width, image.height);
    RenderedFocusLayer {
        image,
        mask: Raster::filled(width, height, 255),
        foreground_mask: Raster::filled(width, height, 0),
        relaxed_foreground_mask: Raster::filled(width, height, 0),
        left,
        top,
    }
}

/// The mean of a window whose border pixels are repeated.
fn blurred(scores: &[f32], radius: i64) -> Vec<f32> {
    let last = scores.len() as i64 - 1;
    (0..scores.len() as i64)
        .map(|x| {
            let sum: f32 = (-radius..=radius)
                .map(|offset| scores[(x + offset).clamp(0, last) as usize])
                .sum();
            sum / (2 * radius + 1) as f32
        })
        .collect()
}

/// The decision for one row of pixels with these focus scores.
fn decide(base: &[f32], candidate: &[f32]) -> Vec<u8> {
    let width = base.len() as u32;
    let mask: Raster<u8> = Raster::filled(width, 1, 255);
    let other: Raster<u8> = Raster::filled(width, 1, 255);
    let advantage: Vec<f32> = base
        .iter()
        .zip(candidate)
        .map(|(base, candidate)| (candidate - base) / (candidate + base + 1e-6))
        .collect();
    let mut highest: Vec<f32> = base
        .iter()
        .zip(candidate)
        .map(|(base, candidate)| base.max(*candidate))
        .collect();
    let scores = highest.clone();
    highest.sort_by(f32::total_cmp);
    let floor = highest[((highest.len() - 1) as f32 * 0.9) as usize] * 0.04;
    let leads = scores
        .iter()
        .zip(&advantage)
        .map(|(score, advantage)| {
            if *score <= floor {
                Lead::Neither
            } else if *advantage < -0.20 {
                Lead::Base
            } else if *advantage > 0.20 {
                Lead::Candidate
            } else {
                Lead::Neither
            }
        })
        .collect();
    let ahead = scores
        .iter()
        .zip(blurred(&advantage, 2))
        .map(|(score, coarse)| *score > floor && coarse > 0.04)
        .collect();
    focus_decision_mask(&leads, &ahead, &mask, &other, 2).pixels
}

#[test]
fn focus_decision_prefers_the_locally_sharper_layer() {
    let base_focus = vec![0.9, 0.8, 0.1, 0.1];
    let candidate_focus = vec![0.1, 0.1, 0.8, 0.9];

    assert_eq!(decide(&base_focus, &candidate_focus), [0, 0, 255, 255]);
}

#[test]
fn focus_decision_extends_clear_structure_over_an_adjacent_halo() {
    let base_focus = vec![0.9, 0.9, 0.9, 0.2, 0.2, 0.2, 0.2];
    let candidate_focus = vec![0.1, 0.1, 0.1, 0.8, 0.8, 0.22, 0.2];

    let decision = decide(&base_focus, &candidate_focus);

    assert_eq!(decision[2], 0);
    assert_eq!(decision[4], 255);
    assert_eq!(decision[5], 255);
}

#[test]
fn focus_decision_protects_base_structure_symmetrically() {
    let base_focus = vec![0.1, 0.1, 0.8, 0.8, 0.22, 0.2, 0.2];
    let candidate_focus = vec![0.9, 0.9, 0.1, 0.1, 0.2, 0.2, 0.2];

    let decision = decide(&base_focus, &candidate_focus);

    assert_eq!(decision[0], 255);
    assert_eq!(decision[2], 0);
    assert_eq!(decision[4], 0);
}

#[test]
fn only_valid_sources_win_a_pixel() {
    let base = raster(3, vec![255, 0, 0]);
    let candidate = raster(3, vec![0, 255, 0]);
    let decision = focus_decision_mask(
        &vec![Lead::Neither; 3],
        &vec![true; 3],
        &base,
        &candidate,
        2,
    );
    assert_eq!(decision.pixels, vec![0, 255, 0]);
}

/// The colour of bare canvas.
fn is_canvas_like(pixel: [f32; 3]) -> bool {
    let [red, green, blue] = pixel;
    let luma = red * 0.299 + green * 0.587 + blue * 0.114;
    (0.12..=0.78).contains(&luma)
        && red - green >= 0.025
        && green - blue >= 0.015
        && green / red >= 0.42
        && blue / red >= 0.24
        && red - 2.0 * green + blue <= 0.08
}

/// Dark neutral ink.
fn is_ink(pixel: [f32; 3]) -> bool {
    let luma = pixel[0] * 0.299 + pixel[1] * 0.587 + pixel[2] * 0.114;
    luma <= 0.18 && (pixel[0] - pixel[1]).abs() <= 0.07 && (pixel[1] - pixel[2]).abs() <= 0.07
}

#[test]
fn focus_canvas_switch_suppression_keeps_canvas_owner_but_allows_ink() {
    let mut decision = raster(2, vec![255, 255]);
    let base = [[0.32, 0.28, 0.24], [0.05, 0.05, 0.05]];
    let candidate = [[0.40, 0.36, 0.32], [0.01, 0.01, 0.01]];
    let mask = raster(2, vec![255, 255]);

    suppress_focus_canvas_switches(
        &mut decision,
        &raster(2, base.iter().map(|pixel| is_canvas_like(*pixel)).collect()),
        &raster(2, candidate.iter().map(|pixel| is_canvas_like(*pixel)).collect()),
        &mask,
        &raster(2, vec![255, 255]),
    );

    assert_eq!(decision.pixels, [0, 255]);
}

#[test]
fn focus_seam_keeps_painted_detail_on_one_source() {
    const WIDTH: u32 = 64;
    const HEIGHT: u32 = 64;
    let canvas = [0.32f32, 0.28, 0.24];
    let candidate_canvas = [0.40f32, 0.36, 0.32];
    let mut base = Raster::filled(WIDTH, HEIGHT, canvas);
    let mut image = Raster::filled(WIDTH, HEIGHT, candidate_canvas);
    for y in 16..48 {
        image.put(32, y, [0.01, 0.01, 0.01]);
    }
    let candidate = layer(image, 0, 0);
    let mut base_mask: Raster<u8> = Raster::filled(WIDTH, HEIGHT, 255);
    let merged_foreground_mask: Raster<u8> = Raster::filled(WIDTH, HEIGHT, 0);
    let decision = raster(
        WIDTH,
        (0..WIDTH * HEIGHT)
            .map(|i| if i % WIDTH >= WIDTH / 2 { 255 } else { 0 })
            .collect(),
    );

    let plan = plan_focus_seam(&base_mask, &merged_foreground_mask, &candidate, &decision, 2, 8);
    let patch = match plan {
        FocusSeamPlan::Blend(patch) => patch,
        other => panic!("the seam should be blended: {other:?}"),
    };
    let painted = |pixels: &Raster<[f32; 3]>| {
        let mut list = vec![];
        for y in patch.top..=patch.bottom {
            for x in patch.left..=patch.right {
                list.push(is_ink(pixels.pixel(x, y)));
            }
        }
        list
    };
    let parts = focus_seam_patch(
        &base,
        &base_mask,
        &merged_foreground_mask,
        &candidate,
        &decision,
        2,
        patch,
        &painted(&base),
        &painted(&candidate.image),
    );
    let blended: Vec<[f32; 3]> = vec![[0.5, 0.5, 0.5]; parts.base.len()];
    commit_focus_seam(
        &mut base,
        &mut base_mask,
        &candidate,
        &decision,
        patch,
        &parts,
        &blended,
    );

    assert_eq!(base.pixel(32, 32), [0.01, 0.01, 0.01]);
}

#[test]
fn hard_focus_selection_copies_source_pixels_without_averaging() {
    let mut base = raster(
        3,
        vec![[1.0, 0.0, 0.0], [0.0, 1.0, 0.0], [1.0, 1.0, 0.0]],
    );
    let candidate = raster(
        3,
        vec![[0.0, 0.0, 1.0], [0.2, 0.3, 0.9], [0.7, 0.1, 0.8]],
    );
    let mut base_mask = raster(3, vec![255, 255, 0]);
    let candidate_mask = raster(3, vec![255; 3]);
    let decision = raster(3, vec![0, 255, 0]);

    hard_select_focus_pixels(
        &mut base,
        &mut base_mask,
        &candidate,
        &candidate_mask,
        &decision,
    );

    assert_eq!(base.pixel(0, 0), [1.0, 0.0, 0.0]);
    assert_eq!(base.pixel(1, 0), [0.2, 0.3, 0.9]);
    assert_eq!(base.pixel(2, 0), [0.7, 0.1, 0.8]);
    assert_eq!(base_mask.pixels, [255, 255, 255]);
}

#[test]
fn a_layer_off_the_canvas_changes_nothing() {
    let mut base = raster(2, vec![1, 2]);
    let mut mask = raster(2, vec![255, 255]);
    let outside = layer(raster(2, vec![8, 9]), 1, 0);
    place_focus_layer(&mut base, &mut mask, &outside);
    assert_eq!(base.pixels, vec![1, 2]);
    hard_select_focus_layer(&mut base, &mut mask, &outside, &raster(2, vec![255, 255]));
    assert_eq!(base.pixels, vec![1, 2]);
    place_focus_layer(&mut base, &mut mask, &layer(raster(1, vec![8]), 1, 0));
    assert_eq!(base.pixels, vec![1, 8]);
}

#[test]
fn a_stack_takes_the_route_that_its_groups_ask_for() {
    assert_eq!(count_groups(&vec![3, 1, 3, 3]), 2);
    assert_eq!(count_groups(&vec![]), 0);
    assert_eq!(choose_route(0, true, &vec![1, 2], true), StackRoute::Empty);
    assert_eq!(choose_route(3, true, &vec![], false), StackRoute::Mosaic);
    assert_eq!(choose_route(3, false, &vec![1, 2], true), StackRoute::Mosaic);
    assert_eq!(choose_route(3, false, &vec![1, 2], false), StackRoute::Focus);
    assert_eq!(choose_route(3, false, &vec![1, 1], true), StackRoute::Focus);
    assert_eq!(owner_number(0), 1);
    assert_eq!(owner_number(1), 3);
    assert_eq!(owner_number(400), 255);
}

#[test]
fn committing_a_layer_copies_whole_pixels_and_notes_the_owner() {
    let mut canvas = FocusCanvas {
        image: raster(3, vec![1, 2, 3]),
        mask: raster(3, vec![255, 255, 0]),
        foreground: raster(3, vec![0, 0, 0]),
        owner: raster(3, vec![1, 1, 0]),
    };
    let candidate = layer(raster(3, vec![7, 8, 9]), 0, 0);
    let settled = commit_focus_layer(&mut canvas, &candidate, raster(3, vec![0, 255, 255]), 0, 1);
    assert_eq!(settled.pixels, vec![0, 255, 255]);
    assert_eq!(canvas.image.pixels, vec![1, 8, 9]);
    assert_eq!(canvas.mask.pixels, vec![255; 3]);
    assert_eq!(canvas.owner.pixels, vec![1, 3, 3]);
}

#[test]
fn owned_foreground_is_not_taken_over() {
    let mut canvas = FocusCanvas {
        image: raster(3, vec![1, 2, 3]),
        mask: raster(3, vec![255; 3]),
        foreground: raster(3, vec![255, 0, 0]),
        owner: raster(3, vec![1; 3]),
    };
    let candidate = layer(raster(3, vec![7, 8, 9]), 0, 0);
    commit_focus_layer(&mut canvas, &candidate, raster(3, vec![255; 3]), 1, 1);
    assert_eq!(canvas.image.pixels, vec![1, 2, 9]);
}

#[test]
fn foreground_decisions_are_suppressed_near_owned_foreground() {
    let merged = raster(4, vec![255, 0, 0, 0]);
    let shown = raster(4, vec![255; 4]);
    let mut relaxed = raster(4, vec![0; 4]);
    let mut decision = raster(4, vec![255; 4]);
    suppress_focus_foreground_switches_on_canvas(&mut decision, &merged, &shown, &relaxed, 1);
    assert_eq!(decision.pixels, vec![0, 0, 255, 255]);
    relaxed.put(1, 0, 255);
    let mut decision = raster(4, vec![255; 4]);
    suppress_focus_foreground_ownership_switches_on_canvas(
        &mut decision,
        &merged,
        &shown,
        &relaxed,
        1,
    );
    assert_eq!(decision.pixels, vec![0, 255, 255, 255]);
    assert_eq!(
        focus_foreground_edge_mask(&vec![255, 255, 255, 0, 0], 5, 1, 1),
        vec![0, 0, 1, 0, 0]
    );
}

#[test]
fn an_analysis_decision_passes_all_guards() {
    let layer = RenderedFocusAnalysisLayer {
        image: raster(5, vec![(); 5]),
        mask: raster(5, vec![255, 255, 255, 255, 0]),
        foreground_mask: raster(5, vec![255, 0, 255, 0, 0]),
        relaxed_foreground_mask: raster(5, vec![0; 5]),
    };
    let settled = guard_analysis_decision(
        raster(5, vec![255; 5]),
        &raster(5, vec![255, 0, 0, 0, 0]),
        &raster(5, vec![255; 5]),
        &raster(5, vec![false, false, false, true, true]),
        &layer,
        &raster(5, vec![false, false, true, true, true]),
        1,
    );
    assert_eq!(settled.pixels, vec![0, 0, 255, 0, 255]);
}

#[test]
fn foreground_of_a_placed_layer_is_kept_and_guarded() {
    let mut first = layer(raster(2, vec![7, 8]), 1, 0);
    first.foreground_mask = raster(2, vec![255, 0]);
    let mut merged = raster(5, vec![0; 5]);
    place_focus_foreground_mask(&mut merged, &first);
    assert_eq!(merged.pixels, vec![0, 255, 0, 0, 0]);

    // A layer from column 2 on lies next to the owned foreground with its first pixel only.
    assert_eq!(
        focus_foreground_overlap_mask_for_region(&merged, 2, 0, 3, 1, 1),
        vec![1, 0, 0]
    );
    let mut second = layer(raster(3, vec![4, 5, 6]), 2, 0);
    second.foreground_mask = raster(3, vec![255, 255, 0]);
    let mut decision = raster(3, vec![255; 3]);
    suppress_focus_foreground_switches(&mut decision, &merged, &second, 1);
    assert_eq!(decision.pixels, vec![0, 255, 255]);
    let mut decision = raster(3, vec![255; 3]);
    suppress_focus_foreground_ownership_switches(
        &mut decision,
        &merged,
        &second.mask,
        1,
        0,
        &second.relaxed_foreground_mask,
        1,
    );
    assert_eq!(decision.pixels, vec![0, 0, 255]);

    let shown = raster(5, vec![0, 255, 255, 255, 0]);
    mark_focus_foreground_pixels(&mut merged, &shown, &second, &raster(3, vec![0, 255, 255]));
    assert_eq!(merged.pixels, vec![0, 255, 0, 255, 0]);
}

#[test]
fn a_patch_is_left_out_of_a_hard_selection() {
    let candidate = layer(raster(3, vec![4, 5, 6]), 1, 0);
    let mut image = raster(5, vec![1; 5]);
    let mut shown = raster(5, vec![255, 255, 255, 255, 0]);
    hard_select_focus_layer_outside_patch(
        &mut image,
        &mut shown,
        &candidate,
        &raster(3, vec![255, 255, 255]),
        1,
        1,
        0,
        0,
    );
    assert_eq!(image.pixels, vec![1, 4, 1, 6, 1]);
    assert_eq!(shown.pixels, vec![255, 255, 255, 255, 0]);
}

#[test]
fn analysis_regions_scale_with_the_canvas() {
    let shown = layer(raster(4, vec![0u8; 16]), 4, 0);
    let region = analysis_region(&shown, 8, 8, 4, 4).unwrap();
    assert_eq!(
        region,
        Bounds {
            left: 2,
            right: 3,
            top: 0,
            bottom: 1
        }
    );
    assert!(analysis_region(&shown, 0, 8, 4, 4).is_none());
    let analysis =
        render_focus_analysis_layer(&shown, region, &raster(2, vec![5u8, 6, 7, 8]), 0, 4, 4);
    assert_eq!(analysis.image.pixel(2, 0), 5);
    assert_eq!(analysis.image.pixel(3, 1), 8);
    assert_eq!(analysis.image.pixel(0, 0), 0);
    assert_eq!(analysis.mask.pixel(2, 1), 255);
    assert_eq!(analysis.mask.pixel(1, 1), 0);
}

#[test]
fn scores_are_noted_where_the_layer_was_committed() {
    let mut best = vec![1, 1, 1, 1];
    let region = Bounds {
        left: 1,
        right: 2,
        top: 0,
        bottom: 0,
    };
    let valid = raster(4, vec![255; 4]);
    commit_scores(&mut best, &vec![9; 4], &valid, &raster(2, vec![0, 255]), region);
    assert_eq!(best, vec![1, 1, 9, 1]);
    let mut best = vec![1, 1, 1, 1];
    let shown = layer(raster(4, vec![0u8; 4]), 0, 0);
    commit_focus_analysis_scores(
        &mut best,
        &vec![9; 4],
        &valid,
        &shown,
        &raster(4, vec![255, 255, 0, 0]),
        region,
    );
    assert_eq!(best, vec![1, 9, 1, 1]);
    assert_eq!(first_owners(&raster(2, vec![255, 0])).pixels, vec![1, 0]);
    assert_eq!(
        confidence_samples(&raster(3, vec![0, 255, 0]), &raster(3, vec![255, 0, 0])),
        vec![0, 1]
    );
}

#[test]
fn owners_are_marked_where_the_decision_is_for_them() {
    let mut owner = raster(3, vec![1, 1, 1]);
    let shown = layer(raster(2, vec![0u8; 2]), 1, 0);
    mark_focus_owner_pixels(&mut owner, &shown, &raster(2, vec![0, 255]), 7);
    assert_eq!(owner.pixels, vec![1, 1, 7]);
}

#[test]
fn a_layer_is_moved_within_the_canvas() {
    let moved =
        translate_rendered_focus_layer(layer(raster(3, vec![1, 2, 3]), 1, 0), 2, 0, 5, 1, 0);
    assert_eq!(moved.left, 3);
    assert_eq!(moved.image.pixels, vec![1, 2]);
    let moved =
        translate_rendered_focus_layer(layer(raster(3, vec![1, 2, 3]), 1, 0), -2, 0, 5, 1, 0);
    assert_eq!(moved.left, 0);
    assert_eq!(moved.image.pixels, vec![2, 3]);
}

#[test]
fn foreground_is_aligned_with_what_is_there() {
    let side = 40u32;
    let mut merged: Raster<u8> = Raster::filled(side, side, 0);
    let mut candidate = layer(Raster::filled(side, side, 0u8), 0, 0);
    for y in 10..20 {
        for x in 10..20 {
            merged.put(x, y, 255);
            candidate.foreground_mask.put(x + 2, y + 1, 255);
            candidate.image.put(x + 2, y + 1, 9);
        }
    }
    let aligned = align_focus_foreground_layer_to_existing(candidate, &merged, 4);
    assert_eq!(aligned.image.pixel(10, 10), 9);
    assert_eq!(aligned.foreground_mask.pixels, merged.pixels);
}

fn settings() -> EnvelopeSettings {
    EnvelopeSettings {
        cleanup_radius: 1,
        growth_radius: 1,
        existing_growth_radius: 1,
        minimum_component_size: 4,
        minimum_component_width: 2,
    }
}

#[test]
fn the_envelope_keeps_the_background_off_the_foreground() {
    let side = 32u32;
    let mut tone: Raster<bool> = Raster::filled(side, side, false);
    for y in 10..20 {
        for x in 10..20 {
            tone.put(x, y, true);
        }
    }
    let valid: Raster<u8> = Raster::filled(side, side, 255);
    let none: Raster<u8> = Raster::filled(side, side, 0);
    let envelope = build_focus_background_foreground_envelope(&tone, &valid, &none, &settings());
    assert_eq!(envelope.pixel(15, 15), 255);
    assert_eq!(envelope.pixel(9, 9), 255);
    assert_eq!(envelope.pixel(8, 8), 0);
    let background = build_focus_background_reference_mask(&tone, &valid, &none, &settings());
    assert_eq!(background.pixel(15, 15), 0);
    assert_eq!(background.pixel(8, 8), 255);
    let everything = vec![true; (side * side) as usize];
    let measured = measured_background(&valid, &envelope, &everything).unwrap();
    assert_eq!(measured.pixels, background.pixels);
    assert!(measured_background(&valid, &valid, &everything).is_none());
}

#[test]
fn the_reference_counts_its_sources() {
    let mut mask = raster(3, vec![0, 255, 255]);
    let mut counts = vec![7, 3, u16::MAX];
    let weights =
        update_focus_background_reference(&mut mask, &mut counts, &raster(3, vec![255; 3]));
    assert_eq!(weights, Some(vec![Some(0), Some(3), Some(u16::MAX)]));
    assert_eq!(counts, vec![1, 4, u16::MAX]);
    assert_eq!(mask.pixels, vec![255; 3]);
    assert!(
        update_focus_background_reference(&mut mask, &mut counts, &raster(2, vec![255; 2]))
            .is_none()
    );
}

#[test]
fn tones_are_measured_on_a_lattice_and_by_owner() {
    assert_eq!(tone_sample_step(100, 100), 1);
    assert_eq!(tone_sample_step(2048, 2048), 6);
    let shape = raster(4, vec![255, 255, 255, 255, 255, 255, 255, 255]);
    assert_eq!(lattice_pixels(&shape, 2), vec![0, 2]);
    let owner = raster(200, (0..200).map(|i| if i < 100 { 1 } else { 2 }).collect());
    let pixels: Vec<usize> = (0..150).collect();
    let keys: Vec<i64> = (0..150).collect();
    let tones = owner_tones(&pixels, &owner, keys);
    assert_eq!(tones.overall, Some(75));
    assert_eq!(tones.nodes[1], Some(50));
    assert_eq!(tones.nodes[2], None);
    assert_eq!(tones.nodes[0], None);
}

#[test]
fn colours_are_compared_off_the_foreground() {
    assert_eq!(sample_step(12_000), 1);
    assert_eq!(sample_step(12_001), 2);
    let base = Raster::filled(8, 4, 0u8);
    let base_mask: Raster<u8> = Raster::filled(8, 4, 255);
    let mut merged: Raster<u8> = Raster::filled(8, 4, 0);
    merged.put(4, 0, 255);
    let candidate = layer(Raster::filled(4, 2, 0u8), 2, 0);
    let samples = find_color_samples(&base, &base_mask, &merged, &candidate, 2).unwrap();
    let places: Vec<(u32, u32)> = samples.iter().map(|sample| (sample.x, sample.y)).collect();
    assert_eq!(places, vec![(0, 0)]);
    assert!(samples.iter().all(|sample| sample.cell == 0 && !sample.relaxed));
    let outside = layer(Raster::filled(4, 2, 0u8), 6, 0);
    assert!(find_color_samples(&base, &base_mask, &merged, &outside, 2).is_none());
}

/// A whole number that orders like a positive float.
fn key(value: f32) -> i64 {
    i64::from(value.to_bits())
}

#[test]
fn focus_color_correction_uses_only_consensus_foreground_overlap() {
    const WIDTH: u32 = 64;
    const HEIGHT: u32 = 32;
    let base = Raster::filled(WIDTH, HEIGHT, [0.4f32; 3]);
    let shared = |i: u32| i / WIDTH < 24;
    let image = (0..WIDTH * HEIGHT)
        .map(|i| if shared(i) { [0.5f32; 3] } else { [0.4; 3] })
        .collect();
    let foreground = || -> Raster<u8> {
        let pixels = (0..WIDTH * HEIGHT).map(|i| if shared(i) { 255 } else { 0 });
        raster(WIDTH, pixels.collect())
    };
    let mut candidate = layer(raster(WIDTH, image), 0, 0);
    candidate.foreground_mask = foreground();
    candidate.relaxed_foreground_mask = foreground();
    let step = sample_step(u64::from(WIDTH) * u64::from(HEIGHT));
    let samples = find_color_samples(
        &base,
        &Raster::filled(WIDTH, HEIGHT, 255),
        &foreground(),
        &candidate,
        step,
    )
    .unwrap();
    assert!(samples.iter().all(|sample| sample.relaxed == (sample.y < 24)));
    let gains = [0, 1, 2].map(|channel: usize| {
        let ratios = samples
            .iter()
            .map(|sample| {
                let own = base.pixel(sample.x, sample.y)[channel];
                key(own / candidate.image.pixel(sample.x, sample.y)[channel])
            })
            .collect();
        f32::from_bits(overall_median(ratios).unwrap() as u32)
    });
    assert!(gains.iter().all(|gain| (*gain - 0.8).abs() < 0.01));

    // Foreground that is not matched as one edge is no reference.
    candidate.relaxed_foreground_mask = Raster::filled(WIDTH, HEIGHT, 0);
    let strict = find_color_samples(
        &base,
        &Raster::filled(WIDTH, HEIGHT, 255),
        &foreground(),
        &candidate,
        step,
    )
    .unwrap();
    assert!(strict.iter().all(|sample| sample.y >= 24 && !sample.relaxed));
}

#[test]
fn a_canvas_starts_with_its_first_layer() {
    let mut first = layer(raster(2, vec![7, 8]), 1, 0);
    first.mask = raster(2, vec![255, 0]);
    first.foreground_mask = raster(2, vec![0, 255]);
    let canvas = start_focus_canvas(4, 1, 0, &first);
    assert_eq!(canvas.image.pixels, vec![0, 7, 8, 0]);
    assert_eq!(canvas.mask.pixels, vec![0, 255, 0, 0]);
    assert_eq!(canvas.foreground.pixels, vec![0, 0, 255, 0]);
    assert_eq!(canvas.owner.pixels, vec![0, 1, 0, 0]);
    let outside = layer(raster(2, vec![7, 8]), 3, 0);
    assert_eq!(start_focus_canvas(4, 1, 0, &outside).image.pixels, vec![0; 4]);
}

#[test]
fn measurements_are_gathered_by_cell() {
    let groups = group_by_cell(&vec![0, 2, 0, 0], &vec![5, 6, 1, 9], 3);
    assert_eq!(groups, vec![vec![5, 1, 9], vec![], vec![6]]);
    assert_eq!(cell_medians(groups, 2), vec![Some(5), None, None]);
    assert_eq!(overall_median(vec![1; 95]), None);
    assert_eq!(overall_median(vec![4; 96]), Some(4));
    let near = lending_cells(&vec![true, false, true, true], 4, 1, 1, 1);
    let found: Vec<(usize, usize)> = near
        .iter()
        .map(|cell| (cell.index, cell.squared_distance))
        .collect();
    assert_eq!(found, vec![(0, 1), (2, 1)]);
}

#[test]
fn shifts_are_searched_from_coarse_to_fine() {
    let centers = patch_centers(0, 0, 101, 101, 101, 101).unwrap();
    assert_eq!(centers.len(), 16);
    assert_eq!((centers[0].x, centers[0].y), (20, 20));
    assert_eq!((centers[15].x, centers[15].y), (80, 80));
    assert!(patch_centers(0, 0, 10, 10, 100, 100).is_none());
    assert_eq!(coarse_shifts().len(), 81);
    let fine = fine_shifts(Shift { x: 16, y: 0 });
    assert!(fine.iter().all(|shift| shift.x <= 16));
    let score = |x, y, score| ShiftScore {
        shift: Shift { x, y },
        score,
    };
    let ranked = rank_shifts(&vec![score(3, 0, 5), score(1, 0, 5), score(0, 0, 2)]).unwrap();
    assert_eq!(ranked.best, 1);
    assert_eq!(ranked.runner_up, Some(5));
    assert_eq!(ranked.unshifted, Some(2));
    assert!(rank_shifts(&vec![]).is_none());
}

#[test]
fn patches_have_to_agree_on_a_shift() {
    let shift = |x, y| Shift { x, y };
    let agreed = shift_consensus(&vec![shift(3, 1); 4]).unwrap();
    assert_eq!((agreed.shift, agreed.support), (shift(3, 1), 4));
    assert!(shift_consensus(&vec![shift(3, 1); 3]).is_none());
    assert!(shift_consensus(&vec![shift(0, 0); 8]).is_none());
}

#[test]
fn regions_are_clamped_to_the_canvas() {
    assert_eq!(
        clamped_region(-5, 3, 1, 99, 10, 10),
        Some(Bounds {
            left: 0,
            right: 3,
            top: 1,
            bottom: 9
        })
    );
    assert_eq!(clamped_region(4, 3, 0, 1, 10, 10), None);
}

#[test]
fn sources_are_chosen_by_where_they_reach() {
    assert_eq!(choose_source(false, false), SourceChoice::Skip);
    assert_eq!(choose_source(true, false), SourceChoice::Global);
    assert_eq!(choose_source(false, true), SourceChoice::Local);
    assert_eq!(choose_source(true, true), SourceChoice::Blend);
    let candidate = |axis, span, distance| LocalCandidate {
        axis,
        span,
        distance,
        strength: 1,
        relax_foreground_seam: false,
    };
    let list = vec![
        candidate(BandAxis::Vertical, 9, 1),
        candidate(BandAxis::Horizontal, 4, 1),
        candidate(BandAxis::Vertical, 3, 7),
    ];
    assert_eq!(select_local_candidate(&list, BandAxis::Vertical), Some(2));
    assert_eq!(select_local_candidate(&list, BandAxis::Horizontal), Some(1));
    assert_eq!(select_local_candidate(&vec![], BandAxis::Vertical), None);
    assert_eq!(
        choose_local_mapping(&list).mapping,
        LocalMapping::Composed(2, 1)
    );
    assert_eq!(choose_local_mapping(&vec![]).mapping, LocalMapping::Absent);
}

#[test]
fn a_layer_is_assembled_from_its_samples() {
    let region = Bounds {
        left: 2,
        right: 3,
        top: 1,
        bottom: 1,
    };
    let sample = LayerSample {
        pixel: 9,
        foreground: true,
        relaxed: false,
    };
    let assembled = assemble_focus_layer(region, &vec![None, Some(sample)], 0);
    assert_eq!((assembled.left, assembled.top), (2, 1));
    assert_eq!(assembled.image.pixels, vec![0, 9]);
    assert_eq!(assembled.mask.pixels, vec![0, 255]);
    assert_eq!(assembled.foreground_mask.pixels, vec![0, 255]);
    assert_eq!(assembled.relaxed_foreground_mask.pixels, vec![0, 0]);
}
