use rapidraw_core::bounds::Bounds;
use rapidraw_core::crop::Rectangle;
use rapidraw_core::mosaic::analysis_view;
use rapidraw_core::mosaic::capture_group;
use rapidraw_core::mosaic::cell_bounds;
use rapidraw_core::mosaic::cell_row;
use rapidraw_core::mosaic::copy_streaming_owned_tile_region;
use rapidraw_core::mosaic::copy_streaming_tile_region;
use rapidraw_core::mosaic::enter_group;
use rapidraw_core::mosaic::extend_coverage;
use rapidraw_core::mosaic::field_length;
use rapidraw_core::mosaic::field_node;
use rapidraw_core::mosaic::fill_streaming_uncovered_tile_region;
use rapidraw_core::mosaic::group_refinement_mask;
use rapidraw_core::mosaic::plan_layer;
use rapidraw_core::mosaic::sample_canvas;
use rapidraw_core::mosaic::sampled_positions;
use rapidraw_core::mosaic::streams_canvas;
use rapidraw_core::mosaic::CanvasTile;
use rapidraw_core::mosaic::LayerPlan;
use rapidraw_core::mosaic_ownership::ownership_grid;
use rapidraw_core::mosaic_ownership::rule_for;
use rapidraw_core::mosaic_ownership::CellEvidence;
use rapidraw_core::mosaic_ownership::OwnershipRule;
use rapidraw_core::raster::Raster;
use rapidraw_core::registration::choose_peak;
use rapidraw_core::registration::finer_peak;
use rapidraw_core::registration::lattice_points;
use rapidraw_core::registration::neighbour_medians;
use rapidraw_core::registration::refinement_points;
use rapidraw_core::registration::tone_medians;
use rapidraw_core::registration::GridPoint;
use rapidraw_core::registration::Peak;
use rapidraw_core::seam_distance::city_distances;
use rapidraw_core::seam_distance::seam_distances;
use rapidraw_core::seam_distance::seam_pixels;
use rapidraw_core::tiles::decode_tile;
use rapidraw_core::tiles::encode_tile;
use rapidraw_core::tiles::mask_or_blank;
use rapidraw_core::tiles::shared_part;
use rapidraw_core::tiles::tile_name;
use rapidraw_core::tiles::CanvasPixel;
use rapidraw_core::tiles::LengthMismatch;
use rapidraw_core::tiles::TileArea;
use rapidraw_core::tiles::TileFault;
use rapidraw_core::tiles::TileLayout;

fn raster<P>(width: u32, pixels: Vec<P>) -> Raster<P> {
    let height = pixels.len() as u32 / width;
    Raster {
        width,
        height,
        pixels,
    }
}

fn bounds(left: u32, right: u32, top: u32, bottom: u32) -> Bounds {
    Bounds {
        left,
        right,
        top,
        bottom,
    }
}

#[test]
fn streaming_store_round_trips_across_tile_boundaries() {
    let store = TileLayout::new(2050, 1025);
    let mut colors: Vec<Vec<u8>> = vec![];
    let mut masks: Vec<Vec<u8>> = vec![];
    for row in 0..store.tile_rows {
        for column in 0..store.tile_columns {
            let area = store.tile_extent(column, row);
            let value = (column + row * 3) as f32;
            let mut samples = vec![];
            for _ in 0..area.width * area.height {
                for channel in [value, value + 1.0, value + 2.0] {
                    samples.push(channel.to_bits());
                }
            }
            colors.push(encode_tile(&samples));
            masks.push(vec![255; (area.width * area.height) as usize]);
        }
    }
    let index = |column: u32, row: u32| (row * store.tile_columns + column) as usize;
    let load_mask = |column: u32, row: u32| -> Result<Raster<u8>, LengthMismatch> {
        let area = store.tile_extent(column, row);
        let stored = Some(masks[index(column, row)].clone());
        Ok(raster(area.width, mask_or_blank(stored, area.width, area.height)))
    };
    let load_color = |column: u32, row: u32| -> Result<Raster<[f32; 3]>, LengthMismatch> {
        let area = store.tile_extent(column, row);
        let samples = decode_tile(&colors[index(column, row)], area.width, area.height)?;
        let pixels = samples
            .chunks_exact(3)
            .map(|bits| [bits[0], bits[1], bits[2]].map(f32::from_bits))
            .collect();
        Ok(raster(area.width, pixels))
    };
    let crop = match store.largest_valid_rectangle(load_mask) {
        Ok(Some(crop)) => crop,
        other => panic!("full tile fixture should be covered: {other:?}"),
    };
    assert_eq!(
        crop,
        Rectangle {
            left: 0,
            top: 0,
            width: 2050,
            height: 1025
        }
    );
    let area = TileArea {
        left: crop.left as u32,
        top: crop.top as u32,
        width: crop.width as u32,
        height: crop.height as u32,
    };
    let output = match store.materialize(area, [0.0; 3], load_color) {
        Ok(output) => output,
        Err(fault) => panic!("tiles should materialize: {fault:?}"),
    };
    assert_eq!((output.width, output.height), (2050, 1025));
    assert_eq!(output.pixel(1023, 10), [0.0, 1.0, 2.0]);
    assert_eq!(output.pixel(1024, 10), [1.0, 2.0, 3.0]);
    assert_eq!(output.pixel(10, 1024), [3.0, 4.0, 5.0]);
}

#[test]
fn streaming_analysis_region_is_continuous_across_tile_boundaries() {
    let store = TileLayout::new(2050, 32);
    let load = |column: u32, row: u32| -> Result<Raster<CanvasPixel<[f32; 3]>>, ()> {
        let area = store.tile_extent(column, row);
        let value = column as f32 + 1.0;
        Ok(Raster::filled(
            area.width,
            area.height,
            CanvasPixel {
                color: [value, value, value],
                covered: 255,
                owner: 0,
            },
        ))
    };
    let columns = sampled_positions(1018, 2, 1, 8);
    let rows = sampled_positions(4, 2, 1, 4);
    let region = match store.analysis_region(&columns, &rows, [0.0; 3], load) {
        Ok(region) => region,
        Err(fault) => panic!("analysis region should be readable: {fault:?}"),
    };
    assert_eq!((region.image.width, region.image.height), (8, 4));
    assert_eq!(region.image.pixel(2, 1), [1.0, 1.0, 1.0]);
    assert_eq!(region.image.pixel(3, 1), [2.0, 2.0, 2.0]);
    assert!(region.mask.pixels.iter().all(|&value| value == 255));
    assert!(region.owner.pixels.iter().all(|&value| value == 0));
}

#[test]
fn streaming_uncovered_fill_preserves_owner_and_closes_real_source_holes() {
    let source = Raster::filled(16, 8, Some([0.8, 0.7, 0.6]));
    let mut tile = CanvasTile {
        image: Raster::filled(16, 8, [0.2, 0.2, 0.2]),
        mask: Raster::filled(16, 8, 255),
        owner: Raster::filled(16, 8, 3),
    };
    tile.mask.put(5, 3, 0);
    tile.owner.put(5, 3, 0);
    fill_streaming_uncovered_tile_region(&mut tile, 4, 0, 0, &source);

    assert_eq!(tile.image.pixel(4, 3), [0.2, 0.2, 0.2]);
    assert_eq!(tile.image.pixel(5, 3), [0.8, 0.7, 0.6]);
    assert_eq!(tile.mask.pixel(5, 3), 255);
    assert_eq!(tile.owner.pixel(4, 3), 3);
    assert_eq!(tile.owner.pixel(5, 3), 4);
}

const WIDTH: usize = 20;
const HEIGHT: usize = 15;

/// A sharp candidate over a blurred canvas that agrees with it.
fn sharper(x: usize, y: usize) -> CellEvidence {
    CellEvidence {
        candidate_valid: true,
        base_valid: true,
        at_source_edge: x == 0 || y == 0 || x + 1 == WIDTH || y + 1 == HEIGHT,
        owner: 0,
        candidate_energy: 4_000_000_000_000,
        base_energy: 1_000_000_000_000,
        disagreement: 1_000_000,
    }
}

fn evidence(measure: impl Fn(usize, usize) -> CellEvidence) -> Vec<CellEvidence> {
    (0..WIDTH * HEIGHT)
        .map(|i| measure(i % WIDTH, i / WIDTH))
        .collect()
}

fn selected(decision: &[u8], columns: impl Fn(usize) -> bool) -> usize {
    (0..decision.len())
        .filter(|i| columns(i % WIDTH) && decision[*i] != 0)
        .count()
}

#[test]
fn focus_group_ownership_cannot_reclaim_another_camera_position() {
    let cells = evidence(|x, y| CellEvidence {
        owner: if x < WIDTH / 2 { 3 } else { 4 },
        ..sharper(x, y)
    });
    let decision = ownership_grid(OwnershipRule::Group(3), WIDTH, HEIGHT, &cells);
    let left_selected = selected(&decision, |x| x < WIDTH / 2);
    let right_selected = selected(&decision, |x| x >= WIDTH / 2);
    assert!(
        left_selected > 0,
        "the sharper member should contribute inside its group"
    );
    assert_eq!(
        right_selected, 0,
        "a focal member must not overwrite a different camera position"
    );
}

#[test]
fn panorama_group_transition_only_enters_from_new_coverage() {
    let cells = evidence(|x, y| CellEvidence {
        base_valid: x < WIDTH * 3 / 4,
        owner: if x < WIDTH * 3 / 4 { 2 } else { 0 },
        ..sharper(x, y)
    });
    let decision = ownership_grid(OwnershipRule::Transition, WIDTH, HEIGHT, &cells);
    let left_quarter_selected = selected(&decision, |x| x < WIDTH / 4);
    let new_coverage_selected = selected(&decision, |x| x >= WIDTH * 3 / 4);
    assert_eq!(
        left_quarter_selected, 0,
        "a new camera group must not form a detached sharpness island"
    );
    assert!(
        new_coverage_selected > 0,
        "new source coverage must be admitted"
    );
}

#[test]
fn a_sharper_source_takes_the_interior() {
    let cells = evidence(sharper);
    let decision = ownership_grid(OwnershipRule::Mosaic, WIDTH, HEIGHT, &cells);
    assert_eq!(decision[0], 0);
    assert_eq!(decision[(HEIGHT / 2) * WIDTH + WIDTH / 2], 255);
    let blurred = evidence(|x, y| CellEvidence {
        candidate_energy: 1_000_000_000_000,
        base_energy: 4_000_000_000_000,
        ..sharper(x, y)
    });
    let decision = ownership_grid(OwnershipRule::Mosaic, WIDTH, HEIGHT, &blurred);
    assert!(decision.iter().all(|value| *value == 0));
    let equal = evidence(|x, y| CellEvidence {
        base_energy: 4_000_000_000_000,
        disagreement: 0,
        ..sharper(x, y)
    });
    let decision = ownership_grid(OwnershipRule::Mosaic, WIDTH, HEIGHT, &equal);
    assert!(decision.iter().all(|value| *value == 0));
    let absent = evidence(|x, y| CellEvidence {
        candidate_valid: false,
        base_valid: false,
        ..sharper(x, y)
    });
    let decision = ownership_grid(OwnershipRule::Mosaic, WIDTH, HEIGHT, &absent);
    assert!(decision.iter().all(|value| *value == 0));
}

#[test]
fn tiles_are_stored_and_read_back() {
    let bytes = encode_tile(&vec![1, 0x0102_0304, u32::MAX]);
    assert_eq!(bytes, vec![1, 0, 0, 0, 4, 3, 2, 1, 255, 255, 255, 255]);
    assert_eq!(decode_tile(&bytes, 1, 1), Ok(vec![1, 0x0102_0304, u32::MAX]));
    assert_eq!(
        decode_tile(&bytes, 2, 1),
        Err(LengthMismatch {
            found: 12,
            expected: 24
        })
    );
    assert_eq!(mask_or_blank(None, 2, 2), vec![0; 4]);
    assert_eq!(mask_or_blank(Some(vec![1, 2, 3]), 2, 2), vec![0; 4]);
    assert_eq!(mask_or_blank(Some(vec![1, 2, 3, 4]), 2, 2), vec![1, 2, 3, 4]);
    assert_eq!(tile_name(2, 0, "mask"), "tile-2-0.mask");
    assert_eq!(tile_name(11, 907, "rgb"), "tile-11-907.rgb");
}

#[test]
fn faulty_tiles_are_reported() {
    let store = TileLayout::new(1030, 4);
    let area = TileArea {
        left: 1020,
        top: 0,
        width: 8,
        height: 4,
    };
    let unreadable = |_: u32, _: u32| -> Result<Raster<u8>, &'static str> { Err("gone") };
    assert!(matches!(
        store.materialize(area, 0, unreadable),
        Err(TileFault::Unreadable("gone"))
    ));
    let small = |_: u32, _: u32| -> Result<Raster<u8>, &'static str> { Ok(Raster::filled(1, 1, 9)) };
    assert!(matches!(
        store.materialize(area, 0, small),
        Err(TileFault::WrongShape)
    ));
    assert!(matches!(
        store.sample_tiles(&vec![5], &vec![0], 0, unreadable),
        Err(TileFault::Unreadable("gone"))
    ));
    let empty = |column: u32, row: u32| -> Result<Raster<u8>, &'static str> {
        let tile = store.tile_extent(column, row);
        Ok(Raster::filled(tile.width, tile.height, 0))
    };
    assert!(matches!(store.largest_valid_rectangle(empty), Ok(None)));
}

#[test]
fn tiles_cover_the_canvas() {
    let store = TileLayout::new(2050, 1025);
    assert_eq!((store.tile_columns, store.tile_rows), (3, 2));
    assert_eq!(
        store.tile_extent(2, 1),
        TileArea {
            left: 2048,
            top: 1024,
            width: 2,
            height: 1
        }
    );
    let mut covered = 0;
    for row in 0..store.tile_rows {
        for column in 0..store.tile_columns {
            let area = store.tile_extent(column, row);
            covered += area.width * area.height;
        }
    }
    assert_eq!(covered, 2050 * 1025);
}

#[test]
fn distances_from_a_seam_grow_evenly() {
    let owner = raster(5, vec![1, 1, 1, 2, 2]);
    let mask = raster(5, vec![255; 5]);
    assert_eq!(
        seam_pixels(&owner, &mask).pixels,
        vec![false, false, true, true, false]
    );
    let distances = seam_distances(&owner, &mask).unwrap();
    assert_eq!(distances.pixels, vec![2, 1, 0, 0, 1]);
    assert!(seam_distances(&raster(5, vec![1; 5]), &mask).is_none());
    assert!(seam_distances(&owner, &raster(5, vec![255, 255, 0, 0, 255])).is_none());
    let marks = raster(3, vec![true, false, false, false, false, false]);
    assert_eq!(city_distances(&marks).pixels, vec![0, 1, 2, 1, 2, 3]);
}

#[test]
fn layers_are_planned_by_their_overlap() {
    let covered = Some(bounds(0, 999, 0, 999));
    let select = |refine, match_tone, long_side| LayerPlan::Select {
        refine,
        match_tone,
        long_side,
    };
    let near = bounds(500, 1500, 0, 999);
    let far = bounds(2000, 3000, 0, 999);
    assert_eq!(plan_layer(1, 3, true, covered, near), select(true, true, 512));
    assert_eq!(plan_layer(1, 9, true, covered, near), select(false, true, 256));
    assert_eq!(plan_layer(1, 9, false, covered, far), select(true, true, 512));
    assert_eq!(plan_layer(0, 3, false, None, near), select(false, false, 512));
    assert_eq!(plan_layer(1, 3, true, covered, far), LayerPlan::Copy);
    assert_eq!(plan_layer(0, 3, true, None, near), LayerPlan::Copy);
    assert_eq!(extend_coverage(covered, far), bounds(0, 3000, 0, 999));
    assert_eq!(extend_coverage(None, far), far);
    assert!(streams_canvas(2, false, 1, 1, 1));
    assert!(streams_canvas(1, true, 9, 1, 1));
    assert!(!streams_canvas(1, true, 8, 12_000, 10_000));
    assert!(streams_canvas(0, false, 1, 12_001, 10_000));
}

#[test]
fn groups_are_entered_once() {
    assert_eq!(capture_group(None, 4), 5);
    assert_eq!(capture_group(Some(9), 400), 9);
    let mut seen = vec![];
    assert!(enter_group(&mut seen, 3));
    assert!(!enter_group(&mut seen, 3));
    assert!(enter_group(&mut seen, 1));
    assert_eq!(seen, vec![3, 1]);
    let own = group_refinement_mask(&raster(3, vec![255, 255, 0]), &raster(3, vec![3, 1, 3]), 3);
    assert_eq!(own.pixels, vec![255, 0, 0]);
}

fn tile() -> CanvasTile<u8> {
    CanvasTile {
        image: raster(4, vec![0; 4]),
        mask: raster(4, vec![255, 255, 0, 0]),
        owner: raster(4, vec![1, 1, 0, 0]),
    }
}

#[test]
fn samples_are_copied_into_a_tile() {
    let samples = raster(3, vec![Some(7), None, Some(9)]);
    let mut whole = tile();
    copy_streaming_tile_region(&mut whole, 2, 1, 0, &samples);
    assert_eq!(whole.image.pixels, vec![0, 7, 0, 9]);
    assert_eq!(whole.mask.pixels, vec![255, 255, 0, 255]);
    assert_eq!(whole.owner.pixels, vec![1, 2, 0, 2]);
    let mut owned = tile();
    copy_streaming_owned_tile_region(
        &mut owned,
        2,
        1,
        0,
        &samples,
        &raster(2, vec![0, 255]),
        &vec![0, 2, 4],
        &vec![0],
        1,
    );
    assert_eq!(owned.image.pixels, vec![0, 0, 0, 9]);
    assert_eq!(owned.owner.pixels, vec![1, 1, 0, 2]);
}

#[test]
fn cells_are_found_from_both_sides() {
    let list = cell_bounds(10, 3, 1, 4, 30);
    assert_eq!(list, vec![0, 8, 15, 23, 30]);
    for position in 0..30u32 {
        let row = cell_row(10, 3, 1, 4, position) as usize;
        assert!(list[row] <= position && position < list[row + 1]);
    }
    let view = analysis_view(2800, 700, 1400);
    assert_eq!((view.width, view.height), (1400, 350));
    assert_eq!((view.numerator, view.denominator), (2800, 1400));
    let small = analysis_view(100, 50, 1400);
    assert_eq!((small.width, small.height), (100, 50));
    assert_eq!((small.numerator, small.denominator), (1400, 1400));
    assert_eq!(sampled_positions(7, 3, 2, 4), vec![7, 8, 10, 11]);
    assert_eq!(sampled_positions(u32::MAX - 1, 1, 1, 2), vec![u32::MAX - 1, u32::MAX]);
    assert_eq!(field_length(65, 32), 4);
    assert_eq!(field_node(16, 32, 4), 1);
    assert_eq!(field_node(15, 32, 4), 0);
    assert_eq!(field_node(4000, 32, 4), 3);
}

#[test]
fn registration_points_have_covered_patches() {
    let point = |x, y| GridPoint { x, y };
    assert_eq!(
        lattice_points(65, 33, 16, 32),
        vec![point(16, 16), point(48, 16)]
    );
    let mut valid = Raster::filled(65, 33, 255u8);
    assert_eq!(refinement_points(&valid).len(), 2);
    valid.put(48, 16, 0);
    assert_eq!(refinement_points(&valid), vec![point(16, 16)]);
}

#[test]
fn a_peak_has_to_stand_out() {
    let weak = -1_000_000_000;
    let mut scores = vec![weak; 25];
    scores[5 * 2 + 3] = 900_000_000;
    assert_eq!(
        choose_peak(&scores, 2),
        Some(Peak {
            x: 1,
            y: 0,
            score: 900_000_000
        })
    );
    scores[0] = 899_000_000;
    assert_eq!(choose_peak(&scores, 2), None);
    assert_eq!(choose_peak(&vec![700_000_000; 25], 2), None);
    let center = Peak {
        x: 4,
        y: -4,
        score: 5,
    };
    let mut ring = vec![0; 9];
    assert_eq!(finer_peak(center, 2, &ring), center);
    ring[8] = 6;
    assert_eq!(
        finer_peak(center, 2, &ring),
        Peak {
            x: 6,
            y: -2,
            score: 6
        }
    );
}

#[test]
fn shifts_need_support() {
    let points: Vec<GridPoint> = [(16, 16), (48, 16), (80, 16), (1000, 16)]
        .iter()
        .map(|(x, y)| GridPoint { x: *x, y: *y })
        .collect();
    let medians = neighbour_medians(&points, &vec![3, 1, 2, 9], &vec![30, 10, 20, 90]);
    let middle = medians[0].unwrap();
    assert_eq!((middle.x, middle.y), (2, 20));
    assert!(medians[3].is_none());
    let tones = tone_medians(&vec![0, 0, 1, 0], vec![5, 1, 8, 3], 2, 2);
    assert_eq!(tones.nodes, vec![Some(3), None]);
    assert_eq!(tones.overall, Some(5));
}

#[test]
fn a_canvas_is_read_at_a_lattice() {
    let mut canvas = tile();
    copy_streaming_tile_region(&mut canvas, 2, 1, 0, &raster(1, vec![Some(7)]));
    let region = sample_canvas(&canvas, &vec![1, 3, 9], &vec![0, 5], 4);
    assert_eq!((region.image.width, region.image.height), (3, 2));
    assert_eq!(region.image.pixels, vec![7, 4, 4, 4, 4, 4]);
    assert_eq!(region.mask.pixels, vec![255, 0, 0, 0, 0, 0]);
    assert_eq!(region.owner.pixels, vec![2, 0, 0, 0, 0, 0]);
}

#[test]
fn regions_are_cut_to_tiles() {
    let area = TileArea {
        left: 10,
        top: 20,
        width: 5,
        height: 5,
    };
    assert_eq!(shared_part(bounds(0, 12, 22, 90), area), Some(bounds(10, 12, 22, 24)));
    assert_eq!(shared_part(bounds(15, 99, 22, 90), area), None);
    assert_eq!(shared_part(bounds(0, 99, 0, 19), area), None);
}

#[test]
fn the_first_frame_of_a_group_enters_through_a_seam() {
    assert_eq!(rule_for(true, 3), OwnershipRule::Transition);
    assert_eq!(rule_for(false, 3), OwnershipRule::Group(3));
}

#[test]
fn the_largest_rectangle_reaches_over_rows_of_tiles() {
    let store = TileLayout::new(1030, 2050);
    let load = |column: u32, row: u32| -> Result<Raster<u8>, ()> {
        let area = store.tile_extent(column, row);
        let pixels = (0..area.width * area.height)
            .map(|i| {
                let (x, y) = (area.left + i % area.width, area.top + i / area.width);
                u8::from((1000..1028).contains(&x) && (5..2049).contains(&y))
            })
            .collect();
        Ok(Raster {
            width: area.width,
            height: area.height,
            pixels,
        })
    };
    let found = store.largest_valid_rectangle(load).unwrap().unwrap();
    assert_eq!((found.left, found.top), (1000, 5));
    assert_eq!((found.width, found.height), (28, 2044));
    let broken = |_: u32, _: u32| -> Result<Raster<u8>, ()> { Err(()) };
    assert!(store.largest_valid_rectangle(broken).is_err());
}
