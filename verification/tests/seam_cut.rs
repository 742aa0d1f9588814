use rapidraw_core::seam_cut::cut_grid;
use rapidraw_core::seam_cut::Graph;
use rapidraw_core::seam_cut::OWNERSHIP_PAIRWISE_BASE;
use rapidraw_core::seam_cut::OWNERSHIP_PAIRWISE_DISAGREEMENT_WEIGHT;

fn fixed_point(values: &[f64]) -> Vec<i64> {
    values.iter().map(|value| (value * 1e9).round() as i64).collect()
}

#[test]
fn grid_cut_matches_exhaustive_minimum_and_obeys_coverage_seeds() {
    let preference: [f64; 6] = [0.4, -0.8, 0.2, -0.5, 1.2, -0.7];
    let disagreement: [f64; 6] = [0.01, 0.02, 0.01, 0.03, 0.02, 0.01];
    let fixed = [1, 0, -1, 0, 0, 0];
    let pairwise_base = OWNERSHIP_PAIRWISE_BASE as f64 / 1e9;
    let pairwise_weight = OWNERSHIP_PAIRWISE_DISAGREEMENT_WEIGHT as f64;
    let energy = |mask: usize| {
        let mut cost = 0.0f64;
        for i in 0..6 {
            let new = mask & (1 << i) != 0;
            if (fixed[i] == 1 && !new) || (fixed[i] == -1 && new) {
                return f64::INFINITY;
            }
            cost += if new {
                (-preference[i]).max(0.0)
            } else {
                preference[i].max(0.0)
            };
            for j in [(i % 3 < 2).then_some(i + 1), (i < 3).then_some(i + 3)]
                .into_iter()
                .flatten()
            {
                if new != (mask & (1 << j) != 0) {
                    cost += pairwise_base + (disagreement[i] + disagreement[j]) * pairwise_weight;
                }
            }
        }
        cost
    };
    let labels = cut_grid(
        3,
        2,
        &fixed_point(&preference),
        &fixed_point(&disagreement),
        &fixed.iter().map(|&label| label as i8).collect(),
    );
    let selected = labels
        .iter()
        .enumerate()
        .fold(0usize, |mask, (i, &v)| mask | (usize::from(v > 0) << i));
    let optimal = (0..64).map(energy).fold(f64::INFINITY, f64::min);
    assert!((energy(selected) - optimal).abs() < 1e-9);
}

#[test]
fn seeds_hold_against_every_preference() {
    let labels = cut_grid(
        2,
        1,
        &vec![-5_000_000_000, 5_000_000_000],
        &vec![1_000_000_000, 1_000_000_000],
        &vec![1, -1],
    );
    assert_eq!(labels, vec![255, 0]);
}

#[test]
fn of_two_cheapest_labellings_the_smaller_one_is_taken() {
    assert_eq!(cut_grid(1, 1, &vec![0], &vec![0], &vec![0]), vec![0]);
    assert_eq!(cut_grid(1, 1, &vec![1], &vec![0], &vec![0]), vec![255]);
    assert!(cut_grid(0, 0, &vec![], &vec![], &vec![]).is_empty());
}

#[test]
fn the_source_side_stops_at_the_narrowest_arcs() {
    let mut graph = Graph::with_nodes(4);
    graph.connect(0, 1, 3, 0);
    graph.connect(1, 2, 1, 0);
    graph.connect(2, 3, 5, 0);
    assert_eq!(graph.source_side(0, 3), vec![true, true, false, false]);
}
