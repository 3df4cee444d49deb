use pixel_dither::colour::{
    kmeans_refine, select_average, select_kmeans, select_median, select_randomly,
    squared_distance, Color, SelectionStrategy,
};
use pixel_dither::error::PixelError;
use pixel_dither::sorting::stable_sort_by_channel;

fn c(r: u8, g: u8, b: u8) -> Color {
    Color { r, g, b }
}

fn seven() -> Vec<Color> {
    vec![
        c(0, 0, 0),
        c(10, 0, 0),
        c(20, 0, 0),
        c(30, 200, 0),
        c(40, 0, 0),
        c(50, 0, 90),
        c(60, 0, 0),
    ]
}

fn ramp(n: usize) -> Vec<Color> {
    let mut v = Vec::new();
    for i in 0..n {
        v.push(c((i % 256) as u8, ((i / 256) % 256) as u8, (i * 7 % 256) as u8));
    }
    v
}

#[test]
fn stable_sort_orders_by_one_channel_and_keeps_ties_in_place() {
    let colours = vec![c(5, 9, 1), c(5, 3, 2), c(1, 9, 3), c(5, 1, 4), c(0, 0, 5)];
    assert_eq!(
        stable_sort_by_channel(&colours, 0),
        vec![c(0, 0, 5), c(1, 9, 3), c(5, 9, 1), c(5, 3, 2), c(5, 1, 4)]
    );
    assert_eq!(
        stable_sort_by_channel(&colours, 1),
        vec![c(0, 0, 5), c(5, 1, 4), c(5, 3, 2), c(5, 9, 1), c(1, 9, 3)]
    );
    assert_eq!(
        stable_sort_by_channel(&colours, 2),
        vec![c(5, 9, 1), c(5, 3, 2), c(1, 9, 3), c(5, 1, 4), c(0, 0, 5)]
    );
    assert_eq!(stable_sort_by_channel(&vec![], 0), vec![]);
}

#[test]
fn every_quantizer_rejects_a_target_of_zero() {
    let population = seven();
    assert_eq!(select_randomly(&population, 0), Err(PixelError::InvalidArgument));
    assert_eq!(select_average(&population, 0), Err(PixelError::InvalidArgument));
    assert_eq!(select_median(&population, 0), Err(PixelError::InvalidArgument));
    assert_eq!(
        select_kmeans(&population, 0, 10).unwrap_err(),
        PixelError::InvalidArgument
    );
}

#[test]
fn every_quantizer_rejects_an_empty_population() {
    let empty: Vec<Color> = vec![];
    assert_eq!(select_randomly(&empty, 3), Err(PixelError::InvalidArgument));
    assert_eq!(select_average(&empty, 3), Err(PixelError::InvalidArgument));
    assert_eq!(select_median(&empty, 3), Err(PixelError::InvalidArgument));
    assert_eq!(select_kmeans(&empty, 3, 10).unwrap_err(), PixelError::InvalidArgument);
}

#[test]
fn random_selection_returns_the_asked_number_of_distinct_members() {
    let population = ramp(500);
    for n in [1usize, 2, 7, 100, 499, 500] {
        let picked = select_randomly(&population, n).unwrap();
        assert_eq!(picked.len(), n);
        for (i, p) in picked.iter().enumerate() {
            assert!(population.contains(p));
            for q in picked.iter().skip(i + 1) {
                assert_ne!(p, q);
            }
        }
    }
}

#[test]
fn random_selection_returns_a_small_population_whole() {
    let population = seven();
    assert_eq!(select_randomly(&population, 7), Ok(seven()));
    assert_eq!(select_randomly(&population, 8), Ok(seven()));
    assert_eq!(select_randomly(&population, 1000), Ok(seven()));
}

#[test]
fn random_selection_does_not_always_pick_the_same_colours() {
    let population = ramp(400);
    let first = select_randomly(&population, 5).unwrap();
    let mut differs = false;
    for _ in 0..200 {
        if select_randomly(&population, 5).unwrap() != first {
            differs = true;
        }
    }
    assert!(differs);
}

#[test]
fn average_takes_the_mean_of_each_chunk() {
    assert_eq!(
        select_average(&seven(), 2),
        Ok(vec![c(10, 0, 0), c(40, 66, 30), c(60, 0, 0)])
    );
    assert_eq!(
        select_average(&seven(), 3),
        Ok(vec![c(5, 0, 0), c(25, 100, 0), c(45, 0, 45), c(60, 0, 0)])
    );
    assert_eq!(select_average(&seven(), 1), Ok(vec![c(30, 28, 12)]));
}

#[test]
fn average_returns_the_population_when_chunks_hold_one_colour() {
    assert_eq!(select_average(&seven(), 7), Ok(seven()));
    assert_eq!(select_average(&seven(), 10), Ok(seven()));
    assert_eq!(select_average(&seven(), 4), Ok(seven()));
}

#[test]
fn average_returns_exactly_the_target_when_it_divides_the_population() {
    for (p, n) in [(6usize, 3usize), (6, 2), (6, 6), (100, 10), (100, 25), (256, 16)] {
        assert_eq!(select_average(&ramp(p), n).unwrap().len(), n);
    }
}

#[test]
fn average_count_is_the_population_over_the_chunk_size_rounded_up() {
    for (p, n) in [(7usize, 2usize), (7, 3), (5, 3), (100, 7), (100, 33), (3, 8)] {
        let chunk = std::cmp::max(1, p / n);
        let expected = (p + chunk - 1) / chunk;
        let got = select_average(&ramp(p), n).unwrap().len();
        assert_eq!(got, expected);
        assert!(got >= 1);
        if p >= n {
            assert!(got >= n);
        }
    }
}

#[test]
fn median_cut_splits_along_the_widest_channel() {
    assert_eq!(select_median(&seven(), 1), Ok(vec![c(30, 28, 12)]));
    assert_eq!(select_median(&seven(), 2), Ok(vec![c(10, 0, 0), c(45, 50, 22)]));
    assert_eq!(
        select_median(&seven(), 3),
        Ok(vec![c(0, 0, 0), c(15, 0, 0), c(45, 0, 45), c(45, 100, 0)])
    );
}

#[test]
fn median_cut_prefers_red_then_green_on_equal_spread() {
    // red and blue both spread over 10: the cut is along red
    let population = vec![c(10, 0, 0), c(0, 0, 10), c(5, 0, 5), c(8, 0, 2)];
    assert_eq!(select_median(&population, 2), Ok(vec![c(2, 0, 7), c(9, 0, 1)]));
    // green and blue both spread over 10: the cut is along green
    let population = vec![c(0, 10, 0), c(0, 0, 10), c(0, 5, 5), c(0, 8, 2)];
    assert_eq!(select_median(&population, 2), Ok(vec![c(0, 2, 7), c(0, 9, 1)]));
}

#[test]
fn median_cut_may_return_more_than_the_target() {
    let four = vec![c(0, 0, 0), c(10, 0, 0), c(20, 0, 0), c(30, 0, 0)];
    assert_eq!(
        select_median(&four, 3),
        Ok(vec![c(0, 0, 0), c(10, 0, 0), c(20, 0, 0), c(30, 0, 0)])
    );
}

#[test]
fn median_cut_stops_when_no_box_can_be_cut() {
    let got = select_median(&seven(), 100).unwrap();
    assert_eq!(
        got,
        vec![
            c(0, 0, 0),
            c(10, 0, 0),
            c(20, 0, 0),
            c(40, 0, 0),
            c(50, 0, 90),
            c(60, 0, 0),
            c(30, 200, 0)
        ]
    );
    assert_eq!(select_median(&vec![c(9, 9, 9)], 5), Ok(vec![c(9, 9, 9)]));
}

#[test]
fn median_cut_count_stays_within_its_bounds() {
    for p in [1usize, 2, 3, 10, 64, 100] {
        for n in [1usize, 2, 3, 5, 8, 16, 300] {
            let got = select_median(&ramp(p), n).unwrap().len();
            assert!(got >= 1);
            assert!(got <= p);
            if n >= 2 {
                assert!(got <= 2 * (n - 1));
            } else {
                assert_eq!(got, 1);
            }
        }
    }
}

#[test]
fn kmeans_converges_on_two_clusters() {
    let population =
        vec![c(0, 0, 0), c(10, 10, 10), c(200, 200, 200), c(250, 250, 250), c(255, 255, 255)];
    let state = kmeans_refine(&population, vec![c(0, 0, 0), c(10, 10, 10)], 2, 100).unwrap();
    assert_eq!(state.centroids, vec![c(5, 5, 5), c(235, 235, 235)]);
    assert!(state.converged);
    assert_eq!(state.assignments, vec![0, 0, 1, 1, 1]);
}

#[test]
fn kmeans_finds_the_two_colours_of_a_two_colour_image() {
    let population = vec![c(0, 0, 0), c(255, 255, 255)];
    let state = kmeans_refine(&population, vec![c(0, 0, 0), c(255, 255, 255)], 2, 50).unwrap();
    assert_eq!(state.centroids, vec![c(0, 0, 0), c(255, 255, 255)]);
    assert!(state.converged);
    let state = kmeans_refine(&population, vec![c(255, 255, 255), c(0, 0, 0)], 2, 50).unwrap();
    assert_eq!(state.centroids, vec![c(255, 255, 255), c(0, 0, 0)]);
    assert!(state.converged);
    // two colours, two clusters: the random start is the population itself
    let state = select_kmeans(&population, 2, 50).unwrap();
    assert_eq!(state.centroids, vec![c(0, 0, 0), c(255, 255, 255)]);
    assert!(state.converged);
    assert_eq!(state.assignments, vec![0, 1]);
}

#[test]
fn kmeans_resets_an_empty_cluster_to_black() {
    let population = vec![c(0, 0, 0), c(10, 10, 10), c(200, 200, 200)];
    let state = kmeans_refine(&population, vec![c(0, 0, 0)], 3, 100).unwrap();
    assert_eq!(state.centroids, vec![c(200, 200, 200), c(10, 10, 10), c(0, 0, 0)]);
    assert!(state.converged);
    // a starting centroid nobody is nearest to
    let state = kmeans_refine(
        &vec![c(100, 100, 100), c(110, 110, 110)],
        vec![c(105, 105, 105), c(255, 0, 0)],
        2,
        1,
    )
    .unwrap();
    assert_eq!(state.centroids, vec![c(105, 105, 105), c(0, 0, 0)]);
    assert!(!state.converged);
}

#[test]
fn kmeans_reports_when_the_round_limit_ends_the_run() {
    let population = vec![c(0, 0, 0), c(10, 10, 10), c(200, 200, 200), c(90, 90, 90)];
    let start = vec![c(0, 0, 0), c(10, 10, 10)];
    let state = kmeans_refine(&population, start.clone(), 2, 0).unwrap();
    assert_eq!(state.centroids, start);
    assert!(!state.converged);
    let state = kmeans_refine(&population, start.clone(), 2, 1).unwrap();
    assert_eq!(state.centroids, vec![c(0, 0, 0), c(100, 100, 100)]);
    assert!(!state.converged);
    let state = kmeans_refine(&population, start, 2, 50).unwrap();
    assert_eq!(state.centroids, vec![c(5, 5, 5), c(145, 145, 145)]);
    assert!(state.converged);
}

#[test]
fn kmeans_rejects_a_bad_start() {
    let population = vec![c(0, 0, 0), c(10, 10, 10)];
    assert_eq!(
        kmeans_refine(&population, vec![], 2, 10).unwrap_err(),
        PixelError::InvalidArgument
    );
    assert_eq!(
        kmeans_refine(&population, vec![c(1, 1, 1), c(2, 2, 2), c(3, 3, 3)], 2, 10).unwrap_err(),
        PixelError::InvalidArgument
    );
}

#[test]
fn kmeans_assigns_every_colour_to_a_nearest_centroid() {
    let population = ramp(300);
    for n in [1usize, 2, 5, 16] {
        let state = select_kmeans(&population, n, 200).unwrap();
        assert_eq!(state.centroids.len(), n);
        assert_eq!(state.assignments.len(), population.len());
        for (i, colour) in population.iter().enumerate() {
            let mine = state.assignments[i];
            assert!(mine < n);
            for (j, other) in state.centroids.iter().enumerate() {
                let d_mine = squared_distance(colour, &state.centroids[mine]);
                let d_other = squared_distance(colour, other);
                assert!(d_mine <= d_other);
                if j < mine {
                    assert!(d_mine < d_other);
                }
            }
        }
    }
}

#[test]
fn kmeans_returns_the_target_number_of_centroids() {
    let population = ramp(64);
    for n in [1usize, 2, 3, 10, 64] {
        assert_eq!(select_kmeans(&population, n, 100).unwrap().centroids.len(), n);
        assert_eq!(select_kmeans(&population, n, 0).unwrap().centroids.len(), n);
    }
    // fewer colours than clusters: one round fills up with black
    assert_eq!(select_kmeans(&population, 70, 100).unwrap().centroids.len(), 70);
    assert_eq!(select_kmeans(&population, 70, 0).unwrap().centroids.len(), 64);
}

#[test]
fn quantizers_return_a_non_empty_palette_for_a_large_enough_population() {
    let population = ramp(120);
    for n in [1usize, 2, 3, 8, 60, 120] {
        assert_eq!(select_randomly(&population, n).unwrap().len(), n);
        assert_eq!(select_kmeans(&population, n, 100).unwrap().centroids.len(), n);
        assert!(!select_average(&population, n).unwrap().is_empty());
        assert!(!select_median(&population, n).unwrap().is_empty());
    }
}

#[test]
fn selection_strategies_are_distinct() {
    assert_ne!(SelectionStrategy::Random, SelectionStrategy::Average);
    assert_ne!(SelectionStrategy::KMeans, SelectionStrategy::Median);
    assert_eq!(SelectionStrategy::Median, SelectionStrategy::Median);
}
