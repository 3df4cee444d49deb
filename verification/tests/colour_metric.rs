use pixel_dither::colour::{
    calculate_avg_distance_in_palette, integer_sqrt, euclidean_distance, squared_distance, Color,
    DISTANCE_SCALE, MAX_SQUARED_DISTANCE,
};
use pixel_dither::error::PixelError;
use pixel_dither::utils::{
    calculate_error, clamp, find_closest_color, sum_fold_and_count, ColorError,
};

fn rgb(r: u8, g: u8, b: u8) -> Color {
    Color { r, g, b }
}

#[test]
fn squared_distance_of_known_pairs() {
    assert_eq!(squared_distance(&rgb(0, 0, 0), &rgb(3, 4, 0)), 25);
    assert_eq!(squared_distance(&rgb(10, 20, 30), &rgb(13, 16, 42)), 9 + 16 + 144);
    assert_eq!(squared_distance(&rgb(0, 0, 0), &rgb(255, 255, 255)), MAX_SQUARED_DISTANCE);
    assert_eq!(MAX_SQUARED_DISTANCE, 195075);
}

#[test]
fn squared_distance_is_symmetric() {
    let samples = [
        rgb(0, 0, 0),
        rgb(255, 255, 255),
        rgb(255, 0, 0),
        rgb(1, 2, 3),
        rgb(200, 100, 50),
        rgb(17, 250, 128),
    ];
    for a in samples.iter() {
        for b in samples.iter() {
            assert_eq!(squared_distance(a, b), squared_distance(b, a));
        }
    }
}

#[test]
fn squared_distance_is_zero_only_between_equal_colours() {
    let samples = [rgb(0, 0, 0), rgb(255, 255, 255), rgb(1, 2, 3), rgb(1, 2, 4), rgb(200, 2, 3)];
    for a in samples.iter() {
        for b in samples.iter() {
            assert_eq!(squared_distance(a, b) == 0, a == b);
        }
    }
}

#[test]
fn colour_channels_are_read_by_index() {
    let c = Color::new(7, 8, 9);
    assert_eq!(c, rgb(7, 8, 9));
    assert_eq!(c.get(0), 7);
    assert_eq!(c.get(1), 8);
    assert_eq!(c.get(2), 9);
    assert_eq!(c.get(200), 9);
}

#[test]
fn integer_sqrt_rounds_down() {
    assert_eq!(integer_sqrt(0), 0);
    assert_eq!(integer_sqrt(1), 1);
    assert_eq!(integer_sqrt(3), 1);
    assert_eq!(integer_sqrt(4), 2);
    assert_eq!(integer_sqrt(24), 4);
    assert_eq!(integer_sqrt(25), 5);
    assert_eq!(integer_sqrt(1_000_000), 1000);
    assert_eq!(integer_sqrt(999_999), 999);
    assert_eq!(integer_sqrt(u64::MAX), 0xFFFF_FFFF);
    assert_eq!(integer_sqrt(0xFFFF_FFFE_0000_0001), 0xFFFF_FFFF);
    assert_eq!(integer_sqrt(0xFFFF_FFFE_0000_0000), 0xFFFF_FFFE);
}

#[test]
fn scaled_distance_counts_in_65536ths() {
    assert_eq!(DISTANCE_SCALE, 65536);
    assert_eq!(euclidean_distance(&rgb(1, 2, 3), &rgb(1, 2, 3)), 0);
    assert_eq!(euclidean_distance(&rgb(0, 0, 0), &rgb(3, 4, 0)), 5 * 65536);
    assert_eq!(euclidean_distance(&rgb(0, 0, 0), &rgb(255, 255, 255)), 28945478);
    assert_eq!(euclidean_distance(&rgb(255, 255, 255), &rgb(0, 0, 0)), 28945478);
}

#[test]
fn average_distance_is_taken_over_unordered_pairs() {
    assert_eq!(calculate_avg_distance_in_palette(&vec![]), 0);
    assert_eq!(calculate_avg_distance_in_palette(&vec![rgb(9, 9, 9)]), 0);
    assert_eq!(
        calculate_avg_distance_in_palette(&vec![rgb(0, 0, 0), rgb(3, 4, 0)]),
        5 * 65536
    );
    // pairs at distance 5, 10 and 5: the mean is 20 / 3
    assert_eq!(
        calculate_avg_distance_in_palette(&vec![rgb(0, 0, 0), rgb(3, 4, 0), rgb(6, 8, 0)]),
        (20 * 65536) / 3
    );
    assert_eq!(
        calculate_avg_distance_in_palette(&vec![
            rgb(10, 20, 30),
            rgb(200, 100, 50),
            rgb(90, 90, 90),
            rgb(255, 255, 255)
        ]),
        15319577
    );
}

#[test]
fn clamp_holds_a_value_between_its_bounds() {
    assert_eq!(clamp(-5, 0, 255), 0);
    assert_eq!(clamp(0, 0, 255), 0);
    assert_eq!(clamp(128, 0, 255), 128);
    assert_eq!(clamp(255, 0, 255), 255);
    assert_eq!(clamp(300, 0, 255), 255);
    assert_eq!(clamp(i16::MIN, -10, 10), -10);
    assert_eq!(clamp(i16::MAX, -10, 10), 10);
    // crossed bounds: below min gives min, otherwise above max gives max
    assert_eq!(clamp(5, 10, 0), 10);
    assert_eq!(clamp(20, 10, 0), 0);
}

#[test]
fn calculate_error_is_old_minus_new() {
    assert_eq!(
        calculate_error(&rgb(100, 0, 255), &rgb(0, 255, 255)),
        ColorError { r: 100, g: -255, b: 0 }
    );
    assert_eq!(
        calculate_error(&rgb(255, 255, 255), &rgb(0, 0, 0)),
        ColorError { r: 255, g: 255, b: 255 }
    );
    assert_eq!(calculate_error(&rgb(4, 5, 6), &rgb(4, 5, 6)), ColorError { r: 0, g: 0, b: 0 });
}

#[test]
fn sum_fold_and_count_adds_channels() {
    assert_eq!(sum_fold_and_count(&vec![]), (0, 0, 0, 0));
    assert_eq!(
        sum_fold_and_count(&vec![rgb(1, 2, 3), rgb(10, 20, 30), rgb(255, 255, 255)]),
        (266, 277, 288, 3)
    );
    let many = vec![rgb(255, 0, 128); 1000];
    assert_eq!(sum_fold_and_count(&many), (255_000, 0, 128_000, 1000));
}

#[test]
fn find_closest_color_picks_the_nearest() {
    let palette = vec![rgb(255, 0, 0), rgb(0, 255, 0), rgb(0, 0, 255)];
    assert_eq!(find_closest_color(&rgb(250, 10, 10), &palette), Ok(rgb(255, 0, 0)));
    assert_eq!(find_closest_color(&rgb(10, 10, 245), &palette), Ok(rgb(0, 0, 255)));
    assert_eq!(find_closest_color(&rgb(20, 200, 30), &palette), Ok(rgb(0, 255, 0)));
    assert_eq!(find_closest_color(&rgb(0, 255, 0), &palette), Ok(rgb(0, 255, 0)));
}

#[test]
fn find_closest_color_gives_ties_to_the_first_stored() {
    // (20, 0, 0) is as far from (10, 0, 0) as from (30, 0, 0)
    let palette = vec![rgb(10, 0, 0), rgb(30, 0, 0)];
    assert_eq!(find_closest_color(&rgb(20, 0, 0), &palette), Ok(rgb(10, 0, 0)));
    let reversed = vec![rgb(30, 0, 0), rgb(10, 0, 0)];
    assert_eq!(find_closest_color(&rgb(20, 0, 0), &reversed), Ok(rgb(30, 0, 0)));
    let doubled = vec![rgb(5, 5, 5), rgb(5, 5, 5), rgb(6, 5, 5)];
    assert_eq!(find_closest_color(&rgb(5, 5, 5), &doubled), Ok(rgb(5, 5, 5)));
}

#[test]
fn find_closest_color_rejects_an_empty_palette() {
    assert_eq!(find_closest_color(&rgb(1, 2, 3), &vec![]), Err(PixelError::InvalidArgument));
}

#[test]
fn find_closest_color_result_is_never_beaten() {
    let palette = vec![
        rgb(0, 0, 0),
        rgb(255, 255, 255),
        rgb(128, 128, 128),
        rgb(255, 0, 0),
        rgb(0, 0, 255),
        rgb(40, 200, 90),
    ];
    let probes = [rgb(1, 1, 1), rgb(130, 120, 140), rgb(250, 3, 9), rgb(60, 180, 100)];
    for p in probes.iter() {
        let best = find_closest_color(p, &palette).unwrap();
        for c in palette.iter() {
            assert!(squared_distance(p, &best) <= squared_distance(p, c));
        }
    }
}
