use pixel_dither::buffer::PixelBuffer;
use pixel_dither::colour::Color;
use pixel_dither::consts::{
    DIFF_MAT_ATKINSON, DIFF_MAT_BURKES, DIFF_MAT_FAN, DIFF_MAT_FLOYD_STEINBERG,
    DIFF_MAT_IMPROVED_STUCKI, DIFF_MAT_JARVIS_JUDICE_NINKE, DIFF_MAT_K3M, DIFF_MAT_LI_WAN,
    DIFF_MAT_PJARRI, DIFF_MAT_SHIAU_FAN, DIFF_MAT_SIERRA, DIFF_MAT_SIERRA_LITE,
    DIFF_MAT_STEVENSON_ARCE, DIFF_MAT_STUCKI, DIFF_MAT_TWO_ROW_SIERRA,
};
use pixel_dither::ditherer::{
    bayer_dithering, bayer_threshold, blue_noise_dither, blue_noise_dither_with,
    generate_bayer_matrix, generic_error_diffusion_dither, soften, BlueNoiseThreshold,
    DitherMode, Ditherer, MAX_BAYER_ORDER,
};
use pixel_dither::error::PixelError;
use pixel_dither::utils::{
    diffuse_error, gen_blue_noise_threshold, generate_raw_palette, kernel_is_valid, share_of,
    ColorError, Tap,
};

fn c(r: u8, g: u8, b: u8) -> Color {
    Color { r, g, b }
}

fn grey(v: u8) -> Color {
    Color { r: v, g: v, b: v }
}

fn buffer(width: u32, height: u32, pixels: Vec<Color>) -> PixelBuffer {
    PixelBuffer::new(width, height, pixels).unwrap()
}

fn black_and_white() -> Vec<Color> {
    vec![grey(0), grey(255)]
}

fn catalogue() -> Vec<Vec<Tap>> {
    vec![
        DIFF_MAT_FLOYD_STEINBERG.to_vec(),
        DIFF_MAT_ATKINSON.to_vec(),
        DIFF_MAT_JARVIS_JUDICE_NINKE.to_vec(),
        DIFF_MAT_STUCKI.to_vec(),
        DIFF_MAT_BURKES.to_vec(),
        DIFF_MAT_SIERRA.to_vec(),
        DIFF_MAT_TWO_ROW_SIERRA.to_vec(),
        DIFF_MAT_SIERRA_LITE.to_vec(),
        DIFF_MAT_STEVENSON_ARCE.to_vec(),
        DIFF_MAT_FAN.to_vec(),
        DIFF_MAT_SHIAU_FAN.to_vec(),
        DIFF_MAT_K3M.to_vec(),
        DIFF_MAT_LI_WAN.to_vec(),
        DIFF_MAT_PJARRI.to_vec(),
        DIFF_MAT_IMPROVED_STUCKI.to_vec(),
    ]
}

#[test]
fn pixel_buffer_checks_its_size() {
    assert_eq!(
        PixelBuffer::new(2, 2, vec![grey(0); 3]).unwrap_err(),
        PixelError::InvalidArgument
    );
    assert_eq!(
        PixelBuffer::new(0, 5, vec![grey(0)]).unwrap_err(),
        PixelError::InvalidArgument
    );
    let empty = buffer(0, 5, vec![]);
    assert_eq!((empty.width(), empty.height(), empty.len()), (0, 5, 0));
    let b = buffer(3, 2, vec![grey(0), grey(1), grey(2), grey(3), grey(4), grey(5)]);
    assert_eq!((b.width(), b.height(), b.len()), (3, 2, 6));
    assert_eq!(b.get_pixel(0, 0), grey(0));
    assert_eq!(b.get_pixel(2, 0), grey(2));
    assert_eq!(b.get_pixel(0, 1), grey(3));
    assert_eq!(b.get_pixel(2, 1), grey(5));
    assert_eq!(b.get(4), grey(4));
}

#[test]
fn pixel_buffer_writes_one_pixel() {
    let mut b = PixelBuffer::filled(3, 2, grey(7)).unwrap();
    b.put_pixel(1, 1, c(1, 2, 3));
    b.put(0, c(9, 9, 9));
    assert_eq!(
        b.pixels(),
        &vec![c(9, 9, 9), grey(7), grey(7), grey(7), c(1, 2, 3), grey(7)]
    );
}

#[test]
fn share_of_rounds_toward_zero() {
    assert_eq!(share_of(16, 7, 16), 7);
    assert_eq!(share_of(-16, 7, 16), -7);
    assert_eq!(share_of(15, 7, 16), 6);
    assert_eq!(share_of(-15, 7, 16), -6);
    assert_eq!(share_of(1, 1, 16), 0);
    assert_eq!(share_of(-1, 1, 16), 0);
    assert_eq!(share_of(255, 1, 1), 255);
    assert_eq!(share_of(-255, 3, 1), -765);
    assert_eq!(share_of(0, 5, 7), 0);
    assert_eq!(share_of(42, 5, 42), 5);
    assert_eq!(share_of(i16::MIN, u32::MAX, 1), -(32768i64 * 4294967295i64));
}

#[test]
fn diffuse_error_adds_weighted_error_to_each_neighbour() {
    let mut b = PixelBuffer::filled(3, 2, grey(100)).unwrap();
    let error = ColorError { r: 16, g: -16, b: 32 };
    assert_eq!(diffuse_error(1, 0, &DIFF_MAT_FLOYD_STEINBERG, error, &mut b), Ok(()));
    assert_eq!(
        b.pixels(),
        &vec![
            grey(100),
            grey(100),
            c(107, 93, 114),
            c(103, 97, 106),
            c(105, 95, 110),
            c(101, 99, 102)
        ]
    );
}

#[test]
fn diffuse_error_cuts_fractions_off_toward_zero() {
    let mut b = PixelBuffer::filled(2, 1, grey(100)).unwrap();
    let error = ColorError { r: -15, g: 15, b: 0 };
    assert_eq!(diffuse_error(0, 0, &DIFF_MAT_FLOYD_STEINBERG, error, &mut b), Ok(()));
    assert_eq!(b.pixels(), &vec![grey(100), c(94, 106, 100)]);
}

#[test]
fn diffuse_error_holds_channels_to_a_byte() {
    let mut b = buffer(2, 2, vec![grey(0), c(250, 3, 255), c(0, 255, 128), c(254, 1, 0)]);
    let error = ColorError { r: 255, g: -255, b: 255 };
    assert_eq!(diffuse_error(0, 0, &DIFF_MAT_FLOYD_STEINBERG, error, &mut b), Ok(()));
    // shares: 111 to the right, 79 below, 15 below right
    assert_eq!(b.pixels(), &vec![grey(0), c(255, 0, 255), c(79, 176, 207), c(255, 0, 15)]);
    for kernel in catalogue() {
        for start in [0u8, 1, 127, 128, 254, 255] {
            for e in [-255i16, -128, -1, 0, 1, 128, 255] {
                let mut b = PixelBuffer::filled(7, 7, grey(start)).unwrap();
                let error = ColorError { r: e, g: -e, b: e };
                assert_eq!(diffuse_error(3, 3, &kernel, error, &mut b), Ok(()));
                for p in b.pixels().iter() {
                    let low = std::cmp::min(start as i32, start as i32 - (e as i32).abs());
                    let high = std::cmp::max(start as i32, start as i32 + (e as i32).abs());
                    assert!(low <= p.r as i32 && p.r as i32 <= high);
                    assert!(low <= p.g as i32 && p.g as i32 <= high);
                }
            }
        }
    }
}

#[test]
fn diffuse_error_skips_neighbours_outside_the_raster() {
    let mut b = PixelBuffer::filled(1, 1, grey(50)).unwrap();
    let error = ColorError { r: 100, g: 100, b: 100 };
    assert_eq!(diffuse_error(0, 0, &DIFF_MAT_JARVIS_JUDICE_NINKE, error, &mut b), Ok(()));
    assert_eq!(b.pixels(), &vec![grey(50)]);
    // bottom right corner of a larger raster: nothing is in reach
    let mut b = PixelBuffer::filled(3, 3, grey(50)).unwrap();
    assert_eq!(diffuse_error(2, 2, &DIFF_MAT_FLOYD_STEINBERG, error, &mut b), Ok(()));
    assert_eq!(b.pixels(), &vec![grey(50); 9]);
    // right edge: only the two neighbours below and below left
    let mut b = PixelBuffer::filled(2, 2, grey(50)).unwrap();
    let error = ColorError { r: 16, g: 16, b: 16 };
    assert_eq!(diffuse_error(1, 0, &DIFF_MAT_FLOYD_STEINBERG, error, &mut b), Ok(()));
    assert_eq!(b.pixels(), &vec![grey(50), grey(50), grey(53), grey(55)]);
}

#[test]
fn diffuse_error_rejects_bad_input_and_changes_nothing() {
    let error = ColorError { r: 100, g: 100, b: 100 };
    let zero_denominator: Vec<Tap> = vec![((1, 0), (1, 0))];
    let zero_weight: Vec<Tap> = vec![((1, 0), (7, 16)), ((0, 1), (0, 16))];
    let origin: Vec<Tap> = vec![((0, 0), (1, 2))];
    for kernel in [zero_denominator, zero_weight, origin] {
        assert!(!kernel_is_valid(&kernel));
        let mut b = PixelBuffer::filled(2, 2, grey(50)).unwrap();
        assert_eq!(
            diffuse_error(0, 0, &kernel, error, &mut b),
            Err(PixelError::InvalidArgument)
        );
        assert_eq!(b.pixels(), &vec![grey(50); 4]);
    }
    let mut b = PixelBuffer::filled(2, 2, grey(50)).unwrap();
    assert_eq!(
        diffuse_error(2, 0, &DIFF_MAT_FLOYD_STEINBERG, error, &mut b),
        Err(PixelError::InvalidArgument)
    );
    assert_eq!(
        diffuse_error(0, 2, &DIFF_MAT_FLOYD_STEINBERG, error, &mut b),
        Err(PixelError::InvalidArgument)
    );
    assert_eq!(b.pixels(), &vec![grey(50); 4]);
}

#[test]
fn catalogue_kernels_are_usable_and_causal() {
    for kernel in catalogue() {
        assert!(kernel_is_valid(&kernel));
        let den = kernel[0].1 .1;
        let mut sum = 0;
        for ((dx, dy), (n, d)) in kernel.iter() {
            assert!(*dy > 0 || (*dy == 0 && *dx > 0));
            assert_eq!(*d, den);
            sum += *n;
        }
        assert!(sum <= den);
    }
    assert_eq!(
        DIFF_MAT_FLOYD_STEINBERG.to_vec(),
        vec![((1, 0), (7, 16)), ((-1, 1), (3, 16)), ((0, 1), (5, 16)), ((1, 1), (1, 16))]
    );
}

#[test]
fn error_diffusion_of_a_small_grey_raster() {
    let mut b = PixelBuffer::filled(2, 2, grey(100)).unwrap();
    assert_eq!(
        generic_error_diffusion_dither(&mut b, &black_and_white(), &DIFF_MAT_FLOYD_STEINBERG),
        Ok(())
    );
    assert_eq!(b.pixels(), &vec![grey(0), grey(255), grey(0), grey(0)]);
}

#[test]
fn error_diffusion_of_a_coloured_raster() {
    let mut b = buffer(
        3,
        2,
        vec![
            c(200, 30, 30),
            c(40, 40, 200),
            c(120, 130, 140),
            c(250, 250, 10),
            c(5, 5, 5),
            c(128, 0, 255),
        ],
    );
    let palette = vec![c(0, 0, 0), c(255, 0, 0), c(0, 0, 255), c(255, 255, 255)];
    assert_eq!(generic_error_diffusion_dither(&mut b, &palette, &DIFF_MAT_ATKINSON), Ok(()));
    assert_eq!(
        b.pixels(),
        &vec![
            c(255, 0, 0),
            c(0, 0, 255),
            c(255, 255, 255),
            c(255, 255, 255),
            c(0, 0, 0),
            c(0, 0, 255)
        ]
    );
}

#[test]
fn floyd_steinberg_turns_mid_grey_into_half_white() {
    let mut b = PixelBuffer::filled(10, 10, grey(128)).unwrap();
    assert_eq!(
        generic_error_diffusion_dither(&mut b, &black_and_white(), &DIFF_MAT_FLOYD_STEINBERG),
        Ok(())
    );
    let white = b.pixels().iter().filter(|p| **p == grey(255)).count();
    let black = b.pixels().iter().filter(|p| **p == grey(0)).count();
    assert_eq!(white + black, 100);
    // mid grey is 128 / 255 of white: 50 pixels of 100, within 5
    assert!(45 <= white && white <= 55);
    assert_eq!(white, 50);
}

#[test]
fn floyd_steinberg_follows_the_luminance_of_a_flat_raster() {
    for (v, expected) in [(0u8, 0usize), (255, 400), (64, 100), (191, 300)] {
        let mut b = PixelBuffer::filled(20, 20, grey(v)).unwrap();
        assert_eq!(
            generic_error_diffusion_dither(&mut b, &black_and_white(), &DIFF_MAT_FLOYD_STEINBERG),
            Ok(())
        );
        let white = b.pixels().iter().filter(|p| **p == grey(255)).count();
        assert!(white + 25 >= expected && white <= expected + 25);
    }
}

#[test]
fn error_diffusion_leaves_palette_colours_only() {
    let palette = vec![c(0, 0, 0), c(255, 0, 0), c(0, 0, 255), c(255, 255, 255), c(90, 200, 10)];
    for kernel in catalogue() {
        let mut pixels = Vec::new();
        for i in 0..63u32 {
            pixels.push(c((i * 37 % 256) as u8, (i * 91 % 256) as u8, (i * 13 % 256) as u8));
        }
        let mut b = buffer(9, 7, pixels);
        assert_eq!(generic_error_diffusion_dither(&mut b, &palette, &kernel), Ok(()));
        assert_eq!((b.width(), b.height()), (9, 7));
        for p in b.pixels().iter() {
            assert!(palette.contains(p));
        }
    }
}

#[test]
fn error_diffusion_rejects_bad_input_and_changes_nothing() {
    let mut b = PixelBuffer::filled(2, 2, grey(100)).unwrap();
    assert_eq!(
        generic_error_diffusion_dither(&mut b, &vec![], &DIFF_MAT_FLOYD_STEINBERG),
        Err(PixelError::InvalidArgument)
    );
    let bad: Vec<Tap> = vec![((1, 0), (1, 0))];
    assert_eq!(
        generic_error_diffusion_dither(&mut b, &black_and_white(), &bad),
        Err(PixelError::InvalidArgument)
    );
    assert_eq!(b.pixels(), &vec![grey(100); 4]);
    let mut empty = buffer(0, 0, vec![]);
    assert_eq!(
        generic_error_diffusion_dither(&mut empty, &black_and_white(), &DIFF_MAT_FLOYD_STEINBERG),
        Err(PixelError::InvalidArgument)
    );
    let mut no_rows = buffer(4, 0, vec![]);
    assert_eq!(
        generic_error_diffusion_dither(&mut no_rows, &black_and_white(), &DIFF_MAT_BURKES),
        Err(PixelError::InvalidArgument)
    );
}

#[test]
fn error_diffusion_with_an_empty_kernel_is_plain_matching() {
    let mut b = buffer(2, 1, vec![grey(100), grey(200)]);
    let none: Vec<Tap> = vec![];
    assert_eq!(generic_error_diffusion_dither(&mut b, &black_and_white(), &none), Ok(()));
    assert_eq!(b.pixels(), &vec![grey(0), grey(255)]);
}

#[test]
fn bayer_matrix_of_order_zero_one_and_two() {
    assert_eq!(generate_bayer_matrix(0), Ok(vec![vec![0]]));
    assert_eq!(generate_bayer_matrix(1), Ok(vec![vec![0, 2], vec![3, 1]]));
    assert_eq!(
        generate_bayer_matrix(2),
        Ok(vec![
            vec![0, 8, 2, 10],
            vec![12, 4, 14, 6],
            vec![3, 11, 1, 9],
            vec![15, 7, 13, 5]
        ])
    );
}

#[test]
fn bayer_matrix_doubles_by_the_quadrant_rule() {
    for order in 1..7u32 {
        let small = generate_bayer_matrix(order - 1).unwrap();
        let large = generate_bayer_matrix(order).unwrap();
        let size = small.len();
        assert_eq!(size, 1usize << (order - 1));
        assert_eq!(large.len(), 2 * size);
        let mut seen = vec![false; 4 * size * size];
        for i in 0..size {
            assert_eq!(large[i].len(), 2 * size);
            assert_eq!(large[i + size].len(), 2 * size);
            for j in 0..size {
                let v = small[i][j];
                assert_eq!(large[i][j], 4 * v);
                assert_eq!(large[i][j + size], 4 * v + 2);
                assert_eq!(large[i + size][j], 4 * v + 3);
                assert_eq!(large[i + size][j + size], 4 * v + 1);
            }
        }
        for row in large.iter() {
            for v in row.iter() {
                assert!(!seen[*v as usize]);
                seen[*v as usize] = true;
            }
        }
    }
}

#[test]
fn bayer_matrix_rejects_an_order_that_is_too_large() {
    assert_eq!(MAX_BAYER_ORDER, 15);
    assert_eq!(generate_bayer_matrix(16), Err(PixelError::InvalidArgument));
    assert_eq!(generate_bayer_matrix(u32::MAX), Err(PixelError::InvalidArgument));
}

#[test]
fn bayer_threshold_tiles_the_matrix() {
    let m = generate_bayer_matrix(1).unwrap();
    assert_eq!(bayer_threshold(&m, 1, 0, 0), 0);
    assert_eq!(bayer_threshold(&m, 1, 1, 0), 2 * 255);
    assert_eq!(bayer_threshold(&m, 1, 0, 1), 3 * 255);
    assert_eq!(bayer_threshold(&m, 1, 1, 1), 255);
    assert_eq!(bayer_threshold(&m, 1, 5, 8), 2 * 255);
    assert_eq!(bayer_threshold(&m, 1, 4, 7), 3 * 255);
    let m = generate_bayer_matrix(2).unwrap();
    assert_eq!(bayer_threshold(&m, 2, 3, 1), 6 * 255);
    assert_eq!(bayer_threshold(&m, 2, 7, 5), 6 * 255);
}

#[test]
fn ordered_dithering_of_a_small_raster() {
    let mut b = buffer(2, 2, vec![c(10, 20, 30), c(200, 100, 50), c(90, 90, 90), grey(255)]);
    assert_eq!(bayer_dithering(&mut b, 1), Ok(()));
    // thresholds 0, 127.5, 191.25 and 63.75; the mean distance is about 233.8
    assert_eq!(b.pixels(), &vec![c(10, 20, 30), c(255, 0, 0), grey(0), grey(255)]);
}

#[test]
fn ordered_dithering_of_order_zero_changes_nothing() {
    let pixels = vec![c(10, 20, 30), c(0, 100, 50), c(90, 0, 90), grey(255)];
    let mut b = buffer(4, 1, pixels.clone());
    assert_eq!(bayer_dithering(&mut b, 0), Ok(()));
    assert_eq!(b.pixels(), &pixels);
}

#[test]
fn ordered_dithering_rejects_bad_input() {
    let mut b = PixelBuffer::filled(2, 2, grey(9)).unwrap();
    assert_eq!(bayer_dithering(&mut b, 16), Err(PixelError::InvalidArgument));
    assert_eq!(b.pixels(), &vec![grey(9); 4]);
    let mut empty = buffer(0, 3, vec![]);
    assert_eq!(bayer_dithering(&mut empty, 1), Err(PixelError::InvalidArgument));
}

#[test]
fn raw_palette_lists_each_colour_once_in_scan_order() {
    let b = buffer(
        3,
        2,
        vec![grey(5), grey(1), grey(5), c(1, 2, 3), grey(1), c(3, 2, 1)],
    );
    assert_eq!(generate_raw_palette(&b), vec![grey(5), grey(1), c(1, 2, 3), c(3, 2, 1)]);
    assert_eq!(generate_raw_palette(&buffer(0, 0, vec![])), vec![]);
    let flat = PixelBuffer::filled(16, 16, c(7, 8, 9)).unwrap();
    assert_eq!(generate_raw_palette(&flat), vec![c(7, 8, 9)]);
}

#[test]
fn raw_palette_tells_apart_colours_that_differ_in_one_channel() {
    let pixels = vec![c(1, 0, 0), c(0, 1, 0), c(0, 0, 1), c(0, 1, 0), c(1, 0, 0), c(0, 0, 0)];
    let b = buffer(6, 1, pixels);
    assert_eq!(
        generate_raw_palette(&b),
        vec![c(1, 0, 0), c(0, 1, 0), c(0, 0, 1), c(0, 0, 0)]
    );
}

#[test]
fn soften_moves_a_quarter_of_the_way_back() {
    assert_eq!(soften(&c(243, 93, 68), &grey(255)), c(252, 215, 209));
    assert_eq!(soften(&grey(100), &grey(0)), grey(25));
    assert_eq!(soften(&grey(3), &grey(0)), grey(0));
    assert_eq!(soften(&grey(252), &grey(255)), grey(255));
    assert_eq!(soften(&grey(0), &grey(255)), grey(192));
    assert_eq!(soften(&grey(255), &grey(0)), grey(63));
    assert_eq!(soften(&grey(77), &grey(77)), grey(77));
}

#[test]
fn noise_gated_dithering_with_given_noise() {
    let pixels = vec![grey(100), c(200, 50, 25), c(30, 220, 140), c(90, 10, 250)];
    let mut b = buffer(2, 2, pixels);
    assert_eq!(
        blue_noise_dither_with(&mut b, &black_and_white(), 100, &vec![50, 150, 100, 101]),
        Ok(())
    );
    assert_eq!(b.pixels(), &vec![grey(0), c(252, 215, 209), grey(255), c(2, 0, 36)]);
}

#[test]
fn noise_gated_dithering_below_the_threshold_is_floyd_steinberg() {
    let mut noisy = PixelBuffer::filled(10, 10, grey(128)).unwrap();
    let mut plain = PixelBuffer::filled(10, 10, grey(128)).unwrap();
    assert_eq!(
        blue_noise_dither_with(&mut noisy, &black_and_white(), 255, &vec![255; 100]),
        Ok(())
    );
    assert_eq!(
        generic_error_diffusion_dither(&mut plain, &black_and_white(), &DIFF_MAT_FLOYD_STEINBERG),
        Ok(())
    );
    assert_eq!(noisy.pixels(), plain.pixels());
}

#[test]
fn noise_gated_dithering_rejects_bad_input() {
    let mut b = PixelBuffer::filled(2, 2, grey(100)).unwrap();
    assert_eq!(
        blue_noise_dither_with(&mut b, &black_and_white(), 100, &vec![1, 2, 3]),
        Err(PixelError::InvalidArgument)
    );
    assert_eq!(
        blue_noise_dither_with(&mut b, &vec![], 100, &vec![1, 2, 3, 4]),
        Err(PixelError::InvalidArgument)
    );
    assert_eq!(
        blue_noise_dither(&mut b, BlueNoiseThreshold::LOW, &vec![]),
        Err(PixelError::InvalidArgument)
    );
    assert_eq!(b.pixels(), &vec![grey(100); 4]);
    let mut empty = buffer(0, 0, vec![]);
    assert_eq!(
        blue_noise_dither(&mut empty, BlueNoiseThreshold::HIGH, &black_and_white()),
        Err(PixelError::InvalidArgument)
    );
    assert_eq!(
        blue_noise_dither_with(&mut empty, &black_and_white(), 3, &vec![]),
        Err(PixelError::InvalidArgument)
    );
}

#[test]
fn noise_gated_dithering_keeps_the_shape_of_the_raster() {
    for bucket in [BlueNoiseThreshold::LOW, BlueNoiseThreshold::MEDIUM, BlueNoiseThreshold::HIGH] {
        let mut b = PixelBuffer::filled(12, 9, c(40, 128, 220)).unwrap();
        assert_eq!(blue_noise_dither(&mut b, bucket, &black_and_white()), Ok(()));
        assert_eq!((b.width(), b.height(), b.len()), (12, 9, 108));
        // the first pixel sees no diffused error: it is white, or white
        // moved a quarter of the way back
        let first = b.get_pixel(0, 0);
        assert!(first == grey(255) || first == c(202, 224, 247));
    }
}

#[test]
fn blue_noise_threshold_lies_in_its_range() {
    let mut low_seen = [false; 256];
    for _ in 0..2000 {
        let low = gen_blue_noise_threshold(BlueNoiseThreshold::LOW);
        let medium = gen_blue_noise_threshold(BlueNoiseThreshold::MEDIUM);
        let high = gen_blue_noise_threshold(BlueNoiseThreshold::HIGH);
        assert!(low <= 85);
        assert!(86 <= medium && medium <= 170);
        assert!(171 <= high && high <= 254);
        low_seen[low as usize] = true;
    }
    assert!(low_seen.iter().filter(|s| **s).count() > 1);
}

#[test]
fn dither_modes_name_their_palette() {
    assert_eq!(DitherMode::BAYER(3).palette_name(), None);
    assert_eq!(DitherMode::FLOYDSTEINBERG("a.hex").palette_name(), Some("a.hex"));
    assert_eq!(
        DitherMode::BLUENOISE(BlueNoiseThreshold::LOW, "b.hex").palette_name(),
        Some("b.hex")
    );
    assert_eq!(DitherMode::IMPROVEDSTUCKI("c.hex").palette_name(), Some("c.hex"));
}

#[test]
fn ditherer_applies_the_kernel_of_its_mode() {
    let modes = vec![
        (DitherMode::FLOYDSTEINBERG("p"), DIFF_MAT_FLOYD_STEINBERG.to_vec()),
        (DitherMode::ATKINSON("p"), DIFF_MAT_ATKINSON.to_vec()),
        (DitherMode::JARVISJUDICENINKE("p"), DIFF_MAT_JARVIS_JUDICE_NINKE.to_vec()),
        (DitherMode::SIERRA("p"), DIFF_MAT_SIERRA.to_vec()),
        (DitherMode::STUCKI("p"), DIFF_MAT_STUCKI.to_vec()),
        (DitherMode::BURKES("p"), DIFF_MAT_BURKES.to_vec()),
        (DitherMode::STEVENSONARCE("p"), DIFF_MAT_STEVENSON_ARCE.to_vec()),
        (DitherMode::SIERRA2("p"), DIFF_MAT_TWO_ROW_SIERRA.to_vec()),
        (DitherMode::SIERRALITE("p"), DIFF_MAT_SIERRA_LITE.to_vec()),
        (DitherMode::FAN("p"), DIFF_MAT_FAN.to_vec()),
        (DitherMode::K3M("p"), DIFF_MAT_K3M.to_vec()),
        (DitherMode::LIWAN("p"), DIFF_MAT_LI_WAN.to_vec()),
        (DitherMode::PJARRI("p"), DIFF_MAT_PJARRI.to_vec()),
        (DitherMode::SHIAUFAN("p"), DIFF_MAT_SHIAU_FAN.to_vec()),
        (DitherMode::IMPROVEDSTUCKI("p"), DIFF_MAT_IMPROVED_STUCKI.to_vec()),
    ];
    let palette = vec![grey(0), grey(85), grey(170), grey(255)];
    for (mode, kernel) in modes {
        let mut pixels = Vec::new();
        for i in 0..48u32 {
            pixels.push(grey((i * 5 + 3) as u8));
        }
        let mut by_mode = buffer(8, 6, pixels.clone());
        let mut by_kernel = buffer(8, 6, pixels);
        let ditherer = Ditherer::new(mode);
        assert_eq!(ditherer.dither(&mut by_mode, &palette), Ok(()));
        assert_eq!(generic_error_diffusion_dither(&mut by_kernel, &palette, &kernel), Ok(()));
        assert_eq!(by_mode.pixels(), by_kernel.pixels());
    }
}

#[test]
fn ditherer_dispatches_ordered_and_noise_gated_modes() {
    let pixels = vec![c(10, 20, 30), c(200, 100, 50), c(90, 90, 90), grey(255)];
    let mut b = buffer(2, 2, pixels.clone());
    assert_eq!(Ditherer::new(DitherMode::BAYER(1)).dither(&mut b, &vec![]), Ok(()));
    assert_eq!(b.pixels(), &vec![c(10, 20, 30), c(255, 0, 0), grey(0), grey(255)]);
    let mut b = buffer(2, 2, pixels.clone());
    assert_eq!(
        Ditherer::new(DitherMode::BAYER(16)).dither(&mut b, &black_and_white()),
        Err(PixelError::InvalidArgument)
    );
    assert_eq!(
        Ditherer::new(DitherMode::STUCKI("p")).dither(&mut b, &vec![]),
        Err(PixelError::InvalidArgument)
    );
    assert_eq!(
        Ditherer::new(DitherMode::BLUENOISE(BlueNoiseThreshold::MEDIUM, "p"))
            .dither(&mut b, &vec![]),
        Err(PixelError::InvalidArgument)
    );
    assert_eq!(b.pixels(), &pixels);
    assert_eq!(
        Ditherer::new(DitherMode::BLUENOISE(BlueNoiseThreshold::MEDIUM, "p"))
            .dither(&mut b, &black_and_white()),
        Ok(())
    );
}
