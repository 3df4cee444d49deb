use pixel_dither::buffer::PixelBuffer;
use pixel_dither::colour::{Color, SelectionStrategy};
use pixel_dither::error::PixelError;
use pixel_dither::hex::{digit_value, parse_hex_at};
use pixel_dither::palette::{parse_palette_bytes, write_palette_text, Palette};
use pixel_dither::utils::{find_closest_color, hex_to_rgb, rgb_to_hex};

fn c(r: u8, g: u8, b: u8) -> Color {
    Color { r, g, b }
}

#[test]
fn hex_to_rgb_reads_six_digits() {
    assert_eq!(hex_to_rgb("FF0000"), Ok(c(255, 0, 0)));
    assert_eq!(hex_to_rgb("00FF00"), Ok(c(0, 255, 0)));
    assert_eq!(hex_to_rgb("0000FF"), Ok(c(0, 0, 255)));
    assert_eq!(hex_to_rgb("1A2B3C"), Ok(c(26, 43, 60)));
    assert_eq!(hex_to_rgb("000000"), Ok(c(0, 0, 0)));
    assert_eq!(hex_to_rgb("FFFFFF"), Ok(c(255, 255, 255)));
    assert_eq!(hex_to_rgb("09AF90"), Ok(c(9, 175, 144)));
}

#[test]
fn hex_to_rgb_accepts_lower_case_and_one_leading_hash() {
    assert_eq!(hex_to_rgb("ff00aa"), Ok(c(255, 0, 170)));
    assert_eq!(hex_to_rgb("aBcDeF"), Ok(c(171, 205, 239)));
    assert_eq!(hex_to_rgb("#1A2B3C"), Ok(c(26, 43, 60)));
    assert_eq!(hex_to_rgb("#ffffff"), Ok(c(255, 255, 255)));
}

#[test]
fn hex_to_rgb_rejects_malformed_text() {
    for bad in [
        "", "#", "FFF", "FFFFF", "FFFFFFF", "#FFFFF", "#FFFFFFF", "##FFFFFF", "GG0000", "FF00GG",
        "FF 000", " FF0000", "FF0000 ", "+F0000", "-10000", "0x0000", "FF0000\n", "FF00#0",
        "ÿÿÿ", "ｆｆ",
    ] {
        assert_eq!(hex_to_rgb(bad), Err(PixelError::FormatError));
    }
}

#[test]
fn rgb_to_hex_writes_upper_case_digits() {
    assert_eq!(rgb_to_hex(c(255, 0, 0)), "FF0000");
    assert_eq!(rgb_to_hex(c(26, 43, 60)), "1A2B3C");
    assert_eq!(rgb_to_hex(c(0, 0, 0)), "000000");
    assert_eq!(rgb_to_hex(c(9, 175, 144)), "09AF90");
    assert_eq!(rgb_to_hex(c(171, 205, 239)), "ABCDEF");
}

#[test]
fn hex_round_trip_from_text() {
    for text in ["FF0000", "00FF00", "0000FF", "1A2B3C", "09AF90", "ABCDEF", "123456", "FEDCBA"] {
        assert_eq!(rgb_to_hex(hex_to_rgb(text).unwrap()), text);
    }
    let digits = "0123456789ABCDEF".as_bytes();
    for hi in digits.iter() {
        for lo in digits.iter() {
            let pair = format!("{}{}", *hi as char, *lo as char);
            let text = format!("{}00{}", pair, pair);
            assert_eq!(rgb_to_hex(hex_to_rgb(&text).unwrap()), text);
        }
    }
}

#[test]
fn hex_round_trip_from_colour() {
    for v in 0..=255u8 {
        let colour = c(v, 255 - v, v.wrapping_mul(7));
        assert_eq!(hex_to_rgb(&rgb_to_hex(colour)), Ok(colour));
    }
}

#[test]
fn digit_value_reads_both_cases() {
    assert_eq!(digit_value(b'0'), Some(0));
    assert_eq!(digit_value(b'9'), Some(9));
    assert_eq!(digit_value(b'a'), Some(10));
    assert_eq!(digit_value(b'F'), Some(15));
    assert_eq!(digit_value(b'f'), Some(15));
    assert_eq!(digit_value(b'g'), None);
    assert_eq!(digit_value(b'G'), None);
    assert_eq!(digit_value(b'/'), None);
    assert_eq!(digit_value(b':'), None);
    assert_eq!(digit_value(b'@'), None);
    assert_eq!(digit_value(b'`'), None);
    assert_eq!(digit_value(0), None);
    assert_eq!(digit_value(255), None);
}

#[test]
fn parse_hex_at_reads_a_part_of_the_text() {
    let bytes = "xxFF8001yy".as_bytes();
    assert_eq!(parse_hex_at(bytes, 2, 8), Some(c(255, 128, 1)));
    assert_eq!(parse_hex_at(bytes, 2, 7), None);
    assert_eq!(parse_hex_at(bytes, 1, 8), None);
    assert_eq!(parse_hex_at(bytes, 4, 4), None);
    assert_eq!(parse_hex_at("a#010203".as_bytes(), 1, 8), Some(c(1, 2, 3)));
}

#[test]
fn palette_file_of_three_lines_loads_three_colours() {
    let palette = Palette::new("primaries.hex", "FF0000\n00FF00\n0000FF").unwrap();
    assert_eq!(palette.name, "primaries.hex");
    assert_eq!(palette.colours, vec![c(255, 0, 0), c(0, 255, 0), c(0, 0, 255)]);
    assert_eq!(find_closest_color(&c(250, 10, 10), &palette.colours), Ok(c(255, 0, 0)));
    assert_eq!(find_closest_color(&c(10, 10, 245), &palette.colours), Ok(c(0, 0, 255)));
}

#[test]
fn palette_file_line_endings() {
    let expected = vec![c(255, 0, 0), c(0, 255, 0)];
    assert_eq!(parse_palette_bytes("FF0000\n00FF00".as_bytes()), Ok(expected.clone()));
    assert_eq!(parse_palette_bytes("FF0000\n00FF00\n".as_bytes()), Ok(expected.clone()));
    assert_eq!(parse_palette_bytes("FF0000\r\n00FF00\r\n".as_bytes()), Ok(expected.clone()));
    assert_eq!(parse_palette_bytes("#FF0000\r\n#00ff00".as_bytes()), Ok(expected));
    assert_eq!(parse_palette_bytes("".as_bytes()), Ok(vec![]));
    assert_eq!(parse_palette_bytes("ABCDEF".as_bytes()), Ok(vec![c(171, 205, 239)]));
}

#[test]
fn palette_file_with_a_malformed_line_fails_whole() {
    for bad in [
        "FF0000\nGG0000\n0000FF",
        "FF0000\n\n0000FF",
        "\n",
        "FF0000\n00FF0",
        "FF0000\n00FF000\n",
        "FF0000 00FF00",
        "FF0000\r",
        "FF0000\r\r\n",
        "FF0000\n\r\n",
        "FF0000\n00FF00\n\n",
        " FF0000\n",
    ] {
        assert_eq!(parse_palette_bytes(bad.as_bytes()), Err(PixelError::FormatError));
        assert_eq!(Palette::new("bad", bad).unwrap_err(), PixelError::FormatError);
    }
}

#[test]
fn palette_text_has_one_upper_case_line_per_colour() {
    let palette = Palette {
        name: String::from("p"),
        colours: vec![c(255, 0, 0), c(0, 255, 0), c(171, 205, 239)],
    };
    assert_eq!(palette.to_text(), "FF0000\n00FF00\nABCDEF\n");
    assert_eq!(write_palette_text(&vec![]), "");
    assert_eq!(write_palette_text(&vec![c(1, 2, 3)]), "010203\n");
}

#[test]
fn palette_text_round_trip() {
    let mut colours = Vec::new();
    for i in 0..200u32 {
        colours.push(c((i * 3 % 256) as u8, (i * 11 % 256) as u8, (255 - i) as u8));
    }
    let text = write_palette_text(&colours);
    assert_eq!(Palette::new("again", &text).unwrap().colours, colours);
}

#[test]
fn palette_can_be_cloned() {
    let palette = Palette::new("p", "010203\n").unwrap();
    let copy = palette.clone();
    assert_eq!(copy.name, palette.name);
    assert_eq!(copy.colours, palette.colours);
}

fn checkerboard() -> PixelBuffer {
    PixelBuffer::new(
        2,
        2,
        vec![c(0, 0, 0), c(255, 255, 255), c(255, 255, 255), c(0, 0, 0)],
    )
    .unwrap()
}

#[test]
fn generate_palette_by_kmeans_finds_both_colours_of_a_checkerboard() {
    let palette = Palette::generate_palette(
        &checkerboard(),
        String::from("board"),
        2,
        SelectionStrategy::KMeans,
        100,
    )
    .unwrap();
    assert_eq!(palette.name, "board");
    assert_eq!(palette.colours, vec![c(0, 0, 0), c(255, 255, 255)]);
}

#[test]
fn generate_palette_by_each_strategy() {
    let pixels = vec![c(0, 0, 0), c(10, 0, 0), c(0, 0, 0), c(20, 0, 0), c(30, 0, 0), c(10, 0, 0)];
    let image = PixelBuffer::new(3, 2, pixels).unwrap();
    let average =
        Palette::generate_palette(&image, String::from("a"), 2, SelectionStrategy::Average, 0)
            .unwrap();
    assert_eq!(average.colours, vec![c(5, 0, 0), c(25, 0, 0)]);
    let median =
        Palette::generate_palette(&image, String::from("m"), 2, SelectionStrategy::Median, 0)
            .unwrap();
    assert_eq!(median.colours, vec![c(5, 0, 0), c(25, 0, 0)]);
    let random =
        Palette::generate_palette(&image, String::from("r"), 4, SelectionStrategy::Random, 0)
            .unwrap();
    assert_eq!(random.colours, vec![c(0, 0, 0), c(10, 0, 0), c(20, 0, 0), c(30, 0, 0)]);
    let random =
        Palette::generate_palette(&image, String::from("r"), 3, SelectionStrategy::Random, 0)
            .unwrap();
    assert_eq!(random.colours.len(), 3);
    let kmeans =
        Palette::generate_palette(&image, String::from("k"), 4, SelectionStrategy::KMeans, 20)
            .unwrap();
    assert_eq!(kmeans.colours, vec![c(0, 0, 0), c(10, 0, 0), c(20, 0, 0), c(30, 0, 0)]);
}

#[test]
fn generate_palette_rejects_bad_input() {
    for strategy in [
        SelectionStrategy::Random,
        SelectionStrategy::Average,
        SelectionStrategy::KMeans,
        SelectionStrategy::Median,
    ] {
        assert_eq!(
            Palette::generate_palette(&checkerboard(), String::from("z"), 0, strategy, 10)
                .unwrap_err(),
            PixelError::InvalidArgument
        );
        let empty = PixelBuffer::new(0, 0, vec![]).unwrap();
        assert_eq!(
            Palette::generate_palette(&empty, String::from("e"), 4, strategy, 10).unwrap_err(),
            PixelError::InvalidArgument
        );
    }
}
