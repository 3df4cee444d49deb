//! Shared pieces: hexadecimal colour text, channel sums, the nearest-colour
//! matcher, error diffusion over a kernel, and the colours of a raster.

use std::collections::HashSet;
use vstd::prelude::*;
use vstd::seq_lib::lemma_seq_contains_after_push;
use vstd::string::StringSliceAdditionalSpecFns;
use crate::buffer::{lemma_offset, Grid, PixelBuffer};
use crate::colour::{
    channel_sum, lemma_channel_mean_bounds, lemma_channel_sum_bounds,
    lemma_squared_distance_bounds, lemma_squared_distance_zero, mean_color, squared_distance,
    squared_distance_spec, Color,
};
use crate::ditherer::BlueNoiseThreshold;
use crate::error::PixelError;
use crate::hex::{hex_text, parse_hex_at, parse_hex_color, push_hex};
use crate::population::{
    color_code, distinct_colors, lemma_distinct_bound, lemma_distinct_colors, MAX_COLORS,
};
use crate::random::random_in_range;

verus! {

/// Restricts `value` to the closed interval `[min, max]`. When the bounds
/// cross (`min > max`) a value below `min` gives `min` and any other value
/// above `max` gives `max`.
pub open spec fn clamp_spec(value: int, min: int, max: int) -> int {
    if value < min {
        min
    } else if value > max {
        max
    } else {
        value
    }
}

/// Restricts `value` to the closed interval `[min, max]`.
pub fn clamp(value: i16, min: i16, max: i16) -> (r: i16)
    ensures
        r as int == clamp_spec(value as int, min as int, max as int),
{
    if value < min {
        min
    } else if value > max {
        max
    } else {
        value
    }
}

/// The signed per-channel difference between two colours.
#[derive(Clone, Copy, Debug, PartialEq, Eq, Structural)]
pub struct ColorError {
    pub r: i16,
    pub g: i16,
    pub b: i16,
}

/// The quantization error of a pixel: what it was minus what it became,
/// channel by channel.
pub open spec fn error_spec(old_color: Color, new_color: Color) -> ColorError {
    ColorError {
        r: (old_color.r - new_color.r) as i16,
        g: (old_color.g - new_color.g) as i16,
        b: (old_color.b - new_color.b) as i16,
    }
}

/// Computes the quantization error of a pixel: what it was minus what it
/// became, channel by channel.
pub fn calculate_error(old_color: &Color, new_color: &Color) -> (e: ColorError)
    ensures
        e == error_spec(*old_color, *new_color),
        e.r == old_color.r - new_color.r,
        e.g == old_color.g - new_color.g,
        e.b == old_color.b - new_color.b,
{
    ColorError {
        r: old_color.r as i16 - new_color.r as i16,
        g: old_color.g as i16 - new_color.g as i16,
        b: old_color.b as i16 - new_color.b as i16,
    }
}

/// Reads a colour from its hexadecimal text: six hexadecimal digits, two
/// per channel, red first, after one optional leading `#`. Digits may be of
/// either case. Any other text is rejected.
pub fn hex_to_rgb(hex_code: &str) -> (r: Result<Color, PixelError>)
    ensures
        parse_hex_color(hex_code.spec_bytes()) is None ==> r == Err::<Color, PixelError>(
            PixelError::FormatError,
        ),
        parse_hex_color(hex_code.spec_bytes()) is Some ==> r == Ok::<Color, PixelError>(
            parse_hex_color(hex_code.spec_bytes())->Some_0,
        ),
{
    let bytes = hex_code.as_bytes();
    proof {
        assert(bytes@.subrange(0, bytes@.len() as int) =~= bytes@);
    }
    match parse_hex_at(bytes, 0, bytes.len()) {
        Some(c) => Ok(c),
        None => Err(PixelError::FormatError),
    }
}

/// Writes a colour as six upper-case hexadecimal digits, two per channel,
/// red first.
pub fn rgb_to_hex(rgb: Color) -> (text: String)
    ensures
        text@ == hex_text(rgb),
{
    let mut text = String::new();
    push_hex(&mut text, rgb);
    proof {
        assert(Seq::<char>::empty() + hex_text(rgb) =~= hex_text(rgb));
    }
    text
}

/// Adds up each channel of the colours at positions `start..end` of
/// `colors` and counts them. The result is
/// `(sum of red, sum of green, sum of blue, count)`.
pub(crate) fn sum_range(colors: &Vec<Color>, start: usize, end: usize) -> (r: (
    u128,
    u128,
    u128,
    u128,
))
    requires
        start <= end <= colors@.len(),
    ensures
        r.0 as int == channel_sum(colors@.subrange(start as int, end as int), 0),
        r.1 as int == channel_sum(colors@.subrange(start as int, end as int), 1),
        r.2 as int == channel_sum(colors@.subrange(start as int, end as int), 2),
        r.3 as int == end - start,
{
    let mut sum_r: u128 = 0;
    let mut sum_g: u128 = 0;
    let mut sum_b: u128 = 0;
    let mut i: usize = start;
    while i < end
        invariant
            start <= i <= end <= colors@.len(),
            sum_r as int == channel_sum(colors@.subrange(start as int, i as int), 0),
            sum_g as int == channel_sum(colors@.subrange(start as int, i as int), 1),
            sum_b as int == channel_sum(colors@.subrange(start as int, i as int), 2),
        decreases end - i,
    {
        proof {
            let next = colors@.subrange(start as int, i + 1);
            assert(next.drop_last() =~= colors@.subrange(start as int, i as int));
            lemma_channel_sum_bounds(next, 0);
            lemma_channel_sum_bounds(next, 1);
            lemma_channel_sum_bounds(next, 2);
        }
        let c = colors[i];
        sum_r = sum_r + c.r as u128;
        sum_g = sum_g + c.g as u128;
        sum_b = sum_b + c.b as u128;
        i = i + 1;
    }
    (sum_r, sum_g, sum_b, (end - start) as u128)
}

/// Adds up each channel of `cluster` and counts its colours. The result is
/// `(sum of red, sum of green, sum of blue, count)`.
pub fn sum_fold_and_count(cluster: &Vec<Color>) -> (r: (u128, u128, u128, u128))
    ensures
        r.0 as int == channel_sum(cluster@, 0),
        r.1 as int == channel_sum(cluster@, 1),
        r.2 as int == channel_sum(cluster@, 2),
        r.3 as int == cluster@.len(),
{
    proof {
        assert(cluster@.subrange(0, cluster@.len() as int) =~= cluster@);
    }
    sum_range(cluster, 0, cluster.len())
}

/// Computes the mean colour of the colours at positions `start..end` of
/// `colors`.
pub(crate) fn mean_range(colors: &Vec<Color>, start: usize, end: usize) -> (c: Color)
    requires
        start < end <= colors@.len(),
    ensures
        c == mean_color(colors@.subrange(start as int, end as int)),
{
    let (sum_r, sum_g, sum_b, count) = sum_range(colors, start, end);
    proof {
        let part = colors@.subrange(start as int, end as int);
        lemma_channel_mean_bounds(part, 0);
        lemma_channel_mean_bounds(part, 1);
        lemma_channel_mean_bounds(part, 2);
    }
    Color { r: (sum_r / count) as u8, g: (sum_g / count) as u8, b: (sum_b / count) as u8 }
}

/// Computes the colour whose channels are the truncated means of the
/// channels of `cluster`.
pub(crate) fn mean_of(cluster: &Vec<Color>) -> (c: Color)
    requires
        cluster@.len() > 0,
    ensures
        c == mean_color(cluster@),
{
    proof {
        assert(cluster@.subrange(0, cluster@.len() as int) =~= cluster@);
    }
    mean_range(cluster, 0, cluster.len())
}

/// The position in a non-empty palette of the colour closest to `c`. Among
/// colours at the same distance the one stored first wins.
pub open spec fn nearest_index(palette: Seq<Color>, c: Color) -> int
    decreases palette.len(),
{
    if palette.len() <= 1 {
        0
    } else {
        let before = nearest_index(palette.drop_last(), c);
        if squared_distance_spec(c, palette.last()) < squared_distance_spec(c, palette[before]) {
            palette.len() - 1
        } else {
            before
        }
    }
}

/// The palette colour closest to `c`.
pub open spec fn nearest_color(palette: Seq<Color>, c: Color) -> Color {
    palette[nearest_index(palette, c)]
}

/// `nearest_index` names a position of the palette; no palette colour is
/// closer to `c` than the one there, and every colour stored before it is
/// strictly farther.
pub proof fn lemma_nearest_index(palette: Seq<Color>, c: Color)
    requires
        palette.len() > 0,
    ensures
        0 <= nearest_index(palette, c) < palette.len(),
        forall|j: int|
            0 <= j < palette.len() ==> squared_distance_spec(c, palette[nearest_index(palette, c)])
                <= squared_distance_spec(c, #[trigger] palette[j]),
        forall|j: int|
            0 <= j < nearest_index(palette, c) ==> squared_distance_spec(
                c,
                palette[nearest_index(palette, c)],
            ) < squared_distance_spec(c, #[trigger] palette[j]),
    decreases palette.len(),
{
    if palette.len() > 1 {
        let shorter = palette.drop_last();
        lemma_nearest_index(shorter, c);
        assert(forall|j: int| 0 <= j < shorter.len() ==> shorter[j] == palette[j]);
    }
}

/// Finds the position of the palette colour closest to `color` by a linear
/// scan.
pub(crate) fn closest_index(color: &Color, palette: &Vec<Color>) -> (best: usize)
    requires
        palette@.len() > 0,
    ensures
        best as int == nearest_index(palette@, *color),
        best < palette@.len(),
{
    let mut best: usize = 0;
    let mut best_distance: u32 = squared_distance(color, &palette[0]);
    let mut i: usize = 1;
    proof {
        assert(palette@.take(1).len() == 1);
    }
    while i < palette.len()
        invariant
            1 <= i <= palette.len(),
            best < i,
            best as int == nearest_index(palette@.take(i as int), *color),
            best_distance as int == squared_distance_spec(*color, palette@[best as int]),
        decreases palette.len() - i,
    {
        proof {
            let next = palette@.take(i + 1);
            assert(next.drop_last() =~= palette@.take(i as int));
            assert(next.last() == palette@[i as int]);
            assert(next[best as int] == palette@[best as int]);
        }
        let distance = squared_distance(color, &palette[i]);
        if distance < best_distance {
            best_distance = distance;
            best = i;
        }
        i = i + 1;
    }
    proof {
        assert(palette@.take(palette@.len() as int) =~= palette@);
    }
    best
}

/// The colour of a palette nearest to one of its own colours is that
/// colour.
pub proof fn lemma_nearest_of_member(palette: Seq<Color>, k: int)
    requires
        0 <= k < palette.len(),
    ensures
        nearest_color(palette, palette[k]) == palette[k],
{
    lemma_nearest_index(palette, palette[k]);
    let best = nearest_index(palette, palette[k]);
    lemma_squared_distance_zero(palette[k], palette[k]);
    lemma_squared_distance_bounds(palette[k], palette[best]);
    lemma_squared_distance_zero(palette[k], palette[best]);
    assert(squared_distance_spec(palette[k], palette[best]) <= squared_distance_spec(
        palette[k],
        palette[k],
    ));
}

/// Looks up the palette colour closest to `color`: no colour of the
/// palette is closer. Ties go to the colour stored first. An empty palette
/// is rejected.
pub fn find_closest_color(color: &Color, palette: &Vec<Color>) -> (r: Result<Color, PixelError>)
    ensures
        palette@.len() == 0 ==> r == Err::<Color, PixelError>(PixelError::InvalidArgument),
        palette@.len() > 0 ==> r == Ok::<Color, PixelError>(nearest_color(palette@, *color)),
        r is Ok ==> palette@.contains(r->Ok_0),
        r is Ok ==> forall|j: int|
            0 <= j < palette@.len() ==> squared_distance_spec(*color, r->Ok_0)
                <= squared_distance_spec(*color, #[trigger] palette@[j]),
{
    if palette.len() == 0 {
        return Err(PixelError::InvalidArgument);
    }
    let best = closest_index(color, palette);
    proof {
        lemma_nearest_index(palette@, *color);
    }
    Ok(palette[best])
}

/// One entry of a diffusion kernel, `((dx, dy), (numerator, denominator))`:
/// the neighbour at offset `(dx, dy)` receives the fraction
/// `numerator / denominator` of a pixel's quantization error.
pub type Tap = ((i32, i32), (u32, u32));

/// An entry is usable when its weight is a positive fraction and its offset
/// is not the pixel itself.
pub open spec fn tap_valid(t: Tap) -> bool {
    t.1.1 > 0 && t.1.0 > 0 && (t.0.0 != 0 || t.0.1 != 0)
}

/// Every entry of the kernel is usable.
pub open spec fn kernel_valid(kernel: Seq<Tap>) -> bool {
    forall|i: int| 0 <= i < kernel.len() ==> tap_valid(#[trigger] kernel[i])
}

/// An entry is causal when its offset points to a pixel that a raster scan
/// reaches later: further right in the same row, or in a row below.
pub open spec fn tap_causal(t: Tap) -> bool {
    t.0.1 > 0 || (t.0.1 == 0 && t.0.0 > 0)
}

/// Every entry of the kernel is causal.
pub open spec fn kernel_causal(kernel: Seq<Tap>) -> bool {
    forall|i: int| 0 <= i < kernel.len() ==> tap_causal(#[trigger] kernel[i])
}

/// The part of an error `e` that a weight `num / den` passes on: their
/// product with the fraction cut off, that is rounded toward zero.
pub open spec fn share(e: int, num: int, den: int) -> int {
    if e >= 0 {
        (e * num) / den
    } else {
        -(((-e) * num) / den)
    }
}

/// A channel value after it has received its part of an error, held to
/// `[0, 255]`.
pub open spec fn nudged_channel(v: int, e: int, t: Tap) -> u8 {
    clamp_spec(v + share(e, t.1.0 as int, t.1.1 as int), 0, 255) as u8
}

/// A channel that has received its part of an error is a channel value
/// again: the sum held to `[0, 255]`, whatever the error and the weight.
pub proof fn lemma_nudged_channel(v: int, e: int, t: Tap)
    ensures
        nudged_channel(v, e, t) as int == clamp_spec(
            v + share(e, t.1.0 as int, t.1.1 as int),
            0,
            255,
        ),
        0 <= nudged_channel(v, e, t) <= 255,
{
}

/// A colour after each channel has received its part of an error.
pub open spec fn nudged(c: Color, e: ColorError, t: Tap) -> Color {
    Color {
        r: nudged_channel(c.r as int, e.r as int, t),
        g: nudged_channel(c.g as int, e.g as int, t),
        b: nudged_channel(c.b as int, e.b as int, t),
    }
}

/// What one kernel entry does for the pixel at `(x, y)`: the neighbour at
/// its offset receives its part of the error if it lies inside the raster;
/// otherwise nothing changes and that part of the error is lost.
pub open spec fn diffuse_tap(g: Grid, x: int, y: int, t: Tap, e: ColorError) -> Grid {
    let nx = x + t.0.0;
    let ny = y + t.0.1;
    if g.contains(nx, ny) {
        g.set(nx, ny, nudged(g.at(nx, ny), e, t))
    } else {
        g
    }
}

/// What a kernel does for the pixel at `(x, y)`: its entries are applied
/// one after another, in kernel order.
pub open spec fn diffuse(g: Grid, x: int, y: int, kernel: Seq<Tap>, e: ColorError) -> Grid
    decreases kernel.len(),
{
    if kernel.len() == 0 {
        g
    } else {
        diffuse_tap(diffuse(g, x, y, kernel.drop_last(), e), x, y, kernel.last(), e)
    }
}

/// Diffusion keeps the shape of the raster.
pub proof fn lemma_diffuse_shape(g: Grid, x: int, y: int, kernel: Seq<Tap>, e: ColorError)
    requires
        g.wf(),
    ensures
        diffuse(g, x, y, kernel, e).wf(),
        diffuse(g, x, y, kernel, e).width == g.width,
        diffuse(g, x, y, kernel, e).height == g.height,
    decreases kernel.len(),
{
    if kernel.len() > 0 {
        lemma_diffuse_shape(g, x, y, kernel.drop_last(), e);
        let before = diffuse(g, x, y, kernel.drop_last(), e);
        let t = kernel.last();
        if before.contains(x + t.0.0, y + t.0.1) {
            lemma_offset(before, x + t.0.0, y + t.0.1);
        }
    }
}

/// A part of an error is never larger in size than the error times the
/// weight, and has the sign of the error.
pub proof fn lemma_share_bounds(e: int, num: int, den: int)
    requires
        num >= 0,
        den > 0,
    ensures
        e >= 0 ==> 0 <= share(e, num, den) && share(e, num, den) * den <= e * num,
        e <= 0 ==> share(e, num, den) <= 0 && e * num <= share(e, num, den) * den,
        num <= den && e >= 0 ==> share(e, num, den) <= e,
        num <= den && e <= 0 ==> e <= share(e, num, den),
{
    let a = if e >= 0 {
        e
    } else {
        -e
    };
    let q = (a * num) / den;
    assert(0 <= q && q * den <= a * num && (num <= den ==> q <= a) && (a == 0 ==> q == 0 && a * num
        == 0)) by (nonlinear_arith)
        requires
            a >= 0,
            num >= 0,
            den > 0,
            q == (a * num) / den,
    ;
    if e < 0 {
        assert((-e) * num == -(e * num)) by (nonlinear_arith);
        assert((-q) * den == -(q * den)) by (nonlinear_arith);
    }
}

/// Tells whether every entry of a kernel is usable.
pub fn kernel_is_valid(diff_mat: &[Tap]) -> (valid: bool)
    ensures
        valid == kernel_valid(diff_mat@),
{
    let mut i: usize = 0;
    while i < diff_mat.len()
        invariant
            i <= diff_mat@.len(),
            forall|j: int| 0 <= j < i ==> tap_valid(#[trigger] diff_mat@[j]),
        decreases diff_mat.len() - i,
    {
        let t = diff_mat[i];
        if t.1.1 == 0 || t.1.0 == 0 || (t.0.0 == 0 && t.0.1 == 0) {
            assert(!tap_valid(diff_mat@[i as int]));
            return false;
        }
        i = i + 1;
    }
    true
}

/// Computes the part of an error that a weight passes on.
pub fn share_of(e: i16, num: u32, den: u32) -> (s: i64)
    requires
        den > 0,
    ensures
        s as int == share(e as int, num as int, den as int),
{
    if e >= 0 {
        proof {
            assert(0 <= e * num <= 0x8000 * 0xFFFF_FFFF) by (nonlinear_arith)
                requires
                    0 <= e <= 0x8000,
                    0 <= num <= 0xFFFF_FFFF,
            ;
        }
        ((e as u64 * num as u64) / den as u64) as i64
    } else {
        let size: u64 = (-(e as i64)) as u64;
        proof {
            assert(0 <= size * num <= 0x8000 * 0xFFFF_FFFF) by (nonlinear_arith)
                requires
                    0 <= size <= 0x8000,
                    0 <= num <= 0xFFFF_FFFF,
            ;
        }
        -(((size * num as u64) / den as u64) as i64)
    }
}

/// Adds to a channel value its part of an error and holds the result to
/// `[0, 255]`.
pub(crate) fn nudge_channel(v: u8, e: i16, t: Tap) -> (r: u8)
    requires
        t.1.1 > 0,
    ensures
        r == nudged_channel(v as int, e as int, t),
{
    proof {
        lemma_share_magnitude(e as int, t.1.0 as int, t.1.1 as int);
    }
    let moved: i64 = v as i64 + share_of(e, t.1.0, t.1.1);
    if moved < 0 {
        0
    } else if moved > 255 {
        255
    } else {
        moved as u8
    }
}

/// A part of an error of 16 bits under a weight of 32-bit terms fits well
/// inside 64 bits.
proof fn lemma_share_magnitude(e: int, num: int, den: int)
    requires
        -0x8000 <= e <= 0x8000,
        0 <= num <= 0xFFFF_FFFF,
        den > 0,
    ensures
        -0x8000_0000_0000 <= share(e, num, den) <= 0x8000_0000_0000,
{
    let a = if e >= 0 {
        e
    } else {
        -e
    };
    let q = (a * num) / den;
    assert(0 <= q <= 0x8000 * 0xFFFF_FFFF) by (nonlinear_arith)
        requires
            0 <= a <= 0x8000,
            0 <= num <= 0xFFFF_FFFF,
            den > 0,
            q == (a * num) / den,
    ;
}

/// Spreads the quantization error of the pixel at `(x, y)` over its
/// neighbours. For every kernel entry whose neighbour lies inside the
/// raster, each channel of the neighbour receives the error times the
/// entry's weight, rounded toward zero, and is held to `[0, 255]`. Entries
/// that point outside the raster are skipped.
///
/// A kernel with an unusable entry or a pixel outside the raster is
/// rejected, and the raster stays as it is.
pub fn diffuse_error(
    x: u32,
    y: u32,
    diff_mat: &[Tap],
    error: ColorError,
    image: &mut PixelBuffer,
) -> (r: Result<(), PixelError>)
    requires
        old(image).wf(),
    ensures
        final(image).wf(),
        !kernel_valid(diff_mat@) || !old(image)@.contains(x as int, y as int) ==> r == Err::<
            (),
            PixelError,
        >(PixelError::InvalidArgument) && final(image)@ == old(image)@,
        kernel_valid(diff_mat@) && old(image)@.contains(x as int, y as int) ==> r is Ok
            && final(image)@ == diffuse(old(image)@, x as int, y as int, diff_mat@, error),
{
    if x >= image.width() || y >= image.height() || !kernel_is_valid(diff_mat) {
        return Err(PixelError::InvalidArgument);
    }
    spread(x, y, diff_mat, error, image);
    Ok(())
}

/// Spreads the quantization error of the pixel at `(x, y)` over its
/// neighbours, for a kernel known to be usable.
pub(crate) fn spread(x: u32, y: u32, diff_mat: &[Tap], error: ColorError, image: &mut PixelBuffer)
    requires
        old(image).wf(),
        kernel_valid(diff_mat@),
    ensures
        final(image).wf(),
        final(image)@ == diffuse(old(image)@, x as int, y as int, diff_mat@, error),
{
    let width = image.width();
    let height = image.height();
    let mut i: usize = 0;
    while i < diff_mat.len()
        invariant
            i <= diff_mat@.len(),
            kernel_valid(diff_mat@),
            image.wf(),
            image@.width == width,
            image@.height == height,
            image@ == diffuse(old(image)@, x as int, y as int, diff_mat@.take(i as int), error),
        decreases diff_mat.len() - i,
    {
        let t = diff_mat[i];
        proof {
            assert(diff_mat@.take(i + 1).drop_last() =~= diff_mat@.take(i as int));
            assert(tap_valid(diff_mat@[i as int]));
        }
        let nx: i64 = x as i64 + t.0.0 as i64;
        let ny: i64 = y as i64 + t.0.1 as i64;
        if nx >= 0 && nx < width as i64 && ny >= 0 && ny < height as i64 {
            let pixel = image.get_pixel(nx as u32, ny as u32);
            let moved = Color {
                r: nudge_channel(pixel.r, error.r, t),
                g: nudge_channel(pixel.g, error.g, t),
                b: nudge_channel(pixel.b, error.b, t),
            };
            image.put_pixel(nx as u32, ny as u32, moved);
        }
        i = i + 1;
    }
    proof {
        assert(diff_mat@.take(diff_mat@.len() as int) =~= diff_mat@);
    }
}

/// Collects the colours that occur in a raster, each once, in the order in
/// which a raster scan first meets them.
pub fn generate_raw_palette(img: &PixelBuffer) -> (colours: Vec<Color>)
    ensures
        colours@ == distinct_colors(img@.pixels),
        colours@.no_duplicates(),
        colours@.len() <= MAX_COLORS,
        forall|c: Color| #[trigger] colours@.contains(c) <==> img@.pixels.contains(c),
{
    broadcast use vstd::std_specs::hash::group_hash_axioms;

    let pixels = img.pixels();
    let mut seen: HashSet<u32> = HashSet::new();
    let mut colours: Vec<Color> = Vec::new();
    let mut i: usize = 0;
    while i < pixels.len()
        invariant
            i <= pixels@.len(),
            colours@ == distinct_colors(pixels@.take(i as int)),
            forall|c: Color|
                #[trigger] colours@.contains(c) <==> seen@.contains(color_code(c) as u32),
        decreases pixels.len() - i,
    {
        let c = pixels[i];
        let code: u32 = (c.r as u32) * 65536 + (c.g as u32) * 256 + c.b as u32;
        let ghost before = colours@;
        proof {
            assert(pixels@.take(i + 1).drop_last() =~= pixels@.take(i as int));
            assert(code == color_code(c));
        }
        if seen.insert(code) {
            colours.push(c);
        }
        proof {
            assert forall|d: Color| #[trigger] colours@.contains(d) <==> seen@.contains(
                color_code(d) as u32,
            ) by {
                lemma_seq_contains_after_push(before, c, d);
                if color_code(d) == color_code(c) {
                    assert(d == c);
                }
            }
        }
        i = i + 1;
    }
    proof {
        assert(pixels@.take(pixels@.len() as int) =~= pixels@);
        lemma_distinct_colors(pixels@);
        lemma_distinct_bound(colours@);
    }
    colours
}

/// The threshold `level` lies in the range that `bucket` names: 0 to 85 for
/// low, 86 to 170 for medium, 171 to 254 for high.
pub open spec fn in_bucket(bucket: BlueNoiseThreshold, level: u8) -> bool {
    match bucket {
        BlueNoiseThreshold::LOW => level <= 85,
        BlueNoiseThreshold::MEDIUM => 86 <= level <= 170,
        BlueNoiseThreshold::HIGH => 171 <= level <= 254,
    }
}

/// Draws the threshold of a noise-gated dithering run from the range that
/// `threshold` names.
pub fn gen_blue_noise_threshold(threshold: BlueNoiseThreshold) -> (level: u8)
    ensures
        in_bucket(threshold, level),
{
    match threshold {
        BlueNoiseThreshold::LOW => random_in_range(0, 86),
        BlueNoiseThreshold::MEDIUM => random_in_range(86, 171),
        BlueNoiseThreshold::HIGH => random_in_range(171, 255),
    }
}

} // verus!
