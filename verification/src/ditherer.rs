//! The dithering engine: ordered dithering with a threshold matrix, error
//! diffusion with a kernel, and noise-gated error diffusion.

use vstd::prelude::*;
use crate::buffer::{lemma_offset, lemma_position, Grid, PixelBuffer};
use crate::colour::{
    average_distance, calculate_avg_distance_in_palette, Color, DISTANCE_SCALE,
    SCALED_DISTANCE_LIMIT,
};
use crate::population::distinct_colors;
use crate::consts::{
    lemma_catalogue_sound, DIFF_MAT_ATKINSON, DIFF_MAT_BURKES, DIFF_MAT_FAN,
    DIFF_MAT_FLOYD_STEINBERG, DIFF_MAT_IMPROVED_STUCKI, DIFF_MAT_JARVIS_JUDICE_NINKE,
    DIFF_MAT_K3M, DIFF_MAT_LI_WAN, DIFF_MAT_PJARRI, DIFF_MAT_SHIAU_FAN, DIFF_MAT_SIERRA,
    DIFF_MAT_SIERRA_LITE, DIFF_MAT_STEVENSON_ARCE, DIFF_MAT_STUCKI, DIFF_MAT_TWO_ROW_SIERRA,
};
use crate::error::PixelError;
use crate::random::random_byte;
use crate::utils::{
    calculate_error, closest_index, ColorError, diffuse, error_spec, gen_blue_noise_threshold,
    generate_raw_palette, in_bucket, kernel_causal, kernel_is_valid, kernel_valid,
    lemma_diffuse_shape, lemma_nearest_index, lemma_share_bounds, nearest_color, nearest_index,
    share, share_of, spread, Tap, tap_causal,
};

verus! {

/// The three ranges from which noise-gated dithering draws its threshold.
#[derive(Clone, Copy, Debug, PartialEq, Eq, Structural)]
pub enum BlueNoiseThreshold {
    /// 0 to 85.
    LOW,
    /// 86 to 170.
    MEDIUM,
    /// 171 to 254.
    HIGH,
}

/// The ways to dither a raster. Every way but the ordered one names the
/// file of the palette to dither against.
#[derive(Clone, Copy, Debug)]
pub enum DitherMode {
    /// Ordered dithering with the threshold matrix of the given order.
    BAYER(u32),
    /// Noise-gated error diffusion with a threshold from the given range.
    BLUENOISE(BlueNoiseThreshold, &'static str),
    FLOYDSTEINBERG(&'static str),
    ATKINSON(&'static str),
    JARVISJUDICENINKE(&'static str),
    SIERRA(&'static str),
    STUCKI(&'static str),
    BURKES(&'static str),
    STEVENSONARCE(&'static str),
    SIERRA2(&'static str),
    SIERRALITE(&'static str),
    FAN(&'static str),
    K3M(&'static str),
    LIWAN(&'static str),
    PJARRI(&'static str),
    SHIAUFAN(&'static str),
    IMPROVEDSTUCKI(&'static str),
}

impl DitherMode {
    /// The diffusion kernel of the mode, for the modes that are plain error
    /// diffusion.
    pub open spec fn kernel(self) -> Option<Seq<Tap>> {
        match self {
            DitherMode::BAYER(_) => None,
            DitherMode::BLUENOISE(_, _) => None,
            DitherMode::FLOYDSTEINBERG(_) => Some(DIFF_MAT_FLOYD_STEINBERG@),
            DitherMode::ATKINSON(_) => Some(DIFF_MAT_ATKINSON@),
            DitherMode::JARVISJUDICENINKE(_) => Some(DIFF_MAT_JARVIS_JUDICE_NINKE@),
            DitherMode::SIERRA(_) => Some(DIFF_MAT_SIERRA@),
            DitherMode::STUCKI(_) => Some(DIFF_MAT_STUCKI@),
            DitherMode::BURKES(_) => Some(DIFF_MAT_BURKES@),
            DitherMode::STEVENSONARCE(_) => Some(DIFF_MAT_STEVENSON_ARCE@),
            DitherMode::SIERRA2(_) => Some(DIFF_MAT_TWO_ROW_SIERRA@),
            DitherMode::SIERRALITE(_) => Some(DIFF_MAT_SIERRA_LITE@),
            DitherMode::FAN(_) => Some(DIFF_MAT_FAN@),
            DitherMode::K3M(_) => Some(DIFF_MAT_K3M@),
            DitherMode::LIWAN(_) => Some(DIFF_MAT_LI_WAN@),
            DitherMode::PJARRI(_) => Some(DIFF_MAT_PJARRI@),
            DitherMode::SHIAUFAN(_) => Some(DIFF_MAT_SHIAU_FAN@),
            DitherMode::IMPROVEDSTUCKI(_) => Some(DIFF_MAT_IMPROVED_STUCKI@),
        }
    }

    /// The name of the palette file of the mode; ordered dithering has
    /// none.
    pub open spec fn palette_name_spec(self) -> Option<&'static str> {
        match self {
            DitherMode::BAYER(_) => None,
            DitherMode::BLUENOISE(_, name) => Some(name),
            DitherMode::FLOYDSTEINBERG(name) => Some(name),
            DitherMode::ATKINSON(name) => Some(name),
            DitherMode::JARVISJUDICENINKE(name) => Some(name),
            DitherMode::SIERRA(name) => Some(name),
            DitherMode::STUCKI(name) => Some(name),
            DitherMode::BURKES(name) => Some(name),
            DitherMode::STEVENSONARCE(name) => Some(name),
            DitherMode::SIERRA2(name) => Some(name),
            DitherMode::SIERRALITE(name) => Some(name),
            DitherMode::FAN(name) => Some(name),
            DitherMode::K3M(name) => Some(name),
            DitherMode::LIWAN(name) => Some(name),
            DitherMode::PJARRI(name) => Some(name),
            DitherMode::SHIAUFAN(name) => Some(name),
            DitherMode::IMPROVEDSTUCKI(name) => Some(name),
        }
    }

    /// The name of the palette file of the mode; ordered dithering has
    /// none.
    pub fn palette_name(&self) -> (name: Option<&'static str>)
        ensures
            name == self.palette_name_spec(),
    {
        match *self {
            DitherMode::BAYER(_) => None,
            DitherMode::BLUENOISE(_, name) => Some(name),
            DitherMode::FLOYDSTEINBERG(name) => Some(name),
            DitherMode::ATKINSON(name) => Some(name),
            DitherMode::JARVISJUDICENINKE(name) => Some(name),
            DitherMode::SIERRA(name) => Some(name),
            DitherMode::STUCKI(name) => Some(name),
            DitherMode::BURKES(name) => Some(name),
            DitherMode::STEVENSONARCE(name) => Some(name),
            DitherMode::SIERRA2(name) => Some(name),
            DitherMode::SIERRALITE(name) => Some(name),
            DitherMode::FAN(name) => Some(name),
            DitherMode::K3M(name) => Some(name),
            DitherMode::LIWAN(name) => Some(name),
            DitherMode::PJARRI(name) => Some(name),
            DitherMode::SHIAUFAN(name) => Some(name),
            DitherMode::IMPROVEDSTUCKI(name) => Some(name),
        }
    }

    /// The inputs that the mode rejects: an empty raster always; an order
    /// above `MAX_BAYER_ORDER` for ordered dithering; an empty palette for
    /// every other mode.
    pub open spec fn rejects(self, g: Grid, palette: Seq<Color>) -> bool {
        match self {
            DitherMode::BAYER(order) => g.pixels.len() == 0 || order > MAX_BAYER_ORDER,
            _ => g.pixels.len() == 0 || palette.len() == 0,
        }
    }

    /// `after` is what the mode may make of the raster `before` with the
    /// given palette.
    pub open spec fn produces(self, before: Grid, palette: Seq<Color>, after: Grid) -> bool {
        match self {
            DitherMode::BAYER(order) => after == (Grid {
                width: before.width,
                height: before.height,
                pixels: ordered_pixels(
                    before,
                    order as nat,
                    average_distance(distinct_colors(before.pixels)),
                ),
            }),
            DitherMode::BLUENOISE(bucket, _) => exists|level: u8, noise: Seq<u8>|
                {
                    &&& in_bucket(bucket, level)
                    &&& noise.len() == before.pixels.len()
                    &&& after == #[trigger] blue_noise_pass(
                        before,
                        palette,
                        level,
                        noise,
                        noise.len() as int,
                    )
                },
            _ => self.kernel() is Some && after == error_diffusion(
                before,
                palette,
                self.kernel()->Some_0,
            ),
        }
    }
}

/// A dithering mode ready to be applied.
#[derive(Debug)]
pub struct Ditherer {
    pub dither_mode: DitherMode,
}

impl Ditherer {
    /// Makes the ditherer of a mode.
    pub fn new(dither_mode: DitherMode) -> (d: Ditherer)
        ensures
            d.dither_mode == dither_mode,
    {
        Ditherer { dither_mode }
    }

    /// Dithers a raster in the mode of this ditherer, against the given
    /// palette. Ordered dithering does not use the palette. An input that
    /// the mode rejects leaves the raster as it is.
    pub fn dither(&self, image: &mut PixelBuffer, palette: &Vec<Color>) -> (r: Result<
        (),
        PixelError,
    >)
        requires
            old(image).wf(),
        ensures
            final(image).wf(),
            self.dither_mode.rejects(old(image)@, palette@) ==> r == Err::<(), PixelError>(
                PixelError::InvalidArgument,
            ) && final(image)@ == old(image)@,
            !self.dither_mode.rejects(old(image)@, palette@) ==> r is Ok
                && self.dither_mode.produces(old(image)@, palette@, final(image)@),
    {
        proof {
            lemma_catalogue_sound();
        }
        match self.dither_mode {
            DitherMode::BAYER(order) => bayer_dithering(image, order),
            DitherMode::BLUENOISE(threshold, _) => blue_noise_dither(image, threshold, palette),
            DitherMode::FLOYDSTEINBERG(_) => generic_error_diffusion_dither(
                image,
                palette,
                &DIFF_MAT_FLOYD_STEINBERG,
            ),
            DitherMode::ATKINSON(_) => generic_error_diffusion_dither(
                image,
                palette,
                &DIFF_MAT_ATKINSON,
            ),
            DitherMode::JARVISJUDICENINKE(_) => generic_error_diffusion_dither(
                image,
                palette,
                &DIFF_MAT_JARVIS_JUDICE_NINKE,
            ),
            DitherMode::SIERRA(_) => generic_error_diffusion_dither(
                image,
                palette,
                &DIFF_MAT_SIERRA,
            ),
            DitherMode::STUCKI(_) => generic_error_diffusion_dither(
                image,
                palette,
                &DIFF_MAT_STUCKI,
            ),
            DitherMode::BURKES(_) => generic_error_diffusion_dither(
                image,
                palette,
                &DIFF_MAT_BURKES,
            ),
            DitherMode::STEVENSONARCE(_) => generic_error_diffusion_dither(
                image,
                palette,
                &DIFF_MAT_STEVENSON_ARCE,
            ),
            DitherMode::SIERRA2(_) => generic_error_diffusion_dither(
                image,
                palette,
                &DIFF_MAT_TWO_ROW_SIERRA,
            ),
            DitherMode::SIERRALITE(_) => generic_error_diffusion_dither(
                image,
                palette,
                &DIFF_MAT_SIERRA_LITE,
            ),
            DitherMode::FAN(_) => generic_error_diffusion_dither(image, palette, &DIFF_MAT_FAN),
            DitherMode::K3M(_) => generic_error_diffusion_dither(image, palette, &DIFF_MAT_K3M),
            DitherMode::LIWAN(_) => generic_error_diffusion_dither(
                image,
                palette,
                &DIFF_MAT_LI_WAN,
            ),
            DitherMode::PJARRI(_) => generic_error_diffusion_dither(
                image,
                palette,
                &DIFF_MAT_PJARRI,
            ),
            DitherMode::SHIAUFAN(_) => generic_error_diffusion_dither(
                image,
                palette,
                &DIFF_MAT_SHIAU_FAN,
            ),
            DitherMode::IMPROVEDSTUCKI(_) => generic_error_diffusion_dither(
                image,
                palette,
                &DIFF_MAT_IMPROVED_STUCKI,
            ),
        }
    }
}

/// What error diffusion does at the cell `(x, y)`: the pixel becomes its
/// nearest palette colour, and the difference between what it was and what
/// it became is spread over its neighbours by the kernel.
pub open spec fn diffusion_step(
    g: Grid,
    x: int,
    y: int,
    palette: Seq<Color>,
    kernel: Seq<Tap>,
) -> Grid {
    let old_color = g.at(x, y);
    let new_color = nearest_color(palette, old_color);
    diffuse(g.set(x, y, new_color), x, y, kernel, error_spec(old_color, new_color))
}

/// The raster after error diffusion has handled its first `done` pixels in
/// raster order: row by row from the top, each row from the left.
pub open spec fn diffusion_pass(g: Grid, palette: Seq<Color>, kernel: Seq<Tap>, done: int) -> Grid
    decreases done,
{
    if done <= 0 {
        g
    } else {
        let before = diffusion_pass(g, palette, kernel, done - 1);
        diffusion_step(before, g.column_of(done - 1), g.row_of(done - 1), palette, kernel)
    }
}

/// The raster after error diffusion has handled every pixel.
pub open spec fn error_diffusion(g: Grid, palette: Seq<Color>, kernel: Seq<Tap>) -> Grid {
    diffusion_pass(g, palette, kernel, g.pixels.len() as int)
}

/// A step of error diffusion keeps the shape of the raster.
pub proof fn lemma_diffusion_step_shape(
    g: Grid,
    x: int,
    y: int,
    palette: Seq<Color>,
    kernel: Seq<Tap>,
)
    requires
        g.wf(),
        g.contains(x, y),
    ensures
        diffusion_step(g, x, y, palette, kernel).wf(),
        diffusion_step(g, x, y, palette, kernel).width == g.width,
        diffusion_step(g, x, y, palette, kernel).height == g.height,
{
    let old_color = g.at(x, y);
    let new_color = nearest_color(palette, old_color);
    lemma_offset(g, x, y);
    lemma_diffuse_shape(g.set(x, y, new_color), x, y, kernel, error_spec(old_color, new_color));
}

/// Error diffusion keeps the shape of the raster.
pub proof fn lemma_diffusion_pass_shape(
    g: Grid,
    palette: Seq<Color>,
    kernel: Seq<Tap>,
    done: int,
)
    requires
        g.wf(),
        done <= g.pixels.len(),
    ensures
        diffusion_pass(g, palette, kernel, done).wf(),
        diffusion_pass(g, palette, kernel, done).width == g.width,
        diffusion_pass(g, palette, kernel, done).height == g.height,
    decreases done,
{
    if done > 0 {
        lemma_diffusion_pass_shape(g, palette, kernel, done - 1);
        lemma_position(g, done - 1);
        let before = diffusion_pass(g, palette, kernel, done - 1);
        lemma_diffusion_step_shape(
            before,
            g.column_of(done - 1),
            g.row_of(done - 1),
            palette,
            kernel,
        );
    }
}

/// A causal kernel leaves the pixel it works for, and every pixel before it
/// in raster order, as they are.
pub proof fn lemma_diffuse_causal(
    g: Grid,
    x: int,
    y: int,
    kernel: Seq<Tap>,
    e: ColorError,
    q: int,
)
    requires
        g.wf(),
        g.contains(x, y),
        kernel_causal(kernel),
        0 <= q <= g.offset(x, y),
    ensures
        diffuse(g, x, y, kernel, e).pixels[q] == g.pixels[q],
    decreases kernel.len(),
{
    if kernel.len() > 0 {
        let shorter = kernel.drop_last();
        assert forall|i: int| 0 <= i < shorter.len() implies tap_causal(#[trigger] shorter[i]) by {
            assert(shorter[i] == kernel[i]);
        }
        lemma_diffuse_causal(g, x, y, shorter, e, q);
        lemma_diffuse_shape(g, x, y, shorter, e);
        let before = diffuse(g, x, y, shorter, e);
        let t = kernel.last();
        assert(tap_causal(kernel[kernel.len() - 1]));
        let nx = x + t.0.0;
        let ny = y + t.0.1;
        if before.contains(nx, ny) {
            lemma_offset(before, nx, ny);
            let w = g.width as int;
            assert(ny * w + nx > y * w + x) by (nonlinear_arith)
                requires
                    0 <= nx < w,
                    0 <= x < w,
                    ny > y || (ny == y && nx > x),
            ;
        }
    }
}

/// With a causal kernel, the first `done` pixels of the raster that error
/// diffusion has reached are palette colours.
pub proof fn lemma_diffusion_pass_in_palette(
    g: Grid,
    palette: Seq<Color>,
    kernel: Seq<Tap>,
    done: int,
    q: int,
)
    requires
        g.wf(),
        palette.len() > 0,
        kernel_causal(kernel),
        0 <= q < done <= g.pixels.len(),
    ensures
        palette.contains(diffusion_pass(g, palette, kernel, done).pixels[q]),
    decreases done,
{
    let before = diffusion_pass(g, palette, kernel, done - 1);
    lemma_diffusion_pass_shape(g, palette, kernel, done - 1);
    lemma_position(g, done - 1);
    let x = g.column_of(done - 1);
    let y = g.row_of(done - 1);
    let old_color = before.at(x, y);
    let new_color = nearest_color(palette, old_color);
    let placed = before.set(x, y, new_color);
    lemma_offset(before, x, y);
    lemma_diffuse_causal(placed, x, y, kernel, error_spec(old_color, new_color), q);
    if q == done - 1 {
        lemma_nearest_index(palette, old_color);
        assert(placed.pixels[q] == palette[nearest_index(palette, old_color)]);
    } else {
        lemma_diffusion_pass_in_palette(g, palette, kernel, done - 1, q);
    }
}

/// Dithers a raster by error diffusion against a palette. Pixels are
/// handled in raster order. Each one is replaced by its nearest palette
/// colour, and the difference between what it was and what it became is
/// spread over the neighbours the kernel names, so that later pixels see
/// the errors of earlier ones.
///
/// An empty raster, an empty palette or a kernel with an unusable entry is
/// rejected, and the raster stays as it is. With a causal kernel the result
/// holds palette colours only.
pub fn generic_error_diffusion_dither(
    image: &mut PixelBuffer,
    palette: &Vec<Color>,
    diff_mat: &[Tap],
) -> (r: Result<(), PixelError>)
    requires
        old(image).wf(),
    ensures
        final(image).wf(),
        old(image)@.pixels.len() == 0 || palette@.len() == 0 || !kernel_valid(diff_mat@) ==> r
            == Err::<(), PixelError>(PixelError::InvalidArgument) && final(image)@ == old(image)@,
        old(image)@.pixels.len() > 0 && palette@.len() > 0 && kernel_valid(diff_mat@) ==> r is Ok
            && final(image)@ == error_diffusion(old(image)@, palette@, diff_mat@),
        r is Ok && kernel_causal(diff_mat@) ==> forall|q: int|
            0 <= q < final(image)@.pixels.len() ==> palette@.contains(
                #[trigger] final(image)@.pixels[q],
            ),
{
    if image.len() == 0 || palette.len() == 0 || !kernel_is_valid(diff_mat) {
        return Err(PixelError::InvalidArgument);
    }
    let width = image.width();
    let height = image.height();
    let ghost start = image@;
    let mut y: u32 = 0;
    while y < height
        invariant
            start.wf(),
            start.width == width,
            start.height == height,
            palette@.len() > 0,
            kernel_valid(diff_mat@),
            image.wf(),
            y <= height,
            image@ == diffusion_pass(start, palette@, diff_mat@, y * width),
        decreases height - y,
    {
        let mut x: u32 = 0;
        proof {
            assert(y * width + 0 == y * width);
        }
        while x < width
            invariant
                start.wf(),
                start.width == width,
                start.height == height,
                palette@.len() > 0,
                kernel_valid(diff_mat@),
                image.wf(),
                y < height,
                x <= width,
                image@ == diffusion_pass(start, palette@, diff_mat@, y * width + x),
            decreases width - x,
        {
            proof {
                lemma_offset(start, x as int, y as int);
                lemma_diffusion_pass_shape(start, palette@, diff_mat@, y * width + x);
            }
            let old_color = image.get_pixel(x, y);
            let new_color = palette[closest_index(&old_color, palette)];
            image.put_pixel(x, y, new_color);
            let error = calculate_error(&old_color, &new_color);
            spread(x, y, diff_mat, error, image);
            x = x + 1;
        }
        proof {
            assert((y + 1) * width == y * width + width) by (nonlinear_arith);
        }
        y = y + 1;
    }
    proof {
        assert(height * width == width * height) by (nonlinear_arith);
        if kernel_causal(diff_mat@) {
            assert forall|q: int| 0 <= q < image@.pixels.len() implies palette@.contains(
                #[trigger] image@.pixels[q],
            ) by {
                lemma_diffusion_pass_shape(start, palette@, diff_mat@, start.pixels.len() as int);
                lemma_diffusion_pass_in_palette(
                    start,
                    palette@,
                    diff_mat@,
                    start.pixels.len() as int,
                    q,
                );
            }
        }
    }
    Ok(())
}

/// A quantized colour moved a quarter of the way back toward the colour it
/// replaced: each channel plus a quarter of its error, rounded toward zero.
pub open spec fn softened(quantized: Color, e: ColorError) -> Color {
    Color {
        r: (quantized.r + share(e.r as int, 1, 4)) as u8,
        g: (quantized.g + share(e.g as int, 1, 4)) as u8,
        b: (quantized.b + share(e.b as int, 1, 4)) as u8,
    }
}

/// A channel moved a quarter of the way back toward the value it replaced
/// stays between the quantized and the replaced value, so it is a channel
/// value again.
pub proof fn lemma_softened_channel(source: int, quantized: int)
    requires
        0 <= source <= 255,
        0 <= quantized <= 255,
    ensures
        source >= quantized ==> quantized <= quantized + share(source - quantized, 1, 4)
            <= source,
        source <= quantized ==> source <= quantized + share(source - quantized, 1, 4)
            <= quantized,
{
    lemma_share_bounds(source - quantized, 1, 4);
}

/// What noise-gated dithering does at the cell `(x, y)` with the noise byte
/// drawn for it: the pixel becomes its nearest palette colour, softened
/// when the noise byte exceeds the threshold; then the whole quantization
/// error is spread by the Floyd-Steinberg kernel.
pub open spec fn blue_noise_step(
    g: Grid,
    x: int,
    y: int,
    palette: Seq<Color>,
    level: u8,
    noise: u8,
) -> Grid {
    let old_color = g.at(x, y);
    let new_color = nearest_color(palette, old_color);
    let e = error_spec(old_color, new_color);
    let shown = if noise > level {
        softened(new_color, e)
    } else {
        new_color
    };
    diffuse(g.set(x, y, shown), x, y, DIFF_MAT_FLOYD_STEINBERG@, e)
}

/// The raster after noise-gated dithering has handled its first `done`
/// pixels in raster order, pixel `p` with noise byte `noise[p]`.
pub open spec fn blue_noise_pass(
    g: Grid,
    palette: Seq<Color>,
    level: u8,
    noise: Seq<u8>,
    done: int,
) -> Grid
    decreases done,
{
    if done <= 0 {
        g
    } else {
        let before = blue_noise_pass(g, palette, level, noise, done - 1);
        blue_noise_step(
            before,
            g.column_of(done - 1),
            g.row_of(done - 1),
            palette,
            level,
            noise[done - 1],
        )
    }
}

/// Noise-gated dithering keeps the shape of the raster.
pub proof fn lemma_blue_noise_pass_shape(
    g: Grid,
    palette: Seq<Color>,
    level: u8,
    noise: Seq<u8>,
    done: int,
)
    requires
        g.wf(),
        done <= g.pixels.len(),
    ensures
        blue_noise_pass(g, palette, level, noise, done).wf(),
        blue_noise_pass(g, palette, level, noise, done).width == g.width,
        blue_noise_pass(g, palette, level, noise, done).height == g.height,
    decreases done,
{
    if done > 0 {
        lemma_blue_noise_pass_shape(g, palette, level, noise, done - 1);
        lemma_position(g, done - 1);
        let before = blue_noise_pass(g, palette, level, noise, done - 1);
        let x = g.column_of(done - 1);
        let y = g.row_of(done - 1);
        let old_color = before.at(x, y);
        let new_color = nearest_color(palette, old_color);
        let e = error_spec(old_color, new_color);
        let shown = if noise[done - 1] > level {
            softened(new_color, e)
        } else {
            new_color
        };
        lemma_offset(before, x, y);
        lemma_diffuse_shape(before.set(x, y, shown), x, y, DIFF_MAT_FLOYD_STEINBERG@, e);
    }
}

/// Moves a quantized colour a quarter of the way back toward the colour it
/// replaced.
pub fn soften(source: &Color, quantized: &Color) -> (c: Color)
    ensures
        c == softened(*quantized, error_spec(*source, *quantized)),
{
    let e = calculate_error(source, quantized);
    proof {
        lemma_softened_channel(source.r as int, quantized.r as int);
        lemma_softened_channel(source.g as int, quantized.g as int);
        lemma_softened_channel(source.b as int, quantized.b as int);
    }
    Color {
        r: (quantized.r as i64 + share_of(e.r, 1, 4)) as u8,
        g: (quantized.g as i64 + share_of(e.g, 1, 4)) as u8,
        b: (quantized.b as i64 + share_of(e.b, 1, 4)) as u8,
    }
}

/// Dithers a raster against a palette with a given threshold and one given
/// noise byte per pixel. Pixels are handled in raster order. Each one is
/// replaced by its nearest palette colour, moved a quarter of the way back
/// toward its old value when its noise byte exceeds the threshold; the
/// whole quantization error is then spread by the Floyd-Steinberg kernel.
///
/// An empty raster, an empty palette, or a noise sequence that does not
/// have one byte per pixel is rejected, and the raster stays as it is.
pub fn blue_noise_dither_with(
    image: &mut PixelBuffer,
    palette: &Vec<Color>,
    level: u8,
    noise: &Vec<u8>,
) -> (r: Result<(), PixelError>)
    requires
        old(image).wf(),
    ensures
        final(image).wf(),
        old(image)@.pixels.len() == 0 || palette@.len() == 0 || noise@.len() != old(
            image
        )@.pixels.len() ==> r == Err::<(), PixelError>(PixelError::InvalidArgument)
            && final(image)@ == old(image)@,
        old(image)@.pixels.len() > 0 && palette@.len() > 0 && noise@.len() == old(
            image
        )@.pixels.len() ==> r is Ok && final(image)@ == blue_noise_pass(
            old(image)@,
            palette@,
            level,
            noise@,
            noise@.len() as int,
        ),
{
    if image.len() == 0 || palette.len() == 0 || noise.len() != image.len() {
        return Err(PixelError::InvalidArgument);
    }
    let width = image.width();
    let height = image.height();
    let ghost start = image@;
    let mut p: usize = 0;
    let mut y: u32 = 0;
    while y < height
        invariant
            start.wf(),
            start.width == width,
            start.height == height,
            noise@.len() == start.pixels.len(),
            start.pixels.len() <= usize::MAX,
            palette@.len() > 0,
            image.wf(),
            y <= height,
            p == y * width,
            image@ == blue_noise_pass(start, palette@, level, noise@, p as int),
        decreases height - y,
    {
        let mut x: u32 = 0;
        while x < width
            invariant
                start.wf(),
                start.width == width,
                start.height == height,
                noise@.len() == start.pixels.len(),
                start.pixels.len() <= usize::MAX,
                palette@.len() > 0,
                image.wf(),
                y < height,
                x <= width,
                p == y * width + x,
                image@ == blue_noise_pass(start, palette@, level, noise@, p as int),
            decreases width - x,
        {
            proof {
                lemma_offset(start, x as int, y as int);
                lemma_blue_noise_pass_shape(start, palette@, level, noise@, p as int);
            }
            let old_color = image.get_pixel(x, y);
            let new_color = palette[closest_index(&old_color, palette)];
            let error = calculate_error(&old_color, &new_color);
            if noise[p] > level {
                image.put_pixel(x, y, soften(&old_color, &new_color));
            } else {
                image.put_pixel(x, y, new_color);
            }
            proof {
                lemma_catalogue_sound();
            }
            spread(x, y, &DIFF_MAT_FLOYD_STEINBERG, error, image);
            x = x + 1;
            p = p + 1;
        }
        proof {
            assert((y + 1) * width == y * width + width) by (nonlinear_arith);
        }
        y = y + 1;
    }
    proof {
        assert(height * width == width * height) by (nonlinear_arith);
    }
    Ok(())
}

/// Draws one noise byte per pixel.
fn draw_noise(count: usize) -> (noise: Vec<u8>)
    ensures
        noise@.len() == count,
{
    let mut noise: Vec<u8> = Vec::new();
    let mut i: usize = 0;
    while i < count
        invariant
            i <= count,
            noise@.len() == i,
        decreases count - i,
    {
        noise.push(random_byte());
        i = i + 1;
    }
    noise
}

/// Dithers a raster against a palette with noise-gated error diffusion.
/// One threshold is drawn from the range that `threshold` names, then one
/// noise byte per pixel, and `blue_noise_dither_with` does the rest.
///
/// An empty raster or an empty palette is rejected, and the raster stays as
/// it is.
pub fn blue_noise_dither(
    image: &mut PixelBuffer,
    threshold: BlueNoiseThreshold,
    palette: &Vec<Color>,
) -> (r: Result<(), PixelError>)
    requires
        old(image).wf(),
    ensures
        final(image).wf(),
        old(image)@.pixels.len() == 0 || palette@.len() == 0 ==> r == Err::<(), PixelError>(
            PixelError::InvalidArgument,
        ) && final(image)@ == old(image)@,
        old(image)@.pixels.len() > 0 && palette@.len() > 0 ==> r is Ok,
        r is Ok ==> exists|level: u8, noise: Seq<u8>|
            {
                &&& in_bucket(threshold, level)
                &&& noise.len() == old(image)@.pixels.len()
                &&& final(image)@ == #[trigger] blue_noise_pass(
                    old(image)@,
                    palette@,
                    level,
                    noise,
                    noise.len() as int,
                )
            },
{
    if image.len() == 0 || palette.len() == 0 {
        return Err(PixelError::InvalidArgument);
    }
    let level = gen_blue_noise_threshold(threshold);
    let noise = draw_noise(image.len());
    blue_noise_dither_with(image, palette, level, &noise)
}

/// The largest order of a threshold matrix that this library builds. A
/// matrix of order 15 has `2^30` cells with values below `2^30`.
pub const MAX_BAYER_ORDER: u32 = 15;

/// The side of a threshold matrix of the given order, `2^order`.
pub open spec fn bayer_size(order: nat) -> int
    decreases order,
{
    if order == 0 {
        1
    } else {
        2 * bayer_size((order - 1) as nat)
    }
}

/// The number of cells of a threshold matrix of the given order,
/// `4^order`.
pub open spec fn bayer_cells(order: nat) -> int
    decreases order,
{
    if order == 0 {
        1
    } else {
        4 * bayer_cells((order - 1) as nat)
    }
}

/// What a quadrant adds to four times the value of the cell it repeats:
/// nothing at the top left, 2 at the top right, 3 at the bottom left, 1 at
/// the bottom right.
pub open spec fn quadrant_offset(lower: bool, right: bool) -> int {
    if !lower && !right {
        0
    } else if !lower && right {
        2
    } else if lower && !right {
        3
    } else {
        1
    }
}

/// The value at `(row, col)` of the threshold matrix of the given order.
/// The matrix of order 0 is the single cell 0. The matrix of order `k` is
/// that of order `k - 1` repeated in four quadrants, each value `v`
/// replaced by `4 * v` plus the offset of the quadrant.
pub open spec fn bayer_value(order: nat, row: int, col: int) -> int
    decreases order,
{
    if order == 0 {
        0
    } else {
        let half = bayer_size((order - 1) as nat);
        4 * bayer_value((order - 1) as nat, row % half, col % half) + quadrant_offset(
            row >= half,
            col >= half,
        )
    }
}

/// `matrix` is the threshold matrix of the given order.
pub open spec fn is_bayer_matrix(matrix: Seq<Vec<u32>>, order: nat) -> bool {
    &&& matrix.len() == bayer_size(order)
    &&& forall|i: int| 0 <= i < matrix.len() ==> (#[trigger] matrix[i])@.len() == bayer_size(order)
    &&& forall|i: int, j: int|
        0 <= i < bayer_size(order) && 0 <= j < bayer_size(order) ==> (#[trigger] matrix[i]@[j])
            == bayer_value(order, i, j)
}

/// The side of a matrix is positive, and its square is the number of
/// cells.
pub proof fn lemma_bayer_size(order: nat)
    ensures
        bayer_size(order) >= 1,
        bayer_cells(order) >= 1,
        bayer_size(order) * bayer_size(order) == bayer_cells(order),
    decreases order,
{
    if order > 0 {
        lemma_bayer_size((order - 1) as nat);
        let s = bayer_size((order - 1) as nat);
        assert((2 * s) * (2 * s) == 4 * (s * s)) by (nonlinear_arith);
    }
}

/// Up to the largest order the side of a matrix is at most `2^15` and it
/// has at most `2^30` cells.
pub proof fn lemma_bayer_limits(order: nat)
    requires
        order <= MAX_BAYER_ORDER,
    ensures
        bayer_size(order) <= 0x8000,
        bayer_cells(order) <= 0x4000_0000,
    decreases MAX_BAYER_ORDER - order,
{
    if order == MAX_BAYER_ORDER {
        assert(bayer_size(15) == 0x8000) by {
            reveal_with_fuel(bayer_size, 16);
        }
        assert(bayer_cells(15) == 0x4000_0000) by {
            reveal_with_fuel(bayer_cells, 16);
        }
    } else {
        lemma_bayer_limits(order + 1);
    }
}

/// Every value of a threshold matrix lies in `[0, 4^order - 1]`.
pub proof fn lemma_bayer_value_range(order: nat, row: int, col: int)
    ensures
        0 <= bayer_value(order, row, col) < bayer_cells(order),
    decreases order,
{
    if order > 0 {
        let half = bayer_size((order - 1) as nat);
        lemma_bayer_value_range((order - 1) as nat, row % half, col % half);
    }
}

/// No two cells of a threshold matrix hold the same value.
pub proof fn lemma_bayer_values_differ(order: nat, row1: int, col1: int, row2: int, col2: int)
    requires
        0 <= row1 < bayer_size(order),
        0 <= col1 < bayer_size(order),
        0 <= row2 < bayer_size(order),
        0 <= col2 < bayer_size(order),
        bayer_value(order, row1, col1) == bayer_value(order, row2, col2),
    ensures
        row1 == row2,
        col1 == col2,
    decreases order,
{
    if order > 0 {
        let below = (order - 1) as nat;
        let half = bayer_size(below);
        lemma_bayer_size(below);
        lemma_bayer_value_range(below, row1 % half, col1 % half);
        lemma_bayer_value_range(below, row2 % half, col2 % half);
        assert(0 <= row1 % half < half && row1 == (if row1 >= half {
            half
        } else {
            0
        }) + row1 % half) by (nonlinear_arith)
            requires
                0 <= row1 < 2 * half,
                half >= 1,
        ;
        assert(0 <= row2 % half < half && row2 == (if row2 >= half {
            half
        } else {
            0
        }) + row2 % half) by (nonlinear_arith)
            requires
                0 <= row2 < 2 * half,
                half >= 1,
        ;
        assert(0 <= col1 % half < half && col1 == (if col1 >= half {
            half
        } else {
            0
        }) + col1 % half) by (nonlinear_arith)
            requires
                0 <= col1 < 2 * half,
                half >= 1,
        ;
        assert(0 <= col2 % half < half && col2 == (if col2 >= half {
            half
        } else {
            0
        }) + col2 % half) by (nonlinear_arith)
            requires
                0 <= col2 < 2 * half,
                half >= 1,
        ;
        lemma_bayer_values_differ(below, row1 % half, col1 % half, row2 % half, col2 % half);
    }
}

/// Builds the threshold matrix of an order up to the largest.
fn bayer_matrix(order: u32) -> (matrix: Vec<Vec<u32>>)
    requires
        order <= MAX_BAYER_ORDER,
    ensures
        is_bayer_matrix(matrix@, order as nat),
    decreases order,
{
    if order == 0 {
        let mut row: Vec<u32> = Vec::new();
        row.push(0);
        let mut matrix: Vec<Vec<u32>> = Vec::new();
        matrix.push(row);
        return matrix;
    }
    let previous = bayer_matrix(order - 1);
    let size = previous.len();
    proof {
        lemma_bayer_limits((order - 1) as nat);
        lemma_bayer_limits(order as nat);
        lemma_bayer_size((order - 1) as nat);
    }
    let new_size = size * 2;
    let mut matrix: Vec<Vec<u32>> = Vec::new();
    let mut i: usize = 0;
    while i < new_size
        invariant
            0 < order <= MAX_BAYER_ORDER,
            is_bayer_matrix(previous@, (order - 1) as nat),
            size == bayer_size((order - 1) as nat),
            1 <= size <= 0x8000,
            new_size == 2 * size,
            i <= new_size,
            matrix@.len() == i,
            forall|k: int| 0 <= k < i ==> (#[trigger] matrix@[k])@.len() == new_size,
            forall|k: int, j: int|
                0 <= k < i && 0 <= j < new_size ==> (#[trigger] matrix@[k]@[j]) == bayer_value(
                    order as nat,
                    k,
                    j,
                ),
        decreases new_size - i,
    {
        let mut row: Vec<u32> = Vec::new();
        let mut j: usize = 0;
        while j < new_size
            invariant
                0 < order <= MAX_BAYER_ORDER,
                is_bayer_matrix(previous@, (order - 1) as nat),
                size == bayer_size((order - 1) as nat),
                1 <= size <= 0x8000,
                new_size == 2 * size,
                i < new_size,
                j <= new_size,
                row@.len() == j,
                forall|m: int|
                    0 <= m < j ==> (#[trigger] row@[m]) == bayer_value(order as nat, i as int, m),
            decreases new_size - j,
        {
            let source = previous[i % size][j % size];
            proof {
                lemma_bayer_value_range((order - 1) as nat, (i % size) as int, (j % size) as int);
                lemma_bayer_limits((order - 1) as nat);
                assert(previous@[(i % size) as int]@[(j % size) as int] == bayer_value(
                    (order - 1) as nat,
                    (i % size) as int,
                    (j % size) as int,
                ));
            }
            let offset: u32 = if i < size {
                if j < size {
                    0
                } else {
                    2
                }
            } else {
                if j < size {
                    3
                } else {
                    1
                }
            };
            row.push(4 * source + offset);
            j = j + 1;
        }
        matrix.push(row);
        i = i + 1;
    }
    matrix
}

/// Builds the threshold matrix of the given order: a square matrix of side
/// `2^order` with values in `[0, 4^order - 1]`, none of them twice. An
/// order above `MAX_BAYER_ORDER` is rejected.
pub fn generate_bayer_matrix(order: u32) -> (r: Result<Vec<Vec<u32>>, PixelError>)
    ensures
        order > MAX_BAYER_ORDER ==> r is Err && r->Err_0 == PixelError::InvalidArgument,
        order <= MAX_BAYER_ORDER ==> r is Ok && is_bayer_matrix(r->Ok_0@, order as nat),
{
    if order > MAX_BAYER_ORDER {
        return Err(PixelError::InvalidArgument);
    }
    Ok(bayer_matrix(order))
}

/// The threshold for the cell `(x, y)` of a raster in units of
/// `1 / 4^order`: 255 times the matrix value that the cell falls on when
/// the matrix is tiled over the raster.
pub open spec fn threshold_at(order: nat, x: int, y: int) -> int {
    255 * bayer_value(order, y % bayer_size(order), x % bayer_size(order))
}

/// Looks up the threshold for the cell `(x, y)` of a raster, in units of
/// `1 / 4^order`.
pub fn bayer_threshold(matrix: &Vec<Vec<u32>>, order: u32, x: u32, y: u32) -> (t: u64)
    requires
        order <= MAX_BAYER_ORDER,
        is_bayer_matrix(matrix@, order as nat),
    ensures
        t as int == threshold_at(order as nat, x as int, y as int),
        t < 255 * bayer_cells(order as nat),
{
    proof {
        lemma_bayer_size(order as nat);
        lemma_bayer_limits(order as nat);
    }
    let size = matrix.len();
    let row = y as usize % size;
    let col = x as usize % size;
    proof {
        lemma_bayer_value_range(order as nat, row as int, col as int);
        assert(matrix@[row as int]@[col as int] == bayer_value(
            order as nat,
            row as int,
            col as int,
        ));
    }
    255 * (matrix[row][col] as u64)
}

/// What ordered dithering makes of a channel value `v` under a threshold
/// of `threshold / cells`: zero unless the value exceeds the threshold,
/// else the value plus the mean palette distance times the threshold,
/// rounded down and held to 255. The mean distance `avg` is in units of
/// `1 / DISTANCE_SCALE`.
pub open spec fn ordered_channel(v: int, threshold: int, cells: int, avg: int) -> u8 {
    if v * cells > threshold {
        let raised = v + (avg * threshold) / (DISTANCE_SCALE * cells);
        if raised > 255 {
            255u8
        } else {
            raised as u8
        }
    } else {
        0u8
    }
}

/// What ordered dithering makes of a colour: `ordered_channel` of each
/// channel.
pub open spec fn ordered_color(c: Color, threshold: int, cells: int, avg: int) -> Color {
    Color {
        r: ordered_channel(c.r as int, threshold, cells, avg),
        g: ordered_channel(c.g as int, threshold, cells, avg),
        b: ordered_channel(c.b as int, threshold, cells, avg),
    }
}

/// The pixels of a raster after ordered dithering of the given order with
/// the mean palette distance `avg`.
pub open spec fn ordered_pixels(g: Grid, order: nat, avg: int) -> Seq<Color> {
    Seq::new(
        g.pixels.len(),
        |p: int|
            ordered_color(
                g.pixels[p],
                threshold_at(order, g.column_of(p), g.row_of(p)),
                bayer_cells(order),
                avg,
            ),
    )
}

/// Computes what ordered dithering makes of a channel value.
fn order_channel(v: u8, threshold: u64, cells: u64, avg: u64) -> (r: u8)
    requires
        1 <= cells <= 0x4000_0000,
        threshold < 255 * cells,
        avg < SCALED_DISTANCE_LIMIT,
    ensures
        r == ordered_channel(v as int, threshold as int, cells as int, avg as int),
{
    proof {
        assert(v * cells <= 255 * 0x4000_0000) by (nonlinear_arith)
            requires
                0 <= v <= 255,
                0 <= cells <= 0x4000_0000,
        ;
        assert(avg * threshold <= 0x200_0000 * (255 * 0x4000_0000)) by (nonlinear_arith)
            requires
                0 <= avg <= 0x200_0000,
                0 <= threshold <= 255 * 0x4000_0000,
        ;
    }
    if v as u64 * cells > threshold {
        let boost: u64 = (avg * threshold) / (DISTANCE_SCALE * cells);
        let raised: u64 = v as u64 + boost;
        if raised > 255 {
            255
        } else {
            raised as u8
        }
    } else {
        0
    }
}

/// Dithers a raster with the ordered threshold matrix of the given order.
/// The mean distance between the colours that occur in the raster is taken
/// once. Then every channel of every pixel that exceeds the threshold of
/// its cell is raised by that mean distance times the threshold, and held
/// to 255; every other channel becomes zero.
///
/// An empty raster or an order above `MAX_BAYER_ORDER` is rejected, and the
/// raster stays as it is.
pub fn bayer_dithering(image: &mut PixelBuffer, order: u32) -> (r: Result<(), PixelError>)
    requires
        old(image).wf(),
    ensures
        final(image).wf(),
        old(image)@.pixels.len() == 0 || order > MAX_BAYER_ORDER ==> r == Err::<(), PixelError>(
            PixelError::InvalidArgument,
        ) && final(image)@ == old(image)@,
        old(image)@.pixels.len() > 0 && order <= MAX_BAYER_ORDER ==> r is Ok && final(image)@
            == (Grid {
            width: old(image)@.width,
            height: old(image)@.height,
            pixels: ordered_pixels(
                old(image)@,
                order as nat,
                average_distance(distinct_colors(old(image)@.pixels)),
            ),
        }),
{
    if image.len() == 0 || order > MAX_BAYER_ORDER {
        return Err(PixelError::InvalidArgument);
    }
    let width = image.width();
    let height = image.height();
    let pal = generate_raw_palette(image);
    let avg = calculate_avg_distance_in_palette(&pal);
    let matrix = bayer_matrix(order);
    proof {
        lemma_bayer_size(order as nat);
        lemma_bayer_limits(order as nat);
    }
    let size = matrix.len();
    let cells: u64 = (size as u64) * (size as u64);
    let ghost start = image@;
    let ghost target = ordered_pixels(start, order as nat, avg as int);
    let mut y: u32 = 0;
    while y < height
        invariant
            start.wf(),
            start.width == width,
            start.height == height,
            order <= MAX_BAYER_ORDER,
            is_bayer_matrix(matrix@, order as nat),
            cells == bayer_cells(order as nat),
            1 <= cells <= 0x4000_0000,
            avg < SCALED_DISTANCE_LIMIT,
            target == ordered_pixels(start, order as nat, avg as int),
            image.wf(),
            image@.width == width,
            image@.height == height,
            y <= height,
            forall|q: int| 0 <= q < y * width ==> #[trigger] image@.pixels[q] == target[q],
            forall|q: int|
                y * width <= q < start.pixels.len() ==> #[trigger] image@.pixels[q]
                    == start.pixels[q],
        decreases height - y,
    {
        let mut x: u32 = 0;
        while x < width
            invariant
                start.wf(),
                start.width == width,
                start.height == height,
                order <= MAX_BAYER_ORDER,
                is_bayer_matrix(matrix@, order as nat),
                cells == bayer_cells(order as nat),
                1 <= cells <= 0x4000_0000,
                avg < SCALED_DISTANCE_LIMIT,
                target == ordered_pixels(start, order as nat, avg as int),
                image.wf(),
                image@.width == width,
                image@.height == height,
                y < height,
                x <= width,
                forall|q: int| 0 <= q < y * width + x ==> #[trigger] image@.pixels[q] == target[q],
                forall|q: int|
                    y * width + x <= q < start.pixels.len() ==> #[trigger] image@.pixels[q]
                        == start.pixels[q],
            decreases width - x,
        {
            proof {
                lemma_offset(start, x as int, y as int);
                lemma_offset(image@, x as int, y as int);
            }
            let pixel = image.get_pixel(x, y);
            let threshold = bayer_threshold(&matrix, order, x, y);
            let dithered = Color {
                r: order_channel(pixel.r, threshold, cells, avg),
                g: order_channel(pixel.g, threshold, cells, avg),
                b: order_channel(pixel.b, threshold, cells, avg),
            };
            image.put_pixel(x, y, dithered);
            x = x + 1;
        }
        proof {
            assert((y + 1) * width == y * width + width) by (nonlinear_arith);
        }
        y = y + 1;
    }
    proof {
        assert(height * width == width * height) by (nonlinear_arith);
        assert(image@.pixels =~= target);
    }
    Ok(())
}

} // verus!
