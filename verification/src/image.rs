//! Images with a name and a format, and recolouring by bands of rows.

use vstd::prelude::*;
use vstd::utf8::{encode_utf8, encode_utf8_decode_utf8};
use crate::buffer::{lemma_offset, lemma_position, Grid, PixelBuffer};
use crate::colour::Color;
use crate::ditherer::{DitherMode, Ditherer};
use crate::error::PixelError;
use crate::palette::Palette;
use crate::utils::{
    closest_index, lemma_nearest_index, lemma_nearest_of_member, nearest_color, nearest_index,
};

verus! {

/// The image file formats that this library knows by their extension.
#[derive(Clone, Copy, Debug, PartialEq, Eq, Structural)]
pub enum Extension {
    PNG,
    JPG,
    SVG,
    AVIF,
    BMP,
    GIF,
    QOI,
    TIFF,
    WEBP,
}

/// Tells whether two texts are the same.
pub fn same_text(a: &str, b: &str) -> (same: bool)
    ensures
        same == (a@ == b@),
{
    let left = a.as_bytes();
    let right = b.as_bytes();
    proof {
        encode_utf8_decode_utf8(a@);
        encode_utf8_decode_utf8(b@);
    }
    if left.len() != right.len() {
        return false;
    }
    let mut i: usize = 0;
    while i < left.len()
        invariant
            i <= left@.len(),
            left@.len() == right@.len(),
            left@ == encode_utf8(a@),
            right@ == encode_utf8(b@),
            forall|k: int| 0 <= k < i ==> left@[k] == right@[k],
        decreases left.len() - i,
    {
        if left[i] != right[i] {
            return false;
        }
        i = i + 1;
    }
    proof {
        assert(left@ =~= right@);
    }
    true
}

impl Extension {
    /// The extension as it is written in a file name.
    pub open spec fn name(self) -> Seq<char> {
        match self {
            Extension::PNG => "png"@,
            Extension::JPG => "jpg"@,
            Extension::QOI => "qoi"@,
            Extension::GIF => "gif"@,
            Extension::BMP => "bmp"@,
            Extension::SVG => "svg"@,
            Extension::WEBP => "webp"@,
            Extension::AVIF => "avif"@,
            Extension::TIFF => "tiff"@,
        }
    }

    /// The format that a file-name extension stands for: the name of each
    /// format stands for it, and `jpeg` stands for JPG as well. Any other
    /// text stands for none.
    pub open spec fn named(ext: Seq<char>) -> Option<Extension> {
        if ext == "png"@ {
            Some(Extension::PNG)
        } else if ext == "jpg"@ {
            Some(Extension::JPG)
        } else if ext == "jpeg"@ {
            Some(Extension::JPG)
        } else if ext == "qoi"@ {
            Some(Extension::QOI)
        } else if ext == "gif"@ {
            Some(Extension::GIF)
        } else if ext == "bmp"@ {
            Some(Extension::BMP)
        } else if ext == "svg"@ {
            Some(Extension::SVG)
        } else if ext == "webp"@ {
            Some(Extension::WEBP)
        } else if ext == "avif"@ {
            Some(Extension::AVIF)
        } else if ext == "tiff"@ {
            Some(Extension::TIFF)
        } else {
            None
        }
    }

    /// Recognizes a file-name extension. An unknown extension is rejected.
    pub fn new(ext: &str) -> (r: Result<Extension, PixelError>)
        ensures
            Extension::named(ext@) is None ==> r == Err::<Extension, PixelError>(
                PixelError::IOError,
            ),
            Extension::named(ext@) is Some ==> r == Ok::<Extension, PixelError>(
                Extension::named(ext@)->Some_0,
            ),
    {
        if same_text(ext, "png") {
            Ok(Extension::PNG)
        } else if same_text(ext, "jpg") {
            Ok(Extension::JPG)
        } else if same_text(ext, "jpeg") {
            Ok(Extension::JPG)
        } else if same_text(ext, "qoi") {
            Ok(Extension::QOI)
        } else if same_text(ext, "gif") {
            Ok(Extension::GIF)
        } else if same_text(ext, "bmp") {
            Ok(Extension::BMP)
        } else if same_text(ext, "svg") {
            Ok(Extension::SVG)
        } else if same_text(ext, "webp") {
            Ok(Extension::WEBP)
        } else if same_text(ext, "avif") {
            Ok(Extension::AVIF)
        } else if same_text(ext, "tiff") {
            Ok(Extension::TIFF)
        } else {
            Err(PixelError::IOError)
        }
    }

    /// Writes the extension as it stands in a file name.
    pub fn to_string(extension: &Extension) -> (text: String)
        ensures
            text@ == extension.name(),
    {
        match extension {
            Extension::PNG => "png".to_owned(),
            Extension::JPG => "jpg".to_owned(),
            Extension::QOI => "qoi".to_owned(),
            Extension::GIF => "gif".to_owned(),
            Extension::BMP => "bmp".to_owned(),
            Extension::SVG => "svg".to_owned(),
            Extension::WEBP => "webp".to_owned(),
            Extension::AVIF => "avif".to_owned(),
            Extension::TIFF => "tiff".to_owned(),
        }
    }
}

/// Reading back the written form of an extension gives the extension.
pub proof fn lemma_extension_round_trip(e: Extension)
    ensures
        Extension::named(e.name()) == Some(e),
{
    reveal_strlit("png");
    reveal_strlit("jpg");
    reveal_strlit("jpeg");
    reveal_strlit("qoi");
    reveal_strlit("gif");
    reveal_strlit("bmp");
    reveal_strlit("svg");
    reveal_strlit("webp");
    reveal_strlit("avif");
    reveal_strlit("tiff");
    assert("png"@[0] == 'p');
    assert("jpg"@[0] == 'j');
    assert("qoi"@[0] == 'q');
    assert("gif"@[0] == 'g');
    assert("bmp"@[0] == 'b');
    assert("svg"@[0] == 's');
    assert("webp"@[0] == 'w');
    assert("avif"@[0] == 'a');
    assert("tiff"@[0] == 't');
    assert("jpeg"@.len() == 4);
}

/// The pixels of a raster with those in rows `start..end` replaced by
/// their nearest palette colour.
pub open spec fn recolored_rows(g: Grid, palette: Seq<Color>, start: int, end: int) -> Seq<Color> {
    Seq::new(
        g.pixels.len(),
        |p: int|
            if start <= g.row_of(p) < end {
                nearest_color(palette, g.pixels[p])
            } else {
                g.pixels[p]
            },
    )
}

/// The pixels of a raster, each replaced by its nearest palette colour.
pub open spec fn recolored(pixels: Seq<Color>, palette: Seq<Color>) -> Seq<Color> {
    Seq::new(pixels.len(), |p: int| nearest_color(palette, pixels[p]))
}

/// Recolouring two bands of rows that do not overlap gives the same raster
/// in either order: the rows of both bands recoloured, all others kept.
pub proof fn lemma_bands_commute(
    g: Grid,
    palette: Seq<Color>,
    start1: int,
    end1: int,
    start2: int,
    end2: int,
)
    requires
        g.wf(),
        end1 <= start2 || end2 <= start1,
    ensures
        recolored_rows(
            Grid {
                width: g.width,
                height: g.height,
                pixels: recolored_rows(g, palette, start1, end1),
            },
            palette,
            start2,
            end2,
        ) == recolored_rows(
            Grid {
                width: g.width,
                height: g.height,
                pixels: recolored_rows(g, palette, start2, end2),
            },
            palette,
            start1,
            end1,
        ),
{
    let first = Grid {
        width: g.width,
        height: g.height,
        pixels: recolored_rows(g, palette, start1, end1),
    };
    let second = Grid {
        width: g.width,
        height: g.height,
        pixels: recolored_rows(g, palette, start2, end2),
    };
    assert(recolored_rows(first, palette, start2, end2) =~= recolored_rows(
        second,
        palette,
        start1,
        end1,
    ));
}

/// Recolouring the rows up to `mid` and then the rows from `mid` on
/// recolours all rows of the two bands together.
pub proof fn lemma_bands_join(g: Grid, palette: Seq<Color>, start: int, mid: int, end: int)
    requires
        g.wf(),
        start <= mid <= end,
    ensures
        recolored_rows(
            Grid {
                width: g.width,
                height: g.height,
                pixels: recolored_rows(g, palette, start, mid),
            },
            palette,
            mid,
            end,
        ) == recolored_rows(g, palette, start, end),
{
    let first = Grid {
        width: g.width,
        height: g.height,
        pixels: recolored_rows(g, palette, start, mid),
    };
    assert(recolored_rows(first, palette, mid, end) =~= recolored_rows(g, palette, start, end));
}

/// Recolouring every row recolours every pixel.
pub proof fn lemma_all_rows(g: Grid, palette: Seq<Color>)
    requires
        g.wf(),
    ensures
        recolored_rows(g, palette, 0, g.height as int) == recolored(g.pixels, palette),
{
    assert forall|p: int| 0 <= p < g.pixels.len() implies 0 <= #[trigger] g.row_of(p)
        < g.height by {
        lemma_position(g, p);
    }
    assert(recolored_rows(g, palette, 0, g.height as int) =~= recolored(g.pixels, palette));
}

/// Recolouring a recoloured raster changes nothing.
pub proof fn lemma_recolored_twice(pixels: Seq<Color>, palette: Seq<Color>)
    requires
        palette.len() > 0,
    ensures
        recolored(recolored(pixels, palette), palette) == recolored(pixels, palette),
{
    let once = recolored(pixels, palette);
    assert forall|p: int| 0 <= p < pixels.len() implies nearest_color(palette, once[p])
        == once[p] by {
        lemma_nearest_index(palette, pixels[p]);
        lemma_nearest_of_member(palette, nearest_index(palette, pixels[p]));
    }
    assert(recolored(once, palette) =~= once);
}

/// Replaces every pixel in the rows `start_row..end_row` of a raster by its
/// nearest palette colour; rows past the last one are ignored. All other
/// pixels stay as they are. An empty palette is rejected, and the raster
/// stays as it is.
pub fn apply_palette_partial(
    image: &mut PixelBuffer,
    palette: &Vec<Color>,
    start_row: u32,
    end_row: u32,
) -> (r: Result<(), PixelError>)
    requires
        old(image).wf(),
    ensures
        final(image).wf(),
        palette@.len() == 0 ==> r == Err::<(), PixelError>(PixelError::InvalidArgument)
            && final(image)@ == old(image)@,
        palette@.len() > 0 ==> r is Ok && final(image)@ == (Grid {
            width: old(image)@.width,
            height: old(image)@.height,
            pixels: recolored_rows(old(image)@, palette@, start_row as int, end_row as int),
        }),
{
    if palette.len() == 0 {
        return Err(PixelError::InvalidArgument);
    }
    let width = image.width();
    let height = image.height();
    let last = if end_row < height {
        end_row
    } else {
        height
    };
    let ghost start = image@;
    let ghost target = recolored_rows(start, palette@, start_row as int, end_row as int);
    let mut y: u32 = start_row;
    proof {
        assert forall|q: int| 0 <= q < start.pixels.len() && q < y * width implies start.pixels[q]
            == target[q] by {
            lemma_position(start, q);
            let row = start.row_of(q);
            assert(row < y) by (nonlinear_arith)
                requires
                    0 <= q < y * width,
                    row == q / (width as int),
                    width > 0,
            ;
        }
    }
    while y < last
        invariant
            start.wf(),
            start.width == width,
            start.height == height,
            palette@.len() > 0,
            target == recolored_rows(start, palette@, start_row as int, end_row as int),
            last <= height,
            last <= end_row,
            last == height || last == end_row,
            image.wf(),
            image@.width == width,
            image@.height == height,
            start_row <= y,
            forall|q: int|
                0 <= q < start.pixels.len() && q < y * width ==> #[trigger] image@.pixels[q]
                    == target[q],
            forall|q: int|
                y * width <= q < start.pixels.len() ==> #[trigger] image@.pixels[q]
                    == start.pixels[q],
        decreases last - y,
    {
        let mut x: u32 = 0;
        while x < width
            invariant
                start.wf(),
                start.width == width,
                start.height == height,
                palette@.len() > 0,
                target == recolored_rows(start, palette@, start_row as int, end_row as int),
                image.wf(),
                image@.width == width,
                image@.height == height,
                start_row <= y < last <= height,
                last <= end_row,
                x <= width,
                forall|q: int|
                    0 <= q < start.pixels.len() && q < y * width + x ==> #[trigger] image@.pixels[q]
                        == target[q],
                forall|q: int|
                    y * width + x <= q < start.pixels.len() ==> #[trigger] image@.pixels[q]
                        == start.pixels[q],
            decreases width - x,
        {
            proof {
                lemma_offset(start, x as int, y as int);
                lemma_offset(image@, x as int, y as int);
            }
            let pixel = image.get_pixel(x, y);
            let best = palette[closest_index(&pixel, palette)];
            image.put_pixel(x, y, best);
            x = x + 1;
        }
        proof {
            assert((y + 1) * width == y * width + width) by (nonlinear_arith);
        }
        y = y + 1;
    }
    proof {
        assert forall|q: int| 0 <= q < start.pixels.len() implies image@.pixels[q] == target[q] by {
            lemma_position(start, q);
            let row = start.row_of(q);
            if q >= y * width {
                assert(row >= y) by (nonlinear_arith)
                    requires
                        q >= y * width,
                        row == q / (width as int),
                        width > 0,
                ;
            }
        }
        assert(image@.pixels =~= target);
    }
    Ok(())
}

/// The first row of band `i` when `height` rows are cut into bands of
/// `rows_per_band` rows: `i * rows_per_band`, but no more than `height`.
pub open spec fn band_start(height: int, rows_per_band: int, i: int) -> int {
    if i * rows_per_band < height {
        i * rows_per_band
    } else {
        height
    }
}

/// The number of rows per band when `height` rows are shared among
/// `workers` workers: `height / workers` rounded up.
pub open spec fn rows_per_band(height: int, workers: int) -> int {
    (height + workers - 1) / workers
}

/// Cuts the rows of a raster into one band per worker, each band a pair
/// `(first row, row after the last)`. Bands follow one another without gap
/// or overlap from row 0 to the last row; bands past the last row are
/// empty. Fewer than one worker counts as one.
pub fn row_bands(height: u32, workers: usize) -> (bands: Vec<(u32, u32)>)
    ensures
        bands@.len() == if workers == 0 {
            1
        } else {
            workers as int
        },
        forall|i: int|
            0 <= i < bands@.len() ==> (#[trigger] bands@[i]).0 == band_start(
                height as int,
                rows_per_band(height as int, bands@.len() as int),
                i,
            ) && bands@[i].1 == band_start(
                height as int,
                rows_per_band(height as int, bands@.len() as int),
                i + 1,
            ),
        bands@[0].0 == 0,
        bands@[bands@.len() - 1].1 == height,
        forall|i: int| 0 <= i < bands@.len() ==> (#[trigger] bands@[i]).0 <= bands@[i].1 <= height,
        forall|i: int| 0 <= i < bands@.len() - 1 ==> (#[trigger] bands@[i]).1 == bands@[i + 1].0,
{
    let count: usize = if workers == 0 {
        1
    } else {
        workers
    };
    let per: u64 = ((height as u128 + count as u128 - 1) / (count as u128)) as u64;
    proof {
        let h = height as int;
        let c = count as int;
        let p = (h + c - 1) / c;
        assert(0 <= p <= h && c * p >= h) by (nonlinear_arith)
            requires
                h >= 0,
                c >= 1,
                p == (h + c - 1) / c,
        ;
    }
    let mut bands: Vec<(u32, u32)> = Vec::new();
    let mut first: u32 = 0;
    let mut i: usize = 0;
    while i < count
        invariant
            i <= count,
            count >= 1,
            per == rows_per_band(height as int, count as int),
            0 <= per <= height,
            count * per >= height,
            bands@.len() == i,
            first == band_start(height as int, per as int, i as int),
            first <= height,
            forall|k: int|
                0 <= k < i ==> (#[trigger] bands@[k]).0 == band_start(
                    height as int,
                    per as int,
                    k,
                ) && bands@[k].1 == band_start(height as int, per as int, k + 1),
        decreases count - i,
    {
        let next: u32 = if (height - first) as u64 <= per {
            height
        } else {
            (first as u64 + per) as u32
        };
        proof {
            assert((i + 1) * per == i * per + per) by (nonlinear_arith);
        }
        bands.push((first, next));
        first = next;
        i = i + 1;
    }
    proof {
        assert(band_start(height as int, per as int, 0) == 0) by {
            assert(0 * per == 0);
        }
        assert(band_start(height as int, per as int, count as int) == height);
        assert forall|k: int| 0 <= k < bands@.len() implies (#[trigger] bands@[k]).0 <= bands@[k].1
            <= height by {
            assert((k + 1) * per == k * per + per) by (nonlinear_arith);
        }
    }
    bands
}

/// Replaces every pixel of a raster by its nearest palette colour, band of
/// rows by band of rows, with one band per worker. An empty palette is
/// rejected, and the raster stays as it is.
pub fn apply_palette(image: &mut PixelBuffer, palette: &Vec<Color>, workers: usize) -> (r: Result<
    (),
    PixelError,
>)
    requires
        old(image).wf(),
    ensures
        final(image).wf(),
        palette@.len() == 0 ==> r == Err::<(), PixelError>(PixelError::InvalidArgument)
            && final(image)@ == old(image)@,
        palette@.len() > 0 ==> r is Ok && final(image)@ == (Grid {
            width: old(image)@.width,
            height: old(image)@.height,
            pixels: recolored(old(image)@.pixels, palette@),
        }),
{
    if palette.len() == 0 {
        return Err(PixelError::InvalidArgument);
    }
    let height = image.height();
    let bands = row_bands(height, workers);
    let ghost start = image@;
    let mut i: usize = 0;
    proof {
        assert(start.pixels =~= recolored_rows(start, palette@, 0, 0));
    }
    while i < bands.len()
        invariant
            start.wf(),
            start.height == height,
            palette@.len() > 0,
            i <= bands@.len(),
            bands@.len() >= 1,
            bands@[0].0 == 0,
            bands@[bands@.len() - 1].1 == height,
            forall|k: int|
                0 <= k < bands@.len() ==> (#[trigger] bands@[k]).0 <= bands@[k].1 <= height,
            forall|k: int|
                0 <= k < bands@.len() - 1 ==> (#[trigger] bands@[k]).1 == bands@[k + 1].0,
            image.wf(),
            image@ == (Grid {
                width: start.width,
                height: start.height,
                pixels: recolored_rows(
                    start,
                    palette@,
                    0,
                    if i == 0 {
                        0
                    } else {
                        bands@[i - 1].1 as int
                    },
                ),
            }),
        decreases bands.len() - i,
    {
        let band = bands[i];
        proof {
            let done: int = if i == 0 {
                0
            } else {
                bands@[i - 1].1 as int
            };
            assert(done == band.0);
            lemma_bands_join(start, palette@, 0, band.0 as int, band.1 as int);
        }
        let _ = apply_palette_partial(image, palette, band.0, band.1);
        i = i + 1;
    }
    proof {
        lemma_all_rows(start, palette@);
    }
    Ok(())
}

/// A raster with the name and the format of the file it came from.
#[derive(Debug)]
pub struct Image {
    pub filename: String,
    pub extension: Extension,
    pub data: PixelBuffer,
}

impl Image {
    /// Makes an image from the stem of its file name, its format and its
    /// pixels.
    pub fn new(filename: String, extension: Extension, data: PixelBuffer) -> (image: Image)
        ensures
            image.filename == filename,
            image.extension == extension,
            image.data == data,
    {
        Image { filename, extension, data }
    }

    /// Replaces every pixel by its nearest colour of the palette. An empty
    /// palette is rejected, and the image stays as it is.
    pub fn apply_palette(&mut self, palette: Palette) -> (r: Result<(), PixelError>)
        requires
            old(self).data.wf(),
        ensures
            final(self).data.wf(),
            final(self).filename == old(self).filename,
            final(self).extension == old(self).extension,
            palette.colours@.len() == 0 ==> r == Err::<(), PixelError>(
                PixelError::InvalidArgument,
            ) && final(self).data@ == old(self).data@,
            palette.colours@.len() > 0 ==> r is Ok && final(self).data@ == (Grid {
                width: old(self).data@.width,
                height: old(self).data@.height,
                pixels: recolored(old(self).data@.pixels, palette.colours@),
            }),
    {
        apply_palette(&mut self.data, &palette.colours, 1)
    }

    /// Dithers the image in the given mode against the given palette.
    /// Ordered dithering does not use the palette. An input that the mode
    /// rejects leaves the image as it is.
    pub fn dither(&mut self, mode: DitherMode, palette: &Palette) -> (r: Result<(), PixelError>)
        requires
            old(self).data.wf(),
        ensures
            final(self).data.wf(),
            final(self).filename == old(self).filename,
            final(self).extension == old(self).extension,
            mode.rejects(old(self).data@, palette.colours@) ==> r == Err::<(), PixelError>(
                PixelError::InvalidArgument,
            ) && final(self).data@ == old(self).data@,
            !mode.rejects(old(self).data@, palette.colours@) ==> r is Ok && mode.produces(
                old(self).data@,
                palette.colours@,
                final(self).data@,
            ),
    {
        let ditherer = Ditherer::new(mode);
        ditherer.dither(&mut self.data, &palette.colours)
    }
}

} // verus!
