//! Named palettes and the text format of palette files.

use vstd::prelude::*;
use vstd::string::{StringExecFns, StringSliceAdditionalSpecFns};
use vstd::utf8::{encode_utf8, is_ascii_chars, is_ascii_chars_encode_utf8};
use crate::buffer::PixelBuffer;
use crate::colour::{
    bucket_average, drawn_sample, kmeans_palette, select_average, select_kmeans, select_median,
    select_randomly, Color, SelectionStrategy,
};
use crate::error::PixelError;
use crate::hex::{
    hex_bytes, hex_text, lemma_parse_of_hex_bytes, parse_hex_at, parse_hex_color, push_hex,
};
use crate::median_cut::median_cut;
use crate::population::distinct_colors;
use crate::utils::generate_raw_palette;

verus! {

/// A named, ordered list of colours.
#[derive(Clone, Debug)]
pub struct Palette {
    pub name: String,
    pub colours: Vec<Color>,
}

/// The position of the first line feed of `s` at or after `start`, or the
/// length of `s` when there is none.
pub open spec fn line_end(s: Seq<u8>, start: int) -> int
    decreases s.len() - start,
{
    if start >= s.len() {
        s.len() as int
    } else if s[start] == 10 {
        start
    } else {
        line_end(s, start + 1)
    }
}

/// Where the content of the line that begins at `start` stops: at its line
/// feed, or one earlier when a carriage return stands just before the line
/// feed.
pub open spec fn line_stop(s: Seq<u8>, start: int) -> int {
    let end = line_end(s, start);
    if end < s.len() && end > start && s[end - 1] == 13 {
        end - 1
    } else {
        end
    }
}

/// Where the line after the one that begins at `start` begins.
pub open spec fn next_line(s: Seq<u8>, start: int) -> int {
    let end = line_end(s, start);
    if end < s.len() {
        end + 1
    } else {
        end
    }
}

/// A line ends at or after its beginning, inside the text.
pub proof fn lemma_line_end(s: Seq<u8>, start: int)
    requires
        0 <= start <= s.len(),
    ensures
        start <= line_end(s, start) <= s.len(),
        line_end(s, start) < s.len() ==> s[line_end(s, start)] == 10,
        forall|k: int| start <= k < line_end(s, start) ==> s[k] != 10,
    decreases s.len() - start,
{
    if start < s.len() && s[start] != 10 {
        lemma_line_end(s, start + 1);
    }
}

/// The colours that the lines of `s` from position `start` on spell, one
/// colour per line, or nothing when one of the lines spells no colour.
/// Lines end with a line feed, which a carriage return may precede; the
/// last line needs no line feed.
pub open spec fn parse_lines(s: Seq<u8>, start: int) -> Option<Seq<Color>>
    decreases s.len() - start,
{
    if start < 0 || start >= s.len() {
        Some(Seq::empty())
    } else {
        proof {
            lemma_line_end(s, start);
        }
        match parse_hex_color(s.subrange(start, line_stop(s, start))) {
            None => None,
            Some(c) => match parse_lines(s, next_line(s, start)) {
                None => None,
                Some(rest) => Some(seq![c] + rest),
            },
        }
    }
}

/// The colours that a palette file spells, or nothing when it is
/// malformed.
pub open spec fn parse_palette(s: Seq<u8>) -> Option<Seq<Color>> {
    parse_lines(s, 0)
}

/// The text of a palette file: one line of six upper-case hexadecimal
/// digits per colour, each ended by a line feed.
pub open spec fn palette_text(colours: Seq<Color>) -> Seq<char>
    decreases colours.len(),
{
    if colours.len() == 0 {
        Seq::empty()
    } else {
        palette_text(colours.drop_last()) + hex_text(colours.last()) + seq!['\n']
    }
}

/// The text of a palette file has seven characters per colour: the six
/// digits of the colour, then a line feed.
pub proof fn lemma_palette_text(colours: Seq<Color>)
    ensures
        palette_text(colours).len() == 7 * colours.len(),
        forall|i: int, k: int|
            0 <= i < colours.len() && 0 <= k < 6 ==> #[trigger] palette_text(colours)[7 * i + k]
                == hex_bytes(#[trigger] colours[i])[k] as char,
        forall|i: int|
            0 <= i < colours.len() ==> #[trigger] palette_text(colours)[7 * i + 6] == '\n',
        is_ascii_chars(palette_text(colours)),
    decreases colours.len(),
{
    if colours.len() > 0 {
        let shorter = colours.drop_last();
        lemma_palette_text(shorter);
        let text = palette_text(colours);
        let head = palette_text(shorter);
        let n = shorter.len() as int;
        assert(text.len() == 7 * colours.len());
        assert forall|i: int, k: int| 0 <= i < colours.len() && 0 <= k < 6 implies #[trigger] text[7
            * i + k] == hex_bytes(#[trigger] colours[i])[k] as char by {
            if i < n {
                assert(text[7 * i + k] == head[7 * i + k]);
                assert(shorter[i] == colours[i]);
            } else {
                assert(text[7 * i + k] == hex_text(colours.last())[k]);
            }
        }
        assert forall|i: int| 0 <= i < colours.len() implies #[trigger] text[7 * i + 6]
            == '\n' by {
            if i < n {
                assert(text[7 * i + 6] == head[7 * i + 6]);
            }
        }
        assert forall|j: int| 0 <= j < text.len() implies '\0' <= #[trigger] text[j]
            <= '\u{7f}' by {
            if j < head.len() {
                assert(text[j] == head[j]);
            } else if j < head.len() + 6 {
                assert(text[j] == hex_text(colours.last())[j - head.len()]);
            }
        }
    }
}

/// A line that holds no line feed before position `end`, and ends there,
/// ends there.
proof fn lemma_line_end_at(s: Seq<u8>, start: int, end: int)
    requires
        0 <= start <= end <= s.len(),
        forall|k: int| start <= k < end ==> s[k] != 10,
        end < s.len() ==> s[end] == 10,
    ensures
        line_end(s, start) == end,
    decreases end - start,
{
    if start < end {
        lemma_line_end_at(s, start + 1, end);
    }
}

/// The lines of the file of a palette from line `i` on spell the colours
/// of the palette from colour `i` on.
proof fn lemma_parse_lines_of_text(colours: Seq<Color>, i: int)
    requires
        0 <= i <= colours.len(),
    ensures
        parse_lines(encode_utf8(palette_text(colours)), 7 * i) == Some(colours.skip(i)),
    decreases colours.len() - i,
{
    let text = palette_text(colours);
    let s = encode_utf8(text);
    lemma_palette_text(colours);
    is_ascii_chars_encode_utf8(text);
    if i == colours.len() {
        assert(colours.skip(i) =~= Seq::<Color>::empty());
    } else {
        let start = 7 * i;
        let c = colours[i];
        assert forall|k: int| 0 <= k < 6 implies s[start + k] == hex_bytes(c)[k] by {
            assert(text[7 * i + k] == hex_bytes(colours[i])[k] as char);
            assert(text[start + k] as u8 == s[start + k]);
        }
        assert(s[start + 6] == 10) by {
            assert(text[7 * i + 6] == '\n');
            assert(text[start + 6] as u8 == s[start + 6]);
        }
        assert forall|k: int| start <= k < start + 6 implies s[k] != 10 by {
            assert(s[start + (k - start)] == hex_bytes(c)[k - start]);
        }
        lemma_line_end_at(s, start, start + 6);
        assert(s[start + 5] == hex_bytes(c)[5]);
        assert(line_stop(s, start) == start + 6);
        assert(next_line(s, start) == start + 7);
        assert(s.subrange(start, start + 6) =~= hex_bytes(c));
        lemma_parse_of_hex_bytes(c);
        lemma_parse_lines_of_text(colours, i + 1);
        assert(seq![c] + colours.skip(i + 1) =~= colours.skip(i));
    }
}

/// Writing the file of a palette and reading it back gives the colours of
/// the palette, in their order.
pub proof fn lemma_palette_round_trip(colours: Seq<Color>)
    ensures
        parse_palette(encode_utf8(palette_text(colours))) == Some(colours),
{
    lemma_parse_lines_of_text(colours, 0);
    assert(colours.skip(0) =~= colours);
}

/// Reads the colours of a palette file. A line that does not spell a colour
/// fails the whole file.
pub fn parse_palette_bytes(bytes: &[u8]) -> (r: Result<Vec<Color>, PixelError>)
    ensures
        parse_palette(bytes@) is None ==> r is Err && r->Err_0 == PixelError::FormatError,
        parse_palette(bytes@) is Some ==> r is Ok && r->Ok_0@ == parse_palette(bytes@)->Some_0,
{
    let mut colours: Vec<Color> = Vec::new();
    let mut pos: usize = 0;
    while pos < bytes.len()
        invariant
            pos <= bytes@.len(),
            parse_lines(bytes@, pos as int) is None ==> parse_palette(bytes@) is None,
            parse_lines(bytes@, pos as int) is Some ==> parse_palette(bytes@) == Some(
                colours@ + parse_lines(bytes@, pos as int)->Some_0,
            ),
        decreases bytes@.len() - pos,
    {
        let mut end: usize = pos;
        while end < bytes.len() && bytes[end] != 10
            invariant
                pos <= end <= bytes@.len(),
                line_end(bytes@, pos as int) == line_end(bytes@, end as int),
            decreases bytes@.len() - end,
        {
            end = end + 1;
        }
        let stop = if end < bytes.len() && end > pos && bytes[end - 1] == 13 {
            end - 1
        } else {
            end
        };
        let next = if end < bytes.len() {
            end + 1
        } else {
            end
        };
        proof {
            assert(line_end(bytes@, pos as int) == end);
            assert(line_stop(bytes@, pos as int) == stop);
            assert(next_line(bytes@, pos as int) == next);
        }
        match parse_hex_at(bytes, pos, stop) {
            None => {
                return Err(PixelError::FormatError);
            },
            Some(c) => {
                proof {
                    let rest = parse_lines(bytes@, next as int);
                    if rest is Some {
                        assert(colours@ + (seq![c] + rest->Some_0) =~= colours@.push(c)
                            + rest->Some_0);
                    }
                }
                colours.push(c);
            },
        }
        pos = next;
    }
    proof {
        assert(colours@ + Seq::<Color>::empty() =~= colours@);
    }
    Ok(colours)
}

/// Writes the text of a palette file for the given colours.
pub fn write_palette_text(colours: &Vec<Color>) -> (text: String)
    ensures
        text@ == palette_text(colours@),
{
    let mut text = String::new();
    let mut i: usize = 0;
    proof {
        reveal_strlit("\n");
    }
    while i < colours.len()
        invariant
            i <= colours@.len(),
            "\n"@ == seq!['\n'],
            text@ == palette_text(colours@.take(i as int)),
        decreases colours.len() - i,
    {
        proof {
            assert(colours@.take(i + 1).drop_last() =~= colours@.take(i as int));
        }
        push_hex(&mut text, colours[i]);
        text.append("\n");
        i = i + 1;
    }
    proof {
        assert(colours@.take(colours@.len() as int) =~= colours@);
    }
    text
}

impl Palette {
    /// Makes the palette of the given name from the contents of its file:
    /// one colour per line, each six hexadecimal digits after an optional
    /// `#`. A malformed line fails the whole load.
    pub fn new(name: &str, contents: &str) -> (r: Result<Palette, PixelError>)
        ensures
            parse_palette(contents.spec_bytes()) is None ==> r is Err && r->Err_0
                == PixelError::FormatError,
            parse_palette(contents.spec_bytes()) is Some ==> r is Ok && r->Ok_0.name@ == name@
                && r->Ok_0.colours@ == parse_palette(contents.spec_bytes())->Some_0,
    {
        match parse_palette_bytes(contents.as_bytes()) {
            Ok(colours) => Ok(Palette { name: name.to_owned(), colours }),
            Err(e) => Err(e),
        }
    }

    /// The contents of the file that stores this palette: one line of six
    /// upper-case hexadecimal digits per colour, in palette order.
    pub fn to_text(&self) -> (text: String)
        ensures
            text@ == palette_text(self.colours@),
    {
        write_palette_text(&self.colours)
    }

    /// Makes a palette of the given name from the colours of a raster. The
    /// colours that occur in the raster are collected in the order of a
    /// raster scan and reduced by the given strategy to about `numcolours`
    /// colours; k-means runs for at most `max_iterations` rounds.
    ///
    /// A target of zero or an empty raster is rejected.
    pub fn generate_palette(
        image: &PixelBuffer,
        palettename: String,
        numcolours: usize,
        selection_strategy: SelectionStrategy,
        max_iterations: usize,
    ) -> (r: Result<Palette, PixelError>)
        ensures
            numcolours == 0 || image@.pixels.len() == 0 ==> r is Err && r->Err_0
                == PixelError::InvalidArgument,
            numcolours > 0 && image@.pixels.len() > 0 ==> r is Ok,
            r is Ok ==> r->Ok_0.name == palettename,
            r is Ok ==> match selection_strategy {
                SelectionStrategy::Average => r->Ok_0.colours@ == bucket_average(
                    distinct_colors(image@.pixels),
                    numcolours as int,
                ),
                SelectionStrategy::Median => r->Ok_0.colours@ == median_cut(
                    distinct_colors(image@.pixels),
                    numcolours as int,
                ),
                SelectionStrategy::Random => drawn_sample(
                    distinct_colors(image@.pixels),
                    numcolours as int,
                    r->Ok_0.colours@,
                ),
                SelectionStrategy::KMeans => kmeans_palette(
                    distinct_colors(image@.pixels),
                    numcolours as int,
                    max_iterations as nat,
                    r->Ok_0.colours@,
                ),
            },
    {
        let raw = generate_raw_palette(image);
        proof {
            if image@.pixels.len() > 0 {
                assert(image@.pixels.contains(image@.pixels[0]));
                assert(raw@.contains(image@.pixels[0]));
            }
        }
        let colours = match selection_strategy {
            SelectionStrategy::Average => select_average(&raw, numcolours),
            SelectionStrategy::Random => select_randomly(&raw, numcolours),
            SelectionStrategy::KMeans => match select_kmeans(&raw, numcolours, max_iterations) {
                Ok(state) => Ok(state.centroids),
                Err(e) => Err(e),
            },
            SelectionStrategy::Median => select_median(&raw, numcolours),
        };
        match colours {
            Ok(colours) => Ok(Palette { name: palettename, colours }),
            Err(e) => Err(e),
        }
    }
}

} // verus!
