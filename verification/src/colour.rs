//! Colours, the distance between them, and the four quantizers that reduce
//! a population of colours to a palette.

use vstd::prelude::*;
use crate::error::PixelError;
use crate::kmeans::{assign, kmeans_run, kmeans_step, lemma_kmeans_run_len, same_colors, step};
use crate::random::{choose_multiple, drawn_from};
use crate::utils::{lemma_nearest_index, mean_range, nearest_index};
use crate::median_cut::{
    all_nonempty, box_means, box_views, copy_colors, cut_round, lemma_median_cut_boxes,
    lemma_split_round, median_cut, median_cut_boxes, missing_boxes, total_colors,
};

verus! {

/// An RGB colour with three 8-bit channels. Two colours are equal when all
/// three channels are.
#[derive(Clone, Copy, Debug, PartialEq, Eq, Hash, Structural)]
pub struct Color {
    pub r: u8,
    pub g: u8,
    pub b: u8,
}

impl Color {
    /// Channel `ch` of the colour as an integer: 0 is red, 1 is green,
    /// anything else is blue.
    pub open spec fn channel(self, ch: int) -> int {
        if ch == 0 {
            self.r as int
        } else if ch == 1 {
            self.g as int
        } else {
            self.b as int
        }
    }

    /// Makes a colour from its three channels.
    pub fn new(r: u8, g: u8, b: u8) -> (c: Color)
        ensures
            c == (Color { r, g, b }),
    {
        Color { r, g, b }
    }

    /// Reads one channel: 0 is red, 1 is green, anything else is blue.
    pub fn get(&self, ch: u8) -> (v: u8)
        ensures
            v as int == self.channel(ch as int),
    {
        if ch == 0 {
            self.r
        } else if ch == 1 {
            self.g
        } else {
            self.b
        }
    }
}

/// The squared Euclidean distance between two colours,
/// `(a.r-b.r)^2 + (a.g-b.g)^2 + (a.b-b.b)^2`.
pub open spec fn squared_distance_spec(a: Color, b: Color) -> int {
    (a.r - b.r) * (a.r - b.r) + (a.g - b.g) * (a.g - b.g) + (a.b - b.b) * (a.b - b.b)
}

/// The largest squared distance between two colours, `3 * 255^2`.
pub const MAX_SQUARED_DISTANCE: u32 = 195075;

/// A squared distance is never negative and never above
/// `MAX_SQUARED_DISTANCE`.
pub proof fn lemma_squared_distance_bounds(a: Color, b: Color)
    ensures
        0 <= squared_distance_spec(a, b) <= MAX_SQUARED_DISTANCE,
{
    lemma_square_bounds(a.r - b.r);
    lemma_square_bounds(a.g - b.g);
    lemma_square_bounds(a.b - b.b);
}

/// The square of the difference of two channel values is at most `255^2`,
/// and zero only when they are equal.
proof fn lemma_square_bounds(d: int)
    requires
        -255 <= d <= 255,
    ensures
        0 <= d * d <= 65025,
        d * d == 0 <==> d == 0,
{
    assert(0 <= d * d <= 65025 && (d * d == 0 <==> d == 0)) by (nonlinear_arith)
        requires
            -255 <= d <= 255,
    ;
}

/// The metric is symmetric.
pub proof fn lemma_squared_distance_symmetric(a: Color, b: Color)
    ensures
        squared_distance_spec(a, b) == squared_distance_spec(b, a),
{
    assert((a.r - b.r) * (a.r - b.r) == (b.r - a.r) * (b.r - a.r)) by (nonlinear_arith);
    assert((a.g - b.g) * (a.g - b.g) == (b.g - a.g) * (b.g - a.g)) by (nonlinear_arith);
    assert((a.b - b.b) * (a.b - b.b) == (b.b - a.b) * (b.b - a.b)) by (nonlinear_arith);
}

/// The metric is zero exactly between equal colours.
pub proof fn lemma_squared_distance_zero(a: Color, b: Color)
    ensures
        squared_distance_spec(a, b) == 0 <==> a == b,
        squared_distance_spec(a, a) == 0,
{
    lemma_square_bounds(a.r - b.r);
    lemma_square_bounds(a.g - b.g);
    lemma_square_bounds(a.b - b.b);
}

/// Computes the squared Euclidean distance between two colours. Comparing
/// squared distances orders colour pairs exactly as comparing the distances
/// themselves does.
pub fn squared_distance(color1: &Color, color2: &Color) -> (d: u32)
    ensures
        d as int == squared_distance_spec(*color1, *color2),
        d <= MAX_SQUARED_DISTANCE,
{
    proof {
        lemma_square_bounds(color1.r - color2.r);
        lemma_square_bounds(color1.g - color2.g);
        lemma_square_bounds(color1.b - color2.b);
    }
    let dr: i32 = color1.r as i32 - color2.r as i32;
    let dg: i32 = color1.g as i32 - color2.g as i32;
    let db: i32 = color1.b as i32 - color2.b as i32;
    (dr * dr + dg * dg + db * db) as u32
}

/// `r` is the square root of `n` rounded down.
pub open spec fn is_root(n: int, r: int) -> bool {
    0 <= r && r * r <= n < (r + 1) * (r + 1)
}

/// The square root of a number that is not negative, rounded down.
pub open spec fn sqrt_floor(n: int) -> int {
    choose|r: int| is_root(n, r)
}

/// A number has at most one rounded-down square root.
pub proof fn lemma_root_unique(n: int, r1: int, r2: int)
    requires
        is_root(n, r1),
        is_root(n, r2),
    ensures
        r1 == r2,
{
    assert(r1 == r2) by (nonlinear_arith)
        requires
            0 <= r1,
            0 <= r2,
            r1 * r1 <= n < (r1 + 1) * (r1 + 1),
            r2 * r2 <= n < (r2 + 1) * (r2 + 1),
    ;
}

/// Computes the square root of `n` rounded down, by bisection.
pub fn integer_sqrt(n: u64) -> (r: u64)
    ensures
        is_root(n as int, r as int),
        r as int == sqrt_floor(n as int),
        r < 0x1_0000_0000,
{
    let mut low: u64 = 0;
    let mut high: u64 = 0x1_0000_0000;
    assert(0x1_0000_0000 * 0x1_0000_0000 > 0xFFFF_FFFF_FFFF_FFFF) by (nonlinear_arith);
    while high - low > 1
        invariant
            low < high <= 0x1_0000_0000,
            low * low <= n < high * high,
        decreases high - low,
    {
        let mid: u64 = low + (high - low) / 2;
        assert(mid * mid <= 0xFFFF_FFFF * 0xFFFF_FFFF) by (nonlinear_arith)
            requires
                0 <= mid <= 0xFFFF_FFFF,
        ;
        if mid * mid <= n {
            low = mid;
        } else {
            high = mid;
        }
    }
    proof {
        assert(high == low + 1);
        assert(is_root(n as int, low as int));
        lemma_root_unique(n as int, low as int, sqrt_floor(n as int));
    }
    low
}

/// The number of units that make up a distance of one in
/// `scaled_distance`, `2^16`.
pub const DISTANCE_SCALE: u64 = 65536;

/// The Euclidean distance between two colours in units of
/// `1 / DISTANCE_SCALE`, rounded down: the rounded-down square root of the
/// squared distance times `DISTANCE_SCALE^2`.
pub open spec fn scaled_distance(a: Color, b: Color) -> int {
    sqrt_floor(squared_distance_spec(a, b) * 0x1_0000_0000)
}

/// The scaled distance is symmetric, and it is zero exactly between equal
/// colours.
pub proof fn lemma_euclidean_distance(a: Color, b: Color)
    ensures
        scaled_distance(a, b) == scaled_distance(b, a),
        scaled_distance(a, a) == 0,
        scaled_distance(a, b) == 0 <==> a == b,
        scaled_distance(a, b) >= 0,
{
    lemma_squared_distance_symmetric(a, b);
    lemma_squared_distance_zero(a, b);
    lemma_squared_distance_zero(a, a);
    lemma_squared_distance_bounds(a, b);
    let n = squared_distance_spec(a, b) * 0x1_0000_0000;
    lemma_root_exists(n);
    let r = sqrt_floor(n);
    lemma_root_exists(0);
    lemma_root_unique(0, 0, sqrt_floor(0));
    assert(squared_distance_spec(a, a) * 0x1_0000_0000 == 0);
    if r == 0 {
        assert(n < 1);
    }
}

/// Every number that is not negative has a rounded-down square root.
pub proof fn lemma_root_exists(n: int)
    requires
        n >= 0,
    ensures
        is_root(n, sqrt_floor(n)),
    decreases n,
{
    if n == 0 {
        assert(is_root(0, 0));
    } else {
        lemma_root_exists(n - 1);
        let r = sqrt_floor(n - 1);
        if (r + 1) * (r + 1) <= n {
            assert(is_root(n, r + 1)) by (nonlinear_arith)
                requires
                    0 <= r,
                    r * r <= n - 1 < (r + 1) * (r + 1),
                    (r + 1) * (r + 1) <= n,
            ;
        } else {
            assert(is_root(n, r));
        }
    }
}

/// No scaled distance reaches `2^25`.
pub const SCALED_DISTANCE_LIMIT: u64 = 0x200_0000;

/// Computes the Euclidean distance between two colours,
/// `sqrt((a.r-b.r)^2 + (a.g-b.g)^2 + (a.b-b.b)^2)`, in units of
/// `1 / DISTANCE_SCALE` and rounded down.
pub fn euclidean_distance(color1: &Color, color2: &Color) -> (d: u64)
    ensures
        d as int == scaled_distance(*color1, *color2),
        d < SCALED_DISTANCE_LIMIT,
{
    let squared = squared_distance(color1, color2) as u64;
    let d = integer_sqrt(squared * 0x1_0000_0000);
    proof {
        let n = squared * 0x1_0000_0000;
        assert(d < 0x200_0000) by (nonlinear_arith)
            requires
                0 <= d,
                d * d <= n,
                n <= 195075 * 0x1_0000_0000,
        ;
    }
    d
}

/// The scaled distances from `c` to every colour of `s`, added up.
pub open spec fn row_total(s: Seq<Color>, c: Color) -> int
    decreases s.len(),
{
    if s.len() == 0 {
        0
    } else {
        row_total(s.drop_last(), c) + scaled_distance(s.last(), c)
    }
}

/// The scaled distances between the two colours of every unordered pair of
/// positions of `palette`, added up.
pub open spec fn pair_total(palette: Seq<Color>) -> int
    decreases palette.len(),
{
    if palette.len() == 0 {
        0
    } else {
        pair_total(palette.drop_last()) + row_total(palette.drop_last(), palette.last())
    }
}

/// The number of unordered pairs of `n` positions.
pub open spec fn pair_count(n: int) -> int {
    n * (n - 1) / 2
}

/// The mean scaled distance over all unordered pairs of positions of a
/// palette, rounded down; zero for a palette with fewer than two colours.
pub open spec fn average_distance(palette: Seq<Color>) -> int {
    if palette.len() < 2 {
        0
    } else {
        pair_total(palette) / pair_count(palette.len() as int)
    }
}

/// Computes the mean distance between the colours of a palette over all
/// unordered pairs of its positions, in units of `1 / DISTANCE_SCALE`,
/// rounded down. A palette with fewer than two colours has mean zero.
pub fn calculate_avg_distance_in_palette(pal: &Vec<Color>) -> (avg: u64)
    requires
        pal@.len() <= u32::MAX,
    ensures
        avg as int == average_distance(pal@),
        avg < SCALED_DISTANCE_LIMIT,
{
    let count = pal.len();
    if count < 2 {
        return 0;
    }
    let mut total: u128 = 0;
    let mut pairs: u128 = 0;
    let mut j: usize = 0;
    while j < count
        invariant
            j <= count == pal@.len() <= u32::MAX,
            total as int == pair_total(pal@.take(j as int)),
            pairs as int == pair_count(j as int),
            2 * pairs == j * (j - 1),
            total <= pairs * 0x1FF_FFFF,
        decreases count - j,
    {
        let mut row: u128 = 0;
        let mut i: usize = 0;
        let ghost earlier = pal@.take(j as int);
        while i < j
            invariant
                i <= j < count == pal@.len() <= u32::MAX,
                earlier == pal@.take(j as int),
                row as int == row_total(earlier.take(i as int), pal@[j as int]),
                row <= i * 0x1FF_FFFF,
            decreases j - i,
        {
            proof {
                assert(earlier.take(i + 1).drop_last() =~= earlier.take(i as int));
                assert(earlier.take(i + 1).last() == pal@[i as int]);
            }
            let d = euclidean_distance(&pal[i], &pal[j]);
            row = row + d as u128;
            i = i + 1;
        }
        proof {
            assert(earlier.take(j as int) =~= earlier);
            assert(pal@.take(j + 1).drop_last() =~= earlier);
            assert(pal@.take(j + 1).last() == pal@[j as int]);
            assert(pairs * 0x1FF_FFFF + j * 0x1FF_FFFF == (pairs
                + j) * 0x1FF_FFFF) by (nonlinear_arith);
            assert((j + 1) * ((j + 1) - 1) == j * (j - 1) + 2 * j) by (nonlinear_arith);
            assert(2 * (pairs + j) <= 0xFFFF_FFFF * 0xFFFF_FFFF) by (nonlinear_arith)
                requires
                    2 * (pairs + j) == (j + 1) * j,
                    0 <= j < 0xFFFF_FFFF,
            ;
            assert((pairs + j) * 0x1FF_FFFF <= 0xFFFF_FFFF * 0xFFFF_FFFF
                * 0x200_0000) by (nonlinear_arith)
                requires
                    0 <= 2 * (pairs + j) <= 0xFFFF_FFFF * 0xFFFF_FFFF,
            ;
        }
        total = total + row;
        pairs = pairs + j as u128;
        j = j + 1;
    }
    proof {
        assert(pal@.take(count as int) =~= pal@);
        assert(pairs >= 1) by (nonlinear_arith)
            requires
                2 * pairs == count * (count - 1),
                count >= 2,
        ;
        let q = total / pairs;
        assert(q < SCALED_DISTANCE_LIMIT) by (nonlinear_arith)
            requires
                pairs >= 1,
                0 <= total <= pairs * 0x1FF_FFFF,
                q == total / pairs,
        ;
    }
    (total / pairs) as u64
}

/// The sum of channel `ch` over a sequence of colours.
pub open spec fn channel_sum(s: Seq<Color>, ch: int) -> int
    decreases s.len(),
{
    if s.len() == 0 {
        0
    } else {
        channel_sum(s.drop_last(), ch) + s.last().channel(ch)
    }
}

/// A channel sum lies between zero and 255 times the number of colours.
pub proof fn lemma_channel_sum_bounds(s: Seq<Color>, ch: int)
    ensures
        0 <= channel_sum(s, ch) <= 255 * s.len(),
    decreases s.len(),
{
    if s.len() > 0 {
        lemma_channel_sum_bounds(s.drop_last(), ch);
    }
}

/// The truncated mean of channel `ch` over a non-empty sequence of colours.
pub open spec fn channel_mean(s: Seq<Color>, ch: int) -> int {
    channel_sum(s, ch) / (s.len() as int)
}

/// The mean of a non-empty sequence fits a channel.
pub proof fn lemma_channel_mean_bounds(s: Seq<Color>, ch: int)
    requires
        s.len() > 0,
    ensures
        0 <= channel_mean(s, ch) <= 255,
{
    lemma_channel_sum_bounds(s, ch);
    let sum = channel_sum(s, ch);
    let n = s.len() as int;
    assert(0 <= sum / n <= 255) by (nonlinear_arith)
        requires
            0 <= sum <= 255 * n,
            n > 0,
    ;
}

/// The colour whose channels are the truncated means of the channels of a
/// non-empty sequence of colours.
pub open spec fn mean_color(s: Seq<Color>) -> Color {
    Color {
        r: channel_mean(s, 0) as u8,
        g: channel_mean(s, 1) as u8,
        b: channel_mean(s, 2) as u8,
    }
}

/// The four ways to reduce a population of colours to a palette.
#[derive(Clone, Copy, Debug, PartialEq, Eq, Structural)]
pub enum SelectionStrategy {
    Random,
    Average,
    KMeans,
    Median,
}

/// The smaller of two lengths.
pub open spec fn min_len(a: int, b: int) -> int {
    if a <= b {
        a
    } else {
        b
    }
}

/// `sample` is what sampling `n` colours from `population` may give: `n`
/// colours, or the whole population when it has no more than that, from
/// distinct positions of the population.
pub open spec fn drawn_sample(population: Seq<Color>, n: int, sample: Seq<Color>) -> bool {
    &&& sample.len() == min_len(n, population.len() as int)
    &&& drawn_from(population, sample)
    &&& population.len() <= n ==> sample == population
}

/// Quantizes a population by sampling: draws `num_colours` colours from it
/// at random, without replacement. A population with fewer colours than
/// asked for is returned whole, in its order. A target of zero or an empty
/// population is rejected.
pub fn select_randomly(colors: &Vec<Color>, num_colours: usize) -> (r: Result<
    Vec<Color>,
    PixelError,
>)
    ensures
        num_colours == 0 || colors@.len() == 0 ==> r == Err::<Vec<Color>, PixelError>(
            PixelError::InvalidArgument,
        ),
        num_colours > 0 && colors@.len() > 0 ==> r is Ok,
        r is Ok ==> drawn_sample(colors@, num_colours as int, r->Ok_0@),
{
    if num_colours == 0 || colors.len() == 0 {
        return Err(PixelError::InvalidArgument);
    }
    let amount = if num_colours <= colors.len() {
        num_colours
    } else {
        colors.len()
    };
    Ok(choose_multiple(colors, amount))
}

/// The size of the chunks that the bucket average cuts a population of
/// `population` colours into for a target of `n`: `population / n`, but at
/// least one.
pub open spec fn chunk_size(population: int, n: int) -> int {
    if population / n < 1 {
        1
    } else {
        population / n
    }
}

/// The number of chunks of size `chunk` that `population` colours fall
/// into, the last one possibly shorter: `population / chunk` rounded up.
pub open spec fn chunk_count(population: int, chunk: int) -> int {
    (population + chunk - 1) / chunk
}

/// Chunk `i` of a population cut into chunks of size `chunk`.
pub open spec fn chunk_of(colors: Seq<Color>, chunk: int, i: int) -> Seq<Color> {
    colors.subrange(i * chunk, min_len((i + 1) * chunk, colors.len() as int))
}

/// The palette the bucket average gives: the mean colour of each chunk, in
/// chunk order.
pub open spec fn bucket_average(colors: Seq<Color>, n: int) -> Seq<Color> {
    let chunk = chunk_size(colors.len() as int, n);
    Seq::new(
        chunk_count(colors.len() as int, chunk) as nat,
        |i: int| mean_color(chunk_of(colors, chunk, i)),
    )
}

/// How many colours the bucket average returns for a population of
/// `population >= 1` colours and a target of `n >= 1`: at least one, at
/// most one per colour of the population, at least `n` when the population
/// has that many, and exactly `n` when `n` divides the population size.
pub proof fn lemma_chunk_count(population: int, n: int)
    requires
        population >= 1,
        n >= 1,
    ensures
        1 <= chunk_count(population, chunk_size(population, n)) <= population,
        population >= n ==> chunk_count(population, chunk_size(population, n)) >= n,
        population % n == 0 ==> chunk_count(population, chunk_size(population, n)) == n,
{
    let chunk = chunk_size(population, n);
    let q = population / n;
    assert(q >= 0 && n * q <= population < n * q + n && population % n == population - n * q && (
    population >= n ==> q >= 1)) by (nonlinear_arith)
        requires
            population >= 1,
            n >= 1,
            q == population / n,
    ;
    let count = (population + chunk - 1) / chunk;
    assert(chunk * count <= population + chunk - 1 < chunk * count + chunk) by (nonlinear_arith)
        requires
            chunk >= 1,
            count == (population + chunk - 1) / chunk,
    ;
    assert(count >= 1 && count <= population) by (nonlinear_arith)
        requires
            chunk >= 1,
            population >= 1,
            chunk * count <= population + chunk - 1 < chunk * count + chunk,
    ;
    if population >= n {
        assert(chunk == q);
        assert(count >= n) by (nonlinear_arith)
            requires
                chunk >= 1,
                n >= 1,
                n * chunk <= population,
                population + chunk - 1 < chunk * count + chunk,
        ;
    }
    if population % n == 0 {
        assert(q >= 1) by (nonlinear_arith)
            requires
                population >= 1,
                n >= 1,
                population == n * q,
        ;
        assert(population == n * chunk);
        assert(count == n) by (nonlinear_arith)
            requires
                chunk >= 1,
                n >= 1,
                population == n * chunk,
                chunk * count <= population + chunk - 1 < chunk * count + chunk,
        ;
    }
}

/// Quantizes a population by bucket average: cuts it, in its order, into
/// chunks of `max(1, len / num_colours)` colours, the last chunk possibly
/// shorter, and returns the mean colour of each chunk.
///
/// The number of colours returned is `len / chunk` rounded up. Of a
/// population with at least `num_colours` colours it is `num_colours` when
/// that divides the population size and more otherwise. A target of zero or
/// an empty population is rejected.
pub fn select_average(colors: &Vec<Color>, num_colours: usize) -> (r: Result<
    Vec<Color>,
    PixelError,
>)
    ensures
        num_colours == 0 || colors@.len() == 0 ==> r == Err::<Vec<Color>, PixelError>(
            PixelError::InvalidArgument,
        ),
        num_colours > 0 && colors@.len() > 0 ==> r is Ok && r->Ok_0@ == bucket_average(
            colors@,
            num_colours as int,
        ),
        r is Ok ==> r->Ok_0@.len() == chunk_count(
            colors@.len() as int,
            chunk_size(colors@.len() as int, num_colours as int),
        ),
        r is Ok ==> 1 <= r->Ok_0@.len() <= colors@.len(),
        r is Ok && colors@.len() >= num_colours ==> r->Ok_0@.len() >= num_colours,
        r is Ok && colors@.len() % (num_colours as nat) == 0 ==> r->Ok_0@.len() == num_colours,
{
    if num_colours == 0 || colors.len() == 0 {
        return Err(PixelError::InvalidArgument);
    }
    let len = colors.len();
    let chunk = if len / num_colours < 1 {
        1
    } else {
        len / num_colours
    };
    let ghost count = chunk_count(len as int, chunk as int);
    proof {
        lemma_chunk_count(len as int, num_colours as int);
        assert(chunk * count <= len + chunk - 1 < chunk * count + chunk) by (nonlinear_arith)
            requires
                chunk >= 1,
                count == (len + chunk - 1) / (chunk as int),
        ;
    }
    let mut means: Vec<Color> = Vec::new();
    let mut start: usize = 0;
    while start < len
        invariant
            len == colors@.len(),
            chunk >= 1,
            count == chunk_count(len as int, chunk as int),
            chunk * count <= len + chunk - 1 < chunk * count + chunk,
            start <= len,
            start == min_len(means@.len() * chunk, len as int),
            means@.len() <= count,
            forall|i: int|
                0 <= i < means@.len() ==> #[trigger] means@[i] == mean_color(
                    chunk_of(colors@, chunk as int, i),
                ),
        decreases len - start,
    {
        let end = if len - start < chunk {
            len
        } else {
            start + chunk
        };
        let ghost done = means@.len() as int;
        proof {
            assert(start == done * chunk);
            assert((done + 1) * chunk == done * chunk + chunk) by (nonlinear_arith);
            assert(end == min_len((done + 1) * chunk, len as int));
            assert(done < count) by (nonlinear_arith)
                requires
                    done * chunk < len,
                    len + chunk - 1 < chunk * count + chunk,
                    chunk >= 1,
            ;
        }
        means.push(mean_range(colors, start, end));
        start = end;
    }
    proof {
        let done = means@.len() as int;
        assert(done == count) by (nonlinear_arith)
            requires
                len <= done * chunk,
                done <= count,
                chunk * count <= len + chunk - 1,
                chunk >= 1,
        ;
        assert(means@ =~= bucket_average(colors@, num_colours as int));
    }
    Ok(means)
}

/// What k-means ends with.
#[derive(Debug)]
pub struct ClusterState {
    /// The centroids reached.
    pub centroids: Vec<Color>,
    /// For each colour of the population, the position of its nearest
    /// centroid in `centroids`.
    pub assignments: Vec<usize>,
    /// Whether the last round left the centroids unchanged. When it is
    /// false the round limit ended the run first.
    pub converged: bool,
}

/// Every colour is assigned to a centroid that no other centroid beats:
/// the assigned centroid is at most as far from the colour as any other,
/// and strictly closer than every centroid stored before it.
pub open spec fn assigned_to_nearest(
    colors: Seq<Color>,
    centroids: Seq<Color>,
    assignments: Seq<usize>,
) -> bool {
    &&& assignments.len() == colors.len()
    &&& forall|i: int|
        0 <= i < colors.len() ==> 0 <= #[trigger] assignments[i] < centroids.len()
    &&& forall|i: int, j: int|
        0 <= i < colors.len() && 0 <= j < centroids.len() ==> squared_distance_spec(
            colors[i],
            centroids[#[trigger] assignments[i] as int],
        ) <= squared_distance_spec(colors[i], #[trigger] centroids[j])
    &&& forall|i: int, j: int|
        0 <= i < colors.len() && 0 <= j < assignments[i] ==> squared_distance_spec(
            colors[i],
            centroids[#[trigger] assignments[i] as int],
        ) < squared_distance_spec(colors[i], #[trigger] centroids[j])
}

/// Assigning each colour to `nearest_index` assigns it to a nearest
/// centroid.
pub proof fn lemma_assignment_is_nearest(
    colors: Seq<Color>,
    centroids: Seq<Color>,
    assignments: Seq<usize>,
)
    requires
        centroids.len() > 0,
        assignments.len() == colors.len(),
        forall|i: int|
            0 <= i < colors.len() ==> #[trigger] assignments[i] as int == nearest_index(
                centroids,
                colors[i],
            ),
    ensures
        assigned_to_nearest(colors, centroids, assignments),
{
    assert forall|i: int| 0 <= i < colors.len() implies 0 <= #[trigger] assignments[i]
        < centroids.len() by {
        lemma_nearest_index(centroids, colors[i]);
    }
    assert forall|i: int, j: int|
        0 <= i < colors.len() && 0 <= j < centroids.len() implies squared_distance_spec(
        colors[i],
        centroids[#[trigger] assignments[i] as int],
    ) <= squared_distance_spec(colors[i], #[trigger] centroids[j]) by {
        lemma_nearest_index(centroids, colors[i]);
    }
    assert forall|i: int, j: int|
        0 <= i < colors.len() && 0 <= j < assignments[i] implies squared_distance_spec(
        colors[i],
        centroids[#[trigger] assignments[i] as int],
    ) < squared_distance_spec(colors[i], #[trigger] centroids[j]) by {
        lemma_nearest_index(centroids, colors[i]);
    }
}

/// Runs k-means with `num_colours` clusters from the given centroids, for
/// at most `max_iterations` rounds. A round assigns every colour to its
/// nearest centroid, the first stored winning ties, and replaces each
/// centroid by the mean of its colours, or by black when it has none. The
/// run ends with the first round that changes no centroid.
///
/// No starting centroid, or more of them than clusters, is rejected.
pub fn kmeans_refine(
    colors: &Vec<Color>,
    initial: Vec<Color>,
    num_colours: usize,
    max_iterations: usize,
) -> (r: Result<ClusterState, PixelError>)
    ensures
        initial@.len() == 0 || initial@.len() > num_colours ==> r is Err && r->Err_0
            == PixelError::InvalidArgument,
        0 < initial@.len() <= num_colours ==> r is Ok,
        r is Ok ==> r->Ok_0.centroids@ == kmeans_run(
            colors@,
            initial@,
            num_colours as int,
            max_iterations as nat,
        ).0,
        r is Ok ==> r->Ok_0.converged == kmeans_run(
            colors@,
            initial@,
            num_colours as int,
            max_iterations as nat,
        ).1,
        r is Ok && r->Ok_0.converged ==> kmeans_step(
            colors@,
            r->Ok_0.centroids@,
            num_colours as int,
        ) == r->Ok_0.centroids@,
        r is Ok && (max_iterations > 0 || initial@.len() == num_colours)
            ==> r->Ok_0.centroids@.len() == num_colours,
        r is Ok ==> assigned_to_nearest(colors@, r->Ok_0.centroids@, r->Ok_0.assignments@),
{
    if initial.len() == 0 || initial.len() > num_colours {
        return Err(PixelError::InvalidArgument);
    }
    let mut centroids = initial;
    let mut converged = false;
    let mut rounds: usize = max_iterations;
    while rounds > 0 && !converged
        invariant
            0 < centroids@.len() <= num_colours,
            kmeans_run(colors@, initial@, num_colours as int, max_iterations as nat) == (
                if converged {
                    (centroids@, true)
                } else {
                    kmeans_run(colors@, centroids@, num_colours as int, rounds as nat)
                }
            ),
        decreases
                rounds,
                (if converged {
                    0int
                } else {
                    1int
                }),
    {
        let next = step(colors, &centroids, num_colours);
        if same_colors(&centroids, &next) {
            converged = true;
        } else {
            centroids = next;
            rounds = rounds - 1;
        }
    }
    let assignments = assign(colors, &centroids);
    proof {
        lemma_kmeans_run_len(colors@, initial@, num_colours as int, max_iterations as nat);
        lemma_assignment_is_nearest(colors@, centroids@, assignments@);
    }
    Ok(ClusterState { centroids, assignments, converged })
}

/// `centroids` is what k-means with `k` clusters and at most `rounds`
/// rounds may give for `population`: the result of the run from some
/// sample of `k` colours of the population.
pub open spec fn kmeans_palette(
    population: Seq<Color>,
    k: int,
    rounds: nat,
    centroids: Seq<Color>,
) -> bool {
    exists|initial: Seq<Color>|
        drawn_sample(population, k, initial) && (#[trigger] kmeans_run(
            population,
            initial,
            k,
            rounds,
        )).0 == centroids
}

/// Quantizes a population by k-means. The starting centroids are drawn from
/// the population at random, without replacement, `num_colours` of them or
/// the whole population when it has fewer; `kmeans_refine` does the rest.
/// A target of zero or an empty population is rejected.
pub fn select_kmeans(colors: &Vec<Color>, num_colours: usize, max_iterations: usize) -> (r: Result<
    ClusterState,
    PixelError,
>)
    ensures
        num_colours == 0 || colors@.len() == 0 ==> r is Err && r->Err_0
            == PixelError::InvalidArgument,
        num_colours > 0 && colors@.len() > 0 ==> r is Ok,
        r is Ok ==> exists|initial: Seq<Color>|
            drawn_sample(colors@, num_colours as int, initial) && #[trigger] kmeans_run(
                colors@,
                initial,
                num_colours as int,
                max_iterations as nat,
            ) == (r->Ok_0.centroids@, r->Ok_0.converged),
        r is Ok ==> kmeans_palette(
            colors@,
            num_colours as int,
            max_iterations as nat,
            r->Ok_0.centroids@,
        ),
        r is Ok && colors@.len() >= num_colours ==> r->Ok_0.centroids@.len() == num_colours,
        r is Ok && r->Ok_0.converged ==> kmeans_step(
            colors@,
            r->Ok_0.centroids@,
            num_colours as int,
        ) == r->Ok_0.centroids@,
        r is Ok ==> assigned_to_nearest(colors@, r->Ok_0.centroids@, r->Ok_0.assignments@),
{
    if num_colours == 0 || colors.len() == 0 {
        return Err(PixelError::InvalidArgument);
    }
    let amount = if num_colours <= colors.len() {
        num_colours
    } else {
        colors.len()
    };
    let initial = choose_multiple(colors, amount);
    let ghost start = initial@;
    let state = kmeans_refine(colors, initial, num_colours, max_iterations);
    proof {
        assert(state is Ok);
        assert(kmeans_run(colors@, start, num_colours as int, max_iterations as nat) == (
            state->Ok_0.centroids@,
            state->Ok_0.converged,
        ));
    }
    state
}

/// Quantizes a population by median cut. The population starts as one box;
/// while there are fewer than `num_colours` boxes, every box with more than
/// one colour is cut in two at the median of its widest channel. The result
/// holds the mean colour of each final box.
///
/// A round cuts every box it can, so the result may hold more colours than
/// asked for (fewer than twice as many), and it holds fewer when the boxes
/// run out of colours to cut first. A target of zero or an empty population
/// is rejected.
pub fn select_median(colors: &Vec<Color>, num_colours: usize) -> (r: Result<Vec<Color>, PixelError>)
    ensures
        num_colours == 0 || colors@.len() == 0 ==> r == Err::<Vec<Color>, PixelError>(
            PixelError::InvalidArgument,
        ),
        num_colours > 0 && colors@.len() > 0 ==> r is Ok && r->Ok_0@ == median_cut(
            colors@,
            num_colours as int,
        ),
        r is Ok ==> 1 <= r->Ok_0@.len() <= colors@.len(),
        r is Ok && num_colours >= 2 ==> r->Ok_0@.len() <= 2 * (num_colours - 1),
        r is Ok && num_colours == 1 ==> r->Ok_0@ == seq![mean_color(colors@)],
{
    if num_colours == 0 || colors.len() == 0 {
        return Err(PixelError::InvalidArgument);
    }
    let mut boxes: Vec<Vec<Color>> = Vec::new();
    boxes.push(copy_colors(colors));
    proof {
        assert(box_views(boxes@) =~= seq![colors@]);
        assert(seq![colors@].drop_last() =~= Seq::<Seq<Color>>::empty());
        assert(total_colors(Seq::<Seq<Color>>::empty()) == 0);
        assert(total_colors(seq![colors@]) == colors@.len());
        lemma_median_cut_boxes(seq![colors@], num_colours as int);
    }
    while boxes.len() < num_colours
        invariant
            all_nonempty(box_views(boxes@)),
            median_cut_boxes(box_views(boxes@), num_colours as int) == median_cut_boxes(
                seq![colors@],
                num_colours as int,
            ),
        ensures
            median_cut_boxes(seq![colors@], num_colours as int) == box_views(boxes@),
        decreases missing_boxes(boxes@.len(), num_colours as int),
    {
        let next = cut_round(&boxes);
        proof {
            lemma_split_round(box_views(boxes@));
        }
        if next.len() <= boxes.len() {
            break ;
        }
        boxes = next;
    }
    let means = box_means(&boxes);
    proof {
        assert(means@ =~= median_cut(colors@, num_colours as int));
        if num_colours == 1 {
            assert(means@ =~= seq![mean_color(colors@)]);
        }
    }
    Ok(means)
}

} // verus!
