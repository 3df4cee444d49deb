//! Boxes of colours and how median cut splits them.

use vstd::prelude::*;
use crate::colour::{mean_color, Color};
use crate::sorting::{lemma_sort_by_channel_len, sort_by_channel, stable_sort_by_channel};
use crate::utils::mean_of;

verus! {

/// The smallest value of channel `ch` in `s`; 255 for an empty sequence.
pub open spec fn channel_min(s: Seq<Color>, ch: int) -> int
    decreases s.len(),
{
    if s.len() == 0 {
        255
    } else {
        let before = channel_min(s.drop_last(), ch);
        if s.last().channel(ch) < before {
            s.last().channel(ch)
        } else {
            before
        }
    }
}

/// The largest value of channel `ch` in `s`; 0 for an empty sequence.
pub open spec fn channel_max(s: Seq<Color>, ch: int) -> int
    decreases s.len(),
{
    if s.len() == 0 {
        0
    } else {
        let before = channel_max(s.drop_last(), ch);
        if s.last().channel(ch) > before {
            s.last().channel(ch)
        } else {
            before
        }
    }
}

/// The spread of channel `ch` over a box: largest value minus smallest.
pub open spec fn channel_range(s: Seq<Color>, ch: int) -> int {
    channel_max(s, ch) - channel_min(s, ch)
}

/// The channel along which a box is cut: the one with the largest spread,
/// red before green before blue when spreads are equal.
pub open spec fn widest_channel(s: Seq<Color>) -> int {
    let r = channel_range(s, 0);
    let g = channel_range(s, 1);
    let b = channel_range(s, 2);
    if r >= g && r >= b {
        0
    } else if g >= r && g >= b {
        1
    } else {
        2
    }
}

/// The lower half of a cut box: the box sorted along its widest channel, up
/// to the floor of half its size.
pub open spec fn lower_half(s: Seq<Color>) -> Seq<Color> {
    sort_by_channel(s, widest_channel(s)).take(s.len() as int / 2)
}

/// The upper half of a cut box: what `lower_half` leaves.
pub open spec fn upper_half(s: Seq<Color>) -> Seq<Color> {
    sort_by_channel(s, widest_channel(s)).skip(s.len() as int / 2)
}

/// One round of cutting: every box with more than one colour is replaced by
/// its two halves, every other box stays, and the order of boxes is kept.
pub open spec fn split_round(boxes: Seq<Seq<Color>>) -> Seq<Seq<Color>>
    decreases boxes.len(),
{
    if boxes.len() == 0 {
        Seq::empty()
    } else {
        let before = split_round(boxes.drop_last());
        let last = boxes.last();
        if last.len() <= 1 {
            before.push(last)
        } else {
            before.push(lower_half(last)).push(upper_half(last))
        }
    }
}

/// How many boxes are still missing to reach `n`; zero once there are
/// enough.
pub open spec fn missing_boxes(count: nat, n: int) -> int {
    if count < n {
        n - count
    } else {
        0
    }
}

/// The boxes that median cut ends with: rounds of cutting are repeated
/// while there are fewer than `n` boxes and the last round still cut one.
pub open spec fn median_cut_boxes(boxes: Seq<Seq<Color>>, n: int) -> Seq<Seq<Color>>
    decreases missing_boxes(boxes.len(), n),
{
    if boxes.len() >= n {
        boxes
    } else {
        let next = split_round(boxes);
        if next.len() <= boxes.len() {
            boxes
        } else {
            median_cut_boxes(next, n)
        }
    }
}

/// The palette median cut gives for a population and a target count: the
/// mean colour of each final box, in box order.
pub open spec fn median_cut(colors: Seq<Color>, n: int) -> Seq<Color> {
    let boxes = median_cut_boxes(seq![colors], n);
    Seq::new(boxes.len(), |i: int| mean_color(boxes[i]))
}

/// Every box holds at least one colour.
pub open spec fn all_nonempty(boxes: Seq<Seq<Color>>) -> bool {
    forall|i: int| 0 <= i < boxes.len() ==> (#[trigger] boxes[i]).len() > 0
}

/// The number of colours in all boxes together.
pub open spec fn total_colors(boxes: Seq<Seq<Color>>) -> int
    decreases boxes.len(),
{
    if boxes.len() == 0 {
        0
    } else {
        total_colors(boxes.drop_last()) + boxes.last().len()
    }
}

/// The two halves of a box with at least two colours are both non-empty and
/// together hold as many colours as the box.
pub proof fn lemma_halves(s: Seq<Color>)
    requires
        s.len() >= 2,
    ensures
        lower_half(s).len() == s.len() as int / 2,
        upper_half(s).len() == s.len() - s.len() as int / 2,
        lower_half(s).len() > 0,
        upper_half(s).len() > 0,
{
    lemma_sort_by_channel_len(s, widest_channel(s));
}

/// A round of cutting never loses a box and at most doubles their number;
/// it keeps all boxes non-empty and keeps the total number of colours.
pub proof fn lemma_split_round(boxes: Seq<Seq<Color>>)
    ensures
        boxes.len() <= split_round(boxes).len() <= 2 * boxes.len(),
        all_nonempty(boxes) ==> all_nonempty(split_round(boxes)),
        total_colors(split_round(boxes)) == total_colors(boxes),
    decreases boxes.len(),
{
    if boxes.len() > 0 {
        let shorter = boxes.drop_last();
        let last = boxes.last();
        lemma_split_round(shorter);
        let before = split_round(shorter);
        if all_nonempty(boxes) {
            assert forall|i: int| 0 <= i < shorter.len() implies (#[trigger] shorter[i]).len()
                > 0 by {
                assert(shorter[i] == boxes[i]);
            }
        }
        if last.len() <= 1 {
            assert(split_round(boxes).drop_last() =~= before);
        } else {
            lemma_halves(last);
            let one = before.push(lower_half(last));
            assert(one.drop_last() =~= before);
            assert(split_round(boxes).drop_last() =~= one);
            assert(total_colors(one) == total_colors(before) + lower_half(last).len());
            assert(total_colors(split_round(boxes)) == total_colors(one) + upper_half(last).len());
        }
    }
}

/// Non-empty boxes are never more than the colours they hold.
pub proof fn lemma_nonempty_boxes_count(boxes: Seq<Seq<Color>>)
    requires
        all_nonempty(boxes),
    ensures
        boxes.len() <= total_colors(boxes),
    decreases boxes.len(),
{
    if boxes.len() > 0 {
        let shorter = boxes.drop_last();
        assert forall|i: int| 0 <= i < shorter.len() implies (#[trigger] shorter[i]).len() > 0 by {
            assert(shorter[i] == boxes[i]);
        }
        lemma_nonempty_boxes_count(shorter);
    }
}

/// What holds of the final boxes of median cut when it starts from
/// non-empty boxes: they are non-empty and hold the same colours in total;
/// there is at least one box per starting box, at most one box per colour,
/// and fewer than twice the target unless the start already had more.
pub proof fn lemma_median_cut_boxes(boxes: Seq<Seq<Color>>, n: int)
    requires
        all_nonempty(boxes),
    ensures
        all_nonempty(median_cut_boxes(boxes, n)),
        total_colors(median_cut_boxes(boxes, n)) == total_colors(boxes),
        boxes.len() <= median_cut_boxes(boxes, n).len() <= total_colors(boxes),
        boxes.len() < n ==> median_cut_boxes(boxes, n).len() <= 2 * (n - 1),
        boxes.len() >= n ==> median_cut_boxes(boxes, n) == boxes,
    decreases missing_boxes(boxes.len(), n),
{
    lemma_nonempty_boxes_count(boxes);
    if boxes.len() < n {
        let next = split_round(boxes);
        lemma_split_round(boxes);
        if next.len() > boxes.len() {
            lemma_median_cut_boxes(next, n);
        }
    }
}

/// The views of a vector of boxes.
pub open spec fn box_views(boxes: Seq<Vec<Color>>) -> Seq<Seq<Color>> {
    Seq::new(boxes.len(), |i: int| boxes[i]@)
}

/// Finds the smallest and the largest value of each channel in one pass.
/// The result is `(min r, min g, min b, max r, max g, max b)`.
pub fn channel_bounds(colors: &Vec<Color>) -> (r: (u8, u8, u8, u8, u8, u8))
    ensures
        r.0 as int == channel_min(colors@, 0),
        r.1 as int == channel_min(colors@, 1),
        r.2 as int == channel_min(colors@, 2),
        r.3 as int == channel_max(colors@, 0),
        r.4 as int == channel_max(colors@, 1),
        r.5 as int == channel_max(colors@, 2),
{
    let mut min_r: u8 = 255;
    let mut min_g: u8 = 255;
    let mut min_b: u8 = 255;
    let mut max_r: u8 = 0;
    let mut max_g: u8 = 0;
    let mut max_b: u8 = 0;
    let mut i: usize = 0;
    while i < colors.len()
        invariant
            i <= colors.len(),
            min_r as int == channel_min(colors@.take(i as int), 0),
            min_g as int == channel_min(colors@.take(i as int), 1),
            min_b as int == channel_min(colors@.take(i as int), 2),
            max_r as int == channel_max(colors@.take(i as int), 0),
            max_g as int == channel_max(colors@.take(i as int), 1),
            max_b as int == channel_max(colors@.take(i as int), 2),
        decreases colors.len() - i,
    {
        proof {
            assert(colors@.take(i + 1).drop_last() =~= colors@.take(i as int));
        }
        let c = colors[i];
        if c.r < min_r {
            min_r = c.r;
        }
        if c.g < min_g {
            min_g = c.g;
        }
        if c.b < min_b {
            min_b = c.b;
        }
        if c.r > max_r {
            max_r = c.r;
        }
        if c.g > max_g {
            max_g = c.g;
        }
        if c.b > max_b {
            max_b = c.b;
        }
        i = i + 1;
    }
    proof {
        assert(colors@.take(colors@.len() as int) =~= colors@);
    }
    (min_r, min_g, min_b, max_r, max_g, max_b)
}

/// Picks the channel along which a box is cut.
pub fn pick_channel(colors: &Vec<Color>) -> (ch: u8)
    ensures
        ch as int == widest_channel(colors@),
        ch <= 2,
{
    let (min_r, min_g, min_b, max_r, max_g, max_b) = channel_bounds(colors);
    let r_range: i16 = max_r as i16 - min_r as i16;
    let g_range: i16 = max_g as i16 - min_g as i16;
    let b_range: i16 = max_b as i16 - min_b as i16;
    if r_range >= g_range && r_range >= b_range {
        0
    } else if g_range >= r_range && g_range >= b_range {
        1
    } else {
        2
    }
}

/// Cuts a box with at least two colours into its lower and upper half.
pub(crate) fn cut_box(colors: &Vec<Color>) -> (halves: (Vec<Color>, Vec<Color>))
    requires
        colors@.len() >= 2,
    ensures
        halves.0@ == lower_half(colors@),
        halves.1@ == upper_half(colors@),
{
    let ch = pick_channel(colors);
    let sorted = stable_sort_by_channel(colors, ch);
    let mid = colors.len() / 2;
    let mut lower: Vec<Color> = Vec::new();
    let mut upper: Vec<Color> = Vec::new();
    let mut i: usize = 0;
    while i < mid
        invariant
            i <= mid <= sorted@.len(),
            lower@ == sorted@.take(i as int),
        decreases mid - i,
    {
        lower.push(sorted[i]);
        proof {
            assert(sorted@.take(i + 1) =~= sorted@.take(i as int).push(sorted@[i as int]));
        }
        i = i + 1;
    }
    while i < sorted.len()
        invariant
            mid <= i <= sorted@.len(),
            upper@ == sorted@.subrange(mid as int, i as int),
        decreases sorted.len() - i,
    {
        upper.push(sorted[i]);
        proof {
            assert(sorted@.subrange(mid as int, i + 1) =~= sorted@.subrange(
                mid as int,
                i as int,
            ).push(sorted@[i as int]));
        }
        i = i + 1;
    }
    proof {
        assert(sorted@.subrange(mid as int, sorted@.len() as int) =~= sorted@.skip(mid as int));
    }
    (lower, upper)
}

/// Copies a vector of colours.
pub fn copy_colors(colors: &Vec<Color>) -> (copy: Vec<Color>)
    ensures
        copy@ == colors@,
{
    let mut copy: Vec<Color> = Vec::new();
    let mut i: usize = 0;
    while i < colors.len()
        invariant
            i <= colors.len(),
            copy@ == colors@.take(i as int),
        decreases colors.len() - i,
    {
        copy.push(colors[i]);
        proof {
            assert(colors@.take(i + 1) =~= colors@.take(i as int).push(colors@[i as int]));
        }
        i = i + 1;
    }
    proof {
        assert(colors@.take(colors@.len() as int) =~= colors@);
    }
    copy
}

/// Runs one round of cutting over all boxes.
pub fn cut_round(boxes: &Vec<Vec<Color>>) -> (next: Vec<Vec<Color>>)
    ensures
        box_views(next@) == split_round(box_views(boxes@)),
{
    let mut next: Vec<Vec<Color>> = Vec::new();
    let mut i: usize = 0;
    let ghost views = box_views(boxes@);
    proof {
        assert(box_views(next@) =~= split_round(views.take(0)));
    }
    while i < boxes.len()
        invariant
            i <= boxes.len(),
            views == box_views(boxes@),
            box_views(next@) == split_round(views.take(i as int)),
        decreases boxes.len() - i,
    {
        let ghost before = box_views(next@);
        proof {
            assert(views.take(i + 1).drop_last() =~= views.take(i as int));
            assert(views.take(i + 1).last() == boxes@[i as int]@);
        }
        if boxes[i].len() <= 1 {
            next.push(copy_colors(&boxes[i]));
            proof {
                assert(box_views(next@) =~= before.push(boxes@[i as int]@));
            }
        } else {
            let (lower, upper) = cut_box(&boxes[i]);
            next.push(lower);
            next.push(upper);
            proof {
                assert(box_views(next@) =~= before.push(lower_half(boxes@[i as int]@)).push(
                    upper_half(boxes@[i as int]@),
                ));
            }
        }
        i = i + 1;
    }
    proof {
        assert(views.take(views.len() as int) =~= views);
    }
    next
}

/// Replaces every box by its mean colour.
pub(crate) fn box_means(boxes: &Vec<Vec<Color>>) -> (means: Vec<Color>)
    requires
        all_nonempty(box_views(boxes@)),
    ensures
        means@ == Seq::new(boxes@.len(), |i: int| mean_color(box_views(boxes@)[i])),
{
    let mut means: Vec<Color> = Vec::new();
    let mut i: usize = 0;
    while i < boxes.len()
        invariant
            i <= boxes.len(),
            all_nonempty(box_views(boxes@)),
            means@.len() == i,
            forall|j: int| 0 <= j < i ==> #[trigger] means@[j] == mean_color(box_views(boxes@)[j]),
        decreases boxes.len() - i,
    {
        proof {
            assert(box_views(boxes@)[i as int].len() > 0);
        }
        means.push(mean_of(&boxes[i]));
        i = i + 1;
    }
    proof {
        assert(means@ =~= Seq::new(boxes@.len(), |i: int| mean_color(box_views(boxes@)[i])));
    }
    means
}

} // verus!
