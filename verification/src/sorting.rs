//! A stable sort of colours by one channel.

use vstd::prelude::*;
use crate::colour::Color;

verus! {

/// The colours of `s` whose channel `ch` equals `key`, in the order in
/// which `s` holds them.
pub open spec fn with_key(s: Seq<Color>, ch: int, key: int) -> Seq<Color>
    decreases s.len(),
{
    if s.len() == 0 {
        Seq::empty()
    } else {
        let before = with_key(s.drop_last(), ch, key);
        if s.last().channel(ch) == key {
            before.push(s.last())
        } else {
            before
        }
    }
}

/// The colours of `s` whose channel `ch` is below `bound`, ordered by that
/// channel; colours with the same channel value keep the order they have
/// in `s`.
pub open spec fn sorted_below(s: Seq<Color>, ch: int, bound: int) -> Seq<Color>
    decreases bound,
{
    if bound <= 0 {
        Seq::empty()
    } else {
        sorted_below(s, ch, bound - 1) + with_key(s, ch, bound - 1)
    }
}

/// `s` sorted by channel `ch`, stably: colours with the same channel value
/// keep the order they have in `s`.
pub open spec fn sort_by_channel(s: Seq<Color>, ch: int) -> Seq<Color> {
    sorted_below(s, ch, 256)
}

/// Every colour of `with_key(s, ch, key)` has `key` in channel `ch`.
pub proof fn lemma_with_key_channel(s: Seq<Color>, ch: int, key: int)
    ensures
        with_key(s, ch, key).len() <= s.len(),
        forall|i: int|
            0 <= i < with_key(s, ch, key).len() ==> (#[trigger] with_key(s, ch, key)[i]).channel(
                ch,
            ) == key,
    decreases s.len(),
{
    if s.len() > 0 {
        lemma_with_key_channel(s.drop_last(), ch, key);
    }
}

/// How `sorted_below` grows when one colour is appended to its input.
proof fn lemma_sorted_below_len_step(s: Seq<Color>, ch: int, bound: int)
    requires
        s.len() > 0,
    ensures
        sorted_below(s, ch, bound).len() == sorted_below(s.drop_last(), ch, bound).len() + (if 0
            <= s.last().channel(ch) < bound {
            1int
        } else {
            0int
        }),
    decreases bound,
{
    if bound > 0 {
        lemma_sorted_below_len_step(s, ch, bound - 1);
    }
}

/// Sorting keeps the number of colours.
pub proof fn lemma_sort_by_channel_len(s: Seq<Color>, ch: int)
    ensures
        sort_by_channel(s, ch).len() == s.len(),
    decreases s.len(),
{
    if s.len() == 0 {
        lemma_sorted_below_empty(s, ch, 256);
    } else {
        lemma_sort_by_channel_len(s.drop_last(), ch);
        lemma_sorted_below_len_step(s, ch, 256);
    }
}

/// Sorting nothing gives nothing.
proof fn lemma_sorted_below_empty(s: Seq<Color>, ch: int, bound: int)
    requires
        s.len() == 0,
    ensures
        sorted_below(s, ch, bound).len() == 0,
    decreases bound,
{
    if bound > 0 {
        lemma_sorted_below_empty(s, ch, bound - 1);
    }
}

/// Every colour of `sorted_below(s, ch, bound)` has a channel value below
/// `bound`, and the channel values never decrease along the sequence.
pub proof fn lemma_sorted_below_ordered(s: Seq<Color>, ch: int, bound: int)
    ensures
        forall|i: int|
            0 <= i < sorted_below(s, ch, bound).len() ==> (#[trigger] sorted_below(
                s,
                ch,
                bound,
            )[i]).channel(ch) < bound,
        forall|i: int, j: int|
            0 <= i <= j < sorted_below(s, ch, bound).len() ==> (#[trigger] sorted_below(
                s,
                ch,
                bound,
            )[i]).channel(ch) <= (#[trigger] sorted_below(s, ch, bound)[j]).channel(ch),
    decreases bound,
{
    if bound > 0 {
        lemma_sorted_below_ordered(s, ch, bound - 1);
        lemma_with_key_channel(s, ch, bound - 1);
        let head = sorted_below(s, ch, bound - 1);
        let tail = with_key(s, ch, bound - 1);
        let whole = sorted_below(s, ch, bound);
        assert forall|i: int| 0 <= i < whole.len() implies (#[trigger] whole[i]).channel(ch)
            < bound && (i >= head.len() ==> whole[i].channel(ch) == bound - 1) by {
            if i < head.len() {
                assert(whole[i] == head[i]);
            } else {
                assert(whole[i] == tail[i - head.len()]);
            }
        }
        assert forall|i: int, j: int| 0 <= i <= j < whole.len() implies (#[trigger] whole[i])
            .channel(ch) <= (#[trigger] whole[j]).channel(ch) by {
            if j < head.len() {
                assert(whole[i] == head[i]);
                assert(whole[j] == head[j]);
            }
        }
    }
}

/// The result of sorting by a channel is ordered by that channel.
pub proof fn lemma_sort_by_channel_ordered(s: Seq<Color>, ch: int)
    ensures
        forall|i: int, j: int|
            0 <= i <= j < sort_by_channel(s, ch).len() ==> (#[trigger] sort_by_channel(
                s,
                ch,
            )[i]).channel(ch) <= (#[trigger] sort_by_channel(s, ch)[j]).channel(ch),
{
    lemma_sorted_below_ordered(s, ch, 256);
}

/// Picking the colours with one channel value from two sequences joined is
/// picking them from each and joining the results.
pub proof fn lemma_with_key_concat(a: Seq<Color>, b: Seq<Color>, ch: int, key: int)
    ensures
        with_key(a + b, ch, key) == with_key(a, ch, key) + with_key(b, ch, key),
    decreases b.len(),
{
    if b.len() == 0 {
        assert(a + b =~= a);
        assert(with_key(a, ch, key) + with_key(b, ch, key) =~= with_key(a, ch, key));
    } else {
        lemma_with_key_concat(a, b.drop_last(), ch, key);
        assert((a + b).drop_last() =~= a + b.drop_last());
        assert((a + b).last() == b.last());
        let head = with_key(a, ch, key);
        let tail = with_key(b.drop_last(), ch, key);
        assert((head + tail).push(b.last()) =~= head + tail.push(b.last()));
    }
}

/// Picking the colours with channel value `other` from those picked for
/// `key` gives them all when the two values are the same and none
/// otherwise.
pub proof fn lemma_with_key_twice(s: Seq<Color>, ch: int, key: int, other: int)
    ensures
        with_key(with_key(s, ch, key), ch, other) == if key == other {
            with_key(s, ch, key)
        } else {
            Seq::<Color>::empty()
        },
    decreases s.len(),
{
    if s.len() > 0 {
        lemma_with_key_twice(s.drop_last(), ch, key, other);
        let before = with_key(s.drop_last(), ch, key);
        if s.last().channel(ch) == key {
            assert(before.push(s.last()).drop_last() =~= before);
        }
    }
}

/// Sorting is stable and loses nothing: for every channel value, the
/// sorted sequence holds the colours with that value that the input holds,
/// in the order of the input.
pub proof fn lemma_sorted_below_stable(s: Seq<Color>, ch: int, bound: int, key: int)
    ensures
        with_key(sorted_below(s, ch, bound), ch, key) == if 0 <= key < bound {
            with_key(s, ch, key)
        } else {
            Seq::<Color>::empty()
        },
    decreases bound,
{
    if bound > 0 {
        lemma_sorted_below_stable(s, ch, bound - 1, key);
        lemma_with_key_concat(sorted_below(s, ch, bound - 1), with_key(s, ch, bound - 1), ch, key);
        lemma_with_key_twice(s, ch, bound - 1, key);
        let head = with_key(sorted_below(s, ch, bound - 1), ch, key);
        let tail = with_key(with_key(s, ch, bound - 1), ch, key);
        assert(head + Seq::<Color>::empty() =~= head);
        assert(Seq::<Color>::empty() + tail =~= tail);
    }
}

/// No colour has a channel value outside `[0, 255]`.
pub proof fn lemma_with_key_outside(s: Seq<Color>, ch: int, key: int)
    requires
        key < 0 || key > 255,
    ensures
        with_key(s, ch, key) == Seq::<Color>::empty(),
    decreases s.len(),
{
    if s.len() > 0 {
        lemma_with_key_outside(s.drop_last(), ch, key);
    }
}

/// Sorting by a channel is stable and loses nothing: for every channel
/// value, the result holds the colours with that value that the input
/// holds, in the order of the input.
pub proof fn lemma_sort_by_channel_stable(s: Seq<Color>, ch: int, key: int)
    ensures
        with_key(sort_by_channel(s, ch), ch, key) == with_key(s, ch, key),
{
    lemma_sorted_below_stable(s, ch, 256, key);
    if key < 0 || key > 255 {
        lemma_with_key_outside(s, ch, key);
    }
}

/// Sorts colours by one channel (0 is red, 1 is green, anything else is
/// blue) with a stable bucket sort over the 256 channel values.
pub fn stable_sort_by_channel(colors: &Vec<Color>, ch: u8) -> (sorted: Vec<Color>)
    ensures
        sorted@ == sort_by_channel(colors@, ch as int),
        sorted@.len() == colors@.len(),
{
    let mut buckets: Vec<Vec<Color>> = Vec::new();
    let mut k: usize = 0;
    while k < 256
        invariant
            k <= 256,
            buckets@.len() == k,
            forall|j: int| 0 <= j < k ==> (#[trigger] buckets@[j])@ == Seq::<Color>::empty(),
        decreases 256 - k,
    {
        buckets.push(Vec::new());
        k = k + 1;
    }
    let mut i: usize = 0;
    while i < colors.len()
        invariant
            i <= colors.len(),
            buckets@.len() == 256,
            forall|j: int|
                0 <= j < 256 ==> (#[trigger] buckets@[j])@ == with_key(
                    colors@.take(i as int),
                    ch as int,
                    j,
                ),
        decreases colors.len() - i,
    {
        let c = colors[i];
        let key = c.get(ch) as usize;
        let ghost before = buckets@;
        buckets[key].push(c);
        proof {
            let next = colors@.take(i + 1);
            assert(next.drop_last() =~= colors@.take(i as int));
            assert(next.last() == c);
            assert forall|j: int| 0 <= j < 256 implies (#[trigger] buckets@[j])@ == with_key(
                next,
                ch as int,
                j,
            ) by {
                if j != key {
                    assert(buckets@[j] == before[j]);
                }
            }
        }
        i = i + 1;
    }
    proof {
        assert(colors@.take(colors@.len() as int) =~= colors@);
    }
    let mut sorted: Vec<Color> = Vec::new();
    k = 0;
    while k < 256
        invariant
            k <= 256,
            buckets@.len() == 256,
            forall|j: int|
                0 <= j < 256 ==> (#[trigger] buckets@[j])@ == with_key(colors@, ch as int, j),
            sorted@ == sorted_below(colors@, ch as int, k as int),
        decreases 256 - k,
    {
        let bucket = &buckets[k];
        let ghost head = sorted@;
        let mut m: usize = 0;
        while m < bucket.len()
            invariant
                m <= bucket@.len(),
                sorted@ == head + bucket@.take(m as int),
            decreases bucket.len() - m,
        {
            sorted.push(bucket[m]);
            proof {
                assert(bucket@.take(m + 1) =~= bucket@.take(m as int).push(bucket@[m as int]));
            }
            m = m + 1;
        }
        proof {
            assert(bucket@.take(bucket@.len() as int) =~= bucket@);
        }
        k = k + 1;
    }
    proof {
        lemma_sort_by_channel_len(colors@, ch as int);
    }
    sorted
}

} // verus!
