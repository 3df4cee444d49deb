//! The distinct colours of a sequence of pixels.

use vstd::prelude::*;
use vstd::seq_lib::lemma_seq_contains_after_push;
use vstd::set_lib::{lemma_int_range, lemma_len_subset, set_int_range};
use crate::colour::Color;

verus! {

/// The number of different colours there are, `2^24`.
pub const MAX_COLORS: usize = 0x100_0000;

/// The colours that occur in `s`, each once, in the order of their first
/// occurrence.
pub open spec fn distinct_colors(s: Seq<Color>) -> Seq<Color>
    decreases s.len(),
{
    if s.len() == 0 {
        Seq::empty()
    } else {
        let before = distinct_colors(s.drop_last());
        if before.contains(s.last()) {
            before
        } else {
            before.push(s.last())
        }
    }
}

/// A colour as one number, `r * 2^16 + g * 2^8 + b`.
pub open spec fn color_code(c: Color) -> int {
    c.r * 65536 + c.g * 256 + c.b
}

/// `distinct_colors(s)` holds no colour twice, and holds exactly the
/// colours that `s` holds.
pub proof fn lemma_distinct_colors(s: Seq<Color>)
    ensures
        distinct_colors(s).no_duplicates(),
        distinct_colors(s).len() <= s.len(),
        forall|c: Color| #[trigger] distinct_colors(s).contains(c) <==> s.contains(c),
    decreases s.len(),
{
    if s.len() > 0 {
        let shorter = s.drop_last();
        let before = distinct_colors(shorter);
        lemma_distinct_colors(shorter);
        assert forall|c: Color| #[trigger] distinct_colors(s).contains(c) <==> s.contains(c) by {
            lemma_seq_contains_after_push(before, s.last(), c);
            lemma_seq_contains_after_push(shorter, s.last(), c);
            assert(shorter.push(s.last()) =~= s);
        }
    }
}

/// A sequence without duplicates holds at most as many colours as there
/// are.
pub proof fn lemma_distinct_bound(s: Seq<Color>)
    requires
        s.no_duplicates(),
    ensures
        s.len() <= MAX_COLORS,
{
    let codes = Seq::new(s.len(), |i: int| color_code(s[i]));
    assert forall|i: int, j: int|
        0 <= i < codes.len() && 0 <= j < codes.len() && i != j implies codes[i] != codes[j] by {
        assert(s[i] != s[j]);
    }
    codes.unique_seq_to_set();
    lemma_int_range(0, MAX_COLORS as int);
    let all = set_int_range(0, MAX_COLORS as int);
    assert forall|k: int| codes.to_set().contains(k) implies all.contains(k) by {
        let i = choose|i: int| 0 <= i < codes.len() && codes[i] == k;
        assert(k == color_code(s[i]));
    }
    lemma_len_subset(codes.to_set(), all);
}

} // verus!
