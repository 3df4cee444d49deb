//! The catalogue of diffusion kernels. A kernel lists, for each neighbour
//! that receives a part of a pixel's quantization error, its offset and its
//! weight as a fraction.

use vstd::prelude::*;
use crate::utils::{kernel_causal, kernel_valid, lemma_share_bounds, share, Tap};

verus! {

/// Floyd-Steinberg: 7/16 to the right; 3/16, 5/16, 1/16 below.
pub const DIFF_MAT_FLOYD_STEINBERG: [Tap; 4] = [
    ((1, 0), (7, 16)),
    ((-1, 1), (3, 16)),
    ((0, 1), (5, 16)),
    ((1, 1), (1, 16)),
];

/// Atkinson: 1/8 to each of six neighbours; a quarter of the error is
/// dropped.
pub const DIFF_MAT_ATKINSON: [Tap; 6] = [
    ((1, 0), (1, 8)),
    ((2, 0), (1, 8)),
    ((-1, 1), (1, 8)),
    ((0, 1), (1, 8)),
    ((1, 1), (1, 8)),
    ((0, 2), (1, 8)),
];

/// Jarvis, Judice and Ninke: twelve neighbours over three rows, in 48ths.
pub const DIFF_MAT_JARVIS_JUDICE_NINKE: [Tap; 12] = [
    ((1, 0), (7, 48)),
    ((2, 0), (5, 48)),
    ((-2, 1), (3, 48)),
    ((-1, 1), (5, 48)),
    ((0, 1), (7, 48)),
    ((1, 1), (5, 48)),
    ((2, 1), (3, 48)),
    ((-2, 2), (1, 48)),
    ((-1, 2), (3, 48)),
    ((0, 2), (5, 48)),
    ((1, 2), (3, 48)),
    ((2, 2), (1, 48)),
];

/// Stucki: twelve neighbours over three rows, in 42nds.
pub const DIFF_MAT_STUCKI: [Tap; 12] = [
    ((1, 0), (8, 42)),
    ((2, 0), (4, 42)),
    ((-2, 1), (2, 42)),
    ((-1, 1), (4, 42)),
    ((0, 1), (8, 42)),
    ((1, 1), (4, 42)),
    ((2, 1), (2, 42)),
    ((-2, 2), (1, 42)),
    ((-1, 2), (2, 42)),
    ((0, 2), (4, 42)),
    ((1, 2), (2, 42)),
    ((2, 2), (1, 42)),
];

/// Burkes: seven neighbours over two rows, in 32nds.
pub const DIFF_MAT_BURKES: [Tap; 7] = [
    ((1, 0), (8, 32)),
    ((2, 0), (4, 32)),
    ((-2, 1), (2, 32)),
    ((-1, 1), (4, 32)),
    ((0, 1), (8, 32)),
    ((1, 1), (4, 32)),
    ((2, 1), (2, 32)),
];

/// Sierra: ten neighbours over three rows, in 32nds.
pub const DIFF_MAT_SIERRA: [Tap; 10] = [
    ((1, 0), (5, 32)),
    ((2, 0), (3, 32)),
    ((-2, 1), (2, 32)),
    ((-1, 1), (4, 32)),
    ((0, 1), (5, 32)),
    ((1, 1), (4, 32)),
    ((2, 1), (2, 32)),
    ((-1, 2), (2, 32)),
    ((0, 2), (3, 32)),
    ((1, 2), (2, 32)),
];

/// Two-row Sierra: seven neighbours over two rows, in 16ths.
pub const DIFF_MAT_TWO_ROW_SIERRA: [Tap; 7] = [
    ((1, 0), (4, 16)),
    ((2, 0), (3, 16)),
    ((-2, 1), (1, 16)),
    ((-1, 1), (2, 16)),
    ((0, 1), (3, 16)),
    ((1, 1), (2, 16)),
    ((2, 1), (1, 16)),
];

/// Sierra Lite: 2/4 to the right; 1/4 below left and 1/4 below.
pub const DIFF_MAT_SIERRA_LITE: [Tap; 3] = [((1, 0), (2, 4)), ((-1, 1), (1, 4)), ((0, 1), (1, 4))];

/// Stevenson and Arce: twelve neighbours over four rows, in 200ths.
pub const DIFF_MAT_STEVENSON_ARCE: [Tap; 12] = [
    ((2, 0), (32, 200)),
    ((-3, 1), (12, 200)),
    ((-1, 1), (26, 200)),
    ((1, 1), (30, 200)),
    ((3, 1), (16, 200)),
    ((-2, 2), (12, 200)),
    ((0, 2), (26, 200)),
    ((2, 2), (12, 200)),
    ((-3, 3), (5, 200)),
    ((-1, 3), (12, 200)),
    ((1, 3), (12, 200)),
    ((3, 3), (5, 200)),
];

/// Fan: 7/16 to the right; 1/16, 3/16, 5/16 below, shifted one to the left.
pub const DIFF_MAT_FAN: [Tap; 4] = [
    ((1, 0), (7, 16)),
    ((-2, 1), (1, 16)),
    ((-1, 1), (3, 16)),
    ((0, 1), (5, 16)),
];

/// Shiau and Fan: 4/8 to the right; 1/8, 1/8, 2/8 below.
pub const DIFF_MAT_SHIAU_FAN: [Tap; 4] = [
    ((1, 0), (4, 8)),
    ((-2, 1), (1, 8)),
    ((-1, 1), (1, 8)),
    ((0, 1), (2, 8)),
];

/// K3M: 3/8 to the right, 3/8 below, 2/8 below right.
pub const DIFF_MAT_K3M: [Tap; 3] = [((1, 0), (3, 8)), ((0, 1), (3, 8)), ((1, 1), (2, 8))];

/// Li-Wan: 4/10 to the right; 2/10, 3/10, 1/10 below.
pub const DIFF_MAT_LI_WAN: [Tap; 4] = [
    ((1, 0), (4, 10)),
    ((-1, 1), (2, 10)),
    ((0, 1), (3, 10)),
    ((1, 1), (1, 10)),
];

/// PJARRI: 2/8 and 1/8 to the right; 1/8, 2/8, 1/8 below; an eighth of the
/// error is dropped.
pub const DIFF_MAT_PJARRI: [Tap; 5] = [
    ((1, 0), (2, 8)),
    ((2, 0), (1, 8)),
    ((-1, 1), (1, 8)),
    ((0, 1), (2, 8)),
    ((1, 1), (1, 8)),
];

/// Improved Stucki: the neighbours and numerators of Stucki in 44ths, so
/// that a 22nd of the error is dropped.
pub const DIFF_MAT_IMPROVED_STUCKI: [Tap; 12] = [
    ((1, 0), (8, 44)),
    ((2, 0), (4, 44)),
    ((-2, 1), (2, 44)),
    ((-1, 1), (4, 44)),
    ((0, 1), (8, 44)),
    ((1, 1), (4, 44)),
    ((2, 1), (2, 44)),
    ((-2, 2), (1, 44)),
    ((-1, 2), (2, 44)),
    ((0, 2), (4, 44)),
    ((1, 2), (2, 44)),
    ((2, 2), (1, 44)),
];

/// The numerators of a kernel added up.
pub open spec fn numerator_sum(kernel: Seq<Tap>) -> int
    decreases kernel.len(),
{
    if kernel.len() == 0 {
        0
    } else {
        numerator_sum(kernel.drop_last()) + kernel.last().1.0
    }
}

/// Every weight of the kernel is in units of `1 / den`, and together the
/// weights are at most one.
pub open spec fn weights_within_one(kernel: Seq<Tap>, den: int) -> bool {
    &&& forall|i: int| 0 <= i < kernel.len() ==> (#[trigger] kernel[i]).1.1 == den
    &&& numerator_sum(kernel) <= den
}

/// What holds of every kernel of the catalogue: its entries are usable and
/// causal.
pub open spec fn sound_kernel(kernel: Seq<Tap>) -> bool {
    kernel_valid(kernel) && kernel_causal(kernel)
}

/// The parts of an error `e` that the entries of a kernel pass on, added
/// up.
pub open spec fn share_total(kernel: Seq<Tap>, e: int) -> int
    decreases kernel.len(),
{
    if kernel.len() == 0 {
        0
    } else {
        share_total(kernel.drop_last(), e) + share(
            e,
            kernel.last().1.0 as int,
            kernel.last().1.1 as int,
        )
    }
}

/// The parts of an error that a kernel passes on are, added up and taken
/// in units of `1 / den`, no more than the error times the numerators.
proof fn lemma_share_total_scaled(kernel: Seq<Tap>, den: int, e: int)
    requires
        den > 0,
        forall|i: int| 0 <= i < kernel.len() ==> (#[trigger] kernel[i]).1.1 == den,
    ensures
        e >= 0 ==> 0 <= share_total(kernel, e) && share_total(kernel, e) * den <= e
            * numerator_sum(kernel),
        e <= 0 ==> share_total(kernel, e) <= 0 && e * numerator_sum(kernel) <= share_total(
            kernel,
            e,
        ) * den,
    decreases kernel.len(),
{
    if kernel.len() > 0 {
        let shorter = kernel.drop_last();
        let last = kernel.last();
        assert forall|i: int| 0 <= i < shorter.len() implies (#[trigger] shorter[i]).1.1 == den by {
            assert(shorter[i] == kernel[i]);
        }
        lemma_share_total_scaled(shorter, den, e);
        assert(kernel[kernel.len() - 1].1.1 == den);
        lemma_share_bounds(e, last.1.0 as int, den);
        let total = share_total(shorter, e);
        let part = share(e, last.1.0 as int, den);
        let sum = numerator_sum(shorter);
        let num = last.1.0 as int;
        assert((total + part) * den == total * den + part * den) by (nonlinear_arith);
        assert(e * (sum + num) == e * sum + e * num) by (nonlinear_arith);
    } else {
        assert(e * 0 == 0);
        assert(0 * den == 0);
    }
}

/// Under a kernel whose weights, all in units of `1 / den`, are together at
/// most one, the parts of an error that the entries pass on are together no
/// larger than the error, and have its sign.
pub proof fn lemma_share_total_bounds(kernel: Seq<Tap>, den: int, e: int)
    requires
        kernel_valid(kernel),
        weights_within_one(kernel, den),
    ensures
        e >= 0 ==> 0 <= share_total(kernel, e) <= e,
        e <= 0 ==> e <= share_total(kernel, e) <= 0,
{
    if kernel.len() > 0 {
        assert(kernel[0].1.1 == den);
        lemma_share_total_scaled(kernel, den, e);
        let total = share_total(kernel, e);
        let sum = numerator_sum(kernel);
        lemma_numerator_sum_nonnegative(kernel);
        if e >= 0 {
            assert(total <= e) by (nonlinear_arith)
                requires
                    den > 0,
                    e >= 0,
                    0 <= sum <= den,
                    total * den <= e * sum,
            ;
        } else {
            assert(e <= total) by (nonlinear_arith)
                requires
                    den > 0,
                    e <= 0,
                    0 <= sum <= den,
                    e * sum <= total * den,
            ;
        }
    }
}

/// Numerators add up to nothing negative.
proof fn lemma_numerator_sum_nonnegative(kernel: Seq<Tap>)
    ensures
        numerator_sum(kernel) >= 0,
    decreases kernel.len(),
{
    if kernel.len() > 0 {
        lemma_numerator_sum_nonnegative(kernel.drop_last());
    }
}

/// The numerators of a kernel given by its entries up to position `n`.
proof fn lemma_numerator_sum_prefix(kernel: Seq<Tap>, n: int)
    requires
        0 < n <= kernel.len(),
    ensures
        numerator_sum(kernel.take(n)) == numerator_sum(kernel.take(n - 1)) + kernel[n - 1].1.0,
{
    assert(kernel.take(n).drop_last() =~= kernel.take(n - 1));
}

/// The weights of every kernel of the catalogue are together at most one.
pub proof fn lemma_catalogue_weights()
    ensures
        weights_within_one(DIFF_MAT_FLOYD_STEINBERG@, 16),
        weights_within_one(DIFF_MAT_ATKINSON@, 8),
        weights_within_one(DIFF_MAT_JARVIS_JUDICE_NINKE@, 48),
        weights_within_one(DIFF_MAT_STUCKI@, 42),
        weights_within_one(DIFF_MAT_BURKES@, 32),
        weights_within_one(DIFF_MAT_SIERRA@, 32),
        weights_within_one(DIFF_MAT_TWO_ROW_SIERRA@, 16),
        weights_within_one(DIFF_MAT_SIERRA_LITE@, 4),
        weights_within_one(DIFF_MAT_STEVENSON_ARCE@, 200),
        weights_within_one(DIFF_MAT_FAN@, 16),
        weights_within_one(DIFF_MAT_SHIAU_FAN@, 8),
        weights_within_one(DIFF_MAT_K3M@, 8),
        weights_within_one(DIFF_MAT_LI_WAN@, 10),
        weights_within_one(DIFF_MAT_PJARRI@, 8),
        weights_within_one(DIFF_MAT_IMPROVED_STUCKI@, 44),
{
    lemma_numerator_sum_of(DIFF_MAT_FLOYD_STEINBERG@);
    lemma_numerator_sum_of(DIFF_MAT_ATKINSON@);
    lemma_numerator_sum_of(DIFF_MAT_JARVIS_JUDICE_NINKE@);
    lemma_numerator_sum_of(DIFF_MAT_STUCKI@);
    lemma_numerator_sum_of(DIFF_MAT_BURKES@);
    lemma_numerator_sum_of(DIFF_MAT_SIERRA@);
    lemma_numerator_sum_of(DIFF_MAT_TWO_ROW_SIERRA@);
    lemma_numerator_sum_of(DIFF_MAT_SIERRA_LITE@);
    lemma_numerator_sum_of(DIFF_MAT_STEVENSON_ARCE@);
    lemma_numerator_sum_of(DIFF_MAT_FAN@);
    lemma_numerator_sum_of(DIFF_MAT_SHIAU_FAN@);
    lemma_numerator_sum_of(DIFF_MAT_K3M@);
    lemma_numerator_sum_of(DIFF_MAT_LI_WAN@);
    lemma_numerator_sum_of(DIFF_MAT_PJARRI@);
    lemma_numerator_sum_of(DIFF_MAT_IMPROVED_STUCKI@);
}

/// The numerators of a kernel of at most twelve entries, written out.
proof fn lemma_numerator_sum_of(kernel: Seq<Tap>)
    requires
        kernel.len() <= 12,
    ensures
        numerator_sum(kernel) == numerator_at(kernel, 0) + numerator_at(kernel, 1) + numerator_at(
            kernel,
            2,
        ) + numerator_at(kernel, 3) + numerator_at(kernel, 4) + numerator_at(kernel, 5)
            + numerator_at(kernel, 6) + numerator_at(kernel, 7) + numerator_at(kernel, 8)
            + numerator_at(kernel, 9) + numerator_at(kernel, 10) + numerator_at(kernel, 11),
{
    assert(kernel.take(0).len() == 0);
    assert(numerator_sum(kernel.take(0)) == 0);
    if kernel.len() >= 1 {
        lemma_numerator_sum_prefix(kernel, 1);
    }
    if kernel.len() >= 2 {
        lemma_numerator_sum_prefix(kernel, 2);
    }
    if kernel.len() >= 3 {
        lemma_numerator_sum_prefix(kernel, 3);
    }
    if kernel.len() >= 4 {
        lemma_numerator_sum_prefix(kernel, 4);
    }
    if kernel.len() >= 5 {
        lemma_numerator_sum_prefix(kernel, 5);
    }
    if kernel.len() >= 6 {
        lemma_numerator_sum_prefix(kernel, 6);
    }
    if kernel.len() >= 7 {
        lemma_numerator_sum_prefix(kernel, 7);
    }
    if kernel.len() >= 8 {
        lemma_numerator_sum_prefix(kernel, 8);
    }
    if kernel.len() >= 9 {
        lemma_numerator_sum_prefix(kernel, 9);
    }
    if kernel.len() >= 10 {
        lemma_numerator_sum_prefix(kernel, 10);
    }
    if kernel.len() >= 11 {
        lemma_numerator_sum_prefix(kernel, 11);
    }
    if kernel.len() >= 12 {
        lemma_numerator_sum_prefix(kernel, 12);
    }
    assert(kernel.take(kernel.len() as int) =~= kernel);
}

/// The numerator of entry `i` of a kernel, or zero past its end.
spec fn numerator_at(kernel: Seq<Tap>, i: int) -> int {
    if i < kernel.len() {
        kernel[i].1.0 as int
    } else {
        0
    }
}

/// Every kernel of the catalogue is usable and causal.
pub proof fn lemma_catalogue_sound()
    ensures
        sound_kernel(DIFF_MAT_FLOYD_STEINBERG@),
        sound_kernel(DIFF_MAT_ATKINSON@),
        sound_kernel(DIFF_MAT_JARVIS_JUDICE_NINKE@),
        sound_kernel(DIFF_MAT_STUCKI@),
        sound_kernel(DIFF_MAT_BURKES@),
        sound_kernel(DIFF_MAT_SIERRA@),
        sound_kernel(DIFF_MAT_TWO_ROW_SIERRA@),
        sound_kernel(DIFF_MAT_SIERRA_LITE@),
        sound_kernel(DIFF_MAT_STEVENSON_ARCE@),
        sound_kernel(DIFF_MAT_FAN@),
        sound_kernel(DIFF_MAT_SHIAU_FAN@),
        sound_kernel(DIFF_MAT_K3M@),
        sound_kernel(DIFF_MAT_LI_WAN@),
        sound_kernel(DIFF_MAT_PJARRI@),
        sound_kernel(DIFF_MAT_IMPROVED_STUCKI@),
{
}

} // verus!
