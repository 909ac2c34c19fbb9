//! Scalar quantization of blocks of coordinates.
//!
//! A vector is cut into blocks, each with its own scale. Coordinates are divided by the scale
//! of their block and snapped to one of the levels of a codebook. Which levels a coordinate
//! lies between is decided here; which of the two it goes to is a matter of rounding that the
//! caller settles.

use vstd::prelude::*;

use crate::codebook;
use crate::double;
use crate::packing;

verus! {

/// Number of coordinates per quantization block.
pub const BLOCK_SIZE: usize = 32;

/// Where a value lies with respect to the levels of a codebook.
#[derive(Clone, Copy, Debug, PartialEq, Eq, Structural)]
pub enum Bracket {
    /// At or beyond one end of the codebook, so that this level is the only choice.
    Level(u8),
    /// Above this level and not above the next one.
    Between(u8),
}

/// The levels are finite and strictly increasing.
pub open spec fn increasing(levels: Seq<u64>) -> bool {
    forall|i: int, j: int|
        0 <= i < j < levels.len() ==> double::less(#[trigger] levels[i], #[trigger] levels[j])
}

/// How many of the first `k` levels are less than a value.
pub open spec fn rank_below(levels: Seq<u64>, value: u64, k: nat) -> nat
    decreases k,
{
    if k == 0 {
        0
    } else {
        rank_below(levels, value, (k - 1) as nat) + if double::less(levels[k - 1], value) {
            1nat
        } else {
            0nat
        }
    }
}

/// How many levels are less than a value.
pub open spec fn rank(levels: Seq<u64>, value: u64) -> nat {
    rank_below(levels, value, levels.len())
}

/// Where a value lies with respect to the levels.
pub open spec fn bracket_of(levels: Seq<u64>, value: u64) -> Bracket {
    let r = rank(levels, value);
    if r == 0 {
        Bracket::Level(0)
    } else if r == levels.len() {
        Bracket::Level((r - 1) as u8)
    } else {
        Bracket::Between((r - 1) as u8)
    }
}

/// The level that is taken: the only choice, or one of two as `upper` says.
pub open spec fn settled(b: Bracket, upper: bool) -> u8 {
    match b {
        Bracket::Level(k) => k,
        Bracket::Between(k) => if upper {
            (k + 1) as u8
        } else {
            k
        },
    }
}

/// A position that separates the lesser levels from the others is the rank.
proof fn lemma_rank(levels: Seq<u64>, value: u64, pos: int, k: nat)
    requires
        0 <= pos <= levels.len(),
        k <= levels.len(),
        forall|i: int| 0 <= i < pos ==> double::less(#[trigger] levels[i], value),
        forall|i: int| pos <= i < levels.len() ==> !double::less(#[trigger] levels[i], value),
    ensures
        rank_below(levels, value, k) == (if k <= pos {
            k as int
        } else {
            pos
        }),
    decreases k,
{
    if k > 0 {
        lemma_rank(levels, value, pos, (k - 1) as nat);
    }
}

/// The position of a value among increasing levels: how many of them are less.
pub fn partition_point(levels: &[u64], value: u64) -> (pos: usize)
    requires
        increasing(levels@),
    ensures
        pos == rank(levels@, value),
        forall|i: int| 0 <= i < pos ==> double::less(#[trigger] levels@[i], value),
        forall|i: int| pos <= i < levels@.len() ==> !double::less(#[trigger] levels@[i], value),
{
    let mut low: usize = 0;
    let mut high: usize = levels.len();
    while low < high
        invariant
            increasing(levels@),
            low <= high <= levels@.len(),
            forall|i: int| 0 <= i < low ==> double::less(#[trigger] levels@[i], value),
            forall|i: int|
                high <= i < levels@.len() ==> !double::less(#[trigger] levels@[i], value),
        decreases high - low,
    {
        let middle: usize = low + (high - low) / 2;
        if double::double_lt(levels[middle], value) {
            low = middle + 1;
        } else {
            high = middle;
        }
    }
    proof {
        lemma_rank(levels@, value, low as int, levels@.len());
    }
    low
}

/// Tell between which levels a value lies. What is no number lies at the lowest level.
pub fn bracket(value: u64, levels: &[u64]) -> (b: Bracket)
    requires
        increasing(levels@),
        1 <= levels@.len() <= 256,
    ensures
        b == bracket_of(levels@, value),
{
    let pos: usize = partition_point(levels, value);
    if pos == 0 {
        Bracket::Level(0)
    } else if pos == levels.len() {
        Bracket::Level((pos - 1) as u8)
    } else {
        Bracket::Between((pos - 1) as u8)
    }
}

/// Take the level that a bracket and the choice between its two ends determine.
pub fn settle(b: Bracket, upper: bool) -> (index: u8)
    requires
        b != Bracket::Between(255),
    ensures
        index == settled(b, upper),
{
    match b {
        Bracket::Level(k) => k,
        Bracket::Between(k) => {
            if upper {
                k + 1
            } else {
                k
            }
        },
    }
}

/// A settled bracket is the index of a level.
pub proof fn law_settled_in_range(levels: Seq<u64>, value: u64, upper: bool)
    requires
        1 <= levels.len() <= 256,
    ensures
        settled(bracket_of(levels, value), upper) < levels.len(),
        bracket_of(levels, value) != Bracket::Between(255),
{
    lemma_rank_bound(levels, value, levels.len());
}

proof fn lemma_rank_bound(levels: Seq<u64>, value: u64, k: nat)
    ensures
        rank_below(levels, value, k) <= k,
    decreases k,
{
    if k > 0 {
        lemma_rank_bound(levels, value, (k - 1) as nat);
    }
}

/// The distance of two values, in units of the smallest positive double.
pub open spec fn distance(a: u64, b: u64) -> int {
    if double::value(a) <= double::value(b) {
        double::value(b) - double::value(a)
    } else {
        double::value(a) - double::value(b)
    }
}

/// Where a value lies between two levels, these are the nearest ones below and above it.
pub proof fn law_bracket_encloses(levels: Seq<u64>, value: u64, k: u8)
    requires
        increasing(levels),
        levels.len() <= 256,
        bracket_of(levels, value) == Bracket::Between(k),
    ensures
        k + 1 < levels.len(),
        double::value(levels[k as int]) < double::value(value) <= double::value(levels[k + 1]),
{
    let pos = lemma_split_exists(levels, value, levels.len());
    lemma_rank(levels, value, pos, levels.len());
    assert(double::less(levels[k as int], value));
    assert(!double::less(levels[k + 1], value));
    assert(double::less(levels[k as int], levels[k + 1]));
}

/// Increasing levels split at some position into those less than a value and the others.
proof fn lemma_split_exists(levels: Seq<u64>, value: u64, k: nat) -> (pos: int)
    requires
        increasing(levels),
        k <= levels.len(),
    ensures
        0 <= pos <= k,
        forall|i: int| 0 <= i < pos ==> double::less(#[trigger] levels[i], value),
        forall|i: int| pos <= i < k ==> !double::less(#[trigger] levels[i], value),
    decreases k,
{
    if k == 0 {
        0
    } else if double::less(levels[k - 1], value) {
        assert forall|i: int| 0 <= i < k implies double::less(#[trigger] levels[i], value) by {
            if i < k - 1 {
                assert(double::less(levels[i], levels[k - 1]));
            }
        }
        k as int
    } else {
        lemma_split_exists(levels, value, (k - 1) as nat)
    }
}

/// Snapping to the nearest level: with the upper end chosen exactly when it is strictly
/// closer, no level is closer to the value than the one taken.
pub proof fn law_nearest_level(levels: Seq<u64>, value: u64, upper: bool, i: int)
    requires
        increasing(levels),
        1 <= levels.len() <= 256,
        !double::is_nan(value),
        bracket_of(levels, value) matches Bracket::Between(k) ==> upper == (distance(
            value,
            levels[k + 1],
        ) < distance(value, levels[k as int])),
        0 <= i < levels.len(),
        !double::is_nan(levels[0]),
    ensures
        distance(value, levels[settled(bracket_of(levels, value), upper) as int]) <= distance(
            value,
            levels[i],
        ),
{
    let pos = lemma_split_exists(levels, value, levels.len());
    lemma_rank(levels, value, pos, levels.len());
    let s = settled(bracket_of(levels, value), upper) as int;
    if i < s {
        assert(double::less(levels[i], levels[s]));
    }
    if s < i {
        assert(double::less(levels[s], levels[i]));
    }
    match bracket_of(levels, value) {
        Bracket::Level(_) => {
            if pos == 0 {
                assert(!double::less(levels[0], value));
            } else {
                assert(double::less(levels[pos - 1], value));
            }
        },
        Bracket::Between(k) => {
            law_bracket_encloses(levels, value, k);
            let lo = k as int;
            if i < lo {
                assert(double::less(levels[i], levels[lo]));
            }
            if lo + 1 < i {
                assert(double::less(levels[lo + 1], levels[i]));
            }
        },
    }
}

/// In exact arithmetic the level taken is still the best one after scaling back: of all
/// multiples of the scale by a level, none is closer to the scaled value.
pub proof fn law_dequantized_level_is_best(
    levels: Seq<u64>,
    value: u64,
    upper: bool,
    scale: int,
    i: int,
)
    requires
        increasing(levels),
        1 <= levels.len() <= 256,
        !double::is_nan(value),
        bracket_of(levels, value) matches Bracket::Between(k) ==> upper == (distance(
            value,
            levels[k + 1],
        ) < distance(value, levels[k as int])),
        0 <= i < levels.len(),
        !double::is_nan(levels[0]),
        scale > 0,
    ensures
        ({
            let exact = scale * double::value(value);
            let taken = scale * double::value(
                levels[settled(bracket_of(levels, value), upper) as int],
            );
            let other = scale * double::value(levels[i]);
            vstd::math::abs(taken - exact) <= vstd::math::abs(other - exact)
        }),
{
    law_nearest_level(levels, value, upper, i);
    let s = settled(bracket_of(levels, value), upper) as int;
    let x = double::value(value);
    lemma_scaled_gap(scale, double::value(levels[s]), x);
    lemma_scaled_gap(scale, double::value(levels[i]), x);
    vstd::arithmetic::mul::lemma_mul_inequality(
        distance(value, levels[s]),
        distance(value, levels[i]),
        scale,
    );
}

/// Gaps scale with the numbers that they are between.
proof fn lemma_scaled_gap(scale: int, x: int, y: int)
    requires
        scale > 0,
    ensures
        vstd::math::abs(scale * x - scale * y) == vstd::math::abs(x - y) * scale,
{
    vstd::arithmetic::mul::lemma_mul_is_distributive_sub(scale, x, y);
    vstd::arithmetic::mul::lemma_mul_is_commutative(scale, x - y);
    vstd::arithmetic::mul::lemma_mul_unary_negation(x - y, scale);
    if x >= y {
        vstd::arithmetic::mul::lemma_mul_nonnegative(x - y, scale);
    } else {
        vstd::arithmetic::mul::lemma_mul_nonnegative(y - x, scale);
    }
}

/// Rounding up with a probability proportional to the distance from the lower level is
/// unbiased: weighting the two ends by the distances from the opposite ends gives the value.
pub proof fn law_rounding_is_unbiased(levels: Seq<u64>, value: u64, k: u8)
    requires
        increasing(levels),
        levels.len() <= 256,
        bracket_of(levels, value) == Bracket::Between(k),
    ensures
        0 < distance(value, levels[k as int]) <= distance(levels[k as int], levels[k + 1]),
        double::value(levels[k as int]) * distance(value, levels[k + 1]) + double::value(
            levels[k + 1],
        ) * distance(value, levels[k as int]) == double::value(value) * distance(
            levels[k as int],
            levels[k + 1],
        ),
{
    law_bracket_encloses(levels, value, k);
    let a = double::value(levels[k as int]);
    let b = double::value(levels[k + 1]);
    let x = double::value(value);
    assert(a * (b - x) + b * (x - a) == x * (b - a)) by (nonlinear_arith);
}

/// The codebook of a bit width is fit for quantizing.
pub proof fn lemma_codebook_ready(bits: u8)
    requires
        codebook::supported(bits),
    ensures
        increasing(codebook::levels(bits)),
        1 <= codebook::levels(bits).len() <= 256,
{
    assert forall|i: int, j: int| 0 <= i < j < codebook::levels(bits).len() implies double::less(
        #[trigger] codebook::levels(bits)[i],
        #[trigger] codebook::levels(bits)[j],
    ) by {
        codebook::law_codebook_is_increasing(bits, i, j);
    }
}

/// Tell for each normalized coordinate between which levels it lies.
pub fn brackets(normalized: &[u64], bits: u8) -> (res: Vec<Bracket>)
    requires
        codebook::supported(bits),
    ensures
        res@ == normalized@.map_values(|v: u64| bracket_of(codebook::levels(bits), v)),
{
    let levels: Vec<u64> = codebook::get_codebook(bits);
    let mut res: Vec<Bracket> = Vec::new();
    proof {
        lemma_codebook_ready(bits);
    }
    for i in 0..normalized.len()
        invariant
            levels@ == codebook::levels(bits),
            increasing(levels@),
            1 <= levels@.len() <= 256,
            res@.len() == i,
            forall|j: int|
                0 <= j < i ==> #[trigger] res@[j] == bracket_of(levels@, normalized@[j]),
    {
        res.push(bracket(normalized[i], &levels));
    }
    assert(res@ =~= normalized@.map_values(|v: u64| bracket_of(codebook::levels(bits), v)));
    res
}

/// The indices that settling brackets gives.
pub open spec fn settled_all(brackets: Seq<Bracket>, uppers: Seq<bool>) -> Seq<u8> {
    Seq::new(brackets.len(), |i: int| settled(brackets[i], uppers[i]))
}

/// Settle every coordinate.
pub fn settle_all(brackets: &[Bracket], uppers: &[bool]) -> (indices: Vec<u8>)
    requires
        brackets@.len() == uppers@.len(),
        forall|i: int|
            0 <= i < brackets@.len() ==> #[trigger] brackets@[i] != Bracket::Between(255),
    ensures
        indices@ == settled_all(brackets@, uppers@),
{
    let mut indices: Vec<u8> = Vec::new();
    for i in 0..brackets.len()
        invariant
            brackets@.len() == uppers@.len(),
            forall|j: int|
                0 <= j < brackets@.len() ==> #[trigger] brackets@[j] != Bracket::Between(255),
            indices@.len() == i,
            forall|j: int|
                0 <= j < i ==> #[trigger] indices@[j] == settled(brackets@[j], uppers@[j]),
    {
        indices.push(settle(brackets[i], uppers[i]));
    }
    assert(indices@ =~= settled_all(brackets@, uppers@));
    indices
}

/// Quantization indices fit in the bits of their quantizer, however rounding was settled.
pub proof fn law_indices_fit(normalized: Seq<u64>, uppers: Seq<bool>, bits: u8)
    requires
        codebook::supported(bits),
    ensures
        packing::indices_fit(
            settled_all(
                normalized.map_values(|v: u64| bracket_of(codebook::levels(bits), v)),
                uppers,
            ),
            bits as nat,
        ),
{
    let levels = codebook::levels(bits);
    let all = normalized.map_values(|v: u64| bracket_of(levels, v));
    let indices = settled_all(all, uppers);
    lemma_codebook_ready(bits);
    codebook::law_codebook_length(bits);
    assert forall|i: int, k: int| 0 <= i < indices.len() && bits <= k < 8 implies
        !#[trigger] packing::byte_bit(indices[i], k) by {
        law_settled_in_range(levels, normalized[i], uppers[i]);
        packing::lemma_fits(indices[i], bits);
    }
}

/// The boundary index of a value: the last interior boundary that is not above the value.
///
/// `boundaries` runs from one end of the line to the other. The interval that is returned has
/// the value not below its lower boundary, unless it is the first, and below its upper
/// boundary, unless it is the last.
pub fn find_quantization_index(boundaries: &[u64], value: u64) -> (index: usize)
    requires
        boundaries@.len() >= 2,
    ensures
        index + 2 <= boundaries@.len(),
        index == 0 || !double::less(value, boundaries@[index as int]),
        index + 2 == boundaries@.len() || double::less(value, boundaries@[index + 1]),
{
    let mut low: usize = 0;
    let mut high: usize = boundaries.len() - 1;
    while low + 1 < high
        invariant
            boundaries@.len() >= 2,
            low < high < boundaries@.len(),
            low == 0 || !double::less(value, boundaries@[low as int]),
            high + 1 == boundaries@.len() || double::less(value, boundaries@[high as int]),
        decreases high - low,
    {
        let middle: usize = low + (high - low) / 2;
        if double::double_lt(value, boundaries[middle]) {
            high = middle;
        } else {
            low = middle;
        }
    }
    low
}

/// Among increasing boundaries there is only one such interval for a number.
pub proof fn law_quantization_index_is_unique(boundaries: Seq<u64>, value: u64, i: int, j: int)
    requires
        increasing(boundaries),
        !double::is_nan(value),
        0 <= i,
        i + 2 <= boundaries.len(),
        i == 0 || !double::less(value, boundaries[i]),
        i + 2 == boundaries.len() || double::less(value, boundaries[i + 1]),
        0 <= j,
        j + 2 <= boundaries.len(),
        j == 0 || !double::less(value, boundaries[j]),
        j + 2 == boundaries.len() || double::less(value, boundaries[j + 1]),
    ensures
        i == j,
{
    if i < j {
        assert(double::less(boundaries[i], boundaries[j]));
        if i + 1 < j {
            assert(double::less(boundaries[i + 1], boundaries[j]));
        }
    }
    if j < i {
        assert(double::less(boundaries[j], boundaries[i]));
        if j + 1 < i {
            assert(double::less(boundaries[j + 1], boundaries[i]));
        }
    }
}

/// The largest magnitude among the first `k` coordinates; what is no number does not count.
pub open spec fn peak(v: Seq<u64>, k: nat) -> int
    decreases k,
{
    if k == 0 {
        0
    } else {
        let p = peak(v, (k - 1) as nat);
        let m = double::magnitude(v[k - 1]);
        if p < m && !double::is_nan(v[k - 1]) {
            m
        } else {
            p
        }
    }
}

/// The scale of a block: its largest magnitude, or 1.0 where that is zero.
pub open spec fn block_scale(block: Seq<u64>) -> u64 {
    if peak(block, block.len()) == 0 {
        double::ONE
    } else {
        peak(block, block.len()) as u64
    }
}

/// The number of blocks that `len` coordinates make up.
pub open spec fn block_count(len: nat) -> nat {
    (len + 31) / 32
}

/// Block `b` of a vector; the last one may be shorter.
pub open spec fn block(v: Seq<u64>, b: int) -> Seq<u64> {
    v.subrange(
        b * 32,
        if (b + 1) * 32 <= v.len() {
            (b + 1) * 32
        } else {
            v.len() as int
        },
    )
}

/// The peak of a block is the magnitude of one of its coordinates, or zero, and no coordinate
/// that is a number exceeds it.
pub proof fn law_peak_is_maximum(v: Seq<u64>, k: nat)
    requires
        k <= v.len(),
    ensures
        0 <= peak(v, k) <= double::INFINITY,
        forall|i: int|
            0 <= i < k && !double::is_nan(v[i]) ==> double::magnitude(#[trigger] v[i]) <= peak(
                v,
                k,
            ),
        peak(v, k) == 0 || exists|i: int|
            0 <= i < k && !double::is_nan(v[i]) && double::magnitude(#[trigger] v[i]) == peak(v, k),
    decreases k,
{
    if k > 0 {
        law_peak_is_maximum(v, (k - 1) as nat);
        if peak(v, k) != peak(v, (k - 1) as nat) {
            assert(double::magnitude(v[k - 1]) == peak(v, k));
        }
    }
}

/// Compute the scale of each block of a vector.
pub fn block_scales(v: &[u64]) -> (scales: Vec<u64>)
    ensures
        scales@.len() == block_count(v@.len()),
        forall|b: int|
            0 <= b < scales@.len() ==> #[trigger] scales@[b] == block_scale(block(v@, b)),
        forall|b: int, i: int|
            0 <= b < scales@.len() && 32 * b <= i < 32 * b + 32 && i < v@.len() && !double::is_nan(
                v@[i],
            ) ==> vstd::math::abs(double::value(#[trigger] v@[i])) <= double::value(
                #[trigger] scales@[b],
            ),
{
    let mut scales: Vec<u64> = Vec::new();
    let mut start: usize = 0;
    while start < v.len()
        invariant
            start <= v@.len(),
            start == v@.len() || start == 32 * scales@.len(),
            scales@.len() == block_count(start as nat),
            forall|b: int|
                0 <= b < scales@.len() ==> #[trigger] scales@[b] == block_scale(block(v@, b)),
        decreases v@.len() - start,
    {
        let stop: usize = if v.len() - start > BLOCK_SIZE {
            start + BLOCK_SIZE
        } else {
            v.len()
        };
        let ghost blk = block(v@, scales@.len() as int);
        assert(blk == v@.subrange(start as int, stop as int));
        let mut max_abs: u64 = 0;
        for i in start..stop
            invariant
                start <= stop <= v@.len(),
                blk == v@.subrange(start as int, stop as int),
                max_abs == peak(blk, (i - start) as nat),
        {
            let m: u64 = double::double_abs(v[i]);
            assert(blk[i - start] == v@[i as int]);
            if m <= double::INFINITY && max_abs < m {
                max_abs = m;
            }
        }
        let scale: u64 = if max_abs == 0 {
            double::ONE
        } else {
            max_abs
        };
        scales.push(scale);
        start = stop;
    }
    proof {
        assert forall|b: int, i: int|
            0 <= b < scales@.len() && 32 * b <= i < 32 * b + 32 && i < v@.len() && !double::is_nan(
                v@[i],
            ) implies vstd::math::abs(double::value(#[trigger] v@[i])) <= double::value(
            #[trigger] scales@[b],
        ) by {
            law_scale_is_largest_size(v@, b);
            let inside = |k: int| 32 * b <= k < 32 * b + 32 && k < v@.len();
            let counts = |k: int| inside(k) && !double::is_nan(v@[k]) && double::value(v@[k]) != 0;
            if double::value(v@[i]) != 0 {
                assert(counts(i));
            }
        }
    }
    scales
}

/// The coordinates that packed indices stand for, each as a pair of the scale of its block
/// and the level of its index. The coordinate is their product.
pub open spec fn dequantized(
    indices: Seq<u8>,
    scales: Seq<u64>,
    bits: u8,
) -> Seq<(u64, u64)> {
    Seq::new(
        indices.len(),
        |i: int| (scales[i / 32], codebook::levels(bits)[indices[i] as int]),
    )
}

/// Look up the scale and the level of each of `count` packed indices.
pub fn dequantize_adaptive(
    packed: &[u8],
    block_scales: &[u64],
    bits: u8,
    count: usize,
) -> (factors: Vec<(u64, u64)>)
    requires
        codebook::supported(bits),
        count * bits <= 8 * packed@.len(),
        block_count(count as nat) <= block_scales@.len(),
    ensures
        factors@.len() == count,
        forall|indices: Seq<u8>|
            #[trigger] packing::unpacks(indices, packed@, bits as nat, count as nat)
                ==> factors@ == dequantized(indices, block_scales@, bits),
        exists|indices: Seq<u8>|
            #[trigger] packing::unpacks(indices, packed@, bits as nat, count as nat),
        forall|b: int, i: int|
            0 <= i < count && 32 * b <= i < 32 * b + 32 ==> (#[trigger] factors@[i]).0
                == #[trigger] block_scales@[b],
{
    let levels: Vec<u64> = codebook::get_codebook(bits);
    let indices: Vec<u8> = packing::unpack_indices(packed, bits, count);
    proof {
        codebook::law_codebook_length(bits);
        if bits == 8 {
            assert(count * bits == count * 8);
        }
        packing::lemma_unpacked_fit(packed@, indices@, bits as nat);
    }
    let mut factors: Vec<(u64, u64)> = Vec::new();
    for i in 0..count
        invariant
            codebook::supported(bits),
            levels@ == codebook::levels(bits),
            levels@.len() == 1u16 << bits,
            indices@.len() == count,
            packing::indices_fit(indices@, bits as nat),
            block_count(count as nat) <= block_scales@.len(),
            factors@.len() == i,
            forall|j: int|
                0 <= j < i ==> #[trigger] factors@[j] == dequantized(
                    indices@,
                    block_scales@,
                    bits,
                )[j],
    {
        proof {
            packing::lemma_fits(indices@[i as int], bits);
        }
        let scale: u64 = block_scales[i / BLOCK_SIZE];
        let level: u64 = levels[indices[i] as usize];
        factors.push((scale, level));
    }
    proof {
        assert(factors@ =~= dequantized(indices@, block_scales@, bits));
        assert forall|other: Seq<u8>|
            #[trigger] packing::unpacks(other, packed@, bits as nat, count as nat) implies factors@
            == dequantized(other, block_scales@, bits) by {
            packing::law_unpacking_is_unique(packed@, indices@, other, bits as nat, count as nat);
        }
    }
    factors
}

/// Reading back quantized coordinates gives, for each of them, the scale of its block and the
/// level that it was quantized to.
pub proof fn law_dequantize_reads_back(
    indices: Seq<u8>,
    packed: Seq<u8>,
    read: Seq<u8>,
    scales: Seq<u64>,
    bits: u8,
)
    requires
        codebook::supported(bits),
        packing::indices_fit(indices, bits as nat),
        packing::packs(packed, indices, bits as nat),
        packing::unpacks(read, packed, bits as nat, indices.len()),
    ensures
        dequantized(read, scales, bits) == dequantized(indices, scales, bits),
{
    packing::law_unpack_undoes_pack(indices, packed, read, bits as nat);
}

/// What a scale is for: it is the largest size of a number among the coordinates of its block,
/// so that dividing by it brings each of them between -1 and 1. Only where none of them is a
/// number other than zero it is 1.0.
pub proof fn law_scale_is_largest_size(v: Seq<u64>, b: int)
    requires
        0 <= b,
        32 * b < v.len(),
    ensures
        ({
            let scale = block_scale(block(v, b));
            let inside = |i: int| 32 * b <= i < 32 * b + 32 && i < v.len();
            let counts = |i: int| inside(i) && !double::is_nan(v[i]) && double::value(v[i]) != 0;
            &&& !double::negative(scale)
            &&& !double::is_nan(scale)
            &&& double::value(scale) > 0
            &&& (exists|i: int| #[trigger] counts(i)) ==> {
                &&& forall|i: int|
                    #[trigger] counts(i) ==> vstd::math::abs(double::value(v[i]))
                        <= double::value(scale)
                &&& exists|i: int| #[trigger]
                    counts(i) && vstd::math::abs(double::value(v[i])) == double::value(scale)
            }
            &&& (forall|i: int| !#[trigger] counts(i)) ==> scale == double::ONE
        }),
{
    let blk = block(v, b);
    let p = peak(blk, blk.len());
    let scale = block_scale(blk);
    let inside = |i: int| 32 * b <= i < 32 * b + 32 && i < v.len();
    let counts = |i: int| inside(i) && !double::is_nan(v[i]) && double::value(v[i]) != 0;
    law_peak_is_maximum(blk, blk.len());
    assert forall|i: int| inside(i) implies blk[i - 32 * b] == #[trigger] v[i] && 0 <= i - 32 * b
        < blk.len() by {}
    assert forall|i: int| #[trigger] counts(i) implies 0 < double::magnitude(v[i]) <= p
        && vstd::math::abs(double::value(v[i])) == double::scaled(double::magnitude(v[i]))
        && double::scaled(double::magnitude(v[i])) <= double::scaled(p) by {
        assert(blk[i - 32 * b] == v[i]);
        let m = double::magnitude(v[i]);
        if m > 0 {
            double::lemma_scaled_increases(0, m);
        }
        if m < p {
            double::lemma_scaled_increases(m, p);
        }
    }
    if p == 0 {
        double::lemma_scaled_increases(0, double::ONE as int);
    } else {
        double::lemma_scaled_increases(0, p);
        let k = choose|k: int|
            0 <= k < blk.len() && !double::is_nan(blk[k]) && double::magnitude(#[trigger] blk[k])
                == p;
        let i = k + 32 * b;
        assert(v[i] == blk[k]);
        assert(counts(i));
        assert(vstd::math::abs(double::value(v[i])) == double::value(scale));
    }
}

/// There are just enough blocks for all coordinates.
pub proof fn law_blocks_cover(len: nat)
    ensures
        len <= 32 * block_count(len) < len + 32,
{
}

/// Reading back gives a coordinate the scale of the block that holds it, and the level that its
/// own index names.
pub proof fn law_coordinate_has_scale_of_its_block(
    indices: Seq<u8>,
    scales: Seq<u64>,
    bits: u8,
    b: int,
    i: int,
)
    requires
        0 <= i < indices.len(),
        32 * b <= i < 32 * (b + 1),
    ensures
        dequantized(indices, scales, bits).len() == indices.len(),
        dequantized(indices, scales, bits)[i].0 == scales[b],
        dequantized(indices, scales, bits)[i].1 == codebook::levels(bits)[indices[i] as int],
{
}

/// Quantizing a vector takes for each coordinate, with the upper end chosen exactly where it is
/// strictly closer, a level that no level is closer than.
pub proof fn law_vector_goes_to_nearest_levels(
    normalized: Seq<u64>,
    uppers: Seq<bool>,
    bits: u8,
    i: int,
    k: int,
)
    requires
        codebook::supported(bits),
        0 <= i < normalized.len(),
        0 <= k < codebook::levels(bits).len(),
        !double::is_nan(normalized[i]),
        bracket_of(codebook::levels(bits), normalized[i]) matches Bracket::Between(j) ==> uppers[i]
            == (distance(normalized[i], codebook::levels(bits)[j + 1]) < distance(
            normalized[i],
            codebook::levels(bits)[j as int],
        )),
    ensures
        ({
            let levels = codebook::levels(bits);
            let taken = settled_all(
                normalized.map_values(|v: u64| bracket_of(levels, v)),
                uppers,
            );
            &&& taken.len() == normalized.len()
            &&& taken[i] < levels.len()
            &&& distance(normalized[i], levels[taken[i] as int]) <= distance(
                normalized[i],
                levels[k],
            )
        }),
{
    let levels = codebook::levels(bits);
    lemma_codebook_ready(bits);
    assert(!double::is_nan(levels[0])) by {
        codebook::law_codebook_length(bits);
        assert(double::less(levels[0], levels[1]));
    }
    law_settled_in_range(levels, normalized[i], uppers[i]);
    law_nearest_level(levels, normalized[i], uppers[i], k);
}

/// What is no number goes to the lowest level, and so does what is not above it; what is above
/// every level goes to the highest.
pub proof fn law_ends_of_codebook(levels: Seq<u64>, value: u64, upper: bool)
    requires
        increasing(levels),
        1 <= levels.len() <= 256,
    ensures
        double::is_nan(value) || !double::less(levels[0], value) ==> settled(
            bracket_of(levels, value),
            upper,
        ) == 0,
        double::less(levels.last(), value) ==> settled(bracket_of(levels, value), upper)
            == levels.len() - 1,
{
    let pos = lemma_split_exists(levels, value, levels.len());
    lemma_rank(levels, value, pos, levels.len());
    if pos > 0 {
        assert(double::less(levels[0], value));
    }
    if pos < levels.len() {
        assert(!double::less(levels[pos], value));
        if pos < levels.len() - 1 {
            assert(double::less(levels[pos], levels[levels.len() - 1]));
        }
    }
}

} // verus!
