//! Seed-derived randomness for dithering and stochastic rounding.
//!
//! Every random choice is a hash of a seed, the number of the reset and the position it is
//! made for, so that the same run can be repeated exactly.

use vstd::prelude::*;

use crate::state::State;

verus! {

/// Odd multipliers of the hash.
pub const RESET_FACTOR: u64 = 0x9E37_79B9_7F4A_7C15;

pub const FIRST_FACTOR: u64 = 0xBF58_476D_1CE4_E5B9;

pub const SECOND_FACTOR: u64 = 0x94D0_49BB_1331_11EB;

/// Sets the reset numbers of dither phases apart from those of rounding.
pub const DITHER_DOMAIN: u64 = 0xAAAA_AAAA;

/// Sets the positions of rounding apart from those of dither phases: 2^40.
pub const ROUNDING_OFFSET: u64 = 0x100_0000_0000;

/// A word with its upper bits folded onto its lower bits.
pub open spec fn fold(x: u64, shift: u64) -> u64 {
    x ^ (x >> shift)
}

/// The word that the hash starts from.
pub open spec fn hash_input(seed: u64, reset_index: u64, j: u64) -> u64 {
    (seed ^ reset_index.wrapping_mul(RESET_FACTOR)).wrapping_add(j)
}

/// The mixing of the hash.
pub open spec fn mixed(x: u64) -> u64 {
    let a = fold(x, 30).wrapping_mul(FIRST_FACTOR);
    let b = fold(a, 27).wrapping_mul(SECOND_FACTOR);
    fold(b, 31)
}

/// The hash of a seed, a reset number and a position.
pub open spec fn hash(seed: u64, reset_index: u64, j: u64) -> u64 {
    mixed(hash_input(seed, reset_index, j))
}

/// Hash a seed, a reset number and a position in the manner of splitmix64.
pub fn hash_u64(seed: u64, reset_index: u64, j: u64) -> (h: u64)
    ensures
        h == hash(seed, reset_index, j),
{
    let mut x: u64 = seed;
    x = x ^ reset_index.wrapping_mul(RESET_FACTOR);
    x = x.wrapping_add(j);
    x = x ^ (x >> 30u64);
    x = x.wrapping_mul(FIRST_FACTOR);
    x = x ^ (x >> 27u64);
    x = x.wrapping_mul(SECOND_FACTOR);
    x = x ^ (x >> 31u64);
    x
}

proof fn lemma_fold_injective(x: u64, y: u64)
    ensures
        fold(x, 30) == fold(y, 30) ==> x == y,
        fold(x, 27) == fold(y, 27) ==> x == y,
        fold(x, 31) == fold(y, 31) ==> x == y,
{
    assert(x ^ (x >> 30u64) == y ^ (y >> 30u64) ==> x == y) by (bit_vector);
    assert(x ^ (x >> 27u64) == y ^ (y >> 27u64) ==> x == y) by (bit_vector);
    assert(x ^ (x >> 31u64) == y ^ (y >> 31u64) ==> x == y) by (bit_vector);
}

/// Multiplying by the inverse of a factor undoes the multiplication.
proof fn lemma_unmultiply(x: u64, c: u64, inverse: int, k: int)
    requires
        c * inverse == 1 + k * 0x1_0000_0000_0000_0000,
    ensures
        (x.wrapping_mul(c) * inverse) % 0x1_0000_0000_0000_0000 == x,
{
    let m = 0x1_0000_0000_0000_0000int;
    vstd::arithmetic::div_mod::lemma_mul_mod_noop_left(x * c, inverse, m);
    assert((x * c) * inverse == m * (x * k) + x) by (nonlinear_arith)
        requires
            c * inverse == 1 + k * m,
    ;
    vstd::arithmetic::div_mod::lemma_mod_multiples_vanish(x * k, x as int, m);
    vstd::arithmetic::div_mod::lemma_small_mod(x as nat, m as nat);
}

proof fn lemma_multiply_injective(x: u64, y: u64)
    ensures
        x.wrapping_mul(RESET_FACTOR) == y.wrapping_mul(RESET_FACTOR) ==> x == y,
        x.wrapping_mul(FIRST_FACTOR) == y.wrapping_mul(FIRST_FACTOR) ==> x == y,
        x.wrapping_mul(SECOND_FACTOR) == y.wrapping_mul(SECOND_FACTOR) ==> x == y,
{
    lemma_unmultiply(x, RESET_FACTOR, 0xF1DE_83E1_9937_733D, 0x957B_BF35_006E_D677);
    lemma_unmultiply(y, RESET_FACTOR, 0xF1DE_83E1_9937_733D, 0x957B_BF35_006E_D677);
    lemma_unmultiply(x, FIRST_FACTOR, 0x96DE_1B17_3F11_9089, 0x70C3_BCA7_8F27_F46C);
    lemma_unmultiply(y, FIRST_FACTOR, 0x96DE_1B17_3F11_9089, 0x70C3_BCA7_8F27_F46C);
    lemma_unmultiply(x, SECOND_FACTOR, 0x3196_42B2_D24D_8EC3, 0x1CD3_36ED_A85F_1453);
    lemma_unmultiply(y, SECOND_FACTOR, 0x3196_42B2_D24D_8EC3, 0x1CD3_36ED_A85F_1453);
}

/// The mixing of the hash loses nothing: different words stay different.
pub proof fn law_mixing_is_injective(x: u64, y: u64)
    ensures
        mixed(x) == mixed(y) ==> x == y,
{
    let ax = fold(x, 30).wrapping_mul(FIRST_FACTOR);
    let ay = fold(y, 30).wrapping_mul(FIRST_FACTOR);
    let bx = fold(ax, 27).wrapping_mul(SECOND_FACTOR);
    let by = fold(ay, 27).wrapping_mul(SECOND_FACTOR);
    lemma_fold_injective(bx, by);
    lemma_multiply_injective(fold(ax, 27), fold(ay, 27));
    lemma_fold_injective(ax, ay);
    lemma_multiply_injective(fold(x, 30), fold(y, 30));
    lemma_fold_injective(x, y);
}

/// Different positions of one reset have different hashes.
pub proof fn law_positions_differ(seed: u64, reset_index: u64, i: u64, j: u64)
    requires
        i != j,
    ensures
        hash(seed, reset_index, i) != hash(seed, reset_index, j),
{
    law_mixing_is_injective(
        hash_input(seed, reset_index, i),
        hash_input(seed, reset_index, j),
    );
}

/// Different seeds give different hashes at the same position of the same reset.
pub proof fn law_seeds_differ(seed: u64, other: u64, reset_index: u64, j: u64)
    requires
        seed != other,
    ensures
        hash(seed, reset_index, j) != hash(other, reset_index, j),
{
    let r = reset_index.wrapping_mul(RESET_FACTOR);
    assert(seed ^ r == other ^ r ==> seed == other) by (bit_vector);
    law_mixing_is_injective(
        hash_input(seed, reset_index, j),
        hash_input(other, reset_index, j),
    );
}

/// Different resets give different hashes at the same position under the same seed.
pub proof fn law_resets_differ(seed: u64, reset_index: u64, other: u64, j: u64)
    requires
        reset_index != other,
    ensures
        hash(seed, reset_index, j) != hash(seed, other, j),
{
    lemma_multiply_injective(reset_index, other);
    let r = reset_index.wrapping_mul(RESET_FACTOR);
    let s = other.wrapping_mul(RESET_FACTOR);
    assert(seed ^ r == seed ^ s ==> r == s) by (bit_vector);
    law_mixing_is_injective(hash_input(seed, reset_index, j), hash_input(seed, other, j));
}

/// The upper 53 bits of the hash: the numerator of a number in [0, 1) over 2^53.
pub open spec fn unit(seed: u64, reset_index: u64, j: u64) -> u64 {
    hash(seed, reset_index, j) >> 11
}

/// Draw a number in [0, 1), as its numerator over 2^53.
pub fn unit_numerator(seed: u64, reset_index: u64, j: u64) -> (u: u64)
    ensures
        u == unit(seed, reset_index, j),
        u < 0x20_0000_0000_0000,
{
    let h: u64 = hash_u64(seed, reset_index, j);
    assert(h >> 11u64 < 0x20_0000_0000_0000u64) by (bit_vector);
    h >> 11u64
}

/// A rotation of an amplitude by a fraction of a full turn: the numerator over 2^53, and
/// whether it goes backwards.
#[derive(Clone, Copy, Debug, PartialEq, Eq, Structural)]
pub struct Turn {
    pub numerator: u64,
    pub backwards: bool,
}

impl Turn {
    /// The turn as a signed numerator.
    pub open spec fn signed(self) -> int {
        if self.backwards {
            -(self.numerator as int)
        } else {
            self.numerator as int
        }
    }
}

/// The turn that dithering gives to amplitude `j`.
pub open spec fn dither_turn(seed: u64, reset_index: u64, j: u64, backwards: bool) -> Turn {
    Turn { numerator: unit(seed, reset_index ^ DITHER_DOMAIN, j), backwards }
}

/// The turns that dithering gives to the first `len` amplitudes.
pub open spec fn dither_turns(
    seed: u64,
    reset_index: u64,
    len: nat,
    backwards: bool,
) -> Seq<Turn> {
    Seq::new(len, |j: int| dither_turn(seed, reset_index, j as u64, backwards))
}

fn list_turns(len: usize, seed: u64, reset_index: u64, backwards: bool) -> (turns: Vec<Turn>)
    ensures
        turns@ == dither_turns(seed, reset_index, len as nat, backwards),
{
    let mut turns: Vec<Turn> = Vec::new();
    let domain: u64 = reset_index ^ DITHER_DOMAIN;
    for j in 0..len
        invariant
            domain == reset_index ^ DITHER_DOMAIN,
            turns@ == dither_turns(seed, reset_index, len as nat, backwards).take(j as int),
    {
        let numerator: u64 = unit_numerator(seed, domain, j as u64);
        turns.push(Turn { numerator, backwards });
        assert(turns@ =~= dither_turns(seed, reset_index, len as nat, backwards).take(j + 1));
    }
    assert(turns@ =~= dither_turns(seed, reset_index, len as nat, backwards));
    turns
}

/// List the random phases that dithering gives to the amplitudes of a state.
pub fn apply_dither(state: &State, seed: u64, reset_index: u64) -> (turns: Vec<Turn>)
    ensures
        turns@ == dither_turns(seed, reset_index, state.reals@.len(), false),
{
    list_turns(state.len(), seed, reset_index, false)
}

/// List the phases that undo the dithering of a state.
pub fn apply_inverse_dither(state: &State, seed: u64, reset_index: u64) -> (turns: Vec<Turn>)
    ensures
        turns@ == dither_turns(seed, reset_index, state.reals@.len(), true),
        forall|j: int|
            0 <= j < turns@.len() ==> (#[trigger] turns@[j]).signed() == -dither_turns(
                seed,
                reset_index,
                state.reals@.len(),
                false,
            )[j].signed(),
{
    list_turns(state.len(), seed, reset_index, true)
}

/// Dithering and undoing it under the same seed and reset number cancel on every amplitude.
pub proof fn law_dither_cancels(seed: u64, reset_index: u64, len: nat, j: int)
    requires
        0 <= j < len,
    ensures
        dither_turns(seed, reset_index, len, false)[j].signed() + dither_turns(
            seed,
            reset_index,
            len,
            true,
        )[j].signed() == 0,
{
}

/// The numbers in [0, 1) that stochastic rounding draws for the first `count` coordinates.
pub open spec fn rounding_draws_spec(seed: u64, reset_index: u64, count: nat) -> Seq<u64> {
    Seq::new(count, |j: int| unit(seed, reset_index, (j + ROUNDING_OFFSET) as u64))
}

/// Draw the numbers in [0, 1) for the stochastic rounding of `count` coordinates, as
/// numerators over 2^53.
pub fn rounding_draws(count: usize, seed: u64, reset_index: u64) -> (draws: Vec<u64>)
    requires
        count + ROUNDING_OFFSET <= u64::MAX,
    ensures
        draws@ == rounding_draws_spec(seed, reset_index, count as nat),
        forall|j: int| 0 <= j < count ==> #[trigger] draws@[j] < 0x20_0000_0000_0000,
{
    let mut draws: Vec<u64> = Vec::new();
    for j in 0..count
        invariant
            count + ROUNDING_OFFSET <= u64::MAX,
            draws@ == rounding_draws_spec(seed, reset_index, count as nat).take(j as int),
            forall|k: int| 0 <= k < j ==> #[trigger] draws@[k] < 0x20_0000_0000_0000,
    {
        draws.push(unit_numerator(seed, reset_index, j as u64 + ROUNDING_OFFSET));
        assert(draws@ =~= rounding_draws_spec(seed, reset_index, count as nat).take(j + 1));
    }
    assert(draws@ =~= rounding_draws_spec(seed, reset_index, count as nat));
    draws
}

/// A number that is drawn is the hash over 2^64, rounded down to 53 bits.
pub proof fn law_unit_is_hash_rounded_down(seed: u64, reset_index: u64, j: u64)
    ensures
        ({
            let u = unit(seed, reset_index, j);
            let h = hash(seed, reset_index, j);
            &&& u * 2048 <= h < (u + 1) * 2048
            &&& u < 0x20_0000_0000_0000
        }),
{
    let h = hash(seed, reset_index, j);
    assert(h >> 11u64 == h / 2048) by (bit_vector);
}

/// Each amplitude is turned by the number of its own position, in the domain of dither phases;
/// undoing turns it by the same number backwards.
pub proof fn law_turn_of_amplitude(
    seed: u64,
    reset_index: u64,
    len: nat,
    backwards: bool,
    j: int,
)
    requires
        0 <= j < len <= u64::MAX,
    ensures
        ({
            let turns = dither_turns(seed, reset_index, len, backwards);
            let h = hash(seed, reset_index ^ 0xAAAA_AAAAu64, j as u64);
            &&& turns.len() == len
            &&& turns[j].numerator * 2048 <= h < (turns[j].numerator + 1) * 2048
            &&& turns[j].backwards == backwards
        }),
{
    law_unit_is_hash_rounded_down(seed, reset_index ^ DITHER_DOMAIN, j as u64);
}

/// Each coordinate is rounded with the number of its own position, past those of amplitudes.
pub proof fn law_draw_of_coordinate(seed: u64, reset_index: u64, count: nat, j: int)
    requires
        0 <= j < count,
        count + 0x100_0000_0000 <= u64::MAX,
    ensures
        ({
            let draws = rounding_draws_spec(seed, reset_index, count);
            let h = hash(seed, reset_index, (j + 0x100_0000_0000) as u64);
            &&& draws.len() == count
            &&& draws[j] * 2048 <= h < (draws[j] + 1) * 2048
        }),
{
    law_unit_is_hash_rounded_down(seed, reset_index, (j + ROUNDING_OFFSET) as u64);
}

/// The hash can be undone step by step: folding back, multiplying by the inverses of the factors
/// modulo 2^64, and taking the position off gives the seed joined with the multiple of the reset
/// number.
pub proof fn law_hash_can_be_undone(seed: u64, reset_index: u64, j: u64)
    ensures
        ({
            let m = 0x1_0000_0000_0000_0000int;
            let h = hash(seed, reset_index, j);
            let b = h ^ (h >> 31) ^ (h >> 62);
            let c = ((b * 0x3196_42B2_D24D_8EC3int) % m) as u64;
            let a = c ^ (c >> 27) ^ (c >> 54);
            let d = ((a * 0x96DE_1B17_3F11_9089int) % m) as u64;
            let x = d ^ (d >> 30) ^ (d >> 60);
            let r = (reset_index * 0x9E37_79B9_7F4A_7C15int) % m;
            (x - j) % m == seed ^ (r as u64)
        }),
{
    let m = 0x1_0000_0000_0000_0000int;
    let x = hash_input(seed, reset_index, j);
    let d = fold(x, 30);
    let a = d.wrapping_mul(FIRST_FACTOR);
    let c = fold(a, 27);
    let b = c.wrapping_mul(SECOND_FACTOR);
    let h = fold(b, 31);
    assert(forall|y: u64|
        #[trigger] (y ^ (y >> 31u64)) ^ ((y ^ (y >> 31u64)) >> 31u64) ^ ((y ^ (y >> 31u64))
            >> 62u64) == y) by (bit_vector);
    assert(forall|y: u64|
        #[trigger] (y ^ (y >> 27u64)) ^ ((y ^ (y >> 27u64)) >> 27u64) ^ ((y ^ (y >> 27u64))
            >> 54u64) == y) by (bit_vector);
    assert(forall|y: u64|
        #[trigger] (y ^ (y >> 30u64)) ^ ((y ^ (y >> 30u64)) >> 30u64) ^ ((y ^ (y >> 30u64))
            >> 60u64) == y) by (bit_vector);
    lemma_unmultiply(c, SECOND_FACTOR, 0x3196_42B2_D24D_8EC3, 0x1CD3_36ED_A85F_1453);
    lemma_unmultiply(d, FIRST_FACTOR, 0x96DE_1B17_3F11_9089, 0x70C3_BCA7_8F27_F46C);
}

} // verus!
