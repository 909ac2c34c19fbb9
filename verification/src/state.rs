//! Statevectors with split real and imaginary parts, and their real embedding.

use vstd::arithmetic::power2;
use vstd::prelude::*;

verus! {

/// A statevector on `n` qubits: the real and the imaginary parts of its amplitudes, as bit
/// patterns of doubles.
#[derive(Clone, Debug)]
pub struct State {
    pub reals: Vec<u64>,
    pub imags: Vec<u64>,
    pub n: u8,
}

impl State {
    /// There is one amplitude for each basis state.
    pub open spec fn wf(&self) -> bool {
        &&& self.reals@.len() == power2::pow2(self.n as nat)
        &&& self.imags@.len() == power2::pow2(self.n as nat)
    }

    /// The number of amplitudes.
    pub fn len(&self) -> (r: usize)
        ensures
            r == self.reals@.len(),
    {
        self.reals.len()
    }
}

/// The power 2^n.
pub fn power_of_two(n: usize) -> (p: usize)
    requires
        power2::pow2(n as nat) <= usize::MAX,
    ensures
        p == power2::pow2(n as nat),
{
    let mut p: usize = 1;
    proof {
        power2::lemma2_to64();
    }
    for i in 0..n
        invariant
            power2::pow2(n as nat) <= usize::MAX,
            p == power2::pow2(i as nat),
    {
        proof {
            power2::lemma_pow2_unfold((i + 1) as nat);
            if i + 1 < n {
                power2::lemma_pow2_strictly_increases((i + 1) as nat, n as nat);
            }
        }
        p = p * 2;
    }
    p
}

/// The bytes that an uncompressed statevector on `n_qubits` qubits takes.
pub fn raw_statevector_bytes(n_qubits: usize) -> (r: usize)
    requires
        16 * power2::pow2(n_qubits as nat) <= usize::MAX,
    ensures
        r == 16 * power2::pow2(n_qubits as nat),
{
    power_of_two(n_qubits) * 16
}

/// The real embedding of amplitudes: real and imaginary parts by turns.
pub open spec fn interleaved(reals: Seq<u64>, imags: Seq<u64>) -> Seq<u64> {
    let len = if reals.len() <= imags.len() {
        reals.len()
    } else {
        imags.len()
    };
    Seq::new(
        2 * len,
        |i: int|
            if i % 2 == 0 {
                reals[i / 2]
            } else {
                imags[i / 2]
            },
    )
}

/// The coordinates at even positions.
pub open spec fn even_part(v: Seq<u64>) -> Seq<u64> {
    Seq::new(v.len() / 2, |i: int| v[2 * i])
}

/// The coordinates at odd positions.
pub open spec fn odd_part(v: Seq<u64>) -> Seq<u64> {
    Seq::new(v.len() / 2, |i: int| v[2 * i + 1])
}

/// Flatten a state into its real embedding.
pub fn interleave_state(state: &State) -> (flattened: Vec<u64>)
    ensures
        flattened@ == interleaved(state.reals@, state.imags@),
{
    let len: usize = if state.reals.len() <= state.imags.len() {
        state.reals.len()
    } else {
        state.imags.len()
    };
    let mut flattened: Vec<u64> = Vec::new();
    for i in 0..len
        invariant
            len <= state.reals@.len(),
            len <= state.imags@.len(),
            len == state.reals@.len() || len == state.imags@.len(),
            flattened@ == interleaved(state.reals@, state.imags@).take(2 * i),
    {
        flattened.push(state.reals[i]);
        flattened.push(state.imags[i]);
        assert(flattened@ =~= interleaved(state.reals@, state.imags@).take(2 * (i + 1)));
    }
    assert(flattened@ =~= interleaved(state.reals@, state.imags@));
    flattened
}

/// Rebuild a state on `n_qubits` qubits from its real embedding.
pub fn deinterleave_state(flattened: &[u64], n_qubits: usize) -> (state: State)
    requires
        flattened@.len() == power2::pow2((n_qubits + 1) as nat),
    ensures
        state.wf(),
        state.reals@ == even_part(flattened@),
        state.imags@ == odd_part(flattened@),
        state.n == n_qubits,
{
    proof {
        power2::lemma_pow2_unfold((n_qubits + 1) as nat);
        if n_qubits >= 64 {
            power2::lemma2_to64_rest();
            power2::lemma_pow2_strictly_increases(64, (n_qubits + 1) as nat);
        }
    }
    let len: usize = flattened.len();
    let half: usize = len / 2;
    let mut reals: Vec<u64> = Vec::new();
    let mut imags: Vec<u64> = Vec::new();
    for i in 0..half
        invariant
            len == flattened@.len(),
            half == len / 2,
            reals@ == even_part(flattened@).take(i as int),
            imags@ == odd_part(flattened@).take(i as int),
    {
        reals.push(flattened[2 * i]);
        imags.push(flattened[2 * i + 1]);
        assert(reals@ =~= even_part(flattened@).take(i + 1));
        assert(imags@ =~= odd_part(flattened@).take(i + 1));
    }
    assert(reals@ =~= even_part(flattened@));
    assert(imags@ =~= odd_part(flattened@));
    State { reals, imags, n: n_qubits as u8 }
}

/// Rebuilding undoes flattening.
pub proof fn law_deinterleave_undoes_interleave(reals: Seq<u64>, imags: Seq<u64>)
    requires
        reals.len() == imags.len(),
    ensures
        even_part(interleaved(reals, imags)) == reals,
        odd_part(interleaved(reals, imags)) == imags,
{
    assert(even_part(interleaved(reals, imags)) =~= reals);
    assert(odd_part(interleaved(reals, imags)) =~= imags);
}

/// Flattening undoes rebuilding.
pub proof fn law_interleave_undoes_deinterleave(v: Seq<u64>)
    requires
        v.len() % 2 == 0,
    ensures
        interleaved(even_part(v), odd_part(v)) == v,
{
    assert(interleaved(even_part(v), odd_part(v)) =~= v);
}

/// The real embedding has the real part of amplitude `i` at position `2 * i` and its imaginary
/// part next to it.
pub proof fn law_embedding_positions(reals: Seq<u64>, imags: Seq<u64>, i: int)
    requires
        0 <= i < reals.len(),
        reals.len() == imags.len(),
    ensures
        interleaved(reals, imags).len() == 2 * reals.len(),
        interleaved(reals, imags)[2 * i] == reals[i],
        interleaved(reals, imags)[2 * i + 1] == imags[i],
{
}

} // verus!
