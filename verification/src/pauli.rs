//! Signed Pauli strings, the mathematical model of a tableau row.

use vstd::prelude::*;

verus! {

/// A signed Pauli string on `x.len()` qubits.
///
/// Qubit `j` carries the letter `I`, `X`, `Z` or `Y` according to whether
/// neither, only `x[j]`, only `z[j]` or both bits are set. `r` is the sign:
/// `true` stands for a factor of -1.
#[verifier::ext_equal]
pub struct PauliRow {
    pub x: Seq<bool>,
    pub z: Seq<bool>,
    pub r: bool,
}

impl PauliRow {
    /// Both bit strings speak about the same `n` qubits.
    pub open spec fn on(self, n: nat) -> bool {
        self.x.len() == n && self.z.len() == n
    }
}

/// Bitwise exclusive or of two bit strings of equal length.
pub open spec fn xor_bits(a: Seq<bool>, b: Seq<bool>) -> Seq<bool> {
    Seq::new(a.len(), |j: int| a[j] != b[j])
}

/// The number of positions below `k` at which both strings have a set bit.
pub open spec fn common_below(a: Seq<bool>, b: Seq<bool>, k: nat) -> nat
    decreases k,
{
    if k == 0 {
        0
    } else {
        common_below(a, b, (k - 1) as nat) + if a[k - 1] && b[k - 1] {
            1nat
        } else {
            0nat
        }
    }
}

/// The number of positions at which both strings have a set bit.
pub open spec fn common(a: Seq<bool>, b: Seq<bool>) -> nat {
    common_below(a, b, a.len())
}

/// The string with no letter and a positive sign.
pub open spec fn identity_row(n: nat) -> PauliRow {
    PauliRow { x: Seq::new(n, |j: int| false), z: Seq::new(n, |j: int| false), r: false }
}

/// The generator with the single letter `X` on qubit `i`.
pub open spec fn x_generator(n: nat, i: int) -> PauliRow {
    PauliRow { x: Seq::new(n, |j: int| j == i), z: Seq::new(n, |j: int| false), r: false }
}

/// The generator with the single letter `Z` on qubit `i`.
pub open spec fn z_generator(n: nat, i: int) -> PauliRow {
    PauliRow { x: Seq::new(n, |j: int| false), z: Seq::new(n, |j: int| j == i), r: false }
}

/// The product of two rows: the bits add up modulo two, and the sign flips once for every
/// `Z` part of `a` that moves past an `X` part of `b`.
pub open spec fn row_mul(a: PauliRow, b: PauliRow) -> PauliRow {
    PauliRow {
        x: xor_bits(a.x, b.x),
        z: xor_bits(a.z, b.z),
        r: (a.r != b.r) != (common(a.z, b.x) % 2 == 1),
    }
}

/// The image of a row under a Hadamard on qubit `i`: `X` and `Z` change places and `Y`
/// changes sign.
pub open spec fn row_h(p: PauliRow, i: int) -> PauliRow {
    PauliRow {
        x: p.x.update(i, p.z[i]),
        z: p.z.update(i, p.x[i]),
        r: p.r != (p.x[i] && p.z[i]),
    }
}

/// The image of a row under the phase gate on qubit `i`: `X` becomes `Y` and `Y` becomes `-X`.
pub open spec fn row_s(p: PauliRow, i: int) -> PauliRow {
    PauliRow { x: p.x, z: p.z.update(i, p.z[i] != p.x[i]), r: p.r != (p.x[i] && p.z[i]) }
}

/// The image of a row under a CNOT with control `i` and target `j`.
pub open spec fn row_cnot(p: PauliRow, i: int, j: int) -> PauliRow {
    PauliRow {
        x: p.x.update(j, p.x[j] != p.x[i]),
        z: p.z.update(i, p.z[i] != p.z[j]),
        r: p.r != (p.x[i] && p.z[j] && (p.x[j] == p.z[i])),
    }
}

/// The image of a row under a Pauli `X` on qubit `i`: the sign flips where `Z` or `Y` stands.
pub open spec fn row_x(p: PauliRow, i: int) -> PauliRow {
    PauliRow { x: p.x, z: p.z, r: p.r != p.z[i] }
}

/// The image of a row under a Pauli `Z` on qubit `i`: the sign flips where `X` or `Y` stands.
pub open spec fn row_z(p: PauliRow, i: int) -> PauliRow {
    PauliRow { x: p.x, z: p.z, r: p.r != p.x[i] }
}

/// The image of a row under a Pauli `Y` on qubit `i`: the sign flips where `X` or `Z` stands.
pub open spec fn row_y(p: PauliRow, i: int) -> PauliRow {
    PauliRow { x: p.x, z: p.z, r: p.r != (p.x[i] != p.z[i]) }
}

/// Two phase gates in a row are a Pauli `Z`.
pub proof fn lemma_z_from_s(p: PauliRow, i: int, n: nat)
    requires
        p.on(n),
        0 <= i < n,
    ensures
        row_s(row_s(p, i), i) == row_z(p, i),
{
    assert(row_s(row_s(p, i), i).z =~= p.z);
}

/// Conjugating a Pauli `Z` by Hadamards gives a Pauli `X`.
pub proof fn lemma_x_from_h_and_s(p: PauliRow, i: int, n: nat)
    requires
        p.on(n),
        0 <= i < n,
    ensures
        row_h(row_s(row_s(row_h(p, i), i), i), i) == row_x(p, i),
{
    let q = row_h(row_s(row_s(row_h(p, i), i), i), i);
    assert(q.x =~= p.x);
    assert(q.z =~= p.z);
}

/// Nothing is common with a string without set bits.
pub proof fn lemma_common_below_zero(a: Seq<bool>, b: Seq<bool>, k: nat)
    requires
        forall|j: int| 0 <= j < k ==> !#[trigger] a[j] || !b[j],
    ensures
        common_below(a, b, k) == 0,
    decreases k,
{
    if k > 0 {
        lemma_common_below_zero(a, b, (k - 1) as nat);
    }
}

/// The empty string is neutral for the product, on the left.
pub proof fn lemma_identity_mul(p: PauliRow, n: nat)
    requires
        p.on(n),
    ensures
        row_mul(identity_row(n), p) == p,
{
    lemma_common_below_zero(identity_row(n).z, p.x, n);
    assert(xor_bits(identity_row(n).x, p.x) =~= p.x);
    assert(xor_bits(identity_row(n).z, p.z) =~= p.z);
}

} // verus!
