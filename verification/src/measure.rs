//! Measuring Pauli observables: carrying an observable back through a circuit, and the terms
//! of an expectation value.

use vstd::arithmetic::power2;
use vstd::prelude::*;

use crate::gates::CliffordOp;
use crate::group;
use crate::group::PauliOp;
use crate::pauli;
use crate::tableau;

verus! {

/// Conjugation by the inverse of the phase gate on qubit `i`.
pub open spec fn undo_s(a: PauliOp, i: int) -> PauliOp {
    PauliOp {
        k: (a.k + 3 * group::bit(a.x[i])) % 4,
        x: a.x,
        z: a.z.update(i, a.z[i] != a.x[i]),
    }
}

/// Conjugation of an operator by the inverse of one recorded operation. All of them but the
/// phase gate are their own inverses; a waiting T gate is skipped.
pub open spec fn undo_step(a: PauliOp, op: CliffordOp) -> PauliOp {
    match op {
        CliffordOp::S(q) => undo_s(a, q as int),
        _ => group::conj_step(a, op),
    }
}

/// An operator carried back through a circuit, last operation first.
pub open spec fn undo_run(a: PauliOp, ops: Seq<CliffordOp>) -> PauliOp
    decreases ops.len(),
{
    if ops.len() == 0 {
        a
    } else {
        undo_run(undo_step(a, ops.last()), ops.drop_last())
    }
}

proof fn lemma_back_and_forth(k: int, e: int, f: int)
    requires
        0 <= k < 4,
        (e + f) % 4 == 0,
    ensures
        ((k + e) % 4 + f) % 4 == k,
{
}

proof fn lemma_step_restores(a: PauliOp, op: CliffordOp, n: nat)
    requires
        a.on(n),
        op.valid(n),
    ensures
        undo_step(a, op).on(n),
        group::conj_step(undo_step(a, op), op) == a,
{
    let b = group::conj_step(undo_step(a, op), op);
    let i = group::qubit(op);
    let u = undo_step(a, op);
    assert(b.x =~= a.x);
    assert(b.z =~= a.z);
    match op {
        CliffordOp::H(_) => {
            let e = 2 * group::bit(a.x[i] && a.z[i]);
            lemma_back_and_forth(a.k, e, e);
        },
        CliffordOp::S(_) => {
            let e = group::bit(a.x[i]);
            lemma_back_and_forth(a.k, 3 * e, e);
        },
        CliffordOp::X(_) => {
            let e = 2 * group::bit(a.z[i]);
            lemma_back_and_forth(a.k, e, e);
        },
        CliffordOp::Y(_) => {
            let e = 2 * group::bit(a.x[i] != a.z[i]);
            lemma_back_and_forth(a.k, e, e);
        },
        CliffordOp::Z(_) => {
            let e = 2 * group::bit(a.x[i]);
            lemma_back_and_forth(a.k, e, e);
        },
        _ => {},
    }
}

/// Carrying an operator back through a circuit and conjugating the outcome by the circuit
/// gives the operator: what comes out of the way back is R†·P·R.
pub proof fn law_way_back(a: PauliOp, ops: Seq<CliffordOp>, n: nat)
    requires
        a.on(n),
        group::valid_circuit(n, ops),
    ensures
        undo_run(a, ops).on(n),
        group::conj_run(undo_run(a, ops), ops) == a,
    decreases ops.len(),
{
    if ops.len() > 0 {
        let init = ops.drop_last();
        assert(forall|i: int| 0 <= i < init.len() ==> #[trigger] init[i] == ops[i]);
        lemma_step_restores(a, ops.last(), n);
        law_way_back(undo_step(a, ops.last()), init, n);
    }
}

/// The letters of an operator that was carried back through a circuit are sent by the
/// circuit's tableau to the letters it started with.
pub proof fn law_tableau_undoes_way_back(a: PauliOp, ops: Seq<CliffordOp>, n: nat)
    requires
        a.on(n),
        group::valid_circuit(n, ops),
    ensures
        ({
            let back = undo_run(a, ops);
            let there = tableau::image(group::circuit_rows(n, ops), n, back.x, back.z);
            there.x == a.x && there.z == a.z
        }),
{
    let back = undo_run(a, ops);
    let bare = PauliOp { k: 0, x: back.x, z: back.z };
    law_way_back(a, ops, n);
    group::law_scalars_pass_through(back.k, bare, ops, n);
    assert(group::times_i(back.k, bare) == back);
    group::law_image_is_conjugation(ops, n, back.x, back.z);
}

/// The operator with these bits in bytes.
pub open spec fn op_from(x: Seq<u8>, z: Seq<u8>, k: u8) -> PauliOp {
    PauliOp { k: k as int, x: tableau::bits_of(x), z: tableau::bits_of(z) }
}

/// Every byte is 0 or 1.
pub open spec fn binary(bytes: Seq<u8>) -> bool {
    forall|i: int| 0 <= i < bytes.len() ==> #[trigger] bytes[i] <= 1
}

/// Exclusive or of two bits.
fn xor_bit(a: u8, b: u8) -> (r: u8)
    requires
        a <= 1,
        b <= 1,
    ensures
        r <= 1,
        (r != 0) == ((a != 0) != (b != 0)),
{
    if a == b {
        0
    } else {
        1
    }
}

/// Carry the operator i^k·X^x·Z^z back through one operation.
fn undo_op(x: &mut Vec<u8>, z: &mut Vec<u8>, k: u8, op: CliffordOp) -> (r: u8)
    requires
        binary(old(x)@),
        binary(old(z)@),
        old(x)@.len() == old(z)@.len(),
        op.in_range(old(x)@.len()),
        k < 4,
    ensures
        final(x)@.len() == old(x)@.len(),
        final(z)@.len() == old(z)@.len(),
        binary(final(x)@),
        binary(final(z)@),
        r < 4,
        op_from(final(x)@, final(z)@, r) == undo_step(op_from(old(x)@, old(z)@, k), op),
{
    let ghost before = op_from(x@, z@, k);
    let r: u8 = match op {
        CliffordOp::H(q) => {
            let xq: u8 = x[q];
            let zq: u8 = z[q];
            x.set(q, zq);
            z.set(q, xq);
            if xq != 0 && zq != 0 {
                (k + 2) % 4
            } else {
                k
            }
        },
        CliffordOp::S(q) => {
            let xq: u8 = x[q];
            let zq: u8 = z[q];
            z.set(q, xor_bit(zq, xq));
            if xq != 0 {
                (k + 3) % 4
            } else {
                k
            }
        },
        CliffordOp::CNOT(c, t) => {
            let xc: u8 = x[c];
            let xt: u8 = x[t];
            let zc: u8 = z[c];
            let zt: u8 = z[t];
            x.set(t, xor_bit(xt, xc));
            z.set(c, xor_bit(zc, zt));
            k
        },
        CliffordOp::X(q) => {
            if z[q] != 0 {
                (k + 2) % 4
            } else {
                k
            }
        },
        CliffordOp::Y(q) => {
            if (x[q] != 0) != (z[q] != 0) {
                (k + 2) % 4
            } else {
                k
            }
        },
        CliffordOp::Z(q) => {
            if x[q] != 0 {
                (k + 2) % 4
            } else {
                k
            }
        },
        CliffordOp::T(_) | CliffordOp::Tdg(_) => k,
    };
    proof {
        let after = op_from(x@, z@, r);
        let want = undo_step(before, op);
        assert(after.x =~= want.x);
        assert(after.z =~= want.z);
    }
    r
}

/// Carry the Pauli X^x·Z^z back through recorded operations. The outcome is i^k·X^x'·Z^z',
/// given as x', z' and k.
pub fn conjugate_pauli_inverse(
    ops: &Vec<CliffordOp>,
    px: &[u8],
    pz: &[u8],
) -> (res: (Vec<u8>, Vec<u8>, u8))
    requires
        px@.len() == pz@.len(),
        binary(px@),
        binary(pz@),
        forall|i: int| 0 <= i < ops@.len() ==> (#[trigger] ops@[i]).in_range(px@.len()),
    ensures
        res.0@.len() == px@.len(),
        res.1@.len() == px@.len(),
        binary(res.0@),
        binary(res.1@),
        res.2 < 4,
        op_from(res.0@, res.1@, res.2) == undo_run(op_from(px@, pz@, 0), ops@),
{
    let mut x: Vec<u8> = vstd::slice::slice_to_vec(px);
    let mut z: Vec<u8> = vstd::slice::slice_to_vec(pz);
    let mut k: u8 = 0;
    let mut left: usize = ops.len();
    assert(ops@.take(left as int) =~= ops@);
    while left > 0
        invariant
            left <= ops@.len(),
            x@.len() == px@.len(),
            z@.len() == px@.len(),
            binary(x@),
            binary(z@),
            k < 4,
            forall|i: int| 0 <= i < ops@.len() ==> (#[trigger] ops@[i]).in_range(px@.len()),
            undo_run(op_from(x@, z@, k), ops@.take(left as int)) == undo_run(
                op_from(px@, pz@, 0),
                ops@,
            ),
        decreases left,
    {
        let ghost rest = ops@.take(left as int);
        left = left - 1;
        proof {
            assert(rest.last() == ops@[left as int]);
            assert(rest.drop_last() =~= ops@.take(left as int));
        }
        k = undo_op(&mut x, &mut z, k, ops[left]);
    }
    (x, z, k)
}

/// The bits of a basis state index, qubit 0 first.
pub open spec fn basis_bits(index: nat, n: nat) -> Seq<bool> {
    Seq::new(n, |i: int| (index / power2::pow2(i as nat)) % 2 == 1)
}

proof fn lemma_next_quotient(index: nat, i: nat)
    ensures
        index / power2::pow2(i + 1) == (index / power2::pow2(i)) / 2,
        index / power2::pow2(0) == index,
{
    power2::lemma_pow2_unfold(i + 1);
    power2::lemma_pow2_pos(i);
    power2::lemma2_to64();
    vstd::arithmetic::div_mod::lemma_div_denominator(index as int, power2::pow2(i) as int, 2);
    assert(power2::pow2(i) * 2 == power2::pow2(i + 1));
}

/// The sign (-1)^(a·z) that the Pauli Z^z gives to the basis state with index `a`.
pub fn parity(index: usize, z_bits: &[u8]) -> (sign: i32)
    ensures
        sign == (if pauli::common(
            tableau::bits_of(z_bits@),
            basis_bits(index as nat, z_bits@.len()),
        ) % 2 == 0 {
            1i32
        } else {
            -1i32
        }),
        sign == 1 || sign == -1,
        sign == 1 <==> group::act(
            PauliOp {
                k: 0,
                x: Seq::new(z_bits@.len(), |i: int| false),
                z: tableau::bits_of(z_bits@),
            },
            basis_bits(index as nat, z_bits@.len()),
        ).0 == 0,
{
    let ghost z = tableau::bits_of(z_bits@);
    let ghost s = basis_bits(index as nat, z_bits@.len());
    let mut odd: bool = false;
    let mut rest: usize = index;
    proof {
        lemma_next_quotient(index as nat, 0);
    }
    for i in 0..z_bits.len()
        invariant
            z == tableau::bits_of(z_bits@),
            s == basis_bits(index as nat, z_bits@.len()),
            rest == index as nat / power2::pow2(i as nat),
            odd == (pauli::common_below(z, s, i as nat) % 2 == 1),
    {
        if z_bits[i] != 0 && rest % 2 == 1 {
            odd = !odd;
        }
        proof {
            lemma_next_quotient(index as nat, i as nat);
        }
        rest = rest / 2;
    }
    if odd {
        -1
    } else {
        1
    }
}

/// The number with these bits, lowest first.
pub open spec fn bits_value(b: Seq<bool>) -> nat
    decreases b.len(),
{
    if b.len() == 0 {
        0
    } else {
        (if b[0] {
            1nat
        } else {
            0nat
        }) + 2 * bits_value(b.drop_first())
    }
}

/// The bits of the number with given bits are these bits, and it is below 2^n.
pub proof fn lemma_bits_value(b: Seq<bool>)
    ensures
        bits_value(b) < power2::pow2(b.len()),
        basis_bits(bits_value(b), b.len()) == b,
    decreases b.len(),
{
    power2::lemma2_to64();
    if b.len() > 0 {
        let t = b.drop_first();
        lemma_bits_value(t);
        power2::lemma_pow2_unfold(b.len());
        let v = bits_value(b);
        assert forall|i: int| 0 <= i < b.len() implies basis_bits(v, b.len())[i]
            == #[trigger] b[i] by {
            if i == 0 {
                lemma_next_quotient(v, 0);
            } else {
                let j = (i - 1) as nat;
                power2::lemma_pow2_pos(j);
                power2::lemma_pow2_unfold(i as nat);
                vstd::arithmetic::div_mod::lemma_div_denominator(
                    v as int,
                    2,
                    power2::pow2(j) as int,
                );
                assert(v / 2 == bits_value(t));
                assert(v / power2::pow2(i as nat) == bits_value(t) / power2::pow2(j));
                assert(basis_bits(bits_value(t), t.len())[i - 1] == t[i - 1]);
            }
        }
    }
    assert(basis_bits(bits_value(b), b.len()) =~= b);
}

/// The mask that the Pauli X^x applies to basis state indices.
pub fn x_mask(x_bits: &[u8]) -> (mask: usize)
    requires
        power2::pow2(x_bits@.len()) <= usize::MAX + 1,
    ensures
        mask == bits_value(tableau::bits_of(x_bits@)),
        mask < power2::pow2(x_bits@.len()),
{
    let ghost b = tableau::bits_of(x_bits@);
    let mut mask: usize = 0;
    let mut i: usize = x_bits.len();
    while i > 0
        invariant
            i <= x_bits@.len(),
            b == tableau::bits_of(x_bits@),
            power2::pow2(x_bits@.len()) <= usize::MAX + 1,
            mask == bits_value(b.skip(i as int)),
        decreases i,
    {
        let ghost above = b.skip(i as int);
        i = i - 1;
        proof {
            let now = b.skip(i as int);
            assert(now.drop_first() =~= above);
            lemma_bits_value(now);
            if now.len() < b.len() {
                power2::lemma_pow2_strictly_increases(now.len(), b.len());
            }
        }
        let bit: usize = if x_bits[i] != 0 {
            1
        } else {
            0
        };
        mask = bit + 2 * mask;
    }
    proof {
        assert(b.skip(0) =~= b);
        lemma_bits_value(b);
    }
    mask
}

/// Exclusive or of indices is exclusive or of their bits, and stays below 2^n.
proof fn lemma_xor_index(a: usize, m: usize, n: nat)
    requires
        n <= usize::BITS,
    ensures
        basis_bits((a ^ m) as nat, n) == pauli::xor_bits(
            basis_bits(a as nat, n),
            basis_bits(m as nat, n),
        ),
        a < power2::pow2(n) && m < power2::pow2(n) ==> (a ^ m) < power2::pow2(n),
{
    let b = a ^ m;
    assert forall|i: int| 0 <= i < n implies #[trigger] basis_bits(b as nat, n)[i] == (basis_bits(
        a as nat,
        n,
    )[i] != basis_bits(m as nat, n)[i]) by {
        let s = i as usize;
        vstd::bits::lemma_usize_shr_is_div(a, s);
        vstd::bits::lemma_usize_shr_is_div(m, s);
        vstd::bits::lemma_usize_shr_is_div(b, s);
        assert((((a ^ m) >> s) % 2 == 1) == (((a >> s) % 2 == 1) != ((m >> s) % 2 == 1)))
            by (bit_vector);
    }
    assert(basis_bits(b as nat, n) =~= pauli::xor_bits(
        basis_bits(a as nat, n),
        basis_bits(m as nat, n),
    ));
    if n < usize::BITS && a < power2::pow2(n) && m < power2::pow2(n) {
        let s = n as usize;
        vstd::bits::lemma_usize_shr_is_div(a, s);
        vstd::bits::lemma_usize_shr_is_div(m, s);
        vstd::bits::lemma_usize_shr_is_div(b, s);
        vstd::arithmetic::div_mod::lemma_basic_div(a as int, power2::pow2(n) as int);
        vstd::arithmetic::div_mod::lemma_basic_div(m as int, power2::pow2(n) as int);
        assert((a ^ m) >> s == 0) by (bit_vector)
            requires
                a >> s == 0,
                m >> s == 0,
        ;
        assert(b < power2::pow2(n)) by (nonlinear_arith)
            requires
                b as int / power2::pow2(n) as int == 0,
                power2::pow2(n) > 0,
        {
            power2::lemma_pow2_pos(n);
        }
    } else if n == usize::BITS {
        power2::lemma2_to64();
        power2::lemma2_to64_rest();
    }
}

/// The real part of i^k.
pub open spec fn real_part(k: int) -> int {
    if k % 4 == 0 {
        1
    } else if k % 4 == 2 {
        -1
    } else {
        0
    }
}

/// What a factor i^phase contributes to a real expectation value: 1, -1, or nothing.
pub fn phase_sign(phase: u8) -> (sign: i8)
    ensures
        sign == real_part(phase as int),
{
    match phase % 4 {
        0 => 1,
        2 => -1,
        _ => 0,
    }
}

/// One term of an expectation value: the basis state and the sign that the Pauli X^x·Z^z
/// sends the basis state `a` to.
pub fn pauli_term(a: usize, x_bits: &[u8], z_bits: &[u8]) -> (term: (usize, i32))
    requires
        x_bits@.len() == z_bits@.len(),
        x_bits@.len() <= usize::BITS,
        a < power2::pow2(x_bits@.len()),
    ensures
        term.0 < power2::pow2(x_bits@.len()),
        ({
            let n = x_bits@.len();
            let (k, s) = group::act(op_from(x_bits@, z_bits@, 0), basis_bits(a as nat, n));
            &&& basis_bits(term.0 as nat, n) == s
            &&& term.1 == (if k == 0 {
                1i32
            } else {
                -1i32
            })
        }),
{
    let ghost n = x_bits@.len();
    proof {
        power2::lemma2_to64();
        power2::lemma2_to64_rest();
        if n < usize::BITS {
            power2::lemma_pow2_strictly_increases(n, usize::BITS as nat);
        }
    }
    let mask: usize = x_mask(x_bits);
    proof {
        lemma_bits_value(tableau::bits_of(x_bits@));
        lemma_xor_index(a, mask, n);
    }
    let sign: i32 = parity(a, z_bits);
    (a ^ mask, sign)
}

/// The powers of i: the zeroth is 1, the first has no real part, and two more turn the sign.
pub proof fn law_real_part(k: int)
    ensures
        real_part(0) == 1,
        real_part(1) == 0,
        real_part(k + 2) == -real_part(k),
{
}

/// The operator of a pair of bit strings has an X where the first is not 0 and a Z where the
/// second is not 0.
pub proof fn law_op_from(x: Seq<u8>, z: Seq<u8>, k: u8, i: int)
    requires
        0 <= i < x.len(),
        x.len() == z.len(),
    ensures
        op_from(x, z, k).x.len() == x.len(),
        op_from(x, z, k).z.len() == z.len(),
        op_from(x, z, k).x[i] == (x[i] != 0),
        op_from(x, z, k).z[i] == (z[i] != 0),
        op_from(x, z, k).k == k,
{
}

/// Setting bit `i` adds 2^i to the number, and a number without set bits is 0.
pub proof fn law_weight_of_bit(b: Seq<bool>, i: int)
    requires
        0 <= i < b.len(),
    ensures
        bits_value(b.update(i, true)) == bits_value(b.update(i, false)) + power2::pow2(i as nat),
        (forall|j: int| 0 <= j < b.len() ==> !#[trigger] b[j]) ==> bits_value(b) == 0,
    decreases b.len(),
{
    power2::lemma2_to64();
    let t = b.drop_first();
    if i == 0 {
        assert(b.update(i, true).drop_first() =~= t);
        assert(b.update(i, false).drop_first() =~= t);
    } else {
        assert(b.update(i, true).drop_first() =~= t.update(i - 1, true));
        assert(b.update(i, false).drop_first() =~= t.update(i - 1, false));
        power2::lemma_pow2_unfold(i as nat);
        law_weight_of_bit(t, i - 1);
    }
    if forall|j: int| 0 <= j < b.len() ==> !#[trigger] b[j] {
        assert(!b[0]);
        assert forall|j: int| 0 <= j < t.len() implies !#[trigger] t[j] by {
            assert(!b[j + 1]);
        }
        if t.len() > 0 {
            law_weight_of_bit(t, 0);
        }
        assert(bits_value(t) == 0);
    }
}

} // verus!
