//! The Pauli group with its powers of i, and what the tableau means in it.
//!
//! A tableau row is a Hermitian operator: a sign times a tensor product of the letters
//! I, X, Y and Z. Its product with another row may pick up a factor of i, which a sign bit
//! cannot hold. This module keeps that factor, states what each gate does to an operator by
//! conjugation, and relates rows, images and compositions to it.

use vstd::prelude::*;

use crate::gates::CliffordOp;
use crate::pauli;
use crate::pauli::PauliRow;
use crate::tableau;

verus! {

/// The operator i^k · X^x · Z^z, with the exponent of i taken modulo four.
#[verifier::ext_equal]
pub struct PauliOp {
    pub k: int,
    pub x: Seq<bool>,
    pub z: Seq<bool>,
}

impl PauliOp {
    /// An operator on `n` qubits with its exponent in normal form.
    pub open spec fn on(self, n: nat) -> bool {
        self.x.len() == n && self.z.len() == n && 0 <= self.k < 4
    }
}

pub open spec fn bit(b: bool) -> int {
    if b {
        1
    } else {
        0
    }
}

/// i^k · X^x · Z^z applied to the basis state `s` gives i^(result.0) times the basis state
/// result.1: Z adds a sign for every common bit, X flips bits.
pub open spec fn act(op: PauliOp, s: Seq<bool>) -> (int, Seq<bool>) {
    ((op.k + 2 * pauli::common(op.z, s)) % 4, pauli::xor_bits(s, op.x))
}

/// The product of two operators.
pub open spec fn op_mul(a: PauliOp, b: PauliOp) -> PauliOp {
    PauliOp {
        k: (a.k + b.k + 2 * pauli::common(a.z, b.x)) % 4,
        x: pauli::xor_bits(a.x, b.x),
        z: pauli::xor_bits(a.z, b.z),
    }
}

/// The operator i^j times `op`.
pub open spec fn times_i(j: int, op: PauliOp) -> PauliOp {
    PauliOp { k: (op.k + j) % 4, ..op }
}

/// The identity operator.
pub open spec fn op_identity(n: nat) -> PauliOp {
    PauliOp { k: 0, x: Seq::new(n, |j: int| false), z: Seq::new(n, |j: int| false) }
}

/// The operator that a row stands for. Every letter Y is i·X·Z, so it contributes a factor i.
pub open spec fn op_of(p: PauliRow) -> PauliOp {
    PauliOp { k: (2 * bit(p.r) + pauli::common(p.x, p.z)) % 4, x: p.x, z: p.z }
}

/// Conjugation by a Hadamard on qubit `i`.
pub open spec fn conj_h(op: PauliOp, i: int) -> PauliOp {
    PauliOp {
        k: (op.k + 2 * bit(op.x[i] && op.z[i])) % 4,
        x: op.x.update(i, op.z[i]),
        z: op.z.update(i, op.x[i]),
    }
}

/// Conjugation by the phase gate on qubit `i`.
pub open spec fn conj_s(op: PauliOp, i: int) -> PauliOp {
    PauliOp {
        k: (op.k + bit(op.x[i])) % 4,
        x: op.x,
        z: op.z.update(i, op.z[i] != op.x[i]),
    }
}

/// Conjugation by a CNOT with control `i` and target `j`.
pub open spec fn conj_cnot(op: PauliOp, i: int, j: int) -> PauliOp {
    PauliOp {
        k: op.k,
        x: op.x.update(j, op.x[j] != op.x[i]),
        z: op.z.update(i, op.z[i] != op.z[j]),
    }
}

/// Changing both strings at one position changes the count of common bits there only.
proof fn lemma_common_update(a: Seq<bool>, b: Seq<bool>, i: int, v: bool, w: bool, k: nat)
    requires
        k <= a.len(),
        k <= b.len(),
        0 <= i < a.len(),
        0 <= i < b.len(),
    ensures
        pauli::common_below(a.update(i, v), b.update(i, w), k) == pauli::common_below(a, b, k) + (
        if i < k {
            bit(v && w) - bit(a[i] && b[i])
        } else {
            0
        }),
    decreases k,
{
    if k > 0 {
        lemma_common_update(a, b, i, v, w, (k - 1) as nat);
    }
}

/// The count of common bits is linear modulo two in its first argument.
proof fn lemma_common_xor_left(a: Seq<bool>, b: Seq<bool>, c: Seq<bool>, k: nat)
    requires
        k <= a.len(),
        a.len() == b.len(),
        a.len() == c.len(),
    ensures
        pauli::common_below(pauli::xor_bits(a, b), c, k) % 2 == (pauli::common_below(a, c, k)
            + pauli::common_below(b, c, k)) % 2,
    decreases k,
{
    if k > 0 {
        lemma_common_xor_left(a, b, c, (k - 1) as nat);
    }
}

pub proof fn lemma_common_comm(a: Seq<bool>, b: Seq<bool>, k: nat)
    ensures
        pauli::common_below(a, b, k) == pauli::common_below(b, a, k),
    decreases k,
{
    if k > 0 {
        lemma_common_comm(a, b, (k - 1) as nat);
    }
}

/// The count of common bits is linear modulo two in its second argument.
proof fn lemma_common_xor_right(a: Seq<bool>, b: Seq<bool>, c: Seq<bool>, k: nat)
    requires
        k <= a.len(),
        a.len() == b.len(),
        a.len() == c.len(),
    ensures
        pauli::common_below(c, pauli::xor_bits(a, b), k) % 2 == (pauli::common_below(c, a, k)
            + pauli::common_below(c, b, k)) % 2,
{
    lemma_common_comm(c, pauli::xor_bits(a, b), k);
    lemma_common_comm(c, a, k);
    lemma_common_comm(c, b, k);
    lemma_common_xor_left(a, b, c, k);
}

/// Twice a number depends modulo four on the number modulo two only.
proof fn lemma_double_mod(u: int, v: int)
    requires
        u % 2 == v % 2,
    ensures
        (2 * u) % 4 == (2 * v) % 4,
{
}

proof fn lemma_mod4_add(a: int, b: int, c: int)
    requires
        a % 4 == b % 4,
    ensures
        (a + c) % 4 == (b + c) % 4,
        (a % 4 + c) % 4 == (a + c) % 4,
        (c + a % 4) % 4 == (a + c) % 4,
{
}

/// Inner remainders may be dropped.
proof fn lemma_flat(a: int, b: int, e: int)
    ensures
        (a % 4 + e) % 4 == (a + e) % 4,
        (a % 4 + b % 4 + e) % 4 == (a + b + e) % 4,
        (a % 4 + b % 4) % 4 == (a + b) % 4,
{
    lemma_mod4_add(a, a, e);
    lemma_mod4_add(a, a, b % 4 + e);
    lemma_mod4_add(b, b, a + e);
    lemma_mod4_add(a, a, b % 4);
    lemma_mod4_add(b, b, a);
}

/// Twice a number may be exchanged for twice another one of the same parity.
proof fn lemma_even_shift(s: int, u: int, v: int)
    requires
        u % 2 == v % 2,
    ensures
        (s + 2 * u) % 4 == (s + 2 * v) % 4,
{
    lemma_double_mod(u, v);
    lemma_mod4_add(2 * u, 2 * v, s);
}

/// Numbers that differ by nothing or by two have the same parity.
proof fn lemma_mod2_close(u: int, v: int)
    requires
        u - v == 0 || u - v == 2 || u - v == -2,
    ensures
        u % 2 == v % 2,
{
}

/// Numbers that differ by nothing or by four agree modulo four.
proof fn lemma_mod4_close(u: int, v: int)
    requires
        u - v == 0 || u - v == 4 || u - v == -4,
    ensures
        u % 4 == v % 4,
{
}

/// The exponents of a composition of two operators.
proof fn lemma_composition_exponent(ka: int, kb: int, c: int, e: int, f: int, ef: int, ec: int)
    requires
        ef % 2 == (e + f) % 2,
        ec % 2 == (e + c) % 2,
    ensures
        ((ka + kb + 2 * c) % 4 + 2 * ef) % 4 == ((ka + 2 * ec) % 4 + (kb + 2 * f) % 4) % 4,
{
    lemma_flat(ka + kb + 2 * c, 0, 2 * ef);
    lemma_flat(ka + 2 * ec, kb + 2 * f, 0);
    lemma_even_shift(ka + kb + 2 * c, ef, e + f);
    lemma_even_shift(ka + kb + 2 * f, ec, e + c);
}

/// The product of two operators acts on basis states as one after the other.
pub proof fn law_product_is_composition(a: PauliOp, b: PauliOp, s: Seq<bool>, n: nat)
    requires
        a.on(n),
        b.on(n),
        s.len() == n,
    ensures
        act(op_mul(a, b), s).1 == act(a, act(b, s).1).1,
        act(op_mul(a, b), s).0 == (act(a, act(b, s).1).0 + act(b, s).0) % 4,
{
    assert(act(op_mul(a, b), s).1 =~= act(a, act(b, s).1).1);
    lemma_common_xor_left(a.z, b.z, s, n);
    lemma_common_xor_right(s, b.x, a.z, n);
    lemma_composition_exponent(
        a.k,
        b.k,
        pauli::common(a.z, b.x) as int,
        pauli::common(a.z, s) as int,
        pauli::common(b.z, s) as int,
        pauli::common(pauli::xor_bits(a.z, b.z), s) as int,
        pauli::common(a.z, pauli::xor_bits(s, b.x)) as int,
    );
}

/// The product of operators is associative.
pub proof fn law_product_is_associative(a: PauliOp, b: PauliOp, c: PauliOp, n: nat)
    requires
        a.on(n),
        b.on(n),
        c.on(n),
    ensures
        op_mul(op_mul(a, b), c) == op_mul(a, op_mul(b, c)),
{
    let l = op_mul(op_mul(a, b), c);
    let r = op_mul(a, op_mul(b, c));
    assert(l.x =~= r.x);
    assert(l.z =~= r.z);
    lemma_common_xor_left(a.z, b.z, c.x, n);
    lemma_common_xor_right(b.x, c.x, a.z, n);
    let ab = pauli::common(a.z, b.x) as int;
    let ac = pauli::common(a.z, c.x) as int;
    let bc = pauli::common(b.z, c.x) as int;
    let left = pauli::common(pauli::xor_bits(a.z, b.z), c.x) as int;
    let right = pauli::common(a.z, pauli::xor_bits(b.x, c.x)) as int;
    let sum = a.k + b.k + c.k + 2 * (ab + ac + bc);
    assert(l.k == sum % 4) by {
        lemma_mod4_add(a.k + b.k + 2 * ab, a.k + b.k + 2 * ab, c.k + 2 * left);
        lemma_double_mod(left, ac + bc);
        lemma_mod4_add(2 * left, 2 * (ac + bc), a.k + b.k + c.k + 2 * ab);
    }
    assert(r.k == sum % 4) by {
        lemma_mod4_add(b.k + c.k + 2 * bc, b.k + c.k + 2 * bc, a.k + 2 * right);
        lemma_double_mod(right, ab + ac);
        lemma_mod4_add(2 * right, 2 * (ab + ac), a.k + b.k + c.k + 2 * bc);
    }
}

/// A row is a Hermitian operator whose square is the identity.
pub proof fn law_row_squares_to_identity(p: PauliRow, n: nat)
    requires
        p.on(n),
    ensures
        op_mul(op_of(p), op_of(p)) == op_identity(n),
{
    let q = op_mul(op_of(p), op_of(p));
    assert(q.x =~= op_identity(n).x);
    assert(q.z =~= op_identity(n).z);
    lemma_common_comm(p.x, p.z, n);
}

/// The row update of a Hadamard is conjugation of the row's operator.
pub proof fn law_h_conjugates_rows(p: PauliRow, i: int, n: nat)
    requires
        p.on(n),
        0 <= i < n,
    ensures
        op_of(pauli::row_h(p, i)) == conj_h(op_of(p), i),
{
    lemma_common_update(p.x, p.z, i, p.z[i], p.x[i], n);
    let y = bit(p.x[i] && p.z[i]);
    let c = pauli::common(p.x, p.z) as int;
    lemma_mod4_add(2 * bit(p.r) + c, 2 * bit(p.r) + c, 2 * y);
    assert(2 * bit(p.r != (y == 1)) % 4 == (2 * bit(p.r) + 2 * y) % 4);
    lemma_mod4_add(2 * bit(p.r != (y == 1)), 2 * bit(p.r) + 2 * y, c);
}

/// The exponents on both sides of the Hadamard's product rule.
proof fn lemma_h_exponent(
    ka: int,
    kb: int,
    c: int,
    d: int,
    ax: bool,
    az: bool,
    bx: bool,
    bz: bool,
)
    requires
        d == c + bit(ax && bz) - bit(az && bx),
    ensures
        ((ka + kb + 2 * c) % 4 + 2 * bit((ax != bx) && (az != bz))) % 4 == ((ka + 2 * bit(
            ax && az,
        )) % 4 + (kb + 2 * bit(bx && bz)) % 4 + 2 * d) % 4,
{
    let ya = bit(ax && az);
    let yb = bit(bx && bz);
    let yab = bit((ax != bx) && (az != bz));
    lemma_mod2_close(c + yab, ya + yb + d);
    lemma_flat(ka + kb + 2 * c, 0, 2 * yab);
    lemma_flat(ka + 2 * ya, kb + 2 * yb, 2 * d);
    lemma_even_shift(ka + kb, c + yab, ya + yb + d);
}

/// Conjugation by a Hadamard respects products.
pub proof fn law_h_respects_products(a: PauliOp, b: PauliOp, i: int, n: nat)
    requires
        a.on(n),
        b.on(n),
        0 <= i < n,
    ensures
        conj_h(op_mul(a, b), i) == op_mul(conj_h(a, i), conj_h(b, i)),
{
    let l = conj_h(op_mul(a, b), i);
    let r = op_mul(conj_h(a, i), conj_h(b, i));
    assert(l.x =~= r.x);
    assert(l.z =~= r.z);
    let c = pauli::common(a.z, b.x) as int;
    let d = pauli::common(a.z.update(i, a.x[i]), b.x.update(i, b.z[i])) as int;
    lemma_common_update(a.z, b.x, i, a.x[i], b.z[i], n);
    lemma_h_exponent(a.k, b.k, c, d, a.x[i], a.z[i], b.x[i], b.z[i]);
}

/// The row update of the phase gate is conjugation of the row's operator.
pub proof fn law_s_conjugates_rows(p: PauliRow, i: int, n: nat)
    requires
        p.on(n),
        0 <= i < n,
    ensures
        op_of(pauli::row_s(p, i)) == conj_s(op_of(p), i),
{
    assert(p.x.update(i, p.x[i]) =~= p.x);
    lemma_common_update(p.x, p.z, i, p.x[i], p.z[i] != p.x[i], n);
    let c = pauli::common(p.x, p.z) as int;
    let d = pauli::common(p.x, p.z.update(i, p.z[i] != p.x[i])) as int;
    lemma_s_row_exponent(p.r, c, d, p.x[i], p.z[i]);
}

proof fn lemma_s_row_exponent(r: bool, c: int, d: int, x: bool, z: bool)
    requires
        d == c + bit(x && (z != x)) - bit(x && z),
    ensures
        (2 * bit(r != (x && z)) + d) % 4 == ((2 * bit(r) + c) % 4 + bit(x)) % 4,
{
    lemma_flat(2 * bit(r) + c, 0, bit(x));
    lemma_mod4_close(2 * bit(r != (x && z)) + d, 2 * bit(r) + c + bit(x));
}

proof fn lemma_s_exponent(ka: int, kb: int, c: int, d: int, ax: bool, az: bool, bx: bool)
    requires
        d == c + bit((az != ax) && bx) - bit(az && bx),
    ensures
        ((ka + kb + 2 * c) % 4 + bit(ax != bx)) % 4 == ((ka + bit(ax)) % 4 + (kb + bit(bx)) % 4 + 2
            * d) % 4,
{
    lemma_flat(ka + kb + 2 * c, 0, bit(ax != bx));
    lemma_flat(ka + bit(ax), kb + bit(bx), 2 * d);
    lemma_mod4_close(
        ka + kb + 2 * c + bit(ax != bx),
        ka + bit(ax) + (kb + bit(bx)) + 2 * d,
    );
}

/// Conjugation by the phase gate respects products.
pub proof fn law_s_respects_products(a: PauliOp, b: PauliOp, i: int, n: nat)
    requires
        a.on(n),
        b.on(n),
        0 <= i < n,
    ensures
        conj_s(op_mul(a, b), i) == op_mul(conj_s(a, i), conj_s(b, i)),
{
    let l = conj_s(op_mul(a, b), i);
    let r = op_mul(conj_s(a, i), conj_s(b, i));
    assert(l.x =~= r.x);
    assert(l.z =~= r.z);
    assert(b.x.update(i, b.x[i]) =~= b.x);
    lemma_common_update(a.z, b.x, i, a.z[i] != a.x[i], b.x[i], n);
    let c = pauli::common(a.z, b.x) as int;
    let d = pauli::common(a.z.update(i, a.z[i] != a.x[i]), b.x) as int;
    lemma_s_exponent(a.k, b.k, c, d, a.x[i], a.z[i], b.x[i]);
}

/// The row update of a CNOT between two qubits is conjugation of the row's operator.
pub proof fn law_cnot_conjugates_rows(p: PauliRow, i: int, j: int, n: nat)
    requires
        p.on(n),
        0 <= i < n,
        0 <= j < n,
        i != j,
    ensures
        op_of(pauli::row_cnot(p, i, j)) == conj_cnot(op_of(p), i, j),
{
    let x2 = p.x.update(j, p.x[j] != p.x[i]);
    let z2 = p.z.update(i, p.z[i] != p.z[j]);
    // Change the control first, then the target.
    assert(p.x.update(i, p.x[i]) =~= p.x);
    assert(z2.update(j, z2[j]) =~= z2);
    lemma_common_update(p.x, p.z, i, p.x[i], p.z[i] != p.z[j], n);
    lemma_common_update(p.x, z2, j, p.x[j] != p.x[i], z2[j], n);
    let c = pauli::common(p.x, p.z) as int;
    let d = pauli::common(x2, z2) as int;
    lemma_cnot_row_exponent(p.r, c, d, p.x[i], p.z[i], p.x[j], p.z[j]);
}

proof fn lemma_cnot_row_exponent(
    r: bool,
    c: int,
    d: int,
    xi: bool,
    zi: bool,
    xj: bool,
    zj: bool,
)
    requires
        d == c + bit(xi && (zi != zj)) - bit(xi && zi) + bit((xj != xi) && zj) - bit(xj && zj),
    ensures
        (2 * bit(r != (xi && zj && (xj == zi))) + d) % 4 == (2 * bit(r) + c) % 4,
{
    let u = 2 * bit(r != (xi && zj && (xj == zi))) + d;
    let v = 2 * bit(r) + c;
    assert(u - v == 0 || u - v == 4 || u - v == -4);
    lemma_mod4_close(u, v);
}

/// Conjugation by a CNOT between two qubits respects products.
pub proof fn law_cnot_respects_products(a: PauliOp, b: PauliOp, i: int, j: int, n: nat)
    requires
        a.on(n),
        b.on(n),
        0 <= i < n,
        0 <= j < n,
        i != j,
    ensures
        conj_cnot(op_mul(a, b), i, j) == op_mul(conj_cnot(a, i, j), conj_cnot(b, i, j)),
{
    let l = conj_cnot(op_mul(a, b), i, j);
    let r = op_mul(conj_cnot(a, i, j), conj_cnot(b, i, j));
    assert(l.x =~= r.x);
    assert(l.z =~= r.z);
    let z2 = a.z.update(i, a.z[i] != a.z[j]);
    let x2 = b.x.update(j, b.x[j] != b.x[i]);
    assert(b.x.update(i, b.x[i]) =~= b.x);
    assert(z2.update(j, z2[j]) =~= z2);
    lemma_common_update(a.z, b.x, i, a.z[i] != a.z[j], b.x[i], n);
    lemma_common_update(z2, b.x, j, z2[j], b.x[j] != b.x[i], n);
    let c = pauli::common(a.z, b.x) as int;
    let d = pauli::common(z2, x2) as int;
    assert(d - c == 0 || d - c == 2 || d - c == -2);
    lemma_double_mod(c, d);
    lemma_mod4_add(2 * c, 2 * d, a.k + b.k);
}

/// A Hadamard exchanges X and Z on its qubit and leaves the other generators alone.
pub proof fn law_h_on_generators(n: nat, i: int, m: int)
    requires
        0 <= i < n,
        0 <= m < n,
    ensures
        pauli::row_h(pauli::x_generator(n, m), i) == (if m == i {
            pauli::z_generator(n, i)
        } else {
            pauli::x_generator(n, m)
        }),
        pauli::row_h(pauli::z_generator(n, m), i) == (if m == i {
            pauli::x_generator(n, i)
        } else {
            pauli::z_generator(n, m)
        }),
{
    let gx = pauli::x_generator(n, m);
    let gz = pauli::z_generator(n, m);
    let hx = pauli::row_h(gx, i);
    let hz = pauli::row_h(gz, i);
    if m == i {
        assert(hx.x =~= gz.x && hx.z =~= gz.z);
        assert(hz.x =~= gx.x && hz.z =~= gx.z);
    } else {
        assert(hx.x =~= gx.x && hx.z =~= gx.z);
        assert(hz.x =~= gz.x && hz.z =~= gz.z);
    }
}

/// The phase gate sends X to Y on its qubit and leaves the other generators alone.
pub proof fn law_s_on_generators(n: nat, i: int, m: int)
    requires
        0 <= i < n,
        0 <= m < n,
    ensures
        pauli::row_s(pauli::x_generator(n, m), i) == (if m == i {
            PauliRow { z: pauli::z_generator(n, i).z, ..pauli::x_generator(n, i) }
        } else {
            pauli::x_generator(n, m)
        }),
        pauli::row_s(pauli::z_generator(n, m), i) == pauli::z_generator(n, m),
{
    let gx = pauli::x_generator(n, m);
    let gz = pauli::z_generator(n, m);
    if m == i {
        assert(pauli::row_s(gx, i).z =~= gz.z);
    } else {
        assert(pauli::row_s(gx, i).z =~= gx.z);
    }
    assert(pauli::row_s(gz, i).z =~= gz.z);
}

/// A CNOT sends the control's X to X on both qubits and the target's Z to Z on both, and
/// leaves the other generators alone.
pub proof fn law_cnot_on_generators(n: nat, i: int, j: int, m: int)
    requires
        0 <= i < n,
        0 <= j < n,
        i != j,
        0 <= m < n,
    ensures
        pauli::row_cnot(pauli::x_generator(n, m), i, j) == (if m == i {
            pauli::row_mul(pauli::x_generator(n, i), pauli::x_generator(n, j))
        } else {
            pauli::x_generator(n, m)
        }),
        pauli::row_cnot(pauli::z_generator(n, m), i, j) == (if m == j {
            pauli::row_mul(pauli::z_generator(n, i), pauli::z_generator(n, j))
        } else {
            pauli::z_generator(n, m)
        }),
{
    let gx = pauli::x_generator(n, m);
    let gz = pauli::z_generator(n, m);
    let cx = pauli::row_cnot(gx, i, j);
    let cz = pauli::row_cnot(gz, i, j);
    let xx = pauli::row_mul(pauli::x_generator(n, i), pauli::x_generator(n, j));
    let zz = pauli::row_mul(pauli::z_generator(n, i), pauli::z_generator(n, j));
    pauli::lemma_common_below_zero(pauli::x_generator(n, i).z, pauli::x_generator(n, j).x, n);
    pauli::lemma_common_below_zero(pauli::z_generator(n, i).z, pauli::z_generator(n, j).x, n);
    if m == i {
        assert(cx.x =~= xx.x && cx.z =~= xx.z);
    } else {
        assert(cx.x =~= gx.x && cx.z =~= gx.z);
    }
    if m == j {
        assert(cz.x =~= zz.x && cz.z =~= zz.z);
    } else {
        assert(cz.x =~= gz.x && cz.z =~= gz.z);
    }
}

/// Conjugation by a Pauli X on qubit `i`.
pub open spec fn conj_x(op: PauliOp, i: int) -> PauliOp {
    times_i(2 * bit(op.z[i]), op)
}

/// Conjugation by a Pauli Y on qubit `i`.
pub open spec fn conj_y(op: PauliOp, i: int) -> PauliOp {
    times_i(2 * bit(op.x[i] != op.z[i]), op)
}

/// Conjugation by a Pauli Z on qubit `i`.
pub open spec fn conj_z(op: PauliOp, i: int) -> PauliOp {
    times_i(2 * bit(op.x[i]), op)
}

/// What the tableau does to a row for one recorded operation. A waiting T gate leaves the
/// tableau alone.
pub open spec fn row_step(p: PauliRow, op: CliffordOp) -> PauliRow {
    match op {
        CliffordOp::H(q) => pauli::row_h(p, q as int),
        CliffordOp::S(q) => pauli::row_s(p, q as int),
        CliffordOp::X(q) => pauli::row_x(p, q as int),
        CliffordOp::Y(q) => pauli::row_y(p, q as int),
        CliffordOp::Z(q) => pauli::row_z(p, q as int),
        CliffordOp::CNOT(c, t) => pauli::row_cnot(p, c as int, t as int),
        CliffordOp::T(_) | CliffordOp::Tdg(_) => p,
    }
}

/// Conjugation of an operator by one recorded Clifford operation.
pub open spec fn conj_step(a: PauliOp, op: CliffordOp) -> PauliOp {
    match op {
        CliffordOp::H(q) => conj_h(a, q as int),
        CliffordOp::S(q) => conj_s(a, q as int),
        CliffordOp::X(q) => conj_x(a, q as int),
        CliffordOp::Y(q) => conj_y(a, q as int),
        CliffordOp::Z(q) => conj_z(a, q as int),
        CliffordOp::CNOT(c, t) => conj_cnot(a, c as int, t as int),
        CliffordOp::T(_) | CliffordOp::Tdg(_) => a,
    }
}

/// A row carried through a sequence of operations, first operation first.
pub open spec fn row_run(p: PauliRow, ops: Seq<CliffordOp>) -> PauliRow
    decreases ops.len(),
{
    if ops.len() == 0 {
        p
    } else {
        row_step(row_run(p, ops.drop_last()), ops.last())
    }
}

/// Conjugation by a whole circuit, first operation first.
pub open spec fn conj_run(a: PauliOp, ops: Seq<CliffordOp>) -> PauliOp
    decreases ops.len(),
{
    if ops.len() == 0 {
        a
    } else {
        conj_step(conj_run(a, ops.drop_last()), ops.last())
    }
}

/// The rows of the tableau after a circuit.
pub open spec fn circuit_rows(n: nat, ops: Seq<CliffordOp>) -> Seq<PauliRow> {
    tableau::identity_rows(n).map_values(|p: PauliRow| row_run(p, ops))
}

/// The tableau of the empty circuit is the identity tableau.
pub proof fn lemma_empty_circuit(n: nat)
    ensures
        circuit_rows(n, Seq::empty()) == tableau::identity_rows(n),
{
    assert(circuit_rows(n, Seq::empty()) =~= tableau::identity_rows(n));
}

/// Every operation of a circuit is valid.
pub open spec fn valid_circuit(n: nat, ops: Seq<CliffordOp>) -> bool {
    forall|i: int| 0 <= i < ops.len() ==> (#[trigger] ops[i]).valid(n)
}

proof fn lemma_sign_exponent(r: bool, f: bool, c: int)
    ensures
        (2 * bit(r != f) + c) % 4 == ((2 * bit(r) + c) % 4 + 2 * bit(f)) % 4,
{
    lemma_flat(2 * bit(r) + c, 0, 2 * bit(f));
    lemma_mod4_close(2 * bit(r != f) + c, 2 * bit(r) + c + 2 * bit(f));
}

/// One step keeps the shape of a row.
pub proof fn lemma_row_step_shape(p: PauliRow, op: CliffordOp, n: nat)
    requires
        p.on(n),
        op.in_range(n),
    ensures
        row_step(p, op).on(n),
{
}

/// The tableau's row update for a valid operation is conjugation of the row's operator.
pub proof fn law_step_conjugates_rows(p: PauliRow, op: CliffordOp, n: nat)
    requires
        p.on(n),
        op.valid(n),
    ensures
        op_of(row_step(p, op)) == conj_step(op_of(p), op),
{
    let c = pauli::common(p.x, p.z) as int;
    match op {
        CliffordOp::H(q) => law_h_conjugates_rows(p, q as int, n),
        CliffordOp::S(q) => law_s_conjugates_rows(p, q as int, n),
        CliffordOp::X(q) => lemma_sign_exponent(p.r, p.z[q as int], c),
        CliffordOp::Y(q) => lemma_sign_exponent(p.r, p.x[q as int] != p.z[q as int], c),
        CliffordOp::Z(q) => lemma_sign_exponent(p.r, p.x[q as int], c),
        CliffordOp::CNOT(a, b) => law_cnot_conjugates_rows(p, a as int, b as int, n),
        CliffordOp::T(_) | CliffordOp::Tdg(_) => {},
    }
}

proof fn lemma_flip_exponent(ka: int, kb: int, c: int, fa: bool, fb: bool)
    ensures
        ((ka + kb + 2 * c) % 4 + 2 * bit(fa != fb)) % 4 == ((ka + 2 * bit(fa)) % 4 + (kb + 2 * bit(
            fb,
        )) % 4 + 2 * c) % 4,
{
    lemma_flat(ka + kb + 2 * c, 0, 2 * bit(fa != fb));
    lemma_flat(ka + 2 * bit(fa), kb + 2 * bit(fb), 2 * c);
    lemma_mod2_close(bit(fa != fb), bit(fa) + bit(fb));
    lemma_even_shift(ka + kb + 2 * c, bit(fa != fb), bit(fa) + bit(fb));
}

/// Conjugation by a valid operation respects products.
pub proof fn law_step_respects_products(a: PauliOp, b: PauliOp, op: CliffordOp, n: nat)
    requires
        a.on(n),
        b.on(n),
        op.valid(n),
    ensures
        conj_step(op_mul(a, b), op) == op_mul(conj_step(a, op), conj_step(b, op)),
        conj_step(a, op).on(n),
{
    let c = pauli::common(a.z, b.x) as int;
    match op {
        CliffordOp::H(q) => law_h_respects_products(a, b, q as int, n),
        CliffordOp::S(q) => law_s_respects_products(a, b, q as int, n),
        CliffordOp::X(q) => {
            let i = q as int;
            assert((a.z[i] != b.z[i]) == pauli::xor_bits(a.z, b.z)[i]);
            lemma_flip_exponent(a.k, b.k, c, a.z[i], b.z[i]);
        },
        CliffordOp::Y(q) => {
            let i = q as int;
            let fa = a.x[i] != a.z[i];
            let fb = b.x[i] != b.z[i];
            assert((fa != fb) == (pauli::xor_bits(a.x, b.x)[i] != pauli::xor_bits(a.z, b.z)[i]));
            lemma_flip_exponent(a.k, b.k, c, fa, fb);
        },
        CliffordOp::Z(q) => {
            let i = q as int;
            assert((a.x[i] != b.x[i]) == pauli::xor_bits(a.x, b.x)[i]);
            lemma_flip_exponent(a.k, b.k, c, a.x[i], b.x[i]);
        },
        CliffordOp::CNOT(i, j) => law_cnot_respects_products(a, b, i as int, j as int, n),
        CliffordOp::T(_) | CliffordOp::Tdg(_) => {},
    }
}

/// A row carried through a circuit is the conjugate of its operator by the circuit, sign
/// included: row k of a tableau stands for R·G·R† with G the k-th generator.
pub proof fn law_rows_are_conjugates(p: PauliRow, ops: Seq<CliffordOp>, n: nat)
    requires
        p.on(n),
        valid_circuit(n, ops),
    ensures
        row_run(p, ops).on(n),
        op_of(row_run(p, ops)) == conj_run(op_of(p), ops),
    decreases ops.len(),
{
    if ops.len() > 0 {
        let init = ops.drop_last();
        assert(forall|i: int| 0 <= i < init.len() ==> #[trigger] init[i] == ops[i]);
        law_rows_are_conjugates(p, init, n);
        law_step_conjugates_rows(row_run(p, init), ops.last(), n);
    }
}

/// Conjugation by a circuit respects products.
pub proof fn law_circuit_respects_products(
    a: PauliOp,
    b: PauliOp,
    ops: Seq<CliffordOp>,
    n: nat,
)
    requires
        a.on(n),
        b.on(n),
        valid_circuit(n, ops),
    ensures
        conj_run(op_mul(a, b), ops) == op_mul(conj_run(a, ops), conj_run(b, ops)),
        conj_run(a, ops).on(n),
        conj_run(b, ops).on(n),
    decreases ops.len(),
{
    if ops.len() > 0 {
        let init = ops.drop_last();
        assert(forall|i: int| 0 <= i < init.len() ==> #[trigger] init[i] == ops[i]);
        law_circuit_respects_products(a, b, init, n);
        law_step_respects_products(conj_run(a, init), conj_run(b, init), ops.last(), n);
        law_step_respects_products(conj_run(b, init), conj_run(a, init), ops.last(), n);
    }
}

/// The operator product, from left to right, of the first `k` selected rows.
pub open spec fn op_product(rows: Seq<PauliRow>, pick: Seq<bool>, n: nat, k: nat) -> PauliOp
    decreases k,
{
    if k == 0 {
        op_identity(n)
    } else {
        let p = op_product(rows, pick, n, (k - 1) as nat);
        if pick[k - 1] {
            op_mul(p, op_of(rows[k - 1]))
        } else {
            p
        }
    }
}

/// The operator ±X^x·Z^z with the bits and the sign of a row.
pub open spec fn signed_op(p: PauliRow) -> PauliOp {
    PauliOp { k: 2 * bit(p.r), x: p.x, z: p.z }
}

proof fn lemma_product_exponent(y: int, rp: bool, rq: bool, c: int, cross: int)
    ensures
        ((2 * bit(rp) + y) % 4 + (2 * bit(rq) + c) % 4 + 2 * cross) % 4 == (2 * bit(
            (rp != rq) != (cross % 2 == 1),
        ) + (y + c)) % 4,
{
    let odd = bit(cross % 2 == 1);
    let sign = bit((rp != rq) != (cross % 2 == 1));
    lemma_flat(2 * bit(rp) + y, 2 * bit(rq) + c, 2 * cross);
    lemma_even_shift(2 * bit(rp) + y + (2 * bit(rq) + c), cross, odd);
    lemma_mod2_close(bit(rp) + bit(rq) + odd, sign);
    lemma_even_shift(y + c, bit(rp) + bit(rq) + odd, sign);
}

/// The product of selected rows, as the tableau computes it, is the operator product up to
/// one factor i for every letter Y in those rows.
pub proof fn law_picked_product(rows: Seq<PauliRow>, pick: Seq<bool>, n: nat, k: nat)
    requires
        k <= rows.len(),
        forall|i: int| 0 <= i < rows.len() ==> (#[trigger] rows[i]).on(n),
    ensures
        tableau::picked_product(rows, pick, n, k).on(n),
        op_product(rows, pick, n, k) == times_i(
            tableau::y_letters(rows, pick, k) as int,
            signed_op(tableau::picked_product(rows, pick, n, k)),
        ),
    decreases k,
{
    if k > 0 {
        let m = (k - 1) as nat;
        law_picked_product(rows, pick, n, m);
        if pick[k - 1] {
            let p = tableau::picked_product(rows, pick, n, m);
            let q = rows[k - 1];
            lemma_product_exponent(
                tableau::y_letters(rows, pick, m) as int,
                p.r,
                q.r,
                pauli::common(q.x, q.z) as int,
                pauli::common(p.z, q.x) as int,
            );
        }
    }
}

/// Every operator X^x·Z^z is the product of the generators that its bits select.
proof fn lemma_generator_product(x: Seq<bool>, z: Seq<bool>, n: nat, k: nat)
    requires
        x.len() == n,
        z.len() == n,
        k <= 2 * n,
    ensures
        op_product(tableau::identity_rows(n), x + z, n, k) == (PauliOp {
            k: 0,
            x: Seq::new(n, |j: int| j < k && x[j]),
            z: Seq::new(n, |j: int| n + j < k && z[j]),
        }),
    decreases k,
{
    let rows = tableau::identity_rows(n);
    let pick = x + z;
    let want = PauliOp {
        k: 0,
        x: Seq::new(n, |j: int| j < k && x[j]),
        z: Seq::new(n, |j: int| n + j < k && z[j]),
    };
    if k == 0 {
        assert(op_identity(n).x =~= want.x);
        assert(op_identity(n).z =~= want.z);
    } else {
        lemma_generator_product(x, z, n, (k - 1) as nat);
        let p = op_product(rows, pick, n, (k - 1) as nat);
        let g = rows[k - 1];
        let got = op_product(rows, pick, n, k);
        if pick[k - 1] {
            pauli::lemma_common_below_zero(g.x, g.z, n);
            pauli::lemma_common_below_zero(p.z, g.x, n);
        }
        assert(got.x =~= want.x);
        assert(got.z =~= want.z);
    }
}

/// Conjugating a product of generators by a circuit gives the product of the circuit's rows.
proof fn lemma_conjugated_product(
    ops: Seq<CliffordOp>,
    pick: Seq<bool>,
    n: nat,
    k: nat,
)
    requires
        valid_circuit(n, ops),
        k <= 2 * n,
    ensures
        op_product(tableau::identity_rows(n), pick, n, k).on(n),
        conj_run(op_product(tableau::identity_rows(n), pick, n, k), ops) == op_product(
            circuit_rows(n, ops),
            pick,
            n,
            k,
        ),
    decreases k,
{
    let gens = tableau::identity_rows(n);
    if k == 0 {
        lemma_identity_fixed(ops, n);
    } else {
        lemma_conjugated_product(ops, pick, n, (k - 1) as nat);
        if pick[k - 1] {
            let g = gens[k - 1];
            assert(g.on(n));
            law_rows_are_conjugates(g, ops, n);
            law_circuit_respects_products(
                op_product(gens, pick, n, (k - 1) as nat),
                op_of(g),
                ops,
                n,
            );
        }
    }
}

/// Conjugation leaves the identity alone.
proof fn lemma_identity_fixed(ops: Seq<CliffordOp>, n: nat)
    requires
        valid_circuit(n, ops),
    ensures
        conj_run(op_identity(n), ops) == op_identity(n),
    decreases ops.len(),
{
    if ops.len() > 0 {
        let init = ops.drop_last();
        assert(forall|i: int| 0 <= i < init.len() ==> #[trigger] init[i] == ops[i]);
        lemma_identity_fixed(init, n);
        let e = op_identity(n);
        let f = conj_step(e, ops.last());
        assert(ops.last().valid(n));
        assert(f.x =~= e.x);
        assert(f.z =~= e.z);
    }
}

/// What conjugating a Pauli through a tableau computes: with R the circuit of the tableau,
/// R·X^x·Z^z·R† is the returned signed string, times one factor i for every letter Y in the
/// rows that were multiplied.
pub proof fn law_image_is_conjugation(ops: Seq<CliffordOp>, n: nat, x: Seq<bool>, z: Seq<bool>)
    requires
        valid_circuit(n, ops),
        x.len() == n,
        z.len() == n,
    ensures
        conj_run(PauliOp { k: 0, x, z }, ops) == times_i(
            tableau::y_letters(circuit_rows(n, ops), x + z, 2 * n) as int,
            signed_op(tableau::image(circuit_rows(n, ops), n, x, z)),
        ),
{
    let rows = circuit_rows(n, ops);
    assert forall|i: int| 0 <= i < rows.len() implies (#[trigger] rows[i]).on(n) by {
        let g = tableau::identity_rows(n)[i];
        assert(g.on(n));
        law_rows_are_conjugates(g, ops, n);
    }
    lemma_generator_product(x, z, n, 2 * n);
    lemma_conjugated_product(ops, x + z, n, 2 * n);
    law_picked_product(rows, x + z, n, 2 * n);
    assert(Seq::new(n, |j: int| j < 2 * n && x[j]) =~= x);
    assert(Seq::new(n, |j: int| n + j < 2 * n && z[j]) =~= z);
}

/// Conjugating a Pauli through a tableau gives exactly R·X^x·Z^z·R† if and only if the
/// number of letters Y in the multiplied rows is a multiple of four, none included.
pub proof fn law_image_exactness(ops: Seq<CliffordOp>, n: nat, x: Seq<bool>, z: Seq<bool>)
    requires
        valid_circuit(n, ops),
        x.len() == n,
        z.len() == n,
    ensures
        conj_run(PauliOp { k: 0, x, z }, ops) == signed_op(
            tableau::image(circuit_rows(n, ops), n, x, z),
        ) <==> tableau::y_letters(circuit_rows(n, ops), x + z, 2 * n) % 4 == 0,
{
    law_image_is_conjugation(ops, n, x, z);
    let s = signed_op(tableau::image(circuit_rows(n, ops), n, x, z));
    let y = tableau::y_letters(circuit_rows(n, ops), x + z, 2 * n) as int;
    lemma_shift_by_four(s.k, y);
}

proof fn lemma_shift_by_four(k: int, y: int)
    requires
        0 <= k < 4,
    ensures
        (k + y) % 4 == k <==> y % 4 == 0,
{
}

/// Powers of i pass through conjugation.
pub proof fn law_scalars_pass_through(j: int, a: PauliOp, ops: Seq<CliffordOp>, n: nat)
    requires
        a.on(n),
        valid_circuit(n, ops),
    ensures
        conj_run(times_i(j, a), ops) == times_i(j, conj_run(a, ops)),
    decreases ops.len(),
{
    if ops.len() > 0 {
        let init = ops.drop_last();
        assert(forall|i: int| 0 <= i < init.len() ==> #[trigger] init[i] == ops[i]);
        law_scalars_pass_through(j, a, init, n);
        law_circuit_respects_products(a, a, init, n);
        let b = conj_run(a, init);
        let op = ops.last();
        assert(conj_step(times_i(j, b), op) == times_i(j, conj_step(b, op))) by {
            lemma_scalar_exponent(b.k, j, 2 * bit(b.x[qubit(op)] && b.z[qubit(op)]));
            lemma_scalar_exponent(b.k, j, bit(b.x[qubit(op)]));
            lemma_scalar_exponent(b.k, j, 2 * bit(b.x[qubit(op)]));
            lemma_scalar_exponent(b.k, j, 2 * bit(b.z[qubit(op)]));
            lemma_scalar_exponent(b.k, j, 2 * bit(b.x[qubit(op)] != b.z[qubit(op)]));
        }
    }
}

/// The qubit of a single-qubit operation.
pub open spec fn qubit(op: CliffordOp) -> int {
    match op {
        CliffordOp::H(q) => q as int,
        CliffordOp::S(q) => q as int,
        CliffordOp::X(q) => q as int,
        CliffordOp::Y(q) => q as int,
        CliffordOp::Z(q) => q as int,
        CliffordOp::CNOT(c, _) => c as int,
        CliffordOp::T(q) => q as int,
        CliffordOp::Tdg(q) => q as int,
    }
}

proof fn lemma_scalar_exponent(k: int, j: int, e: int)
    ensures
        ((k + j) % 4 + e) % 4 == ((k + e) % 4 + j) % 4,
{
    lemma_mod4_add(k + j, k + j, e);
    lemma_mod4_add(k + e, k + e, j);
}

proof fn lemma_image_exponent(r: bool, s: bool, c: int, y: int)
    ensures
        ((2 * bit(s) + y) % 4 + (2 * bit(r) + c)) % 4 == (2 * bit(s != r) + c + y) % 4,
{
    lemma_flat(2 * bit(s) + y, 0, 2 * bit(r) + c);
    lemma_mod4_close(2 * bit(s) + y + (2 * bit(r) + c), 2 * bit(s != r) + c + y);
}

/// The sign of a row is determined by the exponent of i of its operator.
proof fn lemma_sign_from_exponent(want: bool, sr: bool, d: int, e: int)
    requires
        (2 * bit(want) + d) % 4 == (2 * bit(sr) + (e + d)) % 4,
    ensures
        want == (sr != (e % 4 == 2)),
{
    if e % 4 == 0 {
        lemma_mod4_add(2 * bit(sr) + d + e, 2 * bit(sr) + d, 0);
    }
}

/// The image of a signed row under a tableau is the row carried through the tableau's
/// circuit, sign included.
pub proof fn law_row_image(p: PauliRow, ops: Seq<CliffordOp>, n: nat)
    requires
        p.on(n),
        valid_circuit(n, ops),
    ensures
        tableau::row_image(circuit_rows(n, ops), n, p) == row_run(p, ops),
{
    let rows = circuit_rows(n, ops);
    let bare = PauliOp { k: 0, x: p.x, z: p.z };
    let j = 2 * bit(p.r) + pauli::common(p.x, p.z);
    law_rows_are_conjugates(p, ops, n);
    law_scalars_pass_through(j, bare, ops, n);
    law_image_is_conjugation(ops, n, p.x, p.z);
    let q = tableau::image(rows, n, p.x, p.z);
    let want = row_run(p, ops);
    let c = pauli::common(p.x, p.z) as int;
    let y = tableau::y_letters(rows, p.x + p.z, 2 * n) as int;
    let d = pauli::common(q.x, q.z) as int;
    lemma_image_exponent(p.r, q.r, c, y);
    lemma_sign_from_exponent(want.r, q.r != p.r, d, c + y - d);
}

/// Composition of tableaux: with R1 the circuit of one tableau and R2 that of another,
/// transforming every row of the first through the second gives the tableau of R2·R1.
pub proof fn law_composition(first: Seq<CliffordOp>, second: Seq<CliffordOp>, n: nat)
    requires
        valid_circuit(n, first),
        valid_circuit(n, second),
    ensures
        circuit_rows(n, first).map_values(
            |p: PauliRow| tableau::row_image(circuit_rows(n, second), n, p),
        ) == circuit_rows(n, first + second),
{
    let got = circuit_rows(n, first).map_values(
        |p: PauliRow| tableau::row_image(circuit_rows(n, second), n, p),
    );
    assert forall|k: int| 0 <= k < 2 * n implies #[trigger] got[k] == circuit_rows(
        n,
        first + second,
    )[k] by {
        let g = tableau::identity_rows(n)[k];
        assert(g.on(n));
        law_rows_are_conjugates(g, first, n);
        law_row_image(circuit_rows(n, first)[k], second, n);
        lemma_row_run_concat(g, first, second);
    }
    assert(got =~= circuit_rows(n, first + second));
}

/// A row carried through one circuit and then another is carried through the two in a row.
pub proof fn lemma_row_run_concat(p: PauliRow, first: Seq<CliffordOp>, second: Seq<CliffordOp>)
    ensures
        row_run(p, first + second) == row_run(row_run(p, first), second),
    decreases second.len(),
{
    if second.len() == 0 {
        assert(first + second =~= first);
    } else {
        assert((first + second).drop_last() =~= first + second.drop_last());
        lemma_row_run_concat(p, first, second.drop_last());
    }
}

/// The sum of common bits with a single bit.
proof fn lemma_common_with_unit(s: Seq<bool>, i: int, n: nat, k: nat)
    requires
        s.len() == n,
        0 <= i < n,
        k <= n,
    ensures
        pauli::common_below(Seq::new(n, |j: int| j == i), s, k) == (if i < k && s[i] {
            1nat
        } else {
            0nat
        }),
    decreases k,
{
    if k > 0 {
        lemma_common_with_unit(s, i, n, (k - 1) as nat);
    }
}

/// What the letters do to basis states: X flips its qubit, and Z gives a minus sign where its
/// qubit is 1.
pub proof fn law_letters_on_basis_states(s: Seq<bool>, i: int, n: nat)
    requires
        s.len() == n,
        0 <= i < n,
    ensures
        act(op_of(pauli::x_generator(n, i)), s) == (0int, s.update(i, !s[i])),
        act(op_of(pauli::z_generator(n, i)), s) == (2 * bit(s[i]), s),
{
    let x = pauli::x_generator(n, i);
    let z = pauli::z_generator(n, i);
    pauli::lemma_common_below_zero(x.x, x.z, n);
    pauli::lemma_common_below_zero(z.x, z.z, n);
    pauli::lemma_common_below_zero(x.z, s, n);
    lemma_common_with_unit(s, i, n, n);
    assert(z.z =~= Seq::new(n, |j: int| j == i));
    assert(op_of(z).k == 0);
    assert(act(op_of(x), s).1 =~= s.update(i, !s[i]));
    assert(act(op_of(z), s).1 =~= s);
}

/// Conjugations by Pauli letters come from those by Hadamards and phase gates.
pub proof fn law_pauli_conjugations(a: PauliOp, i: int, n: nat)
    requires
        a.on(n),
        0 <= i < n,
    ensures
        conj_z(a, i) == conj_s(conj_s(a, i), i),
        conj_x(a, i) == conj_h(conj_z(conj_h(a, i), i), i),
        conj_y(a, i) == conj_x(conj_z(a, i), i),
{
    let zz = conj_s(conj_s(a, i), i);
    assert(zz.z =~= a.z);
    let xx = conj_h(conj_z(conj_h(a, i), i), i);
    assert(xx.x =~= a.x);
    assert(xx.z =~= a.z);
}

/// The same holds of rows.
pub proof fn law_pauli_rows(p: PauliRow, i: int, n: nat)
    requires
        p.on(n),
        0 <= i < n,
    ensures
        pauli::row_z(p, i) == pauli::row_s(pauli::row_s(p, i), i),
        pauli::row_x(p, i) == pauli::row_h(pauli::row_z(pauli::row_h(p, i), i), i),
        pauli::row_y(p, i) == pauli::row_x(pauli::row_z(p, i), i),
{
    pauli::lemma_z_from_s(p, i, n);
    pauli::lemma_x_from_h_and_s(p, i, n);
    pauli::lemma_z_from_s(pauli::row_h(p, i), i, n);
}

} // verus!
