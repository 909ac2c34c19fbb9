//! What holds of the tableau as a whole: inverses, neutral elements, commutation relations
//! and transport of observables.

use vstd::prelude::*;

use crate::gates::CliffordOp;
use crate::group;
use crate::group::PauliOp;
use crate::pauli;
use crate::pauli::PauliRow;
use crate::tableau;

verus! {

/// A Hadamard undoes itself.
pub proof fn law_h_is_self_inverse(p: PauliRow, i: int, n: nat)
    requires
        p.on(n),
        0 <= i < n,
    ensures
        pauli::row_h(pauli::row_h(p, i), i) == p,
{
    let q = pauli::row_h(pauli::row_h(p, i), i);
    assert(q.x =~= p.x);
    assert(q.z =~= p.z);
}

/// Four phase gates are the identity.
pub proof fn law_s_has_order_four(p: PauliRow, i: int, n: nat)
    requires
        p.on(n),
        0 <= i < n,
    ensures
        pauli::row_s(pauli::row_s(pauli::row_s(pauli::row_s(p, i), i), i), i) == p,
{
    pauli::lemma_z_from_s(p, i, n);
    pauli::lemma_z_from_s(pauli::row_z(p, i), i, n);
}

/// A CNOT between two qubits undoes itself.
pub proof fn law_cnot_is_self_inverse(p: PauliRow, i: int, j: int, n: nat)
    requires
        p.on(n),
        0 <= i < n,
        0 <= j < n,
        i != j,
    ensures
        pauli::row_cnot(pauli::row_cnot(p, i, j), i, j) == p,
{
    let q = pauli::row_cnot(pauli::row_cnot(p, i, j), i, j);
    assert(q.x =~= p.x);
    assert(q.z =~= p.z);
}

/// The Pauli gates undo themselves.
pub proof fn law_paulis_are_self_inverse(p: PauliRow, i: int, n: nat)
    requires
        p.on(n),
        0 <= i < n,
    ensures
        pauli::row_x(pauli::row_x(p, i), i) == p,
        pauli::row_y(pauli::row_y(p, i), i) == p,
        pauli::row_z(pauli::row_z(p, i), i) == p,
{
}

/// Three alternating CNOTs exchange the letters of two qubits and keep the sign.
pub proof fn law_swap_from_cnots(p: PauliRow, a: int, b: int, n: nat)
    requires
        p.on(n),
        0 <= a < n,
        0 <= b < n,
        a != b,
    ensures
        pauli::row_cnot(pauli::row_cnot(pauli::row_cnot(p, a, b), b, a), a, b) == (PauliRow {
            x: p.x.update(a, p.x[b]).update(b, p.x[a]),
            z: p.z.update(a, p.z[b]).update(b, p.z[a]),
            r: p.r,
        }),
{
    let q = pauli::row_cnot(pauli::row_cnot(pauli::row_cnot(p, a, b), b, a), a, b);
    assert(q.x =~= p.x.update(a, p.x[b]).update(b, p.x[a]));
    assert(q.z =~= p.z.update(a, p.z[b]).update(b, p.z[a]));
}

/// Composing with the identity tableau leaves every row as it is, sign included.
pub proof fn law_compose_with_identity(p: PauliRow, n: nat)
    requires
        p.on(n),
    ensures
        tableau::row_image(tableau::identity_rows(n), n, p) == p,
{
    group::lemma_empty_circuit(n);
    group::law_row_image(p, Seq::empty(), n);
}

/// Under the identity tableau every Pauli is its own image.
pub proof fn law_identity_image(n: nat, x: Seq<bool>, z: Seq<bool>)
    requires
        x.len() == n,
        z.len() == n,
    ensures
        tableau::image(tableau::identity_rows(n), n, x, z) == (PauliRow { x, z, r: false }),
{
    group::lemma_empty_circuit(n);
    group::law_image_is_conjugation(Seq::empty(), n, x, z);
    lemma_no_y_letters(n, x + z, 2 * n);
}

proof fn lemma_no_y_letters(n: nat, pick: Seq<bool>, k: nat)
    requires
        k <= 2 * n,
    ensures
        tableau::y_letters(tableau::identity_rows(n), pick, k) == 0,
    decreases k,
{
    if k > 0 {
        lemma_no_y_letters(n, pick, (k - 1) as nat);
        let g = tableau::identity_rows(n)[k - 1];
        pauli::lemma_common_below_zero(g.x, g.z, n);
    }
}

proof fn lemma_single_pick(rows: Seq<PauliRow>, pick: Seq<bool>, n: nat, i: int, k: nat)
    requires
        0 <= i < rows.len(),
        k <= rows.len(),
        pick.len() == rows.len(),
        forall|m: int| 0 <= m < rows.len() ==> (#[trigger] rows[m]).on(n),
        forall|m: int| 0 <= m < pick.len() ==> #[trigger] pick[m] == (m == i),
    ensures
        tableau::picked_product(rows, pick, n, k) == (if i < k {
            rows[i]
        } else {
            pauli::identity_row(n)
        }),
        tableau::y_letters(rows, pick, k) == (if i < k {
            pauli::common(rows[i].x, rows[i].z)
        } else {
            0
        }),
    decreases k,
{
    if k > 0 {
        lemma_single_pick(rows, pick, n, i, (k - 1) as nat);
        if k - 1 == i {
            pauli::lemma_identity_mul(rows[i], n);
        }
    }
}

/// The image of a generator is the row that stands for it, sign included. So composing the
/// identity tableau with another one gives that other one.
pub proof fn law_image_of_generator(rows: Seq<PauliRow>, n: nat, k: int)
    requires
        rows.len() == 2 * n,
        forall|m: int| 0 <= m < rows.len() ==> (#[trigger] rows[m]).on(n),
        0 <= k < 2 * n,
    ensures
        tableau::row_image(rows, n, tableau::identity_rows(n)[k]) == rows[k],
{
    let g = tableau::identity_rows(n)[k];
    lemma_single_pick(rows, g.x + g.z, n, k, 2 * n);
    pauli::lemma_common_below_zero(g.x, g.z, n);
}

/// Whether the operators of two rows commute: they do when an even number of qubits carries
/// different letters of which neither is I.
pub open spec fn commute(p: PauliRow, q: PauliRow) -> bool {
    (pauli::common(p.x, q.z) + pauli::common(p.z, q.x)) % 2 == 0
}

/// `commute` is commutation of the operators.
pub proof fn law_commute_is_commutation(p: PauliRow, q: PauliRow, n: nat)
    requires
        p.on(n),
        q.on(n),
    ensures
        commute(p, q) <==> group::op_mul(group::op_of(p), group::op_of(q)) == group::op_mul(
            group::op_of(q),
            group::op_of(p),
        ),
{
    let a = group::op_of(p);
    let b = group::op_of(q);
    let ab = group::op_mul(a, b);
    let ba = group::op_mul(b, a);
    assert(ab.x =~= ba.x);
    assert(ab.z =~= ba.z);
    group::lemma_common_comm(q.z, p.x, n);
    let u = pauli::common(p.z, q.x) as int;
    let v = pauli::common(q.z, p.x) as int;
    lemma_swap_exponent(a.k + b.k, u, v);
}

proof fn lemma_swap_exponent(s: int, u: int, v: int)
    ensures
        (s + 2 * u) % 4 == (s + 2 * v) % 4 <==> (v + u) % 2 == 0,
{
}

/// Every operation keeps commuting rows commuting and anticommuting rows anticommuting.
pub proof fn law_steps_keep_commutation(p: PauliRow, q: PauliRow, op: CliffordOp, n: nat)
    requires
        p.on(n),
        q.on(n),
        op.valid(n),
    ensures
        commute(group::row_step(p, op), group::row_step(q, op)) == commute(p, q),
{
    let a = group::op_of(p);
    let b = group::op_of(q);
    let p2 = group::row_step(p, op);
    let q2 = group::row_step(q, op);
    group::lemma_row_step_shape(p, op, n);
    group::lemma_row_step_shape(q, op, n);
    law_commute_is_commutation(p, q, n);
    law_commute_is_commutation(p2, q2, n);
    group::law_step_conjugates_rows(p, op, n);
    group::law_step_conjugates_rows(q, op, n);
    group::law_step_respects_products(a, b, op, n);
    group::law_step_respects_products(b, a, op, n);
    let ab = group::op_mul(a, b);
    let ba = group::op_mul(b, a);
    assert(ab.x =~= ba.x);
    assert(ab.z =~= ba.z);
    if group::conj_step(ab, op) == group::conj_step(ba, op) {
        lemma_step_injective(ab, ba, op, n);
    }
}

/// Conjugation by a valid operation does not merge operators.
proof fn lemma_step_injective(a: PauliOp, b: PauliOp, op: CliffordOp, n: nat)
    requires
        a.on(n),
        b.on(n),
        a.x == b.x,
        a.z == b.z,
        op.valid(n),
        group::conj_step(a, op) == group::conj_step(b, op),
    ensures
        a == b,
{
    let i = group::qubit(op);
    lemma_shift_injective(a.k, b.k, 2 * group::bit(a.x[i] && a.z[i]));
    lemma_shift_injective(a.k, b.k, group::bit(a.x[i]));
    lemma_shift_injective(a.k, b.k, 2 * group::bit(a.x[i]));
    lemma_shift_injective(a.k, b.k, 2 * group::bit(a.z[i]));
    lemma_shift_injective(a.k, b.k, 2 * group::bit(a.x[i] != a.z[i]));
}

proof fn lemma_shift_injective(k: int, l: int, e: int)
    requires
        0 <= k < 4,
        0 <= l < 4,
    ensures
        (k + e) % 4 == (l + e) % 4 ==> k == l,
{
}

/// Every circuit keeps commuting rows commuting and anticommuting rows anticommuting.
pub proof fn law_circuits_keep_commutation(
    p: PauliRow,
    q: PauliRow,
    ops: Seq<CliffordOp>,
    n: nat,
)
    requires
        p.on(n),
        q.on(n),
        group::valid_circuit(n, ops),
    ensures
        commute(group::row_run(p, ops), group::row_run(q, ops)) == commute(p, q),
    decreases ops.len(),
{
    if ops.len() > 0 {
        let init = ops.drop_last();
        assert(forall|i: int| 0 <= i < init.len() ==> #[trigger] init[i] == ops[i]);
        law_circuits_keep_commutation(p, q, init, n);
        group::law_rows_are_conjugates(p, init, n);
        group::law_rows_are_conjugates(q, init, n);
        law_steps_keep_commutation(
            group::row_run(p, init),
            group::row_run(q, init),
            ops.last(),
            n,
        );
    }
}

/// Two strings with one set bit each have it in common where it is the same bit.
proof fn lemma_common_units(a: Seq<bool>, b: Seq<bool>, i: int, j: int, k: nat)
    requires
        k <= a.len(),
        k <= b.len(),
        forall|m: int| 0 <= m < a.len() ==> #[trigger] a[m] == (m == i),
        forall|m: int| 0 <= m < b.len() ==> #[trigger] b[m] == (m == j),
    ensures
        pauli::common_below(a, b, k) == (if i == j && 0 <= i < k {
            1nat
        } else {
            0nat
        }),
    decreases k,
{
    if k > 0 {
        lemma_common_units(a, b, i, j, (k - 1) as nat);
    }
}

/// The rows of every circuit's tableau keep the relations of the generators: a destabilizer
/// anticommutes with the stabilizer of the same qubit, and all other pairs commute.
pub proof fn law_tableau_is_symplectic(ops: Seq<CliffordOp>, n: nat, a: int, b: int)
    requires
        group::valid_circuit(n, ops),
        0 <= a < 2 * n,
        0 <= b < 2 * n,
    ensures
        commute(group::circuit_rows(n, ops)[a], group::circuit_rows(n, ops)[b]) <==> a != b + n
            && b != a + n,
{
    let p = tableau::identity_rows(n)[a];
    let q = tableau::identity_rows(n)[b];
    assert(p.on(n) && q.on(n));
    law_circuits_keep_commutation(p, q, ops, n);
    let none = -1int;
    let (px, pz) = if a < n {
        (a, none)
    } else {
        (none, a - n)
    };
    let (qx, qz) = if b < n {
        (b, none)
    } else {
        (none, b - n)
    };
    lemma_common_units(p.x, q.z, px, qz, n);
    lemma_common_units(p.z, q.x, pz, qx, n);
}

} // verus!
