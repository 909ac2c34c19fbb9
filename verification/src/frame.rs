//! The Clifford frame: classification of gates, and the record of Clifford operations that
//! the tableau has absorbed.

use vstd::prelude::*;

use crate::angle;
use crate::angle::PhaseAngle;
use crate::double;
use crate::gates;
use crate::gates::CliffordOp;
use crate::gates::Gate;
use crate::gates::KernelCall;
use crate::group;
use crate::pauli;
use crate::pauli::PauliRow;
use crate::tableau;
use crate::tableau::CliffordTableau;

verus! {

/// How a gate is handled by the hybrid simulators.
#[derive(Clone, Copy, Debug, PartialEq, Eq, Structural)]
pub enum GateType {
    /// Handled by a tableau update; the statevector stays untouched.
    Clifford,
    /// A T gate or its inverse, which forces a reset.
    TGate,
    /// Must be applied to the statevector.
    Arbitrary,
}

/// The type of a gate. A phase gate is told by its angle.
pub open spec fn gate_type(gate: Gate) -> GateType {
    match gate {
        Gate::H | Gate::X | Gate::Y | Gate::Z | Gate::SWAP(_, _) => GateType::Clifford,
        Gate::P(a) => match angle::phase_angle_spec(a) {
            PhaseAngle::QuarterPi | PhaseAngle::MinusQuarterPi => GateType::TGate,
            PhaseAngle::HalfPi
            | PhaseAngle::MinusHalfPi
            | PhaseAngle::Pi
            | PhaseAngle::Zero => GateType::Clifford,
            PhaseAngle::Other => GateType::Arbitrary,
        },
        _ => GateType::Arbitrary,
    }
}

/// Classify a gate.
pub fn classify_gate(gate: &Gate) -> (t: GateType)
    ensures
        t == gate_type(*gate),
{
    match *gate {
        Gate::H | Gate::X | Gate::Y | Gate::Z | Gate::SWAP(_, _) => GateType::Clifford,
        Gate::P(a) => match angle::phase_angle(a) {
            PhaseAngle::QuarterPi | PhaseAngle::MinusQuarterPi => GateType::TGate,
            PhaseAngle::HalfPi
            | PhaseAngle::MinusHalfPi
            | PhaseAngle::Pi
            | PhaseAngle::Zero => GateType::Clifford,
            PhaseAngle::Other => GateType::Arbitrary,
        },
        _ => GateType::Arbitrary,
    }
}

/// The qubits that a gate acts on exist. A swap names its own qubits.
pub open spec fn gate_in_range(gate: Gate, target: usize, n: nat) -> bool {
    match gate {
        Gate::SWAP(a, b) => a < n && b < n,
        _ => target < n,
    }
}

/// The Clifford operations that a Clifford gate is recorded as. The phase of angle 0 is the
/// identity, and that of angle π is Z.
pub open spec fn recorded(gate: Gate, target: usize) -> Seq<CliffordOp> {
    match gate {
        Gate::H => seq![CliffordOp::H(target)],
        Gate::X => seq![CliffordOp::X(target)],
        Gate::Y => seq![CliffordOp::Y(target)],
        Gate::Z => seq![CliffordOp::Z(target)],
        Gate::P(a) => match angle::phase_angle_spec(a) {
            PhaseAngle::HalfPi => seq![CliffordOp::S(target)],
            PhaseAngle::MinusHalfPi => seq![
                CliffordOp::S(target),
                CliffordOp::S(target),
                CliffordOp::S(target),
            ],
            PhaseAngle::Pi => seq![CliffordOp::Z(target)],
            _ => seq![],
        },
        Gate::SWAP(a, b) => seq![
            CliffordOp::CNOT(a, b),
            CliffordOp::CNOT(b, a),
            CliffordOp::CNOT(a, b),
        ],
        _ => seq![],
    }
}

/// The operation that a T gate, or the inverse of one, waits as.
pub open spec fn waiting_op(gate: Gate, target: usize) -> CliffordOp {
    match gate {
        Gate::P(a) => if angle::phase_angle_spec(a) == PhaseAngle::MinusQuarterPi {
            CliffordOp::Tdg(target)
        } else {
            CliffordOp::T(target)
        },
        _ => CliffordOp::T(target),
    }
}

/// What a gate adds to the record when it is absorbed.
pub open spec fn absorbed(gate: Gate, target: usize) -> Seq<CliffordOp> {
    if gate_type(gate) == GateType::TGate {
        seq![waiting_op(gate, target)]
    } else {
        recorded(gate, target)
    }
}

/// Every recorded operation acts on existing qubits.
pub open spec fn ops_in_range(ops: Seq<CliffordOp>, n: nat) -> bool {
    forall|i: int| 0 <= i < ops.len() ==> (#[trigger] ops[i]).in_range(n)
}

/// The tableau is that of the recorded operations.
pub open spec fn frame_wf(t: CliffordTableau, ops: Seq<CliffordOp>, n: nat) -> bool {
    &&& t.wf()
    &&& t.qubits() == n
    &&& t@ == group::circuit_rows(n, ops)
    &&& ops_in_range(ops, n)
}

/// One more operation on the record is one more step on every row.
proof fn lemma_push_row(rows: Seq<PauliRow>, n: nat, ops: Seq<CliffordOp>, op: CliffordOp)
    requires
        rows == group::circuit_rows(n, ops),
    ensures
        rows.map_values(|p: PauliRow| group::row_step(p, op)) == group::circuit_rows(
            n,
            ops.push(op),
        ),
{
    let got = rows.map_values(|p: PauliRow| group::row_step(p, op));
    assert forall|k: int| 0 <= k < 2 * n implies #[trigger] got[k] == group::circuit_rows(
        n,
        ops.push(op),
    )[k] by {
        assert(ops.push(op).drop_last() =~= ops);
    }
    assert(got =~= group::circuit_rows(n, ops.push(op)));
}

/// Apply one Clifford operation to the tableau and record it. A waiting gate is recorded only.
pub fn record_op(t: &mut CliffordTableau, ops: &mut Vec<CliffordOp>, op: CliffordOp)
    requires
        frame_wf(*old(t), old(ops)@, old(t).qubits()),
        op.in_range(old(t).qubits()),
    ensures
        final(t).qubits() == old(t).qubits(),
        frame_wf(*final(t), final(ops)@, old(t).qubits()),
        final(ops)@ == old(ops)@.push(op),
{
    match op {
        CliffordOp::H(q) => t.h(q),
        CliffordOp::S(q) => t.s(q),
        CliffordOp::X(q) => t.x(q),
        CliffordOp::Y(q) => t.y(q),
        CliffordOp::Z(q) => t.z(q),
        CliffordOp::CNOT(c, q) => t.cnot(c, q),
        CliffordOp::T(_) | CliffordOp::Tdg(_) => {},
    }
    ops.push(op);
    proof {
        let before = old(t)@;
        lemma_push_row(before, old(t).qubits(), old(ops)@, op);
        assert(t@ =~= before.map_values(|p: PauliRow| group::row_step(p, op)));
    }
}

/// Apply a Clifford gate to the tableau only, and record what was applied.
pub fn apply_clifford_to_tableau(
    t: &mut CliffordTableau,
    ops: &mut Vec<CliffordOp>,
    gate: &Gate,
    target: usize,
)
    requires
        frame_wf(*old(t), old(ops)@, old(t).qubits()),
        gate_in_range(*gate, target, old(t).qubits()),
    ensures
        final(t).qubits() == old(t).qubits(),
        frame_wf(*final(t), final(ops)@, old(t).qubits()),
        final(ops)@ == old(ops)@ + recorded(*gate, target),
{
    match *gate {
        Gate::H => record_op(t, ops, CliffordOp::H(target)),
        Gate::X => record_op(t, ops, CliffordOp::X(target)),
        Gate::Y => record_op(t, ops, CliffordOp::Y(target)),
        Gate::Z => record_op(t, ops, CliffordOp::Z(target)),
        Gate::P(a) => {
            match angle::phase_angle(a) {
                PhaseAngle::HalfPi => record_op(t, ops, CliffordOp::S(target)),
                PhaseAngle::MinusHalfPi => {
                    record_op(t, ops, CliffordOp::S(target));
                    record_op(t, ops, CliffordOp::S(target));
                    record_op(t, ops, CliffordOp::S(target));
                },
                PhaseAngle::Pi => record_op(t, ops, CliffordOp::Z(target)),
                _ => {},
            }
        },
        Gate::SWAP(a, b) => {
            record_op(t, ops, CliffordOp::CNOT(a, b));
            record_op(t, ops, CliffordOp::CNOT(b, a));
            record_op(t, ops, CliffordOp::CNOT(a, b));
        },
        _ => {},
    }
    assert(ops@ =~= old(ops)@ + recorded(*gate, target));
}

/// A swap of two qubits exchanges their letters in every row.
pub proof fn law_swap_exchanges(p: PauliRow, a: usize, b: usize, target: usize, n: nat)
    requires
        p.on(n),
        a < n,
        b < n,
        a != b,
    ensures
        group::row_run(p, recorded(Gate::SWAP(a, b), target)) == (PauliRow {
            x: p.x.update(a as int, p.x[b as int]).update(b as int, p.x[a as int]),
            z: p.z.update(a as int, p.z[b as int]).update(b as int, p.z[a as int]),
            r: p.r,
        }),
{
    reveal_with_fuel(group::row_run, 4);
    let ops = recorded(Gate::SWAP(a, b), target);
    assert(ops.drop_last().drop_last().drop_last() =~= Seq::empty());
    crate::laws::law_swap_from_cnots(p, a as int, b as int, n);
}

/// A phase gate of angle -π/2 undoes one of angle π/2.
pub proof fn law_opposite_phases_cancel(p: PauliRow, plus: u64, minus: u64, target: usize, n: nat)
    requires
        p.on(n),
        target < n,
        angle::phase_angle_spec(plus) == PhaseAngle::HalfPi,
        angle::phase_angle_spec(minus) == PhaseAngle::MinusHalfPi,
    ensures
        group::row_run(
            group::row_run(p, recorded(Gate::P(plus), target)),
            recorded(Gate::P(minus), target),
        ) == p,
{
    reveal_with_fuel(group::row_run, 4);
    let one = recorded(Gate::P(plus), target);
    let three = recorded(Gate::P(minus), target);
    assert(one.drop_last() =~= Seq::empty());
    assert(three.drop_last().drop_last().drop_last() =~= Seq::empty());
    let q = pauli::row_s(p, target as int);
    assert(group::row_run(p, one) == q);
    crate::laws::law_s_has_order_four(p, target as int, n);
}

/// Record a T gate, or the inverse of one, to wait for the next reset.
pub fn queue_t_gate(
    t: &mut CliffordTableau,
    ops: &mut Vec<CliffordOp>,
    gate: &Gate,
    target: usize,
)
    requires
        frame_wf(*old(t), old(ops)@, old(t).qubits()),
        target < old(t).qubits(),
    ensures
        final(t).qubits() == old(t).qubits(),
        frame_wf(*final(t), final(ops)@, old(t).qubits()),
        final(ops)@ == old(ops)@.push(waiting_op(*gate, target)),
{
    let inverse: bool = match *gate {
        Gate::P(a) => match angle::phase_angle(a) {
            PhaseAngle::MinusQuarterPi => true,
            _ => false,
        },
        _ => false,
    };
    if inverse {
        record_op(t, ops, CliffordOp::Tdg(target));
    } else {
        record_op(t, ops, CliffordOp::T(target));
    }
}

/// A waiting gate is replayed as the phase gate it was: with π/4 or -π/4, whichever its angle
/// is within the tolerance of, and on the same target.
pub proof fn law_waiting_gate_keeps_its_angle(a: u64, target: usize)
    requires
        gate_type(Gate::P(a)) == GateType::TGate,
    ensures
        ({
            let c = if angle::near(a, double::value(angle::PI_OVER_4)) {
                angle::PI_OVER_4
            } else {
                angle::MINUS_PI_OVER_4
            };
            &&& waiting_op(Gate::P(a), target).kernel_call() == KernelCall::Apply(
                Gate::P(c),
                target,
            )
            &&& angle::near(a, double::value(c))
            &&& double::negative(a) == double::negative(c)
        }),
{
    angle::lemma_near_pi_over_4(a);
}

/// What a phase gate does to a statevector, where its angle lies within the tolerance of one
/// of the constants: nothing at 0, Z at π, three gates of angle π/2 at -π/2, and a gate of the
/// constant itself at the others.
pub open spec fn phase_effect<S>(
    s: S,
    a: u64,
    target: usize,
    act: spec_fn(S, KernelCall) -> S,
) -> S {
    let half = KernelCall::Apply(Gate::P(angle::PI_OVER_2), target);
    let t = double::value(angle::ANGLE_TOLERANCE);
    let v = double::value(a);
    if double::is_nan(a) {
        act(s, KernelCall::Apply(Gate::P(a), target))
    } else if -t < v < t {
        s
    } else if -t < v - double::value(angle::PI) < t {
        act(s, KernelCall::Apply(Gate::Z, target))
    } else if -t < v - double::value(angle::PI_OVER_2) < t {
        act(s, half)
    } else if -t < v + double::value(angle::PI_OVER_2) < t {
        act(act(act(s, half), half), half)
    } else if -t < v - double::value(angle::PI_OVER_4) < t {
        act(s, KernelCall::Apply(Gate::P(angle::PI_OVER_4), target))
    } else if -t < v + double::value(angle::PI_OVER_4) < t {
        act(s, KernelCall::Apply(Gate::P(angle::MINUS_PI_OVER_4), target))
    } else {
        act(s, KernelCall::Apply(Gate::P(a), target))
    }
}

/// What is asked of the statevector kernels: that phase gates act as the constants that they
/// are within the tolerance of, and that a swap is three controlled X.
pub open spec fn faithful<S>(act: spec_fn(S, KernelCall) -> S) -> bool {
    &&& forall|s: S, a: u64, t: usize| #[trigger]
        act(s, KernelCall::Apply(Gate::P(a), t)) == phase_effect(s, a, t, act)
    &&& forall|s: S, a: usize, b: usize, t: usize| #[trigger]
        act(s, KernelCall::Apply(Gate::SWAP(a, b), t)) == act(
            act(
                act(s, KernelCall::Controlled(Gate::X, a, b)),
                KernelCall::Controlled(Gate::X, b, a),
            ),
            KernelCall::Controlled(Gate::X, a, b),
        )
}

/// What is recorded for an absorbed gate does to a statevector what that gate does.
pub proof fn law_record_acts_as_its_gate<S>(
    s: S,
    gate: Gate,
    target: usize,
    act: spec_fn(S, KernelCall) -> S,
)
    requires
        faithful(act),
        gate_type(gate) != GateType::Arbitrary,
    ensures
        gates::performed(s, gates::kernel_calls(absorbed(gate, target)), act) == act(
            s,
            KernelCall::Apply(gate, target),
        ),
{
    let ops = absorbed(gate, target);
    let calls = gates::kernel_calls(ops);
    reveal_with_fuel(gates::performed, 4);
    angle::law_constants();
    if let Gate::P(a) = gate {
        angle::law_phase_angle_is_closeness(a);
        assert(act(s, KernelCall::Apply(Gate::P(a), target)) == phase_effect(s, a, target, act));
    }
    if ops.len() == 1 {
        assert(calls.drop_last() =~= Seq::empty());
    } else if ops.len() == 3 {
        assert(calls.drop_last().drop_last().drop_last() =~= Seq::empty());
    }
}

/// A record grown by an absorbed gate acts as the record before, and then that gate.
pub proof fn law_absorbed_gate_extends_record<S>(
    s: S,
    ops: Seq<CliffordOp>,
    gate: Gate,
    target: usize,
    act: spec_fn(S, KernelCall) -> S,
)
    requires
        faithful(act),
        gate_type(gate) != GateType::Arbitrary,
    ensures
        gates::performed(s, gates::kernel_calls(ops + absorbed(gate, target)), act) == act(
            gates::performed(s, gates::kernel_calls(ops), act),
            KernelCall::Apply(gate, target),
        ),
{
    let before = gates::kernel_calls(ops);
    let more = gates::kernel_calls(absorbed(gate, target));
    assert(gates::kernel_calls(ops + absorbed(gate, target)) =~= before + more);
    gates::lemma_performed_concat(s, before, more, act);
    law_record_acts_as_its_gate(gates::performed(s, before, act), gate, target, act);
}

/// A record grown by a controlled X acts as the record before, and then that controlled X.
pub proof fn law_controlled_x_extends_record<S>(
    s: S,
    ops: Seq<CliffordOp>,
    control: usize,
    target: usize,
    act: spec_fn(S, KernelCall) -> S,
)
    ensures
        gates::performed(
            s,
            gates::kernel_calls(ops.push(CliffordOp::CNOT(control, target))),
            act,
        ) == act(
            gates::performed(s, gates::kernel_calls(ops), act),
            KernelCall::Controlled(Gate::X, control, target),
        ),
{
    let calls = gates::kernel_calls(ops.push(CliffordOp::CNOT(control, target)));
    assert(calls.drop_last() =~= gates::kernel_calls(ops));
    assert(calls.last() == KernelCall::Controlled(Gate::X, control, target));
}

/// The call is a Clifford gate on one qubit, a swap, or a controlled X.
pub open spec fn is_clifford_call(call: KernelCall) -> bool {
    match call {
        KernelCall::Apply(gate, _) => gate_type(gate) == GateType::Clifford,
        KernelCall::Controlled(gate, _, _) => gate == Gate::X,
    }
}

/// The call is a T gate or the inverse of one.
pub open spec fn is_t_call(call: KernelCall) -> bool {
    match call {
        KernelCall::Apply(gate, _) => gate_type(gate) == GateType::TGate,
        KernelCall::Controlled(_, _, _) => false,
    }
}

/// The number of T gates in a circuit.
pub open spec fn t_calls_in(circuit: Seq<KernelCall>) -> nat
    decreases circuit.len(),
{
    if circuit.len() == 0 {
        0
    } else {
        t_calls_in(circuit.drop_last()) + if is_t_call(circuit.last()) {
            1nat
        } else {
            0nat
        }
    }
}

/// The number of T gates that wait in a record.
pub open spec fn t_gates_waiting(ops: Seq<CliffordOp>) -> nat
    decreases ops.len(),
{
    if ops.len() == 0 {
        0
    } else {
        t_gates_waiting(ops.drop_last()) + if ops.last().waits() {
            1nat
        } else {
            0nat
        }
    }
}

/// What a Clifford gate records does not wait.
pub proof fn lemma_recorded_does_not_wait(ops: Seq<CliffordOp>, gate: Gate, target: usize)
    ensures
        t_gates_waiting(ops + recorded(gate, target)) == t_gates_waiting(ops),
{
    let more = recorded(gate, target);
    let all = ops + more;
    if more.len() == 0 {
        assert(all =~= ops);
    } else if more.len() == 1 {
        assert(all.drop_last() =~= ops);
    } else {
        assert(all.drop_last().drop_last().drop_last() =~= ops);
        reveal_with_fuel(t_gates_waiting, 4);
    }
}

/// One more operation on a record waits or does not.
pub proof fn lemma_push_waiting(ops: Seq<CliffordOp>, op: CliffordOp)
    ensures
        t_gates_waiting(ops.push(op)) == t_gates_waiting(ops) + if op.waits() {
            1nat
        } else {
            0nat
        },
{
    assert(ops.push(op).drop_last() =~= ops);
}

/// Which gates are absorbed: H, X, Y, Z, swaps, and phase gates whose angle lies within the
/// tolerance of a multiple of π/2 from -π/2 to π are Clifford; phase gates whose angle lies
/// within the tolerance of ±π/4 are T gates; every other gate is neither.
pub proof fn law_gate_classes(gate: Gate)
    ensures
        ({
            let t = double::value(angle::ANGLE_TOLERANCE);
            let quarter = double::value(angle::PI_OVER_4);
            let at = |a: u64, c: int| !double::is_nan(a) && -t < double::value(a) - c < t;
            &&& gate_type(gate) == GateType::Clifford <==> match gate {
                Gate::H | Gate::X | Gate::Y | Gate::Z => true,
                Gate::SWAP(_, _) => true,
                Gate::P(a) => at(a, 0) || at(a, 2 * quarter) || at(a, -2 * quarter) || at(
                    a,
                    4 * quarter,
                ),
                _ => false,
            }
            &&& gate_type(gate) == GateType::TGate <==> match gate {
                Gate::P(a) => at(a, quarter) || at(a, -quarter),
                _ => false,
            }
        }),
{
    if let Gate::P(a) = gate {
        angle::law_phase_angle_is_closeness(a);
    }
}

/// The number of calls in a circuit that are neither Clifford nor T gates.
pub open spec fn dense_calls_in(circuit: Seq<KernelCall>) -> nat
    decreases circuit.len(),
{
    if circuit.len() == 0 {
        0
    } else {
        dense_calls_in(circuit.drop_last()) + if is_clifford_call(circuit.last()) || is_t_call(
            circuit.last(),
        ) {
            0nat
        } else {
            1nat
        }
    }
}

/// What an operation is replayed as: a Clifford call, unless it is a waiting gate, which is
/// replayed as a T gate.
pub proof fn law_replay_classes(op: CliffordOp)
    ensures
        is_clifford_call(op.kernel_call()) <==> !op.waits(),
        is_t_call(op.kernel_call()) <==> op.waits(),
{
    angle::law_constants();
    angle::law_phase_angle_is_closeness(angle::PI_OVER_2);
    angle::law_phase_angle_is_closeness(angle::PI_OVER_4);
    angle::law_phase_angle_is_closeness(angle::MINUS_PI_OVER_4);
    double::lemma_scaled_increases(0, angle::ANGLE_TOLERANCE as int);
}

} // verus!
