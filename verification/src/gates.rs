//! Gates, controls and the record of Clifford operations.

use vstd::prelude::*;

use crate::angle;

verus! {

/// A gate as the dispatch rules see it.
///
/// Angles are the IEEE 754 double-precision bit patterns of the angles in radians.
#[derive(Clone, Copy, Debug, PartialEq, Eq, Structural)]
pub enum Gate {
    H,
    X,
    Y,
    Z,
    /// Phase gate diag(1, e^(i·angle)).
    P(u64),
    RX(u64),
    RY(u64),
    RZ(u64),
    U(u64, u64, u64),
    SWAP(usize, usize),
    /// A gate given by a matrix, which no rule looks into.
    Unitary,
    /// Any operation besides these, such as a measurement.
    Other,
}

/// A call of a statevector kernel.
#[derive(Clone, Copy, Debug, PartialEq, Eq, Structural)]
pub enum KernelCall {
    /// Apply a gate to a target.
    Apply(Gate, usize),
    /// Apply a gate to a target, controlled by one qubit: gate, control, target.
    Controlled(Gate, usize, usize),
}

/// The control qubits of a gate.
#[derive(Clone, Debug)]
pub enum Controls {
    /// No control.
    Free,
    /// One control that must be 1.
    Single(usize),
    /// Several controls that must all be 1.
    Ones(Vec<usize>),
    /// Several controls, of which those in `zeros` must be 0.
    Mixed { controls: Vec<usize>, zeros: Vec<usize> },
}

/// One step of a circuit.
#[derive(Clone, Debug)]
pub struct Transformation {
    pub gate: Gate,
    pub target: usize,
    pub controls: Controls,
}

/// An operation recorded for replay on the statevector.
#[derive(Clone, Copy, Debug, PartialEq, Eq, Structural)]
pub enum CliffordOp {
    H(usize),
    S(usize),
    X(usize),
    Y(usize),
    Z(usize),
    CNOT(usize, usize),
    /// A T gate waiting for the next reset. It is not a Clifford operation.
    T(usize),
    /// The inverse of a T gate waiting for the next reset.
    Tdg(usize),
}

impl CliffordOp {
    /// The kernel call that performs the operation on a statevector.
    pub open spec fn kernel_call(self) -> KernelCall {
        match self {
            CliffordOp::H(t) => KernelCall::Apply(Gate::H, t),
            CliffordOp::S(t) => KernelCall::Apply(Gate::P(angle::PI_OVER_2), t),
            CliffordOp::X(t) => KernelCall::Apply(Gate::X, t),
            CliffordOp::Y(t) => KernelCall::Apply(Gate::Y, t),
            CliffordOp::Z(t) => KernelCall::Apply(Gate::Z, t),
            CliffordOp::CNOT(c, t) => KernelCall::Controlled(Gate::X, c, t),
            CliffordOp::T(t) => KernelCall::Apply(Gate::P(angle::PI_OVER_4), t),
            CliffordOp::Tdg(t) => KernelCall::Apply(Gate::P(angle::MINUS_PI_OVER_4), t),
        }
    }

    /// Tell which kernel call performs the operation on a statevector.
    pub fn apply_to(&self) -> (call: KernelCall)
        ensures
            call == self.kernel_call(),
    {
        match *self {
            CliffordOp::H(t) => KernelCall::Apply(Gate::H, t),
            CliffordOp::S(t) => KernelCall::Apply(Gate::P(angle::PI_OVER_2), t),
            CliffordOp::X(t) => KernelCall::Apply(Gate::X, t),
            CliffordOp::Y(t) => KernelCall::Apply(Gate::Y, t),
            CliffordOp::Z(t) => KernelCall::Apply(Gate::Z, t),
            CliffordOp::CNOT(c, t) => KernelCall::Controlled(Gate::X, c, t),
            CliffordOp::T(t) => KernelCall::Apply(Gate::P(angle::PI_OVER_4), t),
            CliffordOp::Tdg(t) => KernelCall::Apply(Gate::P(angle::MINUS_PI_OVER_4), t),
        }
    }

    /// The operation is a T gate, or the inverse of one, that waits for the next reset.
    pub open spec fn waits(self) -> bool {
        self is T || self is Tdg
    }

    /// The qubits of the operation exist.
    pub open spec fn in_range(self, n: nat) -> bool {
        match self {
            CliffordOp::H(q) => q < n,
            CliffordOp::S(q) => q < n,
            CliffordOp::X(q) => q < n,
            CliffordOp::Y(q) => q < n,
            CliffordOp::Z(q) => q < n,
            CliffordOp::CNOT(c, t) => c < n && t < n,
            CliffordOp::T(q) => q < n,
            CliffordOp::Tdg(q) => q < n,
        }
    }

    /// The operation is one that a circuit can hold: in range, and a CNOT joins two qubits.
    pub open spec fn valid(self, n: nat) -> bool {
        self.in_range(n) && match self {
            CliffordOp::CNOT(c, t) => c != t,
            _ => true,
        }
    }
}

/// The kernel calls that perform a sequence of operations.
pub open spec fn kernel_calls(ops: Seq<CliffordOp>) -> Seq<KernelCall> {
    ops.map_values(|op: CliffordOp| op.kernel_call())
}

/// List the kernel calls that perform a sequence of operations.
pub fn replay(ops: &Vec<CliffordOp>) -> (calls: Vec<KernelCall>)
    ensures
        calls@ == kernel_calls(ops@),
{
    let mut calls: Vec<KernelCall> = Vec::new();
    for i in 0..ops.len()
        invariant
            calls@ == kernel_calls(ops@).take(i as int),
    {
        calls.push(ops[i].apply_to());
        assert(calls@ =~= kernel_calls(ops@).take(i + 1));
    }
    assert(calls@ =~= kernel_calls(ops@));
    calls
}

/// What kernel calls make of a statevector, given what one call makes of it.
pub open spec fn performed<S>(
    s: S,
    calls: Seq<KernelCall>,
    act: spec_fn(S, KernelCall) -> S,
) -> S
    decreases calls.len(),
{
    if calls.len() == 0 {
        s
    } else {
        act(performed(s, calls.drop_last(), act), calls.last())
    }
}

/// Calls in a row are made one part after the other.
pub proof fn lemma_performed_concat<S>(
    s: S,
    first: Seq<KernelCall>,
    second: Seq<KernelCall>,
    act: spec_fn(S, KernelCall) -> S,
)
    ensures
        performed(s, first + second, act) == performed(performed(s, first, act), second, act),
    decreases second.len(),
{
    if second.len() == 0 {
        assert(first + second =~= first);
    } else {
        assert((first + second).drop_last() =~= first + second.drop_last());
        lemma_performed_concat(s, first, second.drop_last(), act);
    }
}

} // verus!
