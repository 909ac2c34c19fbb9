//! Basis-adaptive compressed quantum simulation.
//!
//! The simulator keeps a compressed statevector beside a Clifford tableau. Clifford gates
//! update the tableau and are recorded for replay. T gates are queued up to a threshold, and
//! then, as any other gate at once, call for dense work: decompress, replay the record, apply
//! that gate, compress again. This module decides what is to be done and keeps the books; the
//! caller performs the dense work and hands back the compressed outcome.

use vstd::arithmetic::power2;
use vstd::prelude::*;

use crate::compression::CompressedState;
use crate::frame;
use crate::frame::GateType;
use crate::gates;
use crate::gates::CliffordOp;
use crate::gates::Gate;
use crate::gates::KernelCall;
use crate::group;
use crate::group::PauliOp;
use crate::measure;
use crate::memory;
use crate::pauli;
use crate::state;
use crate::tableau;
use crate::tableau::CliffordTableau;

pub use crate::frame::classify_gate;

verus! {

/// Dense work: decompress the compressed state, make the calls of `replay` in order, make
/// `call`, and compress the outcome.
#[derive(Debug)]
pub struct DenseJob {
    pub replay: Vec<KernelCall>,
    pub call: KernelCall,
}

impl View for DenseJob {
    type V = (Seq<KernelCall>, KernelCall);

    open spec fn view(&self) -> (Seq<KernelCall>, KernelCall) {
        (self.replay@, self.call)
    }
}

/// The work that a gate calls for, if any.
pub open spec fn work_view(work: Option<DenseJob>) -> Option<(Seq<KernelCall>, KernelCall)> {
    match work {
        Some(job) => Some(job@),
        None => None,
    }
}

/// How to measure a Pauli observable.
#[derive(Debug)]
pub enum PauliPlan {
    /// On the decompressed state without replay: the expectation of the diagonal Pauli
    /// Z^z_bits times i^phase.
    Diagonal { z_bits: Vec<u8>, phase: u8 },
    /// On the decompressed state after these calls: the expectation of the observable itself.
    Dense(Vec<KernelCall>),
}

/// The state of the simulator.
pub struct BACQSState {
    /// The compressed statevector, unchanged during Clifford circuits.
    pub compressed: CompressedState,
    /// The tableau of the recorded operations.
    pub tableau: CliffordTableau,
    /// The operations to replay on the statevector.
    pub clifford_ops: Vec<CliffordOp>,
    /// T gates since the last reset.
    pub t_gate_count: usize,
    /// Gates applied in all.
    pub total_gates: usize,
    /// How many T gates force a reset.
    pub t_gate_threshold: usize,
    /// The bit width of compression.
    pub bits: u8,
    /// The seed of the rotation.
    pub seed: u64,
    /// The number of qubits.
    pub n_qubits: usize,
    /// How often the full statevector was called for.
    pub decompression_count: usize,
    /// How many basis resets were called for.
    pub basis_reset_count: usize,
    /// Dense work was called for and its outcome is still out.
    pub waiting: bool,
}

/// The books of the simulator, as a mathematical value.
#[verifier::ext_equal]
pub struct Books {
    pub compressed: CompressedState,
    pub ops: Seq<CliffordOp>,
    pub t_gates: int,
    pub total: int,
    pub threshold: int,
    pub bits: u8,
    pub seed: u64,
    pub n: nat,
    pub decompressions: int,
    pub resets: int,
    pub waiting: bool,
}

impl Books {
    /// No counter is at the end of its range.
    pub open spec fn can_count(self) -> bool {
        &&& self.t_gates < usize::MAX
        &&& self.total < usize::MAX
        &&& self.decompressions < usize::MAX
        &&& self.resets < usize::MAX
    }
}

/// The books of a new simulator.
pub open spec fn fresh(compressed: CompressedState, bits: u8, seed: u64, threshold: int) -> Books {
    Books {
        compressed,
        ops: Seq::empty(),
        t_gates: 0,
        total: 0,
        threshold,
        bits,
        seed,
        n: compressed.n_qubits as nat,
        decompressions: 0,
        resets: 0,
        waiting: false,
    }
}

/// The books after the full statevector was called for.
pub open spec fn counted(b: Books) -> Books {
    Books { decompressions: b.decompressions + 1, ..b }
}

/// The books after dense work was called for.
pub open spec fn suspended(b: Books) -> Books {
    Books { waiting: true, ..counted(b) }
}

/// The books after a basis reset was called for.
pub open spec fn reset_begun(b: Books) -> Books {
    Books { resets: b.resets + 1, ..suspended(b) }
}

/// The books after a gate on one qubit.
pub open spec fn after_gate(b: Books, gate: Gate, target: usize) -> Books {
    let b1 = Books { total: b.total + 1, ..b };
    match frame::gate_type(gate) {
        GateType::Clifford => Books { ops: b.ops + frame::recorded(gate, target), ..b1 },
        GateType::TGate => {
            let b2 = Books { t_gates: b.t_gates + 1, ..b1 };
            if b.t_gates + 1 >= b.threshold {
                reset_begun(b2)
            } else {
                Books { ops: b.ops.push(frame::waiting_op(gate, target)), ..b2 }
            }
        },
        GateType::Arbitrary => suspended(b1),
    }
}

/// The dense work that a gate on one qubit calls for.
pub open spec fn gate_work(
    b: Books,
    gate: Gate,
    target: usize,
) -> Option<(Seq<KernelCall>, KernelCall)> {
    let job = (gates::kernel_calls(b.ops), KernelCall::Apply(gate, target));
    match frame::gate_type(gate) {
        GateType::Clifford => None,
        GateType::TGate => if b.t_gates + 1 >= b.threshold {
            Some(job)
        } else {
            None
        },
        GateType::Arbitrary => Some(job),
    }
}

/// The books after a controlled gate: only a controlled X goes to the tableau.
pub open spec fn after_controlled(b: Books, gate: Gate, control: usize, target: usize) -> Books {
    let b1 = Books { total: b.total + 1, ..b };
    if gate == Gate::X {
        Books { ops: b.ops.push(CliffordOp::CNOT(control, target)), ..b1 }
    } else {
        suspended(b1)
    }
}

/// The dense work that a controlled gate calls for.
pub open spec fn controlled_work(
    b: Books,
    gate: Gate,
    control: usize,
    target: usize,
) -> Option<(Seq<KernelCall>, KernelCall)> {
    if gate == Gate::X {
        None
    } else {
        Some((gates::kernel_calls(b.ops), KernelCall::Controlled(gate, control, target)))
    }
}

/// The books after the outcome of dense work has come back.
pub open spec fn after_install(b: Books, compressed: CompressedState) -> Books {
    Books { compressed, ops: Seq::empty(), t_gates: 0, waiting: false, ..b }
}

/// Whether T gates wait in a record.
pub open spec fn has_t(ops: Seq<CliffordOp>) -> bool {
    exists|i: int| 0 <= i < ops.len() && (#[trigger] ops[i]).waits()
}

/// Whether the way back through a record turns an observable into a diagonal one that can be
/// measured without replay.
pub open spec fn is_diagonal(ops: Seq<CliffordOp>, px: Seq<u8>, pz: Seq<u8>) -> bool {
    let back = measure::undo_run(measure::op_from(px, pz, 0), ops);
    !has_t(ops) && (forall|i: int| 0 <= i < back.x.len() ==> !#[trigger] back.x[i])
}

impl View for BACQSState {
    type V = Books;

    open spec fn view(&self) -> Books {
        Books {
            compressed: self.compressed,
            ops: self.clifford_ops@,
            t_gates: self.t_gate_count as int,
            total: self.total_gates as int,
            threshold: self.t_gate_threshold as int,
            bits: self.bits,
            seed: self.seed,
            n: self.n_qubits as nat,
            decompressions: self.decompression_count as int,
            resets: self.basis_reset_count as int,
            waiting: self.waiting,
        }
    }
}

impl BACQSState {
    /// The tableau is that of the record, and the compressed state has as many qubits.
    pub open spec fn wf(&self) -> bool {
        &&& 2 * self.n_qubits + 1 <= usize::MAX
        &&& frame::frame_wf(self.tableau, self.clifford_ops@, self.n_qubits as nat)
        &&& self.compressed.wf()
        &&& self.compressed.n_qubits == self.n_qubits
    }

    /// Start from a compressed state.
    pub fn new(
        compressed: CompressedState,
        bits: u8,
        seed: u64,
        t_gate_threshold: usize,
    ) -> (s: Self)
        requires
            compressed.wf(),
            2 * compressed.n_qubits + 1 <= usize::MAX,
        ensures
            s.wf(),
            s@ == fresh(compressed, bits, seed, t_gate_threshold as int),
            s.tableau@ == tableau::identity_rows(compressed.n_qubits as nat),
    {
        let n_qubits: usize = compressed.n_qubits;
        let s = BACQSState {
            compressed,
            tableau: CliffordTableau::new(n_qubits),
            clifford_ops: Vec::new(),
            t_gate_count: 0,
            total_gates: 0,
            t_gate_threshold,
            bits,
            seed,
            n_qubits,
            decompression_count: 0,
            basis_reset_count: 0,
            waiting: false,
        };
        proof {
            group::lemma_empty_circuit(n_qubits as nat);
            assert(s.clifford_ops@ =~= Seq::empty());
        }
        s
    }

    /// Apply a gate to one qubit.
    ///
    /// Clifford gates update the tableau only. T gates are queued and counted, and bring on a
    /// basis reset once the threshold is met. Other gates call for dense work.
    pub fn apply_gate(&mut self, gate: Gate, target: usize) -> (work: Option<DenseJob>)
        requires
            old(self).wf(),
            !old(self)@.waiting,
            old(self)@.can_count(),
            frame::gate_in_range(gate, target, old(self)@.n),
        ensures
            final(self).wf(),
            final(self)@ == after_gate(old(self)@, gate, target),
            work_view(work) == gate_work(old(self)@, gate, target),
    {
        self.total_gates = self.total_gates + 1;
        match frame::classify_gate(&gate) {
            GateType::Clifford => {
                frame::apply_clifford_to_tableau(
                    &mut self.tableau,
                    &mut self.clifford_ops,
                    &gate,
                    target,
                );
                None
            },
            GateType::TGate => {
                self.t_gate_count = self.t_gate_count + 1;
                if self.t_gate_count >= self.t_gate_threshold {
                    Some(self.basis_reset(gate, target))
                } else {
                    frame::queue_t_gate(
                        &mut self.tableau,
                        &mut self.clifford_ops,
                        &gate,
                        target,
                    );
                    None
                }
            },
            GateType::Arbitrary => {
                let replay: Vec<KernelCall> = self.to_state();
                self.waiting = true;
                Some(DenseJob { replay, call: KernelCall::Apply(gate, target) })
            },
        }
    }

    /// Apply a gate controlled by one qubit. A controlled X updates the tableau only; other
    /// gates call for dense work.
    pub fn apply_controlled_gate(&mut self, gate: Gate, control: usize, target: usize) -> (work:
        Option<DenseJob>)
        requires
            old(self).wf(),
            !old(self)@.waiting,
            old(self)@.can_count(),
            control < old(self)@.n,
            target < old(self)@.n,
        ensures
            final(self).wf(),
            final(self)@ == after_controlled(old(self)@, gate, control, target),
            work_view(work) == controlled_work(old(self)@, gate, control, target),
    {
        self.total_gates = self.total_gates + 1;
        match gate {
            Gate::X => {
                frame::record_op(
                    &mut self.tableau,
                    &mut self.clifford_ops,
                    CliffordOp::CNOT(control, target),
                );
                None
            },
            _ => {
                let replay: Vec<KernelCall> = self.to_state();
                self.waiting = true;
                Some(DenseJob { replay, call: KernelCall::Controlled(gate, control, target) })
            },
        }
    }

    /// Call for a basis reset: replay the record, waiting T gates included, and apply the
    /// pending gate.
    pub fn basis_reset(&mut self, pending_gate: Gate, pending_target: usize) -> (job: DenseJob)
        requires
            old(self).wf(),
            !old(self)@.waiting,
            old(self)@.decompressions < usize::MAX,
            old(self)@.resets < usize::MAX,
        ensures
            final(self).wf(),
            final(self)@ == reset_begun(old(self)@),
            job@ == (
                gates::kernel_calls(old(self)@.ops),
                KernelCall::Apply(pending_gate, pending_target),
            ),
    {
        self.basis_reset_count = self.basis_reset_count + 1;
        let replay: Vec<KernelCall> = self.to_state();
        self.waiting = true;
        DenseJob { replay, call: KernelCall::Apply(pending_gate, pending_target) }
    }

    /// Take the outcome of dense work: the tableau becomes the identity, and the record and
    /// the count of T gates are empty.
    pub fn install(&mut self, compressed: CompressedState)
        requires
            old(self).wf(),
            old(self)@.waiting,
            compressed.wf(),
            compressed.n_qubits == old(self)@.n,
        ensures
            final(self).wf(),
            final(self)@ == after_install(old(self)@, compressed),
            final(self).tableau@ == tableau::identity_rows(old(self)@.n),
    {
        self.compressed = compressed;
        self.tableau = CliffordTableau::new(self.n_qubits);
        self.clifford_ops = Vec::new();
        self.t_gate_count = 0;
        self.waiting = false;
        proof {
            group::lemma_empty_circuit(self.n_qubits as nat);
            assert(self.clifford_ops@ =~= Seq::empty());
        }
    }

    /// Call for the full statevector: the calls to make on the decompressed state.
    pub fn to_state(&mut self) -> (replay: Vec<KernelCall>)
        requires
            old(self).wf(),
            old(self)@.decompressions < usize::MAX,
        ensures
            final(self).wf(),
            final(self)@ == counted(old(self)@),
            final(self).tableau == old(self).tableau,
            replay@ == gates::kernel_calls(old(self)@.ops),
    {
        self.decompression_count = self.decompression_count + 1;
        gates::replay(&self.clifford_ops)
    }

    /// Plan the measurement of the Pauli X^x·Z^z.
    ///
    /// The observable is carried back through the record. If it becomes diagonal and no T
    /// gate is waiting, it can be measured on the decompressed state as it is; else the full
    /// statevector is called for.
    pub fn measure_pauli(&mut self, pauli_x: &[u8], pauli_z: &[u8]) -> (plan: PauliPlan)
        requires
            old(self).wf(),
            old(self)@.decompressions < usize::MAX,
            pauli_x@.len() == old(self)@.n,
            pauli_z@.len() == old(self)@.n,
            measure::binary(pauli_x@),
            measure::binary(pauli_z@),
        ensures
            final(self).wf(),
            final(self).tableau == old(self).tableau,
            is_diagonal(old(self)@.ops, pauli_x@, pauli_z@) ==> {
                let back = measure::undo_run(
                    measure::op_from(pauli_x@, pauli_z@, 0),
                    old(self)@.ops,
                );
                &&& final(self)@ == old(self)@
                &&& plan matches PauliPlan::Diagonal { z_bits, phase }
                &&& tableau::bits_of(z_bits@) == back.z
                &&& measure::binary(z_bits@)
                &&& phase == back.k
            },
            !is_diagonal(old(self)@.ops, pauli_x@, pauli_z@) ==> {
                &&& final(self)@ == counted(old(self)@)
                &&& plan matches PauliPlan::Dense(calls)
                &&& calls@ == gates::kernel_calls(old(self)@.ops)
            },
    {
        let (tx, tz, phase) = measure::conjugate_pauli_inverse(
            &self.clifford_ops,
            pauli_x,
            pauli_z,
        );
        let ghost back = measure::undo_run(
            measure::op_from(pauli_x@, pauli_z@, 0),
            self.clifford_ops@,
        );
        let diagonal: bool = all_zero(&tx);
        let t_waits: bool = t_gate_waits(&self.clifford_ops);
        proof {
            assert forall|i: int| 0 <= i < back.x.len() implies #[trigger] back.x[i] == (tx@[i]
                != 0) by {
                assert(back.x == tableau::bits_of(tx@));
            }
            if diagonal {
                assert(forall|i: int| 0 <= i < back.x.len() ==> !#[trigger] back.x[i]);
            } else {
                let i = choose|i: int| 0 <= i < tx@.len() && #[trigger] tx@[i] != 0;
                assert(back.x[i]);
            }
        }
        if diagonal && !t_waits {
            PauliPlan::Diagonal { z_bits: tz, phase }
        } else {
            PauliPlan::Dense(self.to_state())
        }
    }

    /// Plan the measurement of Z on one qubit.
    pub fn measure_z(&mut self, qubit: usize) -> (plan: PauliPlan)
        requires
            old(self).wf(),
            old(self)@.decompressions < usize::MAX,
            qubit < old(self)@.n,
        ensures
            final(self).wf(),
            final(self).tableau == old(self).tableau,
            ({
                let px = Seq::new(old(self)@.n, |i: int| 0u8);
                let pz = Seq::new(
                    old(self)@.n,
                    |i: int|
                        if i == qubit {
                            1u8
                        } else {
                            0u8
                        },
                );
                let back = measure::undo_run(measure::op_from(px, pz, 0), old(self)@.ops);
                &&& is_diagonal(old(self)@.ops, px, pz) ==> {
                    &&& final(self)@ == old(self)@
                    &&& plan matches PauliPlan::Diagonal { z_bits, phase }
                    &&& tableau::bits_of(z_bits@) == back.z
                    &&& measure::binary(z_bits@)
                    &&& phase == back.k
                }
                &&& !is_diagonal(old(self)@.ops, px, pz) ==> {
                    &&& final(self)@ == counted(old(self)@)
                    &&& plan matches PauliPlan::Dense(calls)
                    &&& calls@ == gates::kernel_calls(old(self)@.ops)
                }
            }),
            plan matches PauliPlan::Diagonal { z_bits, phase } ==> {
                let z = group::op_of(pauli::z_generator(old(self)@.n, qubit as int));
                let back = measure::undo_run(z, old(self)@.ops);
                &&& tableau::bits_of(z_bits@) == back.z
                &&& phase == back.k
                &&& forall|i: int| 0 <= i < back.x.len() ==> !#[trigger] back.x[i]
            },
    {
        let mut x_bits: Vec<u8> = Vec::new();
        let mut z_bits: Vec<u8> = Vec::new();
        for i in 0..self.n_qubits
            invariant
                x_bits@.len() == i,
                z_bits@.len() == i,
                forall|j: int| 0 <= j < i ==> #[trigger] x_bits@[j] == 0,
                forall|j: int|
                    0 <= j < i ==> #[trigger] z_bits@[j] == (if j == qubit {
                        1u8
                    } else {
                        0u8
                    }),
        {
            x_bits.push(0);
            if i == qubit {
                z_bits.push(1);
            } else {
                z_bits.push(0);
            }
        }
        proof {
            assert(x_bits@ =~= Seq::new(self@.n, |i: int| 0u8));
            assert(z_bits@ =~= Seq::new(
                self@.n,
                |i: int|
                    if i == qubit {
                        1u8
                    } else {
                        0u8
                    },
            ));
        }
        proof {
            let z = pauli::z_generator(self@.n, qubit as int);
            pauli::lemma_common_below_zero(z.x, z.z, self@.n);
            assert(group::op_of(z).x =~= tableau::bits_of(x_bits@));
            assert(group::op_of(z).z =~= tableau::bits_of(z_bits@));
            assert(group::op_of(z) == measure::op_from(x_bits@, z_bits@, 0));
        }
        self.measure_pauli(&x_bits, &z_bits)
    }

    /// A copy of the packed indices.
    pub fn compressed_bytes(&self) -> (bytes: Vec<u8>)
        ensures
            bytes@ == self.compressed.packed_indices@,
    {
        vstd::slice::slice_to_vec(&self.compressed.packed_indices)
    }

    /// How many recorded operations there is room for.
    pub fn ops_capacity(&self) -> (c: usize)
        ensures
            c >= self@.ops.len(),
            vstd::layout::size_of::<CliffordOp>() * c <= isize::MAX,
    {
        memory::capacity(&self.clifford_ops)
    }

    /// The numbers of the memory and performance report, given the bytes that the packed
    /// indices take and the operations that the record has room for.
    pub fn report(&self, compressed_bytes: usize, ops_capacity: usize) -> (r: BacqsReport)
        requires
            16 * power2::pow2(self@.n) <= usize::MAX,
            compressed_bytes + 2 * self@.n * (2 * self@.n + 1) + ops_capacity
                * vstd::layout::size_of::<CliffordOp>() <= usize::MAX,
            self@.total == 0 || self@.decompressions <= self@.total,
        ensures
            r == report_of(self@, compressed_bytes as int, ops_capacity as int),
    {
        let n: usize = self.n_qubits;
        proof {
            power2::lemma_pow2_pos(self@.n);
            assert(2 * self@.n * (2 * self@.n + 1) >= 2 * self@.n + 1 || self@.n == 0)
                by (nonlinear_arith);
            assert(0 <= ops_capacity * vstd::layout::size_of::<CliffordOp>()) by (nonlinear_arith);
        }
        let raw_sv_bytes: usize = state::raw_statevector_bytes(n);
        let table_mem: usize = (2 * n) * (2 * n + 1);
        let ops_mem: usize = ops_capacity * core::mem::size_of::<CliffordOp>();
        let kept: usize = compressed_bytes + table_mem + ops_mem;
        BacqsReport {
            clifford_gates: self.total_gates.saturating_sub(self.basis_reset_count),
            raw_sv_bytes,
            peak_memory_bytes: if raw_sv_bytes >= kept {
                raw_sv_bytes
            } else {
                kept
            },
            gates_avoiding_decompression: self.total_gates.saturating_sub(
                self.decompression_count,
            ),
        }
    }
}

/// Whether all bytes are zero.
fn all_zero(bytes: &Vec<u8>) -> (r: bool)
    ensures
        r == (forall|i: int| 0 <= i < bytes@.len() ==> #[trigger] bytes@[i] == 0),
{
    for i in 0..bytes.len()
        invariant
            forall|j: int| 0 <= j < i ==> #[trigger] bytes@[j] == 0,
    {
        if bytes[i] != 0 {
            return false;
        }
    }
    true
}

/// Whether T gates wait in the record.
fn t_gate_waits(ops: &Vec<CliffordOp>) -> (r: bool)
    ensures
        r == has_t(ops@),
{
    for i in 0..ops.len()
        invariant
            forall|j: int| 0 <= j < i ==> !(#[trigger] ops@[j]).waits(),
    {
        match ops[i] {
            CliffordOp::T(_) | CliffordOp::Tdg(_) => {
                assert(ops@[i as int].waits());
                return true;
            },
            _ => {},
        }
    }
    false
}

/// Derived numbers of the memory and performance report.
#[derive(Clone, Copy, Debug, PartialEq, Eq, Structural)]
pub struct BacqsReport {
    /// Gates that brought on no basis reset.
    pub clifford_gates: usize,
    /// What the uncompressed statevector would take.
    pub raw_sv_bytes: usize,
    /// The larger of the uncompressed statevector and what is kept between resets.
    pub peak_memory_bytes: usize,
    /// Gates that did not call for the full statevector.
    pub gates_avoiding_decompression: usize,
}

/// A difference that does not go below zero.
pub open spec fn monus(a: int, b: int) -> int {
    if a >= b {
        a - b
    } else {
        0
    }
}

/// The numbers of the report.
pub open spec fn report_of(b: Books, compressed_bytes: int, ops_capacity: int) -> BacqsReport {
    let raw = 16 * power2::pow2(b.n) as int;
    let kept = compressed_bytes + 2 * b.n * (2 * b.n + 1) + ops_capacity
        * vstd::layout::size_of::<CliffordOp>();
    BacqsReport {
        clifford_gates: monus(b.total, b.resets) as usize,
        raw_sv_bytes: raw as usize,
        peak_memory_bytes: if raw >= kept {
            raw as usize
        } else {
            kept as usize
        },
        gates_avoiding_decompression: monus(b.total, b.decompressions) as usize,
    }
}

/// What a diagonal plan measures: with R the circuit of the record, R times the planned
/// operator i^k·Z^z times R† is the observable, so that its expectation in the decompressed
/// state is that of the observable after the circuit.
pub proof fn law_diagonal_plan(ops: Seq<CliffordOp>, px: Seq<u8>, pz: Seq<u8>, n: nat)
    requires
        group::valid_circuit(n, ops),
        px.len() == n,
        pz.len() == n,
        is_diagonal(ops, px, pz),
    ensures
        ({
            let back = measure::undo_run(measure::op_from(px, pz, 0), ops);
            group::conj_run(
                PauliOp { k: back.k, x: Seq::new(n, |i: int| false), z: back.z },
                ops,
            ) == measure::op_from(px, pz, 0)
        }),
{
    let a = measure::op_from(px, pz, 0);
    let back = measure::undo_run(a, ops);
    measure::law_way_back(a, ops, n);
    assert(back.x =~= Seq::new(n, |i: int| false));
}

/// Without Hadamards and waiting T gates an observable without X part needs no replay.
pub proof fn law_no_hadamard_no_replay(ops: Seq<CliffordOp>, px: Seq<u8>, pz: Seq<u8>, n: nat)
    requires
        frame::ops_in_range(ops, n),
        forall|i: int|
            0 <= i < ops.len() ==> !((#[trigger] ops[i]) is H) && !ops[i].waits(),
        px.len() == n,
        pz.len() == n,
        forall|i: int| 0 <= i < n ==> #[trigger] px[i] == 0,
    ensures
        is_diagonal(ops, px, pz),
{
    let a = measure::op_from(px, pz, 0);
    assert(a.x =~= Seq::new(n, |i: int| false));
    lemma_stays_diagonal(a, ops, n);
}

proof fn lemma_stays_diagonal(a: PauliOp, ops: Seq<CliffordOp>, n: nat)
    requires
        frame::ops_in_range(ops, n),
        forall|i: int| 0 <= i < ops.len() ==> !((#[trigger] ops[i]) is H),
        a.z.len() == n,
        a.x == Seq::new(n, |i: int| false),
    ensures
        measure::undo_run(a, ops).x == Seq::new(n, |i: int| false),
    decreases ops.len(),
{
    if ops.len() > 0 {
        let init = ops.drop_last();
        assert(forall|i: int| 0 <= i < init.len() ==> #[trigger] init[i] == ops[i]);
        let last = ops[ops.len() - 1];
        assert(last.in_range(n) && !(last is H));
        let b = measure::undo_step(a, last);
        assert(b.x =~= Seq::new(n, |i: int| false));
        lemma_stays_diagonal(b, init, n);
    }
}

/// The statevector that the books stand for: what the record makes of the decompressed state.
pub open spec fn represented<S>(
    b: Books,
    decompress: spec_fn(CompressedState) -> S,
    act: spec_fn(S, KernelCall) -> S,
) -> S {
    gates::performed(decompress(b.compressed), gates::kernel_calls(b.ops), act)
}

/// A gate that is absorbed is applied: whatever decompression does, the statevector that the
/// books stand for afterwards is the one before with this gate applied.
pub proof fn law_absorbed_gate_is_applied<S>(
    b: Books,
    gate: Gate,
    target: usize,
    decompress: spec_fn(CompressedState) -> S,
    act: spec_fn(S, KernelCall) -> S,
)
    requires
        frame::faithful(act),
        gate_work(b, gate, target) is None,
    ensures
        represented(after_gate(b, gate, target), decompress, act) == act(
            represented(b, decompress, act),
            KernelCall::Apply(gate, target),
        ),
{
    assert(b.ops.push(frame::waiting_op(gate, target)) =~= b.ops + seq![
        frame::waiting_op(gate, target),
    ]);
    frame::law_absorbed_gate_extends_record(decompress(b.compressed), b.ops, gate, target, act);
}

/// Dense work applies its gate to the statevector that the books stood for.
pub proof fn law_dense_work_applies_gate<S>(
    b: Books,
    gate: Gate,
    target: usize,
    decompress: spec_fn(CompressedState) -> S,
    act: spec_fn(S, KernelCall) -> S,
)
    requires
        gate_work(b, gate, target) is Some,
    ensures
        ({
            let (replay, call) = gate_work(b, gate, target).unwrap();
            act(gates::performed(decompress(b.compressed), replay, act), call) == act(
                represented(b, decompress, act),
                KernelCall::Apply(gate, target),
            )
        }),
{
}

/// Controlled gates are applied in the same way, absorbed or by dense work.
pub proof fn law_controlled_gate_is_applied<S>(
    b: Books,
    gate: Gate,
    control: usize,
    target: usize,
    decompress: spec_fn(CompressedState) -> S,
    act: spec_fn(S, KernelCall) -> S,
)
    ensures
        match controlled_work(b, gate, control, target) {
            Some((replay, call)) => act(
                gates::performed(decompress(b.compressed), replay, act),
                call,
            ) == act(
                represented(b, decompress, act),
                KernelCall::Controlled(gate, control, target),
            ),
            None => represented(
                after_controlled(b, gate, control, target),
                decompress,
                act,
            ) == act(
                represented(b, decompress, act),
                KernelCall::Controlled(gate, control, target),
            ),
        },
{
    if gate == Gate::X {
        let start = decompress(b.compressed);
        frame::law_controlled_x_extends_record(start, b.ops, control, target, act);
    }
}

/// The books after a gate or a controlled gate.
pub open spec fn after_call(b: Books, call: KernelCall) -> Books {
    match call {
        KernelCall::Apply(gate, target) => after_gate(b, gate, target),
        KernelCall::Controlled(gate, control, target) => after_controlled(
            b,
            gate,
            control,
            target,
        ),
    }
}

/// The books once the outcome of the dense work that was called for, if any, is in.
pub open spec fn after_work(b: Books, outcome: CompressedState) -> Books {
    if b.waiting {
        after_install(b, outcome)
    } else {
        b
    }
}

/// The books after a circuit, with the outcomes of the dense work that it calls for.
pub open spec fn after_circuit(
    b: Books,
    circuit: Seq<KernelCall>,
    outcomes: Seq<CompressedState>,
) -> Books
    decreases circuit.len(),
{
    if circuit.len() == 0 {
        b
    } else {
        let p = after_circuit(b, circuit.drop_last(), outcomes);
        after_work(after_call(p, circuit.last()), outcomes[circuit.len() - 1])
    }
}

/// Clifford circuits never touch the statevector: after any number of Clifford gates, controlled
/// X among them, the compressed state is the one before, and it was never called for.
pub proof fn law_clifford_circuits_keep_statevector(
    b: Books,
    circuit: Seq<KernelCall>,
    outcomes: Seq<CompressedState>,
)
    requires
        !b.waiting,
        forall|i: int|
            0 <= i < circuit.len() ==> frame::is_clifford_call(#[trigger] circuit[i]),
    ensures
        ({
            let r = after_circuit(b, circuit, outcomes);
            &&& r.compressed == b.compressed
            &&& r.decompressions == b.decompressions
            &&& r.resets == b.resets
            &&& r.t_gates == b.t_gates
            &&& r.total == b.total + circuit.len()
            &&& !r.waiting
        }),
    decreases circuit.len(),
{
    if circuit.len() > 0 {
        let init = circuit.drop_last();
        assert(forall|i: int| 0 <= i < init.len() ==> #[trigger] init[i] == circuit[i]);
        law_clifford_circuits_keep_statevector(b, init, outcomes);
        assert(frame::is_clifford_call(circuit[circuit.len() - 1]));
    }
}

/// With a threshold of one, every T gate brings on exactly one basis reset, and nothing but T
/// gates calls for the statevector in a circuit of Clifford and T gates.
pub proof fn law_one_reset_per_t_gate(
    b: Books,
    circuit: Seq<KernelCall>,
    outcomes: Seq<CompressedState>,
)
    requires
        !b.waiting,
        b.threshold <= 1,
        b.t_gates >= 0,
        forall|i: int|
            0 <= i < circuit.len() ==> frame::is_clifford_call(#[trigger] circuit[i])
                || frame::is_t_call(circuit[i]),
    ensures
        ({
            let r = after_circuit(b, circuit, outcomes);
            &&& r.resets == b.resets + frame::t_calls_in(circuit)
            &&& r.decompressions == b.decompressions + frame::t_calls_in(circuit)
            &&& r.total == b.total + circuit.len()
            &&& r.threshold == b.threshold
            &&& r.t_gates >= 0
            &&& !r.waiting
        }),
    decreases circuit.len(),
{
    if circuit.len() > 0 {
        let init = circuit.drop_last();
        let last = circuit[circuit.len() - 1];
        assert(forall|i: int| 0 <= i < init.len() ==> #[trigger] init[i] == circuit[i]);
        law_one_reset_per_t_gate(b, init, outcomes);
        assert(frame::is_clifford_call(last) || frame::is_t_call(last));
    }
}

/// Between resets the count of T gates is the number of T gates that wait in the record, and
/// it stays below the threshold. With a threshold of zero no T gate ever waits.
pub proof fn law_t_count_is_queue_length(
    b: Books,
    circuit: Seq<KernelCall>,
    outcomes: Seq<CompressedState>,
)
    requires
        !b.waiting,
        b.t_gates == frame::t_gates_waiting(b.ops),
        b.t_gates < b.threshold || b.t_gates == 0,
    ensures
        ({
            let r = after_circuit(b, circuit, outcomes);
            &&& r.t_gates == frame::t_gates_waiting(r.ops)
            &&& r.t_gates < r.threshold || r.t_gates == 0
            &&& r.threshold == b.threshold
            &&& !r.waiting
        }),
    decreases circuit.len(),
{
    if circuit.len() > 0 {
        law_t_count_is_queue_length(b, circuit.drop_last(), outcomes);
        let p = after_circuit(b, circuit.drop_last(), outcomes);
        match circuit.last() {
            KernelCall::Apply(gate, target) => {
                frame::lemma_recorded_does_not_wait(p.ops, gate, target);
                frame::lemma_push_waiting(p.ops, frame::waiting_op(gate, target));
            },
            KernelCall::Controlled(_, control, target) => {
                frame::lemma_push_waiting(p.ops, CliffordOp::CNOT(control, target));
            },
        }
    }
}

/// The outcome of the dense work that a call brings on, if any, decompresses to what the dense
/// work made.
pub open spec fn lossless_call<S>(
    b: Books,
    call: KernelCall,
    outcome: CompressedState,
    decompress: spec_fn(CompressedState) -> S,
    act: spec_fn(S, KernelCall) -> S,
) -> bool {
    after_call(b, call).waiting ==> decompress(outcome) == act(
        represented(b, decompress, act),
        call,
    )
}

/// A call is executed, absorbed or by dense work that loses nothing: the statevector that the
/// books stand for afterwards is the one before with this call made.
pub proof fn law_call_is_executed<S>(
    b: Books,
    call: KernelCall,
    outcome: CompressedState,
    decompress: spec_fn(CompressedState) -> S,
    act: spec_fn(S, KernelCall) -> S,
)
    requires
        !b.waiting,
        frame::faithful(act),
        lossless_call(b, call, outcome, decompress, act),
    ensures
        !after_work(after_call(b, call), outcome).waiting,
        represented(after_work(after_call(b, call), outcome), decompress, act) == act(
            represented(b, decompress, act),
            call,
        ),
{
    match call {
        KernelCall::Apply(gate, target) => {
            if gate_work(b, gate, target) is None {
                law_absorbed_gate_is_applied(b, gate, target, decompress, act);
            }
        },
        KernelCall::Controlled(gate, control, target) => {
            law_controlled_gate_is_applied(b, gate, control, target, decompress, act);
        },
    }
    let q = after_call(b, call);
    if q.waiting {
        assert(gates::kernel_calls(after_install(q, outcome).ops) =~= Seq::empty());
    }
}

/// No outcome of dense work in a circuit loses anything.
pub open spec fn lossless<S>(
    b: Books,
    circuit: Seq<KernelCall>,
    outcomes: Seq<CompressedState>,
    decompress: spec_fn(CompressedState) -> S,
    act: spec_fn(S, KernelCall) -> S,
) -> bool
    decreases circuit.len(),
{
    circuit.len() > 0 ==> {
        let p = after_circuit(b, circuit.drop_last(), outcomes);
        &&& lossless(b, circuit.drop_last(), outcomes, decompress, act)
        &&& lossless_call(p, circuit.last(), outcomes[circuit.len() - 1], decompress, act)
    }
}

/// The simulator executes circuits: where compression loses nothing, the statevector that the
/// books stand for after a circuit is the one before with every gate applied in order.
pub proof fn law_circuit_is_executed<S>(
    b: Books,
    circuit: Seq<KernelCall>,
    outcomes: Seq<CompressedState>,
    decompress: spec_fn(CompressedState) -> S,
    act: spec_fn(S, KernelCall) -> S,
)
    requires
        !b.waiting,
        frame::faithful(act),
        lossless(b, circuit, outcomes, decompress, act),
    ensures
        !after_circuit(b, circuit, outcomes).waiting,
        represented(after_circuit(b, circuit, outcomes), decompress, act) == gates::performed(
            represented(b, decompress, act),
            circuit,
            act,
        ),
    decreases circuit.len(),
{
    if circuit.len() > 0 {
        let p = after_circuit(b, circuit.drop_last(), outcomes);
        law_circuit_is_executed(b, circuit.drop_last(), outcomes, decompress, act);
        law_call_is_executed(p, circuit.last(), outcomes[circuit.len() - 1], decompress, act);
    }
}

/// Calling for the statevector does not change it: a second call gives the same one.
pub proof fn law_to_state_is_repeatable<S>(
    b: Books,
    decompress: spec_fn(CompressedState) -> S,
    act: spec_fn(S, KernelCall) -> S,
)
    ensures
        represented(counted(b), decompress, act) == represented(b, decompress, act),
{
}

/// Every gate is counted once, and the settings stay. The statevector is called for by the dense
/// gates, once each, and by the resets, once each.
pub proof fn law_every_gate_is_counted(
    b: Books,
    circuit: Seq<KernelCall>,
    outcomes: Seq<CompressedState>,
)
    requires
        !b.waiting,
    ensures
        ({
            let r = after_circuit(b, circuit, outcomes);
            let resets = r.resets - b.resets;
            &&& r.total == b.total + circuit.len()
            &&& 0 <= resets <= frame::t_calls_in(circuit)
            &&& r.decompressions == b.decompressions + frame::dense_calls_in(circuit) + resets
            &&& r.seed == b.seed
            &&& r.threshold == b.threshold
            &&& r.bits == b.bits
            &&& r.n == b.n
            &&& !r.waiting
        }),
    decreases circuit.len(),
{
    if circuit.len() > 0 {
        law_every_gate_is_counted(b, circuit.drop_last(), outcomes);
    }
}

/// Resets come once every threshold of T gates: in a circuit of Clifford and T gates, the T
/// gates are those that wait and as many for each reset as the threshold says.
pub proof fn law_resets_come_every_threshold(
    b: Books,
    circuit: Seq<KernelCall>,
    outcomes: Seq<CompressedState>,
)
    requires
        !b.waiting,
        0 <= b.t_gates < b.threshold,
        forall|i: int|
            0 <= i < circuit.len() ==> frame::is_clifford_call(#[trigger] circuit[i])
                || frame::is_t_call(circuit[i]),
    ensures
        ({
            let r = after_circuit(b, circuit, outcomes);
            &&& b.threshold * (r.resets - b.resets) + r.t_gates == b.t_gates
                + frame::t_calls_in(circuit)
            &&& 0 <= r.t_gates < b.threshold
        }),
    decreases circuit.len(),
{
    law_every_gate_is_counted(b, circuit, outcomes);
    if circuit.len() > 0 {
        let init = circuit.drop_last();
        let last = circuit[circuit.len() - 1];
        assert(forall|i: int| 0 <= i < init.len() ==> #[trigger] init[i] == circuit[i]);
        law_resets_come_every_threshold(b, init, outcomes);
        law_every_gate_is_counted(b, init, outcomes);
        assert(frame::is_clifford_call(last) || frame::is_t_call(last));
        let p = after_circuit(b, init, outcomes);
        let before = p.resets - b.resets;
        vstd::arithmetic::mul::lemma_mul_is_distributive_add(b.threshold, before, 1);
    } else {
        vstd::arithmetic::mul::lemma_mul_basics(b.threshold);
    }
}

/// A plan without replay is made only where everything recorded is Clifford, and is made
/// wherever the way back through such a record leaves no X.
pub proof fn law_no_replay_past_t_gates(ops: Seq<CliffordOp>, px: Seq<u8>, pz: Seq<u8>)
    ensures
        is_diagonal(ops, px, pz) <==> {
            &&& forall|i: int|
                0 <= i < ops.len() ==> frame::is_clifford_call((#[trigger] ops[i]).kernel_call())
            &&& forall|i: int|
                0 <= i < measure::undo_run(measure::op_from(px, pz, 0), ops).x.len()
                    ==> !#[trigger] measure::undo_run(measure::op_from(px, pz, 0), ops).x[i]
        },
{
    assert forall|i: int| 0 <= i < ops.len() implies frame::is_clifford_call(
        (#[trigger] ops[i]).kernel_call(),
    ) == !ops[i].waits() by {
        frame::law_replay_classes(ops[i]);
    }
    if is_diagonal(ops, px, pz) {
        assert forall|i: int| 0 <= i < ops.len() implies frame::is_clifford_call(
            (#[trigger] ops[i]).kernel_call(),
        ) by {
            assert(!ops[i].waits());
        }
    } else if has_t(ops) {
        let i = choose|i: int| 0 <= i < ops.len() && (#[trigger] ops[i]).waits();
        assert(!frame::is_clifford_call(ops[i].kernel_call()));
    }
}

/// The numbers of the report fit together: gates are those that brought on a reset and the
/// others, or those that called for the statevector and the others, and the peak is the larger
/// of the raw statevector and what is kept.
pub proof fn law_report_fits_together(b: Books, compressed_bytes: int, ops_capacity: int)
    requires
        0 <= b.resets <= b.total <= usize::MAX,
        0 <= b.decompressions <= b.total,
        16 * power2::pow2(b.n) <= usize::MAX,
        0 <= compressed_bytes + 2 * b.n * (2 * b.n + 1) + ops_capacity
            * vstd::layout::size_of::<CliffordOp>() <= usize::MAX,
    ensures
        ({
            let r = report_of(b, compressed_bytes, ops_capacity);
            let kept = compressed_bytes + 2 * b.n * (2 * b.n + 1) + ops_capacity
                * vstd::layout::size_of::<CliffordOp>();
            &&& r.clifford_gates + b.resets == b.total
            &&& r.gates_avoiding_decompression + b.decompressions == b.total
            &&& r.raw_sv_bytes == 16 * power2::pow2(b.n)
            &&& r.peak_memory_bytes >= r.raw_sv_bytes
            &&& r.peak_memory_bytes >= kept
            &&& r.peak_memory_bytes == r.raw_sv_bytes || r.peak_memory_bytes == kept
        }),
{
}

/// A new simulator holds what it was given, and has counted and recorded nothing.
pub proof fn law_fresh_start(c: CompressedState, bits: u8, seed: u64, threshold: int)
    ensures
        ({
            let b = fresh(c, bits, seed, threshold);
            &&& b.compressed == c && b.n == c.n_qubits
            &&& b.bits == bits && b.seed == seed && b.threshold == threshold
            &&& b.ops.len() == 0 && b.t_gates == 0 && b.total == 0
            &&& b.decompressions == 0 && b.resets == 0 && !b.waiting
        }),
{
}

} // verus!
