//! Residual-predictive dithered quantization.
//!
//! A simulator like the basis-adaptive one, which also keeps what quantization lost. Before a
//! state is compressed its amplitudes are given random phases, and its coordinates are rounded
//! at random without bias; the difference between the state and what the compressed state
//! stands for is kept as a residual and added back whenever the statevector is called for. All
//! randomness is derived from a seed and the number of the reset. This module decides what is
//! to be done and with which reset numbers; the caller performs the dense work.

use vstd::arithmetic::power2;
use vstd::prelude::*;

use crate::compression::CompressedState;
use crate::frame;
use crate::frame::GateType;
use crate::gates;
use crate::gates::CliffordOp;
use crate::gates::Gate;
use crate::gates::KernelCall;
use crate::group;
use crate::tableau;
use crate::tableau::CliffordTableau;

pub use crate::dither::apply_dither;
pub use crate::dither::apply_inverse_dither;

verus! {

/// How to rebuild the statevector: decompress the compressed state, undo the dither of reset
/// number `undither`, add the residual, normalize, and make the calls of `replay` in order.
#[derive(Debug)]
pub struct Rebuild {
    pub undither: u64,
    pub replay: Vec<KernelCall>,
}

/// Dense work: rebuild the statevector, make `call`, then dither and compress the outcome with
/// reset number `dither`, and find the new residual.
#[derive(Debug)]
pub struct RpdqJob {
    pub rebuild: Rebuild,
    pub call: KernelCall,
    pub dither: u64,
}

/// Dense work as a mathematical value.
#[verifier::ext_equal]
pub struct JobModel {
    pub undither: u64,
    pub replay: Seq<KernelCall>,
    pub call: KernelCall,
    pub dither: u64,
}

impl View for RpdqJob {
    type V = JobModel;

    open spec fn view(&self) -> JobModel {
        JobModel {
            undither: self.rebuild.undither,
            replay: self.rebuild.replay@,
            call: self.call,
            dither: self.dither,
        }
    }
}

/// The work that a gate calls for, if any.
pub open spec fn work_view(work: Option<RpdqJob>) -> Option<JobModel> {
    match work {
        Some(job) => Some(job@),
        None => None,
    }
}

/// The outcome of dense work. Numbers are bit patterns of doubles.
#[derive(Debug)]
pub struct Outcome {
    pub compressed: CompressedState,
    /// What the compressed state misses of the real parts.
    pub residual_re: Vec<u64>,
    /// What the compressed state misses of the imaginary parts.
    pub residual_im: Vec<u64>,
    /// The norm of the residual.
    pub residual_norm: u64,
    /// The estimated fidelity of the compressed state.
    pub fidelity: u64,
}

impl Outcome {
    /// The outcome is one on `n` qubits.
    pub open spec fn on(&self, n: nat) -> bool {
        &&& self.compressed.wf()
        &&& self.compressed.n_qubits == n
        &&& self.residual_re@.len() == power2::pow2(n)
        &&& self.residual_im@.len() == power2::pow2(n)
    }
}

/// The state of the simulator.
pub struct RpdqState {
    /// The compressed statevector, dithered.
    pub compressed: CompressedState,
    /// What the compressed state misses of the real parts.
    pub residual_re: Vec<u64>,
    /// What the compressed state misses of the imaginary parts.
    pub residual_im: Vec<u64>,
    /// The tableau of the recorded operations.
    pub tableau: CliffordTableau,
    /// The operations to replay on the statevector.
    pub clifford_ops: Vec<CliffordOp>,
    /// T gates since the last reset.
    pub t_gate_count: usize,
    /// Gates applied in all.
    pub total_gates: usize,
    /// How many T gates force a reset.
    pub t_gate_threshold: usize,
    /// The bit width of compression.
    pub bits: u8,
    /// The seed of the rotation.
    pub rotation_seed: u64,
    /// The seed of dither and stochastic rounding.
    pub dither_seed: u64,
    /// The number of qubits.
    pub n_qubits: usize,
    /// How often the full statevector was called for.
    pub decompression_count: usize,
    /// How many resets there were.
    pub reset_index: u64,
    /// The norm of the residual at the start and after each compression.
    pub residual_norms: Vec<u64>,
    /// The estimated fidelity after each compression.
    pub fidelity_estimates: Vec<u64>,
    /// Dense work was called for and its outcome is still out.
    pub waiting: bool,
}

/// The books of the simulator, as a mathematical value.
#[verifier::ext_equal]
pub struct RpdqBooks {
    pub compressed: CompressedState,
    pub residual_re: Seq<u64>,
    pub residual_im: Seq<u64>,
    pub ops: Seq<CliffordOp>,
    pub t_gates: int,
    pub total: int,
    pub threshold: int,
    pub bits: u8,
    pub rotation_seed: u64,
    pub dither_seed: u64,
    pub n: nat,
    pub decompressions: int,
    pub reset_index: u64,
    pub residual_norms: Seq<u64>,
    pub fidelity_estimates: Seq<u64>,
    pub waiting: bool,
}

impl RpdqBooks {
    /// No counter is at the end of its range.
    pub open spec fn can_count(self) -> bool {
        &&& self.t_gates < usize::MAX
        &&& self.total < usize::MAX
        &&& self.decompressions < usize::MAX
        &&& self.reset_index < u64::MAX
    }
}

/// The books of a new simulator.
pub open spec fn fresh(
    start: Outcome,
    bits: u8,
    rotation_seed: u64,
    dither_seed: u64,
    threshold: int,
) -> RpdqBooks {
    RpdqBooks {
        compressed: start.compressed,
        residual_re: start.residual_re@,
        residual_im: start.residual_im@,
        ops: Seq::empty(),
        t_gates: 0,
        total: 0,
        threshold,
        bits,
        rotation_seed,
        dither_seed,
        n: start.compressed.n_qubits as nat,
        decompressions: 0,
        reset_index: 0,
        residual_norms: seq![start.residual_norm],
        fidelity_estimates: Seq::empty(),
        waiting: false,
    }
}

/// The books after the full statevector was called for.
pub open spec fn counted(b: RpdqBooks) -> RpdqBooks {
    RpdqBooks { decompressions: b.decompressions + 1, ..b }
}

/// The books after dense work was called for.
pub open spec fn suspended(b: RpdqBooks) -> RpdqBooks {
    RpdqBooks { waiting: true, ..counted(b) }
}

/// The books after a reset was called for: it has the next reset number.
pub open spec fn reset_begun(b: RpdqBooks) -> RpdqBooks {
    RpdqBooks { reset_index: (b.reset_index + 1) as u64, ..suspended(b) }
}

/// The books after a gate on one qubit.
pub open spec fn after_gate(b: RpdqBooks, gate: Gate, target: usize) -> RpdqBooks {
    let b1 = RpdqBooks { total: b.total + 1, ..b };
    match frame::gate_type(gate) {
        GateType::Clifford => RpdqBooks { ops: b.ops + frame::recorded(gate, target), ..b1 },
        GateType::TGate => {
            let b2 = RpdqBooks { t_gates: b.t_gates + 1, ..b1 };
            if b.t_gates + 1 >= b.threshold {
                reset_begun(b2)
            } else {
                RpdqBooks { ops: b.ops.push(frame::waiting_op(gate, target)), ..b2 }
            }
        },
        GateType::Arbitrary => suspended(b1),
    }
}

/// The dense work that ends in a call, compressing with a given reset number.
pub open spec fn job_of(b: RpdqBooks, call: KernelCall, dither: u64) -> JobModel {
    JobModel { undither: b.reset_index, replay: gates::kernel_calls(b.ops), call, dither }
}

/// The dense work that a gate on one qubit calls for.
pub open spec fn gate_work(b: RpdqBooks, gate: Gate, target: usize) -> Option<JobModel> {
    let call = KernelCall::Apply(gate, target);
    match frame::gate_type(gate) {
        GateType::Clifford => None,
        GateType::TGate => if b.t_gates + 1 >= b.threshold {
            Some(job_of(b, call, (b.reset_index + 1) as u64))
        } else {
            None
        },
        GateType::Arbitrary => Some(job_of(b, call, b.reset_index)),
    }
}

/// The books after a controlled gate: only a controlled X goes to the tableau.
pub open spec fn after_controlled(
    b: RpdqBooks,
    gate: Gate,
    control: usize,
    target: usize,
) -> RpdqBooks {
    let b1 = RpdqBooks { total: b.total + 1, ..b };
    if gate == Gate::X {
        RpdqBooks { ops: b.ops.push(CliffordOp::CNOT(control, target)), ..b1 }
    } else {
        suspended(b1)
    }
}

/// The dense work that a controlled gate calls for.
pub open spec fn controlled_work(
    b: RpdqBooks,
    gate: Gate,
    control: usize,
    target: usize,
) -> Option<JobModel> {
    if gate == Gate::X {
        None
    } else {
        Some(job_of(b, KernelCall::Controlled(gate, control, target), b.reset_index))
    }
}

/// The books after a reset was committed: the compressed state and the residual are new, and
/// the norm of the residual and the fidelity estimate are noted.
pub open spec fn committed(b: RpdqBooks, o: Outcome) -> RpdqBooks {
    RpdqBooks {
        compressed: o.compressed,
        residual_re: o.residual_re@,
        residual_im: o.residual_im@,
        residual_norms: b.residual_norms.push(o.residual_norm),
        fidelity_estimates: b.fidelity_estimates.push(o.fidelity),
        ..b
    }
}

/// The books with an empty record and nothing waiting.
pub open spec fn cleared(b: RpdqBooks) -> RpdqBooks {
    RpdqBooks { ops: Seq::empty(), t_gates: 0, waiting: false, ..b }
}

/// The books after the outcome of dense work has come back.
pub open spec fn after_install(b: RpdqBooks, o: Outcome) -> RpdqBooks {
    cleared(committed(b, o))
}

impl View for RpdqState {
    type V = RpdqBooks;

    open spec fn view(&self) -> RpdqBooks {
        RpdqBooks {
            compressed: self.compressed,
            residual_re: self.residual_re@,
            residual_im: self.residual_im@,
            ops: self.clifford_ops@,
            t_gates: self.t_gate_count as int,
            total: self.total_gates as int,
            threshold: self.t_gate_threshold as int,
            bits: self.bits,
            rotation_seed: self.rotation_seed,
            dither_seed: self.dither_seed,
            n: self.n_qubits as nat,
            decompressions: self.decompression_count as int,
            reset_index: self.reset_index,
            residual_norms: self.residual_norms@,
            fidelity_estimates: self.fidelity_estimates@,
            waiting: self.waiting,
        }
    }
}

impl RpdqState {
    /// The tableau is that of the record; the compressed state and the residual have as many
    /// qubits; and there is a residual norm for the start and for each fidelity estimate.
    pub open spec fn wf(&self) -> bool {
        &&& 2 * self.n_qubits + 1 <= usize::MAX
        &&& frame::frame_wf(self.tableau, self.clifford_ops@, self.n_qubits as nat)
        &&& self.compressed.wf()
        &&& self.compressed.n_qubits == self.n_qubits
        &&& self.residual_re@.len() == power2::pow2(self.n_qubits as nat)
        &&& self.residual_im@.len() == power2::pow2(self.n_qubits as nat)
        &&& self.residual_norms@.len() == self.fidelity_estimates@.len() + 1
    }

    /// Start from the outcome of compressing a state with reset number 0. The fidelity of the
    /// start is not among the estimates.
    pub fn new(
        start: Outcome,
        bits: u8,
        rotation_seed: u64,
        dither_seed: u64,
        t_gate_threshold: usize,
    ) -> (s: Self)
        requires
            start.on(start.compressed.n_qubits as nat),
            2 * start.compressed.n_qubits + 1 <= usize::MAX,
        ensures
            s.wf(),
            s@ == fresh(start, bits, rotation_seed, dither_seed, t_gate_threshold as int),
            s.tableau@ == tableau::identity_rows(start.compressed.n_qubits as nat),
    {
        let n_qubits: usize = start.compressed.n_qubits;
        let mut residual_norms: Vec<u64> = Vec::new();
        residual_norms.push(start.residual_norm);
        let s = RpdqState {
            compressed: start.compressed,
            residual_re: start.residual_re,
            residual_im: start.residual_im,
            tableau: CliffordTableau::new(n_qubits),
            clifford_ops: Vec::new(),
            t_gate_count: 0,
            total_gates: 0,
            t_gate_threshold,
            bits,
            rotation_seed,
            dither_seed,
            n_qubits,
            decompression_count: 0,
            reset_index: 0,
            residual_norms,
            fidelity_estimates: Vec::new(),
            waiting: false,
        };
        proof {
            group::lemma_empty_circuit(n_qubits as nat);
            assert(s.clifford_ops@ =~= Seq::empty());
            assert(s.fidelity_estimates@ =~= Seq::empty());
            assert(s.residual_norms@ =~= seq![start.residual_norm]);
        }
        s
    }

    /// Apply a gate to one qubit.
    ///
    /// Clifford gates update the tableau only. T gates are queued and counted, and bring on a
    /// reset once the threshold is met. Other gates call for dense work under the current
    /// reset number.
    pub fn apply_gate(&mut self, gate: Gate, target: usize) -> (work: Option<RpdqJob>)
        requires
            old(self).wf(),
            !old(self)@.waiting,
            old(self)@.can_count(),
            frame::gate_in_range(gate, target, old(self)@.n),
        ensures
            final(self).wf(),
            final(self)@ == after_gate(old(self)@, gate, target),
            work_view(work) == gate_work(old(self)@, gate, target),
    {
        self.total_gates = self.total_gates + 1;
        match frame::classify_gate(&gate) {
            GateType::Clifford => {
                frame::apply_clifford_to_tableau(
                    &mut self.tableau,
                    &mut self.clifford_ops,
                    &gate,
                    target,
                );
                None
            },
            GateType::TGate => {
                self.t_gate_count = self.t_gate_count + 1;
                if self.t_gate_count >= self.t_gate_threshold {
                    Some(self.rpdq_reset(gate, target))
                } else {
                    frame::queue_t_gate(
                        &mut self.tableau,
                        &mut self.clifford_ops,
                        &gate,
                        target,
                    );
                    None
                }
            },
            GateType::Arbitrary => {
                let rebuild: Rebuild = self.to_state();
                self.waiting = true;
                Some(
                    RpdqJob {
                        rebuild,
                        call: KernelCall::Apply(gate, target),
                        dither: self.reset_index,
                    },
                )
            },
        }
    }

    /// Apply a gate controlled by one qubit. A controlled X updates the tableau only; other
    /// gates call for dense work under the current reset number.
    pub fn apply_controlled_gate(&mut self, gate: Gate, control: usize, target: usize) -> (work:
        Option<RpdqJob>)
        requires
            old(self).wf(),
            !old(self)@.waiting,
            old(self)@.can_count(),
            control < old(self)@.n,
            target < old(self)@.n,
        ensures
            final(self).wf(),
            final(self)@ == after_controlled(old(self)@, gate, control, target),
            work_view(work) == controlled_work(old(self)@, gate, control, target),
    {
        self.total_gates = self.total_gates + 1;
        match gate {
            Gate::X => {
                frame::record_op(
                    &mut self.tableau,
                    &mut self.clifford_ops,
                    CliffordOp::CNOT(control, target),
                );
                None
            },
            _ => {
                let rebuild: Rebuild = self.to_state();
                self.waiting = true;
                Some(
                    RpdqJob {
                        rebuild,
                        call: KernelCall::Controlled(gate, control, target),
                        dither: self.reset_index,
                    },
                )
            },
        }
    }

    /// Call for a reset: rebuild the statevector under the reset number so far, apply the
    /// pending gate, and compress under the next one.
    pub fn rpdq_reset(&mut self, pending_gate: Gate, pending_target: usize) -> (job: RpdqJob)
        requires
            old(self).wf(),
            !old(self)@.waiting,
            old(self)@.decompressions < usize::MAX,
            old(self)@.reset_index < u64::MAX,
        ensures
            final(self).wf(),
            final(self)@ == reset_begun(old(self)@),
            job@ == job_of(
                old(self)@,
                KernelCall::Apply(pending_gate, pending_target),
                (old(self)@.reset_index + 1) as u64,
            ),
    {
        let rebuild: Rebuild = self.to_state();
        self.reset_index = self.reset_index + 1;
        self.waiting = true;
        RpdqJob {
            rebuild,
            call: KernelCall::Apply(pending_gate, pending_target),
            dither: self.reset_index,
        }
    }

    /// Commit a reset: replace the compressed state and the residual, and note the norm of the
    /// residual and the fidelity estimate. The tableau and the record stay as they are.
    pub fn commit_reset(&mut self, outcome: Outcome)
        requires
            old(self).wf(),
            outcome.on(old(self)@.n),
        ensures
            final(self).wf(),
            final(self)@ == committed(old(self)@, outcome),
            final(self).tableau == old(self).tableau,
    {
        self.compressed = outcome.compressed;
        self.residual_re = outcome.residual_re;
        self.residual_im = outcome.residual_im;
        self.residual_norms.push(outcome.residual_norm);
        self.fidelity_estimates.push(outcome.fidelity);
    }

    /// Empty the record and the count of T gates, and set the tableau to the identity, after a
    /// reset was committed.
    pub fn clear_record(&mut self)
        requires
            old(self).wf(),
            old(self)@.waiting,
        ensures
            final(self).wf(),
            final(self)@ == cleared(old(self)@),
            final(self).tableau@ == tableau::identity_rows(old(self)@.n),
    {
        self.tableau = CliffordTableau::new(self.n_qubits);
        self.clifford_ops = Vec::new();
        self.t_gate_count = 0;
        self.waiting = false;
        proof {
            group::lemma_empty_circuit(self.n_qubits as nat);
            assert(self.clifford_ops@ =~= Seq::empty());
        }
    }

    /// Take the outcome of dense work: commit it and clear the record.
    pub fn install(&mut self, outcome: Outcome)
        requires
            old(self).wf(),
            old(self)@.waiting,
            outcome.on(old(self)@.n),
        ensures
            final(self).wf(),
            final(self)@ == after_install(old(self)@, outcome),
            final(self).tableau@ == tableau::identity_rows(old(self)@.n),
    {
        self.commit_reset(outcome);
        self.clear_record();
    }

    /// Call for the full statevector.
    pub fn to_state(&mut self) -> (rebuild: Rebuild)
        requires
            old(self).wf(),
            old(self)@.decompressions < usize::MAX,
        ensures
            final(self).wf(),
            final(self)@ == counted(old(self)@),
            final(self).tableau == old(self).tableau,
            rebuild.undither == old(self)@.reset_index,
            rebuild.replay@ == gates::kernel_calls(old(self)@.ops),
    {
        self.decompression_count = self.decompression_count + 1;
        Rebuild { undither: self.reset_index, replay: gates::replay(&self.clifford_ops) }
    }

    /// A copy of the packed indices.
    pub fn compressed_bytes(&self) -> (bytes: Vec<u8>)
        ensures
            bytes@ == self.compressed.packed_indices@,
    {
        vstd::slice::slice_to_vec(&self.compressed.packed_indices)
    }
}

/// The dither that a job undoes is the one under which the compressed state was stored: it is
/// the reset number of the books, and the job stores its outcome under the reset number that
/// the books have afterwards.
pub proof fn law_dither_is_undone(b: RpdqBooks, gate: Gate, target: usize, o: Outcome)
    requires
        gate_work(b, gate, target) is Some,
        b.reset_index < u64::MAX,
    ensures
        ({
            let job = gate_work(b, gate, target).unwrap();
            let stored = after_install(after_gate(b, gate, target), o);
            &&& job.undither == b.reset_index
            &&& job.dither == stored.reset_index
        }),
{
}

/// The same holds of a controlled gate.
pub proof fn law_dither_is_undone_controlled(
    b: RpdqBooks,
    gate: Gate,
    control: usize,
    target: usize,
    o: Outcome,
)
    requires
        controlled_work(b, gate, control, target) is Some,
    ensures
        ({
            let job = controlled_work(b, gate, control, target).unwrap();
            let stored = after_install(after_controlled(b, gate, control, target), o);
            &&& job.undither == b.reset_index
            &&& job.dither == stored.reset_index
        }),
{
}

/// The statevector that the books stand for: what the record makes of the state that is
/// rebuilt from the compressed state and the residual under the current reset number.
pub open spec fn represented<S>(
    b: RpdqBooks,
    rebuild: spec_fn(CompressedState, Seq<u64>, Seq<u64>, u64) -> S,
    act: spec_fn(S, KernelCall) -> S,
) -> S {
    gates::performed(
        rebuild(b.compressed, b.residual_re, b.residual_im, b.reset_index),
        gates::kernel_calls(b.ops),
        act,
    )
}

/// A gate that is absorbed is applied: whatever rebuilding does, the statevector that the
/// books stand for afterwards is the one before with this gate applied.
pub proof fn law_absorbed_gate_is_applied<S>(
    b: RpdqBooks,
    gate: Gate,
    target: usize,
    rebuild: spec_fn(CompressedState, Seq<u64>, Seq<u64>, u64) -> S,
    act: spec_fn(S, KernelCall) -> S,
)
    requires
        frame::faithful(act),
        gate_work(b, gate, target) is None,
    ensures
        represented(after_gate(b, gate, target), rebuild, act) == act(
            represented(b, rebuild, act),
            KernelCall::Apply(gate, target),
        ),
{
    assert(b.ops.push(frame::waiting_op(gate, target)) =~= b.ops + seq![
        frame::waiting_op(gate, target),
    ]);
    let start = rebuild(b.compressed, b.residual_re, b.residual_im, b.reset_index);
    frame::law_absorbed_gate_extends_record(start, b.ops, gate, target, act);
}

/// Dense work applies its gate to the statevector that the books stood for.
pub proof fn law_dense_work_applies_gate<S>(
    b: RpdqBooks,
    gate: Gate,
    target: usize,
    rebuild: spec_fn(CompressedState, Seq<u64>, Seq<u64>, u64) -> S,
    act: spec_fn(S, KernelCall) -> S,
)
    requires
        gate_work(b, gate, target) is Some,
    ensures
        ({
            let job = gate_work(b, gate, target).unwrap();
            act(
                gates::performed(
                    rebuild(b.compressed, b.residual_re, b.residual_im, job.undither),
                    job.replay,
                    act,
                ),
                job.call,
            ) == act(represented(b, rebuild, act), KernelCall::Apply(gate, target))
        }),
{
}

/// Controlled gates are applied in the same way, absorbed or by dense work.
pub proof fn law_controlled_gate_is_applied<S>(
    b: RpdqBooks,
    gate: Gate,
    control: usize,
    target: usize,
    rebuild: spec_fn(CompressedState, Seq<u64>, Seq<u64>, u64) -> S,
    act: spec_fn(S, KernelCall) -> S,
)
    ensures
        match controlled_work(b, gate, control, target) {
            Some(job) => act(
                gates::performed(
                    rebuild(b.compressed, b.residual_re, b.residual_im, job.undither),
                    job.replay,
                    act,
                ),
                job.call,
            ) == act(
                represented(b, rebuild, act),
                KernelCall::Controlled(gate, control, target),
            ),
            None => represented(after_controlled(b, gate, control, target), rebuild, act) == act(
                represented(b, rebuild, act),
                KernelCall::Controlled(gate, control, target),
            ),
        },
{
    if gate == Gate::X {
        let start = rebuild(b.compressed, b.residual_re, b.residual_im, b.reset_index);
        frame::law_controlled_x_extends_record(start, b.ops, control, target, act);
    }
}

/// The books after a gate or a controlled gate.
pub open spec fn after_call(b: RpdqBooks, call: KernelCall) -> RpdqBooks {
    match call {
        KernelCall::Apply(gate, target) => after_gate(b, gate, target),
        KernelCall::Controlled(gate, control, target) => after_controlled(
            b,
            gate,
            control,
            target,
        ),
    }
}

/// The books once the outcome of the dense work that was called for, if any, is in.
pub open spec fn after_work(b: RpdqBooks, outcome: Outcome) -> RpdqBooks {
    if b.waiting {
        after_install(b, outcome)
    } else {
        b
    }
}

/// The books after a circuit, with the outcomes of the dense work that it calls for.
pub open spec fn after_circuit(
    b: RpdqBooks,
    circuit: Seq<KernelCall>,
    outcomes: Seq<Outcome>,
) -> RpdqBooks
    decreases circuit.len(),
{
    if circuit.len() == 0 {
        b
    } else {
        let p = after_circuit(b, circuit.drop_last(), outcomes);
        after_work(after_call(p, circuit.last()), outcomes[circuit.len() - 1])
    }
}

/// Clifford circuits never touch the statevector: after any number of Clifford gates, controlled
/// X among them, the compressed state, the residual and the reset number are those before.
pub proof fn law_clifford_circuits_keep_statevector(
    b: RpdqBooks,
    circuit: Seq<KernelCall>,
    outcomes: Seq<Outcome>,
)
    requires
        !b.waiting,
        forall|i: int|
            0 <= i < circuit.len() ==> frame::is_clifford_call(#[trigger] circuit[i]),
    ensures
        ({
            let r = after_circuit(b, circuit, outcomes);
            &&& r.compressed == b.compressed
            &&& r.residual_re == b.residual_re
            &&& r.residual_im == b.residual_im
            &&& r.reset_index == b.reset_index
            &&& r.residual_norms == b.residual_norms
            &&& r.fidelity_estimates == b.fidelity_estimates
            &&& r.decompressions == b.decompressions
            &&& r.t_gates == b.t_gates
            &&& r.total == b.total + circuit.len()
            &&& !r.waiting
        }),
    decreases circuit.len(),
{
    if circuit.len() > 0 {
        let init = circuit.drop_last();
        assert(forall|i: int| 0 <= i < init.len() ==> #[trigger] init[i] == circuit[i]);
        law_clifford_circuits_keep_statevector(b, init, outcomes);
        assert(frame::is_clifford_call(circuit[circuit.len() - 1]));
    }
}

/// With a threshold of one, every T gate of a circuit of Clifford and T gates brings on exactly
/// one reset, which notes one residual norm and one fidelity estimate.
pub proof fn law_one_reset_per_t_gate(
    b: RpdqBooks,
    circuit: Seq<KernelCall>,
    outcomes: Seq<Outcome>,
)
    requires
        !b.waiting,
        b.threshold <= 1,
        b.t_gates >= 0,
        b.reset_index + frame::t_calls_in(circuit) <= u64::MAX,
        forall|i: int|
            0 <= i < circuit.len() ==> frame::is_clifford_call(#[trigger] circuit[i])
                || frame::is_t_call(circuit[i]),
    ensures
        ({
            let r = after_circuit(b, circuit, outcomes);
            &&& r.reset_index == b.reset_index + frame::t_calls_in(circuit)
            &&& r.decompressions == b.decompressions + frame::t_calls_in(circuit)
            &&& r.residual_norms.len() == b.residual_norms.len() + frame::t_calls_in(circuit)
            &&& r.fidelity_estimates.len() == b.fidelity_estimates.len() + frame::t_calls_in(
                circuit,
            )
            &&& r.total == b.total + circuit.len()
            &&& r.threshold == b.threshold
            &&& r.t_gates >= 0
            &&& !r.waiting
        }),
    decreases circuit.len(),
{
    if circuit.len() > 0 {
        let init = circuit.drop_last();
        let last = circuit[circuit.len() - 1];
        assert(forall|i: int| 0 <= i < init.len() ==> #[trigger] init[i] == circuit[i]);
        law_one_reset_per_t_gate(b, init, outcomes);
        assert(frame::is_clifford_call(last) || frame::is_t_call(last));
    }
}

/// Between resets the count of T gates is the number of T gates that wait in the record, and
/// it stays below the threshold. With a threshold of zero no T gate ever waits.
pub proof fn law_t_count_is_queue_length(
    b: RpdqBooks,
    circuit: Seq<KernelCall>,
    outcomes: Seq<Outcome>,
)
    requires
        !b.waiting,
        b.t_gates == frame::t_gates_waiting(b.ops),
        b.t_gates < b.threshold || b.t_gates == 0,
    ensures
        ({
            let r = after_circuit(b, circuit, outcomes);
            &&& r.t_gates == frame::t_gates_waiting(r.ops)
            &&& r.t_gates < r.threshold || r.t_gates == 0
            &&& r.threshold == b.threshold
            &&& !r.waiting
        }),
    decreases circuit.len(),
{
    if circuit.len() > 0 {
        law_t_count_is_queue_length(b, circuit.drop_last(), outcomes);
        let p = after_circuit(b, circuit.drop_last(), outcomes);
        match circuit.last() {
            KernelCall::Apply(gate, target) => {
                frame::lemma_recorded_does_not_wait(p.ops, gate, target);
                frame::lemma_push_waiting(p.ops, frame::waiting_op(gate, target));
            },
            KernelCall::Controlled(_, control, target) => {
                frame::lemma_push_waiting(p.ops, CliffordOp::CNOT(control, target));
            },
        }
    }
}

/// The outcome of the dense work that a call brings on, if any, is rebuilt, under the reset
/// number that it was stored with, to what the dense work made. The residual is there to make
/// this so.
pub open spec fn lossless_call<S>(
    b: RpdqBooks,
    call: KernelCall,
    outcome: Outcome,
    rebuild: spec_fn(CompressedState, Seq<u64>, Seq<u64>, u64) -> S,
    act: spec_fn(S, KernelCall) -> S,
) -> bool {
    after_call(b, call).waiting ==> rebuild(
        outcome.compressed,
        outcome.residual_re@,
        outcome.residual_im@,
        after_call(b, call).reset_index,
    ) == act(represented(b, rebuild, act), call)
}

/// A call is executed, absorbed or by dense work that loses nothing: the statevector that the
/// books stand for afterwards is the one before with this call made.
pub proof fn law_call_is_executed<S>(
    b: RpdqBooks,
    call: KernelCall,
    outcome: Outcome,
    rebuild: spec_fn(CompressedState, Seq<u64>, Seq<u64>, u64) -> S,
    act: spec_fn(S, KernelCall) -> S,
)
    requires
        !b.waiting,
        frame::faithful(act),
        lossless_call(b, call, outcome, rebuild, act),
    ensures
        !after_work(after_call(b, call), outcome).waiting,
        represented(after_work(after_call(b, call), outcome), rebuild, act) == act(
            represented(b, rebuild, act),
            call,
        ),
{
    match call {
        KernelCall::Apply(gate, target) => {
            if gate_work(b, gate, target) is None {
                law_absorbed_gate_is_applied(b, gate, target, rebuild, act);
            }
        },
        KernelCall::Controlled(gate, control, target) => {
            law_controlled_gate_is_applied(b, gate, control, target, rebuild, act);
        },
    }
    let q = after_call(b, call);
    if q.waiting {
        assert(gates::kernel_calls(after_install(q, outcome).ops) =~= Seq::empty());
    }
}

/// No outcome of dense work in a circuit loses anything.
pub open spec fn lossless<S>(
    b: RpdqBooks,
    circuit: Seq<KernelCall>,
    outcomes: Seq<Outcome>,
    rebuild: spec_fn(CompressedState, Seq<u64>, Seq<u64>, u64) -> S,
    act: spec_fn(S, KernelCall) -> S,
) -> bool
    decreases circuit.len(),
{
    circuit.len() > 0 ==> {
        let p = after_circuit(b, circuit.drop_last(), outcomes);
        &&& lossless(b, circuit.drop_last(), outcomes, rebuild, act)
        &&& lossless_call(p, circuit.last(), outcomes[circuit.len() - 1], rebuild, act)
    }
}

/// The simulator executes circuits: where states are rebuilt without loss, the statevector that
/// the books stand for after a circuit is the one before with every gate applied in order.
pub proof fn law_circuit_is_executed<S>(
    b: RpdqBooks,
    circuit: Seq<KernelCall>,
    outcomes: Seq<Outcome>,
    rebuild: spec_fn(CompressedState, Seq<u64>, Seq<u64>, u64) -> S,
    act: spec_fn(S, KernelCall) -> S,
)
    requires
        !b.waiting,
        frame::faithful(act),
        lossless(b, circuit, outcomes, rebuild, act),
    ensures
        !after_circuit(b, circuit, outcomes).waiting,
        represented(after_circuit(b, circuit, outcomes), rebuild, act) == gates::performed(
            represented(b, rebuild, act),
            circuit,
            act,
        ),
    decreases circuit.len(),
{
    if circuit.len() > 0 {
        let p = after_circuit(b, circuit.drop_last(), outcomes);
        law_circuit_is_executed(b, circuit.drop_last(), outcomes, rebuild, act);
        law_call_is_executed(p, circuit.last(), outcomes[circuit.len() - 1], rebuild, act);
    }
}

/// The residual of an approximation: what it lacks of the exact amplitudes.
pub open spec fn residual_of(exact: Seq<real>, approx: Seq<real>) -> Seq<real> {
    Seq::new(exact.len(), |j: int| exact[j] - approx[j])
}

/// An approximation with a residual added.
pub open spec fn corrected(approx: Seq<real>, residual: Seq<real>) -> Seq<real> {
    Seq::new(approx.len(), |j: int| approx[j] + residual[j])
}

/// In exact arithmetic the residual makes rebuilding lossless, whatever the quantizer did:
/// adding it to the approximation gives the exact amplitudes back.
pub proof fn law_residual_restores_amplitudes(exact: Seq<real>, approx: Seq<real>)
    requires
        exact.len() == approx.len(),
    ensures
        corrected(approx, residual_of(exact, approx)) == exact,
{
    assert(corrected(approx, residual_of(exact, approx)) =~= exact);
}

/// A simulator that was just started stands for the state that is rebuilt from its start under
/// reset number 0, however often the statevector is called for.
pub proof fn law_start_is_represented<S>(
    b: RpdqBooks,
    rebuild: spec_fn(CompressedState, Seq<u64>, Seq<u64>, u64) -> S,
    act: spec_fn(S, KernelCall) -> S,
)
    requires
        b.ops == Seq::<CliffordOp>::empty(),
        b.reset_index == 0,
    ensures
        represented(b, rebuild, act) == rebuild(b.compressed, b.residual_re, b.residual_im, 0),
        represented(counted(b), rebuild, act) == represented(b, rebuild, act),
{
    assert(gates::kernel_calls(b.ops) =~= Seq::empty());
}

/// Every gate is counted once, and the settings stay. The statevector is called for by the dense
/// gates, once each, and by the resets, once each.
pub proof fn law_every_gate_is_counted(
    b: RpdqBooks,
    circuit: Seq<KernelCall>,
    outcomes: Seq<Outcome>,
)
    requires
        !b.waiting,
        b.reset_index + frame::t_calls_in(circuit) <= u64::MAX,
    ensures
        ({
            let r = after_circuit(b, circuit, outcomes);
            let resets = r.reset_index - b.reset_index;
            &&& r.total == b.total + circuit.len()
            &&& 0 <= resets <= frame::t_calls_in(circuit)
            &&& r.decompressions == b.decompressions + frame::dense_calls_in(circuit) + resets
            &&& r.rotation_seed == b.rotation_seed
            &&& r.dither_seed == b.dither_seed
            &&& r.residual_norms.len() - b.residual_norms.len() == r.decompressions
                - b.decompressions
            &&& r.fidelity_estimates.len() - b.fidelity_estimates.len() == r.decompressions
                - b.decompressions
            &&& r.threshold == b.threshold
            &&& r.bits == b.bits
            &&& r.n == b.n
            &&& !r.waiting
        }),
    decreases circuit.len(),
{
    if circuit.len() > 0 {
        law_every_gate_is_counted(b, circuit.drop_last(), outcomes);
    }
}

/// Resets come once every threshold of T gates: in a circuit of Clifford and T gates, the T
/// gates are those that wait and as many for each reset as the threshold says.
pub proof fn law_resets_come_every_threshold(
    b: RpdqBooks,
    circuit: Seq<KernelCall>,
    outcomes: Seq<Outcome>,
)
    requires
        !b.waiting,
        0 <= b.t_gates < b.threshold,
        b.reset_index + frame::t_calls_in(circuit) <= u64::MAX,
        forall|i: int|
            0 <= i < circuit.len() ==> frame::is_clifford_call(#[trigger] circuit[i])
                || frame::is_t_call(circuit[i]),
    ensures
        ({
            let r = after_circuit(b, circuit, outcomes);
            &&& b.threshold * (r.reset_index - b.reset_index) + r.t_gates == b.t_gates
                + frame::t_calls_in(circuit)
            &&& 0 <= r.t_gates < b.threshold
        }),
    decreases circuit.len(),
{
    law_every_gate_is_counted(b, circuit, outcomes);
    if circuit.len() > 0 {
        let init = circuit.drop_last();
        let last = circuit[circuit.len() - 1];
        assert(forall|i: int| 0 <= i < init.len() ==> #[trigger] init[i] == circuit[i]);
        law_resets_come_every_threshold(b, init, outcomes);
        law_every_gate_is_counted(b, init, outcomes);
        assert(frame::is_clifford_call(last) || frame::is_t_call(last));
        let p = after_circuit(b, init, outcomes);
        let before = p.reset_index - b.reset_index;
        vstd::arithmetic::mul::lemma_mul_is_distributive_add(b.threshold, before, 1);
    } else {
        vstd::arithmetic::mul::lemma_mul_basics(b.threshold);
    }
}

/// What a commit notes: the norm and the fidelity of its outcome come after those before, and
/// the record, the counts and the reset number are left alone.
pub proof fn law_commit_notes_outcome(b: RpdqBooks, o: Outcome)
    ensures
        ({
            let r = committed(b, o);
            &&& r.compressed == o.compressed
            &&& r.residual_re == o.residual_re@
            &&& r.residual_im == o.residual_im@
            &&& r.residual_norms.last() == o.residual_norm
            &&& r.residual_norms.drop_last() == b.residual_norms
            &&& r.fidelity_estimates.last() == o.fidelity
            &&& r.fidelity_estimates.drop_last() == b.fidelity_estimates
            &&& r.ops == b.ops && r.t_gates == b.t_gates && r.total == b.total
            &&& r.decompressions == b.decompressions && r.reset_index == b.reset_index
            &&& r.waiting == b.waiting
        }),
{
    let r = committed(b, o);
    assert(r.residual_norms.drop_last() =~= b.residual_norms);
    assert(r.fidelity_estimates.drop_last() =~= b.fidelity_estimates);
}

/// A new simulator holds what it was given, has noted the residual of its start, and has counted
/// and recorded nothing.
pub proof fn law_fresh_start(
    o: Outcome,
    bits: u8,
    rotation_seed: u64,
    dither_seed: u64,
    threshold: int,
)
    ensures
        ({
            let b = fresh(o, bits, rotation_seed, dither_seed, threshold);
            &&& b.compressed == o.compressed && b.n == o.compressed.n_qubits
            &&& b.residual_re == o.residual_re@ && b.residual_im == o.residual_im@
            &&& b.bits == bits && b.threshold == threshold
            &&& b.rotation_seed == rotation_seed && b.dither_seed == dither_seed
            &&& b.residual_norms == seq![o.residual_norm] && b.fidelity_estimates.len() == 0
            &&& b.ops.len() == 0 && b.t_gates == 0 && b.total == 0
            &&& b.decompressions == 0 && b.reset_index == 0 && !b.waiting
        }),
{
}

} // verus!
