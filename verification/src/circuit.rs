//! Running circuits: routing the steps of a circuit to the simulators.

use vstd::prelude::*;
use vstd::string::StrSliceExecFns;

use crate::bacqs;
use crate::bacqs::BACQSState;
use crate::bacqs::DenseJob;
use crate::compression::CompressedState;
use crate::frame;
use crate::gates;
use crate::gates::Controls;
use crate::gates::Gate;
use crate::gates::KernelCall;
use crate::gates::Transformation;
use crate::rpdq;
use crate::rpdq::Outcome;
use crate::rpdq::Rebuild;
use crate::rpdq::RpdqBooks;
use crate::rpdq::RpdqJob;
use crate::rpdq::RpdqState;

verus! {

/// A kernel call with any number of controls.
#[derive(Debug)]
pub enum DispatchCall {
    /// No control or one.
    Kernel(KernelCall),
    /// Several controls, of which those in `zeros` must be 0.
    MultiControlled {
        gate: Gate,
        controls: Vec<usize>,
        zeros: Option<Vec<usize>>,
        target: usize,
    },
}

/// A call is the one that performs a gate under controls.
pub open spec fn dispatches(
    call: DispatchCall,
    gate: Gate,
    controls: Controls,
    target: usize,
) -> bool {
    match controls {
        Controls::Free => call == DispatchCall::Kernel(KernelCall::Apply(gate, target)),
        Controls::Single(c) => call == DispatchCall::Kernel(
            KernelCall::Controlled(gate, c, target),
        ),
        Controls::Ones(ones) => {
            &&& call matches DispatchCall::MultiControlled {
                gate: g,
                controls: c,
                zeros: z,
                target: t,
            }
            &&& g == gate
            &&& c@ == ones@
            &&& z is None
            &&& t == target
        },
        Controls::Mixed { controls: all, zeros } => {
            &&& call matches DispatchCall::MultiControlled {
                gate: g,
                controls: c,
                zeros: z,
                target: t,
            }
            &&& g == gate
            &&& c@ == all@
            &&& z matches Some(zs)
            &&& zs@ == zeros@
            &&& t == target
        },
    }
}

/// Choose the kernel call that performs a gate under controls.
pub fn dispatch_gate(gate: &Gate, controls: &Controls, target: usize) -> (call: DispatchCall)
    ensures
        dispatches(call, *gate, *controls, target),
        call_gate(call) == *gate,
        call_target(call) == target,
        forall|basis: spec_fn(usize) -> bool| #[trigger]
            fires(call, basis) == asked(*controls, basis),
{
    let call: DispatchCall = match controls {
        Controls::Free => DispatchCall::Kernel(KernelCall::Apply(*gate, target)),
        Controls::Single(c) => DispatchCall::Kernel(KernelCall::Controlled(*gate, *c, target)),
        Controls::Ones(ones) => DispatchCall::MultiControlled {
            gate: *gate,
            controls: vstd::slice::slice_to_vec(ones),
            zeros: None,
            target,
        },
        Controls::Mixed { controls: all, zeros } => DispatchCall::MultiControlled {
            gate: *gate,
            controls: vstd::slice::slice_to_vec(all),
            zeros: Some(vstd::slice::slice_to_vec(zeros)),
            target,
        },
    };
    proof {
        law_call_fires_where_asked(call, *gate, *controls, target);
    }
    call
}

/// What a call applies.
pub open spec fn call_gate(call: DispatchCall) -> Gate {
    match call {
        DispatchCall::Kernel(KernelCall::Apply(gate, _)) => gate,
        DispatchCall::Kernel(KernelCall::Controlled(gate, _, _)) => gate,
        DispatchCall::MultiControlled { gate, .. } => gate,
    }
}

/// The qubit that a call applies its gate to.
pub open spec fn call_target(call: DispatchCall) -> usize {
    match call {
        DispatchCall::Kernel(KernelCall::Apply(_, target)) => target,
        DispatchCall::Kernel(KernelCall::Controlled(_, _, target)) => target,
        DispatchCall::MultiControlled { target, .. } => target,
    }
}

/// Whether a call applies its gate on a basis state, which is given by its bits: each control
/// among the zeros must be 0, and each other control must be 1.
pub open spec fn fires(call: DispatchCall, basis: spec_fn(usize) -> bool) -> bool {
    match call {
        DispatchCall::Kernel(KernelCall::Apply(_, _)) => true,
        DispatchCall::Kernel(KernelCall::Controlled(_, c, _)) => basis(c),
        DispatchCall::MultiControlled { controls, zeros, .. } => forall|i: int|
            0 <= i < controls@.len() ==> basis(#[trigger] controls@[i]) == !(zeros is Some
                && zeros.unwrap()@.contains(controls@[i])),
    }
}

/// Whether controls ask for their gate on a basis state.
pub open spec fn asked(controls: Controls, basis: spec_fn(usize) -> bool) -> bool {
    match controls {
        Controls::Free => true,
        Controls::Single(c) => basis(c),
        Controls::Ones(ones) => forall|i: int| 0 <= i < ones@.len() ==> basis(#[trigger] ones@[i]),
        Controls::Mixed { controls: all, zeros } => forall|i: int|
            0 <= i < all@.len() ==> if zeros@.contains(#[trigger] all@[i]) {
                !basis(all@[i])
            } else {
                basis(all@[i])
            },
    }
}

/// A call that performs a gate under controls applies that gate to that target, on exactly the
/// basis states that the controls ask for.
pub proof fn law_call_fires_where_asked(
    call: DispatchCall,
    gate: Gate,
    controls: Controls,
    target: usize,
)
    requires
        dispatches(call, gate, controls, target),
    ensures
        call_gate(call) == gate,
        call_target(call) == target,
        forall|basis: spec_fn(usize) -> bool| #[trigger]
            fires(call, basis) == asked(controls, basis),
{
    assert forall|basis: spec_fn(usize) -> bool| #[trigger] fires(call, basis) == asked(
        controls,
        basis,
    ) by {
        match controls {
            Controls::Ones(ones) => {
                if fires(call, basis) {
                    assert forall|i: int| 0 <= i < ones@.len() implies basis(
                        #[trigger] ones@[i],
                    ) by {
                        if let DispatchCall::MultiControlled { controls: c, .. } = call {
                            assert(basis(c@[i]));
                        }
                    }
                }
            },
            Controls::Mixed { controls: all, zeros } => {
                if fires(call, basis) {
                    assert forall|i: int| 0 <= i < all@.len() implies if zeros@.contains(
                        #[trigger] all@[i],
                    ) {
                        !basis(all@[i])
                    } else {
                        basis(all@[i])
                    } by {
                        if let DispatchCall::MultiControlled { controls: c, zeros: z, .. } = call {
                            assert(basis(c@[i]) == !z.unwrap()@.contains(c@[i]));
                        }
                    }
                }
            },
            _ => {},
        }
    }
}

/// The number of qubits in the first `k` registers.
pub open spec fn register_sum(registers: Seq<usize>, k: nat) -> nat
    decreases k,
{
    if k == 0 {
        0
    } else {
        register_sum(registers, (k - 1) as nat) + registers[k - 1] as nat
    }
}

proof fn lemma_register_sum_increases(registers: Seq<usize>, j: nat, k: nat)
    requires
        j <= k,
    ensures
        register_sum(registers, j) <= register_sum(registers, k),
    decreases k,
{
    if j < k {
        lemma_register_sum_increases(registers, j, (k - 1) as nat);
    }
}

/// The number of qubits of a circuit with these quantum registers.
pub fn get_circuit_qubits(registers: &[usize]) -> (n: usize)
    requires
        register_sum(registers@, registers@.len()) <= usize::MAX,
    ensures
        n == register_sum(registers@, registers@.len()),
{
    let mut n: usize = 0;
    for i in 0..registers.len()
        invariant
            register_sum(registers@, registers@.len()) <= usize::MAX,
            n == register_sum(registers@, i as nat),
    {
        proof {
            lemma_register_sum_increases(registers@, (i + 1) as nat, registers@.len());
        }
        n = n + registers[i];
    }
    n
}

/// What a step of a circuit calls for in the basis-adaptive simulator.
#[derive(Debug)]
pub enum BacqsWork {
    /// Nothing: the tableau or the record has taken it in.
    Absorbed,
    /// Dense work, whose outcome is to be installed.
    Dense(DenseJob),
    /// Several controls: decompress, replay, make the call, and start a new simulator.
    Restart { replay: Vec<KernelCall>, call: DispatchCall },
}

/// A step acts on qubits of the circuit.
pub open spec fn step_in_range(tr: Transformation, n: nat) -> bool {
    match tr.controls {
        Controls::Free => frame::gate_in_range(tr.gate, tr.target, n),
        Controls::Single(c) => c < n && tr.target < n,
        _ => true,
    }
}

/// Tell whether a step acts on qubits of the circuit.
pub fn is_step_in_range(tr: &Transformation, n: usize) -> (r: bool)
    ensures
        r == step_in_range(*tr, n as nat),
{
    match &tr.controls {
        Controls::Free => match tr.gate {
            Gate::SWAP(a, b) => a < n && b < n,
            _ => tr.target < n,
        },
        Controls::Single(c) => *c < n && tr.target < n,
        _ => true,
    }
}

/// Route one step of a circuit to the basis-adaptive simulator.
pub fn bacqs_step(s: &mut BACQSState, tr: &Transformation) -> (work: BacqsWork)
    requires
        old(s).wf(),
        !old(s)@.waiting,
        old(s)@.can_count(),
        step_in_range(*tr, old(s)@.n),
    ensures
        final(s).wf(),
        match tr.controls {
            Controls::Free => {
                &&& final(s)@ == bacqs::after_gate(old(s)@, tr.gate, tr.target)
                &&& match bacqs::gate_work(old(s)@, tr.gate, tr.target) {
                    None => work is Absorbed,
                    Some(job) => work matches BacqsWork::Dense(j) && j@ == job,
                }
            },
            Controls::Single(c) => {
                &&& final(s)@ == bacqs::after_controlled(old(s)@, tr.gate, c, tr.target)
                &&& match bacqs::controlled_work(old(s)@, tr.gate, c, tr.target) {
                    None => work is Absorbed,
                    Some(job) => work matches BacqsWork::Dense(j) && j@ == job,
                }
            },
            _ => {
                &&& final(s)@ == bacqs::counted(old(s)@)
                &&& work matches BacqsWork::Restart { replay, call }
                &&& replay@ == gates::kernel_calls(old(s)@.ops)
                &&& dispatches(call, tr.gate, tr.controls, tr.target)
            },
        },
        match step_call(*tr) {
            Some(call) => {
                &&& final(s)@ == bacqs::after_call(old(s)@, call)
                &&& work is Dense <==> final(s)@.waiting
                &&& work matches BacqsWork::Dense(job) ==> job@ == (
                    gates::kernel_calls(old(s)@.ops),
                    call,
                )
                &&& !(work is Restart)
            },
            None => work is Restart,
        },
{
    match &tr.controls {
        Controls::Free => {
            match s.apply_gate(tr.gate, tr.target) {
                None => BacqsWork::Absorbed,
                Some(job) => BacqsWork::Dense(job),
            }
        },
        Controls::Single(c) => {
            match s.apply_controlled_gate(tr.gate, *c, tr.target) {
                None => BacqsWork::Absorbed,
                Some(job) => BacqsWork::Dense(job),
            }
        },
        _ => {
            let replay: Vec<KernelCall> = s.to_state();
            let call: DispatchCall = dispatch_gate(&tr.gate, &tr.controls, tr.target);
            BacqsWork::Restart { replay, call }
        },
    }
}

/// The books after a restart: those of a new simulator on the outcome, with the bit width and
/// the seed of the one before, in which every T gate brings on a reset.
pub open spec fn bacqs_restarted(b: bacqs::Books, compressed: CompressedState) -> bacqs::Books {
    bacqs::fresh(compressed, b.bits, b.seed, 1)
}

/// Start the basis-adaptive simulator anew on the outcome of a step with several controls.
pub fn bacqs_restart(s: &BACQSState, compressed: CompressedState) -> (fresh: BACQSState)
    requires
        s.wf(),
        compressed.wf(),
        compressed.n_qubits == s@.n,
    ensures
        fresh.wf(),
        fresh@ == bacqs_restarted(s@, compressed),
{
    BACQSState::new(compressed, s.bits, s.seed, 1)
}

/// What a step of a circuit calls for in the residual-predictive simulator.
#[derive(Debug)]
pub enum RpdqWork {
    /// Nothing: the tableau or the record has taken it in.
    Absorbed,
    /// Dense work, whose outcome is to be committed.
    Dense(RpdqJob),
    /// Several controls: rebuild, make the call, and start a new simulator.
    Restart { rebuild: Rebuild, call: DispatchCall },
}

/// Route one step of a circuit to the residual-predictive simulator.
pub fn rpdq_step(s: &mut RpdqState, tr: &Transformation) -> (work: RpdqWork)
    requires
        old(s).wf(),
        !old(s)@.waiting,
        old(s)@.can_count(),
        step_in_range(*tr, old(s)@.n),
    ensures
        final(s).wf(),
        match tr.controls {
            Controls::Free => {
                &&& final(s)@ == rpdq::after_gate(old(s)@, tr.gate, tr.target)
                &&& match rpdq::gate_work(old(s)@, tr.gate, tr.target) {
                    None => work is Absorbed,
                    Some(job) => work matches RpdqWork::Dense(j) && j@ == job,
                }
            },
            Controls::Single(c) => {
                &&& final(s)@ == rpdq::after_controlled(old(s)@, tr.gate, c, tr.target)
                &&& match rpdq::controlled_work(old(s)@, tr.gate, c, tr.target) {
                    None => work is Absorbed,
                    Some(job) => work matches RpdqWork::Dense(j) && j@ == job,
                }
            },
            _ => {
                &&& final(s)@ == rpdq::counted(old(s)@)
                &&& work matches RpdqWork::Restart { rebuild, call }
                &&& rebuild.undither == old(s)@.reset_index
                &&& rebuild.replay@ == gates::kernel_calls(old(s)@.ops)
                &&& dispatches(call, tr.gate, tr.controls, tr.target)
            },
        },
        match step_call(*tr) {
            Some(call) => {
                &&& final(s)@ == rpdq::after_call(old(s)@, call)
                &&& work is Dense <==> final(s)@.waiting
                &&& work matches RpdqWork::Dense(job) ==> job@ == rpdq::job_of(
                    old(s)@,
                    call,
                    final(s)@.reset_index,
                )
                &&& !(work is Restart)
            },
            None => work is Restart,
        },
{
    match &tr.controls {
        Controls::Free => {
            match s.apply_gate(tr.gate, tr.target) {
                None => RpdqWork::Absorbed,
                Some(job) => RpdqWork::Dense(job),
            }
        },
        Controls::Single(c) => {
            match s.apply_controlled_gate(tr.gate, *c, tr.target) {
                None => RpdqWork::Absorbed,
                Some(job) => RpdqWork::Dense(job),
            }
        },
        _ => {
            let rebuild: Rebuild = s.to_state();
            let call: DispatchCall = dispatch_gate(&tr.gate, &tr.controls, tr.target);
            RpdqWork::Restart { rebuild, call }
        },
    }
}

/// The books after a restart: those of a new simulator on the outcome, with the bit width and
/// the seeds of the one before, in which every T gate brings on a reset.
pub open spec fn rpdq_restarted(b: RpdqBooks, start: Outcome) -> RpdqBooks {
    rpdq::fresh(start, b.bits, b.rotation_seed, b.dither_seed, 1)
}

/// Start the residual-predictive simulator anew on the outcome of a step with several controls,
/// which is compressed with reset number 0.
pub fn rpdq_restart(s: &RpdqState, start: Outcome) -> (fresh: RpdqState)
    requires
        s.wf(),
        start.on(s@.n),
    ensures
        fresh.wf(),
        fresh@ == rpdq_restarted(s@, start),
{
    RpdqState::new(start, s.bits, s.rotation_seed, s.dither_seed, 1)
}

/// The kernel call of a step with no control or one. A step with several controls has none.
pub open spec fn step_call(tr: Transformation) -> Option<KernelCall> {
    match tr.controls {
        Controls::Free => Some(KernelCall::Apply(tr.gate, tr.target)),
        Controls::Single(c) => Some(KernelCall::Controlled(tr.gate, c, tr.target)),
        _ => None,
    }
}

/// What a step makes of a statevector, given what a kernel call and what a step with several
/// controls make of it.
pub open spec fn acted<S>(
    s: S,
    tr: Transformation,
    act: spec_fn(S, KernelCall) -> S,
    act_multi: spec_fn(S, Transformation) -> S,
) -> S {
    match step_call(tr) {
        Some(call) => act(s, call),
        None => act_multi(s, tr),
    }
}

/// What the steps of a circuit make of a statevector, in order.
pub open spec fn all_acted<S>(
    s: S,
    steps: Seq<Transformation>,
    act: spec_fn(S, KernelCall) -> S,
    act_multi: spec_fn(S, Transformation) -> S,
) -> S
    decreases steps.len(),
{
    if steps.len() == 0 {
        s
    } else {
        acted(all_acted(s, steps.drop_last(), act, act_multi), steps.last(), act, act_multi)
    }
}

/// The books of the basis-adaptive simulator after a step, with the outcome of the work that it
/// calls for.
pub open spec fn bacqs_after_step(
    b: bacqs::Books,
    tr: Transformation,
    outcome: CompressedState,
) -> bacqs::Books {
    match step_call(tr) {
        Some(call) => bacqs::after_work(bacqs::after_call(b, call), outcome),
        None => bacqs_restarted(b, outcome),
    }
}

/// The books of the basis-adaptive simulator after the steps of a circuit.
pub open spec fn bacqs_after_steps(
    b: bacqs::Books,
    steps: Seq<Transformation>,
    outcomes: Seq<CompressedState>,
) -> bacqs::Books
    decreases steps.len(),
{
    if steps.len() == 0 {
        b
    } else {
        bacqs_after_step(
            bacqs_after_steps(b, steps.drop_last(), outcomes),
            steps.last(),
            outcomes[steps.len() - 1],
        )
    }
}

/// The outcome of the work that a step calls for, if any, decompresses to what the work made.
pub open spec fn bacqs_lossless_step<S>(
    b: bacqs::Books,
    tr: Transformation,
    outcome: CompressedState,
    decompress: spec_fn(CompressedState) -> S,
    act: spec_fn(S, KernelCall) -> S,
    act_multi: spec_fn(S, Transformation) -> S,
) -> bool {
    match step_call(tr) {
        Some(call) => bacqs::lossless_call(b, call, outcome, decompress, act),
        None => decompress(outcome) == act_multi(bacqs::represented(b, decompress, act), tr),
    }
}

/// No step of a circuit loses anything.
pub open spec fn bacqs_lossless_steps<S>(
    b: bacqs::Books,
    steps: Seq<Transformation>,
    outcomes: Seq<CompressedState>,
    decompress: spec_fn(CompressedState) -> S,
    act: spec_fn(S, KernelCall) -> S,
    act_multi: spec_fn(S, Transformation) -> S,
) -> bool
    decreases steps.len(),
{
    steps.len() > 0 ==> {
        let p = bacqs_after_steps(b, steps.drop_last(), outcomes);
        &&& bacqs_lossless_steps(b, steps.drop_last(), outcomes, decompress, act, act_multi)
        &&& bacqs_lossless_step(
            p,
            steps.last(),
            outcomes[steps.len() - 1],
            decompress,
            act,
            act_multi,
        )
    }
}

/// The basis-adaptive simulator executes circuits step by step, gates with several
/// controls among them: where compression loses nothing, the statevector that the books stand
/// for afterwards is the one before with every step taken in order.
pub proof fn law_bacqs_steps_are_executed<S>(
    b: bacqs::Books,
    steps: Seq<Transformation>,
    outcomes: Seq<CompressedState>,
    decompress: spec_fn(CompressedState) -> S,
    act: spec_fn(S, KernelCall) -> S,
    act_multi: spec_fn(S, Transformation) -> S,
)
    requires
        !b.waiting,
        frame::faithful(act),
        bacqs_lossless_steps(b, steps, outcomes, decompress, act, act_multi),
    ensures
        !bacqs_after_steps(b, steps, outcomes).waiting,
        bacqs::represented(bacqs_after_steps(b, steps, outcomes), decompress, act) == all_acted(
            bacqs::represented(b, decompress, act),
            steps,
            act,
            act_multi,
        ),
    decreases steps.len(),
{
    if steps.len() > 0 {
        let p = bacqs_after_steps(b, steps.drop_last(), outcomes);
        let outcome = outcomes[steps.len() - 1];
        law_bacqs_steps_are_executed(b, steps.drop_last(), outcomes, decompress, act, act_multi);
        match step_call(steps.last()) {
            Some(call) => {
                bacqs::law_call_is_executed(p, call, outcome, decompress, act);
            },
            None => {
                assert(gates::kernel_calls(bacqs_restarted(p, outcome).ops) =~= Seq::empty());
            },
        }
    }
}

/// The books of the residual-predictive simulator after a step, with the outcome of the work
/// that it calls for.
pub open spec fn rpdq_after_step(
    b: RpdqBooks,
    tr: Transformation,
    outcome: Outcome,
) -> RpdqBooks {
    match step_call(tr) {
        Some(call) => rpdq::after_work(rpdq::after_call(b, call), outcome),
        None => rpdq_restarted(b, outcome),
    }
}

/// The books of the residual-predictive simulator after the steps of a circuit.
pub open spec fn rpdq_after_steps(
    b: RpdqBooks,
    steps: Seq<Transformation>,
    outcomes: Seq<Outcome>,
) -> RpdqBooks
    decreases steps.len(),
{
    if steps.len() == 0 {
        b
    } else {
        rpdq_after_step(
            rpdq_after_steps(b, steps.drop_last(), outcomes),
            steps.last(),
            outcomes[steps.len() - 1],
        )
    }
}

/// The outcome of the work that a step calls for, if any, is rebuilt to what the work made. After
/// a restart the reset number is 0.
pub open spec fn rpdq_lossless_step<S>(
    b: RpdqBooks,
    tr: Transformation,
    outcome: Outcome,
    rebuild: spec_fn(CompressedState, Seq<u64>, Seq<u64>, u64) -> S,
    act: spec_fn(S, KernelCall) -> S,
    act_multi: spec_fn(S, Transformation) -> S,
) -> bool {
    match step_call(tr) {
        Some(call) => rpdq::lossless_call(b, call, outcome, rebuild, act),
        None => rebuild(outcome.compressed, outcome.residual_re@, outcome.residual_im@, 0)
            == act_multi(rpdq::represented(b, rebuild, act), tr),
    }
}

/// No step of a circuit loses anything.
pub open spec fn rpdq_lossless_steps<S>(
    b: RpdqBooks,
    steps: Seq<Transformation>,
    outcomes: Seq<Outcome>,
    rebuild: spec_fn(CompressedState, Seq<u64>, Seq<u64>, u64) -> S,
    act: spec_fn(S, KernelCall) -> S,
    act_multi: spec_fn(S, Transformation) -> S,
) -> bool
    decreases steps.len(),
{
    steps.len() > 0 ==> {
        let p = rpdq_after_steps(b, steps.drop_last(), outcomes);
        &&& rpdq_lossless_steps(b, steps.drop_last(), outcomes, rebuild, act, act_multi)
        &&& rpdq_lossless_step(
            p,
            steps.last(),
            outcomes[steps.len() - 1],
            rebuild,
            act,
            act_multi,
        )
    }
}

/// The residual-predictive simulator executes circuits step by step, gates with several
/// controls among them: where compression loses nothing, the statevector that the books stand
/// for afterwards is the one before with every step taken in order.
pub proof fn law_rpdq_steps_are_executed<S>(
    b: RpdqBooks,
    steps: Seq<Transformation>,
    outcomes: Seq<Outcome>,
    rebuild: spec_fn(CompressedState, Seq<u64>, Seq<u64>, u64) -> S,
    act: spec_fn(S, KernelCall) -> S,
    act_multi: spec_fn(S, Transformation) -> S,
)
    requires
        !b.waiting,
        frame::faithful(act),
        rpdq_lossless_steps(b, steps, outcomes, rebuild, act, act_multi),
    ensures
        !rpdq_after_steps(b, steps, outcomes).waiting,
        rpdq::represented(rpdq_after_steps(b, steps, outcomes), rebuild, act) == all_acted(
            rpdq::represented(b, rebuild, act),
            steps,
            act,
            act_multi,
        ),
    decreases steps.len(),
{
    if steps.len() > 0 {
        let p = rpdq_after_steps(b, steps.drop_last(), outcomes);
        let outcome = outcomes[steps.len() - 1];
        law_rpdq_steps_are_executed(b, steps.drop_last(), outcomes, rebuild, act, act_multi);
        match step_call(steps.last()) {
            Some(call) => {
                rpdq::law_call_is_executed(p, call, outcome, rebuild, act);
            },
            None => {
                assert(gates::kernel_calls(rpdq_restarted(p, outcome).ops) =~= Seq::empty());
            },
        }
    }
}

/// What a step is meant to do: apply its gate to its target on the basis states that its
/// controls ask for.
pub open spec fn meant<S>(
    s: S,
    tr: Transformation,
    act_where: spec_fn(S, Gate, usize, spec_fn(spec_fn(usize) -> bool) -> bool) -> S,
) -> S {
    act_where(s, tr.gate, tr.target, |basis: spec_fn(usize) -> bool| asked(tr.controls, basis))
}

/// What the steps of a circuit are meant to do, in order.
pub open spec fn all_meant<S>(
    s: S,
    steps: Seq<Transformation>,
    act_where: spec_fn(S, Gate, usize, spec_fn(spec_fn(usize) -> bool) -> bool) -> S,
) -> S
    decreases steps.len(),
{
    if steps.len() == 0 {
        s
    } else {
        meant(all_meant(s, steps.drop_last(), act_where), steps.last(), act_where)
    }
}

/// What a call does: it applies its gate to its target on the basis states that it fires on.
pub open spec fn made<S>(
    s: S,
    call: DispatchCall,
    act_where: spec_fn(S, Gate, usize, spec_fn(spec_fn(usize) -> bool) -> bool) -> S,
) -> S {
    act_where(
        s,
        call_gate(call),
        call_target(call),
        |basis: spec_fn(usize) -> bool| fires(call, basis),
    )
}

/// Making the call that performs a step does what the step is meant to do.
pub proof fn law_dispatched_call_does_step<S>(
    s: S,
    tr: Transformation,
    call: DispatchCall,
    act_where: spec_fn(S, Gate, usize, spec_fn(spec_fn(usize) -> bool) -> bool) -> S,
)
    requires
        dispatches(call, tr.gate, tr.controls, tr.target),
    ensures
        made(s, call, act_where) == meant(s, tr, act_where),
{
    law_call_fires_where_asked(call, tr.gate, tr.controls, tr.target);
    assert((|basis: spec_fn(usize) -> bool| fires(call, basis)) =~= (|basis: spec_fn(usize) -> bool|
        asked(tr.controls, basis)));
}

/// Every step with several controls is performed by a call for it, and its outcome is what that
/// call made of the statevector; no other step loses anything.
pub open spec fn bacqs_performed_steps<S>(
    b: bacqs::Books,
    steps: Seq<Transformation>,
    calls: Seq<DispatchCall>,
    outcomes: Seq<CompressedState>,
    decompress: spec_fn(CompressedState) -> S,
    act: spec_fn(S, KernelCall) -> S,
    act_where: spec_fn(S, Gate, usize, spec_fn(spec_fn(usize) -> bool) -> bool) -> S,
) -> bool
    decreases steps.len(),
{
    steps.len() > 0 ==> {
        let p = bacqs_after_steps(b, steps.drop_last(), outcomes);
        let tr = steps.last();
        let call = calls[steps.len() - 1];
        let outcome = outcomes[steps.len() - 1];
        &&& bacqs_performed_steps(b, steps.drop_last(), calls, outcomes, decompress, act, act_where)
        &&& dispatches(call, tr.gate, tr.controls, tr.target)
        &&& match call {
            DispatchCall::Kernel(k) => bacqs::lossless_call(p, k, outcome, decompress, act),
            DispatchCall::MultiControlled { .. } => decompress(outcome) == made(
                bacqs::represented(p, decompress, act),
                call,
                act_where,
            ),
        }
    }
}

/// The basis-adaptive simulator does what the steps of a circuit are meant to do: where
/// compression loses nothing and kernel calls apply their gates where they fire, the statevector
/// afterwards is the one before with every step's gate applied, in order, to its target on
/// exactly the basis states that its controls ask for.
pub proof fn law_bacqs_steps_do_what_they_are_meant_to<S>(
    b: bacqs::Books,
    steps: Seq<Transformation>,
    calls: Seq<DispatchCall>,
    outcomes: Seq<CompressedState>,
    decompress: spec_fn(CompressedState) -> S,
    act: spec_fn(S, KernelCall) -> S,
    act_where: spec_fn(S, Gate, usize, spec_fn(spec_fn(usize) -> bool) -> bool) -> S,
)
    requires
        !b.waiting,
        frame::faithful(act),
        forall|s: S, k: KernelCall| #[trigger]
            act(s, k) == made(s, DispatchCall::Kernel(k), act_where),
        bacqs_performed_steps(b, steps, calls, outcomes, decompress, act, act_where),
    ensures
        !bacqs_after_steps(b, steps, outcomes).waiting,
        bacqs::represented(bacqs_after_steps(b, steps, outcomes), decompress, act) == all_meant(
            bacqs::represented(b, decompress, act),
            steps,
            act_where,
        ),
    decreases steps.len(),
{
    if steps.len() > 0 {
        let p = bacqs_after_steps(b, steps.drop_last(), outcomes);
        let tr = steps.last();
        let call = calls[steps.len() - 1];
        let outcome = outcomes[steps.len() - 1];
        law_bacqs_steps_do_what_they_are_meant_to(
            b,
            steps.drop_last(),
            calls,
            outcomes,
            decompress,
            act,
            act_where,
        );
        law_dispatched_call_does_step(bacqs::represented(p, decompress, act), tr, call, act_where);
        match call {
            DispatchCall::Kernel(k) => {
                bacqs::law_call_is_executed(p, k, outcome, decompress, act);
            },
            DispatchCall::MultiControlled { .. } => {
                assert(gates::kernel_calls(bacqs_restarted(p, outcome).ops) =~= Seq::empty());
            },
        }
    }
}

/// Every step with several controls is performed by a call for it, and its outcome is what that
/// call made of the statevector; no other step loses anything.
pub open spec fn rpdq_performed_steps<S>(
    b: RpdqBooks,
    steps: Seq<Transformation>,
    calls: Seq<DispatchCall>,
    outcomes: Seq<Outcome>,
    rebuild: spec_fn(CompressedState, Seq<u64>, Seq<u64>, u64) -> S,
    act: spec_fn(S, KernelCall) -> S,
    act_where: spec_fn(S, Gate, usize, spec_fn(spec_fn(usize) -> bool) -> bool) -> S,
) -> bool
    decreases steps.len(),
{
    steps.len() > 0 ==> {
        let p = rpdq_after_steps(b, steps.drop_last(), outcomes);
        let tr = steps.last();
        let call = calls[steps.len() - 1];
        let outcome = outcomes[steps.len() - 1];
        &&& rpdq_performed_steps(b, steps.drop_last(), calls, outcomes, rebuild, act, act_where)
        &&& dispatches(call, tr.gate, tr.controls, tr.target)
        &&& match call {
            DispatchCall::Kernel(k) => rpdq::lossless_call(p, k, outcome, rebuild, act),
            DispatchCall::MultiControlled { .. } => rebuild(
                outcome.compressed,
                outcome.residual_re@,
                outcome.residual_im@,
                0,
            ) == made(
                rpdq::represented(p, rebuild, act),
                call,
                act_where,
            ),
        }
    }
}

/// The residual-predictive simulator does what the steps of a circuit are meant to do: where
/// compression loses nothing and kernel calls apply their gates where they fire, the statevector
/// afterwards is the one before with every step's gate applied, in order, to its target on
/// exactly the basis states that its controls ask for.
pub proof fn law_rpdq_steps_do_what_they_are_meant_to<S>(
    b: RpdqBooks,
    steps: Seq<Transformation>,
    calls: Seq<DispatchCall>,
    outcomes: Seq<Outcome>,
    rebuild: spec_fn(CompressedState, Seq<u64>, Seq<u64>, u64) -> S,
    act: spec_fn(S, KernelCall) -> S,
    act_where: spec_fn(S, Gate, usize, spec_fn(spec_fn(usize) -> bool) -> bool) -> S,
)
    requires
        !b.waiting,
        frame::faithful(act),
        forall|s: S, k: KernelCall| #[trigger]
            act(s, k) == made(s, DispatchCall::Kernel(k), act_where),
        rpdq_performed_steps(b, steps, calls, outcomes, rebuild, act, act_where),
    ensures
        !rpdq_after_steps(b, steps, outcomes).waiting,
        rpdq::represented(rpdq_after_steps(b, steps, outcomes), rebuild, act) == all_meant(
            rpdq::represented(b, rebuild, act),
            steps,
            act_where,
        ),
    decreases steps.len(),
{
    if steps.len() > 0 {
        let p = rpdq_after_steps(b, steps.drop_last(), outcomes);
        let tr = steps.last();
        let call = calls[steps.len() - 1];
        let outcome = outcomes[steps.len() - 1];
        law_rpdq_steps_do_what_they_are_meant_to(
            b,
            steps.drop_last(),
            calls,
            outcomes,
            rebuild,
            act,
            act_where,
        );
        law_dispatched_call_does_step(rpdq::represented(p, rebuild, act), tr, call, act_where);
        match call {
            DispatchCall::Kernel(k) => {
                rpdq::law_call_is_executed(p, k, outcome, rebuild, act);
            },
            DispatchCall::MultiControlled { .. } => {
                assert(gates::kernel_calls(rpdq_restarted(p, outcome).ops) =~= Seq::empty());
            },
        }
    }
}

/// A simulator that is started anew keeps the bit width and the seed, and has everything else as
/// at the start, with a reset at every T gate.
pub proof fn law_restart(b: bacqs::Books, c: CompressedState)
    ensures
        ({
            let r = bacqs_restarted(b, c);
            &&& r.compressed == c && r.ops.len() == 0 && r.n == c.n_qubits
            &&& r.bits == b.bits && r.seed == b.seed && r.threshold == 1
            &&& r.t_gates == 0 && r.total == 0 && r.decompressions == 0 && r.resets == 0
            &&& !r.waiting
        }),
{
}

/// The same holds of the residual-predictive simulator, whose reset number is 0 again, and which
/// has noted the residual of its start.
pub proof fn law_rpdq_restart(b: RpdqBooks, o: Outcome)
    ensures
        ({
            let r = rpdq_restarted(b, o);
            &&& r.compressed == o.compressed && r.ops.len() == 0 && r.n == o.compressed.n_qubits
            &&& r.residual_re == o.residual_re@ && r.residual_im == o.residual_im@
            &&& r.bits == b.bits && r.rotation_seed == b.rotation_seed
            &&& r.dither_seed == b.dither_seed && r.threshold == 1 && r.reset_index == 0
            &&& r.t_gates == 0 && r.total == 0 && r.decompressions == 0
            &&& r.residual_norms == seq![o.residual_norm] && r.fidelity_estimates.len() == 0
            &&& !r.waiting
        }),
{
}

/// The qubits of a circuit are those of its registers: each register adds its own, wherever it
/// stands.
pub proof fn law_registers_add_up(first: Seq<usize>, second: Seq<usize>, one: usize)
    ensures
        register_sum(seq![one], 1) == one,
        register_sum(first + second, first.len() + second.len()) == register_sum(
            first,
            first.len(),
        ) + register_sum(second, second.len()),
    decreases second.len(),
{
    reveal_with_fuel(register_sum, 2);
    lemma_register_sum_prefix(first, second, first.len());
    if second.len() > 0 {
        let init = second.drop_last();
        law_registers_add_up(first, init, one);
        lemma_register_sum_prefix(init, seq![second.last()], init.len());
        lemma_register_sum_prefix(first + init, seq![second.last()], (first + init).len());
        assert(init + seq![second.last()] =~= second);
        assert((first + init) + seq![second.last()] =~= first + second);
    }
}

proof fn lemma_register_sum_prefix(first: Seq<usize>, second: Seq<usize>, k: nat)
    requires
        k <= first.len(),
    ensures
        register_sum(first + second, k) == register_sum(first, k),
    decreases k,
{
    if k > 0 {
        lemma_register_sum_prefix(first, second, (k - 1) as nat);
    }
}

/// Which steps are let through to the simulators: all qubits that a step without controls or
/// with one names must exist; the kernels of steps with several controls look after theirs.
pub proof fn law_steps_in_range(tr: Transformation, n: nat)
    ensures
        tr.controls is Free ==> (step_in_range(tr, n) <==> match tr.gate {
            Gate::SWAP(a, b) => a < n && b < n,
            _ => tr.target < n,
        }),
        tr.controls matches Controls::Single(c) ==> (step_in_range(tr, n) <==> c < n && tr.target
            < n),
        tr.controls is Ones || tr.controls is Mixed ==> step_in_range(tr, n),
{
}

/// How a circuit is simulated.
#[derive(Clone, Copy, Debug, PartialEq, Eq, Structural)]
pub enum Mode {
    /// Exactly, without compression.
    Exact,
    /// With the basis-adaptive simulator at a bit width.
    Bacqs(u8),
    /// With the residual-predictive simulator at a bit width.
    Rpdq(u8),
}

/// The mode that the command line asks for: the compression mode counts only where the bit
/// width is not 0, and anything but "rpdq" means the basis-adaptive simulator.
pub open spec fn mode_of(comp_bit: u8, compression_mode: Seq<char>) -> Mode {
    if comp_bit == 0 {
        Mode::Exact
    } else if compression_mode == "rpdq"@ {
        Mode::Rpdq(comp_bit)
    } else {
        Mode::Bacqs(comp_bit)
    }
}

/// Bit width 0 is exact simulation whatever the compression mode says; any other width is the
/// width of a compressing simulator, which is the residual-predictive one for "rpdq" alone.
pub proof fn law_mode(comp_bit: u8, compression_mode: Seq<char>)
    ensures
        mode_of(0, compression_mode) == Mode::Exact,
        comp_bit != 0 ==> mode_of(comp_bit, compression_mode) != Mode::Exact,
        comp_bit != 0 && compression_mode == "rpdq"@ ==> mode_of(comp_bit, compression_mode)
            == Mode::Rpdq(comp_bit),
        comp_bit != 0 && compression_mode != "rpdq"@ ==> mode_of(comp_bit, compression_mode)
            == Mode::Bacqs(comp_bit),
{
}

/// Whether a name is "rpdq".
fn names_rpdq(name: &str) -> (r: bool)
    ensures
        r == (name@ == "rpdq"@),
{
    proof {
        reveal_strlit("rpdq");
    }
    if name.unicode_len() != 4 {
        return false;
    }
    let r: bool = name.get_char(0) == 'r' && name.get_char(1) == 'p' && name.get_char(2) == 'd'
        && name.get_char(3) == 'q';
    proof {
        if r {
            assert(name@ =~= "rpdq"@);
        }
    }
    r
}

/// Choose how to simulate from the arguments of the command line.
pub fn choose_mode(comp_bit: u8, compression_mode: &str) -> (mode: Mode)
    ensures
        mode == mode_of(comp_bit, compression_mode@),
        mode == Mode::Exact <==> comp_bit == 0,
        mode == Mode::Rpdq(comp_bit) <==> comp_bit != 0 && compression_mode@ == "rpdq"@,
        mode == Mode::Bacqs(comp_bit) <==> comp_bit != 0 && compression_mode@ != "rpdq"@,
{
    if comp_bit == 0 {
        Mode::Exact
    } else if names_rpdq(compression_mode) {
        Mode::Rpdq(comp_bit)
    } else {
        Mode::Bacqs(comp_bit)
    }
}

} // verus!
