use rand::{Rng, SeedableRng};
use turbospin::angle::{MINUS_PI_OVER_4, PI, PI_OVER_2, PI_OVER_4};
use turbospin::bacqs::{BACQSState, DenseJob, PauliPlan};
use turbospin::circuit::{
    bacqs_restart, bacqs_step, rpdq_restart, rpdq_step, BacqsWork, DispatchCall, RpdqWork,
};
use turbospin::codebook::get_codebook;
use turbospin::compression::{compress, CompressedState};
use turbospin::dither::{apply_dither, apply_inverse_dither, rounding_draws, unit_numerator, Turn};
use turbospin::gates::{CliffordOp, Controls, Gate, KernelCall, Transformation};
use turbospin::givens::{
    givens_layer, inverse_schedule, layer_count, start_schedule, GivensRotation,
};
use turbospin::measure::{parity, pauli_term, phase_sign};
use turbospin::quantizer::{block_scales, bracket, brackets, settle, settle_all, Bracket};
use turbospin::rpdq::{Outcome, Rebuild, RpdqJob, RpdqState};
use turbospin::state::{deinterleave_state, interleave_state, State};

// A plain statevector simulator to run the library against.

#[derive(Clone)]
struct Dense {
    re: Vec<f64>,
    im: Vec<f64>,
    n: usize,
}

type Complex = (f64, f64);

fn mul(a: Complex, b: Complex) -> Complex {
    (a.0 * b.0 - a.1 * b.1, a.0 * b.1 + a.1 * b.0)
}

fn plus(a: Complex, b: Complex) -> Complex {
    (a.0 + b.0, a.1 + b.1)
}

fn matrix(gate: Gate) -> [[Complex; 2]; 2] {
    let f = |b: u64| f64::from_bits(b);
    let zero = (0.0, 0.0);
    let one = (1.0, 0.0);
    let r = std::f64::consts::FRAC_1_SQRT_2;
    match gate {
        Gate::H => [[(r, 0.0), (r, 0.0)], [(r, 0.0), (-r, 0.0)]],
        Gate::X => [[zero, one], [one, zero]],
        Gate::Y => [[zero, (0.0, -1.0)], [(0.0, 1.0), zero]],
        Gate::Z => [[one, zero], [zero, (-1.0, 0.0)]],
        Gate::P(a) => [[one, zero], [zero, (f(a).cos(), f(a).sin())]],
        Gate::RX(a) => {
            let (s, c) = (f(a) / 2.0).sin_cos();
            [[(c, 0.0), (0.0, -s)], [(0.0, -s), (c, 0.0)]]
        }
        Gate::RY(a) => {
            let (s, c) = (f(a) / 2.0).sin_cos();
            [[(c, 0.0), (-s, 0.0)], [(s, 0.0), (c, 0.0)]]
        }
        Gate::RZ(a) => {
            let (s, c) = (f(a) / 2.0).sin_cos();
            [[(c, -s), zero], [zero, (c, s)]]
        }
        Gate::U(theta, phi, lambda) => {
            let (s, c) = (f(theta) / 2.0).sin_cos();
            let e = |x: f64| (x.cos(), x.sin());
            [
                [(c, 0.0), mul((-s, 0.0), e(f(lambda)))],
                [mul((s, 0.0), e(f(phi))), mul((c, 0.0), e(f(phi) + f(lambda)))],
            ]
        }
        _ => unreachable!(),
    }
}

impl Dense {
    fn new(n: usize) -> Dense {
        let mut re = vec![0.0; 1 << n];
        re[0] = 1.0;
        Dense { re, im: vec![0.0; 1 << n], n }
    }

    fn gate(&mut self, gate: Gate, mask: usize, want: usize, t: usize) {
        if let Gate::SWAP(a, b) = gate {
            self.gate(Gate::X, mask | (1 << a), want | (1 << a), b);
            self.gate(Gate::X, mask | (1 << b), want | (1 << b), a);
            self.gate(Gate::X, mask | (1 << a), want | (1 << a), b);
            return;
        }
        let m = matrix(gate);
        for i in 0..self.re.len() {
            if i & (1 << t) != 0 || i & mask != want {
                continue;
            }
            let j = i | (1 << t);
            let a = (self.re[i], self.im[i]);
            let b = (self.re[j], self.im[j]);
            let x = plus(mul(m[0][0], a), mul(m[0][1], b));
            let y = plus(mul(m[1][0], a), mul(m[1][1], b));
            self.re[i] = x.0;
            self.im[i] = x.1;
            self.re[j] = y.0;
            self.im[j] = y.1;
        }
    }

    fn call(&mut self, call: KernelCall) {
        match call {
            KernelCall::Apply(g, t) => self.gate(g, 0, 0, t),
            KernelCall::Controlled(g, c, t) => self.gate(g, 1 << c, 1 << c, t),
        }
    }

    fn dispatch(&mut self, call: &DispatchCall) {
        match call {
            DispatchCall::Kernel(k) => self.call(*k),
            DispatchCall::MultiControlled { gate, controls, zeros, target } => {
                let mut mask = 0;
                let mut want = 0;
                for &c in controls {
                    mask |= 1 << c;
                    let zero = zeros.as_ref().map_or(false, |z| z.contains(&c));
                    if !zero {
                        want |= 1 << c;
                    }
                }
                self.gate(*gate, mask, want, *target);
            }
        }
    }

    fn to_state(&self) -> State {
        State {
            reals: self.re.iter().map(|x| x.to_bits()).collect(),
            imags: self.im.iter().map(|x| x.to_bits()).collect(),
            n: self.n as u8,
        }
    }

    fn from_state(s: &State) -> Dense {
        Dense {
            re: s.reals.iter().map(|&x| f64::from_bits(x)).collect(),
            im: s.imags.iter().map(|&x| f64::from_bits(x)).collect(),
            n: usize::from(s.n),
        }
    }

    fn norm_squared(&self) -> f64 {
        self.re.iter().zip(&self.im).map(|(r, i)| r * r + i * i).sum::<f64>()
    }

    fn norm(&self) -> f64 {
        self.norm_squared().sqrt()
    }

    fn normalize(&mut self) {
        let norm = self.norm();
        if norm > 1.0e-12 {
            for x in self.re.iter_mut().chain(self.im.iter_mut()) {
                *x /= norm;
            }
        }
    }

    fn turn(&mut self, turns: &[Turn]) {
        for (j, t) in turns.iter().enumerate() {
            let mut theta = 2.0 * std::f64::consts::PI * unit_value(t.numerator);
            if t.backwards {
                theta = -theta;
            }
            let (s, c) = theta.sin_cos();
            let (re, im) = (self.re[j], self.im[j]);
            self.re[j] = c.mul_add(re, -s * im);
            self.im[j] = s.mul_add(re, c * im);
        }
    }
}

fn unit_value(numerator: u64) -> f64 {
    numerator as f64 / (1u64 << 53) as f64
}

fn fidelity(a: &Dense, b: &Dense) -> f64 {
    let mut re = 0.0;
    let mut im = 0.0;
    for i in 0..a.re.len() {
        re += a.re[i] * b.re[i] + a.im[i] * b.im[i];
        im += a.re[i] * b.im[i] - a.im[i] * b.re[i];
    }
    re * re + im * im
}

fn schedule(len: usize, seed: u64, n: usize) -> Vec<GivensRotation> {
    let (mut ordering, mut rng) = start_schedule(len, seed);
    let mut all = Vec::new();
    for _ in 0..layer_count(n) {
        for (left, right) in givens_layer(&mut ordering, &mut rng) {
            let theta = rng.gen_range(-std::f64::consts::PI..std::f64::consts::PI);
            all.push(GivensRotation { left, right, theta: theta.to_bits() });
        }
    }
    all
}

fn rotate(v: &mut [f64], schedule: &[GivensRotation]) {
    for r in schedule {
        let (s, c) = f64::from_bits(r.theta).sin_cos();
        let (a, b) = (v[r.left], v[r.right]);
        v[r.left] = c.mul_add(a, -s * b);
        v[r.right] = s.mul_add(a, c * b);
    }
}

/// Compress with a rule that tells whether a value goes to the upper of two levels.
fn encode(d: &Dense, bits: u8, seed: u64, upper: impl Fn(usize, f64, f64, f64) -> bool) -> CompressedState {
    let mut v: Vec<f64> = interleave_state(&d.to_state())
        .iter()
        .map(|&x| f64::from_bits(x))
        .collect();
    let norm = v.iter().map(|x| x * x).sum::<f64>().sqrt();
    let forward = schedule(v.len(), seed, d.n);
    rotate(&mut v, &forward);
    let rotated: Vec<u64> = v.iter().map(|x| x.to_bits()).collect();
    let scales = block_scales(&rotated);
    let normalized: Vec<f64> = v
        .iter()
        .enumerate()
        .map(|(i, x)| x * (1.0 / f64::from_bits(scales[i / 32])))
        .collect();
    let book: Vec<f64> = get_codebook(bits).iter().map(|&x| f64::from_bits(x)).collect();
    let found = brackets(&normalized.iter().map(|x| x.to_bits()).collect::<Vec<_>>(), bits);
    let uppers: Vec<bool> = found
        .iter()
        .enumerate()
        .map(|(i, b)| match b {
            Bracket::Level(_) => false,
            Bracket::Between(k) => {
                upper(i, normalized[i], book[usize::from(*k)], book[usize::from(*k) + 1])
            }
        })
        .collect();
    let indices = settle_all(&found, &uppers);
    compress(&rotated, &indices, norm.to_bits(), d.n, bits, seed, None)
}

fn nearest(d: &Dense, bits: u8, seed: u64) -> CompressedState {
    encode(d, bits, seed, |_, x, a, b| (x - a).abs() > (x - b).abs())
}

fn decode(c: &CompressedState) -> Dense {
    let mut v: Vec<f64> = c
        .decompress()
        .iter()
        .map(|&(s, l)| f64::from_bits(s) * f64::from_bits(l))
        .collect();
    let forward = schedule(v.len(), c.rotation_seed, c.n_qubits);
    rotate(&mut v, &inverse_schedule(&forward));
    let flat: Vec<u64> = v.iter().map(|x| x.to_bits()).collect();
    let mut d = Dense::from_state(&deinterleave_state(&flat, c.n_qubits));
    d.normalize();
    d
}

fn start_bacqs(d: &Dense, bits: u8, seed: u64, threshold: usize) -> BACQSState {
    BACQSState::new(nearest(d, bits, seed), bits, seed, threshold)
}

fn perform(s: &mut BACQSState, job: Option<DenseJob>) {
    if let Some(job) = job {
        let mut d = decode(&s.compressed);
        for &c in &job.replay {
            d.call(c);
        }
        d.call(job.call);
        let c = nearest(&d, s.bits, s.seed);
        s.install(c);
    }
}

fn bacqs_gate(s: &mut BACQSState, gate: Gate, target: usize) {
    let job = s.apply_gate(gate, target);
    perform(s, job);
}

fn bacqs_cnot(s: &mut BACQSState, control: usize, target: usize) {
    let job = s.apply_controlled_gate(Gate::X, control, target);
    perform(s, job);
}

fn bacqs_state(s: &mut BACQSState) -> Dense {
    let calls = s.to_state();
    let mut d = decode(&s.compressed);
    for &c in &calls {
        d.call(c);
    }
    d
}

fn outcome(d: &Dense, bits: u8, rotation: u64, dither: u64, reset: u64) -> Outcome {
    let mut dithered = d.clone();
    dithered.turn(&apply_dither(&d.to_state(), dither, reset));
    let draws = rounding_draws(2 << d.n, dither, reset);
    let compressed = encode(&dithered, bits, rotation, |i, x, a, b| {
        unit_value(draws[i]) < (x - a) / (b - a)
    });
    let mut approx = decode(&compressed);
    let back = apply_inverse_dither(&approx.to_state(), dither, reset);
    approx.turn(&back);
    let re: Vec<f64> = d.re.iter().zip(&approx.re).map(|(a, b)| a - b).collect();
    let im: Vec<f64> = d.im.iter().zip(&approx.im).map(|(a, b)| a - b).collect();
    let square: f64 = re.iter().zip(&im).map(|(a, b)| a * a + b * b).sum();
    Outcome {
        compressed,
        residual_re: re.iter().map(|x| x.to_bits()).collect(),
        residual_im: im.iter().map(|x| x.to_bits()).collect(),
        residual_norm: square.sqrt().to_bits(),
        fidelity: (1.0 - square).max(0.0).to_bits(),
    }
}

fn start_rpdq(d: &Dense, bits: u8, rotation: u64, dither: u64, threshold: usize) -> RpdqState {
    RpdqState::new(outcome(d, bits, rotation, dither, 0), bits, rotation, dither, threshold)
}

fn rebuild(s: &RpdqState, plan: &Rebuild) -> Dense {
    let mut d = decode(&s.compressed);
    let back = apply_inverse_dither(&d.to_state(), s.dither_seed, plan.undither);
    d.turn(&back);
    for j in 0..d.re.len() {
        d.re[j] += f64::from_bits(s.residual_re[j]);
        d.im[j] += f64::from_bits(s.residual_im[j]);
    }
    d.normalize();
    for &c in &plan.replay {
        d.call(c);
    }
    d
}

fn rpdq_perform(s: &mut RpdqState, job: Option<RpdqJob>) {
    if let Some(job) = job {
        let mut d = rebuild(s, &job.rebuild);
        d.call(job.call);
        let o = outcome(&d, s.bits, s.rotation_seed, s.dither_seed, job.dither);
        s.install(o);
    }
}

fn rpdq_gate(s: &mut RpdqState, gate: Gate, target: usize) {
    let job = s.apply_gate(gate, target);
    rpdq_perform(s, job);
}

fn rpdq_state(s: &mut RpdqState) -> Dense {
    let plan = s.to_state();
    rebuild(s, &plan)
}

fn angle(x: f64) -> u64 {
    x.to_bits()
}

// Dither and stochastic rounding.

#[test]
fn test_stochastic_rounding_unbiasedness() {
    let book = get_codebook(4); // 16 levels
    let n_trials = 100_000u64;

    // Pick a value between two codebook levels
    let a = f64::from_bits(book[7]); // -0.13
    let b = f64::from_bits(book[8]); // 0.13
    let target = 0.5 * (a + b); // exactly midway

    let mut sum = 0.0f64;
    for j in 0..n_trials {
        let u = unit_value(unit_numerator(0xDEAD_BEEF, 0, j));
        let idx = settle(bracket(target.to_bits(), &book), u < (target - a) / (b - a));
        sum += f64::from_bits(book[idx as usize]);
    }
    let mean = sum / n_trials as f64;
    // Mean should converge to target (unbiased)
    assert!(
        (mean - target).abs() < 0.01,
        "stochastic rounding biased: mean={:.6}, target={:.6}",
        mean,
        target
    );
}

fn stochastic_round(value: f64, book: &[u64], seed: u64, reset_index: u64, j: u64) -> u8 {
    let u = unit_value(unit_numerator(seed, reset_index, j));
    let b = bracket(value.to_bits(), book);
    let upper = match b {
        Bracket::Level(_) => false,
        Bracket::Between(k) => {
            let lo = f64::from_bits(book[usize::from(k)]);
            let hi = f64::from_bits(book[usize::from(k) + 1]);
            u < (value - lo) / (hi - lo)
        }
    };
    settle(b, upper)
}

#[test]
fn test_deterministic_reproducibility() {
    let book = get_codebook(4);
    let value = 0.3;

    // Two runs with same parameters should give identical results
    let results1: Vec<u8> = (0..100)
        .map(|j| stochastic_round(value, &book, 0x1234, 5, j))
        .collect();
    let results2: Vec<u8> = (0..100)
        .map(|j| stochastic_round(value, &book, 0x1234, 5, j))
        .collect();

    assert_eq!(results1, results2);
}

#[test]
fn test_seed_change_causes_decorrelation() {
    let book = get_codebook(4);
    let value = 0.3;
    let n = 1000u64;

    let results_a: Vec<u8> = (0..n)
        .map(|j| stochastic_round(value, &book, 0x1234, 0, j))
        .collect();
    let results_b: Vec<u8> = (0..n)
        .map(|j| stochastic_round(value, &book, 0x1234, 1, j))
        .collect();

    // Different reset indices should produce different results
    // Count how many positions differ
    let diffs = results_a.iter().zip(results_b.iter()).filter(|(a, b)| a != b).count();

    // With proper decorrelation, a significant fraction should differ
    // (allow some tolerance for random collisions)
    assert!(
        diffs > n as usize / 4,
        "only {}/{} positions differed between reset indices",
        diffs,
        n
    );
}

#[test]
fn test_dither_roundtrip() {
    let n_qubits = 4;
    let mut state = Dense::new(n_qubits);
    // Set some non-trivial amplitudes
    for j in 0..state.re.len() {
        let angle = j as f64 * 0.7;
        state.re[j] = angle.cos();
        state.im[j] = angle.sin();
    }

    let original = state.clone();

    let turns = apply_dither(&state.to_state(), 0xBEEF, 42);
    state.turn(&turns);
    let turns = apply_inverse_dither(&state.to_state(), 0xBEEF, 42);
    state.turn(&turns);

    // Should recover original state
    for j in 0..state.re.len() {
        assert!(
            (state.re[j] - original.re[j]).abs() < 1e-12,
            "dither round-trip failed at index {}",
            j
        );
        assert!(
            (state.im[j] - original.im[j]).abs() < 1e-12,
            "dither round-trip failed at index {}",
            j
        );
    }
}

#[test]
fn test_different_seeds_decorrelate() {
    let n_qubits = 3;
    let mut state_a = Dense::new(n_qubits);
    let mut state_b = Dense::new(n_qubits);

    // Set both to the same initial state
    for j in 0..state_a.re.len() {
        state_a.re[j] = 0.5;
        state_a.im[j] = 0.5;
        state_b.re[j] = 0.5;
        state_b.im[j] = 0.5;
    }

    let turns_a = apply_dither(&state_a.to_state(), 0xAAAA, 0);
    state_a.turn(&turns_a);
    let turns_b = apply_dither(&state_b.to_state(), 0xBBBB, 0);
    state_b.turn(&turns_b);

    // Different seeds should produce different results
    let mut max_diff = 0.0f64;
    for j in 0..state_a.re.len() {
        let dr = state_a.re[j] - state_b.re[j];
        let di = state_a.im[j] - state_b.im[j];
        max_diff = max_diff.max(dr.abs()).max(di.abs());
    }

    assert!(max_diff > 1e-6, "different seeds produced identical dither results");
}

// The residual-predictive simulator.

#[test]
fn test_rpdq_state_creation() {
    let n_qubits = 4;
    let state = Dense::new(n_qubits);
    let rpdq = start_rpdq(&state, 4, 0x5EED, 0xD1B5, 1);

    assert_eq!(rpdq.n_qubits, n_qubits);
    assert_eq!(rpdq.bits, 4);
    assert_eq!(rpdq.reset_index, 0);
    assert!(!rpdq.residual_norms.is_empty());
}

#[test]
fn test_rpdq_clifford_gates() {
    let n_qubits = 4;
    let state = Dense::new(n_qubits);
    let mut rpdq = start_rpdq(&state, 4, 0x5EED, 0xD1B5, 10);

    // Apply several Clifford gates — should NOT trigger reset
    rpdq_gate(&mut rpdq, Gate::H, 0);
    rpdq_gate(&mut rpdq, Gate::X, 1);
    rpdq_gate(&mut rpdq, Gate::Z, 2);

    assert_eq!(rpdq.reset_index, 0, "Clifford gates should not trigger reset");
}

#[test]
fn test_rpdq_t_gate_triggers_reset() {
    let n_qubits = 4;
    let state = Dense::new(n_qubits);
    let mut rpdq = start_rpdq(&state, 4, 0x5EED, 0xD1B5, 1);

    // Apply H first (Clifford, no reset)
    rpdq_gate(&mut rpdq, Gate::H, 0);
    assert_eq!(rpdq.reset_index, 0);

    // T-gate with threshold=1 should trigger reset
    rpdq_gate(&mut rpdq, Gate::P(angle(std::f64::consts::PI / 4.0)), 0);
    assert_eq!(rpdq.reset_index, 1, "T-gate should trigger reset with threshold=1");
}

#[test]
fn test_rpdq_output_format_compatible() {
    let n_qubits = 3;
    let state = Dense::new(n_qubits);
    let mut rpdq = start_rpdq(&state, 4, 0x5EED, 0xD1B5, 1);

    let final_state = rpdq_state(&mut rpdq).to_state();

    // State should have the correct format
    assert_eq!(final_state.len(), 1 << n_qubits);
    assert_eq!(usize::from(final_state.n), n_qubits);

    // Verify normalization
    let norm: f64 = Dense::from_state(&final_state).norm_squared();
    assert!((norm - 1.0).abs() < 1e-6, "state not normalized: norm={}", norm);
}

#[test]
fn test_rpdq_residual_norm_tracking() {
    let n_qubits = 4;
    let state = Dense::new(n_qubits);
    let mut rpdq = start_rpdq(&state, 4, 0x5EED, 0xD1B5, 1);

    // Apply gates that will trigger resets
    rpdq_gate(&mut rpdq, Gate::H, 0);
    rpdq_gate(&mut rpdq, Gate::P(angle(std::f64::consts::PI / 4.0)), 0); // T → reset #1
    rpdq_gate(&mut rpdq, Gate::H, 1);
    rpdq_gate(&mut rpdq, Gate::P(angle(std::f64::consts::PI / 4.0)), 1); // T → reset #2

    // Should have initial + 2 reset norms
    assert_eq!(rpdq.residual_norms.len(), 3);
    assert_eq!(rpdq.fidelity_estimates.len(), 2);
}

#[test]
fn test_multi_reset_fidelity_comparison() {
    let n_qubits = 4;
    let bits = 4;
    let rotation_seed = 0xC0DE;
    let dither_seed = 0xBEEF;
    let threshold = 1; // Reset on every T-gate
    let t_gate = Gate::P(angle(std::f64::consts::PI / 4.0));

    // Build the exact reference state
    let mut exact = Dense::new(n_qubits);
    // Create superposition
    for i in 0..n_qubits {
        exact.gate(Gate::H, 0, 0, i);
    }

    // Prepare BACQS and RPDQ states from the same initial superposition
    let mut bacqs = start_bacqs(&exact, bits, rotation_seed, threshold);
    let mut rpdq = start_rpdq(&exact, bits, rotation_seed, dither_seed, threshold);

    // Apply T gates, each triggering a reset
    let n_resets = 5;
    let mut bacqs_running_fidelity: f64 = 1.0;
    let mut rpdq_running_fidelity: f64 = 1.0;

    for i in 0..n_resets {
        exact.gate(t_gate, 0, 0, i % n_qubits);
        bacqs_gate(&mut bacqs, t_gate, i % n_qubits);
        rpdq_gate(&mut rpdq, t_gate, i % n_qubits);

        let bacqs_fid = fidelity(&exact, &bacqs_state(&mut bacqs));
        let rpdq_fid = fidelity(&exact, &rpdq_state(&mut rpdq));
        bacqs_running_fidelity = bacqs_running_fidelity.min(bacqs_fid);
        rpdq_running_fidelity = rpdq_running_fidelity.min(rpdq_fid);
    }

    // Both should maintain reasonable fidelity
    assert!(bacqs_running_fidelity > 0.5, "BACQS fidelity too low: {}", bacqs_running_fidelity);
    assert!(rpdq_running_fidelity > 0.5, "RPDQ fidelity too low: {}", rpdq_running_fidelity);

    // RPDQ should not be worse than BACQS in the worst case
    // (allow some tolerance since stochastic rounding adds variance)
    assert!(
        rpdq_running_fidelity >= bacqs_running_fidelity - 0.05,
        "RPDQ fidelity ({:.6}) significantly worse than BACQS ({:.6})",
        rpdq_running_fidelity,
        bacqs_running_fidelity
    );
}

#[test]
fn test_rpdq_eight_qubit_arbitrary_gates() {
    let n_qubits = 8;
    let bits = 4;
    let rotation_seed = 0xC0DE;
    let dither_seed = 0xBEEF;

    let gates = [
        (Gate::H, 0),
        (Gate::X, 1),
        (Gate::Y, 2),
        (Gate::Z, 3),
        (Gate::RX(angle(1.0)), 4),
        (Gate::RY(angle(2.0)), 5),
        (Gate::RZ(angle(3.0)), 6),
        (Gate::U(angle(1.0), angle(2.0), angle(3.0)), 7),
    ];
    // Create the initial state and run exact reference
    let mut exact = Dense::new(n_qubits);
    let mut rpdq = start_rpdq(&exact, bits, rotation_seed, dither_seed, 1);
    for &(gate, target) in &gates {
        exact.gate(gate, 0, 0, target);
        rpdq_gate(&mut rpdq, gate, target);
    }

    // Get final state
    let final_state = rpdq_state(&mut rpdq);

    // Verify normalization
    let norm = final_state.norm_squared();
    assert!((norm - 1.0).abs() < 1e-6, "State not normalized: norm={}", norm);

    // Check fidelity with exact
    let fid = fidelity(&exact, &final_state);
    assert!(fid > 0.01, "Fidelity too low: {}", fid);
    // The residual is added back, so next to nothing is lost.
    assert!(fid > 0.999, "Fidelity too low: {}", fid);
}

#[test]
fn test_rpdq_cli_path_mirrors_test0() {
    let bits = 4;
    let rotation_seed = 0x5EED_CAFE_D15C_A11E;
    let dither_seed = 0xD1B5_4A32_D192_ED03;

    // h q[0]; x q[1]; y q[2]; z q[3]; rx(1.0) q[4]; ry(2.0) q[5]; rz(3.0) q[6]; u(1.0,2.0,3.0) q[7];
    let step = |gate: Gate, target: usize| Transformation { gate, target, controls: Controls::Free };
    let transformations = vec![
        step(Gate::H, 0),
        step(Gate::X, 1),
        step(Gate::Y, 2),
        step(Gate::Z, 3),
        step(Gate::RX(angle(1.0)), 4),
        step(Gate::RY(angle(2.0)), 5),
        step(Gate::RZ(angle(3.0)), 6),
        step(Gate::U(angle(1.0), angle(2.0), angle(3.0)), 7),
    ];

    let n_qubits: usize = turbospin::circuit::get_circuit_qubits(&[8]);
    let init = Dense::new(n_qubits);
    let mut rpdq = start_rpdq(&init, bits, rotation_seed, dither_seed, 1);
    for tr in &transformations {
        rpdq = run_rpdq_step(rpdq, tr);
    }

    let norm: f64 = rpdq_state(&mut rpdq).norm_squared();
    assert!(
        (norm - 1.0).abs() < 1e-6,
        "State not normalized via CLI path: norm={}",
        norm
    );
}

fn run_rpdq_step(mut s: RpdqState, tr: &Transformation) -> RpdqState {
    match rpdq_step(&mut s, tr) {
        RpdqWork::Absorbed => s,
        RpdqWork::Dense(job) => {
            rpdq_perform(&mut s, Some(job));
            s
        }
        RpdqWork::Restart { rebuild: plan, call } => {
            let mut d = rebuild(&s, &plan);
            d.dispatch(&call);
            let start = outcome(&d, s.bits, s.rotation_seed, s.dither_seed, 0);
            rpdq_restart(&s, start)
        }
    }
}

fn run_bacqs_step(mut s: BACQSState, tr: &Transformation) -> BACQSState {
    match bacqs_step(&mut s, tr) {
        BacqsWork::Absorbed => s,
        BacqsWork::Dense(job) => {
            perform(&mut s, Some(job));
            s
        }
        BacqsWork::Restart { replay, call } => {
            let mut d = decode(&s.compressed);
            for &c in &replay {
                d.call(c);
            }
            d.dispatch(&call);
            bacqs_restart(&s, nearest(&d, s.bits, s.seed))
        }
    }
}

#[test]
fn circuits_with_all_kinds_of_controls() {
    let steps = vec![
        Transformation { gate: Gate::H, target: 0, controls: Controls::Free },
        Transformation { gate: Gate::H, target: 1, controls: Controls::Free },
        Transformation { gate: Gate::X, target: 2, controls: Controls::Single(0) },
        Transformation { gate: Gate::X, target: 3, controls: Controls::Ones(vec![0, 1]) },
        Transformation { gate: Gate::P(PI_OVER_4), target: 1, controls: Controls::Free },
        Transformation { gate: Gate::Z, target: 0, controls: Controls::Single(3) },
        Transformation {
            gate: Gate::RY(angle(0.7)),
            target: 0,
            controls: Controls::Mixed { controls: vec![1, 2], zeros: vec![2] },
        },
        Transformation { gate: Gate::SWAP(0, 3), target: 0, controls: Controls::Free },
    ];
    let init = Dense::new(4);
    let mut exact = init.clone();
    let mut bacqs = start_bacqs(&init, 8, 7, 1);
    let mut rpdq = start_rpdq(&init, 8, 7, 9, 1);
    for tr in &steps {
        let call = turbospin::circuit::dispatch_gate(&tr.gate, &tr.controls, tr.target);
        exact.dispatch(&call);
        bacqs = run_bacqs_step(bacqs, tr);
        rpdq = run_rpdq_step(rpdq, tr);
    }
    assert!(fidelity(&exact, &rpdq_state(&mut rpdq)) > 0.9999);
    assert!(fidelity(&exact, &bacqs_state(&mut bacqs)) > 0.5);
}

// The basis-adaptive simulator.

const N: usize = 8;
const SEED: u64 = 0x5EED_CAFE_D15C_A11E;

#[test]
fn clifford_gates_leave_the_statevector_alone() {
    let mut s = start_bacqs(&Dense::new(N), 6, SEED, 1);
    let initial = s.compressed_bytes();
    for q in 0..N {
        for gate in [Gate::H, Gate::Z, Gate::Y, Gate::X, Gate::P(PI_OVER_2)] {
            bacqs_gate(&mut s, gate, q);
            assert_eq!(s.compressed_bytes(), initial);
        }
    }
    for q in 0..N - 1 {
        bacqs_cnot(&mut s, q, q + 1);
        assert_eq!(s.compressed_bytes(), initial);
    }
    assert_eq!(s.total_gates, 5 * N + N - 1);
    assert_eq!(s.decompression_count, 0);
}

#[test]
fn clifford_circuits_with_controls_keep_the_residual() {
    let mut s = start_rpdq(&Dense::new(3), 4, SEED, 5, 2);
    rpdq_gate(&mut s, Gate::P(PI_OVER_4), 0);
    let bytes = s.compressed_bytes();
    let (re, im) = (s.residual_re.clone(), s.residual_im.clone());
    for q in 0..2 {
        rpdq_gate(&mut s, Gate::H, q);
        assert!(s.apply_controlled_gate(Gate::X, q, q + 1).is_none());
        rpdq_gate(&mut s, Gate::SWAP(q, q + 1), q);
    }
    assert_eq!(s.compressed_bytes(), bytes);
    assert_eq!((&s.residual_re, &s.residual_im), (&re, &im));
    assert_eq!((s.reset_index, s.decompression_count, s.t_gate_count), (0, 0, 1));
    assert_eq!((s.residual_norms.len(), s.total_gates), (1, 7));
}

#[test]
fn one_reset_per_t_gate_between_controlled_gates() {
    let t_gate = Gate::P(PI_OVER_4);
    let mut b = start_bacqs(&Dense::new(4), 4, SEED, 1);
    let mut r = start_rpdq(&Dense::new(4), 4, SEED, 5, 1);
    for i in 0..7 {
        for q in 0..3 {
            bacqs_gate(&mut b, Gate::H, q);
            bacqs_cnot(&mut b, q, q + 1);
            rpdq_gate(&mut r, Gate::H, q);
            assert!(r.apply_controlled_gate(Gate::X, q, q + 1).is_none());
        }
        bacqs_gate(&mut b, t_gate, i % 4);
        rpdq_gate(&mut r, t_gate, i % 4);
    }
    assert_eq!((b.basis_reset_count, b.decompression_count, b.total_gates), (7, 7, 49));
    assert_eq!((r.reset_index, r.decompression_count, r.total_gates), (7, 7, 49));
    assert_eq!((r.residual_norms.len(), r.fidelity_estimates.len()), (8, 7));
}

#[test]
fn the_count_of_t_gates_is_that_of_the_waiting_ones() {
    for threshold in [0, 1, 3] {
        let mut b = start_bacqs(&Dense::new(2), 4, SEED, threshold);
        let mut r = start_rpdq(&Dense::new(2), 4, SEED, 5, threshold);
        for i in 0..8 {
            let angle = if i % 2 == 0 { PI_OVER_4 } else { MINUS_PI_OVER_4 };
            bacqs_gate(&mut b, Gate::P(angle), i % 2);
            bacqs_cnot(&mut b, 0, 1);
            rpdq_gate(&mut r, Gate::P(angle), i % 2);
            assert!(r.apply_controlled_gate(Gate::X, 1, 0).is_none());
            let waiting = (i + 1) % threshold.max(1);
            for (count, ops) in
                [(b.t_gate_count, &b.clifford_ops), (r.t_gate_count, &r.clifford_ops)]
            {
                assert_eq!(count, waiting);
                let waits = |op: &&CliffordOp| {
                    matches!(op, CliffordOp::T(_) | CliffordOp::Tdg(_))
                };
                assert_eq!(ops.iter().filter(waits).count(), waiting);
            }
        }
    }
}

#[test]
fn a_restart_begins_anew() {
    let mut b = start_bacqs(&Dense::new(2), 4, SEED, 3);
    bacqs_gate(&mut b, Gate::H, 0);
    bacqs_gate(&mut b, Gate::P(PI_OVER_4), 0);
    let c = nearest(&Dense::new(2), 4, SEED);
    let packed = c.packed_indices.clone();
    let b = bacqs_restart(&b, c);
    assert_eq!(b.compressed.packed_indices, packed);
    assert_eq!((b.t_gate_threshold, b.bits, b.seed, b.n_qubits), (1, 4, SEED, 2));
    assert_eq!((b.t_gate_count, b.total_gates, b.decompression_count), (0, 0, 0));
    assert!(b.clifford_ops.is_empty() && b.tableau.is_identity() && !b.waiting);

    let mut r = start_rpdq(&Dense::new(2), 4, SEED, 5, 1);
    rpdq_gate(&mut r, Gate::P(PI_OVER_4), 0);
    rpdq_gate(&mut r, Gate::H, 0);
    let r = rpdq_restart(&r, outcome(&Dense::new(2), 4, SEED, 5, 0));
    assert_eq!((r.t_gate_threshold, r.bits, r.rotation_seed, r.dither_seed), (1, 4, SEED, 5));
    assert_eq!((r.reset_index, r.total_gates, r.decompression_count), (0, 0, 0));
    assert_eq!((r.residual_norms.len(), r.fidelity_estimates.len()), (1, 0));
    assert!(r.clifford_ops.is_empty() && r.tableau.is_identity() && !r.waiting);
}

#[test]
fn a_t_gate_resets_the_basis() {
    let mut s = start_bacqs(&Dense::new(N), 6, SEED, 1);
    let initial = s.compressed_bytes();
    bacqs_gate(&mut s, Gate::H, 1);
    assert!(!s.tableau.is_identity());
    bacqs_gate(&mut s, Gate::P(PI_OVER_4), 0);
    assert_ne!(s.compressed_bytes(), initial);
    assert_eq!(s.t_gate_count, 0);
    assert!(s.tableau.is_identity());
    assert_eq!((s.basis_reset_count, s.decompression_count), (1, 1));
}

#[test]
fn circuit_fidelity_against_the_plain_simulator() {
    let t_gate = Gate::P(PI_OVER_4);
    for (bits, least) in [(4u8, 0.70), (8, 0.80)] {
        let mut exact = Dense::new(N);
        let mut s = start_bacqs(&exact, bits, SEED, 10);
        for q in 0..N {
            exact.gate(Gate::H, 0, 0, q);
            bacqs_gate(&mut s, Gate::H, q);
        }
        for q in 0..N - 1 {
            exact.call(KernelCall::Controlled(Gate::X, q, q + 1));
            bacqs_cnot(&mut s, q, q + 1);
        }
        for q in (0..N).step_by(2) {
            exact.gate(t_gate, 0, 0, q);
            bacqs_gate(&mut s, t_gate, q);
        }
        for q in 0..N {
            exact.gate(Gate::H, 0, 0, q);
            bacqs_gate(&mut s, Gate::H, q);
        }
        for q in (1..N).rev() {
            exact.call(KernelCall::Controlled(Gate::X, q, q - 1));
            bacqs_cnot(&mut s, q, q - 1);
        }
        assert_eq!(s.t_gate_count, 4);
        assert_eq!(s.decompression_count, 0);
        let fid = fidelity(&exact, &bacqs_state(&mut s));
        assert!(fid > least, "{}-bit fidelity {}", bits, fid);
    }
}

fn expectation(d: &Dense, x: &[u8], z: &[u8]) -> f64 {
    let mut sum = 0.0;
    for a in 0..d.re.len() {
        let (b, sign) = pauli_term(a, x, z);
        sum += f64::from(sign) * (d.re[a] * d.re[b] + d.im[a] * d.im[b]);
    }
    sum
}

fn measure(s: &mut BACQSState, x: &[u8], z: &[u8]) -> f64 {
    match s.measure_pauli(x, z) {
        PauliPlan::Diagonal { z_bits, phase } => {
            let d = decode(&s.compressed);
            let mut sum = 0.0;
            for a in 0..d.re.len() {
                sum += f64::from(parity(a, &z_bits)) * (d.re[a] * d.re[a] + d.im[a] * d.im[a]);
            }
            f64::from(phase_sign(phase)) * sum
        }
        PauliPlan::Dense(calls) => {
            let mut d = decode(&s.compressed);
            for &c in &calls {
                d.call(c);
            }
            expectation(&d, x, z)
        }
    }
}

#[test]
fn measuring_z_without_decompression() {
    let mut exact = Dense::new(N);
    exact.gate(Gate::H, 0, 0, 0);
    let mut s = start_bacqs(&exact, 6, SEED, 1);
    for q in 0..N - 1 {
        exact.call(KernelCall::Controlled(Gate::X, q, q + 1));
        bacqs_cnot(&mut s, q, q + 1);
    }
    for q in 0..N {
        let mut z = vec![0u8; N];
        z[q] = 1;
        let x = vec![0u8; N];
        let diff = (measure(&mut s, &x, &z) - expectation(&exact, &x, &z)).abs();
        assert!(diff < 0.05, "qubit {}: {}", q, diff);
        assert_eq!(s.decompression_count, 0);
        match s.measure_z(q) {
            PauliPlan::Diagonal { z_bits, phase } => {
                let expected: Vec<u8> = (0..N).map(|i| u8::from(i <= q)).collect();
                assert_eq!((z_bits, phase), (expected, 0));
            }
            PauliPlan::Dense(_) => panic!("no decompression expected"),
        }
    }
}

#[test]
fn diagonal_plans_agree_with_the_statevector() {
    // Every observable on three qubits, against the state that the books stand for.
    let n = 3;
    let mut d = Dense::new(n);
    for q in 0..n {
        d.gate(Gate::RY(angle(0.4 + 0.3 * q as f64)), 0, 0, q);
        d.gate(Gate::RZ(angle(0.9 - 0.2 * q as f64)), 0, 0, q);
    }
    let mut s = start_bacqs(&d, 8, 3, 1);
    for (gate, q) in [
        (Gate::X, 0),
        (Gate::H, 1),
        (Gate::P(PI_OVER_2), 1),
        (Gate::H, 1),
        (Gate::Y, 2),
        (Gate::Z, 0),
        (Gate::P(PI_OVER_2), 0),
    ] {
        bacqs_gate(&mut s, gate, q);
    }
    bacqs_cnot(&mut s, 0, 2);
    let full = bacqs_state(&mut s);
    let before = s.decompression_count;
    let mut diagonal = 0;
    for bits in 0..64usize {
        let x: Vec<u8> = (0..n).map(|i| ((bits >> i) & 1) as u8).collect();
        let z: Vec<u8> = (0..n).map(|i| ((bits >> (3 + i)) & 1) as u8).collect();
        let count = s.decompression_count;
        let got = measure(&mut s, &x, &z);
        if s.decompression_count == count {
            diagonal += 1;
        }
        assert!((got - expectation(&full, &x, &z)).abs() < 1e-9);
    }
    assert_eq!(diagonal, 8);
    assert_eq!(s.decompression_count, before + 56);
}

#[test]
fn a_flip_changes_the_sign_of_z() {
    let mut s = start_bacqs(&Dense::new(2), 8, 5, 1);
    bacqs_gate(&mut s, Gate::X, 0);
    assert!(measure(&mut s, &[0, 0], &[1, 0]) < -0.5);
    assert!(measure(&mut s, &[0, 0], &[0, 1]) > 0.5);
    assert_eq!(s.decompression_count, 0);
}

#[test]
fn waiting_t_gates_force_dense_measurement() {
    let mut s = start_bacqs(&Dense::new(2), 8, 5, 3);
    bacqs_gate(&mut s, Gate::P(PI_OVER_4), 0);
    assert_eq!(s.t_gate_count, 1);
    match s.measure_z(0) {
        PauliPlan::Dense(calls) => {
            assert_eq!(calls, vec![KernelCall::Apply(Gate::P(PI_OVER_4), 0)])
        }
        PauliPlan::Diagonal { .. } => panic!("a T gate is waiting"),
    }
    assert_eq!(s.decompression_count, 1);
}

#[test]
fn memory_report() {
    let mut s = start_bacqs(&Dense::new(N), 6, SEED, 1);
    for _round in 0..5 {
        for q in 0..N {
            bacqs_gate(&mut s, Gate::H, q);
        }
        for q in 0..N - 1 {
            bacqs_cnot(&mut s, q, q + 1);
        }
        for q in 0..N {
            bacqs_gate(&mut s, Gate::P(PI_OVER_2), q);
        }
        for q in 0..N {
            bacqs_gate(&mut s, Gate::X, q);
        }
        for q in (1..N).rev() {
            bacqs_cnot(&mut s, q, q - 1);
        }
    }
    for q in 0..7 {
        bacqs_gate(&mut s, Gate::P(PI_OVER_4), q);
    }
    assert_eq!(s.basis_reset_count, 7);
    assert_eq!(s.total_gates, 5 * 38 + 7);
    let op = std::mem::size_of::<turbospin::gates::CliffordOp>();
    let r = s.report(384, 10);
    assert_eq!(r.clifford_gates, 190);
    assert_eq!(r.raw_sv_bytes, 256 * 16);
    assert_eq!(r.gates_avoiding_decompression, 190);
    assert_eq!(r.peak_memory_bytes, 256 * 16);
    assert_eq!(s.report(5000, 10).peak_memory_bytes, 5000 + 16 * 17 + 10 * op);
    assert!(s.ops_capacity() >= s.clifford_ops.len());
}

#[test]
fn queued_t_gates_are_replayed_in_order() {
    let mut exact = Dense::new(3);
    let mut s = start_bacqs(&exact, 8, 1, 3);
    let t_gate = Gate::P(PI_OVER_4);
    for (gate, q) in [(Gate::H, 0), (t_gate, 0), (Gate::H, 0), (t_gate, 1)] {
        exact.gate(gate, 0, 0, q);
        assert!(s.apply_gate(gate, q).is_none());
    }
    let job = s.apply_gate(t_gate, 2).expect("third T gate");
    assert_eq!(
        job.replay,
        vec![
            KernelCall::Apply(Gate::H, 0),
            KernelCall::Apply(t_gate, 0),
            KernelCall::Apply(Gate::H, 0),
            KernelCall::Apply(t_gate, 1),
        ]
    );
    assert_eq!(job.call, KernelCall::Apply(t_gate, 2));
    assert!(s.waiting);
    exact.gate(t_gate, 0, 0, 2);
    perform(&mut s, Some(job));
    assert!(!s.waiting);
    assert_eq!((s.t_gate_count, s.basis_reset_count), (0, 1));
    assert!(fidelity(&exact, &bacqs_state(&mut s)) > 0.9);
}

#[test]
fn a_queued_inverse_t_gate_keeps_its_sign() {
    let quarter = Gate::P(angle(-std::f64::consts::FRAC_PI_4));
    let mut s = start_rpdq(&Dense::new(1), 8, 1, 2, 2);
    rpdq_gate(&mut s, Gate::H, 0);
    assert!(s.apply_gate(quarter, 0).is_none());
    let plan = s.to_state();
    assert_eq!(
        plan.replay,
        vec![KernelCall::Apply(Gate::H, 0), KernelCall::Apply(Gate::P(MINUS_PI_OVER_4), 0)]
    );
    let d = rebuild(&s, &plan);
    assert!((d.re[1] - 0.5).abs() < 1e-6 && (d.im[1] + 0.5).abs() < 1e-6);

    let mut b = start_bacqs(&Dense::new(1), 8, 1, 2);
    bacqs_gate(&mut b, Gate::H, 0);
    assert!(b.apply_gate(quarter, 0).is_none());
    let job = b.apply_gate(Gate::P(PI_OVER_4), 0).expect("second T gate");
    assert_eq!(job.replay[1], KernelCall::Apply(Gate::P(MINUS_PI_OVER_4), 0));
    assert_eq!(job.call, KernelCall::Apply(Gate::P(PI_OVER_4), 0));
}

#[test]
fn absorbed_gates_act_on_the_statevector() {
    let minus_half = angle(-std::f64::consts::FRAC_PI_2);
    let gates = [
        (Gate::H, 0),
        (Gate::P(PI), 0),
        (Gate::H, 1),
        (Gate::P(minus_half), 1),
        (Gate::P(PI_OVER_2), 0),
        (Gate::P(0), 1),
        (Gate::P(PI_OVER_4), 0),
        (Gate::P(MINUS_PI_OVER_4), 1),
        (Gate::Y, 2),
        (Gate::H, 0),
    ];
    let mut exact = Dense::new(3);
    let mut bacqs = start_bacqs(&exact, 8, 3, 9);
    let mut rpdq = start_rpdq(&exact, 8, 3, 4, 9);
    for (gate, q) in gates {
        exact.gate(gate, 0, 0, q);
        assert!(bacqs.apply_gate(gate, q).is_none());
        assert!(rpdq.apply_gate(gate, q).is_none());
    }
    let from_rpdq = rpdq_state(&mut rpdq);
    for i in 0..8 {
        assert!((from_rpdq.re[i] - exact.re[i]).abs() < 1e-6);
        assert!((from_rpdq.im[i] - exact.im[i]).abs() < 1e-6);
    }
    assert!(fidelity(&exact, &bacqs_state(&mut bacqs)) > 0.99);
    // Asking again changes nothing.
    let again = rpdq_state(&mut rpdq);
    assert_eq!(from_rpdq.re, again.re);
    assert_eq!(from_rpdq.im, again.im);
}

#[test]
fn committing_a_reset_leaves_the_record() {
    let start = Dense::new(2);
    let mut s = start_rpdq(&start, 4, 1, 2, 3);
    rpdq_gate(&mut s, Gate::H, 0);
    rpdq_gate(&mut s, Gate::P(PI_OVER_4), 1);
    let before = s.tableau.conjugate_pauli(&[1, 0], &[0, 0]);
    let ops = s.clifford_ops.clone();
    let gates = (s.total_gates, s.t_gate_count, s.reset_index, s.decompression_count);

    let mut flipped = start.clone();
    flipped.gate(Gate::X, 0, 0, 1);
    let o = outcome(&flipped, 4, 1, 2, 0);
    let packed = o.compressed.packed_indices.clone();
    let residual = o.residual_re.clone();
    s.commit_reset(o);
    assert_eq!(s.compressed.packed_indices, packed);
    assert_eq!(s.residual_re, residual);
    assert_eq!((s.residual_norms.len(), s.fidelity_estimates.len()), (2, 1));
    assert_eq!(s.tableau.conjugate_pauli(&[1, 0], &[0, 0]), before);
    assert_eq!(s.clifford_ops, ops);
    assert_eq!((s.total_gates, s.t_gate_count, s.reset_index, s.decompression_count), gates);
    assert!(!s.tableau.is_identity());

    let job = s.apply_gate(Gate::RX(angle(0.2)), 0).expect("dense");
    assert_eq!(job.rebuild.replay.len(), 2);
    s.commit_reset(outcome(&flipped, 4, 1, 2, 0));
    assert!(s.waiting && s.t_gate_count == 1);
    s.clear_record();
    assert!(!s.waiting && s.t_gate_count == 0);
    assert!(s.clifford_ops.is_empty() && s.tableau.is_identity());
}

#[test]
fn reset_numbers_of_dense_work() {
    let mut s = start_rpdq(&Dense::new(2), 4, 1, 2, 1);
    let job = s.apply_gate(Gate::P(PI_OVER_4), 0).expect("reset");
    assert_eq!((job.rebuild.undither, job.dither), (0, 1));
    rpdq_perform(&mut s, Some(job));
    let job = s.apply_gate(Gate::RX(angle(0.3)), 1).expect("dense");
    assert_eq!((job.rebuild.undither, job.dither), (1, 1));
    rpdq_perform(&mut s, Some(job));
    let job = s.apply_controlled_gate(Gate::Z, 0, 1).expect("dense");
    assert_eq!((job.rebuild.undither, job.dither), (1, 1));
    assert_eq!(job.call, KernelCall::Controlled(Gate::Z, 0, 1));
    rpdq_perform(&mut s, Some(job));
    assert!(s.apply_controlled_gate(Gate::X, 0, 1).is_none());
    let job = s.rpdq_reset(Gate::P(PI_OVER_4), 1);
    assert_eq!((job.rebuild.undither, job.dither), (1, 2));
    assert_eq!(job.rebuild.replay, vec![KernelCall::Controlled(Gate::X, 0, 1)]);
    rpdq_perform(&mut s, Some(job));
    assert_eq!(s.reset_index, 2);
    assert_eq!(s.residual_norms.len(), 5);
    assert_eq!(s.fidelity_estimates.len(), 4);
    assert_eq!(s.decompression_count, 4);
    assert!(s.tableau.is_identity());
    assert_eq!(s.compressed_bytes(), s.compressed.packed_indices);
}

#[test]
fn a_schedule_keeps_the_norm_and_is_undone() {
    let start: Vec<f64> = (0..16).map(|i| (i as f64) / 7.0 - 1.0).collect();
    let squares = |v: &[f64]| v.iter().map(|x| x * x).sum::<f64>();
    let there = schedule(16, 0xC0DE, 3);
    assert_eq!(there.len(), 3 * 8);
    let mut v = start.clone();
    rotate(&mut v, &there);
    assert!(v.iter().zip(&start).any(|(a, b)| (a - b).abs() > 1e-3));
    assert!((squares(&v) - squares(&start)).abs() < 1e-10);
    rotate(&mut v, &inverse_schedule(&there));
    for (a, b) in v.iter().zip(&start) {
        assert!((a - b).abs() < 1e-12);
    }
}

#[test]
fn random_states_survive_compression() {
    let mut rng = rand::rngs::StdRng::seed_from_u64(17);
    for (bits, least) in [(2u8, 0.3), (3, 0.5), (4, 0.6), (6, 0.7), (8, 0.7)] {
        for seed in 0..5 {
            let mut d = Dense::new(N);
            for x in d.re.iter_mut().chain(d.im.iter_mut()) {
                *x = rng.gen_range(-1.0..1.0);
            }
            d.normalize();
            let c = nearest(&d, bits, seed);
            assert_eq!(c.block_scales.len(), 16);
            assert_eq!(c.packed_indices.len(), 64 * usize::from(bits));
            let unpacked = turbospin::packing::unpack_indices(&c.packed_indices, bits, 512);
            assert_eq!(turbospin::packing::pack_indices(&unpacked, bits), c.packed_indices);
            let fid = fidelity(&d, &decode(&c));
            assert!(fid > least, "{} bits: {}", bits, fid);
        }
    }
}
