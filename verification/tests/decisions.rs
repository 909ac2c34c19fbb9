use turbospin::angle::{
    phase_angle, PhaseAngle, ANGLE_TOLERANCE, MINUS_PI_OVER_4, PI, PI_OVER_2, PI_OVER_4,
};
use turbospin::circuit::{choose_mode, dispatch_gate, get_circuit_qubits, DispatchCall, Mode};
use turbospin::dither::{
    apply_dither, apply_inverse_dither, hash_u64, rounding_draws, unit_numerator, Turn,
};
use turbospin::frame::{
    apply_clifford_to_tableau, classify_gate, queue_t_gate, record_op, GateType,
};
use turbospin::gates::{replay, CliffordOp, Controls, Gate, KernelCall};
use turbospin::measure::{conjugate_pauli_inverse, parity, pauli_term, phase_sign, x_mask};
use turbospin::state::State;
use turbospin::tableau::CliffordTableau;

fn classify_angle(a: f64) -> PhaseAngle {
    let eps = 1e-10;
    let pi = std::f64::consts::PI;
    if (a - pi / 4.0).abs() < eps {
        PhaseAngle::QuarterPi
    } else if (a + pi / 4.0).abs() < eps {
        PhaseAngle::MinusQuarterPi
    } else if (a - pi / 2.0).abs() < eps {
        PhaseAngle::HalfPi
    } else if (a + pi / 2.0).abs() < eps {
        PhaseAngle::MinusHalfPi
    } else if (a - pi).abs() < eps {
        PhaseAngle::Pi
    } else if a.abs() < eps {
        PhaseAngle::Zero
    } else {
        PhaseAngle::Other
    }
}

#[test]
fn constants_are_the_doubles_they_name() {
    assert_eq!(PI, std::f64::consts::PI.to_bits());
    assert_eq!(PI_OVER_2, std::f64::consts::FRAC_PI_2.to_bits());
    assert_eq!(PI_OVER_4, std::f64::consts::FRAC_PI_4.to_bits());
    assert_eq!(ANGLE_TOLERANCE, 1e-10f64.to_bits());
}

#[test]
fn angles_are_told_apart_as_with_floats() {
    let pi = std::f64::consts::PI;
    let mut values = vec![0.0, -0.0, 1.0, -1.0, 1e-10, -1e-10, 9.9e-11, f64::NAN, f64::INFINITY];
    values.push(f64::NEG_INFINITY);
    for c in [pi / 4.0, pi / 2.0, pi, 0.0] {
        for s in [1.0, -1.0] {
            for d in [0.0, 1e-10, -1e-10, 0.999e-10, -0.999e-10, 1.001e-10, -1.001e-10] {
                let x = s * c + d;
                let b = x.to_bits();
                values.push(x);
                // The doubles next to it, on both sides
                for k in 1..4u64 {
                    values.push(f64::from_bits(b.wrapping_add(k)));
                    values.push(f64::from_bits(b.wrapping_sub(k)));
                }
            }
        }
    }
    for x in values {
        assert_eq!(phase_angle(x.to_bits()), classify_angle(x), "{:e}", x);
    }
}

#[test]
fn gate_types() {
    for gate in [Gate::H, Gate::X, Gate::Y, Gate::Z, Gate::SWAP(0, 1)] {
        assert_eq!(classify_gate(&gate), GateType::Clifford);
    }
    let p = |x: f64| Gate::P(x.to_bits());
    let pi = std::f64::consts::PI;
    for x in [pi / 2.0, -pi / 2.0, pi, 0.0, -0.0] {
        assert_eq!(classify_gate(&p(x)), GateType::Clifford);
    }
    for x in [pi / 4.0, -pi / 4.0, pi / 4.0 + 5e-11] {
        assert_eq!(classify_gate(&p(x)), GateType::TGate);
    }
    for x in [-pi, 0.3, pi / 4.0 + 2e-10, f64::NAN] {
        assert_eq!(classify_gate(&p(x)), GateType::Arbitrary);
    }
    for gate in [
        Gate::RX(PI),
        Gate::RY(PI_OVER_2),
        Gate::RZ(0),
        Gate::U(0, 0, 0),
        Gate::Unitary,
        Gate::Other,
    ] {
        assert_eq!(classify_gate(&gate), GateType::Arbitrary);
    }
}

#[test]
fn clifford_gates_are_recorded() {
    let mut t = CliffordTableau::new(2);
    let mut ops = Vec::new();
    let minus = (-std::f64::consts::FRAC_PI_2).to_bits();
    for (gate, target) in [
        (Gate::H, 0),
        (Gate::P(PI_OVER_2), 1),
        (Gate::P(minus), 1),
        (Gate::P(PI), 0),
        (Gate::P(0), 0),
        (Gate::SWAP(0, 1), 0),
        (Gate::Y, 1),
    ] {
        apply_clifford_to_tableau(&mut t, &mut ops, &gate, target);
    }
    assert_eq!(
        ops,
        vec![
            CliffordOp::H(0),
            CliffordOp::S(1),
            CliffordOp::S(1),
            CliffordOp::S(1),
            CliffordOp::S(1),
            CliffordOp::Z(0),
            CliffordOp::CNOT(0, 1),
            CliffordOp::CNOT(1, 0),
            CliffordOp::CNOT(0, 1),
            CliffordOp::Y(1),
        ]
    );
    let mut same = CliffordTableau::new(2);
    same.h(0);
    same.z(0);
    same.cnot(0, 1);
    same.cnot(1, 0);
    same.cnot(0, 1);
    same.y(1);
    for i in 0..2 {
        let mut e = vec![0u8; 2];
        e[i] = 1;
        assert_eq!(t.conjugate_pauli(&e, &[0, 0]), same.conjugate_pauli(&e, &[0, 0]));
        assert_eq!(t.conjugate_pauli(&[0, 0], &e), same.conjugate_pauli(&[0, 0], &e));
    }
}

#[test]
fn a_phase_of_pi_is_recorded_as_z() {
    let mut t = CliffordTableau::new(1);
    let mut ops = Vec::new();
    apply_clifford_to_tableau(&mut t, &mut ops, &Gate::P(PI), 0);
    assert_eq!(ops, vec![CliffordOp::Z(0)]);
    assert_eq!(t.conjugate_pauli(&[1], &[0]), (vec![1], vec![0], -1));
}

#[test]
fn waiting_gates_keep_their_sign() {
    let mut t = CliffordTableau::new(2);
    let mut ops = Vec::new();
    let quarter = std::f64::consts::FRAC_PI_4;
    queue_t_gate(&mut t, &mut ops, &Gate::P((-quarter).to_bits()), 0);
    queue_t_gate(&mut t, &mut ops, &Gate::P((quarter + 1e-11).to_bits()), 1);
    assert_eq!(ops, vec![CliffordOp::Tdg(0), CliffordOp::T(1)]);
    assert!(t.is_identity());
    assert_eq!(MINUS_PI_OVER_4, (-quarter).to_bits());
}

#[test]
fn real_parts_of_powers_of_i() {
    let signs: Vec<i8> = (0u8..6).map(phase_sign).collect();
    assert_eq!(signs, vec![1, 0, -1, 0, 1, 0]);
}

#[test]
fn a_swap_moves_letters() {
    let mut t = CliffordTableau::new(3);
    let mut ops = Vec::new();
    apply_clifford_to_tableau(&mut t, &mut ops, &Gate::SWAP(0, 2), 1);
    assert_eq!(t.conjugate_pauli(&[1, 0, 0], &[0, 0, 0]), (vec![0, 0, 1], vec![0, 0, 0], 1));
    assert_eq!(t.conjugate_pauli(&[0, 0, 0], &[0, 0, 1]), (vec![0, 0, 0], vec![1, 0, 0], 1));
}

#[test]
fn operations_replay_as_kernel_calls() {
    let ops = vec![
        CliffordOp::H(0),
        CliffordOp::S(1),
        CliffordOp::X(2),
        CliffordOp::Y(3),
        CliffordOp::Z(4),
        CliffordOp::CNOT(5, 6),
        CliffordOp::T(7),
        CliffordOp::Tdg(8),
    ];
    assert_eq!(
        replay(&ops),
        vec![
            KernelCall::Apply(Gate::H, 0),
            KernelCall::Apply(Gate::P(PI_OVER_2), 1),
            KernelCall::Apply(Gate::X, 2),
            KernelCall::Apply(Gate::Y, 3),
            KernelCall::Apply(Gate::Z, 4),
            KernelCall::Controlled(Gate::X, 5, 6),
            KernelCall::Apply(Gate::P(PI_OVER_4), 7),
            KernelCall::Apply(Gate::P(MINUS_PI_OVER_4), 8),
        ]
    );
    assert_eq!(ops[5].apply_to(), KernelCall::Controlled(Gate::X, 5, 6));
}

#[test]
fn the_way_back_undoes_the_way_there() {
    // R = S: R†·Y·R with Y = i·X·Z, so X·Z goes back to X·Z·(sign and factor of i)
    let ops = vec![CliffordOp::S(0)];
    // S†·X·S = -Y = -i·X·Z = i^3·X·Z
    assert_eq!(conjugate_pauli_inverse(&ops, &[1], &[0]), (vec![1], vec![1], 3));
    assert_eq!(conjugate_pauli_inverse(&ops, &[0], &[1]), (vec![0], vec![1], 0));
    let ops = vec![CliffordOp::X(0)];
    assert_eq!(conjugate_pauli_inverse(&ops, &[0], &[1]), (vec![0], vec![1], 2));
    let ops = vec![CliffordOp::H(0), CliffordOp::CNOT(0, 1)];
    // Z_1 → Z_0 Z_1 → X_0 Z_1
    assert_eq!(
        conjugate_pauli_inverse(&ops, &[0, 0], &[0, 1]),
        (vec![1, 0], vec![0, 1], 0)
    );
    // and there again, by the tableau
    let mut t = CliffordTableau::new(2);
    let mut record = Vec::new();
    for op in &ops {
        record_op(&mut t, &mut record, *op);
    }
    assert_eq!(t.conjugate_pauli(&[1, 0], &[0, 1]), (vec![0, 0], vec![0, 1], 1));
}

#[test]
fn parities_and_masks() {
    assert_eq!(parity(0b1011, &[1, 1, 0, 0]), 1);
    assert_eq!(parity(0b1011, &[1, 0, 0, 0]), -1);
    assert_eq!(parity(0b1011, &[1, 1, 1, 1]), -1);
    assert_eq!(parity(0b1011, &[]), 1);
    assert_eq!(parity(0b100, &[0, 0, 9]), -1);
    assert_eq!(x_mask(&[1, 0, 1, 1]), 0b1101);
    assert_eq!(x_mask(&[]), 0);
    assert_eq!(pauli_term(0b01, &[1, 1], &[1, 0]), (0b10, -1));
    assert_eq!(pauli_term(0b10, &[1, 1], &[1, 0]), (0b01, 1));
}

fn reference_hash(seed: u64, reset_index: u64, j: u64) -> u64 {
    let mut x = seed ^ reset_index.wrapping_mul(0x9E37_79B9_7F4A_7C15);
    x = x.wrapping_add(j);
    x ^= x >> 30;
    x = x.wrapping_mul(0xBF58_476D_1CE4_E5B9);
    x ^= x >> 27;
    x = x.wrapping_mul(0x94D0_49BB_1331_11EB);
    x ^ (x >> 31)
}

#[test]
fn hashes() {
    assert_eq!(hash_u64(0, 0, 0), 0);
    // splitmix64 of its own increment
    assert_eq!(hash_u64(0, 1, 0), 0xE220_A839_7B1D_CDAF);
    for (s, r, j) in [(1u64, 2u64, 3u64), (u64::MAX, 7, 1 << 40), (0xBEEF, u64::MAX, u64::MAX)] {
        assert_eq!(hash_u64(s, r, j), reference_hash(s, r, j));
        assert_eq!(unit_numerator(s, r, j), reference_hash(s, r, j) >> 11);
        assert!(unit_numerator(s, r, j) < 1 << 53);
        assert_ne!(hash_u64(s, r, j), hash_u64(s, r, j ^ 1));
        assert_ne!(hash_u64(s, r, j), hash_u64(s ^ 1, r, j));
        assert_ne!(hash_u64(s, r, j), hash_u64(s, r ^ 1, j));
    }
}

#[test]
fn dither_and_rounding_draw_from_their_own_domains() {
    let state = State { reals: vec![0; 4], imags: vec![0; 4], n: 2 };
    let turns = apply_dither(&state, 11, 3);
    let back = apply_inverse_dither(&state, 11, 3);
    let draws = rounding_draws(4, 11, 3);
    for j in 0..4 {
        let numerator = reference_hash(11, 3 ^ 0xAAAA_AAAA, j as u64) >> 11;
        assert_eq!(turns[j], Turn { numerator, backwards: false });
        assert_eq!(back[j], Turn { numerator, backwards: true });
        assert_eq!(draws[j], reference_hash(11, 3, j as u64 + (1 << 40)) >> 11);
    }
}

#[test]
fn registers_add_up() {
    assert_eq!(get_circuit_qubits(&[]), 0);
    assert_eq!(get_circuit_qubits(&[3, 0, 5]), 8);
}

#[test]
fn gates_are_dispatched_by_their_controls() {
    match dispatch_gate(&Gate::H, &Controls::Free, 2) {
        DispatchCall::Kernel(k) => assert_eq!(k, KernelCall::Apply(Gate::H, 2)),
        _ => panic!("no control"),
    }
    match dispatch_gate(&Gate::H, &Controls::Single(1), 2) {
        DispatchCall::Kernel(k) => assert_eq!(k, KernelCall::Controlled(Gate::H, 1, 2)),
        _ => panic!("one control"),
    }
    match dispatch_gate(&Gate::X, &Controls::Ones(vec![0, 1]), 2) {
        DispatchCall::MultiControlled { gate, controls, zeros, target } => {
            assert_eq!((gate, controls, zeros, target), (Gate::X, vec![0, 1], None, 2));
        }
        _ => panic!("two controls"),
    }
    let mixed = Controls::Mixed { controls: vec![0, 1], zeros: vec![1] };
    match dispatch_gate(&Gate::X, &mixed, 2) {
        DispatchCall::MultiControlled { gate, controls, zeros, target } => {
            assert_eq!((gate, controls, zeros, target), (Gate::X, vec![0, 1], Some(vec![1]), 2));
        }
        _ => panic!("mixed controls"),
    }
}

#[test]
fn modes_of_the_command_line() {
    assert_eq!(choose_mode(0, "rpdq"), Mode::Exact);
    assert_eq!(choose_mode(4, "rpdq"), Mode::Rpdq(4));
    assert_eq!(choose_mode(4, "bacqs"), Mode::Bacqs(4));
    assert_eq!(choose_mode(8, "RPDQ"), Mode::Bacqs(8));
    assert_eq!(choose_mode(8, ""), Mode::Bacqs(8));
}
