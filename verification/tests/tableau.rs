use turbospin::tableau::CliffordTableau;

fn unit(n: usize, i: usize) -> Vec<u8> {
    let mut v = vec![0u8; n];
    v[i] = 1;
    v
}

#[test]
fn test_identity_tableau() {
    let t = CliffordTableau::new(4);
    assert!(t.is_identity());
}

#[test]
fn test_h_is_self_inverse() {
    let mut t = CliffordTableau::new(4);
    t.h(0);
    t.h(0);
    assert!(t.is_identity());
}

#[test]
fn test_s_is_self_inverse_after_four() {
    let mut t = CliffordTableau::new(4);
    for _ in 0..4 {
        t.s(0);
    }
    assert!(t.is_identity());
}

#[test]
fn test_cnot_is_self_inverse() {
    let mut t = CliffordTableau::new(4);
    t.cnot(0, 1);
    t.cnot(0, 1);
    assert!(t.is_identity());
}

#[test]
fn test_x_decomposition() {
    let mut t = CliffordTableau::new(4);
    t.x(0);
    // X = H·S·S·H should be idempotent: X·X = I
    t.x(0);
    assert!(t.is_identity());
}

#[test]
fn test_z_decomposition() {
    let mut t = CliffordTableau::new(4);
    t.z(0);
    t.z(0);
    assert!(t.is_identity());
}

#[test]
fn test_conjugate_pauli_identity() {
    let t = CliffordTableau::new(4);
    // Under identity, P = X_0 Z_1 should map to itself
    let mut x = vec![0u8; 4];
    let mut z = vec![0u8; 4];
    x[0] = 1; // X on qubit 0
    z[1] = 1; // Z on qubit 1
    let (tx, tz, phase) = t.conjugate_pauli(&x, &z);
    assert_eq!(tx, x);
    assert_eq!(tz, z);
    assert_eq!(phase, 1);
}

#[test]
fn test_conjugate_pauli_h() {
    let mut t = CliffordTableau::new(4);
    t.h(0);
    // Under H, X_0 → Z_0
    let x = vec![1u8, 0, 0, 0];
    let z = vec![0u8; 4];
    let (tx, tz, phase) = t.conjugate_pauli(&x, &z);
    assert_eq!(tx, vec![0u8; 4]);
    assert_eq!(tz, vec![1u8, 0, 0, 0]);
    assert_eq!(phase, 1);
}

#[test]
fn test_conjugate_pauli_h_on_z() {
    let mut t = CliffordTableau::new(4);
    t.h(0);
    // Under H, Z_0 → X_0
    let x = vec![0u8; 4];
    let z = vec![1u8, 0, 0, 0];
    let (tx, tz, phase) = t.conjugate_pauli(&x, &z);
    assert_eq!(tx, vec![1u8, 0, 0, 0]);
    assert_eq!(tz, vec![0u8; 4]);
    assert_eq!(phase, 1);
}

#[test]
fn test_conjugate_pauli_cnot() {
    let mut t = CliffordTableau::new(2);
    t.cnot(0, 1);
    // Under CNOT(0,1), X_0 → X_0 X_1
    let x = vec![1u8, 0];
    let z = vec![0u8; 2];
    let (tx, tz, phase) = t.conjugate_pauli(&x, &z);
    assert_eq!(tx, vec![1u8, 1]);
    assert_eq!(tz, vec![0u8; 2]);
    assert_eq!(phase, 1);
}

#[test]
fn test_cnot_on_z_t() {
    let mut t = CliffordTableau::new(2);
    t.cnot(0, 1);
    // Under CNOT(0,1), Z_1 → Z_0 Z_1
    let x = vec![0u8; 2];
    let z = vec![0u8, 1];
    let (tx, tz, phase) = t.conjugate_pauli(&x, &z);
    assert_eq!(tx, vec![0u8; 2]);
    assert_eq!(tz, vec![1u8, 1]);
    assert_eq!(phase, 1);
}

#[test]
fn test_compose() {
    let mut t1 = CliffordTableau::new(3);
    t1.h(0);
    let mut t2 = CliffordTableau::new(3);
    t2.cnot(0, 1);
    // After compose, t2 = t1·t2 = H·CNOT
    t2.compose(&mut t1);
    // (H·CNOT)·X_0·(H·CNOT)† = H·(X_0 X_1)·H† = Z_0 X_1
    let x = vec![1u8, 0, 0];
    let z = vec![0u8; 3];
    let (tx, tz, phase) = t2.conjugate_pauli(&x, &z);
    assert_eq!(tx, vec![0u8, 1, 0]); // X_1
    assert_eq!(tz, vec![1u8, 0, 0]); // Z_0
    assert_eq!(phase, 1);
}

#[test]
fn pauli_gates_flip_signs() {
    let none = vec![0u8; 2];
    let mut t = CliffordTableau::new(2);
    t.x(0);
    assert_eq!(t.conjugate_pauli(&none, &unit(2, 0)), (none.clone(), unit(2, 0), -1));
    assert_eq!(t.conjugate_pauli(&unit(2, 0), &none), (unit(2, 0), none.clone(), 1));
    let mut t = CliffordTableau::new(2);
    t.z(0);
    assert_eq!(t.conjugate_pauli(&none, &unit(2, 0)), (none.clone(), unit(2, 0), 1));
    assert_eq!(t.conjugate_pauli(&unit(2, 0), &none), (unit(2, 0), none.clone(), -1));
    let mut t = CliffordTableau::new(2);
    t.y(0);
    assert_eq!(t.conjugate_pauli(&none, &unit(2, 0)), (none.clone(), unit(2, 0), -1));
    assert_eq!(t.conjugate_pauli(&unit(2, 0), &none), (unit(2, 0), none.clone(), -1));
    t.y(0);
    assert!(t.is_identity());
}

#[test]
fn phase_gate_sends_x_to_y_and_y_to_minus_x() {
    let mut t = CliffordTableau::new(1);
    t.s(0);
    assert_eq!(t.conjugate_pauli(&[1], &[0]), (vec![1], vec![1], 1));
    t.s(0);
    assert_eq!(t.conjugate_pauli(&[1], &[0]), (vec![1], vec![0], -1));
    assert_eq!(t.conjugate_pauli(&[0], &[1]), (vec![0], vec![1], 1));
}

#[test]
fn hadamard_sends_y_to_minus_y() {
    let mut t = CliffordTableau::new(1);
    t.s(0);
    t.h(0);
    // X → Y → -Y
    assert_eq!(t.conjugate_pauli(&[1], &[0]), (vec![1], vec![1], -1));
}

#[test]
fn product_picks_up_the_order_of_z_and_x() {
    let mut t = CliffordTableau::new(1);
    t.h(0);
    // X·Z → Z·X = -X·Z
    assert_eq!(t.conjugate_pauli(&[1], &[1]), (vec![1], vec![1], -1));
}

#[test]
fn cnot_sign_rule() {
    let mut t = CliffordTableau::new(2);
    // X_0 Z_1 under CNOT(0,1): Y_0 Y_1 up to sign, with X_0 → X_0 X_1 and Z_1 → Z_0 Z_1
    t.cnot(0, 1);
    assert_eq!(t.conjugate_pauli(&[1, 0], &[0, 1]), (vec![1, 1], vec![1, 1], 1));
}

#[test]
fn nonzero_bytes_select() {
    let mut t = CliffordTableau::new(2);
    t.h(1);
    assert_eq!(t.conjugate_pauli(&[0, 7], &[0, 0]), (vec![0, 0], vec![0, 1], 1));
}

#[test]
fn compose_keeps_signs() {
    // R1 = X flips the sign of Z; composing with the identity must not lose it.
    let mut t = CliffordTableau::new(2);
    t.x(0);
    t.compose(&CliffordTableau::new(2));
    assert_eq!(t.conjugate_pauli(&[0, 0], &[1, 0]), (vec![0, 0], vec![1, 0], -1));
    t.x(0);
    assert!(t.is_identity());
}

#[test]
fn composing_phase_gates_is_applying_them() {
    let mut s = CliffordTableau::new(1);
    s.s(0);
    let mut t = CliffordTableau::new(1);
    for _ in 0..4 {
        t.compose(&s);
    }
    assert!(t.is_identity());
    t.compose(&s);
    t.compose(&s);
    // Z sends X to -X
    assert_eq!(t.conjugate_pauli(&[1], &[0]), (vec![1], vec![0], -1));
}

#[test]
fn composition_is_running_one_circuit_after_the_other() {
    let mut first = CliffordTableau::new(3);
    first.h(0);
    first.s(1);
    first.cnot(0, 2);
    first.y(1);
    let mut second = CliffordTableau::new(3);
    second.cnot(1, 0);
    second.s(0);
    second.h(2);
    second.x(1);
    second.s(2);
    let mut both = CliffordTableau::new(3);
    both.h(0);
    both.s(1);
    both.cnot(0, 2);
    both.y(1);
    both.cnot(1, 0);
    both.s(0);
    both.h(2);
    both.x(1);
    both.s(2);
    first.compose(&second);
    for i in 0..3 {
        let none = vec![0u8; 3];
        assert_eq!(
            first.conjugate_pauli(&unit(3, i), &none),
            both.conjugate_pauli(&unit(3, i), &none)
        );
        assert_eq!(
            first.conjugate_pauli(&none, &unit(3, i)),
            both.conjugate_pauli(&none, &unit(3, i))
        );
    }
}

#[test]
fn identity_is_recognised_by_signs_too() {
    let mut t = CliffordTableau::new(1);
    t.x(0);
    assert!(!t.is_identity());
    t.x(0);
    assert!(t.is_identity());
    t.h(0);
    assert!(!t.is_identity());
    assert!(CliffordTableau::new(0).is_identity());
}

#[test]
fn swap_from_three_cnots() {
    let mut t = CliffordTableau::new(2);
    t.cnot(0, 1);
    t.cnot(1, 0);
    t.cnot(0, 1);
    assert_eq!(t.conjugate_pauli(&[1, 0], &[0, 0]), (vec![0, 1], vec![0, 0], 1));
    assert_eq!(t.conjugate_pauli(&[0, 0], &[0, 1]), (vec![0, 0], vec![1, 0], 1));
}
