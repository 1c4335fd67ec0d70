use everett::pauli::PauliString;

#[test]
fn pauli_letters_and_text() {
    let p = PauliString::from_bits(vec![true, false, true, false], vec![false, false, true, true], true);
    assert_eq!(p.num_qubits(), 4);
    assert!(p.is_negative());
    assert_eq!(p.pauli(0), 'X');
    assert_eq!(p.pauli(1), 'I');
    assert_eq!(p.pauli(2), 'Y');
    assert_eq!(p.pauli(3), 'Z');
    assert_eq!(p.to_string(), "-XIYZ");
}

#[test]
fn y_acts_with_a_quarter_turn() {
    let y = PauliString::from_bits(vec![true], vec![true], false);
    assert_eq!(y.phase_power(), 1);
    assert_eq!(y.basis_action(0), (1, false));
    assert_eq!(y.basis_action(1), (0, true));
}

#[test]
fn negative_z_flips_the_sign_of_one() {
    let z = PauliString::from_bits(vec![false], vec![true], true);
    assert_eq!(z.phase_power(), 2);
    assert_eq!(z.basis_action(0), (0, false));
    assert_eq!(z.basis_action(1), (1, true));
}

#[test]
fn two_qubit_action_combines_flips_and_signs() {
    // X on qubit 0, Z on qubit 1.
    let p = PauliString::from_bits(vec![true, false], vec![false, true], false);
    assert_eq!(p.to_string(), "+XZ");
    assert_eq!(p.phase_power(), 0);
    assert_eq!(p.basis_action(0b10), (0b11, true));
    assert_eq!(p.basis_action(0b01), (0b00, false));
    // three Y and a negative sign: 3 + 2 quarter turns.
    let q = PauliString::from_bits(vec![true; 3], vec![true; 3], true);
    assert_eq!(q.phase_power(), 1);
}
