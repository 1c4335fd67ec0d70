use everett::circuit::Circuit;
use everett::clifford::{Clifford1, Clifford2};
use everett::op::Op;
use everett::{ClassicalBit, Error, QubitId};

type CliffordCircuit = Circuit<Option<Clifford1>, Option<Clifford2>>;

#[test]
fn fluent_chaining_records_ops() {
    let mut c = CliffordCircuit::new(2);
    c.gate1(Some(Clifford1::H), 0).gate2(Some(Clifford2::Cnot), 0, 1);
    assert_eq!(c.len(), 2);
    assert!(c.validate().is_ok());
}

#[test]
fn out_of_range_qubit_is_rejected() {
    let mut c = CliffordCircuit::new(2);
    c.gate1(Some(Clifford1::H), 5);
    assert!(matches!(
        c.validate(),
        Err(Error::QubitOutOfRange { num_qubits: 2, .. })
    ));
}

#[test]
fn duplicate_qubit_in_two_qubit_gate_is_rejected() {
    let mut c = CliffordCircuit::new(2);
    c.gate2(Some(Clifford2::Cnot), 1, 1);
    assert!(matches!(c.validate(), Err(Error::DuplicateQubit { .. })));
}

#[test]
fn measure_into_missing_classical_bit_is_rejected() {
    let mut c = CliffordCircuit::new(1); // no classical bits
    c.measure(0, 0);
    assert!(matches!(
        c.validate(),
        Err(Error::ClassicalBitOutOfRange { .. })
    ));
}

#[test]
fn compose_inlines_ops() {
    let mut sub = CliffordCircuit::new(2);
    sub.gate1(Some(Clifford1::H), 0).gate2(Some(Clifford2::Cnot), 0, 1);
    let mut c = CliffordCircuit::new(2);
    c.compose(&sub).gate1(Some(Clifford1::X), 0);
    assert_eq!(c.len(), 3);
}

#[test]
fn classical_control_validates_recursively() {
    let mut c = CliffordCircuit::with_classical(1, 1);
    c.if_classic(
        0,
        Op::Apply1 {
            gate: Some(Clifford1::X),
            target: QubitId(3), // qubit 3 doesn't exist
        },
    );
    assert!(matches!(c.validate(), Err(Error::QubitOutOfRange { .. })));
}

#[test]
fn validate_reports_the_first_problem_in_order() {
    let mut c = CliffordCircuit::with_classical(2, 1);
    c.gate1(Some(Clifford1::H), 0)
        .measure(1, 4)
        .gate2(Some(Clifford2::Cz), 0, 7);
    assert_eq!(
        c.validate(),
        Err(Error::ClassicalBitOutOfRange {
            bit: ClassicalBit(4),
            num_classical: 1,
        })
    );
}

#[test]
fn controlled_gate_target_among_controls_is_duplicate() {
    let mut c = CliffordCircuit::new(3);
    c.controlled(&[0, 2], Some(Clifford1::X), 2);
    assert_eq!(
        c.validate(),
        Err(Error::DuplicateQubit { qubit: QubitId(2) })
    );
    let mut ok = CliffordCircuit::new(3);
    ok.controlled(&[0, 1], Some(Clifford1::X), 2);
    assert_eq!(ok.validate(), Ok(()));
}

#[test]
fn controlled_out_of_range_target_comes_first() {
    let mut c = CliffordCircuit::new(2);
    c.controlled(&[5], Some(Clifford1::Z), 9);
    assert_eq!(
        c.validate(),
        Err(Error::QubitOutOfRange {
            qubit: QubitId(9),
            num_qubits: 2,
        })
    );
}

#[test]
fn builders_record_the_given_operations() {
    let mut c = CliffordCircuit::with_classical(2, 2);
    c.measure(1, 0);
    assert_eq!(c.num_qubits(), 2);
    assert_eq!(c.num_classical(), 2);
    assert!(!c.is_empty());
    assert_eq!(
        c.ops()[0],
        Op::Measure {
            qubit: QubitId(1),
            into: ClassicalBit(0),
        }
    );
    let copy = c.clone();
    assert_eq!(copy.len(), 1);
    assert_eq!(copy.ops()[0], c.ops()[0]);
}

#[test]
fn repeated_control_is_duplicate() {
    let mut c = CliffordCircuit::new(3);
    c.controlled(&[0, 1, 0], Some(Clifford1::X), 2);
    assert_eq!(c.validate(), Err(Error::DuplicateQubit { qubit: QubitId(0) }));
    let mut d = CliffordCircuit::new(3);
    d.controlled(&[1, 0], Some(Clifford1::Z), 2);
    assert_eq!(d.validate(), Ok(()));
}
