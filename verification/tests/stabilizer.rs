use everett::circuit::Circuit;
use everett::clifford::{Clifford1, Clifford2};
use everett::stabilizer::StabilizerBackend;
use everett::op::Op;
use everett::{Error, QubitId};

type CliffordCircuit = Circuit<Option<Clifford1>, Option<Clifford2>>;

fn generator_texts(c: &CliffordCircuit) -> Vec<String> {
    let exec = StabilizerBackend::run(c).unwrap();
    exec.generators().iter().map(|g| g.to_string()).collect()
}

#[test]
fn ghz_has_n_generators() {
    let mut c = CliffordCircuit::new(4);
    c.gate1(Some(Clifford1::H), 0)
        .gate2(Some(Clifford2::Cnot), 0, 1)
        .gate2(Some(Clifford2::Cnot), 1, 2)
        .gate2(Some(Clifford2::Cnot), 2, 3);
    let exec = StabilizerBackend::run(&c).unwrap();
    assert_eq!(exec.generators().len(), 4);
}

#[test]
fn t_gate_is_rejected() {
    // a gate not recognized as Clifford (such as T) is carried as `None`.
    let mut c = CliffordCircuit::new(1);
    c.gate1(None, 0);
    assert!(matches!(
        StabilizerBackend::run(&c),
        Err(Error::NonClifford { .. })
    ));
}

#[test]
fn generic_rotation_is_rejected() {
    let mut c = CliffordCircuit::new(1);
    c.gate1(None, 0);
    assert_eq!(
        StabilizerBackend::run(&c).err(),
        Some(Error::NonClifford {
            gate: "non-Clifford 1-qubit gate"
        })
    );
}

#[test]
fn bell_measurement_is_correlated() {
    // measure both halves of a Bell pair many times; outcomes must agree.
    for seed in 0..32 {
        let mut c = CliffordCircuit::with_classical(2, 2);
        c.gate1(Some(Clifford1::H), 0)
            .gate2(Some(Clifford2::Cnot), 0, 1)
            .measure(0, 0)
            .measure(1, 1);
        let exec = StabilizerBackend::run_seeded(&c, seed).unwrap();
        assert_eq!(exec.classical()[0], exec.classical()[1]);
    }
}

#[test]
fn deterministic_measurement_of_zero() {
    let mut c = CliffordCircuit::with_classical(1, 1);
    c.measure(0, 0);
    let exec = StabilizerBackend::run(&c).unwrap();
    assert!(!exec.classical()[0]);
}

#[test]
fn large_ghz_is_feasible() {
    // 200 qubits: utterly infeasible for a statevector simulation.
    let n = 200;
    let mut c = CliffordCircuit::new(n);
    c.gate1(Some(Clifford1::H), 0);
    for k in 0..n - 1 {
        c.gate2(Some(Clifford2::Cnot), k, k + 1);
    }
    let exec = StabilizerBackend::run(&c).unwrap();
    assert_eq!(exec.generators().len(), n);
}

#[test]
fn non_clifford_circuit_is_rejected() {
    let mut c = CliffordCircuit::new(1);
    c.gate1(Some(Clifford1::H), 0).gate1(None, 0);
    assert!(StabilizerBackend::run(&c).is_err());
}

#[test]
fn bell_pair_generators() {
    let mut c = CliffordCircuit::new(2);
    c.gate1(Some(Clifford1::H), 0).gate2(Some(Clifford2::Cnot), 0, 1);
    assert_eq!(generator_texts(&c), vec!["+XX", "+ZZ"]);
}

#[test]
fn single_qubit_cliffords_map_z_as_expected() {
    let cases = [
        (Clifford1::I, "+Z"),
        (Clifford1::H, "+X"),
        (Clifford1::X, "-Z"),
        (Clifford1::Y, "-Z"),
        (Clifford1::Z, "+Z"),
        (Clifford1::S, "+Z"),
        (Clifford1::Sdg, "+Z"),
    ];
    for (g, expected) in cases {
        let mut c = CliffordCircuit::new(1);
        c.gate1(Some(g), 0);
        assert_eq!(generator_texts(&c), vec![expected], "gate {g:?}");
    }
}

#[test]
fn phase_gates_rotate_x_into_y() {
    let mut c = CliffordCircuit::new(1);
    c.gate1(Some(Clifford1::H), 0).gate1(Some(Clifford1::S), 0);
    assert_eq!(generator_texts(&c), vec!["+Y"]);
    let mut d = CliffordCircuit::new(1);
    d.gate1(Some(Clifford1::H), 0).gate1(Some(Clifford1::Sdg), 0);
    assert_eq!(generator_texts(&d), vec!["-Y"]);
}

#[test]
fn hadamard_twice_is_identity() {
    let mut c = CliffordCircuit::new(1);
    c.gate1(Some(Clifford1::H), 0).gate1(Some(Clifford1::H), 0);
    assert_eq!(generator_texts(&c), vec!["+Z"]);
}

#[test]
fn swap_and_cz_act_on_both_operands() {
    let mut c = CliffordCircuit::new(2);
    c.gate1(Some(Clifford1::X), 0).gate2(Some(Clifford2::Swap), 0, 1);
    assert_eq!(generator_texts(&c), vec!["-IZ", "+ZI"]);
    let mut d = CliffordCircuit::new(2);
    d.gate1(Some(Clifford1::H), 0).gate1(Some(Clifford1::H), 1).gate2(Some(Clifford2::Cz), 0, 1);
    assert_eq!(generator_texts(&d), vec!["+XZ", "+ZX"]);
}

#[test]
fn measuring_a_flipped_qubit_reads_one() {
    let mut c = CliffordCircuit::with_classical(2, 2);
    c.gate1(Some(Clifford1::X), 1).measure(0, 0).measure(1, 1);
    let exec = StabilizerBackend::run(&c).unwrap();
    assert_eq!(exec.classical(), &[false, true]);
}

#[test]
fn classically_controlled_flip_follows_the_bit() {
    let mut c = CliffordCircuit::with_classical(2, 2);
    c.gate1(Some(Clifford1::X), 0).measure(0, 0).if_classic(
        0,
        everett::op::Op::Apply1 {
            gate: Some(Clifford1::X),
            target: everett::QubitId(1),
        },
    );
    c.measure(1, 1);
    let exec = StabilizerBackend::run(&c).unwrap();
    assert_eq!(exec.classical(), &[true, true]);
}

#[test]
fn controlled_x_acts_as_cnot() {
    let mut c = CliffordCircuit::new(2);
    c.gate1(Some(Clifford1::H), 0).controlled(&[0], Some(Clifford1::X), 1);
    assert_eq!(generator_texts(&c), vec!["+XX", "+ZZ"]);
}

#[test]
fn multi_controlled_gate_is_rejected() {
    let mut c = CliffordCircuit::new(3);
    c.controlled(&[0, 1], Some(Clifford1::X), 2);
    assert_eq!(
        StabilizerBackend::run(&c).err(),
        Some(Error::NonClifford {
            gate: "non-Clifford controlled gate"
        })
    );
}

#[test]
fn invalid_circuit_reports_validation_error() {
    let mut c = CliffordCircuit::new(1);
    c.gate1(Some(Clifford1::H), 3);
    assert!(matches!(
        StabilizerBackend::run(&c),
        Err(Error::QubitOutOfRange { .. })
    ));
}

#[test]
fn non_clifford_gate_under_a_clear_bit_is_never_met() {
    let mut c = CliffordCircuit::with_classical(1, 1);
    c.if_classic(
        0,
        everett::op::Op::Apply1 {
            gate: None,
            target: everett::QubitId(0),
        },
    );
    let exec = StabilizerBackend::run(&c).unwrap();
    assert_eq!(exec.classical(), &[false]);
    assert_eq!(exec.generators().len(), 1);
}

#[test]
fn non_clifford_gate_after_measurements_is_rejected_for_every_seed() {
    for seed in 0..8 {
        let mut c = CliffordCircuit::with_classical(2, 2);
        c.gate1(Some(Clifford1::H), 0).measure(0, 0).gate2(None, 0, 1);
        assert_eq!(
            StabilizerBackend::run_seeded(&c, seed).err(),
            Some(Error::NonClifford {
                gate: "non-Clifford 2-qubit gate"
            })
        );
    }
}

#[test]
fn measuring_twice_gives_the_same_outcome() {
    // a random outcome, read again right away, repeats for every seed.
    let mut seen = [false, false];
    for seed in 0..64 {
        let mut c = CliffordCircuit::with_classical(3, 2);
        c.gate1(Some(Clifford1::H), 1)
            .gate2(Some(Clifford2::Cnot), 1, 2)
            .measure(2, 0)
            .measure(2, 1);
        let exec = StabilizerBackend::run_seeded(&c, seed).unwrap();
        assert_eq!(exec.classical()[0], exec.classical()[1]);
        seen[exec.classical()[0] as usize] = true;
    }
    assert!(seen[0] && seen[1]);
}

#[test]
fn controlled_y_is_clifford() {
    // CY fixes |00>: the group of +ZI and +IZ, here written as +ZI, +ZZ.
    let mut c = CliffordCircuit::new(2);
    c.controlled(&[0], Some(Clifford1::Y), 1);
    assert_eq!(generator_texts(&c), vec!["+ZI", "+ZZ"]);
    // on |+0>, CY gives (|00> + i|11>)/sqrt(2), stabilized by +XY and +ZZ.
    let mut d = CliffordCircuit::new(2);
    d.gate1(Some(Clifford1::H), 0).controlled(&[0], Some(Clifford1::Y), 1);
    assert_eq!(generator_texts(&d), vec!["+XY", "+ZZ"]);
}

#[test]
fn teleportation_runs_on_stabilizer_backend() {
    // the corrections leave qubit 2 in |+> whatever the two random outcomes,
    // so its X-basis readout is 0 for every seed.
    for seed in 0..32 {
        let mut c = CliffordCircuit::with_classical(3, 3);
        c.gate1(Some(Clifford1::H), 0);
        c.gate1(Some(Clifford1::H), 1)
            .gate2(Some(Clifford2::Cnot), 1, 2);
        c.gate2(Some(Clifford2::Cnot), 0, 1)
            .gate1(Some(Clifford1::H), 0);
        c.measure(0, 0).measure(1, 1);
        c.if_classic(
            1,
            Op::Apply1 {
                gate: Some(Clifford1::X),
                target: QubitId(2),
            },
        )
        .if_classic(
            0,
            Op::Apply1 {
                gate: Some(Clifford1::Z),
                target: QubitId(2),
            },
        );
        c.gate1(Some(Clifford1::H), 2).measure(2, 2);

        let stab = StabilizerBackend::run_seeded(&c, seed).unwrap();
        assert!(
            !stab.classical()[2],
            "seed {seed}: qubit 2 not in |+> (X-basis readout was 1)"
        );
    }
}

#[test]
fn empty_circuit_is_zero_state() {
    let c = CliffordCircuit::with_classical(3, 2);
    let exec = StabilizerBackend::run_seeded(&c, 7).unwrap();
    let texts: Vec<String> = exec.generators().iter().map(|g| g.to_string()).collect();
    assert_eq!(texts, vec!["+ZII", "+IZI", "+IIZ"]);
    assert_eq!(exec.classical(), &[false, false]);
}
