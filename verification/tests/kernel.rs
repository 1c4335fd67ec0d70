use everett::kernel::{apply_2q_cnot, apply_2q_swap, control_mask, index_group, index_pair, index_quad};

#[test]
fn index_pair_inserts_zero_bit() {
    // k = 1: i0 must always have bit 1 clear; i1 sets it.
    for i in 0..8 {
        let (i0, i1) = index_pair(1, i);
        assert_eq!(i0 & (1 << 1), 0);
        assert_eq!(i1, i0 | (1 << 1));
    }
}

#[test]
fn index_pair_covers_all_indices_once() {
    // for n = 3, k = 1, the pairs must partition 0..8 exactly.
    let mut seen = [false; 8];
    for i in 0..4 {
        let (i0, i1) = index_pair(1, i);
        assert!(!std::mem::replace(&mut seen[i0], true));
        assert!(!std::mem::replace(&mut seen[i1], true));
    }
    assert!(seen.iter().all(|&b| b));
}

#[test]
fn index_quad_partitions_indices() {
    // n = 3, gate on qubits a=0, b=2: the 2 groups must cover 0..8 once.
    let mut seen = [false; 8];
    for i in 0..2 {
        for &idx in &index_quad(0, 2, i) {
            assert!(!std::mem::replace(&mut seen[idx], true));
        }
    }
    assert!(seen.iter().all(|&b| b));
}

#[test]
fn index_group_2q_covers_all() {
    // two-qubit gate on targets [0, 1] in a 3-qubit register: 2 groups of 4.
    let mut seen = [false; 8];
    for g in 0..2 {
        for &idx in &index_group(&[0, 1], 3, g) {
            assert!(!seen[idx], "index {idx} seen twice");
            seen[idx] = true;
        }
    }
    assert!(seen.iter().all(|&b| b), "not all indices covered");
}

#[test]
fn index_pair_exact_values() {
    // i = 0b101, k = 1: insert a zero at bit 1 -> 0b1001; partner sets it.
    assert_eq!(index_pair(1, 0b101), (0b1001, 0b1011));
    assert_eq!(index_pair(0, 3), (6, 7));
    assert_eq!(index_pair(4, 0), (0, 16));
}

#[test]
fn index_quad_exact_values() {
    // a = 2, b = 0, i = 1: zeros at bits 0 and 2 of 1 -> 0b010.
    assert_eq!(index_quad(2, 0, 1), [0b010, 0b011, 0b110, 0b111]);
    // the operand order fixes which corner is which.
    assert_eq!(index_quad(0, 2, 1), [0b010, 0b110, 0b011, 0b111]);
}

#[test]
fn index_group_orders_members_by_target_bits() {
    // targets [2, 0]: member k sets bit 2 for bit 0 of k, bit 0 for bit 1 of k.
    assert_eq!(index_group(&[2, 0], 3, 1), vec![0b010, 0b110, 0b011, 0b111]);
    assert_eq!(index_group(&[1], 2, 1), vec![0b01, 0b11]);
    assert_eq!(index_group(&[], 2, 3), vec![3]);
}

#[test]
fn index_group_three_targets_cover_register() {
    let mut seen = [false; 16];
    for g in 0..2 {
        for &idx in &index_group(&[3, 0, 2], 4, g) {
            assert!(!seen[idx]);
            seen[idx] = true;
        }
    }
    assert!(seen.iter().all(|&b| b));
}

#[test]
fn cnot_flips_target_when_control_set() {
    // start in |10> (qubit1 set), control=1, target=0 -> |11>.
    let mut amps = vec![0u8, 0, 1, 0];
    apply_2q_cnot(&mut amps, 1, 0);
    assert_eq!(amps, vec![0, 0, 0, 1]);
    let mut labels: Vec<usize> = (0..8).collect();
    apply_2q_cnot(&mut labels, 0, 2);
    // control bit 0 set: bit 2 flipped.
    assert_eq!(labels, vec![0, 5, 2, 7, 4, 1, 6, 3]);
}

#[test]
fn swap_exchanges_operand_bits() {
    let mut labels: Vec<usize> = (0..8).collect();
    apply_2q_swap(&mut labels, 0, 2);
    assert_eq!(labels, vec![0, 4, 2, 6, 1, 5, 3, 7]);
    // swapping twice restores the order.
    apply_2q_swap(&mut labels, 2, 0);
    assert_eq!(labels, (0..8).collect::<Vec<usize>>());
}

#[test]
fn quads_partition_every_register_size() {
    for n in 2..7usize {
        for a in 0..n {
            for b in 0..n {
                if a == b {
                    continue;
                }
                let mut seen = vec![false; 1 << n];
                for i in 0..(1usize << n) / 4 {
                    for &idx in &index_quad(a, b, i) {
                        assert!(!std::mem::replace(&mut seen[idx], true));
                    }
                }
                assert!(seen.iter().all(|&s| s));
            }
        }
    }
}

#[test]
fn control_mask_sets_exactly_the_control_bits() {
    assert_eq!(control_mask(&[]), 0);
    assert_eq!(control_mask(&[0, 3]), 0b1001);
    assert_eq!(control_mask(&[5, 5, 1]), 0b100010);
    assert_eq!(control_mask(&[63]), 1usize << 63);
}

#[test]
fn index_group_bits_follow_the_member_number() {
    let targets = [2usize, 0];
    let mut seen = vec![false; 8];
    for g in 0..2 {
        let v = index_group(&targets, 3, g);
        assert_eq!(v.len(), 4);
        for (k, &idx) in v.iter().enumerate() {
            for (b, &t) in targets.iter().enumerate() {
                assert_eq!((idx >> t) & 1, (k >> b) & 1);
            }
            assert!(!seen[idx]);
            seen[idx] = true;
        }
    }
    assert!(seen.iter().all(|&s| s));
}
