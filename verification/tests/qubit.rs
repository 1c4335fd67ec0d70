use everett::{ClassicalBit, QubitId};

#[test]
fn qubit_id_index_roundtrips() {
    assert_eq!(QubitId(3).index(), 3);
}

#[test]
fn classical_bit_index_roundtrips() {
    assert_eq!(ClassicalBit(7).index(), 7);
}

#[test]
fn qubit_id_from_usize() {
    assert_eq!(QubitId::from(2), QubitId(2));
}

#[test]
fn classical_bit_from_usize() {
    assert_eq!(ClassicalBit::from(5), ClassicalBit(5));
}

#[test]
fn qubit_id_display() {
    assert_eq!(QubitId(4).to_string(), "q4");
}

#[test]
fn classical_bit_display() {
    assert_eq!(ClassicalBit(2).to_string(), "c2");
}

#[test]
fn large_indices_display_all_digits() {
    assert_eq!(QubitId(907).to_string(), "q907");
    assert_eq!(ClassicalBit(10).to_string(), "c10");
    assert_eq!(QubitId(0).to_string(), "q0");
}
