//! Clifford primitives and their action on stabilizer-tableau rows.
//!
//! A tableau row is a Pauli string with a sign: per qubit an `(x, z)` bit pair
//! (`I`, `X`, `Z`, `Y` for `00`, `10`, `01`, `11`) and a phase bit `r`
//! (`false` for `+1`, `true` for `-1`). Every Clifford gate the stabilizer
//! backend accepts decomposes into the primitives of [`Prim`], and each
//! primitive acts on every row independently by the Aaronson-Gottesman rules.

use vstd::prelude::*;

verus! {

/// A single-qubit Clifford gate, as recognized up to a global phase.
#[derive(Clone, Copy, PartialEq, Eq, Structural, Debug)]
pub enum Clifford1 {
    /// The identity.
    I,
    /// Hadamard.
    H,
    /// `S = diag(1, i)`.
    S,
    /// `S^dagger = diag(1, -i)`.
    Sdg,
    /// Pauli-X.
    X,
    /// Pauli-Y.
    Y,
    /// Pauli-Z.
    Z,
}

/// A two-qubit Clifford gate, as recognized up to a global phase.
#[derive(Clone, Copy, PartialEq, Eq, Structural, Debug)]
pub enum Clifford2 {
    /// CNOT, first operand the control.
    Cnot,
    /// Controlled-Z.
    Cz,
    /// SWAP.
    Swap,
}

/// The mathematical content of one tableau row: `(x bits, z bits, phase bit)`.
pub type Row = (Seq<bool>, Seq<bool>, bool);

/// A Clifford primitive on the backend's qubit indices.
#[derive(Clone, Copy, PartialEq, Eq, Structural, Debug)]
pub enum Prim {
    /// Hadamard.
    H(usize),
    /// Phase gate `S = diag(1, i)`.
    S(usize),
    /// `S^dagger`.
    Sdg(usize),
    /// Pauli-X.
    X(usize),
    /// Pauli-Y.
    Y(usize),
    /// Pauli-Z.
    Z(usize),
    /// CNOT with control and target.
    Cnot(usize, usize),
}

/// Hadamard on qubit `q` of a row: `r ^= x_q z_q`, then swap `x_q` and `z_q`.
pub open spec fn row_h(row: Row, q: int) -> Row {
    (row.0.update(q, row.1[q]), row.1.update(q, row.0[q]), row.2 != (row.0[q] && row.1[q]))
}

/// Phase gate on qubit `q` of a row: `r ^= x_q z_q`, then `z_q ^= x_q`.
pub open spec fn row_s(row: Row, q: int) -> Row {
    (row.0, row.1.update(q, row.1[q] != row.0[q]), row.2 != (row.0[q] && row.1[q]))
}

/// Pauli-X on qubit `q` of a row: the sign flips where `z_q` is set.
pub open spec fn row_x(row: Row, q: int) -> Row {
    (row.0, row.1, row.2 != row.1[q])
}

/// Pauli-Z on qubit `q` of a row: the sign flips where `x_q` is set.
pub open spec fn row_z(row: Row, q: int) -> Row {
    (row.0, row.1, row.2 != row.0[q])
}

/// Pauli-Y on qubit `q` of a row: the sign flips where exactly one of
/// `x_q`, `z_q` is set.
pub open spec fn row_y(row: Row, q: int) -> Row {
    (row.0, row.1, row.2 != (row.0[q] != row.1[q]))
}

/// CNOT from `a` to `b` on a row:
/// `r ^= x_a z_b (x_b ^ z_a ^ 1)`, then `x_b ^= x_a`, `z_a ^= z_b`.
pub open spec fn row_cnot(row: Row, a: int, b: int) -> Row {
    (
        row.0.update(b, row.0[b] != row.0[a]),
        row.1.update(a, row.1[a] != row.1[b]),
        row.2 != (row.0[a] && row.1[b] && (row.0[b] == row.1[a])),
    )
}

/// The action of primitive `p` on one row. `S^dagger` acts as `S` then `Z`.
pub open spec fn row_prim(row: Row, p: Prim) -> Row {
    match p {
        Prim::H(q) => row_h(row, q as int),
        Prim::S(q) => row_s(row, q as int),
        Prim::Sdg(q) => row_z(row_s(row, q as int), q as int),
        Prim::X(q) => row_x(row, q as int),
        Prim::Y(q) => row_y(row, q as int),
        Prim::Z(q) => row_z(row, q as int),
        Prim::Cnot(a, b) => row_cnot(row, a as int, b as int),
    }
}

/// The qubits a primitive acts on are all below `n`, and a CNOT's two
/// operands are distinct.
pub open spec fn prim_in_range(p: Prim, n: nat) -> bool {
    match p {
        Prim::H(q) => q < n,
        Prim::S(q) => q < n,
        Prim::Sdg(q) => q < n,
        Prim::X(q) => q < n,
        Prim::Y(q) => q < n,
        Prim::Z(q) => q < n,
        Prim::Cnot(a, b) => a < n && b < n && a != b,
    }
}

/// A row over `n` qubits.
pub open spec fn row_wf(row: Row, n: nat) -> bool {
    row.0.len() == n && row.1.len() == n
}

/// Applies primitive `p` to the first `active` rows of a tableau, leaving the
/// remaining rows (the scratch row) untouched.
pub open spec fn apply_prim_rows(t: Seq<Row>, active: nat, p: Prim) -> Seq<Row> {
    Seq::new(t.len(), |i: int| if i < active { row_prim(t[i], p) } else { t[i] })
}

/// Applies a sequence of primitives, first to last.
pub open spec fn apply_prims_rows(t: Seq<Row>, active: nat, ps: Seq<Prim>) -> Seq<Row>
    decreases ps.len(),
{
    if ps.len() == 0 {
        t
    } else {
        apply_prim_rows(apply_prims_rows(t, active, ps.drop_last()), active, ps.last())
    }
}

/// The exponent of `i` (one of `-1`, `0`, `1`) picked up when the single-qubit
/// Pauli `(x1, z1)` is multiplied by `(x2, z2)`.
pub open spec fn pauli_g(x1: bool, z1: bool, x2: bool, z2: bool) -> int {
    let b = |v: bool| if v { 1int } else { 0int };
    if !x1 && !z1 {
        0
    } else if x1 && z1 {
        b(z2) - b(x2)
    } else if x1 && !z1 {
        b(z2) * (2 * b(x2) - 1)
    } else {
        b(x2) * (1 - 2 * b(z2))
    }
}

/// The sum of `pauli_g` over the first `k` qubits of rows `j` (left factor)
/// and `h` (right factor).
pub open spec fn g_sum(j: Row, h: Row, k: nat) -> int
    decreases k,
{
    if k == 0 {
        0
    } else {
        g_sum(j, h, (k - 1) as nat) + pauli_g(
            j.0[k - 1],
            j.1[k - 1],
            h.0[k - 1],
            h.1[k - 1],
        )
    }
}

/// The bitwise exclusive or of two bit strings of equal length.
pub open spec fn xor_bits(a: Seq<bool>, b: Seq<bool>) -> Seq<bool> {
    Seq::new(a.len(), |q: int| a[q] != b[q])
}

/// The Pauli product `h * j` of two rows over `n` qubits, as the tableau's
/// `rowsum` computes it: bits combine by exclusive or, and the sign is `-1`
/// exactly when `2 r_h + 2 r_j + sum_q g(j_q, h_q)` is `2` modulo `4`.
pub open spec fn row_mul(h: Row, j: Row, n: nat) -> Row {
    let b = |v: bool| if v { 1int } else { 0int };
    (
        xor_bits(h.0, j.0),
        xor_bits(h.1, j.1),
        (2 * b(h.2) + 2 * b(j.2) + g_sum(j, h, n)) % 4 == 2,
    )
}

/// All-false bit string of length `n`.
pub open spec fn zeros(n: nat) -> Seq<bool> {
    Seq::new(n, |q: int| false)
}

/// Bit string of length `n` with only bit `k` set.
pub open spec fn unit(n: nat, k: int) -> Seq<bool> {
    Seq::new(n, |q: int| q == k)
}

/// The identity Pauli operator with a `+1` sign.
pub open spec fn identity_row(n: nat) -> Row {
    (zeros(n), zeros(n), false)
}

/// The tableau of `|0...0>` on `n` qubits: destabilizer `i` is `X_i`,
/// stabilizer `i` is `Z_i`, and the scratch row is the identity.
pub open spec fn zero_state_rows(n: nat) -> Seq<Row> {
    Seq::new(2 * n + 1, |i: int| zero_state_row(n, i))
}

/// Row `i` of the `|0...0>` tableau on `n` qubits.
pub open spec fn zero_state_row(n: nat, i: int) -> Row {
    if i < n {
        (unit(n, i), zeros(n), false)
    } else if i < 2 * n {
        (zeros(n), unit(n, i - n), false)
    } else {
        identity_row(n)
    }
}

/// The primitive decomposition of a single-qubit Clifford gate on `target`.
pub open spec fn decompose1(g: Clifford1, target: usize) -> Seq<Prim> {
    match g {
        Clifford1::I => seq![],
        Clifford1::H => seq![Prim::H(target)],
        Clifford1::S => seq![Prim::S(target)],
        Clifford1::Sdg => seq![Prim::Sdg(target)],
        Clifford1::X => seq![Prim::X(target)],
        Clifford1::Y => seq![Prim::Y(target)],
        Clifford1::Z => seq![Prim::Z(target)],
    }
}

/// The primitive decomposition of a two-qubit Clifford gate on `(a, b)`:
/// `CZ = (I x H) CNOT (I x H)` and `SWAP` is three alternating CNOTs.
pub open spec fn decompose2(g: Clifford2, a: usize, b: usize) -> Seq<Prim> {
    match g {
        Clifford2::Cnot => seq![Prim::Cnot(a, b)],
        Clifford2::Cz => seq![Prim::H(b), Prim::Cnot(a, b), Prim::H(b)],
        Clifford2::Swap => seq![Prim::Cnot(a, b), Prim::Cnot(b, a), Prim::Cnot(a, b)],
    }
}

/// The decomposition of a single-qubit gate controlled by one qubit, when the
/// result is Clifford: controlled-X is a CNOT, controlled-Y is a CNOT
/// conjugated by `S^dagger` then `S` on the target (`S X S^dagger = Y`),
/// controlled-Z is a CNOT conjugated by Hadamards on the target, and a
/// controlled identity is empty.
pub open spec fn decompose_controlled(g: Clifford1, control: usize, target: usize) -> Option<Seq<Prim>> {
    match g {
        Clifford1::X => Some(seq![Prim::Cnot(control, target)]),
        Clifford1::Y => Some(seq![Prim::Sdg(target), Prim::Cnot(control, target), Prim::S(target)]),
        Clifford1::Z => Some(seq![Prim::H(target), Prim::Cnot(control, target), Prim::H(target)]),
        Clifford1::I => Some(seq![]),
        _ => None,
    }
}

/// The primitive decomposition of a single-qubit Clifford gate, written on the
/// placeholder qubit 0; [`remap1`] moves it onto the real target.
pub fn clifford1(g: Clifford1) -> (ps: Vec<Prim>)
    ensures
        ps@ == decompose1(g, 0),
{
    let ps = match g {
        Clifford1::I => vec![],
        Clifford1::H => vec![Prim::H(0)],
        Clifford1::S => vec![Prim::S(0)],
        Clifford1::Sdg => vec![Prim::Sdg(0)],
        Clifford1::X => vec![Prim::X(0)],
        Clifford1::Y => vec![Prim::Y(0)],
        Clifford1::Z => vec![Prim::Z(0)],
    };
    assert(ps@ =~= decompose1(g, 0));
    ps
}

/// A single-qubit primitive moved onto qubit `target`.
pub open spec fn remapped(p: Prim, target: usize) -> Prim {
    match p {
        Prim::H(_) => Prim::H(target),
        Prim::S(_) => Prim::S(target),
        Prim::Sdg(_) => Prim::Sdg(target),
        Prim::X(_) => Prim::X(target),
        Prim::Y(_) => Prim::Y(target),
        Prim::Z(_) => Prim::Z(target),
        Prim::Cnot(a, b) => Prim::Cnot(a, b),
    }
}

/// Rewrites a single-qubit primitive onto the real target.
pub fn remap1(p: &Prim, target: usize) -> (r: Prim)
    requires
        !(*p is Cnot),
    ensures
        r == remapped(*p, target),
{
    match *p {
        Prim::H(_) => Prim::H(target),
        Prim::S(_) => Prim::S(target),
        Prim::Sdg(_) => Prim::Sdg(target),
        Prim::X(_) => Prim::X(target),
        Prim::Y(_) => Prim::Y(target),
        Prim::Z(_) => Prim::Z(target),
        Prim::Cnot(a, b) => Prim::Cnot(a, b),
    }
}

/// The primitive decomposition of a two-qubit Clifford gate on operands
/// `(a, b)`.
pub fn clifford2(g: Clifford2, a: usize, b: usize) -> (ps: Vec<Prim>)
    ensures
        ps@ == decompose2(g, a, b),
{
    let ps = match g {
        Clifford2::Cnot => vec![Prim::Cnot(a, b)],
        // CZ = (I x H) CNOT (I x H).
        Clifford2::Cz => vec![Prim::H(b), Prim::Cnot(a, b), Prim::H(b)],
        Clifford2::Swap => vec![Prim::Cnot(a, b), Prim::Cnot(b, a), Prim::Cnot(a, b)],
    };
    assert(ps@ =~= decompose2(g, a, b));
    ps
}

/// The decomposition of gate `g` controlled by `control` on `target`, if the
/// controlled gate is Clifford.
pub fn controlled_clifford(g: Clifford1, control: usize, target: usize) -> (ps: Option<Vec<Prim>>)
    ensures
        match ps {
            Some(v) => decompose_controlled(g, control, target) == Some(v@),
            None => decompose_controlled(g, control, target) is None,
        },
{
    match g {
        Clifford1::X => {
            let v = vec![Prim::Cnot(control, target)];
            assert(v@ =~= seq![Prim::Cnot(control, target)]);
            Some(v)
        },
        Clifford1::Y => {
            let v = vec![Prim::Sdg(target), Prim::Cnot(control, target), Prim::S(target)];
            assert(v@ =~= seq![Prim::Sdg(target), Prim::Cnot(control, target), Prim::S(target)]);
            Some(v)
        },
        Clifford1::Z => {
            let v = vec![Prim::H(target), Prim::Cnot(control, target), Prim::H(target)];
            assert(v@ =~= seq![Prim::H(target), Prim::Cnot(control, target), Prim::H(target)]);
            Some(v)
        },
        Clifford1::I => {
            let v: Vec<Prim> = vec![];
            assert(v@ =~= Seq::<Prim>::empty());
            Some(v)
        },
        _ => None,
    }
}

} // verus!
