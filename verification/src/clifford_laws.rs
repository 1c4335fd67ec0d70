//! Algebraic laws of the Clifford primitives on tableau rows.
//!
//! Each law is stated for every row of a tableau (every Pauli string it
//! holds), and so for the whole tableau: gate identities such as `H H = I`,
//! `S S = Z` or `SWAP` exchanging two qubits hold exactly on the stabilizer
//! representation, signs included.

use vstd::prelude::*;

use crate::clifford::{
    apply_prim_rows, apply_prims_rows, decompose1, decompose2, decompose_controlled, row_prim, row_wf,
    Clifford1, Clifford2, Prim, Row,
};

verus! {

/// Every row of `t` acts on `n` qubits.
pub open spec fn rows_wf(t: Seq<Row>, n: nat) -> bool {
    forall|i: int| 0 <= i < t.len() ==> row_wf(#[trigger] t[i], n)
}

/// Two rows are equal when their bits and signs are.
proof fn lemma_row_ext(a: Row, b: Row)
    requires
        a.0 =~= b.0,
        a.1 =~= b.1,
        a.2 == b.2,
    ensures
        a == b,
{
}

/// A tableau is determined by its rows.
proof fn lemma_rows_ext(a: Seq<Row>, b: Seq<Row>)
    requires
        a.len() == b.len(),
        forall|i: int| 0 <= i < a.len() ==> a[i] == b[i],
    ensures
        a == b,
{
    assert(a =~= b);
}

/// Applying `p` then `p2` row by row is applying their composition per row.
proof fn lemma_apply_twice(t: Seq<Row>, active: nat, p: Prim, p2: Prim)
    ensures
        apply_prim_rows(apply_prim_rows(t, active, p), active, p2) == Seq::new(
            t.len(),
            |i: int|
                if i < active {
                    row_prim(row_prim(t[i], p), p2)
                } else {
                    t[i]
                },
        ),
{
    assert(apply_prim_rows(apply_prim_rows(t, active, p), active, p2) =~= Seq::new(
        t.len(),
        |i: int|
            if i < active {
                row_prim(row_prim(t[i], p), p2)
            } else {
                t[i]
            },
    ));
}

/// Hadamard is its own inverse: `H H = I` on every row.
pub proof fn law_h_involution(t: Seq<Row>, active: nat, n: nat, q: usize)
    requires
        rows_wf(t, n),
        q < n,
    ensures
        apply_prim_rows(apply_prim_rows(t, active, Prim::H(q)), active, Prim::H(q)) == t,
{
    lemma_apply_twice(t, active, Prim::H(q), Prim::H(q));
    assert forall|i: int| 0 <= i < t.len() implies row_prim(row_prim(t[i], Prim::H(q)), Prim::H(q)) == t[i] by {
        assert(row_wf(t[i], n));
        lemma_row_ext(row_prim(row_prim(t[i], Prim::H(q)), Prim::H(q)), t[i]);
    }
    lemma_rows_ext(apply_prim_rows(apply_prim_rows(t, active, Prim::H(q)), active, Prim::H(q)), t);
}

/// Two phase gates make a Pauli-Z: `S S = Z` on every row, sign included.
pub proof fn law_s_squared_is_z(t: Seq<Row>, active: nat, n: nat, q: usize)
    requires
        rows_wf(t, n),
        q < n,
    ensures
        apply_prim_rows(apply_prim_rows(t, active, Prim::S(q)), active, Prim::S(q)) == apply_prim_rows(
            t,
            active,
            Prim::Z(q),
        ),
{
    lemma_apply_twice(t, active, Prim::S(q), Prim::S(q));
    assert forall|i: int| 0 <= i < t.len() implies (if i < active {
        row_prim(row_prim(t[i], Prim::S(q)), Prim::S(q))
    } else {
        t[i]
    }) == apply_prim_rows(t, active, Prim::Z(q))[i] by {
        assert(row_wf(t[i], n));
        if i < active {
            lemma_row_ext(row_prim(row_prim(t[i], Prim::S(q)), Prim::S(q)), row_prim(t[i], Prim::Z(q)));
        }
    }
    lemma_rows_ext(
        apply_prim_rows(apply_prim_rows(t, active, Prim::S(q)), active, Prim::S(q)),
        apply_prim_rows(t, active, Prim::Z(q)),
    );
}

/// `S^dagger` undoes `S`: `S^dagger S = I` on every row.
pub proof fn law_sdg_inverts_s(t: Seq<Row>, active: nat, n: nat, q: usize)
    requires
        rows_wf(t, n),
        q < n,
    ensures
        apply_prim_rows(apply_prim_rows(t, active, Prim::S(q)), active, Prim::Sdg(q)) == t,
{
    lemma_apply_twice(t, active, Prim::S(q), Prim::Sdg(q));
    assert forall|i: int| 0 <= i < t.len() implies row_prim(row_prim(t[i], Prim::S(q)), Prim::Sdg(q)) == t[i] by {
        assert(row_wf(t[i], n));
        lemma_row_ext(row_prim(row_prim(t[i], Prim::S(q)), Prim::Sdg(q)), t[i]);
    }
    lemma_rows_ext(apply_prim_rows(apply_prim_rows(t, active, Prim::S(q)), active, Prim::Sdg(q)), t);
}

/// Each Pauli gate is its own inverse: `X X = Y Y = Z Z = I` on every row.
pub proof fn law_pauli_involution(t: Seq<Row>, active: nat, n: nat, p: Prim)
    requires
        rows_wf(t, n),
        p is X || p is Y || p is Z,
        p is X ==> p->X_0 < n,
        p is Y ==> p->Y_0 < n,
        p is Z ==> p->Z_0 < n,
    ensures
        apply_prim_rows(apply_prim_rows(t, active, p), active, p) == t,
{
    lemma_apply_twice(t, active, p, p);
    assert forall|i: int| 0 <= i < t.len() implies row_prim(row_prim(t[i], p), p) == t[i] by {
        assert(row_wf(t[i], n));
        lemma_row_ext(row_prim(row_prim(t[i], p), p), t[i]);
    }
    lemma_rows_ext(apply_prim_rows(apply_prim_rows(t, active, p), active, p), t);
}

/// CNOT is its own inverse on every row, sign included.
pub proof fn law_cnot_involution(t: Seq<Row>, active: nat, n: nat, a: usize, b: usize)
    requires
        rows_wf(t, n),
        a < n,
        b < n,
        a != b,
    ensures
        apply_prim_rows(apply_prim_rows(t, active, Prim::Cnot(a, b)), active, Prim::Cnot(a, b)) == t,
{
    let p = Prim::Cnot(a, b);
    lemma_apply_twice(t, active, p, p);
    assert forall|i: int| 0 <= i < t.len() implies row_prim(row_prim(t[i], p), p) == t[i] by {
        assert(row_wf(t[i], n));
        lemma_row_ext(row_prim(row_prim(t[i], p), p), t[i]);
    }
    lemma_rows_ext(apply_prim_rows(apply_prim_rows(t, active, p), active, p), t);
}

/// The row with the Paulis on qubits `a` and `b` exchanged, sign unchanged.
pub open spec fn swap_columns(row: Row, a: int, b: int) -> Row {
    (
        row.0.update(a, row.0[b]).update(b, row.0[a]),
        row.1.update(a, row.1[b]).update(b, row.1[a]),
        row.2,
    )
}

/// Applying three primitives in order is their per-row composition.
proof fn lemma_apply_three(t: Seq<Row>, active: nat, p1: Prim, p2: Prim, p3: Prim)
    ensures
        apply_prims_rows(t, active, seq![p1, p2, p3]) == Seq::new(
            t.len(),
            |i: int|
                if i < active {
                    row_prim(row_prim(row_prim(t[i], p1), p2), p3)
                } else {
                    t[i]
                },
        ),
{
    let ps = seq![p1, p2, p3];
    let s2 = seq![p1, p2];
    let s1 = seq![p1];
    let s0 = Seq::<Prim>::empty();
    assert(ps.drop_last() =~= s2);
    assert(s2.drop_last() =~= s1);
    assert(s1.drop_last() =~= s0);
    assert(ps.last() == p3 && s2.last() == p2 && s1.last() == p1);
    assert(apply_prims_rows(t, active, s0) == t);
    assert(apply_prims_rows(t, active, s1) == apply_prim_rows(t, active, p1));
    assert(apply_prims_rows(t, active, s2) == apply_prim_rows(apply_prim_rows(t, active, p1), active, p2));
    assert(apply_prims_rows(t, active, ps) == apply_prim_rows(
        apply_prim_rows(apply_prim_rows(t, active, p1), active, p2),
        active,
        p3,
    ));
    lemma_apply_twice(t, active, p1, p2);
    assert(apply_prims_rows(t, active, ps) =~= Seq::new(
        t.len(),
        |i: int|
            if i < active {
                row_prim(row_prim(row_prim(t[i], p1), p2), p3)
            } else {
                t[i]
            },
    ));
}

/// `SWAP` exchanges two qubits: on every row the Paulis on `a` and `b` trade
/// places and the sign is unchanged.
pub proof fn law_swap_exchanges_qubits(t: Seq<Row>, active: nat, n: nat, a: usize, b: usize)
    requires
        rows_wf(t, n),
        a < n,
        b < n,
        a != b,
    ensures
        apply_prims_rows(t, active, decompose2(Clifford2::Swap, a, b)) == Seq::new(
            t.len(),
            |i: int|
                if i < active {
                    swap_columns(t[i], a as int, b as int)
                } else {
                    t[i]
                },
        ),
{
    lemma_apply_three(t, active, Prim::Cnot(a, b), Prim::Cnot(b, a), Prim::Cnot(a, b));
    let lhs = apply_prims_rows(t, active, decompose2(Clifford2::Swap, a, b));
    let rhs = Seq::new(
        t.len(),
        |i: int|
            if i < active {
                swap_columns(t[i], a as int, b as int)
            } else {
                t[i]
            },
    );
    assert forall|i: int| 0 <= i < t.len() implies lhs[i] == rhs[i] by {
        assert(row_wf(t[i], n));
        if i < active {
            let r = row_prim(row_prim(row_prim(t[i], Prim::Cnot(a, b)), Prim::Cnot(b, a)), Prim::Cnot(a, b));
            lemma_row_ext(r, swap_columns(t[i], a as int, b as int));
        }
    }
    lemma_rows_ext(lhs, rhs);
}

/// Controlled-Z is symmetric in its operands: `CZ(a, b)` and `CZ(b, a)` act
/// identically on every row, sign included.
pub proof fn law_cz_symmetric(t: Seq<Row>, active: nat, n: nat, a: usize, b: usize)
    requires
        rows_wf(t, n),
        a < n,
        b < n,
        a != b,
    ensures
        apply_prims_rows(t, active, decompose2(Clifford2::Cz, a, b)) == apply_prims_rows(
            t,
            active,
            decompose2(Clifford2::Cz, b, a),
        ),
{
    lemma_apply_three(t, active, Prim::H(b), Prim::Cnot(a, b), Prim::H(b));
    lemma_apply_three(t, active, Prim::H(a), Prim::Cnot(b, a), Prim::H(a));
    let lhs = apply_prims_rows(t, active, decompose2(Clifford2::Cz, a, b));
    let rhs = apply_prims_rows(t, active, decompose2(Clifford2::Cz, b, a));
    assert forall|i: int| 0 <= i < t.len() implies lhs[i] == rhs[i] by {
        assert(row_wf(t[i], n));
        if i < active {
            let l = row_prim(row_prim(row_prim(t[i], Prim::H(b)), Prim::Cnot(a, b)), Prim::H(b));
            let r = row_prim(row_prim(row_prim(t[i], Prim::H(a)), Prim::Cnot(b, a)), Prim::H(a));
            lemma_row_ext(l, r);
        }
    }
    lemma_rows_ext(lhs, rhs);
}

/// Conjugating X by Hadamard gives Z: `H X H = Z` on every row.
pub proof fn law_hxh_is_z(t: Seq<Row>, active: nat, n: nat, q: usize)
    requires
        rows_wf(t, n),
        q < n,
    ensures
        apply_prim_rows(
            apply_prim_rows(apply_prim_rows(t, active, Prim::H(q)), active, Prim::X(q)),
            active,
            Prim::H(q),
        ) == apply_prim_rows(t, active, Prim::Z(q)),
{
    let lhs = apply_prim_rows(
        apply_prim_rows(apply_prim_rows(t, active, Prim::H(q)), active, Prim::X(q)),
        active,
        Prim::H(q),
    );
    let rhs = apply_prim_rows(t, active, Prim::Z(q));
    assert forall|i: int| 0 <= i < t.len() implies lhs[i] == rhs[i] by {
        if i < active {
            assert(row_wf(t[i], n));
            lemma_row_ext(
                row_prim(row_prim(row_prim(t[i], Prim::H(q)), Prim::X(q)), Prim::H(q)),
                row_prim(t[i], Prim::Z(q)),
            );
        }
    }
    lemma_rows_ext(lhs, rhs);
}

/// Conjugating Z by Hadamard gives X: `H Z H = X` on every row.
pub proof fn law_hzh_is_x(t: Seq<Row>, active: nat, n: nat, q: usize)
    requires
        rows_wf(t, n),
        q < n,
    ensures
        apply_prim_rows(
            apply_prim_rows(apply_prim_rows(t, active, Prim::H(q)), active, Prim::Z(q)),
            active,
            Prim::H(q),
        ) == apply_prim_rows(t, active, Prim::X(q)),
{
    let lhs = apply_prim_rows(
        apply_prim_rows(apply_prim_rows(t, active, Prim::H(q)), active, Prim::Z(q)),
        active,
        Prim::H(q),
    );
    let rhs = apply_prim_rows(t, active, Prim::X(q));
    assert forall|i: int| 0 <= i < t.len() implies lhs[i] == rhs[i] by {
        if i < active {
            assert(row_wf(t[i], n));
            lemma_row_ext(
                row_prim(row_prim(row_prim(t[i], Prim::H(q)), Prim::Z(q)), Prim::H(q)),
                row_prim(t[i], Prim::X(q)),
            );
        }
    }
    lemma_rows_ext(lhs, rhs);
}

/// Whether the Pauli part of `row` on qubit `q` anticommutes with the
/// single-qubit Pauli whose `x` and `z` bits are `px` and `pz`: their
/// symplectic product `x pz + z px` is odd.
pub open spec fn anticommutes_at(row: Row, q: int, px: bool, pz: bool) -> bool {
    (row.0[q] && pz) != (row.1[q] && px)
}

/// Conjugating a Pauli string by a Pauli gate `P` on qubit `q` keeps its
/// bits and flips its sign exactly when it anticommutes with `P` there:
/// `X` (bits `x = 1, z = 0`) flips `Z` and `Y`, `Y` (`x = z = 1`) flips `X`
/// and `Z`, and `Z` (`x = 0, z = 1`) flips `X` and `Y`.
pub proof fn law_pauli_conjugation(row: Row, q: usize)
    ensures
        row_prim(row, Prim::X(q)) == (row.0, row.1, row.2 != anticommutes_at(row, q as int, true, false)),
        row_prim(row, Prim::Y(q)) == (row.0, row.1, row.2 != anticommutes_at(row, q as int, true, true)),
        row_prim(row, Prim::Z(q)) == (row.0, row.1, row.2 != anticommutes_at(row, q as int, false, true)),
{
}

/// `Y` is `X` followed by `Z`, up to a global phase that a stabilizer row
/// does not see: on every row the `Y` primitive acts as `X` then `Z`.
pub proof fn law_y_is_x_then_z(row: Row, q: usize)
    ensures
        row_prim(row, Prim::Y(q)) == row_prim(row_prim(row, Prim::X(q)), Prim::Z(q)),
{
}

/// The action of `CZ` on qubits `a` and `b` on one row: `X_a` picks up `Z_b`
/// and `X_b` picks up `Z_a`, and the sign flips when both `x` bits are set
/// and the `z` bits differ.
pub open spec fn cz_row(row: Row, a: int, b: int) -> Row {
    (
        row.0,
        row.1.update(a, row.1[a] != row.0[b]).update(b, row.1[b] != row.0[a]),
        row.2 != (row.0[a] && row.0[b] && (row.1[a] != row.1[b])),
    )
}

/// The action of controlled-`Y` (control `a`, target `b`) on one row:
/// `X_a` picks up `Y_b`, `X_b` and `Z_b` pick up `Z_a`, and the sign flips
/// when `x_a` is set, the `z` bits agree and `x_b` differs from them.
pub open spec fn cy_row(row: Row, a: int, b: int) -> Row {
    (
        row.0.update(b, row.0[b] != row.0[a]),
        row.1.update(a, row.1[a] != (row.0[b] != row.1[b])).update(b, row.1[b] != row.0[a]),
        row.2 != (row.0[a] && row.1[a] == row.1[b] && row.0[b] != row.1[b]),
    )
}

/// A controlled-`Z` is the two-qubit `CZ`: on every row it updates the bits
/// and sign as `CZ` does, and it is symmetric in control and target.
pub proof fn law_controlled_z_is_cz(t: Seq<Row>, active: nat, n: nat, a: usize, b: usize)
    requires
        rows_wf(t, n),
        a < n,
        b < n,
        a != b,
    ensures
        decompose_controlled(Clifford1::Z, a, b) is Some,
        forall|i: int|
            0 <= i < t.len() ==> #[trigger] apply_prims_rows(t, active, decompose_controlled(Clifford1::Z, a, b)->0)[i]
                == if i < active {
                cz_row(t[i], a as int, b as int)
            } else {
                t[i]
            },
        apply_prims_rows(t, active, decompose_controlled(Clifford1::Z, a, b)->0) == apply_prims_rows(
            t,
            active,
            decompose_controlled(Clifford1::Z, b, a)->0,
        ),
        apply_prims_rows(t, active, decompose_controlled(Clifford1::Z, a, b)->0) == apply_prims_rows(
            t,
            active,
            decompose2(Clifford2::Cz, a, b),
        ),
{
    lemma_apply_three(t, active, Prim::H(b), Prim::Cnot(a, b), Prim::H(b));
    lemma_apply_three(t, active, Prim::H(a), Prim::Cnot(b, a), Prim::H(a));
    let lhs = apply_prims_rows(t, active, decompose_controlled(Clifford1::Z, a, b)->0);
    let rhs = apply_prims_rows(t, active, decompose_controlled(Clifford1::Z, b, a)->0);
    assert forall|i: int| 0 <= i < t.len() implies #[trigger] lhs[i] == (if i < active {
        cz_row(t[i], a as int, b as int)
    } else {
        t[i]
    }) && lhs[i] == rhs[i] by {
        assert(row_wf(t[i], n));
        if i < active {
            let l = row_prim(row_prim(row_prim(t[i], Prim::H(b)), Prim::Cnot(a, b)), Prim::H(b));
            let r = row_prim(row_prim(row_prim(t[i], Prim::H(a)), Prim::Cnot(b, a)), Prim::H(a));
            lemma_row_ext(l, cz_row(t[i], a as int, b as int));
            lemma_row_ext(r, cz_row(t[i], a as int, b as int));
        }
    }
    lemma_rows_ext(lhs, rhs);
}

/// A controlled-`Y` (control `a`, target `b`) updates every row as
/// controlled-`Y` conjugation does: it sends `X_a` to `X_a Y_b`, `X_b` to
/// `Z_a X_b`, `Z_b` to `Z_a Z_b`, and leaves `Z_a` and `Y_b` alone.
pub proof fn law_controlled_y_rule(t: Seq<Row>, active: nat, n: nat, a: usize, b: usize)
    requires
        rows_wf(t, n),
        a < n,
        b < n,
        a != b,
    ensures
        decompose_controlled(Clifford1::Y, a, b) is Some,
        forall|i: int|
            0 <= i < t.len() ==> #[trigger] apply_prims_rows(t, active, decompose_controlled(Clifford1::Y, a, b)->0)[i]
                == if i < active {
                cy_row(t[i], a as int, b as int)
            } else {
                t[i]
            },
{
    lemma_apply_three(t, active, Prim::Sdg(b), Prim::Cnot(a, b), Prim::S(b));
    let lhs = apply_prims_rows(t, active, decompose_controlled(Clifford1::Y, a, b)->0);
    assert forall|i: int| 0 <= i < t.len() implies #[trigger] lhs[i] == (if i < active {
        cy_row(t[i], a as int, b as int)
    } else {
        t[i]
    }) by {
        assert(row_wf(t[i], n));
        if i < active {
            let l = row_prim(row_prim(row_prim(t[i], Prim::Sdg(b)), Prim::Cnot(a, b)), Prim::S(b));
            lemma_row_ext(l, cy_row(t[i], a as int, b as int));
        }
    }
}

/// Applying a single primitive as a sequence of one acts row by row.
proof fn lemma_apply_one(t: Seq<Row>, active: nat, p: Prim)
    ensures
        apply_prims_rows(t, active, seq![p]) == Seq::new(
            t.len(),
            |i: int|
                if i < active {
                    row_prim(t[i], p)
                } else {
                    t[i]
                },
        ),
{
    assert(seq![p].drop_last() =~= Seq::<Prim>::empty());
    assert(apply_prims_rows(t, active, seq![p].drop_last()) == t);
    assert(apply_prim_rows(t, active, p) =~= Seq::new(
        t.len(),
        |i: int|
            if i < active {
                row_prim(t[i], p)
            } else {
                t[i]
            },
    ));
}

/// The Pauli gates `X`, `Y` and `Z` of a circuit keep every row's bits and
/// flip its sign exactly where the row anticommutes with that Pauli on its
/// qubit.
pub proof fn law_pauli_gates(t: Seq<Row>, active: nat, q: usize, i: int)
    requires
        0 <= i < active,
        i < t.len(),
    ensures
        apply_prims_rows(t, active, decompose1(Clifford1::X, q))[i] == (t[i].0, t[i].1, t[i].2
            != anticommutes_at(t[i], q as int, true, false)),
        apply_prims_rows(t, active, decompose1(Clifford1::Y, q))[i] == (t[i].0, t[i].1, t[i].2
            != anticommutes_at(t[i], q as int, true, true)),
        apply_prims_rows(t, active, decompose1(Clifford1::Z, q))[i] == (t[i].0, t[i].1, t[i].2
            != anticommutes_at(t[i], q as int, false, true)),
{
    lemma_apply_one(t, active, Prim::X(q));
    lemma_apply_one(t, active, Prim::Y(q));
    lemma_apply_one(t, active, Prim::Z(q));
    law_pauli_conjugation(t[i], q);
}

/// A controlled-`X` with control `a` and target `b` acts on every row as
/// `CNOT` from `a` to `b`: `X_a` picks up `X_b`, `Z_b` picks up `Z_a`, and
/// the sign flips when `x_a` and `z_b` are set and `x_b` equals `z_a`.
pub proof fn law_controlled_x_rule(t: Seq<Row>, active: nat, a: usize, b: usize, i: int)
    requires
        0 <= i < active,
        i < t.len(),
    ensures
        decompose_controlled(Clifford1::X, a, b) is Some,
        apply_prims_rows(t, active, decompose_controlled(Clifford1::X, a, b)->0)[i] == (
            t[i].0.update(b as int, t[i].0[b as int] != t[i].0[a as int]),
            t[i].1.update(a as int, t[i].1[a as int] != t[i].1[b as int]),
            t[i].2 != (t[i].0[a as int] && t[i].1[b as int] && t[i].0[b as int] == t[i].1[a as int]),
        ),
{
    lemma_apply_one(t, active, Prim::Cnot(a, b));
}

} // verus!
