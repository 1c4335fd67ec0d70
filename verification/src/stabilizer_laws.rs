//! Laws of the stabilizer simulation: which circuits it accepts.
//!
//! A valid circuit whose every gate is a Clifford gate the tableau applies
//! always runs, and yields one generator per qubit and the whole classical
//! register. A valid circuit with a non-Clifford gate outside any classical
//! condition is always rejected with `NonClifford`, whatever the measurement
//! outcomes before it. Measuring a qubit twice gives the same outcome twice;
//! a random measurement draws one value and leaves `Z_q` as a generator with
//! the outcome as its sign, a determined one draws nothing and keeps every
//! generator. For every seed, the two halves of a Bell pair measure alike,
//! and a `|+>` teleported with classically controlled corrections reads 0 in
//! the `X` basis.

use vstd::prelude::*;

use crate::circuit::{op_error, ops_error};
use crate::clifford::{
    Clifford1, Clifford2, apply_prim_rows, apply_prims_rows, decompose_controlled, g_sum, identity_row, row_mul, row_wf,
    unit, zero_state_rows, zeros, Prim, Row,
};
use crate::clifford_laws::rows_wf;
use crate::error::Error;
use crate::op::OpView;
use crate::qubit::{ClassicalBit, QubitId};
use crate::stabilizer::{
    determined_product, first_x_from, lemma_first_x_found, lemma_run_op_len, measure_random_rows,
    measure_spec, run_op, run_ops, run_result, CliffordOp, RunState,
};

verus! {

/// Every gate of `op` (inside a classical condition too) is a recognized
/// Clifford gate that the tableau applies: single- and two-qubit gates are
/// recognized, and a controlled gate has one control and a target gate with
/// a controlled form.
pub open spec fn clifford_op(op: CliffordOp) -> bool
    decreases op,
{
    match op {
        OpView::Apply1 { gate, .. } => gate is Some,
        OpView::Apply2 { gate, .. } => gate is Some,
        OpView::Controlled { controls, gate, target } => controls.len() == 1 && gate is Some
            && decompose_controlled(gate->0, controls[0].0, target.0) is Some,
        OpView::Measure { .. } => true,
        OpView::IfClassic { then, .. } => clifford_op(*then),
    }
}

/// `op` is a gate that the tableau cannot apply: an unrecognized single- or
/// two-qubit gate, or a controlled gate without a Clifford controlled form.
pub open spec fn rejected_gate(op: CliffordOp) -> bool {
    match op {
        OpView::Apply1 { gate, .. } => gate is None,
        OpView::Apply2 { gate, .. } => gate is None,
        OpView::Controlled { controls, gate, target } => !(controls.len() == 1 && gate is Some
            && decompose_controlled(gate->0, controls[0].0, target.0) is Some),
        _ => false,
    }
}

/// The error of a run is absent or a `NonClifford` error.
pub open spec fn no_error_or_non_clifford(e: Option<Error>) -> bool {
    e is None || e matches Some(Error::NonClifford { .. })
}

/// Applying primitives keeps the number of rows.
proof fn lemma_apply_prims_len(t: Seq<Row>, active: nat, ps: Seq<Prim>)
    ensures
        apply_prims_rows(t, active, ps).len() == t.len(),
    decreases ps.len(),
{
    if ps.len() > 0 {
        lemma_apply_prims_len(t, active, ps.drop_last());
    }
}

/// Running an operation keeps the size of the tableau, keeps an error once
/// there is one, and only ever records a `NonClifford` error; a Clifford
/// operation records none.
proof fn lemma_run_op_facts(s: RunState, op: CliffordOp, n: nat)
    requires
        s.0.len() == 2 * n + 1,
        op_error(op, n as usize, s.3.len() as usize) is None,
        n <= usize::MAX,
        s.3.len() <= usize::MAX,
    ensures
        run_op(s, op, n).0.len() == 2 * n + 1,
        run_op(s, op, n).3.len() == s.3.len(),
        s.2 is Some ==> run_op(s, op, n).2 == s.2,
        no_error_or_non_clifford(s.2) ==> no_error_or_non_clifford(run_op(s, op, n).2),
        s.2 is None && clifford_op(op) ==> run_op(s, op, n).2 is None,
        s.2 is None && rejected_gate(op) ==> run_op(s, op, n).2 matches Some(Error::NonClifford { .. }),
    decreases op,
{
    lemma_run_op_len(s, op, n);
    let (t, rng, err, c) = s;
    match op {
        OpView::Apply1 { gate, target } => {
            if err is None && gate is Some {
                lemma_apply_prims_len(t, 2 * n, crate::clifford::decompose1(gate->0, target.0));
            }
        },
        OpView::Apply2 { gate, a, b } => {
            if err is None && gate is Some {
                lemma_apply_prims_len(t, 2 * n, crate::clifford::decompose2(gate->0, a.0, b.0));
            }
        },
        OpView::Controlled { controls, gate, target } => {
            if err is None && controls.len() == 1 && gate is Some && decompose_controlled(
                gate->0,
                controls[0].0,
                target.0,
            ) is Some {
                lemma_apply_prims_len(
                    t,
                    2 * n,
                    decompose_controlled(gate->0, controls[0].0, target.0)->0,
                );
            }
        },
        OpView::Measure { qubit, into } => {
            if err is None {
                let q = qubit.0 as int;
                let p = first_x_from(t, n, q, n);
                if p < 2 * n {
                    lemma_first_x_found(t, n, q, n);
                    let outcome = crate::rng::xoshiro_output(rng) & 1 == 1;
                    assert(measure_random_rows(t, n, q, p as int, outcome).len() == t.len());
                }
                assert(measure_spec(t, rng, n, q).0.len() == t.len());
            }
        },
        OpView::IfClassic { bit, then } => {
            if c[bit.0 as int] {
                lemma_run_op_facts(s, *then, n);
            }
        },
    }
}

/// Running operations keeps an error once there is one, and keeps the
/// error absent or `NonClifford`.
proof fn lemma_run_ops_errors(s: RunState, ops: Seq<CliffordOp>, n: nat)
    requires
        s.0.len() == 2 * n + 1,
        ops_error(ops, n as usize, s.3.len() as usize) is None,
        n <= usize::MAX,
        s.3.len() <= usize::MAX,
    ensures
        run_ops(s, ops, n).0.len() == 2 * n + 1,
        run_ops(s, ops, n).3.len() == s.3.len(),
        s.2 is Some ==> run_ops(s, ops, n).2 == s.2,
        no_error_or_non_clifford(s.2) ==> no_error_or_non_clifford(run_ops(s, ops, n).2),
        s.2 is None && (forall|i: int| 0 <= i < ops.len() ==> clifford_op(#[trigger] ops[i]))
            ==> run_ops(s, ops, n).2 is None,
    decreases ops.len(),
{
    if ops.len() > 0 {
        crate::circuit::lemma_ops_error_first(ops, n as usize, s.3.len() as usize);
        lemma_run_op_facts(s, ops[0], n);
        let s1 = run_op(s, ops[0], n);
        if forall|i: int| 0 <= i < ops.len() ==> clifford_op(#[trigger] ops[i]) {
            assert forall|i: int| 0 <= i < ops.drop_first().len() implies clifford_op(
                #[trigger] ops.drop_first()[i],
            ) by {
                assert(ops.drop_first()[i] == ops[i + 1]);
            }
        }
        lemma_run_ops_errors(s1, ops.drop_first(), n);
    }
}

/// A non-Clifford gate at position `j` of the operations is always met.
proof fn lemma_run_ops_rejects(s: RunState, ops: Seq<CliffordOp>, n: nat, j: int)
    requires
        s.0.len() == 2 * n + 1,
        ops_error(ops, n as usize, s.3.len() as usize) is None,
        n <= usize::MAX,
        s.3.len() <= usize::MAX,
        no_error_or_non_clifford(s.2),
        0 <= j < ops.len(),
        rejected_gate(ops[j]),
    ensures
        run_ops(s, ops, n).2 matches Some(Error::NonClifford { .. }),
    decreases ops.len(),
{
    crate::circuit::lemma_ops_error_first(ops, n as usize, s.3.len() as usize);
    lemma_run_op_facts(s, ops[0], n);
    let s1 = run_op(s, ops[0], n);
    if j == 0 {
        lemma_run_ops_errors(s1, ops.drop_first(), n);
    } else {
        assert(ops.drop_first()[j - 1] == ops[j]);
        lemma_run_ops_rejects(s1, ops.drop_first(), n, j - 1);
    }
}

/// A valid circuit of Clifford gates always runs on the stabilizer backend,
/// whatever the seed: it yields one generator per qubit and the whole
/// classical register.
pub proof fn law_clifford_circuits_run(ops: Seq<CliffordOp>, n: usize, nc: usize, seed: u64)
    requires
        ops_error(ops, n, nc) is None,
        forall|i: int| 0 <= i < ops.len() ==> clifford_op(#[trigger] ops[i]),
    ensures
        run_result(ops, n, nc, seed) matches Ok((g, c)) && g.len() == n && c.len() == nc,
{
    let s0 = crate::stabilizer::initial_state(n as nat, seed, nc as nat);
    lemma_run_ops_errors(s0, ops, n as nat);
}

/// A valid circuit with a gate the tableau cannot apply outside any
/// classical condition is always rejected with `NonClifford`, whatever the
/// seed.
pub proof fn law_non_clifford_rejected(ops: Seq<CliffordOp>, n: usize, nc: usize, seed: u64, j: int)
    requires
        ops_error(ops, n, nc) is None,
        0 <= j < ops.len(),
        rejected_gate(ops[j]),
    ensures
        run_result(ops, n, nc, seed) matches Err(Error::NonClifford { .. }),
{
    let s0 = crate::stabilizer::initial_state(n as nat, seed, nc as nat);
    lemma_run_ops_rejects(s0, ops, n as nat, j);
}

/// The search for an anticommuting stabilizer reads only rows below `2n`.
proof fn lemma_first_x_same(t: Seq<Row>, u: Seq<Row>, n: nat, q: int, i: nat)
    requires
        t.len() == u.len(),
        t.len() >= 2 * n,
        forall|r: int| 0 <= r < 2 * n ==> #[trigger] t[r] == u[r],
    ensures
        first_x_from(t, n, q, i) == first_x_from(u, n, q, i),
    decreases 2 * n - i,
{
    if i < 2 * n {
        assert(t[i as int] == u[i as int]);
        lemma_first_x_same(t, u, n, q, i + 1);
    }
}

/// The product of stabilizers reads only rows below `2n`.
proof fn lemma_determined_same(t: Seq<Row>, u: Seq<Row>, n: nat, q: int, k: nat)
    requires
        k <= n,
        forall|r: int| 0 <= r < 2 * n ==> #[trigger] t[r] == u[r],
    ensures
        determined_product(t, n, q, k) == determined_product(u, n, q, k),
    decreases k,
{
    if k > 0 {
        assert(t[k - 1] == u[k - 1]);
        assert(t[n + k - 1] == u[n + k - 1]);
        lemma_determined_same(t, u, n, q, (k - 1) as nat);
    }
}

/// Multiplying the identity by a row gives that row, sign included.
proof fn lemma_identity_times(j: Row, n: nat)
    requires
        row_wf(j, n),
    ensures
        row_mul(identity_row(n), j, n) == j,
{
    lemma_g_sum_identity(j, n, n);
    let r = row_mul(identity_row(n), j, n);
    assert(r.0 =~= j.0);
    assert(r.1 =~= j.1);
}

/// `g` of any Pauli against the identity is zero.
proof fn lemma_g_sum_identity(j: Row, n: nat, k: nat)
    requires
        k <= n,
        row_wf(j, n),
    ensures
        g_sum(j, identity_row(n), k) == 0,
    decreases k,
{
    if k > 0 {
        lemma_g_sum_identity(j, n, (k - 1) as nat);
    }
}

/// After a random-outcome measurement only destabilizer `p - n` has an `x`
/// bit on `q`, so the product for `Z_q` is the new stabilizer `p` alone.
proof fn lemma_product_after_random(u: Seq<Row>, n: nat, q: int, p: int, k: nat)
    requires
        n <= p < 2 * n,
        k <= n,
        u.len() == 2 * n + 1,
        forall|i: int| 0 <= i < n && i != p - n ==> !(#[trigger] u[i]).0[q],
        u[p - n].0[q],
    ensures
        determined_product(u, n, q, k) == if k > p - n {
            row_mul(identity_row(n), u[p], n)
        } else {
            identity_row(n)
        },
    decreases k,
{
    if k > 0 {
        lemma_product_after_random(u, n, q, p, (k - 1) as nat);
        if k - 1 != p - n {
            assert(!u[k - 1].0[q]);
        }
    }
}

/// Measuring a qubit twice gives the same outcome both times, whatever the
/// random generator holds: after the first measurement the qubit is in the
/// measured basis state, so the second one is determined and agrees.
pub proof fn law_measurement_repeats(t: Seq<Row>, rng: Seq<u64>, n: nat, q: int)
    requires
        t.len() == 2 * n + 1,
        rows_wf(t, n),
        0 <= q < n,
    ensures
        ({
            let (t1, rng1, first) = measure_spec(t, rng, n, q);
            let (t2, rng2, second) = measure_spec(t1, rng1, n, q);
            second == first && rng2 == rng1
        }),
{
    let p = first_x_from(t, n, q, n);
    let (t1, rng1, first) = measure_spec(t, rng, n, q);
    if p < 2 * n {
        lemma_first_x_found(t, n, q, n);
        assert(row_wf(t[p as int], n));
        let outcome = crate::rng::xoshiro_output(rng) & 1 == 1;
        assert(t1 == measure_random_rows(t, n, q, p as int, outcome));
        assert forall|i: int| 0 <= i < 2 * n && i != p - n implies !(#[trigger] t1[i]).0[q] by {
            assert(row_wf(t[i], n));
            if i == p {
                assert(t1[i] == (zeros(n), unit(n, q), outcome));
            } else if t[i].0[q] {
                assert(t1[i] == row_mul(t[i], t[p as int], n));
            }
        }
        assert(t1[p - n] == t[p as int]);
        lemma_no_x_after(t1, n, q, n);
        assert(first_x_from(t1, n, q, n) == 2 * n);
        lemma_product_after_random(t1, n, q, p as int, n);
        lemma_identity_times(t1[p as int], n);
    } else {
        let acc = determined_product(t, n, q, n);
        assert(t1 == t.update((2 * n) as int, acc));
        lemma_first_x_same(t, t1, n, q, n);
        lemma_determined_same(t, t1, n, q, n);
    }
}

/// With no stabilizer at or after `i` carrying an `x` bit on `q`, the search
/// finds none.
proof fn lemma_no_x_after(t: Seq<Row>, n: nat, q: int, i: nat)
    requires
        forall|r: int| i <= r < 2 * n ==> !(#[trigger] t[r]).0[q],
    ensures
        first_x_from(t, n, q, i) == 2 * n || i >= 2 * n,
    decreases 2 * n - i,
{
    if i < 2 * n {
        assert(!t[i as int].0[q]);
        lemma_no_x_after(t, n, q, i + 1);
    }
}

/// The text of the Pauli string with `Z` on qubit `i` and `I` on the
/// other `n - 1` qubits, with a `+` sign.
pub open spec fn z_on_text(n: nat, i: int) -> Seq<char> {
    seq!['+'] + Seq::new(n, |q: int| if q == i { 'Z' } else { 'I' })
}

/// The stabilizer generators of `|0...0>` on `n` qubits, the state a run
/// starts from, read `+Z` on qubit `i` and `I` elsewhere.
pub proof fn law_zero_state_generators(n: nat, i: int)
    requires
        0 <= i < n,
    ensures
        crate::pauli::pauli_text(zero_state_rows(n)[n + i]) == z_on_text(n, i),
{
    let r = zero_state_rows(n)[n + i];
    assert(r == (zeros(n), unit(n, i), false));
    assert(crate::pauli::pauli_text(r) =~= z_on_text(n, i));
}

/// A circuit with no operations runs from `|0...0>` and stays there: its
/// generators read `+Z` on qubit `i` and `I` elsewhere, one per qubit, and
/// its classical register is all `false`, whatever the seed.
pub proof fn law_empty_circuit_generators(n: usize, nc: usize, seed: u64)
    ensures
        run_result(Seq::<CliffordOp>::empty(), n, nc, seed) matches Ok((g, c)) && g.len() == n
            && c == Seq::new(nc as nat, |i: int| false) && forall|i: int|
            0 <= i < n ==> crate::pauli::pauli_text(#[trigger] g[i]) == z_on_text(n as nat, i),
{
    let ops = Seq::<CliffordOp>::empty();
    assert(ops_error(ops, n, nc) is None);
    let s0 = crate::stabilizer::initial_state(n as nat, seed, nc as nat);
    assert(run_ops(s0, ops, n as nat) == s0);
    let g = s0.0.subrange(n as int, 2 * n);
    assert forall|i: int| 0 <= i < n implies crate::pauli::pauli_text(#[trigger] g[i]) == z_on_text(
        n as nat,
        i,
    ) by {
        assert(g[i] == zero_state_rows(n as nat)[n + i]);
        law_zero_state_generators(n as nat, i);
    }
}

/// A measurement of qubit `q` with a random outcome (some stabilizer
/// anticommutes with `Z_q`; `p` is the first one) draws one value from the
/// generator, whose low bit is the outcome; stabilizer row `p` becomes
/// `Z_q` with the outcome as its sign, and destabilizer row `p - n` takes
/// the old stabilizer row `p`. Measuring the qubit again right after gives
/// the same outcome and draws nothing.
pub proof fn law_random_measurement(t: Seq<Row>, rng: Seq<u64>, n: nat, q: int)
    requires
        t.len() == 2 * n + 1,
        rows_wf(t, n),
        0 <= q < n,
        first_x_from(t, n, q, n) < 2 * n,
    ensures
        ({
            let p = first_x_from(t, n, q, n) as int;
            let (t1, rng1, outcome) = measure_spec(t, rng, n, q);
            &&& n <= p
            &&& outcome == (crate::rng::xoshiro_output(rng) & 1 == 1)
            &&& rng1 == crate::rng::xoshiro_step(rng)
            &&& t1[p] == (zeros(n), unit(n, q), outcome)
            &&& t1[p - n] == t[p]
            &&& measure_spec(t1, rng1, n, q).1 == rng1
            &&& measure_spec(t1, rng1, n, q).2 == outcome
        }),
{
    lemma_first_x_found(t, n, q, n);
    law_measurement_repeats(t, rng, n, q);
}

/// A measurement of qubit `q` with a determined outcome (no stabilizer
/// anticommutes with `Z_q`) draws nothing from the generator and changes no
/// destabilizer or stabilizer row; its outcome is the sign of the product
/// of the stabilizers that `Z_q` is built from, which the scratch row holds.
pub proof fn law_determined_measurement(t: Seq<Row>, rng: Seq<u64>, n: nat, q: int)
    requires
        t.len() == 2 * n + 1,
        0 <= q < n,
        first_x_from(t, n, q, n) >= 2 * n,
    ensures
        ({
            let (t1, rng1, outcome) = measure_spec(t, rng, n, q);
            &&& rng1 == rng
            &&& t1.len() == t.len()
            &&& forall|i: int| 0 <= i < 2 * n ==> #[trigger] t1[i] == t[i]
            &&& t1[2 * n as int] == determined_product(t, n, q, n)
            &&& outcome == determined_product(t, n, q, n).2
        }),
{
}

/// A row on two qubits from its bits and sign.
spec fn row2(x0: bool, x1: bool, z0: bool, z1: bool, neg: bool) -> Row {
    (seq![x0, x1], seq![z0, z1], neg)
}

/// The Bell-pair circuit: `H` on qubit 0, CNOT from 0 to 1, then each qubit
/// measured into the classical bit of the same index.
pub open spec fn bell_ops() -> Seq<CliffordOp> {
    seq![
        OpView::Apply1 { gate: Some(Clifford1::H), target: QubitId(0) },
        OpView::Apply2 { gate: Some(Clifford2::Cnot), a: QubitId(0), b: QubitId(1) },
        OpView::Measure { qubit: QubitId(0), into: ClassicalBit(0) },
        OpView::Measure { qubit: QubitId(1), into: ClassicalBit(1) },
    ]
}

proof fn lemma_rows_eq(t: Seq<Row>, u: Seq<Row>)
    requires
        t.len() == u.len(),
        forall|i: int| 0 <= i < t.len() ==> (#[trigger] t[i]).0 =~= u[i].0 && t[i].1 =~= u[i].1
            && t[i].2 == u[i].2,
    ensures
        t == u,
{
    assert forall|i: int| 0 <= i < t.len() implies #[trigger] t[i] == u[i] by {
        assert(t[i].0 == u[i].0 && t[i].1 == u[i].1);
    }
    assert(t =~= u);
}

/// The tableau of the Bell pair before its measurements.
spec fn bell_rows() -> Seq<Row> {
    seq![
        row2(false, false, true, false, false),
        row2(false, true, false, false, false),
        row2(true, true, false, false, false),
        row2(false, false, true, true, false),
        row2(false, false, false, false, false),
    ]
}

proof fn lemma_bell_prepare()
    ensures
        apply_prims_rows(
            apply_prims_rows(zero_state_rows(2), 4, seq![Prim::H(0)]),
            4,
            seq![Prim::Cnot(0, 1)],
        ) == bell_rows(),
{
    let t0 = zero_state_rows(2);
    let z = seq![row2(true, false, false, false, false), row2(false, true, false, false, false),
        row2(false, false, true, false, false), row2(false, false, false, true, false),
        row2(false, false, false, false, false)];
    lemma_rows_eq(t0, z);
    let ps1 = seq![Prim::H(0)];
    assert(ps1.drop_last() =~= Seq::<Prim>::empty());
    assert(apply_prims_rows(t0, 4, ps1.drop_last()) == t0);
    let t1 = apply_prims_rows(t0, 4, ps1);
    assert(t1 == apply_prim_rows(t0, 4, Prim::H(0)));
    let h = seq![row2(false, false, true, false, false), row2(false, true, false, false, false),
        row2(true, false, false, false, false), row2(false, false, false, true, false),
        row2(false, false, false, false, false)];
    lemma_rows_eq(t1, h);
    let ps2 = seq![Prim::Cnot(0, 1)];
    assert(ps2.drop_last() =~= Seq::<Prim>::empty());
    assert(apply_prims_rows(t1, 4, ps2.drop_last()) == t1);
    let t2 = apply_prims_rows(t1, 4, ps2);
    assert(t2 == apply_prim_rows(t1, 4, Prim::Cnot(0, 1)));
    lemma_rows_eq(t2, bell_rows());
}

/// The Bell pair after qubit 0 was measured with outcome `o`.
spec fn bell_rows_measured(o: bool) -> Seq<Row> {
    seq![
        row2(true, true, false, false, false),
        row2(false, true, false, false, false),
        row2(false, false, true, false, o),
        row2(false, false, true, true, false),
        row2(false, false, false, false, false),
    ]
}

proof fn lemma_bell_first_measure(rng: Seq<u64>)
    ensures
        ({
            let o = crate::rng::xoshiro_output(rng) & 1 == 1;
            measure_spec(bell_rows(), rng, 2, 0) == (bell_rows_measured(o), crate::rng::xoshiro_step(rng), o)
        }),
{
    let t = bell_rows();
    let o = crate::rng::xoshiro_output(rng) & 1 == 1;
    assert(first_x_from(t, 2, 0, 2) == 2);
    let m = measure_random_rows(t, 2, 0, 2, o);
    assert(zeros(2) =~= seq![false, false]);
    assert(unit(2, 0) =~= seq![true, false]);
    lemma_rows_eq(m, bell_rows_measured(o));
}

proof fn lemma_bell_second_measure(rng: Seq<u64>, o: bool)
    ensures
        measure_spec(bell_rows_measured(o), rng, 2, 1).1 == rng,
        measure_spec(bell_rows_measured(o), rng, 2, 1).2 == o,
{
    let t = bell_rows_measured(o);
    reveal_with_fuel(first_x_from, 3);
    assert(first_x_from(t, 2, 1, 2) == 4);
    reveal_with_fuel(determined_product, 3);
    assert(t[0].0[1] && t[1].0[1]);
    let acc1 = determined_product(t, 2, 1, 1);
    assert(determined_product(t, 2, 1, 0) == identity_row(2));
    lemma_identity_times(t[2], 2);
    assert(acc1 == t[2]);
    reveal_with_fuel(g_sum, 3);
    assert(g_sum(t[3], acc1, 2) == 0);
    assert(determined_product(t, 2, 1, 2) == row_mul(acc1, t[3], 2));
}

/// Measuring both halves of a Bell pair gives equal outcomes, whatever the
/// seed.
pub proof fn law_bell_outcomes_agree(seed: u64)
    ensures
        run_result(bell_ops(), 2, 2, seed) matches Ok((g, c)) && c.len() == 2 && c[0] == c[1],
{
    let ops = bell_ops();
    reveal_with_fuel(ops_error, 5);
    assert(ops.drop_first().drop_first().drop_first().drop_first() =~= Seq::<CliffordOp>::empty());
    assert(ops_error(ops, 2, 2) is None);
    let s0 = crate::stabilizer::initial_state(2, seed, 2);
    let s1 = run_op(s0, ops[0], 2);
    let s2 = run_op(s1, ops[1], 2);
    let s3 = run_op(s2, ops[2], 2);
    let s4 = run_op(s3, ops[3], 2);
    assert(crate::clifford::decompose1(Clifford1::H, 0) == seq![Prim::H(0)]);
    assert(crate::clifford::decompose2(Clifford2::Cnot, 0, 1) == seq![Prim::Cnot(0, 1)]);
    lemma_bell_prepare();
    assert(s2.0 == bell_rows());
    assert(s2.2 is None);
    lemma_bell_first_measure(s2.1);
    let o = crate::rng::xoshiro_output(s2.1) & 1 == 1;
    assert(s3.0 == bell_rows_measured(o));
    assert(s3.3 == s2.3.update(0, o));
    lemma_bell_second_measure(s3.1, o);
    assert(s4.3 == s3.3.update(1, o));
    reveal_with_fuel(run_ops, 5);
    assert(run_ops(s0, ops, 2) == s4);
}


/// A row on three qubits from its bits and sign.
spec fn row3(x: (bool, bool, bool), z: (bool, bool, bool), neg: bool) -> Row {
    (seq![x.0, x.1, x.2], seq![z.0, z.1, z.2], neg)
}

/// The teleportation circuit: qubit 0 prepared in `|+>`, a Bell pair on
/// qubits 1 and 2, a Bell measurement of qubits 0 and 1 into bits 0 and 1,
/// the corrections `X` (if bit 1) and `Z` (if bit 0) on qubit 2, and qubit 2
/// read out in the `X` basis into bit 2.
pub open spec fn teleport_ops() -> Seq<CliffordOp> {
    seq![
        OpView::Apply1 { gate: Some(Clifford1::H), target: QubitId(0) },
        OpView::Apply1 { gate: Some(Clifford1::H), target: QubitId(1) },
        OpView::Apply2 { gate: Some(Clifford2::Cnot), a: QubitId(1), b: QubitId(2) },
        OpView::Apply2 { gate: Some(Clifford2::Cnot), a: QubitId(0), b: QubitId(1) },
        OpView::Apply1 { gate: Some(Clifford1::H), target: QubitId(0) },
        OpView::Measure { qubit: QubitId(0), into: ClassicalBit(0) },
        OpView::Measure { qubit: QubitId(1), into: ClassicalBit(1) },
        OpView::IfClassic {
            bit: ClassicalBit(1),
            then: Box::new(OpView::Apply1 { gate: Some(Clifford1::X), target: QubitId(2) }),
        },
        OpView::IfClassic {
            bit: ClassicalBit(0),
            then: Box::new(OpView::Apply1 { gate: Some(Clifford1::Z), target: QubitId(2) }),
        },
        OpView::Apply1 { gate: Some(Clifford1::H), target: QubitId(2) },
        OpView::Measure { qubit: QubitId(2), into: ClassicalBit(2) },
    ]
}

/// One primitive applied as a sequence of one.
proof fn lemma_one_prim(t: Seq<Row>, active: nat, p: Prim)
    ensures
        apply_prims_rows(t, active, seq![p]) == apply_prim_rows(t, active, p),
{
    assert(seq![p].drop_last() =~= Seq::<Prim>::empty());
    assert(apply_prims_rows(t, active, seq![p].drop_last()) == t);
}

const F: bool = false;

const T: bool = true;

/// The tableau after qubit 0 is prepared and the Bell pair and the Bell
/// basis change are applied.
spec fn tel_prepared() -> Seq<Row> {
    seq![
        row3((T, F, F), (F, F, F), F),
        row3((T, F, F), (F, T, F), F),
        row3((F, F, T), (F, F, F), F),
        row3((F, T, F), (T, F, F), F),
        row3((F, T, T), (F, F, F), F),
        row3((T, F, F), (F, T, T), F),
        row3((F, F, F), (F, F, F), F),
    ]
}

proof fn lemma_tel_prepare()
    ensures
        apply_prims_rows(
            apply_prims_rows(
                apply_prims_rows(
                    apply_prims_rows(
                        apply_prims_rows(zero_state_rows(3), 6, seq![Prim::H(0)]),
                        6,
                        seq![Prim::H(1)],
                    ),
                    6,
                    seq![Prim::Cnot(1, 2)],
                ),
                6,
                seq![Prim::Cnot(0, 1)],
            ),
            6,
            seq![Prim::H(0)],
        ) == tel_prepared(),
{
    let t0 = zero_state_rows(3);
    let z = seq![
        row3((T, F, F), (F, F, F), F),
        row3((F, T, F), (F, F, F), F),
        row3((F, F, T), (F, F, F), F),
        row3((F, F, F), (T, F, F), F),
        row3((F, F, F), (F, T, F), F),
        row3((F, F, F), (F, F, T), F),
        row3((F, F, F), (F, F, F), F),
    ];
    lemma_rows_eq(t0, z);
    lemma_one_prim(t0, 6, Prim::H(0));
    let t1 = apply_prim_rows(t0, 6, Prim::H(0));
    let e1 = seq![
        row3((F, F, F), (T, F, F), F),
        row3((F, T, F), (F, F, F), F),
        row3((F, F, T), (F, F, F), F),
        row3((T, F, F), (F, F, F), F),
        row3((F, F, F), (F, T, F), F),
        row3((F, F, F), (F, F, T), F),
        row3((F, F, F), (F, F, F), F),
    ];
    lemma_rows_eq(t1, e1);
    lemma_one_prim(t1, 6, Prim::H(1));
    let t2 = apply_prim_rows(t1, 6, Prim::H(1));
    let e2 = seq![
        row3((F, F, F), (T, F, F), F),
        row3((F, F, F), (F, T, F), F),
        row3((F, F, T), (F, F, F), F),
        row3((T, F, F), (F, F, F), F),
        row3((F, T, F), (F, F, F), F),
        row3((F, F, F), (F, F, T), F),
        row3((F, F, F), (F, F, F), F),
    ];
    lemma_rows_eq(t2, e2);
    lemma_one_prim(t2, 6, Prim::Cnot(1, 2));
    let t3 = apply_prim_rows(t2, 6, Prim::Cnot(1, 2));
    let e3 = seq![
        row3((F, F, F), (T, F, F), F),
        row3((F, F, F), (F, T, F), F),
        row3((F, F, T), (F, F, F), F),
        row3((T, F, F), (F, F, F), F),
        row3((F, T, T), (F, F, F), F),
        row3((F, F, F), (F, T, T), F),
        row3((F, F, F), (F, F, F), F),
    ];
    lemma_rows_eq(t3, e3);
    lemma_one_prim(t3, 6, Prim::Cnot(0, 1));
    let t4 = apply_prim_rows(t3, 6, Prim::Cnot(0, 1));
    let e4 = seq![
        row3((F, F, F), (T, F, F), F),
        row3((F, F, F), (T, T, F), F),
        row3((F, F, T), (F, F, F), F),
        row3((T, T, F), (F, F, F), F),
        row3((F, T, T), (F, F, F), F),
        row3((F, F, F), (T, T, T), F),
        row3((F, F, F), (F, F, F), F),
    ];
    lemma_rows_eq(t4, e4);
    lemma_one_prim(t4, 6, Prim::H(0));
    let t5 = apply_prim_rows(t4, 6, Prim::H(0));
    lemma_rows_eq(t5, tel_prepared());
}

/// The tableau after qubit 0 was measured with outcome `o0`.
spec fn tel_measured0(o0: bool) -> Seq<Row> {
    seq![
        row3((F, F, F), (F, T, T), F),
        row3((F, F, F), (F, F, T), F),
        row3((T, F, F), (F, T, T), F),
        row3((F, T, F), (T, F, F), F),
        row3((F, T, T), (F, F, F), F),
        row3((F, F, F), (T, F, F), o0),
        row3((F, F, F), (F, F, F), F),
    ]
}

proof fn lemma_tel_measure0(rng: Seq<u64>)
    ensures
        ({
            let o0 = crate::rng::xoshiro_output(rng) & 1 == 1;
            measure_spec(tel_prepared(), rng, 3, 0) == (tel_measured0(o0), crate::rng::xoshiro_step(rng), o0)
        }),
{
    let t = tel_prepared();
    let o0 = crate::rng::xoshiro_output(rng) & 1 == 1;
    reveal_with_fuel(first_x_from, 4);
    assert(first_x_from(t, 3, 0, 3) == 5);
    reveal_with_fuel(g_sum, 4);
    let m = measure_random_rows(t, 3, 0, 5, o0);
    assert(zeros(3) =~= seq![F, F, F]);
    assert(unit(3, 0) =~= seq![T, F, F]);
    lemma_rows_eq(m, tel_measured0(o0));
}

/// The tableau after qubit 1 was measured too, with outcome `o1`.
spec fn tel_measured1(o0: bool, o1: bool) -> Seq<Row> {
    seq![
        row3((F, T, F), (T, F, F), F),
        row3((F, F, F), (F, F, T), F),
        row3((T, F, F), (F, T, T), F),
        row3((F, F, F), (F, T, F), o1),
        row3((F, F, T), (T, F, F), F),
        row3((F, F, F), (T, F, F), o0),
        row3((F, F, F), (F, F, F), F),
    ]
}

proof fn lemma_tel_measure1(rng: Seq<u64>, o0: bool)
    ensures
        ({
            let o1 = crate::rng::xoshiro_output(rng) & 1 == 1;
            measure_spec(tel_measured0(o0), rng, 3, 1) == (tel_measured1(o0, o1), crate::rng::xoshiro_step(rng), o1)
        }),
{
    let t = tel_measured0(o0);
    let o1 = crate::rng::xoshiro_output(rng) & 1 == 1;
    assert(first_x_from(t, 3, 1, 3) == 3);
    reveal_with_fuel(g_sum, 4);
    let m = measure_random_rows(t, 3, 1, 3, o1);
    assert(zeros(3) =~= seq![F, F, F]);
    assert(unit(3, 1) =~= seq![F, T, F]);
    lemma_rows_eq(m, tel_measured1(o0, o1));
}

/// The tableau after the `X` correction (applied when `o1` is set).
spec fn tel_corrected_x(o0: bool, o1: bool) -> Seq<Row> {
    seq![
        row3((F, T, F), (T, F, F), F),
        row3((F, F, F), (F, F, T), o1),
        row3((T, F, F), (F, T, T), o1),
        row3((F, F, F), (F, T, F), o1),
        row3((F, F, T), (T, F, F), F),
        row3((F, F, F), (T, F, F), o0),
        row3((F, F, F), (F, F, F), F),
    ]
}

/// The tableau after the `Z` correction too (applied when `o0` is set).
spec fn tel_corrected(o0: bool, o1: bool) -> Seq<Row> {
    seq![
        row3((F, T, F), (T, F, F), F),
        row3((F, F, F), (F, F, T), o1),
        row3((T, F, F), (F, T, T), o1),
        row3((F, F, F), (F, T, F), o1),
        row3((F, F, T), (T, F, F), o0),
        row3((F, F, F), (T, F, F), o0),
        row3((F, F, F), (F, F, F), F),
    ]
}

/// The tableau after the final `H` on qubit 2.
spec fn tel_rotated(o0: bool, o1: bool) -> Seq<Row> {
    seq![
        row3((F, T, F), (T, F, F), F),
        row3((F, F, T), (F, F, F), o1),
        row3((T, F, T), (F, T, F), o1),
        row3((F, F, F), (F, T, F), o1),
        row3((F, F, F), (T, F, T), o0),
        row3((F, F, F), (T, F, F), o0),
        row3((F, F, F), (F, F, F), F),
    ]
}

proof fn lemma_tel_corrections(o0: bool, o1: bool)
    ensures
        o1 ==> apply_prims_rows(tel_measured1(o0, o1), 6, seq![Prim::X(2)]) == tel_corrected_x(o0, o1),
        !o1 ==> tel_measured1(o0, o1) == tel_corrected_x(o0, o1),
        o0 ==> apply_prims_rows(tel_corrected_x(o0, o1), 6, seq![Prim::Z(2)]) == tel_corrected(o0, o1),
        !o0 ==> tel_corrected_x(o0, o1) == tel_corrected(o0, o1),
        apply_prims_rows(tel_corrected(o0, o1), 6, seq![Prim::H(2)]) == tel_rotated(o0, o1),
{
    let t = tel_measured1(o0, o1);
    lemma_one_prim(t, 6, Prim::X(2));
    if o1 {
        lemma_rows_eq(apply_prim_rows(t, 6, Prim::X(2)), tel_corrected_x(o0, o1));
    } else {
        lemma_rows_eq(t, tel_corrected_x(o0, o1));
    }
    let u = tel_corrected_x(o0, o1);
    lemma_one_prim(u, 6, Prim::Z(2));
    if o0 {
        lemma_rows_eq(apply_prim_rows(u, 6, Prim::Z(2)), tel_corrected(o0, o1));
    } else {
        lemma_rows_eq(u, tel_corrected(o0, o1));
    }
    let v = tel_corrected(o0, o1);
    lemma_one_prim(v, 6, Prim::H(2));
    lemma_rows_eq(apply_prim_rows(v, 6, Prim::H(2)), tel_rotated(o0, o1));
}

proof fn lemma_tel_readout(rng: Seq<u64>, o0: bool, o1: bool)
    ensures
        measure_spec(tel_rotated(o0, o1), rng, 3, 2).1 == rng,
        measure_spec(tel_rotated(o0, o1), rng, 3, 2).2 == false,
{
    let t = tel_rotated(o0, o1);
    reveal_with_fuel(first_x_from, 4);
    assert(first_x_from(t, 3, 2, 3) == 6);
    reveal_with_fuel(determined_product, 4);
    assert(!t[0].0[2] && t[1].0[2] && t[2].0[2]);
    assert(determined_product(t, 3, 2, 0) == identity_row(3));
    assert(determined_product(t, 3, 2, 1) == identity_row(3));
    let acc2 = determined_product(t, 3, 2, 2);
    assert(acc2 == row_mul(identity_row(3), t[4], 3));
    reveal_with_fuel(g_sum, 4);
    assert(g_sum(t[4], identity_row(3), 3) == 0);
    if o0 {
        assert(acc2.2);
    } else {
        assert(!acc2.2);
    }
    assert(acc2.0 =~= seq![F, F, F]);
    assert(acc2.1 =~= seq![T, F, T]);
    assert(determined_product(t, 3, 2, 3) == row_mul(acc2, t[5], 3));
}

proof fn lemma_teleport_valid()
    ensures
        ops_error(teleport_ops(), 3, 3) is None,
{
    let ops = teleport_ops();
    reveal_with_fuel(ops_error, 12);
    reveal_with_fuel(op_error, 2);
    assert(ops.drop_first().drop_first().drop_first().drop_first().drop_first().drop_first()
        .drop_first().drop_first().drop_first().drop_first().drop_first() =~= Seq::<CliffordOp>::empty());
}

/// One more operation of a run.
proof fn lemma_run_ops_step(s: RunState, ops: Seq<CliffordOp>, k: int, n: nat)
    requires
        0 <= k < ops.len(),
    ensures
        run_ops(s, ops.skip(k), n) == run_ops(run_op(s, ops[k], n), ops.skip(k + 1), n),
{
    assert(ops.skip(k).drop_first() =~= ops.skip(k + 1));
}

/// The gates before the Bell measurement.
proof fn lemma_tel_run_gates(s0: RunState)
    requires
        s0.0 == zero_state_rows(3),
        s0.2 is None,
    ensures
        ({
            let ops = teleport_ops();
            let s5 = run_op(run_op(run_op(run_op(run_op(s0, ops[0], 3), ops[1], 3), ops[2], 3), ops[3], 3), ops[4], 3);
            s5 == (tel_prepared(), s0.1, s0.2, s0.3)
        }),
{
    assert(crate::clifford::decompose1(Clifford1::H, 0) == seq![Prim::H(0)]);
    assert(crate::clifford::decompose1(Clifford1::H, 1) == seq![Prim::H(1)]);
    assert(crate::clifford::decompose2(Clifford2::Cnot, 1, 2) == seq![Prim::Cnot(1, 2)]);
    assert(crate::clifford::decompose2(Clifford2::Cnot, 0, 1) == seq![Prim::Cnot(0, 1)]);
    lemma_tel_prepare();
}

/// The Bell measurement.
proof fn lemma_tel_run_measures(s5: RunState)
    requires
        s5.0 == tel_prepared(),
        s5.2 is None,
        s5.3.len() == 3,
    ensures
        ({
            let ops = teleport_ops();
            let o0 = crate::rng::xoshiro_output(s5.1) & 1 == 1;
            let o1 = crate::rng::xoshiro_output(crate::rng::xoshiro_step(s5.1)) & 1 == 1;
            let s7 = run_op(run_op(s5, ops[5], 3), ops[6], 3);
            &&& s7.0 == tel_measured1(o0, o1)
            &&& s7.2 is None
            &&& s7.3 == s5.3.update(0, o0).update(1, o1)
        }),
{
    lemma_tel_measure0(s5.1);
    let o0 = crate::rng::xoshiro_output(s5.1) & 1 == 1;
    lemma_tel_measure1(crate::rng::xoshiro_step(s5.1), o0);
}

/// The corrections, the basis change and the readout.
proof fn lemma_tel_run_readout(s7: RunState, o0: bool, o1: bool)
    requires
        s7.0 == tel_measured1(o0, o1),
        s7.2 is None,
        s7.3.len() == 3,
        s7.3[0] == o0,
        s7.3[1] == o1,
    ensures
        ({
            let ops = teleport_ops();
            let s11 = run_op(run_op(run_op(run_op(s7, ops[7], 3), ops[8], 3), ops[9], 3), ops[10], 3);
            &&& s11.2 is None
            &&& s11.3 == s7.3.update(2, false)
        }),
{
    assert(crate::clifford::decompose1(Clifford1::H, 2) == seq![Prim::H(2)]);
    assert(crate::clifford::decompose1(Clifford1::X, 2) == seq![Prim::X(2)]);
    assert(crate::clifford::decompose1(Clifford1::Z, 2) == seq![Prim::Z(2)]);
    lemma_tel_corrections(o0, o1);
    reveal_with_fuel(run_op, 2);
    let ops = teleport_ops();
    let s8 = run_op(s7, ops[7], 3);
    let s9 = run_op(s8, ops[8], 3);
    let s10 = run_op(s9, ops[9], 3);
    assert(s8.0 == tel_corrected_x(o0, o1) && s8.3 == s7.3 && s8.2 is None);
    assert(s9.0 == tel_corrected(o0, o1) && s9.3 == s7.3 && s9.2 is None);
    assert(s10.0 == tel_rotated(o0, o1) && s10.3 == s7.3 && s10.2 is None);
    lemma_tel_readout(s10.1, o0, o1);
}

/// Teleporting `|+>` and reading the teleported qubit out in the `X` basis
/// gives 0, whatever the seed (and so whatever the two random outcomes of
/// the Bell measurement).
pub proof fn law_teleported_plus_reads_zero(seed: u64)
    ensures
        run_result(teleport_ops(), 3, 3, seed) matches Ok((g, c)) && c.len() == 3 && !c[2],
{
    let ops = teleport_ops();
    lemma_teleport_valid();
    let s0 = crate::stabilizer::initial_state(3, seed, 3);
    let s1 = run_op(s0, ops[0], 3);
    let s2 = run_op(s1, ops[1], 3);
    let s3 = run_op(s2, ops[2], 3);
    let s4 = run_op(s3, ops[3], 3);
    let s5 = run_op(s4, ops[4], 3);
    let s6 = run_op(s5, ops[5], 3);
    let s7 = run_op(s6, ops[6], 3);
    let s8 = run_op(s7, ops[7], 3);
    let s9 = run_op(s8, ops[8], 3);
    let s10 = run_op(s9, ops[9], 3);
    let s11 = run_op(s10, ops[10], 3);
    lemma_tel_run_gates(s0);
    lemma_tel_run_measures(s5);
    let o0 = crate::rng::xoshiro_output(s5.1) & 1 == 1;
    let o1 = crate::rng::xoshiro_output(crate::rng::xoshiro_step(s5.1)) & 1 == 1;
    lemma_tel_run_readout(s7, o0, o1);
    assert(ops.skip(0) =~= ops);
    lemma_run_ops_step(s0, ops, 0, 3);
    lemma_run_ops_step(s1, ops, 1, 3);
    lemma_run_ops_step(s2, ops, 2, 3);
    lemma_run_ops_step(s3, ops, 3, 3);
    lemma_run_ops_step(s4, ops, 4, 3);
    lemma_run_ops_step(s5, ops, 5, 3);
    lemma_run_ops_step(s6, ops, 6, 3);
    lemma_run_ops_step(s7, ops, 7, 3);
    lemma_run_ops_step(s8, ops, 8, 3);
    lemma_run_ops_step(s9, ops, 9, 3);
    lemma_run_ops_step(s10, ops, 10, 3);
    assert(ops.skip(11) =~= Seq::<CliffordOp>::empty());
    assert(run_ops(s0, ops, 3) == s11);
}

} // verus!
