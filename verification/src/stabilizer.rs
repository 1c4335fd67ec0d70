//! The stabilizer (Clifford) backend.
//!
//! Clifford circuits -- those built from `H`, `S`, `CNOT`, and the Paulis --
//! are efficiently classically simulable by the Gottesman-Knill theorem.
//! Rather than store `2^n` amplitudes, this backend tracks the state's
//! stabilizer group: `n` Pauli operators that fix the state. The tableau (the
//! Aaronson-Gottesman "CHP" algorithm) holds `2n` Pauli rows -- rows `0..n` are
//! destabilizers, rows `n..2n` stabilizers -- plus one scratch row `2n`.

use vstd::prelude::*;

use crate::circuit::{controls_error, controls_error_from, first_of, op_error, ops_error, qubit_error, classical_error, Circuit};
use crate::clifford::{
    apply_prims_rows, clifford1, clifford2, controlled_clifford, decompose1, decompose2, decompose_controlled,
    remap1, remapped, Clifford1, Clifford2,
    apply_prim_rows, g_sum, identity_row, pauli_g, prim_in_range, row_mul, row_prim, unit, zero_state_row, zero_state_rows,
    zeros, Prim, Row,
};
use crate::rng::{seeded_state, xoshiro_output, xoshiro_step};
use crate::error::Error;
use crate::op::{Op, OpView};
use crate::pauli::PauliString;
use crate::rng::Rng;

verus! {

/// The tableau of a stabilizer simulation, with its measurement RNG.
pub struct StabilizerBackend {
    n: usize,
    x: Vec<Vec<bool>>,
    z: Vec<Vec<bool>>,
    r: Vec<bool>,
    rng: Rng,
    error: Option<Error>,
}

/// The qubit a single-qubit primitive acts on.
fn single_target(p: Prim) -> (q: usize)
    requires
        !(p is Cnot),
    ensures
        q == prim_target(p),
{
    match p {
        Prim::H(q) => q,
        Prim::S(q) => q,
        Prim::Sdg(q) => q,
        Prim::X(q) => q,
        Prim::Y(q) => q,
        Prim::Z(q) => q,
        Prim::Cnot(a, _) => a,
    }
}

/// The target of a single-qubit primitive.
spec fn prim_target(p: Prim) -> usize {
    match p {
        Prim::H(t) => t,
        Prim::S(t) => t,
        Prim::Sdg(t) => t,
        Prim::X(t) => t,
        Prim::Y(t) => t,
        Prim::Z(t) => t,
        Prim::Cnot(a, _) => a,
    }
}

/// The new `(x_q, z_q, r)` of a row under a single-qubit primitive, from the
/// old `(x_q, z_q, r)`.
fn single_rule(p: Prim, xi: bool, zi: bool, ri: bool) -> (res: (bool, bool, bool))
    requires
        !(p is Cnot),
    ensures
        forall|row: Row|
            prim_target(p) < row.0.len() && prim_target(p) < row.1.len()
                && row.0[prim_target(p) as int] == xi && row.1[prim_target(p) as int] == zi
                && row.2 == ri ==> {
                let new = #[trigger] row_prim(row, p);
                &&& new.0 == row.0.update(prim_target(p) as int, res.0)
                &&& new.1 == row.1.update(prim_target(p) as int, res.1)
                &&& new.2 == res.2
            },
{
    let res = match p {
        // r ^= x*z, then swap x and z for this qubit.
        Prim::H(_) => (zi, xi, ri != (xi && zi)),
        // r ^= x*z, then z ^= x.
        Prim::S(_) => (xi, zi != xi, ri != (xi && zi)),
        // S^dagger = S^3 = Z S: the S rule, then the Z rule.
        Prim::Sdg(_) => (xi, zi != xi, (ri != (xi && zi)) != xi),
        // X: phase flips where z_q is set.
        Prim::X(_) => (xi, zi, ri != zi),
        // Y: phase flips by both x_q and z_q.
        Prim::Y(_) => (xi, zi, ri != (xi != zi)),
        // Z: phase flips where x_q is set.
        Prim::Z(_) => (xi, zi, ri != xi),
        Prim::Cnot(_, _) => (xi, zi, ri),
    };
    assert forall|row: Row|
        prim_target(p) < row.0.len() && prim_target(p) < row.1.len()
            && row.0[prim_target(p) as int] == xi && row.1[prim_target(p) as int] == zi
            && row.2 == ri implies {
            let new = #[trigger] row_prim(row, p);
            &&& new.0 == row.0.update(prim_target(p) as int, res.0)
            &&& new.1 == row.1.update(prim_target(p) as int, res.1)
            &&& new.2 == res.2
        } by {
        let q = prim_target(p);
        let new = row_prim(row, p);
        assert(new.0 =~= row.0.update(q as int, res.0));
        assert(new.1 =~= row.1.update(q as int, res.1));
    }
    res
}

/// The first stabilizer row index in `i..2n` whose Pauli on qubit `q` has its
/// `x` bit set (it anticommutes with `Z_q`), or `2n` if there is none.
pub open spec fn first_x_from(t: Seq<Row>, n: nat, q: int, i: nat) -> nat
    decreases 2 * n - i,
{
    if i >= 2 * n {
        2 * n
    } else if t[i as int].0[q] {
        i
    } else {
        first_x_from(t, n, q, i + 1)
    }
}

/// The tableau after a random-outcome measurement of qubit `q`, where `p` is
/// the first stabilizer anticommuting with `Z_q` and `outcome` the sampled
/// result: every other anticommuting row is multiplied by row `p`, the
/// destabilizer `p - n` takes the old stabilizer `p`, and stabilizer `p`
/// becomes `(-1)^outcome Z_q`.
pub open spec fn measure_random_rows(t: Seq<Row>, n: nat, q: int, p: int, outcome: bool) -> Seq<Row> {
    let mid = Seq::new(
        t.len(),
        |i: int|
            if i < 2 * n && i != p && t[i].0[q] {
                row_mul(t[i], t[p], n)
            } else {
                t[i]
            },
    );
    mid.update(p - n, t[p]).update(p, (zeros(n), unit(n, q), outcome))
}

/// The product of the stabilizers `n + i` (for `i < k`) whose destabilizer `i`
/// anticommutes with `Z_q`, accumulated left to right from the identity.
pub open spec fn determined_product(t: Seq<Row>, n: nat, q: int, k: nat) -> Row
    decreases k,
{
    if k == 0 {
        identity_row(n)
    } else {
        let acc = determined_product(t, n, q, (k - 1) as nat);
        if t[k - 1].0[q] {
            row_mul(acc, t[n + k - 1], n)
        } else {
            acc
        }
    }
}

/// Measuring qubit `q` of a tableau `t` on `n` qubits with RNG state `rng`:
/// the new rows, the new RNG state and the outcome. The outcome is random (the
/// low bit of the next RNG output) when some stabilizer anticommutes with
/// `Z_q`, and otherwise determined by the phase of the product of stabilizers
/// that `Z_q` is built from (collected in the scratch row).
pub open spec fn measure_spec(t: Seq<Row>, rng: Seq<u64>, n: nat, q: int) -> (Seq<Row>, Seq<u64>, bool) {
    let p = first_x_from(t, n, q, n);
    if p < 2 * n {
        let outcome = xoshiro_output(rng) & 1 == 1;
        (measure_random_rows(t, n, q, p as int, outcome), xoshiro_step(rng), outcome)
    } else {
        let acc = determined_product(t, n, q, n);
        (t.update((2 * n) as int, acc), rng, acc.2)
    }
}

/// A circuit operation whose gates have been recognized as Clifford gates
/// (`Some`) or not (`None`).
pub type CliffordOp = OpView<Option<Clifford1>, Option<Clifford2>>;

/// The state of a stabilizer run: tableau rows, RNG state, the first
/// non-Clifford error met (if any), and the classical register.
pub type RunState = (Seq<Row>, Seq<u64>, Option<Error>, Seq<bool>);

/// The error recorded for a non-Clifford gate.
pub open spec fn non_clifford(gate: &'static str) -> Option<Error> {
    Some(Error::NonClifford { gate })
}

/// Runs one operation on a stabilizer state of `n` qubits. Once a
/// non-Clifford gate has been met, gates do nothing and measurements record
/// `false`; a classically controlled operation runs only if its bit is set.
pub open spec fn run_op(s: RunState, op: CliffordOp, n: nat) -> RunState
    decreases op,
{
    let (t, rng, err, c) = s;
    match op {
        OpView::Apply1 { gate, target } => if err is Some {
            s
        } else {
            match gate {
                Some(k) => (apply_prims_rows(t, 2 * n, decompose1(k, target.0)), rng, err, c),
                None => (t, rng, non_clifford("non-Clifford 1-qubit gate"), c),
            }
        },
        OpView::Apply2 { gate, a, b } => if err is Some {
            s
        } else {
            match gate {
                Some(k) => (apply_prims_rows(t, 2 * n, decompose2(k, a.0, b.0)), rng, err, c),
                None => (t, rng, non_clifford("non-Clifford 2-qubit gate"), c),
            }
        },
        OpView::Controlled { controls, gate, target } => if err is Some {
            s
        } else if controls.len() == 1 && gate is Some && decompose_controlled(
            gate->0,
            controls[0].0,
            target.0,
        ) is Some {
            (
                apply_prims_rows(t, 2 * n, decompose_controlled(gate->0, controls[0].0, target.0)->0),
                rng,
                err,
                c,
            )
        } else {
            (t, rng, non_clifford("non-Clifford controlled gate"), c)
        },
        OpView::Measure { qubit, into } => if err is Some {
            (t, rng, err, c.update(into.0 as int, false))
        } else {
            let (t2, rng2, outcome) = measure_spec(t, rng, n, qubit.0 as int);
            (t2, rng2, err, c.update(into.0 as int, outcome))
        },
        OpView::IfClassic { bit, then } => if c[bit.0 as int] {
            run_op(s, *then, n)
        } else {
            s
        },
    }
}

/// Runs a sequence of operations, first to last.
pub open spec fn run_ops(s: RunState, ops: Seq<CliffordOp>, n: nat) -> RunState
    decreases ops.len(),
{
    if ops.len() == 0 {
        s
    } else {
        run_ops(run_op(s, ops[0], n), ops.drop_first(), n)
    }
}

/// The state a run starts from: `|0...0>` on `n` qubits, the RNG seeded with
/// `seed`, no error, and `nc` classical bits all `false`.
pub open spec fn initial_state(n: nat, seed: u64, nc: nat) -> RunState {
    (zero_state_rows(n), seeded_state(seed), None, Seq::new(nc, |i: int| false))
}

/// What running a recognized circuit on the stabilizer backend gives: the
/// first validation error; else the first non-Clifford error; else the
/// stabilizer rows `n..2n` of the final tableau and the classical register.
pub open spec fn run_result(
    ops: Seq<CliffordOp>,
    n: usize,
    nc: usize,
    seed: u64,
) -> Result<(Seq<Row>, Seq<bool>), Error> {
    match ops_error(ops, n, nc) {
        Some(e) => Err(e),
        None => {
            let fin = run_ops(initial_state(n as nat, seed, nc as nat), ops, n as nat);
            match fin.2 {
                Some(e) => Err(e),
                None => Ok((fin.0.subrange(n as int, 2 * n), fin.3)),
            }
        },
    }
}

/// The result of running a Clifford circuit on the stabilizer backend.
#[derive(Debug)]
pub struct StabilizerExecution {
    generators: Vec<PauliString>,
    classical: Vec<bool>,
}

impl View for StabilizerExecution {
    type V = (Seq<Row>, Seq<bool>);

    /// The generators' rows and the classical register.
    closed spec fn view(&self) -> (Seq<Row>, Seq<bool>) {
        (Seq::new(self.generators@.len(), |i: int| self.generators@[i]@), self.classical@)
    }
}

impl StabilizerExecution {
    #[verifier::type_invariant]
    spec fn generators_wf(&self) -> bool {
        forall|i: int| 0 <= i < self.generators@.len() ==> (#[trigger] self.generators@[i]).wf()
    }

    /// The `n` generators of the final state's stabilizer group.
    pub fn generators(&self) -> (g: &[PauliString])
        ensures
            g@.len() == self@.0.len(),
            forall|i: int| 0 <= i < g@.len() ==> (#[trigger] g@[i])@ == self@.0[i] && g@[i].wf(),
    {
        proof {
            use_type_invariant(self);
        }
        self.generators.as_slice()
    }

    /// The final classical register, indexed by classical bit.
    pub fn classical(&self) -> (c: &[bool])
        ensures
            c@ == self@.1,
    {
        self.classical.as_slice()
    }
}

/// There are `n` generators, each on `n` qubits, and each renders as a
/// sign and then one letter per qubit.
pub open spec fn generators_fit(g: Seq<Row>, n: nat) -> bool {
    &&& g.len() == n
    &&& forall|i: int|
        0 <= i < g.len() ==> (#[trigger] g[i]).0.len() == n && g[i].1.len() == n
            && crate::pauli::pauli_text(g[i]).len() == n + 1
}

/// The view of a stabilizer run's result.
pub open spec fn result_view(r: Result<StabilizerExecution, Error>) -> Result<(Seq<Row>, Seq<bool>), Error> {
    match r {
        Ok(e) => Ok(e@),
        Err(e) => Err(e),
    }
}

/// The phase exponent `g(x1, z1, x2, z2)` in `{-1, 0, 1}` for multiplying two
/// single-qubit Paulis.
fn g(x1: bool, z1: bool, x2: bool, z2: bool) -> (v: i32)
    ensures
        v == pauli_g(x1, z1, x2, z2),
        -1 <= v <= 1,
{
    let bz2: i32 = if z2 { 1 } else { 0 };
    let bx2: i32 = if x2 { 1 } else { 0 };
    match (x1, z1) {
        (false, false) => 0,
        (true, true) => bz2 - bx2,  // Y
        (true, false) => bz2 * (2 * bx2 - 1),  // X
        (false, true) => bx2 * (1 - 2 * bz2),  // Z
    }
}

/// A bit string of `n` copies of `false`.
fn false_row(n: usize) -> (v: Vec<bool>)
    ensures
        v@ == zeros(n as nat),
{
    let mut v: Vec<bool> = Vec::new();
    for k in 0..n
        invariant
            v@ == zeros(k as nat),
    {
        v.push(false);
        assert(v@ =~= zeros((k + 1) as nat));
    }
    v
}

/// A bit string of length `n` with only bit `k` set.
fn unit_row(n: usize, k: usize) -> (v: Vec<bool>)
    ensures
        v@ == unit(n as nat, k as int),
{
    let mut v: Vec<bool> = Vec::new();
    for j in 0..n
        invariant
            v@ == unit(j as nat, k as int),
    {
        v.push(j == k);
        assert(v@ =~= unit((j + 1) as nat, k as int));
    }
    v
}

/// A copy of a bit string.
fn clone_bits(v: &Vec<bool>) -> (c: Vec<bool>)
    ensures
        c@ == v@,
{
    let mut c: Vec<bool> = Vec::new();
    for k in 0..v.len()
        invariant
            c@ == v@.take(k as int),
    {
        c.push(v[k]);
        assert(c@ =~= v@.take(k + 1));
    }
    assert(c@ =~= v@);
    c
}

/// When the search finds a row before `2n`, that row is a stabilizer whose
/// Pauli on `q` has its `x` bit set, and no earlier searched row has.
pub(crate) proof fn lemma_first_x_found(t: Seq<Row>, n: nat, q: int, i: nat)
    requires
        n <= i,
        first_x_from(t, n, q, i) < 2 * n,
    ensures
        i <= first_x_from(t, n, q, i),
        t[first_x_from(t, n, q, i) as int].0[q],
    decreases 2 * n - i,
{
    if i < 2 * n && !t[i as int].0[q] {
        lemma_first_x_found(t, n, q, i + 1);
    }
}

/// A controlled gate that validated has all its controls in range and
/// distinct from the target.
proof fn lemma_controls_in_range(cs: Seq<crate::qubit::QubitId>, target: crate::qubit::QubitId, nq: usize)
    requires
        controls_error(cs, target, nq) is None,
    ensures
        forall|i: int| 0 <= i < cs.len() ==> (#[trigger] cs[i]).0 < nq && cs[i] != target,
{
    assert forall|i: int| 0 <= i < cs.len() implies (#[trigger] cs[i]).0 < nq && cs[i] != target by {
        lemma_controls_from(cs, 0, target, nq, i);
    }
}

proof fn lemma_controls_from(cs: Seq<crate::qubit::QubitId>, k: nat, target: crate::qubit::QubitId, nq: usize, i: int)
    requires
        controls_error_from(cs, k, target, nq) is None,
        k <= i < cs.len(),
    ensures
        cs[i].0 < nq && cs[i] != target,
    decreases i - k,
{
    if k < i {
        lemma_controls_from(cs, k + 1, target, nq, i);
    }
}

/// Running an operation leaves the classical register's length unchanged.
pub(crate) proof fn lemma_run_op_len(s: RunState, op: CliffordOp, n: nat)
    requires
        op_error(op, n as usize, s.3.len() as usize) is None,
        s.3.len() <= usize::MAX,
    ensures
        run_op(s, op, n).3.len() == s.3.len(),
    decreases op,
{
    match op {
        OpView::IfClassic { bit, then } => {
            lemma_run_op_len(s, *then, n);
        },
        OpView::Measure { qubit, into } => {
            assert(into.0 < s.3.len());
        },
        _ => {},
    }
}

/// A circuit with no validation error has none in any single operation.
proof fn lemma_ops_error_none_each<G1, G2>(ops: Seq<OpView<G1, G2>>, nq: usize, nc: usize)
    requires
        ops_error(ops, nq, nc) is None,
    ensures
        forall|j: int| 0 <= j < ops.len() ==> op_error(#[trigger] ops[j], nq, nc) is None,
    decreases ops.len(),
{
    if ops.len() > 0 {
        lemma_ops_error_none_each(ops.drop_first(), nq, nc);
        assert forall|j: int| 0 <= j < ops.len() implies op_error(#[trigger] ops[j], nq, nc) is None by {
            if j > 0 {
                assert(ops[j] == ops.drop_first()[j - 1]);
            }
        }
    }
}

impl StabilizerBackend {
    /// The number of qubits.
    pub closed spec fn num_qubits(&self) -> nat {
        self.n as nat
    }

    /// The tableau rows (destabilizers, stabilizers, then the scratch row).
    pub closed spec fn rows(&self) -> Seq<Row> {
        Seq::new(self.x@.len(), |i: int| (self.x@[i]@, self.z@[i]@, self.r@[i]))
    }

    /// The measurement RNG state.
    pub closed spec fn rng_state(&self) -> Seq<u64> {
        self.rng@
    }

    /// The first non-Clifford gate met, if any.
    pub closed spec fn poisoned(&self) -> Option<Error> {
        self.error
    }

    /// The tableau has `2n + 1` rows of `n` qubits each.
    pub closed spec fn wf(&self) -> bool {
        &&& 2 * self.n + 1 <= usize::MAX
        &&& self.x@.len() == 2 * self.n + 1
        &&& self.z@.len() == 2 * self.n + 1
        &&& self.r@.len() == 2 * self.n + 1
        &&& forall|i: int| 0 <= i < self.x@.len() ==> #[trigger] self.x@[i]@.len() == self.n
        &&& forall|i: int| 0 <= i < self.z@.len() ==> #[trigger] self.z@[i]@.len() == self.n
    }

    /// Overwrites entry `(i, q)` of the `x` and `z` bit tables and the phase
    /// bit of row `i`.
    fn set_entry(&mut self, i: usize, q: usize, xv: bool, zv: bool, rv: bool)
        requires
            old(self).wf(),
            i < old(self).rows().len(),
            q < old(self).num_qubits(),
        ensures
            final(self).wf(),
            final(self).num_qubits() == old(self).num_qubits(),
            final(self).rng_state() == old(self).rng_state(),
            final(self).poisoned() == old(self).poisoned(),
            final(self).rows() == old(self).rows().update(
                i as int,
                (
                    old(self).rows()[i as int].0.update(q as int, xv),
                    old(self).rows()[i as int].1.update(q as int, zv),
                    rv,
                ),
            ),
    {
        let ghost before = self.rows();
        self.x[i][q] = xv;
        self.z[i][q] = zv;
        self.r[i] = rv;
        let ghost want = before.update(
            i as int,
            (before[i as int].0.update(q as int, xv), before[i as int].1.update(q as int, zv), rv),
        );
        assert(self.x@[i as int]@ =~= want[i as int].0);
        assert(self.z@[i as int]@ =~= want[i as int].1);
        assert(forall|j: int| 0 <= j < before.len() && j != i ==> #[trigger] self.rows()[j] == want[j]);
        assert(self.rows() =~= want);
    }

    /// Applies primitive `p` to row `i` by the Aaronson-Gottesman rules.
    #[verifier::spinoff_prover]
    fn update_row(&mut self, i: usize, p: Prim)
        requires
            old(self).wf(),
            i < old(self).rows().len(),
            prim_in_range(p, old(self).num_qubits()),
        ensures
            final(self).wf(),
            final(self).num_qubits() == old(self).num_qubits(),
            final(self).rng_state() == old(self).rng_state(),
            final(self).poisoned() == old(self).poisoned(),
            final(self).rows() == old(self).rows().update(i as int, row_prim(old(self).rows()[i as int], p)),
    {
        let ghost row = self.rows()[i as int];
        match p {
            Prim::Cnot(a, b) => {
                // r ^= x_a z_b (x_b ^ z_a ^ 1); x_b ^= x_a; z_a ^= z_b.
                let xa = self.x[i][a];
                let za = self.z[i][a];
                let xb = self.x[i][b];
                let zb = self.z[i][b];
                let rv = self.r[i] != (xa && zb && (xb == za));
                self.set_entry(i, b, xb != xa, zb, rv);
                self.set_entry(i, a, xa, za != zb, rv);
                assert(self.rows()[i as int].0 =~= row_prim(row, p).0);
                assert(self.rows()[i as int].1 =~= row_prim(row, p).1);
            },
            _ => {
                let q = single_target(p);
                let (xv, zv, rv) = single_rule(p, self.x[i][q], self.z[i][q], self.r[i]);
                self.set_entry(i, q, xv, zv, rv);
                assert(self.rows()[i as int].0 =~= row_prim(row, p).0);
                assert(self.rows()[i as int].1 =~= row_prim(row, p).1);
            },
        }
        assert(self.rows() =~= old(self).rows().update(i as int, row_prim(row, p)));
    }

    /// Applies a Clifford primitive to every destabilizer and stabilizer row.
    fn apply_prim(&mut self, p: Prim)
        requires
            old(self).wf(),
            prim_in_range(p, old(self).num_qubits()),
        ensures
            final(self).wf(),
            final(self).num_qubits() == old(self).num_qubits(),
            final(self).rng_state() == old(self).rng_state(),
            final(self).poisoned() == old(self).poisoned(),
            final(self).rows() == apply_prim_rows(old(self).rows(), 2 * old(self).num_qubits(), p),
    {
        let rows = self.x.len() - 1;
        let ghost t0 = self.rows();
        for i in 0..rows
            invariant
                self.wf(),
                self.n == old(self).n,
                rows == 2 * self.n,
                prim_in_range(p, self.n as nat),
                self.rng@ == old(self).rng@,
                self.error == old(self).error,
                t0 == old(self).rows(),
                self.rows().len() == t0.len(),
                forall|j: int| 0 <= j < i ==> #[trigger] self.rows()[j] == row_prim(t0[j], p),
                forall|j: int| i <= j < t0.len() ==> #[trigger] self.rows()[j] == t0[j],
        {
            self.update_row(i, p);
        }
        assert(self.rows() =~= apply_prim_rows(t0, 2 * self.n as nat, p));
    }

    /// The tableau for `|0...0>`: destabilizer `i` is `X_i`, stabilizer `i` is
    /// `Z_i`, the scratch row is the identity; the RNG is seeded with `seed`.
    pub fn identity(n: usize, seed: u64) -> (b: Self)
        requires
            n <= (usize::MAX - 1) / 2,
        ensures
            b.wf(),
            b.num_qubits() == n,
            b.rows() == zero_state_rows(n as nat),
            b.rng_state() == seeded_state(seed),
            b.poisoned() is None,
    {
        let rows = 2 * n + 1;
        let mut x: Vec<Vec<bool>> = Vec::new();
        let mut z: Vec<Vec<bool>> = Vec::new();
        let mut r: Vec<bool> = Vec::new();
        for i in 0..rows
            invariant
                rows == 2 * n + 1,
                x@.len() == i,
                z@.len() == i,
                r@.len() == i,
                forall|j: int| 0 <= j < i ==> (#[trigger] x@[j])@ == zero_state_row(n as nat, j).0,
                forall|j: int| 0 <= j < i ==> (#[trigger] z@[j])@ == zero_state_row(n as nat, j).1,
                forall|j: int| 0 <= j < i ==> #[trigger] r@[j] == zero_state_row(n as nat, j).2,
        {
            let ghost want = zero_state_row(n as nat, i as int);
            let (xr, zr) = if i < n {
                (unit_row(n, i), false_row(n))  // destabilizers: X_i
            } else if i < 2 * n {
                (false_row(n), unit_row(n, i - n))  // stabilizers: Z_i
            } else {
                (false_row(n), false_row(n))
            };
            assert(xr@ == want.0 && zr@ == want.1 && !want.2);
            x.push(xr);
            z.push(zr);
            r.push(false);
        }
        let b = StabilizerBackend { n, x, z, r, rng: Rng::seed_from_u64(seed), error: None };
        assert(b.rows() =~= zero_state_rows(n as nat));
        b
    }

    /// Row `h` becomes the Pauli product `h * j`, with the phase tracked by the
    /// Aaronson-Gottesman rule.
    fn rowsum(&mut self, h: usize, j: usize)
        requires
            old(self).wf(),
            h < old(self).rows().len(),
            j < old(self).rows().len(),
            h != j,
        ensures
            final(self).wf(),
            final(self).num_qubits() == old(self).num_qubits(),
            final(self).rng_state() == old(self).rng_state(),
            final(self).poisoned() == old(self).poisoned(),
            final(self).rows() == old(self).rows().update(
                h as int,
                row_mul(old(self).rows()[h as int], old(self).rows()[j as int], old(self).num_qubits()),
            ),
    {
        let n = self.n;
        let ghost hrow = self.rows()[h as int];
        let ghost jrow = self.rows()[j as int];
        // the sum is kept reduced modulo 4, which is all the phase rule reads.
        let mut sum: i32 = (if self.r[h] { 2 } else { 0 }) + (if self.r[j] { 2 } else { 0 });
        if sum == 4 {
            sum = 0;
        }
        for q in 0..n
            invariant
                self.wf(),
                n == self.n,
                h < self.rows().len(),
                j < self.rows().len(),
                self.rows() == old(self).rows(),
                hrow == self.rows()[h as int],
                jrow == self.rows()[j as int],
                0 <= sum < 4,
                sum == (2 * (if hrow.2 { 1int } else { 0 }) + 2 * (if jrow.2 { 1int } else { 0 })
                    + g_sum(jrow, hrow, q as nat)) % 4,
        {
            let v = g(self.x[j][q], self.z[j][q], self.x[h][q], self.z[h][q]);
            sum = sum + v;
            if sum < 0 {
                sum = sum + 4;
            } else if sum >= 4 {
                sum = sum - 4;
            }
        }
        // sum mod 4 is 0 (-> +1) or 2 (-> -1); never odd for valid tableaux.
        let phase = sum == 2;
        let ghost t0 = self.rows();
        for q in 0..n
            invariant
                self.wf(),
                n == self.n,
                h < self.rows().len(),
                j < self.rows().len(),
                h != j,
                self.rng@ == old(self).rng@,
                self.error == old(self).error,
                t0 == old(self).rows(),
                self.rows().len() == t0.len(),
                forall|k: int| 0 <= k < t0.len() && k != h ==> #[trigger] self.rows()[k] == t0[k],
                forall|c: int| 0 <= c < q ==> #[trigger] self.rows()[h as int].0[c] == (hrow.0[c] != jrow.0[c]),
                forall|c: int| 0 <= c < q ==> #[trigger] self.rows()[h as int].1[c] == (hrow.1[c] != jrow.1[c]),
                forall|c: int| q <= c < n ==> #[trigger] self.rows()[h as int].0[c] == hrow.0[c],
                forall|c: int| q <= c < n ==> #[trigger] self.rows()[h as int].1[c] == hrow.1[c],
                self.rows()[h as int].2 == hrow.2,
                hrow.0.len() == n && hrow.1.len() == n,
                jrow.0.len() == n && jrow.1.len() == n,
                hrow == t0[h as int],
                jrow == t0[j as int],
        {
            assert(self.rows()[j as int] == jrow);
            let xv = self.x[h][q] != self.x[j][q];
            let zv = self.z[h][q] != self.z[j][q];
            let rv = self.r[h];
            assert(self.rows()[h as int].0[q as int] == hrow.0[q as int]);
            assert(self.rows()[h as int].1[q as int] == hrow.1[q as int]);
            assert(xv == (hrow.0[q as int] != jrow.0[q as int]));
            assert(zv == (hrow.1[q as int] != jrow.1[q as int]));
            self.set_entry(h, q, xv, zv, rv);
        }
        let rv = self.r[h];
        self.set_entry_phase(h, phase);
        let ghost want = row_mul(hrow, jrow, n as nat);
        assert(self.rows()[h as int].0 =~= want.0);
        assert(self.rows()[h as int].1 =~= want.1);
        assert(self.rows() =~= t0.update(h as int, want));
    }

    /// Overwrites the phase bit of row `i`.
    fn set_entry_phase(&mut self, i: usize, rv: bool)
        requires
            old(self).wf(),
            i < old(self).rows().len(),
        ensures
            final(self).wf(),
            final(self).num_qubits() == old(self).num_qubits(),
            final(self).rng_state() == old(self).rng_state(),
            final(self).poisoned() == old(self).poisoned(),
            final(self).rows() == old(self).rows().update(
                i as int,
                (old(self).rows()[i as int].0, old(self).rows()[i as int].1, rv),
            ),
    {
        let ghost before = self.rows();
        self.r[i] = rv;
        assert(self.rows() =~= before.update(i as int, (before[i as int].0, before[i as int].1, rv)));
    }

    /// Row `dst` becomes a copy of row `src`.
    fn copy_row(&mut self, dst: usize, src: usize)
        requires
            old(self).wf(),
            dst < old(self).rows().len(),
            src < old(self).rows().len(),
        ensures
            final(self).wf(),
            final(self).num_qubits() == old(self).num_qubits(),
            final(self).rng_state() == old(self).rng_state(),
            final(self).poisoned() == old(self).poisoned(),
            final(self).rows() == old(self).rows().update(dst as int, old(self).rows()[src as int]),
    {
        let ghost before = self.rows();
        let xs = clone_bits(&self.x[src]);
        let zs = clone_bits(&self.z[src]);
        self.x[dst] = xs;
        self.z[dst] = zs;
        self.r[dst] = self.r[src];
        assert(self.rows() =~= before.update(dst as int, before[src as int]));
    }

    /// Measures qubit `q` in the computational basis, updating the tableau,
    /// and returns the outcome.
    fn measure_qubit(&mut self, q: usize) -> (outcome: bool)
        requires
            old(self).wf(),
            q < old(self).num_qubits(),
        ensures
            final(self).wf(),
            final(self).num_qubits() == old(self).num_qubits(),
            final(self).poisoned() == old(self).poisoned(),
            (final(self).rows(), final(self).rng_state(), outcome) == measure_spec(
                old(self).rows(),
                old(self).rng_state(),
                old(self).num_qubits(),
                q as int,
            ),
    {
        // is there a stabilizer that anticommutes with Z_q (i.e. has x_q set)?
        let n = self.n;
        let rows = self.x.len() - 1;
        let ghost t = self.rows();
        let mut i: usize = n;
        while i < rows && !self.x[i][q]
            invariant
                self.wf(),
                self.rows() == t,
                n == self.n,
                rows == 2 * n,
                n <= i <= rows,
                q < n,
                first_x_from(t, n as nat, q as int, n as nat) == first_x_from(t, n as nat, q as int, i as nat),
            decreases rows - i,
        {
            i = i + 1;
        }
        if i < rows {
            assert(self.rows()[i as int].0[q as int]);
            self.measure_random(q, i)
        } else {
            self.measure_determined(q)
        }
    }

    // random outcome: some stabilizer anticommutes with Z_q.
    fn measure_random(&mut self, q: usize, p: usize) -> (outcome: bool)
        requires
            old(self).wf(),
            q < old(self).num_qubits(),
            old(self).num_qubits() <= p < 2 * old(self).num_qubits(),
            p == first_x_from(old(self).rows(), old(self).num_qubits(), q as int, old(self).num_qubits()),
        ensures
            final(self).wf(),
            final(self).num_qubits() == old(self).num_qubits(),
            final(self).poisoned() == old(self).poisoned(),
            (final(self).rows(), final(self).rng_state(), outcome) == measure_spec(
                old(self).rows(),
                old(self).rng_state(),
                old(self).num_qubits(),
                q as int,
            ),
    {
        let n = self.n;
        let rows = self.x.len() - 1;
        let ghost t = self.rows();
        proof {
            lemma_first_x_found(t, n as nat, q as int, n as nat);
        }
        // for every other row anticommuting with Z_q, rowsum with row p.
        for i in 0..rows
            invariant
                self.wf(),
                n == self.n,
                rows == 2 * n,
                q < n,
                n <= p < rows,
                t[p as int].0[q as int],
                self.rng@ == old(self).rng@,
                self.error == old(self).error,
                t == old(self).rows(),
                self.rows().len() == t.len(),
                self.rows()[p as int] == t[p as int],
                forall|j: int| 0 <= j < i && j != p ==> #[trigger] self.rows()[j] == (if t[j].0[q as int] {
                    row_mul(t[j], t[p as int], n as nat)
                } else {
                    t[j]
                }),
                forall|j: int| i <= j < t.len() ==> #[trigger] self.rows()[j] == t[j],
        {
            if i != p && self.x[i][q] {
                self.rowsum(i, p);
            }
        }
        // destabilizer p-n becomes old stabilizer p; stabilizer p becomes Z_q
        // with a random sign = the measurement outcome.
        self.copy_row(p - n, p);
        let ghost mid = self.rows();
        for j in 0..n
            invariant
                self.wf(),
                n == self.n,
                q < n,
                n <= p < 2 * n,
                self.rng@ == old(self).rng@,
                self.error == old(self).error,
                self.rows().len() == mid.len(),
                forall|k: int| 0 <= k < mid.len() && k != p ==> #[trigger] self.rows()[k] == mid[k],
                forall|c: int| 0 <= c < j ==> !(#[trigger] self.rows()[p as int].0[c]),
                forall|c: int| 0 <= c < j ==> !(#[trigger] self.rows()[p as int].1[c]),
        {
            let rv = self.r[p];
            self.set_entry(p, j, false, false, rv);
        }
        let outcome = self.rng.next_u64() & 1 == 1;
        self.set_entry(p, q, false, true, outcome);
        let ghost want = measure_random_rows(t, n as nat, q as int, p as int, outcome);
        assert(self.rows()[p as int].0 =~= want[p as int].0);
        assert(self.rows()[p as int].1 =~= want[p as int].1);
        assert(self.rows() =~= want);
        outcome
    }

    // deterministic outcome: Z_q is already in the stabilizer group.
    fn measure_determined(&mut self, q: usize) -> (outcome: bool)
        requires
            old(self).wf(),
            q < old(self).num_qubits(),
            first_x_from(old(self).rows(), old(self).num_qubits(), q as int, old(self).num_qubits())
                == 2 * old(self).num_qubits(),
        ensures
            final(self).wf(),
            final(self).num_qubits() == old(self).num_qubits(),
            final(self).poisoned() == old(self).poisoned(),
            (final(self).rows(), final(self).rng_state(), outcome) == measure_spec(
                old(self).rows(),
                old(self).rng_state(),
                old(self).num_qubits(),
                q as int,
            ),
    {
        let n = self.n;
        let ghost t = self.rows();
        // use the scratch row 2n to accumulate the product of stabilizers whose
        // destabilizer anticommutes with Z_q; its phase is the outcome.
        let scratch = self.x.len() - 1;
        for j in 0..n
            invariant
                self.wf(),
                n == self.n,
                scratch == 2 * n,
                self.rng@ == old(self).rng@,
                self.error == old(self).error,
                self.rows().len() == t.len(),
                t == old(self).rows(),
                forall|k: int| 0 <= k < t.len() && k != scratch ==> #[trigger] self.rows()[k] == t[k],
                forall|c: int| 0 <= c < j ==> !(#[trigger] self.rows()[scratch as int].0[c]),
                forall|c: int| 0 <= c < j ==> !(#[trigger] self.rows()[scratch as int].1[c]),
        {
            let rv = self.r[scratch];
            self.set_entry(scratch, j, false, false, rv);
        }
        self.set_entry_phase(scratch, false);
        assert(self.rows()[scratch as int].0 =~= identity_row(n as nat).0);
        assert(self.rows()[scratch as int].1 =~= identity_row(n as nat).1);
        for i in 0..n
            invariant
                self.wf(),
                n == self.n,
                q < n,
                scratch == 2 * n,
                self.rng@ == old(self).rng@,
                self.error == old(self).error,
                self.rows().len() == t.len(),
                t == old(self).rows(),
                forall|k: int| 0 <= k < t.len() && k != scratch ==> #[trigger] self.rows()[k] == t[k],
                self.rows()[scratch as int] == determined_product(t, n as nat, q as int, i as nat),
        {
            let ghost acc = self.rows()[scratch as int];
            assert(self.rows()[i as int] == t[i as int]);
            assert(self.rows()[(n + i) as int] == t[(n + i) as int]);
            if self.x[i][q] {
                self.rowsum(scratch, n + i);
            }
            assert(determined_product(t, n as nat, q as int, (i + 1) as nat) == (if t[i as int].0[q as int] {
                row_mul(acc, t[(n + i) as int], n as nat)
            } else {
                acc
            }));
        }
        let outcome = self.r[scratch];
        assert(self.rows() =~= t.update((2 * n) as int, determined_product(t, n as nat, q as int, n as nat)));
        outcome
    }

    /// Applies a sequence of primitives, first to last.
    fn apply_prims(&mut self, ps: &Vec<Prim>)
        requires
            old(self).wf(),
            forall|i: int| 0 <= i < ps@.len() ==> prim_in_range(#[trigger] ps@[i], old(self).num_qubits()),
        ensures
            final(self).wf(),
            final(self).num_qubits() == old(self).num_qubits(),
            final(self).rng_state() == old(self).rng_state(),
            final(self).poisoned() == old(self).poisoned(),
            final(self).rows() == apply_prims_rows(old(self).rows(), 2 * old(self).num_qubits(), ps@),
    {
        let ghost t0 = self.rows();
        for i in 0..ps.len()
            invariant
                self.wf(),
                self.n == old(self).n,
                self.rng@ == old(self).rng@,
                self.error == old(self).error,
                forall|j: int| 0 <= j < ps@.len() ==> prim_in_range(#[trigger] ps@[j], self.n as nat),
                t0 == old(self).rows(),
                self.rows() == apply_prims_rows(t0, 2 * self.n as nat, ps@.take(i as int)),
        {
            self.apply_prim(ps[i]);
            assert(ps@.take(i + 1).drop_last() =~= ps@.take(i as int));
        }
        assert(ps@.take(ps@.len() as int) =~= ps@);
    }

    /// Applies a single-qubit gate, recognized as Clifford (`Some`) or not, to
    /// qubit `target`. A non-Clifford gate poisons the run; once poisoned,
    /// gates are no-ops.
    pub fn apply_1q(&mut self, gate: &Option<Clifford1>, target: usize)
        requires
            old(self).wf(),
            target < old(self).num_qubits(),
        ensures
            final(self).wf(),
            final(self).num_qubits() == old(self).num_qubits(),
            (final(self).rows(), final(self).rng_state(), final(self).poisoned()) == ({
                let s = run_op(
                    (old(self).rows(), old(self).rng_state(), old(self).poisoned(), Seq::empty()),
                    OpView::Apply1 { gate: *gate, target: crate::qubit::QubitId(target) },
                    old(self).num_qubits(),
                );
                (s.0, s.1, s.2)
            }),
    {
        if self.error.is_some() {
            return;
        }
        match gate {
            Some(k) => {
                let prims = clifford1(*k);
                let mut ps: Vec<Prim> = Vec::new();
                for i in 0..prims.len()
                    invariant
                        prims@ == decompose1(*k, 0),
                        ps@ == decompose1(*k, target).take(i as int),
                {
                    // single-qubit prims always reference qubit 0 of the
                    // decomposition; remap to the real target.
                    ps.push(remap1(&prims[i], target));
                    assert(ps@ =~= decompose1(*k, target).take(i + 1));
                }
                assert(ps@ =~= decompose1(*k, target));
                self.apply_prims(&ps);
            },
            None => self.poison("non-Clifford 1-qubit gate"),
        }
    }

    /// Applies a two-qubit gate, recognized as Clifford (`Some`) or not, to
    /// operands `a` and `b`.
    pub fn apply_2q(&mut self, gate: &Option<Clifford2>, a: usize, b: usize)
        requires
            old(self).wf(),
            a < old(self).num_qubits(),
            b < old(self).num_qubits(),
            a != b,
        ensures
            final(self).wf(),
            final(self).num_qubits() == old(self).num_qubits(),
            (final(self).rows(), final(self).rng_state(), final(self).poisoned()) == ({
                let s = run_op(
                    (old(self).rows(), old(self).rng_state(), old(self).poisoned(), Seq::empty()),
                    OpView::Apply2 { gate: *gate, a: crate::qubit::QubitId(a), b: crate::qubit::QubitId(b) },
                    old(self).num_qubits(),
                );
                (s.0, s.1, s.2)
            }),
    {
        if self.error.is_some() {
            return;
        }
        match gate {
            Some(k) => {
                let ps = clifford2(*k, a, b);
                self.apply_prims(&ps);
            },
            None => self.poison("non-Clifford 2-qubit gate"),
        }
    }

    /// Applies a single-qubit gate to `target` controlled on `controls`. Only a
    /// single control with a controlled-X, controlled-Z or controlled-identity
    /// is Clifford; anything else poisons the run.
    pub fn apply_controlled(&mut self, controls: &[usize], gate: &Option<Clifford1>, target: usize)
        requires
            old(self).wf(),
            target < old(self).num_qubits(),
            forall|i: int| 0 <= i < controls@.len() ==> #[trigger] controls@[i] < old(self).num_qubits()
                && controls@[i] != target,
        ensures
            final(self).wf(),
            final(self).num_qubits() == old(self).num_qubits(),
            (final(self).rows(), final(self).rng_state(), final(self).poisoned()) == ({
                let s = run_op(
                    (old(self).rows(), old(self).rng_state(), old(self).poisoned(), Seq::empty()),
                    OpView::Controlled {
                        controls: controls@.map_values(|c: usize| crate::qubit::QubitId(c)),
                        gate: *gate,
                        target: crate::qubit::QubitId(target),
                    },
                    old(self).num_qubits(),
                );
                (s.0, s.1, s.2)
            }),
    {
        if self.error.is_some() {
            return;
        }
        // a single control with a Clifford target is Clifford iff the
        // controlled gate is (controlled-X/Y/Z, or a controlled identity).
        if controls.len() == 1 {
            if let Some(k) = gate {
                if let Some(prims) = controlled_clifford(*k, controls[0], target) {
                    assert(controls@[0] < self.n && controls@[0] != target);
                    self.apply_prims(&prims);
                    return;
                }
            }
        }
        self.poison("non-Clifford controlled gate");
    }

    /// Measures `qubit` in the computational basis and returns the outcome
    /// (`false` once the run is poisoned).
    pub fn measure(&mut self, qubit: usize) -> (outcome: bool)
        requires
            old(self).wf(),
            qubit < old(self).num_qubits(),
        ensures
            final(self).wf(),
            final(self).num_qubits() == old(self).num_qubits(),
            final(self).poisoned() == old(self).poisoned(),
            old(self).poisoned() is Some ==> {
                &&& final(self).rows() == old(self).rows()
                &&& final(self).rng_state() == old(self).rng_state()
                &&& !outcome
            },
            old(self).poisoned() is None ==> (final(self).rows(), final(self).rng_state(), outcome)
                == measure_spec(old(self).rows(), old(self).rng_state(), old(self).num_qubits(), qubit as int),
    {
        if self.error.is_some() {
            return false;
        }
        self.measure_qubit(qubit)
    }

    // record the first non-Clifford gate; later gates are then no-ops.
    fn poison(&mut self, gate: &'static str)
        ensures
            final(self).wf() == old(self).wf(),
            final(self).num_qubits() == old(self).num_qubits(),
            final(self).rows() == old(self).rows(),
            final(self).rng_state() == old(self).rng_state(),
            final(self).poisoned() == (if old(self).poisoned() is None {
                non_clifford(gate)
            } else {
                old(self).poisoned()
            }),
    {
        if self.error.is_none() {
            self.error = Some(Error::NonClifford { gate });
        }
    }

    /// Runs one circuit operation against the tableau and the classical
    /// register.
    fn apply_op(&mut self, op: &Op<Option<Clifford1>, Option<Clifford2>>, classical: &mut Vec<bool>)
        requires
            old(self).wf(),
            op_error(op@, old(self).num_qubits() as usize, old(classical)@.len() as usize) is None,
        ensures
            final(self).wf(),
            final(self).num_qubits() == old(self).num_qubits(),
            (final(self).rows(), final(self).rng_state(), final(self).poisoned(), final(classical)@) == run_op(
                (old(self).rows(), old(self).rng_state(), old(self).poisoned(), old(classical)@),
                op@,
                old(self).num_qubits(),
            ),
        decreases op,
    {
        match op {
            Op::Apply1 { gate, target } => self.apply_1q(gate, target.0),
            Op::Apply2 { gate, a, b } => self.apply_2q(gate, a.0, b.0),
            Op::Controlled { controls, gate, target } => {
                proof {
                    lemma_controls_in_range(controls@, *target, self.n);
                }
                let mut cs: Vec<usize> = Vec::new();
                for k in 0..controls.len()
                    invariant
                        cs@.map_values(|c: usize| crate::qubit::QubitId(c)) == controls@.take(k as int),
                        cs@.len() == k,
                        forall|i: int| 0 <= i < cs@.len() ==> #[trigger] cs@[i] == controls@[i].0,
                {
                    cs.push(controls[k].0);
                    assert(cs@.map_values(|c: usize| crate::qubit::QubitId(c)) =~= controls@.take(k + 1));
                }
                assert(controls@.take(controls@.len() as int) =~= controls@);
                self.apply_controlled(cs.as_slice(), gate, target.0);
            },
            Op::Measure { qubit, into } => {
                let outcome = self.measure(qubit.0);
                classical.set(into.0, outcome);
            },
            Op::IfClassic { bit, then } => {
                if classical[bit.0] {
                    self.apply_op(then, classical);
                }
            },
        }
    }

    /// The `n` stabilizer generators as Pauli strings.
    fn stabilizer_generators(&self) -> (g: Vec<PauliString>)
        requires
            self.wf(),
        ensures
            g@.len() == self.num_qubits(),
            forall|i: int| 0 <= i < g@.len() ==> (#[trigger] g@[i]).wf() && g@[i]@ == self.rows()[self.num_qubits() + i],
    {
        let n = self.n;
        let mut g: Vec<PauliString> = Vec::new();
        for k in 0..n
            invariant
                self.wf(),
                n == self.n,
                g@.len() == k,
                forall|i: int| 0 <= i < g@.len() ==> (#[trigger] g@[i]).wf() && g@[i]@ == self.rows()[n + i],
        {
            let i = n + k;
            let p = PauliString::from_bits(clone_bits(&self.x[i]), clone_bits(&self.z[i]), self.r[i]);
            g.push(p);
        }
        g
    }

    /// Walks a circuit's operations against the tableau, returning the final
    /// classical register of `num_classical` bits.
    fn drive(
        &mut self,
        ops: &[Op<Option<Clifford1>, Option<Clifford2>>],
        num_classical: usize,
        all: Ghost<Seq<CliffordOp>>,
    ) -> (classical: Vec<bool>)
        requires
            old(self).wf(),
            all@.len() == ops@.len(),
            forall|j: int| 0 <= j < ops@.len() ==> (#[trigger] ops@[j])@ == all@[j],
            ops_error(all@, old(self).num_qubits() as usize, num_classical) is None,
        ensures
            final(self).wf(),
            final(self).num_qubits() == old(self).num_qubits(),
            (final(self).rows(), final(self).rng_state(), final(self).poisoned(), classical@) == run_ops(
                (old(self).rows(), old(self).rng_state(), old(self).poisoned(), Seq::new(num_classical as nat, |i: int| false)),
                all@,
                old(self).num_qubits(),
            ),
    {
        let n = self.n;
        let nc = num_classical;
        let ghost all = all@;
        let mut classical: Vec<bool> = Vec::new();
        for k in 0..nc
            invariant
                classical@ == Seq::new(k as nat, |i: int| false),
        {
            classical.push(false);
            assert(classical@ =~= Seq::new((k + 1) as nat, |i: int| false));
        }
        let ghost init = (self.rows(), self.rng_state(), self.poisoned(), classical@);
        proof {
            lemma_ops_error_none_each(all, n, nc);
        }
        let mut i: usize = 0;
        assert(all.skip(0) =~= all);
        while i < ops.len()
            invariant
                0 <= i <= ops@.len(),
                ops@.len() == all.len(),
                forall|j: int| 0 <= j < all.len() ==> (#[trigger] ops@[j])@ == all[j],
                forall|j: int| 0 <= j < all.len() ==> op_error(#[trigger] all[j], n, nc) is None,
                self.wf(),
                self.num_qubits() == n,
                classical@.len() == nc,
                init == (old(self).rows(), old(self).rng_state(), old(self).poisoned(), Seq::new(nc as nat, |i: int| false)),
                run_ops(init, all, n as nat) == run_ops(
                    (self.rows(), self.rng_state(), self.poisoned(), classical@),
                    all.skip(i as int),
                    n as nat,
                ),
            decreases ops@.len() - i,
        {
            assert(all.skip(i as int).drop_first() =~= all.skip(i + 1));
            assert(all.skip(i as int)[0] == all[i as int]);
            assert(op_error(all[i as int], n, nc) is None);
            let ghost pre = (self.rows(), self.rng_state(), self.poisoned(), classical@);
            self.apply_op(&ops[i], &mut classical);
            proof {
                lemma_run_op_len(pre, all[i as int], n as nat);
            }
            i = i + 1;
        }
        assert(all.skip(i as int).len() == 0);
        classical
    }

    /// Runs `circuit` from `|0...0>` with a default RNG seed.
    ///
    /// Returns a validation error for a malformed circuit, or
    /// [`Error::NonClifford`] if the circuit uses a gate outside the Clifford
    /// group.
    pub fn run(circuit: &Circuit<Option<Clifford1>, Option<Clifford2>>) -> (res: Result<StabilizerExecution, Error>)
        requires
            circuit@.num_qubits <= (usize::MAX - 1) / 2,
        ensures
            result_view(res) == run_result(circuit@.ops, circuit@.num_qubits, circuit@.num_classical, 0),
            res matches Ok(e) ==> generators_fit(e@.0, circuit@.num_qubits as nat),
    {
        Self::run_seeded(circuit, 0)
    }

    /// Runs `circuit` from `|0...0>` with the given RNG seed (for measurement).
    pub fn run_seeded(circuit: &Circuit<Option<Clifford1>, Option<Clifford2>>, seed: u64) -> (res: Result<
        StabilizerExecution,
        Error,
    >)
        requires
            circuit@.num_qubits <= (usize::MAX - 1) / 2,
        ensures
            result_view(res) == run_result(circuit@.ops, circuit@.num_qubits, circuit@.num_classical, seed),
            res matches Ok(e) ==> generators_fit(e@.0, circuit@.num_qubits as nat),
    {
        if let Err(e) = circuit.validate() {
            return Err(e);
        }
        let n = circuit.num_qubits();
        let nc = circuit.num_classical();
        let mut backend = Self::identity(n, seed);
        let classical = backend.drive(circuit.ops(), nc, Ghost(circuit@.ops));
        if let Some(e) = backend.error {
            return Err(e);
        }
        let generators = backend.stabilizer_generators();
        let exec = StabilizerExecution { generators, classical };
        assert(exec@.0 =~= backend.rows().subrange(n as int, 2 * n as int));
        assert forall|i: int| 0 <= i < exec@.0.len() implies (#[trigger] exec@.0[i]).0.len() == n
            && exec@.0[i].1.len() == n by {
            assert(exec@.0[i] == backend.rows()[n + i]);
        }
        Ok(exec)
    }
}

} // verus!
