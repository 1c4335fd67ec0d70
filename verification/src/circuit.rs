//! The circuit builder: the primary way to describe a computation.

use vstd::prelude::*;

use crate::error::Error;
use crate::op::{copy_qubits, Op, OpView};
use crate::qubit::{ClassicalBit, QubitId};

verus! {

/// A quantum circuit: an ordered list of [`Op`]s over `n` qubits and some
/// number of classical bits.
///
/// Gate methods take plain `usize` indices, return `&mut Self`, and so chain
/// fluently. They record operations without validating eagerly; call
/// [`Circuit::validate`] to check all indices at once.
pub struct Circuit<G1, G2> {
    ops: Vec<Op<G1, G2>>,
    num_qubits: usize,
    num_classical: usize,
}

/// The mathematical content of a circuit: its operations, qubit count and
/// classical-bit count.
pub struct CircuitView<G1, G2> {
    /// The operations, in order.
    pub ops: Seq<OpView<G1, G2>>,
    /// The number of qubits.
    pub num_qubits: usize,
    /// The number of classical bits.
    pub num_classical: usize,
}

impl<G1, G2> View for Circuit<G1, G2> {
    type V = CircuitView<G1, G2>;

    closed spec fn view(&self) -> CircuitView<G1, G2> {
        CircuitView {
            ops: Seq::new(self.ops@.len(), |i: int| self.ops@[i]@),
            num_qubits: self.num_qubits,
            num_classical: self.num_classical,
        }
    }
}

/// The first of two possible errors.
pub open spec fn first_of(a: Option<Error>, b: Option<Error>) -> Option<Error> {
    if a is Some {
        a
    } else {
        b
    }
}

/// The error for qubit `q` in an `nq`-qubit register, if it is out of range.
pub open spec fn qubit_error(q: QubitId, nq: usize) -> Option<Error> {
    if q.0 < nq {
        None
    } else {
        Some(Error::QubitOutOfRange { qubit: q, num_qubits: nq })
    }
}

/// The error for classical bit `b` in an `nc`-bit register, if it is out of
/// range.
pub open spec fn classical_error(b: ClassicalBit, nc: usize) -> Option<Error> {
    if b.0 < nc {
        None
    } else {
        Some(Error::ClassicalBitOutOfRange { bit: b, num_classical: nc })
    }
}

/// The first error among a controlled gate's controls, checked in order: a
/// control out of range, a control equal to the target, or a control equal
/// to an earlier one.
pub open spec fn controls_error(cs: Seq<QubitId>, target: QubitId, nq: usize) -> Option<Error> {
    controls_error_from(cs, 0, target, nq)
}

/// The first error among the controls `cs[k..]`, each also checked against
/// the controls before it.
pub open spec fn controls_error_from(cs: Seq<QubitId>, k: nat, target: QubitId, nq: usize) -> Option<
    Error,
>
    decreases cs.len() - k,
{
    if k >= cs.len() {
        None
    } else if qubit_error(cs[k as int], nq) is Some {
        qubit_error(cs[k as int], nq)
    } else if cs[k as int] == target || cs.take(k as int).contains(cs[k as int]) {
        Some(Error::DuplicateQubit { qubit: cs[k as int] })
    } else {
        controls_error_from(cs, k + 1, target, nq)
    }
}

/// The first problem with one operation: an index out of range, or one qubit
/// named twice by a multi-qubit gate.
pub open spec fn op_error<G1, G2>(op: OpView<G1, G2>, nq: usize, nc: usize) -> Option<Error>
    decreases op,
{
    match op {
        OpView::Apply1 { target, .. } => qubit_error(target, nq),
        OpView::Apply2 { a, b, .. } => first_of(
            qubit_error(a, nq),
            first_of(
                qubit_error(b, nq),
                if a == b {
                    Some(Error::DuplicateQubit { qubit: a })
                } else {
                    None
                },
            ),
        ),
        OpView::Controlled { controls, target, .. } => first_of(
            qubit_error(target, nq),
            controls_error(controls, target, nq),
        ),
        OpView::Measure { qubit, into } => first_of(qubit_error(qubit, nq), classical_error(into, nc)),
        OpView::IfClassic { bit, then } => first_of(classical_error(bit, nc), op_error(*then, nq, nc)),
    }
}

/// The first problem with any operation of `ops`, in order.
pub open spec fn ops_error<G1, G2>(ops: Seq<OpView<G1, G2>>, nq: usize, nc: usize) -> Option<Error>
    decreases ops.len(),
{
    if ops.len() == 0 {
        None
    } else {
        first_of(op_error(ops[0], nq, nc), ops_error(ops.drop_first(), nq, nc))
    }
}

/// A sequence of operations with no problem has none in its first operation
/// and none in the rest.
pub proof fn lemma_ops_error_first<G1, G2>(ops: Seq<OpView<G1, G2>>, nq: usize, nc: usize)
    requires
        ops.len() > 0,
        ops_error(ops, nq, nc) is None,
    ensures
        op_error(ops[0], nq, nc) is None,
        ops_error(ops.drop_first(), nq, nc) is None,
{
}

/// The result of validating a circuit whose first problem is `e`.
pub open spec fn validation_result(e: Option<Error>) -> Result<(), Error> {
    match e {
        None => Ok(()),
        Some(e) => Err(e),
    }
}

impl<G1, G2> Circuit<G1, G2> {
    /// Creates an empty circuit over `num_qubits` qubits and no classical bits.
    pub fn new(num_qubits: usize) -> (c: Self)
        ensures
            c@.ops.len() == 0,
            c@.num_qubits == num_qubits,
            c@.num_classical == 0,
    {
        Circuit { ops: Vec::new(), num_qubits, num_classical: 0 }
    }

    /// Creates an empty circuit with both a quantum and a classical register.
    pub fn with_classical(num_qubits: usize, num_classical: usize) -> (c: Self)
        ensures
            c@.ops.len() == 0,
            c@.num_qubits == num_qubits,
            c@.num_classical == num_classical,
    {
        Circuit { ops: Vec::new(), num_qubits, num_classical }
    }

    /// The number of qubits.
    pub fn num_qubits(&self) -> (n: usize)
        ensures
            n == self@.num_qubits,
    {
        self.num_qubits
    }

    /// The number of classical bits.
    pub fn num_classical(&self) -> (n: usize)
        ensures
            n == self@.num_classical,
    {
        self.num_classical
    }

    /// The recorded operations.
    pub fn ops(&self) -> (ops: &[Op<G1, G2>])
        ensures
            ops@.len() == self@.ops.len(),
            forall|i: int| 0 <= i < ops@.len() ==> (#[trigger] ops@[i])@ == self@.ops[i],
    {
        self.ops.as_slice()
    }

    /// The number of operations.
    pub fn len(&self) -> (n: usize)
        ensures
            n == self@.ops.len(),
    {
        self.ops.len()
    }

    /// Whether the circuit has no operations.
    pub fn is_empty(&self) -> (b: bool)
        ensures
            b == (self@.ops.len() == 0),
    {
        self.ops.len() == 0
    }

    /// Appends an operation.
    pub fn push_op(&mut self, op: Op<G1, G2>)
        ensures
            final(self)@ == (CircuitView {
                ops: old(self)@.ops.push(op@),
                num_qubits: old(self)@.num_qubits,
                num_classical: old(self)@.num_classical,
            }),
    {
        self.ops.push(op);
        assert(self@.ops =~= old(self)@.ops.push(op@));
    }

    /// Appends an arbitrary single-qubit gate on `target`.
    pub fn gate1(&mut self, gate: G1, target: usize) -> (r: &mut Self)
        ensures
            *final(self) == *final(r),
            r@ == (CircuitView {
                ops: old(self)@.ops.push(OpView::Apply1 { gate, target: QubitId(target) }),
                num_qubits: old(self)@.num_qubits,
                num_classical: old(self)@.num_classical,
            }),
    {
        self.push_op(Op::Apply1 { gate, target: QubitId(target) });
        self
    }

    /// Appends an arbitrary two-qubit gate on operands `a` and `b`.
    pub fn gate2(&mut self, gate: G2, a: usize, b: usize) -> (r: &mut Self)
        ensures
            *final(self) == *final(r),
            r@ == (CircuitView {
                ops: old(self)@.ops.push(OpView::Apply2 { gate, a: QubitId(a), b: QubitId(b) }),
                num_qubits: old(self)@.num_qubits,
                num_classical: old(self)@.num_classical,
            }),
    {
        self.push_op(Op::Apply2 { gate, a: QubitId(a), b: QubitId(b) });
        self
    }

    /// Appends a single-qubit gate on `target`, controlled on all of `controls`.
    pub fn controlled(&mut self, controls: &[usize], gate: G1, target: usize) -> (r: &mut Self)
        ensures
            *final(self) == *final(r),
            r@ == (CircuitView {
                ops: old(self)@.ops.push(
                    OpView::Controlled {
                        controls: controls@.map_values(|c: usize| QubitId(c)),
                        gate,
                        target: QubitId(target),
                    },
                ),
                num_qubits: old(self)@.num_qubits,
                num_classical: old(self)@.num_classical,
            }),
    {
        let mut cs: Vec<QubitId> = Vec::new();
        for k in 0..controls.len()
            invariant
                cs@ == controls@.take(k as int).map_values(|c: usize| QubitId(c)),
        {
            cs.push(QubitId(controls[k]));
            assert(cs@ =~= controls@.take(k + 1).map_values(|c: usize| QubitId(c)));
        }
        assert(controls@.take(controls@.len() as int) =~= controls@);
        self.push_op(Op::Controlled { controls: cs, gate, target: QubitId(target) });
        self
    }

    /// Measures `qubit`, storing the outcome in classical bit `into`.
    pub fn measure(&mut self, qubit: usize, into: usize) -> (r: &mut Self)
        ensures
            *final(self) == *final(r),
            r@ == (CircuitView {
                ops: old(self)@.ops.push(OpView::Measure { qubit: QubitId(qubit), into: ClassicalBit(into) }),
                num_qubits: old(self)@.num_qubits,
                num_classical: old(self)@.num_classical,
            }),
    {
        self.push_op(Op::Measure { qubit: QubitId(qubit), into: ClassicalBit(into) });
        self
    }

    /// Runs `op` only if classical `bit` is set. General classical control.
    pub fn if_classic(&mut self, bit: usize, op: Op<G1, G2>) -> (r: &mut Self)
        ensures
            *final(self) == *final(r),
            r@ == (CircuitView {
                ops: old(self)@.ops.push(OpView::IfClassic { bit: ClassicalBit(bit), then: Box::new(op@) }),
                num_qubits: old(self)@.num_qubits,
                num_classical: old(self)@.num_classical,
            }),
    {
        let new_op = Op::IfClassic { bit: ClassicalBit(bit), then: Box::new(op) };
        assert(new_op@ == OpView::<G1, G2>::IfClassic { bit: ClassicalBit(bit), then: Box::new(op@) });
        self.push_op(new_op);
        self
    }

    /// Checks that every qubit and classical-bit index is in range and that no
    /// multi-qubit gate names the same qubit twice.
    ///
    /// Returns the first error found, in operation order, or `Ok(())` if the
    /// circuit is valid.
    pub fn validate(&self) -> (res: Result<(), Error>)
        ensures
            res == validation_result(ops_error(self@.ops, self@.num_qubits, self@.num_classical)),
    {
        let nq = self.num_qubits;
        let nc = self.num_classical;
        let ghost all = self@.ops;
        let mut i: usize = 0;
        assert(all.skip(0) =~= all);
        while i < self.ops.len()
            invariant
                0 <= i <= self.ops@.len(),
                all == self@.ops,
                nq == self@.num_qubits,
                nc == self@.num_classical,
                ops_error(all, nq, nc) == ops_error(all.skip(i as int), nq, nc),
            decreases self.ops@.len() - i,
        {
            assert(all.skip(i as int).drop_first() =~= all.skip(i + 1));
            assert(all.skip(i as int)[0] == self.ops@[i as int]@);
            let r = self.validate_op(&self.ops[i]);
            if let Err(e) = r {
                return Err(e);
            }
            i = i + 1;
        }
        assert(all.skip(i as int).len() == 0);
        Ok(())
    }

    fn validate_op(&self, op: &Op<G1, G2>) -> (res: Result<(), Error>)
        ensures
            res == validation_result(op_error(op@, self@.num_qubits, self@.num_classical)),
        decreases op,
    {
        match op {
            Op::Apply1 { target, .. } => self.check_qubit(*target),
            Op::Apply2 { a, b, .. } => {
                if let Err(e) = self.check_qubit(*a) {
                    return Err(e);
                }
                if let Err(e) = self.check_qubit(*b) {
                    return Err(e);
                }
                if a.0 == b.0 {
                    return Err(Error::DuplicateQubit { qubit: *a });
                }
                Ok(())
            },
            Op::Controlled { controls, gate, target } => {
                assert(op@ == OpView::<G1, G2>::Controlled { controls: controls@, gate: *gate, target: *target });
                if let Err(e) = self.check_qubit(*target) {
                    return Err(e);
                }
                let ghost cs = controls@;
                let mut k: usize = 0;
                while k < controls.len()
                    invariant
                        0 <= k <= cs.len(),
                        cs == controls@,
                        op@ == (OpView::<G1, G2>::Controlled { controls: cs, gate: *gate, target: *target }),
                        qubit_error(*target, self@.num_qubits) is None,
                        controls_error(cs, *target, self@.num_qubits) == controls_error_from(
                            cs,
                            k as nat,
                            *target,
                            self@.num_qubits,
                        ),
                    decreases cs.len() - k,
                {
                    let c = controls[k];
                    if let Err(e) = self.check_qubit(c) {
                        return Err(e);
                    }
                    if c.0 == target.0 {
                        return Err(Error::DuplicateQubit { qubit: c });
                    }
                    let mut j: usize = 0;
                    while j < k
                        invariant
                            0 <= j <= k < cs.len(),
                            cs == controls@,
                            c == cs[k as int],
                            forall|i: int| 0 <= i < j ==> cs[i] != c,
                            op@ == (OpView::<G1, G2>::Controlled { controls: cs, gate: *gate, target: *target }),
                            qubit_error(*target, self@.num_qubits) is None,
                            qubit_error(c, self@.num_qubits) is None,
                            c != *target,
                            controls_error(cs, *target, self@.num_qubits) == controls_error_from(
                                cs,
                                k as nat,
                                *target,
                                self@.num_qubits,
                            ),
                        decreases k - j,
                    {
                        if controls[j].0 == c.0 {
                            assert(cs.take(k as int)[j as int] == c);
                            return Err(Error::DuplicateQubit { qubit: c });
                        }
                        j = j + 1;
                    }
                    assert(!cs.take(k as int).contains(c)) by {
                        if cs.take(k as int).contains(c) {
                            let i = choose|i: int| 0 <= i < k && cs.take(k as int)[i] == c;
                            assert(cs[i] == c);
                        }
                    }
                    k = k + 1;
                }
                Ok(())
            },
            Op::Measure { qubit, into } => {
                if let Err(e) = self.check_qubit(*qubit) {
                    return Err(e);
                }
                self.check_classical(*into)
            },
            Op::IfClassic { bit, then } => {
                if let Err(e) = self.check_classical(*bit) {
                    return Err(e);
                }
                self.validate_op(then)
            },
        }
    }

    fn check_qubit(&self, q: QubitId) -> (res: Result<(), Error>)
        ensures
            res == validation_result(qubit_error(q, self@.num_qubits)),
    {
        if q.0 < self.num_qubits {
            Ok(())
        } else {
            Err(Error::QubitOutOfRange { qubit: q, num_qubits: self.num_qubits })
        }
    }

    fn check_classical(&self, b: ClassicalBit) -> (res: Result<(), Error>)
        ensures
            res == validation_result(classical_error(b, self@.num_classical)),
    {
        if b.0 < self.num_classical {
            Ok(())
        } else {
            Err(Error::ClassicalBitOutOfRange { bit: b, num_classical: self.num_classical })
        }
    }
}

impl<G1: Copy, G2: Copy> Circuit<G1, G2> {
    /// Appends another circuit's operations into this one, in place. Useful for
    /// inlining a subroutine.
    ///
    /// The sub-circuit's qubit and classical indices are used as-is, so they
    /// must fit within this circuit's registers (checked by [`Self::validate`]).
    pub fn compose(&mut self, sub: &Circuit<G1, G2>) -> (r: &mut Self)
        ensures
            *final(self) == *final(r),
            r@ == (CircuitView {
                ops: old(self)@.ops + sub@.ops,
                num_qubits: old(self)@.num_qubits,
                num_classical: old(self)@.num_classical,
            }),
    {
        let ghost start = self@.ops;
        for k in 0..sub.ops.len()
            invariant
                self@.ops == start + sub@.ops.take(k as int),
                self@.num_qubits == old(self)@.num_qubits,
                self@.num_classical == old(self)@.num_classical,
                start == old(self)@.ops,
        {
            let op = sub.ops[k].duplicate();
            self.push_op(op);
            assert(sub@.ops.take(k + 1) =~= sub@.ops.take(k as int).push(sub@.ops[k as int]));
            assert(self@.ops =~= start + sub@.ops.take(k + 1));
        }
        assert(sub@.ops.take(sub.ops@.len() as int) =~= sub@.ops);
        self
    }
}

impl<G1: Copy, G2: Copy> Clone for Circuit<G1, G2> {
    fn clone(&self) -> (c: Self)
        ensures
            c@ == self@,
    {
        let mut c = Circuit::with_classical(self.num_qubits, self.num_classical);
        c.compose(self);
        c
    }
}

/// The controls `cs[k..]` raise no error exactly when each is in range,
/// differs from the target and repeats no control before it.
proof fn lemma_controls_from_none(cs: Seq<QubitId>, k: nat, target: QubitId, nq: usize)
    requires
        k <= cs.len(),
    ensures
        (controls_error_from(cs, k, target, nq) is None) <==> (forall|i: int|
            k <= i < cs.len() ==> (#[trigger] cs[i]).0 < nq && cs[i] != target && forall|j: int|
                0 <= j < i ==> cs[j] != cs[i]),
    decreases cs.len() - k,
{
    if k < cs.len() {
        lemma_controls_from_none(cs, k + 1, target, nq);
        let c = cs[k as int];
        if cs.take(k as int).contains(c) {
            let j = choose|j: int| 0 <= j < k && cs.take(k as int)[j] == c;
            assert(cs[j] == c);
        }
        if exists|j: int| 0 <= j < k && cs[j] == c {
            let j = choose|j: int| 0 <= j < k && cs[j] == c;
            assert(cs.take(k as int)[j] == c);
        }
    }
}

/// A controlled gate's controls are valid exactly when every control is in
/// range, none is the target, and no control is named twice.
pub proof fn law_controls_valid_iff(cs: Seq<QubitId>, target: QubitId, nq: usize)
    ensures
        (controls_error(cs, target, nq) is None) <==> ((forall|i: int|
            0 <= i < cs.len() ==> (#[trigger] cs[i]).0 < nq && cs[i] != target) && (forall|i: int, j: int|
            0 <= j < i < cs.len() ==> cs[j] != cs[i])),
{
    lemma_controls_from_none(cs, 0, target, nq);
    if controls_error(cs, target, nq) is None {
        assert forall|i: int, j: int| 0 <= j < i < cs.len() implies cs[j] != cs[i] by {
            assert(cs[i].0 < nq);
        }
    }
}

/// A circuit's operations are valid exactly when each operation is.
pub proof fn law_ops_valid_iff_each<G1, G2>(ops: Seq<OpView<G1, G2>>, nq: usize, nc: usize)
    ensures
        (ops_error(ops, nq, nc) is None) <==> (forall|i: int|
            0 <= i < ops.len() ==> op_error(#[trigger] ops[i], nq, nc) is None),
    decreases ops.len(),
{
    if ops.len() > 0 {
        law_ops_valid_iff_each(ops.drop_first(), nq, nc);
        if forall|i: int| 0 <= i < ops.drop_first().len() ==> op_error(#[trigger] ops.drop_first()[i], nq, nc) is None {
            assert forall|i: int| 0 <= i < ops.len() && op_error(ops[0], nq, nc) is None
                implies op_error(#[trigger] ops[i], nq, nc) is None by {
                if i > 0 {
                    assert(ops[i] == ops.drop_first()[i - 1]);
                }
            }
        }
        if forall|i: int| 0 <= i < ops.len() ==> op_error(#[trigger] ops[i], nq, nc) is None {
            assert(op_error(ops[0], nq, nc) is None);
            assert forall|i: int| 0 <= i < ops.drop_first().len() implies op_error(
                #[trigger] ops.drop_first()[i],
                nq,
                nc,
            ) is None by {
                assert(ops.drop_first()[i] == ops[i + 1]);
            }
        }
    }
}

/// The error a circuit's validation reports is that of its first invalid
/// operation: every operation before it is valid.
pub proof fn law_ops_error_is_first<G1, G2>(ops: Seq<OpView<G1, G2>>, nq: usize, nc: usize)
    ensures
        ops_error(ops, nq, nc) matches Some(e) ==> exists|i: int|
            0 <= i < ops.len() && op_error(#[trigger] ops[i], nq, nc) == Some(e) && forall|j: int|
                0 <= j < i ==> op_error(#[trigger] ops[j], nq, nc) is None,
    decreases ops.len(),
{
    if ops.len() > 0 {
        law_ops_error_is_first(ops.drop_first(), nq, nc);
        if let Some(e) = ops_error(ops, nq, nc) {
            if op_error(ops[0], nq, nc) is Some {
                assert(op_error(ops[0], nq, nc) == Some(e));
            } else {
                let rest = ops.drop_first();
                let i = choose|i: int|
                    0 <= i < rest.len() && op_error(#[trigger] rest[i], nq, nc) == Some(e) && forall|j: int|
                        0 <= j < i ==> op_error(#[trigger] rest[j], nq, nc) is None;
                assert(ops[i + 1] == rest[i]);
                assert forall|j: int| 0 <= j < i + 1 implies op_error(#[trigger] ops[j], nq, nc) is None by {
                    if j > 0 {
                        assert(ops[j] == rest[j - 1]);
                    }
                }
            }
        }
    }
}

} // verus!
