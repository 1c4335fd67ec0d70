//! The circuit instruction set.
//!
//! A circuit is a sequence of [`Op`]s. Keeping operations as data -- rather
//! than as direct calls into a backend -- lets a circuit be inspected, reused
//! across backends, and serialized. Measurement and classical control are
//! first-class so that algorithms which branch on mid-circuit measurement
//! outcomes are expressible.
//!
//! The instruction set is generic over the payload carried by single-qubit
//! (`G1`) and two-qubit (`G2`) gate operations, so the same circuit structure
//! holds gate matrices, recognized Clifford gates, or parsed gate calls.

use vstd::prelude::*;

use crate::qubit::{ClassicalBit, QubitId};

verus! {

/// A single circuit operation.
#[derive(PartialEq, Debug)]
pub enum Op<G1, G2> {
    /// Apply a single-qubit gate to `target`.
    Apply1 {
        /// What to apply.
        gate: G1,
        /// The qubit it acts on.
        target: QubitId,
    },
    /// Apply a two-qubit gate to operands `a` and `b` (in its basis
    /// order, `a` more significant).
    Apply2 {
        /// What to apply.
        gate: G2,
        /// The first (more-significant) operand.
        a: QubitId,
        /// The second operand.
        b: QubitId,
    },
    /// Apply a single-qubit gate to `target`, conditioned on every qubit in
    /// `controls` being set.
    Controlled {
        /// The control qubits.
        controls: Vec<QubitId>,
        /// What is applied on the all-controls-set subspace.
        gate: G1,
        /// The target qubit.
        target: QubitId,
    },
    /// Measure `qubit` in the computational basis and store the outcome in the
    /// classical bit `into`.
    Measure {
        /// The qubit to measure.
        qubit: QubitId,
        /// The classical bit receiving the outcome.
        into: ClassicalBit,
    },
    /// Run `then` only if classical bit `bit` is set.
    IfClassic {
        /// The classical bit guarding the body.
        bit: ClassicalBit,
        /// The operation to run when the bit is set.
        then: Box<Op<G1, G2>>,
    },
}

/// The mathematical content of an [`Op`]: the same operation with its
/// control list as a sequence.
pub enum OpView<G1, G2> {
    /// See [`Op::Apply1`].
    Apply1 { gate: G1, target: QubitId },
    /// See [`Op::Apply2`].
    Apply2 { gate: G2, a: QubitId, b: QubitId },
    /// See [`Op::Controlled`].
    Controlled { controls: Seq<QubitId>, gate: G1, target: QubitId },
    /// See [`Op::Measure`].
    Measure { qubit: QubitId, into: ClassicalBit },
    /// See [`Op::IfClassic`].
    IfClassic { bit: ClassicalBit, then: Box<OpView<G1, G2>> },
}

impl<G1, G2> Op<G1, G2> {
    /// The operation with its control list viewed as a sequence.
    pub open spec fn spec_view(&self) -> OpView<G1, G2>
        decreases self,
    {
        match self {
            Op::Apply1 { gate, target } => OpView::Apply1 { gate: *gate, target: *target },
            Op::Apply2 { gate, a, b } => OpView::Apply2 { gate: *gate, a: *a, b: *b },
            Op::Controlled { controls, gate, target } => OpView::Controlled {
                controls: controls@,
                gate: *gate,
                target: *target,
            },
            Op::Measure { qubit, into } => OpView::Measure { qubit: *qubit, into: *into },
            Op::IfClassic { bit, then } => OpView::IfClassic {
                bit: *bit,
                then: Box::new((**then).spec_view()),
            },
        }
    }
}

impl<G1, G2> View for Op<G1, G2> {
    type V = OpView<G1, G2>;

    open spec fn view(&self) -> OpView<G1, G2> {
        self.spec_view()
    }
}

/// A copy of a list of qubit indices.
pub fn copy_qubits(v: &Vec<QubitId>) -> (c: Vec<QubitId>)
    ensures
        c@ == v@,
{
    let mut c: Vec<QubitId> = Vec::new();
    for k in 0..v.len()
        invariant
            c@ == v@.take(k as int),
    {
        c.push(v[k]);
        assert(c@ =~= v@.take(k + 1));
    }
    assert(c@ =~= v@);
    c
}

impl<G1: Copy, G2: Copy> Op<G1, G2> {
    /// An equal, independent copy of this operation.
    pub fn duplicate(&self) -> (c: Self)
        ensures
            c@ == self@,
        decreases self,
    {
        match self {
            Op::Apply1 { gate, target } => Op::Apply1 { gate: *gate, target: *target },
            Op::Apply2 { gate, a, b } => Op::Apply2 { gate: *gate, a: *a, b: *b },
            Op::Controlled { controls, gate, target } => {
                let cs = copy_qubits(controls);
                Op::Controlled { controls: cs, gate: *gate, target: *target }
            },
            Op::Measure { qubit, into } => Op::Measure { qubit: *qubit, into: *into },
            Op::IfClassic { bit, then } => {
                let inner = then.duplicate();
                Op::IfClassic { bit: *bit, then: Box::new(inner) }
            },
        }
    }
}

impl<G1: Copy, G2: Copy> Clone for Op<G1, G2> {
    fn clone(&self) -> (c: Self)
        ensures
            c@ == self@,
    {
        self.duplicate()
    }
}

} // verus!
