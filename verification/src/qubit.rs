//! Type-safe index newtypes for qubits and classical bits.
//!
//! Both are thin wrappers over `usize`. Keeping them distinct stops a classical
//! bit index from being passed where a qubit index is expected.

use vstd::prelude::*;

use crate::text::{decimal, push_decimal};

verus! {

/// The index of a qubit within a register, counting from 0.
///
/// Qubit `0` is the least-significant bit of a basis state: in a 3-qubit system
/// the basis state `|q2 q1 q0>` has integer value `4*q2 + 2*q1 + q0`.
#[derive(Clone, Copy, PartialEq, Eq, Structural, PartialOrd, Ord, Hash, Debug)]
pub struct QubitId(pub usize);

/// The index of a classical bit, used as the destination of a measurement.
#[derive(Clone, Copy, PartialEq, Eq, Structural, PartialOrd, Ord, Hash, Debug)]
pub struct ClassicalBit(pub usize);

impl QubitId {
    /// Returns the underlying index.
    pub fn index(self) -> (i: usize)
        ensures
            i == self.0,
    {
        self.0
    }
}

impl ClassicalBit {
    /// Returns the underlying index.
    pub fn index(self) -> (i: usize)
        ensures
            i == self.0,
    {
        self.0
    }
}

impl From<usize> for QubitId {
    fn from(i: usize) -> (q: Self) {
        QubitId(i)
    }
}

impl vstd::std_specs::convert::FromSpecImpl<usize> for QubitId {
    open spec fn obeys_from_spec() -> bool {
        true
    }

    open spec fn from_spec(v: usize) -> QubitId {
        QubitId(v)
    }
}

impl From<usize> for ClassicalBit {
    fn from(i: usize) -> (b: Self) {
        ClassicalBit(i)
    }
}

impl vstd::std_specs::convert::FromSpecImpl<usize> for ClassicalBit {
    open spec fn obeys_from_spec() -> bool {
        true
    }

    open spec fn from_spec(v: usize) -> ClassicalBit {
        ClassicalBit(v)
    }
}

/// The display form of a qubit index: `q` followed by the index in decimal.
pub open spec fn qubit_text(q: QubitId) -> Seq<char> {
    seq!['q'] + decimal(q.0 as nat)
}

/// The display form of a classical-bit index: `c` followed by the index.
pub open spec fn classical_text(b: ClassicalBit) -> Seq<char> {
    seq!['c'] + decimal(b.0 as nat)
}

impl QubitId {
    /// Renders the index as `q<index>`, e.g. `q4`.
    pub fn to_string(&self) -> (s: String)
        ensures
            s@ == qubit_text(*self),
    {
        let mut s = String::new();
        push_qubit(&mut s, *self);
        s
    }
}

impl ClassicalBit {
    /// Renders the index as `c<index>`, e.g. `c2`.
    pub fn to_string(&self) -> (s: String)
        ensures
            s@ == classical_text(*self),
    {
        let mut s = String::new();
        push_classical(&mut s, *self);
        s
    }
}

/// Appends the display form of `q` to `s`.
pub fn push_qubit(s: &mut String, q: QubitId)
    ensures
        final(s)@ == old(s)@ + qubit_text(q),
{
    proof {
        reveal_strlit("q");
    }
    s.append("q");
    push_decimal(s, q.0);
    assert(final(s)@ =~= old(s)@ + qubit_text(q));
}

/// Appends the display form of `b` to `s`.
pub fn push_classical(s: &mut String, b: ClassicalBit)
    ensures
        final(s)@ == old(s)@ + classical_text(b),
{
    proof {
        reveal_strlit("c");
    }
    s.append("c");
    push_decimal(s, b.0);
    assert(final(s)@ =~= old(s)@ + classical_text(b));
}

} // verus!
