//! The crate-wide error type.

use vstd::prelude::*;

use crate::qubit::{classical_text, push_classical, push_qubit, qubit_text, ClassicalBit, QubitId};
use crate::text::{decimal, push_decimal};

verus! {

/// Errors returned when building or running a circuit.
#[derive(Clone, PartialEq, Eq, Debug)]
#[non_exhaustive]
pub enum Error {
    /// A qubit index referenced a wire outside the register.
    QubitOutOfRange {
        /// The offending qubit index.
        qubit: QubitId,
        /// The number of qubits in the register.
        num_qubits: usize,
    },
    /// A classical-bit index referenced a bit outside the classical register.
    ClassicalBitOutOfRange {
        /// The offending classical-bit index.
        bit: ClassicalBit,
        /// The number of classical bits in the register.
        num_classical: usize,
    },
    /// A gate was given the same qubit for two distinct operands.
    DuplicateQubit {
        /// The repeated qubit index.
        qubit: QubitId,
    },
    /// An amplitude buffer length was not a power of two, or did not match the
    /// declared qubit count.
    DimensionMismatch {
        /// The number of amplitudes provided.
        len: usize,
        /// The number of amplitudes expected (`2^n`).
        expected: usize,
    },
    /// A circuit run on the stabilizer backend used a gate outside the Clifford
    /// group, which that backend cannot simulate.
    NonClifford {
        /// A human-readable name for the offending gate.
        gate: &'static str,
    },
    /// A parse or emit error from the `OpenQASM` 3 interface.
    Qasm {
        /// Source line (1-indexed; 0 if not applicable).
        line: usize,
        /// Source column (1-indexed; 0 if not applicable).
        col: usize,
        /// Human-readable description.
        message: String,
    },
}

/// The human-readable message of an error.
pub open spec fn error_text(e: Error) -> Seq<char> {
    match e {
        Error::QubitOutOfRange { qubit, num_qubits } => "qubit "@ + qubit_text(qubit)
            + " out of range for "@ + decimal(num_qubits as nat) + "-qubit register"@,
        Error::ClassicalBitOutOfRange { bit, num_classical } => "classical bit "@
            + classical_text(bit) + " out of range for "@ + decimal(num_classical as nat)
            + "-bit register"@,
        Error::DuplicateQubit { qubit } => "qubit "@ + qubit_text(qubit)
            + " used more than once in a single gate"@,
        Error::DimensionMismatch { len, expected } => "amplitude buffer has length "@
            + decimal(len as nat) + ", expected "@ + decimal(expected as nat),
        Error::NonClifford { gate } => gate@
            + " is not in the Clifford group; the stabilizer backend cannot simulate it"@,
        Error::Qasm { line, col, message } => "OpenQASM 3 error at "@ + decimal(line as nat)
            + ":"@ + decimal(col as nat) + ": "@ + message@,
    }
}

impl Error {
    /// Renders the error as a human-readable message.
    pub fn to_string(&self) -> (s: String)
        ensures
            s@ == error_text(*self),
    {
        let mut s = String::new();
        match self {
            Error::QubitOutOfRange { qubit, num_qubits } => {
                s.append("qubit ");
                push_qubit(&mut s, *qubit);
                s.append(" out of range for ");
                push_decimal(&mut s, *num_qubits);
                s.append("-qubit register");
            },
            Error::ClassicalBitOutOfRange { bit, num_classical } => {
                s.append("classical bit ");
                push_classical(&mut s, *bit);
                s.append(" out of range for ");
                push_decimal(&mut s, *num_classical);
                s.append("-bit register");
            },
            Error::DuplicateQubit { qubit } => {
                s.append("qubit ");
                push_qubit(&mut s, *qubit);
                s.append(" used more than once in a single gate");
            },
            Error::DimensionMismatch { len, expected } => {
                s.append("amplitude buffer has length ");
                push_decimal(&mut s, *len);
                s.append(", expected ");
                push_decimal(&mut s, *expected);
            },
            Error::NonClifford { gate } => {
                s.append(gate);
                s.append(" is not in the Clifford group; the stabilizer backend cannot simulate it");
            },
            Error::Qasm { line, col, message } => {
                s.append("OpenQASM 3 error at ");
                push_decimal(&mut s, *line);
                s.append(":");
                push_decimal(&mut s, *col);
                s.append(": ");
                s.append(message.as_str());
            },
        }
        s
    }
}

} // verus!
