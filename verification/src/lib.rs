//! everett: the verified core of a quantum circuit simulator.
//!
//! The library holds the parts of the simulator that are exact, discrete
//! logic: qubit and classical-bit indices, the crate-wide error type, the
//! seedable pseudo-random generator, the amplitude index arithmetic of the
//! gate kernel, circuit validation, and the Aaronson-Gottesman stabilizer
//! tableau that simulates Clifford circuits.

pub mod circuit;
pub mod clifford;
pub mod clifford_laws;
pub mod error;
pub mod kernel;
pub mod op;
pub mod pauli;
pub mod qasm;
pub mod qubit;
pub mod rng;
pub mod stabilizer;
pub mod stabilizer_laws;
pub mod text;

pub use error::Error;
pub use qubit::{ClassicalBit, QubitId};
pub use rng::Rng;
