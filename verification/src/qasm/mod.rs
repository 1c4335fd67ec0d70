//! `OpenQASM` 3.0 import and export.
//!
//! The parser reads the stdgates.inc named-gate subset: register
//! declarations, single- and two-qubit gate calls with angle expressions,
//! `ctrl @` modifiers, both measurement forms, and `if (c[i] == 1)` classical
//! control. Gate definitions, `reset` and `barrier` are skipped.

pub mod emit;
pub mod gates;
pub mod lexer;
pub mod parse;
pub mod roundtrip;
pub mod syntax;
