//! The OpenQASM 3.0 emitter: circuit to text.
//!
//! The emitter works on a circuit whose gates have already been named: a
//! single-qubit gate carries its call text (the `stdgates.inc` name followed
//! by its formatted arguments, such as `rx(0.5)`), a two-qubit gate its
//! name, and either carries `None` when it has no OpenQASM 3 name.

use vstd::prelude::*;

use crate::circuit::Circuit;
use crate::error::Error;
use crate::op::{Op, OpView};
use crate::text::{decimal, push_decimal};

verus! {

/// A circuit ready to emit: gates carry their OpenQASM call text, or `None`.
pub type NamedCircuit = Circuit<Option<String>, Option<&'static str>>;

/// An operation of a [`NamedCircuit`], seen through its view.
pub type NamedOpView = OpView<Option<String>, Option<&'static str>>;

/// The message for a gate with no OpenQASM 3 name.
pub open spec fn no_name_message() -> Seq<char> {
    "gate has no OpenQASM 3 name; use a named gate constructor"@
}

/// The message for a classically controlled operation inside another.
pub open spec fn nested_if_message() -> Seq<char> {
    "nested IfClassic is not supported in OpenQASM 3 emit"@
}

/// `q[i]`
pub open spec fn qubit_ref(i: usize) -> Seq<char> {
    "q["@ + decimal(i as nat) + "]"@
}

/// `q[i], ` for each control qubit, in order.
pub open spec fn controls_text(cs: Seq<crate::qubit::QubitId>) -> Seq<char>
    decreases cs.len(),
{
    if cs.len() == 0 {
        seq![]
    } else {
        controls_text(cs.drop_last()) + qubit_ref(cs.last().0) + ", "@
    }
}

/// The statement for one operation (without its line break), or the
/// message of the error it raises; `depth` counts the enclosing classical
/// conditions.
pub open spec fn op_text(op: NamedOpView, depth: nat) -> Result<Seq<char>, Seq<char>>
    decreases op,
{
    match op {
        OpView::Apply1 { gate, target } => match gate {
            None => Err(no_name_message()),
            Some(g) => Ok(g@ + " "@ + qubit_ref(target.0) + ";"@),
        },
        OpView::Apply2 { gate, a, b } => match gate {
            None => Err(no_name_message()),
            Some(g) => Ok(g@ + " "@ + qubit_ref(a.0) + ", "@ + qubit_ref(b.0) + ";"@),
        },
        OpView::Controlled { controls, gate, target } => match gate {
            None => Err(no_name_message()),
            Some(g) => Ok(
                (if controls.len() == 1 {
                    "ctrl @ "@
                } else {
                    "ctrl("@ + decimal(controls.len()) + ") @ "@
                }) + g@ + " "@ + controls_text(controls) + qubit_ref(target.0) + ";"@,
            ),
        },
        OpView::Measure { qubit, into } => Ok(
            "c["@ + decimal(into.0 as nat) + "] = measure "@ + qubit_ref(qubit.0) + ";"@,
        ),
        OpView::IfClassic { bit, then } => if depth > 0 {
            Err(nested_if_message())
        } else {
            match op_text(*then, depth + 1) {
                Err(m) => Err(m),
                Ok(t) => Ok("if (c["@ + decimal(bit.0 as nat) + "] == 1) "@ + t),
            }
        },
    }
}

/// The statements for `ops`, each followed by a line break, or the message
/// of the first error.
pub open spec fn ops_text(ops: Seq<NamedOpView>) -> Result<Seq<char>, Seq<char>>
    decreases ops.len(),
{
    if ops.len() == 0 {
        Ok(seq![])
    } else {
        match ops_text(ops.drop_last()) {
            Err(m) => Err(m),
            Ok(t) => match op_text(ops.last(), 0) {
                Err(m) => Err(m),
                Ok(u) => Ok(t + u + "\n"@),
            },
        }
    }
}

/// The header: version, include, and the register declarations of the
/// registers that are not empty, then a blank line.
pub open spec fn header_text(nq: usize, nc: usize) -> Seq<char> {
    "OPENQASM 3.0;\n"@ + "include \"stdgates.inc\";\n"@ + (if nq > 0 {
        "qubit["@ + decimal(nq as nat) + "] q;\n"@
    } else {
        seq![]
    }) + (if nc > 0 {
        "bit["@ + decimal(nc as nat) + "] c;\n"@
    } else {
        seq![]
    }) + "\n"@
}

/// The whole program for a circuit, or the message of its first error.
pub open spec fn program_text(ops: Seq<NamedOpView>, nq: usize, nc: usize) -> Result<Seq<char>, Seq<char>> {
    match ops_text(ops) {
        Err(m) => Err(m),
        Ok(t) => Ok(header_text(nq, nc) + t),
    }
}

/// `r` is the error with no position and message `m`.
pub open spec fn is_unplaced(r: Error, m: Seq<char>) -> bool {
    r matches Error::Qasm { line, col, message } && line == 0 && col == 0 && message@ == m
}

/// Appends `q[i]`.
fn push_qubit_ref(buf: &mut String, i: usize)
    ensures
        final(buf)@ == old(buf)@ + qubit_ref(i),
{
    buf.append("q[");
    push_decimal(buf, i);
    buf.append("]");
}

/// Writes the statement for `op` into `buf`; `depth` guards against a
/// condition nested inside another.
fn emit_op(buf: &mut String, op: &Op<Option<String>, Option<&'static str>>, depth: usize) -> (r: Result<(), Error>)
    requires
        depth <= 1,
    ensures
        match op_text(op@, depth as nat) {
            Ok(t) => r is Ok && final(buf)@ == old(buf)@ + t,
            Err(m) => r matches Err(e) && is_unplaced(e, m),
        },
    decreases op,
{
    match op {
        Op::Apply1 { gate, target } => {
            let name = match gate {
                Some(g) => g,
                None => return Err(no_name()),
            };
            buf.append(name.as_str());
            buf.append(" ");
            push_qubit_ref(buf, target.index());
            buf.append(";");
        },
        Op::Apply2 { gate, a, b } => {
            let name = match gate {
                Some(g) => *g,
                None => return Err(no_name()),
            };
            buf.append(name);
            buf.append(" ");
            push_qubit_ref(buf, a.index());
            buf.append(", ");
            push_qubit_ref(buf, b.index());
            buf.append(";");
        },
        Op::Controlled { controls, gate, target } => {
            let name = match gate {
                Some(g) => g,
                None => return Err(no_name()),
            };
            if controls.len() == 1 {
                buf.append("ctrl @ ");
            } else {
                buf.append("ctrl(");
                push_decimal(buf, controls.len());
                buf.append(") @ ");
            }
            buf.append(name.as_str());
            buf.append(" ");
            let ghost b0 = buf@;
            let mut k: usize = 0;
            while k < controls.len()
                invariant
                    0 <= k <= controls@.len(),
                    buf@ == b0 + controls_text(controls@.take(k as int)),
                decreases controls@.len() - k,
            {
                push_qubit_ref(buf, controls[k].index());
                buf.append(", ");
                assert(controls@.take(k + 1).drop_last() =~= controls@.take(k as int));
                k = k + 1;
            }
            assert(controls@.take(controls@.len() as int) =~= controls@);
            push_qubit_ref(buf, target.index());
            buf.append(";");
        },
        Op::Measure { qubit, into } => {
            buf.append("c[");
            push_decimal(buf, into.index());
            buf.append("] = measure ");
            push_qubit_ref(buf, qubit.index());
            buf.append(";");
        },
        Op::IfClassic { bit, then } => {
            if depth > 0 {
                return Err(
                    Error::Qasm {
                        line: 0,
                        col: 0,
                        message: "nested IfClassic is not supported in OpenQASM 3 emit".to_owned(),
                    },
                );
            }
            let ghost b0 = buf@;
            buf.append("if (c[");
            push_decimal(buf, bit.index());
            buf.append("] == 1) ");
            let ghost b1 = buf@;
            match emit_op(buf, then, depth + 1) {
                Ok(()) => {},
                Err(e) => return Err(e),
            }
            assert(buf@ =~= b0 + ("if (c["@ + decimal(bit.0 as nat) + "] == 1) "@ + (buf@.subrange(b1.len() as int, buf@.len() as int))));
        },
    }
    Ok(())
}

/// The error for a gate with no OpenQASM 3 name.
fn no_name() -> (e: Error)
    ensures
        is_unplaced(e, no_name_message()),
{
    Error::Qasm {
        line: 0,
        col: 0,
        message: "gate has no OpenQASM 3 name; use a named gate constructor".to_owned(),
    }
}

/// Emits OpenQASM 3.0 text for `circuit`.
///
/// Fails if a gate has no OpenQASM 3 name, or if a classically controlled
/// operation wraps another.
pub fn emit(circuit: &NamedCircuit) -> (r: Result<String, Error>)
    ensures
        match program_text(circuit@.ops, circuit@.num_qubits, circuit@.num_classical) {
            Ok(t) => r matches Ok(s) && s@ == t,
            Err(m) => r matches Err(e) && is_unplaced(e, m),
        },
{
    let mut buf = String::new();
    buf.append("OPENQASM 3.0;\n");
    buf.append("include \"stdgates.inc\";\n");
    if circuit.num_qubits() > 0 {
        buf.append("qubit[");
        push_decimal(&mut buf, circuit.num_qubits());
        buf.append("] q;\n");
    }
    if circuit.num_classical() > 0 {
        buf.append("bit[");
        push_decimal(&mut buf, circuit.num_classical());
        buf.append("] c;\n");
    }
    buf.append("\n");
    let ghost head = buf@;
    assert(head =~= header_text(circuit@.num_qubits, circuit@.num_classical));
    let ops = circuit.ops();
    let mut i: usize = 0;
    while i < ops.len()
        invariant
            0 <= i <= ops@.len(),
            ops@.len() == circuit@.ops.len(),
            forall|j: int| 0 <= j < ops@.len() ==> (#[trigger] ops@[j])@ == circuit@.ops[j],
            ops_text(circuit@.ops.take(i as int)) matches Ok(t) && buf@ == head + t,
        decreases ops@.len() - i,
    {
        let ghost before = buf@;
        assert(circuit@.ops.take(i + 1).drop_last() =~= circuit@.ops.take(i as int));
        match emit_op(&mut buf, &ops[i], 0) {
            Ok(()) => {},
            Err(e) => {
                proof {
                    lemma_ops_text_error_stays(circuit@.ops, (i + 1) as nat);
                }
                return Err(e);
            },
        }
        buf.append("\n");
        i = i + 1;
    }
    assert(circuit@.ops.take(ops@.len() as int) =~= circuit@.ops);
    Ok(buf)
}

/// Once a prefix of the operations fails, the whole sequence fails with the
/// same message.
proof fn lemma_ops_text_error_stays(ops: Seq<NamedOpView>, k: nat)
    requires
        k <= ops.len(),
        ops_text(ops.take(k as int)) is Err,
    ensures
        ops_text(ops) == ops_text(ops.take(k as int)),
    decreases ops.len() - k,
{
    if k < ops.len() {
        assert(ops.take((k + 1) as int).drop_last() =~= ops.take(k as int));
        lemma_ops_text_error_stays(ops, k + 1);
    } else {
        assert(ops.take(k as int) =~= ops);
    }
}

} // verus!
