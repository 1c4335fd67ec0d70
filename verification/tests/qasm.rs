use everett::circuit::Circuit;
use everett::op::Op;
use everett::qasm::emit::emit;
use everett::qasm::gates::{lookup_gate_1q, lookup_gate_2q, Expr, NamedGate1, NamedGate2};
use everett::qasm::parse::parse;
use everett::{ClassicalBit, Error, QubitId};

type Parsed = Circuit<NamedGate1, NamedGate2>;
type Named = Circuit<Option<String>, Option<&'static str>>;

fn parse_ok(src: &str) -> Parsed {
    parse(src).unwrap_or_else(|e| panic!("expected parse to succeed: {}\n{src}", e.to_string()))
}

fn qasm_err(src: &str) -> (usize, usize, String) {
    match parse(src) {
        Err(Error::Qasm { line, col, message }) => (line, col, message),
        Err(e) => panic!("unexpected error {e:?}"),
        Ok(_) => panic!("expected an error for {src}"),
    }
}

fn named(g: &str) -> Option<String> {
    Some(g.to_string())
}

// ── parser edge cases ─────────────────────────────────────────────────

#[test]
fn parse_both_measure_forms() {
    // arrow form
    let src = "OPENQASM 3.0;\nqubit[1] q;\nbit[1] c;\nmeasure q[0] -> c[0];\n";
    let c = parse(src).unwrap();
    assert_eq!(c.len(), 1);

    // assignment form
    let src2 = "OPENQASM 3.0;\nqubit[1] q;\nbit[1] c;\nc[0] = measure q[0];\n";
    let c2 = parse(src2).unwrap();
    assert_eq!(c2.len(), 1);
}

#[test]
fn parse_pi_expressions() {
    let src = "OPENQASM 3.0;\nqubit[1] q;\nrx(pi/2) q[0];\n";
    let c = parse(src).unwrap();
    assert_eq!(c.len(), 1);
}

#[test]
fn parse_gate_definition_skipped() {
    let src = "OPENQASM 3.0;\ninclude \"stdgates.inc\";\nqubit[1] q;\ngate mygate q { h q; }\nh q[0];\n";
    let c = parse(src).unwrap();
    assert_eq!(c.len(), 1);
}

#[test]
fn parse_ctrl_multi_control() {
    let src = "OPENQASM 3.0;\nqubit[3] q;\nctrl(2) @ x q[0], q[1], q[2];\n";
    let c = parse(src).unwrap();
    assert_eq!(c.len(), 1);
    match &c.ops()[0] {
        Op::Controlled { controls, .. } => assert_eq!(controls.len(), 2),
        _ => panic!("expected Controlled op"),
    }
}

#[test]
fn parse_version_optional() {
    let src = "qubit[1] q;\nh q[0];\n";
    let c = parse(src).unwrap();
    assert_eq!(c.len(), 1);
}

// ── corpus snippets ───────────────────────────────────────────────────

#[test]
fn bell() {
    let c = parse_ok(
        r#"OPENQASM 3.0;
include "stdgates.inc";
qubit[2] q;
bit[2] c;

h q[0];
cx q[0], q[1];
c[0] = measure q[0];
c[1] = measure q[1];
"#,
    );
    assert_eq!(c.num_qubits(), 2);
    assert_eq!(c.num_classical(), 2);
    assert_eq!(c.len(), 4);
}

#[test]
fn rotations_with_pi_expressions() {
    let c = parse_ok(
        r#"OPENQASM 3.0;
include "stdgates.inc";
qubit[1] q;
rx(pi/2) q[0];
ry(-pi/4) q[0];
rz(2*pi) q[0];
p(pi) q[0];
"#,
    );
    assert_eq!(c.len(), 4);
}

#[test]
fn arrow_and_assignment_measure_forms() {
    let arrow = parse_ok("OPENQASM 3.0;\nqubit[1] q;\nbit[1] c;\nmeasure q[0] -> c[0];\n");
    let assign = parse_ok("OPENQASM 3.0;\nqubit[1] q;\nbit[1] c;\nc[0] = measure q[0];\n");
    assert_eq!(arrow.len(), 1);
    assert_eq!(assign.len(), 1);
}

#[test]
fn ctrl_modifier_and_multi_control() {
    let c = parse_ok(
        r#"OPENQASM 3.0;
include "stdgates.inc";
qubit[3] q;
ctrl @ x q[0], q[1];
ctrl(2) @ x q[0], q[1], q[2];
"#,
    );
    assert_eq!(c.len(), 2);
}

#[test]
fn gate_definitions_are_skipped() {
    // a circuit that defines a custom gate before using stdgates primitives.
    let c = parse_ok(
        r#"OPENQASM 3.0;
include "stdgates.inc";
gate mygate q { h q; }
qubit[1] q;
h q[0];
"#,
    );
    assert_eq!(c.len(), 1);
}

#[test]
fn classical_control_if() {
    let c = parse_ok(
        r#"OPENQASM 3.0;
include "stdgates.inc";
qubit[1] q;
bit[1] c;
c[0] = measure q[0];
if (c[0] == 1) x q[0];
"#,
    );
    assert_eq!(c.len(), 2);
}

#[test]
fn line_and_block_comments() {
    let c = parse_ok(
        r#"OPENQASM 3.0;
// a line comment
include "stdgates.inc";
qubit[1] q; /* trailing block comment */
/* multi
   line
   comment */
h q[0];
"#,
    );
    assert_eq!(c.len(), 1);
}

#[test]
fn version_line_is_optional() {
    let c = parse_ok("qubit[1] q;\nh q[0];\n");
    assert_eq!(c.len(), 1);
}

#[test]
fn alternate_register_names_accepted() {
    // the emitter always uses q/c, but the parser must accept any identifier.
    let c = parse_ok(
        r"OPENQASM 3.0;
qubit[2] qreg;
bit[2] creg;
h qreg[0];
cx qreg[0], qreg[1];
creg[0] = measure qreg[0];
",
    );
    assert_eq!(c.num_qubits(), 2);
    assert_eq!(c.len(), 3);
}

// ── parsed structure ──────────────────────────────────────────────────

#[test]
fn parsed_operations_are_exact() {
    let c = parse_ok(
        "OPENQASM 3.0;\nqubit[3] q;\nbit[2] c;\nh q[2];\nCX q[1], q[0];\nswap q[0], q[2];\nmeasure q[1] -> c[1];\nif (c[1] == 1) z q[0];\nctrl(2) @ y q[2], q[0], q[1];\nreset q[0];\nbarrier q;\n",
    );
    assert_eq!(c.num_qubits(), 3);
    assert_eq!(c.num_classical(), 2);
    let ops = c.ops();
    assert_eq!(ops.len(), 6);
    assert_eq!(ops[0], Op::Apply1 { gate: NamedGate1::H, target: QubitId(2) });
    assert_eq!(ops[1], Op::Apply2 { gate: NamedGate2::Cnot, a: QubitId(1), b: QubitId(0) });
    assert_eq!(ops[2], Op::Apply2 { gate: NamedGate2::Swap, a: QubitId(0), b: QubitId(2) });
    assert_eq!(ops[3], Op::Measure { qubit: QubitId(1), into: ClassicalBit(1) });
    assert_eq!(
        ops[4],
        Op::IfClassic {
            bit: ClassicalBit(1),
            then: Box::new(Op::Apply1 { gate: NamedGate1::Z, target: QubitId(0) }),
        }
    );
    assert_eq!(
        ops[5],
        Op::Controlled {
            controls: vec![QubitId(2), QubitId(0)],
            gate: NamedGate1::Y,
            target: QubitId(1),
        }
    );
}

#[test]
fn angle_expressions_keep_their_structure() {
    let src = "qubit[1] q;\nrx(pi/2) q[0];\nry(-(1 + tau) * 3) q[0];\nphase(2.5e-1) q[0];\n";
    let c = parse_ok(src);
    let ops = c.ops();
    // the quotient records the position of the token after its divisor.
    assert_eq!(
        ops[0],
        Op::Apply1 {
            gate: NamedGate1::Rx(Expr::Div(Box::new(Expr::Pi), Box::new(Expr::Int(2)), 2, 8)),
            target: QubitId(0),
        }
    );
    assert_eq!(
        ops[1],
        Op::Apply1 {
            gate: NamedGate1::Ry(Expr::Mul(
                Box::new(Expr::Neg(Box::new(Expr::Add(Box::new(Expr::Int(1)), Box::new(Expr::Tau))))),
                Box::new(Expr::Int(3)),
            )),
            target: QubitId(0),
        }
    );
    match &ops[2] {
        Op::Apply1 { gate: NamedGate1::Phase(Expr::Num(a, b)), .. } => {
            assert_eq!(&src[*a..*b], "2.5e-1");
        },
        other => panic!("unexpected {other:?}"),
    }
}

#[test]
fn oversized_integer_is_a_float_literal() {
    let src = "qubit[1] q;\nrz(99999999999999999999999) q[0];\n";
    let c = parse_ok(src);
    match &c.ops()[0] {
        Op::Apply1 { gate: NamedGate1::Rz(Expr::Num(a, b)), .. } => {
            assert_eq!(&src[*a..*b], "99999999999999999999999");
        },
        other => panic!("unexpected {other:?}"),
    }
}

#[test]
fn later_register_declaration_replaces_earlier() {
    let c = parse_ok("qubit[1] q;\nqubit[4] r;\nbit[2] c;\n");
    assert_eq!(c.num_qubits(), 4);
    assert_eq!(c.num_classical(), 2);
    assert!(c.is_empty());
}

// ── parse errors ──────────────────────────────────────────────────────

#[test]
fn missing_semicolon_is_reported_at_the_next_token() {
    assert_eq!(qasm_err("qubit[1] q;\nh q[0]"), (2, 7, "expected ';'".to_string()));
}

#[test]
fn unknown_gate_names_are_reported() {
    assert_eq!(
        qasm_err("qubit[1] q;\nfoo q[0];\n"),
        (3, 1, "unknown single-qubit gate 'foo'".to_string())
    );
    assert_eq!(
        qasm_err("qubit[2] q;\nfoo q[0], q[1];"),
        (2, 16, "unknown two-qubit gate 'foo'".to_string())
    );
    // a byte that starts no token reads as the name `?`.
    assert_eq!(
        qasm_err("qubit[1] q;\n$ q[0];"),
        (2, 8, "unknown single-qubit gate '?'".to_string())
    );
}

#[test]
fn unplaced_errors_have_no_position() {
    assert_eq!(
        qasm_err("qubit[1] q;\nmeasure q[0];"),
        (0, 0, "bare 'measure' without destination is not supported".to_string())
    );
    assert_eq!(
        qasm_err("qubit[1] q;\nbit[1] c;\nif (c[0] == 0) x q[0];"),
        (0, 0, "only 'if (c[i] == 1)' is supported".to_string())
    );
}

#[test]
fn structural_errors_are_reported() {
    assert_eq!(
        qasm_err("qubit[2] q;\nctrl(2) @ x q[0], q[1];"),
        (2, 24, "not enough operands for ctrl gate".to_string())
    );
    assert_eq!(qasm_err("qubit[x] q;"), (1, 8, "expected integer".to_string()));
    assert_eq!(qasm_err("gate g q { h q;"), (1, 16, "unexpected EOF in gate body".to_string()));
    assert_eq!(
        qasm_err("qubit[1] q;\nh q[0], q[0], q[0];"),
        (2, 20, "unexpected gate arity".to_string())
    );
    assert_eq!(
        qasm_err("qubit[1] q;\nrx(;) q[0];"),
        (2, 5, "expected numeric expression".to_string())
    );
    assert_eq!(
        qasm_err("qubit[1] q;\nbit[1] c;\nif (c[0] == 1) ;"),
        (3, 17, "expected statement in if body".to_string())
    );
}

#[test]
fn columns_count_characters_not_bytes() {
    // the two-byte character in the comment is one column.
    assert_eq!(qasm_err("/* é */ qubit[1] q q[0];"), (1, 20, "expected ';'".to_string()));
}

// ── gate table ────────────────────────────────────────────────────────

#[test]
fn gate_table_lookups() {
    assert_eq!(lookup_gate_1q("h", vec![]), Ok(NamedGate1::H));
    assert_eq!(lookup_gate_1q("id", vec![]), Ok(NamedGate1::Id));
    assert_eq!(lookup_gate_1q("p", vec![Expr::Pi]), Ok(NamedGate1::Phase(Expr::Pi)));
    assert_eq!(lookup_gate_1q("phase", vec![Expr::Tau]), Ok(NamedGate1::Phase(Expr::Tau)));
    assert_eq!(
        lookup_gate_1q("h", vec![Expr::Pi]),
        Err(Error::Qasm {
            line: 0,
            col: 0,
            message: "unknown single-qubit gate 'h'".to_string(),
        })
    );
    assert_eq!(lookup_gate_2q("cnot"), Ok(NamedGate2::Cnot));
    assert_eq!(lookup_gate_2q("cz"), Ok(NamedGate2::Cz));
    assert_eq!(
        lookup_gate_2q("iswap"),
        Err(Error::Qasm {
            line: 0,
            col: 0,
            message: "unknown two-qubit gate 'iswap'".to_string(),
        })
    );
    assert_eq!(
        lookup_gate_1q("h\u{e9}", vec![]),
        Err(Error::Qasm {
            line: 0,
            col: 0,
            message: "unknown single-qubit gate 'h\u{e9}'".to_string(),
        })
    );
}

// ── emitter output ────────────────────────────────────────────────────

#[test]
fn emit_header() {
    let c = Named::new(3);
    let src = emit(&c).unwrap();
    assert!(src.starts_with("OPENQASM 3.0;\n"));
    assert!(src.contains("include \"stdgates.inc\";"));
    assert!(src.contains("qubit[3] q;"));
}

#[test]
fn emit_no_classical_omits_bit_line() {
    let c = Named::new(2);
    let src = emit(&c).unwrap();
    assert!(!src.lines().any(|l| l.starts_with("bit[")));
}

#[test]
fn emit_controlled_single_uses_ctrl_at() {
    let mut c = Named::new(2);
    c.controlled(&[0], named("x"), 1);
    let src = emit(&c).unwrap();
    assert!(src.contains("ctrl @ x q[0], q[1];"));
}

#[test]
fn emit_cnot_uses_cx() {
    let mut c = Named::new(2);
    c.gate2(Some("cx"), 0, 1);
    let src = emit(&c).unwrap();
    assert!(src.contains("cx q[0], q[1];"));
}

#[test]
fn emit_whole_program() {
    let mut c = Named::with_classical(3, 2);
    c.gate1(named("rx(0.5)"), 0)
        .gate2(Some("swap"), 2, 1)
        .controlled(&[0, 1], named("z"), 2)
        .measure(2, 1);
    c.push_op(Op::IfClassic {
        bit: ClassicalBit(1),
        then: Box::new(Op::Apply1 { gate: named("x"), target: QubitId(0) }),
    });
    assert_eq!(
        emit(&c).unwrap(),
        "OPENQASM 3.0;\ninclude \"stdgates.inc\";\nqubit[3] q;\nbit[2] c;\n\nrx(0.5) q[0];\nswap q[2], q[1];\nctrl(2) @ z q[0], q[1], q[2];\nc[1] = measure q[2];\nif (c[1] == 1) x q[0];\n"
    );
}

#[test]
fn emit_rejects_unnamed_and_nested() {
    let mut c = Named::new(1);
    c.gate1(None, 0);
    assert_eq!(
        emit(&c),
        Err(Error::Qasm {
            line: 0,
            col: 0,
            message: "gate has no OpenQASM 3 name; use a named gate constructor".to_string(),
        })
    );
    let mut d = Named::with_classical(1, 1);
    d.push_op(Op::IfClassic {
        bit: ClassicalBit(0),
        then: Box::new(Op::IfClassic {
            bit: ClassicalBit(0),
            then: Box::new(Op::Apply1 { gate: named("x"), target: QubitId(0) }),
        }),
    });
    assert_eq!(
        emit(&d),
        Err(Error::Qasm {
            line: 0,
            col: 0,
            message: "nested IfClassic is not supported in OpenQASM 3 emit".to_string(),
        })
    );
}

#[test]
fn roundtrip_measure() {
    let mut c = Named::with_classical(1, 1);
    c.measure(0, 0);
    let src = emit(&c).unwrap();
    let c2 = parse(&src).unwrap();
    assert_eq!(c2.num_classical(), 1);
    assert_eq!(c2.len(), 1);
}

#[test]
fn roundtrip_if_classic_apply1() {
    let mut c = Named::with_classical(1, 1);
    c.push_op(Op::IfClassic {
        bit: ClassicalBit(0),
        then: Box::new(Op::Apply1 {
            gate: named("x"),
            target: QubitId(0),
        }),
    });
    let src = emit(&c).unwrap();
    let c2 = parse(&src).unwrap();
    assert_eq!(c2.len(), 1);
}

#[test]
fn roundtrip_named_gates_keep_structure() {
    let mut c = Named::with_classical(3, 1);
    c.gate1(named("h"), 1)
        .gate2(Some("cz"), 0, 2)
        .controlled(&[2], named("s"), 0)
        .measure(1, 0);
    let c2 = parse(&emit(&c).unwrap()).unwrap();
    assert_eq!(c2.num_qubits(), 3);
    assert_eq!(c2.num_classical(), 1);
    let ops = c2.ops();
    assert_eq!(ops[0], Op::Apply1 { gate: NamedGate1::H, target: QubitId(1) });
    assert_eq!(ops[1], Op::Apply2 { gate: NamedGate2::Cz, a: QubitId(0), b: QubitId(2) });
    assert_eq!(
        ops[2],
        Op::Controlled { controls: vec![QubitId(2)], gate: NamedGate1::S, target: QubitId(0) }
    );
    assert_eq!(ops[3], Op::Measure { qubit: QubitId(1), into: ClassicalBit(0) });
}

#[test]
fn emit_then_parse_keeps_controls_conditions_and_names() {
    let mut c = Named::with_classical(12, 11);
    c.controlled(&[3, 10, 0], named("id"), 11)
        .gate2(Some("cnot"), 11, 7)
        .gate2(Some("swap"), 1, 0)
        .measure(10, 10);
    c.push_op(Op::IfClassic {
        bit: ClassicalBit(10),
        then: Box::new(Op::Controlled {
            controls: vec![],
            gate: named("t"),
            target: QubitId(4),
        }),
    });
    let c2 = parse(&emit(&c).unwrap()).unwrap();
    assert_eq!(c2.num_qubits(), 12);
    assert_eq!(c2.num_classical(), 11);
    let ops = c2.ops();
    assert_eq!(ops.len(), 5);
    assert_eq!(
        ops[0],
        Op::Controlled {
            controls: vec![QubitId(3), QubitId(10), QubitId(0)],
            gate: NamedGate1::Id,
            target: QubitId(11),
        }
    );
    assert_eq!(ops[1], Op::Apply2 { gate: NamedGate2::Cnot, a: QubitId(11), b: QubitId(7) });
    assert_eq!(ops[2], Op::Apply2 { gate: NamedGate2::Swap, a: QubitId(1), b: QubitId(0) });
    assert_eq!(ops[3], Op::Measure { qubit: QubitId(10), into: ClassicalBit(10) });
    assert_eq!(
        ops[4],
        Op::IfClassic {
            bit: ClassicalBit(10),
            then: Box::new(Op::Controlled {
                controls: vec![],
                gate: NamedGate1::T,
                target: QubitId(4),
            }),
        }
    );
}

#[test]
fn emit_then_parse_empty_registers() {
    let c = Named::with_classical(0, 0);
    let c2 = parse(&emit(&c).unwrap()).unwrap();
    assert_eq!(c2.num_qubits(), 0);
    assert_eq!(c2.num_classical(), 0);
    assert!(c2.is_empty());
}

#[test]
fn unterminated_string_is_a_parse_error() {
    let src = "OPENQASM 3.0;\ninclude \"stdgates.inc;\nqubit[1] q;\n";
    assert_eq!(qasm_err(src), (4, 1, "expected ';'".to_string()));
}

#[test]
fn non_ascii_character_is_a_parse_error() {
    let src = "OPENQASM 3.0;\nqubit[1] q;\n\u{e9} q[0];\n";
    assert_eq!(qasm_err(src), (3, 3, "expected '['".to_string()));
}

#[test]
fn non_ascii_inside_comment_and_string_is_fine() {
    let src = "OPENQASM 3.0;\ninclude \"d\u{e9}j\u{e0}.inc\";\n// \u{e9}t\u{e9}\nqubit[1] q;\nh q[0];\n";
    let c = parse_ok(src);
    assert_eq!(c.ops()[0], Op::Apply1 { gate: NamedGate1::H, target: QubitId(0) });
}

#[test]
fn emit_then_parse_reads_rotation_angles_back() {
    let mut c = Named::new(2);
    c.gate1(named("rx(0.50000000000000000)"), 0)
        .controlled(&[0], named("p(-1.57079632679489656)"), 1);
    let src = emit(&c).unwrap();
    let c2 = parse(&src).unwrap();
    let ops = c2.ops();
    match &ops[0] {
        Op::Apply1 { gate: NamedGate1::Rx(Expr::Num(a, b)), target } => {
            assert_eq!(&src[*a..*b], "0.50000000000000000");
            assert_eq!(*target, QubitId(0));
        }
        other => panic!("unexpected {other:?}"),
    }
    match &ops[1] {
        Op::Controlled { controls, gate: NamedGate1::Phase(Expr::Neg(inner)), target } => {
            assert_eq!(controls, &vec![QubitId(0)]);
            assert_eq!(*target, QubitId(1));
            match inner.as_ref() {
                Expr::Num(a, b) => assert_eq!(&src[*a..*b], "1.57079632679489656"),
                other => panic!("unexpected {other:?}"),
            }
        }
        other => panic!("unexpected {other:?}"),
    }
}

#[test]
fn exponent_without_digits_is_a_parse_error() {
    let src = "qubit[1] q;\nrx(2e) q[0];\n";
    assert_eq!(qasm_err(src), (2, 6, "expected numeric expression".to_string()));
    let src = "qubit[1] q;\nrx(2.5E+) q[0];\n";
    assert!(parse(src).is_err());
}

#[test]
fn exponent_with_digits_is_one_literal() {
    let src = "qubit[1] q;\nrx(2.5e-3) q[0];\n";
    let c = parse_ok(src);
    match &c.ops()[0] {
        Op::Apply1 { gate: NamedGate1::Rx(Expr::Num(a, b)), .. } => {
            assert_eq!(&src[*a..*b], "2.5e-3");
        }
        other => panic!("unexpected {other:?}"),
    }
}
