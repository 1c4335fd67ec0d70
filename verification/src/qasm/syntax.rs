//! The OpenQASM 3 grammar that the parser reads, as functions from a lexer
//! position to the parsed value and the position after it.
//!
//! Every function here reads tokens with [`lex_step`]: `peek` is the next
//! token, `after` the position past it. An error carries the line and
//! column of the token that was next when the error arose. A loop that runs
//! a sub-parse continues only past a position further on; every sub-parse
//! that succeeds has read at least one token, so that comparison only makes
//! the loop's termination visible.

use vstd::prelude::*;

use crate::op::OpView;
use crate::qasm::gates::{gate1_of, gate2_of, unknown_gate1_message, unknown_gate2_message, Expr, NamedGate1, NamedGate2};
use crate::qasm::lexer::{lemma_lex_step_progress, lex_step, LexPos, Tok};
use crate::qubit::{ClassicalBit, QubitId};

verus! {

/// A parse error: where it arose and what it says.
pub struct Fault {
    /// The line (1-indexed; 0 when the error has no position).
    pub line: nat,
    /// The column (1-indexed; 0 when the error has no position).
    pub col: nat,
    /// The message.
    pub message: Seq<char>,
}

/// The outcome of a parse step: the value and the position after it, or an
/// error.
pub type Parsed<T> = Result<(T, LexPos), Fault>;

/// A parsed operation.
pub type ParsedOp = OpView<NamedGate1, NamedGate2>;

/// The next token at `st`.
pub open spec fn peek(s: Seq<u8>, st: LexPos) -> Tok {
    lex_step(s, st).0.0
}

/// The position past the next token at `st`.
pub open spec fn after(s: Seq<u8>, st: LexPos) -> LexPos {
    lex_step(s, st).1
}

/// An error at the next token at `st`.
pub open spec fn fault_at(s: Seq<u8>, st: LexPos, message: Seq<char>) -> Fault {
    Fault { line: lex_step(s, st).0.1, col: lex_step(s, st).0.2, message }
}

/// An error with no position.
pub open spec fn unplaced(message: Seq<char>) -> Fault {
    Fault { line: 0, col: 0, message }
}

/// `st1` lies further on than `st` and inside the source.
pub open spec fn advances(s: Seq<u8>, st: LexPos, st1: LexPos) -> bool {
    st.0 < st1.0 <= s.len()
}

/// A token that stands for a name: an identifier, or a byte that starts no
/// token (read as the name `?`).
pub open spec fn is_name(t: Tok) -> bool {
    t is Ident || t is Unknown
}

/// The bytes of the name `t` stands for.
pub open spec fn name_of(s: Seq<u8>, t: Tok) -> Seq<u8> {
    match t {
        Tok::Ident(a, b) => s.subrange(a as int, b as int),
        _ => seq![0x3Fu8],
    }
}

/// `;`
pub open spec fn expect_semi(s: Seq<u8>, st: LexPos) -> Result<LexPos, Fault> {
    if peek(s, st) == Tok::Semi {
        Ok(after(s, st))
    } else {
        Err(fault_at(s, st, "expected ';'"@))
    }
}

/// `[`
pub open spec fn expect_lbrack(s: Seq<u8>, st: LexPos) -> Result<LexPos, Fault> {
    if peek(s, st) == Tok::LBrack {
        Ok(after(s, st))
    } else {
        Err(fault_at(s, st, "expected '['"@))
    }
}

/// `]`
pub open spec fn expect_rbrack(s: Seq<u8>, st: LexPos) -> Result<LexPos, Fault> {
    if peek(s, st) == Tok::RBrack {
        Ok(after(s, st))
    } else {
        Err(fault_at(s, st, "expected ']'"@))
    }
}

/// An integer literal.
pub open spec fn parse_int(s: Seq<u8>, st: LexPos) -> Parsed<usize> {
    match peek(s, st) {
        Tok::Int(n) => Ok((n, after(s, st))),
        _ => Err(fault_at(s, after(s, st), "expected integer"@)),
    }
}

/// `[ int ]`
pub open spec fn index(s: Seq<u8>, st: LexPos) -> Parsed<usize> {
    match expect_lbrack(s, st) {
        Err(f) => Err(f),
        Ok(st1) => match parse_int(s, st1) {
            Err(f) => Err(f),
            Ok((i, st2)) => match expect_rbrack(s, st2) {
                Err(f) => Err(f),
                Ok(st3) => Ok((i, st3)),
            },
        },
    }
}

/// A register name followed by `[ int ]`; `what` names the register in the
/// error for a missing name.
pub open spec fn register_index(s: Seq<u8>, st: LexPos, what: Seq<char>) -> Parsed<usize> {
    if is_name(peek(s, st)) {
        index(s, after(s, st))
    } else {
        Err(fault_at(s, st, what))
    }
}

/// A qubit operand `q[i]`.
pub open spec fn qubit_index(s: Seq<u8>, st: LexPos) -> Parsed<usize> {
    register_index(s, st, "expected qubit register name"@)
}

/// A classical-bit operand `c[i]`.
pub open spec fn cbit_index(s: Seq<u8>, st: LexPos) -> Parsed<usize> {
    register_index(s, st, "expected classical register name"@)
}

/// A register declaration `kw[n] name;` (the keyword is read without
/// looking at it); `what` names the register in the error for a missing
/// name.
pub open spec fn register_decl(s: Seq<u8>, st: LexPos, what: Seq<char>) -> Parsed<usize> {
    match expect_lbrack(s, after(s, st)) {
        Err(f) => Err(f),
        Ok(st1) => match parse_int(s, st1) {
            Err(f) => Err(f),
            Ok((n, st2)) => match expect_rbrack(s, st2) {
                Err(f) => Err(f),
                Ok(st3) => {
                    let st4 = after(s, st3);
                    if !is_name(peek(s, st3)) {
                        Err(fault_at(s, st4, what))
                    } else {
                        match expect_semi(s, st4) {
                            Err(f) => Err(f),
                            Ok(st5) => Ok((n, st5)),
                        }
                    }
                },
            },
        },
    }
}

/// `qubit[n] name;`
pub open spec fn qubit_decl(s: Seq<u8>, st: LexPos) -> Parsed<usize> {
    register_decl(s, st, "expected qubit register name"@)
}

/// `bit[n] name;`
pub open spec fn bit_decl(s: Seq<u8>, st: LexPos) -> Parsed<usize> {
    register_decl(s, st, "expected classical register name"@)
}

/// The tokens of a gate body after its `{`, at brace depth `depth`, through
/// the matching `}`.
pub open spec fn brace_depth(s: Seq<u8>, st: LexPos, depth: nat) -> Result<LexPos, Fault>
    decreases s.len() - st.0,
{
    let t = peek(s, st);
    let st1 = after(s, st);
    proof {
        lemma_lex_step_progress(s, st);
    }
    match t {
        Tok::LBrace => brace_depth(s, st1, depth + 1),
        Tok::RBrace => if depth <= 1 {
            Ok(st1)
        } else {
            brace_depth(s, st1, (depth - 1) as nat)
        },
        Tok::Eof => Err(fault_at(s, st1, "unexpected EOF in gate body"@)),
        _ => brace_depth(s, st1, depth),
    }
}

/// A gate body `{ ... }` with nested braces.
pub open spec fn skip_brace_block(s: Seq<u8>, st: LexPos) -> Result<LexPos, Fault> {
    let st1 = after(s, st);
    if peek(s, st) == Tok::LBrace {
        brace_depth(s, st1, 1)
    } else {
        Err(fault_at(s, st1, "expected '{' for gate body"@))
    }
}

/// The position of the first `{` or the end at or after `st`.
pub open spec fn gate_head_end(s: Seq<u8>, st: LexPos) -> LexPos
    decreases s.len() - st.0,
{
    let t = peek(s, st);
    proof {
        lemma_lex_step_progress(s, st);
    }
    if t == Tok::LBrace || t == Tok::Eof {
        st
    } else {
        gate_head_end(s, after(s, st))
    }
}

/// The position past the first `;` at or after `st` (or the end).
pub open spec fn skip_statement(s: Seq<u8>, st: LexPos) -> LexPos
    decreases s.len() - st.0,
{
    let t = peek(s, st);
    proof {
        lemma_lex_step_progress(s, st);
    }
    if t == Tok::Semi || t == Tok::Eof {
        after(s, st)
    } else {
        skip_statement(s, after(s, st))
    }
}

/// An angle expression: a sum of products of signed primaries.
pub open spec fn expr(s: Seq<u8>, st: LexPos) -> Parsed<Expr>
    decreases s.len() - st.0, 6nat,
{
    additive(s, st)
}

/// `term (('+' | '-') term)*`
pub open spec fn additive(s: Seq<u8>, st: LexPos) -> Parsed<Expr>
    decreases s.len() - st.0, 5nat,
{
    match multiplicative(s, st) {
        Err(f) => Err(f),
        Ok((lhs, st1)) => if advances(s, st, st1) {
            additive_rest(s, st1, lhs)
        } else {
            Ok((lhs, st1))
        },
    }
}

/// The `+ term` and `- term` continuations of a sum whose left side is
/// `lhs`.
pub open spec fn additive_rest(s: Seq<u8>, st: LexPos, lhs: Expr) -> Parsed<Expr>
    decreases s.len() - st.0, 4nat,
{
    let t = peek(s, st);
    let st1 = after(s, st);
    proof {
        lemma_lex_step_progress(s, st);
    }
    if t == Tok::Plus || t == Tok::Minus {
        match multiplicative(s, st1) {
            Err(f) => Err(f),
            Ok((rhs, st2)) => {
                let e = if t == Tok::Plus {
                    Expr::Add(Box::new(lhs), Box::new(rhs))
                } else {
                    Expr::Sub(Box::new(lhs), Box::new(rhs))
                };
                if advances(s, st, st2) {
                    additive_rest(s, st2, e)
                } else {
                    Ok((e, st2))
                }
            },
        }
    } else {
        Ok((lhs, st))
    }
}

/// `unary (('*' | '/') unary)*`
pub open spec fn multiplicative(s: Seq<u8>, st: LexPos) -> Parsed<Expr>
    decreases s.len() - st.0, 3nat,
{
    match unary(s, st) {
        Err(f) => Err(f),
        Ok((lhs, st1)) => if advances(s, st, st1) {
            multiplicative_rest(s, st1, lhs)
        } else {
            Ok((lhs, st1))
        },
    }
}

/// The `* unary` and `/ unary` continuations of a product whose left side
/// is `lhs`. A quotient records where a zero divisor is reported: at the
/// token after the divisor.
pub open spec fn multiplicative_rest(s: Seq<u8>, st: LexPos, lhs: Expr) -> Parsed<Expr>
    decreases s.len() - st.0, 2nat,
{
    let t = peek(s, st);
    let st1 = after(s, st);
    proof {
        lemma_lex_step_progress(s, st);
    }
    if t == Tok::Star || t == Tok::Slash {
        match unary(s, st1) {
            Err(f) => Err(f),
            Ok((rhs, st2)) => {
                let e = if t == Tok::Star {
                    Expr::Mul(Box::new(lhs), Box::new(rhs))
                } else {
                    Expr::Div(
                        Box::new(lhs),
                        Box::new(rhs),
                        lex_step(s, st2).0.1 as usize,
                        lex_step(s, st2).0.2 as usize,
                    )
                };
                if advances(s, st, st2) {
                    multiplicative_rest(s, st2, e)
                } else {
                    Ok((e, st2))
                }
            },
        }
    } else {
        Ok((lhs, st))
    }
}

/// `'-' primary`, `'+' primary` or `primary`.
pub open spec fn unary(s: Seq<u8>, st: LexPos) -> Parsed<Expr>
    decreases s.len() - st.0, 1nat,
{
    let t = peek(s, st);
    proof {
        lemma_lex_step_progress(s, st);
    }
    if t == Tok::Minus {
        match primary(s, after(s, st)) {
            Err(f) => Err(f),
            Ok((e, st1)) => Ok((Expr::Neg(Box::new(e)), st1)),
        }
    } else if t == Tok::Plus {
        primary(s, after(s, st))
    } else {
        primary(s, st)
    }
}

/// A literal, `pi`, `tau`, or a parenthesized expression.
pub open spec fn primary(s: Seq<u8>, st: LexPos) -> Parsed<Expr>
    decreases s.len() - st.0, 0nat,
{
    let t = peek(s, st);
    let st1 = after(s, st);
    proof {
        lemma_lex_step_progress(s, st);
    }
    match t {
        Tok::Float(a, b) => Ok((Expr::Num(a, b), st1)),
        Tok::Int(n) => Ok((Expr::Int(n), st1)),
        Tok::KwPi => Ok((Expr::Pi, st1)),
        Tok::KwTau => Ok((Expr::Tau, st1)),
        Tok::LParen => match expr(s, st1) {
            Err(f) => Err(f),
            Ok((v, st2)) => {
                let st3 = after(s, st2);
                if peek(s, st2) == Tok::RParen {
                    Ok((v, st3))
                } else {
                    Err(fault_at(s, st3, "expected ')'"@))
                }
            },
        },
        _ => Err(fault_at(s, st1, "expected numeric expression"@)),
    }
}

/// The arguments of a gate call after its `(`, collected after `args`,
/// through the closing `)`. Commas may appear anywhere between them.
pub open spec fn arg_rest(s: Seq<u8>, st: LexPos, args: Seq<Expr>) -> Parsed<Seq<Expr>>
    decreases s.len() - st.0,
{
    let t = peek(s, st);
    proof {
        lemma_lex_step_progress(s, st);
    }
    if t == Tok::RParen {
        Ok((args, after(s, st)))
    } else if t == Tok::Comma {
        arg_rest(s, after(s, st), args)
    } else {
        match expr(s, st) {
            Err(f) => Err(f),
            Ok((e, st1)) => if advances(s, st, st1) {
                arg_rest(s, st1, args.push(e))
            } else {
                Ok((args.push(e), st1))
            },
        }
    }
}

/// An optional parenthesized argument list.
pub open spec fn arg_list(s: Seq<u8>, st: LexPos) -> Parsed<Seq<Expr>> {
    if peek(s, st) == Tok::LParen {
        arg_rest(s, after(s, st), seq![])
    } else {
        Ok((seq![], st))
    }
}

/// Operands `name[i]` (commas may appear anywhere between them), collected
/// after `out`, up to the first other token.
pub open spec fn operand_rest(s: Seq<u8>, st: LexPos, out: Seq<usize>) -> Parsed<Seq<usize>>
    decreases s.len() - st.0,
{
    let t = peek(s, st);
    proof {
        lemma_lex_step_progress(s, st);
    }
    if is_name(t) {
        match index(s, after(s, st)) {
            Err(f) => Err(f),
            Ok((i, st1)) => if advances(s, st, st1) {
                operand_rest(s, st1, out.push(i))
            } else {
                Ok((out.push(i), st1))
            },
        }
    } else if t == Tok::Comma {
        operand_rest(s, after(s, st), out)
    } else {
        Ok((out, st))
    }
}

/// A list of operands.
pub open spec fn operand_list(s: Seq<u8>, st: LexPos) -> Parsed<Seq<usize>> {
    operand_rest(s, st, seq![])
}

/// The qubits named by a list of indices.
pub open spec fn qubits(v: Seq<usize>) -> Seq<QubitId> {
    v.map_values(|i: usize| QubitId(i))
}

/// `measure q[j] -> c[i];`
pub open spec fn measure_stmt(s: Seq<u8>, st: LexPos) -> Parsed<ParsedOp> {
    match qubit_index(s, after(s, st)) {
        Err(f) => Err(f),
        Ok((q, st1)) => {
            let t = peek(s, st1);
            if t == Tok::Arrow {
                match cbit_index(s, after(s, st1)) {
                    Err(f) => Err(f),
                    Ok((c, st2)) => match expect_semi(s, st2) {
                        Err(f) => Err(f),
                        Ok(st3) => Ok(
                            (OpView::Measure { qubit: QubitId(q), into: ClassicalBit(c) }, st3),
                        ),
                    },
                }
            } else if t == Tok::Semi {
                Err(unplaced("bare 'measure' without destination is not supported"@))
            } else {
                Err(fault_at(s, st1, "expected '->' or ';' after measure operand"@))
            }
        },
    }
}

/// The right side `measure q[j];` of `c[into] = measure q[j];`.
pub open spec fn measure_assign(s: Seq<u8>, st: LexPos, into: usize) -> Parsed<ParsedOp> {
    match qubit_index(s, after(s, st)) {
        Err(f) => Err(f),
        Ok((q, st1)) => match expect_semi(s, st1) {
            Err(f) => Err(f),
            Ok(st2) => Ok((OpView::Measure { qubit: QubitId(q), into: ClassicalBit(into) }, st2)),
        },
    }
}

/// The rest of a gate call whose name has been read: arguments, operands
/// and `;`. One operand makes a single-qubit gate; two operands and no
/// arguments a two-qubit gate. An unknown name is reported at the token
/// after the `;`.
pub open spec fn gate_call_after_name(s: Seq<u8>, st: LexPos, name: Seq<u8>) -> Parsed<ParsedOp> {
    match arg_list(s, st) {
        Err(f) => Err(f),
        Ok((args, st1)) => match operand_list(s, st1) {
            Err(f) => Err(f),
            Ok((ops, st2)) => match expect_semi(s, st2) {
                Err(f) => Err(f),
                Ok(st3) => if ops.len() == 1 {
                    match gate1_of(name, args) {
                        None => Err(fault_at(s, st3, unknown_gate1_message(name))),
                        Some(g) => Ok((OpView::Apply1 { gate: g, target: QubitId(ops[0]) }, st3)),
                    }
                } else if ops.len() == 2 && args.len() == 0 {
                    match gate2_of(name) {
                        None => Err(fault_at(s, st3, unknown_gate2_message(name))),
                        Some(g) => Ok(
                            (OpView::Apply2 { gate: g, a: QubitId(ops[0]), b: QubitId(ops[1]) }, st3),
                        ),
                    }
                } else {
                    Err(fault_at(s, st3, "unexpected gate arity"@))
                },
            },
        },
    }
}

/// The control count of `ctrl`: `(n)` or, when absent, one.
pub open spec fn ctrl_count(s: Seq<u8>, st: LexPos) -> Parsed<usize> {
    if peek(s, st) == Tok::LParen {
        match parse_int(s, after(s, st)) {
            Err(f) => Err(f),
            Ok((n, st1)) => {
                let st2 = after(s, st1);
                if peek(s, st1) == Tok::RParen {
                    Ok((n, st2))
                } else {
                    Err(fault_at(s, st2, "expected ')'"@))
                }
            },
        }
    } else {
        Ok((1, st))
    }
}

/// `ctrl @ name(args) c1, ..., cn, target;` and `ctrl(n) @ ...`: the first
/// `n` operands are the controls and the next one is the target.
pub open spec fn gate_call(s: Seq<u8>, st: LexPos) -> Parsed<ParsedOp> {
    match ctrl_count(s, after(s, st)) {
        Err(f) => Err(f),
        Ok((n, st1)) => {
            let st2 = after(s, st1);
            if peek(s, st1) != Tok::At {
                Err(fault_at(s, st2, "expected '@' after ctrl"@))
            } else {
                let t = peek(s, st2);
                let st3 = after(s, st2);
                if !is_name(t) {
                    Err(fault_at(s, st3, "expected gate name after 'ctrl @'"@))
                } else {
                    match arg_list(s, st3) {
                        Err(f) => Err(f),
                        Ok((args, st4)) => match operand_list(s, st4) {
                            Err(f) => Err(f),
                            Ok((ops, st5)) => match expect_semi(s, st5) {
                                Err(f) => Err(f),
                                Ok(st6) => if ops.len() < n + 1 {
                                    Err(fault_at(s, st6, "not enough operands for ctrl gate"@))
                                } else {
                                    match gate1_of(name_of(s, t), args) {
                                        None => Err(
                                            fault_at(s, st6, unknown_gate1_message(name_of(s, t))),
                                        ),
                                        Some(g) => Ok(
                                            (
                                                OpView::Controlled {
                                                    controls: qubits(ops.take(n as int)),
                                                    gate: g,
                                                    target: QubitId(ops[n as int]),
                                                },
                                                st6,
                                            ),
                                        ),
                                    }
                                },
                            },
                        },
                    }
                }
            }
        },
    }
}

/// The condition `if (c[i] == 1)` up to its `)`: the bit index and the
/// position after the `)`.
pub open spec fn if_condition(s: Seq<u8>, st: LexPos) -> Parsed<usize> {
    let st1 = after(s, st);
    let st2 = after(s, st1);
    if peek(s, st1) != Tok::LParen {
        Err(fault_at(s, st2, "expected '(' after 'if'"@))
    } else {
        let st3 = after(s, st2);
        if !is_name(peek(s, st2)) {
            Err(fault_at(s, st3, "expected classical register in if condition"@))
        } else {
            match expect_lbrack(s, st3) {
                Err(f) => Err(f),
                Ok(st4) => match parse_int(s, st4) {
                    Err(f) => Err(f),
                    Ok((bit, st5)) => match expect_rbrack(s, st5) {
                        Err(f) => Err(f),
                        Ok(st6) => {
                            let st7 = after(s, st6);
                            if peek(s, st6) != Tok::EqEq {
                                Err(fault_at(s, st7, "expected '==' in if condition"@))
                            } else {
                                let st8 = after(s, st7);
                                if peek(s, st7) != Tok::Int(1) {
                                    Err(unplaced("only 'if (c[i] == 1)' is supported"@))
                                } else {
                                    let st9 = after(s, st8);
                                    if peek(s, st8) != Tok::RParen {
                                        Err(
                                            fault_at(
                                                s,
                                                st9,
                                                "expected ')' to close if condition"@,
                                            ),
                                        )
                                    } else {
                                        Ok((bit, st9))
                                    }
                                }
                            }
                        },
                    },
                },
            }
        }
    }
}

/// `if (c[i] == 1) statement`: the statement must yield an operation.
pub open spec fn if_stmt(s: Seq<u8>, st: LexPos) -> Parsed<ParsedOp>
    decreases s.len() - st.0, 0nat,
{
    match if_condition(s, st) {
        Err(f) => Err(f),
        Ok((bit, st1)) => if advances(s, st, st1) {
            match statement(s, st1) {
                Err(f) => Err(f),
                Ok((None, st2)) => Err(fault_at(s, st2, "expected statement in if body"@)),
                Ok((Some(op), st2)) => Ok(
                    (OpView::IfClassic { bit: ClassicalBit(bit), then: Box::new(op) }, st2),
                ),
            }
        } else {
            Err(fault_at(s, st1, "expected statement in if body"@))
        },
    }
}

/// A statement that starts with the name `name` (already read; `st` is
/// past it): `c[i] = measure q[j];` or a gate call.
pub open spec fn named_statement(s: Seq<u8>, st: LexPos, name: Seq<u8>) -> Parsed<Option<ParsedOp>> {
    let t = peek(s, st);
    if t == Tok::LBrack {
        match parse_int(s, after(s, st)) {
            Err(f) => Err(f),
            Ok((idx, st1)) => match expect_rbrack(s, st1) {
                Err(f) => Err(f),
                Ok(st2) => if peek(s, st2) == Tok::Eq {
                    let st3 = after(s, st2);
                    if peek(s, st3) == Tok::KwMeasure {
                        match measure_assign(s, st3, idx) {
                            Err(f) => Err(f),
                            Ok((op, st4)) => Ok((Some(op), st4)),
                        }
                    } else {
                        Err(fault_at(s, st3, "expected 'measure' after '='"@))
                    }
                } else {
                    Err(fault_at(s, st2, "unexpected token after register index"@))
                },
            },
        }
    } else if t == Tok::LParen || is_name(t) || t == Tok::Semi || t == Tok::Comma {
        match gate_call_after_name(s, st, name) {
            Err(f) => Err(f),
            Ok((op, st1)) => Ok((Some(op), st1)),
        }
    } else {
        Err(fault_at(s, st, "unexpected token in statement"@))
    }
}

/// `reset`
pub open spec fn reset_word() -> Seq<u8> {
    seq![0x72u8, 0x65, 0x73, 0x65, 0x74]
}

/// `barrier`
pub open spec fn barrier_word() -> Seq<u8> {
    seq![0x62u8, 0x61, 0x72, 0x72, 0x69, 0x65, 0x72]
}

/// One statement: `None` for a construct that yields no operation (an
/// empty statement, `reset`, `barrier`, or a token that starts no
/// statement, which is skipped).
pub open spec fn statement(s: Seq<u8>, st: LexPos) -> Parsed<Option<ParsedOp>>
    decreases s.len() - st.0, 1nat,
{
    let t = peek(s, st);
    let st1 = after(s, st);
    if t == Tok::Semi {
        Ok((None, st1))
    } else if t == Tok::KwMeasure {
        match measure_stmt(s, st) {
            Err(f) => Err(f),
            Ok((op, st2)) => Ok((Some(op), st2)),
        }
    } else if t == Tok::KwIf {
        match if_stmt(s, st) {
            Err(f) => Err(f),
            Ok((op, st2)) => Ok((Some(op), st2)),
        }
    } else if t == Tok::KwCtrl {
        match gate_call(s, st) {
            Err(f) => Err(f),
            Ok((op, st2)) => Ok((Some(op), st2)),
        }
    } else if is_name(t) {
        let name = name_of(s, t);
        if name == reset_word() || name == barrier_word() {
            Ok((None, skip_statement(s, st1)))
        } else {
            named_statement(s, st1, name)
        }
    } else {
        Ok((None, st1))
    }
}

/// The optional `OPENQASM version;` and `include "file";` lines.
pub open spec fn header(s: Seq<u8>, st: LexPos) -> Result<LexPos, Fault> {
    let v = if peek(s, st) == Tok::KwOpenQasm {
        let st1 = after(s, st);
        let t = peek(s, st1);
        expect_semi(
            s,
            if t is Int || t is Float {
                after(s, st1)
            } else {
                st1
            },
        )
    } else {
        Ok(st)
    };
    match v {
        Err(f) => Err(f),
        Ok(st2) => if peek(s, st2) == Tok::KwInclude {
            expect_semi(s, after(s, after(s, st2)))
        } else {
            Ok(st2)
        },
    }
}

/// The body of a program from `st`: declarations, gate definitions and
/// statements in any order, until the end. A later declaration of a
/// register replaces the size of an earlier one.
pub open spec fn program_rest(
    s: Seq<u8>,
    st: LexPos,
    nq: usize,
    nc: usize,
    ops: Seq<ParsedOp>,
) -> Result<(usize, usize, Seq<ParsedOp>), Fault>
    decreases s.len() - st.0,
{
    let t = peek(s, st);
    if t == Tok::Eof {
        Ok((nq, nc, ops))
    } else if t == Tok::KwQubit || t == Tok::KwBit {
        let d = if t == Tok::KwQubit {
            qubit_decl(s, st)
        } else {
            bit_decl(s, st)
        };
        match d {
            Err(f) => Err(f),
            Ok((n, st1)) => if !advances(s, st, st1) {
                Ok((nq, nc, ops))
            } else if t == Tok::KwQubit {
                program_rest(s, st1, n, nc, ops)
            } else {
                program_rest(s, st1, nq, n, ops)
            },
        }
    } else if t == Tok::KwGate {
        match skip_brace_block(s, gate_head_end(s, after(s, st))) {
            Err(f) => Err(f),
            Ok(st1) => if advances(s, st, st1) {
                program_rest(s, st1, nq, nc, ops)
            } else {
                Ok((nq, nc, ops))
            },
        }
    } else {
        match statement(s, st) {
            Err(f) => Err(f),
            Ok((op, st1)) => if !advances(s, st, st1) {
                Ok((nq, nc, ops))
            } else {
                match op {
                    None => program_rest(s, st1, nq, nc, ops),
                    Some(o) => program_rest(s, st1, nq, nc, ops.push(o)),
                }
            },
        }
    }
}

/// A whole program: the qubit count, the classical-bit count and the
/// operations, or the first error.
pub open spec fn program(s: Seq<u8>) -> Result<(usize, usize, Seq<ParsedOp>), Fault> {
    match header(s, (0, 1, 1)) {
        Err(f) => Err(f),
        Ok(st) => program_rest(s, st, 0, 0, seq![]),
    }
}

} // verus!
