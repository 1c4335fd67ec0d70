//! The recursive-descent OpenQASM 3 parser.
//!
//! Each method reads tokens lazily from a [`Lexer`] through a one-token
//! look-ahead, and does what the function of the same name in
//! [`crate::qasm::syntax`] says, from the parser's current position.

use vstd::prelude::*;
use vstd::string::StringSliceAdditionalSpecFns;

use crate::circuit::{Circuit, CircuitView};
use crate::error::Error;
use crate::op::{Op, OpView};
use crate::qasm::gates::{
    gate1_lookup, gate2_lookup, name_is, unknown_gate1, unknown_gate2, Expr, NamedGate1, NamedGate2,
};
use crate::qasm::lexer::{
    lemma_ident_token,
    lemma_lex_state_bounds,
    lemma_lex_step_progress,
    lex_state,
    lex_step,
    LexPos,
    Lexer,
    Tok,
};
use crate::qasm::syntax;
use crate::qasm::syntax::{Fault, Parsed, ParsedOp};
use crate::qubit::{ClassicalBit, QubitId};

verus! {

/// `e` is the OpenQASM error `f`.
pub open spec fn is_fault(e: Error, f: Fault) -> bool {
    e matches Error::Qasm { line, col, message } && line == f.line && col == f.col && message@
        == f.message
}

/// The result `r`, with the parser now at `now`, is what the parse step `p`
/// gives.
pub open spec fn agrees<T>(r: Result<T, Error>, p: Parsed<T>, now: LexPos) -> bool {
    match p {
        Ok((v, st)) => r == Ok::<T, Error>(v) && now == st,
        Err(f) => r matches Err(e) && is_fault(e, f),
    }
}

/// The same for a step whose value is seen through its view.
pub open spec fn agrees_view<T: View>(r: Result<T, Error>, p: Parsed<T::V>, now: LexPos) -> bool {
    match p {
        Ok((v, st)) => r matches Ok(x) && x@ == v && now == st,
        Err(f) => r matches Err(e) && is_fault(e, f),
    }
}

/// The same for a step that yields only a position.
pub open spec fn agrees_unit(r: Result<(), Error>, p: Result<LexPos, Fault>, now: LexPos) -> bool {
    match p {
        Ok(st) => r is Ok && now == st,
        Err(f) => r matches Err(e) && is_fault(e, f),
    }
}

/// The same for a step that yields an operation.
pub open spec fn agrees_op(
    r: Result<Op<NamedGate1, NamedGate2>, Error>,
    p: Parsed<ParsedOp>,
    now: LexPos,
) -> bool {
    match p {
        Ok((v, st)) => r matches Ok(o) && o@ == v && now == st,
        Err(f) => r matches Err(e) && is_fault(e, f),
    }
}

/// The same for a step that may yield an operation.
pub open spec fn agrees_opt_op(
    r: Result<Option<Op<NamedGate1, NamedGate2>>, Error>,
    p: Parsed<Option<ParsedOp>>,
    now: LexPos,
) -> bool {
    match p {
        Ok((v, st)) => r matches Ok(o) && now == st && match v {
            None => o is None,
            Some(w) => o matches Some(x) && x@ == w,
        },
        Err(f) => r matches Err(e) && is_fault(e, f),
    }
}

/// The parsed operations, each seen through its view.
pub open spec fn op_views(ops: Seq<Op<NamedGate1, NamedGate2>>) -> Seq<ParsedOp> {
    ops.map_values(|o: Op<NamedGate1, NamedGate2>| o@)
}

/// The result `r` of parsing a whole program is what `p` gives.
pub open spec fn agrees_program(
    r: Result<Circuit<NamedGate1, NamedGate2>, Error>,
    p: Result<(usize, usize, Seq<ParsedOp>), Fault>,
) -> bool {
    match p {
        Ok((nq, nc, ops)) => r matches Ok(c) && c@ == (CircuitView {
            ops: ops,
            num_qubits: nq,
            num_classical: nc,
        }),
        Err(f) => r matches Err(e) && is_fault(e, f),
    }
}

/// A parser over OpenQASM source bytes with one token of look-ahead.
pub struct Parser<'s> {
    lex: Lexer<'s>,
    peek: Option<(Tok, usize, usize)>,
    consumed: Ghost<nat>,
}

impl<'s> Parser<'s> {
    /// The source being parsed.
    pub closed spec fn source(&self) -> Seq<u8> {
        self.lex.source()
    }

    /// The position of the next unread token.
    pub closed spec fn cur(&self) -> LexPos {
        lex_state(self.lex.source(), self.consumed@)
    }

    /// The lexer is well formed, and the look-ahead holds the token at the
    /// current position.
    pub closed spec fn inv(&self) -> bool {
        &&& self.lex.wf()
        &&& match self.peek {
            None => self.lex.state() == lex_state(self.lex.source(), self.consumed@),
            Some(t) => self.lex.state() == lex_state(self.lex.source(), self.consumed@ + 1) && (
            t.0,
            t.1 as nat,
            t.2 as nat,
        ) == lex_step(self.lex.source(), lex_state(self.lex.source(), self.consumed@)).0,
        }
    }

    /// `self` is `before` after reading on: well formed, over the same
    /// source, and not further back.
    pub open spec fn follows(self, before: Self) -> bool {
        &&& self.inv()
        &&& self.source() == before.source()
        &&& before.cur().0 <= self.cur().0 <= self.source().len()
    }

    /// The number of source bytes from the current position on.
    pub open spec fn rest(&self) -> int {
        self.source().len() - self.cur().0
    }

    /// A parser at the start of `src`.
    pub fn new(src: &'s [u8]) -> (p: Self)
        requires
            src@.len() < usize::MAX,
        ensures
            p.inv(),
            p.source() == src@,
            p.cur() == (0nat, 1nat, 1nat),
    {
        Parser { lex: Lexer::new(src), peek: None, consumed: Ghost(0) }
    }

    /// The next token, without reading past it.
    fn peek_tok(&mut self) -> (t: Tok)
        requires
            old(self).inv(),
        ensures
            final(self).inv(),
            final(self).source() == old(self).source(),
            final(self).cur() == old(self).cur(),
            t == syntax::peek(old(self).source(), old(self).cur()),
    {
        let (t, _, _) = self.peek_full();
        t
    }

    /// The line and column of the next token.
    fn peek_line_col(&mut self) -> (lc: (usize, usize))
        requires
            old(self).inv(),
        ensures
            final(self).inv(),
            final(self).source() == old(self).source(),
            final(self).cur() == old(self).cur(),
            lc.0 == lex_step(old(self).source(), old(self).cur()).0.1,
            lc.1 == lex_step(old(self).source(), old(self).cur()).0.2,
    {
        let (_, l, c) = self.peek_full();
        (l, c)
    }

    /// The next token with its line and column, without reading past it.
    fn peek_full(&mut self) -> (t: (Tok, usize, usize))
        requires
            old(self).inv(),
        ensures
            final(self).inv(),
            final(self).source() == old(self).source(),
            final(self).cur() == old(self).cur(),
            (t.0, t.1 as nat, t.2 as nat) == lex_step(old(self).source(), old(self).cur()).0,
            final(self).peek == Some(t),
            final(self).consumed == old(self).consumed,
    {
        match self.peek {
            Some(t) => t,
            None => {
                let t = self.lex.next_token();
                self.peek = Some(t);
                t
            },
        }
    }

    /// Reads the next token, with its line and column.
    fn consume(&mut self) -> (t: (Tok, usize, usize))
        requires
            old(self).inv(),
        ensures
            final(self).inv(),
            final(self).source() == old(self).source(),
            final(self).cur() == syntax::after(old(self).source(), old(self).cur()),
            (t.0, t.1 as nat, t.2 as nat) == lex_step(old(self).source(), old(self).cur()).0,
    {
        let ghost k = self.consumed@;
        let t = self.peek_full();
        self.peek = None;
        self.consumed = Ghost(k + 1);
        t
    }

    /// The error `msg` at the next token.
    fn err(&mut self, msg: &str) -> (e: Error)
        requires
            old(self).inv(),
        ensures
            final(self).inv(),
            final(self).source() == old(self).source(),
            final(self).cur() == old(self).cur(),
            is_fault(e, syntax::fault_at(old(self).source(), old(self).cur(), msg@)),
    {
        let (line, col) = self.peek_line_col();
        Error::Qasm { line, col, message: msg.to_owned() }
    }

    /// The bounds every reachable position keeps.
    proof fn lemma_cur_bounds(&self)
        requires
            self.inv(),
        ensures
            self.cur().0 <= self.source().len(),
            self.source().len() < usize::MAX,
            syntax::after(self.source(), self.cur()).0 <= self.source().len(),
            self.cur().0 <= syntax::after(self.source(), self.cur()).0,
            syntax::peek(self.source(), self.cur()) != Tok::Eof ==> self.cur().0 < syntax::after(
                self.source(),
                self.cur(),
            ).0,
    {
        self.lex.lemma_wf();
        lemma_lex_state_bounds(self.source(), self.consumed@);
        lemma_lex_step_progress(self.source(), self.cur());
    }

    /// `;`
    fn expect_semi(&mut self) -> (r: Result<(), Error>)
        requires
            old(self).inv(),
        ensures
            final(self).follows(*old(self)),
            agrees_unit(r, syntax::expect_semi(old(self).source(), old(self).cur()), final(self).cur()),
            r is Ok ==> old(self).cur().0 < final(self).cur().0,
    {
        proof {
            self.lemma_cur_bounds();
        }
        if self.peek_tok() == Tok::Semi {
            self.consume();
            Ok(())
        } else {
            Err(self.err("expected ';'"))
        }
    }

    /// `[`
    fn expect_lbrack(&mut self) -> (r: Result<(), Error>)
        requires
            old(self).inv(),
        ensures
            final(self).follows(*old(self)),
            agrees_unit(r, syntax::expect_lbrack(old(self).source(), old(self).cur()), final(self).cur()),
            r is Ok ==> old(self).cur().0 < final(self).cur().0,
    {
        proof {
            self.lemma_cur_bounds();
        }
        match self.peek_tok() {
            Tok::LBrack => {
                self.consume();
                Ok(())
            },
            _ => Err(self.err("expected '['")),
        }
    }

    /// `]`
    fn expect_rbrack(&mut self) -> (r: Result<(), Error>)
        requires
            old(self).inv(),
        ensures
            final(self).follows(*old(self)),
            agrees_unit(r, syntax::expect_rbrack(old(self).source(), old(self).cur()), final(self).cur()),
            r is Ok ==> old(self).cur().0 < final(self).cur().0,
    {
        proof {
            self.lemma_cur_bounds();
        }
        match self.peek_tok() {
            Tok::RBrack => {
                self.consume();
                Ok(())
            },
            _ => Err(self.err("expected ']'")),
        }
    }

    /// An integer literal.
    fn parse_int(&mut self) -> (r: Result<usize, Error>)
        requires
            old(self).inv(),
        ensures
            final(self).follows(*old(self)),
            agrees(r, syntax::parse_int(old(self).source(), old(self).cur()), final(self).cur()),
            r is Ok ==> old(self).cur().0 < final(self).cur().0,
    {
        proof {
            self.lemma_cur_bounds();
        }
        match self.consume().0 {
            Tok::Int(n) => Ok(n),
            _ => Err(self.err("expected integer")),
        }
    }

    /// `[ int ]`
    fn parse_index(&mut self) -> (r: Result<usize, Error>)
        requires
            old(self).inv(),
        ensures
            final(self).follows(*old(self)),
            agrees(r, syntax::index(old(self).source(), old(self).cur()), final(self).cur()),
            r is Ok ==> old(self).cur().0 < final(self).cur().0,
    {
        match self.expect_lbrack() {
            Ok(()) => {},
            Err(e) => return Err(e),
        }
        let i = match self.parse_int() {
            Ok(i) => i,
            Err(e) => return Err(e),
        };
        match self.expect_rbrack() {
            Ok(()) => {},
            Err(e) => return Err(e),
        }
        Ok(i)
    }

    /// A register name followed by `[ int ]`.
    fn parse_register_index(&mut self, what: &str) -> (r: Result<usize, Error>)
        requires
            old(self).inv(),
        ensures
            final(self).follows(*old(self)),
            agrees(
                r,
                syntax::register_index(old(self).source(), old(self).cur(), what@),
                final(self).cur(),
            ),
            r is Ok ==> old(self).cur().0 < final(self).cur().0,
    {
        proof {
            self.lemma_cur_bounds();
        }
        match self.peek_tok() {
            Tok::Ident(..) | Tok::Unknown => {
                self.consume();
            },
            _ => return Err(self.err(what)),
        }
        self.parse_index()
    }

    /// A qubit operand `q[i]`.
    fn parse_qubit_index(&mut self) -> (r: Result<usize, Error>)
        requires
            old(self).inv(),
        ensures
            final(self).follows(*old(self)),
            agrees(r, syntax::qubit_index(old(self).source(), old(self).cur()), final(self).cur()),
            r is Ok ==> old(self).cur().0 < final(self).cur().0,
    {
        self.parse_register_index("expected qubit register name")
    }

    /// A classical-bit operand `c[i]`.
    fn parse_cbit_index(&mut self) -> (r: Result<usize, Error>)
        requires
            old(self).inv(),
        ensures
            final(self).follows(*old(self)),
            agrees(r, syntax::cbit_index(old(self).source(), old(self).cur()), final(self).cur()),
            r is Ok ==> old(self).cur().0 < final(self).cur().0,
    {
        self.parse_register_index("expected classical register name")
    }

    /// A register declaration `kw[n] name;`.
    fn parse_register_decl(&mut self, what: &str) -> (r: Result<usize, Error>)
        requires
            old(self).inv(),
        ensures
            final(self).follows(*old(self)),
            agrees(
                r,
                syntax::register_decl(old(self).source(), old(self).cur(), what@),
                final(self).cur(),
            ),
            r is Ok ==> old(self).cur().0 < final(self).cur().0,
    {
        proof {
            self.lemma_cur_bounds();
        }
        self.consume();
        match self.expect_lbrack() {
            Ok(()) => {},
            Err(e) => return Err(e),
        }
        let n = match self.parse_int() {
            Ok(n) => n,
            Err(e) => return Err(e),
        };
        match self.expect_rbrack() {
            Ok(()) => {},
            Err(e) => return Err(e),
        }
        proof {
            self.lemma_cur_bounds();
        }
        match self.consume().0 {
            Tok::Ident(..) | Tok::Unknown => {},
            _ => return Err(self.err(what)),
        }
        match self.expect_semi() {
            Ok(()) => {},
            Err(e) => return Err(e),
        }
        Ok(n)
    }

    /// `qubit[n] name;`
    fn parse_qubit_decl(&mut self) -> (r: Result<usize, Error>)
        requires
            old(self).inv(),
        ensures
            final(self).follows(*old(self)),
            agrees(r, syntax::qubit_decl(old(self).source(), old(self).cur()), final(self).cur()),
            r is Ok ==> old(self).cur().0 < final(self).cur().0,
    {
        self.parse_register_decl("expected qubit register name")
    }

    /// `bit[n] name;`
    fn parse_bit_decl(&mut self) -> (r: Result<usize, Error>)
        requires
            old(self).inv(),
        ensures
            final(self).follows(*old(self)),
            agrees(r, syntax::bit_decl(old(self).source(), old(self).cur()), final(self).cur()),
            r is Ok ==> old(self).cur().0 < final(self).cur().0,
    {
        self.parse_register_decl("expected classical register name")
    }

    /// A gate body `{ ... }`, skipped by counting braces.
    fn skip_brace_block(&mut self) -> (r: Result<(), Error>)
        requires
            old(self).inv(),
        ensures
            final(self).follows(*old(self)),
            agrees_unit(r, syntax::skip_brace_block(old(self).source(), old(self).cur()), final(self).cur()),
            r is Ok ==> old(self).cur().0 < final(self).cur().0,
    {
        let ghost s = self.source();
        let ghost st0 = self.cur();
        proof {
            self.lemma_cur_bounds();
        }
        match self.consume().0 {
            Tok::LBrace => {},
            _ => return Err(self.err("expected '{' for gate body")),
        }
        let mut depth: usize = 1;
        loop
            invariant_except_break
                1 <= depth <= self.cur().0,
                syntax::skip_brace_block(s, st0) == syntax::brace_depth(s, self.cur(), depth as nat),
            invariant
                self.follows(*old(self)),
                s == self.source(),
                st0 == old(self).cur(),
                st0.0 < self.cur().0,
            ensures
                syntax::skip_brace_block(s, st0) == Ok::<LexPos, Fault>(self.cur()),
            decreases self.rest(),
        {
            proof {
                self.lemma_cur_bounds();
            }
            let ghost st = self.cur();
            assert(syntax::brace_depth(s, st, depth as nat) == match syntax::peek(s, st) {
                Tok::LBrace => syntax::brace_depth(s, syntax::after(s, st), (depth + 1) as nat),
                Tok::RBrace => if depth <= 1 {
                    Ok(syntax::after(s, st))
                } else {
                    syntax::brace_depth(s, syntax::after(s, st), (depth - 1) as nat)
                },
                Tok::Eof => Err(syntax::fault_at(s, syntax::after(s, st), "unexpected EOF in gate body"@)),
                _ => syntax::brace_depth(s, syntax::after(s, st), depth as nat),
            });
            let (t, _, _) = self.consume();
            match t {
                Tok::LBrace => {
                    depth = depth + 1;
                },
                Tok::RBrace => {
                    depth = depth - 1;
                    if depth == 0 {
                        break;
                    }
                },
                Tok::Eof => return Err(self.err("unexpected EOF in gate body")),
                _ => {},
            }
        }
        Ok(())
    }

    /// An angle expression.
    fn parse_expr(&mut self) -> (r: Result<Expr, Error>)
        requires
            old(self).inv(),
        ensures
            final(self).follows(*old(self)),
            agrees(r, syntax::expr(old(self).source(), old(self).cur()), final(self).cur()),
            r is Ok ==> old(self).cur().0 < final(self).cur().0,
        decreases old(self).rest(), 6nat,
    {
        self.parse_additive()
    }

    /// `term (('+' | '-') term)*`
    fn parse_additive(&mut self) -> (r: Result<Expr, Error>)
        requires
            old(self).inv(),
        ensures
            final(self).follows(*old(self)),
            agrees(r, syntax::additive(old(self).source(), old(self).cur()), final(self).cur()),
            r is Ok ==> old(self).cur().0 < final(self).cur().0,
        decreases old(self).rest(), 5nat,
    {
        let ghost s = self.source();
        let ghost st0 = self.cur();
        let mut lhs = match self.parse_multiplicative() {
            Ok(e) => e,
            Err(e) => return Err(e),
        };
        loop
            invariant
                self.follows(*old(self)),
                s == self.source(),
                st0 == old(self).cur(),
                st0.0 < self.cur().0,
                syntax::additive(s, st0) == syntax::additive_rest(s, self.cur(), lhs),
            decreases self.rest(),
        {
            proof {
                self.lemma_cur_bounds();
            }
            let t = self.peek_tok();
            if t == Tok::Plus || t == Tok::Minus {
                self.consume();
                let rhs = match self.parse_multiplicative() {
                    Ok(e) => e,
                    Err(e) => return Err(e),
                };
                lhs = if t == Tok::Plus {
                    Expr::Add(Box::new(lhs), Box::new(rhs))
                } else {
                    Expr::Sub(Box::new(lhs), Box::new(rhs))
                };
            } else {
                return Ok(lhs);
            }
        }
    }

    /// `unary (('*' | '/') unary)*`
    fn parse_multiplicative(&mut self) -> (r: Result<Expr, Error>)
        requires
            old(self).inv(),
        ensures
            final(self).follows(*old(self)),
            agrees(r, syntax::multiplicative(old(self).source(), old(self).cur()), final(self).cur()),
            r is Ok ==> old(self).cur().0 < final(self).cur().0,
        decreases old(self).rest(), 3nat,
    {
        let ghost s = self.source();
        let ghost st0 = self.cur();
        let mut lhs = match self.parse_unary() {
            Ok(e) => e,
            Err(e) => return Err(e),
        };
        loop
            invariant
                self.follows(*old(self)),
                s == self.source(),
                st0 == old(self).cur(),
                st0.0 < self.cur().0,
                syntax::multiplicative(s, st0) == syntax::multiplicative_rest(s, self.cur(), lhs),
            decreases self.rest(),
        {
            proof {
                self.lemma_cur_bounds();
            }
            let t = self.peek_tok();
            if t == Tok::Star || t == Tok::Slash {
                self.consume();
                let rhs = match self.parse_unary() {
                    Ok(e) => e,
                    Err(e) => return Err(e),
                };
                lhs = if t == Tok::Star {
                    Expr::Mul(Box::new(lhs), Box::new(rhs))
                } else {
                    let (line, col) = self.peek_line_col();
                    Expr::Div(Box::new(lhs), Box::new(rhs), line, col)
                };
            } else {
                return Ok(lhs);
            }
        }
    }

    /// `'-' primary`, `'+' primary` or `primary`.
    fn parse_unary(&mut self) -> (r: Result<Expr, Error>)
        requires
            old(self).inv(),
        ensures
            final(self).follows(*old(self)),
            agrees(r, syntax::unary(old(self).source(), old(self).cur()), final(self).cur()),
            r is Ok ==> old(self).cur().0 < final(self).cur().0,
        decreases old(self).rest(), 1nat,
    {
        proof {
            self.lemma_cur_bounds();
        }
        if self.peek_tok() == Tok::Minus {
            self.consume();
            return match self.parse_primary() {
                Ok(e) => Ok(Expr::Neg(Box::new(e))),
                Err(e) => Err(e),
            };
        }
        if self.peek_tok() == Tok::Plus {
            self.consume();
        }
        self.parse_primary()
    }

    /// A literal, `pi`, `tau`, or a parenthesized expression.
    fn parse_primary(&mut self) -> (r: Result<Expr, Error>)
        requires
            old(self).inv(),
        ensures
            final(self).follows(*old(self)),
            agrees(r, syntax::primary(old(self).source(), old(self).cur()), final(self).cur()),
            r is Ok ==> old(self).cur().0 < final(self).cur().0,
        decreases old(self).rest(), 0nat,
    {
        proof {
            self.lemma_cur_bounds();
        }
        match self.consume().0 {
            Tok::Float(a, b) => Ok(Expr::Num(a, b)),
            Tok::Int(n) => Ok(Expr::Int(n)),
            Tok::KwPi => Ok(Expr::Pi),
            Tok::KwTau => Ok(Expr::Tau),
            Tok::LParen => {
                let v = match self.parse_expr() {
                    Ok(v) => v,
                    Err(e) => return Err(e),
                };
                proof {
                    self.lemma_cur_bounds();
                }
                match self.consume().0 {
                    Tok::RParen => Ok(v),
                    _ => Err(self.err("expected ')'")),
                }
            },
            _ => Err(self.err("expected numeric expression")),
        }
    }

    /// An optional parenthesized argument list.
    fn parse_arg_list(&mut self) -> (r: Result<Vec<Expr>, Error>)
        requires
            old(self).inv(),
        ensures
            final(self).follows(*old(self)),
            agrees_view(r, syntax::arg_list(old(self).source(), old(self).cur()), final(self).cur()),
    {
        let ghost s = self.source();
        let ghost st0 = self.cur();
        proof {
            self.lemma_cur_bounds();
        }
        match self.peek_tok() {
            Tok::LParen => {},
            _ => return Ok(Vec::new()),
        }
        self.consume();
        let mut args: Vec<Expr> = Vec::new();
        loop
            invariant
                self.follows(*old(self)),
                s == self.source(),
                st0 == old(self).cur(),
                syntax::arg_list(s, st0) == syntax::arg_rest(s, self.cur(), args@),
            decreases self.rest(),
        {
            proof {
                self.lemma_cur_bounds();
            }
            match self.peek_tok() {
                Tok::RParen => {
                    self.consume();
                    return Ok(args);
                },
                Tok::Comma => {
                    self.consume();
                },
                _ => {
                    match self.parse_expr() {
                        Ok(e) => args.push(e),
                        Err(e) => return Err(e),
                    }
                },
            }
        }
    }

    /// A list of operands `name[i]`, separated by commas.
    fn parse_operand_list(&mut self) -> (r: Result<Vec<usize>, Error>)
        requires
            old(self).inv(),
        ensures
            final(self).follows(*old(self)),
            agrees_view(r, syntax::operand_list(old(self).source(), old(self).cur()), final(self).cur()),
    {
        let ghost s = self.source();
        let ghost st0 = self.cur();
        let mut out: Vec<usize> = Vec::new();
        proof {
            self.lemma_cur_bounds();
        }
        loop
            invariant
                self.follows(*old(self)),
                s == self.source(),
                st0 == old(self).cur(),
                syntax::operand_list(s, st0) == syntax::operand_rest(s, self.cur(), out@),
            decreases self.rest(),
        {
            proof {
                self.lemma_cur_bounds();
            }
            match self.peek_tok() {
                Tok::Ident(..) | Tok::Unknown => {
                    self.consume();
                    match self.parse_index() {
                        Ok(i) => out.push(i),
                        Err(e) => return Err(e),
                    }
                },
                Tok::Comma => {
                    self.consume();
                },
                _ => return Ok(out),
            }
        }
    }

    /// The bytes of the name that `t` stands for: an identifier's text, or
    /// `?` for a byte that starts no token.
    fn name_bytes(&self, t: Tok) -> (v: Vec<u8>)
        requires
            self.inv(),
            t is Ident || t is Unknown,
            t matches Tok::Ident(a, b) ==> a <= b <= self.source().len() && forall|i: int|
                a <= i < b ==> (#[trigger] self.source()[i]) < 0x80,
        ensures
            v@ == syntax::name_of(self.source(), t),
            forall|i: int| 0 <= i < v@.len() ==> (#[trigger] v@[i]) < 0x80,
    {
        match t {
            Tok::Ident(a, b) => vstd::slice::slice_to_vec(
                vstd::slice::slice_subrange(self.lex.source_bytes(), a, b),
            ),
            _ => {
                let v: Vec<u8> = vec![0x3F];
                assert(v@ =~= seq![0x3Fu8]);
                v
            },
        }
    }

    /// An error from a gate-table lookup, placed at the next token.
    fn place(&mut self, e: Error) -> (r: Error)
        requires
            old(self).inv(),
        ensures
            final(self).inv(),
            final(self).source() == old(self).source(),
            final(self).cur() == old(self).cur(),
            e matches Error::Qasm { message, .. } ==> is_fault(
                r,
                syntax::fault_at(old(self).source(), old(self).cur(), message@),
            ),
    {
        match e {
            Error::Qasm { message, .. } => {
                let (line, col) = self.peek_line_col();
                Error::Qasm { line, col, message }
            },
            other => other,
        }
    }

    /// `measure q[j] -> c[i];`
    fn parse_measure_stmt(&mut self) -> (r: Result<Op<NamedGate1, NamedGate2>, Error>)
        requires
            old(self).inv(),
        ensures
            final(self).follows(*old(self)),
            agrees_op(r, syntax::measure_stmt(old(self).source(), old(self).cur()), final(self).cur()),
            r is Ok ==> old(self).cur().0 < final(self).cur().0,
    {
        proof {
            self.lemma_cur_bounds();
        }
        self.consume();
        let qubit = match self.parse_qubit_index() {
            Ok(q) => q,
            Err(e) => return Err(e),
        };
        proof {
            self.lemma_cur_bounds();
        }
        match self.peek_tok() {
            Tok::Arrow => {
                self.consume();
                let into = match self.parse_cbit_index() {
                    Ok(c) => c,
                    Err(e) => return Err(e),
                };
                match self.expect_semi() {
                    Ok(()) => {},
                    Err(e) => return Err(e),
                }
                Ok(Op::Measure { qubit: QubitId(qubit), into: ClassicalBit(into) })
            },
            Tok::Semi => {
                self.consume();
                Err(
                    Error::Qasm {
                        line: 0,
                        col: 0,
                        message: "bare 'measure' without destination is not supported".to_owned(),
                    },
                )
            },
            _ => Err(self.err("expected '->' or ';' after measure operand")),
        }
    }

    /// The right side `measure q[j];` of `c[into] = measure q[j];`.
    fn parse_measure_assign(&mut self, into: usize) -> (r: Result<Op<NamedGate1, NamedGate2>, Error>)
        requires
            old(self).inv(),
        ensures
            final(self).follows(*old(self)),
            agrees_op(
                r,
                syntax::measure_assign(old(self).source(), old(self).cur(), into),
                final(self).cur(),
            ),
            r is Ok ==> old(self).cur().0 < final(self).cur().0,
    {
        proof {
            self.lemma_cur_bounds();
        }
        self.consume();
        let qubit = match self.parse_qubit_index() {
            Ok(q) => q,
            Err(e) => return Err(e),
        };
        match self.expect_semi() {
            Ok(()) => {},
            Err(e) => return Err(e),
        }
        Ok(Op::Measure { qubit: QubitId(qubit), into: ClassicalBit(into) })
    }

    /// The rest of a gate call whose name has been read: arguments,
    /// operands and `;`.
    fn parse_gate_call_after_name(&mut self, name: &[u8]) -> (r: Result<
        Op<NamedGate1, NamedGate2>,
        Error,
    >)
        requires
            old(self).inv(),
            forall|i: int| 0 <= i < name@.len() ==> (#[trigger] name@[i]) < 0x80,
        ensures
            final(self).follows(*old(self)),
            agrees_op(
                r,
                syntax::gate_call_after_name(old(self).source(), old(self).cur(), name@),
                final(self).cur(),
            ),
            r is Ok ==> old(self).cur().0 < final(self).cur().0,
    {
        let args = match self.parse_arg_list() {
            Ok(a) => a,
            Err(e) => return Err(e),
        };
        let operands = match self.parse_operand_list() {
            Ok(o) => o,
            Err(e) => return Err(e),
        };
        match self.expect_semi() {
            Ok(()) => {},
            Err(e) => return Err(e),
        }
        if operands.len() == 1 {
            match gate1_lookup(name, args) {
                Some(gate) => Ok(Op::Apply1 { gate, target: QubitId(operands[0]) }),
                None => Err(self.place(unknown_gate1(name))),
            }
        } else if operands.len() == 2 && args.len() == 0 {
            match gate2_lookup(name) {
                Some(gate) => Ok(Op::Apply2 { gate, a: QubitId(operands[0]), b: QubitId(operands[1]) }),
                None => Err(self.place(unknown_gate2(name))),
            }
        } else {
            Err(self.err("unexpected gate arity"))
        }
    }

    /// `ctrl @ name(args) c1, ..., cn, target;` and `ctrl(n) @ ...`.
    fn parse_gate_call(&mut self) -> (r: Result<Op<NamedGate1, NamedGate2>, Error>)
        requires
            old(self).inv(),
        ensures
            final(self).follows(*old(self)),
            agrees_op(r, syntax::gate_call(old(self).source(), old(self).cur()), final(self).cur()),
            r is Ok ==> old(self).cur().0 < final(self).cur().0,
    {
        let ghost s = self.source();
        proof {
            self.lemma_cur_bounds();
        }
        self.consume();
        proof {
            self.lemma_cur_bounds();
        }
        let n_controls = if self.peek_tok() == Tok::LParen {
            self.consume();
            let n = match self.parse_int() {
                Ok(n) => n,
                Err(e) => return Err(e),
            };
            proof {
                self.lemma_cur_bounds();
            }
            match self.consume().0 {
                Tok::RParen => {},
                _ => return Err(self.err("expected ')'")),
            }
            n
        } else {
            1
        };
        proof {
            self.lemma_cur_bounds();
        }
        match self.consume().0 {
            Tok::At => {},
            _ => return Err(self.err("expected '@' after ctrl")),
        }
        proof {
            self.lemma_cur_bounds();
            lemma_ident_token(s, self.cur());
        }
        let (t, _, _) = self.consume();
        let name = match t {
            Tok::Ident(..) | Tok::Unknown => self.name_bytes(t),
            _ => return Err(self.err("expected gate name after 'ctrl @'")),
        };
        let args = match self.parse_arg_list() {
            Ok(a) => a,
            Err(e) => return Err(e),
        };
        let operands = match self.parse_operand_list() {
            Ok(o) => o,
            Err(e) => return Err(e),
        };
        match self.expect_semi() {
            Ok(()) => {},
            Err(e) => return Err(e),
        }
        if operands.len() <= n_controls {
            return Err(self.err("not enough operands for ctrl gate"));
        }
        let mut controls: Vec<QubitId> = Vec::new();
        let mut i: usize = 0;
        while i < n_controls
            invariant
                0 <= i <= n_controls < operands@.len(),
                controls@ == syntax::qubits(operands@.take(i as int)),
            decreases n_controls - i,
        {
            controls.push(QubitId(operands[i]));
            assert(syntax::qubits(operands@.take(i + 1)) =~= syntax::qubits(operands@.take(i as int)).push(
                QubitId(operands@[i as int]),
            ));
            i = i + 1;
        }
        let target = operands[n_controls];
        let gate = match gate1_lookup(name.as_slice(), args) {
            Some(g) => g,
            None => return Err(self.place(unknown_gate1(name.as_slice()))),
        };
        Ok(Op::Controlled { controls, gate, target: QubitId(target) })
    }

    /// `if (c[i] == 1) statement`
    fn parse_if(&mut self) -> (r: Result<Op<NamedGate1, NamedGate2>, Error>)
        requires
            old(self).inv(),
        ensures
            final(self).follows(*old(self)),
            agrees_op(r, syntax::if_stmt(old(self).source(), old(self).cur()), final(self).cur()),
            r is Ok ==> old(self).cur().0 < final(self).cur().0,
        decreases old(self).rest(), 0nat,
    {
        proof {
            self.lemma_cur_bounds();
        }
        self.consume();
        proof {
            self.lemma_cur_bounds();
        }
        match self.consume().0 {
            Tok::LParen => {},
            _ => return Err(self.err("expected '(' after 'if'")),
        }
        proof {
            self.lemma_cur_bounds();
        }
        match self.consume().0 {
            Tok::Ident(..) | Tok::Unknown => {},
            _ => return Err(self.err("expected classical register in if condition")),
        }
        match self.expect_lbrack() {
            Ok(()) => {},
            Err(e) => return Err(e),
        }
        let bit = match self.parse_int() {
            Ok(b) => b,
            Err(e) => return Err(e),
        };
        match self.expect_rbrack() {
            Ok(()) => {},
            Err(e) => return Err(e),
        }
        proof {
            self.lemma_cur_bounds();
        }
        match self.consume().0 {
            Tok::EqEq => {},
            _ => return Err(self.err("expected '==' in if condition")),
        }
        proof {
            self.lemma_cur_bounds();
        }
        match self.consume().0 {
            Tok::Int(1) => {},
            _ => {
                return Err(
                    Error::Qasm {
                        line: 0,
                        col: 0,
                        message: "only 'if (c[i] == 1)' is supported".to_owned(),
                    },
                );
            },
        }
        proof {
            self.lemma_cur_bounds();
        }
        match self.consume().0 {
            Tok::RParen => {},
            _ => return Err(self.err("expected ')' to close if condition")),
        }
        let inner = match self.parse_statement(0, 0) {
            Ok(Some(op)) => op,
            Ok(None) => return Err(self.err("expected statement in if body")),
            Err(e) => return Err(e),
        };
        Ok(Op::IfClassic { bit: ClassicalBit(bit), then: Box::new(inner) })
    }

    /// One statement; `None` for a construct that yields no operation
    /// (an empty statement, `reset`, `barrier`, or a skipped token).
    fn parse_statement(&mut self, _num_qubits: usize, _num_classical: usize) -> (r: Result<
        Option<Op<NamedGate1, NamedGate2>>,
        Error,
    >)
        requires
            old(self).inv(),
        ensures
            final(self).follows(*old(self)),
            agrees_opt_op(r, syntax::statement(old(self).source(), old(self).cur()), final(self).cur()),
            r is Ok && syntax::peek(old(self).source(), old(self).cur()) != Tok::Eof ==> old(
                self,
            ).cur().0 < final(self).cur().0,
        decreases old(self).rest(), 1nat,
    {
        let ghost s = self.source();
        let ghost st0 = self.cur();
        proof {
            self.lemma_cur_bounds();
            lemma_ident_token(s, st0);
        }
        let t = self.peek_tok();
        match t {
            Tok::Semi => {
                self.consume();
                Ok(None)
            },
            Tok::KwMeasure => match self.parse_measure_stmt() {
                Ok(op) => Ok(Some(op)),
                Err(e) => Err(e),
            },
            Tok::KwIf => match self.parse_if() {
                Ok(op) => Ok(Some(op)),
                Err(e) => Err(e),
            },
            Tok::KwCtrl => match self.parse_gate_call() {
                Ok(op) => Ok(Some(op)),
                Err(e) => Err(e),
            },
            Tok::Ident(..) | Tok::Unknown => {
                let name = self.name_bytes(t);
                let w_reset: [u8; 5] = [0x72, 0x65, 0x73, 0x65, 0x74];
                let w_barrier: [u8; 7] = [0x62, 0x61, 0x72, 0x72, 0x69, 0x65, 0x72];
                assert(w_reset@ =~= syntax::reset_word());
                assert(w_barrier@ =~= syntax::barrier_word());
                self.consume();
                if name_is(name.as_slice(), w_reset.as_slice()) || name_is(
                    name.as_slice(),
                    w_barrier.as_slice(),
                ) {
                    loop
                        invariant_except_break
                            syntax::skip_statement(s, syntax::after(s, st0)) == syntax::skip_statement(
                                s,
                                self.cur(),
                            ),
                        invariant
                            self.follows(*old(self)),
                            s == self.source(),
                            st0.0 < self.cur().0,
                        ensures
                            self.follows(*old(self)),
                            st0.0 < self.cur().0,
                            syntax::skip_statement(s, syntax::after(s, st0)) == self.cur(),
                        decreases self.rest(),
                    {
                        proof {
                            self.lemma_cur_bounds();
                        }
                        match self.consume().0 {
                            Tok::Semi | Tok::Eof => break,
                            _ => {},
                        }
                    }
                    return Ok(None);
                }
                proof {
                    self.lemma_cur_bounds();
                }
                match self.peek_tok() {
                    Tok::LBrack => {
                        self.consume();
                        let idx = match self.parse_int() {
                            Ok(i) => i,
                            Err(e) => return Err(e),
                        };
                        match self.expect_rbrack() {
                            Ok(()) => {},
                            Err(e) => return Err(e),
                        }
                        proof {
                            self.lemma_cur_bounds();
                        }
                        match self.peek_tok() {
                            Tok::Eq => {
                                self.consume();
                                proof {
                                    self.lemma_cur_bounds();
                                }
                                match self.peek_tok() {
                                    Tok::KwMeasure => match self.parse_measure_assign(idx) {
                                        Ok(op) => Ok(Some(op)),
                                        Err(e) => Err(e),
                                    },
                                    _ => Err(self.err("expected 'measure' after '='")),
                                }
                            },
                            _ => Err(self.err("unexpected token after register index")),
                        }
                    },
                    Tok::LParen | Tok::Ident(..) | Tok::Unknown | Tok::Semi | Tok::Comma => {
                        match self.parse_gate_call_after_name(name.as_slice()) {
                            Ok(op) => Ok(Some(op)),
                            Err(e) => Err(e),
                        }
                    },
                    _ => Err(self.err("unexpected token in statement")),
                }
            },
            _ => {
                self.consume();
                Ok(None)
            },
        }
    }

    /// The optional `OPENQASM version;` and `include "file";` lines.
    fn parse_header(&mut self) -> (r: Result<(), Error>)
        requires
            old(self).inv(),
        ensures
            final(self).follows(*old(self)),
            agrees_unit(r, syntax::header(old(self).source(), old(self).cur()), final(self).cur()),
    {
        proof {
            self.lemma_cur_bounds();
        }
        if self.peek_tok() == Tok::KwOpenQasm {
            self.consume();
            proof {
                self.lemma_cur_bounds();
            }
            match self.peek_tok() {
                Tok::Int(_) | Tok::Float(..) => {
                    self.consume();
                },
                _ => {},
            }
            match self.expect_semi() {
                Ok(()) => {},
                Err(e) => return Err(e),
            }
        }
        proof {
            self.lemma_cur_bounds();
        }
        if self.peek_tok() == Tok::KwInclude {
            self.consume();
            proof {
                self.lemma_cur_bounds();
            }
            self.consume();
            match self.expect_semi() {
                Ok(()) => {},
                Err(e) => return Err(e),
            }
        }
        Ok(())
    }

    /// A gate definition `gate name params qubits { body }`, skipped: the
    /// tokens up to the body's `{`, then the body.
    fn skip_gate_definition(&mut self) -> (r: Result<(), Error>)
        requires
            old(self).inv(),
        ensures
            final(self).follows(*old(self)),
            agrees_unit(
                r,
                syntax::skip_brace_block(
                    old(self).source(),
                    syntax::gate_head_end(old(self).source(), syntax::after(old(self).source(), old(self).cur())),
                ),
                final(self).cur(),
            ),
            r is Ok ==> old(self).cur().0 < final(self).cur().0,
    {
        let ghost s = self.source();
        let ghost st = self.cur();
        proof {
            self.lemma_cur_bounds();
        }
        self.consume();
        loop
            invariant_except_break
                syntax::gate_head_end(s, syntax::after(s, st)) == syntax::gate_head_end(s, self.cur()),
            invariant
                self.follows(*old(self)),
                s == self.source(),
            ensures
                syntax::gate_head_end(s, syntax::after(s, st)) == self.cur(),
            decreases self.rest(),
        {
            proof {
                self.lemma_cur_bounds();
            }
            match self.peek_tok() {
                Tok::LBrace | Tok::Eof => break,
                _ => {
                    self.consume();
                },
            }
        }
        self.skip_brace_block()
    }

    /// The body of a program: declarations, gate definitions and
    /// statements in any order until the end. Returns the qubit count, the
    /// classical-bit count and the operations.
    #[verifier::rlimit(50)]
    fn parse_body(&mut self) -> (r: Result<(usize, usize, Vec<Op<NamedGate1, NamedGate2>>), Error>)
        requires
            old(self).inv(),
        ensures
            match syntax::program_rest(old(self).source(), old(self).cur(), 0, 0, seq![]) {
                Ok((nq, nc, ops)) => r matches Ok(v) && v.0 == nq && v.1 == nc && op_views(v.2@)
                    == ops,
                Err(f) => r matches Err(e) && is_fault(e, f),
            },
    {
        let ghost s = self.source();
        let ghost st0 = self.cur();
        let mut num_qubits: usize = 0;
        let mut num_classical: usize = 0;
        let mut ops: Vec<Op<NamedGate1, NamedGate2>> = Vec::new();
        proof {
            self.lemma_cur_bounds();
            assert(op_views(ops@) =~= seq![]);
        }
        loop
            invariant_except_break
                syntax::program_rest(s, st0, 0, 0, seq![]) == syntax::program_rest(
                    s,
                    self.cur(),
                    num_qubits,
                    num_classical,
                    op_views(ops@),
                ),
            invariant
                self.follows(*old(self)),
                s == self.source(),
                st0 == old(self).cur(),
            ensures
                syntax::program_rest(s, st0, 0, 0, seq![]) == Ok::<
                    (usize, usize, Seq<ParsedOp>),
                    Fault,
                >((num_qubits, num_classical, op_views(ops@))),
            decreases self.rest(),
        {
            proof {
                self.lemma_cur_bounds();
            }
            match self.peek_tok() {
                Tok::Eof => break,
                Tok::KwQubit => {
                    num_qubits = match self.parse_qubit_decl() {
                        Ok(n) => n,
                        Err(e) => return Err(e),
                    };
                },
                Tok::KwBit => {
                    num_classical = match self.parse_bit_decl() {
                        Ok(n) => n,
                        Err(e) => return Err(e),
                    };
                },
                Tok::KwGate => {
                    match self.skip_gate_definition() {
                        Ok(()) => {},
                        Err(e) => return Err(e),
                    }
                },
                _ => {
                    match self.parse_statement(num_qubits, num_classical) {
                        Ok(Some(op)) => {
                            let ghost before = ops@;
                            let ghost ov = op@;
                            ops.push(op);
                            assert(op_views(ops@) =~= op_views(before).push(ov));
                        },
                        Ok(None) => {},
                        Err(e) => return Err(e),
                    }
                },
            }
        }
        Ok((num_qubits, num_classical, ops))
    }

    /// A whole program: the optional header, then declarations, gate
    /// definitions and statements in any order until the end.
    pub fn parse_program(&mut self) -> (r: Result<Circuit<NamedGate1, NamedGate2>, Error>)
        requires
            old(self).inv(),
            old(self).cur() == (0nat, 1nat, 1nat),
        ensures
            agrees_program(r, syntax::program(old(self).source())),
    {
        match self.parse_header() {
            Ok(()) => {},
            Err(e) => return Err(e),
        }
        let (num_qubits, num_classical, ops) = match self.parse_body() {
            Ok(v) => v,
            Err(e) => return Err(e),
        };
        Ok(circuit_of(num_qubits, num_classical, ops))
    }
}

/// The circuit over `nq` qubits and `nc` classical bits that runs `ops` in
/// order.
fn circuit_of(nq: usize, nc: usize, ops: Vec<Op<NamedGate1, NamedGate2>>) -> (c: Circuit<
    NamedGate1,
    NamedGate2,
>)
    ensures
        c@ == (CircuitView { ops: op_views(ops@), num_qubits: nq, num_classical: nc }),
{
    let ghost views = op_views(ops@);
    let mut ops = ops;
    let n0 = ops.len();
    let mut rev: Vec<Op<NamedGate1, NamedGate2>> = Vec::new();
    while ops.len() > 0
        invariant
            ops@.len() + rev@.len() == n0,
            n0 == views.len(),
            forall|i: int| 0 <= i < ops@.len() ==> (#[trigger] ops@[i])@ == views[i],
            forall|j: int| 0 <= j < rev@.len() ==> (#[trigger] rev@[j])@ == views[n0 - 1 - j],
        decreases ops@.len(),
    {
        let op = ops.pop().unwrap();
        rev.push(op);
    }
    let mut c = Circuit::with_classical(nq, nc);
    while rev.len() > 0
        invariant
            c@.ops.len() + rev@.len() == n0,
            n0 == views.len(),
            c@.num_qubits == nq,
            c@.num_classical == nc,
            forall|i: int| 0 <= i < c@.ops.len() ==> #[trigger] c@.ops[i] == views[i],
            forall|j: int| 0 <= j < rev@.len() ==> (#[trigger] rev@[j])@ == views[n0 - 1 - j],
        decreases rev@.len(),
    {
        let op = rev.pop().unwrap();
        c.push_op(op);
    }
    assert(c@.ops =~= views);
    c
}

/// Parses OpenQASM 3 source text into a circuit whose gates are the named
/// gates of `stdgates.inc`, with angle arguments kept as expressions.
///
/// A string literal with no closing quote runs to the end of the source,
/// and a byte that starts no token is read as an unknown token of its own.
pub fn parse(src: &str) -> (r: Result<Circuit<NamedGate1, NamedGate2>, Error>)
    requires
        src.spec_bytes().len() < usize::MAX,
    ensures
        agrees_program(r, syntax::program(src.spec_bytes())),
{
    let mut p = Parser::new(src.as_bytes());
    p.parse_program()
}

/// Whatever the source, parsing fails only with the QASM error, which gives
/// the line, column and message of the first fault.
pub proof fn law_parse_fails_only_with_qasm_error(
    src: Seq<u8>,
    r: Result<Circuit<NamedGate1, NamedGate2>, Error>,
)
    requires
        agrees_program(r, syntax::program(src)),
    ensures
        r matches Err(e) ==> e is Qasm,
{
}

} // verus!
