//! Emitting a circuit and parsing the text back gives the circuit again.
//!
//! The statement covers circuits whose gates carry `stdgates.inc` call
//! texts: a bare name, or a rotation name with a decimal angle literal
//! (digits, `.`, digits, maybe after `-`). The text of every such circuit
//! reads back as the same registers and the same operations, each gate
//! named by the table entry its name selects and each angle read as the
//! literal written for it.

use vstd::prelude::*;

use crate::op::OpView;
use crate::qasm::emit::{
    controls_text, header_text, op_text, ops_text, program_text, qubit_ref, NamedOpView,
};
use crate::qasm::gates::{gate1_of, gate2_of, Expr, NamedGate1};
use crate::qasm::lexer::{
    at, classify, decimal_value, digits_end, find_byte, has_float_mark, ident_end, is_alpha, is_digit,
    is_ident_byte, keyword, lemma_digits_end_bounds, lemma_skip_end_bounds, lex_step, skip_end, symbol, LexPos, Tok,
};
use crate::qasm::syntax::{
    additive, additive_rest, advances, after, arg_list, barrier_word, bit_decl, ctrl_count,
    arg_rest, expect_semi, expr, fault_at, multiplicative, multiplicative_rest, primary, unary,
    gate_call_after_name, header, if_condition, if_stmt, index, name_of, named_statement,
    operand_list, operand_rest, peek, program, program_rest, qubit_decl, qubits, register_decl,
    reset_word, statement, Fault, Parsed, ParsedOp,
};
use crate::qubit::{ClassicalBit, QubitId};
use crate::text::decimal;
use vstd::utf8::{encode_utf8, is_ascii_chars, is_ascii_chars_encode_utf8};

verus! {

/// The bytes of an ASCII text, one per character.
pub open spec fn ascii_bytes(t: Seq<char>) -> Seq<u8> {
    t.map_values(|c: char| c as u8)
}

/// `s[p..p + w.len()]` spells `w`.
pub open spec fn has(s: Seq<u8>, p: int, w: Seq<u8>) -> bool {
    0 <= p && p + w.len() <= s.len() && s.subrange(p, p + w.len()) == w
}

proof fn lemma_ascii_bytes_add(a: Seq<char>, b: Seq<char>)
    ensures
        ascii_bytes(a + b) == ascii_bytes(a) + ascii_bytes(b),
{
    assert(ascii_bytes(a + b) =~= ascii_bytes(a) + ascii_bytes(b));
}

proof fn lemma_has_add(s: Seq<u8>, p: int, a: Seq<u8>, b: Seq<u8>)
    ensures
        has(s, p, a + b) <==> has(s, p, a) && has(s, p + a.len(), b),
{
    let w = a + b;
    if has(s, p, w) {
        let sub = s.subrange(p, p + w.len());
        assert(s.subrange(p, p + a.len()) =~= a) by {
            assert forall|i: int| 0 <= i < a.len() implies s.subrange(p, p + a.len())[i] == a[i] by {
                assert(sub[i] == w[i]);
            }
        }
        assert(s.subrange(p + a.len(), p + a.len() + b.len()) =~= b) by {
            assert forall|i: int| 0 <= i < b.len() implies s.subrange(
                p + a.len(),
                p + a.len() + b.len(),
            )[i] == b[i] by {
                assert(sub[a.len() + i] == w[a.len() + i]);
            }
        }
    }
    if has(s, p, a) && has(s, p + a.len(), b) {
        assert(s.subrange(p, p + w.len()) =~= w) by {
            assert forall|i: int| 0 <= i < w.len() implies s.subrange(p, p + w.len())[i] == w[i] by {
                if i < a.len() {
                    assert(s.subrange(p, p + a.len())[i] == a[i]);
                } else {
                    assert(s.subrange(p + a.len(), p + a.len() + b.len())[i - a.len()] == b[i
                        - a.len()]);
                }
            }
        }
    }
}

proof fn lemma_has_at(s: Seq<u8>, p: int, w: Seq<u8>, i: int)
    requires
        has(s, p, w),
        0 <= i < w.len(),
    ensures
        s[p + i] == w[i],
{
    assert(s.subrange(p, p + w.len())[i] == s[p + i]);
}

/// A printable ASCII byte other than space and `/`: skipping stops at it.
pub open spec fn is_solid(b: u8) -> bool {
    0x21 <= b <= 0x7E && b != 0x2F
}

proof fn lemma_skip_solid(s: Seq<u8>, p: nat)
    requires
        p < s.len(),
        is_solid(s[p as int]),
    ensures
        skip_end(s, p) == p,
{
}

proof fn lemma_skip_blank(s: Seq<u8>, p: nat)
    requires
        p < s.len(),
        s[p as int] == 0x20 || s[p as int] == 0x0A,
    ensures
        skip_end(s, p) == skip_end(s, p + 1),
{
}

proof fn lemma_skip_at_end(s: Seq<u8>)
    ensures
        skip_end(s, s.len()) == s.len(),
{
}

/// Reading at a position that skips to `p` gives the token found at `p`.
proof fn lemma_read(s: Seq<u8>, st: LexPos, p: nat)
    requires
        skip_end(s, st.0) == p,
        p < s.len(),
    ensures
        peek(s, st) == classify(s, p).0,
        after(s, st).0 == classify(s, p).1,
{
    reveal(lex_step);
}

/// Reading at a position that skips to the end gives `Eof`.
proof fn lemma_read_end(s: Seq<u8>, st: LexPos)
    requires
        skip_end(s, st.0) == s.len(),
    ensures
        peek(s, st) == Tok::Eof,
{
    reveal(lex_step);
}

/// Every byte of `w` may continue an identifier.
pub open spec fn all_ident(w: Seq<u8>) -> bool {
    forall|i: int| 0 <= i < w.len() ==> is_ident_byte(#[trigger] w[i])
}

/// The bytes of the decimal representation of `n`.
pub open spec fn dec_bytes(n: nat) -> Seq<u8> {
    ascii_bytes(decimal(n))
}

proof fn lemma_ident_run(s: Seq<u8>, p: nat, q: nat)
    requires
        p <= q <= s.len(),
        forall|i: int| p <= i < q ==> is_ident_byte(#[trigger] s[i]),
        q == s.len() || !is_ident_byte(s[q as int]),
    ensures
        ident_end(s, p) == q,
    decreases q - p,
{
    if p < q {
        lemma_ident_run(s, p + 1, q);
    }
}

proof fn lemma_digit_run(s: Seq<u8>, p: nat, q: nat)
    requires
        p <= q <= s.len(),
        forall|i: int| p <= i < q ==> is_digit(#[trigger] s[i]),
        q == s.len() || !is_digit(s[q as int]),
    ensures
        digits_end(s, p) == q,
    decreases q - p,
{
    if p < q {
        lemma_digit_run(s, p + 1, q);
    }
}

/// A word that starts with a letter and runs to a byte that cannot continue
/// it reads as its keyword, or else as an identifier.
proof fn lemma_classify_word(s: Seq<u8>, p: nat, w: Seq<u8>)
    requires
        has(s, p as int, w),
        w.len() >= 1,
        is_alpha(w[0]),
        all_ident(w),
        p + w.len() == s.len() || !is_ident_byte(s[(p + w.len()) as int]),
    ensures
        classify(s, p).1 == p + w.len(),
        classify(s, p).0 == (match keyword(s, p, p + w.len()) {
            Some(k) => k,
            None => Tok::Ident(p as usize, (p + w.len()) as usize),
        }),
        s.subrange(p as int, (p + w.len()) as int) == w,
{
    assert forall|i: int| p <= i < p + w.len() implies is_ident_byte(#[trigger] s[i]) by {
        lemma_has_at(s, p as int, w, i - p);
    }
    lemma_ident_run(s, p, p + w.len());
    lemma_has_at(s, p as int, w, 0);
}

/// The decimal representation of `n` is a non-empty run of digits.
proof fn lemma_dec_bytes_digits(n: nat)
    ensures
        dec_bytes(n).len() >= 1,
        forall|i: int| 0 <= i < dec_bytes(n).len() ==> is_digit(#[trigger] dec_bytes(n)[i]),
    decreases n,
{
    if n >= 10 {
        lemma_dec_bytes_digits(n / 10);
        assert(dec_bytes(n) =~= dec_bytes(n / 10).push((((n % 10) + 48) as u8) as char as u8));
    }
}

/// Digits spelling the decimal representation of `n` have the value `n`.
proof fn lemma_dec_value(s: Seq<u8>, p: nat, n: nat)
    requires
        has(s, p as int, dec_bytes(n)),
    ensures
        decimal_value(s, p, p + dec_bytes(n).len()) == n,
    decreases n,
{
    let d = dec_bytes(n);
    if n < 10 {
        lemma_has_at(s, p as int, d, 0);
        assert(decimal_value(s, p, p) == 0);
    } else {
        let e = dec_bytes(n / 10);
        assert(d =~= e + seq![(((n % 10) + 48) as u8) as char as u8]);
        lemma_has_add(s, p as int, e, seq![(((n % 10) + 48) as u8) as char as u8]);
        lemma_dec_value(s, p, n / 10);
        lemma_has_at(s, (p + e.len()) as int, seq![(((n % 10) + 48) as u8) as char as u8], 0);
    }
}

/// The decimal representation of `n`, followed by a byte that continues no
/// number, reads as the integer `n`.
proof fn lemma_classify_int(s: Seq<u8>, p: nat, n: nat)
    requires
        has(s, p as int, dec_bytes(n)),
        n <= usize::MAX,
        p + dec_bytes(n).len() < s.len(),
        !is_digit(s[(p + dec_bytes(n).len()) as int]),
        s[(p + dec_bytes(n).len()) as int] != 0x2E,
        s[(p + dec_bytes(n).len()) as int] != 0x65,
        s[(p + dec_bytes(n).len()) as int] != 0x45,
    ensures
        classify(s, p) == (Tok::Int(n as usize), p + dec_bytes(n).len()),
{
    let d = dec_bytes(n);
    let q = p + d.len();
    lemma_dec_bytes_digits(n);
    assert forall|i: int| p <= i < q implies is_digit(#[trigger] s[i]) by {
        lemma_has_at(s, p as int, d, i - p);
    }
    lemma_digit_run(s, p, q);
    lemma_dec_value(s, p, n);
    assert(is_digit(s[p as int]));
    assert(!has_float_mark(s, p, q)) by {
        if has_float_mark(s, p, q) {
            let i = choose|i: int| p <= i < q && (s[i] == 0x2E || s[i] == 0x65 || s[i] == 0x45);
            assert(is_digit(s[i]));
        }
    }
}

/// A single-byte symbol that does not start `==` or `->` reads as itself.
proof fn lemma_classify_symbol(s: Seq<u8>, p: nat)
    requires
        p < s.len(),
        symbol(s[p as int]) is Some,
        !(s[p as int] == 0x3D && at(s, p + 1 as int) == 0x3D),
        !(s[p as int] == 0x2D && at(s, p + 1 as int) == 0x3E),
    ensures
        classify(s, p) == (symbol(s[p as int])->0, p + 1),
{
}

/// `q[i]`
pub open spec fn qref_b(i: usize) -> Seq<u8> {
    seq![0x71u8, 0x5B] + dec_bytes(i as nat) + seq![0x5Du8]
}

/// `q[v0], q[v1], ..., q[vk]`
pub open spec fn operands_b(v: Seq<usize>) -> Seq<u8>
    decreases v.len(),
{
    if v.len() == 0 {
        seq![]
    } else if v.len() == 1 {
        qref_b(v[0])
    } else {
        qref_b(v[0]) + seq![0x2Cu8, 0x20] + operands_b(v.drop_first())
    }
}

/// The indices of a list of qubits.
pub open spec fn qidx(cs: Seq<QubitId>) -> Seq<usize> {
    cs.map_values(|q: QubitId| q.0)
}

/// `ctrl @ ` for one control, `ctrl(n) @ ` otherwise.
pub open spec fn ctrl_b(n: nat) -> Seq<u8> {
    if n == 1 {
        seq![0x63u8, 0x74, 0x72, 0x6C, 0x20, 0x40, 0x20]
    } else {
        seq![0x63u8, 0x74, 0x72, 0x6C, 0x28] + dec_bytes(n) + seq![0x29u8, 0x20, 0x40, 0x20]
    }
}

/// The bytes of a single-qubit gate's call text.
pub open spec fn name1_b(g: Option<String>) -> Seq<u8> {
    match g {
        Some(t) => ascii_bytes(t@),
        None => seq![],
    }
}

/// The bytes of a two-qubit gate's name.
pub open spec fn name2_b(g: Option<&'static str>) -> Seq<u8> {
    match g {
        Some(t) => ascii_bytes(t@),
        None => seq![],
    }
}

/// The bytes of the statement that the emitter writes for `op`.
pub open spec fn op_b(op: NamedOpView) -> Seq<u8>
    decreases op,
{
    match op {
        OpView::Apply1 { gate, target } => name1_b(gate) + seq![0x20u8] + qref_b(target.0) + seq![
            0x3Bu8,
        ],
        OpView::Apply2 { gate, a, b } => name2_b(gate) + seq![0x20u8] + qref_b(a.0) + seq![
            0x2Cu8,
            0x20,
        ] + qref_b(b.0) + seq![0x3Bu8],
        OpView::Controlled { controls, gate, target } => ctrl_b(controls.len()) + name1_b(gate)
            + seq![0x20u8] + operands_b(qidx(controls).push(target.0)) + seq![0x3Bu8],
        OpView::Measure { qubit, into } => seq![0x63u8, 0x5B] + dec_bytes(into.0 as nat) + seq![
            0x5Du8,
            0x20,
            0x3D,
            0x20,
            0x6D,
            0x65,
            0x61,
            0x73,
            0x75,
            0x72,
            0x65,
            0x20,
        ] + qref_b(qubit.0) + seq![0x3Bu8],
        OpView::IfClassic { bit, then } => seq![0x69u8, 0x66, 0x20, 0x28, 0x63, 0x5B] + dec_bytes(
            bit.0 as nat,
        ) + seq![0x5Du8, 0x20, 0x3D, 0x3D, 0x20, 0x31, 0x29, 0x20] + op_b(*then),
    }
}

/// An operation whose gates carry ASCII call texts of the table (a bare
/// name, or a rotation with a decimal angle literal; a two-qubit gate by
/// its bare name), with a control list that fits in memory.
pub open spec fn plain_op(op: NamedOpView) -> bool
    decreases op,
{
    match op {
        OpView::Apply1 { gate, .. } => plain1(gate),
        OpView::Apply2 { gate, .. } => match gate {
            Some(g) => is_ascii_chars(g@) && gate2_of(ascii_bytes(g@)) is Some,
            None => false,
        },
        OpView::Controlled { controls, gate, .. } => controls.len() <= usize::MAX && plain1(gate),
        OpView::Measure { .. } => true,
        OpView::IfClassic { then, .. } => plain_op(*then),
    }
}

/// A single-qubit gate text in ASCII: a bare name from the table, or a
/// rotation name with its angle literal in parentheses.
pub open spec fn plain1(gate: Option<String>) -> bool {
    match gate {
        Some(g) => is_ascii_chars(g@) && (gate1_of(ascii_bytes(g@), seq![]) is Some || rot_call(
            ascii_bytes(g@),
        )),
        None => false,
    }
}

proof fn lemma_decimal_ascii(n: nat)
    ensures
        is_ascii_chars(decimal(n)),
    decreases n,
{
    if n >= 10 {
        lemma_decimal_ascii(n / 10);
    }
}

proof fn lemma_qref_text(i: usize)
    ensures
        ascii_bytes(qubit_ref(i)) == qref_b(i),
        is_ascii_chars(qubit_ref(i)),
{
    reveal_strlit("q[");
    reveal_strlit("]");
    lemma_ascii_bytes_add("q["@, decimal(i as nat));
    lemma_ascii_bytes_add("q["@ + decimal(i as nat), "]"@);
    lemma_decimal_ascii(i as nat);
    assert(ascii_bytes("q["@) =~= seq![0x71u8, 0x5B]);
    assert(ascii_bytes("]"@) =~= seq![0x5Du8]);
}

proof fn lemma_operands_snoc(v: Seq<usize>, x: usize)
    requires
        v.len() >= 1,
    ensures
        operands_b(v.push(x)) == operands_b(v) + seq![0x2Cu8, 0x20] + qref_b(x),
    decreases v.len(),
{
    let w = v.push(x);
    if v.len() == 1 {
        assert(w.drop_first() =~= seq![x]);
        assert(operands_b(seq![x]) == qref_b(x));
    } else {
        assert(w.drop_first() =~= v.drop_first().push(x));
        lemma_operands_snoc(v.drop_first(), x);
        assert(operands_b(w) =~= operands_b(v) + seq![0x2Cu8, 0x20] + qref_b(x));
    }
}

proof fn lemma_controls_text(cs: Seq<QubitId>, t: usize)
    ensures
        ascii_bytes(controls_text(cs) + qubit_ref(t)) == operands_b(qidx(cs).push(t)),
        is_ascii_chars(controls_text(cs) + qubit_ref(t)),
    decreases cs.len(),
{
    reveal_strlit(", ");
    lemma_qref_text(t);
    if cs.len() == 0 {
        assert(controls_text(cs) + qubit_ref(t) =~= qubit_ref(t));
        assert(qidx(cs).push(t) =~= seq![t]);
    } else {
        let c = cs.last();
        let rest = cs.drop_last();
        lemma_controls_text(rest, c.0);
        let a = controls_text(rest) + qubit_ref(c.0);
        assert(controls_text(cs) + qubit_ref(t) =~= a + ", "@ + qubit_ref(t));
        lemma_ascii_bytes_add(a, ", "@);
        lemma_ascii_bytes_add(a + ", "@, qubit_ref(t));
        assert(ascii_bytes(", "@) =~= seq![0x2Cu8, 0x20]);
        assert(qidx(rest).push(c.0) =~= qidx(cs));
        lemma_operands_snoc(qidx(cs), t);
    }
}

proof fn lemma_ascii_cat(a: Seq<char>, b: Seq<char>)
    ensures
        ascii_bytes(a + b) == ascii_bytes(a) + ascii_bytes(b),
        is_ascii_chars(a) && is_ascii_chars(b) ==> is_ascii_chars(a + b),
{
    lemma_ascii_bytes_add(a, b);
    if is_ascii_chars(a) && is_ascii_chars(b) {
        assert forall|i: int| 0 <= i < (a + b).len() implies '\0' <= #[trigger] (a + b)[i] <= '\u{7f}' by {
            if i < a.len() {
                assert((a + b)[i] == a[i]);
            } else {
                assert((a + b)[i] == b[i - a.len()]);
            }
        }
    }
}

/// The text the emitter writes for a plain operation is ASCII, and its
/// bytes are [`op_b`].
#[verifier::spinoff_prover]
#[verifier::rlimit(40)]
proof fn lemma_op_bytes(op: NamedOpView, d: nat)
    requires
        plain_op(op),
    ensures
        match op_text(op, d) {
            Ok(t) => ascii_bytes(t) == op_b(op) && is_ascii_chars(t),
            Err(_) => true,
        },
    decreases op,
{
    reveal_strlit(" ");
    reveal_strlit(";");
    reveal_strlit(", ");
    assert(ascii_bytes(" "@) =~= seq![0x20u8]);
    assert(ascii_bytes(";"@) =~= seq![0x3Bu8]);
    assert(ascii_bytes(", "@) =~= seq![0x2Cu8, 0x20]);
    match op {
        OpView::Apply1 { gate, target } => {
            let g = gate->0@;
            lemma_qref_text(target.0);
            lemma_ascii_cat(g, " "@);
            lemma_ascii_cat(g + " "@, qubit_ref(target.0));
            lemma_ascii_cat(g + " "@ + qubit_ref(target.0), ";"@);
        },
        OpView::Apply2 { gate, a, b } => {
            let g = gate->0@;
            lemma_qref_text(a.0);
            lemma_qref_text(b.0);
            lemma_ascii_cat(g, " "@);
            lemma_ascii_cat(g + " "@, qubit_ref(a.0));
            lemma_ascii_cat(g + " "@ + qubit_ref(a.0), ", "@);
            lemma_ascii_cat(g + " "@ + qubit_ref(a.0) + ", "@, qubit_ref(b.0));
            lemma_ascii_cat(g + " "@ + qubit_ref(a.0) + ", "@ + qubit_ref(b.0), ";"@);
        },
        OpView::Controlled { controls, gate, target } => {
            let g = gate->0@;
            reveal_strlit("ctrl @ ");
            reveal_strlit("ctrl(");
            reveal_strlit(") @ ");
            let n = controls.len();
            let head = if n == 1 {
                "ctrl @ "@
            } else {
                "ctrl("@ + decimal(n) + ") @ "@
            };
            if n == 1 {
                assert(ascii_bytes(head) =~= ctrl_b(n));
            } else {
                lemma_decimal_ascii(n);
                lemma_ascii_cat("ctrl("@, decimal(n));
                lemma_ascii_cat("ctrl("@ + decimal(n), ") @ "@);
                assert(ascii_bytes("ctrl("@) =~= seq![0x63u8, 0x74, 0x72, 0x6C, 0x28]);
                assert(ascii_bytes(") @ "@) =~= seq![0x29u8, 0x20, 0x40, 0x20]);
            }
            assert(is_ascii_chars(head));
            lemma_controls_text(controls, target.0);
            let tail = controls_text(controls) + qubit_ref(target.0);
            lemma_ascii_cat(head, g);
            lemma_ascii_cat(head + g, " "@);
            lemma_ascii_cat(head + g + " "@, tail);
            lemma_ascii_cat(head + g + " "@ + tail, ";"@);
            assert(head + g + " "@ + controls_text(controls) + qubit_ref(target.0) + ";"@ =~= head + g
                + " "@ + tail + ";"@);
        },
        OpView::Measure { qubit, into } => {
            reveal_strlit("c[");
            reveal_strlit("] = measure ");
            lemma_decimal_ascii(into.0 as nat);
            lemma_qref_text(qubit.0);
            let a = "c["@;
            let b = decimal(into.0 as nat);
            let c = "] = measure "@;
            lemma_ascii_cat(a, b);
            lemma_ascii_cat(a + b, c);
            lemma_ascii_cat(a + b + c, qubit_ref(qubit.0));
            lemma_ascii_cat(a + b + c + qubit_ref(qubit.0), ";"@);
            assert(ascii_bytes(a) =~= seq![0x63u8, 0x5B]);
            assert(ascii_bytes(c) =~= seq![
                0x5Du8,
                0x20,
                0x3D,
                0x20,
                0x6D,
                0x65,
                0x61,
                0x73,
                0x75,
                0x72,
                0x65,
                0x20,
            ]);
        },
        OpView::IfClassic { bit, then } => {
            if d == 0 {
                lemma_op_bytes(*then, d + 1);
                match op_text(*then, d + 1) {
                    Ok(t) => {
                        reveal_strlit("if (c[");
                        reveal_strlit("] == 1) ");
                        lemma_decimal_ascii(bit.0 as nat);
                        let a = "if (c["@;
                        let b = decimal(bit.0 as nat);
                        let c = "] == 1) "@;
                        lemma_ascii_cat(a, b);
                        lemma_ascii_cat(a + b, c);
                        lemma_ascii_cat(a + b + c, t);
                        assert(ascii_bytes(a) =~= seq![0x69u8, 0x66, 0x20, 0x28, 0x63, 0x5B]);
                        assert(ascii_bytes(c) =~= seq![0x5Du8, 0x20, 0x3D, 0x3D, 0x20, 0x31, 0x29, 0x20]);
                    },
                    Err(_) => {},
                }
            }
        },
    }
}

proof fn lemma_has_sub(s: Seq<u8>, p: int, w: Seq<u8>, i: int, j: int)
    requires
        has(s, p, w),
        0 <= i <= j <= w.len(),
    ensures
        has(s, p + i, w.subrange(i, j)),
{
    assert(s.subrange(p + i, p + j) =~= w.subrange(i, j)) by {
        assert forall|k: int| 0 <= k < j - i implies s.subrange(p + i, p + j)[k] == w.subrange(
            i,
            j,
        )[k] by {
            lemma_has_at(s, p, w, i + k);
        }
    }
}

/// `q[i]` reads as a name and then `[ i ]`.
proof fn lemma_read_qref(s: Seq<u8>, st: LexPos, p: nat, i: usize)
    requires
        skip_end(s, st.0) == p,
        has(s, p as int, qref_b(i)),
    ensures
        peek(s, st) == Tok::Ident(p as usize, (p + 1) as usize),
        after(s, st).0 == p + 1,
        index(s, after(s, st)) matches Ok((v, st3)) && v == i && st3.0 == p + qref_b(i).len(),
{
    let d = dec_bytes(i as nat);
    let w = qref_b(i);
    lemma_dec_bytes_digits(i as nat);
    assert(w.len() == d.len() + 3);
    lemma_has_at(s, p as int, w, 0);
    lemma_has_at(s, p as int, w, 1);
    lemma_has_at(s, p as int, w, (2 + d.len()) as int);
    lemma_has_sub(s, p as int, w, 0, 1);
    assert(w.subrange(0, 1) =~= seq![0x71u8]);
    lemma_classify_word(s, p, seq![0x71u8]);
    lemma_read(s, st, p);
    let st1 = after(s, st);
    lemma_skip_solid(s, p + 1);
    lemma_classify_symbol(s, p + 1);
    lemma_read(s, st1, p + 1);
    let st2 = after(s, st1);
    lemma_has_sub(s, p as int, w, 2, (2 + d.len()) as int);
    assert(w.subrange(2, (2 + d.len()) as int) =~= d);
    lemma_has_at(s, (p + 2) as int, d, 0);
    lemma_skip_solid(s, p + 2);
    lemma_classify_int(s, p + 2, i as nat);
    lemma_read(s, st2, p + 2);
    let st3 = after(s, st2);
    lemma_skip_solid(s, p + 2 + d.len());
    lemma_classify_symbol(s, p + 2 + d.len());
    lemma_read(s, st3, p + 2 + d.len());
}

proof fn lemma_operand_rest_stop(s: Seq<u8>, st: LexPos, out: Seq<usize>)
    requires
        peek(s, st) == Tok::Semi,
    ensures
        operand_rest(s, st, out) == Ok::<(Seq<usize>, LexPos), Fault>((out, st)),
{
}

proof fn lemma_operand_rest_comma(s: Seq<u8>, st: LexPos, out: Seq<usize>)
    requires
        peek(s, st) == Tok::Comma,
    ensures
        operand_rest(s, st, out) == operand_rest(s, after(s, st), out),
{
}

/// A position that skips to `p` lies at or before `p`.
proof fn lemma_skip_from(s: Seq<u8>, st: LexPos, p: nat)
    requires
        skip_end(s, st.0) == p,
        p < s.len(),
    ensures
        st.0 <= p,
{
    if st.0 <= s.len() {
        lemma_skip_end_bounds(s, st.0);
    }
}

/// `q[v0], ..., q[vk]` followed by `;` reads as the operands `v`.
proof fn lemma_read_operands(s: Seq<u8>, st: LexPos, p: nat, v: Seq<usize>, out: Seq<usize>)
    requires
        v.len() >= 1,
        skip_end(s, st.0) == p,
        has(s, p as int, operands_b(v)),
        p + operands_b(v).len() < s.len(),
        s[(p + operands_b(v).len()) as int] == 0x3B,
    ensures
        operand_rest(s, st, out) matches Ok((r, st2)) && r == out + v && st2.0 == p
            + operands_b(v).len(),
    decreases v.len(),
{
    let w = operands_b(v);
    let qr = qref_b(v[0]);
    lemma_skip_from(s, st, p);
    if v.len() == 1 {
        lemma_read_qref(s, st, p, v[0]);
    } else {
        assert(w == qr + seq![0x2Cu8, 0x20] + operands_b(v.drop_first()));
        lemma_has_add(s, p as int, qr + seq![0x2Cu8, 0x20], operands_b(v.drop_first()));
        lemma_has_add(s, p as int, qr, seq![0x2Cu8, 0x20]);
        lemma_read_qref(s, st, p, v[0]);
    }
    let st1 = after(s, st);
    let st3 = index(s, st1)->Ok_0.1;
    let m = p + qr.len();
    assert(st3.0 == m);
    lemma_skip_solid(s, m);
    if v.len() == 1 {
        lemma_classify_symbol(s, m);
        lemma_read(s, st3, m);
        lemma_operand_rest_stop(s, st3, out.push(v[0]));
        assert(out.push(v[0]) =~= out + v);
    } else {
        let rest = v.drop_first();
        lemma_has_at(s, m as int, seq![0x2Cu8, 0x20], 0);
        lemma_has_at(s, m as int, seq![0x2Cu8, 0x20], 1);
        lemma_classify_symbol(s, m);
        lemma_read(s, st3, m);
        lemma_operand_rest_comma(s, st3, out.push(v[0]));
        let st4 = after(s, st3);
        lemma_has_at(s, (m + 2) as int, operands_b(rest), 0);
        lemma_skip_blank(s, m + 1);
        lemma_skip_solid(s, m + 2);
        lemma_read_operands(s, st4, m + 2, rest, out.push(v[0]));
        assert(out.push(v[0]) + rest =~= out + v);
    }
}

/// What the parser reads back for an emitted plain operation whose
/// statement starts at byte `p`: the same operation, each gate named by the
/// table entry its name selects, a rotation's angle read as the literal at
/// its place in the text.
pub open spec fn reread(op: NamedOpView, p: nat) -> ParsedOp
    decreases op,
{
    match op {
        OpView::Apply1 { gate, target } => OpView::Apply1 {
            gate: call_gate1(name1_b(gate), p),
            target,
        },
        OpView::Apply2 { gate, a, b } => OpView::Apply2 { gate: gate2_of(name2_b(gate))->0, a, b },
        OpView::Controlled { controls, gate, target } => OpView::Controlled {
            controls,
            gate: call_gate1(name1_b(gate), p + ctrl_b(controls.len()).len()),
            target,
        },
        OpView::Measure { qubit, into } => OpView::Measure { qubit, into },
        OpView::IfClassic { bit, then } => OpView::IfClassic {
            bit,
            then: Box::new(
                reread(*then, p + if_open_b().len() + dec_bytes(bit.0 as nat).len() + if_close_b().len()),
            ),
        },
    }
}

/// A gate name of the table: a short run of letters that is no keyword,
/// `reset` or `barrier`.
proof fn lemma_gate_name(s: Seq<u8>, p: nat, g: Seq<u8>)
    requires
        gate1_of(g, seq![]) is Some || gate2_of(g) is Some || gate1_of(g, seq![Expr::Pi]) is Some,
        has(s, p as int, g),
    ensures
        g.len() >= 1,
        is_alpha(g[0]),
        all_ident(g),
        keyword(s, p, p + g.len()) is None,
        g != reset_word(),
        g != barrier_word(),
{
    let q = p + g.len();
    assert(s.subrange(p as int, q as int) == g);
    assert(reset_word().len() == 5 && barrier_word().len() == 7);
    if g == seq![0x69u8, 0x64] {
        assert(g[1] != seq![0x69u8, 0x66][1]);
    }
    if g == seq![0x63u8, 0x6E, 0x6F, 0x74] {
        assert(g[1] != seq![0x63u8, 0x74, 0x72, 0x6C][1]);
    }
    if g == seq![0x73u8, 0x77, 0x61, 0x70] {
        assert(g[0] != seq![0x67u8, 0x61, 0x74, 0x65][0]);
        assert(g[0] != seq![0x63u8, 0x74, 0x72, 0x6C][0]);
    }
    if g == seq![0x70u8, 0x68, 0x61, 0x73, 0x65] {
        assert(g[0] != seq![0x71u8, 0x75, 0x62, 0x69, 0x74][0]);
    }
}

/// A statement read yields the operation `o` and stops at byte `e`.
pub open spec fn reads_op(r: Parsed<Option<ParsedOp>>, o: ParsedOp, e: nat) -> bool {
    match r {
        Ok((Some(x), st2)) => x == o && st2.0 == e,
        _ => false,
    }
}

/// A call text `g` followed by the operands `v` and `;`, read from its
/// name on: the name, the arguments, the operands, and the closing `;`.
proof fn lemma_read_named_operands(s: Seq<u8>, st: LexPos, p: nat, g: Seq<u8>, v: Seq<usize>)
    requires
        call1(g),
        v.len() >= 1,
        s.len() <= usize::MAX,
        skip_end(s, st.0) == p,
        has(s, p as int, g + seq![0x20u8] + operands_b(v) + seq![0x3Bu8]),
    ensures
        peek(s, st) is Ident,
        name_of(s, peek(s, st)) == call_name(g),
        call_name(g) != reset_word() && call_name(g) != barrier_word(),
        arg_list(s, after(s, st)) is Ok,
        arg_list(s, after(s, st))->Ok_0.0 == call_args(g, p),
        gate1_of(g, seq![]) is Some || rot_call(g) ==> gate1_of(call_name(g), call_args(g, p)) is Some,
        operand_list(s, arg_list(s, after(s, st))->Ok_0.1) is Ok,
        operand_list(s, arg_list(s, after(s, st))->Ok_0.1)->Ok_0.0 == v,
        expect_semi(s, operand_list(s, arg_list(s, after(s, st))->Ok_0.1)->Ok_0.1) == Ok::<
            LexPos,
            Fault,
        >(after(s, operand_list(s, arg_list(s, after(s, st))->Ok_0.1)->Ok_0.1)),
        after(s, operand_list(s, arg_list(s, after(s, st))->Ok_0.1)->Ok_0.1).0 == p + g.len() + 1
            + operands_b(v).len() + 1,
{
    let ob = operands_b(v);
    let k = g.len();
    lemma_has_add(s, p as int, g + seq![0x20u8] + ob, seq![0x3Bu8]);
    lemma_has_add(s, p as int, g + seq![0x20u8], ob);
    lemma_has_add(s, p as int, g, seq![0x20u8]);
    lemma_has_at(s, (p + k) as int, seq![0x20u8], 0);
    lemma_has_at(s, (p + k + 1 + ob.len()) as int, seq![0x3Bu8], 0);
    if v.len() > 1 {
        assert(ob == qref_b(v[0]) + seq![0x2Cu8, 0x20] + operands_b(v.drop_first()));
        lemma_has_add(s, (p + k + 1) as int, qref_b(v[0]) + seq![0x2Cu8, 0x20], operands_b(
            v.drop_first(),
        ));
        lemma_has_add(s, (p + k + 1) as int, qref_b(v[0]), seq![0x2Cu8, 0x20]);
    }
    lemma_has_at(s, (p + k + 1) as int, qref_b(v[0]), 0);
    lemma_read_call_head(s, st, p, g);
    let stx = arg_list(s, after(s, st))->Ok_0.1;
    lemma_skip_blank(s, p + k);
    lemma_skip_solid(s, p + k + 1);
    lemma_read_qref(s, stx, p + k + 1, v[0]);
    lemma_read_operands(s, stx, p + k + 1, v, seq![]);
    assert(seq![] + v =~= v);
    let st2 = operand_rest(s, stx, seq![])->Ok_0.1;
    lemma_skip_solid(s, st2.0);
    lemma_classify_symbol(s, st2.0);
    lemma_read(s, st2, st2.0);
}

/// A call of the text `g` on the operands `v` reads as its gate: with one
/// operand a single-qubit gate, with two a two-qubit gate.
proof fn lemma_read_call(s: Seq<u8>, st: LexPos, p: nat, g: Seq<u8>, v: Seq<usize>)
    requires
        call1(g),
        v.len() >= 1,
        s.len() <= usize::MAX,
        skip_end(s, st.0) == p,
        has(s, p as int, g + seq![0x20u8] + operands_b(v) + seq![0x3Bu8]),
    ensures
        peek(s, st) is Ident,
        v.len() == 1 && (gate1_of(g, seq![]) is Some || rot_call(g)) ==> reads_op(
            statement(s, st),
            OpView::Apply1 { gate: call_gate1(g, p), target: QubitId(v[0]) },
            p + g.len() + 1 + operands_b(v).len() + 1,
        ),
        v.len() == 2 && gate2_of(g) is Some ==> reads_op(
            statement(s, st),
            OpView::Apply2 { gate: gate2_of(g)->0, a: QubitId(v[0]), b: QubitId(v[1]) },
            p + g.len() + 1 + operands_b(v).len() + 1,
        ),
{
    lemma_read_named_operands(s, st, p, g, v);
    let st1 = after(s, st);
    if gate2_of(g) is Some {
        assert(!rot_call(g)) by {
            if rot_call(g) {
                lemma_letters_end(g, 0);
                assert(g[letters_end(g, 0) as int] == 0x28);
            }
        }
        assert(call_args(g, p) == Seq::<Expr>::empty());
    }
    assert(named_statement(s, st1, call_name(g)) == (match gate_call_after_name(
        s,
        st1,
        call_name(g),
    ) {
        Err(f) => Err(f),
        Ok((op, st3)) => Ok((Some(op), st3)),
    }));
}

/// The bytes of a controlled call after its `ctrl` prefix.
pub open spec fn ctrl_call_b(g: Seq<u8>, v: Seq<usize>) -> Seq<u8> {
    g + seq![0x20u8] + operands_b(v) + seq![0x3Bu8]
}

/// `ctrl @ g q[c1], ..., q[t];` and `ctrl(n) @ g ...;` read as a controlled
/// gate whose first `n` operands are the controls.
#[verifier::spinoff_prover]
#[verifier::rlimit(40)]
proof fn lemma_stmt_controlled(s: Seq<u8>, st: LexPos, p: nat, op: NamedOpView)
    requires
        op is Controlled,
        plain_op(op),
        s.len() <= usize::MAX,
        skip_end(s, st.0) == p,
        has(s, p as int, op_b(op)),
    ensures
        peek(s, st) == Tok::KwCtrl,
        reads_op(statement(s, st), reread(op, p), p + op_b(op).len()),
{
    let cs = op->Controlled_controls;
    let t = op->Controlled_target.0;
    let g = name1_b(op->Controlled_gate);
    let n = cs.len();
    let v = qidx(cs).push(t);
    let cb = ctrl_b(n);
    let rest = ctrl_call_b(g, v);
    assert(op_b(op) =~= cb + rest);
    lemma_has_add(s, p as int, cb, rest);
    assert forall|k: int| 0 <= k < cb.len() implies s[p + k] == #[trigger] cb[k] by {
        lemma_has_at(s, p as int, cb, k);
    }
    let pi = p as int;
    let ctrl = seq![0x63u8, 0x74, 0x72, 0x6C];
    lemma_has_sub(s, pi, cb, 0, 4);
    assert(cb.subrange(0, 4) =~= ctrl);
    assert(s[pi + 4] == cb[4]);
    lemma_classify_word(s, p, ctrl);
    assert(ctrl[1] != seq![0x63u8, 0x6E, 0x6F, 0x74][1]);
    assert(keyword(s, p, p + 4) == Some(Tok::KwCtrl));
    lemma_read(s, st, p);
    let sta = after(s, st);
    // the control count, and the position `at` of `@`
    let at_pos: nat = if n == 1 {
        p + 5
    } else {
        p + 7 + dec_bytes(n).len()
    };
    if n == 1 {
        assert(s[pi + 4] == 0x20 && s[pi + 5] == 0x40 && s[pi + 6] == 0x20);
        lemma_skip_blank(s, p + 4);
        lemma_skip_solid(s, p + 5);
        lemma_classify_symbol(s, p + 5);
        lemma_read(s, sta, p + 5);
        assert(ctrl_count(s, sta) == Ok::<(usize, LexPos), Fault>((1, sta)));
    } else {
        let dn = dec_bytes(n);
        let m = p + 5 + dn.len();
        lemma_dec_bytes_digits(n);
        assert(cb =~= seq![0x63u8, 0x74, 0x72, 0x6C, 0x28] + dn + seq![0x29u8, 0x20, 0x40, 0x20]);
        let dl = dn.len() as int;
        let mi = m as int;
        lemma_has_sub(s, pi, cb, 5, 5 + dl);
        assert(cb.subrange(5, 5 + dl) =~= dn);
        assert(s[pi + 4] == 0x28);
        assert(s[mi] == 0x29 && s[mi + 1] == 0x20 && s[mi + 2] == 0x40 && s[mi + 3] == 0x20) by {
            assert(cb[5 + dl] == 0x29 && cb[6 + dl] == 0x20 && cb[7 + dl] == 0x40 && cb[8 + dl]
                == 0x20);
        }
        lemma_skip_solid(s, p + 4);
        lemma_classify_symbol(s, p + 4);
        lemma_read(s, sta, p + 4);
        let stb = after(s, sta);
        lemma_has_at(s, (p + 5) as int, dn, 0);
        lemma_skip_solid(s, p + 5);
        lemma_classify_int(s, p + 5, n);
        lemma_read(s, stb, p + 5);
        let stc = after(s, stb);
        lemma_skip_solid(s, m);
        lemma_classify_symbol(s, m);
        lemma_read(s, stc, m);
        let std = after(s, stc);
        assert(ctrl_count(s, sta) == Ok::<(usize, LexPos), Fault>((n as usize, std)));
        lemma_skip_blank(s, m + 1);
        lemma_skip_solid(s, m + 2);
        lemma_classify_symbol(s, m + 2);
        lemma_read(s, std, m + 2);
    }
    let st1 = ctrl_count(s, sta)->Ok_0.1;
    assert(peek(s, st1) == Tok::At);
    let st2 = after(s, st1);
    assert(st2.0 == at_pos + 1);
    assert(s[at_pos + 1 as int] == 0x20);
    lemma_skip_blank(s, at_pos + 1);
    lemma_has_at(s, (p + cb.len()) as int, rest, 0);
    assert(p + cb.len() == at_pos + 2);
    lemma_skip_solid(s, at_pos + 2);
    lemma_read_named_operands(s, st2, at_pos + 2, g, v);
    assert(qubits(v.take(n as int)) =~= cs);
    assert(v[n as int] == t);
}

/// `measure`
pub open spec fn measure_word() -> Seq<u8> {
    seq![0x6Du8, 0x65, 0x61, 0x73, 0x75, 0x72, 0x65]
}

/// `] = measure `
pub open spec fn assign_measure_b() -> Seq<u8> {
    seq![0x5Du8, 0x20, 0x3D, 0x20] + measure_word() + seq![0x20u8]
}

/// `c[i] = measure q[j];` reads as a measurement.
#[verifier::spinoff_prover]
#[verifier::rlimit(40)]
proof fn lemma_stmt_measure(s: Seq<u8>, st: LexPos, p: nat, op: NamedOpView)
    requires
        op is Measure,
        s.len() <= usize::MAX,
        skip_end(s, st.0) == p,
        has(s, p as int, op_b(op)),
    ensures
        peek(s, st) is Ident,
        reads_op(statement(s, st), reread(op, p), p + op_b(op).len()),
{
    let i = op->Measure_into.0;
    let j = op->Measure_qubit.0;
    let di = dec_bytes(i as nat);
    let qr = qref_b(j);
    let am = assign_measure_b();
    let head = seq![0x63u8, 0x5B];
    assert(op_b(op) =~= head + di + am + qr + seq![0x3Bu8]);
    lemma_has_add(s, p as int, head + di + am + qr, seq![0x3Bu8]);
    lemma_has_add(s, p as int, head + di + am, qr);
    lemma_has_add(s, p as int, head + di, am);
    lemma_has_add(s, p as int, head, di);
    assert(head =~= seq![0x63u8] + seq![0x5Bu8]);
    lemma_has_add(s, p as int, seq![0x63u8], seq![0x5Bu8]);
    lemma_has_at(s, p as int, head, 1);
    lemma_dec_bytes_digits(i as nat);
    let m = p + 2 + di.len();
    lemma_has_at(s, (p + 2) as int, di, 0);
    assert forall|k: int| 0 <= k < 12 implies s[m + k] == #[trigger] am[k] by {
        lemma_has_at(s, m as int, am, k);
    }
    lemma_has_at(s, (m + 12) as int, qr, 0);
    let mi = m as int;
    assert(s[mi] == 0x5D && s[mi + 1] == 0x20 && s[mi + 2] == 0x3D && s[mi + 3] == 0x20) by {
        assert(am[0] == 0x5D && am[1] == 0x20 && am[2] == 0x3D && am[3] == 0x20);
    }
    assert(s[mi + 4] == 0x6D && s[mi + 11] == 0x20) by {
        assert(am[4] == 0x6D && am[11] == 0x20);
    }
    // `c`
    lemma_classify_word(s, p, seq![0x63u8]);
    lemma_read(s, st, p);
    let st1 = after(s, st);
    // `[`
    lemma_skip_solid(s, p + 1);
    lemma_classify_symbol(s, p + 1);
    lemma_read(s, st1, p + 1);
    let st1b = after(s, st1);
    // the index
    lemma_skip_solid(s, p + 2);
    lemma_classify_int(s, p + 2, i as nat);
    lemma_read(s, st1b, p + 2);
    let st1c = after(s, st1b);
    // `]`
    lemma_skip_solid(s, m);
    lemma_classify_symbol(s, m);
    lemma_read(s, st1c, m);
    let st2 = after(s, st1c);
    // `=`
    lemma_skip_blank(s, m + 1);
    lemma_skip_solid(s, m + 2);
    lemma_classify_symbol(s, m + 2);
    lemma_read(s, st2, m + 2);
    let st3 = after(s, st2);
    // `measure`
    lemma_skip_blank(s, m + 3);
    lemma_skip_solid(s, m + 4);
    lemma_has_sub(s, m as int, am, 4, 11);
    assert(am.subrange(4, 11) =~= measure_word());
    lemma_classify_word(s, m + 4, measure_word());
    assert(measure_word()[0] != seq![0x69u8, 0x6E, 0x63, 0x6C, 0x75, 0x64, 0x65][0]);
    assert(keyword(s, m + 4, m + 11) == Some(Tok::KwMeasure));
    lemma_read(s, st3, m + 4);
    let st4 = after(s, st3);
    // `q[j]`
    lemma_skip_blank(s, m + 11);
    lemma_skip_solid(s, m + 12);
    lemma_read_qref(s, st4, m + 12, j);
    let st5 = index(s, after(s, st4))->Ok_0.1;
    // `;`
    let e1 = m + 12 + qr.len();
    lemma_has_at(s, e1 as int, seq![0x3Bu8], 0);
    lemma_skip_solid(s, e1);
    lemma_classify_symbol(s, e1);
    lemma_read(s, st5, e1);
    assert(name_of(s, peek(s, st)) == seq![0x63u8]);
    assert(seq![0x63u8] != reset_word() && seq![0x63u8] != barrier_word());
}

/// `if (c[`
pub open spec fn if_open_b() -> Seq<u8> {
    seq![0x69u8, 0x66, 0x20, 0x28, 0x63, 0x5B]
}

/// `] == 1) `
pub open spec fn if_close_b() -> Seq<u8> {
    seq![0x5Du8, 0x20, 0x3D, 0x3D, 0x20, 0x31, 0x29, 0x20]
}

/// `if (c[b] == 1) ` reads as the condition on bit `b`, ending at the last
/// space.
#[verifier::spinoff_prover]
#[verifier::rlimit(40)]
proof fn lemma_read_if_condition(s: Seq<u8>, st: LexPos, p: nat, b: usize)
    requires
        s.len() <= usize::MAX,
        skip_end(s, st.0) == p,
        has(s, p as int, if_open_b() + dec_bytes(b as nat) + if_close_b()),
    ensures
        peek(s, st) == Tok::KwIf,
        if_condition(s, st) is Ok,
        if_condition(s, st)->Ok_0.0 == b,
        if_condition(s, st)->Ok_0.1.0 == p + 6 + dec_bytes(b as nat).len() + 7,
{
    let db = dec_bytes(b as nat);
    let ob = if_open_b();
    let cb = if_close_b();
    let pi = p as int;
    lemma_has_add(s, pi, ob + db, cb);
    lemma_has_add(s, pi, ob, db);
    lemma_dec_bytes_digits(b as nat);
    assert forall|k: int| 0 <= k < 6 implies s[pi + k] == #[trigger] ob[k] by {
        lemma_has_at(s, pi, ob, k);
    }
    let m = p + 6 + db.len();
    let mi = m as int;
    assert forall|k: int| 0 <= k < 8 implies s[mi + k] == #[trigger] cb[k] by {
        lemma_has_at(s, mi, cb, k);
    }
    assert(s[pi] == 0x69 && s[pi + 1] == 0x66 && s[pi + 2] == 0x20 && s[pi + 3] == 0x28 && s[pi
        + 4] == 0x63 && s[pi + 5] == 0x5B) by {
        assert(ob[0] == 0x69 && ob[1] == 0x66 && ob[2] == 0x20 && ob[3] == 0x28 && ob[4] == 0x63
            && ob[5] == 0x5B);
    }
    assert(s[mi] == 0x5D && s[mi + 1] == 0x20 && s[mi + 2] == 0x3D && s[mi + 3] == 0x3D && s[mi
        + 4] == 0x20 && s[mi + 5] == 0x31 && s[mi + 6] == 0x29 && s[mi + 7] == 0x20) by {
        assert(cb[0] == 0x5D && cb[1] == 0x20 && cb[2] == 0x3D && cb[3] == 0x3D && cb[4] == 0x20
            && cb[5] == 0x31 && cb[6] == 0x29 && cb[7] == 0x20);
    }
    // `if`
    let kw_if = seq![0x69u8, 0x66];
    lemma_has_sub(s, pi, ob, 0, 2);
    assert(ob.subrange(0, 2) =~= kw_if);
    lemma_classify_word(s, p, kw_if);
    assert(keyword(s, p, p + 2) == Some(Tok::KwIf));
    lemma_read(s, st, p);
    let st1 = after(s, st);
    // `(`
    lemma_skip_blank(s, p + 2);
    lemma_skip_solid(s, p + 3);
    lemma_classify_symbol(s, p + 3);
    lemma_read(s, st1, p + 3);
    let st2 = after(s, st1);
    // `c`
    lemma_skip_solid(s, p + 4);
    lemma_has_sub(s, pi, ob, 4, 5);
    assert(ob.subrange(4, 5) =~= seq![0x63u8]);
    lemma_classify_word(s, p + 4, seq![0x63u8]);
    lemma_read(s, st2, p + 4);
    let st3 = after(s, st2);
    // `[`
    lemma_skip_solid(s, p + 5);
    lemma_classify_symbol(s, p + 5);
    lemma_read(s, st3, p + 5);
    let st4 = after(s, st3);
    // `b`
    lemma_has_at(s, pi + 6, db, 0);
    lemma_skip_solid(s, p + 6);
    lemma_classify_int(s, p + 6, b as nat);
    lemma_read(s, st4, p + 6);
    let st5 = after(s, st4);
    // `]`
    lemma_skip_solid(s, m);
    lemma_classify_symbol(s, m);
    lemma_read(s, st5, m);
    let st6 = after(s, st5);
    // `==`
    lemma_skip_blank(s, m + 1);
    lemma_skip_solid(s, m + 2);
    lemma_read(s, st6, m + 2);
    let st7 = after(s, st6);
    // `1`
    lemma_skip_blank(s, m + 4);
    lemma_skip_solid(s, m + 5);
    assert(dec_bytes(1) =~= seq![0x31u8]);
    lemma_has_sub(s, mi, cb, 5, 6);
    assert(cb.subrange(5, 6) =~= seq![0x31u8]);
    lemma_classify_int(s, m + 5, 1);
    lemma_read(s, st7, m + 5);
    let st8 = after(s, st7);
    // `)`
    lemma_skip_solid(s, m + 6);
    lemma_classify_symbol(s, m + 6);
    lemma_read(s, st8, m + 6);
}

/// The statement that the emitter writes for a plain operation reads back
/// as that operation.
#[verifier::spinoff_prover]
#[verifier::rlimit(40)]
proof fn lemma_stmt(s: Seq<u8>, st: LexPos, p: nat, op: NamedOpView, d: nat)
    requires
        plain_op(op),
        op_text(op, d) is Ok,
        s.len() <= usize::MAX,
        skip_end(s, st.0) == p,
        has(s, p as int, op_b(op)),
    ensures
        peek(s, st) is Ident || peek(s, st) == Tok::KwCtrl || peek(s, st) == Tok::KwIf,
        reads_op(statement(s, st), reread(op, p), p + op_b(op).len()),
    decreases op,
{
    match op {
        OpView::Apply1 { gate, target } => {
            let g = name1_b(gate);
            let v = seq![target.0];
            assert(operands_b(v) == qref_b(target.0));
            assert(op_b(op) == g + seq![0x20u8] + operands_b(v) + seq![0x3Bu8]);
            lemma_read_call(s, st, p, g, v);
        },
        OpView::Apply2 { gate, a, b } => {
            let g = name2_b(gate);
            let v = seq![a.0, b.0];
            assert(v.drop_first() =~= seq![b.0]);
            assert(operands_b(seq![b.0]) == qref_b(b.0));
            assert(operands_b(v) == qref_b(a.0) + seq![0x2Cu8, 0x20] + qref_b(b.0));
            assert(op_b(op) =~= g + seq![0x20u8] + operands_b(v) + seq![0x3Bu8]);
            lemma_read_call(s, st, p, g, v);
        },
        OpView::Controlled { .. } => {
            lemma_stmt_controlled(s, st, p, op);
        },
        OpView::Measure { .. } => {
            lemma_stmt_measure(s, st, p, op);
        },
        OpView::IfClassic { bit, then } => {
            let inner = *then;
            let db = dec_bytes(bit.0 as nat);
            let head = if_open_b() + db + if_close_b();
            assert(op_b(op) =~= head + op_b(inner));
            lemma_has_add(s, p as int, head, op_b(inner));
            lemma_read_if_condition(s, st, p, bit.0);
            let st9 = if_condition(s, st)->Ok_0.1;
            let q = p + head.len();
            assert(st9.0 + 1 == q);
            lemma_skip_from(s, st, p);
            assert(s[q - 1] == 0x20) by {
                lemma_has_at(s, p as int, head, head.len() - 1);
            }
            lemma_op_b_starts_solid(inner);
            lemma_has_at(s, q as int, op_b(inner), 0);
            lemma_skip_blank(s, st9.0);
            lemma_skip_solid(s, q);
            lemma_stmt(s, st9, q, inner, d + 1);
            assert(if_stmt(s, st) == (match statement(s, st9) {
                Err(f) => Err(f),
                Ok((None, st2)) => Err(fault_at(s, st2, "expected statement in if body"@)),
                Ok((Some(o), st2)) => Ok(
                    (OpView::IfClassic { bit: ClassicalBit(bit.0), then: Box::new(o) }, st2),
                ),
            }));
        },
    }
}

/// The statement written for a plain operation starts with a printable byte
/// and is not empty.
proof fn lemma_op_b_starts_solid(op: NamedOpView)
    requires
        plain_op(op),
    ensures
        op_b(op).len() >= 1,
        is_solid(op_b(op)[0]),
{
    match op {
        OpView::Apply1 { gate, .. } => {
            let g = name1_b(gate);
            if rot_call(g) {
                lemma_letters_end(g, 0);
            } else {
                assert(g.subrange(0, g.len() as int) =~= g);
                lemma_gate_name(g, 0, g);
            }
        },
        OpView::Apply2 { gate, .. } => {
            let g = name2_b(gate);
            assert(g.subrange(0, g.len() as int) =~= g);
            lemma_gate_name(g, 0, g);
        },
        _ => {},
    }
}

/// The bytes of the statements the emitter writes for `ops`, each followed
/// by a line feed.
pub open spec fn ops_b(ops: Seq<NamedOpView>) -> Seq<u8>
    decreases ops.len(),
{
    if ops.len() == 0 {
        seq![]
    } else {
        ops_b(ops.drop_last()) + op_b(ops.last()) + seq![0x0Au8]
    }
}

/// `OPENQASM 3.0;` and a line feed.
pub open spec fn version_b() -> Seq<u8> {
    seq![0x4Fu8, 0x50, 0x45, 0x4E, 0x51, 0x41, 0x53, 0x4D, 0x20, 0x33, 0x2E, 0x30, 0x3B, 0x0A]
}

/// `include "stdgates.inc";` and a line feed.
pub open spec fn include_b() -> Seq<u8> {
    seq![
        0x69u8, 0x6E, 0x63, 0x6C, 0x75, 0x64, 0x65, 0x20, 0x22, 0x73, 0x74, 0x64, 0x67, 0x61,
        0x74, 0x65, 0x73, 0x2E, 0x69, 0x6E, 0x63, 0x22, 0x3B, 0x0A,
    ]
}

/// `qubit[n] q;` and a line feed.
pub open spec fn qubit_decl_b(n: nat) -> Seq<u8> {
    seq![0x71u8, 0x75, 0x62, 0x69, 0x74, 0x5B] + dec_bytes(n) + seq![0x5Du8, 0x20, 0x71, 0x3B, 0x0A]
}

/// `bit[n] c;` and a line feed.
pub open spec fn bit_decl_b(n: nat) -> Seq<u8> {
    seq![0x62u8, 0x69, 0x74, 0x5B] + dec_bytes(n) + seq![0x5Du8, 0x20, 0x63, 0x3B, 0x0A]
}

/// The bytes of the header the emitter writes.
pub open spec fn header_b(nq: usize, nc: usize) -> Seq<u8> {
    version_b() + include_b() + (if nq > 0 {
        qubit_decl_b(nq as nat)
    } else {
        seq![]
    }) + (if nc > 0 {
        bit_decl_b(nc as nat)
    } else {
        seq![]
    }) + seq![0x0Au8]
}

/// The header text is ASCII, and its bytes are [`header_b`].
proof fn lemma_header_bytes(nq: usize, nc: usize)
    ensures
        ascii_bytes(header_text(nq, nc)) == header_b(nq, nc),
        is_ascii_chars(header_text(nq, nc)),
{
    let v = "OPENQASM 3.0;\n"@;
    let i = "include \"stdgates.inc\";\n"@;
    let nl = "\n"@;
    reveal_strlit("OPENQASM 3.0;\n");
    reveal_strlit("include \"stdgates.inc\";\n");
    reveal_strlit("\n");
    reveal_strlit("qubit[");
    reveal_strlit("] q;\n");
    reveal_strlit("bit[");
    reveal_strlit("] c;\n");
    assert(ascii_bytes(v) =~= version_b());
    assert(ascii_bytes(i) =~= include_b());
    assert(ascii_bytes(nl) =~= seq![0x0Au8]);
    let qd = if nq > 0 {
        "qubit["@ + decimal(nq as nat) + "] q;\n"@
    } else {
        seq![]
    };
    let bd = if nc > 0 {
        "bit["@ + decimal(nc as nat) + "] c;\n"@
    } else {
        seq![]
    };
    if nq > 0 {
        lemma_decimal_ascii(nq as nat);
        lemma_ascii_cat("qubit["@, decimal(nq as nat));
        lemma_ascii_cat("qubit["@ + decimal(nq as nat), "] q;\n"@);
        assert(ascii_bytes("qubit["@) =~= seq![0x71u8, 0x75, 0x62, 0x69, 0x74, 0x5B]);
        assert(ascii_bytes("] q;\n"@) =~= seq![0x5Du8, 0x20, 0x71, 0x3B, 0x0A]);
    } else {
        assert(ascii_bytes(qd) =~= seq![]);
    }
    if nc > 0 {
        lemma_decimal_ascii(nc as nat);
        lemma_ascii_cat("bit["@, decimal(nc as nat));
        lemma_ascii_cat("bit["@ + decimal(nc as nat), "] c;\n"@);
        assert(ascii_bytes("bit["@) =~= seq![0x62u8, 0x69, 0x74, 0x5B]);
        assert(ascii_bytes("] c;\n"@) =~= seq![0x5Du8, 0x20, 0x63, 0x3B, 0x0A]);
    } else {
        assert(ascii_bytes(bd) =~= seq![]);
    }
    lemma_ascii_cat(v, i);
    lemma_ascii_cat(v + i, qd);
    lemma_ascii_cat(v + i + qd, bd);
    lemma_ascii_cat(v + i + qd + bd, nl);
}

/// The statements written for plain operations are ASCII, and their bytes
/// are [`ops_b`].
proof fn lemma_ops_bytes(ops: Seq<NamedOpView>)
    requires
        forall|k: int| 0 <= k < ops.len() ==> plain_op(#[trigger] ops[k]),
        ops_text(ops) is Ok,
    ensures
        ascii_bytes(ops_text(ops)->Ok_0) == ops_b(ops),
        is_ascii_chars(ops_text(ops)->Ok_0),
        forall|k: int| 0 <= k < ops.len() ==> op_text(#[trigger] ops[k], 0) is Ok,
    decreases ops.len(),
{
    if ops.len() > 0 {
        let init = ops.drop_last();
        assert forall|k: int| 0 <= k < init.len() implies plain_op(#[trigger] init[k]) by {
            assert(init[k] == ops[k]);
        }
        lemma_ops_bytes(init);
        let t = ops_text(init)->Ok_0;
        let u = op_text(ops.last(), 0)->Ok_0;
        lemma_op_bytes(ops.last(), 0);
        reveal_strlit("\n");
        assert(ascii_bytes("\n"@) =~= seq![0x0Au8]);
        lemma_ascii_cat(t, u);
        lemma_ascii_cat(t + u, "\n"@);
        assert forall|k: int| 0 <= k < ops.len() implies op_text(#[trigger] ops[k], 0) is Ok by {
            if k < init.len() {
                assert(init[k] == ops[k]);
            }
        }
    }
}

proof fn lemma_find_quote(s: Seq<u8>, a: nat, b: nat)
    requires
        a <= b < s.len(),
        s[b as int] == 0x22,
        forall|i: int| a <= i < b ==> s[i] != 0x22,
    ensures
        find_byte(s, a, 0x22) == b,
    decreases b - a,
{
    if a < b {
        lemma_find_quote(s, a + 1, b);
    }
}

/// `OPENQASM 3.0;` and `include "stdgates.inc";` at the start read as the
/// header, which ends at the `;` of the include.
#[verifier::spinoff_prover]
#[verifier::rlimit(40)]
proof fn lemma_read_preamble(s: Seq<u8>)
    requires
        s.len() <= usize::MAX,
        has(s, 0, version_b() + include_b()),
        s.len() > 38,
    ensures
        header(s, (0, 1, 1)) is Ok,
        header(s, (0, 1, 1))->Ok_0.0 == 37,
{
    let w = version_b() + include_b();
    assert forall|k: int| 0 <= k < 38 implies s[k] == #[trigger] w[k] by {
        lemma_has_at(s, 0, w, k);
    }
    let st0: LexPos = (0, 1, 1);
    // `OPENQASM`
    let kw = seq![0x4Fu8, 0x50, 0x45, 0x4E, 0x51, 0x41, 0x53, 0x4D];
    lemma_has_sub(s, 0, w, 0, 8);
    assert(w.subrange(0, 8) =~= kw);
    assert(s[0] == 0x4F && s[8] == 0x20 && s[9] == 0x33 && s[10] == 0x2E && s[11] == 0x30 && s[12]
        == 0x3B && s[13] == 0x0A) by {
        assert(w[0] == 0x4F && w[8] == 0x20 && w[9] == 0x33 && w[10] == 0x2E && w[11] == 0x30
            && w[12] == 0x3B && w[13] == 0x0A);
    }
    assert(s[14] == 0x69 && s[21] == 0x20 && s[22] == 0x22 && s[35] == 0x22 && s[36] == 0x3B
        && s[37] == 0x0A) by {
        assert(w[14] == 0x69 && w[21] == 0x20 && w[22] == 0x22 && w[35] == 0x22 && w[36] == 0x3B
            && w[37] == 0x0A);
    }
    assert forall|k: int| 23 <= k < 35 implies s[k] != 0x22 by {
        assert(w[k] == include_b()[k - 14]);
    }
    assert(is_solid(s[0]));
    lemma_skip_solid(s, 0);
    lemma_classify_word(s, 0, kw);
    assert(keyword(s, 0, 8) == Some(Tok::KwOpenQasm));
    lemma_read(s, st0, 0);
    let st1 = after(s, st0);
    // `3.0`
    lemma_skip_blank(s, 8);
    lemma_skip_solid(s, 9);
    lemma_digit_run(s, 9, 10);
    lemma_digit_run(s, 11, 12);
    assert(has_float_mark(s, 9, 12)) by {
        assert(9 <= 10 < 12 && s[10] == 0x2E);
    }
    assert(classify(s, 9).1 == 12);
    assert(classify(s, 9).0 is Float);
    lemma_read(s, st1, 9);
    let st1b = after(s, st1);
    // `;`
    lemma_skip_solid(s, 12);
    lemma_classify_symbol(s, 12);
    lemma_read(s, st1b, 12);
    let st2 = after(s, st1b);
    // `include`
    let inc = seq![0x69u8, 0x6E, 0x63, 0x6C, 0x75, 0x64, 0x65];
    lemma_skip_blank(s, 13);
    lemma_skip_solid(s, 14);
    lemma_has_sub(s, 0, w, 14, 21);
    assert(w.subrange(14, 21) =~= inc);
    lemma_classify_word(s, 14, inc);
    assert(keyword(s, 14, 21) == Some(Tok::KwInclude));
    lemma_read(s, st2, 14);
    let st3 = after(s, st2);
    // the file name
    lemma_skip_blank(s, 21);
    lemma_skip_solid(s, 22);
    lemma_find_quote(s, 23, 35);
    lemma_read(s, st3, 22);
    let st4 = after(s, st3);
    assert(st4.0 == 36);
    // `;`
    lemma_skip_solid(s, 36);
    lemma_classify_symbol(s, 36);
    lemma_read(s, st4, 36);
}

/// `kw[n] r;` and a line feed.
pub open spec fn decl_b(kw: Seq<u8>, n: nat, r: u8) -> Seq<u8> {
    kw + seq![0x5Bu8] + dec_bytes(n) + seq![0x5Du8, 0x20, r, 0x3B, 0x0A]
}

/// A register declaration `kw[n] r;` reads as the size `n`, ending at its
/// `;`.
#[verifier::spinoff_prover]
#[verifier::rlimit(40)]
proof fn lemma_read_decl(s: Seq<u8>, st: LexPos, p: nat, kw: Seq<u8>, n: usize, r: u8, what: Seq<char>)
    requires
        kw == seq![0x71u8, 0x75, 0x62, 0x69, 0x74] || kw == seq![0x62u8, 0x69, 0x74],
        is_alpha(r),
        s.len() <= usize::MAX,
        skip_end(s, st.0) == p,
        has(s, p as int, decl_b(kw, n as nat, r)),
    ensures
        peek(s, st) == (if kw.len() == 5 {
            Tok::KwQubit
        } else {
            Tok::KwBit
        }),
        register_decl(s, st, what) is Ok,
        register_decl(s, st, what)->Ok_0.0 == n,
        register_decl(s, st, what)->Ok_0.1.0 == p + decl_b(kw, n as nat, r).len() - 1,
{
    let w = decl_b(kw, n as nat, r);
    let d = dec_bytes(n as nat);
    let k = kw.len();
    let pi = p as int;
    let tail = seq![0x5Du8, 0x20, r, 0x3B, 0x0A];
    lemma_dec_bytes_digits(n as nat);
    lemma_has_add(s, pi, kw + seq![0x5Bu8] + d, tail);
    lemma_has_add(s, pi, kw + seq![0x5Bu8], d);
    lemma_has_add(s, pi, kw, seq![0x5Bu8]);
    lemma_has_at(s, pi + k, seq![0x5Bu8], 0);
    lemma_has_at(s, pi + k + 1, d, 0);
    let m = p + k + 1 + d.len();
    let mi = m as int;
    assert forall|j: int| 0 <= j < 5 implies s[mi + j] == #[trigger] tail[j] by {
        lemma_has_at(s, mi, tail, j);
    }
    assert(s[mi] == 0x5D && s[mi + 1] == 0x20 && s[mi + 2] == r && s[mi + 3] == 0x3B) by {
        assert(tail[0] == 0x5D && tail[1] == 0x20 && tail[2] == r && tail[3] == 0x3B);
    }
    // the keyword
    lemma_classify_word(s, p, kw);
    if kw.len() == 5 {
        assert(kw[0] != seq![0x69u8, 0x6E, 0x63, 0x6C, 0x75, 0x64, 0x65][0]);
        assert(keyword(s, p, p + 5) == Some(Tok::KwQubit));
    } else {
        assert(keyword(s, p, p + 3) == Some(Tok::KwBit));
    }
    lemma_read(s, st, p);
    let st0 = after(s, st);
    // `[`
    lemma_skip_solid(s, p + k);
    lemma_classify_symbol(s, p + k);
    lemma_read(s, st0, p + k);
    let st1 = after(s, st0);
    // `n`
    lemma_skip_solid(s, p + k + 1);
    lemma_classify_int(s, p + k + 1, n as nat);
    lemma_read(s, st1, p + k + 1);
    let st2 = after(s, st1);
    // `]`
    lemma_skip_solid(s, m);
    lemma_classify_symbol(s, m);
    lemma_read(s, st2, m);
    let st3 = after(s, st2);
    // the register name
    lemma_skip_blank(s, m + 1);
    lemma_skip_solid(s, m + 2);
    lemma_has_sub(s, mi, tail, 2, 3);
    assert(tail.subrange(2, 3) =~= seq![r]);
    lemma_classify_word(s, m + 2, seq![r]);
    lemma_read(s, st3, m + 2);
    let st4 = after(s, st3);
    // `;`
    lemma_skip_solid(s, m + 3);
    lemma_classify_symbol(s, m + 3);
    lemma_read(s, st4, m + 3);
}

proof fn lemma_rest_eof(s: Seq<u8>, st: LexPos, nq: usize, nc: usize, ops: Seq<ParsedOp>)
    requires
        peek(s, st) == Tok::Eof,
    ensures
        program_rest(s, st, nq, nc, ops) == Ok::<(usize, usize, Seq<ParsedOp>), Fault>((nq, nc, ops)),
{
}

proof fn lemma_rest_decl(s: Seq<u8>, st: LexPos, nq: usize, nc: usize, ops: Seq<ParsedOp>)
    requires
        peek(s, st) == Tok::KwQubit || peek(s, st) == Tok::KwBit,
        peek(s, st) == Tok::KwQubit ==> qubit_decl(s, st) is Ok && advances(
            s,
            st,
            qubit_decl(s, st)->Ok_0.1,
        ),
        peek(s, st) == Tok::KwBit ==> bit_decl(s, st) is Ok && advances(
            s,
            st,
            bit_decl(s, st)->Ok_0.1,
        ),
    ensures
        peek(s, st) == Tok::KwQubit ==> program_rest(s, st, nq, nc, ops) == program_rest(
            s,
            qubit_decl(s, st)->Ok_0.1,
            qubit_decl(s, st)->Ok_0.0,
            nc,
            ops,
        ),
        peek(s, st) == Tok::KwBit ==> program_rest(s, st, nq, nc, ops) == program_rest(
            s,
            bit_decl(s, st)->Ok_0.1,
            nq,
            bit_decl(s, st)->Ok_0.0,
            ops,
        ),
{
}

proof fn lemma_rest_stmt(s: Seq<u8>, st: LexPos, nq: usize, nc: usize, ops: Seq<ParsedOp>, o: ParsedOp, e: nat)
    requires
        peek(s, st) is Ident || peek(s, st) == Tok::KwCtrl || peek(s, st) == Tok::KwIf,
        reads_op(statement(s, st), o, e),
        st.0 < e <= s.len(),
    ensures
        program_rest(s, st, nq, nc, ops) == program_rest(
            s,
            statement(s, st)->Ok_0.1,
            nq,
            nc,
            ops.push(o),
        ),
        statement(s, st)->Ok_0.1.0 == e,
{
}

/// Where the statement for `ops[j]` stands in [`ops_b`]: after the
/// statements before it, and followed by a line feed.
proof fn lemma_ops_window(s: Seq<u8>, h: int, ops: Seq<NamedOpView>, j: int)
    requires
        has(s, h, ops_b(ops)),
        0 <= j < ops.len(),
    ensures
        has(s, h + ops_b(ops.take(j)).len(), op_b(ops[j])),
        s[h + ops_b(ops.take(j)).len() + op_b(ops[j]).len()] == 0x0A,
        ops_b(ops.take(j + 1)).len() == ops_b(ops.take(j)).len() + op_b(ops[j]).len() + 1,
        has(s, h, ops_b(ops.take(j + 1))),
    decreases ops.len() - j,
{
    let t1 = ops.take(j + 1);
    if j + 1 == ops.len() {
        assert(t1 =~= ops);
    } else {
        lemma_ops_window(s, h, ops, j + 1);
        let t2 = ops.take(j + 2);
        assert(t2.drop_last() =~= t1);
        lemma_has_add(s, h, ops_b(t1) + op_b(t2.last()), seq![0x0Au8]);
        lemma_has_add(s, h, ops_b(t1), op_b(t2.last()));
    }
    assert(t1.drop_last() =~= ops.take(j));
    assert(t1.last() == ops[j]);
    let a = ops_b(ops.take(j));
    let b = op_b(ops[j]);
    assert(ops_b(t1) == a + b + seq![0x0Au8]);
    lemma_has_add(s, h, a + b, seq![0x0Au8]);
    lemma_has_add(s, h, a, b);
    lemma_has_at(s, h + a.len() + b.len(), seq![0x0Au8], 0);
}

/// What the parser reads back for a list of emitted plain operations whose
/// statements start at byte `h`.
pub open spec fn reread_all(ops: Seq<NamedOpView>, h: nat) -> Seq<ParsedOp> {
    Seq::new(ops.len(), |k: int| reread(ops[k], h + ops_b(ops.take(k)).len()))
}

/// From the statement for `ops[k]` on, the rest of the emitted program
/// reads back as the remaining operations.
proof fn lemma_read_ops(
    s: Seq<u8>,
    h: nat,
    ops: Seq<NamedOpView>,
    k: nat,
    st: LexPos,
    nq: usize,
    nc: usize,
)
    requires
        forall|j: int| 0 <= j < ops.len() ==> plain_op(#[trigger] ops[j]),
        forall|j: int| 0 <= j < ops.len() ==> op_text(#[trigger] ops[j], 0) is Ok,
        has(s, h as int, ops_b(ops)),
        s.len() == h + ops_b(ops).len(),
        s.len() <= usize::MAX,
        k <= ops.len(),
        skip_end(s, st.0) == h + ops_b(ops.take(k as int)).len(),
    ensures
        program_rest(s, st, nq, nc, reread_all(ops, h).take(k as int)) == Ok::<
            (usize, usize, Seq<ParsedOp>),
            Fault,
        >((nq, nc, reread_all(ops, h))),
    decreases ops.len() - k,
{
    let p = h + ops_b(ops.take(k as int)).len();
    if k == ops.len() {
        assert(ops.take(k as int) =~= ops);
        assert(reread_all(ops, h).take(k as int) =~= reread_all(ops, h));
        lemma_read_end(s, st);
        lemma_rest_eof(s, st, nq, nc, reread_all(ops, h));
    } else {
        let op = ops[k as int];
        lemma_ops_window(s, h as int, ops, k as int);
        lemma_stmt(s, st, p, op, 0);
        let e = p + op_b(op).len();
        lemma_skip_from(s, st, p);
        lemma_op_b_starts_solid(op);
        lemma_rest_stmt(s, st, nq, nc, reread_all(ops, h).take(k as int), reread(op, p), e);
        let st1 = statement(s, st)->Ok_0.1;
        assert(reread_all(ops, h).take(k as int).push(reread(op, p)) =~= reread_all(ops, h).take(
            k + 1 as int,
        ));
        lemma_skip_blank(s, e);
        if k + 1 < ops.len() {
            let k1 = (k + 1) as int;
            lemma_ops_window(s, h as int, ops, k1);
            lemma_op_b_starts_solid(ops[k1]);
            lemma_has_at(s, (e + 1) as int, op_b(ops[k1]), 0);
            lemma_skip_solid(s, e + 1);
        } else {
            assert(ops.take(k + 1 as int) =~= ops);
            lemma_skip_at_end(s);
        }
        lemma_read_ops(s, h, ops, k + 1, st1, nq, nc);
    }
}

/// The bytes of the text the emitter writes for a circuit of plain
/// operations: ASCII, and the header followed by the statements.
proof fn lemma_program_bytes(ops: Seq<NamedOpView>, nq: usize, nc: usize)
    requires
        forall|k: int| 0 <= k < ops.len() ==> plain_op(#[trigger] ops[k]),
        program_text(ops, nq, nc) is Ok,
    ensures
        encode_utf8(program_text(ops, nq, nc)->Ok_0) == header_b(nq, nc) + ops_b(ops),
        forall|k: int| 0 <= k < ops.len() ==> op_text(#[trigger] ops[k], 0) is Ok,
{
    let t = program_text(ops, nq, nc)->Ok_0;
    lemma_header_bytes(nq, nc);
    lemma_ops_bytes(ops);
    lemma_ascii_cat(header_text(nq, nc), ops_text(ops)->Ok_0);
    is_ascii_chars_encode_utf8(t);
    assert(encode_utf8(t) =~= ascii_bytes(t));
}

/// The header the emitter writes reads as its register sizes; the program
/// goes on after the blank line that ends it.
#[verifier::spinoff_prover]
#[verifier::rlimit(60)]
proof fn lemma_read_head(s: Seq<u8>, nq: usize, nc: usize) -> (st_b: LexPos)
    requires
        has(s, 0, header_b(nq, nc)),
        s.len() <= usize::MAX,
    ensures
        st_b.0 + 2 == header_b(nq, nc).len(),
        s[st_b.0 as int] == 0x0A,
        s[st_b.0 + 1 as int] == 0x0A,
        program(s) == program_rest(s, st_b, nq, nc, seq![]),
{
    let hb = header_b(nq, nc);
    let h = hb.len();
    let qd = if nq > 0 {
        qubit_decl_b(nq as nat)
    } else {
        seq![]
    };
    let bd = if nc > 0 {
        bit_decl_b(nc as nat)
    } else {
        seq![]
    };
    let pre = version_b() + include_b();
    assert(hb == pre + qd + bd + seq![0x0Au8]);
    lemma_has_add(s, 0, pre + qd + bd, seq![0x0Au8]);
    lemma_has_add(s, 0, pre + qd, bd);
    lemma_has_add(s, 0, pre, qd);
    lemma_read_preamble(s);
    let st_h = header(s, (0, 1, 1))->Ok_0;
    assert(s[37] == 0x0A) by {
        lemma_has_at(s, 0, pre, 37);
    }
    // the qubit register
    let b0 = pre.len() + qd.len();
    let st_q: LexPos = if nq > 0 {
        let qw = seq![0x71u8, 0x75, 0x62, 0x69, 0x74];
        assert(qd =~= decl_b(qw, nq as nat, 0x71));
        lemma_has_at(s, 38, qd, 0);
        lemma_skip_blank(s, 37);
        lemma_skip_solid(s, 38);
        lemma_read_decl(s, st_h, 38, qw, nq, 0x71, "expected qubit register name"@);
        lemma_rest_decl(s, st_h, 0, 0, seq![]);
        qubit_decl(s, st_h)->Ok_0.1
    } else {
        st_h
    };
    assert(st_q.0 + 1 == b0);
    assert(program_rest(s, st_h, 0, 0, seq![]) == program_rest(s, st_q, nq, 0, seq![]));
    assert(s[b0 - 1] == 0x0A) by {
        if nq > 0 {
            lemma_has_at(s, pre.len() as int, qd, qd.len() - 1);
        }
    }
    // the classical register
    let st_b: LexPos = if nc > 0 {
        let bw = seq![0x62u8, 0x69, 0x74];
        assert(bd =~= decl_b(bw, nc as nat, 0x63));
        lemma_has_at(s, b0 as int, bd, 0);
        lemma_skip_blank(s, st_q.0);
        lemma_skip_solid(s, b0);
        lemma_read_decl(s, st_q, b0, bw, nc, 0x63, "expected classical register name"@);
        lemma_rest_decl(s, st_q, nq, 0, seq![]);
        bit_decl(s, st_q)->Ok_0.1
    } else {
        st_q
    };
    assert(program_rest(s, st_q, nq, 0, seq![]) == program_rest(s, st_b, nq, nc, seq![]));
    assert(s[h - 2] == 0x0A && s[h - 1] == 0x0A) by {
        if nc > 0 {
            lemma_has_at(s, b0 as int, bd, bd.len() - 1);
        }
        lemma_has_at(s, 0, hb, h - 1);
    }
    st_b
}

/// Emitting a circuit whose gates carry `stdgates.inc` call texts (a bare
/// name, or a rotation with a decimal angle literal) and parsing the text
/// back gives the same qubit and classical-bit counts and the same
/// operations, each gate read as the table entry its name selects and each
/// angle as the literal at its place in the text.
pub proof fn law_emit_then_parse(ops: Seq<NamedOpView>, nq: usize, nc: usize)
    requires
        forall|k: int| 0 <= k < ops.len() ==> plain_op(#[trigger] ops[k]),
        program_text(ops, nq, nc) is Ok,
        encode_utf8(program_text(ops, nq, nc)->Ok_0).len() <= usize::MAX,
    ensures
        program(encode_utf8(program_text(ops, nq, nc)->Ok_0)) == Ok::<
            (usize, usize, Seq<ParsedOp>),
            Fault,
        >((nq, nc, reread_all(ops, header_b(nq, nc).len()))),
{
    lemma_program_bytes(ops, nq, nc);
    let hb = header_b(nq, nc);
    let s = hb + ops_b(ops);
    assert(s.len() <= usize::MAX);
    let h = hb.len();
    assert(s.subrange(0, h as int) =~= hb);
    assert(s.subrange(h as int, s.len() as int) =~= ops_b(ops));
    let st_b = lemma_read_head(s, nq, nc);
    lemma_skip_blank(s, st_b.0);
    lemma_skip_blank(s, st_b.0 + 1);
    assert(ops.take(0) =~= seq![]);
    assert(reread_all(ops, h).take(0) =~= seq![]);
    if ops.len() > 0 {
        lemma_ops_window(s, h as int, ops, 0);
        lemma_op_b_starts_solid(ops[0]);
        lemma_has_at(s, h as int, op_b(ops[0]), 0);
        lemma_skip_solid(s, h);
    } else {
        lemma_skip_at_end(s);
    }
    lemma_read_ops(s, h, ops, 0, st_b, nq, nc);
}

/// The end of the run of letters in `b` from `i`.
pub open spec fn letters_end(b: Seq<u8>, i: nat) -> nat
    decreases b.len() - i,
{
    if i < b.len() && is_alpha(b[i as int]) {
        letters_end(b, i + 1)
    } else {
        i
    }
}

/// A decimal literal with a fraction: digits, `.`, digits.
pub open spec fn float_lit(r: Seq<u8>) -> bool {
    let i = digits_end(r, 0);
    &&& 1 <= i
    &&& i + 1 < r.len()
    &&& r[i as int] == 0x2E
    &&& digits_end(r, i + 1) == r.len()
}

/// An angle literal: a decimal literal with a fraction, maybe after `-`.
pub open spec fn angle_lit(a: Seq<u8>) -> bool {
    float_lit(a) || (a.len() >= 1 && a[0] == 0x2D && float_lit(a.drop_first()))
}

/// The expression an angle literal at byte `at` reads as.
pub open spec fn angle_expr(a: Seq<u8>, at: nat) -> Expr {
    if float_lit(a) {
        Expr::Num(at as usize, (at + a.len()) as usize)
    } else {
        Expr::Neg(Box::new(Expr::Num((at + 1) as usize, (at + a.len()) as usize)))
    }
}

/// The call text of a rotation: a table name that takes one argument,
/// then the angle literal in parentheses.
pub open spec fn rot_call(b: Seq<u8>) -> bool {
    let n = letters_end(b, 0);
    &&& 1 <= n
    &&& n + 2 < b.len()
    &&& b[n as int] == 0x28
    &&& b.last() == 0x29
    &&& angle_lit(b.subrange(n + 1 as int, b.len() - 1 as int))
    &&& gate1_of(b.take(n as int), seq![Expr::Pi]) is Some
}

proof fn lemma_digits_end_window(s: Seq<u8>, p: nat, r: Seq<u8>, i: nat)
    requires
        has(s, p as int, r),
        i <= digits_end(r, i) == r.len(),
        p + r.len() == s.len() || !is_digit(s[(p + r.len()) as int]),
    ensures
        digits_end(s, p + i) == p + r.len(),
    decreases r.len() - i,
{
    if i < r.len() {
        lemma_has_at(s, p as int, r, i as int);
        lemma_digits_end_window(s, p, r, i + 1);
    }
}

/// A decimal literal with a fraction, followed by a byte that continues no
/// number, reads as a float token.
proof fn lemma_classify_float(s: Seq<u8>, p: nat, r: Seq<u8>)
    requires
        has(s, p as int, r),
        float_lit(r),
        p + r.len() < s.len(),
        !is_digit(s[(p + r.len()) as int]),
        s[(p + r.len()) as int] != 0x2E,
        s[(p + r.len()) as int] != 0x65,
        s[(p + r.len()) as int] != 0x45,
    ensures
        classify(s, p) == (Tok::Float(p as usize, (p + r.len()) as usize), p + r.len()),
{
    let i = digits_end(r, 0);
    lemma_digits_end_bounds(r, 0);
    lemma_digits_end_bounds(r, i + 1);
    lemma_has_at(s, p as int, r, i as int);
    lemma_has_at(s, p as int, r, 0);
    assert forall|k: int| p <= k < p + i implies is_digit(#[trigger] s[k]) by {
        lemma_has_at(s, p as int, r, k - p);
    }
    lemma_digit_run(s, p, p + i);
    lemma_digits_end_window(s, p, r, i + 1);
    assert(has_float_mark(s, p, p + r.len())) by {
        assert(p <= p + i < p + r.len() && s[(p + i) as int] == 0x2E);
    }
}

proof fn lemma_unfold_primary(s: Seq<u8>, st: LexPos)
    requires
        peek(s, st) is Float,
    ensures
        primary(s, st) == Ok::<(Expr, LexPos), Fault>(
            (Expr::Num(peek(s, st)->Float_0, peek(s, st)->Float_1), after(s, st)),
        ),
{
}

proof fn lemma_unfold_unary(s: Seq<u8>, st: LexPos)
    ensures
        peek(s, st) == Tok::Minus ==> unary(s, st) == (match primary(s, after(s, st)) {
            Err(f) => Err(f),
            Ok((e, st1)) => Ok((Expr::Neg(Box::new(e)), st1)),
        }),
        peek(s, st) != Tok::Minus && peek(s, st) != Tok::Plus ==> unary(s, st) == primary(s, st),
{
}

proof fn lemma_unfold_multiplicative(s: Seq<u8>, st: LexPos)
    ensures
        multiplicative(s, st) == (match unary(s, st) {
            Err(f) => Err(f),
            Ok((lhs, st1)) => if advances(s, st, st1) {
                multiplicative_rest(s, st1, lhs)
            } else {
                Ok((lhs, st1))
            },
        }),
{
}

proof fn lemma_unfold_additive(s: Seq<u8>, st: LexPos)
    ensures
        expr(s, st) == additive(s, st),
        additive(s, st) == (match multiplicative(s, st) {
            Err(f) => Err(f),
            Ok((lhs, st1)) => if advances(s, st, st1) {
                additive_rest(s, st1, lhs)
            } else {
                Ok((lhs, st1))
            },
        }),
{
}

proof fn lemma_rests_stop(s: Seq<u8>, st: LexPos, lhs: Expr)
    requires
        peek(s, st) == Tok::RParen,
    ensures
        multiplicative_rest(s, st, lhs) == Ok::<(Expr, LexPos), Fault>((lhs, st)),
        additive_rest(s, st, lhs) == Ok::<(Expr, LexPos), Fault>((lhs, st)),
{
}

/// An angle literal followed by `)` reads as its expression, stopping at
/// the `)`.
#[verifier::spinoff_prover]
#[verifier::rlimit(40)]
proof fn lemma_read_angle(s: Seq<u8>, st: LexPos, p: nat, a: Seq<u8>)
    requires
        s.len() <= usize::MAX,
        skip_end(s, st.0) == p,
        has(s, p as int, a),
        angle_lit(a),
        p + a.len() < s.len(),
        s[(p + a.len()) as int] == 0x29,
    ensures
        expr(s, st) is Ok,
        expr(s, st)->Ok_0.0 == angle_expr(a, p),
        expr(s, st)->Ok_0.1.0 == p + a.len(),
        peek(s, expr(s, st)->Ok_0.1) == Tok::RParen,
        peek(s, st) != Tok::RParen && peek(s, st) != Tok::Comma,
{
    let e = p + a.len();
    lemma_skip_from(s, st, p);
    let st1: LexPos;
    if float_lit(a) {
        lemma_has_at(s, p as int, a, 0);
        lemma_digits_end_bounds(a, 0);
        lemma_skip_solid(s, p);
        lemma_classify_float(s, p, a);
        lemma_read(s, st, p);
        lemma_unfold_unary(s, st);
        lemma_unfold_primary(s, st);
        st1 = after(s, st);
    } else {
        let r = a.drop_first();
        lemma_has_at(s, p as int, a, 0);
        assert(a =~= seq![0x2Du8] + r);
        lemma_has_add(s, p as int, seq![0x2Du8], r);
        lemma_has_at(s, (p + 1) as int, r, 0);
        lemma_digits_end_bounds(r, 0);
        lemma_skip_solid(s, p);
        lemma_classify_symbol(s, p);
        lemma_read(s, st, p);
        let stm = after(s, st);
        lemma_skip_solid(s, p + 1);
        lemma_classify_float(s, p + 1, r);
        lemma_read(s, stm, p + 1);
        lemma_unfold_unary(s, st);
        lemma_unfold_primary(s, stm);
        st1 = after(s, stm);
    }
    assert(unary(s, st) == Ok::<(Expr, LexPos), Fault>((angle_expr(a, p), st1)));
    assert(st1.0 == e);
    lemma_skip_solid(s, e);
    lemma_classify_symbol(s, e);
    lemma_read(s, st1, e);
    lemma_rests_stop(s, st1, angle_expr(a, p));
    lemma_unfold_multiplicative(s, st);
    lemma_unfold_additive(s, st);
}

/// A call text the emitter may write: a bare name of the table, or a
/// rotation with its angle.
pub open spec fn call1(g: Seq<u8>) -> bool {
    gate1_of(g, seq![]) is Some || gate2_of(g) is Some || rot_call(g)
}

/// The name part of a call text.
pub open spec fn call_name(g: Seq<u8>) -> Seq<u8> {
    if rot_call(g) {
        g.take(letters_end(g, 0) as int)
    } else {
        g
    }
}

/// The angle literal of a rotation's call text.
pub open spec fn call_angle(g: Seq<u8>) -> Seq<u8> {
    g.subrange(letters_end(g, 0) + 1 as int, g.len() - 1 as int)
}

/// The arguments a call text at byte `p` reads as.
pub open spec fn call_args(g: Seq<u8>, p: nat) -> Seq<Expr> {
    if rot_call(g) {
        seq![angle_expr(call_angle(g), p + letters_end(g, 0) + 1)]
    } else {
        seq![]
    }
}

/// The single-qubit gate a call text at byte `p` reads as.
pub open spec fn call_gate1(g: Seq<u8>, p: nat) -> NamedGate1 {
    gate1_of(call_name(g), call_args(g, p))->0
}

proof fn lemma_letters_end(b: Seq<u8>, i: nat)
    requires
        i <= b.len(),
    ensures
        i <= letters_end(b, i) <= b.len(),
        forall|j: int| i <= j < letters_end(b, i) ==> is_alpha(#[trigger] b[j]),
        letters_end(b, i) < b.len() ==> !is_alpha(b[letters_end(b, i) as int]),
    decreases b.len() - i,
{
    if i < b.len() && is_alpha(b[i as int]) {
        lemma_letters_end(b, i + 1);
    }
}

proof fn lemma_unfold_arg_rest(s: Seq<u8>, st: LexPos, args: Seq<Expr>)
    ensures
        peek(s, st) == Tok::RParen ==> arg_rest(s, st, args) == Ok::<(Seq<Expr>, LexPos), Fault>(
            (args, after(s, st)),
        ),
        peek(s, st) != Tok::RParen && peek(s, st) != Tok::Comma ==> arg_rest(s, st, args) == (
        match expr(s, st) {
            Err(f) => Err(f),
            Ok((e, st1)) => if advances(s, st, st1) {
                arg_rest(s, st1, args.push(e))
            } else {
                Ok((args.push(e), st1))
            },
        }),
{
}

/// A call text followed by a space and `q`: its name reads as a name and
/// its arguments as [`call_args`], ending at the space.
#[verifier::spinoff_prover]
#[verifier::rlimit(40)]
proof fn lemma_read_call_head(s: Seq<u8>, st: LexPos, p: nat, g: Seq<u8>)
    requires
        call1(g),
        s.len() <= usize::MAX,
        skip_end(s, st.0) == p,
        has(s, p as int, g),
        p + g.len() + 1 < s.len(),
        s[(p + g.len()) as int] == 0x20,
        s[p + g.len() + 1 as int] == 0x71,
    ensures
        peek(s, st) is Ident,
        name_of(s, peek(s, st)) == call_name(g),
        call_name(g) != reset_word() && call_name(g) != barrier_word(),
        after(s, st).0 == p + call_name(g).len(),
        arg_list(s, after(s, st)) is Ok,
        arg_list(s, after(s, st))->Ok_0.0 == call_args(g, p),
        arg_list(s, after(s, st))->Ok_0.1.0 == p + g.len(),
        gate1_of(g, seq![]) is Some || rot_call(g) ==> gate1_of(call_name(g), call_args(g, p)) is Some,
{
    let k = g.len();
    lemma_skip_blank(s, p + k);
    lemma_skip_solid(s, p + k + 1);
    if !rot_call(g) {
        lemma_gate_name(s, p, g);
        lemma_classify_word(s, p, g);
        lemma_read(s, st, p);
        let st1 = after(s, st);
        lemma_read(s, st1, p + k + 1);
    } else {
        let n = letters_end(g, 0);
        let name = g.take(n as int);
        let a = call_angle(g);
        lemma_letters_end(g, 0);
        assert(g =~= name + seq![0x28u8] + a + seq![0x29u8]);
        lemma_has_add(s, p as int, name + seq![0x28u8] + a, seq![0x29u8]);
        lemma_has_add(s, p as int, name + seq![0x28u8], a);
        lemma_has_add(s, p as int, name, seq![0x28u8]);
        lemma_has_at(s, (p + n) as int, seq![0x28u8], 0);
        lemma_has_at(s, (p + n + 1 + a.len()) as int, seq![0x29u8], 0);
        lemma_gate_name(s, p, name);
        lemma_classify_word(s, p, name);
        lemma_read(s, st, p);
        let st1 = after(s, st);
        lemma_skip_solid(s, p + n);
        lemma_classify_symbol(s, p + n);
        lemma_read(s, st1, p + n);
        let st2 = after(s, st1);
        lemma_has_at(s, (p + n + 1) as int, a, 0);
        if float_lit(a) {
            lemma_digits_end_bounds(a, 0);
        }
        lemma_skip_solid(s, p + n + 1);
        lemma_read_angle(s, st2, p + n + 1, a);
        let ste = expr(s, st2)->Ok_0.1;
        lemma_unfold_arg_rest(s, st2, seq![]);
        lemma_unfold_arg_rest(s, ste, seq![angle_expr(a, p + n + 1)]);
        lemma_skip_solid(s, p + n + 1 + a.len());
        lemma_classify_symbol(s, p + n + 1 + a.len());
        lemma_read(s, ste, p + n + 1 + a.len());
        assert(seq![].push(angle_expr(a, p + n + 1)) =~= seq![angle_expr(a, p + n + 1)]);
    }
}

} // verus!
