//! The OpenQASM 3 lexer: bytes to tokens with line and column positions.
//!
//! The source is read as bytes. Lines count `\n` bytes; columns count
//! characters (UTF-8 continuation bytes do not start a new column), both from
//! 1. Whitespace (any Unicode white-space character), `//` line comments and
//! `/* */` block comments separate tokens.

use vstd::prelude::*;

verus! {

/// A lexical token. Text-carrying tokens hold the byte span `[start, end)`
/// of their text in the source.
#[derive(Clone, Copy, PartialEq, Eq, Structural, Debug)]
pub enum Tok {
    /// An identifier that is not a keyword.
    Ident(usize, usize),
    /// A byte that starts no token; it is skipped.
    Unknown,
    /// An integer literal that fits in `usize`.
    Int(usize),
    /// Any other numeric literal (with `.`, an exponent, or too large for
    /// `usize`); its text is converted to a float by the caller.
    Float(usize, usize),
    /// A string literal's contents (without the quotes).
    Str(usize, usize),
    /// `OPENQASM`
    KwOpenQasm,
    /// `include`
    KwInclude,
    /// `qubit`
    KwQubit,
    /// `bit`
    KwBit,
    /// `measure`
    KwMeasure,
    /// `if`
    KwIf,
    /// `gate`
    KwGate,
    /// `ctrl`
    KwCtrl,
    /// `pi`
    KwPi,
    /// `tau`
    KwTau,
    /// `;`
    Semi,
    /// `(`
    LParen,
    /// `)`
    RParen,
    /// `[`
    LBrack,
    /// `]`
    RBrack,
    /// `{`
    LBrace,
    /// `}`
    RBrace,
    /// `,`
    Comma,
    /// `=`
    Eq,
    /// `==`
    EqEq,
    /// `->`
    Arrow,
    /// `/`
    Slash,
    /// `*`
    Star,
    /// `+`
    Plus,
    /// `-`
    Minus,
    /// `@`
    At,
    /// The end of the source.
    Eof,
}

/// Byte `i` of `s`, or `0` past the end (no token byte is `0`).
pub open spec fn at(s: Seq<u8>, i: int) -> u8 {
    if 0 <= i < s.len() {
        s[i]
    } else {
        0
    }
}

/// The byte length of the white-space character starting at `p`, or `0`.
/// White space is the Unicode `White_Space` set: tab, line feed, vertical
/// tab, form feed, carriage return, space, U+0085, U+00A0, U+1680,
/// U+2000..U+200A, U+2028, U+2029, U+202F, U+205F and U+3000.
pub open spec fn ws_len(s: Seq<u8>, p: int) -> nat {
    let b0 = at(s, p);
    let b1 = at(s, p + 1);
    let b2 = at(s, p + 2);
    if (0x09 <= b0 <= 0x0D) || b0 == 0x20 {
        1
    } else if b0 == 0xC2 && (b1 == 0x85 || b1 == 0xA0) {
        2
    } else if b0 == 0xE1 && b1 == 0x9A && b2 == 0x80 {
        3
    } else if b0 == 0xE2 && b1 == 0x80 && ((0x80 <= b2 <= 0x8A) || b2 == 0xA8 || b2 == 0xA9 || b2 == 0xAF) {
        3
    } else if b0 == 0xE2 && b1 == 0x81 && b2 == 0x9F {
        3
    } else if b0 == 0xE3 && b1 == 0x80 && b2 == 0x80 {
        3
    } else {
        0
    }
}

/// The index of the first byte `b` at or after `p`, or `s.len()`.
pub open spec fn find_byte(s: Seq<u8>, p: nat, b: u8) -> nat
    decreases s.len() - p,
{
    if p >= s.len() {
        s.len()
    } else if s[p as int] == b {
        p
    } else {
        find_byte(s, p + 1, b)
    }
}

/// The index of the first `*/` starting at or after `p`, or `s.len()`.
pub open spec fn find_comment_end(s: Seq<u8>, p: nat) -> nat
    decreases s.len() - p,
{
    if p + 1 >= s.len() {
        s.len()
    } else if s[p as int] == 0x2A && s[p + 1 as int] == 0x2F {
        p
    } else {
        find_comment_end(s, p + 1)
    }
}

/// The search for a byte never goes backwards.
pub proof fn lemma_find_byte_ge(s: Seq<u8>, p: nat, b: u8)
    ensures
        p <= s.len() ==> p <= find_byte(s, p, b) <= s.len(),
        find_byte(s, p, b) < s.len() ==> s[find_byte(s, p, b) as int] == b,
    decreases s.len() - p,
{
    if p < s.len() && s[p as int] != b {
        lemma_find_byte_ge(s, p + 1, b);
    }
}

/// The search for `*/` never goes backwards, and a hit leaves room for both
/// bytes.
pub proof fn lemma_find_comment_end_ge(s: Seq<u8>, p: nat)
    ensures
        p <= s.len() ==> p <= find_comment_end(s, p) <= s.len(),
        find_comment_end(s, p) < s.len() ==> find_comment_end(s, p) + 1 < s.len(),
    decreases s.len() - p,
{
    if p + 1 < s.len() && !(s[p as int] == 0x2A && s[p + 1 as int] == 0x2F) {
        lemma_find_comment_end_ge(s, p + 1);
    }
}

/// The position after skipping white space and comments from `p`. A line
/// comment `//` runs through the next line feed; a block comment `/*` runs
/// through the first `*/` found from the comment's own first byte on. An
/// unterminated comment runs to the end.
pub open spec fn skip_end(s: Seq<u8>, p: nat) -> nat
    decreases s.len() - p,
{
    if p >= s.len() {
        s.len()
    } else if ws_len(s, p as int) > 0 {
        skip_end(s, min_nat(p + ws_len(s, p as int), s.len()))
    } else if s[p as int] == 0x2F && at(s, p + 1 as int) == 0x2F {
        let nl = find_byte(s, p, 0x0A);
        proof {
            lemma_find_byte_ge(s, p, 0x0A);
        }
        skip_end(s, if nl < s.len() { nl + 1 } else { s.len() })
    } else if s[p as int] == 0x2F && at(s, p + 1 as int) == 0x2A {
        let e = find_comment_end(s, p);
        proof {
            lemma_find_comment_end_ge(s, p);
        }
        skip_end(s, if e < s.len() { e + 2 } else { s.len() })
    } else {
        p
    }
}

/// The smaller of two naturals.
pub open spec fn min_nat(a: nat, b: nat) -> nat {
    if a <= b {
        a
    } else {
        b
    }
}

/// A UTF-8 continuation byte (it does not start a character).
pub open spec fn is_continuation(b: u8) -> bool {
    0x80 <= b < 0xC0
}

/// The `(line, col)` after reading bytes `p..q` from `(line, col)`: a line
/// feed starts a new line at column 1; every other character moves one
/// column right.
pub open spec fn track(s: Seq<u8>, p: nat, q: nat, line: nat, col: nat) -> (nat, nat)
    decreases q - p,
{
    if p >= q {
        (line, col)
    } else {
        let (l1, c1) = track_step(at(s, p as int), line, col);
        track(s, p + 1, q, l1, c1)
    }
}

/// An ASCII decimal digit.
pub open spec fn is_digit(b: u8) -> bool {
    0x30 <= b <= 0x39
}

/// An ASCII letter.
pub open spec fn is_alpha(b: u8) -> bool {
    (0x41 <= b <= 0x5A) || (0x61 <= b <= 0x7A)
}

/// A byte that may continue an identifier: letter, digit or `_`.
pub open spec fn is_ident_byte(b: u8) -> bool {
    is_alpha(b) || is_digit(b) || b == 0x5F
}

/// The end of the run of digits starting at `p`.
pub open spec fn digits_end(s: Seq<u8>, p: nat) -> nat
    decreases s.len() - p,
{
    if p < s.len() && is_digit(s[p as int]) {
        digits_end(s, p + 1)
    } else {
        p
    }
}

/// The end of the run of identifier bytes starting at `p`.
pub open spec fn ident_end(s: Seq<u8>, p: nat) -> nat
    decreases s.len() - p,
{
    if p < s.len() && is_ident_byte(s[p as int]) {
        ident_end(s, p + 1)
    } else {
        p
    }
}

/// The end of the numeric literal starting at `p`: digits, then optionally a
/// `.` and digits, then optionally an exponent: `e` or `E`, an optional
/// sign, and at least one digit. An `e` or `E` with no digit after it (and
/// after its sign) is no exponent: the literal ends before it, and the
/// letter starts the next token.
pub open spec fn number_end(s: Seq<u8>, p: nat) -> nat {
    let i1 = digits_end(s, p);
    let i2 = if i1 < s.len() && s[i1 as int] == 0x2E {
        digits_end(s, i1 + 1)
    } else {
        i1
    };
    if i2 < s.len() && (s[i2 as int] == 0x65 || s[i2 as int] == 0x45) {
        let i3 = if i2 + 1 < s.len() && (s[i2 + 1 as int] == 0x2B || s[i2 + 1 as int] == 0x2D) {
            i2 + 2
        } else {
            i2 + 1
        };
        if i3 < s.len() && is_digit(s[i3 as int]) {
            digits_end(s, i3)
        } else {
            i2
        }
    } else {
        i2
    }
}

/// The value of the decimal digits `s[p..q]`.
pub open spec fn decimal_value(s: Seq<u8>, p: nat, q: nat) -> nat
    decreases q - p,
{
    if q <= p {
        0
    } else {
        decimal_value(s, p, (q - 1) as nat) * 10 + (s[q - 1] - 0x30) as nat
    }
}

/// Some byte of `s[p..q]` is one of `.`, `e`, `E`.
pub open spec fn has_float_mark(s: Seq<u8>, p: nat, q: nat) -> bool {
    exists|i: int| p <= i < q && (s[i] == 0x2E || s[i] == 0x65 || s[i] == 0x45)
}

/// `s[p..q]` spells `word`.
pub open spec fn span_is(s: Seq<u8>, p: nat, q: nat, word: Seq<u8>) -> bool {
    q - p == word.len() && q <= s.len() && s.subrange(p as int, q as int) == word
}

/// One character step of position tracking.
pub open spec fn track_step(b: u8, line: nat, col: nat) -> (nat, nat) {
    if b == 0x0A {
        (line + 1, 1)
    } else if is_continuation(b) {
        (line, col)
    } else {
        (line, col + 1)
    }
}

/// Tracking `p..q+1` is tracking `p..q` and then byte `q`.
pub proof fn lemma_track_snoc(s: Seq<u8>, p: nat, q: nat, line: nat, col: nat)
    requires
        p <= q,
    ensures
        track(s, p, q + 1, line, col) == ({
            let (l, c) = track(s, p, q, line, col);
            track_step(at(s, q as int), l, c)
        }),
    decreases q - p,
{
    let (l1, c1) = track_step(at(s, p as int), line, col);
    if p < q {
        assert(track(s, p, q + 1, line, col) == track(s, p + 1, q + 1, l1, c1));
        assert(track(s, p, q, line, col) == track(s, p + 1, q, l1, c1));
        lemma_track_snoc(s, p + 1, q, l1, c1);
    } else {
        assert(track(s, p + 1, q + 1, l1, c1) == (l1, c1));
        assert(track(s, p, q + 1, line, col) == track(s, p + 1, q + 1, l1, c1));
        assert(track(s, p, q, line, col) == (line, col));
    }
}

/// Tracking `p..r` is tracking `p..q` and then `q..r`.
pub proof fn lemma_track_split(s: Seq<u8>, p: nat, q: nat, r: nat, line: nat, col: nat)
    requires
        p <= q <= r,
    ensures
        track(s, p, r, line, col) == ({
            let (l, c) = track(s, p, q, line, col);
            track(s, q, r, l, c)
        }),
    decreases q - p,
{
    if p < q {
        let (l1, c1) = track_step(at(s, p as int), line, col);
        assert(track(s, p, r, line, col) == track(s, p + 1, r, l1, c1));
        assert(track(s, p, q, line, col) == track(s, p + 1, q, l1, c1));
        lemma_track_split(s, p + 1, q, r, l1, c1);
    }
}

/// Tracking never moves the line backwards, and leaves a column of at least 1.
pub proof fn lemma_track_bounds(s: Seq<u8>, p: nat, q: nat, line: nat, col: nat)
    requires
        col >= 1,
        p <= q,
    ensures
        track(s, p, q, line, col).0 >= line,
        track(s, p, q, line, col).1 >= 1,
        track(s, p, q, line, col).0 <= line + (q - p),
        track(s, p, q, line, col).1 <= col + (q - p),
    decreases q - p,
{
    if p < q {
        let (l1, c1) = track_step(at(s, p as int), line, col);
        lemma_track_bounds(s, p + 1, q, l1, c1);
    }
}

/// The keyword spelled by `s[p..q]`, if any.
pub open spec fn keyword(s: Seq<u8>, p: nat, q: nat) -> Option<Tok> {
    if span_is(s, p, q, seq![0x4Fu8, 0x50, 0x45, 0x4E, 0x51, 0x41, 0x53, 0x4D]) {
        Some(Tok::KwOpenQasm)
    } else if span_is(s, p, q, seq![0x69u8, 0x6E, 0x63, 0x6C, 0x75, 0x64, 0x65]) {
        Some(Tok::KwInclude)
    } else if span_is(s, p, q, seq![0x71u8, 0x75, 0x62, 0x69, 0x74]) {
        Some(Tok::KwQubit)
    } else if span_is(s, p, q, seq![0x62u8, 0x69, 0x74]) {
        Some(Tok::KwBit)
    } else if span_is(s, p, q, seq![0x6Du8, 0x65, 0x61, 0x73, 0x75, 0x72, 0x65]) {
        Some(Tok::KwMeasure)
    } else if span_is(s, p, q, seq![0x69u8, 0x66]) {
        Some(Tok::KwIf)
    } else if span_is(s, p, q, seq![0x67u8, 0x61, 0x74, 0x65]) {
        Some(Tok::KwGate)
    } else if span_is(s, p, q, seq![0x63u8, 0x74, 0x72, 0x6C]) {
        Some(Tok::KwCtrl)
    } else if span_is(s, p, q, seq![0x70u8, 0x69]) {
        Some(Tok::KwPi)
    } else if span_is(s, p, q, seq![0x74u8, 0x61, 0x75]) {
        Some(Tok::KwTau)
    } else {
        None
    }
}

/// The token of a single-byte symbol.
pub open spec fn symbol(b: u8) -> Option<Tok> {
    if b == 0x3B {
        Some(Tok::Semi)
    } else if b == 0x28 {
        Some(Tok::LParen)
    } else if b == 0x29 {
        Some(Tok::RParen)
    } else if b == 0x5B {
        Some(Tok::LBrack)
    } else if b == 0x5D {
        Some(Tok::RBrack)
    } else if b == 0x7B {
        Some(Tok::LBrace)
    } else if b == 0x7D {
        Some(Tok::RBrace)
    } else if b == 0x2C {
        Some(Tok::Comma)
    } else if b == 0x3D {
        Some(Tok::Eq)
    } else if b == 0x2F {
        Some(Tok::Slash)
    } else if b == 0x2A {
        Some(Tok::Star)
    } else if b == 0x2B {
        Some(Tok::Plus)
    } else if b == 0x2D {
        Some(Tok::Minus)
    } else if b == 0x40 {
        Some(Tok::At)
    } else {
        None
    }
}

/// The token starting at `p < s.len()` (after white space) and the position
/// just past it. A string literal runs to the next `"` (or the end); `==`
/// and `->` are read before single-byte symbols; a numeric literal is an
/// `Int` when it has no `.`, `e` or `E` and fits in `usize`; an identifier
/// starts with a letter or `_`; any other byte is `Unknown`.
pub open spec fn classify(s: Seq<u8>, p: nat) -> (Tok, nat) {
    let b = at(s, p as int);
    if b == 0x22 {
        let e = find_byte(s, p + 1, 0x22);
        (Tok::Str((p + 1) as usize, e as usize), min_nat(e + 1, s.len()))
    } else if b == 0x3D && at(s, p + 1 as int) == 0x3D {
        (Tok::EqEq, p + 2)
    } else if b == 0x2D && at(s, p + 1 as int) == 0x3E {
        (Tok::Arrow, p + 2)
    } else if symbol(b) is Some {
        (symbol(b)->0, p + 1)
    } else if is_digit(b) {
        let q = number_end(s, p);
        let tok = if has_float_mark(s, p, q) {
            Tok::Float(p as usize, q as usize)
        } else if decimal_value(s, p, q) <= usize::MAX {
            Tok::Int(decimal_value(s, p, q) as usize)
        } else {
            Tok::Float(p as usize, q as usize)
        };
        (tok, q)
    } else if is_alpha(b) || b == 0x5F {
        let q = ident_end(s, p);
        (
            match keyword(s, p, q) {
                Some(k) => k,
                None => Tok::Ident(p as usize, q as usize),
            },
            q,
        )
    } else {
        (Tok::Unknown, p + 1)
    }
}

/// A lexer position: byte offset, line and column.
pub type LexPos = (nat, nat, nat);

/// Reading one token from position `st`: the token with the line and column
/// where it starts, and the position after it. At the end of the source the
/// token is `Eof` and the position stays at the end.
#[verifier::opaque]
pub open spec fn lex_step(s: Seq<u8>, st: LexPos) -> ((Tok, nat, nat), LexPos) {
    let (pos, line, col) = st;
    let p = skip_end(s, pos);
    let (l, c) = track(s, pos, p, line, col);
    if p >= s.len() {
        ((Tok::Eof, l, c), (p, l, c))
    } else {
        let (t, q) = classify(s, p);
        let (l2, c2) = track(s, p, q, l, c);
        ((t, l, c), (q, l2, c2))
    }
}


/// The lexer position after reading `k` tokens from the start of `s`.
pub open spec fn lex_state(s: Seq<u8>, k: nat) -> LexPos
    decreases k,
{
    if k == 0 {
        (0, 1, 1)
    } else {
        lex_step(s, lex_state(s, (k - 1) as nat)).1
    }
}

/// Skipping white space and comments never goes backwards or past the end.
pub proof fn lemma_skip_end_bounds(s: Seq<u8>, p: nat)
    requires
        p <= s.len(),
    ensures
        p <= skip_end(s, p) <= s.len(),
    decreases s.len() - p,
{
    if p < s.len() {
        if ws_len(s, p as int) > 0 {
            lemma_skip_end_bounds(s, min_nat(p + ws_len(s, p as int), s.len()));
        } else if s[p as int] == 0x2F && at(s, p + 1 as int) == 0x2F {
            lemma_find_byte_ge(s, p, 0x0A);
            let nl = find_byte(s, p, 0x0A);
            lemma_skip_end_bounds(s, if nl < s.len() { nl + 1 } else { s.len() });
        } else if s[p as int] == 0x2F && at(s, p + 1 as int) == 0x2A {
            lemma_find_comment_end_ge(s, p);
            let e = find_comment_end(s, p);
            lemma_skip_end_bounds(s, if e < s.len() { e + 2 } else { s.len() });
        }
    }
}

/// A run of digits stays inside the source.
pub proof fn lemma_digits_end_bounds(s: Seq<u8>, p: nat)
    requires
        p <= s.len(),
    ensures
        p <= digits_end(s, p) <= s.len(),
        forall|i: int| p <= i < digits_end(s, p) ==> is_digit(#[trigger] s[i]),
        digits_end(s, p) < s.len() ==> !is_digit(s[digits_end(s, p) as int]),
    decreases s.len() - p,
{
    if p < s.len() && is_digit(s[p as int]) {
        lemma_digits_end_bounds(s, p + 1);
    }
}

/// A run of identifier bytes stays inside the source.
pub proof fn lemma_ident_end_bounds(s: Seq<u8>, p: nat)
    requires
        p <= s.len(),
    ensures
        p <= ident_end(s, p) <= s.len(),
        forall|i: int| p <= i < ident_end(s, p) ==> is_ident_byte(#[trigger] s[i]),
        ident_end(s, p) < s.len() ==> !is_ident_byte(s[ident_end(s, p) as int]),
    decreases s.len() - p,
{
    if p < s.len() && is_ident_byte(s[p as int]) {
        lemma_ident_end_bounds(s, p + 1);
    }
}

/// A numeric literal stays inside the source and is not empty when it starts
/// with a digit.
pub proof fn lemma_number_end_bounds(s: Seq<u8>, p: nat)
    requires
        p < s.len(),
        is_digit(s[p as int]),
    ensures
        p < number_end(s, p) <= s.len(),
{
    lemma_digits_end_bounds(s, p);
    let i1 = digits_end(s, p);
    if i1 < s.len() && s[i1 as int] == 0x2E {
        lemma_digits_end_bounds(s, i1 + 1);
    }
    let i2 = if i1 < s.len() && s[i1 as int] == 0x2E {
        digits_end(s, i1 + 1)
    } else {
        i1
    };
    if i2 < s.len() && (s[i2 as int] == 0x65 || s[i2 as int] == 0x45) {
        let i3 = if i2 + 1 < s.len() && (s[i2 + 1 as int] == 0x2B || s[i2 + 1 as int] == 0x2D) {
            i2 + 2
        } else {
            i2 + 1
        };
        lemma_digits_end_bounds(s, i3);
    }
}

/// A token read at `p` is not empty and stays inside the source.
pub proof fn lemma_classify_bounds(s: Seq<u8>, p: nat)
    requires
        p < s.len(),
    ensures
        p < classify(s, p).1 <= s.len(),
{
    let b = at(s, p as int);
    if b == 0x22 {
        lemma_find_byte_ge(s, p + 1, 0x22);
    } else if b == 0x3D && at(s, p + 1 as int) == 0x3D {
    } else if b == 0x2D && at(s, p + 1 as int) == 0x3E {
    } else if symbol(b) is Some {
    } else if is_digit(b) {
        lemma_number_end_bounds(s, p);
    } else if is_alpha(b) || b == 0x5F {
        lemma_ident_end_bounds(s, p);
    }
}

/// Reading a token never moves backwards or past the end; any token but
/// `Eof` moves forwards, and `Eof` leaves the position at the end.
pub proof fn lemma_lex_step_progress(s: Seq<u8>, st: LexPos)
    ensures
        lex_step(s, st).1.0 <= s.len(),
        st.0 <= s.len() ==> st.0 <= lex_step(s, st).1.0,
        lex_step(s, st).0.0 != Tok::Eof ==> lex_step(s, st).1.0 > st.0,
        lex_step(s, st).0.0 == Tok::Eof ==> lex_step(s, st).1.0 == s.len(),
        skip_end(s, st.0) < s.len() ==> lex_step(s, st).0.0 != Tok::Eof,
{
    reveal(lex_step);
    if st.0 > s.len() {
        assert(skip_end(s, st.0) == s.len());
        return;
    }
    lemma_skip_end_bounds(s, st.0);
    let p = skip_end(s, st.0);
    if p < s.len() {
        lemma_classify_bounds(s, p);
        lemma_classify_not_eof(s, p);
    }
}

/// Reading at a byte of the source never yields `Eof`.
pub proof fn lemma_classify_not_eof(s: Seq<u8>, p: nat)
    requires
        p < s.len(),
    ensures
        classify(s, p).0 != Tok::Eof,
{
    let b = at(s, p as int);
    if symbol(b) is Some {
        assert(symbol(b)->0 != Tok::Eof);
    }
    if is_alpha(b) || b == 0x5F {
        let q = ident_end(s, p);
        assert(keyword(s, p, q) is Some ==> keyword(s, p, q)->0 != Tok::Eof);
    }
}

/// Every lexer position reached from the start lies inside the source.
pub proof fn lemma_lex_state_bounds(s: Seq<u8>, k: nat)
    ensures
        lex_state(s, k).0 <= s.len(),
        lex_state(s, k).0 <= lex_state(s, k + 1).0,
    decreases k,
{
    if k > 0 {
        lemma_lex_state_bounds(s, (k - 1) as nat);
        lemma_lex_step_progress(s, lex_state(s, (k - 1) as nat));
    }
    lemma_lex_step_progress(s, lex_state(s, k));
}


/// Without `.`, `e` or `E`, a numeric literal is a run of digits.
proof fn lemma_int_literal_digits(s: Seq<u8>, p: nat)
    requires
        p < s.len(),
        is_digit(s[p as int]),
        !has_float_mark(s, p, number_end(s, p)),
    ensures
        number_end(s, p) == digits_end(s, p),
        forall|i: int| p <= i < number_end(s, p) ==> is_digit(#[trigger] s[i]),
{
    lemma_digits_end_bounds(s, p);
    let i1 = digits_end(s, p);
    let q = number_end(s, p);
    lemma_number_end_bounds(s, p);
    if i1 < s.len() && s[i1 as int] == 0x2E {
        lemma_digits_end_bounds(s, i1 + 1);
        let i2 = digits_end(s, i1 + 1);
        if i2 < s.len() && (s[i2 as int] == 0x65 || s[i2 as int] == 0x45) {
            let i3 = if i2 + 1 < s.len() && (s[i2 + 1 as int] == 0x2B || s[i2 + 1 as int] == 0x2D) {
                i2 + 2
            } else {
                i2 + 1
            };
            lemma_digits_end_bounds(s, i3);
        }
        assert(p <= i1 < q);
        assert(false);
    }
    if i1 < s.len() && (s[i1 as int] == 0x65 || s[i1 as int] == 0x45) {
        let i3 = if i1 + 1 < s.len() && (s[i1 + 1 as int] == 0x2B || s[i1 + 1 as int] == 0x2D) {
            i1 + 2
        } else {
            i1 + 1
        };
        if i3 < s.len() && is_digit(s[i3 as int]) {
            lemma_digits_end_bounds(s, i3);
            assert(p <= i1 < q);
            assert(false);
        }
    }
}

/// A longer prefix of digits never has a smaller value.
proof fn lemma_decimal_value_mono(s: Seq<u8>, p: nat, i: nat, j: nat)
    requires
        p <= i <= j <= s.len(),
        forall|k: int| p <= k < j ==> is_digit(#[trigger] s[k]),
    ensures
        decimal_value(s, p, i) <= decimal_value(s, p, j),
    decreases j - i,
{
    if i < j {
        lemma_decimal_value_mono(s, p, i, (j - 1) as nat);
        assert(is_digit(s[j - 1]));
    }
}

/// Byte `i` of `s`, or `0` past the end.
fn byte_at(s: &[u8], i: usize) -> (b: u8)
    ensures
        b == at(s@, i as int),
{
    if i < s.len() {
        s[i]
    } else {
        0
    }
}

/// Whether `b` is an ASCII digit.
fn is_digit_byte(b: u8) -> (r: bool)
    ensures
        r == is_digit(b),
{
    0x30 <= b && b <= 0x39
}

/// Whether `b` is an ASCII letter.
fn is_alpha_byte(b: u8) -> (r: bool)
    ensures
        r == is_alpha(b),
{
    (0x41 <= b && b <= 0x5A) || (0x61 <= b && b <= 0x7A)
}

/// The byte length of the white-space character at `p`, or `0`.
fn ws_len_at(s: &[u8], p: usize) -> (n: usize)
    requires
        p < s@.len(),
        s@.len() < usize::MAX,
    ensures
        n == ws_len(s@, p as int),
        p + n <= s@.len(),
{
    let b0 = s[p];
    let b1 = byte_at(s, p + 1);
    let b2 = byte_at(s, p + 2);
    if (0x09 <= b0 && b0 <= 0x0D) || b0 == 0x20 {
        1
    } else if b0 == 0xC2 && (b1 == 0x85 || b1 == 0xA0) {
        2
    } else if b0 == 0xE1 && b1 == 0x9A && b2 == 0x80 {
        3
    } else if b0 == 0xE2 && b1 == 0x80 && ((0x80 <= b2 && b2 <= 0x8A) || b2 == 0xA8 || b2 == 0xA9
        || b2 == 0xAF) {
        3
    } else if b0 == 0xE2 && b1 == 0x81 && b2 == 0x9F {
        3
    } else if b0 == 0xE3 && b1 == 0x80 && b2 == 0x80 {
        3
    } else {
        0
    }
}

/// The index of the first byte `b` at or after `p`, or the length.
fn find_byte_from(s: &[u8], p: usize, b: u8) -> (r: usize)
    requires
        p <= s@.len(),
    ensures
        r == find_byte(s@, p as nat, b),
{
    let mut i = p;
    while i < s.len() && s[i] != b
        invariant
            p <= i <= s@.len(),
            find_byte(s@, i as nat, b) == find_byte(s@, p as nat, b),
        decreases s@.len() - i,
    {
        i = i + 1;
    }
    i
}

/// The index of the first `*/` at or after `p`, or the length.
fn find_comment_end_from(s: &[u8], p: usize) -> (r: usize)
    requires
        p <= s@.len(),
        s@.len() < usize::MAX,
    ensures
        r == find_comment_end(s@, p as nat),
{
    let mut i = p;
    while i + 1 < s.len() && !(s[i] == 0x2A && s[i + 1] == 0x2F)
        invariant
            p <= i <= s@.len(),
            find_comment_end(s@, i as nat) == find_comment_end(s@, p as nat),
            s@.len() < usize::MAX,
        decreases s@.len() - i,
    {
        i = i + 1;
    }
    if i + 1 < s.len() {
        i
    } else {
        s.len()
    }
}

/// The end of the run of digits starting at `p`.
fn digits_end_from(s: &[u8], p: usize) -> (r: usize)
    requires
        p <= s@.len(),
    ensures
        r == digits_end(s@, p as nat),
{
    let mut i = p;
    while i < s.len() && is_digit_byte(s[i])
        invariant
            p <= i <= s@.len(),
            digits_end(s@, i as nat) == digits_end(s@, p as nat),
        decreases s@.len() - i,
    {
        i = i + 1;
    }
    i
}

/// The end of the run of identifier bytes starting at `p`.
fn ident_end_from(s: &[u8], p: usize) -> (r: usize)
    requires
        p <= s@.len(),
    ensures
        r == ident_end(s@, p as nat),
{
    let mut i = p;
    while i < s.len() && (is_alpha_byte(s[i]) || is_digit_byte(s[i]) || s[i] == 0x5F)
        invariant
            p <= i <= s@.len(),
            ident_end(s@, i as nat) == ident_end(s@, p as nat),
        decreases s@.len() - i,
    {
        i = i + 1;
    }
    i
}

/// Whether some byte of `s[p..q]` is `.`, `e` or `E`.
fn has_float_mark_in(s: &[u8], p: usize, q: usize) -> (r: bool)
    requires
        p <= q <= s@.len(),
    ensures
        r == has_float_mark(s@, p as nat, q as nat),
{
    let mut i = p;
    while i < q
        invariant
            p <= i <= q <= s@.len(),
            forall|k: int| p <= k < i ==> !(s@[k] == 0x2E || s@[k] == 0x65 || s@[k] == 0x45),
        decreases q - i,
    {
        if s[i] == 0x2E || s[i] == 0x65 || s[i] == 0x45 {
            return true;
        }
        i = i + 1;
    }
    false
}

/// The value of the digits `s[p..q]`, or `None` when it exceeds `usize`.
fn int_value(s: &[u8], p: usize, q: usize) -> (r: Option<usize>)
    requires
        p <= q <= s@.len(),
        forall|k: int| p <= k < q ==> is_digit(#[trigger] s@[k]),
    ensures
        match r {
            Some(v) => v == decimal_value(s@, p as nat, q as nat),
            None => decimal_value(s@, p as nat, q as nat) > usize::MAX,
        },
{
    let mut acc: usize = 0;
    let mut i = p;
    while i < q
        invariant
            p <= i <= q <= s@.len(),
            forall|k: int| p <= k < q ==> is_digit(#[trigger] s@[k]),
            acc == decimal_value(s@, p as nat, i as nat),
        decreases q - i,
    {
        assert(is_digit(s@[i as int]));
        let d = (s[i] - 0x30) as usize;
        assert(decimal_value(s@, p as nat, (i + 1) as nat) == acc * 10 + d);
        match acc.checked_mul(10) {
            None => {
                proof {
                    lemma_decimal_value_mono(s@, p as nat, (i + 1) as nat, q as nat);
                }
                return None;
            },
            Some(m) => match m.checked_add(d) {
                None => {
                    proof {
                        lemma_decimal_value_mono(s@, p as nat, (i + 1) as nat, q as nat);
                    }
                    return None;
                },
                Some(v) => {
                    acc = v;
                },
            },
        }
        i = i + 1;
    }
    Some(acc)
}

/// Whether `s[p..q]` spells `w`.
fn span_eq(s: &[u8], p: usize, q: usize, w: &[u8]) -> (r: bool)
    requires
        p <= q <= s@.len(),
    ensures
        r == span_is(s@, p as nat, q as nat, w@),
{
    if q - p != w.len() {
        return false;
    }
    let mut i: usize = 0;
    while i < w.len()
        invariant
            q - p == w@.len(),
            p <= q <= s@.len(),
            0 <= i <= w@.len(),
            forall|k: int| 0 <= k < i ==> s@[p + k] == w@[k],
        decreases w@.len() - i,
    {
        if s[p + i] != w[i] {
            assert(s@.subrange(p as int, q as int)[i as int] != w@[i as int]);
            return false;
        }
        i = i + 1;
    }
    assert(s@.subrange(p as int, q as int) =~= w@);
    true
}

/// The keyword spelled by `s[p..q]`, if any.
fn keyword_at(s: &[u8], p: usize, q: usize) -> (k: Option<Tok>)
    requires
        p <= q <= s@.len(),
    ensures
        k == keyword(s@, p as nat, q as nat),
{
    let w_openqasm: [u8; 8] = [0x4F, 0x50, 0x45, 0x4E, 0x51, 0x41, 0x53, 0x4D];
    let w_include: [u8; 7] = [0x69, 0x6E, 0x63, 0x6C, 0x75, 0x64, 0x65];
    let w_qubit: [u8; 5] = [0x71, 0x75, 0x62, 0x69, 0x74];
    let w_bit: [u8; 3] = [0x62, 0x69, 0x74];
    let w_measure: [u8; 7] = [0x6D, 0x65, 0x61, 0x73, 0x75, 0x72, 0x65];
    let w_if: [u8; 2] = [0x69, 0x66];
    let w_gate: [u8; 4] = [0x67, 0x61, 0x74, 0x65];
    let w_ctrl: [u8; 4] = [0x63, 0x74, 0x72, 0x6C];
    let w_pi: [u8; 2] = [0x70, 0x69];
    let w_tau: [u8; 3] = [0x74, 0x61, 0x75];
    assert(w_openqasm@ =~= seq![0x4Fu8, 0x50, 0x45, 0x4E, 0x51, 0x41, 0x53, 0x4D]);
    assert(w_include@ =~= seq![0x69u8, 0x6E, 0x63, 0x6C, 0x75, 0x64, 0x65]);
    assert(w_qubit@ =~= seq![0x71u8, 0x75, 0x62, 0x69, 0x74]);
    assert(w_bit@ =~= seq![0x62u8, 0x69, 0x74]);
    assert(w_measure@ =~= seq![0x6Du8, 0x65, 0x61, 0x73, 0x75, 0x72, 0x65]);
    assert(w_if@ =~= seq![0x69u8, 0x66]);
    assert(w_gate@ =~= seq![0x67u8, 0x61, 0x74, 0x65]);
    assert(w_ctrl@ =~= seq![0x63u8, 0x74, 0x72, 0x6C]);
    assert(w_pi@ =~= seq![0x70u8, 0x69]);
    assert(w_tau@ =~= seq![0x74u8, 0x61, 0x75]);
    if span_eq(s, p, q, w_openqasm.as_slice()) {
        Some(Tok::KwOpenQasm)
    } else if span_eq(s, p, q, w_include.as_slice()) {
        Some(Tok::KwInclude)
    } else if span_eq(s, p, q, w_qubit.as_slice()) {
        Some(Tok::KwQubit)
    } else if span_eq(s, p, q, w_bit.as_slice()) {
        Some(Tok::KwBit)
    } else if span_eq(s, p, q, w_measure.as_slice()) {
        Some(Tok::KwMeasure)
    } else if span_eq(s, p, q, w_if.as_slice()) {
        Some(Tok::KwIf)
    } else if span_eq(s, p, q, w_gate.as_slice()) {
        Some(Tok::KwGate)
    } else if span_eq(s, p, q, w_ctrl.as_slice()) {
        Some(Tok::KwCtrl)
    } else if span_eq(s, p, q, w_pi.as_slice()) {
        Some(Tok::KwPi)
    } else if span_eq(s, p, q, w_tau.as_slice()) {
        Some(Tok::KwTau)
    } else {
        None
    }
}

/// The token of a single-byte symbol.
fn symbol_tok(b: u8) -> (t: Option<Tok>)
    ensures
        t == symbol(b),
{
    match b {
        0x3B => Some(Tok::Semi),
        0x28 => Some(Tok::LParen),
        0x29 => Some(Tok::RParen),
        0x5B => Some(Tok::LBrack),
        0x5D => Some(Tok::RBrack),
        0x7B => Some(Tok::LBrace),
        0x7D => Some(Tok::RBrace),
        0x2C => Some(Tok::Comma),
        0x3D => Some(Tok::Eq),
        0x2F => Some(Tok::Slash),
        0x2A => Some(Tok::Star),
        0x2B => Some(Tok::Plus),
        0x2D => Some(Tok::Minus),
        0x40 => Some(Tok::At),
        _ => None,
    }
}


/// A lexer over OpenQASM source bytes: the source, the byte offset of the
/// next unread byte, and the line and column of that byte.
pub struct Lexer<'s> {
    src: &'s [u8],
    pos: usize,
    line: usize,
    col: usize,
}

impl<'s> Lexer<'s> {
    /// The source being read.
    pub closed spec fn source(&self) -> Seq<u8> {
        self.src@
    }

    /// The current position: byte offset, line and column.
    pub closed spec fn state(&self) -> LexPos {
        (self.pos as nat, self.line as nat, self.col as nat)
    }

    /// The position lies in the source, and the line and column fit in
    /// `usize` for the rest of it.
    pub closed spec fn wf(&self) -> bool {
        &&& self.src@.len() < usize::MAX
        &&& self.pos <= self.src@.len()
        &&& 1 <= self.line <= self.pos + 1
        &&& 1 <= self.col <= self.pos + 1
    }

    /// A well-formed lexer reads a source shorter than `usize::MAX`, from a
    /// position inside it.
    pub proof fn lemma_wf(&self)
        requires
            self.wf(),
        ensures
            self.source().len() < usize::MAX,
            self.state().0 <= self.source().len(),
    {
    }

    /// The source bytes.
    pub fn source_bytes(&self) -> (r: &'s [u8])
        ensures
            r@ == self.source(),
    {
        self.src
    }

    /// A lexer at the start of `src`: offset 0, line 1, column 1.
    pub fn new(src: &'s [u8]) -> (l: Self)
        requires
            src@.len() < usize::MAX,
        ensures
            l.wf(),
            l.source() == src@,
            l.state() == (0nat, 1nat, 1nat),
    {
        Lexer { src, pos: 0, line: 1, col: 1 }
    }

    /// The unread rest of the source.
    pub fn remaining(&self) -> (r: &'s [u8])
        requires
            self.wf(),
        ensures
            r@ == self.source().subrange(self.state().0 as int, self.source().len() as int),
    {
        vstd::slice::slice_subrange(self.src, self.pos, self.src.len())
    }

    /// Moves `n` bytes forward, counting lines and columns on the way.
    fn advance(&mut self, n: usize)
        requires
            old(self).wf(),
            old(self).state().0 + n <= old(self).source().len(),
        ensures
            final(self).wf(),
            final(self).source() == old(self).source(),
            final(self).state() == ({
                let (p, l, c) = old(self).state();
                let (l2, c2) = track(old(self).source(), p, (p + n) as nat, l, c);
                ((p + n) as nat, l2, c2)
            }),
    {
        let ghost s = self.src@;
        let ghost (p0, l0, c0) = self.state();
        let end = self.pos + n;
        let mut i = self.pos;
        let mut line = self.line;
        let mut col = self.col;
        while i < end
            invariant
                s == self.src@,
                p0 <= i <= end <= s.len(),
                s.len() < usize::MAX,
                (line as nat, col as nat) == track(s, p0, i as nat, l0, c0),
                1 <= line <= i + 1,
                1 <= col <= i + 1,
            decreases end - i,
        {
            let b = self.src[i];
            proof {
                lemma_track_snoc(s, p0, i as nat, l0, c0);
            }
            if b == 0x0A {
                line = line + 1;
                col = 1;
            } else if 0x80 <= b && b < 0xC0 {
            } else {
                col = col + 1;
            }
            i = i + 1;
        }
        self.pos = end;
        self.line = line;
        self.col = col;
    }

    /// Moves past white space, line comments and block comments.
    pub fn skip_ws_and_comments(&mut self)
        requires
            old(self).wf(),
        ensures
            final(self).wf(),
            final(self).source() == old(self).source(),
            final(self).state() == ({
                let (p, l, c) = old(self).state();
                let q = skip_end(old(self).source(), p);
                let (l2, c2) = track(old(self).source(), p, q, l, c);
                (q, l2, c2)
            }),
    {
        let ghost s = self.src@;
        let ghost (p0, l0, c0) = self.state();
        loop
            invariant
                self.wf(),
                self.src@ == s,
                p0 <= self.pos,
                skip_end(s, self.pos as nat) == skip_end(s, p0),
                (self.line as nat, self.col as nat) == track(s, p0, self.pos as nat, l0, c0),
            ensures
                self.wf(),
                self.src@ == s,
                p0 <= self.pos,
                skip_end(s, p0) == self.pos,
                (self.line as nat, self.col as nat) == track(s, p0, self.pos as nat, l0, c0),
            decreases s.len() - self.pos,
        {
            let ghost pos = self.pos as nat;
            let ghost (l1, c1) = (self.line as nat, self.col as nat);
            if self.pos >= self.src.len() {
                break;
            }
            let ws = ws_len_at(self.src, self.pos);
            if ws > 0 {
                self.advance(ws);
                proof {
                    lemma_track_split(s, p0, pos, (pos + ws) as nat, l0, c0);
                }
                continue;
            }
            let p = self.pos;
            if self.src[p] == 0x2F && byte_at(self.src, p + 1) == 0x2F {
                let nl = find_byte_from(self.src, p, 0x0A);
                proof {
                    lemma_find_byte_ge(s, pos, 0x0A);
                }
                let end = if nl < self.src.len() {
                    nl + 1
                } else {
                    self.src.len()
                };
                self.advance(end - p);
                proof {
                    lemma_track_split(s, p0, pos, end as nat, l0, c0);
                }
                continue;
            }
            if self.src[p] == 0x2F && byte_at(self.src, p + 1) == 0x2A {
                let e = find_comment_end_from(self.src, p);
                proof {
                    lemma_find_comment_end_ge(s, pos);
                }
                let end = if e < self.src.len() {
                    e + 2
                } else {
                    self.src.len()
                };
                self.advance(end - p);
                proof {
                    lemma_track_split(s, p0, pos, end as nat, l0, c0);
                }
                continue;
            }
            break;
        }
    }

    /// The end of the numeric literal that starts at `p`.
    pub fn scan_number(s: &[u8], p: usize) -> (q: usize)
        requires
            p <= s@.len(),
            s@.len() < usize::MAX,
        ensures
            q == number_end(s@, p as nat),
    {
        proof {
            lemma_digits_end_bounds(s@, p as nat);
        }
        let i1 = digits_end_from(s, p);
        let i2 = if i1 < s.len() && s[i1] == 0x2E {
            proof {
                lemma_digits_end_bounds(s@, (i1 + 1) as nat);
            }
            digits_end_from(s, i1 + 1)
        } else {
            i1
        };
        if i2 < s.len() && (s[i2] == 0x65 || s[i2] == 0x45) {
            let i3 = if i2 + 1 < s.len() && (s[i2 + 1] == 0x2B || s[i2 + 1] == 0x2D) {
                i2 + 2
            } else {
                i2 + 1
            };
            if i3 < s.len() && is_digit_byte(s[i3]) {
                digits_end_from(s, i3)
            } else {
                i2
            }
        } else {
            i2
        }
    }

    /// Reads the next token, with the line and column where it starts.
    pub fn next_token(&mut self) -> (t: (Tok, usize, usize))
        requires
            old(self).wf(),
        ensures
            final(self).wf(),
            final(self).source() == old(self).source(),
            (t.0, t.1 as nat, t.2 as nat) == lex_step(old(self).source(), old(self).state()).0,
            final(self).state() == lex_step(old(self).source(), old(self).state()).1,
    {
        let ghost s = self.src@;
        let ghost st0 = self.state();
        proof {
            reveal(lex_step);
        }
        self.skip_ws_and_comments();
        let line = self.line;
        let col = self.col;
        if self.pos >= self.src.len() {
            proof {
                lemma_skip_end_bounds(s, st0.0);
            }
            return (Tok::Eof, line, col);
        }
        let p = self.pos;
        proof {
            lemma_classify_bounds(s, p as nat);
        }
        let b = self.src[p];
        if b == 0x22 {
            let e = find_byte_from(self.src, p + 1, 0x22);
            proof {
                lemma_find_byte_ge(s, (p + 1) as nat, 0x22);
            }
            if e < self.src.len() {
                self.advance(e + 1 - p);
            } else {
                self.advance(self.src.len() - p);
            }
            return (Tok::Str(p + 1, e), line, col);
        }
        let b1 = byte_at(self.src, p + 1);
        if b == 0x3D && b1 == 0x3D {
            self.advance(2);
            return (Tok::EqEq, line, col);
        }
        if b == 0x2D && b1 == 0x3E {
            self.advance(2);
            return (Tok::Arrow, line, col);
        }
        if let Some(tok) = symbol_tok(b) {
            self.advance(1);
            return (tok, line, col);
        }
        if is_digit_byte(b) {
            let q = Self::scan_number(self.src, p);
            let tok = if has_float_mark_in(self.src, p, q) {
                Tok::Float(p, q)
            } else {
                proof {
                    lemma_int_literal_digits(s, p as nat);
                }
                match int_value(self.src, p, q) {
                    Some(v) => Tok::Int(v),
                    None => Tok::Float(p, q),
                }
            };
            self.advance(q - p);
            return (tok, line, col);
        }
        if is_alpha_byte(b) || b == 0x5F {
            let q = ident_end_from(self.src, p);
            let tok = match keyword_at(self.src, p, q) {
                Some(k) => k,
                None => Tok::Ident(p, q),
            };
            self.advance(q - p);
            return (tok, line, col);
        }
        self.advance(1);
        (Tok::Unknown, line, col)
    }
}


/// An identifier token spans ASCII bytes of the source.
pub proof fn lemma_ident_token(s: Seq<u8>, st: LexPos)
    requires
        s.len() <= usize::MAX,
    ensures
        lex_step(s, st).0.0 matches Tok::Ident(a, b) ==> a <= b <= s.len() && forall|i: int|
            a <= i < b ==> (#[trigger] s[i]) < 0x80,
{
    reveal(lex_step);
    let p = skip_end(s, st.0);
    if p < s.len() {
        lemma_classify_bounds(s, p);
        let b = at(s, p as int);
        if is_alpha(b) || b == 0x5F {
            lemma_ident_end_bounds(s, p);
        }
        if symbol(b) is Some {
            assert(!(symbol(b)->0 is Ident));
        }
    }
}


} // verus!
