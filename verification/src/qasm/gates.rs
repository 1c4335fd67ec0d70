//! Gate-name table: OpenQASM 3 `stdgates.inc` names and what they
//! stand for.
//!
//! A parsed gate keeps its angle argument as an expression tree; evaluating
//! the expression (and building a gate matrix) is floating-point work done
//! by the caller.

use vstd::prelude::*;
use vstd::string::StringSliceAdditionalSpecFns;

use crate::error::Error;

verus! {

/// An angle expression as written in the source.
#[derive(PartialEq, Debug)]
pub enum Expr {
    /// A numeric literal that is not a `usize` integer: the byte span of its
    /// text in the source.
    Num(usize, usize),
    /// An integer literal.
    Int(usize),
    /// The constant `pi`.
    Pi,
    /// The constant `tau` (`2 pi`).
    Tau,
    /// Negation.
    Neg(Box<Expr>),
    /// Sum.
    Add(Box<Expr>, Box<Expr>),
    /// Difference.
    Sub(Box<Expr>, Box<Expr>),
    /// Product.
    Mul(Box<Expr>, Box<Expr>),
    /// Quotient, with the line and column at which a zero divisor is
    /// reported.
    Div(Box<Expr>, Box<Expr>, usize, usize),
}

/// A named single-qubit gate of `stdgates.inc`.
#[derive(PartialEq, Debug)]
pub enum NamedGate1 {
    /// `h`
    H,
    /// `x`
    X,
    /// `y`
    Y,
    /// `z`
    Z,
    /// `s`
    S,
    /// `t`
    T,
    /// `id`
    Id,
    /// `rx(theta)`
    Rx(Expr),
    /// `ry(theta)`
    Ry(Expr),
    /// `rz(theta)`
    Rz(Expr),
    /// `p(lambda)` or `phase(lambda)`
    Phase(Expr),
}

/// A named two-qubit gate of `stdgates.inc`.
#[derive(Clone, Copy, PartialEq, Eq, Structural, Debug)]
pub enum NamedGate2 {
    /// `cx`, `cnot` or `CX`
    Cnot,
    /// `cz`
    Cz,
    /// `swap`
    Swap,
}

/// The characters of an ASCII byte string.
pub open spec fn ascii_chars(b: Seq<u8>) -> Seq<char> {
    b.map_values(|x: u8| x as char)
}

/// The single-qubit gate called `name` with arguments `args`, if the table
/// has one: the fixed gates take no argument, the rotations and the phase
/// gate take one.
pub open spec fn gate1_of(name: Seq<u8>, args: Seq<Expr>) -> Option<NamedGate1> {
    if args.len() == 0 {
        if name == seq![0x68u8] {
            Some(NamedGate1::H)
        } else if name == seq![0x78u8] {
            Some(NamedGate1::X)
        } else if name == seq![0x79u8] {
            Some(NamedGate1::Y)
        } else if name == seq![0x7Au8] {
            Some(NamedGate1::Z)
        } else if name == seq![0x73u8] {
            Some(NamedGate1::S)
        } else if name == seq![0x74u8] {
            Some(NamedGate1::T)
        } else if name == seq![0x69u8, 0x64] {
            Some(NamedGate1::Id)
        } else {
            None
        }
    } else if args.len() == 1 {
        if name == seq![0x72u8, 0x78] {
            Some(NamedGate1::Rx(args[0]))
        } else if name == seq![0x72u8, 0x79] {
            Some(NamedGate1::Ry(args[0]))
        } else if name == seq![0x72u8, 0x7A] {
            Some(NamedGate1::Rz(args[0]))
        } else if name == seq![0x70u8] || name == seq![0x70u8, 0x68, 0x61, 0x73, 0x65] {
            Some(NamedGate1::Phase(args[0]))
        } else {
            None
        }
    } else {
        None
    }
}

/// The two-qubit gate called `name`, if the table has one.
pub open spec fn gate2_of(name: Seq<u8>) -> Option<NamedGate2> {
    if name == seq![0x63u8, 0x78] || name == seq![0x63u8, 0x6E, 0x6F, 0x74] || name == seq![
        0x43u8,
        0x58,
    ] {
        Some(NamedGate2::Cnot)
    } else if name == seq![0x63u8, 0x7A] {
        Some(NamedGate2::Cz)
    } else if name == seq![0x73u8, 0x77, 0x61, 0x70] {
        Some(NamedGate2::Swap)
    } else {
        None
    }
}

/// The message for a single-qubit gate name missing from the table.
pub open spec fn unknown_gate1_message(name: Seq<u8>) -> Seq<char> {
    "unknown single-qubit gate '"@ + ascii_chars(name) + "'"@
}

/// The message for a two-qubit gate name missing from the table.
pub open spec fn unknown_gate2_message(name: Seq<u8>) -> Seq<char> {
    "unknown two-qubit gate '"@ + ascii_chars(name) + "'"@
}

/// `String::push`: appends one character to the end of the string.
pub assume_specification[ String::push ](s: &mut String, ch: char)
    ensures
        final(s)@ == old(s)@.push(ch),
;

/// Appends the characters of the ASCII bytes `b` to `s`.
fn push_ascii(s: &mut String, b: &[u8])
    requires
        forall|i: int| 0 <= i < b@.len() ==> (#[trigger] b@[i]) < 0x80,
    ensures
        final(s)@ == old(s)@ + ascii_chars(b@),
{
    let ghost s0 = s@;
    let mut i: usize = 0;
    while i < b.len()
        invariant
            0 <= i <= b@.len(),
            s@ == s0 + ascii_chars(b@.subrange(0, i as int)),
            forall|k: int| 0 <= k < b@.len() ==> (#[trigger] b@[k]) < 0x80,
        decreases b@.len() - i,
    {
        let c = b[i] as char;
        s.push(c);
        assert(ascii_chars(b@.subrange(0, i + 1)) =~= ascii_chars(b@.subrange(0, i as int)).push(
            c,
        ));
        i = i + 1;
    }
    assert(b@.subrange(0, b@.len() as int) =~= b@);
}

/// Whether the byte string `name` equals `w`.
pub fn name_is(name: &[u8], w: &[u8]) -> (r: bool)
    ensures
        r == (name@ == w@),
{
    if name.len() != w.len() {
        return false;
    }
    let mut i: usize = 0;
    while i < w.len()
        invariant
            name@.len() == w@.len(),
            0 <= i <= w@.len(),
            forall|k: int| 0 <= k < i ==> name@[k] == w@[k],
        decreases w@.len() - i,
    {
        if name[i] != w[i] {
            return false;
        }
        i = i + 1;
    }
    assert(name@ =~= w@);
    true
}

/// The single-qubit gate the table has for the name bytes `name` and the
/// arguments `args`, if any.
pub(crate) fn gate1_lookup(name: &[u8], args: Vec<Expr>) -> (r: Option<NamedGate1>)
    ensures
        r == gate1_of(name@, args@),
{
    let w_h: [u8; 1] = [0x68];
    let w_x: [u8; 1] = [0x78];
    let w_y: [u8; 1] = [0x79];
    let w_z: [u8; 1] = [0x7A];
    let w_s: [u8; 1] = [0x73];
    let w_t: [u8; 1] = [0x74];
    let w_id: [u8; 2] = [0x69, 0x64];
    let w_rx: [u8; 2] = [0x72, 0x78];
    let w_ry: [u8; 2] = [0x72, 0x79];
    let w_rz: [u8; 2] = [0x72, 0x7A];
    let w_p: [u8; 1] = [0x70];
    let w_phase: [u8; 5] = [0x70, 0x68, 0x61, 0x73, 0x65];
    assert(w_h@ =~= seq![0x68u8]);
    assert(w_x@ =~= seq![0x78u8]);
    assert(w_y@ =~= seq![0x79u8]);
    assert(w_z@ =~= seq![0x7Au8]);
    assert(w_s@ =~= seq![0x73u8]);
    assert(w_t@ =~= seq![0x74u8]);
    assert(w_id@ =~= seq![0x69u8, 0x64]);
    assert(w_rx@ =~= seq![0x72u8, 0x78]);
    assert(w_ry@ =~= seq![0x72u8, 0x79]);
    assert(w_rz@ =~= seq![0x72u8, 0x7A]);
    assert(w_p@ =~= seq![0x70u8]);
    assert(w_phase@ =~= seq![0x70u8, 0x68, 0x61, 0x73, 0x65]);
    let mut args = args;
    if args.len() == 0 {
        if name_is(name, w_h.as_slice()) {
            return Some(NamedGate1::H);
        } else if name_is(name, w_x.as_slice()) {
            return Some(NamedGate1::X);
        } else if name_is(name, w_y.as_slice()) {
            return Some(NamedGate1::Y);
        } else if name_is(name, w_z.as_slice()) {
            return Some(NamedGate1::Z);
        } else if name_is(name, w_s.as_slice()) {
            return Some(NamedGate1::S);
        } else if name_is(name, w_t.as_slice()) {
            return Some(NamedGate1::T);
        } else if name_is(name, w_id.as_slice()) {
            return Some(NamedGate1::Id);
        }
    } else if args.len() == 1 {
        let ghost a = args@;
        if name_is(name, w_rx.as_slice()) {
            let e = args.remove(0);
            return Some(NamedGate1::Rx(e));
        } else if name_is(name, w_ry.as_slice()) {
            let e = args.remove(0);
            return Some(NamedGate1::Ry(e));
        } else if name_is(name, w_rz.as_slice()) {
            let e = args.remove(0);
            return Some(NamedGate1::Rz(e));
        } else if name_is(name, w_p.as_slice()) || name_is(name, w_phase.as_slice()) {
            let e = args.remove(0);
            return Some(NamedGate1::Phase(e));
        }
    }
    None
}

/// The error for a single-qubit gate name, in ASCII, missing from the
/// table.
pub(crate) fn unknown_gate1(name: &[u8]) -> (e: Error)
    requires
        forall|i: int| 0 <= i < name@.len() ==> (#[trigger] name@[i]) < 0x80,
    ensures
        e matches Error::Qasm { line, col, message } && line == 0 && col == 0 && message@
            == unknown_gate1_message(name@),
{
    let mut message = "unknown single-qubit gate '".to_owned();
    push_ascii(&mut message, name);
    message.append("'");
    Error::Qasm { line: 0, col: 0, message }
}

/// The error for a two-qubit gate name, in ASCII, missing from the table.
pub(crate) fn unknown_gate2(name: &[u8]) -> (e: Error)
    requires
        forall|i: int| 0 <= i < name@.len() ==> (#[trigger] name@[i]) < 0x80,
    ensures
        e matches Error::Qasm { line, col, message } && line == 0 && col == 0 && message@
            == unknown_gate2_message(name@),
{
    let mut message = "unknown two-qubit gate '".to_owned();
    push_ascii(&mut message, name);
    message.append("'");
    Error::Qasm { line: 0, col: 0, message }
}

/// Maps a gate name and its argument list to a single-qubit gate of
/// `stdgates.inc`, or the unknown-gate error naming it.
pub fn lookup_gate_1q(name: &str, args: Vec<Expr>) -> (r: Result<NamedGate1, Error>)
    ensures
        match gate1_of(name.spec_bytes(), args@) {
            Some(g) => r == Ok::<NamedGate1, Error>(g),
            None => r matches Err(e) && e matches Error::Qasm { line, col, message } && line == 0
                && col == 0 && message@ == "unknown single-qubit gate '"@ + name@ + "'"@,
        },
{
    match gate1_lookup(name.as_bytes(), args) {
        Some(g) => Ok(g),
        None => {
            let mut message = "unknown single-qubit gate '".to_owned();
            message.append(name);
            message.append("'");
            Err(Error::Qasm { line: 0, col: 0, message })
        },
    }
}

/// Maps a gate name to a two-qubit gate of `stdgates.inc`, or the
/// unknown-gate error naming it.
pub fn lookup_gate_2q(name: &str) -> (r: Result<NamedGate2, Error>)
    ensures
        match gate2_of(name.spec_bytes()) {
            Some(g) => r == Ok::<NamedGate2, Error>(g),
            None => r matches Err(e) && e matches Error::Qasm { line, col, message } && line == 0
                && col == 0 && message@ == "unknown two-qubit gate '"@ + name@ + "'"@,
        },
{
    match gate2_lookup(name.as_bytes()) {
        Some(g) => Ok(g),
        None => {
            let mut message = "unknown two-qubit gate '".to_owned();
            message.append(name);
            message.append("'");
            Err(Error::Qasm { line: 0, col: 0, message })
        },
    }
}

/// The two-qubit gate the table has for the name bytes `name`, if any.
pub(crate) fn gate2_lookup(name: &[u8]) -> (r: Option<NamedGate2>)
    ensures
        r == gate2_of(name@),
{
    let w_cx: [u8; 2] = [0x63, 0x78];
    let w_cnot: [u8; 4] = [0x63, 0x6E, 0x6F, 0x74];
    let w_cx_upper: [u8; 2] = [0x43, 0x58];
    let w_cz: [u8; 2] = [0x63, 0x7A];
    let w_swap: [u8; 4] = [0x73, 0x77, 0x61, 0x70];
    assert(w_cx@ =~= seq![0x63u8, 0x78]);
    assert(w_cnot@ =~= seq![0x63u8, 0x6E, 0x6F, 0x74]);
    assert(w_cx_upper@ =~= seq![0x43u8, 0x58]);
    assert(w_cz@ =~= seq![0x63u8, 0x7A]);
    assert(w_swap@ =~= seq![0x73u8, 0x77, 0x61, 0x70]);
    if name_is(name, w_cx.as_slice()) || name_is(name, w_cnot.as_slice()) || name_is(
        name,
        w_cx_upper.as_slice(),
    ) {
        Some(NamedGate2::Cnot)
    } else if name_is(name, w_cz.as_slice()) {
        Some(NamedGate2::Cz)
    } else if name_is(name, w_swap.as_slice()) {
        Some(NamedGate2::Swap)
    } else {
        None
    }
}

/// `name` with arguments `args` is how `stdgates.inc` writes gate `g`: `h`,
/// `x`, `y`, `z`, `s`, `t` and `id` with no argument, `rx`, `ry` and `rz`
/// with the angle, and `p` or `phase` with the phase.
pub open spec fn names_gate1(name: Seq<char>, args: Seq<Expr>, g: NamedGate1) -> bool {
    match g {
        NamedGate1::H => args.len() == 0 && name == "h"@,
        NamedGate1::X => args.len() == 0 && name == "x"@,
        NamedGate1::Y => args.len() == 0 && name == "y"@,
        NamedGate1::Z => args.len() == 0 && name == "z"@,
        NamedGate1::S => args.len() == 0 && name == "s"@,
        NamedGate1::T => args.len() == 0 && name == "t"@,
        NamedGate1::Id => args.len() == 0 && name == "id"@,
        NamedGate1::Rx(e) => args == seq![e] && name == "rx"@,
        NamedGate1::Ry(e) => args == seq![e] && name == "ry"@,
        NamedGate1::Rz(e) => args == seq![e] && name == "rz"@,
        NamedGate1::Phase(e) => args == seq![e] && (name == "p"@ || name == "phase"@),
    }
}

/// `name` is how `stdgates.inc` writes two-qubit gate `g`: `cx`, `cnot` or
/// `CX`; `cz`; `swap`.
pub open spec fn names_gate2(name: Seq<char>, g: NamedGate2) -> bool {
    match g {
        NamedGate2::Cnot => name == "cx"@ || name == "cnot"@ || name == "CX"@,
        NamedGate2::Cz => name == "cz"@,
        NamedGate2::Swap => name == "swap"@,
    }
}

proof fn lemma_reveal_gate_names()
    ensures
        "h"@ == seq!['h'],
        "x"@ == seq!['x'],
        "y"@ == seq!['y'],
        "z"@ == seq!['z'],
        "s"@ == seq!['s'],
        "t"@ == seq!['t'],
        "id"@ == seq!['i', 'd'],
        "rx"@ == seq!['r', 'x'],
        "ry"@ == seq!['r', 'y'],
        "rz"@ == seq!['r', 'z'],
        "p"@ == seq!['p'],
        "phase"@ == seq!['p', 'h', 'a', 's', 'e'],
        "cx"@ == seq!['c', 'x'],
        "cnot"@ == seq!['c', 'n', 'o', 't'],
        "CX"@ == seq!['C', 'X'],
        "cz"@ == seq!['c', 'z'],
        "swap"@ == seq!['s', 'w', 'a', 'p'],
{
    reveal_strlit("h");
    reveal_strlit("x");
    reveal_strlit("y");
    reveal_strlit("z");
    reveal_strlit("s");
    reveal_strlit("t");
    reveal_strlit("id");
    reveal_strlit("rx");
    reveal_strlit("ry");
    reveal_strlit("rz");
    reveal_strlit("p");
    reveal_strlit("phase");
    reveal_strlit("cx");
    reveal_strlit("cnot");
    reveal_strlit("CX");
    reveal_strlit("cz");
    reveal_strlit("swap");
}

/// Two byte strings with the same characters are equal.
proof fn lemma_ascii_chars_injective(a: Seq<u8>, b: Seq<u8>)
    requires
        ascii_chars(a) == ascii_chars(b),
    ensures
        a == b,
{
    assert(a.len() == ascii_chars(a).len());
    assert(b.len() == ascii_chars(b).len());
    assert forall|i: int| 0 <= i < a.len() implies a[i] == b[i] by {
        assert(ascii_chars(a)[i] == ascii_chars(b)[i]);
        assert(ascii_chars(a)[i] == a[i] as char);
        assert(ascii_chars(b)[i] == b[i] as char);
        let x = a[i];
        let y = b[i];
        assert((x as char) == (y as char));
        assert((x as char) as u32 == x as u32);
        assert((y as char) as u32 == y as u32);
    }
    assert(a =~= b);
}

/// The single-qubit gate table maps each `stdgates.inc` name, with the
/// right number of arguments, to the named gate, and nothing else to
/// any gate.
pub proof fn law_gate1_table(b: Seq<u8>, args: Seq<Expr>, g: NamedGate1)
    ensures
        gate1_of(b, args) == Some(g) <==> names_gate1(ascii_chars(b), args, g),
{
    lemma_reveal_gate_names();
    let c = ascii_chars(b);
    assert(ascii_chars(seq![0x68u8]) =~= seq!['h']);
    assert(ascii_chars(seq![0x78u8]) =~= seq!['x']);
    assert(ascii_chars(seq![0x79u8]) =~= seq!['y']);
    assert(ascii_chars(seq![0x7Au8]) =~= seq!['z']);
    assert(ascii_chars(seq![0x73u8]) =~= seq!['s']);
    assert(ascii_chars(seq![0x74u8]) =~= seq!['t']);
    assert(ascii_chars(seq![0x69u8, 0x64]) =~= seq!['i', 'd']);
    assert(ascii_chars(seq![0x72u8, 0x78]) =~= seq!['r', 'x']);
    assert(ascii_chars(seq![0x72u8, 0x79]) =~= seq!['r', 'y']);
    assert(ascii_chars(seq![0x72u8, 0x7A]) =~= seq!['r', 'z']);
    assert(ascii_chars(seq![0x70u8]) =~= seq!['p']);
    assert(ascii_chars(seq![0x70u8, 0x68, 0x61, 0x73, 0x65]) =~= seq!['p', 'h', 'a', 's', 'e']);
    if c == seq!['h'] {
        lemma_ascii_chars_injective(b, seq![0x68u8]);
        assert(b.len() == 1 && b[0] == 0x68u8);
    }
    if c == seq!['x'] {
        lemma_ascii_chars_injective(b, seq![0x78u8]);
        assert(b.len() == 1 && b[0] == 0x78u8);
    }
    if c == seq!['y'] {
        lemma_ascii_chars_injective(b, seq![0x79u8]);
        assert(b.len() == 1 && b[0] == 0x79u8);
    }
    if c == seq!['z'] {
        lemma_ascii_chars_injective(b, seq![0x7Au8]);
        assert(b.len() == 1 && b[0] == 0x7Au8);
    }
    if c == seq!['s'] {
        lemma_ascii_chars_injective(b, seq![0x73u8]);
        assert(b.len() == 1 && b[0] == 0x73u8);
    }
    if c == seq!['t'] {
        lemma_ascii_chars_injective(b, seq![0x74u8]);
        assert(b.len() == 1 && b[0] == 0x74u8);
    }
    if c == seq!['i', 'd'] {
        lemma_ascii_chars_injective(b, seq![0x69u8, 0x64]);
        assert(b.len() == 2 && b[0] == 0x69u8 && b[1] == 0x64);
    }
    if c == seq!['r', 'x'] {
        lemma_ascii_chars_injective(b, seq![0x72u8, 0x78]);
        assert(b.len() == 2 && b[0] == 0x72u8 && b[1] == 0x78);
    }
    if c == seq!['r', 'y'] {
        lemma_ascii_chars_injective(b, seq![0x72u8, 0x79]);
        assert(b.len() == 2 && b[0] == 0x72u8 && b[1] == 0x79);
    }
    if c == seq!['r', 'z'] {
        lemma_ascii_chars_injective(b, seq![0x72u8, 0x7A]);
        assert(b.len() == 2 && b[0] == 0x72u8 && b[1] == 0x7A);
    }
    if c == seq!['p'] {
        lemma_ascii_chars_injective(b, seq![0x70u8]);
        assert(b.len() == 1 && b[0] == 0x70u8);
    }
    if c == seq!['p', 'h', 'a', 's', 'e'] {
        lemma_ascii_chars_injective(b, seq![0x70u8, 0x68, 0x61, 0x73, 0x65]);
        assert(b.len() == 5 && b[0] == 0x70u8 && b[1] == 0x68 && b[2] == 0x61 && b[3] == 0x73 && b[4] == 0x65);
    }
    if args.len() == 1 {
        assert(args =~= seq![args[0]]);
    }
    assert(gate1_of(b, args) == Some(g) ==> names_gate1(c, args, g));
    assert(names_gate1(c, args, g) ==> gate1_of(b, args) == Some(g));
}

/// The two-qubit gate table maps each `stdgates.inc` name to its named
/// gate, and nothing else to any gate.
pub proof fn law_gate2_table(b: Seq<u8>, g: NamedGate2)
    ensures
        gate2_of(b) == Some(g) <==> names_gate2(ascii_chars(b), g),
{
    lemma_reveal_gate_names();
    let c = ascii_chars(b);
    assert(ascii_chars(seq![0x63u8, 0x78]) =~= seq!['c', 'x']);
    assert(ascii_chars(seq![0x63u8, 0x6E, 0x6F, 0x74]) =~= seq!['c', 'n', 'o', 't']);
    assert(ascii_chars(seq![0x43u8, 0x58]) =~= seq!['C', 'X']);
    assert(ascii_chars(seq![0x63u8, 0x7A]) =~= seq!['c', 'z']);
    assert(ascii_chars(seq![0x73u8, 0x77, 0x61, 0x70]) =~= seq!['s', 'w', 'a', 'p']);
    if c == seq!['c', 'x'] {
        lemma_ascii_chars_injective(b, seq![0x63u8, 0x78]);
        assert(b.len() == 2 && b[0] == 0x63u8 && b[1] == 0x78);
    }
    if c == seq!['c', 'n', 'o', 't'] {
        lemma_ascii_chars_injective(b, seq![0x63u8, 0x6E, 0x6F, 0x74]);
        assert(b.len() == 4 && b[0] == 0x63u8 && b[1] == 0x6E && b[2] == 0x6F && b[3] == 0x74);
    }
    if c == seq!['C', 'X'] {
        lemma_ascii_chars_injective(b, seq![0x43u8, 0x58]);
        assert(b.len() == 2 && b[0] == 0x43u8 && b[1] == 0x58);
    }
    if c == seq!['c', 'z'] {
        lemma_ascii_chars_injective(b, seq![0x63u8, 0x7A]);
        assert(b.len() == 2 && b[0] == 0x63u8 && b[1] == 0x7A);
    }
    if c == seq!['s', 'w', 'a', 'p'] {
        lemma_ascii_chars_injective(b, seq![0x73u8, 0x77, 0x61, 0x70]);
        assert(b.len() == 4 && b[0] == 0x73u8 && b[1] == 0x77 && b[2] == 0x61 && b[3] == 0x70);
    }
}

} // verus!
