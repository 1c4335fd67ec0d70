//! Pauli strings: the generators a stabilizer simulation reports.

use vstd::prelude::*;

use crate::clifford::Row;

verus! {

/// A Pauli operator on `n` qubits, with an overall `+1`/`-1` sign.
///
/// Returned by the stabilizer backend as the generators of the final state's
/// stabilizer group. Each generator `P` satisfies `P|psi> = |psi>`.
#[derive(Clone, PartialEq, Eq, Debug)]
pub struct PauliString {
    // per qubit: the (x, z) bit pair, same encoding as the tableau.
    x: Vec<bool>,
    z: Vec<bool>,
    // true if the overall sign is -1.
    neg: bool,
}

/// The letter of the single-qubit Pauli with bits `(x, z)`:
/// `I`, `X`, `Z`, `Y` for `00`, `10`, `01`, `11`.
pub open spec fn pauli_letter(x: bool, z: bool) -> char {
    if !x && !z {
        'I'
    } else if x && !z {
        'X'
    } else if !x && z {
        'Z'
    } else {
        'Y'
    }
}

impl View for PauliString {
    type V = Row;

    /// The `(x bits, z bits, sign bit)` of the operator.
    closed spec fn view(&self) -> Row {
        (self.x@, self.z@, self.neg)
    }
}

impl PauliString {
    /// The `x` and `z` bit strings have one entry per qubit.
    pub closed spec fn wf(&self) -> bool {
        self.x@.len() == self.z@.len()
    }

    /// Builds the operator with bits `x`, `z` and sign bit `neg`.
    pub fn from_bits(x: Vec<bool>, z: Vec<bool>, neg: bool) -> (p: Self)
        requires
            x@.len() == z@.len(),
        ensures
            p.wf(),
            p@ == (x@, z@, neg),
    {
        PauliString { x, z, neg }
    }

    /// The number of qubits this operator acts on.
    pub fn num_qubits(&self) -> (n: usize)
        ensures
            n == self@.0.len(),
    {
        self.x.len()
    }

    /// The sign of the operator: `false` for `+1`, `true` for `-1`.
    pub fn is_negative(&self) -> (neg: bool)
        ensures
            neg == self@.2,
    {
        self.neg
    }

    /// The single-qubit Pauli on qubit `q`, as one of `'I'`, `'X'`, `'Y'`, `'Z'`.
    pub fn pauli(&self, q: usize) -> (c: char)
        requires
            self.wf(),
            q < self@.0.len(),
        ensures
            c == pauli_letter(self@.0[q as int], self@.1[q as int]),
    {
        match (self.x[q], self.z[q]) {
            (false, false) => 'I',
            (true, false) => 'X',
            (false, true) => 'Z',
            (true, true) => 'Y',
        }
    }

    /// The operator as text: its sign (`+` or `-`) followed by one letter
    /// per qubit, qubit 0 first.
    pub fn to_string(&self) -> (s: String)
        requires
            self.wf(),
        ensures
            s@ == pauli_text(self@),
    {
        let mut s = String::new();
        s.push(if self.neg { '-' } else { '+' });
        let mut q: usize = 0;
        while q < self.x.len()
            invariant
                self.wf(),
                0 <= q <= self@.0.len(),
                s@ == pauli_text(self@).take(q + 1),
            decreases self@.0.len() - q,
        {
            let c = self.pauli(q);
            s.push(c);
            assert(pauli_text(self@).take(q + 2) =~= pauli_text(self@).take(q + 1).push(c));
            q = q + 1;
        }
        assert(pauli_text(self@).take(q + 1) =~= pauli_text(self@));
        s
    }

    /// How the operator acts on the basis state `|j>`, up to its global
    /// phase: the basis index it maps `|j>` to (the bits of the `X` and `Y`
    /// positions flipped), and whether the amplitude changes sign (an odd
    /// number of `Z` and `Y` positions where `j` has a set bit).
    pub fn basis_action(&self, j: usize) -> (r: (usize, bool))
        requires
            self.wf(),
            self@.0.len() <= usize::BITS,
        ensures
            r.0 == flipped(self@.0, j, self@.0.len()),
            r.1 == odd_z_overlap(self@.1, j, self@.0.len()),
    {
        let n = self.x.len();
        let mut target = j;
        let mut negate = false;
        let mut q: usize = 0;
        while q < n
            invariant
                self.wf(),
                n == self@.0.len(),
                n <= usize::BITS,
                0 <= q <= n,
                target == flipped(self@.0, j, q as nat),
                negate == odd_z_overlap(self@.1, j, q as nat),
            decreases n - q,
        {
            if self.x[q] {
                target = target ^ (1usize << q);
            }
            if self.z[q] && (j >> q) & 1 == 1 {
                negate = !negate;
            }
            q = q + 1;
        }
        (target, negate)
    }

    /// The global phase of the operator as a power of `i`: each `Y`
    /// contributes one quarter turn (`Y = iXZ`) and a negative sign two.
    pub fn phase_power(&self) -> (k: usize)
        requires
            self.wf(),
        ensures
            k == (y_count(self@.0, self@.1, self@.0.len()) + if self@.2 { 2nat } else { 0nat }) % 4,
    {
        let n = self.x.len();
        let mut count: usize = 0;
        let mut q: usize = 0;
        while q < n
            invariant
                self.wf(),
                n == self@.0.len(),
                0 <= q <= n,
                count == y_count(self@.0, self@.1, q as nat) % 4,
            decreases n - q,
        {
            if self.x[q] && self.z[q] {
                count = (count + 1) % 4;
            }
            q = q + 1;
        }
        if self.neg {
            (count + 2) % 4
        } else {
            count
        }
    }
}

/// The text of an operator: its sign, then one letter per qubit.
pub open spec fn pauli_text(p: Row) -> Seq<char> {
    seq![
        if p.2 {
            '-'
        } else {
            '+'
        },
    ] + Seq::new(p.0.len(), |q: int| pauli_letter(p.0[q], p.1[q]))
}

/// `j` with bit `q` flipped for each `q < k` where `x[q]` is set.
pub open spec fn flipped(x: Seq<bool>, j: usize, k: nat) -> usize
    decreases k,
{
    if k == 0 {
        j
    } else {
        let t = flipped(x, j, (k - 1) as nat);
        if x[k - 1] {
            t ^ (1usize << ((k - 1) as usize))
        } else {
            t
        }
    }
}

/// Whether an odd number of the positions `q < k` have both `z[q]` and bit
/// `q` of `j` set.
pub open spec fn odd_z_overlap(z: Seq<bool>, j: usize, k: nat) -> bool
    decreases k,
{
    if k == 0 {
        false
    } else {
        odd_z_overlap(z, j, (k - 1) as nat) != (z[k - 1] && (j >> ((k - 1) as usize)) & 1 == 1)
    }
}

/// The number of positions `q < k` holding a `Y` (both bits set).
pub open spec fn y_count(x: Seq<bool>, z: Seq<bool>, k: nat) -> nat
    decreases k,
{
    if k == 0 {
        0
    } else {
        y_count(x, z, (k - 1) as nat) + if x[k - 1] && z[k - 1] {
            1nat
        } else {
            0nat
        }
    }
}

} // verus!
