//! Index arithmetic of the kernel that applies gates to amplitudes.
//!
//! A gate on `m` qubits never materializes a `2^n x 2^n` matrix. Instead the
//! kernel iterates over the `2^(n-m)` groups of amplitudes that a gate
//! mixes. For a single-qubit gate on qubit `k`, a counter `i` running over
//! `0..2^(n-1)` has a `0` bit inserted at position `k` to give the index `i0`
//! with bit `k` clear; its partner `i1` has bit `k` set:
//!
//! ```text
//! i0 = ((i >> k) << (k + 1)) | (i & ((1 << k) - 1))
//! i1 = i0 | (1 << k)
//! ```
//!
//! This module computes those indices and proves, for every register size,
//! that they stay in bounds, that each pair is a real pair, and that distinct
//! counters give distinct groups: across the loop every amplitude is touched
//! exactly once.

use vstd::prelude::*;

use vstd::arithmetic::div_mod::{lemma_fundamental_div_mod, lemma_fundamental_div_mod_converse};
use vstd::arithmetic::power2::{lemma2_to64, lemma_pow2_adds, lemma_pow2_pos, pow2};
use vstd::bits::{
    lemma_usize_low_bits_mask_is_mod, lemma_usize_pow2_no_overflow, lemma_usize_shl_is_mul,
    lemma_usize_shr_is_div, low_bits_mask,
};

verus! {

/// `i` with a `0` bit inserted at position `k`: the low `k` bits of `i` stay,
/// the rest shift up by one.
pub open spec fn insert_zero(i: nat, k: nat) -> nat {
    (i / pow2(k)) * pow2(k + 1) + i % pow2(k)
}

/// Bit `k` of `j`.
pub open spec fn bit(j: nat, k: nat) -> bool {
    (j / pow2(k)) % 2 == 1
}

/// The quotient and remainder of `insert_zero(i, k)` by `2^k`: the inserted
/// zero sits just above the unchanged low part.
pub proof fn lemma_insert_zero_parts(i: nat, k: nat)
    ensures
        insert_zero(i, k) / pow2(k) == 2 * (i / pow2(k)),
        insert_zero(i, k) % pow2(k) == i % pow2(k),
{
    let d = pow2(k) as int;
    lemma_pow2_pos(k);
    lemma_pow2_adds(k, 1);
    lemma2_to64();
    let q = (i / pow2(k)) as int;
    let r = (i % pow2(k)) as int;
    assert(q * (d * 2) == (2 * q) * d) by (nonlinear_arith);
    lemma_fundamental_div_mod_converse(insert_zero(i, k) as int, d, 2 * q, r);
}

/// The index with a zero inserted at `k` has bit `k` clear.
pub proof fn law_insert_zero_clears_bit(i: nat, k: nat)
    ensures
        !bit(insert_zero(i, k), k),
{
    lemma_insert_zero_parts(i, k);
    let q = i / pow2(k);
    let x = insert_zero(i, k) / pow2(k);
    assert(x == 2 * q);
    assert(x % 2 == 0) by (nonlinear_arith)
        requires
            x == 2 * q,
    ;
}

/// Inserting a zero bit is injective: distinct counters give distinct
/// indices, so the single-qubit loop visits each pair once.
pub proof fn law_insert_zero_injective(i: nat, j: nat, k: nat)
    requires
        insert_zero(i, k) == insert_zero(j, k),
    ensures
        i == j,
{
    lemma_insert_zero_parts(i, k);
    lemma_insert_zero_parts(j, k);
    lemma_pow2_pos(k);
    lemma_fundamental_div_mod(i as int, pow2(k) as int);
    lemma_fundamental_div_mod(j as int, pow2(k) as int);
}

/// For a counter below `2^m` and `k <= m`, both indices of the pair are below
/// `2^(m+1)`: with `2^n` amplitudes and `i < 2^(n-1)` the pair is in bounds.
pub proof fn law_insert_zero_bound(i: nat, k: nat, m: nat)
    requires
        k <= m,
        i < pow2(m),
    ensures
        insert_zero(i, k) + pow2(k) < pow2(m + 1),
{
    let d = pow2(k) as int;
    lemma_pow2_pos(k);
    lemma_pow2_adds(k, 1);
    lemma_pow2_adds((m - k) as nat, k);
    lemma_pow2_adds((m - k) as nat, k + 1);
    lemma2_to64();
    assert((m - k) as nat + k == m);
    assert((m - k) as nat + (k + 1) == m + 1);
    let e = pow2((m - k) as nat) as int;
    let q = (i / pow2(k)) as int;
    let r = (i % pow2(k)) as int;
    lemma_fundamental_div_mod(i as int, d);
    assert(q < e) by (nonlinear_arith)
        requires
            i == d * q + r,
            0 <= r,
            i < e * d,
            d > 0,
    ;
    assert(q * (d * 2) + r + d < e * (d * 2)) by (nonlinear_arith)
        requires
            q < e,
            r < d,
            0 <= r,
            d > 0,
    ;
}

/// The mask of the bits below position `k`: `(1 << k) - 1`.
pub open spec fn mask_below(k: usize) -> usize {
    ((1usize << k) - 1) as usize
}

/// The pair of step `i` of a single-qubit gate on qubit `k` of a `q`-qubit
/// register: for a counter below `2^(q-1)` both `i0 = insert_zero(i, k)` and
/// `i1 = i0 + 2^k` are below `2^q`, `i0` has bit `k` clear and `i1` has it
/// set, `i0` keeps the low `k` bits of `i`, and the bits of `i0` above `k`
/// are the bits of `i` from `k` up.
pub proof fn law_index_pair_in_register(k: nat, i: nat, q: nat)
    requires
        k < q,
        i < pow2((q - 1) as nat),
    ensures
        insert_zero(i, k) < insert_zero(i, k) + pow2(k) < pow2(q),
        !bit(insert_zero(i, k), k),
        bit(insert_zero(i, k) + pow2(k), k),
        insert_zero(i, k) % pow2(k) == i % pow2(k),
        insert_zero(i, k) / pow2(k + 1) == i / pow2(k),
{
    lemma_pow2_pos(k);
    lemma_pow2_adds(k, 1);
    lemma2_to64();
    law_insert_zero_bound(i, k, (q - 1) as nat);
    assert((q - 1) as nat + 1 == q);
    lemma_insert_zero_parts(i, k);
    law_insert_zero_clears_bit(i, k);
    let d = pow2(k) as int;
    let qq = (i / pow2(k)) as int;
    let r = (i % pow2(k)) as int;
    let i0 = insert_zero(i, k) as int;
    assert(i0 == qq * (d * 2) + r);
    assert(0 <= r < d);
    lemma_fundamental_div_mod_converse(i0, d * 2, qq, r);
    assert(i0 + d == (2 * qq + 1) * d + r) by (nonlinear_arith)
        requires
            i0 == qq * (d * 2) + r,
    ;
    lemma_fundamental_div_mod_converse(i0 + d, d, 2 * qq + 1, r);
    assert((2 * qq + 1) % 2 == 1) by (nonlinear_arith)
        requires
            qq >= 0,
    ;
}

/// The counter of the single-qubit loop on qubit `k` whose pair holds index
/// `j`: `j` with bit `k` removed.
pub open spec fn pair_counter(j: nat, k: nat) -> nat {
    (j / pow2(k + 1)) * pow2(k) + j % pow2(k)
}

/// `i0` of the pair of counter `i`, or its partner `i1` when `high` is set.
pub open spec fn pair_member(i: nat, k: nat, high: bool) -> nat {
    if high {
        insert_zero(i, k) + pow2(k)
    } else {
        insert_zero(i, k)
    }
}

/// Every index `j` of a `q`-qubit register lies in a pair of the
/// single-qubit loop on qubit `k < q`: the pair of counter
/// `pair_counter(j, k) < 2^(q-1)`, as its `i1` exactly when bit `k` of `j`
/// is set.
pub proof fn law_pairs_cover_register(j: nat, k: nat, q: nat)
    requires
        k < q,
        j < pow2(q),
    ensures
        pair_counter(j, k) < pow2((q - 1) as nat),
        j == pair_member(pair_counter(j, k), k, bit(j, k)),
{
    lemma_pow2_pos(k);
    lemma_pow2_adds(k, 1);
    lemma_pow2_adds(k + 1, (q - 1 - k) as nat);
    lemma_pow2_adds(k, (q - 1 - k) as nat);
    lemma2_to64();
    assert(k + 1 + (q - 1 - k) as nat == q);
    assert(k + (q - 1 - k) as nat == (q - 1) as nat);
    let d = pow2(k) as int;
    let dd = d * 2;
    let e = pow2((q - 1 - k) as nat) as int;
    assert(pow2(k + 1) == dd);
    assert(pow2(q) == dd * e);
    assert(pow2((q - 1) as nat) == d * e);
    let jj = j as int;
    let qq = jj / dd;
    let r = jj % d;
    lemma_fundamental_div_mod(jj, dd);
    lemma_fundamental_div_mod(jj, d);
    vstd::arithmetic::div_mod::lemma_breakdown(jj, d, 2);
    let b = (jj / d) % 2;
    assert(jj % (d * 2) == d * b + r);
    assert(0 <= r < d);
    assert(0 <= b < 2);
    vstd::arithmetic::div_mod::lemma_multiply_divide_lt(jj, dd, e);
    assert(qq < e);
    assert(qq >= 0) by {
        vstd::arithmetic::div_mod::lemma_div_pos_is_pos(jj, dd);
    }
    let i = qq * d + r;
    assert(i == pair_counter(j, k));
    assert(i < d * e) by (nonlinear_arith)
        requires
            qq < e,
            0 <= r < d,
            i == qq * d + r,
    ;
    lemma_fundamental_div_mod_converse(i, d, qq, r);
    assert(insert_zero(i as nat, k) == qq * dd + r);
    assert(jj == qq * dd + d * b + r);
    let c = pair_counter(j, k);
    assert(insert_zero(c, k) == qq * dd + r);
    if bit(j, k) {
        assert(b == 1);
        assert(d * b == d) by (nonlinear_arith)
            requires
                b == 1,
        ;
        assert(pair_member(c, k, true) == insert_zero(c, k) + d);
        assert(jj == qq * dd + d + r);
    } else {
        assert(b == 0);
        assert(d * b == 0) by (nonlinear_arith)
            requires
                b == 0,
        ;
        assert(pair_member(c, k, false) == insert_zero(c, k));
        assert(jj == qq * dd + r);
    }
}

/// Two pair members are equal only when they are the same member of the same
/// pair: the pairs of the single-qubit loop are disjoint.
pub proof fn law_pairs_disjoint(i1: nat, h1: bool, i2: nat, h2: bool, k: nat)
    requires
        pair_member(i1, k, h1) == pair_member(i2, k, h2),
    ensures
        i1 == i2,
        h1 == h2,
{
    lemma_pow2_pos(k);
    let d = pow2(k) as int;
    lemma_insert_zero_parts(i1, k);
    lemma_insert_zero_parts(i2, k);
    let a1 = insert_zero(i1, k) as int;
    let a2 = insert_zero(i2, k) as int;
    vstd::arithmetic::div_mod::lemma_div_plus_one(a1, d);
    vstd::arithmetic::div_mod::lemma_div_plus_one(a2, d);
    let q1 = (i1 / pow2(k)) as int;
    let q2 = (i2 / pow2(k)) as int;
    assert((2 * q1) % 2 == 0 && (2 * q1 + 1) % 2 == 1 && (2 * q2) % 2 == 0 && (2 * q2 + 1) % 2 == 1)
        by (nonlinear_arith);
    let v = pair_member(i1, k, h1) as int;
    assert(v / d % 2 == if h1 { 1int } else { 0int });
    assert(v / d % 2 == if h2 { 1int } else { 0int });
    assert(insert_zero(i1, k) == insert_zero(i2, k));
    law_insert_zero_injective(i1, i2, k);
}

/// The bit expression of the kernel computes `insert_zero`.
pub proof fn lemma_insert_zero_bits(i: usize, k: usize)
    requires
        k + 1 < usize::BITS,
        i <= usize::MAX / 2,
    ensures
        insert_zero(i as nat, k as nat) + pow2(k as nat) <= usize::MAX,
        ((i >> k) << (k + 1)) | (i & mask_below(k)) == insert_zero(i as nat, k as nat),
        (1usize << k) == pow2(k as nat),
        pow2(k as nat) > 0,
{
    vstd::layout::unsigned_int_max_values();
    lemma_usize_pow2_no_overflow(k as nat);
    lemma_usize_pow2_no_overflow((k + 1) as nat);
    lemma_usize_shl_is_mul(1, k);
    lemma_usize_shr_is_div(i, k);
    lemma_usize_low_bits_mask_is_mod(i, k as nat);
    lemma_pow2_adds((usize::BITS - 1) as nat, 1);
    lemma2_to64();
    law_insert_zero_bound(i as nat, k as nat, (usize::BITS - 1) as nat);
    lemma_pow2_pos(k as nat);
    let low_mask = mask_below(k);
    let hi = i >> k;
    assert(low_mask == low_bits_mask(k as nat) as usize);
    assert((hi as nat) * pow2((k + 1) as nat) <= insert_zero(i as nat, k as nat));
    lemma_usize_shl_is_mul(hi, (k + 1) as usize);
    let a = hi << (k + 1);
    let b = i & low_mask;
    assert(a & b == 0 && (a | b) == a + b) by (bit_vector)
        requires
            k + 1 < usize::BITS,
            a == hi << (k + 1),
            b == i & low_mask,
            low_mask + 1 == (1usize << k),
    ;
}

/// `i` with a zero bit inserted at position `k`.
fn insert_zero_bit(i: usize, k: usize) -> (r: usize)
    requires
        k + 1 < usize::BITS,
        i <= usize::MAX / 2,
    ensures
        r == insert_zero(i as nat, k as nat),
        r == ((i >> k) << (k + 1)) | (i & mask_below(k)),
{
    proof {
        lemma_insert_zero_bits(i, k);
    }
    let low_mask = (1usize << k) - 1;
    ((i >> k) << (k + 1)) | (i & low_mask)
}

/// Computes the index pair `(i0, i1)` for the `i`-th step of a single-qubit
/// gate on qubit `k`: `i0` is `i` with a zero inserted at bit `k`, and
/// `i1 = i0 | (1 << k)` is its partner.
pub fn index_pair(k: usize, i: usize) -> (pair: (usize, usize))
    requires
        k + 1 < usize::BITS,
        i <= usize::MAX / 2,
    ensures
        pair.0 == insert_zero(i as nat, k as nat),
        pair.1 == pair.0 + pow2(k as nat),
        pair.0 & (1usize << k) == 0,
        pair.1 == pair.0 | (1usize << k),
        pair.0 == ins_bits(i, k),
{
    proof {
        lemma_insert_zero_bits(i, k);
    }
    let i0 = insert_zero_bit(i, k);
    let i1 = i0 | (1usize << k);
    proof {
        let low_mask = mask_below(k);
        let a = (i >> k) << (k + 1);
        let b = i & low_mask;
        assert((a | b) & (1usize << k) == 0 && ((a | b) | (1usize << k)) == (a | b) + (1usize << k))
            by (bit_vector)
            requires
                k + 1 < usize::BITS,
                a == (i >> k) << (k + 1),
                b == i & low_mask,
                low_mask + 1 == (1usize << k),
        ;
    }
    (i0, i1)
}

/// The mask of the bits below `k` is one less than bit `k`.
proof fn lemma_mask_below(k: usize)
    requires
        k + 1 < usize::BITS,
    ensures
        mask_below(k) + 1 == (1usize << k),
{
    let m = mask_below(k);
    assert(m + 1 == (1usize << k)) by (bit_vector)
        requires
            k + 1 < usize::BITS,
            m == ((1usize << k) - 1) as usize,
    ;
}

/// The bit-level insertion of a zero at position `k`.
pub open spec fn ins_bits(x: usize, k: usize) -> usize {
    ((x >> k) << (k + 1)) | (x & mask_below(k))
}

/// Inserting a zero at a higher position `hi` keeps bit `lo < hi`: a number
/// with bit `lo` clear keeps it clear, and setting bit `lo` before the
/// insertion is setting it after.
proof fn lemma_insert_high_keeps_low(t: usize, lo: usize, hi: usize)
    requires
        lo < hi,
        hi + 1 < usize::BITS,
        t & (1usize << lo) == 0,
    ensures
        ins_bits(t, hi) & (1usize << lo) == 0,
        ins_bits(t | (1usize << lo), hi) == ins_bits(t, hi) | (1usize << lo),
        ins_bits(t, hi) & (1usize << hi) == 0,
{
    let ml = mask_below(lo);
    let mh = mask_below(hi);
    lemma_mask_below(lo);
    lemma_mask_below(hi);
    assert(((((t >> hi) << (hi + 1)) | (t & mh)) & (1usize << lo)) == 0
        && (((((t | (1usize << lo)) >> hi) << (hi + 1)) | ((t | (1usize << lo)) & mh))
        == ((((t >> hi) << (hi + 1)) | (t & mh)) | (1usize << lo)))
        && ((((t >> hi) << (hi + 1)) | (t & mh)) & (1usize << hi)) == 0) by (bit_vector)
        requires
            lo < hi,
            hi + 1 < usize::BITS,
            t & (1usize << lo) == 0,
            mh + 1 == (1usize << hi),
    ;
}

/// The base index of the `i`-th group of a two-qubit gate on qubits `a` and
/// `b`: zeros inserted at the lower position, then at the higher one.
pub open spec fn quad_base(i: nat, a: nat, b: nat) -> nat {
    let (lo, hi) = if a < b { (a, b) } else { (b, a) };
    insert_zero(insert_zero(i, lo), hi)
}

/// The four indices of a two-qubit group are in bounds: for a counter below
/// `2^(n-2)` and distinct operands below `n`, the largest index
/// `base + 2^a + 2^b` is below `2^n`.
pub proof fn law_quad_in_bounds(i: usize, a: usize, b: usize, n: usize)
    requires
        a < n,
        b < n,
        a != b,
        n < usize::BITS,
        i < pow2((n - 2) as nat),
    ensures
        quad_base(i as nat, a as nat, b as nat) + pow2(a as nat) + pow2(b as nat) < pow2(n as nat),
{
    let (lo, hi) = if a < b { (a, b) } else { (b, a) };
    vstd::layout::unsigned_int_max_values();
    lemma_pow2_adds((n - 2) as nat, 1);
    lemma_pow2_adds((n - 1) as nat, 1);
    lemma_pow2_adds((usize::BITS - 1) as nat, 1);
    lemma2_to64();
    vstd::arithmetic::power2::lemma_pow2_strictly_increases((n - 1) as nat, (usize::BITS - 1) as nat);
    vstd::arithmetic::power2::lemma_pow2_strictly_increases((n - 2) as nat, (usize::BITS - 1) as nat);
    lemma_insert_zero_bits(i, lo);
    law_insert_zero_bound(i as nat, lo as nat, (n - 2) as nat);
    let t = ins_bits(i, lo);
    assert(t & (1usize << lo) == 0) by (bit_vector)
        requires
            lo + 1 < usize::BITS,
            t == ((i >> lo) << (lo + 1)) | (i & mask_below(lo)),
            mask_below(lo) + 1 == (1usize << lo),
    ;
    let u = t | (1usize << lo);
    assert(u == t + (1usize << lo)) by (bit_vector)
        requires
            t & (1usize << lo) == 0,
            u == t | (1usize << lo),
    ;
    lemma_insert_high_keeps_low(t, lo, hi);
    lemma_insert_zero_bits(t, hi);
    lemma_insert_zero_bits(u, hi);
    law_insert_zero_bound(u as nat, hi as nat, (n - 1) as nat);
    let base = ins_bits(t, hi);
    assert((base | (1usize << lo)) == base + (1usize << lo)) by (bit_vector)
        requires
            base & (1usize << lo) == 0,
    ;
}

/// Computes the index quadruple for a two-qubit gate on qubits `a` and `b`.
///
/// Returns `[i00, i01, i10, i11]`, the indices whose `(a, b)` bits are
/// `(0,0), (0,1), (1,0), (1,1)` and which agree elsewhere.
pub fn index_quad(a: usize, b: usize, i: usize) -> (q: [usize; 4])
    requires
        a != b,
        a + 1 < usize::BITS,
        b + 1 < usize::BITS,
        i <= usize::MAX / 4,
    ensures
        q[0] == quad_base(i as nat, a as nat, b as nat),
        q[1] == q[0] + pow2(b as nat),
        q[2] == q[0] + pow2(a as nat),
        q[3] == q[0] + pow2(a as nat) + pow2(b as nat),
        q[0] & (1usize << a) == 0,
        q[0] & (1usize << b) == 0,
        q[0] == (if a < b {
            ins_bits(ins_bits(i, a), b)
        } else {
            ins_bits(ins_bits(i, b), a)
        }),
        q[1] == q[0] | (1usize << b),
        q[2] == q[0] | (1usize << a),
        q[3] == (q[0] | (1usize << a)) | (1usize << b),
{
    let (lo, hi) = if a < b { (a, b) } else { (b, a) };
    proof {
        vstd::layout::unsigned_int_max_values();
        lemma_pow2_adds((usize::BITS - 2) as nat, 1);
        lemma_pow2_adds((usize::BITS - 1) as nat, 1);
        lemma_pow2_adds((usize::BITS - 2) as nat, 2);
        lemma2_to64();
        lemma_insert_zero_bits(i, lo);
        law_insert_zero_bound(i as nat, lo as nat, (usize::BITS - 2) as nat);
    }
    // insert a 0 at the low target position.
    let t = insert_zero_bit(i, lo);
    proof {
        lemma_insert_zero_bits(t, hi);
        assert(t & (1usize << lo) == 0) by (bit_vector)
            requires
                lo + 1 < usize::BITS,
                t == ((i >> lo) << (lo + 1)) | (i & mask_below(lo)),
                mask_below(lo) + 1 == (1usize << lo),
        ;
        lemma_insert_high_keeps_low(t, lo, hi);
    }
    // insert a 0 at the high target position (in the already-expanded index).
    let base = insert_zero_bit(t, hi);
    // base has both target bits clear; set them per operand a, b.
    let bit_a = 1usize << a;
    let bit_b = 1usize << b;
    proof {
        lemma_insert_zero_bits(i, a);
        lemma_insert_zero_bits(i, b);
        law_insert_zero_bound(t as nat, hi as nat, (usize::BITS - 1) as nat);
        assert(bit_a & bit_b == 0) by (bit_vector)
            requires
                a != b,
                a < usize::BITS,
                b < usize::BITS,
                bit_a == 1usize << a,
                bit_b == 1usize << b,
        ;
        assert((base | bit_a) == base + bit_a && (base | bit_b) == base + bit_b
            && ((base | bit_a) | bit_b) == base + bit_a + bit_b) by (bit_vector)
            requires
                base & bit_a == 0,
                base & bit_b == 0,
                bit_a & bit_b == 0,
        ;
    }
    [base, base | bit_b, base | bit_a, base | bit_a | bit_b]
}


/// The order `<=` on positions.
pub open spec fn position_leq() -> spec_fn(usize, usize) -> bool {
    |a: usize, b: usize| a <= b
}

/// The positions of `ts` in ascending order.
pub open spec fn ascending(ts: Seq<usize>) -> Seq<usize> {
    ts.sort_by(position_leq())
}

/// `x` with a zero bit inserted at each position of `ts` in turn.
pub open spec fn insert_zeros(x: usize, ts: Seq<usize>) -> usize
    decreases ts.len(),
{
    if ts.len() == 0 {
        x
    } else {
        insert_zeros(ins_bits(x, ts[0]), ts.drop_first())
    }
}

/// `base` with bit `targets[j]` set for every bit `j` of `k` that is set.
pub open spec fn set_target_bits(base: usize, targets: Seq<usize>, k: usize) -> usize
    decreases targets.len(),
{
    if targets.len() == 0 {
        base
    } else {
        let prev = set_target_bits(base, targets.drop_last(), k);
        if (k >> ((targets.len() - 1) as usize)) & 1 != 0 {
            prev | (1usize << targets.last())
        } else {
            prev
        }
    }
}

/// The `2^m` indices of group `g` of a gate on the `m` qubits `targets`:
/// member `k` is the group's base (`g` with zeros inserted at the target
/// positions, lowest first) with target bit `targets[j]` set for each set bit
/// `j` of `k`.
pub open spec fn group_member(targets: Seq<usize>, g: usize, k: usize) -> usize {
    set_target_bits(insert_zeros(g, ascending(targets)), targets, k)
}

/// `<=` is a total order on positions.
proof fn lemma_position_leq_total()
    ensures
        vstd::relations::total_ordering(position_leq()),
{
}

/// The positions of `t` in ascending order.
fn sort_positions(t: &[usize]) -> (r: Vec<usize>)
    ensures
        r@ == ascending(t@),
{
    broadcast use vstd::seq_lib::group_to_multiset_ensures;

    let mut r: Vec<usize> = Vec::new();
    let mut i: usize = 0;
    while i < t.len()
        invariant
            0 <= i <= t@.len(),
            vstd::relations::sorted_by(r@, position_leq()),
            r@.to_multiset() == t@.take(i as int).to_multiset(),
        decreases t@.len() - i,
    {
        let x = t[i];
        let mut j: usize = 0;
        while j < r.len() && r[j] <= x
            invariant
                0 <= j <= r@.len(),
                forall|k: int| 0 <= k < j ==> r@[k] <= x,
            decreases r@.len() - j,
        {
            j = j + 1;
        }
        let ghost before = r@;
        r.insert(j, x);
        proof {
            assert forall|a: int, b: int| 0 <= a < b < r@.len() implies #[trigger] (position_leq())(
                r@[a],
                r@[b],
            ) by {
                if a < j && b < j {
                    assert(r@[a] == before[a] && r@[b] == before[b]);
                    assert((position_leq())(before[a], before[b]));
                } else if a < j && b == j {
                    assert(r@[a] == before[a]);
                } else if a < j {
                    assert(r@[a] == before[a] && r@[b] == before[b - 1]);
                    assert((position_leq())(before[a], before[b - 1]));
                } else if a == j {
                    assert(r@[b] == before[b - 1]);
                    assert(j < before.len() && !(before[j as int] <= x));
                    if b - 1 > j {
                        assert((position_leq())(before[j as int], before[b - 1]));
                    }
                } else {
                    assert(r@[a] == before[a - 1] && r@[b] == before[b - 1]);
                    assert((position_leq())(before[a - 1], before[b - 1]));
                }
            }
            vstd::seq_lib::to_multiset_insert(before, j as int, x);
            vstd::seq_lib::to_multiset_build(t@.take(i as int), x);
            assert(r@.to_multiset() == before.insert(j as int, x).to_multiset());
            assert(t@.take(i + 1) =~= t@.take(i as int).push(x));
            assert(t@.take(i + 1).to_multiset() == t@.take(i as int).push(x).to_multiset());
        }
        i = i + 1;
    }
    proof {
        assert(t@.take(t@.len() as int) =~= t@);
        t@.lemma_sort_by_ensures(position_leq());
        lemma_position_leq_total();
        vstd::seq_lib::lemma_sorted_unique(r@, ascending(t@), position_leq());
    }
    r
}

/// Returns the `2^m` row or column indices of group `g` for a gate acting on
/// the `m` qubits `targets` (in its own bit order) of a register: the
/// indices whose non-target bits spell `g` and whose target bits run through
/// every combination, the `k`-th index setting target bit `targets[j]` for
/// each set bit `j` of `k`.
pub fn index_group(targets: &[usize], _n: usize, g: usize) -> (v: Vec<usize>)
    requires
        targets@.len() + 1 < usize::BITS,
        forall|i: int| 0 <= i < targets@.len() ==> #[trigger] targets@[i] + 1 < usize::BITS,
    ensures
        v@.len() == pow2(targets@.len()),
        forall|k: int| 0 <= k < v@.len() ==> #[trigger] v@[k] == group_member(targets@, g, k as usize),
{
    let m = targets.len();
    let gate_dim = 1usize << m;
    let sorted_targets = sort_positions(targets);
    proof {
        vstd::layout::unsigned_int_max_values();
        lemma2_to64();
        vstd::arithmetic::power2::lemma_pow2_strictly_increases(m as nat, (usize::BITS - 1) as nat);
        lemma_pow2_adds((usize::BITS - 1) as nat, 1);
        lemma_usize_pow2_no_overflow(m as nat);
        lemma_usize_shl_is_mul(1, m);
        targets@.lemma_sort_by_ensures(position_leq());
        assert forall|i: int| 0 <= i < sorted_targets@.len() implies #[trigger] sorted_targets@[i] + 1
            < usize::BITS by {
            assert(ascending(targets@).contains(sorted_targets@[i]));
            assert(targets@.contains(sorted_targets@[i]));
        }
    }
    let mut base = g;
    let mut s: usize = 0;
    assert(sorted_targets@.skip(0) =~= sorted_targets@);
    while s < sorted_targets.len()
        invariant
            0 <= s <= sorted_targets@.len(),
            forall|i: int| 0 <= i < sorted_targets@.len() ==> #[trigger] sorted_targets@[i] + 1
                < usize::BITS,
            insert_zeros(g, sorted_targets@) == insert_zeros(base, sorted_targets@.skip(s as int)),
        decreases sorted_targets@.len() - s,
    {
        let t = sorted_targets[s];
        assert((1usize << t) >= 1) by (bit_vector)
            requires
                t + 1 < usize::BITS,
        ;
        let low_mask = (1usize << t) - 1;
        assert(sorted_targets@.skip(s as int).drop_first() =~= sorted_targets@.skip(s + 1));
        base = ((base >> t) << (t + 1)) | (base & low_mask);
        s = s + 1;
    }
    assert(sorted_targets@.skip(s as int) =~= seq![]);
    let mut v: Vec<usize> = Vec::new();
    let mut k: usize = 0;
    while k < gate_dim
        invariant
            0 <= k <= gate_dim,
            gate_dim == pow2(m as nat),
            m == targets@.len(),
            m + 1 < usize::BITS,
            base == insert_zeros(g, ascending(targets@)),
            forall|i: int| 0 <= i < targets@.len() ==> #[trigger] targets@[i] + 1 < usize::BITS,
            v@.len() == k,
            forall|q: int| 0 <= q < k ==> #[trigger] v@[q] == group_member(targets@, g, q as usize),
        decreases gate_dim - k,
    {
        let mut idx = base;
        let mut bit_pos: usize = 0;
        while bit_pos < m
            invariant
                0 <= bit_pos <= m,
                m == targets@.len(),
                m + 1 < usize::BITS,
                forall|i: int| 0 <= i < targets@.len() ==> #[trigger] targets@[i] + 1 < usize::BITS,
                idx == set_target_bits(base, targets@.take(bit_pos as int), k),
            decreases m - bit_pos,
        {
            let t = targets[bit_pos];
            assert(targets@.take(bit_pos + 1).drop_last() =~= targets@.take(bit_pos as int));
            if (k >> bit_pos) & 1 != 0 {
                idx = idx | (1usize << t);
            }
            bit_pos = bit_pos + 1;
        }
        assert(targets@.take(m as int) =~= targets@);
        v.push(idx);
        k = k + 1;
    }
    v
}


/// `x` with bit `k` removed: the bits above `k` shift down by one.
pub open spec fn rem_bits(x: usize, k: usize) -> usize {
    ((x >> (k + 1)) << k) | (x & mask_below(k))
}

/// The group of a two-qubit gate on positions `lo < hi` that index `j`
/// belongs to: `j` with bits `hi` and `lo` removed.
pub open spec fn quad_group(j: usize, lo: usize, hi: usize) -> usize {
    rem_bits(rem_bits(j, hi), lo)
}

/// A counter of a two-qubit loop keeps its value through a shift left by two.
proof fn lemma_no_top_bits(i: usize)
    requires
        i <= usize::MAX / 4,
    ensures
        (i << 2usize) >> 2usize == i,
{
    lemma2_to64();
    lemma_usize_shl_is_mul(i, 2);
    lemma_usize_shr_is_div(i << 2usize, 2);
}

/// Removing a bit just inserted gives the number back, provided no bit was
/// lost off the top.
proof fn lemma_rem_ins(v: usize, k: usize)
    requires
        k + 1 < usize::BITS,
        (v << 1usize) >> 1usize == v,
    ensures
        rem_bits(ins_bits(v, k), k) == v,
{
    let m = mask_below(k);
    lemma_mask_below(k);
    let x = ((v >> k) << (k + 1)) | (v & m);
    assert((((x >> (k + 1)) << k) | (x & m)) == v) by (bit_vector)
        requires
            k + 1 < usize::BITS,
            (v << 1usize) >> 1usize == v,
            m + 1 == (1usize << k),
            x == ((v >> k) << (k + 1)) | (v & m),
    ;
}

/// The removed bit does not matter.
proof fn lemma_rem_ignores_bit(x: usize, k: usize)
    requires
        k + 1 < usize::BITS,
    ensures
        rem_bits(x | (1usize << k), k) == rem_bits(x, k),
{
    let m = mask_below(k);
    lemma_mask_below(k);
    let y = x | (1usize << k);
    assert((((y >> (k + 1)) << k) | (y & m)) == (((x >> (k + 1)) << k) | (x & m))) by (bit_vector)
        requires
            k + 1 < usize::BITS,
            m + 1 == (1usize << k),
            y == x | (1usize << k),
    ;
}

/// Removing a higher bit keeps a lower bit in place.
proof fn lemma_rem_high_keeps_low(x: usize, lo: usize, hi: usize)
    requires
        lo < hi,
        hi + 1 < usize::BITS,
    ensures
        rem_bits(x | (1usize << lo), hi) == rem_bits(x, hi) | (1usize << lo),
{
    let m = mask_below(hi);
    lemma_mask_below(hi);
    let y = x | (1usize << lo);
    assert((((y >> (hi + 1)) << hi) | (y & m)) == ((((x >> (hi + 1)) << hi) | (x & m)) | (1usize
        << lo))) by (bit_vector)
        requires
            lo < hi,
            hi + 1 < usize::BITS,
            m + 1 == (1usize << hi),
            y == x | (1usize << lo),
    ;
}

/// Inserting a zero into a counter with two free top bits leaves one free.
proof fn lemma_ins_keeps_room(i: usize, k: usize)
    requires
        k + 1 < usize::BITS,
        (i << 2usize) >> 2usize == i,
    ensures
        (ins_bits(i, k) << 1usize) >> 1usize == ins_bits(i, k),
        (i << 1usize) >> 1usize == i,
{
    let m = mask_below(k);
    lemma_mask_below(k);
    let x = ((i >> k) << (k + 1)) | (i & m);
    assert((x << 1usize) >> 1usize == x && (i << 1usize) >> 1usize == i) by (bit_vector)
        requires
            k + 1 < usize::BITS,
            (i << 2usize) >> 2usize == i,
            m + 1 == (1usize << k),
            x == ((i >> k) << (k + 1)) | (i & m),
    ;
}

/// Removing the two inserted zeros of a group's base, with or without its
/// operand bits set, gives back the group.
proof fn lemma_quad_corner_group(i: usize, lo: usize, hi: usize, set_lo: bool, set_hi: bool)
    requires
        lo < hi,
        hi + 1 < usize::BITS,
        i <= usize::MAX / 4,
    ensures
        ({
            let base = ins_bits(ins_bits(i, lo), hi);
            let x1 = if set_lo {
                base | (1usize << lo)
            } else {
                base
            };
            let x = if set_hi {
                x1 | (1usize << hi)
            } else {
                x1
            };
            quad_group(x, lo, hi) == i
        }),
{
    lemma_no_top_bits(i);
    lemma_ins_keeps_room(i, lo);
    let t = ins_bits(i, lo);
    let base = ins_bits(t, hi);
    let x1 = if set_lo {
        base | (1usize << lo)
    } else {
        base
    };
    let x = if set_hi {
        x1 | (1usize << hi)
    } else {
        x1
    };
    if set_hi {
        lemma_rem_ignores_bit(x1, hi);
    }
    lemma_rem_ins(t, hi);
    if set_lo {
        lemma_rem_high_keeps_low(base, lo, hi);
        lemma_rem_ignores_bit(t, lo);
    }
    lemma_rem_ins(i, lo);
}

/// Putting a removed bit back, and its value, gives the number back.
proof fn lemma_ins_rem(y: usize, k: usize)
    requires
        k + 1 < usize::BITS,
    ensures
        ins_bits(rem_bits(y, k), k) | (y & (1usize << k)) == y,
        ins_bits(rem_bits(y, k), k) & (1usize << k) == 0,
{
    let m = mask_below(k);
    lemma_mask_below(k);
    let r = ((y >> (k + 1)) << k) | (y & m);
    let x = ((r >> k) << (k + 1)) | (r & m);
    assert((x | (y & (1usize << k))) == y && x & (1usize << k) == 0) by (bit_vector)
        requires
            k + 1 < usize::BITS,
            m + 1 == (1usize << k),
            r == ((y >> (k + 1)) << k) | (y & m),
            x == ((r >> k) << (k + 1)) | (r & m),
    ;
}

/// Removing a higher bit keeps the value of a lower bit.
proof fn lemma_rem_high_low_bit(y: usize, lo: usize, hi: usize)
    requires
        lo < hi,
        hi + 1 < usize::BITS,
    ensures
        rem_bits(y, hi) & (1usize << lo) == y & (1usize << lo),
{
    let m = mask_below(hi);
    lemma_mask_below(hi);
    let r = ((y >> (hi + 1)) << hi) | (y & m);
    assert(r & (1usize << lo) == y & (1usize << lo)) by (bit_vector)
        requires
            lo < hi,
            hi + 1 < usize::BITS,
            m + 1 == (1usize << hi),
            r == ((y >> (hi + 1)) << hi) | (y & m),
    ;
}

/// Every index lies in the group that `quad_group` names: it is that group's
/// base with its own two operand bits.
proof fn lemma_quad_cover(j: usize, lo: usize, hi: usize)
    requires
        lo < hi,
        hi + 1 < usize::BITS,
    ensures
        j == ins_bits(ins_bits(quad_group(j, lo, hi), lo), hi) | (j & (1usize << lo)) | (j & (
        1usize << hi)),
{
    let y1 = rem_bits(j, hi);
    let g = rem_bits(y1, lo);
    lemma_ins_rem(j, hi);
    lemma_ins_rem(y1, lo);
    lemma_rem_high_low_bit(j, lo, hi);
    let t = ins_bits(g, lo);
    let l = 1usize << lo;
    let h = 1usize << hi;
    // y1 == t | (y1 & l), and bit lo of t is clear.
    if y1 & l != 0 {
        assert(y1 & l == l) by (bit_vector)
            requires
                y1 & l != 0,
                l == 1usize << lo,
                lo < usize::BITS,
        ;
        lemma_insert_high_keeps_low(t, lo, hi);
        assert(ins_bits(y1, hi) == ins_bits(t, hi) | l);
    } else {
        assert(t | (y1 & l) == t) by (bit_vector)
            requires
                y1 & l == 0,
        ;
    }
    let base = ins_bits(t, hi);
    assert(j == ins_bits(y1, hi) | (j & h));
    assert((base | (j & l) | (j & h)) == j) by (bit_vector)
        requires
            j == ins_bits(y1, hi) | (j & h),
            j & l == y1 & l,
            (j & l != 0) ==> ins_bits(y1, hi) == base | l,
            (j & l == 0) ==> ins_bits(y1, hi) == base,
            l == 1usize << lo,
            lo < usize::BITS,
    ;
}

/// `len` is a power of two.
pub open spec fn is_pow2(len: usize) -> bool {
    len != 0 && len & ((len - 1) as usize) == 0
}

/// In a register of `len` indices (a power of two), removing an operand's bit
/// halves the range, and inserting it back with or without the bit set
/// stays in range.
proof fn lemma_bit_range(v: usize, k: usize, len: usize)
    requires
        is_pow2(len),
        k + 1 < usize::BITS,
        (1usize << k) < len,
    ensures
        v < len ==> rem_bits(v, k) < (len >> 1usize),
        v < (len >> 1usize) ==> ins_bits(v, k) | (1usize << k) < len && ins_bits(v, k) < len,
        is_pow2(len >> 1usize),
{
    let m = mask_below(k);
    let lm1 = (len - 1) as usize;
    assert(m + 1 == (1usize << k)) by (bit_vector)
        requires
            k + 1 < usize::BITS,
            m == ((1usize << k) - 1) as usize,
    ;
    let r = ((v >> (k + 1)) << k) | (v & m);
    let x = ((v >> k) << (k + 1)) | (v & m);
    let half = len >> 1usize;
    let hm1 = (half - 1) as usize;
    assert((v < len ==> r < half) && (v < half ==> (x | (1usize << k)) < len && x < len) && half != 0
        && half & hm1 == 0) by (bit_vector)
        requires
            len != 0,
            len & lm1 == 0,
            lm1 == len - 1,
            k + 1 < usize::BITS,
            (1usize << k) < len,
            m + 1 == (1usize << k),
            r == ((v >> (k + 1)) << k) | (v & m),
            x == ((v >> k) << (k + 1)) | (v & m),
            half == len >> 1usize,
            hm1 == (half - 1) as usize,
    ;
}

/// In a register of `len` indices (a power of two) with operand positions
/// `lo < hi` inside it, every index's group is below `len / 4`, and every
/// corner of a group below `len / 4` is an index.
proof fn lemma_quad_range(lo: usize, hi: usize, len: usize)
    requires
        is_pow2(len),
        lo < hi,
        hi + 1 < usize::BITS,
        (1usize << hi) < len,
    ensures
        forall|j: usize| j < len ==> #[trigger] quad_group(j, lo, hi) < len / 4,
        forall|i: usize, set_lo: bool, set_hi: bool|
            i < len / 4 ==> #[trigger] quad_corner(i, lo, hi, set_lo, set_hi) < len,
{
    let half = len >> 1usize;
    let lm1 = (len - 1) as usize;
    assert((1usize << lo) < half && len / 4 == (half >> 1usize)) by (bit_vector)
        requires
            len != 0,
            len & lm1 == 0,
            lm1 == len - 1,
            lo < hi,
            hi + 1 < usize::BITS,
            (1usize << hi) < len,
            half == len >> 1usize,
    ;
    lemma_bit_range(0, hi, len);
    assert forall|j: usize| j < len implies #[trigger] quad_group(j, lo, hi) < len / 4 by {
        lemma_bit_range(j, hi, len);
        lemma_bit_range(rem_bits(j, hi), lo, half);
    }
    assert forall|i: usize, set_lo: bool, set_hi: bool| i < len / 4 implies #[trigger] quad_corner(
        i,
        lo,
        hi,
        set_lo,
        set_hi,
    ) < len by {
        lemma_bit_range(i, lo, half);
        let t = ins_bits(i, lo);
        let tl = t | (1usize << lo);
        lemma_bit_range(t, hi, len);
        lemma_bit_range(tl, hi, len);
        if set_lo {
            lemma_ins_clears(i, lo);
            lemma_insert_high_keeps_low(t, lo, hi);
        }
    }
}

/// Inserting a zero at `k` leaves bit `k` clear.
proof fn lemma_ins_clears(x: usize, k: usize)
    requires
        k + 1 < usize::BITS,
    ensures
        ins_bits(x, k) & (1usize << k) == 0,
{
    let m = mask_below(k);
    lemma_mask_below(k);
    let y = ((x >> k) << (k + 1)) | (x & m);
    assert(y & (1usize << k) == 0) by (bit_vector)
        requires
            k + 1 < usize::BITS,
            m + 1 == (1usize << k),
            y == ((x >> k) << (k + 1)) | (x & m),
    ;
}

/// The corner of group `i` with the `lo` and `hi` bits set as asked.
pub open spec fn quad_corner(i: usize, lo: usize, hi: usize, set_lo: bool, set_hi: bool) -> usize {
    let base = ins_bits(ins_bits(i, lo), hi);
    let x1 = if set_lo {
        base | (1usize << lo)
    } else {
        base
    };
    if set_hi {
        x1 | (1usize << hi)
    } else {
        x1
    }
}

/// The lower of two positions.
pub open spec fn low_of(a: usize, b: usize) -> usize {
    if a < b {
        a
    } else {
        b
    }
}

/// The higher of two positions.
pub open spec fn high_of(a: usize, b: usize) -> usize {
    if a < b {
        b
    } else {
        a
    }
}

/// The four indices of group `i` of a two-qubit gate on operands `a, b`,
/// in `index_quad` order: operand bits `(0,0), (0,1), (1,0), (1,1)`.
pub open spec fn quad_indices(i: usize, a: usize, b: usize) -> Seq<usize> {
    let lo = low_of(a, b);
    let hi = high_of(a, b);
    let base = ins_bits(ins_bits(i, lo), hi);
    seq![base, base | (1usize << b), base | (1usize << a), (base | (1usize << a)) | (1usize << b)]
}

/// The indices of a group are its corners, and a member of a group is one
/// of its four indices, told apart by its operand bits.
proof fn lemma_group_members(j: usize, i: usize, a: usize, b: usize)
    requires
        a != b,
        a + 1 < usize::BITS,
        b + 1 < usize::BITS,
        i <= usize::MAX / 4,
    ensures
        forall|c: int|
            0 <= c < 4 ==> #[trigger] quad_group(quad_indices(i, a, b)[c], low_of(a, b), high_of(a, b))
                == i,
        quad_group(j, low_of(a, b), high_of(a, b)) == i ==> (j == quad_indices(i, a, b)[0] || j
            == quad_indices(i, a, b)[1] || j == quad_indices(i, a, b)[2] || j == quad_indices(
            i,
            a,
            b,
        )[3]),
        quad_indices(i, a, b)[0] & (1usize << a) == 0,
        quad_indices(i, a, b)[0] & (1usize << b) == 0,
        quad_indices(i, a, b)[0] == quad_corner(i, low_of(a, b), high_of(a, b), false, false),
        quad_indices(i, a, b)[1] == quad_corner(i, low_of(a, b), high_of(a, b), a > b, a < b),
        quad_indices(i, a, b)[2] == quad_corner(i, low_of(a, b), high_of(a, b), a < b, a > b),
        quad_indices(i, a, b)[3] == quad_corner(i, low_of(a, b), high_of(a, b), true, true),
{
    let lo = low_of(a, b);
    let hi = high_of(a, b);
    let q = quad_indices(i, a, b);
    let base = q[0];
    let l = 1usize << lo;
    let h = 1usize << hi;
    let la = 1usize << a;
    let lb = 1usize << b;
    lemma_no_top_bits(i);
    lemma_ins_keeps_room(i, lo);
    lemma_ins_clears(i, lo);
    lemma_ins_clears(ins_bits(i, lo), hi);
    lemma_insert_high_keeps_low(ins_bits(i, lo), lo, hi);
    assert(base & l == 0 && base & h == 0);
    lemma_quad_corner_group(i, lo, hi, false, false);
    lemma_quad_corner_group(i, lo, hi, true, false);
    lemma_quad_corner_group(i, lo, hi, false, true);
    lemma_quad_corner_group(i, lo, hi, true, true);
    assert(((base | l) | h) == ((base | h) | l)) by (bit_vector);
    assert(q[1] == quad_corner(i, lo, hi, a > b, a < b));
    assert(q[2] == quad_corner(i, lo, hi, a < b, a > b));
    assert(q[3] == quad_corner(i, lo, hi, true, true));
    assert(q[0] == quad_corner(i, lo, hi, false, false));
    if quad_group(j, lo, hi) == i {
        lemma_quad_cover(j, lo, hi);
        assert(j == base | (j & l) | (j & h));
        assert(j == base || j == base | l || j == base | h || j == (base | l) | h) by (bit_vector)
            requires
                j == base | (j & l) | (j & h),
                l == 1usize << lo,
                h == 1usize << hi,
                lo < usize::BITS,
                hi < usize::BITS,
        ;
    }
}

/// The index whose amplitude CNOT (control `a`, target `b`) moves to `j`:
/// `j` with bit `b` flipped when bit `a` is set.
pub open spec fn cnot_source(j: usize, a: usize, b: usize) -> usize {
    if j & (1usize << a) != 0 {
        j ^ (1usize << b)
    } else {
        j
    }
}

/// The index whose amplitude SWAP moves to `j`: `j` with bits `a` and `b`
/// exchanged.
pub open spec fn swap_source(j: usize, a: usize, b: usize) -> usize {
    if (j & (1usize << a) != 0) == (j & (1usize << b) != 0) {
        j
    } else {
        (j ^ (1usize << a)) ^ (1usize << b)
    }
}

/// The operand bits of the four indices of a group, and where CNOT and SWAP
/// take their amplitudes from.
proof fn lemma_quad_bits(q: Seq<usize>, a: usize, b: usize)
    requires
        a != b,
        a < usize::BITS,
        b < usize::BITS,
        q.len() == 4,
        q[0] & (1usize << a) == 0,
        q[0] & (1usize << b) == 0,
        q[1] == q[0] | (1usize << b),
        q[2] == q[0] | (1usize << a),
        q[3] == (q[0] | (1usize << a)) | (1usize << b),
    ensures
        cnot_source(q[0], a, b) == q[0],
        cnot_source(q[1], a, b) == q[1],
        cnot_source(q[2], a, b) == q[3],
        cnot_source(q[3], a, b) == q[2],
        swap_source(q[0], a, b) == q[0],
        swap_source(q[1], a, b) == q[2],
        swap_source(q[2], a, b) == q[1],
        swap_source(q[3], a, b) == q[3],
        q[0] != q[1] && q[0] != q[2] && q[0] != q[3] && q[1] != q[2] && q[1] != q[3] && q[2] != q[3],
{
    let (q0, q1, q2, q3) = (q[0], q[1], q[2], q[3]);
    assert(cnot_source(q0, a, b) == q0 && cnot_source(q1, a, b) == q1 && cnot_source(q2, a, b) == q3
        && cnot_source(q3, a, b) == q2 && swap_source(q0, a, b) == q0 && swap_source(q1, a, b) == q2
        && swap_source(q2, a, b) == q1 && swap_source(q3, a, b) == q3 && q0 != q1 && q0 != q2 && q0
        != q3 && q1 != q2 && q1 != q3 && q2 != q3) by (bit_vector)
        requires
            a != b,
            a < usize::BITS,
            b < usize::BITS,
            q0 & (1usize << a) == 0,
            q0 & (1usize << b) == 0,
            q1 == q0 | (1usize << b),
            q2 == q0 | (1usize << a),
            q3 == (q0 | (1usize << a)) | (1usize << b),
    ;
}

/// CNOT on control `a` and target `b`: for each group, exchange the
/// amplitudes whose control bit is set. Every index `j` ends up holding the
/// amplitude that stood at `cnot_source(j)`.
pub fn apply_2q_cnot<T: Copy>(amps: &mut [T], a: usize, b: usize)
    requires
        is_pow2(old(amps)@.len() as usize),
        a != b,
        a + 1 < usize::BITS,
        b + 1 < usize::BITS,
        (1usize << a) < old(amps)@.len(),
        (1usize << b) < old(amps)@.len(),
    ensures
        final(amps)@.len() == old(amps)@.len(),
        forall|j: int|
            0 <= j < old(amps)@.len() ==> #[trigger] final(amps)@[j] == old(amps)@[cnot_source(
                j as usize,
                a,
                b,
            ) as int],
{
    permute_groups(amps, a, b, true);
}

/// SWAP of operands `a` and `b`: for each group, exchange the amplitudes
/// whose operand bits differ. Every index `j` ends up holding the amplitude
/// that stood at `swap_source(j)`.
pub fn apply_2q_swap<T: Copy>(amps: &mut [T], a: usize, b: usize)
    requires
        is_pow2(old(amps)@.len() as usize),
        a != b,
        a + 1 < usize::BITS,
        b + 1 < usize::BITS,
        (1usize << a) < old(amps)@.len(),
        (1usize << b) < old(amps)@.len(),
    ensures
        final(amps)@.len() == old(amps)@.len(),
        forall|j: int|
            0 <= j < old(amps)@.len() ==> #[trigger] final(amps)@[j] == old(amps)@[swap_source(
                j as usize,
                a,
                b,
            ) as int],
{
    permute_groups(amps, a, b, false);
}

/// Where the amplitude at `j` comes from: CNOT's source, or SWAP's.
pub open spec fn group_source(j: usize, a: usize, b: usize, cnot: bool) -> usize {
    if cnot {
        cnot_source(j, a, b)
    } else {
        swap_source(j, a, b)
    }
}

/// Exchanges, in every group of a two-qubit gate on `a, b`, the amplitudes
/// of indices `2` and `3` (CNOT) or `1` and `2` (SWAP).
fn permute_groups<T: Copy>(amps: &mut [T], a: usize, b: usize, cnot: bool)
    requires
        is_pow2(old(amps)@.len() as usize),
        a != b,
        a + 1 < usize::BITS,
        b + 1 < usize::BITS,
        (1usize << a) < old(amps)@.len(),
        (1usize << b) < old(amps)@.len(),
    ensures
        final(amps)@.len() == old(amps)@.len(),
        forall|j: int|
            0 <= j < old(amps)@.len() ==> #[trigger] final(amps)@[j] == old(amps)@[group_source(
                j as usize,
                a,
                b,
                cnot,
            ) as int],
{
    let ghost old_amps = amps@;
    let ghost lo = low_of(a, b);
    let ghost hi = high_of(a, b);
    let len = amps.len();
    proof {
        lemma_quad_range(lo, hi, len);
    }
    let groups = len / 4;
    let mut i: usize = 0;
    while i < groups
        invariant
            amps@.len() == old_amps.len(),
            len == amps@.len(),
            groups == len / 4,
            i <= groups,
            a != b,
            a + 1 < usize::BITS,
            b + 1 < usize::BITS,
            lo == low_of(a, b),
            hi == high_of(a, b),
            forall|i: usize, set_lo: bool, set_hi: bool|
                i < len / 4 ==> #[trigger] quad_corner(i, lo, hi, set_lo, set_hi) < len,
            forall|j: int|
                0 <= j < amps@.len() ==> #[trigger] amps@[j] == (if quad_group(j as usize, lo, hi) < i {
                    old_amps[group_source(j as usize, a, b, cnot) as int]
                } else {
                    old_amps[j]
                }),
        decreases groups - i,
    {
        let idx = index_quad(a, b, i);
        let ghost q = quad_indices(i, a, b);
        let ghost before = amps@;
        proof {
            assert(idx@ =~= q);
            lemma_group_members(0, i, a, b);
            lemma_quad_bits(q, a, b);
        }
        let (x, y) = if cnot {
            (idx[2], idx[3])
        } else {
            (idx[1], idx[2])
        };
        let tmp = amps[x];
        amps[x] = amps[y];
        amps[y] = tmp;
        proof {
            assert forall|j: int| 0 <= j < amps@.len() implies #[trigger] amps@[j] == (if quad_group(
                j as usize,
                lo,
                hi,
            ) < i + 1 {
                old_amps[group_source(j as usize, a, b, cnot) as int]
            } else {
                old_amps[j]
            }) by {
                lemma_group_members(j as usize, i, a, b);
                assert(before[j] == (if quad_group(j as usize, lo, hi) < i {
                    old_amps[group_source(j as usize, a, b, cnot) as int]
                } else {
                    old_amps[j]
                }));
                assert(before[x as int] == old_amps[x as int]);
                assert(before[y as int] == old_amps[y as int]);
            }
        }
        i = i + 1;
    }
    proof {
        lemma_quad_range(lo, hi, len);
    }
}

/// The pairs of a single-qubit gate on qubit `k` partition a register of
/// `len` indices (a power of two): every index `j` is a member of pair
/// `rem_bits(j, k)`, which is below `len / 2`, and both members of a pair
/// `i` map back to `i`. Across the loop every amplitude is touched exactly
/// once.
pub proof fn law_pairs_partition(j: usize, i: usize, k: usize, len: usize)
    requires
        is_pow2(len),
        k + 1 < usize::BITS,
        (1usize << k) < len,
    ensures
        j < len ==> rem_bits(j, k) < len / 2 && j == ins_bits(rem_bits(j, k), k) | (j & (1usize
            << k)),
        i < len / 2 ==> rem_bits(ins_bits(i, k), k) == i && rem_bits(
            ins_bits(i, k) | (1usize << k),
            k,
        ) == i,
{
    lemma_bit_range(j, k, len);
    lemma_ins_rem(j, k);
    assert(len / 2 == len >> 1usize) by (bit_vector);
    if i < len / 2 {
        assert((i << 1usize) >> 1usize == i) by (bit_vector)
            requires
                i < len / 2,
        ;
        lemma_rem_ins(i, k);
        lemma_rem_ignores_bit(ins_bits(i, k), k);
    }
}

/// The groups of a two-qubit gate on operands `a != b` partition a register
/// of `len` indices (a power of two): every index `j` is one of the four
/// indices of group `quad_group(j, ..)`, which is below `len / 4`, and all
/// four indices of a group `i` map back to `i`. Across the loop every
/// amplitude is touched exactly once.
pub proof fn law_quads_partition(j: usize, i: usize, a: usize, b: usize, len: usize)
    requires
        is_pow2(len),
        a != b,
        a + 1 < usize::BITS,
        b + 1 < usize::BITS,
        (1usize << a) < len,
        (1usize << b) < len,
    ensures
        j < len ==> ({
            let g = quad_group(j, low_of(a, b), high_of(a, b));
            &&& g < len / 4
            &&& quad_indices(g, a, b).contains(j)
        }),
        i < len / 4 ==> forall|c: int|
            0 <= c < 4 ==> quad_group(#[trigger] quad_indices(i, a, b)[c], low_of(a, b), high_of(a, b))
                == i && quad_indices(i, a, b)[c] < len,
{
    let lo = low_of(a, b);
    let hi = high_of(a, b);
    lemma_quad_range(lo, hi, len);
    if j < len {
        let g = quad_group(j, lo, hi);
        assert(g <= usize::MAX / 4);
        lemma_group_members(j, g, a, b);
        let q = quad_indices(g, a, b);
        if j == q[0] {
            assert(q[0] == q[0]);
        }
        assert(j == q[0] || j == q[1] || j == q[2] || j == q[3]);
    }
    if i < len / 4 {
        assert(i <= usize::MAX / 4);
        lemma_group_members(0, i, a, b);
    }
}

/// CNOT undoes itself: taking the source index twice returns every index.
pub proof fn law_cnot_source_involution(j: usize, a: usize, b: usize)
    requires
        a != b,
        a < usize::BITS,
        b < usize::BITS,
    ensures
        cnot_source(cnot_source(j, a, b), a, b) == j,
{
    let c = cnot_source(j, a, b);
    assert(cnot_source(c, a, b) == j) by (bit_vector)
        requires
            a != b,
            a < usize::BITS,
            b < usize::BITS,
            c == (if j & (1usize << a) != 0 {
                j ^ (1usize << b)
            } else {
                j
            }),
    ;
}

/// SWAP undoes itself and does not depend on the order of its operands.
pub proof fn law_swap_source_involution(j: usize, a: usize, b: usize)
    requires
        a < usize::BITS,
        b < usize::BITS,
    ensures
        swap_source(swap_source(j, a, b), a, b) == j,
        swap_source(j, a, b) == swap_source(j, b, a),
{
    let c = swap_source(j, a, b);
    assert(swap_source(c, a, b) == j && c == swap_source(j, b, a)) by (bit_vector)
        requires
            a < usize::BITS,
            b < usize::BITS,
            c == (if (j & (1usize << a) != 0) == (j & (1usize << b) != 0) {
                j
            } else {
                (j ^ (1usize << a)) ^ (1usize << b)
            }),
    ;
}

/// A controlled gate tests its controls on the lower index of a pair alone:
/// the two indices of a pair on qubit `k` agree on every control bit when
/// the target is not among the controls.
pub proof fn law_pair_agrees_on_controls(i0: usize, k: usize, mask: usize)
    requires
        k < usize::BITS,
        mask & (1usize << k) == 0,
    ensures
        (i0 & mask == mask) == ((i0 | (1usize << k)) & mask == mask),
{
    assert((i0 & mask == mask) == ((i0 | (1usize << k)) & mask == mask)) by (bit_vector)
        requires
            k < usize::BITS,
            mask & (1usize << k) == 0,
    ;
}

/// Setting bit `c` of `m` sets exactly that bit.
proof fn lemma_or_bit(m: usize, c: usize, b: usize)
    requires
        c < usize::BITS,
        b < usize::BITS,
    ensures
        ((m | (1usize << c)) & (1usize << b) != 0) == ((m & (1usize << b) != 0) || b == c),
{
    assert(((m | (1usize << c)) & (1usize << b) != 0) == ((m & (1usize << b) != 0) || b == c))
        by (bit_vector)
        requires
            c < usize::BITS,
            b < usize::BITS,
    ;
}

/// The bit mask of a list of control qubits: bit `b` is set exactly when
/// `b` is one of the controls.
pub fn control_mask(controls: &[usize]) -> (m: usize)
    requires
        forall|i: int| 0 <= i < controls@.len() ==> #[trigger] controls@[i] < usize::BITS,
    ensures
        forall|b: usize|
            b < usize::BITS ==> ((m & (1usize << b) != 0) <==> controls@.contains(b)),
{
    let mut m: usize = 0;
    let mut k: usize = 0;
    assert forall|b: usize| b < usize::BITS implies ((m & (1usize << b) != 0)
        <==> controls@.take(0).contains(b)) by {
        assert(0usize & (1usize << b) == 0) by (bit_vector);
    }
    while k < controls.len()
        invariant
            0 <= k <= controls@.len(),
            forall|i: int| 0 <= i < controls@.len() ==> #[trigger] controls@[i] < usize::BITS,
            forall|b: usize|
                b < usize::BITS ==> ((m & (1usize << b) != 0) <==> controls@.take(k as int).contains(
                    b,
                )),
        decreases controls@.len() - k,
    {
        let c = controls[k];
        let ghost old_m = m;
        m = m | (1usize << c);
        assert forall|b: usize| b < usize::BITS implies ((m & (1usize << b) != 0)
            <==> controls@.take(k + 1).contains(b)) by {
            lemma_or_bit(old_m, c, b);
            assert(controls@.take(k + 1) =~= controls@.take(k as int).push(c));
            if controls@.take(k as int).contains(b) {
                let i = choose|i: int| 0 <= i < k && controls@.take(k as int)[i] == b;
                assert(controls@.take(k + 1)[i] == b);
            }
            if b == c {
                assert(controls@.take(k + 1)[k as int] == b);
            }
        }
        k = k + 1;
    }
    assert forall|b: usize| b < usize::BITS implies ((m & (1usize << b) != 0) <==> controls@.contains(
        b,
    )) by {
        assert(controls@.take(k as int) =~= controls@);
    }
    m
}

/// Inserting zeros at positions none below `c` keeps a clear bit `c`
/// clear.
proof fn lemma_insert_zeros_keeps_clear(x: usize, ts: Seq<usize>, c: usize)
    requires
        x & (1usize << c) == 0,
        forall|i: int| 0 <= i < ts.len() ==> c <= #[trigger] ts[i] && ts[i] + 1 < usize::BITS,
    ensures
        insert_zeros(x, ts) & (1usize << c) == 0,
    decreases ts.len(),
{
    if ts.len() > 0 {
        let t = ts[0];
        if t == c {
            lemma_ins_clears(x, t);
        } else {
            lemma_insert_high_keeps_low(x, c, t);
        }
        assert forall|i: int| 0 <= i < ts.drop_first().len() implies c <= #[trigger] ts.drop_first()[i]
            && ts.drop_first()[i] + 1 < usize::BITS by {
            assert(ts.drop_first()[i] == ts[i + 1]);
        }
        lemma_insert_zeros_keeps_clear(ins_bits(x, t), ts.drop_first(), c);
    }
}

/// Inserting zeros at ascending positions leaves every one of those bits
/// clear.
proof fn lemma_insert_zeros_clears(x: usize, ts: Seq<usize>, i: int)
    requires
        vstd::relations::sorted_by(ts, position_leq()),
        forall|j: int| 0 <= j < ts.len() ==> #[trigger] ts[j] + 1 < usize::BITS,
        0 <= i < ts.len(),
    ensures
        insert_zeros(x, ts) & (1usize << ts[i]) == 0,
    decreases ts.len(),
{
    let rest = ts.drop_first();
    assert forall|j: int| 0 <= j < rest.len() implies #[trigger] rest[j] + 1 < usize::BITS by {
        assert(rest[j] == ts[j + 1]);
    }
    if i == 0 {
        lemma_ins_clears(x, ts[0]);
        assert forall|j: int| 0 <= j < rest.len() implies ts[0] <= #[trigger] rest[j] && rest[j] + 1
            < usize::BITS by {
            assert(rest[j] == ts[j + 1]);
            assert(position_leq()(ts[0], ts[j + 1]));
        }
        lemma_insert_zeros_keeps_clear(ins_bits(x, ts[0]), rest, ts[0]);
    } else {
        assert(vstd::relations::sorted_by(rest, position_leq())) by {
            assert forall|a: int, b: int| 0 <= a < b < rest.len() implies #[trigger] position_leq()(
                rest[a],
                rest[b],
            ) by {
                assert(position_leq()(ts[a + 1], ts[b + 1]));
            }
        }
        assert(rest[i - 1] == ts[i]);
        lemma_insert_zeros_clears(ins_bits(x, ts[0]), rest, i - 1);
    }
}

/// Setting target bits leaves every other position as it was in the base.
proof fn lemma_set_bits_elsewhere(base: usize, targets: Seq<usize>, k: usize, c: usize)
    requires
        c < usize::BITS,
        forall|j: int| 0 <= j < targets.len() ==> #[trigger] targets[j] < usize::BITS && targets[j] != c,
    ensures
        (set_target_bits(base, targets, k) & (1usize << c) != 0) == (base & (1usize << c) != 0),
    decreases targets.len(),
{
    if targets.len() > 0 {
        let init = targets.drop_last();
        assert forall|j: int| 0 <= j < init.len() implies #[trigger] init[j] < usize::BITS && init[j]
            != c by {
            assert(init[j] == targets[j]);
        }
        lemma_set_bits_elsewhere(base, init, k, c);
        lemma_or_bit(set_target_bits(base, init, k), targets.last(), c);
    }
}

/// With the target bits of the base clear and the targets distinct, bit
/// `targets[b]` of the result is bit `b` of `k`.
proof fn lemma_set_bits_target(base: usize, targets: Seq<usize>, k: usize, b: int)
    requires
        targets.len() < usize::BITS,
        forall|j: int| 0 <= j < targets.len() ==> #[trigger] targets[j] < usize::BITS,
        forall|i: int, j: int| 0 <= i < j < targets.len() ==> targets[i] != targets[j],
        forall|j: int| 0 <= j < targets.len() ==> base & (1usize << #[trigger] targets[j]) == 0,
        0 <= b < targets.len(),
    ensures
        (set_target_bits(base, targets, k) & (1usize << targets[b]) != 0) == ((k >> (b as usize)) & 1
            != 0),
    decreases targets.len(),
{
    let init = targets.drop_last();
    let last = targets.last();
    let prev = set_target_bits(base, init, k);
    assert forall|j: int| 0 <= j < init.len() implies #[trigger] init[j] < usize::BITS by {
        assert(init[j] == targets[j]);
    }
    lemma_or_bit(prev, last, targets[b]);
    if b == targets.len() - 1 {
        assert forall|j: int| 0 <= j < init.len() implies #[trigger] init[j] < usize::BITS && init[j]
            != last by {
            assert(init[j] == targets[j]);
        }
        lemma_set_bits_elsewhere(base, init, k, last);
    } else {
        assert forall|i: int, j: int| 0 <= i < j < init.len() implies init[i] != init[j] by {
            assert(init[i] == targets[i] && init[j] == targets[j]);
        }
        assert forall|j: int| 0 <= j < init.len() implies base & (1usize << #[trigger] init[j]) == 0 by {
            assert(init[j] == targets[j]);
        }
        assert(init[b] == targets[b]);
        lemma_set_bits_target(base, init, k, b);
    }
}

/// Within a group of a gate on distinct `targets`, bit `targets[b]` of
/// member `k` is bit `b` of `k`; so the `2^m` members of a group are
/// distinct, and they agree on every other bit.
pub proof fn law_group_member_bits(targets: Seq<usize>, g: usize, k: usize, b: int)
    requires
        targets.len() + 1 < usize::BITS,
        forall|j: int| 0 <= j < targets.len() ==> #[trigger] targets[j] + 1 < usize::BITS,
        forall|i: int, j: int| 0 <= i < j < targets.len() ==> targets[i] != targets[j],
        0 <= b < targets.len(),
    ensures
        (group_member(targets, g, k) & (1usize << targets[b]) != 0) == ((k >> (b as usize)) & 1 != 0),
{
    lemma_group_base_clear(targets, g);
    let base = insert_zeros(g, ascending(targets));
    assert forall|j: int| 0 <= j < targets.len() implies #[trigger] targets[j] < usize::BITS by {}
    lemma_set_bits_target(base, targets, k, b);
}

/// Two members of one group for different `k < 2^m` differ.
pub proof fn law_group_members_distinct(targets: Seq<usize>, g: usize, k1: usize, k2: usize)
    requires
        targets.len() + 1 < usize::BITS,
        forall|j: int| 0 <= j < targets.len() ==> #[trigger] targets[j] + 1 < usize::BITS,
        forall|i: int, j: int| 0 <= i < j < targets.len() ==> targets[i] != targets[j],
        k1 < (1usize << targets.len()),
        k2 < (1usize << targets.len()),
        k1 != k2,
    ensures
        group_member(targets, g, k1) != group_member(targets, g, k2),
{
    let m = targets.len() as usize;
    let b = lemma_differing_bit(k1, k2, m);
    law_group_member_bits(targets, g, k1, b as int);
    law_group_member_bits(targets, g, k2, b as int);
}

/// Two different numbers below `2^m` differ in some bit below `m`.
proof fn lemma_differing_bit(k1: usize, k2: usize, m: usize) -> (b: usize)
    requires
        m < usize::BITS,
        k1 < (1usize << m),
        k2 < (1usize << m),
        k1 != k2,
    ensures
        b < m,
        ((k1 >> b) & 1 != 0) != ((k2 >> b) & 1 != 0),
    decreases m,
{
    if m == 0 {
        assert(1usize << 0usize == 1) by (bit_vector);
        assert(false);
    }
    if ((k1 >> (m - 1) as usize) & 1 != 0) != ((k2 >> (m - 1) as usize) & 1 != 0) {
        (m - 1) as usize
    } else {
        let h1 = k1 & !(1usize << (m - 1) as usize);
        let h2 = k2 & !(1usize << (m - 1) as usize);
        assert(h1 < (1usize << (m - 1) as usize) && h2 < (1usize << (m - 1) as usize) && h1 != h2)
            by (bit_vector)
            requires
                m < usize::BITS,
                m >= 1,
                k1 < (1usize << m),
                k2 < (1usize << m),
                k1 != k2,
                ((k1 >> (m - 1) as usize) & 1 != 0) == ((k2 >> (m - 1) as usize) & 1 != 0),
                h1 == k1 & !(1usize << (m - 1) as usize),
                h2 == k2 & !(1usize << (m - 1) as usize),
        ;
        let b = lemma_differing_bit(h1, h2, (m - 1) as usize);
        assert(((k1 >> b) & 1 != 0) == ((h1 >> b) & 1 != 0) && ((k2 >> b) & 1 != 0) == ((h2 >> b)
            & 1 != 0)) by (bit_vector)
            requires
                b < m - 1,
                m < usize::BITS,
                h1 == k1 & !(1usize << (m - 1) as usize),
                h2 == k2 & !(1usize << (m - 1) as usize),
        ;
        b
    }
}

/// The base of a group has every target bit clear.
proof fn lemma_group_base_clear(targets: Seq<usize>, g: usize)
    requires
        forall|j: int| 0 <= j < targets.len() ==> #[trigger] targets[j] + 1 < usize::BITS,
    ensures
        forall|j: int|
            0 <= j < targets.len() ==> insert_zeros(g, ascending(targets)) & (1usize << #[trigger] targets[j])
                == 0,
{
    lemma_position_leq_total();
    targets.lemma_sort_by_ensures(position_leq());
    let ts = ascending(targets);
    assert forall|j: int| 0 <= j < ts.len() implies #[trigger] ts[j] + 1 < usize::BITS by {
        assert(ts.contains(ts[j]));
        assert(targets.contains(ts[j]));
    }
    assert forall|j: int| 0 <= j < targets.len() implies insert_zeros(g, ts) & (1usize
        << #[trigger] targets[j]) == 0 by {
        broadcast use vstd::seq_lib::group_to_multiset_ensures;

        assert(targets.to_multiset().count(targets[j]) > 0);
        assert(ts.to_multiset().count(targets[j]) > 0);
        assert(ts.contains(targets[j]));
        let i = choose|i: int| 0 <= i < ts.len() && ts[i] == targets[j];
        lemma_insert_zeros_clears(g, ts, i);
    }
}

/// The target bits of group member `k`: bit `targets[b]` set for each set
/// bit `b` of `k`, and nothing else.
pub open spec fn target_bits(targets: Seq<usize>, k: usize) -> usize {
    set_target_bits(0, targets, k)
}

/// `|` is associative and has `0` as identity; a number clear on two masks is
/// clear on their union; and `|` with a mask that neither side meets can be
/// cancelled.
proof fn lemma_or_facts(x: usize, y: usize, z: usize)
    by (bit_vector)
    ensures
        (x | y) | z == x | (y | z),
        x | 0 == x,
        x & 0 == 0,
        (x & y == 0 && x & z == 0) ==> x & (y | z) == 0,
        (x | z == y | z && x & z == 0 && y & z == 0) ==> x == y,
{
}

/// Below `2^n`: `|` keeps two numbers below it, and every bit below `n` is.
proof fn lemma_or_below(x: usize, y: usize, t: usize, n: usize)
    by (bit_vector)
    requires
        n < usize::BITS,
    ensures
        (x < (1usize << n) && y < (1usize << n)) ==> (x | y) < (1usize << n),
        t < n ==> (1usize << t) < (1usize << n),
        0usize < (1usize << n),
{
}

/// Setting target bits on a base is or-ing the member's target bits into it.
proof fn lemma_set_bits_is_or(base: usize, targets: Seq<usize>, k: usize)
    ensures
        set_target_bits(base, targets, k) == base | target_bits(targets, k),
    decreases targets.len(),
{
    if targets.len() == 0 {
        lemma_or_facts(base, 0, 0);
    } else {
        let init = targets.drop_last();
        lemma_set_bits_is_or(base, init, k);
        lemma_set_bits_is_or(0, init, k);
        lemma_or_facts(0, 0, 0);
        lemma_or_facts(base, target_bits(init, k), 1usize << targets.last());
    }
}

/// A number clear on every target bit is clear on the member's target bits.
proof fn lemma_target_bits_clear(x: usize, targets: Seq<usize>, k: usize)
    requires
        forall|j: int| 0 <= j < targets.len() ==> x & (1usize << #[trigger] targets[j]) == 0,
    ensures
        x & target_bits(targets, k) == 0,
    decreases targets.len(),
{
    lemma_or_facts(x, 0, 0);
    if targets.len() > 0 {
        let init = targets.drop_last();
        assert forall|j: int| 0 <= j < init.len() implies x & (1usize << #[trigger] init[j]) == 0 by {
            assert(init[j] == targets[j]);
        }
        lemma_target_bits_clear(x, init, k);
        lemma_set_bits_is_or(0, init, k);
        lemma_or_facts(x, target_bits(init, k), 1usize << targets.last());
    }
}

/// The member's target bits stay below `2^n` when every target is below `n`.
proof fn lemma_target_bits_below(targets: Seq<usize>, k: usize, n: usize)
    requires
        n < usize::BITS,
        forall|j: int| 0 <= j < targets.len() ==> #[trigger] targets[j] < n,
    ensures
        target_bits(targets, k) < (1usize << n),
    decreases targets.len(),
{
    lemma_or_below(0, 0, 0, n);
    if targets.len() > 0 {
        let init = targets.drop_last();
        assert forall|j: int| 0 <= j < init.len() implies #[trigger] init[j] < n by {
            assert(init[j] == targets[j]);
        }
        lemma_target_bits_below(init, k, n);
        lemma_set_bits_is_or(0, init, k);
        lemma_or_facts(0, 0, 0);
        lemma_or_below(target_bits(init, k), 1usize << targets.last(), targets.last(), n);
    }
}

/// `2^e` fits twice in a `usize` and is `1 << e`.
proof fn lemma_pow2_half(e: nat)
    requires
        e + 1 < usize::BITS,
    ensures
        pow2(e) <= usize::MAX / 2,
        (1usize << (e as usize)) == pow2(e),
{
    lemma_usize_pow2_no_overflow(e + 1);
    lemma_pow2_adds(e, 1);
    lemma2_to64();
    lemma_usize_shl_is_mul(1, e as usize);
}

/// Inserting zeros at positions `ts[s] <= e + s`, one after the other, into
/// numbers below `2^e` stays below `2^(e + |ts|)` and is injective.
proof fn lemma_insert_zeros_range(g1: usize, g2: usize, ts: Seq<usize>, e: nat)
    requires
        e + ts.len() + 1 < usize::BITS,
        forall|s: int| 0 <= s < ts.len() ==> #[trigger] ts[s] <= e + s,
        g1 < pow2(e),
        g2 < pow2(e),
    ensures
        insert_zeros(g1, ts) < pow2(e + ts.len()),
        insert_zeros(g1, ts) == insert_zeros(g2, ts) ==> g1 == g2,
    decreases ts.len(),
{
    if ts.len() > 0 {
        let t = ts[0];
        let rest = ts.drop_first();
        lemma_pow2_half(e);
        lemma_insert_zero_bits(g1, t);
        lemma_insert_zero_bits(g2, t);
        law_insert_zero_bound(g1 as nat, t as nat, e);
        law_insert_zero_bound(g2 as nat, t as nat, e);
        assert forall|s: int| 0 <= s < rest.len() implies #[trigger] rest[s] <= (e + 1) + s by {
            assert(rest[s] == ts[s + 1]);
        }
        lemma_insert_zeros_range(ins_bits(g1, t), ins_bits(g2, t), rest, e + 1);
        assert(e + 1 + rest.len() == e + ts.len());
        if insert_zeros(g1, ts) == insert_zeros(g2, ts) {
            law_insert_zero_injective(g1 as nat, g2 as nat, t as nat);
        }
    }
}

/// The targets of a gate on `n` qubits: distinct positions below `n`.
pub open spec fn valid_targets(targets: Seq<usize>, n: nat) -> bool {
    &&& forall|j: int| 0 <= j < targets.len() ==> #[trigger] targets[j] < n
    &&& forall|i: int, j: int| 0 <= i < j < targets.len() ==> targets[i] != targets[j]
}

/// The `s`-th smallest of `m` distinct positions below `n` is at most
/// `n - m + s`.
proof fn lemma_sorted_targets_bound(targets: Seq<usize>, n: nat)
    requires
        valid_targets(targets, n),
    ensures
        ascending(targets).len() == targets.len(),
        targets.len() <= n,
        forall|s: int|
            0 <= s < targets.len() ==> #[trigger] ascending(targets)[s] + targets.len() <= n + s,
{
    broadcast use vstd::seq_lib::group_to_multiset_ensures;

    lemma_position_leq_total();
    targets.lemma_sort_by_ensures(position_leq());
    let ts = ascending(targets);
    assert(ts.len() == targets.len()) by {
        assert(ts.to_multiset().len() == targets.to_multiset().len());
    }
    assert(targets.no_duplicates());
    targets.lemma_multiset_has_no_duplicates();
    assert forall|x: usize| ts.to_multiset().contains(x) implies ts.to_multiset().count(x) == 1 by {
        assert(targets.to_multiset().contains(x));
    }
    ts.lemma_multiset_has_no_duplicates_conv();
    assert forall|a: int, b: int| 0 <= a < b < ts.len() implies ts[a] < ts[b] by {
        assert(position_leq()(ts[a], ts[b]));
    }
    assert forall|s: int| 0 <= s < ts.len() implies #[trigger] ts[s] < n by {
        assert(ts.contains(ts[s]));
        assert(targets.contains(ts[s]));
    }
    if ts.len() > 0 {
        lemma_ascending_gap(ts, ts.len() - 1);
        assert(ts.len() <= n) by {
            assert(ts[0] + (ts.len() - 1) <= ts[ts.len() - 1]);
        }
    }
    assert forall|s: int| 0 <= s < targets.len() implies #[trigger] ts[s] + targets.len() <= n + s by {
        lemma_ascending_gap(ts, ts.len() - 1);
        assert(ts[s] + (ts.len() - 1 - s) <= ts[ts.len() - 1]);
    }
}

/// In a strictly increasing sequence, each element is at least as far
/// below the element at `top` as its distance from it.
proof fn lemma_ascending_gap(ts: Seq<usize>, top: int)
    requires
        0 <= top < ts.len(),
        forall|a: int, b: int| 0 <= a < b < ts.len() ==> ts[a] < ts[b],
    ensures
        forall|s: int| 0 <= s <= top ==> #[trigger] ts[s] + (top - s) <= ts[top],
    decreases top,
{
    if top > 0 {
        lemma_ascending_gap(ts, top - 1);
        assert forall|s: int| 0 <= s <= top implies #[trigger] ts[s] + (top - s) <= ts[top] by {
            if s < top {
                assert(ts[s] + (top - 1 - s) <= ts[top - 1]);
                assert(ts[top - 1] < ts[top]);
            }
        }
    }
}

/// Every member of a group of a gate on `m` valid targets of an `n`-qubit
/// register is an index of the register: for a group below `2^(n-m)` and a
/// member below `2^m`, the index is below `2^n`.
pub proof fn law_group_members_in_register(targets: Seq<usize>, n: usize, g: usize, k: usize)
    requires
        n + 1 < usize::BITS,
        valid_targets(targets, n as nat),
        g < pow2((n - targets.len()) as nat),
    ensures
        group_member(targets, g, k) < pow2(n as nat),
{
    lemma_sorted_targets_bound(targets, n as nat);
    let m = targets.len();
    let ts = ascending(targets);
    let e = (n - m) as nat;
    assert forall|s: int| 0 <= s < ts.len() implies #[trigger] ts[s] <= e + s by {
        assert(ts[s] + m <= n + s);
    }
    lemma_insert_zeros_range(g, g, ts, e);
    assert(e + ts.len() == n);
    let base = insert_zeros(g, ts);
    lemma_pow2_half(n as nat);
    lemma_set_bits_is_or(base, targets, k);
    lemma_target_bits_below(targets, k, n);
    lemma_or_below(base, target_bits(targets, k), 0, n);
}

/// The groups of a gate on valid targets are disjoint, and the members of a
/// group distinct: one index is one member of one group.
pub proof fn law_groups_disjoint(targets: Seq<usize>, n: usize, g1: usize, k1: usize, g2: usize, k2: usize)
    requires
        n + 1 < usize::BITS,
        valid_targets(targets, n as nat),
        g1 < pow2((n - targets.len()) as nat),
        g2 < pow2((n - targets.len()) as nat),
        k1 < pow2(targets.len()),
        k2 < pow2(targets.len()),
        group_member(targets, g1, k1) == group_member(targets, g2, k2),
    ensures
        g1 == g2,
        k1 == k2,
{
    lemma_sorted_targets_bound(targets, n as nat);
    let m = targets.len();
    lemma_pow2_half(m);
    assert forall|j: int| 0 <= j < targets.len() implies #[trigger] targets[j] + 1 < usize::BITS by {}
    if k1 != k2 {
        let b = lemma_differing_bit(k1, k2, m as usize);
        law_group_member_bits(targets, g1, k1, b as int);
        law_group_member_bits(targets, g2, k2, b as int);
    }
    let ts = ascending(targets);
    let b1 = insert_zeros(g1, ts);
    let b2 = insert_zeros(g2, ts);
    lemma_group_base_clear(targets, g1);
    lemma_group_base_clear(targets, g2);
    lemma_target_bits_clear(b1, targets, k1);
    lemma_target_bits_clear(b2, targets, k1);
    lemma_set_bits_is_or(b1, targets, k1);
    lemma_set_bits_is_or(b2, targets, k1);
    lemma_or_facts(b1, b2, target_bits(targets, k1));
    let e = (n - m) as nat;
    assert forall|s: int| 0 <= s < ts.len() implies #[trigger] ts[s] <= e + s by {
        assert(ts[s] + m <= n + s);
    }
    lemma_insert_zeros_range(g1, g2, ts, e);
}

/// The group and member of position `p` in the loop over all groups and
/// members, `p = group * 2^m + member`.
pub open spec fn group_index_at(targets: Seq<usize>, p: int) -> int {
    group_member(targets, (p / pow2(targets.len()) as int) as usize, (p % pow2(targets.len()) as int) as usize)
        as int
}

/// The groups of a gate on `m` valid targets cover an `n`-qubit register:
/// every index below `2^n` is a member below `2^m` of a group below
/// `2^(n-m)`. With the two laws above, the groups partition the register
/// and the kernel touches every amplitude exactly once.
pub proof fn law_groups_cover_register(targets: Seq<usize>, n: usize, j: usize)
    requires
        n + 1 < usize::BITS,
        valid_targets(targets, n as nat),
        j < pow2(n as nat),
    ensures
        exists|g: usize, k: usize|
            g < pow2((n - targets.len()) as nat) && k < pow2(targets.len()) && #[trigger] group_member(
                targets,
                g,
                k,
            ) == j,
{
    lemma_sorted_targets_bound(targets, n as nat);
    let m = targets.len();
    let e = (n - m) as nat;
    let dm = pow2(m) as int;
    let de = pow2(e) as int;
    lemma_pow2_adds(e, m);
    assert(e + m == n);
    lemma_pow2_pos(m);
    lemma_pow2_pos(e);
    lemma_pow2_half(n as nat);
    let top = pow2(n as nat) as int;
    assert(top == de * dm);
    let x = vstd::set_lib::set_int_range(0, top);
    vstd::set_lib::lemma_int_range(0, top);
    let f = |p: int| group_index_at(targets, p);
    assert forall|p: int| #[trigger] x.contains(p) implies p / dm < de && 0 <= p % dm < dm && 0 <= p / dm by {
        vstd::arithmetic::div_mod::lemma_multiply_divide_lt(p, dm, de);
        vstd::arithmetic::div_mod::lemma_div_pos_is_pos(p, dm);
        vstd::arithmetic::div_mod::lemma_mod_pos_bound(p, dm);
    }
    assert forall|p1: int, p2: int|
        x.contains(p1) && x.contains(p2) && #[trigger] f(p1) == #[trigger] f(p2) implies p1 == p2 by {
        let g1 = (p1 / dm) as usize;
        let k1 = (p1 % dm) as usize;
        let g2 = (p2 / dm) as usize;
        let k2 = (p2 % dm) as usize;
        assert(p1 / dm < de && 0 <= p1 % dm < dm && 0 <= p1 / dm);
        assert(p2 / dm < de && 0 <= p2 % dm < dm && 0 <= p2 / dm);
        law_groups_disjoint(targets, n, g1, k1, g2, k2);
        lemma_fundamental_div_mod(p1, dm);
        lemma_fundamental_div_mod(p2, dm);
    }
    assert(vstd::relations::injective_on(f, x));
    let y = x.map(f);
    vstd::set_lib::lemma_map_size(x, y, f);
    assert forall|v: int| #[trigger] y.contains(v) implies x.contains(v) by {
        let p = choose|p: int| x.contains(p) && f(p) == v;
        assert(p / dm < de && 0 <= p % dm < dm && 0 <= p / dm);
        law_group_members_in_register(targets, n, (p / dm) as usize, (p % dm) as usize);
    }
    vstd::set_lib::lemma_subset_equality(y, x);
    assert(x.contains(j as int));
    assert(y.contains(j as int));
    let p = choose|p: int| x.contains(p) && f(p) == j as int;
    assert(p / dm < de && 0 <= p % dm < dm && 0 <= p / dm);
    let g = (p / dm) as usize;
    let k = (p % dm) as usize;
    assert(group_member(targets, g, k) == j);
}

} // verus!
