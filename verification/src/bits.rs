//! Bit masks of ranks: population counts and "keep the highest n ranks".

use vstd::prelude::*;

verus! {

/// Number of set bits of `m`.
pub open spec fn pop(m: u16) -> nat
    decreases m,
{
    if m == 0 {
        0
    } else {
        (m % 2) as nat + pop(m / 2)
    }
}

/// `a` holds no bit that `b` lacks.
pub open spec fn is_submask(a: u16, b: u16) -> bool {
    a & !b == 0
}

/// The lowest set bit of `m` (zero when `m` is zero).
pub open spec fn low_bit(m: u16) -> u16 {
    m & ((!m + 1) as u16)
}

/// `m` with its lowest set bit cleared.
pub open spec fn clear_low(m: u16) -> u16 {
    m & ((m - 1) as u16)
}

/// `r` keeps the `n` highest set bits of `m` (all of them when `m` has
/// fewer) and drops the rest.
pub open spec fn is_top_n(m: u16, n: nat, r: u16) -> bool {
    &&& is_submask(r, m)
    &&& pop(r) == if pop(m) <= n { pop(m) } else { n }
    &&& (r == 0 || (m ^ r) < low_bit(r))
}

/// The `n` highest set bits of `m`.
pub open spec fn top_n(m: u16, n: nat) -> u16 {
    choose|r: u16| is_top_n(m, n, r)
}

/// A mask never has more set bits than its value.
pub proof fn lemma_pop_le_value(m: u16)
    ensures
        pop(m) <= m,
    decreases m,
{
    if m != 0 {
        lemma_pop_le_value(m / 2);
    }
}

proof fn lemma_halves(a: u16, b: u16)
    by (bit_vector)
    ensures
        a & !b == 0 ==> (a / 2) & !(b / 2) == 0,
        a & !b == 0 ==> a % 2 <= b % 2,
        a / 2 == b / 2 && a % 2 == b % 2 ==> a == b,
{
}

/// A submask has no more bits, and strictly fewer unless it is the same mask.
pub proof fn lemma_submask_pop(a: u16, b: u16)
    requires
        is_submask(a, b),
    ensures
        pop(a) <= pop(b),
        pop(a) == pop(b) ==> a == b,
    decreases b,
{
    lemma_halves(a, b);
    if b == 0 {
        assert(a & !0u16 == a) by (bit_vector);
    } else {
        lemma_submask_pop(a / 2, b / 2);
        if a == 0 {
            assert(pop(a) == 0);
        }
    }
}

proof fn lemma_clear_low_shape(x: u16)
    by (bit_vector)
    requires
        x != 0,
    ensures
        x % 2 == 1 ==> clear_low(x) == x - 1,
        x % 2 == 0 ==> clear_low(x) == 2 * clear_low(x / 2),
        x % 2 == 0 ==> x / 2 != 0,
{
}

proof fn lemma_pop_double(z: u16)
    requires
        z < 0x8000,
    ensures
        pop((2 * z) as u16) == pop(z),
{
    if z != 0 {
        assert(((2 * z) as u16) / 2 == z);
        assert(((2 * z) as u16) % 2 == 0);
    }
}

/// Clearing the lowest set bit removes exactly one bit.
pub proof fn lemma_pop_clear_low(x: u16)
    requires
        x != 0,
    ensures
        pop(clear_low(x)) + 1 == pop(x),
    decreases x,
{
    lemma_clear_low_shape(x);
    if x % 2 == 1 {
        assert(((x - 1) as u16) / 2 == x / 2);
        if x - 1 != 0 {
            assert(((x - 1) as u16) % 2 == 0);
        }
    } else {
        let h = x / 2;
        lemma_pop_clear_low(h);
        assert(clear_low(h) < 0x8000) by (bit_vector)
            requires h == x / 2;
        lemma_pop_double(clear_low(h));
    }
}

proof fn lemma_step_keeps_top(m: u16, c: u16)
    by (bit_vector)
    requires
        c != 0,
        c & !m == 0,
        (m ^ c) < low_bit(c),
    ensures
        clear_low(c) & !m == 0,
        clear_low(c) == 0 || (m ^ clear_low(c)) < low_bit(clear_low(c)),
{
}

proof fn lemma_top_comparable(m: u16, a: u16, b: u16)
    by (bit_vector)
    requires
        a & !m == 0,
        b & !m == 0,
        a == 0 || (m ^ a) < low_bit(a),
        b == 0 || (m ^ b) < low_bit(b),
    ensures
        a & !b == 0 || b & !a == 0,
{
}

/// At most one mask keeps the `n` highest bits of `m`.
pub proof fn lemma_top_n_unique(m: u16, n: nat, a: u16, b: u16)
    requires
        is_top_n(m, n, a),
        is_top_n(m, n, b),
    ensures
        a == b,
{
    lemma_top_comparable(m, a, b);
    if is_submask(a, b) {
        lemma_submask_pop(a, b);
    } else {
        lemma_submask_pop(b, a);
    }
}

/// A witness pins down `top_n`.
pub proof fn lemma_top_n_is(m: u16, n: nat, r: u16)
    requires
        is_top_n(m, n, r),
    ensures
        top_n(m, n) == r,
{
    lemma_top_n_unique(m, n, top_n(m, n), r);
}

proof fn lemma_top_from(m: u16, n: nat, c: u16)
    requires
        is_submask(c, m),
        c == 0 || (m ^ c) < low_bit(c),
        pop(c) <= pop(m),
        pop(c) >= n || pop(c) == pop(m),
    ensures
        is_top_n(m, n, top_n(m, n)),
    decreases pop(c),
{
    if pop(c) > n {
        if c == 0 {
            assert(pop(0u16) == 0);
        }
        lemma_pop_clear_low(c);
        lemma_step_keeps_top(m, c);
        lemma_top_from(m, n, clear_low(c));
    } else {
        lemma_top_n_is(m, n, c);
    }
}

/// Facts about masks that the proofs of this crate use: submasks, clearing
/// one rank, holding a pattern, and the union of four masks.
pub proof fn lemma_mask_rules(x: u16, y: u16, z: u16, ru: u16, su: u16)
    by (bit_vector)
    ensures
        x & !x == 0,
        x == 0 || (x ^ x) < low_bit(x),
        x & !y == 0 ==> x <= y,
        x & !y == 0 && y < 0x2000 ==> x < 0x2000,
        x & !y == 0 && (x >> ru) & 1 == 1 ==> (y >> ru) & 1 == 1,
        x & !y == 0 ==> (x & !(1u16 << ru)) & !(y & !(1u16 << ru)) == 0,
        x & !(1u16 << ru) <= x,
        (x & !(1u16 << ru)) & !x == 0,
        x & !y == 0 && x & z == z ==> y & z == z,
        x & z == z ==> z & !x == 0,
        x & !y == 0 && y & !z == 0 ==> x & !z == 0,
        ru < 13 ==> (((x & !y) >> ru) & 1 == 1) == (((x >> ru) & 1 == 1) && !((y >> ru) & 1 == 1)),
        x < 0x2000 ==> x & !y < 0x2000,
        x & z == z && (z >> ru) & 1 != 1 ==> (x & !(1u16 << ru)) & z == z,
        (x & !(1u16 << ru)) & !(1u16 << su) == (x & !(1u16 << su)) & !(1u16 << ru),
{
}

/// The union of four masks: within the thirteen rank bits when each is, and
/// a submask of the union of four larger masks.
pub proof fn lemma_union_rules(a0: u16, a1: u16, a2: u16, a3: u16, b0: u16, b1: u16, b2: u16, b3: u16)
    by (bit_vector)
    ensures
        a0 < 0x2000 && a1 < 0x2000 && a2 < 0x2000 && a3 < 0x2000 ==> (a0 | a1 | a2 | a3) < 0x2000,
        a0 & !b0 == 0 && a1 & !b1 == 0 && a2 & !b2 == 0 && a3 & !b3 == 0 ==> (a0 | a1 | a2 | a3) & !(b0 | b1 | b2
            | b3) == 0,
{
}

/// The `n` highest set bits of any mask exist.
pub proof fn lemma_top_n_exists(m: u16, n: nat)
    ensures
        is_top_n(m, n, top_n(m, n)),
{
    lemma_mask_rules(m, 0, 0, 0, 0);
    lemma_top_from(m, n, m);
}

proof fn lemma_top_dominates(sa: u16, a: u16, b: u16, sb: u16)
    by (bit_vector)
    requires
        sa & !a == 0,
        a & !b == 0,
        sb & !b == 0,
        sb == 0 || (b ^ sb) < low_bit(sb),
        sa > sb,
    ensures
        sb & !sa == 0,
        sb != sa,
{
}

/// Keeping the highest `n` bits of a larger mask gives at least as large a
/// number: more ranks to choose from never lowers the best ones.
pub proof fn lemma_top_n_monotone(a: u16, b: u16, n: nat)
    requires
        is_submask(a, b),
    ensures
        top_n(a, n) <= top_n(b, n),
{
    lemma_top_n_exists(a, n);
    lemma_top_n_exists(b, n);
    let (sa, sb) = (top_n(a, n), top_n(b, n));
    if sa > sb {
        lemma_top_dominates(sa, a, b, sb);
        lemma_submask_pop(sb, sa);
        lemma_submask_pop(a, b);
    }
}

/// The highest bits of a mask are no larger than the mask.
pub proof fn lemma_top_n_le(m: u16, n: nat)
    ensures
        top_n(m, n) <= m,
{
    lemma_top_n_exists(m, n);
    let r = top_n(m, n);
    lemma_mask_rules(r, m, 0, 0, 0);
}

/// Counts the set bits of `m`.
pub fn bit_count(m: u16) -> (c: u32)
    ensures
        c == pop(m),
{
    let mut rest = m;
    let mut c: u32 = 0;
    proof {
        lemma_pop_le_value(m);
    }
    while rest != 0
        invariant
            c + pop(rest) == pop(m),
            pop(rest) <= rest,
            pop(m) <= m,
        decreases rest,
    {
        assert(rest & 1 == rest % 2 && rest >> 1 == rest / 2) by (bit_vector);
        proof {
            lemma_pop_le_value(rest / 2);
        }
        c = c + (rest & 1) as u32;
        rest = rest >> 1;
    }
    c
}

/// Keeps the `n` highest set bits of `mask`, clearing its lowest set bit
/// until no more than `n` remain.
pub fn top_n_ranks(mask: u16, n: u32) -> (r: u16)
    ensures
        is_top_n(mask, n as nat, r),
        r == top_n(mask, n as nat),
{
    let mut m = mask;
    proof {
        lemma_mask_rules(mask, 0, 0, 0, 0);
    }
    while bit_count(m) > n
        invariant
            is_submask(m, mask),
            m == 0 || (mask ^ m) < low_bit(m),
            pop(m) <= pop(mask),
            pop(m) >= n || pop(m) == pop(mask),
        decreases pop(m),
    {
        proof {
            lemma_pop_clear_low(m);
            lemma_step_keeps_top(mask, m);
        }
        m = m & (m - 1);
    }
    proof {
        lemma_top_n_is(mask, n as nat, m);
    }
    m
}

} // verus!
