//! Powers of two and the integer base-2 logarithm used by cache geometry.

use vstd::prelude::*;

verus! {

/// 2 to the power `e`.
pub open spec fn pow2(e: nat) -> nat
    decreases e,
{
    if e == 0 {
        1
    } else {
        2 * pow2((e - 1) as nat)
    }
}

/// `n` is a power of two.
pub open spec fn is_pow2(n: nat) -> bool
    decreases n,
{
    if n == 0 {
        false
    } else if n == 1 {
        true
    } else {
        n % 2 == 0 && is_pow2(n / 2)
    }
}

/// The base-2 logarithm of `n`, rounded down.
pub open spec fn log2(n: nat) -> nat
    decreases n,
{
    if n <= 1 {
        0
    } else {
        1 + log2(n / 2)
    }
}

pub proof fn lemma_pow2_pos(e: nat)
    ensures
        pow2(e) >= 1,
    decreases e,
{
    if e > 0 {
        lemma_pow2_pos((e - 1) as nat);
    }
}

/// On a power of two the rounded logarithm is exact.
pub proof fn lemma_pow2_log2(n: nat)
    requires
        is_pow2(n),
    ensures
        pow2(log2(n)) == n,
        n >= 1,
    decreases n,
{
    if n > 1 {
        lemma_pow2_log2(n / 2);
    }
}

pub proof fn lemma_pow2_le(e1: nat, e2: nat)
    requires
        e1 <= e2,
    ensures
        pow2(e1) <= pow2(e2),
    decreases e2,
{
    if e1 < e2 {
        lemma_pow2_le(e1, (e2 - 1) as nat);
        lemma_pow2_pos((e2 - 1) as nat);
    }
}

pub proof fn lemma_pow2_mul(a: nat, b: nat)
    ensures
        pow2(a + b) == pow2(a) * pow2(b),
    decreases a,
{
    if a > 0 {
        lemma_pow2_mul((a - 1) as nat, b);
        assert((a + b - 1) as nat == (a - 1) as nat + b);
        assert(pow2(a + b) == 2 * pow2((a - 1) as nat + b));
        assert(pow2(a + b) == 2 * (pow2((a - 1) as nat) * pow2(b)));
        assert(pow2(a) * pow2(b) == 2 * (pow2((a - 1) as nat) * pow2(b)))
            by (nonlinear_arith)
            requires pow2(a) == 2 * pow2((a - 1) as nat),
        ;
        assert(pow2(a + b) == pow2(a) * pow2(b));
    } else {
        assert(a == 0);
        assert(pow2(a) == 1);
        assert(a + b == b);
        assert(pow2(a + b) == pow2(a) * pow2(b));
    }
}

/// A power of two divides any larger power of two, and the quotient is
/// again a power of two.
pub proof fn lemma_pow2_div(a: nat, b: nat)
    requires
        is_pow2(a),
        is_pow2(b),
        b <= a,
    ensures
        a % b == 0,
        is_pow2(a / b),
        (a / b) * b == a,
        log2(a / b) + log2(b) == log2(a),
    decreases b,
{
    if b == 1 {
        lemma_pow2_log2(a);
    } else {
        assert(a >= 2 && a % 2 == 0 && b % 2 == 0);
        lemma_pow2_div(a / 2, b / 2);
        assert((a / 2) / (b / 2) == a / b && a % b == (a % 2 + 2 * ((a / 2) % (b / 2))))
            by (nonlinear_arith)
            requires a >= 2, b >= 2, a % 2 == 0, b % 2 == 0,
        ;
        assert((a / b) * b == a) by (nonlinear_arith)
            requires b >= 1, a % b == 0, a / b == (a / 2) / (b / 2), ((a / 2) / (b / 2)) * (b / 2) == a / 2,
        ;
    }
}

/// The logarithm never reaches its argument.
pub proof fn lemma_log2_lt(n: nat)
    requires
        n >= 1,
    ensures
        log2(n) < n,
    decreases n,
{
    if n > 1 {
        lemma_log2_lt(n / 2);
    }
}

/// The integer base-2 logarithm, rounded down.
pub fn log2_floor(n: usize) -> (r: usize)
    requires
        n >= 1,
    ensures
        r == log2(n as nat),
{
    let mut m: usize = n;
    let mut r: usize = 0;
    while m >= 2
        invariant
            m >= 1,
            log2(n as nat) == r + log2(m as nat),
        decreases m,
    {
        proof {
            lemma_log2_lt(n as nat);
        }
        m = m / 2;
        r = r + 1;
    }
    r
}

/// `pow2(e) <= n` whenever `e <= log2(n)`.
pub proof fn lemma_log2_lower(n: nat, e: nat)
    requires
        n >= 1,
        e <= log2(n),
    ensures
        pow2(e) <= n,
    decreases n,
{
    if e > 0 {
        lemma_log2_lower(n / 2, (e - 1) as nat);
    }
}


/// A product of powers of two is a power of two.
pub proof fn lemma_is_pow2_mul(a: nat, b: nat)
    requires
        is_pow2(a),
        is_pow2(b),
    ensures
        is_pow2(a * b),
    decreases a,
{
    if a == 1 {
        assert(a * b == b);
    } else {
        lemma_is_pow2_mul(a / 2, b);
        assert(a * b >= 2 && (a * b) % 2 == 0 && (a * b) / 2 == (a / 2) * b) by (nonlinear_arith)
            requires a >= 2, a % 2 == 0, b >= 1,
        ;
    }
}

/// The numeric value of the 32nd power of two.
pub proof fn lemma_pow2_32()
    ensures
        pow2(32) == 0x1_0000_0000,
{
    assert(pow2(0) == 0x1);
    assert(pow2(1) == 0x2);
    assert(pow2(2) == 0x4);
    assert(pow2(3) == 0x8);
    assert(pow2(4) == 0x10);
    assert(pow2(5) == 0x20);
    assert(pow2(6) == 0x40);
    assert(pow2(7) == 0x80);
    assert(pow2(8) == 0x100);
    assert(pow2(9) == 0x200);
    assert(pow2(10) == 0x400);
    assert(pow2(11) == 0x800);
    assert(pow2(12) == 0x1000);
    assert(pow2(13) == 0x2000);
    assert(pow2(14) == 0x4000);
    assert(pow2(15) == 0x8000);
    assert(pow2(16) == 0x10000);
    assert(pow2(17) == 0x20000);
    assert(pow2(18) == 0x40000);
    assert(pow2(19) == 0x80000);
    assert(pow2(20) == 0x100000);
    assert(pow2(21) == 0x200000);
    assert(pow2(22) == 0x400000);
    assert(pow2(23) == 0x800000);
    assert(pow2(24) == 0x1000000);
    assert(pow2(25) == 0x2000000);
    assert(pow2(26) == 0x4000000);
    assert(pow2(27) == 0x8000000);
    assert(pow2(28) == 0x10000000);
    assert(pow2(29) == 0x20000000);
    assert(pow2(30) == 0x40000000);
    assert(pow2(31) == 0x80000000);
    assert(pow2(32) == 0x100000000);
}

} // verus!
