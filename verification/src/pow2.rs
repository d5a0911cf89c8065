//! Powers of two over the naturals, and their executable counterparts.
use vstd::prelude::*;

verus! {

/// `2^e`.
pub open spec fn exp2(e: nat) -> nat
    decreases e,
{
    if e == 0 {
        1
    } else {
        2 * exp2((e - 1) as nat)
    }
}

/// `n` is a positive power of two.
pub open spec fn is_pow2(n: nat) -> bool
    decreases n,
{
    if n == 0 {
        false
    } else if n == 1 {
        true
    } else {
        n % 2 == 0 && is_pow2(n / 2)
    }
}

/// `floor(log2(n))`, with `log2(0) == 0`.
pub open spec fn log2(n: nat) -> nat
    decreases n,
{
    if n <= 1 {
        0
    } else {
        1 + log2(n / 2)
    }
}

/// The smallest power of two that is at least `n` (1 for `n <= 1`).
pub open spec fn ceil_pow2(n: nat) -> nat
    decreases n,
{
    if n <= 1 {
        1
    } else {
        2 * ceil_pow2(((n + 1) / 2) as nat)
    }
}

pub proof fn lemma_exp2_pos(e: nat)
    ensures
        exp2(e) >= 1,
    decreases e,
{
    if e > 0 {
        lemma_exp2_pos((e - 1) as nat);
    }
}

/// `2^e` is a power of two whose logarithm is `e`.
pub proof fn lemma_exp2_is_pow2(e: nat)
    ensures
        is_pow2(exp2(e)),
        log2(exp2(e)) == e,
    decreases e,
{
    if e > 0 {
        lemma_exp2_is_pow2((e - 1) as nat);
        lemma_exp2_pos((e - 1) as nat);
    }
}

/// A power of two is `2^log2(n)`.
pub proof fn lemma_pow2_exp2_log2(n: nat)
    requires
        is_pow2(n),
    ensures
        exp2(log2(n)) == n,
    decreases n,
{
    if n > 1 {
        lemma_pow2_exp2_log2(n / 2);
    }
}

/// Exponentiation is monotone, strictly so by a factor of two.
pub proof fn lemma_exp2_le(a: nat, b: nat)
    requires
        a <= b,
    ensures
        exp2(a) <= exp2(b),
        a < b ==> 2 * exp2(a) <= exp2(b),
    decreases b,
{
    lemma_exp2_pos(a);
    if a < b {
        lemma_exp2_le(a, (b - 1) as nat);
    }
}

/// `exp2(a + b) == exp2(a) * exp2(b)`.
pub proof fn lemma_exp2_add(a: nat, b: nat)
    ensures
        exp2(a + b) == exp2(a) * exp2(b),
    decreases b,
{
    if b > 0 {
        let b1 = (b - 1) as nat;
        lemma_exp2_add(a, b1);
        let x = exp2(a);
        let y = exp2(b1);
        assert(x * (2 * y) == 2 * (x * y)) by (nonlinear_arith);
    } else {
        assert(exp2(0) == 1);
        assert(a + b == a);
    }
}

/// Comparing powers of two is comparing exponents.
pub proof fn lemma_exp2_lt_inv(a: nat, b: nat)
    requires
        exp2(a) < exp2(b),
    ensures
        a < b,
{
    if b <= a {
        lemma_exp2_le(b, a);
    }
}

/// Two powers of two that differ differ by at least a factor of two.
pub proof fn lemma_pow2_lt_double(p: nat, q: nat)
    requires
        is_pow2(p),
        is_pow2(q),
        p < q,
    ensures
        2 * p <= q,
{
    lemma_pow2_exp2_log2(p);
    lemma_pow2_exp2_log2(q);
    lemma_exp2_lt_inv(log2(p), log2(q));
    lemma_exp2_le(log2(p), log2(q));
}

/// `ceil_pow2(n)` is the least power of two that is at least `n`: it is the
/// unique power of two `p >= n` with `p == 1` or `p / 2 < n`.
pub proof fn lemma_ceil_pow2_char(n: nat, p: nat)
    ensures
        is_pow2(ceil_pow2(n)),
        ceil_pow2(n) >= n,
        ceil_pow2(n) >= 1,
        ceil_pow2(n) == 1 || ceil_pow2(n) / 2 < n,
        (is_pow2(p) && p >= n && (p == 1 || p / 2 < n)) ==> p == ceil_pow2(n),
    decreases n,
{
    if n > 1 {
        let h = ((n + 1) / 2) as nat;
        let q = p / 2;
        lemma_ceil_pow2_char(h, q);
    }
}

/// Every power of two `p >= n` is at least `ceil_pow2(n)`.
pub proof fn lemma_ceil_pow2_least(n: nat, p: nat)
    requires
        is_pow2(p),
        p >= n,
    ensures
        ceil_pow2(n) <= p,
{
    lemma_ceil_pow2_char(n, p);
    if p < ceil_pow2(n) {
        lemma_pow2_lt_double(p, ceil_pow2(n));
    }
}

/// A power of two is its own ceiling.
pub proof fn lemma_ceil_pow2_of_pow2(n: nat)
    requires
        is_pow2(n),
    ensures
        ceil_pow2(n) == n,
{
    lemma_ceil_pow2_char(n, n);
    lemma_ceil_pow2_least(n, n);
}

/// Returns whether `n` is a power of two (`usize::is_power_of_two`).
pub fn is_power_of_two(n: usize) -> (b: bool)
    ensures
        b == is_pow2(n as nat),
{
    let mut x = n;
    while x > 1 && x % 2 == 0
        invariant
            x <= n,
            n > 0 ==> x > 0,
            is_pow2(x as nat) == is_pow2(n as nat),
        decreases x,
    {
        x = x / 2;
    }
    x == 1
}

/// The exponent of a power of two (`usize::trailing_zeros` on a power of two).
pub fn log2_of_pow2(n: usize) -> (e: u32)
    requires
        is_pow2(n as nat),
    ensures
        e as nat == log2(n as nat),
        exp2(e as nat) == n,
        e < usize::BITS,
{
    proof {
        lemma_pow2_exp2_log2(n as nat);
        assert(exp2(0) == 1);
    }
    let mut x = n;
    let mut e: u32 = 0;
    while x > 1
        invariant
            is_pow2(x as nat),
            x >= 1,
            x <= n,
            e as nat + log2(x as nat) == log2(n as nat),
            exp2(e as nat) * x == n,
            e < usize::BITS,
        decreases x,
    {
        proof {
            lemma_exp2_pos(e as nat);
            assert(exp2((e + 1) as nat) * (x / 2) == exp2(e as nat) * x) by (nonlinear_arith)
                requires
                    exp2((e + 1) as nat) == 2 * exp2(e as nat),
                    x % 2 == 0,
            ;
            assert(exp2((e + 1) as nat) <= n) by (nonlinear_arith)
                requires
                    exp2((e + 1) as nat) * (x / 2) == n,
                    x / 2 >= 1,
            ;
            if e + 1 >= usize::BITS {
                lemma_exp2_le(usize::BITS as nat, (e + 1) as nat);
                lemma_exp2_usize_bits();
            }
        }
        x = x / 2;
        e = e + 1;
    }
    e
}

/// `2^usize::BITS` exceeds every `usize`.
pub proof fn lemma_exp2_usize_bits()
    ensures
        exp2(usize::BITS as nat) == usize::MAX as nat + 1,
{
    lemma_exp2_values();

}

/// The powers of two at 8, 16, 32 and 64.
pub proof fn lemma_exp2_values()
    ensures
        exp2(8) == 0x100,
        exp2(16) == 0x1_0000,
        exp2(32) == 0x1_0000_0000,
        exp2(64) == 0x1_0000_0000_0000_0000,
{
    reveal_with_fuel(exp2, 9);
    lemma_exp2_add(8, 8);
    lemma_exp2_add(16, 16);
    assert(exp2(32) == 0x1_0000 * 0x1_0000);
    lemma_exp2_add(32, 32);
}

/// `2^e` as a `usize`.
pub fn exp2_usize(e: u32) -> (p: usize)
    requires
        exp2(e as nat) <= usize::MAX,
    ensures
        p as nat == exp2(e as nat),
{
    let mut p: usize = 1;
    let mut i: u32 = 0;
    while i < e
        invariant
            i <= e,
            p as nat == exp2(i as nat),
            exp2(e as nat) <= usize::MAX,
        decreases e - i,
    {
        proof {
            lemma_exp2_le((i + 1) as nat, e as nat);
        }
        p = p * 2;
        i = i + 1;
    }
    p
}

/// The smallest power of two at least `n`, or `None` when it exceeds `usize`
/// (`usize::checked_next_power_of_two`).
pub fn checked_next_power_of_two(n: usize) -> (r: Option<usize>)
    ensures
        r == (if ceil_pow2(n as nat) <= usize::MAX {
            Some(ceil_pow2(n as nat) as usize)
        } else {
            None
        }),
{
    let mut p: usize = 1;
    while p < n
        invariant
            is_pow2(p as nat),
            p >= 1,
            p == 1 || p / 2 < n,
        decreases usize::MAX - p,
    {
        if p > usize::MAX / 2 {
            proof {
                lemma_ceil_pow2_char(n as nat, 0);
                lemma_pow2_lt_double(p as nat, ceil_pow2(n as nat));
            }
            return None;
        }
        p = p * 2;
    }
    proof {
        lemma_ceil_pow2_char(n as nat, p as nat);
    }
    Some(p)
}

} // verus!
