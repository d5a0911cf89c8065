//! Bit reversal of indices, and the in-place bit-reversal permutation that
//! precedes a decimation-in-time FFT.
use vstd::prelude::*;
use crate::pow2::{exp2, is_pow2, log2, lemma_exp2_pos, lemma_exp2_le, lemma_exp2_usize_bits, lemma_pow2_exp2_log2};

verus! {

/// The `b` lowest bits of `i`, least significant first.
pub open spec fn to_bits(i: nat, b: nat) -> Seq<bool>
    decreases b,
{
    if b == 0 {
        Seq::empty()
    } else {
        seq![i % 2 == 1] + to_bits(i / 2, (b - 1) as nat)
    }
}

/// The number whose bits, least significant first, are `s`.
pub open spec fn from_bits(s: Seq<bool>) -> nat
    decreases s.len(),
{
    if s.len() == 0 {
        0
    } else {
        (if s[0] { 1nat } else { 0nat }) + 2 * from_bits(s.drop_first())
    }
}

/// `i` with its `b` lowest bits in reverse order (higher bits dropped).
pub open spec fn bit_rev(i: nat, b: nat) -> nat {
    from_bits(to_bits(i, b).reverse())
}

/// The first `2^b` entries of `s` in bit-reversed index order.
pub open spec fn bit_reversed<A>(s: Seq<A>, b: nat) -> Seq<A> {
    Seq::new(exp2(b), |k: int| s[bit_rev(k as nat, b) as int])
}

/// `i` halved `t` times.
pub open spec fn shr(i: nat, t: nat) -> nat
    decreases t,
{
    if t == 0 {
        i
    } else {
        shr(i / 2, (t - 1) as nat)
    }
}

pub proof fn lemma_to_bits_len(i: nat, b: nat)
    ensures
        to_bits(i, b).len() == b,
    decreases b,
{
    if b > 0 {
        lemma_to_bits_len(i / 2, (b - 1) as nat);
    }
}

pub proof fn lemma_from_bits_bound(s: Seq<bool>)
    ensures
        from_bits(s) < exp2(s.len()),
    decreases s.len(),
{
    if s.len() > 0 {
        lemma_from_bits_bound(s.drop_first());
    }
}

/// Reading the bits of a number below `2^b` back gives the number.
pub proof fn lemma_from_to_bits(i: nat, b: nat)
    requires
        i < exp2(b),
    ensures
        from_bits(to_bits(i, b)) == i,
    decreases b,
{
    if b > 0 {
        lemma_from_to_bits(i / 2, (b - 1) as nat);
        assert(to_bits(i, b).drop_first() =~= to_bits(i / 2, (b - 1) as nat));
    } else {
    }
}

/// The bits of the number that a bit sequence denotes are that sequence.
pub proof fn lemma_to_from_bits(s: Seq<bool>)
    ensures
        to_bits(from_bits(s), s.len()) =~= s,
    decreases s.len(),
{
    if s.len() > 0 {
        let rest = s.drop_first();
        lemma_to_from_bits(rest);
        let v = from_bits(s);
    }
}

/// Halving `t + 1` times is halving `t` times, then once more.
pub proof fn lemma_shr_succ(i: nat, t: nat)
    ensures
        shr(i, t + 1) == shr(i, t) / 2,
    decreases t,
{
    assert(shr(i, t + 1) == shr(i / 2, t));
    if t > 0 {
        lemma_shr_succ(i / 2, (t - 1) as nat);
    }
}

/// The bits of `i` up to `t + 1` extend those up to `t` by bit `t`.
pub proof fn lemma_to_bits_push(i: nat, t: nat)
    ensures
        to_bits(i, t + 1) =~= to_bits(i, t).push(shr(i, t) % 2 == 1),
    decreases t,
{
    assert(to_bits(i, t + 1) == seq![i % 2 == 1] + to_bits(i / 2, t));
    if t > 0 {
        lemma_to_bits_push(i / 2, (t - 1) as nat);
    } else {
    }
}

/// Bit `q` of a number is the `q`-th entry of its bit sequence.
pub proof fn lemma_from_bits_bit(s: Seq<bool>, q: nat)
    requires
        q < s.len(),
    ensures
        (from_bits(s) / exp2(q)) % 2 == (if s[q as int] { 1nat } else { 0nat }),
    decreases q,
{
    if q == 0 {
        assert(exp2(0) == 1);
    } else {
        let rest = s.drop_first();
        lemma_from_bits_bit(rest, (q - 1) as nat);
        lemma_exp2_pos((q - 1) as nat);
        vstd::arithmetic::div_mod::lemma_div_denominator(
            from_bits(s) as int,
            2,
            exp2((q - 1) as nat) as int,
        );
    }
}

/// Changing entry `q` of a bit sequence changes the number by `2^q`.
pub proof fn lemma_from_bits_update(s: Seq<bool>, q: nat, v: bool)
    requires
        q < s.len(),
    ensures
        from_bits(s.update(q as int, v)) + (if s[q as int] { exp2(q) } else { 0 })
            == from_bits(s) + (if v { exp2(q) } else { 0 }),
    decreases q,
{
    let u = s.update(q as int, v);
    if q == 0 {
        assert(u.drop_first() =~= s.drop_first());
    } else {
        lemma_from_bits_update(s.drop_first(), (q - 1) as nat, v);
        assert(u.drop_first() =~= s.drop_first().update(q - 1, v));
    }
}

/// Bit reversal stays below `2^b`.
pub proof fn lemma_bit_rev_bound(i: nat, b: nat)
    ensures
        bit_rev(i, b) < exp2(b),
{
    lemma_to_bits_len(i, b);
    lemma_from_bits_bound(to_bits(i, b).reverse());
}

/// Bit reversal is an involution on `[0, 2^b)`.
pub proof fn lemma_bit_rev_involution(i: nat, b: nat)
    requires
        i < exp2(b),
    ensures
        bit_rev(bit_rev(i, b), b) == i,
        bit_rev(i, b) < exp2(b),
{
    let s = to_bits(i, b);
    lemma_to_bits_len(i, b);
    lemma_bit_rev_bound(i, b);
    lemma_to_from_bits(s.reverse());
    assert(s.reverse().reverse() =~= s);
    lemma_from_to_bits(i, b);
}

/// `i` with its `bits` lowest bits reversed.
pub fn bit_reverse(i: usize, bits: u32) -> (r: usize)
    requires
        bits <= usize::BITS,
    ensures
        r as nat == bit_rev(i as nat, bits as nat),
{
    let mut x = i;
    let mut r: usize = 0;
    let mut t: u32 = 0;
    proof {
        lemma_exp2_usize_bits();
        lemma_exp2_le(bits as nat, usize::BITS as nat);
    }
    while t < bits
        invariant
            t <= bits,
            bits <= usize::BITS,
            exp2(bits as nat) <= usize::MAX as nat + 1,
            x as nat == shr(i as nat, t as nat),
            r as nat == from_bits(to_bits(i as nat, t as nat).reverse()),
        decreases bits - t,
    {
        proof {
            let s = to_bits(i as nat, t as nat);
            let c = shr(i as nat, t as nat) % 2 == 1;
            lemma_to_bits_push(i as nat, t as nat);
            lemma_shr_succ(i as nat, t as nat);
            lemma_to_bits_len(i as nat, t as nat);
            assert(s.push(c).reverse() =~= seq![c] + s.reverse());
            assert((seq![c] + s.reverse()).drop_first() =~= s.reverse());
            lemma_from_bits_bound(s.push(c).reverse());
            lemma_exp2_le((t + 1) as nat, bits as nat);
        }
        r = 2 * r + x % 2;
        x = x / 2;
        t = t + 1;
    }
    r
}

/// Reorders the first `n` entries of `re` and `im` into bit-reversed index
/// order (`n` a power of two): entry `k` receives the entry at the reversal
/// of `k`. The reversed index is carried from one `i` to the next by a
/// reversed increment, clearing set bits from the top and setting the first
/// clear one.
pub fn bit_reverse_permute<T: Copy>(re: &mut [T], im: &mut [T], n: usize)
    requires
        is_pow2(n as nat),
        old(re)@.len() >= n,
        old(im)@.len() >= n,
    ensures
        final(re)@.len() == old(re)@.len(),
        final(im)@.len() == old(im)@.len(),
        forall|k: int|
            0 <= k < n ==> #[trigger] final(re)@[k] == old(re)@[bit_rev(k as nat, log2(n as nat)) as int],
        forall|k: int|
            0 <= k < n ==> #[trigger] final(im)@[k] == old(im)@[bit_rev(k as nat, log2(n as nat)) as int],
        forall|k: int| n <= k < old(re)@.len() ==> #[trigger] final(re)@[k] == old(re)@[k],
        forall|k: int| n <= k < old(im)@.len() ==> #[trigger] final(im)@[k] == old(im)@[k],
        final(re)@.subrange(0, n as int) == bit_reversed(old(re)@, log2(n as nat)),
        final(im)@.subrange(0, n as int) == bit_reversed(old(im)@, log2(n as nat)),
{
    let ghost re0 = re@;
    let ghost im0 = im@;
    let ghost lg = log2(n as nat);
    proof {
        lemma_pow2_exp2_log2(n as nat);
        lemma_to_bits_len(0, lg);
        lemma_from_to_bits(0, lg);
        bit_rev_zero(lg);
        assert forall|k: int| 0 <= k < n && #[trigger] bit_rev(k as nat, lg) < 1 implies k < 1 by {
            lemma_bit_rev_involution(k as nat, lg);
        }
    }
    let mut j: usize = 0;
    let mut i: usize = 1;
    while i < n
        invariant
            1 <= i <= n,
            exp2(lg) == n,
            re@.len() == re0.len(),
            im@.len() == im0.len(),
            re0.len() >= n,
            im0.len() >= n,
            j as nat == bit_rev((i - 1) as nat, lg),
            forall|k: int|
                0 <= k < n ==> #[trigger] re@[k] == (if k < i || bit_rev(k as nat, lg) < i {
                    re0[bit_rev(k as nat, lg) as int]
                } else {
                    re0[k]
                }),
            forall|k: int|
                0 <= k < n ==> #[trigger] im@[k] == (if k < i || bit_rev(k as nat, lg) < i {
                    im0[bit_rev(k as nat, lg) as int]
                } else {
                    im0[k]
                }),
            forall|k: int| n <= k < re0.len() ==> #[trigger] re@[k] == re0[k],
            forall|k: int| n <= k < im0.len() ==> #[trigger] im@[k] == im0[k],
        decreases n - i,
    {
        j = reversed_increment(j, i - 1, n, Ghost(lg));
        proof {
            lemma_bit_rev_involution(i as nat, lg);
        }
        if i < j {
            let a = re[i];
            let b = re[j];
            re[i] = b;
            re[j] = a;
            let c = im[i];
            let d = im[j];
            im[i] = d;
            im[j] = c;
        }
        proof {
            assert forall|k: int| 0 <= k < n implies (k < i + 1 || #[trigger] bit_rev(k as nat, lg) < i + 1)
                == (k < i || bit_rev(k as nat, lg) < i || k == i || k == j) by {
                lemma_bit_rev_involution(k as nat, lg);
            }
        }
        i = i + 1;
    }
    proof {
        assert forall|k: int| 0 <= k < n implies #[trigger] bit_rev(k as nat, lg) < n by {
            lemma_bit_rev_bound(k as nat, lg);
        }
    }
}

/// Reordering into bit-reversed order twice gives back the starting order:
/// the permutation is its own inverse.
pub proof fn lemma_bit_reversed_twice<A>(s: Seq<A>, b: nat)
    requires
        s.len() >= exp2(b),
    ensures
        bit_reversed(bit_reversed(s, b), b) == s.subrange(0, exp2(b) as int),
{
    let once = bit_reversed(s, b);
    assert forall|k: int| 0 <= k < exp2(b) implies #[trigger] bit_reversed(once, b)[k] == s[k] by {
        lemma_bit_rev_involution(k as nat, b);
    }
}

/// From the reversal of `prev`, the reversal of `prev + 1`: clear the set
/// bits from the top down, then set the first clear one.
fn reversed_increment(j: usize, prev: usize, n: usize, Ghost(lg): Ghost<nat>) -> (r: usize)
    requires
        exp2(lg) == n,
        prev + 1 < n,
        j as nat == bit_rev(prev as nat, lg),
    ensures
        r as nat == bit_rev((prev + 1) as nat, lg),
{
    let ghost s = to_bits(prev as nat, lg);
    let ghost mut sp = s;
    let ghost mut p: nat = 0;
    proof {
        lemma_to_bits_len(prev as nat, lg);
        lemma_from_to_bits(prev as nat, lg);
    }
    let mut j = j;
    let mut bit = n / 2;
    while bit > 0 && (j / bit) % 2 == 1
        invariant
            exp2(lg) == n,
            prev + 1 < n,
            lg >= 1,
            s.len() == lg,
            from_bits(s) == prev,
            p <= lg,
            bit as nat == (if p < lg { exp2((lg - 1 - p) as nat) } else { 0 }),
            sp.len() == lg,
            forall|k: int| 0 <= k < p ==> !sp[k] && s[k],
            forall|k: int| p <= k < lg ==> sp[k] == s[k],
            from_bits(sp) + exp2(p) == from_bits(s) + 1,
            j as nat == from_bits(sp.reverse()),
        decreases lg - p,
    {
        proof {
            let q = (lg - 1 - p) as nat;
            let w = sp.reverse();
            lemma_from_bits_bit(w, q);
            lemma_from_bits_update(w, q, false);
            lemma_from_bits_update(sp, p, false);
            assert(sp.update(p as int, false).reverse() =~= w.update(q as int, false));
        }
        j = j - bit;
        bit = bit / 2;
        proof {
            sp = sp.update(p as int, false);
            p = p + 1;
        }
    }
    proof {
        if p == lg {
            assert(sp =~= to_bits(0, lg)) by {
                lemma_to_bits_len(0, lg);
                assert forall|k: int| 0 <= k < lg implies !to_bits(0, lg)[k] by {
                    all_false_zero_bits(lg, k);
                }
            }
            lemma_from_to_bits(0, lg);
        }
        let q = (lg - 1 - p) as nat;
        let w = sp.reverse();
        lemma_exp2_pos(q);
        lemma_from_bits_bit(w, q);
        lemma_from_bits_update(w, q, true);
        lemma_from_bits_update(sp, p, true);
        let sn = sp.update(p as int, true);
        assert(sn.reverse() =~= w.update(q as int, true));
        lemma_from_bits_bound(sn.reverse());
        lemma_to_from_bits(sn);
    }
    j + bit
}

proof fn bit_rev_zero(b: nat)
    ensures
        bit_rev(0, b) == 0,
    decreases b,
{
    if b > 0 {
        bit_rev_zero((b - 1) as nat);
        lemma_to_bits_len(0, b);
        let s = to_bits(0, b);
        assert forall|k: int| 0 <= k < b implies !s[k] by {
            all_false_zero_bits(b, k);
        }
        lemma_exp2_pos(b);
        lemma_from_to_bits(0, b);
        assert(s.reverse() =~= s);
    }
}

proof fn all_false_zero_bits(b: nat, k: int)
    requires
        0 <= k < b,
    ensures
        !to_bits(0, b)[k],
    decreases b,
{
    lemma_to_bits_len(0, b);
    if k > 0 {
        all_false_zero_bits((b - 1) as nat, k - 1);
    }
}

} // verus!
