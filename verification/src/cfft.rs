//! Complex FFT planning: the four-step factorization for lengths above the
//! shared-memory limit, and the transpose that returns its output to natural
//! bin order.
use vstd::prelude::*;
use crate::exact::{MAX_SHARED_N_FFT, MAX_CONVOLUTION};
use crate::host::{fiber_base, window_element, lemma_fibers_disjoint};
use crate::pow2::{exp2, is_pow2, log2, log2_of_pow2, exp2_usize, lemma_exp2_add, lemma_exp2_le,
    lemma_exp2_is_pow2, lemma_exp2_values, lemma_pow2_exp2_log2};

verus! {

/// The exponent of the second four-step factor of `2^lg`: the upper half of
/// a balanced split, capped at the shared-memory limit `2^12`.
pub open spec fn four_step_log2_n2(lg: nat) -> nat {
    if (lg - lg / 2) as nat > 12 {
        12
    } else {
        (lg - lg / 2) as nat
    }
}

/// Factors a power-of-two `n_fft = n1 * n2` for the four-step FFT, with both
/// factors powers of two no larger than `MAX_SHARED_N_FFT`, as balanced as
/// the limit allows.
pub fn factor_four_step(n_fft: usize) -> (r: (usize, usize))
    requires
        is_pow2(n_fft as nat),
        n_fft <= MAX_CONVOLUTION,
    ensures
        r.1 == exp2(four_step_log2_n2(log2(n_fft as nat))),
        r.0 == exp2((log2(n_fft as nat) - four_step_log2_n2(log2(n_fft as nat))) as nat),
        r.0 * r.1 == n_fft,
        r.0 <= MAX_SHARED_N_FFT,
        r.1 <= MAX_SHARED_N_FFT,
{
    proof {
        lemma_exp2_values();
        assert(exp2(12) == 4096) by {
            reveal_with_fuel(exp2, 13);
        }
        lemma_exp2_is_pow2(12);
        lemma_exp2_is_pow2(24);
        assert(exp2(24) == exp2(12) * exp2(12)) by {
            lemma_exp2_add(12, 12);
        }
        lemma_pow2_exp2_log2(n_fft as nat);
        if log2(n_fft as nat) > 24 {
            lemma_exp2_le(25, log2(n_fft as nat));
        }
    }
    let log2_n = log2_of_pow2(n_fft);
    let max_log2 = log2_of_pow2(MAX_SHARED_N_FFT);
    let log2_n1 = log2_n / 2;
    let log2_n2 = log2_n - log2_n1;
    let (log2_n1, log2_n2) = if log2_n2 > max_log2 {
        (log2_n - max_log2, max_log2)
    } else {
        (log2_n1, log2_n2)
    };
    proof {
        lemma_exp2_le(log2_n1 as nat, 12);
        lemma_exp2_le(log2_n2 as nat, 12);
        lemma_exp2_le(12, usize::BITS as nat);
        crate::pow2::lemma_exp2_usize_bits();
        lemma_exp2_add(log2_n1 as nat, log2_n2 as nat);
    }
    (exp2_usize(log2_n1), exp2_usize(log2_n2))
}

/// Where the four-step output holds bin `k = k1 + k2 * n1` of a window:
/// row `k1`, column `k2` of the `(n1, n2)` row-major scratch.
pub open spec fn transpose_source(inner: nat, n1: nat, n2: nat) -> nat {
    (inner % n1) * n2 + inner / n1
}

/// The output position that thread `p` of the transpose writes: element
/// `p % (n1 * n2)` of window `p / (n1 * n2)`, windows along an axis whose
/// trailing axes hold `inner` elements.
pub open spec fn transpose_position(p: nat, n1: nat, n2: nat, inner: nat) -> nat {
    window_element(p / (n1 * n2), p % (n1 * n2), n1 * n2, inner)
}

/// The scratch element that thread `p` of the transpose reads: element
/// `transpose_source(p % (n1 * n2))` of the same window.
pub open spec fn transpose_target(p: nat, n1: nat, n2: nat, inner: nat) -> nat {
    window_element(p / (n1 * n2), transpose_source(p % (n1 * n2), n1, n2), n1 * n2, inner)
}

/// One thread of the transpose `(n1, n2) -> (n2, n1)` within each window of
/// `n1 * n2` elements, windows along an axis of a contiguous tensor whose
/// trailing axes hold `inner` elements (`inner == 1`: windows stored one
/// after another): thread `pos` writes element `i = pos % (n1 * n2)` of
/// window `pos / (n1 * n2)` from element `(i % n1) * n2 + i / n1` (row
/// `i % n1`, column `i / n1`) of the same scratch window. Threads at or
/// past `total` do nothing.
pub fn cfft_four_step_transpose_kernel<T: Copy>(
    scratch: &[T],
    output: &mut [T],
    total: usize,
    pos: usize,
    n1: usize,
    n2: usize,
    inner: usize,
)
    requires
        n1 > 0,
        n2 > 0,
        inner > 0,
        n1 * n2 <= usize::MAX,
        (total as nat) % (n1 as nat * n2 as nat * inner as nat) == 0,
        total <= scratch@.len(),
        total <= old(output)@.len(),
    ensures
        final(output)@ == (if pos >= total {
            old(output)@
        } else {
            old(output)@.update(
                transpose_position(pos as nat, n1 as nat, n2 as nat, inner as nat) as int,
                scratch@[transpose_target(pos as nat, n1 as nat, n2 as nat, inner as nat) as int],
            )
        }),
        pos < total ==> transpose_position(pos as nat, n1 as nat, n2 as nat, inner as nat) < total,
        pos < total ==> transpose_target(pos as nat, n1 as nat, n2 as nat, inner as nat) < total,
{
    if pos >= total {
        return;
    }
    proof {
        assert(n1 * n2 > 0) by (nonlinear_arith)
            requires
                n1 > 0,
                n2 > 0,
        ;
    }
    let m = n1 * n2;
    let i = pos % m;
    let window = pos / m;
    let k2 = i / n1;
    proof {
        lemma_transpose_source_in_window(i as nat, n1 as nat, n2 as nat);
        lemma_window_below(pos as nat, m as nat, inner as nat, total as nat);
    }
    let k1 = i - k2 * n1;
    let src = k1 * n2 + k2;
    let base = fiber_base(window, inner, m, total);
    proof {
        assert(i * inner <= (m - 1) * inner) by (nonlinear_arith)
            requires
                i < m,
        ;
        assert(src * inner <= (m - 1) * inner) by (nonlinear_arith)
            requires
                src < m,
        ;
    }
    output[base + i * inner] = scratch[base + src * inner];
}

/// A thread below `total` works on a window below `total / m`.
pub(crate) proof fn lemma_window_below(pos: nat, m: nat, inner: nat, total: nat)
    requires
        m > 0,
        inner > 0,
        pos < total,
        total % (m * inner) == 0,
    ensures
        pos / m < total / m,
        total % m == 0,
{
    vstd::arithmetic::div_mod::lemma_mod_mod(total as int, m as int, inner as int);
    vstd::arithmetic::div_mod::lemma_fundamental_div_mod(total as int, m as int);
    assert(total == (total / m) * m) by (nonlinear_arith)
        requires
            total == m * (total / m) + total % m,
            total % m == 0,
    ;
    vstd::arithmetic::div_mod::lemma_div_by_multiple_is_strongly_ordered(pos as int, total as int, (total / m) as int, m as int);
}

proof fn lemma_transpose_source_in_window(inner: nat, n1: nat, n2: nat)
    requires
        n1 > 0,
        n2 > 0,
        inner < n1 * n2,
    ensures
        transpose_source(inner, n1, n2) < n1 * n2,
        inner - (inner / n1) * n1 == inner % n1,
        inner / n1 < n2,
{
    let k1 = inner % n1;
    let k2 = inner / n1;
    vstd::arithmetic::div_mod::lemma_fundamental_div_mod(inner as int, n1 as int);
    assert(k2 < n2) by (nonlinear_arith)
        requires
            inner == n1 * k2 + k1,
            inner < n1 * n2,
            k1 >= 0,
            n1 > 0,
    ;
    assert(k1 * n2 + k2 < n1 * n2) by (nonlinear_arith)
        requires
            k1 < n1,
            k2 < n2,
    ;
}

/// Runs the transpose kernel at every thread below `total`: each window's
/// `(n1, n2)` row-major scratch lands in natural bin order, bin
/// `k1 + k2 * n1` taken from row `k1`, column `k2`; nothing past `total`
/// changes.
pub fn four_step_transpose<T: Copy>(
    scratch: &[T],
    output: &mut [T],
    total: usize,
    n1: usize,
    n2: usize,
    inner: usize,
)
    requires
        n1 > 0,
        n2 > 0,
        inner > 0,
        n1 * n2 <= usize::MAX,
        (total as nat) % (n1 as nat * n2 as nat * inner as nat) == 0,
        total <= scratch@.len(),
        total <= old(output)@.len(),
    ensures
        final(output)@.len() == old(output)@.len(),
        forall|p: int|
            0 <= p < total ==> #[trigger] final(output)@[transpose_position(p as nat, n1 as nat, n2 as nat, inner as nat) as int]
                == scratch@[transpose_target(p as nat, n1 as nat, n2 as nat, inner as nat) as int],
        forall|q: int| total <= q < old(output)@.len() ==> #[trigger] final(output)@[q] == old(output)@[q],
{
    let mut pos: usize = 0;
    while pos < total
        invariant
            pos <= total,
            n1 > 0,
            n2 > 0,
            inner > 0,
            n1 * n2 <= usize::MAX,
            (total as nat) % (n1 as nat * n2 as nat * inner as nat) == 0,
            total <= scratch@.len(),
            total <= output@.len(),
            output@.len() == old(output)@.len(),
            forall|p: int|
                0 <= p < pos ==> #[trigger] output@[transpose_position(p as nat, n1 as nat, n2 as nat, inner as nat) as int]
                    == scratch@[transpose_target(p as nat, n1 as nat, n2 as nat, inner as nat) as int],
            forall|q: int| total <= q < old(output)@.len() ==> #[trigger] output@[q] == old(output)@[q],
            forall|p: int| 0 <= p < pos ==> #[trigger] transpose_position(p as nat, n1 as nat, n2 as nat, inner as nat) < total,
        decreases total - pos,
    {
        let ghost before = output@;
        cfft_four_step_transpose_kernel(scratch, output, total, pos, n1, n2, inner);
        proof {
            let w = transpose_position(pos as nat, n1 as nat, n2 as nat, inner as nat);
            assert(w < total);
            assert(output@ == before.update(w as int, scratch@[transpose_target(pos as nat, n1 as nat, n2 as nat, inner as nat) as int]));
            assert forall|p: int|
                0 <= p < pos + 1 implies #[trigger] output@[transpose_position(p as nat, n1 as nat, n2 as nat, inner as nat) as int]
                    == scratch@[transpose_target(p as nat, n1 as nat, n2 as nat, inner as nat) as int] by {
                if p < pos {
                    lemma_transpose_positions_differ(p as nat, pos as nat, n1 as nat, n2 as nat, inner as nat);
                    assert(output@[transpose_position(p as nat, n1 as nat, n2 as nat, inner as nat) as int]
                        == before[transpose_position(p as nat, n1 as nat, n2 as nat, inner as nat) as int]);
                }
            }
            assert forall|q: int| total <= q < old(output)@.len() implies #[trigger] output@[q] == old(output)@[q] by {
                assert(q != w);
                assert(output@[q] == before[q]);
            }
        }
        pos = pos + 1;
    }
}

/// Different threads write different output positions.
proof fn lemma_transpose_positions_differ(p: nat, q: nat, n1: nat, n2: nat, inner: nat)
    requires
        p != q,
        n1 > 0,
        n2 > 0,
        inner > 0,
    ensures
        transpose_position(p, n1, n2, inner) != transpose_position(q, n1, n2, inner),
{
    let m = n1 * n2;
    assert(m > 0) by (nonlinear_arith)
        requires
            n1 > 0,
            n2 > 0,
            m == n1 * n2,
    ;
    vstd::arithmetic::div_mod::lemma_fundamental_div_mod(p as int, m as int);
    vstd::arithmetic::div_mod::lemma_fundamental_div_mod(q as int, m as int);
    if transpose_position(p, n1, n2, inner) == transpose_position(q, n1, n2, inner) {
        lemma_fibers_disjoint(p / m, p % m, q / m, q % m, inner, m);
        assert(p == q);
    }
}

/// Reading an `(n1, n2)` window in transposed order, then reading that in
/// `(n2, n1)` transposed order, gives back the natural order: the transpose
/// is a bijection of each window.
pub proof fn lemma_transpose_twice(inner: nat, n1: nat, n2: nat)
    requires
        n1 > 0,
        n2 > 0,
        inner < n1 * n2,
    ensures
        transpose_source(inner, n1, n2) < n1 * n2,
        transpose_source(transpose_source(inner, n1, n2), n2, n1) == inner,
{
    lemma_transpose_source_in_window(inner, n1, n2);
    let k1 = inner % n1;
    let k2 = inner / n1;
    let s = k1 * n2 + k2;
    vstd::arithmetic::div_mod::lemma_fundamental_div_mod(inner as int, n1 as int);
    vstd::arithmetic::div_mod::lemma_fundamental_div_mod_converse(s as int, n2 as int, k1 as int, k2 as int);
    assert(k2 * n1 + k1 == inner) by (nonlinear_arith)
        requires
            inner == n1 * k2 + k1,
    ;
}

/// Distinct positions of a window read distinct scratch elements.
pub proof fn lemma_transpose_injective(a: nat, b: nat, n1: nat, n2: nat)
    requires
        n1 > 0,
        n2 > 0,
        a < n1 * n2,
        b < n1 * n2,
        transpose_source(a, n1, n2) == transpose_source(b, n1, n2),
    ensures
        a == b,
{
    lemma_transpose_twice(a, n1, n2);
    lemma_transpose_twice(b, n1, n2);
}

} // verus!
