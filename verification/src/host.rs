//! The integer side of the CPU transforms: lengths, shapes, strides and
//! twiddle-table layout, and the data movement around the complex FFT
//! (packing a real fiber as complex pairs, reading a padded spectrum,
//! interleaving the inverse output). Element values are moved, never
//! computed, so the movement is generic over the element type.
use vstd::prelude::*;
use crate::launch::{windows, windows_below, windows_fit, with_axis};
use crate::pow2::{exp2, is_pow2, log2, ceil_pow2, log2_of_pow2, lemma_exp2_le,
    lemma_pow2_exp2_log2, checked_next_power_of_two};

verus! {

/// The product of the sizes of the axes at and past `k`: the contiguous
/// stride of axis `k - 1`.
pub open spec fn tail_product(shape: Seq<usize>, k: nat) -> nat
    decreases shape.len() - k,
{
    if k >= shape.len() {
        1
    } else {
        (shape[k as int] as nat) * tail_product(shape, k + 1)
    }
}

/// The contiguous (row-major) stride of axis `dim`: the product of the
/// sizes of the axes after it.
pub fn contiguous_stride(shape: &Vec<usize>, dim: usize) -> (r: usize)
    requires
        dim < shape@.len(),
        forall|k: nat| dim < k <= shape@.len() ==> #[trigger] tail_product(shape@, k) <= usize::MAX,
    ensures
        r == tail_product(shape@, (dim + 1) as nat),
{
    let mut stride: usize = 1;
    let mut a = shape.len();
    while a > dim + 1
        invariant
            dim + 1 <= a <= shape@.len(),
            forall|k: nat| dim < k <= shape@.len() ==> #[trigger] tail_product(shape@, k) <= usize::MAX,
            stride == tail_product(shape@, a as nat),
        decreases a,
    {
        proof {
            assert(tail_product(shape@, (a - 1) as nat) <= usize::MAX);
        }
        stride = shape[a - 1] * stride;
        a = a - 1;
    }
    stride
}

/// Offsets of the stages of a twiddle table for `n = 2^L` points: stage
/// `s` (of `2^s` twiddles) starts at `2^s - 1`, and a last entry `n - 1`
/// closes the table.
pub fn twiddle_offsets(n: usize) -> (r: Vec<usize>)
    requires
        is_pow2(n as nat),
    ensures
        r@.len() == log2(n as nat) + 1,
        forall|s: int| 0 <= s < r@.len() ==> #[trigger] r@[s] + 1 == exp2(s as nat),
{
    let stages = log2_of_pow2(n);
    let mut offsets: Vec<usize> = Vec::new();
    let mut pos: usize = 0;
    let mut half: usize = 1;
    let mut stage: u32 = 0;
    proof {
        lemma_pow2_exp2_log2(n as nat);
    }
    while stage < stages
        invariant
            stage <= stages,
            exp2(stages as nat) == n,
            offsets@.len() == stage,
            half == exp2(stage as nat),
            pos + 1 == half,
            forall|s: int| 0 <= s < offsets@.len() ==> #[trigger] offsets@[s] + 1 == exp2(s as nat),
        decreases stages - stage,
    {
        offsets.push(pos);
        proof {
            lemma_exp2_le((stage + 1) as nat, stages as nat);
        }
        pos = pos + half;
        half = half * 2;
        stage = stage + 1;
    }
    offsets.push(pos);
    offsets
}

/// `z_re`, `z_im` start with the `n / 2` complex pairs of a fiber of a
/// real signal: pair `k` is samples `2k` and `2k + 1`, sample `j` at
/// `signal[j * stride]`, samples at or past `sig_len` reading as `zero`.
pub open spec fn packed_pairs<T>(
    signal: Seq<T>,
    stride: nat,
    n: nat,
    sig_len: nat,
    zero: T,
    z_re: Seq<T>,
    z_im: Seq<T>,
) -> bool {
    &&& forall|k: int| 0 <= k < n / 2 ==> #[trigger] z_re[k] == (if 2 * k < sig_len {
        signal[2 * k * stride]
    } else {
        zero
    })
    &&& forall|k: int| 0 <= k < n / 2 ==> #[trigger] z_im[k] == (if 2 * k + 1 < sig_len {
        signal[(2 * k + 1) * stride]
    } else {
        zero
    })
}

/// Loads one fiber of a real signal as `n / 2` complex pairs
/// `z[k] = x[2k] + i x[2k+1]`, sample `j` at `signal[j * stride]`, samples
/// at or past `sig_len` reading as `zero`.
pub fn pack_fiber<T: Copy>(
    signal: &[T],
    stride: usize,
    n: usize,
    sig_len: usize,
    zero: T,
    z_re: &mut [T],
    z_im: &mut [T],
)
    requires
        sig_len <= n,
        sig_len == 0 || (sig_len - 1) * stride < signal@.len(),
        n / 2 <= old(z_re)@.len(),
        n / 2 <= old(z_im)@.len(),
    ensures
        final(z_re)@.len() == old(z_re)@.len(),
        final(z_im)@.len() == old(z_im)@.len(),
        packed_pairs(signal@, stride as nat, n as nat, sig_len as nat, zero, final(z_re)@, final(z_im)@),
        forall|k: int| n / 2 <= k < old(z_re)@.len() ==> #[trigger] final(z_re)@[k] == old(z_re)@[k],
        forall|k: int| n / 2 <= k < old(z_im)@.len() ==> #[trigger] final(z_im)@[k] == old(z_im)@[k],
{
    let half = n / 2;
    let available = signal.len();
    let mut k: usize = 0;
    while k < half
        invariant
            k <= half,
            half == n / 2,
            available == signal@.len(),
            sig_len <= n,
            sig_len == 0 || (sig_len - 1) * stride < signal@.len(),
            z_re@.len() == old(z_re)@.len(),
            z_im@.len() == old(z_im)@.len(),
            half <= z_re@.len(),
            half <= z_im@.len(),
            forall|j: int| 0 <= j < k ==> #[trigger] z_re@[j] == (if 2 * j < sig_len {
                signal@[2 * j * stride]
            } else {
                zero
            }),
            forall|j: int| 0 <= j < k ==> #[trigger] z_im@[j] == (if 2 * j + 1 < sig_len {
                signal@[(2 * j + 1) * stride]
            } else {
                zero
            }),
            forall|j: int| half <= j < old(z_re)@.len() ==> #[trigger] z_re@[j] == old(z_re)@[j],
            forall|j: int| half <= j < old(z_im)@.len() ==> #[trigger] z_im@[j] == old(z_im)@[j],
        decreases half - k,
    {
        let even = 2 * k;
        let odd = even + 1;
        if even < sig_len {
            proof {
                lemma_index_below(even as nat, sig_len as nat, stride as nat, signal@.len());
            }
            z_re[k] = signal[even * stride];
        } else {
            z_re[k] = zero;
        }
        if odd < sig_len {
            proof {
                lemma_index_below(odd as nat, sig_len as nat, stride as nat, signal@.len());
            }
            z_im[k] = signal[odd * stride];
        } else {
            z_im[k] = zero;
        }
        k = k + 1;
    }
}

/// An index below the last one read stays inside the slice.
proof fn lemma_index_below(j: nat, len: nat, stride: nat, total: nat)
    requires
        j < len,
        (len - 1) * stride < total,
    ensures
        j * stride < total,
{
    assert(j * stride <= (len - 1) * stride) by (nonlinear_arith)
        requires
            j <= len - 1,
    ;
}

/// Reads bins `0..=half` of one spectrum fiber, bin `k` at
/// `re[k * stride]`, `im[k * stride]`, bins at or past `spec_bins` reading
/// as `zero`.
pub fn load_spectrum<T: Copy>(
    re: &[T],
    im: &[T],
    stride: usize,
    half: usize,
    spec_bins: usize,
    zero: T,
    spec_re: &mut [T],
    spec_im: &mut [T],
)
    requires
        half < usize::MAX,
        spec_bins == 0 || (spec_bins - 1) * stride < re@.len(),
        spec_bins == 0 || (spec_bins - 1) * stride < im@.len(),
        half + 1 <= old(spec_re)@.len(),
        half + 1 <= old(spec_im)@.len(),
    ensures
        final(spec_re)@.len() == old(spec_re)@.len(),
        final(spec_im)@.len() == old(spec_im)@.len(),
        forall|k: int| 0 <= k <= half ==> #[trigger] final(spec_re)@[k] == (if k < spec_bins {
            re@[k * stride]
        } else {
            zero
        }),
        forall|k: int| 0 <= k <= half ==> #[trigger] final(spec_im)@[k] == (if k < spec_bins {
            im@[k * stride]
        } else {
            zero
        }),
        forall|k: int| half < k < old(spec_re)@.len() ==> #[trigger] final(spec_re)@[k] == old(spec_re)@[k],
        forall|k: int| half < k < old(spec_im)@.len() ==> #[trigger] final(spec_im)@[k] == old(spec_im)@[k],
{
    let re_len = re.len();
    let im_len = im.len();
    let mut k: usize = 0;
    while k <= half
        invariant
            re_len == re@.len(),
            im_len == im@.len(),
            k <= half + 1,
            half < usize::MAX,
            spec_bins == 0 || (spec_bins - 1) * stride < re@.len(),
            spec_bins == 0 || (spec_bins - 1) * stride < im@.len(),
            spec_re@.len() == old(spec_re)@.len(),
            spec_im@.len() == old(spec_im)@.len(),
            half + 1 <= spec_re@.len(),
            half + 1 <= spec_im@.len(),
            forall|j: int| 0 <= j < k ==> #[trigger] spec_re@[j] == (if j < spec_bins {
                re@[j * stride]
            } else {
                zero
            }),
            forall|j: int| 0 <= j < k ==> #[trigger] spec_im@[j] == (if j < spec_bins {
                im@[j * stride]
            } else {
                zero
            }),
            forall|j: int| half < j < old(spec_re)@.len() ==> #[trigger] spec_re@[j] == old(spec_re)@[j],
            forall|j: int| half < j < old(spec_im)@.len() ==> #[trigger] spec_im@[j] == old(spec_im)@[j],
        decreases half + 1 - k,
    {
        if k < spec_bins {
            proof {
                lemma_index_below(k as nat, spec_bins as nat, stride as nat, re@.len());
                lemma_index_below(k as nat, spec_bins as nat, stride as nat, im@.len());
            }
            spec_re[k] = re[k * stride];
            spec_im[k] = im[k * stride];
        } else {
            spec_re[k] = zero;
            spec_im[k] = zero;
        }
        k = k + 1;
    }
}

/// `signal` holds the `half` complex values `z` as `2 * half` real samples
/// `stride` apart: `signal[2k * stride] = z_re[k]`,
/// `signal[(2k+1) * stride] = z_im[k]`.
pub open spec fn interleaved<T>(z_re: Seq<T>, z_im: Seq<T>, half: nat, signal: Seq<T>, stride: nat) -> bool {
    &&& forall|k: int| 0 <= k < half ==> #[trigger] signal[2 * k * stride] == z_re[k]
    &&& forall|k: int| 0 <= k < half ==> #[trigger] signal[(2 * k + 1) * stride] == z_im[k]
}

/// Interleaving the packed pairs of a whole fiber of `n` samples (`n`
/// even) back at the same stride puts every sample where it was: the
/// inverse's de-interleaving undoes the forward's packing.
pub proof fn lemma_interleave_undoes_pack<T>(
    signal: Seq<T>,
    stride: nat,
    n: nat,
    zero: T,
    z_re: Seq<T>,
    z_im: Seq<T>,
    out: Seq<T>,
)
    requires
        n % 2 == 0,
        packed_pairs(signal, stride, n, n, zero, z_re, z_im),
        interleaved(z_re, z_im, n / 2, out, stride),
    ensures
        forall|p: int| 0 <= p < n ==> #[trigger] out[p * stride] == signal[p * stride],
{
    assert forall|p: int| 0 <= p < n implies #[trigger] out[p * stride] == signal[p * stride] by {
        let k = p / 2;
        if p % 2 == 0 {
            assert(p == 2 * k);
            assert(out[2 * k * stride] == z_re[k]);
            assert(z_re[k] == signal[2 * k * stride]);
        } else {
            assert(p == 2 * k + 1);
            assert(out[(2 * k + 1) * stride] == z_im[k]);
            assert(z_im[k] == signal[(2 * k + 1) * stride]);
        }
    }
}

/// Writes the `half` complex outputs of the inverse as `2 * half` real
/// samples: `signal[2k * stride] = z_re[k]`, `signal[(2k+1) * stride] =
/// z_im[k]`.
pub fn interleave<T: Copy>(z_re: &[T], z_im: &[T], half: usize, signal: &mut [T], stride: usize)
    requires
        stride > 0,
        half <= z_re@.len(),
        half <= z_im@.len(),
        half == 0 || (2 * half - 1) * stride < old(signal)@.len(),
    ensures
        final(signal)@.len() == old(signal)@.len(),
        interleaved(z_re@, z_im@, half as nat, final(signal)@, stride as nat),
        forall|p: int|
            0 <= p < old(signal)@.len() && (p % (stride as int) != 0 || p / (stride as int) >= 2 * half) ==> #[trigger] final(signal)@[p]
                == old(signal)@[p],
{
    let available = signal.len();
    let mut k: usize = 0;
    while k < half
        invariant
            available == old(signal)@.len(),
            k <= half,
            stride > 0,
            half <= z_re@.len(),
            half <= z_im@.len(),
            half == 0 || (2 * half - 1) * stride < old(signal)@.len(),
            signal@.len() == old(signal)@.len(),
            forall|j: int| 0 <= j < k ==> #[trigger] signal@[2 * j * stride] == z_re@[j],
            forall|j: int| 0 <= j < k ==> #[trigger] signal@[(2 * j + 1) * stride] == z_im@[j],
            forall|p: int|
                0 <= p < old(signal)@.len() && (p % (stride as int) != 0 || p / (stride as int) >= 2 * k) ==> #[trigger] signal@[p]
                    == old(signal)@[p],
        decreases half - k,
    {
        proof {
            lemma_index_below((2 * k) as nat, (2 * half) as nat, stride as nat, signal@.len());
            lemma_index_below((2 * k + 1) as nat, (2 * half) as nat, stride as nat, signal@.len());
            lemma_multiple_slots(k as nat, stride as nat);
        }
        let ghost before = signal@;
        signal[2 * k * stride] = z_re[k];
        signal[(2 * k + 1) * stride] = z_im[k];
        proof {
            let e = 2 * k * stride;
            let o = (2 * k + 1) * stride;
            lemma_multiple_slots(k as nat, stride as nat);
            assert forall|j: int| 0 <= j < k + 1 implies #[trigger] signal@[2 * j * stride] == z_re@[j] by {
                if j < k {
                    lemma_slots_distinct(j as nat, k as nat, stride as nat);
                    lemma_index_below((2 * j) as nat, (2 * half) as nat, stride as nat, before.len());
                } else {
                }
            }
            assert forall|j: int| 0 <= j < k + 1 implies #[trigger] signal@[(2 * j + 1) * stride] == z_im@[j] by {
                if j < k {
                    lemma_slots_distinct(j as nat, k as nat, stride as nat);
                    lemma_index_below((2 * j + 1) as nat, (2 * half) as nat, stride as nat, before.len());
                } else {
                }
            }
        }
        k = k + 1;
    }
}

/// Slots `2k * stride` and `(2k+1) * stride` are multiples of `stride` with
/// quotients `2k` and `2k + 1`.
proof fn lemma_multiple_slots(k: nat, stride: nat)
    requires
        stride > 0,
    ensures
        (2 * k * stride) % stride == 0,
        (2 * k * stride) / stride == 2 * k,
        ((2 * k + 1) * stride) % stride == 0,
        ((2 * k + 1) * stride) / stride == 2 * k + 1,
        2 * k * stride != (2 * k + 1) * stride,
{
    vstd::arithmetic::div_mod::lemma_mod_multiples_basic((2 * k) as int, stride as int);
    vstd::arithmetic::div_mod::lemma_mod_multiples_basic((2 * k + 1) as int, stride as int);
    vstd::arithmetic::div_mod::lemma_div_multiples_vanish((2 * k) as int, stride as int);
    vstd::arithmetic::div_mod::lemma_div_multiples_vanish((2 * k + 1) as int, stride as int);
    assert(2 * k * stride == stride * (2 * k)) by (nonlinear_arith);
}

/// Slots of different pairs differ.
proof fn lemma_slots_distinct(j: nat, k: nat, stride: nat)
    requires
        j < k,
        stride > 0,
    ensures
        2 * j * stride != 2 * k * stride,
        2 * j * stride != (2 * k + 1) * stride,
        (2 * j + 1) * stride != 2 * k * stride,
        (2 * j + 1) * stride != (2 * k + 1) * stride,
{
    lemma_multiple_slots(j, stride);
    lemma_multiple_slots(k, stride);
}

/// Writes the first `count` values of a fiber into `out`: value `k` lands
/// at `base + k * stride`; every other position keeps its value.
pub fn scatter_fiber<T: Copy>(values: &[T], count: usize, out: &mut [T], base: usize, stride: usize)
    requires
        stride > 0,
        count <= values@.len(),
        count == 0 || base + (count - 1) * stride < old(out)@.len(),
    ensures
        final(out)@.len() == old(out)@.len(),
        forall|k: int| 0 <= k < count ==> #[trigger] final(out)@[base + k * stride] == values@[k],
        forall|p: int|
            0 <= p < old(out)@.len() && !on_fiber(p, base as int, stride as int, count as int) ==> #[trigger] final(out)@[p]
                == old(out)@[p],
{
    let available = out.len();
    let mut k: usize = 0;
    while k < count
        invariant
            available == old(out)@.len(),
            k <= count,
            stride > 0,
            count <= values@.len(),
            count == 0 || base + (count - 1) * stride < old(out)@.len(),
            out@.len() == old(out)@.len(),
            forall|j: int| 0 <= j < k ==> #[trigger] out@[base + j * stride] == values@[j],
            forall|p: int|
                0 <= p < old(out)@.len() && !on_fiber(p, base as int, stride as int, k as int) ==> #[trigger] out@[p]
                    == old(out)@[p],
        decreases count - k,
    {
        proof {
            lemma_index_below(k as nat, count as nat, stride as nat, (old(out)@.len() - base) as nat);
        }
        let ghost before = out@;
        let q = base + k * stride;
        out[q] = values[k];
        proof {
            lemma_on_fiber_slot(base as int, stride as int, k as int);
            assert forall|j: int| 0 <= j < k + 1 implies #[trigger] out@[base + j * stride] == values@[j] by {
                if j < k {
                    assert(j * stride < k * stride) by (nonlinear_arith)
                        requires
                            j < k,
                            stride > 0,
                    ;
                }
            }
            assert forall|p: int|
                0 <= p < old(out)@.len() && !on_fiber(p, base as int, stride as int, (k + 1) as int) implies #[trigger] out@[p]
                    == old(out)@[p] by {}
        }
        k = k + 1;
    }
}

/// Position `p` is one of the first `count` elements of the fiber at `base`
/// with step `stride`.
pub open spec fn on_fiber(p: int, base: int, stride: int, count: int) -> bool {
    base <= p && (p - base) % stride == 0 && (p - base) / stride < count
}

/// Slot `k` of a fiber lies on it and on no shorter prefix.
proof fn lemma_on_fiber_slot(base: int, stride: int, k: int)
    requires
        stride > 0,
        k >= 0,
    ensures
        on_fiber(base + k * stride, base, stride, k + 1),
        !on_fiber(base + k * stride, base, stride, k),
{
    vstd::arithmetic::div_mod::lemma_mod_multiples_basic(k, stride);
    vstd::arithmetic::div_mod::lemma_div_multiples_vanish(k, stride);
    assert(k * stride == stride * k) by (nonlinear_arith);
    assert(k * stride >= 0) by (nonlinear_arith)
        requires
            k >= 0,
            stride > 0,
    ;
}

/// Where element `p` of the narrowed tensor comes from: blocks of
/// `len * inner` elements become blocks of `axis * inner`.
pub open spec fn narrow_source(p: nat, axis: nat, inner: nat, len: nat) -> nat {
    (p / (len * inner)) * (axis * inner) + p % (len * inner)
}

/// Keeps the first `len` of the `axis` positions of the middle axis of a
/// contiguous `[outer, axis, inner]` tensor (the crop to a requested
/// length).
pub fn narrow_axis<T: Copy>(data: &[T], outer: usize, axis: usize, inner: usize, len: usize) -> (r: Vec<T>)
    requires
        len <= axis,
        outer * axis * inner == data@.len(),
    ensures
        r@.len() == outer * len * inner,
        forall|o: int, k: int, i: int|
            0 <= o < outer && 0 <= k < len && 0 <= i < inner ==> #[trigger] r@[(o * len + k) * inner + i]
                == data@[(o * axis + k) * inner + i],
{
    let mut out: Vec<T> = Vec::new();
    if outer == 0 || len == 0 || inner == 0 {
        proof {
            assert(outer * len * inner == 0) by (nonlinear_arith)
                requires
                    outer == 0 || len == 0 || inner == 0,
            ;
        }
        return out;
    }
    let available = data.len();
    proof {
        lemma_narrow_sizes(outer as nat, axis as nat, inner as nat, len as nat);
    }
    let row = axis * inner;
    let block = len * inner;
    let total = outer * block;
    let mut p: usize = 0;
    while p < total
        invariant
            p <= total,
            0 < block <= row,
            row == axis * inner,
            block == len * inner,
            total == outer * block,
            outer * row == data@.len(),
            available == data@.len(),
            out@.len() == p,
            forall|q: int| 0 <= q < p ==> #[trigger] out@[q] == data@[narrow_source(q as nat, axis as nat, inner as nat, len as nat) as int],
        decreases total - p,
    {
        let o = p / block;
        let rem = p % block;
        proof {
            lemma_narrow_source_below(p as nat, outer as nat, row as nat, block as nat);
        }
        out.push(data[o * row + rem]);
        p = p + 1;
    }
    proof {
        assert forall|o: int, k: int, i: int|
            0 <= o < outer && 0 <= k < len && 0 <= i < inner implies #[trigger] out@[(o * len + k) * inner + i]
                == data@[(o * axis + k) * inner + i] by {
            lemma_narrow_index(o as nat, k as nat, i as nat, outer as nat, axis as nat, inner as nat, len as nat);
        }
    }
    out
}

/// The narrowed sizes fit below the full ones.
proof fn lemma_narrow_sizes(outer: nat, axis: nat, inner: nat, len: nat)
    requires
        outer > 0,
        inner > 0,
        0 < len <= axis,
    ensures
        0 < len * inner <= axis * inner,
        axis * inner <= outer * axis * inner,
        outer * (len * inner) <= outer * axis * inner,
        outer * (axis * inner) == outer * axis * inner,
        outer * (len * inner) == outer * len * inner,
{
    assert(outer * (len * inner) == outer * len * inner) by (nonlinear_arith);
    assert(0 < len * inner <= axis * inner) by (nonlinear_arith)
        requires
            inner > 0,
            0 < len <= axis,
    ;
    assert(axis * inner <= outer * axis * inner) by (nonlinear_arith)
        requires
            outer > 0,
    ;
    assert(outer * (len * inner) <= outer * axis * inner) by (nonlinear_arith)
        requires
            len * inner <= axis * inner,
    ;
    assert(outer * (axis * inner) == outer * axis * inner) by (nonlinear_arith);
}

/// The source of a narrowed position lies inside the full tensor.
proof fn lemma_narrow_source_below(p: nat, outer: nat, row: nat, block: nat)
    requires
        0 < block <= row,
        p < outer * block,
    ensures
        (p / block) * row + p % block < outer * row,
{
    vstd::arithmetic::div_mod::lemma_fundamental_div_mod(p as int, block as int);
    let o = p / block;
    let rem = p % block;
    assert(o < outer) by (nonlinear_arith)
        requires
            p == block * o + rem,
            rem >= 0,
            p < outer * block,
            block > 0,
    ;
    assert(o * row + rem < outer * row) by (nonlinear_arith)
        requires
            o + 1 <= outer,
            rem < block,
            block <= row,
    ;
}

/// Element `(o, k, i)` of the narrowed tensor sits at flat position
/// `(o len + k) inner + i`, whose source is `(o axis + k) inner + i`.
proof fn lemma_narrow_index(o: nat, k: nat, i: nat, outer: nat, axis: nat, inner: nat, len: nat)
    requires
        o < outer,
        k < len,
        i < inner,
        len <= axis,
    ensures
        narrow_source((o * len + k) * inner + i, axis, inner, len) == (o * axis + k) * inner + i,
        (o * len + k) * inner + i < outer * len * inner,
{
    assert((o * len + k) * inner + i < outer * len * inner) by (nonlinear_arith)
        requires
            o + 1 <= outer,
            k + 1 <= len,
            i + 1 <= inner,
    ;
    let block = len * inner;
    let p = (o * len + k) * inner + i;
    assert(p == o * block + (k * inner + i)) by (nonlinear_arith)
        requires
            p == (o * len + k) * inner + i,
            block == len * inner,
    ;
    assert(k * inner + i < block) by (nonlinear_arith)
        requires
            k + 1 <= len,
            i < inner,
            block == len * inner,
    ;
    vstd::arithmetic::div_mod::lemma_fundamental_div_mod_converse(p as int, block as int, o as int, (k * inner + i) as int);
    assert(o * (axis * inner) + (k * inner + i) == (o * axis + k) * inner + i) by (nonlinear_arith);
}

/// How a CPU forward transform runs: `fft_size` points (the request
/// rounded up to a power of two), `sig_len` samples read per fiber, spectra
/// of `out_len` bins along `dim` shaped `out_shape`, `num_fibers` fibers with
/// contiguous strides `in_stride` and `out_stride` along `dim`, spread over
/// threads when `parallel`.
pub struct HostForwardPlan {
    pub fft_size: usize,
    pub sig_len: usize,
    pub out_len: usize,
    pub out_shape: Vec<usize>,
    pub num_fibers: usize,
    pub in_stride: usize,
    pub out_stride: usize,
    pub parallel: bool,
}

/// Whether a CPU forward transform of `shape` along `dim` runs: without a
/// requested length the axis must be a positive power of two; the request
/// rounded up must fit; the axis must be non-empty; the fiber count and
/// strides must fit in `usize`.
pub open spec fn host_forward_accepts(shape: Seq<usize>, dim: nat, n: Option<usize>) -> bool {
    let requested = match n { Some(v) => v as nat, None => shape[dim as int] as nat };
    &&& dim < shape.len()
    &&& n is None ==> is_pow2(shape[dim as int] as nat)
    &&& shape[dim as int] > 0
    &&& ceil_pow2(requested) <= usize::MAX
    &&& windows_fit(shape, dim)
    &&& forall|k: nat| dim < k <= shape.len() ==> #[trigger] tail_product(shape, k) <= usize::MAX
}

/// What a CPU forward transform plans.
pub open spec fn host_forward_holds(p: HostForwardPlan, shape: Seq<usize>, dim: nat, n: Option<usize>) -> bool {
    let requested = match n { Some(v) => v as nat, None => shape[dim as int] as nat };
    let size = ceil_pow2(requested);
    &&& p.fft_size == size
    &&& p.sig_len == (if shape[dim as int] <= requested { shape[dim as int] as nat } else { requested })
    &&& p.out_len == size / 2 + 1
    &&& p.out_shape@ == shape.update(dim as int, (size / 2 + 1) as usize)
    &&& p.num_fibers == windows(shape, dim)
    &&& p.in_stride == tail_product(shape, dim + 1)
    &&& p.out_stride == tail_product(shape, dim + 1)
    &&& p.parallel == (windows(shape, dim) >= 4 && size >= 64)
}

/// The tail products past `dim` ignore the size of axis `dim`.
proof fn lemma_tail_product_resize(shape: Seq<usize>, dim: nat, len: usize, k: nat)
    requires
        dim < k,
        dim < shape.len(),
    ensures
        tail_product(shape.update(dim as int, len), k) == tail_product(shape, k),
    decreases shape.len() - k,
{
    let u = shape.update(dim as int, len);
    if k < shape.len() {
        lemma_tail_product_resize(shape, dim, len, k + 1);
    }
}

/// Plans a CPU forward real FFT (`rfft_f32`, `rfft_f64`) of `shape` along
/// `dim`, of the requested length `n` (the axis length when `None`).
pub fn rfft_host_plan(shape: &Vec<usize>, dim: usize, n: Option<usize>) -> (r: HostForwardPlan)
    requires
        host_forward_accepts(shape@, dim as nat, n),
    ensures
        host_forward_holds(r, shape@, dim as nat, n),
{
    let requested = match n {
        Some(v) => v,
        None => shape[dim],
    };
    let fft_size = match checked_next_power_of_two(requested) {
        Some(v) => v,
        None => {
            vstd::pervasive::unreached()
        },
    };
    let sig_len = if shape[dim] <= requested { shape[dim] } else { requested };
    proof {
        crate::pow2::lemma_ceil_pow2_char(requested as nat, 0);
    }
    let out_len = fft_size / 2 + 1;
    let out_shape = with_axis(shape, dim, out_len);
    let num_fibers = crate::launch::window_count(shape, dim);
    let in_stride = contiguous_stride(shape, dim);
    proof {
        lemma_tail_product_resize(shape@, dim as nat, out_len, (dim + 1) as nat);
    }
    let out_stride = in_stride;
    let parallel = num_fibers >= 4 && fft_size >= 64;
    HostForwardPlan { fft_size, sig_len, out_len, out_shape, num_fibers, in_stride, out_stride, parallel }
}

/// How a CPU inverse transform runs: with a transform of at most one point,
/// only the DC bin is returned; otherwise `fft_size` points from
/// `spec_bins` bins per fiber, computed into `out_shape` and cropped to
/// `result_shape`.
pub enum HostInversePlan {
    DcOnly { result_shape: Vec<usize> },
    Transform {
        fft_size: usize,
        half: usize,
        spec_bins: usize,
        out_shape: Vec<usize>,
        num_fibers: usize,
        in_stride: usize,
        out_stride: usize,
        parallel: bool,
        result_shape: Vec<usize>,
    },
}

/// Whether a CPU inverse transform runs: matching spectrum shapes, a
/// non-empty axis `dim`, without a requested length a power-of-two default
/// length `2 (bins - 1)`, a rounded-up length that fits, and fiber counts and
/// strides that fit.
pub open spec fn host_inverse_accepts(re: Seq<usize>, im: Seq<usize>, dim: nat, n: Option<usize>) -> bool {
    let bins = re[dim as int] as nat;
    let requested = match n { Some(v) => v as nat, None => (2 * (bins - 1)) as nat };
    &&& re == im
    &&& dim < re.len()
    &&& bins >= 1
    &&& 2 * (bins - 1) <= usize::MAX
    &&& n is None ==> is_pow2((2 * (bins - 1)) as nat)
    &&& ceil_pow2(requested) <= usize::MAX
    &&& windows_fit(re, dim)
    &&& forall|k: nat| dim < k <= re.len() ==> #[trigger] tail_product(re, k) <= usize::MAX
}

/// What a CPU inverse transform plans.
pub open spec fn host_inverse_holds(p: HostInversePlan, re: Seq<usize>, dim: nat, n: Option<usize>) -> bool {
    let bins = re[dim as int] as nat;
    let requested = match n { Some(v) => v as nat, None => (2 * (bins - 1)) as nat };
    let size = ceil_pow2(requested);
    match p {
        HostInversePlan::DcOnly { result_shape } => size <= 1 && result_shape@ == re.update(dim as int, 1),
        HostInversePlan::Transform {
            fft_size,
            half,
            spec_bins,
            out_shape,
            num_fibers,
            in_stride,
            out_stride,
            parallel,
            result_shape,
        } => {
            &&& size > 1
            &&& fft_size == size
            &&& half == size / 2
            &&& spec_bins == bins
            &&& out_shape@ == re.update(dim as int, size as usize)
            &&& num_fibers == windows(re, dim)
            &&& in_stride == tail_product(re, dim + 1)
            &&& out_stride == tail_product(re, dim + 1)
            &&& parallel == (windows(re, dim) >= 4 && size >= 64)
            &&& result_shape@ == re.update(dim as int, requested as usize)
        },
    }
}

/// Plans a CPU inverse real FFT (`irfft_f32`, `irfft_f64`) of spectra
/// shaped `re` and `im` along `dim`, cropped to the requested length `n`
/// (`2 (bins - 1)` when `None`).
pub fn irfft_host_plan(re: &Vec<usize>, im: &Vec<usize>, dim: usize, n: Option<usize>) -> (r: HostInversePlan)
    requires
        host_inverse_accepts(re@, im@, dim as nat, n),
    ensures
        host_inverse_holds(r, re@, dim as nat, n),
{
    let bins = re[dim];
    let requested = match n {
        Some(v) => v,
        None => (bins - 1) * 2,
    };
    let fft_size = match checked_next_power_of_two(requested) {
        Some(v) => v,
        None => {
            vstd::pervasive::unreached()
        },
    };
    if fft_size <= 1 {
        return HostInversePlan::DcOnly { result_shape: with_axis(re, dim, 1) };
    }
    proof {
        crate::pow2::lemma_ceil_pow2_char(requested as nat, 0);
    }
    let out_shape = with_axis(re, dim, fft_size);
    let num_fibers = crate::launch::window_count(re, dim);
    let in_stride = contiguous_stride(re, dim);
    proof {
        lemma_tail_product_resize(re@, dim as nat, fft_size, (dim + 1) as nat);
    }
    let out_stride = in_stride;
    let result_shape = with_axis(re, dim, requested);
    HostInversePlan::Transform {
        fft_size,
        half: fft_size / 2,
        spec_bins: bins,
        out_shape,
        num_fibers,
        in_stride,
        out_stride,
        parallel: num_fibers >= 4 && fft_size >= 64,
        result_shape,
    }
}

/// A CPU round trip keeps the shape: the inverse of a forward transform's
/// spectra, asked for the input's length, runs at the forward length over
/// the same fibers and returns the input's shape.
pub proof fn lemma_host_roundtrip_shape(
    shape: Seq<usize>,
    dim: nat,
    forward_plan: HostForwardPlan,
    inverse_plan: HostInversePlan,
)
    requires
        dim < shape.len(),
        shape[dim as int] > 1,
        host_forward_holds(forward_plan, shape, dim, None),
        host_inverse_holds(inverse_plan, forward_plan.out_shape@, dim, Some(shape[dim as int])),
        is_pow2(shape[dim as int] as nat),
    ensures
        inverse_plan matches HostInversePlan::Transform { fft_size, result_shape, num_fibers, .. } && fft_size
            == forward_plan.fft_size && result_shape@ == shape && num_fibers == forward_plan.num_fibers,
{
    crate::pow2::lemma_ceil_pow2_of_pow2(shape[dim as int] as nat);
    let out = forward_plan.out_shape@;
    crate::launch::lemma_windows_resize(shape, dim, out[dim as int], shape.len());
    match inverse_plan {
        HostInversePlan::Transform { result_shape, .. } => {
        },
        HostInversePlan::DcOnly { .. } => {},
    }
}

/// One fused radix-4 pass: stages `stage` and `stage + 1` over groups of
/// `group_size = 4 * quarter` points, butterflies `p0 = start + k`,
/// `p1 = p0 + quarter`, `p2 = p1 + quarter`, `p3 = p2 + quarter` for
/// `k < quarter`, inner twiddles from table offset `inner_offset`, outer
/// ones from `outer_offset`.
#[derive(Debug, Clone, Copy, PartialEq, Eq, Structural)]
pub struct Radix4Pass {
    pub stage: usize,
    pub quarter: usize,
    pub group_size: usize,
    pub inner_offset: usize,
    pub outer_offset: usize,
}

/// How an `n`-point complex FFT runs on the CPU.
pub enum ComplexFftPlan {
    /// Zero or one point: nothing to do.
    Nothing,
    /// Two, four or eight points: a fully unrolled transform of that size.
    Unrolled(usize),
    /// Larger: the bit-reversal permutation, one radix-2 pass when the
    /// number of stages is odd, then the radix-4 passes.
    Mixed { leading_radix2: bool, passes: Vec<Radix4Pass> },
}

pub open spec fn radix4_pass_spec(stage: nat) -> Radix4Pass {
    Radix4Pass {
        stage: stage as usize,
        quarter: exp2(stage) as usize,
        group_size: (4 * exp2(stage)) as usize,
        inner_offset: (exp2(stage) - 1) as usize,
        outer_offset: (exp2(stage + 1) - 1) as usize,
    }
}

/// What `complex_fft_plan` answers for `n` points.
pub open spec fn complex_fft_plan_holds(p: ComplexFftPlan, n: nat) -> bool {
    let stages = log2(n);
    let start: nat = if stages % 2 == 1 { 1 } else { 0 };
    match p {
        ComplexFftPlan::Nothing => n <= 1,
        ComplexFftPlan::Unrolled(size) => size == n && (n == 2 || n == 4 || n == 8),
        ComplexFftPlan::Mixed { leading_radix2, passes } => {
            &&& n > 8
            &&& leading_radix2 == (stages % 2 == 1)
            &&& passes@.len() == (stages - start) / 2
            &&& forall|i: int| 0 <= i < passes@.len() ==> #[trigger] passes@[i] == radix4_pass_spec((start + 2 * i) as nat)
        },
    }
}

/// Plans a CPU complex FFT of `n` points, `n` zero or a power of two.
pub fn complex_fft_plan(n: usize) -> (r: ComplexFftPlan)
    requires
        n == 0 || is_pow2(n as nat),
    ensures
        complex_fft_plan_holds(r, n as nat),
{
    if n <= 1 {
        return ComplexFftPlan::Nothing;
    }
    if n == 2 || n == 4 || n == 8 {
        return ComplexFftPlan::Unrolled(n);
    }
    proof {
        if n <= 8 {
            reveal_with_fuel(is_pow2, 5);
        }
    }
    let stages = log2_of_pow2(n) as usize;
    let leading_radix2 = stages % 2 == 1;
    let start: usize = if leading_radix2 { 1 } else { 0 };
    let mut passes: Vec<Radix4Pass> = Vec::new();
    let mut stage = start;
    proof {
        crate::pow2::lemma_pow2_exp2_log2(n as nat);
    }
    while stage + 1 < stages
        invariant
            start <= stage <= stages + 1,
            stages < usize::BITS,
            exp2(stages as nat) == n,
            (stage - start) % 2 == 0,
            passes@.len() == (stage - start) / 2,
            forall|i: int| 0 <= i < passes@.len() ==> #[trigger] passes@[i] == radix4_pass_spec((start + 2 * i) as nat),
            stage + 1 >= stages ==> passes@.len() == (stages - start) / 2,
        decreases stages - stage,
    {
        proof {
            lemma_exp2_le((stage + 1) as nat, stages as nat);
            crate::pow2::lemma_exp2_pos(stage as nat);
        }
        let quarter = crate::pow2::exp2_usize(stage as u32);
        let pass = Radix4Pass {
            stage,
            quarter,
            group_size: quarter * 4,
            inner_offset: quarter - 1,
            outer_offset: quarter * 2 - 1,
        };
        passes.push(pass);
        stage = stage + 2;
    }
    ComplexFftPlan::Mixed { leading_radix2, passes }
}

/// The stages of an `n`-point FFT are each run once: the optional leading
/// radix-2 stage and two stages per radix-4 pass add up to all `log2 n`.
pub proof fn lemma_complex_fft_stages(p: ComplexFftPlan, n: nat)
    requires
        complex_fft_plan_holds(p, n),
        p is Mixed,
        is_pow2(n),
    ensures
        (if p->Mixed_leading_radix2 { 1nat } else { 0nat }) + 2 * p->Mixed_passes@.len() == log2(n),
{
}

/// Point `j * quarter + k` of group `g` of a pass whose groups hold
/// `legs * quarter` points: leg `j < legs` of butterfly `k < quarter`.
pub open spec fn butterfly_point(quarter: nat, legs: nat, g: nat, k: nat, j: nat) -> nat {
    g * (legs * quarter) + j * quarter + k
}

/// The group of point `x`.
pub open spec fn leg_group(quarter: nat, legs: nat, x: nat) -> nat {
    x / (legs * quarter)
}

/// The butterfly of point `x` within its group.
pub open spec fn leg_index(quarter: nat, legs: nat, x: nat) -> nat {
    x % (legs * quarter) % quarter
}

/// The leg of point `x` within its butterfly.
pub open spec fn leg_number(quarter: nat, legs: nat, x: nat) -> nat {
    x % (legs * quarter) / quarter
}

/// Whether `(g, k, j)` names a butterfly leg of a pass over `groups`
/// groups.
pub open spec fn is_leg(quarter: nat, legs: nat, groups: nat, g: nat, k: nat, j: nat) -> bool {
    g < groups && k < quarter && j < legs
}

/// The legs of a pass over `groups` groups of `legs * quarter` points are
/// the points `0..groups * legs * quarter`, each reached by exactly one leg.
proof fn lemma_butterfly_points(quarter: nat, legs: nat, groups: nat)
    requires
        quarter > 0,
        legs > 0,
    ensures
        forall|g: nat, k: nat, j: nat|
            is_leg(quarter, legs, groups, g, k, j) ==> #[trigger] butterfly_point(quarter, legs, g, k, j) < groups * (legs
                * quarter),
        forall|g: nat, k: nat, j: nat, g2: nat, k2: nat, j2: nat|
            is_leg(quarter, legs, groups, g, k, j) && is_leg(quarter, legs, groups, g2, k2, j2)
                && #[trigger] butterfly_point(quarter, legs, g, k, j) == #[trigger] butterfly_point(quarter, legs, g2, k2, j2)
                ==> g == g2 && k == k2 && j == j2,
        forall|x: nat|
            x < groups * (legs * quarter) ==> is_leg(
                quarter,
                legs,
                groups,
                #[trigger] leg_group(quarter, legs, x),
                leg_index(quarter, legs, x),
                leg_number(quarter, legs, x),
            ) && butterfly_point(quarter, legs, leg_group(quarter, legs, x), leg_index(quarter, legs, x), leg_number(quarter, legs, x))
                == x,
{
    let size = legs * quarter;
    assert(size > 0) by (nonlinear_arith)
        requires
            quarter > 0,
            legs > 0,
            size == legs * quarter,
    ;
    assert forall|g: nat, k: nat, j: nat|
        is_leg(quarter, legs, groups, g, k, j) implies #[trigger] butterfly_point(quarter, legs, g, k, j) < groups * size by {
        lemma_leg_offset(quarter, legs, k, j);
        assert(g * size + (j * quarter + k) < groups * size) by (nonlinear_arith)
            requires
                g + 1 <= groups,
                j * quarter + k < size,
        ;
    }
    assert forall|g: nat, k: nat, j: nat, g2: nat, k2: nat, j2: nat|
        is_leg(quarter, legs, groups, g, k, j) && is_leg(quarter, legs, groups, g2, k2, j2)
            && #[trigger] butterfly_point(quarter, legs, g, k, j) == #[trigger] butterfly_point(quarter, legs, g2, k2, j2)
            implies g == g2 && k == k2 && j == j2 by {
        lemma_leg_offset(quarter, legs, k, j);
        lemma_leg_offset(quarter, legs, k2, j2);
        let x = butterfly_point(quarter, legs, g, k, j);
        vstd::arithmetic::div_mod::lemma_fundamental_div_mod_converse(x as int, size as int, g as int, (j * quarter + k) as int);
        vstd::arithmetic::div_mod::lemma_fundamental_div_mod_converse(x as int, size as int, g2 as int, (j2 * quarter + k2) as int);
        vstd::arithmetic::div_mod::lemma_fundamental_div_mod_converse((j * quarter + k) as int, quarter as int, j as int, k as int);
        vstd::arithmetic::div_mod::lemma_fundamental_div_mod_converse((j2 * quarter + k2) as int, quarter as int, j2 as int, k2 as int);
    }
    assert forall|x: nat| x < groups * size implies is_leg(
        quarter,
        legs,
        groups,
        #[trigger] leg_group(quarter, legs, x),
        leg_index(quarter, legs, x),
        leg_number(quarter, legs, x),
    ) && butterfly_point(quarter, legs, leg_group(quarter, legs, x), leg_index(quarter, legs, x), leg_number(quarter, legs, x))
        == x by {
        vstd::arithmetic::div_mod::lemma_fundamental_div_mod(x as int, size as int);
        let g = x / size;
        let r = x % size;
        vstd::arithmetic::div_mod::lemma_fundamental_div_mod(r as int, quarter as int);
        let j = r / quarter;
        let k = r % quarter;
        assert(g < groups) by (nonlinear_arith)
            requires
                x == size * g + r,
                r >= 0,
                x < groups * size,
                size > 0,
        ;
        assert(j < legs) by (nonlinear_arith)
            requires
                r == quarter * j + k,
                k >= 0,
                r < size,
                size == legs * quarter,
                quarter > 0,
        ;
        assert(butterfly_point(quarter, legs, g, k, j) == x) by (nonlinear_arith)
            requires
                x == size * g + r,
                r == quarter * j + k,
                size == legs * quarter,
        ;
    }
}

/// Leg `j` of butterfly `k` lies inside its group.
proof fn lemma_leg_offset(quarter: nat, legs: nat, k: nat, j: nat)
    requires
        k < quarter,
        j < legs,
    ensures
        j * quarter + k < legs * quarter,
{
    assert(j * quarter + k < legs * quarter) by (nonlinear_arith)
        requires
            k < quarter,
            j + 1 <= legs,
    ;
}

/// A pass whose groups hold `2^(stage + levels)` points, over an `n`-point
/// transform with `stage + levels <= log2 n`, has `n / 2^(stage + levels)`
/// groups that hold all `n` points.
proof fn lemma_pass_groups(n: nat, stage: nat, levels: nat)
    requires
        is_pow2(n),
        stage + levels <= log2(n),
    ensures
        n == (n / exp2(stage + levels)) * exp2(stage + levels),
        exp2(stage + levels) == exp2(levels) * exp2(stage),
        exp2(stage) > 0,
{
    crate::pow2::lemma_pow2_exp2_log2(n);
    crate::pow2::lemma_exp2_add(stage + levels, (log2(n) - (stage + levels)) as nat);
    crate::pow2::lemma_exp2_add(levels, stage);
    crate::pow2::lemma_exp2_pos(stage);
    crate::pow2::lemma_exp2_pos(stage + levels);
    let size = exp2(stage + levels);
    let rest = exp2((log2(n) - (stage + levels)) as nat);
    vstd::arithmetic::div_mod::lemma_div_multiples_vanish(rest as int, size as int);
    assert(size * rest == rest * size) by (nonlinear_arith);
}

/// Each radix-4 pass of an `n`-point FFT updates every point exactly once:
/// its butterflies (group `g`, index `k < quarter`, leg `j < 4`) sit at
/// `g * group_size + j * quarter + k`, and these are the points `0..n`,
/// each reached by one leg.
pub proof fn lemma_radix4_pass_covers(plan: ComplexFftPlan, n: nat, i: int)
    requires
        complex_fft_plan_holds(plan, n),
        plan is Mixed,
        is_pow2(n),
        n <= usize::MAX,
        0 <= i < plan->Mixed_passes@.len(),
    ensures
        ({
            let pass = plan->Mixed_passes@[i];
            let q = pass.quarter as nat;
            let groups = n / (pass.group_size as nat);
            &&& pass.group_size == 4 * pass.quarter
            &&& groups * (pass.group_size as nat) == n
            &&& forall|g: nat, k: nat, j: nat| is_leg(q, 4, groups, g, k, j) ==> #[trigger] butterfly_point(q, 4, g, k, j) < n
            &&& forall|g: nat, k: nat, j: nat, g2: nat, k2: nat, j2: nat|
                is_leg(q, 4, groups, g, k, j) && is_leg(q, 4, groups, g2, k2, j2)
                    && #[trigger] butterfly_point(q, 4, g, k, j) == #[trigger] butterfly_point(q, 4, g2, k2, j2)
                    ==> g == g2 && k == k2 && j == j2
            &&& forall|x: nat|
                x < n ==> is_leg(q, 4, groups, #[trigger] leg_group(q, 4, x), leg_index(q, 4, x), leg_number(q, 4, x))
                    && butterfly_point(q, 4, leg_group(q, 4, x), leg_index(q, 4, x), leg_number(q, 4, x)) == x
        }),
{
    let stages = log2(n);
    let start: nat = if stages % 2 == 1 { 1 } else { 0 };
    let stage = (start + 2 * i) as nat;
    let pass = plan->Mixed_passes@[i];
    lemma_pass_groups(n, stage, 2);
    assert(exp2(2) == 4) by {
        reveal_with_fuel(exp2, 3);
    }
    let q = exp2(stage);
    crate::pow2::lemma_exp2_le(stage + 2, stages);
    crate::pow2::lemma_pow2_exp2_log2(n);
    lemma_butterfly_points(q, 4, n / (4 * q));
}

/// One radix-2 pass of the scalar FFT: blocks of `len` points, butterflies
/// `start + k` and `start + k + half` for `k < half`, twiddles from table
/// offset `offset`.
#[derive(Debug, Clone, Copy, PartialEq, Eq, Structural)]
pub struct Radix2Pass {
    pub len: usize,
    pub half: usize,
    pub offset: usize,
}

/// Radix-2 pass `s`: blocks of `2^(s+1)` points, twiddles of stage `s`.
pub open spec fn radix2_pass_spec(s: nat) -> Radix2Pass {
    Radix2Pass { len: exp2(s + 1) as usize, half: exp2(s) as usize, offset: (exp2(s) - 1) as usize }
}

/// The radix-2 passes of an `n`-point scalar FFT (the double-precision
/// path), from two-point blocks up.
pub fn radix2_passes(n: usize) -> (r: Vec<Radix2Pass>)
    requires
        is_pow2(n as nat),
    ensures
        r@.len() == log2(n as nat),
        forall|s: int| 0 <= s < r@.len() ==> #[trigger] r@[s] == radix2_pass_spec(s as nat),
{
    let stages = log2_of_pow2(n);
    let mut passes: Vec<Radix2Pass> = Vec::new();
    let mut s: u32 = 0;
    proof {
        crate::pow2::lemma_pow2_exp2_log2(n as nat);
    }
    while s < stages
        invariant
            s <= stages,
            exp2(stages as nat) == n,
            passes@.len() == s,
            forall|t: int| 0 <= t < passes@.len() ==> #[trigger] passes@[t] == radix2_pass_spec(t as nat),
        decreases stages - s,
    {
        proof {
            lemma_exp2_le((s + 1) as nat, stages as nat);
            crate::pow2::lemma_exp2_pos(s as nat);
        }
        let half = crate::pow2::exp2_usize(s);
        passes.push(Radix2Pass { len: half * 2, half, offset: half - 1 });
        s = s + 1;
    }
    passes
}

/// Each radix-2 pass of an `n`-point FFT updates every point exactly once:
/// butterfly `k < half` of block `g` pairs points `g * len + k` and
/// `g * len + half + k`, and these are the points `0..n`, each reached once.
pub proof fn lemma_radix2_pass_covers(n: nat, s: nat)
    requires
        is_pow2(n),
        n <= usize::MAX,
        s < log2(n),
    ensures
        ({
            let pass = radix2_pass_spec(s);
            let q = pass.half as nat;
            let blocks = n / (pass.len as nat);
            &&& pass.len == 2 * pass.half
            &&& blocks * (pass.len as nat) == n
            &&& forall|g: nat, k: nat, j: nat| is_leg(q, 2, blocks, g, k, j) ==> #[trigger] butterfly_point(q, 2, g, k, j) < n
            &&& forall|g: nat, k: nat, j: nat, g2: nat, k2: nat, j2: nat|
                is_leg(q, 2, blocks, g, k, j) && is_leg(q, 2, blocks, g2, k2, j2)
                    && #[trigger] butterfly_point(q, 2, g, k, j) == #[trigger] butterfly_point(q, 2, g2, k2, j2)
                    ==> g == g2 && k == k2 && j == j2
            &&& forall|x: nat|
                x < n ==> is_leg(q, 2, blocks, #[trigger] leg_group(q, 2, x), leg_index(q, 2, x), leg_number(q, 2, x))
                    && butterfly_point(q, 2, leg_group(q, 2, x), leg_index(q, 2, x), leg_number(q, 2, x)) == x
        }),
{
    lemma_pass_groups(n, s, 1);
    assert(exp2(1) == 2) by {
        reveal_with_fuel(exp2, 2);
    }
    let q = exp2(s);
    crate::pow2::lemma_exp2_le(s + 1, log2(n));
    crate::pow2::lemma_pow2_exp2_log2(n);
    lemma_butterfly_points(q, 2, n / (2 * q));
}

/// Offset of the first element of fiber `fiber` of a contiguous tensor
/// whose transform axis has `len` elements and is followed by axes of
/// `inner` elements in all: fibers are numbered with the inner axes
/// fastest.
pub open spec fn fiber_base_spec(fiber: nat, inner: nat, len: nat) -> nat {
    (fiber / inner) * (len * inner) + fiber % inner
}

/// Flat position of element `i` of window `w` of a contiguous tensor whose
/// transform axis has `len` elements and is followed by axes of `inner`
/// elements in all: the window's base plus `i` strides of `inner`.
pub open spec fn window_element(w: nat, i: nat, len: nat, inner: nat) -> nat {
    fiber_base_spec(w, inner, len) + i * inner
}

/// The offset of the first element of a fiber; its element `k` lies
/// `k * inner` further on.
pub fn fiber_base(fiber: usize, inner: usize, len: usize, total: usize) -> (r: usize)
    requires
        inner > 0,
        len > 0,
        total as nat % (len as nat * inner as nat) == 0,
        fiber < total as nat / len as nat,
    ensures
        r == fiber_base_spec(fiber as nat, inner as nat, len as nat),
        r + (len - 1) * inner < total,
{
    proof {
        lemma_fiber_in_range(fiber as nat, inner as nat, len as nat, total as nat, (len - 1) as nat);
    }
    (fiber / inner) * (len * inner) + fiber % inner
}

/// Element `k < len` of fiber `fiber` lies inside the tensor.
proof fn lemma_fiber_in_range(fiber: nat, inner: nat, len: nat, total: nat, k: nat)
    requires
        inner > 0,
        len > 0,
        k < len,
        total % (len * inner) == 0,
        fiber < total / len,
    ensures
        fiber_base_spec(fiber, inner, len) + k * inner < total,
        len * inner <= total || total == 0,
{
    let block = len * inner;
    assert(block > 0) by (nonlinear_arith)
        requires
            len > 0,
            inner > 0,
            block == len * inner,
    ;
    vstd::arithmetic::div_mod::lemma_fundamental_div_mod(total as int, block as int);
    vstd::arithmetic::div_mod::lemma_fundamental_div_mod(fiber as int, inner as int);
    let outers = total / block;
    let outer = fiber / inner;
    let inner_idx = fiber % inner;
    assert(total / len == outers * inner) by {
        assert(total == len * (inner * outers)) by (nonlinear_arith)
            requires
                total == block * outers,
                block == len * inner,
        ;
        vstd::arithmetic::div_mod::lemma_div_multiples_vanish((inner * outers) as int, len as int);
    }
    assert(outer < outers) by (nonlinear_arith)
        requires
            fiber == inner * outer + inner_idx,
            fiber < outers * inner,
            inner_idx >= 0,
            inner > 0,
    ;
    assert(outer * block + k * inner + inner_idx < total) by (nonlinear_arith)
        requires
            outer + 1 <= outers,
            k + 1 <= len,
            inner_idx < inner,
            block == len * inner,
            total == block * outers,
    ;
    if total > 0 {
        assert(outers >= 1) by (nonlinear_arith)
            requires
                total == block * outers,
                total > 0,
        ;
        assert(block <= total) by (nonlinear_arith)
            requires
                total == block * outers,
                outers >= 1,
        ;
    }
}

/// The fibers of a contiguous tensor partition it: element `k` of fiber
/// `f` and element `k2` of fiber `f2` share an offset only when they are
/// the same element of the same fiber.
pub proof fn lemma_fibers_disjoint(f: nat, k: nat, f2: nat, k2: nat, inner: nat, len: nat)
    requires
        inner > 0,
        k < len,
        k2 < len,
        fiber_base_spec(f, inner, len) + k * inner == fiber_base_spec(f2, inner, len) + k2 * inner,
    ensures
        f == f2,
        k == k2,
{
    let o = f / inner;
    let i = f % inner;
    let o2 = f2 / inner;
    let i2 = f2 % inner;
    vstd::arithmetic::div_mod::lemma_fundamental_div_mod(f as int, inner as int);
    vstd::arithmetic::div_mod::lemma_fundamental_div_mod(f2 as int, inner as int);
    let q = o * len + k;
    let q2 = o2 * len + k2;
    assert(o * (len * inner) + k * inner == q * inner) by (nonlinear_arith)
        requires
            q == o * len + k,
    ;
    assert(o2 * (len * inner) + k2 * inner == q2 * inner) by (nonlinear_arith)
        requires
            q2 == o2 * len + k2,
    ;
    vstd::arithmetic::div_mod::lemma_fundamental_div_mod_converse((q * inner + i) as int, inner as int, q as int, i as int);
    vstd::arithmetic::div_mod::lemma_fundamental_div_mod_converse((q2 * inner + i2) as int, inner as int, q2 as int, i2 as int);
    vstd::arithmetic::div_mod::lemma_fundamental_div_mod_converse(q as int, len as int, o as int, k as int);
    vstd::arithmetic::div_mod::lemma_fundamental_div_mod_converse(q2 as int, len as int, o2 as int, k2 as int);
}

/// Whether the checks of the CPU forward transform pass.
pub fn host_forward_accepts_check(shape: &Vec<usize>, dim: usize, n: Option<usize>) -> (r: bool)
    ensures
        r == host_forward_accepts(shape@, dim as nat, n),
{
    if dim >= shape.len() {
        return false;
    }
    let requested = match n {
        Some(v) => v,
        None => {
            if !crate::pow2::is_power_of_two(shape[dim]) {
                return false;
            }
            shape[dim]
        },
    };
    if shape[dim] == 0 {
        return false;
    }
    if checked_next_power_of_two(requested).is_none() {
        return false;
    }
    if crate::launch::checked_window_count(shape, dim).is_none() {
        return false;
    }
    tail_products_fit(shape, dim)
}

/// Whether every tail product past `dim` fits in `usize`.
fn tail_products_fit(shape: &Vec<usize>, dim: usize) -> (r: bool)
    requires
        dim < shape@.len(),
    ensures
        r == (forall|k: nat| dim < k <= shape@.len() ==> #[trigger] tail_product(shape@, k) <= usize::MAX),
{
    let mut product: usize = 1;
    let mut a = shape.len();
    while a > dim + 1
        invariant
            dim + 1 <= a <= shape@.len(),
            product == tail_product(shape@, a as nat),
            forall|k: nat| a <= k <= shape@.len() ==> #[trigger] tail_product(shape@, k) <= usize::MAX,
        decreases a,
    {
        product = match shape[a - 1].checked_mul(product) {
            Some(v) => v,
            None => {
                proof {
                    assert(tail_product(shape@, (a - 1) as nat) > usize::MAX);
                }
                return false;
            },
        };
        a = a - 1;
    }
    proof {
        assert forall|k: nat| dim < k <= shape@.len() implies #[trigger] tail_product(shape@, k) <= usize::MAX by {}
    }
    true
}

/// Whether the checks of the CPU inverse transform pass.
pub fn host_inverse_accepts_check(re: &Vec<usize>, im: &Vec<usize>, dim: usize, n: Option<usize>) -> (r: bool)
    ensures
        r == host_inverse_accepts(re@, im@, dim as nat, n),
{
    if !crate::layout::shapes_equal(re, im) || dim >= re.len() || re[dim] < 1 {
        return false;
    }
    let inferred = match (re[dim] - 1).checked_mul(2) {
        Some(v) => v,
        None => return false,
    };
    let requested = match n {
        Some(v) => v,
        None => {
            if !crate::pow2::is_power_of_two(inferred) {
                return false;
            }
            inferred
        },
    };
    if checked_next_power_of_two(requested).is_none() {
        return false;
    }
    if crate::launch::checked_window_count(re, dim).is_none() {
        return false;
    }
    tail_products_fit(re, dim)
}

/// Where the last stage of the twiddle table of an `n`-point FFT starts:
/// the factors `W_n^k` that unpack the `n/2`-point transform of a real
/// signal (`0` when there is no stage).
pub fn unpack_offset(n: usize) -> (r: usize)
    ensures
        r == (if n <= 1 { 0 } else { n / 2 - 1 }),
        is_pow2(n as nat) && n >= 2 ==> r + 1 == exp2((log2(n as nat) - 1) as nat),
{
    proof {
        if is_pow2(n as nat) && n >= 2 {
            crate::pow2::lemma_pow2_exp2_log2(n as nat);
            assert(log2(n as nat) >= 1);
            assert(exp2(log2(n as nat)) == 2 * exp2((log2(n as nat) - 1) as nat));
        }
    }
    if n <= 1 {
        0
    } else {
        n / 2 - 1
    }
}

/// The product of the first `k` axes of `shape`.
pub open spec fn prefix_product(shape: Seq<usize>, k: nat) -> nat {
    windows_below(shape, shape.len(), k)
}

/// The first `k` axes and the axes from `k` on multiply to the element
/// count.
proof fn lemma_prefix_tail(shape: Seq<usize>, k: nat)
    requires
        k <= shape.len(),
    ensures
        prefix_product(shape, k) * tail_product(shape, k) == tail_product(shape, 0),
    decreases k,
{
    if k > 0 {
        lemma_prefix_tail(shape, (k - 1) as nat);
        let a = prefix_product(shape, (k - 1) as nat);
        let x = shape[k - 1] as nat;
        let t = tail_product(shape, k);
        assert(prefix_product(shape, k) == a * x);
        assert(tail_product(shape, (k - 1) as nat) == x * t);
        assert(a * x * t == a * (x * t)) by (nonlinear_arith);
    } else {
        assert(prefix_product(shape, 0) == 1);
        assert(1 * tail_product(shape, 0) == tail_product(shape, 0)) by (nonlinear_arith);
    }
}

/// The element count of a tensor of `shape`, multiplied axis by axis from
/// the first; `None` when a partial product overflows `usize`.
pub fn checked_elements(shape: &Vec<usize>) -> (r: Option<usize>)
    ensures
        r == (if windows_fit(shape@, shape@.len()) {
            Some(tail_product(shape@, 0) as usize)
        } else {
            None
        }),
{
    proof {
        lemma_prefix_tail(shape@, shape@.len());
    }
    crate::launch::checked_window_count(shape, shape.len())
}

/// The sizes around axis `dim` of a tensor of `shape`: the product of the
/// axes before it and of the axes after it, so that the tensor is a
/// contiguous `[outer, shape[dim], inner]` block; `None` when a partial
/// product overflows `usize`.
pub fn axis_split(shape: &Vec<usize>, dim: usize) -> (r: Option<(usize, usize)>)
    requires
        dim < shape@.len(),
    ensures
        r == (if windows_fit(shape@, shape@.len()) && (forall|k: nat|
            dim < k <= shape@.len() ==> #[trigger] tail_product(shape@, k) <= usize::MAX) {
            Some((prefix_product(shape@, dim as nat) as usize, tail_product(shape@, (dim + 1) as nat) as usize))
        } else {
            None
        }),
        r matches Some((outer, inner)) ==> outer * shape@[dim as int] * inner == tail_product(shape@, 0),
{
    if crate::launch::checked_window_count(shape, shape.len()).is_none() {
        return None;
    }
    if !tail_products_fit(shape, dim) {
        return None;
    }
    let mut outer: usize = 1;
    let mut a: usize = 0;
    while a < dim
        invariant
            a <= dim < shape@.len(),
            windows_fit(shape@, shape@.len()),
            outer == prefix_product(shape@, a as nat),
        decreases dim - a,
    {
        proof {
            assert(prefix_product(shape@, (a + 1) as nat) <= usize::MAX);
        }
        outer = outer * shape[a];
        a = a + 1;
    }
    let inner = contiguous_stride(shape, dim);
    proof {
        lemma_prefix_tail(shape@, dim as nat);
        let x = shape@[dim as int] as nat;
        assert(tail_product(shape@, dim as nat) == x * tail_product(shape@, (dim + 1) as nat));
        assert(outer * (x * inner) == outer * x * inner) by (nonlinear_arith);
    }
    Some((outer, inner))
}

/// The windows along `dim` times the length of `dim` are all the elements
/// of a tensor: `windows(shape, dim) * shape[dim]` is its element count.
pub proof fn lemma_windows_elements(shape: Seq<usize>, dim: nat)
    requires
        dim < shape.len(),
    ensures
        windows(shape, dim) * (shape[dim as int] as nat) == tail_product(shape, 0),
{
    lemma_windows_prefix(shape, dim, shape.len());
    lemma_prefix_tail(shape, shape.len());
    assert(prefix_product(shape, shape.len()) * 1 == prefix_product(shape, shape.len()));
}

/// Below `dim` the windows are the plain prefix products; past it, the
/// windows times the length of `dim` are.
proof fn lemma_windows_prefix(shape: Seq<usize>, dim: nat, k: nat)
    requires
        dim < shape.len(),
        k <= shape.len(),
    ensures
        k <= dim ==> windows_below(shape, dim, k) == prefix_product(shape, k),
        k > dim ==> windows_below(shape, dim, k) * (shape[dim as int] as nat) == prefix_product(shape, k),
    decreases k,
{
    if k > 0 {
        lemma_windows_prefix(shape, dim, (k - 1) as nat);
        let w = windows_below(shape, dim, (k - 1) as nat);
        let x = shape[k - 1] as nat;
        let d = shape[dim as int] as nat;
        let pp = prefix_product(shape, (k - 1) as nat);
        assert(prefix_product(shape, k) == pp * x);
        if k - 1 == dim {
            assert(windows_below(shape, dim, k) == w);
        } else if k - 1 > dim {
            assert(windows_below(shape, dim, k) == w * x);
            assert(w * x * d == (w * d) * x) by (nonlinear_arith);
        } else {
            assert(windows_below(shape, dim, k) == w * x);
        }
    }
}

} // verus!
