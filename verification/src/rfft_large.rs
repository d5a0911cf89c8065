//! The packed-real trick for long real FFTs: an `n_fft`-point real FFT runs
//! as an `m = n_fft / 2` point complex FFT between two elementwise passes.
//!
//! Forward: `rfft_pack_kernel` packs `y[k] = x[2k] + i x[2k+1]`, a complex
//! FFT turns `y` into `Y`, and `rfft_post_kernel` recovers the half
//! spectrum `X[0..=m]` from `Y[k]` and `conj(Y[m-k])`. Inverse:
//! `irfft_pre_kernel` rebuilds `Y` from `X[k]` and `conj(X[m-k])`, a complex
//! inverse FFT gives `y`, and `irfft_unpack_kernel` writes `x[2k] = Re y[k]`,
//! `x[2k+1] = Im y[k]` scaled by `1/m`. The fused kernels do all three steps
//! for one window in shared memory.
//!
//! Each function here is the integer side of one thread: which window and
//! bin it owns, which elements it reads and writes, and which twiddle it
//! applies. Windows are stored one after another. Twiddles are named by
//! their integer angle: bin `k` of an `n_fft`-point transform turns by
//! `2 pi k / n_fft`, negative forward and positive inverse.
use vstd::prelude::*;
use crate::bits::{bit_reverse, bit_rev};
use crate::cfft::lemma_window_below;
use crate::host::{fiber_base, window_element};

verus! {

/// Which samples feed packed bin `k`: `x[2k]` and `x[2k+1]`, each only if it
/// lies below `signal_len` (zero otherwise).
#[derive(Debug, Clone, Copy, PartialEq, Eq, Structural)]
pub struct PackSource {
    pub even: Option<usize>,
    pub odd: Option<usize>,
}

pub open spec fn pack_source_spec(k: nat, signal_len: nat) -> PackSource {
    PackSource {
        even: if 2 * k < signal_len { Some((2 * k) as usize) } else { None },
        odd: if 2 * k + 1 < signal_len { Some((2 * k + 1) as usize) } else { None },
    }
}

fn pack_source(k: usize, signal_len: usize) -> (r: PackSource)
    requires
        2 * k + 1 <= usize::MAX,
    ensures
        r == pack_source_spec(k as nat, signal_len as nat),
{
    let even = 2 * k;
    let odd = even + 1;
    PackSource {
        even: if even < signal_len { Some(even) } else { None },
        odd: if odd < signal_len { Some(odd) } else { None },
    }
}

/// How a half-spectrum bin `k` of an `n_fft = 2m` transform comes from the
/// packed spectrum `Y`.
#[derive(Debug, Clone, Copy, PartialEq, Eq, Structural)]
pub enum PostKind {
    /// `X[0] = Re Y[0] + Im Y[0]`, imaginary part zero.
    Dc,
    /// `X[m] = Re Y[0] - Im Y[0]`, imaginary part zero.
    Nyquist,
    /// `X[k]` from `A = Y[k]` and `B = conj(Y[mirror])`, `mirror = m - k`,
    /// turned by the forward twiddle of bin `k`.
    Mixed { mirror: usize },
}

pub open spec fn post_kind_spec(k: nat, m: nat) -> PostKind {
    if k == 0 {
        PostKind::Dc
    } else if k == m {
        PostKind::Nyquist
    } else {
        PostKind::Mixed { mirror: (m - k) as usize }
    }
}

fn post_kind(k: usize, m: usize) -> (r: PostKind)
    requires
        k <= m,
    ensures
        r == post_kind_spec(k as nat, m as nat),
{
    if k == 0 {
        PostKind::Dc
    } else if k == m {
        PostKind::Nyquist
    } else {
        PostKind::Mixed { mirror: m - k }
    }
}

/// How packed bin `k` of the inverse comes from the half spectrum `X`, of
/// which only the first `spec_bins` bins are read (the rest are zero).
#[derive(Debug, Clone, Copy, PartialEq, Eq, Structural)]
pub enum PreKind {
    /// `Y[0] = (X[0] + X[m]) / 2 + i (X[0] - X[m]) / 2`, real parts only;
    /// `nyquist` is `Some(m)` when bin `m` is read.
    Dc { nyquist: Option<usize> },
    /// `Y[k]` from `X[k]` (if `bin` is read) and `conj(X[mirror])` (if
    /// `mirror_bin` is read), `mirror = m - k`, turned by the inverse
    /// twiddle of bin `k`.
    Mixed { bin: Option<usize>, mirror: usize, mirror_bin: Option<usize> },
}

pub open spec fn pre_kind_spec(k: nat, m: nat, spec_bins: nat) -> PreKind {
    if k == 0 {
        PreKind::Dc { nyquist: if m < spec_bins { Some(m as usize) } else { None } }
    } else {
        PreKind::Mixed {
            bin: if k < spec_bins { Some(k as usize) } else { None },
            mirror: (m - k) as usize,
            mirror_bin: if m - k < spec_bins { Some((m - k) as usize) } else { None },
        }
    }
}

fn pre_kind(k: usize, m: usize, spec_bins: usize) -> (r: PreKind)
    requires
        k < m,
    ensures
        r == pre_kind_spec(k as nat, m as nat, spec_bins as nat),
{
    if k == 0 {
        PreKind::Dc { nyquist: if m < spec_bins { Some(m) } else { None } }
    } else {
        let mirror = m - k;
        PreKind::Mixed {
            bin: if k < spec_bins { Some(k) } else { None },
            mirror,
            mirror_bin: if mirror < spec_bins { Some(mirror) } else { None },
        }
    }
}

/// One thread of the forward pack over `total = windows * m` packed bins:
/// thread `pos` owns packed bin `k = pos % m` of window `w = pos / m` and
/// writes `x[2k]` and `x[2k+1]` of that window of the signal (or `zero` for
/// samples at or past `signal_len`). Windows run along an axis of
/// contiguous tensors whose trailing axes hold `inner` elements: element
/// `i` of window `w` lies at the window's base plus `i * inner`; the
/// signal has `signal_row` elements along the axis, the packed buffers `m`.
/// Threads at or past `total` do nothing.
pub fn rfft_pack_kernel<T: Copy>(
    signal: &[T],
    signal_row: usize,
    packed_re: &mut [T],
    packed_im: &mut [T],
    zero: T,
    total: usize,
    pos: usize,
    signal_len: usize,
    m: usize,
    inner: usize,
)
    requires
        m > 0,
        inner > 0,
        2 * m <= usize::MAX,
        signal_len <= signal_row,
        (total as nat) % (m as nat * inner as nat) == 0,
        (total as nat / m as nat) * signal_row <= signal@.len(),
        total <= old(packed_re)@.len(),
        total <= old(packed_im)@.len(),
    ensures
        ({
            let w = pos as nat / m as nat;
            let k = pos as nat % m as nat;
            let out = window_element(w, k, m as nat, inner as nat);
            &&& final(packed_re)@ == (if pos >= total {
                old(packed_re)@
            } else {
                old(packed_re)@.update(
                    out as int,
                    if 2 * k < signal_len {
                        signal@[window_element(w, 2 * k, signal_row as nat, inner as nat) as int]
                    } else {
                        zero
                    },
                )
            })
            &&& final(packed_im)@ == (if pos >= total {
                old(packed_im)@
            } else {
                old(packed_im)@.update(
                    out as int,
                    if 2 * k + 1 < signal_len {
                        signal@[window_element(w, 2 * k + 1, signal_row as nat, inner as nat) as int]
                    } else {
                        zero
                    },
                )
            })
            &&& pos < total ==> out < total
        }),
{
    if pos >= total {
        return;
    }
    let k = pos % m;
    let window = pos / m;
    let available = signal.len();
    proof {
        lemma_window_below(pos as nat, m as nat, inner as nat, total as nat);
        assert(k * inner <= (m - 1) * inner) by (nonlinear_arith)
            requires
                k < m,
        ;
    }
    let out = fiber_base(window, inner, m, total) + k * inner;
    let even = 2 * k;
    let odd = even + 1;
    if signal_len == 0 {
        packed_re[out] = zero;
        packed_im[out] = zero;
        return;
    }
    let windows = total / m;
    proof {
        assert(available == signal@.len());
        lemma_signal_windows(total as nat, m as nat, inner as nat, signal_row as nat);
    }
    let signal_total = windows * signal_row;
    let sig_base = fiber_base(window, inner, signal_row, signal_total);
    if even < signal_len {
        proof {
            assert(even * inner <= (signal_row - 1) * inner) by (nonlinear_arith)
                requires
                    even + 1 <= signal_row,
            ;
        }
        packed_re[out] = signal[sig_base + even * inner];
    } else {
        packed_re[out] = zero;
    }
    if odd < signal_len {
        proof {
            assert(odd * inner <= (signal_row - 1) * inner) by (nonlinear_arith)
                requires
                    odd + 1 <= signal_row,
            ;
        }
        packed_im[out] = signal[sig_base + odd * inner];
    } else {
        packed_im[out] = zero;
    }
}

/// The signal's windows have the same layout as the packed ones: the
/// signal holds `total / m` windows of `signal_row` elements, a whole
/// number of blocks of `signal_row * inner`.
proof fn lemma_signal_windows(total: nat, m: nat, inner: nat, signal_row: nat)
    requires
        m > 0,
        inner > 0,
        signal_row > 0,
        total % (m * inner) == 0,
    ensures
        ((total / m) * signal_row) % (signal_row * inner) == 0,
        ((total / m) * signal_row) / signal_row == total / m,
{
    let q = total / (m * inner);
    assert(m * inner > 0) by (nonlinear_arith)
        requires
            m > 0,
            inner > 0,
    ;
    vstd::arithmetic::div_mod::lemma_fundamental_div_mod(total as int, (m * inner) as int);
    assert(total == m * (inner * q)) by (nonlinear_arith)
        requires
            total == (m * inner) * q + total % (m * inner),
            total % (m * inner) == 0,
    ;
    vstd::arithmetic::div_mod::lemma_div_multiples_vanish((inner * q) as int, m as int);
    assert(total / m == inner * q);
    assert((inner * q) * signal_row == q * (signal_row * inner)) by (nonlinear_arith);
    assert(signal_row * inner > 0) by (nonlinear_arith)
        requires
            signal_row > 0,
            inner > 0,
    ;
    vstd::arithmetic::div_mod::lemma_mod_multiples_basic(q as int, (signal_row * inner) as int);
    vstd::arithmetic::div_mod::lemma_div_by_multiple((total / m) as int, signal_row as int);
}

/// The work of one thread of the forward post pass.
#[derive(Debug, Clone, Copy, PartialEq, Eq, Structural)]
pub struct PostTask {
    pub window: usize,
    pub k: usize,
    pub kind: PostKind,
}

/// One thread of the forward post pass over `total = windows * (m + 1)`
/// half-spectrum bins: position `pos` owns bin `pos % (m + 1)` of window
/// `pos / (m + 1)`.
pub fn rfft_post_kernel(pos: usize, total: usize, m: usize) -> (r: Option<PostTask>)
    requires
        m > 0,
        m < usize::MAX,
    ensures
        r == (if pos >= total {
            None
        } else {
            Some(PostTask {
                window: (pos as nat / (m as nat + 1)) as usize,
                k: (pos as nat % (m as nat + 1)) as usize,
                kind: post_kind_spec(pos as nat % (m as nat + 1), m as nat),
            })
        }),
        r matches Some(t) ==> t.window * (m + 1) + t.k == pos && t.k <= m,
{
    if pos >= total {
        return None;
    }
    proof {
        let w: int = m + 1;
        vstd::arithmetic::div_mod::lemma_fundamental_div_mod(pos as int, w);
        assert((pos as int / w) * w == w * (pos as int / w)) by (nonlinear_arith);
    }
    let n_freq = m + 1;
    let k = pos % n_freq;
    let window = pos / n_freq;
    Some(PostTask { window, k, kind: post_kind(k, m) })
}

/// The work of one thread of the inverse pre pass.
#[derive(Debug, Clone, Copy, PartialEq, Eq, Structural)]
pub struct PreTask {
    pub window: usize,
    pub k: usize,
    pub kind: PreKind,
}

/// One thread of the inverse pre pass over `total = windows * m` packed
/// bins, reading the first `spec_bins` spectrum bins: position `pos` owns
/// packed bin `pos % m` of window `pos / m`.
pub fn irfft_pre_kernel(pos: usize, total: usize, spec_bins: usize, m: usize) -> (r: Option<PreTask>)
    requires
        m > 0,
    ensures
        r == (if pos >= total {
            None
        } else {
            Some(PreTask {
                window: (pos as nat / m as nat) as usize,
                k: (pos as nat % m as nat) as usize,
                kind: pre_kind_spec(pos as nat % m as nat, m as nat, spec_bins as nat),
            })
        }),
        r matches Some(t) ==> t.window * m + t.k == pos && t.k < m,
{
    if pos >= total {
        return None;
    }
    proof {
        vstd::arithmetic::div_mod::lemma_fundamental_div_mod(pos as int, m as int);
        assert((pos / m) * m == m * (pos / m)) by (nonlinear_arith);
    }
    let k = pos % m;
    let window = pos / m;
    Some(PreTask { window, k, kind: pre_kind(k, m, spec_bins) })
}

/// The work of one thread of the inverse unpack: packed bin `k` of `window`
/// becomes samples `even = 2k` and `odd = 2k + 1`, each scaled by `1/m`.
#[derive(Debug, Clone, Copy, PartialEq, Eq, Structural)]
pub struct UnpackTask {
    pub window: usize,
    pub k: usize,
    pub even: usize,
    pub odd: usize,
}

/// One thread of the inverse unpack over `total = windows * m` packed bins.
pub fn irfft_unpack_kernel(pos: usize, total: usize, m: usize) -> (r: Option<UnpackTask>)
    requires
        m > 0,
        2 * m <= usize::MAX,
    ensures
        r == (if pos >= total {
            None
        } else {
            Some(UnpackTask {
                window: (pos as nat / m as nat) as usize,
                k: (pos as nat % m as nat) as usize,
                even: (2 * (pos as nat % m as nat)) as usize,
                odd: (2 * (pos as nat % m as nat) + 1) as usize,
            })
        }),
        r matches Some(t) ==> t.window * m + t.k == pos && t.k < m,
        r matches Some(t) ==> t.even == 2 * t.k && t.odd == t.even + 1 && t.odd < 2 * m,
{
    if pos >= total {
        return None;
    }
    proof {
        vstd::arithmetic::div_mod::lemma_fundamental_div_mod(pos as int, m as int);
        assert((pos / m) * m == m * (pos / m)) by (nonlinear_arith);
    }
    let k = pos % m;
    let window = pos / m;
    Some(UnpackTask { window, k, even: 2 * k, odd: 2 * k + 1 })
}

/// How many of `unit, unit + threads, unit + 2 threads, ...` lie below
/// `bound`: the indices one unit of a block visits.
pub open spec fn strided_count(unit: nat, threads: nat, bound: nat) -> nat {
    if unit < bound {
        ((bound - unit - 1) as nat / threads + 1) as nat
    } else {
        0
    }
}

/// A load of the fused forward kernel: packed bin `k` into shared slot
/// `dst`, its bit reversal, from the given samples.
#[derive(Debug, Clone, Copy, PartialEq, Eq, Structural)]
pub struct FusedLoad {
    pub k: usize,
    pub dst: usize,
    pub source: PackSource,
}

/// What one unit of the fused forward kernel does for its window: the packed
/// bins it loads (at bit-reversed slots), and, after the shared-memory FFT,
/// the half-spectrum bins it writes.
pub struct FusedForwardTask {
    pub loads: Vec<FusedLoad>,
    pub stores: Vec<(usize, PostKind)>,
}

/// Unit `unit` of `threads` of the fused forward kernel for `window`; units
/// of windows at or past `num_windows` do nothing.
pub fn rfft_fused_kernel(
    window: usize,
    num_windows: usize,
    unit: usize,
    threads: usize,
    m: usize,
    log2_m: u32,
    signal_len: usize,
) -> (r: Option<FusedForwardTask>)
    requires
        threads > 0,
        m > 0,
        2 * m + threads <= usize::MAX,
        log2_m <= usize::BITS,
    ensures
        window >= num_windows ==> r is None,
        window < num_windows ==> r is Some && {
            let t = r->Some_0;
            &&& t.loads@.len() == strided_count(unit as nat, threads as nat, m as nat)
            &&& forall|j: int| 0 <= j < t.loads@.len() ==> {
                let k = unit + j * threads;
                #[trigger] t.loads@[j] == FusedLoad {
                    k: k as usize,
                    dst: bit_rev(k as nat, log2_m as nat) as usize,
                    source: pack_source_spec(k as nat, signal_len as nat),
                }
            }
            &&& t.stores@.len() == strided_count(unit as nat, threads as nat, m as nat + 1)
            &&& forall|j: int| 0 <= j < t.stores@.len() ==> {
                let k = unit + j * threads;
                #[trigger] t.stores@[j] == (k as usize, post_kind_spec(k as nat, m as nat))
            }
        },
{
    if window >= num_windows {
        return None;
    }
    let mut loads: Vec<FusedLoad> = Vec::new();
    let mut k = unit;
    while k < m
        invariant
            threads > 0,
            m > 0,
            2 * m + threads <= usize::MAX,
            log2_m <= usize::BITS,
            k == unit + loads@.len() * threads,
            k < m ==> loads@.len() < strided_count(unit as nat, threads as nat, m as nat),
            k >= m ==> loads@.len() == strided_count(unit as nat, threads as nat, m as nat),
            forall|j: int| 0 <= j < loads@.len() ==> {
                let kk = unit + j * threads;
                #[trigger] loads@[j] == FusedLoad {
                    k: kk as usize,
                    dst: bit_rev(kk as nat, log2_m as nat) as usize,
                    source: pack_source_spec(kk as nat, signal_len as nat),
                }
            },
        decreases m + threads - k,
    {
        let dst = bit_reverse(k, log2_m);
        let source = pack_source(k, signal_len);
        loads.push(FusedLoad { k, dst, source });
        proof {
            lemma_strided_step(unit as nat, threads as nat, m as nat, (loads@.len() - 1) as nat);
            lemma_step_mul(unit as nat, threads as nat, (loads@.len() - 1) as nat);
        }
        k = k + threads;
    }
    let mut stores: Vec<(usize, PostKind)> = Vec::new();
    let mut k = unit;
    while k < m + 1
        invariant
            threads > 0,
            m > 0,
            2 * m + threads <= usize::MAX,
            k == unit + stores@.len() * threads,
            k < m + 1 ==> stores@.len() < strided_count(unit as nat, threads as nat, m as nat + 1),
            k >= m + 1 ==> stores@.len() == strided_count(unit as nat, threads as nat, m as nat + 1),
            forall|j: int| 0 <= j < stores@.len() ==> {
                let kk = unit + j * threads;
                #[trigger] stores@[j] == (kk as usize, post_kind_spec(kk as nat, m as nat))
            },
        decreases m + 1 + threads - k,
    {
        stores.push((k, post_kind(k, m)));
        proof {
            lemma_strided_step(unit as nat, threads as nat, m as nat + 1, (stores@.len() - 1) as nat);
            lemma_step_mul(unit as nat, threads as nat, (stores@.len() - 1) as nat);
        }
        k = k + threads;
    }
    Some(FusedForwardTask { loads, stores })
}

/// Visiting index `unit + j * threads` below `bound`, the next one stays
/// below `bound` exactly while fewer than `strided_count` were visited.
pub proof fn lemma_strided_step(unit: nat, threads: nat, bound: nat, j: nat)
    requires
        threads > 0,
        unit + j * threads < bound,
    ensures
        j < strided_count(unit, threads, bound),
        unit + (j + 1) * threads < bound ==> j + 1 < strided_count(unit, threads, bound),
        unit + (j + 1) * threads >= bound ==> j + 1 == strided_count(unit, threads, bound),
{
    let d = (bound - unit - 1) as nat;
    assert(j <= d / threads) by {
        vstd::arithmetic::div_mod::lemma_div_is_ordered((j * threads) as int, d as int, threads as int);
        vstd::arithmetic::div_mod::lemma_div_multiples_vanish(j as int, threads as int);
        assert(j * threads == threads * j) by (nonlinear_arith);
    }
    vstd::arithmetic::div_mod::lemma_fundamental_div_mod(d as int, threads as int);
    let q = d / threads;
    if unit + (j + 1) * threads < bound {
        vstd::arithmetic::div_mod::lemma_div_is_ordered(((j + 1) * threads) as int, d as int, threads as int);
        vstd::arithmetic::div_mod::lemma_div_multiples_vanish((j + 1) as int, threads as int);
        assert((j + 1) * threads == threads * (j + 1)) by (nonlinear_arith);
    } else {
        assert(q < j + 1) by (nonlinear_arith)
            requires
                d == threads * q + d % threads,
                d % threads >= 0,
                d < (j + 1) * threads,
                threads > 0,
        ;
    }
}

pub proof fn lemma_step_mul(unit: nat, threads: nat, j: nat)
    ensures
        unit + (j + 1) * threads == unit + j * threads + threads,
{
    assert((j + 1) * threads == j * threads + threads) by (nonlinear_arith);
}

/// A load of the fused inverse kernel: packed bin `k`, built as `kind`
/// says, into shared slot `dst`.
#[derive(Debug, Clone, Copy, PartialEq, Eq, Structural)]
pub struct FusedPreLoad {
    pub k: usize,
    pub dst: usize,
    pub kind: PreKind,
}

/// What one unit of the fused inverse kernel does for its window: the packed
/// bins it builds (at bit-reversed slots), and, after the shared-memory
/// inverse FFT, the sample pairs `2k, 2k + 1` it writes, scaled by `1/m`.
pub struct FusedInverseTask {
    pub loads: Vec<FusedPreLoad>,
    pub stores: Vec<usize>,
}

/// Unit `unit` of `threads` of the fused inverse kernel for `window`,
/// reading the first `spec_bins` bins; units of windows at or past
/// `num_windows` do nothing.
pub fn irfft_fused_kernel(
    window: usize,
    num_windows: usize,
    unit: usize,
    threads: usize,
    m: usize,
    log2_m: u32,
    spec_bins: usize,
) -> (r: Option<FusedInverseTask>)
    requires
        threads > 0,
        m > 0,
        2 * m + threads <= usize::MAX,
        log2_m <= usize::BITS,
    ensures
        window >= num_windows ==> r is None,
        window < num_windows ==> r is Some && {
            let t = r->Some_0;
            &&& t.loads@.len() == strided_count(unit as nat, threads as nat, m as nat)
            &&& forall|j: int| 0 <= j < t.loads@.len() ==> {
                let k = unit + j * threads;
                #[trigger] t.loads@[j] == FusedPreLoad {
                    k: k as usize,
                    dst: bit_rev(k as nat, log2_m as nat) as usize,
                    kind: pre_kind_spec(k as nat, m as nat, spec_bins as nat),
                }
            }
            &&& t.stores@.len() == strided_count(unit as nat, threads as nat, m as nat)
            &&& forall|j: int| 0 <= j < t.stores@.len() ==> #[trigger] t.stores@[j] == unit + j * threads
        },
{
    if window >= num_windows {
        return None;
    }
    let mut loads: Vec<FusedPreLoad> = Vec::new();
    let mut k = unit;
    while k < m
        invariant
            threads > 0,
            m > 0,
            2 * m + threads <= usize::MAX,
            log2_m <= usize::BITS,
            k == unit + loads@.len() * threads,
            k < m ==> loads@.len() < strided_count(unit as nat, threads as nat, m as nat),
            k >= m ==> loads@.len() == strided_count(unit as nat, threads as nat, m as nat),
            forall|j: int| 0 <= j < loads@.len() ==> {
                let kk = unit + j * threads;
                #[trigger] loads@[j] == FusedPreLoad {
                    k: kk as usize,
                    dst: bit_rev(kk as nat, log2_m as nat) as usize,
                    kind: pre_kind_spec(kk as nat, m as nat, spec_bins as nat),
                }
            },
        decreases m + threads - k,
    {
        let dst = bit_reverse(k, log2_m);
        loads.push(FusedPreLoad { k, dst, kind: pre_kind(k, m, spec_bins) });
        proof {
            lemma_strided_step(unit as nat, threads as nat, m as nat, (loads@.len() - 1) as nat);
            lemma_step_mul(unit as nat, threads as nat, (loads@.len() - 1) as nat);
        }
        k = k + threads;
    }
    let mut stores: Vec<usize> = Vec::new();
    let mut k = unit;
    while k < m
        invariant
            threads > 0,
            m > 0,
            2 * m + threads <= usize::MAX,
            k == unit + stores@.len() * threads,
            k < m ==> stores@.len() < strided_count(unit as nat, threads as nat, m as nat),
            k >= m ==> stores@.len() == strided_count(unit as nat, threads as nat, m as nat),
            forall|j: int| 0 <= j < stores@.len() ==> #[trigger] stores@[j] == unit + j * threads,
        decreases m + threads - k,
    {
        stores.push(k);
        proof {
            lemma_strided_step(unit as nat, threads as nat, m as nat, (stores@.len() - 1) as nat);
            lemma_step_mul(unit as nat, threads as nat, (stores@.len() - 1) as nat);
        }
        k = k + threads;
    }
    Some(FusedInverseTask { loads, stores })
}

/// The units of a block visit every index below `bound` exactly once:
/// index `k` is the `k / threads`-th visit of unit `k % threads`, and no
/// other unit or visit reaches it.
pub proof fn lemma_strided_cover(k: nat, threads: nat, bound: nat)
    requires
        threads > 0,
        k < bound,
    ensures
        k % threads < threads,
        k / threads < strided_count(k % threads, threads, bound),
        (k % threads) + (k / threads) * threads == k,
        forall|u: nat, j: nat|
            u < threads && #[trigger] (u + j * threads) == k ==> u == k % threads && j == k / threads,
{
    vstd::arithmetic::div_mod::lemma_fundamental_div_mod(k as int, threads as int);
    assert((k / threads) * threads == threads * (k / threads)) by (nonlinear_arith);
    lemma_strided_step(k % threads, threads, bound, k / threads);
    assert forall|u: nat, j: nat| u < threads && #[trigger] (u + j * threads) == k implies u == k % threads
        && j == k / threads by {
        vstd::arithmetic::div_mod::lemma_fundamental_div_mod_converse(k as int, threads as int, j as int, u as int);
    }
}

/// Bins `k` and `m - k` of the half spectrum are each other's mirror in the
/// forward post pass.
pub proof fn lemma_post_mirror(k: nat, m: nat)
    requires
        0 < k < m,
        m <= usize::MAX,
    ensures
        post_kind_spec(k, m) == (PostKind::Mixed { mirror: (m - k) as usize }),
        post_kind_spec((m - k) as nat, m) == (PostKind::Mixed { mirror: k as usize }),
{
}

/// Packed bins `k` and `m - k` are each other's mirror in the inverse pre
/// pass, and each reads a bin exactly when that bin is below `spec_bins`.
pub proof fn lemma_pre_mirror(k: nat, m: nat, spec_bins: nat)
    requires
        0 < k < m,
        m <= usize::MAX,
    ensures
        pre_kind_spec(k, m, spec_bins)->Mixed_mirror == m - k,
        pre_kind_spec((m - k) as nat, m, spec_bins)->Mixed_mirror == k,
        pre_kind_spec(k, m, spec_bins)->Mixed_bin == pre_kind_spec((m - k) as nat, m, spec_bins)->Mixed_mirror_bin,
        pre_kind_spec(k, m, spec_bins)->Mixed_mirror_bin == pre_kind_spec((m - k) as nat, m, spec_bins)->Mixed_bin,
{
}

/// The value a packed load takes from a window of `signal` whose sample
/// `t` lies at `base + t * stride`: the sample it names, or `zero` when it
/// names none.
pub open spec fn loaded_value<T>(signal: Seq<T>, base: int, stride: int, sample: Option<usize>, zero: T) -> T {
    match sample {
        Some(i) => signal[base + i * stride],
        None => zero,
    }
}

/// Samples at or past `signal_len` never enter the forward transform: the
/// packed loads (of the fused and of the pack kernel) name only samples
/// below `signal_len`, so two signals that agree on the first `signal_len`
/// samples of a window (sample `t` at `base + t * stride`, windows along
/// any axis) load the same packed values, whatever the rest holds, NaN or
/// infinity included.
pub proof fn lemma_packed_loads_ignore_tail<T>(
    a: Seq<T>,
    b: Seq<T>,
    base: int,
    stride: int,
    signal_len: nat,
    zero: T,
    k: nat,
)
    requires
        signal_len <= usize::MAX,
        forall|t: int| 0 <= t < signal_len ==> #[trigger] a[base + t * stride] == b[base + t * stride],
    ensures
        ({
            let src = pack_source_spec(k, signal_len);
            &&& src.even matches Some(i) ==> i < signal_len
            &&& src.odd matches Some(i) ==> i < signal_len
            &&& loaded_value(a, base, stride, src.even, zero) == loaded_value(b, base, stride, src.even, zero)
            &&& loaded_value(a, base, stride, src.odd, zero) == loaded_value(b, base, stride, src.odd, zero)
        }),
{
    if 2 * k < signal_len {
        assert(a[base + (2 * k) * stride] == b[base + (2 * k) * stride]);
    }
    if 2 * k + 1 < signal_len {
        assert(a[base + (2 * k + 1) * stride] == b[base + (2 * k + 1) * stride]);
    }
}

/// The inverse pre pass reads exactly the bins it was told to: packed bin
/// `k` of `m` pairs half-spectrum bin `k` with its mirror `m - k`; a bin
/// is named exactly when it is below `spec_bins` (the others count as
/// zero), so no task reads past the given bins, and the Nyquist bin `m`
/// enters the DC task only when `m < spec_bins`.
pub proof fn lemma_pre_reads_given_bins(k: nat, m: nat, spec_bins: nat)
    requires
        k < m <= usize::MAX,
    ensures
        (pre_kind_spec(k, m, spec_bins) is Dc) <==> k == 0,
        pre_kind_spec(k, m, spec_bins) matches PreKind::Dc { nyquist } ==> {
            &&& nyquist matches Some(b) ==> b == m && b < spec_bins
            &&& m < spec_bins ==> nyquist is Some
        },
        pre_kind_spec(k, m, spec_bins) matches PreKind::Mixed { bin, mirror, mirror_bin } ==> {
            &&& mirror + k == m
            &&& bin matches Some(b) ==> b == k && b < spec_bins
            &&& k < spec_bins ==> bin is Some
            &&& mirror_bin matches Some(b) ==> b == m - k && b < spec_bins
            &&& m - k < spec_bins ==> mirror_bin is Some
        },
{
}

/// The forward post pass: bin `k <= m` of the half spectrum is DC exactly
/// at `k == 0`, Nyquist exactly at `k == m`, and otherwise pairs packed bin
/// `k` with its mirror `m - k`, both strictly inside `(0, m)`.
pub proof fn lemma_post_kinds(k: nat, m: nat)
    requires
        0 < m <= usize::MAX,
        k <= m,
    ensures
        (post_kind_spec(k, m) == PostKind::Dc) <==> k == 0,
        (post_kind_spec(k, m) == PostKind::Nyquist) <==> k == m,
        post_kind_spec(k, m) matches PostKind::Mixed { mirror } ==> mirror + k == m && 0 < mirror < m && 0 < k < m,
{
}

/// The pack reads samples `2k` and `2k + 1` of its window, each exactly
/// when it lies below `signal_len`.
pub proof fn lemma_pack_sources(k: nat, signal_len: nat)
    requires
        signal_len <= usize::MAX,
    ensures
        pack_source_spec(k, signal_len).even matches Some(i) ==> i == 2 * k && i < signal_len,
        2 * k < signal_len ==> pack_source_spec(k, signal_len).even is Some,
        pack_source_spec(k, signal_len).odd matches Some(i) ==> i == 2 * k + 1 && i < signal_len,
        2 * k + 1 < signal_len ==> pack_source_spec(k, signal_len).odd is Some,
{
}

} // verus!
