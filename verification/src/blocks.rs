//! The index work of the shared-memory FFT kernels: a block transforms one
//! window (or one column or row of a four-step window); each of its
//! `threads` units visits the indices `unit, unit + threads, ...` below the
//! transform length, loading each into its bit-reversed shared slot, and
//! after the in-place butterflies writes the bins it visits.
use vstd::prelude::*;
use crate::bits::{bit_reverse, bit_rev};
use crate::chirp::ImagRead;
use crate::rfft_large::{strided_count, lemma_strided_step, lemma_step_mul};

verus! {

/// The indices that unit `unit` of `threads` visits below `bound`.
pub open spec fn strided_seq(unit: nat, threads: nat, bound: nat) -> Seq<usize> {
    Seq::new(strided_count(unit, threads, bound), |j: int| (unit + j * threads) as usize)
}

/// The indices that unit `unit` of `threads` visits below `bound`.
pub fn strided_indices(unit: usize, threads: usize, bound: usize) -> (r: Vec<usize>)
    requires
        threads > 0,
        bound + threads <= usize::MAX,
    ensures
        r@ == strided_seq(unit as nat, threads as nat, bound as nat),
{
    let mut out: Vec<usize> = Vec::new();
    let mut k = unit;
    proof {
        assert(out@.len() == 0);
    }
    while k < bound
        invariant
            threads > 0,
            bound + threads <= usize::MAX,
            k == unit + out@.len() * threads,
            k < bound ==> out@.len() < strided_count(unit as nat, threads as nat, bound as nat),
            k >= bound ==> out@.len() == strided_count(unit as nat, threads as nat, bound as nat),
            forall|j: int| 0 <= j < out@.len() ==> #[trigger] out@[j] == unit + j * threads,
        decreases bound + threads - k,
    {
        out.push(k);
        proof {
            lemma_strided_step(unit as nat, threads as nat, bound as nat, (out@.len() - 1) as nat);
            lemma_step_mul(unit as nat, threads as nat, (out@.len() - 1) as nat);
        }
        k = k + threads;
    }
    out
}

/// The `j`-th visit of a unit lies below the bound.
pub proof fn lemma_strided_below(unit: nat, threads: nat, bound: nat, j: nat)
    requires
        threads > 0,
        j < strided_count(unit, threads, bound),
    ensures
        unit + j * threads < bound,
{
    let d = (bound - unit - 1) as nat;
    vstd::arithmetic::div_mod::lemma_fundamental_div_mod(d as int, threads as int);
    assert(j * threads <= (d / threads) * threads) by (nonlinear_arith)
        requires
            j <= d / threads,
    ;
}

/// A load into shared memory: element `src` of the window goes to slot
/// `dst`, the bit reversal of the index it loads.
#[derive(Debug, Clone, Copy, PartialEq, Eq, Structural)]
pub struct SlotLoad {
    pub src: usize,
    pub dst: usize,
}

/// The loads of a unit that reads index `i` from `base + i * step` into
/// slot `bit_rev(i)`.
pub open spec fn slot_loads_spec(unit: nat, threads: nat, bound: nat, log2: nat, base: nat, step: nat) -> Seq<SlotLoad> {
    strided_seq(unit, threads, bound).map_values(
        |i: usize| SlotLoad { src: (base + i * step) as usize, dst: bit_rev(i as nat, log2) as usize },
    )
}

fn slot_loads(unit: usize, threads: usize, bound: usize, log2: u32, base: usize, step: usize) -> (r: Vec<SlotLoad>)
    requires
        threads > 0,
        bound + threads <= usize::MAX,
        log2 <= usize::BITS,
        bound == 0 || base + (bound - 1) * step <= usize::MAX,
    ensures
        r@ == slot_loads_spec(unit as nat, threads as nat, bound as nat, log2 as nat, base as nat, step as nat),
{
    let idx = strided_indices(unit, threads, bound);
    let mut out: Vec<SlotLoad> = Vec::new();
    let mut j: usize = 0;
    while j < idx.len()
        invariant
            j <= idx@.len(),
            idx@ == strided_seq(unit as nat, threads as nat, bound as nat),
            threads > 0,
            log2 <= usize::BITS,
            bound == 0 || base + (bound - 1) * step <= usize::MAX,
            out@ =~= slot_loads_spec(unit as nat, threads as nat, bound as nat, log2 as nat, base as nat, step as nat)
                .subrange(0, j as int),
        decreases idx@.len() - j,
    {
        let i = idx[j];
        proof {
            lemma_strided_below(unit as nat, threads as nat, bound as nat, j as nat);
            assert(base + i * step <= base + (bound - 1) * step) by (nonlinear_arith)
                requires
                    i <= bound - 1,
            ;
        }
        out.push(SlotLoad { src: base + i * step, dst: bit_reverse(i, log2) });
        j = j + 1;
    }
    out
}

/// What one unit of a shared-memory complex FFT block does: its loads into
/// bit-reversed slots, and the bins it writes back after the butterflies.
pub struct BlockTask {
    pub window: usize,
    pub loads: Vec<SlotLoad>,
    pub stores: Vec<usize>,
}

/// Unit `unit` of `threads` of the shared-memory complex FFT of `window`:
/// it loads elements `unit, unit + threads, ...` of the window into their
/// bit-reversed slots and writes the same bins back. Blocks at or past
/// `num_windows` do nothing.
pub fn cfft_shared_kernel(
    window: usize,
    num_windows: usize,
    unit: usize,
    threads: usize,
    n_fft: usize,
    log2_n: u32,
) -> (r: Option<BlockTask>)
    requires
        threads > 0,
        n_fft + threads <= usize::MAX,
        log2_n <= usize::BITS,
    ensures
        window >= num_windows ==> r is None,
        window < num_windows ==> (r matches Some(t) && t.window == window
            && t.loads@ == slot_loads_spec(unit as nat, threads as nat, n_fft as nat, log2_n as nat, 0, 1)
            && t.stores@ == strided_seq(unit as nat, threads as nat, n_fft as nat)),
{
    if window >= num_windows {
        return None;
    }
    Some(BlockTask {
        window,
        loads: slot_loads(unit, threads, n_fft, log2_n, 0, 1),
        stores: strided_indices(unit, threads, n_fft),
    })
}

/// What one unit of the first four-step pass does: the `n1`-point FFT of
/// column `column` of window `window`, whose element `i` lies at flat
/// index `i * n2 + column`; output `k1` goes back to flat `k1 * n2 +
/// column`, turned by twiddle `k1 * column` of the `n1 * n2`-point
/// transform.
pub struct ColumnTask {
    pub window: usize,
    pub column: usize,
    pub loads: Vec<SlotLoad>,
    pub stores: Vec<usize>,
}

/// Unit `unit` of `threads` of block `block` of the first four-step pass,
/// over `num_blocks = windows * n2` blocks.
pub fn cfft_four_step_radix1_kernel(
    block: usize,
    num_blocks: usize,
    unit: usize,
    threads: usize,
    n1: usize,
    n2: usize,
    log2_n1: u32,
) -> (r: Option<ColumnTask>)
    requires
        threads > 0,
        n1 > 0,
        n2 > 0,
        n1 + threads <= usize::MAX,
        n1 * n2 <= usize::MAX,
        log2_n1 <= usize::BITS,
    ensures
        block >= num_blocks ==> r is None,
        block < num_blocks ==> (r matches Some(t) && t.window == block / n2 && t.column == block % n2
            && t.loads@ == slot_loads_spec(unit as nat, threads as nat, n1 as nat, log2_n1 as nat, (block % n2) as nat, n2 as nat)
            && t.stores@ == strided_seq(unit as nat, threads as nat, n1 as nat)),
{
    if block >= num_blocks {
        return None;
    }
    let window = block / n2;
    proof {
        vstd::arithmetic::div_mod::lemma_fundamental_div_mod(block as int, n2 as int);
        assert(window * n2 == n2 * window) by (nonlinear_arith);
    }
    let column = block - window * n2;
    proof {
        assert(column + (n1 - 1) * n2 <= n1 * n2) by (nonlinear_arith)
            requires
                column < n2,
                n1 >= 1,
        ;
    }
    Some(ColumnTask {
        window,
        column,
        loads: slot_loads(unit, threads, n1, log2_n1, column, n2),
        stores: strided_indices(unit, threads, n1),
    })
}

/// What one unit of the second four-step pass does: the `n2`-point FFT of
/// row `row` of window `window`, in place at flat indices `row * n2 + i`.
pub struct RowTask {
    pub window: usize,
    pub row: usize,
    pub loads: Vec<SlotLoad>,
    pub stores: Vec<usize>,
}

/// Unit `unit` of `threads` of block `block` of the second four-step pass,
/// over `num_blocks = windows * n1` blocks.
pub fn cfft_four_step_radix2_kernel(
    block: usize,
    num_blocks: usize,
    unit: usize,
    threads: usize,
    n1: usize,
    n2: usize,
    log2_n2: u32,
) -> (r: Option<RowTask>)
    requires
        threads > 0,
        n1 > 0,
        n2 > 0,
        n2 + threads <= usize::MAX,
        n1 * n2 <= usize::MAX,
        log2_n2 <= usize::BITS,
    ensures
        block >= num_blocks ==> r is None,
        block < num_blocks ==> (r matches Some(t) && t.window == block / n1 && t.row == block % n1
            && t.loads@ == slot_loads_spec(unit as nat, threads as nat, n2 as nat, log2_n2 as nat, ((block % n1) * n2) as nat, 1)
            && t.stores@ == strided_seq(unit as nat, threads as nat, n2 as nat)),
{
    if block >= num_blocks {
        return None;
    }
    let window = block / n1;
    proof {
        vstd::arithmetic::div_mod::lemma_fundamental_div_mod(block as int, n1 as int);
        assert(window * n1 == n1 * window) by (nonlinear_arith);
    }
    let row = block - window * n1;
    proof {
        assert(row * n2 + n2 <= n1 * n2) by (nonlinear_arith)
            requires
                row < n1,
        ;
    }
    Some(RowTask {
        window,
        row,
        loads: slot_loads(unit, threads, n2, log2_n2, row * n2, 1),
        stores: strided_indices(unit, threads, n2),
    })
}

/// A load of the single-block forward real FFT: sample `sample` (none past
/// the signal, which reads as zero) into slot `dst`, imaginary part zero.
#[derive(Debug, Clone, Copy, PartialEq, Eq, Structural)]
pub struct SignalLoad {
    pub sample: Option<usize>,
    pub dst: usize,
}

/// What one unit of the single-block forward real FFT does.
pub struct RealForwardTask {
    pub window: usize,
    pub loads: Vec<SignalLoad>,
    pub stores: Vec<usize>,
}

pub open spec fn signal_loads_spec(unit: nat, threads: nat, n: nat, log2: nat, signal_len: nat) -> Seq<SignalLoad> {
    strided_seq(unit, threads, n).map_values(
        |i: usize| SignalLoad {
            sample: if i < signal_len { Some(i) } else { None },
            dst: bit_rev(i as nat, log2) as usize,
        },
    )
}

/// Unit `unit` of `threads` of the single-block forward real FFT of
/// `window`: it loads samples `unit, unit + threads, ...` below `n_fft`
/// (zero at or past `signal_len`) into bit-reversed slots, and writes bins
/// `unit, unit + threads, ...` up to `n_fft / 2`.
pub fn rfft_kernel(
    window: usize,
    num_windows: usize,
    unit: usize,
    threads: usize,
    n_fft: usize,
    log2_n: u32,
    signal_len: usize,
) -> (r: Option<RealForwardTask>)
    requires
        threads > 0,
        n_fft >= 2,
        n_fft + threads <= usize::MAX,
        log2_n <= usize::BITS,
    ensures
        window >= num_windows ==> r is None,
        window < num_windows ==> (r matches Some(t) && t.window == window
            && t.loads@ == signal_loads_spec(unit as nat, threads as nat, n_fft as nat, log2_n as nat, signal_len as nat)
            && t.stores@ == strided_seq(unit as nat, threads as nat, n_fft as nat / 2 + 1)),
{
    if window >= num_windows {
        return None;
    }
    let idx = strided_indices(unit, threads, n_fft);
    let mut loads: Vec<SignalLoad> = Vec::new();
    let mut j: usize = 0;
    while j < idx.len()
        invariant
            j <= idx@.len(),
            idx@ == strided_seq(unit as nat, threads as nat, n_fft as nat),
            log2_n <= usize::BITS,
            loads@ =~= signal_loads_spec(unit as nat, threads as nat, n_fft as nat, log2_n as nat, signal_len as nat)
                .subrange(0, j as int),
        decreases idx@.len() - j,
    {
        let i = idx[j];
        loads.push(SignalLoad { sample: if i < signal_len { Some(i) } else { None }, dst: bit_reverse(i, log2_n) });
        j = j + 1;
    }
    Some(RealForwardTask { window, loads, stores: strided_indices(unit, threads, n_fft / 2 + 1) })
}

/// A load of the single-block inverse real FFT: spectrum bin `bin` (none
/// past the first `spec_bins`, reading as zero) into slot `dst`, its
/// imaginary part read as `imag` says: zero for DC and, for even `n`,
/// Nyquist (real-only bins), negated for indices above `n / 2` (which
/// mirror the bins below), as stored otherwise.
#[derive(Debug, Clone, Copy, PartialEq, Eq, Structural)]
pub struct SpectrumLoad {
    pub bin: Option<usize>,
    pub dst: usize,
    pub imag: ImagRead,
}

/// What one unit of the single-block inverse real FFT does: its loads, and
/// the samples it writes (real parts scaled by `1/n`).
pub struct RealInverseTask {
    pub window: usize,
    pub loads: Vec<SpectrumLoad>,
    pub stores: Vec<usize>,
}

pub open spec fn spectrum_load_spec(k: nat, n: nat, log2: nat, spec_bins: nat) -> SpectrumLoad {
    let source = if k < n / 2 + 1 { k } else { (n - k) as nat };
    SpectrumLoad {
        bin: if source < spec_bins { Some(source as usize) } else { None },
        dst: bit_rev(k, log2) as usize,
        imag: if source == 0 || (n % 2 == 0 && source == n / 2) {
            ImagRead::Zero
        } else if k < n / 2 + 1 {
            ImagRead::Plain
        } else {
            ImagRead::Negated
        },
    }
}

pub open spec fn spectrum_loads_spec(unit: nat, threads: nat, n: nat, log2: nat, spec_bins: nat) -> Seq<SpectrumLoad> {
    strided_seq(unit, threads, n).map_values(|k: usize| spectrum_load_spec(k as nat, n, log2, spec_bins))
}

/// Unit `unit` of `threads` of the single-block inverse real FFT of
/// `window`, reading the first `spec_bins` bins.
pub fn irfft_kernel(
    window: usize,
    num_windows: usize,
    unit: usize,
    threads: usize,
    n_fft: usize,
    log2_n: u32,
    spec_bins: usize,
) -> (r: Option<RealInverseTask>)
    requires
        threads > 0,
        n_fft + threads <= usize::MAX,
        log2_n <= usize::BITS,
    ensures
        window >= num_windows ==> r is None,
        window < num_windows ==> (r matches Some(t) && t.window == window
            && t.loads@ == spectrum_loads_spec(unit as nat, threads as nat, n_fft as nat, log2_n as nat, spec_bins as nat)
            && t.stores@ == strided_seq(unit as nat, threads as nat, n_fft as nat)),
{
    if window >= num_windows {
        return None;
    }
    let n_freq = n_fft / 2 + 1;
    let idx = strided_indices(unit, threads, n_fft);
    let mut loads: Vec<SpectrumLoad> = Vec::new();
    let mut j: usize = 0;
    while j < idx.len()
        invariant
            j <= idx@.len(),
            n_freq == n_fft / 2 + 1,
            threads > 0,
            idx@ == strided_seq(unit as nat, threads as nat, n_fft as nat),
            log2_n <= usize::BITS,
            loads@ =~= spectrum_loads_spec(unit as nat, threads as nat, n_fft as nat, log2_n as nat, spec_bins as nat)
                .subrange(0, j as int),
        decreases idx@.len() - j,
    {
        let k = idx[j];
        proof {
            lemma_strided_below(unit as nat, threads as nat, n_fft as nat, j as nat);
        }
        let source = if k < n_freq { k } else { n_fft - k };
        let imag = if source == 0 || (n_fft % 2 == 0 && source == n_fft / 2) {
            ImagRead::Zero
        } else if k < n_freq {
            ImagRead::Plain
        } else {
            ImagRead::Negated
        };
        loads.push(SpectrumLoad {
            bin: if source < spec_bins { Some(source) } else { None },
            dst: bit_reverse(k, log2_n),
            imag,
        });
        j = j + 1;
    }
    Some(RealInverseTask { window, loads, stores: strided_indices(unit, threads, n_fft) })
}

/// DC, and Nyquist for even lengths, are real-only in the single-block
/// inverse: whichever index reads them, their stored imaginary part is
/// never read.
pub proof fn lemma_block_inverse_real_only(k: nat, n: nat, log2: nat, spec_bins: nat)
    requires
        k < n <= usize::MAX,
        spectrum_load_spec(k, n, log2, spec_bins).bin matches Some(b) && (b == 0 || (n % 2 == 0 && b == n / 2)),
    ensures
        spectrum_load_spec(k, n, log2, spec_bins).imag == ImagRead::Zero,
{
}

/// Every load of the single-block inverse names a bin of the half
/// spectrum: index `k <= n/2` reads bin `k`, index `k > n/2` the mirror bin
/// `n - k` conjugated, each only when it is among the first `spec_bins`;
/// DC and (for even `n`) Nyquist are real-only; indices `k` and `n - k`
/// read the same bin, one as stored and one conjugated.
pub proof fn lemma_block_inverse_hermitian(k: nat, n: nat, log2: nat, spec_bins: nat)
    requires
        k < n <= usize::MAX,
    ensures
        ({
            let l = spectrum_load_spec(k, n, log2, spec_bins);
            &&& l.bin matches Some(b) ==> b <= n / 2 && b < spec_bins && (b == k || b + k == n)
            &&& 2 * k <= n && k < spec_bins ==> l.bin == Some(k as usize)
            &&& 2 * k > n && n - k < spec_bins ==> l.bin == Some((n - k) as usize)
            &&& 2 * k > n ==> l.imag == ImagRead::Negated
            &&& 0 < k && 2 * k < n ==> l.imag == ImagRead::Plain
            &&& k == 0 || 2 * k == n ==> l.imag == ImagRead::Zero
            &&& l.dst == bit_rev(k, log2) as usize
        }),
        0 < k && 2 * k != n ==> ({
            let l = spectrum_load_spec(k, n, log2, spec_bins);
            let mirror = spectrum_load_spec((n - k) as nat, n, log2, spec_bins);
            &&& l.bin == mirror.bin
            &&& (l.imag == ImagRead::Plain && mirror.imag == ImagRead::Negated) || (l.imag == ImagRead::Negated
                && mirror.imag == ImagRead::Plain)
        }),
{
}

/// The `j`-th load of a unit of the single-block forward visits index
/// `i = unit + j * threads < n`, puts it in slot `bit_rev(i)`, and reads
/// sample `i` exactly when `i < signal_len` (zero otherwise).
pub proof fn lemma_signal_loads(unit: nat, threads: nat, n: nat, log2: nat, signal_len: nat, j: nat)
    requires
        threads > 0,
        n <= usize::MAX,
        j < strided_count(unit, threads, n),
    ensures
        ({
            let l = signal_loads_spec(unit, threads, n, log2, signal_len)[j as int];
            let i = unit + j * threads;
            &&& i < n
            &&& l.sample matches Some(s) ==> s == i && s < signal_len
            &&& i < signal_len ==> l.sample is Some
            &&& l.dst == bit_rev(i, log2) as usize
        }),
{
    lemma_strided_below(unit, threads, n, j);
}

/// The `j`-th load of a unit of a shared-memory complex FFT visits index
/// `i = unit + j * threads < bound`, reads element `base + i * step` and
/// puts it in slot `bit_rev(i)`.
pub proof fn lemma_slot_loads(unit: nat, threads: nat, bound: nat, log2: nat, base: nat, step: nat, j: nat)
    requires
        threads > 0,
        bound <= usize::MAX,
        base + bound * step <= usize::MAX,
        j < strided_count(unit, threads, bound),
    ensures
        ({
            let l = slot_loads_spec(unit, threads, bound, log2, base, step)[j as int];
            let i = unit + j * threads;
            &&& i < bound
            &&& l.src == base + i * step
            &&& l.dst == bit_rev(i, log2) as usize
        }),
{
    lemma_strided_below(unit, threads, bound, j);
    let i = unit + j * threads;
    assert(i * step <= bound * step) by (nonlinear_arith)
        requires
            i < bound,
    ;
}

} // verus!
