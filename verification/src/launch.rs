//! Launch planning of the device transforms: which kernels run, over how
//! many windows and positions, with how many units per block.
use vstd::prelude::*;
use crate::cfft::{factor_four_step, four_step_log2_n2};
use crate::exact::{MAX_SHARED_N_FFT, MAX_CONVOLUTION};
use crate::pow2::{exp2, is_pow2, log2, log2_of_pow2, lemma_pow2_exp2_log2};

verus! {

/// Portable cap on the units of one block.
pub const MAX_UNITS_PER_RUDA: usize = 256;

/// Largest power-of-two length that the single-block radix-2 kernels take;
/// longer ones use the packed-real path.
pub const SHARED_MEM_CAP: usize = 4096;

/// `(n / 2).clamp(1, MAX_UNITS_PER_RUDA)`.
pub open spec fn units_for(n: nat) -> nat {
    if n / 2 < 1 {
        1
    } else if n / 2 > MAX_UNITS_PER_RUDA {
        MAX_UNITS_PER_RUDA as nat
    } else {
        n / 2
    }
}

/// Units per block for an `n`-point shared-memory FFT: one per butterfly,
/// at least one and at most `MAX_UNITS_PER_RUDA`.
pub fn units_per_block(n: usize) -> (r: usize)
    ensures
        r == units_for(n as nat),
{
    let half = n / 2;
    if half < 1 {
        1
    } else if half > MAX_UNITS_PER_RUDA {
        MAX_UNITS_PER_RUDA
    } else {
        half
    }
}

/// The product of the sizes of the axes below `k` other than `dim`: the
/// number of windows of a transform along `dim`.
pub open spec fn windows_below(shape: Seq<usize>, dim: nat, k: nat) -> nat
    decreases k,
{
    if k == 0 {
        1
    } else if k - 1 == dim {
        windows_below(shape, dim, (k - 1) as nat)
    } else {
        windows_below(shape, dim, (k - 1) as nat) * (shape[k - 1] as nat)
    }
}

pub open spec fn windows(shape: Seq<usize>, dim: nat) -> nat {
    windows_below(shape, dim, shape.len())
}

/// Every partial product of the window count fits in `usize` (the count is
/// computed left to right).
pub open spec fn windows_fit(shape: Seq<usize>, dim: nat) -> bool {
    forall|k: nat| k <= shape.len() ==> #[trigger] windows_below(shape, dim, k) <= usize::MAX
}

/// The number of windows of a transform along `dim`.
pub fn window_count(shape: &Vec<usize>, dim: usize) -> (r: usize)
    requires
        windows_fit(shape@, dim as nat),
    ensures
        r == windows(shape@, dim as nat),
{
    let mut count: usize = 1;
    let mut a: usize = 0;
    while a < shape.len()
        invariant
            a <= shape@.len(),
            windows_fit(shape@, dim as nat),
            count == windows_below(shape@, dim as nat, a as nat),
        decreases shape@.len() - a,
    {
        if a != dim {
            proof {
                assert(windows_below(shape@, dim as nat, (a + 1) as nat) <= usize::MAX);
            }
            count = count * shape[a];
        }
        a = a + 1;
    }
    count
}

/// One launch of the shared-memory FFT kernel: `blocks` windows of
/// `n_fft` points, `units` units per block.
#[derive(Debug, Clone, Copy, PartialEq, Eq, Structural)]
pub struct BlockFft {
    pub blocks: usize,
    pub units: usize,
    pub n_fft: usize,
    pub log2_n: u32,
}

pub open spec fn block_fft_spec(blocks: nat, n: nat) -> BlockFft {
    BlockFft { blocks: blocks as usize, units: units_for(n) as usize, n_fft: n as usize, log2_n: log2(n) as u32 }
}

fn block_fft(blocks: usize, n: usize) -> (r: BlockFft)
    requires
        is_pow2(n as nat),
    ensures
        r == block_fft_spec(blocks as nat, n as nat),
{
    BlockFft { blocks, units: units_per_block(n), n_fft: n, log2_n: log2_of_pow2(n) }
}

/// The four-step complex FFT of `n1 * n2` points: strided `n1`-point FFTs
/// over each column (twiddled on the way out), `n2`-point FFTs over each
/// row in place, then the transpose of `transpose_total` elements into
/// natural bin order.
#[derive(Debug, Clone, Copy, PartialEq, Eq, Structural)]
pub struct FourStepPlan {
    pub n1: usize,
    pub n2: usize,
    pub columns: BlockFft,
    pub rows: BlockFft,
    pub transpose_total: usize,
}

/// The launches of a complex FFT along one axis.
#[derive(Debug, Clone, Copy, PartialEq, Eq, Structural)]
pub enum CfftLaunch {
    /// No window: nothing to launch.
    Nothing,
    /// One shared-memory FFT per window.
    Shared(BlockFft),
    /// The four-step path for lengths above `MAX_SHARED_N_FFT`.
    FourStep(FourStepPlan),
}

/// The four-step plan for `count` windows of `n = n1 * n2` points, with
/// the factors of `factor_four_step`.
pub open spec fn four_step_spec(count: nat, n: nat) -> FourStepPlan {
    let lg = log2(n);
    let n2 = exp2(four_step_log2_n2(lg));
    let n1 = exp2((lg - four_step_log2_n2(lg)) as nat);
    FourStepPlan {
        n1: n1 as usize,
        n2: n2 as usize,
        columns: block_fft_spec(count * n2, n1),
        rows: block_fft_spec(count * n1, n2),
        transpose_total: (count * n) as usize,
    }
}

/// What `cfft_launch_any_size` plans for `count` windows of `n` points.
pub open spec fn cfft_launch_spec(count: nat, n: nat) -> CfftLaunch {
    if count == 0 {
        CfftLaunch::Nothing
    } else if n <= MAX_SHARED_N_FFT {
        CfftLaunch::Shared(block_fft_spec(count, n))
    } else {
        CfftLaunch::FourStep(four_step_spec(count, n))
    }
}

/// Whether a complex FFT along `dim` of a tensor shaped `shape` can be
/// planned: a power-of-two length of at least two points, within the
/// four-step limit, over a window count whose products fit in `usize`.
pub open spec fn cfft_accepts(shape: Seq<usize>, dim: nat) -> bool {
    &&& dim < shape.len()
    &&& is_pow2(shape[dim as int] as nat)
    &&& shape[dim as int] >= 2
    &&& shape[dim as int] <= MAX_CONVOLUTION
    &&& windows_fit(shape, dim)
    &&& windows(shape, dim) * shape[dim as int] <= usize::MAX
}

/// Plans the complex FFT of every window along `dim`: none without a
/// window, one shared-memory pass up to `MAX_SHARED_N_FFT` points, the
/// four-step path above.
pub fn cfft_launch_any_size(shape: &Vec<usize>, dim: usize) -> (r: CfftLaunch)
    requires
        cfft_accepts(shape@, dim as nat),
    ensures
        r == cfft_launch_spec(windows(shape@, dim as nat), shape@[dim as int] as nat),
{
    let n_fft = shape[dim];
    let count = window_count(shape, dim);
    if count == 0 {
        return CfftLaunch::Nothing;
    }
    if n_fft <= MAX_SHARED_N_FFT {
        return CfftLaunch::Shared(block_fft(count, n_fft));
    }
    CfftLaunch::FourStep(cfft_four_step_launch(count, n_fft))
}

/// Plans the four-step complex FFT of `count` windows of `n_fft` points:
/// `n_fft = n1 * n2`, the column pass over `count * n2` blocks of `n1`
/// points, the row pass over `count * n1` blocks of `n2` points, and the
/// transpose of every element.
fn cfft_four_step_launch(count: usize, n_fft: usize) -> (r: FourStepPlan)
    requires
        is_pow2(n_fft as nat),
        MAX_SHARED_N_FFT < n_fft <= MAX_CONVOLUTION,
        count * n_fft <= usize::MAX,
    ensures
        r == four_step_spec(count as nat, n_fft as nat),
{
    let (n1, n2) = factor_four_step(n_fft);
    proof {
        lemma_pow2_exp2_log2(n_fft as nat);
        crate::pow2::lemma_exp2_is_pow2(four_step_log2_n2(log2(n_fft as nat)));
        crate::pow2::lemma_exp2_is_pow2((log2(n_fft as nat) - four_step_log2_n2(log2(n_fft as nat))) as nat);
        assert(count * n2 <= count * n_fft) by (nonlinear_arith)
            requires
                n1 * n2 == n_fft,
                n1 >= 1,
        ;
        assert(count * n1 <= count * n_fft) by (nonlinear_arith)
            requires
                n1 * n2 == n_fft,
                n2 >= 1,
        ;
    }
    FourStepPlan {
        n1,
        n2,
        columns: block_fft(count * n2, n1),
        rows: block_fft(count * n1, n2),
        transpose_total: count * n_fft,
    }
}

/// `shape` with axis `dim` resized to `len`.
pub fn with_axis(shape: &Vec<usize>, dim: usize, len: usize) -> (r: Vec<usize>)
    requires
        dim < shape@.len(),
    ensures
        r@ == shape@.update(dim as int, len),
{
    let mut out: Vec<usize> = Vec::new();
    let mut a: usize = 0;
    while a < shape.len()
        invariant
            a <= shape@.len(),
            dim < shape@.len(),
            out@ == shape@.update(dim as int, len).subrange(0, a as int),
        decreases shape@.len() - a,
    {
        if a == dim {
            out.push(len);
        } else {
            out.push(shape[a]);
        }
        a = a + 1;
    }
    out
}

/// Resizing the transform axis leaves the windows alone.
pub proof fn lemma_windows_resize(shape: Seq<usize>, dim: nat, len: usize, k: nat)
    requires
        dim < shape.len(),
        k <= shape.len(),
    ensures
        windows_below(shape.update(dim as int, len), dim, k) == windows_below(shape, dim, k),
    decreases k,
{
    if k > 0 {
        lemma_windows_resize(shape, dim, len, (k - 1) as nat);
    }
}

/// The fused single-block real transform: one block per window, each
/// running the `m = n_fft / 2` point packed FFT in shared memory and reading
/// the first `read_len` samples (forward) or bins (inverse).
#[derive(Debug, Clone, Copy, PartialEq, Eq, Structural)]
pub struct FusedLaunch {
    pub windows: usize,
    pub units: usize,
    pub n_fft: usize,
    pub m: usize,
    pub log2_m: u32,
    pub read_len: usize,
}

/// The launches of a packed-real transform above the single-block limit.
#[derive(Debug, Clone, Copy, PartialEq, Eq, Structural)]
pub enum LargeLaunch {
    /// Up to `MAX_SHARED_N_FFT` packed points: one fused kernel.
    Fused(FusedLaunch),
    /// Above: the pack (forward) or pre (inverse) pass over `first_total`
    /// positions, the complex FFT of the packed buffers, then the post
    /// (forward) or unpack (inverse) pass over `last_total` positions.
    Staged { first_total: usize, cfft: CfftLaunch, last_total: usize },
}

/// What the large real transforms plan for `count` windows of `n_fft`
/// points reading `read_len` samples or bins.
pub open spec fn large_launch_spec(count: nat, n_fft: nat, read_len: nat, inverse: bool) -> LargeLaunch {
    let m = n_fft / 2;
    if m <= MAX_SHARED_N_FFT {
        LargeLaunch::Fused(FusedLaunch {
            windows: count as usize,
            units: units_for(m) as usize,
            n_fft: n_fft as usize,
            m: m as usize,
            log2_m: log2(m) as u32,
            read_len: read_len as usize,
        })
    } else {
        LargeLaunch::Staged {
            first_total: (count * m) as usize,
            cfft: cfft_launch_spec(count, m),
            last_total: (if inverse { count * m } else { count * (m + 1) }) as usize,
        }
    }
}

/// Whether a large real transform of `n_fft` points along `dim` can be
/// planned: `n_fft` a power of two of at least four points whose packed
/// half stays within the four-step limit, over window counts that fit.
pub open spec fn large_accepts(shape: Seq<usize>, dim: nat, n_fft: nat) -> bool {
    &&& dim < shape.len()
    &&& is_pow2(n_fft)
    &&& n_fft >= 4
    &&& n_fft / 2 <= MAX_CONVOLUTION
    &&& windows_fit(shape, dim)
    &&& windows(shape, dim) * (n_fft / 2 + 1) <= usize::MAX
}

proof fn lemma_half_pow2(n: nat)
    requires
        is_pow2(n),
        n >= 2,
    ensures
        is_pow2(n / 2),
        n / 2 >= 1,
        n == 2 * (n / 2),
{
}

fn large_launch(shape: &Vec<usize>, dim: usize, n_fft: usize, read_len: usize, inverse: bool) -> (r: LargeLaunch)
    requires
        large_accepts(shape@, dim as nat, n_fft as nat),
    ensures
        r == large_launch_spec(windows(shape@, dim as nat), n_fft as nat, read_len as nat, inverse),
{
    let m = n_fft / 2;
    let count = window_count(shape, dim);
    proof {
        lemma_half_pow2(n_fft as nat);
        assert(count * m <= count * (m + 1)) by (nonlinear_arith);
    }
    if m <= MAX_SHARED_N_FFT {
        return LargeLaunch::Fused(FusedLaunch {
            windows: count,
            units: units_per_block(m),
            n_fft,
            m,
            log2_m: log2_of_pow2(m),
            read_len,
        });
    }
    let packed_shape = with_axis(shape, dim, m);
    proof {
        assert forall|k: nat| k <= packed_shape@.len() implies #[trigger] windows_below(packed_shape@, dim as nat, k)
            <= usize::MAX by {
            lemma_windows_resize(shape@, dim as nat, m, k);
        }
        lemma_windows_resize(shape@, dim as nat, m, shape@.len());
    }
    let cfft = cfft_launch_any_size(&packed_shape, dim);
    let last_total = if inverse { count * m } else { count * (m + 1) };
    LargeLaunch::Staged { first_total: count * m, cfft, last_total }
}

/// Plans the forward real FFT above the single-block limit: `n_fft` is
/// twice the spectrum's bin count less one, `signal_len` samples are read.
pub fn rfft_large_launch(
    signal_shape: &Vec<usize>,
    spectrum_shape: &Vec<usize>,
    dim: usize,
    signal_len: usize,
) -> (r: LargeLaunch)
    requires
        dim < spectrum_shape@.len(),
        spectrum_shape@[dim as int] >= 1,
        2 * (spectrum_shape@[dim as int] - 1) <= usize::MAX,
        large_accepts(signal_shape@, dim as nat, (2 * (spectrum_shape@[dim as int] - 1)) as nat),
    ensures
        r == large_launch_spec(
            windows(signal_shape@, dim as nat),
            (2 * (spectrum_shape@[dim as int] - 1)) as nat,
            signal_len as nat,
            false,
        ),
{
    let n_fft = (spectrum_shape[dim] - 1) * 2;
    large_launch(signal_shape, dim, n_fft, signal_len, false)
}

/// Plans the inverse real FFT above the single-block limit: `n_fft` is the
/// signal's length along `dim`, `spec_bins` bins are read.
pub fn irfft_large_launch(signal_shape: &Vec<usize>, dim: usize, spec_bins: usize) -> (r: LargeLaunch)
    requires
        dim < signal_shape@.len(),
        large_accepts(signal_shape@, dim as nat, signal_shape@[dim as int] as nat),
    ensures
        r == large_launch_spec(
            windows(signal_shape@, dim as nat),
            signal_shape@[dim as int] as nat,
            spec_bins as nat,
            true,
        ),
{
    large_launch(signal_shape, dim, signal_shape[dim], spec_bins, true)
}

/// The number of windows along `dim`, or `None` when a partial product
/// overflows `usize`.
pub fn checked_window_count(shape: &Vec<usize>, dim: usize) -> (r: Option<usize>)
    ensures
        r == (if windows_fit(shape@, dim as nat) {
            Some(windows(shape@, dim as nat) as usize)
        } else {
            None
        }),
{
    let mut count: usize = 1;
    let mut a: usize = 0;
    while a < shape.len()
        invariant
            a <= shape@.len(),
            count == windows_below(shape@, dim as nat, a as nat),
            forall|k: nat| k <= a ==> #[trigger] windows_below(shape@, dim as nat, k) <= usize::MAX,
        decreases shape@.len() - a,
    {
        if a != dim {
            count = match count.checked_mul(shape[a]) {
                Some(v) => v,
                None => {
                    proof {
                        assert(windows_below(shape@, dim as nat, (a + 1) as nat) > usize::MAX);
                    }
                    return None;
                },
            };
        }
        proof {
            assert forall|k: nat| k <= a + 1 implies #[trigger] windows_below(shape@, dim as nat, k) <= usize::MAX by {}
        }
        a = a + 1;
    }
    Some(count)
}

/// The launches of an inverse real FFT with a padded spectrum.
#[derive(Debug, Clone, Copy, PartialEq, Eq, Structural)]
pub enum IrfftLaunch {
    /// No window: nothing to launch.
    Nothing,
    /// Up to `SHARED_MEM_CAP` points: one radix-2 block per window.
    Radix2 { windows: usize, spec_bins: usize, n_fft: usize, log2_n: u32, units: usize },
    /// Above: the packed-real path.
    Large(LargeLaunch),
}

/// Whether `irfft_launch_padded` takes these shapes: matching real and
/// imaginary spectra, a power-of-two signal of at least two points along
/// `dim`, between one and `n_fft / 2 + 1` bins read from the spectrum, and
/// window counts (and, on the large path, lengths) that the kernels handle.
pub open spec fn irfft_padded_accepts(
    spec_re: Seq<usize>,
    spec_im: Seq<usize>,
    signal: Seq<usize>,
    dim: nat,
    spec_bins: nat,
) -> bool {
    let n = signal[dim as int] as nat;
    &&& spec_re == spec_im
    &&& dim < signal.len()
    &&& dim < spec_re.len()
    &&& is_pow2(n)
    &&& n >= 2
    &&& 1 <= spec_bins <= spec_re[dim as int]
    &&& spec_bins <= n / 2 + 1
    &&& windows_fit(signal, dim)
    &&& n > SHARED_MEM_CAP ==> large_accepts(signal, dim, n)
}

/// What `irfft_launch_padded` plans.
pub open spec fn irfft_padded_spec(signal: Seq<usize>, dim: nat, spec_bins: nat) -> IrfftLaunch {
    let count = windows(signal, dim);
    let n = signal[dim as int] as nat;
    if count == 0 {
        IrfftLaunch::Nothing
    } else if n > SHARED_MEM_CAP {
        IrfftLaunch::Large(large_launch_spec(count, n, spec_bins, true))
    } else {
        IrfftLaunch::Radix2 {
            windows: count as usize,
            spec_bins: spec_bins as usize,
            n_fft: n as usize,
            log2_n: log2(n) as u32,
            units: units_for(n) as usize,
        }
    }
}

/// Whether the shapes pass the checks of `irfft_launch_padded`.
pub fn irfft_launch_padded_accepts(
    spec_re: &Vec<usize>,
    spec_im: &Vec<usize>,
    signal: &Vec<usize>,
    dim: usize,
    spec_bins: usize,
) -> (r: bool)
    ensures
        r == irfft_padded_accepts(spec_re@, spec_im@, signal@, dim as nat, spec_bins as nat),
{
    if !crate::layout::shapes_equal(spec_re, spec_im) || dim >= signal.len() || dim >= spec_re.len() {
        return false;
    }
    let n = signal[dim];
    if !crate::pow2::is_power_of_two(n) || n < 2 || spec_bins < 1 || spec_bins > spec_re[dim]
        || spec_bins > n / 2 + 1 {
        return false;
    }
    let count = match checked_window_count(signal, dim) {
        Some(c) => c,
        None => return false,
    };
    if n > SHARED_MEM_CAP {
        if n / 2 > MAX_CONVOLUTION {
            return false;
        }
        match count.checked_mul(n / 2 + 1) {
            Some(_) => {},
            None => return false,
        }
    }
    true
}

/// Plans the inverse real FFT of the first `spec_bins` bins of a spectrum
/// (the rest are zero) into a signal of `n_fft` points along `dim`.
pub fn irfft_launch_padded(
    spec_re: &Vec<usize>,
    spec_im: &Vec<usize>,
    signal: &Vec<usize>,
    dim: usize,
    spec_bins: usize,
) -> (r: IrfftLaunch)
    requires
        irfft_padded_accepts(spec_re@, spec_im@, signal@, dim as nat, spec_bins as nat),
    ensures
        r == irfft_padded_spec(signal@, dim as nat, spec_bins as nat),
{
    let n_fft = signal[dim];
    let count = window_count(signal, dim);
    if count == 0 {
        return IrfftLaunch::Nothing;
    }
    if n_fft > SHARED_MEM_CAP {
        return IrfftLaunch::Large(irfft_large_launch(signal, dim, spec_bins));
    }
    IrfftLaunch::Radix2 {
        windows: count,
        spec_bins,
        n_fft,
        log2_n: log2_of_pow2(n_fft),
        units: units_per_block(n_fft),
    }
}

/// Plans the inverse real FFT that reads every bin of the spectrum.
pub fn irfft_launch(spec_re: &Vec<usize>, spec_im: &Vec<usize>, signal: &Vec<usize>, dim: usize) -> (r: IrfftLaunch)
    requires
        dim < spec_re@.len(),
        irfft_padded_accepts(spec_re@, spec_im@, signal@, dim as nat, spec_re@[dim as int] as nat),
    ensures
        r == irfft_padded_spec(signal@, dim as nat, spec_re@[dim as int] as nat),
{
    irfft_launch_padded(spec_re, spec_im, signal, dim, spec_re[dim])
}

/// The launches of a forward real FFT that reads a padded signal.
#[derive(Debug, Clone, Copy, PartialEq, Eq, Structural)]
pub enum RfftLaunch {
    /// No window: nothing to launch.
    Nothing,
    /// Up to `SHARED_MEM_CAP` points: one radix-2 block per window.
    Radix2 { windows: usize, signal_len: usize, n_fft: usize, log2_n: u32, units: usize },
    /// Above: the packed-real path.
    Large(LargeLaunch),
}

/// Whether `rfft_launch_padded` takes these shapes: matching real and
/// imaginary spectra whose length along `dim` gives `n_fft = 2 (bins - 1)`,
/// a power of two of at least two points; at most the signal's axis length
/// and at most `n_fft` samples read; and window counts (and, on the large
/// path above `SHARED_MEM_CAP`, lengths) that the kernels handle.
pub open spec fn rfft_padded_accepts(
    signal: Seq<usize>,
    spec_re: Seq<usize>,
    spec_im: Seq<usize>,
    dim: nat,
    signal_len: nat,
) -> bool {
    let n = (2 * (spec_re[dim as int] - 1)) as nat;
    &&& spec_re == spec_im
    &&& dim < signal.len()
    &&& dim < spec_re.len()
    &&& spec_re[dim as int] >= 2
    &&& 2 * (spec_re[dim as int] - 1) <= usize::MAX
    &&& is_pow2(n)
    &&& signal_len <= signal[dim as int]
    &&& signal_len <= n
    &&& windows_fit(signal, dim)
    &&& n > SHARED_MEM_CAP ==> large_accepts(signal, dim, n)
}

/// What `rfft_launch_padded` plans.
pub open spec fn rfft_padded_spec(signal: Seq<usize>, spec_re: Seq<usize>, dim: nat, signal_len: nat) -> RfftLaunch {
    let count = windows(signal, dim);
    let n = (2 * (spec_re[dim as int] - 1)) as nat;
    if count == 0 {
        RfftLaunch::Nothing
    } else if n > SHARED_MEM_CAP {
        RfftLaunch::Large(large_launch_spec(count, n, signal_len, false))
    } else {
        RfftLaunch::Radix2 {
            windows: count as usize,
            signal_len: signal_len as usize,
            n_fft: n as usize,
            log2_n: log2(n) as u32,
            units: units_for(n) as usize,
        }
    }
}

/// Whether the shapes pass the checks of `rfft_launch_padded`.
pub fn rfft_launch_padded_accepts(
    signal: &Vec<usize>,
    spec_re: &Vec<usize>,
    spec_im: &Vec<usize>,
    dim: usize,
    signal_len: usize,
) -> (r: bool)
    ensures
        r == rfft_padded_accepts(signal@, spec_re@, spec_im@, dim as nat, signal_len as nat),
{
    if !crate::layout::shapes_equal(spec_re, spec_im) || dim >= signal.len() || dim >= spec_re.len() {
        return false;
    }
    if spec_re[dim] < 2 {
        return false;
    }
    let n = match (spec_re[dim] - 1).checked_mul(2) {
        Some(v) => v,
        None => return false,
    };
    if !crate::pow2::is_power_of_two(n) || signal_len > signal[dim] || signal_len > n {
        return false;
    }
    let count = match checked_window_count(signal, dim) {
        Some(c) => c,
        None => return false,
    };
    if n > SHARED_MEM_CAP {
        if n / 2 > MAX_CONVOLUTION {
            return false;
        }
        match count.checked_mul(n / 2 + 1) {
            Some(_) => {},
            None => return false,
        }
    }
    true
}

/// Plans the forward real FFT of the first `signal_len` samples along `dim`
/// (the rest are zero) into a half spectrum of `n_fft / 2 + 1` bins, `n_fft`
/// taken from the spectrum's length.
pub fn rfft_launch_padded(
    signal: &Vec<usize>,
    spec_re: &Vec<usize>,
    spec_im: &Vec<usize>,
    dim: usize,
    signal_len: usize,
) -> (r: RfftLaunch)
    requires
        rfft_padded_accepts(signal@, spec_re@, spec_im@, dim as nat, signal_len as nat),
    ensures
        r == rfft_padded_spec(signal@, spec_re@, dim as nat, signal_len as nat),
{
    let n_fft = (spec_re[dim] - 1) * 2;
    let count = window_count(signal, dim);
    if count == 0 {
        return RfftLaunch::Nothing;
    }
    if n_fft > SHARED_MEM_CAP {
        return RfftLaunch::Large(rfft_large_launch(signal, spec_re, dim, signal_len));
    }
    proof {
        lemma_pow2_exp2_log2(n_fft as nat);
    }
    RfftLaunch::Radix2 {
        windows: count,
        signal_len,
        n_fft,
        log2_n: log2_of_pow2(n_fft),
        units: units_per_block(n_fft),
    }
}

/// Plans the forward real FFT that reads every sample of the signal's axis.
pub fn rfft_launch(signal: &Vec<usize>, spec_re: &Vec<usize>, spec_im: &Vec<usize>, dim: usize) -> (r: RfftLaunch)
    requires
        dim < signal@.len(),
        rfft_padded_accepts(signal@, spec_re@, spec_im@, dim as nat, signal@[dim as int] as nat),
    ensures
        r == rfft_padded_spec(signal@, spec_re@, dim as nat, signal@[dim as int] as nat),
{
    rfft_launch_padded(signal, spec_re, spec_im, dim, signal[dim])
}

/// The signal shape of an inverse transform of a half spectrum: `2 (b - 1)`
/// points along `dim` for `b` bins.
pub fn irfft_signal_shape(spectrum: &Vec<usize>, dim: usize) -> (r: Vec<usize>)
    requires
        dim < spectrum@.len(),
        spectrum@[dim as int] >= 1,
        2 * (spectrum@[dim as int] - 1) <= usize::MAX,
    ensures
        r@ == spectrum@.update(dim as int, (2 * (spectrum@[dim as int] - 1)) as usize),
{
    with_axis(spectrum, dim, (spectrum[dim] - 1) * 2)
}

} // verus!
