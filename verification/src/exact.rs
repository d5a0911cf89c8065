//! Exact-length real transforms: the Bluestein workspace length, the
//! workspace sizes, and the state of a reusable plan.
use vstd::prelude::*;
use crate::error::FftError;
use crate::layout::{BindingLayout, validate, validate_spec, lemma_batch_rows_fit};
use crate::launch::{CfftLaunch, cfft_launch_spec, cfft_launch_any_size, windows, windows_below};
use crate::host::{tail_product, lemma_windows_elements};
use crate::layout::batch_rows;
use crate::pow2::{ceil_pow2, is_pow2, lemma_ceil_pow2_char, is_power_of_two, checked_next_power_of_two};

verus! {

/// Portable size limit of the single-pass shared-memory complex FFT.
pub const MAX_SHARED_N_FFT: usize = 4096;

/// Bounded implementation limit of the four-step convolution.
pub const MAX_CONVOLUTION: usize = MAX_SHARED_N_FFT * MAX_SHARED_N_FFT;

/// What `exact_convolution_len` answers for a length `n`.
pub open spec fn convolution_len_spec(n: nat) -> Result<Option<usize>, FftError> {
    if n == 0 {
        Err(FftError::ZeroLength)
    } else if is_pow2(n) {
        if n > 2 * MAX_CONVOLUTION {
            Err(FftError::Radix2LimitExceeded)
        } else {
            Ok(None)
        }
    } else if ceil_pow2((2 * n - 1) as nat) > MAX_CONVOLUTION {
        Err(FftError::ConvolutionLimitExceeded)
    } else {
        Ok(Some(ceil_pow2((2 * n - 1) as nat) as usize))
    }
}

/// Bluestein workspace length. Power-of-two lengths use the packed real path
/// (`None`), up to twice the complex four-step limit; other lengths convolve
/// over the smallest power of two that holds `2n - 1` points.
pub fn exact_convolution_len(n: usize) -> (r: Result<Option<usize>, FftError>)
    ensures
        r == convolution_len_spec(n as nat),
{
    if n == 0 {
        return Err(FftError::ZeroLength);
    }
    if is_power_of_two(n) {
        if n > MAX_CONVOLUTION * 2 {
            return Err(FftError::Radix2LimitExceeded);
        }
        return Ok(None);
    }
    let twice = match n.checked_mul(2) {
        Some(v) => v,
        None => {
            proof {
                lemma_ceil_pow2_char((2 * n - 1) as nat, 0);
            }
            return Err(FftError::ConvolutionLimitExceeded);
        }
    };
    let span = twice - 1;
    match checked_next_power_of_two(span) {
        Some(m) => {
            if m <= MAX_CONVOLUTION {
                Ok(Some(m))
            } else {
                Err(FftError::ConvolutionLimitExceeded)
            }
        }
        None => Err(FftError::ConvolutionLimitExceeded),
    }
}


/// Bytes of an F32 workspace of `rows * cols` elements, refused beyond 32-bit
/// indexing or `usize` bytes.
pub open spec fn workspace_bytes_spec(rows: nat, cols: nat) -> Result<usize, FftError> {
    if rows * cols > u32::MAX {
        Err(FftError::WorkspaceIndexing)
    } else if 4 * (rows * cols) > usize::MAX {
        Err(FftError::WorkspaceByteOverflow)
    } else {
        Ok((4 * (rows * cols)) as usize)
    }
}

/// The byte size of a `rows` by `cols` F32 workspace.
pub fn workspace_bytes(rows: usize, cols: usize) -> (r: Result<usize, FftError>)
    ensures
        r == workspace_bytes_spec(rows as nat, cols as nat),
{
    let elements = match rows.checked_mul(cols) {
        Some(v) => v,
        None => return Err(FftError::WorkspaceIndexing),
    };
    if elements > u32::MAX as usize {
        return Err(FftError::WorkspaceIndexing);
    }
    match elements.checked_mul(4) {
        Some(v) => Ok(v),
        None => Err(FftError::WorkspaceByteOverflow),
    }
}

/// Direction of a transform.
#[derive(Debug, Clone, Copy, PartialEq, Eq, Structural)]
pub enum FftMode {
    Forward,
    Inverse,
}

impl FftMode {
    /// Sign of the twiddle exponent: `-1` forward, `+1` inverse.
    pub fn sign(&self) -> (s: i32)
        ensures
            s == (if *self == FftMode::Forward { -1int } else { 1int }),
    {
        match self {
            FftMode::Forward => -1,
            FftMode::Inverse => 1,
        }
    }
}

/// The batched scratch of a plan: its row count, and whether the four-step
/// convolution needs the second pair of buffers.
#[derive(Debug, Clone, Copy, PartialEq, Eq, Structural)]
pub struct Workspace {
    pub rows: usize,
    pub four_step: bool,
}

/// What a plan holds: its length and direction, the Bluestein convolution
/// length (`None` on the power-of-two path), and its current workspace.
#[derive(Debug, Clone, Copy, PartialEq, Eq, Structural)]
pub struct PlanState {
    pub n: usize,
    pub mode: FftMode,
    pub convolution: Option<usize>,
    pub workspace: Option<Workspace>,
}

/// Bytes that a plan keeps: the chirp and spectrum tables, and the
/// workspace (two buffers, four on the four-step path).
pub open spec fn retained_bytes_spec(p: PlanState) -> nat {
    match p.convolution {
        None => 0,
        Some(m) => {
            let tables: nat = 8 * (p.n as nat + m as nat);
            match p.workspace {
                None => tables,
                Some(w) => tables + (w.rows as nat) * (m as nat) * (if w.four_step { 16nat } else { 8nat }),
            }
        }
    }
}

/// The state after reserving a workspace of `rows` rows, and the outcome.
pub open spec fn prepare_workspace_spec(p: PlanState, rows: nat) -> (PlanState, Result<(), FftError>) {
    let m = p.convolution.unwrap() as nat;
    if p.workspace is Some && p.workspace.unwrap().rows == rows {
        (p, Ok(()))
    } else if workspace_bytes_spec(rows, m) is Err {
        (PlanState { workspace: None, ..p }, Err(workspace_bytes_spec(rows, m)->Err_0))
    } else {
        (
            PlanState {
                workspace: Some(Workspace { rows: rows as usize, four_step: m > MAX_SHARED_N_FFT }),
                ..p
            },
            Ok(()),
        )
    }
}

/// The launches that a transform call asks for once its bindings passed.
#[derive(Debug, Clone, Copy, PartialEq, Eq, Structural)]
pub enum TransformLaunch {
    /// No batch row: nothing to launch.
    Nothing,
    /// A one-point transform: copy the first sample or bin of each row.
    SingleSample { rows: usize },
    /// A power-of-two length: the padded radix-2 launch that reads `used`.
    Radix2 { rows: usize, used: usize },
    /// Bluestein: chirp the input into `total` workspace elements, convolve
    /// over `convolution` points (the complex FFT `fft` of every row,
    /// forward, the product with the chirp spectrum, and `fft` inverse), and
    /// write `outputs` elements.
    Bluestein { rows: usize, convolution: usize, total: usize, fft: CfftLaunch, outputs: usize },
}

/// The plan's state after a transform call, and what it answers.
pub open spec fn transform_spec(
    p: PlanState,
    mode: FftMode,
    signal: BindingLayout,
    spec_re: BindingLayout,
    spec_im: BindingLayout,
    dim: nat,
    used: nat,
) -> (PlanState, Result<TransformLaunch, FftError>) {
    let inverse = mode == FftMode::Inverse;
    let v = validate_spec(signal, spec_re, spec_im, dim, p.n as nat, used, inverse);
    if p.mode != mode {
        (p, Err(if inverse { FftError::InverseOnForwardPlan } else { FftError::ForwardOnInversePlan }))
    } else if v is Err {
        (p, Err(v->Err_0))
    } else if v->Ok_0 == 0 {
        (p, Ok(TransformLaunch::Nothing))
    } else if p.n == 1 {
        (p, Ok(TransformLaunch::SingleSample { rows: v->Ok_0 }))
    } else if p.convolution is None {
        (p, Ok(TransformLaunch::Radix2 { rows: v->Ok_0, used: used as usize }))
    } else {
        let rows = v->Ok_0;
        let m = p.convolution.unwrap();
        let (q, prepared) = prepare_workspace_spec(p, rows as nat);
        let outputs = if inverse { rows * p.n } else { rows * (p.n / 2 + 1) };
        if prepared is Err {
            (q, Err(prepared->Err_0))
        } else {
            (
                q,
                Ok(
                    TransformLaunch::Bluestein {
                        rows,
                        convolution: m,
                        total: (rows * m) as usize,
                        fft: cfft_launch_spec(rows as nat, m as nat),
                        outputs: outputs as usize,
                    },
                ),
            )
        }
    }
}

/// Reusable exact-length real FFT plan. Its direction and length are fixed;
/// batches may change, in which case the batched workspace is replaced, not
/// grown without bound.
pub struct RealFftPlan {
    n: usize,
    mode: FftMode,
    convolution: Option<usize>,
    workspace: Option<Workspace>,
}

impl View for RealFftPlan {
    type V = PlanState;

    closed spec fn view(&self) -> PlanState {
        PlanState {
            n: self.n,
            mode: self.mode,
            convolution: self.convolution,
            workspace: self.workspace,
        }
    }
}

/// A plan's state is consistent: its convolution length is the one for its
/// length, and a workspace exists only on the Bluestein path, sized within
/// 32-bit indexing.
pub open spec fn plan_wf(p: PlanState) -> bool {
    &&& convolution_len_spec(p.n as nat) == Ok::<Option<usize>, FftError>(p.convolution)
    &&& p.workspace is Some ==> {
        &&& p.convolution is Some
        &&& workspace_bytes_spec(p.workspace.unwrap().rows as nat, p.convolution.unwrap() as nat) is Ok
        &&& p.workspace.unwrap().four_step == (p.convolution.unwrap() > MAX_SHARED_N_FFT)
    }
}

impl RealFftPlan {
    #[verifier::type_invariant]
    spec fn inv(self) -> bool {
        plan_wf(self@)
    }

    /// A plan for `n`-point transforms in direction `mode`, with its
    /// Bluestein tables when `n` is not a power of two.
    pub fn new(n: usize, mode: FftMode) -> (r: Result<Self, FftError>)
        ensures
            match r {
                Ok(plan) => convolution_len_spec(n as nat) is Ok && plan@ == (PlanState {
                    n,
                    mode,
                    convolution: convolution_len_spec(n as nat)->Ok_0,
                    workspace: None,
                }),
                Err(e) => convolution_len_spec(n as nat) == Err::<Option<usize>, FftError>(e),
            },
    {
        let m = exact_convolution_len(n)?;
        if let Some(m) = m {
            proof {
                lemma_ceil_pow2_char((2 * n - 1) as nat, 0);
            }
            workspace_bytes(1, n)?;
            workspace_bytes(1, m)?;
        }
        Ok(RealFftPlan { n, mode, convolution: m, workspace: None })
    }

    /// The transform length.
    pub fn len(&self) -> (r: usize)
        ensures
            r == self@.n,
    {
        self.n
    }

    /// A plan is never empty: its length is positive.
    pub fn is_empty(&self) -> (r: bool)
        ensures
            r == (self@.n == 0),
            !r,
    {
        proof {
            use_type_invariant(self);
        }
        false
    }

    /// The Bluestein convolution length, `None` on the power-of-two path.
    pub fn convolution_len(&self) -> (r: Option<usize>)
        ensures
            r == self@.convolution,
    {
        self.convolution
    }

    /// The plan's state.
    pub fn state(&self) -> (r: PlanState)
        ensures
            r == self@,
    {
        PlanState { n: self.n, mode: self.mode, convolution: self.convolution, workspace: self.workspace }
    }

    /// Bytes retained by this plan, excluding outputs, driver metadata,
    /// compiled kernels and temporary initialization scratch.
    pub fn retained_bytes(&self) -> (r: usize)
        requires
            retained_bytes_spec(self@) <= usize::MAX,
        ensures
            r == retained_bytes_spec(self@),
    {
        proof {
            use_type_invariant(self);
        }
        let tables = match self.convolution {
            None => 0,
            Some(m) => 8 * (self.n + m),
        };
        match self.workspace {
            None => tables,
            Some(w) => {
                let m = match self.convolution {
                    Some(m) => m,
                    None => 0,
                };
                tables + w.rows * m * if w.four_step { 16 } else { 8 }
            }
        }
    }

    /// Releases the workspace; the tables remain.
    pub fn clear_workspace(&mut self)
        ensures
            final(self)@ == (PlanState { workspace: None, ..old(self)@ }),
    {
        proof {
            use_type_invariant(&*self);
        }
        self.workspace = None;
    }

    fn prepare_workspace(&mut self, rows: usize) -> (r: Result<(), FftError>)
        requires
            old(self)@.convolution is Some,
        ensures
            (final(self)@, r) == prepare_workspace_spec(old(self)@, rows as nat),
    {
        proof {
            use_type_invariant(&*self);
        }
        if let Some(w) = self.workspace {
            if w.rows == rows {
                return Ok(());
            }
        }
        let m = match self.convolution {
            Some(m) => m,
            None => 0,
        };
        self.workspace = None;
        workspace_bytes(rows, m)?;
        workspace_bytes(rows, m)?;
        if m > MAX_SHARED_N_FFT {
            workspace_bytes(rows, m)?;
            workspace_bytes(rows, m)?;
        }
        self.workspace = Some(Workspace { rows, four_step: m > MAX_SHARED_N_FFT });
        Ok(())
    }

    fn transform(
        &mut self,
        mode: FftMode,
        signal: &BindingLayout,
        spec_re: &BindingLayout,
        spec_im: &BindingLayout,
        dim: usize,
        used: usize,
    ) -> (r: Result<TransformLaunch, FftError>)
        ensures
            (final(self)@, r) == transform_spec(old(self)@, mode, *signal, *spec_re, *spec_im, dim as nat, used as nat),
    {
        proof {
            use_type_invariant(&*self);
        }
        if self.mode != mode {
            return Err(
                match mode {
                    FftMode::Forward => FftError::ForwardOnInversePlan,
                    FftMode::Inverse => FftError::InverseOnForwardPlan,
                },
            );
        }
        let inverse = match mode {
            FftMode::Forward => false,
            FftMode::Inverse => true,
        };
        let rows = validate(signal, spec_re, spec_im, dim, self.n, used, inverse)?;
        proof {
            lemma_validated_rows_fit(*signal, *spec_re, *spec_im, dim as nat, self.n as nat, used as nat, inverse);
        }
        if rows == 0 {
            return Ok(TransformLaunch::Nothing);
        }
        if self.n == 1 {
            return Ok(TransformLaunch::SingleSample { rows });
        }
        let m = match self.convolution {
            None => return Ok(TransformLaunch::Radix2 { rows, used }),
            Some(m) => m,
        };
        self.prepare_workspace(rows)?;
        proof {
            use_type_invariant(&*self);
        }
        let outputs = if inverse { rows * self.n } else { rows * (self.n / 2 + 1) };
        let fft = self.convolution();
        Ok(TransformLaunch::Bluestein { rows, convolution: m, total: rows * m, fft, outputs })
    }

    /// The complex FFT of a convolution over the workspace: one `m`-point
    /// transform per workspace row, run forward and then inverse around the
    /// product with the chirp spectrum.
    fn convolution(&self) -> (r: CfftLaunch)
        requires
            self@.convolution is Some,
            self@.workspace is Some,
        ensures
            r == cfft_launch_spec(self@.workspace.unwrap().rows as nat, self@.convolution.unwrap() as nat),
    {
        proof {
            use_type_invariant(self);
            lemma_convolution_len_fits(self.n as nat);
        }
        let m = match self.convolution {
            Some(m) => m,
            None => 0,
        };
        let rows = match self.workspace {
            Some(w) => w.rows,
            None => 0,
        };
        let shape: Vec<usize> = vec![rows, m];
        proof {
            let s = shape@;
            assert(windows_below(s, 1, 1) == rows) by (nonlinear_arith)
                requires
                    windows_below(s, 1, 1) == windows_below(s, 1, 0) * (s[0] as nat),
                    windows_below(s, 1, 0) == 1,
                    s[0] == rows,
            ;
            assert(crate::launch::windows_fit(s, 1)) by {
                assert forall|k: nat| k <= s.len() implies #[trigger] windows_below(s, 1, k) <= usize::MAX by {}
            }
        }
        cfft_launch_any_size(&shape, 1)
    }

    /// Unnormalized `n`-point RFFT of `used` samples per row along `dim`
    /// (samples at `used..n` are zero): checks the bindings and reserves the
    /// workspace, and says which launches compute it.
    pub fn forward(
        &mut self,
        signal: &BindingLayout,
        spec_re: &BindingLayout,
        spec_im: &BindingLayout,
        dim: usize,
        used: usize,
    ) -> (r: Result<TransformLaunch, FftError>)
        ensures
            (final(self)@, r) == transform_spec(old(self)@, FftMode::Forward, *signal, *spec_re, *spec_im, dim as nat, used as nat),
    {
        self.transform(FftMode::Forward, signal, spec_re, spec_im, dim, used)
    }

    /// `n`-point IRFFT normalized by `1/n`, of `used` bins per row along
    /// `dim` (bins at `used..n/2+1` are zero; DC, and Nyquist for even `n`,
    /// are real-only): checks the bindings and reserves the workspace, and
    /// says which launches compute it.
    pub fn inverse(
        &mut self,
        spec_re: &BindingLayout,
        spec_im: &BindingLayout,
        signal: &BindingLayout,
        dim: usize,
        used: usize,
    ) -> (r: Result<TransformLaunch, FftError>)
        ensures
            (final(self)@, r) == transform_spec(old(self)@, FftMode::Inverse, *signal, *spec_re, *spec_im, dim as nat, used as nat),
    {
        self.transform(FftMode::Inverse, signal, spec_re, spec_im, dim, used)
    }
}

/// Validated rows times the signal or spectrum length stay within 32 bits.
proof fn lemma_validated_rows_fit(
    signal: BindingLayout,
    spec_re: BindingLayout,
    spec_im: BindingLayout,
    dim: nat,
    n: nat,
    used: nat,
    inverse: bool,
)
    requires
        validate_spec(signal, spec_re, spec_im, dim, n, used, inverse) is Ok,
    ensures
        ({
            let rows = validate_spec(signal, spec_re, spec_im, dim, n, used, inverse)->Ok_0 as nat;
            rows * n <= u32::MAX && rows * (n / 2 + 1) <= u32::MAX
        }),
{
    let rows = validate_spec(signal, spec_re, spec_im, dim, n, used, inverse)->Ok_0 as nat;
    let bins = n / 2 + 1;
    let widest = if n >= bins { n } else { bins };
    lemma_batch_rows_fit(signal.shape@, spec_re.shape@, dim, signal.shape@.len());
    assert(rows * n <= rows * widest) by (nonlinear_arith)
        requires
            n <= widest,
    ;
    assert(rows * bins <= rows * widest) by (nonlinear_arith)
        requires
            bins <= widest,
    ;
}

/// The Bluestein workspace holds a linear convolution of two `n`-point
/// sequences without wrap-around, and is no larger than needed: a power of
/// two `m` with `2n - 1 <= m < 2 (2n - 1)`. Power-of-two lengths skip it.
pub proof fn lemma_convolution_len_fits(n: nat)
    ensures
        convolution_len_spec(n) == Ok::<Option<usize>, FftError>(None) <==> (n > 0 && is_pow2(n)
            && n <= 2 * MAX_CONVOLUTION),
        convolution_len_spec(n) is Ok && convolution_len_spec(n)->Ok_0 is Some ==> {
            let m = convolution_len_spec(n)->Ok_0->Some_0 as nat;
            &&& !is_pow2(n)
            &&& is_pow2(m)
            &&& 2 * n - 1 <= m
            &&& m < 2 * (2 * n - 1)
            &&& m <= MAX_CONVOLUTION
        },
{
    if n > 0 && !is_pow2(n) {
        lemma_ceil_pow2_char((2 * n - 1) as nat, 0);
    }
}

/// Repeating a transform that succeeded, on the same bindings, finds the
/// plan as the first call left it: the workspace is reused, not regrown,
/// and the answer is the same.
pub proof fn lemma_transform_repeat(
    p: PlanState,
    mode: FftMode,
    signal: BindingLayout,
    spec_re: BindingLayout,
    spec_im: BindingLayout,
    dim: nat,
    used: nat,
)
    requires
        transform_spec(p, mode, signal, spec_re, spec_im, dim, used).1 is Ok,
    ensures
        ({
            let (q, r) = transform_spec(p, mode, signal, spec_re, spec_im, dim, used);
            transform_spec(q, mode, signal, spec_re, spec_im, dim, used) == (q, r)
                && retained_bytes_spec(q) == retained_bytes_spec(transform_spec(q, mode, signal, spec_re, spec_im, dim, used).0)
        }),
{
}

/// After a Bluestein transform over `rows` rows succeeded, the plan keeps
/// exactly one workspace, of `rows` rows, whatever workspace it had before:
/// the bytes it retains depend on the last batch only.
pub proof fn lemma_transform_workspace(
    p: PlanState,
    mode: FftMode,
    signal: BindingLayout,
    spec_re: BindingLayout,
    spec_im: BindingLayout,
    dim: nat,
    used: nat,
)
    requires
        plan_wf(p),
        transform_spec(p, mode, signal, spec_re, spec_im, dim, used).1 matches Ok(TransformLaunch::Bluestein { .. }),
    ensures
        ({
            let (q, r) = transform_spec(p, mode, signal, spec_re, spec_im, dim, used);
            let rows = r->Ok_0->Bluestein_rows;
            let m = p.convolution.unwrap() as nat;
            &&& q.workspace == Some(Workspace { rows, four_step: m > MAX_SHARED_N_FFT })
            &&& q.n == p.n && q.mode == p.mode && q.convolution == p.convolution
            &&& retained_bytes_spec(q) == 8 * (p.n as nat + m) + (rows as nat) * m * (if m > MAX_SHARED_N_FFT {
                16nat
            } else {
                8nat
            })
        }),
{
}

/// Releasing the workspace leaves only the tables: `8 (n + m)` bytes on
/// the Bluestein path, none on the power-of-two path.
pub proof fn lemma_cleared_plan_bytes(p: PlanState)
    ensures
        retained_bytes_spec(PlanState { workspace: None, ..p }) == (match p.convolution {
            Some(m) => 8 * (p.n as nat + m as nat),
            None => 0,
        }),
{
}

/// What any transform call leaves of a well-formed plan: the plan stays
/// well formed with its length, direction and tables; a Bluestein call
/// leaves exactly the workspace of its batch, so the retained bytes follow
/// that batch only; any other successful call leaves the plan as it was;
/// a failed call leaves it as it was or, when reserving the workspace
/// failed, without a workspace.
pub proof fn lemma_transform_outcomes(
    p: PlanState,
    mode: FftMode,
    signal: BindingLayout,
    spec_re: BindingLayout,
    spec_im: BindingLayout,
    dim: nat,
    used: nat,
)
    requires
        plan_wf(p),
    ensures
        ({
            let (q, r) = transform_spec(p, mode, signal, spec_re, spec_im, dim, used);
            &&& plan_wf(q)
            &&& q.n == p.n && q.mode == p.mode && q.convolution == p.convolution
            &&& r matches Ok(TransformLaunch::Bluestein { rows, .. }) ==> {
                let m = p.convolution.unwrap() as nat;
                retained_bytes_spec(q) == 8 * (p.n as nat + m) + (rows as nat) * m * (if m > MAX_SHARED_N_FFT {
                    16nat
                } else {
                    8nat
                })
            }
            &&& (r is Ok && !(r->Ok_0 is Bluestein)) ==> q == p
            &&& r is Err ==> (q == p || q == PlanState { workspace: None, ..p })
        }),
{
}

/// The bytes a well-formed plan retains stay below `2^37`: the tables hold
/// at most `2^25` values and the workspace at most `2^32` elements in four
/// buffers, so they fit a 64-bit `usize`.
pub proof fn lemma_retained_bytes_bound(p: PlanState)
    requires
        plan_wf(p),
    ensures
        retained_bytes_spec(p) < 0x20_0000_0000,
{
    if p.convolution is Some {
        let m = p.convolution.unwrap() as nat;
        lemma_convolution_len_fits(p.n as nat);
        assert(p.n < m);
        assert(m <= MAX_CONVOLUTION);
        if p.workspace is Some {
            let w = p.workspace.unwrap();
            assert((w.rows as nat) * m <= u32::MAX);
            assert((w.rows as nat) * m * (if w.four_step { 16nat } else { 8nat }) <= 16 * (u32::MAX as nat)) by (nonlinear_arith)
                requires
                    (w.rows as nat) * m <= u32::MAX,
            ;
        }
    }
}

/// The batch rows that validation counts are the windows of the signal
/// along `dim`, which are the spectrum's windows too.
proof fn lemma_batch_rows_windows(sig: Seq<usize>, re: Seq<usize>, dim: nat, k: nat)
    requires
        k <= sig.len(),
        k <= re.len(),
        batch_rows(sig, re, dim, k) is Ok,
    ensures
        batch_rows(sig, re, dim, k)->Ok_0 == windows_below(sig, dim, k),
        batch_rows(sig, re, dim, k)->Ok_0 == windows_below(re, dim, k),
        batch_rows(sig, re, dim, k)->Ok_0 <= usize::MAX,
    decreases k,
{
    if k > 0 {
        lemma_batch_rows_windows(sig, re, dim, (k - 1) as nat);
    }
}

/// A successful Bluestein transform covers its whole batch: its rows are
/// the signal's windows along `dim` (the product of its other axes), the
/// chirp passes run over `rows * m` workspace elements, and the finish
/// pass writes one output per element of every row: `rows * n` samples,
/// all the elements of the signal, for an inverse, and `rows * (n/2 + 1)`
/// bins, all the elements of each spectrum, for a forward.
pub proof fn lemma_transform_covers_batch(
    p: PlanState,
    mode: FftMode,
    signal: BindingLayout,
    spec_re: BindingLayout,
    spec_im: BindingLayout,
    dim: nat,
    used: nat,
)
    requires
        plan_wf(p),
        transform_spec(p, mode, signal, spec_re, spec_im, dim, used).1 matches Ok(TransformLaunch::Bluestein { .. }),
    ensures
        ({
            let r = transform_spec(p, mode, signal, spec_re, spec_im, dim, used).1->Ok_0;
            let rows = r->Bluestein_rows as nat;
            &&& rows == windows(signal.shape@, dim)
            &&& r->Bluestein_convolution == p.convolution.unwrap()
            &&& r->Bluestein_total == rows * (r->Bluestein_convolution as nat)
            &&& mode == FftMode::Inverse ==> r->Bluestein_outputs == rows * (p.n as nat)
                && r->Bluestein_outputs == tail_product(signal.shape@, 0)
            &&& mode == FftMode::Forward ==> r->Bluestein_outputs == rows * (p.n as nat / 2 + 1)
                && r->Bluestein_outputs == tail_product(spec_re.shape@, 0)
        }),
{
    let inverse = mode == FftMode::Inverse;
    let sig = signal.shape@;
    let re = spec_re.shape@;
    let v = validate_spec(signal, spec_re, spec_im, dim, p.n as nat, used, inverse);
    let rows = batch_rows(sig, re, dim, sig.len())->Ok_0;
    lemma_batch_rows_windows(sig, re, dim, sig.len());
    assert(v->Ok_0 as nat == rows);
    lemma_windows_elements(sig, dim);
    lemma_windows_elements(re, dim);
    assert(re.len() == sig.len());
    let m = p.convolution.unwrap() as nat;
    let (q, prepared) = prepare_workspace_spec(p, rows);
    assert(prepared is Ok);
    assert(rows * m <= u32::MAX);
    let bins = p.n as nat / 2 + 1;
    let widest = if p.n as nat >= bins { p.n as nat } else { bins };
    assert(rows * widest <= u32::MAX);
    assert(rows * (p.n as nat) <= rows * widest) by (nonlinear_arith)
        requires
            p.n as nat <= widest,
    ;
    assert(rows * bins <= rows * widest) by (nonlinear_arith)
        requires
            bins <= widest,
    ;
    if inverse {
        assert(sig[dim as int] == p.n);
    } else {
        assert(re[dim as int] == bins);
    }
}

} // verus!
