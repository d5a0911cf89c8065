//! Lengths and shapes of the tensor-level transforms.
//!
//! `rfft` and `irfft` are the legacy interface: the requested length is
//! rounded up to a power of two, and the inverse crops back to the request.
//! `rfft_exact` and `irfft_exact` transform exactly the requested length.
use vstd::prelude::*;
use crate::error::FftError;
use crate::exact::{RealFftPlan, PlanState, TransformLaunch, convolution_len_spec, transform_spec, FftMode};
use crate::launch::with_axis;
use crate::layout::{BindingLayout, contiguous_layout, contiguous_layout_of, layout_fits};
use crate::pow2::{ceil_pow2, checked_next_power_of_two};

verus! {

/// How a tensor-level forward transform runs: the transform `length`, the
/// `used` samples read per row, the axis it runs along (a rank-one signal
/// runs as one row of a rank-two tensor, along axis 1), the shape of the
/// returned spectra, the bindings handed to the plan (the contiguous signal
/// and the freshly allocated spectra, at the launch rank), the plan after
/// the call, and the call's answer.
pub struct ForwardShapePlan {
    pub length: usize,
    pub used: usize,
    pub launch_dim: usize,
    pub rank_one: bool,
    pub spectrum_shape: Vec<usize>,
    pub signal_layout: BindingLayout,
    pub spectrum_layout: BindingLayout,
    pub plan: RealFftPlan,
    pub launch: Result<TransformLaunch, FftError>,
}

/// How a tensor-level inverse transform runs: the transform `length`, the
/// `used` bins read per row, the axis it runs along, the shape it computes
/// (`length` points along the axis), the shape it returns (cropped to the
/// requested length), the bindings handed to the plan (the contiguous
/// spectra and the freshly allocated output, at the launch rank), the plan
/// after the call, and the call's answer.
pub struct InverseShapePlan {
    pub length: usize,
    pub used: usize,
    pub launch_dim: usize,
    pub rank_one: bool,
    pub transform_shape: Vec<usize>,
    pub result_shape: Vec<usize>,
    pub spectrum_layout: BindingLayout,
    pub output_layout: BindingLayout,
    pub plan: RealFftPlan,
    pub launch: Result<TransformLaunch, FftError>,
}

/// The shape a transform launches on: a rank-one tensor runs as one row of
/// a rank-two tensor.
pub open spec fn launch_shape(shape: Seq<usize>) -> Seq<usize> {
    if shape.len() == 1 {
        seq![1usize, shape[0]]
    } else {
        shape
    }
}

/// The axis a transform along `dim` launches on.
pub open spec fn launch_axis(shape: Seq<usize>, dim: nat) -> nat {
    if shape.len() == 1 {
        1
    } else {
        dim
    }
}

/// The transform length for a requested length: itself when exact, else the
/// next power of two.
pub open spec fn transform_length(requested: nat, exact: bool) -> nat {
    if exact { requested } else { ceil_pow2(requested) }
}

/// Whether a forward transform of `shape` along `dim` with requested length
/// `n` (the axis length when `None`) runs: a positive request (at least two
/// points on the legacy interface) whose transform length fits in `usize`
/// and has a plan, and tensors whose sizes fit.
pub open spec fn forward_accepts(shape: Seq<usize>, dim: nat, n: Option<usize>, exact: bool) -> bool {
    let requested = match n { Some(v) => v as nat, None => shape[dim as int] as nat };
    &&& dim < shape.len()
    &&& requested > 0
    &&& !exact ==> requested >= 2
    &&& transform_length(requested, exact) <= usize::MAX
    &&& convolution_len_spec(transform_length(requested, exact)) is Ok
    &&& layout_fits(launch_shape(shape))
    &&& layout_fits(
        launch_shape(shape).update(launch_axis(shape, dim) as int, (transform_length(requested, exact) / 2 + 1) as usize),
    )
}

/// What a forward transform plans.
pub open spec fn forward_plan_holds(p: ForwardShapePlan, shape: Seq<usize>, dim: nat, n: Option<usize>, exact: bool) -> bool {
    let requested = match n { Some(v) => v as nat, None => shape[dim as int] as nat };
    let length = transform_length(requested, exact);
    &&& p.length == length
    &&& p.used == (if requested <= shape[dim as int] { requested } else { shape[dim as int] as nat })
    &&& p.rank_one == (shape.len() == 1)
    &&& p.launch_dim == (if shape.len() == 1 { 1 } else { dim })
    &&& p.spectrum_shape@ == shape.update(dim as int, (length / 2 + 1) as usize)
    &&& contiguous_layout_of(p.signal_layout, launch_shape(shape))
    &&& contiguous_layout_of(
        p.spectrum_layout,
        launch_shape(shape).update(p.launch_dim as int, (length / 2 + 1) as usize),
    )
    &&& (p.plan@, p.launch) == transform_spec(
        fresh_plan(length, FftMode::Forward),
        FftMode::Forward,
        p.signal_layout,
        p.spectrum_layout,
        p.spectrum_layout,
        p.launch_dim as nat,
        p.used as nat,
    )
}

/// A new plan of `length` points in direction `mode`.
pub open spec fn fresh_plan(length: nat, mode: FftMode) -> PlanState {
    PlanState {
        n: length as usize,
        mode,
        convolution: convolution_len_spec(length)->Ok_0,
        workspace: None,
    }
}

fn forward(shape: &Vec<usize>, dim: usize, n: Option<usize>, exact: bool) -> (r: ForwardShapePlan)
    requires
        forward_accepts(shape@, dim as nat, n, exact),
    ensures
        forward_plan_holds(r, shape@, dim as nat, n, exact),
{
    let requested = match n {
        Some(v) => v,
        None => shape[dim],
    };
    let length = if exact {
        requested
    } else {
        match checked_next_power_of_two(requested) {
            Some(v) => v,
            None => {
                requested
            },
        }
    };
    let used = if requested <= shape[dim] { requested } else { shape[dim] };
    let rank_one = shape.len() == 1;
    let launch_dim = if rank_one { 1 } else { dim };
    let signal_shape = if rank_one { vec![1, shape[0]] } else { with_axis(shape, dim, shape[dim]) };
    proof {
        assert(signal_shape@ =~= launch_shape(shape@));
    }
    let spectrum_launch_shape = with_axis(&signal_shape, launch_dim, length / 2 + 1);
    let signal_layout = contiguous_layout(&signal_shape);
    let spectrum_layout = contiguous_layout(&spectrum_launch_shape);
    let mut plan = match RealFftPlan::new(length, FftMode::Forward) {
        Ok(p) => p,
        Err(_) => {
            vstd::pervasive::unreached()
        },
    };
    let spectrum_shape = with_axis(shape, dim, length / 2 + 1);
    let launch = plan.forward(&signal_layout, &spectrum_layout, &spectrum_layout, launch_dim, used);
    ForwardShapePlan {
        length,
        used,
        launch_dim,
        rank_one,
        spectrum_shape,
        signal_layout,
        spectrum_layout,
        plan,
        launch,
    }
}

/// Legacy forward transform: the requested length (the axis length when
/// `None`) is rounded up to a power of two; samples past the request are
/// dropped and the tail up to the length is zero.
pub fn rfft(shape: &Vec<usize>, dim: usize, n: Option<usize>) -> (r: ForwardShapePlan)
    requires
        forward_accepts(shape@, dim as nat, n, false),
    ensures
        forward_plan_holds(r, shape@, dim as nat, n, false),
{
    forward(shape, dim, n, false)
}

/// Exact `N`-point forward transform, `N` the requested length (the axis
/// length when `None`), returning `floor(N/2) + 1` bins.
pub fn rfft_exact(shape: &Vec<usize>, dim: usize, n: Option<usize>) -> (r: ForwardShapePlan)
    requires
        forward_accepts(shape@, dim as nat, n, true),
    ensures
        forward_plan_holds(r, shape@, dim as nat, n, true),
{
    forward(shape, dim, n, true)
}

/// Whether an inverse transform of spectra shaped `re` and `im` along `dim`
/// with requested length `n` runs: equal shapes, at least one bin, a
/// positive request (the default `2 (bins - 1)`; at least two points on the
/// legacy interface), a transform length that fits and has a plan, and
/// tensors whose sizes fit.
pub open spec fn inverse_accepts(re: Seq<usize>, im: Seq<usize>, dim: nat, n: Option<usize>, exact: bool) -> bool {
    let bins = re[dim as int] as nat;
    let requested = match n { Some(v) => v as nat, None => (2 * (bins - 1)) as nat };
    &&& re == im
    &&& dim < re.len()
    &&& bins > 0
    &&& 2 * (bins - 1) <= usize::MAX
    &&& requested > 0
    &&& !exact ==> requested >= 2
    &&& transform_length(requested, exact) <= usize::MAX
    &&& convolution_len_spec(transform_length(requested, exact)) is Ok
    &&& layout_fits(launch_shape(re))
    &&& layout_fits(launch_shape(re).update(launch_axis(re, dim) as int, transform_length(requested, exact) as usize))
}

/// What an inverse transform plans.
pub open spec fn inverse_plan_holds(p: InverseShapePlan, re: Seq<usize>, dim: nat, n: Option<usize>, exact: bool) -> bool {
    let bins = re[dim as int] as nat;
    let requested = match n { Some(v) => v as nat, None => (2 * (bins - 1)) as nat };
    let length = transform_length(requested, exact);
    &&& p.length == length
    &&& p.used == (if bins <= length / 2 + 1 { bins } else { length / 2 + 1 })
    &&& p.rank_one == (re.len() == 1)
    &&& p.launch_dim == (if re.len() == 1 { 1 } else { dim })
    &&& p.transform_shape@ == re.update(dim as int, length as usize)
    &&& p.result_shape@ == re.update(dim as int, requested as usize)
    &&& contiguous_layout_of(p.spectrum_layout, launch_shape(re))
    &&& contiguous_layout_of(p.output_layout, launch_shape(re).update(p.launch_dim as int, length as usize))
    &&& (p.plan@, p.launch) == transform_spec(
        fresh_plan(length, FftMode::Inverse),
        FftMode::Inverse,
        p.output_layout,
        p.spectrum_layout,
        p.spectrum_layout,
        p.launch_dim as nat,
        p.used as nat,
    )
}

fn inverse(re: &Vec<usize>, im: &Vec<usize>, dim: usize, n: Option<usize>, exact: bool) -> (r: InverseShapePlan)
    requires
        inverse_accepts(re@, im@, dim as nat, n, exact),
    ensures
        inverse_plan_holds(r, re@, dim as nat, n, exact),
{
    let bins = re[dim];
    let inferred = (bins - 1) * 2;
    let requested = match n {
        Some(v) => v,
        None => inferred,
    };
    let length = if exact {
        requested
    } else {
        match checked_next_power_of_two(requested) {
            Some(v) => v,
            None => {
                requested
            },
        }
    };
    let used = if bins <= length / 2 + 1 { bins } else { length / 2 + 1 };
    let rank_one = re.len() == 1;
    let launch_dim = if rank_one { 1 } else { dim };
    let spectrum_shape = if rank_one { vec![1, re[0]] } else { with_axis(re, dim, re[dim]) };
    proof {
        assert(spectrum_shape@ =~= launch_shape(re@));
    }
    let output_shape = with_axis(&spectrum_shape, launch_dim, length);
    let spectrum_layout = contiguous_layout(&spectrum_shape);
    let output_layout = contiguous_layout(&output_shape);
    let mut plan = match RealFftPlan::new(length, FftMode::Inverse) {
        Ok(p) => p,
        Err(_) => {
            vstd::pervasive::unreached()
        },
    };
    let transform_shape = with_axis(re, dim, length);
    let result_shape = with_axis(re, dim, requested);
    let launch = plan.inverse(&spectrum_layout, &spectrum_layout, &output_layout, launch_dim, used);
    InverseShapePlan {
        length,
        used,
        launch_dim,
        rank_one,
        transform_shape,
        result_shape,
        spectrum_layout,
        output_layout,
        plan,
        launch,
    }
}

/// Legacy inverse transform: the next-power-of-two inverse, cropped to the
/// requested length (`2 (bins - 1)` when `None`).
pub fn irfft(re: &Vec<usize>, im: &Vec<usize>, dim: usize, n: Option<usize>) -> (r: InverseShapePlan)
    requires
        inverse_accepts(re@, im@, dim as nat, n, false),
    ensures
        inverse_plan_holds(r, re@, dim as nat, n, false),
{
    inverse(re, im, dim, n, false)
}

/// Exact normalized `N`-point inverse transform, `N` the requested length
/// (`2 (bins - 1)` when `None`; pass `Some(N)` for odd `N`).
pub fn irfft_exact(re: &Vec<usize>, im: &Vec<usize>, dim: usize, n: Option<usize>) -> (r: InverseShapePlan)
    requires
        inverse_accepts(re@, im@, dim as nat, n, true),
    ensures
        inverse_plan_holds(r, re@, dim as nat, n, true),
{
    inverse(re, im, dim, n, true)
}

/// A round trip keeps the shape: the inverse of a forward transform's
/// spectra, asked for the input's length along `dim`, runs at the forward
/// transform's length, reads every bin the forward wrote, and returns the
/// input's shape (cropping the padding of the legacy interface).
pub proof fn lemma_roundtrip_shape(
    shape: Seq<usize>,
    dim: nat,
    exact: bool,
    forward_plan: ForwardShapePlan,
    inverse_plan: InverseShapePlan,
)
    requires
        dim < shape.len(),
        shape[dim as int] > 0,
        forward_plan_holds(forward_plan, shape, dim, None, exact),
        inverse_plan_holds(inverse_plan, forward_plan.spectrum_shape@, dim, Some(shape[dim as int]), exact),
    ensures
        inverse_plan.result_shape@ == shape,
        inverse_plan.length == forward_plan.length,
        inverse_plan.used == forward_plan.length / 2 + 1,
{
}

} // verus!
