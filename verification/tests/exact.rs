// The exact-length suite at plan level: each case checks what the plan
// validates, which launches it asks for, and the bytes it keeps. The
// transforms' values need a device and are not compared here.
use rufft::error::FftError;
use rufft::exact::{
    exact_convolution_len, workspace_bytes, FftMode, RealFftPlan, TransformLaunch, MAX_CONVOLUTION,
};
use rufft::blocks::irfft_kernel;
use rufft::chirp::{prepare_inverse, BinRead, ImagRead};
use rufft::launch::{cfft_launch_any_size, units_per_block, BlockFft, CfftLaunch, FourStepPlan};
use rufft::rfft_large::{irfft_fused_kernel, PreKind};
use rufft::layout::BindingLayout;

fn contiguous(shape: &[usize]) -> BindingLayout {
    let mut strides = vec![1usize; shape.len()];
    for d in (0..shape.len().saturating_sub(1)).rev() {
        strides[d] = strides[d + 1] * shape[d + 1];
    }
    let elements: usize = shape.iter().product();
    BindingLayout {
        shape: shape.to_vec(),
        strides,
        buffer_size: (elements * 4) as u64,
        offset_start: None,
        offset_end: None,
    }
}

/// The plan-side checks of a forward and inverse exact transform: both
/// validate, a repeated forward keeps the retained bytes, and a cleared
/// plan keeps only its tables.
fn case(shape: &[usize], dim: usize, n: usize, used: usize) {
    let mut spec_shape = shape.to_vec();
    spec_shape[dim] = n / 2 + 1;
    let mut out_shape = shape.to_vec();
    out_shape[dim] = n;
    let input = contiguous(shape);
    let re = contiguous(&spec_shape);
    let im = contiguous(&spec_shape);
    let restored = contiguous(&out_shape);
    let mut forward = RealFftPlan::new(n, FftMode::Forward).unwrap();
    let mut inverse = RealFftPlan::new(n, FftMode::Inverse).unwrap();
    forward.forward(&input, &re, &im, dim, used).unwrap();
    inverse.inverse(&re, &im, &restored, dim, n / 2 + 1).unwrap();
    let retained = forward.retained_bytes();
    forward.forward(&input, &re, &im, dim, used).unwrap();
    assert_eq!(forward.retained_bytes(), retained);
    forward.clear_workspace();
    if let Some(m) = forward.convolution_len() {
        assert_eq!(forward.retained_bytes(), 8 * (n + m));
    }
}

#[test]
fn exact_plan_length_limits() {
    for n in [1, 2, 4, 1024, 8192] {
        assert_eq!(exact_convolution_len(n).unwrap(), None);
    }
    for (n, m) in [(3, 8), (6, 16), (7, 16), (1009, 2048), (4097, 16384)] {
        assert_eq!(exact_convolution_len(n).unwrap(), Some(m));
    }
    assert!(exact_convolution_len(0).is_err());
    assert!(exact_convolution_len(usize::MAX).is_err());
    assert!(exact_convolution_len(MAX_CONVOLUTION).is_ok());
    assert!(exact_convolution_len(MAX_CONVOLUTION - 1).is_err());
}

#[test]
fn exact_fft_six_points() {
    case(&[6], 0, 6, 6);
}

#[test]
fn exact_fft_odd_prime() {
    case(&[3, 7], 1, 7, 7);
}

#[test]
fn exact_fft_middle_dimension() {
    case(&[2, 6, 3], 1, 6, 6);
}

#[test]
fn exact_fft_truncation() {
    case(&[2, 20], 1, 11, 11);
}

#[test]
fn exact_fft_virtual_padding() {
    case(&[2, 5], 1, 13, 5);
}

#[test]
fn exact_fft_empty_source() {
    case(&[2, 0], 1, 7, 0);
}

#[test]
fn exact_fft_single_sample() {
    case(&[3, 1], 1, 1, 1);
}

#[test]
fn exact_fft_empty_single_sample() {
    case(&[2, 0], 1, 1, 0);
}

#[test]
fn exact_fft_radix2_padding() {
    case(&[2, 5], 1, 8, 5);
}

#[test]
fn exact_fft_radix2_empty() {
    case(&[2, 0], 1, 8, 0);
}

#[test]
fn exact_fft_radix2_packed_empty() {
    case(&[1, 0], 1, 8192, 0);
}

#[test]
fn exact_fft_radix2_four_step_empty() {
    case(&[1, 0], 1, 16384, 0);
}

#[test]
fn exact_fft_large_prime() {
    case(&[2, 1009], 1, 1009, 1009);
}

#[test]
fn exact_fft_four_step_convolution() {
    case(&[1, 4097], 1, 4097, 4097);
}

#[test]
fn exact_fft_irfft_real_only_bins() {
    for n in [1, 6, 7, 8, 8192] {
        let bins = n / 2 + 1;
        let re = contiguous(&[1, bins]);
        let im = contiguous(&[1, bins]);
        let out = contiguous(&[1, n]);
        let mut plan = RealFftPlan::new(n, FftMode::Inverse).unwrap();
        let launch = plan.inverse(&re, &im, &out, 1, bins).unwrap();
        let expected = if n == 1 {
            TransformLaunch::SingleSample { rows: 1 }
        } else if n.is_power_of_two() {
            TransformLaunch::Radix2 { rows: 1, used: bins }
        } else {
            let m = exact_convolution_len(n).unwrap().unwrap();
            let fft = cfft_launch_any_size(&vec![1, m], 1);
            TransformLaunch::Bluestein { rows: 1, convolution: m, total: m, fft, outputs: n }
        };
        assert_eq!(launch, expected);
        // DC, and Nyquist for even n, never read their imaginary part.
        match launch {
            TransformLaunch::Radix2 { .. } if n <= 4096 => {
                let task = irfft_kernel(0, 1, 0, units_per_block(n), n, n.trailing_zeros(), bins).unwrap();
                assert_eq!(task.loads[0].bin, Some(0));
                assert_eq!(task.loads[0].imag, ImagRead::Zero);
                assert_eq!(task.loads[1].bin, Some(n / 2));
                assert_eq!(task.loads[1].imag, ImagRead::Zero);
            }
            TransformLaunch::Radix2 { .. } => {
                let m = n / 2;
                let task = irfft_fused_kernel(0, 1, 0, units_per_block(m), m, m.trailing_zeros(), bins).unwrap();
                assert_eq!(task.loads[0].kind, PreKind::Dc { nyquist: Some(m) });
            }
            TransformLaunch::Bluestein { convolution, .. } => {
                let dc = prepare_inverse(0, convolution, bins, n, convolution).unwrap();
                assert_eq!(dc.read, Some(BinRead { bin: 0, imag: ImagRead::Zero }));
                let middle = prepare_inverse(n / 2, convolution, bins, n, convolution).unwrap();
                let kind = if n % 2 == 0 { ImagRead::Zero } else { ImagRead::Plain };
                assert_eq!(middle.read, Some(BinRead { bin: n / 2, imag: kind }));
            }
            _ => {}
        }
    }
}

#[test]
fn exact_fft_tensor_api_preserves_legacy_shape() {
    let x = vec![6usize];
    let forward = rufft::tensor::rfft_exact(&x, 0, None);
    assert_eq!(forward.spectrum_shape[0], 4);
    let re = forward.spectrum_shape.clone();
    let back = rufft::tensor::irfft_exact(&re, &re, 0, Some(6));
    assert_eq!(back.result_shape, vec![6]);
    let legacy = rufft::tensor::rfft(&x, 0, None);
    assert_eq!(legacy.spectrum_shape[0], 5);
}

#[test]
fn plan_new_reports_length_errors() {
    assert_eq!(RealFftPlan::new(0, FftMode::Forward).err(), Some(FftError::ZeroLength));
    assert_eq!(
        RealFftPlan::new(MAX_CONVOLUTION * 4, FftMode::Forward).err(),
        Some(FftError::Radix2LimitExceeded)
    );
    assert_eq!(
        RealFftPlan::new(MAX_CONVOLUTION - 1, FftMode::Inverse).err(),
        Some(FftError::ConvolutionLimitExceeded)
    );
    let plan = RealFftPlan::new(6, FftMode::Forward).unwrap();
    assert_eq!(plan.len(), 6);
    assert!(!plan.is_empty());
    assert_eq!(plan.convolution_len(), Some(16));
    assert_eq!(plan.retained_bytes(), 8 * (6 + 16));
}

#[test]
fn plan_direction_is_checked() {
    let input = contiguous(&[6]);
    let spec = contiguous(&[4]);
    let mut plan = RealFftPlan::new(6, FftMode::Inverse).unwrap();
    assert_eq!(plan.forward(&input, &spec, &spec, 0, 6), Err(FftError::ForwardOnInversePlan));
    let mut plan = RealFftPlan::new(6, FftMode::Forward).unwrap();
    assert_eq!(plan.inverse(&spec, &spec, &input, 0, 4), Err(FftError::InverseOnForwardPlan));
}

#[test]
fn bluestein_workspace_follows_rows() {
    let mut plan = RealFftPlan::new(7, FftMode::Forward).unwrap();
    let launch = plan
        .forward(&contiguous(&[3, 7]), &contiguous(&[3, 4]), &contiguous(&[3, 4]), 1, 7)
        .unwrap();
    assert_eq!(
        launch,
        TransformLaunch::Bluestein {
            rows: 3,
            convolution: 16,
            total: 48,
            fft: CfftLaunch::Shared(BlockFft { blocks: 3, units: 8, n_fft: 16, log2_n: 4 }),
            outputs: 12,
        }
    );
    assert_eq!(plan.retained_bytes(), 8 * (7 + 16) + 3 * 16 * 8);
    plan.forward(&contiguous(&[5, 7]), &contiguous(&[5, 4]), &contiguous(&[5, 4]), 1, 7)
        .unwrap();
    assert_eq!(plan.retained_bytes(), 8 * (7 + 16) + 5 * 16 * 8);
    let state = plan.state();
    assert_eq!(state.workspace.unwrap().rows, 5);
    assert!(!state.workspace.unwrap().four_step);
}

#[test]
fn four_step_workspace_doubles() {
    let mut plan = RealFftPlan::new(4097, FftMode::Forward).unwrap();
    let launch = plan
        .forward(&contiguous(&[1, 4097]), &contiguous(&[1, 2049]), &contiguous(&[1, 2049]), 1, 4097)
        .unwrap();
    let block = BlockFft { blocks: 128, units: 64, n_fft: 128, log2_n: 7 };
    assert_eq!(
        launch,
        TransformLaunch::Bluestein {
            rows: 1,
            convolution: 16384,
            total: 16384,
            fft: CfftLaunch::FourStep(FourStepPlan {
                n1: 128,
                n2: 128,
                columns: block,
                rows: block,
                transpose_total: 16384,
            }),
            outputs: 2049,
        }
    );
    assert_eq!(plan.retained_bytes(), 8 * (4097 + 16384) + 16384 * 16);
}

#[test]
fn empty_batch_launches_nothing() {
    let mut plan = RealFftPlan::new(7, FftMode::Forward).unwrap();
    let launch = plan
        .forward(&contiguous(&[0, 7]), &contiguous(&[0, 4]), &contiguous(&[0, 4]), 1, 7)
        .unwrap();
    assert_eq!(launch, TransformLaunch::Nothing);
    assert_eq!(plan.state().workspace, None);
}

#[test]
fn workspace_bytes_limits() {
    assert_eq!(workspace_bytes(3, 16), Ok(192));
    assert_eq!(workspace_bytes(1 << 16, 1 << 16), Err(FftError::WorkspaceIndexing));
    assert_eq!(workspace_bytes(usize::MAX, 2), Err(FftError::WorkspaceIndexing));
}

#[test]
fn mode_signs() {
    assert_eq!(FftMode::Forward.sign(), -1);
    assert_eq!(FftMode::Inverse.sign(), 1);
}

#[test]
fn failed_reservation_drops_the_workspace() {
    let mut plan = RealFftPlan::new(7, FftMode::Forward).unwrap();
    plan.forward(&contiguous(&[3, 7]), &contiguous(&[3, 4]), &contiguous(&[3, 4]), 1, 7)
        .unwrap();
    assert_eq!(plan.retained_bytes(), 8 * (7 + 16) + 3 * 16 * 8);
    // 2^29 rows pass validation (2^29 * 7 elements fit 32-bit indexing) but
    // their 16-point workspace does not.
    let rows = 1usize << 29;
    let r = plan.forward(&contiguous(&[rows, 7]), &contiguous(&[rows, 4]), &contiguous(&[rows, 4]), 1, 7);
    assert_eq!(r, Err(FftError::WorkspaceIndexing));
    assert_eq!(plan.state().workspace, None);
    assert_eq!(plan.retained_bytes(), 8 * (7 + 16));
    // A call refused before reserving leaves the plan as it was.
    plan.forward(&contiguous(&[5, 7]), &contiguous(&[5, 4]), &contiguous(&[5, 4]), 1, 7)
        .unwrap();
    let r = plan.forward(&contiguous(&[5, 7]), &contiguous(&[5, 5]), &contiguous(&[5, 5]), 1, 7);
    assert_eq!(r, Err(FftError::LengthMismatch));
    assert_eq!(plan.retained_bytes(), 8 * (7 + 16) + 5 * 16 * 8);
}
