use rufft::error::FftError;
use rufft::host::{
    contiguous_stride, interleave, irfft_host_plan, load_spectrum, pack_fiber, rfft_host_plan,
    twiddle_offsets, HostInversePlan,
};
use rufft::launch::{
    cfft_launch_any_size, checked_window_count, irfft_launch, irfft_launch_padded,
    irfft_launch_padded_accepts, irfft_large_launch, irfft_signal_shape, rfft_large_launch,
    units_per_block, window_count, with_axis, BlockFft, CfftLaunch, FourStepPlan, FusedLaunch,
    IrfftLaunch, LargeLaunch,
};
use rufft::exact::TransformLaunch;
use rufft::layout::{check_binding, check_output_layout, contiguous_layout, validate, BindingLayout};
use rufft::tensor::{irfft, irfft_exact, rfft, rfft_exact};

fn binding(shape: &[usize], strides: &[usize], buffer_size: u64) -> BindingLayout {
    BindingLayout {
        shape: shape.to_vec(),
        strides: strides.to_vec(),
        buffer_size,
        offset_start: None,
        offset_end: None,
    }
}

#[test]
fn binding_checks() {
    assert_eq!(check_binding(&binding(&[2, 3], &[3, 1], 24)), Ok(()));
    assert_eq!(check_binding(&binding(&[], &[], 24)), Err(FftError::MalformedTensor));
    assert_eq!(check_binding(&binding(&[2, 3], &[1], 24)), Err(FftError::MalformedTensor));
    assert_eq!(check_binding(&binding(&[2, 0], &[usize::MAX, 1], 0)), Ok(()));
    assert_eq!(check_binding(&binding(&[2, 3], &[3, 1], 20)), Err(FftError::StridesExceedBuffer));
    assert_eq!(
        check_binding(&binding(&[2, 3], &[usize::MAX, 1], 24)),
        Err(FftError::SpanOverflow)
    );
    assert_eq!(check_binding(&binding(&[2], &[1 << 32], 24)), Err(FftError::SpanOverflow));
    let mut b = binding(&[2, 3], &[3, 1], 24);
    b.offset_start = Some(16);
    b.offset_end = Some(16);
    assert_eq!(check_binding(&b), Err(FftError::InvalidOffsets));
    b.offset_end = Some(4);
    assert_eq!(check_binding(&b), Err(FftError::StridesExceedBuffer));
    b.offset_start = Some(0);
    b.offset_end = Some(0);
    assert_eq!(check_binding(&b), Ok(()));
}

#[test]
fn output_layouts() {
    assert_eq!(check_output_layout(&binding(&[2, 3], &[3, 1], 24)), Ok(()));
    // A transposed (permuted) dense layout.
    assert_eq!(check_output_layout(&binding(&[2, 3], &[1, 2], 24)), Ok(()));
    // A pitched layout with padding between rows.
    assert_eq!(check_output_layout(&binding(&[2, 3], &[8, 1], 64)), Ok(()));
    // Broadcast rows share elements.
    assert_eq!(
        check_output_layout(&binding(&[2, 3], &[0, 1], 24)),
        Err(FftError::OverlappingOutput)
    );
    assert_eq!(
        check_output_layout(&binding(&[2, 3], &[2, 1], 24)),
        Err(FftError::OverlappingOutput)
    );
    // Axes of size one take no part.
    assert_eq!(check_output_layout(&binding(&[1, 3], &[0, 1], 24)), Ok(()));
    assert_eq!(
        check_output_layout(&binding(&[3, 2], &[usize::MAX / 2 + 1, 1], 24)),
        Err(FftError::LayoutOverflow)
    );
}

#[test]
fn validation_order() {
    let sig = binding(&[2, 8], &[8, 1], 64);
    let spec = binding(&[2, 5], &[5, 1], 40);
    assert_eq!(validate(&sig, &spec, &spec, 1, 8, 8, false), Ok(2));
    assert_eq!(validate(&sig, &spec, &spec, 2, 8, 8, false), Err(FftError::InvalidDimension));
    assert_eq!(validate(&sig, &spec, &spec, 1, 6, 6, false), Err(FftError::LengthMismatch));
    assert_eq!(validate(&sig, &spec, &spec, 1, 8, 9, false), Err(FftError::LengthMismatch));
    assert_eq!(validate(&sig, &spec, &spec, 1, 8, 5, true), Ok(2));
    assert_eq!(validate(&sig, &spec, &spec, 1, 8, 0, true), Err(FftError::LengthMismatch));
    assert_eq!(validate(&sig, &spec, &spec, 1, 8, 6, true), Err(FftError::LengthMismatch));
    let other = binding(&[3, 5], &[5, 1], 60);
    assert_eq!(validate(&sig, &other, &other, 1, 8, 8, false), Err(FftError::BatchShapeMismatch));
    let short = binding(&[2, 5], &[5, 1], 4);
    assert_eq!(validate(&sig, &short, &spec, 1, 8, 8, false), Err(FftError::StridesExceedBuffer));
    let shared = binding(&[2, 5], &[0, 1], 40);
    assert_eq!(validate(&sig, &spec, &shared, 1, 8, 8, false), Err(FftError::OverlappingOutput));
    // The signal is read, not written: a broadcast signal is accepted.
    let broadcast = binding(&[2, 8], &[0, 1], 32);
    assert_eq!(validate(&broadcast, &spec, &spec, 1, 8, 8, false), Ok(2));
    assert_eq!(validate(&broadcast, &spec, &spec, 1, 8, 5, true), Err(FftError::OverlappingOutput));
}

#[test]
fn windows_and_units() {
    assert_eq!(window_count(&vec![2, 3, 8], 2), 6);
    assert_eq!(window_count(&vec![2, 3, 8], 0), 24);
    assert_eq!(checked_window_count(&vec![usize::MAX, 2, 8], 2), None);
    assert_eq!(checked_window_count(&vec![4, 0, 8], 2), Some(0));
    assert_eq!(units_per_block(1), 1);
    assert_eq!(units_per_block(64), 32);
    assert_eq!(units_per_block(8192), 256);
    assert_eq!(with_axis(&vec![2, 3, 8], 1, 5), vec![2, 5, 8]);
}

#[test]
fn cfft_plans() {
    assert_eq!(
        cfft_launch_any_size(&vec![3, 1024], 1),
        CfftLaunch::Shared(BlockFft { blocks: 3, units: 256, n_fft: 1024, log2_n: 10 })
    );
    assert_eq!(cfft_launch_any_size(&vec![0, 1024], 1), CfftLaunch::Nothing);
    assert_eq!(
        cfft_launch_any_size(&vec![3, 8192], 1),
        CfftLaunch::FourStep(FourStepPlan {
            n1: 64,
            n2: 128,
            columns: BlockFft { blocks: 384, units: 32, n_fft: 64, log2_n: 6 },
            rows: BlockFft { blocks: 192, units: 64, n_fft: 128, log2_n: 7 },
            transpose_total: 3 * 8192,
        })
    );
}

#[test]
fn large_real_plans() {
    // n_fft = 8192: packed m = 4096 fits one fused block.
    assert_eq!(
        rfft_large_launch(&vec![2, 8192], &vec![2, 4097], 1, 8000),
        LargeLaunch::Fused(FusedLaunch { windows: 2, units: 256, n_fft: 8192, m: 4096, log2_m: 12, read_len: 8000 })
    );
    // n_fft = 16384: pack, four-step complex FFT, post.
    match rfft_large_launch(&vec![2, 16384], &vec![2, 8193], 1, 16384) {
        LargeLaunch::Staged { first_total, cfft, last_total } => {
            assert_eq!(first_total, 2 * 8192);
            assert_eq!(last_total, 2 * 8193);
            assert!(matches!(cfft, CfftLaunch::FourStep(FourStepPlan { n1: 64, n2: 128, .. })));
        }
        other => panic!("unexpected plan {other:?}"),
    }
    match irfft_large_launch(&vec![1, 16384], 1, 3) {
        LargeLaunch::Staged { first_total, last_total, .. } => {
            assert_eq!((first_total, last_total), (8192, 8192));
        }
        other => panic!("unexpected plan {other:?}"),
    }
}

#[test]
fn irfft_padded_plans() {
    let spec = vec![2, 5];
    let sig = vec![2, 8];
    assert!(irfft_launch_padded_accepts(&spec, &spec, &sig, 1, 5));
    assert!(!irfft_launch_padded_accepts(&spec, &vec![2, 4], &sig, 1, 5));
    assert!(!irfft_launch_padded_accepts(&spec, &spec, &sig, 1, 0));
    assert!(!irfft_launch_padded_accepts(&spec, &spec, &sig, 1, 6));
    assert!(!irfft_launch_padded_accepts(&spec, &spec, &vec![2, 6], 1, 4));
    assert!(!irfft_launch_padded_accepts(&spec, &spec, &sig, 2, 5));
    assert_eq!(
        irfft_launch_padded(&spec, &spec, &sig, 1, 3),
        IrfftLaunch::Radix2 { windows: 2, spec_bins: 3, n_fft: 8, log2_n: 3, units: 4 }
    );
    assert_eq!(irfft_launch(&vec![0, 5], &vec![0, 5], &vec![0, 8], 1), IrfftLaunch::Nothing);
    assert!(matches!(
        irfft_launch(&vec![1, 4097], &vec![1, 4097], &vec![1, 8192], 1),
        IrfftLaunch::Large(LargeLaunch::Fused(FusedLaunch { m: 4096, read_len: 4097, .. }))
    ));
    assert_eq!(irfft_signal_shape(&vec![3, 5], 1), vec![3, 8]);
}

#[test]
fn tensor_length_table() {
    // Length 8, rfft(..., None): length 8, 5 bins.
    let p = rfft(&vec![8], 0, None);
    assert_eq!((p.length, p.used, p.spectrum_shape.clone()), (8, 8, vec![5]));
    // Length 8, rfft(..., Some(6)): length 8, only the first 6 samples.
    let p = rfft(&vec![8], 0, Some(6));
    assert_eq!((p.length, p.used, p.spectrum_shape.clone()), (8, 6, vec![5]));
    // Length 6, rfft(..., None): zero-padded to 8.
    let p = rfft(&vec![6], 0, None);
    assert_eq!((p.length, p.used, p.spectrum_shape.clone()), (8, 6, vec![5]));
    assert!(p.rank_one);
    assert_eq!(p.launch_dim, 1);
    // 5 bins, irfft(..., None): length 8.
    let q = irfft(&vec![5], &vec![5], 0, None);
    assert_eq!((q.length, q.result_shape.clone()), (8, vec![8]));
    // 5 bins, irfft(..., Some(6)): length 8, cropped to 6.
    let q = irfft(&vec![5], &vec![5], 0, Some(6));
    assert_eq!((q.length, q.used, q.transform_shape.clone(), q.result_shape.clone()), (8, 5, vec![8], vec![6]));
    // Batches keep their axes.
    let p = rfft(&vec![4, 3, 1024], 2, None);
    assert_eq!(p.spectrum_shape, vec![4, 3, 513]);
    assert_eq!(p.launch_dim, 2);
    assert_eq!(p.launch, Ok(TransformLaunch::Radix2 { rows: 12, used: 1024 }));
}

#[test]
fn tensor_calls_reach_the_plan() {
    // A rank-one signal runs as one row of a rank-two tensor.
    let p = rfft(&vec![6], 0, None);
    assert_eq!(p.signal_layout.shape, vec![1, 6]);
    assert_eq!(p.signal_layout.strides, vec![6, 1]);
    assert_eq!(p.spectrum_layout.shape, vec![1, 5]);
    assert_eq!(p.launch, Ok(TransformLaunch::Radix2 { rows: 1, used: 6 }));
    let q = irfft(&vec![5], &vec![5], 0, None);
    assert_eq!(q.output_layout.shape, vec![1, 8]);
    assert_eq!(q.launch, Ok(TransformLaunch::Radix2 { rows: 1, used: 5 }));
    // The exact path convolves.
    let p = rfft_exact(&vec![2, 7], 1, None);
    assert_eq!(
        p.launch,
        Ok(TransformLaunch::Bluestein {
            rows: 2,
            convolution: 16,
            total: 32,
            fft: CfftLaunch::Shared(BlockFft { blocks: 2, units: 8, n_fft: 16, log2_n: 4 }),
            outputs: 8,
        })
    );
    assert_eq!(p.plan.state().workspace.unwrap().rows, 2);
    // An empty batch launches nothing and keeps no workspace.
    let p = rfft_exact(&vec![0, 7], 1, None);
    assert_eq!(p.launch, Ok(TransformLaunch::Nothing));
    assert_eq!(p.plan.state().workspace, None);
    // An output beyond 32-bit addressing is refused by the plan's checks.
    let q = irfft(&vec![1 << 22, 1025], &vec![1 << 22, 1025], 1, None);
    assert_eq!(q.launch, Err(FftError::SpanOverflow));
}

#[test]
fn contiguous_layouts() {
    let b = contiguous_layout(&vec![2, 3, 4]);
    assert_eq!(b.shape, vec![2, 3, 4]);
    assert_eq!(b.strides, vec![12, 4, 1]);
    assert_eq!(b.buffer_size, 96);
    assert_eq!((b.offset_start, b.offset_end), (None, None));
    assert_eq!(check_binding(&b), Ok(()));
}

#[test]
fn exact_tensor_lengths() {
    let p = rfft_exact(&vec![2, 7], 1, None);
    assert_eq!((p.length, p.spectrum_shape.clone()), (7, vec![2, 4]));
    assert_eq!(p.plan.convolution_len(), Some(16));
    let q = irfft_exact(&vec![2, 4], &vec![2, 4], 1, Some(7));
    assert_eq!((q.length, q.used, q.result_shape.clone()), (7, 4, vec![2, 7]));
    let q = irfft_exact(&vec![2, 4], &vec![2, 4], 1, None);
    assert_eq!(q.length, 6);
    let q = irfft_exact(&vec![2, 9], &vec![2, 9], 1, Some(6));
    assert_eq!(q.used, 4);
}

#[test]
fn host_plans() {
    let p = rfft_host_plan(&vec![3, 8], 1, None);
    assert_eq!((p.fft_size, p.sig_len, p.out_len, p.num_fibers), (8, 8, 5, 3));
    assert_eq!(p.out_shape, vec![3, 5]);
    assert_eq!((p.in_stride, p.out_stride, p.parallel), (1, 1, false));
    let p = rfft_host_plan(&vec![64, 2], 0, Some(100));
    assert_eq!((p.fft_size, p.sig_len, p.out_len, p.num_fibers), (128, 64, 65, 2));
    assert_eq!((p.in_stride, p.out_shape.clone()), (2, vec![65, 2]));
    let p = rfft_host_plan(&vec![4, 128], 1, None);
    assert!(p.parallel);
    match irfft_host_plan(&vec![3, 5], &vec![3, 5], 1, Some(6)) {
        HostInversePlan::Transform { fft_size, half, spec_bins, out_shape, result_shape, .. } => {
            assert_eq!((fft_size, half, spec_bins), (8, 4, 5));
            assert_eq!(out_shape, vec![3, 8]);
            assert_eq!(result_shape, vec![3, 6]);
        }
        HostInversePlan::DcOnly { .. } => panic!("expected a transform"),
    }
    match irfft_host_plan(&vec![2, 3], &vec![2, 3], 1, Some(1)) {
        HostInversePlan::DcOnly { result_shape } => assert_eq!(result_shape, vec![2, 1]),
        HostInversePlan::Transform { .. } => panic!("expected the DC bin only"),
    }
}

#[test]
fn host_layout_helpers() {
    assert_eq!(contiguous_stride(&vec![2, 3, 4], 0), 12);
    assert_eq!(contiguous_stride(&vec![2, 3, 4], 2), 1);
    assert_eq!(twiddle_offsets(1), vec![0]);
    assert_eq!(twiddle_offsets(16), vec![0, 1, 3, 7, 15]);
}

#[test]
fn host_fiber_movement() {
    // A strided fiber of 5 samples packed into 4 complex pairs.
    let signal = vec![1, 0, 2, 0, 3, 0, 4, 0, 5];
    let mut z_re = vec![-1; 5];
    let mut z_im = vec![-1; 5];
    pack_fiber(&signal, 2, 8, 5, 0, &mut z_re, &mut z_im);
    assert_eq!(z_re, vec![1, 3, 5, 0, -1]);
    assert_eq!(z_im, vec![2, 4, 0, 0, -1]);
    let re = vec![10, 11, 12];
    let im = vec![20, 21, 22];
    let mut spec_re = vec![-1; 4];
    let mut spec_im = vec![-1; 4];
    load_spectrum(&re, &im, 1, 2, 2, 0, &mut spec_re, &mut spec_im);
    assert_eq!(spec_re, vec![10, 11, 0, -1]);
    assert_eq!(spec_im, vec![20, 21, 0, -1]);
    let mut out = vec![0; 8];
    interleave(&vec![1, 3], &vec![2, 4], 2, &mut out, 2);
    assert_eq!(out, vec![1, 0, 2, 0, 3, 0, 4, 0]);
}
