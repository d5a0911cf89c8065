// The device suite at plan level: launch plans, window counts and which
// samples and bins each kernel reads. The transforms' values need a device
// and are not compared here.
use rufft::blocks::{irfft_kernel, rfft_kernel};
use rufft::chirp::ImagRead;
use rufft::launch::{
    irfft_launch, irfft_launch_padded, irfft_launch_padded_accepts, irfft_signal_shape, rfft_launch,
    rfft_launch_padded, rfft_launch_padded_accepts, rfft_large_launch, units_per_block, FusedLaunch,
    IrfftLaunch, LargeLaunch, RfftLaunch, SHARED_MEM_CAP,
};
use rufft::rfft_large::{irfft_fused_kernel, rfft_fused_kernel, PreKind};
use rufft::exact::TransformLaunch;
use rufft::tensor::{irfft, rfft};

/// The plan-level side of one accuracy case: a signal shaped `shape`,
/// transformed along `dim` reading `used` samples, and an inverse reading
/// `bins` bins back into the same shape.
fn plan_layout(shape: Vec<usize>, dim: usize, used: usize, bins: usize) {
    let n = shape[dim];
    let windows: usize = shape.iter().enumerate().filter(|(a, _)| *a != dim).map(|(_, s)| *s).product();
    let log2_n = n.trailing_zeros();
    let mut spectrum = shape.clone();
    spectrum[dim] = n / 2 + 1;

    // Forward: the padded launch accepts the shapes and plans the path the
    // length asks for.
    assert!(rfft_launch_padded_accepts(&shape, &spectrum, &spectrum, dim, used));
    let forward = rfft_launch_padded(&shape, &spectrum, &spectrum, dim, used);
    if n <= SHARED_MEM_CAP {
        assert_eq!(
            forward,
            RfftLaunch::Radix2 { windows, signal_len: used, n_fft: n, log2_n, units: units_per_block(n) }
        );
    } else {
        assert_eq!(forward, RfftLaunch::Large(rfft_large_launch(&shape, &spectrum, dim, used)));
    }

    // Forward: no load names a sample at or past `used`.
    if n <= SHARED_MEM_CAP {
        let units = units_per_block(n);
        for unit in 0..units {
            let task = rfft_kernel(0, windows, unit, units, n, log2_n, used).unwrap();
            for (j, load) in task.loads.iter().enumerate() {
                let sample = unit + j * units;
                assert_eq!(load.sample, if sample < used { Some(sample) } else { None });
            }
        }
    } else {
        match rfft_large_launch(&shape, &spectrum, dim, used) {
            LargeLaunch::Fused(f) => {
                assert_eq!((f.windows, f.n_fft, f.m, f.read_len), (windows, n, n / 2, used));
                for unit in 0..f.units {
                    let task = rfft_fused_kernel(0, windows, unit, f.units, f.m, f.log2_m, used).unwrap();
                    for load in task.loads {
                        assert!(load.source.even.map_or(true, |s| s < used));
                        assert!(load.source.odd.map_or(true, |s| s < used));
                    }
                }
            }
            LargeLaunch::Staged { first_total, last_total, .. } => {
                assert_eq!(first_total, windows * (n / 2));
                assert_eq!(last_total, windows * (n / 2 + 1));
            }
        }
    }

    // Inverse: the padded launch accepts the shapes and reads `bins` bins,
    // DC and Nyquist as real-only.
    let mut spec_shape = shape.clone();
    spec_shape[dim] = bins;
    assert!(irfft_launch_padded_accepts(&spec_shape, &spec_shape, &shape, dim, bins));
    match irfft_launch_padded(&spec_shape, &spec_shape, &shape, dim, bins) {
        IrfftLaunch::Nothing => panic!("expected a launch"),
        IrfftLaunch::Radix2 { windows: w, spec_bins, n_fft, log2_n: lg, units } => {
            assert_eq!((w, spec_bins, n_fft, lg, units), (windows, bins, n, log2_n, units_per_block(n)));
            let task = irfft_kernel(0, windows, 0, units, n, lg, bins).unwrap();
            assert_eq!(task.loads[0].imag, ImagRead::Zero);
            if bins > n / 2 {
                let nyquist = task.loads.iter().find(|l| l.bin == Some(n / 2)).unwrap();
                assert_eq!(nyquist.imag, ImagRead::Zero);
            }
        }
        IrfftLaunch::Large(LargeLaunch::Fused(f)) => {
            assert_eq!((f.windows, f.n_fft, f.m, f.read_len), (windows, n, n / 2, bins));
            let task = irfft_fused_kernel(0, windows, 0, f.units, f.m, f.log2_m, bins).unwrap();
            let nyquist = if bins > n / 2 { Some(n / 2) } else { None };
            assert_eq!(task.loads[0].kind, PreKind::Dc { nyquist });
        }
        IrfftLaunch::Large(LargeLaunch::Staged { first_total, last_total, .. }) => {
            assert_eq!((first_total, last_total), (windows * (n / 2), windows * (n / 2)));
        }
    }
}

#[test]
fn gpu_fft_reference_matrix() {
    for n in [2, 4, 8, 16, 64, 256, 1024, 4096, 8192, 16384, 65536] {
        plan_layout(vec![2, n, 1], 1, n, n / 2 + 1);
    }
    for n in [8, 64, 4096, 8192, 16384] {
        plan_layout(vec![2, n, 3], 1, n - 3, n / 4);
    }
    plan_layout(vec![2, 8192, 3], 1, 0, 1);
}

#[test]
fn gpu_fft_fused_axes() {
    plan_layout(vec![8192, 3], 0, 8191, 4097);
    plan_layout(vec![2, 3, 8192], 2, 8192, 4097);
    plan_layout(vec![2, 8192, 3, 2], 1, 4001, 2049);
}

#[test]
fn large_fft_roundtrip() {
    let shape = vec![431, 2, 2048];
    let forward = rfft(&shape, 2, None);
    assert_eq!(forward.spectrum_shape, vec![431, 2, 1025]);
    assert_eq!(forward.launch, Ok(TransformLaunch::Radix2 { rows: 862, used: 2048 }));
    // The device inverse allocates the signal from the spectrum's bins.
    let signal = irfft_signal_shape(&forward.spectrum_shape, 2);
    assert_eq!(signal, shape);
    let spectrum = forward.spectrum_shape.clone();
    assert_eq!(
        irfft_launch(&spectrum, &spectrum, &signal, 2),
        IrfftLaunch::Radix2 { windows: 862, spec_bins: 1025, n_fft: 2048, log2_n: 11, units: 256 }
    );
    let back = irfft(&spectrum, &spectrum, 2, Some(2048));
    assert_eq!(back.result_shape, shape);
    assert_eq!(back.launch, Ok(TransformLaunch::Radix2 { rows: 862, used: 1025 }));
}

#[test]
fn forward_padded_launch_checks() {
    let signal = vec![3, 6];
    let spectrum = vec![3, 5];
    // Six samples read into an 8-point transform (5 bins).
    assert_eq!(
        rfft_launch_padded(&signal, &spectrum, &spectrum, 1, 6),
        RfftLaunch::Radix2 { windows: 3, signal_len: 6, n_fft: 8, log2_n: 3, units: 4 }
    );
    assert_eq!(
        rfft_launch(&vec![3, 8], &spectrum, &spectrum, 1),
        RfftLaunch::Radix2 { windows: 3, signal_len: 8, n_fft: 8, log2_n: 3, units: 4 }
    );
    // The length comes from the spectrum and must be a power of two.
    assert!(!rfft_launch_padded_accepts(&signal, &vec![3, 4], &vec![3, 4], 1, 6));
    // At most the axis length and at most n_fft samples are read.
    assert!(!rfft_launch_padded_accepts(&signal, &spectrum, &spectrum, 1, 7));
    assert!(!rfft_launch_padded_accepts(&vec![3, 12], &spectrum, &spectrum, 1, 9));
    // Real and imaginary spectra match; a one-bin spectrum has no transform.
    assert!(!rfft_launch_padded_accepts(&signal, &spectrum, &vec![3, 3], 1, 6));
    assert!(!rfft_launch_padded_accepts(&signal, &vec![3, 1], &vec![3, 1], 1, 0));
    // No window, nothing to launch.
    assert_eq!(rfft_launch_padded(&vec![0, 6], &vec![0, 5], &vec![0, 5], 1, 6), RfftLaunch::Nothing);
    // Above the single-block cap the packed-real path takes over.
    assert_eq!(
        rfft_launch_padded(&vec![2, 8192], &vec![2, 4097], &vec![2, 4097], 1, 8000),
        RfftLaunch::Large(LargeLaunch::Fused(FusedLaunch {
            windows: 2,
            units: 256,
            n_fft: 8192,
            m: 4096,
            log2_m: 12,
            read_len: 8000,
        }))
    );
}
