use rufft::host::{axis_split, checked_elements, unpack_offset};
use rufft::host::{
    complex_fft_plan, fiber_base, host_forward_accepts_check, host_inverse_accepts_check,
    irfft_host_plan, radix2_passes, rfft_host_plan, ComplexFftPlan, HostInversePlan, Radix2Pass,
    Radix4Pass,
};

fn radix4(stage: usize) -> Radix4Pass {
    let quarter = 1usize << stage;
    Radix4Pass {
        stage,
        quarter,
        group_size: 4 * quarter,
        inner_offset: quarter - 1,
        outer_offset: 2 * quarter - 1,
    }
}

#[test]
fn complex_fft_small_sizes() {
    assert!(matches!(complex_fft_plan(0), ComplexFftPlan::Nothing));
    assert!(matches!(complex_fft_plan(1), ComplexFftPlan::Nothing));
    for n in [2, 4, 8] {
        match complex_fft_plan(n) {
            ComplexFftPlan::Unrolled(size) => assert_eq!(size, n),
            _ => panic!("expected an unrolled transform of {n} points"),
        }
    }
}

#[test]
fn complex_fft_even_stage_count() {
    // 16 points: four stages, two radix-4 passes, no leading radix-2 stage.
    match complex_fft_plan(16) {
        ComplexFftPlan::Mixed { leading_radix2, passes } => {
            assert!(!leading_radix2);
            assert_eq!(passes, vec![radix4(0), radix4(2)]);
        }
        _ => panic!("expected the mixed-radix plan"),
    }
}

#[test]
fn complex_fft_odd_stage_count() {
    // 32 points: one radix-2 stage, then stages 1-2 and 3-4.
    match complex_fft_plan(32) {
        ComplexFftPlan::Mixed { leading_radix2, passes } => {
            assert!(leading_radix2);
            assert_eq!(passes, vec![radix4(1), radix4(3)]);
            assert_eq!(passes[1], Radix4Pass { stage: 3, quarter: 8, group_size: 32, inner_offset: 7, outer_offset: 15 });
        }
        _ => panic!("expected the mixed-radix plan"),
    }
}

#[test]
fn complex_fft_covers_every_stage() {
    for log2_n in 4..20u32 {
        let n = 1usize << log2_n;
        match complex_fft_plan(n) {
            ComplexFftPlan::Mixed { leading_radix2, passes } => {
                let lead = if leading_radix2 { 1 } else { 0 };
                assert_eq!(lead + 2 * passes.len(), log2_n as usize);
            }
            _ => panic!("expected the mixed-radix plan"),
        }
    }
}

#[test]
fn radix2_passes_of_eight_points() {
    assert_eq!(radix2_passes(1), vec![]);
    assert_eq!(
        radix2_passes(8),
        vec![
            Radix2Pass { len: 2, half: 1, offset: 0 },
            Radix2Pass { len: 4, half: 2, offset: 1 },
            Radix2Pass { len: 8, half: 4, offset: 3 },
        ]
    );
}

#[test]
fn fiber_offsets_partition_the_tensor() {
    // A [2, 3, 4] tensor transformed along its middle axis: 8 fibers of 3
    // elements with stride 4.
    let (outer, len, inner) = (2usize, 3usize, 4usize);
    let total = outer * len * inner;
    assert_eq!(fiber_base(0, inner, len, total), 0);
    assert_eq!(fiber_base(3, inner, len, total), 3);
    assert_eq!(fiber_base(4, inner, len, total), 12);
    assert_eq!(fiber_base(7, inner, len, total), 15);
    let mut seen = vec![false; total];
    for f in 0..outer * inner {
        let base = fiber_base(f, inner, len, total);
        for k in 0..len {
            let offset = base + k * inner;
            assert!(!seen[offset]);
            seen[offset] = true;
        }
    }
    assert!(seen.iter().all(|&s| s));
}

#[test]
fn forward_checks() {
    assert!(host_forward_accepts_check(&vec![3, 8], 1, None));
    assert!(host_forward_accepts_check(&vec![64, 2], 0, Some(100)));
    assert!(host_forward_accepts_check(&vec![3, 6], 1, Some(6)));
    // Without a requested length the axis must be a power of two.
    assert!(!host_forward_accepts_check(&vec![3, 6], 1, None));
    // An empty axis and a missing axis are refused.
    assert!(!host_forward_accepts_check(&vec![3, 0], 1, Some(4)));
    assert!(!host_forward_accepts_check(&vec![3, 8], 2, None));
    // A requested length whose power of two does not fit.
    assert!(!host_forward_accepts_check(&vec![4], 0, Some(usize::MAX)));
    // Fiber counts that overflow.
    assert!(!host_forward_accepts_check(&vec![usize::MAX, 2, 4], 2, None));
    assert!(!host_forward_accepts_check(&vec![4, usize::MAX, 2], 0, None));
}

#[test]
fn inverse_checks() {
    assert!(host_inverse_accepts_check(&vec![3, 5], &vec![3, 5], 1, None));
    assert!(host_inverse_accepts_check(&vec![3, 5], &vec![3, 5], 1, Some(6)));
    // Mismatched real and imaginary shapes.
    assert!(!host_inverse_accepts_check(&vec![3, 5], &vec![3, 4], 1, None));
    // No bins at all.
    assert!(!host_inverse_accepts_check(&vec![3, 0], &vec![3, 0], 1, Some(4)));
    // The default length 2 (bins - 1) = 6 is not a power of two.
    assert!(!host_inverse_accepts_check(&vec![4], &vec![4], 0, None));
    assert!(host_inverse_accepts_check(&vec![4], &vec![4], 0, Some(6)));
    assert!(!host_inverse_accepts_check(&vec![4], &vec![4], 1, Some(6)));
}

#[test]
fn checked_plans_round_trip_the_shape() {
    let shape = vec![5, 16, 3];
    assert!(host_forward_accepts_check(&shape, 1, None));
    let forward = rfft_host_plan(&shape, 1, None);
    assert_eq!(forward.out_shape, vec![5, 9, 3]);
    assert!(host_inverse_accepts_check(&forward.out_shape, &forward.out_shape, 1, Some(16)));
    match irfft_host_plan(&forward.out_shape, &forward.out_shape, 1, Some(16)) {
        HostInversePlan::Transform { fft_size, result_shape, num_fibers, in_stride, .. } => {
            assert_eq!(fft_size, forward.fft_size);
            assert_eq!(result_shape, shape);
            assert_eq!(num_fibers, forward.num_fibers);
            assert_eq!(in_stride, 3);
        }
        HostInversePlan::DcOnly { .. } => panic!("expected a transform"),
    }
}

#[test]
fn scatter_fiber_writes_one_strided_fiber() {
    let mut out = vec![0; 10];
    rufft::host::scatter_fiber(&[7, 8, 9, 99], 3, &mut out, 1, 3);
    assert_eq!(out, vec![0, 7, 0, 0, 8, 0, 0, 9, 0, 0]);
    let mut out = vec![5; 3];
    rufft::host::scatter_fiber(&[1], 0, &mut out, 2, 1);
    assert_eq!(out, vec![5, 5, 5]);
}

#[test]
fn narrow_axis_crops_the_middle_axis() {
    // A [2, 4, 2] tensor cropped to [2, 3, 2].
    let data: Vec<u32> = (0..16).collect();
    let out = rufft::host::narrow_axis(&data, 2, 4, 2, 3);
    assert_eq!(out, vec![0, 1, 2, 3, 4, 5, 8, 9, 10, 11, 12, 13]);
    // Keeping only the first position of each fiber (the DC bin).
    let out = rufft::host::narrow_axis(&data, 4, 4, 1, 1);
    assert_eq!(out, vec![0, 4, 8, 12]);
    let empty: Vec<u32> = Vec::new();
    assert_eq!(rufft::host::narrow_axis(&empty, 0, 4, 2, 3), Vec::<u32>::new());
}

#[test]
fn radix4_passes_touch_every_point_once() {
    for n in [16usize, 32, 64, 128, 1024] {
        match complex_fft_plan(n) {
            ComplexFftPlan::Mixed { passes, .. } => {
                for pass in passes {
                    assert_eq!(pass.group_size, 4 * pass.quarter);
                    let mut hits = vec![0u32; n];
                    for g in 0..n / pass.group_size {
                        for k in 0..pass.quarter {
                            for j in 0..4 {
                                hits[g * pass.group_size + j * pass.quarter + k] += 1;
                            }
                        }
                    }
                    assert!(hits.iter().all(|&h| h == 1));
                }
            }
            _ => panic!("expected the mixed-radix plan"),
        }
    }
}

#[test]
fn radix2_passes_touch_every_point_once() {
    let n = 64usize;
    for pass in radix2_passes(n) {
        assert_eq!(pass.len, 2 * pass.half);
        let mut hits = vec![0u32; n];
        for g in 0..n / pass.len {
            for k in 0..pass.half {
                hits[g * pass.len + k] += 1;
                hits[g * pass.len + pass.half + k] += 1;
            }
        }
        assert!(hits.iter().all(|&h| h == 1));
    }
}

#[test]
fn interleaving_undoes_packing() {
    // A fiber of 8 samples, 3 apart.
    let signal: Vec<i32> = (0..24).collect();
    let mut z_re = vec![0; 4];
    let mut z_im = vec![0; 4];
    rufft::host::pack_fiber(&signal, 3, 8, 8, -1, &mut z_re, &mut z_im);
    let mut out = vec![-7; 24];
    rufft::host::interleave(&z_re, &z_im, 4, &mut out, 3);
    for p in 0..8 {
        assert_eq!(out[p * 3], signal[p * 3]);
    }
    assert_eq!(out[1], -7);
}

#[test]
fn size_helpers() {
    assert_eq!(unpack_offset(1), 0);
    assert_eq!(unpack_offset(2), 0);
    assert_eq!(unpack_offset(16), 7);
    assert_eq!(checked_elements(&vec![2, 3, 4]), Some(24));
    assert_eq!(checked_elements(&vec![]), Some(1));
    assert_eq!(checked_elements(&vec![usize::MAX, 2, 0]), None);
    assert_eq!(checked_elements(&vec![0, usize::MAX, 2]), Some(0));
    assert_eq!(axis_split(&vec![2, 3, 4], 1), Some((2, 4)));
    assert_eq!(axis_split(&vec![2, 3, 4], 0), Some((1, 12)));
    assert_eq!(axis_split(&vec![0, usize::MAX, 2], 0), None);
}
