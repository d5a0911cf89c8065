use rufft::bits::{bit_reverse, bit_reverse_permute};
use rufft::blocks::{
    cfft_four_step_radix1_kernel, cfft_four_step_radix2_kernel, cfft_shared_kernel, irfft_kernel,
    rfft_kernel, strided_indices, SlotLoad, SpectrumLoad,
};
use rufft::cfft::{cfft_four_step_transpose_kernel, factor_four_step, four_step_transpose};
use rufft::chirp::{
    finish_forward, finish_inverse, make_chirp, multiply_spectrum, prepare_forward, prepare_inverse,
    scalar_transform, BinRead, ChirpEntry, ImagRead,
};
use rufft::pow2::{checked_next_power_of_two, exp2_usize, is_power_of_two, log2_of_pow2};
use rufft::rfft_large::{
    irfft_fused_kernel, irfft_pre_kernel, irfft_unpack_kernel, rfft_fused_kernel, rfft_pack_kernel,
    rfft_post_kernel, PackSource, PostKind, PreKind,
};

#[test]
fn powers_of_two() {
    assert!(is_power_of_two(1));
    assert!(is_power_of_two(4096));
    assert!(!is_power_of_two(0));
    assert!(!is_power_of_two(6));
    assert_eq!(log2_of_pow2(1), 0);
    assert_eq!(log2_of_pow2(8192), 13);
    assert_eq!(exp2_usize(12), 4096);
    assert_eq!(checked_next_power_of_two(0), Some(1));
    assert_eq!(checked_next_power_of_two(1), Some(1));
    assert_eq!(checked_next_power_of_two(5), Some(8));
    assert_eq!(checked_next_power_of_two(8), Some(8));
    assert_eq!(checked_next_power_of_two(usize::MAX), None);
    assert_eq!(checked_next_power_of_two(usize::MAX / 2 + 1), Some(usize::MAX / 2 + 1));
    assert_eq!(checked_next_power_of_two(usize::MAX / 2 + 2), None);
}

#[test]
fn bit_reversal_of_indices() {
    assert_eq!(bit_reverse(1, 3), 4);
    assert_eq!(bit_reverse(3, 3), 6);
    assert_eq!(bit_reverse(6, 3), 3);
    assert_eq!(bit_reverse(0b1011, 4), 0b1101);
    assert_eq!(bit_reverse(5, 0), 0);
    assert_eq!(bit_reverse(0b11, 2), 0b11);
}

#[test]
fn bit_reverse_permute_orders_eight_points() {
    let mut re: Vec<u32> = (0..8).collect();
    let mut im: Vec<u32> = (10..18).collect();
    re.push(99);
    bit_reverse_permute(&mut re, &mut im, 8);
    assert_eq!(re, vec![0, 4, 2, 6, 1, 5, 3, 7, 99]);
    assert_eq!(im, vec![10, 14, 12, 16, 11, 15, 13, 17]);
    // Applying the permutation again restores the order.
    bit_reverse_permute(&mut re, &mut im, 8);
    assert_eq!(re, vec![0, 1, 2, 3, 4, 5, 6, 7, 99]);
    assert_eq!(im, (10..18).collect::<Vec<u32>>());
}

#[test]
fn bit_reverse_permute_small_sizes() {
    let mut re = vec![7i32];
    let mut im = vec![8i32];
    bit_reverse_permute(&mut re, &mut im, 1);
    assert_eq!((re[0], im[0]), (7, 8));
    let mut re: Vec<usize> = (0..16).collect();
    let mut im = re.clone();
    bit_reverse_permute(&mut re, &mut im, 16);
    for k in 0..16 {
        assert_eq!(re[k], bit_reverse(k, 4));
    }
}

#[test]
fn four_step_factors() {
    assert_eq!(factor_four_step(8192), (64, 128));
    assert_eq!(factor_four_step(16384), (128, 128));
    assert_eq!(factor_four_step(1 << 24), (4096, 4096));
    assert_eq!(factor_four_step(2), (1, 2));
    let (n1, n2) = factor_four_step(1 << 23);
    assert_eq!((n1, n2), (2048, 4096));
}

#[test]
fn transpose_returns_natural_order() {
    // Two windows of a (n1, n2) = (2, 3) scratch, row-major.
    let scratch: Vec<u32> = vec![0, 1, 2, 3, 4, 5, 10, 11, 12, 13, 14, 15];
    let mut output = vec![0u32; 13];
    output[12] = 77;
    four_step_transpose(&scratch, &mut output, 12, 2, 3, 1);
    // bin k1 + k2 * n1 comes from row k1, column k2.
    assert_eq!(output, vec![0, 3, 1, 4, 2, 5, 10, 13, 11, 14, 12, 15, 77]);
    let mut single = vec![9u32; 6];
    cfft_four_step_transpose_kernel(&scratch, &mut single, 6, 3, 2, 3, 1);
    assert_eq!(single, vec![9, 9, 9, 4, 9, 9]);
    cfft_four_step_transpose_kernel(&scratch, &mut single, 6, 6, 2, 3, 1);
    assert_eq!(single, vec![9, 9, 9, 4, 9, 9]);
}

#[test]
fn transpose_of_strided_windows() {
    // A [1, 6, 2] tensor transformed along axis 1: window 0 at the even
    // positions, window 1 at the odd ones, stride 2.
    let scratch: Vec<u32> = vec![0, 10, 1, 11, 2, 12, 3, 13, 4, 14, 5, 15];
    let mut output = vec![0u32; 12];
    four_step_transpose(&scratch, &mut output, 12, 2, 3, 2);
    assert_eq!(output, vec![0, 10, 3, 13, 1, 11, 4, 14, 2, 12, 5, 15]);
}

#[test]
fn pack_kernel_moves_even_and_odd_samples() {
    // Two windows of 5 samples, packed into m = 4 bins each (n_fft = 8).
    let signal = vec![1, 2, 3, 4, 5, 11, 12, 13, 14, 15];
    let mut re = vec![-1; 8];
    let mut im = vec![-1; 8];
    for pos in 0..9 {
        rfft_pack_kernel(&signal, 5, &mut re, &mut im, 0, 8, pos, 5, 4, 1);
    }
    assert_eq!(re, vec![1, 3, 5, 0, 11, 13, 15, 0]);
    assert_eq!(im, vec![2, 4, 0, 0, 12, 14, 0, 0]);
    // m = 2, signal_len = 3 of [10, 20, 30, 40].
    let mut re = vec![-1; 2];
    let mut im = vec![-1; 2];
    for pos in 0..2 {
        rfft_pack_kernel(&[10, 20, 30, 40], 4, &mut re, &mut im, 0, 2, pos, 3, 2, 1);
    }
    assert_eq!((re, im), (vec![10, 30], vec![20, 0]));
}

#[test]
fn pack_kernel_of_strided_windows() {
    // A [1, 5, 2] signal packed along axis 1 into [1, 4, 2]: window 0 at
    // the even positions, window 1 at the odd ones.
    let signal = vec![1, 11, 2, 12, 3, 13, 4, 14, 5, 15];
    let mut re = vec![-1; 8];
    let mut im = vec![-1; 8];
    for pos in 0..8 {
        rfft_pack_kernel(&signal, 5, &mut re, &mut im, 0, 8, pos, 5, 4, 2);
    }
    assert_eq!(re, vec![1, 11, 3, 13, 5, 15, 0, 0]);
    assert_eq!(im, vec![2, 12, 4, 14, 0, 0, 0, 0]);
}

#[test]
fn post_and_pre_kernels() {
    assert_eq!(rfft_post_kernel(0, 10, 4).unwrap().kind, PostKind::Dc);
    assert_eq!(rfft_post_kernel(4, 10, 4).unwrap().kind, PostKind::Nyquist);
    let task = rfft_post_kernel(6, 10, 4).unwrap();
    assert_eq!((task.window, task.k, task.kind), (1, 1, PostKind::Mixed { mirror: 3 }));
    assert!(rfft_post_kernel(10, 10, 4).is_none());
    let pre = irfft_pre_kernel(0, 8, 5, 4).unwrap();
    assert_eq!(pre.kind, PreKind::Dc { nyquist: Some(4) });
    let pre = irfft_pre_kernel(4, 8, 2, 4).unwrap();
    assert_eq!(pre.kind, PreKind::Dc { nyquist: None });
    let pre = irfft_pre_kernel(5, 8, 2, 4).unwrap();
    assert_eq!((pre.window, pre.k), (1, 1));
    assert_eq!(pre.kind, PreKind::Mixed { bin: Some(1), mirror: 3, mirror_bin: None });
    let unpack = irfft_unpack_kernel(7, 8, 4).unwrap();
    assert_eq!((unpack.window, unpack.k, unpack.even, unpack.odd), (1, 3, 6, 7));
    assert!(irfft_unpack_kernel(8, 8, 4).is_none());
}

#[test]
fn fused_kernels_split_bins_over_units() {
    let task = rfft_fused_kernel(0, 2, 1, 2, 4, 2, 5).unwrap();
    let ks: Vec<usize> = task.loads.iter().map(|l| l.k).collect();
    assert_eq!(ks, vec![1, 3]);
    assert_eq!(task.loads[0].dst, 2);
    assert_eq!(task.loads[0].source, PackSource { even: Some(2), odd: Some(3) });
    assert_eq!(task.loads[1].source, PackSource { even: None, odd: None });
    assert_eq!(task.stores, vec![(1, PostKind::Mixed { mirror: 3 }), (3, PostKind::Mixed { mirror: 1 })]);
    let task = rfft_fused_kernel(0, 2, 0, 2, 4, 2, 5).unwrap();
    assert_eq!(task.stores, vec![(0, PostKind::Dc), (2, PostKind::Mixed { mirror: 2 }), (4, PostKind::Nyquist)]);
    assert!(rfft_fused_kernel(2, 2, 0, 2, 4, 2, 5).is_none());
    let inv = irfft_fused_kernel(1, 2, 0, 4, 4, 2, 5).unwrap();
    assert_eq!(inv.loads.len(), 1);
    assert_eq!(inv.loads[0].kind, PreKind::Dc { nyquist: Some(4) });
    assert_eq!(inv.stores, vec![0]);
}

#[test]
fn block_kernels() {
    assert_eq!(strided_indices(1, 4, 10), vec![1, 5, 9]);
    assert_eq!(strided_indices(3, 4, 3), Vec::<usize>::new());
    let task = cfft_shared_kernel(0, 1, 1, 2, 8, 3).unwrap();
    assert_eq!(
        task.loads,
        vec![
            SlotLoad { src: 1, dst: 4 },
            SlotLoad { src: 3, dst: 6 },
            SlotLoad { src: 5, dst: 5 },
            SlotLoad { src: 7, dst: 7 }
        ]
    );
    assert_eq!(task.stores, vec![1, 3, 5, 7]);
    let col = cfft_four_step_radix1_kernel(5, 6, 0, 1, 2, 3, 1).unwrap();
    assert_eq!((col.window, col.column), (1, 2));
    assert_eq!(col.loads, vec![SlotLoad { src: 2, dst: 0 }, SlotLoad { src: 5, dst: 1 }]);
    let row = cfft_four_step_radix2_kernel(3, 4, 0, 2, 2, 4, 2).unwrap();
    assert_eq!((row.window, row.row), (1, 1));
    assert_eq!(row.loads, vec![SlotLoad { src: 4, dst: 0 }, SlotLoad { src: 6, dst: 1 }]);
    assert!(cfft_four_step_radix2_kernel(4, 4, 0, 2, 2, 4, 2).is_none());
    let fwd = rfft_kernel(0, 1, 0, 4, 8, 3, 3).unwrap();
    assert_eq!(fwd.loads[0].sample, Some(0));
    assert_eq!(fwd.loads[1].sample, None);
    assert_eq!(fwd.loads[1].dst, 1);
    assert_eq!(fwd.stores, vec![0, 4]);
    let inv = irfft_kernel(0, 1, 1, 2, 8, 3, 2).unwrap();
    assert_eq!(inv.loads[0], SpectrumLoad { bin: Some(1), dst: 4, imag: ImagRead::Plain });
    assert_eq!(inv.loads[2], SpectrumLoad { bin: None, dst: 5, imag: ImagRead::Negated });
    assert_eq!(inv.loads[3], SpectrumLoad { bin: Some(1), dst: 7, imag: ImagRead::Negated });
}

#[test]
fn inverse_block_reads_dc_and_nyquist_as_real() {
    // Eight points, all five bins read: unit 0 of 2 loads k = 0, 2, 4, 6.
    let inv = irfft_kernel(0, 1, 0, 2, 8, 3, 5).unwrap();
    assert_eq!(inv.loads[0], SpectrumLoad { bin: Some(0), dst: 0, imag: ImagRead::Zero });
    assert_eq!(inv.loads[1], SpectrumLoad { bin: Some(2), dst: 2, imag: ImagRead::Plain });
    assert_eq!(inv.loads[2], SpectrumLoad { bin: Some(4), dst: 1, imag: ImagRead::Zero });
    assert_eq!(inv.loads[3], SpectrumLoad { bin: Some(2), dst: 3, imag: ImagRead::Negated });
    assert_eq!(inv.stores, vec![0, 2, 4, 6]);
}

#[test]
fn chirp_kernels() {
    // n = 3, m = 8: entries 0..3 and 6..8 carry phases, 3..6 are zero.
    assert_eq!(make_chirp(2, 3, 8), Some(ChirpEntry::Phase { square: 4, in_table: true }));
    assert_eq!(make_chirp(6, 3, 8), Some(ChirpEntry::Phase { square: 4, in_table: false }));
    assert_eq!(make_chirp(7, 3, 8), Some(ChirpEntry::Phase { square: 1, in_table: false }));
    assert_eq!(make_chirp(4, 3, 8), Some(ChirpEntry::Zero));
    assert_eq!(make_chirp(8, 3, 8), None);
    assert_eq!(make_chirp(5, 7, 16), Some(ChirpEntry::Phase { square: 11, in_table: true }));
    let f = prepare_forward(17, 32, 5, 7, 16).unwrap();
    assert_eq!((f.batch, f.k, f.sample), (1, 1, Some(1)));
    let f = prepare_forward(22, 32, 5, 7, 16).unwrap();
    assert_eq!(f.sample, None);
    let i = prepare_inverse(5, 16, 4, 6, 16).unwrap();
    assert_eq!(i.read, Some(BinRead { bin: 1, imag: ImagRead::Negated }));
    let i = prepare_inverse(3, 16, 4, 6, 16).unwrap();
    assert_eq!(i.read, Some(BinRead { bin: 3, imag: ImagRead::Zero }));
    let i = prepare_inverse(0, 16, 4, 6, 16).unwrap();
    assert_eq!(i.read, Some(BinRead { bin: 0, imag: ImagRead::Zero }));
    let i = prepare_inverse(2, 16, 2, 6, 16).unwrap();
    assert_eq!(i.read, None);
    assert_eq!(multiply_spectrum(37, 48, 16), Some(5));
    let fin = finish_forward(5, 8, 6, 16).unwrap();
    assert_eq!((fin.batch, fin.k, fin.source, fin.real_only), (1, 1, 17, false));
    let fin = finish_forward(3, 8, 6, 16).unwrap();
    assert!(fin.real_only);
    let inv = finish_inverse(13, 14, 7, 16).unwrap();
    assert_eq!((inv.batch, inv.k, inv.source), (1, 6, 22));
    assert_eq!(scalar_transform(0, 2, 0), Some(false));
    assert_eq!(scalar_transform(1, 2, 1), Some(true));
    assert_eq!(scalar_transform(2, 2, 1), None);
}
