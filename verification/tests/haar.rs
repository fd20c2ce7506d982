use std::f64::consts::SQRT_2;
use wavelet::haar::{
    decompose_multiresolution, dwt, dwt_in_place, inverse_dwt, inverse_dwt_in_place, HaarWavelet,
};
use wavelet::sizes::InvalidLength;

const ROOT_2_OVER_2: f64 = 1.0 / SQRT_2;

/// Orthonormal Haar analysis of one pair.
fn split(a: f64, b: f64) -> (f64, f64) {
    ((a + b) / SQRT_2, (a - b) / SQRT_2)
}

/// Orthonormal Haar synthesis of one pair.
fn merge(a: f64, w: f64) -> (f64, f64) {
    let h = ROOT_2_OVER_2;
    (h * a + h * w, h * a - h * w)
}

/// Sums and differences without normalisation: exact on integers.
fn plain_split(a: i64, b: i64) -> (i64, i64) {
    (a + b, a - b)
}

/// Undoes `plain_split` exactly.
fn plain_merge(s: i64, d: i64) -> (i64, i64) {
    ((s + d) / 2, (s - d) / 2)
}

fn sample(n: usize) -> Vec<f64> {
    (0..n)
        .map(|i| (((i * 37 + 11) % 101) as f64) / 101.0 - 0.5)
        .collect()
}

#[test]
fn cascade_inverse_works() {
    let data = [1_f64, 3.0, 5.0, 11.0, 12.0, 13.0, 0.0, 1.0];

    let wavelet = dwt(&data, &split).unwrap();
    println!("{:?}", wavelet);

    let inverse = inverse_dwt(&wavelet, &merge).unwrap();
    let delta = 1e-14;
    for (pos, expected) in data.iter().enumerate() {
        assert!(
            (expected - inverse[pos]).abs() < delta,
            "Element at pos {} incorrect",
            pos
        );
    }
}

#[test]
fn dwt_in_place_works_simple() {
    let mut data: Vec<f64> = vec![1_f64, 3.0, 5.0, 11.0, 12.0, 13.0, 0.0, 1.0];
    let expected = data.clone();

    dwt_in_place(&mut data, &split).unwrap();
    println!("{:?}", data);

    let inverse = inverse_dwt(&data, &merge).unwrap();
    let delta = 1e-14;
    for (pos, expected) in expected.iter().enumerate() {
        assert!(
            (expected - inverse[pos]).abs() < delta,
            "Element at pos {} incorrect. Expected {} but was {}",
            pos,
            expected,
            inverse[pos]
        );
    }
}

#[test]
fn invert_in_place_works_simple() {
    let mut data = [1_f64, 3.0, 5.0, 11.0, 12.0, 13.0, 0.0, 1.0];
    let expected = data.clone();

    dwt_in_place(&mut data, &split).unwrap();
    println!("{:?}", data);

    inverse_dwt_in_place(&mut data, &merge).unwrap();
    println!("{:?}", data);

    let delta = 1e-14;
    for (pos, expected) in expected.iter().enumerate() {
        assert!(
            (expected - data[pos]).abs() < delta,
            "Element at pos {} incorrect. Expected {} but was {}",
            pos,
            expected,
            data[pos]
        );
    }
}

#[test]
fn multiresolution_decomp() {
    let data = [1_f64, 3.0, 5.0, 11.0, 12.0, 13.0, 0.0, 1.0];

    let decomp = decompose_multiresolution(&data, &split).unwrap();

    assert_eq!(3, decomp.len(), "Incorrect number of levels!");
    let l1: &[f64] = &[4.0, 16.0, 25.0, 1.0, -2.0, -6.0, -1.0, -1.0].map(|v| v / SQRT_2);
    let d1: &[f64] = &decomp[0];
    assert_eq!(l1, d1, "Incorrect decomp at level 1!");
    let l2: &[f64] = &[10.0, 13.0, -6.0, 12.0];
    let d2 = &decomp[1];
    let delta = 1e-14;
    for (pos, expected) in l2.iter().enumerate() {
        assert!(
            (expected - d2[pos]).abs() < delta,
            "Element at pos {} incorrect. Expected {} but was {}",
            pos,
            expected,
            d2[pos]
        );
    }

    let l3: &[f64] = &[23.0 / SQRT_2, -3.0 / SQRT_2];
    let d3 = &decomp[2];
    for (pos, expected) in l3.iter().enumerate() {
        assert!(
            (expected - d3[pos]).abs() < delta,
            "Element at pos {} incorrect. Expected {} but was {}",
            pos,
            expected,
            d3[pos]
        );
    }
}

#[test]
fn dwt_exact_bands_on_integers() {
    let data = [1i64, 3, 5, 11, 12, 13, 0, 1];
    let wavelet = dwt(&data, &plain_split).unwrap();
    assert_eq!(wavelet, vec![46, -6, -12, 24, -2, -6, -1, -1]);
}

#[test]
fn dwt_in_place_exact_bands_on_integers() {
    let mut data = [1i64, 3, 5, 11, 12, 13, 0, 1];
    dwt_in_place(&mut data, &plain_split).unwrap();
    assert_eq!(data, [46, -6, -12, 24, -2, -6, -1, -1]);
}

#[test]
fn inverse_dwt_exact_on_integers() {
    let wavelet = [46i64, -6, -12, 24, -2, -6, -1, -1];
    let signal = inverse_dwt(&wavelet, &plain_merge).unwrap();
    assert_eq!(signal, vec![1, 3, 5, 11, 12, 13, 0, 1]);
}

#[test]
fn inverse_dwt_in_place_exact_on_integers() {
    let mut wavelet = [46i64, -6, -12, 24, -2, -6, -1, -1];
    inverse_dwt_in_place(&mut wavelet, &plain_merge).unwrap();
    assert_eq!(wavelet, [1, 3, 5, 11, 12, 13, 0, 1]);
}

#[test]
fn inverse_dwt_in_place_rotates_the_middle_quarters() {
    // With a merge that only pairs its arguments up, the result shows where
    // each mean and each detail term was taken from.
    let pair_up = |a: u32, w: u32| (a, w);
    let mut block: Vec<u32> = (0..8).collect();
    inverse_dwt_in_place(&mut block, &pair_up).unwrap();
    let copied = inverse_dwt(&(0..8).collect::<Vec<u32>>(), &pair_up).unwrap();
    assert_eq!(block, copied);
    assert_eq!(block, vec![0, 4, 2, 5, 1, 6, 3, 7]);
}

#[test]
fn decompose_exact_levels_on_integers() {
    let data = [1i64, 3, 5, 11, 12, 13, 0, 1];
    let levels = decompose_multiresolution(&data, &plain_split).unwrap();
    assert_eq!(
        levels,
        vec![
            vec![4, 16, 25, 1, -2, -6, -1, -1],
            vec![20, 26, -12, 24],
            vec![46, -6],
        ]
    );
}

#[test]
fn two_elements_give_mean_and_detail() {
    assert_eq!(dwt(&[7i64, 3], &plain_split).unwrap(), vec![10, 4]);
    assert_eq!(inverse_dwt(&[10i64, 4], &plain_merge).unwrap(), vec![7, 3]);
    let mut pair = [7i64, 3];
    dwt_in_place(&mut pair, &plain_split).unwrap();
    assert_eq!(pair, [10, 4]);
    inverse_dwt_in_place(&mut pair, &plain_merge).unwrap();
    assert_eq!(pair, [7, 3]);
}

#[test]
fn four_elements_in_place_inverse() {
    let mut wavelet = dwt(&[9i64, 7, 3, 5], &plain_split).unwrap();
    assert_eq!(wavelet, vec![24, 8, 2, -2]);
    inverse_dwt_in_place(&mut wavelet, &plain_merge).unwrap();
    assert_eq!(wavelet, vec![9, 7, 3, 5]);
}

#[test]
fn single_element_is_its_own_transform() {
    assert_eq!(dwt(&[5.5], &split).unwrap(), vec![5.5]);
    assert_eq!(inverse_dwt(&[5.5], &merge).unwrap(), vec![5.5]);
    let mut one = [5.5];
    dwt_in_place(&mut one, &split).unwrap();
    assert_eq!(one, [5.5]);
    inverse_dwt_in_place(&mut one, &merge).unwrap();
    assert_eq!(one, [5.5]);
    assert!(decompose_multiresolution(&[5.5], &split).unwrap().is_empty());
}

#[test]
fn empty_input_gives_empty_output() {
    let empty: [f64; 0] = [];
    assert!(dwt(&empty, &split).unwrap().is_empty());
    assert!(inverse_dwt(&empty, &merge).unwrap().is_empty());
    assert!(decompose_multiresolution(&empty, &split).unwrap().is_empty());
    let mut nothing: [f64; 0] = [];
    assert_eq!(dwt_in_place(&mut nothing, &split), Ok(()));
    assert_eq!(inverse_dwt_in_place(&mut nothing, &merge), Ok(()));
    let wavelet = HaarWavelet::transform(&empty, 0.0, &split);
    assert!(wavelet.coefficients().is_empty());
    assert!(wavelet.invert(&merge).is_empty());
}

#[test]
fn length_six_is_refused_and_left_alone() {
    let data = [1.0, 2.0, 3.0, 4.0, 5.0, 6.0];
    assert_eq!(dwt(&data, &split), Err(InvalidLength { len: 6 }));
    assert_eq!(inverse_dwt(&data, &merge), Err(InvalidLength { len: 6 }));
    assert_eq!(
        decompose_multiresolution(&data, &split),
        Err(InvalidLength { len: 6 })
    );

    let mut forward = data;
    assert_eq!(
        dwt_in_place(&mut forward, &split),
        Err(InvalidLength { len: 6 })
    );
    assert_eq!(forward, data);

    let mut backward = data;
    assert_eq!(
        inverse_dwt_in_place(&mut backward, &merge),
        Err(InvalidLength { len: 6 })
    );
    assert_eq!(backward, data);

    match HaarWavelet::transform_in_place(data.to_vec(), &split) {
        Ok(_) => panic!("a length of 6 was accepted"),
        Err(e) => assert_eq!(e, InvalidLength { len: 6 }),
    }
}

#[test]
fn other_lengths_that_are_refused() {
    for len in [3usize, 5, 7, 9, 12, 100] {
        let mut data = sample(len);
        let before = data.clone();
        assert_eq!(dwt(&data, &split), Err(InvalidLength { len }));
        assert_eq!(dwt_in_place(&mut data, &split), Err(InvalidLength { len }));
        assert_eq!(data, before);
        assert_eq!(
            inverse_dwt_in_place(&mut data, &merge),
            Err(InvalidLength { len })
        );
        assert_eq!(data, before);
    }
}

#[test]
fn round_trip_on_powers_of_two() {
    for exp in 0..5 {
        let data = sample(1 << exp);
        let wavelet = dwt(&data, &split).unwrap();
        let back = inverse_dwt(&wavelet, &merge).unwrap();
        assert_eq!(back.len(), data.len());
        for (x, y) in data.iter().zip(back.iter()) {
            assert!((x - y).abs() < 1e-14, "size {}: {} vs {}", data.len(), x, y);
        }
    }
}

#[test]
fn round_trip_in_place_on_powers_of_two() {
    for exp in 0..5 {
        let data = sample(1 << exp);
        let mut buffer = data.clone();
        dwt_in_place(&mut buffer, &split).unwrap();
        inverse_dwt_in_place(&mut buffer, &merge).unwrap();
        for (x, y) in data.iter().zip(buffer.iter()) {
            assert!((x - y).abs() < 1e-14, "size {}: {} vs {}", data.len(), x, y);
        }
    }
}

#[test]
fn round_trip_is_exact_with_exact_arithmetic() {
    for exp in 0..11 {
        let data: Vec<i64> = (0..(1i64 << exp)).map(|i| (i * i * 7 + 3 * i) % 1000 - 500).collect();
        let wavelet = dwt(&data, &plain_split).unwrap();
        assert_eq!(inverse_dwt(&wavelet, &plain_merge).unwrap(), data);
        let mut buffer = data.clone();
        dwt_in_place(&mut buffer, &plain_split).unwrap();
        assert_eq!(buffer, wavelet);
        inverse_dwt_in_place(&mut buffer, &plain_merge).unwrap();
        assert_eq!(buffer, data);
    }
}

#[test]
fn copying_and_in_place_transforms_agree() {
    for exp in 0..11 {
        let data = sample(1 << exp);
        let copied = dwt(&data, &split).unwrap();
        let mut buffer = data.clone();
        dwt_in_place(&mut buffer, &split).unwrap();
        assert_eq!(copied, buffer, "size {}", data.len());
    }
}

#[test]
fn copying_and_in_place_inverses_agree() {
    for exp in 0..11 {
        let wavelet = sample(1 << exp);
        let copied = inverse_dwt(&wavelet, &merge).unwrap();
        let mut buffer = wavelet.clone();
        inverse_dwt_in_place(&mut buffer, &merge).unwrap();
        assert_eq!(copied, buffer, "size {}", wavelet.len());
    }
}

#[test]
fn energy_is_conserved() {
    for exp in 0..11 {
        let data = sample(1 << exp);
        let wavelet = dwt(&data, &split).unwrap();
        let before: f64 = data.iter().map(|v| v * v).sum();
        let after: f64 = wavelet.iter().map(|v| v * v).sum();
        assert!(
            (before - after).abs() <= 1e-12 * before.abs(),
            "size {}: {} vs {}",
            data.len(),
            before,
            after
        );
    }
}

#[test]
fn decomposition_has_one_level_for_each_halving() {
    for exp in 1..11 {
        let data = sample(1 << exp);
        let levels = decompose_multiresolution(&data, &split).unwrap();
        assert_eq!(levels.len(), exp);
        assert_eq!(levels[exp - 1].len(), 2);
        for (j, level) in levels.iter().enumerate() {
            assert_eq!(level.len(), data.len() >> j);
        }
    }
}

#[test]
fn decomposition_details_are_the_bands_of_the_transform() {
    let data = sample(64);
    let levels = decompose_multiresolution(&data, &split).unwrap();
    let wavelet = dwt(&data, &split).unwrap();
    for level in levels.iter() {
        let half = level.len() / 2;
        assert_eq!(&level[half..], &wavelet[half..level.len()]);
    }
    assert_eq!(levels[levels.len() - 1][0], wavelet[0]);
}

#[test]
fn haar_wavelet_pads_before_it_transforms() {
    let data = [1.0, 3.0, 5.0, 11.0, 12.0, 13.0];
    let wavelet = HaarWavelet::transform(&data, 0.0, &split);
    let padded = [1.0, 3.0, 5.0, 11.0, 12.0, 13.0, 0.0, 0.0];
    assert_eq!(wavelet.coefficients(), &dwt(&padded, &split).unwrap()[..]);
    let back = wavelet.invert(&merge);
    assert_eq!(back.len(), 8);
    for (x, y) in padded.iter().zip(back.iter()) {
        assert!((x - y).abs() < 1e-14);
    }
}

#[test]
fn haar_wavelet_in_place_round_trip_empties_the_transform() {
    let data = vec![1.0, 3.0, 5.0, 11.0, 12.0, 13.0, 0.0, 1.0];
    let mut wavelet = match HaarWavelet::transform_in_place(data.clone(), &split) {
        Ok(w) => w,
        Err(e) => panic!("refused a length of {}", e.len),
    };
    assert_eq!(wavelet.coefficients(), &dwt(&data, &split).unwrap()[..]);
    let kept = wavelet.invert(&merge);
    let back = wavelet.invert_in_place(&merge);
    assert_eq!(kept, back);
    for (x, y) in data.iter().zip(back.iter()) {
        assert!((x - y).abs() < 1e-14);
    }
    assert!(wavelet.coefficients().is_empty());
    assert!(wavelet.invert(&merge).is_empty());
}
