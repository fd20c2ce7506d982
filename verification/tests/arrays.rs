use wavelet::arrays::{interleave, pad, padded_len, partition_evens};
use wavelet::sizes::power_of_two;

#[test]
fn partition_works_even() {
    let mut data = [0.0, 1.0, 2.0, 3.0, 4.0, 5.0, 6.0, 7.0];

    partition_evens(&mut data);

    assert_eq!(
        [0.0, 2.0, 4.0, 6.0, 1.0, 3.0, 5.0, 7.0],
        data,
        "Incorrect permutation!"
    );
}

#[test]
fn partition_works_odd() {
    let mut data = [0.0, 1.0, 2.0, 3.0, 4.0, 5.0, 6.0, 7.0, 8.0];

    partition_evens(&mut data);

    assert_eq!(
        [0.0, 2.0, 4.0, 6.0, 8.0, 1.0, 3.0, 5.0, 7.0],
        data,
        "Incorrect permutation!"
    );
}

#[test]
fn partition_size_3() {
    let mut data = [0.0, 1.0, 2.0];

    partition_evens(&mut data);

    assert_eq!([0.0, 2.0, 1.0], data, "Incorrect permutation!");
}

#[test]
fn partition_several() {
    for size in 0..10 {
        let mut data: Vec<usize> = Vec::new();
        for i in 0..=size {
            data.push(i);
        }

        partition_evens(&mut data[..]);

        //the first size/2 elements should be even then odd
        for i in 0..=size / 2 {
            assert!(
                data[i] % 2 == 0,
                "Element d[{}] should be even, but is {}!",
                i,
                data[i]
            );
        }
        for i in size / 2 + 1..size {
            assert!(
                data[i] % 2 != 0,
                "Element d[{}] should be odd, but is {}!",
                i,
                data[i]
            );
        }
    }
}

fn indices(n: usize) -> Vec<usize> {
    (0..n).collect()
}

fn evens_then_odds(n: usize) -> Vec<usize> {
    let mut expected: Vec<usize> = (0..n).filter(|v| v % 2 == 0).collect();
    expected.extend((0..n).filter(|v| v % 2 == 1));
    expected
}

#[test]
fn partition_degenerate_lengths() {
    let mut empty: [u32; 0] = [];
    partition_evens(&mut empty);
    assert_eq!(empty, []);

    let mut one = [7u32];
    partition_evens(&mut one);
    assert_eq!(one, [7]);

    let mut two = [7u32, 9];
    partition_evens(&mut two);
    assert_eq!(two, [7, 9]);
}

#[test]
fn partition_every_length_up_to_200() {
    for n in 0..200 {
        let mut data = indices(n);
        partition_evens(&mut data);
        assert_eq!(data, evens_then_odds(n), "length {}", n);
    }
}

#[test]
fn partition_length_12_shares_a_cycle_between_starts() {
    let mut data = indices(12);
    partition_evens(&mut data);
    assert_eq!(data, vec![0, 2, 4, 6, 8, 10, 1, 3, 5, 7, 9, 11]);
}

#[test]
fn partition_length_32() {
    let mut data = indices(32);
    partition_evens(&mut data);
    assert_eq!(data, evens_then_odds(32));
}

#[test]
fn partition_keeps_the_order_of_equal_keys() {
    let mut data = vec!["a0", "b0", "a1", "b1", "a2", "b2", "a3"];
    partition_evens(&mut data);
    assert_eq!(data, vec!["a0", "a1", "a2", "a3", "b0", "b1", "b2"]);
}

#[test]
fn interleave_weaves_back_half_into_front_half() {
    let mut data = [0, 1, 2, 3, 4, 5];
    interleave(&mut data);
    assert_eq!(data, [0, 3, 1, 4, 2, 5]);
}

#[test]
fn interleave_odd_length_has_longer_front() {
    let mut data = [0, 2, 4, 1, 3];
    interleave(&mut data);
    assert_eq!(data, [0, 1, 2, 3, 4]);
}

#[test]
fn interleave_degenerate_lengths() {
    let mut empty: [u8; 0] = [];
    interleave(&mut empty);
    assert_eq!(empty, []);

    let mut one = [3u8];
    interleave(&mut one);
    assert_eq!(one, [3]);

    let mut two = [3u8, 4];
    interleave(&mut two);
    assert_eq!(two, [3, 4]);
}

#[test]
fn interleave_restores_what_partition_separated() {
    for n in 0..200 {
        let mut data: Vec<usize> = (0..n).map(|v| v * v + 1).collect();
        let before = data.clone();
        partition_evens(&mut data);
        interleave(&mut data);
        assert_eq!(data, before, "length {}", n);
    }
}

#[test]
fn partition_restores_what_interleave_wove() {
    for n in 0..200 {
        let mut data: Vec<usize> = (0..n).map(|v| 3 * v + 2).collect();
        let before = data.clone();
        interleave(&mut data);
        partition_evens(&mut data);
        assert_eq!(data, before, "length {}", n);
    }
}

#[test]
fn pad_extends_to_next_power_of_two() {
    assert_eq!(pad(&[1, 2, 3], 0), vec![1, 2, 3, 0]);
    assert_eq!(pad(&[1, 2, 3, 4, 5], 0), vec![1, 2, 3, 4, 5, 0, 0, 0]);
    assert_eq!(pad(&[1.5, 2.5, 3.5, 4.5, 5.5, 6.5], 0.0).len(), 8);
}

#[test]
fn pad_keeps_power_of_two_lengths() {
    assert_eq!(pad(&[9], 0), vec![9]);
    assert_eq!(pad(&[9, 8], 0), vec![9, 8]);
    assert_eq!(pad(&[1, 2, 3, 4], 0), vec![1, 2, 3, 4]);
    let eight = [1.0, 3.0, 5.0, 11.0, 12.0, 13.0, 0.0, 1.0];
    assert_eq!(pad(&eight, 0.0), eight.to_vec());
}

#[test]
fn pad_of_nothing_is_nothing() {
    let empty: [i32; 0] = [];
    assert_eq!(pad(&empty, 0), Vec::<i32>::new());
}

#[test]
fn pad_fills_with_the_given_value() {
    assert_eq!(pad(&[1, 2, 3, 4, 5, 6], -1), vec![1, 2, 3, 4, 5, 6, -1, -1]);
}

#[test]
fn padded_len_values() {
    assert_eq!(padded_len(0), 0);
    assert_eq!(padded_len(1), 1);
    assert_eq!(padded_len(2), 2);
    assert_eq!(padded_len(3), 4);
    assert_eq!(padded_len(4), 4);
    assert_eq!(padded_len(5), 8);
    assert_eq!(padded_len(1000), 1024);
    assert_eq!(padded_len(1024), 1024);
    assert_eq!(padded_len(1025), 2048);
}

#[test]
fn power_of_two_values() {
    assert!(!power_of_two(0));
    assert!(power_of_two(1));
    assert!(power_of_two(2));
    assert!(!power_of_two(3));
    assert!(power_of_two(4));
    assert!(!power_of_two(6));
    assert!(power_of_two(1 << 20));
    assert!(!power_of_two((1 << 20) + 2));
}
