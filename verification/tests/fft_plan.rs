use wavefold::fft_plan::{
    dct_interleave_index, digit_reverse_index, factor_mixed_radix, fft_eligible,
};

#[test]
fn factor_mixed_radix_covers_common_video_dimensions() {
    assert_eq!(factor_mixed_radix(1920), Some(vec![2, 2, 2, 2, 2, 2, 2, 3, 5]));
    assert_eq!(factor_mixed_radix(1080), Some(vec![2, 2, 2, 3, 3, 3, 5]));
    assert_eq!(factor_mixed_radix(1280), Some(vec![2, 2, 2, 2, 2, 2, 2, 2, 5]));
    assert_eq!(factor_mixed_radix(720), Some(vec![2, 2, 2, 2, 3, 3, 5]));
    assert_eq!(factor_mixed_radix(3840), Some(vec![2, 2, 2, 2, 2, 2, 2, 2, 3, 5]));
    assert_eq!(factor_mixed_radix(2160), Some(vec![2, 2, 2, 2, 3, 3, 3, 5]));
}

#[test]
fn factor_mixed_radix_rejects_large_prime_factors() {
    assert_eq!(factor_mixed_radix(1082), None); // 2 x 541, 541 prime
    assert_eq!(factor_mixed_radix(0), None);
    assert_eq!(factor_mixed_radix(1), None);
    assert_eq!(factor_mixed_radix(11), None); // 11 itself, prime > 7
}

#[test]
fn factors_multiply_back_and_come_smallest_first() {
    for n in 2..2000usize {
        if let Some(f) = factor_mixed_radix(n) {
            assert_eq!(f.iter().product::<usize>(), n);
            assert!(f.windows(2).all(|p| p[0] <= p[1]));
            assert!(f.iter().all(|r| [2, 3, 5, 7].contains(r)));
        }
    }
}

#[test]
fn every_product_of_radices_is_found_and_nothing_else() {
    let mut smooth = vec![false; 1000];
    smooth[1] = true;
    for n in 1..1000usize {
        if smooth[n] {
            for r in [2, 3, 5, 7] {
                if n * r < 1000 {
                    smooth[n * r] = true;
                }
            }
        }
    }
    for n in 2..1000usize {
        assert_eq!(factor_mixed_radix(n).is_some(), smooth[n], "n={n}");
    }
}

#[test]
fn only_even_lengths_are_eligible() {
    assert_eq!(fft_eligible(15), None);
    assert_eq!(fft_eligible(0), None);
    assert_eq!(fft_eligible(30), Some(vec![2, 3, 5]));
    assert_eq!(fft_eligible(22), None);
    assert_eq!(fft_eligible(2), Some(vec![2]));
}

#[test]
fn digit_reversal_of_mixed_radices() {
    // 12 = 2 * 2 * 3: i = d0 + 2 * d1 + 4 * d2 goes to d2 + 3 * d1 + 6 * d0.
    let f = [2usize, 2, 3];
    let expected = [0usize, 6, 3, 9, 1, 7, 4, 10, 2, 8, 5, 11];
    for (i, e) in expected.iter().enumerate() {
        assert_eq!(digit_reverse_index(i, &f), *e);
    }
}

#[test]
fn digit_reversal_is_undone_by_the_reversed_factors() {
    let f = [2usize, 3, 5, 7];
    let mut back = f;
    back.reverse();
    let mut seen = vec![false; 210];
    for i in 0..210 {
        let r = digit_reverse_index(i, &f);
        assert!(!seen[r]);
        seen[r] = true;
        assert_eq!(digit_reverse_index(r, &back), i);
    }
}

#[test]
fn digit_reversal_of_twos_reverses_bits() {
    let f = [2usize; 8];
    for i in 0..256usize {
        assert_eq!(digit_reverse_index(i, &f), (i as u8).reverse_bits() as usize);
    }
}

#[test]
fn digit_reversal_with_no_factors_is_zero() {
    assert_eq!(digit_reverse_index(0, &[]), 0);
    assert_eq!(digit_reverse_index(17, &[]), 0);
    assert_eq!(digit_reverse_index(9, &[2]), 1);
}

#[test]
fn interleave_puts_even_elements_first() {
    let at: Vec<usize> = (0..8).map(|i| dct_interleave_index(i, 8)).collect();
    assert_eq!(at, vec![0, 7, 1, 6, 2, 5, 3, 4]);
    for n in [2usize, 6, 24, 210] {
        let mut seen = vec![false; n];
        for i in 0..n {
            let to = dct_interleave_index(i, n);
            assert!(!seen[to]);
            seen[to] = true;
        }
    }
}
