use blackrock2::generator::{int_sqrt, BlackRockGenerator};

fn verify(range: u64, seed: u64, rounds: usize) {
    let randomizer = BlackRockGenerator::with_seed_and_rounds(range, seed, rounds);

    // make sure every number gets added exactly once
    let mut list = vec![0; range as usize];
    for i in 0..range {
        let x = randomizer.shuffle(i) as usize;
        list[x] += 1;
    }

    for (i, number) in list.into_iter().enumerate() {
        assert_eq!(number, 1, "Index: {i}, range: {range:?}");
    }
}

#[test]
fn verify_ranges() {
    let mut range = 3015 * 3;

    for i in 0..5 {
        range += 11 + i;
        range *= 1 + i;

        verify(range, 0, 6);
    }

    verify(10, 0, 3);
    verify(100, 0, 3);
}

#[test]
fn dont_get_stuck() {
    for range in [10, 100] {
        for seed in 0..100 {
            let randomizer = BlackRockGenerator::with_seed_and_rounds(range, seed, 3);

            for i in 0..range {
                let _ = randomizer.shuffle(i);
            }
        }
    }
}

#[test]
fn int_sqrt_exact_values() {
    assert_eq!(int_sqrt(0), 0);
    assert_eq!(int_sqrt(1), 1);
    assert_eq!(int_sqrt(2), 1);
    assert_eq!(int_sqrt(3), 1);
    assert_eq!(int_sqrt(4), 2);
    assert_eq!(int_sqrt(15), 3);
    assert_eq!(int_sqrt(16), 4);
    assert_eq!(int_sqrt(99), 9);
    assert_eq!(int_sqrt(1 << 32), 1 << 16);
    assert_eq!(int_sqrt(u64::MAX), 0xffff_ffff);
    assert_eq!(int_sqrt(0xffff_fffe_0000_0001), 0xffff_ffff);
    assert_eq!(int_sqrt(0xffff_fffe_0000_0000), 0xffff_fffe);
}

#[test]
fn ten_with_seed_zero_matches_reference() {
    let g = BlackRockGenerator::with_seed_and_rounds(10, 0, 3);
    let got: Vec<u64> = (0..10).map(|i| g.shuffle(i)).collect();
    assert_eq!(got, vec![1, 4, 8, 0, 2, 5, 7, 6, 3, 9]);
}

#[test]
fn hundred_with_seed_zero_matches_reference() {
    let expected: Vec<u64> = vec![
        83, 59, 17, 18, 1, 88, 8, 4, 58, 43, 0, 26, 75, 28, 96, 97, 98, 71, 36, 37, 19, 16, 82,
        22, 35, 51, 7, 45, 9, 47, 70, 91, 11, 12, 24, 84, 60, 61, 38, 81, 3, 41, 5, 79, 25, 53,
        27, 55, 65, 46, 67, 29, 30, 13, 99, 72, 73, 62, 2, 21, 49, 23, 92, 44, 76, 85, 86, 74,
        20, 40, 77, 42, 63, 52, 94, 54, 80, 32, 33, 31, 39, 48, 90, 50, 15, 64, 78, 66, 6, 56,
        57, 34, 14, 68, 69, 87, 93, 10, 95, 89,
    ];
    let g = BlackRockGenerator::with_seed(100, 0);
    let got: Vec<u64> = (0..100).map(|i| g.shuffle(i)).collect();
    assert_eq!(got, expected);
    let mut sorted = got.clone();
    sorted.sort();
    assert_eq!(sorted, (0..100).collect::<Vec<u64>>());
}

#[test]
fn same_arguments_same_permutation() {
    let g1 = BlackRockGenerator::with_seed_and_rounds(1000, 12345, 4);
    let g2 = BlackRockGenerator::with_seed_and_rounds(1000, 12345, 4);
    for i in 0..1000 {
        assert_eq!(g1.shuffle(i), g2.shuffle(i));
    }
}

#[test]
fn single_point_domain() {
    for seed in 0..20 {
        assert_eq!(BlackRockGenerator::with_seed(1, seed).shuffle(0), 0);
    }
}

#[test]
fn two_point_domain() {
    let g = BlackRockGenerator::with_seed_and_rounds(2, 5, 3);
    assert_eq!(g.shuffle(0), 1);
    assert_eq!(g.shuffle(1), 0);
}

#[test]
fn bijective_for_each_round_count() {
    for rounds in [0, 1, 3, 6] {
        verify(500, 77, rounds);
    }
}

#[test]
fn zero_rounds_is_identity() {
    let g = BlackRockGenerator::with_seed_and_rounds(10, 7, 0);
    for i in 0..10 {
        assert_eq!(g.shuffle(i), i);
    }
}

#[test]
fn one_round_matches_reference() {
    let g = BlackRockGenerator::with_seed_and_rounds(10, 7, 1);
    let got: Vec<u64> = (0..10).map(|i| g.shuffle(i)).collect();
    assert_eq!(got, vec![1, 2, 3, 0, 4, 5, 6, 7, 8, 9]);
}

#[test]
fn address_space_matches_reference() {
    let g = BlackRockGenerator::with_seed(1 << 32, 42);
    assert_eq!(g.shuffle(0), 1306068402);
    assert_eq!(g.shuffle(1), 3283263706);
    assert_eq!(g.shuffle(2), 2893358691);
    assert_eq!(g.shuffle((1 << 32) - 1), 1285333711);
}

#[test]
fn largest_range_matches_reference() {
    let g = BlackRockGenerator::with_seed_and_rounds(u64::MAX, 1, 3);
    assert_eq!(g.shuffle(0), 3808394480178873891);
    assert_eq!(g.shuffle(1), 11720927404603564048);
    assert_eq!(g.shuffle(2), 12376634674191187994);
}

#[test]
fn random_seeds_still_permute() {
    for range in [0u64, 1, 7, 64, 65, 300] {
        for g in [BlackRockGenerator::new(range), BlackRockGenerator::with_rounds(range, 5)] {
            let mut seen = vec![false; range as usize];
            for i in 0..range {
                let x = g.shuffle(i) as usize;
                assert!(!seen[x]);
                seen[x] = true;
            }
        }
    }
}

#[test]
fn default_generator_is_empty() {
    let _g = BlackRockGenerator::default();
}
