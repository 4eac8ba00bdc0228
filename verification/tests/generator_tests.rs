use cube_homs::graph_maps::permutation_generator::{
    increment_mod_base, PermutationGenerator,
};

#[test]
fn test_digit_generator_exhaustive() {
    // From any seed, exactly codomain_n^domain_n distinct digit sequences
    // are produced before the counter returns to its seed.
    for seed in [0u64, 1, 5, 26, 1000] {
        let mut generator = PermutationGenerator::new(3, 3, seed);
        let mut seen: Vec<Vec<u32>> = Vec::new();
        while let Some(mut it) = generator.next() {
            let mut digits = Vec::new();
            while let Some(d) = it.next() {
                digits.push(d);
            }
            assert_eq!(digits.len(), 3);
            assert!(digits.iter().all(|&d| d < 3));
            seen.push(digits);
        }
        assert_eq!(seen.len(), 27, "seed {seed}: expected 3^3 sequences");
        let mut sorted = seen.clone();
        sorted.sort();
        sorted.dedup();
        assert_eq!(
            sorted.len(),
            27,
            "seed {seed}: sequences must be pairwise distinct"
        );
    }
}

#[test]
fn test_generator_restartable() {
    // Two generators with the same seed produce the same sequence.
    let mut g1 = PermutationGenerator::new(2, 4, 9);
    let mut g2 = PermutationGenerator::new(2, 4, 9);
    loop {
        match (g1.next(), g2.next()) {
            (Some(mut a), Some(mut b)) => {
                loop {
                    match (a.next(), b.next()) {
                        (Some(x), Some(y)) => assert_eq!(x, y),
                        (None, None) => break,
                        _ => panic!("digit streams diverged"),
                    }
                }
            }
            (None, None) => break,
            _ => panic!("generators diverged"),
        }
    }
}

#[test]
fn test_increment_mod_base() {
    // Plain increment, little-endian: [0, 1] in base 2 is 2; plus one is 3.
    let mut digits = vec![0u32, 1];
    assert!(increment_mod_base(&mut digits, 2));
    assert_eq!(digits, vec![1, 1]);

    // All digits at their maximum wrap around to zero and report overflow.
    let mut digits = vec![1u32, 1];
    assert!(!increment_mod_base(&mut digits, 2));
    assert_eq!(digits, vec![0, 0]);

    // Carry propagation in base 10: 199 + 1 = 200.
    let mut digits = vec![9u32, 9, 1];
    assert!(increment_mod_base(&mut digits, 10));
    assert_eq!(digits, vec![0, 0, 2]);
}

#[test]
fn test_generator_try_new_ceiling() {
    // 2^64 does not fit in 64 bits, 2^63 does.
    assert!(PermutationGenerator::try_new(64, 2, 0).is_none());
    assert!(PermutationGenerator::try_new(63, 2, 0).is_some());
    // 10^8 is fine.
    assert!(PermutationGenerator::try_new(8, 10, 0).is_some());
}

#[test]
fn test_generator_counts_base_cases() {
    // codomain^domain with a zero base: no functions exist.
    let mut g = PermutationGenerator::new(3, 0, 0);
    assert!(g.next().is_none());

    // A 0-element domain has exactly one function into any codomain.
    let mut g = PermutationGenerator::new(0, 7, 2);
    let mut count = 0;
    while let Some(mut it) = g.next() {
        assert!(it.next().is_none());
        count += 1;
    }
    assert_eq!(count, 1);
}
