use grid_rewrite::rotation::{
    bit, enumerate_negations, is_permutation, parity, rotation_permutations, AxisPermutation,
    TransformedAxis,
};

fn negations(config: &[TransformedAxis]) -> usize {
    config.iter().filter(|a| a.negated).count()
}

fn axes(config: &[TransformedAxis]) -> Vec<usize> {
    config.iter().map(|a| a.input_axis).collect()
}

#[test]
fn two_dimensions_have_four_rotations() {
    assert_eq!(rotation_permutations(2).len(), 4);
}

#[test]
fn three_dimensions_have_twenty_four_rotations() {
    assert_eq!(rotation_permutations(3).len(), 24);
}

#[test]
fn one_and_four_dimensions() {
    assert_eq!(rotation_permutations(1).len(), 1);
    assert_eq!(rotation_permutations(4).len(), 192);
}

#[test]
fn every_rotation_preserves_orientation() {
    for d in 1..6 {
        let all = rotation_permutations(d);
        for config in &all {
            let a = axes(config);
            assert!(is_permutation(&a));
            assert_eq!(a.len(), d);
            let odd_negations = negations(config) % 2 == 1;
            assert_eq!(parity(&a) ^ odd_negations, false);
        }
    }
}

#[test]
fn rotations_are_distinct() {
    let all = rotation_permutations(3);
    let keys: Vec<Vec<(usize, bool)>> = all
        .iter()
        .map(|c| c.iter().map(|a| (a.input_axis, a.negated)).collect())
        .collect();
    for i in 0..keys.len() {
        for j in (i + 1)..keys.len() {
            assert_ne!(keys[i], keys[j]);
        }
    }
}

#[test]
fn two_dimensional_rotations_in_arrangement_order() {
    let all = rotation_permutations(2);
    let keys: Vec<Vec<(usize, bool)>> = all
        .iter()
        .map(|c| c.iter().map(|a| (a.input_axis, a.negated)).collect())
        .collect();
    assert_eq!(
        keys,
        vec![
            vec![(1, false), (0, true)],
            vec![(1, true), (0, false)],
            vec![(0, false), (1, false)],
            vec![(0, true), (1, true)],
        ]
    );
}

#[test]
fn parity_of_permutations() {
    assert!(!parity(&[0, 1, 2]));
    assert!(parity(&[1, 0, 2]));
    assert!(!parity(&[1, 2, 0]));
    assert!(parity(&[3, 2, 1, 0, 4]) == false);
    assert!(parity(&[1, 0, 3, 2, 4, 5, 7, 6]) == true);
    assert!(!parity(&[]));
    assert!(!parity(&[0]));
}

#[test]
fn permutation_check() {
    assert!(is_permutation(&[2, 0, 1]));
    assert!(!is_permutation(&[0, 0, 1]));
    assert!(is_permutation(&[]));
    assert!(!is_permutation(&[1, 2, 1]));
}

#[test]
fn bits_of_a_number() {
    assert!(bit(5, 0));
    assert!(!bit(5, 1));
    assert!(bit(5, 2));
    assert!(bit(0x8000_0000, 31));
    assert!(!bit(0x7fff_ffff, 31));
}

#[test]
fn negations_follow_the_bits_and_fix_the_last_sign() {
    let out = enumerate_negations(AxisPermutation { items: vec![1, 0, 2], parity: true });
    assert_eq!(out.len(), 4);
    for (c, config) in out.iter().enumerate() {
        assert_eq!(axes(config), vec![1, 0, 2]);
        assert_eq!(config[0].negated, c & 1 == 1);
        assert_eq!(config[1].negated, c & 2 == 2);
        assert_eq!(negations(config) % 2, 1);
    }
}
