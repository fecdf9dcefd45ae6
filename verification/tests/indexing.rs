use podium::comb::{
    count_permutations, count_states, pick_permutation, pick_state, permutation_index, state_index,
};

#[test]
fn state_round_trip_mixed_radix() {
    let cardinalities = vec![2, 3, 4];
    let states = count_states(&cardinalities);
    for index in 0..states {
        let mut ordinals = vec![0; 3];
        pick_state(&cardinalities, index, &mut ordinals);
        assert_eq!(index, state_index(&cardinalities, &ordinals));
    }
}

#[test]
fn state_index_exact_value() {
    // Ordinals [1, 2, 3] in radices [2, 3, 4] encode 1 + 2 * (2 + 3 * 3) = 23.
    let cardinalities = vec![2, 3, 4];
    assert_eq!(23, state_index(&cardinalities, &vec![1, 2, 3]));
    assert_eq!(0, state_index(&cardinalities, &vec![0, 0, 0]));
}

#[test]
fn permutation_round_trip_4p3() {
    let permutations = count_permutations(4, 3);
    let mut bitmap = vec![false; 4];
    for index in 0..permutations {
        let mut ordinals = vec![0; 3];
        pick_permutation(4, index, &mut bitmap, &mut ordinals);
        assert_eq!(index, permutation_index(4, &ordinals, &mut bitmap));
    }
}

#[test]
fn permutation_index_exact_value() {
    let mut bitmap = vec![false; 4];
    assert_eq!(0, permutation_index(4, &vec![0, 1, 2], &mut bitmap));
    // [2, 0, 1] sits at index 2 of the 4-permute-3 traversal.
    assert_eq!(2, permutation_index(4, &vec![2, 0, 1], &mut bitmap));
}

#[test]
fn pick_permutation_covers_every_tuple_once() {
    // Every index below the count decodes to a distinct valid tuple: with
    // the round trip, the traversal is a bijection onto the 4-permute-2
    // tuples.
    let permutations = count_permutations(4, 2);
    assert_eq!(12, permutations);
    let mut bitmap = vec![false; 4];
    let mut seen = Vec::new();
    for index in 0..permutations {
        let mut ordinals = vec![0; 2];
        pick_permutation(4, index, &mut bitmap, &mut ordinals);
        assert_ne!(ordinals[0], ordinals[1]);
        assert!(ordinals[0] < 4 && ordinals[1] < 4);
        assert!(!seen.contains(&ordinals));
        seen.push(ordinals);
    }
    assert_eq!(12, seen.len());
}

#[test]
fn count_states_with_zero_cardinality() {
    assert_eq!(0, count_states(&vec![3, 0, 2]));
    assert_eq!(1, count_states(&vec![]));
}
