use podium::comb::{
    count_permutations, count_states, is_unique_linear, is_unique_quadratic, pick_permutation,
    pick_permutation_reverse, pick_state,
};

fn generate_permutations(n: usize, r: usize) -> Vec<Vec<usize>> {
    let mut outputs = vec![];
    let permutations = count_permutations(n, r);
    let mut bitmap = vec![false; n];
    for index in 0..permutations {
        let mut ordinals = vec![0; r];
        pick_permutation(n, index, &mut bitmap, &mut ordinals);
        outputs.push(ordinals);
    }
    outputs
}

fn generate_permutations_reverse(n: usize, r: usize) -> Vec<Vec<usize>> {
    let mut outputs = vec![];
    let permutations = count_permutations(n, r);
    let mut bitmap = vec![false; n];
    for index in (0..permutations).rev() {
        let mut ordinals = vec![0; r];
        pick_permutation_reverse(n, index, &mut bitmap, &mut ordinals);
        outputs.push(ordinals);
    }
    outputs
}

#[test]
fn test_pick_state() {
    let cardinalities = vec![2, 3, 4];
    let mut outputs = vec![];
    let states = count_states(&cardinalities);
    assert_eq!(24, states);
    for index in 0..states {
        let mut ordinals = vec![0; 3];
        pick_state(&cardinalities, index, &mut ordinals);
        outputs.push(ordinals);
    }
    let expected_outputs = vec![
        vec![0, 0, 0],
        vec![1, 0, 0],
        vec![0, 1, 0],
        vec![1, 1, 0],
        vec![0, 2, 0],
        vec![1, 2, 0],
        vec![0, 0, 1],
        vec![1, 0, 1],
        vec![0, 1, 1],
        vec![1, 1, 1],
        vec![0, 2, 1],
        vec![1, 2, 1],
        vec![0, 0, 2],
        vec![1, 0, 2],
        vec![0, 1, 2],
        vec![1, 1, 2],
        vec![0, 2, 2],
        vec![1, 2, 2],
        vec![0, 0, 3],
        vec![1, 0, 3],
        vec![0, 1, 3],
        vec![1, 1, 3],
        vec![0, 2, 3],
        vec![1, 2, 3],
    ];
    assert_eq!(expected_outputs, outputs);
}

#[test]
fn test_is_unique_quadratic() {
    assert!(is_unique_quadratic(&vec![]));
    assert!(is_unique_quadratic(&vec![1]));
    assert!(is_unique_quadratic(&vec![1, 2, 3]));
    assert!(!is_unique_quadratic(&vec![1, 1]));
    assert!(!is_unique_quadratic(&vec![1, 0, 1]));
}

#[test]
fn test_is_unique_linear() {
    let mut bitmap_0 = vec![false; 0];
    let mut bitmap_1 = vec![false; 1];
    let mut bitmap_2 = vec![false; 2];
    let mut bitmap_3 = vec![false; 3];

    assert!(is_unique_linear(&vec![], &mut bitmap_0));
    assert!(is_unique_linear(&vec![0], &mut bitmap_1));
    assert!(is_unique_linear(&vec![0, 1, 2], &mut bitmap_3));
    assert!(is_unique_linear(&vec![2, 1, 0], &mut bitmap_3));
    assert!(!is_unique_linear(&vec![0, 0], &mut bitmap_2));
    assert!(!is_unique_linear(&vec![1, 0, 1], &mut bitmap_3));
}

#[test]
fn test_count_permutations() {
    assert_eq!(1, count_permutations(0, 0));
    assert_eq!(1, count_permutations(1, 0));
    assert_eq!(1, count_permutations(1, 1));
    assert_eq!(1, count_permutations(2, 0));
    assert_eq!(2, count_permutations(2, 1));
    assert_eq!(2, count_permutations(2, 2));
    assert_eq!(1, count_permutations(3, 0));
    assert_eq!(3, count_permutations(3, 1));
    assert_eq!(6, count_permutations(3, 2));
    assert_eq!(6, count_permutations(3, 3));
    assert_eq!(1, count_permutations(4, 0));
    assert_eq!(4, count_permutations(4, 1));
    assert_eq!(12, count_permutations(4, 2));
    assert_eq!(24, count_permutations(4, 3));
    assert_eq!(24, count_permutations(4, 4));
}

#[test]
fn test_pick_permutation_3p3() {
    let outputs = generate_permutations(3, 3);
    let expected_outputs = vec![
        vec![0, 1, 2],
        vec![1, 0, 2],
        vec![2, 0, 1],
        vec![0, 2, 1],
        vec![1, 2, 0],
        vec![2, 1, 0],
    ];
    assert_eq!(expected_outputs, outputs);
}

#[test]
fn test_pick_permutation_4p4() {
    let outputs = generate_permutations(4, 4);
    let expected_outputs = vec![
        vec![0, 1, 2, 3],
        vec![1, 0, 2, 3],
        vec![2, 0, 1, 3],
        vec![3, 0, 1, 2],
        vec![0, 2, 1, 3],
        vec![1, 2, 0, 3],
        vec![2, 1, 0, 3],
        vec![3, 1, 0, 2],
        vec![0, 3, 1, 2],
        vec![1, 3, 0, 2],
        vec![2, 3, 0, 1],
        vec![3, 2, 0, 1],
        vec![0, 1, 3, 2],
        vec![1, 0, 3, 2],
        vec![2, 0, 3, 1],
        vec![3, 0, 2, 1],
        vec![0, 2, 3, 1],
        vec![1, 2, 3, 0],
        vec![2, 1, 3, 0],
        vec![3, 1, 2, 0],
        vec![0, 3, 2, 1],
        vec![1, 3, 2, 0],
        vec![2, 3, 1, 0],
        vec![3, 2, 1, 0],
    ];
    assert_eq!(expected_outputs, outputs);
}

#[test]
fn test_pick_permutation_4p2() {
    let outputs = generate_permutations(4, 2);
    let expected_outputs = vec![
        vec![0, 1],
        vec![1, 0],
        vec![2, 0],
        vec![3, 0],
        vec![0, 2],
        vec![1, 2],
        vec![2, 1],
        vec![3, 1],
        vec![0, 3],
        vec![1, 3],
        vec![2, 3],
        vec![3, 2],
    ];
    assert_eq!(expected_outputs, outputs);
}

#[test]
fn test_pick_permutation_4p1() {
    let outputs = generate_permutations(4, 1);
    let expected_outputs = vec![vec![0], vec![1], vec![2], vec![3]];
    assert_eq!(expected_outputs, outputs);
}

#[test]
fn test_pick_permutation_4p0() {
    let outputs = generate_permutations(4, 0);
    let expected_outputs: Vec<Vec<usize>> = vec![vec![]];
    assert_eq!(expected_outputs, outputs);
}

#[test]
fn test_pick_permutation_reverse_3p3() {
    let outputs = generate_permutations_reverse(3, 3);
    let expected_outputs = vec![
        vec![0, 1, 2],
        vec![0, 2, 1],
        vec![1, 2, 0],
        vec![1, 0, 2],
        vec![2, 0, 1],
        vec![2, 1, 0],
    ];
    assert_eq!(expected_outputs, outputs);
}

#[test]
fn test_pick_permutation_reverse_4p4() {
    let outputs = generate_permutations_reverse(4, 4);
    let expected_outputs = vec![
        vec![0, 1, 2, 3],
        vec![0, 1, 3, 2],
        vec![0, 2, 3, 1],
        vec![1, 2, 3, 0],
        vec![0, 2, 1, 3],
        vec![0, 3, 1, 2],
        vec![0, 3, 2, 1],
        vec![1, 3, 2, 0],
        vec![1, 2, 0, 3],
        vec![1, 3, 0, 2],
        vec![2, 3, 0, 1],
        vec![2, 3, 1, 0],
        vec![1, 0, 2, 3],
        vec![1, 0, 3, 2],
        vec![2, 0, 3, 1],
        vec![2, 1, 3, 0],
        vec![2, 0, 1, 3],
        vec![3, 0, 1, 2],
        vec![3, 0, 2, 1],
        vec![3, 1, 2, 0],
        vec![2, 1, 0, 3],
        vec![3, 1, 0, 2],
        vec![3, 2, 0, 1],
        vec![3, 2, 1, 0],
    ];
    assert_eq!(expected_outputs, outputs);
}

#[test]
fn test_prefer_state_traversal() {
    // 3 runners over 3 ranks: 27 states costing 81 against 6 permutations
    // costing 27, so permutation indexing wins.
    assert!(!podium::comb::prefer_state_traversal(3, 3));
    // 12 runners over 2 ranks: 144 states costing 288 against 132
    // permutations costing 9504, so state enumeration wins.
    assert!(podium::comb::prefer_state_traversal(12, 2));
    assert!(!podium::comb::prefer_state_traversal(1, 1));
}
