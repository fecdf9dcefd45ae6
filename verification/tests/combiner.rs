use podium::comb::combiner::Combiner;

fn iterate_combiner(n: usize, r: usize) -> Vec<Vec<usize>> {
    let mut combiner = Combiner::new(n, r);
    let mut outputs = Vec::new();
    loop {
        let ordinals = combiner.ordinals().clone();
        outputs.push(ordinals);
        if !combiner.advance() {
            break;
        }
    }
    outputs
}

#[test]
fn combiner_0c0() {
    let outputs = iterate_combiner(0, 0);
    let expected_outputs: Vec<Vec<usize>> = vec![vec![]];
    assert_eq!(expected_outputs, outputs);
}

#[test]
fn combiner_1c0() {
    let outputs = iterate_combiner(1, 0);
    let expected_outputs: Vec<Vec<usize>> = vec![vec![]];
    assert_eq!(expected_outputs, outputs);
}

#[test]
fn combiner_1c1() {
    let outputs = iterate_combiner(1, 1);
    let expected_outputs = vec![vec![0]];
    assert_eq!(expected_outputs, outputs);
}

#[test]
fn combiner_2c1() {
    let outputs = iterate_combiner(2, 1);
    let expected_outputs = vec![vec![0], vec![1]];
    assert_eq!(expected_outputs, outputs);
}

#[test]
fn combiner_2c2() {
    let outputs = iterate_combiner(2, 2);
    let expected_outputs = vec![vec![0, 1]];
    assert_eq!(expected_outputs, outputs);
}

#[test]
fn combiner_3c0() {
    let outputs = iterate_combiner(3, 0);
    let expected_outputs: Vec<Vec<usize>> = vec![vec![]];
    assert_eq!(expected_outputs, outputs);
}

#[test]
fn combiner_3c1() {
    let outputs = iterate_combiner(3, 1);
    let expected_outputs = vec![vec![0], vec![1], vec![2]];
    assert_eq!(expected_outputs, outputs);
}

#[test]
fn combiner_3c2() {
    let outputs = iterate_combiner(3, 2);
    let expected_outputs = vec![vec![0, 1], vec![0, 2], vec![1, 2]];
    assert_eq!(expected_outputs, outputs);
}

#[test]
fn combiner_3c3() {
    let outputs = iterate_combiner(3, 3);
    let expected_outputs = vec![vec![0, 1, 2]];
    assert_eq!(expected_outputs, outputs);
}

#[test]
fn combiner_6c4() {
    let outputs = iterate_combiner(6, 4);
    let expected_outputs = vec![
        vec![0, 1, 2, 3],
        vec![0, 1, 2, 4],
        vec![0, 1, 2, 5],
        vec![0, 1, 3, 4],
        vec![0, 1, 3, 5],
        vec![0, 1, 4, 5],
        vec![0, 2, 3, 4],
        vec![0, 2, 3, 5],
        vec![0, 2, 4, 5],
        vec![0, 3, 4, 5],
        vec![1, 2, 3, 4],
        vec![1, 2, 3, 5],
        vec![1, 2, 4, 5],
        vec![1, 3, 4, 5],
        vec![2, 3, 4, 5],
    ];
    assert_eq!(expected_outputs, outputs);
}

#[test]
fn combiner_no_alloc_reuses_buffer() {
    let buffer = vec![7, 7, 7];
    let mut combiner = Combiner::new_no_alloc(4, buffer);
    assert_eq!(&vec![0, 1, 2], combiner.ordinals());
    assert!(combiner.advance());
    assert_eq!(&vec![0, 1, 3], combiner.ordinals());
    let recovered = combiner.into_ordinals();
    assert_eq!(vec![0, 1, 3], recovered);
}
