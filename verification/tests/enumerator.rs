use podium::comb::enumerator::Enumerator;

fn collect_states(cardinalities: Vec<usize>) -> Vec<Vec<usize>> {
    let mut enumerator = Enumerator::new(cardinalities);
    let mut outputs = vec![];
    while let Some(ordinals) = enumerator.next() {
        outputs.push(ordinals);
    }
    outputs
}

#[test]
fn iterator_0() {
    let outputs = collect_states(vec![]);
    let expected_outputs: Vec<Vec<usize>> = vec![vec![]];
    assert_eq!(expected_outputs, outputs);
}

#[test]
fn iterator_1() {
    let outputs = collect_states(vec![1]);
    let expected_outputs = vec![vec![0]];
    assert_eq!(expected_outputs, outputs);
}

#[test]
fn iterator_1_empty() {
    let outputs = collect_states(vec![0]);
    let expected_outputs: Vec<Vec<usize>> = vec![];
    assert_eq!(expected_outputs, outputs);
}

#[test]
fn iterator_3() {
    let outputs = collect_states(vec![2, 3, 4]);
    let expected_outputs = vec![
        vec![0, 0, 0],
        vec![1, 0, 0],
        vec![0, 1, 0],
        vec![1, 1, 0],
        vec![0, 2, 0],
        vec![1, 2, 0],
        vec![0, 0, 1],
        vec![1, 0, 1],
        vec![0, 1, 1],
        vec![1, 1, 1],
        vec![0, 2, 1],
        vec![1, 2, 1],
        vec![0, 0, 2],
        vec![1, 0, 2],
        vec![0, 1, 2],
        vec![1, 1, 2],
        vec![0, 2, 2],
        vec![1, 2, 2],
        vec![0, 0, 3],
        vec![1, 0, 3],
        vec![0, 1, 3],
        vec![1, 1, 3],
        vec![0, 2, 3],
        vec![1, 2, 3],
    ];
    assert_eq!(expected_outputs, outputs);
}
