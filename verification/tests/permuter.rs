use podium::comb::permuter::Permuter;

fn iterate_permuter(n: usize, r: usize) -> Vec<Vec<usize>> {
    let mut permuter = Permuter::new(n, r);
    let mut outputs = Vec::new();
    loop {
        let ordinals = permuter.read().clone();
        outputs.push(ordinals);
        if !permuter.advance() {
            break;
        }
    }
    outputs
}

#[test]
fn permuter_0p0() {
    let outputs = iterate_permuter(0, 0);
    let expected_outputs: Vec<Vec<usize>> = vec![vec![]];
    assert_eq!(expected_outputs, outputs);
}

#[test]
fn permuter_1p0() {
    let outputs = iterate_permuter(1, 0);
    let expected_outputs: Vec<Vec<usize>> = vec![vec![]];
    assert_eq!(expected_outputs, outputs);
}

#[test]
fn permuter_1p1() {
    let outputs = iterate_permuter(1, 1);
    let expected_outputs = vec![vec![0]];
    assert_eq!(expected_outputs, outputs);
}

#[test]
fn permuter_4p0() {
    let outputs = iterate_permuter(4, 0);
    let expected_outputs: Vec<Vec<usize>> = vec![vec![]];
    assert_eq!(expected_outputs, outputs);
}

#[test]
fn permuter_4p1() {
    let outputs = iterate_permuter(4, 1);
    let expected_outputs = vec![vec![0], vec![1], vec![2], vec![3]];
    assert_eq!(expected_outputs, outputs);
}

#[test]
fn permuter_4p2() {
    let outputs = iterate_permuter(4, 2);
    let expected_outputs = vec![
        vec![0, 1],
        vec![0, 2],
        vec![0, 3],
        vec![1, 0],
        vec![1, 2],
        vec![1, 3],
        vec![2, 0],
        vec![2, 1],
        vec![2, 3],
        vec![3, 0],
        vec![3, 1],
        vec![3, 2],
    ];
    assert_eq!(expected_outputs, outputs);
}

#[test]
fn permuter_4p3() {
    let outputs = iterate_permuter(4, 3);
    let expected_outputs = vec![
        vec![0, 1, 2],
        vec![0, 1, 3],
        vec![0, 2, 1],
        vec![0, 2, 3],
        vec![0, 3, 1],
        vec![0, 3, 2],
        vec![1, 0, 2],
        vec![1, 0, 3],
        vec![1, 2, 0],
        vec![1, 2, 3],
        vec![1, 3, 0],
        vec![1, 3, 2],
        vec![2, 0, 1],
        vec![2, 0, 3],
        vec![2, 1, 0],
        vec![2, 1, 3],
        vec![2, 3, 0],
        vec![2, 3, 1],
        vec![3, 0, 1],
        vec![3, 0, 2],
        vec![3, 1, 0],
        vec![3, 1, 2],
        vec![3, 2, 0],
        vec![3, 2, 1],
    ];
    assert_eq!(expected_outputs, outputs);
}

#[test]
fn permuter_4p4() {
    let outputs = iterate_permuter(4, 4);
    let expected_outputs = vec![
        vec![0, 1, 2, 3],
        vec![0, 1, 3, 2],
        vec![0, 2, 1, 3],
        vec![0, 2, 3, 1],
        vec![0, 3, 1, 2],
        vec![0, 3, 2, 1],
        vec![1, 0, 2, 3],
        vec![1, 0, 3, 2],
        vec![1, 2, 0, 3],
        vec![1, 2, 3, 0],
        vec![1, 3, 0, 2],
        vec![1, 3, 2, 0],
        vec![2, 0, 1, 3],
        vec![2, 0, 3, 1],
        vec![2, 1, 0, 3],
        vec![2, 1, 3, 0],
        vec![2, 3, 0, 1],
        vec![2, 3, 1, 0],
        vec![3, 0, 1, 2],
        vec![3, 0, 2, 1],
        vec![3, 1, 0, 2],
        vec![3, 1, 2, 0],
        vec![3, 2, 0, 1],
        vec![3, 2, 1, 0],
    ];
    assert_eq!(expected_outputs, outputs);
}
