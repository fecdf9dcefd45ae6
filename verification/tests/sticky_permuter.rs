use podium::comb::sticky_permuter::{permute, Visit};

struct Collector {
    outputs: Vec<Vec<usize>>,
}

impl Visit for Collector {
    fn visit(&mut self, ordinals: &Vec<usize>) -> bool {
        self.outputs.push(ordinals.clone());
        true
    }
}

struct Capped {
    outputs: Vec<Vec<usize>>,
    permutation: usize,
    cap: usize,
}

impl Visit for Capped {
    fn visit(&mut self, ordinals: &Vec<usize>) -> bool {
        self.outputs.push(ordinals.clone());
        self.permutation += 1;
        self.permutation < self.cap
    }
}

fn iterate_sticky(n: usize, r: usize) -> Vec<Vec<usize>> {
    let mut collector = Collector { outputs: vec![] };
    permute(n, r, &mut collector);
    collector.outputs
}

#[test]
fn sticky_permuter_permute_0p0() {
    let outputs = iterate_sticky(0, 0);
    let expected_outputs: Vec<Vec<usize>> = vec![vec![]];
    assert_eq!(expected_outputs, outputs);
}

#[test]
fn sticky_permuter_permute_1p0() {
    let outputs = iterate_sticky(1, 0);
    let expected_outputs: Vec<Vec<usize>> = vec![vec![]];
    assert_eq!(expected_outputs, outputs);
}

#[test]
fn sticky_permuter_permute_1p1() {
    let outputs = iterate_sticky(1, 1);
    let expected_outputs = vec![vec![0]];
    assert_eq!(expected_outputs, outputs);
}

#[test]
fn sticky_permuter_permute_4p0() {
    let outputs = iterate_sticky(4, 0);
    let expected_outputs: Vec<Vec<usize>> = vec![vec![]];
    assert_eq!(expected_outputs, outputs);
}

#[test]
fn sticky_permuter_permute_4p2() {
    let outputs = iterate_sticky(4, 2);
    let expected_outputs = vec![
        vec![0, 1],
        vec![1, 0],
        vec![0, 2],
        vec![2, 0],
        vec![0, 3],
        vec![3, 0],
        vec![1, 2],
        vec![2, 1],
        vec![1, 3],
        vec![3, 1],
        vec![2, 3],
        vec![3, 2],
    ];
    assert_eq!(expected_outputs, outputs);
}

#[test]
fn sticky_permuter_permute_4p3() {
    let outputs = iterate_sticky(4, 3);
    let expected_outputs = vec![
        vec![0, 1, 2],
        vec![1, 0, 2],
        vec![0, 2, 1],
        vec![2, 0, 1],
        vec![1, 2, 0],
        vec![2, 1, 0],
        vec![0, 1, 3],
        vec![1, 0, 3],
        vec![0, 3, 1],
        vec![3, 0, 1],
        vec![1, 3, 0],
        vec![3, 1, 0],
        vec![0, 2, 3],
        vec![2, 0, 3],
        vec![0, 3, 2],
        vec![3, 0, 2],
        vec![2, 3, 0],
        vec![3, 2, 0],
        vec![1, 2, 3],
        vec![2, 1, 3],
        vec![1, 3, 2],
        vec![3, 1, 2],
        vec![2, 3, 1],
        vec![3, 2, 1],
    ];
    assert_eq!(expected_outputs, outputs);
}

#[test]
fn sticky_permuter_permute_4p4() {
    let outputs = iterate_sticky(4, 4);
    let expected_outputs = vec![
        vec![0, 1, 2, 3],
        vec![1, 0, 2, 3],
        vec![0, 2, 1, 3],
        vec![2, 0, 1, 3],
        vec![1, 2, 0, 3],
        vec![2, 1, 0, 3],
        vec![0, 1, 3, 2],
        vec![1, 0, 3, 2],
        vec![0, 3, 1, 2],
        vec![3, 0, 1, 2],
        vec![1, 3, 0, 2],
        vec![3, 1, 0, 2],
        vec![0, 2, 3, 1],
        vec![2, 0, 3, 1],
        vec![0, 3, 2, 1],
        vec![3, 0, 2, 1],
        vec![2, 3, 0, 1],
        vec![3, 2, 0, 1],
        vec![1, 2, 3, 0],
        vec![2, 1, 3, 0],
        vec![1, 3, 2, 0],
        vec![3, 1, 2, 0],
        vec![2, 3, 1, 0],
        vec![3, 2, 1, 0],
    ];
    assert_eq!(expected_outputs, outputs);
}

#[test]
fn sticky_permuter_permute_4p2_subset() {
    let mut capped = Capped { outputs: vec![], permutation: 0, cap: 6 };
    permute(4, 2, &mut capped);
    let expected_outputs = vec![
        vec![0, 1],
        vec![1, 0],
        vec![0, 2],
        vec![2, 0],
        vec![0, 3],
        vec![3, 0],
    ];
    assert_eq!(expected_outputs, capped.outputs);
}
