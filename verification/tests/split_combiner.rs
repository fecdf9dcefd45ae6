use podium::comb::split_combiner::{RetainedSplit, Split, SplitCombiner};

fn iterate_split_combiner(n: usize) -> Vec<RetainedSplit> {
    let mut combiner = SplitCombiner::new(n);
    let mut outputs = Vec::new();
    loop {
        outputs.push(combiner.retained());
        if !combiner.advance() {
            break;
        }
    }
    outputs
}

#[test]
fn split_1n0() {
    let outputs = iterate_split_combiner(1);
    let expected = vec![RetainedSplit(vec![], 0)];
    assert_eq!(expected, outputs);
}

#[test]
fn split_4n3() {
    let outputs = iterate_split_combiner(4);
    let expected = vec![
        RetainedSplit(vec![0, 1, 2], 3),
        RetainedSplit(vec![0, 1, 3], 2),
        RetainedSplit(vec![0, 2, 3], 1),
        RetainedSplit(vec![1, 2, 3], 0),
    ];
    assert_eq!(expected, outputs);
}

#[test]
fn safety_move_owned() {
    let mut combiners: [Option<SplitCombiner>; 2] = [None, None];
    combiners[0] = Some(SplitCombiner::new(4));
    let kept = vec![0, 1, 2];
    assert_eq!(Split(&kept, 3), combiners[0].as_ref().unwrap().read());

    combiners[1] = combiners[0].take();
    assert_eq!(Split(&kept, 3), combiners[1].as_ref().unwrap().read());

    assert!(combiners[1].as_mut().unwrap().advance());
    let kept = vec![0, 1, 3];
    assert_eq!(Split(&kept, 2), combiners[1].as_ref().unwrap().read());

    assert!(combiners[1].as_mut().unwrap().advance());
    let kept = vec![0, 2, 3];
    assert_eq!(Split(&kept, 1), combiners[1].as_ref().unwrap().read());

    combiners[0] = combiners[1].take();
    assert_eq!(Split(&kept, 1), combiners[0].as_ref().unwrap().read());

    assert!(combiners[0].as_mut().unwrap().advance());
    let kept = vec![1, 2, 3];
    assert_eq!(Split(&kept, 0), combiners[0].as_ref().unwrap().read());

    assert!(!combiners[0].as_mut().unwrap().advance());
}

#[test]
fn safety_move_borrowed() {
    let mut combiners: [Option<SplitCombiner>; 2] = [None, None];

    let ordinals: Vec<usize> = vec![0; 3];
    combiners[0] = Some(SplitCombiner::new_no_alloc(ordinals));
    let kept = vec![0, 1, 2];
    assert_eq!(Split(&kept, 3), combiners[0].as_ref().unwrap().read());

    combiners[1] = combiners[0].take();
    assert_eq!(Split(&kept, 3), combiners[1].as_ref().unwrap().read());

    assert!(combiners[1].as_mut().unwrap().advance());
    let kept = vec![0, 1, 3];
    assert_eq!(Split(&kept, 2), combiners[1].as_ref().unwrap().read());

    assert!(combiners[1].as_mut().unwrap().advance());
    let kept = vec![0, 2, 3];
    assert_eq!(Split(&kept, 1), combiners[1].as_ref().unwrap().read());

    combiners[0] = combiners[1].take();
    assert_eq!(Split(&kept, 1), combiners[0].as_ref().unwrap().read());

    assert!(combiners[0].as_mut().unwrap().advance());
    let kept = vec![1, 2, 3];
    assert_eq!(Split(&kept, 0), combiners[0].as_ref().unwrap().read());

    assert!(!combiners[0].as_mut().unwrap().advance());
}
