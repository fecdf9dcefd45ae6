use podium::comb::combiner::Combiner;
use podium::comb::permuter::Permuter;
use podium::comb::split_combiner::SplitCombiner;
use podium::comb::sticky_permuter::{permute, Visit};

struct Collector {
    outputs: Vec<Vec<usize>>,
}

impl Visit for Collector {
    fn visit(&mut self, ordinals: &Vec<usize>) -> bool {
        self.outputs.push(ordinals.clone());
        true
    }
}

// Exhausting a combiner yields exactly n-choose-r tuples, each ascending,
// with no repeats.
#[test]
fn combiner_visits_each_combination_once() {
    let mut combiner = Combiner::new(5, 3);
    let mut seen = Vec::new();
    loop {
        let ordinals = combiner.ordinals().clone();
        assert!(ordinals[0] < ordinals[1] && ordinals[1] < ordinals[2]);
        assert!(ordinals[2] < 5);
        assert!(!seen.contains(&ordinals));
        seen.push(ordinals);
        if !combiner.advance() {
            break;
        }
    }
    assert_eq!(10, seen.len());
}

// Exhausting a permuter yields exactly n-permute-r tuples with no repeats.
#[test]
fn permuter_visits_each_permutation_once() {
    let mut permuter = Permuter::new(5, 2);
    let mut seen = Vec::new();
    loop {
        let ordinals = permuter.read().clone();
        assert_ne!(ordinals[0], ordinals[1]);
        assert!(ordinals[0] < 5 && ordinals[1] < 5);
        assert!(!seen.contains(&ordinals));
        seen.push(ordinals);
        if !permuter.advance() {
            break;
        }
    }
    assert_eq!(20, seen.len());
}

// A split combiner yields each omitted ordinal exactly once, descending.
#[test]
fn split_combiner_omits_each_ordinal_once() {
    let mut combiner = SplitCombiner::new(5);
    let mut omitted = Vec::new();
    loop {
        let split = combiner.retained();
        assert_eq!(4, split.0.len());
        assert!(!split.0.contains(&split.1));
        omitted.push(split.1);
        if !combiner.advance() {
            break;
        }
    }
    assert_eq!(vec![4, 3, 2, 1, 0], omitted);
}

// The sticky traversal emits exactly n-permute-r tuples with no repeats.
#[test]
fn sticky_visits_each_permutation_once() {
    let mut collector = Collector { outputs: vec![] };
    permute(5, 2, &mut collector);
    assert_eq!(20, collector.outputs.len());
    for (i, a) in collector.outputs.iter().enumerate() {
        assert_ne!(a[0], a[1]);
        assert!(a[0] < 5 && a[1] < 5);
        for b in &collector.outputs[i + 1..] {
            assert_ne!(a, b);
        }
    }
}

// An aborted sticky traversal sees exactly a prefix of the full traversal.
#[test]
fn sticky_abort_yields_prefix() {
    struct Stopper {
        outputs: Vec<Vec<usize>>,
        left: usize,
    }
    impl Visit for Stopper {
        fn visit(&mut self, ordinals: &Vec<usize>) -> bool {
            self.outputs.push(ordinals.clone());
            self.left -= 1;
            self.left > 0
        }
    }
    let mut full = Collector { outputs: vec![] };
    permute(4, 3, &mut full);
    for cut in 1..full.outputs.len() {
        let mut stopper = Stopper { outputs: vec![], left: cut };
        permute(4, 3, &mut stopper);
        assert_eq!(&full.outputs[..cut], &stopper.outputs[..]);
    }
}
