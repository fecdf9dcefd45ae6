//! A streaming enumerator over a mixed-radix state space, yielding the
//! decoded ordinals of each state index in turn.

use vstd::prelude::*;
use crate::comb::{count_states, pick_state, lemma_seq_product_zero, seq_product, state_decode};

verus! {

fn clone_ordinals(source: &Vec<usize>) -> (copy: Vec<usize>)
    ensures
        copy@ == source@,
{
    let mut copy: Vec<usize> = Vec::new();
    let len = source.len();
    let mut i: usize = 0;
    while i < len
        invariant
            0 <= i <= len,
            len == source@.len(),
            copy@ == source@.take(i as int),
        decreases len - i,
    {
        let value = source[i];
        copy.push(value);
        proof {
            assert(source@.take(i + 1) =~= source@.take(i as int).push(source@[i as int]));
        }
        i = i + 1;
    }
    proof {
        assert(source@.take(len as int) =~= source@);
    }
    copy
}

/// Walks the mixed-radix state space of the given cardinalities in index
/// order, handing out the decoded ordinals of each state.
pub struct Enumerator {
    cardinalities: Vec<usize>,
    ordinals: Vec<usize>,
    index: usize,
    states: usize,
}

impl Enumerator {
    /// The cardinalities that shape the state space.
    pub closed spec fn cards(&self) -> Seq<usize> {
        self.cardinalities@
    }

    /// The index of the next state to hand out.
    pub closed spec fn cursor(&self) -> int {
        self.index as int
    }

    /// The state count agrees with the cardinalities and the cursor has
    /// not run past it.
    pub open spec fn wf(&self) -> bool {
        &&& self.states_spec() == seq_product(self.cards())
        &&& 0 <= self.cursor() <= self.states_spec()
    }

    /// The total number of states.
    pub closed spec fn states_spec(&self) -> int {
        self.states as int
    }

    /// Scratch-buffer agreement; its content is internal to this module.
    pub closed spec fn buffers_wf(&self) -> bool {
        self.ordinals@.len() == self.cardinalities@.len()
    }

    /// An enumerator at the first state of the given state space.
    pub fn new(cardinalities: Vec<usize>) -> (enumerator: Self)
        requires
            forall|i: int|
                0 <= i <= cardinalities@.len() ==> seq_product(#[trigger] cardinalities@.take(i))
                    <= usize::MAX,
        ensures
            enumerator.wf(),
            enumerator.buffers_wf(),
            enumerator.cards() == cardinalities@,
            enumerator.cursor() == 0,
    {
        let mut ordinals: Vec<usize> = Vec::new();
        let len = cardinalities.len();
        let mut i: usize = 0;
        while i < len
            invariant
                0 <= i <= len,
                ordinals@.len() == i,
            decreases len - i,
        {
            ordinals.push(0);
            i = i + 1;
        }
        Self::new_no_alloc(cardinalities, ordinals)
    }

    /// As `new`, but reuses a caller-supplied ordinal buffer whose length
    /// equals the number of dimensions.
    pub fn new_no_alloc(cardinalities: Vec<usize>, ordinals: Vec<usize>) -> (enumerator: Self)
        requires
            ordinals@.len() == cardinalities@.len(),
            forall|i: int|
                0 <= i <= cardinalities@.len() ==> seq_product(#[trigger] cardinalities@.take(i))
                    <= usize::MAX,
        ensures
            enumerator.wf(),
            enumerator.buffers_wf(),
            enumerator.cards() == cardinalities@,
            enumerator.cursor() == 0,
    {
        let states = count_states(&cardinalities);
        Enumerator { cardinalities, ordinals, index: 0, states }
    }

    /// Decodes and hands out the next state, or `None` once every state in
    /// `[0, count_states)` has been handed out.
    pub fn next(&mut self) -> (item: Option<Vec<usize>>)
        requires
            old(self).wf(),
            old(self).buffers_wf(),
        ensures
            final(self).wf(),
            final(self).buffers_wf(),
            final(self).cards() == old(self).cards(),
            match item {
                Some(ordinals) => old(self).cursor() < old(self).states_spec() && ordinals@
                    == state_decode(old(self).cards(), old(self).cursor()) && final(self).cursor()
                    == old(self).cursor() + 1,
                None => old(self).cursor() == old(self).states_spec() && final(self).cursor()
                    == old(self).cursor(),
            },
    {
        if self.index != self.states {
            proof {
                assert forall|i: int| 0 <= i < self.cardinalities@.len()
                    implies self.cardinalities@[i] >= 1 by {
                    if self.cardinalities@[i] == 0 {
                        lemma_seq_product_zero(self.cardinalities@, i);
                    }
                }
            }
            pick_state(&self.cardinalities, self.index, &mut self.ordinals);
            self.index = self.index + 1;
            Some(clone_ordinals(&self.ordinals))
        } else {
            None
        }
    }
}

} // verus!
