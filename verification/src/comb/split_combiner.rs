//! A combiner for the special case of `n` choose `n - 1`: each combination
//! leaves out exactly one ordinal, disclosed alongside the combination.

use vstd::prelude::*;

verus! {

/// A borrowed view of one step of the split traversal: the `n - 1` ordinals
/// kept, ascending, and the one ordinal omitted.
#[derive(Debug, PartialEq, Eq)]
pub struct Split<'a>(pub &'a Vec<usize>, pub usize);

/// An owned copy of a `Split`, for retention beyond the generator's step.
#[derive(Debug, PartialEq, Eq)]
pub struct RetainedSplit(pub Vec<usize>, pub usize);

/// A generator over the `n` combinations of `n - 1` ordinals out of
/// `[0, n)`, keyed by the omitted ordinal, which counts down from `n - 1`
/// to `0`.
pub struct SplitCombiner {
    ordinals: Vec<usize>,
    omitted: usize,
}

impl View for SplitCombiner {
    type V = Seq<usize>;

    closed spec fn view(&self) -> Seq<usize> {
        self.ordinals@
    }
}

impl SplitCombiner {
    /// The ordinal its current combination leaves out.
    pub closed spec fn omitted_spec(&self) -> int {
        self.omitted as int
    }

    /// The ordinals hold everything in `[0, n)` except the omitted one,
    /// in ascending order.
    pub open spec fn wf(&self) -> bool {
        &&& 0 <= self.omitted_spec() <= self@.len()
        &&& forall|i: int|
            0 <= i < self@.len() ==> self@[i] == (if i < self.omitted_spec() {
                i
            } else {
                i + 1
            })
    }

    /// An ordinal buffer sized for an `n` choose `n - 1` traversal.
    pub fn alloc_ordinals(n: usize) -> (ordinals: Vec<usize>)
        requires
            n > 0,
        ensures
            ordinals@.len() == n - 1,
    {
        let mut ordinals: Vec<usize> = Vec::new();
        let mut i: usize = 0;
        while i < n - 1
            invariant
                0 <= i <= n - 1,
                ordinals@.len() == i,
            decreases n - 1 - i,
        {
            ordinals.push(0);
            i = i + 1;
        }
        ordinals
    }

    /// A split combiner over `[0, n)`, resting on the combination that
    /// omits `n - 1`.
    pub fn new(n: usize) -> (combiner: Self)
        requires
            n > 0,
        ensures
            combiner.wf(),
            combiner@.len() == n - 1,
            combiner.omitted_spec() == n - 1,
    {
        Self::new_no_alloc(Self::alloc_ordinals(n))
    }

    /// As `new`, but reuses a caller-supplied buffer of length `n - 1`,
    /// overwriting its contents.
    pub fn new_no_alloc(ordinals: Vec<usize>) -> (combiner: Self)
        ensures
            combiner.wf(),
            combiner@.len() == ordinals@.len(),
            combiner.omitted_spec() == ordinals@.len(),
    {
        let mut ordinals = ordinals;
        let len = ordinals.len();
        let mut i: usize = 0;
        while i < len
            invariant
                0 <= i <= len,
                ordinals@.len() == len,
                forall|p: int| 0 <= p < i ==> ordinals@[p] == p,
            decreases len - i,
        {
            ordinals.set(i, i);
            i = i + 1;
        }
        SplitCombiner { ordinals, omitted: len }
    }

    /// The kept ordinals and the omitted ordinal of the current combination.
    pub fn read(&self) -> (split: Split<'_>)
        ensures
            split.0@ == self@,
            split.1 as int == self.omitted_spec(),
    {
        Split(&self.ordinals, self.omitted)
    }

    /// An owned copy of the current combination and its omitted ordinal.
    pub fn retained(&self) -> (split: RetainedSplit)
        ensures
            split.0@ == self@,
            split.1 as int == self.omitted_spec(),
    {
        let mut kept: Vec<usize> = Vec::new();
        let mut i: usize = 0;
        let len = self.ordinals.len();
        while i < len
            invariant
                0 <= i <= len,
                len == self@.len(),
                kept@ == self@.take(i as int),
            decreases len - i,
        {
            let value = self.ordinals[i];
            kept.push(value);
            proof {
                assert(self@.take(i + 1) =~= self@.take(i as int).push(self@[i as int]));
            }
            i = i + 1;
        }
        proof {
            assert(self@.take(len as int) =~= self@);
        }
        RetainedSplit(kept, self.omitted)
    }

    /// Steps to the combination that omits the next lower ordinal, or
    /// reports exhaustion once the combination omitting `0` has been read.
    pub fn advance(&mut self) -> (advanced: bool)
        requires
            old(self).wf(),
        ensures
            final(self).wf(),
            final(self)@.len() == old(self)@.len(),
            advanced ==> old(self).omitted_spec() > 0,
            advanced ==> final(self).omitted_spec() == old(self).omitted_spec() - 1,
            !advanced ==> old(self).omitted_spec() == 0,
            !advanced ==> final(self)@ == old(self)@ && final(self).omitted_spec() == 0,
    {
        if self.omitted != 0 {
            self.omitted = self.omitted - 1;
            let len = self.ordinals.len();
            let ghost omitted = self.omitted as int;
            let mut index: usize = 0;
            while index < len
                invariant
                    0 <= omitted <= len,
                    self.omitted as int == omitted,
                    self.ordinals@.len() == len,
                    0 <= index <= len,
                    forall|p: int|
                        0 <= p < index ==> self.ordinals@[p] == (if p < omitted {
                            p
                        } else {
                            p + 1
                        }),
                decreases len - index,
            {
                let ordinal = if index < self.omitted {
                    index
                } else {
                    index + 1
                };
                self.ordinals.set(index, ordinal);
                index = index + 1;
            }
            true
        } else {
            false
        }
    }
}

} // verus!
