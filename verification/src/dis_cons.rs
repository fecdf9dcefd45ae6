//! Transforms over formulae in disjunctive normal form: distributing a new
//! term across every disjunct.

pub mod group_score;

use vstd::prelude::*;
use crate::logic::con::Conjunction;
use crate::logic::dis::Disjunction;

verus! {

/// A disjunction of conjunctions: a formula in disjunctive normal form.
pub type DisCons<T> = Disjunction<Conjunction<T>>;

/// The term sequences of a sequence of conjunctions.
pub open spec fn views<T>(conjunctions: Seq<Conjunction<T>>) -> Seq<Seq<T>> {
    Seq::new(conjunctions.len(), |i: int| conjunctions[i]@)
}

/// Conjoins `lhs` with every disjunct of `rhs`: the result has one
/// two-term conjunction per disjunct.
pub fn expand_dis<T: Copy>(lhs: &T, rhs: &Disjunction<T>) -> (result: DisCons<T>)
    ensures
        views(result@) == Seq::new(rhs@.len(), |i: int| seq![*lhs, rhs@[i]]),
{
    let len = rhs.len();
    let mut result: DisCons<T> = Disjunction::with_capacity(len);
    let mut i: usize = 0;
    while i < len
        invariant
            0 <= i <= len,
            len == rhs@.len(),
            result@.len() == i,
            forall|j: int| 0 <= j < i ==> #[trigger] result@[j]@ == seq![*lhs, rhs@[j]],
        decreases len - i,
    {
        let mut pair: Vec<T> = Vec::with_capacity(2);
        pair.push(*lhs);
        let disjunct = *rhs.get(i);
        pair.push(disjunct);
        proof {
            assert(pair@ =~= seq![*lhs, rhs@[i as int]]);
        }
        result.push(Conjunction::new(pair));
        i = i + 1;
    }
    proof {
        assert(views(result@) =~= Seq::new(rhs@.len(), |i: int| seq![*lhs, rhs@[i]]));
    }
    result
}

/// Conjoins `lhs` with every conjunction of `rhs`: each disjunct grows by
/// one leading term.
pub fn expand_dis_cons<T: Copy>(lhs: &T, rhs: &DisCons<T>) -> (result: DisCons<T>)
    ensures
        views(result@) == Seq::new(rhs@.len(), |i: int| seq![*lhs] + rhs@[i]@),
{
    let len = rhs.len();
    let mut result: DisCons<T> = Disjunction::with_capacity(len);
    let mut i: usize = 0;
    while i < len
        invariant
            0 <= i <= len,
            len == rhs@.len(),
            result@.len() == i,
            forall|j: int| 0 <= j < i ==> #[trigger] result@[j]@ == seq![*lhs] + rhs@[j]@,
        decreases len - i,
    {
        let disjunct = rhs.get(i);
        let disjunct_len = disjunct.len();
        let mut grown: Conjunction<T> = Conjunction::with_capacity(disjunct_len);
        grown.push(*lhs);
        proof {
            assert(grown@ =~= seq![*lhs] + disjunct@.take(0));
        }
        let mut k: usize = 0;
        while k < disjunct_len
            invariant
                0 <= k <= disjunct_len,
                disjunct_len == disjunct@.len(),
                grown@ == seq![*lhs] + disjunct@.take(k as int),
            decreases disjunct_len - k,
        {
            let conjunct = *disjunct.get(k);
            grown.push(conjunct);
            proof {
                assert((seq![*lhs] + disjunct@.take(k as int)).push(disjunct@[k as int])
                    =~= seq![*lhs] + disjunct@.take(k + 1));
            }
            k = k + 1;
        }
        proof {
            assert(disjunct@.take(disjunct_len as int) =~= disjunct@);
        }
        result.push(grown);
        i = i + 1;
    }
    proof {
        assert(views(result@) =~= Seq::new(rhs@.len(), |i: int| seq![*lhs] + rhs@[i]@));
    }
    result
}

} // verus!
