//! A streaming generator of `n` choose `r` combinations in ascending
//! lexicographic order, advanced one step at a time without allocation.

use vstd::prelude::*;
use vstd::arithmetic::power::pow;

verus! {

/// An ordinal tuple that is a combination drawn from `[0, n)`: strictly
/// ascending, so each element appears at most once.
pub open spec fn is_combination(s: Seq<usize>, n: int) -> bool {
    &&& forall|i: int| 0 <= i < s.len() ==> s[i] < n
    &&& forall|i: int| 0 <= i && i + 1 < s.len() ==> #[trigger] s[i] < s[i + 1]
}

/// The tuples agree at every position before `k`.
pub open spec fn lex_agree(a: Seq<usize>, b: Seq<usize>, k: int) -> bool {
    forall|j: int| 0 <= j < k ==> a[j] == b[j]
}

/// Position `k` witnesses that `a` precedes `b` lexicographically.
pub open spec fn lex_lt_at(a: Seq<usize>, b: Seq<usize>, k: int) -> bool {
    &&& 0 <= k < a.len()
    &&& k < b.len()
    &&& a[k] < b[k]
    &&& lex_agree(a, b, k)
}

/// Strict lexicographic order on ordinal tuples.
pub open spec fn lex_lt(a: Seq<usize>, b: Seq<usize>) -> bool {
    exists|k: int| lex_lt_at(a, b, k)
}

/// The value of an ordinal tuple read as a base-`n` numeral, most
/// significant position first: strictly monotone in lexicographic order.
pub open spec fn lex_value(s: Seq<usize>, n: int) -> int
    decreases s.len(),
{
    if s.len() == 0 {
        0
    } else {
        s[0] * pow(n, (s.len() - 1) as nat) + lex_value(s.drop_first(), n)
    }
}

pub proof fn lemma_lex_value_bound(s: Seq<usize>, n: int)
    requires
        n >= 1,
        forall|i: int| 0 <= i < s.len() ==> s[i] < n,
    ensures
        0 <= lex_value(s, n) < pow(n, s.len() as nat),
    decreases s.len(),
{
    reveal(vstd::arithmetic::power::pow);
    if s.len() == 0 {
        assert(pow(n, 0) == 1);
    } else {
        let p = pow(n, (s.len() - 1) as nat);
        let tail = s.drop_first();
        assert(forall|i: int| 0 <= i < tail.len() ==> tail[i] < n);
        lemma_lex_value_bound(tail, n);
        assert(pow(n, s.len() as nat) == n * p);
        assert(0 <= s[0] * p) by (nonlinear_arith)
            requires s[0] >= 0 && p >= 1;
        assert(s[0] * p + lex_value(tail, n) < n * p) by (nonlinear_arith)
            requires s[0] <= n - 1 && lex_value(tail, n) < p && p >= 1 && 0 <= lex_value(tail, n);
    }
}

pub proof fn lemma_lex_value_lt(a: Seq<usize>, b: Seq<usize>, n: int)
    requires
        n >= 1,
        a.len() == b.len(),
        forall|i: int| 0 <= i < a.len() ==> a[i] < n,
        forall|i: int| 0 <= i < b.len() ==> b[i] < n,
        lex_lt(a, b),
    ensures
        lex_value(a, n) < lex_value(b, n),
    decreases a.len(),
{
    reveal(vstd::arithmetic::power::pow);
    let k = choose|k: int| lex_lt_at(a, b, k);
    let p = pow(n, (a.len() - 1) as nat);
    let ta = a.drop_first();
    let tb = b.drop_first();
    assert(forall|i: int| 0 <= i < ta.len() ==> ta[i] < n);
    assert(forall|i: int| 0 <= i < tb.len() ==> tb[i] < n);
    lemma_lex_value_bound(ta, n);
    lemma_lex_value_bound(tb, n);
    if k == 0 {
        assert(a[0] + 1 <= b[0]);
        assert(a[0] * p + p <= b[0] * p) by (nonlinear_arith)
            requires a[0] + 1 <= b[0] && p >= 1;
    } else {
        assert(a[0] == b[0]);
        assert(lex_lt_at(ta, tb, k - 1)) by {
            assert(ta[k - 1] == a[k] && tb[k - 1] == b[k]);
            assert forall|j: int| 0 <= j < k - 1 implies ta[j] == tb[j] by {
                assert(a[j + 1] == b[j + 1]);
            }
        }
        assert(lex_lt(ta, tb));
        lemma_lex_value_lt(ta, tb, n);
    }
}

/// Every element of a combination leaves room for those after it.
pub proof fn lemma_combination_gap(s: Seq<usize>, n: int, k: int, j: int)
    requires
        is_combination(s, n),
        0 <= k <= j < s.len(),
    ensures
        s[j] >= s[k] + (j - k),
    decreases j - k,
{
    if k < j {
        lemma_combination_gap(s, n, k + 1, j);
    }
}

/// No element of a combination can exceed `n - (len - position)`.
pub proof fn lemma_combination_entry_max(s: Seq<usize>, n: int, k: int)
    requires
        is_combination(s, n),
        0 <= k < s.len(),
    ensures
        s[k] <= n - (s.len() - k),
{
    lemma_combination_gap(s, n, k, s.len() - 1);
}

/// The position `advance` bumps, scanning down from `from`: the greatest
/// position whose ordinal has room to grow below its right neighbour (or
/// below `n` at the last position); `-1` when no position has room.
pub open spec fn bump_position(s: Seq<usize>, n: int, from: int) -> int
    decreases from + 1,
{
    if from < 0 {
        -1
    } else if s[from] + 1 < (if from == s.len() - 1 {
        n
    } else {
        s[from + 1] as int
    }) {
        from
    } else {
        bump_position(s, n, from - 1)
    }
}

/// Whether the combination is the last of its traversal: no position has
/// room to grow.
pub open spec fn comb_is_last(s: Seq<usize>, n: int) -> bool {
    bump_position(s, n, s.len() - 1) == -1
}

/// The immediate lexicographic successor of a combination: the bumped
/// position grows by one and the positions after it restart consecutively.
pub open spec fn comb_next(s: Seq<usize>, n: int) -> Seq<usize> {
    let caret = bump_position(s, n, s.len() - 1);
    Seq::new(
        s.len(),
        |j: int|
            if j < caret {
                s[j]
            } else {
                (s[caret] + 1 + (j - caret)) as usize
            },
    )
}

/// `bump_position` lands on `c` when the positions above `c` are saturated
/// and `c` itself has room.
pub proof fn lemma_bump_position_at(s: Seq<usize>, n: int, from: int, c: int)
    requires
        is_combination(s, n),
        0 <= c <= from < s.len(),
        s[c] + 1 < (if c == s.len() - 1 {
            n
        } else {
            s[c + 1] as int
        }),
        forall|j: int| c < j < s.len() ==> s[j] == n - (s.len() - j),
    ensures
        bump_position(s, n, from) == c,
    decreases from,
{
    if from > c {
        assert(s[from] == n - (s.len() - from));
        if from < s.len() - 1 {
            assert(s[from + 1] == n - (s.len() - from - 1));
        }
        lemma_bump_position_at(s, n, from - 1, c);
    }
}

/// `bump_position` finds nothing when every position is saturated.
pub proof fn lemma_bump_position_none(s: Seq<usize>, n: int, from: int)
    requires
        is_combination(s, n),
        from < s.len(),
        forall|j: int| 0 <= j < s.len() ==> s[j] == n - (s.len() - j),
    ensures
        bump_position(s, n, from) == -1,
    decreases from + 1,
{
    if from >= 0 {
        assert(s[from] == n - (s.len() - from));
        if from < s.len() - 1 {
            assert(s[from + 1] == n - (s.len() - from - 1));
        }
        lemma_bump_position_none(s, n, from - 1);
    }
}

/// The successor of a combination that is not the last is itself a
/// combination of the same length, strictly greater in lexicographic order.
#[verifier::rlimit(60)]
pub proof fn lemma_comb_next_props(s: Seq<usize>, n: int)
    requires
        is_combination(s, n),
        s.len() <= n <= usize::MAX,
        !comb_is_last(s, n),
    ensures
        comb_next(s, n).len() == s.len(),
        is_combination(comb_next(s, n), n),
        lex_lt(s, comb_next(s, n)),
        lex_agree(s, comb_next(s, n), bump_position(s, n, s.len() - 1)),
        forall|j: int|
            bump_position(s, n, s.len() - 1) <= j < s.len() ==> #[trigger] comb_next(s, n)[j]
                == s[bump_position(s, n, s.len() - 1)] + 1 + (j - bump_position(
                s,
                n,
                s.len() - 1,
            )),
{
    let r = s.len() as int;
    let c = bump_position(s, n, r - 1);
    let b = comb_next(s, n);
    lemma_bump_in_range(s, n, r - 1);
    assert(0 <= c < r);
    let lim = if c == r - 1 {
        n
    } else {
        s[c + 1] as int
    };
    assert(s[c] + 1 < lim);
    assert forall|j: int| c <= j < r implies b[j] == s[c] + 1 + (j - c) && b[j] < n by {
        let v = s[c] + 1 + (j - c);
        if c < r - 1 {
            lemma_combination_entry_max(s, n, c + 1);
            assert(s[c] + 1 < s[c + 1]);
        }
        assert(v < n);
        assert(0 <= v <= usize::MAX);
        assert(b[j] == (v as usize));
    }
    assert forall|j: int| 0 <= j && j + 1 < r implies #[trigger] b[j] < b[j + 1] by {
        if j + 1 <= c {
            assert(b[j] == s[j]);
            if j + 1 < c {
                assert(b[j + 1] == s[j + 1]);
            } else {
                assert(b[c] == s[c] + 1);
                assert(s[j] < s[c]);
            }
        } else {
            assert(b[j + 1] == s[c] + 1 + (j + 1 - c));
        }
    }
    assert forall|j: int| 0 <= j < r implies b[j] < n by {
        if j < c {
            assert(b[j] == s[j]);
        }
    }
    assert(lex_lt_at(s, b, c));
}

/// `bump_position` stays within `[-1, from]`, and when it finds a position
/// that position has room to grow.
proof fn lemma_bump_in_range(s: Seq<usize>, n: int, from: int)
    requires
        -1 <= from < s.len(),
    ensures
        -1 <= bump_position(s, n, from) <= from,
        bump_position(s, n, from) >= 0 ==> s[bump_position(s, n, from)] + 1 < (if bump_position(
            s,
            n,
            from,
        ) == s.len() - 1 {
            n
        } else {
            s[bump_position(s, n, from) + 1] as int
        }),
    decreases from + 1,
{
    if from < 0 {
        assert(bump_position(s, n, from) == -1);
    } else if s[from] + 1 < (if from == s.len() - 1 {
        n
    } else {
        s[from + 1] as int
    }) {
        assert(bump_position(s, n, from) == from);
    } else {
        assert(bump_position(s, n, from) == bump_position(s, n, from - 1));
        lemma_bump_in_range(s, n, from - 1);
    }
}

/// A combination whose scan found no room is saturated at every position.
proof fn lemma_bump_none_saturated(s: Seq<usize>, n: int, from: int)
    requires
        is_combination(s, n),
        -1 <= from < s.len(),
        bump_position(s, n, from) == -1,
        forall|j: int| from < j < s.len() ==> s[j] == n - (s.len() - j),
    ensures
        forall|j: int| 0 <= j < s.len() ==> s[j] == n - (s.len() - j),
    decreases from + 1,
{
    if from >= 0 {
        assert(!(s[from] + 1 < (if from == s.len() - 1 {
            n
        } else {
            s[from + 1] as int
        })));
        if from < s.len() - 1 {
            assert(s[from + 1] == n - (s.len() - from - 1));
            assert(s[from] < s[from + 1]);
        }
        assert(s[from] == n - (s.len() - from));
        lemma_bump_none_saturated(s, n, from - 1);
    }
}

/// Positions above the position the scan found are saturated.
proof fn lemma_bump_found_saturated(s: Seq<usize>, n: int, from: int)
    requires
        is_combination(s, n),
        -1 <= from < s.len(),
        bump_position(s, n, from) >= 0,
        forall|j: int| from < j < s.len() ==> s[j] == n - (s.len() - j),
    ensures
        forall|j: int|
            bump_position(s, n, from) < j < s.len() ==> s[j] == n - (s.len() - j),
    decreases from + 1,
{
    if from >= 0 {
        if s[from] + 1 < (if from == s.len() - 1 {
            n
        } else {
            s[from + 1] as int
        }) {
        } else {
            if from < s.len() - 1 {
                assert(s[from + 1] == n - (s.len() - from - 1));
                assert(s[from] < s[from + 1]);
            }
            assert(s[from] == n - (s.len() - from));
            lemma_bump_found_saturated(s, n, from - 1);
        }
    }
}

/// The last combination is the lexicographic maximum.
pub proof fn lemma_comb_is_last_max(s: Seq<usize>, c: Seq<usize>, n: int)
    requires
        is_combination(s, n),
        is_combination(c, n),
        c.len() == s.len(),
        comb_is_last(s, n),
    ensures
        !lex_lt(s, c),
{
    lemma_bump_none_saturated(s, n, s.len() - 1);
    if lex_lt(s, c) {
        let k = choose|k: int| lex_lt_at(s, c, k);
        lemma_combination_entry_max(c, n, k);
    }
}

/// The successor is immediate: no combination lies strictly between a
/// combination and `comb_next` of it.
pub proof fn lemma_comb_next_tight(s: Seq<usize>, c: Seq<usize>, n: int)
    requires
        is_combination(s, n),
        is_combination(c, n),
        c.len() == s.len(),
        s.len() <= n <= usize::MAX,
        !comb_is_last(s, n),
        lex_lt(s, c),
    ensures
        !lex_lt(c, comb_next(s, n)),
{
    let caret = bump_position(s, n, s.len() - 1);
    lemma_bump_in_range(s, n, s.len() - 1);
    lemma_bump_found_saturated(s, n, s.len() - 1);
    lemma_comb_next_props(s, n);
    let b = comb_next(s, n);
    assert(b[caret] == s[caret] + 1);
    lemma_combination_successor_tight(s, b, c, n, caret);
}

/// Two unequal tuples of one length are lexicographically ordered one way
/// or the other.
pub proof fn lemma_lex_trichotomy(a: Seq<usize>, b: Seq<usize>)
    requires
        a.len() == b.len(),
        a != b,
    ensures
        lex_lt(a, b) || lex_lt(b, a),
    decreases a.len(),
{
    if a.len() == 0 {
        assert(a =~= b);
    } else if a[0] != b[0] {
        if a[0] < b[0] {
            assert(lex_lt_at(a, b, 0));
        } else {
            assert(lex_lt_at(b, a, 0));
        }
    } else {
        let ta = a.drop_first();
        let tb = b.drop_first();
        if ta == tb {
            assert forall|i: int| 0 <= i < a.len() implies a[i] == b[i] by {
                if i > 0 {
                    assert(a[i] == ta[i - 1]);
                    assert(b[i] == tb[i - 1]);
                }
            }
            assert(a =~= b);
        }
        lemma_lex_trichotomy(ta, tb);
        if lex_lt(ta, tb) {
            let k = choose|k: int| lex_lt_at(ta, tb, k);
            assert(lex_lt_at(a, b, k + 1)) by {
                assert(ta[k] == a[k + 1] && tb[k] == b[k + 1]);
                assert forall|j: int| 0 <= j < k + 1 implies a[j] == b[j] by {
                    if j > 0 {
                        assert(ta[j - 1] == tb[j - 1]);
                    }
                }
            }
        } else {
            let k = choose|k: int| lex_lt_at(tb, ta, k);
            assert(lex_lt_at(b, a, k + 1)) by {
                assert(ta[k] == a[k + 1] && tb[k] == b[k + 1]);
                assert forall|j: int| 0 <= j < k + 1 implies b[j] == a[j] by {
                    if j > 0 {
                        assert(ta[j - 1] == tb[j - 1]);
                    }
                }
            }
        }
    }
}

/// A bumped-and-reset tuple built from a saturated-tail combination is the
/// immediate lexicographic successor: `comb_next`, a combination itself,
/// strictly greater, with nothing strictly between.
proof fn lemma_advance_summary(a: Seq<usize>, b: Seq<usize>, n: int, caret: int)
    requires
        is_combination(a, n),
        a.len() <= n,
        0 <= caret < a.len(),
        b.len() == a.len(),
        forall|j: int| 0 <= j < caret ==> b[j] == a[j],
        b[caret] == a[caret] + 1,
        forall|j: int| caret < j < a.len() ==> b[j] == b[caret] + (j - caret),
        a[caret] + 1 < n - (a.len() - 1 - caret),
        forall|j: int| caret < j < a.len() ==> a[j] == n - (a.len() - j),
    ensures
        is_combination(b, n),
        lex_lt(a, b),
        forall|c: Seq<usize>|
            is_combination(c, n) && c.len() == a.len() && lex_lt(a, c) ==> !lex_lt(c, b),
        !comb_is_last(a, n),
        b == comb_next(a, n),
{
    let r = a.len() as int;
    assert(is_combination(b, n)) by {
        assert forall|p: int| 0 <= p < r implies b[p] < n by {
            if p >= caret {
                assert(b[p] == a[caret] + 1 + (p - caret));
            } else {
                assert(b[p] == a[p]);
            }
        }
        assert forall|p: int| 0 <= p && p + 1 < r implies #[trigger] b[p] < b[p + 1] by {
            if p + 1 < caret {
                assert(b[p] == a[p] && b[p + 1] == a[p + 1]);
            } else if p + 1 == caret {
                assert(b[p] == a[p] && b[caret] == a[caret] + 1);
                assert(a[p] < a[caret]);
            }
        }
    }
    assert(lex_lt(a, b)) by {
        assert(lex_lt_at(a, b, caret));
    }
    assert forall|c: Seq<usize>|
        is_combination(c, n) && c.len() == a.len() && lex_lt(a, c) implies !lex_lt(c, b) by {
        lemma_combination_successor_tight(a, b, c, n, caret);
    }
    lemma_comb_next_of(a, b, n, caret);
}

/// A bumped-and-reset tuple built from a saturated-tail combination is
/// exactly `comb_next` of it.
proof fn lemma_comb_next_of(a: Seq<usize>, b: Seq<usize>, n: int, caret: int)
    requires
        is_combination(a, n),
        0 <= caret < a.len(),
        b.len() == a.len(),
        forall|j: int| 0 <= j < caret ==> b[j] == a[j],
        b[caret] == a[caret] + 1,
        forall|j: int| caret < j < a.len() ==> b[j] == b[caret] + (j - caret),
        a[caret] + 1 < n - (a.len() - 1 - caret),
        forall|j: int| caret < j < a.len() ==> a[j] == n - (a.len() - j),
    ensures
        !comb_is_last(a, n),
        b == comb_next(a, n),
{
    if caret < a.len() - 1 {
        assert(a[caret + 1] == n - (a.len() - (caret + 1)));
    }
    lemma_bump_position_at(a, n, a.len() - 1, caret);
    assert(b =~= comb_next(a, n));
}

/// The first combination of an `n` choose `r` traversal.
pub open spec fn first_combination(r: int) -> Seq<usize> {
    Seq::new(r as nat, |i: int| i as usize)
}

/// A generator of the combinations of `r` ordinals out of `[0, n)`,
/// traversed in ascending lexicographic order.
pub struct Combiner {
    n: usize,
    ordinals: Vec<usize>,
}

impl View for Combiner {
    type V = Seq<usize>;

    closed spec fn view(&self) -> Seq<usize> {
        self.ordinals@
    }
}

impl Combiner {
    /// The `n` in `n` choose `r`.
    pub closed spec fn cardinality(&self) -> int {
        self.n as int
    }

    /// The current state is a combination of fixed length drawn from the
    /// fixed cardinality.
    pub open spec fn wf(&self) -> bool {
        &&& is_combination(self@, self.cardinality())
        &&& self@.len() <= self.cardinality()
    }

    /// A combiner resting on the first combination `[0, 1, ..., r - 1]`.
    pub fn new(n: usize, r: usize) -> (combiner: Self)
        requires
            r <= n,
        ensures
            combiner.wf(),
            combiner.cardinality() == n,
            combiner@.len() == r,
            combiner@ == first_combination(r as int),
            forall|i: int| 0 <= i < r ==> combiner@[i] == i,
    {
        let mut ordinals: Vec<usize> = Vec::new();
        let mut i: usize = 0;
        while i < r
            invariant
                0 <= i <= r,
                ordinals@.len() == i,
                forall|p: int| 0 <= p < i ==> ordinals@[p] == p,
            decreases r - i,
        {
            ordinals.push(i);
            i = i + 1;
        }
        Self::new_no_alloc(n, ordinals)
    }

    /// As `new`, but reuses a caller-supplied ordinal buffer of length `r`,
    /// overwriting its contents.
    pub fn new_no_alloc(n: usize, ordinals: Vec<usize>) -> (combiner: Self)
        requires
            ordinals@.len() <= n,
        ensures
            combiner.wf(),
            combiner.cardinality() == n,
            combiner@.len() == ordinals@.len(),
            combiner@ == first_combination(ordinals@.len() as int),
            forall|i: int| 0 <= i < ordinals@.len() ==> combiner@[i] == i,
    {
        let mut ordinals = ordinals;
        let r = ordinals.len();
        let mut i: usize = 0;
        while i < r
            invariant
                0 <= i <= r,
                ordinals@.len() == r,
                forall|p: int| 0 <= p < i ==> ordinals@[p] == p,
            decreases r - i,
        {
            ordinals.set(i, i);
            i = i + 1;
        }
        proof {
            assert forall|p: int| 0 <= p < ordinals@.len() implies ordinals@[p] < n by {
                assert(ordinals@[p] == p);
            }
            assert forall|p: int|
                0 <= p && p + 1 < ordinals@.len() implies #[trigger] ordinals@[p] < ordinals@[p
                + 1] by {
                assert(ordinals@[p] == p);
                assert(ordinals@[p + 1] == p + 1);
            }
            assert(ordinals@ =~= first_combination(ordinals@.len() as int));
        }
        Combiner { n, ordinals }
    }

    /// The current combination, ascending.
    pub fn ordinals(&self) -> (ordinals: &Vec<usize>)
        ensures
            ordinals@ == self@,
    {
        &self.ordinals
    }

    /// Hands the ordinal buffer back, ending the traversal.
    pub fn into_ordinals(self) -> (ordinals: Vec<usize>)
        ensures
            ordinals@ == self@,
    {
        self.ordinals
    }

    /// Steps to the immediate lexicographic successor among combinations,
    /// or reports exhaustion (leaving the final combination in place).
    #[verifier::rlimit(100)]
    #[verifier::spinoff_prover]
    pub fn advance(&mut self) -> (advanced: bool)
        requires
            old(self).wf(),
        ensures
            final(self).wf(),
            final(self).cardinality() == old(self).cardinality(),
            final(self)@.len() == old(self)@.len(),
            advanced ==> lex_lt(old(self)@, final(self)@),
            advanced ==> forall|c: Seq<usize>|
                is_combination(c, old(self).cardinality()) && c.len() == old(self)@.len()
                    && lex_lt(old(self)@, c) ==> !lex_lt(c, final(self)@),
            advanced ==> !comb_is_last(old(self)@, old(self).cardinality()) && final(self)@
                == comb_next(old(self)@, old(self).cardinality()),
            !advanced ==> final(self)@ == old(self)@,
            !advanced ==> forall|c: Seq<usize>|
                is_combination(c, old(self).cardinality()) && c.len() == old(self)@.len()
                    ==> !lex_lt(old(self)@, c),
            !advanced ==> comb_is_last(old(self)@, old(self).cardinality()),
    {
        let ghost a = self.ordinals@;
        let ghost n = self.n as int;
        let ghost r = self.ordinals@.len() as int;
        if self.ordinals.len() == 0 {
            proof {
                assert forall|c: Seq<usize>| is_combination(c, n) && c.len() == 0 implies !lex_lt(
                    a,
                    c,
                ) by {
                    if lex_lt(a, c) {
                        let k = choose|k: int| lex_lt_at(a, c, k);
                    }
                }
            }
            return false;
        }

        let len = self.ordinals.len();
        let mut caret: usize = len - 1;
        loop
            invariant
                0 <= caret < len,
                len == r,
                a.len() == r,
                r <= n,
                self.n as int == n,
                self.ordinals@ == a,
                is_combination(a, n),
                forall|p: int| caret < p < r ==> a[p] == n - (r - p),
            ensures
                0 <= caret < len,
                a.len() == r,
                self.ordinals@ == a,
                forall|p: int| caret < p < r ==> a[p] == n - (r - p),
                a[caret as int] + 1 < n - (r - 1 - caret),
            decreases caret,
        {
            let lim = if caret == len - 1 {
                self.n - 1
            } else {
                self.ordinals[caret + 1] - 1
            };
            if self.ordinals[caret] < lim {
                proof {
                    if caret < len - 1 {
                        assert(a[caret + 1] == n - (r - 1 - caret));
                    }
                }
                break;
            }
            if caret == 0 {
                proof {
                    assert forall|p: int| 0 <= p < r implies a[p] == n - (r - p) by {
                        if p == 0 {
                            if r == 1 {
                                assert(a[0] >= n - 1);
                            } else {
                                assert(a[1] == n - (r - 1));
                                assert(a[0] < a[1]);
                                assert(a[0] >= a[1] - 1);
                            }
                        }
                    }
                    assert forall|c: Seq<usize>|
                        is_combination(c, n) && c.len() == r implies !lex_lt(a, c) by {
                        if lex_lt(a, c) {
                            let k = choose|k: int| lex_lt_at(a, c, k);
                            lemma_combination_entry_max(c, n, k);
                        }
                    }
                    lemma_bump_position_none(a, n, r - 1);
                }
                return false;
            }
            proof {
                if caret == len - 1 {
                    assert(a[caret as int] >= n - 1);
                    assert(a[caret as int] < n);
                    assert(a[caret as int] == n - (r - caret));
                } else {
                    assert(a[caret as int] < a[caret + 1]);
                    assert(a[caret as int] >= a[caret + 1] - 1);
                    assert(a[caret + 1] == n - (r - (caret + 1)));
                    assert(a[caret as int] == n - (r - caret));
                }
            }
            caret = caret - 1;
        }

        let bumped = self.ordinals[caret] + 1;
        self.ordinals.set(caret, bumped);
        let mut i: usize = caret + 1;
        while i < len
            invariant
                caret < i <= len,
                len == r,
                a.len() == r,
                r <= n,
                self.n as int == n,
                self.ordinals@.len() == r,
                forall|j: int| 0 <= j < caret ==> self.ordinals@[j] == a[j],
                self.ordinals@[caret as int] == a[caret as int] + 1,
                a[caret as int] + 1 < n - (r - 1 - caret),
                forall|j: int|
                    caret < j < i ==> self.ordinals@[j] == self.ordinals@[caret as int] + (j
                        - caret),
            decreases len - i,
        {
            let next = self.ordinals[i - 1] + 1;
            self.ordinals.set(i, next);
            i = i + 1;
        }

        proof {
            lemma_advance_summary(a, self.ordinals@, n, caret as int);
        }
        true
    }
}

/// The combination built by bumping position `caret` of a saturated-tail
/// combination and resetting its tail is the immediate successor: no
/// combination lies strictly between the two.
proof fn lemma_combination_successor_tight(
    a: Seq<usize>,
    b: Seq<usize>,
    c: Seq<usize>,
    n: int,
    caret: int,
)
    requires
        is_combination(a, n),
        is_combination(b, n),
        is_combination(c, n),
        a.len() == b.len(),
        a.len() == c.len(),
        0 <= caret < a.len(),
        lex_agree(a, b, caret),
        b[caret] == a[caret] + 1,
        forall|j: int| caret < j < a.len() ==> a[j] == n - (a.len() - j),
        forall|j: int| caret < j < a.len() ==> b[j] == b[caret] + (j - caret),
        lex_lt(a, c),
    ensures
        !lex_lt(c, b),
{
    let r = a.len() as int;
    if lex_lt(c, b) {
        let k = choose|k: int| lex_lt_at(a, c, k);
        let m = choose|m: int| lex_lt_at(c, b, m);
        if k < caret {
            if m < k {
                assert(c[m] == a[m]);
                assert(b[m] == a[m]);
            } else if m == k {
                assert(c[k] < b[k]);
                assert(b[k] == a[k]);
            } else {
                assert(c[k] == b[k]);
                assert(b[k] == a[k]);
            }
        } else if k == caret {
            if m < caret {
                assert(c[m] == a[m]);
                assert(b[m] == a[m]);
            } else if m == caret {
                assert(c[caret] < b[caret]);
                assert(a[caret] < c[caret]);
            } else {
                assert(c[caret] == b[caret]);
                assert(c[m] < b[m]);
                assert(b[m] == b[caret] + (m - caret));
                lemma_combination_gap(c, n, caret, m);
            }
        } else {
            assert(c[k] > a[k]);
            assert(a[k] == n - (r - k));
            lemma_combination_entry_max(c, n, k);
        }
    }
}

} // verus!
