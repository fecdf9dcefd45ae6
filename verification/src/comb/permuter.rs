//! A streaming permuter that keeps the lowest ordinals anchored in the most
//! significant positions for as long as possible: the `n` permute `r` tuples
//! come out in ascending lexicographic order.

use vstd::prelude::*;
use vstd::arithmetic::power::pow;
use crate::comb::distinct;
use crate::comb::combiner::{
    lemma_lex_trichotomy, lemma_lex_value_bound, lemma_lex_value_lt, lex_agree, lex_lt,
    lex_lt_at, lex_value,
};

verus! {

/// Ordinal `v` occurs among the first `j` entries of the tuple.
pub open spec fn appears_before(s: Seq<usize>, j: int, v: int) -> bool {
    exists|q: int| 0 <= q < j && s[q] == v
}

/// Every ordinal above `s[j]` is taken by an earlier position: position `j`
/// holds the largest ordinal still available to it.
pub open spec fn position_saturated(s: Seq<usize>, n: int, j: int) -> bool {
    forall|v: int| s[j] < v < n ==> #[trigger] appears_before(s, j, v)
}

/// Position `j` holds the smallest ordinal not taken by an earlier
/// position.
pub open spec fn greedy_filled(s: Seq<usize>, j: int) -> bool {
    forall|v: int| 0 <= v < s[j] ==> #[trigger] appears_before(s, j, v)
}

/// An ordered tuple of pairwise distinct ordinals drawn from `[0, n)`.
pub open spec fn is_permutation_tuple(s: Seq<usize>, n: int) -> bool {
    &&& distinct(s)
    &&& forall|i: int| 0 <= i < s.len() ==> s[i] < n
}

/// The smallest ordinal at or above `v` that no position before `upto`
/// holds (`n` when every such ordinal is taken).
pub open spec fn next_absent(s: Seq<usize>, upto: int, v: int, n: int) -> int
    decreases n - v,
{
    if v < 0 || v >= n {
        n
    } else if appears_before(s, upto, v) {
        next_absent(s, upto, v + 1, n)
    } else {
        v
    }
}

/// The position `advance` bumps, scanning down from `from`: the greatest
/// position that is not saturated; `-1` when every position is.
pub open spec fn perm_bump(s: Seq<usize>, n: int, from: int) -> int
    decreases from + 1,
{
    if from < 0 {
        -1
    } else if !position_saturated(s, n, from) {
        from
    } else {
        perm_bump(s, n, from - 1)
    }
}

/// Whether the tuple is the last of its traversal: every position holds
/// the largest ordinal still available to it.
pub open spec fn perm_is_last(s: Seq<usize>, n: int) -> bool {
    perm_bump(s, n, s.len() - 1) == -1
}

/// Appends `count` ordinals to `b`, each the smallest not yet held.
pub open spec fn greedy_extend(b: Seq<usize>, n: int, count: int) -> Seq<usize>
    decreases count,
{
    if count <= 0 {
        b
    } else {
        greedy_extend(b.push(next_absent(b, b.len() as int, 0, n) as usize), n, count - 1)
    }
}

/// The immediate lexicographic successor of a permutation tuple: the
/// bumped position takes the next ordinal available to it and the
/// positions after it restart with the smallest available ordinals.
pub open spec fn perm_next(s: Seq<usize>, n: int) -> Seq<usize> {
    let caret = perm_bump(s, n, s.len() - 1);
    let bumped = s.take(caret).push(next_absent(s, caret, s[caret] + 1, n) as usize);
    greedy_extend(bumped, n, s.len() - 1 - caret)
}

/// `perm_bump` lands on `c` when the positions above `c` are saturated and
/// `c` itself is not.
proof fn lemma_perm_bump_at(s: Seq<usize>, n: int, from: int, c: int)
    requires
        0 <= c <= from < s.len(),
        !position_saturated(s, n, c),
        forall|j: int| c < j < s.len() ==> #[trigger] position_saturated(s, n, j),
    ensures
        perm_bump(s, n, from) == c,
    decreases from,
{
    if from > c {
        assert(position_saturated(s, n, from));
        lemma_perm_bump_at(s, n, from - 1, c);
    }
}

/// `perm_bump` finds nothing when every position is saturated.
proof fn lemma_perm_bump_none(s: Seq<usize>, n: int, from: int)
    requires
        from < s.len(),
        forall|j: int| 0 <= j < s.len() ==> #[trigger] position_saturated(s, n, j),
    ensures
        perm_bump(s, n, from) == -1,
    decreases from + 1,
{
    if from >= 0 {
        assert(position_saturated(s, n, from));
        lemma_perm_bump_none(s, n, from - 1);
    }
}

/// `next_absent` lands on `b` when `b` is free and everything from `lower`
/// up to it is taken.
proof fn lemma_next_absent_of(s: Seq<usize>, upto: int, lower: int, b: int, n: int)
    requires
        0 <= lower <= b < n,
        !appears_before(s, upto, b),
        forall|v: int| lower <= v < b ==> #[trigger] appears_before(s, upto, v),
    ensures
        next_absent(s, upto, lower, n) == b,
    decreases b - lower,
{
    if lower < b {
        assert(appears_before(s, upto, lower));
        lemma_next_absent_of(s, upto, lower + 1, b, n);
    }
}

/// `next_absent` reads only the first `upto` positions.
proof fn lemma_next_absent_prefix(s1: Seq<usize>, s2: Seq<usize>, upto: int, v: int, n: int)
    requires
        forall|q: int| 0 <= q < upto ==> s1[q] == s2[q],
        upto <= s1.len(),
        upto <= s2.len(),
    ensures
        next_absent(s1, upto, v, n) == next_absent(s2, upto, v, n),
    decreases n - v,
{
    assert forall|w: int| appears_before(s1, upto, w) implies appears_before(s2, upto, w) by {
        let q = choose|q: int| 0 <= q < upto && s1[q] == w;
        assert(s2[q] == w);
    }
    assert forall|w: int| appears_before(s2, upto, w) implies appears_before(s1, upto, w) by {
        let q = choose|q: int| 0 <= q < upto && s2[q] == w;
        assert(s1[q] == w);
    }
    if 0 <= v < n && appears_before(s1, upto, v) {
        lemma_next_absent_prefix(s1, s2, upto, v + 1, n);
    }
}

/// A tuple whose every position is saturated is the lexicographic maximum
/// among permutation tuples of its length.
pub proof fn lemma_permutation_max(a: Seq<usize>, c: Seq<usize>, n: int)
    requires
        is_permutation_tuple(a, n),
        is_permutation_tuple(c, n),
        a.len() == c.len(),
        forall|j: int| 0 <= j < a.len() ==> #[trigger] position_saturated(a, n, j),
    ensures
        !lex_lt(a, c),
{
    if lex_lt(a, c) {
        let k = choose|k: int| lex_lt_at(a, c, k);
        assert(position_saturated(a, n, k));
        assert(appears_before(a, k, c[k] as int));
        let q = choose|q: int| 0 <= q < k && a[q] == c[k];
        assert(c[q] == a[q]);
        assert(false);
    }
}

/// The tuple built by bumping position `caret` of a saturated-tail tuple to
/// the next available ordinal and refilling its tail greedily is the
/// immediate lexicographic successor: no permutation tuple lies strictly
/// between the two.
proof fn lemma_permutation_successor_tight(
    a: Seq<usize>,
    b: Seq<usize>,
    c: Seq<usize>,
    n: int,
    caret: int,
)
    requires
        is_permutation_tuple(a, n),
        is_permutation_tuple(b, n),
        is_permutation_tuple(c, n),
        a.len() == b.len(),
        a.len() == c.len(),
        0 <= caret < a.len(),
        lex_agree(a, b, caret),
        a[caret] < b[caret],
        forall|j: int| caret < j < a.len() ==> #[trigger] position_saturated(a, n, j),
        forall|v: int| a[caret] < v < b[caret] ==> #[trigger] appears_before(a, caret, v),
        forall|j: int| caret < j < a.len() ==> #[trigger] greedy_filled(b, j),
        lex_lt(a, c),
    ensures
        !lex_lt(c, b),
{
    if lex_lt(c, b) {
        let k = choose|k: int| lex_lt_at(a, c, k);
        let m = choose|m: int| lex_lt_at(c, b, m);
        if k > caret {
            assert(position_saturated(a, n, k));
            assert(appears_before(a, k, c[k] as int));
            let q = choose|q: int| 0 <= q < k && a[q] == c[k];
            assert(c[q] == a[q]);
            assert(false);
        } else if k < caret {
            if m < k {
                assert(c[m] == a[m]);
                assert(b[m] == a[m]);
                assert(false);
            } else if m == k {
                assert(b[k] == a[k]);
                assert(false);
            } else {
                assert(c[k] == b[k]);
                assert(b[k] == a[k]);
                assert(false);
            }
        } else {
            if m < caret {
                assert(c[m] == a[m]);
                assert(b[m] == a[m]);
                assert(false);
            } else if m == caret {
                assert(appears_before(a, caret, c[caret] as int));
                let q = choose|q: int| 0 <= q < caret && a[q] == c[caret];
                assert(c[q] == a[q]);
                assert(false);
            } else {
                assert(greedy_filled(b, m));
                assert(appears_before(b, m, c[m] as int));
                let q = choose|q: int| 0 <= q < m && b[q] == c[m];
                assert(c[q] == b[q]);
                assert(false);
            }
        }
    }
}

/// What `perm_bump` finds: the positions above it are saturated, and the
/// found position (if any) is not; when it finds nothing, every position
/// is saturated.
proof fn lemma_perm_bump_found(s: Seq<usize>, n: int, from: int)
    requires
        -1 <= from < s.len(),
        forall|j: int| from < j < s.len() ==> #[trigger] position_saturated(s, n, j),
    ensures
        -1 <= perm_bump(s, n, from) <= from,
        perm_bump(s, n, from) >= 0 ==> !position_saturated(s, n, perm_bump(s, n, from)),
        forall|j: int|
            perm_bump(s, n, from) < j < s.len() ==> #[trigger] position_saturated(s, n, j),
    decreases from + 1,
{
    if from >= 0 {
        if position_saturated(s, n, from) {
            lemma_perm_bump_found(s, n, from - 1);
        }
    }
}

/// A tuple of fewer than `n` distinct ordinals below `n` leaves some
/// ordinal free, and `next_absent` finds the least one at or above `lower`.
proof fn lemma_next_absent_bound(s: Seq<usize>, upto: int, lower: int, n: int)
    requires
        0 <= lower < n,
        exists|v: int| lower <= v < n && !#[trigger] appears_before(s, upto, v),
    ensures
        lower <= next_absent(s, upto, lower, n) < n,
        !appears_before(s, upto, next_absent(s, upto, lower, n)),
        forall|w: int|
            lower <= w < next_absent(s, upto, lower, n) ==> #[trigger] appears_before(
                s,
                upto,
                w,
            ),
    decreases n - lower,
{
    if appears_before(s, upto, lower) {
        let v = choose|v: int| lower <= v < n && !appears_before(s, upto, v);
        assert(lower + 1 <= v);
        lemma_next_absent_bound(s, upto, lower + 1, n);
    }
}

/// Some ordinal below `n` is absent from a tuple of fewer than `n`
/// distinct entries.
proof fn lemma_absent_exists(s: Seq<usize>, upto: int, n: int)
    requires
        0 <= upto <= s.len(),
        upto < n,
    ensures
        exists|v: int| 0 <= v < n && !#[trigger] appears_before(s, upto, v),
{
    if forall|v: int| 0 <= v < n ==> #[trigger] appears_before(s, upto, v) {
        assert forall|v: int| 0 <= v < n implies #[trigger] covered(s, upto, v) by {
            assert(appears_before(s, upto, v));
        }
        lemma_pigeonhole(s, upto, n);
        assert(false);
    }
}

/// The greedy fill appends exactly `count` fresh ordinals below `n`, each
/// the smallest available, leaving the given prefix in place.
proof fn lemma_greedy_extend_props(b: Seq<usize>, n: int, count: int)
    requires
        0 <= count,
        b.len() + count <= n <= usize::MAX,
        distinct(b),
        forall|i: int| 0 <= i < b.len() ==> b[i] < n,
    ensures
        greedy_extend(b, n, count).len() == b.len() + count,
        distinct(greedy_extend(b, n, count)),
        forall|i: int| 0 <= i < b.len() + count ==> #[trigger] greedy_extend(b, n, count)[i] < n,
        forall|i: int| 0 <= i < b.len() ==> #[trigger] greedy_extend(b, n, count)[i] == b[i],
        forall|j: int|
            b.len() <= j < b.len() + count ==> #[trigger] greedy_filled(
                greedy_extend(b, n, count),
                j,
            ),
    decreases count,
{
    if count > 0 {
        lemma_absent_exists(b, b.len() as int, n);
        lemma_next_absent_bound(b, b.len() as int, 0, n);
        let m = next_absent(b, b.len() as int, 0, n);
        assert((m as usize) as int == m);
        let b1 = b.push(m as usize);
        assert(distinct(b1)) by {
            assert forall|p: int, q: int| 0 <= p < q < b1.len() implies b1[p] != b1[q] by {
                if q == b1.len() - 1 {
                    if b1[p] == b1[q] {
                        assert(b[p] as int == m);
                        assert(appears_before(b, b.len() as int, m));
                    }
                }
            }
        }
        lemma_greedy_extend_props(b1, n, count - 1);
        let result = greedy_extend(b, n, count);
        assert(result == greedy_extend(b1, n, count - 1));
        assert forall|j: int|
            b.len() <= j < b.len() + count implies #[trigger] greedy_filled(result, j) by {
            if j == b.len() {
                assert(result[j] == b1[j]);
                assert(result[j] == m);
                assert forall|v: int|
                    0 <= v < result[j] implies #[trigger] appears_before(result, j, v) by {
                    assert(appears_before(b, b.len() as int, v));
                    let q = choose|q: int| 0 <= q < b.len() && b[q] == v;
                    assert(result[q] == b[q]);
                }
            } else {
                assert(greedy_filled(greedy_extend(b1, n, count - 1), j));
            }
        }
    }
}

/// The successor of a permutation tuple that is not the last is itself a
/// permutation tuple of the same length, strictly greater in lexicographic
/// order, with the shape `lemma_permutation_successor_tight` asks of an
/// immediate successor.
#[verifier::rlimit(100)]
pub proof fn lemma_perm_next_props(s: Seq<usize>, n: int)
    requires
        is_permutation_tuple(s, n),
        s.len() <= n <= usize::MAX,
        !perm_is_last(s, n),
    ensures
        perm_next(s, n).len() == s.len(),
        is_permutation_tuple(perm_next(s, n), n),
        lex_lt(s, perm_next(s, n)),
        forall|c: Seq<usize>|
            is_permutation_tuple(c, n) && c.len() == s.len() && lex_lt(s, c) ==> !lex_lt(
                c,
                perm_next(s, n),
            ),
{
    let r = s.len() as int;
    lemma_perm_bump_found(s, n, r - 1);
    let caret = perm_bump(s, n, r - 1);
    assert(0 <= caret < r);
    let m = next_absent(s, caret, s[caret] + 1, n);
    assert(exists|v: int|
        s[caret] + 1 <= v < n && !#[trigger] appears_before(s, caret, v)) by {
        assert(!position_saturated(s, n, caret));
        let v = choose|v: int| s[caret as int] < v < n && !appears_before(s, caret, v);
        assert(s[caret] + 1 <= v < n && !appears_before(s, caret, v));
    }
    lemma_next_absent_bound(s, caret, s[caret] + 1, n);
    assert((m as usize) as int == m);
    let base = s.take(caret).push(m as usize);
    assert(distinct(base)) by {
        assert forall|p: int, q: int| 0 <= p < q < base.len() implies base[p] != base[q] by {
            if q == base.len() - 1 {
                if base[p] == base[q] {
                    assert(s[p] as int == m);
                    assert(appears_before(s, caret, m));
                }
            } else {
                assert(base[p] == s[p] && base[q] == s[q]);
            }
        }
    }
    lemma_greedy_extend_props(base, n, r - 1 - caret);
    let b = perm_next(s, n);
    assert(b == greedy_extend(base, n, r - 1 - caret));
    assert(b.len() == r);
    assert(lex_lt(s, b)) by {
        assert(b[caret] == base[caret]);
        assert(b[caret] as int == m);
        assert forall|j: int| 0 <= j < caret implies s[j] == b[j] by {
            assert(b[j] == base[j]);
        }
        assert(lex_lt_at(s, b, caret));
    }
    assert forall|c: Seq<usize>|
        is_permutation_tuple(c, n) && c.len() == s.len() && lex_lt(s, c) implies !lex_lt(
        c,
        b,
    ) by {
        assert(lex_agree(s, b, caret));
        assert(s[caret] < b[caret]);
        assert forall|v: int|
            s[caret] < v < b[caret] implies #[trigger] appears_before(s, caret, v) by {
            assert(s[caret] + 1 <= v < m);
        }
        lemma_permutation_successor_tight(s, b, c, n, caret);
    }
}

/// The last permutation tuple is the lexicographic maximum.
pub proof fn lemma_perm_is_last_max(s: Seq<usize>, c: Seq<usize>, n: int)
    requires
        is_permutation_tuple(s, n),
        is_permutation_tuple(c, n),
        c.len() == s.len(),
        perm_is_last(s, n),
    ensures
        !lex_lt(s, c),
{
    lemma_perm_bump_found(s, n, s.len() - 1);
    lemma_permutation_max(s, c, n);
}

/// The run of permutation tuples from `s` to the last, each stepping to
/// its immediate successor.
pub open spec fn perm_chain(s: Seq<usize>, n: int) -> Seq<Seq<usize>>
    decreases pow(n, s.len() as nat) - lex_value(s, n)
        when is_permutation_tuple(s, n) && s.len() <= n <= usize::MAX
        via perm_chain_decreases
{
    if perm_is_last(s, n) {
        seq![s]
    } else {
        seq![s] + perm_chain(perm_next(s, n), n)
    }
}

#[via_fn]
proof fn perm_chain_decreases(s: Seq<usize>, n: int) {
    if !perm_is_last(s, n) {
        lemma_perm_next_props(s, n);
        lemma_lex_value_lt(s, perm_next(s, n), n);
        lemma_lex_value_bound(perm_next(s, n), n);
        lemma_lex_value_bound(s, n);
    }
}

/// One step of the permutation run: its head is the given tuple.
proof fn lemma_perm_chain_step(s: Seq<usize>, n: int)
    requires
        is_permutation_tuple(s, n),
        s.len() <= n <= usize::MAX,
    ensures
        perm_chain(s, n).len() >= 1,
        perm_chain(s, n)[0] == s,
        perm_is_last(s, n) ==> perm_chain(s, n).drop_first() == Seq::<Seq<usize>>::empty(),
        !perm_is_last(s, n) ==> perm_chain(s, n).drop_first() == perm_chain(
            perm_next(s, n),
            n,
        ),
{
    if perm_is_last(s, n) {
        assert(perm_chain(s, n) == seq![s]);
        assert(perm_chain(s, n).drop_first() =~= Seq::<Seq<usize>>::empty());
    } else {
        lemma_perm_next_props(s, n);
        assert(perm_chain(s, n) == seq![s] + perm_chain(perm_next(s, n), n));
        assert(perm_chain(s, n).drop_first() =~= perm_chain(perm_next(s, n), n));
    }
}

/// Permutation tuple `c` appears somewhere in the run from `s`.
pub open spec fn perm_chain_covers(s: Seq<usize>, n: int, c: Seq<usize>) -> bool {
    exists|i: int| 0 <= i < perm_chain(s, n).len() && perm_chain(s, n)[i] == c
}

/// The run of permutation tuples from `s` heads with `s` and holds valid
/// tuples of its length in strictly ascending order: none appears twice.
#[verifier::rlimit(100)]
#[verifier::spinoff_prover]
pub proof fn lemma_perm_chain_ascending(s: Seq<usize>, n: int)
    requires
        is_permutation_tuple(s, n),
        s.len() <= n <= usize::MAX,
    ensures
        perm_chain(s, n).len() >= 1,
        perm_chain(s, n)[0] == s,
        forall|i: int|
            0 <= i < perm_chain(s, n).len() ==> is_permutation_tuple(
                #[trigger] perm_chain(s, n)[i],
                n,
            ) && perm_chain(s, n)[i].len() == s.len(),
        forall|i: int, j: int|
            #![trigger perm_chain(s, n)[i], perm_chain(s, n)[j]]
            0 <= i < j < perm_chain(s, n).len() ==> perm_chain(s, n)[i] != perm_chain(s, n)[j]
                && lex_value(perm_chain(s, n)[i], n) < lex_value(perm_chain(s, n)[j], n),
    decreases pow(n, s.len() as nat) - lex_value(s, n),
{
    lemma_perm_chain_step(s, n);
    let chain = perm_chain(s, n);
    if !perm_is_last(s, n) {
        let nxt = perm_next(s, n);
        lemma_perm_next_props(s, n);
        lemma_lex_value_lt(s, nxt, n);
        lemma_lex_value_bound(nxt, n);
        lemma_lex_value_bound(s, n);
        lemma_perm_chain_ascending(nxt, n);
        let sub = perm_chain(nxt, n);
        assert(chain =~= seq![s] + sub);
        assert forall|i: int|
            0 <= i < chain.len() implies is_permutation_tuple(#[trigger] chain[i], n)
            && chain[i].len() == s.len() by {
            if i > 0 {
                assert(chain[i] == sub[i - 1]);
            }
        }
        assert forall|i: int, j: int|
            #![trigger chain[i], chain[j]]
            0 <= i < j < chain.len() implies chain[i] != chain[j] && lex_value(chain[i], n)
            < lex_value(chain[j], n) by {
            assert(chain[j] == sub[j - 1]);
            if i == 0 {
                if j > 1 {
                    assert(lex_value(sub[0], n) < lex_value(sub[j - 1], n));
                }
            } else {
                assert(chain[i] == sub[i - 1]);
                assert(lex_value(sub[i - 1], n) < lex_value(sub[j - 1], n));
            }
        }
    }
}

/// The run of permutation tuples from `s` reaches every tuple at or above
/// `s`.
#[verifier::rlimit(100)]
#[verifier::spinoff_prover]
pub proof fn lemma_perm_chain_covers(s: Seq<usize>, n: int)
    requires
        is_permutation_tuple(s, n),
        s.len() <= n <= usize::MAX,
    ensures
        forall|c: Seq<usize>|
            is_permutation_tuple(c, n) && c.len() == s.len() && (c == s || lex_lt(s, c))
                ==> #[trigger] perm_chain_covers(s, n, c),
    decreases pow(n, s.len() as nat) - lex_value(s, n),
{
    lemma_perm_chain_step(s, n);
    let chain = perm_chain(s, n);
    if perm_is_last(s, n) {
        assert forall|c: Seq<usize>|
            is_permutation_tuple(c, n) && c.len() == s.len() && (c == s || lex_lt(s, c))
                implies #[trigger] perm_chain_covers(s, n, c) by {
            lemma_perm_is_last_max(s, c, n);
            assert(chain[0] == c);
        }
    } else {
        let nxt = perm_next(s, n);
        lemma_perm_next_props(s, n);
        lemma_lex_value_lt(s, nxt, n);
        lemma_lex_value_bound(nxt, n);
        lemma_lex_value_bound(s, n);
        lemma_perm_chain_covers(nxt, n);
        lemma_perm_chain_ascending(nxt, n);
        let sub = perm_chain(nxt, n);
        assert(chain.drop_first() == sub);
        assert(chain.len() == 1 + sub.len());
        assert forall|c: Seq<usize>|
            is_permutation_tuple(c, n) && c.len() == s.len() && (c == s || lex_lt(s, c))
                implies #[trigger] perm_chain_covers(s, n, c) by {
            if c == s {
                assert(chain[0] == c);
            } else if c == nxt {
                assert(sub[0] == nxt);
                assert(chain[1] == chain.drop_first()[0]);
                assert(chain[1] == c);
            } else {
                assert(!lex_lt(c, nxt));
                lemma_lex_trichotomy(c, nxt);
                assert(lex_lt(nxt, c));
                assert(perm_chain_covers(nxt, n, c));
                let i0 = choose|i0: int| 0 <= i0 < sub.len() && sub[i0] == c;
                assert(chain[i0 + 1] == chain.drop_first()[i0]);
                assert(chain[i0 + 1] == c);
            }
        }
    }
}

/// The whole-traversal statement for the permutation order: the run from
/// the first tuple holds every `r`-permutation of `[0, n)` exactly once,
/// ascending.
pub proof fn lemma_permutation_traversal(n: int, r: int)
    requires
        0 <= r <= n <= usize::MAX,
    ensures
        perm_chain(first_permutation(r), n)[0] == first_permutation(r),
        forall|i: int|
            0 <= i < perm_chain(first_permutation(r), n).len() ==> is_permutation_tuple(
                #[trigger] perm_chain(first_permutation(r), n)[i],
                n,
            ),
        forall|i: int, j: int|
            #![trigger perm_chain(first_permutation(r), n)[i], perm_chain(first_permutation(r), n)[j]]
            0 <= i < j < perm_chain(first_permutation(r), n).len() ==> perm_chain(
                first_permutation(r),
                n,
            )[i] != perm_chain(first_permutation(r), n)[j],
        forall|c: Seq<usize>|
            is_permutation_tuple(c, n) && c.len() == r ==> #[trigger] perm_chain_covers(
                first_permutation(r),
                n,
                c,
            ),
{
    let first = first_permutation(r);
    assert(is_permutation_tuple(first, n)) by {
        assert(forall|i: int| 0 <= i < r ==> first[i] == i);
    }
    lemma_perm_chain_ascending(first, n);
    lemma_perm_chain_covers(first, n);
    assert forall|c: Seq<usize>|
        is_permutation_tuple(c, n) && c.len() == r implies #[trigger] perm_chain_covers(
        first,
        n,
        c,
    ) by {
        if c != first {
            if lex_lt(c, first) {
                let k = choose|k: int| lex_lt_at(c, first, k);
                assert(first[k] == k);
                assert(c[k] < k);
                assert forall|j: int| 0 <= j < k implies c[j] == j by {
                    assert(first[j] == j);
                }
                assert(c[c[k] as int] == c[k]);
                assert(false);
            }
            lemma_lex_trichotomy(c, first);
        }
    }
}

/// The first tuple of an `n` permute `r` traversal.
pub open spec fn first_permutation(r: int) -> Seq<usize> {
    Seq::new(r as nat, |i: int| i as usize)
}

/// The scratch buffers of a permuter: a used-ordinal bitmap of `n` slots
/// and an ordinal buffer of `r` slots.
pub struct Alloc {
    pub bitmap: Vec<bool>,
    pub ordinals: Vec<usize>,
}

impl Alloc {
    /// Buffers for an `n` permute `r` traversal.
    pub fn new(n: usize, r: usize) -> (alloc_buffers: Self)
        ensures
            alloc_buffers.bitmap@.len() == n,
            alloc_buffers.ordinals@.len() == r,
    {
        let mut bitmap: Vec<bool> = Vec::new();
        let mut i: usize = 0;
        while i < n
            invariant
                0 <= i <= n,
                bitmap@.len() == i,
            decreases n - i,
        {
            bitmap.push(false);
            i = i + 1;
        }
        let mut ordinals: Vec<usize> = Vec::new();
        let mut j: usize = 0;
        while j < r
            invariant
                0 <= j <= r,
                ordinals@.len() == j,
            decreases r - j,
        {
            ordinals.push(0);
            j = j + 1;
        }
        Alloc { bitmap, ordinals }
    }
}

/// Marks the first unmarked slot at or after `min` and returns its
/// position, or returns `None` when every slot from `min` on is marked.
fn take_next_available(bitmap: &mut Vec<bool>, min: usize) -> (found: Option<usize>)
    ensures
        final(bitmap)@.len() == old(bitmap)@.len(),
        match found {
            Some(b) => min <= b < old(bitmap)@.len() && !old(bitmap)@[b as int] && final(bitmap)@
                == old(bitmap)@.update(b as int, true) && forall|p: int|
                min <= p < b ==> old(bitmap)@[p],
            None => final(bitmap)@ == old(bitmap)@ && forall|p: int|
                min <= p < old(bitmap)@.len() ==> old(bitmap)@[p],
        },
{
    let len = bitmap.len();
    let mut b: usize = min;
    while b < len
        invariant
            min <= b <= len || (min > len && b == min),
            bitmap@ == old(bitmap)@,
            len == bitmap@.len(),
            forall|p: int| min <= p < b ==> bitmap@[p],
        decreases len - b,
    {
        if !bitmap[b] {
            bitmap.set(b, true);
            return Some(b);
        }
        b = b + 1;
    }
    None
}

/// Whether every slot at or after `min` is marked.
fn is_full(bitmap: &Vec<bool>, min: usize) -> (full: bool)
    ensures
        full == (forall|p: int| min <= p < bitmap@.len() ==> bitmap@[p]),
{
    let len = bitmap.len();
    let mut b: usize = min;
    while b < len
        invariant
            min <= b <= len || (min > len && b == min),
            len == bitmap@.len(),
            forall|p: int| min <= p < b ==> bitmap@[p],
        decreases len - b,
    {
        if !bitmap[b] {
            return false;
        }
        b = b + 1;
    }
    true
}

/// A generator of the `r`-permutations of `[0, n)`, traversed in ascending
/// lexicographic order over the ordinal tuples.
pub struct Permuter {
    r: usize,
    bitmap: Vec<bool>,
    ordinals: Vec<usize>,
}

impl View for Permuter {
    type V = Seq<usize>;

    closed spec fn view(&self) -> Seq<usize> {
        self.ordinals@
    }
}

impl Permuter {
    /// The `n` in `n` permute `r`.
    pub closed spec fn cardinality(&self) -> int {
        self.bitmap@.len() as int
    }

    /// The bitmap marks exactly the ordinals of the current tuple.
    pub closed spec fn marks_wf(&self) -> bool {
        forall|x: int|
            0 <= x < self.bitmap@.len() ==> (#[trigger] self.bitmap@[x] <==> exists|p: int|
                0 <= p < self.ordinals@.len() && self.ordinals@[p] == x)
    }

    /// The current tuple is a valid permutation of `r` distinct ordinals
    /// drawn from `[0, n)`, mirrored by the used-ordinal bitmap.
    pub open spec fn wf(&self) -> bool {
        &&& self@.len() == self.len_spec()
        &&& self@.len() <= self.cardinality()
        &&& distinct(self@)
        &&& forall|i: int| 0 <= i < self@.len() ==> self@[i] < self.cardinality()
        &&& self.marks_wf()
    }

    /// The `r` in `n` permute `r`.
    pub closed spec fn len_spec(&self) -> int {
        self.r as int
    }

    /// A permuter resting on the first tuple `[0, 1, ..., r - 1]`.
    pub fn new(n: usize, r: usize) -> (permuter: Self)
        requires
            r <= n,
        ensures
            permuter.wf(),
            permuter.cardinality() == n,
            permuter@.len() == r,
            permuter@ == first_permutation(r as int),
            forall|i: int| 0 <= i < r ==> permuter@[i] == i,
    {
        Self::new_no_alloc(r, Alloc::new(n, r))
    }

    /// As `new`, but reuses caller-supplied scratch buffers, overwriting
    /// their contents.
    pub fn new_no_alloc(r: usize, buffers: Alloc) -> (permuter: Self)
        requires
            buffers.ordinals@.len() == r,
            r <= buffers.bitmap@.len(),
        ensures
            permuter.wf(),
            permuter.cardinality() == buffers.bitmap@.len(),
            permuter@.len() == r,
            permuter@ == first_permutation(r as int),
            forall|i: int| 0 <= i < r ==> permuter@[i] == i,
    {
        let Alloc { mut bitmap, mut ordinals } = buffers;
        let n = bitmap.len();
        let mut b: usize = 0;
        while b < n
            invariant
                0 <= b <= n,
                bitmap@.len() == n,
                r <= n,
                forall|p: int| 0 <= p < b ==> (bitmap@[p] <==> p < r),
            decreases n - b,
        {
            let mark = b < r;
            bitmap.set(b, mark);
            b = b + 1;
        }
        let mut i: usize = 0;
        while i < r
            invariant
                0 <= i <= r,
                ordinals@.len() == r,
                forall|p: int| 0 <= p < i ==> ordinals@[p] == p,
            decreases r - i,
        {
            ordinals.set(i, i);
            i = i + 1;
        }
        proof {
            assert forall|x: int|
                0 <= x < bitmap@.len() implies (#[trigger] bitmap@[x] <==> exists|p: int|
                    0 <= p < ordinals@.len() && ordinals@[p] == x) by {
                if x < r {
                    assert(ordinals@[x] == x);
                }
            }
            assert(ordinals@ =~= first_permutation(r as int));
        }
        Permuter { r, bitmap, ordinals }
    }

    /// The current permutation tuple.
    pub fn read(&self) -> (ordinals: &Vec<usize>)
        ensures
            ordinals@ == self@,
    {
        &self.ordinals
    }

    /// Steps to the next tuple in ascending lexicographic order, or reports
    /// exhaustion (leaving the final tuple in place).
    #[verifier::rlimit(60)]
    pub fn advance(&mut self) -> (advanced: bool)
        requires
            old(self).wf(),
        ensures
            final(self).wf(),
            final(self).cardinality() == old(self).cardinality(),
            final(self)@.len() == old(self)@.len(),
            advanced ==> lex_lt(old(self)@, final(self)@),
            advanced ==> forall|c: Seq<usize>|
                is_permutation_tuple(c, old(self).cardinality()) && c.len() == old(self)@.len()
                    && lex_lt(old(self)@, c) ==> !lex_lt(c, final(self)@),
            !advanced ==> final(self)@ == old(self)@,
            !advanced ==> forall|c: Seq<usize>|
                is_permutation_tuple(c, old(self).cardinality()) && c.len() == old(self)@.len()
                    ==> !lex_lt(old(self)@, c),
    {
        let ghost a = self.ordinals@;
        let ghost n = self.bitmap@.len() as int;
        if self.r == 0 {
            proof {
                assert forall|c: Seq<usize>|
                    is_permutation_tuple(c, n) && c.len() == a.len() implies !lex_lt(a, c) by {
                    if lex_lt(a, c) {
                        let k = choose|k: int| lex_lt_at(a, c, k);
                    }
                }
            }
            return false;
        }
        let r = self.r;

        let mut caret: usize = r - 1;
        loop
            invariant
                0 <= caret < r,
                r == self.r,
                r as int == a.len(),
                a == old(self)@,
                n == old(self).cardinality(),
                a.len() <= n,
                self.bitmap@.len() == n,
                self.ordinals@ == a,
                distinct(a),
                forall|i: int| 0 <= i < a.len() ==> a[i] < n,
                forall|x: int|
                    0 <= x < n ==> (#[trigger] self.bitmap@[x] <==> exists|p: int|
                        0 <= p <= caret && a[p] == x),
                forall|j: int| caret < j < r ==> #[trigger] position_saturated(a, n, j),
            ensures
                0 <= caret < r,
                self.ordinals@ == a,
                self.bitmap@.len() == n,
                forall|x: int|
                    0 <= x < n ==> (#[trigger] self.bitmap@[x] <==> exists|p: int|
                        0 <= p <= caret && a[p] == x),
                forall|j: int| caret < j < r ==> #[trigger] position_saturated(a, n, j),
                exists|f: int| a[caret as int] < f < n && !self.bitmap@[f],
            decreases caret,
        {
            let scan_len = self.bitmap.len();
            let ordinal = self.ordinals[caret];
            proof {
                assert(ordinal < scan_len);
            }
            if is_full(&self.bitmap, ordinal + 1) {
                let ghost bm0 = self.bitmap@;
                proof {
                    assert(position_saturated(a, n, caret as int)) by {
                        assert forall|v: int|
                            a[caret as int] < v < n implies #[trigger] appears_before(
                            a,
                            caret as int,
                            v,
                        ) by {
                            assert(bm0[v]);
                            let p = choose|p: int| 0 <= p <= caret && a[p] == v;
                            assert(p < caret);
                        }
                    }
                }
                self.bitmap.set(ordinal, false);
                proof {
                    assert forall|x: int|
                        0 <= x < n implies (#[trigger] self.bitmap@[x] <==> exists|p: int|
                            0 <= p < caret && a[p] == x) by {
                        if x == ordinal {
                            assert forall|p: int| 0 <= p < caret implies a[p] != x by {
                                assert(a[caret as int] == x);
                            }
                        } else {
                            if bm0[x] {
                                let p = choose|p: int| 0 <= p <= caret && a[p] == x;
                                assert(p < caret);
                            }
                        }
                    }
                }
                if caret != 0 {
                    caret = caret - 1;
                } else {
                    proof {
                        assert forall|c: Seq<usize>|
                            is_permutation_tuple(c, n) && c.len() == a.len() implies !lex_lt(
                            a,
                            c,
                        ) by {
                            assert(forall|j: int|
                                0 <= j < a.len() ==> #[trigger] position_saturated(a, n, j));
                            lemma_permutation_max(a, c, n);
                        }
                        lemma_perm_bump_none(a, n, a.len() - 1);
                    }
                    let mut i: usize = 0;
                    while i < r
                        invariant
                            0 <= i <= r,
                            r == self.r,
                            r as int == a.len(),
                            a == old(self)@,
                            n == old(self).cardinality(),
                            a.len() <= n,
                            self.bitmap@.len() == n,
                            self.ordinals@ == a,
                            distinct(a),
                            forall|j: int| 0 <= j < a.len() ==> a[j] < n,
                            forall|x: int|
                                0 <= x < n ==> (#[trigger] self.bitmap@[x] <==> exists|p: int|
                                    0 <= p < i && a[p] == x),
                        decreases r - i,
                    {
                        let ghost bm0 = self.bitmap@;
                        let ordinal = self.ordinals[i];
                        self.bitmap.set(ordinal, true);
                        proof {
                            assert forall|x: int|
                                0 <= x < n implies (#[trigger] self.bitmap@[x] <==> exists|p: int|
                                    0 <= p < i + 1 && a[p] == x) by {
                                if x == ordinal {
                                    assert(a[i as int] == x);
                                } else {
                                    assert(self.bitmap@[x] == bm0[x]);
                                    if bm0[x] {
                                        let p = choose|p: int| 0 <= p < i && a[p] == x;
                                        assert(0 <= p < i + 1 && a[p] == x);
                                    }
                                }
                            }
                        }
                        i = i + 1;
                    }
                    return false;
                }
            } else {
                proof {
                    let f = choose|f: int|
                        ordinal + 1 <= f < self.bitmap@.len() && !self.bitmap@[f];
                    assert(a[caret as int] < f < n && !self.bitmap@[f]);
                }
                break;
            }
        }

        let len_check = self.bitmap.len();
        let current = self.ordinals[caret];
        proof {
            assert(current < len_check);
        }
        let ghost bm_before = self.bitmap@;
        let next_available = match take_next_available(&mut self.bitmap, current + 1) {
            Some(b) => b,
            None => {
                proof {
                    let f = choose|f: int| a[caret as int] < f < n && !bm_before[f];
                    assert(false);
                }
                0
            },
        };
        let ghost bm1 = self.bitmap@;
        self.bitmap.set(current, false);
        self.ordinals.set(caret, next_available);
        proof {
            let b1 = self.ordinals@;
            assert forall|x: int|
                0 <= x < n implies (#[trigger] self.bitmap@[x] <==> exists|p: int|
                    0 <= p <= caret && b1[p] == x) by {
                if x == current {
                    assert(!self.bitmap@[x]);
                    assert forall|p: int| 0 <= p <= caret implies b1[p] != x by {
                        if p < caret {
                            assert(a[p] == b1[p]);
                            assert(a[caret as int] == x);
                        }
                    }
                } else if x == next_available {
                    assert(b1[caret as int] == x);
                } else {
                    if bm_before[x] {
                        let p = choose|p: int| 0 <= p <= caret && a[p] == x;
                        assert(p < caret);
                        assert(b1[p] == x);
                    } else if self.bitmap@[x] {
                        assert(false);
                    }
                }
            }
            assert forall|p: int| 0 <= p < caret implies b1[p] != next_available by {
                assert(b1[p] == a[p]);
                assert(bm_before[a[p] as int]);
            }
            assert forall|v: int|
                a[caret as int] < v < next_available implies #[trigger] appears_before(
                a,
                caret as int,
                v,
            ) by {
                assert(bm_before[v]);
                let p = choose|p: int| 0 <= p <= caret && a[p] == v;
                assert(p < caret);
            }
            assert(!position_saturated(a, n, caret as int)) by {
                let f = choose|f: int| a[caret as int] < f < n && !bm_before[f];
                if appears_before(a, caret as int, f) {
                    let p = choose|p: int| 0 <= p < caret && a[p] == f;
                    assert(bm_before[f]);
                }
            }
            lemma_perm_bump_at(a, n, a.len() - 1, caret as int);
            assert(next_absent(a, caret as int, a[caret as int] + 1, n) == next_available as int)
                by {
                assert(!appears_before(a, caret as int, next_available as int)) by {
                    if appears_before(a, caret as int, next_available as int) {
                        let p = choose|p: int| 0 <= p < caret && a[p] == next_available;
                        assert(bm_before[next_available as int]);
                    }
                }
                lemma_next_absent_of(
                    a,
                    caret as int,
                    a[caret as int] + 1,
                    next_available as int,
                    n,
                );
            }
        }
        let ghost bumped_base = a.take(caret as int).push(next_available);
        proof {
            assert(bumped_base =~= self.ordinals@.take(caret + 1));
        }

        let mut index: usize = caret + 1;
        while index < r
            invariant
                caret < index <= r,
                r == self.r,
                r as int == a.len(),
                a == old(self)@,
                n == old(self).cardinality(),
                a.len() <= n,
                self.bitmap@.len() == n,
                self.ordinals@.len() == a.len(),
                forall|j: int| 0 <= j < index ==> self.ordinals@[j] < n,
                forall|j: int| 0 <= j < caret ==> self.ordinals@[j] == a[j],
                self.ordinals@[caret as int] > a[caret as int],
                self.ordinals@[caret as int] == next_available,
                bumped_base == a.take(caret as int).push(next_available),
                0 <= n <= usize::MAX,
                greedy_extend(bumped_base, n, r - 1 - caret) == greedy_extend(
                    self.ordinals@.take(index as int),
                    n,
                    r - index,
                ),
                forall|j: int| caret < j < index ==> #[trigger] greedy_filled(self.ordinals@, j),
                forall|p: int, q: int| 0 <= p < q < index ==> self.ordinals@[p]
                    != self.ordinals@[q],
                forall|x: int|
                    0 <= x < n ==> (#[trigger] self.bitmap@[x] <==> exists|p: int|
                        0 <= p < index && self.ordinals@[p] == x),
            decreases r - index,
        {
            let ghost bm0 = self.bitmap@;
            let ghost ords0 = self.ordinals@;
            let next = match take_next_available(&mut self.bitmap, 0) {
                Some(b) => b,
                None => {
                    proof {
                        assert forall|x: int|
                            0 <= x < n implies #[trigger] covered(ords0, index as int, x) by {
                            assert(bm0[x]);
                        }
                        lemma_pigeonhole(ords0, index as int, n);
                        assert(false);
                    }
                    0
                },
            };
            self.ordinals.set(index, next);
            proof {
                assert forall|p: int| 0 <= p < index implies ords0[p] != next by {
                    assert(bm0[ords0[p] as int]);
                }
                assert forall|x: int|
                    0 <= x < n implies (#[trigger] self.bitmap@[x] <==> exists|p: int|
                        0 <= p < index + 1 && self.ordinals@[p] == x) by {
                    if x == next {
                        assert(self.ordinals@[index as int] == x);
                    } else {
                        assert(self.bitmap@[x] == bm0[x]);
                        if bm0[x] {
                            let p = choose|p: int| 0 <= p < index && ords0[p] == x;
                            assert(self.ordinals@[p] == x);
                        } else {
                            assert forall|p: int| 0 <= p < index + 1
                                implies self.ordinals@[p] != x by {
                                if p < index {
                                    assert(self.ordinals@[p] == ords0[p]);
                                }
                            }
                        }
                    }
                }
                assert forall|j: int|
                    caret < j < index + 1 implies #[trigger] greedy_filled(
                    self.ordinals@,
                    j,
                ) by {
                    if j == index {
                        assert forall|v: int|
                            0 <= v < self.ordinals@[j] implies #[trigger] appears_before(
                            self.ordinals@,
                            j,
                            v,
                        ) by {
                            assert(bm0[v]);
                            let p = choose|p: int| 0 <= p < index && ords0[p] == v;
                            assert(self.ordinals@[p] == v);
                        }
                    } else {
                        assert(greedy_filled(ords0, j));
                        assert forall|v: int|
                            0 <= v < self.ordinals@[j] implies #[trigger] appears_before(
                            self.ordinals@,
                            j,
                            v,
                        ) by {
                            assert(self.ordinals@[j] == ords0[j]);
                            assert(appears_before(ords0, j, v));
                            let p = choose|p: int| 0 <= p < j && ords0[p] == v;
                            assert(self.ordinals@[p] == v);
                        }
                    }
                }
                assert(next_absent(ords0, index as int, 0, n) == next as int) by {
                    assert(!appears_before(ords0, index as int, next as int)) by {
                        if appears_before(ords0, index as int, next as int) {
                            assert(bm0[next as int]);
                        }
                    }
                    assert forall|v: int|
                        0 <= v < next implies #[trigger] appears_before(
                        ords0,
                        index as int,
                        v,
                    ) by {
                        assert(bm0[v]);
                    }
                    lemma_next_absent_of(ords0, index as int, 0, next as int, n);
                }
                let prefix = ords0.take(index as int);
                lemma_next_absent_prefix(ords0, prefix, index as int, 0, n);
                assert(greedy_extend(prefix, n, r - index) == greedy_extend(
                    prefix.push(next),
                    n,
                    r - index - 1,
                ));
                assert(prefix.push(next) =~= self.ordinals@.take(index + 1));
            }
            index = index + 1;
        }
        proof {
            assert(lex_lt_at(a, self.ordinals@, caret as int));
            let b = self.ordinals@;
            assert(lex_agree(a, b, caret as int));
            assert forall|c: Seq<usize>|
                is_permutation_tuple(c, n) && c.len() == a.len() && lex_lt(a, c) implies !lex_lt(
                c,
                b,
            ) by {
                lemma_permutation_successor_tight(a, b, c, n, caret as int);
            }
            assert(b.take(r as int) =~= b);
            assert(greedy_extend(b, n, 0) == b);
            assert(a.take(caret as int).push(
                next_absent(a, caret as int, a[caret as int] + 1, n) as usize,
            ) =~= bumped_base);
            assert(b == perm_next(a, n));
        }
        true
    }
}

/// Ordinal `x` occurs among the first `filled` entries of the tuple.
spec fn covered(ords: Seq<usize>, filled: int, x: int) -> bool {
    exists|p: int| 0 <= p < filled && ords[p] == x
}

/// If every ordinal of `[0, n)` occurs among the first `filled` entries of a
/// tuple, then `filled` is at least `n`.
proof fn lemma_pigeonhole(ords: Seq<usize>, filled: int, n: int)
    requires
        0 <= filled <= ords.len(),
        forall|x: int| 0 <= x < n ==> #[trigger] covered(ords, filled, x),
    ensures
        filled >= n,
    decreases n,
{
    if n > 0 {
        assert(covered(ords, filled, n - 1));
        let p0 = choose|p: int| 0 <= p < filled && ords[p] == n - 1;
        let shuffled = ords.update(p0, ords[filled - 1]).update(filled - 1, ords[p0]);
        assert forall|x: int| 0 <= x < n - 1 implies #[trigger] covered(
            shuffled,
            filled - 1,
            x,
        ) by {
            assert(covered(ords, filled, x));
            let q = choose|q: int| 0 <= q < filled && ords[q] == x;
            if q == p0 {
                assert(false);
            } else if q == filled - 1 {
                if p0 == filled - 1 {
                    assert(false);
                } else {
                    assert(shuffled[p0] == ords[filled - 1]);
                }
            } else {
                assert(shuffled[q] == ords[q]);
            }
        }
        lemma_pigeonhole(shuffled, filled - 1, n - 1);
    }
}

} // verus!
