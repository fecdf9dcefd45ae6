//! A sticky, recursive permuter that keeps the highest ordinals anchored in
//! the least significant positions for as long as possible. An outer
//! combiner walks the `r`-combinations in ascending order; for each one,
//! every permutation of it is emitted by repeatedly splitting off the
//! ordinal that takes the current position and recursing on the remainder.
//!
//! The recursion works over one flat stack buffer of `r * (r + 1) / 2`
//! slots, addressed by index ranges, so that no allocation happens per
//! step. The visitor can return `false` to abort the whole traversal,
//! which unwinds every recursion level at once.

use vstd::prelude::*;
use vstd::arithmetic::power::pow;
use crate::comb::distinct;
use crate::comb::combiner::{
    comb_is_last, comb_next, first_combination, is_combination, lemma_comb_is_last_max,
    lemma_comb_next_props, lemma_comb_next_tight, lemma_combination_gap, lemma_lex_trichotomy,
    lemma_lex_value_bound, lemma_lex_value_lt, lex_value, Combiner, lex_lt, lex_lt_at,
};

verus! {

/// A traversal visitor: `visit` is called once per emitted permutation and
/// returns whether the traversal should continue. Every emitted tuple is
/// guaranteed free of duplicate ordinals. The two spec functions model the
/// visitor abstractly: the tuples it has taken so far, and which logs its
/// answer approves of continuing from. Implementations outside this crate
/// are not verified against these obligations; the traversal's contract
/// holds of every visitor that meets them.
pub trait Visit {
    /// The tuples taken so far, in the order they were taken. The default
    /// stands in for visitors that keep no model of their own; an
    /// implementation that wants the traversal's guarantees overrides it.
    open spec fn log(&self) -> Seq<Seq<usize>> {
        Seq::empty()
    }

    /// Whether a visitor that has taken the given log asks the traversal to
    /// continue: its answers are a function of what it has seen. The
    /// default stands in for visitors that keep no model of their own.
    open spec fn approves(log: Seq<Seq<usize>>) -> bool {
        true
    }

    /// Takes one emitted tuple; returns `false` to abort the traversal.
    fn visit(&mut self, ordinals: &Vec<usize>) -> (keep_going: bool)
        requires
            distinct(ordinals@),
        ensures
            final(self).log() == old(self).log().push(ordinals@),
            keep_going == Self::approves(final(self).log()),
    ;
}

/// Every proper continuation point before the `k`-th entry of `seg`,
/// counted from `base`, was approved: the visitor asked for more after
/// each of its first `k - 1` visits.
pub open spec fn approved_through<V: Visit>(
    base: Seq<Seq<usize>>,
    seg: Seq<Seq<usize>>,
    k: int,
) -> bool {
    forall|j: int| 1 <= j < k ==> V::approves(base + #[trigger] seg.take(j))
}

/// Approvals compose across a segment boundary: if every continuation
/// within `done` was approved, the boundary itself was approved, and every
/// continuation within the next `k0` entries of `seg` was approved, then
/// every continuation within the first `done.len() + k0` entries of any
/// sequence that starts with `done + seg.take(k0)` was approved.
pub proof fn lemma_approved_extend<V: Visit>(
    base: Seq<Seq<usize>>,
    done: Seq<Seq<usize>>,
    seg: Seq<Seq<usize>>,
    combined: Seq<Seq<usize>>,
    k0: int,
)
    requires
        0 <= k0 <= seg.len(),
        approved_through::<V>(base, done, done.len() as int),
        done.len() >= 1 && k0 >= 1 ==> V::approves(base + done),
        approved_through::<V>(base + done, seg, k0),
        done.len() + k0 <= combined.len(),
        combined.take(done.len() + k0) == done + seg.take(k0),
    ensures
        approved_through::<V>(base, combined, done.len() + k0),
{
    let off = done.len() as int;
    assert forall|j: int|
        1 <= j < off + k0 implies V::approves(base + #[trigger] combined.take(j)) by {
        assert(combined.take(j) =~= combined.take(off + k0).take(j));
        if j < off {
            assert((done + seg.take(k0)).take(j) =~= done.take(j));
            assert(V::approves(base + done.take(j)));
        } else if j == off {
            assert((done + seg.take(k0)).take(j) =~= done);
        } else {
            assert((done + seg.take(k0)).take(j) =~= done + seg.take(j - off));
            assert(base + (done + seg.take(j - off)) =~= (base + done) + seg.take(j - off));
            assert(V::approves((base + done) + seg.take(j - off)));
        }
    }
}

/// The ordinals a recursion frame still has to permute, together with the
/// tuple positions already filled by its ancestors.
pub open spec fn frame_tuple(
    stack: Seq<usize>,
    start: int,
    len: int,
    ords: Seq<usize>,
    depth: int,
) -> Seq<usize> {
    stack.subrange(start, start + len) + ords.subrange(ords.len() - depth, ords.len() as int)
}

/// Where each entry of a child frame's tuple sits in its parent's tuple:
/// the child keeps every frame element but the one at `t`, which moved to
/// the front of the filled positions.
pub open spec fn frame_map(x: int, t: int, len: int) -> int {
    if x < len - 1 {
        if x < t {
            x
        } else {
            x + 1
        }
    } else if x == len - 1 {
        t
    } else {
        x
    }
}

/// Every tuple of `tails` with `last` appended at the end.
pub open spec fn appended(tails: Seq<Seq<usize>>, last: usize) -> Seq<Seq<usize>> {
    Seq::new(tails.len(), |i: int| tails[i].push(last))
}

/// Every tuple of `perms` followed by the fixed `suffix`.
pub open spec fn suffixed(perms: Seq<Seq<usize>>, suffix: Seq<usize>) -> Seq<Seq<usize>> {
    Seq::new(perms.len(), |i: int| perms[i] + suffix)
}

/// The sticky permutations of a frame's elements, in emission order: the
/// element at position `t` takes the last place while the remainder is
/// permuted recursively, with `t` walking from the last element down to
/// the first.
pub open spec fn frame_perms(elements: Seq<usize>) -> Seq<Seq<usize>>
    decreases elements.len(), elements.len() + 1int,
{
    if elements.len() == 0 {
        seq![Seq::<usize>::empty()]
    } else {
        frame_perms_from(elements, elements.len() - 1)
    }
}

/// The segments of `frame_perms` for tail positions `t` down to `0`.
pub open spec fn frame_perms_from(elements: Seq<usize>, t: int) -> Seq<Seq<usize>>
    decreases elements.len(), t + 1,
{
    if t < 0 || t >= elements.len() {
        Seq::empty()
    } else {
        appended(frame_perms(elements.remove(t)), elements[t]) + frame_perms_from(elements, t - 1)
    }
}

/// The run of combinations from `s` to the last one, each stepping to its
/// immediate successor.
pub open spec fn comb_chain(s: Seq<usize>, n: int) -> Seq<Seq<usize>>
    decreases pow(n, s.len() as nat) - lex_value(s, n)
        when is_combination(s, n) && s.len() <= n <= usize::MAX
        via comb_chain_decreases
{
    if comb_is_last(s, n) {
        seq![s]
    } else {
        seq![s] + comb_chain(comb_next(s, n), n)
    }
}

#[via_fn]
proof fn comb_chain_decreases(s: Seq<usize>, n: int) {
    if !comb_is_last(s, n) {
        lemma_comb_next_props(s, n);
        lemma_lex_value_lt(s, comb_next(s, n), n);
        lemma_lex_value_bound(comb_next(s, n), n);
        lemma_lex_value_bound(s, n);
    }
}

/// Combination `c` appears somewhere in the run of combinations from `s`.
pub open spec fn chain_covers(s: Seq<usize>, n: int, c: Seq<usize>) -> bool {
    exists|i: int| 0 <= i < comb_chain(s, n).len() && comb_chain(s, n)[i] == c
}

/// The run of combinations from `s` heads with `s` and holds valid
/// combinations of its length throughout.
pub proof fn lemma_chain_entries(s: Seq<usize>, n: int)
    requires
        is_combination(s, n),
        s.len() <= n <= usize::MAX,
    ensures
        comb_chain(s, n).len() >= 1,
        comb_chain(s, n)[0] == s,
        forall|i: int|
            0 <= i < comb_chain(s, n).len() ==> is_combination(
                #[trigger] comb_chain(s, n)[i],
                n,
            ) && comb_chain(s, n)[i].len() == s.len(),
    decreases pow(n, s.len() as nat) - lex_value(s, n),
{
    lemma_chain_step(s, n);
    let chain = comb_chain(s, n);
    if !comb_is_last(s, n) {
        let nxt = comb_next(s, n);
        lemma_comb_next_props(s, n);
        lemma_lex_value_lt(s, nxt, n);
        lemma_lex_value_bound(nxt, n);
        lemma_lex_value_bound(s, n);
        lemma_chain_entries(nxt, n);
        let sub = comb_chain(nxt, n);
        assert(chain =~= seq![s] + sub);
        assert forall|i: int|
            0 <= i < chain.len() implies is_combination(#[trigger] chain[i], n) && chain[i].len()
            == s.len() by {
            if i > 0 {
                assert(chain[i] == sub[i - 1]);
            }
        }
    }
}

/// The run of combinations from `s` is strictly ascending: no combination
/// appears twice.
#[verifier::rlimit(100)]
#[verifier::spinoff_prover]
pub proof fn lemma_chain_ascending(s: Seq<usize>, n: int)
    requires
        is_combination(s, n),
        s.len() <= n <= usize::MAX,
    ensures
        forall|i: int, j: int|
            #![trigger comb_chain(s, n)[i], comb_chain(s, n)[j]]
            0 <= i < j < comb_chain(s, n).len() ==> comb_chain(s, n)[i] != comb_chain(s, n)[j]
                && lex_value(comb_chain(s, n)[i], n) < lex_value(comb_chain(s, n)[j], n),
    decreases pow(n, s.len() as nat) - lex_value(s, n),
{
    lemma_chain_step(s, n);
    let chain = comb_chain(s, n);
    if !comb_is_last(s, n) {
        let nxt = comb_next(s, n);
        lemma_comb_next_props(s, n);
        lemma_lex_value_lt(s, nxt, n);
        lemma_lex_value_bound(nxt, n);
        lemma_lex_value_bound(s, n);
        lemma_chain_ascending(nxt, n);
        lemma_chain_entries(nxt, n);
        let sub = comb_chain(nxt, n);
        assert(chain =~= seq![s] + sub);
        assert forall|i: int, j: int|
            #![trigger chain[i], chain[j]]
            0 <= i < j < chain.len() implies chain[i] != chain[j] && lex_value(chain[i], n)
            < lex_value(chain[j], n) by {
            assert(chain[j] == sub[j - 1]);
            if i == 0 {
                if j > 1 {
                    assert(lex_value(sub[0], n) < lex_value(sub[j - 1], n));
                }
            } else {
                assert(chain[i] == sub[i - 1]);
                assert(lex_value(sub[i - 1], n) < lex_value(sub[j - 1], n));
            }
        }
    }
}

/// The run of combinations from `s` reaches every combination at or above
/// `s`.
#[verifier::rlimit(100)]
#[verifier::spinoff_prover]
pub proof fn lemma_chain_covers(s: Seq<usize>, n: int)
    requires
        is_combination(s, n),
        s.len() <= n <= usize::MAX,
    ensures
        forall|c: Seq<usize>|
            is_combination(c, n) && c.len() == s.len() && (c == s || lex_lt(s, c))
                ==> #[trigger] chain_covers(s, n, c),
    decreases pow(n, s.len() as nat) - lex_value(s, n),
{
    lemma_chain_step(s, n);
    let chain = comb_chain(s, n);
    if comb_is_last(s, n) {
        assert forall|c: Seq<usize>|
            is_combination(c, n) && c.len() == s.len() && (c == s || lex_lt(s, c))
                implies #[trigger] chain_covers(s, n, c) by {
            lemma_comb_is_last_max(s, c, n);
            assert(chain[0] == c);
        }
    } else {
        let nxt = comb_next(s, n);
        lemma_comb_next_props(s, n);
        lemma_lex_value_lt(s, nxt, n);
        lemma_lex_value_bound(nxt, n);
        lemma_lex_value_bound(s, n);
        lemma_chain_covers(nxt, n);
        let sub = comb_chain(nxt, n);
        assert(chain.drop_first() == sub);
        assert(chain.len() == 1 + sub.len());
        assert forall|c: Seq<usize>|
            is_combination(c, n) && c.len() == s.len() && (c == s || lex_lt(s, c)) && c != s
                && c != nxt implies lex_lt(nxt, c) by {
            lemma_comb_next_tight(s, c, n);
            lemma_lex_trichotomy(c, nxt);
        }
        lemma_chain_entries(nxt, n);
        assert forall|c: Seq<usize>|
            is_combination(c, n) && c.len() == s.len() && (c == s || lex_lt(s, c))
                implies #[trigger] chain_covers(s, n, c) by {
            if c == s {
                assert(chain[0] == c);
            } else if c == nxt {
                assert(sub[0] == nxt);
                assert(chain[1] == chain.drop_first()[0]);
                assert(chain[1] == c);
            } else {
                assert(lex_lt(nxt, c));
                assert(chain_covers(nxt, n, c));
                let i0 = choose|i0: int| 0 <= i0 < sub.len() && sub[i0] == c;
                assert(chain[i0 + 1] == chain.drop_first()[i0]);
                assert(chain[i0 + 1] == c);
            }
        }
    }
}

/// The whole-traversal statement for the combination order: the run from
/// the first combination holds every combination of `r` ordinals out of
/// `[0, n)` exactly once, ascending.
pub proof fn lemma_combination_traversal(n: int, r: int)
    requires
        0 <= r <= n <= usize::MAX,
    ensures
        comb_chain(first_combination(r), n)[0] == first_combination(r),
        forall|i: int|
            0 <= i < comb_chain(first_combination(r), n).len() ==> is_combination(
                #[trigger] comb_chain(first_combination(r), n)[i],
                n,
            ),
        forall|i: int, j: int|
            #![trigger comb_chain(first_combination(r), n)[i], comb_chain(first_combination(r), n)[j]]
            0 <= i < j < comb_chain(first_combination(r), n).len() ==> comb_chain(
                first_combination(r),
                n,
            )[i] != comb_chain(first_combination(r), n)[j],
        forall|c: Seq<usize>|
            is_combination(c, n) && c.len() == r ==> #[trigger] chain_covers(
                first_combination(r),
                n,
                c,
            ),
{
    let first = first_combination(r);
    assert(is_combination(first, n)) by {
        assert(forall|i: int| 0 <= i < r ==> first[i] == i);
    }
    lemma_chain_entries(first, n);
    lemma_chain_ascending(first, n);
    lemma_chain_covers(first, n);
    assert forall|c: Seq<usize>|
        is_combination(c, n) && c.len() == r implies #[trigger] chain_covers(first, n, c) by {
        if c != first {
            if lex_lt(c, first) {
                let k = choose|k: int| lex_lt_at(c, first, k);
                lemma_combination_gap(c, n, 0, k);
                assert(first[k] == k);
                assert(false);
            }
            lemma_lex_trichotomy(c, first);
        }
    }
}

/// The sticky segments of a run of combinations, flattened.
pub open spec fn segments_of(combinations: Seq<Seq<usize>>) -> Seq<Seq<usize>>
    decreases combinations.len(),
{
    if combinations.len() == 0 {
        Seq::empty()
    } else {
        frame_perms(combinations[0]) + segments_of(combinations.drop_first())
    }
}

/// The full sticky traversal order for `n` permute `r`: the tuples the
/// visitor receives, in order, when it never aborts.
pub open spec fn sticky_seq(n: int, r: int) -> Seq<Seq<usize>> {
    segments_of(comb_chain(first_combination(r), n))
}

/// One step of the combination run: its head is the given combination, and
/// its segments start with that combination's sticky permutations.
pub proof fn lemma_chain_step(cur: Seq<usize>, n: int)
    requires
        is_combination(cur, n),
        cur.len() <= n <= usize::MAX,
    ensures
        comb_chain(cur, n).len() >= 1,
        comb_chain(cur, n)[0] == cur,
        segments_of(comb_chain(cur, n)) == frame_perms(cur) + segments_of(
            comb_chain(cur, n).drop_first(),
        ),
        comb_is_last(cur, n) ==> comb_chain(cur, n).drop_first() == Seq::<Seq<usize>>::empty(),
        !comb_is_last(cur, n) ==> comb_chain(cur, n).drop_first() == comb_chain(
            comb_next(cur, n),
            n,
        ),
{
    if comb_is_last(cur, n) {
        assert(comb_chain(cur, n) == seq![cur]);
        assert(comb_chain(cur, n).drop_first() =~= Seq::<Seq<usize>>::empty());
    } else {
        lemma_comb_next_props(cur, n);
        assert(comb_chain(cur, n) == seq![cur] + comb_chain(comb_next(cur, n), n));
        assert(comb_chain(cur, n).drop_first() =~= comb_chain(comb_next(cur, n), n));
    }
}

/// A combination's entries are pairwise distinct.
pub proof fn lemma_combination_distinct(c: Seq<usize>, n: int)
    requires
        is_combination(c, n),
    ensures
        distinct(c),
{
    assert forall|p: int, q: int| 0 <= p < q < c.len() implies c[p] != c[q] by {
        lemma_combination_gap(c, n, p, q);
    }
}

/// A log that grew by a prefix of the next segment grew by a prefix of the
/// whole remaining sequence.
pub proof fn lemma_prefix_composition(
    log_entry: Seq<Seq<usize>>,
    done: Seq<Seq<usize>>,
    seg: Seq<Seq<usize>>,
    rest: Seq<Seq<usize>>,
    logged: Seq<Seq<usize>>,
    k0: int,
)
    requires
        0 <= k0 <= seg.len(),
        logged == (log_entry + done) + seg.take(k0),
    ensures
        logged == log_entry + (done + (seg + rest)).take(done.len() + k0),
        0 <= done.len() + k0 <= (done + (seg + rest)).len(),
{
    lemma_take_prefix(seg, rest, k0);
    lemma_take_concat(done, seg + rest, k0);
    assert((log_entry + done) + (seg + rest).take(k0) =~= log_entry + (done + (seg
        + rest).take(k0)));
}

/// The tuples one recursion frame emits: the sticky permutations of its
/// elements, each followed by the positions its ancestors already filled.
pub open spec fn frame_segment(
    stack: Seq<usize>,
    start: int,
    len: int,
    ords: Seq<usize>,
    depth: int,
) -> Seq<Seq<usize>> {
    suffixed(
        frame_perms(stack.subrange(start, start + len)),
        ords.subrange(ords.len() - depth, ords.len() as int),
    )
}

pub proof fn lemma_suffixed_concat(a: Seq<Seq<usize>>, b: Seq<Seq<usize>>, suffix: Seq<usize>)
    ensures
        suffixed(a + b, suffix) == suffixed(a, suffix) + suffixed(b, suffix),
{
    assert(suffixed(a + b, suffix) =~= suffixed(a, suffix) + suffixed(b, suffix));
}

pub proof fn lemma_suffixed_appended(perms: Seq<Seq<usize>>, last: usize, suffix: Seq<usize>)
    ensures
        suffixed(appended(perms, last), suffix) == suffixed(perms, seq![last] + suffix),
{
    assert forall|i: int|
        0 <= i < perms.len() implies suffixed(appended(perms, last), suffix)[i] == suffixed(
        perms,
        seq![last] + suffix,
    )[i] by {
        assert(perms[i].push(last) + suffix =~= perms[i] + (seq![last] + suffix));
    }
    assert(suffixed(appended(perms, last), suffix) =~= suffixed(perms, seq![last] + suffix));
}

pub proof fn lemma_suffixed_empty(perms: Seq<Seq<usize>>)
    ensures
        suffixed(perms, Seq::empty()) == perms,
{
    assert forall|i: int|
        0 <= i < perms.len() implies suffixed(perms, Seq::empty())[i] == perms[i] by {
        assert(perms[i] + Seq::<usize>::empty() =~= perms[i]);
    }
    assert(suffixed(perms, Seq::empty()) =~= perms);
}

/// Taking past a fixed prefix takes from what follows it.
pub proof fn lemma_take_concat(a: Seq<Seq<usize>>, b: Seq<Seq<usize>>, j: int)
    requires
        0 <= j <= b.len(),
    ensures
        (a + b).take(a.len() + j) == a + b.take(j),
{
    assert((a + b).take(a.len() as int + j) =~= a + b.take(j));
}

/// Taking less than a prefix ignores what follows it.
pub proof fn lemma_take_prefix(a: Seq<Seq<usize>>, b: Seq<Seq<usize>>, j: int)
    requires
        0 <= j <= a.len(),
    ensures
        (a + b).take(j) == a.take(j),
{
    assert((a + b).take(j) =~= a.take(j));
}

/// The scratch buffers of a sticky traversal: the combiner's ordinals, the
/// flat element stack, and the emitted tuple.
pub struct Alloc {
    pub combiner_ordinals: Vec<usize>,
    pub elements_stack: Vec<usize>,
    pub ordinals: Vec<usize>,
}

impl Alloc {
    /// The flat stack holds one frame per recursion level: `r` slots, then
    /// `r - 1`, and so on down to `1`.
    pub open spec fn stack_len_spec(r: int) -> int
        decreases r,
    {
        if r <= 0 {
            0
        } else {
            r + Self::stack_len_spec(r - 1)
        }
    }

    /// Buffers for permuting `r` positions.
    pub fn new(r: usize) -> (alloc_buffers: Self)
        requires
            Self::stack_len_spec(r as int) <= usize::MAX,
        ensures
            alloc_buffers.combiner_ordinals@.len() == r,
            alloc_buffers.elements_stack@.len() == Self::stack_len_spec(r as int),
            alloc_buffers.ordinals@.len() == r,
    {
        let stack_len = Self::stack_len(r);
        Alloc {
            combiner_ordinals: zeroes(r),
            elements_stack: zeroes(stack_len),
            ordinals: zeroes(r),
        }
    }

    /// Number of stack slots needed to permute `r` positions: the
    /// triangular number `r * (r + 1) / 2`.
    pub fn stack_len(r: usize) -> (len: usize)
        requires
            Self::stack_len_spec(r as int) <= usize::MAX,
        ensures
            len as int == Self::stack_len_spec(r as int),
    {
        let mut acc: usize = 0;
        let mut i: usize = 0;
        while i < r
            invariant
                0 <= i <= r,
                acc == Self::stack_len_spec(i as int),
                Self::stack_len_spec(r as int) <= usize::MAX,
            decreases r - i,
        {
            proof {
                lemma_stack_len_mono(i + 1, r as int);
            }
            acc = acc + (i + 1);
            i = i + 1;
        }
        acc
    }
}

pub proof fn lemma_stack_len_nonneg(r: int)
    ensures
        Alloc::stack_len_spec(r) >= 0,
        r >= 0 ==> Alloc::stack_len_spec(r) >= r,
    decreases r,
{
    if r > 0 {
        lemma_stack_len_nonneg(r - 1);
    }
}

pub proof fn lemma_stack_len_mono(a: int, b: int)
    requires
        a <= b,
    ensures
        Alloc::stack_len_spec(a) <= Alloc::stack_len_spec(b),
    decreases b - a,
{
    if a < b {
        lemma_stack_len_mono(a, b - 1);
        lemma_stack_len_nonneg(b - 1);
    }
}

fn zeroes(len: usize) -> (buffer: Vec<usize>)
    ensures
        buffer@.len() == len,
{
    let mut buffer: Vec<usize> = Vec::new();
    let mut i: usize = 0;
    while i < len
        invariant
            0 <= i <= len,
            buffer@.len() == i,
        decreases len - i,
    {
        buffer.push(0);
        i = i + 1;
    }
    buffer
}

/// Copies the combiner's current combination into the front of the stack.
fn load_combination(elements_stack: &mut Vec<usize>, combiner: &Combiner, r: usize)
    requires
        r as int <= old(elements_stack)@.len(),
        combiner@.len() == r,
    ensures
        final(elements_stack)@.len() == old(elements_stack)@.len(),
        final(elements_stack)@.subrange(0, r as int) == combiner@,
{
    let mut index: usize = 0;
    while index < r
        invariant
            0 <= index <= r,
            combiner@.len() == r,
            r as int <= elements_stack@.len(),
            elements_stack@.len() == old(elements_stack)@.len(),
            forall|i: int| 0 <= i < index ==> elements_stack@[i] == combiner@[i],
        decreases r - index,
    {
        let ordinal = combiner.ordinals()[index];
        elements_stack.set(index, ordinal);
        index = index + 1;
    }
    proof {
        assert(elements_stack@.subrange(0, r as int) =~= combiner@);
    }
}

/// The whole-tuple frame over a freshly loaded combination emits exactly
/// that combination's sticky permutations.
proof fn lemma_top_frame_segment(
    call_stack: Seq<usize>,
    call_ords: Seq<usize>,
    cur: Seq<usize>,
    r: int,
)
    requires
        0 <= r <= call_stack.len(),
        call_ords.len() == r,
        call_stack.subrange(0, r) == cur,
    ensures
        frame_segment(call_stack, 0, r, call_ords, 0) == frame_perms(cur),
        distinct(frame_tuple(call_stack, 0, r, call_ords, 0)) == distinct(cur),
{
    assert(call_ords.subrange(r, r) =~= Seq::<usize>::empty());
    lemma_suffixed_empty(frame_perms(cur));
    assert(frame_tuple(call_stack, 0, r, call_ords, 0) =~= cur);
}

/// Emits every `r`-permutation of `[0, n)` to the visitor in sticky order,
/// stopping early as soon as the visitor returns `false`: the visitor
/// takes exactly a prefix of `sticky_seq(n, r)`, approving every
/// continuation within it, and takes the whole of it unless its last
/// answer was a refusal.
pub fn permute<V: Visit>(n: usize, r: usize, visitor: &mut V)
    requires
        r <= n,
        Alloc::stack_len_spec(r as int) <= usize::MAX,
    ensures
        exists|k: int|
            0 <= k <= sticky_seq(n as int, r as int).len() && final(visitor).log() == old(
                visitor,
            ).log() + #[trigger] sticky_seq(n as int, r as int).take(k) && approved_through::<
                V,
            >(old(visitor).log(), sticky_seq(n as int, r as int), k) && (k == sticky_seq(
                n as int,
                r as int,
            ).len() || !V::approves(final(visitor).log())),
{
    permute_no_alloc(n, r, Alloc::new(r), visitor)
}

/// What one round of the traversal did: went on to the next combination,
/// was aborted by the visitor, or finished the last combination.
pub enum Round {
    Carry,
    Aborted,
    Exhausted,
}

/// Runs one combination's worth of the traversal: loads the combiner's
/// current combination, emits its sticky permutations, and steps the
/// combiner.
#[verifier::rlimit(100)]
fn sticky_round<V: Visit>(
    combiner: &mut Combiner,
    elements_stack: &mut Vec<usize>,
    ordinals: &mut Vec<usize>,
    visitor: &mut V,
    n: usize,
    r: usize,
) -> (round: Round)
    requires
        old(combiner).wf(),
        old(combiner).cardinality() == n,
        old(combiner)@.len() == r,
        r <= n,
        old(elements_stack)@.len() == Alloc::stack_len_spec(r as int),
        old(ordinals)@.len() == r,
    ensures
        final(combiner).wf(),
        final(combiner).cardinality() == n,
        final(combiner)@.len() == r,
        final(elements_stack)@.len() == old(elements_stack)@.len(),
        final(ordinals)@.len() == old(ordinals)@.len(),
        match round {
            Round::Carry => {
                &&& final(visitor).log() == old(visitor).log() + frame_perms(old(combiner)@)
                &&& V::approves(final(visitor).log())
                &&& approved_through::<V>(
                    old(visitor).log(),
                    frame_perms(old(combiner)@),
                    frame_perms(old(combiner)@).len() as int,
                )
                &&& !comb_is_last(old(combiner)@, n as int)
                &&& final(combiner)@ == comb_next(old(combiner)@, n as int)
            },
            Round::Aborted => {
                &&& !V::approves(final(visitor).log())
                &&& exists|k0: int|
                    0 <= k0 <= frame_perms(old(combiner)@).len() && final(visitor).log() == old(
                        visitor,
                    ).log() + #[trigger] frame_perms(old(combiner)@).take(k0)
                        && approved_through::<V>(
                        old(visitor).log(),
                        frame_perms(old(combiner)@),
                        k0,
                    )
            },
            Round::Exhausted => {
                &&& final(visitor).log() == old(visitor).log() + frame_perms(old(combiner)@)
                &&& V::approves(final(visitor).log())
                &&& approved_through::<V>(
                    old(visitor).log(),
                    frame_perms(old(combiner)@),
                    frame_perms(old(combiner)@).len() as int,
                )
                &&& comb_is_last(old(combiner)@, n as int)
            },
        },
{
    proof {
        lemma_stack_len_nonneg(r as int);
    }
    load_combination(elements_stack, combiner, r);
    let ghost cur = combiner@;
    let ghost call_stack = elements_stack@;
    let ghost call_ords = ordinals@;
    proof {
        lemma_combination_distinct(cur, combiner.cardinality());
        lemma_top_frame_segment(call_stack, call_ords, cur, r as int);
    }
    let ghost log_before = visitor.log();
    let keep_going = permute_frame(elements_stack, 0, r, ordinals, visitor, 0);
    proof {
        let seg = frame_perms(cur);
        let k0 = choose|k0: int|
            0 <= k0 <= seg.len() && visitor.log() == log_before + #[trigger] seg.take(k0)
                && approved_through::<V>(log_before, seg, k0);
        if keep_going {
            assert(visitor.log().len() == log_before.len() + seg.len());
            assert(k0 == seg.len());
        }
    }
    if !keep_going {
        return Round::Aborted;
    }
    if !combiner.advance() {
        return Round::Exhausted;
    }
    Round::Carry
}

/// As `permute`, but reuses caller-supplied scratch buffers.
#[verifier::rlimit(100)]
#[verifier::spinoff_prover]
pub fn permute_no_alloc<V: Visit>(n: usize, r: usize, buffers: Alloc, visitor: &mut V)
    requires
        r <= n,
        buffers.combiner_ordinals@.len() == r,
        buffers.elements_stack@.len() == Alloc::stack_len_spec(r as int),
        buffers.ordinals@.len() == r,
    ensures
        exists|k: int|
            0 <= k <= sticky_seq(n as int, r as int).len() && final(visitor).log() == old(
                visitor,
            ).log() + #[trigger] sticky_seq(n as int, r as int).take(k) && approved_through::<
                V,
            >(old(visitor).log(), sticky_seq(n as int, r as int), k) && (k == sticky_seq(
                n as int,
                r as int,
            ).len() || !V::approves(final(visitor).log())),
{
    let Alloc { combiner_ordinals, mut elements_stack, mut ordinals } = buffers;
    let ghost log_entry = visitor.log();
    let ghost mut done: Seq<Seq<usize>> = Seq::empty();
    let mut combiner = Combiner::new_no_alloc(n, combiner_ordinals);
    proof {
        assert(combiner@ =~= first_combination(r as int));
        assert(done + segments_of(comb_chain(combiner@, n as int)) =~= segments_of(
            comb_chain(combiner@, n as int),
        ));
    }
    loop
        invariant_except_break
            visitor.log() == log_entry + done,
            sticky_seq(n as int, r as int) == done + segments_of(
                comb_chain(combiner@, n as int),
            ),
            approved_through::<V>(log_entry, done, done.len() as int),
            done.len() == 0 || V::approves(log_entry + done),
        invariant
            combiner.wf(),
            combiner.cardinality() == n,
            combiner@.len() == r,
            r <= n,
            elements_stack@.len() == Alloc::stack_len_spec(r as int),
            ordinals@.len() == r,
            log_entry == old(visitor).log(),
        ensures
            exists|k: int|
                0 <= k <= sticky_seq(n as int, r as int).len() && visitor.log() == log_entry
                    + #[trigger] sticky_seq(n as int, r as int).take(k) && approved_through::<
                    V,
                >(log_entry, sticky_seq(n as int, r as int), k) && (k == sticky_seq(
                    n as int,
                    r as int,
                ).len() || !V::approves(visitor.log())),
        decreases pow(n as int, r as nat) - lex_value(combiner@, n as int),
    {
        let ghost cur = combiner@;
        proof {
            lemma_chain_step(cur, n as int);
            if n >= 1 {
                lemma_lex_value_bound(cur, n as int);
            }
        }
        let round = sticky_round(&mut combiner, &mut elements_stack, &mut ordinals, visitor, n, r);
        match round {
            Round::Aborted => {
                proof {
                    let total = sticky_seq(n as int, r as int);
                    let seg = frame_perms(cur);
                    let rest = segments_of(comb_chain(cur, n as int).drop_first());
                    let k0 = choose|k0: int|
                        0 <= k0 <= seg.len() && visitor.log() == (log_entry + done)
                            + #[trigger] seg.take(k0) && approved_through::<V>(
                            log_entry + done,
                            seg,
                            k0,
                        );
                    lemma_prefix_composition(log_entry, done, seg, rest, visitor.log(), k0);
                    assert(done + (seg + rest) =~= total);
                    assert(total.take(done.len() + k0) =~= done + seg.take(k0)) by {
                        lemma_take_concat(done, seg + rest, k0);
                        lemma_take_prefix(seg, rest, k0);
                        assert((done + (seg + rest)).take(done.len() + k0) =~= done + seg.take(
                            k0,
                        ));
                    }
                    lemma_approved_extend::<V>(log_entry, done, seg, total, k0);
                }
                break;
            },
            Round::Exhausted => {
                proof {
                    let total = sticky_seq(n as int, r as int);
                    let seg = frame_perms(cur);
                    assert(comb_chain(cur, n as int).drop_first()
                        == Seq::<Seq<usize>>::empty());
                    assert(segments_of(Seq::<Seq<usize>>::empty())
                        == Seq::<Seq<usize>>::empty());
                    assert((log_entry + done) + seg =~= log_entry + (done + seg));
                    assert(total =~= done + seg);
                    assert(total.take(total.len() as int) =~= total);
                    assert(total.take(done.len() + seg.len() as int) =~= done + seg.take(
                        seg.len() as int,
                    ));
                    lemma_approved_extend::<V>(log_entry, done, seg, total, seg.len() as int);
                }
                break;
            },
            Round::Carry => {
                proof {
                    let seg = frame_perms(cur);
                    let rest = segments_of(comb_chain(cur, n as int).drop_first());
                    assert((log_entry + done) + seg =~= log_entry + (done + seg));
                    assert(done + (seg + rest) =~= (done + seg) + rest);
                    assert((done + seg).take(done.len() + seg.len() as int) =~= done
                        + seg.take(seg.len() as int));
                    lemma_approved_extend::<V>(log_entry, done, seg, done + seg, seg.len() as int);
                    done = done + seg;
                    lemma_comb_next_props(cur, n as int);
                    lemma_lex_value_lt(cur, combiner@, n as int);
                    lemma_lex_value_bound(combiner@, n as int);
                }
            },
        }
    }
}

/// One recursion level of the sticky traversal: the elements of the current
/// frame occupy `elements_stack[start..start + len]`; each of them in turn,
/// starting from the last, takes the deepest unfilled position of the
/// emitted tuple, and the remainder is copied into the child frame.
/// Returns `false` as soon as the visitor does, unwinding every level.
#[verifier::rlimit(100)]
fn permute_frame<V: Visit>(
    elements_stack: &mut Vec<usize>,
    start: usize,
    len: usize,
    ordinals: &mut Vec<usize>,
    visitor: &mut V,
    depth: usize,
) -> (keep_going: bool)
    requires
        depth + len == old(ordinals)@.len(),
        start + Alloc::stack_len_spec(len as int) <= old(elements_stack)@.len(),
        distinct(
            frame_tuple(
                old(elements_stack)@,
                start as int,
                len as int,
                old(ordinals)@,
                depth as int,
            ),
        ),
    ensures
        final(elements_stack)@.len() == old(elements_stack)@.len(),
        final(ordinals)@.len() == old(ordinals)@.len(),
        forall|i: int|
            0 <= i < start + len ==> final(elements_stack)@[i] == old(elements_stack)@[i],
        forall|i: int|
            old(ordinals)@.len() - depth <= i < old(ordinals)@.len() ==> final(ordinals)@[i]
                == old(ordinals)@[i],
        keep_going == V::approves(final(visitor).log()),
        keep_going ==> final(visitor).log() == old(visitor).log() + frame_segment(
            old(elements_stack)@,
            start as int,
            len as int,
            old(ordinals)@,
            depth as int,
        ),
        exists|k: int|
            0 <= k <= frame_segment(
                old(elements_stack)@,
                start as int,
                len as int,
                old(ordinals)@,
                depth as int,
            ).len() && final(visitor).log() == old(visitor).log() + #[trigger] frame_segment(
                old(elements_stack)@,
                start as int,
                len as int,
                old(ordinals)@,
                depth as int,
            ).take(k) && approved_through::<V>(
                old(visitor).log(),
                frame_segment(
                    old(elements_stack)@,
                    start as int,
                    len as int,
                    old(ordinals)@,
                    depth as int,
                ),
                k,
            ),
    decreases len,
{
    if len != 0 {
        let ghost stack_size = old(elements_stack)@.len() as int;
        let ghost tuple_size = old(ordinals)@.len() as int;
        let total = elements_stack.len();
        proof {
            lemma_stack_len_nonneg(len - 1);
            lemma_stack_len_nonneg(len as int);
            assert(start + len <= total);
        }
        let child_start = start + len;
        let child_len = len - 1;
        let ghost frame_elems = old(elements_stack)@.subrange(start as int, start + len);
        let ghost fixed_suffix = old(ordinals)@.subrange(tuple_size - depth, tuple_size);
        let ghost log_entry = old(visitor).log();
        let ghost mut emitted: Seq<Seq<usize>> = Seq::empty();
        proof {
            assert(emitted + suffixed(frame_perms_from(frame_elems, len - 1), fixed_suffix)
                =~= suffixed(frame_perms(frame_elems), fixed_suffix));
            assert(log_entry + emitted =~= log_entry);
        }
        let mut tail: usize = len;
        while tail > 0
            invariant
                0 <= tail <= len,
                1 <= len,
                depth + len == tuple_size,
                start + len + Alloc::stack_len_spec(len - 1) <= stack_size,
                Alloc::stack_len_spec(len - 1) >= len - 1,
                child_start == start + len,
                child_len == len - 1,
                stack_size <= usize::MAX,
                stack_size == old(elements_stack)@.len(),
                tuple_size == old(ordinals)@.len(),
                elements_stack@.len() == stack_size,
                ordinals@.len() == tuple_size,
                forall|i: int|
                    0 <= i < start + len ==> elements_stack@[i] == old(elements_stack)@[i],
                forall|i: int|
                    tuple_size - depth <= i < tuple_size ==> ordinals@[i] == old(ordinals)@[i],
                distinct(
                    frame_tuple(
                        old(elements_stack)@,
                        start as int,
                        len as int,
                        old(ordinals)@,
                        depth as int,
                    ),
                ),
                frame_elems == old(elements_stack)@.subrange(start as int, start + len),
                fixed_suffix == old(ordinals)@.subrange(tuple_size - depth, tuple_size),
                frame_elems.len() == len,
                log_entry == old(visitor).log(),
                visitor.log() == log_entry + emitted,
                suffixed(frame_perms(frame_elems), fixed_suffix) == emitted + suffixed(
                    frame_perms_from(frame_elems, tail - 1),
                    fixed_suffix,
                ),
                approved_through::<V>(log_entry, emitted, emitted.len() as int),
                tail == len || V::approves(log_entry + emitted),
            decreases tail,
        {
            let ghost round_stack = elements_stack@;
            let ghost round_ords = ordinals@;
            let ghost parent = frame_tuple(
                round_stack,
                start as int,
                len as int,
                round_ords,
                depth as int,
            );
            proof {
                assert(parent =~= frame_tuple(
                    old(elements_stack)@,
                    start as int,
                    len as int,
                    old(ordinals)@,
                    depth as int,
                ));
            }
            let t = tail - 1;
            let mut index: usize = 0;
            let mut source: usize = 0;
            while source < len
                invariant
                    0 <= source <= len,
                    index == (if source as int <= t {
                        source as int
                    } else {
                        source - 1
                    }),
                    0 <= t < len,
                    child_start == start + len,
                    start + len + (len - 1) <= stack_size,
                    stack_size <= usize::MAX,
                    elements_stack@.len() == stack_size,
                    forall|i: int| 0 <= i < child_start ==> elements_stack@[i] == round_stack[i],
                    forall|idx: int|
                        0 <= idx < index ==> #[trigger] elements_stack@[child_start + idx]
                            == round_stack[start + (if idx < t {
                            idx
                        } else {
                            idx + 1
                        })],
                decreases len - source,
            {
                if source != t {
                    let element = elements_stack[start + source];
                    elements_stack.set(child_start + index, element);
                    index = index + 1;
                }
                source = source + 1;
            }
            let tail_ordinal = elements_stack[start + t];
            let position = ordinals.len() - depth - 1;
            ordinals.set(position, tail_ordinal);

            let deeper = depth + 1;
            proof {
                let child = frame_tuple(
                    elements_stack@,
                    child_start as int,
                    child_len as int,
                    ordinals@,
                    deeper as int,
                );
                assert forall|x: int| 0 <= x < child.len() implies child[x] == parent[frame_map(
                    x,
                    t as int,
                    len as int,
                )] by {
                    if x < child_len {
                        assert(child[x] == elements_stack@[child_start + x]);
                    } else if x == child_len {
                        assert(child[x] == ordinals@[tuple_size - deeper]);
                        assert(ordinals@[tuple_size - deeper] == tail_ordinal);
                        assert(parent[t as int] == round_stack[start + t]);
                    } else {
                        assert(child[x] == ordinals@[tuple_size - deeper + x - child_len]);
                        assert(ordinals@[tuple_size - deeper + x - child_len] == round_ords[
                            tuple_size - depth + (x - len)]);
                        assert(parent[x] == round_ords[tuple_size - depth + (x - len)]);
                    }
                }
                assert forall|x: int, y: int|
                    0 <= x < y < child.len() implies child[x] != child[y] by {
                    let fx = frame_map(x, t as int, len as int);
                    let fy = frame_map(y, t as int, len as int);
                    assert(child[x] == parent[fx]);
                    assert(child[y] == parent[fy]);
                    assert(fx != fy);
                    assert(0 <= fx < parent.len());
                    assert(0 <= fy < parent.len());
                    if fx < fy {
                        assert(parent[fx] != parent[fy]);
                    } else {
                        assert(parent[fy] != parent[fx]);
                    }
                }
                assert(distinct(child));
            }
            let ghost call_stack = elements_stack@;
            let ghost call_ords = ordinals@;
            let ghost child_seg = frame_segment(
                call_stack,
                child_start as int,
                child_len as int,
                call_ords,
                deeper as int,
            );
            let ghost rest_seg = suffixed(frame_perms_from(frame_elems, t - 1), fixed_suffix);
            proof {
                assert forall|idx: int|
                    0 <= idx < child_len implies call_stack[child_start + idx]
                    == frame_elems.remove(t as int)[idx] by {
                    assert(elements_stack@[child_start + idx] == round_stack[start + (if idx
                        < t {
                        idx
                    } else {
                        idx + 1
                    })]);
                    if idx < t {
                        assert(frame_elems.remove(t as int)[idx] == frame_elems[idx]);
                        assert(frame_elems[idx] == old(elements_stack)@[start + idx]);
                    } else {
                        assert(frame_elems.remove(t as int)[idx] == frame_elems[idx + 1]);
                        assert(frame_elems[idx + 1] == old(elements_stack)@[start + idx + 1]);
                    }
                }
                assert(call_stack.subrange(child_start as int, child_start + child_len)
                    =~= frame_elems.remove(t as int));
                assert(tail_ordinal == round_stack[start + t]);
                assert(round_stack[start + t] == old(elements_stack)@[start + t]);
                assert(tail_ordinal == frame_elems[t as int]);
                assert(call_ords[tuple_size - deeper] == tail_ordinal);
                assert(call_ords.subrange(tuple_size - deeper, tuple_size) =~= seq![
                    frame_elems[t as int],
                ] + fixed_suffix);
                lemma_suffixed_appended(
                    frame_perms(frame_elems.remove(t as int)),
                    frame_elems[t as int],
                    fixed_suffix,
                );
                lemma_suffixed_concat(
                    appended(frame_perms(frame_elems.remove(t as int)), frame_elems[t as int]),
                    frame_perms_from(frame_elems, t - 1),
                    fixed_suffix,
                );
                assert(suffixed(frame_perms_from(frame_elems, t as int), fixed_suffix)
                    == child_seg + rest_seg);
                assert(suffixed(frame_perms(frame_elems), fixed_suffix) == emitted + (child_seg
                    + rest_seg));
            }
            let keep_going = permute_frame(
                elements_stack,
                child_start,
                child_len,
                ordinals,
                visitor,
                deeper,
            );
            if !keep_going {
                proof {
                    let full = suffixed(frame_perms(frame_elems), fixed_suffix);
                    let k0 = choose|k0: int|
                        0 <= k0 <= child_seg.len() && visitor.log() == (log_entry + emitted)
                            + #[trigger] child_seg.take(k0) && approved_through::<V>(
                            log_entry + emitted,
                            child_seg,
                            k0,
                        );
                    lemma_take_prefix(child_seg, rest_seg, k0);
                    lemma_take_concat(emitted, child_seg + rest_seg, k0);
                    assert(visitor.log() == (log_entry + emitted) + (child_seg
                        + rest_seg).take(k0));
                    assert((log_entry + emitted) + (child_seg + rest_seg).take(k0) =~= log_entry
                        + (emitted + (child_seg + rest_seg).take(k0)));
                    assert(emitted + (child_seg + rest_seg).take(k0) =~= (emitted + (child_seg
                        + rest_seg)).take(emitted.len() + k0));
                    assert(full == frame_segment(
                        old(elements_stack)@,
                        start as int,
                        len as int,
                        old(ordinals)@,
                        depth as int,
                    ));
                    assert(full.take(emitted.len() + k0) =~= emitted + child_seg.take(k0));
                    lemma_approved_extend::<V>(log_entry, emitted, child_seg, full, k0);
                }
                return false;
            }
            proof {
                assert(visitor.log() == (log_entry + emitted) + child_seg);
                assert((log_entry + emitted) + child_seg =~= log_entry + (emitted + child_seg));
                assert(emitted + (child_seg + rest_seg) =~= (emitted + child_seg) + rest_seg);
                let k0 = choose|k0: int|
                    0 <= k0 <= child_seg.len() && visitor.log() == (log_entry + emitted)
                        + #[trigger] child_seg.take(k0) && approved_through::<V>(
                        log_entry + emitted,
                        child_seg,
                        k0,
                    );
                assert(visitor.log().len() == (log_entry + emitted).len() + child_seg.len());
                assert(k0 == child_seg.len());
                assert((emitted + child_seg).take(emitted.len() + k0) =~= emitted
                    + child_seg.take(k0));
                lemma_approved_extend::<V>(log_entry, emitted, child_seg, emitted + child_seg, k0);
                emitted = emitted + child_seg;
            }
            tail = t;
        }
        proof {
            let full = suffixed(frame_perms(frame_elems), fixed_suffix);
            assert(frame_perms_from(frame_elems, -1) == Seq::<Seq<usize>>::empty());
            assert(suffixed(Seq::<Seq<usize>>::empty(), fixed_suffix) =~= Seq::<
                Seq<usize>,
            >::empty());
            assert(emitted + Seq::<Seq<usize>>::empty() =~= emitted);
            assert(full == emitted);
            assert(full.take(full.len() as int) =~= full);
            assert(full == frame_segment(
                old(elements_stack)@,
                start as int,
                len as int,
                old(ordinals)@,
                depth as int,
            ));
            assert(approved_through::<V>(log_entry, full, full.len() as int));
            assert(V::approves(log_entry + emitted));
            assert(log_entry + emitted =~= visitor.log());
        }
        true
    } else {
        proof {
            assert(frame_tuple(
                old(elements_stack)@,
                start as int,
                0,
                old(ordinals)@,
                depth as int,
            ) =~= old(ordinals)@);
        }
        let keep_going = visitor.visit(ordinals);
        proof {
            let seg = frame_segment(
                old(elements_stack)@,
                start as int,
                0,
                old(ordinals)@,
                depth as int,
            );
            assert(old(ordinals)@.subrange(
                old(ordinals)@.len() - depth,
                old(ordinals)@.len() as int,
            ) =~= old(ordinals)@);
            assert(Seq::<usize>::empty() + old(ordinals)@ =~= old(ordinals)@);
            assert(seg =~= seq![old(ordinals)@]);
            assert(seg.take(1) =~= seq![old(ordinals)@]);
            assert(old(visitor).log() + seg.take(1) =~= old(visitor).log().push(old(ordinals)@));
            assert(old(visitor).log() + seg =~= old(visitor).log().push(old(ordinals)@));
        }
        keep_going
    }
}

} // verus!
