//! Combinatorial indexers: mixed-radix state decoding and encoding,
//! permutation indexing, and uniqueness checks over ordinal tuples.

pub mod bitmap;
pub mod combiner;
pub mod enumerator;
pub mod permuter;
pub mod sticky_permuter;
pub mod split_combiner;

use vstd::prelude::*;
use vstd::arithmetic::power::{pow, lemma_pow_increases, lemma_pow_positive};
use vstd::arithmetic::div_mod::{
    lemma_fundamental_div_mod, lemma_mod_bound, lemma_multiply_divide_lt, lemma_div_pos_is_pos,
};

verus! {

/// Product of all cardinalities in the sequence.
pub open spec fn seq_product(cards: Seq<usize>) -> int
    decreases cards.len(),
{
    if cards.len() == 0 {
        1
    } else {
        cards[0] * seq_product(cards.drop_first())
    }
}

pub proof fn lemma_seq_product_snoc(cards: Seq<usize>, x: usize)
    ensures
        seq_product(cards.push(x)) == seq_product(cards) * x,
    decreases cards.len(),
{
    if cards.len() == 0 {
        assert(cards.push(x).drop_first() =~= Seq::<usize>::empty());
        assert(cards.push(x)[0] == x);
        assert(seq_product(Seq::<usize>::empty()) == 1);
        assert(seq_product(cards.push(x)) == x * seq_product(Seq::<usize>::empty()));
        assert(seq_product(cards) * x == x);
    } else {
        assert(cards.push(x).drop_first() =~= cards.drop_first().push(x));
        lemma_seq_product_snoc(cards.drop_first(), x);
        assert(seq_product(cards.push(x)) == cards[0] * (seq_product(cards.drop_first()) * x));
        assert(cards[0] * (seq_product(cards.drop_first()) * x)
            == (cards[0] * seq_product(cards.drop_first())) * x) by (nonlinear_arith);
    }
}

pub proof fn lemma_seq_product_nonneg(cards: Seq<usize>)
    ensures
        seq_product(cards) >= 0,
    decreases cards.len(),
{
    if cards.len() > 0 {
        lemma_seq_product_nonneg(cards.drop_first());
        assert(cards[0] * seq_product(cards.drop_first()) >= 0) by (nonlinear_arith)
            requires cards[0] >= 0 && seq_product(cards.drop_first()) >= 0;
    }
}

pub proof fn lemma_seq_product_pos(cards: Seq<usize>)
    requires
        forall|i: int| 0 <= i < cards.len() ==> cards[i] >= 1,
    ensures
        seq_product(cards) >= 1,
    decreases cards.len(),
{
    if cards.len() > 0 {
        lemma_seq_product_pos(cards.drop_first());
        assert(cards[0] * seq_product(cards.drop_first()) >= 1) by (nonlinear_arith)
            requires cards[0] >= 1 && seq_product(cards.drop_first()) >= 1;
    }
}

/// A positive product has no zero factor.
pub proof fn lemma_seq_product_zero(cards: Seq<usize>, i: int)
    requires
        0 <= i < cards.len(),
        cards[i] == 0,
    ensures
        seq_product(cards) == 0,
    decreases cards.len(),
{
    if i == 0 {
        assert(seq_product(cards) == 0 * seq_product(cards.drop_first()));
    } else {
        assert(cards.drop_first()[i - 1] == cards[i]);
        lemma_seq_product_zero(cards.drop_first(), i - 1);
        assert(seq_product(cards) == cards[0] * 0);
    }
}

/// Number of distinct states addressable by the given cardinalities:
/// the product of all cardinalities.
pub fn count_states(cardinalities: &Vec<usize>) -> (count: usize)
    requires
        forall|i: int|
            0 <= i <= cardinalities@.len() ==> seq_product(#[trigger] cardinalities@.take(i))
                <= usize::MAX,
    ensures
        count == seq_product(cardinalities@),
{
    let ghost cards = cardinalities@;
    let mut acc: usize = 1;
    let mut i: usize = 0;
    proof {
        assert(cards.take(0) =~= Seq::<usize>::empty());
    }
    while i < cardinalities.len()
        invariant
            0 <= i <= cards.len(),
            cards == cardinalities@,
            acc == seq_product(cards.take(i as int)),
            forall|j: int|
                0 <= j <= cards.len() ==> seq_product(#[trigger] cards.take(j)) <= usize::MAX,
        decreases cards.len() - i,
    {
        proof {
            assert(cards.take(i + 1) =~= cards.take(i as int).push(cards[i as int]));
            lemma_seq_product_snoc(cards.take(i as int), cards[i as int]);
            lemma_seq_product_nonneg(cards.take(i as int));
        }
        acc = acc * cardinalities[i];
        i = i + 1;
    }
    proof {
        assert(cards.take(cards.len() as int) =~= cards);
    }
    acc
}

/// Mixed-radix decoding of `idx` by successive division and remainder:
/// digit `i` ranges over `[0, cards[i])`, with digit 0 least significant.
pub open spec fn state_decode(cards: Seq<usize>, idx: int) -> Seq<usize>
    decreases cards.len(),
{
    if cards.len() == 0 {
        Seq::empty()
    } else {
        seq![(idx % (cards[0] as int)) as usize] + state_decode(
            cards.drop_first(),
            idx / (cards[0] as int),
        )
    }
}

/// Mixed-radix encoding: the inverse of `state_decode`.
pub open spec fn state_encode(cards: Seq<usize>, ords: Seq<usize>) -> int
    decreases cards.len(),
{
    if cards.len() == 0 || ords.len() == 0 {
        0
    } else {
        ords[0] + cards[0] * state_encode(cards.drop_first(), ords.drop_first())
    }
}

/// Decodes a mixed-radix `state_index` into per-dimension ordinals, least
/// significant dimension first.
pub fn pick_state(cardinalities: &Vec<usize>, state_index: usize, ordinals: &mut Vec<usize>)
    requires
        old(ordinals)@.len() == cardinalities@.len(),
        forall|i: int| 0 <= i < cardinalities@.len() ==> cardinalities@[i] >= 1,
    ensures
        final(ordinals)@ == state_decode(cardinalities@, state_index as int),
        final(ordinals)@.len() == cardinalities@.len(),
{
    let ghost cards = cardinalities@;
    let ghost idx = state_index as int;
    let mut residual: usize = state_index;
    let mut i: usize = 0;
    proof {
        assert(cards.skip(0) =~= cards);
        assert(ordinals@.take(0) =~= Seq::<usize>::empty());
    }
    while i < cardinalities.len()
        invariant
            0 <= i <= cards.len(),
            cards == cardinalities@,
            ordinals@.len() == cards.len(),
            forall|j: int| 0 <= j < cards.len() ==> cards[j] >= 1,
            state_decode(cards, idx) == ordinals@.take(i as int) + state_decode(
                cards.skip(i as int),
                residual as int,
            ),
        decreases cards.len() - i,
    {
        let cardinality = cardinalities[i];
        let quotient = residual / cardinality;
        let remainder = residual % cardinality;
        ordinals.set(i, remainder);
        proof {
            let rest = cards.skip(i as int);
            assert(rest[0] == cards[i as int]);
            assert(rest.drop_first() =~= cards.skip(i + 1));
            assert(state_decode(rest, residual as int) == seq![remainder] + state_decode(
                cards.skip(i + 1),
                quotient as int,
            ));
            assert(ordinals@.take(i + 1) =~= ordinals@.take(i as int).push(remainder));
            assert(ordinals@.take(i as int) + (seq![remainder] + state_decode(
                cards.skip(i + 1),
                quotient as int,
            )) =~= ordinals@.take(i + 1) + state_decode(cards.skip(i + 1), quotient as int));
        }
        residual = quotient;
        i = i + 1;
    }
    proof {
        assert(cards.skip(cards.len() as int) =~= Seq::<usize>::empty());
        assert(ordinals@.take(cards.len() as int) =~= ordinals@);
        assert(ordinals@ + Seq::<usize>::empty() =~= ordinals@);
    }
}

/// Fixed-radix decoding: every dimension shares one cardinality.
pub open spec fn hyper_decode(cardinality: usize, dimensions: int, idx: int) -> Seq<usize>
    decreases dimensions,
{
    if dimensions <= 0 {
        Seq::empty()
    } else {
        seq![(idx % (cardinality as int)) as usize] + hyper_decode(
            cardinality,
            dimensions - 1,
            idx / (cardinality as int),
        )
    }
}

/// Decodes a fixed-radix `state_index` where all `dimensions` dimensions share
/// the one `cardinality`.
pub fn pick_state_hyper(
    cardinality: usize,
    dimensions: usize,
    state_index: usize,
    ordinals: &mut Vec<usize>,
)
    requires
        old(ordinals)@.len() == dimensions,
        cardinality >= 1,
    ensures
        final(ordinals)@ == hyper_decode(cardinality, dimensions as int, state_index as int),
{
    let ghost idx = state_index as int;
    let mut residual: usize = state_index;
    let mut i: usize = 0;
    proof {
        assert(ordinals@.take(0) =~= Seq::<usize>::empty());
    }
    while i < dimensions
        invariant
            0 <= i <= dimensions,
            cardinality >= 1,
            ordinals@.len() == dimensions,
            hyper_decode(cardinality, dimensions as int, idx) == ordinals@.take(i as int)
                + hyper_decode(cardinality, dimensions - i, residual as int),
        decreases dimensions - i,
    {
        let quotient = residual / cardinality;
        let remainder = residual % cardinality;
        ordinals.set(i, remainder);
        proof {
            assert(hyper_decode(cardinality, dimensions - i, residual as int) == seq![remainder]
                + hyper_decode(cardinality, dimensions - i - 1, quotient as int));
            assert(ordinals@.take(i + 1) =~= ordinals@.take(i as int).push(remainder));
            assert(ordinals@.take(i as int) + (seq![remainder] + hyper_decode(
                cardinality,
                dimensions - i - 1,
                quotient as int,
            )) =~= ordinals@.take(i + 1) + hyper_decode(
                cardinality,
                dimensions - i - 1,
                quotient as int,
            ));
        }
        residual = quotient;
        i = i + 1;
    }
    proof {
        assert(ordinals@.take(dimensions as int) =~= ordinals@);
        assert(ordinals@ + Seq::<usize>::empty() =~= ordinals@);
    }
}

/// The digits produced by `state_decode` are valid for their cardinalities.
pub proof fn lemma_state_decode_valid(cards: Seq<usize>, idx: int)
    requires
        idx >= 0,
        forall|i: int| 0 <= i < cards.len() ==> cards[i] >= 1,
    ensures
        state_decode(cards, idx).len() == cards.len(),
        forall|i: int|
            0 <= i < cards.len() ==> #[trigger] state_decode(cards, idx)[i] < cards[i],
    decreases cards.len(),
{
    if cards.len() > 0 {
        let c0 = cards[0] as int;
        lemma_mod_bound(idx, c0);
        lemma_div_pos_is_pos(idx, c0);
        lemma_state_decode_valid(cards.drop_first(), idx / c0);
        let rest = state_decode(cards.drop_first(), idx / c0);
        assert forall|i: int| 0 <= i < cards.len() implies #[trigger] state_decode(cards, idx)[i]
            < cards[i] by {
            if i > 0 {
                assert(state_decode(cards, idx)[i] == rest[i - 1]);
                assert(cards.drop_first()[i - 1] == cards[i]);
            }
        }
    }
}

/// Mixed-radix round trip: re-encoding the digits of `idx` recovers `idx`.
pub proof fn lemma_state_round_trip(cards: Seq<usize>, idx: int)
    requires
        0 <= idx < seq_product(cards),
        forall|i: int| 0 <= i < cards.len() ==> cards[i] >= 1,
    ensures
        state_encode(cards, state_decode(cards, idx)) == idx,
    decreases cards.len(),
{
    if cards.len() == 0 {
        assert(seq_product(cards) == 1);
    } else {
        let c0 = cards[0] as int;
        let rest = cards.drop_first();
        lemma_seq_product_pos(rest);
        assert(idx < c0 * seq_product(rest));
        lemma_multiply_divide_lt(idx, c0, seq_product(rest));
        lemma_div_pos_is_pos(idx, c0);
        lemma_state_round_trip(rest, idx / c0);
        let decoded = state_decode(cards, idx);
        lemma_state_decode_valid(rest, idx / c0);
        assert(decoded.drop_first() =~= state_decode(rest, idx / c0));
        lemma_fundamental_div_mod(idx, c0);
    }
}

/// Holds when all elements of the tuple are pairwise distinct.
pub open spec fn distinct(s: Seq<usize>) -> bool {
    forall|i: int, j: int| 0 <= i < j < s.len() ==> s[i] != s[j]
}

/// All-pairs uniqueness check over a tuple of ordinals.
pub fn is_unique_quadratic(elements: &Vec<usize>) -> (unique: bool)
    ensures
        unique == distinct(elements@),
{
    let mut i: usize = 0;
    while i < elements.len()
        invariant
            0 <= i <= elements@.len(),
            forall|p: int, q: int| 0 <= p < q < elements@.len() && p < i ==> elements@[p]
                != elements@[q],
        decreases elements@.len() - i,
    {
        let mut j: usize = i + 1;
        while j < elements.len()
            invariant
                0 <= i < j <= elements@.len(),
                forall|q: int| i < q < j ==> elements@[i as int] != elements@[q],
            decreases elements@.len() - j,
        {
            if elements[i] == elements[j] {
                return false;
            }
            j = j + 1;
        }
        i = i + 1;
    }
    true
}

/// Bitmap-assisted uniqueness check: linear in the tuple length. The bitmap
/// is reset on entry and is left marking the elements that were visited.
pub fn is_unique_linear(elements: &Vec<usize>, bitmap: &mut Vec<bool>) -> (unique: bool)
    requires
        forall|i: int| 0 <= i < elements@.len() ==> elements@[i] < old(bitmap)@.len(),
    ensures
        unique == distinct(elements@),
        final(bitmap)@.len() == old(bitmap)@.len(),
{
    let n = bitmap.len();
    let mut b: usize = 0;
    while b < n
        invariant
            0 <= b <= n,
            bitmap@.len() == n,
            n == old(bitmap)@.len(),
            forall|p: int| 0 <= p < b ==> !bitmap@[p],
        decreases n - b,
    {
        bitmap.set(b, false);
        b = b + 1;
    }
    let mut i: usize = 0;
    while i < elements.len()
        invariant
            0 <= i <= elements@.len(),
            bitmap@.len() == n,
            n == old(bitmap)@.len(),
            forall|p: int| 0 <= p < elements@.len() ==> elements@[p] < n,
            forall|x: int|
                0 <= x < n ==> (#[trigger] bitmap@[x] <==> exists|p: int|
                    0 <= p < i && elements@[p] == x),
            forall|p: int, q: int| 0 <= p < q < i ==> elements@[p] != elements@[q],
        decreases elements@.len() - i,
    {
        let element = elements[i];
        if bitmap[element] {
            return false;
        }
        bitmap.set(element, true);
        i = i + 1;
    }
    true
}

pub proof fn lemma_seq_product_split(cards: Seq<usize>, i: int)
    requires
        0 <= i <= cards.len(),
    ensures
        seq_product(cards) == seq_product(cards.take(i)) * seq_product(cards.skip(i)),
    decreases i,
{
    if i <= 0 {
        assert(cards.take(0) =~= Seq::<usize>::empty());
        assert(cards.skip(0) =~= cards);
    } else {
        let rest = cards.drop_first();
        assert(cards.take(i).drop_first() =~= rest.take(i - 1));
        assert(cards.skip(i) =~= rest.skip(i - 1));
        assert(cards.take(i)[0] == cards[0]);
        lemma_seq_product_split(rest, i - 1);
        assert(cards[0] * (seq_product(rest.take(i - 1)) * seq_product(rest.skip(i - 1)))
            == (cards[0] * seq_product(rest.take(i - 1))) * seq_product(rest.skip(i - 1)))
            by (nonlinear_arith);
    }
}

/// The mixed-radix encoding of valid digits is within the state space.
pub proof fn lemma_state_encode_bound(cards: Seq<usize>, ords: Seq<usize>)
    requires
        ords.len() == cards.len(),
        forall|i: int| 0 <= i < ords.len() ==> ords[i] < cards[i],
    ensures
        0 <= state_encode(cards, ords) < seq_product(cards),
    decreases cards.len(),
{
    if cards.len() == 0 {
    } else {
        let c0 = cards[0] as int;
        let e = state_encode(cards.drop_first(), ords.drop_first());
        let p = seq_product(cards.drop_first());
        assert(forall|i: int| 0 <= i < ords.drop_first().len() ==> ords.drop_first()[i]
            < cards.drop_first()[i]);
        lemma_state_encode_bound(cards.drop_first(), ords.drop_first());
        assert(ords[0] + c0 * e < c0 * p) by (nonlinear_arith)
            requires ords[0] < c0 && 0 <= e && e <= p - 1 && c0 >= 1;
        assert(0 <= c0 * e) by (nonlinear_arith)
            requires c0 >= 0 && e >= 0;
    }
}

/// Re-encodes per-dimension ordinals into the mixed-radix state index:
/// the inverse of `pick_state`.
pub fn state_index(cardinalities: &Vec<usize>, ordinals: &Vec<usize>) -> (index: usize)
    requires
        ordinals@.len() == cardinalities@.len(),
        forall|i: int| 0 <= i < ordinals@.len() ==> ordinals@[i] < cardinalities@[i],
        seq_product(cardinalities@) <= usize::MAX,
    ensures
        index == state_encode(cardinalities@, ordinals@),
{
    let ghost cards = cardinalities@;
    let ghost ords = ordinals@;
    let len = cardinalities.len();
    let mut acc: usize = 0;
    let mut i: usize = len;
    proof {
        assert(cards.skip(len as int) =~= Seq::<usize>::empty());
    }
    while i > 0
        invariant
            0 <= i <= len,
            len == cards.len(),
            cards == cardinalities@,
            ords == ordinals@,
            ords.len() == cards.len(),
            forall|j: int| 0 <= j < ords.len() ==> ords[j] < cards[j],
            seq_product(cards) <= usize::MAX,
            acc == state_encode(cards.skip(i as int), ords.skip(i as int)),
        decreases i,
    {
        let j = i - 1;
        proof {
            let cs = cards.skip(j as int);
            let os = ords.skip(j as int);
            assert(cs.drop_first() =~= cards.skip(i as int));
            assert(os.drop_first() =~= ords.skip(i as int));
            assert(cs[0] == cards[j as int]);
            assert(os[0] == ords[j as int]);
            assert(forall|p: int| 0 <= p < os.len() ==> os[p] < cs[p]);
            lemma_state_encode_bound(cs, os);
            lemma_seq_product_split(cards, j as int);
            lemma_seq_product_pos(cards.take(j as int));
            lemma_seq_product_nonneg(cs);
            assert(seq_product(cs) <= seq_product(cards.take(j as int)) * seq_product(cs))
                by (nonlinear_arith)
                requires seq_product(cards.take(j as int)) >= 1 && seq_product(cs) >= 0;
            assert(state_encode(cs, os) == os[0] + cs[0] * state_encode(
                cards.skip(i as int),
                ords.skip(i as int),
            ));
            assert(cards[j as int] * acc <= state_encode(cs, os));
        }
        acc = acc * cardinalities[j] + ordinals[j];
        i = j;
    }
    proof {
        assert(cards.skip(0) =~= cards);
        assert(ords.skip(0) =~= ords);
    }
    acc
}

/// Product of the integers `lo..=hi`; 1 when the range is empty.
pub open spec fn range_product(lo: int, hi: int) -> int
    decreases hi - lo + 1,
{
    if hi < lo {
        1
    } else {
        hi * range_product(lo, hi - 1)
    }
}

pub proof fn lemma_range_product_pos(lo: int, hi: int)
    requires
        lo >= 1,
    ensures
        range_product(lo, hi) >= 1,
    decreases hi - lo + 1,
{
    if hi >= lo {
        lemma_range_product_pos(lo, hi - 1);
        assert(hi * range_product(lo, hi - 1) >= 1) by (nonlinear_arith)
            requires hi >= 1 && range_product(lo, hi - 1) >= 1;
    }
}

pub proof fn lemma_range_product_mono(lo: int, m: int, hi: int)
    requires
        lo >= 1,
        m <= hi,
    ensures
        range_product(lo, m) <= range_product(lo, hi),
    decreases hi - m,
{
    if m < hi {
        lemma_range_product_mono(lo, m, hi - 1);
        lemma_range_product_pos(lo, hi - 1);
        lemma_range_product_pos(lo, m);
        if hi >= lo {
            assert(range_product(lo, hi - 1) <= hi * range_product(lo, hi - 1))
                by (nonlinear_arith)
                requires hi >= 1 && range_product(lo, hi - 1) >= 1;
        } else {
            assert(hi < lo);
            assert(m < lo);
        }
    }
}

/// Number of ordered selections of `r` items from `n`: the product
/// `(n - r + 1) * ... * n`.
pub fn count_permutations(n: usize, r: usize) -> (count: usize)
    requires
        r <= n,
        n - r < usize::MAX,
        range_product(n - r + 1, n as int) <= usize::MAX,
    ensures
        count == range_product(n - r + 1, n as int),
{
    let ghost lo = n - r + 1;
    let mut acc: usize = 1;
    let mut i: usize = 0;
    while i < r
        invariant
            0 <= i <= r <= n,
            n - r < usize::MAX,
            lo == n - r + 1,
            1 <= lo,
            acc == range_product(lo, lo + i - 1),
            range_product(lo, n as int) <= usize::MAX,
        decreases r - i,
    {
        proof {
            lemma_range_product_mono(lo, lo + i, n as int);
            lemma_range_product_pos(lo, lo + i - 1);
            assert(range_product(lo, lo + i) == (lo + i) * range_product(lo, lo + i - 1));
        }
        let f = n - r + 1 + i;
        acc = acc * f;
        i = i + 1;
    }
    acc
}

/// Whether enumerating all fixed-radix states (and filtering out the
/// non-distinct ones) is estimated cheaper than enumerating permutation
/// indices directly: a state costs one pass over the ranks, a permutation
/// index a quadratic bitmap scan. The choice is deterministic, from the
/// two closed-form cost estimates alone.
pub fn prefer_state_traversal(runners: usize, ranks: usize) -> (choice: bool)
    requires
        1 <= ranks <= runners,
        pow(runners as int, ranks as nat) * ranks <= usize::MAX,
        range_product(runners - ranks + 1, runners as int) * runners * runners <= usize::MAX,
    ensures
        choice == (pow(runners as int, ranks as nat) * ranks < range_product(
            runners - ranks + 1,
            runners as int,
        ) * runners * runners / 2),
{
    proof {
        lemma_range_product_pos(runners - ranks + 1, runners as int);
        assert(range_product(runners - ranks + 1, runners as int) <= range_product(
            runners - ranks + 1,
            runners as int,
        ) * runners * runners) by (nonlinear_arith)
            requires runners >= 1 && range_product(runners - ranks + 1, runners as int) >= 1;
    }
    let permutations = count_permutations(runners, ranks);
    let mut states: usize = 1;
    let mut i: usize = 0;
    proof {
        lemma_pow_positive(runners as int, ranks as nat);
        assert(pow(runners as int, 0) == 1) by {
            reveal(vstd::arithmetic::power::pow);
        }
        assert(pow(runners as int, ranks as nat) <= pow(runners as int, ranks as nat) * ranks)
            by (nonlinear_arith)
            requires ranks >= 1 && pow(runners as int, ranks as nat) >= 1;
    }
    while i < ranks
        invariant
            0 <= i <= ranks,
            1 <= ranks <= runners,
            states == pow(runners as int, i as nat),
            pow(runners as int, ranks as nat) <= usize::MAX,
        decreases ranks - i,
    {
        proof {
            assert(pow(runners as int, (i + 1) as nat) == runners * pow(runners as int, i as nat))
                by {
                reveal(vstd::arithmetic::power::pow);
            }
            lemma_pow_increases(runners as nat, (i + 1) as nat, ranks as nat);
        }
        states = states * runners;
        i = i + 1;
    }
    let states_cost = states * ranks;
    proof {
        lemma_range_product_pos(runners - ranks + 1, runners as int);
        assert(range_product(runners - ranks + 1, runners as int) * runners <= range_product(
            runners - ranks + 1,
            runners as int,
        ) * runners * runners) by (nonlinear_arith)
            requires runners >= 1 && range_product(runners - ranks + 1, runners as int) >= 1;
    }
    let perms_cost = permutations * runners * runners / 2;
    states_cost < perms_cost
}

/// Number of unmarked slots in `bm` at positions `a..b`.
pub open spec fn free_range(bm: Seq<bool>, a: int, b: int) -> int
    decreases b - a,
{
    if a < 0 || a >= b || b > bm.len() {
        0
    } else {
        (if bm[a] {
            0int
        } else {
            1int
        }) + free_range(bm, a + 1, b)
    }
}

/// Position of the `k`-th unmarked slot of `bm` at or after `from`
/// (`bm.len()` when there is no such slot).
pub open spec fn nth_free(bm: Seq<bool>, from: int, k: int) -> int
    decreases bm.len() - from,
{
    if from < 0 || from >= bm.len() {
        bm.len() as int
    } else if bm[from] {
        nth_free(bm, from + 1, k)
    } else if k <= 0 {
        from
    } else {
        nth_free(bm, from + 1, k - 1)
    }
}

pub proof fn lemma_free_range_nonneg(bm: Seq<bool>, a: int, b: int)
    ensures
        free_range(bm, a, b) >= 0,
    decreases b - a,
{
    if !(a < 0 || a >= b || b > bm.len()) {
        lemma_free_range_nonneg(bm, a + 1, b);
    }
}

pub proof fn lemma_free_range_snoc(bm: Seq<bool>, a: int, b: int)
    requires
        0 <= a <= b < bm.len(),
    ensures
        free_range(bm, a, b + 1) == free_range(bm, a, b) + (if bm[b] {
            0int
        } else {
            1int
        }),
    decreases b - a,
{
    if a < b {
        lemma_free_range_snoc(bm, a + 1, b);
    } else {
        assert(free_range(bm, a, b) == 0);
        assert(free_range(bm, b + 1, b + 1) == 0);
    }
}

pub proof fn lemma_free_range_split(bm: Seq<bool>, a: int, m: int, b: int)
    requires
        0 <= a <= m <= b <= bm.len(),
    ensures
        free_range(bm, a, b) == free_range(bm, a, m) + free_range(bm, m, b),
    decreases m - a,
{
    if a < m {
        lemma_free_range_split(bm, a + 1, m, b);
    } else {
        assert(free_range(bm, a, m) == 0);
    }
}

pub proof fn lemma_free_range_update(bm: Seq<bool>, i: int, a: int, b: int)
    requires
        0 <= i < bm.len(),
        0 <= a,
        b <= bm.len(),
    ensures
        free_range(bm.update(i, true), a, b) == free_range(bm, a, b) - (if a <= i < b
            && !bm[i] {
            1int
        } else {
            0int
        }),
    decreases b - a,
{
    let upd = bm.update(i, true);
    if a < b {
        lemma_free_range_update(bm, i, a + 1, b);
        if a != i {
            assert(upd[a] == bm[a]);
        }
    }
}

pub proof fn lemma_nth_free_props(bm: Seq<bool>, from: int, k: int)
    requires
        0 <= from,
        0 <= k,
        k < free_range(bm, from, bm.len() as int),
    ensures
        from <= nth_free(bm, from, k) < bm.len(),
        !bm[nth_free(bm, from, k)],
        free_range(bm, from, nth_free(bm, from, k)) == k,
    decreases bm.len() - from,
{
    assert(from < bm.len());
    if bm[from] {
        lemma_nth_free_props(bm, from + 1, k);
        let b = nth_free(bm, from + 1, k);
        assert(free_range(bm, from, b) == free_range(bm, from + 1, b));
    } else if k == 0 {
        assert(free_range(bm, from, from) == 0);
    } else {
        lemma_nth_free_props(bm, from + 1, k - 1);
        let b = nth_free(bm, from + 1, k - 1);
        assert(free_range(bm, from, b) == 1 + free_range(bm, from + 1, b));
    }
}

pub proof fn lemma_nth_free_of_position(bm: Seq<bool>, from: int, b: int, k: int)
    requires
        0 <= from <= b < bm.len(),
        !bm[b],
        free_range(bm, from, b) == k,
    ensures
        nth_free(bm, from, k) == b,
    decreases b - from,
{
    if from == b {
        assert(k == 0);
    } else if bm[from] {
        assert(free_range(bm, from, b) == free_range(bm, from + 1, b));
        lemma_nth_free_of_position(bm, from + 1, b, k);
    } else {
        assert(free_range(bm, from, b) == 1 + free_range(bm, from + 1, b));
        lemma_free_range_nonneg(bm, from + 1, b);
        lemma_nth_free_of_position(bm, from + 1, b, k - 1);
    }
}

pub proof fn lemma_free_range_all_false(bm: Seq<bool>, a: int, b: int)
    requires
        0 <= a <= b <= bm.len(),
        forall|i: int| 0 <= i < bm.len() ==> !bm[i],
    ensures
        free_range(bm, a, b) == b - a,
    decreases b - a,
{
    if a < b {
        lemma_free_range_all_false(bm, a + 1, b);
    }
}

/// Finds the position of the `k`-th unmarked slot by scanning from the start.
fn scan_free(bitmap: &Vec<bool>, k: usize) -> (b: usize)
    requires
        (k as int) < free_range(bitmap@, 0, bitmap@.len() as int),
    ensures
        b as int == nth_free(bitmap@, 0, k as int),
        b < bitmap@.len(),
        !bitmap@[b as int],
        free_range(bitmap@, 0, b as int) == k,
{
    let ghost bm = bitmap@;
    let n = bitmap.len();
    let mut free: usize = 0;
    let mut b: usize = 0;
    while b < n
        invariant
            0 <= b <= n,
            n == bm.len(),
            bm == bitmap@,
            free == free_range(bm, 0, b as int),
            free <= k,
            (k as int) < free_range(bm, 0, n as int),
        decreases n - b,
    {
        proof {
            lemma_free_range_snoc(bm, 0, b as int);
        }
        if !bitmap[b] {
            if free == k {
                proof {
                    lemma_nth_free_of_position(bm, 0, b as int, k as int);
                }
                return b;
            }
            free = free + 1;
        }
        b = b + 1;
    }
    proof {
        assert(free == free_range(bm, 0, n as int));
        assert(false);
    }
    0
}

/// A bitmap of `n` slots, all unmarked.
pub open spec fn blank_bitmap(n: int) -> Seq<bool> {
    Seq::new(n as nat, |i: int| false)
}

/// Decodes a shrinking-radix permutation index, one position at a time:
/// position `pos` draws digit `idx % (n - pos)` and resolves it to the
/// digit-th unmarked slot of the bitmap, which it then marks.
pub open spec fn perm_decode(n: int, bm: Seq<bool>, pos: int, idx: int, r: int) -> Seq<usize>
    decreases r - pos,
{
    if pos < 0 || pos >= r {
        Seq::empty()
    } else {
        let c = n - pos;
        let rem = idx % c;
        let ord = nth_free(bm, 0, rem);
        seq![ord as usize] + perm_decode(n, bm.update(ord, true), pos + 1, idx / c, r)
    }
}

/// The ordinal tuple that permutation index `idx` stands for in an
/// `n` permute `r` traversal.
pub open spec fn perm_ordinals(n: int, idx: int, r: int) -> Seq<usize> {
    perm_decode(n, blank_bitmap(n), 0, idx, r)
}

/// Re-encodes an ordinal tuple into its permutation index: each position
/// contributes the rank of its ordinal among the slots still unmarked.
pub open spec fn perm_encode(n: int, bm: Seq<bool>, pos: int, ords: Seq<usize>) -> int
    decreases ords.len(),
{
    if ords.len() == 0 {
        0
    } else {
        let rank = free_range(bm, 0, ords[0] as int);
        rank + (n - pos) * perm_encode(n, bm.update(ords[0] as int, true), pos + 1,
            ords.drop_first())
    }
}

/// Decodes a shrinking-radix `permutation_index` into an ordered tuple of
/// distinct ordinals drawn from `[0, cardinality)`. The bitmap is reset on
/// entry and is left marking exactly the chosen ordinals.
pub fn pick_permutation(
    cardinality: usize,
    permutation_index: usize,
    bitmap: &mut Vec<bool>,
    ordinals: &mut Vec<usize>,
)
    requires
        old(bitmap)@.len() == cardinality,
        old(ordinals)@.len() <= cardinality,
    ensures
        final(ordinals)@ == perm_ordinals(
            cardinality as int,
            permutation_index as int,
            old(ordinals)@.len() as int,
        ),
        final(ordinals)@.len() == old(ordinals)@.len(),
        final(bitmap)@.len() == cardinality,
        distinct(final(ordinals)@),
        forall|i: int| 0 <= i < final(ordinals)@.len() ==> final(ordinals)@[i] < cardinality,
        forall|x: int|
            0 <= x < cardinality ==> (final(bitmap)@[x] <==> exists|p: int|
                0 <= p < final(ordinals)@.len() && final(ordinals)@[p] == x),
{
    let n = cardinality;
    let r = ordinals.len();
    let ghost idx = permutation_index as int;
    let mut b: usize = 0;
    while b < n
        invariant
            0 <= b <= n,
            bitmap@.len() == n,
            forall|p: int| 0 <= p < b ==> !bitmap@[p],
        decreases n - b,
    {
        bitmap.set(b, false);
        b = b + 1;
    }
    proof {
        assert(bitmap@ =~= blank_bitmap(n as int));
        lemma_free_range_all_false(bitmap@, 0, n as int);
        assert(ordinals@.take(0) =~= Seq::<usize>::empty());
    }
    let mut residual: usize = permutation_index;
    let mut pos: usize = 0;
    while pos < r
        invariant
            0 <= pos <= r <= n,
            bitmap@.len() == n,
            ordinals@.len() == r,
            free_range(bitmap@, 0, n as int) == n - pos,
            perm_ordinals(n as int, idx, r as int) == ordinals@.take(pos as int) + perm_decode(
                n as int,
                bitmap@,
                pos as int,
                residual as int,
                r as int,
            ),
            forall|p: int| 0 <= p < pos ==> ordinals@[p] < n,
            forall|p: int, q: int| 0 <= p < q < pos ==> ordinals@[p] != ordinals@[q],
            forall|x: int|
                0 <= x < n ==> (#[trigger] bitmap@[x] <==> exists|p: int|
                    0 <= p < pos && ordinals@[p] == x),
        decreases r - pos,
    {
        let c = n - pos;
        let quotient = residual / c;
        let remainder = residual % c;
        let ghost bm0 = bitmap@;
        let ghost ords0 = ordinals@;
        let ord = scan_free(bitmap, remainder);
        proof {
            assert forall|p: int| 0 <= p < pos implies ordinals@[p] != ord by {
                assert(bm0[ordinals@[p] as int]);
            }
        }
        ordinals.set(pos, ord);
        bitmap.set(ord, true);
        proof {
            assert(bitmap@ =~= bm0.update(ord as int, true));
            lemma_free_range_update(bm0, ord as int, 0, n as int);
            assert(perm_decode(n as int, bm0, pos as int, residual as int, r as int)
                == seq![ord] + perm_decode(
                n as int,
                bitmap@,
                pos + 1,
                quotient as int,
                r as int,
            ));
            assert(ordinals@.take(pos + 1) =~= ordinals@.take(pos as int).push(ord));
            assert(ordinals@.take(pos as int) + (seq![ord] + perm_decode(
                n as int,
                bitmap@,
                pos + 1,
                quotient as int,
                r as int,
            )) =~= ordinals@.take(pos + 1) + perm_decode(
                n as int,
                bitmap@,
                pos + 1,
                quotient as int,
                r as int,
            ));
            assert forall|x: int|
                0 <= x < n implies (#[trigger] bitmap@[x] <==> exists|p: int|
                    0 <= p < pos + 1 && ordinals@[p] == x) by {
                if x == ord {
                    assert(ordinals@[pos as int] == x);
                } else {
                    assert(bitmap@[x] == bm0[x]);
                    if bm0[x] {
                        let p = choose|p: int| 0 <= p < pos && ords0[p] == x;
                        assert(ordinals@[p] == x);
                    } else {
                        assert forall|p: int| 0 <= p < pos + 1 implies ordinals@[p] != x by {
                            if p < pos {
                                assert(ordinals@[p] == ords0[p]);
                            }
                        }
                    }
                }
            }
        }
        residual = quotient;
        pos = pos + 1;
    }
    proof {
        assert(ordinals@.take(r as int) =~= ordinals@);
        assert(ordinals@ + Seq::<usize>::empty() =~= ordinals@);
    }
}

/// As `pick_permutation`, but fills the ordinals from the back, yielding the
/// complementary traversal order.
pub fn pick_permutation_reverse(
    cardinality: usize,
    permutation_index: usize,
    bitmap: &mut Vec<bool>,
    ordinals: &mut Vec<usize>,
)
    requires
        old(bitmap)@.len() == cardinality,
        old(ordinals)@.len() <= cardinality,
    ensures
        final(ordinals)@ == perm_ordinals(
            cardinality as int,
            permutation_index as int,
            old(ordinals)@.len() as int,
        ).reverse(),
        final(ordinals)@.len() == old(ordinals)@.len(),
        final(bitmap)@.len() == cardinality,
        distinct(final(ordinals)@),
        forall|i: int| 0 <= i < final(ordinals)@.len() ==> final(ordinals)@[i] < cardinality,
{
    let n = cardinality;
    let r = ordinals.len();
    let ghost idx = permutation_index as int;
    let mut b: usize = 0;
    while b < n
        invariant
            0 <= b <= n,
            bitmap@.len() == n,
            forall|p: int| 0 <= p < b ==> !bitmap@[p],
        decreases n - b,
    {
        bitmap.set(b, false);
        b = b + 1;
    }
    proof {
        assert(bitmap@ =~= blank_bitmap(n as int));
        lemma_free_range_all_false(bitmap@, 0, n as int);
    }
    let ghost mut done: Seq<usize> = Seq::empty();
    let mut residual: usize = permutation_index;
    let mut pos: usize = 0;
    while pos < r
        invariant
            0 <= pos <= r <= n,
            bitmap@.len() == n,
            ordinals@.len() == r,
            free_range(bitmap@, 0, n as int) == n - pos,
            done.len() == pos,
            perm_ordinals(n as int, idx, r as int) == done + perm_decode(
                n as int,
                bitmap@,
                pos as int,
                residual as int,
                r as int,
            ),
            forall|i: int| 0 <= i < pos ==> ordinals@[r - 1 - i] == done[i],
            forall|i: int| 0 <= i < pos ==> done[i] < n,
            forall|p: int, q: int| 0 <= p < q < pos ==> done[p] != done[q],
            forall|x: int|
                0 <= x < n ==> (#[trigger] bitmap@[x] <==> exists|p: int|
                    0 <= p < pos && done[p] == x),
        decreases r - pos,
    {
        let c = n - pos;
        let quotient = residual / c;
        let remainder = residual % c;
        let ghost bm0 = bitmap@;
        let ord = scan_free(bitmap, remainder);
        proof {
            assert forall|p: int| 0 <= p < pos implies done[p] != ord by {
                assert(bm0[done[p] as int]);
            }
        }
        ordinals.set(r - 1 - pos, ord);
        bitmap.set(ord, true);
        proof {
            assert(bitmap@ =~= bm0.update(ord as int, true));
            lemma_free_range_update(bm0, ord as int, 0, n as int);
            assert(perm_decode(n as int, bm0, pos as int, residual as int, r as int)
                == seq![ord] + perm_decode(
                n as int,
                bitmap@,
                pos + 1,
                quotient as int,
                r as int,
            ));
            assert(done + (seq![ord] + perm_decode(
                n as int,
                bitmap@,
                pos + 1,
                quotient as int,
                r as int,
            )) =~= done.push(ord) + perm_decode(
                n as int,
                bitmap@,
                pos + 1,
                quotient as int,
                r as int,
            ));
            let done0 = done;
            done = done.push(ord);
            assert forall|x: int|
                0 <= x < n implies (#[trigger] bitmap@[x] <==> exists|p: int|
                    0 <= p < pos + 1 && done[p] == x) by {
                if x == ord {
                    assert(done[pos as int] == x);
                } else {
                    assert(bitmap@[x] == bm0[x]);
                    if bm0[x] {
                        let p = choose|p: int| 0 <= p < pos && done0[p] == x;
                        assert(done[p] == x);
                    } else {
                        assert forall|p: int| 0 <= p < pos + 1 implies done[p] != x by {
                            if p < pos {
                                assert(done[p] == done0[p]);
                            }
                        }
                    }
                }
            }
        }
        residual = quotient;
        pos = pos + 1;
    }
    proof {
        assert(done + Seq::<usize>::empty() =~= done);
        assert(ordinals@ =~= done.reverse());
        assert forall|i: int, j: int| 0 <= i < j < ordinals@.len() implies ordinals@[i]
            != ordinals@[j] by {
            assert(ordinals@[i] == done[r - 1 - i]);
            assert(ordinals@[j] == done[r - 1 - j]);
        }
    }
}

pub proof fn lemma_range_product_factor_lo(lo: int, hi: int)
    requires
        lo <= hi,
    ensures
        range_product(lo, hi) == lo * range_product(lo + 1, hi),
    decreases hi - lo,
{
    if lo == hi {
        assert(range_product(lo, hi) == hi * range_product(lo, hi - 1));
    } else {
        lemma_range_product_factor_lo(lo, hi - 1);
        assert(hi * (lo * range_product(lo + 1, hi - 1)) == lo * (hi * range_product(
            lo + 1,
            hi - 1,
        ))) by (nonlinear_arith);
    }
}

pub proof fn lemma_range_product_lo_mono(lo1: int, lo2: int, hi: int)
    requires
        1 <= lo1 <= lo2,
    ensures
        range_product(lo2, hi) <= range_product(lo1, hi),
    decreases hi - lo1 + 1,
{
    if hi < lo2 {
        lemma_range_product_pos(lo1, hi);
    } else {
        lemma_range_product_lo_mono(lo1, lo2, hi - 1);
        lemma_range_product_pos(lo2, hi - 1);
        assert(hi * range_product(lo2, hi - 1) <= hi * range_product(lo1, hi - 1))
            by (nonlinear_arith)
            requires hi >= 1 && range_product(lo2, hi - 1) <= range_product(lo1, hi - 1)
                && range_product(lo2, hi - 1) >= 1;
    }
}

/// The permutation index of a valid tuple is within the permutation count.
pub proof fn lemma_perm_encode_bound(n: int, bm: Seq<bool>, pos: int, ords: Seq<usize>)
    requires
        bm.len() == n,
        0 <= pos,
        pos + ords.len() <= n,
        free_range(bm, 0, n) == n - pos,
        forall|i: int| 0 <= i < ords.len() ==> ords[i] < n && !bm[ords[i] as int],
        distinct(ords),
    ensures
        0 <= perm_encode(n, bm, pos, ords),
        perm_encode(n, bm, pos, ords) < range_product(n - pos - ords.len() + 1, n - pos),
    decreases ords.len(),
{
    if ords.len() == 0 {
    } else {
        let c = n - pos;
        let o0 = ords[0] as int;
        let rank = free_range(bm, 0, o0);
        lemma_free_range_nonneg(bm, 0, o0);
        lemma_free_range_split(bm, 0, o0, n);
        lemma_free_range_nonneg(bm, o0 + 1, n);
        assert(free_range(bm, o0, n) == 1 + free_range(bm, o0 + 1, n));
        assert(rank <= c - 1);
        let bm1 = bm.update(o0, true);
        lemma_free_range_update(bm, o0, 0, n);
        let tail = ords.drop_first();
        assert(forall|i: int|
            0 <= i < tail.len() ==> tail[i] < n && !bm1[#[trigger] tail[i] as int]);
        assert(distinct(tail)) by {
            assert(forall|i: int| 0 <= i < tail.len() ==> #[trigger] tail[i] == ords[i + 1]);
        }
        lemma_perm_encode_bound(n, bm1, pos + 1, tail);
        let e = perm_encode(n, bm1, pos + 1, tail);
        let f = range_product(n - pos - ords.len() + 1, n - pos - 1);
        assert(range_product(n - pos - ords.len() + 1, n - pos) == c * f);
        assert(rank + c * e < c * f) by (nonlinear_arith)
            requires 0 <= rank && rank <= c - 1 && 0 <= e && e < f && c >= 1;
        assert(0 <= c * e) by (nonlinear_arith)
            requires c >= 0 && e >= 0;
    }
}

/// Shrinking-radix round trip: re-encoding the ordinal tuple that `idx`
/// decodes to recovers `idx`.
proof fn lemma_perm_round_trip_rec(n: int, bm: Seq<bool>, pos: int, idx: int, r: int)
    requires
        0 <= pos <= r <= n <= usize::MAX,
        bm.len() == n,
        free_range(bm, 0, n) == n - pos,
        0 <= idx,
        idx < range_product(n - r + 1, n - pos),
    ensures
        perm_encode(n, bm, pos, perm_decode(n, bm, pos, idx, r)) == idx,
    decreases r - pos,
{
    if pos == r {
        assert(range_product(n - r + 1, n - pos) == 1);
    } else {
        let c = n - pos;
        let rem = idx % c;
        lemma_mod_bound(idx, c);
        lemma_nth_free_props(bm, 0, rem);
        let ord = nth_free(bm, 0, rem);
        let bm1 = bm.update(ord, true);
        lemma_free_range_update(bm, ord, 0, n);
        let f = range_product(n - r + 1, n - pos - 1);
        assert(range_product(n - r + 1, n - pos) == c * f);
        lemma_multiply_divide_lt(idx, c, f);
        lemma_div_pos_is_pos(idx, c);
        lemma_perm_round_trip_rec(n, bm1, pos + 1, idx / c, r);
        let decoded = perm_decode(n, bm, pos, idx, r);
        assert(0 <= ord < n);
        assert(decoded[0] == ord as usize);
        assert(decoded[0] as int == ord);
        assert(decoded.drop_first() =~= perm_decode(n, bm1, pos + 1, idx / c, r));
        assert(free_range(bm, 0, decoded[0] as int) == rem);
        lemma_fundamental_div_mod(idx, c);
    }
}

/// Indexing round trip: for every `idx` below the permutation count,
/// decoding `idx` and re-encoding the resulting tuple recovers `idx`.
pub proof fn lemma_permutation_round_trip(n: int, idx: int, r: int)
    requires
        0 <= r <= n <= usize::MAX,
        0 <= idx,
        idx < range_product(n - r + 1, n as int),
    ensures
        perm_encode(n, blank_bitmap(n), 0, perm_ordinals(n, idx, r)) == idx,
{
    lemma_free_range_all_false(blank_bitmap(n), 0, n);
    lemma_perm_round_trip_rec(n, blank_bitmap(n), 0, idx, r);
}

/// Distinct state indices decode to distinct ordinal tuples: together with
/// the round trip, decoding is a bijection between `[0, count_states)` and
/// the mixed-radix state space.
pub proof fn lemma_state_decode_injective(cards: Seq<usize>, idx1: int, idx2: int)
    requires
        forall|i: int| 0 <= i < cards.len() ==> cards[i] >= 1,
        0 <= idx1 < seq_product(cards),
        0 <= idx2 < seq_product(cards),
        idx1 != idx2,
    ensures
        state_decode(cards, idx1) != state_decode(cards, idx2),
{
    if state_decode(cards, idx1) == state_decode(cards, idx2) {
        lemma_state_round_trip(cards, idx1);
        lemma_state_round_trip(cards, idx2);
    }
}

/// Distinct permutation indices decode to distinct tuples: together with
/// the round trip, decoding is a bijection between `[0, count_permutations)`
/// and the `r`-permutations of `[0, n)`.
pub proof fn lemma_perm_decode_injective(n: int, idx1: int, idx2: int, r: int)
    requires
        0 <= r <= n <= usize::MAX,
        0 <= idx1 < range_product(n - r + 1, n),
        0 <= idx2 < range_product(n - r + 1, n),
        idx1 != idx2,
    ensures
        perm_ordinals(n, idx1, r) != perm_ordinals(n, idx2, r),
{
    if perm_ordinals(n, idx1, r) == perm_ordinals(n, idx2, r) {
        lemma_permutation_round_trip(n, idx1, r);
        lemma_permutation_round_trip(n, idx2, r);
    }
}

/// Counts the unmarked slots strictly below `limit`.
fn count_free_below(bitmap: &Vec<bool>, limit: usize) -> (rank: usize)
    requires
        limit <= bitmap@.len(),
    ensures
        rank as int == free_range(bitmap@, 0, limit as int),
{
    let mut free: usize = 0;
    let mut b: usize = 0;
    while b < limit
        invariant
            0 <= b <= limit <= bitmap@.len(),
            free == free_range(bitmap@, 0, b as int),
            free <= b,
        decreases limit - b,
    {
        proof {
            lemma_free_range_snoc(bitmap@, 0, b as int);
        }
        if !bitmap[b] {
            free = free + 1;
        }
        b = b + 1;
    }
    free
}

/// Re-encodes an ordered tuple of distinct ordinals into its permutation
/// index: the inverse of `pick_permutation`. The bitmap is reset on entry.
pub fn permutation_index(
    cardinality: usize,
    ordinals: &Vec<usize>,
    bitmap: &mut Vec<bool>,
) -> (index: usize)
    requires
        old(bitmap)@.len() == cardinality,
        ordinals@.len() <= cardinality,
        distinct(ordinals@),
        forall|i: int| 0 <= i < ordinals@.len() ==> ordinals@[i] < cardinality,
        range_product(cardinality - ordinals@.len() + 1, cardinality as int) <= usize::MAX,
    ensures
        index == perm_encode(cardinality as int, blank_bitmap(cardinality as int), 0, ordinals@),
        final(bitmap)@.len() == cardinality,
{
    let n = cardinality;
    let r = ordinals.len();
    let ghost ords = ordinals@;
    let mut b: usize = 0;
    while b < n
        invariant
            0 <= b <= n,
            bitmap@.len() == n,
            forall|p: int| 0 <= p < b ==> !bitmap@[p],
        decreases n - b,
    {
        bitmap.set(b, false);
        b = b + 1;
    }
    proof {
        assert(bitmap@ =~= blank_bitmap(n as int));
        lemma_free_range_all_false(bitmap@, 0, n as int);
        assert(ords.skip(0) =~= ords);
        lemma_perm_encode_bound(n as int, bitmap@, 0, ords);
        lemma_range_product_pos(n - r + 1, n as int);
    }
    let ghost total = perm_encode(n as int, blank_bitmap(n as int), 0, ords);
    let mut acc: usize = 0;
    let mut weight: usize = 1;
    let mut pos: usize = 0;
    while pos < r
        invariant
            0 <= pos <= r <= n,
            bitmap@.len() == n,
            ords == ordinals@,
            ords.len() == r,
            distinct(ords),
            forall|i: int| 0 <= i < r ==> ords[i] < n,
            free_range(bitmap@, 0, n as int) == n - pos,
            forall|x: int|
                0 <= x < n ==> (#[trigger] bitmap@[x] <==> exists|p: int|
                    0 <= p < pos && ords[p] == x),
            weight == range_product(n - pos + 1, n as int),
            acc + weight * perm_encode(n as int, bitmap@, pos as int, ords.skip(pos as int))
                == total,
            0 <= total,
            total < range_product(n - r + 1, n as int),
            range_product(n - r + 1, n as int) <= usize::MAX,
        decreases r - pos,
    {
        let c = n - pos;
        let ghost bm0 = bitmap@;
        let ghost rest = ords.skip(pos as int);
        proof {
            assert(rest[0] == ords[pos as int]);
            assert(rest.drop_first() =~= ords.skip(pos + 1));
            assert forall|i: int| 0 <= i < rest.len() implies !bm0[#[trigger] rest[i] as int] by {
                if bm0[rest[i] as int] {
                    let p = choose|p: int| 0 <= p < pos && ords[p] == rest[i];
                    assert(ords[pos + i] == rest[i]);
                }
            }
            assert(distinct(rest)) by {
                assert(forall|i: int| 0 <= i < rest.len() ==> #[trigger] rest[i] == ords[pos + i]);
            }
            lemma_perm_encode_bound(n as int, bm0, pos as int, rest);
        }
        let ord = ordinals[pos];
        let rank = count_free_below(bitmap, ord);
        bitmap.set(ord, true);
        proof {
            let bm1 = bm0.update(ord as int, true);
            assert(bitmap@ =~= bm1);
            lemma_free_range_update(bm0, ord as int, 0, n as int);
            let e_cur = perm_encode(n as int, bm0, pos as int, rest);
            let e_next = perm_encode(n as int, bm1, pos + 1, ords.skip(pos + 1));
            assert(e_cur == rank + c * e_next);
            assert forall|i: int|
                0 <= i < ords.skip(pos + 1).len() implies !bm1[
                #[trigger] ords.skip(pos + 1)[i] as int] by {
                assert(ords.skip(pos + 1)[i] == ords[pos + 1 + i]);
                assert(!bm0[ords[pos + 1 + i] as int]);
            }
            assert(distinct(ords.skip(pos + 1))) by {
                assert(forall|i: int|
                    0 <= i < ords.skip(pos + 1).len() ==> #[trigger] ords.skip(pos + 1)[i]
                        == ords[pos + 1 + i]);
            }
            lemma_perm_encode_bound(n as int, bm1, pos + 1, ords.skip(pos + 1));
            lemma_range_product_lo_mono(n - r + 1, n - pos, n as int);
            lemma_range_product_factor_lo(n - pos, n as int);
            assert(weight * c == range_product(n - pos, n as int)) by (nonlinear_arith)
                requires weight == range_product(n - pos + 1, n as int)
                    && range_product(n - pos, n as int) == (n - pos) * range_product(
                    n - pos + 1,
                    n as int,
                ) && c == n - pos;
            assert(weight * (rank + c * e_next) == weight * rank + (weight * c) * e_next)
                by (nonlinear_arith);
            assert(0 <= weight * rank) by (nonlinear_arith)
                requires weight >= 0 && rank >= 0;
            assert(0 <= (weight * c) * e_next) by (nonlinear_arith)
                requires weight >= 0 && c >= 0 && e_next >= 0;
            assert(rank <= e_cur) by (nonlinear_arith)
                requires e_cur == rank + c * e_next && c >= 0 && e_next >= 0;
            assert(weight * rank <= weight * e_cur) by (nonlinear_arith)
                requires weight >= 0 && rank <= e_cur;
        }
        acc = acc + weight * rank;
        weight = weight * c;
        pos = pos + 1;
    }
    proof {
        assert(ords.skip(r as int) =~= Seq::<usize>::empty());
    }
    acc
}

} // verus!
