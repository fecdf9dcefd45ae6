//! A compact set of ordinals in `[0, len)`, backed by a boolean vector.

use vstd::prelude::*;

verus! {

/// Number of marked slots of `bm` at positions `a..b`.
pub open spec fn marked_range(bm: Seq<bool>, a: int, b: int) -> int
    decreases b - a,
{
    if a < 0 || a >= b || b > bm.len() {
        0
    } else {
        (if bm[a] {
            1int
        } else {
            0int
        }) + marked_range(bm, a + 1, b)
    }
}

pub proof fn lemma_marked_range_snoc(bm: Seq<bool>, a: int, b: int)
    requires
        0 <= a <= b < bm.len(),
    ensures
        marked_range(bm, a, b + 1) == marked_range(bm, a, b) + (if bm[b] {
            1int
        } else {
            0int
        }),
    decreases b - a,
{
    if a < b {
        lemma_marked_range_snoc(bm, a + 1, b);
    } else {
        assert(marked_range(bm, a, b) == 0);
        assert(marked_range(bm, b + 1, b + 1) == 0);
    }
}

/// The marked positions of `bm` at or after `i`, ascending.
pub open spec fn marked_from(bm: Seq<bool>, i: int) -> Seq<usize>
    decreases bm.len() - i,
{
    if i < 0 || i >= bm.len() {
        Seq::empty()
    } else if bm[i] {
        seq![i as usize] + marked_from(bm, i + 1)
    } else {
        marked_from(bm, i + 1)
    }
}

/// The ASCII decimal digits of `v`, most significant first.
pub open spec fn decimal_digits(v: int) -> Seq<u8>
    decreases v,
{
    if v < 0 {
        Seq::empty()
    } else if v < 10 {
        seq![(48 + v) as u8]
    } else {
        decimal_digits(v / 10) + seq![(48 + v % 10) as u8]
    }
}

/// The ASCII rendering of the ordinals after the first: a comma-space
/// separator before each.
pub open spec fn separated_bytes(ordinals: Seq<usize>) -> Seq<u8>
    decreases ordinals.len(),
{
    if ordinals.len() == 0 {
        Seq::empty()
    } else {
        seq![44u8, 32u8] + decimal_digits(ordinals[0] as int) + separated_bytes(
            ordinals.drop_first(),
        )
    }
}

/// The ASCII rendering of an ordinal list: `[1, 3]`.
pub open spec fn rendered_bytes(ordinals: Seq<usize>) -> Seq<u8> {
    if ordinals.len() == 0 {
        seq![91u8, 93u8]
    } else {
        seq![91u8] + decimal_digits(ordinals[0] as int) + separated_bytes(ordinals.drop_first())
            + seq![93u8]
    }
}

/// Appends the decimal digits of `value`.
fn push_decimal(out: &mut Vec<u8>, value: usize)
    ensures
        final(out)@ == old(out)@ + decimal_digits(value as int),
    decreases value,
{
    if value < 10 {
        out.push((48 + value) as u8);
        proof {
            assert(out@ =~= old(out)@ + decimal_digits(value as int));
        }
    } else {
        push_decimal(out, value / 10);
        out.push((48 + value % 10) as u8);
        proof {
            assert(out@ =~= old(out)@ + (decimal_digits((value as int) / 10) + seq![
                (48 + (value as int) % 10) as u8,
            ]));
        }
    }
}

proof fn lemma_decimal_ascii(v: int)
    ensures
        forall|i: int| 0 <= i < decimal_digits(v).len() ==> decimal_digits(v)[i] < 128,
    decreases v,
{
    if v >= 10 {
        lemma_decimal_ascii(v / 10);
        let digits = decimal_digits(v);
        let head = decimal_digits(v / 10);
        assert forall|i: int| 0 <= i < digits.len() implies digits[i] < 128 by {
            if i < head.len() {
                assert(digits[i] == head[i]);
            } else {
                assert(digits[i] == (48 + v % 10) as u8);
            }
        }
    }
}

proof fn lemma_separated_ascii(ordinals: Seq<usize>)
    ensures
        forall|i: int|
            0 <= i < separated_bytes(ordinals).len() ==> separated_bytes(ordinals)[i] < 128,
    decreases ordinals.len(),
{
    if ordinals.len() > 0 {
        lemma_decimal_ascii(ordinals[0] as int);
        lemma_separated_ascii(ordinals.drop_first());
        let all = separated_bytes(ordinals);
        let digits = decimal_digits(ordinals[0] as int);
        let rest = separated_bytes(ordinals.drop_first());
        assert forall|i: int| 0 <= i < all.len() implies all[i] < 128 by {
            if i < 2 {
                assert(all[i] == seq![44u8, 32u8][i]);
            } else if i < 2 + digits.len() {
                assert(all[i] == digits[i - 2]);
            } else {
                assert(all[i] == rest[i - 2 - digits.len()]);
            }
        }
    }
}

proof fn lemma_rendered_ascii(ordinals: Seq<usize>)
    ensures
        forall|i: int|
            0 <= i < rendered_bytes(ordinals).len() ==> rendered_bytes(ordinals)[i] < 128,
{
    if ordinals.len() > 0 {
        lemma_decimal_ascii(ordinals[0] as int);
        lemma_separated_ascii(ordinals.drop_first());
    }
}

proof fn lemma_separated_bytes_snoc(s: Seq<usize>, from: int, k: int)
    requires
        0 <= from <= k < s.len(),
    ensures
        separated_bytes(s.subrange(from, k + 1)) == separated_bytes(s.subrange(from, k)) + (seq![
            44u8,
            32u8,
        ] + decimal_digits(s[k] as int)),
    decreases k - from,
{
    let longer = s.subrange(from, k + 1);
    let shorter = s.subrange(from, k);
    if from == k {
        assert(shorter =~= Seq::<usize>::empty());
        assert(longer.drop_first() =~= Seq::<usize>::empty());
        assert(separated_bytes(longer) =~= separated_bytes(shorter) + (seq![44u8, 32u8]
            + decimal_digits(s[k] as int)));
    } else {
        lemma_separated_bytes_snoc(s, from + 1, k);
        assert(longer.drop_first() =~= s.subrange(from + 1, k + 1));
        assert(shorter.drop_first() =~= s.subrange(from + 1, k));
        assert(longer[0] == s[from]);
        assert(shorter[0] == s[from]);
        assert(separated_bytes(longer) =~= separated_bytes(shorter) + (seq![44u8, 32u8]
            + decimal_digits(s[k] as int)));
    }
}

/// Relies on `String::from_utf8`: a vector of ASCII bytes becomes the
/// string of exactly those characters.
#[verifier::external_body]
fn ascii_to_string(bytes: Vec<u8>) -> (text: String)
    requires
        forall|i: int| 0 <= i < bytes@.len() ==> bytes@[i] < 128,
    ensures
        text@.len() == bytes@.len(),
        forall|i: int| 0 <= i < bytes@.len() ==> text@[i] == bytes@[i] as char,
{
    String::from_utf8(bytes).unwrap_or_default()
}

/// A set of ordinals represented as a boolean vector: slot `i` is marked
/// exactly when ordinal `i` is a member.
#[derive(Clone, Debug, PartialEq, Eq, Hash)]
pub struct Bitmap {
    bits: Vec<bool>,
}

impl View for Bitmap {
    type V = Seq<bool>;

    closed spec fn view(&self) -> Seq<bool> {
        self.bits@
    }
}

impl Bitmap {
    /// A bitmap of `len` slots, none marked.
    pub fn empty(len: usize) -> (bitmap: Self)
        ensures
            bitmap@.len() == len,
            forall|i: int| 0 <= i < len ==> !bitmap@[i],
    {
        let mut bits: Vec<bool> = Vec::new();
        let mut i: usize = 0;
        while i < len
            invariant
                0 <= i <= len,
                bits@.len() == i,
                forall|p: int| 0 <= p < i ==> !bits@[p],
            decreases len - i,
        {
            bits.push(false);
            i = i + 1;
        }
        Bitmap { bits }
    }

    /// A bitmap of `len` slots, all marked.
    pub fn full(len: usize) -> (bitmap: Self)
        ensures
            bitmap@.len() == len,
            forall|i: int| 0 <= i < len ==> bitmap@[i],
    {
        let mut bits: Vec<bool> = Vec::new();
        let mut i: usize = 0;
        while i < len
            invariant
                0 <= i <= len,
                bits@.len() == i,
                forall|p: int| 0 <= p < i ==> bits@[p],
            decreases len - i,
        {
            bits.push(true);
            i = i + 1;
        }
        Bitmap { bits }
    }

    /// A bitmap that adopts the given backing vector as it stands.
    pub fn from_backing(bits: Vec<bool>) -> (bitmap: Self)
        ensures
            bitmap@ == bits@,
    {
        Bitmap { bits }
    }

    /// A bitmap of `len` slots marking exactly the given ordinals.
    pub fn from_ordinals(ordinals: &Vec<usize>, len: usize) -> (bitmap: Self)
        requires
            forall|i: int| 0 <= i < ordinals@.len() ==> ordinals@[i] < len,
        ensures
            bitmap@.len() == len,
            forall|x: int|
                0 <= x < len ==> (#[trigger] bitmap@[x] <==> exists|p: int|
                    0 <= p < ordinals@.len() && ordinals@[p] == x),
    {
        let mut bitmap = Self::empty(len);
        let mut i: usize = 0;
        while i < ordinals.len()
            invariant
                0 <= i <= ordinals@.len(),
                bitmap@.len() == len,
                forall|p: int| 0 <= p < ordinals@.len() ==> ordinals@[p] < len,
                forall|x: int|
                    0 <= x < len ==> (#[trigger] bitmap@[x] <==> exists|p: int|
                        0 <= p < i && ordinals@[p] == x),
            decreases ordinals@.len() - i,
        {
            let ghost bm0 = bitmap@;
            let ord = ordinals[i];
            bitmap.set(ord, true);
            proof {
                assert forall|x: int|
                    0 <= x < len implies (#[trigger] bitmap@[x] <==> exists|p: int|
                        0 <= p < i + 1 && ordinals@[p] == x) by {
                    if x == ord {
                        assert(ordinals@[i as int] == x);
                    } else {
                        assert(bitmap@[x] == bm0[x]);
                        if bm0[x] {
                            let p = choose|p: int| 0 <= p < i && ordinals@[p] == x;
                            assert(0 <= p < i + 1 && ordinals@[p] == x);
                        }
                    }
                }
            }
            i = i + 1;
        }
        bitmap
    }

    /// Number of marked slots: the size of the set.
    pub fn size(&self) -> (size: usize)
        ensures
            size as int == marked_range(self@, 0, self@.len() as int),
    {
        let n = self.bits.len();
        let mut count: usize = 0;
        let mut b: usize = 0;
        while b < n
            invariant
                0 <= b <= n,
                n == self@.len(),
                count == marked_range(self@, 0, b as int),
                count <= b,
            decreases n - b,
        {
            proof {
                lemma_marked_range_snoc(self@, 0, b as int);
            }
            if self.bits[b] {
                count = count + 1;
            }
            b = b + 1;
        }
        count
    }

    /// Whether no slot is marked.
    pub fn is_empty(&self) -> (empty: bool)
        ensures
            empty <==> forall|i: int| 0 <= i < self@.len() ==> !self@[i],
    {
        let n = self.bits.len();
        let mut b: usize = 0;
        while b < n
            invariant
                0 <= b <= n,
                n == self@.len(),
                forall|p: int| 0 <= p < b ==> !self@[p],
            decreases n - b,
        {
            if self.bits[b] {
                return false;
            }
            b = b + 1;
        }
        true
    }

    /// Number of slots, marked or not.
    pub fn len(&self) -> (len: usize)
        ensures
            len == self@.len(),
    {
        self.bits.len()
    }

    /// Whether the slot at `index` is marked.
    pub fn get(&self, index: usize) -> (marked: bool)
        requires
            index < self@.len(),
        ensures
            marked == self@[index as int],
    {
        self.bits[index]
    }

    /// Marks or unmarks the slot at `index`.
    pub fn set(&mut self, index: usize, marked: bool)
        requires
            index < old(self)@.len(),
        ensures
            final(self)@ == old(self)@.update(index as int, marked),
    {
        self.bits.set(index, marked);
    }

    /// The position of the first marked slot at or after `start`, if any.
    pub fn next_occupied(&self, start: usize) -> (found: Option<usize>)
        ensures
            match found {
                Some(i) => start <= i < self@.len() && self@[i as int] && forall|p: int|
                    start <= p < i ==> !self@[p],
                None => forall|p: int| start <= p < self@.len() ==> !self@[p],
            },
    {
        let n = self.bits.len();
        let mut b: usize = start;
        while b < n
            invariant
                start <= b <= n || (start > n && b == start),
                n == self@.len(),
                forall|p: int| start <= p < b ==> !self@[p],
            decreases n - b,
        {
            if self.bits[b] {
                return Some(b);
            }
            b = b + 1;
        }
        None
    }

    /// The marked ordinals, ascending, as an owned vector.
    pub fn to_ordinals(&self) -> (ordinals: Vec<usize>)
        ensures
            ordinals@ == marked_from(self@, 0),
    {
        let n = self.bits.len();
        let mut ordinals: Vec<usize> = Vec::new();
        let mut b: usize = 0;
        proof {
            assert(marked_from(self@, 0) =~= Seq::<usize>::empty() + marked_from(self@, 0));
        }
        while b < n
            invariant
                0 <= b <= n,
                n == self@.len(),
                marked_from(self@, 0) == ordinals@ + marked_from(self@, b as int),
            decreases n - b,
        {
            if self.bits[b] {
                ordinals.push(b);
                proof {
                    assert(ordinals@ + marked_from(self@, b + 1) =~= ordinals@.drop_last() + (seq![
                        b,
                    ] + marked_from(self@, b + 1)));
                }
            }
            b = b + 1;
        }
        proof {
            assert(marked_from(self@, n as int) =~= Seq::<usize>::empty());
            assert(ordinals@ + Seq::<usize>::empty() =~= ordinals@);
        }
        ordinals
    }

    /// The marked ordinals as text, such as `[1, 3]`.
    pub fn render(&self) -> (text: String)
        ensures
            text@.len() == rendered_bytes(marked_from(self@, 0)).len(),
            forall|i: int|
                0 <= i < text@.len() ==> text@[i] == rendered_bytes(marked_from(self@, 0))[i]
                    as char,
    {
        let ordinals = self.to_ordinals();
        let mut bytes: Vec<u8> = Vec::new();
        bytes.push(91);
        if ordinals.len() > 0 {
            let first = ordinals[0];
            push_decimal(&mut bytes, first);
            proof {
                assert(bytes@ =~= seq![91u8] + decimal_digits(ordinals@[0] as int));
            }
            let mut k: usize = 1;
            while k < ordinals.len()
                invariant
                    1 <= k <= ordinals@.len(),
                    bytes@ == seq![91u8] + decimal_digits(ordinals@[0] as int) + separated_bytes(
                        ordinals@.subrange(1, k as int),
                    ),
                decreases ordinals@.len() - k,
            {
                let ghost before = bytes@;
                bytes.push(44);
                bytes.push(32);
                let ordinal = ordinals[k];
                push_decimal(&mut bytes, ordinal);
                proof {
                    lemma_separated_bytes_snoc(ordinals@, 1, k as int);
                    assert(bytes@ =~= before + (seq![44u8, 32u8] + decimal_digits(
                        ordinals@[k as int] as int,
                    )));
                }
                k = k + 1;
            }
            proof {
                assert(ordinals@.subrange(1, ordinals@.len() as int) =~= ordinals@.drop_first());
            }
        }
        bytes.push(93);
        proof {
            if ordinals@.len() == 0 {
                assert(bytes@ =~= rendered_bytes(ordinals@));
            } else {
                assert(bytes@ =~= rendered_bytes(ordinals@));
            }
            lemma_rendered_ascii(ordinals@);
        }
        ascii_to_string(bytes)
    }

    /// A cursor over the marked ordinals, in ascending order, resting on
    /// the first marked slot.
    pub fn ordinals(&self) -> (iter: Iter<'_>)
        ensures
            iter.bitmap@ == self@,
            iter.wf(),
            match iter.index {
                Some(i) => i < self@.len() && self@[i as int] && forall|p: int|
                    0 <= p < i ==> !self@[p],
                None => forall|p: int| 0 <= p < self@.len() ==> !self@[p],
            },
    {
        Iter::new(self)
    }
}

/// A cursor over the marked ordinals of a bitmap, in ascending order.
pub struct Iter<'a> {
    /// The bitmap being walked.
    pub bitmap: &'a Bitmap,
    /// The position of the next ordinal to hand out, if any remains.
    pub index: Option<usize>,
}

impl<'a> Iter<'a> {
    /// The cursor either is exhausted or rests on a marked slot.
    pub open spec fn wf(&self) -> bool {
        match self.index {
            Some(i) => i < self.bitmap@.len() && self.bitmap@[i as int],
            None => true,
        }
    }

    /// A cursor resting on the first marked ordinal of the bitmap.
    pub fn new(bitmap: &'a Bitmap) -> (iter: Self)
        ensures
            iter.bitmap@ == bitmap@,
            iter.wf(),
            match iter.index {
                Some(i) => i < bitmap@.len() && bitmap@[i as int] && forall|p: int|
                    0 <= p < i ==> !bitmap@[p],
                None => forall|p: int| 0 <= p < bitmap@.len() ==> !bitmap@[p],
            },
    {
        let index = bitmap.next_occupied(0);
        Iter { bitmap, index }
    }

    /// Hands out the next marked ordinal, ascending, or `None` at exhaustion.
    pub fn next(&mut self) -> (found: Option<usize>)
        requires
            old(self).wf(),
        ensures
            final(self).wf(),
            final(self).bitmap@ == old(self).bitmap@,
            found == old(self).index,
            match found {
                Some(i) => i < old(self).bitmap@.len() && old(self).bitmap@[i as int] && match
                    final(self).index {
                    Some(j) => i < j && forall|p: int| i < p < j ==> !old(self).bitmap@[p],
                    None => forall|p: int|
                        i < p < old(self).bitmap@.len() ==> !old(self).bitmap@[p],
                },
                None => final(self).index == None::<usize>,
            },
    {
        match self.index {
            None => None,
            Some(index) => {
                let len = self.bitmap.len();
                proof {
                    assert(index < len);
                }
                self.index = self.bitmap.next_occupied(index + 1);
                Some(index)
            },
        }
    }
}

} // verus!
