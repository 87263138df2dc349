//! Fingerprints: folding content onto 32 words, and the Hamming distance
//! between the results.
use vstd::prelude::*;

use crate::bitpack::BitpackedVector;
use crate::bits::{
    lemma_count_bits, lemma_popcount_bound, lemma_popcount_xor, lemma_popcount_xor_parity,
    lemma_popcount_zero, popcount,
};
use crate::layout::{FINGERPRINT_BITS, FINGERPRINT_WORDS};

verus! {

// ---------------------------------------------------------------------------
// Model
// ---------------------------------------------------------------------------
/// The number of ones in all the words together.
pub open spec fn ones(words: Seq<u64>) -> nat
    decreases words.len(),
{
    if words.len() == 0 {
        0
    } else {
        ones(words.drop_last()) + popcount(words.last())
    }
}

/// The word by word exclusive or of two sequences of the same length.
pub open spec fn xor_words(a: Seq<u64>, b: Seq<u64>) -> Seq<u64> {
    Seq::new(a.len(), |i: int| a[i] ^ b[i])
}

/// The number of bit positions at which two sequences of the same length
/// differ.
pub open spec fn hamming(a: Seq<u64>, b: Seq<u64>) -> nat {
    ones(xor_words(a, b))
}

/// The exclusive or of the words at the indices that leave the remainder `i`
/// when divided by the fingerprint's length.
pub open spec fn lane(content: Seq<u64>, i: int) -> u64
    decreases content.len(),
{
    if content.len() == 0 {
        0
    } else if (content.len() - 1) % FINGERPRINT_WORDS as int == i {
        lane(content.drop_last(), i) ^ content.last()
    } else {
        lane(content.drop_last(), i)
    }
}

/// The fingerprint of `content`: one lane for each of its words.
pub open spec fn xor_fold(content: Seq<u64>) -> Seq<u64> {
    Seq::new(FINGERPRINT_WORDS as nat, |i: int| lane(content, i))
}

/// `n` zero words.
pub open spec fn zero_words(n: nat) -> Seq<u64> {
    Seq::new(n, |i: int| 0u64)
}

// ---------------------------------------------------------------------------
// Operations
// ---------------------------------------------------------------------------
/// Folds `content` onto a fingerprint by exclusive or.
pub fn xor_fold_fingerprint(content: &[u64]) -> (fp: [u64; FINGERPRINT_WORDS])
    ensures
        fp@ == xor_fold(content@),
{
    let mut fp: [u64; FINGERPRINT_WORDS] = [0u64; FINGERPRINT_WORDS];
    let mut i: usize = 0;
    assert(fp@ =~= xor_fold(content@.take(0)));
    while i < content.len()
        invariant
            i <= content@.len(),
            fp@ == xor_fold(content@.take(i as int)),
        decreases content@.len() - i,
    {
        let l: usize = i % FINGERPRINT_WORDS;
        proof {
            assert(content@.take(i + 1) =~= content@.take(i as int).push(content@[i as int]));
            lemma_fold_push(content@.take(i as int), content@[i as int]);
        }
        fp[l] = fp[l] ^ content[i];
        i = i + 1;
    }
    assert(content@.take(i as int) =~= content@);
    fp
}

/// The fingerprint of all the words of a vector.
pub fn fingerprint_from_10k(v: &BitpackedVector) -> (fp: [u64; FINGERPRINT_WORDS])
    ensures
        fp@ == xor_fold(v@),
{
    xor_fold_fingerprint(v.words())
}

/// The Hamming distance between two fingerprints.
pub fn fingerprint_distance(
    a: &[u64; FINGERPRINT_WORDS],
    b: &[u64; FINGERPRINT_WORDS],
) -> (d: u32)
    ensures
        d == hamming(a@, b@),
        d <= FINGERPRINT_BITS,
{
    let ghost x = xor_words(a@, b@);
    let mut total: u32 = 0;
    let mut i: usize = 0;
    while i < FINGERPRINT_WORDS
        invariant
            i <= FINGERPRINT_WORDS,
            x == xor_words(a@, b@),
            total == ones(x.take(i as int)),
            total <= 64 * i,
        decreases FINGERPRINT_WORDS - i,
    {
        proof {
            lemma_ones_take(x, i as int);
            lemma_popcount_bound(a@[i as int] ^ b@[i as int]);
        }
        total = total + (a[i] ^ b[i]).count_ones();
        i = i + 1;
    }
    assert(x.take(i as int) =~= x);
    total
}

/// The number of ones in a fingerprint.
pub(crate) fn fingerprint_ones(fp: &[u64; FINGERPRINT_WORDS]) -> (n: u32)
    ensures
        n == ones(fp@),
        n <= FINGERPRINT_BITS,
{
    let mut total: u32 = 0;
    let mut i: usize = 0;
    while i < FINGERPRINT_WORDS
        invariant
            i <= FINGERPRINT_WORDS,
            total == ones(fp@.take(i as int)),
            total <= 64 * i,
        decreases FINGERPRINT_WORDS - i,
    {
        proof {
            lemma_ones_take(fp@, i as int);
            lemma_popcount_bound(fp@[i as int]);
        }
        total = total + fp[i].count_ones();
        i = i + 1;
    }
    assert(fp@.take(i as int) =~= fp@);
    total
}

/// Whether two fingerprints hold the same words.
pub(crate) fn fingerprints_equal(
    a: &[u64; FINGERPRINT_WORDS],
    b: &[u64; FINGERPRINT_WORDS],
) -> (r: bool)
    ensures
        r == (a@ == b@),
{
    let mut i: usize = 0;
    while i < FINGERPRINT_WORDS
        invariant
            i <= FINGERPRINT_WORDS,
            forall|j: int| 0 <= j < i ==> a@[j] == b@[j],
        decreases FINGERPRINT_WORDS - i,
    {
        if a[i] != b[i] {
            return false;
        }
        i = i + 1;
    }
    assert(a@ =~= b@);
    true
}

// ---------------------------------------------------------------------------
// Lemmas on `ones`
// ---------------------------------------------------------------------------
/// A longer prefix counts one word more.
pub proof fn lemma_ones_take(s: Seq<u64>, i: int)
    requires
        0 <= i < s.len(),
    ensures
        ones(s.take(i + 1)) == ones(s.take(i)) + popcount(s[i]),
{
    assert(s.take(i + 1).drop_last() =~= s.take(i));
}

/// A prefix has no more ones than the whole.
pub proof fn lemma_ones_prefix(s: Seq<u64>, n: int)
    requires
        0 <= n <= s.len(),
    ensures
        ones(s.take(n)) <= ones(s),
    decreases s.len() - n,
{
    if n == s.len() {
        assert(s.take(n) =~= s);
    } else {
        lemma_ones_take(s, n);
        lemma_ones_prefix(s, n + 1);
    }
}

/// Words have at most 64 ones each.
pub proof fn lemma_ones_bound(s: Seq<u64>)
    ensures
        ones(s) <= 64 * s.len(),
    decreases s.len(),
{
    if s.len() > 0 {
        lemma_ones_bound(s.drop_last());
        lemma_popcount_bound(s.last());
    }
}

/// No ones are there exactly where every word is zero.
pub proof fn lemma_ones_zero(s: Seq<u64>)
    ensures
        ones(s) == 0 <==> s == zero_words(s.len()),
    decreases s.len(),
{
    if s.len() == 0 {
        assert(s =~= zero_words(0));
    } else {
        let rest = s.drop_last();
        lemma_ones_zero(rest);
        lemma_popcount_zero(s.last());
        if ones(s) == 0 {
            assert forall|i: int| 0 <= i < s.len() implies s[i] == 0 by {
                if i < rest.len() {
                    assert(s[i] == rest[i]);
                    assert(rest[i] == zero_words(rest.len())[i]);
                }
            }
            assert(s =~= zero_words(s.len()));
        }
        if s == zero_words(s.len()) {
            assert(rest =~= zero_words(rest.len()));
        }
    }
}

/// Replacing one word replaces its share of the ones.
pub proof fn lemma_ones_update(s: Seq<u64>, i: int, v: u64)
    requires
        0 <= i < s.len(),
    ensures
        ones(s.update(i, v)) + popcount(s[i]) == ones(s) + popcount(v),
    decreases s.len(),
{
    let t = s.update(i, v);
    if i == s.len() - 1 {
        assert(t.drop_last() =~= s.drop_last());
    } else {
        assert(t.drop_last() =~= s.drop_last().update(i, v));
        lemma_ones_update(s.drop_last(), i, v);
    }
}

/// The exclusive or of two sequences has no more ones than both together.
pub proof fn lemma_ones_xor(a: Seq<u64>, b: Seq<u64>)
    requires
        a.len() == b.len(),
    ensures
        ones(xor_words(a, b)) <= ones(a) + ones(b),
    decreases a.len(),
{
    if a.len() > 0 {
        assert(xor_words(a, b).drop_last() =~= xor_words(a.drop_last(), b.drop_last()));
        lemma_ones_xor(a.drop_last(), b.drop_last());
        lemma_popcount_xor(a.last(), b.last());
    }
}

/// The set of the places, as pairs of a word and a bit, at which the words
/// hold a one.
proof fn lemma_ones_places(s: Seq<u64>) -> (places: Set<(int, int)>)
    ensures
        places.finite(),
        places.len() == ones(s),
        forall|p: (int, int)| #[trigger]
            places.contains(p) <==> 0 <= p.0 < s.len() && 0 <= p.1 < 64 && (s[p.0] >> p.1 as u64)
                & 1 == 1,
    decreases s.len(),
{
    if s.len() == 0 {
        Set::empty()
    } else {
        let n = s.len() - 1;
        let rest = s.drop_last();
        let base = lemma_ones_places(rest);
        let place = |k: int| (n, k);
        let places = lemma_count_bits(s.last(), base, place, 64);
        assert forall|p: (int, int)| #[trigger] places.contains(p) <==> 0 <= p.0 < s.len() && 0
            <= p.1 < 64 && (s[p.0] >> p.1 as u64) & 1 == 1 by {
            if p.0 == n {
                assert(p == place(p.1));
                assert(!base.contains(p));
            } else {
                assert(forall|k: int| p != #[trigger] place(k));
            }
        }
        places
    }
}

/// The places at which two sequences of words hold different bits are as many
/// as their distance.
proof fn lemma_distance_places(a: Seq<u64>, b: Seq<u64>) -> (places: Set<(int, int)>)
    requires
        a.len() == b.len(),
    ensures
        places.finite(),
        places.len() == hamming(a, b),
        forall|p: (int, int)| #[trigger]
            places.contains(p) <==> 0 <= p.0 < a.len() && 0 <= p.1 < 64 && (a[p.0] >> p.1 as u64)
                & 1 != (b[p.0] >> p.1 as u64) & 1,
{
    let places = lemma_ones_places(xor_words(a, b));
    assert forall|p: (int, int)| #[trigger] places.contains(p) <==> 0 <= p.0 < a.len() && 0 <= p.1
        < 64 && (a[p.0] >> p.1 as u64) & 1 != (b[p.0] >> p.1 as u64) & 1 by {
        if 0 <= p.0 < a.len() && 0 <= p.1 < 64 {
            law_xor_words_bits(a, b, p.0, p.1 as u64);
        }
    }
    places
}

// ---------------------------------------------------------------------------
// Lemmas on `xor_fold`
// ---------------------------------------------------------------------------
/// One more word of content changes one word of the fingerprint.
pub proof fn lemma_fold_push(s: Seq<u64>, w: u64)
    ensures
        ({
            let l = s.len() as int % FINGERPRINT_WORDS as int;
            xor_fold(s.push(w)) == xor_fold(s).update(l, xor_fold(s)[l] ^ w)
        }),
{
    let l = s.len() as int % FINGERPRINT_WORDS as int;
    assert(s.push(w).drop_last() =~= s);
    assert(xor_fold(s.push(w)) =~= xor_fold(s).update(l, xor_fold(s)[l] ^ w));
}

/// Content of at most 32 words is its own fingerprint, padded with zeros.
pub proof fn lemma_fold_short(s: Seq<u64>)
    requires
        s.len() <= FINGERPRINT_WORDS,
    ensures
        xor_fold(s) == Seq::new(
            FINGERPRINT_WORDS as nat,
            |i: int|
                if i < s.len() {
                    s[i]
                } else {
                    0
                },
        ),
    decreases s.len(),
{
    let padded = Seq::new(
        FINGERPRINT_WORDS as nat,
        |i: int|
            if i < s.len() {
                s[i]
            } else {
                0
            },
    );
    if s.len() > 0 {
        let rest = s.drop_last();
        lemma_fold_short(rest);
        assert(s =~= rest.push(s.last()));
        lemma_fold_push(rest, s.last());
        let w = s.last();
        assert(0u64 ^ w == w) by (bit_vector);
    }
    assert(xor_fold(s) =~= padded);
}

/// Folding never makes ones, and it loses them in pairs.
pub proof fn lemma_fold_ones(s: Seq<u64>)
    ensures
        ones(xor_fold(s)) <= ones(s),
        ones(xor_fold(s)) % 2 == ones(s) % 2,
    decreases s.len(),
{
    if s.len() == 0 {
        assert(xor_fold(s) =~= zero_words(FINGERPRINT_WORDS as nat));
        lemma_ones_zero(xor_fold(s));
    } else {
        let rest = s.drop_last();
        let w = s.last();
        let l = rest.len() as int % FINGERPRINT_WORDS as int;
        lemma_fold_ones(rest);
        assert(s =~= rest.push(w));
        lemma_fold_push(rest, w);
        lemma_ones_update(xor_fold(rest), l, xor_fold(rest)[l] ^ w);
        lemma_popcount_xor(xor_fold(rest)[l], w);
        lemma_popcount_xor_parity(xor_fold(rest)[l], w);
    }
}

// ---------------------------------------------------------------------------
// Laws of words
// ---------------------------------------------------------------------------
/// The ones of a sequence of words are the places, a word and a bit of it, at
/// which the bit is set.
pub proof fn law_ones_bits(words: Seq<u64>)
    ensures
        Set::new(
            |p: (int, int)|
                0 <= p.0 < words.len() && 0 <= p.1 < 64 && (words[p.0] >> p.1 as u64) & 1 == 1,
        ).finite(),
        Set::new(
            |p: (int, int)|
                0 <= p.0 < words.len() && 0 <= p.1 < 64 && (words[p.0] >> p.1 as u64) & 1 == 1,
        ).len() == ones(words),
{
    let places = lemma_ones_places(words);
    assert(Set::new(
        |p: (int, int)|
            0 <= p.0 < words.len() && 0 <= p.1 < 64 && (words[p.0] >> p.1 as u64) & 1 == 1,
    ) =~= places);
}

/// The exclusive or of two sequences has at each bit of each word a one
/// exactly where their bits differ.
pub proof fn law_xor_words_bits(a: Seq<u64>, b: Seq<u64>, i: int, k: u64)
    requires
        a.len() == b.len(),
        0 <= i < a.len(),
        k < 64,
    ensures
        xor_words(a, b).len() == a.len(),
        (xor_words(a, b)[i] >> k) & 1 == 1 <==> (a[i] >> k) & 1 != (b[i] >> k) & 1,
{
    let u = a[i];
    let v = b[i];
    assert(((u ^ v) >> k) & 1 == 1 <==> (u >> k) & 1 != (v >> k) & 1) by (bit_vector);
}

/// Zero words are zero.
pub proof fn law_zero_words(n: nat)
    ensures
        zero_words(n).len() == n,
        forall|i: int| 0 <= i < n ==> zero_words(n)[i] == 0,
{
}

// ---------------------------------------------------------------------------
// Laws of the distance
// ---------------------------------------------------------------------------
/// The distance is the number of places, a word and a bit of it, at which the
/// two hold different bits.
pub proof fn law_distance_bits(a: Seq<u64>, b: Seq<u64>)
    requires
        a.len() == b.len(),
    ensures
        Set::new(
            |p: (int, int)|
                0 <= p.0 < a.len() && 0 <= p.1 < 64 && (a[p.0] >> p.1 as u64) & 1 != (b[p.0]
                    >> p.1 as u64) & 1,
        ).finite(),
        Set::new(
            |p: (int, int)|
                0 <= p.0 < a.len() && 0 <= p.1 < 64 && (a[p.0] >> p.1 as u64) & 1 != (b[p.0]
                    >> p.1 as u64) & 1,
        ).len() == hamming(a, b),
{
    let places = lemma_distance_places(a, b);
    assert(Set::new(
        |p: (int, int)|
            0 <= p.0 < a.len() && 0 <= p.1 < 64 && (a[p.0] >> p.1 as u64) & 1 != (b[p.0]
                >> p.1 as u64) & 1,
    ) =~= places);
}

/// Flipping a bit in which two sequences agree puts them one further apart,
/// and flipping one in which they differ brings them one closer.
pub proof fn law_distance_flip(a: Seq<u64>, b: Seq<u64>, i: int, k: u64)
    requires
        a.len() == b.len(),
        0 <= i < a.len(),
        k < 64,
    ensures
        (a[i] >> k) & 1 == (b[i] >> k) & 1 ==> hamming(a.update(i, a[i] ^ (1u64 << k)), b)
            == hamming(a, b) + 1,
        (a[i] >> k) & 1 != (b[i] >> k) & 1 ==> hamming(a.update(i, a[i] ^ (1u64 << k)), b)
            == hamming(a, b) - 1,
{
    let flipped = a.update(i, a[i] ^ (1u64 << k));
    let before = lemma_distance_places(a, b);
    let after = lemma_distance_places(flipped, b);
    let here = (i, k as int);
    assert forall|p: (int, int)| p != here implies after.contains(p) == #[trigger] before.contains(
        p,
    ) by {
        if p.0 == i && 0 <= p.1 < 64 {
            let u = a[i];
            let m = p.1 as u64;
            assert(m != k && m < 64 && k < 64 ==> ((u ^ (1u64 << k)) >> m) & 1 == (u >> m) & 1)
                by (bit_vector);
        }
    }
    let u = a[i];
    let v = b[i];
    assert(k < 64 ==> (((u ^ (1u64 << k)) >> k) & 1 != (v >> k) & 1) == ((u >> k) & 1 == (v >> k)
        & 1)) by (bit_vector);
    if (u >> k) & 1 == (v >> k) & 1 {
        assert(after =~= before.insert(here));
    } else {
        assert(before =~= after.insert(here));
    }
}

/// The distance of what is put together is the sum of the distances of the
/// parts.
pub proof fn law_distance_sum(a: Seq<u64>, b: Seq<u64>, c: Seq<u64>, d: Seq<u64>)
    requires
        a.len() == b.len(),
        c.len() == d.len(),
    ensures
        hamming(a + c, b + d) == hamming(a, b) + hamming(c, d),
    decreases c.len(),
{
    if c.len() == 0 {
        assert(a + c =~= a);
        assert(b + d =~= b);
    } else {
        let c0 = c.drop_last();
        let d0 = d.drop_last();
        law_distance_sum(a, b, c0, d0);
        assert(xor_words(a + c, b + d).drop_last() =~= xor_words(a + c0, b + d0));
        assert(xor_words(c, d).drop_last() =~= xor_words(c0, d0));
    }
}

/// Two fingerprints are at distance zero exactly where they are equal.
pub proof fn law_distance_zero(a: Seq<u64>, b: Seq<u64>)
    requires
        a.len() == b.len(),
    ensures
        hamming(a, b) == 0 <==> a == b,
{
    let x = xor_words(a, b);
    lemma_ones_zero(x);
    if a == b {
        assert forall|i: int| 0 <= i < a.len() implies x[i] == 0 by {
            let w = a[i];
            assert(w ^ w == 0) by (bit_vector);
        }
        assert(x =~= zero_words(x.len()));
    }
    if hamming(a, b) == 0 {
        assert forall|i: int| 0 <= i < a.len() implies a[i] == b[i] by {
            let u = a[i];
            let v = b[i];
            assert(x[i] == zero_words(x.len())[i]);
            assert(u ^ v == 0 ==> u == v) by (bit_vector);
        }
        assert(a =~= b);
    }
}

/// The distance does not depend on the order of its arguments.
pub proof fn law_distance_symmetric(a: Seq<u64>, b: Seq<u64>)
    requires
        a.len() == b.len(),
    ensures
        hamming(a, b) == hamming(b, a),
{
    assert forall|i: int| 0 <= i < a.len() implies a[i] ^ b[i] == b[i] ^ a[i] by {
        let u = a[i];
        let v = b[i];
        assert(u ^ v == v ^ u) by (bit_vector);
    }
    assert(xor_words(a, b) =~= xor_words(b, a));
}

/// The distance meets the triangle inequality.
pub proof fn law_distance_triangle(a: Seq<u64>, b: Seq<u64>, c: Seq<u64>)
    requires
        a.len() == b.len(),
        b.len() == c.len(),
    ensures
        hamming(a, c) <= hamming(a, b) + hamming(b, c),
{
    let x = xor_words(a, b);
    let y = xor_words(b, c);
    assert forall|i: int| 0 <= i < a.len() implies a[i] ^ c[i] == x[i] ^ y[i] by {
        let u = a[i];
        let v = b[i];
        let w = c[i];
        assert(u ^ w == (u ^ v) ^ (v ^ w)) by (bit_vector);
    }
    assert(xor_words(a, c) =~= xor_words(x, y));
    lemma_ones_xor(x, y);
}

/// No two fingerprints are further apart than they have bits.
pub proof fn law_distance_bound(a: Seq<u64>, b: Seq<u64>)
    requires
        a.len() == FINGERPRINT_WORDS,
        b.len() == FINGERPRINT_WORDS,
    ensures
        hamming(a, b) <= FINGERPRINT_BITS,
{
    lemma_ones_bound(xor_words(a, b));
}

// ---------------------------------------------------------------------------
// Laws of the fold
// ---------------------------------------------------------------------------
/// A bit of a fingerprint word is set exactly where an odd number of the
/// content words that fold onto it, those at indices with its remainder, have
/// the bit set.
pub proof fn law_fold_bits(content: Seq<u64>, i: int, k: u64)
    requires
        0 <= i < FINGERPRINT_WORDS,
        k < 64,
    ensures
        xor_fold(content).len() == FINGERPRINT_WORDS,
        Set::new(
            |j: int|
                0 <= j < content.len() && j % FINGERPRINT_WORDS as int == i && (content[j] >> k) & 1
                    == 1,
        ).finite(),
        (xor_fold(content)[i] >> k) & 1 == Set::new(
            |j: int|
                0 <= j < content.len() && j % FINGERPRINT_WORDS as int == i && (content[j] >> k) & 1
                    == 1,
        ).len() % 2,
{
    let set = lemma_lane_bits(content, i, k);
    assert(Set::new(
        |j: int|
            0 <= j < content.len() && j % FINGERPRINT_WORDS as int == i && (content[j] >> k) & 1
                == 1,
    ) =~= set);
}

/// The indices of the words of a lane that have bit `k` set.
proof fn lemma_lane_bits(content: Seq<u64>, i: int, k: u64) -> (set: Set<int>)
    requires
        0 <= i < FINGERPRINT_WORDS,
        k < 64,
    ensures
        set.finite(),
        (lane(content, i) >> k) & 1 == set.len() % 2,
        forall|j: int| #[trigger]
            set.contains(j) <==> 0 <= j < content.len() && j % FINGERPRINT_WORDS as int == i && (
            content[j] >> k) & 1 == 1,
    decreases content.len(),
{
    if content.len() == 0 {
        assert((0u64 >> k) & 1 == 0) by (bit_vector);
        Set::empty()
    } else {
        let n = content.len() - 1;
        let rest = lemma_lane_bits(content.drop_last(), i, k);
        let p = lane(content.drop_last(), i);
        let w = content.last();
        assert(((p ^ w) >> k) & 1 == ((p >> k) & 1) ^ ((w >> k) & 1) && ((p >> k) & 1) < 2 && ((w
            >> k) & 1) < 2 && 0u64 ^ 0u64 == 0 && 0u64 ^ 1u64 == 1 && 1u64 ^ 0u64 == 1 && 1u64
            ^ 1u64 == 0) by (bit_vector);
        let set = if n % FINGERPRINT_WORDS as int == i && (w >> k) & 1 == 1 {
            rest.insert(n)
        } else {
            rest
        };
        assert(!rest.contains(n));
        set
    }
}

/// Folding commutes with the exclusive or.
pub proof fn law_fold_linear(a: Seq<u64>, b: Seq<u64>)
    requires
        a.len() == b.len(),
    ensures
        xor_fold(xor_words(a, b)) == xor_words(xor_fold(a), xor_fold(b)),
    decreases a.len(),
{
    let folded = xor_words(xor_fold(a), xor_fold(b));
    if a.len() == 0 {
        assert(0u64 ^ 0u64 == 0) by (bit_vector);
    } else {
        let a0 = a.drop_last();
        let b0 = b.drop_last();
        let x0 = xor_words(a0, b0);
        let u = a.last();
        let v = b.last();
        let l = a0.len() as int % FINGERPRINT_WORDS as int;
        law_fold_linear(a0, b0);
        assert(a =~= a0.push(u));
        assert(b =~= b0.push(v));
        assert(xor_words(a, b) =~= x0.push(u ^ v));
        lemma_fold_push(a0, u);
        lemma_fold_push(b0, v);
        lemma_fold_push(x0, u ^ v);
        let p = xor_fold(a0)[l];
        let q = xor_fold(b0)[l];
        assert((p ^ u) ^ (q ^ v) == (p ^ q) ^ (u ^ v)) by (bit_vector);
    }
    assert(xor_fold(xor_words(a, b)) =~= folded);
}

/// Close content has close fingerprints: folding never puts two contents of
/// the same length further apart than they were.
pub proof fn law_fold_contracts(a: Seq<u64>, b: Seq<u64>)
    requires
        a.len() == b.len(),
    ensures
        hamming(xor_fold(a), xor_fold(b)) <= hamming(a, b),
{
    law_fold_linear(a, b);
    lemma_fold_ones(xor_words(a, b));
}

/// Folding keeps the parity of the distance, so contents at an odd distance
/// never share a fingerprint.
pub proof fn law_fold_parity(a: Seq<u64>, b: Seq<u64>)
    requires
        a.len() == b.len(),
    ensures
        hamming(xor_fold(a), xor_fold(b)) % 2 == hamming(a, b) % 2,
        hamming(a, b) % 2 == 1 ==> xor_fold(a) != xor_fold(b),
{
    law_fold_linear(a, b);
    lemma_fold_ones(xor_words(a, b));
    law_distance_zero(xor_fold(a), xor_fold(b));
}

/// Content that follows a whole number of fingerprint lengths folds on its
/// own: the fingerprint of the whole is the exclusive or of the two.
pub proof fn law_fold_concat(a: Seq<u64>, b: Seq<u64>)
    requires
        a.len() % FINGERPRINT_WORDS as nat == 0,
    ensures
        xor_fold(a + b) == xor_words(xor_fold(a), xor_fold(b)),
    decreases b.len(),
{
    let folded = xor_words(xor_fold(a), xor_fold(b));
    if b.len() == 0 {
        assert(a + b =~= a);
        assert forall|i: int| 0 <= i < FINGERPRINT_WORDS implies xor_fold(a)[i] == folded[i] by {
            let p = xor_fold(a)[i];
            assert(p ^ 0u64 == p) by (bit_vector);
        }
    } else {
        let b0 = b.drop_last();
        let w = b.last();
        let l = b0.len() as int % FINGERPRINT_WORDS as int;
        law_fold_concat(a, b0);
        assert(a + b =~= (a + b0).push(w));
        assert(b =~= b0.push(w));
        assert((a + b0).len() as int % FINGERPRINT_WORDS as int == l);
        lemma_fold_push(a + b0, w);
        lemma_fold_push(b0, w);
        let p = xor_fold(a)[l];
        let q = xor_fold(b0)[l];
        assert((p ^ q) ^ w == p ^ (q ^ w)) by (bit_vector);
    }
    assert(xor_fold(a + b) =~= folded);
}

/// Content without a one has the empty fingerprint.
pub proof fn law_fold_zero(n: nat)
    ensures
        xor_fold(zero_words(n)) == zero_words(FINGERPRINT_WORDS as nat),
{
    lemma_ones_zero(zero_words(n));
    lemma_fold_ones(zero_words(n));
    lemma_ones_zero(xor_fold(zero_words(n)));
}

/// A change of a single word of the content always shows in the fingerprint.
pub proof fn law_fold_detects_word(content: Seq<u64>, i: int, w: u64)
    requires
        0 <= i < content.len(),
        content[i] != w,
    ensures
        xor_fold(content) != xor_fold(content.update(i, w)),
{
    let changed = content.update(i, w);
    lemma_fold_single(content, i, w);
    let l = i % FINGERPRINT_WORDS as int;
    let p = xor_fold(content)[l];
    let old_word = content[i];
    assert(old_word != w ==> p ^ old_word ^ w != p) by (bit_vector);
    assert(xor_fold(changed)[l] != xor_fold(content)[l]);
}

/// Changing the word at `i` changes the lane of `i` by the difference.
proof fn lemma_fold_single(content: Seq<u64>, i: int, w: u64)
    requires
        0 <= i < content.len(),
    ensures
        ({
            let l = i % FINGERPRINT_WORDS as int;
            xor_fold(content.update(i, w)) == xor_fold(content).update(
                l,
                xor_fold(content)[l] ^ content[i] ^ w,
            )
        }),
    decreases content.len(),
{
    let l = i % FINGERPRINT_WORDS as int;
    let changed = content.update(i, w);
    let rest = content.drop_last();
    let last = content.last();
    let k = rest.len() as int % FINGERPRINT_WORDS as int;
    assert(content =~= rest.push(last));
    lemma_fold_push(rest, last);
    let p = xor_fold(rest)[l];
    let u = content[i];
    if i == content.len() - 1 {
        assert(changed =~= rest.push(w));
        lemma_fold_push(rest, w);
        assert(p ^ u ^ u ^ w == p ^ w) by (bit_vector);
    } else {
        assert(changed =~= rest.update(i, w).push(last));
        lemma_fold_single(rest, i, w);
        lemma_fold_push(rest.update(i, w), last);
        assert(p ^ last ^ u ^ w == p ^ u ^ w ^ last) by (bit_vector);
    }
    assert(xor_fold(changed) =~= xor_fold(content).update(
        l,
        xor_fold(content)[l] ^ content[i] ^ w,
    ));
}

} // verus!
