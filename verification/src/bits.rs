//! Counting the bits of a word, and reading and writing fields of one.
use vstd::prelude::*;

verus! {

/// The number of ones in the binary representation of `x`.
pub open spec fn popcount(x: u64) -> nat
    decreases x,
{
    if x == 0 {
        0
    } else {
        (x % 2) as nat + popcount(x / 2)
    }
}

/// `u64::count_ones` returns the number of ones in the binary representation
/// of its argument.
pub assume_specification[ u64::count_ones ](x: u64) -> (r: u32)
    ensures
        r == popcount(x),
;

/// The field of `word` that starts at bit `shift` and that `mask`, moved to
/// bit 0, covers.
pub open spec fn field(word: u64, shift: u64, mask: u64) -> u64 {
    (word >> shift) & mask
}

/// `word` with that field replaced by `value`, and no other bit changed.
pub open spec fn with_field(word: u64, shift: u64, mask: u64, value: u64) -> u64 {
    (word & !(mask << shift)) | (value << shift)
}

/// Writing a field stores the value and leaves every bit outside the field as
/// it was.
pub proof fn law_with_field(word: u64, shift: u64, mask: u64, value: u64)
    requires
        shift < 64,
        (mask << shift) >> shift == mask,
        value & !mask == 0,
    ensures
        field(with_field(word, shift, mask, value), shift, mask) == value,
        with_field(word, shift, mask, value) & !(mask << shift) == word & !(mask << shift),
{
    assert(((word & !(mask << shift)) | (value << shift)) >> shift & mask == value
        && ((word & !(mask << shift)) | (value << shift)) & !(mask << shift) == word & !(mask
        << shift)) by (bit_vector)
        requires
            shift < 64,
            (mask << shift) >> shift == mask,
            value & !mask == 0,
    ;
}

/// A number below `2^n` has at most `n` ones.
proof fn lemma_popcount_below(x: u64, n: nat)
    requires
        x < vstd::arithmetic::power2::pow2(n),
    ensures
        popcount(x) <= n,
    decreases n,
{
    if n == 0 {
        vstd::arithmetic::power2::lemma2_to64();
    } else if x != 0 {
        vstd::arithmetic::power2::lemma_pow2_unfold(n);
        lemma_popcount_below(x / 2, (n - 1) as nat);
    }
}

/// A word has at most 64 ones.
pub proof fn lemma_popcount_bound(x: u64)
    ensures
        popcount(x) <= 64,
{
    vstd::arithmetic::power2::lemma2_to64();
    lemma_popcount_below(x, 64);
}

/// Only zero has no ones.
pub proof fn lemma_popcount_zero(x: u64)
    ensures
        popcount(x) == 0 <==> x == 0,
    decreases x,
{
    if x != 0 {
        lemma_popcount_zero(x / 2);
    }
}

/// An exclusive or has no more ones than its two operands together.
pub proof fn lemma_popcount_xor(a: u64, b: u64)
    ensures
        popcount(a ^ b) <= popcount(a) + popcount(b),
    decreases a + b,
{
    if a == 0 {
        assert(0u64 ^ b == b) by (bit_vector);
    } else if b == 0 {
        assert(a ^ 0u64 == a) by (bit_vector);
    } else {
        assert((a ^ b) / 2 == (a / 2) ^ (b / 2)) by (bit_vector);
        assert((a ^ b) % 2 <= a % 2 + b % 2) by (bit_vector);
        lemma_popcount_xor(a / 2, b / 2);
    }
}

/// The ones of an exclusive or are even in number exactly where those of its
/// two operands together are.
pub proof fn lemma_popcount_xor_parity(a: u64, b: u64)
    ensures
        popcount(a ^ b) % 2 == (popcount(a) + popcount(b)) % 2,
    decreases a + b,
{
    if a == 0 {
        assert(0u64 ^ b == b) by (bit_vector);
    } else if b == 0 {
        assert(a ^ 0u64 == a) by (bit_vector);
    } else {
        assert((a ^ b) / 2 == (a / 2) ^ (b / 2)) by (bit_vector);
        assert((a ^ b) % 2 == (a % 2 + b % 2) % 2) by (bit_vector);
        lemma_popcount_xor_parity(a / 2, b / 2);
    }
}

/// The number of ones among the `n` lowest bits of `x`.
pub(crate) closed spec fn ones_below(x: u64, n: nat) -> nat
    decreases n,
{
    if n == 0 {
        0
    } else {
        ones_below(x, (n - 1) as nat) + ((x >> (n - 1) as u64) & 1) as nat
    }
}

/// The bits of `x` from bit 1 on are those of its half.
proof fn lemma_ones_below_half(x: u64, n: nat)
    requires
        n < 64,
    ensures
        ones_below(x, n + 1) == x % 2 + ones_below(x / 2, n),
    decreases n,
{
    reveal_with_fuel(ones_below, 2);
    if n == 0 {
        assert((x >> 0) & 1 == x % 2) by (bit_vector);
    } else {
        lemma_ones_below_half(x, (n - 1) as nat);
        let k = (n - 1) as u64;
        let m = n as u64;
        assert((x >> m) & 1 == ((x / 2) >> k) & 1) by (bit_vector)
            requires
                m == k + 1,
                m < 64,
        ;
    }
}

/// For a number below `2^n`, the `n` lowest bits hold all its ones.
proof fn lemma_popcount_below_all(x: u64, n: nat)
    requires
        n <= 64,
        x < vstd::arithmetic::power2::pow2(n),
    ensures
        popcount(x) == ones_below(x, n),
    decreases n,
{
    if n == 0 {
        vstd::arithmetic::power2::lemma2_to64();
    } else {
        vstd::arithmetic::power2::lemma_pow2_unfold(n);
        lemma_popcount_below_all(x / 2, (n - 1) as nat);
        lemma_ones_below_half(x, (n - 1) as nat);
    }
}

/// Counting bit by bit: `base` with one element more, `place(k)`, for each one
/// at a bit `k` below `n`.
pub(crate) proof fn lemma_count_bits<A>(x: u64, base: Set<A>, place: spec_fn(int) -> A, n: nat) -> (
    counted: Set<A>)
    requires
        n <= 64,
        base.finite(),
        forall|k: int, m: int| #![trigger place(k), place(m)] place(k) == place(m) ==> k == m,
        forall|k: int| !base.contains(#[trigger] place(k)),
    ensures
        counted.finite(),
        n == 64 ==> counted.len() == base.len() + popcount(x),
        counted.len() == base.len() + ones_below(x, n),
        forall|a: A| #[trigger]
            counted.contains(a) <==> base.contains(a) || exists|k: int|
                0 <= k < n && (x >> k as u64) & 1 == 1 && a == #[trigger] place(k),
    decreases n,
{
    if n == 64 {
        vstd::arithmetic::power2::lemma2_to64();
        lemma_popcount_below_all(x, 64);
    }
    if n == 0 {
        base
    } else {
        let k = n - 1;
        let fewer = lemma_count_bits(x, base, place, k as nat);
        let b = k as u64;
        assert((x >> b) & 1 == 0 || (x >> b) & 1 == 1) by (bit_vector);
        if (x >> k as u64) & 1 == 1 {
            let counted = fewer.insert(place(k));
            assert forall|a: A| #[trigger] counted.contains(a) <==> base.contains(a) || exists|m: int|
                0 <= m < n && (x >> m as u64) & 1 == 1 && a == #[trigger] place(m) by {
                if fewer.contains(a) && !base.contains(a) {
                    let m = choose|m: int|
                        0 <= m < k && (x >> m as u64) & 1 == 1 && a == #[trigger] place(m);
                    assert(a == place(m));
                }
                if a == place(k) {
                    assert(a == place(k));
                }
            }
            counted
        } else {
            fewer
        }
    }
}

/// The popcount of a word is the number of its bits that are set.
pub proof fn law_popcount_bits(x: u64)
    ensures
        Set::new(|k: int| 0 <= k < 64 && (x >> k as u64) & 1 == 1).finite(),
        Set::new(|k: int| 0 <= k < 64 && (x >> k as u64) & 1 == 1).len() == popcount(x),
{
    let place = |k: int| k;
    let counted = lemma_count_bits(x, Set::<int>::empty(), place, 64);
    assert forall|k: int| #[trigger] counted.contains(k) <==> 0 <= k < 64 && (x >> k as u64) & 1
        == 1 by {
        if 0 <= k < 64 && (x >> k as u64) & 1 == 1 {
            assert(k == place(k));
        }
    }
    assert(Set::new(|k: int| 0 <= k < 64 && (x >> k as u64) & 1 == 1) =~= counted);
}

/// A field's bits are those of the word from `shift` on, as far as the mask
/// covers them.
pub proof fn law_field_bits(word: u64, shift: u64, mask: u64, b: u64)
    requires
        shift + b < 64,
    ensures
        (field(word, shift, mask) >> b) & 1 == 1 <==> (word >> (shift + b) as u64) & 1 == 1 && (mask
            >> b) & 1 == 1,
{
    let at = (shift + b) as u64;
    assert((((word >> shift) & mask) >> b) & 1 == 1 <==> (word >> at) & 1 == 1 && (mask >> b) & 1
        == 1) by (bit_vector)
        requires
            at == shift + b,
            at < 64,
    ;
}

/// Writing a field takes the bits that the moved mask covers from the moved
/// value, and all others from the word.
pub proof fn law_with_field_bits(word: u64, shift: u64, mask: u64, value: u64, b: u64)
    requires
        shift < 64,
        b < 64,
        value & !mask == 0,
    ensures
        (with_field(word, shift, mask, value) >> b) & 1 == if ((mask << shift) >> b) & 1 == 1 {
            ((value << shift) >> b) & 1
        } else {
            (word >> b) & 1
        },
{
    assert((((word & !(mask << shift)) | (value << shift)) >> b) & 1 == if ((mask << shift) >> b)
        & 1 == 1 {
        ((value << shift) >> b) & 1
    } else {
        (word >> b) & 1
    }) by (bit_vector)
        requires
            shift < 64,
            b < 64,
            value & !mask == 0,
    ;
}

} // verus!
