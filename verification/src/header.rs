//! The header of a record: 32 words of metadata and a 32-word fingerprint.
use vstd::prelude::*;

use crate::bits::{field, with_field};
use crate::fingerprint::{
    fingerprint_distance, fingerprint_ones, fingerprints_equal, hamming, law_distance_zero,
    lemma_ones_zero, ones, zero_words,
};
use crate::kind::{ContainerKind, WidthVariant};
use crate::layout::{
    FINGERPRINT_BITS, FINGERPRINT_WORDS, HEADER_BYTES, HEADER_WORDS, META_WORDS, M_DISCRIMINANT,
    M_DN_TYPE,
};

verus! {

/// The header, which stands at the start of every record.
pub struct CamHeader {
    /// Metadata (words 0-31).
    pub meta: [u64; META_WORDS],
    /// Fingerprint of the content (words 32-63).
    pub fingerprint: [u64; FINGERPRINT_WORDS],
}

/// A header stands for its 64 words.
impl View for CamHeader {
    type V = Seq<u64>;

    open spec fn view(&self) -> Seq<u64> {
        self.meta@ + self.fingerprint@
    }
}

/// The byte of `word` at place `k`, counted from the least significant.
pub open spec fn byte_of(word: u64, k: int) -> u8 {
    ((word >> (8 * k) as u64) & 0xFF) as u8
}

/// The bytes of a sequence of words: each word from its least significant byte
/// on where `little` is set, and otherwise from its most significant byte on.
pub open spec fn bytes_of(words: Seq<u64>, little: bool) -> Seq<u8> {
    Seq::new(
        8 * words.len(),
        |i: int|
            byte_of(
                words[i / 8],
                if little {
                    i % 8
                } else {
                    7 - i % 8
                },
            ),
    )
}

/// The bytes of a word as they stand in memory.
///
/// `u64::to_ne_bytes` returns the bytes of its argument in the order of the
/// machine: from the least significant byte on, or from the most significant
/// byte on. Which of the two it is depends on the machine and is left unsaid.
#[verifier::external_body]
fn native_bytes(x: u64) -> (r: [u8; 8])
    ensures
        r@ == bytes_of(seq![x], true) || r@ == bytes_of(seq![x], false),
{
    x.to_ne_bytes()
}

// ---------------------------------------------------------------------------
// Fields of the metadata
// ---------------------------------------------------------------------------
impl CamHeader {
    /// The container kind (word 0, bits 0-3).
    pub open spec fn kind_field(self) -> Option<ContainerKind> {
        ContainerKind::of_code(field(self.meta@[M_DISCRIMINANT as int], 0, 0x0F) as u8)
    }

    /// The width variant (word 0, bits 4-7).
    pub open spec fn width_field(self) -> Option<WidthVariant> {
        WidthVariant::of_code(field(self.meta@[M_DISCRIMINANT as int], 4, 0x0F) as u8)
    }

    /// The version (word 0, bits 8-15).
    pub open spec fn version_field(self) -> u8 {
        field(self.meta@[M_DISCRIMINANT as int], 8, 0xFF) as u8
    }

    /// The rung (word 1, bits 8-15).
    pub open spec fn rung_field(self) -> u8 {
        field(self.meta@[M_DN_TYPE as int], 8, 0xFF) as u8
    }

    /// The depth (word 1, bits 16-23).
    pub open spec fn depth_field(self) -> u8 {
        field(self.meta@[M_DN_TYPE as int], 16, 0xFF) as u8
    }
}

impl Default for CamHeader {
    fn default() -> (h: Self)
        ensures
            h.meta@ == zero_words(META_WORDS as nat),
            h.fingerprint@ == zero_words(FINGERPRINT_WORDS as nat),
    {
        let h = CamHeader { meta: [0u64; META_WORDS], fingerprint: [0u64; FINGERPRINT_WORDS] };
        assert(h.meta@ =~= zero_words(META_WORDS as nat));
        assert(h.fingerprint@ =~= zero_words(FINGERPRINT_WORDS as nat));
        h
    }
}

impl Clone for CamHeader {
    fn clone(&self) -> (h: Self)
        ensures
            h == *self,
    {
        CamHeader { meta: self.meta, fingerprint: self.fingerprint }
    }
}

impl CamHeader {
    /// A header of zero words.
    pub fn zero() -> (h: Self)
        ensures
            h.meta@ == zero_words(META_WORDS as nat),
            h.fingerprint@ == zero_words(FINGERPRINT_WORDS as nat),
    {
        CamHeader::default()
    }

    /// Reads the container kind; `None` where the bits name no kind.
    pub fn container_kind(&self) -> (r: Option<ContainerKind>)
        ensures
            r == self.kind_field(),
    {
        let word: u64 = self.meta[M_DISCRIMINANT];
        assert((word >> 0) & 0x0F == word & 0x0F) by (bit_vector);
        ContainerKind::from_u8((word & 0x0F) as u8)
    }

    /// Sets the container kind.
    pub fn set_container_kind(&mut self, kind: ContainerKind)
        ensures
            final(self).kind_field() == Some(kind),
            final(self).width_field() == old(self).width_field(),
            final(self).version_field() == old(self).version_field(),
            final(self).meta@ == old(self).meta@.update(
                M_DISCRIMINANT as int,
                with_field(old(self).meta@[M_DISCRIMINANT as int], 0, 0x0F, kind.code() as u64),
            ),
            final(self).fingerprint == old(self).fingerprint,
    {
        let word: u64 = self.meta[M_DISCRIMINANT];
        let code: u64 = kind.to_u8() as u64;
        self.meta[M_DISCRIMINANT] = (word & !0x0Fu64) | code;
        proof {
            assert(code <= 0x0F ==> {
                let w = (word & !0x0Fu64) | code;
                &&& w == (word & !(0x0Fu64 << 0)) | (code << 0)
                &&& (w >> 0) & 0x0F == code
                &&& (w >> 4) & 0x0F == (word >> 4) & 0x0F
                &&& (w >> 8) & 0xFF == (word >> 8) & 0xFF
            }) by (bit_vector);
        }
    }

    /// Reads the width variant; `None` where the bits name no width.
    pub fn width_variant(&self) -> (r: Option<WidthVariant>)
        ensures
            r == self.width_field(),
    {
        match ((self.meta[M_DISCRIMINANT] >> 4) & 0x0F) as u8 {
            0 => Some(WidthVariant::W10K),
            1 => Some(WidthVariant::W16K),
            2 => Some(WidthVariant::W32K),
            _ => None,
        }
    }

    /// Sets the width variant.
    pub fn set_width_variant(&mut self, w: WidthVariant)
        ensures
            final(self).width_field() == Some(w),
            final(self).kind_field() == old(self).kind_field(),
            final(self).version_field() == old(self).version_field(),
            final(self).meta@ == old(self).meta@.update(
                M_DISCRIMINANT as int,
                with_field(old(self).meta@[M_DISCRIMINANT as int], 4, 0x0F, w.code() as u64),
            ),
            final(self).fingerprint == old(self).fingerprint,
    {
        let word: u64 = self.meta[M_DISCRIMINANT];
        let code: u64 = w.to_u8() as u64;
        self.meta[M_DISCRIMINANT] = (word & !0xF0u64) | (code << 4);
        proof {
            assert(code <= 0x0F ==> {
                let w = (word & !0xF0u64) | (code << 4);
                &&& w == (word & !(0x0Fu64 << 4)) | (code << 4)
                &&& (w >> 0) & 0x0F == (word >> 0) & 0x0F
                &&& (w >> 4) & 0x0F == code
                &&& (w >> 8) & 0xFF == (word >> 8) & 0xFF
            }) by (bit_vector);
        }
    }

    /// Reads the version.
    pub fn version(&self) -> (r: u8)
        ensures
            r == self.version_field(),
    {
        ((self.meta[M_DISCRIMINANT] >> 8) & 0xFF) as u8
    }

    /// Sets the version.
    pub fn set_version(&mut self, v: u8)
        ensures
            final(self).version_field() == v,
            final(self).kind_field() == old(self).kind_field(),
            final(self).width_field() == old(self).width_field(),
            final(self).meta@ == old(self).meta@.update(
                M_DISCRIMINANT as int,
                with_field(old(self).meta@[M_DISCRIMINANT as int], 8, 0xFF, v as u64),
            ),
            final(self).fingerprint == old(self).fingerprint,
    {
        let word: u64 = self.meta[M_DISCRIMINANT];
        let value: u64 = v as u64;
        self.meta[M_DISCRIMINANT] = (word & !(0xFFu64 << 8)) | (value << 8);
        proof {
            assert(value <= 0xFF ==> {
                let w = (word & !(0xFFu64 << 8)) | (value << 8);
                &&& (w >> 0) & 0x0F == (word >> 0) & 0x0F
                &&& (w >> 4) & 0x0F == (word >> 4) & 0x0F
                &&& (w >> 8) & 0xFF == value
            }) by (bit_vector);
        }
    }

    /// Reads the rung.
    pub fn rung(&self) -> (r: u8)
        ensures
            r == self.rung_field(),
    {
        ((self.meta[M_DN_TYPE] >> 8) & 0xFF) as u8
    }

    /// Sets the rung.
    pub fn set_rung(&mut self, rung: u8)
        ensures
            final(self).rung_field() == rung,
            final(self).depth_field() == old(self).depth_field(),
            final(self).meta@ == old(self).meta@.update(
                M_DN_TYPE as int,
                with_field(old(self).meta@[M_DN_TYPE as int], 8, 0xFF, rung as u64),
            ),
            final(self).fingerprint == old(self).fingerprint,
    {
        let word: u64 = self.meta[M_DN_TYPE];
        let value: u64 = rung as u64;
        self.meta[M_DN_TYPE] = (word & !(0xFFu64 << 8)) | (value << 8);
        proof {
            assert(value <= 0xFF ==> {
                let w = (word & !(0xFFu64 << 8)) | (value << 8);
                &&& (w >> 8) & 0xFF == value
                &&& (w >> 16) & 0xFF == (word >> 16) & 0xFF
            }) by (bit_vector);
        }
    }

    /// Reads the depth.
    pub fn depth(&self) -> (r: u8)
        ensures
            r == self.depth_field(),
    {
        ((self.meta[M_DN_TYPE] >> 16) & 0xFF) as u8
    }

    /// Sets the depth.
    pub fn set_depth(&mut self, depth: u8)
        ensures
            final(self).depth_field() == depth,
            final(self).rung_field() == old(self).rung_field(),
            final(self).meta@ == old(self).meta@.update(
                M_DN_TYPE as int,
                with_field(old(self).meta@[M_DN_TYPE as int], 16, 0xFF, depth as u64),
            ),
            final(self).fingerprint == old(self).fingerprint,
    {
        let word: u64 = self.meta[M_DN_TYPE];
        let value: u64 = depth as u64;
        self.meta[M_DN_TYPE] = (word & !(0xFFu64 << 16)) | (value << 16);
        proof {
            assert(value <= 0xFF ==> {
                let w = (word & !(0xFFu64 << 16)) | (value << 16);
                &&& (w >> 8) & 0xFF == (word >> 8) & 0xFF
                &&& (w >> 16) & 0xFF == value
            }) by (bit_vector);
        }
    }
}

// ---------------------------------------------------------------------------
// Fingerprint
// ---------------------------------------------------------------------------
impl CamHeader {
    /// Whether both headers carry the same fingerprint.
    pub fn fingerprint_match(&self, other: &CamHeader) -> (r: bool)
        ensures
            r == (self.fingerprint@ == other.fingerprint@),
    {
        fingerprints_equal(&self.fingerprint, &other.fingerprint)
    }

    /// The Hamming distance between the two fingerprints.
    pub fn fingerprint_distance(&self, other: &CamHeader) -> (d: u32)
        ensures
            d == hamming(self.fingerprint@, other.fingerprint@),
            d <= FINGERPRINT_BITS,
    {
        fingerprint_distance(&self.fingerprint, &other.fingerprint)
    }

    /// Whether the fingerprint is all zeros.
    pub fn fingerprint_is_empty(&self) -> (r: bool)
        ensures
            r == (self.fingerprint@ == zero_words(FINGERPRINT_WORDS as nat)),
    {
        let mut i: usize = 0;
        while i < FINGERPRINT_WORDS
            invariant
                i <= FINGERPRINT_WORDS,
                forall|j: int| 0 <= j < i ==> self.fingerprint@[j] == 0,
            decreases FINGERPRINT_WORDS - i,
        {
            if self.fingerprint[i] != 0 {
                assert(self.fingerprint@[i as int] != zero_words(FINGERPRINT_WORDS as nat)[i as int]);
                return false;
            }
            i = i + 1;
        }
        assert(self.fingerprint@ =~= zero_words(FINGERPRINT_WORDS as nat));
        true
    }

    /// The number of ones in the fingerprint.
    pub fn fingerprint_popcount(&self) -> (n: u32)
        ensures
            n == ones(self.fingerprint@),
            n <= FINGERPRINT_BITS,
    {
        fingerprint_ones(&self.fingerprint)
    }
}

// ---------------------------------------------------------------------------
// Serialization
// ---------------------------------------------------------------------------
impl CamHeader {
    /// Writes the header to the first 64 words of `buf`.
    pub fn write_to(&self, buf: &mut [u64])
        requires
            old(buf)@.len() >= HEADER_WORDS,
        ensures
            final(buf)@ == self@ + old(buf)@.skip(HEADER_WORDS as int),
            final(buf)@.len() == old(buf)@.len(),
            forall|i: int| 0 <= i < META_WORDS ==> final(buf)@[i] == self.meta@[i],
            forall|i: int|
                META_WORDS <= i < HEADER_WORDS ==> final(buf)@[i] == self.fingerprint@[i
                    - META_WORDS],
            forall|i: int| HEADER_WORDS <= i < old(buf)@.len() ==> final(buf)@[i] == old(buf)@[i],
    {
        let ghost before = buf@;
        let mut i: usize = 0;
        while i < META_WORDS
            invariant
                i <= META_WORDS,
                before.len() >= HEADER_WORDS,
                buf@.len() == before.len(),
                forall|j: int| 0 <= j < i ==> buf@[j] == self.meta@[j],
                forall|j: int| i <= j < before.len() ==> buf@[j] == before[j],
            decreases META_WORDS - i,
        {
            buf[i] = self.meta[i];
            i = i + 1;
        }
        let mut k: usize = 0;
        while k < FINGERPRINT_WORDS
            invariant
                k <= FINGERPRINT_WORDS,
                before.len() >= HEADER_WORDS,
                buf@.len() == before.len(),
                forall|j: int| 0 <= j < META_WORDS ==> buf@[j] == self.meta@[j],
                forall|j: int|
                    META_WORDS <= j < META_WORDS + k ==> buf@[j] == self.fingerprint@[j
                        - META_WORDS],
                forall|j: int| META_WORDS + k <= j < before.len() ==> buf@[j] == before[j],
            decreases FINGERPRINT_WORDS - k,
        {
            buf[META_WORDS + k] = self.fingerprint[k];
            k = k + 1;
        }
        assert(buf@ =~= self@ + before.skip(HEADER_WORDS as int));
    }

    /// Reads the header from the first 64 words of `buf`.
    pub fn read_from(buf: &[u64]) -> (h: Self)
        requires
            buf@.len() >= HEADER_WORDS,
        ensures
            h@ == buf@.take(HEADER_WORDS as int),
            h.meta@ == buf@.take(META_WORDS as int),
            h.fingerprint@ == buf@.subrange(META_WORDS as int, HEADER_WORDS as int),
            forall|i: int| 0 <= i < META_WORDS ==> h.meta@[i] == buf@[i],
            forall|i: int| 0 <= i < FINGERPRINT_WORDS ==> h.fingerprint@[i] == buf@[META_WORDS + i],
    {
        let mut h = CamHeader::zero();
        let mut i: usize = 0;
        while i < META_WORDS
            invariant
                i <= META_WORDS,
                buf@.len() >= HEADER_WORDS,
                forall|j: int| 0 <= j < i ==> h.meta@[j] == buf@[j],
            decreases META_WORDS - i,
        {
            h.meta[i] = buf[i];
            i = i + 1;
        }
        let mut k: usize = 0;
        while k < FINGERPRINT_WORDS
            invariant
                k <= FINGERPRINT_WORDS,
                buf@.len() >= HEADER_WORDS,
                forall|j: int| 0 <= j < META_WORDS ==> h.meta@[j] == buf@[j],
                forall|j: int| 0 <= j < k ==> h.fingerprint@[j] == buf@[META_WORDS + j],
            decreases FINGERPRINT_WORDS - k,
        {
            h.fingerprint[k] = buf[META_WORDS + k];
            k = k + 1;
        }
        assert(h.meta@ =~= buf@.take(META_WORDS as int));
        assert(h.fingerprint@ =~= buf@.subrange(META_WORDS as int, HEADER_WORDS as int));
        assert(h@ =~= buf@.take(HEADER_WORDS as int));
        h
    }

    /// The 512 bytes of the header as they stand in memory: its words in
    /// order, the bytes of each in the order of the machine. Which of the two
    /// orders that is depends on the machine.
    pub fn as_bytes(&self) -> (r: Vec<u8>)
        ensures
            r@ == bytes_of(self@, true) || r@ == bytes_of(self@, false),
            r@.len() == HEADER_BYTES,
            (forall|i: int|
                0 <= i < 512 ==> #[trigger] r@[i] == (((self.meta@ + self.fingerprint@)[i / 8] >> (8
                    * (i % 8)) as u64) & 0xFF) as u8) || (forall|i: int|
                0 <= i < 512 ==> #[trigger] r@[i] == (((self.meta@ + self.fingerprint@)[i / 8] >> (8
                    * (7 - i % 8)) as u64) & 0xFF) as u8),
    {
        let one: [u8; 8] = native_bytes(1);
        let little: bool = one[0] == 1;
        // The order chosen is the one in which the bytes of 1 came.
        assert(one@ == bytes_of(seq![1u64], little)) by {
            assert(((1u64 >> 0) & 0xFF) as u8 == 1u8) by (bit_vector);
            assert(((1u64 >> 56) & 0xFF) as u8 == 0u8) by (bit_vector);
            assert(bytes_of(seq![1u64], true)[0] == 1);
            assert(bytes_of(seq![1u64], false)[0] == 0);
        }
        self.bytes_in_order(little)
    }

    /// The 512 bytes of the header: its words in order, each from its least
    /// significant byte on where `little` is set, and otherwise from its most
    /// significant byte on.
    pub fn bytes_in_order(&self, little: bool) -> (r: Vec<u8>)
        ensures
            r@ == bytes_of(self@, little),
            r@.len() == HEADER_BYTES,
            forall|i: int|
                little && 0 <= i < 256 ==> #[trigger] r@[i] == ((self.meta@[i / 8] >> (8 * (i
                    % 8)) as u64) & 0xFF) as u8,
            forall|i: int|
                little && 256 <= i < 512 ==> #[trigger] r@[i] == ((self.fingerprint@[(i - 256) / 8]
                    >> (8 * (i % 8)) as u64) & 0xFF) as u8,
            forall|i: int|
                !little && 0 <= i < 256 ==> #[trigger] r@[i] == ((self.meta@[i / 8] >> (8 * (7 - i
                    % 8)) as u64) & 0xFF) as u8,
            forall|i: int|
                !little && 256 <= i < 512 ==> #[trigger] r@[i] == ((self.fingerprint@[(i - 256) / 8]
                    >> (8 * (7 - i % 8)) as u64) & 0xFF) as u8,
    {
        let mut out: Vec<u8> = Vec::with_capacity(HEADER_BYTES);
        let mut i: usize = 0;
        while i < HEADER_WORDS
            invariant
                i <= HEADER_WORDS,
                out@.len() == 8 * i,
                forall|j: int| 0 <= j < out@.len() ==> out@[j] == bytes_of(self@, little)[j],
            decreases HEADER_WORDS - i,
        {
            let word: u64 = if i < META_WORDS {
                self.meta[i]
            } else {
                self.fingerprint[i - META_WORDS]
            };
            assert(word == self@[i as int]);
            let mut k: u64 = 0;
            while k < 8
                invariant
                    k <= 8,
                    i < HEADER_WORDS,
                    word == self@[i as int],
                    out@.len() == 8 * i + k,
                    forall|j: int| 0 <= j < out@.len() ==> out@[j] == bytes_of(self@, little)[j],
                decreases 8 - k,
            {
                let place: u64 = if little {
                    k
                } else {
                    7 - k
                };
                out.push(((word >> (8 * place)) & 0xFF) as u8);
                k = k + 1;
            }
            i = i + 1;
        }
        assert(out@ =~= bytes_of(self@, little));
        out
    }
}

// ---------------------------------------------------------------------------
// Laws
// ---------------------------------------------------------------------------
/// A header stands for its metadata, word by word, and then its fingerprint.
pub proof fn law_header_layout(h: CamHeader, i: int)
    requires
        0 <= i < 32,
    ensures
        h@.len() == 64,
        h@[i] == h.meta@[i],
        h@[32 + i] == h.fingerprint@[i],
{
}

/// The fields as digits of the metadata words: of word 0 the lowest
/// hexadecimal digit is the kind, the next the width, and the second byte the
/// version; of word 1 the second byte is the rung and the third the depth.
pub proof fn law_header_fields(h: CamHeader)
    ensures
        h.kind_field() == Some(ContainerKind::Mono) <==> h.meta@[0] % 16 == 1,
        h.kind_field() == Some(ContainerKind::Dense) <==> h.meta@[0] % 16 == 2,
        h.kind_field() == Some(ContainerKind::Holo) <==> h.meta@[0] % 16 == 3,
        h.width_field() == Some(WidthVariant::W10K) <==> (h.meta@[0] / 16) % 16 == 0,
        h.width_field() == Some(WidthVariant::W16K) <==> (h.meta@[0] / 16) % 16 == 1,
        h.width_field() == Some(WidthVariant::W32K) <==> (h.meta@[0] / 16) % 16 == 2,
        h.version_field() == (h.meta@[0] / 256) % 256,
        h.rung_field() == (h.meta@[1] / 256) % 256,
        h.depth_field() == (h.meta@[1] / 65536) % 256,
{
    let v = h.meta@[0];
    let w = h.meta@[1];
    assert({
        &&& ((v >> 0) & 0x0F) as u8 == v % 16
        &&& ((v >> 4) & 0x0F) as u8 == (v / 16) % 16
        &&& ((v >> 8) & 0xFF) as u8 == (v / 256) % 256
        &&& ((w >> 8) & 0xFF) as u8 == (w / 256) % 256
        &&& ((w >> 16) & 0xFF) as u8 == (w / 65536) % 256
    }) by (bit_vector);
}

/// Where the bytes of a sequence of words stand: each word fills eight bytes,
/// of which byte `b` is the one at place `b` of the word, counted from its
/// least significant byte where `little` is set and from its most significant
/// byte otherwise.
pub proof fn law_word_byte_places(words: Seq<u64>, little: bool, k: int, b: int)
    requires
        0 <= k < words.len(),
        0 <= b < 8,
    ensures
        bytes_of(words, little).len() == 8 * words.len(),
        little ==> bytes_of(words, little)[8 * k + b] == ((words[k] >> (8 * b) as u64) & 0xFF) as u8,
        !little ==> bytes_of(words, little)[8 * k + b] == ((words[k] >> (56 - 8 * b) as u64) & 0xFF)
            as u8,
{
    assert((8 * k + b) / 8 == k && (8 * k + b) % 8 == b);
    assert(8 * (7 - b) == 56 - 8 * b);
}

/// Where the bytes of a header stand: each word of the metadata fills eight
/// bytes, from the first on, and each word of the fingerprint eight more, from
/// byte 256 on. Byte `b` of the eight is the one at place `b` of the word,
/// counted from its least significant byte where `little` is set and from its
/// most significant byte otherwise.
pub proof fn law_header_byte_places(h: CamHeader, little: bool, k: int, b: int)
    requires
        0 <= k < 32,
        0 <= b < 8,
    ensures
        bytes_of(h@, little).len() == 512,
        little ==> {
            &&& bytes_of(h@, little)[8 * k + b] == ((h.meta@[k] >> (8 * b) as u64) & 0xFF) as u8
            &&& bytes_of(h@, little)[256 + 8 * k + b] == ((h.fingerprint@[k] >> (8 * b) as u64)
                & 0xFF) as u8
        },
        !little ==> {
            &&& bytes_of(h@, little)[8 * k + b] == ((h.meta@[k] >> (56 - 8 * b) as u64) & 0xFF)
                as u8
            &&& bytes_of(h@, little)[256 + 8 * k + b] == ((h.fingerprint@[k] >> (56 - 8 * b) as u64)
                & 0xFF) as u8
        },
{
    law_word_byte_places(h@, little, k, b);
    law_word_byte_places(h@, little, 32 + k, b);
    assert(h@[k] == h.meta@[k]);
    assert(h@[32 + k] == h.fingerprint@[k]);
    assert(8 * (32 + k) + b == 256 + 8 * k + b);
}

/// Two headers with the same 64 words are the same header.
pub proof fn law_header_words(a: CamHeader, b: CamHeader)
    requires
        a@ == b@,
    ensures
        a == b,
{
    assert forall|i: int| 0 <= i < META_WORDS implies a.meta@[i] == b.meta@[i] by {
        assert(a@[i] == a.meta@[i]);
        assert(b@[i] == b.meta@[i]);
    }
    assert forall|i: int| 0 <= i < FINGERPRINT_WORDS implies a.fingerprint@[i]
        == b.fingerprint@[i] by {
        assert(a@[META_WORDS + i] == a.fingerprint@[i]);
        assert(b@[META_WORDS + i] == b.fingerprint@[i]);
    }
    assert(a.meta =~= b.meta);
    assert(a.fingerprint =~= b.fingerprint);
}

/// What a write put into a buffer, a read gives back.
pub proof fn law_write_read(h: CamHeader, before: Seq<u64>, after: Seq<u64>, read: CamHeader)
    requires
        before.len() >= HEADER_WORDS,
        after == h@ + before.skip(HEADER_WORDS as int),
        read@ == after.take(HEADER_WORDS as int),
    ensures
        read == h,
        after.len() == before.len(),
        after.skip(HEADER_WORDS as int) == before.skip(HEADER_WORDS as int),
{
    assert(after.take(HEADER_WORDS as int) =~= h@);
    assert(after.skip(HEADER_WORDS as int) =~= before.skip(HEADER_WORDS as int));
    law_header_words(read, h);
}

/// Two headers with the same bytes, in the same order, are the same header.
pub proof fn law_header_bytes(a: CamHeader, b: CamHeader, little: bool)
    requires
        bytes_of(a@, little) == bytes_of(b@, little),
    ensures
        a == b,
{
    assert forall|i: int| 0 <= i < HEADER_WORDS implies a@[i] == b@[i] by {
        assert forall|k: int| 0 <= k < 8 implies byte_of(a@[i], k) == byte_of(b@[i], k) by {
            let place = if little {
                k
            } else {
                7 - k
            };
            assert(bytes_of(a@, little)[8 * i + place] == byte_of(a@[i], k));
            assert(bytes_of(b@, little)[8 * i + place] == byte_of(b@[i], k));
        }
        lemma_bytes_determine_word(a@[i], b@[i]);
    }
    assert(a@ =~= b@);
    law_header_words(a, b);
}

/// Words with the same eight bytes are equal.
proof fn lemma_bytes_determine_word(x: u64, y: u64)
    requires
        forall|k: int| 0 <= k < 8 ==> byte_of(x, k) == byte_of(y, k),
    ensures
        x == y,
{
    assert(byte_of(x, 0) == byte_of(y, 0));
    assert(byte_of(x, 1) == byte_of(y, 1));
    assert(byte_of(x, 2) == byte_of(y, 2));
    assert(byte_of(x, 3) == byte_of(y, 3));
    assert(byte_of(x, 4) == byte_of(y, 4));
    assert(byte_of(x, 5) == byte_of(y, 5));
    assert(byte_of(x, 6) == byte_of(y, 6));
    assert(byte_of(x, 7) == byte_of(y, 7));
    assert(x == y) by (bit_vector)
        requires
            ((x >> 0) & 0xFF) as u8 == ((y >> 0) & 0xFF) as u8,
            ((x >> 8) & 0xFF) as u8 == ((y >> 8) & 0xFF) as u8,
            ((x >> 16) & 0xFF) as u8 == ((y >> 16) & 0xFF) as u8,
            ((x >> 24) & 0xFF) as u8 == ((y >> 24) & 0xFF) as u8,
            ((x >> 32) & 0xFF) as u8 == ((y >> 32) & 0xFF) as u8,
            ((x >> 40) & 0xFF) as u8 == ((y >> 40) & 0xFF) as u8,
            ((x >> 48) & 0xFF) as u8 == ((y >> 48) & 0xFF) as u8,
            ((x >> 56) & 0xFF) as u8 == ((y >> 56) & 0xFF) as u8,
    ;
}

/// Fingerprints match exactly where their distance is zero.
pub proof fn law_match_is_distance_zero(a: CamHeader, b: CamHeader)
    ensures
        a.fingerprint@ == b.fingerprint@ <==> hamming(a.fingerprint@, b.fingerprint@) == 0,
{
    law_distance_zero(a.fingerprint@, b.fingerprint@);
}

/// A fingerprint is empty exactly where it has no ones.
pub proof fn law_empty_is_no_ones(h: CamHeader)
    ensures
        h.fingerprint@ == zero_words(FINGERPRINT_WORDS as nat) <==> ones(h.fingerprint@) == 0,
{
    lemma_ones_zero(h.fingerprint@);
}

} // verus!
