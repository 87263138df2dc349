//! Records: a header and its content.
use vstd::prelude::*;

use crate::bitpack::{BitpackedVector, VECTOR_WORDS};
use crate::fingerprint::{
    hamming, law_distance_zero, law_fold_concat, law_fold_contracts, law_fold_linear,
    law_fold_zero, lemma_fold_short, lemma_ones_prefix, xor_fold, xor_fold_fingerprint, xor_words,
    zero_words,
};
use crate::header::{law_header_fields, law_header_words, CamHeader};
use crate::kind::{ContainerKind, WidthVariant};
use crate::layout::{
    FINGERPRINT_WORDS, HEADER_WORDS, META_WORDS, M_DISCRIMINANT, QUANTUM_WORDS,
};

verus! {

/// A record: the header and a whole number of content quanta.
pub struct CamRecord {
    /// The 64-word header.
    pub header: CamHeader,
    /// The content words.
    pub content: Vec<u64>,
}

/// A record stands for its words in the order in which they are stored.
impl View for CamRecord {
    type V = Seq<u64>;

    open spec fn view(&self) -> Seq<u64> {
        self.header@ + self.content@
    }
}

/// Metadata word 0 of a new record.
pub open spec fn discriminant(kind: ContainerKind, width: WidthVariant, version: u8) -> u64 {
    (kind.code() as u64) | ((width.code() as u64) << 4) | ((version as u64) << 8)
}

/// The metadata of a new record: all zero but for word 0.
pub open spec fn fresh_meta(kind: ContainerKind, width: WidthVariant, version: u8) -> Seq<u64> {
    zero_words(META_WORDS as nat).update(
        M_DISCRIMINANT as int,
        discriminant(kind, width, version),
    )
}

/// A vector cut down to one quantum. Where `fold_overflow` is set, the words
/// beyond the quantum are folded back into its first words; otherwise they
/// are dropped.
pub open spec fn quantum_of(words: Seq<u64>, fold_overflow: bool) -> Seq<u64> {
    Seq::new(
        QUANTUM_WORDS as nat,
        |i: int|
            if fold_overflow && QUANTUM_WORDS + i < words.len() {
                words[i] ^ words[QUANTUM_WORDS + i]
            } else {
                words[i]
            },
    )
}

/// Content words of a record with these tags: as many as the kind says, but
/// two quanta for a MONO record of a 16K vector, whose words are all semantic
/// content.
pub open spec fn tagged_content_words(kind: ContainerKind, width: Option<WidthVariant>) -> nat {
    if kind == ContainerKind::Mono && width == Some(WidthVariant::W16K) {
        2 * QUANTUM_WORDS as nat
    } else {
        kind.spec_content_words()
    }
}

impl CamRecord {
    /// The header names a kind, and the content is as long as kind and width
    /// say.
    pub open spec fn sized(&self) -> bool {
        &&& self.header.kind_field() is Some
        &&& self.content@.len() == tagged_content_words(
            self.header.kind_field()->0,
            self.header.width_field(),
        )
    }

    /// The content is as long as the tags say, and the fingerprint is that of
    /// the content.
    pub open spec fn well_formed(&self) -> bool {
        &&& self.sized()
        &&& self.header.fingerprint@ == xor_fold(self.content@)
    }

    /// Whether the record is what the words of `buf` store.
    pub open spec fn stored_in(&self, buf: Seq<u64>) -> bool {
        &&& buf.len() >= HEADER_WORDS
        &&& self.header@ == buf.take(HEADER_WORDS as int)
        &&& self.content@ == buf.skip(HEADER_WORDS as int)
    }
}

/// A new header with these tags and this fingerprint.
fn fresh_header(
    kind: ContainerKind,
    width: WidthVariant,
    version: u8,
    fingerprint: [u64; FINGERPRINT_WORDS],
) -> (h: CamHeader)
    ensures
        h.meta@ == fresh_meta(kind, width, version),
        h.fingerprint@ == fingerprint@,
        h.kind_field() == Some(kind),
        h.width_field() == Some(width),
        h.version_field() == version,
{
    let mut h = CamHeader::zero();
    h.set_container_kind(kind);
    h.set_width_variant(width);
    h.set_version(version);
    h.fingerprint = fingerprint;
    proof {
        let k = kind.code() as u64;
        let w = width.code() as u64;
        let v = version as u64;
        assert(k <= 0x0F && w <= 0x0F && v <= 0xFF ==> {
            let w0 = (0u64 & !(0x0Fu64 << 0)) | (k << 0);
            let w1 = (w0 & !(0x0Fu64 << 4)) | (w << 4);
            let w2 = (w1 & !(0xFFu64 << 8)) | (v << 8);
            w2 == k | (w << 4) | (v << 8)
        }) by (bit_vector);
        assert(h.meta@ =~= fresh_meta(kind, width, version));
    }
    h
}

impl Clone for CamRecord {
    fn clone(&self) -> (r: Self)
        ensures
            r.header == self.header,
            r.content@ == self.content@,
    {
        let content = self.content.clone();
        assert(content@ =~= self.content@);
        CamRecord { header: self.header.clone(), content }
    }
}

impl CamRecord {
    /// A MONO record of a 10K vector.
    ///
    /// The first 128 words of the vector become the quantum. The other 29 are
    /// folded back into its first 29 words, or dropped, as `fold_overflow`
    /// says.
    pub fn from_10k(v: &BitpackedVector, fold_overflow: bool) -> (r: Self)
        ensures
            r.content@ == quantum_of(v@, fold_overflow),
            r.content@.len() == 128,
            forall|i: int|
                0 <= i < 128 && !(fold_overflow && i < 29) ==> #[trigger] r.content@[i]
                    == v.words@[i],
            forall|i: int|
                fold_overflow && 0 <= i < 29 ==> #[trigger] r.content@[i] == v.words@[i]
                    ^ v.words@[128 + i],
            r.header.fingerprint@ == xor_fold(r.content@),
            r.header.meta@ == fresh_meta(ContainerKind::Mono, WidthVariant::W10K, 1),
            r.header.meta@[0] == 0x101,
            forall|i: int| 1 <= i < 32 ==> r.header.meta@[i] == 0,
            r.header.kind_field() == Some(ContainerKind::Mono),
            r.header.width_field() == Some(WidthVariant::W10K),
            r.header.version_field() == 1,
            r.well_formed(),
    {
        let src: &[u64] = v.words();
        let mut content: Vec<u64> = Vec::with_capacity(QUANTUM_WORDS);
        let mut i: usize = 0;
        while i < QUANTUM_WORDS
            invariant
                i <= QUANTUM_WORDS,
                src@ == v@,
                src@.len() == VECTOR_WORDS,
                content@.len() == i,
                forall|j: int| 0 <= j < i ==> content@[j] == quantum_of(v@, fold_overflow)[j],
            decreases QUANTUM_WORDS - i,
        {
            let word: u64 = if fold_overflow && QUANTUM_WORDS + i < VECTOR_WORDS {
                src[i] ^ src[QUANTUM_WORDS + i]
            } else {
                src[i]
            };
            content.push(word);
            i = i + 1;
        }
        assert(content@ =~= quantum_of(v@, fold_overflow));
        let fingerprint = xor_fold_fingerprint(content.as_slice());
        let header = fresh_header(ContainerKind::Mono, WidthVariant::W10K, 1, fingerprint);
        proof {
            law_fresh_meta(ContainerKind::Mono, WidthVariant::W10K, 1);
        }
        CamRecord { header, content }
    }

    /// A MONO record of a 16K vector.
    ///
    /// The 256 words fill two quanta, but they are all semantic content, with
    /// no dense embedding, so the record is stored as MONO. The width tells
    /// the length.
    pub fn mono_from_16k(words: &[u64; crate::width_16k::VECTOR_WORDS]) -> (r: Self)
        ensures
            r.content@ == words@,
            r.header.fingerprint@ == xor_fold(words@),
            r.header.meta@ == fresh_meta(ContainerKind::Mono, WidthVariant::W16K, 1),
            r.header.meta@[0] == 0x111,
            forall|i: int| 1 <= i < 32 ==> r.header.meta@[i] == 0,
            r.header.kind_field() == Some(ContainerKind::Mono),
            r.header.width_field() == Some(WidthVariant::W16K),
            r.header.version_field() == 1,
            r.well_formed(),
    {
        let fingerprint = xor_fold_fingerprint(words.as_slice());
        let header = fresh_header(ContainerKind::Mono, WidthVariant::W16K, 1, fingerprint);
        proof {
            law_fresh_meta(ContainerKind::Mono, WidthVariant::W16K, 1);
        }
        CamRecord { header, content: vstd::slice::slice_to_vec(words.as_slice()) }
    }

    /// The container kind; `None` where the header names no kind.
    pub fn kind(&self) -> (r: Option<ContainerKind>)
        ensures
            r == self.header.kind_field(),
    {
        self.header.container_kind()
    }

    /// Words of the stored record.
    pub fn total_words(&self) -> (r: usize)
        requires
            HEADER_WORDS + self.content@.len() <= usize::MAX,
        ensures
            r == self@.len(),
            r == HEADER_WORDS + self.content@.len(),
    {
        HEADER_WORDS + self.content.len()
    }

    /// The words of the record: metadata, fingerprint, content.
    pub fn serialize(&self) -> (buf: Vec<u64>)
        ensures
            buf@ == self@,
            buf@.len() == 64 + self.content@.len(),
            forall|i: int| 0 <= i < 32 ==> buf@[i] == self.header.meta@[i],
            forall|i: int| 32 <= i < 64 ==> buf@[i] == self.header.fingerprint@[i - 32],
            forall|i: int| 64 <= i < buf@.len() ==> buf@[i] == self.content@[i - 64],
    {
        let mut buf: Vec<u64> = Vec::with_capacity(HEADER_WORDS);
        buf.extend_from_slice(self.header.meta.as_slice());
        assert(buf@ =~= self.header.meta@);
        buf.extend_from_slice(self.header.fingerprint.as_slice());
        assert(buf@ =~= self.header@);
        buf.reserve(self.content.len());
        buf.extend_from_slice(self.content.as_slice());
        assert(buf@ =~= self@);
        buf
    }

    /// The record that `buf` stores; `None` where it is shorter than a header.
    pub fn deserialize(buf: &[u64]) -> (r: Option<Self>)
        ensures
            r is Some <==> buf@.len() >= HEADER_WORDS,
            r is Some ==> r->0.stored_in(buf@),
            r is Some ==> r->0@ == buf@,
            r is Some ==> r->0.content@.len() == buf@.len() - 64,
            r is Some ==> forall|i: int| 0 <= i < 32 ==> r->0.header.meta@[i] == buf@[i],
            r is Some ==> forall|i: int|
                0 <= i < 32 ==> r->0.header.fingerprint@[i] == buf@[32 + i],
            r is Some ==> forall|i: int|
                0 <= i < r->0.content@.len() ==> r->0.content@[i] == buf@[64 + i],
    {
        if buf.len() < HEADER_WORDS {
            return None;
        }
        let header = CamHeader::read_from(buf);
        let content = vstd::slice::slice_to_vec(
            vstd::slice::slice_subrange(buf, HEADER_WORDS, buf.len()),
        );
        let record = CamRecord { header, content };
        assert(record.content@ =~= buf@.skip(HEADER_WORDS as int));
        assert(record@ =~= buf@);
        Some(record)
    }

    /// The content words.
    pub fn content_slice(&self) -> (r: &[u64])
        ensures
            r@ == self.content@,
    {
        self.content.as_slice()
    }

    /// Makes the fingerprint that of the present content.
    pub fn refresh_fingerprint(&mut self)
        ensures
            final(self).header.fingerprint@ == xor_fold(old(self).content@),
            final(self).header.meta == old(self).header.meta,
            final(self).content == old(self).content,
    {
        self.header.fingerprint = xor_fold_fingerprint(self.content.as_slice());
    }
}

// ---------------------------------------------------------------------------
// Laws
// ---------------------------------------------------------------------------
/// The quantum of a vector word by word: each of its 128 words is the word of
/// the vector at that place or, in the first 29 places where the overflow is
/// folded back, the exclusive or of that word and the one 128 places on.
pub proof fn law_quantum_words(words: Seq<u64>, fold_overflow: bool, i: int)
    requires
        words.len() == 157,
        0 <= i < 128,
    ensures
        quantum_of(words, fold_overflow).len() == 128,
        !fold_overflow ==> quantum_of(words, fold_overflow)[i] == words[i],
        fold_overflow && i < 29 ==> quantum_of(words, fold_overflow)[i] == words[i] ^ words[128 + i],
        fold_overflow && 29 <= i ==> quantum_of(words, fold_overflow)[i] == words[i],
{
}

/// The metadata of a new record: word 0 holds the kind, sixteen times the
/// width and 256 times the version, and all other words are zero.
pub proof fn law_fresh_meta(kind: ContainerKind, width: WidthVariant, version: u8)
    ensures
        fresh_meta(kind, width, version).len() == 32,
        fresh_meta(kind, width, version)[0] == discriminant(kind, width, version),
        discriminant(kind, width, version) == kind.code() + 16 * width.code() + 256 * version,
        forall|i: int| 1 <= i < 32 ==> fresh_meta(kind, width, version)[i] == 0,
{
    let k = kind.code() as u64;
    let w = width.code() as u64;
    let v = version as u64;
    assert(k < 16 && w < 16 && v < 256 ==> k | (w << 4) | (v << 8) == k + 16 * w + 256 * v)
        by (bit_vector);
}

/// The words of a record in the order in which they are stored: the 32 words
/// of metadata, the 32 words of the fingerprint, the content.
pub proof fn law_record_layout(rec: CamRecord, i: int)
    requires
        0 <= i,
    ensures
        rec@.len() == 64 + rec.content@.len(),
        i < 32 ==> rec@[i] == rec.header.meta@[i],
        i < 32 ==> rec@[32 + i] == rec.header.fingerprint@[i],
        i < rec.content@.len() ==> rec@[64 + i] == rec.content@[i],
{
}

/// A record is what a buffer stores exactly where each of its words stands in
/// its place there: the metadata first, the fingerprint from word 32 on, and
/// the content, up to the end of the buffer, from word 64 on.
pub proof fn law_stored_layout(rec: CamRecord, buf: Seq<u64>)
    ensures
        rec.stored_in(buf) <==> {
            &&& buf.len() == 64 + rec.content@.len()
            &&& forall|i: int| 0 <= i < 32 ==> rec.header.meta@[i] == #[trigger] buf[i]
            &&& forall|i: int|
                32 <= i < 64 ==> rec.header.fingerprint@[i - 32] == #[trigger] buf[i]
            &&& forall|i: int| 64 <= i < buf.len() ==> rec.content@[i - 64] == #[trigger] buf[i]
        },
{
    if rec.stored_in(buf) {
        assert forall|i: int| 0 <= i < 64 implies rec.header@[i] == #[trigger] buf[i] by {
            assert(buf.take(64)[i] == buf[i]);
        }
        assert forall|i: int| 0 <= i < 32 implies rec.header.meta@[i] == #[trigger] buf[i] by {
            assert(rec.header@[i] == rec.header.meta@[i]);
        }
        assert forall|i: int| 32 <= i < 64 implies rec.header.fingerprint@[i - 32]
            == #[trigger] buf[i] by {
            assert(rec.header@[i] == rec.header.fingerprint@[i - 32]);
        }
        assert forall|i: int| 64 <= i < buf.len() implies rec.content@[i - 64]
            == #[trigger] buf[i] by {
            assert(buf.skip(64)[i - 64] == buf[i]);
        }
    }
    if {
        &&& buf.len() == 64 + rec.content@.len()
        &&& forall|i: int| 0 <= i < 32 ==> rec.header.meta@[i] == #[trigger] buf[i]
        &&& forall|i: int| 32 <= i < 64 ==> rec.header.fingerprint@[i - 32] == #[trigger] buf[i]
        &&& forall|i: int| 64 <= i < buf.len() ==> rec.content@[i - 64] == #[trigger] buf[i]
    } {
        assert(rec.header@ =~= buf.take(64));
        assert(rec.content@ =~= buf.skip(64));
    }
}

/// When a record is well-formed: its fingerprint is that of its content, its
/// header names a kind, and its content has as many quanta of 128 words as the
/// discriminant says, but two for a MONO record of a 16K vector.
pub proof fn law_well_formed(rec: CamRecord)
    ensures
        rec.well_formed() <==> {
            &&& rec.header.fingerprint@ == xor_fold(rec.content@)
            &&& 1 <= rec.header.meta@[0] % 16 <= 3
            &&& rec.content@.len() == if rec.header.meta@[0] % 256 == 0x11 {
                256
            } else {
                128 * (rec.header.meta@[0] % 16)
            }
        },
        rec.sized() <==> {
            &&& 1 <= rec.header.meta@[0] % 16 <= 3
            &&& rec.content@.len() == if rec.header.meta@[0] % 256 == 0x11 {
                256
            } else {
                128 * (rec.header.meta@[0] % 16)
            }
        },
{
    law_header_fields(rec.header);
    let w = rec.header.meta@[0] as int;
    assert(w % 256 == 16 * ((w / 16) % 16) + w % 16);
}

/// Reading what a record was stored as gives the record back.
pub proof fn law_store_load(rec: CamRecord, back: CamRecord)
    requires
        back.stored_in(rec@),
    ensures
        back.header == rec.header,
        back.content@ == rec.content@,
        back.well_formed() == rec.well_formed(),
{
    assert(rec@.take(HEADER_WORDS as int) =~= rec.header@);
    assert(rec@.skip(HEADER_WORDS as int) =~= rec.content@);
    law_header_words(back.header, rec.header);
}

/// The words of a well-formed record are as many as its tags say, and its
/// content is a whole number of quanta.
pub proof fn law_record_size(rec: CamRecord)
    requires
        rec.well_formed(),
    ensures
        rec@.len() == HEADER_WORDS + tagged_content_words(
            rec.header.kind_field()->0,
            rec.header.width_field(),
        ),
        rec.content@.len() % QUANTUM_WORDS as nat == 0,
{
}

/// After a refresh, the fingerprint is that of the content, and the record is
/// well-formed exactly where its content is as long as its tags say. Where
/// the fingerprint was right before, as after another refresh, nothing
/// changes.
pub proof fn law_refresh(before: CamRecord, after: CamRecord)
    requires
        after.header.fingerprint@ == xor_fold(before.content@),
        after.header.meta == before.header.meta,
        after.content == before.content,
    ensures
        after.well_formed() <==> before.sized(),
        before.header.fingerprint@ == xor_fold(before.content@) ==> after.header == before.header,
        after.header.fingerprint@ == xor_fold(after.content@),
{
    if before.header.fingerprint@ == xor_fold(before.content@) {
        assert(after.header@ =~= before.header@);
        law_header_words(after.header, before.header);
    }
}

/// Folding the words beyond the quantum back into it keeps their share of the
/// fingerprint: the quantum has the fingerprint of the whole vector.
pub proof fn law_overflow_kept(words: Seq<u64>)
    requires
        words.len() == VECTOR_WORDS,
    ensures
        xor_fold(quantum_of(words, true)) == xor_fold(words),
{
    let head = words.take(QUANTUM_WORDS as int);
    let tail = words.skip(QUANTUM_WORDS as int);
    let gap = zero_words((FINGERPRINT_WORDS - tail.len()) as nat);
    let first = tail + gap;
    let rest = zero_words((QUANTUM_WORDS - FINGERPRINT_WORDS) as nat);
    let padded = first + rest;
    assert forall|i: int| 0 <= i < QUANTUM_WORDS implies quantum_of(words, true)[i] == head[i]
        ^ padded[i] by {
        let w = head[i];
        assert(w ^ 0u64 == w) by (bit_vector);
    }
    assert(quantum_of(words, true) =~= xor_words(head, padded));
    law_fold_linear(head, padded);
    law_fold_concat(first, rest);
    law_fold_zero(rest.len());
    lemma_fold_short(first);
    lemma_fold_short(tail);
    assert(xor_fold(first) =~= xor_fold(tail));
    assert forall|i: int| 0 <= i < FINGERPRINT_WORDS implies xor_fold(padded)[i] == xor_fold(
        tail,
    )[i] by {
        let w = xor_fold(tail)[i];
        assert(xor_fold(rest)[i] == zero_words(FINGERPRINT_WORDS as nat)[i]);
        assert(w ^ 0u64 == w) by (bit_vector);
    }
    assert(xor_fold(padded) =~= xor_fold(tail));
    assert(words =~= head + tail);
    law_fold_concat(head, tail);
}

/// Folding the overflow back shows in the content, and in the fingerprint,
/// exactly where a word beyond the quantum is not zero.
pub proof fn law_overflow_visible(words: Seq<u64>)
    requires
        words.len() == VECTOR_WORDS,
    ensures
        quantum_of(words, true) == quantum_of(words, false) <==> words.skip(QUANTUM_WORDS as int)
            == zero_words((VECTOR_WORDS - QUANTUM_WORDS) as nat),
        xor_fold(quantum_of(words, true)) == xor_fold(quantum_of(words, false)) <==> words.skip(
            QUANTUM_WORDS as int,
        ) == zero_words((VECTOR_WORDS - QUANTUM_WORDS) as nat),
{
    let head = words.take(QUANTUM_WORDS as int);
    let tail = words.skip(QUANTUM_WORDS as int);
    let zeros = zero_words((VECTOR_WORDS - QUANTUM_WORDS) as nat);
    assert(quantum_of(words, false) =~= head);
    assert(words =~= head + tail);
    law_overflow_kept(words);
    law_fold_concat(head, tail);
    lemma_fold_short(tail);
    if tail == zeros {
        assert forall|i: int| 0 <= i < QUANTUM_WORDS implies quantum_of(words, true)[i]
            == head[i] by {
            if QUANTUM_WORDS + i < words.len() {
                let w = words[i];
                assert(words[QUANTUM_WORDS + i] == tail[i]);
                assert(tail[i] == zeros[i]);
                assert(w ^ 0u64 == w) by (bit_vector);
            }
        }
        assert(quantum_of(words, true) =~= head);
    } else {
        assert(exists|j: int| 0 <= j < tail.len() && tail[j] != 0) by {
            if forall|j: int| 0 <= j < tail.len() ==> tail[j] == 0 {
                assert(tail =~= zeros);
            }
        }
        let j = choose|j: int| 0 <= j < tail.len() && tail[j] != 0;
        let p = xor_fold(head)[j];
        let w = tail[j];
        assert(w != 0 ==> p ^ w != p) by (bit_vector);
        assert(xor_fold(words)[j] == p ^ w);
        assert(xor_fold(words) != xor_fold(head));
    }
}

/// Records with the same content match: well-formed ones carry the same
/// fingerprint, at distance zero.
pub proof fn law_same_content_matches(a: CamRecord, b: CamRecord)
    requires
        a.well_formed(),
        b.well_formed(),
        a.content@ == b.content@,
    ensures
        a.header.fingerprint@ == b.header.fingerprint@,
        hamming(a.header.fingerprint@, b.header.fingerprint@) == 0,
{
    law_distance_zero(a.header.fingerprint@, b.header.fingerprint@);
}

/// Close vectors make records with close fingerprints: these are no further
/// apart than the vectors, whether the overflow is folded back or dropped.
pub proof fn law_close_vectors(a: Seq<u64>, b: Seq<u64>, fold_overflow: bool)
    requires
        a.len() == VECTOR_WORDS,
        b.len() == VECTOR_WORDS,
    ensures
        hamming(xor_fold(quantum_of(a, fold_overflow)), xor_fold(quantum_of(b, fold_overflow)))
            <= hamming(a, b),
{
    if fold_overflow {
        law_overflow_kept(a);
        law_overflow_kept(b);
        law_fold_contracts(a, b);
    } else {
        let n = QUANTUM_WORDS as int;
        assert(quantum_of(a, false) =~= a.take(n));
        assert(quantum_of(b, false) =~= b.take(n));
        law_fold_contracts(a.take(n), b.take(n));
        assert(xor_words(a.take(n), b.take(n)) =~= xor_words(a, b).take(n));
        lemma_ones_prefix(xor_words(a, b), n);
    }
}

} // verus!
