//! An index from fingerprints to the places of their records, for
//! deduplication.
use std::collections::HashMap;
use vstd::prelude::*;

use crate::fingerprint::{fingerprints_equal, xor_fold};
use crate::layout::FINGERPRINT_WORDS;
use crate::record::CamRecord;

verus! {

broadcast use vstd::std_specs::hash::group_hash_axioms;

/// The most entries for which room is made in advance.
const MAX_RESERVED: usize = 1048576;

/// An index from fingerprints to record offsets.
///
/// The entries stand in the order in which they came. A table finds the
/// entries whose fingerprints share a digest.
pub struct CamIndex {
    entries: Vec<([u64; FINGERPRINT_WORDS], usize)>,
    positions: HashMap<u64, Vec<usize>>,
}

// ---------------------------------------------------------------------------
// Model
// ---------------------------------------------------------------------------
/// The fingerprints of the entries.
spec fn keys(entries: Seq<([u64; FINGERPRINT_WORDS], usize)>) -> Seq<Seq<u64>> {
    entries.map_values(|e: ([u64; FINGERPRINT_WORDS], usize)| e.0@)
}

/// The map that the entries make up.
spec fn contents(entries: Seq<([u64; FINGERPRINT_WORDS], usize)>) -> Map<Seq<u64>, usize> {
    Map::new(
        |k: Seq<u64>| keys(entries).contains(k),
        |k: Seq<u64>| entries[keys(entries).index_of(k)].1,
    )
}

/// The digest of a fingerprint under which the table keeps it.
spec fn digest_of(words: Seq<u64>) -> u64
    decreases words.len(),
{
    if words.len() == 0 {
        0
    } else {
        let h = digest_of(words.drop_last());
        ((h << 7) | (h >> 57)) ^ words.last()
    }
}

/// No fingerprint stands twice, and the table leads from the digest of each
/// entry to that entry.
spec fn consistent(
    entries: Seq<([u64; FINGERPRINT_WORDS], usize)>,
    positions: Map<u64, Vec<usize>>,
) -> bool {
    &&& keys(entries).no_duplicates()
    &&& forall|h: u64, i: int|
        positions.contains_key(h) && 0 <= i < positions[h]@.len() ==> (
        #[trigger] positions[h]@[i]) < entries.len()
    &&& forall|p: int|
        0 <= p < entries.len() ==> {
            let h = digest_of((#[trigger] entries[p]).0@);
            &&& positions.contains_key(h)
            &&& exists|i: int|
                0 <= i < positions[h]@.len() && #[trigger] positions[h]@[i] == p
        }
}

/// A CAM index stands for a map from fingerprints to offsets.
impl View for CamIndex {
    type V = Map<Seq<u64>, usize>;

    closed spec fn view(&self) -> Map<Seq<u64>, usize> {
        contents(self.entries@)
    }
}

/// What a map holds under a key, if anything.
pub open spec fn found(map: Map<Seq<u64>, usize>, key: Seq<u64>) -> Option<usize> {
    if map.contains_key(key) {
        Some(map[key])
    } else {
        None
    }
}

/// The map from the fingerprint of each record to its place; of records with
/// the same fingerprint the last counts.
pub open spec fn places(records: Seq<CamRecord>) -> Map<Seq<u64>, usize>
    decreases records.len(),
{
    if records.len() == 0 {
        Map::empty()
    } else {
        places(records.drop_last()).insert(
            records.last().header.fingerprint@,
            (records.len() - 1) as usize,
        )
    }
}

// ---------------------------------------------------------------------------
// Lemmas
// ---------------------------------------------------------------------------
/// The map holds under the fingerprint of an entry that entry's offset.
proof fn lemma_contents_at(entries: Seq<([u64; FINGERPRINT_WORDS], usize)>, p: int)
    requires
        keys(entries).no_duplicates(),
        0 <= p < entries.len(),
    ensures
        contents(entries).contains_key(entries[p].0@),
        contents(entries)[entries[p].0@] == entries[p].1,
{
    let ks = keys(entries);
    assert(ks[p] == entries[p].0@);
    let q = ks.index_of(entries[p].0@);
    assert(0 <= q < ks.len() && ks[q] == ks[p]);
}

/// The map is as large as there are entries.
proof fn lemma_contents_len(entries: Seq<([u64; FINGERPRINT_WORDS], usize)>)
    requires
        keys(entries).no_duplicates(),
    ensures
        contents(entries).dom().finite(),
        contents(entries).len() == entries.len(),
{
    keys(entries).unique_seq_to_set();
    assert(contents(entries).dom() =~= keys(entries).to_set());
}

/// A new entry at the end adds its fingerprint to the map.
proof fn lemma_contents_push(
    entries: Seq<([u64; FINGERPRINT_WORDS], usize)>,
    e: ([u64; FINGERPRINT_WORDS], usize),
)
    requires
        keys(entries).no_duplicates(),
        !keys(entries).contains(e.0@),
    ensures
        keys(entries.push(e)).no_duplicates(),
        contents(entries.push(e)) == contents(entries).insert(e.0@, e.1),
{
    let after = entries.push(e);
    assert(keys(after) =~= keys(entries).push(e.0@));
    assert forall|i: int, j: int|
        0 <= i < keys(after).len() && 0 <= j < keys(after).len() && i != j implies keys(after)[i]
        != keys(after)[j] by {
        if i < entries.len() {
            assert(keys(entries)[i] == keys(after)[i]);
        }
        if j < entries.len() {
            assert(keys(entries)[j] == keys(after)[j]);
        }
    }
    let want = contents(entries).insert(e.0@, e.1);
    assert forall|k: Seq<u64>| contents(after).contains_key(k) == want.contains_key(k) by {
        if keys(entries).contains(k) {
            let i = choose|i: int| 0 <= i < keys(entries).len() && keys(entries)[i] == k;
            assert(keys(after)[i] == k);
        }
        if k == e.0@ {
            assert(keys(after)[entries.len() as int] == k);
        }
        if keys(after).contains(k) && k != e.0@ {
            let i = choose|i: int| 0 <= i < keys(after).len() && keys(after)[i] == k;
            assert(keys(entries)[i] == k);
        }
    }
    assert forall|k: Seq<u64>| #[trigger] contents(after).contains_key(k) implies contents(after)[k]
        == want[k] by {
        let i = choose|i: int| 0 <= i < keys(after).len() && keys(after)[i] == k;
        lemma_contents_at(after, i);
        if i < entries.len() {
            assert(keys(entries)[i] == k);
            lemma_contents_at(entries, i);
        }
    }
    assert(contents(after) =~= want);
}

/// A new offset in an entry replaces what the map holds under its
/// fingerprint.
proof fn lemma_contents_update(
    entries: Seq<([u64; FINGERPRINT_WORDS], usize)>,
    p: int,
    e: ([u64; FINGERPRINT_WORDS], usize),
)
    requires
        keys(entries).no_duplicates(),
        0 <= p < entries.len(),
        entries[p].0@ == e.0@,
    ensures
        keys(entries.update(p, e)) == keys(entries),
        contents(entries.update(p, e)) == contents(entries).insert(e.0@, e.1),
        contents(entries).contains_key(e.0@),
{
    let after = entries.update(p, e);
    assert(keys(after) =~= keys(entries));
    let want = contents(entries).insert(e.0@, e.1);
    lemma_contents_at(entries, p);
    assert forall|k: Seq<u64>| #[trigger] contents(after).contains_key(k) implies contents(after)[k]
        == want[k] by {
        let i = choose|i: int| 0 <= i < keys(after).len() && keys(after)[i] == k;
        assert(keys(entries)[i] == k);
        lemma_contents_at(after, i);
        lemma_contents_at(entries, i);
        assert(keys(entries)[p] == e.0@);
    }
    assert(contents(after) =~= want);
}

// ---------------------------------------------------------------------------
// Operations
// ---------------------------------------------------------------------------
/// Computes the digest of a fingerprint.
fn digest(fp: &[u64; FINGERPRINT_WORDS]) -> (h: u64)
    ensures
        h == digest_of(fp@),
{
    let mut h: u64 = 0;
    let mut i: usize = 0;
    while i < FINGERPRINT_WORDS
        invariant
            i <= FINGERPRINT_WORDS,
            h == digest_of(fp@.take(i as int)),
        decreases FINGERPRINT_WORDS - i,
    {
        assert(fp@.take(i + 1).drop_last() =~= fp@.take(i as int));
        h = ((h << 7) | (h >> 57)) ^ fp[i];
        i = i + 1;
    }
    assert(fp@.take(i as int) =~= fp@);
    h
}

impl CamIndex {
    #[verifier::type_invariant]
    spec fn valid(self) -> bool {
        consistent(self.entries@, self.positions@)
    }

    /// An empty index.
    pub fn new() -> (index: Self)
        ensures
            index@ == Map::<Seq<u64>, usize>::empty(),
    {
        let index = CamIndex { entries: Vec::new(), positions: HashMap::new() };
        assert(index@ =~= Map::<Seq<u64>, usize>::empty());
        index
    }

    /// An empty index with room for `cap` entries. The hint has a ceiling, so
    /// that none is too large to be met.
    pub fn with_capacity(cap: usize) -> (index: Self)
        ensures
            index@ == Map::<Seq<u64>, usize>::empty(),
    {
        let room: usize = if cap <= MAX_RESERVED {
            cap
        } else {
            MAX_RESERVED
        };
        let index = CamIndex {
            entries: Vec::with_capacity(room),
            positions: HashMap::with_capacity(room),
        };
        assert(index@ =~= Map::<Seq<u64>, usize>::empty());
        index
    }

    /// The position of the entry with this fingerprint.
    fn find(&self, fingerprint: &[u64; FINGERPRINT_WORDS]) -> (r: Option<usize>)
        ensures
            match r {
                Some(p) => p < self.entries@.len() && self.entries@[p as int].0@ == fingerprint@,
                None => !keys(self.entries@).contains(fingerprint@),
            },
    {
        proof {
            use_type_invariant(self);
        }
        let h: u64 = digest(fingerprint);
        match self.positions.get(&h) {
            Some(bucket) => {
                let mut i: usize = 0;
                while i < bucket.len()
                    invariant
                        i <= bucket@.len(),
                        h == digest_of(fingerprint@),
                        consistent(self.entries@, self.positions@),
                        self.positions@.contains_key(h),
                        *bucket == self.positions@[h],
                        forall|j: int|
                            0 <= j < i ==> self.entries@[(#[trigger] bucket@[j]) as int].0@
                                != fingerprint@,
                    decreases bucket@.len() - i,
                {
                    let p: usize = bucket[i];
                    assert(self.positions@[h]@[i as int] < self.entries@.len());
                    if fingerprints_equal(&self.entries[p].0, fingerprint) {
                        return Some(p);
                    }
                    i = i + 1;
                }
                assert(!keys(self.entries@).contains(fingerprint@)) by {
                    if keys(self.entries@).contains(fingerprint@) {
                        let p = choose|p: int|
                            0 <= p < self.entries@.len() && keys(self.entries@)[p] == fingerprint@;
                        assert(self.entries@[p].0@ == fingerprint@);
                        let j = choose|j: int|
                            0 <= j < self.positions@[h]@.len()
                                && #[trigger] self.positions@[h]@[j] == p;
                        assert(bucket@[j] == p);
                    }
                }
                None
            },
            None => {
                assert(!keys(self.entries@).contains(fingerprint@)) by {
                    if keys(self.entries@).contains(fingerprint@) {
                        let p = choose|p: int|
                            0 <= p < self.entries@.len() && keys(self.entries@)[p] == fingerprint@;
                        assert(self.entries@[p].0@ == fingerprint@);
                    }
                }
                None
            },
        }
    }

    /// Enters a fingerprint with the offset of its record. Returns `true` if
    /// it is new, `false` if it is a duplicate; the offset entered last
    /// counts.
    pub fn insert(&mut self, fingerprint: [u64; FINGERPRINT_WORDS], offset: usize) -> (new: bool)
        ensures
            final(self)@ == old(self)@.insert(fingerprint@, offset),
            new == !old(self)@.contains_key(fingerprint@),
    {
        proof {
            use_type_invariant(&*self);
        }
        let place: Option<usize> = self.find(&fingerprint);
        let mut whole = CamIndex::new();
        std::mem::swap(self, &mut whole);
        let CamIndex { entries, positions } = whole;
        let mut entries = entries;
        let mut positions = positions;
        let ghost before = entries@;
        let ghost table = positions@;
        match place {
            Some(p) => {
                entries[p] = (fingerprint, offset);
                proof {
                    lemma_contents_update(before, p as int, (fingerprint, offset));
                    assert(consistent(entries@, positions@));
                }
                *self = CamIndex { entries, positions };
                false
            },
            None => {
                let h: u64 = digest(&fingerprint);
                let p: usize = entries.len();
                let mut bucket: Vec<usize> = match positions.remove(&h) {
                    Some(b) => b,
                    None => Vec::new(),
                };
                let ghost earlier = bucket@;
                bucket.push(p);
                positions.insert(h, bucket);
                entries.push((fingerprint, offset));
                proof {
                    lemma_contents_push(before, (fingerprint, offset));
                    assert(positions@[h]@ == earlier.push(p));
                    assert forall|q: int| 0 <= q < entries@.len() implies {
                        let g = digest_of((#[trigger] entries@[q]).0@);
                        &&& positions@.contains_key(g)
                        &&& exists|i: int|
                            0 <= i < positions@[g]@.len() && #[trigger] positions@[g]@[i] == q
                    } by {
                        let g = digest_of(entries@[q].0@);
                        if q < before.len() {
                            assert(entries@[q] == before[q]);
                            let i = choose|i: int|
                                0 <= i < table[g]@.len() && #[trigger] table[g]@[i] == q;
                            assert(positions@[g]@[i] == q);
                        } else {
                            assert(positions@[h]@[earlier.len() as int] == q);
                        }
                    }
                    assert forall|g: u64, i: int|
                        positions@.contains_key(g) && 0 <= i < positions@[g]@.len() implies (
                    #[trigger] positions@[g]@[i]) < entries@.len() by {
                        if g != h {
                            assert(table[g]@[i] < before.len());
                        } else if i < earlier.len() {
                            assert(table[h]@[i] < before.len());
                        }
                    }
                    assert(consistent(entries@, positions@));
                }
                *self = CamIndex { entries, positions };
                true
            },
        }
    }

    /// The offset entered with this fingerprint.
    pub fn lookup(&self, fingerprint: &[u64; FINGERPRINT_WORDS]) -> (r: Option<usize>)
        ensures
            r == found(self@, fingerprint@),
            self@.contains_key(fingerprint@) ==> r == Some(self@[fingerprint@]),
            !self@.contains_key(fingerprint@) ==> r is None,
    {
        proof {
            use_type_invariant(self);
        }
        match self.find(fingerprint) {
            Some(p) => {
                proof {
                    lemma_contents_at(self.entries@, p as int);
                }
                Some(self.entries[p].1)
            },
            None => None,
        }
    }

    /// Whether this fingerprint was entered.
    pub fn contains(&self, fingerprint: &[u64; FINGERPRINT_WORDS]) -> (r: bool)
        ensures
            r == self@.contains_key(fingerprint@),
    {
        self.lookup(fingerprint).is_some()
    }

    /// Number of fingerprints in the index.
    pub fn len(&self) -> (n: usize)
        ensures
            n == self@.len(),
            self@.dom().finite(),
    {
        proof {
            use_type_invariant(self);
            lemma_contents_len(self.entries@);
        }
        self.entries.len()
    }

    /// Whether the index holds no fingerprint.
    pub fn is_empty(&self) -> (r: bool)
        ensures
            r == (self@ == Map::<Seq<u64>, usize>::empty()),
    {
        proof {
            use_type_invariant(self);
            if self.entries@.len() == 0 {
                assert(self@ =~= Map::<Seq<u64>, usize>::empty());
            } else {
                lemma_contents_at(self.entries@, 0);
            }
        }
        self.entries.len() == 0
    }

    /// The index of all the records, each under its place in `records`.
    pub fn build(records: &[CamRecord]) -> (index: Self)
        ensures
            index@ == places(records@),
    {
        let mut index = CamIndex::with_capacity(records.len());
        let mut i: usize = 0;
        while i < records.len()
            invariant
                i <= records@.len(),
                index@ == places(records@.take(i as int)),
            decreases records@.len() - i,
        {
            assert(records@.take(i + 1).drop_last() =~= records@.take(i as int));
            index.insert(records[i].header.fingerprint, i);
            i = i + 1;
        }
        assert(records@.take(i as int) =~= records@);
        index
    }
}

impl Default for CamIndex {
    fn default() -> (index: Self)
        ensures
            index@ == Map::<Seq<u64>, usize>::empty(),
    {
        CamIndex::new()
    }
}

// ---------------------------------------------------------------------------
// Laws
// ---------------------------------------------------------------------------
/// A lookup finds what was entered last, and entering one fingerprint leaves
/// every other as it was.
pub proof fn law_insert_lookup(
    map: Map<Seq<u64>, usize>,
    fingerprint: Seq<u64>,
    offset: usize,
    other: Seq<u64>,
)
    ensures
        found(map.insert(fingerprint, offset), fingerprint) == Some(offset),
        other != fingerprint ==> found(map.insert(fingerprint, offset), other) == found(
            map,
            other,
        ),
{
}

/// A fingerprint is contained exactly where a lookup finds it, and an index is
/// empty exactly where it has no entries.
pub proof fn law_contains_and_empty(map: Map<Seq<u64>, usize>, fingerprint: Seq<u64>)
    requires
        map.dom().finite(),
    ensures
        map.contains_key(fingerprint) <==> found(map, fingerprint) is Some,
        map == Map::<Seq<u64>, usize>::empty() <==> map.len() == 0,
{
    if map.len() == 0 {
        assert(map.dom() =~= Set::<Seq<u64>>::empty());
        assert(map =~= Map::<Seq<u64>, usize>::empty());
    }
}

/// A new fingerprint makes the index larger by one, a duplicate does not.
pub proof fn law_insert_count(map: Map<Seq<u64>, usize>, fingerprint: Seq<u64>, offset: usize)
    requires
        map.dom().finite(),
    ensures
        map.contains_key(fingerprint) ==> map.insert(fingerprint, offset).len() == map.len(),
        !map.contains_key(fingerprint) ==> map.insert(fingerprint, offset).len() == map.len() + 1,
{
    if map.contains_key(fingerprint) {
        assert(map.insert(fingerprint, offset).dom() =~= map.dom());
    }
}

/// The index of records holds exactly their fingerprints, each with the place
/// of the last record that carries it.
pub proof fn law_build_lookup(records: Seq<CamRecord>, fingerprint: Seq<u64>)
    requires
        records.len() <= usize::MAX,
    ensures
        match found(places(records), fingerprint) {
            Some(p) => {
                &&& p < records.len()
                &&& records[p as int].header.fingerprint@ == fingerprint
                &&& forall|j: int|
                    p < j < records.len() ==> (#[trigger] records[j]).header.fingerprint@
                        != fingerprint
            },
            None => forall|j: int|
                0 <= j < records.len() ==> (#[trigger] records[j]).header.fingerprint@
                    != fingerprint,
        },
    decreases records.len(),
{
    if records.len() > 0 {
        let rest = records.drop_last();
        law_build_lookup(rest, fingerprint);
        if records.last().header.fingerprint@ != fingerprint {
            assert forall|j: int|
                0 <= j < rest.len() && (#[trigger] records[j]).header.fingerprint@
                    == fingerprint implies rest[j].header.fingerprint@ == fingerprint by {}
        }
    }
}

/// The index of records is as large as they have distinct fingerprints.
pub proof fn law_build_count(records: Seq<CamRecord>)
    ensures
        places(records).dom() == records.map_values(
            |r: CamRecord| r.header.fingerprint@,
        ).to_set(),
        places(records).dom().finite(),
        places(records).len() <= records.len(),
    decreases records.len(),
{
    let f = |r: CamRecord| r.header.fingerprint@;
    let fps = records.map_values(f);
    if records.len() == 0 {
        assert(places(records).dom() =~= fps.to_set());
    } else {
        let rest = records.drop_last();
        law_build_count(rest);
        assert(fps =~= rest.map_values(f).push(records.last().header.fingerprint@));
        assert forall|k: Seq<u64>|
            fps.to_set().contains(k) == places(records).dom().contains(k) by {
            let before = rest.map_values(f);
            if before.to_set().contains(k) {
                let i = choose|i: int| 0 <= i < before.len() && before[i] == k;
                assert(fps[i] == k);
            }
            if k == records.last().header.fingerprint@ {
                assert(fps[rest.len() as int] == k);
            }
            if fps.contains(k) && k != records.last().header.fingerprint@ {
                let i = choose|i: int| 0 <= i < fps.len() && fps[i] == k;
                assert(before[i] == k);
            }
        }
        assert(places(records).dom() =~= fps.to_set());
    }
}

/// The same content is always found again: if the content of a record is that
/// of an indexed one, and both carry the fingerprints of their contents, the
/// index contains the record's fingerprint.
pub proof fn law_same_content_found(records: Seq<CamRecord>, i: int, rec: CamRecord)
    requires
        records.len() <= usize::MAX,
        0 <= i < records.len(),
        records[i].header.fingerprint@ == xor_fold(records[i].content@),
        rec.header.fingerprint@ == xor_fold(rec.content@),
        rec.content@ == records[i].content@,
    ensures
        places(records).contains_key(rec.header.fingerprint@),
{
    law_build_lookup(records, rec.header.fingerprint@);
}

} // verus!
