use cam::bitpack::{BitpackedVector, VECTOR_WORDS};
use cam::fingerprint::{fingerprint_distance, fingerprint_from_10k};
use cam::header::CamHeader;
use cam::index::CamIndex;
use cam::kind::{ContainerKind, WidthVariant};
use cam::layout::{
    DENSE_BYTES, DENSE_WORDS, FINGERPRINT_BITS, FINGERPRINT_WORDS, HEADER_BYTES, HEADER_WORDS,
    HOLO_BYTES, HOLO_WORDS, META_WORDS, MONO_BYTES, MONO_WORDS, M_CHECKSUM, QUANTUM_BITS,
    QUANTUM_WORDS,
};
use cam::prefilter::{cam_prefilter, threshold_with_margin};
use cam::record::CamRecord;

/// A vector of pseudo-random words that depend on the seed alone.
fn random_vector(seed: u64) -> BitpackedVector {
    let mut state = seed;
    let mut words = [0u64; VECTOR_WORDS];
    for word in words.iter_mut() {
        state = state.wrapping_add(0x9E37_79B9_7F4A_7C15);
        let mut z = state;
        z = (z ^ (z >> 30)).wrapping_mul(0xBF58_476D_1CE4_E5B9);
        z = (z ^ (z >> 27)).wrapping_mul(0x94D0_49BB_1331_11EB);
        *word = z ^ (z >> 31);
    }
    // Ten thousand bits fill only the low 16 of the last word.
    words[VECTOR_WORDS - 1] &= 0xFFFF;
    BitpackedVector::from_words(words)
}

#[test]
fn test_constants() {
    assert_eq!(META_WORDS, 32);
    assert_eq!(FINGERPRINT_WORDS, 32);
    assert_eq!(HEADER_WORDS, 64);
    assert_eq!(HEADER_BYTES, 512);
    assert_eq!(FINGERPRINT_BITS, 2048);
    assert_eq!(QUANTUM_WORDS, 128);
    assert_eq!(QUANTUM_BITS, 8192);
    assert_eq!(MONO_WORDS, 192);
    assert_eq!(DENSE_WORDS, 320);
    assert_eq!(HOLO_WORDS, 448);
    assert_eq!(MONO_BYTES, 1536);
    assert_eq!(DENSE_BYTES, 2560);
    assert_eq!(HOLO_BYTES, 3584);
}

#[test]
fn test_container_kind() {
    assert_eq!(ContainerKind::Mono.quanta(), 1);
    assert_eq!(ContainerKind::Dense.quanta(), 2);
    assert_eq!(ContainerKind::Holo.quanta(), 3);
    assert_eq!(ContainerKind::Mono.total_words(), MONO_WORDS);
    assert_eq!(ContainerKind::Dense.total_words(), DENSE_WORDS);
    assert_eq!(ContainerKind::Holo.total_words(), HOLO_WORDS);
}

#[test]
fn test_header_discriminant_roundtrip() {
    let mut h = CamHeader::zero();
    h.set_container_kind(ContainerKind::Dense);
    h.set_width_variant(WidthVariant::W16K);
    h.set_version(42);

    assert_eq!(h.container_kind(), Some(ContainerKind::Dense));
    assert_eq!(h.width_variant(), Some(WidthVariant::W16K));
    assert_eq!(h.version(), 42);
}

#[test]
fn test_header_dn_tree_roundtrip() {
    let mut h = CamHeader::zero();
    h.set_rung(4);
    h.set_depth(7);
    assert_eq!(h.rung(), 4);
    assert_eq!(h.depth(), 7);
}

#[test]
fn test_header_serialize_roundtrip() {
    let mut h = CamHeader::zero();
    h.set_container_kind(ContainerKind::Holo);
    h.set_version(3);
    h.fingerprint[0] = 0xDEADBEEFCAFEBABE;
    h.fingerprint[31] = 0x1234567890ABCDEF;
    h.meta[M_CHECKSUM] = 0xFFFFFFFF;

    let mut buf = [0u64; HEADER_WORDS];
    h.write_to(&mut buf);
    let h2 = CamHeader::read_from(&buf);

    assert_eq!(h2.container_kind(), Some(ContainerKind::Holo));
    assert_eq!(h2.version(), 3);
    assert_eq!(h2.fingerprint[0], 0xDEADBEEFCAFEBABE);
    assert_eq!(h2.fingerprint[31], 0x1234567890ABCDEF);
    assert_eq!(h2.meta[M_CHECKSUM], 0xFFFFFFFF);
}

#[test]
fn test_fingerprint_self_distance() {
    let v = random_vector(42);
    let fp = fingerprint_from_10k(&v);
    assert_eq!(fingerprint_distance(&fp, &fp), 0);
}

#[test]
fn test_fingerprint_match_identical() {
    let v = random_vector(42);
    let r1 = CamRecord::from_10k(&v, false);
    let r2 = CamRecord::from_10k(&v, false);
    assert!(r1.header.fingerprint_match(&r2.header));
}

#[test]
fn test_fingerprint_different() {
    let a = random_vector(1);
    let b = random_vector(2);
    let ra = CamRecord::from_10k(&a, false);
    let rb = CamRecord::from_10k(&b, false);
    assert!(!ra.header.fingerprint_match(&rb.header));
    assert!(ra.header.fingerprint_distance(&rb.header) > 0);
}

#[test]
fn test_cam_record_serialize_roundtrip() {
    let v = random_vector(42);
    let rec = CamRecord::from_10k(&v, false);

    let buf = rec.serialize();
    assert_eq!(buf.len(), HEADER_WORDS + QUANTUM_WORDS);

    let rec2 = CamRecord::deserialize(&buf).unwrap();
    assert_eq!(rec2.header.container_kind(), Some(ContainerKind::Mono));
    assert!(rec2.header.fingerprint_match(&rec.header));
    assert_eq!(rec2.content, rec.content);
}

#[test]
fn test_cam_index_dedup() {
    let a = random_vector(1);
    let b = random_vector(2);

    let ra = CamRecord::from_10k(&a, false);
    let rb = CamRecord::from_10k(&b, false);
    let ra_dup = CamRecord::from_10k(&a, false);

    assert_eq!(
        ra.header.fingerprint, ra_dup.header.fingerprint,
        "Same input must produce same fingerprint"
    );

    let mut idx = CamIndex::new();
    assert!(idx.insert(ra.header.fingerprint, 0));
    assert!(idx.insert(rb.header.fingerprint, 1));
    assert!(!idx.insert(ra_dup.header.fingerprint, 2));

    assert_eq!(idx.len(), 2);
    assert!(idx.contains(&ra.header.fingerprint));
    assert!(idx.contains(&rb.header.fingerprint));
}

#[test]
fn test_cam_prefilter() {
    let records: Vec<CamRecord> =
        (0..100).map(|i| CamRecord::from_10k(&random_vector(i), false)).collect();

    let fingerprints: Vec<[u64; FINGERPRINT_WORDS]> =
        records.iter().map(|r| r.header.fingerprint).collect();

    let query_fp = &fingerprints[42];

    // Threshold 0: exact matches only.
    let exact = cam_prefilter(query_fp, &fingerprints, 0, 10);
    assert_eq!(exact.len(), 1);
    assert_eq!(exact[0].offset, 42);
    assert_eq!(exact[0].sketch_distance, 0);

    // Threshold 2048: everything.
    let all = cam_prefilter(query_fp, &fingerprints, 2048, 200);
    assert_eq!(all.len(), 100);
}

#[test]
fn test_suggest_threshold() {
    let suggest = |similarity: f64| {
        threshold_with_margin(((1.0 - similarity) * FINGERPRINT_BITS as f64) as u32)
    };

    let t95 = suggest(0.95);
    assert!(t95 > 100 && t95 < 200);

    let t80 = suggest(0.80);
    assert!(t80 > 400 && t80 < 500);
}

#[test]
fn test_fold_overflow_preserves_more_signal() {
    let v = random_vector(42);

    let no_fold = CamRecord::from_10k(&v, false);
    let with_fold = CamRecord::from_10k(&v, true);

    let overflow_nonzero = v.words()[QUANTUM_WORDS..].iter().any(|&w| w != 0);
    assert!(overflow_nonzero);

    if overflow_nonzero {
        assert_ne!(no_fold.content, with_fold.content);
    }

    if overflow_nonzero {
        assert_ne!(no_fold.header.fingerprint, with_fold.header.fingerprint);
    }
}

#[test]
fn test_fingerprint_statistics() {
    let mut total_dist = 0u64;
    let trials = 100;
    for i in 0..trials {
        let a = random_vector(i * 2);
        let b = random_vector(i * 2 + 1);
        let fa = fingerprint_from_10k(&a);
        let fb = fingerprint_from_10k(&b);
        total_dist += fingerprint_distance(&fa, &fb) as u64;
    }
    let avg = total_dist as f64 / trials as f64;
    assert!(
        avg > 900.0 && avg < 1150.0,
        "Average fingerprint distance {avg} should be near 1024"
    );
}
