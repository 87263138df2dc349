use cam::bitpack::{BitpackedVector, VECTOR_WORDS};
use cam::fingerprint::{fingerprint_distance, fingerprint_from_10k, xor_fold_fingerprint};
use cam::header::CamHeader;
use cam::index::CamIndex;
use cam::kind::{ContainerKind, WidthVariant};
use cam::layout::{
    FINGERPRINT_WORDS, HEADER_BYTES, HEADER_WORDS, META_WORDS, M_DISCRIMINANT, M_DN_TYPE,
    QUANTUM_WORDS,
};
use cam::prefilter::{cam_prefilter, threshold_with_margin};
use cam::record::CamRecord;

/// A fingerprint with `n` ones, from bit 0 on.
fn with_ones(n: usize) -> [u64; FINGERPRINT_WORDS] {
    let mut fp = [0u64; FINGERPRINT_WORDS];
    for i in 0..n {
        fp[i / 64] |= 1u64 << (i % 64);
    }
    fp
}

/// A vector whose words count up from `first`.
fn counting(first: u64) -> BitpackedVector {
    let mut words = [0u64; VECTOR_WORDS];
    for (i, w) in words.iter_mut().enumerate() {
        *w = first + i as u64;
    }
    BitpackedVector::from_words(words)
}

#[test]
fn kinds_have_their_sizes_and_codes() {
    assert_eq!(ContainerKind::Mono.content_words(), 128);
    assert_eq!(ContainerKind::Dense.content_words(), 256);
    assert_eq!(ContainerKind::Holo.content_words(), 384);
    assert_eq!(ContainerKind::Mono.total_bytes(), 1536);
    assert_eq!(ContainerKind::Dense.total_bytes(), 2560);
    assert_eq!(ContainerKind::Holo.total_bytes(), 3584);
    assert_eq!(ContainerKind::from_u8(0), None);
    assert_eq!(ContainerKind::from_u8(1), Some(ContainerKind::Mono));
    assert_eq!(ContainerKind::from_u8(2), Some(ContainerKind::Dense));
    assert_eq!(ContainerKind::from_u8(3), Some(ContainerKind::Holo));
    assert_eq!(ContainerKind::from_u8(4), None);
    assert_eq!(ContainerKind::from_u8(255), None);
    assert_eq!(ContainerKind::Holo.to_u8(), 3);
    assert_eq!(WidthVariant::W10K.to_u8(), 0);
    assert_eq!(WidthVariant::W32K.to_u8(), 2);
}

#[test]
fn unknown_tags_read_as_none() {
    let mut h = CamHeader::zero();
    assert_eq!(h.container_kind(), None);
    assert_eq!(h.width_variant(), Some(WidthVariant::W10K));
    h.meta[M_DISCRIMINANT] = 0x34;
    assert_eq!(h.container_kind(), None);
    assert_eq!(h.width_variant(), None);
    h.meta[M_DISCRIMINANT] = 0x21;
    assert_eq!(h.container_kind(), Some(ContainerKind::Mono));
    assert_eq!(h.width_variant(), Some(WidthVariant::W32K));
}

#[test]
fn setters_keep_every_other_bit() {
    let mut h = CamHeader::zero();
    h.meta[M_DISCRIMINANT] = u64::MAX;
    h.meta[M_DN_TYPE] = u64::MAX;
    h.set_container_kind(ContainerKind::Dense);
    assert_eq!(h.meta[M_DISCRIMINANT], 0xFFFF_FFFF_FFFF_FFF2);
    h.set_width_variant(WidthVariant::W16K);
    assert_eq!(h.meta[M_DISCRIMINANT], 0xFFFF_FFFF_FFFF_FF12);
    h.set_version(0xAB);
    assert_eq!(h.meta[M_DISCRIMINANT], 0xFFFF_FFFF_FFFF_AB12);
    h.set_rung(0x5C);
    assert_eq!(h.meta[M_DN_TYPE], 0xFFFF_FFFF_FFFF_5CFF);
    h.set_depth(0x09);
    assert_eq!(h.meta[M_DN_TYPE], 0xFFFF_FFFF_FF09_5CFF);
    assert_eq!(h.rung(), 0x5C);
    assert_eq!(h.version(), 0xAB);
    assert_eq!(h.meta[2], 0);
}

#[test]
fn default_header_is_zero() {
    let h = CamHeader::default();
    assert_eq!(h.meta, [0u64; META_WORDS]);
    assert!(h.fingerprint_is_empty());
    assert_eq!(h.fingerprint_popcount(), 0);
}

#[test]
fn writing_keeps_the_rest_of_the_buffer() {
    let mut h = CamHeader::zero();
    h.meta[0] = 11;
    h.meta[31] = 12;
    h.fingerprint[0] = 13;
    let mut buf = vec![7u64; HEADER_WORDS + 3];
    h.write_to(&mut buf);
    assert_eq!(buf[0], 11);
    assert_eq!(buf[31], 12);
    assert_eq!(buf[32], 13);
    assert_eq!(buf[33], 0);
    assert_eq!(&buf[HEADER_WORDS..], &[7, 7, 7]);
    let back = CamHeader::read_from(&buf);
    assert_eq!(back.meta, h.meta);
    assert_eq!(back.fingerprint, h.fingerprint);
    let copy = back.clone();
    assert_eq!(copy.meta, h.meta);
    assert_eq!(copy.fingerprint, h.fingerprint);
}

#[test]
fn header_bytes_are_those_in_memory() {
    let mut h = CamHeader::zero();
    h.meta[0] = 0x0102_0304_0506_0708;
    h.fingerprint[31] = 0xFF00_0000_0000_00AA;
    let bytes = h.as_bytes();
    assert_eq!(bytes.len(), HEADER_BYTES);
    let mut expected: Vec<u8> = Vec::new();
    for word in h.meta.iter().chain(h.fingerprint.iter()) {
        expected.extend_from_slice(&word.to_ne_bytes());
    }
    assert_eq!(bytes, expected);
    let mut other = h.clone();
    other.meta[5] ^= 1 << 63;
    assert_ne!(bytes, other.as_bytes());
}

#[test]
fn header_bytes_come_in_either_order() {
    let mut h = CamHeader::zero();
    h.meta[0] = 0x0102_0304_0506_0708;
    h.fingerprint[31] = 0xFF00_0000_0000_00AA;
    let little = h.bytes_in_order(true);
    assert_eq!(little.len(), HEADER_BYTES);
    assert_eq!(&little[0..8], &[8, 7, 6, 5, 4, 3, 2, 1]);
    assert_eq!(&little[8..16], &[0; 8]);
    assert_eq!(&little[504..512], &[0xAA, 0, 0, 0, 0, 0, 0, 0xFF]);
    let big = h.bytes_in_order(false);
    assert_eq!(big.len(), HEADER_BYTES);
    assert_eq!(&big[0..8], &[1, 2, 3, 4, 5, 6, 7, 8]);
    assert_eq!(&big[8..16], &[0; 8]);
    assert_eq!(&big[504..512], &[0xFF, 0, 0, 0, 0, 0, 0, 0xAA]);
}

#[test]
fn distance_counts_differing_bits() {
    let zero = with_ones(0);
    let a = with_ones(100);
    let b = with_ones(2048);
    assert_eq!(fingerprint_distance(&zero, &a), 100);
    assert_eq!(fingerprint_distance(&a, &zero), 100);
    assert_eq!(fingerprint_distance(&a, &b), 1948);
    assert_eq!(fingerprint_distance(&zero, &b), 2048);
    assert!(
        fingerprint_distance(&zero, &b)
            <= fingerprint_distance(&zero, &a) + fingerprint_distance(&a, &b)
    );
    let mut h = CamHeader::zero();
    h.fingerprint = a;
    assert_eq!(h.fingerprint_popcount(), 100);
    assert!(!h.fingerprint_is_empty());
    assert_eq!(h.fingerprint_distance(&CamHeader::zero()), 100);
    assert!(!h.fingerprint_match(&CamHeader::zero()));
    h.fingerprint = b;
    assert_eq!(h.fingerprint_popcount(), 2048);
}

#[test]
fn folding_collects_lanes() {
    assert_eq!(xor_fold_fingerprint(&[]), [0u64; FINGERPRINT_WORDS]);
    let short = xor_fold_fingerprint(&[5, 6]);
    assert_eq!(short[0], 5);
    assert_eq!(short[1], 6);
    assert_eq!(short[2], 0);
    let mut content = vec![0u64; 100];
    content[3] = 0b0011;
    content[35] = 0b0101;
    content[99] = 0b1000;
    let fp = xor_fold_fingerprint(&content);
    assert_eq!(fp[3], 0b1110);
    assert_eq!(fp.iter().filter(|&&w| w != 0).count(), 1);
    assert_eq!(xor_fold_fingerprint(&vec![0u64; 77]), [0u64; FINGERPRINT_WORDS]);
}

#[test]
fn folding_is_linear_and_brings_closer() {
    let a: Vec<u64> = (0..200u64).map(|i| i * 0x1234_5677).collect();
    let b: Vec<u64> = (0..200u64).map(|i| i * i + 17).collect();
    let x: Vec<u64> = a.iter().zip(&b).map(|(u, v)| u ^ v).collect();
    let fa = xor_fold_fingerprint(&a);
    let fb = xor_fold_fingerprint(&b);
    let fx = xor_fold_fingerprint(&x);
    for i in 0..FINGERPRINT_WORDS {
        assert_eq!(fx[i], fa[i] ^ fb[i]);
    }
    let apart: u32 = x.iter().map(|w| w.count_ones()).sum();
    assert!(fingerprint_distance(&fa, &fb) <= apart);
    assert_eq!(fingerprint_distance(&fa, &fb) % 2, apart % 2);

    let mut changed = a.clone();
    changed[150] ^= 4;
    assert_eq!(fingerprint_distance(&fa, &xor_fold_fingerprint(&changed)), 1);
}

#[test]
fn folding_splits_at_whole_lengths() {
    let a: Vec<u64> = (0..64u64).map(|i| i * 3).collect();
    let b: Vec<u64> = (0..45u64).map(|i| i * 5 + 1).collect();
    let mut ab = a.clone();
    ab.extend_from_slice(&b);
    let fa = xor_fold_fingerprint(&a);
    let fb = xor_fold_fingerprint(&b);
    let fab = xor_fold_fingerprint(&ab);
    for i in 0..FINGERPRINT_WORDS {
        assert_eq!(fab[i], fa[i] ^ fb[i]);
    }
}

#[test]
fn record_of_a_10k_vector() {
    let v = counting(1000);
    let plain = CamRecord::from_10k(&v, false);
    assert_eq!(plain.content_slice(), &v.words()[..QUANTUM_WORDS]);
    assert_eq!(plain.kind(), Some(ContainerKind::Mono));
    assert_eq!(plain.header.width_variant(), Some(WidthVariant::W10K));
    assert_eq!(plain.header.version(), 1);
    assert_eq!(plain.header.meta[M_DISCRIMINANT], 0x101);
    assert!(plain.header.meta[1..].iter().all(|&w| w == 0));
    assert_eq!(plain.header.fingerprint, xor_fold_fingerprint(&plain.content));
    assert_eq!(plain.total_words(), ContainerKind::Mono.total_words());

    let folded = CamRecord::from_10k(&v, true);
    assert_eq!(folded.content.len(), QUANTUM_WORDS);
    assert_eq!(folded.content[0], 1000 ^ 1128);
    assert_eq!(folded.content[28], 1028 ^ 1156);
    assert_eq!(folded.content[29], 1029);
    assert_eq!(folded.content[127], 1127);
}

#[test]
fn folded_overflow_keeps_the_fingerprint_of_the_vector() {
    let v = counting(77);
    let folded = CamRecord::from_10k(&v, true);
    assert_eq!(folded.header.fingerprint, fingerprint_from_10k(&v));

    // Without overflow both ways give the same record.
    let mut words = [9u64; VECTOR_WORDS];
    for w in words[QUANTUM_WORDS..].iter_mut() {
        *w = 0;
    }
    let even = BitpackedVector::from_words(words);
    let a = CamRecord::from_10k(&even, false);
    let b = CamRecord::from_10k(&even, true);
    assert_eq!(a.content, b.content);
    assert_eq!(a.header.fingerprint, b.header.fingerprint);

    // A single bit beyond the quantum shows.
    words[VECTOR_WORDS - 1] = 1;
    let odd = BitpackedVector::from_words(words);
    let c = CamRecord::from_10k(&odd, false);
    let d = CamRecord::from_10k(&odd, true);
    assert_ne!(c.content, d.content);
    assert_eq!(c.header.fingerprint_distance(&d.header), 1);
}

#[test]
fn record_of_a_16k_vector() {
    let mut words = [0u64; 256];
    for (i, w) in words.iter_mut().enumerate() {
        *w = (i as u64) << 8;
    }
    let rec = CamRecord::mono_from_16k(&words);
    assert_eq!(rec.content, words.to_vec());
    assert_eq!(rec.kind(), Some(ContainerKind::Mono));
    assert_eq!(rec.header.width_variant(), Some(WidthVariant::W16K));
    assert_eq!(rec.header.version(), 1);
    assert_eq!(rec.header.meta[M_DISCRIMINANT], 0x111);
    assert_eq!(rec.header.fingerprint, xor_fold_fingerprint(&words));
    assert_eq!(rec.total_words(), HEADER_WORDS + 2 * QUANTUM_WORDS);
    let back = CamRecord::deserialize(&rec.serialize()).unwrap();
    assert_eq!(back.kind(), Some(ContainerKind::Mono));
    assert_eq!(back.content, rec.content);
}

#[test]
fn loading_needs_a_whole_header() {
    assert!(CamRecord::deserialize(&[]).is_none());
    assert!(CamRecord::deserialize(&[1u64; 63]).is_none());
    let bare = CamRecord::deserialize(&[1u64; 64]).unwrap();
    assert!(bare.content.is_empty());
    assert_eq!(bare.kind(), Some(ContainerKind::Mono));
    assert_eq!(bare.total_words(), 64);
    let odd: Vec<u64> = (0..70).collect();
    let rec = CamRecord::deserialize(&odd).unwrap();
    assert_eq!(rec.content, vec![64, 65, 66, 67, 68, 69]);
    assert_eq!(rec.serialize(), odd);
}

#[test]
fn refreshing_follows_the_content() {
    let mut rec = CamRecord::from_10k(&counting(5), false);
    let copy = rec.clone();
    rec.content[40] ^= 0xF0;
    assert!(rec.header.fingerprint_match(&copy.header));
    rec.refresh_fingerprint();
    assert_eq!(rec.header.fingerprint_distance(&copy.header), 4);
    assert_eq!(rec.header.fingerprint[8], copy.header.fingerprint[8] ^ 0xF0);
    assert_eq!(rec.header.meta, copy.header.meta);
    rec.content[40] ^= 0xF0;
    rec.refresh_fingerprint();
    assert!(rec.header.fingerprint_match(&copy.header));
}

#[test]
fn index_finds_the_last_offset() {
    let mut idx = CamIndex::default();
    assert!(idx.is_empty());
    assert_eq!(idx.len(), 0);
    assert_eq!(idx.lookup(&with_ones(1)), None);
    assert!(idx.insert(with_ones(1), 10));
    assert!(idx.insert(with_ones(2), 20));
    assert!(!idx.is_empty());
    assert_eq!(idx.lookup(&with_ones(1)), Some(10));
    assert!(!idx.insert(with_ones(1), 30));
    assert_eq!(idx.lookup(&with_ones(1)), Some(30));
    assert_eq!(idx.lookup(&with_ones(2)), Some(20));
    assert!(!idx.contains(&with_ones(3)));
    assert_eq!(idx.len(), 2);
}

#[test]
fn index_takes_any_capacity_and_many_entries() {
    assert!(CamIndex::with_capacity(0).is_empty());
    assert!(CamIndex::with_capacity(usize::MAX).is_empty());
    let mut idx = CamIndex::with_capacity(4);
    for n in 0..2049 {
        assert!(idx.insert(with_ones(n), n));
    }
    assert_eq!(idx.len(), 2049);
    for n in 0..2049 {
        assert_eq!(idx.lookup(&with_ones(n)), Some(n));
    }
}

#[test]
fn fingerprints_with_one_digest_are_told_apart() {
    // The digest turns by 7 bits from word to word: a bit in word 30 and the
    // bit 7 places lower in word 29 meet.
    let mut a = [0u64; FINGERPRINT_WORDS];
    a[30] = 1 << 20;
    let mut b = [0u64; FINGERPRINT_WORDS];
    b[29] = 1 << 13;
    let mut idx = CamIndex::new();
    assert!(idx.insert(a, 1));
    assert_eq!(idx.lookup(&b), None);
    assert!(idx.insert(b, 2));
    assert_eq!(idx.lookup(&a), Some(1));
    assert_eq!(idx.lookup(&b), Some(2));
    assert_eq!(idx.len(), 2);
}

#[test]
fn building_indexes_every_record() {
    let records = [
        CamRecord::from_10k(&counting(1), false),
        CamRecord::from_10k(&counting(2), false),
        CamRecord::from_10k(&counting(1), false),
        CamRecord::from_10k(&counting(9), true),
    ];
    let idx = CamIndex::build(&records);
    assert_eq!(idx.len(), 3);
    assert_eq!(idx.lookup(&records[0].header.fingerprint), Some(2));
    assert_eq!(idx.lookup(&records[1].header.fingerprint), Some(1));
    assert_eq!(idx.lookup(&records[3].header.fingerprint), Some(3));
    let again = CamRecord::from_10k(&counting(2), false);
    assert!(idx.contains(&again.header.fingerprint));
    assert!(CamIndex::build(&[]).is_empty());
}

#[test]
fn prefilter_ranks_by_distance_and_offset() {
    let store =
        [with_ones(9), with_ones(3), with_ones(40), with_ones(0), with_ones(3), with_ones(12)];
    let query = with_ones(5);
    let pairs = |threshold: u32, max: usize| -> Vec<(usize, u32)> {
        cam_prefilter(&query, &store, threshold, max)
            .iter()
            .map(|c| (c.offset, c.sketch_distance))
            .collect()
    };
    let all = vec![(1, 2), (4, 2), (0, 4), (3, 5), (5, 7), (2, 35)];
    assert_eq!(pairs(2048, 10), all);
    assert_eq!(pairs(u32::MAX, 10), all);
    assert_eq!(pairs(35, 10), all);
    assert_eq!(pairs(34, 10), all[..5].to_vec());
    assert_eq!(pairs(4, 10), all[..3].to_vec());
    assert_eq!(pairs(1, 10), vec![]);
    assert_eq!(pairs(2048, 1), all[..1].to_vec());
    assert_eq!(pairs(2048, 3), all[..3].to_vec());
    assert_eq!(pairs(2048, 0), vec![]);
    assert!(cam_prefilter(&query, &[], 2048, 5).is_empty());
}

#[test]
fn prefilter_bounds_are_inclusive() {
    let store = [with_ones(2048), with_ones(0)];
    let query = with_ones(0);
    assert_eq!(cam_prefilter(&query, &store, 2047, 9).len(), 1);
    let both = cam_prefilter(&query, &store, 2048, 9);
    assert_eq!(both.len(), 2);
    assert_eq!(both[1].clone().sketch_distance, 2048);
    let exact = cam_prefilter(&with_ones(0), &store, 0, 9);
    assert_eq!(exact.len(), 1);
    assert_eq!(exact[0].offset, 1);
}

#[test]
fn margin_saturates() {
    assert_eq!(threshold_with_margin(0), 46);
    assert_eq!(threshold_with_margin(102), 148);
    assert_eq!(threshold_with_margin(u32::MAX - 46), u32::MAX);
    assert_eq!(threshold_with_margin(u32::MAX - 45), u32::MAX);
    assert_eq!(threshold_with_margin(u32::MAX), u32::MAX);
}

#[test]
fn close_content_is_promoted() {
    let a = counting(300);
    let mut words = a.words;
    words[4] ^= 0b111;
    words[140] ^= 0b1;
    let b = BitpackedVector::from_words(words);
    for fold in [false, true] {
        let ra = CamRecord::from_10k(&a, fold);
        let rb = CamRecord::from_10k(&b, fold);
        let d = ra.header.fingerprint_distance(&rb.header);
        assert_eq!(d, if fold { 4 } else { 3 });
        let store = [with_ones(0), rb.header.fingerprint];
        let near = cam_prefilter(&ra.header.fingerprint, &store, 4, 5);
        assert_eq!(near.len(), 1);
        assert_eq!(near[0].offset, 1);
        assert_eq!(near[0].sketch_distance, d);
    }
}
