use lockpick::AesDumpster;
use lockpick::KeyType;
use lockpick::ENTROPY_SCALE;
use lockpick::candidate::to_hex_upper;
use lockpick::entropy::byte_diversity;
use lockpick::entropy::entropy_scaled_bytes;
use lockpick::rules::has_run_of_five;

fn scaled(bits: f64) -> u64 {
    (bits * ENTROPY_SCALE as f64).round() as u64
}

fn dumpster(buffer: Vec<u8>, min_entropy_bits: f64) -> AesDumpster {
    AesDumpster::new(buffer, scaled(min_entropy_bits))
}

/// A 32-byte window of maximal diversity: the values 1..=32.
fn distinct_window() -> Vec<u8> {
    (1u8..=32u8).collect()
}

#[test]
fn entropy_of_constant_window_is_zero() {
    let d = dumpster(Vec::new(), 0.0);
    assert_eq!(d.calculate_entropy(&[0xAAu8; 32]), 0);
    assert_eq!(d.calculate_entropy(&[0x00u8; 32]), 0);
    assert_eq!(d.calculate_entropy(&[0xFFu8; 7]), 0);
}

#[test]
fn entropy_of_empty_window_is_zero() {
    let d = dumpster(Vec::new(), 0.0);
    assert_eq!(d.calculate_entropy(&[]), 0);
}

#[test]
fn entropy_of_all_256_values_is_exactly_eight_bits() {
    let data: Vec<u8> = (0u8..=255u8).collect();
    let d = dumpster(Vec::new(), 0.0);
    assert_eq!(d.calculate_entropy(&data), 8 * ENTROPY_SCALE);
}

#[test]
fn entropy_of_two_balanced_values_is_exactly_one_bit() {
    let mut data = vec![0x41u8; 16];
    data.extend_from_slice(&[0x42u8; 16]);
    let d = dumpster(Vec::new(), 0.0);
    assert_eq!(d.calculate_entropy(&data), ENTROPY_SCALE);
}

#[test]
fn entropy_of_four_balanced_values_is_exactly_two_bits() {
    let mut data = Vec::new();
    for v in [0x10u8, 0x20, 0x30, 0x40] {
        data.extend_from_slice(&[v; 8]);
    }
    let d = dumpster(Vec::new(), 0.0);
    assert_eq!(d.calculate_entropy(&data), 2 * ENTROPY_SCALE);
}

#[test]
fn entropy_stays_within_zero_and_eight_bits() {
    let d = dumpster(Vec::new(), 0.0);
    let samples: Vec<Vec<u8>> = vec![
        Vec::new(),
        vec![0u8; 1],
        (0u8..=255u8).collect(),
        (0u8..=255u8).cycle().take(1000).collect(),
        vec![1, 1, 2, 3, 5, 8, 13, 21, 34, 55, 89, 144, 233],
        distinct_window(),
    ];
    for s in samples {
        let e = entropy_scaled_bytes(&s);
        assert!(e <= 8 * ENTROPY_SCALE);
        assert_eq!(e, d.calculate_entropy(&s));
    }
}

#[test]
fn known_false_positives_are_recognized() {
    let d = dumpster(Vec::new(), 0.0);
    assert!(d.is_false_positive(&[0x00u8; 32]));
    assert!(d.is_false_positive(&[0xFFu8; 32]));
    assert!(d.is_false_positive(&[0xCCu8; 32]));
    assert!(d.is_false_positive(&[0xCDu8; 32]));
}

#[test]
fn other_windows_are_no_false_positives() {
    let d = dumpster(Vec::new(), 0.0);
    // A constant window of another value.
    assert!(!d.is_false_positive(&[0xABu8; 32]));
    // Two distinct values, otherwise matching a known pattern.
    let mut w = vec![0x00u8; 32];
    w[17] = 0x01;
    assert!(!d.is_false_positive(&w));
    let mut w2 = vec![0xCCu8; 32];
    w2[0] = 0xCD;
    assert!(!d.is_false_positive(&w2));
    // The right bytes at the wrong length.
    assert!(!d.is_false_positive(&[0x00u8; 31]));
    assert!(!d.is_false_positive(&[0x00u8; 33]));
}

#[test]
fn diversity_boundary_for_type2() {
    // Exactly 7 distinct values: below the Type2 threshold of 8.
    let mut seven = Vec::new();
    for v in 1u8..=7u8 {
        seven.extend_from_slice(&[v; 4]);
    }
    seven.extend_from_slice(&[7u8; 4]);
    assert_eq!(seven.len(), 32);
    assert_eq!(byte_diversity(&seven), 7);
    assert!(byte_diversity(&seven) < 8);
    // Exactly 8 distinct values: accepted.
    let mut eight = Vec::new();
    for v in 1u8..=8u8 {
        eight.extend_from_slice(&[v; 4]);
    }
    assert_eq!(eight.len(), 32);
    assert_eq!(byte_diversity(&eight), 8);
}

#[test]
fn run_of_five_rejects_type4_regardless_of_diversity() {
    // High diversity but one run of five identical bytes.
    let mut w: Vec<u8> = (1u8..=27u8).collect();
    w.extend_from_slice(&[0x99u8; 5]);
    assert_eq!(w.len(), 32);
    assert!(byte_diversity(&w) >= 16);
    assert!(has_run_of_five(&w));
    // Diversity 16 and maximal run below five: accepted.
    let mut ok = Vec::new();
    for v in 1u8..=16u8 {
        ok.extend_from_slice(&[v; 2]);
    }
    assert_eq!(ok.len(), 32);
    assert_eq!(byte_diversity(&ok), 16);
    assert!(!has_run_of_five(&ok));
    // A run of exactly four is still accepted.
    let mut four = Vec::new();
    for v in 1u8..=8u8 {
        four.extend_from_slice(&[v; 4]);
    }
    assert!(!has_run_of_five(&four));
}

#[test]
fn signature_at_the_edge_of_the_backward_window_is_found() {
    // Marker "FPak" at position 0; offset 256 looks back over [0, 256).
    let mut buffer = vec![0u8; 600];
    buffer[0] = 0x46;
    buffer[1] = 0x50;
    buffer[2] = 0x61;
    buffer[3] = 0x6B;
    let d = dumpster(buffer, 0.0);
    assert!(d.has_ue_signature(256));
    // One byte further the marker falls out of the backward window.
    assert!(!d.has_ue_signature(257));
    // Too little preceding context: never a signature.
    assert!(!d.has_ue_signature(255));
    assert!(!d.has_ue_signature(0));
}

#[test]
fn all_three_markers_are_recognized() {
    for marker in [
        [0x46u8, 0x50, 0x61, 0x6B], // FPak
        [0x41u8, 0x45, 0x53, 0x00], // AES\0
        [0x55u8, 0x45, 0x34, 0x00], // UE4\0
    ] {
        let mut buffer = vec![0u8; 400];
        buffer[100..104].copy_from_slice(&marker);
        let d = dumpster(buffer, 0.0);
        assert!(d.has_ue_signature(300));
    }
}

#[test]
fn zero_filled_buffer_yields_no_candidates() {
    let d = dumpster(vec![0u8; 64], 3.3);
    assert!(d.scan().is_empty());
}

#[test]
fn buffer_shorter_than_a_window_yields_no_candidates() {
    let d = dumpster(vec![0x5Au8; 16], 0.0);
    assert!(d.scan().is_empty());
}

#[test]
fn high_entropy_window_at_unaligned_offset_is_found() {
    // A maximal-diversity window at offset 100; the rest is zero.
    let mut buffer = vec![0u8; 200];
    buffer[100..132].copy_from_slice(&distinct_window());
    let d = dumpster(buffer, 3.3);
    let result = d.scan();
    assert!(result.iter().any(|c| c.offset == 100));
    let hit = result.iter().find(|c| c.offset == 100).unwrap();
    assert_eq!(hit.key, distinct_window());
    // 32 equiprobable values: exactly 5 bits per byte.
    assert_eq!(hit.entropy, 5 * ENTROPY_SCALE);
    // 100 is not 16-aligned, so Type1 cannot be the tag there; the first
    // rule that fires at a 4-aligned offset is Type2.
    assert_eq!(hit.key_type, KeyType::Type2);
}

#[test]
fn high_entropy_window_at_aligned_offset_is_tagged_type1() {
    let mut buffer = vec![0u8; 200];
    buffer[96..128].copy_from_slice(&distinct_window());
    let d = dumpster(buffer, 3.3);
    let result = d.scan();
    let hit = result.iter().find(|c| c.offset == 96).unwrap();
    assert_eq!(hit.key_type, KeyType::Type1);
    assert_eq!(hit.key, distinct_window());
}

#[test]
fn identical_windows_surface_once() {
    // The same 32 bytes at offsets 0 and 64.
    let mut buffer = vec![0u8; 128];
    buffer[0..32].copy_from_slice(&distinct_window());
    buffer[64..96].copy_from_slice(&distinct_window());
    let d = dumpster(buffer, 3.3);
    let result = d.scan();
    let copies = result.iter().filter(|c| c.key == distinct_window()).count();
    assert_eq!(copies, 1);
}

#[test]
fn ranked_output_is_sorted_by_descending_entropy() {
    let mut buffer = vec![0u8; 300];
    buffer[0..32].copy_from_slice(&distinct_window());
    // A lower-entropy but still passing window elsewhere.
    for (k, slot) in buffer[160..192].iter_mut().enumerate() {
        *slot = [0x01u8, 0x02, 0x03, 0x04, 0x05, 0x06, 0x07, 0x08][k % 8];
    }
    let d = dumpster(buffer, 2.0);
    let result = d.scan();
    assert!(result.len() >= 2);
    for pair in result.windows(2) {
        assert!(pair[0].entropy >= pair[1].entropy);
    }
}

#[test]
fn scanning_twice_is_deterministic() {
    let mut buffer = vec![0u8; 256];
    buffer[32..64].copy_from_slice(&distinct_window());
    buffer[200] = 0x77;
    let d = dumpster(buffer, 3.3);
    let first = d.scan();
    let second = d.scan();
    assert_eq!(first, second);
}

#[test]
fn hex_rendering_is_uppercase_without_separators() {
    assert_eq!(to_hex_upper(&[0x00, 0x1F, 0xAB, 0xFF]), "001FABFF");
    assert_eq!(to_hex_upper(&[]), "");
    assert_eq!(to_hex_upper(&[0x0A]), "0A");
}

#[test]
fn candidate_hex_matches_its_key() {
    let mut buffer = vec![0u8; 200];
    buffer[100..132].copy_from_slice(&distinct_window());
    let d = dumpster(buffer, 3.3);
    let result = d.scan();
    let hit = result.iter().find(|c| c.offset == 100).unwrap();
    assert_eq!(hit.hex_string.len(), 64);
    assert_eq!(hit.hex_string, to_hex_upper(&hit.key));
    assert_eq!(
        hit.hex_string,
        "0102030405060708090A0B0C0D0E0F101112131415161718191A1B1C1D1E1F20"
    );
}

#[test]
fn signature_rule_tags_candidates_near_markers() {
    // Marker shortly before a high-entropy window at an odd offset, so
    // only Type3 and Type4 can fire there.
    let mut buffer = vec![0u8; 400];
    buffer[40..44].copy_from_slice(&[0x46, 0x50, 0x61, 0x6B]);
    buffer[261..293].copy_from_slice(&distinct_window());
    let d = dumpster(buffer, 3.3);
    let result = d.scan();
    let hit = result.iter().find(|c| c.offset == 261).unwrap();
    assert_eq!(hit.key_type, KeyType::Type3);
}

#[test]
fn buffer_of_exactly_32_bytes_scans_its_single_window() {
    // The last offset whose window fits is scanned: a 32-byte buffer is
    // one window at offset 0.
    let d = dumpster(distinct_window(), 3.3);
    let result = d.scan();
    assert_eq!(result.len(), 1);
    assert_eq!(result[0].offset, 0);
    assert_eq!(result[0].key_type, KeyType::Type1);
    assert_eq!(result[0].key, distinct_window());
}

#[test]
fn buffer_of_33_bytes_scans_both_offsets() {
    let mut buffer = distinct_window();
    buffer.push(0x00);
    let d = dumpster(buffer, 3.3);
    let result = d.scan();
    // Offset 0 carries the values 1..=32, offset 1 the values 2..=32 and 0:
    // both windows are fully diverse, so both surface, with distinct keys.
    assert_eq!(result.len(), 2);
    let first = result.iter().find(|c| c.offset == 0).unwrap();
    assert_eq!(first.key_type, KeyType::Type1);
    assert_eq!(first.key, distinct_window());
    let second = result.iter().find(|c| c.offset == 1).unwrap();
    assert_eq!(second.key_type, KeyType::Type4);
}
