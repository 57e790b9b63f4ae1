use lazysimd::ParseError;
use lazysimd::SimdPatternScanData;
use lazysimd::build_match_indexes;
use lazysimd::find_pattern_neon;
use lazysimd::get_offset_neon;
use lazysimd::pattern_to_vec;

#[test]
fn compile_leading_wildcard() {
    let pd = SimdPatternScanData::new("?? AA BB").unwrap();
    assert_eq!(pd.leading_ignore_count, 1);
    assert_eq!(pd.bytes, vec![0u8, 0xAA, 0xBB]);
    assert_eq!(pd.mask, vec![0u8, 1, 1]);
}

#[test]
fn compile_inner_wildcard() {
    let pd = SimdPatternScanData::new("11 ?? 33").unwrap();
    assert_eq!(pd.leading_ignore_count, 0);
    assert_eq!(pd.bytes, vec![0x11u8, 0, 0x33]);
    assert_eq!(pd.mask, vec![1u8, 0, 1]);
}

#[test]
fn compile_rejects_bad_token() {
    assert_eq!(
        SimdPatternScanData::new("ZZ").err(),
        Some(ParseError::InvalidToken)
    );
}

#[test]
fn compile_rejects_bad_token_among_good_ones() {
    assert_eq!(
        SimdPatternScanData::new("11 ZZ 33").err(),
        Some(ParseError::InvalidToken)
    );
}

#[test]
fn compile_rejects_all_wildcards() {
    assert_eq!(
        SimdPatternScanData::new("?? ??").err(),
        Some(ParseError::AllWildcards)
    );
}

#[test]
fn compile_rejects_empty_text() {
    assert_eq!(
        SimdPatternScanData::new("").err(),
        Some(ParseError::InvalidToken)
    );
}

#[test]
fn compile_rejects_short_and_long_tokens() {
    assert_eq!(
        SimdPatternScanData::new("5").err(),
        Some(ParseError::InvalidToken)
    );
    assert_eq!(
        SimdPatternScanData::new("123").err(),
        Some(ParseError::InvalidToken)
    );
    assert_eq!(
        SimdPatternScanData::new("11 2").err(),
        Some(ParseError::InvalidToken)
    );
}

#[test]
fn compile_rejects_adjacent_spaces() {
    assert_eq!(
        SimdPatternScanData::new("11  22").err(),
        Some(ParseError::InvalidToken)
    );
}

#[test]
fn compile_rejects_prefixed_wildcard() {
    assert_eq!(
        SimdPatternScanData::new("0x??").err(),
        Some(ParseError::InvalidToken)
    );
}

#[test]
fn compile_accepts_hex_prefix() {
    let pd = SimdPatternScanData::new("0x11 ?? 0x33").unwrap();
    assert_eq!(pd.bytes, vec![0x11u8, 0, 0x33]);
    assert_eq!(pd.mask, vec![1u8, 0, 1]);
    assert_eq!(pd.leading_ignore_count, 0);
}

#[test]
fn compile_accepts_mixed_case_hex() {
    let pd = SimdPatternScanData::new("aB Cd ef").unwrap();
    assert_eq!(pd.bytes, vec![0xABu8, 0xCD, 0xEF]);
    assert_eq!(pd.mask, vec![1u8, 1, 1]);
}

#[test]
fn match_table_counts_concrete_bytes_after_anchor() {
    let pd = SimdPatternScanData::new("11 ?? 33").unwrap();
    assert_eq!(build_match_indexes(&pd), vec![1u16]);
}

#[test]
fn match_table_keeps_order_and_true_length() {
    let pd = SimdPatternScanData::new("?? AA ?? BB CC ?? DD").unwrap();
    assert_eq!(build_match_indexes(&pd), vec![0u16, 2, 3, 5]);
}

#[test]
fn match_table_is_empty_for_single_byte_pattern() {
    let pd = SimdPatternScanData::new("7F").unwrap();
    assert_eq!(build_match_indexes(&pd), Vec::<u16>::new());
}

#[test]
fn blocker_zero_pads_final_block() {
    let pd = SimdPatternScanData::new("11 22 33").unwrap();
    let blocks = pattern_to_vec(&pd);
    assert_eq!(blocks.len(), 1);
    assert_eq!(blocks[0].lane(0), 0x22);
    assert_eq!(blocks[0].lane(1), 0x33);
    for l in 2..16 {
        assert_eq!(blocks[0].lane(l), 0);
    }
}

#[test]
fn blocker_splits_long_tail_into_two_blocks() {
    let pd = SimdPatternScanData::new(
        "01 02 03 04 05 06 07 08 09 0A 0B 0C 0D 0E 0F 10 11 12 13 14",
    )
    .unwrap();
    let blocks = pattern_to_vec(&pd);
    assert_eq!(blocks.len(), 2);
    for l in 0..16 {
        assert_eq!(blocks[0].lane(l), (l + 2) as u8);
    }
    assert_eq!(blocks[1].lane(0), 0x12);
    assert_eq!(blocks[1].lane(1), 0x13);
    assert_eq!(blocks[1].lane(2), 0x14);
    for l in 3..16 {
        assert_eq!(blocks[1].lane(l), 0);
    }
}

#[test]
fn blocker_yields_no_block_for_single_byte_pattern() {
    let pd = SimdPatternScanData::new("7F").unwrap();
    assert_eq!(pattern_to_vec(&pd).len(), 0);
}

#[test]
fn finds_masked_pattern_in_small_haystack() {
    let hay = [0x00u8, 0x11, 0x22, 0x33, 0x44];
    assert_eq!(find_pattern_neon(&hay, "11 ?? 33"), Some(1));
}

#[test]
fn reports_not_found_without_anchor_byte() {
    let hay = [0x00u8, 0x01, 0x02, 0x03, 0x04, 0x05, 0x06, 0x07];
    assert_eq!(find_pattern_neon(&hay, "11 ?? 33"), None);
}

#[test]
fn repeated_searches_agree() {
    let hay = [0x10u8, 0x20, 0x30, 0x40, 0x20, 0x30];
    let first = find_pattern_neon(&hay, "20 30");
    let second = find_pattern_neon(&hay, "20 30");
    assert_eq!(first, second);
    assert_eq!(first, Some(1));
}

#[test]
fn single_concrete_byte_degenerates_to_byte_search() {
    let hay = [0x00u8, 0x42, 0x00, 0x42, 0x00];
    assert_eq!(find_pattern_neon(&hay, "42"), Some(1));
    assert_eq!(find_pattern_neon(&hay, "?? 42 ??"), Some(0));
}

#[test]
fn leading_wildcards_cannot_reach_before_the_buffer() {
    // The anchor byte at offset 0 would put the pattern start at -2;
    // only the occurrence at offset 3 yields a full in-buffer match.
    let hay = [0xAAu8, 0x00, 0x00, 0xAA, 0x00];
    assert_eq!(find_pattern_neon(&hay, "?? ?? AA"), Some(1));
}

#[test]
fn match_at_offset_zero() {
    let hay = [0x11u8, 0x22, 0x33];
    assert_eq!(find_pattern_neon(&hay, "11 22"), Some(0));
}

#[test]
fn haystack_equal_to_pattern_matches_whole() {
    let hay = [0x11u8, 0x22];
    assert_eq!(find_pattern_neon(&hay, "11 22"), Some(0));
}

#[test]
fn haystack_shorter_than_pattern_is_not_searched() {
    let hay = [0x11u8];
    assert_eq!(find_pattern_neon(&hay, "11 22"), None);
}

#[test]
fn failed_candidate_backtracks_to_later_match() {
    let hay = [0xAAu8, 0xCC, 0xAA, 0xBB];
    assert_eq!(find_pattern_neon(&hay, "AA BB"), Some(2));
}

#[test]
fn overlapping_candidates_yield_first_full_match() {
    // Anchor candidates at 0, 2 and 4; verification fails on the first two.
    let hay = [0x7Eu8, 0x01, 0x7E, 0x02, 0x7E, 0x03, 0x99];
    assert_eq!(find_pattern_neon(&hay, "7E 03"), Some(4));
}

#[test]
fn match_found_at_end_of_buffer() {
    let mut hay = vec![0u8; 40];
    hay[38] = 0x5A;
    hay[39] = 0x5B;
    assert_eq!(find_pattern_neon(&hay, "5A 5B"), Some(38));
}

#[test]
fn malformed_pattern_searches_nothing() {
    let hay = [0x11u8, 0x22, 0x33];
    assert_eq!(find_pattern_neon(&hay, "11 ZZ"), None);
    assert_eq!(find_pattern_neon(&hay, "?? ??"), None);
}

#[test]
fn long_pattern_spans_multiple_blocks() {
    let mut hay = vec![0u8; 64];
    for (k, b) in (0x10u8..0x24).enumerate() {
        hay[21 + k] = b;
    }
    let sig = "10 11 12 13 14 15 16 17 18 19 1A 1B 1C 1D 1E 1F 20 21 22 23";
    assert_eq!(find_pattern_neon(&hay, sig), Some(21));
}

#[test]
fn long_pattern_with_wildcards_in_second_block() {
    let mut hay = vec![0u8; 64];
    for (k, b) in (0x10u8..0x24).enumerate() {
        hay[21 + k] = b;
    }
    // Positions 16..18 of the pattern are ignored, so the bytes there differ.
    hay[21 + 16] = 0xFF;
    hay[21 + 17] = 0xFF;
    let sig = "10 11 12 13 14 15 16 17 18 19 1A 1B 1C 1D 1E 1F ?? ?? 22 23";
    assert_eq!(find_pattern_neon(&hay, sig), Some(21));
}

#[test]
fn long_pattern_mismatch_in_second_block_is_rejected() {
    let mut hay = vec![0u8; 64];
    for (k, b) in (0x10u8..0x24).enumerate() {
        hay[21 + k] = b;
    }
    hay[21 + 17] = 0xFF;
    let sig = "10 11 12 13 14 15 16 17 18 19 1A 1B 1C 1D 1E 1F 20 21 22 23";
    assert_eq!(find_pattern_neon(&hay, sig), None);
}

#[test]
fn round_trip_recovers_slice_offset() {
    let hay = [0x31u8, 0x57, 0x62, 0x9C, 0x04, 0x7B, 0xE1, 0x55, 0x08];
    // The slice hay[3..7] with position 1 turned into a wildcard.
    assert_eq!(find_pattern_neon(&hay, "9C ?? 7B E1"), Some(3));
}

#[test]
fn round_trip_reports_earlier_occurrence_first() {
    // The motif cut from offset 4 also occurs, under the mask, at offset 0.
    let hay = [0x10u8, 0xEE, 0x30, 0x00, 0x10, 0x20, 0x30, 0x40];
    assert_eq!(find_pattern_neon(&hay, "10 ?? 30"), Some(0));
}

#[test]
fn get_offset_neon_agrees_with_find_pattern_neon() {
    let hay = [0x00u8, 0x11, 0x22, 0x33, 0x44];
    assert_eq!(get_offset_neon(&hay, "11 ?? 33"), Some(1));
    assert_eq!(
        get_offset_neon(&hay, "11 ?? 33"),
        find_pattern_neon(&hay, "11 ?? 33")
    );
}

#[test]
fn anchor_zero_byte_is_searchable() {
    let hay = [0x01u8, 0x00, 0x02, 0x00, 0x03];
    assert_eq!(find_pattern_neon(&hay, "00 03"), Some(3));
}

#[test]
fn zero_anchor_does_not_match_past_the_buffer() {
    // The clipped window loads read zero past the end; those lanes must
    // never count as occurrences of a zero anchor byte.
    let hay = [0x01u8, 0x02, 0x03];
    assert_eq!(find_pattern_neon(&hay, "00"), None);
}
