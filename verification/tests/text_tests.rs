use tagscan::endian::Endian;
use tagscan::ids::{Generation, TagHash};
use tagscan::table::{encode_table_u32, read_table_u32, DecodeConfig};
use tagscan::text::{
    decode_text, extract_language_strings, merge_string_entries, parse_string_container,
    parse_string_data, string_container_marker,
};

#[test]
fn decode_text_single_byte_run_shift() {
    // A single-byte run: the byte itself is shifted.
    assert_eq!(decode_text(&[0x41], 1), "B");
}

#[test]
fn decode_text_zero_shift_is_passthrough() {
    assert_eq!(decode_text(b"hello", 0), "hello");
    let eacute = "é".as_bytes();
    assert_eq!(decode_text(eacute, 0), "é");
    assert_eq!(decode_text(&[], 0), "");
}

#[test]
fn decode_text_two_byte_run_shifts_last_byte() {
    // 0xC3 0xA9 is "é"; shifting the run's last byte by 1 gives 0xC3 0xAA, "ê".
    assert_eq!(decode_text(&[0xC3, 0xA9], 1), "ê");
}

#[test]
fn decode_text_mixed_runs() {
    // "AB" with shift 1 becomes "BC": two single-byte runs.
    assert_eq!(decode_text(&[0x41, 0x42], 1), "BC");
}

#[test]
fn decode_text_replaces_invalid_sequences() {
    // 0xFF alone is not valid UTF-8: the lossy decode substitutes U+FFFD.
    assert_eq!(decode_text(&[0xC0, 0x41], 0), "\u{FFFD}A");
}

#[test]
fn table_round_trip_wide() {
    let records = vec![1u32, 2, 3, 0xDEADBEEF];
    let cfg = DecodeConfig { wide: true, endian: Endian::Little };
    let bytes = encode_table_u32(&records, 5, cfg);
    let (decoded, end) = read_table_u32(&bytes, 0, cfg).unwrap();
    assert_eq!(decoded, records);
    assert_eq!(end, 16);
}

#[test]
fn table_round_trip_narrow_big_endian() {
    let records = vec![7u32, 8];
    let cfg = DecodeConfig { wide: false, endian: Endian::Big };
    let bytes = encode_table_u32(&records, 0, cfg);
    let (decoded, end) = read_table_u32(&bytes, 0, cfg).unwrap();
    assert_eq!(decoded, records);
    assert_eq!(end, 8);
}

#[test]
fn table_decode_rejects_truncated_region() {
    let records = vec![1u32, 2, 3];
    let cfg = DecodeConfig { wide: true, endian: Endian::Little };
    let mut bytes = encode_table_u32(&records, 0, cfg);
    bytes.truncate(bytes.len() - 1);
    assert!(read_table_u32(&bytes, 0, cfg).is_err());
}

/// Builds the container bytes of the current generation: a declared size, a
/// one-entry hash table and the language tag reference after it.
fn build_container(hashes: &[u32], language: u32) -> Vec<u8> {
    let mut data = vec![0u8; 28];
    data[0..8].copy_from_slice(&28u64.to_le_bytes());
    // hash table at 8: count, then offset relative to position 16, +16 fixed.
    data[8..16].copy_from_slice(&(hashes.len() as u64).to_le_bytes());
    let elem_start = 28u64;
    let offset = elem_start as i64 - 16 - 16;
    data[16..24].copy_from_slice(&offset.to_le_bytes());
    data[24..28].copy_from_slice(&language.to_le_bytes());
    for h in hashes {
        data.extend_from_slice(&h.to_le_bytes());
    }
    data
}

#[test]
fn container_parses_hashes_and_language_tag() {
    let data = build_container(&[0xAA55, 0x1234], 0x80812001);
    let c = parse_string_container(&data, Generation::Current).unwrap();
    assert_eq!(c.file_size, 28);
    assert_eq!(c.string_hashes, vec![0xAA55, 0x1234]);
    assert_eq!(c.language_english, TagHash(0x80812001));
}

#[test]
fn container_rejects_short_data() {
    assert!(parse_string_container(&[0u8; 6], Generation::Current).is_err());
}

/// Builds a current-generation language data tag holding one combination of
/// one part whose bytes spell `text` with the given cipher shift.
fn build_string_data(text: &[u8], shift: u16) -> Vec<u8> {
    let total = 136 + text.len();
    let mut data = vec![0u8; 136];
    data[0..8].copy_from_slice(&(total as u64).to_le_bytes());
    // part table at 8: one part at 104 => offset 104 - 16 - 16 = 72.
    data[8..16].copy_from_slice(&1u64.to_le_bytes());
    data[16..24].copy_from_slice(&72i64.to_le_bytes());
    // unused table at 24: zero elements at 48.
    data[24..32].copy_from_slice(&0u64.to_le_bytes());
    data[32..40].copy_from_slice(&0i64.to_le_bytes());
    // raw-text table at 40: zero elements at 64.
    data[40..48].copy_from_slice(&0u64.to_le_bytes());
    data[48..56].copy_from_slice(&0i64.to_le_bytes());
    // combination table at 56: one combination at 88 => offset 88 - 64 - 16 = 8.
    data[56..64].copy_from_slice(&1u64.to_le_bytes());
    data[64..72].copy_from_slice(&8i64.to_le_bytes());
    // combination at 88: parts at 104 (offset 16), one part.
    data[88..96].copy_from_slice(&16i64.to_le_bytes());
    data[96..104].copy_from_slice(&1i64.to_le_bytes());
    // part record at 104: bytes at 136 (offset 24 from the pointer at 112).
    data[112..120].copy_from_slice(&24i64.to_le_bytes());
    data[124..126].copy_from_slice(&(text.len() as u16).to_le_bytes());
    data[126..128].copy_from_slice(&(text.len() as u16).to_le_bytes());
    data[128..130].copy_from_slice(&shift.to_le_bytes());
    data.extend_from_slice(text);
    data
}

#[test]
fn string_data_header_parses() {
    let data = build_string_data(b"Hi", 0);
    let sd = parse_string_data(&data, Generation::Current, false).unwrap();
    assert_eq!(sd.string_parts.count, 1);
    assert_eq!(sd.string_parts.start, 104);
    assert_eq!(sd.string_combinations.len(), 1);
    assert_eq!(sd.string_combinations[0].data, 104);
    assert_eq!(sd.string_combinations[0].part_count, 1);
}

#[test]
fn extract_strings_for_hash() {
    let data = build_string_data(b"Hi", 0);
    let hashes = vec![0xBEEF_u32];
    let pairs = extract_language_strings(&hashes, &data, Generation::Current, false).unwrap();
    assert_eq!(pairs, vec![(0xBEEF_u32, "Hi".to_string())]);
}

#[test]
fn extract_applies_cipher_shift() {
    // Stored byte 0x41 with shift 1 decodes to "B".
    let data = build_string_data(&[0x41], 1);
    let hashes = vec![0x1234_u32];
    let pairs = extract_language_strings(&hashes, &data, Generation::Current, false).unwrap();
    assert_eq!(pairs, vec![(0x1234_u32, "B".to_string())]);
}

#[test]
fn extract_excludes_reserved_empty_hash() {
    let data = build_string_data(b"Hi", 0);
    let hashes = vec![0x811c9dc5_u32];
    let pairs = extract_language_strings(&hashes, &data, Generation::Current, false).unwrap();
    assert!(pairs.is_empty());
}

#[test]
fn extract_fails_on_truncated_part_bytes() {
    let mut data = build_string_data(b"Hi", 0);
    data.truncate(data.len() - 1);
    let hashes = vec![0xBEEF_u32];
    assert!(extract_language_strings(&hashes, &data, Generation::Current, false).is_err());
}

#[test]
fn merge_deduplicates_per_hash() {
    let mut map: Vec<(u32, Vec<String>)> = Vec::new();
    let pairs = vec![
        (1u32, "a".to_string()),
        (1u32, "a".to_string()),
        (1u32, "b".to_string()),
        (2u32, "a".to_string()),
    ];
    merge_string_entries(&mut map, &pairs);
    assert_eq!(map.len(), 2);
    assert_eq!(map[0].0, 1);
    assert_eq!(map[0].1, vec!["a".to_string(), "b".to_string()]);
    assert_eq!(map[1].0, 2);
    assert_eq!(map[1].1, vec!["a".to_string()]);
    merge_string_entries(&mut map, &vec![(1u32, "a".to_string())]);
    assert_eq!(map[0].1.len(), 2);
}

#[test]
fn decode_text_zero_shift_is_identity_on_valid_utf8_bytes() {
    let input = "h\u{00e9}llo \u{4e16}\u{754c}";
    let decoded = decode_text(input.as_bytes(), 0);
    assert_eq!(decoded, input);
    assert_eq!(decoded.as_bytes(), input.as_bytes());
}

#[test]
fn string_container_marker_values() {
    assert_eq!(string_container_marker(Generation::Legacy, false), 0x8080035a);
    assert_eq!(
        string_container_marker(Generation::Current, true),
        u32::from_be(0x889a8080)
    );
    assert_eq!(
        string_container_marker(Generation::Current, false),
        u32::from_be(0xEF998080)
    );
}
