use tagscan::endian::Endian;
use tagscan::hashes::{fnv1, FNV1_BASE};
use tagscan::ids::{Generation, TagHash, TagHash64};
use tagscan::scanner::{
    advance_scan_status, create_scanner_context, read_raw_string_blob, scan_entry, scan_file,
    scanner_progress, ScanStatus, RAW_STRING_MAGIC,
};

fn current_context(valid32: &[u32], valid64: &[u64], strings: &[u32]) -> tagscan::scanner::ScannerContext {
    let packages: Vec<(u16, u16)> = Vec::new();
    let mut ctx = create_scanner_context(
        &packages,
        &valid64.to_vec(),
        &strings.to_vec(),
        Generation::Current,
    );
    for v in valid32 {
        ctx.valid_file_hashes.insert(*v);
    }
    ctx
}

#[test]
fn fnv1_of_empty_is_base() {
    assert_eq!(fnv1(&[]), FNV1_BASE);
    assert_eq!(fnv1(&[]), 0x811c9dc5);
}

#[test]
fn fnv1_exact_values() {
    assert_eq!(fnv1(b"a"), 0x050c5d7e);
    assert_eq!(fnv1(b"hello"), 0xb6fa7167);
}

#[test]
fn tag_hash_encoding() {
    let h = TagHash::new(9, 1);
    assert_eq!(h.0, 0x80812001);
    assert_eq!(h.pkg_id(), 9);
    assert_eq!(h.entry_index(), 1);
    assert!(h.is_pkg_file());
    let low = TagHash::new(3, 0);
    assert!(!low.is_pkg_file());
    assert!(!TagHash(0xffffffff).is_pkg_file());
    assert_eq!(TagHash::new(0x3ac, 5).0, 0x80f58005);
}

#[test]
fn scan_records_valid_reference_at_aligned_offset() {
    let id = TagHash::new(9, 1).0;
    let ctx = current_context(&[id], &[], &[]);
    let mut data = vec![0u8; 4];
    data.extend_from_slice(&id.to_le_bytes());
    data.extend_from_slice(&[1, 2, 3, 4]);
    let r = scan_file(&ctx, &data);
    assert!(r.successful);
    assert_eq!(r.file_hashes.len(), 1);
    assert_eq!(r.file_hashes[0].offset, 4);
    assert_eq!(r.file_hashes[0].hash, TagHash(id));
    assert!(r.references.is_empty());
}

#[test]
fn scan_ignores_unaligned_and_unknown_values() {
    let id = TagHash::new(9, 1).0;
    let ctx = current_context(&[], &[], &[]);
    let mut data = Vec::new();
    data.extend_from_slice(&id.to_le_bytes());
    let r = scan_file(&ctx, &data);
    assert!(r.file_hashes.is_empty());
}

#[test]
fn scan_records_string_hash_but_not_reserved_hash() {
    let hash: u32 = 0xDEADBEEF;
    let ctx = current_context(&[], &[], &[hash, FNV1_BASE]);
    let mut data = Vec::new();
    data.extend_from_slice(&hash.to_le_bytes());
    data.extend_from_slice(&FNV1_BASE.to_le_bytes());
    let r = scan_file(&ctx, &data);
    assert_eq!(r.string_hashes.len(), 1);
    assert_eq!(r.string_hashes[0].offset, 0);
    assert_eq!(r.string_hashes[0].hash, hash);
}

#[test]
fn scan_records_hash64() {
    let v: u64 = 0x1122334455667788;
    let ctx = current_context(&[], &[v], &[]);
    let mut data = Vec::new();
    data.extend_from_slice(&[0u8; 8]);
    data.extend_from_slice(&v.to_le_bytes());
    let r = scan_file(&ctx, &data);
    assert_eq!(r.file_hashes64.len(), 1);
    assert_eq!(r.file_hashes64[0].offset, 8);
    assert_eq!(r.file_hashes64[0].hash, TagHash64(v));
}

#[test]
fn raw_string_blob_current_generation() {
    // Marker at offset 0, little-endian 64-bit length 9, then "foo\0bar\0\0".
    let mut data = Vec::new();
    data.extend_from_slice(&RAW_STRING_MAGIC.to_le_bytes());
    data.extend_from_slice(&9u64.to_le_bytes());
    data.extend_from_slice(b"foo\0bar\0\0");
    let strings = read_raw_string_blob(&data, 0, Generation::Current);
    assert_eq!(strings.len(), 2);
    assert_eq!(strings[0], (12, "foo".to_string()));
    assert_eq!(strings[1], (16, "bar".to_string()));
}

#[test]
fn raw_string_blob_legacy_generation() {
    // Legacy: big-endian 32-bit length right after the marker, base offset + 8.
    let mut data = Vec::new();
    data.extend_from_slice(&RAW_STRING_MAGIC.to_be_bytes());
    data.extend_from_slice(&9u32.to_be_bytes());
    data.extend_from_slice(b"foo\0bar\0\0");
    let strings = read_raw_string_blob(&data, 0, Generation::Legacy);
    assert_eq!(strings.len(), 2);
    assert_eq!(strings[0], (8, "foo".to_string()));
    assert_eq!(strings[1], (12, "bar".to_string()));
}

#[test]
fn raw_string_blob_out_of_bounds_yields_nothing() {
    let mut data = Vec::new();
    data.extend_from_slice(&RAW_STRING_MAGIC.to_le_bytes());
    data.extend_from_slice(&100u64.to_le_bytes());
    data.extend_from_slice(b"short");
    assert!(read_raw_string_blob(&data, 0, Generation::Current).is_empty());
    assert!(read_raw_string_blob(&data, 9999, Generation::Current).is_empty());
}

#[test]
fn scan_file_extracts_raw_strings() {
    let ctx = current_context(&[], &[], &[]);
    let mut data = Vec::new();
    data.extend_from_slice(&RAW_STRING_MAGIC.to_le_bytes());
    data.extend_from_slice(&4u64.to_le_bytes());
    data.extend_from_slice(b"hey\0");
    let r = scan_file(&ctx, &data);
    assert_eq!(r.raw_strings, vec!["hey".to_string()]);
}

#[test]
fn scan_entry_unreadable_payload() {
    let ctx = current_context(&[], &[], &[]);
    let r = scan_entry(&ctx, None, 0);
    assert!(!r.successful);
    assert!(r.file_hashes.is_empty());
    assert!(r.references.is_empty());
}

#[test]
fn scan_entry_prepends_legacy_parent_reference() {
    let parent = TagHash::new(9, 7).0;
    let packages = vec![(9u16, 8u16)];
    let ctx = create_scanner_context(&packages, &Vec::new(), &Vec::new(), Generation::Legacy);
    assert_eq!(ctx.endian, Endian::Big);
    let data = [0u8; 8];
    let r = scan_entry(&ctx, Some(&data), parent);
    assert_eq!(r.file_hashes.len(), 1);
    assert_eq!(r.file_hashes[0].offset, u64::MAX);
    assert_eq!(r.file_hashes[0].hash, TagHash(parent));
    assert!(r.successful);
}

#[test]
fn scan_entry_current_generation_skips_parent_reference() {
    let parent = TagHash::new(9, 7).0;
    let ctx = current_context(&[parent], &[], &[]);
    let data = [0u8; 8];
    let r = scan_entry(&ctx, Some(&data), parent);
    assert!(r.file_hashes.is_empty());
}

#[test]
fn context_holds_all_package_entries() {
    let packages = vec![(9u16, 2u16), (10u16, 1u16)];
    let ctx = create_scanner_context(&packages, &vec![5u64], &vec![7u32], Generation::Current);
    assert!(ctx.valid_file_hashes.contains(&TagHash::new(9, 0).0));
    assert!(ctx.valid_file_hashes.contains(&TagHash::new(9, 1).0));
    assert!(ctx.valid_file_hashes.contains(&TagHash::new(10, 0).0));
    assert!(!ctx.valid_file_hashes.contains(&TagHash::new(9, 2).0));
    assert!(ctx.valid_file_hashes64.contains(&5));
    assert!(ctx.known_string_hashes.contains(&7));
    assert_eq!(ctx.endian, Endian::Little);
}

#[test]
fn scan_status_advances() {
    let mut status = ScanStatus::Idle;
    assert_eq!(scanner_progress(&status), ScanStatus::Idle);
    let c0 = advance_scan_status(&mut status, 4);
    assert_eq!(c0, 0);
    assert_eq!(
        scanner_progress(&status),
        ScanStatus::Scanning { current_package: 1, total_packages: 4 }
    );
    let c1 = advance_scan_status(&mut status, 4);
    assert_eq!(c1, 1);
    assert_eq!(
        status,
        ScanStatus::Scanning { current_package: 2, total_packages: 4 }
    );
}

#[test]
fn scan_of_empty_data_records_nothing() {
    let ctx = current_context(&[TagHash::new(9, 1).0], &[], &[]);
    let r = scan_file(&ctx, &[]);
    assert!(r.successful);
    assert!(r.file_hashes.is_empty());
    assert!(r.file_hashes64.is_empty());
    assert!(r.string_hashes.is_empty());
    assert!(r.raw_strings.is_empty());
}

#[test]
fn scan_records_duplicate_hits_separately() {
    let id = TagHash::new(9, 1).0;
    let ctx = current_context(&[id], &[], &[]);
    let mut data = Vec::new();
    data.extend_from_slice(&id.to_le_bytes());
    data.extend_from_slice(&id.to_le_bytes());
    let r = scan_file(&ctx, &data);
    assert_eq!(r.file_hashes.len(), 2);
    assert_eq!(r.file_hashes[0].offset, 0);
    assert_eq!(r.file_hashes[1].offset, 4);
}

#[test]
fn raw_string_blob_keeps_interior_empty_runs() {
    // An empty run between two non-empty ones is preserved; only the trailing
    // block of empty runs is discarded.
    let mut data = Vec::new();
    data.extend_from_slice(&RAW_STRING_MAGIC.to_le_bytes());
    data.extend_from_slice(&5u64.to_le_bytes());
    data.extend_from_slice(b"a\0\0b\0");
    let strings = read_raw_string_blob(&data, 0, Generation::Current);
    assert_eq!(strings.len(), 3);
    assert_eq!(strings[0], (12, "a".to_string()));
    assert_eq!(strings[1], (14, "".to_string()));
    assert_eq!(strings[2], (15, "b".to_string()));
}

#[test]
fn raw_string_blob_of_only_nulls_yields_nothing() {
    let mut data = Vec::new();
    data.extend_from_slice(&RAW_STRING_MAGIC.to_le_bytes());
    data.extend_from_slice(&3u64.to_le_bytes());
    data.extend_from_slice(b"\0\0\0");
    assert!(read_raw_string_blob(&data, 0, Generation::Current).is_empty());
}
