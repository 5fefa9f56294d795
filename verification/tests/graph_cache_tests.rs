use tagscan::cache::{
    evaluate_cache, pack_cache_bytes, unpack_cache_bytes, CacheDecision, TagCache,
    CACHE_FORMAT_VERSION,
};
use tagscan::graph::{resolve64, transform_tag_cache};
use tagscan::ids::{TagHash, TagHash64};
use tagscan::scanner::{ScanResult, ScannedHash};

fn record_with_ref32(target: TagHash) -> ScanResult {
    let mut r = ScanResult::default();
    r.file_hashes.push(ScannedHash { offset: 16, hash: target });
    r
}

#[test]
fn default_cache_is_current_version() {
    let c = TagCache::default();
    assert_eq!(c.version, CACHE_FORMAT_VERSION);
    assert_eq!(c.version, 3);
    assert_eq!(c.timestamp, 0);
    assert!(c.hashes.is_empty());
}

#[test]
fn transform_applies_reverse_references() {
    let a = TagHash::new(9, 0);
    let b = TagHash::new(9, 1);
    let entries = vec![(a, record_with_ref32(b)), (b, ScanResult::default())];
    let table: Vec<(u64, u32)> = Vec::new();
    let cache = transform_tag_cache(entries, &table, 42);
    assert_eq!(cache.timestamp, 42);
    assert_eq!(cache.version, CACHE_FORMAT_VERSION);
    assert_eq!(cache.hashes.len(), 2);
    assert_eq!(cache.hashes[0].0, a);
    assert!(cache.hashes[0].1.references.is_empty());
    assert_eq!(cache.hashes[1].0, b);
    assert_eq!(cache.hashes[1].1.references, vec![a]);
}

#[test]
fn transform_synthesizes_placeholder_for_referenced_only_tag() {
    let a = TagHash::new(9, 0);
    let outside = TagHash::new(20, 3);
    let entries = vec![(a, record_with_ref32(outside))];
    let table: Vec<(u64, u32)> = Vec::new();
    let cache = transform_tag_cache(entries, &table, 0);
    assert_eq!(cache.hashes.len(), 2);
    assert_eq!(cache.hashes[1].0, outside);
    assert_eq!(cache.hashes[1].1.references, vec![a]);
    assert!(cache.hashes[1].1.file_hashes.is_empty());
    assert!(cache.hashes[1].1.successful);
}

#[test]
fn transform_resolves_64_bit_references() {
    let a = TagHash::new(9, 0);
    let b = TagHash::new(9, 1);
    let unresolvable: u64 = 0x999;
    let mut rec = ScanResult::default();
    rec.file_hashes64.push(ScannedHash { offset: 8, hash: TagHash64(0x1234) });
    rec.file_hashes64.push(ScannedHash { offset: 24, hash: TagHash64(unresolvable) });
    let entries = vec![(a, rec), (b, ScanResult::default())];
    let table: Vec<(u64, u32)> = vec![(0x1234, b.0)];
    let cache = transform_tag_cache(entries, &table, 0);
    assert_eq!(cache.hashes.len(), 2);
    assert_eq!(cache.hashes[1].0, b);
    assert_eq!(cache.hashes[1].1.references, vec![a]);
}

#[test]
fn transform_collects_multiple_sources_in_order() {
    let a = TagHash::new(9, 0);
    let b = TagHash::new(9, 1);
    let t = TagHash::new(10, 0);
    let entries = vec![(a, record_with_ref32(t)), (b, record_with_ref32(t))];
    let table: Vec<(u64, u32)> = Vec::new();
    let cache = transform_tag_cache(entries, &table, 0);
    assert_eq!(cache.hashes.len(), 3);
    assert_eq!(cache.hashes[2].0, t);
    assert_eq!(cache.hashes[2].1.references, vec![a, b]);
}

#[test]
fn resolve64_finds_first_match() {
    let table = vec![(1u64, 10u32), (2, 20), (1, 30)];
    assert_eq!(resolve64(&table, 1), Some(10));
    assert_eq!(resolve64(&table, 2), Some(20));
    assert_eq!(resolve64(&table, 3), None);
}

#[test]
fn stale_timestamp_triggers_rebuild() {
    // Same version, cache written before the package directory changed.
    let d = evaluate_cache(CACHE_FORMAT_VERSION, 100, 200);
    assert_eq!(d, CacheDecision::RebuildStale);
}

#[test]
fn fresh_cache_is_reused() {
    assert_eq!(evaluate_cache(CACHE_FORMAT_VERSION, 200, 200), CacheDecision::Reuse);
    assert_eq!(evaluate_cache(CACHE_FORMAT_VERSION, 300, 200), CacheDecision::Reuse);
}

#[test]
fn older_version_rebuilds() {
    assert_eq!(
        evaluate_cache(CACHE_FORMAT_VERSION - 1, 999, 0),
        CacheDecision::RebuildOlderVersion
    );
}

#[test]
fn newer_version_is_fatal() {
    // The caller must terminate the run without producing a usable cache.
    assert_eq!(
        evaluate_cache(CACHE_FORMAT_VERSION + 1, 0, 0),
        CacheDecision::FatalNewerVersion
    );
}

#[test]
fn pack_then_unpack_returns_payload() {
    let payload: Vec<u8> = (0..200u32).flat_map(|v| v.to_le_bytes()).collect();
    let packed = pack_cache_bytes(&payload);
    let unpacked = unpack_cache_bytes(&packed).unwrap();
    assert_eq!(unpacked, payload);
}

#[test]
fn unpack_rejects_garbage() {
    assert!(unpack_cache_bytes(&vec![1u8, 2, 3, 4]).is_none());
}

#[test]
fn transform_keeps_duplicate_references_from_one_source() {
    let a = TagHash::new(9, 0);
    let t = TagHash::new(10, 0);
    let mut rec = ScanResult::default();
    rec.file_hashes.push(ScannedHash { offset: 0, hash: t });
    rec.file_hashes.push(ScannedHash { offset: 8, hash: t });
    let entries = vec![(a, rec)];
    let table: Vec<(u64, u32)> = Vec::new();
    let cache = transform_tag_cache(entries, &table, 0);
    assert_eq!(cache.hashes[1].0, t);
    assert_eq!(cache.hashes[1].1.references, vec![a, a]);
}

#[test]
fn transform_of_empty_mapping_is_empty() {
    let table: Vec<(u64, u32)> = Vec::new();
    let cache = transform_tag_cache(Vec::new(), &table, 7);
    assert!(cache.hashes.is_empty());
    assert_eq!(cache.timestamp, 7);
}
