use crate::ids::TagHash;
use crate::scanner::ScanResult;
use vstd::prelude::*;

verus! {

/// Version of the persisted cache layout this build writes and understands.
pub const CACHE_FORMAT_VERSION: u32 = 3;

/// Persisted artifact of a scan run: a snapshot timestamp of the package
/// directory, the cache layout version, and one record per tag.
pub struct TagCache {
    /// Timestamp of the packages directory at scan time.
    pub timestamp: u64,
    pub version: u32,
    /// One record per tag; keys are unique.
    pub hashes: Vec<(TagHash, ScanResult)>,
}

impl Default for TagCache {
    /// An empty cache stamped with the current layout version.
    fn default() -> (r: Self)
        ensures
            r.timestamp == 0,
            r.version == CACHE_FORMAT_VERSION,
            r.hashes@ == Seq::<(TagHash, ScanResult)>::empty(),
    {
        TagCache { timestamp: 0, version: CACHE_FORMAT_VERSION, hashes: Vec::new() }
    }
}

/// What to do with a cache found on disk.
#[derive(Copy, Clone, PartialEq, Eq, Structural, Debug)]
pub enum CacheDecision {
    /// Same version, not older than the package directory: use it as is.
    Reuse,
    /// Same version but the package directory changed since it was written:
    /// scan again.
    RebuildStale,
    /// Written by an older build: scan again, silently upgrading.
    RebuildOlderVersion,
    /// Written by a newer build: the run must stop with a user-visible error,
    /// since this build cannot safely interpret the newer layout.
    FatalNewerVersion,
}

/// Decides whether a stored cache may be reused: equal versions compare the
/// stored timestamp against the package directory's modification time; an
/// older version rebuilds; a newer version is fatal.
pub fn evaluate_cache(cache_version: u32, cache_timestamp: u64, dir_timestamp: u64) -> (r:
    CacheDecision)
    ensures
        r == CacheDecision::Reuse <==> (cache_version == CACHE_FORMAT_VERSION && cache_timestamp
            >= dir_timestamp),
        r == CacheDecision::RebuildStale <==> (cache_version == CACHE_FORMAT_VERSION
            && cache_timestamp < dir_timestamp),
        r == CacheDecision::RebuildOlderVersion <==> cache_version < CACHE_FORMAT_VERSION,
        r == CacheDecision::FatalNewerVersion <==> cache_version > CACHE_FORMAT_VERSION,
{
    if cache_version == CACHE_FORMAT_VERSION {
        if cache_timestamp < dir_timestamp {
            CacheDecision::RebuildStale
        } else {
            CacheDecision::Reuse
        }
    } else if cache_version < CACHE_FORMAT_VERSION {
        CacheDecision::RebuildOlderVersion
    } else {
        CacheDecision::FatalNewerVersion
    }
}

/// The compressed frame that the cache store writes for a given payload, at
/// the store's fixed compression level.
pub uninterp spec fn zstd_frame(payload: Seq<u8>) -> Seq<u8>;

/// Relies on zstd::encode_all at a fixed level: encoding into an in-memory
/// buffer always succeeds (allocation failure aside), and the compressed
/// frame is a function of the payload bytes alone.
#[verifier::external_body]
fn zstd_compress(data: &[u8]) -> (r: Vec<u8>)
    ensures
        r@ == zstd_frame(data@),
{
    zstd::encode_all(data, 5).expect("in-memory zstd encoding cannot fail")
}

/// Relies on zstd::decode_all: decoding a frame that zstd::encode_all
/// produced returns exactly the original payload.
#[verifier::external_body]
fn zstd_decompress(data: &[u8]) -> (r: Option<Vec<u8>>)
    ensures
        forall|payload: Seq<u8>|
            data@ == zstd_frame(payload) ==> r is Some && r->Some_0@ == payload,
{
    match zstd::decode_all(data) {
        Ok(v) => Some(v),
        Err(_) => None,
    }
}

/// Compresses a serialized cache for writing to disk: always the frame of
/// exactly the given payload.
pub fn pack_cache_bytes(payload: &Vec<u8>) -> (r: Vec<u8>)
    ensures
        r@ == zstd_frame(payload@),
{
    zstd_compress(payload.as_slice())
}

/// Decompresses a cache file read from disk: on any frame that
/// [`pack_cache_bytes`] produced it succeeds and returns the original
/// payload; `None` means the file is not a valid frame.
pub fn unpack_cache_bytes(file_bytes: &Vec<u8>) -> (r: Option<Vec<u8>>)
    ensures
        forall|payload: Seq<u8>|
            file_bytes@ == zstd_frame(payload) ==> r is Some && r->Some_0@ == payload,
{
    zstd_decompress(file_bytes.as_slice())
}

} // verus!
