use crate::chars::{chars_of, push_char};
use crate::endian::{be32_at, le64_at, read_u32, read_u64, u32_at, u64_at, Endian};
use crate::hashes::FNV1_BASE;
use crate::ids::{spec_is_pkg_file, Generation, TagHash, TagHash64};
use std::collections::HashSet;
use vstd::prelude::*;

verus! {

broadcast use vstd::std_specs::hash::group_hash_axioms;

/// 32-bit marker value that precedes an embedded raw-string blob.
pub const RAW_STRING_MAGIC: u32 = 0x80800065;

/// One identifier or hash found while scanning, together with the byte offset
/// at which its window starts.
#[derive(Clone, Copy, PartialEq, Eq, Structural, Debug)]
pub struct ScannedHash<T> {
    pub offset: u64,
    pub hash: T,
}

/// An array marker found while scanning.
#[derive(Clone, Copy, PartialEq, Eq, Structural, Debug)]
pub struct ScannedArray {
    pub offset: u64,
    pub count: usize,
    pub class: u32,
}

/// Per-tag output of scanning: the references and string hits found in the
/// tag's bytes, and — filled in by the transform pass only — the identifiers
/// of the tags that reference it.
#[derive(Clone, Debug)]
pub struct ScanResult {
    /// Were we able to read the tag data?
    pub successful: bool,
    pub file_hashes: Vec<ScannedHash<TagHash>>,
    pub file_hashes64: Vec<ScannedHash<TagHash64>>,
    pub string_hashes: Vec<ScannedHash<u32>>,
    pub raw_strings: Vec<String>,
    /// References from other tags.
    pub references: Vec<TagHash>,
}

/// Mathematical content of a [`ScanResult`].
pub ghost struct ScanResultView {
    pub successful: bool,
    pub file_hashes: Seq<ScannedHash<TagHash>>,
    pub file_hashes64: Seq<ScannedHash<TagHash64>>,
    pub string_hashes: Seq<ScannedHash<u32>>,
    pub raw_strings: Seq<Seq<char>>,
    pub references: Seq<TagHash>,
}

impl ScanResultView {
    /// The same record with `references` replaced.
    pub open spec fn with_references(self, refs: Seq<TagHash>) -> ScanResultView {
        ScanResultView { references: refs, ..self }
    }

    /// A record whose scan fields are all empty: `successful` as given and
    /// only `references` filled in.
    pub open spec fn placeholder(successful: bool, refs: Seq<TagHash>) -> ScanResultView {
        ScanResultView {
            successful,
            file_hashes: Seq::<ScannedHash<TagHash>>::empty(),
            file_hashes64: Seq::<ScannedHash<TagHash64>>::empty(),
            string_hashes: Seq::<ScannedHash<u32>>::empty(),
            raw_strings: Seq::<Seq<char>>::empty(),
            references: refs,
        }
    }
}

impl View for ScanResult {
    type V = ScanResultView;

    open spec fn view(&self) -> ScanResultView {
        ScanResultView {
            successful: self.successful,
            file_hashes: self.file_hashes@,
            file_hashes64: self.file_hashes64@,
            string_hashes: self.string_hashes@,
            raw_strings: self.raw_strings@.map_values(|s: String| s@),
            references: self.references@,
        }
    }
}

impl ScanResult {
    /// All scan fields empty; `successful` as given.
    pub open spec fn is_empty_with(self, successful: bool) -> bool {
        &&& self.successful == successful
        &&& self.file_hashes@ == Seq::<ScannedHash<TagHash>>::empty()
        &&& self.file_hashes64@ == Seq::<ScannedHash<TagHash64>>::empty()
        &&& self.string_hashes@ == Seq::<ScannedHash<u32>>::empty()
        &&& self.raw_strings@ == Seq::<String>::empty()
        &&& self.references@ == Seq::<TagHash>::empty()
    }
}

impl Default for ScanResult {
    /// A successful result with nothing recorded yet.
    fn default() -> (r: Self)
        ensures
            r.is_empty_with(true),
    {
        ScanResult {
            successful: true,
            file_hashes: Vec::new(),
            file_hashes64: Vec::new(),
            string_hashes: Vec::new(),
            raw_strings: Vec::new(),
            references: Vec::new(),
        }
    }
}

/// Mathematical content of a [`ScannerContext`].
pub ghost struct ScannerContextView {
    pub valid32: Set<u32>,
    pub valid64: Set<u64>,
    pub known_strings: Set<u32>,
    pub endian: Endian,
    pub generation: Generation,
}

/// Read-only snapshot shared by all scan workers: every identifier present in
/// the archive set, every resolvable 64-bit identifier, the known string
/// hashes, and the archive's byte order and generation.
pub struct ScannerContext {
    pub valid_file_hashes: HashSet<u32>,
    pub valid_file_hashes64: HashSet<u64>,
    pub known_string_hashes: HashSet<u32>,
    pub endian: Endian,
    pub generation: Generation,
}

impl View for ScannerContext {
    type V = ScannerContextView;

    open spec fn view(&self) -> ScannerContextView {
        ScannerContextView {
            valid32: self.valid_file_hashes@,
            valid64: self.valid_file_hashes64@,
            known_strings: self.known_string_hashes@,
            endian: self.endian,
            generation: self.generation,
        }
    }
}

/// Where a raw-string blob whose marker sits at `offset` keeps its bytes: the
/// base offset of the buffer and the buffer itself, or `None` when the length
/// field or the buffer would run past the end of `data`. The length field
/// follows the 4 marker bytes; the legacy generation stores it as a big-endian
/// 32-bit value, the current one as a little-endian 64-bit value.
pub open spec fn blob_region(data: Seq<u8>, offset: int, gen: Generation) -> Option<(int, Seq<u8>)> {
    let hdr: int = if gen == Generation::Legacy {
        8
    } else {
        12
    };
    if 0 <= offset && offset + hdr <= data.len() {
        let size: int = if gen == Generation::Legacy {
            be32_at(data, offset + 4) as int
        } else {
            le64_at(data, offset + 4) as int
        };
        let base = offset + hdr;
        if base + size <= data.len() {
            Some((base, data.subrange(base, base + size)))
        } else {
            None
        }
    } else {
        None
    }
}

/// State of the null-splitting walk after the first `n` bytes of `buffer`:
/// the runs closed so far — every inter-null segment with its start index,
/// empty segments included — and the start index of the run in progress.
pub open spec fn split_state(buffer: Seq<u8>, n: int) -> (Seq<(int, Seq<u8>)>, int)
    decreases n,
{
    if n <= 0 {
        (Seq::<(int, Seq<u8>)>::empty(), 0int)
    } else {
        let prev = split_state(buffer, n - 1);
        if buffer[n - 1] == 0 {
            (prev.0.push((prev.1, buffer.subrange(prev.1, n - 1))), n)
        } else {
            prev
        }
    }
}

/// Drops the trailing block of empty runs, and nothing else.
pub open spec fn trim_trailing_empty(runs: Seq<(int, Seq<u8>)>) -> Seq<(int, Seq<u8>)>
    decreases runs.len(),
{
    if runs.len() == 0 {
        runs
    } else if runs.last().1.len() == 0 {
        trim_trailing_empty(runs.drop_last())
    } else {
        runs
    }
}

/// All null-separated runs of `buffer` with their start indices — the final
/// segment after the last null included — with only the trailing block of
/// empty runs discarded; empty runs before a later non-empty one are kept.
pub open spec fn blob_runs(buffer: Seq<u8>) -> Seq<(int, Seq<u8>)> {
    let st = split_state(buffer, buffer.len() as int);
    trim_trailing_empty(st.0.push((st.1, buffer.subrange(st.1, buffer.len() as int))))
}

/// The strings of the raw-string blob whose marker sits at `offset`, each
/// paired with its absolute byte offset in `data`.
pub open spec fn blob_entries(data: Seq<u8>, offset: int, gen: Generation) -> Seq<(int, Seq<char>)> {
    match blob_region(data, offset, gen) {
        Some(bb) => blob_runs(bb.1).map_values(|p: (int, Seq<u8>)| (bb.0 + p.0, chars_of(p.1))),
        None => Seq::<(int, Seq<char>)>::empty(),
    }
}

/// The strings of the raw-string blob at `offset`, without their offsets.
pub open spec fn blob_strings(data: Seq<u8>, offset: int, gen: Generation) -> Seq<Seq<char>> {
    blob_entries(data, offset, gen).map_values(|p: (int, Seq<char>)| p.1)
}

/// `e` records the run `run` of a blob whose buffer starts at `base`: the
/// absolute offset and the run's bytes read as characters.
pub open spec fn entry_matches(e: (u64, String), run: (int, Seq<u8>), base: int) -> bool {
    e.0 as int == base + run.0 && e.1@ == chars_of(run.1)
}

/// `r` holds exactly the strings and offsets of the blob at `offset`.
pub open spec fn matches_blob_entries(
    r: Seq<(u64, String)>,
    data: Seq<u8>,
    offset: int,
    gen: Generation,
) -> bool {
    let es = blob_entries(data, offset, gen);
    &&& r.len() == es.len()
    &&& forall|k: int|
        #![trigger r[k]]
        0 <= k < es.len() ==> r[k].0 as int == es[k].0 && r[k].1@ == es[k].1
}

/// Reads the length-prefixed raw-string blob whose marker starts at `offset`
/// and splits its buffer on null bytes into strings, each with the absolute
/// offset of its first byte; only the trailing block of empty strings is
/// discarded, empty strings before a later non-empty one are kept. A length
/// field or buffer that runs past the end of `data` yields no strings at
/// all.
pub fn read_raw_string_blob(data: &[u8], offset: u64, generation: Generation) -> (r: Vec<
    (u64, String),
>)
    ensures
        matches_blob_entries(r@, data@, offset as int, generation),
{
    let n = data.len();
    let hdr: u64 = if generation == Generation::Legacy {
        8
    } else {
        12
    };
    let mut r: Vec<(u64, String)> = Vec::new();
    if (n as u64) < hdr || offset > n as u64 - hdr {
        assert(blob_region(data@, offset as int, generation) is None);
        return r;
    }
    let off = offset as usize;
    let size: u64 = if generation == Generation::Legacy {
        read_u32(data, off + 4, Endian::Big) as u64
    } else {
        read_u64(data, off + 4, Endian::Little)
    };
    let base = off + hdr as usize;
    if size > (n - base) as u64 {
        assert(blob_region(data@, offset as int, generation) is None);
        return r;
    }
    let size_us = size as usize;
    let ghost buffer = data@.subrange(base as int, base as int + size as int);
    assert(blob_region(data@, offset as int, generation) == Some(
        (base as int, buffer),
    ));

    let mut s = String::new();
    assert(s@ =~= chars_of(buffer.subrange(0, 0)));
    let mut start: usize = 0;
    let mut i: usize = 0;
    while i < size_us
        invariant
            0 <= start <= i <= size_us,
            size_us <= n == data@.len(),
            base + size_us <= n,
            buffer == data@.subrange(base as int, base as int + size_us as int),
            start == split_state(buffer, i as int).1,
            s@ == chars_of(buffer.subrange(start as int, i as int)),
            r@.len() == split_state(buffer, i as int).0.len(),
            forall|k: int|
                0 <= k < r@.len() ==> #[trigger] entry_matches(
                    r@[k],
                    split_state(buffer, i as int).0[k],
                    base as int,
                ),
        decreases size_us - i,
    {
        let ghost st = split_state(buffer, i as int);
        let b = data[base + i];
        assert(b == buffer[i as int]);
        if b == 0 {
            let ghost r0 = r@;
            let ghost s0 = s@;
            r.push((base as u64 + start as u64, s));
            s = String::new();
            proof {
                let st2 = split_state(buffer, i + 1);
                assert(st2 == (st.0.push(
                    (start as int, buffer.subrange(start as int, i as int)),
                ), i + 1));
                assert(r@.len() == r0.len() + 1);
                assert(r@[r0.len() as int].0 as int == base + start);
                assert(r@[r0.len() as int].1@ == s0);
                assert forall|k: int| 0 <= k < r@.len() implies #[trigger] entry_matches(
                    r@[k],
                    st2.0[k],
                    base as int,
                ) by {
                    if k < r0.len() {
                        assert(r@[k] == r0[k]);
                        assert(st2.0[k] == st.0[k]);
                        assert(entry_matches(r0[k], st.0[k], base as int));
                    } else {
                        assert(st2.0[k] == (start as int, buffer.subrange(
                            start as int,
                            i as int,
                        )));
                    }
                }
            }
            start = i + 1;
            proof {
                assert(s@ =~= chars_of(buffer.subrange(start as int, i + 1)));
            }
        } else {
            push_char(&mut s, b as char);
            proof {
                assert(split_state(buffer, i + 1) == st);
                assert(buffer.subrange(start as int, i + 1) =~= buffer.subrange(
                    start as int,
                    i as int,
                ).push(buffer[i as int]));
                assert(chars_of(buffer.subrange(start as int, i + 1)) =~= chars_of(
                    buffer.subrange(start as int, i as int),
                ).push(buffer[i as int] as char));
            }
        }
        i = i + 1;
    }
    let ghost st = split_state(buffer, size_us as int);
    let ghost all = st.0.push((st.1, buffer.subrange(st.1 as int, size_us as int)));
    let ghost r0 = r@;
    r.push((base as u64 + start as u64, s));
    proof {
        assert(r@[r0.len() as int].0 as int == base + start);
        assert(r@[r0.len() as int].1@ == chars_of(buffer.subrange(
            start as int,
            size_us as int,
        )));
        assert forall|k: int| 0 <= k < r@.len() implies #[trigger] entry_matches(
            r@[k],
            all[k],
            base as int,
        ) by {
            if k < r0.len() {
                assert(r@[k] == r0[k]);
                assert(all[k] == st.0[k]);
                assert(entry_matches(r0[k], st.0[k], base as int));
            } else {
                assert(all[k] == (start as int, buffer.subrange(
                    start as int,
                    size_us as int,
                )));
            }
        }
    }

    let ghost mut cur = all;
    while r.len() > 0 && r[r.len() - 1].1.as_str().is_empty()
        invariant
            r@.len() == cur.len(),
            forall|k: int|
                0 <= k < r@.len() ==> #[trigger] entry_matches(r@[k], cur[k], base as int),
            trim_trailing_empty(cur) == trim_trailing_empty(all),
        decreases r@.len(),
    {
        proof {
            assert(entry_matches(r@[r@.len() - 1], cur[cur.len() - 1], base as int));
            assert(chars_of(cur.last().1).len() == 0);
            assert(cur.last().1.len() == 0);
            assert(trim_trailing_empty(cur) == trim_trailing_empty(cur.drop_last()));
        }
        r.pop();
        proof {
            cur = cur.drop_last();
            assert(forall|k: int|
                0 <= k < r@.len() ==> #[trigger] entry_matches(r@[k], cur[k], base as int));
        }
    }
    let ghost runs = blob_runs(buffer);
    proof {
        if r@.len() == 0 {
            assert(cur =~= Seq::<(int, Seq<u8>)>::empty());
            assert(trim_trailing_empty(cur) == cur);
        } else {
            assert(entry_matches(r@[r@.len() - 1], cur[cur.len() - 1], base as int));
            assert(r@[r@.len() - 1].1@.len() != 0);
            assert(chars_of(cur.last().1).len() != 0);
            assert(cur.last().1.len() != 0);
            assert(trim_trailing_empty(cur) == cur);
        }
        assert(runs == cur);
    }
    proof {
        let es = blob_entries(data@, offset as int, generation);
        assert(es == runs.map_values(
            |p: (int, Seq<u8>)| (base as int + p.0, chars_of(p.1)),
        ));
        assert forall|k: int| #![trigger r@[k]] 0 <= k < es.len() implies r@[k].0 as int
            == es[k].0 && r@[k].1@ == es[k].1 by {
            assert(es[k] == (base as int + runs[k].0, chars_of(runs[k].1)));
            assert(entry_matches(r@[k], runs[k], base as int));
        }
    }
    r
}

/// Identifier hits of the first `n` 4-byte windows: each window whose value
/// is a valid package-file identifier present in the archive set, recorded in
/// window order with its byte offset.
pub open spec fn scanned_file_hashes_prefix(
    cv: ScannerContextView,
    data: Seq<u8>,
    n: int,
) -> Seq<ScannedHash<TagHash>>
    decreases n,
{
    if n <= 0 {
        Seq::<ScannedHash<TagHash>>::empty()
    } else {
        let prev = scanned_file_hashes_prefix(cv, data, n - 1);
        let v = u32_at(data, 4 * (n - 1), cv.endian);
        if spec_is_pkg_file(v) && cv.valid32.contains(v) {
            prev.push(ScannedHash { offset: (4 * (n - 1)) as u64, hash: TagHash(v) })
        } else {
            prev
        }
    }
}

/// Identifier hits of all 4-byte windows of `data`.
pub open spec fn scanned_file_hashes(cv: ScannerContextView, data: Seq<u8>) -> Seq<
    ScannedHash<TagHash>,
> {
    scanned_file_hashes_prefix(cv, data, data.len() as int / 4)
}

/// String-hash hits of the first `n` 4-byte windows: each window whose value
/// is a known string hash other than the reserved hash of the empty byte
/// sequence.
pub open spec fn scanned_string_hashes_prefix(
    cv: ScannerContextView,
    data: Seq<u8>,
    n: int,
) -> Seq<ScannedHash<u32>>
    decreases n,
{
    if n <= 0 {
        Seq::<ScannedHash<u32>>::empty()
    } else {
        let prev = scanned_string_hashes_prefix(cv, data, n - 1);
        let v = u32_at(data, 4 * (n - 1), cv.endian);
        if v != FNV1_BASE && cv.known_strings.contains(v) {
            prev.push(ScannedHash { offset: (4 * (n - 1)) as u64, hash: v })
        } else {
            prev
        }
    }
}

/// String-hash hits of all 4-byte windows of `data`.
pub open spec fn scanned_string_hashes(cv: ScannerContextView, data: Seq<u8>) -> Seq<
    ScannedHash<u32>,
> {
    scanned_string_hashes_prefix(cv, data, data.len() as int / 4)
}

/// Raw strings extracted from the first `n` 4-byte windows: the strings of
/// every blob whose marker value occurs at a window, in window order.
pub open spec fn scanned_raw_strings_prefix(
    cv: ScannerContextView,
    data: Seq<u8>,
    n: int,
) -> Seq<Seq<char>>
    decreases n,
{
    if n <= 0 {
        Seq::<Seq<char>>::empty()
    } else {
        let prev = scanned_raw_strings_prefix(cv, data, n - 1);
        let v = u32_at(data, 4 * (n - 1), cv.endian);
        if v == RAW_STRING_MAGIC {
            prev + blob_strings(data, 4 * (n - 1), cv.generation)
        } else {
            prev
        }
    }
}

/// Raw strings extracted from all 4-byte windows of `data`.
pub open spec fn scanned_raw_strings(cv: ScannerContextView, data: Seq<u8>) -> Seq<Seq<char>> {
    scanned_raw_strings_prefix(cv, data, data.len() as int / 4)
}

/// 64-bit identifier hits of the first `n` 8-byte windows.
pub open spec fn scanned_file_hashes64_prefix(
    cv: ScannerContextView,
    data: Seq<u8>,
    n: int,
) -> Seq<ScannedHash<TagHash64>>
    decreases n,
{
    if n <= 0 {
        Seq::<ScannedHash<TagHash64>>::empty()
    } else {
        let prev = scanned_file_hashes64_prefix(cv, data, n - 1);
        let v = u64_at(data, 8 * (n - 1), cv.endian);
        if cv.valid64.contains(v) {
            prev.push(ScannedHash { offset: (8 * (n - 1)) as u64, hash: TagHash64(v) })
        } else {
            prev
        }
    }
}

/// 64-bit identifier hits of all 8-byte windows of `data`.
pub open spec fn scanned_file_hashes64(cv: ScannerContextView, data: Seq<u8>) -> Seq<
    ScannedHash<TagHash64>,
> {
    scanned_file_hashes64_prefix(cv, data, data.len() as int / 8)
}

/// Scans one tag's raw bytes: walks every 4-byte-aligned window recording
/// package-file identifiers, known string hashes and raw-string blobs, and
/// every 8-byte-aligned window recording 64-bit identifiers. Pure in
/// (context, data); `references` is left empty for the transform pass.
pub fn scan_file(context: &ScannerContext, data: &[u8]) -> (r: ScanResult)
    ensures
        r.successful == true,
        r.file_hashes@ == scanned_file_hashes(context@, data@),
        r.string_hashes@ == scanned_string_hashes(context@, data@),
        r.raw_strings@.map_values(|s: String| s@) == scanned_raw_strings(context@, data@),
        r.file_hashes64@ == scanned_file_hashes64(context@, data@),
        r.references@ == Seq::<TagHash>::empty(),
{
    let mut r = ScanResult::default();
    let n = data.len();
    let chunks4 = n / 4;
    let ghost f = |s: String| s@;
    assert(r.raw_strings@.map_values(f) =~= Seq::<Seq<char>>::empty());
    let mut i: usize = 0;
    while i < chunks4
        invariant
            0 <= i <= chunks4,
            chunks4 == data@.len() as int / 4,
            n == data@.len(),
            f == (|s: String| s@),
            r.successful == true,
            r.file_hashes@ == scanned_file_hashes_prefix(context@, data@, i as int),
            r.string_hashes@ == scanned_string_hashes_prefix(context@, data@, i as int),
            r.raw_strings@.map_values(f) == scanned_raw_strings_prefix(context@, data@, i as int),
            r.file_hashes64@ == Seq::<ScannedHash<TagHash64>>::empty(),
            r.references@ == Seq::<TagHash>::empty(),
        decreases chunks4 - i,
    {
        let value = read_u32(data, i * 4, context.endian);
        let offset = (i * 4) as u64;
        let h = TagHash(value);

        if h.is_pkg_file() && context.valid_file_hashes.contains(&value) {
            r.file_hashes.push(ScannedHash { offset, hash: h });
        }

        if value == RAW_STRING_MAGIC {
            let blob = read_raw_string_blob(data, offset, context.generation);
            let ghost prev = r.raw_strings@.map_values(f);
            let ghost bs = blob_strings(data@, offset as int, context@.generation);
            let ghost fh = r.file_hashes@;
            let ghost sh = r.string_hashes@;
            assert(prev + bs.take(0) =~~= prev);
            let mut j: usize = 0;
            while j < blob.len()
                invariant
                    0 <= j <= blob@.len(),
                    f == (|s: String| s@),
                    matches_blob_entries(blob@, data@, offset as int, context@.generation),
                    bs == blob_strings(data@, offset as int, context@.generation),
                    prev.len() <= r.raw_strings@.len(),
                    r.raw_strings@.map_values(f) == prev + bs.take(j as int),
                    r.successful == true,
                    r.file_hashes@ == fh,
                    r.string_hashes@ == sh,
                    r.file_hashes64@ == Seq::<ScannedHash<TagHash64>>::empty(),
                    r.references@ == Seq::<TagHash>::empty(),
                decreases blob@.len() - j,
            {
                let entry = &blob[j];
                let ghost rs0 = r.raw_strings@;
                r.raw_strings.push(entry.1.clone());
                proof {
                    let es = blob_entries(data@, offset as int, context@.generation);
                    assert(blob@[j as int].1@ == es[j as int].1);
                    assert(bs[j as int] == es[j as int].1);
                    let m0 = rs0.map_values(f);
                    let m1 = r.raw_strings@.map_values(f);
                    assert(m0 == prev + bs.take(j as int));
                    assert(m0.len() == prev.len() + j);
                    assert(m1.len() == m0.len() + 1);
                    assert forall|k: int| 0 <= k < m1.len() implies #[trigger] m1[k] == (prev
                        + bs.take(j + 1))[k] by {
                        assert(m1[k] == f(r.raw_strings@[k]));
                        if k < m0.len() {
                            assert(r.raw_strings@[k] == rs0[k]);
                            assert(m0[k] == f(rs0[k]));
                            assert(m0[k] == (prev + bs.take(j as int))[k]);
                            if k >= prev.len() {
                                assert(bs.take(j as int)[k - prev.len()] == bs[k - prev.len()]);
                                assert(bs.take(j + 1)[k - prev.len()] == bs[k - prev.len()]);
                            }
                        } else {
                            assert(r.raw_strings@[k] == blob@[j as int].1);
                            assert(f(blob@[j as int].1) == blob@[j as int].1@);
                            assert((prev + bs.take(j + 1))[k] == bs.take(j + 1)[j as int]);
                            assert(bs.take(j + 1)[j as int] == bs[j as int]);
                        }
                    }
                    assert(m1 =~= prev + bs.take(j + 1));
                }
                j = j + 1;
            }
            proof {
                assert(bs.take(bs.len() as int) =~~= bs);
            }
        }

        if value != FNV1_BASE && context.known_string_hashes.contains(&value) {
            r.string_hashes.push(ScannedHash { offset, hash: value });
        }

        i = i + 1;
    }

    let chunks8 = n / 8;
    let mut i8: usize = 0;
    while i8 < chunks8
        invariant
            0 <= i8 <= chunks8,
            chunks8 == data@.len() as int / 8,
            n == data@.len(),
            f == (|s: String| s@),
            r.successful == true,
            r.file_hashes@ == scanned_file_hashes(context@, data@),
            r.string_hashes@ == scanned_string_hashes(context@, data@),
            r.raw_strings@.map_values(f) == scanned_raw_strings(context@, data@),
            r.file_hashes64@ == scanned_file_hashes64_prefix(context@, data@, i8 as int),
            r.references@ == Seq::<TagHash>::empty(),
        decreases chunks8 - i8,
    {
        let value = read_u64(data, i8 * 8, context.endian);
        let offset = (i8 * 8) as u64;
        if context.valid_file_hashes64.contains(&value) {
            r.file_hashes64.push(ScannedHash { offset, hash: TagHash64(value) });
        }
        i8 = i8 + 1;
    }

    r
}

/// Identifier values of the first `count` entries of package `pkg_id`.
pub open spec fn pkg_hashes(pkg_id: u16, count: int) -> Set<u32>
    decreases count,
{
    if count <= 0 {
        Set::<u32>::empty()
    } else {
        pkg_hashes(pkg_id, count - 1).insert(crate::ids::tag_hash_value(pkg_id, (count - 1) as u16))
    }
}

/// Identifier values of every entry of the first `n` packages, each package
/// given as (package id, entry count).
pub open spec fn all_pkg_hashes(packages: Seq<(u16, u16)>, n: int) -> Set<u32>
    decreases n,
{
    if n <= 0 {
        Set::<u32>::empty()
    } else {
        all_pkg_hashes(packages, n - 1).union(
            pkg_hashes(packages[n - 1].0, packages[n - 1].1 as int),
        )
    }
}

/// Builds the read-only scan context from plain inputs: the identifier of
/// every entry of every package, the keys of the 64-bit lookup table, the
/// known string hashes, and the generation's byte order.
pub fn create_scanner_context(
    packages: &Vec<(u16, u16)>,
    hash64_keys: &Vec<u64>,
    string_hashes: &Vec<u32>,
    generation: Generation,
) -> (r: ScannerContext)
    ensures
        r@.valid32 == all_pkg_hashes(packages@, packages@.len() as int),
        r@.valid64 == hash64_keys@.to_set(),
        r@.known_strings == string_hashes@.to_set(),
        r@.endian == generation.spec_endian(),
        r@.generation == generation,
{
    let mut valid32: HashSet<u32> = HashSet::new();
    let mut j: usize = 0;
    while j < packages.len()
        invariant
            0 <= j <= packages@.len(),
            valid32@ == all_pkg_hashes(packages@, j as int),
        decreases packages@.len() - j,
    {
        let (pkg_id, count) = packages[j];
        let ghost before = valid32@;
        let mut e: u16 = 0;
        while e < count
            invariant
                0 <= e <= count,
                0 <= j < packages@.len(),
                (pkg_id, count) == packages@[j as int],
                before == all_pkg_hashes(packages@, j as int),
                valid32@ == before.union(pkg_hashes(pkg_id, e as int)),
            decreases count - e,
        {
            let h = TagHash::new(pkg_id, e);
            valid32.insert(h.0);
            proof {
                assert(valid32@ =~= before.union(pkg_hashes(pkg_id, e + 1)));
            }
            e = e + 1;
        }
        proof {
            assert(all_pkg_hashes(packages@, j + 1) == before.union(
                pkg_hashes(packages@[j as int].0, packages@[j as int].1 as int),
            ));
        }
        j = j + 1;
    }
    proof {
        assert(Set::<u32>::empty().union(pkg_hashes(0u16, 0)) =~= Set::<u32>::empty());
    }

    let mut valid64: HashSet<u64> = HashSet::new();
    assert(valid64@ =~= hash64_keys@.take(0).to_set());
    let mut j64: usize = 0;
    while j64 < hash64_keys.len()
        invariant
            0 <= j64 <= hash64_keys@.len(),
            valid64@ == hash64_keys@.take(j64 as int).to_set(),
        decreases hash64_keys@.len() - j64,
    {
        valid64.insert(hash64_keys[j64]);
        proof {
            assert(hash64_keys@.take(j64 + 1) =~= hash64_keys@.take(j64 as int).push(
                hash64_keys@[j64 as int],
            ));
            hash64_keys@.take(j64 as int).lemma_push_to_set_commute(hash64_keys@[j64 as int]);
        }
        j64 = j64 + 1;
    }
    proof {
        assert(hash64_keys@.take(hash64_keys@.len() as int) =~= hash64_keys@);
    }

    let mut known: HashSet<u32> = HashSet::new();
    assert(known@ =~= string_hashes@.take(0).to_set());
    let mut js: usize = 0;
    while js < string_hashes.len()
        invariant
            0 <= js <= string_hashes@.len(),
            known@ == string_hashes@.take(js as int).to_set(),
        decreases string_hashes@.len() - js,
    {
        known.insert(string_hashes[js]);
        proof {
            assert(string_hashes@.take(js + 1) =~= string_hashes@.take(js as int).push(
                string_hashes@[js as int],
            ));
            string_hashes@.take(js as int).lemma_push_to_set_commute(string_hashes@[js as int]);
        }
        js = js + 1;
    }
    proof {
        assert(string_hashes@.take(string_hashes@.len() as int) =~= string_hashes@);
    }

    ScannerContext {
        valid_file_hashes: valid32,
        valid_file_hashes64: valid64,
        known_string_hashes: known,
        endian: generation.endian(),
        generation,
    }
}

/// Sentinel offset marking the legacy parent reference prepended from an
/// entry's metadata header rather than found by byte scanning.
pub const PARENT_REFERENCE_OFFSET: u64 = 0xffffffffffffffff;

/// Scans one entry of a package. A payload that could not be read at all
/// yields an unsuccessful record with every scan field empty. For a
/// legacy-generation archive, the parent reference stored in the entry's own
/// metadata header — not discoverable by scanning — is prepended to the
/// 32-bit hits at a reserved sentinel offset when it names a valid tag.
pub fn scan_entry(context: &ScannerContext, data: Option<&[u8]>, entry_reference: u32) -> (r:
    ScanResult)
    ensures
        data is None ==> r.is_empty_with(false),
        data matches Some(d) ==> {
            let scanned = scanned_file_hashes(context@, d@);
            &&& r.successful == true
            &&& r.file_hashes@ == if context@.generation == Generation::Legacy
                && context@.valid32.contains(entry_reference) {
                seq![
                    ScannedHash {
                        offset: PARENT_REFERENCE_OFFSET,
                        hash: TagHash(entry_reference),
                    },
                ] + scanned
            } else {
                scanned
            }
            &&& r.string_hashes@ == scanned_string_hashes(context@, d@)
            &&& r.raw_strings@.map_values(|s: String| s@) == scanned_raw_strings(context@, d@)
            &&& r.file_hashes64@ == scanned_file_hashes64(context@, d@)
            &&& r.references@ == Seq::<TagHash>::empty()
        },
{
    match data {
        None => {
            let mut r = ScanResult::default();
            r.successful = false;
            r
        },
        Some(d) => {
            let mut r = scan_file(context, d);
            let is_legacy = match context.generation {
                Generation::Legacy => true,
                Generation::Current => false,
            };
            if is_legacy && context.valid_file_hashes.contains(&entry_reference) {
                let parent = ScannedHash {
                    offset: PARENT_REFERENCE_OFFSET,
                    hash: TagHash(entry_reference),
                };
                let ghost fh0 = r.file_hashes@;
                r.file_hashes.insert(0, parent);
                proof {
                    assert(r.file_hashes@ =~= seq![parent] + fh0);
                }
            }
            r
        },
    }
}

/// Current scan phase, shared between the orchestrator and the UI.
#[derive(Copy, Clone, PartialEq, Eq, Structural, Debug)]
pub enum ScanStatus {
    Idle,
    CreatingScanner,
    Scanning { current_package: usize, total_packages: usize },
    TransformGathering,
    TransformApplying,
    WritingCache,
    LoadingCache,
}

/// Reads the shared status cell: the current scan phase, with the package
/// counts when a scan is in progress.
pub fn scanner_progress(status: &ScanStatus) -> (r: ScanStatus)
    ensures
        r == *status,
{
    *status
}

/// Claims the next package slot in the shared status cell: returns the
/// package counter so far (zero when no scan was underway) and advances the
/// status to one more package scanned out of `total_packages`.
pub fn advance_scan_status(status: &mut ScanStatus, total_packages: usize) -> (r: usize)
    requires
        match *old(status) {
            ScanStatus::Scanning { current_package, .. } => current_package < usize::MAX,
            _ => true,
        },
    ensures
        r == (match *old(status) {
            ScanStatus::Scanning { current_package, .. } => current_package,
            _ => 0usize,
        }),
        *final(status) == (ScanStatus::Scanning {
            current_package: (r + 1) as usize,
            total_packages,
        }),
{
    let current_package = match *status {
        ScanStatus::Scanning { current_package, .. } => current_package,
        _ => 0,
    };
    *status = ScanStatus::Scanning { current_package: current_package + 1, total_packages };
    current_package
}

/// Strict bound and order of the recorded offsets of the first `n` windows.
proof fn lemma_scanned_file_hashes_sorted(cv: ScannerContextView, data: Seq<u8>, n: int)
    requires
        0 <= n,
        4 * n <= data.len() <= 0xffffffffffffffff,
    ensures
        forall|k: int|
            #![trigger scanned_file_hashes_prefix(cv, data, n)[k]]
            0 <= k < scanned_file_hashes_prefix(cv, data, n).len()
                ==> (scanned_file_hashes_prefix(cv, data, n)[k].offset as int) < 4 * n,
        forall|k1: int, k2: int|
            #![trigger scanned_file_hashes_prefix(cv, data, n)[k1], scanned_file_hashes_prefix(cv, data, n)[k2]]
            0 <= k1 < k2 < scanned_file_hashes_prefix(cv, data, n).len()
                ==> (scanned_file_hashes_prefix(cv, data, n)[k1].offset as int)
                < (scanned_file_hashes_prefix(cv, data, n)[k2].offset as int),
    decreases n,
{
    if n > 0 {
        lemma_scanned_file_hashes_sorted(cv, data, n - 1);
        let prev = scanned_file_hashes_prefix(cv, data, n - 1);
        let cur = scanned_file_hashes_prefix(cv, data, n);
        let v = u32_at(data, 4 * (n - 1), cv.endian);
        if spec_is_pkg_file(v) && cv.valid32.contains(v) {
            let x = ScannedHash { offset: (4 * (n - 1)) as u64, hash: TagHash(v) };
            assert(cur == prev.push(x));
            assert((x.offset as int) == 4 * (n - 1));
            assert forall|k: int| 0 <= k < cur.len() implies (#[trigger] cur[k].offset as int) < 4
                * n by {
                if k < prev.len() {
                    assert(cur[k] == prev[k]);
                    assert((prev[k].offset as int) < 4 * (n - 1));
                } else {
                    assert(cur[k] == x);
                }
            }
            assert forall|k1: int, k2: int|
                #![trigger cur[k1], cur[k2]]
                0 <= k1 < k2 < cur.len() implies (cur[k1].offset as int) < (
            cur[k2].offset as int) by {
                assert(cur[k1] == prev[k1]);
                if k2 < prev.len() {
                    assert(cur[k2] == prev[k2]);
                } else {
                    assert(cur[k2] == x);
                    assert((prev[k1].offset as int) < 4 * (n - 1));
                }
            }
        } else {
            assert(cur == prev);
            assert forall|k: int| 0 <= k < cur.len() implies (#[trigger] cur[k].offset as int) < 4
                * n by {
                assert((prev[k].offset as int) < 4 * (n - 1));
            }
        }
    }
}

/// A hit among the first `n` windows is recorded at its window's offset.
proof fn lemma_scanned_file_hashes_present(cv: ScannerContextView, data: Seq<u8>, n: int, i: int)
    requires
        0 <= i < n,
        4 * n <= data.len() <= 0xffffffffffffffff,
        spec_is_pkg_file(u32_at(data, 4 * i, cv.endian)),
        cv.valid32.contains(u32_at(data, 4 * i, cv.endian)),
    ensures
        exists|k: int|
            0 <= k < scanned_file_hashes_prefix(cv, data, n).len() && (
            #[trigger] scanned_file_hashes_prefix(cv, data, n)[k]) == (ScannedHash {
                offset: (4 * i) as u64,
                hash: TagHash(u32_at(data, 4 * i, cv.endian)),
            }),
    decreases n,
{
    let p = scanned_file_hashes_prefix(cv, data, n);
    let prev0 = scanned_file_hashes_prefix(cv, data, n - 1);
    if i == n - 1 {
        let x = ScannedHash { offset: (4 * i) as u64, hash: TagHash(u32_at(data, 4 * i, cv.endian)) };
        assert(p == prev0.push(x));
        assert(p[p.len() - 1] == x);
    } else {
        lemma_scanned_file_hashes_present(cv, data, n - 1, i);
        let k = choose|k: int|
            0 <= k < prev0.len() && (#[trigger] prev0[k]) == (ScannedHash {
                offset: (4 * i) as u64,
                hash: TagHash(u32_at(data, 4 * i, cv.endian)),
            });
        assert(p[k] == prev0[k]);
    }
}

/// Every valid package-file identifier present in a scanned tag's bytes at a
/// 4-byte-aligned window is recorded exactly once: some entry of the scan's
/// 32-bit hits carries that window's byte offset and identifier, and no two
/// entries share an offset.
pub proof fn lemma_scanner_records_hit_once(cv: ScannerContextView, data: Seq<u8>, i: int)
    requires
        0 <= i,
        4 * i + 4 <= data.len() <= 0xffffffffffffffff,
        spec_is_pkg_file(u32_at(data, 4 * i, cv.endian)),
        cv.valid32.contains(u32_at(data, 4 * i, cv.endian)),
    ensures
        exists|k: int|
            0 <= k < scanned_file_hashes(cv, data).len() && (#[trigger] scanned_file_hashes(
                cv,
                data,
            )[k]) == (ScannedHash {
                offset: (4 * i) as u64,
                hash: TagHash(u32_at(data, 4 * i, cv.endian)),
            }),
        forall|k1: int, k2: int|
            #![trigger scanned_file_hashes(cv, data)[k1], scanned_file_hashes(cv, data)[k2]]
            0 <= k1 < k2 < scanned_file_hashes(cv, data).len() ==> scanned_file_hashes(
                cv,
                data,
            )[k1].offset != scanned_file_hashes(cv, data)[k2].offset,
{
    let n = data.len() as int / 4;
    assert(i < n);
    lemma_scanned_file_hashes_present(cv, data, n, i);
    lemma_scanned_file_hashes_sorted(cv, data, n);
    let p = scanned_file_hashes_prefix(cv, data, n);
    assert(scanned_file_hashes(cv, data) == p);
    let k = choose|k: int|
        0 <= k < p.len() && (#[trigger] p[k]) == (ScannedHash {
            offset: (4 * i) as u64,
            hash: TagHash(u32_at(data, 4 * i, cv.endian)),
        });
    assert(scanned_file_hashes(cv, data)[k] == p[k]);
}

} // verus!
