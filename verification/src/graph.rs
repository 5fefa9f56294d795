use crate::cache::{TagCache, CACHE_FORMAT_VERSION};
use crate::ids::{TagHash, TagHash64};
use crate::scanner::{ScanResult, ScanResultView, ScannedHash};
use vstd::prelude::*;

verus! {

/// First entry of `table` whose 64-bit key equals `h`, searched from index
/// `i` on.
pub open spec fn spec_resolve64_from(table: Seq<(u64, u32)>, h: u64, i: int) -> Option<u32>
    decreases table.len() - i,
{
    if i < 0 || i >= table.len() {
        None
    } else if table[i].0 == h {
        Some(table[i].1)
    } else {
        spec_resolve64_from(table, h, i + 1)
    }
}

/// The 32-bit identifier that the lookup table assigns to `h`, if any.
pub open spec fn spec_resolve64(table: Seq<(u64, u32)>, h: u64) -> Option<u32> {
    spec_resolve64_from(table, h, 0)
}

/// Resolves a 64-bit identifier through the lookup table.
pub fn resolve64(table: &Vec<(u64, u32)>, h: u64) -> (r: Option<u32>)
    ensures
        r == spec_resolve64(table@, h),
{
    let mut i: usize = 0;
    while i < table.len()
        invariant
            0 <= i <= table@.len(),
            spec_resolve64(table@, h) == spec_resolve64_from(table@, h, i as int),
        decreases table@.len() - i,
    {
        if table[i].0 == h {
            return Some(table[i].1);
        }
        i = i + 1;
    }
    None
}

/// Appends `source` under `target` in the reverse mapping: pushed onto the
/// existing run of sources if `target` already has one, else a new pair at
/// the end.
pub open spec fn add_ref(
    m: Seq<(TagHash, Seq<TagHash>)>,
    target: TagHash,
    source: TagHash,
) -> Seq<(TagHash, Seq<TagHash>)>
    decreases m.len(),
{
    if m.len() == 0 {
        seq![(target, seq![source])]
    } else if m[0].0 == target {
        seq![(m[0].0, m[0].1.push(source))] + m.drop_first()
    } else {
        seq![m[0]] + add_ref(m.drop_first(), target, source)
    }
}

/// Sources recorded under `k` in the reverse mapping, if any.
pub open spec fn refs_of(m: Seq<(TagHash, Seq<TagHash>)>, k: TagHash) -> Option<Seq<TagHash>>
    decreases m.len(),
{
    if m.len() == 0 {
        None
    } else if m[0].0 == k {
        Some(m[0].1)
    } else {
        refs_of(m.drop_first(), k)
    }
}

/// `source` is recorded under `target` in the reverse mapping.
pub open spec fn has_ref(m: Seq<(TagHash, Seq<TagHash>)>, target: TagHash, source: TagHash) -> bool {
    match refs_of(m, target) {
        Some(rs) => rs.contains(source),
        None => false,
    }
}

/// After `add_ref`, `target` maps to its old run with `source` appended (a
/// fresh one-element run if it was absent), and every other key is unchanged.
proof fn lemma_add_ref(m: Seq<(TagHash, Seq<TagHash>)>, target: TagHash, source: TagHash)
    ensures
        refs_of(add_ref(m, target, source), target) == match refs_of(m, target) {
            Some(rs) => Some(rs.push(source)),
            None => Some(seq![source]),
        },
        forall|k: TagHash|
            k != target ==> #[trigger] refs_of(add_ref(m, target, source), k) == refs_of(m, k),
        add_ref(m, target, source).len() >= m.len(),
    decreases m.len(),
{
    let r = add_ref(m, target, source);
    if m.len() == 0 {
        assert(r == seq![(target, seq![source])]);
        assert(r.drop_first() =~= Seq::<(TagHash, Seq<TagHash>)>::empty());
        assert forall|k: TagHash| k != target implies #[trigger] refs_of(r, k) == refs_of(
            m,
            k,
        ) by {
            assert(r[0].0 == target);
            assert(refs_of(r, k) == refs_of(r.drop_first(), k));
        }
    } else if m[0].0 == target {
        assert(r == seq![(m[0].0, m[0].1.push(source))] + m.drop_first());
        assert(r[0] == (m[0].0, m[0].1.push(source)));
        assert(r.drop_first() =~= m.drop_first());
        assert forall|k: TagHash| k != target implies #[trigger] refs_of(r, k) == refs_of(
            m,
            k,
        ) by {
            assert(refs_of(r, k) == refs_of(r.drop_first(), k));
            assert(refs_of(m, k) == refs_of(m.drop_first(), k));
        }
    } else {
        let rr = add_ref(m.drop_first(), target, source);
        assert(r == seq![m[0]] + rr);
        assert(r[0] == m[0]);
        assert(r.drop_first() =~= rr);
        lemma_add_ref(m.drop_first(), target, source);
        assert forall|k: TagHash| k != target implies #[trigger] refs_of(r, k) == refs_of(
            m,
            k,
        ) by {
            if m[0].0 == k {
                assert(refs_of(r, k) == Some(r[0].1));
                assert(refs_of(m, k) == Some(m[0].1));
            } else {
                assert(refs_of(r, k) == refs_of(rr, k));
                assert(refs_of(m, k) == refs_of(m.drop_first(), k));
            }
        }
    }
}

/// `add_ref` never removes a recorded source.
proof fn lemma_add_ref_keeps(
    m: Seq<(TagHash, Seq<TagHash>)>,
    target: TagHash,
    source: TagHash,
    t: TagHash,
    s: TagHash,
)
    requires
        has_ref(m, t, s),
    ensures
        has_ref(add_ref(m, target, source), t, s),
{
    lemma_add_ref(m, target, source);
    if t == target {
        let rs = refs_of(m, t)->Some_0;
        assert(refs_of(add_ref(m, target, source), t) == Some(rs.push(source)));
        let x = choose|x: int| 0 <= x < rs.len() && rs[x] == s;
        assert(rs.push(source)[x] == s);
    }
}

/// `add_ref` records `source` under `target`.
proof fn lemma_add_ref_adds(m: Seq<(TagHash, Seq<TagHash>)>, target: TagHash, source: TagHash)
    ensures
        has_ref(add_ref(m, target, source), target, source),
{
    lemma_add_ref(m, target, source);
    match refs_of(m, target) {
        Some(rs) => {
            assert(rs.push(source)[rs.len() as int] == source);
        },
        None => {
            assert(seq![source][0] == source);
        },
    }
}

/// The reverse mapping after recording the first `n` 32-bit hits of `s`,
/// each under its target with `source` as the referencing tag.
pub open spec fn add_refs32(
    m: Seq<(TagHash, Seq<TagHash>)>,
    s: Seq<ScannedHash<TagHash>>,
    source: TagHash,
    n: int,
) -> Seq<(TagHash, Seq<TagHash>)>
    decreases n,
{
    if n <= 0 {
        m
    } else {
        add_ref(add_refs32(m, s, source, n - 1), s[n - 1].hash, source)
    }
}

/// The reverse mapping after recording the first `n` 64-bit hits of `s` that
/// resolve through `table`, each under its resolved target.
pub open spec fn add_refs64(
    m: Seq<(TagHash, Seq<TagHash>)>,
    s: Seq<ScannedHash<TagHash64>>,
    table: Seq<(u64, u32)>,
    source: TagHash,
    n: int,
) -> Seq<(TagHash, Seq<TagHash>)>
    decreases n,
{
    if n <= 0 {
        m
    } else {
        let prev = add_refs64(m, s, table, source, n - 1);
        match spec_resolve64(table, s[n - 1].hash.0) {
            Some(t) => add_ref(prev, TagHash(t), source),
            None => prev,
        }
    }
}

/// The reverse mapping gathered from the first `n` scanned entries: for every
/// 32-bit hit the scanning tag's id is appended under the referenced id, and
/// for every 64-bit hit under its resolved id; unresolved 64-bit hits are
/// dropped.
pub open spec fn gather(
    entries: Seq<(TagHash, ScanResultView)>,
    table: Seq<(u64, u32)>,
    n: int,
) -> Seq<(TagHash, Seq<TagHash>)>
    decreases n,
{
    if n <= 0 {
        Seq::<(TagHash, Seq<TagHash>)>::empty()
    } else {
        let prev = gather(entries, table, n - 1);
        let m32 = add_refs32(prev, entries[n - 1].1.file_hashes, entries[n - 1].0, entries[n
            - 1].1.file_hashes.len() as int);
        add_refs64(m32, entries[n - 1].1.file_hashes64, table, entries[n - 1].0, entries[n
            - 1].1.file_hashes64.len() as int)
    }
}

/// The whole reverse mapping of `entries`.
pub open spec fn gathered(
    entries: Seq<(TagHash, ScanResultView)>,
    table: Seq<(u64, u32)>,
) -> Seq<(TagHash, Seq<TagHash>)> {
    gather(entries, table, entries.len() as int)
}

/// When `target` sits at index `idx` (and nowhere earlier), `add_ref` only
/// appends `source` to that pair's run.
proof fn lemma_add_ref_found(
    m: Seq<(TagHash, Seq<TagHash>)>,
    target: TagHash,
    source: TagHash,
    idx: int,
)
    requires
        0 <= idx < m.len(),
        m[idx].0 == target,
        forall|j: int| 0 <= j < idx ==> (#[trigger] m[j]).0 != target,
    ensures
        add_ref(m, target, source) == m.update(idx, (target, m[idx].1.push(source))),
    decreases idx,
{
    if idx == 0 {
        assert(add_ref(m, target, source) == seq![(m[0].0, m[0].1.push(source))]
            + m.drop_first());
        assert(seq![(m[0].0, m[0].1.push(source))] + m.drop_first() =~= m.update(
            0,
            (target, m[0].1.push(source)),
        ));
    } else {
        assert(m[0].0 != target);
        let md = m.drop_first();
        assert(md[idx - 1].0 == target);
        assert(forall|j: int| 0 <= j < idx - 1 ==> (#[trigger] md[j]).0 != target);
        lemma_add_ref_found(md, target, source, idx - 1);
        assert(add_ref(m, target, source) == seq![m[0]] + md.update(
            idx - 1,
            (target, md[idx - 1].1.push(source)),
        ));
        assert(seq![m[0]] + md.update(idx - 1, (target, md[idx - 1].1.push(source))) =~= m.update(
            idx,
            (target, m[idx].1.push(source)),
        ));
    }
}

/// When `target` has no pair yet, `add_ref` appends a fresh one at the end.
proof fn lemma_add_ref_absent(m: Seq<(TagHash, Seq<TagHash>)>, target: TagHash, source: TagHash)
    requires
        forall|j: int| 0 <= j < m.len() ==> (#[trigger] m[j]).0 != target,
    ensures
        add_ref(m, target, source) == m.push((target, seq![source])),
    decreases m.len(),
{
    if m.len() == 0 {
        assert(add_ref(m, target, source) =~= m.push((target, seq![source])));
    } else {
        let md = m.drop_first();
        assert(forall|j: int| 0 <= j < md.len() ==> (#[trigger] md[j]).0 != target);
        lemma_add_ref_absent(md, target, source);
        assert(add_ref(m, target, source) == seq![m[0]] + md.push((target, seq![source])));
        assert(seq![m[0]] + md.push((target, seq![source])) =~= m.push((target, seq![source])));
    }
}

/// Recording further references keeps every reference already recorded.
proof fn lemma_add_refs32_keeps(
    m: Seq<(TagHash, Seq<TagHash>)>,
    s: Seq<ScannedHash<TagHash>>,
    source: TagHash,
    n: int,
    t: TagHash,
    sx: TagHash,
)
    requires
        has_ref(m, t, sx),
    ensures
        has_ref(add_refs32(m, s, source, n), t, sx),
    decreases n,
{
    if n > 0 {
        lemma_add_refs32_keeps(m, s, source, n - 1, t, sx);
        lemma_add_ref_keeps(add_refs32(m, s, source, n - 1), s[n - 1].hash, source, t, sx);
    }
}

/// Each of the first `n` 32-bit hits is recorded under its target.
proof fn lemma_add_refs32_adds(
    m: Seq<(TagHash, Seq<TagHash>)>,
    s: Seq<ScannedHash<TagHash>>,
    source: TagHash,
    n: int,
    x: int,
)
    requires
        0 <= x < n <= s.len(),
    ensures
        has_ref(add_refs32(m, s, source, n), s[x].hash, source),
    decreases n,
{
    if x == n - 1 {
        lemma_add_ref_adds(add_refs32(m, s, source, n - 1), s[n - 1].hash, source);
    } else {
        lemma_add_refs32_adds(m, s, source, n - 1, x);
        lemma_add_ref_keeps(
            add_refs32(m, s, source, n - 1),
            s[n - 1].hash,
            source,
            s[x].hash,
            source,
        );
    }
}

/// Recording 64-bit hits keeps every reference already recorded.
proof fn lemma_add_refs64_keeps(
    m: Seq<(TagHash, Seq<TagHash>)>,
    s: Seq<ScannedHash<TagHash64>>,
    table: Seq<(u64, u32)>,
    source: TagHash,
    n: int,
    t: TagHash,
    sx: TagHash,
)
    requires
        has_ref(m, t, sx),
    ensures
        has_ref(add_refs64(m, s, table, source, n), t, sx),
    decreases n,
{
    if n > 0 {
        lemma_add_refs64_keeps(m, s, table, source, n - 1, t, sx);
        let prev = add_refs64(m, s, table, source, n - 1);
        match spec_resolve64(table, s[n - 1].hash.0) {
            Some(tt) => {
                lemma_add_ref_keeps(prev, TagHash(tt), source, t, sx);
            },
            None => {},
        }
    }
}

/// The reverse mapping gathered from the first `n` entries records, under the
/// referenced id, the id of every scanning tag among them that declared a
/// 32-bit hit on it.
proof fn lemma_gather_has_ref(
    entries: Seq<(TagHash, ScanResultView)>,
    table: Seq<(u64, u32)>,
    n: int,
    i: int,
    x: int,
)
    requires
        0 <= i < n <= entries.len(),
        0 <= x < entries[i].1.file_hashes.len(),
    ensures
        has_ref(gather(entries, table, n), entries[i].1.file_hashes[x].hash, entries[i].0),
    decreases n,
{
    let prev = gather(entries, table, n - 1);
    let m32 = add_refs32(prev, entries[n - 1].1.file_hashes, entries[n - 1].0, entries[n
        - 1].1.file_hashes.len() as int);
    if i == n - 1 {
        lemma_add_refs32_adds(
            prev,
            entries[i].1.file_hashes,
            entries[i].0,
            entries[i].1.file_hashes.len() as int,
            x,
        );
    } else {
        lemma_gather_has_ref(entries, table, n - 1, i, x);
        lemma_add_refs32_keeps(
            prev,
            entries[n - 1].1.file_hashes,
            entries[n - 1].0,
            entries[n - 1].1.file_hashes.len() as int,
            entries[i].1.file_hashes[x].hash,
            entries[i].0,
        );
    }
    lemma_add_refs64_keeps(
        m32,
        entries[n - 1].1.file_hashes64,
        table,
        entries[n - 1].0,
        entries[n - 1].1.file_hashes64.len() as int,
        entries[i].1.file_hashes[x].hash,
        entries[i].0,
    );
}

/// A key that `refs_of` finds sits somewhere in the mapping with its run.
proof fn lemma_refs_of_index(m: Seq<(TagHash, Seq<TagHash>)>, k: TagHash, rs: Seq<TagHash>)
    requires
        refs_of(m, k) == Some(rs),
    ensures
        exists|j: int| 0 <= j < m.len() && #[trigger] m[j] == (k, rs),
    decreases m.len(),
{
    if m[0].0 == k {
        assert(m[0] == (k, rs));
    } else {
        lemma_refs_of_index(m.drop_first(), k, rs);
        let j = choose|j: int| 0 <= j < m.drop_first().len() && #[trigger] m.drop_first()[j] == (
        k,
        rs,
        );
        assert(m[j + 1] == (k, rs));
    }
}

/// Mathematical content of the reverse mapping under construction.
pub open spec fn rev_view(s: Seq<(TagHash, Vec<TagHash>)>) -> Seq<(TagHash, Seq<TagHash>)> {
    s.map_values(|p: (TagHash, Vec<TagHash>)| (p.0, p.1@))
}

/// Records `source` under `target` in the reverse mapping, as [`add_ref`]
/// describes.
fn add_ref_exec(m: &mut Vec<(TagHash, Vec<TagHash>)>, target: TagHash, source: TagHash)
    ensures
        rev_view(final(m)@) == add_ref(rev_view(old(m)@), target, source),
{
    let ghost m0 = rev_view(m@);
    let mut idx: usize = 0;
    while idx < m.len()
        invariant
            0 <= idx <= m@.len(),
            m@ == old(m)@,
            m0 == rev_view(m@),
            forall|j: int| 0 <= j < idx ==> (#[trigger] m@[j]).0 != target,
        decreases m@.len() - idx,
    {
        if m[idx].0 == target {
            m[idx].1.push(source);
            proof {
                assert(forall|j: int| 0 <= j < idx ==> (#[trigger] m0[j]).0 != target);
                assert(m0[idx as int].0 == target);
                lemma_add_ref_found(m0, target, source, idx as int);
                assert(rev_view(m@) =~= m0.update(
                    idx as int,
                    (target, m0[idx as int].1.push(source)),
                ));
            }
            return ;
        }
        idx = idx + 1;
    }
    let mut fresh: Vec<TagHash> = Vec::new();
    fresh.push(source);
    m.push((target, fresh));
    proof {
        assert(forall|j: int| 0 <= j < m0.len() ==> (#[trigger] m0[j]).0 != target);
        lemma_add_ref_absent(m0, target, source);
        assert(fresh@ =~= seq![source]);
        assert(rev_view(m@) =~= m0.push((target, seq![source])));
    }
}

/// Index of the pair that holds `k`'s sources, if one exists; mirrors
/// [`refs_of`].
fn find_ref_index(m: &Vec<(TagHash, Vec<TagHash>)>, k: TagHash) -> (r: Option<usize>)
    ensures
        match r {
            Some(idx) => idx < m@.len() && m@[idx as int].0 == k && refs_of(rev_view(m@), k)
                == Some(m@[idx as int].1@),
            None => refs_of(rev_view(m@), k) is None,
        },
{
    let ghost mv = rev_view(m@);
    assert(mv.skip(0) =~= mv);
    let mut idx: usize = 0;
    while idx < m.len()
        invariant
            0 <= idx <= m@.len(),
            mv == rev_view(m@),
            refs_of(mv, k) == refs_of(mv.skip(idx as int), k),
        decreases m@.len() - idx,
    {
        let ghost suf = mv.skip(idx as int);
        if m[idx].0 == k {
            proof {
                assert(suf[0] == mv[idx as int]);
                assert(refs_of(suf, k) == Some(mv[idx as int].1));
            }
            return Some(idx);
        }
        proof {
            assert(suf[0] == mv[idx as int]);
            assert(suf.drop_first() =~= mv.skip(idx + 1));
            assert(refs_of(suf, k) == refs_of(mv.skip(idx + 1), k));
        }
        idx = idx + 1;
    }
    proof {
        assert(mv.skip(mv.len() as int) =~= Seq::<(TagHash, Seq<TagHash>)>::empty());
    }
    None
}

/// Mathematical content of the per-tag mapping.
pub open spec fn entries_view(s: Seq<(TagHash, ScanResult)>) -> Seq<(TagHash, ScanResultView)> {
    s.map_values(|p: (TagHash, ScanResult)| (p.0, p.1@))
}

/// Keys of the mapping, in order.
pub open spec fn entry_keys(entries: Seq<(TagHash, ScanResultView)>) -> Seq<TagHash> {
    entries.map_values(|p: (TagHash, ScanResultView)| p.0)
}

/// The apply pass over scanned entries: every record receives the sources
/// gathered under its key; a record whose key was never referenced keeps its
/// own `references` field.
pub open spec fn apply_pass(
    entries: Seq<(TagHash, ScanResultView)>,
    g: Seq<(TagHash, Seq<TagHash>)>,
) -> Seq<(TagHash, ScanResultView)> {
    entries.map_values(
        |p: (TagHash, ScanResultView)|
            (
                p.0,
                p.1.with_references(
                    match refs_of(g, p.0) {
                        Some(rs) => rs,
                        None => p.1.references,
                    },
                ),
            ),
    )
}

/// Placeholder records for ids that were only ever referenced, never
/// scanned: empty scan fields, `referenced_by` filled in, so the graph is
/// queryable from every node discovered during scanning.
pub open spec fn placeholder_entries(
    entries: Seq<(TagHash, ScanResultView)>,
    g: Seq<(TagHash, Seq<TagHash>)>,
) -> Seq<(TagHash, ScanResultView)> {
    g.filter(
        |p: (TagHash, Seq<TagHash>)| p.1.len() > 0 && !entry_keys(entries).contains(p.0),
    ).map_values(|p: (TagHash, Seq<TagHash>)| (p.0, ScanResultView::placeholder(true, p.1)))
}

/// The finished mapping of the transform: the scanned entries with their
/// inbound references applied, then one placeholder per referenced-only id.
pub open spec fn transformed(
    entries: Seq<(TagHash, ScanResultView)>,
    table: Seq<(u64, u32)>,
) -> Seq<(TagHash, ScanResultView)> {
    let g = gathered(entries, table);
    apply_pass(entries, g) + placeholder_entries(entries, g)
}

/// Copies a run of identifiers.
fn copy_tags(v: &Vec<TagHash>) -> (r: Vec<TagHash>)
    ensures
        r@ == v@,
{
    let mut r: Vec<TagHash> = Vec::new();
    let mut i: usize = 0;
    while i < v.len()
        invariant
            0 <= i <= v@.len(),
            r@ == v@.take(i as int),
        decreases v@.len() - i,
    {
        r.push(v[i]);
        proof {
            assert(v@.take(i + 1) =~= v@.take(i as int).push(v@[i as int]));
        }
        i = i + 1;
    }
    proof {
        assert(v@.take(v@.len() as int) =~= v@);
    }
    r
}

/// Turns the per-tag scan results into the persisted bidirectional graph:
/// gathers the reverse mapping from every 32-bit hit and every resolvable
/// 64-bit hit, applies it to each scanned entry, and appends a placeholder
/// record for every id that was only referenced, never scanned. The result is
/// stamped with the current layout version and the given directory timestamp.
pub fn transform_tag_cache(
    cache: Vec<(TagHash, ScanResult)>,
    hash64_table: &Vec<(u64, u32)>,
    timestamp: u64,
) -> (r: TagCache)
    ensures
        r.version == CACHE_FORMAT_VERSION,
        r.timestamp == timestamp,
        entries_view(r.hashes@) == transformed(entries_view(cache@), hash64_table@),
{
    let ghost ev = entries_view(cache@);
    let ghost tv = hash64_table@;

    // Pass 1: gather the reverse mapping.
    let mut rev: Vec<(TagHash, Vec<TagHash>)> = Vec::new();
    assert(rev_view(rev@) =~= gather(ev, tv, 0));
    let mut e: usize = 0;
    while e < cache.len()
        invariant
            0 <= e <= cache@.len(),
            ev == entries_view(cache@),
            tv == hash64_table@,
            rev_view(rev@) == gather(ev, tv, e as int),
        decreases cache@.len() - e,
    {
        let source = cache[e].0;
        proof {
            assert(ev[e as int] == (cache@[e as int].0, cache@[e as int].1@));
        }
        let ghost g0 = gather(ev, tv, e as int);
        let ghost fh = ev[e as int].1.file_hashes;
        let ghost fh64 = ev[e as int].1.file_hashes64;

        let mut x: usize = 0;
        while x < cache[e].1.file_hashes.len()
            invariant
                0 <= e < cache@.len(),
                0 <= x <= fh.len(),
                ev == entries_view(cache@),
                tv == hash64_table@,
                source == ev[e as int].0,
                fh == ev[e as int].1.file_hashes,
                fh == cache@[e as int].1.file_hashes@,
                g0 == gather(ev, tv, e as int),
                rev_view(rev@) == add_refs32(g0, fh, source, x as int),
            decreases fh.len() - x,
        {
            let t = cache[e].1.file_hashes[x].hash;
            add_ref_exec(&mut rev, t, source);
            x = x + 1;
        }

        let ghost m32 = add_refs32(g0, fh, source, fh.len() as int);
        let mut y: usize = 0;
        while y < cache[e].1.file_hashes64.len()
            invariant
                0 <= e < cache@.len(),
                0 <= y <= fh64.len(),
                ev == entries_view(cache@),
                tv == hash64_table@,
                source == ev[e as int].0,
                fh64 == ev[e as int].1.file_hashes64,
                fh64 == cache@[e as int].1.file_hashes64@,
                m32 == add_refs32(gather(ev, tv, e as int), ev[e as int].1.file_hashes, source, ev[e as int].1.file_hashes.len() as int),
                rev_view(rev@) == add_refs64(m32, fh64, tv, source, y as int),
            decreases fh64.len() - y,
        {
            let h64 = cache[e].1.file_hashes64[y].hash.0;
            match resolve64(hash64_table, h64) {
                Some(t32) => {
                    add_ref_exec(&mut rev, TagHash(t32), source);
                },
                None => {},
            }
            y = y + 1;
        }
        e = e + 1;
    }

    let ghost g = gathered(ev, tv);
    proof {
        assert(rev_view(rev@) == g);
    }

    // Pass 2: apply the gathered references to every scanned entry.
    let ghost ap = apply_pass(ev, g);
    let total = cache.len();
    let mut out: Vec<(TagHash, ScanResult)> = Vec::new();
    assert(entries_view(out@) =~= ap.take(0));
    let mut rest = cache;
    let mut i: usize = 0;
    while i < total
        invariant
            0 <= i <= total,
            total == ev.len(),
            rest@.len() == total - i,
            entries_view(rest@) == ev.skip(i as int),
            entries_view(out@) == ap.take(i as int),
            out@.len() == i,
            g == gathered(ev, tv),
            ap == apply_pass(ev, g),
            rev_view(rev@) == g,
        decreases total - i,
    {
        let ghost rv0 = rest@;
        let kv = rest.remove(0);
        let k = kv.0;
        let mut v = kv.1;
        proof {
            assert(kv == rv0[0]);
            assert(entries_view(rv0)[0] == (rv0[0].0, rv0[0].1@));
            assert(entries_view(rv0)[0] == ev.skip(i as int)[0]);
            assert(ev.skip(i as int)[0] == ev[i as int]);
            assert((k, v@) == ev[i as int]);
            assert(rest@ == rv0.remove(0));
            assert forall|q: int| 0 <= q < rest@.len() implies #[trigger] entries_view(rest@)[q]
                == ev.skip(i + 1)[q] by {
                assert(rest@[q] == rv0[q + 1]);
                assert(entries_view(rv0)[q + 1] == (rv0[q + 1].0, rv0[q + 1].1@));
                assert(entries_view(rv0)[q + 1] == ev.skip(i as int)[q + 1]);
                assert(ev.skip(i as int)[q + 1] == ev[i + 1 + q]);
                assert(ev.skip(i + 1)[q] == ev[i + 1 + q]);
                assert(entries_view(rest@)[q] == (rest@[q].0, rest@[q].1@));
            }
            assert(entries_view(rest@) =~= ev.skip(i + 1));
        }
        match find_ref_index(&rev, k) {
            Some(idx) => {
                v.references = copy_tags(&rev[idx].1);
                proof {
                    assert(refs_of(g, k) == Some(rev@[idx as int].1@));
                }
            },
            None => {},
        }
        out.push((k, v));
        proof {
            assert(ap[i as int] == (
                ev[i as int].0,
                ev[i as int].1.with_references(
                    match refs_of(g, ev[i as int].0) {
                        Some(rs) => rs,
                        None => ev[i as int].1.references,
                    },
                ),
            ));
            assert(v@ == ap[i as int].1);
            assert(entries_view(out@) =~= ap.take(i + 1));
        }
        i = i + 1;
    }
    proof {
        assert(ap.take(total as int) =~= ap);
    }

    // Pass 2, second half: placeholders for referenced-only ids.
    let ghost pred = |p: (TagHash, Seq<TagHash>)| p.1.len() > 0 && !entry_keys(ev).contains(p.0);
    let ghost ph = placeholder_entries(ev, g);
    proof {
        assert(g.take(0) =~= Seq::<(TagHash, Seq<TagHash>)>::empty());
        assert(g.take(0).filter(pred) =~= Seq::<(TagHash, Seq<TagHash>)>::empty());
        assert(g.take(0).filter(pred).map_values(
            |p: (TagHash, Seq<TagHash>)| (p.0, ScanResultView::placeholder(true, p.1)),
        ) =~= Seq::<(TagHash, ScanResultView)>::empty());
        assert(entries_view(out@) =~~= ap + g.take(0).filter(pred).map_values(
            |p: (TagHash, Seq<TagHash>)| (p.0, ScanResultView::placeholder(true, p.1)),
        ));
        assert forall|n: int| 0 <= n < total implies (#[trigger] out@[n]).0 == ev[n].0 by {
            assert(entries_view(out@)[n] == (out@[n].0, out@[n].1@));
            assert(ap[n] == entries_view(out@)[n]);
            assert(ap[n].0 == ev[n].0);
        }
    }
    let mut rev2 = rev;
    let mut j: usize = 0;
    let glen = rev2.len();
    while j < glen
        invariant
            0 <= j <= glen,
            glen == g.len(),
            total == ev.len(),
            rev_view(rev2@) == g,
            pred == (|p: (TagHash, Seq<TagHash>)| p.1.len() > 0 && !entry_keys(ev).contains(p.0)),
            ph == placeholder_entries(ev, g),
            ap == apply_pass(ev, g),
            out@.len() >= total,
            forall|n: int| 0 <= n < total ==> (#[trigger] out@[n]).0 == ev[n].0,
            entries_view(out@) == ap + g.take(j as int).filter(pred).map_values(
                |p: (TagHash, Seq<TagHash>)| (p.0, ScanResultView::placeholder(true, p.1)),
            ),
        decreases glen - j,
    {
        let ghost out0 = entries_view(out@);
        let k = rev2[j].0;
        let ghost gj = g[j as int];
        proof {
            assert(gj == (rev2@[j as int].0, rev2@[j as int].1@));
        }
        let empty_refs = rev2[j].1.is_empty();
        let mut in_scanned = false;
        let mut n: usize = 0;
        if !empty_refs {
            while n < total
                invariant
                    0 <= n <= total,
                    total <= out@.len(),
                    entries_view(out@) == out0,
                    forall|q: int| 0 <= q < total ==> (#[trigger] out@[q]).0 == ev[q].0,
                    in_scanned <==> exists|q: int| 0 <= q < n && (#[trigger] ev[q]).0 == k,
                decreases total - n,
            {
                if out[n].0 == k {
                    in_scanned = true;
                    proof {
                        assert(ev[n as int].0 == k);
                    }
                }
                n = n + 1;
            }
        }
        proof {
            assert(entry_keys(ev).contains(gj.0) <==> exists|q: int|
                0 <= q < total && (#[trigger] ev[q]).0 == k) by {
                if entry_keys(ev).contains(gj.0) {
                    let q = choose|q: int|
                        0 <= q < entry_keys(ev).len() && entry_keys(ev)[q] == gj.0;
                    assert(ev[q].0 == gj.0);
                }
                if exists|q: int| 0 <= q < total && (#[trigger] ev[q]).0 == k {
                    let q = choose|q: int| 0 <= q < total && (#[trigger] ev[q]).0 == k;
                    assert(entry_keys(ev)[q] == k);
                }
            }
        }
        if !empty_refs && !in_scanned {
            let refs = copy_tags(&rev2[j].1);
            let mut pr = ScanResult::default();
            pr.references = refs;
            let ghost outraw0 = out@;
            let ghost prv = pr@;
            out.push((k, pr));
            proof {
                assert(pred(gj));
                assert(pr@.raw_strings =~= Seq::<Seq<char>>::empty());
                assert(pr@ == ScanResultView::placeholder(true, gj.1));
                assert(g.take(j + 1) =~= g.take(j as int).push(gj));
                g.take(j as int).lemma_filter_push(gj, pred);
                assert(g.take(j + 1).filter(pred) == g.take(j as int).filter(pred).push(gj));
                let fm = |p: (TagHash, Seq<TagHash>)| (p.0, ScanResultView::placeholder(
                    true,
                    p.1,
                ));
                let olds = g.take(j as int).filter(pred);
                assert forall|q: int| 0 <= q < olds.push(gj).map_values(fm).len() implies #[trigger]
                    olds.push(gj).map_values(fm)[q] == olds.map_values(fm).push(fm(gj))[q] by {
                    if q < olds.len() {
                        assert(olds.push(gj)[q] == olds[q]);
                    } else {
                        assert(olds.push(gj)[q] == gj);
                    }
                }
                assert(olds.push(gj).map_values(fm) =~= olds.map_values(fm).push(fm(gj)));
                assert(entries_view(out@).len() == out0.len() + 1);
                assert forall|q: int| 0 <= q < entries_view(out@).len() implies #[trigger]
                    entries_view(out@)[q] == (ap + olds.map_values(fm).push(fm(gj)))[q] by {
                    assert(entries_view(out@)[q] == (out@[q].0, out@[q].1@));
                    if q < out0.len() {
                        assert(out@[q] == outraw0[q]);
                        assert(out0[q] == (outraw0[q].0, outraw0[q].1@));
                        assert(out0[q] == (ap + olds.map_values(fm))[q]);
                    } else {
                        assert(out@[q].0 == k && out@[q].1@ == prv);
                    }
                }
                assert(entries_view(out@) =~= ap + olds.push(gj).map_values(fm));
            }
        } else {
            proof {
                assert(!pred(gj));
                assert(g.take(j + 1) =~= g.take(j as int).push(gj));
                g.take(j as int).lemma_filter_push(gj, pred);
                assert(g.take(j + 1).filter(pred) == g.take(j as int).filter(pred));
            }
        }
        j = j + 1;
    }
    proof {
        assert(g.take(glen as int) =~= g);
        assert(entries_view(out@) == transformed(ev, tv));
    }

    TagCache { timestamp, version: CACHE_FORMAT_VERSION, hashes: out }
}

/// Every 32-bit reference discovered by scanning becomes an inbound reference
/// of its target: if the record scanned for a source tag holds a `file_hashes`
/// hit on target id `t`, then the transformed mapping has an entry for `t`
/// whose `references` run contains the source tag's id — whether or not `t`
/// itself was ever scanned.
pub proof fn lemma_transform_records_reverse_reference(
    entries: Seq<(TagHash, ScanResultView)>,
    table: Seq<(u64, u32)>,
    i: int,
    x: int,
)
    requires
        0 <= i < entries.len(),
        0 <= x < entries[i].1.file_hashes.len(),
    ensures
        exists|k: int|
            0 <= k < transformed(entries, table).len() && (#[trigger] transformed(entries, table)[k]).0
                == entries[i].1.file_hashes[x].hash && transformed(
                entries,
                table,
            )[k].1.references.contains(entries[i].0),
{
    let t = entries[i].1.file_hashes[x].hash;
    let src = entries[i].0;
    let g = gathered(entries, table);
    let ap = apply_pass(entries, g);
    let tr = transformed(entries, table);
    lemma_gather_has_ref(entries, table, entries.len() as int, i, x);
    let rs = refs_of(g, t)->Some_0;
    assert(rs.contains(src));
    if entry_keys(entries).contains(t) {
        let q = choose|q: int| 0 <= q < entry_keys(entries).len() && entry_keys(entries)[q] == t;
        assert(entry_keys(entries)[q] == entries[q].0);
        assert(ap[q] == (entries[q].0, entries[q].1.with_references(rs)));
        assert(tr[q] == ap[q]);
        assert(tr[q].0 == t && tr[q].1.references.contains(src));
    } else {
        lemma_refs_of_index(g, t, rs);
        let j = choose|j: int| 0 <= j < g.len() && #[trigger] g[j] == (t, rs);
        let pred = |p: (TagHash, Seq<TagHash>)| p.1.len() > 0 && !entry_keys(entries).contains(
            p.0,
        );
        let cx = choose|cx: int| 0 <= cx < rs.len() && rs[cx] == src;
        assert(rs.len() > 0);
        assert(pred(g[j]));
        g.lemma_filter_contains(pred, j);
        let filtered = g.filter(pred);
        assert(filtered.contains(g[j]));
        let w = choose|w: int| 0 <= w < filtered.len() && filtered[w] == g[j];
        let ph = placeholder_entries(entries, g);
        assert(ph[w] == (t, ScanResultView::placeholder(true, rs)));
        assert(tr[ap.len() + w] == ph[w]);
        assert(tr[ap.len() + w].0 == t && tr[ap.len() + w].1.references.contains(src));
    }
}

} // verus!
