use crate::chars::{utf8_lossy, utf8_lossy_of};
use crate::endian::{read_u16, read_u32, u16_at, u32_at, Endian};
use crate::hashes::FNV1_BASE;
use crate::ids::{Generation, TagHash};
use crate::table::{
    count_at, read_count, read_rel_pointer, read_table_region, read_table_u32, rel_pointer_at,
    table_u32, DecodeConfig, DecodeError,
};
use vstd::prelude::*;

verus! {

/// Decoding configuration of a generation's text structures: the legacy
/// generation uses 32-bit big-endian fields, the current one 64-bit
/// little-endian fields.
pub open spec fn spec_text_config(gen: Generation) -> DecodeConfig {
    DecodeConfig { wide: gen == Generation::Current, endian: gen.spec_endian() }
}

/// Decoding configuration of a generation's text structures.
pub fn text_config(gen: Generation) -> (r: DecodeConfig)
    ensures
        r == spec_text_config(gen),
{
    match gen {
        Generation::Legacy => DecodeConfig { wide: false, endian: Endian::Big },
        Generation::Current => DecodeConfig { wide: true, endian: Endian::Little },
    }
}

/// Marker class that a string container tag declares: the value the scan
/// orchestrator looks up to find every container of a generation. The
/// earliest current-generation layout uses its own marker.
pub open spec fn spec_string_container_marker(gen: Generation, prebl: bool) -> u32 {
    if gen == Generation::Legacy {
        0x8080035au32
    } else if prebl {
        0x80809a88u32
    } else {
        0x808099efu32
    }
}

/// Marker class that a string container tag declares, per generation and
/// header layout.
pub fn string_container_marker(gen: Generation, prebl: bool) -> (r: u32)
    ensures
        r == spec_string_container_marker(gen, prebl),
{
    match gen {
        Generation::Legacy => 0x8080035a,
        Generation::Current => {
            if prebl {
                0x80809a88
            } else {
                0x808099ef
            }
        },
    }
}

/// Width in bytes of the cipher run that starts with byte `b`, by the
/// standard UTF-8 leading-byte prefix ranges.
pub open spec fn run_len(b: u8) -> int {
    if b <= 0xbf {
        1
    } else if b <= 0xdf {
        2
    } else if b <= 0xef {
        3
    } else {
        4
    }
}

/// The byte-substitution cipher over a whole buffer: walk the runs left to
/// right and add the shift, wrapping, to the last byte of each run. A final
/// run cut short by the end of the buffer is left unchanged. A shift of zero
/// changes nothing (see [`lemma_cipher_zero_passthrough`]).
pub open spec fn apply_cipher(data: Seq<u8>, cipher: u16) -> Seq<u8>
    decreases data.len(),
{
    if data.len() == 0 {
        data
    } else {
        let l = run_len(data[0]);
        if l <= data.len() {
            data.take(l).update(
                l - 1,
                vstd::wrapping::u8_specs::wrapping_add(data[l - 1], cipher as u8),
            ) + apply_cipher(data.skip(l), cipher)
        } else {
            data
        }
    }
}

/// A cipher shift of zero is a passthrough: no byte is changed.
pub proof fn lemma_cipher_zero_passthrough(data: Seq<u8>)
    ensures
        apply_cipher(data, 0) == data,
    decreases data.len(),
{
    if data.len() > 0 {
        let l = run_len(data[0]);
        if l <= data.len() {
            lemma_cipher_zero_passthrough(data.skip(l));
            assert(vstd::wrapping::u8_specs::wrapping_add(data[l - 1], 0u16 as u8) == data[l - 1]);
            assert(data.take(l).update(l - 1, data[l - 1]) =~= data.take(l));
            assert(data.take(l) + data.skip(l) =~= data);
        }
    }
}

/// Decodes one string part's raw bytes: applies the byte-substitution cipher
/// (a shift of zero changes nothing), then reads the result as UTF-8 with
/// loss-tolerant replacement of invalid sequences. With a shift of zero this
/// is a pure UTF-8 decode with no byte mutation: on input that is already
/// valid UTF-8 the result is exactly that input's decoding, and re-encoding
/// it yields the input bytes back.
pub fn decode_text(data: &[u8], cipher: u16) -> (r: String)
    ensures
        r@ == utf8_lossy_of(apply_cipher(data@, cipher)),
        cipher == 0 ==> r@ == utf8_lossy_of(data@),
        cipher == 0 && vstd::utf8::valid_utf8(data@) ==> r@ == vstd::utf8::decode_utf8(data@)
            && vstd::utf8::encode_utf8(r@) == data@,
{
    proof {
        if cipher == 0 {
            lemma_cipher_zero_passthrough(data@);
            if vstd::utf8::valid_utf8(data@) {
                vstd::utf8::decode_utf8_encode_utf8(data@);
            }
        }
    }
    if cipher == 0 {
        return utf8_lossy(data);
    }
    let n = data.len();
    let mut out: Vec<u8> = Vec::new();
    assert(data@.skip(0) =~= data@);
    assert(out@ + apply_cipher(data@.skip(0), cipher) =~= apply_cipher(data@, cipher));
    let mut off: usize = 0;
    while off < n
        invariant
            0 <= off <= n == data@.len(),
            apply_cipher(data@, cipher) == out@ + apply_cipher(data@.skip(off as int), cipher),
        decreases n - off,
    {
        let ghost suf = data@.skip(off as int);
        let ghost out0 = out@;
        let b = data[off];
        assert(b == suf[0]);
        let l: usize = if b <= 0xbf {
            1
        } else if b <= 0xdf {
            2
        } else if b <= 0xef {
            3
        } else {
            4
        };
        assert(l == run_len(b));
        if l <= n - off {
            let mut q: usize = 0;
            while q < l - 1
                invariant
                    0 <= q <= l - 1,
                    l <= n - off,
                    0 <= off,
                    n == data@.len(),
                    out@ == out0 + data@.subrange(off as int, off + q),
                decreases l - 1 - q,
            {
                out.push(data[off + q]);
                proof {
                    assert(data@.subrange(off as int, off + q + 1) =~= data@.subrange(
                        off as int,
                        off + q,
                    ).push(data@[off + q]));
                    assert(out@ =~= out0 + data@.subrange(off as int, off + q + 1));
                }
                q = q + 1;
            }
            out.push(data[off + l - 1].wrapping_add(cipher as u8));
            proof {
                let shifted = vstd::wrapping::u8_specs::wrapping_add(
                    data@[off + l - 1],
                    cipher as u8,
                );
                assert(suf.take(l as int).update(l - 1, shifted) =~= data@.subrange(
                    off as int,
                    off + l - 1,
                ).push(shifted));
                assert(out@ =~= out0 + suf.take(l as int).update(l - 1, shifted));
                assert(suf.skip(l as int) =~= data@.skip(off + l));
                assert(apply_cipher(suf, cipher) == suf.take(l as int).update(l - 1, shifted)
                    + apply_cipher(suf.skip(l as int), cipher));
                assert(out@ + apply_cipher(data@.skip(off + l), cipher) =~= out0 + apply_cipher(
                    suf,
                    cipher,
                ));
            }
            off = off + l;
        } else {
            proof {
                assert(apply_cipher(suf, cipher) == suf);
            }
            while off < n
                invariant
                    0 <= off <= n == data@.len(),
                    out0 + suf =~= out@ + data@.subrange(off as int, n as int),
                    suf == out@.skip(out0.len() as int) + data@.subrange(off as int, n as int),
                decreases n - off,
            {
                out.push(data[off]);
                proof {
                    assert(out@ =~= out@.take(out@.len() - 1).push(data@[off as int]));
                    assert(out0 + suf =~= out@ + data@.subrange(off + 1, n as int));
                    assert(suf =~= out@.skip(out0.len() as int) + data@.subrange(
                        off + 1,
                        n as int,
                    ));
                }
                off = off + 1;
            }
            proof {
                assert(data@.subrange(off as int, n as int) =~= Seq::<u8>::empty());
                assert(apply_cipher(data@.skip(off as int), cipher) == Seq::<u8>::empty());
                assert(out@ + apply_cipher(data@.skip(off as int), cipher) =~= out@);
                assert(out@ =~= out0 + suf);
            }
        }
    }
    proof {
        assert(data@.skip(n as int) =~= Seq::<u8>::empty());
        assert(apply_cipher(data@.skip(n as int), cipher) == Seq::<u8>::empty());
        assert(out@ + apply_cipher(data@.skip(n as int), cipher) =~= out@);
    }
    utf8_lossy(out.as_slice())
}

/// Decoded header of a string container tag: the tag's declared size, the
/// ordered string hashes, and the tag that holds the language data.
pub struct StringContainer {
    pub file_size: u64,
    pub string_hashes: Vec<u32>,
    pub language_english: TagHash,
}

/// The container header at the start of `data`: declared size, string
/// hashes, and the language tag's identifier, which sits right after the
/// hash table's offset field.
pub open spec fn container_at(data: Seq<u8>, gen: Generation) -> Option<(u64, Seq<u32>, u32)> {
    let cfg = spec_text_config(gen);
    let w = cfg.spec_width();
    if w <= data.len() {
        match table_u32(data, w, cfg) {
            Some((hashes, end)) => {
                if end + 4 <= data.len() {
                    Some((count_at(data, 0, cfg), hashes, u32_at(data, end, cfg.endian)))
                } else {
                    None
                }
            },
            None => None,
        }
    } else {
        None
    }
}

/// Parses a string container header: the declared file size, the counted
/// table of string hashes, and the language tag reference that follows it.
pub fn parse_string_container(data: &[u8], gen: Generation) -> (r: Result<
    StringContainer,
    DecodeError,
>)
    ensures
        match r {
            Ok(c) => container_at(data@, gen) matches Some(p) && p.0 == c.file_size && p.1
                == c.string_hashes@ && p.2 == c.language_english.0,
            Err(e) => e == DecodeError::MalformedBinary && container_at(data@, gen) is None,
        },
{
    let cfg = text_config(gen);
    let w = cfg.width();
    let n = data.len();
    if n < w {
        return Err(DecodeError::MalformedBinary);
    }
    let file_size = read_count(data, 0, cfg);
    let (string_hashes, end) = match read_table_u32(data, w, cfg) {
        Ok(p) => p,
        Err(e) => {
            return Err(e);
        },
    };
    if end > n - 4 || n < 4 {
        return Err(DecodeError::MalformedBinary);
    }
    let language_english = TagHash(read_u32(data, end, cfg.endian));
    Ok(StringContainer { file_size, string_hashes, language_english })
}

/// A validated counted-table region: the element count, the position of the
/// first element, and the stream position after the table's header fields.
#[derive(Copy, Clone, PartialEq, Eq, Structural, Debug)]
pub struct TableRegion {
    pub count: u64,
    pub start: usize,
    pub end: usize,
}

/// One combination record: the absolute position of its run of part records
/// and how many parts the run holds.
#[derive(Copy, Clone, PartialEq, Eq, Structural, Debug)]
pub struct StringCombination {
    pub data: usize,
    pub part_count: i64,
}

/// The combination record at `pos`: the absolute position its relative
/// pointer resolves to and the signed part count that follows the pointer.
pub open spec fn combination_at(data: Seq<u8>, pos: int, gen: Generation) -> Option<(int, int)> {
    let cfg = spec_text_config(gen);
    let w = cfg.spec_width();
    match rel_pointer_at(data, pos, cfg) {
        Some((target, end)) => {
            if end + w <= data.len() {
                Some((target, crate::table::offset_at(data, end, cfg)))
            } else {
                None
            }
        },
        None => None,
    }
}

/// Reads the combination record at `pos`.
pub fn read_combination(data: &[u8], pos: usize, gen: Generation) -> (r: Result<
    StringCombination,
    DecodeError,
>)
    ensures
        match r {
            Ok(c) => combination_at(data@, pos as int, gen) == Some(
                (c.data as int, c.part_count as int),
            ),
            Err(e) => e == DecodeError::MalformedBinary && combination_at(data@, pos as int, gen)
                is None,
        },
{
    let cfg = text_config(gen);
    let w = cfg.width();
    let n = data.len();
    let (target, end) = match read_rel_pointer(data, pos, cfg) {
        Ok(p) => p,
        Err(e) => {
            return Err(e);
        },
    };
    if n < w || end > n - w {
        return Err(DecodeError::MalformedBinary);
    }
    let part_count = crate::table::read_offset(data, end, cfg);
    Ok(StringCombination { data: target, part_count })
}

/// Decoded header of a language data tag: the declared size, the validated
/// regions of the part and raw-text tables, and the combination records.
pub struct StringData {
    pub file_size: u64,
    pub string_parts: TableRegion,
    pub string_data: TableRegion,
    pub string_combinations: Vec<StringCombination>,
}

/// Byte size of one part record.
pub open spec fn spec_part_size(gen: Generation) -> int {
    if gen == Generation::Legacy {
        20
    } else {
        32
    }
}

/// Byte size of one combination record.
pub open spec fn spec_combination_size(gen: Generation) -> int {
    2 * spec_text_config(gen).spec_width()
}

/// Position of the part table's count field.
pub open spec fn spec_parts_pos(gen: Generation) -> int {
    if gen == Generation::Legacy {
        4
    } else {
        8
    }
}

/// Bytes of header fields between the part table and the next table: the
/// legacy layout always carries one extra 8-byte field there, and the
/// earliest current-generation layout a 16-byte one.
pub open spec fn spec_gap_len(gen: Generation, prebl: bool) -> int {
    if gen == Generation::Legacy {
        8
    } else if prebl {
        16
    } else {
        0
    }
}

/// The language data tag's header at the start of `data`: the declared file
/// size, the part and raw-text table regions, and where the combination
/// table's elements lie. `None` when any header field or element region runs
/// past the end, or when a legacy header declares an implausibly large size.
pub open spec fn string_data_at(data: Seq<u8>, gen: Generation, prebl: bool) -> Option<
    (u64, (u64, int, int), (u64, int, int), (u64, int, int)),
> {
    let cfg = spec_text_config(gen);
    let w = cfg.spec_width();
    let ppos = spec_parts_pos(gen);
    let u2pos = ppos + 2 * w + spec_gap_len(gen, prebl);
    let sdpos = u2pos + 2 * w;
    let cpos = sdpos + 2 * w;
    if w <= data.len() && (gen == Generation::Current || count_at(data, 0, cfg) < 0xf00000) {
        let fs = count_at(data, 0, cfg);
        match crate::table::table_region_at(data, ppos, spec_part_size(gen), cfg) {
            Some(parts) => {
                match crate::table::table_region_at(data, u2pos, 0, cfg) {
                    Some(_) => {
                        match crate::table::table_region_at(data, sdpos, 1, cfg) {
                            Some(sdata) => {
                                match crate::table::table_region_at(
                                    data,
                                    cpos,
                                    spec_combination_size(gen),
                                    cfg,
                                ) {
                                    Some(combos) => {
                                        if forall|i: int|
                                            0 <= i < combos.0 ==> (#[trigger] combination_at(
                                                data,
                                                combos.1 + spec_combination_size(gen) * i,
                                                gen,
                                            )) is Some {
                                            Some((fs, parts, sdata, combos))
                                        } else {
                                            None
                                        }
                                    },
                                    None => None,
                                }
                            },
                            None => None,
                        }
                    },
                    None => None,
                }
            },
            None => None,
        }
    } else {
        None
    }
}

/// Parses a language data tag's header: the declared size, the validated
/// part and raw-text table regions, and the decoded combination records.
/// Every combination's relative pointer must resolve inside the data.
pub fn parse_string_data(data: &[u8], gen: Generation, prebl: bool) -> (r: Result<
    StringData,
    DecodeError,
>)
    ensures
        match r {
            Ok(sd) => {
                &&& string_data_at(data@, gen, prebl) matches Some(p) && p.0 == sd.file_size && p.1
                    == (sd.string_parts.count, sd.string_parts.start as int, sd.string_parts.end as int)
                    && p.2 == (sd.string_data.count, sd.string_data.start as int, sd.string_data.end as int)
                    && p.3.0 == sd.string_combinations@.len()
                &&& string_data_at(data@, gen, prebl) matches Some(p) ==> forall|i: int|
                    0 <= i < p.3.0 ==> combination_at(
                        data@,
                        p.3.1 + spec_combination_size(gen) * i,
                        gen,
                    ) == Some(
                        (
                            #[trigger] sd.string_combinations@[i].data as int,
                            sd.string_combinations@[i].part_count as int,
                        ),
                    )
            },
            Err(e) => e == DecodeError::MalformedBinary && string_data_at(data@, gen, prebl)
                is None,
        },
{
    let cfg = text_config(gen);
    let w = cfg.width();
    let n = data.len();
    if n < w {
        return Err(DecodeError::MalformedBinary);
    }
    let file_size = read_count(data, 0, cfg);
    if gen == Generation::Legacy && file_size >= 0xf00000 {
        return Err(DecodeError::MalformedBinary);
    }
    let ppos = if gen == Generation::Legacy {
        4
    } else {
        8
    };
    let gap = if gen == Generation::Legacy {
        8
    } else if prebl {
        16
    } else {
        0
    };
    let psize = if gen == Generation::Legacy {
        20
    } else {
        32
    };
    let csize = 2 * w;
    let (pcount, pstart, pend) = match read_table_region(data, ppos, psize, cfg) {
        Ok(h) => h,
        Err(e) => {
            return Err(e);
        },
    };
    let u2pos = ppos + 2 * w + gap;
    match read_table_region(data, u2pos, 0, cfg) {
        Ok(_) => {},
        Err(e) => {
            return Err(e);
        },
    };
    let sdpos = u2pos + 2 * w;
    let (sdcount, sdstart, sdend) = match read_table_region(data, sdpos, 1, cfg) {
        Ok(h) => h,
        Err(e) => {
            return Err(e);
        },
    };
    let cpos = sdpos + 2 * w;
    let (ccount, cstart, _cend) = match read_table_region(data, cpos, csize, cfg) {
        Ok(h) => h,
        Err(e) => {
            return Err(e);
        },
    };
    let mut combos: Vec<StringCombination> = Vec::new();
    let ccount_us = ccount as usize;
    assert(ccount <= usize::MAX as u64) by {
        assert(cstart + (csize as int) * (ccount as int) <= data@.len());
        assert((csize as int) * (ccount as int) >= 8 * (ccount as int)) by (nonlinear_arith)
            requires
                ccount >= 0,
                csize as int >= 8,
        ;
    }
    let mut i: usize = 0;
    while i < ccount_us
        invariant
            0 <= i <= ccount_us,
            ccount_us == ccount,
            n == data@.len(),
            cfg == spec_text_config(gen),
            w == cfg.spec_width(),
            n >= w,
            ppos == spec_parts_pos(gen),
            gap == spec_gap_len(gen, prebl),
            u2pos == ppos + 2 * w + gap,
            sdpos == u2pos + 2 * w,
            cpos == sdpos + 2 * w,
            gen == Generation::Current || count_at(data@, 0, cfg) < 0xf00000,
            crate::table::table_region_at(data@, ppos as int, spec_part_size(gen), cfg) is Some,
            crate::table::table_region_at(data@, u2pos as int, 0, cfg) is Some,
            crate::table::table_region_at(data@, sdpos as int, 1, cfg) is Some,
            crate::table::table_region_at(data@, cpos as int, spec_combination_size(gen), cfg)
                == Some((ccount, cstart as int, cpos + 2 * w)),
            csize == spec_combination_size(gen),
            csize >= 8,
            cstart + csize * ccount <= n,
            combos@.len() == i,
            forall|q: int|
                0 <= q < i ==> combination_at(data@, cstart + spec_combination_size(gen) * q, gen)
                    == Some(
                    (#[trigger] combos@[q].data as int, combos@[q].part_count as int),
                ),
        decreases ccount_us - i,
    {
        proof {
            assert((csize as int) * (i as int) + csize <= (csize as int) * (ccount as int))
                by (nonlinear_arith)
                requires
                    0 <= i < ccount,
                    csize >= 1,
            ;
        }
        let cb = match read_combination(data, cstart + csize * i, gen) {
            Ok(c) => c,
            Err(e) => {
                proof {
                    assert(combination_at(
                        data@,
                        cstart + spec_combination_size(gen) * (i as int),
                        gen,
                    ) is None);
                }
                return Err(e);
            },
        };
        combos.push(cb);
        i = i + 1;
    }
    proof {
        assert forall|q: int|
            0 <= q < ccount implies (#[trigger] combination_at(
            data@,
            cstart + spec_combination_size(gen) * q,
            gen,
        )) is Some by {
            assert(combination_at(data@, cstart + spec_combination_size(gen) * q, gen) == Some(
                (combos@[q].data as int, combos@[q].part_count as int),
            ));
        }
    }
    Ok(
        StringData {
            file_size,
            string_parts: TableRegion { count: pcount, start: pstart, end: pend },
            string_data: TableRegion { count: sdcount, start: sdstart, end: sdend },
            string_combinations: combos,
        },
    )
}

/// The part record at `pos`: the absolute position of its encoded bytes, the
/// byte length, the declared character length, and the cipher shift.
pub open spec fn part_at(data: Seq<u8>, pos: int, gen: Generation) -> Option<(int, u16, u16, u16)> {
    let cfg = spec_text_config(gen);
    let relpos = if gen == Generation::Legacy {
        pos + 4
    } else {
        pos + 8
    };
    let fieldpos = if gen == Generation::Legacy {
        pos + 12
    } else {
        pos + 20
    };
    if 0 <= pos && pos + spec_part_size(gen) <= data.len() {
        match rel_pointer_at(data, relpos, cfg) {
            Some((target, _)) => Some(
                (
                    target,
                    u16_at(data, fieldpos, cfg.endian),
                    u16_at(data, fieldpos + 2, cfg.endian),
                    u16_at(data, fieldpos + 4, cfg.endian),
                ),
            ),
            None => None,
        }
    } else {
        None
    }
}

/// One part record: the absolute position of its encoded bytes, their
/// length, the declared decoded length, and the cipher shift to undo.
#[derive(Copy, Clone, PartialEq, Eq, Structural, Debug)]
pub struct StringPart {
    pub data: usize,
    pub byte_length: u16,
    pub string_length: u16,
    pub cipher_shift: u16,
}

/// Reads the part record at `pos`.
pub fn read_string_part(data: &[u8], pos: usize, gen: Generation) -> (r: Result<
    StringPart,
    DecodeError,
>)
    ensures
        match r {
            Ok(p) => part_at(data@, pos as int, gen) == Some(
                (p.data as int, p.byte_length, p.string_length, p.cipher_shift),
            ),
            Err(e) => e == DecodeError::MalformedBinary && part_at(data@, pos as int, gen)
                is None,
        },
{
    let cfg = text_config(gen);
    let n = data.len();
    let psize: usize = if gen == Generation::Legacy {
        20
    } else {
        32
    };
    if n < psize || pos > n - psize {
        return Err(DecodeError::MalformedBinary);
    }
    let relpos = if gen == Generation::Legacy {
        pos + 4
    } else {
        pos + 8
    };
    let fieldpos = if gen == Generation::Legacy {
        pos + 12
    } else {
        pos + 20
    };
    let (target, _end) = match read_rel_pointer(data, relpos, cfg) {
        Ok(p) => p,
        Err(e) => {
            return Err(e);
        },
    };
    let blen = read_u16(data, fieldpos, cfg.endian);
    let slen = read_u16(data, fieldpos + 2, cfg.endian);
    let shift = read_u16(data, fieldpos + 4, cfg.endian);
    Ok(StringPart { data: target, byte_length: blen, string_length: slen, cipher_shift: shift })
}

/// The decoded text of one part: its bytes run through the cipher and read
/// as UTF-8 with replacement. `None` when the bytes run past the end.
pub open spec fn part_text(data: Seq<u8>, part: (int, u16, u16, u16)) -> Option<Seq<char>> {
    if part.0 + part.1 <= data.len() {
        Some(utf8_lossy_of(apply_cipher(data.subrange(part.0, part.0 + part.1), part.3)))
    } else {
        None
    }
}

/// The decoded text of a combination's first `m` parts, concatenated in
/// order; the run of part records starts at `base`.
pub open spec fn combo_text(data: Seq<u8>, base: int, gen: Generation, m: int) -> Option<Seq<char>>
    decreases m,
{
    if m <= 0 {
        Some(Seq::<char>::empty())
    } else {
        match combo_text(data, base, gen, m - 1) {
            Some(prefix) => {
                match part_at(data, base + spec_part_size(gen) * (m - 1), gen) {
                    Some(part) => {
                        match part_text(data, part) {
                            Some(t) => Some(prefix + t),
                            None => None,
                        }
                    },
                    None => None,
                }
            },
            None => None,
        }
    }
}

/// The (hash, text) pairs of the first `m` combinations, paired with the
/// string hashes by position; the reserved hash of the empty byte sequence
/// is excluded from the results.
pub open spec fn extract_pairs(
    data: Seq<u8>,
    hashes: Seq<u32>,
    combos: Seq<(int, int)>,
    gen: Generation,
    m: int,
) -> Option<Seq<(u32, Seq<char>)>>
    decreases m,
{
    if m <= 0 {
        Some(Seq::<(u32, Seq<char>)>::empty())
    } else {
        match extract_pairs(data, hashes, combos, gen, m - 1) {
            Some(prefix) => {
                if hashes[m - 1] == FNV1_BASE {
                    Some(prefix)
                } else {
                    match combo_text(data, combos[m - 1].0, gen, combos[m - 1].1) {
                        Some(t) => Some(prefix.push((hashes[m - 1], t))),
                        None => None,
                    }
                }
            },
            None => None,
        }
    }
}

/// The decoded combination records of a language data tag whose header
/// parses; position `i` holds the `i`-th record's part-run position and
/// part count.
pub open spec fn spec_combos(data: Seq<u8>, gen: Generation, prebl: bool) -> Seq<(int, int)> {
    let sd = string_data_at(data, gen, prebl)->Some_0;
    Seq::new(
        sd.3.0 as nat,
        |i: int|
            combination_at(data, sd.3.1 + spec_combination_size(gen) * i, gen)->Some_0,
    )
}

/// All (hash, text) pairs that one string container's language data yields:
/// combinations paired with the container's hashes by position, the reserved
/// hash of the empty byte sequence excluded. `None` when the header, a
/// combination, or any part of a paired combination cannot be decoded.
pub open spec fn extracted(data: Seq<u8>, hashes: Seq<u32>, gen: Generation, prebl: bool) -> Option<
    Seq<(u32, Seq<char>)>,
> {
    match string_data_at(data, gen, prebl) {
        Some(sd) => {
            let m = if sd.3.0 as int <= hashes.len() {
                sd.3.0 as int
            } else {
                hashes.len() as int
            };
            extract_pairs(data, hashes, spec_combos(data, gen, prebl), gen, m)
        },
        None => None,
    }
}

/// Once one prefix of the pair walk fails, every longer walk fails.
proof fn lemma_extract_pairs_fails(
    data: Seq<u8>,
    hashes: Seq<u32>,
    combos: Seq<(int, int)>,
    gen: Generation,
    k: int,
    m: int,
)
    requires
        extract_pairs(data, hashes, combos, gen, k) is None,
        k <= m,
    ensures
        extract_pairs(data, hashes, combos, gen, m) is None,
    decreases m,
{
    if k < m {
        lemma_extract_pairs_fails(data, hashes, combos, gen, k, m - 1);
    }
}

/// Once one prefix of a combination's part walk fails, every longer walk
/// fails.
proof fn lemma_combo_text_fails(data: Seq<u8>, base: int, gen: Generation, k: int, m: int)
    requires
        combo_text(data, base, gen, k) is None,
        k <= m,
    ensures
        combo_text(data, base, gen, m) is None,
    decreases m,
{
    if k < m {
        lemma_combo_text_fails(data, base, gen, k, m - 1);
    }
}

/// Extracts every (hash, decoded text) pair of one string container: the
/// ordered hashes come from the container header, the text from the language
/// data tag, whose combination records pair with the hashes by position. The
/// decoded text of a combination concatenates its parts' decoded text in
/// order. The reserved hash of the empty byte sequence is excluded. Any
/// structure or part that cannot be decoded fails the whole tag, which
/// callers skip without aborting their run.
pub fn extract_language_strings(hashes: &Vec<u32>, data: &[u8], gen: Generation, prebl: bool) -> (r:
    Result<Vec<(u32, String)>, DecodeError>)
    ensures
        match r {
            Ok(pairs) => extracted(data@, hashes@, gen, prebl) matches Some(es) && pairs@.len()
                == es.len() && forall|i: int|
                0 <= i < es.len() ==> (#[trigger] pairs@[i]).0 == es[i].0 && pairs@[i].1@
                    == es[i].1,
            Err(e) => e == DecodeError::MalformedBinary && extracted(data@, hashes@, gen, prebl)
                is None,
        },
{
    let sd = match parse_string_data(data, gen, prebl) {
        Ok(sd) => sd,
        Err(e) => {
            return Err(e);
        },
    };
    let ghost combos = spec_combos(data@, gen, prebl);
    let n = data.len();
    proof {
        assert forall|q: int| 0 <= q < combos.len() implies #[trigger] combos[q] == (
            sd.string_combinations@[q].data as int,
            sd.string_combinations@[q].part_count as int,
        ) && 0 <= combos[q].0 <= n by {
            let p = string_data_at(data@, gen, prebl)->Some_0;
            assert(combination_at(data@, p.3.1 + spec_combination_size(gen) * q, gen) == Some(
                (
                    sd.string_combinations@[q].data as int,
                    sd.string_combinations@[q].part_count as int,
                ),
            ));
        }
    }
    let psize: usize = if gen == Generation::Legacy {
        20
    } else {
        32
    };
    let m: usize = if sd.string_combinations.len() <= hashes.len() {
        sd.string_combinations.len()
    } else {
        hashes.len()
    };
    proof {
        assert(extracted(data@, hashes@, gen, prebl) == extract_pairs(
            data@,
            hashes@,
            combos,
            gen,
            m as int,
        ));
    }
    let mut pairs: Vec<(u32, String)> = Vec::new();
    let ghost pview = |p: (u32, String)| (p.0, p.1@);
    assert(pairs@.map_values(pview) =~= Seq::<(u32, Seq<char>)>::empty());
    let mut i: usize = 0;
    while i < m
        invariant
            0 <= i <= m,
            n == data@.len(),
            psize == spec_part_size(gen),
            m <= hashes@.len(),
            m <= sd.string_combinations@.len(),
            combos.len() == sd.string_combinations@.len(),
            forall|q: int|
                0 <= q < combos.len() ==> #[trigger] combos[q] == (
                    sd.string_combinations@[q].data as int,
                    sd.string_combinations@[q].part_count as int,
                ) && 0 <= combos[q].0 <= n,
            extracted(data@, hashes@, gen, prebl) == extract_pairs(
                data@,
                hashes@,
                combos,
                gen,
                m as int,
            ),
            pview == (|p: (u32, String)| (p.0, p.1@)),
            extract_pairs(data@, hashes@, combos, gen, i as int) == Some(
                pairs@.map_values(pview),
            ),
        decreases m - i,
    {
        let h = hashes[i];
        let ghost pairs0 = pairs@.map_values(pview);
        if h != FNV1_BASE {
            let comb = sd.string_combinations[i];
            let ghost base = comb.data as int;
            let pc = comb.part_count;
            proof {
                assert(combos[i as int] == (base, pc as int));
            }
            let mut text = String::new();
            assert(combo_text(data@, base, gen, 0) == Some(text@));
            let mut ip: i64 = 0;
            while ip < pc
                invariant
                    0 <= ip,
                    ip <= pc || (ip == 0 && pc < 0),
                    n == data@.len(),
                    psize == spec_part_size(gen),
                    base == comb.data as int,
                    comb.data <= n,
                    pc == comb.part_count,
                    combo_text(data@, base, gen, ip as int) == Some(text@),
                    0 <= i < m,
                    m <= hashes@.len(),
                    hashes@[i as int] == h,
                    h != FNV1_BASE,
                    combos[i as int] == (base, pc as int),
                    extract_pairs(data@, hashes@, combos, gen, i as int) is Some,
                    extracted(data@, hashes@, gen, prebl) == extract_pairs(
                        data@,
                        hashes@,
                        combos,
                        gen,
                        m as int,
                    ),
                decreases pc - ip,
            {
                let pos128: i128 = comb.data as i128 + psize as i128 * ip as i128;
                proof {
                    assert((psize as i128) * (ip as i128) == (psize as int) * (ip as int))
                        by (nonlinear_arith)
                        requires
                            0 < psize <= 32,
                            0 <= ip,
                    ;
                    assert((psize as int) * (ip as int) >= 0) by (nonlinear_arith)
                        requires
                            psize >= 0,
                            ip >= 0,
                    ;
                }
                if n < psize || pos128 > (n - psize) as i128 {
                    proof {
                        assert(part_at(data@, base + spec_part_size(gen) * (ip as int), gen)
                            is None);
                        assert(combo_text(data@, base, gen, ip + 1) is None);
                        lemma_combo_text_fails(data@, base, gen, ip + 1, pc as int);
                        assert(extract_pairs(data@, hashes@, combos, gen, i + 1) is None);
                        lemma_extract_pairs_fails(data@, hashes@, combos, gen, i + 1, m as int);
                    }
                    return Err(DecodeError::MalformedBinary);
                }
                let pos = pos128 as usize;
                let part = match read_string_part(data, pos, gen) {
                    Ok(p) => p,
                    Err(e) => {
                        proof {
                            assert(combo_text(data@, base, gen, ip + 1) is None);
                            lemma_combo_text_fails(data@, base, gen, ip + 1, pc as int);
                            assert(extract_pairs(data@, hashes@, combos, gen, i + 1) is None);
                            lemma_extract_pairs_fails(data@, hashes@, combos, gen, i + 1, m as int);
                        }
                        return Err(e);
                    },
                };
                let addr = part.data;
                let blen = part.byte_length;
                let shift = part.cipher_shift;
                let ghost pt = part_at(data@, base + spec_part_size(gen) * (ip as int), gen)->Some_0;
                proof {
                    assert(pt == (addr as int, blen, part.string_length, shift));
                }
                if blen as usize > n - addr {
                    proof {
                        assert(part_text(data@, pt) is None);
                        assert(combo_text(data@, base, gen, ip + 1) is None);
                        lemma_combo_text_fails(data@, base, gen, ip + 1, pc as int);
                        assert(extract_pairs(data@, hashes@, combos, gen, i + 1) is None);
                        lemma_extract_pairs_fails(data@, hashes@, combos, gen, i + 1, m as int);
                    }
                    return Err(DecodeError::MalformedBinary);
                }
                let piece = decode_text(&data[addr..addr + blen as usize], shift);
                text.append(piece.as_str());
                proof {
                    assert(piece@ == utf8_lossy_of(
                        apply_cipher(data@.subrange(addr as int, addr + blen), shift),
                    ));
                    assert(part_text(data@, pt) == Some(piece@));
                    assert(combo_text(data@, base, gen, ip + 1) == Some(text@));
                }
                ip = ip + 1;
            }
            proof {
                if pc < 0 {
                    assert(combo_text(data@, base, gen, 0) == Some(text@));
                    assert(text@ =~= Seq::<char>::empty());
                    assert(combo_text(data@, base, gen, pc as int) == Some(text@));
                }
            }
            pairs.push((h, text));
            proof {
                assert(combo_text(data@, base, gen, combos[i as int].1) == Some(text@));
                assert(pairs@.map_values(pview) =~= pairs0.push((h, text@)));
                assert(extract_pairs(data@, hashes@, combos, gen, i + 1) == Some(
                    pairs0.push((h, text@)),
                ));
            }
        } else {
            proof {
                assert(extract_pairs(data@, hashes@, combos, gen, i + 1) == Some(pairs0));
            }
        }
        i = i + 1;
    }
    proof {
        let es = extracted(data@, hashes@, gen, prebl)->Some_0;
        assert(extracted(data@, hashes@, gen, prebl) == extract_pairs(
            data@,
            hashes@,
            combos,
            gen,
            m as int,
        ));
        assert forall|q: int| 0 <= q < es.len() implies (#[trigger] pairs@[q]).0 == es[q].0
            && pairs@[q].1@ == es[q].1 by {
            assert(pairs@.map_values(pview)[q] == pview(pairs@[q]));
        }
    }
    Ok(pairs)
}

/// Mathematical content of the hash-to-strings table.
pub open spec fn stringmap_view(m: Seq<(u32, Vec<String>)>) -> Seq<(u32, Seq<Seq<char>>)> {
    m.map_values(|p: (u32, Vec<String>)| (p.0, p.1@.map_values(|st: String| st@)))
}

/// The table with `s` recorded under `h`: nothing changes when `h` already
/// maps to a run holding `s`; otherwise `s` joins the end of `h`'s run, a
/// fresh one-element run if `h` had none.
pub open spec fn add_string(m: Seq<(u32, Seq<Seq<char>>)>, h: u32, s: Seq<char>) -> Seq<
    (u32, Seq<Seq<char>>),
>
    decreases m.len(),
{
    if m.len() == 0 {
        seq![(h, seq![s])]
    } else if m[0].0 == h {
        if m[0].1.contains(s) {
            m
        } else {
            seq![(m[0].0, m[0].1.push(s))] + m.drop_first()
        }
    } else {
        seq![m[0]] + add_string(m.drop_first(), h, s)
    }
}

/// The table after recording the first `n` pairs in order.
pub open spec fn add_strings(
    m: Seq<(u32, Seq<Seq<char>>)>,
    pairs: Seq<(u32, Seq<char>)>,
    n: int,
) -> Seq<(u32, Seq<Seq<char>>)>
    decreases n,
{
    if n <= 0 {
        m
    } else {
        add_string(add_strings(m, pairs, n - 1), pairs[n - 1].0, pairs[n - 1].1)
    }
}

/// When `h` sits at index `idx` (and nowhere earlier), `add_string` either
/// leaves the table unchanged (string already present) or appends to that
/// pair's run.
proof fn lemma_add_string_found(
    m: Seq<(u32, Seq<Seq<char>>)>,
    h: u32,
    s: Seq<char>,
    idx: int,
)
    requires
        0 <= idx < m.len(),
        m[idx].0 == h,
        forall|j: int| 0 <= j < idx ==> (#[trigger] m[j]).0 != h,
    ensures
        add_string(m, h, s) == if m[idx].1.contains(s) {
            m
        } else {
            m.update(idx, (h, m[idx].1.push(s)))
        },
    decreases idx,
{
    if idx == 0 {
        if !m[0].1.contains(s) {
            assert(seq![(m[0].0, m[0].1.push(s))] + m.drop_first() =~= m.update(
                0,
                (h, m[0].1.push(s)),
            ));
        }
    } else {
        let md = m.drop_first();
        assert(forall|j: int| 0 <= j < idx - 1 ==> (#[trigger] md[j]).0 != h);
        lemma_add_string_found(md, h, s, idx - 1);
        if md[idx - 1].1.contains(s) {
            assert(seq![m[0]] + md =~= m);
        } else {
            assert(seq![m[0]] + md.update(idx - 1, (h, md[idx - 1].1.push(s))) =~= m.update(
                idx,
                (h, m[idx].1.push(s)),
            ));
        }
    }
}

/// When `h` has no pair yet, `add_string` appends a fresh one at the end.
proof fn lemma_add_string_absent(m: Seq<(u32, Seq<Seq<char>>)>, h: u32, s: Seq<char>)
    requires
        forall|j: int| 0 <= j < m.len() ==> (#[trigger] m[j]).0 != h,
    ensures
        add_string(m, h, s) == m.push((h, seq![s])),
    decreases m.len(),
{
    if m.len() == 0 {
        assert(add_string(m, h, s) =~= m.push((h, seq![s])));
    } else {
        let md = m.drop_first();
        lemma_add_string_absent(md, h, s);
        assert(seq![m[0]] + md.push((h, seq![s])) =~= m.push((h, seq![s])));
    }
}

/// Records one decoded string under its hash, as [`add_string`] describes.
fn add_string_entry(map: &mut Vec<(u32, Vec<String>)>, h: u32, s: &String)
    ensures
        stringmap_view(final(map)@) == add_string(stringmap_view(old(map)@), h, s@),
{
    let ghost m0 = stringmap_view(map@);
    let mut idx: usize = 0;
    while idx < map.len()
        invariant
            0 <= idx <= map@.len(),
            map@ == old(map)@,
            m0 == stringmap_view(map@),
            forall|j: int| 0 <= j < idx ==> (#[trigger] map@[j]).0 != h,
        decreases map@.len() - idx,
    {
        if map[idx].0 == h {
            proof {
                assert(forall|j: int| 0 <= j < idx ==> (#[trigger] m0[j]).0 != h);
                assert(m0[idx as int].0 == h);
                assert(m0[idx as int].1 == map@[idx as int].1@.map_values(|st: String| st@));
            }
            let run_len = map[idx].1.len();
            let mut k: usize = 0;
            let mut present = false;
            while k < run_len
                invariant
                    0 <= k <= run_len,
                    map@ == old(map)@,
                    m0 == stringmap_view(map@),
                    idx < map@.len(),
                    map@[idx as int].0 == h,
                    run_len == map@[idx as int].1@.len(),
                    forall|j: int| 0 <= j < idx ==> (#[trigger] map@[j]).0 != h,
                    present <==> exists|j: int|
                        0 <= j < k && (#[trigger] map@[idx as int].1@[j])@ == s@,
                decreases run_len - k,
            {
                if map[idx].1[k].eq(s) {
                    present = true;
                    proof {
                        assert(map@[idx as int].1@[k as int]@ == s@);
                    }
                }
                k = k + 1;
            }
            proof {
                assert(m0[idx as int].1.contains(s@) <==> present) by {
                    if present {
                        let j = choose|j: int|
                            0 <= j < run_len && (#[trigger] map@[idx as int].1@[j])@ == s@;
                        assert(m0[idx as int].1[j] == s@);
                    }
                    if m0[idx as int].1.contains(s@) {
                        let j = choose|j: int|
                            0 <= j < m0[idx as int].1.len() && m0[idx as int].1[j] == s@;
                        assert(map@[idx as int].1@[j]@ == s@);
                    }
                }
                lemma_add_string_found(m0, h, s@, idx as int);
            }
            if !present {
                map[idx].1.push(s.clone());
                proof {
                    assert(stringmap_view(map@) =~~= m0.update(
                        idx as int,
                        (h, m0[idx as int].1.push(s@)),
                    ));
                }
            }
            return ;
        }
        idx = idx + 1;
    }
    let mut fresh: Vec<String> = Vec::new();
    fresh.push(s.clone());
    map.push((h, fresh));
    proof {
        assert(forall|j: int| 0 <= j < m0.len() ==> (#[trigger] m0[j]).0 != h);
        lemma_add_string_absent(m0, h, s@);
        assert(fresh@.map_values(|st: String| st@) =~= seq![s@]);
        assert(stringmap_view(map@) =~~= m0.push((h, seq![s@])));
    }
}

/// Merges one container's extracted pairs into the hash-to-strings table,
/// deduplicating each hash's strings and keeping first-appearance order.
pub fn merge_string_entries(map: &mut Vec<(u32, Vec<String>)>, pairs: &Vec<(u32, String)>)
    ensures
        stringmap_view(final(map)@) == add_strings(
            stringmap_view(old(map)@),
            pairs@.map_values(|p: (u32, String)| (p.0, p.1@)),
            pairs@.len() as int,
        ),
{
    let ghost m0 = stringmap_view(map@);
    let ghost pv = pairs@.map_values(|p: (u32, String)| (p.0, p.1@));
    let mut i: usize = 0;
    while i < pairs.len()
        invariant
            0 <= i <= pairs@.len(),
            pv == pairs@.map_values(|p: (u32, String)| (p.0, p.1@)),
            stringmap_view(map@) == add_strings(m0, pv, i as int),
        decreases pairs@.len() - i,
    {
        let p = &pairs[i];
        add_string_entry(map, p.0, &p.1);
        proof {
            assert(pv[i as int] == (pairs@[i as int].0, pairs@[i as int].1@));
        }
        i = i + 1;
    }
}

} // verus!
