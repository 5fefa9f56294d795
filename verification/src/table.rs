use crate::endian::{read_u32, read_u64, u32_at, u64_at, Endian};
use vstd::prelude::*;

verus! {

/// Field width and byte order of one archive generation's binary layouts:
/// the legacy generation uses 32-bit big-endian count and offset fields, the
/// current one 64-bit little-endian fields.
#[derive(Copy, Clone, PartialEq, Eq, Structural, Debug)]
pub struct DecodeConfig {
    /// Count and offset fields are 64 bits wide (else 32).
    pub wide: bool,
    pub endian: Endian,
}

/// A structure could not be decoded: a count, offset or buffer ran past the
/// end of the data. Localized to the one tag or part being decoded, never
/// fatal to a whole run.
#[derive(Copy, Clone, PartialEq, Eq, Structural, Debug)]
pub enum DecodeError {
    MalformedBinary,
}

impl DecodeConfig {
    /// Width in bytes of a count or offset field.
    pub open spec fn spec_width(self) -> int {
        if self.wide {
            8
        } else {
            4
        }
    }

    /// Width in bytes of a count or offset field.
    pub fn width(&self) -> (r: usize)
        ensures
            r == self.spec_width(),
    {
        if self.wide {
            8
        } else {
            4
        }
    }
}

/// The unsigned count field at `pos`.
pub open spec fn count_at(data: Seq<u8>, pos: int, cfg: DecodeConfig) -> u64 {
    if cfg.wide {
        u64_at(data, pos, cfg.endian)
    } else {
        u32_at(data, pos, cfg.endian) as u64
    }
}

/// The signed offset field at `pos`, as a mathematical integer.
pub open spec fn offset_at(data: Seq<u8>, pos: int, cfg: DecodeConfig) -> int {
    if cfg.wide {
        u64_at(data, pos, cfg.endian) as i64 as int
    } else {
        u32_at(data, pos, cfg.endian) as i32 as int
    }
}

/// Header of a counted table whose count field starts at `pos`: the element
/// count, the position of the first element, and the stream position after
/// the offset field (where a sibling field continues). The offset is relative
/// to the position right after the count field, with the format's fixed +16
/// byte adjustment. `None` when the two header fields run past the end.
pub open spec fn table_header(data: Seq<u8>, pos: int, cfg: DecodeConfig) -> Option<
    (u64, int, int),
> {
    let w = cfg.spec_width();
    if 0 <= pos && pos + 2 * w <= data.len() {
        let count = count_at(data, pos, cfg);
        let p1 = pos + w;
        Some((count, p1 + offset_at(data, p1, cfg) + 16, p1 + w))
    } else {
        None
    }
}

/// A counted table of 32-bit records at `pos`: the decoded records and the
/// restored stream position. `None` when the header or the element region
/// runs past the end of the data.
pub open spec fn table_u32(data: Seq<u8>, pos: int, cfg: DecodeConfig) -> Option<(Seq<u32>, int)> {
    match table_header(data, pos, cfg) {
        Some((count, elem_start, end)) => {
            if 0 <= elem_start && elem_start + 4 * count <= data.len() {
                Some(
                    (
                        Seq::new(count as nat, |i: int| u32_at(data, elem_start + 4 * i, cfg.endian)),
                        end,
                    ),
                )
            } else {
                None
            }
        },
        None => None,
    }
}

/// Reads the count field at `pos`.
pub fn read_count(data: &[u8], pos: usize, cfg: DecodeConfig) -> (r: u64)
    requires
        pos + cfg.spec_width() <= data.len(),
    ensures
        r == count_at(data@, pos as int, cfg),
{
    if cfg.wide {
        read_u64(data, pos, cfg.endian)
    } else {
        read_u32(data, pos, cfg.endian) as u64
    }
}

/// Reads the signed offset field at `pos`.
pub fn read_offset(data: &[u8], pos: usize, cfg: DecodeConfig) -> (r: i64)
    requires
        pos + cfg.spec_width() <= data.len(),
    ensures
        r as int == offset_at(data@, pos as int, cfg),
{
    if cfg.wide {
        read_u64(data, pos, cfg.endian) as i64
    } else {
        read_u32(data, pos, cfg.endian) as i32 as i64
    }
}

/// A counted table header at `pos` whose element region of `count` elements
/// of `elem_size` bytes lies inside the data: the count, the position of the
/// first element, and the restored position after the offset field.
pub open spec fn table_region_at(data: Seq<u8>, pos: int, elem_size: int, cfg: DecodeConfig) -> Option<(u64, int, int)> {
    match table_header(data, pos, cfg) {
        Some((count, elem_start, end)) => {
            if 0 <= elem_start && elem_start + elem_size * count <= data.len() {
                Some((count, elem_start, end))
            } else {
                None
            }
        },
        None => None,
    }
}

/// Reads a counted table header: the element count, the position of the
/// first element, and the restored position after the offset field. Fails
/// when the header fields or the element region of `count` elements of
/// `elem_size` bytes run past the end of the data.
pub fn read_table_region(data: &[u8], pos: usize, elem_size: usize, cfg: DecodeConfig) -> (r:
    Result<(u64, usize, usize), DecodeError>)
    ensures
        match r {
            Ok((count, elem_start, end)) => table_region_at(
                data@,
                pos as int,
                elem_size as int,
                cfg,
            ) == Some((count, elem_start as int, end as int)),
            Err(e) => e == DecodeError::MalformedBinary && table_region_at(
                data@,
                pos as int,
                elem_size as int,
                cfg,
            ) is None,
        },
{
    let n = data.len();
    let w = cfg.width();
    if n < 2 * w || pos > n - 2 * w {
        return Err(DecodeError::MalformedBinary);
    }
    let count = read_count(data, pos, cfg);
    let off = read_offset(data, pos + w, cfg);
    let end = pos + 2 * w;
    let target: i128 = (pos + w) as i128 + off as i128 + 16;
    if target < 0 || target > n as i128 {
        return Err(DecodeError::MalformedBinary);
    }
    let elem_start = target as usize;
    assert((count as u128) * (elem_size as u128) <= 0xffffffffffffffffffffffffffffffffu128)
        by (nonlinear_arith)
        requires
            count as u128 <= 0xffffffffffffffffu128,
            elem_size as u128 <= 0xffffffffffffffffu128,
    ;
    let product: u128 = count as u128 * elem_size as u128;
    assert(product == (elem_size as int) * (count as int)) by (nonlinear_arith)
        requires
            product == (count as int) * (elem_size as int),
    ;
    if product > (n - elem_start) as u128 {
        assert(elem_start + elem_size * count > data@.len());
        return Err(DecodeError::MalformedBinary);
    }
    assert(elem_start + elem_size * count <= data@.len());
    Ok((count, elem_start, end))
}

/// Decodes a counted table of 32-bit records, restoring the stream position
/// to just after the offset field so sibling fields parse compositionally.
pub fn read_table_u32(data: &[u8], pos: usize, cfg: DecodeConfig) -> (r: Result<
    (Vec<u32>, usize),
    DecodeError,
>)
    ensures
        match r {
            Ok((records, end)) => table_u32(data@, pos as int, cfg) matches Some(p) && p.0
                == records@ && p.1 == end as int,
            Err(e) => e == DecodeError::MalformedBinary && table_u32(data@, pos as int, cfg)
                is None,
        },
{
    let (count, elem_start, end) = match read_table_region(data, pos, 4, cfg) {
        Ok(h) => h,
        Err(e) => {
            return Err(e);
        },
    };
    let n = data.len();
    let ghost expected = Seq::new(
        count as nat,
        |i: int| u32_at(data@, elem_start + 4 * i, cfg.endian),
    );
    assert(count <= usize::MAX as u64);
    let count_us = count as usize;
    let mut records: Vec<u32> = Vec::new();
    let mut i: usize = 0;
    while i < count_us
        invariant
            0 <= i <= count_us,
            count_us == count,
            n == data@.len(),
            elem_start + 4 * count <= data@.len(),
            expected == Seq::new(
                count as nat,
                |q: int| u32_at(data@, elem_start as int + 4 * q, cfg.endian),
            ),
            records@ == expected.take(i as int),
        decreases count_us - i,
    {
        let v = read_u32(data, elem_start + 4 * i, cfg.endian);
        records.push(v);
        proof {
            assert(expected.take(i + 1) =~= expected.take(i as int).push(expected[i as int]));
        }
        i = i + 1;
    }
    proof {
        assert(expected.take(count as int) =~= expected);
    }
    Ok((records, end))
}

/// Appends the 4 bytes of `v` in the given byte order.
fn push_u32(out: &mut Vec<u8>, v: u32, endian: Endian)
    ensures
        final(out)@.len() == old(out)@.len() + 4,
        forall|i: int| 0 <= i < old(out)@.len() ==> final(out)@[i] == old(out)@[i],
        u32_at(final(out)@, old(out)@.len() as int, endian) == v,
{
    let b0 = (v & 0xff) as u8;
    let b1 = ((v >> 8u32) & 0xff) as u8;
    let b2 = ((v >> 16u32) & 0xff) as u8;
    let b3 = ((v >> 24u32) & 0xff) as u8;
    proof {
        assert((((v & 0xff) as u8) as u32) + (((v >> 8u32) & 0xff) as u8) as u32 * 0x100 + (((v
            >> 16u32) & 0xff) as u8) as u32 * 0x10000 + (((v >> 24u32) & 0xff) as u8) as u32
            * 0x1000000 == v) by (bit_vector);
    }
    match endian {
        Endian::Little => {
            out.push(b0);
            out.push(b1);
            out.push(b2);
            out.push(b3);
        },
        Endian::Big => {
            out.push(b3);
            out.push(b2);
            out.push(b1);
            out.push(b0);
        },
    }
}

/// Appends the 8 bytes of `v` in the given byte order.
fn push_u64(out: &mut Vec<u8>, v: u64, endian: Endian)
    ensures
        final(out)@.len() == old(out)@.len() + 8,
        forall|i: int| 0 <= i < old(out)@.len() ==> final(out)@[i] == old(out)@[i],
        u64_at(final(out)@, old(out)@.len() as int, endian) == v,
{
    let lo = (v & 0xffffffff) as u32;
    let hi = (v >> 32u64) as u32;
    proof {
        assert(((v & 0xffffffff) as u32) as u64 + ((v >> 32u64) as u32) as u64 * 0x100000000 == v)
            by (bit_vector);
    }
    match endian {
        Endian::Little => {
            push_u32(out, lo, Endian::Little);
            push_u32(out, hi, Endian::Little);
        },
        Endian::Big => {
            push_u32(out, hi, Endian::Big);
            push_u32(out, lo, Endian::Big);
        },
    }
}

/// Encodes a counted table of 32-bit records: a count field holding the
/// number of records, an offset field holding `offset`, padding up to the
/// element region that the offset and the format's +16 adjustment designate,
/// then the records themselves. The contract states the round trip: decoding
/// the result at position 0 yields back exactly the original records, with
/// the cursor restored to just after the offset field.
pub fn encode_table_u32(records: &Vec<u32>, offset: u32, cfg: DecodeConfig) -> (r: Vec<u8>)
    requires
        offset <= 0x7fffffff,
        records@.len() <= 0xffffffff,
        records@.len() * 4 + offset + 32 <= usize::MAX,
    ensures
        table_u32(r@, 0, cfg) matches Some(p) && p.0 == records@ && p.1 == 2 * cfg.spec_width(),
{
    let w = cfg.width();
    let mut out: Vec<u8> = Vec::new();
    let count = records.len();
    if cfg.wide {
        push_u64(&mut out, count as u64, cfg.endian);
        push_u64(&mut out, offset as u64, cfg.endian);
    } else {
        push_u32(&mut out, count as u32, cfg.endian);
        push_u32(&mut out, offset as u32, cfg.endian);
    }
    assert(count_at(out@, 0, cfg) == count);
    assert(offset_at(out@, w as int, cfg) == offset);
    let elem_start = w + offset as usize + 16;
    let pad = elem_start - 2 * w;
    let mut p: usize = 0;
    while p < pad
        invariant
            0 <= p <= pad,
            pad == elem_start - 2 * w,
            elem_start == w + offset + 16,
            w == cfg.spec_width(),
            out@.len() == 2 * w + p,
            count_at(out@, 0, cfg) == count,
            offset_at(out@, w as int, cfg) == offset,
            count == records@.len(),
        decreases pad - p,
    {
        let ghost out0 = out@;
        out.push(0);
        proof {
            assert(forall|i: int| 0 <= i < out0.len() ==> out@[i] == out0[i]);
        }
        p = p + 1;
    }
    assert(out@.len() == elem_start);
    let mut i: usize = 0;
    while i < count
        invariant
            0 <= i <= count,
            count == records@.len(),
            w == cfg.spec_width(),
            elem_start == w + offset + 16,
            out@.len() == elem_start + 4 * i,
            count_at(out@, 0, cfg) == count,
            offset_at(out@, w as int, cfg) == offset,
            forall|j: int|
                0 <= j < i ==> u32_at(out@, elem_start + 4 * j, cfg.endian) == records@[j],
        decreases count - i,
    {
        let ghost out0 = out@;
        push_u32(&mut out, records[i], cfg.endian);
        proof {
            assert(u32_at(out@, elem_start + 4 * i, cfg.endian) == records@[i as int]);
            assert forall|j: int|
                0 <= j < i + 1 implies u32_at(out@, elem_start + 4 * j, cfg.endian)
                == records@[j] by {
                if j < i {
                    assert(u32_at(out0, elem_start + 4 * j, cfg.endian) == records@[j]);
                }
            }
        }
        i = i + 1;
    }
    proof {
        assert(table_header(out@, 0, cfg) == Some(
            (count as u64, elem_start as int, 2 * cfg.spec_width()),
        ));
        let p = table_u32(out@, 0, cfg)->Some_0;
        assert(p.0 =~= records@);
    }
    out
}

/// A relative pointer field at `pos`: the absolute position it resolves to
/// (`pos` plus the stored offset, with no adjustment) and the restored stream
/// position after the field. `None` when the field runs past the end of the
/// data or the target lies outside it.
pub open spec fn rel_pointer_at(data: Seq<u8>, pos: int, cfg: DecodeConfig) -> Option<(int, int)> {
    let w = cfg.spec_width();
    if 0 <= pos && pos + w <= data.len() {
        let target = pos + offset_at(data, pos, cfg);
        if 0 <= target <= data.len() {
            Some((target, pos + w))
        } else {
            None
        }
    } else {
        None
    }
}

/// Reads a relative pointer field, failing on an out-of-bounds seek.
pub fn read_rel_pointer(data: &[u8], pos: usize, cfg: DecodeConfig) -> (r: Result<
    (usize, usize),
    DecodeError,
>)
    ensures
        match r {
            Ok((target, end)) => rel_pointer_at(data@, pos as int, cfg) == Some(
                (target as int, end as int),
            ),
            Err(e) => e == DecodeError::MalformedBinary && rel_pointer_at(data@, pos as int, cfg)
                is None,
        },
{
    let n = data.len();
    let w = cfg.width();
    if n < w || pos > n - w {
        return Err(DecodeError::MalformedBinary);
    }
    let off = read_offset(data, pos, cfg);
    let target: i128 = pos as i128 + off as i128;
    if target < 0 || target > n as i128 {
        return Err(DecodeError::MalformedBinary);
    }
    Ok((target as usize, pos + w))
}

} // verus!
