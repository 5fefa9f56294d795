use vstd::prelude::*;

verus! {

/// Byte order used when interpreting multi-byte windows of a tag's data.
#[derive(Copy, Clone, PartialEq, Eq, Structural, Debug)]
pub enum Endian {
    Little,
    Big,
}

/// Little-endian value of the 2 bytes of `data` starting at `pos`.
pub open spec fn le16_at(data: Seq<u8>, pos: int) -> u16
    recommends
        0 <= pos,
        pos + 2 <= data.len(),
{
    (data[pos] as u16 + data[pos + 1] as u16 * 0x100) as u16
}

/// Little-endian value of the 4 bytes of `data` starting at `pos`.
pub open spec fn le32_at(data: Seq<u8>, pos: int) -> u32
    recommends
        0 <= pos,
        pos + 4 <= data.len(),
{
    (data[pos] as u32 + data[pos + 1] as u32 * 0x100 + data[pos + 2] as u32 * 0x10000 + data[pos
        + 3] as u32 * 0x1000000) as u32
}

/// Big-endian value of the 4 bytes of `data` starting at `pos`.
pub open spec fn be32_at(data: Seq<u8>, pos: int) -> u32
    recommends
        0 <= pos,
        pos + 4 <= data.len(),
{
    (data[pos + 3] as u32 + data[pos + 2] as u32 * 0x100 + data[pos + 1] as u32 * 0x10000 + data[
        pos] as u32 * 0x1000000) as u32
}

/// Little-endian value of the 8 bytes of `data` starting at `pos`.
pub open spec fn le64_at(data: Seq<u8>, pos: int) -> u64
    recommends
        0 <= pos,
        pos + 8 <= data.len(),
{
    (le32_at(data, pos) as u64 + le32_at(data, pos + 4) as u64 * 0x100000000) as u64
}

/// Big-endian value of the 8 bytes of `data` starting at `pos`.
pub open spec fn be64_at(data: Seq<u8>, pos: int) -> u64
    recommends
        0 <= pos,
        pos + 8 <= data.len(),
{
    (be32_at(data, pos + 4) as u64 + be32_at(data, pos) as u64 * 0x100000000) as u64
}

/// Value of the 2 bytes at `pos` in the given byte order.
pub open spec fn u16_at(data: Seq<u8>, pos: int, endian: Endian) -> u16 {
    match endian {
        Endian::Little => le16_at(data, pos),
        Endian::Big => (data[pos + 1] as u16 + data[pos] as u16 * 0x100) as u16,
    }
}

/// Value of the 4 bytes at `pos` in the given byte order.
pub open spec fn u32_at(data: Seq<u8>, pos: int, endian: Endian) -> u32 {
    match endian {
        Endian::Little => le32_at(data, pos),
        Endian::Big => be32_at(data, pos),
    }
}

/// Value of the 8 bytes at `pos` in the given byte order.
pub open spec fn u64_at(data: Seq<u8>, pos: int, endian: Endian) -> u64 {
    match endian {
        Endian::Little => le64_at(data, pos),
        Endian::Big => be64_at(data, pos),
    }
}

/// Reads the 2 bytes at `pos` in the given byte order.
pub fn read_u16(data: &[u8], pos: usize, endian: Endian) -> (r: u16)
    requires
        pos + 2 <= data.len(),
    ensures
        r == u16_at(data@, pos as int, endian),
{
    match endian {
        Endian::Little => data[pos] as u16 + data[pos + 1] as u16 * 0x100,
        Endian::Big => data[pos + 1] as u16 + data[pos] as u16 * 0x100,
    }
}

/// Reads the 4 bytes at `pos` in the given byte order.
pub fn read_u32(data: &[u8], pos: usize, endian: Endian) -> (r: u32)
    requires
        pos + 4 <= data.len(),
    ensures
        r == u32_at(data@, pos as int, endian),
{
    match endian {
        Endian::Little => data[pos] as u32 + data[pos + 1] as u32 * 0x100 + data[pos + 2] as u32
            * 0x10000 + data[pos + 3] as u32 * 0x1000000,
        Endian::Big => data[pos + 3] as u32 + data[pos + 2] as u32 * 0x100 + data[pos + 1] as u32
            * 0x10000 + data[pos] as u32 * 0x1000000,
    }
}

/// Reads the 8 bytes at `pos` in the given byte order.
pub fn read_u64(data: &[u8], pos: usize, endian: Endian) -> (r: u64)
    requires
        pos + 8 <= data.len(),
    ensures
        r == u64_at(data@, pos as int, endian),
{
    match endian {
        Endian::Little => {
            let lo = read_u32(data, pos, Endian::Little);
            let hi = read_u32(data, pos + 4, Endian::Little);
            lo as u64 + hi as u64 * 0x100000000
        },
        Endian::Big => {
            let lo = read_u32(data, pos + 4, Endian::Big);
            let hi = read_u32(data, pos, Endian::Big);
            lo as u64 + hi as u64 * 0x100000000
        },
    }
}

} // verus!
