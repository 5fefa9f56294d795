use vstd::prelude::*;

verus! {

/// Archive generation: the legacy generation uses big-endian, 32-bit wide
/// binary layouts; the current one little-endian, 64-bit wide layouts.
#[derive(Copy, Clone, PartialEq, Eq, Structural, Debug)]
pub enum Generation {
    Legacy,
    Current,
}

impl Generation {
    /// Byte order of this generation's archives.
    pub fn endian(&self) -> (r: crate::endian::Endian)
        ensures
            r == self.spec_endian(),
    {
        match self {
            Generation::Legacy => crate::endian::Endian::Big,
            Generation::Current => crate::endian::Endian::Little,
        }
    }

    /// Byte order of this generation's archives.
    pub open spec fn spec_endian(&self) -> crate::endian::Endian {
        match self {
            Generation::Legacy => crate::endian::Endian::Big,
            Generation::Current => crate::endian::Endian::Little,
        }
    }
}

/// 32-bit tag identifier encoding a package id and an entry index.
///
/// The encoding mirrors the identifier layout of the archive format: the value
/// `0x80800000 + (pkg_id << 13) + entry` with the entry index held in the low
/// 13 bits.
#[derive(Copy, Clone, PartialEq, Eq, Structural, Debug, Hash)]
pub struct TagHash(pub u32);

/// 64-bit tag identifier, resolved to a [`TagHash`] through an externally
/// supplied lookup table; not every value resolves.
#[derive(Copy, Clone, PartialEq, Eq, Structural, Debug, Hash)]
pub struct TagHash64(pub u64);

/// Identifier value of a (package id, entry index) pair.
pub open spec fn tag_hash_value(pkg_id: u16, entry: u16) -> u32 {
    vstd::wrapping::u32_specs::wrapping_add(
        vstd::wrapping::u32_specs::wrapping_add(
            0x80800000u32,
            vstd::wrapping::u32_specs::wrapping_shl(pkg_id as u32, 13),
        ),
        (entry as u32) % 8192,
    )
}

/// Package id encoded in an identifier value.
pub open spec fn spec_pkg_id(v: u32) -> u16 {
    (vstd::wrapping::u32_specs::wrapping_sub(v, 0x80800000) >> 13) as u16
}

/// Entry index encoded in an identifier value (the low 13 bits).
pub open spec fn spec_entry_index(v: u32) -> u16 {
    (v & 0x1fff) as u16
}

/// An identifier value inside the range the archive format reserves for tags.
pub open spec fn spec_is_valid(v: u32) -> bool {
    v > 0x80800000 && v <= 0x81ffffff
}

/// A valid identifier whose package id lies in the range used for package
/// files; distinguishes true tag references from colliding 32-bit values.
pub open spec fn spec_is_pkg_file(v: u32) -> bool {
    &&& v != 0xffffffffu32
    &&& spec_is_valid(v)
    &&& 0x9 <= spec_pkg_id(v) < 0xa00
}

impl TagHash {
    /// Builds the identifier of entry `entry` of package `pkg_id`.
    pub fn new(pkg_id: u16, entry: u16) -> (r: TagHash)
        ensures
            r.0 == tag_hash_value(pkg_id, entry),
    {
        TagHash(0x80800000u32.wrapping_add((pkg_id as u32) << 13u32).wrapping_add(
            entry as u32 % 8192,
        ))
    }

    /// The identifier lies inside the range reserved for tags.
    pub fn is_valid(&self) -> (r: bool)
        ensures
            r == spec_is_valid(self.0),
    {
        self.0 > 0x80800000 && self.0 <= 0x81ffffff
    }

    /// The reserved "no tag" value.
    pub fn is_none(&self) -> (r: bool)
        ensures
            r == (self.0 == 0xffffffffu32),
    {
        self.0 == u32::MAX
    }

    /// Valid and not the reserved "no tag" value.
    pub fn is_some(&self) -> (r: bool)
        ensures
            r == (self.0 != 0xffffffffu32 && spec_is_valid(self.0)),
    {
        !self.is_none() && self.is_valid()
    }

    /// The identifier refers to an entry of a package file.
    pub fn is_pkg_file(&self) -> (r: bool)
        ensures
            r == spec_is_pkg_file(self.0),
    {
        let p = self.pkg_id();
        self.is_some() && 0x9 <= p && p < 0xa00
    }

    /// Package id encoded in the identifier.
    pub fn pkg_id(&self) -> (r: u16)
        ensures
            r == spec_pkg_id(self.0),
    {
        (self.0.wrapping_sub(0x80800000) >> 13u32) as u16
    }

    /// Entry index encoded in the identifier.
    pub fn entry_index(&self) -> (r: u16)
        ensures
            r == spec_entry_index(self.0),
    {
        (self.0 & 0x1fff) as u16
    }
}

} // verus!
