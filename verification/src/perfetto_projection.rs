//! Device numbers of Perfetto block records. The trace holds the userspace
//! `dev_t` that `makedev` builds, not the kernel's `major << 20` layout.
use vstd::prelude::*;

verus! {

/// The userspace `dev_t` of a device, as glibc's `makedev` lays it out:
/// minor bits 0..8 at 0..8, major bits 0..12 at 8..20, minor bits 8..32 at
/// 20..44, major bits 12..32 at 44..64.
pub open spec fn makedev(major: u32, minor: u32) -> u64 {
    ((minor as u64) & 0xff) | (((major as u64) & 0xfff) << 8u64) | (((minor as u64) & 0xffff_ff00) << 12u64)
        | (((major as u64) & 0xffff_f000) << 32u64)
}

/// The major number: bits 8..20 and 44..64 of `encoded`.
pub open spec fn major_of(encoded: u64) -> u32 {
    ((((encoded >> 8u64) & 0xfff) | ((encoded >> 32u64) & 0xffff_f000)) as u32)
}

/// The minor number: bits 0..8 and 20..44 of `encoded`.
pub open spec fn minor_of(encoded: u64) -> u32 {
    (((encoded & 0xff) | ((encoded >> 12u64) & 0xffff_ff00)) as u32)
}

/// Splits a trace `dev_t` into (major, minor).
pub fn device_numbers(encoded: u64) -> (r: (u32, u32))
    ensures
        r == (major_of(encoded), minor_of(encoded)),
{
    (
        (((encoded >> 8) & 0xfff) | ((encoded >> 32) & 0xfffff000)) as u32,
        ((encoded & 0xff) | ((encoded >> 12) & 0xffffff00)) as u32,
    )
}

/// `device_numbers` undoes `makedev` for every major and minor.
pub proof fn law_device_numbers_invert_makedev(major: u32, minor: u32)
    ensures
        major_of(makedev(major, minor)) == major,
        minor_of(makedev(major, minor)) == minor,
{
    let a = major as u64;
    let i = minor as u64;
    assert(((((i & 0xff) | ((a & 0xfff) << 8u64) | ((i & 0xffff_ff00) << 12u64) | ((a & 0xffff_f000) << 32u64)) >> 8u64) & 0xfff
        | ((((i & 0xff) | ((a & 0xfff) << 8u64) | ((i & 0xffff_ff00) << 12u64) | ((a & 0xffff_f000) << 32u64)) >> 32u64) & 0xffff_f000)) == a)
        by (bit_vector)
        requires a <= 0xffff_ffff, i <= 0xffff_ffff;
    assert(((((i & 0xff) | ((a & 0xfff) << 8u64) | ((i & 0xffff_ff00) << 12u64) | ((a & 0xffff_f000) << 32u64)) & 0xff)
        | ((((i & 0xff) | ((a & 0xfff) << 8u64) | ((i & 0xffff_ff00) << 12u64) | ((a & 0xffff_f000) << 32u64)) >> 12u64) & 0xffff_ff00)) == i)
        by (bit_vector)
        requires a <= 0xffff_ffff, i <= 0xffff_ffff;
}

/// The operation named by the first `rwbs` flag: read, write, discard,
/// flush, or other.
pub open spec fn operation_of(rwbs: Seq<char>) -> crate::host_bw::IoOperation {
    if rwbs.len() == 0 {
        crate::host_bw::IoOperation::Other
    } else if rwbs[0] == 'R' {
        crate::host_bw::IoOperation::Read
    } else if rwbs[0] == 'W' {
        crate::host_bw::IoOperation::Write
    } else if rwbs[0] == 'D' {
        crate::host_bw::IoOperation::Discard
    } else if rwbs[0] == 'F' {
        crate::host_bw::IoOperation::Flush
    } else {
        crate::host_bw::IoOperation::Other
    }
}

pub fn operation(rwbs: &str) -> (r: crate::host_bw::IoOperation)
    ensures
        r == operation_of(rwbs@),
{
    let v = crate::text::str_chars(rwbs);
    if v.len() == 0 {
        crate::host_bw::IoOperation::Other
    } else if v[0] == 'R' {
        crate::host_bw::IoOperation::Read
    } else if v[0] == 'W' {
        crate::host_bw::IoOperation::Write
    } else if v[0] == 'D' {
        crate::host_bw::IoOperation::Discard
    } else if v[0] == 'F' {
        crate::host_bw::IoOperation::Flush
    } else {
        crate::host_bw::IoOperation::Other
    }
}

} // verus!
