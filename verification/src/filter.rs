//! Region Filter: decides, per memory region, whether it is safe and
//! worth reading.
//!
//! A region is scanned only if its permissions include the readable
//! flag, its pathname is none of the kernel's virtual-syscall
//! pseudo-mappings (which error on read despite readable page-table
//! bits), and it is not a read-write-shared direct-rendering device
//! mapping.

use vstd::prelude::*;
use crate::maps::{MemoryRegion, RegionV};

verus! {

/// `"[vdso]"`
pub open spec fn vdso_name() -> Seq<u8> {
    seq![0x5bu8, 0x76u8, 0x64u8, 0x73u8, 0x6fu8, 0x5du8]
}

/// `"[vvar]"`
pub open spec fn vvar_name() -> Seq<u8> {
    seq![0x5bu8, 0x76u8, 0x76u8, 0x61u8, 0x72u8, 0x5du8]
}

/// `"[vvar_vclock]"`
pub open spec fn vvar_vclock_name() -> Seq<u8> {
    seq![
        0x5bu8,
        0x76u8,
        0x76u8,
        0x61u8,
        0x72u8,
        0x5fu8,
        0x76u8,
        0x63u8,
        0x6cu8,
        0x6fu8,
        0x63u8,
        0x6bu8,
        0x5du8,
    ]
}

/// `"/dev/dri/"`
pub open spec fn dri_prefix() -> Seq<u8> {
    seq![0x2fu8, 0x64u8, 0x65u8, 0x76u8, 0x2fu8, 0x64u8, 0x72u8, 0x69u8, 0x2fu8]
}

/// `"rw-s"`
pub open spec fn rws_perms() -> Seq<u8> {
    seq![0x72u8, 0x77u8, 0x2du8, 0x73u8]
}

/// Whether the permission field includes the readable flag `r`.
pub open spec fn spec_perm_readable(p: Seq<u8>) -> bool {
    exists|i: int| 0 <= i < p.len() && p[i] == 0x72
}

/// A pathname that names a virtual-syscall pseudo-mapping.
pub open spec fn spec_vsyscall_pathname(p: Seq<u8>) -> bool {
    p == vdso_name() || p == vvar_name() || p == vvar_vclock_name()
}

/// A read-write-shared mapping of a direct-rendering device.
pub open spec fn spec_dri_shared(p: Seq<u8>, perms: Seq<u8>) -> bool {
    p.len() >= dri_prefix().len() && p.subrange(0, dri_prefix().len() as int) == dri_prefix()
        && perms == rws_perms()
}

/// The filter rule: read a region only if it is readable, not a
/// virtual-syscall pseudo-mapping, and not a shared rendering-device
/// mapping.
pub open spec fn spec_region_scannable(r: RegionV) -> bool {
    &&& spec_perm_readable(r.permissions)
    &&& match r.pathname {
        Some(p) => !spec_vsyscall_pathname(p) && !spec_dri_shared(p, r.permissions),
        None => true,
    }
}

fn perm_readable(perms: &Vec<u8>) -> (r: bool)
    ensures
        r == spec_perm_readable(perms@),
{
    let mut i: usize = 0;
    while i < perms.len()
        invariant
            i <= perms@.len(),
            forall|j: int| 0 <= j < i ==> perms@[j] != 0x72,
        decreases perms@.len() - i,
    {
        if perms[i] == 0x72 {
            return true;
        }
        i = i + 1;
    }
    false
}

fn is_vsyscall_pathname(p: &Vec<u8>) -> (r: bool)
    ensures
        r == spec_vsyscall_pathname(p@),
{
    let vdso = p.len() == 6 && p[0] == 0x5b && p[1] == 0x76 && p[2] == 0x64 && p[3] == 0x73 && p[4]
        == 0x6f && p[5] == 0x5d;
    let vvar = p.len() == 6 && p[0] == 0x5b && p[1] == 0x76 && p[2] == 0x76 && p[3] == 0x61 && p[4]
        == 0x72 && p[5] == 0x5d;
    let vclock = p.len() == 13 && p[0] == 0x5b && p[1] == 0x76 && p[2] == 0x76 && p[3] == 0x61
        && p[4] == 0x72 && p[5] == 0x5f && p[6] == 0x76 && p[7] == 0x63 && p[8] == 0x6c && p[9]
        == 0x6f && p[10] == 0x63 && p[11] == 0x6b && p[12] == 0x5d;
    proof {
        if vdso {
            assert(p@ =~= vdso_name());
        }
        if vvar {
            assert(p@ =~= vvar_name());
        }
        if vclock {
            assert(p@ =~= vvar_vclock_name());
        }
    }
    vdso || vvar || vclock
}

fn is_dri_shared(p: &Vec<u8>, perms: &Vec<u8>) -> (r: bool)
    ensures
        r == spec_dri_shared(p@, perms@),
{
    let prefix = p.len() >= 9 && p[0] == 0x2f && p[1] == 0x64 && p[2] == 0x65 && p[3] == 0x76
        && p[4] == 0x2f && p[5] == 0x64 && p[6] == 0x72 && p[7] == 0x69 && p[8] == 0x2f;
    let rws = perms.len() == 4 && perms[0] == 0x72 && perms[1] == 0x77 && perms[2] == 0x2d
        && perms[3] == 0x73;
    proof {
        if prefix {
            assert(p@.subrange(0, 9) =~= dri_prefix());
        } else {
            if p@.len() >= 9 && p@.subrange(0, 9) == dri_prefix() {
                assert(p@[0] == p@.subrange(0, 9)[0]);
                assert(p@[1] == p@.subrange(0, 9)[1]);
                assert(p@[2] == p@.subrange(0, 9)[2]);
                assert(p@[3] == p@.subrange(0, 9)[3]);
                assert(p@[4] == p@.subrange(0, 9)[4]);
                assert(p@[5] == p@.subrange(0, 9)[5]);
                assert(p@[6] == p@.subrange(0, 9)[6]);
                assert(p@[7] == p@.subrange(0, 9)[7]);
                assert(p@[8] == p@.subrange(0, 9)[8]);
                assert(false);
            }
        }
        if rws {
            assert(perms@ =~= rws_perms());
        }
    }
    prefix && rws
}

/// Decides whether a region passes the filter and should be read.
pub fn is_region_scannable(region: &MemoryRegion) -> (r: bool)
    ensures
        r == spec_region_scannable(region@),
{
    if !perm_readable(&region.permissions) {
        return false;
    }
    match &region.pathname {
        Some(p) => {
            if is_vsyscall_pathname(p) {
                return false;
            }
            if is_dri_shared(p, &region.permissions) {
                return false;
            }
            true
        },
        None => true,
    }
}

} // verus!
