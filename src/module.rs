//! Walking the memory of a loaded module, one queried memory segment at a time.
//!
//! The host takes a snapshot of the loaded modules (the first is the executable
//! itself) and, for each module, asks the operating system for the memory
//! segment holding a position, starting at the module's base. Each answer is
//! handed to [`Module::walk_step`], which says which region to report and where
//! to ask next.
use vstd::prelude::*;

use crate::region::{Region, RegionView};

verus! {

/// Protection of executable, readable memory.
pub const PAGE_EXECUTE_READ: u32 = 0x20;

/// Protection of executable, readable and writable memory.
pub const PAGE_EXECUTE_READWRITE: u32 = 0x40;

/// Protection of executable, readable, copy-on-write memory.
pub const PAGE_EXECUTE_WRITECOPY: u32 = 0x80;

/// A module loaded into the process.
#[derive(Debug, Clone, Hash)]
pub struct Module {
    pub module_id: u32,
    pub process_id: u32,
    pub base_addr: usize,
    pub base_size: u32,
    pub module_name: String,
    pub exe_path: String,
}

/// What the operating system reports of the memory segment holding an address.
#[derive(Debug, Clone, Copy, PartialEq, Eq, Structural, Hash)]
pub struct MemoryInfo {
    pub base_address: usize,
    pub region_size: usize,
    pub protect: u32,
}

/// Whether a protection marks code to check.
pub open spec fn is_checked_protection(protect: u32, writable: bool) -> bool {
    protect == PAGE_EXECUTE_READ || protect == PAGE_EXECUTE_WRITECOPY || (writable && protect
        == PAGE_EXECUTE_READWRITE)
}

/// The lesser of two integers.
pub open spec fn min_int(a: int, b: int) -> int {
    if a <= b {
        a
    } else {
        b
    }
}

impl Module {
    /// One past the module's last address.
    pub open spec fn end_spec(&self) -> int {
        self.base_addr + self.base_size
    }

    /// One past the module's last address, when it fits in `usize`.
    pub fn end(&self) -> (r: Option<usize>)
        ensures
            r matches Some(e) <==> self.end_spec() <= usize::MAX,
            r matches Some(e) ==> e == self.end_spec(),
    {
        self.base_addr.checked_add(self.base_size as usize)
    }

    /// One step of the walk at `pos`, given the segment `info` that holds it:
    /// the part of the segment inside the module is reported when its protection
    /// marks code to check, and the walk goes on at its end unless that is the
    /// module's end.
    pub fn walk_step(&self, pos: usize, info: &MemoryInfo, include_writable_code: bool) -> (r: (
        Option<Region>,
        Option<usize>,
    ))
        requires
            self.base_addr <= pos < self.end_spec() <= usize::MAX,
            info.base_address <= pos < info.base_address + info.region_size,
        ensures
            ({
                let seg_end = min_int(info.base_address + info.region_size, self.end_spec());
                &&& r.0 is Some <==> is_checked_protection(info.protect, include_writable_code)
                &&& r.0 matches Some(g) ==> g@ == (RegionView {
                    start: pos as int,
                    end: seg_end,
                    source: self.exe_path@,
                })
                &&& r.1 is Some <==> seg_end < self.end_spec()
                &&& r.1 matches Some(n) ==> n == seg_end && pos < n
            }),
    {
        let module_end = self.base_addr + self.base_size as usize;
        let seg_end: usize = if info.base_address as u128 + info.region_size as u128
            >= module_end as u128 {
            module_end
        } else {
            info.base_address + info.region_size
        };
        let p = info.protect;
        let region = if p == PAGE_EXECUTE_READ || p == PAGE_EXECUTE_WRITECOPY || (
        include_writable_code && p == PAGE_EXECUTE_READWRITE) {
            Some(Region { start: pos, end: seg_end, source: self.exe_path.clone() })
        } else {
            None
        };
        let next = if seg_end >= module_end {
            None
        } else {
            Some(seg_end)
        };
        (region, next)
    }
}

/// The modules to walk: the executable alone when libraries are skipped.
pub fn modules_to_walk(modules: Vec<Module>, skip_libs: bool) -> (r: Vec<Module>)
    ensures
        skip_libs ==> r@ == modules@.subrange(0, if modules@.len() == 0 { 0 } else { 1 }),
        !skip_libs ==> r@ == modules@,
{
    if skip_libs {
        let ghost all = modules@;
        let mut first: Vec<Module> = Vec::new();
        let mut modules = modules;
        if modules.len() > 0 {
            let m = modules.swap_remove(0);
            first.push(m);
            proof {
                assert(first@ =~= all.subrange(0, 1));
            }
        } else {
            proof {
                assert(first@ =~= all.subrange(0, 0));
            }
        }
        first
    } else {
        modules
    }
}

} // verus!
