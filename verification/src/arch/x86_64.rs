//! x86-64 page-table builder and handoff address helpers.
//!
//! The four-level PML4 construction itself lives in the shared engine;
//! this module fixes the architecture and carries the pieces the x86-64
//! handoff needs: the builder whose root becomes CR3, and the page range
//! of the trampoline stub that must stay identity-mapped executable
//! across the CR3 switch.

use vstd::prelude::*;

use crate::paging::{vpn, Arch, MapError, PageFlags, PageTableBuilder, PageTables};

verus! {

/// The ELF machine code a kernel image for this architecture must carry.
pub const EXPECTED_ELF_MACHINE: u16 = 0x3E;

/// x86-64 four-level (PML4) page-table builder.
pub struct BootPageTable {
    /// The architecture-neutral tables, built in PML4 encoding.
    pub inner: PageTables,
}

impl PageTableBuilder for BootPageTable {
    open spec fn tables(&self) -> PageTables {
        self.inner
    }

    open spec fn arch_of() -> Arch {
        Arch::X86_64
    }

    fn new(pool: Vec<u64>) -> (r: Option<Self>) {
        match PageTables::new(Arch::X86_64, pool) {
            Some(t) => Some(BootPageTable { inner: t }),
            None => None,
        }
    }

    fn map(&mut self, virt: u64, phys: u64, size: u64, flags: PageFlags) -> (r: Result<
        (),
        MapError,
    >) {
        self.inner.map(virt, phys, size, flags)
    }

    fn root_physical(&self) -> (r: u64) {
        self.inner.root_physical()
    }
}

impl BootPageTable {
    /// Walk the finished tables for `virt`: the raw leaf PTE, if mapped.
    pub fn lookup(&self, virt: u64) -> (r: Option<u64>)
        requires
            self.inner.wf(),
        ensures
            r == self.inner.resolve(vpn(virt)),
    {
        self.inner.lookup(virt)
    }
}

/// Return the first and last 4 KiB page addresses that contain the
/// handoff trampoline, given the addresses of its first byte and of the
/// byte one past its end. Under UEFI the code runs identity-mapped, so
/// these double as the physical pages to map executable in the new
/// tables before the CR3 switch.
pub fn trampoline_page_range(start: u64, end: u64) -> (r: (u64, u64))
    ensures
        r.0 == start & 0xFFFF_FFFF_FFFF_F000,
        r.1 == (if end > start { ((end - 1) as u64) & 0xFFFF_FFFF_FFFF_F000 } else {
            start & 0xFFFF_FFFF_FFFF_F000
        }),
        r.0 % 4096 == 0,
        r.1 % 4096 == 0,
{
    let last_byte = if end > start {
        end - 1
    } else {
        start
    };
    proof {
        assert(start & 0xFFFF_FFFF_FFFF_F000 == (start >> 12) << 12) by (bit_vector);
        assert(last_byte & 0xFFFF_FFFF_FFFF_F000 == (last_byte >> 12) << 12) by (bit_vector);
        assert(((start >> 12) << 12) % 4096 == 0) by (bit_vector);
        assert(((last_byte >> 12) << 12) % 4096 == 0) by (bit_vector);
    }
    (start & 0xFFFF_FFFF_FFFF_F000, last_byte & 0xFFFF_FFFF_FFFF_F000)
}

} // verus!
