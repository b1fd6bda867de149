//! RISC-V Sv48 page-table builder and handoff address helpers.
//!
//! The four-level Sv48 construction lives in the shared engine; this
//! module fixes the architecture and carries what the RISC-V handoff
//! needs: the builder whose root feeds `satp`, the `satp` composition
//! itself, and the trampoline page range to identity-map executable
//! before the `satp` switch.

use vstd::prelude::*;

use crate::paging::{vpn, Arch, MapError, PageFlags, PageTableBuilder, PageTables};

verus! {

/// The ELF machine code a kernel image for this architecture must carry.
pub const EXPECTED_ELF_MACHINE: u16 = 0xF3;

/// RISC-V Sv48 four-level page-table builder.
pub struct BootPageTable {
    /// The architecture-neutral tables, built in Sv48 encoding.
    pub inner: PageTables,
}

impl PageTableBuilder for BootPageTable {
    open spec fn tables(&self) -> PageTables {
        self.inner
    }

    open spec fn arch_of() -> Arch {
        Arch::Riscv64
    }

    fn new(pool: Vec<u64>) -> (r: Option<Self>) {
        match PageTables::new(Arch::Riscv64, pool) {
            Some(t) => Some(BootPageTable { inner: t }),
            None => None,
        }
    }

    fn map(&mut self, virt: u64, phys: u64, size: u64, flags: PageFlags) -> (r: Result<
        (),
        MapError,
    >) {
        self.inner.map(virt, phys, size, flags)
    }

    fn root_physical(&self) -> (r: u64) {
        self.inner.root_physical()
    }
}

impl BootPageTable {
    /// Walk the finished tables for `virt`: the raw leaf PTE, if mapped.
    pub fn lookup(&self, virt: u64) -> (r: Option<u64>)
        requires
            self.inner.wf(),
        ensures
            r == self.inner.resolve(vpn(virt)),
    {
        self.inner.lookup(virt)
    }
}

/// Compose the `satp` value installing an Sv48 root table: mode 9 (Sv48)
/// in bits 63:60, ASID zero, and the root's physical page number.
pub fn satp_value(root_phys: u64) -> (r: u64)
    ensures
        r == (9u64 << 60) | (root_phys >> 12),
{
    (9u64 << 60) | (root_phys >> 12)
}

/// Return the first and last 4 KiB page addresses that contain the
/// handoff trampoline, given the addresses of its first byte and of the
/// byte one past its end. The loader identity-maps both pages executable
/// in the new tables so the fetch after the `satp` write succeeds.
pub fn trampoline_page_range(start: u64, end: u64) -> (r: (u64, u64))
    ensures
        r.0 == start & 0xFFFF_FFFF_FFFF_F000,
        r.1 == (if end > start { ((end - 1) as u64) & 0xFFFF_FFFF_FFFF_F000 } else {
            start & 0xFFFF_FFFF_FFFF_F000
        }),
        r.0 % 4096 == 0,
        r.1 % 4096 == 0,
{
    let last_byte = if end > start {
        end - 1
    } else {
        start
    };
    proof {
        assert(start & 0xFFFF_FFFF_FFFF_F000 == (start >> 12) << 12) by (bit_vector);
        assert(last_byte & 0xFFFF_FFFF_FFFF_F000 == (last_byte >> 12) << 12) by (bit_vector);
        assert(((start >> 12) << 12) % 4096 == 0) by (bit_vector);
        assert(((last_byte >> 12) << 12) % 4096 == 0) by (bit_vector);
    }
    (start & 0xFFFF_FFFF_FFFF_F000, last_byte & 0xFFFF_FFFF_FFFF_F000)
}

} // verus!
