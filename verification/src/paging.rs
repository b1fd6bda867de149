//! Four-level page-table construction with W^X enforcement.
//!
//! [`PageTables`] is the architecture-neutral engine: it owns the table
//! frames as plain data, walks the four 9-bit index levels of a 48-bit
//! virtual address, and installs 4 KiB leaf entries encoded for either
//! x86-64 (PML4) or RISC-V Sv48. Frames are drawn from a pool of physical
//! frame addresses handed in by the caller, who later stores each frame's
//! 512 entries at its physical address before the table root is installed.
//!
//! W^X is checked before any table is touched, so a violation never leaves
//! a partially mutated table. The meaning of a finished table is given by
//! [`PageTables::resolve`], the specification-level hardware walk.

use vstd::prelude::*;

use crate::elf::KernelInfo;
use crate::error::BootError;

verus! {

/// Page size in bytes (4 KiB).
pub const PAGE_SIZE: u64 = 4096;
/// Number of entries in a single page table (all levels).
pub const TABLE_ENTRIES: usize = 512;
/// One past the highest physical address a table frame may occupy (2^52).
pub const MAX_FRAME_ADDR: u64 = 0x10_0000_0000_0000;
/// Number of 4 KiB virtual pages in the 48-bit address space (2^36).
pub const VPN_COUNT: u64 = 0x10_0000_0000;

/// Target page-table format.
#[derive(Clone, Copy, Debug, PartialEq, Eq, Structural)]
pub enum Arch {
    /// x86-64 four-level PML4 tables.
    X86_64,
    /// RISC-V Sv48 four-level tables.
    Riscv64,
}

/// Permission flags for a page-table mapping.
#[derive(Clone, Copy, Debug, PartialEq, Eq, Structural)]
pub struct PageFlags {
    /// The mapping is writable.
    pub writable: bool,
    /// The mapping is executable.
    pub executable: bool,
}

/// Errors that can occur during page-table construction.
#[derive(Clone, Copy, Debug, PartialEq, Eq, Structural)]
pub enum MapError {
    /// The frame pool ran out while an intermediate table was needed.
    OutOfMemory,
    /// The flags request both write and execute permission (W^X violation).
    WxViolation,
}

// ── PTE encodings ────────────────────────────────────────────────────────

/// An entry is present/valid: bit 0 on both architectures.
pub open spec fn pte_present(e: u64) -> bool {
    e & 1 == 1
}

/// The entry is a pointer to a next-level table.
///
/// On x86-64 that is a present entry without the page-size bit; on Sv48 a
/// valid entry with R, W and X all clear.
pub open spec fn is_pointer(arch: Arch, e: u64) -> bool {
    match arch {
        Arch::X86_64 => e & 1 == 1 && e & 0x80 == 0,
        Arch::Riscv64 => e & 1 == 1 && e & 0xe == 0,
    }
}

/// Physical address of the child table a pointer entry names.
pub open spec fn pointer_target(arch: Arch, e: u64) -> u64 {
    match arch {
        Arch::X86_64 => e & 0x000F_FFFF_FFFF_F000,
        Arch::Riscv64 => (e >> 10) << 12,
    }
}

/// The exact bits of an intermediate (non-leaf) entry naming `child`.
///
/// x86-64 intermediates are Present|Writable with NX clear so the level
/// below may contain executable leaves; Sv48 intermediates are V only.
pub open spec fn pointer_pte(arch: Arch, child: u64) -> u64 {
    match arch {
        Arch::X86_64 => child | 3,
        Arch::Riscv64 => ((child >> 12) << 10) | 1,
    }
}

/// The entry is a 4 KiB leaf at the last level.
///
/// On x86-64 any present last-level entry is a leaf; on Sv48 a valid entry
/// with R or X set.
pub open spec fn is_leaf(arch: Arch, e: u64) -> bool {
    match arch {
        Arch::X86_64 => e & 1 == 1,
        Arch::Riscv64 => e & 1 == 1 && e & 0xe != 0,
    }
}

/// The exact bits of a 4 KiB leaf entry.
///
/// x86-64: Present, the frame bits of `phys`, Writable when requested, and
/// No-Execute whenever the mapping is not executable. Sv48: V|R|A always,
/// the PPN of `phys`, W and D together for writable pages, X for
/// executable pages; A and D are set eagerly to avoid faults on hardware
/// that does not update them.
pub open spec fn leaf_pte(arch: Arch, phys: u64, flags: PageFlags) -> u64 {
    match arch {
        Arch::X86_64 => 1u64 | (phys & 0x000F_FFFF_FFFF_F000)
            | (if flags.writable { 2u64 } else { 0u64 })
            | (if flags.executable { 0u64 } else { 0x8000_0000_0000_0000u64 }),
        Arch::Riscv64 => 0x43u64 | ((phys >> 12) << 10)
            | (if flags.writable { 0x84u64 } else { 0u64 })
            | (if flags.executable { 8u64 } else { 0u64 }),
    }
}

/// Physical address a leaf entry maps to.
pub open spec fn leaf_phys(arch: Arch, e: u64) -> u64 {
    match arch {
        Arch::X86_64 => e & 0x000F_FFFF_FFFF_F000,
        Arch::Riscv64 => (e >> 10) << 12,
    }
}

/// The leaf grants write permission.
pub open spec fn leaf_writable(arch: Arch, e: u64) -> bool {
    match arch {
        Arch::X86_64 => e & 2 == 2,
        Arch::Riscv64 => e & 4 == 4,
    }
}

/// The leaf grants execute permission.
pub open spec fn leaf_executable(arch: Arch, e: u64) -> bool {
    match arch {
        Arch::X86_64 => e & 0x8000_0000_0000_0000 == 0,
        Arch::Riscv64 => e & 8 == 8,
    }
}

/// The leaf grants read permission. Every leaf this builder writes is
/// readable: x86-64 present entries are readable, and Sv48 leaves carry R.
pub open spec fn leaf_readable(arch: Arch, e: u64) -> bool {
    match arch {
        Arch::X86_64 => e & 1 == 1,
        Arch::Riscv64 => e & 2 == 2,
    }
}

// ── Virtual page numbers ─────────────────────────────────────────────────

/// The 36-bit virtual page number of an address: bits 47:12. Bits above 47
/// do not take part in the four-level walk.
pub open spec fn vpn(virt: u64) -> u64 {
    (virt >> 12) & 0xF_FFFF_FFFF
}

/// The level-`n` 9-bit index of a virtual page number, for levels 3
/// (root) down to 0 (leaf table).
pub open spec fn vpn_index(v: u64, level: int) -> u64 {
    if level == 3 {
        (v >> 27) & 0x1FF
    } else if level == 2 {
        (v >> 18) & 0x1FF
    } else if level == 1 {
        (v >> 9) & 0x1FF
    } else {
        v & 0x1FF
    }
}

// ── Frames and the builder ───────────────────────────────────────────────

/// One 4 KiB page-table frame: its physical address and its 512 entries.
#[derive(Clone, Debug)]
pub struct Frame {
    /// Physical address the frame will occupy.
    pub phys: u64,
    /// The 512 table entries.
    pub entries: Vec<u64>,
}

/// Architecture-neutral four-level page-table builder.
///
/// `frames[0]` is the root table. `free` is the pool of physical frame
/// addresses still available for intermediate tables; frames are taken
/// from its end. The ghost `levels` assigns each frame its level in the
/// hierarchy, 3 for the root down to 0 for leaf tables.
pub struct PageTables {
    /// Page-table format being built.
    pub arch: Arch,
    /// The table frames; index 0 is the root.
    pub frames: Vec<Frame>,
    /// Pool of unused physical frame addresses.
    pub free: Vec<u64>,
    /// Level of each frame in the hierarchy.
    pub levels: Ghost<Seq<int>>,
}

/// A pool of frame addresses is usable when every address is page-aligned,
/// below 2^52 and the addresses are pairwise distinct.
pub open spec fn pool_wf(pool: Seq<u64>) -> bool {
    &&& forall|i: int| 0 <= i < pool.len()
            ==> (#[trigger] pool[i]) % 4096 == 0 && pool[i] < MAX_FRAME_ADDR
    &&& forall|i: int, j: int| 0 <= i < j < pool.len() ==> pool[i] != pool[j]
}

impl PageTables {
    /// The frames and the free pool as plain mathematical values.
    pub open spec fn frames_view(self) -> Seq<(u64, Seq<u64>)> {
        self.frames@.map(|i: int, f: Frame| (f.phys, f.entries@))
    }

    /// Number of frames the builder has taken from the pool.
    pub open spec fn num_frames(self) -> nat {
        self.frames@.len()
    }

    /// Some frame holds physical address `a`.
    pub open spec fn has_frame(self, a: u64) -> bool {
        exists|i: int| 0 <= i < self.frames@.len() && (#[trigger] self.frames@[i]).phys == a
    }

    /// Index of the frame at physical address `a` (meaningful only when
    /// `has_frame(a)`; under `wf` the index is unique).
    pub open spec fn idx_of(self, a: u64) -> int {
        choose|i: int| 0 <= i < self.frames@.len() && (#[trigger] self.frames@[i]).phys == a
    }

    /// Structural frame conditions: 512 entries, aligned distinct physical
    /// addresses below 2^52, and a level in 0..=3.
    pub open spec fn frame_ok(self, i: int) -> bool {
        &&& self.frames@[i].entries@.len() == TABLE_ENTRIES
        &&& self.frames@[i].phys % 4096 == 0
        &&& self.frames@[i].phys < MAX_FRAME_ADDR
        &&& 0 <= self.levels@[i] <= 3
    }

    /// Every present entry of an intermediate frame is a pointer to an
    /// existing frame one level down.
    pub open spec fn entry_ok(self, i: int, j: int) -> bool {
        pte_present(self.frames@[i].entries@[j]) ==> {
            let e = self.frames@[i].entries@[j];
            &&& is_pointer(self.arch, e)
            &&& self.has_frame(pointer_target(self.arch, e))
            &&& self.levels@[self.idx_of(pointer_target(self.arch, e))] == self.levels@[i] - 1
        }
    }

    /// No two pointer entries name the same child frame.
    pub open spec fn pointers_injective(self) -> bool {
        forall|i1: int, j1: int, i2: int, j2: int|
            0 <= i1 < self.frames@.len() && 0 <= j1 < TABLE_ENTRIES
            && 0 <= i2 < self.frames@.len() && 0 <= j2 < TABLE_ENTRIES
            && self.levels@[i1] >= 1 && self.levels@[i2] >= 1
            && pte_present(#[trigger] self.frames@[i1].entries@[j1])
            && pte_present(#[trigger] self.frames@[i2].entries@[j2])
            && !(i1 == i2 && j1 == j2)
            ==> pointer_target(self.arch, self.frames@[i1].entries@[j1])
                != pointer_target(self.arch, self.frames@[i2].entries@[j2])
    }

    /// Well-formedness of the builder.
    pub open spec fn wf(self) -> bool {
        &&& 1 <= self.frames@.len()
        &&& self.levels@.len() == self.frames@.len()
        &&& self.levels@[0] == 3
        &&& forall|i: int| 0 <= i < self.frames@.len() ==> #[trigger] self.frame_ok(i)
        &&& forall|i: int, j: int| 0 <= i < j < self.frames@.len()
                ==> (#[trigger] self.frames@[i]).phys != (#[trigger] self.frames@[j]).phys
        &&& pool_wf(self.free@)
        &&& forall|k: int, i: int|
                0 <= k < self.free@.len() && 0 <= i < self.frames@.len()
                ==> (#[trigger] self.free@[k]) != (#[trigger] self.frames@[i]).phys
        &&& forall|i: int, j: int|
                0 <= i < self.frames@.len() && self.levels@[i] >= 1 && 0 <= j < TABLE_ENTRIES
                ==> #[trigger] self.entry_ok(i, j)
        &&& self.pointers_injective()
    }

    /// Physical address of the root table frame.
    pub open spec fn root_phys_spec(self) -> u64 {
        self.frames@[0].phys
    }

    /// The child frame the pointer entry at `(i, j)` names, as a frame
    /// index, or `None` where the entry is no pointer or names no frame.
    pub open spec fn child_of(self, i: int, j: int) -> Option<int> {
        let e = self.frames@[i].entries@[j];
        if is_pointer(self.arch, e) && self.has_frame(pointer_target(self.arch, e)) {
            Some(self.idx_of(pointer_target(self.arch, e)))
        } else {
            None
        }
    }

    /// Index of the level-2 frame the walk of `v` reaches.
    pub open spec fn walk2(self, v: u64) -> Option<int> {
        self.child_of(0, vpn_index(v, 3) as int)
    }

    /// Index of the level-1 frame the walk of `v` reaches.
    pub open spec fn walk1(self, v: u64) -> Option<int> {
        match self.walk2(v) {
            Some(f) => self.child_of(f, vpn_index(v, 2) as int),
            None => None,
        }
    }

    /// Index of the level-0 (leaf-table) frame the walk of `v` reaches.
    pub open spec fn walk0(self, v: u64) -> Option<int> {
        match self.walk1(v) {
            Some(f) => self.child_of(f, vpn_index(v, 1) as int),
            None => None,
        }
    }

    /// The specification-level hardware walk: the raw leaf entry the table
    /// maps the 36-bit virtual page number `v` to, or `None` where the
    /// walk stops at an absent entry.
    pub open spec fn resolve(self, v: u64) -> Option<u64> {
        match self.walk0(v) {
            Some(f0) => {
                let e0 = self.frames@[f0].entries@[vpn_index(v, 0) as int];
                if is_leaf(self.arch, e0) {
                    Some(e0)
                } else {
                    None
                }
            },
            None => None,
        }
    }

    /// The decoded mapping of virtual page `v`: physical address, write
    /// and execute permission.
    pub open spec fn resolve_leaf(self, v: u64) -> Option<(u64, bool, bool)> {
        match self.resolve(v) {
            Some(e) => Some(
                (leaf_phys(self.arch, e), leaf_writable(self.arch, e), leaf_executable(self.arch, e)),
            ),
            None => None,
        }
    }

    /// Allocate a new, empty builder whose root comes from the end of
    /// `pool`. Returns `None` exactly when the pool is empty.
    pub fn new(arch: Arch, pool: Vec<u64>) -> (r: Option<PageTables>)
        requires
            pool_wf(pool@),
        ensures
            match r {
                Some(t) => {
                    &&& pool@.len() >= 1
                    &&& t.wf()
                    &&& t.arch == arch
                    &&& t.num_frames() == 1
                    &&& t.root_phys_spec() == pool@.last()
                    &&& t.free@ == pool@.drop_last()
                    &&& forall|v: u64| #[trigger] t.resolve(v) is None
                },
                None => pool@.len() == 0,
            },
    {
        let ghost orig = pool@;
        let mut pool = pool;
        match pool.pop() {
            None => None,
            Some(root_phys) => {
                let entries: Vec<u64> = zeroed_frame();
                let mut frames: Vec<Frame> = Vec::new();
                frames.push(Frame { phys: root_phys, entries });
                let ghost lv: Seq<int> = seq![3int];
                let t = PageTables {
                    arch,
                    frames,
                    free: pool,
                    levels: Ghost(lv),
                };
                proof {
                    assert(root_phys == orig[orig.len() - 1]);
                    assert(t.free@ == orig.drop_last());
                    assert(0u64 & 1 == 0) by (bit_vector);
                    assert forall|v: u64| #[trigger] t.resolve(v) is None by {
                        let i3 = vpn_index(v, 3);
                        assert(i3 < 512) by (bit_vector) requires i3 == (v >> 27) & 0x1FF;
                        assert(t.frames@[0].entries@[i3 as int] == 0u64);
                        assert(!is_pointer(t.arch, 0u64));
                    }
                    assert(t.frame_ok(0));
                    assert forall|i: int, j: int|
                        0 <= i < t.frames@.len() && t.levels@[i] >= 1 && 0 <= j < TABLE_ENTRIES
                        implies #[trigger] t.entry_ok(i, j) by {
                        assert(t.frames@[i].entries@[j] == 0u64);
                        assert(!pte_present(0u64));
                    }
                    assert(t.wf());
                }
                Some(t)
            },
        }
    }

    /// Return the physical address of the root page-table frame. This
    /// value becomes CR3 on x86-64 or the PPN field of `satp` on RISC-V.
    pub fn root_physical(&self) -> (r: u64)
        requires
            self.wf(),
        ensures
            r == self.root_phys_spec(),
    {
        self.frames[0].phys
    }
}

// ── Encoding facts ───────────────────────────────────────────────────────

/// x86-64 pointer-entry round trip for an aligned frame address.
proof fn lemma_ptr_bits_x86(p: u64)
    by (bit_vector)
    requires
        p % 4096 == 0,
        p < 0x10_0000_0000_0000,
    ensures
        (p | 3) & 1 == 1,
        (p | 3) & 0x80 == 0,
        ((p | 3) & 0x000F_FFFF_FFFF_F000) == p,
{
}

/// Sv48 pointer-entry round trip for an aligned frame address.
proof fn lemma_ptr_bits_rv(p: u64)
    by (bit_vector)
    requires
        p % 4096 == 0,
        p < 0x10_0000_0000_0000,
    ensures
        (((p >> 12) << 10) | 1) & 1 == 1,
        (((p >> 12) << 10) | 1) & 0xe == 0,
        (((((p >> 12) << 10) | 1) >> 10) << 12) == p,
{
}

/// An intermediate entry naming an aligned child frame is a pointer whose
/// target is that frame, on either architecture.
pub proof fn lemma_pointer_roundtrip(arch: Arch, p: u64)
    requires
        p % 4096 == 0,
        p < MAX_FRAME_ADDR,
    ensures
        pte_present(pointer_pte(arch, p)),
        is_pointer(arch, pointer_pte(arch, p)),
        pointer_target(arch, pointer_pte(arch, p)) == p,
{
    match arch {
        Arch::X86_64 => lemma_ptr_bits_x86(p),
        Arch::Riscv64 => lemma_ptr_bits_rv(p),
    }
}

/// x86-64 leaf-entry decode facts.
proof fn lemma_leaf_bits_x86(p: u64, w: bool, x: bool)
    by (bit_vector)
    ensures
        (1u64 | (p & 0x000F_FFFF_FFFF_F000) | (if w { 2u64 } else { 0u64 })
            | (if x { 0u64 } else { 0x8000_0000_0000_0000u64 })) & 1 == 1,
        ((1u64 | (p & 0x000F_FFFF_FFFF_F000) | (if w { 2u64 } else { 0u64 })
            | (if x { 0u64 } else { 0x8000_0000_0000_0000u64 })) & 0x000F_FFFF_FFFF_F000)
            == p & 0x000F_FFFF_FFFF_F000,
        ((1u64 | (p & 0x000F_FFFF_FFFF_F000) | (if w { 2u64 } else { 0u64 })
            | (if x { 0u64 } else { 0x8000_0000_0000_0000u64 })) & 2 == 2) == w,
        ((1u64 | (p & 0x000F_FFFF_FFFF_F000) | (if w { 2u64 } else { 0u64 })
            | (if x { 0u64 } else { 0x8000_0000_0000_0000u64 })) & 0x8000_0000_0000_0000 == 0)
            == x,
{
}

/// Sv48 leaf-entry decode facts.
proof fn lemma_leaf_bits_rv(p: u64, w: bool, x: bool)
    by (bit_vector)
    requires
        p < 0x10_0000_0000_0000,
    ensures
        (0x43u64 | ((p >> 12) << 10) | (if w { 0x84u64 } else { 0u64 })
            | (if x { 8u64 } else { 0u64 })) & 1 == 1,
        (0x43u64 | ((p >> 12) << 10) | (if w { 0x84u64 } else { 0u64 })
            | (if x { 8u64 } else { 0u64 })) & 0xe != 0,
        (((0x43u64 | ((p >> 12) << 10) | (if w { 0x84u64 } else { 0u64 })
            | (if x { 8u64 } else { 0u64 })) >> 10) << 12) == ((p >> 12) << 12),
        ((0x43u64 | ((p >> 12) << 10) | (if w { 0x84u64 } else { 0u64 })
            | (if x { 8u64 } else { 0u64 })) & 4 == 4) == w,
        ((0x43u64 | ((p >> 12) << 10) | (if w { 0x84u64 } else { 0u64 })
            | (if x { 8u64 } else { 0u64 })) & 8 == 8) == x,
        (0x43u64 | ((p >> 12) << 10) | (if w { 0x84u64 } else { 0u64 })
            | (if x { 8u64 } else { 0u64 })) & 2 == 2,
{
}

/// Decoding a written leaf gives back the page base of `phys` and the
/// requested permissions, and the leaf is readable and present.
pub proof fn lemma_leaf_roundtrip(arch: Arch, phys: u64, flags: PageFlags)
    requires
        phys < MAX_FRAME_ADDR,
    ensures
        pte_present(leaf_pte(arch, phys, flags)),
        is_leaf(arch, leaf_pte(arch, phys, flags)),
        leaf_readable(arch, leaf_pte(arch, phys, flags)),
        leaf_writable(arch, leaf_pte(arch, phys, flags)) == flags.writable,
        leaf_executable(arch, leaf_pte(arch, phys, flags)) == flags.executable,
        phys % 4096 == 0 ==> leaf_phys(arch, leaf_pte(arch, phys, flags)) == phys,
{
    match arch {
        Arch::X86_64 => {
            lemma_leaf_bits_x86(phys, flags.writable, flags.executable);
            assert(phys % 4096 == 0 && phys < 0x10_0000_0000_0000
                ==> phys & 0x000F_FFFF_FFFF_F000 == phys) by (bit_vector);
        },
        Arch::Riscv64 => {
            lemma_leaf_bits_rv(phys, flags.writable, flags.executable);
            assert(phys % 4096 == 0 ==> ((phys >> 12) << 12) == phys) by (bit_vector);
        },
    }
}

/// A leaf entry is present and a leaf, whatever the physical address.
proof fn lemma_leaf_is_leaf(arch: Arch, phys: u64, flags: PageFlags)
    ensures
        pte_present(leaf_pte(arch, phys, flags)),
        is_leaf(arch, leaf_pte(arch, phys, flags)),
{
    let w = flags.writable;
    let x = flags.executable;
    match arch {
        Arch::X86_64 => {
            assert((1u64 | (phys & 0x000F_FFFF_FFFF_F000) | (if w { 2u64 } else { 0u64 })
                | (if x { 0u64 } else { 0x8000_0000_0000_0000u64 })) & 1 == 1)
                by (bit_vector);
        },
        Arch::Riscv64 => {
            assert((0x43u64 | ((phys >> 12) << 10) | (if w { 0x84u64 } else { 0u64 })
                | (if x { 8u64 } else { 0u64 })) & 1 == 1
                && (0x43u64 | ((phys >> 12) << 10) | (if w { 0x84u64 } else { 0u64 })
                | (if x { 8u64 } else { 0u64 })) & 0xe != 0) by (bit_vector);
        },
    }
}

/// The four 9-bit walk indices of an address equal those of its virtual
/// page number, and the page number is below 2^36.
proof fn lemma_virt_indices(virt: u64)
    ensures
        vpn(virt) < VPN_COUNT,
        vpn_index(vpn(virt), 3) == (virt >> 39) & 0x1FF,
        vpn_index(vpn(virt), 2) == (virt >> 30) & 0x1FF,
        vpn_index(vpn(virt), 1) == (virt >> 21) & 0x1FF,
        vpn_index(vpn(virt), 0) == (virt >> 12) & 0x1FF,
{
    assert(((virt >> 12) & 0xF_FFFF_FFFF) < 0x10_0000_0000) by (bit_vector);
    assert(((((virt >> 12) & 0xF_FFFF_FFFF) >> 27) & 0x1FF) == (virt >> 39) & 0x1FF)
        by (bit_vector);
    assert(((((virt >> 12) & 0xF_FFFF_FFFF) >> 18) & 0x1FF) == (virt >> 30) & 0x1FF)
        by (bit_vector);
    assert(((((virt >> 12) & 0xF_FFFF_FFFF) >> 9) & 0x1FF) == (virt >> 21) & 0x1FF)
        by (bit_vector);
    assert((((virt >> 12) & 0xF_FFFF_FFFF) & 0x1FF) == (virt >> 12) & 0x1FF) by (bit_vector);
}

/// Stepping a page-aligned offset advances the virtual page number by
/// whole pages, without overflow, while the sum stays inside the walk's
/// 36-bit window.
proof fn lemma_vpn_step(virt: u64, k: u64)
    by (bit_vector)
    requires
        ((virt >> 12) & 0xF_FFFF_FFFF) + k < 0x10_0000_0000,
    ensures
        (k << 12) == k * 4096,
        virt + (k << 12) < 0x1_0000_0000_0000_0000,
        ((((virt + (k << 12)) as u64) >> 12) & 0xF_FFFF_FFFF) == ((virt >> 12) & 0xF_FFFF_FFFF) + k,
{
}

/// A prefix of a prefix of a pool is a prefix of the pool.
proof fn lemma_subrange_chain(a: Seq<u64>, b: Seq<u64>, c: Seq<u64>)
    requires
        b.len() <= a.len(),
        c.len() <= b.len(),
        b == a.subrange(0, b.len() as int),
        c == b.subrange(0, c.len() as int),
    ensures
        c == a.subrange(0, c.len() as int),
{
    assert(c =~= a.subrange(0, c.len() as int));
}

/// The four 9-bit indices of a virtual page number are below 512.
pub proof fn lemma_vpn_index_bounds(v: u64)
    ensures
        vpn_index(v, 3) < 512,
        vpn_index(v, 2) < 512,
        vpn_index(v, 1) < 512,
        vpn_index(v, 0) < 512,
{
    assert(((v >> 27) & 0x1FF) < 512) by (bit_vector);
    assert(((v >> 18) & 0x1FF) < 512) by (bit_vector);
    assert(((v >> 9) & 0x1FF) < 512) by (bit_vector);
    assert((v & 0x1FF) < 512) by (bit_vector);
}

/// Two virtual page numbers below 2^36 with the same four indices are the
/// same page number.
proof fn lemma_vpn_from_indices(v: u64, w: u64)
    by (bit_vector)
    requires
        v < 0x10_0000_0000,
        w < 0x10_0000_0000,
        (v >> 27) & 0x1FF == (w >> 27) & 0x1FF,
        (v >> 18) & 0x1FF == (w >> 18) & 0x1FF,
        (v >> 9) & 0x1FF == (w >> 9) & 0x1FF,
        v & 0x1FF == w & 0x1FF,
    ensures
        v == w,
{
}

// ── State-change lemmas ──────────────────────────────────────────────────

/// The frames of `s2` hold the same physical addresses and entries as
/// those of `s`, element by element.
pub open spec fn frames_pointwise_eq(s: PageTables, s2: PageTables) -> bool {
    &&& s2.frames@.len() == s.frames@.len()
    &&& forall|i: int| 0 <= i < s.frames@.len()
            ==> (#[trigger] s2.frames@[i]).phys == s.frames@[i].phys
    &&& forall|i: int| 0 <= i < s.frames@.len()
            ==> (#[trigger] s2.frames@[i]).entries@ == s.frames@[i].entries@
}

impl PageTables {
    /// Frame physical addresses are pairwise distinct.
    pub open spec fn phys_distinct(self) -> bool {
        forall|i: int, j: int| 0 <= i < j < self.frames@.len()
            ==> (#[trigger] self.frames@[i]).phys != (#[trigger] self.frames@[j]).phys
    }

    /// With distinct frame addresses, `idx_of` is the unique index of a
    /// held address.
    pub proof fn lemma_idx(self, a: u64)
        requires
            self.phys_distinct(),
            self.has_frame(a),
        ensures
            0 <= self.idx_of(a) < self.frames@.len(),
            self.frames@[self.idx_of(a)].phys == a,
            forall|i: int| 0 <= i < self.frames@.len() && (#[trigger] self.frames@[i]).phys == a
                ==> i == self.idx_of(a),
    {
        let w = choose|i: int| 0 <= i < self.frames@.len()
            && (#[trigger] self.frames@[i]).phys == a;
        assert(0 <= w < self.frames@.len() && self.frames@[w].phys == a);
    }

    /// `child_of` agrees between two states whose frames hold the same
    /// addresses on a shared prefix, for a prefix entry whose value is
    /// unchanged and whose target (if a pointer) is held by the prefix.
    proof fn lemma_child_stable(self, s2: PageTables, i: int, j: int)
        requires
            self.phys_distinct(),
            s2.phys_distinct(),
            s2.arch == self.arch,
            s2.frames@.len() >= self.frames@.len(),
            forall|k: int| 0 <= k < self.frames@.len()
                ==> (#[trigger] s2.frames@[k]).phys == self.frames@[k].phys,
            0 <= i < self.frames@.len(),
            0 <= j,
            s2.frames@[i].entries@[j] == self.frames@[i].entries@[j],
            is_pointer(self.arch, self.frames@[i].entries@[j])
                ==> self.has_frame(pointer_target(self.arch, self.frames@[i].entries@[j])),
        ensures
            self.child_of(i, j) == s2.child_of(i, j),
            self.child_of(i, j) is Some ==> 0 <= self.child_of(i, j)->0 < self.frames@.len()
                && self.frames@[self.child_of(i, j)->0].phys
                    == pointer_target(self.arch, self.frames@[i].entries@[j]),
    {
        let e = self.frames@[i].entries@[j];
        if is_pointer(self.arch, e) {
            let a = pointer_target(self.arch, e);
            self.lemma_idx(a);
            let w = self.idx_of(a);
            assert(s2.frames@[w].phys == a);
            assert(s2.has_frame(a));
            s2.lemma_idx(a);
            assert(s2.idx_of(a) == w);
        }
    }

    /// A present or pointer or leaf entry is never the zero entry, and a
    /// pointer or leaf entry is present.
    proof fn lemma_entry_kinds(arch: Arch)
        ensures
            !pte_present(0u64),
            !is_pointer(arch, 0u64),
            !is_leaf(arch, 0u64),
            forall|e: u64| is_pointer(arch, e) ==> #[trigger] pte_present(e),
            forall|e: u64| is_leaf(arch, e) ==> #[trigger] pte_present(e),
    {
        assert(0u64 & 1 == 0) by (bit_vector);
    }

    /// Appending a fresh zeroed frame (drawn from outside the held set)
    /// preserves well-formedness and resolution, and the new frame is not
    /// the target of any pointer entry.
    proof fn lemma_extend(self, s2: PageTables, lv: int)
        requires
            self.wf(),
            s2.arch == self.arch,
            s2.frames@.len() == self.frames@.len() + 1,
            forall|k: int| 0 <= k < self.frames@.len()
                ==> (#[trigger] s2.frames@[k]).phys == self.frames@[k].phys,
            forall|k: int| 0 <= k < self.frames@.len()
                ==> (#[trigger] s2.frames@[k]).entries@ == self.frames@[k].entries@,
            s2.levels@ == self.levels@.push(lv),
            0 <= lv <= 2,
            s2.frames@.last().phys % 4096 == 0,
            s2.frames@.last().phys < MAX_FRAME_ADDR,
            forall|k: int| 0 <= k < self.frames@.len()
                ==> s2.frames@.last().phys != (#[trigger] self.frames@[k]).phys,
            s2.frames@.last().entries@.len() == TABLE_ENTRIES,
            forall|j: int| 0 <= j < TABLE_ENTRIES ==> s2.frames@.last().entries@[j] == 0u64,
            pool_wf(s2.free@),
            forall|k: int, i: int| 0 <= k < s2.free@.len() && 0 <= i < s2.frames@.len()
                ==> (#[trigger] s2.free@[k]) != (#[trigger] s2.frames@[i]).phys,
        ensures
            s2.wf(),
            forall|v: u64| #[trigger] s2.resolve(v) == self.resolve(v),
            forall|i: int, j: int|
                0 <= i < self.frames@.len() && self.levels@[i] >= 1 && 0 <= j < TABLE_ENTRIES
                && pte_present(#[trigger] self.frames@[i].entries@[j])
                ==> pointer_target(self.arch, self.frames@[i].entries@[j])
                    != s2.frames@.last().phys,
    {
        let n = self.frames@.len() as int;
        Self::lemma_entry_kinds(self.arch);
        // the fresh frame is untargeted: old pointers target old frames
        assert forall|i: int, j: int|
            0 <= i < n && self.levels@[i] >= 1 && 0 <= j < TABLE_ENTRIES
            && pte_present(#[trigger] self.frames@[i].entries@[j])
            implies pointer_target(self.arch, self.frames@[i].entries@[j])
                != s2.frames@.last().phys by {
            assert(self.entry_ok(i, j));
            let a = pointer_target(self.arch, self.frames@[i].entries@[j]);
            self.lemma_idx(a);
        }
        // well-formedness
        assert forall|i: int| 0 <= i < s2.frames@.len() implies #[trigger] s2.frame_ok(i) by {
            if i < n {
                assert(self.frame_ok(i));
            }
        }
        assert forall|i: int, j: int| 0 <= i < j < s2.frames@.len()
            implies (#[trigger] s2.frames@[i]).phys != (#[trigger] s2.frames@[j]).phys by {
            if j < n {
                assert(self.frames@[i].phys != self.frames@[j].phys);
            }
        }
        assert(s2.phys_distinct());
        assert forall|i: int, j: int|
            0 <= i < s2.frames@.len() && s2.levels@[i] >= 1 && 0 <= j < TABLE_ENTRIES
            implies #[trigger] s2.entry_ok(i, j) by {
            if i < n {
                assert(self.entry_ok(i, j));
                if pte_present(s2.frames@[i].entries@[j]) {
                    let a = pointer_target(self.arch, self.frames@[i].entries@[j]);
                    self.lemma_idx(a);
                    assert(s2.frames@[self.idx_of(a)].phys == a);
                    assert(s2.has_frame(a));
                    s2.lemma_idx(a);
                    assert(s2.idx_of(a) == self.idx_of(a));
                }
            } else {
                assert(s2.frames@[i].entries@[j] == 0u64);
            }
        }
        assert forall|i1: int, j1: int, i2: int, j2: int|
            0 <= i1 < s2.frames@.len() && 0 <= j1 < TABLE_ENTRIES
            && 0 <= i2 < s2.frames@.len() && 0 <= j2 < TABLE_ENTRIES
            && s2.levels@[i1] >= 1 && s2.levels@[i2] >= 1
            && pte_present(#[trigger] s2.frames@[i1].entries@[j1])
            && pte_present(#[trigger] s2.frames@[i2].entries@[j2])
            && !(i1 == i2 && j1 == j2)
            implies pointer_target(s2.arch, s2.frames@[i1].entries@[j1])
                != pointer_target(s2.arch, s2.frames@[i2].entries@[j2]) by {
            if i1 < n && i2 < n {
                assert(self.pointers_injective());
                assert(pte_present(self.frames@[i1].entries@[j1]));
                assert(pte_present(self.frames@[i2].entries@[j2]));
            } else {
                if i1 >= n {
                    assert(s2.frames@[i1].entries@[j1] == 0u64);
                }
                if i2 >= n {
                    assert(s2.frames@[i2].entries@[j2] == 0u64);
                }
            }
        }
        assert(s2.wf());
        // resolution is untouched
        assert forall|v: u64| #[trigger] s2.resolve(v) == self.resolve(v) by {
            lemma_vpn_index_bounds(v);
            let i3 = vpn_index(v, 3) as int;
            let i2v = vpn_index(v, 2) as int;
            let i1v = vpn_index(v, 1) as int;
            let i0 = vpn_index(v, 0) as int;
            assert(self.entry_ok(0, i3));
            self.lemma_child_stable(s2, 0, i3);
            if self.walk2(v) is Some {
                let f2 = self.walk2(v)->0;
                assert(self.levels@[f2] == 2);
                assert(self.entry_ok(f2, i2v));
                self.lemma_child_stable(s2, f2, i2v);
                if self.walk1(v) is Some {
                    let f1 = self.walk1(v)->0;
                    assert(self.levels@[f1] == 1);
                    assert(self.entry_ok(f1, i1v));
                    self.lemma_child_stable(s2, f1, i1v);
                    if self.walk0(v) is Some {
                        let f0 = self.walk0(v)->0;
                        assert(s2.frames@[f0].entries@[i0] == self.frames@[f0].entries@[i0]);
                    }
                }
            }
        }
    }

    /// Two builders with the same architecture, levels, pool and frame
    /// contents are both well formed and resolve alike.
    proof fn lemma_same_views(self, s2: PageTables)
        requires
            self.wf(),
            s2.arch == self.arch,
            s2.levels@ == self.levels@,
            s2.free@ == self.free@,
            frames_pointwise_eq(self, s2),
        ensures
            s2.wf(),
            forall|v: u64| #[trigger] s2.resolve(v) == self.resolve(v),
    {
        let n = self.frames@.len() as int;
        Self::lemma_entry_kinds(self.arch);
        assert forall|i: int| 0 <= i < n implies #[trigger] s2.frame_ok(i) by {
            assert(self.frame_ok(i));
        }
        assert forall|i: int, j: int| 0 <= i < j < n
            implies (#[trigger] s2.frames@[i]).phys != (#[trigger] s2.frames@[j]).phys by {
            assert(self.frames@[i].phys != self.frames@[j].phys);
        }
        assert(s2.phys_distinct());
        assert forall|i: int, j: int| 0 <= i < n && s2.levels@[i] >= 1 && 0 <= j < TABLE_ENTRIES
            implies #[trigger] s2.entry_ok(i, j) by {
            assert(self.entry_ok(i, j));
            if pte_present(s2.frames@[i].entries@[j]) {
                let a = pointer_target(self.arch, self.frames@[i].entries@[j]);
                self.lemma_idx(a);
                assert(s2.frames@[self.idx_of(a)].phys == a);
                assert(s2.has_frame(a));
                s2.lemma_idx(a);
            }
        }
        assert forall|i1: int, j1: int, i2: int, j2: int|
            0 <= i1 < n && 0 <= j1 < TABLE_ENTRIES
            && 0 <= i2 < n && 0 <= j2 < TABLE_ENTRIES
            && s2.levels@[i1] >= 1 && s2.levels@[i2] >= 1
            && pte_present(#[trigger] s2.frames@[i1].entries@[j1])
            && pte_present(#[trigger] s2.frames@[i2].entries@[j2])
            && !(i1 == i2 && j1 == j2)
            implies pointer_target(s2.arch, s2.frames@[i1].entries@[j1])
                != pointer_target(s2.arch, s2.frames@[i2].entries@[j2]) by {
            assert(pte_present(self.frames@[i1].entries@[j1]));
            assert(pte_present(self.frames@[i2].entries@[j2]));
            assert(self.pointers_injective());
        }
        assert(s2.wf());
        assert forall|v: u64| #[trigger] s2.resolve(v) == self.resolve(v) by {
            lemma_vpn_index_bounds(v);
            let i3 = vpn_index(v, 3) as int;
            let i2v = vpn_index(v, 2) as int;
            let i1v = vpn_index(v, 1) as int;
            let i0 = vpn_index(v, 0) as int;
            assert(self.entry_ok(0, i3));
            self.lemma_child_stable(s2, 0, i3);
            if self.walk2(v) is Some {
                let f2 = self.walk2(v)->0;
                assert(self.levels@[f2] == 2);
                assert(self.entry_ok(f2, i2v));
                self.lemma_child_stable(s2, f2, i2v);
                if self.walk1(v) is Some {
                    let f1 = self.walk1(v)->0;
                    assert(self.levels@[f1] == 1);
                    assert(self.entry_ok(f1, i1v));
                    self.lemma_child_stable(s2, f1, i1v);
                    if self.walk0(v) is Some {
                        let f0 = self.walk0(v)->0;
                        assert(s2.frames@[f0].entries@[i0] == self.frames@[f0].entries@[i0]);
                    }
                }
            }
        }
    }

    /// Turning an absent entry of an intermediate frame into a pointer to
    /// an empty, untargeted sibling-level frame preserves well-formedness
    /// and resolution.
    proof fn lemma_install(self, s2: PageTables, t: int, j: int, c: int)
        requires
            self.wf(),
            s2.arch == self.arch,
            s2.levels@ == self.levels@,
            s2.free@ == self.free@,
            s2.frames@.len() == self.frames@.len(),
            forall|k: int| 0 <= k < self.frames@.len()
                ==> (#[trigger] s2.frames@[k]).phys == self.frames@[k].phys,
            forall|k: int| 0 <= k < self.frames@.len() && k != t
                ==> (#[trigger] s2.frames@[k]).entries@ == self.frames@[k].entries@,
            0 <= t < self.frames@.len(),
            0 <= j < TABLE_ENTRIES,
            self.levels@[t] >= 1,
            !pte_present(self.frames@[t].entries@[j]),
            0 <= c < self.frames@.len(),
            self.levels@[c] == self.levels@[t] - 1,
            forall|m: int| 0 <= m < TABLE_ENTRIES
                ==> (#[trigger] self.frames@[c].entries@[m]) == 0u64,
            forall|i: int, j2: int|
                0 <= i < self.frames@.len() && self.levels@[i] >= 1 && 0 <= j2 < TABLE_ENTRIES
                && pte_present(#[trigger] self.frames@[i].entries@[j2])
                ==> pointer_target(self.arch, self.frames@[i].entries@[j2])
                    != self.frames@[c].phys,
            s2.frames@[t].entries@ == self.frames@[t].entries@.update(
                j,
                pointer_pte(self.arch, self.frames@[c].phys),
            ),
        ensures
            s2.wf(),
            forall|v: u64| #[trigger] s2.resolve(v) == self.resolve(v),
            s2.child_of(t, j) == Some(c),
    {
        let n = self.frames@.len() as int;
        let cphys = self.frames@[c].phys;
        let newe = pointer_pte(self.arch, cphys);
        Self::lemma_entry_kinds(self.arch);
        assert(self.frame_ok(c));
        assert(self.frame_ok(t));
        lemma_pointer_roundtrip(self.arch, cphys);
        assert(c != t);
        assert(s2.frames@[t].entries@[j] == newe);
        assert forall|k: int, m: int| 0 <= k < n && 0 <= m < TABLE_ENTRIES
            && !(k == t && m == j)
            implies (#[trigger] s2.frames@[k].entries@[m]) == self.frames@[k].entries@[m] by {
            if k == t {
                assert(self.frame_ok(t));
            }
        }
        assert(s2.phys_distinct());
        assert(s2.frames@[c].phys == cphys);
        assert(s2.has_frame(cphys));
        s2.lemma_idx(cphys);
        assert(s2.idx_of(cphys) == c);
        assert(s2.child_of(t, j) == Some(c));
        // well-formedness
        assert forall|i: int| 0 <= i < n implies #[trigger] s2.frame_ok(i) by {
            assert(self.frame_ok(i));
        }
        assert forall|i: int, j2: int| 0 <= i < n && s2.levels@[i] >= 1 && 0 <= j2 < TABLE_ENTRIES
            implies #[trigger] s2.entry_ok(i, j2) by {
            if i == t && j2 == j {
                assert(s2.has_frame(cphys));
            } else {
                assert(self.entry_ok(i, j2));
                if pte_present(s2.frames@[i].entries@[j2]) {
                    let a = pointer_target(self.arch, self.frames@[i].entries@[j2]);
                    self.lemma_idx(a);
                    assert(s2.frames@[self.idx_of(a)].phys == a);
                    assert(s2.has_frame(a));
                    s2.lemma_idx(a);
                }
            }
        }
        assert forall|i1: int, j1: int, i2: int, j2: int|
            0 <= i1 < n && 0 <= j1 < TABLE_ENTRIES
            && 0 <= i2 < n && 0 <= j2 < TABLE_ENTRIES
            && s2.levels@[i1] >= 1 && s2.levels@[i2] >= 1
            && pte_present(#[trigger] s2.frames@[i1].entries@[j1])
            && pte_present(#[trigger] s2.frames@[i2].entries@[j2])
            && !(i1 == i2 && j1 == j2)
            implies pointer_target(s2.arch, s2.frames@[i1].entries@[j1])
                != pointer_target(s2.arch, s2.frames@[i2].entries@[j2]) by {
            if i1 == t && j1 == j {
                assert(pte_present(self.frames@[i2].entries@[j2]));
                assert(pointer_target(self.arch, self.frames@[i2].entries@[j2]) != cphys);
            } else if i2 == t && j2 == j {
                assert(pte_present(self.frames@[i1].entries@[j1]));
                assert(pointer_target(self.arch, self.frames@[i1].entries@[j1]) != cphys);
            } else {
                assert(pte_present(self.frames@[i1].entries@[j1]));
                assert(pte_present(self.frames@[i2].entries@[j2]));
                assert(self.pointers_injective());
            }
        }
        assert(s2.wf());
        // resolution is untouched
        let tl = self.levels@[t];
        assert forall|v: u64| #[trigger] s2.resolve(v) == self.resolve(v) by {
            lemma_vpn_index_bounds(v);
            let i3 = vpn_index(v, 3) as int;
            let i2v = vpn_index(v, 2) as int;
            let i1v = vpn_index(v, 1) as int;
            let i0 = vpn_index(v, 0) as int;
            if t == 0 && j == i3 {
                // the walk died at the root entry before; now it dies in c
                assert(self.walk2(v) is None);
                assert(s2.walk2(v) == Some(c));
                assert(s2.frames@[c].entries@[i2v] == 0u64);
                assert(s2.walk1(v) is None);
            } else {
                assert(self.entry_ok(0, i3));
                self.lemma_child_stable(s2, 0, i3);
                if self.walk2(v) is Some {
                    let f2 = self.walk2(v)->0;
                    assert(self.levels@[f2] == 2);
                    if t == f2 && j == i2v {
                        assert(self.walk1(v) is None);
                        assert(s2.child_of(t, j) == Some(c));
                        assert(s2.walk1(v) == Some(c));
                        assert(s2.frames@[c].entries@[i1v] == 0u64);
                        assert(s2.walk0(v) is None);
                    } else {
                        assert(self.entry_ok(f2, i2v));
                        self.lemma_child_stable(s2, f2, i2v);
                        if self.walk1(v) is Some {
                            let f1 = self.walk1(v)->0;
                            assert(self.levels@[f1] == 1);
                            if t == f1 && j == i1v {
                                assert(self.walk0(v) is None);
                                assert(s2.walk0(v) == Some(c));
                                assert(s2.frames@[c].entries@[i0] == 0u64);
                                assert(s2.resolve(v) is None);
                            } else {
                                assert(self.entry_ok(f1, i1v));
                                self.lemma_child_stable(s2, f1, i1v);
                                if self.walk0(v) is Some {
                                    let f0 = self.walk0(v)->0;
                                    assert(self.levels@[f0] == 0);
                                    assert(!(f0 == t && i0 == j));
                                    assert(s2.frames@[f0].entries@[i0]
                                        == self.frames@[f0].entries@[i0]);
                                }
                            }
                        }
                    }
                }
            }
        }
    }

    /// Writing a leaf entry into a level-0 frame changes resolution at
    /// exactly the page numbers whose walk reaches that slot, and keeps
    /// the builder well formed.
    proof fn lemma_leaf_write(self, s2: PageTables, t: int, j: int, val: u64)
        requires
            self.wf(),
            s2.arch == self.arch,
            s2.levels@ == self.levels@,
            s2.free@ == self.free@,
            s2.frames@.len() == self.frames@.len(),
            forall|k: int| 0 <= k < self.frames@.len()
                ==> (#[trigger] s2.frames@[k]).phys == self.frames@[k].phys,
            forall|k: int| 0 <= k < self.frames@.len() && k != t
                ==> (#[trigger] s2.frames@[k]).entries@ == self.frames@[k].entries@,
            0 <= t < self.frames@.len(),
            0 <= j < TABLE_ENTRIES,
            self.levels@[t] == 0,
            s2.frames@[t].entries@ == self.frames@[t].entries@.update(j, val),
        ensures
            s2.wf(),
            forall|v: u64| #[trigger] s2.walk0(v) == self.walk0(v),
            forall|v: u64|
                #[trigger] s2.resolve(v) == if self.walk0(v) == Some(t) && vpn_index(v, 0) == j {
                    if is_leaf(self.arch, val) {
                        Some(val)
                    } else {
                        None::<u64>
                    }
                } else {
                    self.resolve(v)
                },
    {
        let n = self.frames@.len() as int;
        Self::lemma_entry_kinds(self.arch);
        assert(self.frame_ok(t));
        assert forall|k: int, m: int| 0 <= k < n && 0 <= m < TABLE_ENTRIES
            && !(k == t && m == j)
            implies (#[trigger] s2.frames@[k].entries@[m]) == self.frames@[k].entries@[m] by {
            if k == t {
                assert(self.frame_ok(t));
            }
        }
        assert(s2.phys_distinct());
        // well-formedness: only a level-0 frame changed
        assert forall|i: int| 0 <= i < n implies #[trigger] s2.frame_ok(i) by {
            assert(self.frame_ok(i));
        }
        assert forall|i: int, j2: int| 0 <= i < n && s2.levels@[i] >= 1 && 0 <= j2 < TABLE_ENTRIES
            implies #[trigger] s2.entry_ok(i, j2) by {
            assert(i != t);
            assert(self.entry_ok(i, j2));
            if pte_present(s2.frames@[i].entries@[j2]) {
                let a = pointer_target(self.arch, self.frames@[i].entries@[j2]);
                self.lemma_idx(a);
                assert(s2.frames@[self.idx_of(a)].phys == a);
                assert(s2.has_frame(a));
                s2.lemma_idx(a);
            }
        }
        assert forall|i1: int, j1: int, i2: int, j2: int|
            0 <= i1 < n && 0 <= j1 < TABLE_ENTRIES
            && 0 <= i2 < n && 0 <= j2 < TABLE_ENTRIES
            && s2.levels@[i1] >= 1 && s2.levels@[i2] >= 1
            && pte_present(#[trigger] s2.frames@[i1].entries@[j1])
            && pte_present(#[trigger] s2.frames@[i2].entries@[j2])
            && !(i1 == i2 && j1 == j2)
            implies pointer_target(s2.arch, s2.frames@[i1].entries@[j1])
                != pointer_target(s2.arch, s2.frames@[i2].entries@[j2]) by {
            assert(i1 != t && i2 != t);
            assert(pte_present(self.frames@[i1].entries@[j1]));
            assert(pte_present(self.frames@[i2].entries@[j2]));
            assert(self.pointers_injective());
        }
        assert(s2.wf());
        // the walk to the leaf table is untouched; only the slot changed
        assert forall|v: u64| #[trigger] s2.walk0(v) == self.walk0(v) by {
            lemma_vpn_index_bounds(v);
            let i3 = vpn_index(v, 3) as int;
            let i2v = vpn_index(v, 2) as int;
            let i1v = vpn_index(v, 1) as int;
            assert(self.entry_ok(0, i3));
            self.lemma_child_stable(s2, 0, i3);
            if self.walk2(v) is Some {
                let f2 = self.walk2(v)->0;
                assert(self.levels@[f2] == 2);
                assert(self.entry_ok(f2, i2v));
                self.lemma_child_stable(s2, f2, i2v);
                if self.walk1(v) is Some {
                    let f1 = self.walk1(v)->0;
                    assert(self.levels@[f1] == 1);
                    assert(self.entry_ok(f1, i1v));
                    self.lemma_child_stable(s2, f1, i1v);
                }
            }
        }
        assert forall|v: u64|
            #[trigger] s2.resolve(v) == if self.walk0(v) == Some(t) && vpn_index(v, 0) == j {
                if is_leaf(self.arch, val) {
                    Some(val)
                } else {
                    None::<u64>
                }
            } else {
                self.resolve(v)
            } by {
            lemma_vpn_index_bounds(v);
            let i0 = vpn_index(v, 0) as int;
            if self.walk0(v) is Some {
                let f0 = self.walk0(v)->0;
                if f0 == t && i0 == j {
                    assert(s2.frames@[t].entries@[j] == val);
                } else {
                    assert(s2.frames@[f0].entries@[i0] == self.frames@[f0].entries@[i0]);
                }
            }
        }
    }

    /// A walk that ends in the same level-0 frame with the same last index
    /// started from the same page number: pointer entries name their child
    /// frames uniquely.
    proof fn lemma_path_unique(self, v: u64, w: u64)
        requires
            self.wf(),
            v < VPN_COUNT,
            w < VPN_COUNT,
            self.walk0(v) is Some,
            self.walk0(v) == self.walk0(w),
            vpn_index(v, 0) == vpn_index(w, 0),
        ensures
            v == w,
    {
        lemma_vpn_index_bounds(v);
        lemma_vpn_index_bounds(w);
        Self::lemma_entry_kinds(self.arch);
        let f2v = self.walk2(v)->0;
        let f2w = self.walk2(w)->0;
        let f1v = self.walk1(v)->0;
        let f1w = self.walk1(w)->0;
        let f0 = self.walk0(v)->0;
        assert(self.entry_ok(0, vpn_index(v, 3) as int));
        assert(self.entry_ok(0, vpn_index(w, 3) as int));
        assert(self.levels@[f2v] == 2 && self.levels@[f2w] == 2);
        assert(self.entry_ok(f2v, vpn_index(v, 2) as int));
        assert(self.entry_ok(f2w, vpn_index(w, 2) as int));
        assert(self.levels@[f1v] == 1 && self.levels@[f1w] == 1);
        assert(self.entry_ok(f1v, vpn_index(v, 1) as int));
        assert(self.entry_ok(f1w, vpn_index(w, 1) as int));
        // level-1 entries both target the phys of f0
        let e1v = self.frames@[f1v].entries@[vpn_index(v, 1) as int];
        let e1w = self.frames@[f1w].entries@[vpn_index(w, 1) as int];
        assert(pte_present(e1v) && pte_present(e1w));
        self.lemma_idx(pointer_target(self.arch, e1v));
        self.lemma_idx(pointer_target(self.arch, e1w));
        assert(pointer_target(self.arch, e1v) == self.frames@[f0].phys);
        assert(pointer_target(self.arch, e1w) == self.frames@[f0].phys);
        assert(f1v == f1w && vpn_index(v, 1) == vpn_index(w, 1)) by {
            if !(f1v == f1w && vpn_index(v, 1) == vpn_index(w, 1)) {
                assert(self.pointers_injective());
                assert(pointer_target(self.arch, e1v) != pointer_target(self.arch, e1w));
            }
        }
        let e2v = self.frames@[f2v].entries@[vpn_index(v, 2) as int];
        let e2w = self.frames@[f2w].entries@[vpn_index(w, 2) as int];
        self.lemma_idx(pointer_target(self.arch, e2v));
        self.lemma_idx(pointer_target(self.arch, e2w));
        assert(pointer_target(self.arch, e2v) == self.frames@[f1v].phys);
        assert(pointer_target(self.arch, e2w) == self.frames@[f1v].phys);
        assert(f2v == f2w && vpn_index(v, 2) == vpn_index(w, 2)) by {
            if !(f2v == f2w && vpn_index(v, 2) == vpn_index(w, 2)) {
                assert(self.pointers_injective());
                assert(pointer_target(self.arch, e2v) != pointer_target(self.arch, e2w));
            }
        }
        let e3v = self.frames@[0].entries@[vpn_index(v, 3) as int];
        let e3w = self.frames@[0].entries@[vpn_index(w, 3) as int];
        self.lemma_idx(pointer_target(self.arch, e3v));
        self.lemma_idx(pointer_target(self.arch, e3w));
        assert(pointer_target(self.arch, e3v) == self.frames@[f2v].phys);
        assert(pointer_target(self.arch, e3w) == self.frames@[f2v].phys);
        assert(vpn_index(v, 3) == vpn_index(w, 3)) by {
            if vpn_index(v, 3) != vpn_index(w, 3) {
                assert(self.pointers_injective());
                assert(pointer_target(self.arch, e3v) != pointer_target(self.arch, e3w));
            }
        }
        assert(v == w) by {
            lemma_vpn_from_indices(v, w);
        }
    }

    /// Index of the frame at physical address `a`.
    fn find_frame(&self, a: u64) -> (r: usize)
        requires
            self.wf(),
            self.has_frame(a),
        ensures
            (r as int) == self.idx_of(a),
            (r as int) < self.frames@.len(),
            self.frames@[r as int].phys == a,
    {
        let n = self.frames.len();
        let mut i: usize = 0;
        while i < n
            invariant
                self.wf(),
                self.has_frame(a),
                n == self.frames@.len(),
                i <= n,
                forall|k: int| 0 <= k < i ==> (#[trigger] self.frames@[k]).phys != a,
            decreases n - i,
        {
            if self.frames[i].phys == a {
                proof {
                    self.lemma_idx(a);
                }
                return i;
            }
            i += 1;
        }
        proof {
            // unreachable: the address is held by some frame, which the
            // scan would have found
            self.lemma_idx(a);
            assert(false);
        }
        0
    }

    /// Ensure that the entry at `(fi, j)` points to a child table frame,
    /// allocating and installing a fresh zeroed frame when the entry is
    /// absent, and return the child's frame index.
    fn ensure_table(&mut self, fi: usize, j: usize) -> (r: Result<usize, MapError>)
        requires
            old(self).wf(),
            (fi as int) < old(self).frames@.len(),
            old(self).levels@[fi as int] >= 1,
            j < TABLE_ENTRIES,
        ensures
            final(self).arch == old(self).arch,
            final(self).wf(),
            final(self).frames@.len() >= old(self).frames@.len(),
            forall|i: int| 0 <= i < old(self).frames@.len()
                ==> #[trigger] final(self).levels@[i] == old(self).levels@[i],
            forall|i: int| 0 <= i < old(self).frames@.len()
                ==> (#[trigger] final(self).frames@[i]).phys == old(self).frames@[i].phys,
            forall|i: int| 0 <= i < old(self).frames@.len() && i != fi as int
                ==> (#[trigger] final(self).frames@[i]).entries@ == old(self).frames@[i].entries@,
            forall|j2: int| 0 <= j2 < TABLE_ENTRIES && j2 != j as int
                ==> #[trigger] final(self).frames@[fi as int].entries@[j2]
                    == old(self).frames@[fi as int].entries@[j2],
            forall|v: u64| #[trigger] final(self).resolve(v) == old(self).resolve(v),
            final(self).free@.len() <= old(self).free@.len(),
            final(self).free@ == old(self).free@.subrange(0, final(self).free@.len() as int),
            old(self).free@.len() - final(self).free@.len() <= 1,
            match r {
                Ok(ci) => {
                    &&& (ci as int) < final(self).frames@.len()
                    &&& final(self).levels@[ci as int] == old(self).levels@[fi as int] - 1
                    &&& final(self).child_of(fi as int, j as int) == Some(ci as int)
                    &&& (pte_present(old(self).frames@[fi as int].entries@[j as int]) ==> {
                        &&& final(self).frames_view() == old(self).frames_view()
                        &&& final(self).free@ == old(self).free@
                        &&& final(self).levels@ == old(self).levels@
                    })
                },
                Err(e) => {
                    &&& e == MapError::OutOfMemory
                    &&& old(self).free@.len() == 0
                    &&& final(self).frames_view() == old(self).frames_view()
                    &&& final(self).free@ == old(self).free@
                    &&& final(self).levels@ == old(self).levels@
                },
            },
    {
        proof {
            Self::lemma_entry_kinds(self.arch);
            assert(old(self).frame_ok(fi as int));
            assert(old(self).free@.subrange(0, old(self).free@.len() as int)
                =~= old(self).free@);
        }
        let e = self.frames[fi].entries[j];
        if e & 1 == 1 {
            proof {
                assert(pte_present(e));
                assert(self.entry_ok(fi as int, j as int));
            }
            let target = match self.arch {
                Arch::X86_64 => e & 0x000F_FFFF_FFFF_F000,
                Arch::Riscv64 => (e >> 10) << 12,
            };
            proof {
                assert(target == pointer_target(self.arch, e));
            }
            let ci = self.find_frame(target);
            Ok(ci)
        } else {
            proof {
                assert(!pte_present(e));
            }
            let ghost s0 = *old(self);
            match self.free.pop() {
                None => {
                    proof {
                        assert(frames_pointwise_eq(*old(self), *self));
                        old(self).lemma_same_views(*self);
                    }
                    Err(MapError::OutOfMemory)
                },
                Some(pa) => {
                    let entries = zeroed_frame();
                    self.frames.push(Frame { phys: pa, entries });
                    let ghost lv = s0.levels@[fi as int] - 1;
                    self.levels = Ghost(self.levels@.push(lv));
                    let ghost s1 = *self;
                    proof {
                        assert(s1.free@ =~= s0.free@.drop_last());
                        assert forall|k: int| 0 <= k < s1.free@.len()
                            implies (#[trigger] s1.free@[k]) % 4096 == 0
                                && s1.free@[k] < MAX_FRAME_ADDR by {
                            assert(s0.free@[k] % 4096 == 0 && s0.free@[k] < MAX_FRAME_ADDR);
                        }
                        assert forall|k: int, k2: int| 0 <= k < k2 < s1.free@.len()
                            implies s1.free@[k] != s1.free@[k2] by {
                            assert(s0.free@[k] != s0.free@[k2]);
                        }
                        assert forall|k: int, i: int|
                            0 <= k < s1.free@.len() && 0 <= i < s1.frames@.len()
                            implies (#[trigger] s1.free@[k]) != (#[trigger] s1.frames@[i]).phys by {
                            if i < s0.frames@.len() {
                                assert(s0.free@[k] != s0.frames@[i].phys);
                            } else {
                                assert(s1.frames@[i].phys == s0.free@[s0.free@.len() - 1]);
                                assert(s0.free@[k] != s0.free@[s0.free@.len() - 1]);
                            }
                        }
                        assert(pa % 4096 == 0 && pa < MAX_FRAME_ADDR);
                        assert forall|k: int| 0 <= k < s0.frames@.len()
                            implies s1.frames@.last().phys != (#[trigger] s0.frames@[k]).phys by {
                            assert(s0.free@[s0.free@.len() - 1] != s0.frames@[k].phys);
                        }
                        s0.lemma_extend(s1, lv);
                    }
                    let ci = self.frames.len() - 1;
                    let pte = match self.arch {
                        Arch::X86_64 => pa | 3,
                        Arch::Riscv64 => ((pa >> 12) << 10) | 1,
                    };
                    self.frames[fi].entries.set(j, pte);
                    let ghost s2 = *self;
                    proof {
                        assert(pte == pointer_pte(s1.arch, s1.frames@[ci as int].phys));
                        assert(s2.frames@[fi as int].entries@
                            == s1.frames@[fi as int].entries@.update(j as int, pte));
                        assert forall|i: int, j2: int|
                            0 <= i < s1.frames@.len() && s1.levels@[i] >= 1
                            && 0 <= j2 < TABLE_ENTRIES
                            && pte_present(#[trigger] s1.frames@[i].entries@[j2])
                            implies pointer_target(s1.arch, s1.frames@[i].entries@[j2])
                                != s1.frames@[ci as int].phys by {
                            if i < s0.frames@.len() {
                                assert(pte_present(s0.frames@[i].entries@[j2]));
                            } else {
                                assert(s1.frames@[i].entries@[j2] == 0u64);
                            }
                        }
                        s1.lemma_install(s2, fi as int, j as int, ci as int);
                        assert(s2.free@ == s0.free@.subrange(0, s2.free@.len() as int));
                    }
                    Ok(ci)
                },
            }
        }
    }

    /// Map the single 4 KiB page at `virt` to `phys`, walking the four
    /// levels and allocating missing intermediate tables from the pool.
    fn map_4k_page(&mut self, virt: u64, phys: u64, flags: PageFlags) -> (r: Result<(), MapError>)
        requires
            old(self).wf(),
            !(flags.writable && flags.executable),
        ensures
            final(self).arch == old(self).arch,
            final(self).wf(),
            final(self).frames@.len() >= old(self).frames@.len(),
            forall|i: int| 0 <= i < old(self).frames@.len()
                ==> (#[trigger] final(self).frames@[i]).phys == old(self).frames@[i].phys,
            final(self).free@.len() <= old(self).free@.len(),
            final(self).free@ == old(self).free@.subrange(0, final(self).free@.len() as int),
            old(self).free@.len() - final(self).free@.len() <= 3,
            match r {
                Ok(()) => {
                    &&& forall|v: u64| v < VPN_COUNT
                        ==> #[trigger] final(self).resolve(v) == (if v == vpn(virt) {
                            Some(leaf_pte(old(self).arch, phys, flags))
                        } else {
                            old(self).resolve(v)
                        })
                    &&& (old(self).resolve(vpn(virt))
                            == Some(leaf_pte(old(self).arch, phys, flags)) ==> {
                        &&& final(self).frames_view() == old(self).frames_view()
                        &&& final(self).free@ == old(self).free@
                        &&& final(self).levels@ == old(self).levels@
                    })
                },
                Err(e) => {
                    &&& e == MapError::OutOfMemory
                    &&& old(self).free@.len() < 3
                },
            },
    {
        let ghost s0 = *old(self);
        let ghost v0 = vpn(virt);
        let i4 = ((virt >> 39) & 0x1FF) as usize;
        let i3 = ((virt >> 30) & 0x1FF) as usize;
        let i2 = ((virt >> 21) & 0x1FF) as usize;
        let i1 = ((virt >> 12) & 0x1FF) as usize;
        proof {
            lemma_virt_indices(virt);
            lemma_vpn_index_bounds(v0);
            Self::lemma_entry_kinds(s0.arch);
        }
        let f2 = match self.ensure_table(0, i4) {
            Ok(f) => f,
            Err(e) => {
                return Err(e);
            },
        };
        proof {
            assert(s0.frame_ok(0));
        }
        let ghost s1 = *self;
        let f1 = match self.ensure_table(f2, i3) {
            Ok(f) => f,
            Err(e) => {
                proof {
                    lemma_subrange_chain(s0.free@, s1.free@, self.free@);
                }
                return Err(e);
            },
        };
        let ghost s2 = *self;
        proof {
            assert(s1.levels@[0] == 3 && s1.levels@[f2 as int] == 2);
            s1.lemma_child_stable(s2, 0, i4 as int);
            assert(s2.child_of(0, i4 as int) == Some(f2 as int));
        }
        let f0 = match self.ensure_table(f1, i2) {
            Ok(f) => f,
            Err(e) => {
                proof {
                    lemma_subrange_chain(s0.free@, s1.free@, s2.free@);
                    lemma_subrange_chain(s0.free@, s2.free@, self.free@);
                }
                return Err(e);
            },
        };
        let ghost s3 = *self;
        proof {
            assert(s2.levels@[f1 as int] == 1);
            s2.lemma_child_stable(s3, 0, i4 as int);
            s2.lemma_child_stable(s3, f2 as int, i3 as int);
            assert(s3.child_of(0, i4 as int) == Some(f2 as int));
            assert(s3.child_of(f2 as int, i3 as int) == Some(f1 as int));
            assert(s3.walk2(v0) == Some(f2 as int));
            assert(s3.walk1(v0) == Some(f1 as int));
            assert(s3.walk0(v0) == Some(f0 as int));
            assert(s3.levels@[f0 as int] == 0);
        }
        let pte = match self.arch {
            Arch::X86_64 => 1u64 | (phys & 0x000F_FFFF_FFFF_F000)
                | (if flags.writable { 2u64 } else { 0u64 })
                | (if flags.executable { 0u64 } else { 0x8000_0000_0000_0000u64 }),
            Arch::Riscv64 => 0x43u64 | ((phys >> 12) << 10)
                | (if flags.writable { 0x84u64 } else { 0u64 })
                | (if flags.executable { 8u64 } else { 0u64 }),
        };
        proof {
            assert(pte == leaf_pte(s0.arch, phys, flags));
            assert(s3.frame_ok(f0 as int));
        }
        self.frames[f0].entries.set(i1, pte);
        proof {
            let s4 = *self;
            s3.lemma_leaf_write(s4, f0 as int, i1 as int, pte);
            lemma_leaf_is_leaf(s0.arch, phys, flags);
            // the new leaf is read back at exactly v0
            assert(s4.resolve(v0) == Some(pte));
            assert forall|v: u64| v < VPN_COUNT
                implies #[trigger] s4.resolve(v) == (if v == v0 {
                    Some(leaf_pte(s0.arch, phys, flags))
                } else {
                    s0.resolve(v)
                }) by {
                if v != v0 {
                    if s3.walk0(v) == Some(f0 as int) && vpn_index(v, 0) == i1 {
                        s3.lemma_path_unique(v, v0);
                        assert(false);
                    }
                    assert(s4.resolve(v) == s3.resolve(v));
                    assert(s3.resolve(v) == s0.resolve(v));
                }
            }
            // chained pool accounting
            lemma_subrange_chain(s0.free@, s1.free@, s2.free@);
            lemma_subrange_chain(s0.free@, s2.free@, s3.free@);
            assert(self.free@ == s3.free@);
            // a second identical mapping changes nothing
            if s0.resolve(v0) == Some(leaf_pte(s0.arch, phys, flags)) {
                assert(pte_present(s0.frames@[0].entries@[i4 as int]));
                assert(s1.frames_view() == s0.frames_view() && s1.free@ == s0.free@
                    && s1.levels@ == s0.levels@);
                assert(s1.frames@[f2 as int].entries@[i3 as int]
                    == s0.frames@[f2 as int].entries@[i3 as int]);
                assert(s1.resolve(v0) == s0.resolve(v0));
                assert(s1.walk2(v0) == Some(f2 as int));
                assert(pte_present(s1.frames@[f2 as int].entries@[i3 as int]));
                assert(s2.frames_view() == s0.frames_view() && s2.free@ == s0.free@
                    && s2.levels@ == s0.levels@);
                assert(s2.resolve(v0) == s0.resolve(v0));
                assert(s2.walk1(v0) == Some(f1 as int));
                assert(pte_present(s2.frames@[f1 as int].entries@[i2 as int]));
                assert(s3.frames_view() == s0.frames_view() && s3.free@ == s0.free@
                    && s3.levels@ == s0.levels@);
                assert(s3.resolve(v0) == s0.resolve(v0));
                assert(s3.frames@[f0 as int].entries@[i1 as int] == pte);
                assert(s4.frames@[f0 as int].entries@
                    =~= s3.frames@[f0 as int].entries@);
                assert(s4.frames_view() =~= s3.frames_view());
            }
        }
        Ok(())
    }
}

/// Number of 4 KiB pages needed to cover `size` bytes: the byte count
/// rounded up to page granularity.
pub open spec fn npages_spec(size: u64) -> int {
    (size as int + 4095) / 4096
}

/// What a successful [`PageTables::map`] call promises: the builder stays
/// well formed, frames still come only from the pool it started with, every page
/// of the range resolves to its exact leaf entry while all other page
/// numbers resolve as before, and a call whose whole range was already
/// mapped with identical leaves changes nothing at all.
pub open spec fn map_ok_post(
    pre: PageTables,
    post: PageTables,
    virt: u64,
    phys: u64,
    size: u64,
    flags: PageFlags,
) -> bool {
    &&& post.arch == pre.arch
    &&& post.wf()
    &&& post.free@.len() <= pre.free@.len()
    &&& post.free@ == pre.free@.subrange(0, post.free@.len() as int)
    &&& pre.free@.len() - post.free@.len() <= 3 * npages_spec(size)
    &&& forall|v: u64| v < VPN_COUNT
            ==> #[trigger] post.resolve(v) == (if vpn(virt) <= v < vpn(virt) + npages_spec(size) {
                Some(leaf_pte(pre.arch, ((phys + (v - vpn(virt)) * 4096) as u64), flags))
            } else {
                pre.resolve(v)
            })
    &&& ((forall|k: int| 0 <= k < npages_spec(size)
            ==> #[trigger] pre.resolve((vpn(virt) + k) as u64)
                == Some(leaf_pte(pre.arch, ((phys + k * 4096) as u64), flags)))
        ==> post.frames_view() == pre.frames_view() && post.free@ == pre.free@
            && post.levels@ == pre.levels@)
}

impl PageTables {
    /// Map the virtual range `[virt, virt+size)` to `[phys, phys+size)`
    /// with 4 KiB leaves, rounding `size` up to page granularity.
    ///
    /// Rejects flags that are both writable and executable before touching
    /// any table; fails with `OutOfMemory` only when the pool cannot cover
    /// the walk, never after holding three spare frames per page.
    pub fn map(&mut self, virt: u64, phys: u64, size: u64, flags: PageFlags) -> (r: Result<
        (),
        MapError,
    >)
        requires
            old(self).wf(),
            size <= u64::MAX - 4095,
            phys as int + 4096 * npages_spec(size) <= 0x1_0000_0000_0000_0000,
            vpn(virt) + npages_spec(size) <= VPN_COUNT,
        ensures
            final(self).arch == old(self).arch,
            final(self).wf(),
            final(self).frames@.len() >= old(self).frames@.len(),
            forall|i: int| 0 <= i < old(self).frames@.len()
                ==> (#[trigger] final(self).frames@[i]).phys == old(self).frames@[i].phys,
            final(self).free@.len() <= old(self).free@.len(),
            final(self).free@ == old(self).free@.subrange(0, final(self).free@.len() as int),
            match r {
                Ok(()) => map_ok_post(*old(self), *final(self), virt, phys, size, flags),
                Err(MapError::WxViolation) => {
                    &&& flags.writable && flags.executable
                    &&& final(self).frames_view() == old(self).frames_view()
                    &&& final(self).free@ == old(self).free@
                    &&& final(self).levels@ == old(self).levels@
                },
                Err(MapError::OutOfMemory) => {
                    &&& !(flags.writable && flags.executable)
                    &&& old(self).free@.len() < 3 * npages_spec(size)
                },
            },
    {
        if flags.writable && flags.executable {
            return Err(MapError::WxViolation);
        }
        let ghost pre = *old(self);
        let pages: u64 = (size + 4095) / 4096;
        proof {
            assert(pages as int == npages_spec(size));
        }
        let mut i: u64 = 0;
        let mut offset: u64 = 0;
        while i < pages
            invariant
                pre == *old(self),
                self.wf(),
                self.arch == pre.arch,
                pre.wf(),
                self.frames@.len() >= pre.frames@.len(),
                forall|q: int| 0 <= q < pre.frames@.len()
                    ==> (#[trigger] self.frames@[q]).phys == pre.frames@[q].phys,
                i <= pages,
                offset == i * 4096,
                pages as int == npages_spec(size),
                !(flags.writable && flags.executable),
                phys as int + 4096 * (pages as int) <= 0x1_0000_0000_0000_0000,
                vpn(virt) + pages <= VPN_COUNT,
                self.free@.len() <= pre.free@.len(),
                self.free@ == pre.free@.subrange(0, self.free@.len() as int),
                pre.free@.len() - self.free@.len() <= 3 * i,
                forall|v: u64| v < VPN_COUNT
                    ==> #[trigger] self.resolve(v) == (if vpn(virt) <= v < vpn(virt) + i {
                        Some(leaf_pte(pre.arch, ((phys + (v - vpn(virt)) * 4096) as u64), flags))
                    } else {
                        pre.resolve(v)
                    }),
                (forall|k: int| 0 <= k < pages
                    ==> #[trigger] pre.resolve((vpn(virt) + k) as u64)
                        == Some(leaf_pte(pre.arch, ((phys + k * 4096) as u64), flags)))
                    ==> self.frames_view() == pre.frames_view() && self.free@ == pre.free@
                        && self.levels@ == pre.levels@,
            decreases pages - i,
        {
            proof {
                lemma_vpn_step(virt, i);
                assert(offset == (i << 12));
            }
            let ghost prev = *self;
            let r = self.map_4k_page(virt + offset, phys + offset, flags);
            match r {
                Ok(()) => {},
                Err(e) => {
                    proof {
                        lemma_subrange_chain(pre.free@, prev.free@, self.free@);
                        assert(e == MapError::OutOfMemory);
                        assert(pre.free@.len() < 3 * (i + 1));
                    }
                    return Err(MapError::OutOfMemory);
                },
            }
            proof {
                assert(vpn((virt + offset) as u64) == vpn(virt) + i);
                lemma_subrange_chain(pre.free@, prev.free@, self.free@);
                let varch = pre.arch;
                assert forall|v: u64| v < VPN_COUNT
                    implies #[trigger] self.resolve(v) == (if vpn(virt) <= v < vpn(virt) + (i + 1) {
                        Some(leaf_pte(varch, ((phys + (v - vpn(virt)) * 4096) as u64), flags))
                    } else {
                        pre.resolve(v)
                    }) by {
                    if v == vpn(virt) + i {
                        assert(self.resolve(v) == Some(leaf_pte(varch, (phys + offset) as u64, flags)));
                        assert((phys + offset) as u64 == (phys + (v - vpn(virt)) * 4096) as u64);
                    } else {
                        assert(self.resolve(v) == prev.resolve(v));
                    }
                }
                if forall|k: int| 0 <= k < pages
                    ==> #[trigger] pre.resolve((vpn(virt) + k) as u64)
                        == Some(leaf_pte(varch, ((phys + k * 4096) as u64), flags)) {
                    assert(pre.resolve((vpn(virt) + i) as u64)
                        == Some(leaf_pte(varch, ((phys + i * 4096) as u64), flags)));
                    assert(prev.resolve((vpn(virt) + i) as u64)
                        == pre.resolve((vpn(virt) + i) as u64));
                    assert(prev.resolve(vpn((virt + offset) as u64))
                        == Some(leaf_pte(varch, (phys + offset) as u64, flags)));
                }
            }
            i = i + 1;
            offset = offset + 4096;
        }
        proof {
            assert(map_ok_post(pre, *self, virt, phys, size, flags));
        }
        Ok(())
    }

    /// Walk the finished tables for `virt` and return the raw leaf entry
    /// that maps its page, if any: the executable twin of `resolve`.
    pub fn lookup(&self, virt: u64) -> (r: Option<u64>)
        requires
            self.wf(),
        ensures
            r == self.resolve(vpn(virt)),
    {
        let ghost v0 = vpn(virt);
        let i4 = ((virt >> 39) & 0x1FF) as usize;
        let i3 = ((virt >> 30) & 0x1FF) as usize;
        let i2 = ((virt >> 21) & 0x1FF) as usize;
        let i1 = ((virt >> 12) & 0x1FF) as usize;
        proof {
            lemma_virt_indices(virt);
            lemma_vpn_index_bounds(v0);
            Self::lemma_entry_kinds(self.arch);
            assert(self.frame_ok(0));
        }
        let e3 = self.frames[0].entries[i4];
        if !self.is_pointer_entry(e3) {
            return None;
        }
        proof {
            assert(self.entry_ok(0, i4 as int));
        }
        let f2 = self.find_frame(self.pointer_target_of(e3));
        proof {
            assert(self.walk2(v0) == Some(f2 as int));
            assert(self.levels@[f2 as int] == 2);
            assert(self.frame_ok(f2 as int));
        }
        let e2 = self.frames[f2].entries[i3];
        if !self.is_pointer_entry(e2) {
            return None;
        }
        proof {
            assert(self.entry_ok(f2 as int, i3 as int));
        }
        let f1 = self.find_frame(self.pointer_target_of(e2));
        proof {
            assert(self.walk1(v0) == Some(f1 as int));
            assert(self.levels@[f1 as int] == 1);
            assert(self.frame_ok(f1 as int));
        }
        let e1 = self.frames[f1].entries[i2];
        if !self.is_pointer_entry(e1) {
            return None;
        }
        proof {
            assert(self.entry_ok(f1 as int, i2 as int));
        }
        let f0 = self.find_frame(self.pointer_target_of(e1));
        proof {
            assert(self.walk0(v0) == Some(f0 as int));
            assert(self.frame_ok(f0 as int));
        }
        let e0 = self.frames[f0].entries[i1];
        let leaf = match self.arch {
            Arch::X86_64 => e0 & 1 == 1,
            Arch::Riscv64 => e0 & 1 == 1 && e0 & 0xe != 0,
        };
        if leaf {
            Some(e0)
        } else {
            None
        }
    }

    /// Whether `e` is a pointer to a next-level table, in this builder's
    /// encoding.
    fn is_pointer_entry(&self, e: u64) -> (r: bool)
        ensures
            r == is_pointer(self.arch, e),
    {
        match self.arch {
            Arch::X86_64 => e & 1 == 1 && e & 0x80 == 0,
            Arch::Riscv64 => e & 1 == 1 && e & 0xe == 0,
        }
    }

    /// The child-table physical address a pointer entry names, in this
    /// builder's encoding.
    fn pointer_target_of(&self, e: u64) -> (r: u64)
        ensures
            r == pointer_target(self.arch, e),
    {
        match self.arch {
            Arch::X86_64 => e & 0x000F_FFFF_FFFF_F000,
            Arch::Riscv64 => (e >> 10) << 12,
        }
    }
}

/// Mapping the same `(virt, phys, size, flags)` twice leaves the tables of
/// the first call untouched: the second call writes identical leaf bits
/// and allocates no further intermediate frames.
pub proof fn lemma_map_idempotent(
    pre: PageTables,
    mid: PageTables,
    post: PageTables,
    virt: u64,
    phys: u64,
    size: u64,
    flags: PageFlags,
)
    requires
        vpn(virt) + npages_spec(size) <= VPN_COUNT,
        map_ok_post(pre, mid, virt, phys, size, flags),
        map_ok_post(mid, post, virt, phys, size, flags),
    ensures
        post.frames_view() == mid.frames_view(),
        post.free@ == mid.free@,
        post.levels@ == mid.levels@,
{
    assert forall|k: int| 0 <= k < npages_spec(size)
        implies #[trigger] mid.resolve((vpn(virt) + k) as u64)
            == Some(leaf_pte(mid.arch, ((phys + k * 4096) as u64), flags)) by {
        let v = (vpn(virt) + k) as u64;
        assert(v < VPN_COUNT);
        assert(mid.resolve(v) == Some(leaf_pte(pre.arch, ((phys + (v - vpn(virt)) * 4096) as u64), flags)));
        assert((v - vpn(virt)) == k);
    }
}

// ── The builder trait ────────────────────────────────────────────────────

/// Architecture-specific page-table builder for the initial kernel
/// mapping.
///
/// Implementors wrap [`PageTables`] with their architecture fixed, so
/// every implementation enforces W^X and satisfies [`map_ok_post`]
/// through the shared engine. All frames come from the pool handed to
/// `new`, before `ExitBootServices`.
pub trait PageTableBuilder: Sized {
    /// The underlying architecture-neutral tables.
    spec fn tables(&self) -> PageTables;

    /// The page-table format this builder produces.
    spec fn arch_of() -> Arch;

    /// Allocate a new, empty root table from the end of `pool`. Returns
    /// `None` exactly when the pool is empty.
    fn new(pool: Vec<u64>) -> (r: Option<Self>)
        requires
            pool_wf(pool@),
        ensures
            match r {
                Some(t) => {
                    &&& pool@.len() >= 1
                    &&& t.tables().wf()
                    &&& t.tables().arch == Self::arch_of()
                    &&& t.tables().num_frames() == 1
                    &&& t.tables().root_phys_spec() == pool@.last()
                    &&& t.tables().free@ == pool@.drop_last()
                    &&& forall|v: u64| #[trigger] t.tables().resolve(v) is None
                },
                None => pool@.len() == 0,
            },
    ;

    /// Map the virtual range `[virt, virt+size)` to `[phys, phys+size)`,
    /// rounding `size` up to page granularity. Rejects writable and
    /// executable flags together without modifying any table.
    fn map(&mut self, virt: u64, phys: u64, size: u64, flags: PageFlags) -> (r: Result<
        (),
        MapError,
    >)
        requires
            old(self).tables().wf(),
            size <= u64::MAX - 4095,
            phys as int + 4096 * npages_spec(size) <= 0x1_0000_0000_0000_0000,
            vpn(virt) + npages_spec(size) <= VPN_COUNT,
        ensures
            final(self).tables().arch == old(self).tables().arch,
            final(self).tables().wf(),
            match r {
                Ok(()) => map_ok_post(
                    old(self).tables(),
                    final(self).tables(),
                    virt,
                    phys,
                    size,
                    flags,
                ),
                Err(MapError::WxViolation) => {
                    &&& flags.writable && flags.executable
                    &&& final(self).tables().frames_view() == old(self).tables().frames_view()
                    &&& final(self).tables().free@ == old(self).tables().free@
                },
                Err(MapError::OutOfMemory) => {
                    &&& !(flags.writable && flags.executable)
                    &&& old(self).tables().free@.len() < 3 * npages_spec(size)
                },
            },
    ;

    /// Physical address of the root table frame: the CR3 value on x86-64,
    /// the PPN source of `satp` on RISC-V.
    fn root_physical(&self) -> (r: u64)
        requires
            self.tables().wf(),
        ensures
            r == self.tables().root_phys_spec(),
    ;
}

// ── Initial-table construction ───────────────────────────────────────────

/// Convert a [`MapError`] to a [`BootError`].
pub fn map_err(e: MapError) -> (r: BootError)
    ensures
        r == match e {
            MapError::OutOfMemory => BootError::OutOfMemory,
            MapError::WxViolation => BootError::WxViolation,
        },
{
    match e {
        MapError::OutOfMemory => BootError::OutOfMemory,
        MapError::WxViolation => BootError::WxViolation,
    }
}

/// The leaf a kernel segment installs for virtual page `v`, if `v` lies in
/// the segment's range: the segment's own permissions, page by page.
pub open spec fn seg_leaf_at(arch: Arch, seg: crate::elf::LoadedSegment, v: u64) -> Option<u64> {
    if vpn(seg.virt_base) <= v < vpn(seg.virt_base) + npages_spec(seg.size) {
        Some(leaf_pte(
            arch,
            ((seg.phys_base + (v - vpn(seg.virt_base)) * 4096) as u64),
            PageFlags { writable: seg.writable, executable: seg.executable },
        ))
    } else {
        None
    }
}

/// The leaf an identity region installs for virtual page `v`, if `v` lies
/// in the region: read-write, never executable.
pub open spec fn region_leaf_at(arch: Arch, region: (u64, u64), v: u64) -> Option<u64> {
    if vpn(region.0) <= v < vpn(region.0) + npages_spec(region.1) {
        Some(leaf_pte(
            arch,
            ((region.0 + (v - vpn(region.0)) * 4096) as u64),
            PageFlags { writable: true, executable: false },
        ))
    } else {
        None
    }
}

/// The leaf for `v` after mapping the kernel segments in order: the last
/// segment covering `v` wins.
pub open spec fn expected_segs(
    arch: Arch,
    segs: Seq<crate::elf::LoadedSegment>,
    v: u64,
) -> Option<u64>
    decreases segs.len(),
{
    if segs.len() == 0 {
        None
    } else {
        match seg_leaf_at(arch, segs.last(), v) {
            Some(e) => Some(e),
            None => expected_segs(arch, segs.drop_last(), v),
        }
    }
}

/// The leaf for `v` after mapping the kernel segments and then the
/// identity regions in order.
pub open spec fn expected_tables(
    arch: Arch,
    segs: Seq<crate::elf::LoadedSegment>,
    regions: Seq<(u64, u64)>,
    v: u64,
) -> Option<u64>
    decreases regions.len(),
{
    if regions.len() == 0 {
        expected_segs(arch, segs, v)
    } else {
        match region_leaf_at(arch, regions.last(), v) {
            Some(e) => Some(e),
            None => expected_tables(arch, segs, regions.drop_last(), v),
        }
    }
}

/// Total pages the kernel segments ask for.
pub open spec fn pages_of_segs(segs: Seq<crate::elf::LoadedSegment>) -> int
    decreases segs.len(),
{
    if segs.len() == 0 {
        0
    } else {
        pages_of_segs(segs.drop_last()) + npages_spec(segs.last().size)
    }
}

/// Total pages the identity regions ask for.
pub open spec fn pages_of_regions(regions: Seq<(u64, u64)>) -> int
    decreases regions.len(),
{
    if regions.len() == 0 {
        0
    } else {
        pages_of_regions(regions.drop_last()) + npages_spec(regions.last().1)
    }
}

/// Page sums grow one element at a time and never shrink.
proof fn lemma_pages_segs_take(segs: Seq<crate::elf::LoadedSegment>, m: int)
    requires
        0 <= m < segs.len(),
    ensures
        pages_of_segs(segs.take(m + 1)) == pages_of_segs(segs.take(m)) + npages_spec(
            segs[m].size,
        ),
{
    assert(segs.take(m + 1).drop_last() =~= segs.take(m));
    assert(segs.take(m + 1).last() == segs[m]);
}

/// A prefix of the segments asks for at most as many pages as all of them.
proof fn lemma_pages_segs_le(segs: Seq<crate::elf::LoadedSegment>, m: int)
    requires
        0 <= m <= segs.len(),
    ensures
        pages_of_segs(segs.take(m)) <= pages_of_segs(segs),
    decreases segs.len() - m,
{
    if m == segs.len() {
        assert(segs.take(m) =~= segs);
    } else {
        lemma_pages_segs_take(segs, m);
        lemma_pages_segs_le(segs, m + 1);
    }
}

/// Page sums over regions grow one element at a time.
proof fn lemma_pages_regions_take(regions: Seq<(u64, u64)>, m: int)
    requires
        0 <= m < regions.len(),
    ensures
        pages_of_regions(regions.take(m + 1)) == pages_of_regions(regions.take(m)) + npages_spec(
            regions[m].1,
        ),
{
    assert(regions.take(m + 1).drop_last() =~= regions.take(m));
    assert(regions.take(m + 1).last() == regions[m]);
}

/// A prefix of the regions asks for at most as many pages as all of them.
proof fn lemma_pages_regions_le(regions: Seq<(u64, u64)>, m: int)
    requires
        0 <= m <= regions.len(),
    ensures
        pages_of_regions(regions.take(m)) <= pages_of_regions(regions),
    decreases regions.len() - m,
{
    if m == regions.len() {
        assert(regions.take(m) =~= regions);
    } else {
        lemma_pages_regions_take(regions, m);
        lemma_pages_regions_le(regions, m + 1);
    }
}

/// No page count is negative.
proof fn lemma_pages_nonneg_segs(segs: Seq<crate::elf::LoadedSegment>)
    ensures
        pages_of_segs(segs) >= 0,
    decreases segs.len(),
{
    if segs.len() > 0 {
        lemma_pages_nonneg_segs(segs.drop_last());
    }
}

/// No page count over regions is negative.
proof fn lemma_pages_nonneg_regions(regions: Seq<(u64, u64)>)
    ensures
        pages_of_regions(regions) >= 0,
    decreases regions.len(),
{
    if regions.len() > 0 {
        lemma_pages_nonneg_regions(regions.drop_last());
    }
}

/// Shifting right by twelve is division by the page size, and a value
/// inside the 48-bit identity window keeps its full page number.
proof fn lemma_shr12(p: u64)
    by (bit_vector)
    ensures
        p >> 12 == p / 4096,
        p < 0x1_0000_0000_0000 ==> ((p >> 12) & 0xF_FFFF_FFFF) == p >> 12,
{
}

/// Build the initial page tables for kernel handoff.
///
/// Maps every kernel ELF segment at its virtual address with its own
/// permissions, then identity-maps each `(physical base, size)` region as
/// read-write, non-executable. The frame pool supplies the root and all
/// intermediate tables; one more frame than the root plus three per
/// mapped page always suffices.
pub fn build_initial_tables(
    arch: Arch,
    pool: Vec<u64>,
    kernel: &KernelInfo,
    identity_regions: &Vec<(u64, u64)>,
) -> (r: Result<PageTables, BootError>)
    requires
        pool_wf(pool@),
        forall|i: int| 0 <= i < kernel.segments@.len() ==> {
            let seg = #[trigger] kernel.segments@[i];
            &&& seg.size <= u64::MAX - 4095
            &&& seg.phys_base as int + 4096 * npages_spec(seg.size) <= 0x1_0000_0000_0000_0000
            &&& vpn(seg.virt_base) + npages_spec(seg.size) <= VPN_COUNT
            &&& !(seg.writable && seg.executable)
        },
        forall|j: int| 0 <= j < identity_regions@.len() ==> {
            &&& (#[trigger] identity_regions@[j]).1 <= u64::MAX - 4095
            &&& identity_regions@[j].0 as int + 4096 * npages_spec(identity_regions@[j].1)
                <= 0x1_0000_0000_0000
        },
    ensures
        match r {
            Ok(t) => {
                &&& t.wf()
                &&& t.arch == arch
                &&& pool@.len() >= 1
                &&& t.root_phys_spec() == pool@.last()
                &&& forall|v: u64| v < VPN_COUNT ==> #[trigger] t.resolve(v) == expected_tables(
                    arch,
                    kernel.segments@,
                    identity_regions@,
                    v,
                )
            },
            Err(e) => {
                &&& e == BootError::OutOfMemory
                &&& pool@.len() < 1 + 3 * (pages_of_segs(kernel.segments@) + pages_of_regions(
                    identity_regions@,
                ))
            },
        },
{
    let ghost segs = kernel.segments@;
    let ghost regs = identity_regions@;
    let ghost pool0 = pool@;
    proof {
        lemma_pages_nonneg_segs(segs);
        lemma_pages_nonneg_regions(regs);
    }
    let mut table = match PageTables::new(arch, pool) {
        Some(t) => t,
        None => {
            return Err(BootError::OutOfMemory);
        },
    };
    let ghost fresh = table;
    proof {
        assert forall|v: u64| v < VPN_COUNT implies #[trigger] table.resolve(v) == expected_segs(
            arch,
            segs.take(0),
            v,
        ) by {
            assert(segs.take(0).len() == 0);
        }
    }
    let mut m: usize = 0;
    let n = kernel.segments.len();
    while m < n
        invariant
            table.wf(),
            table.arch == arch,
            m <= n,
            n == segs.len(),
            segs == kernel.segments@,
            regs == identity_regions@,
            forall|i: int| 0 <= i < segs.len() ==> {
                let seg = #[trigger] segs[i];
                &&& seg.size <= u64::MAX - 4095
                &&& seg.phys_base as int + 4096 * npages_spec(seg.size) <= 0x1_0000_0000_0000_0000
                &&& vpn(seg.virt_base) + npages_spec(seg.size) <= VPN_COUNT
                &&& !(seg.writable && seg.executable)
            },
            pool0 == pool@,
            pool0.len() >= 1,
            fresh.free@.len() == pool0.len() - 1,
            fresh.frames@[0].phys == pool0.last(),
            fresh.frames@.len() >= 1,
            table.frames@.len() >= 1,
            table.frames@[0].phys == fresh.frames@[0].phys,
            table.free@.len() <= fresh.free@.len(),
            fresh.free@.len() - table.free@.len() <= 3 * pages_of_segs(segs.take(m as int)),
            forall|v: u64| v < VPN_COUNT ==> #[trigger] table.resolve(v) == expected_segs(
                arch,
                segs.take(m as int),
                v,
            ),
        decreases n - m,
    {
        let seg = &kernel.segments[m];
        let ghost before = table;
        let flags = PageFlags { writable: seg.writable, executable: seg.executable };
        let r = table.map(seg.virt_base, seg.phys_base, seg.size, flags);
        proof {
            lemma_pages_segs_take(segs, m as int);
        }
        match r {
            Ok(()) => {},
            Err(e) => {
                proof {
                    assert(e == MapError::OutOfMemory);
                    assert(before.free@.len() < 3 * npages_spec(seg.size));
                    lemma_pages_segs_le(segs, m as int + 1);
                    lemma_pages_nonneg_regions(regs);
                    assert(pool0.len() < 1 + 3 * pages_of_segs(segs.take(m as int + 1)));
                }
                return Err(map_err(e));
            },
        }
        proof {
            assert forall|v: u64| v < VPN_COUNT implies #[trigger] table.resolve(v)
                == expected_segs(arch, segs.take(m as int + 1), v) by {
                assert(segs.take(m as int + 1).drop_last() =~= segs.take(m as int));
                assert(segs.take(m as int + 1).last() == segs[m as int]);
                assert(table.resolve(v) == (if vpn(seg.virt_base) <= v < vpn(seg.virt_base)
                    + npages_spec(seg.size) {
                    Some(leaf_pte(
                        arch,
                        ((seg.phys_base + (v - vpn(seg.virt_base)) * 4096) as u64),
                        flags,
                    ))
                } else {
                    before.resolve(v)
                }));
            }
        }
        m += 1;
    }
    proof {
        assert(segs.take(n as int) =~= segs);
        assert forall|v: u64| v < VPN_COUNT implies #[trigger] table.resolve(v) == expected_tables(
            arch,
            segs,
            regs.take(0),
            v,
        ) by {
            assert(regs.take(0).len() == 0);
        }
    }
    let mut j: usize = 0;
    let nr = identity_regions.len();
    while j < nr
        invariant
            table.wf(),
            table.arch == arch,
            j <= nr,
            nr == regs.len(),
            segs == kernel.segments@,
            regs == identity_regions@,
            forall|k: int| 0 <= k < regs.len()
                ==> (#[trigger] regs[k]).0 as int + 4096 * npages_spec(regs[k].1)
                    <= 0x1_0000_0000_0000,
            pool0 == pool@,
            pool0.len() >= 1,
            fresh.free@.len() == pool0.len() - 1,
            fresh.frames@[0].phys == pool0.last(),
            fresh.frames@.len() >= 1,
            table.frames@.len() >= 1,
            table.frames@[0].phys == fresh.frames@[0].phys,
            table.free@.len() <= fresh.free@.len(),
            fresh.free@.len() - table.free@.len() <= 3 * (pages_of_segs(segs) + pages_of_regions(
                regs.take(j as int),
            )),
            forall|v: u64| v < VPN_COUNT ==> #[trigger] table.resolve(v) == expected_tables(
                arch,
                segs,
                regs.take(j as int),
                v,
            ),
        decreases nr - j,
    {
        let (rphys, rsize) = identity_regions[j];
        let ghost before = table;
        let flags = PageFlags { writable: true, executable: false };
        proof {
            lemma_shr12(rphys);
            lemma_virt_indices(rphys);
            lemma_pages_nonneg_regions(regs.take(j as int));
            lemma_pages_nonneg_segs(segs);
            assert(vpn(rphys) + npages_spec(rsize) <= VPN_COUNT) by {
                let np = npages_spec(rsize);
                assert(np >= 0);
                if np > 0 {
                    assert(rphys < 0x1_0000_0000_0000);
                    assert(vpn(rphys) == rphys as int / 4096);
                    vstd::arithmetic::div_mod::lemma_fundamental_div_mod(rphys as int, 4096);
                    assert(4096 * (rphys as int / 4096) <= rphys as int);
                    assert(4096 * (vpn(rphys) + np) <= 0x1_0000_0000_0000);
                } else {
                    assert(vpn(rphys) < VPN_COUNT);
                }
            }
        }
        let r = table.map(rphys, rphys, rsize, flags);
        proof {
            lemma_pages_regions_take(regs, j as int);
        }
        match r {
            Ok(()) => {},
            Err(e) => {
                proof {
                    assert(e == MapError::OutOfMemory);
                    assert(before.free@.len() < 3 * npages_spec(rsize));
                    lemma_pages_regions_le(regs, j as int + 1);
                    assert(pool0.len() < 1 + 3 * (pages_of_segs(segs) + pages_of_regions(
                        regs.take(j as int + 1),
                    )));
                }
                return Err(map_err(e));
            },
        }
        proof {
            assert forall|v: u64| v < VPN_COUNT implies #[trigger] table.resolve(v)
                == expected_tables(arch, segs, regs.take(j as int + 1), v) by {
                assert(regs.take(j as int + 1).drop_last() =~= regs.take(j as int));
                assert(regs.take(j as int + 1).last() == regs[j as int]);
                assert(table.resolve(v) == (if vpn(rphys) <= v < vpn(rphys) + npages_spec(rsize) {
                    Some(leaf_pte(arch, ((rphys + (v - vpn(rphys)) * 4096) as u64), flags))
                } else {
                    before.resolve(v)
                }));
            }
        }
        j += 1;
    }
    proof {
        assert(regs.take(nr as int) =~= regs);
    }
    Ok(table)
}

/// Leaf encodings read only the page number of the physical address.
proof fn lemma_leaf_page_only(arch: Arch, p: u64, flags: PageFlags)
    ensures
        leaf_pte(arch, p, flags) == leaf_pte(arch, ((p >> 12) << 12) as u64, flags),
{
    match arch {
        Arch::X86_64 => {
            assert(p & 0x000F_FFFF_FFFF_F000 == (((p >> 12) << 12) as u64) & 0x000F_FFFF_FFFF_F000)
                by (bit_vector);
        },
        Arch::Riscv64 => {
            assert((p >> 12) << 10 == ((((p >> 12) << 12) as u64) >> 12) << 10) by (bit_vector);
        },
    }
}

/// Every page of every recorded identity region is resolved by the built
/// tables: the virtual page maps to its own physical page, readable and
/// writable but never executable. This holds of the leaf that
/// [`build_initial_tables`] promises for the page, whichever regions or
/// segments overlap it.
pub proof fn lemma_identity_region_resolved(
    t: PageTables,
    segs: Seq<crate::elf::LoadedSegment>,
    regions: Seq<(u64, u64)>,
    j: int,
    k: int,
)
    requires
        forall|v: u64| v < VPN_COUNT ==> #[trigger] t.resolve(v) == expected_tables(
            t.arch,
            segs,
            regions,
            v,
        ),
        forall|j2: int| 0 <= j2 < regions.len()
            ==> (#[trigger] regions[j2]).0 as int + 4096 * npages_spec(regions[j2].1)
                <= 0x1_0000_0000_0000,
        0 <= j < regions.len(),
        0 <= k < npages_spec(regions[j].1),
    ensures
        ({
            let v = (vpn(regions[j].0) + k) as u64;
            &&& t.resolve(v) is Some
            &&& leaf_phys(t.arch, t.resolve(v)->0) == v * 4096
            &&& leaf_readable(t.arch, t.resolve(v)->0)
            &&& leaf_writable(t.arch, t.resolve(v)->0)
            &&& !leaf_executable(t.arch, t.resolve(v)->0)
        }),
{
    let rj = regions[j];
    lemma_region_vpn_bounds(rj, k);
    let v = (vpn(rj.0) + k) as u64;
    assert(v < VPN_COUNT);
    lemma_expected_identity(t.arch, segs, regions, v, j, k);
}

/// The page number of the `k`-th page of an identity region stays inside
/// the 36-bit window, and the page's physical base has that page number.
proof fn lemma_region_vpn_bounds(region: (u64, u64), k: int)
    requires
        region.0 as int + 4096 * npages_spec(region.1) <= 0x1_0000_0000_0000,
        0 <= k < npages_spec(region.1),
    ensures
        vpn(region.0) + k < VPN_COUNT,
        (region.0 + k * 4096) as int / 4096 == vpn(region.0) + k,
        region.0 + k * 4096 < 0x1_0000_0000_0000,
{
    let p = region.0;
    lemma_shr12(p);
    lemma_virt_indices(p);
    assert(p < 0x1_0000_0000_0000);
    assert(vpn(p) == p as int / 4096);
    vstd::arithmetic::div_mod::lemma_fundamental_div_mod(p as int, 4096);
    vstd::arithmetic::div_mod::lemma_mod_bound(p as int, 4096);
    let q = p as int / 4096;
    let rm = p as int % 4096;
    assert(p as int + k * 4096 == 4096 * (q + k) + rm);
    vstd::arithmetic::div_mod::lemma_fundamental_div_mod_converse(
        p as int + k * 4096,
        4096,
        q + k,
        rm,
    );
    assert(4096 * (q + npages_spec(region.1)) <= 0x1_0000_0000_0000);
}

/// The leaf that the table fold yields at an identity page decodes to the
/// page itself, read-write and non-executable.
proof fn lemma_expected_identity(
    arch: Arch,
    segs: Seq<crate::elf::LoadedSegment>,
    regions: Seq<(u64, u64)>,
    v: u64,
    j: int,
    k: int,
)
    requires
        forall|j2: int| 0 <= j2 < regions.len()
            ==> (#[trigger] regions[j2]).0 as int + 4096 * npages_spec(regions[j2].1)
                <= 0x1_0000_0000_0000,
        0 <= j < regions.len(),
        0 <= k < npages_spec(regions[j].1),
        v == (vpn(regions[j].0) + k) as u64,
    ensures
        expected_tables(arch, segs, regions, v) is Some,
        leaf_phys(arch, expected_tables(arch, segs, regions, v)->0) == v * 4096,
        leaf_readable(arch, expected_tables(arch, segs, regions, v)->0),
        leaf_writable(arch, expected_tables(arch, segs, regions, v)->0),
        !leaf_executable(arch, expected_tables(arch, segs, regions, v)->0),
    decreases regions.len(),
{
    let rw = PageFlags { writable: true, executable: false };
    lemma_region_vpn_bounds(regions[j], k);
    let last = regions.last();
    match region_leaf_at(arch, last, v) {
        Some(e) => {
            // the winning region also maps v to its own page
            let d = v - vpn(last.0);
            assert(0 <= d < npages_spec(last.1));
            lemma_region_vpn_bounds(last, d as int);
            let pv = (last.0 + d * 4096) as u64;
            assert(e == leaf_pte(arch, pv, rw));
            lemma_leaf_page_only(arch, pv, rw);
            lemma_shr12(pv);
            assert(pv as int / 4096 == v);
            assert(((pv >> 12) << 12) as u64 == (v * 4096) as u64) by {
                assert(pv >> 12 == pv as int / 4096);
                assert((v * 4096) as int == v * 4096);
                assert(((pv >> 12) << 12) == (pv >> 12) * 4096) by (bit_vector);
            }
            lemma_leaf_roundtrip(arch, (v * 4096) as u64, rw);
            assert((v * 4096) as u64 % 4096 == 0) by {
                assert(v * 4096 < 0x1_0000_0000_0000);
                assert((v * 4096) as int % 4096 == 0) by (nonlinear_arith);
            }
        },
        None => {
            if j == regions.len() - 1 {
                // the last region covers v, contradicting the None
                assert(vpn(last.0) <= v < vpn(last.0) + npages_spec(last.1));
                assert(false);
            } else {
                lemma_expected_identity(arch, segs, regions.drop_last(), v, j, k);
                assert(regions.drop_last()[j] == regions[j]);
            }
        },
    }
}

/// W^X at the leaf: a mapping installed with flags that are not both
/// writable and executable decodes to a leaf that is not both. Together
/// with `map` rejecting writable-and-executable flags outright, no leaf
/// this builder writes ever grants write and execute at once.
pub proof fn lemma_no_wx_leaf(arch: Arch, phys: u64, flags: PageFlags)
    requires
        !(flags.writable && flags.executable),
    ensures
        !(leaf_writable(arch, leaf_pte(arch, phys, flags)) && leaf_executable(
            arch,
            leaf_pte(arch, phys, flags),
        )),
{
    let w = flags.writable;
    let x = flags.executable;
    match arch {
        Arch::X86_64 => {
            lemma_leaf_bits_x86(phys, w, x);
        },
        Arch::Riscv64 => {
            assert(((0x43u64 | ((phys >> 12) << 10) | (if w { 0x84u64 } else { 0u64 })
                | (if x { 8u64 } else { 0u64 })) & 4 == 4) == w) by (bit_vector);
            assert(((0x43u64 | ((phys >> 12) << 10) | (if w { 0x84u64 } else { 0u64 })
                | (if x { 8u64 } else { 0u64 })) & 8 == 8) == x) by (bit_vector);
        },
    }
}

/// A mapping of size zero maps nothing: the tables resolve exactly as
/// before and no frame moves, while any other size is rounded up to
/// whole pages by the page count in the contract itself.
pub proof fn lemma_map_zero_size(
    pre: PageTables,
    post: PageTables,
    virt: u64,
    phys: u64,
    flags: PageFlags,
)
    requires
        map_ok_post(pre, post, virt, phys, 0, flags),
    ensures
        forall|v: u64| v < VPN_COUNT ==> #[trigger] post.resolve(v) == pre.resolve(v),
        post.frames_view() == pre.frames_view(),
        post.free@ == pre.free@,
{
    assert(npages_spec(0) == 0);
}

/// A virtual page lies in a region's range.
pub open spec fn region_covers(region: (u64, u64), v: u64) -> bool {
    vpn(region.0) <= v < vpn(region.0) + npages_spec(region.1)
}

/// A virtual page lies in a segment's range.
pub open spec fn seg_covers(seg: crate::elf::LoadedSegment, v: u64) -> bool {
    vpn(seg.virt_base) <= v < vpn(seg.virt_base) + npages_spec(seg.size)
}

/// Every page of a kernel segment is resolved by the built tables to the
/// segment's own physical page with the segment's own permissions,
/// wherever no identity region and no later segment overlaps the page.
pub proof fn lemma_kernel_segment_resolved(
    t: PageTables,
    segs: Seq<crate::elf::LoadedSegment>,
    regions: Seq<(u64, u64)>,
    i: int,
    k: int,
)
    requires
        forall|v: u64| v < VPN_COUNT ==> #[trigger] t.resolve(v) == expected_tables(
            t.arch,
            segs,
            regions,
            v,
        ),
        0 <= i < segs.len(),
        0 <= k < npages_spec(segs[i].size),
        vpn(segs[i].virt_base) + npages_spec(segs[i].size) <= VPN_COUNT,
        forall|j: int| 0 <= j < regions.len() ==> !region_covers(
            #[trigger] regions[j],
            (vpn(segs[i].virt_base) + k) as u64,
        ),
        forall|i2: int| i < i2 < segs.len() ==> !seg_covers(
            #[trigger] segs[i2],
            (vpn(segs[i].virt_base) + k) as u64,
        ),
    ensures
        ({
            let v = (vpn(segs[i].virt_base) + k) as u64;
            t.resolve(v) == Some(leaf_pte(
                t.arch,
                ((segs[i].phys_base + k * 4096) as u64),
                PageFlags { writable: segs[i].writable, executable: segs[i].executable },
            ))
        }),
{
    let v = (vpn(segs[i].virt_base) + k) as u64;
    assert(v < VPN_COUNT);
    lemma_expected_skips_regions(t.arch, segs, regions, v);
    lemma_expected_seg_wins(t.arch, segs, v, i, k);
}

/// The fold ignores every region that does not cover the page.
proof fn lemma_expected_skips_regions(
    arch: Arch,
    segs: Seq<crate::elf::LoadedSegment>,
    regions: Seq<(u64, u64)>,
    v: u64,
)
    requires
        forall|j: int| 0 <= j < regions.len() ==> !region_covers(#[trigger] regions[j], v),
    ensures
        expected_tables(arch, segs, regions, v) == expected_segs(arch, segs, v),
    decreases regions.len(),
{
    if regions.len() > 0 {
        assert(!region_covers(regions.last(), v));
        assert(region_leaf_at(arch, regions.last(), v) is None);
        lemma_expected_skips_regions(arch, segs, regions.drop_last(), v);
    }
}

/// The fold over the segments yields the covering segment's leaf when no
/// later segment covers the page.
proof fn lemma_expected_seg_wins(
    arch: Arch,
    segs: Seq<crate::elf::LoadedSegment>,
    v: u64,
    i: int,
    k: int,
)
    requires
        0 <= i < segs.len(),
        0 <= k < npages_spec(segs[i].size),
        v == (vpn(segs[i].virt_base) + k) as u64,
        vpn(segs[i].virt_base) + npages_spec(segs[i].size) <= VPN_COUNT,
        forall|i2: int| i < i2 < segs.len() ==> !seg_covers(#[trigger] segs[i2], v),
    ensures
        expected_segs(arch, segs, v) == Some(leaf_pte(
            arch,
            ((segs[i].phys_base + k * 4096) as u64),
            PageFlags { writable: segs[i].writable, executable: segs[i].executable },
        )),
    decreases segs.len(),
{
    let last = segs.last();
    if i == segs.len() - 1 {
        assert(seg_covers(last, v));
        assert(seg_leaf_at(arch, last, v) is Some);
        assert(v - vpn(last.virt_base) == k);
    } else {
        assert(!seg_covers(last, v));
        assert(seg_leaf_at(arch, last, v) is None);
        lemma_expected_seg_wins(arch, segs.drop_last(), v, i, k);
        assert(segs.drop_last()[i] == segs[i]);
        assert forall|i2: int| i < i2 < segs.drop_last().len()
            implies !seg_covers(#[trigger] segs.drop_last()[i2], v) by {
            assert(segs.drop_last()[i2] == segs[i2]);
        }
    }
}

/// A fresh, zeroed table frame: 512 entries, all absent.
fn zeroed_frame() -> (r: Vec<u64>)
    ensures
        r@.len() == TABLE_ENTRIES,
        forall|j: int| 0 <= j < r@.len() ==> r@[j] == 0u64,
{
    let mut v: Vec<u64> = Vec::new();
    let mut i: usize = 0;
    while i < TABLE_ENTRIES
        invariant
            i <= TABLE_ENTRIES,
            v@.len() == i,
            forall|j: int| 0 <= j < i ==> v@[j] == 0u64,
        decreases TABLE_ENTRIES - i,
    {
        v.push(0u64);
        i += 1;
    }
    v
}

} // verus!
