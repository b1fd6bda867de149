use seraph_boot::arch::riscv64;
use seraph_boot::arch::x86_64;
use seraph_boot::elf::{KernelInfo, LoadedSegment};
use seraph_boot::error::BootError;
use seraph_boot::paging::{
    build_initial_tables, Arch, MapError, PageFlags, PageTableBuilder, PageTables,
};

fn pool(n: u64) -> Vec<u64> {
    // distinct page-aligned frame addresses below 2^52
    (0..n).map(|i| 0x40_0000 + i * 4096).collect()
}

const RX: PageFlags = PageFlags { writable: false, executable: true };
const RW: PageFlags = PageFlags { writable: true, executable: false };
const RO: PageFlags = PageFlags { writable: false, executable: false };
const WX: PageFlags = PageFlags { writable: true, executable: true };

#[test]
fn map_rejects_writable_executable() {
    let mut t = PageTables::new(Arch::X86_64, pool(8)).unwrap();
    let frames_before = t.frames.len();
    let r = t.map(0x1000, 0x2000, 4096, WX);
    assert_eq!(r, Err(MapError::WxViolation));
    // no table was touched
    assert_eq!(t.frames.len(), frames_before);
}

#[test]
fn map_fails_out_of_memory_when_pool_runs_dry() {
    let mut t = PageTables::new(Arch::X86_64, pool(2)).unwrap();
    let r = t.map(0x1000, 0x2000, 4096, RO);
    assert_eq!(r, Err(MapError::OutOfMemory));
}

#[test]
fn x86_64_leaf_pte_for_kernel_text() {
    // map the kernel text page and walk the PML4 for its address
    let seg = LoadedSegment {
        phys_base: 0x200000,
        virt_base: 0xFFFF_FFFF_8020_0000,
        size: 0x1000,
        writable: false,
        executable: true,
    };
    let kernel = KernelInfo {
        physical_base: 0x200000,
        virtual_base: 0xFFFF_FFFF_8020_0000,
        size: 0x1000,
        entry_virtual: 0xFFFF_FFFF_8020_0000,
        segments: vec![seg],
        segment_count: 1,
    };
    let regions: Vec<(u64, u64)> = Vec::new();
    let t = build_initial_tables(Arch::X86_64, pool(16), &kernel, &regions).unwrap();
    let pte = t.lookup(0xFFFF_FFFF_8020_0000).expect("kernel text page must resolve");
    assert_eq!(pte & 1, 1, "leaf must be present");
    assert_eq!(pte >> 63, 0, "NX must be clear for executable text");
    assert_eq!(pte & 2, 0, "text must not be writable");
    assert_eq!(pte & 0x000F_FFFF_FFFF_F000, 0x200000, "physical field");
    // an unmapped neighbour page does not resolve
    assert!(t.lookup(0xFFFF_FFFF_8020_1000).is_none());
}

#[test]
fn sv48_leaf_pte_sets_access_and_dirty() {
    let mut t = PageTables::new(Arch::Riscv64, pool(8)).unwrap();
    t.map(0x8020_0000, 0x8020_0000, 4096, RW).unwrap();
    let pte = t.lookup(0x8020_0000).unwrap();
    assert_eq!(pte & 1, 1, "V");
    assert_eq!(pte & 2, 2, "R");
    assert_eq!(pte & 4, 4, "W");
    assert_eq!(pte & 8, 0, "X clear");
    assert_eq!(pte & 0x40, 0x40, "A set");
    assert_eq!(pte & 0x80, 0x80, "D set for writable");
    assert_eq!((pte >> 10) << 12, 0x8020_0000, "PPN");
}

#[test]
fn mapping_twice_is_idempotent() {
    let mut t = PageTables::new(Arch::X86_64, pool(16)).unwrap();
    t.map(0x40_0000_0000, 0x5000, 8192, RO).unwrap();
    let frames_after_first = t.frames.len();
    let free_after_first = t.free.len();
    let pte_first = t.lookup(0x40_0000_0000).unwrap();
    t.map(0x40_0000_0000, 0x5000, 8192, RO).unwrap();
    assert_eq!(t.frames.len(), frames_after_first, "no additional tables");
    assert_eq!(t.free.len(), free_after_first, "no pool frames consumed");
    assert_eq!(t.lookup(0x40_0000_0000).unwrap(), pte_first, "identical leaf bits");
}

#[test]
fn map_size_zero_maps_nothing() {
    let mut t = PageTables::new(Arch::Riscv64, pool(8)).unwrap();
    let frames_before = t.frames.len();
    t.map(0x1000, 0x1000, 0, RW).unwrap();
    assert_eq!(t.frames.len(), frames_before);
    assert!(t.lookup(0x1000).is_none());
}

#[test]
fn map_size_rounds_up_to_whole_pages() {
    let mut t = PageTables::new(Arch::X86_64, pool(8)).unwrap();
    t.map(0x10_0000, 0x20_0000, 5000, RW).unwrap();
    // 5000 bytes cover two pages
    assert!(t.lookup(0x10_0000).is_some());
    assert!(t.lookup(0x10_1000).is_some());
    assert!(t.lookup(0x10_2000).is_none());
}

#[test]
fn identity_regions_resolve_to_themselves() {
    let kernel = KernelInfo {
        physical_base: 0x200000,
        virtual_base: 0xFFFF_FFFF_8020_0000,
        size: 0x1000,
        entry_virtual: 0xFFFF_FFFF_8020_0000,
        segments: vec![LoadedSegment {
            phys_base: 0x200000,
            virt_base: 0xFFFF_FFFF_8020_0000,
            size: 0x1000,
            writable: false,
            executable: true,
        }],
        segment_count: 1,
    };
    let regions = vec![(0x7000_0000u64, 0x3000u64), (0x9000_0000u64, 0x800u64)];
    let t = build_initial_tables(Arch::X86_64, pool(32), &kernel, &regions).unwrap();
    for &(base, size) in &regions {
        let pages = (size + 4095) / 4096;
        for k in 0..pages {
            let va = base + k * 4096;
            let pte = t.lookup(va).expect("identity page must resolve");
            assert_eq!(pte & 0x000F_FFFF_FFFF_F000, va, "identity mapping");
            assert_eq!(pte & 2, 2, "identity regions are writable");
            assert_ne!(pte >> 63, 0, "identity regions are never executable");
        }
    }
}

#[test]
fn build_fails_cleanly_on_empty_pool() {
    let kernel = KernelInfo {
        physical_base: 0,
        virtual_base: 0,
        size: 0x1000,
        entry_virtual: 0,
        segments: vec![LoadedSegment {
            phys_base: 0,
            virt_base: 0,
            size: 0x1000,
            writable: false,
            executable: false,
        }],
        segment_count: 1,
    };
    let regions: Vec<(u64, u64)> = Vec::new();
    match build_initial_tables(Arch::X86_64, Vec::new(), &kernel, &regions) {
        Err(BootError::OutOfMemory) => {},
        _ => panic!("expected OutOfMemory"),
    }
}

#[test]
fn builder_trait_wraps_both_architectures() {
    let mut tx = x86_64::BootPageTable::new(pool(8)).unwrap();
    tx.map(0x1000, 0x2000, 4096, RO).unwrap();
    assert_eq!(tx.root_physical(), 0x40_0000 + 7 * 4096);
    assert!(tx.lookup(0x1000).is_some());

    let mut tr = riscv64::BootPageTable::new(pool(8)).unwrap();
    tr.map(0x1000, 0x2000, 4096, RX).unwrap();
    assert!(tr.lookup(0x1000).is_some());
    assert!(riscv64::BootPageTable::new(Vec::new()).is_none());
}

#[test]
fn satp_value_composes_mode_and_ppn() {
    let satp = riscv64::satp_value(0x8000_0000);
    assert_eq!(satp, (9u64 << 60) | (0x8000_0000u64 >> 12));
}

#[test]
fn trampoline_page_range_covers_first_and_last_byte() {
    let (first, last) = x86_64::trampoline_page_range(0x10_1FF0, 0x10_2010);
    assert_eq!(first, 0x10_1000);
    assert_eq!(last, 0x10_2000);
    let (first, last) = riscv64::trampoline_page_range(0x10_1000, 0x10_1010);
    assert_eq!(first, 0x10_1000);
    assert_eq!(last, 0x10_1000);
    // an empty stub still names its own page
    let (first, last) = x86_64::trampoline_page_range(0x5000, 0x5000);
    assert_eq!(first, 0x5000);
    assert_eq!(last, 0x5000);
}
