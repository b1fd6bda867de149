use seraph_boot::memmap::{
    canonical_uefi_type, insertion_sort_memory_map, translate_memory_map, translate_memory_type,
    EFI_ACPI_MEMORY_NVS, EFI_ACPI_RECLAIM_MEMORY, EFI_BOOT_SERVICES_CODE, EFI_BOOT_SERVICES_DATA,
    EFI_CONVENTIONAL_MEMORY, EFI_LOADER_CODE, EFI_LOADER_DATA, EFI_MEMORY_MAPPED_IO,
    EFI_MEMORY_MAPPED_IO_PORT_SPACE, EFI_PERSISTENT_MEMORY, EFI_RUNTIME_SERVICES_CODE,
    EFI_RUNTIME_SERVICES_DATA,
};
use seraph_boot::protocol::{MemoryMapEntry, MemoryType};

// ── translate_memory_type ────────────────────────────────────────────────

#[test]
fn conventional_memory_maps_to_usable() {
    assert_eq!(translate_memory_type(EFI_CONVENTIONAL_MEMORY), MemoryType::Usable);
}

#[test]
fn boot_services_code_maps_to_usable() {
    assert_eq!(translate_memory_type(EFI_BOOT_SERVICES_CODE), MemoryType::Usable);
}

#[test]
fn boot_services_data_maps_to_usable() {
    assert_eq!(translate_memory_type(EFI_BOOT_SERVICES_DATA), MemoryType::Usable);
}

#[test]
fn loader_code_maps_to_loaded() {
    assert_eq!(translate_memory_type(EFI_LOADER_CODE), MemoryType::Loaded);
}

#[test]
fn loader_data_maps_to_loaded() {
    assert_eq!(translate_memory_type(EFI_LOADER_DATA), MemoryType::Loaded);
}

#[test]
fn acpi_reclaim_maps_to_acpi_reclaimable() {
    assert_eq!(translate_memory_type(EFI_ACPI_RECLAIM_MEMORY), MemoryType::AcpiReclaimable);
}

#[test]
fn persistent_memory_maps_to_persistent() {
    assert_eq!(translate_memory_type(EFI_PERSISTENT_MEMORY), MemoryType::Persistent);
}

#[test]
fn runtime_services_code_maps_to_reserved() {
    assert_eq!(translate_memory_type(EFI_RUNTIME_SERVICES_CODE), MemoryType::Reserved);
}

#[test]
fn runtime_services_data_maps_to_reserved() {
    assert_eq!(translate_memory_type(EFI_RUNTIME_SERVICES_DATA), MemoryType::Reserved);
}

#[test]
fn acpi_nvs_maps_to_reserved() {
    assert_eq!(translate_memory_type(EFI_ACPI_MEMORY_NVS), MemoryType::Reserved);
}

#[test]
fn mmio_maps_to_reserved() {
    assert_eq!(translate_memory_type(EFI_MEMORY_MAPPED_IO), MemoryType::Reserved);
}

#[test]
fn mmio_port_space_maps_to_reserved() {
    assert_eq!(translate_memory_type(EFI_MEMORY_MAPPED_IO_PORT_SPACE), MemoryType::Reserved);
}

#[test]
fn unknown_type_maps_to_reserved() {
    assert_eq!(translate_memory_type(0xFF), MemoryType::Reserved);
}

// ── Round trip through the canonical encoding ────────────────────────────

#[test]
fn memory_type_round_trips_through_canonical_encoding() {
    for &raw in &[
        EFI_CONVENTIONAL_MEMORY,
        EFI_BOOT_SERVICES_CODE,
        EFI_LOADER_CODE,
        EFI_LOADER_DATA,
        EFI_ACPI_RECLAIM_MEMORY,
        EFI_PERSISTENT_MEMORY,
        EFI_RUNTIME_SERVICES_CODE,
        0xFFu32,
    ] {
        let once = translate_memory_type(raw);
        let twice = translate_memory_type(canonical_uefi_type(once));
        assert_eq!(twice, once);
    }
}

// ── insertion_sort_memory_map ────────────────────────────────────────────

fn make_entry(physical_base: u64) -> MemoryMapEntry {
    MemoryMapEntry { physical_base, size: 0x1000, memory_type: MemoryType::Usable }
}

#[test]
fn already_sorted_input_unchanged() {
    let mut entries = vec![make_entry(0x1000), make_entry(0x2000), make_entry(0x3000)];
    insertion_sort_memory_map(&mut entries);
    assert_eq!(entries[0].physical_base, 0x1000);
    assert_eq!(entries[1].physical_base, 0x2000);
    assert_eq!(entries[2].physical_base, 0x3000);
}

#[test]
fn reverse_sorted_input_is_sorted() {
    let mut entries = vec![make_entry(0x3000), make_entry(0x2000), make_entry(0x1000)];
    insertion_sort_memory_map(&mut entries);
    assert_eq!(entries[0].physical_base, 0x1000);
    assert_eq!(entries[1].physical_base, 0x2000);
    assert_eq!(entries[2].physical_base, 0x3000);
}

#[test]
fn empty_input_does_not_panic() {
    let mut entries: Vec<MemoryMapEntry> = Vec::new();
    insertion_sort_memory_map(&mut entries);
    assert_eq!(entries.len(), 0);
}

#[test]
fn single_element_input_unchanged() {
    let mut entries = vec![make_entry(0xABCD)];
    insertion_sort_memory_map(&mut entries);
    assert_eq!(entries[0].physical_base, 0xABCD);
}

#[test]
fn duplicate_bases_do_not_panic() {
    let mut entries =
        vec![make_entry(0x2000), make_entry(0x1000), make_entry(0x1000), make_entry(0x3000)];
    insertion_sort_memory_map(&mut entries);
    assert_eq!(entries[0].physical_base, 0x1000);
    assert_eq!(entries[3].physical_base, 0x3000);
}

#[test]
fn duplicate_bases_keep_stable_order() {
    let mut entries = vec![
        MemoryMapEntry { physical_base: 0x2000, size: 1, memory_type: MemoryType::Usable },
        MemoryMapEntry { physical_base: 0x1000, size: 2, memory_type: MemoryType::Loaded },
        MemoryMapEntry { physical_base: 0x1000, size: 3, memory_type: MemoryType::Reserved },
    ];
    insertion_sort_memory_map(&mut entries);
    // the two 0x1000 entries keep the relative order they arrived in
    assert_eq!(entries[0].size, 2);
    assert_eq!(entries[1].size, 3);
    assert_eq!(entries[2].size, 1);
}

// ── translate_memory_map ─────────────────────────────────────────────────

/// Serialize one UEFI descriptor at its natural 40-byte layout, padded
/// to `stride` bytes.
fn push_descriptor(buf: &mut Vec<u8>, stride: usize, ty: u32, start: u64, pages: u64) {
    let base = buf.len();
    buf.resize(base + stride, 0);
    buf[base..base + 4].copy_from_slice(&ty.to_le_bytes());
    buf[base + 8..base + 16].copy_from_slice(&start.to_le_bytes());
    buf[base + 24..base + 32].copy_from_slice(&pages.to_le_bytes());
}

#[test]
fn single_descriptor_translates_correctly() {
    let mut raw = Vec::new();
    push_descriptor(&mut raw, 40, EFI_CONVENTIONAL_MEMORY, 0x10_0000, 8);
    let entries = translate_memory_map(&raw, 40, 8);
    assert_eq!(entries.len(), 1);
    assert_eq!(entries[0].physical_base, 0x10_0000);
    assert_eq!(entries[0].size, 8 * 4096);
    assert_eq!(entries[0].memory_type, MemoryType::Usable);
}

#[test]
fn multiple_descriptors_translated() {
    let mut raw = Vec::new();
    push_descriptor(&mut raw, 40, EFI_CONVENTIONAL_MEMORY, 0x0000, 1);
    push_descriptor(&mut raw, 40, EFI_LOADER_DATA, 0x1000, 2);
    let entries = translate_memory_map(&raw, 40, 8);
    assert_eq!(entries.len(), 2);
    assert_eq!(entries[0].memory_type, MemoryType::Usable);
    assert_eq!(entries[1].memory_type, MemoryType::Loaded);
    assert_eq!(entries[1].size, 2 * 4096);
}

#[test]
fn max_entries_cap_limits_output() {
    let mut raw = Vec::new();
    push_descriptor(&mut raw, 40, EFI_CONVENTIONAL_MEMORY, 0x0000, 1);
    push_descriptor(&mut raw, 40, EFI_CONVENTIONAL_MEMORY, 0x1000, 1);
    let entries = translate_memory_map(&raw, 40, 1);
    assert_eq!(entries.len(), 1);
}

#[test]
fn zero_length_map_returns_zero_entries() {
    let raw: Vec<u8> = Vec::new();
    let entries = translate_memory_map(&raw, 40, 8);
    assert_eq!(entries.len(), 0);
}

#[test]
fn padded_descriptor_size_handled_correctly() {
    // the firmware may report a stride with trailing padding
    let mut raw = Vec::new();
    push_descriptor(&mut raw, 48, EFI_PERSISTENT_MEMORY, 0x4000, 4);
    let entries = translate_memory_map(&raw, 48, 4);
    assert_eq!(entries.len(), 1);
    assert_eq!(entries[0].memory_type, MemoryType::Persistent);
    assert_eq!(entries[0].physical_base, 0x4000);
    assert_eq!(entries[0].size, 4 * 4096);
}

#[test]
fn translated_map_sorts_into_kernel_order() {
    // descriptors arrive unsorted with padded stride; the kernel map
    // comes out sorted with the usable regions first by address
    let mut raw = Vec::new();
    push_descriptor(&mut raw, 48, EFI_CONVENTIONAL_MEMORY, 0x1000, 1);
    push_descriptor(&mut raw, 48, EFI_BOOT_SERVICES_DATA, 0x0, 1);
    push_descriptor(&mut raw, 48, EFI_LOADER_DATA, 0x2000, 1);
    let mut entries = translate_memory_map(&raw, 48, 16);
    insertion_sort_memory_map(&mut entries);
    assert_eq!(entries.len(), 3);
    assert_eq!(entries[0].physical_base, 0x0);
    assert_eq!(entries[0].memory_type, MemoryType::Usable);
    assert_eq!(entries[1].physical_base, 0x1000);
    assert_eq!(entries[1].memory_type, MemoryType::Usable);
    assert_eq!(entries[2].physical_base, 0x2000);
    assert_eq!(entries[2].memory_type, MemoryType::Loaded);
}

#[test]
fn sorted_disjoint_map_stays_disjoint() {
    let mut entries = vec![
        MemoryMapEntry { physical_base: 0x3000, size: 0x1000, memory_type: MemoryType::Usable },
        MemoryMapEntry { physical_base: 0x0, size: 0x1000, memory_type: MemoryType::Reserved },
        MemoryMapEntry { physical_base: 0x1000, size: 0x2000, memory_type: MemoryType::Loaded },
    ];
    insertion_sort_memory_map(&mut entries);
    for w in entries.windows(2) {
        assert!(w[0].physical_base <= w[1].physical_base);
        assert!(w[0].physical_base + w[0].size <= w[1].physical_base);
    }
}
