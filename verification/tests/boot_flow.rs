use seraph_boot::elf::{load_init, load_kernel, place_init_segments, EM_RISCV, EM_X86_64};
use seraph_boot::error::BootError;
use seraph_boot::orchestrate::{
    collect_identity_regions, exit_protocol_step, guid_matches, make_boot_info,
    map_allocation_size, next_stage, select_framebuffer, BootStage, EfiGuid, ExitAction,
    ExitPhase, FirmwareInfo, PreAllocations, EFI_INVALID_PARAMETER, EFI_SUCCESS, GOP_PIXEL_BGRX,
    GOP_PIXEL_RGBX, KERNEL_STACK_PAGES, MEM_MAP_ENTRY_PAGES,
};
use seraph_boot::protocol::{BootModule, FramebufferInfo, PixelFormat, SegmentFlags, BOOT_PROTOCOL_VERSION};

const EHDR_SZ: usize = 64;
const PHDR_SZ: usize = 56;
const PT_LOAD: u32 = 1;
const PF_X: u32 = 1;
const PF_W: u32 = 2;
const PF_R: u32 = 4;

/// Build an ELF64 image with the given `(flags, offset, vaddr, paddr,
/// filesz, memsz)` program headers and entry address.
fn make_elf(machine: u16, entry: u64, phdrs: &[(u32, u64, u64, u64, u64, u64)]) -> Vec<u8> {
    let total = EHDR_SZ + PHDR_SZ * phdrs.len() + 16;
    let mut buf = vec![0u8; total];
    buf[0..4].copy_from_slice(&[0x7F, b'E', b'L', b'F']);
    buf[4] = 2;
    buf[5] = 1;
    buf[6] = 1;
    buf[16..18].copy_from_slice(&2u16.to_le_bytes());
    buf[18..20].copy_from_slice(&machine.to_le_bytes());
    buf[20..24].copy_from_slice(&1u32.to_le_bytes());
    buf[24..32].copy_from_slice(&entry.to_le_bytes());
    buf[32..40].copy_from_slice(&(EHDR_SZ as u64).to_le_bytes());
    buf[52..54].copy_from_slice(&(EHDR_SZ as u16).to_le_bytes());
    buf[54..56].copy_from_slice(&(PHDR_SZ as u16).to_le_bytes());
    buf[56..58].copy_from_slice(&(phdrs.len() as u16).to_le_bytes());
    for (i, &(flags, off, vaddr, paddr, filesz, memsz)) in phdrs.iter().enumerate() {
        let ph = EHDR_SZ + i * PHDR_SZ;
        buf[ph..ph + 4].copy_from_slice(&PT_LOAD.to_le_bytes());
        buf[ph + 4..ph + 8].copy_from_slice(&flags.to_le_bytes());
        buf[ph + 8..ph + 16].copy_from_slice(&off.to_le_bytes());
        buf[ph + 16..ph + 24].copy_from_slice(&vaddr.to_le_bytes());
        buf[ph + 24..ph + 32].copy_from_slice(&paddr.to_le_bytes());
        buf[ph + 32..ph + 40].copy_from_slice(&filesz.to_le_bytes());
        buf[ph + 40..ph + 48].copy_from_slice(&memsz.to_le_bytes());
        buf[ph + 48..ph + 56].copy_from_slice(&0x1000u64.to_le_bytes());
    }
    buf
}

#[test]
fn two_segment_kernel_plans_expected_footprint() {
    // text at 0x200000 (R+X) and data at 0x201000 (R+W), entry at the
    // start of text
    let elf = make_elf(
        EM_X86_64,
        0x200000,
        &[
            (PF_R | PF_X, 0, 0x200000, 0x200000, 0, 0x1000),
            (PF_R | PF_W, 0, 0x201000, 0x201000, 0, 0x1000),
        ],
    );
    let plan = load_kernel(&elf, EM_X86_64).unwrap();
    assert_eq!(plan.info.physical_base, 0x200000);
    assert_eq!(plan.info.size, 0x2000);
    assert_eq!(plan.info.segment_count, 2);
    assert_eq!(plan.info.entry_virtual, 0x200000);
}

#[test]
fn riscv_wx_segment_is_rejected_before_any_placement() {
    let elf = make_elf(EM_RISCV, 0x1000, &[(PF_R | PF_W | PF_X, 0, 0x1000, 0x1000, 0, 0x1000)]);
    let r = load_kernel(&elf, EM_RISCV);
    assert!(matches!(r, Err(BootError::WxViolation)));
}

#[test]
fn init_segments_take_firmware_chosen_addresses() {
    let elf = make_elf(
        EM_X86_64,
        0x40_0000,
        &[
            (PF_R | PF_X, 0, 0x40_0000, 0x40_0000, 0, 0x1000),
            (PF_R | PF_W, 0, 0x40_1000, 0x40_1000, 0, 0x2000),
            (PF_R, 0, 0x40_3000, 0x40_3000, 0, 0x1000),
        ],
    );
    let plan = load_init(&elf, EM_X86_64).unwrap();
    assert_eq!(plan.entry_point, 0x40_0000);
    assert_eq!(plan.segments.len(), 3);
    assert_eq!(plan.segments[0].flags, SegmentFlags::ReadExecute);
    assert_eq!(plan.segments[1].flags, SegmentFlags::ReadWrite);
    assert_eq!(plan.segments[2].flags, SegmentFlags::Read);
    assert_eq!(plan.segments[1].page_count, 2);

    let phys = vec![0x9000_0000u64, 0x9000_2000, 0x9000_5000];
    let image = place_init_segments(&plan, &phys);
    assert_eq!(image.entry_point, 0x40_0000);
    assert_eq!(image.segment_count, 3);
    assert_eq!(image.segments[0].phys_addr, 0x9000_0000);
    assert_eq!(image.segments[0].virt_addr, 0x40_0000);
    assert_eq!(image.segments[1].phys_addr, 0x9000_2000);
    assert_eq!(image.segments[2].flags, SegmentFlags::Read);
}

fn sample_preallocations() -> PreAllocations {
    PreAllocations {
        boot_info_phys: 0x100_0000,
        modules_phys: 0x100_1000,
        mem_entries_phys: 0x100_2000,
        stack_phys: 0x100_6000,
        cmdline_phys: 0x101_6000,
        init_module: BootModule { physical_base: 0x200_0000, size: 0x1800 },
        kernel_buf_phys: 0x300_0000,
        kernel_buf_pages: 3,
        init_buf_phys: 0x310_0000,
        init_buf_pages: 2,
    }
}

#[test]
fn identity_region_set_covers_all_boot_allocations() {
    let elf = make_elf(EM_X86_64, 0x200000, &[(PF_R | PF_X, 0, 0x200000, 0x200000, 0, 0x1800)]);
    let plan = load_kernel(&elf, EM_X86_64).unwrap();
    let pre = sample_preallocations();
    let fb = FramebufferInfo {
        physical_base: 0x8000_0000,
        width: 640,
        height: 480,
        stride: 2560,
        pixel_format: seraph_boot::protocol::PixelFormat::Bgrx8,
    };
    let regions = collect_identity_regions(&plan.info, &pre, &fb);
    assert_eq!(regions.len(), 1 + 8 + 1);
    // the kernel segment's size is page-rounded
    assert_eq!(regions[0], (0x200000, 0x2000));
    assert_eq!(regions[1], (pre.boot_info_phys, 4096));
    assert_eq!(regions[3], (pre.mem_entries_phys, MEM_MAP_ENTRY_PAGES * 4096));
    assert_eq!(regions[4], (pre.stack_phys, KERNEL_STACK_PAGES * 4096));
    assert_eq!(regions[6], (pre.init_module.physical_base, 0x2000));
    assert_eq!(regions[9], (fb.physical_base, ((2560u64 * 480 + 4095) / 4096) * 4096));

    // without a framebuffer the set is one entry shorter
    let none = FramebufferInfo::empty();
    let regions = collect_identity_regions(&plan.info, &pre, &none);
    assert_eq!(regions.len(), 1 + 8);
}

#[test]
fn boot_info_carries_protocol_version_and_addresses() {
    let elf = make_elf(EM_X86_64, 0x200000, &[(PF_R | PF_X, 0, 0x200000, 0x200000, 0, 0x1000)]);
    let plan = load_kernel(&elf, EM_X86_64).unwrap();
    let init_elf = make_elf(EM_X86_64, 0x40_0000, &[(PF_R | PF_X, 0, 0x40_0000, 0x40_0000, 0, 0x1000)]);
    let init_plan = load_init(&init_elf, EM_X86_64).unwrap();
    let image = place_init_segments(&init_plan, &vec![0x9000_0000u64]);
    let pre = sample_preallocations();
    let firmware = FirmwareInfo { acpi_rsdp: 0xE_0000, device_tree: 0 };
    let info = make_boot_info(&plan.info, image, &pre, FramebufferInfo::empty(), firmware, 42);
    assert_eq!(info.version, BOOT_PROTOCOL_VERSION);
    assert_eq!(info.memory_map.entries, pre.mem_entries_phys);
    assert_eq!(info.memory_map.count, 42);
    assert_eq!(info.kernel_physical_base, 0x200000);
    assert_eq!(info.modules.count, 1);
    assert_eq!(info.acpi_rsdp, 0xE_0000);
    assert_eq!(info.device_tree, 0);
    assert_eq!(info.platform_resources.count, 0);
    assert_eq!(info.command_line, pre.cmdline_phys);
    assert_eq!(info.command_line_len, 0);
}

#[test]
fn exit_protocol_succeeds_first_try() {
    let (phase, action) = exit_protocol_step(ExitPhase::FirstAttempt, EFI_SUCCESS);
    assert_eq!(phase, ExitPhase::Exited);
    assert_eq!(action, ExitAction::Proceed);
}

#[test]
fn exit_protocol_retries_once_on_stale_key() {
    let (phase, action) = exit_protocol_step(ExitPhase::FirstAttempt, EFI_INVALID_PARAMETER);
    assert_eq!(phase, ExitPhase::AwaitingRequery);
    assert_eq!(action, ExitAction::RequeryIntoExistingBuffer);
    // the re-query refills the existing buffer; it never allocates
    assert_ne!(action, ExitAction::AllocatePages);
    let (phase, action) = exit_protocol_step(phase, EFI_SUCCESS);
    assert_eq!(phase, ExitPhase::SecondAttempt);
    assert_eq!(action, ExitAction::CallExit);
    let (phase, action) = exit_protocol_step(phase, EFI_SUCCESS);
    assert_eq!(phase, ExitPhase::Exited);
    assert_eq!(action, ExitAction::Proceed);
}

#[test]
fn exit_protocol_fails_after_second_stale_key() {
    let (phase, _) = exit_protocol_step(ExitPhase::FirstAttempt, EFI_INVALID_PARAMETER);
    let (phase, _) = exit_protocol_step(phase, EFI_SUCCESS);
    let (phase, action) = exit_protocol_step(phase, EFI_INVALID_PARAMETER);
    assert_eq!(phase, ExitPhase::Failed);
    assert_eq!(action, ExitAction::Halt);
}

#[test]
fn exit_protocol_fails_on_other_error() {
    let (phase, action) = exit_protocol_step(ExitPhase::FirstAttempt, 0xDEAD);
    assert_eq!(phase, ExitPhase::Failed);
    assert_eq!(action, ExitAction::Halt);
}

#[test]
fn boot_stages_run_strictly_forward() {
    let order = [
        BootStage::Start,
        BootStage::ProtoDiscovery,
        BootStage::ConfigLoaded,
        BootStage::KernelLoaded,
        BootStage::InitLoaded,
        BootStage::FirmwareKnown,
        BootStage::PreallocatedAndMapped,
        BootStage::MemoryMapCaptured,
        BootStage::BootServicesExited,
        BootStage::BootInfoWritten,
        BootStage::Handoff,
    ];
    let mut stage = BootStage::Start;
    for &expected in &order[1..] {
        stage = next_stage(stage, true);
        assert_eq!(stage, expected);
    }
    // a failure at any stage falls into the fatal halt
    assert_eq!(next_stage(BootStage::ConfigLoaded, false), BootStage::FatalHalt);
    assert_eq!(next_stage(BootStage::FatalHalt, true), BootStage::FatalHalt);
}

#[test]
fn framebuffer_selection_takes_linear_modes_only() {
    let fb = select_framebuffer(GOP_PIXEL_BGRX, 0x8000_0000, 1024, 768, 1024).unwrap();
    assert_eq!(fb.physical_base, 0x8000_0000);
    assert_eq!(fb.stride, 4096);
    assert_eq!(fb.pixel_format, PixelFormat::Bgrx8);
    let fb = select_framebuffer(GOP_PIXEL_RGBX, 0x8000_0000, 1024, 768, 1056).unwrap();
    assert_eq!(fb.pixel_format, PixelFormat::Rgbx8);
    assert_eq!(fb.stride, 1056 * 4);
    // bit-mask and blit-only modes have no usable linear framebuffer
    assert!(select_framebuffer(2, 0x8000_0000, 1024, 768, 1024).is_none());
    assert!(select_framebuffer(3, 0x8000_0000, 1024, 768, 1024).is_none());
    // a zero base means no framebuffer at all
    assert!(select_framebuffer(GOP_PIXEL_RGBX, 0, 1024, 768, 1024).is_none());
}

#[test]
fn guid_matching_compares_every_field() {
    // the ACPI 2.0 table GUID
    let acpi = EfiGuid {
        data1: 0x8868_E871,
        data2: 0xE4F1,
        data3: 0x11D3,
        data4: [0xBC, 0x22, 0x00, 0x80, 0xC7, 0x3C, 0x88, 0x81],
    };
    let mut other = acpi;
    assert!(guid_matches(&acpi, &other));
    other.data4[7] = 0x82;
    assert!(!guid_matches(&acpi, &other));
    other = acpi;
    other.data1 = 0;
    assert!(!guid_matches(&acpi, &other));
}

#[test]
fn map_allocation_adds_sixteen_descriptors_of_slack() {
    assert_eq!(map_allocation_size(4096, 48), Some(4096 + 16 * 48));
    assert_eq!(map_allocation_size(usize::MAX - 10, 48), None);
}
