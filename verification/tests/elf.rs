use seraph_boot::elf::{
    check_wx_segments, load_kernel, validate_elf_header, Elf64Phdr, EM_RISCV, EM_X86_64,
};
use seraph_boot::error::BootError;

// ── Test helpers ─────────────────────────────────────────────────────────

const ELFMAG: [u8; 4] = [0x7F, b'E', b'L', b'F'];
const PT_LOAD: u32 = 1;
const PF_X: u32 = 1;
const PF_W: u32 = 2;
const PF_R: u32 = 4;
const EHDR_SZ: usize = 64;
const PHDR_SZ: usize = 56;

/// Build a minimal valid ELF64 little-endian executable image:
/// one header, one PT_LOAD program header covering `[0x1000, 0x2000)`
/// with entry `0x1000` and permissions R+X, and one byte of file data.
fn make_test_elf(machine: u16) -> Vec<u8> {
    let total = EHDR_SZ + PHDR_SZ + 1;
    let mut buf = vec![0u8; total];
    buf[0..4].copy_from_slice(&ELFMAG);
    buf[4] = 2; // ELFCLASS64
    buf[5] = 1; // ELFDATA2LSB
    buf[6] = 1; // EV_CURRENT
    buf[16..18].copy_from_slice(&2u16.to_le_bytes()); // e_type = ET_EXEC
    buf[18..20].copy_from_slice(&machine.to_le_bytes());
    buf[20..24].copy_from_slice(&1u32.to_le_bytes()); // e_version
    buf[24..32].copy_from_slice(&0x1000u64.to_le_bytes()); // e_entry
    buf[32..40].copy_from_slice(&(EHDR_SZ as u64).to_le_bytes()); // e_phoff
    buf[52..54].copy_from_slice(&(EHDR_SZ as u16).to_le_bytes()); // e_ehsize
    buf[54..56].copy_from_slice(&(PHDR_SZ as u16).to_le_bytes()); // e_phentsize
    buf[56..58].copy_from_slice(&1u16.to_le_bytes()); // e_phnum

    let ph = EHDR_SZ;
    buf[ph..ph + 4].copy_from_slice(&PT_LOAD.to_le_bytes());
    buf[ph + 4..ph + 8].copy_from_slice(&(PF_R | PF_X).to_le_bytes());
    buf[ph + 8..ph + 16].copy_from_slice(&((EHDR_SZ + PHDR_SZ) as u64).to_le_bytes()); // p_offset
    buf[ph + 16..ph + 24].copy_from_slice(&0x1000u64.to_le_bytes()); // p_vaddr
    buf[ph + 24..ph + 32].copy_from_slice(&0x1000u64.to_le_bytes()); // p_paddr
    buf[ph + 32..ph + 40].copy_from_slice(&1u64.to_le_bytes()); // p_filesz
    buf[ph + 40..ph + 48].copy_from_slice(&0x1000u64.to_le_bytes()); // p_memsz
    buf[ph + 48..ph + 56].copy_from_slice(&0x1000u64.to_le_bytes()); // p_align
    buf
}

fn make_phdr(p_type: u32, p_flags: u32) -> Elf64Phdr {
    Elf64Phdr {
        p_type,
        p_flags,
        p_offset: 0,
        p_vaddr: 0,
        p_paddr: 0,
        p_filesz: 0,
        p_memsz: 0,
        p_align: 0,
    }
}

// ── check_wx_segments ────────────────────────────────────────────────────

#[test]
fn wx_load_segment_returns_wx_violation() {
    let phdrs = vec![make_phdr(PT_LOAD, PF_W | PF_X)];
    assert!(matches!(check_wx_segments(&phdrs), Err(BootError::WxViolation)));
}

#[test]
fn write_only_load_segment_passes() {
    let phdrs = vec![make_phdr(PT_LOAD, PF_W)];
    assert!(check_wx_segments(&phdrs).is_ok());
}

#[test]
fn execute_only_load_segment_passes() {
    let phdrs = vec![make_phdr(PT_LOAD, PF_X)];
    assert!(check_wx_segments(&phdrs).is_ok());
}

#[test]
fn non_load_wx_segment_is_ignored() {
    let phdrs = vec![make_phdr(0x6474_E551, PF_W | PF_X)];
    assert!(check_wx_segments(&phdrs).is_ok());
}

#[test]
fn empty_phdr_slice_passes() {
    let phdrs: Vec<Elf64Phdr> = Vec::new();
    assert!(check_wx_segments(&phdrs).is_ok());
}

// ── Success-path validation ──────────────────────────────────────────────

#[test]
fn valid_x86_64_elf_passes_validation() {
    let elf = make_test_elf(EM_X86_64);
    assert!(validate_elf_header(&elf, EM_X86_64).is_ok());
}

#[test]
fn valid_riscv_elf_passes_validation() {
    let elf = make_test_elf(EM_RISCV);
    assert!(validate_elf_header(&elf, EM_RISCV).is_ok());
}

#[test]
fn validate_returns_correct_entry_field() {
    let elf = make_test_elf(EM_X86_64);
    let ehdr = validate_elf_header(&elf, EM_X86_64).unwrap();
    assert_eq!(ehdr.e_entry, 0x1000);
}

#[test]
fn validate_returns_correct_machine_field() {
    let elf = make_test_elf(EM_RISCV);
    let ehdr = validate_elf_header(&elf, EM_RISCV).unwrap();
    assert_eq!(ehdr.e_machine, EM_RISCV);
}

#[test]
fn entry_at_last_byte_of_segment_passes() {
    // segment is [0x1000, 0x2000); the last valid entry address is 0x1FFF
    let mut elf = make_test_elf(EM_X86_64);
    elf[24..32].copy_from_slice(&0x1FFFu64.to_le_bytes());
    assert!(validate_elf_header(&elf, EM_X86_64).is_ok());
}

// ── Validation failures, check by check ──────────────────────────────────

#[test]
fn empty_buffer_returns_invalid_elf() {
    let result = validate_elf_header(&Vec::new(), EM_X86_64);
    assert!(matches!(result, Err(BootError::InvalidElf(_))));
}

#[test]
fn buffer_shorter_than_header_returns_invalid_elf() {
    let short = vec![0u8; 32];
    let result = validate_elf_header(&short, EM_X86_64);
    assert!(matches!(result, Err(BootError::InvalidElf(_))));
}

#[test]
fn corrupted_magic_byte_0_returns_invalid_elf() {
    let mut elf = make_test_elf(EM_X86_64);
    elf[0] = 0x00;
    assert!(matches!(validate_elf_header(&elf, EM_X86_64), Err(BootError::InvalidElf(_))));
}

#[test]
fn corrupted_magic_byte_1_returns_invalid_elf() {
    let mut elf = make_test_elf(EM_X86_64);
    elf[1] = b'X';
    assert!(matches!(validate_elf_header(&elf, EM_X86_64), Err(BootError::InvalidElf(_))));
}

#[test]
fn elf_class32_returns_invalid_elf() {
    let mut elf = make_test_elf(EM_X86_64);
    elf[4] = 1; // ELFCLASS32
    assert!(matches!(validate_elf_header(&elf, EM_X86_64), Err(BootError::InvalidElf(_))));
}

#[test]
fn big_endian_elf_returns_invalid_elf() {
    let mut elf = make_test_elf(EM_X86_64);
    elf[5] = 2; // ELFDATA2MSB
    assert!(matches!(validate_elf_header(&elf, EM_X86_64), Err(BootError::InvalidElf(_))));
}

#[test]
fn elf_version_zero_returns_invalid_elf() {
    let mut elf = make_test_elf(EM_X86_64);
    elf[6] = 0;
    assert!(matches!(validate_elf_header(&elf, EM_X86_64), Err(BootError::InvalidElf(_))));
}

#[test]
fn et_dyn_elf_type_returns_invalid_elf() {
    let mut elf = make_test_elf(EM_X86_64);
    elf[16..18].copy_from_slice(&3u16.to_le_bytes()); // ET_DYN
    assert!(matches!(validate_elf_header(&elf, EM_X86_64), Err(BootError::InvalidElf(_))));
}

#[test]
fn riscv_elf_with_x86_expected_returns_invalid_elf() {
    let elf = make_test_elf(EM_RISCV);
    assert!(matches!(validate_elf_header(&elf, EM_X86_64), Err(BootError::InvalidElf(_))));
}

#[test]
fn x86_elf_with_riscv_expected_returns_invalid_elf() {
    let elf = make_test_elf(EM_X86_64);
    assert!(matches!(validate_elf_header(&elf, EM_RISCV), Err(BootError::InvalidElf(_))));
}

#[test]
fn wrong_phentsize_returns_invalid_elf() {
    let mut elf = make_test_elf(EM_X86_64);
    elf[54..56].copy_from_slice(&32u16.to_le_bytes());
    assert!(matches!(validate_elf_header(&elf, EM_X86_64), Err(BootError::InvalidElf(_))));
}

#[test]
fn zero_phnum_returns_invalid_elf() {
    let mut elf = make_test_elf(EM_X86_64);
    elf[56..58].copy_from_slice(&0u16.to_le_bytes());
    assert!(matches!(validate_elf_header(&elf, EM_X86_64), Err(BootError::InvalidElf(_))));
}

#[test]
fn entry_outside_all_segments_returns_invalid_elf() {
    let mut elf = make_test_elf(EM_X86_64);
    elf[24..32].copy_from_slice(&0xDEAD_0000u64.to_le_bytes());
    assert!(matches!(validate_elf_header(&elf, EM_X86_64), Err(BootError::InvalidElf(_))));
}

#[test]
fn entry_one_past_segment_end_returns_invalid_elf() {
    let mut elf = make_test_elf(EM_X86_64);
    elf[24..32].copy_from_slice(&0x2000u64.to_le_bytes());
    assert!(matches!(validate_elf_header(&elf, EM_X86_64), Err(BootError::InvalidElf(_))));
}

// ── Load planning ────────────────────────────────────────────────────────

#[test]
fn entry_outside_reports_exact_reason() {
    let mut elf = make_test_elf(EM_X86_64);
    elf[24..32].copy_from_slice(&0xDEAD_0000u64.to_le_bytes());
    match load_kernel(&elf, EM_X86_64) {
        Err(BootError::InvalidElf(reason)) => {
            assert_eq!(reason, "entry point not in any LOAD segment");
        },
        other => panic!("expected InvalidElf, got {:?}", other.is_ok()),
    }
}

#[test]
fn load_kernel_plans_single_segment() {
    let elf = make_test_elf(EM_X86_64);
    let plan = load_kernel(&elf, EM_X86_64).unwrap();
    assert_eq!(plan.info.segment_count, 1);
    assert_eq!(plan.info.physical_base, 0x1000);
    assert_eq!(plan.info.virtual_base, 0x1000);
    assert_eq!(plan.info.size, 0x1000);
    assert_eq!(plan.info.entry_virtual, 0x1000);
    assert_eq!(plan.copies.len(), 1);
    assert_eq!(plan.copies[0].dest_phys, 0x1000);
    assert_eq!(plan.copies[0].file_off, (EHDR_SZ + PHDR_SZ) as u64);
    assert_eq!(plan.copies[0].file_sz, 1);
    assert_eq!(plan.copies[0].zero_sz, 0x1000 - 1);
    assert_eq!(plan.copies[0].page_count, 1);
}

#[test]
fn load_kernel_rejects_wx_segment() {
    let mut elf = make_test_elf(EM_RISCV);
    let ph = EHDR_SZ;
    elf[ph + 4..ph + 8].copy_from_slice(&(PF_R | PF_W | PF_X).to_le_bytes());
    assert!(matches!(load_kernel(&elf, EM_RISCV), Err(BootError::WxViolation)));
}

#[test]
fn load_kernel_rejects_memsz_below_filesz() {
    let mut elf = make_test_elf(EM_X86_64);
    let ph = EHDR_SZ;
    elf[ph + 32..ph + 40].copy_from_slice(&0x2000u64.to_le_bytes()); // p_filesz > p_memsz
    assert!(matches!(load_kernel(&elf, EM_X86_64), Err(BootError::InvalidElf(_))));
}
