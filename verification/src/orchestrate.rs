//! Boot-sequence orchestration: the ten-step protocol's decisions.
//!
//! The boot flows strictly forward: protocol discovery, configuration,
//! kernel and init load, firmware discovery, preallocation and page
//! tables, memory-map capture, `ExitBootServices`, `BootInfo`
//! population, handoff. The firmware calls themselves happen outside
//! the library; this module decides what each step computes: the stage
//! ordering, the identity-map set, the exit-and-retry protocol whose
//! retry may not allocate, and the final `BootInfo` record.

use vstd::prelude::*;

use crate::elf::{pages_for_bytes, KernelInfo};
use crate::protocol::{
    BootInfo, BootModule, FramebufferInfo, InitImage, MemoryMapSlice, ModuleSlice, PixelFormat,
    PlatformResourceSlice, BOOT_PROTOCOL_VERSION,
};

verus! {

/// Number of 4 KiB pages preallocated for the kernel stack (64 KiB).
pub const KERNEL_STACK_PAGES: u64 = 16;
/// Number of 4 KiB pages preallocated for the translated memory map.
pub const MEM_MAP_ENTRY_PAGES: u64 = 4;
/// UEFI status: success.
pub const EFI_SUCCESS: u64 = 0;
/// UEFI status: invalid parameter — the stale-map-key failure of
/// `ExitBootServices`.
pub const EFI_INVALID_PARAMETER: u64 = 0x8000_0000_0000_0002;

/// A UEFI GUID, as the configuration table keys its entries.
#[derive(Clone, Copy, Debug)]
pub struct EfiGuid {
    /// First field: 32 bits.
    pub data1: u32,
    /// Second field: 16 bits.
    pub data2: u16,
    /// Third field: 16 bits.
    pub data3: u16,
    /// Final eight bytes.
    pub data4: [u8; 8],
}

/// Whether two GUIDs name the same table: the field-by-field equality
/// the configuration-table scan tests each entry with.
pub fn guid_matches(a: &EfiGuid, b: &EfiGuid) -> (r: bool)
    ensures
        r == (a == b),
{
    let mut same = a.data1 == b.data1 && a.data2 == b.data2 && a.data3 == b.data3;
    let mut i: usize = 0;
    while i < 8
        invariant
            i <= 8,
            same == (a.data1 == b.data1 && a.data2 == b.data2 && a.data3 == b.data3
                && forall|k: int| 0 <= k < i ==> a.data4@[k] == b.data4@[k]),
        decreases 8 - i,
    {
        if a.data4[i] != b.data4[i] {
            same = false;
        }
        i += 1;
    }
    proof {
        if same {
            assert(a.data4@ =~= b.data4@);
            assert(a.data4 == b.data4);
        }
    }
    same
}

/// Physical addresses of firmware tables discovered from the UEFI
/// configuration table; zero marks an absent table.
#[derive(Clone, Copy, Debug, PartialEq, Eq, Structural)]
pub struct FirmwareInfo {
    /// Physical address of the ACPI RSDP. Zero if not present.
    pub acpi_rsdp: u64,
    /// Physical address of the Device Tree blob. Zero if not present.
    pub device_tree: u64,
}

/// The fixed allocations made before any page table is built, each a
/// physical base chosen by firmware.
#[derive(Clone, Copy, Debug, PartialEq, Eq, Structural)]
pub struct PreAllocations {
    /// One page holding the `BootInfo` record.
    pub boot_info_phys: u64,
    /// One page holding the module array.
    pub modules_phys: u64,
    /// [`MEM_MAP_ENTRY_PAGES`] pages holding the translated memory map.
    pub mem_entries_phys: u64,
    /// [`KERNEL_STACK_PAGES`] pages of kernel stack.
    pub stack_phys: u64,
    /// One page holding the command-line string.
    pub cmdline_phys: u64,
    /// The loaded init module image.
    pub init_module: BootModule,
    /// Temporary buffer holding the kernel ELF file.
    pub kernel_buf_phys: u64,
    /// Pages of the kernel file buffer.
    pub kernel_buf_pages: u64,
    /// Temporary buffer holding the init ELF file.
    pub init_buf_phys: u64,
    /// Pages of the init file buffer.
    pub init_buf_pages: u64,
}

/// `size` rounded up to whole 4 KiB pages, in bytes.
pub open spec fn round4k(size: u64) -> u64 {
    (crate::paging::npages_spec(size) * 4096) as u64
}

/// Round a byte count up to whole pages.
pub fn round_to_pages(size: u64) -> (r: u64)
    requires
        size <= u64::MAX - 4095,
    ensures
        r == round4k(size),
        r as int == crate::paging::npages_spec(size) * 4096,
{
    let pages = pages_for_bytes(size);
    pages * 4096
}

/// Gather every physical region that must stay reachable by the kernel
/// at entry: each kernel segment's physical range, every fixed boot
/// allocation, the temporary ELF read buffers, and the framebuffer when
/// one is present. Each region's size is rounded up to whole pages.
pub fn collect_identity_regions(
    kernel: &KernelInfo,
    pre: &PreAllocations,
    framebuffer: &FramebufferInfo,
) -> (r: Vec<(u64, u64)>)
    requires
        forall|i: int| 0 <= i < kernel.segments@.len()
            ==> (#[trigger] kernel.segments@[i]).size <= u64::MAX - 4095,
        pre.init_module.size <= u64::MAX - 4095,
        pre.kernel_buf_pages <= 0xF_FFFF_FFFF_FFFF,
        pre.init_buf_pages <= 0xF_FFFF_FFFF_FFFF,
        framebuffer.stride as int * framebuffer.height as int <= u64::MAX - 4095,
    ensures
        ({
            let nseg = kernel.segments@.len() as int;
            let nfb: int = if framebuffer.physical_base != 0 { 1int } else { 0int };
            &&& r@.len() == nseg + 8 + nfb
            &&& forall|i: int| 0 <= i < nseg ==> r@[i] == (
                (#[trigger] kernel.segments@[i]).phys_base,
                round4k(kernel.segments@[i].size),
            )
            &&& r@[nseg] == (pre.boot_info_phys, 4096u64)
            &&& r@[nseg + 1] == (pre.modules_phys, 4096u64)
            &&& r@[nseg + 2] == (pre.mem_entries_phys, (MEM_MAP_ENTRY_PAGES * 4096) as u64)
            &&& r@[nseg + 3] == (pre.stack_phys, (KERNEL_STACK_PAGES * 4096) as u64)
            &&& r@[nseg + 4] == (pre.cmdline_phys, 4096u64)
            &&& r@[nseg + 5] == (pre.init_module.physical_base, round4k(pre.init_module.size))
            &&& r@[nseg + 6] == (pre.kernel_buf_phys, (pre.kernel_buf_pages * 4096) as u64)
            &&& r@[nseg + 7] == (pre.init_buf_phys, (pre.init_buf_pages * 4096) as u64)
            &&& (framebuffer.physical_base != 0 ==> r@[nseg + 8] == (
                framebuffer.physical_base,
                round4k((framebuffer.stride as u64 * framebuffer.height as u64) as u64),
            ))
        }),
{
    let mut regions: Vec<(u64, u64)> = Vec::new();
    let nseg = kernel.segments.len();
    let mut i: usize = 0;
    while i < nseg
        invariant
            nseg == kernel.segments@.len(),
            i <= nseg,
            forall|k: int| 0 <= k < kernel.segments@.len()
                ==> (#[trigger] kernel.segments@[k]).size <= u64::MAX - 4095,
            regions@.len() == i,
            forall|k: int| 0 <= k < i ==> regions@[k] == (
                (#[trigger] kernel.segments@[k]).phys_base,
                round4k(kernel.segments@[k].size),
            ),
        decreases nseg - i,
    {
        let seg = &kernel.segments[i];
        let aligned = round_to_pages(seg.size);
        regions.push((seg.phys_base, aligned));
        i += 1;
    }
    regions.push((pre.boot_info_phys, 4096));
    regions.push((pre.modules_phys, 4096));
    regions.push((pre.mem_entries_phys, MEM_MAP_ENTRY_PAGES * 4096));
    regions.push((pre.stack_phys, KERNEL_STACK_PAGES * 4096));
    regions.push((pre.cmdline_phys, 4096));
    regions.push((pre.init_module.physical_base, round_to_pages(pre.init_module.size)));
    regions.push((pre.kernel_buf_phys, pre.kernel_buf_pages * 4096));
    regions.push((pre.init_buf_phys, pre.init_buf_pages * 4096));
    if framebuffer.physical_base != 0 {
        let fb_size = framebuffer.stride as u64 * framebuffer.height as u64;
        regions.push((framebuffer.physical_base, round_to_pages(fb_size)));
    }
    regions
}

// ── ExitBootServices protocol ────────────────────────────────────────────

/// Where the exit protocol stands.
#[derive(Clone, Copy, Debug, PartialEq, Eq, Structural)]
pub enum ExitPhase {
    /// The first `ExitBootServices` call is outstanding.
    FirstAttempt,
    /// The first call failed on a stale key; the map must be re-queried
    /// into the existing buffer.
    AwaitingRequery,
    /// The re-query succeeded; the single retry is outstanding.
    SecondAttempt,
    /// Boot services have exited.
    Exited,
    /// The exit failed for good; the only recovery is a halt.
    Failed,
}

/// What the caller must do next. `AllocatePages` stands in the
/// vocabulary only so the protocol can be seen never to ask for it
/// between memory-map capture and the exit.
#[derive(Clone, Copy, Debug, PartialEq, Eq, Structural)]
pub enum ExitAction {
    /// Invoke `ExitBootServices` with the current map key.
    CallExit,
    /// Re-query the memory map into the existing buffer, allocating
    /// nothing.
    RequeryIntoExistingBuffer,
    /// Allocate fresh pages. The protocol never asks for this.
    AllocatePages,
    /// Boot services are gone; go on to populate `BootInfo`.
    Proceed,
    /// Report the failure and halt.
    Halt,
}

/// How far the protocol still has to go.
pub open spec fn exit_phase_rank(p: ExitPhase) -> int {
    match p {
        ExitPhase::FirstAttempt => 3,
        ExitPhase::AwaitingRequery => 2,
        ExitPhase::SecondAttempt => 1,
        ExitPhase::Exited => 0,
        ExitPhase::Failed => 0,
    }
}

/// The exit protocol's one step: from the current phase and the status
/// the last firmware call returned, decide the next phase and action.
///
/// A stale key (`EFI_INVALID_PARAMETER`) on the first call earns exactly
/// one retry, fed by a re-query into the existing buffer; any other
/// failure, a failed re-query, or a failed retry is fatal.
pub fn exit_protocol_step(phase: ExitPhase, status: u64) -> (r: (ExitPhase, ExitAction))
    ensures
        r == exit_protocol_step_spec(phase, status),
{
    match phase {
        ExitPhase::FirstAttempt => {
            if status == EFI_SUCCESS {
                (ExitPhase::Exited, ExitAction::Proceed)
            } else if status == EFI_INVALID_PARAMETER {
                (ExitPhase::AwaitingRequery, ExitAction::RequeryIntoExistingBuffer)
            } else {
                (ExitPhase::Failed, ExitAction::Halt)
            }
        },
        ExitPhase::AwaitingRequery => {
            if status == EFI_SUCCESS {
                (ExitPhase::SecondAttempt, ExitAction::CallExit)
            } else {
                (ExitPhase::Failed, ExitAction::Halt)
            }
        },
        ExitPhase::SecondAttempt => {
            if status == EFI_SUCCESS {
                (ExitPhase::Exited, ExitAction::Proceed)
            } else {
                (ExitPhase::Failed, ExitAction::Halt)
            }
        },
        ExitPhase::Exited => (ExitPhase::Exited, ExitAction::Proceed),
        ExitPhase::Failed => (ExitPhase::Failed, ExitAction::Halt),
    }
}

/// The step function as a specification value.
pub open spec fn exit_protocol_step_spec(phase: ExitPhase, status: u64) -> (ExitPhase, ExitAction) {
    match phase {
        ExitPhase::FirstAttempt => if status == EFI_SUCCESS {
            (ExitPhase::Exited, ExitAction::Proceed)
        } else if status == EFI_INVALID_PARAMETER {
            (ExitPhase::AwaitingRequery, ExitAction::RequeryIntoExistingBuffer)
        } else {
            (ExitPhase::Failed, ExitAction::Halt)
        },
        ExitPhase::AwaitingRequery => if status == EFI_SUCCESS {
            (ExitPhase::SecondAttempt, ExitAction::CallExit)
        } else {
            (ExitPhase::Failed, ExitAction::Halt)
        },
        ExitPhase::SecondAttempt => if status == EFI_SUCCESS {
            (ExitPhase::Exited, ExitAction::Proceed)
        } else {
            (ExitPhase::Failed, ExitAction::Halt)
        },
        ExitPhase::Exited => (ExitPhase::Exited, ExitAction::Proceed),
        ExitPhase::Failed => (ExitPhase::Failed, ExitAction::Halt),
    }
}

/// Between memory-map capture and the exit, the protocol never asks the
/// firmware for an allocation: every step's action re-uses the existing
/// buffer or calls `ExitBootServices` itself.
pub proof fn lemma_exit_protocol_never_allocates(phase: ExitPhase, status: u64)
    ensures
        exit_protocol_step_spec(phase, status).1 != ExitAction::AllocatePages,
{
}

/// The protocol retries at most once and always terminates: its rank
/// falls strictly until a terminal phase, and the retry call is issued
/// only from the re-query phase, which is entered at most once.
pub proof fn lemma_exit_protocol_single_retry(phase: ExitPhase, status: u64)
    ensures
        exit_phase_rank(phase) > 0 ==> exit_phase_rank(exit_protocol_step_spec(phase, status).0)
            < exit_phase_rank(phase),
        exit_protocol_step_spec(phase, status).1 == ExitAction::CallExit ==> phase
            == ExitPhase::AwaitingRequery,
        exit_protocol_step_spec(phase, status).0 == ExitPhase::AwaitingRequery ==> phase
            == ExitPhase::FirstAttempt,
{
}

// ── Boot stages ──────────────────────────────────────────────────────────

/// The stages of the boot sequence, in their one correct order. Any
/// stage may abort into the fatal halt; there is no backward edge.
#[derive(Clone, Copy, Debug, PartialEq, Eq, Structural)]
pub enum BootStage {
    /// Before anything has run.
    Start,
    /// UEFI protocols discovered, console up.
    ProtoDiscovery,
    /// Boot configuration parsed.
    ConfigLoaded,
    /// Kernel ELF validated and placed.
    KernelLoaded,
    /// Init ELF validated and placed.
    InitLoaded,
    /// Firmware table addresses recorded.
    FirmwareKnown,
    /// Fixed allocations made and page tables built.
    PreallocatedAndMapped,
    /// Final memory map captured.
    MemoryMapCaptured,
    /// Boot services exited.
    BootServicesExited,
    /// `BootInfo` populated.
    BootInfoWritten,
    /// Control transferred to the kernel; terminal.
    Handoff,
    /// A fatal condition was reported; terminal.
    FatalHalt,
}

/// Position of a stage along the sequence.
pub open spec fn stage_rank(s: BootStage) -> int {
    match s {
        BootStage::Start => 0,
        BootStage::ProtoDiscovery => 1,
        BootStage::ConfigLoaded => 2,
        BootStage::KernelLoaded => 3,
        BootStage::InitLoaded => 4,
        BootStage::FirmwareKnown => 5,
        BootStage::PreallocatedAndMapped => 6,
        BootStage::MemoryMapCaptured => 7,
        BootStage::BootServicesExited => 8,
        BootStage::BootInfoWritten => 9,
        BootStage::Handoff => 10,
        BootStage::FatalHalt => 11,
    }
}

/// The successor of a stage when its step succeeds; on failure every
/// stage falls into the fatal halt instead.
pub fn next_stage(s: BootStage, ok: bool) -> (r: BootStage)
    ensures
        !ok ==> r == (if s == BootStage::Handoff { BootStage::Handoff } else {
            BootStage::FatalHalt
        }),
        ok ==> r == match s {
            BootStage::Start => BootStage::ProtoDiscovery,
            BootStage::ProtoDiscovery => BootStage::ConfigLoaded,
            BootStage::ConfigLoaded => BootStage::KernelLoaded,
            BootStage::KernelLoaded => BootStage::InitLoaded,
            BootStage::InitLoaded => BootStage::FirmwareKnown,
            BootStage::FirmwareKnown => BootStage::PreallocatedAndMapped,
            BootStage::PreallocatedAndMapped => BootStage::MemoryMapCaptured,
            BootStage::MemoryMapCaptured => BootStage::BootServicesExited,
            BootStage::BootServicesExited => BootStage::BootInfoWritten,
            BootStage::BootInfoWritten => BootStage::Handoff,
            BootStage::Handoff => BootStage::Handoff,
            BootStage::FatalHalt => BootStage::FatalHalt,
        },
        stage_rank(r) >= stage_rank(s) || s == BootStage::FatalHalt,
{
    if !ok {
        if s == BootStage::Handoff {
            return BootStage::Handoff;
        }
        return BootStage::FatalHalt;
    }
    match s {
        BootStage::Start => BootStage::ProtoDiscovery,
        BootStage::ProtoDiscovery => BootStage::ConfigLoaded,
        BootStage::ConfigLoaded => BootStage::KernelLoaded,
        BootStage::KernelLoaded => BootStage::InitLoaded,
        BootStage::InitLoaded => BootStage::FirmwareKnown,
        BootStage::FirmwareKnown => BootStage::PreallocatedAndMapped,
        BootStage::PreallocatedAndMapped => BootStage::MemoryMapCaptured,
        BootStage::MemoryMapCaptured => BootStage::BootServicesExited,
        BootStage::BootServicesExited => BootStage::BootInfoWritten,
        BootStage::BootInfoWritten => BootStage::Handoff,
        BootStage::Handoff => BootStage::Handoff,
        BootStage::FatalHalt => BootStage::FatalHalt,
    }
}

// ── BootInfo population ──────────────────────────────────────────────────

/// Assemble the `BootInfo` record the kernel reads at entry.
///
/// The version is always the protocol constant the kernel enforces; the
/// memory map and module slices point at the preallocated pages; the
/// platform-resource slice is empty in this protocol version, and the
/// command line is the empty null-terminated string in its own page.
pub fn make_boot_info(
    kernel: &KernelInfo,
    init_image: InitImage,
    pre: &PreAllocations,
    framebuffer: FramebufferInfo,
    firmware: FirmwareInfo,
    entry_count: u64,
) -> (r: BootInfo)
    ensures
        r.version == BOOT_PROTOCOL_VERSION,
        r.memory_map == (MemoryMapSlice { entries: pre.mem_entries_phys, count: entry_count }),
        r.kernel_physical_base == kernel.physical_base,
        r.kernel_virtual_base == kernel.virtual_base,
        r.kernel_size == kernel.size,
        r.init_image == init_image,
        r.modules == (ModuleSlice { entries: pre.modules_phys, count: 1 }),
        r.framebuffer == framebuffer,
        r.acpi_rsdp == firmware.acpi_rsdp,
        r.device_tree == firmware.device_tree,
        r.platform_resources == (PlatformResourceSlice { entries: 0, count: 0 }),
        r.command_line == pre.cmdline_phys,
        r.command_line_len == 0,
{
    BootInfo {
        version: BOOT_PROTOCOL_VERSION,
        memory_map: MemoryMapSlice { entries: pre.mem_entries_phys, count: entry_count },
        kernel_physical_base: kernel.physical_base,
        kernel_virtual_base: kernel.virtual_base,
        kernel_size: kernel.size,
        init_image,
        modules: ModuleSlice { entries: pre.modules_phys, count: 1 },
        framebuffer,
        acpi_rsdp: firmware.acpi_rsdp,
        device_tree: firmware.device_tree,
        // platform resources are extracted by a userspace collaborator;
        // this protocol version hands the kernel an empty slice
        platform_resources: PlatformResourceSlice { entries: 0, count: 0 },
        command_line: pre.cmdline_phys,
        command_line_len: 0,
    }
}

/// Size in bytes to allocate for the raw memory-map buffer: the
/// firmware-reported size plus sixteen descriptors of slack, so the
/// buffer's own allocation still fits the map it is about to hold.
pub fn map_allocation_size(map_size: usize, descriptor_size: usize) -> (r: Option<usize>)
    ensures
        match r {
            Some(v) => v == map_size + 16 * descriptor_size,
            None => map_size as int + 16 * (descriptor_size as int) > usize::MAX,
        },
{
    let room = (usize::MAX - map_size) / 16;
    proof {
        vstd::arithmetic::div_mod::lemma_fundamental_div_mod(
            usize::MAX as int - map_size as int,
            16,
        );
        vstd::arithmetic::div_mod::lemma_mod_bound(usize::MAX as int - map_size as int, 16);
    }
    if descriptor_size > room {
        None
    } else {
        Some(map_size + 16 * descriptor_size)
    }
}

// ── Framebuffer selection ────────────────────────────────────────────────

/// GOP pixel format: red-green-blue-reserved, 8 bits per channel.
pub const GOP_PIXEL_RGBX: u32 = 0;
/// GOP pixel format: blue-green-red-reserved, 8 bits per channel.
pub const GOP_PIXEL_BGRX: u32 = 1;

/// Decide whether a graphics mode is usable and describe its
/// framebuffer.
///
/// A mode is accepted only when it exposes a linear framebuffer at a
/// nonzero address in one of the two byte orders the kernel renders;
/// bit-mask and blit-only modes are skipped. The stride converts the
/// firmware's pixels-per-scan-line into bytes at four bytes per pixel.
pub fn select_framebuffer(
    pixel_format_raw: u32,
    frame_buffer_base: u64,
    width: u32,
    height: u32,
    pixels_per_scan_line: u32,
) -> (r: Option<FramebufferInfo>)
    requires
        pixels_per_scan_line <= u32::MAX / 4,
    ensures
        r is Some <==> (frame_buffer_base != 0 && (pixel_format_raw == GOP_PIXEL_RGBX
            || pixel_format_raw == GOP_PIXEL_BGRX)),
        r matches Some(fb) ==> {
            &&& fb.physical_base == frame_buffer_base
            &&& fb.width == width
            &&& fb.height == height
            &&& fb.stride == pixels_per_scan_line * 4
            &&& fb.pixel_format == (if pixel_format_raw == GOP_PIXEL_RGBX {
                PixelFormat::Rgbx8
            } else {
                PixelFormat::Bgrx8
            })
        },
{
    let pixel_format = if pixel_format_raw == GOP_PIXEL_RGBX {
        PixelFormat::Rgbx8
    } else if pixel_format_raw == GOP_PIXEL_BGRX {
        PixelFormat::Bgrx8
    } else {
        return None;
    };
    if frame_buffer_base == 0 {
        return None;
    }
    Some(FramebufferInfo {
        physical_base: frame_buffer_base,
        width,
        height,
        stride: pixels_per_scan_line * 4,
        pixel_format,
    })
}

} // verus!
