//! Boot protocol types shared between the bootloader and the kernel.
//!
//! Defines the [`BootInfo`] record and its constituent types. The binary
//! form handed to the kernel is `#[repr(C)]` with every pointer a physical
//! address; this crate models those pointers as plain `u64` physical
//! addresses, and the `code` methods pin the `u32` discriminant each enum
//! takes in that binary layout.
//!
//! The [`BOOT_PROTOCOL_VERSION`] constant must match between the bootloader
//! and kernel; the kernel halts at entry if the versions differ.

use vstd::prelude::*;

verus! {

/// Current boot protocol version. Incremented whenever the `BootInfo`
/// layout or the CPU entry contract changes incompatibly.
pub const BOOT_PROTOCOL_VERSION: u32 = 3;

/// Maximum number of ELF LOAD segments in the kernel or init image.
pub const INIT_MAX_SEGMENTS: usize = 8;

// ── Memory map ───────────────────────────────────────────────────────────

/// Classification of a physical memory region.
#[derive(Clone, Copy, Debug, PartialEq, Eq, Structural)]
pub enum MemoryType {
    /// Available for use by the kernel.
    Usable,
    /// In use by the kernel image or boot modules.
    Loaded,
    /// Reserved by firmware or hardware; must not be used.
    Reserved,
    /// ACPI reclaimable once userspace firmware parsing is complete.
    AcpiReclaimable,
    /// Persistent memory (NVDIMM or similar).
    Persistent,
}

impl MemoryType {
    /// The `u32` discriminant this variant takes in the binary layout.
    pub fn code(&self) -> (r: u32)
        ensures
            r == self.code_spec(),
    {
        match self {
            MemoryType::Usable => 0,
            MemoryType::Loaded => 1,
            MemoryType::Reserved => 2,
            MemoryType::AcpiReclaimable => 3,
            MemoryType::Persistent => 4,
        }
    }

    /// Discriminant of each variant in the binary layout.
    pub open spec fn code_spec(self) -> u32 {
        match self {
            MemoryType::Usable => 0,
            MemoryType::Loaded => 1,
            MemoryType::Reserved => 2,
            MemoryType::AcpiReclaimable => 3,
            MemoryType::Persistent => 4,
        }
    }
}

/// A single entry in the physical memory map.
#[derive(Clone, Copy, Debug, PartialEq, Eq, Structural)]
pub struct MemoryMapEntry {
    /// Physical base address of the region.
    pub physical_base: u64,
    /// Size of the region in bytes.
    pub size: u64,
    /// Classification of the region.
    pub memory_type: MemoryType,
}

/// A slice of [`MemoryMapEntry`] values, passed by physical address.
///
/// Entries are sorted by `physical_base` ascending and do not overlap.
#[derive(Clone, Copy, Debug, PartialEq, Eq, Structural)]
pub struct MemoryMapSlice {
    /// Physical address of the first entry. Zero if `count` is zero.
    pub entries: u64,
    /// Number of entries.
    pub count: u64,
}

// ── Boot modules ─────────────────────────────────────────────────────────

/// A boot module loaded by the bootloader (a raw image for early services).
#[derive(Clone, Copy, Debug, PartialEq, Eq, Structural)]
pub struct BootModule {
    /// Physical base address of the module data.
    pub physical_base: u64,
    /// Size of the module data in bytes (file size, not page-rounded).
    pub size: u64,
}

/// A slice of [`BootModule`] values, passed by physical address.
#[derive(Clone, Copy, Debug, PartialEq, Eq, Structural)]
pub struct ModuleSlice {
    /// Physical address of the first entry. Zero if `count` is zero.
    pub entries: u64,
    /// Number of entries.
    pub count: u64,
}

// ── Init pre-parsed segments ─────────────────────────────────────────────

/// Permission class of a loaded ELF segment. `ReadWrite` and `ReadExecute`
/// are mutually exclusive by construction: W^X holds per segment.
#[derive(Clone, Copy, Debug, PartialEq, Eq, Structural)]
pub enum SegmentFlags {
    /// Readable, not writable, not executable (e.g. rodata).
    Read,
    /// Readable and writable (e.g. data/bss).
    ReadWrite,
    /// Readable and executable (e.g. text).
    ReadExecute,
}

impl SegmentFlags {
    /// The `u32` discriminant this variant takes in the binary layout.
    pub fn code(&self) -> (r: u32)
        ensures
            r == self.code_spec(),
    {
        match self {
            SegmentFlags::Read => 0,
            SegmentFlags::ReadWrite => 1,
            SegmentFlags::ReadExecute => 2,
        }
    }

    /// Discriminant of each variant in the binary layout.
    pub open spec fn code_spec(self) -> u32 {
        match self {
            SegmentFlags::Read => 0,
            SegmentFlags::ReadWrite => 1,
            SegmentFlags::ReadExecute => 2,
        }
    }
}

/// One pre-parsed ELF LOAD segment of the init image.
///
/// The bootloader pre-parses init's ELF so the kernel can map each segment
/// directly without containing an ELF parser of its own.
#[derive(Clone, Copy, Debug, PartialEq, Eq, Structural)]
pub struct InitSegment {
    /// Physical base address where the segment was loaded.
    pub phys_addr: u64,
    /// ELF virtual address the segment is mapped at.
    pub virt_addr: u64,
    /// Size of the segment in memory (`p_memsz`; may exceed the file data).
    pub size: u64,
    /// Page permissions for this segment.
    pub flags: SegmentFlags,
}

/// Pre-parsed init ELF information provided by the bootloader.
#[derive(Clone, Debug)]
pub struct InitImage {
    /// Virtual entry point of init (`e_entry` from the ELF header).
    pub entry_point: u64,
    /// Pre-parsed LOAD segments; at most [`INIT_MAX_SEGMENTS`] of them.
    pub segments: Vec<InitSegment>,
    /// Number of valid entries in `segments`.
    pub segment_count: u32,
}

impl InitImage {
    /// The segment list is within its bound and the count describes it.
    pub open spec fn wf(self) -> bool {
        &&& self.segments@.len() <= INIT_MAX_SEGMENTS
        &&& self.segment_count == self.segments@.len()
    }
}

// ── Framebuffer ──────────────────────────────────────────────────────────

/// Pixel format of the framebuffer.
#[derive(Clone, Copy, Debug, PartialEq, Eq, Structural)]
pub enum PixelFormat {
    /// Red-Green-Blue-Padding, 8 bits per channel.
    Rgbx8,
    /// Blue-Green-Red-Padding, 8 bits per channel.
    Bgrx8,
}

impl PixelFormat {
    /// The `u32` discriminant this variant takes in the binary layout.
    pub fn code(&self) -> (r: u32)
        ensures
            r == self.code_spec(),
    {
        match self {
            PixelFormat::Rgbx8 => 0,
            PixelFormat::Bgrx8 => 1,
        }
    }

    /// Discriminant of each variant in the binary layout.
    pub open spec fn code_spec(self) -> u32 {
        match self {
            PixelFormat::Rgbx8 => 0,
            PixelFormat::Bgrx8 => 1,
        }
    }
}

/// Framebuffer description provided by the bootloader.
///
/// When `physical_base` is zero, no framebuffer is available.
#[derive(Clone, Copy, Debug, PartialEq, Eq, Structural)]
pub struct FramebufferInfo {
    /// Physical base address of the framebuffer. Zero if absent.
    pub physical_base: u64,
    /// Width in pixels.
    pub width: u32,
    /// Height in pixels.
    pub height: u32,
    /// Bytes per row (may exceed `width * bytes_per_pixel`).
    pub stride: u32,
    /// Pixel format.
    pub pixel_format: PixelFormat,
}

impl FramebufferInfo {
    /// Return a zeroed `FramebufferInfo` indicating no framebuffer is present.
    pub fn empty() -> (r: Self)
        ensures
            r.physical_base == 0,
            r.width == 0,
            r.height == 0,
            r.stride == 0,
            r.pixel_format == PixelFormat::Rgbx8,
    {
        FramebufferInfo {
            physical_base: 0,
            width: 0,
            height: 0,
            stride: 0,
            pixel_format: PixelFormat::Rgbx8,
        }
    }
}

// ── Platform resources ───────────────────────────────────────────────────

/// Discriminant identifying the kind of platform resource.
#[derive(Clone, Copy, Debug, PartialEq, Eq, Structural)]
pub enum ResourceType {
    /// A memory-mapped I/O region.
    MmioRange,
    /// A hardware interrupt line.
    IrqLine,
    /// A PCI Express ECAM window.
    PciEcam,
    /// A firmware table region passed through to userspace read-only.
    PlatformTable,
    /// An x86 I/O port range.
    IoPortRange,
    /// An IOMMU unit's register range and scope.
    IommuUnit,
}

impl ResourceType {
    /// The `u32` discriminant this variant takes in the binary layout.
    pub fn code(&self) -> (r: u32)
        ensures
            r == self.code_spec(),
    {
        match self {
            ResourceType::MmioRange => 0,
            ResourceType::IrqLine => 1,
            ResourceType::PciEcam => 2,
            ResourceType::PlatformTable => 3,
            ResourceType::IoPortRange => 4,
            ResourceType::IommuUnit => 5,
        }
    }

    /// Discriminant of each variant in the binary layout.
    pub open spec fn code_spec(self) -> u32 {
        match self {
            ResourceType::MmioRange => 0,
            ResourceType::IrqLine => 1,
            ResourceType::PciEcam => 2,
            ResourceType::PlatformTable => 3,
            ResourceType::IoPortRange => 4,
            ResourceType::IommuUnit => 5,
        }
    }
}

/// A structured descriptor for a platform hardware resource.
///
/// The array of `PlatformResource` entries in [`BootInfo`] is sorted by
/// `(resource_type, base)` ascending.
#[derive(Clone, Copy, Debug, PartialEq, Eq, Structural)]
pub struct PlatformResource {
    /// Discriminant identifying the kind of resource.
    pub resource_type: ResourceType,
    /// Type-specific flags.
    pub flags: u32,
    /// Physical base address of the resource (zero for an IRQ line).
    pub base: u64,
    /// Size of the resource in bytes (zero for an IRQ line).
    pub size: u64,
    /// Opaque, type-specific identifier.
    pub id: u64,
}

/// A slice of [`PlatformResource`] values, passed by physical address.
#[derive(Clone, Copy, Debug, PartialEq, Eq, Structural)]
pub struct PlatformResourceSlice {
    /// Physical address of the first entry. Zero if `count` is zero.
    pub entries: u64,
    /// Number of entries.
    pub count: u64,
}

// ── BootInfo ─────────────────────────────────────────────────────────────

/// Boot information populated by the bootloader and read by the kernel at
/// entry.
///
/// All address fields hold physical addresses; the regions they name are
/// identity-mapped in the initial page tables so the kernel can reach them
/// before it builds its own address space. The `version` field must equal
/// [`BOOT_PROTOCOL_VERSION`]; the kernel halts if it does not.
#[derive(Clone, Debug)]
pub struct BootInfo {
    /// Protocol version. Must equal [`BOOT_PROTOCOL_VERSION`].
    pub version: u32,
    /// Physical memory map describing all address ranges.
    pub memory_map: MemoryMapSlice,
    /// Physical base address of the loaded kernel image.
    pub kernel_physical_base: u64,
    /// ELF virtual base address of the kernel image.
    pub kernel_virtual_base: u64,
    /// Total span of the kernel ELF LOAD segments in bytes.
    pub kernel_size: u64,
    /// Pre-parsed init ELF information.
    pub init_image: InitImage,
    /// Additional boot modules (raw images for early services).
    pub modules: ModuleSlice,
    /// Framebuffer, if available. `physical_base == 0` means none.
    pub framebuffer: FramebufferInfo,
    /// Physical address of the ACPI RSDP. Zero if absent.
    pub acpi_rsdp: u64,
    /// Physical address of the Device Tree blob. Zero if absent.
    pub device_tree: u64,
    /// Structured platform resource descriptors.
    pub platform_resources: PlatformResourceSlice,
    /// Physical address of a null-terminated kernel command line string.
    pub command_line: u64,
    /// Length of the command line in bytes, excluding the null terminator.
    pub command_line_len: u64,
}

} // verus!
