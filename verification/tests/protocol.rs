use seraph_boot::protocol::{
    FramebufferInfo, MemoryType, PixelFormat, ResourceType, SegmentFlags, BOOT_PROTOCOL_VERSION,
    INIT_MAX_SEGMENTS,
};

#[test]
fn framebuffer_info_empty_physical_base_is_zero() {
    assert_eq!(FramebufferInfo::empty().physical_base, 0);
}

#[test]
fn framebuffer_info_empty_dimensions_are_zero() {
    let fb = FramebufferInfo::empty();
    assert_eq!(fb.width, 0);
    assert_eq!(fb.height, 0);
    assert_eq!(fb.stride, 0);
}

#[test]
fn framebuffer_info_empty_pixel_format_is_rgbx8() {
    assert_eq!(FramebufferInfo::empty().pixel_format, PixelFormat::Rgbx8);
}

#[test]
fn protocol_version_is_3() {
    assert_eq!(BOOT_PROTOCOL_VERSION, 3);
}

#[test]
fn init_image_segment_count_fits_max() {
    assert!(INIT_MAX_SEGMENTS <= u32::MAX as usize);
}

#[test]
fn memory_type_codes_are_stable() {
    assert_eq!(MemoryType::Usable.code(), 0);
    assert_eq!(MemoryType::Loaded.code(), 1);
    assert_eq!(MemoryType::Reserved.code(), 2);
    assert_eq!(MemoryType::AcpiReclaimable.code(), 3);
    assert_eq!(MemoryType::Persistent.code(), 4);
}

#[test]
fn segment_flag_codes_are_stable() {
    assert_eq!(SegmentFlags::Read.code(), 0);
    assert_eq!(SegmentFlags::ReadWrite.code(), 1);
    assert_eq!(SegmentFlags::ReadExecute.code(), 2);
}

#[test]
fn pixel_format_codes_are_stable() {
    assert_eq!(PixelFormat::Rgbx8.code(), 0);
    assert_eq!(PixelFormat::Bgrx8.code(), 1);
}

#[test]
fn resource_type_codes_are_stable() {
    assert_eq!(ResourceType::MmioRange.code(), 0);
    assert_eq!(ResourceType::IrqLine.code(), 1);
    assert_eq!(ResourceType::PciEcam.code(), 2);
    assert_eq!(ResourceType::PlatformTable.code(), 3);
    assert_eq!(ResourceType::IoPortRange.code(), 4);
    assert_eq!(ResourceType::IommuUnit.code(), 5);
}
