use seraph_boot::error::BootError;

#[test]
fn all_variants_have_nonempty_message() {
    let variants: Vec<BootError> = vec![
        BootError::ProtocolNotFound("p"),
        BootError::UefiError(0xDEAD),
        BootError::FileNotFound("f"),
        BootError::InvalidElf("e"),
        BootError::WxViolation,
        BootError::OutOfMemory,
        BootError::ExitBootServicesFailed,
        BootError::InvalidConfig("c"),
    ];
    for v in &variants {
        assert!(!v.message().is_empty(), "empty message for {:?}", v);
    }
}

#[test]
fn protocol_not_found_detail_returns_payload() {
    assert_eq!(BootError::ProtocolNotFound("proto").detail(), Some("proto"));
}

#[test]
fn file_not_found_detail_returns_payload() {
    assert_eq!(BootError::FileNotFound("file.efi").detail(), Some("file.efi"));
}

#[test]
fn invalid_elf_detail_returns_payload() {
    assert_eq!(BootError::InvalidElf("bad magic").detail(), Some("bad magic"));
}

#[test]
fn invalid_config_detail_returns_payload() {
    assert_eq!(BootError::InvalidConfig("missing key").detail(), Some("missing key"));
}

#[test]
fn no_payload_variants_detail_returns_none() {
    let no_detail: Vec<BootError> = vec![
        BootError::UefiError(1),
        BootError::WxViolation,
        BootError::OutOfMemory,
        BootError::ExitBootServicesFailed,
    ];
    for v in &no_detail {
        assert!(v.detail().is_none(), "expected None detail for {:?}", v);
    }
}
