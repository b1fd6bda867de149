use seraph_boot::config::{ascii_to_utf16, parse_config, trim_ascii, Utf16Path};

fn fresh_path() -> Utf16Path {
    Utf16Path { buf: Vec::new(), len: 0 }
}

#[test]
fn parse_config_succeeds_with_both_keys() {
    let input = b"kernel=\\EFI\\seraph\\seraph-kernel\ninit=\\sbin\\init\n".to_vec();
    let cfg = parse_config(&input).unwrap();
    assert_eq!(cfg.kernel_path.len, 25);
    assert_eq!(cfg.init_path.len, 10);
}

#[test]
fn parse_config_skips_comments_and_blank_lines() {
    let input = b"# comment\n\nkernel=\\EFI\\seraph\\seraph-kernel\ninit=\\sbin\\init\n".to_vec();
    let cfg = parse_config(&input).unwrap();
    assert_eq!(cfg.kernel_path.len, 25);
}

#[test]
fn parse_config_trims_whitespace() {
    let input = b"kernel = \\EFI\\seraph\\seraph-kernel\r\ninit = \\sbin\\init\r\n".to_vec();
    let cfg = parse_config(&input).unwrap();
    assert_eq!(cfg.kernel_path.len, 25);
}

#[test]
fn parse_config_missing_kernel_returns_error() {
    let input = b"init=\\sbin\\init\n".to_vec();
    assert!(parse_config(&input).is_err());
}

#[test]
fn parse_config_missing_init_returns_error() {
    let input = b"kernel=\\EFI\\seraph\\seraph-kernel\n".to_vec();
    assert!(parse_config(&input).is_err());
}

#[test]
fn parse_config_missing_equals_returns_error() {
    let input = b"kernel\\EFI\\seraph\\seraph-kernel\ninit=\\sbin\\init\n".to_vec();
    assert!(parse_config(&input).is_err());
}

#[test]
fn parse_config_unknown_keys_are_skipped() {
    let input = b"kernel=\\EFI\\seraph\\seraph-kernel\ninit=\\sbin\\init\nfoo=bar\n".to_vec();
    assert!(parse_config(&input).is_ok());
}

#[test]
fn trim_ascii_removes_leading_and_trailing_whitespace() {
    let data = b"  hello  ".to_vec();
    let (s, e) = trim_ascii(&data, 0, data.len());
    assert_eq!(&data[s..e], b"hello");
}

#[test]
fn trim_ascii_returns_empty_slice_for_all_whitespace() {
    let data = b"   \t\r  ".to_vec();
    let (s, e) = trim_ascii(&data, 0, data.len());
    assert_eq!(&data[s..e], b"");
}

#[test]
fn ascii_to_utf16_widens_correctly() {
    let data = b"\\sbin\\init".to_vec();
    let mut p = fresh_path();
    let ok = ascii_to_utf16(&data, 0, data.len(), &mut p);
    assert!(ok);
    assert_eq!(p.len, 10);
    assert_eq!(p.buf[0], b'\\' as u16);
    assert_eq!(p.buf[10], 0u16);
}

#[test]
fn ascii_to_utf16_rejects_non_ascii() {
    let data = b"path\x80here".to_vec();
    let mut p = fresh_path();
    let ok = ascii_to_utf16(&data, 0, data.len(), &mut p);
    assert!(!ok);
}

#[test]
fn empty_value_widens_to_null_terminated_empty_buffer() {
    let data = b"".to_vec();
    let mut p = fresh_path();
    let ok = ascii_to_utf16(&data, 0, 0, &mut p);
    assert!(ok);
    assert_eq!(p.len, 0);
    assert_eq!(p.buf.len(), 1);
    assert_eq!(p.buf[0], 0u16);
}

#[test]
fn over_long_value_is_rejected() {
    let mut input = b"kernel=".to_vec();
    input.extend(std::iter::repeat(b'a').take(257));
    input.extend(b"\ninit=\\sbin\\init\n");
    assert!(parse_config(&input).is_err());
    // exactly 256 characters still fits
    let mut input = b"kernel=".to_vec();
    input.extend(std::iter::repeat(b'a').take(256));
    input.extend(b"\ninit=\\sbin\\init\n");
    let cfg = parse_config(&input).unwrap();
    assert_eq!(cfg.kernel_path.len, 256);
}

#[test]
fn last_assignment_wins() {
    let input = b"kernel=\\a\nkernel=\\EFI\\seraph\\seraph-kernel\ninit=\\sbin\\init\n".to_vec();
    let cfg = parse_config(&input).unwrap();
    assert_eq!(cfg.kernel_path.len, 25);
}

#[test]
fn config_without_trailing_newline_parses() {
    let input = b"kernel=\\EFI\\seraph\\seraph-kernel\ninit=\\sbin\\init".to_vec();
    let cfg = parse_config(&input).unwrap();
    assert_eq!(cfg.init_path.len, 10);
}

#[test]
fn path_units_are_null_terminated() {
    let input = b"kernel=\\EFI\\seraph\\seraph-kernel\ninit=\\sbin\\init\n".to_vec();
    let cfg = parse_config(&input).unwrap();
    let units = cfg.kernel_path.as_units();
    assert_eq!(units.len(), 26);
    assert_eq!(units[25], 0u16);
    assert_eq!(units[0], b'\\' as u16);
}
