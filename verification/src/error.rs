//! Bootloader error type.
//!
//! All fallible operations in the loader return `Result<T, BootError>`.
//! Every error is fatal; the caller prints the message and halts. There is
//! no recovery path, so the variants carry only `&'static str` payloads.

use vstd::prelude::*;

verus! {

/// All error conditions that can occur during the boot sequence.
#[derive(Debug)]
pub enum BootError {
    /// A required UEFI protocol was not found.
    ProtocolNotFound(&'static str),
    /// A UEFI call returned an unexpected status code; the payload is the
    /// raw `EFI_STATUS` value.
    UefiError(usize),
    /// A required file was not found on the EFI system partition.
    FileNotFound(&'static str),
    /// The kernel ELF failed validation.
    InvalidElf(&'static str),
    /// An ELF segment or a mapping request has both writable and executable
    /// permissions (W^X violation).
    WxViolation,
    /// A physical memory allocation failed.
    OutOfMemory,
    /// `ExitBootServices` failed even after one retry with a refreshed map key.
    ExitBootServicesFailed,
    /// The boot configuration file is missing, malformed, or holds an
    /// invalid value.
    InvalidConfig(&'static str),
}

impl BootError {
    /// Return the variant-specific detail string, if any.
    pub fn detail(&self) -> (r: Option<&'static str>)
        ensures
            r == match self {
                BootError::ProtocolNotFound(s) => Some(*s),
                BootError::FileNotFound(s) => Some(*s),
                BootError::InvalidElf(s) => Some(*s),
                BootError::InvalidConfig(s) => Some(*s),
                _ => None::<&'static str>,
            },
    {
        match self {
            BootError::ProtocolNotFound(s) => Some(s),
            BootError::FileNotFound(s) => Some(s),
            BootError::InvalidElf(s) => Some(s),
            BootError::InvalidConfig(s) => Some(s),
            _ => None,
        }
    }

    /// Return a short, human-readable description of the error.
    pub fn message(&self) -> (r: &'static str)
        ensures
            r@ == match self {
                BootError::ProtocolNotFound(_) => "required UEFI protocol not found"@,
                BootError::UefiError(_) => "UEFI call returned an error status"@,
                BootError::FileNotFound(_) => "required file not found on ESP"@,
                BootError::InvalidElf(_) => "kernel ELF validation failed"@,
                BootError::WxViolation => "ELF segment has writable+executable permissions (W^X)"@,
                BootError::OutOfMemory => "physical memory allocation failed"@,
                BootError::ExitBootServicesFailed => "ExitBootServices failed after retry"@,
                BootError::InvalidConfig(_) => "boot configuration error"@,
            },
            r@.len() > 0,
    {
        proof {
            reveal_strlit("required UEFI protocol not found");
            reveal_strlit("UEFI call returned an error status");
            reveal_strlit("required file not found on ESP");
            reveal_strlit("kernel ELF validation failed");
            reveal_strlit("ELF segment has writable+executable permissions (W^X)");
            reveal_strlit("physical memory allocation failed");
            reveal_strlit("ExitBootServices failed after retry");
            reveal_strlit("boot configuration error");
        }
        match self {
            BootError::ProtocolNotFound(_) => "required UEFI protocol not found",
            BootError::UefiError(_) => "UEFI call returned an error status",
            BootError::FileNotFound(_) => "required file not found on ESP",
            BootError::InvalidElf(_) => "kernel ELF validation failed",
            BootError::WxViolation => "ELF segment has writable+executable permissions (W^X)",
            BootError::OutOfMemory => "physical memory allocation failed",
            BootError::ExitBootServicesFailed => "ExitBootServices failed after retry",
            BootError::InvalidConfig(_) => "boot configuration error",
        }
    }
}

} // verus!
