//! Verified core of a dual-architecture UEFI bootloader.
//!
//! The crate holds the logic of the loader: ELF validation and segment
//! placement, four-level page-table construction with W^X enforcement,
//! the boot-services exit protocol, memory-map translation and sorting,
//! boot-configuration parsing, and the construction of the `BootInfo`
//! record handed to the kernel. Firmware calls, raw-memory writes and the
//! handoff stub live outside the library; it computes plans and contents
//! from plain values and proves what they contain.

pub mod arch;
pub mod config;
pub mod elf;
pub mod error;
pub mod memmap;
pub mod orchestrate;
pub mod paging;
pub mod protocol;
