//! Architecture-specific page-table builders and handoff helpers.

pub mod riscv64;
pub mod x86_64;
