//! Loader core for a microkernel's first userspace process: a USTAR archive
//! reader that indexes a byte image into named entries, and an ELF64 loader
//! that turns program headers into a page-aligned mapping plan and drives the
//! kernel's process-construction calls step by step.

pub mod elf_loader;
pub mod tar;
