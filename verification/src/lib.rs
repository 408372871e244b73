//! Decoding of a process's vDSO, vvar and vvar-clock mappings: command-line
//! parsing, `/proc/self/maps` parsing, the block-by-block copy of mappings
//! with unreadable pages, ELF inspection, clock formatting, the decisions of
//! a run and text rendering.

pub mod error;
pub mod maps;
pub mod memory;
pub mod output;
pub mod text;

pub mod cli;
pub mod clocks;
pub mod elf;
pub mod session;
