//! Translator from a consolidated view of an i386 relocatable ELF to a
//! Linear Executable (LE) image: section consolidation, symbol relocation,
//! relocation rewriting, paged fixup encoding, and header assembly.

pub mod bytes;
pub mod consolidate;
pub mod fixup;
pub mod header;
pub mod rewrite;
pub mod symtab;
pub mod types;
