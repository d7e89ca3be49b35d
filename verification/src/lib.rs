//! An assembler for the Carbon 8-bit instruction set.
//!
//! Source text is turned into tokens, tokens into statements, label
//! references into literal addresses, and the resolved statements into a
//! paged memory image of 32 pages of 32 bytes each.

pub mod backend;
pub mod frontend;
pub mod instr;
pub mod pipeline;
