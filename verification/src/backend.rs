//! From resolved statements to the memory image and its listing.

pub mod assembler;
pub mod listing;
