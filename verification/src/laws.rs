//! What the library is for, stated over what goes in and what comes out.
//!
//! The laws here do not lean on the functions that the contracts speak of: formats
//! are described on their own, byte by byte, and texts by the pieces that they are
//! made of.
pub mod elf;
pub mod tables;
pub mod headers;
pub mod wording;
pub mod maps;
pub mod watching;
pub mod routing;
pub mod contents;
pub mod files;
pub mod reports;
