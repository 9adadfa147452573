//! Repair of native `.so` images captured from process memory, and the decisions
//! behind capturing them.
//!
//! A memory image of a library holds each byte at its virtual address, and mostly
//! no section header table. [`rebuild`] reconstructs one from the dynamic segment,
//! and [`so_fix`] puts that to use on dumps. [`so`] finds the libraries in a
//! process's memory map, and [`capture`] decides what to read of them and when.

pub mod bytes;
pub mod layout;
pub mod text;

pub mod segments;
pub mod dynamic;
pub mod sections;
pub mod catalog;
pub mod emit;
pub mod rebuild;
pub mod readback;
pub mod upkeep;

pub mod so;
pub mod capture;
pub mod so_fix;

pub mod laws;
