//! A verified core for an out-of-process memory introspection stack.
//!
//! The crate is layered: address primitives, a physical-memory access
//! interface with a byte-level model, a page cache that is proven
//! transparent, a page-table walker for three x86 family layouts, chunked
//! virtual reads and writes that zero-fill unmapped holes, and the
//! process/module discovery helpers built on top of them.

pub mod types;
pub mod mem;
pub mod cache;
pub mod arch;
pub mod vat;
pub mod pdb;
pub mod pe;
pub mod process;
pub mod plugins;
