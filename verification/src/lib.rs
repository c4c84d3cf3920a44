//! A multi-level paging engine for RISC-V supervisor and guest address
//! spaces.
//!
//! The engine owns a hierarchical page-table structure and mediates every
//! lifecycle transition of the mapped pages: unused, locked, mapped,
//! invalidated, converted and reclaimed.  Page-table entries follow the
//! RISC-V privileged specification's Sv39/Sv48/Sv57 formats and their
//! four-page-root guest variants.

pub mod level;
pub mod page_table;
pub mod page_tracker;
pub mod pages;
pub mod pte;
