//! The page store of a database file.
//!
//! A file is a header, a region allocator and regions of pages. The header holds two commit slots,
//! of which one is primary; a commit fills the other one and then makes it primary. Which pages of
//! a region are free is the business of a buddy allocator, whose state is at the start of the
//! region.
//!
//! The library works on the memory of a file. What has to be done outside the memory, it asks of
//! its caller: see `action`.

pub mod action;
pub mod allocation;
pub mod allocation_laws;
pub mod buddy_allocator;
pub mod buddy_tree;
pub mod bytes;
pub mod checks;
pub mod close;
pub mod commit;
pub mod error;
pub mod format_laws;
pub mod freeing;
pub mod grouped_bitmap;
pub mod growth;
pub mod header;
pub mod journal;
pub mod laws;
pub mod layout;
pub mod math;
pub mod opening;
pub mod opening_laws;
pub mod page_manager;
pub mod page_number;
pub mod pages;
pub mod regions;
pub mod repair;
pub mod rollback;
pub mod size_laws;
pub mod sound_file;
pub mod statistics;
pub mod transaction_laws;
pub mod trimming;

pub use crate::error::Error;
