//! Storage layer of a small relational database: page identifiers, the
//! slotted-page byte layout, and the page-allocation state of a disk manager.

pub mod common;
pub mod disk_manager;
pub mod page;
