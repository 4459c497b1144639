//! Disk space analysis: a size-annotated directory tree and two bucket arenas.
//!
//! The tree logic (classification, bottom-up aggregation and ordering) lives in
//! [`directory_item`]; reading the file system is left to the caller, which
//! hands entry metadata and directory listings to the constructors there.

pub mod directory_item;
pub mod fast_arena;
pub mod order;
pub mod paths;
pub mod rapid_arena;
pub mod size;

pub use directory_item::DirectoryItem;
pub use directory_item::DirectoryItemType;
pub use size::Size;
pub use size::SizeDisplayFormat;
