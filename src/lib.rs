//! Partition layouts and manifest composition for building OS images.
//!
//! `partition` resolves GPT types, attribute flags and device names;
//! `layout` orders partitions for mounting and plans how a layout is applied
//! to a disk, mounted, unmounted and written to fstab; `manifest` merges a
//! manifest with its imports into one effective manifest.
pub mod layout;
pub mod manifest;
pub mod partition;
pub mod text;
