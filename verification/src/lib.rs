//! Verified core of a disk usage monitor: parsing of the kernel's mount
//! table, selection of the filesystems worth reporting, the largest-files
//! bookkeeping, and the text and menus shown by the panel indicator.

pub mod actions;
pub mod arrange;
pub mod disk_source;
pub mod largest_files;
pub mod menu;
pub mod model;
pub mod text;
pub mod tray;

pub use model::{FileEntry, Mount, Snapshot, Usage, API_VERSION, DEFAULT_BIND, DEFAULT_PORT};
