//! Disk-usage map: the tree of scanned directories, the mount table, and the
//! views drawn from them.

pub mod change_laws;
pub mod color;
pub mod discover;
pub mod disk_laws;
pub mod engine;
pub mod engine_laws;
pub mod feed;
pub mod index;
pub mod index_laws;
pub mod ipc;
pub mod layer_laws;
pub mod map;
pub mod map_laws;
pub mod mount_laws;
pub mod mount_view;
pub mod mounts;
pub mod order;
pub mod path;
pub mod path_map;
pub mod pool;
pub mod pool_laws;
pub mod prune_laws;
pub mod rescan;
pub mod rescan_laws;
pub mod scan;
pub mod scan_laws;
pub mod snapshot;
pub mod sort;
pub mod table_laws;
pub mod text;
pub mod text_laws;
pub mod tree;
pub mod tree_laws;
pub mod tree_prune;
pub mod tree_remove;
pub mod tree_view;
pub mod ui;
pub mod update_laws;
pub mod view_laws;
pub mod walk_laws;
pub mod window_laws;
