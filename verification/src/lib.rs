//! Desktop log reading: record parsing, index protocol, line sessions,
//! archive listing, watching rules and file search, with verified contracts.

pub mod archive;
pub mod bytes;
pub mod inventory;
pub mod ipc;
pub mod lifecycle;
pub mod lines;
pub mod mft_paths;
pub mod ntfs;
pub mod order;
pub mod paths;
pub mod rar;
pub mod search_config;
pub mod search_files;
pub mod search_index;
pub mod search_manager;
pub mod search_query;
pub mod search_scan;
pub mod search_store;
pub mod search_work;
pub mod sessions;
pub mod stable;
pub mod startup;
pub mod startup_trace;
pub mod text;
pub mod text_map;
pub mod tokens;
pub mod usn;
pub mod volume;
pub mod watch;
pub mod watch_events;
