pub mod download;
pub mod ipc;
pub mod manager;
pub mod meta_info;
pub mod peer_id;
pub mod terminal;
