pub mod base;
pub mod bencode;
pub mod peer;
pub mod tracker;
