pub mod announce;
pub mod response;
