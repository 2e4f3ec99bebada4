pub mod cache;
pub mod dir_cache;
pub mod dir_view;
pub mod download;
pub mod utils;
