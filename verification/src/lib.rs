pub mod text;
pub mod kvmap;
pub mod error;
pub mod storage_manager;
pub mod numbers;
pub mod parsing;
pub mod utils;
pub mod common;
pub mod cache_manager;
pub mod requests;
pub mod distributor;
pub mod http;
pub mod log;
pub mod laws;
pub mod command_processor;
