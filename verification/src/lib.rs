//! An embedded SQL database engine whose evaluation and storage rules are verified.

pub mod types;
pub mod text;
pub mod error;
pub mod sql;
pub mod vm;
pub mod storage;
pub mod client;
