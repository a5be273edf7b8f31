//! The virtual machine that executes statements.

pub mod eval;
pub mod semantics;
pub mod db;
pub mod query;
pub mod setops;
pub mod relations;
pub mod ddl;
pub mod dml;
pub mod explain;
pub mod execute;
