//! Table storage, pages, the row format, and key encodings.

pub mod table;
pub mod prefix_compress;
pub mod pager;
pub mod record;
pub mod btree;
