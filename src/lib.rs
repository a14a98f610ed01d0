//! Catalog records, their deduplication, the query statement and the
//! decisions of the download engine, with their contracts.
pub mod db;
pub mod download;
pub mod link;
pub mod sort;
pub mod text;
pub mod uifilter;
