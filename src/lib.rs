//! A record store whose whole persisted form is a raster image: records,
//! typed fields and references between records are geometric pixel patterns.
//!
//! The library holds the decoding pipeline, the field codecs, the decisions of
//! the database service and the eviction policy of the paged backing store,
//! all with their contracts. Files, timers and channels stay with the caller.

pub mod colors;
pub mod text;
pub mod model;
pub mod value;
pub mod encoding;
pub mod image;
pub mod points;
pub mod blocks;
pub mod scan;
pub mod resolve;
pub mod assemble;
pub mod codecs;
pub mod counter;
pub mod font;
pub mod abc;
pub mod pie;
pub mod datatypes;
pub mod query;
pub mod db;
pub mod paging;
pub mod laws;
pub mod dog;
