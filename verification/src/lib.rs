//! An out-of-core indexing and querying engine for large tabular trip
//! datasets.  The library holds the verified logic: the record model and its
//! row format, the composable filter language, streaming aggregation, and the
//! bucketed hash index.  File handling stays with the surrounding application,
//! which feeds rows in and carries bucket images to and from disk.

pub mod amount;
pub mod chars;
pub mod codec;
pub mod filter;
pub mod popular;
pub mod rows;
pub mod scan;
pub mod table;
pub mod trip;
