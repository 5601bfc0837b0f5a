//! An embedded, schema-aware record cache: typed field encoding, a record
//! store with primary-key and secondary indexes kept consistent by every
//! write, filtered queries over those indexes, and a checkpoint store.
pub mod field;
pub mod storage;
pub mod types;
pub mod index;
pub mod full_text;
pub mod query;
pub mod cache;
