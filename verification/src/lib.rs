//! Content-hash deduplication of the files of one directory: the naming,
//! keying and bucketing rules, stated and proved.

pub mod bucket;
pub mod filtering;
pub mod hash;
pub mod hex;
pub mod invocation;
pub mod name;
pub mod theorems;
