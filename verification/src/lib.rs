//! A fixed-capacity key-value storage engine with optional persistence to a
//! NOR-flash region: an insertion-ordered index of encoded blobs, a pluggable
//! codec, a small hot cache, and a binary on-flash image format.

pub mod codec;
pub mod db;
pub mod flash;
pub mod kv;
