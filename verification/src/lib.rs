//! Storage and search core of an embedded vector database.
pub mod bench;
pub mod bytes;
pub mod checksum;
pub mod distance;
pub mod error;
pub mod fuzz_inputs;
pub mod index;
pub mod metadata;
pub mod metadata_encoding;
pub mod quantization;
pub mod service;
pub mod status;
pub mod storage;
pub mod text;
