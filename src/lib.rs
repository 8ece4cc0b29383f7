pub mod content_id;
pub mod error;
pub mod frame;
pub mod header;
pub mod laws;
pub mod reader;
pub mod varint;
pub mod writer;
