//! Decoding of length-budgeted, little-endian binary records from a chunked
//! log container, driven by explicit schema shapes, with a streaming,
//! topic-filtered iterator over the container's records.

pub mod decode;
pub mod deserializer;
pub mod msg;
pub mod shape;
pub mod stream;
pub mod wire;

pub use wire::le_dec;
pub use wire::le_enc;
