//! A fixed-capacity, allocation-bounded text buffer that accumulates
//! formatted output and truncates gracefully at its capacity, never
//! splitting a multi-byte character and reporting whether any content
//! was dropped.

pub mod buffer;
pub mod encoding;
pub mod laws;

pub use buffer::TruncatingFmtBuffer;
