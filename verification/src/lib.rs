//! Streaming encoder for `multipart/form-data` bodies.
//!
//! A [`writer::MultipartFormDataWriter`] owns a byte sink and a boundary and
//! frames each field onto the sink as one part; `finish` appends the closing
//! delimiter and hands the sink back. Nothing is escaped or validated: the
//! caller supplies clean names, filenames and headers, and a boundary that
//! does not occur in any value.
//!
//! - [`wire`]: the byte layout, as spec functions, and its laws.
//! - [`encode`]: the head of a part and the closing delimiter, as bytes.
//! - [`sink`]: where the bytes go.
//! - [`writer`]: the writer.
//! - [`boundary`]: boundary tokens.
//! - [`read`], [`round_trip`]: what a receiver reads, and that it reads what
//!   was written.
//! - [`concat`]: facts about concatenation that the proofs share.

pub mod boundary;
pub mod concat;
pub mod encode;
pub mod read;
pub mod round_trip;
pub mod sink;
pub mod wire;
pub mod writer;
