//! A streaming sanitizer for byte streams: it keeps the bytes that form
//! well-formed UTF-8 text, drops everything else, and can narrow the output
//! further to a plain ASCII subset. Memory use is bounded by the size of the
//! working buffer, whatever the length of the stream.
//!
//! - `scan` is the model: which bytes of a sequence are text, and what a scan
//!   from left to right keeps of them.
//! - `resolver` decides how much of a working buffer one round consumes.
//! - `sink` and `source` are the two ends: where text goes and where bytes
//!   come from.
//! - `pipeline` runs the rounds over a source held in memory; `machine` is the
//!   same pipeline for a caller that does the reading itself.
//! - `laws` states what holds of the output as a whole.

pub mod laws;
pub mod machine;
pub mod pipeline;
pub mod resolver;
pub mod scan;
pub mod sink;
pub mod source;

pub use crate::machine::Pipeline;
pub use crate::pipeline::buffer_filter;
pub use crate::pipeline::filter_bytes;
pub use crate::resolver::take_from_buffer;
pub use crate::sink::FilterWriter;
pub use crate::sink::TextSink;
pub use crate::source::fill_buf;
pub use crate::source::ByteReader;
