//! Runtime support for HTML templates: escaping of untrusted text, as a
//! one-shot function and as a stream over output buffers of any size, and
//! blocks of markup whose rendering waits until a destination is known.

pub mod escaping;
pub mod writer;
pub mod markup;
pub mod text;

pub use escaping::{escape, ByteSource, Escaper, NoReadError, SliceSource};
pub use writer::{TextWriter, TextWriterSink, Writer, WriterSink};
pub use markup::{make_markup, write_escaped, ByteSink, FormatError, Markup, Piece, Render, TextSink};
