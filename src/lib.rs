//! A reader that removes the junk lines (banners, metadata, comments) found
//! before the header row of a delimited-text stream, and passes everything
//! from the header on through unchanged.
//!
//! The header is the earliest of the first few lines with the most fields;
//! fields are counted by a CSV parser, so quoted delimiters do not count.
pub mod blade;
pub mod header;
pub mod lines;
pub mod source;
pub mod window;

pub use blade::{fill, prepare_fill, read_from_buffer, Blade, CHUNK_SIZE};
pub use header::{pick_header, score_lines, select_header};
pub use lines::{get_line, has_nl, is_nl, str_to_vec};
pub use source::{read_all, ByteSource, FakeCsvReader, SourceError};
