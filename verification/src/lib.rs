//! mallard: versioned, editable line buffers built on an append-only pool of
//! interned lines.
pub mod branch;
pub mod digest;
pub mod editor;
pub mod encoding;
pub mod green;
pub mod line_buffer;
pub mod line_buffer_view;
pub mod line_source;
pub mod target_encoding;
pub mod text;

pub use branch::{Branch, BranchEdit};
pub use encoding::{AsciiValidator, EncodingError, EncodingValidator, Utf8Validator};
pub use green::{GreenLine, GreenLineId, GreenPool, LineHash};
pub use line_buffer::LineBuffer;
pub use line_buffer_view::LineBufferView;
pub use line_source::LineSource;
pub use target_encoding::{ForcedEncodingValidator, TargetEncoding};
