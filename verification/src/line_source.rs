//! The [`LineSource`] trait for supplying lines to a [`crate::LineBuffer`].
//!
//! Implementors are responsible for stripping any line-ending characters
//! (`\n`, `\r\n`, `\r`) before handing lines over.
use vstd::prelude::*;

use crate::text::{has_no_line_break, string_views};

verus! {

/// An object-safe source of text lines.
///
/// Implementors supply lines stripped of their terminators.  Lines must not
/// contain any line-ending characters (`\n`, `\r`, or `\r\n`).
pub trait LineSource {
    /// A hint about the total number of lines, used for pre-allocation.
    ///
    /// Returns `None` if the count is unknown.  Implementations may over- or
    /// under-estimate without affecting correctness.
    fn line_count_hint(&self) -> Option<usize>;

    /// Whether `lines`, in order, is a sequence of lines that this source
    /// supplies.
    spec fn yields(&self, lines: Seq<Seq<char>>) -> bool;

    /// Appends each line, in order, to `sink`.
    ///
    /// Lines must not include any line-ending characters.
    fn for_each_line(&self, sink: &mut Vec<String>)
        ensures
            exists|lines: Seq<Seq<char>>|
                {
                    &&& #[trigger] self.yields(lines)
                    &&& string_views(final(sink)@) == string_views(old(sink)@) + lines
                    &&& forall|i: int| 0 <= i < lines.len() ==> has_no_line_break(#[trigger] lines[i])
                },
    ;
}

} // verus!
