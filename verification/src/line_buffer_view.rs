//! The [`LineBufferView`] trait: a read-only window into a line sequence.
//!
//! `LineBufferView` gives diff, merge and search algorithms a uniform way to
//! inspect line content and content hashes.  The hash accessors return `None`
//! for out-of-bounds indices, so callers need no separate bounds checks when
//! walking two sequences of different lengths.
use vstd::prelude::*;

use crate::digest::{crc32_of, md5_of, sha256_of};
use crate::green::utf8_of;

verus! {

/// A read-only view of an ordered sequence of lines with content-hash access.
pub trait LineBufferView {
    /// The implementor is in a state its methods can read.
    spec fn view_wf(&self) -> bool;

    /// The content of each line, in order.
    spec fn view_lines(&self) -> Seq<Seq<char>>;

    /// Returns the number of lines in the sequence.
    fn line_count(&self) -> (r: usize)
        requires
            self.view_wf(),
        ensures
            r == self.view_lines().len(),
    ;

    /// Returns the content of line `n` (0-based), or `None` if
    /// `n >= line_count()`.
    fn get_line(&self, n: usize) -> (r: Option<String>)
        requires
            self.view_wf(),
        ensures
            n < self.view_lines().len() ==> (r matches Some(s) && s@ == self.view_lines()[n as int]),
            n >= self.view_lines().len() ==> r is None,
    ;

    /// Returns the CRC32 of line `n`, or `None` if `n >= line_count()`.
    fn line_crc32(&self, n: usize) -> (r: Option<u32>)
        requires
            self.view_wf(),
        ensures
            n < self.view_lines().len() ==> r == Some(
                crc32_of(utf8_of(self.view_lines()[n as int])),
            ),
            n >= self.view_lines().len() ==> r is None,
    ;

    /// Returns the MD5 digest of line `n`, or `None` if `n >= line_count()`.
    fn line_md5(&self, n: usize) -> (r: Option<[u8; 16]>)
        requires
            self.view_wf(),
        ensures
            n < self.view_lines().len() ==> (r matches Some(d) && d@ == md5_of(
                utf8_of(self.view_lines()[n as int]),
            )),
            n >= self.view_lines().len() ==> r is None,
    ;

    /// Returns the SHA-256 digest of line `n`, or `None` if
    /// `n >= line_count()`.
    fn line_sha256(&self, n: usize) -> (r: Option<[u8; 32]>)
        requires
            self.view_wf(),
        ensures
            n < self.view_lines().len() ==> (r matches Some(d) && d@ == sha256_of(
                utf8_of(self.view_lines()[n as int]),
            )),
            n >= self.view_lines().len() ==> r is None,
    ;
}

} // verus!
