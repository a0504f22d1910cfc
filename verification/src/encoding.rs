//! Encoding validation policy for line buffers.
//!
//! An [`EncodingValidator`] decides which strings are acceptable as line
//! content.  Two validators are provided: [`Utf8Validator`] accepts every
//! string, [`AsciiValidator`] rejects any string holding a code point above
//! U+007F.
use vstd::prelude::*;

use crate::text::{char_debug_text, chars_of, debug_char, debug_str, hex4, push_hex4, str_debug_text};

verus! {

/// Describes a line that was rejected by an [`EncodingValidator`]: the
/// offending line content and a human-readable explanation.
#[derive(Debug, Clone)]
pub struct EncodingError {
    /// The exact line content that was rejected.
    pub line: String,
    /// A human-readable explanation of the rejection.
    pub description: String,
}

/// The text of an error report: `encoding error: <description> — line: <line:?>`.
pub open spec fn error_report(line: Seq<char>, description: Seq<char>) -> Seq<char> {
    "encoding error: "@ + description + " \u{2014} line: "@ + str_debug_text(line)
}

impl EncodingError {
    /// An error for `line` with the given explanation.
    pub(crate) fn new(line: &str, description: String) -> (e: EncodingError)
        ensures
            e.line@ == line@,
            e.description@ == description@,
    {
        EncodingError { line: line.to_string(), description }
    }

    /// The human-readable report of this error, naming the description and the
    /// rejected line.
    pub fn to_string(&self) -> (r: String)
        ensures
            r@ == error_report(self.line@, self.description@),
    {
        let mut r = String::new();
        r.append("encoding error: ");
        r.append(self.description.as_str());
        r.append(" \u{2014} line: ");
        let q = debug_str(self.line.as_str());
        r.append(q.as_str());
        proof {
            assert(r@ =~= error_report(self.line@, self.description@));
        }
        r
    }
}

/// Policy object that decides whether a line of text may be stored in a line
/// buffer.
///
/// Implementations must be pure: `validate(line)` must return the same result
/// for the same `line` regardless of call order or external state.  A
/// rejection carries the exact line that was rejected.
pub trait EncodingValidator: Send + Sync {
    /// Whether this validator accepts `line`.
    spec fn accepts(&self, line: Seq<char>) -> bool;

    /// The explanation this validator gives when it rejects `line`.
    spec fn rejection(&self, line: Seq<char>) -> Seq<char>;

    /// Returns `Ok(())` if `line` is acceptable, or an [`EncodingError`]
    /// describing the rejection.
    fn validate(&self, line: &str) -> (r: Result<(), EncodingError>)
        ensures
            r is Ok <==> self.accepts(line@),
            r matches Err(e) ==> e.line@ == line@ && e.description@ == self.rejection(line@),
    ;
}

/// Whether an optional validator accepts `line`: with no validator every line
/// is accepted.
pub open spec fn accepted_by(v: Option<&dyn EncodingValidator>, line: Seq<char>) -> bool {
    match v {
        None => true,
        Some(w) => w.accepts(line),
    }
}

/// Whether an optional shared validator accepts `line`: with no validator
/// every line is accepted.
pub open spec fn accepted_by_shared(
    v: Option<std::sync::Arc<dyn EncodingValidator>>,
    line: Seq<char>,
) -> bool {
    match v {
        None => true,
        Some(w) => w.accepts(line),
    }
}

/// The explanation an optional validator gives when it rejects `line`.
pub open spec fn rejection_by(v: Option<&dyn EncodingValidator>, line: Seq<char>) -> Seq<char> {
    match v {
        None => Seq::empty(),
        Some(w) => w.rejection(line),
    }
}

/// The explanation an optional shared validator gives when it rejects `line`.
pub open spec fn rejection_by_shared(
    v: Option<std::sync::Arc<dyn EncodingValidator>>,
    line: Seq<char>,
) -> Seq<char> {
    match v {
        None => Seq::empty(),
        Some(w) => w.rejection(line),
    }
}

/// Runs an optional validator on `line`; with no validator every line is
/// accepted.
pub(crate) fn run_validator(v: Option<&dyn EncodingValidator>, line: &str) -> (r: Result<
    (),
    EncodingError,
>)
    ensures
        r is Ok <==> accepted_by(v, line@),
        r matches Err(e) ==> e.line@ == line@ && e.description@ == rejection_by(v, line@),
{
    match v {
        None => Ok(()),
        Some(v) => v.validate(line),
    }
}

/// An [`EncodingValidator`] that accepts every string.
pub struct Utf8Validator;

impl EncodingValidator for Utf8Validator {
    open spec fn accepts(&self, line: Seq<char>) -> bool {
        true
    }

    open spec fn rejection(&self, line: Seq<char>) -> Seq<char> {
        Seq::empty()
    }

    fn validate(&self, line: &str) -> (r: Result<(), EncodingError>)
        ensures
            r is Ok,
    {
        Ok(())
    }
}

/// A 7-bit ASCII character: code point at most U+007F.
pub open spec fn is_ascii_char(c: char) -> bool {
    c <= '\u{7f}'
}

/// The index of the first character above U+007F, or the length when there is
/// none.
pub open spec fn first_non_ascii(s: Seq<char>) -> int
    decreases s.len(),
{
    if s.len() == 0 {
        0
    } else if !is_ascii_char(s[0]) {
        0
    } else {
        1 + first_non_ascii(s.drop_first())
    }
}

/// The explanation given for a line whose first non-ASCII character is `c`.
pub open spec fn ascii_rejection(c: char) -> Seq<char> {
    "character "@ + char_debug_text(c) + " (U+"@ + hex4((c as u32) as nat)
        + ") is not ASCII (above U+007F)"@
}

proof fn lemma_first_non_ascii_at(t: Seq<char>, m: int)
    requires
        0 <= m <= t.len(),
        forall|j: int| 0 <= j < m ==> is_ascii_char(#[trigger] t[j]),
        m < t.len() ==> !is_ascii_char(t[m]),
    ensures
        first_non_ascii(t) == m,
    decreases m,
{
    if m > 0 {
        let u = t.drop_first();
        assert forall|j: int| 0 <= j < m - 1 implies is_ascii_char(#[trigger] u[j]) by {
            assert(u[j] == t[j + 1]);
        }
        if m < t.len() {
            assert(u[m - 1] == t[m]);
        }
        lemma_first_non_ascii_at(u, m - 1);
        assert(is_ascii_char(t[0]));
    }
}

/// An [`EncodingValidator`] that rejects any line containing a code point above
/// U+007F.  The error identifies the first offending character and its Unicode
/// scalar value.
pub struct AsciiValidator;

/// Every character of `line` is ASCII.
pub open spec fn all_ascii(line: Seq<char>) -> bool {
    forall|i: int| 0 <= i < line.len() ==> is_ascii_char(#[trigger] line[i])
}

impl EncodingValidator for AsciiValidator {
    open spec fn accepts(&self, line: Seq<char>) -> bool {
        all_ascii(line)
    }

    open spec fn rejection(&self, line: Seq<char>) -> Seq<char> {
        ascii_rejection(line[first_non_ascii(line)])
    }

    fn validate(&self, line: &str) -> (r: Result<(), EncodingError>)
        ensures
            r is Ok <==> all_ascii(line@),
            r matches Err(e) ==> e.description@ == ascii_rejection(
                line@[first_non_ascii(line@)],
            ),
    {
        let cs = chars_of(line);
        let n = cs.len();
        let mut i: usize = 0;
        while i < n
            invariant
                cs@ == line@,
                n == cs@.len(),
                i <= n,
                forall|j: int| 0 <= j < i ==> is_ascii_char(#[trigger] cs@[j]),
            decreases n - i,
        {
            let c = cs[i];
            if c > '\u{7f}' {
                proof {
                    lemma_first_non_ascii_at(line@, i as int);
                }
                let mut d = String::new();
                d.append("character ");
                let q = debug_char(c);
                d.append(q.as_str());
                d.append(" (U+");
                push_hex4(&mut d, c as u32);
                d.append(") is not ASCII (above U+007F)");
                proof {
                    assert(d@ =~= ascii_rejection(c));
                }
                return Err(EncodingError::new(line, d));
            }
            i = i + 1;
        }
        Ok(())
    }
}

} // verus!
