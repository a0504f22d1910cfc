//! [`LineBuffer`]: the top-level owned line buffer.
use vstd::prelude::*;

use std::io::{Read, Write};
use std::sync::Arc;

use crate::branch::{index_error, index_error_text, inserted, replaced, Branch, BranchState};
use crate::digest::{crc32_of, md5_of, sha256_of};
use crate::encoding::{accepted_by_shared, rejection_by_shared, EncodingError, EncodingValidator};
use crate::green::{intern_result, utf8_of, GreenPool};
use crate::line_buffer_view::LineBufferView;
use crate::line_source::LineSource;
use crate::text::{
    has_no_line_break, join_lines, join_strings, lemma_split_lines_len, split_lines,
    split_on_line_endings, string_views,
};

use vstd::utf8::{decode_utf8, encode_utf8, valid_utf8};

verus! {

/// `std::io::Error`, carried through as an opaque value.
#[verifier::external_type_specification]
#[verifier::external_body]
pub struct ExIoError(std::io::Error);

/// Calls `Read::read_to_end` on `reader` with an empty buffer.  Trusted: on
/// success the bytes returned are those the reader produced; nothing is said
/// of what a reader produces.
#[verifier::external_body]
fn read_all<R: Read>(mut reader: R) -> (r: std::io::Result<Vec<u8>>) {
    let mut bytes = Vec::new();
    match reader.read_to_end(&mut bytes) {
        Ok(_) => Ok(bytes),
        Err(e) => Err(e),
    }
}

/// Calls `std::str::from_utf8`.  Trusted: it succeeds exactly when the bytes
/// are valid UTF-8, and the text it returns is their decoding; a failure is
/// returned as the text of its `Utf8Error`, of which nothing is said.
#[verifier::external_body]
fn utf8_text(bytes: &[u8]) -> (r: Result<&str, String>)
    ensures
        r is Ok <==> vstd::utf8::valid_utf8(bytes@),
        r matches Ok(s) ==> s@ == vstd::utf8::decode_utf8(bytes@),
{
    match std::str::from_utf8(bytes) {
        Ok(s) => Ok(s),
        Err(e) => Err(e.to_string()),
    }
}

/// The kind of I/O error that a load reports.
enum LoadErrorKind {
    /// The bytes cannot be loaded: they are not UTF-8 or a line is refused.
    InvalidData,
}

/// Calls `std::io::Error::new` with the `std::io::ErrorKind` named by `kind`.
/// Trusted: it only builds the error value; nothing is said of it.
#[verifier::external_body]
fn io_error(kind: LoadErrorKind, message: String) -> (r: std::io::Error) {
    let kind = match kind {
        LoadErrorKind::InvalidData => std::io::ErrorKind::InvalidData,
    };
    std::io::Error::new(kind, message)
}

/// Calls `Write::write_all` with `bytes`, which must be the UTF-8 bytes of
/// the lines of `buf` joined by `line_ending`, so that only a buffer's text
/// is ever written.  Trusted: nothing is said of what a writer does with the
/// bytes.
#[verifier::external_body]
fn write_all_to<W: Write>(mut writer: W, buf: &LineBuffer, line_ending: &str, bytes: &[u8]) -> (r:
    std::io::Result<()>)
    requires
        buf.wf(),
        bytes@ == encode_utf8(join_lines(buf@.text(), line_ending@)),
{
    let _ = (buf, line_ending);
    writer.write_all(bytes)
}

/// The pool left by interning `ls` in order into an empty pool.
pub open spec fn pool_of_lines(ls: Seq<Seq<char>>) -> Seq<Seq<char>>
    decreases ls.len(),
{
    if ls.len() == 0 {
        Seq::empty()
    } else {
        intern_result(pool_of_lines(ls.drop_last()), ls.last()).0
    }
}

/// The state of a buffer freshly loaded with the lines `ls`: those lines,
/// interned in order, and no history.
pub open spec fn loaded(st: BranchState, ls: Seq<Seq<char>>) -> bool {
    &&& st.text() == ls
    &&& st.pool == pool_of_lines(ls)
    &&& st.undo.len() == 0
    &&& st.redo.len() == 0
}

proof fn lemma_pool_of_lines_len(ls: Seq<Seq<char>>)
    ensures
        pool_of_lines(ls).len() <= ls.len(),
    decreases ls.len(),
{
    if ls.len() > 0 {
        lemma_pool_of_lines_len(ls.drop_last());
        crate::green::lemma_intern_result(pool_of_lines(ls.drop_last()), ls.last());
    }
}

/// The description given when lines hold more distinct contents than a pool
/// can index.
pub open spec fn too_many_distinct_lines_text() -> Seq<char> {
    "more distinct lines than a pool can index"@
}

/// Whether line `i` of `ls` can be loaded after the lines before it: the
/// validator accepts it, and the pool left by the lines before it can take
/// another distinct content.
pub open spec fn loadable(
    ls: Seq<Seq<char>>,
    i: int,
    v: Option<Arc<dyn EncodingValidator>>,
) -> bool {
    accepted_by_shared(v, ls[i]) && pool_of_lines(ls.take(i)).len() < u32::MAX
}

/// Every line of `ls` can be loaded.
pub open spec fn all_loadable(ls: Seq<Seq<char>>, v: Option<Arc<dyn EncodingValidator>>) -> bool {
    forall|i: int| 0 <= i < ls.len() ==> #[trigger] loadable(ls, i, v)
}

/// Line `k` is the first line of `ls` that cannot be loaded.
pub open spec fn first_unloadable(
    ls: Seq<Seq<char>>,
    k: int,
    v: Option<Arc<dyn EncodingValidator>>,
) -> bool {
    &&& 0 <= k < ls.len()
    &&& forall|i: int| 0 <= i < k ==> #[trigger] loadable(ls, i, v)
    &&& !loadable(ls, k, v)
}

/// What loading `ls`, in order, with validator `v` gives: a buffer freshly
/// loaded with the lines when every line can be loaded; otherwise the
/// validator's rejection of the first line that cannot be loaded, or, where
/// the validator accepts it, the error that the pool is full.
pub open spec fn load_result(
    ls: Seq<Seq<char>>,
    v: Option<Arc<dyn EncodingValidator>>,
    r: Result<LineBuffer, EncodingError>,
) -> bool {
    &&& r is Ok <==> all_loadable(ls, v)
    &&& r matches Ok(lb) ==> {
        &&& lb.wf()
        &&& loaded(lb@, ls)
        &&& lb.validator() == v
    }
    &&& r matches Err(e) ==> exists|k: int|
        {
            &&& #[trigger] first_unloadable(ls, k, v)
            &&& accepted_by_shared(v, ls[k]) ==> {
                &&& e.line@ == Seq::<char>::empty()
                &&& e.description@ == too_many_distinct_lines_text()
            }
            &&& !accepted_by_shared(v, ls[k]) ==> {
                &&& e.line@ == ls[k]
                &&& e.description@ == rejection_by_shared(v, ls[k])
            }
        }
}

/// A top-level owned line buffer: a root [`Branch`] with its pool, and an
/// optional encoding validator applied to all edits.
///
/// Branches can be forked from it for independent edit histories that start
/// from the same interned lines.
pub struct LineBuffer {
    root: Branch,
    validator: Option<Arc<dyn EncodingValidator>>,
}

impl View for LineBuffer {
    type V = BranchState;

    /// The state of the root branch.
    closed spec fn view(&self) -> BranchState {
        self.root@
    }
}

impl LineBuffer {
    /// The root branch is well formed.
    pub closed spec fn wf(&self) -> bool {
        self.root.wf()
    }

    /// The validator applied to edits.
    pub closed spec fn validator(&self) -> Option<Arc<dyn EncodingValidator>> {
        self.validator
    }

    /// A well-formed buffer is in a consistent state, so the laws on
    /// [`BranchState`] apply to it.
    pub proof fn lemma_wf_consistent(&self)
        requires
            self.wf(),
        ensures
            self@.consistent(),
    {
        self.root.lemma_wf_consistent();
    }

    /// Creates an empty `LineBuffer` with a fresh pool and empty root branch.
    ///
    /// If `validator` is `Some`, it is applied to every `insert_line` and
    /// `replace_line` call.
    pub fn new(validator: Option<Arc<dyn EncodingValidator>>) -> (r: LineBuffer)
        ensures
            r.wf(),
            loaded(r@, Seq::empty()),
            r.validator() == validator,
    {
        let root = Branch::new(GreenPool::new());
        let r = LineBuffer { root, validator };
        proof {
            assert(r@.text() =~= Seq::<Seq<char>>::empty());
        }
        r
    }

    /// Loads `lines`, in order, into a new buffer, validating each one first
    /// (if a validator is supplied).  Returns the first rejection, or an error
    /// when the lines hold more distinct contents than a pool can index; no
    /// partial state is retained.
    pub fn from_lines(lines: &Vec<String>, validator: Option<Arc<dyn EncodingValidator>>) -> (r:
        Result<LineBuffer, EncodingError>)
        ensures
            load_result(string_views(lines@), validator, r),
            validator is None && lines@.len() <= u32::MAX ==> r is Ok,
    {
        let ghost ls = string_views(lines@);
        let mut root = Branch::new(GreenPool::new());
        let n = lines.len();
        let mut i: usize = 0;
        proof {
            assert(root@.text() =~= ls.take(0));
            assert(ls.take(0) =~= Seq::<Seq<char>>::empty());
        }
        while i < n
            invariant
                n == lines@.len(),
                ls == string_views(lines@),
                i <= n,
                root.wf(),
                loaded(root@, ls.take(i as int)),
                forall|j: int| 0 <= j < i ==> #[trigger] loadable(ls, j, validator),
            decreases n - i,
        {
            let line = lines[i].as_str();
            assert(line@ == ls[i as int]);
            let verdict = match &validator {
                None => Ok(()),
                Some(v) => v.validate(line),
            };
            if let Err(e) = verdict {
                proof {
                    assert(!loadable(ls, i as int, validator));
                    assert(first_unloadable(ls, i as int, validator));
                }
                return Err(e);
            }
            if root.pool().len() >= 4294967295 {
                proof {
                    lemma_pool_of_lines_len(ls.take(i as int));
                    assert(!loadable(ls, i as int, validator));
                    assert(first_unloadable(ls, i as int, validator));
                    reveal_strlit("");
                    reveal_strlit("more distinct lines than a pool can index");
                }
                let e = EncodingError::new(
                    "",
                    "more distinct lines than a pool can index".to_string(),
                );
                assert(e.line@ == Seq::<char>::empty());
                assert(e.description@ == too_many_distinct_lines_text());
                assert(accepted_by_shared(validator, ls[i as int]));
                return Err(e);
            }
            root.load_line(line);
            proof {
                assert(loadable(ls, i as int, validator));
                assert(ls.take(i + 1).drop_last() =~= ls.take(i as int));
                assert(ls.take(i as int).push(ls[i as int]) =~= ls.take(i + 1));
            }
            i = i + 1;
        }
        proof {
            assert(ls.take(n as int) =~= ls);
        }
        Ok(LineBuffer { root, validator })
    }

    /// Bulk-loads all lines from `src` into a new buffer.
    ///
    /// Uses [`LineSource::line_count_hint`] to pre-allocate capacity (up to a
    /// bounded amount, so that an estimate never affects the outcome).  The
    /// lines are then loaded as [`LineBuffer::from_lines`] does: each is
    /// validated (if a validator is supplied) and interned, and `Err` is
    /// returned on the first failure; no partial state is retained.
    pub fn from_source(src: &dyn LineSource, validator: Option<Arc<dyn EncodingValidator>>) -> (r:
        Result<LineBuffer, EncodingError>)
        ensures
            exists|ls: Seq<Seq<char>>|
                {
                    &&& #[trigger] src.yields(ls)
                    &&& forall|i: int| 0 <= i < ls.len() ==> has_no_line_break(#[trigger] ls[i])
                    &&& load_result(ls, validator, r)
                },
    {
        let mut lines: Vec<String> = match src.line_count_hint() {
            Some(hint) => Vec::with_capacity(if hint < 65536 {
                hint
            } else {
                65536
            }),
            None => Vec::new(),
        };
        proof {
            assert(string_views(lines@) =~= Seq::<Seq<char>>::empty());
        }
        src.for_each_line(&mut lines);
        let r = LineBuffer::from_lines(&lines, validator);
        proof {
            let ls = choose|ls: Seq<Seq<char>>|
                {
                    &&& #[trigger] src.yields(ls)
                    &&& string_views(lines@) == Seq::<Seq<char>>::empty() + ls
                    &&& forall|i: int| 0 <= i < ls.len() ==> has_no_line_break(#[trigger] ls[i])
                };
            assert(Seq::<Seq<char>>::empty() + ls =~= ls);
            assert(load_result(ls, validator, r));
        }
        r
    }

    /// Creates a `LineBuffer` by splitting `s` on LF, CRLF, or bare CR.
    ///
    /// Terminators are stripped.  A trailing newline does not produce a
    /// spurious empty final line.  The lines are then loaded as
    /// [`LineBuffer::from_lines`] does.
    pub fn from_str(s: &str, validator: Option<Arc<dyn EncodingValidator>>) -> (r: Result<
        LineBuffer,
        EncodingError,
    >)
        ensures
            load_result(split_lines(s@), validator, r),
            validator is None && s@.len() <= u32::MAX ==> r is Ok,
    {
        let lines = split_on_line_endings(s);
        proof {
            lemma_split_lines_len(s@);
        }
        LineBuffer::from_lines(&lines, validator)
    }

    /// Creates a `LineBuffer` from UTF-8 bytes: they are decoded, then split
    /// and loaded as [`LineBuffer::from_str`] does.
    ///
    /// Bytes that are not valid UTF-8, and a failure to load the lines, yield
    /// an error of kind `InvalidData`.
    pub fn from_utf8_bytes(bytes: &[u8], validator: Option<Arc<dyn EncodingValidator>>) -> (r:
        std::io::Result<LineBuffer>)
        ensures
            !valid_utf8(bytes@) ==> r is Err,
            valid_utf8(bytes@) ==> (r is Ok <==> all_loadable(
                split_lines(decode_utf8(bytes@)),
                validator,
            )),
            r matches Ok(lb) ==> {
                &&& valid_utf8(bytes@)
                &&& lb.wf()
                &&& loaded(lb@, split_lines(decode_utf8(bytes@)))
                &&& lb.validator() == validator
            },
    {
        let s = match utf8_text(bytes) {
            Ok(s) => s,
            Err(m) => return Err(io_error(LoadErrorKind::InvalidData, m)),
        };
        match LineBuffer::from_str(s, validator) {
            Ok(lb) => Ok(lb),
            Err(e) => Err(io_error(LoadErrorKind::InvalidData, e.to_string())),
        }
    }

    /// Creates a `LineBuffer` by reading all bytes from `reader`, then
    /// decoding, splitting and loading them as
    /// [`LineBuffer::from_utf8_bytes`] does.
    ///
    /// A read error is returned as it is.  A UTF-8 decode failure, a
    /// validation failure, or more distinct lines than a pool can index yield
    /// an error of kind `InvalidData`.
    pub fn from_reader<R: Read>(reader: R, validator: Option<Arc<dyn EncodingValidator>>) -> (r:
        std::io::Result<LineBuffer>)
        ensures
            r matches Ok(lb) ==> {
                &&& lb.wf()
                &&& lb.validator() == validator
                &&& exists|bytes: Seq<u8>|
                    {
                        &&& valid_utf8(bytes)
                        &&& all_loadable(split_lines(decode_utf8(bytes)), validator)
                        &&& loaded(lb@, #[trigger] split_lines(decode_utf8(bytes)))
                    }
            },
    {
        let bytes = match read_all(reader) {
            Ok(b) => b,
            Err(e) => return Err(e),
        };
        LineBuffer::from_utf8_bytes(bytes.as_slice(), validator)
    }

    /// Returns the number of lines in the buffer.
    pub fn line_count(&self) -> (r: usize)
        ensures
            r == self@.text().len(),
    {
        self.root.line_count()
    }

    /// Returns the content of line `n`, or `None` if `n >= line_count()`.
    pub fn get_line(&self, n: usize) -> (r: Option<String>)
        requires
            self.wf(),
        ensures
            n < self@.text().len() ==> (r matches Some(s) && s@ == self@.text()[n as int]),
            n >= self@.text().len() ==> r is None,
    {
        self.root.get_line(n)
    }

    /// The number of distinct line contents interned in the buffer's pool.
    pub fn pool_len(&self) -> (r: usize)
        requires
            self.wf(),
        ensures
            r == self@.pool.len(),
    {
        self.root.pool().len()
    }

    /// Inserts `content` at position `n`, shifting subsequent lines down.
    ///
    /// The buffer's installed validator (if any) is applied first.  Returns
    /// `Err` without modifying state if validation fails or `n > line_count()`.
    /// Inserting at `n == line_count()` appends.
    pub fn insert_line(&mut self, n: usize, content: &str) -> (r: Result<(), EncodingError>)
        requires
            old(self).wf(),
            old(self)@.pool.len() < u32::MAX,
        ensures
            final(self).wf(),
            final(self).validator() == old(self).validator(),
            n > old(self)@.ids.len() ==> {
                &&& final(self)@ == old(self)@
                &&& r matches Err(e)
                &&& e.line@ == content@
                &&& e.description@ == index_error_text(
                    "insert_line"@,
                    n as nat,
                    old(self)@.ids.len(),
                )
            },
            n <= old(self)@.ids.len() ==> (r is Ok <==> accepted_by_shared(
                old(self).validator(),
                content@,
            )),
            r matches Err(e) ==> (n <= old(self)@.ids.len() ==> e.description@
                == rejection_by_shared(old(self).validator(), content@)),
            n <= old(self)@.ids.len() && r is Err ==> final(self)@ == old(self)@,
            r matches Err(e) ==> e.line@ == content@,
            r is Ok ==> {
                &&& inserted(old(self)@, n as int, content@, final(self)@)
                &&& final(self)@.text() == old(self)@.text().insert(n as int, content@)
            },
    {
        let count = self.root.line_count();
        if n > count {
            return Err(index_error("insert_line", n, count, content));
        }
        let verdict = match &self.validator {
            None => Ok(()),
            Some(v) => v.validate(content),
        };
        self.root.apply_insert(n, content, verdict)
    }

    /// Replaces the content of line `n` with `content`.
    ///
    /// The buffer's installed validator (if any) is applied first.  Returns
    /// `Err` without modifying state if validation fails or
    /// `n >= line_count()`.
    pub fn replace_line(&mut self, n: usize, content: &str) -> (r: Result<(), EncodingError>)
        requires
            old(self).wf(),
            old(self)@.pool.len() < u32::MAX,
        ensures
            final(self).wf(),
            final(self).validator() == old(self).validator(),
            n >= old(self)@.ids.len() ==> {
                &&& final(self)@ == old(self)@
                &&& r matches Err(e)
                &&& e.line@ == content@
                &&& e.description@ == index_error_text(
                    "replace_line"@,
                    n as nat,
                    old(self)@.ids.len(),
                )
            },
            n < old(self)@.ids.len() ==> (r is Ok <==> accepted_by_shared(
                old(self).validator(),
                content@,
            )),
            r matches Err(e) ==> (n < old(self)@.ids.len() ==> e.description@
                == rejection_by_shared(old(self).validator(), content@)),
            n < old(self)@.ids.len() && r is Err ==> final(self)@ == old(self)@,
            r matches Err(e) ==> e.line@ == content@,
            r is Ok ==> {
                &&& replaced(old(self)@, n as int, content@, final(self)@)
                &&& final(self)@.text() == old(self)@.text().update(n as int, content@)
            },
    {
        let count = self.root.line_count();
        if n >= count {
            return Err(index_error("replace_line", n, count, content));
        }
        let verdict = match &self.validator {
            None => Ok(()),
            Some(v) => v.validate(content),
        };
        self.root.apply_replace(n, content, verdict)
    }

    /// Deletes line `n`.  Returns `false` without modifying state if
    /// `n >= line_count()`.
    pub fn delete_line(&mut self, n: usize) -> (r: bool)
        requires
            old(self).wf(),
        ensures
            final(self).wf(),
            final(self).validator() == old(self).validator(),
            r == (n < old(self)@.ids.len()),
            !r ==> final(self)@ == old(self)@,
            r ==> final(self)@ == old(self)@.after_edit(
                old(self)@.pool,
                crate::branch::BranchEdit::Delete { at: n, id: old(self)@.ids[n as int] },
            ),
            r ==> final(self)@.text() == old(self)@.text().remove(n as int),
    {
        self.root.delete_line(n)
    }

    /// Undoes the most recent edit.  Returns `false` if there is nothing to
    /// undo.
    pub fn undo(&mut self) -> (r: bool)
        requires
            old(self).wf(),
        ensures
            final(self).wf(),
            final(self).validator() == old(self).validator(),
            r == (old(self)@.undo.len() > 0),
            !r ==> final(self)@ == old(self)@,
            r ==> final(self)@ == old(self)@.after_undo(),
    {
        self.root.undo()
    }

    /// Replays the most recently undone edit.  Returns `false` if there is
    /// nothing to redo.
    pub fn redo(&mut self) -> (r: bool)
        requires
            old(self).wf(),
        ensures
            final(self).wf(),
            final(self).validator() == old(self).validator(),
            r == (old(self)@.redo.len() > 0),
            !r ==> final(self)@ == old(self)@,
            r ==> final(self)@ == old(self)@.after_redo(),
    {
        self.root.redo()
    }

    /// Returns a new `Branch` forked from the root branch: the same lines and
    /// pool contents, empty undo/redo stacks.  No validator is installed on the
    /// branch; callers pass validators explicitly to its edits.
    pub fn branch(&self) -> (r: Branch)
        requires
            self.wf(),
        ensures
            r.wf(),
            r@ == self@.forked(),
    {
        self.root.fork()
    }

    /// The content of each line, in order, as owned strings.
    pub fn lines_vec(&self) -> (r: Vec<String>)
        requires
            self.wf(),
        ensures
            string_views(r@) == self@.text(),
    {
        let n = self.root.line_count();
        let mut out: Vec<String> = Vec::new();
        let mut i: usize = 0;
        while i < n
            invariant
                self.wf(),
                n == self@.text().len(),
                i <= n,
                string_views(out@) == self@.text().take(i as int),
            decreases n - i,
        {
            let line = match self.root.get_line(i) {
                Some(l) => l,
                None => String::new(),
            };
            proof {
                assert(string_views(out@.push(line)) =~= string_views(out@).push(line@));
                assert(self@.text().take(i + 1) =~= self@.text().take(i as int).push(
                    self@.text()[i as int],
                ));
            }
            out.push(line);
            i = i + 1;
        }
        proof {
            assert(self@.text().take(n as int) =~= self@.text());
        }
        out
    }

    /// Returns an iterator over the content of each line in order.
    pub fn iter_lines(&self) -> (r: std::vec::IntoIter<String>)
        requires
            self.wf(),
        ensures
            string_views(vstd::std_specs::vec::into_iter_elts(r)) == self@.text(),
    {
        let v = self.lines_vec();
        v.into_iter()
    }

    /// The whole text: the lines joined by `line_ending`, with no line ending
    /// after the last line.  An empty buffer gives an empty text.
    pub fn joined_text(&self, line_ending: &str) -> (r: String)
        requires
            self.wf(),
        ensures
            r@ == join_lines(self@.text(), line_ending@),
    {
        let v = self.lines_vec();
        join_strings(&v, line_ending)
    }

    /// Writes each line as UTF-8 bytes followed by `line_ending` bytes.
    ///
    /// No trailing line ending is written after the last line.  Writing an
    /// empty buffer produces no output.  The bytes written are those of
    /// [`LineBuffer::joined_text`].
    pub fn write_lines<W: Write>(&self, writer: W, line_ending: &str) -> (r: std::io::Result<()>)
        requires
            self.wf(),
    {
        let text = self.joined_text(line_ending);
        write_all_to(writer, self, line_ending, text.as_str().as_bytes())
    }
}

impl LineBufferView for LineBuffer {
    open spec fn view_wf(&self) -> bool {
        self.wf()
    }

    open spec fn view_lines(&self) -> Seq<Seq<char>> {
        self@.text()
    }

    fn line_count(&self) -> (r: usize) {
        self.root.line_count()
    }

    fn get_line(&self, n: usize) -> (r: Option<String>) {
        self.root.get_line(n)
    }

    fn line_crc32(&self, n: usize) -> (r: Option<u32>) {
        self.root.line_crc32(n)
    }

    fn line_md5(&self, n: usize) -> (r: Option<[u8; 16]>) {
        self.root.line_md5(n)
    }

    fn line_sha256(&self, n: usize) -> (r: Option<[u8; 32]>) {
        self.root.line_sha256(n)
    }
}

} // verus!
