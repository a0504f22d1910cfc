//! Lines that must be representable in a legacy encoding chosen by a label of
//! the Encoding Standard: the encoding itself, a validator that refuses lines
//! it cannot encode, and the conversions between buffer text and bytes in it.
//! The encoding work is done by `encoding_rs`.
use encoding_rs::Encoding;
use vstd::prelude::*;
use vstd::utf8::encode_utf8;

use crate::encoding::{accepted_by_shared, all_ascii, is_ascii_char, EncodingError, EncodingValidator};
use crate::green::intern_result;
use crate::line_buffer::{too_many_distinct_lines_text, LineBuffer};
use crate::text::{lf_lines, split_lf_lines, string_views};

verus! {

#[verifier::external_type_specification]
#[verifier::external_body]
pub struct ExEncoding(Encoding);

/// The longest text, in UTF-8 bytes, that is handed to the encoder or decoder:
/// below it their buffer size calculations cannot overflow.
pub const CODED_LEN_LIMIT: usize = usize::MAX / 16;

// ── What encoding_rs computes ────────────────────────────────────────────────

/// Whether `Encoding::for_label` knows `label`.
pub uninterp spec fn is_known_label(label: Seq<char>) -> bool;

/// The name (`Encoding::name`) of the encoding that `label` names.
pub uninterp spec fn label_encoding_name(label: Seq<char>) -> Seq<char>;

/// The bytes that `Encoding::encode` makes of `text` in the encoding that
/// `label` names.
pub uninterp spec fn encoded_in(label: Seq<char>, text: Seq<char>) -> Seq<u8>;

/// Whether `Encoding::encode` meets, in `text`, a character that the encoding
/// that `label` names cannot represent.
pub uninterp spec fn unmappable_in(label: Seq<char>, text: Seq<char>) -> bool;

/// The text that `Encoding::decode` makes of `bytes` in the encoding that
/// `label` names.
pub uninterp spec fn decoded_from(label: Seq<char>, bytes: Seq<u8>) -> Seq<char>;

/// Looks `label` up with `Encoding::for_label`.  Trusted: the lookup succeeds
/// exactly for the labels that `for_label` knows.
#[verifier::external_body]
fn lookup_label(label: &str) -> (r: Option<&'static Encoding>)
    ensures
        r is Some == is_known_label(label@),
{
    Encoding::for_label(label.as_bytes())
}

/// The name (`Encoding::name`) of `target`'s encoding.  Trusted: the encoding
/// is the one that `Encoding::for_label` gave for `target`'s label, so its
/// name depends on that label alone.
#[verifier::external_body]
fn name_of(target: &TargetEncoding) -> (r: &'static str)
    ensures
        r@ == label_encoding_name(target@),
{
    target.encoding.name()
}

/// Encodes `text` with `Encoding::encode` in `target`'s encoding, returning the
/// bytes and whether unmappable characters were met.  Trusted: the encoding is
/// the one that `Encoding::for_label` gave for `target`'s label, so both depend
/// on that label and on `text` alone.  The length bound keeps `encode`'s
/// buffer size calculation from overflowing.
#[verifier::external_body]
fn encode_with(target: &TargetEncoding, text: &str) -> (r: (Vec<u8>, bool))
    requires
        encode_utf8(text@).len() <= CODED_LEN_LIMIT,
    ensures
        r.0@ == encoded_in(target@, text@),
        r.1 == unmappable_in(target@, text@),
{
    let (bytes, _, unmappable) = target.encoding.encode(text);
    (bytes.into_owned(), unmappable)
}

/// Decodes `bytes` with `Encoding::decode` (BOM sniffing, malformed sequences
/// replaced) in `target`'s encoding.  Trusted: the encoding is the one that
/// `Encoding::for_label` gave for `target`'s label, so the text depends on that
/// label and on `bytes` alone.  The length bound keeps `decode`'s buffer size
/// calculation from overflowing.
#[verifier::external_body]
fn decode_with(target: &TargetEncoding, bytes: &[u8]) -> (r: String)
    requires
        bytes@.len() <= CODED_LEN_LIMIT,
    ensures
        r@ == decoded_from(target@, bytes@),
{
    target.encoding.decode(bytes).0.into_owned()
}

// ── TargetEncoding ───────────────────────────────────────────────────────────

/// An encoding of the Encoding Standard, chosen by one of its labels.  Its
/// view is the label it was chosen by; only [`TargetEncoding::for_label`]
/// makes one, so the encoding is always the one that label names.
pub struct TargetEncoding {
    encoding: &'static Encoding,
    label: String,
    name: String,
}

impl View for TargetEncoding {
    type V = Seq<char>;

    closed spec fn view(&self) -> Seq<char> {
        self.label@
    }
}

impl TargetEncoding {
    /// The encoding's name.
    pub closed spec fn encoding_name(&self) -> Seq<char> {
        self.name@
    }

    /// The encoding that `label` names, or `None` for a label that the
    /// Encoding Standard does not define.
    pub fn for_label(label: &str) -> (r: Option<TargetEncoding>)
        ensures
            r is Some == is_known_label(label@),
            r matches Some(t) ==> t@ == label@ && t.encoding_name() == label_encoding_name(label@),
    {
        match lookup_label(label) {
            None => None,
            Some(encoding) => {
                let unnamed = TargetEncoding { encoding, label: label.to_owned(), name: String::new() };
                let name = name_of(&unnamed).to_owned();
                Some(TargetEncoding { name, ..unnamed })
            },
        }
    }

    /// The encoding's name.
    pub fn name(&self) -> (r: &str)
        ensures
            r@ == self.encoding_name(),
    {
        self.name.as_str()
    }

    /// The same encoding.
    pub fn duplicate(&self) -> (r: TargetEncoding)
        ensures
            r@ == self@,
            r.encoding_name() == self.encoding_name(),
    {
        TargetEncoding { encoding: self.encoding, label: self.label.clone(), name: self.name.clone() }
    }
}

/// Whether `text` cannot be written in the encoding that `label` names: it
/// holds a character the encoding cannot represent, or it is too long to
/// encode.
pub open spec fn cannot_encode(label: Seq<char>, text: Seq<char>) -> bool {
    encode_utf8(text).len() > CODED_LEN_LIMIT || unmappable_in(label, text)
}

/// Whether `text` cannot be written in `target`'s encoding.
fn check_unencodable(target: &TargetEncoding, text: &str) -> (r: bool)
    ensures
        r == cannot_encode(target@, text@),
{
    if text.as_bytes().len() > CODED_LEN_LIMIT {
        true
    } else {
        encode_with(target, text).1
    }
}

// ── ForcedEncodingValidator ──────────────────────────────────────────────────

/// The explanation given for a line that the encoding named `name` cannot
/// represent.
pub open spec fn unencodable_text(name: Seq<char>) -> Seq<char> {
    "line contains characters that cannot be encoded in '"@ + name + "'"@
}

/// An [`EncodingValidator`] that rejects lines holding characters that cannot
/// be represented in its target encoding.  Pure-ASCII lines are accepted
/// without being encoded.
pub struct ForcedEncodingValidator {
    target: TargetEncoding,
}

impl ForcedEncodingValidator {
    /// The label of the encoding that lines must fit.
    pub closed spec fn target_label(&self) -> Seq<char> {
        self.target@
    }

    /// The name of that encoding.
    pub closed spec fn target_encoding_name(&self) -> Seq<char> {
        self.target.encoding_name()
    }

    /// A validator for `target`.
    pub fn new(target: TargetEncoding) -> (r: ForcedEncodingValidator)
        ensures
            r.target_label() == target@,
            r.target_encoding_name() == target.encoding_name(),
    {
        ForcedEncodingValidator { target }
    }

    /// The decision on `line` once it is known whether it can be encoded:
    /// accepted when it is pure ASCII or encodable, refused otherwise.
    pub fn verdict(&self, line: &str, unencodable: bool) -> (r: Result<(), EncodingError>)
        ensures
            r is Ok <==> (all_ascii(line@) || !unencodable),
            r matches Err(e) ==> {
                &&& e.line@ == line@
                &&& e.description@ == unencodable_text(self.target_encoding_name())
            },
    {
        if line.is_ascii() || !unencodable {
            proof {
                lemma_is_ascii(line@);
            }
            Ok(())
        } else {
            proof {
                lemma_is_ascii(line@);
            }
            let mut d = String::new();
            d.append("line contains characters that cannot be encoded in '");
            d.append(self.target.name.as_str());
            d.append("'");
            proof {
                assert(d@ =~= unencodable_text(self.target_encoding_name()));
            }
            Err(EncodingError::new(line, d))
        }
    }
}

/// No character comes before NUL.
proof fn lemma_char_nonnegative(c: char)
    ensures
        '\0' <= c,
{
}

/// `str::is_ascii` and [`all_ascii`] agree.
proof fn lemma_is_ascii(s: Seq<char>)
    ensures
        vstd::utf8::is_ascii_chars(s) == all_ascii(s),
{
    if all_ascii(s) {
        assert forall|i: int| 0 <= i < s.len() implies '\0' <= #[trigger] s[i] <= '\u{7f}' by {
            lemma_char_nonnegative(s[i]);
        }
    }
}

impl EncodingValidator for ForcedEncodingValidator {
    open spec fn accepts(&self, line: Seq<char>) -> bool {
        all_ascii(line) || !cannot_encode(self.target_label(), line)
    }

    open spec fn rejection(&self, line: Seq<char>) -> Seq<char> {
        unencodable_text(self.target_encoding_name())
    }

    fn validate(&self, line: &str) -> (r: Result<(), EncodingError>)
        ensures
            r is Ok <==> (all_ascii(line@) || !cannot_encode(self.target_label(), line@)),
            r matches Err(e) ==> e.description@ == unencodable_text(self.target_encoding_name()),
    {
        if line.is_ascii() {
            proof {
                lemma_is_ascii(line@);
            }
            return Ok(());
        }
        let unencodable = check_unencodable(&self.target, line);
        self.verdict(line, unencodable)
    }
}


// ── Loading and saving text in the target encoding ───────────────────────────

/// The lines, in order, that a validator accepted, where `accepted[i]` says
/// whether `lines[i]` was.
pub open spec fn selected(lines: Seq<Seq<char>>, accepted: Seq<bool>) -> Seq<Seq<char>>
    decreases lines.len(),
{
    if lines.len() == 0 {
        Seq::empty()
    } else {
        let rest = selected(lines.drop_last(), accepted.drop_last());
        if accepted.last() {
            rest.push(lines.last())
        } else {
            rest
        }
    }
}

/// The verdict of validator `v` on each of `lines`.
pub open spec fn verdicts(
    lines: Seq<Seq<char>>,
    v: Option<std::sync::Arc<dyn EncodingValidator>>,
) -> Seq<bool> {
    lines.map_values(|l: Seq<char>| accepted_by_shared(v, l))
}

/// Each verdict of `accepted` turned over.
pub open spec fn turned(accepted: Seq<bool>) -> Seq<bool> {
    accepted.map_values(|a: bool| !a)
}

/// The rejected line of each error, in order.
pub open spec fn error_lines(errors: Seq<EncodingError>) -> Seq<Seq<char>> {
    errors.map_values(|e: EncodingError| e.line@)
}

/// The pool after interning `ls`, in order, into a pool whose contents are
/// `p`.
pub open spec fn pool_after(p: Seq<Seq<char>>, ls: Seq<Seq<char>>) -> Seq<Seq<char>>
    decreases ls.len(),
{
    if ls.len() == 0 {
        p
    } else {
        intern_result(pool_after(p, ls.drop_last()), ls.last()).0
    }
}

/// Whether, before line `i` of `lines` is offered, the pool is full: the
/// pool `p` after interning the lines before it that validator `v` accepts
/// can take no other distinct content.
pub open spec fn pool_full_at(
    lines: Seq<Seq<char>>,
    i: int,
    v: Option<std::sync::Arc<dyn EncodingValidator>>,
    p: Seq<Seq<char>>,
) -> bool {
    pool_after(p, selected(lines.take(i), verdicts(lines.take(i), v))).len() >= u32::MAX
}

/// Loading `lines` into a pool `p` with validator `v` stops before line `k`:
/// the pool is full there (or `k` is past the last line), and not before.
pub open spec fn load_stop(
    lines: Seq<Seq<char>>,
    k: int,
    v: Option<std::sync::Arc<dyn EncodingValidator>>,
    p: Seq<Seq<char>>,
) -> bool {
    &&& 0 <= k <= lines.len()
    &&& forall|i: int| 0 <= i < k ==> !#[trigger] pool_full_at(lines, i, v, p)
    &&& k < lines.len() ==> pool_full_at(lines, k, v, p)
}

/// The bytes of `lines` saved in the encoding named `name`: each line
/// encoded and followed by `ending`.
pub open spec fn encoded_lines(name: Seq<char>, lines: Seq<Seq<char>>, ending: Seq<u8>) -> Seq<u8>
    decreases lines.len(),
{
    if lines.len() == 0 {
        Seq::empty()
    } else {
        encoded_lines(name, lines.drop_last(), ending) + encoded_in(name, lines.last()) + ending
    }
}

/// Law: saving lines and then one more line gives the bytes of those lines,
/// then the new line encoded, then the line ending, whatever the new line is
/// (the empty line too); saving no lines gives no bytes.  So every line of a
/// saved buffer is followed by exactly one line ending.
pub proof fn law_encoded_lines_push(
    label: Seq<char>,
    lines: Seq<Seq<char>>,
    line: Seq<char>,
    ending: Seq<u8>,
)
    ensures
        encoded_lines(label, lines.push(line), ending) == encoded_lines(label, lines, ending)
            + encoded_in(label, line) + ending,
        encoded_lines(label, Seq::empty(), ending) == Seq::<u8>::empty(),
{
    assert(lines.push(line).drop_last() =~= lines);
}

/// Law: saving two runs of lines one after the other gives the bytes of the
/// first run followed by the bytes of the second.
pub proof fn law_encoded_lines_concat(
    label: Seq<char>,
    a: Seq<Seq<char>>,
    b: Seq<Seq<char>>,
    ending: Seq<u8>,
)
    ensures
        encoded_lines(label, a + b, ending) == encoded_lines(label, a, ending) + encoded_lines(
            label,
            b,
            ending,
        ),
    decreases b.len(),
{
    if b.len() == 0 {
        assert(a + b =~= a);
        assert(encoded_lines(label, a, ending) + Seq::<u8>::empty() =~= encoded_lines(
            label,
            a,
            ending,
        ));
    } else {
        law_encoded_lines_concat(label, a, b.drop_last(), ending);
        assert((a + b).drop_last() =~= a + b.drop_last());
        assert((a + b).last() == b.last());
        assert(encoded_lines(label, a, ending) + encoded_lines(label, b.drop_last(), ending)
            + encoded_in(label, b.last()) + ending =~= encoded_lines(label, a, ending) + (
        encoded_lines(label, b.drop_last(), ending) + encoded_in(label, b.last()) + ending));
    }
}

proof fn lemma_selected_push(ls: Seq<Seq<char>>, i: int, accepted: Seq<bool>, a: bool)
    requires
        0 <= i < ls.len(),
        accepted.len() == i,
    ensures
        selected(ls.take(i + 1), accepted.push(a)) == if a {
            selected(ls.take(i), accepted).push(ls[i])
        } else {
            selected(ls.take(i), accepted)
        },
        selected(ls.take(i + 1), turned(accepted.push(a))) == if a {
            selected(ls.take(i), turned(accepted))
        } else {
            selected(ls.take(i), turned(accepted)).push(ls[i])
        },
{
    assert(ls.take(i + 1).drop_last() =~= ls.take(i));
    assert(accepted.push(a).drop_last() =~= accepted);
    assert(turned(accepted.push(a)) =~= turned(accepted).push(!a));
    assert(turned(accepted).push(!a).drop_last() =~= turned(accepted));
}

impl LineBuffer {
    /// Decodes `bytes` from `target`'s encoding and appends each line of the
    /// text, as `str::lines` splits it, with `insert_line`: the lines that the
    /// buffer's validator accepts are appended in order, and the rejections
    /// are returned in order.  Should the pool fill up, so that it can take no
    /// other distinct content, loading stops there and an error saying so is
    /// returned last.
    pub fn append_decoded(&mut self, target: &TargetEncoding, bytes: &[u8]) -> (r: Vec<
        EncodingError,
    >)
        requires
            old(self).wf(),
            bytes@.len() <= CODED_LEN_LIMIT,
        ensures
            final(self).wf(),
            final(self).validator() == old(self).validator(),
            ({
                let lines = lf_lines(decoded_from(target@, bytes@));
                let v = old(self).validator();
                exists|k: int|
                    {
                        let accepted = verdicts(lines.take(k), v);
                        &&& #[trigger] load_stop(lines, k, v, old(self)@.pool)
                        &&& final(self)@.text() == old(self)@.text() + selected(
                            lines.take(k),
                            accepted,
                        )
                        &&& k == lines.len() ==> error_lines(r@) == selected(
                            lines.take(k),
                            turned(accepted),
                        )
                        &&& k < lines.len() ==> {
                            &&& r@.len() > 0
                            &&& error_lines(r@.drop_last()) == selected(
                                lines.take(k),
                                turned(accepted),
                            )
                            &&& r@.last().line@ == Seq::<char>::empty()
                            &&& r@.last().description@ == too_many_distinct_lines_text()
                        }
                    }
            }),
    {
        let text = decode_with(target, bytes);
        let lines = split_lf_lines(text.as_str());
        let ghost ls = string_views(lines@);
        let ghost v = old(self).validator();
        let ghost p0 = old(self)@.pool;
        let mut errors: Vec<EncodingError> = Vec::new();
        let n = lines.len();
        let ghost old_text = self@.text();
        let ghost mut accepted: Seq<bool> = Seq::empty();
        let mut i: usize = 0;
        proof {
            assert(ls.take(0) =~= Seq::<Seq<char>>::empty());
            assert(accepted =~= verdicts(ls.take(0), v));
            assert(old_text + selected(ls.take(0), accepted) =~= old_text);
            assert(error_lines(errors@) =~= selected(ls.take(0), turned(accepted)));
        }
        while i < n
            invariant
                self.wf(),
                v == old(self).validator(),
                p0 == old(self)@.pool,
                old_text == old(self)@.text(),
                ls == lf_lines(decoded_from(target@, bytes@)),
                self.validator() == v,
                n == lines@.len(),
                ls == string_views(lines@),
                i <= n,
                accepted == verdicts(ls.take(i as int), v),
                self@.pool == pool_after(p0, selected(ls.take(i as int), accepted)),
                forall|j: int| 0 <= j < i ==> !#[trigger] pool_full_at(ls, j, v, p0),
                self@.text() == old_text + selected(ls.take(i as int), accepted),
                error_lines(errors@) == selected(ls.take(i as int), turned(accepted)),
            decreases n - i,
        {
            if self.pool_len() >= 4294967295 {
                proof {
                    assert(pool_full_at(ls, i as int, v, p0));
                    assert(load_stop(ls, i as int, v, p0));
                    reveal_strlit("");
                    reveal_strlit("more distinct lines than a pool can index");
                }
                let e = EncodingError::new("", "more distinct lines than a pool can index".to_string());
                let ghost before = errors@;
                errors.push(e);
                proof {
                    assert(errors@.drop_last() =~= before);
                }
                return errors;
            }
            let count = self.line_count();
            let line = lines[i].as_str();
            assert(line@ == ls[i as int]);
            let ghost before = self@;
            let ghost a = accepted_by_shared(v, ls[i as int]);
            proof {
                assert(!pool_full_at(ls, i as int, v, p0));
                lemma_selected_push(ls, i as int, accepted, true);
                lemma_selected_push(ls, i as int, accepted, false);
                assert(verdicts(ls.take(i + 1), v) =~= accepted.push(a));
            }
            match self.insert_line(count, line) {
                Ok(()) => {
                    proof {
                        assert(self@.text() =~= before.text().push(line@));
                        let sel = selected(ls.take(i as int), accepted);
                        assert(sel.push(ls[i as int]).drop_last() =~= sel);
                        accepted = accepted.push(true);
                    }
                },
                Err(e) => {
                    proof {
                        assert(error_lines(errors@.push(e)) =~= error_lines(errors@).push(e.line@));
                        accepted = accepted.push(false);
                    }
                    errors.push(e);
                },
            }
            i = i + 1;
        }
        proof {
            assert(ls.take(n as int) =~= ls);
            assert(load_stop(ls, n as int, v, p0));
        }
        errors
    }

    /// The bytes of the buffer saved in `target`'s encoding: each line encoded
    /// and followed by the bytes of `line_ending`.  Encoding stops at the first
    /// line that cannot be written in the encoding, whose index is returned
    /// beside the bytes of the lines before it.
    pub fn encoded_bytes(&self, target: &TargetEncoding, line_ending: &str) -> (r: (
        Vec<u8>,
        Option<usize>,
    ))
        requires
            self.wf(),
        ensures
            ({
                let text = self@.text();
                let stop = match r.1 {
                    Some(k) => k as int,
                    None => text.len() as int,
                };
                &&& r.1 matches Some(k) ==> k < text.len() && cannot_encode(target@, text[k as int])
                &&& forall|j: int| 0 <= j < stop ==> !cannot_encode(target@, #[trigger] text[j])
                &&& r.0@ == encoded_lines(target@, text.take(stop), encode_utf8(line_ending@))
            }),
    {
        let ghost text = self@.text();
        let ghost ending = encode_utf8(line_ending@);
        let ending_bytes = line_ending.as_bytes();
        let n = self.line_count();
        let mut out: Vec<u8> = Vec::new();
        let mut i: usize = 0;
        proof {
            assert(text.take(0) =~= Seq::<Seq<char>>::empty());
        }
        while i < n
            invariant
                self.wf(),
                text == self@.text(),
                n == text.len(),
                ending == encode_utf8(line_ending@),
                ending_bytes@ == ending,
                i <= n,
                forall|j: int| 0 <= j < i ==> !cannot_encode(target@, #[trigger] text[j]),
                out@ == encoded_lines(target@, text.take(i as int), ending),
            decreases n - i,
        {
            let line = match self.get_line(i) {
                Some(l) => l,
                None => String::new(),
            };
            assert(line@ == text[i as int]);
            if check_unencodable(target, line.as_str()) {
                return (out, Some(i));
            }
            let (mut bytes, _) = encode_with(target, line.as_str());
            let mut tail = vstd::slice::slice_to_vec(ending_bytes);
            proof {
                assert(text.take(i + 1).drop_last() =~= text.take(i as int));
            }
            out.append(&mut bytes);
            out.append(&mut tail);
            i = i + 1;
        }
        proof {
            assert(text.take(n as int) =~= text);
        }
        (out, None)
    }
}

} // verus!
