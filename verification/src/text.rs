//! Text helpers: splitting on line endings, joining with a separator, and the
//! small number formatters used in error descriptions.
use vstd::prelude::*;
use vstd::std_specs::iter::IteratorSpec;

verus! {

/// `String::push` appends one character.
pub assume_specification[ String::push ](s: &mut String, c: char)
    ensures
        final(s)@ == old(s)@.push(c),
;

// ── Formatting and comparison through std ────────────────────────────────────

/// What `{:?}` writes for a string: the text in double quotes, with the
/// characters that `str::escape_debug` escapes written as escapes.
pub uninterp spec fn str_debug_text(s: Seq<char>) -> Seq<char>;

/// What `{:?}` writes for a character: the character in single quotes, escaped
/// as `char::escape_debug` does.
pub uninterp spec fn char_debug_text(c: char) -> Seq<char>;

/// Formats `s` with `{:?}` (std's `<str as Debug>::fmt`).  Trusted: the result
/// is that formatting of the characters of `s`, which depends on them alone.
#[verifier::external_body]
pub(crate) fn debug_str(s: &str) -> (r: String)
    ensures
        r@ == str_debug_text(s@),
{
    format!("{:?}", s)
}

/// Formats `c` with `{:?}` (std's `<char as Debug>::fmt`).  Trusted: the result
/// is that formatting of `c`, which depends on `c` alone.
#[verifier::external_body]
pub(crate) fn debug_char(c: char) -> (r: String)
    ensures
        r@ == char_debug_text(c),
{
    format!("{:?}", c)
}



// ── Line splitting ───────────────────────────────────────────────────────────

/// A character that ends a line: LF or CR.
pub open spec fn is_line_break(c: char) -> bool {
    c == '\n' || c == '\r'
}

/// No character of `s` ends a line.
pub open spec fn has_no_line_break(s: Seq<char>) -> bool {
    forall|j: int| 0 <= j < s.len() ==> !is_line_break(#[trigger] s[j])
}

/// The index of the first line-break character of `s`, or `s.len()` when it
/// has none.
pub open spec fn first_break(s: Seq<char>) -> int
    decreases s.len(),
{
    if s.len() == 0 {
        0
    } else if is_line_break(s[0]) {
        0
    } else {
        1 + first_break(s.drop_first())
    }
}

/// The length of the terminator that starts at index `k`: two for CRLF, one for
/// a bare CR or LF.
pub open spec fn terminator_len(s: Seq<char>, k: int) -> int {
    if s[k] == '\r' && k + 1 < s.len() && s[k + 1] == '\n' {
        2
    } else {
        1
    }
}

/// The lines of `s`, split on LF, CRLF or bare CR, terminators removed.  Every
/// terminator ends one line; the empty rest after a final terminator is not a
/// line.
pub open spec fn split_lines(s: Seq<char>) -> Seq<Seq<char>>
    decreases s.len(),
{
    if s.len() == 0 {
        Seq::empty()
    } else {
        let k = first_break(s);
        if k >= s.len() {
            seq![s]
        } else {
            proof {
                lemma_first_break_range(s);
            }
            seq![s.take(k)] + split_lines(s.skip(k + terminator_len(s, k)))
        }
    }
}

/// The character views of a sequence of strings.
pub open spec fn string_views(v: Seq<String>) -> Seq<Seq<char>> {
    v.map_values(|l: String| l@)
}

pub proof fn lemma_first_break_range(s: Seq<char>)
    ensures
        0 <= first_break(s) <= s.len(),
        first_break(s) < s.len() ==> is_line_break(s[first_break(s)]),
        forall|j: int| 0 <= j < first_break(s) ==> !is_line_break(#[trigger] s[j]),
    decreases s.len(),
{
    if s.len() > 0 && !is_line_break(s[0]) {
        lemma_first_break_range(s.drop_first());
        assert forall|j: int| 0 <= j < first_break(s) implies !is_line_break(#[trigger] s[j]) by {
            if j > 0 {
                assert(s[j] == s.drop_first()[j - 1]);
            }
        }
    }
}

/// When the first `m` characters are no line breaks and the character at `m`
/// (if any) is one, the first break is at `m`.
pub proof fn lemma_first_break_at(t: Seq<char>, m: int)
    requires
        0 <= m <= t.len(),
        forall|j: int| 0 <= j < m ==> !is_line_break(#[trigger] t[j]),
        m < t.len() ==> is_line_break(t[m]),
    ensures
        first_break(t) == m,
    decreases m,
{
    if m > 0 {
        let u = t.drop_first();
        assert forall|j: int| 0 <= j < m - 1 implies !is_line_break(#[trigger] u[j]) by {
            assert(u[j] == t[j + 1]);
        }
        if m < t.len() {
            assert(u[m - 1] == t[m]);
        }
        lemma_first_break_at(u, m - 1);
        assert(!is_line_break(t[0]));
    }
}

/// Where `[start, i)` holds no line break and `i` holds one, the lines of the
/// rest from `start` are that segment followed by the lines after the
/// terminator.
proof fn lemma_split_at_break(cs: Seq<char>, start: int, i: int)
    requires
        0 <= start <= i < cs.len(),
        forall|j: int| start <= j < i ==> !is_line_break(#[trigger] cs[j]),
        is_line_break(cs[i]),
    ensures
        split_lines(cs.skip(start)) == seq![cs.subrange(start, i)] + split_lines(
            cs.skip(i + terminator_len(cs, i)),
        ),
{
    let t = cs.skip(start);
    let m = i - start;
    assert forall|j: int| 0 <= j < m implies !is_line_break(#[trigger] t[j]) by {
        assert(t[j] == cs[start + j]);
    }
    assert(t[m] == cs[i]);
    lemma_first_break_at(t, m);
    assert(t.take(m) =~= cs.subrange(start, i));
    if m + 1 < t.len() {
        assert(t[m + 1] == cs[i + 1]);
    }
    assert(terminator_len(t, m) == terminator_len(cs, i));
    assert(t.skip(m + terminator_len(t, m)) =~= cs.skip(i + terminator_len(cs, i)));
}

/// Where `[start, len)` holds no line break, the rest from `start` is one line,
/// or none when it is empty.
proof fn lemma_split_at_end(cs: Seq<char>, start: int)
    requires
        0 <= start <= cs.len(),
        forall|j: int| start <= j < cs.len() ==> !is_line_break(#[trigger] cs[j]),
    ensures
        start < cs.len() ==> split_lines(cs.skip(start)) == seq![cs.skip(start)],
        start == cs.len() ==> split_lines(cs.skip(start)) == Seq::<Seq<char>>::empty(),
{
    let t = cs.skip(start);
    assert forall|j: int| 0 <= j < t.len() implies !is_line_break(#[trigger] t[j]) by {
        assert(t[j] == cs[start + j]);
    }
    lemma_first_break_at(t, t.len() as int);
}

/// Splitting never yields more lines than there are characters.
pub proof fn lemma_split_lines_len(s: Seq<char>)
    ensures
        split_lines(s).len() <= s.len(),
    decreases s.len(),
{
    if s.len() > 0 {
        lemma_first_break_range(s);
        let k = first_break(s);
        if k < s.len() {
            lemma_split_lines_len(s.skip(k + terminator_len(s, k)));
        }
    }
}

/// The characters of `s`, in order.
pub fn chars_of(s: &str) -> (r: Vec<char>)
    ensures
        r@ == s@,
{
    broadcast use vstd::string::group_string_axioms;

    let mut it = s.chars();
    let mut out: Vec<char> = Vec::new();
    loop
        invariant
            out@ + it.remaining() == s@,
            it.decrease() is Some,
        ensures
            out@ == s@,
        decreases it.decrease()->0,
    {
        match it.next() {
            None => {
                assert(out@ =~= s@);
                break ;
            },
            Some(c) => {
                out.push(c);
            },
        }
    }
    out
}

/// Whether two strings hold the same characters.
pub(crate) fn str_eq(a: &str, b: &str) -> (r: bool)
    ensures
        r == (a@ == b@),
{
    let x = chars_of(a);
    let y = chars_of(b);
    if x.len() != y.len() {
        return false;
    }
    let n = x.len();
    let mut i: usize = 0;
    while i < n
        invariant
            x@ == a@,
            y@ == b@,
            n == x@.len(),
            n == y@.len(),
            i <= n,
            forall|j: int| 0 <= j < i ==> x@[j] == y@[j],
        decreases n - i,
    {
        if x[i] != y[i] {
            return false;
        }
        i = i + 1;
    }
    assert(a@ =~= b@);
    true
}

/// Splits `s` on LF (`\n`), CRLF (`\r\n`) or bare CR (`\r`) and returns the
/// lines without their terminators.  A trailing terminator does not produce a
/// spurious empty final line.
pub fn split_on_line_endings(s: &str) -> (r: Vec<String>)
    ensures
        string_views(r@) == split_lines(s@),
{
    let c = chars_of(s);
    let len = c.len();
    let ghost cs = c@;
    let mut lines: Vec<String> = Vec::new();
    let mut cur = String::new();
    let mut start: usize = 0;
    let mut i: usize = 0;
    proof {
        assert(cs.skip(0) =~= cs);
        assert(string_views(lines@) + split_lines(cs.skip(0)) =~= split_lines(cs));
    }
    while i < len
        invariant
            cs == s@,
            c@ == cs,
            len == cs.len(),
            start <= i <= len,
            cur@ == cs.subrange(start as int, i as int),
            forall|j: int| start <= j < i ==> !is_line_break(#[trigger] cs[j]),
            string_views(lines@) + split_lines(cs.skip(start as int)) == split_lines(cs),
        decreases len - i,
    {
        let ch = c[i];
        if ch == '\n' || ch == '\r' {
            let next: usize = if ch == '\r' && i + 1 < len && c[i + 1] == '\n' {
                i + 2
            } else {
                i + 1
            };
            proof {
                lemma_split_at_break(cs, start as int, i as int);
                assert(terminator_len(cs, i as int) == next - i);
                assert(cur@ == cs.subrange(start as int, i as int));
                assert(string_views(lines@.push(cur)) =~= string_views(lines@).push(cur@));
                assert(string_views(lines@).push(cur@) + split_lines(cs.skip(next as int))
                    =~= string_views(lines@) + (seq![cur@] + split_lines(cs.skip(next as int))));
            }
            lines.push(cur);
            cur = String::new();
            start = next;
            i = next;
            proof {
                assert(cur@ =~= cs.subrange(start as int, i as int));
            }
        } else {
            cur.push(ch);
            i = i + 1;
            proof {
                assert(cur@ =~= cs.subrange(start as int, i as int));
            }
        }
    }
    proof {
        lemma_split_at_end(cs, start as int);
        assert(cs.skip(start as int) =~= cur@);
    }
    if start < len {
        proof {
            assert(string_views(lines@.push(cur)) =~= string_views(lines@).push(cur@));
        }
        lines.push(cur);
    } else {
        proof {
            assert(string_views(lines@) + split_lines(cs.skip(start as int)) =~= string_views(
                lines@,
            ));
        }
    }
    lines
}

/// The characters `c[from..to]` as a string.
pub(crate) fn string_of(c: &Vec<char>, from: usize, to: usize) -> (r: String)
    requires
        from <= to <= c@.len(),
    ensures
        r@ == c@.subrange(from as int, to as int),
{
    let mut s = String::new();
    let mut i = from;
    while i < to
        invariant
            from <= i <= to <= c@.len(),
            s@ == c@.subrange(from as int, i as int),
        decreases to - i,
    {
        s.push(c[i]);
        i = i + 1;
        proof {
            assert(s@ =~= c@.subrange(from as int, i as int));
        }
    }
    s
}

// ── Splitting as `str::lines` does ───────────────────────────────────────────

/// The index of the first LF of `s`, or `s.len()` when it has none.
pub open spec fn first_lf(s: Seq<char>) -> int
    decreases s.len(),
{
    if s.len() == 0 {
        0
    } else if s[0] == '\n' {
        0
    } else {
        1 + first_lf(s.drop_first())
    }
}

/// `t` without its last character when that is a CR.
pub open spec fn without_final_cr(t: Seq<char>) -> Seq<char> {
    if t.len() > 0 && t.last() == '\r' {
        t.drop_last()
    } else {
        t
    }
}

/// The lines of `s` as `str::lines` yields them: `s` is cut at each LF, a CR
/// just before that LF is dropped, the empty rest after a final LF is no line,
/// and a CR at the very end of `s` stays in the last line.
pub open spec fn lf_lines(s: Seq<char>) -> Seq<Seq<char>>
    decreases s.len(),
{
    if s.len() == 0 {
        Seq::empty()
    } else {
        let k = first_lf(s);
        if k >= s.len() {
            seq![s]
        } else {
            proof {
                lemma_first_lf_range(s);
            }
            seq![without_final_cr(s.take(k))] + lf_lines(s.skip(k + 1))
        }
    }
}

pub proof fn lemma_first_lf_range(s: Seq<char>)
    ensures
        0 <= first_lf(s) <= s.len(),
        first_lf(s) < s.len() ==> s[first_lf(s)] == '\n',
        forall|j: int| 0 <= j < first_lf(s) ==> #[trigger] s[j] != '\n',
    decreases s.len(),
{
    if s.len() > 0 && s[0] != '\n' {
        lemma_first_lf_range(s.drop_first());
        assert forall|j: int| 0 <= j < first_lf(s) implies #[trigger] s[j] != '\n' by {
            if j > 0 {
                assert(s[j] == s.drop_first()[j - 1]);
            }
        }
    }
}

/// When the first `m` characters are no LF and the character at `m` (if any)
/// is one, the first LF is at `m`.
proof fn lemma_first_lf_at(t: Seq<char>, m: int)
    requires
        0 <= m <= t.len(),
        forall|j: int| 0 <= j < m ==> #[trigger] t[j] != '\n',
        m < t.len() ==> t[m] == '\n',
    ensures
        first_lf(t) == m,
    decreases m,
{
    if m > 0 {
        let u = t.drop_first();
        assert forall|j: int| 0 <= j < m - 1 implies #[trigger] u[j] != '\n' by {
            assert(u[j] == t[j + 1]);
        }
        if m < t.len() {
            assert(u[m - 1] == t[m]);
        }
        lemma_first_lf_at(u, m - 1);
        assert(t[0] != '\n');
    }
}

/// Where `[start, i)` holds no LF and `i` holds one, the lines of the rest from
/// `start` are that segment (less a final CR) followed by the lines after the
/// LF.
proof fn lemma_lf_at_break(cs: Seq<char>, start: int, i: int)
    requires
        0 <= start <= i < cs.len(),
        forall|j: int| start <= j < i ==> #[trigger] cs[j] != '\n',
        cs[i] == '\n',
    ensures
        lf_lines(cs.skip(start)) == seq![without_final_cr(cs.subrange(start, i))] + lf_lines(
            cs.skip(i + 1),
        ),
{
    let t = cs.skip(start);
    let m = i - start;
    assert forall|j: int| 0 <= j < m implies #[trigger] t[j] != '\n' by {
        assert(t[j] == cs[start + j]);
    }
    assert(t[m] == cs[i]);
    lemma_first_lf_at(t, m);
    assert(t.take(m) =~= cs.subrange(start, i));
    assert(t.skip(m + 1) =~= cs.skip(i + 1));
}

/// Where `[start, len)` holds no LF, the rest from `start` is one line, or
/// none when it is empty.
proof fn lemma_lf_at_end(cs: Seq<char>, start: int)
    requires
        0 <= start <= cs.len(),
        forall|j: int| start <= j < cs.len() ==> #[trigger] cs[j] != '\n',
    ensures
        start < cs.len() ==> lf_lines(cs.skip(start)) == seq![cs.skip(start)],
        start == cs.len() ==> lf_lines(cs.skip(start)) == Seq::<Seq<char>>::empty(),
{
    let t = cs.skip(start);
    assert forall|j: int| 0 <= j < t.len() implies #[trigger] t[j] != '\n' by {
        assert(t[j] == cs[start + j]);
    }
    lemma_first_lf_at(t, t.len() as int);
}

/// Splits `s` into lines as `str::lines` does: at each LF, dropping a CR that
/// comes just before it.  A final LF ends the last line; a CR at the very end
/// stays in it.
pub fn split_lf_lines(s: &str) -> (r: Vec<String>)
    ensures
        string_views(r@) == lf_lines(s@),
{
    let c = chars_of(s);
    let len = c.len();
    let ghost cs = c@;
    let mut lines: Vec<String> = Vec::new();
    let mut start: usize = 0;
    let mut i: usize = 0;
    proof {
        assert(cs.skip(0) =~= cs);
        assert(string_views(lines@) + lf_lines(cs.skip(0)) =~= lf_lines(cs));
    }
    while i < len
        invariant
            cs == s@,
            c@ == cs,
            len == cs.len(),
            start <= i <= len,
            forall|j: int| start <= j < i ==> #[trigger] cs[j] != '\n',
            string_views(lines@) + lf_lines(cs.skip(start as int)) == lf_lines(cs),
        decreases len - i,
    {
        if c[i] == '\n' {
            let end: usize = if i > start && c[i - 1] == '\r' {
                i - 1
            } else {
                i
            };
            let line = string_of(&c, start, end);
            proof {
                lemma_lf_at_break(cs, start as int, i as int);
                assert(line@ =~= without_final_cr(cs.subrange(start as int, i as int)));
                assert(string_views(lines@.push(line)) =~= string_views(lines@).push(line@));
                assert(string_views(lines@).push(line@) + lf_lines(cs.skip(i + 1)) =~= string_views(
                    lines@,
                ) + (seq![line@] + lf_lines(cs.skip(i + 1))));
            }
            lines.push(line);
            start = i + 1;
        }
        i = i + 1;
    }
    proof {
        lemma_lf_at_end(cs, start as int);
    }
    if start < len {
        let line = string_of(&c, start, len);
        proof {
            assert(line@ =~= cs.skip(start as int));
            assert(string_views(lines@.push(line)) =~= string_views(lines@).push(line@));
        }
        lines.push(line);
    } else {
        proof {
            assert(string_views(lines@) + lf_lines(cs.skip(start as int)) =~= string_views(
                lines@,
            ));
        }
    }
    lines
}

// ── Joining ──────────────────────────────────────────────────────────────────

/// The lines joined by `sep`: no separator before the first line or after the
/// last.
pub open spec fn join_lines(lines: Seq<Seq<char>>, sep: Seq<char>) -> Seq<char>
    decreases lines.len(),
{
    if lines.len() == 0 {
        Seq::empty()
    } else if lines.len() == 1 {
        lines[0]
    } else {
        lines[0] + sep + join_lines(lines.drop_first(), sep)
    }
}

/// Law: joining lines and then one more line gives the join of those lines,
/// then the separator, then the new line: every line after the first is
/// preceded by exactly one separator.
pub proof fn lemma_join_push(lines: Seq<Seq<char>>, sep: Seq<char>, x: Seq<char>)
    requires
        lines.len() > 0,
    ensures
        join_lines(lines.push(x), sep) == join_lines(lines, sep) + sep + x,
    decreases lines.len(),
{
    if lines.len() == 1 {
        assert(lines.push(x).drop_first() =~= seq![x]);
        assert(join_lines(seq![x], sep) == x);
    } else {
        let d = lines.drop_first();
        lemma_join_push(d, sep, x);
        assert(lines.push(x).drop_first() =~= d.push(x));
        assert(join_lines(lines.push(x), sep) == lines[0] + sep + (join_lines(d, sep) + sep + x));
        assert(join_lines(lines, sep) == lines[0] + sep + join_lines(d, sep));
        assert(lines[0] + sep + (join_lines(d, sep) + sep + x) =~= lines[0] + sep + join_lines(
            d,
            sep,
        ) + sep + x);
    }
}

/// Appends each string of `lines` to a new string, with `sep` between two of
/// them.
pub fn join_strings(lines: &Vec<String>, sep: &str) -> (r: String)
    ensures
        r@ == join_lines(string_views(lines@), sep@),
{
    let mut out = String::new();
    let n = lines.len();
    let mut i: usize = 0;
    while i < n
        invariant
            n == lines@.len(),
            i <= n,
            out@ == join_lines(string_views(lines@).take(i as int), sep@),
        decreases n - i,
    {
        let ghost before = string_views(lines@).take(i as int);
        if i > 0 {
            out.append(sep);
        }
        out.append(lines[i].as_str());
        proof {
            let after = string_views(lines@).take(i + 1);
            if i == 0 {
                assert(after =~= seq![lines@[0]@]);
            } else {
                assert(after =~= before.push(lines@[i as int]@));
                lemma_join_push(before, sep@, lines@[i as int]@);
            }
        }
        i = i + 1;
    }
    assert(string_views(lines@).take(n as int) =~= string_views(lines@));
    out
}

// ── Round trip ───────────────────────────────────────────────────────────────

/// One of the three terminators that `split_lines` recognises.
pub open spec fn is_terminator(sep: Seq<char>) -> bool {
    sep == seq!['\n'] || sep == seq!['\r', '\n'] || sep == seq!['\r']
}

proof fn lemma_join_first(rest: Seq<Seq<char>>, sep: Seq<char>)
    requires
        rest.len() > 0,
        rest.last().len() > 0,
        is_terminator(sep),
    ensures
        join_lines(rest, sep).len() > 0,
        rest[0].len() > 0 ==> join_lines(rest, sep)[0] == rest[0][0],
        rest[0].len() == 0 ==> join_lines(rest, sep)[0] == sep[0],
{
    if rest.len() > 1 {
        let j = join_lines(rest, sep);
        assert(j == rest[0] + sep + join_lines(rest.drop_first(), sep));
        if rest[0].len() == 0 {
            assert(j[0] == sep[0]);
        }
    }
}

/// Law: splitting the join of lines gives the lines back, for each of the three
/// terminators, provided no line holds a line break and the last line (if any)
/// is not empty.
pub proof fn law_split_of_join(lines: Seq<Seq<char>>, sep: Seq<char>)
    requires
        is_terminator(sep),
        forall|i: int| 0 <= i < lines.len() ==> has_no_line_break(#[trigger] lines[i]),
        lines.len() > 0 ==> lines.last().len() > 0,
    ensures
        split_lines(join_lines(lines, sep)) == lines,
    decreases lines.len(),
{
    if lines.len() == 0 {
        assert(split_lines(Seq::empty()) =~= lines);
    } else if lines.len() == 1 {
        let a = lines[0];
        assert(has_no_line_break(a));
        lemma_first_break_at(a, a.len() as int);
        assert(split_lines(a) =~= lines);
    } else {
        let a = lines[0];
        let rest = lines.drop_first();
        assert(has_no_line_break(a));
        assert forall|i: int| 0 <= i < rest.len() implies has_no_line_break(#[trigger] rest[i]) by {
            assert(rest[i] == lines[i + 1]);
        }
        assert(rest.last() == lines.last());
        law_split_of_join(rest, sep);
        let j = join_lines(rest, sep);
        lemma_join_first(rest, sep);
        let s = a + sep + j;
        assert(join_lines(lines, sep) == s);
        assert forall|k: int| 0 <= k < a.len() implies !is_line_break(#[trigger] s[k]) by {
            assert(s[k] == a[k]);
        }
        assert(s[a.len() as int] == sep[0]);
        lemma_first_break_at(s, a.len() as int);
        let k = a.len() as int;
        if sep == seq!['\r'] {
            assert(s[k + 1] == j[0]);
            if rest[0].len() > 0 {
                assert(has_no_line_break(rest[0]));
                assert(!is_line_break(rest[0][0]));
            }
        } else if sep == seq!['\r', '\n'] {
            assert(s[k + 1] == sep[1]);
        }
        assert(terminator_len(s, k) == sep.len());
        assert(s.take(k) =~= a);
        assert(s.skip(k + sep.len()) =~= j);
        assert(split_lines(s) =~= seq![a] + rest);
        assert(seq![a] + rest =~= lines);
    }
}

/// The text without its final LF, if it ends with one.
pub open spec fn without_final_lf(s: Seq<char>) -> Seq<char> {
    if s.len() > 0 && s.last() == '\n' {
        s.drop_last()
    } else {
        s
    }
}

/// Law: joining with LF the lines that a text splits into gives the text back,
/// less a final LF, provided it holds no CR.
pub proof fn law_join_of_split(s: Seq<char>)
    requires
        forall|j: int| 0 <= j < s.len() ==> #[trigger] s[j] != '\r',
    ensures
        join_lines(split_lines(s), seq!['\n']) == without_final_lf(s),
    decreases s.len(),
{
    if s.len() > 0 {
        lemma_first_break_range(s);
        let k = first_break(s);
        if k >= s.len() {
            assert(split_lines(s) == seq![s]);
            assert(!is_line_break(s[s.len() - 1]));
        } else {
            let rest = s.skip(k + 1);
            assert(s[k] == '\n');
            assert(terminator_len(s, k) == 1);
            if rest.len() == 0 {
                assert(split_lines(rest) =~= Seq::<Seq<char>>::empty());
                assert(seq![s.take(k)] + split_lines(rest) =~= seq![s.take(k)]);
                assert(s.take(k) =~= s.drop_last());
            } else {
                assert forall|j: int| 0 <= j < rest.len() implies #[trigger] rest[j] != '\r' by {
                    assert(rest[j] == s[k + 1 + j]);
                }
                assert(rest.last() == s.last());
                law_join_of_split(rest);
                let tail = split_lines(rest);
                lemma_first_break_range(rest);
                assert(tail.len() > 0);
                let l = seq![s.take(k)] + tail;
                assert(split_lines(s) == l);
                assert(l.drop_first() =~= tail);
                assert(join_lines(l, seq!['\n']) == s.take(k) + seq!['\n'] + join_lines(
                    tail,
                    seq!['\n'],
                ));
                if s.last() == '\n' {
                    assert(s.take(k) + seq!['\n'] + rest.drop_last() =~= s.drop_last());
                } else {
                    assert(s.take(k) + seq!['\n'] + rest =~= s);
                }
            }
        }
    }
}

/// Law: no line produced by `split_lines` holds a line-break character.
pub proof fn law_split_lines_have_no_breaks(s: Seq<char>)
    ensures
        forall|i: int|
            0 <= i < split_lines(s).len() ==> has_no_line_break(#[trigger] split_lines(s)[i]),
    decreases s.len(),
{
    if s.len() > 0 {
        lemma_first_break_range(s);
        let k = first_break(s);
        if k < s.len() {
            let rest = s.skip(k + terminator_len(s, k));
            law_split_lines_have_no_breaks(rest);
            let l = split_lines(s);
            assert(l == seq![s.take(k)] + split_lines(rest));
            assert forall|i: int| 0 <= i < l.len() implies has_no_line_break(#[trigger] l[i]) by {
                if i == 0 {
                    assert forall|j: int| 0 <= j < l[0].len() implies !is_line_break(
                        #[trigger] l[0][j],
                    ) by {
                        assert(l[0][j] == s[j]);
                    }
                } else {
                    assert(l[i] == split_lines(rest)[i - 1]);
                }
            }
        }
    }
}

// ── Number formatting ────────────────────────────────────────────────────────

/// The decimal digit or upper-case hexadecimal digit for `d`.
pub open spec fn digit_char(d: nat) -> char {
    if d < 10 {
        (48 + d) as char
    } else {
        (55 + d) as char
    }
}

/// The digits of `n` in base `base`, most significant first, without leading
/// zeros ("0" for zero).
pub open spec fn digits(n: nat, base: nat) -> Seq<char>
    recommends
        base >= 2,
    decreases n,
    when base >= 2
{
    if n < base {
        seq![digit_char(n)]
    } else {
        proof {
            assert(n / base < n) by (nonlinear_arith)
                requires
                    base >= 2,
                    n >= base,
            ;
        }
        digits(n / base, base).push(digit_char(n % base))
    }
}

/// The decimal representation of `n`, as `{}` formats an unsigned integer.
pub open spec fn decimal(n: nat) -> Seq<char> {
    digits(n, 10)
}

/// The upper-case hexadecimal representation of `n`, left-padded with zeros to
/// at least four digits, as `{:04X}` formats it.
pub open spec fn hex4(n: nat) -> Seq<char> {
    let h = digits(n, 16);
    if h.len() < 4 {
        Seq::new((4 - h.len()) as nat, |i: int| '0') + h
    } else {
        h
    }
}

fn digit_to_char(d: u32) -> (c: char)
    requires
        d < 16,
    ensures
        c == digit_char(d as nat),
{
    if d < 10 {
        ((48 + d) as u8) as char
    } else {
        ((55 + d) as u8) as char
    }
}

/// Appends the base-`base` digits of `n` to `s`.
fn push_digits(s: &mut String, n: u32, base: u32)
    requires
        base == 10 || base == 16,
    ensures
        final(s)@ == old(s)@ + digits(n as nat, base as nat),
    decreases n,
{
    if n >= base {
        push_digits(s, n / base, base);
    }
    s.push(digit_to_char(n % base));
    proof {
        if n >= base {
            assert(old(s)@ + digits(n as nat, base as nat) =~= old(s)@ + digits(
                (n / base) as nat,
                base as nat,
            ) + seq![digit_char((n % base) as nat)]);
        } else {
            assert(old(s)@ + digits(n as nat, base as nat) =~= old(s)@.push(
                digit_char(n as nat),
            ));
        }
    }
}

/// Appends the decimal representation of `n` to `s`.
pub fn push_decimal(s: &mut String, n: u128)
    ensures
        final(s)@ == old(s)@ + decimal(n as nat),
    decreases n,
{
    if n >= 10 {
        push_decimal(s, n / 10);
    }
    s.push(digit_to_char((n % 10) as u32));
    proof {
        if n >= 10 {
            assert(old(s)@ + decimal(n as nat) =~= old(s)@ + decimal((n / 10) as nat) + seq![
                digit_char((n % 10) as nat),
            ]);
        } else {
            assert(old(s)@ + decimal(n as nat) =~= old(s)@.push(digit_char(n as nat)));
        }
    }
}

proof fn lemma_digits_len_pos(n: nat, base: nat)
    requires
        base >= 2,
    ensures
        digits(n, base).len() >= 1,
    decreases n,
{
    if n >= base {
        assert(n / base < n) by (nonlinear_arith)
            requires
                base >= 2,
                n >= base,
        ;
        lemma_digits_len_pos(n / base, base);
    }
}

/// Appends `v` in upper-case hexadecimal, at least four digits wide.
pub fn push_hex4(s: &mut String, v: u32)
    ensures
        final(s)@ == old(s)@ + hex4(v as nat),
{
    let ghost h = digits(v as nat, 16);
    proof {
        lemma_digits_len_pos(v as nat, 16);
    }
    let width: usize = if v < 16 {
        1
    } else if v < 256 {
        2
    } else if v < 4096 {
        3
    } else {
        4
    };
    proof {
        if v < 16 {
            assert(h.len() == 1);
        } else if v < 256 {
            assert(digits((v / 16) as nat, 16).len() == 1);
            assert(h.len() == 2);
        } else if v < 4096 {
            assert(digits((v / 16 / 16) as nat, 16).len() == 1);
            assert(digits((v / 16) as nat, 16).len() == 2);
            assert(h.len() == 3);
        } else {
            assert(h.len() >= 4) by {
                assert(digits((v / 16 / 16 / 16) as nat, 16).len() >= 1) by {
                    lemma_digits_len_pos((v / 16 / 16 / 16) as nat, 16);
                }
                assert(digits((v / 16 / 16) as nat, 16).len() >= 2);
                assert(digits((v / 16) as nat, 16).len() >= 3);
            }
        }
    }
    let mut k: usize = width;
    while k < 4
        invariant
            width <= k <= 4,
            h.len() < 4 ==> width == h.len(),
            final_zeros_ok(old(s)@, s@, (k - width) as nat),
        decreases 4 - k,
    {
        s.push('0');
        k = k + 1;
        proof {
            assert(s@ =~= old(s)@ + Seq::new((k - width) as nat, |i: int| '0'));
        }
    }
    push_digits(s, v, 16);
    proof {
        if h.len() < 4 {
            assert(old(s)@ + hex4(v as nat) =~= old(s)@ + Seq::new(
                (4 - h.len()) as nat,
                |i: int| '0',
            ) + h);
        } else {
            assert(old(s)@ + Seq::new(0, |i: int| '0') =~= old(s)@);
        }
    }
}

/// `cur` is `base` followed by `n` zero characters.
spec fn final_zeros_ok(base: Seq<char>, cur: Seq<char>, n: nat) -> bool {
    cur == base + Seq::new(n, |i: int| '0')
}

} // verus!
