//! The decisions of a small line-oriented editor over a [`LineBuffer`]: how a
//! command line is read, and what each command does to the buffer and reports.
//! The program around it reads the command lines, prints the reports and
//! performs the saves.
use vstd::prelude::*;

use crate::branch::{index_error_text, inserted, replaced, BranchEdit};
use crate::encoding::error_report;
use crate::line_buffer::LineBuffer;
use crate::text::{chars_of, debug_str, decimal, push_decimal, str_debug_text, str_eq, string_of};

verus! {

broadcast use vstd::string::group_string_axioms;

// ── Line endings ─────────────────────────────────────────────────────────────

/// Line ending written when saving a file.
#[derive(Clone, Copy, Debug, PartialEq, Eq, Structural)]
pub enum LineEnding {
    Lf,
    Crlf,
    Cr,
}

impl LineEnding {
    /// The characters of this line ending.
    pub open spec fn chars(self) -> Seq<char> {
        match self {
            LineEnding::Lf => seq!['\n'],
            LineEnding::Crlf => seq!['\r', '\n'],
            LineEnding::Cr => seq!['\r'],
        }
    }

    /// The line ending as text.
    pub fn as_str(self) -> (r: &'static str)
        ensures
            r@ == self.chars(),
    {
        match self {
            LineEnding::Lf => {
                proof {
                    reveal_strlit("\n");
                }
                "\n"
            },
            LineEnding::Crlf => {
                proof {
                    reveal_strlit("\r\n");
                }
                "\r\n"
            },
            LineEnding::Cr => {
                proof {
                    reveal_strlit("\r");
                }
                "\r"
            },
        }
    }
}

// ── Words of a command line ──────────────────────────────────────────────────

/// Characters removed from the end of a command line.
pub open spec fn is_trailing_blank(c: char) -> bool {
    c == ' ' || c == '\t' || c == '\r' || c == '\n'
}

/// `s` without its trailing spaces, tabs, CRs and LFs.
pub open spec fn trim_end(s: Seq<char>) -> Seq<char>
    decreases s.len(),
{
    if s.len() > 0 && is_trailing_blank(s.last()) {
        trim_end(s.drop_last())
    } else {
        s
    }
}

/// The index of the first space of `s`, or its length when it has none.
pub open spec fn first_space(s: Seq<char>) -> int
    decreases s.len(),
{
    if s.len() == 0 {
        0
    } else if s[0] == ' ' {
        0
    } else {
        1 + first_space(s.drop_first())
    }
}

/// The text before the first space.
pub open spec fn before_space(s: Seq<char>) -> Seq<char> {
    s.take(first_space(s))
}

/// The text after the first space, if there is one.
pub open spec fn after_space(s: Seq<char>) -> Option<Seq<char>> {
    if first_space(s) < s.len() {
        Some(s.skip(first_space(s) + 1))
    } else {
        None
    }
}

/// The command word, its argument and the rest of a command line: the line
/// with trailing blanks removed, split at most twice on single spaces.
pub open spec fn words(line: Seq<char>) -> (Seq<char>, Option<Seq<char>>, Option<Seq<char>>) {
    let t = trim_end(line);
    match after_space(t) {
        None => (before_space(t), None, None),
        Some(r) => (before_space(t), Some(before_space(r)), after_space(r)),
    }
}

proof fn lemma_first_space_at(t: Seq<char>, m: int)
    requires
        0 <= m <= t.len(),
        forall|j: int| 0 <= j < m ==> #[trigger] t[j] != ' ',
        m < t.len() ==> t[m] == ' ',
    ensures
        first_space(t) == m,
    decreases m,
{
    if m > 0 {
        let u = t.drop_first();
        assert forall|j: int| 0 <= j < m - 1 implies #[trigger] u[j] != ' ' by {
            assert(u[j] == t[j + 1]);
        }
        if m < t.len() {
            assert(u[m - 1] == t[m]);
        }
        lemma_first_space_at(u, m - 1);
        assert(t[0] != ' ');
    }
}

proof fn lemma_trim_end_at(s: Seq<char>, e: int)
    requires
        0 <= e <= s.len(),
        forall|j: int| e <= j < s.len() ==> is_trailing_blank(#[trigger] s[j]),
        e > 0 ==> !is_trailing_blank(s[e - 1]),
    ensures
        trim_end(s) == s.take(e),
    decreases s.len(),
{
    if s.len() > e {
        assert(is_trailing_blank(s[s.len() - 1]));
        let d = s.drop_last();
        assert forall|j: int| e <= j < d.len() implies is_trailing_blank(#[trigger] d[j]) by {
            assert(d[j] == s[j]);
        }
        if e > 0 {
            assert(d[e - 1] == s[e - 1]);
        }
        lemma_trim_end_at(d, e);
        assert(d.take(e) =~= s.take(e));
    } else {
        assert(s.take(e) =~= s);
    }
}

/// The index of the first space in `c[from..to]`, or `to`.
fn find_space(c: &Vec<char>, from: usize, to: usize) -> (r: usize)
    requires
        from <= to <= c@.len(),
    ensures
        from <= r <= to,
        r - from == first_space(c@.subrange(from as int, to as int)),
{
    let mut i = from;
    while i < to && c[i] != ' '
        invariant
            from <= i <= to <= c@.len(),
            forall|j: int| from <= j < i ==> #[trigger] c@[j] != ' ',
        decreases to - i,
    {
        i = i + 1;
    }
    proof {
        let t = c@.subrange(from as int, to as int);
        assert forall|j: int| 0 <= j < i - from implies #[trigger] t[j] != ' ' by {
            assert(t[j] == c@[from + j]);
        }
        if i < to {
            assert(t[i - from] == c@[i as int]);
        }
        lemma_first_space_at(t, i - from);
    }
    i
}

// ── Line numbers ─────────────────────────────────────────────────────────────

pub open spec fn is_digit(c: char) -> bool {
    48 <= (c as u32) && (c as u32) <= 57
}

/// The value of a sequence of decimal digits.
pub open spec fn digits_value(d: Seq<char>) -> nat
    decreases d.len(),
{
    if d.len() == 0 {
        0
    } else {
        digits_value(d.drop_last()) * 10 + ((d.last() as u32) - 48) as nat
    }
}

/// Every character is a decimal digit.
pub open spec fn all_digits(d: Seq<char>) -> bool {
    forall|i: int| 0 <= i < d.len() ==> is_digit(#[trigger] d[i])
}

/// `tok` without its leading `+`, if it has one.
pub open spec fn unsigned_body(tok: Seq<char>) -> Seq<char> {
    if tok.len() > 0 && tok[0] == '+' {
        tok.drop_first()
    } else {
        tok
    }
}

/// What `str::parse::<usize>` makes of `tok`: an optional `+`, then one or
/// more decimal digits whose value fits in `usize`.
pub open spec fn parse_usize(tok: Seq<char>) -> Option<nat> {
    let body = unsigned_body(tok);
    if body.len() > 0 && all_digits(body) && digits_value(body) <= usize::MAX {
        Some(digits_value(body))
    } else {
        None
    }
}

/// A 1-based line number token read as a 0-based index, or the complaint
/// about it.
pub open spec fn line_number_result(tok: Seq<char>) -> Result<nat, Seq<char>> {
    match parse_usize(tok) {
        Some(n) => if n == 0 {
            Err("edlin: line numbers are 1-based; 0 is not valid"@)
        } else {
            Ok((n - 1) as nat)
        },
        None => Err("edlin: invalid line number: "@ + str_debug_text(tok)),
    }
}

proof fn lemma_not_all_digits(t: Seq<char>)
    requires
        !all_digits(unsigned_body(t)),
    ensures
        parse_usize(t) is None,
{
}

/// Reads `tok` as `str::parse::<usize>` does.
pub fn parse_usize_token(tok: &str) -> (r: Option<usize>)
    ensures
        r matches Some(v) ==> parse_usize(tok@) == Some(v as nat),
        r is None ==> parse_usize(tok@) is None,
{
    let c = chars_of(tok);
    let len = c.len();
    let start: usize = if len > 0 && c[0] == '+' {
        1
    } else {
        0
    };
    let ghost body = unsigned_body(tok@);
    proof {
        assert(body =~= c@.subrange(start as int, len as int));
    }
    if start == len {
        return None;
    }
    let mut value: u128 = 0;
    let mut overflow = false;
    let mut i = start;
    while i < len
        invariant
            start <= i <= len,
            len == c@.len(),
            body == c@.subrange(start as int, len as int),
            body == unsigned_body(tok@),
            forall|j: int| start <= j < i ==> is_digit(#[trigger] c@[j]),
            !overflow ==> value == digits_value(c@.subrange(start as int, i as int)),
            !overflow ==> value <= usize::MAX,
            overflow ==> digits_value(c@.subrange(start as int, i as int)) > usize::MAX,
        decreases len - i,
    {
        let ch = c[i];
        let code = ch as u32;
        if code < 48 || code > 57 {
            proof {
                assert(!is_digit(body[i - start]));
                assert(!all_digits(body));
                lemma_not_all_digits(tok@);
            }
            return None;
        }
        proof {
            let p = c@.subrange(start as int, i + 1);
            assert(p.drop_last() =~= c@.subrange(start as int, i as int));
            assert(p.last() == ch);
        }
        if !overflow {
            value = value * 10 + (code - 48) as u128;
            if value > usize::MAX as u128 {
                overflow = true;
            }
        }
        i = i + 1;
    }
    proof {
        assert(c@.subrange(start as int, len as int) == body);
        assert forall|j: int| 0 <= j < body.len() implies is_digit(#[trigger] body[j]) by {
            assert(body[j] == c@[start + j]);
        }
    }
    if overflow {
        None
    } else {
        Some(value as usize)
    }
}

/// Parse a 1-based line number token, returning a 0-based index, or the
/// message that reports why the token is not one.
pub fn parse_line_number(token: &str) -> (r: Result<usize, String>)
    ensures
        match (r, line_number_result(token@)) {
            (Ok(i), Ok(j)) => i == j,
            (Err(m), Err(n)) => m@ == n,
            _ => false,
        },
{
    match parse_usize_token(token) {
        Some(0) => Err("edlin: line numbers are 1-based; 0 is not valid".to_string()),
        Some(n) => Ok(n - 1),
        None => {
            let mut m = "edlin: invalid line number: ".to_string();
            let q = debug_str(token);
            m.append(q.as_str());
            Err(m)
        },
    }
}

// ── Commands ─────────────────────────────────────────────────────────────────

/// One editor command, as read from a command line.
#[derive(Debug)]
pub enum Command {
    /// `q`: quit without saving.
    Quit,
    /// `?` or `h`: print the help text.
    Help,
    /// `l`: list all lines with line numbers.
    List,
    /// `p N`: print a line.
    Print { index: usize },
    /// `i N <text>`: insert before a line (appending past the end).
    Insert { index: usize, text: String },
    /// `r N <text>`: replace a line.
    Replace { index: usize, text: String },
    /// `d N`: delete a line.
    Delete { index: usize },
    /// `u`: undo.
    Undo,
    /// `e`: redo.
    Redo,
    /// `s` or `s <path>`: save.
    Save { path: Option<String> },
    /// An empty command line: nothing to do.
    Blank,
    /// A command that cannot be carried out; the message says why.
    Invalid { message: String },
}

/// The content of a command.
pub enum CommandView {
    Quit,
    Help,
    List,
    Print(nat),
    Insert(nat, Seq<char>),
    Replace(nat, Seq<char>),
    Delete(nat),
    Undo,
    Redo,
    Save(Option<Seq<char>>),
    Blank,
    Invalid(Seq<char>),
}

impl View for Command {
    type V = CommandView;

    open spec fn view(&self) -> CommandView {
        match self {
            Command::Quit => CommandView::Quit,
            Command::Help => CommandView::Help,
            Command::List => CommandView::List,
            Command::Print { index } => CommandView::Print(*index as nat),
            Command::Insert { index, text } => CommandView::Insert(*index as nat, text@),
            Command::Replace { index, text } => CommandView::Replace(*index as nat, text@),
            Command::Delete { index } => CommandView::Delete(*index as nat),
            Command::Undo => CommandView::Undo,
            Command::Redo => CommandView::Redo,
            Command::Save { path } => CommandView::Save(
                match path {
                    Some(p) => Some(p@),
                    None => None,
                },
            ),
            Command::Blank => CommandView::Blank,
            Command::Invalid { message } => CommandView::Invalid(message@),
        }
    }
}

/// A command that takes a line number: the usage message when the number is
/// missing, otherwise the command built from the index, or the complaint about
/// the number.
pub open spec fn numbered(
    arg: Option<Seq<char>>,
    usage: Seq<char>,
    make: spec_fn(nat) -> CommandView,
) -> CommandView {
    match arg {
        None => CommandView::Invalid(usage),
        Some(a) => match line_number_result(a) {
            Ok(i) => make(i),
            Err(m) => CommandView::Invalid(m),
        },
    }
}

/// The command a command line holds.
pub open spec fn command_of(line: Seq<char>) -> CommandView {
    let (cmd, arg, rest) = words(line);
    let text = match rest {
        Some(t) => t,
        None => Seq::empty(),
    };
    if cmd == "q"@ {
        CommandView::Quit
    } else if cmd == "?"@ || cmd == "h"@ {
        CommandView::Help
    } else if cmd == "l"@ {
        CommandView::List
    } else if cmd == "p"@ {
        numbered(arg, "edlin: p: usage: p N"@, |i: nat| CommandView::Print(i))
    } else if cmd == "i"@ {
        numbered(arg, "edlin: i: usage: i N <text>"@, |i: nat| CommandView::Insert(i, text))
    } else if cmd == "r"@ {
        numbered(arg, "edlin: r: usage: r N <text>"@, |i: nat| CommandView::Replace(i, text))
    } else if cmd == "d"@ {
        numbered(arg, "edlin: d: usage: d N"@, |i: nat| CommandView::Delete(i))
    } else if cmd == "u"@ {
        CommandView::Undo
    } else if cmd == "e"@ {
        CommandView::Redo
    } else if cmd == "s"@ {
        CommandView::Save(arg)
    } else if cmd.len() == 0 {
        CommandView::Blank
    } else {
        CommandView::Invalid("edlin: unrecognised command: "@ + str_debug_text(cmd))
    }
}

/// The words of `c n t`, where the token `n` holds no blank and the text `t`
/// does not end with one: the command letter, the token, and the text (none
/// when it is empty).
proof fn lemma_words_of_numbered(c: char, n: Seq<char>, t: Seq<char>)
    requires
        c != ' ',
        !is_trailing_blank(c),
        n.len() > 0,
        forall|j: int| 0 <= j < n.len() ==> !is_trailing_blank(#[trigger] n[j]),
        t.len() > 0 ==> !is_trailing_blank(t.last()),
    ensures
        words(seq![c, ' '] + n + seq![' '] + t) == (
            seq![c],
            Some(n),
            if t.len() > 0 {
                Some(t)
            } else {
                None::<Seq<char>>
            },
        ),
{
    let line = seq![c, ' '] + n + seq![' '] + t;
    let head = seq![c, ' '] + n;
    let tt = trim_end(line);
    if t.len() > 0 {
        assert(line.last() == t.last());
        lemma_trim_end_at(line, line.len() as int);
        assert(line.take(line.len() as int) =~= line);
    } else {
        assert forall|j: int| head.len() <= j < line.len() implies is_trailing_blank(
            #[trigger] line[j],
        ) by {
            assert(line[j] == ' ');
        }
        assert(line[head.len() - 1] == n.last());
        lemma_trim_end_at(line, head.len() as int);
        assert(line.take(head.len() as int) =~= head);
    }
    let rest = if t.len() > 0 {
        n + seq![' '] + t
    } else {
        n
    };
    assert(tt[0] == c);
    assert(tt[1] == ' ');
    lemma_first_space_at(tt, 1);
    assert(tt.take(1) =~= seq![c]);
    assert(tt.skip(2) =~= rest);
    assert forall|j: int| 0 <= j < n.len() implies #[trigger] rest[j] != ' ' by {
        assert(rest[j] == n[j]);
        assert(!is_trailing_blank(n[j]));
    }
    if t.len() > 0 {
        assert(rest[n.len() as int] == ' ');
    }
    lemma_first_space_at(rest, n.len() as int);
    assert(rest.take(n.len() as int) =~= n);
    if t.len() > 0 {
        assert(rest.skip(n.len() as int + 1) =~= t);
    }
}

/// Law: an insert or replace command keeps its text exactly.  For a line
/// number token `n` holding no blank and a text `t` that does not end with
/// one, `i n t` reads as an insert of `t` and `r n t` as a replacement with
/// `t` (leading and inner spaces kept) at the index that `n` names, or as
/// the complaint about `n`.
pub proof fn law_command_text_kept(n: Seq<char>, t: Seq<char>)
    requires
        n.len() > 0,
        forall|j: int| 0 <= j < n.len() ==> !is_trailing_blank(#[trigger] n[j]),
        t.len() > 0 ==> !is_trailing_blank(t.last()),
    ensures
        command_of(seq!['i', ' '] + n + seq![' '] + t) == match line_number_result(n) {
            Ok(i) => CommandView::Insert(i, t),
            Err(m) => CommandView::Invalid(m),
        },
        command_of(seq!['r', ' '] + n + seq![' '] + t) == match line_number_result(n) {
            Ok(i) => CommandView::Replace(i, t),
            Err(m) => CommandView::Invalid(m),
        },
{
    reveal_strlit("q");
    reveal_strlit("?");
    reveal_strlit("h");
    reveal_strlit("l");
    reveal_strlit("p");
    reveal_strlit("i");
    reveal_strlit("r");
    lemma_words_of_numbered('i', n, t);
    lemma_words_of_numbered('r', n, t);
    let text = if t.len() > 0 {
        t
    } else {
        Seq::<char>::empty()
    };
    assert(text =~= t);
    assert("q"@ =~= seq!['q']);
    assert("?"@ =~= seq!['?']);
    assert("h"@ =~= seq!['h']);
    assert("l"@ =~= seq!['l']);
    assert("p"@ =~= seq!['p']);
    assert("i"@ =~= seq!['i']);
    assert("r"@ =~= seq!['r']);
    assert(seq!['i'][0] != seq!['q'][0]);
    assert(seq!['i'][0] != seq!['?'][0]);
    assert(seq!['i'][0] != seq!['h'][0]);
    assert(seq!['i'][0] != seq!['l'][0]);
    assert(seq!['i'][0] != seq!['p'][0]);
    assert(seq!['r'][0] != seq!['q'][0]);
    assert(seq!['r'][0] != seq!['?'][0]);
    assert(seq!['r'][0] != seq!['h'][0]);
    assert(seq!['r'][0] != seq!['l'][0]);
    assert(seq!['r'][0] != seq!['p'][0]);
    assert(seq!['r'][0] != seq!['i'][0]);
}

/// Law: listing a non-empty buffer prints exactly one line per line of the
/// buffer, in order: its 1-based number right-aligned in six columns, two
/// spaces, and its content.  An empty buffer lists as `(empty)`.
pub proof fn law_listing_shows_every_line(text: Seq<Seq<char>>)
    ensures
        text.len() > 0 ==> listing(text).len() == text.len(),
        forall|i: int|
            0 <= i < text.len() ==> #[trigger] listing(text)[i] == EffectView::Print(
                pad6(decimal((i + 1) as nat)) + "  "@ + text[i],
            ),
        text.len() == 0 ==> listing(text) == seq![EffectView::Print("(empty)"@)],
{
}

/// Reads one command line.
pub fn parse_command(line: &str) -> (r: Command)
    ensures
        r@ == command_of(line@),
{
    let c = chars_of(line);
    let len = c.len();
    let mut e = len;
    while e > 0 && (c[e - 1] == ' ' || c[e - 1] == '\t' || c[e - 1] == '\r' || c[e - 1] == '\n')
        invariant
            e <= len,
            len == c@.len(),
            forall|j: int| e <= j < len ==> is_trailing_blank(#[trigger] c@[j]),
        decreases e,
    {
        e = e - 1;
    }
    let ghost t = trim_end(line@);
    proof {
        lemma_trim_end_at(c@, e as int);
        assert(c@ == line@);
        assert(t =~= c@.subrange(0, e as int));
    }
    let k1 = find_space(&c, 0, e);
    let cmd = string_of(&c, 0, k1);
    proof {
        assert(cmd@ =~= before_space(t));
    }
    let mut arg: Option<String> = None;
    let mut rest: Option<String> = None;
    if k1 < e {
        let k2 = find_space(&c, k1 + 1, e);
        arg = Some(string_of(&c, k1 + 1, k2));
        if k2 < e {
            rest = Some(string_of(&c, k2 + 1, e));
        }
        proof {
            let r = t.skip(k1 + 1);
            assert(after_space(t) == Some(r));
            assert(r =~= c@.subrange(k1 + 1, e as int));
            assert(before_space(r) =~= c@.subrange(k1 + 1, k2 as int));
            if k2 < e {
                assert(r.skip(first_space(r) + 1) =~= c@.subrange(k2 + 1, e as int));
            }
        }
    }
    let ghost (wc, wa, wr) = words(line@);
    proof {
        assert(wc == cmd@);
        assert(match arg {
            Some(a) => wa == Some(a@),
            None => wa is None,
        });
        assert(match rest {
            Some(a) => wr == Some(a@),
            None => wr is None,
        });
    }
    let text = match rest {
        Some(t) => t,
        None => String::new(),
    };
    let ghost tv = match wr {
        Some(t) => t,
        None => Seq::<char>::empty(),
    };
    assert(text@ == tv);
    let c = cmd.as_str();
    if str_eq(c, "q") {
        Command::Quit
    } else if str_eq(c, "?") || str_eq(c, "h") {
        Command::Help
    } else if str_eq(c, "l") {
        Command::List
    } else if str_eq(c, "p") {
        match arg {
            None => Command::Invalid { message: "edlin: p: usage: p N".to_string() },
            Some(a) => match parse_line_number(a.as_str()) {
                Ok(index) => Command::Print { index },
                Err(message) => Command::Invalid { message },
            },
        }
    } else if str_eq(c, "i") {
        match arg {
            None => Command::Invalid { message: "edlin: i: usage: i N <text>".to_string() },
            Some(a) => match parse_line_number(a.as_str()) {
                Ok(index) => Command::Insert { index, text },
                Err(message) => Command::Invalid { message },
            },
        }
    } else if str_eq(c, "r") {
        match arg {
            None => Command::Invalid { message: "edlin: r: usage: r N <text>".to_string() },
            Some(a) => match parse_line_number(a.as_str()) {
                Ok(index) => Command::Replace { index, text },
                Err(message) => Command::Invalid { message },
            },
        }
    } else if str_eq(c, "d") {
        match arg {
            None => Command::Invalid { message: "edlin: d: usage: d N".to_string() },
            Some(a) => match parse_line_number(a.as_str()) {
                Ok(index) => Command::Delete { index },
                Err(message) => Command::Invalid { message },
            },
        }
    } else if str_eq(c, "u") {
        Command::Undo
    } else if str_eq(c, "e") {
        Command::Redo
    } else if str_eq(c, "s") {
        Command::Save { path: arg }
    } else if c.is_empty() {
        Command::Blank
    } else {
        let mut m = "edlin: unrecognised command: ".to_string();
        let q = debug_str(c);
        m.append(q.as_str());
        Command::Invalid { message: m }
    }
}

} // verus!

verus! {

// ── Carrying out commands ────────────────────────────────────────────────────

/// The help text.
pub open spec fn help_text() -> Seq<char> {
    "Commands (line numbers are 1-based):\n  l           List all lines with line numbers\n  p N         Print line N\n  i N <text>  Insert <text> before line N (appends if N > line count)\n  r N <text>  Replace line N with <text>\n  d N         Delete line N\n  u           Undo\n  e           Redo\n  s           Save to default output path\n  s <path>    Save to given path\n  q           Quit without saving\n  ? or h      Print this help"@
}

/// Returns the help text.
pub fn help() -> (r: &'static str)
    ensures
        r@ == help_text(),
{
    "Commands (line numbers are 1-based):\n  l           List all lines with line numbers\n  p N         Print line N\n  i N <text>  Insert <text> before line N (appends if N > line count)\n  r N <text>  Replace line N with <text>\n  d N         Delete line N\n  u           Undo\n  e           Redo\n  s           Save to default output path\n  s <path>    Save to given path\n  q           Quit without saving\n  ? or h      Print this help"
}

/// Something the program around the editor does after a command.
#[derive(Debug)]
pub enum Effect {
    /// Print this line to standard output.
    Print(String),
    /// Print this line to standard error.
    Warn(String),
    /// Save the buffer, to this path or to the default output path.
    Save(Option<String>),
    /// Stop reading commands.
    Quit,
}

/// The content of an effect.
pub enum EffectView {
    Print(Seq<char>),
    Warn(Seq<char>),
    Save(Option<Seq<char>>),
    Quit,
}

impl View for Effect {
    type V = EffectView;

    open spec fn view(&self) -> EffectView {
        match self {
            Effect::Print(s) => EffectView::Print(s@),
            Effect::Warn(s) => EffectView::Warn(s@),
            Effect::Save(p) => EffectView::Save(
                match p {
                    Some(p) => Some(p@),
                    None => None,
                },
            ),
            Effect::Quit => EffectView::Quit,
        }
    }
}

pub open spec fn effects_view(v: Seq<Effect>) -> Seq<EffectView> {
    v.map_values(|e: Effect| e@)
}

/// `d` right-aligned in a field six characters wide, as `{:>6}` writes it.
pub open spec fn pad6(d: Seq<char>) -> Seq<char> {
    if d.len() < 6 {
        Seq::new((6 - d.len()) as nat, |i: int| ' ') + d
    } else {
        d
    }
}

/// One line of a listing: the 1-based number right-aligned in six columns, two
/// spaces, the content.
pub open spec fn listing_line(i: nat, text: Seq<char>) -> Seq<char> {
    pad6(decimal(i + 1)) + "  "@ + text
}

/// What `l` prints for lines `text`.
pub open spec fn listing(text: Seq<Seq<char>>) -> Seq<EffectView> {
    if text.len() == 0 {
        seq![EffectView::Print("(empty)"@)]
    } else {
        Seq::new(text.len(), |i: int| EffectView::Print(listing_line(i as nat, text[i])))
    }
}

/// The complaint when a buffer's pool cannot take another distinct line.
pub open spec fn pool_full_text(cmd: Seq<char>) -> Seq<char> {
    "edlin: "@ + cmd + ": the line pool is full"@
}

/// The start of the complaint about a failed replacement of 0-based line `i`.
pub open spec fn replace_failure_prefix(i: nat, count: nat) -> Seq<char> {
    "edlin: r: line "@ + decimal(i + 1) + " out of range (line_count = "@ + decimal(count)
        + "): "@
}

/// What a command does: `old` and `new` are the buffer's state before and
/// after, `out` the effects, `validator` the buffer's validator, which
/// decides whether an insert or a replacement is made.
pub open spec fn outcome(
    old: crate::branch::BranchState,
    cmd: CommandView,
    new: crate::branch::BranchState,
    out: Seq<EffectView>,
    validator: Option<std::sync::Arc<dyn crate::encoding::EncodingValidator>>,
) -> bool {
    let n = old.ids.len();
    match cmd {
        CommandView::Quit => new == old && out == seq![EffectView::Quit],
        CommandView::Help => new == old && out == seq![EffectView::Print(help_text())],
        CommandView::List => new == old && out == listing(old.text()),
        CommandView::Print(i) => new == old && (i < n ==> out == seq![
            EffectView::Print(old.text()[i as int]),
        ]) && (i >= n ==> out == seq![
            EffectView::Warn("edlin: p: line "@ + decimal(i + 1) + " out of range"@),
        ]),
        CommandView::Insert(i, t) => {
            let j = if i < n {
                i
            } else {
                n
            };
            if old.pool.len() >= u32::MAX {
                new == old && out == seq![EffectView::Warn(pool_full_text("i"@))]
            } else {
                &&& (out.len() == 0 <==> crate::encoding::accepted_by_shared(validator, t))
                &&& {
                    ||| (out.len() == 0 && inserted(old, j as int, t, new) && new.text()
                        == old.text().insert(j as int, t))
                    ||| (new == old && out == seq![
                        EffectView::Warn(
                            "edlin: i: "@ + error_report(
                                t,
                                crate::encoding::rejection_by_shared(validator, t),
                            ),
                        ),
                    ])
                }
            }
        },
        CommandView::Replace(i, t) => {
            if i >= n {
                new == old && out == seq![
                    EffectView::Warn(
                        replace_failure_prefix(i, n) + error_report(
                            t,
                            index_error_text("replace_line"@, i, n),
                        ),
                    ),
                ]
            } else if old.pool.len() >= u32::MAX {
                new == old && out == seq![EffectView::Warn(pool_full_text("r"@))]
            } else {
                &&& (out.len() == 0 <==> crate::encoding::accepted_by_shared(validator, t))
                &&& {
                    ||| (out.len() == 0 && replaced(old, i as int, t, new) && new.text()
                        == old.text().update(i as int, t))
                    ||| (new == old && out == seq![
                        EffectView::Warn(
                            replace_failure_prefix(i, n) + error_report(
                                t,
                                crate::encoding::rejection_by_shared(validator, t),
                            ),
                        ),
                    ])
                }
            }
        },
        CommandView::Delete(i) => if i < n {
            out.len() == 0 && new == old.after_edit(
                old.pool,
                BranchEdit::Delete { at: i as usize, id: old.ids[i as int] },
            ) && new.text() == old.text().remove(i as int)
        } else {
            new == old && out == seq![
                EffectView::Warn("edlin: d: line "@ + decimal(i + 1) + " out of range"@),
            ]
        },
        CommandView::Undo => if old.undo.len() > 0 {
            out.len() == 0 && new == old.after_undo()
        } else {
            new == old && out == seq![EffectView::Warn("edlin: nothing to undo"@)]
        },
        CommandView::Redo => if old.redo.len() > 0 {
            out.len() == 0 && new == old.after_redo()
        } else {
            new == old && out == seq![EffectView::Warn("edlin: nothing to redo"@)]
        },
        CommandView::Save(p) => new == old && out == seq![EffectView::Save(p)],
        CommandView::Blank => new == old && out.len() == 0,
        CommandView::Invalid(m) => new == old && out == seq![EffectView::Warn(m)],
    }
}

/// Appends `n` right-aligned in six columns.
fn push_padded(s: &mut String, n: u128)
    ensures
        final(s)@ == old(s)@ + pad6(decimal(n as nat)),
{
    let mut d = String::new();
    push_decimal(&mut d, n);
    let width = d.as_str().unicode_len();
    let ghost start = s@;
    if width < 6 {
        let pad = 6 - width;
        let mut k: usize = 0;
        while k < pad
            invariant
                k <= pad,
                s@ == start + Seq::new(k as nat, |i: int| ' '),
            decreases pad - k,
        {
            s.push(' ');
            k = k + 1;
            proof {
                assert(s@ =~= start + Seq::new(k as nat, |i: int| ' '));
            }
        }
    }
    s.append(d.as_str());
    proof {
        if width < 6 {
            assert(s@ =~= start + pad6(d@));
        } else {
            assert(s@ =~= start + pad6(d@));
        }
    }
}

/// A message made of a prefix and an error report.
fn report_with(prefix: String, e: &crate::encoding::EncodingError) -> (r: String)
    ensures
        r@ == prefix@ + error_report(e.line@, e.description@),
{
    let mut m = prefix;
    let rep = e.to_string();
    m.append(rep.as_str());
    m
}

/// Carries out `l`.
fn run_list(buf: &LineBuffer) -> (r: Vec<Effect>)
    requires
        buf.wf(),
    ensures
        outcome(buf@, CommandView::List, buf@, effects_view(r@), buf.validator()),
{
    let count = buf.line_count();
    if count == 0 {
        let r = vec![Effect::Print("(empty)".to_string())];
        assert(effects_view(r@) =~= seq![EffectView::Print("(empty)"@)]);
        return r;
    }
    let mut out: Vec<Effect> = Vec::new();
    let mut i: usize = 0;
    while i < count
        invariant
            buf.wf(),
            count == buf@.text().len(),
            count > 0,
            i <= count,
            effects_view(out@) =~= listing(buf@.text()).take(i as int),
        decreases count - i,
    {
        let mut line = String::new();
        push_padded(&mut line, i as u128 + 1);
        line.append("  ");
        let content = match buf.get_line(i) {
            Some(l) => l,
            None => String::new(),
        };
        line.append(content.as_str());
        proof {
            assert(line@ =~= listing_line(i as nat, buf@.text()[i as int]));
        }
        let ghost lv = line@;
        let ghost prev = out@;
        out.push(Effect::Print(line));
        proof {
            assert(effects_view(out@) =~= effects_view(prev).push(EffectView::Print(lv)));
            assert(listing(buf@.text()).take(i + 1) =~= listing(buf@.text()).take(
                i as int,
            ).push(EffectView::Print(lv)));
        }
        i = i + 1;
    }
    proof {
        assert(listing(buf@.text()).take(count as int) =~= listing(buf@.text()));
    }
    out
}

/// Carries out `p`.
fn run_print(buf: &LineBuffer, index: usize) -> (r: Vec<Effect>)
    requires
        buf.wf(),
    ensures
        outcome(buf@, CommandView::Print(index as nat), buf@, effects_view(r@), buf.validator()),
{
    match buf.get_line(index) {
        Some(l) => {
            let r = vec![Effect::Print(l)];
            assert(effects_view(r@) =~= seq![EffectView::Print(buf@.text()[index as int])]);
            r
        },
        None => {
            let mut m = "edlin: p: line ".to_string();
            push_decimal(&mut m, index as u128 + 1);
            m.append(" out of range");
            let r = vec![Effect::Warn(m)];
            assert(effects_view(r@) =~= seq![
                EffectView::Warn("edlin: p: line "@ + decimal((index + 1) as nat) + " out of range"@),
            ]);
            r
        },
    }
}

/// Carries out `i`.
fn run_insert(buf: &mut LineBuffer, index: usize, text: String) -> (r: Vec<Effect>)
    requires
        old(buf).wf(),
    ensures
        final(buf).wf(),
        final(buf).validator() == old(buf).validator(),
        outcome(old(buf)@, CommandView::Insert(index as nat, text@), final(buf)@, effects_view(r@), old(buf).validator()),
{
    let count = buf.line_count();
    let at = if index < count {
        index
    } else {
        count
    };
    if buf.pool_len() >= 4294967295 {
        let mut m = "edlin: ".to_string();
        m.append("i");
        m.append(": the line pool is full");
        let r = vec![Effect::Warn(m)];
        assert(effects_view(r@) =~= seq![EffectView::Warn(pool_full_text("i"@))]);
        return r;
    }
    match buf.insert_line(at, text.as_str()) {
        Ok(()) => {
            let r: Vec<Effect> = Vec::new();
            assert(effects_view(r@) =~= Seq::<EffectView>::empty());
            r
        },
        Err(e) => {
            let m = report_with("edlin: i: ".to_string(), &e);
            let r = vec![Effect::Warn(m)];
            assert(effects_view(r@) =~= seq![
                EffectView::Warn("edlin: i: "@ + error_report(text@, e.description@)),
            ]);
            r
        },
    }
}

/// Carries out `r`.
fn run_replace(buf: &mut LineBuffer, index: usize, text: String) -> (r: Vec<Effect>)
    requires
        old(buf).wf(),
    ensures
        final(buf).wf(),
        final(buf).validator() == old(buf).validator(),
        outcome(old(buf)@, CommandView::Replace(index as nat, text@), final(buf)@, effects_view(r@), old(buf).validator()),
{
    let count = buf.line_count();
    if index >= count || buf.pool_len() < 4294967295 {
        let res = if index >= count {
            Err(crate::branch::index_error("replace_line", index, count, text.as_str()))
        } else {
            buf.replace_line(index, text.as_str())
        };
        match res {
            Ok(()) => {
                let r: Vec<Effect> = Vec::new();
                assert(effects_view(r@) =~= Seq::<EffectView>::empty());
                r
            },
            Err(e) => {
                let mut p = "edlin: r: line ".to_string();
                push_decimal(&mut p, index as u128 + 1);
                p.append(" out of range (line_count = ");
                push_decimal(&mut p, count as u128);
                p.append("): ");
                let m = report_with(p, &e);
                let r = vec![Effect::Warn(m)];
                assert(effects_view(r@) =~= seq![
                    EffectView::Warn(
                        replace_failure_prefix(index as nat, count as nat) + error_report(
                            text@,
                            e.description@,
                        ),
                    ),
                ]);
                r
            },
        }
    } else {
        let mut m = "edlin: ".to_string();
        m.append("r");
        m.append(": the line pool is full");
        let r = vec![Effect::Warn(m)];
        assert(effects_view(r@) =~= seq![EffectView::Warn(pool_full_text("r"@))]);
        r
    }
}

/// Carries out `d`.
fn run_delete(buf: &mut LineBuffer, index: usize) -> (r: Vec<Effect>)
    requires
        old(buf).wf(),
    ensures
        final(buf).wf(),
        final(buf).validator() == old(buf).validator(),
        outcome(old(buf)@, CommandView::Delete(index as nat), final(buf)@, effects_view(r@), old(buf).validator()),
{
    if buf.delete_line(index) {
        let r: Vec<Effect> = Vec::new();
        assert(effects_view(r@) =~= Seq::<EffectView>::empty());
        r
    } else {
        let mut m = "edlin: d: line ".to_string();
        push_decimal(&mut m, index as u128 + 1);
        m.append(" out of range");
        let r = vec![Effect::Warn(m)];
        assert(effects_view(r@) =~= seq![
            EffectView::Warn("edlin: d: line "@ + decimal((index + 1) as nat) + " out of range"@),
        ]);
        r
    }
}

/// Carries out `u`.
fn run_undo(buf: &mut LineBuffer) -> (r: Vec<Effect>)
    requires
        old(buf).wf(),
    ensures
        final(buf).wf(),
        final(buf).validator() == old(buf).validator(),
        outcome(old(buf)@, CommandView::Undo, final(buf)@, effects_view(r@), old(buf).validator()),
{
    if buf.undo() {
        let r: Vec<Effect> = Vec::new();
        assert(effects_view(r@) =~= Seq::<EffectView>::empty());
        r
    } else {
        let r = vec![Effect::Warn("edlin: nothing to undo".to_string())];
        assert(effects_view(r@) =~= seq![EffectView::Warn("edlin: nothing to undo"@)]);
        r
    }
}

/// Carries out `e`.
fn run_redo(buf: &mut LineBuffer) -> (r: Vec<Effect>)
    requires
        old(buf).wf(),
    ensures
        final(buf).wf(),
        final(buf).validator() == old(buf).validator(),
        outcome(old(buf)@, CommandView::Redo, final(buf)@, effects_view(r@), old(buf).validator()),
{
    if buf.redo() {
        let r: Vec<Effect> = Vec::new();
        assert(effects_view(r@) =~= Seq::<EffectView>::empty());
        r
    } else {
        let r = vec![Effect::Warn("edlin: nothing to redo".to_string())];
        assert(effects_view(r@) =~= seq![EffectView::Warn("edlin: nothing to redo"@)]);
        r
    }
}

/// The complaint when a save has no path to write to.
pub open spec fn no_output_path_text() -> Seq<char> {
    "edlin: s: no output path (use --file, --output, or s <path>)"@
}

/// Where a save writes: the path the command names, or else the default
/// output path; with neither, the complaint that there is none.
pub fn save_target<P>(requested: Option<P>, default_output: Option<P>) -> (r: Result<P, String>)
    ensures
        requested is Some ==> r == Ok::<P, String>(requested->0),
        requested is None && default_output is Some ==> r == Ok::<P, String>(default_output->0),
        requested is None && default_output is None ==> (r matches Err(m) && m@
            == no_output_path_text()),
{
    match requested {
        Some(p) => Ok(p),
        None => match default_output {
            Some(d) => Ok(d),
            None => {
                proof {
                    reveal_strlit("edlin: s: no output path (use --file, --output, or s <path>)");
                }
                Err("edlin: s: no output path (use --file, --output, or s <path>)".to_string())
            },
        },
    }
}

/// Carries out `cmd` on `buf` and returns what the program around it should do
/// next, in order.
pub fn execute(buf: &mut LineBuffer, cmd: Command) -> (r: Vec<Effect>)
    requires
        old(buf).wf(),
    ensures
        final(buf).wf(),
        final(buf).validator() == old(buf).validator(),
        outcome(old(buf)@, cmd@, final(buf)@, effects_view(r@), old(buf).validator()),
{
    match cmd {
        Command::Quit => {
            let r = vec![Effect::Quit];
            assert(effects_view(r@) =~= seq![EffectView::Quit]);
            r
        },
        Command::Help => {
            let r = vec![Effect::Print(help().to_string())];
            assert(effects_view(r@) =~= seq![EffectView::Print(help_text())]);
            r
        },
        Command::List => run_list(buf),
        Command::Print { index } => run_print(buf, index),
        Command::Insert { index, text } => run_insert(buf, index, text),
        Command::Replace { index, text } => run_replace(buf, index, text),
        Command::Delete { index } => run_delete(buf, index),
        Command::Undo => run_undo(buf),
        Command::Redo => run_redo(buf),
        Command::Save { path } => {
            let r = vec![Effect::Save(path)];
            assert(effects_view(r@) =~= seq![r@[0]@]);
            r
        },
        Command::Blank => {
            let r: Vec<Effect> = Vec::new();
            assert(effects_view(r@) =~= Seq::<EffectView>::empty());
            r
        },
        Command::Invalid { message } => {
            let r = vec![Effect::Warn(message)];
            assert(effects_view(r@) =~= seq![r@[0]@]);
            r
        },
    }
}

} // verus!
