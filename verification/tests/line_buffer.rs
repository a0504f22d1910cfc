use std::cell::Cell;
use std::io;
use std::sync::Arc;

use mallard::{AsciiValidator, EncodingValidator, LineBuffer, LineSource, Utf8Validator};

fn buf() -> LineBuffer {
    LineBuffer::new(None)
}

fn ascii_buf() -> LineBuffer {
    LineBuffer::new(Some(Arc::new(AsciiValidator)))
}

fn write_to_vec(lb: &LineBuffer, line_ending: &str) -> Vec<u8> {
    let mut out = Vec::new();
    lb.write_lines(&mut out, line_ending).unwrap();
    out
}

struct MockSource {
    lines: Vec<String>,
    hint: Option<usize>,
    hint_calls: Cell<usize>,
    each_calls: Cell<usize>,
}

impl MockSource {
    fn new(lines: &[&str], hint: Option<usize>) -> MockSource {
        MockSource {
            lines: lines.iter().map(|s| s.to_string()).collect(),
            hint,
            hint_calls: Cell::new(0),
            each_calls: Cell::new(0),
        }
    }
}

impl LineSource for MockSource {
    // The lines this mock supplies are not modelled for the verifier, which
    // never reads this impl; this method is never evaluated at run time.
    fn yields(&self, _lines: vstd::seq::Seq<vstd::seq::Seq<char>>) -> bool {
        panic!("only read by the verifier")
    }

    fn line_count_hint(&self) -> Option<usize> {
        self.hint_calls.set(self.hint_calls.get() + 1);
        self.hint
    }

    fn for_each_line(&self, sink: &mut Vec<String>) {
        self.each_calls.set(self.each_calls.get() + 1);
        for line in &self.lines {
            sink.push(line.clone());
        }
    }
}

#[test]
fn empty_buffer_has_line_count_zero() {
    assert_eq!(buf().line_count(), 0);
}

#[test]
fn empty_buffer_get_line_returns_none() {
    assert!(buf().get_line(0).is_none());
}

#[test]
fn insert_and_retrieve_single_line() {
    let mut lb = buf();
    lb.insert_line(0, "hello").unwrap();
    assert_eq!(lb.line_count(), 1);
    assert_eq!(lb.get_line(0).as_deref(), Some("hello"));
}

#[test]
fn insert_multiple_lines_roundtrip() {
    let mut lb = buf();
    let lines = ["alpha", "beta", "gamma", "delta", "epsilon"];
    for (i, &s) in lines.iter().enumerate() {
        lb.insert_line(i, s).unwrap();
    }
    assert_eq!(lb.line_count(), lines.len());
    for (i, &expected) in lines.iter().enumerate() {
        assert_eq!(lb.get_line(i).as_deref(), Some(expected));
    }
}

#[test]
fn insert_at_beginning_shifts_lines() {
    let mut lb = buf();
    lb.insert_line(0, "second").unwrap();
    lb.insert_line(0, "first").unwrap();
    assert_eq!(lb.get_line(0).as_deref(), Some("first"));
    assert_eq!(lb.get_line(1).as_deref(), Some("second"));
}

#[test]
fn insert_append_at_line_count_appends() {
    let mut lb = buf();
    lb.insert_line(0, "a").unwrap();
    lb.insert_line(lb.line_count(), "b").unwrap();
    assert_eq!(lb.get_line(1).as_deref(), Some("b"));
}

#[test]
fn replace_line_changes_content() {
    let mut lb = buf();
    lb.insert_line(0, "original").unwrap();
    lb.replace_line(0, "updated").unwrap();
    assert_eq!(lb.get_line(0).as_deref(), Some("updated"));
}

#[test]
fn delete_line_removes_it() {
    let mut lb = buf();
    lb.insert_line(0, "keep").unwrap();
    lb.insert_line(1, "remove").unwrap();
    lb.delete_line(1);
    assert_eq!(lb.line_count(), 1);
    assert_eq!(lb.get_line(0).as_deref(), Some("keep"));
}

#[test]
fn line_buffer_get_line_out_of_bounds_returns_none() {
    let mut lb = buf();
    lb.insert_line(0, "only").unwrap();
    assert!(lb.get_line(1).is_none());
    assert!(lb.get_line(100).is_none());
}

#[test]
fn validator_rejects_non_ascii_insert() {
    let mut lb = ascii_buf();
    let result = lb.insert_line(0, "café");
    assert!(result.is_err());
}

#[test]
fn validator_rejects_non_ascii_replace() {
    let mut lb = ascii_buf();
    lb.insert_line(0, "ok").unwrap();
    let result = lb.replace_line(0, "日本語");
    assert!(result.is_err());
}

#[test]
fn validator_accepts_ascii_content() {
    let mut lb = ascii_buf();
    lb.insert_line(0, "plain ascii").unwrap();
    assert_eq!(lb.get_line(0).as_deref(), Some("plain ascii"));
}

#[test]
fn validator_utf8_accepts_unicode() {
    let mut lb = LineBuffer::new(Some(Arc::new(Utf8Validator)));
    lb.insert_line(0, "日本語").unwrap();
    assert_eq!(lb.get_line(0).as_deref(), Some("日本語"));
}

#[test]
fn buffer_unchanged_after_insert_rejection() {
    let mut lb = ascii_buf();
    lb.insert_line(0, "good").unwrap();
    let _ = lb.insert_line(1, "bäd");
    assert_eq!(lb.line_count(), 1);
    assert_eq!(lb.get_line(0).as_deref(), Some("good"));
}

#[test]
fn buffer_unchanged_after_replace_rejection() {
    let mut lb = ascii_buf();
    lb.insert_line(0, "original").unwrap();
    let _ = lb.replace_line(0, "ñoño");
    assert_eq!(lb.get_line(0).as_deref(), Some("original"));
}

#[test]
fn branch_from_buffer_is_edit_independent() {
    let mut lb = buf();
    lb.insert_line(0, "line1").unwrap();
    let mut br = lb.branch();
    br.insert_line(1, "branch-only", None).unwrap();
    // Buffer unchanged
    assert_eq!(lb.line_count(), 1);
    // Branch has extra line
    assert_eq!(br.line_count(), 2);
}

#[test]
fn edit_to_buffer_does_not_affect_branch() {
    let mut lb = buf();
    lb.insert_line(0, "shared").unwrap();
    let br = lb.branch();
    lb.insert_line(1, "buffer-only").unwrap();
    assert_eq!(br.line_count(), 1);
    assert_eq!(lb.line_count(), 2);
}

#[test]
fn line_buffer_undo_after_insert_removes_line() {
    let mut lb = buf();
    lb.insert_line(0, "a").unwrap();
    lb.insert_line(1, "b").unwrap();
    lb.undo();
    assert_eq!(lb.line_count(), 1);
    assert_eq!(lb.get_line(0).as_deref(), Some("a"));
}

#[test]
fn redo_after_undo_replays_edit() {
    let mut lb = buf();
    lb.insert_line(0, "a").unwrap();
    lb.insert_line(1, "b").unwrap();
    lb.undo();
    lb.redo();
    assert_eq!(lb.line_count(), 2);
    assert_eq!(lb.get_line(1).as_deref(), Some("b"));
}

#[test]
fn undo_on_empty_buffer_returns_false() {
    let mut lb = buf();
    assert!(!lb.undo());
}

#[test]
fn redo_on_fresh_buffer_returns_false() {
    let mut lb = buf();
    assert!(!lb.redo());
}

#[test]
fn undo_after_replace_restores_original() {
    let mut lb = buf();
    lb.insert_line(0, "original").unwrap();
    lb.replace_line(0, "updated").unwrap();
    lb.undo();
    assert_eq!(lb.get_line(0).as_deref(), Some("original"));
}

#[test]
fn multi_step_undo_redo_sequence() {
    let mut lb = buf();
    for i in 0..10 {
        lb.insert_line(i, &format!("line{}", i)).unwrap();
    }
    assert_eq!(lb.line_count(), 10);
    for _ in 0..5 {
        lb.undo();
    }
    assert_eq!(lb.line_count(), 5);
    for _ in 0..3 {
        lb.redo();
    }
    assert_eq!(lb.line_count(), 8);
}

#[test]
fn iter_lines_empty_buffer_yields_nothing() {
    let lb = buf();
    assert_eq!(lb.iter_lines().count(), 0);
}

#[test]
fn iter_lines_returns_lines_in_order() {
    let mut lb = buf();
    let lines = ["first", "second", "third", "fourth", "fifth"];
    for (i, &s) in lines.iter().enumerate() {
        lb.insert_line(i, s).unwrap();
    }
    let collected: Vec<String> = lb.iter_lines().collect();
    for (i, &expected) in lines.iter().enumerate() {
        assert_eq!(&*collected[i], expected);
    }
}

#[test]
fn iter_lines_matches_get_line() {
    let mut lb = buf();
    let lines = ["alpha", "beta", "gamma"];
    for (i, &s) in lines.iter().enumerate() {
        lb.insert_line(i, s).unwrap();
    }
    let iter_collected: Vec<String> = lb.iter_lines().map(|s| s.to_string()).collect();
    let get_collected: Vec<String> = (0..lb.line_count())
        .map(|i| lb.get_line(i).unwrap().to_string())
        .collect();
    assert_eq!(iter_collected, get_collected);
}

#[test]
fn write_lines_empty_buffer_produces_empty_output() {
    let lb = buf();
    let out = write_to_vec(&lb, "\n");
    assert!(out.is_empty());
}

#[test]
fn write_lines_single_line_no_trailing_newline() {
    let mut lb = buf();
    lb.insert_line(0, "only line").unwrap();
    let out = write_to_vec(&lb, "\n");
    assert_eq!(out, b"only line");
}

#[test]
fn write_lines_with_lf() {
    let mut lb = buf();
    lb.insert_line(0, "alpha").unwrap();
    lb.insert_line(1, "beta").unwrap();
    lb.insert_line(2, "gamma").unwrap();
    let out = write_to_vec(&lb, "\n");
    assert_eq!(out, b"alpha\nbeta\ngamma");
}

#[test]
fn write_lines_with_crlf() {
    let mut lb = buf();
    lb.insert_line(0, "alpha").unwrap();
    lb.insert_line(1, "beta").unwrap();
    lb.insert_line(2, "gamma").unwrap();
    let out = write_to_vec(&lb, "\r\n");
    assert_eq!(out, b"alpha\r\nbeta\r\ngamma");
}

#[test]
fn write_lines_with_cr() {
    let mut lb = buf();
    lb.insert_line(0, "alpha").unwrap();
    lb.insert_line(1, "beta").unwrap();
    lb.insert_line(2, "gamma").unwrap();
    let out = write_to_vec(&lb, "\r");
    assert_eq!(out, b"alpha\rbeta\rgamma");
}

#[test]
fn write_lines_two_lines_no_trailing_separator() {
    let mut lb = buf();
    lb.insert_line(0, "line1").unwrap();
    lb.insert_line(1, "line2").unwrap();
    let out = write_to_vec(&lb, "\n");
    assert_eq!(out, b"line1\nline2");
}

#[test]
fn write_lines_unicode_content_utf8() {
    let mut lb = buf();
    lb.insert_line(0, "日本語").unwrap();
    lb.insert_line(1, "emoji 🦆").unwrap();
    let out = write_to_vec(&lb, "\n");
    assert_eq!(out, "日本語\nemoji 🦆".as_bytes());
}

#[test]
fn write_lines_empty_string_lines() {
    let mut lb = buf();
    lb.insert_line(0, "").unwrap();
    lb.insert_line(1, "").unwrap();
    lb.insert_line(2, "").unwrap();
    let out = write_to_vec(&lb, "\n");
    assert_eq!(out, b"\n\n");
}

#[test]
fn line_buffer_delete_out_of_bounds_returns_false() {
    let mut lb = buf();
    lb.insert_line(0, "line").unwrap();
    assert!(!lb.delete_line(5));
    assert_eq!(lb.line_count(), 1);
}

#[test]
fn replace_out_of_bounds_returns_error() {
    let mut lb = buf();
    assert!(lb.replace_line(0, "content").is_err());
}

#[test]
fn ten_normal_insert_retrieve_pairs() {
    let mut lb = buf();
    let data = [
        "apple",
        "banana",
        "cherry",
        "date",
        "elderberry",
        "fig",
        "grape",
        "honeydew",
        "kiwi",
        "lemon",
    ];
    for (i, &s) in data.iter().enumerate() {
        lb.insert_line(i, s).unwrap();
    }
    assert_eq!(lb.line_count(), 10);
    for (i, &expected) in data.iter().enumerate() {
        assert_eq!(lb.get_line(i).as_deref(), Some(expected));
    }
}

#[test]
fn from_str_empty_string_gives_zero_lines() {
    let lb = LineBuffer::from_str("", None).unwrap();
    assert_eq!(lb.line_count(), 0);
}

#[test]
fn from_str_single_line_no_newline() {
    let lb = LineBuffer::from_str("hello", None).unwrap();
    assert_eq!(lb.line_count(), 1);
    assert_eq!(lb.get_line(0).as_deref(), Some("hello"));
}

#[test]
fn from_str_trailing_lf_not_spurious() {
    let lb = LineBuffer::from_str("hello\n", None).unwrap();
    assert_eq!(lb.line_count(), 1);
    assert_eq!(lb.get_line(0).as_deref(), Some("hello"));
}

#[test]
fn from_str_trailing_crlf_not_spurious() {
    let lb = LineBuffer::from_str("hello\r\n", None).unwrap();
    assert_eq!(lb.line_count(), 1);
    assert_eq!(lb.get_line(0).as_deref(), Some("hello"));
}

#[test]
fn from_str_trailing_cr_not_spurious() {
    let lb = LineBuffer::from_str("hello\r", None).unwrap();
    assert_eq!(lb.line_count(), 1);
    assert_eq!(lb.get_line(0).as_deref(), Some("hello"));
}

#[test]
fn from_str_two_lines_lf() {
    let lb = LineBuffer::from_str("alpha\nbeta", None).unwrap();
    assert_eq!(lb.line_count(), 2);
    assert_eq!(lb.get_line(0).as_deref(), Some("alpha"));
    assert_eq!(lb.get_line(1).as_deref(), Some("beta"));
}

#[test]
fn from_str_two_lines_crlf() {
    let lb = LineBuffer::from_str("alpha\r\nbeta", None).unwrap();
    assert_eq!(lb.line_count(), 2);
    assert_eq!(lb.get_line(0).as_deref(), Some("alpha"));
    assert_eq!(lb.get_line(1).as_deref(), Some("beta"));
}

#[test]
fn from_str_two_lines_bare_cr() {
    let lb = LineBuffer::from_str("alpha\rbeta", None).unwrap();
    assert_eq!(lb.line_count(), 2);
    assert_eq!(lb.get_line(0).as_deref(), Some("alpha"));
    assert_eq!(lb.get_line(1).as_deref(), Some("beta"));
}

#[test]
fn from_str_mixed_endings() {
    let lb = LineBuffer::from_str("a\nb\r\nc\rd", None).unwrap();
    assert_eq!(lb.line_count(), 4);
    assert_eq!(lb.get_line(0).as_deref(), Some("a"));
    assert_eq!(lb.get_line(1).as_deref(), Some("b"));
    assert_eq!(lb.get_line(2).as_deref(), Some("c"));
    assert_eq!(lb.get_line(3).as_deref(), Some("d"));
}

#[test]
fn from_str_unicode_content() {
    let lb = LineBuffer::from_str("日本語\n🦆 emoji", None).unwrap();
    assert_eq!(lb.line_count(), 2);
    assert_eq!(lb.get_line(0).as_deref(), Some("日本語"));
    assert_eq!(lb.get_line(1).as_deref(), Some("🦆 emoji"));
}

#[test]
fn from_str_empty_line_in_middle() {
    let lb = LineBuffer::from_str("a\n\nb", None).unwrap();
    assert_eq!(lb.line_count(), 3);
    assert_eq!(lb.get_line(0).as_deref(), Some("a"));
    assert_eq!(lb.get_line(1).as_deref(), Some(""));
    assert_eq!(lb.get_line(2).as_deref(), Some("b"));
}

#[test]
fn from_str_only_lf_is_one_empty_line() {
    let lb = LineBuffer::from_str("\n", None).unwrap();
    assert_eq!(lb.line_count(), 1);
    assert_eq!(lb.get_line(0).as_deref(), Some(""));
}

#[test]
fn from_str_two_consecutive_lf_no_content() {
    // "\n\n" = each \n terminates one empty line; trailing suppression only
    // applies to the empty tail *after* the last terminator, not to
    // intermediate empty lines.  Consistent with write_lines: 3 empty lines
    // round-trip as "\n\n".
    let lb = LineBuffer::from_str("\n\n", None).unwrap();
    assert_eq!(lb.line_count(), 2);
    assert_eq!(lb.get_line(0).as_deref(), Some(""));
    assert_eq!(lb.get_line(1).as_deref(), Some(""));
}

#[test]
fn from_str_ten_lines_roundtrip() {
    let input = "one\ntwo\nthree\nfour\nfive\nsix\nseven\neight\nnine\nten";
    let lb = LineBuffer::from_str(input, None).unwrap();
    assert_eq!(lb.line_count(), 10);
    let expected = [
        "one", "two", "three", "four", "five", "six", "seven", "eight", "nine", "ten",
    ];
    for (i, &e) in expected.iter().enumerate() {
        assert_eq!(lb.get_line(i).as_deref(), Some(e));
    }
}

#[test]
fn from_str_validator_accepts_ascii() {
    let v: Option<Arc<dyn EncodingValidator>> = Some(Arc::new(AsciiValidator));
    let lb = LineBuffer::from_str("hello\nworld", v).unwrap();
    assert_eq!(lb.line_count(), 2);
}

#[test]
fn from_str_validator_rejects_first_line() {
    let v: Option<Arc<dyn EncodingValidator>> = Some(Arc::new(AsciiValidator));
    let result = LineBuffer::from_str("café\nworld", v);
    assert!(result.is_err());
}

#[test]
fn from_str_validator_rejects_second_line() {
    let v: Option<Arc<dyn EncodingValidator>> = Some(Arc::new(AsciiValidator));
    let result = LineBuffer::from_str("ok\ncafé", v);
    assert!(result.is_err());
}

#[test]
fn from_str_no_validator_accepts_any_utf8() {
    let lb = LineBuffer::from_str("αβγ\n中文\n🎵", None).unwrap();
    assert_eq!(lb.line_count(), 3);
}

#[test]
fn from_str_content_survives_roundtrip_via_write_lines() {
    let input = "line1\nline2\nline3\n";
    let lb = LineBuffer::from_str(input, None).unwrap();
    let out = write_to_vec(&lb, "\n");
    assert_eq!(out, b"line1\nline2\nline3");
}

#[test]
fn from_reader_empty_reader_gives_zero_lines() {
    let lb = LineBuffer::from_reader(std::io::Cursor::new(b"" as &[u8]), None).unwrap();
    assert_eq!(lb.line_count(), 0);
}

#[test]
fn from_reader_single_line_no_newline() {
    let lb = LineBuffer::from_reader(std::io::Cursor::new(b"hello" as &[u8]), None).unwrap();
    assert_eq!(lb.line_count(), 1);
    assert_eq!(lb.get_line(0).as_deref(), Some("hello"));
}

#[test]
fn from_reader_lf_separated_lines() {
    let lb = LineBuffer::from_reader(std::io::Cursor::new(b"a\nb\nc" as &[u8]), None).unwrap();
    assert_eq!(lb.line_count(), 3);
    assert_eq!(lb.get_line(0).as_deref(), Some("a"));
    assert_eq!(lb.get_line(2).as_deref(), Some("c"));
}

#[test]
fn from_reader_crlf_separated_lines() {
    let lb = LineBuffer::from_reader(std::io::Cursor::new(b"x\r\ny" as &[u8]), None).unwrap();
    assert_eq!(lb.line_count(), 2);
    assert_eq!(lb.get_line(0).as_deref(), Some("x"));
    assert_eq!(lb.get_line(1).as_deref(), Some("y"));
}

#[test]
fn from_reader_bare_cr_separated_lines() {
    let lb = LineBuffer::from_reader(std::io::Cursor::new(b"p\rq" as &[u8]), None).unwrap();
    assert_eq!(lb.line_count(), 2);
    assert_eq!(lb.get_line(0).as_deref(), Some("p"));
    assert_eq!(lb.get_line(1).as_deref(), Some("q"));
}

#[test]
fn from_reader_trailing_newline_not_spurious() {
    let lb = LineBuffer::from_reader(std::io::Cursor::new(b"done\n" as &[u8]), None).unwrap();
    assert_eq!(lb.line_count(), 1);
    assert_eq!(lb.get_line(0).as_deref(), Some("done"));
}

#[test]
fn from_reader_unicode_utf8_content() {
    let data = "日本語\n🦆".as_bytes();
    let lb = LineBuffer::from_reader(std::io::Cursor::new(data), None).unwrap();
    assert_eq!(lb.line_count(), 2);
    assert_eq!(lb.get_line(0).as_deref(), Some("日本語"));
    assert_eq!(lb.get_line(1).as_deref(), Some("🦆"));
}

#[test]
fn from_reader_invalid_utf8_yields_io_error() {
    let bad: &[u8] = &[0x80, 0x81, 0x82];
    let result = LineBuffer::from_reader(std::io::Cursor::new(bad), None);
    assert_eq!(result.err().unwrap().kind(), io::ErrorKind::InvalidData);
}

#[test]
fn from_reader_validator_rejection_yields_io_error() {
    let v: Option<Arc<dyn EncodingValidator>> = Some(Arc::new(AsciiValidator));
    let data = "good\ncafé\n".as_bytes();
    let result = LineBuffer::from_reader(std::io::Cursor::new(data), v);
    assert_eq!(result.err().unwrap().kind(), io::ErrorKind::InvalidData);
}

#[test]
fn from_reader_no_validator_accepts_unicode() {
    let data = "αβγ\n中文".as_bytes();
    let lb = LineBuffer::from_reader(std::io::Cursor::new(data), None).unwrap();
    assert_eq!(lb.line_count(), 2);
}

#[test]
fn from_reader_mixed_endings() {
    let data = b"a\nb\r\nc\rd" as &[u8];
    let lb = LineBuffer::from_reader(std::io::Cursor::new(data), None).unwrap();
    assert_eq!(lb.line_count(), 4);
    let collected: Vec<String> = lb.iter_lines().map(|s| s.to_string()).collect();
    assert_eq!(collected, vec!["a", "b", "c", "d"]);
}

#[test]
fn from_reader_ten_lines_roundtrip() {
    let input = b"one\ntwo\nthree\nfour\nfive\nsix\nseven\neight\nnine\nten" as &[u8];
    let lb = LineBuffer::from_reader(std::io::Cursor::new(input), None).unwrap();
    assert_eq!(lb.line_count(), 10);
    let expected = [
        "one", "two", "three", "four", "five", "six", "seven", "eight", "nine", "ten",
    ];
    for (i, &e) in expected.iter().enumerate() {
        assert_eq!(lb.get_line(i).as_deref(), Some(e));
    }
}

#[test]
fn from_reader_matches_from_str() {
    let s = "hello\nworld\nfoo\n";
    let via_str = LineBuffer::from_str(s, None).unwrap();
    let via_reader = LineBuffer::from_reader(std::io::Cursor::new(s.as_bytes()), None).unwrap();
    let str_lines: Vec<String> = via_str.iter_lines().map(|l| l.to_string()).collect();
    let reader_lines: Vec<String> = via_reader.iter_lines().map(|l| l.to_string()).collect();
    assert_eq!(str_lines, reader_lines);
}

#[test]
fn from_source_mock_empty_source_gives_zero_lines() {
    let src = MockSource::new(&[], None);
    let lb = LineBuffer::from_source(&src, None).unwrap();
    assert_eq!(lb.line_count(), 0);
}

#[test]
fn from_source_mock_single_line() {
    let src = MockSource::new(&["hello"], None);
    let lb = LineBuffer::from_source(&src, None).unwrap();
    assert_eq!(lb.line_count(), 1);
    assert_eq!(lb.get_line(0).as_deref(), Some("hello"));
}

#[test]
fn from_source_mock_five_lines() {
    let data = ["alpha", "beta", "gamma", "delta", "epsilon"];
    let src = MockSource::new(&data, Some(5));
    let lb = LineBuffer::from_source(&src, None).unwrap();
    assert_eq!(lb.line_count(), 5);
    for (i, &expected) in data.iter().enumerate() {
        assert_eq!(lb.get_line(i).as_deref(), Some(expected));
    }
}

#[test]
fn from_source_mock_ten_lines() {
    let data = ["1", "2", "3", "4", "5", "6", "7", "8", "9", "10"];
    let src = MockSource::new(&data, Some(10));
    let lb = LineBuffer::from_source(&src, None).unwrap();
    assert_eq!(lb.line_count(), 10);
    for (i, &e) in data.iter().enumerate() {
        assert_eq!(lb.get_line(i).as_deref(), Some(e));
    }
}

#[test]
fn from_source_mock_unicode_lines() {
    let data = ["日本語", "emoji 🦆", "中文"];
    let src = MockSource::new(&data, Some(3));
    let lb = LineBuffer::from_source(&src, None).unwrap();
    assert_eq!(lb.line_count(), 3);
    assert_eq!(lb.get_line(0).as_deref(), Some("日本語"));
    assert_eq!(lb.get_line(1).as_deref(), Some("emoji 🦆"));
    assert_eq!(lb.get_line(2).as_deref(), Some("中文"));
}

#[test]
fn from_source_mock_validator_accepts_all_ascii() {
    let data = ["one", "two", "three", "four", "five"];
    let src = MockSource::new(&data, Some(5));
    let v: Option<Arc<dyn EncodingValidator>> = Some(Arc::new(AsciiValidator));
    let lb = LineBuffer::from_source(&src, v).unwrap();
    assert_eq!(lb.line_count(), 5);
}

#[test]
fn from_source_validator_rejects_line_5_of_10() {
    // Lines 0-4 are ASCII; line 4 (index 4, the 5th) is non-ASCII.
    let data = ["a", "b", "c", "d", "café", "f", "g", "h", "i", "j"];
    let src = MockSource::new(&data, Some(10));
    let v: Option<Arc<dyn EncodingValidator>> = Some(Arc::new(AsciiValidator));
    let result = LineBuffer::from_source(&src, v);
    assert!(result.is_err());
    let err = result.err().unwrap();
    assert_eq!(&*err.line, "café");
}

#[test]
fn from_source_validator_rejects_first_line() {
    let data = ["ñoño", "fine"];
    let src = MockSource::new(&data, None);
    let v: Option<Arc<dyn EncodingValidator>> = Some(Arc::new(AsciiValidator));
    let result = LineBuffer::from_source(&src, v);
    assert!(result.is_err());
}

#[test]
fn from_source_validator_rejects_last_line() {
    let data = ["ok", "also ok", "ñoño"];
    let src = MockSource::new(&data, None);
    let v: Option<Arc<dyn EncodingValidator>> = Some(Arc::new(AsciiValidator));
    let result = LineBuffer::from_source(&src, v);
    assert!(result.is_err());
}

#[test]
fn from_source_line_count_hint_is_called() {
    let src = MockSource::new(&["a", "b", "c"], Some(3));
    let _ = LineBuffer::from_source(&src, None).unwrap();
    assert_eq!(
        src.hint_calls.get(),
        1,
        "line_count_hint must be called exactly once"
    );
}

#[test]
fn from_source_for_each_line_is_called() {
    let src = MockSource::new(&["x", "y"], None);
    let _ = LineBuffer::from_source(&src, None).unwrap();
    assert_eq!(
        src.each_calls.get(),
        1,
        "for_each_line must be called exactly once"
    );
}

#[test]
fn from_source_hint_none_still_works() {
    // No hint: capacity not pre-allocated, but should still work correctly.
    let data = ["p", "q", "r", "s", "t"];
    let src = MockSource::new(&data, None);
    let lb = LineBuffer::from_source(&src, None).unwrap();
    assert_eq!(lb.line_count(), 5);
}

#[test]
fn from_utf8_bytes_splits_decoded_text() {
    let lb = LineBuffer::from_utf8_bytes("a\r\nb\u{e9}\rc\n".as_bytes(), None).unwrap();
    assert_eq!(lb.lines_vec(), vec!["a".to_string(), "b\u{e9}".to_string(), "c".to_string()]);
}

#[test]
fn from_utf8_bytes_refuses_invalid_utf8() {
    let err = LineBuffer::from_utf8_bytes(b"ok\n\xff\xfe", None).err().unwrap();
    assert_eq!(err.kind(), std::io::ErrorKind::InvalidData);
}

#[test]
fn from_utf8_bytes_reports_validation_failure() {
    let err = LineBuffer::from_utf8_bytes("caf\u{e9}".as_bytes(), Some(Arc::new(AsciiValidator)))
        .err()
        .unwrap();
    assert_eq!(err.kind(), std::io::ErrorKind::InvalidData);
}

#[test]
fn from_source_huge_hint_does_not_change_the_outcome() {
    let src = MockSource::new(&["a", "b"], Some(usize::MAX));
    let lb = LineBuffer::from_source(&src, None).unwrap();
    assert_eq!(lb.lines_vec(), vec!["a".to_string(), "b".to_string()]);
}

#[test]
fn from_lines_stops_at_the_first_rejection() {
    let lines = vec!["ok".to_string(), "caf\u{e9}".to_string(), "\u{e9}".to_string()];
    let err = LineBuffer::from_lines(&lines, Some(Arc::new(AsciiValidator))).err().unwrap();
    assert_eq!(err.line, "caf\u{e9}");
}

#[test]
fn joining_split_text_gives_it_back() {
    let text = "a\n\nb c\nd";
    let lb = LineBuffer::from_str(text, None).unwrap();
    assert_eq!(lb.joined_text("\n"), text);
}

#[test]
fn joining_split_text_drops_only_a_final_lf() {
    let lb = LineBuffer::from_str("x\n\ny\n", None).unwrap();
    assert_eq!(lb.joined_text("\n"), "x\n\ny");
}
