use std::sync::Arc;

use ruinous::context::ErrorContext;
use ruinous::file_error::FileError;
use ruinous::span::{Location, Span};
use ruinous::writer::{ErrorProvider, ErrorWriter, PackagedError, PackagedErrorWriter};

fn range(line: usize, from: usize, to_line: usize, to: usize) -> Span<()> {
    Span::new(Location::new(line, from), Location::new(to_line, to), ())
}

#[test]
fn carets_sit_under_the_range() {
    let ctx = ErrorContext::with_str("ab=cd");
    let mut w = PackagedErrorWriter::new(&ctx);
    w.error(Some(range(0, 2, 0, 3)), "unexpected `=`");
    assert_eq!(w.into_text(), "error: 0:2: unexpected `=`\n\n\t> ab=cd\n\t>   ^\n\n");
}

#[test]
fn unspanned_error_has_no_quote() {
    let ctx = ErrorContext::with_str("x");
    let mut w = PackagedErrorWriter::new(&ctx);
    w.error(None, "out of memory");
    assert_eq!(w.into_text(), "error: out of memory\n");
}

#[test]
fn multi_line_range_quotes_nothing() {
    let ctx = ErrorContext::with_str("a\nb\n");
    let mut w = PackagedErrorWriter::new(&ctx);
    w.error(Some(range(0, 0, 1, 1)), "spans lines");
    assert_eq!(w.into_text(), "error: 0:0: spans lines\n");
}

#[test]
fn error_then_note() {
    let ctx = ErrorContext::with_str("let x = 10;\nlet y = x;\n");
    let mut w = PackagedErrorWriter::new(&ctx);
    w.error(Some(range(1, 4, 1, 5)), "unused variable");
    w.note(range(0, 4, 0, 5), "defined here");
    assert_eq!(
        w.into_text(),
        "error: 1:4: unused variable\n\n\t> let y = x;\n\t>     ^\n\nnote: 0:4: defined here\n\n\t> let x = 10;\n\t>     ^\n\n"
    );
}

#[test]
fn line_numbers_have_several_digits() {
    let mut text = String::new();
    for i in 0..12 {
        text.push_str(&format!("line {i}\n"));
    }
    let ctx = ErrorContext::with_str(&text);
    let mut w = PackagedErrorWriter::new(&ctx);
    w.error(Some(range(11, 5, 0, 7)), "far");
    assert_eq!(w.into_text(), "error: 11:5: far\n");
}

#[test]
fn context_lines_lose_only_their_terminator() {
    let ctx = ErrorContext::with_str("first  \r\n\tsecond\t\nthird\r");
    assert_eq!(ctx.line(0), Some("first  ".to_string()));
    assert_eq!(ctx.line(1), Some("\tsecond\t".to_string()));
    assert_eq!(ctx.line(2), Some("third\r".to_string()));
    assert_eq!(ctx.line(3), None);
    assert_eq!(ErrorContext::with_str("ab ").line(0), Some("ab ".to_string()));
    assert_eq!(ErrorContext::with_str("").line(0), None);
    assert_eq!(ErrorContext::with_str("a\n").line(1), None);
}

#[test]
fn two_unspanned_errors() {
    let ctx = ErrorContext::with_str("");
    let mut w = PackagedErrorWriter::new(&ctx);
    w.error(None, "a");
    w.error(None, "b");
    assert_eq!(w.into_text(), "error: a\nerror: b\n");
}

#[test]
fn missing_line_quotes_empty_text() {
    let ctx = ErrorContext::with_str("a");
    let mut w = PackagedErrorWriter::new(&ctx);
    w.error(Some(range(4, 0, 4, 2)), "gone");
    assert_eq!(w.into_text(), "error: 4:0: gone\n\n\t> \n\t> ^^\n\n");
}

#[test]
fn file_open_carries_the_path() {
    let e = FileError::file_open("missing.txt".to_string(), "No such file or directory".to_string());
    match &e {
        FileError::FileOpen { file, .. } => assert_eq!(file, "missing.txt"),
        FileError::FileRead { .. } => panic!("wrong variant"),
    }
    let ctx = ErrorContext::with_str("");
    let mut w = PackagedErrorWriter::new(&ctx);
    e.write_errors(&mut w);
    assert_eq!(w.into_text(), "error: Unable to open file `missing.txt`: No such file or directory\n");
}

#[test]
fn file_read_renders() {
    let e = FileError::file_read("in.src".to_string(), "Is a directory".to_string());
    assert!(matches!(e, FileError::FileRead { .. }));
    let p = PackagedError::new(Arc::new(ErrorContext::with_str("")), e);
    assert_eq!(p.render(), "error: Unable to read file `in.src`: Is a directory\n");
}
