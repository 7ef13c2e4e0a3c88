use ruinous::reader::{CharReader, Continuation};
use ruinous::span::{Location, Span};

fn span<D>(data: D, from_line: usize, from_col: usize, to_line: usize, to_col: usize) -> Span<D> {
    Span::new(Location::new(from_line, from_col), Location::new(to_line, to_col), data)
}

fn read_all(input: &str) -> Vec<Span<char>> {
    CharReader::with_str(input).collect()
}

fn reader_test(input: &str, expected: &[Span<char>]) {
    assert_eq!(read_all(input), expected);
}

fn combined_test(input1: &str, expected1: &[Span<char>], input2: &str, expected2: &[Span<char>]) {
    if input1.is_empty() {
        return reader_test(input2, expected2);
    } else if input2.is_empty() {
        return reader_test(input1, expected1);
    }
    let input = format!("{input1}{input2}");
    let mut expected = expected1.to_owned();
    let new_line = input1.ends_with('\n');
    if !new_line {
        expected.pop();
    }
    let (line, col) = if let Some(last) = expected.last() {
        if new_line {
            (last.end.line + 1, 0)
        } else {
            (last.end.line, last.end.col)
        }
    } else {
        (0, 0)
    };
    for item in expected2 {
        if item.start.line == 0 {
            expected.push(span(
                item.data,
                item.start.line + line,
                item.start.col + col,
                item.end.line + line,
                item.end.col + col,
            ));
        } else {
            expected.push(span(item.data, item.start.line + line, item.start.col, item.end.line + line, item.end.col));
        }
    }
    reader_test(&input, &expected);
}

fn char_lines() -> Vec<Span<char>> {
    vec![
        span('a', 0, 0, 0, 1),
        span('\n', 0, 1, 0, 2),
        span('b', 1, 0, 1, 1),
        span('\n', 1, 1, 1, 2),
        span('c', 2, 0, 2, 1),
        span('\n', 2, 1, 2, 2),
    ]
}

fn emoji_lines() -> Vec<Span<char>> {
    vec![
        span('🐉', 0, 0, 0, 1),
        span('\n', 0, 1, 0, 2),
        span('😛', 1, 0, 1, 1),
        span('\n', 1, 1, 1, 2),
        span('🍎', 2, 0, 2, 1),
        span('\n', 2, 1, 2, 2),
    ]
}

fn char_sequence() -> Vec<Span<char>> {
    vec![
        span('a', 0, 0, 0, 1),
        span('1', 0, 1, 0, 2),
        span('b', 0, 2, 0, 3),
        span('2', 0, 3, 0, 4),
        span('c', 0, 4, 0, 5),
        span('3', 0, 5, 0, 6),
        span('\n', 0, 6, 0, 7),
    ]
}

#[test]
fn read_empty_input() {
    reader_test("", &[]);
}

#[test]
fn read_single_space() {
    reader_test(" ", &[span(' ', 0, 0, 0, 1), span('\n', 0, 1, 0, 2)]);
}

#[test]
fn read_single_tab() {
    reader_test("\t", &[span('\t', 0, 0, 0, 1), span('\n', 0, 1, 0, 2)]);
}

#[test]
fn read_single_newline() {
    reader_test("\n", &[span('\n', 0, 0, 0, 1)]);
}

#[test]
fn read_single_char() {
    reader_test("a", &[span('a', 0, 0, 0, 1), span('\n', 0, 1, 0, 2)]);
}

#[test]
fn read_single_emojji() {
    reader_test("🐉", &[span('🐉', 0, 0, 0, 1), span('\n', 0, 1, 0, 2)]);
}

#[test]
fn read_char_sequence() {
    reader_test("a1b2c3", &char_sequence());
}

#[test]
fn read_char_spaces() {
    reader_test(
        "a b c ",
        &[
            span('a', 0, 0, 0, 1),
            span(' ', 0, 1, 0, 2),
            span('b', 0, 2, 0, 3),
            span(' ', 0, 3, 0, 4),
            span('c', 0, 4, 0, 5),
            span(' ', 0, 5, 0, 6),
            span('\n', 0, 6, 0, 7),
        ],
    );
}

#[test]
fn read_char_tabs() {
    reader_test(
        "a\tb\tc\t",
        &[
            span('a', 0, 0, 0, 1),
            span('\t', 0, 1, 0, 2),
            span('b', 0, 2, 0, 3),
            span('\t', 0, 3, 0, 4),
            span('c', 0, 4, 0, 5),
            span('\t', 0, 5, 0, 6),
            span('\n', 0, 6, 0, 7),
        ],
    );
}

#[test]
fn read_char_lines() {
    reader_test("a\nb\nc", &char_lines());
}

#[test]
fn read_emoji_lines() {
    reader_test("🐉\n😛\n🍎", &emoji_lines());
}

#[test]
fn read_crlf_strips_one_carriage_return() {
    reader_test(
        "a\r\nb\r\r\nc\r",
        &[
            span('a', 0, 0, 0, 1),
            span('\n', 0, 1, 0, 2),
            span('b', 1, 0, 1, 1),
            span('\r', 1, 1, 1, 2),
            span('\n', 1, 2, 1, 3),
            span('c', 2, 0, 2, 1),
            span('\r', 2, 1, 2, 2),
            span('\n', 2, 2, 2, 3),
        ],
    );
}

#[test]
fn read_double_carriage_return_keeps_one() {
    reader_test("a\r\r\n", &[span('a', 0, 0, 0, 1), span('\r', 0, 1, 0, 2), span('\n', 0, 2, 0, 3)]);
}

#[test]
fn read_trailing_carriage_return_then_text() {
    combined_test("x\r", &[span('x', 0, 0, 0, 1), span('\r', 0, 1, 0, 2), span('\n', 0, 2, 0, 3)], "y", &[span('y', 0, 0, 0, 1), span('\n', 0, 1, 0, 2)]);
}

#[test]
fn read_inner_carriage_return_is_kept() {
    reader_test("a\rb", &[span('a', 0, 0, 0, 1), span('\r', 0, 1, 0, 2), span('b', 0, 2, 0, 3), span('\n', 0, 3, 0, 4)]);
}

#[test]
fn read_blank_lines() {
    reader_test("\n\n", &[span('\n', 0, 0, 0, 1), span('\n', 1, 0, 1, 1)]);
}

#[test]
fn read_char_lines_then_emoji_lines() {
    combined_test("a\nb\nc", &char_lines(), "🐉\n😛\n🍎", &emoji_lines());
}

#[test]
fn read_single_newline_then_char_sequence() {
    combined_test("\n", &[span('\n', 0, 0, 0, 1)], "a1b2c3", &char_sequence());
}

#[test]
fn read_char_sequence_then_single_newline() {
    combined_test("a1b2c3", &char_sequence(), "\n", &[span('\n', 0, 0, 0, 1)]);
}

#[test]
fn read_empty_input_then_char_lines() {
    combined_test("", &[], "a\nb\nc", &char_lines());
}

#[test]
fn read_emoji_lines_then_char_sequence() {
    combined_test("🐉\n😛\n🍎", &emoji_lines(), "a1b2c3", &char_sequence());
}

#[test]
fn read_span_count_counts_final_line() {
    assert_eq!(read_all("ab\ncd").len(), 5 + 1);
    assert_eq!(read_all("ab\ncd\n").len(), 6);
}

#[test]
fn read_columns_count_characters_not_bytes() {
    let spans = read_all("é🐉x");
    let cols: Vec<usize> = spans.iter().map(|s| s.start.col).collect();
    assert_eq!(cols, vec![0, 1, 2, 3]);
    assert!(spans.iter().all(|s| s.end.col == s.start.col + 1 && s.end.line == s.start.line));
}

#[test]
fn peek_keeps_the_same_span_on_offer() {
    let mut reader = CharReader::with_str("ab");
    let first = reader.current();
    assert_eq!(first, Some(span('a', 0, 0, 0, 1)));
    for _ in 0..5 {
        reader.respond(Continuation::Peek);
        assert_eq!(reader.current(), first);
    }
    reader.respond(Continuation::Consume);
    assert_eq!(reader.current(), Some(span('b', 0, 1, 0, 2)));
    reader.respond(Continuation::Consume);
    reader.respond(Continuation::Consume);
    assert_eq!(reader.current(), None);
    reader.respond(Continuation::Consume);
    assert_eq!(reader.current(), None);
}

#[test]
fn collect_returns_only_what_is_left() {
    let mut reader = CharReader::with_str("ab");
    reader.respond(Continuation::Consume);
    assert_eq!(reader.collect(), vec![span('b', 0, 1, 0, 2), span('\n', 0, 2, 0, 3)]);
}

#[test]
fn span_swap_keeps_the_range() {
    let s = span('x', 1, 2, 1, 3);
    let t = s.swap(7u32);
    assert_eq!(t, span(7u32, 1, 2, 1, 3));
}

#[test]
fn location_moves() {
    let mut l = Location::default();
    assert_eq!(l, Location::new(0, 0));
    l.advance();
    l.advance();
    assert_eq!(l, Location::new(0, 2));
    l.next_line();
    assert_eq!(l, Location::new(1, 0));
    assert!(Location::new(0, 9) < Location::new(1, 0));
}
