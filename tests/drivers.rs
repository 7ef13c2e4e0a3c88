use std::sync::Arc;

use ruinous::context::ErrorContext;
use ruinous::lexer::{Error as LexError, Lexer, LexerState};
use ruinous::parser::{Error, ParseErrors, Parser, ParserState};
use ruinous::reader::{CharReader, Continuation};
use ruinous::span::{Location, Span};
use ruinous::writer::{ErrorProvider, ErrorWriter, PackagedError};

#[derive(Debug, Clone, PartialEq)]
enum Token {
    Word(String),
    Number(u64),
}

#[derive(Debug)]
struct Problem {
    span: Span<()>,
    message: String,
}

impl ErrorProvider for Problem {
    fn write_errors<W: ErrorWriter>(&self, writer: &mut W) {
        writer.error(Some(self.span), &self.message);
    }
}

/// Splits on white space into words and numbers; a word ends only when the
/// character after it is seen, which it peeks at before consuming.
struct Words {
    current: String,
    start: Location,
    end: Location,
    pending_emit: bool,
    peeks: usize,
    broken: Option<Span<()>>,
}

impl Words {
    fn new() -> Self {
        Words { current: String::new(), start: Location::default(), end: Location::default(), pending_emit: false, peeks: 0, broken: None }
    }
}

impl LexerState for Words {
    type Token = Token;
    type Error = Problem;

    fn process(&mut self, input: Span<char>, tokens: &mut Vec<Span<Token>>) -> Continuation {
        if input.data == '@' {
            self.broken = Some(input.swap(()));
            return Continuation::Consume;
        }
        if input.data.is_whitespace() {
            if !self.current.is_empty() && !self.pending_emit {
                // Ask to see the separator again once the word is out.
                self.pending_emit = true;
                self.peeks += 1;
                let text = std::mem::take(&mut self.current);
                let token = match text.parse::<u64>() {
                    Ok(n) => Token::Number(n),
                    Err(_) => Token::Word(text),
                };
                tokens.push(Span::new(self.start, self.end, token));
                return Continuation::Peek;
            }
            self.pending_emit = false;
            return Continuation::Consume;
        }
        if self.current.is_empty() {
            self.start = input.start;
        }
        self.current.push(input.data);
        self.end = input.end;
        Continuation::Consume
    }

    fn finish(self) -> Result<(), Problem> {
        match self.broken {
            None => Ok(()),
            Some(span) => Err(Problem { span, message: "stray `@`".to_string() }),
        }
    }
}

/// Sums the numbers; every word is an error, reported all together.
struct Sum {
    total: u64,
    errors: Vec<Problem>,
    seen: Vec<Span<Token>>,
}

impl ParserState<Token> for Sum {
    type Ast = u64;
    type Error = Problem;

    fn process(&mut self, token: Span<Token>) {
        self.seen.push(token.clone());
        match token.data {
            Token::Number(n) => self.total += n,
            Token::Word(ref w) => self.errors.push(Problem { span: token.swap(()), message: format!("`{w}` is not a number") }),
        }
    }

    fn finish(self) -> Result<u64, ParseErrors<Problem>> {
        let mut last: Option<Location> = None;
        for t in &self.seen {
            assert!(last.map_or(true, |l| l < t.start));
            last = Some(t.start);
        }
        if self.errors.is_empty() {
            Ok(self.total)
        } else {
            Err(ParseErrors::from_errors(self.errors))
        }
    }
}

fn sum() -> Sum {
    Sum { total: 0, errors: Vec::new(), seen: Vec::new() }
}

#[test]
fn lex_emits_tokens_in_order() {
    let mut tokens = Vec::new();
    let r = Lexer::with_str("ab 12\ncd\n").lex(Words::new(), &mut tokens);
    assert!(r.is_ok());
    let data: Vec<Token> = tokens.iter().map(|t| t.data.clone()).collect();
    assert_eq!(data, vec![Token::Word("ab".into()), Token::Number(12), Token::Word("cd".into())]);
    assert_eq!(tokens[1].start, Location::new(0, 3));
    assert_eq!(tokens[1].end, Location::new(0, 5));
    assert_eq!(tokens[2].start, Location::new(1, 0));
}

#[test]
fn read_offers_a_peeked_span_again() {
    let mut state = Words::new();
    let mut tokens = Vec::new();
    CharReader::with_str("ab c").read(&mut state, &mut tokens);
    assert_eq!(state.peeks, 2);
    assert_eq!(tokens.len(), 2);
}

#[test]
fn parse_sums_numbers() {
    let r = Parser::with_str("1 2\n39\n").parse(Words::new(), sum());
    assert_eq!(r.ok(), Some(42));
}

#[test]
fn parse_empty_input() {
    let r = Parser::with_str("").parse(Words::new(), sum());
    assert_eq!(r.ok(), Some(0));
}

#[test]
fn parse_reports_every_failure() {
    let source = "1 two 3\nfour 5\n";
    let r = Parser::with_str(source).parse(Words::new(), sum());
    let err = match r {
        Err(e) => e,
        Ok(_) => panic!("expected errors"),
    };
    match &err {
        Error::ParseErrors(errors) => assert_eq!(errors.len(), 2),
        Error::LexError(_) => panic!("expected parse errors"),
    }
    let text = PackagedError::new(Arc::new(ErrorContext::with_str(source)), err).render();
    assert_eq!(
        text,
        "error: 0:2: `two` is not a number\n\n\t> 1 two 3\n\t>   ^^^\n\nerror: 1:0: `four` is not a number\n\n\t> four 5\n\t> ^^^^\n\n"
    );
}

#[test]
fn lex_failure_skips_the_parser() {
    let r = Parser::with_str("1@").parse(Words::new(), sum());
    match r {
        Err(Error::LexError(LexError::LexError(p))) => assert_eq!(p.message, "stray `@`"),
        _ => panic!("expected a lexing error"),
    }
}

#[test]
fn file_errors_convert_into_driver_errors() {
    let e: Error<Words, Sum> = ruinous::file_error::FileError::file_read("a.src".to_string(), "gone".to_string()).into();
    assert!(matches!(e, Error::LexError(LexError::FileError(_))));
    let l: LexError<Words> = ruinous::file_error::FileError::file_open("b.src".to_string(), "gone".to_string()).into();
    assert!(matches!(l, LexError::FileError(_)));
}

#[test]
fn feed_hands_tokens_over_in_order() {
    let mut parser = sum();
    let tokens = vec![
        Span::new(Location::new(0, 0), Location::new(0, 1), Token::Number(1)),
        Span::new(Location::new(0, 2), Location::new(0, 3), Token::Word("x".into())),
        Span::new(Location::new(1, 0), Location::new(1, 1), Token::Number(5)),
    ];
    ruinous::parser::feed(&mut parser, tokens.clone());
    assert_eq!(parser.seen, tokens);
    assert_eq!(parser.total, 6);
    assert_eq!(parser.errors.len(), 1);
}

#[test]
fn parse_errors_from_a_vec() {
    let errors: ParseErrors<Problem> = vec![Problem { span: Span::new(Location::new(0, 0), Location::new(0, 1), ()), message: "bad".into() }].into();
    assert_eq!(errors.len(), 1);
    assert_eq!(errors.errors()[0].message, "bad");
}

#[test]
fn lex_into_hands_tokens_over_as_emitted() {
    let mut parser = sum();
    let r = Lexer::with_str("1 2@").lex_into(Words::new(), &mut parser);
    assert!(matches!(r, Err(LexError::LexError(_))));
    let data: Vec<Token> = parser.seen.iter().map(|t| t.data.clone()).collect();
    assert_eq!(data, vec![Token::Number(1), Token::Number(2)]);
    assert_eq!(parser.total, 3);
}
