//! The parsing driver: lexes a text and feeds the tokens to a caller's
//! grammar state machine.
use vstd::prelude::*;

use crate::file_error::FileError;
use crate::lexer::{lex_result, Error as LexError, Lexer, LexerState};
use crate::reader::{char_positions, spans_match};
use crate::span::Span;
use crate::writer::{Diagnostic, ErrorProvider, ErrorWriter};

verus! {

/// A grammar state machine: it sees the tokens in order and, at the end,
/// builds a tree or reports what it found wrong.
///
/// The spec functions below have placeholder bodies so that unverified
/// implementations compile; a verified implementation gives its own, since
/// the placeholders cannot meet the contracts of `process` and `finish`.
pub trait ParserState<Token>: Sized {
    type Ast;
    type Error: ErrorProvider;

    /// The tokens that the state has taken so far, in order. A verified
    /// state keeps its own record of them.
    open spec fn received(&self) -> Seq<Span<Token>> {
        Seq::empty()
    }

    /// What `finish` returns from this state.
    open spec fn outcome(&self) -> Result<Self::Ast, ParseErrors<Self::Error>> {
        arbitrary()
    }

    /// Takes the next token.
    fn process(&mut self, token: Span<Token>)
        ensures
            final(self).received() == old(self).received().push(token),
    ;

    /// Ends the input. A failure carries at least one error.
    fn finish(self) -> (r: Result<Self::Ast, ParseErrors<Self::Error>>)
        ensures
            r == self.outcome(),
            r matches Err(e) ==> e@.len() > 0,
    ;
}

/// The errors that a grammar state machine found in one input, in the
/// order it found them.
pub struct ParseErrors<E: ErrorProvider> {
    errors: Vec<E>,
}

impl<E: ErrorProvider> View for ParseErrors<E> {
    type V = Seq<E>;

    closed spec fn view(&self) -> Seq<E> {
        self.errors@
    }
}

/// The diagnostics of each of `es`, in order.
pub open spec fn all_diagnostics<E: ErrorProvider>(es: Seq<E>) -> Seq<Diagnostic>
    decreases es.len(),
{
    if es.len() == 0 {
        seq![]
    } else {
        all_diagnostics(es.drop_last()) + es.last().diagnostics()
    }
}

impl<E: ErrorProvider> ParseErrors<E> {
    /// The collection of `errors`, in their order.
    pub fn from_errors(errors: Vec<E>) -> (r: ParseErrors<E>)
        ensures
            r@ == errors@,
    {
        ParseErrors { errors }
    }

    /// The errors, in order.
    pub fn errors(&self) -> (r: &Vec<E>)
        ensures
            r@ == self@,
    {
        &self.errors
    }

    /// How many errors there are.
    pub fn len(&self) -> (r: usize)
        ensures
            r == self@.len(),
    {
        self.errors.len()
    }
}

impl<E: ErrorProvider> From<Vec<E>> for ParseErrors<E> {
    fn from(errors: Vec<E>) -> (r: ParseErrors<E>) {
        ParseErrors { errors }
    }
}

impl<E: ErrorProvider> vstd::std_specs::convert::FromSpecImpl<Vec<E>> for ParseErrors<E> {
    open spec fn obeys_from_spec() -> bool {
        true
    }

    closed spec fn from_spec(errors: Vec<E>) -> ParseErrors<E> {
        ParseErrors { errors }
    }
}

impl<E: ErrorProvider> ErrorProvider for ParseErrors<E> {
    /// Every error's diagnostics, in order.
    open spec fn diagnostics(&self) -> Seq<Diagnostic> {
        all_diagnostics(self@)
    }

    fn write_errors<W: ErrorWriter>(&self, writer: &mut W) {
        let mut i: usize = 0;
        proof {
            assert(self.errors@.take(0) =~= Seq::<E>::empty());
            assert(old(writer).written() + all_diagnostics(self.errors@.take(0)) =~= old(writer).written());
        }
        while i < self.errors.len()
            invariant
                i <= self.errors@.len(),
                writer.inv(),
                writer.source() == old(writer).source(),
                writer.written() == old(writer).written() + all_diagnostics(self.errors@.take(i as int)),
            decreases self.errors@.len() - i,
        {
            self.errors[i].write_errors(writer);
            proof {
                let es = self.errors@.take(i + 1);
                assert(es.drop_last() =~= self.errors@.take(i as int));
                assert(es.last() == self.errors@[i as int]);
                assert(writer.written() =~= old(writer).written() + all_diagnostics(es));
            }
            i = i + 1;
        }
        assert(self.errors@.take(i as int) =~= self.errors@);
    }
}

/// Why parsing failed: lexing failed, or the grammar state machine found errors.
pub enum Error<L: LexerState, P: ParserState<L::Token>> {
    LexError(LexError<L>),
    ParseErrors(ParseErrors<P::Error>),
}

impl<L: LexerState, P: ParserState<L::Token>> From<FileError> for Error<L, P> {
    fn from(error: FileError) -> (r: Error<L, P>) {
        Error::LexError(LexError::FileError(error))
    }
}

impl<L: LexerState, P: ParserState<L::Token>> vstd::std_specs::convert::FromSpecImpl<FileError> for Error<L, P> {
    open spec fn obeys_from_spec() -> bool {
        true
    }

    open spec fn from_spec(error: FileError) -> Error<L, P> {
        Error::LexError(LexError::FileError(error))
    }
}

impl<L: LexerState, P: ParserState<L::Token>> ErrorProvider for Error<L, P> {
    open spec fn diagnostics(&self) -> Seq<Diagnostic> {
        match self {
            Error::LexError(e) => e.diagnostics(),
            Error::ParseErrors(e) => e.diagnostics(),
        }
    }

    fn write_errors<W: ErrorWriter>(&self, writer: &mut W) {
        match self {
            Error::LexError(e) => e.write_errors(writer),
            Error::ParseErrors(e) => e.write_errors(writer),
        }
    }
}

/// What `parse` returns for the outcome `o` of the parser state.
pub open spec fn parse_result<L: LexerState, P: ParserState<L::Token>>(
    o: Result<P::Ast, ParseErrors<P::Error>>,
) -> Result<P::Ast, Error<L, P>> {
    match o {
        Ok(a) => Ok(a),
        Err(e) => Err(Error::ParseErrors(e)),
    }
}

/// Hands `tokens` to `parser`, each once and in order.
pub fn feed<T, PS: ParserState<T>>(parser: &mut PS, tokens: Vec<Span<T>>)
    ensures
        final(parser).received() == old(parser).received() + tokens@,
{
    let ghost all = tokens@;
    let mut tokens = tokens;
    let mut reversed: Vec<Span<T>> = Vec::new();
    while tokens.len() > 0
        invariant
            all == tokens@ + reversed@.reverse(),
        decreases tokens@.len(),
    {
        let ghost before = tokens@;
        match tokens.pop() {
            Some(t) => {
                reversed.push(t);
                proof {
                    assert(before =~= tokens@.push(t));
                    assert(reversed@.reverse() =~= seq![t] + reversed@.drop_last().reverse());
                    assert(all =~= tokens@ + reversed@.reverse());
                }
            },
            None => {},
        }
    }
    assert(all =~= reversed@.reverse());
    while reversed.len() > 0
        invariant
            parser.received() + reversed@.reverse() == old(parser).received() + all,
        decreases reversed@.len(),
    {
        let ghost before = reversed@;
        match reversed.pop() {
            Some(t) => {
                proof {
                    assert(before =~= reversed@.push(t));
                    assert(before.reverse() =~= seq![t] + reversed@.reverse());
                }
                parser.process(t);
                proof {
                    assert(parser.received() + reversed@.reverse() =~= old(parser).received() + all);
                }
            },
            None => {},
        }
    }
    assert(parser.received() =~= parser.received() + reversed@.reverse());
}

/// Parses one source text.
pub struct Parser {
    lexer: Lexer,
}

impl Parser {
    /// The character spans that the parser's lexer will offer, in order.
    pub closed spec fn spans(&self) -> Seq<Span<char>> {
        self.lexer.spans()
    }

    /// The lexer is consistent.
    pub closed spec fn wf(&self) -> bool {
        self.lexer.wf()
    }

    /// A parser over the text `input`.
    pub fn with_str(input: &str) -> (r: Parser)
        requires
            input@.len() < usize::MAX,
        ensures
            r.wf(),
            spans_match(r.spans(), char_positions(input@)),
    {
        Parser { lexer: Lexer::with_str(input) }
    }

    /// Lexes the text with `lexer` (see `Lexer::lex`); the lexer state
    /// that is finished is `lfin`. Every token it emits is handed to
    /// `parser` as soon as it is emitted, once and in order (see
    /// `Lexer::lex_into`). When the lexer state finishes with an error, the
    /// result is that error and the parser is not finished. Otherwise the
    /// result is what the parser state so fed (`pfin`) finishes with.
    pub fn parse<LS: LexerState, PS: ParserState<LS::Token>>(self, lexer: LS, parser: PS) -> (r:
        Result<PS::Ast, Error<LS, PS>>)
        requires
            self.wf(),
            lexer.pending() is None,
        ensures
            exists|lfin: LS|
                {
                    &&& #[trigger] lfin.consumed() == lexer.consumed() + self.spans()
                    &&& lexer.emitted().len() <= lfin.emitted().len()
                    &&& lfin.emitted().subrange(0, lexer.emitted().len() as int) == lexer.emitted()
                    &&& if lfin.outcome() is Ok {
                        exists|pfin: PS|
                            {
                                &&& #[trigger] pfin.received() == parser.received() + lfin.emitted().subrange(
                                    lexer.emitted().len() as int,
                                    lfin.emitted().len() as int,
                                )
                                &&& r == parse_result::<LS, PS>(pfin.outcome())
                            }
                    } else {
                        r == Err::<PS::Ast, Error<LS, PS>>(
                            Error::LexError(LexError::LexError(lfin.outcome()->Err_0)),
                        )
                    }
                },
            r matches Err(Error::ParseErrors(e)) ==> e@.len() > 0,
    {
        let ghost spans = self.spans();
        let ghost lstart = lexer;
        let ghost pstart = parser;
        let ghost k = lstart.emitted().len() as int;
        let mut parser = parser;
        let lexed = self.lexer.lex_into(lexer, &mut parser);
        let ghost lfin = choose|fin: LS|
            {
                &&& #[trigger] fin.consumed() == lstart.consumed() + spans
                &&& k <= fin.emitted().len()
                &&& fin.emitted().subrange(0, k) == lstart.emitted()
                &&& parser.received() == pstart.received() + fin.emitted().subrange(k, fin.emitted().len() as int)
                &&& lexed == lex_result::<LS>(fin.outcome())
            };
        match lexed {
            Ok(()) => {},
            Err(e) => {
                let r = Err(Error::LexError(e));
                assert(lfin.consumed() == lstart.consumed() + spans);
                return r;
            },
        }
        let ghost pfin = parser;
        let r = match parser.finish() {
            Ok(ast) => Ok(ast),
            Err(errors) => Err(Error::ParseErrors(errors)),
        };
        proof {
            assert(pfin.received() == pstart.received() + lfin.emitted().subrange(
                lstart.emitted().len() as int,
                lfin.emitted().len() as int,
            ));
            assert(r == parse_result::<LS, PS>(pfin.outcome()));
            assert(lfin.consumed() == lstart.consumed() + spans);
        }
        r
    }
}

} // verus!
