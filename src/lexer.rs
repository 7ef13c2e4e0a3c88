//! The lexing driver: feeds the characters of a text to a caller's lexical
//! state machine and collects the tokens that it emits.
use vstd::prelude::*;

use crate::file_error::FileError;
use crate::parser::{feed, ParserState};
use crate::reader::{char_positions, spans_match, CharReader, Continuation};
use crate::span::Span;
use crate::writer::{Diagnostic, ErrorProvider, ErrorWriter};

verus! {

/// A lexical state machine: it sees one character at a time and emits tokens.
///
/// The spec functions below have placeholder bodies so that unverified
/// implementations compile; a verified implementation gives its own, since
/// the placeholders cannot meet the contracts of `process` and `finish`.
pub trait LexerState: Sized {
    type Token;
    type Error: ErrorProvider;

    /// A bound on how many more times the state may ask to see the
    /// character on offer again. A state that peeks gives its own.
    open spec fn lookahead(&self) -> nat {
        0
    }

    /// The characters that the state has consumed so far, in order. A
    /// verified state keeps its own record of them.
    open spec fn consumed(&self) -> Seq<Span<char>> {
        Seq::empty()
    }

    /// The tokens that the state has emitted so far, in order.
    open spec fn emitted(&self) -> Seq<Span<Self::Token>> {
        Seq::empty()
    }

    /// The character that the state asked to see again, if its last answer
    /// was `Peek`.
    open spec fn pending(&self) -> Option<Span<char>> {
        None
    }

    /// What `finish` returns from this state.
    open spec fn outcome(&self) -> Result<(), Self::Error> {
        arbitrary()
    }

    /// Looks at one character, appending any tokens it completes to
    /// `tokens`. `Consume` takes the character; `Peek` asks to see it again.
    fn process(&mut self, input: Span<char>, tokens: &mut Vec<Span<Self::Token>>) -> (c: Continuation)
        requires
            old(self).pending() matches Some(p) ==> input == p,
        ensures
            old(tokens)@.len() <= final(tokens)@.len(),
            final(tokens)@.subrange(0, old(tokens)@.len() as int) == old(tokens)@,
            final(self).emitted() == old(self).emitted() + final(tokens)@.subrange(
                old(tokens)@.len() as int,
                final(tokens)@.len() as int,
            ),
            c == Continuation::Consume ==> final(self).consumed() == old(self).consumed().push(input)
                && final(self).pending() is None,
            c == Continuation::Peek ==> final(self).consumed() == old(self).consumed()
                && final(self).lookahead() < old(self).lookahead() && final(self).pending() == Some(
                input,
            ),
    ;

    /// Ends the input: any unfinished token is an error.
    fn finish(self) -> (r: Result<(), Self::Error>)
        ensures
            r == self.outcome(),
    ;
}

/// Why lexing failed: the source could not be had, or the state machine
/// rejected it.
pub enum Error<S: LexerState> {
    FileError(FileError),
    LexError(S::Error),
}

impl<S: LexerState> From<FileError> for Error<S> {
    fn from(error: FileError) -> (r: Error<S>) {
        Error::FileError(error)
    }
}

impl<S: LexerState> vstd::std_specs::convert::FromSpecImpl<FileError> for Error<S> {
    open spec fn obeys_from_spec() -> bool {
        true
    }

    open spec fn from_spec(error: FileError) -> Error<S> {
        Error::FileError(error)
    }
}

impl<S: LexerState> ErrorProvider for Error<S> {
    open spec fn diagnostics(&self) -> Seq<Diagnostic> {
        match self {
            Error::FileError(e) => e.diagnostics(),
            Error::LexError(e) => e.diagnostics(),
        }
    }

    fn write_errors<W: ErrorWriter>(&self, writer: &mut W) {
        match self {
            Error::FileError(e) => e.write_errors(writer),
            Error::LexError(e) => e.write_errors(writer),
        }
    }
}

/// What `lex` returns for the outcome `o` of the finished state.
pub open spec fn lex_result<S: LexerState>(o: Result<(), S::Error>) -> Result<(), Error<S>> {
    match o {
        Ok(()) => Ok(()),
        Err(e) => Err(Error::LexError(e)),
    }
}

/// Lexes one source text.
pub struct Lexer {
    reader: CharReader,
}

impl Lexer {
    /// The character spans that the lexer will offer, in order.
    pub closed spec fn spans(&self) -> Seq<Span<char>> {
        self.reader.spans().subrange(self.reader.position() as int, self.reader.spans().len() as int)
    }

    /// The reader is consistent.
    pub closed spec fn wf(&self) -> bool {
        self.reader.wf()
    }

    /// A lexer over the text `input`.
    pub fn with_str(input: &str) -> (r: Lexer)
        requires
            input@.len() < usize::MAX,
        ensures
            r.wf(),
            spans_match(r.spans(), char_positions(input@)),
    {
        let reader = CharReader::with_str(input);
        assert(reader.spans().subrange(0, reader.spans().len() as int) =~= reader.spans());
        Lexer { reader }
    }

    /// Offers every character span to `state`, in order and each until it
    /// is consumed, appending the tokens that it emits to `tokens`; then
    /// finishes the state. The state that is finished (`fin`) has consumed
    /// exactly the text's spans and emitted exactly the tokens appended, and
    /// the result is what it finishes with, its error wrapped. A span that
    /// the state peeks at is offered to it again, unchanged.
    pub fn lex<S: LexerState>(self, state: S, tokens: &mut Vec<Span<S::Token>>) -> (r: Result<(), Error<S>>)
        requires
            self.wf(),
            state.pending() is None,
        ensures
            old(tokens)@.len() <= final(tokens)@.len(),
            final(tokens)@.subrange(0, old(tokens)@.len() as int) == old(tokens)@,
            exists|fin: S|
                {
                    &&& #[trigger] fin.consumed() == state.consumed() + self.spans()
                    &&& fin.emitted() == state.emitted() + final(tokens)@.subrange(
                        old(tokens)@.len() as int,
                        final(tokens)@.len() as int,
                    )
                    &&& r == lex_result::<S>(fin.outcome())
                },
            r is Err ==> r matches Err(Error::LexError(_)),
    {
        let ghost start = state;
        let mut state = state;
        self.reader.read(&mut state, tokens);
        let ghost fin = state;
        let r = match state.finish() {
            Ok(()) => Ok(()),
            Err(e) => Err(Error::LexError(e)),
        };
        assert(fin.consumed() == start.consumed() + self.spans());
        r
    }

    /// Lexes as `lex` does, but hands each token to `parser` as soon as the
    /// state emits it, once and in order; then finishes the lexer state. The
    /// parser is not finished.
    pub fn lex_into<S: LexerState, P: ParserState<S::Token>>(self, state: S, parser: &mut P) -> (r:
        Result<(), Error<S>>)
        requires
            self.wf(),
            state.pending() is None,
        ensures
            exists|fin: S|
                {
                    &&& #[trigger] fin.consumed() == state.consumed() + self.spans()
                    &&& state.emitted().len() <= fin.emitted().len()
                    &&& fin.emitted().subrange(0, state.emitted().len() as int) == state.emitted()
                    &&& final(parser).received() == old(parser).received() + fin.emitted().subrange(
                        state.emitted().len() as int,
                        fin.emitted().len() as int,
                    )
                    &&& r == lex_result::<S>(fin.outcome())
                },
    {
        let ghost start = state;
        let ghost k = start.emitted().len() as int;
        let mut state = state;
        let mut reader = self.reader;
        let ghost all = reader.spans();
        let ghost p0 = reader.position() as int;
        proof {
            reader.lemma_within();
            assert(all.subrange(p0, p0) =~= Seq::<Span<char>>::empty());
            assert(start.consumed() + all.subrange(p0, p0) =~= start.consumed());
            assert(start.emitted().subrange(0, k) =~= start.emitted());
            assert(old(parser).received() + start.emitted().subrange(k, k) =~= old(parser).received());
        }
        while !reader.at_end()
            invariant
                reader.wf(),
                reader.spans() == all,
                0 <= p0 <= reader.position() <= all.len(),
                state.pending() is None || (reader.position() < all.len() && state.pending() == Some(
                    all[reader.position() as int],
                )),
                state.consumed() == start.consumed() + all.subrange(p0, reader.position() as int),
                k == start.emitted().len(),
                k <= state.emitted().len(),
                state.emitted().subrange(0, k) == start.emitted(),
                parser.received() == old(parser).received() + state.emitted().subrange(
                    k,
                    state.emitted().len() as int,
                ),
            decreases all.len() - reader.position(), state.lookahead(),
        {
            let ghost p = reader.position() as int;
            let ghost before = state.emitted();
            let sp = reader.current().unwrap();
            let mut fresh: Vec<Span<S::Token>> = Vec::new();
            let c = state.process(sp, &mut fresh);
            proof {
                assert(fresh@.subrange(0, 0) =~= Seq::<Span<S::Token>>::empty());
                assert(fresh@.subrange(0, fresh@.len() as int) =~= fresh@);
                assert(state.emitted() == before + fresh@);
                assert(state.emitted().subrange(0, k) =~= before.subrange(0, k));
                assert(state.emitted().subrange(k, state.emitted().len() as int) =~= before.subrange(
                    k,
                    before.len() as int,
                ) + fresh@);
                if c == Continuation::Consume {
                    assert(all.subrange(p0, p + 1) =~= all.subrange(p0, p).push(sp));
                }
            }
            feed(parser, fresh);
            reader.respond(c);
        }
        let ghost fin = state;
        assert(reader.position() == all.len());
        assert(fin.consumed() == start.consumed() + all.subrange(p0, all.len() as int));
        let r = match state.finish() {
            Ok(()) => Ok(()),
            Err(e) => Err(Error::LexError(e)),
        };
        assert(all.subrange(p0, all.len() as int) == self.spans());
        assert(fin.consumed() == start.consumed() + self.spans());
        r
    }
}

} // verus!
