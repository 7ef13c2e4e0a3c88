//! Rendering diagnostics as text that quotes the source.
use std::sync::Arc;
use vstd::prelude::*;
use vstd::string::StringExecFns;

use crate::context::{quoted_line, ErrorContext};
use crate::span::Span;

verus! {

/// One diagnostic as a writer receives it: whether it is a note (else an
/// error), the range that it points at, if any, and its message.
pub type Diagnostic = (bool, Option<Span<()>>, Seq<char>);

/// The decimal digit `d`.
pub open spec fn digit_char(d: nat) -> char {
    if d == 0 {
        '0'
    } else if d == 1 {
        '1'
    } else if d == 2 {
        '2'
    } else if d == 3 {
        '3'
    } else if d == 4 {
        '4'
    } else if d == 5 {
        '5'
    } else if d == 6 {
        '6'
    } else if d == 7 {
        '7'
    } else if d == 8 {
        '8'
    } else {
        '9'
    }
}

/// `n` written in decimal, without leading zeros.
pub open spec fn decimal(n: nat) -> Seq<char>
    decreases n,
{
    if n < 10 {
        seq![digit_char(n)]
    } else {
        decimal(n / 10).push(digit_char(n % 10))
    }
}

/// `n` copies of `c`; none when `n` is not positive.
pub open spec fn repeated(c: char, n: int) -> Seq<char> {
    Seq::new(if n > 0 { n as nat } else { 0 }, |_i: int| c)
}

/// The word that opens a diagnostic.
pub open spec fn label(note: bool) -> Seq<char> {
    if note {
        seq!['n', 'o', 't', 'e']
    } else {
        seq!['e', 'r', 'r', 'o', 'r']
    }
}

/// The quoted source under a diagnostic whose range lies on one line: the
/// line, then spaces up to the start column and a caret for each column of
/// the range, then a blank line. Nothing for a range over several lines.
pub open spec fn quote_block(source: Seq<char>, span: Span<()>) -> Seq<char> {
    if span.start.line == span.end.line {
        seq!['\n', '\t', '>', ' '] + quoted_line(source, span.start.line as nat) + seq![
            '\n',
            '\t',
            '>',
            ' ',
        ] + repeated(' ', span.start.col as int) + repeated('^', span.end.col - span.start.col) + seq![
            '\n',
            '\n',
        ]
    } else {
        seq![]
    }
}

/// The first line of a diagnostic that points at `span`.
pub open spec fn headline(note: bool, span: Span<()>, message: Seq<char>) -> Seq<char> {
    label(note) + seq![':', ' '] + decimal(span.start.line as nat) + seq![':'] + decimal(
        span.start.col as nat,
    ) + seq![':', ' '] + message + seq!['\n']
}

/// The text of one diagnostic, quoting from `source`.
pub open spec fn diagnostic_text(source: Seq<char>, d: Diagnostic) -> Seq<char> {
    match d.1 {
        Some(span) => headline(d.0, span, d.2) + quote_block(source, span),
        None => label(d.0) + seq![':', ' '] + d.2 + seq!['\n'],
    }
}

/// The text of the diagnostics `ds`, one after another, quoting from `source`.
pub open spec fn rendered(source: Seq<char>, ds: Seq<Diagnostic>) -> Seq<char>
    decreases ds.len(),
{
    if ds.len() == 0 {
        seq![]
    } else {
        rendered(source, ds.drop_last()) + diagnostic_text(source, ds.last())
    }
}

/// Receives diagnostics one at a time.
pub trait ErrorWriter {
    /// Whether the writer is ready to take diagnostics.
    spec fn inv(&self) -> bool;

    /// The diagnostics received so far, in order.
    spec fn written(&self) -> Seq<Diagnostic>;

    /// The source text that the diagnostics quote.
    spec fn source(&self) -> Seq<char>;

    /// Reports an error, pointing at `span` when there is one.
    fn error(&mut self, span: Option<Span<()>>, message: &str)
        requires
            old(self).inv(),
        ensures
            final(self).inv(),
            final(self).source() == old(self).source(),
            final(self).written() == old(self).written().push((false, span, message@)),
    ;

    /// Adds a note that points at `span`.
    fn note(&mut self, span: Span<()>, message: &str)
        requires
            old(self).inv(),
        ensures
            final(self).inv(),
            final(self).source() == old(self).source(),
            final(self).written() == old(self).written().push((true, Some(span), message@)),
    ;
}

/// An error that can describe itself as diagnostics.
pub trait ErrorProvider {
    /// The diagnostics that describe this error, in order. A verified
    /// error gives its own.
    open spec fn diagnostics(&self) -> Seq<Diagnostic> {
        Seq::empty()
    }

    /// Hands this error's diagnostics to `writer`, in order.
    fn write_errors<W: ErrorWriter>(&self, writer: &mut W)
        requires
            old(writer).inv(),
        ensures
            final(writer).inv(),
            final(writer).source() == old(writer).source(),
            final(writer).written() == old(writer).written() + self.diagnostics(),
    ;
}

/// Appends `s` to `out`.
fn push_str(out: &mut String, s: &str)
    ensures
        final(out)@ == old(out)@ + s@,
{
    out.append(s);
}

/// Appends the decimal digit `d` to `out`.
fn push_digit(out: &mut String, d: usize)
    requires
        d < 10,
    ensures
        final(out)@ == old(out)@.push(digit_char(d as nat)),
{
    let s = if d == 0 {
        "0"
    } else if d == 1 {
        "1"
    } else if d == 2 {
        "2"
    } else if d == 3 {
        "3"
    } else if d == 4 {
        "4"
    } else if d == 5 {
        "5"
    } else if d == 6 {
        "6"
    } else if d == 7 {
        "7"
    } else if d == 8 {
        "8"
    } else {
        "9"
    };
    proof {
        reveal_strlit("0");
        reveal_strlit("1");
        reveal_strlit("2");
        reveal_strlit("3");
        reveal_strlit("4");
        reveal_strlit("5");
        reveal_strlit("6");
        reveal_strlit("7");
        reveal_strlit("8");
        reveal_strlit("9");
    }
    push_str(out, s);
    assert(final(out)@ =~= old(out)@.push(digit_char(d as nat)));
}

/// Appends `n` in decimal to `out`.
fn push_decimal(out: &mut String, n: usize)
    ensures
        final(out)@ == old(out)@ + decimal(n as nat),
    decreases n,
{
    if n < 10 {
        push_digit(out, n);
        assert(final(out)@ =~= old(out)@ + decimal(n as nat));
    } else {
        push_decimal(out, n / 10);
        push_digit(out, n % 10);
        assert(final(out)@ =~= old(out)@ + decimal(n as nat));
    }
}

/// Appends `n` copies of the one-character text `s` to `out`.
fn push_repeated(out: &mut String, s: &str, n: usize)
    requires
        s@.len() == 1,
    ensures
        final(out)@ == old(out)@ + repeated(s@[0], n as int),
{
    let ghost start = out@;
    let mut i: usize = 0;
    while i < n
        invariant
            s@.len() == 1,
            i <= n,
            out@ == start + repeated(s@[0], i as int),
        decreases n - i,
    {
        push_str(out, s);
        i = i + 1;
        assert(out@ =~= start + repeated(s@[0], i as int));
    }
}

/// Writes diagnostics as text, quoting lines of a source text.
pub struct PackagedErrorWriter<'ctx> {
    context: &'ctx ErrorContext,
    out: String,
    log: Ghost<Seq<Diagnostic>>,
}

impl<'ctx> PackagedErrorWriter<'ctx> {
    /// The text written so far.
    pub closed spec fn text(&self) -> Seq<char> {
        self.out@
    }

    /// The text written is that of the diagnostics received, in order.
    pub closed spec fn wf(&self) -> bool {
        &&& self.out@ == rendered(self.context@, self.log@)
    }

    /// A writer that has written nothing yet.
    pub fn new(context: &'ctx ErrorContext) -> (r: PackagedErrorWriter<'ctx>)
        ensures
            r.inv(),
            r.source() == context@,
            r.written() == Seq::<Diagnostic>::empty(),
    {
        PackagedErrorWriter { context, out: String::new(), log: Ghost(Seq::empty()) }
    }

    /// The text written, once writing is done.
    pub fn into_text(self) -> (r: String)
        requires
            self.inv(),
        ensures
            r@ == rendered(self.source(), self.written()),
    {
        self.out
    }

    /// Quotes the source under a range that lies on one line.
    fn write_span(&mut self, span: Span<()>)
        ensures
            final(self).context == old(self).context,
            final(self).log == old(self).log,
            final(self).out@ == old(self).out@ + quote_block(old(self).context@, span),
    {
        if span.start.line == span.end.line {
            let text = match self.context.line(span.start.line) {
                Some(t) => t,
                None => String::new(),
            };
            proof {
                reveal_strlit("\n\t> ");
            }
            push_str(&mut self.out, "\n\t> ");
            push_str(&mut self.out, text.as_str());
            push_str(&mut self.out, "\n\t> ");
            proof {
                reveal_strlit(" ");
                reveal_strlit("^");
            }
            push_repeated(&mut self.out, " ", span.start.col);
            let width: usize = if span.end.col > span.start.col {
                span.end.col - span.start.col
            } else {
                0
            };
            push_repeated(&mut self.out, "^", width);
            proof {
                reveal_strlit("\n\n");
            }
            push_str(&mut self.out, "\n\n");
            assert(self.out@ =~= old(self).out@ + quote_block(old(self).context@, span));
        } else {
            assert(self.out@ =~= old(self).out@ + quote_block(old(self).context@, span));
        }
    }

    /// Writes the first line of a diagnostic that points at `span`.
    fn write_headline(&mut self, note: bool, span: Span<()>, message: &str)
        ensures
            final(self).context == old(self).context,
            final(self).log == old(self).log,
            final(self).out@ == old(self).out@ + headline(note, span, message@),
    {
        proof {
            reveal_strlit("note: ");
            reveal_strlit("error: ");
            reveal_strlit(":");
            reveal_strlit(": ");
            reveal_strlit("\n");
        }
        if note {
            push_str(&mut self.out, "note: ");
        } else {
            push_str(&mut self.out, "error: ");
        }
        push_decimal(&mut self.out, span.start.line);
        push_str(&mut self.out, ":");
        push_decimal(&mut self.out, span.start.col);
        push_str(&mut self.out, ": ");
        push_str(&mut self.out, message);
        push_str(&mut self.out, "\n");
        assert(self.out@ =~= old(self).out@ + headline(note, span, message@));
    }

    /// Writes an error that points at no range.
    fn unspanned_error(&mut self, message: &str)
        ensures
            final(self).context == old(self).context,
            final(self).log == old(self).log,
            final(self).out@ == old(self).out@ + diagnostic_text(
                old(self).context@,
                (false, None, message@),
            ),
    {
        proof {
            reveal_strlit("error: ");
            reveal_strlit("\n");
        }
        push_str(&mut self.out, "error: ");
        push_str(&mut self.out, message);
        push_str(&mut self.out, "\n");
        assert(self.out@ =~= old(self).out@ + diagnostic_text(
            old(self).context@,
            (false, None, message@),
        ));
    }

    /// Writes a diagnostic that points at `span`.
    fn spanned(&mut self, note: bool, span: Span<()>, message: &str)
        ensures
            final(self).context == old(self).context,
            final(self).log == old(self).log,
            final(self).out@ == old(self).out@ + diagnostic_text(
                old(self).context@,
                (note, Some(span), message@),
            ),
    {
        self.write_headline(note, span, message);
        self.write_span(span);
        assert(self.out@ =~= old(self).out@ + diagnostic_text(
            old(self).context@,
            (note, Some(span), message@),
        ));
    }

    /// Writes an error that points at `span`.
    fn spanned_error(&mut self, span: Span<()>, message: &str)
        ensures
            final(self).context == old(self).context,
            final(self).log == old(self).log,
            final(self).out@ == old(self).out@ + diagnostic_text(
                old(self).context@,
                (false, Some(span), message@),
            ),
    {
        self.spanned(false, span, message);
    }
}

impl<'ctx> ErrorWriter for PackagedErrorWriter<'ctx> {
    closed spec fn inv(&self) -> bool {
        self.wf()
    }

    closed spec fn written(&self) -> Seq<Diagnostic> {
        self.log@
    }

    closed spec fn source(&self) -> Seq<char> {
        self.context@
    }

    fn error(&mut self, span: Option<Span<()>>, message: &str) {
        match span {
            Some(span) => self.spanned_error(span, message),
            None => self.unspanned_error(message),
        }
        proof {
            assert(self.log@.push((false, span, message@)).drop_last() =~= self.log@);
        }
        self.log = Ghost(self.log@.push((false, span, message@)));
    }

    fn note(&mut self, span: Span<()>, message: &str) {
        self.spanned(true, span, message);
        proof {
            assert(self.log@.push((true, Some(span), message@)).drop_last() =~= self.log@);
        }
        self.log = Ghost(self.log@.push((true, Some(span), message@)));
    }
}

/// An error bound to the source text it was found in, so that it can be
/// rendered later, quoting that text. Several errors may share one context.
pub struct PackagedError<E: ErrorProvider> {
    context: Arc<ErrorContext>,
    provider: E,
}

impl<E: ErrorProvider> PackagedError<E> {
    /// The source text that the error quotes.
    pub closed spec fn source(&self) -> Seq<char> {
        (*self.context)@
    }

    /// The error itself.
    pub closed spec fn provider(&self) -> E {
        self.provider
    }

    /// Binds `provider` to the source text in `context`.
    pub fn new(context: Arc<ErrorContext>, provider: E) -> (r: PackagedError<E>)
        ensures
            r.source() == (*context)@,
            r.provider() == provider,
    {
        PackagedError { context, provider }
    }

    /// The error's diagnostics as text, quoting the source.
    pub fn render(&self) -> (r: String)
        ensures
            r@ == rendered(self.source(), self.provider().diagnostics()),
    {
        let mut writer = PackagedErrorWriter::new(&*self.context);
        self.provider.write_errors(&mut writer);
        assert(writer.written() =~= self.provider.diagnostics());
        assert(writer.source() == self.source());
        let r = writer.into_text();
        r
    }
}

} // verus!
