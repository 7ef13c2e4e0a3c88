//! The source text that diagnostics quote from, looked up line by line.
use vstd::prelude::*;
use vstd::string::StrSliceExecFns;

use crate::reader::{first_line, lemma_line_break, line_break, text_chars};

verus! {

/// The content of the line numbered `n` of `s` (from 0), as the reader
/// sees it (see `first_line`): without its `'\n'`, and without the `'\r'`
/// of a closing `"\r\n"`. `None` when `s` has no such line: a text of
/// length 0 has no line, and a text that ends in `'\n'` has no line after it.
pub open spec fn nth_line(s: Seq<char>, n: nat) -> Option<Seq<char>>
    decreases s.len(),
{
    if s.len() == 0 {
        None
    } else if n == 0 {
        Some(first_line(s))
    } else if line_break(s) < s.len() {
        nth_line(s.subrange(line_break(s) + 1 as int, s.len() as int), (n - 1) as nat)
    } else {
        None
    }
}

/// The text that a diagnostic quotes for line `n` of `s`: the line's
/// content, or nothing past the last line.
pub open spec fn quoted_line(s: Seq<char>, n: nat) -> Seq<char> {
    match nth_line(s, n) {
        Some(l) => l,
        None => seq![],
    }
}

/// A source text kept for quoting lines in diagnostics. It never changes,
/// so any number of diagnostics can share one and read it in turn. A
/// lookup scans the text from its start, each time.
pub struct ErrorContext {
    text: String,
}

impl View for ErrorContext {
    type V = Seq<char>;

    closed spec fn view(&self) -> Seq<char> {
        self.text@
    }
}

impl ErrorContext {
    /// A context over the text `source`.
    pub fn with_str(source: &str) -> (r: ErrorContext)
        ensures
            r@ == source@,
    {
        ErrorContext { text: String::from_str(source) }
    }

    /// The content of line `line` of the text (from 0), without its line
    /// terminator; `None` when the text has no such line.
    pub fn line(&self, line: usize) -> (r: Option<String>)
        ensures
            match nth_line(self@, line as nat) {
                Some(l) => r is Some && r->Some_0@ == l,
                None => r is None,
            },
    {
        let chars = text_chars(self.text.as_str());
        let n = chars.len();
        let mut pos: usize = 0;
        let mut k: usize = 0;
        proof {
            assert(self@.subrange(0, n as int) =~= self@);
        }
        while k < line
            invariant
                chars@ == self@,
                n == self@.len(),
                pos <= n,
                k <= line,
                nth_line(self@, line as nat) == nth_line(self@.subrange(pos as int, n as int), (line - k) as nat),
            decreases line - k,
        {
            let ghost rest = self@.subrange(pos as int, n as int);
            if pos == n {
                return None;
            }
            let mut e: usize = pos;
            while e < n && chars[e] != '\n'
                invariant
                    chars@ == self@,
                    n == self@.len(),
                    pos <= e <= n,
                    forall|j: int| pos <= j < e ==> self@[j] != '\n',
                decreases n - e,
            {
                e = e + 1;
            }
            proof {
                lemma_line_break(rest, (e - pos) as int);
            }
            if e == n {
                return None;
            }
            proof {
                assert(rest.subrange((e - pos) + 1, rest.len() as int) =~= self@.subrange(e + 1, n as int));
            }
            pos = e + 1;
            k = k + 1;
        }
        let ghost rest = self@.subrange(pos as int, n as int);
        if pos == n {
            return None;
        }
        let mut e: usize = pos;
        while e < n && chars[e] != '\n'
            invariant
                chars@ == self@,
                n == self@.len(),
                pos <= e <= n,
                forall|j: int| pos <= j < e ==> self@[j] != '\n',
            decreases n - e,
        {
            e = e + 1;
        }
        let mut t: usize = e;
        if e < n && t > pos && chars[t - 1] == '\r' {
            t = t - 1;
        }
        proof {
            lemma_line_break(rest, (e - pos) as int);
            let l = rest.subrange(0, (e - pos) as int);
            assert(l.subrange(0, (t - pos) as int) =~= self@.subrange(pos as int, t as int));
            if e == n {
                assert(l =~= rest);
            }
            assert(first_line(rest) =~= self@.subrange(pos as int, t as int));
        }
        let piece = self.text.as_str().substring_char(pos, t);
        Some(String::from_str(piece))
    }
}

} // verus!
