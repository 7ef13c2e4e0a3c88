//! The character reader: turns a source text into one position-tagged
//! character at a time, line by line, with a peek/consume protocol.
use vstd::prelude::*;
use vstd::std_specs::iter::IteratorSpec;
use vstd::string::StrSliceExecFns;

use crate::lexer::LexerState;
use crate::span::{Location, Span};

verus! {

/// What a consumer of characters asks for after seeing one.
#[derive(Debug, Clone, Copy, PartialEq, Eq, Structural)]
pub enum Continuation {
    /// Accept the character and move on to the next one.
    Consume,
    /// Offer the same character again, without moving.
    Peek,
}

/// Index of the first `'\n'` in `s`, or `s.len()` when there is none.
pub open spec fn line_break(s: Seq<char>) -> nat
    decreases s.len(),
{
    if s.len() == 0 {
        0
    } else if s[0] == '\n' {
        0
    } else {
        1 + line_break(s.drop_first())
    }
}

/// `s` less one carriage return at its end, if it ends with one.
pub open spec fn drop_cr(s: Seq<char>) -> Seq<char> {
    if s.len() > 0 && s.last() == '\r' {
        s.drop_last()
    } else {
        s
    }
}

/// The content of the first line of `s`: the characters before its first
/// `'\n'`, less the `'\r'` of a `"\r\n"` that closes it. A line that no
/// `'\n'` closes keeps all its characters.
pub open spec fn first_line(s: Seq<char>) -> Seq<char> {
    let n = line_break(s);
    if n < s.len() {
        drop_cr(s.subrange(0, n as int))
    } else {
        s
    }
}

/// The characters of one line at `line`, as (line, column, character),
/// followed by the newline that closes it.
pub open spec fn line_positions(content: Seq<char>, line: int) -> Seq<(int, int, char)> {
    Seq::new(
        content.len() + 1,
        |i: int| (line, i, if i < content.len() { content[i] } else { '\n' }),
    )
}

/// The characters that the reader reports for `s`, when its first line is
/// numbered `line`: for each line, its content (see `first_line`), then
/// one `'\n'`.
pub open spec fn positions_from(s: Seq<char>, line: int) -> Seq<(int, int, char)>
    decreases s.len(),
{
    if s.len() == 0 {
        seq![]
    } else {
        let n = line_break(s);
        let here = line_positions(first_line(s), line);
        if n < s.len() {
            here + positions_from(s.subrange(n + 1 as int, s.len() as int), line + 1)
        } else {
            here
        }
    }
}

/// The characters that the reader reports for the text `s`.
pub open spec fn char_positions(s: Seq<char>) -> Seq<(int, int, char)> {
    positions_from(s, 0)
}

/// `sp` covers the one column at `p`'s line and column and carries `p`'s character.
pub open spec fn span_at(sp: Span<char>, p: (int, int, char)) -> bool {
    &&& sp.start.line == p.0
    &&& sp.start.col == p.1
    &&& sp.end.line == p.0
    &&& sp.end.col == p.1 + 1
    &&& sp.data == p.2
}

/// The spans `v` are, one by one, the positions `m`.
pub open spec fn spans_match(v: Seq<Span<char>>, m: Seq<(int, int, char)>) -> bool {
    &&& v.len() == m.len()
    &&& forall|i: int| 0 <= i < v.len() ==> #[trigger] span_at(v[i], m[i])
}

pub(crate) proof fn lemma_line_break(s: Seq<char>, k: int)
    requires
        0 <= k <= s.len(),
        forall|j: int| 0 <= j < k ==> s[j] != '\n',
        k == s.len() || s[k] == '\n',
    ensures
        line_break(s) == k,
    decreases s.len(),
{
    if s.len() > 0 && k > 0 {
        lemma_line_break(s.drop_first(), k - 1);
    }
}

proof fn lemma_line_break_bound(s: Seq<char>)
    ensures
        line_break(s) <= s.len(),
        line_break(s) < s.len() ==> s[line_break(s) as int] == '\n',
        forall|j: int| 0 <= j < line_break(s) ==> s[j] != '\n',
    decreases s.len(),
{
    if s.len() > 0 && s[0] != '\n' {
        lemma_line_break_bound(s.drop_first());
        assert forall|j: int| 0 <= j < line_break(s) implies s[j] != '\n' by {
            if j > 0 {
                assert(s[j] == s.drop_first()[j - 1]);
            }
        }
    }
}

/// How many `"\r\n"` pairs `s` holds.
pub open spec fn crlf_count(s: Seq<char>) -> nat
    decreases s.len(),
{
    if s.len() < 2 {
        0
    } else {
        (if s[0] == '\r' && s[1] == '\n' { 1nat } else { 0nat }) + crlf_count(s.drop_first())
    }
}

/// Whether the last line of `s` lacks a closing `'\n'`.
pub open spec fn unterminated(s: Seq<char>) -> bool {
    s.len() > 0 && s.last() != '\n'
}

proof fn lemma_crlf_concat(a: Seq<char>, b: Seq<char>)
    ensures
        crlf_count(a + b) == crlf_count(a) + crlf_count(b) + if a.len() > 0 && b.len() > 0 && a.last()
            == '\r' && b[0] == '\n' {
            1nat
        } else {
            0nat
        },
    decreases a.len(),
{
    if a.len() == 0 {
        assert(a + b =~= b);
    } else {
        assert((a + b).drop_first() =~= a.drop_first() + b);
        lemma_crlf_concat(a.drop_first(), b);
        if a.len() == 1 {
            assert(a.drop_first() + b =~= b);
        } else {
            assert(a.drop_first().last() == a.last());
        }
    }
}

proof fn lemma_crlf_no_break(s: Seq<char>)
    requires
        forall|j: int| 0 <= j < s.len() ==> s[j] != '\n',
    ensures
        crlf_count(s) == 0,
    decreases s.len(),
{
    if s.len() >= 2 {
        assert(s[1] != '\n');
        lemma_crlf_no_break(s.drop_first());
    }
}

proof fn lemma_count_from(s: Seq<char>, line: int)
    ensures
        positions_from(s, line).len() + crlf_count(s) == s.len() + if unterminated(s) { 1int } else { 0int },
    decreases s.len(),
{
    if s.len() > 0 {
        let n = line_break(s);
        lemma_line_break_bound(s);
        if n < s.len() {
            let rest = s.subrange(n + 1 as int, s.len() as int);
            let head = s.subrange(0, n as int);
            lemma_count_from(rest, line + 1);
            if rest.len() > 0 {
                assert(rest.last() == s.last());
            }
            lemma_crlf_no_break(head);
            let closed = s.subrange(0, n + 1 as int);
            assert(closed =~= head + seq!['\n']);
            lemma_crlf_concat(head, seq!['\n']);
            assert(s =~= closed + rest);
            lemma_crlf_concat(closed, rest);
            assert(crlf_count(seq!['\n']) == 0);
        } else {
            assert(s.subrange(0, n as int) =~= s);
            lemma_crlf_no_break(s);
        }
    }
}

/// The reader reports every character of a text but its line
/// terminators, plus one newline for each line: so as many spans as the
/// text has characters, less one for each `"\r\n"` pair, plus one for a
/// last line that lacks its `'\n'`. Nothing for an empty text.
pub proof fn lemma_span_count(s: Seq<char>)
    ensures
        char_positions(s).len() == s.len() - crlf_count(s) + if unterminated(s) { 1int } else { 0int },
{
    lemma_count_from(s, 0);
}

/// Positions `m` start at column 0 of `line`, and each next one is either
/// one column to the right on the same line, or, right after a newline,
/// column 0 of the following line.
pub open spec fn counts_columns(m: Seq<(int, int, char)>, line: int) -> bool {
    &&& m.len() > 0 ==> m[0].0 == line && m[0].1 == 0
    &&& forall|k: int|
        0 < k < m.len() ==> {
            ||| (#[trigger] m[k]).0 == m[k - 1].0 && m[k].1 == m[k - 1].1 + 1
            ||| m[k].0 == m[k - 1].0 + 1 && m[k].1 == 0 && m[k - 1].2 == '\n'
        }
}

proof fn lemma_columns_from(s: Seq<char>, line: int)
    ensures
        counts_columns(positions_from(s, line), line),
    decreases s.len(),
{
    if s.len() > 0 {
        let n = line_break(s);
        lemma_line_break_bound(s);
        let here = line_positions(first_line(s), line);
        if n < s.len() {
            let rest = s.subrange(n + 1 as int, s.len() as int);
            lemma_columns_from(rest, line + 1);
            let m = positions_from(s, line);
            let r = positions_from(rest, line + 1);
            assert(m == here + r);
            assert forall|k: int| 0 < k < m.len() implies {
                ||| (#[trigger] m[k]).0 == m[k - 1].0 && m[k].1 == m[k - 1].1 + 1
                ||| m[k].0 == m[k - 1].0 + 1 && m[k].1 == 0 && m[k - 1].2 == '\n'
            } by {
                if k > here.len() {
                    assert(m[k] == r[k - here.len()]);
                    assert(m[k - 1] == r[k - 1 - here.len()]);
                }
            }
        }
    }
}

/// In positions `m` obeying `counts_columns`, the entry at `k` has as its
/// column the number of entries before it on its line: the `m[k].1`
/// entries right before it share its line, the one before those (if any)
/// lies on an earlier line, and no entry before `k` lies on a later one.
pub open spec fn column_is_rank(m: Seq<(int, int, char)>, k: int) -> bool {
    &&& 0 <= m[k].1 <= k
    &&& forall|j: int| k - m[k].1 <= j <= k ==> (#[trigger] m[j]).0 == m[k].0
    &&& m[k].1 < k ==> m[k - m[k].1 - 1].0 < m[k].0
    &&& forall|j: int| 0 <= j <= k ==> (#[trigger] m[j]).0 <= m[k].0
}

proof fn lemma_rank_at(m: Seq<(int, int, char)>, line: int, k: int)
    requires
        counts_columns(m, line),
        0 <= k < m.len(),
    ensures
        column_is_rank(m, k),
    decreases k,
{
    if k > 0 {
        lemma_rank_at(m, line, k - 1);
        assert(m[k] == m[k]);
        if m[k].0 == m[k - 1].0 && m[k].1 == m[k - 1].1 + 1 {
            assert forall|j: int| k - m[k].1 <= j <= k implies (#[trigger] m[j]).0 == m[k].0 by {
                if j < k {
                    assert(k - 1 - m[k - 1].1 <= j <= k - 1);
                }
            }
        }
    }
}

/// Columns count characters: the i-th character of a line sits at column
/// i, however many bytes encode it. Each next position is one column to
/// the right, or column 0 of the following line, and every position's
/// column is the number of positions before it on its line.
pub proof fn lemma_columns_count_characters(s: Seq<char>)
    ensures
        counts_columns(char_positions(s), 0),
        forall|k: int| 0 <= k < char_positions(s).len() ==> #[trigger] column_is_rank(char_positions(s), k),
{
    lemma_columns_from(s, 0);
    assert forall|k: int| 0 <= k < char_positions(s).len() implies #[trigger] column_is_rank(char_positions(s), k) by {
        lemma_rank_at(char_positions(s), 0, k);
    }
}

/// `m` moved down by `lines` lines, with the positions on its line 0 also
/// moved right by `cols` columns.
pub open spec fn shifted(m: Seq<(int, int, char)>, lines: int, cols: int) -> Seq<(int, int, char)> {
    Seq::new(
        m.len(),
        |i: int| (m[i].0 + lines, if m[i].0 == 0 { m[i].1 + cols } else { m[i].1 }, m[i].2),
    )
}

/// What reading `a` and then `b` as one text gives, put together from
/// reading each alone. `b`'s positions move past the newline that closes
/// `a`: below it when `a` ends with `'\n'`; else `b`'s first line
/// continues `a`'s last line from that newline's column, and the newline
/// itself drops out.
pub open spec fn joined(a: Seq<char>, b: Seq<char>) -> Seq<(int, int, char)> {
    let pa = char_positions(a);
    if a.len() == 0 {
        char_positions(b)
    } else if a.last() == '\n' {
        pa + shifted(char_positions(b), pa.last().0 + 1, 0)
    } else {
        pa.drop_last() + shifted(char_positions(b), pa.last().0, pa.last().1)
    }
}

/// `m` with the positions on `line` moved right by `cols` columns.
spec fn move_line(m: Seq<(int, int, char)>, line: int, cols: int) -> Seq<(int, int, char)> {
    Seq::new(
        m.len(),
        |i: int| (m[i].0, if m[i].0 == line { m[i].1 + cols } else { m[i].1 }, m[i].2),
    )
}

spec fn joined_from(a: Seq<char>, b: Seq<char>, line: int) -> Seq<(int, int, char)> {
    let pa = positions_from(a, line);
    if a.len() == 0 {
        positions_from(b, line)
    } else if a.last() == '\n' {
        pa + positions_from(b, pa.last().0 + 1)
    } else {
        pa.drop_last() + move_line(positions_from(b, pa.last().0), pa.last().0, pa.last().1)
    }
}

proof fn lemma_shift_lines(s: Seq<char>, line: int, k: int)
    ensures
        positions_from(s, line + k) == shifted(positions_from(s, line), k, 0),
    decreases s.len(),
{
    if s.len() > 0 {
        let n = line_break(s);
        lemma_line_break_bound(s);
        let c = first_line(s);
        assert(line_positions(c, line + k) =~= shifted(line_positions(c, line), k, 0));
        if n < s.len() {
            let rest = s.subrange(n + 1 as int, s.len() as int);
            lemma_shift_lines(rest, line + 1, k);
            assert(line + k + 1 == line + 1 + k);
            assert(shifted(line_positions(c, line) + positions_from(rest, line + 1), k, 0)
                =~= shifted(line_positions(c, line), k, 0) + shifted(positions_from(rest, line + 1), k, 0));
        }
    } else {
        assert(shifted(positions_from(s, line), k, 0) =~= Seq::<(int, int, char)>::empty());
    }
}

proof fn lemma_lines_at_least(s: Seq<char>, line: int)
    ensures
        forall|i: int| 0 <= i < positions_from(s, line).len() ==> #[trigger] positions_from(s, line)[i].0 >= line,
    decreases s.len(),
{
    if s.len() > 0 {
        let n = line_break(s);
        lemma_line_break_bound(s);
        let here = line_positions(first_line(s), line);
        if n < s.len() {
            let rest = s.subrange(n + 1 as int, s.len() as int);
            lemma_lines_at_least(rest, line + 1);
            let m = positions_from(s, line);
            assert forall|i: int| 0 <= i < m.len() implies #[trigger] m[i].0 >= line by {
                if i >= here.len() {
                    assert(m[i] == positions_from(rest, line + 1)[i - here.len()]);
                }
            }
        }
    }
}

#[verifier::rlimit(40)]
proof fn lemma_concat_from(a: Seq<char>, b: Seq<char>, line: int)
    requires
        b.len() > 0,
        !(a.len() > 0 && a.last() == '\r' && b[0] == '\n'),
    ensures
        positions_from(a + b, line) == joined_from(a, b, line),
    decreases a.len(),
{
    let ab = a + b;
    if a.len() == 0 {
        assert(ab =~= b);
    } else {
        lemma_line_break_bound(a);
        let n = line_break(a);
        if n < a.len() {
            lemma_line_break(ab, n as int);
            assert(ab.subrange(0, n as int) =~= a.subrange(0, n as int));
            let a2 = a.subrange(n + 1 as int, a.len() as int);
            assert(ab.subrange(n + 1 as int, ab.len() as int) =~= a2 + b);
            if a2.len() > 0 {
                assert(a2.last() == a.last());
            }
            lemma_concat_from(a2, b, line + 1);
            assert(first_line(ab) == first_line(a));
            let here = line_positions(first_line(a), line);
            assert(positions_from(ab, line) == here + positions_from(a2 + b, line + 1));
            assert(positions_from(a, line) == here + positions_from(a2, line + 1));
            if a2.len() == 0 {
                assert(a.last() == '\n');
                assert(a2 + b =~= b);
                assert(here + positions_from(a2, line + 1) =~= here);
            } else {
                let pa2 = positions_from(a2, line + 1);
                assert(pa2.len() > 0);
                assert((here + pa2).last() == pa2.last());
                if a.last() == '\n' {
                    assert(positions_from(ab, line) =~= joined_from(a, b, line));
                } else {
                    assert((here + pa2).drop_last() =~= here + pa2.drop_last());
                    assert(positions_from(ab, line) =~= joined_from(a, b, line));
                }
            }
        } else {
            let pa = line_positions(a, line);
            assert(positions_from(a, line) == pa);
            lemma_line_break_bound(b);
            let m = line_break(b) as int;
            assert forall|j: int| 0 <= j < a.len() + m implies ab[j] != '\n' by {
                if j >= a.len() {
                    assert(ab[j] == b[j - a.len()]);
                }
            }
            if m < b.len() {
                assert(ab[a.len() + m] == b[m]);
            }
            lemma_line_break(ab, a.len() + m);
            let b0 = b.subrange(0, m as int);
            assert(ab.subrange(0, a.len() + m) =~= a + b0);
            let c = first_line(b);
            if m < b.len() {
                if b0.len() > 0 {
                    assert((a + b0).last() == b0.last());
                    assert((a + b0).drop_last() =~= a + b0.drop_last());
                } else {
                    assert(a + b0 =~= a);
                }
                assert(drop_cr(a + b0) =~= a + c);
                assert(first_line(ab) == a + c);
            } else {
                assert(b0 =~= b);
                assert(first_line(ab) == a + c);
            }
            let hb = line_positions(c, line);
            assert(line_positions(a + c, line) =~= pa.drop_last() + move_line(hb, line, a.len() as int));
            if m < b.len() {
                let rest = b.subrange(m + 1 as int, b.len() as int);
                assert(ab.subrange(a.len() + m + 1, ab.len() as int) =~= rest);
                lemma_lines_at_least(rest, line + 1);
                let pr = positions_from(rest, line + 1);
                assert(move_line(hb + pr, line, a.len() as int) =~= move_line(hb, line, a.len() as int) + pr);
                assert(positions_from(ab, line) =~= joined_from(a, b, line));
            } else {
                assert(positions_from(ab, line) =~= joined_from(a, b, line));
            }
        }
    }
}

/// Reading is compositional: reading `a` and then `b` as one text gives
/// `joined(a, b)`, the positions of each read alone, with `b`'s moved past
/// `a`'s. It holds whenever `b` is not empty, unless `a` ends with `'\r'`
/// and `b` starts with `'\n'`: joined, those two make one `"\r\n"` line end.
pub proof fn lemma_concatenation(a: Seq<char>, b: Seq<char>)
    requires
        b.len() > 0,
        !(a.len() > 0 && a.last() == '\r' && b[0] == '\n'),
    ensures
        char_positions(a + b) == joined(a, b),
{
    lemma_concat_from(a, b, 0);
    if a.len() > 0 {
        let pa = char_positions(a);
        assert(pa.len() > 0);
        let pb = char_positions(b);
        if a.last() == '\n' {
            lemma_shift_lines(b, 0, pa.last().0 + 1);
        } else {
            let k = pa.last().0;
            lemma_shift_lines(b, 0, k);
            assert(move_line(shifted(pb, k, 0), k, pa.last().1) =~= shifted(pb, k, pa.last().1));
        }
    }
}

/// The span that covers the one column at `p`'s line and column and
/// carries `p`'s character.
pub open spec fn span_for(p: (int, int, char)) -> Span<char> {
    Span {
        start: Location { line: p.0 as usize, col: p.1 as usize },
        end: Location { line: p.0 as usize, col: (p.1 + 1) as usize },
        data: p.2,
    }
}

/// The spans that a reader offers for the text `s`: one for each of
/// `char_positions(s)`.
pub open spec fn text_spans(s: Seq<char>) -> Seq<Span<char>> {
    Seq::new(char_positions(s).len(), |i: int| span_for(char_positions(s)[i]))
}

proof fn lemma_bounds(s: Seq<char>, line: int)
    requires
        line >= 0,
    ensures
        forall|i: int|
            0 <= i < positions_from(s, line).len() ==> line <= (#[trigger] positions_from(s, line)[i]).0
                <= line + s.len() && 0 <= positions_from(s, line)[i].1 <= s.len(),
    decreases s.len(),
{
    if s.len() > 0 {
        let n = line_break(s);
        lemma_line_break_bound(s);
        let here = line_positions(first_line(s), line);
        assert(first_line(s).len() <= s.len());
        if n < s.len() {
            let rest = s.subrange(n + 1 as int, s.len() as int);
            lemma_bounds(rest, line + 1);
            let m = positions_from(s, line);
            assert forall|i: int| 0 <= i < m.len() implies line <= (#[trigger] m[i]).0 <= line + s.len()
                && 0 <= m[i].1 <= s.len() by {
                if i >= here.len() {
                    assert(m[i] == positions_from(rest, line + 1)[i - here.len()]);
                }
            }
        }
    }
}

/// For a text that fits, the reader's spans are exactly its positions.
proof fn lemma_text_spans(s: Seq<char>)
    requires
        s.len() < usize::MAX,
    ensures
        spans_match(text_spans(s), char_positions(s)),
{
    lemma_bounds(s, 0);
    let m = char_positions(s);
    assert forall|i: int| 0 <= i < m.len() implies #[trigger] span_at(text_spans(s)[i], m[i]) by {
        assert(m[i] == positions_from(s, 0)[i]);
    }
}

/// The concatenation law for the reader's spans: reading `a` and then
/// `b` as one text offers the spans of `joined(a, b)`, under the same
/// conditions as `lemma_concatenation`.
pub proof fn lemma_concatenation_spans(a: Seq<char>, b: Seq<char>)
    requires
        b.len() > 0,
        !(a.len() > 0 && a.last() == '\r' && b[0] == '\n'),
    ensures
        text_spans(a + b) == Seq::new(joined(a, b).len(), |i: int| span_for(joined(a, b)[i])),
{
    lemma_concatenation(a, b);
    assert(text_spans(a + b) =~= Seq::new(joined(a, b).len(), |i: int| span_for(joined(a, b)[i])));
}

/// Reads the characters of a text as position-tagged spans, one line at a
/// time, and offers them to a consumer. It holds the text and the spans of
/// the line on offer, no more.
pub struct CharReader {
    chars: Vec<char>,
    next_line: usize,
    line: usize,
    current: Vec<Span<char>>,
    idx: usize,
    done: Ghost<nat>,
}

impl CharReader {
    /// The spans that the reader offers, in order.
    pub closed spec fn spans(&self) -> Seq<Span<char>> {
        text_spans(self.chars@)
    }

    /// How many of them have been consumed.
    pub closed spec fn position(&self) -> nat {
        (self.done@ + self.idx) as nat
    }

    /// The line on offer holds the spans of the text from `done` on, and
    /// the text from `next_line` on holds the rest.
    pub closed spec fn wf(&self) -> bool {
        let n = self.chars@.len();
        let m = char_positions(self.chars@);
        &&& n < usize::MAX
        &&& self.next_line <= n
        &&& self.line <= self.next_line
        &&& self.idx <= self.current@.len()
        &&& self.done@ + self.current@.len() <= m.len()
        &&& spans_match(self.current@, m.subrange(self.done@ as int, (self.done@ + self.current@.len()) as int))
        &&& m.subrange((self.done@ + self.current@.len()) as int, m.len() as int) == positions_from(
            self.chars@.subrange(self.next_line as int, n as int),
            self.line as int,
        )
        &&& self.idx == self.current@.len() ==> self.next_line == n
    }

    proof fn lemma_on_offer(&self)
        requires
            self.wf(),
        ensures
            self.position() <= self.spans().len(),
            self.idx < self.current@.len() <==> self.position() < self.spans().len(),
            self.idx < self.current@.len() ==> self.current@[self.idx as int] == self.spans()[self.position() as int],
    {
        let n = self.chars@.len();
        let m = char_positions(self.chars@);
        if self.idx < self.current@.len() {
            let k = self.done@ + self.idx;
            assert(span_at(self.current@[self.idx as int], m.subrange(self.done@ as int, (self.done@ + self.current@.len()) as int)[self.idx as int]));
            assert(m.subrange(self.done@ as int, (self.done@ + self.current@.len()) as int)[self.idx as int] == m[k]);
        } else {
            assert(self.chars@.subrange(n as int, n as int) =~= Seq::<char>::empty());
            assert(m.subrange((self.done@ + self.current@.len()) as int, m.len() as int).len() == 0);
        }
    }
}

/// Where a reader stands after answering `c` at `next` of `len` spans.
pub open spec fn step(next: nat, len: nat, c: Continuation) -> nat {
    if c == Continuation::Consume && next < len {
        next + 1
    } else {
        next
    }
}

/// Where a reader stands after answering each of `cs` in turn.
pub open spec fn steps(next: nat, len: nat, cs: Seq<Continuation>) -> nat
    decreases cs.len(),
{
    if cs.len() == 0 {
        next
    } else {
        steps(step(next, len, cs[0]), len, cs.drop_first())
    }
}

/// How many of `cs` are `Consume`.
pub open spec fn consumes(cs: Seq<Continuation>) -> nat
    decreases cs.len(),
{
    if cs.len() == 0 {
        0
    } else {
        (if cs[0] == Continuation::Consume { 1nat } else { 0nat }) + consumes(cs.drop_first())
    }
}

/// Peeking never moves the reader, however often it is asked for: after
/// any answers, the reader has moved by exactly the number of `Consume`s
/// among them, stopping at the end of the text.
pub proof fn lemma_only_consume_advances(next: nat, len: nat, cs: Seq<Continuation>)
    requires
        next <= len,
    ensures
        steps(next, len, cs) == if next + consumes(cs) <= len { next + consumes(cs) } else { len },
        (forall|i: int| 0 <= i < cs.len() ==> cs[i] == Continuation::Peek) ==> steps(next, len, cs) == next,
    decreases cs.len(),
{
    if cs.len() > 0 {
        lemma_only_consume_advances(step(next, len, cs[0]), len, cs.drop_first());
        if forall|i: int| 0 <= i < cs.len() ==> cs[i] == Continuation::Peek {
            assert(cs[0] == Continuation::Peek);
            assert forall|i: int| 0 <= i < cs.drop_first().len() implies cs.drop_first()[i] == Continuation::Peek by {
                assert(cs.drop_first()[i] == cs[i + 1]);
            }
        }
    }
}

impl CharReader {
    /// A reader over the text `input`, at its first character.
    pub fn with_str(input: &str) -> (r: CharReader)
        requires
            input@.len() < usize::MAX,
        ensures
            r.wf(),
            r.position() == 0,
            r.spans() == text_spans(input@),
            spans_match(r.spans(), char_positions(input@)),
    {
        let chars = text_chars(input);
        let n = chars.len();
        proof {
            lemma_text_spans(input@);
            assert(chars@.subrange(0, n as int) =~= chars@);
        }
        if n == 0 {
            let r = CharReader {
                chars,
                next_line: 0,
                line: 0,
                current: Vec::new(),
                idx: 0,
                done: Ghost(0),
            };
            proof {
                assert(r.chars@ =~= Seq::<char>::empty());
                assert(r.chars@.subrange(0, 0) =~= Seq::<char>::empty());
                assert(char_positions(r.chars@).subrange(0, 0) =~= Seq::<(int, int, char)>::empty());
                assert(r.current@ =~= Seq::<Span<char>>::empty());
            }
            r
        } else {
            let (current, next_line) = line_spans(&chars, 0, 0);
            let r = CharReader { chars, next_line, line: 1, current, idx: 0, done: Ghost(0) };
            proof {
                let m = char_positions(r.chars@);
                let k = r.current@.len() as int;
                assert(m.subrange(0, k) =~= line_positions(first_line(r.chars@), 0));
                assert(m.subrange(k, m.len() as int) =~= positions_from(r.chars@.subrange(next_line as int, n as int), 1));
            }
            r
        }
    }

    /// The span on offer, if any is left.
    pub fn current(&self) -> (r: Option<Span<char>>)
        requires
            self.wf(),
        ensures
            r == if self.position() < self.spans().len() {
                Some(self.spans()[self.position() as int])
            } else {
                None::<Span<char>>
            },
    {
        proof {
            self.lemma_on_offer();
        }
        if self.idx < self.current.len() {
            Some(self.current[self.idx])
        } else {
            None
        }
    }

    /// The reader never stands past its last span.
    pub proof fn lemma_within(&self)
        requires
            self.wf(),
        ensures
            self.position() <= self.spans().len(),
    {
        self.lemma_on_offer();
    }

    /// Whether every span has been consumed.
    pub fn at_end(&self) -> (r: bool)
        requires
            self.wf(),
        ensures
            r == (self.position() >= self.spans().len()),
    {
        proof {
            self.lemma_on_offer();
        }
        self.idx >= self.current.len()
    }

    /// Takes the consumer's answer to the span on offer: `Consume` moves on
    /// to the next span, `Peek` keeps the same one on offer.
    pub fn respond(&mut self, c: Continuation)
        requires
            old(self).wf(),
        ensures
            final(self).wf(),
            final(self).spans() == old(self).spans(),
            final(self).position() == step(old(self).position(), old(self).spans().len(), c),
            c == Continuation::Peek ==> *final(self) == *old(self),
    {
        proof {
            self.lemma_on_offer();
        }
        if c == Continuation::Consume && self.idx < self.current.len() {
            self.idx = self.idx + 1;
            if self.idx == self.current.len() && self.next_line < self.chars.len() {
                let ghost m = char_positions(self.chars@);
                let ghost n = self.chars@.len();
                let ghost done = self.done@ + self.current@.len();
                let (current, next_line) = line_spans(&self.chars, self.next_line, self.line);
                proof {
                    let k = current@.len() as int;
                    let rest = positions_from(self.chars@.subrange(self.next_line as int, n as int), self.line as int);
                    let lp = line_positions(first_line(self.chars@.subrange(self.next_line as int, n as int)), self.line as int);
                    let tail = positions_from(self.chars@.subrange(next_line as int, n as int), self.line + 1);
                    assert(rest == lp + tail);
                    assert(k == lp.len());
                    assert(m.subrange(done as int, m.len() as int) == rest);
                    assert(m.len() == done + rest.len());
                    assert forall|i: int| 0 <= i < k implies m.subrange(done as int, done + k)[i] == lp[i] by {
                        assert(m.subrange(done as int, m.len() as int)[i] == m[done + i]);
                        assert(rest[i] == lp[i]);
                    }
                    assert(m.subrange(done as int, done + k) =~= lp);
                    assert forall|i: int| 0 <= i < tail.len() implies m.subrange(done + k, m.len() as int)[i] == tail[i] by {
                        assert(m.subrange(done as int, m.len() as int)[k + i] == m[done + k + i]);
                        assert(rest[k + i] == tail[i]);
                    }
                    assert(m.subrange(done + k, m.len() as int) =~= tail);
                }
                self.current = current;
                self.next_line = next_line;
                self.line = self.line + 1;
                self.idx = 0;
                self.done = Ghost(done);
            }
        }
    }

    /// Offers the spans not yet consumed to `state`, each until it is
    /// consumed, appending the tokens that it emits to `tokens`.
    pub fn read<S: LexerState>(self, state: &mut S, tokens: &mut Vec<Span<S::Token>>)
        requires
            self.wf(),
            old(state).pending() is None,
        ensures
            final(state).pending() is None,
            final(state).consumed() == old(state).consumed() + self.spans().subrange(
                self.position() as int,
                self.spans().len() as int,
            ),
            old(tokens)@.len() <= final(tokens)@.len(),
            final(tokens)@.subrange(0, old(tokens)@.len() as int) == old(tokens)@,
            final(state).emitted() == old(state).emitted() + final(tokens)@.subrange(
                old(tokens)@.len() as int,
                final(tokens)@.len() as int,
            ),
    {
        let mut reader = self;
        let ghost start = reader.position() as int;
        let ghost all = reader.spans();
        proof {
            reader.lemma_on_offer();
        }
        while reader.idx < reader.current.len()
            invariant
                reader.wf(),
                reader.spans() == all,
                0 <= start <= reader.position() <= all.len(),
                state.pending() is None || (reader.position() < all.len() && state.pending() == Some(
                    all[reader.position() as int],
                )),
                state.consumed() == old(state).consumed() + all.subrange(start, reader.position() as int),
                old(tokens)@.len() <= tokens@.len(),
                tokens@.subrange(0, old(tokens)@.len() as int) == old(tokens)@,
                state.emitted() == old(state).emitted() + tokens@.subrange(
                    old(tokens)@.len() as int,
                    tokens@.len() as int,
                ),
            decreases all.len() - reader.position(), state.lookahead(),
        {
            proof {
                reader.lemma_on_offer();
            }
            let ghost before = tokens@;
            let sp = reader.current[reader.idx];
            let ghost p = reader.position() as int;
            let c = state.process(sp, tokens);
            proof {
                let k = old(tokens)@.len() as int;
                assert(tokens@.subrange(k, tokens@.len() as int) =~= before.subrange(k, before.len() as int)
                    + tokens@.subrange(before.len() as int, tokens@.len() as int));
                assert(tokens@.subrange(0, old(tokens)@.len() as int) =~= before.subrange(0, old(tokens)@.len() as int));
                if c == Continuation::Consume {
                    assert(all.subrange(start, p + 1) =~= all.subrange(start, p).push(sp));
                }
            }
            reader.respond(c);
            proof {
                reader.lemma_on_offer();
            }
        }
        proof {
            reader.lemma_on_offer();
        }
    }

    /// The spans not yet consumed, in order.
    pub fn collect(self) -> (r: Vec<Span<char>>)
        requires
            self.wf(),
        ensures
            r@ == self.spans().subrange(self.position() as int, self.spans().len() as int),
    {
        let mut reader = self;
        let ghost start = reader.position() as int;
        let ghost all = reader.spans();
        let mut out: Vec<Span<char>> = Vec::new();
        proof {
            reader.lemma_on_offer();
        }
        while reader.idx < reader.current.len()
            invariant
                reader.wf(),
                reader.spans() == all,
                0 <= start <= reader.position() <= all.len(),
                out@ == all.subrange(start, reader.position() as int),
            decreases all.len() - reader.position(),
        {
            proof {
                reader.lemma_on_offer();
            }
            let ghost p = reader.position() as int;
            let sp = reader.current[reader.idx];
            out.push(sp);
            proof {
                assert(all.subrange(start, p + 1) =~= out@);
            }
            reader.respond(Continuation::Consume);
        }
        proof {
            reader.lemma_on_offer();
        }
        out
    }
}

/// The characters of `input`, in order.
pub(crate) fn text_chars(input: &str) -> (r: Vec<char>)
    ensures
        r@ == input@,
{
    let n = input.unicode_len();
    let mut out: Vec<char> = Vec::new();
    let mut it = input.chars();
    proof {
        broadcast use vstd::string::group_string_axioms;
    }
    let mut i: usize = 0;
    while i < n
        invariant
            n == input@.len(),
            i <= n,
            out@ == input@.subrange(0, i as int),
            it.obeys_prophetic_iter_laws(),
            it.remaining() == input@.subrange(i as int, n as int),
        decreases n - i,
    {
        broadcast use vstd::string::group_string_axioms;
        let c = it.next();
        assert(input@.subrange(i as int, n as int)[0] == input@[i as int]);
        match c {
            Some(ch) => out.push(ch),
            None => {},
        }
        proof {
            assert(out@ =~= input@.subrange(0, i + 1));
            assert(input@.subrange(i as int, n as int).drop_first() =~= input@.subrange(i + 1, n as int));
        }
        i = i + 1;
    }
    proof {
        assert(input@.subrange(0, n as int) =~= input@);
    }
    out
}

/// The spans of the line of `chars` that starts at `pos`, numbered
/// `line`, and where the line after it starts.
fn line_spans(chars: &Vec<char>, pos: usize, line: usize) -> (r: (Vec<Span<char>>, usize))
    requires
        chars@.len() < usize::MAX,
        pos < chars@.len(),
        line <= pos,
    ensures
        pos < r.1 <= chars@.len(),
        spans_match(r.0@, line_positions(first_line(chars@.subrange(pos as int, chars@.len() as int)), line as int)),
        positions_from(chars@.subrange(pos as int, chars@.len() as int), line as int) == line_positions(
            first_line(chars@.subrange(pos as int, chars@.len() as int)),
            line as int,
        ) + positions_from(chars@.subrange(r.1 as int, chars@.len() as int), line + 1),
{
    let n = chars.len();
    let mut out: Vec<Span<char>> = Vec::new();
    let ghost rest = chars@.subrange(pos as int, n as int);
    let mut e: usize = pos;
    while e < n && chars[e] != '\n'
        invariant
            n == chars@.len(),
            pos <= e <= n,
            forall|j: int| pos <= j < e ==> chars@[j] != '\n',
        decreases n - e,
    {
        e = e + 1;
    }
    let mut t: usize = e;
    if e < n && t > pos && chars[t - 1] == '\r' {
        t = t - 1;
    }
    let ghost content = rest.subrange(0, (t - pos) as int);
    proof {
        lemma_line_break(rest, (e - pos) as int);
        assert(rest.subrange(0, (e - pos) as int).subrange(0, (t - pos) as int) =~= content);
        if e == n {
            assert(rest.subrange(0, (e - pos) as int) =~= rest);
        }
        assert(first_line(rest) == content);
    }
    let ghost here = line_positions(content, line as int);
    let mut i: usize = pos;
    let mut col: usize = 0;
    while i < t
        invariant
            n == chars@.len() < usize::MAX,
            pos <= i <= t <= e <= n,
            col == i - pos,
            line <= pos,
            content == chars@.subrange(pos as int, t as int),
            here == line_positions(content, line as int),
            spans_match(out@, here.subrange(0, col as int)),
        decreases t - i,
    {
        let sp = Span::new(Location::new(line, col), Location::new(line, col + 1), chars[i]);
        out.push(sp);
        proof {
            assert(here.subrange(0, col + 1) =~= here.subrange(0, col as int).push(here[col as int]));
        }
        i = i + 1;
        col = col + 1;
    }
    out.push(Span::new(Location::new(line, col), Location::new(line, col + 1), '\n'));
    proof {
        assert(here.subrange(0, col + 1) =~= here);
        assert(here =~= here.subrange(0, col as int).push(here[col as int]));
    }
    let next: usize = if e < n {
        e + 1
    } else {
        n
    };
    proof {
        let after = chars@.subrange(next as int, n as int);
        if e < n {
            assert(rest.subrange((e - pos) + 1, rest.len() as int) =~= after);
            assert(positions_from(rest, line as int) == here + positions_from(after, line + 1));
        } else {
            assert(positions_from(rest, line as int) == here);
            assert(after =~= Seq::<char>::empty());
            assert(here + positions_from(after, line + 1) =~= here);
        }
    }
    (out, next)
}

} // verus!
