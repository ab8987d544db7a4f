//! A source file, and where things are inside it.
//!
//! Everything downstream refers to a place in the source by a byte range, a [`Span`],
//! because that is the only measurement that survives being handed around. Turning one
//! back into something a person can read is this module's job, and it produces all three
//! numbers the error format needs: the line, the column a reader counts (graphemes), and
//! the column an editor counts (bytes).

use vstd::prelude::*;
use vstd::utf8::*;
use crate::grapheme::{breaks, clusters, count, first_cluster_len, total_width, width, Run};
use crate::text::{
    bytes_of, decimal, lemma_boundary_around_ascii, lemma_boundary_in_prefix, lemma_chars_within_bytes, push_decimal,
    sub_str,
};

verus! {

broadcast use vstd::utf8::group_utf8_lib, vstd::string::group_string_axioms;

/// A byte range in one source file. Half-open: `start` is included, `end` is not.
#[derive(Clone, Copy, PartialEq, Eq, Debug, Default, Structural)]
pub struct Span {
    pub start: usize,
    pub end: usize,
}

impl Span {
    pub fn new(start: usize, end: usize) -> (s: Span)
        requires
            start <= end,
        ensures
            s.start == start,
            s.end == end,
    {
        Span { start, end }
    }

    /// A span of no width, for pointing between two things rather than at one.
    pub fn at(offset: usize) -> (s: Span)
        ensures
            s.start == offset,
            s.end == offset,
    {
        Span { start: offset, end: offset }
    }

    pub fn len(&self) -> (n: usize)
        requires
            self.start <= self.end,
        ensures
            n == self.end - self.start,
    {
        self.end - self.start
    }

    pub fn is_empty(&self) -> (b: bool)
        ensures
            b == (self.start == self.end),
    {
        self.start == self.end
    }

    /// The smallest span covering both.
    pub fn to(self, other: Span) -> (s: Span)
        ensures
            s.start == if self.start <= other.start { self.start } else { other.start },
            s.end == if self.end >= other.end { self.end } else { other.end },
    {
        Span {
            start: if self.start <= other.start { self.start } else { other.start },
            end: if self.end >= other.end { self.end } else { other.end },
        }
    }
}

/// Where a byte offset is, said three ways. All three count from one.
#[derive(Clone, Copy, PartialEq, Eq, Debug)]
pub struct Position {
    /// Which line, counting from one.
    pub line: usize,
    /// Which character on it, counting the way a reader counts.
    pub column: usize,
    /// Which byte on it. This is the one `file:line:column` carries.
    pub byte_column: usize,
}

/// The offsets every line of `b[..n]` begins at: nought, and one past every newline.
pub open spec fn starts_upto(b: Seq<u8>, n: int) -> Seq<usize>
    decreases n,
{
    if n <= 0 {
        seq![0usize]
    } else if b[n - 1] == 10u8 {
        starts_upto(b, n - 1).push(n as usize)
    } else {
        starts_upto(b, n - 1)
    }
}

/// The offsets every line of `b` begins at.
pub open spec fn line_starts_of(b: Seq<u8>) -> Seq<usize> {
    starts_upto(b, b.len() as int)
}

/// Nought first, and every later one larger than the one before.
pub open spec fn ascending(s: Seq<usize>) -> bool {
    &&& s.len() >= 1
    &&& s[0] == 0
    &&& forall|i: int, j: int| 0 <= i < j < s.len() ==> s[i] < s[j]
}

/// `line` is the line `offset` falls on, for lines beginning at `starts`: the last line
/// to begin at or before it.
pub open spec fn on_line(starts: Seq<usize>, offset: int, line: int) -> bool {
    &&& 1 <= line <= starts.len()
    &&& starts[line - 1] <= offset
    &&& line < starts.len() ==> offset < starts[line]
}

/// Which line `offset` falls on: how many of the lines beginning at `starts` begin at
/// or before it.
pub open spec fn line_at(starts: Seq<usize>, offset: int) -> int
    decreases starts.len(),
{
    if starts.len() == 0 {
        0
    } else if starts.last() <= offset {
        starts.len() as int
    } else {
        line_at(starts.drop_last(), offset)
    }
}

/// Only one line can be the one an offset falls on.
pub proof fn lemma_line_at(starts: Seq<usize>, offset: int, line: int)
    requires
        ascending(starts),
        on_line(starts, offset, line),
    ensures
        line == line_at(starts, offset),
    decreases starts.len(),
{
    let n = starts.len() as int;
    if starts.last() <= offset {
        if line < n {
            assert(starts[line] <= starts[n - 1]);
        }
    } else {
        assert(line < n);
        let shorter = starts.drop_last();
        assert(ascending(shorter));
        lemma_line_at(shorter, offset, line);
    }
}

/// Where the text of a line stops once any carriage returns at its end are left off.
pub open spec fn without_returns(b: Seq<u8>, start: int, end: int) -> int
    decreases end - start,
{
    if end > start && b[end - 1] == 13u8 {
        without_returns(b, start, end - 1)
    } else {
        end
    }
}

proof fn lemma_starts_upto(b: Seq<u8>, n: int)
    requires
        0 <= n <= b.len(),
        n <= usize::MAX,
    ensures
        ascending(starts_upto(b, n)),
        forall|k: int|
            1 <= k < starts_upto(b, n).len() ==> 1 <= #[trigger] starts_upto(b, n)[k] <= n
                && b[starts_upto(b, n)[k] - 1] == 10u8,
    decreases n,
{
    if n > 0 {
        lemma_starts_upto(b, n - 1);
    }
}

/// Where the text of a line ends, before its line ending, and that both ends of it fall
/// between characters.
proof fn lemma_line_bounds(b: Seq<u8>, s: Seq<usize>, line: int)
    requires
        s == line_starts_of(b),
        b.len() <= usize::MAX,
        valid_utf8(b),
        1 <= line <= s.len(),
    ensures
        ({
            let end = if line < s.len() { s[line] - 1 } else { b.len() as int };
            &&& s[line - 1] <= end <= b.len()
            &&& is_char_boundary(b, s[line - 1] as int)
            &&& is_char_boundary(b, end)
        }),
{
    lemma_starts_upto(b, b.len() as int);
    if line - 1 >= 1 {
        lemma_boundary_around_ascii(b, s[line - 1] - 1);
    }
    if line < s.len() {
        lemma_boundary_around_ascii(b, s[line] - 1);
    }
}

/// One source file, held with an index of where its lines begin.
pub struct SourceFile {
    path: String,
    text: String,
    /// Byte offset of the first character of each line.
    line_starts: Vec<usize>,
    /// How long the text was, for a file whose text was not kept. `None` when it was.
    absent_len: Option<usize>,
}

impl SourceFile {
    #[verifier::type_invariant]
    spec fn well_formed(self) -> bool {
        &&& ascending(self.line_starts@)
        &&& match self.absent_len {
            None => self.line_starts@ == line_starts_of(encode_utf8(self.text@)),
            Some(_) => self.text@.len() == 0,
        }
    }

    /// The file's name, as it was given.
    pub closed spec fn path_view(&self) -> Seq<char> {
        self.path@
    }

    /// The bytes of the text that was kept: none, when only the shape was.
    pub closed spec fn bytes(&self) -> Seq<u8> {
        encode_utf8(self.text@)
    }

    /// Where each line begins.
    pub closed spec fn starts(&self) -> Seq<usize> {
        self.line_starts@
    }

    /// Whether the text itself is here, as opposed to only the shape of it.
    pub closed spec fn kept(&self) -> bool {
        self.absent_len is None
    }

    /// How long the file was, whether or not its text was kept.
    pub closed spec fn size(&self) -> int {
        match self.absent_len {
            Some(n) => n as int,
            None => encode_utf8(self.text@).len() as int,
        }
    }

    /// A file whose text was not kept, but whose shape was.
    ///
    /// A chunk built without its source still knows where every line began, so a fault in
    /// it reports the same line and column it always did. What it cannot do is show the
    /// line.
    pub fn without_text(path: &str, line_starts: Vec<usize>, len: usize) -> (f: SourceFile)
        requires
            ascending(line_starts@),
        ensures
            f.path_view() == path@,
            f.starts() == line_starts@,
            !f.kept(),
            f.size() == len,
            f.bytes().len() == 0,
    {
        let f = SourceFile {
            path: String::from_str(path),
            text: String::new(),
            line_starts,
            absent_len: Some(len),
        };
        assert(f.text@ =~= Seq::<char>::empty());
        f
    }

    /// Whether the text itself is here, as opposed to only the shape of it.
    pub fn has_text(&self) -> (b: bool)
        ensures
            b == self.kept(),
    {
        self.absent_len.is_none()
    }

    pub fn new(path: &str, text: &str) -> (f: SourceFile)
        ensures
            f.path_view() == path@,
            f.bytes() == bytes_of(text),
            f.kept(),
            f.size() == bytes_of(text).len(),
            f.starts() == line_starts_of(bytes_of(text)),
    {
        let b = text.as_bytes();
        let mut line_starts: Vec<usize> = Vec::new();
        line_starts.push(0);
        let mut i: usize = 0;
        while i < b.len()
            invariant
                i <= b.len(),
                b@ == bytes_of(text),
                line_starts@ == starts_upto(b@, i as int),
            decreases b.len() - i,
        {
            if b[i] == 10u8 {
                line_starts.push(i + 1);
            }
            i = i + 1;
        }
        proof {
            lemma_starts_upto(b@, b@.len() as int);
        }
        let owned = String::from_str(text);
        SourceFile { path: String::from_str(path), text: owned, line_starts, absent_len: None }
    }

    pub fn path(&self) -> (p: &str)
        ensures
            p@ == self.path_view(),
    {
        self.path.as_str()
    }

    pub fn text(&self) -> (t: &str)
        ensures
            bytes_of(t) == self.bytes(),
    {
        self.text.as_str()
    }

    pub fn line_count(&self) -> (n: usize)
        ensures
            n == self.starts().len(),
    {
        self.line_starts.len()
    }

    /// How long the file was, whether or not its text was kept.
    pub(crate) fn len(&self) -> (n: usize)
        ensures
            n == self.size(),
    {
        proof {
            use_type_invariant(self);
        }
        match self.absent_len {
            Some(n) => n,
            None => self.text.as_str().as_bytes().len(),
        }
    }

    /// Which line an offset falls on, counting from one. An offset past the end belongs
    /// to the last line.
    pub fn line_of(&self, offset: usize) -> (line: usize)
        ensures
            on_line(self.starts(), offset as int, line as int),
            line == line_at(self.starts(), offset as int),
    {
        proof {
            use_type_invariant(self);
        }
        let mut lo: usize = 0;
        let mut hi: usize = self.line_starts.len();
        while lo < hi
            invariant
                lo <= hi <= self.line_starts@.len(),
                ascending(self.line_starts@),
                forall|i: int| 0 <= i < lo ==> self.line_starts@[i] <= offset,
                forall|i: int| hi <= i < self.line_starts@.len() ==> self.line_starts@[i] > offset,
            decreases hi - lo,
        {
            let mid = lo + (hi - lo) / 2;
            if self.line_starts[mid] <= offset {
                lo = mid + 1;
            } else {
                hi = mid;
            }
        }
        assert(self.line_starts@[0] <= offset);
        proof {
            lemma_line_at(self.line_starts@, offset as int, lo as int);
        }
        lo
    }

    /// An offset held to the end of the file.
    pub open spec fn clamped(&self, offset: int) -> int {
        if offset <= self.size() {
            offset
        } else {
            self.size()
        }
    }

    /// The line, the column a reader counts and the column an editor counts, of an offset.
    pub open spec fn position_at(&self, offset: int) -> (int, int, int) {
        let o = self.clamped(offset);
        let line = line_at(self.starts(), o);
        let line_start = self.starts()[line - 1] as int;
        let column = if self.kept() && is_char_boundary(self.bytes(), o) {
            clusters(decode_utf8(self.bytes().subrange(line_start, o))).len() + 1int
        } else {
            o - line_start + 1
        };
        (line, column, o - line_start + 1)
    }

    /// The characters of one line, without its ending; none for a line that is not there.
    pub open spec fn line_chars(&self, line: int) -> Seq<char> {
        if 1 <= line <= self.starts().len() && self.kept() {
            decode_utf8(self.bytes().subrange(self.line_range(line).0, self.line_range(line).1))
        } else {
            Seq::empty()
        }
    }

    /// How many cells to skip before a caret under `span`, and how many it underlines.
    pub open spec fn caret_at(&self, span: Span) -> (int, int) {
        let line = line_at(self.starts(), span.start as int);
        let b = self.bytes();
        let n = b.len();
        let start = if span.start <= n { span.start as int } else { n as int };
        let clamped = if span.end <= n { span.end as int } else { n as int };
        let end = if clamped >= start { clamped } else { start };
        let line_start = self.starts()[line - 1] as int;
        let under = total_width(clusters(decode_utf8(b.subrange(start, end))));
        (
            total_width(clusters(decode_utf8(b.subrange(line_start, start)))) as int,
            if under >= 1 { under as int } else { 1int },
        )
    }

    /// The byte range one line's text covers, line ending and trailing returns left off.
    pub open spec fn line_range(&self, line: int) -> (int, int) {
        let b = self.bytes();
        let s = self.starts();
        let start = s[line - 1] as int;
        let end = if line < s.len() { s[line] - 1 } else { b.len() as int };
        (start, without_returns(b, start, end))
    }

    /// One line's text, without its line ending. Lines count from one.
    pub fn line_text(&self, line: usize) -> (t: &str)
        requires
            self.kept() || line == 0 || line > self.starts().len() || ({
                let s = self.starts();
                let end = if line < s.len() { s[line as int] - 1 } else { self.bytes().len() as int };
                0 <= end && s[line - 1] <= end <= self.bytes().len()
            }),
        ensures
            line == 0 || line > self.starts().len() ==> t@.len() == 0,
            1 <= line <= self.starts().len() ==> bytes_of(t) == self.bytes().subrange(
                self.line_range(line as int).0,
                self.line_range(line as int).1,
            ),
            t@ == self.line_chars(line as int),
    {
        proof {
            use_type_invariant(self);
        }
        if line == 0 || line > self.line_starts.len() {
            proof {
                reveal_strlit("");
            }
            return "";
        }
        let b = self.text.as_str().as_bytes();
        let total = b.len();
        proof {
            if self.absent_len is None {
                lemma_line_bounds(b@, self.line_starts@, line as int);
            } else {
                assert(b@.len() == 0) by {
                    assert(self.text@.len() == 0);
                    assert(encode_utf8(self.text@) =~= Seq::<u8>::empty());
                }
            }
        }
        let start = self.line_starts[line - 1];
        let end = if line < self.line_starts.len() {
            self.line_starts[line] - 1
        } else {
            b.len()
        };
        let mut stop = end;
        while stop > start && b[stop - 1] == 13u8
            invariant
                start <= stop <= end <= b@.len(),
                b@ == self.bytes(),
                is_char_boundary(b@, stop as int),
                without_returns(b@, start as int, end as int) == without_returns(
                    b@,
                    start as int,
                    stop as int,
                ),
            decreases stop - start,
        {
            proof {
                lemma_boundary_around_ascii(b@, stop - 1);
            }
            stop = stop - 1;
        }
        sub_str(self.text.as_str(), start, stop)
    }

    /// Where an offset is, in all three measurements at once.
    ///
    /// An offset past the end is the end. Without the text the grapheme column cannot be
    /// counted, and one that does not fall between two characters has no grapheme column
    /// either: both answer the byte column for it rather than inventing a number.
    pub fn position(&self, offset: usize) -> (p: Position)
        requires
            offset < usize::MAX || self.size() < usize::MAX,
        ensures
            ({
                let o = if offset <= self.size() { offset as int } else { self.size() };
                let line_start = self.starts()[p.line - 1] as int;
                &&& on_line(self.starts(), o, p.line as int)
                &&& p.line == line_at(self.starts(), o)
                &&& (p.line as int, p.column as int, p.byte_column as int) == self.position_at(
                    offset as int,
                )
                &&& p.byte_column == o - line_start + 1
                &&& p.column == if self.kept() && is_char_boundary(self.bytes(), o) {
                    clusters(decode_utf8(self.bytes().subrange(line_start, o))).len() + 1int
                } else {
                    o - line_start + 1
                }
            }),
    {
        proof {
            use_type_invariant(self);
        }
        let size = self.len();
        let offset = if offset <= size {
            offset
        } else {
            size
        };
        let line = self.line_of(offset);
        let line_start = self.line_starts[line - 1];
        let bytes = offset - line_start;
        if self.absent_len.is_some() || !self.text.as_str().is_char_boundary(offset) {
            return Position { line, column: bytes + 1, byte_column: bytes + 1 };
        }
        let total = self.text.as_str().as_bytes().len();
        proof {
            lemma_line_bounds(self.bytes(), self.line_starts@, line as int);
        }
        let prefix = sub_str(self.text.as_str(), line_start, offset);
        let column = count(prefix);
        proof {
            crate::grapheme::law_clusters_are_never_empty(prefix@);
            assert(prefix@.len() <= bytes_of(prefix).len()) by {
                crate::text::lemma_chars_within_bytes(prefix@);
            }
        }
        Position { line, column: column + 1, byte_column: bytes + 1 }
    }

    /// The `file:line:column` form, carrying the byte column, with the path shown as
    /// `shown`: relative to where the compiler was run when that is shorter, which only
    /// whoever knows where that is can say.
    pub fn short_location(&self, shown: &str, offset: usize) -> (s: String)
        requires
            offset < usize::MAX || self.size() < usize::MAX,
        ensures
            ({
                let o = if offset <= self.size() { offset as int } else { self.size() };
                let line = line_at(self.starts(), o);
                let byte_column = o - self.starts()[line - 1] + 1;
                s@ == shown@ + ":"@ + decimal(line as nat) + ":"@ + decimal(byte_column as nat)
            }),
    {
        let at = self.position(offset);
        let mut s = String::from_str(shown);
        proof {
            reveal_strlit(":");
        }
        s.append(":");
        push_decimal(&mut s, at.line as u64);
        s.append(":");
        push_decimal(&mut s, at.byte_column as u64);
        s
    }

    /// The source a span covers, each end held to the end of the text.
    pub fn slice(&self, span: Span) -> (t: &str)
        requires
            ({
                let n = self.bytes().len();
                let start = if span.start <= n { span.start as int } else { n as int };
                let end = if span.end <= n { span.end as int } else { n as int };
                &&& start <= end
                &&& is_char_boundary(self.bytes(), start)
                &&& is_char_boundary(self.bytes(), end)
            }),
        ensures
            ({
                let n = self.bytes().len();
                let start = if span.start <= n { span.start as int } else { n as int };
                let end = if span.end <= n { span.end as int } else { n as int };
                bytes_of(t) == self.bytes().subrange(start, end)
            }),
    {
        let n = self.text.as_str().as_bytes().len();
        let start = if span.start <= n {
            span.start
        } else {
            n
        };
        let end = if span.end <= n {
            span.end
        } else {
            n
        };
        sub_str(self.text.as_str(), start, end)
    }

    /// How a caret under this span should be laid out: how many terminal cells to skip,
    /// and how many to underline. An empty span still gets one cell.
    pub fn caret_layout(&self, span: Span) -> (r: (usize, usize))
        requires
            ({
                let n = self.bytes().len();
                let start = if span.start <= n { span.start as int } else { n as int };
                let end = if span.end <= n { span.end as int } else { n as int };
                &&& is_char_boundary(self.bytes(), start)
                &&& is_char_boundary(self.bytes(), end)
                &&& (self.kept() || self.starts().len() == 1 || span.start < self.starts()[1])
            }),
        ensures
            ({
                    let line = line_at(self.starts(), span.start as int);
                    let b = self.bytes();
                    let n = b.len();
                    let start = if span.start <= n { span.start as int } else { n as int };
                    let clamped = if span.end <= n { span.end as int } else { n as int };
                    let end = if clamped >= start { clamped } else { start };
                    let line_start = self.starts()[line - 1] as int;
                    let under = total_width(clusters(decode_utf8(b.subrange(start, end))));
                    &&& r.0 == total_width(clusters(decode_utf8(b.subrange(line_start, start))))
                    &&& r.1 == if under >= 1 { under } else { 1 }
                    &&& (r.0 as int, r.1 as int) == self.caret_at(span)
                }),
    {
        proof {
            use_type_invariant(self);
        }
        let line = self.line_of(span.start);
        let line_start = self.line_starts[line - 1];
        let n = self.text.as_str().as_bytes().len();
        let start = if span.start <= n {
            span.start
        } else {
            n
        };
        let clamped = if span.end <= n {
            span.end
        } else {
            n
        };
        let end = if clamped >= start {
            clamped
        } else {
            start
        };
        proof {
            if self.kept() {
                lemma_line_bounds(self.bytes(), self.line_starts@, line as int);
                lemma_starts_upto(self.bytes(), self.bytes().len() as int);
            } else {
                assert(line == 1);
            }
        }
        let indent = width(sub_str(self.text.as_str(), line_start, start));
        let under = width(sub_str(self.text.as_str(), start, end));
        (indent, if under >= 1 {
            under
        } else {
            1
        })
    }
}


/// A file kept only as its shape, with the line starts and length of one whose text was
/// kept, puts every offset on the same line and at the same byte column; only the column
/// a reader counts falls back to the byte column, because counting characters needs them.
pub proof fn law_a_file_without_text_keeps_lines_and_byte_columns(kept: SourceFile, shape: SourceFile, offset: int)
    requires
        kept.kept(),
        !shape.kept(),
        shape.starts() == kept.starts(),
        shape.size() == kept.size(),
    ensures
        shape.position_at(offset).0 == kept.position_at(offset).0,
        shape.position_at(offset).2 == kept.position_at(offset).2,
        shape.position_at(offset).1 == shape.position_at(offset).2,
{
}


/// One past the last newline before `q`, or nought where there is none.
pub open spec fn after_last_newline(b: Seq<u8>, q: int) -> int
    decreases q,
{
    if q <= 0 {
        0
    } else if b[q - 1] == 10u8 {
        q
    } else {
        after_last_newline(b, q - 1)
    }
}

proof fn lemma_last_start(b: Seq<u8>, q: int)
    requires
        0 <= q <= b.len(),
        b.len() <= usize::MAX,
    ensures
        starts_upto(b, q).len() >= 1,
        starts_upto(b, q).last() == after_last_newline(b, q),
    decreases q,
{
    if q > 0 {
        lemma_last_start(b, q - 1);
    }
}

/// The lines of the whole that begin at or before `q` are the lines of what comes before
/// `q`.
proof fn lemma_line_of_prefix(b: Seq<u8>, q: int, n: int)
    requires
        0 <= q <= n <= b.len(),
        b.len() <= usize::MAX,
    ensures
        line_at(starts_upto(b, n), q) == starts_upto(b, q).len(),
        starts_upto(b, q).len() <= starts_upto(b, n).len(),
        forall|k: int|
            0 <= k < starts_upto(b, q).len() ==> #[trigger] starts_upto(b, n)[k] == starts_upto(b, q)[k],
    decreases n - q,
{
    if n == q {
        lemma_starts_upto(b, q);
        lemma_last_start(b, q);
        let s = starts_upto(b, q);
        assert(s.last() <= q) by {
            if s.len() > 1 {
                assert(s[s.len() - 1] <= q);
            }
        }
    } else {
        lemma_line_of_prefix(b, q, n - 1);
        lemma_starts_upto(b, n - 1);
        let prev = starts_upto(b, n - 1);
        if b[n - 1] == 10u8 {
            let s = starts_upto(b, n);
            assert(s == prev.push(n as usize));
            assert(s.drop_last() =~= prev);
        }
    }
}

/// How many newlines a run of bytes holds.
pub open spec fn newlines(b: Seq<u8>) -> nat
    decreases b.len(),
{
    if b.len() == 0 {
        0
    } else {
        newlines(b.drop_last()) + if b.last() == 10u8 {
            1nat
        } else {
            0nat
        }
    }
}

/// The lines that begin in the first `q` bytes are one more than the newlines there.
proof fn lemma_starts_count(b: Seq<u8>, q: int)
    requires
        0 <= q <= b.len(),
    ensures
        starts_upto(b, q).len() == 1 + newlines(b.take(q)),
    decreases q,
{
    if q == 0 {
        assert(b.take(0) =~= Seq::<u8>::empty());
    } else {
        lemma_starts_count(b, q - 1);
        assert(b.take(q).drop_last() =~= b.take(q - 1));
        assert(b.take(q).last() == b[q - 1]);
    }
}

/// The line an offset falls on is one more than the newlines before it (an offset past
/// the end counting as the end), so it is at least one, never past the last line, and
/// never goes back as the offset moves on.
pub proof fn law_a_line_counts_the_newlines_before_it(b: Seq<u8>, o1: int, o2: int)
    requires
        b.len() <= usize::MAX,
        0 <= o1 <= o2,
    ensures
        line_at(line_starts_of(b), o1) == 1 + newlines(b.take(if o1 < b.len() { o1 } else { b.len() as int })),
        1 <= line_at(line_starts_of(b), o1) <= line_starts_of(b).len(),
        line_at(line_starts_of(b), o1) <= line_at(line_starts_of(b), o2),
{
    let n = b.len() as int;
    let q1 = if o1 < n { o1 } else { n };
    let q2 = if o2 < n { o2 } else { n };
    lemma_starts_upto(b, n);
    lemma_last_start(b, n);
    lemma_line_of_prefix(b, q1, n);
    lemma_line_of_prefix(b, q2, n);
    lemma_line_of_prefix(b, q1, q2);
    lemma_starts_count(b, q1);
    lemma_last_start(b, q1);
    let s = line_starts_of(b);
    assert(s.last() <= n) by {
        lemma_after_last_newline(b, n);
    }
    if o1 >= n {
        assert(line_at(s, o1) == s.len());
    }
    if o2 >= n {
        assert(line_at(s, o2) == s.len());
    }
}

/// A line begins one past the last newline before an offset, or at nought where there is
/// none; and the column counted in characters is at least one and never past the column
/// counted in bytes.
pub proof fn law_a_line_begins_after_its_last_newline(b: Seq<u8>, o: int)
    requires
        valid_utf8(b),
        b.len() <= usize::MAX,
        0 <= o <= b.len(),
        is_char_boundary(b, o),
    ensures
        ({
            let s = line_starts_of(b);
            let start = s[line_at(s, o) - 1] as int;
            &&& start == after_last_newline(b, o)
            &&& 0 <= start <= o
            &&& is_char_boundary(b, start)
            &&& forall|i: int| start <= i < o ==> b[i] != 10u8
            &&& 1 <= clusters(decode_utf8(b.subrange(start, o))).len() + 1 <= o - start + 1
            &&& (forall|i: int| start <= i < o ==> b[i] < 0x80) ==> clusters(
                decode_utf8(b.subrange(start, o)),
            ).len() == o - start
        }),
{
    let s = line_starts_of(b);
    lemma_line_of_prefix(b, o, b.len() as int);
    lemma_last_start(b, o);
    let line = line_at(s, o);
    let start = after_last_newline(b, o);
    assert(s[line - 1] == starts_upto(b, o).last());
    lemma_after_last_newline(b, o);
    if start > 0 {
        lemma_boundary_around_ascii(b, start - 1);
    } else {
        is_char_boundary_start_end_of_seq(b);
    }
    lemma_boundary_in_prefix(b, start, o);
    let prefix = b.subrange(0, o);
    valid_utf8_split(prefix, start);
    let seg = b.subrange(start, o);
    assert(prefix.subrange(start, prefix.len() as int) =~= seg);
    decode_utf8_encode_utf8(seg);
    lemma_chars_within_bytes(decode_utf8(seg));
    crate::grapheme::law_clusters_are_never_empty(decode_utf8(seg));
    if forall|i: int| start <= i < o ==> b[i] < 0x80 {
        assert forall|i: int| 0 <= i < seg.len() implies seg[i] < 0x80 by {
            assert(seg[i] == b[start + i]);
        }
        lemma_ascii_decodes(seg);
        let d = decode_utf8(seg);
        assert forall|i: int| 0 <= i < d.len() implies (d[i] as u32) < 0x80 && d[i] != '\n' by {
            assert(seg[i] == b[start + i]);
            assert(d[i] as u32 == seg[i] as u32);
        }
        lemma_ascii_clusters(d);
    }
}

/// ASCII bytes decode to the characters with those numbers, one each.
proof fn lemma_ascii_decodes(seg: Seq<u8>)
    requires
        valid_utf8(seg),
        forall|i: int| 0 <= i < seg.len() ==> seg[i] < 0x80,
    ensures
        decode_utf8(seg).len() == seg.len(),
        forall|i: int| 0 <= i < seg.len() ==> decode_utf8(seg)[i] as u32 == seg[i] as u32,
    decreases seg.len(),
{
    if seg.len() > 0 {
        assert(length_of_first_scalar(seg) == 1);
        let x = seg[0];
        assert(x & 0x7Fu8 == x) by (bit_vector)
            requires
                x < 0x80u8,
        ;
        assert(decode_first_scalar(seg) == seg[0] as u32);
        let rest = pop_first_scalar(seg);
        assert forall|i: int| 0 <= i < rest.len() implies rest[i] < 0x80 by {
            assert(rest[i] == seg[i + 1]);
        }
        lemma_ascii_decodes(rest);
        let d = decode_utf8(seg);
        assert(d == seq![decode_first_scalar(seg) as char] + decode_utf8(rest));
        assert forall|i: int| 0 <= i < seg.len() implies d[i] as u32 == seg[i] as u32 by {
            if i > 0 {
                assert(d[i] == decode_utf8(rest)[i - 1]);
                assert(rest[i - 1] == seg[i]);
            }
        }
    }
}

/// Where a line so far is ASCII, every character of it is a cluster of its own: there is
/// no newline in it for a carriage return to join.
proof fn lemma_ascii_clusters(s: Seq<char>)
    requires
        forall|i: int| 0 <= i < s.len() ==> (s[i] as u32) < 0x80 && s[i] != '\n',
    ensures
        clusters(s).len() == s.len(),
    decreases s.len(),
{
    if s.len() > 0 {
        if s.len() > 1 {
            assert(breaks(s[0], s[1], Run::fresh().observed(s[0])));
        }
        assert(first_cluster_len(s) == 1);
        let rest = s.skip(1);
        assert forall|i: int| 0 <= i < rest.len() implies (rest[i] as u32) < 0x80 && rest[i] != '\n' by {
            assert(rest[i] == s[i + 1]);
        }
        lemma_ascii_clusters(rest);
        assert(clusters(s) == seq![s.take(1)] + clusters(rest));
    }
}

/// What lies between the last newline before `q` and `q` holds no newline.
proof fn lemma_after_last_newline(b: Seq<u8>, q: int)
    requires
        0 <= q <= b.len(),
    ensures
        0 <= after_last_newline(b, q) <= q,
        after_last_newline(b, q) > 0 ==> b[after_last_newline(b, q) - 1] == 10u8,
        forall|i: int| after_last_newline(b, q) <= i < q ==> b[i] != 10u8,
    decreases q,
{
    if q > 0 && b[q - 1] != 10u8 {
        lemma_after_last_newline(b, q - 1);
    }
}

} // verus!
