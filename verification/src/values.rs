//! Values written as pieces side by side: text known now and text joined as the program
//! runs, `*true*` and `*false*`, a name standing for what it holds, written digits read
//! at a type's width, and the elements of an array counted against its shape, with what
//! each is told when it does not fit the type it is given to.

use vstd::prelude::*;
use crate::checked::Value;
use crate::checked::{Printed, Stmt, Stream};
use crate::checker::{all_digits, digit_of, digits_value, lemma_digits_grow, lemma_digits_step, unsigned_digits};
use crate::checker::{
    around, complaints, counted, counted_view, cuts, name_at, pointed, reads_as_name, refs_ok, said, seen_in, span_to,
    text_at, typed, Checker,
};
use crate::diag::{texts, Diagnostic, DiagnosticView, LabelStyle};
use crate::names::{escape, escape_of};
use crate::text::{chars_of, decimal, push_decimal, same_str};
use crate::ty::{
    hole_word, Hole, accepts_view, simple_view, article_of, count_fits, count_of, name_of, product, push_spaced, settled_view, spaced, unsaid, unsaid_view, Length,
    Ty, TyView,
};
use crate::source::Span;

verus! {

/// One piece of a value as written, by where its parts stand in the source.
pub enum Piece {
    /// Something between marks, with the type written in front of it where there is one.
    Written { ty: Option<Span>, mark: Span },
    /// `\n`, `\t`, `\r` or `\\`, or something written like one.
    Escape(Span),
    /// A name between marks.
    Name(Span),
    /// A name reached through modules, one span per link.
    Path(Vec<Span>),
    /// One element of an array: its name, and the bracket that closes the indices.
    At { name: Span, close: Span },
    /// A call: its name, and the bracket that closes the arguments.
    Call { name: Span, close: Span },
}

/// One term of a value written without operators.
pub enum Term {
    Piece(Piece),
    /// A term that is worked out on its own (an index, a call, a constant through a
    /// path, brackets): where it stands, whether it is an index or a call (which text
    /// can be joined from), and what working it out gave. What working it out said comes
    /// with it, to be reported where the term stands.
    Worked { span: Span, element: bool, built: Option<Value>, told: Vec<Diagnostic> },
    /// A number written bare, without marks.
    Number(Span),
    /// A list of elements between their own brackets.
    Elements { open: Span, close: Span },
    /// `not`, the word, and what it turns round; `span` is the whole term.
    Not { span: Span, word: Span, of: Box<Term> },
    /// `share` or `copy` (which `copies` says), the word, and what it is asked of.
    Handed { span: Span, word: Span, copies: bool, of: Box<Term> },
}

/// Where a piece stands: from the type written in front of it, if any, to its end.
pub open spec fn piece_span(p: Piece) -> Span {
    match p {
        Piece::Written { ty: Some(t), mark } => span_to(t, mark),
        Piece::Written { ty: None, mark } => mark,
        Piece::Escape(s) => s,
        Piece::Name(s) => s,
        Piece::Path(links) => if links@.len() == 0 {
            Span { start: 0, end: 0 }
        } else {
            span_to(links@[0], links@.last())
        },
        Piece::At { name, close } => span_to(name, close),
        Piece::Call { name, close } => span_to(name, close),
    }
}

/// Where a term stands.
pub open spec fn term_span(t: Term) -> Span {
    match t {
        Term::Piece(p) => piece_span(p),
        Term::Worked { span, .. } => span,
        Term::Number(s) => s,
        Term::Elements { open, close } => span_to(open, close),
        Term::Not { span, .. } => span,
        Term::Handed { span, .. } => span,
    }
}

/// Where a term stands.
pub fn span_of_term(t: &Term) -> (s: Span)
    ensures
        s == term_span(*t),
{
    match t {
        Term::Piece(p) => match p {
            Piece::Written { ty: Some(t), mark } => t.to(*mark),
            Piece::Written { ty: None, mark } => *mark,
            Piece::Escape(s) => *s,
            Piece::Name(s) => *s,
            Piece::Path(links) => if links.len() == 0 {
                Span::at(0)
            } else {
                links[0].to(links[links.len() - 1])
            },
            Piece::At { name, close } => name.to(*close),
            Piece::Call { name, close } => name.to(*close),
        },
        Term::Worked { span, .. } => *span,
        Term::Number(s) => *s,
        Term::Elements { open, close } => open.to(*close),
        Term::Not { span, .. } => *span,
        Term::Handed { span, .. } => *span,
    }
}

/// Whether every piece among the terms can be read in `source`.
pub open spec fn terms_ok(source: &str, terms: Seq<Term>) -> bool {
    forall|i: int| 0 <= i < terms.len() ==> match #[trigger] terms[i] {
        Term::Piece(p) => piece_ok(source, p),
        _ => true,
    }
}

/// What is given a type it is not: which type it is, pointing at it, and the type it is
/// being given to, pointing where that was declared.
pub open spec fn given_view(held: TyView, ty: TyView, at: Span, ty_span: Span, fix: Seq<char>) -> DiagnosticView {
    DiagnosticView {
        code: "E0406"@,
        message: "this is "@ + article_of(held) + " `"@ + name_of(held) + "`, and it is being given to "@
            + article_of(ty) + " `"@ + name_of(ty) + "`."@,
        rules: seq!["nothing converts on its own — two types meet only where something says they should"@],
        tips: seq![],
        fixes: seq![fix],
        labels: seq![
            (at, article_of(held) + " `"@ + name_of(held) + "`"@, LabelStyle::Primary),
            (ty_span, "declared `"@ + name_of(ty) + "` here"@, LabelStyle::Secondary),
        ],
    }
}

/// What naming an array in a value without `share` or `copy` is told.
pub open spec fn unsaid_sharing(at: Span, name: Seq<char>) -> DiagnosticView {
    pointed(
        "E0478"@,
        "this does not say whether it shares `'"@ + name + "'` or copies it."@,
        at,
        "here"@,
        "naming an array in a value says `share` or `copy`, and silence is not one of them"@,
        seq![
            "`share` makes a second name for one array, so a change through either is seen through both. `copy` makes a second array, and pays for it."@,
        ],
        "`[share '"@ + name + "']`, or `[copy '"@ + name + "']`"@,
    )
}

/// What a `bool` written as something other than `*true*` or `*false*` is told.
pub open spec fn not_truth(at: Span, written: Seq<char>) -> DiagnosticView {
    pointed(
        "E0416"@,
        "`"@ + written + "` is not true or false."@,
        at,
        "here"@,
        "a `bool` is written `*true*` or `*false*`, and nothing is truthy"@,
        seq![],
        "`*true*` or `*false*`, or a comparison"@,
    )
}

/// What a `bool` written as several things, or as something not written, is told.
pub open spec fn several_truths(at: Span) -> DiagnosticView {
    pointed(
        "E0417"@,
        "a `bool` is one thing, not several."@,
        at,
        "here"@,
        "`*true*`, `*false*`, or something that compares two values"@,
        seq![],
        "write one of those"@,
    )
}

/// What the terms of a `bool` give: `*true*` or `*false*`, or nothing and what was said.
pub open spec fn truth_view(source: &str, terms: Seq<Term>, span: Span) -> (Option<bool>, Seq<DiagnosticView>) {
    if terms.len() != 1 {
        (None, seq![several_truths(span)])
    } else {
        match terms[0] {
            Term::Piece(Piece::Written { ty: None, mark }) => {
                let w = name_at(source, mark);
                if w == "true"@ {
                    (Some(true), Seq::empty())
                } else if w == "false"@ {
                    (Some(false), Seq::empty())
                } else {
                    (None, seq![not_truth(mark, w)])
                }
            },
            _ => (None, seq![several_truths(span)]),
        }
    }
}

/// One part of text being joined: text known now, or a value worked out as the program
/// runs.
pub enum Part {
    Known(Seq<char>),
    Found(Value),
}

/// How far joining the terms of a `str` has got.
pub enum Joining {
    /// Still going: the parts so far, the text known now that follows them, and what
    /// was said on the way.
    Going { parts: Seq<Part>, so_far: Seq<char>, told: Seq<DiagnosticView> },
    /// Stopped, having said this.
    Stopped(Seq<DiagnosticView>),
    /// Stopped at a name that names nothing, having said this before it.
    Unnamed(Seq<DiagnosticView>),
}

/// The parts, with the text known now after them as one more part where there is any.
pub open spec fn flushed(parts: Seq<Part>, so_far: Seq<char>) -> Seq<Part> {
    if so_far.len() == 0 {
        parts
    } else {
        parts.push(Part::Known(so_far))
    }
}

/// What a piece that is not text is told when it is joined to text.
pub open spec fn not_text(found: TyView, at: Span, ty_span: Span) -> DiagnosticView {
    DiagnosticView {
        code: "E0411"@,
        message: "this is "@ + article_of(found) + " `"@ + name_of(found) + "`, and text is made of text."@,
        rules: seq!["pieces side by side join, and nothing converts on its own"@],
        tips: seq![
            "a `print` shows any type because showing is not joining -- it writes one piece after another and builds nothing."@,
        ],
        fixes: seq!["declare it `str`, or print the pieces separately"@],
        labels: seq![
            (at, article_of(found) + " `"@ + name_of(found) + "`"@, LabelStyle::Primary),
            (ty_span, "declared `str` here"@, LabelStyle::Secondary),
        ],
    }
}

/// What something worked out, other than an element or a call, is told among the
/// pieces of text.
pub open spec fn bracketed(at: Span) -> DiagnosticView {
    pointed(
        "E0415"@,
        "brackets group something to work out, and text is not worked out."@,
        at,
        "here"@,
        "text is a list of pieces, written side by side"@,
        seq![],
        "remove the brackets"@,
    )
}

/// Joining one more term.
pub open spec fn join_step<'a>(c: Checker<'a>, j: Joining, t: Term, ty_span: Span) -> Joining {
    match j {
        Joining::Going { parts, so_far, told } => match t {
            Term::Piece(Piece::Name(at)) => match c.held_view(name_at(c.source, at)) {
                None => Joining::Unnamed(told),
                Some((v, found)) => if found == TyView::Str {
                    Joining::Going { parts: flushed(parts, so_far).push(Part::Found(v)), so_far: Seq::empty(), told }
                } else {
                    Joining::Stopped(told.push(not_text(found, at, ty_span)))
                },
            },
            Term::Piece(p) => match literal_view(c.source, p) {
                (Some(x), _) => Joining::Going { parts, so_far: so_far + x, told },
                (None, e) => Joining::Stopped(told + e),
            },
            Term::Worked { span, element, built, told: w } => if !element {
                Joining::Stopped(told.push(bracketed(span)))
            } else {
                match built {
                    None => Joining::Stopped(told + said(w@)),
                    Some(v) => {
                        let more = told + said(w@) + complaints(c.locals@, c.constants@, c.signatures@, v, span);
                        match typed(c.locals@, c.constants@, c.signatures@, v) {
                            None => Joining::Stopped(more),
                            Some(found) => if found == TyView::Str {
                                Joining::Going {
                                    parts: flushed(parts, so_far).push(Part::Found(v)),
                                    so_far: Seq::empty(),
                                    told: more,
                                }
                            } else {
                                Joining::Stopped(more.push(not_text(found, span, ty_span)))
                            },
                        }
                    },
                }
            },
            _ => Joining::Stopped(told.push(bracketed(term_span(t)))),
        },
        _ => j,
    }
}

/// Joining the terms in order, stopping at the first that cannot be joined.
pub open spec fn joining<'a>(c: Checker<'a>, terms: Seq<Term>, ty_span: Span) -> Joining
    decreases terms.len(),
{
    if terms.len() == 0 {
        Joining::Going { parts: Seq::empty(), so_far: Seq::empty(), told: Seq::empty() }
    } else {
        join_step(c, joining(c, terms.drop_last(), ty_span), terms.last(), ty_span)
    }
}

/// Whether these values are these parts, one for one.
pub open spec fn made_of(values: Seq<Value>, parts: Seq<Part>) -> bool {
    &&& values.len() == parts.len()
    &&& forall|i: int| 0 <= i < parts.len() ==> match #[trigger] parts[i] {
        Part::Known(k) => values[i] matches Value::Text(t) && t@ == k,
        Part::Found(v) => values[i] == v,
    }
}

/// Whether `v` is the text these parts and the text after them make: one piece of text
/// where all of it is known now, and the pieces joined where it is not.
pub open spec fn shows(v: Value, parts: Seq<Part>, so_far: Seq<char>) -> bool {
    if parts.len() == 0 {
        v matches Value::Text(t) && t@ == so_far
    } else {
        v matches Value::Join(ps) && made_of(ps@, flushed(parts, so_far))
    }
}

/// Whether every index, call and path among the terms comes worked out, and every value
/// worked out refers only to what the checker holds.
pub open spec fn terms_worked<'a>(c: Checker<'a>, terms: Seq<Term>) -> bool {
    forall|i: int| 0 <= i < terms.len() ==> match #[trigger] terms[i] {
        Term::Piece(p) => !(p is Path || p is At || p is Call),
        Term::Worked { built, .. } => built matches Some(v) ==> refs_ok(c.locals@, c.constants@, c.signatures@, v),
        _ => true,
    }
}

/// What an array's written elements come to, counted against its type.
pub enum Fits {
    /// Refused, and what was wrong has been said.
    Refused,
    /// Nothing under the array says where a row ends, so it is written empty and
    /// starts as this many empty rows.
    EmptyRows(usize),
    /// As many as the type takes: exactly its count where its size was said, or whole
    /// rows where it grows.
    Counted,
}

/// A complaint with two labels: the place it is about, and where the type was declared.
pub open spec fn at_and_declared(
    code: Seq<char>,
    message: Seq<char>,
    at: Span,
    note: Seq<char>,
    ty_span: Span,
    declared: Seq<char>,
    rule: Seq<char>,
    tips: Seq<Seq<char>>,
    fix: Seq<char>,
) -> DiagnosticView {
    DiagnosticView {
        code,
        message,
        rules: seq![rule],
        tips,
        fixes: seq![fix],
        labels: seq![(at, note, LabelStyle::Primary), (ty_span, declared, LabelStyle::Secondary)],
    }
}

/// What counting `written` elements against an array of `of`, shaped `shape`, gives:
/// `value` is the whole value, `between` the brackets round the elements.
pub open spec fn fits_view(
    of: TyView,
    shape: Seq<usize>,
    length: Length,
    written: nat,
    value: Span,
    between: Span,
    ty_span: Span,
) -> (Fits, Seq<DiagnosticView>) {
    let all = count_of(of) * product(shape);
    if length == Length::Unknown || unsaid_view(of) {
        (
            Fits::Refused,
            seq![
                at_and_declared(
                    "E0510"@,
                    "an array whose length is `any` is one that arrived, not one written here."@,
                    value,
                    "here"@,
                    ty_span,
                    "declared `any` here"@,
                    "`any` says the number was never said, so nothing here knows how many elements to expect"@,
                    seq!["`grow` is the word for an array that starts empty and is filled, and it may be added to."@],
                    "say a number, or `grow`, or name an array that was handed in"@,
                ),
            ],
        )
    } else if !settled_view(of) {
        if written > 0 {
            (
                Fits::Refused,
                seq![
                    at_and_declared(
                        "E0484"@,
                        "nothing here says where one row ends."@,
                        between,
                        "here"@,
                        ty_span,
                        "what this holds says `grow`"@,
                        "elements are written flat and cut into rows, and a row of something that grows has no length to cut at"@,
                        seq!["`add` is how one of these is filled, one array at a time."@],
                        "write it empty, as `[[]]`"@,
                    ),
                ],
            )
        } else {
            (Fits::EmptyRows(if length == Length::Said { product(shape) as usize } else { 0 }), Seq::empty())
        }
    } else if length != Length::Said {
        if all == 0 || written % all != 0 {
            (
                Fits::Refused,
                seq![
                    at_and_declared(
                        "E0481"@,
                        "this grows in rows of "@ + counted_view(all, "element"@) + ", and "@ + counted_view(written, "element"@)
                            + " were written."@,
                        between,
                        counted_view(written, "element"@) + " here"@,
                        ty_span,
                        "declared `grow`"@,
                        "a growing array holds whole rows of whatever is under it, however many rows it has"@,
                        seq!["`(grow grow)` can only be written empty, because nothing says where one row ends."@],
                        "write a multiple of "@ + decimal(all),
                    ),
                ],
            )
        } else {
            (Fits::Counted, Seq::empty())
        }
    } else if written != all {
        (
            Fits::Refused,
            seq![
                at_and_declared(
                    "E0431"@,
                    "this holds "@ + decimal(all) + " element(s), and "@ + decimal(written) + " were written."@,
                    between,
                    decimal(written) + " here"@,
                    ty_span,
                    "declared ("@ + spaced(shape.map_values(|n: usize| decimal(n as nat))) + ")"@,
                    "a shaped array is written flat, row by row, since the type already gave the shape"@,
                    seq![],
                    if written < all { "write the missing ones"@ } else { "remove the extra ones"@ },
                ),
            ],
        )
    } else {
        (Fits::Counted, Seq::empty())
    }
}

/// Whether the shape, and a whole allocation of the array, can be counted in a `usize`.
pub open spec fn shape_fits(of: TyView, shape: Seq<usize>) -> bool {
    &&& count_fits(of)
    &&& forall|k: int| 0 <= k <= shape.len() ==> #[trigger] product(shape.take(k)) <= usize::MAX
    &&& count_of(of) * product(shape) <= usize::MAX
}

/// What reading written digits as a whole number of some width gave.
pub enum Whole {
    /// The number, which fits.
    Read(i64),
    /// A whole number, but not one this width holds.
    Outside,
    /// Not a whole number at all.
    NotOne,
}

/// What a whole-number type holds, from its least to its greatest.
pub open spec fn holds_view(bits: u8, signed: bool) -> Seq<char> {
    if signed {
        if bits == 8 {
            "-128 to 127"@
        } else if bits == 16 {
            "-32768 to 32767"@
        } else if bits == 32 {
            "-2147483648 to 2147483647"@
        } else {
            "-9223372036854775808 to 9223372036854775807"@
        }
    } else {
        if bits == 8 {
            "0 to 255"@
        } else if bits == 16 {
            "0 to 65535"@
        } else if bits == 32 {
            "0 to 4294967295"@
        } else {
            "0 to 18446744073709551615"@
        }
    }
}

/// What reading `digits` as a whole-number type gives, once the digits were read as
/// `read`: the number, or nothing and what is said about it, pointing at `at`.
pub open spec fn whole_view(digits: Seq<char>, bits: u8, signed: bool, at: Span, read: Whole) -> (Option<Value>, Seq<DiagnosticView>) {
    let t = TyView::Int { bits, signed };
    match read {
        Whole::Read(n) => (Some(Value::Number { value: n, bits, signed }), Seq::empty()),
        Whole::Outside => (
            None,
            seq![
                pointed(
                    "E0489"@,
                    "`"@ + digits + "` does not fit in "@ + article_of(t) + " `"@ + name_of(t) + "`."@,
                    at,
                    "here"@,
                    "`"@ + name_of(t) + "` holds "@ + holds_view(bits, signed),
                    seq![
                        if !signed && digits.len() > 0 && digits[0] == '-' {
                            "an unsigned type holds no negative number at all."@
                        } else {
                            "a written value is read by the type it is given to, and this one has an edge."@
                        },
                    ],
                    "write a number in that range, or declare it a wider type"@,
                ),
            ],
        ),
        Whole::NotOne => (
            None,
            seq![
                pointed(
                    "E0407"@,
                    "`"@ + digits + "` is not "@ + article_of(t) + " `"@ + name_of(t) + "`."@,
                    at,
                    "here"@,
                    "a written value is read by the type it is given to, and `"@ + name_of(t) + "` reads whole numbers"@,
                    seq![
                        if signed {
                            "a negative one wears its minus inside the marks."@
                        } else {
                            "an unsigned type holds no negative number at all."@
                        },
                    ],
                    "write a whole number"@,
                ),
            ],
        ),
    }
}

/// The digits of a whole number as `i64` reads them: everything after one optional sign.
pub open spec fn signed_digits(w: Seq<char>) -> Seq<char> {
    if w.len() > 0 && (w[0] == '+' || w[0] == '-') {
        w.drop_first()
    } else {
        w
    }
}

/// Whether `i64` reads a number from this text: one or more decimal digits, with one
/// optional sign before them, that make a number it holds.
pub open spec fn reads_as_i64(w: Seq<char>) -> bool {
    let digits = signed_digits(w);
    &&& digits.len() > 0
    &&& all_digits(digits)
    &&& if w[0] == '-' {
        digits_value(digits) <= 0x8000_0000_0000_0000
    } else {
        digits_value(digits) <= 0x7fff_ffff_ffff_ffff
    }
}

/// The number `i64` reads from text it reads one from.
pub open spec fn i64_value(w: Seq<char>) -> int {
    if w[0] == '-' {
        -digits_value(signed_digits(w))
    } else {
        digits_value(signed_digits(w)) as int
    }
}

/// Whether `u64` reads a number from this text: one or more decimal digits, with an
/// optional `+` before them, that make a number it holds.
pub open spec fn reads_as_u64(w: Seq<char>) -> bool {
    let digits = unsigned_digits(w);
    &&& digits.len() > 0
    &&& all_digits(digits)
    &&& digits_value(digits) <= 0xffff_ffff_ffff_ffff
}

/// One piece of a `print`.
pub enum Shown {
    /// A name, written text, a written value that says its type, or an escape.
    Piece(Piece),
    /// Something worked out on its own (an element, a call, a constant through a path,
    /// or a value written as a float, a decimal or an `e`, which are read elsewhere):
    /// what it came to and its type, if it came to anything, and what working it out
    /// said.
    Worked { built: Option<(Value, Ty)>, told: Vec<Diagnostic> },
}

/// What a `print` holds of one piece: text to write as it is, or a value and its type.
pub enum ShownView {
    Text(Seq<char>),
    Value(Value, TyView),
}

/// Whether a piece of a `print` can be read here: its spans cut the source, and a
/// written value that says its type says one read here.
pub open spec fn shown_ok(source: &str, p: Shown) -> bool {
    match p {
        Shown::Piece(Piece::Written { ty: Some(t), mark }) => {
            &&& cuts(source, t)
            &&& reads_as_name(source, mark)
            &&& !(simple_view(text_at(source, t)) matches Some(k) && (k is Exact || k is F64 || k is F32 || k is F16
                || k is Decimal))
        },
        Shown::Piece(Piece::Written { ty: None, mark }) => reads_as_name(source, mark),
        Shown::Piece(Piece::Name(s)) => reads_as_name(source, s),
        Shown::Piece(Piece::Escape(s)) => cuts(source, s),
        Shown::Piece(_) => false,
        Shown::Worked { .. } => true,
    }
}

/// What a written value with no type in front of it is told in a `print`.
pub open spec fn untyped_view(source: &str, mark: Span) -> DiagnosticView {
    pointed(
        "E0412"@,
        "this written value does not say what it is."@,
        mark,
        "no type in front of it"@,
        "a written value means nothing until a type reads it: `*1000*` is a number under `i64` and four characters under `str`"@,
        seq!["a declaration says the type in its chain, so only here does the value have to."@],
        "`str:"@ + text_at(source, mark) + "` if it is text"@,
    )
}

/// What one piece of a `print` gives: what is shown, if anything, and what is said,
/// where `None` stands for what looking a name up says of a name that names nothing.
pub open spec fn shown_view<'a>(c: Checker<'a>, p: Shown) -> (Option<ShownView>, Seq<Option<DiagnosticView>>) {
    match p {
        Shown::Piece(Piece::Name(s)) => match c.held_view(name_at(c.source, s)) {
            Some((v, t)) => (Some(ShownView::Value(v, t)), Seq::empty()),
            None => (None, seq![None]),
        },
        Shown::Piece(Piece::Written { ty: None, mark }) => (None, seq![Some(untyped_view(c.source, mark))]),
        Shown::Piece(Piece::Written { ty: Some(t), mark }) => {
            let word = text_at(c.source, t);
            let written = name_at(c.source, mark);
            match simple_view(word) {
                None => (
                    None,
                    seq![
                        Some(
                            pointed(
                                "E0402"@,
                                "`"@ + word + "` is not a type."@,
                                t,
                                "here"@,
                                "a value that says its own type says one of the types there are"@,
                                seq![],
                                "check the spelling"@,
                            ),
                        ),
                    ],
                ),
                Some(TyView::Bool) => if written == "true"@ || written == "false"@ {
                    (Some(ShownView::Text(written)), Seq::empty())
                } else {
                    (
                        None,
                        seq![
                            Some(
                                pointed(
                                    "E0416"@,
                                    "`"@ + written + "` is not true or false."@,
                                    mark,
                                    "here"@,
                                    "a `bool` is written `*true*` or `*false*`, and nothing is truthy"@,
                                    seq![],
                                    "`*true*` or `*false*`"@,
                                ),
                            ),
                        ],
                    )
                },
                Some(TyView::Int { .. }) => if reads_as_i64(written) {
                    (Some(ShownView::Text(written)), Seq::empty())
                } else {
                    (
                        None,
                        seq![
                            Some(
                                pointed(
                                    "E0407"@,
                                    "`"@ + written + "` is not a whole number."@,
                                    mark,
                                    "here"@,
                                    "a written value is read by the type it is given to, and `i64` reads whole numbers"@,
                                    seq![],
                                    "write a whole number"@,
                                ),
                            ),
                        ],
                    )
                },
                _ => (Some(ShownView::Text(written)), Seq::empty()),
            }
        },
        Shown::Piece(Piece::Escape(s)) => match literal_view(c.source, Piece::Escape(s)) {
            (Some(t), _) => (Some(ShownView::Text(t)), Seq::empty()),
            (None, e) => (None, e.map_values(|d: DiagnosticView| Some(d))),
        },
        Shown::Piece(_) => (None, Seq::empty()),
        Shown::Worked { built, told } => (
            match built {
                Some((v, t)) => Some(ShownView::Value(v, t@)),
                None => None,
            },
            said(told@).map_values(|d: DiagnosticView| Some(d)),
        ),
    }
}

/// What the pieces of a `print` give, in order, and everything said about them.
pub open spec fn shown_all<'a>(c: Checker<'a>, ps: Seq<Shown>) -> (Seq<ShownView>, Seq<Option<DiagnosticView>>)
    decreases ps.len(),
{
    if ps.len() == 0 {
        (Seq::empty(), Seq::empty())
    } else {
        let (shown, told) = shown_all(c, ps.drop_last());
        let (one, more) = shown_view(c, ps.last());
        (
            match one {
                Some(v) => shown.push(v),
                None => shown,
            },
            told + more,
        )
    }
}

/// Whether what a `print` holds is what these views say, one for one.
pub open spec fn printed_as(ps: Seq<Printed>, vs: Seq<ShownView>) -> bool {
    &&& ps.len() == vs.len()
    &&& forall|i: int| 0 <= i < vs.len() ==> match #[trigger] vs[i] {
        ShownView::Text(t) => ps[i] matches Printed::Text(s) && s@ == t,
        ShownView::Value(v, t) => ps[i] matches Printed::Value { value, ty } && value == v && ty@ == t,
    }
}

/// Whether `errors` are `before` with one more for each of `told`, each as it says, a
/// `None` being whatever looking a name up said.
pub open spec fn told_after(errors: Seq<Diagnostic>, before: Seq<Diagnostic>, told: Seq<Option<DiagnosticView>>) -> bool {
    &&& errors.len() == before.len() + told.len()
    &&& said(errors).take(before.len() as int) == said(before)
    &&& forall|i: int| 0 <= i < told.len() ==> match #[trigger] told[i] {
        Some(d) => errors[before.len() + i]@ == d,
        None => errors[before.len() + i].code@ == "E0413"@,
    }
}

/// What a `print` to something that is not a stream is told.
pub open spec fn no_stream(source: &str, to: Span) -> DiagnosticView {
    pointed(
        "E0442"@,
        "`"@ + text_at(source, to) + "` is not somewhere to print."@,
        to,
        "here"@,
        "a `print` says where it goes, because a reader should not have to know a default"@,
        seq!["there is `stdout` and `stderr`."@],
        "`stdout` for the ordinary one"@,
    )
}

/// The stream a word names.
pub open spec fn stream_named(word: Seq<char>) -> Option<Stream> {
    if word == "stdout"@ {
        Some(Stream::Stdout)
    } else if word == "stderr"@ {
        Some(Stream::Stderr)
    } else {
        None
    }
}

/// What is given to a hole a type the caller did not fill it with.
pub open spec fn hole_given(found: TyView, ty: TyView, at: Span, ty_span: Span) -> DiagnosticView {
    DiagnosticView {
        code: "E0406"@,
        message: "this is "@ + article_of(found) + " `"@ + name_of(found) + "`, and it is being given to "@
            + article_of(ty) + " `"@ + name_of(ty) + "`."@,
        rules: seq!["a hole is one type, the same one everywhere in a signature — and the caller decides which"@],
        tips: seq![],
        fixes: seq!["name something the function was given, or declare it `"@ + name_of(found) + "`"@],
        labels: seq![
            (at, article_of(found) + " `"@ + name_of(found) + "`"@, LabelStyle::Primary),
            (ty_span, "declared `"@ + name_of(ty) + "` here"@, LabelStyle::Secondary),
        ],
    }
}

/// What a value that is one thing worked out on its own (an index, a call, brackets)
/// comes to where `ty` is wanted: what working it out said, then its type, which has to
/// be the one wanted, or one a hole takes.
pub open spec fn alone_view<'a>(
    c: Checker<'a>,
    span: Span,
    built: Option<Value>,
    told: Seq<DiagnosticView>,
    ty: TyView,
    ty_span: Span,
) -> (Option<Value>, Seq<DiagnosticView>) {
    match built {
        None => (None, told),
        Some(v) => {
            let more = told + complaints(c.locals@, c.constants@, c.signatures@, v, span);
            match typed(c.locals@, c.constants@, c.signatures@, v) {
                None => (None, more),
                Some(found) => if ty is Hole {
                    if accepts_view(ty, found) {
                        (Some(v), more)
                    } else {
                        (None, more.push(hole_given(found, ty, span, ty_span)))
                    }
                } else if found == ty {
                    (Some(v), more)
                } else {
                    (None, more.push(given_view(found, ty, span, ty_span, "declare it the same type"@)))
                },
            }
        },
    }
}

/// What a number or a hole written as several pieces side by side is told, pointing at
/// `at`: all the pieces where a count of them is shown, the whole value otherwise.
pub open spec fn several_view(ty: TyView, at: Span, count: nat, ty_span: Span) -> DiagnosticView {
    match ty {
        TyView::Int { .. } => at_and_declared(
            "E0408"@,
            "a number is one written value, not several."@,
            at,
            decimal(count) + " pieces here"@,
            ty_span,
            "declared `i64` here"@,
            "pieces side by side build text; a number is written once"@,
            seq!["`str` is the type where a value is a list of pieces."@],
            "write it as one value, or put `+` between them"@,
        ),
        TyView::Hole(_) => at_and_declared(
            "E0408"@,
            article_of(ty) + " `"@ + name_of(ty) + "` is one value, not several."@,
            at,
            decimal(count) + " pieces here"@,
            ty_span,
            "declared `"@ + name_of(ty) + "` here"@,
            "pieces side by side build text, and a hole is not known to be text"@,
            seq![],
            "write it as one value"@,
        ),
        TyView::Exact => at_and_declared(
            "E0475"@,
            "an `e` is one written value, not several."@,
            at,
            "here"@,
            ty_span,
            "declared `e` here"@,
            "pieces side by side build text; a number is written once"@,
            seq![],
            "write it as one value, or put an operator between them"@,
        ),
        _ => at_and_declared(
            "E0487"@,
            "a `"@ + name_of(ty) + "` is one written value, not several."@,
            at,
            "here"@,
            ty_span,
            "declared `"@ + name_of(ty) + "` here"@,
            "pieces side by side build text; a number is written once"@,
            seq![],
            "write it as one value, or put an operator between them"@,
        ),
    }
}

/// What the number readings made of a written value, at the type that reads it. They
/// belong to the language's number crate, so what they made is handed in.
pub enum Reading {
    /// A whole-number type read it.
    Whole(Whole),
    /// `e` read it, and whether it is an exact number.
    Exact(bool),
    /// `d32` or `d64` read it, and whether it is a decimal of that many digits.
    Decimal(bool),
    /// A binary float read it: the nearest one of that width, as its bits, if it is a
    /// number at all.
    Float(Option<u64>),
    /// Nothing read it, because no number type was asked to.
    Unread,
}

/// What a term works out to, with any text in it as a sequence of characters.
pub enum Made {
    Is(Value),
    Text(Seq<char>),
    Exact(Seq<char>),
    Decimal { written: Seq<char>, digits: u32 },
}

/// Whether `v` is what `m` says.
pub open spec fn made_as(v: Value, m: Made) -> bool {
    match m {
        Made::Is(w) => v == w,
        Made::Text(t) => v matches Value::Text(s) && s@ == t,
        Made::Exact(t) => v matches Value::Exact(s) && s@ == t,
        Made::Decimal { written, digits } => v matches Value::Decimal { written: s, digits: d } && s@ == written
            && d == digits,
    }
}

/// The type of what a term made.
pub open spec fn made_typed<'a>(c: Checker<'a>, m: Made) -> Option<TyView> {
    match m {
        Made::Is(v) => typed(c.locals@, c.constants@, c.signatures@, v),
        Made::Text(_) => Some(TyView::Str),
        Made::Exact(_) => Some(TyView::Exact),
        Made::Decimal { digits, .. } => Some(TyView::Decimal { digits }),
    }
}

/// What working out the type of what a term made says.
pub open spec fn made_complaints<'a>(c: Checker<'a>, m: Made, span: Span) -> Seq<DiagnosticView> {
    match m {
        Made::Is(v) => complaints(c.locals@, c.constants@, c.signatures@, v, span),
        _ => Seq::empty(),
    }
}

/// Each of these, said as it is.
pub open spec fn somes(e: Seq<DiagnosticView>) -> Seq<Option<DiagnosticView>> {
    e.map_values(|d: DiagnosticView| Some(d))
}

/// The width of a binary float type.
pub open spec fn float_width(t: TyView) -> u8 {
    match t {
        TyView::F16 => 16,
        TyView::F32 => 32,
        _ => 64,
    }
}

/// A written value a binary float type reads.
pub open spec fn float_view(w: Seq<char>, t: TyView, at: Span, read: Reading) -> (Option<Made>, Seq<Option<DiagnosticView>>) {
    match read {
        Reading::Float(Some(bits)) => (Some(Made::Is(Value::Float { bits, width: float_width(t) })), Seq::empty()),
        _ => (
            None,
            seq![
                Some(
                    pointed(
                        "E0486"@,
                        "`"@ + w + "` is not a `"@ + name_of(t) + "`."@,
                        at,
                        "here"@,
                        "a binary float is written as a number with or without a point: `*1.5*`, `*-0.25*`, `*3*`"@,
                        seq!["`infinity` and `not-a-number` are answers a program can reach, and not things it can write."@],
                        "write a number"@,
                    ),
                ),
            ],
        ),
    }
}

/// The name of the decimal type that keeps this many digits.
pub open spec fn decimal_name(digits: u32) -> Seq<char> {
    if digits == 7 {
        "d32"@
    } else {
        "d64"@
    }
}

/// A written value a decimal type reads.
pub open spec fn decimal_view(w: Seq<char>, digits: u32, at: Span, read: Reading) -> (Option<Made>, Seq<Option<DiagnosticView>>) {
    match read {
        Reading::Decimal(true) => (Some(Made::Decimal { written: w, digits }), Seq::empty()),
        _ => (
            None,
            seq![
                Some(
                    pointed(
                        "E0489"@,
                        "`"@ + w + "` is not a `"@ + decimal_name(digits) + "`."@,
                        at,
                        "here"@,
                        "a decimal float is written as a number with or without a point: `*1.5*`, `*-0.25*`, `*3*`"@,
                        seq!["a ratio is not one of them — `*1/3*` is an `e`, and a third is what a decimal cannot hold."@],
                        "write a number"@,
                    ),
                ),
            ],
        ),
    }
}

/// A written value `e` reads.
pub open spec fn exact_view(w: Seq<char>, at: Span, read: Reading) -> (Option<Made>, Seq<Option<DiagnosticView>>) {
    match read {
        Reading::Exact(true) => (Some(Made::Exact(w)), Seq::empty()),
        _ => (
            None,
            seq![
                Some(
                    pointed(
                        "E0474"@,
                        "`"@ + w + "` is not an exact number."@,
                        at,
                        "here"@,
                        "an `e` is written `*12*`, `*-3/4*` or `*0.1*`, and all three are exact"@,
                        seq![],
                        "write a whole number, a ratio, or a decimal"@,
                    ),
                ),
            ],
        ),
    }
}

/// A written value in a sum whose chain says no number type: a whole number read as an
/// `i64`, or `*true*` or `*false*`.
pub open spec fn plain_view(w: Seq<char>, at: Span) -> (Option<Made>, Seq<Option<DiagnosticView>>) {
    if reads_as_i64(w) {
        (Some(Made::Is(Value::Number { value: i64_value(w) as i64, bits: 64, signed: true })), Seq::empty())
    } else if w == "true"@ {
        (Some(Made::Is(Value::Bool(true))), Seq::empty())
    } else if w == "false"@ {
        (Some(Made::Is(Value::Bool(false))), Seq::empty())
    } else {
        (
            None,
            seq![
                Some(
                    pointed(
                        "E0407"@,
                        "`"@ + w + "` is not a whole number."@,
                        at,
                        "here"@,
                        "a written value in a sum is read as a number"@,
                        seq!["`e:*0.1*` and `b64:*0.1*` are how a value says its own type where the chain does not."@],
                        "write a whole number, or say `e:` or `b64:` in front of it"@,
                    ),
                ),
            ],
        )
    }
}

/// What reading written digits at a whole-number type made.
pub open spec fn whole_made(w: Seq<char>, bits: u8, signed: bool, at: Span, read: Whole) -> (Option<Made>, Seq<Option<DiagnosticView>>) {
    let (r, e) = whole_view(w, bits, signed, at, read);
    (
        match r {
            Some(v) => Some(Made::Is(v)),
            None => None,
        },
        somes(e),
    )
}

/// A written value in a term: read by the type written in front of it, or else by the
/// type the chain reads the term at.
pub open spec fn written_view(source: &str, ty: Option<Span>, mark: Span, reading: TyView, read: Reading) -> (Option<Made>, Seq<Option<DiagnosticView>>) {
    let w = name_at(source, mark);
    match ty {
        None => match reading {
            TyView::Hole(h) => (
                None,
                seq![
                    Some(
                        pointed(
                            "E0509"@,
                            "this written value is what says which type the hole is, so it has to say."@,
                            mark,
                            "no type in front of it"@,
                            "`"@ + hole_word(h)
                                + "` is filled by what the argument holds, and a written value holds nothing until a type reads it"@,
                            seq!["naming a variable says it instead, because a variable was declared with a type."@],
                            "`str:"@ + text_at(source, mark) + "`, or whichever type was meant"@,
                        ),
                    ),
                ],
            ),
            TyView::F64 => float_view(w, reading, mark, read),
            TyView::F32 => float_view(w, reading, mark, read),
            TyView::F16 => float_view(w, reading, mark, read),
            TyView::Decimal { digits } => decimal_view(w, digits, mark, read),
            TyView::Exact => exact_view(w, mark, read),
            TyView::Int { bits, signed } => match read {
                Reading::Whole(Whole::Read(n)) => (Some(Made::Is(Value::Number { value: n, bits, signed })), Seq::empty()),
                Reading::Whole(wh) => if reads_as_i64(w) || reads_as_u64(w) {
                    whole_made(w, bits, signed, mark, wh)
                } else {
                    plain_view(w, mark)
                },
                _ => plain_view(w, mark),
            },
            _ => plain_view(w, mark),
        },
        Some(t) => {
            let word = text_at(source, t);
            match simple_view(word) {
                Some(TyView::Exact) => exact_view(w, mark, read),
                Some(TyView::Int { bits, signed }) => match read {
                    Reading::Whole(wh) => whole_made(w, bits, signed, mark, wh),
                    _ => (None, Seq::empty()),
                },
                Some(TyView::F64) => float_view(w, TyView::F64, mark, read),
                Some(TyView::F32) => float_view(w, TyView::F32, mark, read),
                Some(TyView::F16) => float_view(w, TyView::F16, mark, read),
                Some(TyView::Decimal { digits }) => decimal_view(w, digits, mark, read),
                Some(TyView::Str) => (Some(Made::Text(w)), Seq::empty()),
                Some(TyView::Bool) => if w == "true"@ {
                    (Some(Made::Is(Value::Bool(true))), Seq::empty())
                } else if w == "false"@ {
                    (Some(Made::Is(Value::Bool(false))), Seq::empty())
                } else {
                    (
                        None,
                        seq![
                            Some(
                                pointed(
                                    "E0416"@,
                                    "`"@ + w + "` is not true or false."@,
                                    mark,
                                    "here"@,
                                    "a `bool` is written `*true*` or `*false*`, and nothing is truthy"@,
                                    seq![],
                                    "`*true*` or `*false*`"@,
                                ),
                            ),
                        ],
                    )
                },
                _ => (
                    None,
                    seq![
                        Some(
                            pointed(
                                "E0409"@,
                                "`"@ + word + "` has nothing to do in a sum."@,
                                t,
                                "said here"@,
                                "a value in a sum says one of the types that are built, and the chain says the rest"@,
                                seq!["this is for where the chain cannot say -- two things compared under a `bool` chain, most often."@],
                                "`e:`, `i64:`, `str:` or `bool:`, or nothing at all"@,
                            ),
                        ),
                    ],
                ),
            }
        },
    }
}

/// What `not` asked of something that is not a `bool` is told.
pub open spec fn not_bool(found: TyView, at: Span, word: Span) -> DiagnosticView {
    at_and_declared(
        "E0418"@,
        "`not` turns a `bool` round, and this is "@ + article_of(found) + " `"@ + name_of(found) + "`."@,
        at,
        article_of(found) + " `"@ + name_of(found) + "`"@,
        word,
        "asked to turn round here"@,
        "nothing is truthy — `not` is for the type that is already true or false"@,
        seq![],
        "compare it against something first"@,
    )
}

/// What `share` or `copy` asked of something that is not an array is told.
pub open spec fn not_array(source: &str, found: TyView, at: Span, word: Span) -> DiagnosticView {
    at_and_declared(
        "E0479"@,
        "`"@ + text_at(source, word) + "` is for arrays, and this is "@ + article_of(found) + " `"@ + name_of(found)
            + "`."@,
        at,
        article_of(found) + " `"@ + name_of(found) + "`"@,
        word,
        "asked here"@,
        "an array is the only thing in Quench a second name can reach, so it is the only thing that has to say which was meant"@,
        seq!["everything else is a value: naming it again is naming the value, and there is nothing to share."@],
        "remove it"@,
    )
}

/// What one term works out to, read at `reading` where nothing in it says its own type:
/// what it made, if anything, and what was said, in order (a `None` being what looking
/// up a name that names nothing says).
pub open spec fn term_view<'a>(c: Checker<'a>, t: Term, reading: TyView, read: Reading) -> (Option<Made>, Seq<Option<DiagnosticView>>)
    decreases t,
{
    match t {
        Term::Number(s) => (
            None,
            seq![
                Some(
                    pointed(
                        "E0436"@,
                        "a bare number is a size, not a value."@,
                        s,
                        "here"@,
                        "a value wears marks, so that a written thing is never read differently depending on where it sits"@,
                        seq![],
                        "`*"@ + text_at(c.source, s) + "*`"@,
                    ),
                ),
            ],
        ),
        Term::Elements { open, close } => (
            None,
            seq![
                Some(
                    pointed(
                        "E0437"@,
                        "this is a list of elements, and nothing here wants one."@,
                        span_to(open, close),
                        "here"@,
                        "elements are written for an array, and the type says which"@,
                        seq![],
                        "declare it `arr`, or remove the brackets"@,
                    ),
                ),
            ],
        ),
        Term::Worked { built, told, .. } => (
            match built {
                Some(v) => Some(Made::Is(v)),
                None => None,
            },
            somes(said(told@)),
        ),
        Term::Piece(Piece::Name(s)) => match c.held_view(name_at(c.source, s)) {
            Some((v, _)) => (Some(Made::Is(v)), Seq::empty()),
            None => (None, seq![None]),
        },
        Term::Piece(Piece::Written { ty, mark }) => written_view(c.source, ty, mark, reading, read),
        Term::Piece(Piece::Escape(s)) => (
            None,
            seq![
                Some(
                    pointed(
                        "E0419"@,
                        "an escape is part of text, not of a sum."@,
                        s,
                        "here"@,
                        "escapes stand beside text, and there is nothing to escape in a number"@,
                        seq![],
                        "remove it"@,
                    ),
                ),
            ],
        ),
        Term::Piece(_) => (None, Seq::empty()),
        Term::Not { word, of, .. } => {
            let (m, e) = term_view(c, *of, reading, read);
            let at = term_span(*of);
            match m {
                None => (None, e),
                Some(m) => {
                    let more = e + somes(made_complaints(c, m, at));
                    match made_typed(c, m) {
                        None => (None, more),
                        Some(found) => match m {
                            Made::Is(v) => if found == TyView::Bool {
                                (Some(Made::Is(Value::Not(Box::new(v)))), more)
                            } else {
                                (None, more.push(Some(not_bool(found, at, word))))
                            },
                            _ => (None, more.push(Some(not_bool(found, at, word)))),
                        },
                    }
                },
            }
        },
        Term::Handed { word, copies, of, .. } => {
            let (m, e) = term_view(c, *of, reading, read);
            let at = term_span(*of);
            match m {
                None => (None, e),
                Some(m) => {
                    let more = e + somes(made_complaints(c, m, at));
                    match made_typed(c, m) {
                        None => (None, more),
                        Some(found) => match m {
                            Made::Is(v) => if found is Arr {
                                (Some(Made::Is(if copies { Value::Copied(Box::new(v)) } else { v })), more)
                            } else {
                                (None, more.push(Some(not_array(c.source, found, at, word))))
                            },
                            _ => (None, more.push(Some(not_array(c.source, found, at, word)))),
                        },
                    }
                },
            }
        },
    }
}

/// Whether a term can be worked out here: its spans cut the source, what it names is
/// read between marks, a path, an element or a call comes worked out, whatever came
/// worked out refers only to what the checker holds, and what the number readings made
/// was made by the type that reads its written value.
pub open spec fn term_fits<'a>(c: Checker<'a>, t: Term, reading: TyView, read: Reading) -> bool
    decreases t,
{
    match t {
        Term::Number(s) => cuts(c.source, s),
        Term::Elements { .. } => true,
        Term::Worked { built, .. } => built matches Some(v) ==> refs_ok(c.locals@, c.constants@, c.signatures@, v),
        Term::Piece(Piece::Name(s)) => reads_as_name(c.source, s),
        Term::Piece(Piece::Escape(_)) => true,
        Term::Piece(Piece::Written { ty, mark }) => {
            &&& reads_as_name(c.source, mark)
            &&& match ty {
                Some(t) => cuts(c.source, t) && reads_fit(simple_view(text_at(c.source, t)), read),
                None => reads_fit(Some(reading), read),
            }
        },
        Term::Piece(_) => false,
        Term::Not { word, of, .. } => term_fits(c, *of, reading, read),
        Term::Handed { word, of, .. } => cuts(c.source, word) && term_fits(c, *of, reading, read),
    }
}

/// Whether what the number readings made was made by this type.
pub open spec fn reads_fit(t: Option<TyView>, read: Reading) -> bool {
    match t {
        Some(TyView::Int { .. }) => read is Whole,
        Some(TyView::Exact) => read is Exact,
        Some(TyView::Decimal { .. }) => read is Decimal,
        Some(TyView::F64) | Some(TyView::F32) | Some(TyView::F16) => read is Float,
        _ => true,
    }
}

/// Whether a value was made as said, or nothing was made where nothing was to be.
pub open spec fn made_or(r: Option<Value>, m: Option<Made>) -> bool {
    match (r, m) {
        (Some(v), Some(m)) => made_as(v, m),
        (None, None) => true,
        _ => false,
    }
}

/// What `not` asked of a worked-out value gives.
pub open spec fn turned_view<'a>(c: Checker<'a>, v: Value, at: Span, word: Span) -> (Option<Value>, Seq<Option<DiagnosticView>>) {
    let cs = somes(complaints(c.locals@, c.constants@, c.signatures@, v, at));
    match typed(c.locals@, c.constants@, c.signatures@, v) {
        None => (None, cs),
        Some(found) => if found == TyView::Bool {
            (Some(Value::Not(Box::new(v))), cs)
        } else {
            (None, cs.push(Some(not_bool(found, at, word))))
        },
    }
}

/// What `share` or `copy` asked of a worked-out value gives.
pub open spec fn handed_view<'a>(c: Checker<'a>, v: Value, at: Span, word: Span, copies: bool) -> (Option<Value>, Seq<Option<DiagnosticView>>) {
    let cs = somes(complaints(c.locals@, c.constants@, c.signatures@, v, at));
    match typed(c.locals@, c.constants@, c.signatures@, v) {
        None => (None, cs),
        Some(found) => if found is Arr {
            (Some(if copies { Value::Copied(Box::new(v)) } else { v }), cs)
        } else {
            (None, cs.push(Some(not_array(c.source, found, at, word))))
        },
    }
}

/// What an array's elements were built into: each element as made, or, for an array
/// of arrays, each row as built, with the type each row holds.
pub enum Built {
    Made(Made),
    Rows(TyView, Seq<Built>),
}

/// Whether `v` is what `b` says was built.
pub open spec fn built_as(v: Value, b: Built) -> bool
    decreases b,
{
    match b {
        Built::Made(m) => made_as(v, m),
        Built::Rows(of, rows) => match v {
            Value::Array { of: o, elements } => {
                &&& o@ == of
                &&& elements@.len() == rows.len()
                &&& forall|i: int| 0 <= i < rows.len() ==> built_as(#[trigger] elements@[i], rows[i])
            },
            _ => false,
        },
    }
}

/// Whether an array was built as said, or nothing was where nothing was to be.
pub open spec fn built_or(r: Option<Value>, b: Option<Built>) -> bool {
    match (r, b) {
        (Some(v), Some(b)) => built_as(v, b),
        (None, None) => true,
        _ => false,
    }
}

/// What an element of an array of another type is told.
pub open spec fn wrong_element(found: TyView, of: TyView, at: Span, ty_span: Span) -> DiagnosticView {
    at_and_declared(
        "E0432"@,
        "this is "@ + article_of(found) + " `"@ + name_of(found) + "`, and the array holds "@ + article_of(of) + " `"@
            + name_of(of) + "`."@,
        at,
        article_of(found) + " `"@ + name_of(found) + "`"@,
        ty_span,
        "declared `arr."@ + name_of(of) + "` here"@,
        "every element of an array is the type the array said, and nothing converts on its own"@,
        seq![],
        "write a `"@ + name_of(of) + "`"@,
    )
}

/// What one element of an array of `of` works out to: text known now where the array
/// holds text and the element is a piece, and otherwise the term read at `of`; then its
/// type, which has to be `of`.
pub open spec fn element_view<'a>(c: Checker<'a>, of: TyView, t: Term, rd: Reading, ty_span: Span) -> (Option<Made>, Seq<Option<DiagnosticView>>) {
    let (m, e) = match t {
        Term::Piece(p) => if of == TyView::Str {
            let (x, e) = literal_view(c.source, p);
            (
                match x {
                    Some(x) => Some(Made::Text(x)),
                    None => None,
                },
                somes(e),
            )
        } else {
            term_view(c, t, of, rd)
        },
        _ => term_view(c, t, of, rd),
    };
    match m {
        None => (None, e),
        Some(m) => {
            let at = term_span(t);
            let more = e + somes(made_complaints(c, m, at));
            match made_typed(c, m) {
                None => (None, more),
                Some(found) => if found == of {
                    (Some(m), more)
                } else {
                    (None, more.push(Some(wrong_element(found, of, at, ty_span))))
                },
            }
        },
    }
}

/// The elements in order, stopping at the first that cannot be one.
pub open spec fn elements_view<'a>(c: Checker<'a>, of: TyView, ws: Seq<(Term, Reading)>, ty_span: Span) -> (Option<Seq<Made>>, Seq<Option<DiagnosticView>>)
    decreases ws.len(),
{
    if ws.len() == 0 {
        (Some(Seq::empty()), Seq::empty())
    } else {
        let (ms, e) = elements_view(c, of, ws.drop_last(), ty_span);
        match ms {
            None => (None, e),
            Some(ms) => {
                let (m, more) = element_view(c, of, ws.last().0, ws.last().1, ty_span);
                match m {
                    None => (None, e + more),
                    Some(m) => (Some(ms.push(m)), e + more),
                }
            },
        }
    }
}

/// What a group written flat and cut out of a longer run is told when it is one thing
/// that is not a piece: the brackets round elements were not written.
pub open spec fn unbracketed(at: Span) -> DiagnosticView {
    pointed(
        "E0430"@,
        "an array is written between brackets."@,
        at,
        "here"@,
        "the elements go in a list of their own, inside the value"@,
        seq![],
        "`[[*1* *2* *3*]]`"@,
    )
}

/// The rows of an array of `of`, written flat: built as rows of `of` where it is an array
/// itself, and as elements otherwise.
pub open spec fn rows_view<'a>(c: Checker<'a>, of: TyView, ws: Seq<(Term, Reading)>, ty_span: Span) -> (Option<Built>, Seq<Option<DiagnosticView>>)
    decreases of, 2int, 0int,
{
    match of {
        TyView::Arr { .. } => {
            let (rows, e) = groups_view(c, of, ws, ty_span);
            (
                match rows {
                    Some(rows) => Some(Built::Rows(of, rows)),
                    None => None,
                },
                e,
            )
        },
        _ => {
            let (ms, e) = elements_view(c, of, ws, ty_span);
            (
                match ms {
                    Some(ms) => Some(Built::Rows(of, ms.map_values(|m: Made| Built::Made(m)))),
                    None => None,
                },
                e,
            )
        },
    }
}

/// The groups, each as many elements as one row of `of` takes, in order, stopping at the
/// first that cannot be built.
pub open spec fn groups_view<'a>(c: Checker<'a>, of: TyView, ws: Seq<(Term, Reading)>, ty_span: Span) -> (Option<Seq<Built>>, Seq<Option<DiagnosticView>>)
    decreases of, 1int, ws.len(),
{
    let each = count_of(of);
    if each == 0 || ws.len() < each {
        (Some(Seq::empty()), Seq::empty())
    } else {
        let (rows, e) = groups_view(c, of, ws.take(ws.len() - each), ty_span);
        match rows {
            None => (None, e),
            Some(rows) => {
                let (row, more) = group_view(c, of, ws.skip(ws.len() - each), ty_span);
                match row {
                    None => (None, e + more),
                    Some(row) => (Some(rows.push(row)), e + more),
                }
            },
        }
    }
}

/// One group, built as an array of what `of` holds.
pub open spec fn group_view<'a>(c: Checker<'a>, of: TyView, group: Seq<(Term, Reading)>, ty_span: Span) -> (Option<Built>, Seq<Option<DiagnosticView>>)
    decreases of, 0int, 0int,
{
    match of {
        TyView::Arr { of: inner, .. } => if group.len() == 1 && !(group[0].0 is Piece) {
            (None, seq![Some(unbracketed(term_span(group[0].0)))])
        } else {
            rows_view(c, *inner, group, ty_span)
        },
        _ => (None, Seq::empty()),
    }
}

/// Whether the elements of an array of `of` can be built here: there are whole rows of
/// them, each can be worked out read at what the array holds at the bottom, and none is
/// a list of elements of its own.
pub open spec fn rows_fit<'a>(c: Checker<'a>, of: TyView, ws: Seq<(Term, Reading)>) -> bool {
    &&& count_of(of) >= 1
    &&& (ws.len() as int) % (count_of(of) as int) == 0
    &&& count_fits(of)
    &&& forall|i: int| 0 <= i < ws.len() ==> element_fits(c, leaf(of), #[trigger] ws[i])
}

/// What an array of arrays holds at the bottom.
pub open spec fn leaf(t: TyView) -> TyView
    decreases t,
{
    match t {
        TyView::Arr { of, .. } => leaf(*of),
        _ => t,
    }
}

/// Whether one element can be worked out, read at `of`.
pub open spec fn element_fits<'a>(c: Checker<'a>, of: TyView, w: (Term, Reading)) -> bool {
    &&& !(w.0 is Elements)
    &&& match w.0 {
        Term::Piece(p) => if of == TyView::Str {
            piece_ok(c.source, p) && !(p is Path || p is At || p is Call)
        } else {
            term_fits(c, w.0, of, w.1)
        },
        _ => term_fits(c, w.0, of, w.1),
    }
}

/// What an element was made as, before its type is looked at.
pub open spec fn element_made<'a>(c: Checker<'a>, of: TyView, t: Term, rd: Reading) -> Made {
    match t {
        Term::Piece(p) => if of == TyView::Str {
            Made::Text(literal_view(c.source, p).0->0)
        } else {
            term_view(c, t, of, rd).0->0
        },
        _ => term_view(c, t, of, rd).0->0,
    }
}

/// What making an element said, before its type is looked at.
pub open spec fn element_said<'a>(c: Checker<'a>, of: TyView, t: Term, rd: Reading) -> Seq<Option<DiagnosticView>> {
    match t {
        Term::Piece(p) => if of == TyView::Str {
            somes(literal_view(c.source, p).1)
        } else {
            term_view(c, t, of, rd).1
        },
        _ => term_view(c, t, of, rd).1,
    }
}

/// Whether the spans a piece is read through can be read in `source`.
pub open spec fn piece_ok(source: &str, p: Piece) -> bool {
    match p {
        Piece::Written { mark, .. } => reads_as_name(source, mark),
        Piece::Escape(s) => cuts(source, s),
        Piece::Name(s) => reads_as_name(source, s),
        Piece::Path(links) => links@.len() > 0,
        _ => true,
    }
}

/// What joining an element or a call to text is told: it cannot be done yet.
pub open spec fn element_not_yet(at: Span) -> DiagnosticView {
    pointed(
        "E0411"@,
        "an element cannot be one piece of a longer value yet."@,
        at,
        "here"@,
        "joining something to text builds a new value, and building one needs the collector"@,
        seq![],
        "print the pieces separately"@,
    )
}

/// What joining a name to text is told: it cannot be done yet, though a value that is
/// only the name can.
pub open spec fn name_not_yet(at: Span) -> DiagnosticView {
    pointed(
        "E0411"@,
        "a name cannot be one piece of a longer value yet."@,
        at,
        "here"@,
        "joining a name to something else builds a new value, and building one needs the collector"@,
        seq!["a value that is *only* a name works — that copies rather than builds."@],
        "declare it on its own, and print the pieces separately"@,
    )
}

/// What reading one piece as text known now gives: the text, or nothing and what was
/// said about it.
pub open spec fn literal_view(source: &str, p: Piece) -> (Option<Seq<char>>, Seq<DiagnosticView>) {
    match p {
        Piece::Written { ty: Some(_), .. } => (None, Seq::empty()),
        Piece::Written { ty: None, mark } => (Some(name_at(source, mark)), Seq::empty()),
        Piece::Escape(s) => match escape_of(text_at(source, s)) {
            Some(t) => (Some(t), Seq::empty()),
            None => (
                None,
                seq![
                    DiagnosticView {
                        code: "E0410"@,
                        message: "`"@ + text_at(source, s) + "` is not an escape."@,
                        rules: seq!["the escapes are `\\n`, `\\t`, `\\r` and `\\\\`"@],
                        tips: seq![],
                        fixes: seq![],
                        labels: seq![(s, "here"@, LabelStyle::Primary)],
                    },
                ],
            ),
        },
        Piece::At { name, close } => (
            None,
            seq![element_not_yet(span_to(name, close))],
        ),
        Piece::Call { name, close } => (
            None,
            seq![element_not_yet(span_to(name, close))],
        ),
        Piece::Path(links) => (
            None,
            seq![name_not_yet(span_to(links@[0], links@.last()))],
        ),
        Piece::Name(s) => (
            None,
            seq![name_not_yet(s)],
        ),
    }
}

/// Joining a term reads nothing of the checker that its tables do not hold.
proof fn lemma_step_same<'a>(c: Checker<'a>, d: Checker<'a>, j: Joining, t: Term, ty_span: Span)
    requires
        c.same_tables(&d),
    ensures
        join_step(c, j, t, ty_span) == join_step(d, j, t, ty_span),
{
    assert forall|n: Seq<char>| c.held_view(n) == d.held_view(n) by {
        assert(c.reach_view(c.known@, n) == d.reach_view(d.known@, n));
    }
}

/// What a whole-number type holds, written out.
fn holds(bits: u8, signed: bool) -> (s: &'static str)
    ensures
        s@ == holds_view(bits, signed),
{
    if signed {
        if bits == 8 {
            "-128 to 127"
        } else if bits == 16 {
            "-32768 to 32767"
        } else if bits == 32 {
            "-2147483648 to 2147483647"
        } else {
            "-9223372036854775808 to 9223372036854775807"
        }
    } else {
        if bits == 8 {
            "0 to 255"
        } else if bits == 16 {
            "0 to 65535"
        } else if bits == 32 {
            "0 to 4294967295"
        } else {
            "0 to 18446744073709551615"
        }
    }
}

/// Each size of a shape, written in digits.
fn decimals(shape: &Vec<usize>) -> (words: Vec<String>)
    ensures
        crate::diag::texts(words@) == shape@.map_values(|n: usize| decimal(n as nat)),
{
    let mut words: Vec<String> = Vec::new();
    let mut i: usize = 0;
    while i < shape.len()
        invariant
            i <= shape@.len(),
            crate::diag::texts(words@) =~= shape@.take(i as int).map_values(|n: usize| decimal(n as nat)),
        decreases shape@.len() - i,
    {
        let mut w = String::new();
        push_decimal(&mut w, shape[i] as u64);
        let ghost before = words@;
        words.push(w);
        proof {
            assert(shape@.take(i + 1).map_values(|n: usize| decimal(n as nat)) =~= shape@.take(i as int).map_values(
                |n: usize| decimal(n as nat),
            ).push(decimal(shape@[i as int] as nat)));
            assert(crate::diag::texts(words@) =~= crate::diag::texts(words@.drop_last()).push(w@));
            assert(words@.drop_last() =~= before);
        }
        i = i + 1;
    }
    proof {
        assert(shape@.take(shape@.len() as int) =~= shape@);
    }
    words
}

/// The text known now, if there is any, becomes a piece of its own.
fn flush(pieces: &mut Vec<Value>, so_far: &mut String, Ghost(parts): Ghost<Seq<Part>>)
    requires
        made_of(old(pieces)@, parts),
    ensures
        made_of(final(pieces)@, flushed(parts, old(so_far)@)),
        final(so_far)@ == Seq::<char>::empty(),
{
    if !so_far.as_str().is_empty() {
        let mut known = String::new();
        std::mem::swap(&mut known, so_far);
        let ghost k = known@;
        pieces.push(Value::Text(known));
        proof {
            lemma_made_of_push(old(pieces)@, parts, pieces@.last(), Part::Known(k));
            assert(old(pieces)@.push(pieces@.last()) =~= pieces@);
        }
    }
}

/// Whether `i64` reads a number from this text, the way `str::parse` does.
fn i64_read(w: &str) -> (r: Option<i64>)
    ensures
        r is Some == reads_as_i64(w@),
        r matches Some(n) ==> n == i64_value(w@),
{
    let chars = chars_of(w);
    if chars.len() == 0 {
        return None;
    }
    let negative = chars[0] == '-';
    let start: usize = if chars[0] == '+' || negative {
        1
    } else {
        0
    };
    let ghost digits = signed_digits(w@);
    assert(digits =~= chars@.skip(start as int));
    if start >= chars.len() {
        return None;
    }
    let limit: u64 = if negative {
        0x8000_0000_0000_0000
    } else {
        0x7fff_ffff_ffff_ffff
    };
    let mut n: u64 = 0;
    let mut i: usize = start;
    assert(digits.take(0) =~= Seq::<char>::empty());
    while i < chars.len()
        invariant
            start <= i <= chars@.len(),
            chars@ == w@,
            digits == chars@.skip(start as int),
            digits == signed_digits(w@),
            digits.len() > 0,
            negative == (w@[0] == '-'),
            limit == (if negative { 0x8000_0000_0000_0000u64 } else { 0x7fff_ffff_ffff_ffffu64 }),
            all_digits(digits.take(i - start)),
            n == digits_value(digits.take(i - start)),
            n <= limit,
        decreases chars.len() - i,
    {
        let c = chars[i];
        let ghost k = i - start;
        assert(digits[k] == c);
        if c < '0' || c > '9' {
            assert(!all_digits(digits));
            return None;
        }
        let d = digit_of(c) as u64;
        proof {
            lemma_digits_step(digits, k);
        }
        if n > (limit - d) / 10 {
            proof {
                assert(n * 10 + d > limit) by (nonlinear_arith)
                    requires
                        n > (limit - d) / 10,
                        d <= 9,
                        limit >= 9,
                ;
                assert(digits.take(digits.len() as int) =~= digits);
                lemma_digits_grow(digits, k + 1, digits.len() as int);
            }
            return None;
        }
        proof {
            assert(n * 10 + d <= limit) by (nonlinear_arith)
                requires
                    n <= (limit - d) / 10,
                    d <= 9,
                    limit >= 9,
            ;
        }
        n = n * 10 + d;
        proof {
            assert(all_digits(digits.take(k + 1))) by {
                assert forall|j: int| 0 <= j < k + 1 implies '0' <= #[trigger] digits.take(k + 1)[j] <= '9' by {
                    if j < k {
                        assert(digits.take(k + 1)[j] == digits.take(k)[j]);
                    }
                }
            }
        }
        i = i + 1;
    }
    proof {
        assert(digits.take(i - start) =~= digits);
    }
    if negative {
        if n == 0x8000_0000_0000_0000u64 {
            Some(i64::MIN)
        } else {
            Some(-(n as i64))
        }
    } else {
        Some(n as i64)
    }
}

/// What was said, each as itself, is told as what it says.
pub(crate) proof fn lemma_said_told(after: Seq<Diagnostic>, before: Seq<Diagnostic>, e: Seq<DiagnosticView>)
    requires
        said(after) == said(before) + e,
    ensures
        told_after(after, before, e.map_values(|d: DiagnosticView| Some(d))),
{
    assert(said(after).len() == after.len());
    assert(said(after).take(before.len() as int) =~= said(before));
    let em = e.map_values(|d: DiagnosticView| Some(d));
    assert forall|i: int| 0 <= i < em.len() implies match #[trigger] em[i] {
        Some(d) => after[before.len() + i]@ == d,
        None => after[before.len() + i].code@ == "E0413"@,
    } by {
        assert(said(after)[before.len() + i] == e[i]);
    }
}

/// Telling one run of things and then another tells both, in order.
pub(crate) proof fn lemma_told_chain(
    e2: Seq<Diagnostic>,
    e1: Seq<Diagnostic>,
    e0: Seq<Diagnostic>,
    t: Seq<Option<DiagnosticView>>,
    m: Seq<Option<DiagnosticView>>,
)
    requires
        told_after(e1, e0, t),
        told_after(e2, e1, m),
    ensures
        told_after(e2, e0, t + m),
{
    assert(said(e2).take(e0.len() as int) =~= said(e0)) by {
        assert forall|i: int| 0 <= i < e0.len() implies said(e2).take(e0.len() as int)[i] == said(e0)[i] by {
            assert(said(e2)[i] == said(e2).take(e1.len() as int)[i]);
            assert(said(e1)[i] == said(e1).take(e0.len() as int)[i]);
        }
    }
    assert forall|i: int| 0 <= i < (t + m).len() implies match #[trigger] (t + m)[i] {
        Some(d) => e2[e0.len() + i]@ == d,
        None => e2[e0.len() + i].code@ == "E0413"@,
    } by {
        if i < t.len() {
            assert((t + m)[i] == t[i]);
            assert(said(e2)[e0.len() + i] == said(e2).take(e1.len() as int)[e0.len() + i]);
            assert(match t[i] {
                Some(d) => e1[e0.len() + i]@ == d,
                None => e1[e0.len() + i].code@ == "E0413"@,
            });
        } else {
            assert((t + m)[i] == m[i - t.len()]);
            assert(match m[i - t.len()] {
                Some(d) => e2[e1.len() + (i - t.len())]@ == d,
                None => e2[e1.len() + (i - t.len())].code@ == "E0413"@,
            });
        }
    }
}

/// A piece of a `print` reads nothing of the checker that its tables do not hold.
proof fn lemma_shown_same<'a>(c: Checker<'a>, d: Checker<'a>, p: Shown)
    requires
        c.same_tables(&d),
    ensures
        shown_view(c, p) == shown_view(d, p),
{
    assert forall|n: Seq<char>| c.held_view(n) == d.held_view(n) by {
        assert(c.reach_view(c.known@, n) == d.reach_view(d.known@, n));
    }
}

/// One more piece of a `print` and what it shows.
proof fn lemma_printed_push(ps: Seq<Printed>, vs: Seq<ShownView>, p: Printed, v: ShownView)
    requires
        printed_as(ps, vs),
        match v {
            ShownView::Text(t) => p matches Printed::Text(s) && s@ == t,
            ShownView::Value(w, t) => p matches Printed::Value { value, ty } && value == w && ty@ == t,
        },
    ensures
        printed_as(ps.push(p), vs.push(v)),
{
    assert forall|i: int| 0 <= i < vs.push(v).len() implies match #[trigger] vs.push(v)[i] {
        ShownView::Text(t) => ps.push(p)[i] matches Printed::Text(s) && s@ == t,
        ShownView::Value(w, t) => ps.push(p)[i] matches Printed::Value { value, ty } && value == w && ty@ == t,
    } by {
        if i < vs.len() {
            assert(vs.push(v)[i] == vs[i]);
            assert(ps.push(p)[i] == ps[i]);
        }
    }
}

/// Whether `u64` reads a number from this text, the way `str::parse` does.
fn u64_reads(w: &str) -> (b: bool)
    ensures
        b == reads_as_u64(w@),
{
    let chars = chars_of(w);
    let start: usize = if chars.len() > 0 && chars[0] == '+' {
        1
    } else {
        0
    };
    let ghost digits = unsigned_digits(w@);
    assert(digits =~= chars@.skip(start as int));
    if start >= chars.len() {
        return false;
    }
    let limit: u64 = 0xffff_ffff_ffff_ffff;
    let mut n: u64 = 0;
    let mut i: usize = start;
    assert(digits.take(0) =~= Seq::<char>::empty());
    while i < chars.len()
        invariant
            start <= i <= chars@.len(),
            chars@ == w@,
            digits == chars@.skip(start as int),
            digits == unsigned_digits(w@),
            digits.len() > 0,
            limit == 0xffff_ffff_ffff_ffffu64,
            all_digits(digits.take(i - start)),
            n == digits_value(digits.take(i - start)),
            n <= limit,
        decreases chars.len() - i,
    {
        let c = chars[i];
        let ghost k = i - start;
        assert(digits[k] == c);
        if c < '0' || c > '9' {
            assert(!all_digits(digits));
            return false;
        }
        let d = digit_of(c) as u64;
        proof {
            lemma_digits_step(digits, k);
        }
        if n > (limit - d) / 10 {
            proof {
                assert(n * 10 + d > limit) by (nonlinear_arith)
                    requires
                        n > (limit - d) / 10,
                        d <= 9,
                        limit >= 9,
                ;
                assert(digits.take(digits.len() as int) =~= digits);
                lemma_digits_grow(digits, k + 1, digits.len() as int);
            }
            return false;
        }
        proof {
            assert(n * 10 + d <= limit) by (nonlinear_arith)
                requires
                    n <= (limit - d) / 10,
                    d <= 9,
                    limit >= 9,
            ;
        }
        n = n * 10 + d;
        proof {
            assert(all_digits(digits.take(k + 1))) by {
                assert forall|j: int| 0 <= j < k + 1 implies '0' <= #[trigger] digits.take(k + 1)[j] <= '9' by {
                    if j < k {
                        assert(digits.take(k + 1)[j] == digits.take(k)[j]);
                    }
                }
            }
        }
        i = i + 1;
    }
    proof {
        assert(digits.take(i - start) =~= digits);
    }
    true
}

/// Nothing said is nothing told.
pub(crate) proof fn lemma_told_none(e: Seq<Diagnostic>)
    ensures
        told_after(e, e, Seq::empty()),
{
    assert(said(e).take(e.len() as int) =~= said(e));
}

/// The type of a value is the type of what it was made as, and working it out says the
/// same.
proof fn lemma_made_typed<'a>(c: Checker<'a>, v: Value, m: Made, span: Span)
    requires
        made_as(v, m),
    ensures
        typed(c.locals@, c.constants@, c.signatures@, v) == made_typed(c, m),
        complaints(c.locals@, c.constants@, c.signatures@, v, span) == made_complaints(c, m, span),
{
}

/// A term reads nothing of the checker that its tables do not hold.
proof fn lemma_term_same<'a>(c: Checker<'a>, d: Checker<'a>, t: Term, reading: TyView, read: Reading)
    requires
        c.same_tables(&d),
    ensures
        term_view(c, t, reading, read) == term_view(d, t, reading, read),
        term_fits(c, t, reading, read) == term_fits(d, t, reading, read),
    decreases t,
{
    assert forall|n: Seq<char>| c.held_view(n) == d.held_view(n) by {
        assert(c.reach_view(c.known@, n) == d.reach_view(d.known@, n));
    }
    match t {
        Term::Not { of, .. } => lemma_term_same(c, d, *of, reading, read),
        Term::Handed { of, .. } => lemma_term_same(c, d, *of, reading, read),
        _ => {},
    }
}

/// Once building the elements has stopped, what follows changes nothing.
proof fn lemma_elements_stay<'a>(c: Checker<'a>, of: TyView, ws: Seq<(Term, Reading)>, k: int, ty_span: Span)
    requires
        0 <= k <= ws.len(),
        elements_view(c, of, ws.take(k), ty_span).0 is None,
    ensures
        elements_view(c, of, ws, ty_span) == elements_view(c, of, ws.take(k), ty_span),
    decreases ws.len(),
{
    if k == ws.len() {
        assert(ws.take(k) =~= ws);
    } else {
        assert(ws.drop_last().take(k) =~= ws.take(k));
        lemma_elements_stay(c, of, ws.drop_last(), k, ty_span);
    }
}

/// Once building the rows has stopped, what follows changes nothing.
proof fn lemma_groups_stay<'a>(c: Checker<'a>, of: TyView, ws: Seq<(Term, Reading)>, k: int, ty_span: Span)
    requires
        count_of(of) >= 1,
        0 <= k <= ws.len(),
        k % (count_of(of) as int) == 0,
        (ws.len() as int) % (count_of(of) as int) == 0,
        groups_view(c, of, ws.take(k), ty_span).0 is None,
    ensures
        groups_view(c, of, ws, ty_span) == groups_view(c, of, ws.take(k), ty_span),
    decreases ws.len(),
{
    let each = count_of(of) as int;
    if k == ws.len() {
        assert(ws.take(k) =~= ws);
    } else {
        let shorter = ws.take(ws.len() - each);
        vstd::arithmetic::div_mod::lemma_fundamental_div_mod(ws.len() as int, each);
        vstd::arithmetic::div_mod::lemma_fundamental_div_mod(k, each);
        assert(ws.len() - k >= each) by (nonlinear_arith)
            requires
                ws.len() == each * (ws.len() as int / each),
                k == each * (k / each),
                k < ws.len(),
                each >= 1,
        ;
        assert(shorter.take(k) =~= ws.take(k));
        assert((ws.len() - each) % each == 0) by {
            vstd::arithmetic::div_mod::lemma_mod_sub_multiples_vanish(ws.len() as int, each);
        }
        lemma_groups_stay(c, of, shorter, k, ty_span);
    }
}

/// Elements built are as many as were written.
proof fn lemma_elements_len<'a>(c: Checker<'a>, of: TyView, ws: Seq<(Term, Reading)>, ty_span: Span)
    requires
        elements_view(c, of, ws, ty_span).0 is Some,
    ensures
        elements_view(c, of, ws, ty_span).0->0.len() == ws.len(),
    decreases ws.len(),
{
    if ws.len() > 0 {
        lemma_elements_len(c, of, ws.drop_last(), ty_span);
    }
}

/// Rows built are as many as whole groups were written.
proof fn lemma_groups_len<'a>(c: Checker<'a>, of: TyView, ws: Seq<(Term, Reading)>, ty_span: Span)
    requires
        groups_view(c, of, ws, ty_span).0 is Some,
        count_of(of) >= 1,
        (ws.len() as int) % (count_of(of) as int) == 0,
    ensures
        groups_view(c, of, ws, ty_span).0->0.len() * count_of(of) == ws.len(),
    decreases ws.len(),
{
    let each = count_of(of) as int;
    if ws.len() < each {
        vstd::arithmetic::div_mod::lemma_fundamental_div_mod(ws.len() as int, each);
        assert(ws.len() == 0) by (nonlinear_arith)
            requires
                ws.len() == each * (ws.len() as int / each),
                ws.len() < each,
                each >= 1,
        ;
    } else {
        vstd::arithmetic::div_mod::lemma_mod_sub_multiples_vanish(ws.len() as int, each);
        lemma_groups_len(c, of, ws.take(ws.len() - each), ty_span);
        let n = groups_view(c, of, ws.take(ws.len() - each), ty_span).0->0.len();
        assert((n + 1) * each == n * each + each) by (nonlinear_arith);
    }
}

/// Building rows reads nothing of the checker that its tables do not hold.
proof fn lemma_rows_same<'a>(c: Checker<'a>, d: Checker<'a>, of: TyView, ws: Seq<(Term, Reading)>, ty_span: Span)
    requires
        c.same_tables(&d),
    ensures
        rows_view(c, of, ws, ty_span) == rows_view(d, of, ws, ty_span),
    decreases of, 2int, 0int,
{
    match of {
        TyView::Arr { .. } => lemma_groups_same(c, d, of, ws, ty_span),
        _ => lemma_elements_same(c, d, of, ws, ty_span),
    }
}

proof fn lemma_groups_same<'a>(c: Checker<'a>, d: Checker<'a>, of: TyView, ws: Seq<(Term, Reading)>, ty_span: Span)
    requires
        c.same_tables(&d),
    ensures
        groups_view(c, of, ws, ty_span) == groups_view(d, of, ws, ty_span),
    decreases of, 1int, ws.len(),
{
    let each = count_of(of);
    if !(each == 0 || ws.len() < each) {
        lemma_groups_same(c, d, of, ws.take(ws.len() - each), ty_span);
        let g = ws.skip(ws.len() - each);
        match of {
            TyView::Arr { of: inner, .. } => if !(g.len() == 1 && !(g[0].0 is Piece)) {
                lemma_rows_same(c, d, *inner, g, ty_span);
            },
            _ => {},
        }
        assert(group_view(c, of, g, ty_span) == group_view(d, of, g, ty_span));
    }
}

proof fn lemma_elements_same<'a>(c: Checker<'a>, d: Checker<'a>, of: TyView, ws: Seq<(Term, Reading)>, ty_span: Span)
    requires
        c.same_tables(&d),
    ensures
        elements_view(c, of, ws, ty_span) == elements_view(d, of, ws, ty_span),
    decreases ws.len(),
{
    if ws.len() > 0 {
        lemma_elements_same(c, d, of, ws.drop_last(), ty_span);
        lemma_element_same(c, d, of, ws.last().0, ws.last().1, ty_span);
    }
}

proof fn lemma_element_same<'a>(c: Checker<'a>, d: Checker<'a>, of: TyView, t: Term, rd: Reading, ty_span: Span)
    requires
        c.same_tables(&d),
    ensures
        element_view(c, of, t, rd, ty_span) == element_view(d, of, t, rd, ty_span),
{
    lemma_term_same(c, d, t, of, rd);
    assert forall|m: Made, at: Span| made_typed(c, m) == made_typed(d, m) && made_complaints(c, m, at) == made_complaints(d, m, at) by {}
}

/// Once joining has stopped, what follows changes nothing.
proof fn lemma_stopped_stays<'a>(c: Checker<'a>, terms: Seq<Term>, k: int, ty_span: Span)
    requires
        0 <= k <= terms.len(),
        !(joining(c, terms.take(k), ty_span) is Going),
    ensures
        joining(c, terms, ty_span) == joining(c, terms.take(k), ty_span),
    decreases terms.len(),
{
    if k == terms.len() {
        assert(terms.take(k) =~= terms);
    } else {
        assert(terms.drop_last().take(k) =~= terms.take(k));
        lemma_stopped_stays(c, terms.drop_last(), k, ty_span);
    }
}

/// One more value and the part it stands for.
proof fn lemma_made_of_push(values: Seq<Value>, parts: Seq<Part>, v: Value, p: Part)
    requires
        made_of(values, parts),
        match p {
            Part::Known(k) => v matches Value::Text(t) && t@ == k,
            Part::Found(w) => v == w,
        },
    ensures
        made_of(values.push(v), parts.push(p)),
{
    assert forall|i: int| 0 <= i < parts.push(p).len() implies match #[trigger] parts.push(p)[i] {
        Part::Known(k) => values.push(v)[i] matches Value::Text(t) && t@ == k,
        Part::Found(w) => values.push(v)[i] == w,
    } by {
        if i < parts.len() {
            assert(parts.push(p)[i] == parts[i]);
            assert(values.push(v)[i] == values[i]);
        }
    }
}

impl<'a> Checker<'a> {
    /// What a name stands for where it is read: the variable of that name in scope, or
    /// else the constant it reaches, with the type each was declared.
    pub open spec fn held_view(&self, n: Seq<char>) -> Option<(Value, TyView)> {
        match seen_in(self.scope@, n) {
            Some(id) => Some((Value::Copy(id), self.locals@[id.0 as int].ty@)),
            None => match self.reach_view(self.known@, n) {
                Some(w) => Some((Value::Const(w), self.constants@[w as int].ty@)),
                None => None,
            },
        }
    }

    /// A `bool` written out: `*true*` or `*false*` and nothing else, and only one of
    /// them. Nothing is truthy.
    pub fn written_bool(&mut self, terms: &Vec<Term>, span: Span) -> (r: Option<Value>)
        requires
            terms_ok(old(self).source, terms@),
        ensures
            old(self).same_tables(&*final(self)),
            final(self).body == old(self).body,
            final(self).hole == old(self).hole,
            match (r, truth_view(old(self).source, terms@, span).0) {
                (Some(v), Some(b)) => v == Value::Bool(b),
                (None, None) => true,
                _ => false,
            },
            said(final(self).errors@) == said(old(self).errors@) + truth_view(old(self).source, terms@, span).1,
    {
        let ghost e0 = said(self.errors@);
        proof {
            assert(e0 + Seq::<DiagnosticView>::empty() =~= e0);
        }
        if terms.len() == 1 {
            match &terms[0] {
                Term::Piece(Piece::Written { ty: None, mark }) => {
                    proof {
                        assert(match terms@[0] {
                            Term::Piece(p) => piece_ok(self.source, p),
                            _ => true,
                        });
                    }
                    let written = self.named(*mark);
                    if same_str(written.as_str(), "true") {
                        proof { reveal_strlit("true"); }
                        return Some(Value::Bool(true));
                    }
                    if same_str(written.as_str(), "false") {
                        proof { reveal_strlit("true"); reveal_strlit("false"); }
                        return Some(Value::Bool(false));
                    }
                    let message = around("`", written.as_str(), "` is not true or false.");
                    let d = Diagnostic::new("E0416", message.as_str())
                        .primary(*mark, "here")
                        .rule("a `bool` is written `*true*` or `*false*`, and nothing is truthy")
                        .fix("`*true*` or `*false*`, or a comparison");
                    self.errors.push(d);
                    proof {
                        reveal_strlit("true");
                        reveal_strlit("false");
                        assert(d.tips@.len() == 0);
                        assert(texts(d.tips@) =~= Seq::<Seq<char>>::empty());
                        assert(said(self.errors@) =~= e0.push(d@));
                        assert(e0.push(d@) =~= e0 + seq![d@]);
                    }
                    return None;
                },
                _ => {},
            }
        }
        let d = Diagnostic::new("E0417", "a `bool` is one thing, not several.")
            .primary(span, "here")
            .rule("`*true*`, `*false*`, or something that compares two values")
            .fix("write one of those");
        self.errors.push(d);
        proof {
            assert(texts(d.tips@) =~= Seq::<Seq<char>>::empty());
            assert(said(self.errors@) =~= e0.push(d@));
            assert(e0.push(d@) =~= e0 + seq![d@]);
        }
        None
    }

    /// A value that is one name: what that variable or constant holds, when it is of
    /// the type wanted. An array named this way is refused for not saying whether it is
    /// shared or copied; a name that is neither is looked up as a variable, which says
    /// what is wrong with it.
    pub fn one_name(&mut self, span: Span, ty: &Ty, ty_span: Span) -> (r: Option<Value>)
        requires
            reads_as_name(old(self).source, span),
            old(self).tables_ok(),
        ensures
            old(self).same_tables(&*final(self)),
            final(self).body == old(self).body,
            final(self).hole == old(self).hole,
            ({
                let n = name_at(old(self).source, span);
                match old(self).held_view(n) {
                    Some((v, t)) => if t is Arr {
                        &&& r is None
                        &&& said(final(self).errors@) == said(old(self).errors@).push(unsaid_sharing(span, n))
                    } else if t != ty@ {
                        &&& r is None
                        &&& said(final(self).errors@) == said(old(self).errors@).push(
                            given_view(t, ty@, span, ty_span, "declare it the same type, or write the value out"@),
                        )
                    } else {
                        &&& r == Some(v)
                        &&& final(self).errors == old(self).errors
                    },
                    None => {
                        &&& r is None
                        &&& final(self).errors@.len() == old(self).errors@.len() + 1
                        &&& final(self).errors@.drop_last() == old(self).errors@
                        &&& final(self).errors@.last().code@ == "E0413"@
                    },
                }
            }),
    {
        let ghost e0 = said(self.errors@);
        let (built, held) = match self.named_value(span) {
            Some(found) => found,
            None => return None,
        };
        if let Ty::Arr { .. } = held {
            let name = self.named(span);
            let mut message = String::from_str("this does not say whether it shares `'");
            message.append(name.as_str());
            message.append("'` or copies it.");
            let mut fix = String::from_str("`[share '");
            fix.append(name.as_str());
            fix.append("']`, or `[copy '");
            fix.append(name.as_str());
            fix.append("']`");
            let d = Diagnostic::new("E0478", message.as_str())
                .primary(span, "here")
                .rule("naming an array in a value says `share` or `copy`, and silence is not one of them")
                .tip("`share` makes a second name for one array, so a change through either is seen through both. `copy` makes a second array, and pays for it.")
                .fix(fix.as_str());
            self.errors.push(d);
            proof {
                assert(said(self.errors@) =~= e0.push(d@));
            }
            return None;
        }
        if !held.same(ty) {
            let held_name = held.name();
            let wanted = ty.name();
            let mut message = String::from_str("this is ");
            message.append(held.article());
            message.append(" `");
            message.append(held_name.as_str());
            message.append("`, and it is being given to ");
            message.append(ty.article());
            message.append(" `");
            message.append(wanted.as_str());
            message.append("`.");
            let mut note = String::from_str(held.article());
            note.append(" `");
            note.append(held_name.as_str());
            note.append("`");
            let declared = around("declared `", wanted.as_str(), "` here");
            let d = Diagnostic::new("E0406", message.as_str())
                .primary(span, note.as_str())
                .secondary(ty_span, declared.as_str())
                .rule("nothing converts on its own — two types meet only where something says they should")
                .fix("declare it the same type, or write the value out");
            self.errors.push(d);
            proof {
                let ghost n = name_at(old(self).source, span);
                assert(old(self).held_view(n) matches Some((_, t)) && t == held@);
                assert(message@ =~= "this is "@ + article_of(held@) + " `"@ + name_of(held@)
                    + "`, and it is being given to "@ + article_of(ty@) + " `"@ + name_of(ty@) + "`."@);
                assert(note@ =~= article_of(held@) + " `"@ + name_of(held@) + "`"@);
                assert(declared@ =~= "declared `"@ + name_of(ty@) + "` here"@);
                assert(d@.labels =~= given_view(held@, ty@, span, ty_span, "declare it the same type, or write the value out"@).labels);
                assert(d@.rules =~= given_view(held@, ty@, span, ty_span, "declare it the same type, or write the value out"@).rules);
                assert(d@.fixes =~= given_view(held@, ty@, span, ty_span, "declare it the same type, or write the value out"@).fixes);
                assert(d@.tips =~= given_view(held@, ty@, span, ty_span, "declare it the same type, or write the value out"@).tips);
                assert(d@ == given_view(held@, ty@, span, ty_span, "declare it the same type, or write the value out"@));
                assert(said(self.errors@) =~= e0.push(d@));
            }
            return None;
        }
        Some(built)
    }

    /// One piece that has to be known now: text or an escape, and not a name, an element
    /// or a call. A piece that says its own type was already refused where it was read,
    /// so it gives nothing here and says nothing more.
    pub fn literal(&mut self, piece: &Piece) -> (r: Option<String>)
        requires
            piece_ok(old(self).source, *piece),
        ensures
            old(self).same_tables(&*final(self)),
            final(self).body == old(self).body,
            final(self).hole == old(self).hole,
            match (r, literal_view(old(self).source, *piece).0) {
                (Some(s), Some(t)) => s@ == t,
                (None, None) => true,
                _ => false,
            },
            said(final(self).errors@) == said(old(self).errors@) + literal_view(old(self).source, *piece).1,
    {
        let ghost e0 = said(self.errors@);
        proof {
            assert(e0 + Seq::<DiagnosticView>::empty() =~= e0);
        }
        match piece {
            Piece::Written { ty: Some(_), .. } => None,
            Piece::Written { ty: None, mark } => Some(self.named(*mark)),
            Piece::Escape(span) => {
                let written = self.text(*span);
                match escape(written) {
                    Some(meant) => Some(String::from_str(meant)),
                    None => {
                        let message = around("`", written, "` is not an escape.");
                        let d = Diagnostic::new("E0410", message.as_str()).primary(*span, "here").rule(
                            "the escapes are `\\n`, `\\t`, `\\r` and `\\\\`",
                        );
                        self.errors.push(d);
                        proof {
                            assert(said(self.errors@) =~= e0.push(d@));
                            assert(e0.push(d@) =~= e0 + seq![d@]);
                        }
                        None
                    },
                }
            },
            Piece::At { name, close } | Piece::Call { name, close } => {
                let d = Diagnostic::new("E0411", "an element cannot be one piece of a longer value yet.")
                    .primary(name.to(*close), "here")
                    .rule("joining something to text builds a new value, and building one needs the collector")
                    .fix("print the pieces separately");
                self.errors.push(d);
                proof {
                    assert(said(self.errors@) =~= e0.push(d@));
                    assert(e0.push(d@) =~= e0 + seq![d@]);
                }
                None
            },
            Piece::Path(path) => {
                let whole = path[0].to(path[path.len() - 1]);
                let d = Diagnostic::new("E0411", "a name cannot be one piece of a longer value yet.")
                    .primary(whole, "here")
                    .rule("joining a name to something else builds a new value, and building one needs the collector")
                    .tip("a value that is *only* a name works — that copies rather than builds.")
                    .fix("declare it on its own, and print the pieces separately");
                self.errors.push(d);
                proof {
                    assert(said(self.errors@) =~= e0.push(d@));
                    assert(e0.push(d@) =~= e0 + seq![d@]);
                }
                None
            },
            Piece::Name(span) => {
                let d = Diagnostic::new("E0411", "a name cannot be one piece of a longer value yet.")
                    .primary(*span, "here")
                    .rule("joining a name to something else builds a new value, and building one needs the collector")
                    .tip("a value that is *only* a name works — that copies rather than builds.")
                    .fix("declare it on its own, and print the pieces separately");
                self.errors.push(d);
                proof {
                    assert(said(self.errors@) =~= e0.push(d@));
                    assert(e0.push(d@) =~= e0 + seq![d@]);
                }
                None
            },
        }
    }
    /// Text written as pieces side by side. A run of pieces known now stays one piece
    /// of text; a name, an element or a call among them makes the value pieces joined
    /// as the program runs. Each of those has to be text already, since nothing
    /// converts on its own, and brackets have nothing to do here.
    pub fn joined_text(&mut self, written: Vec<Term>, ty_span: Span) -> (r: Option<Value>)
        requires
            terms_ok(old(self).source, written@),
            terms_worked(*old(self), written@),
            old(self).tables_ok(),
        ensures
            old(self).same_tables(&*final(self)),
            final(self).body == old(self).body,
            final(self).hole == old(self).hole,
            match joining(*old(self), written@, ty_span) {
                Joining::Going { parts, so_far, told } => {
                    &&& r matches Some(v) && shows(v, parts, so_far)
                    &&& said(final(self).errors@) == said(old(self).errors@) + told
                },
                Joining::Stopped(told) => {
                    &&& r is None
                    &&& said(final(self).errors@) == said(old(self).errors@) + told
                },
                Joining::Unnamed(told) => {
                    &&& r is None
                    &&& said(final(self).errors@.drop_last()) == said(old(self).errors@) + told
                    &&& final(self).errors@.len() == old(self).errors@.len() + told.len() + 1
                    &&& final(self).errors@.last().code@ == "E0413"@
                },
            },
    {
        let ghost c0: Checker<'a> = *self;
        proof {
            assert(c0 == *old(self));
        }
        let ghost all = written@;
        let ghost e0 = said(self.errors@);
        let mut terms = written;
        let mut pieces: Vec<Value> = Vec::new();
        let mut so_far = String::new();
        let ghost mut parts: Seq<Part> = Seq::empty();
        let ghost mut told: Seq<DiagnosticView> = Seq::empty();
        let ghost mut done: int = 0;
        proof {
            assert(all.take(0) =~= Seq::<Term>::empty());
            assert(all.skip(0) =~= all);
            assert(e0 + told =~= e0);
            assert(made_of(pieces@, parts));
        }
        while terms.len() > 0
            invariant
                0 <= done <= all.len(),
                terms@ == all.skip(done),
                terms_ok(c0.source, all),
                terms_worked(c0, all),
                c0.tables_ok(),
                c0.same_tables(&*self),
                self.body == c0.body,
                self.hole == c0.hole,
                self.source == c0.source,
                c0 == *old(self),
                all == written@,
                joining(c0, all.take(done), ty_span) == (Joining::Going { parts, so_far: so_far@, told }),
                made_of(pieces@, parts),
                said(self.errors@) == e0 + told,
                e0 == said(c0.errors@),
            decreases terms.len(),
        {
            let term = terms.remove(0);
            let ghost before = joining(c0, all.take(done), ty_span);
            proof {
                assert(all[done] == term);
                assert(all.take(done + 1).drop_last() =~= all.take(done));
                assert(all.take(done + 1).last() == term);
                assert(all.skip(done + 1) =~= terms@);
                assert(joining(c0, all.take(done + 1), ty_span) == join_step(c0, before, term, ty_span));
                assert(match all[done] {
                    Term::Piece(p) => piece_ok(c0.source, p),
                    _ => true,
                });
                assert(match all[done] {
                    Term::Piece(p) => !(p is Path || p is At || p is Call),
                    Term::Worked { built, .. } => built matches Some(v) ==> refs_ok(c0.locals@, c0.constants@, c0.signatures@, v),
                    _ => true,
                });
                lemma_step_same(c0, *self, before, term, ty_span);
                done = done + 1;
            }
            let ghost errors_before = self.errors@;
            let going = self.join_term(term, &mut pieces, &mut so_far, ty_span, Ghost(parts), Ghost(told), Ghost(e0));
            let ghost next = joining(c0, all.take(done), ty_span);
            if !going {
                proof {
                    if next is Unnamed {
                        assert(said(self.errors@.drop_last()) == said(errors_before));
                        assert(said(errors_before).len() == errors_before.len());
                        assert(said(c0.errors@).len() == c0.errors@.len());
                        assert(self.errors@.drop_last() == errors_before);
                        assert(said(self.errors@.drop_last()) == e0 + told);
                        assert((e0 + told).len() == e0.len() + told.len());
                        assert(self.errors@.len() == c0.errors@.len() + told.len() + 1);
                    }
                    lemma_stopped_stays(c0, all, done, ty_span);
                    assert(all.take(all.len() as int) =~= all);
                    assert(joining(*old(self), all, ty_span) == next);
                    assert(next matches Joining::Stopped(t) ==> said(self.errors@) == said(old(self).errors@) + t);
                    assert(next matches Joining::Unnamed(t) ==> said(self.errors@.drop_last()) == said(old(self).errors@) + t);
                    assert(next matches Joining::Unnamed(t) ==> self.errors@.len() == old(self).errors@.len() + t.len() + 1);
                    assert(next is Unnamed ==> self.errors@.last().code@ == "E0413"@);
                    assert(!(next is Going));
                }
                return None;
            }
            proof {
                parts = next->parts;
                told = next->told;
            }
        }
        proof {
            assert(all.take(done) =~= all);
        }
        if pieces.len() == 0 {
            return Some(Value::Text(so_far));
        }
        let ghost last = so_far@;
        if !so_far.as_str().is_empty() {
            let known = so_far;
            pieces.push(Value::Text(known));
            proof {
                lemma_made_of_push(pieces@.drop_last(), parts, Value::Text(known), Part::Known(last));
                assert(pieces@.drop_last().push(Value::Text(known)) =~= pieces@);
            }
        }
        Some(Value::Join(pieces))
    }

    /// Joining one term: whether joining goes on, having added what it gives to the
    /// pieces or to the text known now.
    fn join_term(
        &mut self,
        term: Term,
        pieces: &mut Vec<Value>,
        so_far: &mut String,
        ty_span: Span,
        Ghost(parts): Ghost<Seq<Part>>,
        Ghost(told): Ghost<Seq<DiagnosticView>>,
        Ghost(base): Ghost<Seq<DiagnosticView>>,
    ) -> (going: bool)
        requires
            match term {
                Term::Piece(p) => piece_ok(old(self).source, p) && !(p is Path || p is At || p is Call),
                Term::Worked { built, .. } => built matches Some(v) ==> refs_ok(
                    old(self).locals@,
                    old(self).constants@,
                    old(self).signatures@,
                    v,
                ),
                _ => true,
            },
            old(self).tables_ok(),
            made_of(old(pieces)@, parts),
            said(old(self).errors@) == base + told,
        ensures
            old(self).same_tables(&*final(self)),
            final(self).body == old(self).body,
            final(self).hole == old(self).hole,
            match join_step(*old(self), Joining::Going { parts, so_far: old(so_far)@, told }, term, ty_span) {
                Joining::Going { parts: p2, so_far: s2, told: t2 } => {
                    &&& going
                    &&& made_of(final(pieces)@, p2)
                    &&& final(so_far)@ == s2
                    &&& said(final(self).errors@) == base + t2
                },
                Joining::Stopped(t2) => {
                    &&& !going
                    &&& said(final(self).errors@) == base + t2
                },
                Joining::Unnamed(t2) => {
                    &&& !going
                    &&& t2 == told
                    &&& final(self).errors@.len() == old(self).errors@.len() + 1
                    &&& final(self).errors@.drop_last() == old(self).errors@
                    &&& final(self).errors@.last().code@ == "E0413"@
                },
            },
    {
        let ghost errors0 = self.errors@;
        let ghost so_far0 = so_far@;
        let ghost c = *self;
        match term {
            Term::Piece(Piece::Name(at)) => {
                let (built, held) = match self.named_value(at) {
                    Some(found) => found,
                    None => return false,
                };
                if !held.same(&Ty::Str) {
                    self.not_text_here(&held, at, ty_span);
                    proof {
                        assert(base + told.push(not_text(held@, at, ty_span)) =~= (base + told).push(not_text(held@, at, ty_span)));
                    }
                    return false;
                }
                flush(pieces, so_far, Ghost(parts));
                pieces.push(built);
                proof {
                    lemma_made_of_push(pieces@.drop_last(), flushed(parts, so_far0), built, Part::Found(built));
                    assert(pieces@.drop_last().push(built) =~= pieces@);
                }
                true
            },
            Term::Piece(piece) => {
                match self.literal(&piece) {
                    Some(x) => {
                        so_far.append(x.as_str());
                        proof {
                            assert(said(self.errors@) =~= said(errors0));
                        }
                        true
                    },
                    None => {
                        proof {
                            let e = literal_view(c.source, piece).1;
                            assert(base + (told + e) =~= (base + told) + e);
                        }
                        false
                    },
                }
            },
            Term::Number(_) | Term::Elements { .. } | Term::Not { .. } | Term::Handed { .. } => {
                let span = span_of_term(&term);
                let d = Diagnostic::new("E0415", "brackets group something to work out, and text is not worked out.")
                    .primary(span, "here")
                    .rule("text is a list of pieces, written side by side")
                    .fix("remove the brackets");
                self.errors.push(d);
                proof {
                    assert(texts(d.tips@) =~= Seq::<Seq<char>>::empty());
                    assert(d@ == bracketed(span));
                    assert(said(self.errors@) =~= said(errors0).push(d@));
                    assert(base + told.push(bracketed(span)) =~= (base + told).push(bracketed(span)));
                }
                false
            },
            Term::Worked { span, element, built, told: mut w } => {
                if !element {
                    let d = Diagnostic::new("E0415", "brackets group something to work out, and text is not worked out.")
                        .primary(span, "here")
                        .rule("text is a list of pieces, written side by side")
                        .fix("remove the brackets");
                    self.errors.push(d);
                    proof {
                        assert(texts(d.tips@) =~= Seq::<Seq<char>>::empty());
                        assert(d@ == bracketed(span));
                        assert(said(self.errors@) =~= said(errors0).push(d@));
                        assert(base + told.push(bracketed(span)) =~= (base + told).push(bracketed(span)));
                    }
                    return false;
                }
                let ghost wv = said(w@);
                self.errors.append(&mut w);
                proof {
                    assert(said(self.errors@) =~= said(errors0) + wv);
                    assert(base + (told + wv) =~= (base + told) + wv);
                }
                let built = match built {
                    Some(v) => v,
                    None => return false,
                };
                let ghost cs = complaints(c.locals@, c.constants@, c.signatures@, built, span);
                let found = match self.type_of(&built, span) {
                    Some(t) => t,
                    None => {
                        proof {
                            assert(base + (told + wv + cs) =~= (base + (told + wv)) + cs);
                        }
                        return false;
                    },
                };
                proof {
                    assert(base + (told + wv + cs) =~= (base + (told + wv)) + cs);
                }
                if !found.same(&Ty::Str) {
                    self.not_text_here(&found, span, ty_span);
                    proof {
                        let more = told + wv + cs;
                        assert(base + more.push(not_text(found@, span, ty_span)) =~= (base + more).push(not_text(found@, span, ty_span)));
                    }
                    return false;
                }
                flush(pieces, so_far, Ghost(parts));
                pieces.push(built);
                proof {
                    lemma_made_of_push(pieces@.drop_last(), flushed(parts, so_far0), built, Part::Found(built));
                    assert(pieces@.drop_last().push(built) =~= pieces@);
                }
                true
            },
        }
    }

    /// How many elements were written for an array, against how many its type takes.
    /// Elements are written flat, however many allocations deep the array is, since the
    /// type already gave the shape: a fixed allocation takes exactly its count, a
    /// growing one whole rows of whatever lies under it, and one with something growing
    /// under it is written empty. An `any` length is one that arrived and is never
    /// written here.
    pub fn elements_fit(
        &mut self,
        of: &Ty,
        shape: &Vec<usize>,
        length: Length,
        written: usize,
        value: Span,
        between: Span,
        ty_span: Span,
    ) -> (r: Fits)
        requires
            shape_fits(of@, shape@),
        ensures
            old(self).same_tables(&*final(self)),
            final(self).body == old(self).body,
            final(self).hole == old(self).hole,
            r == fits_view(of@, shape@, length, written as nat, value, between, ty_span).0,
            said(final(self).errors@) == said(old(self).errors@) + fits_view(
                of@,
                shape@,
                length,
                written as nat,
                value,
                between,
                ty_span,
            ).1,
    {
        let ghost e0 = said(self.errors@);
        proof {
            assert(e0 + Seq::<DiagnosticView>::empty() =~= e0);
        }
        if length == Length::Unknown || unsaid(of) {
            let d = Diagnostic::new("E0510", "an array whose length is `any` is one that arrived, not one written here.")
                .primary(value, "here")
                .secondary(ty_span, "declared `any` here")
                .rule("`any` says the number was never said, so nothing here knows how many elements to expect")
                .tip("`grow` is the word for an array that starts empty and is filled, and it may be added to.")
                .fix("say a number, or `grow`, or name an array that was handed in");
            proof {
                let want = fits_view(of@, shape@, length, written as nat, value, between, ty_span).1;
                assert(d@.labels =~= want[0].labels);
                assert(d@.rules =~= want[0].rules);
                assert(d@.tips =~= want[0].tips);
                assert(d@.fixes =~= want[0].fixes);
                assert(want =~= seq![d@]);
            }
            self.push_one(d);
            return Fits::Refused;
        }
        let rows = self.rows_of(shape);
        let each = of.count();
        proof {
            vstd::arithmetic::mul::lemma_mul_is_commutative(count_of(of@) as int, product(shape@) as int);
        }
        let all = each * rows;
        if !of.settled() {
            if written > 0 {
                let d = Diagnostic::new("E0484", "nothing here says where one row ends.")
                    .primary(between, "here")
                    .secondary(ty_span, "what this holds says `grow`")
                    .rule("elements are written flat and cut into rows, and a row of something that grows has no length to cut at")
                    .tip("`add` is how one of these is filled, one array at a time.")
                    .fix("write it empty, as `[[]]`");
                proof {
                    let want = fits_view(of@, shape@, length, written as nat, value, between, ty_span).1;
                    assert(d@.labels =~= want[0].labels);
                    assert(d@.rules =~= want[0].rules);
                    assert(d@.tips =~= want[0].tips);
                    assert(d@.fixes =~= want[0].fixes);
                    assert(want =~= seq![d@]);
                }
                self.push_one(d);
                return Fits::Refused;
            }
            return Fits::EmptyRows(if length.known() { rows } else { 0 });
        }
        if !length.known() {
            if all == 0 || written % all != 0 {
                let wanted = counted(all, "element");
                let seen = counted(written, "element");
                let mut message = String::from_str("this grows in rows of ");
                message.append(wanted.as_str());
                message.append(", and ");
                message.append(seen.as_str());
                message.append(" were written.");
                let mut note = String::new();
                note.append(seen.as_str());
                note.append(" here");
                let mut fix = String::from_str("write a multiple of ");
                push_decimal(&mut fix, all as u64);
                let d = Diagnostic::new("E0481", message.as_str())
                    .primary(between, note.as_str())
                    .secondary(ty_span, "declared `grow`")
                    .rule("a growing array holds whole rows of whatever is under it, however many rows it has")
                    .tip("`(grow grow)` can only be written empty, because nothing says where one row ends.")
                    .fix(fix.as_str());
                proof {
                    assert(message@ =~= "this grows in rows of "@ + counted_view(all as nat, "element"@) + ", and "@
                        + counted_view(written as nat, "element"@) + " were written."@);
                    assert(note@ =~= counted_view(written as nat, "element"@) + " here"@);
                }
                proof {
                    let want = fits_view(of@, shape@, length, written as nat, value, between, ty_span).1;
                    assert(d@.labels =~= want[0].labels);
                    assert(d@.rules =~= want[0].rules);
                    assert(d@.tips =~= want[0].tips);
                    assert(d@.fixes =~= want[0].fixes);
                    assert(want =~= seq![d@]);
                }
                self.push_one(d);
                return Fits::Refused;
            }
            return Fits::Counted;
        }
        if written != all {
            let mut message = String::from_str("this holds ");
            push_decimal(&mut message, all as u64);
            message.append(" element(s), and ");
            push_decimal(&mut message, written as u64);
            message.append(" were written.");
            let mut note = String::new();
            push_decimal(&mut note, written as u64);
            note.append(" here");
            let mut declared = String::from_str("declared (");
            let words = decimals(shape);
            push_spaced(&mut declared, &words);
            declared.append(")");
            let d = Diagnostic::new("E0431", message.as_str())
                .primary(between, note.as_str())
                .secondary(ty_span, declared.as_str())
                .rule("a shaped array is written flat, row by row, since the type already gave the shape")
                .fix(if written < all { "write the missing ones" } else { "remove the extra ones" });
            proof {
                assert(message@ =~= "this holds "@ + decimal(all as nat) + " element(s), and "@ + decimal(written as nat)
                    + " were written."@);
                assert(note@ =~= decimal(written as nat) + " here"@);
                assert(declared@ =~= "declared ("@ + spaced(shape@.map_values(|n: usize| decimal(n as nat))) + ")"@);
            }
            proof {
                let want = fits_view(of@, shape@, length, written as nat, value, between, ty_span).1;
                assert(d@.labels =~= want[0].labels);
                assert(d@.rules =~= want[0].rules);
                assert(d@.tips =~= want[0].tips);
                assert(d@.fixes =~= want[0].fixes);
                assert(want =~= seq![d@]);
            }
            self.push_one(d);
            return Fits::Refused;
        }
        Fits::Counted
    }

    /// Written digits read as a whole-number type, from what reading them at that
    /// type's width gave. The same digits are a different thing under each type: `200`
    /// is a `u8` and is not an `i8`, and which it was asked to be is what the complaint
    /// says.
    pub fn a_whole_number(&mut self, digits: &str, bits: u8, signed: bool, at: Span, read: Whole) -> (r: Option<Value>)
        ensures
            old(self).same_tables(&*final(self)),
            final(self).body == old(self).body,
            final(self).hole == old(self).hole,
            r == whole_view(digits@, bits, signed, at, read).0,
            said(final(self).errors@) == said(old(self).errors@) + whole_view(digits@, bits, signed, at, read).1,
    {
        let ghost e0 = said(self.errors@);
        proof {
            assert(e0 + Seq::<DiagnosticView>::empty() =~= e0);
        }
        let ty = Ty::Int { bits, signed };
        let name = ty.name();
        match read {
            Whole::Read(n) => Some(Value::Number { value: n, bits, signed }),
            Whole::Outside => {
                let mut message = String::from_str("`");
                message.append(digits);
                message.append("` does not fit in ");
                message.append(ty.article());
                message.append(" `");
                message.append(name.as_str());
                message.append("`.");
                let mut rule = String::from_str("`");
                rule.append(name.as_str());
                rule.append("` holds ");
                rule.append(holds(bits, signed));
                let chars = chars_of(digits);
                let tip = if !signed && chars.len() > 0 && chars[0] == '-' {
                    "an unsigned type holds no negative number at all."
                } else {
                    "a written value is read by the type it is given to, and this one has an edge."
                };
                let d = Diagnostic::new("E0489", message.as_str())
                    .primary(at, "here")
                    .rule(rule.as_str())
                    .tip(tip)
                    .fix("write a number in that range, or declare it a wider type");
                proof {
                    let want = whole_view(digits@, bits, signed, at, read).1;
                    assert(message@ =~= want[0].message);
                    assert(rule@ =~= want[0].rules[0]);
                    assert(d@.labels =~= want[0].labels);
                    assert(d@.rules =~= want[0].rules);
                    assert(d@.tips =~= want[0].tips);
                    assert(d@.fixes =~= want[0].fixes);
                    assert(want =~= seq![d@]);
                }
                self.push_one(d);
                None
            },
            Whole::NotOne => {
                let mut message = String::from_str("`");
                message.append(digits);
                message.append("` is not ");
                message.append(ty.article());
                message.append(" `");
                message.append(name.as_str());
                message.append("`.");
                let rule = around(
                    "a written value is read by the type it is given to, and `",
                    name.as_str(),
                    "` reads whole numbers",
                );
                let tip = if signed {
                    "a negative one wears its minus inside the marks."
                } else {
                    "an unsigned type holds no negative number at all."
                };
                let d = Diagnostic::new("E0407", message.as_str())
                    .primary(at, "here")
                    .rule(rule.as_str())
                    .tip(tip)
                    .fix("write a whole number");
                proof {
                    let want = whole_view(digits@, bits, signed, at, read).1;
                    assert(message@ =~= want[0].message);
                    assert(d@.labels =~= want[0].labels);
                    assert(d@.rules =~= want[0].rules);
                    assert(d@.tips =~= want[0].tips);
                    assert(d@.fixes =~= want[0].fixes);
                    assert(want =~= seq![d@]);
                }
                self.push_one(d);
                None
            },
        }
    }

    /// A `print`: where it goes, and each piece to show, in order. A piece that cannot
    /// be shown is reported and the rest are still shown, so that one run finds every
    /// mistake in the list; a `print` to something that is not a stream is reported and
    /// prints nothing.
    pub fn print(&mut self, to: Span, shown: Vec<Shown>)
        requires
            cuts(old(self).source, to),
            forall|i: int| 0 <= i < shown@.len() ==> shown_ok(old(self).source, #[trigger] shown@[i]),
            old(self).tables_ok(),
        ensures
            old(self).same_tables(&*final(self)),
            final(self).hole == old(self).hole,
            match stream_named(text_at(old(self).source, to)) {
                None => {
                    &&& final(self).body == old(self).body
                    &&& said(final(self).errors@) == said(old(self).errors@).push(no_stream(old(self).source, to))
                },
                Some(stream) => {
                    &&& told_after(final(self).errors@, old(self).errors@, shown_all(*old(self), shown@).1)
                    &&& final(self).body@.len() == old(self).body@.len() + 1
                    &&& final(self).body@.drop_last() == old(self).body@
                    &&& final(self).body@.last() matches Stmt::Print { to: t, pieces } && t == stream && printed_as(
                        pieces@,
                        shown_all(*old(self), shown@).0,
                    )
                },
            },
    {
        let named = self.text(to);
        let stream = match Stream::from_name(named) {
            Some(st) => st,
            None => {
                let message = around("`", named, "` is not somewhere to print.");
                let d = Diagnostic::new("E0442", message.as_str())
                    .primary(to, "here")
                    .rule("a `print` says where it goes, because a reader should not have to know a default")
                    .tip("there is `stdout` and `stderr`.")
                    .fix("`stdout` for the ordinary one");
                self.errors.push(d);
                proof {
                    assert(d@.labels =~= no_stream(old(self).source, to).labels);
                    assert(d@.rules =~= no_stream(old(self).source, to).rules);
                    assert(d@.tips =~= no_stream(old(self).source, to).tips);
                    assert(d@.fixes =~= no_stream(old(self).source, to).fixes);
                    assert(said(self.errors@) =~= said(old(self).errors@).push(d@));
                }
                return;
            },
        };
        let ghost c0: Checker<'a> = *self;
        let ghost all = shown@;
        let mut rest = shown;
        let mut pieces: Vec<Printed> = Vec::new();
        let ghost mut done: int = 0;
        proof {
            assert(all.take(0) =~= Seq::<Shown>::empty());
            assert(all.skip(0) =~= all);
            assert(said(c0.errors@).take(c0.errors@.len() as int) =~= said(c0.errors@));
        }
        while rest.len() > 0
            invariant
                0 <= done <= all.len(),
                rest@ == all.skip(done),
                forall|i: int| 0 <= i < all.len() ==> shown_ok(c0.source, #[trigger] all[i]),
                c0.tables_ok(),
                c0.same_tables(&*self),
                self.body == c0.body,
                self.hole == c0.hole,
                c0 == *old(self),
                all == shown@,
                printed_as(pieces@, shown_all(c0, all.take(done)).0),
                told_after(self.errors@, c0.errors@, shown_all(c0, all.take(done)).1),
            decreases rest.len(),
        {
            let p = rest.remove(0);
            proof {
                assert(all[done] == p);
                assert(all.take(done + 1).drop_last() =~= all.take(done));
                assert(all.take(done + 1).last() == p);
                assert(all.skip(done + 1) =~= rest@);
                assert(shown_ok(c0.source, all[done]));
                lemma_shown_same(c0, *self, p);
            }
            let ghost e1 = self.errors@;
            let ghost before = shown_all(c0, all.take(done));
            self.show_one(p, &mut pieces, Ghost(before.0));
            proof {
                lemma_told_chain(self.errors@, e1, c0.errors@, before.1, shown_view(c0, p).1);
                done = done + 1;
            }
        }
        proof {
            assert(all.take(done) =~= all);
        }
        self.body.push(Stmt::Print { to: stream, pieces });
        proof {
            assert(self.body@.drop_last() =~= old(self).body@);
        }
    }

    /// One piece of a `print`: shown, or reported.
    fn show_one(&mut self, p: Shown, pieces: &mut Vec<Printed>, Ghost(so_far): Ghost<Seq<ShownView>>)
        requires
            shown_ok(old(self).source, p),
            old(self).tables_ok(),
            printed_as(old(pieces)@, so_far),
        ensures
            old(self).same_tables(&*final(self)),
            final(self).body == old(self).body,
            final(self).hole == old(self).hole,
            printed_as(
                final(pieces)@,
                match shown_view(*old(self), p).0 {
                    Some(v) => so_far.push(v),
                    None => so_far,
                },
            ),
            told_after(final(self).errors@, old(self).errors@, shown_view(*old(self), p).1),
    {
        let ghost e0 = self.errors@;
        proof {
            assert(said(e0).take(e0.len() as int) =~= said(e0));
        }
        match p {
            Shown::Piece(Piece::Name(at)) => {
                match self.named_value(at) {
                    Some((value, ty)) => {
                        let ghost shown = ShownView::Value(value, ty@);
                        pieces.push(Printed::Value { value, ty });
                        proof {
                            lemma_printed_push(old(pieces)@, so_far, pieces@.last(), shown);
                            assert(old(pieces)@.push(pieces@.last()) =~= pieces@);
                        }
                    },
                    None => {
                        proof {
                            assert(said(self.errors@).take(e0.len() as int) =~= said(self.errors@.drop_last()));
                        }
                    },
                }
            },
            Shown::Piece(Piece::Written { ty: None, mark }) => {
                let written = self.text(mark);
                let fix = around("`str:", written, "` if it is text");
                let d = Diagnostic::new("E0412", "this written value does not say what it is.")
                    .primary(mark, "no type in front of it")
                    .rule("a written value means nothing until a type reads it: `*1000*` is a number under `i64` and four characters under `str`")
                    .tip("a declaration says the type in its chain, so only here does the value have to.")
                    .fix(fix.as_str());
                self.push_one(d);
                proof {
                    let want = untyped_view(old(self).source, mark);
                    assert(d@.labels =~= want.labels);
                    assert(d@.rules =~= want.rules);
                    assert(d@.tips =~= want.tips);
                    assert(d@.fixes =~= want.fixes);
                    lemma_said_told(self.errors@, e0, seq![d@]);
                    assert(seq![d@].map_values(|d: DiagnosticView| Some(d)) =~= seq![Some(want)]);
                }
            },
            Shown::Piece(Piece::Written { ty: Some(t), mark }) => {
                let word = self.text(t);
                let written = self.named(mark);
                match Ty::simple(word) {
                    None => {
                        let message = around("`", word, "` is not a type.");
                        let d = Diagnostic::new("E0402", message.as_str())
                            .primary(t, "here")
                            .rule("a value that says its own type says one of the types there are")
                            .fix("check the spelling");
                        self.push_one(d);
                        proof {
                            assert(texts(d.tips@) =~= Seq::<Seq<char>>::empty());
                            lemma_said_told(self.errors@, e0, seq![d@]);
                            assert(seq![d@].map_values(|d: DiagnosticView| Some(d)) =~= shown_view(*old(self), p).1);
                        }
                    },
                    Some(Ty::Bool) => {
                        if same_str(written.as_str(), "true") || same_str(written.as_str(), "false") {
                            let ghost shown = ShownView::Text(written@);
                            pieces.push(Printed::Text(written));
                            proof {
                                lemma_printed_push(old(pieces)@, so_far, pieces@.last(), shown);
                                assert(old(pieces)@.push(pieces@.last()) =~= pieces@);
                            }
                        } else {
                            let message = around("`", written.as_str(), "` is not true or false.");
                            let d = Diagnostic::new("E0416", message.as_str())
                                .primary(mark, "here")
                                .rule("a `bool` is written `*true*` or `*false*`, and nothing is truthy")
                                .fix("`*true*` or `*false*`");
                            self.push_one(d);
                            proof {
                                assert(texts(d.tips@) =~= Seq::<Seq<char>>::empty());
                                lemma_said_told(self.errors@, e0, seq![d@]);
                                assert(seq![d@].map_values(|d: DiagnosticView| Some(d)) =~= shown_view(*old(self), p).1);
                            }
                        }
                    },
                    Some(Ty::Int { .. }) => {
                        if i64_read(written.as_str()).is_some() {
                            let ghost shown = ShownView::Text(written@);
                            pieces.push(Printed::Text(written));
                            proof {
                                lemma_printed_push(old(pieces)@, so_far, pieces@.last(), shown);
                                assert(old(pieces)@.push(pieces@.last()) =~= pieces@);
                            }
                        } else {
                            let message = around("`", written.as_str(), "` is not a whole number.");
                            let d = Diagnostic::new("E0407", message.as_str())
                                .primary(mark, "here")
                                .rule("a written value is read by the type it is given to, and `i64` reads whole numbers")
                                .fix("write a whole number");
                            self.push_one(d);
                            proof {
                                assert(texts(d.tips@) =~= Seq::<Seq<char>>::empty());
                                lemma_said_told(self.errors@, e0, seq![d@]);
                                assert(seq![d@].map_values(|d: DiagnosticView| Some(d)) =~= shown_view(*old(self), p).1);
                            }
                        }
                    },
                    _ => {
                        let ghost shown = ShownView::Text(written@);
                        pieces.push(Printed::Text(written));
                        proof {
                            lemma_printed_push(old(pieces)@, so_far, pieces@.last(), shown);
                            assert(old(pieces)@.push(pieces@.last()) =~= pieces@);
                        }
                    },
                }
            },
            Shown::Piece(Piece::Escape(at)) => {
                match self.literal(&Piece::Escape(at)) {
                    Some(text) => {
                        let ghost shown = ShownView::Text(text@);
                        pieces.push(Printed::Text(text));
                        proof {
                            lemma_printed_push(old(pieces)@, so_far, pieces@.last(), shown);
                            assert(old(pieces)@.push(pieces@.last()) =~= pieces@);
                            assert(said(self.errors@) =~= said(e0));
                            lemma_said_told(self.errors@, e0, Seq::empty());
                            assert(Seq::<DiagnosticView>::empty().map_values(|d: DiagnosticView| Some(d)) =~= shown_view(*old(self), p).1);
                        }
                    },
                    None => {
                        proof {
                            lemma_said_told(self.errors@, e0, literal_view(old(self).source, Piece::Escape(at)).1);
                        }
                    },
                }
            },
            Shown::Piece(_) => {},
            Shown::Worked { built, told: mut w } => {
                let ghost wv = said(w@);
                self.errors.append(&mut w);
                proof {
                    assert(said(self.errors@) =~= said(e0) + wv);
                    lemma_said_told(self.errors@, e0, wv);
                }
                match built {
                    Some((value, ty)) => {
                        let ghost shown = ShownView::Value(value, ty@);
                        pieces.push(Printed::Value { value, ty });
                        proof {
                            lemma_printed_push(old(pieces)@, so_far, pieces@.last(), shown);
                            assert(old(pieces)@.push(pieces@.last()) =~= pieces@);
                        }
                    },
                    None => {},
                }
            },
        }
    }

    /// A value that is one thing worked out on its own, given where `ty` is wanted:
    /// whatever it already is, the only question left is whether that agrees. Under a
    /// hole, it agrees when the hole takes it.
    pub fn worked_alone(
        &mut self,
        span: Span,
        built: Option<Value>,
        told: Vec<Diagnostic>,
        ty: &Ty,
        ty_span: Span,
    ) -> (r: Option<Value>)
        requires
            built matches Some(v) ==> refs_ok(old(self).locals@, old(self).constants@, old(self).signatures@, v),
        ensures
            old(self).same_tables(&*final(self)),
            final(self).body == old(self).body,
            final(self).hole == old(self).hole,
            r == alone_view(*old(self), span, built, said(told@), ty@, ty_span).0,
            said(final(self).errors@) == said(old(self).errors@) + alone_view(
                *old(self),
                span,
                built,
                said(told@),
                ty@,
                ty_span,
            ).1,
    {
        let ghost e0 = said(self.errors@);
        let ghost tv = said(told@);
        let mut told = told;
        self.errors.append(&mut told);
        proof {
            assert(said(self.errors@) =~= e0 + tv);
        }
        let built = match built {
            Some(v) => v,
            None => return None,
        };
        let ghost cs = complaints(old(self).locals@, old(self).constants@, old(self).signatures@, built, span);
        let found = match self.type_of(&built, span) {
            Some(t) => t,
            None => {
                proof {
                    assert(e0 + (tv + cs) =~= (e0 + tv) + cs);
                }
                return None;
            },
        };
        proof {
            assert(e0 + (tv + cs) =~= (e0 + tv) + cs);
        }
        if let Ty::Hole(_) = ty {
            if ty.accepts(&found) {
                return Some(built);
            }
            let found_name = found.name();
            let wanted = ty.name();
            let mut message = String::from_str("this is ");
            message.append(found.article());
            message.append(" `");
            message.append(found_name.as_str());
            message.append("`, and it is being given to ");
            message.append(ty.article());
            message.append(" `");
            message.append(wanted.as_str());
            message.append("`.");
            let mut note = String::from_str(found.article());
            note.append(" `");
            note.append(found_name.as_str());
            note.append("`");
            let declared = around("declared `", wanted.as_str(), "` here");
            let fix = around("name something the function was given, or declare it `", found_name.as_str(), "`");
            let d = Diagnostic::new("E0406", message.as_str())
                .primary(span, note.as_str())
                .secondary(ty_span, declared.as_str())
                .rule("a hole is one type, the same one everywhere in a signature — and the caller decides which")
                .fix(fix.as_str());
            proof {
                let want = hole_given(found@, ty@, span, ty_span);
                assert(message@ =~= want.message);
                assert(d@.labels =~= want.labels);
                assert(d@.rules =~= want.rules);
                assert(d@.tips =~= want.tips);
                assert(d@.fixes =~= want.fixes);
                assert(seq![d@] =~= seq![want]);
                assert(e0 + (tv + cs).push(want) =~= (e0 + (tv + cs)) + seq![d@]);
            }
            self.push_one(d);
            return None;
        }
        if found.same(ty) {
            return Some(built);
        }
        let found_name = found.name();
        let wanted = ty.name();
        let mut message = String::from_str("this is ");
        message.append(found.article());
        message.append(" `");
        message.append(found_name.as_str());
        message.append("`, and it is being given to ");
        message.append(ty.article());
        message.append(" `");
        message.append(wanted.as_str());
        message.append("`.");
        let mut note = String::from_str(found.article());
        note.append(" `");
        note.append(found_name.as_str());
        note.append("`");
        let declared = around("declared `", wanted.as_str(), "` here");
        let d = Diagnostic::new("E0406", message.as_str())
            .primary(span, note.as_str())
            .secondary(ty_span, declared.as_str())
            .rule("nothing converts on its own — two types meet only where something says they should")
            .fix("declare it the same type");
        proof {
            let want = given_view(found@, ty@, span, ty_span, "declare it the same type"@);
            assert(message@ =~= want.message);
            assert(d@.labels =~= want.labels);
            assert(d@.rules =~= want.rules);
            assert(d@.tips =~= want.tips);
            assert(d@.fixes =~= want.fixes);
            assert(seq![d@] =~= seq![want]);
            assert(e0 + (tv + cs).push(want) =~= (e0 + (tv + cs)) + seq![d@]);
        }
        self.push_one(d);
        None
    }

    /// A number, or a value for a hole, written as `count` pieces side by side: pieces
    /// side by side build text, and a number is written once.
    pub fn not_several(&mut self, ty: &Ty, at: Span, count: usize, ty_span: Span)
        requires
            ty@ is Int || ty@ is Hole || ty@ is Exact || ty@ is F64 || ty@ is F32 || ty@ is F16 || ty@ is Decimal,
        ensures
            old(self).same_tables(&*final(self)),
            final(self).body == old(self).body,
            final(self).hole == old(self).hole,
            said(final(self).errors@) == said(old(self).errors@).push(several_view(ty@, at, count as nat, ty_span)),
    {
        let name = ty.name();
        let d = match ty {
            Ty::Int { .. } => {
                let mut note = String::new();
                push_decimal(&mut note, count as u64);
                note.append(" pieces here");
                Diagnostic::new("E0408", "a number is one written value, not several.")
                    .primary(at, note.as_str())
                    .secondary(ty_span, "declared `i64` here")
                    .rule("pieces side by side build text; a number is written once")
                    .tip("`str` is the type where a value is a list of pieces.")
                    .fix("write it as one value, or put `+` between them")
            },
            Ty::Hole(_) => {
                let mut message = String::from_str(ty.article());
                message.append(" `");
                message.append(name.as_str());
                message.append("` is one value, not several.");
                let mut note = String::new();
                push_decimal(&mut note, count as u64);
                note.append(" pieces here");
                let declared = around("declared `", name.as_str(), "` here");
                Diagnostic::new("E0408", message.as_str())
                    .primary(at, note.as_str())
                    .secondary(ty_span, declared.as_str())
                    .rule("pieces side by side build text, and a hole is not known to be text")
                    .fix("write it as one value")
            },
            Ty::Exact => Diagnostic::new("E0475", "an `e` is one written value, not several.")
                .primary(at, "here")
                .secondary(ty_span, "declared `e` here")
                .rule("pieces side by side build text; a number is written once")
                .fix("write it as one value, or put an operator between them"),
            _ => {
                let message = around("a `", name.as_str(), "` is one written value, not several.");
                let declared = around("declared `", name.as_str(), "` here");
                Diagnostic::new("E0487", message.as_str())
                    .primary(at, "here")
                    .secondary(ty_span, declared.as_str())
                    .rule("pieces side by side build text; a number is written once")
                    .fix("write it as one value, or put an operator between them")
            },
        };
        proof {
            let want = several_view(ty@, at, count as nat, ty_span);
            assert(d@.message =~= want.message);
            assert(d@.labels =~= want.labels);
            assert(d@.rules =~= want.rules);
            assert(d@.tips =~= want.tips);
            assert(d@.fixes =~= want.fixes);
            assert(seq![d@] =~= seq![want]);
            assert(said(old(self).errors@) + seq![want] =~= said(old(self).errors@).push(want));
        }
        self.push_one(d);
    }

    /// One term worked out at `reading`, the type the chain reads it at where nothing
    /// in it says its own: a name is what that variable or constant holds, a written
    /// value is read by its type, `not` turns a `bool` round, `share` and `copy` ask of
    /// an array, and what cannot stand as a value (a bare number, a list of elements,
    /// an escape) is refused. `read` is what the number readings made of its written
    /// value, if it has one; an element, a call or a path comes worked out.
    #[verifier::rlimit(40)]
    pub fn term(&mut self, term: Term, reading: &Ty, read: Reading) -> (r: Option<Value>)
        requires
            term_fits(*old(self), term, reading@, read),
            old(self).tables_ok(),
        ensures
            old(self).same_tables(&*final(self)),
            final(self).body == old(self).body,
            final(self).hole == old(self).hole,
            made_or(r, term_view(*old(self), term, reading@, read).0),
            told_after(final(self).errors@, old(self).errors@, term_view(*old(self), term, reading@, read).1),
            r matches Some(v) ==> refs_ok(old(self).locals@, old(self).constants@, old(self).signatures@, v),
        decreases term,
    {
        let ghost c0: Checker<'a> = *self;
        let ghost e0 = self.errors@;
        match term {
            Term::Not { word, of, .. } => {
                let inner: Term = *of;
                let at = span_of_term(&inner);
                let ghost inner0 = inner;
                let built = match self.term(inner, reading, read) {
                    Some(v) => v,
                    None => return None,
                };
                let ghost e1 = self.errors@;
                let ghost m = term_view(c0, inner0, reading@, read).0->0;
                proof {
                    lemma_made_typed(c0, built, m, at);
                }
                let r = self.turned(built, at, word);
                proof {
                    lemma_told_chain(self.errors@, e1, e0, term_view(c0, inner0, reading@, read).1, turned_view(c0, built, at, word).1);
                }
                r
            },
            Term::Handed { word, copies, of, .. } => {
                let inner: Term = *of;
                let at = span_of_term(&inner);
                let ghost inner0 = inner;
                let built = match self.term(inner, reading, read) {
                    Some(v) => v,
                    None => return None,
                };
                let ghost e1 = self.errors@;
                let ghost m = term_view(c0, inner0, reading@, read).0->0;
                proof {
                    lemma_made_typed(c0, built, m, at);
                }
                let r = self.handed(built, at, word, copies);
                proof {
                    lemma_told_chain(self.errors@, e1, e0, term_view(c0, inner0, reading@, read).1, handed_view(c0, built, at, word, copies).1);
                }
                r
            },
            _ => self.leaf_term(term, reading, read),
        }
    }

    /// A term with nothing inside it to work out first.
    #[verifier::rlimit(40)]
    fn leaf_term(&mut self, term: Term, reading: &Ty, read: Reading) -> (r: Option<Value>)
        requires
            term_fits(*old(self), term, reading@, read),
            old(self).tables_ok(),
            !(term is Not || term is Handed),
        ensures
            old(self).same_tables(&*final(self)),
            final(self).body == old(self).body,
            final(self).hole == old(self).hole,
            made_or(r, term_view(*old(self), term, reading@, read).0),
            told_after(final(self).errors@, old(self).errors@, term_view(*old(self), term, reading@, read).1),
            r matches Some(v) ==> refs_ok(old(self).locals@, old(self).constants@, old(self).signatures@, v),
    {
        let ghost c0: Checker<'a> = *self;
        let ghost t0 = term;
        let ghost e0 = self.errors@;
        proof {
            lemma_told_none(self.errors@);
        }
        match term {
            Term::Number(s) => {
                let fix = around("`*", self.text(s), "*`");
                let d = Diagnostic::new("E0436", "a bare number is a size, not a value.")
                    .primary(s, "here")
                    .rule("a value wears marks, so that a written thing is never read differently depending on where it sits")
                    .fix(fix.as_str());
                proof {
                    let want = term_view(c0, t0, reading@, read).1[0]->0;
                    assert(d@.labels =~= want.labels);
                    assert(d@.rules =~= want.rules);
                    assert(d@.tips =~= want.tips);
                    assert(d@.fixes =~= want.fixes);
                    assert(term_view(c0, t0, reading@, read).1 =~= seq![Some(d@)]);
                }
                self.told_one(d);
                None
            },
            Term::Elements { open, close } => {
                let d = Diagnostic::new("E0437", "this is a list of elements, and nothing here wants one.")
                    .primary(open.to(close), "here")
                    .rule("elements are written for an array, and the type says which")
                    .fix("declare it `arr`, or remove the brackets");
                proof {
                    let want = term_view(c0, t0, reading@, read).1[0]->0;
                    assert(d@.labels =~= want.labels);
                    assert(d@.rules =~= want.rules);
                    assert(d@.tips =~= want.tips);
                    assert(d@.fixes =~= want.fixes);
                    assert(term_view(c0, t0, reading@, read).1 =~= seq![Some(d@)]);
                }
                self.told_one(d);
                None
            },
            Term::Worked { built, told: mut w, .. } => {
                let ghost wv = said(w@);
                self.errors.append(&mut w);
                proof {
                    assert(said(self.errors@) =~= said(e0) + wv);
                    lemma_said_told(self.errors@, e0, wv);
                }
                built
            },
            Term::Piece(Piece::Name(at)) => {
                proof {
                    self.lemma_constant_below(name_at(self.source, at));
                }
                match self.named_value(at) {
                    Some((v, _)) => Some(v),
                    None => {
                        proof {
                            assert(said(self.errors@).take(e0.len() as int) =~= said(self.errors@.drop_last()));
                        }
                        None
                    },
                }
            },
            Term::Piece(Piece::Written { ty, mark }) => self.written_value(ty, mark, reading, read),
            Term::Piece(Piece::Escape(at)) => {
                let d = Diagnostic::new("E0419", "an escape is part of text, not of a sum.")
                    .primary(at, "here")
                    .rule("escapes stand beside text, and there is nothing to escape in a number")
                    .fix("remove it");
                proof {
                    let want = term_view(c0, t0, reading@, read).1[0]->0;
                    assert(d@.labels =~= want.labels);
                    assert(d@.rules =~= want.rules);
                    assert(d@.tips =~= want.tips);
                    assert(d@.fixes =~= want.fixes);
                    assert(term_view(c0, t0, reading@, read).1 =~= seq![Some(d@)]);
                }
                self.told_one(d);
                None
            },
            Term::Piece(_) => None,
            _ => None,
        }
    }

    /// `not` asked of a value already worked out, pointing at it and at the word.
    fn turned(&mut self, built: Value, at: Span, word: Span) -> (r: Option<Value>)
        requires
            refs_ok(old(self).locals@, old(self).constants@, old(self).signatures@, built),
        ensures
            old(self).same_tables(&*final(self)),
            final(self).body == old(self).body,
            final(self).hole == old(self).hole,
            r == turned_view(*old(self), built, at, word).0,
            told_after(final(self).errors@, old(self).errors@, turned_view(*old(self), built, at, word).1),
            r matches Some(v) ==> refs_ok(old(self).locals@, old(self).constants@, old(self).signatures@, v),
    {
        let ghost e0 = self.errors@;
        let found = match self.type_of(&built, at) {
            Some(t) => t,
            None => {
                proof {
                    lemma_said_told(self.errors@, e0, complaints(old(self).locals@, old(self).constants@, old(self).signatures@, built, at));
                }
                return None;
            },
        };
        let ghost e1 = self.errors@;
        proof {
            lemma_said_told(self.errors@, e0, complaints(old(self).locals@, old(self).constants@, old(self).signatures@, built, at));
        }
        if found.same(&Ty::Bool) {
            return Some(Value::Not(Box::new(built)));
        }
        let name = found.name();
        let mut message = String::from_str("`not` turns a `bool` round, and this is ");
        message.append(found.article());
        message.append(" `");
        message.append(name.as_str());
        message.append("`.");
        let mut note = String::from_str(found.article());
        note.append(" `");
        note.append(name.as_str());
        note.append("`");
        let d = Diagnostic::new("E0418", message.as_str())
            .primary(at, note.as_str())
            .secondary(word, "asked to turn round here")
            .rule("nothing is truthy — `not` is for the type that is already true or false")
            .fix("compare it against something first");
        proof {
            let want = not_bool(found@, at, word);
            assert(message@ =~= want.message);
            assert(d@.labels =~= want.labels);
            assert(d@.rules =~= want.rules);
            assert(d@.tips =~= want.tips);
            assert(d@.fixes =~= want.fixes);
            assert(d@ == want);
        }
        self.told_one(d);
        proof {
            let cs = somes(complaints(old(self).locals@, old(self).constants@, old(self).signatures@, built, at));
            lemma_told_chain(self.errors@, e1, e0, cs, seq![Some(d@)]);
            assert(cs.push(Some(d@)) =~= cs + seq![Some(d@)]);
        }
        None
    }

    /// `share` or `copy` asked of a value already worked out, pointing at it and at the
    /// word.
    fn handed(&mut self, built: Value, at: Span, word: Span, copies: bool) -> (r: Option<Value>)
        requires
            refs_ok(old(self).locals@, old(self).constants@, old(self).signatures@, built),
            cuts(old(self).source, word),
        ensures
            old(self).same_tables(&*final(self)),
            final(self).body == old(self).body,
            final(self).hole == old(self).hole,
            r == handed_view(*old(self), built, at, word, copies).0,
            told_after(final(self).errors@, old(self).errors@, handed_view(*old(self), built, at, word, copies).1),
            r matches Some(v) ==> refs_ok(old(self).locals@, old(self).constants@, old(self).signatures@, v),
    {
        let ghost e0 = self.errors@;
        let found = match self.type_of(&built, at) {
            Some(t) => t,
            None => {
                proof {
                    lemma_said_told(self.errors@, e0, complaints(old(self).locals@, old(self).constants@, old(self).signatures@, built, at));
                }
                return None;
            },
        };
        let ghost e1 = self.errors@;
        proof {
            lemma_said_told(self.errors@, e0, complaints(old(self).locals@, old(self).constants@, old(self).signatures@, built, at));
        }
        if let Ty::Arr { .. } = found {
            return Some(if copies { Value::Copied(Box::new(built)) } else { built });
        }
        let name = found.name();
        let mut message = String::from_str("`");
        message.append(self.text(word));
        message.append("` is for arrays, and this is ");
        message.append(found.article());
        message.append(" `");
        message.append(name.as_str());
        message.append("`.");
        let mut note = String::from_str(found.article());
        note.append(" `");
        note.append(name.as_str());
        note.append("`");
        let d = Diagnostic::new("E0479", message.as_str())
            .primary(at, note.as_str())
            .secondary(word, "asked here")
            .rule("an array is the only thing in Quench a second name can reach, so it is the only thing that has to say which was meant")
            .tip("everything else is a value: naming it again is naming the value, and there is nothing to share.")
            .fix("remove it");
        proof {
            let want = not_array(old(self).source, found@, at, word);
            assert(message@ =~= want.message);
            assert(d@.labels =~= want.labels);
            assert(d@.rules =~= want.rules);
            assert(d@.tips =~= want.tips);
            assert(d@.fixes =~= want.fixes);
            assert(d@ == want);
        }
        self.told_one(d);
        proof {
            let cs = somes(complaints(old(self).locals@, old(self).constants@, old(self).signatures@, built, at));
            lemma_told_chain(self.errors@, e1, e0, cs, seq![Some(d@)]);
            assert(cs.push(Some(d@)) =~= cs + seq![Some(d@)]);
        }
        None
    }

    /// One element of an array of `of`: text known now where the array holds text and
    /// the element is a piece, and otherwise the term read at `of`; then its type, which
    /// has to be `of`.
    #[verifier::rlimit(40)]
    fn array_element(&mut self, of: &Ty, t: Term, rd: Reading, ty_span: Span, Ghost(c): Ghost<Checker<'a>>) -> (r: Option<Value>)
        requires
            c.same_tables(&*old(self)),
            c.tables_ok(),
            element_fits(c, of@, (t, rd)),
        ensures
            old(self).same_tables(&*final(self)),
            final(self).body == old(self).body,
            final(self).hole == old(self).hole,
            made_or(r, element_view(c, of@, t, rd, ty_span).0),
            told_after(final(self).errors@, old(self).errors@, element_view(c, of@, t, rd, ty_span).1),
    {
        let ghost e0 = self.errors@;
        let ghost t0 = t;
        let at = span_of_term(&t);
        proof {
            lemma_term_same(c, *self, t, of@, rd);
        }
        let is_text = of.same(&Ty::Str);
        let built = match t {
            Term::Piece(p) if is_text => {
                match self.literal(&p) {
                    Some(x) => {
                        proof {
                            lemma_said_told(self.errors@, e0, literal_view(c.source, p).1);
                        }
                        Value::Text(x)
                    },
                    None => {
                        proof {
                            lemma_said_told(self.errors@, e0, literal_view(c.source, p).1);
                        }
                        return None;
                    },
                }
            },
            other => match self.term(other, of, rd) {
                Some(v) => v,
                None => return None,
            },
        };
        let ghost e1 = self.errors@;
        let ghost m = element_made(c, of@, t0, rd);
        let ghost e = element_said(c, of@, t0, rd);
        proof {
            assert(made_as(built, m));
            lemma_made_typed(c, built, m, at);
        }
        let found = match self.type_of(&built, at) {
            Some(found) => found,
            None => {
                proof {
                    lemma_said_told(self.errors@, e1, made_complaints(c, m, at));
                    lemma_told_chain(self.errors@, e1, e0, e, somes(made_complaints(c, m, at)));
                }
                return None;
            },
        };
        let ghost e2 = self.errors@;
        proof {
            lemma_said_told(self.errors@, e1, made_complaints(c, m, at));
            lemma_told_chain(self.errors@, e1, e0, e, somes(made_complaints(c, m, at)));
        }
        if found.same(of) {
            return Some(built);
        }
        let name = found.name();
        let wanted = of.name();
        let mut message = String::from_str("this is ");
        message.append(found.article());
        message.append(" `");
        message.append(name.as_str());
        message.append("`, and the array holds ");
        message.append(of.article());
        message.append(" `");
        message.append(wanted.as_str());
        message.append("`.");
        let mut note = String::from_str(found.article());
        note.append(" `");
        note.append(name.as_str());
        note.append("`");
        let declared = around("declared `arr.", wanted.as_str(), "` here");
        let fix = around("write a `", wanted.as_str(), "`");
        let d = Diagnostic::new("E0432", message.as_str())
            .primary(at, note.as_str())
            .secondary(ty_span, declared.as_str())
            .rule("every element of an array is the type the array said, and nothing converts on its own")
            .fix(fix.as_str());
        proof {
            let want = wrong_element(found@, of@, at, ty_span);
            assert(message@ =~= want.message);
            assert(d@.labels =~= want.labels);
            assert(d@.rules =~= want.rules);
            assert(d@.tips =~= want.tips);
            assert(d@.fixes =~= want.fixes);
            assert(d@ == want);
        }
        self.told_one(d);
        proof {
            let more = e + somes(made_complaints(c, m, at));
            lemma_told_chain(self.errors@, e2, e0, more, seq![Some(d@)]);
            assert(more.push(Some(d@)) =~= more + seq![Some(d@)]);
        }
        None
    }

    /// The elements of an array of `of`, in order, stopping at the first that cannot be
    /// one.
    fn array_elements(&mut self, of: &Ty, written: Vec<(Term, Reading)>, ty_span: Span, Ghost(c): Ghost<Checker<'a>>) -> (r: Option<Vec<Value>>)
        requires
            c.same_tables(&*old(self)),
            c.tables_ok(),
            forall|i: int| 0 <= i < written@.len() ==> element_fits(c, of@, #[trigger] written@[i]),
        ensures
            old(self).same_tables(&*final(self)),
            final(self).body == old(self).body,
            final(self).hole == old(self).hole,
            match elements_view(c, of@, written@, ty_span).0 {
                Some(ms) => r matches Some(vs) && vs@.len() == ms.len() && forall|i: int|
                    0 <= i < ms.len() ==> made_as(#[trigger] vs@[i], ms[i]),
                None => r is None,
            },
            told_after(final(self).errors@, old(self).errors@, elements_view(c, of@, written@, ty_span).1),
    {
        let ghost all = written@;
        let ghost e0 = self.errors@;
        let ghost s0: Checker<'a> = *self;
        let mut rest = written;
        let mut values: Vec<Value> = Vec::new();
        let ghost mut made: Seq<Made> = Seq::empty();
        let ghost mut told: Seq<Option<DiagnosticView>> = Seq::empty();
        let ghost mut done: int = 0;
        proof {
            assert(all.take(0) =~= Seq::<(Term, Reading)>::empty());
            assert(all.skip(0) =~= all);
            lemma_told_none(e0);
        }
        while rest.len() > 0
            invariant
                0 <= done <= all.len(),
                rest@ == all.skip(done),
                all == written@,
                c.same_tables(&*self),
                c.tables_ok(),
                s0 == *old(self),
                c.same_tables(&s0),
                self.body == s0.body,
                self.hole == s0.hole,
                forall|i: int| 0 <= i < all.len() ==> element_fits(c, of@, #[trigger] all[i]),
                elements_view(c, of@, all.take(done), ty_span) == (Some(made), told),
                values@.len() == made.len(),
                forall|i: int| 0 <= i < made.len() ==> made_as(#[trigger] values@[i], made[i]),
                told_after(self.errors@, e0, told),
                e0 == s0.errors@,
            decreases rest.len(),
        {
            let (t, rd) = rest.remove(0);
            let ghost e1 = self.errors@;
            proof {
                assert(all[done] == (t, rd));
                assert(all.take(done + 1).drop_last() =~= all.take(done));
                assert(all.take(done + 1).last() == (t, rd));
                assert(all.skip(done + 1) =~= rest@);
                assert(element_fits(c, of@, all[done]));
                done = done + 1;
            }
            let one = self.array_element(of, t, rd, ty_span, Ghost(c));
            proof {
                lemma_told_chain(self.errors@, e1, e0, told, element_view(c, of@, t, rd, ty_span).1);
            }
            match one {
                Some(v) => {
                    let ghost m = element_view(c, of@, t, rd, ty_span).0->0;
                    values.push(v);
                    proof {
                        assert forall|i: int| 0 <= i < made.push(m).len() implies made_as(#[trigger] values@[i], made.push(m)[i]) by {
                            if i < made.len() {
                                assert(values@[i] == values@.drop_last()[i]);
                            }
                        }
                        made = made.push(m);
                        told = told + element_view(c, of@, t, rd, ty_span).1;
                    }
                },
                None => {
                    proof {
                        lemma_elements_stay(c, of@, all, done, ty_span);
                        assert(all.take(all.len() as int) =~= all);
                    }
                    return None;
                },
            }
        }
        proof {
            assert(all.take(done) =~= all);
        }
        Some(values)
    }

    /// The elements of an array of `of`, written flat, built into its rows: cut into
    /// groups of what one row takes where `of` is an array itself, each built as one,
    /// and read as elements otherwise. This is what follows counting them against the
    /// shape, once they fit.
    #[verifier::rlimit(30)]
    pub fn array_rows(&mut self, of: &Ty, written: Vec<(Term, Reading)>, ty_span: Span) -> (r: Option<Value>)
        requires
            old(self).tables_ok(),
            rows_fit(*old(self), of@, written@),
        ensures
            old(self).same_tables(&*final(self)),
            final(self).body == old(self).body,
            final(self).hole == old(self).hole,
            built_or(r, rows_view(*old(self), of@, written@, ty_span).0),
            told_after(final(self).errors@, old(self).errors@, rows_view(*old(self), of@, written@, ty_span).1),
            r matches Some(Value::Array { elements, .. }) ==> elements@.len() * count_of(of@) == written@.len(),
    {
        let ghost c: Checker<'a> = *self;
        let ghost ws = written@;
        let r = self.rows_built(of, written, ty_span, Ghost(c));
        proof {
            if r is Some {
                match of@ {
                    TyView::Arr { .. } => {
                        lemma_groups_len(c, of@, ws, ty_span);
                        let rows = groups_view(c, of@, ws, ty_span).0->0;
                        assert(rows_view(c, of@, ws, ty_span).0 == Some(Built::Rows(of@, rows)));
                        assert(built_as(r->0, Built::Rows(of@, rows)));
                    },
                    _ => {
                        lemma_elements_len(c, of@, ws, ty_span);
                        let ms = elements_view(c, of@, ws, ty_span).0->0;
                        let bs = ms.map_values(|m: Made| Built::Made(m));
                        assert(rows_view(c, of@, ws, ty_span).0 == Some(Built::Rows(of@, bs)));
                        assert(built_as(r->0, Built::Rows(of@, bs)));
                        assert(count_of(of@) == 1);
                    },
                }
            }
        }
        r
    }

    /// The same, read against a checker with the same tables.
    fn rows_built(&mut self, of: &Ty, written: Vec<(Term, Reading)>, ty_span: Span, Ghost(c): Ghost<Checker<'a>>) -> (r: Option<Value>)
        requires
            c.same_tables(&*old(self)),
            c.tables_ok(),
            rows_fit(c, of@, written@),
        ensures
            old(self).same_tables(&*final(self)),
            final(self).body == old(self).body,
            final(self).hole == old(self).hole,
            built_or(r, rows_view(c, of@, written@, ty_span).0),
            told_after(final(self).errors@, old(self).errors@, rows_view(c, of@, written@, ty_span).1),
        decreases of@, 2int,
    {
        let ghost all = written@;
        if let Ty::Arr { .. } = of {
            let rows = match self.array_groups(of, written, ty_span, Ghost(c)) {
                Some(rows) => rows,
                None => return None,
            };
            let r = Value::Array { of: Box::new(of.clone()), elements: rows };
            return Some(r);
        }
        proof {
            assert(leaf(of@) == of@);
        }
        let values = match self.array_elements(of, written, ty_span, Ghost(c)) {
            Some(values) => values,
            None => return None,
        };
        proof {
            let ms = elements_view(c, of@, all, ty_span).0->0;
            let bs = ms.map_values(|m: Made| Built::Made(m));
            assert forall|i: int| 0 <= i < bs.len() implies built_as(#[trigger] values@[i], bs[i]) by {
                assert(bs[i] == Built::Made(ms[i]));
            }
        }
        Some(Value::Array { of: Box::new(of.clone()), elements: values })
    }

    /// The rows of an array of arrays, each as many of the flat elements as one row of
    /// `of` takes, in order, stopping at the first that cannot be built.
    fn array_groups(&mut self, of: &Ty, written: Vec<(Term, Reading)>, ty_span: Span, Ghost(c): Ghost<Checker<'a>>) -> (r: Option<Vec<Value>>)
        requires
            c.same_tables(&*old(self)),
            c.tables_ok(),
            of@ is Arr,
            rows_fit(c, of@, written@),
        ensures
            old(self).same_tables(&*final(self)),
            final(self).body == old(self).body,
            final(self).hole == old(self).hole,
            match groups_view(c, of@, written@, ty_span).0 {
                Some(rows) => r matches Some(vs) && vs@.len() == rows.len() && forall|i: int|
                    0 <= i < rows.len() ==> built_as(#[trigger] vs@[i], rows[i]),
                None => r is None,
            },
            told_after(final(self).errors@, old(self).errors@, groups_view(c, of@, written@, ty_span).1),
        decreases of@, 1int,
    {
        let ghost all = written@;
        let ghost e0 = self.errors@;
        let ghost s0: Checker<'a> = *self;
        let each = of.count();
        let ghost n = each as int;
        let mut rest = written;
        let mut rows: Vec<Value> = Vec::new();
        let ghost mut built: Seq<Built> = Seq::empty();
        let ghost mut told: Seq<Option<DiagnosticView>> = Seq::empty();
        let ghost mut done: int = 0;
        proof {
            assert(all.take(0) =~= Seq::<(Term, Reading)>::empty());
            assert(all.skip(0) =~= all);
            lemma_told_none(e0);
        }
        while rest.len() > 0
            invariant
                n == count_of(of@),
                n >= 1,
                0 <= done <= all.len(),
                done % n == 0,
                (all.len() as int) % n == 0,
                rest@ == all.skip(done),
                all == written@,
                of@ is Arr,
                c.same_tables(&*self),
                c.tables_ok(),
                rows_fit(c, of@, all),
                each == n,
                s0 == *old(self),
                c.same_tables(&s0),
                self.body == s0.body,
                self.hole == s0.hole,
                groups_view(c, of@, all.take(done), ty_span) == (Some(built), told),
                rows@.len() == built.len(),
                forall|i: int| 0 <= i < built.len() ==> built_as(#[trigger] rows@[i], built[i]),
                told_after(self.errors@, e0, told),
                e0 == s0.errors@,
            decreases rest.len(),
        {
            proof {
                vstd::arithmetic::div_mod::lemma_fundamental_div_mod(all.len() as int, n);
                vstd::arithmetic::div_mod::lemma_fundamental_div_mod(done, n);
                assert(all.len() - done >= n) by (nonlinear_arith)
                    requires
                        all.len() == n * (all.len() as int / n),
                        done == n * (done / n),
                        done < all.len(),
                        n >= 1,
                ;
            }
            let mut group: Vec<(Term, Reading)> = Vec::new();
            let mut k: usize = 0;
            while k < each
                invariant
                    k <= each,
                    each == n,
                    0 <= done,
                    done + n <= all.len(),
                    group@ == all.subrange(done, done + k),
                    rest@ == all.skip(done + k),
                decreases each - k,
            {
                let item = rest.remove(0);
                group.push(item);
                proof {
                    assert(all.subrange(done, done + k + 1) =~= all.subrange(done, done + k).push(item));
                    assert(all.skip(done + k + 1) =~= rest@);
                }
                k = k + 1;
            }
            let ghost g = group@;
            let ghost e1 = self.errors@;
            proof {
                let next = all.take(done + n);
                assert(next.take(next.len() - n) =~= all.take(done));
                assert(next.skip(next.len() - n) =~= g);
                assert(next.len() >= n);
                assert(groups_view(c, of@, next, ty_span) == ({
                    let (rows, e) = groups_view(c, of@, all.take(done), ty_span);
                    match rows {
                        None => (None, e),
                        Some(rows) => {
                            let (row, more) = group_view(c, of@, g, ty_span);
                            match row {
                                None => (None, e + more),
                                Some(row) => (Some(rows.push(row)), e + more),
                            }
                        },
                    }
                }));
                done = done + n;
                vstd::arithmetic::div_mod::lemma_mod_add_multiples_vanish(done - n, n);
            }
            let row = self.array_group(of, group, ty_span, Ghost(c));
            proof {
                lemma_told_chain(self.errors@, e1, e0, told, group_view(c, of@, g, ty_span).1);
            }
            match row {
                Some(v) => {
                    let ghost b = group_view(c, of@, g, ty_span).0->0;
                    rows.push(v);
                    proof {
                        assert forall|i: int| 0 <= i < built.push(b).len() implies built_as(#[trigger] rows@[i], built.push(b)[i]) by {
                            if i < built.len() {
                                assert(rows@[i] == rows@.drop_last()[i]);
                            }
                        }
                        built = built.push(b);
                        told = told + group_view(c, of@, g, ty_span).1;
                    }
                },
                None => {
                    proof {
                        lemma_groups_stay(c, of@, all, done, ty_span);
                        assert(all.take(all.len() as int) =~= all);
                    }
                    return None;
                },
            }
        }
        proof {
            assert(all.take(done) =~= all);
        }
        Some(rows)
    }

    /// One row of an array of arrays, built from its group of flat elements.
    fn array_group(&mut self, of: &Ty, group: Vec<(Term, Reading)>, ty_span: Span, Ghost(c): Ghost<Checker<'a>>) -> (r: Option<Value>)
        requires
            c.same_tables(&*old(self)),
            c.tables_ok(),
            of@ is Arr,
            count_of(of@) >= 1,
            count_fits(of@),
            group@.len() == count_of(of@),
            forall|i: int| 0 <= i < group@.len() ==> element_fits(c, leaf(of@), #[trigger] group@[i]),
        ensures
            old(self).same_tables(&*final(self)),
            final(self).body == old(self).body,
            final(self).hole == old(self).hole,
            built_or(r, group_view(c, of@, group@, ty_span).0),
            told_after(final(self).errors@, old(self).errors@, group_view(c, of@, group@, ty_span).1),
        decreases of@, 0int,
    {
        let ghost g = group@;
        if let Ty::Arr { of: inner, shape, .. } = of {
            if group.len() == 1 {
                match &group[0].0 {
                    Term::Piece(_) => {},
                    other => {
                        let at = span_of_term(other);
                        let d = Diagnostic::new("E0430", "an array is written between brackets.")
                            .primary(at, "here")
                            .rule("the elements go in a list of their own, inside the value")
                            .fix("`[[*1* *2* *3*]]`");
                        proof {
                            let want = unbracketed(at);
                            assert(d@.labels =~= want.labels);
                            assert(d@.rules =~= want.rules);
                            assert(d@.tips =~= want.tips);
                            assert(d@.fixes =~= want.fixes);
                            assert(group_view(c, of@, g, ty_span).1 =~= seq![Some(d@)]);
                        }
                        self.told_one(d);
                        return None;
                    },
                }
            }
            let inner: &Ty = inner;
            proof {
                let ci = count_of(inner@) as int;
                let p = product(shape@) as int;
                assert(count_of(of@) == p * ci);
                assert(ci >= 1) by (nonlinear_arith)
                    requires
                        p * ci >= 1,
                        p >= 0,
                        ci >= 0,
                ;
                vstd::arithmetic::div_mod::lemma_mod_multiples_basic(p, ci);
                assert(leaf(of@) == leaf(inner@));
            }
            return self.rows_built(inner, group, ty_span, Ghost(c));
        }
        None
    }

    /// The elements written for an array of `of` shaped `shape`, flat between its
    /// brackets: counted against what the type takes, and, where they fit, built into
    /// the array, each row of an array of arrays built the same way. An array with
    /// something growing under it is written empty and starts as empty rows.
    pub fn array(
        &mut self,
        of: &Ty,
        shape: &Vec<usize>,
        length: Length,
        written: Vec<(Term, Reading)>,
        value: Span,
        between: Span,
        ty_span: Span,
    ) -> (r: Option<Value>)
        requires
            old(self).tables_ok(),
            shape_fits(of@, shape@),
            count_of(of@) >= 1,
            product(shape@) >= 1,
            forall|i: int| 0 <= i < written@.len() ==> element_fits(*old(self), leaf(of@), #[trigger] written@[i]),
        ensures
            old(self).same_tables(&*final(self)),
            final(self).body == old(self).body,
            final(self).hole == old(self).hole,
            match fits_view(of@, shape@, length, written@.len() as nat, value, between, ty_span).0 {
                Fits::Refused => {
                    &&& r is None
                    &&& said(final(self).errors@) == said(old(self).errors@) + fits_view(
                        of@,
                        shape@,
                        length,
                        written@.len() as nat,
                        value,
                        between,
                        ty_span,
                    ).1
                },
                Fits::EmptyRows(n) => {
                    &&& r matches Some(Value::Array { of: o, elements }) && o@ == of@ && elements@.len() == n && forall|i: int|
                        0 <= i < n ==> (#[trigger] elements@[i] matches Value::Array { of: u, elements: e } && u@ == *(of@->of)
                            && e@.len() == 0)
                    &&& said(final(self).errors@) == said(old(self).errors@)
                },
                Fits::Counted => {
                    &&& built_or(r, rows_view(*old(self), of@, written@, ty_span).0)
                    &&& told_after(final(self).errors@, old(self).errors@, rows_view(*old(self), of@, written@, ty_span).1)
                    &&& r matches Some(Value::Array { elements, .. }) ==> elements@.len() * count_of(of@) == written@.len()
                    &&& length == Length::Said ==> (r matches Some(Value::Array { elements, .. }) ==> elements@.len()
                        == product(shape@))
                },
            },
    {
        let ghost e0 = self.errors@;
        let ghost c0: Checker<'a> = *self;
        let ghost ws = written@;
        let fits = self.elements_fit(of, shape, length, written.len(), value, between, ty_span);
        match fits {
            Fits::Refused => None,
            Fits::EmptyRows(n) => {
                let under: &Ty = match of {
                    Ty::Arr { of: u, .. } => u,
                    _ => of,
                };
                let mut rows: Vec<Value> = Vec::new();
                let mut k: usize = 0;
                while k < n
                    invariant
                        k <= n,
                        rows@.len() == k,
                        forall|i: int| 0 <= i < k ==> (#[trigger] rows@[i] matches Value::Array { of: u, elements: e } && u@
                            == under@ && e@.len() == 0),
                    decreases n - k,
                {
                    rows.push(Value::Array { of: Box::new(under.clone()), elements: Vec::new() });
                    k = k + 1;
                }
                Some(Value::Array { of: Box::new(of.clone()), elements: rows })
            },
            Fits::Counted => {
                let ghost all = count_of(of@) as int * product(shape@) as int;
                proof {
                    lemma_said_told(self.errors@, e0, Seq::empty());
                    assert(somes(Seq::<DiagnosticView>::empty()) =~= Seq::<Option<DiagnosticView>>::empty());
                    let cnt = count_of(of@) as int;
                    let p = product(shape@) as int;
                    if length == Length::Said {
                        assert(ws.len() == cnt * p);
                        assert(cnt * p == p * cnt) by (nonlinear_arith);
                        vstd::arithmetic::div_mod::lemma_mod_multiples_basic(p, cnt);
                    } else {
                        vstd::arithmetic::div_mod::lemma_fundamental_div_mod(ws.len() as int, cnt * p);
                        let q = ws.len() as int / (cnt * p);
                        assert(ws.len() == (q * p) * cnt) by (nonlinear_arith)
                            requires
                                ws.len() == (cnt * p) * q + (ws.len() as int) % (cnt * p),
                                (ws.len() as int) % (cnt * p) == 0,
                        ;
                        vstd::arithmetic::div_mod::lemma_mod_multiples_basic(q * p, cnt);
                    }
                    assert forall|i: int| 0 <= i < ws.len() implies element_fits(*self, leaf(of@), #[trigger] ws[i]) by {
                        assert(element_fits(c0, leaf(of@), ws[i]));
                        lemma_term_same(c0, *self, ws[i].0, leaf(of@), ws[i].1);
                    }
                    assert(shape_fits(of@, shape@));
                }
                let ghost e1 = self.errors@;
                let ghost c1: Checker<'a> = *self;
                let r = self.array_rows(of, written, ty_span);
                proof {
                    lemma_rows_same(c0, c1, of@, ws, ty_span);
                    lemma_told_chain(self.errors@, e1, e0, Seq::empty(), rows_view(c0, of@, ws, ty_span).1);
                    assert(Seq::<Option<DiagnosticView>>::empty() + rows_view(c0, of@, ws, ty_span).1 =~= rows_view(c0, of@, ws, ty_span).1);
                    if length == Length::Said {
                        if r is Some && r->0 is Array {
                            let elements = r->0->elements;
                            let cnt = count_of(of@) as int;
                            let p = product(shape@) as int;
                            assert(elements@.len() * cnt == cnt * p);
                            assert(elements@.len() == p) by (nonlinear_arith)
                                requires
                                    elements@.len() * cnt == cnt * p,
                                    cnt >= 1,
                            ;
                        }
                    }
                }
                r
            },
        }
    }

    /// Report one complaint, told as itself.
    fn told_one(&mut self, d: Diagnostic)
        ensures
            old(self).same_tables(&*final(self)),
            final(self).body == old(self).body,
            final(self).hole == old(self).hole,
            told_after(final(self).errors@, old(self).errors@, seq![Some(d@)]),
    {
        let ghost e0 = self.errors@;
        self.push_one(d);
        proof {
            lemma_said_told(self.errors@, e0, seq![d@]);
            assert(seq![d@].map_values(|x: DiagnosticView| Some(x)) =~= seq![Some(d@)]);
        }
    }

    /// A written value a binary float type reads, from what reading it made.
    fn float_value(&mut self, w: String, t: &Ty, at: Span, read: Reading) -> (r: Option<Value>)
        requires
            t@ is F64 || t@ is F32 || t@ is F16,
        ensures
            old(self).same_tables(&*final(self)),
            final(self).body == old(self).body,
            final(self).hole == old(self).hole,
            made_or(r, float_view(w@, t@, at, read).0),
            told_after(final(self).errors@, old(self).errors@, float_view(w@, t@, at, read).1),
    {
        if let Reading::Float(Some(bits)) = read {
            let width: u8 = match t {
                Ty::F16 => 16,
                Ty::F32 => 32,
                _ => 64,
            };
            proof {
                lemma_told_none(self.errors@);
            }
            return Some(Value::Float { bits, width });
        }
        let name = t.name();
        let mut message = String::from_str("`");
        message.append(w.as_str());
        message.append("` is not a `");
        message.append(name.as_str());
        message.append("`.");
        let d = Diagnostic::new("E0486", message.as_str())
            .primary(at, "here")
            .rule("a binary float is written as a number with or without a point: `*1.5*`, `*-0.25*`, `*3*`")
            .tip("`infinity` and `not-a-number` are answers a program can reach, and not things it can write.")
            .fix("write a number");
        proof {
            let want = float_view(w@, t@, at, read).1[0]->0;
            assert(message@ =~= want.message);
            assert(d@.labels =~= want.labels);
            assert(d@.rules =~= want.rules);
            assert(d@.tips =~= want.tips);
            assert(d@.fixes =~= want.fixes);
            assert(float_view(w@, t@, at, read).1 =~= seq![Some(d@)]);
        }
        self.told_one(d);
        None
    }

    /// A written value a decimal type reads, from what reading it made.
    fn decimal_value(&mut self, w: String, digits: u32, at: Span, read: Reading) -> (r: Option<Value>)
        ensures
            old(self).same_tables(&*final(self)),
            final(self).body == old(self).body,
            final(self).hole == old(self).hole,
            made_or(r, decimal_view(w@, digits, at, read).0),
            told_after(final(self).errors@, old(self).errors@, decimal_view(w@, digits, at, read).1),
    {
        if let Reading::Decimal(true) = read {
            proof {
                lemma_told_none(self.errors@);
            }
            return Some(Value::Decimal { written: w, digits });
        }
        let mut message = String::from_str("`");
        message.append(w.as_str());
        message.append("` is not a `");
        message.append(if digits == 7 { "d32" } else { "d64" });
        message.append("`.");
        let d = Diagnostic::new("E0489", message.as_str())
            .primary(at, "here")
            .rule("a decimal float is written as a number with or without a point: `*1.5*`, `*-0.25*`, `*3*`")
            .tip("a ratio is not one of them — `*1/3*` is an `e`, and a third is what a decimal cannot hold.")
            .fix("write a number");
        proof {
            let want = decimal_view(w@, digits, at, read).1[0]->0;
            assert(message@ =~= want.message);
            assert(d@.labels =~= want.labels);
            assert(d@.rules =~= want.rules);
            assert(d@.tips =~= want.tips);
            assert(d@.fixes =~= want.fixes);
            assert(decimal_view(w@, digits, at, read).1 =~= seq![Some(d@)]);
        }
        self.told_one(d);
        None
    }

    /// A written value `e` reads, from what reading it made.
    fn exact_value(&mut self, w: String, at: Span, read: Reading) -> (r: Option<Value>)
        ensures
            old(self).same_tables(&*final(self)),
            final(self).body == old(self).body,
            final(self).hole == old(self).hole,
            made_or(r, exact_view(w@, at, read).0),
            told_after(final(self).errors@, old(self).errors@, exact_view(w@, at, read).1),
    {
        if let Reading::Exact(true) = read {
            proof {
                lemma_told_none(self.errors@);
            }
            return Some(Value::Exact(w));
        }
        let message = around("`", w.as_str(), "` is not an exact number.");
        let d = Diagnostic::new("E0474", message.as_str())
            .primary(at, "here")
            .rule("an `e` is written `*12*`, `*-3/4*` or `*0.1*`, and all three are exact")
            .fix("write a whole number, a ratio, or a decimal");
        proof {
            let want = exact_view(w@, at, read).1[0]->0;
            assert(d@.labels =~= want.labels);
            assert(d@.rules =~= want.rules);
            assert(d@.tips =~= want.tips);
            assert(d@.fixes =~= want.fixes);
            assert(exact_view(w@, at, read).1 =~= seq![Some(d@)]);
        }
        self.told_one(d);
        None
    }

    /// A written value in a sum no number type reads: an `i64`, or `*true*` or `*false*`.
    fn plain_value(&mut self, w: String, at: Span) -> (r: Option<Value>)
        ensures
            old(self).same_tables(&*final(self)),
            final(self).body == old(self).body,
            final(self).hole == old(self).hole,
            made_or(r, plain_view(w@, at).0),
            told_after(final(self).errors@, old(self).errors@, plain_view(w@, at).1),
    {
        proof {
            lemma_told_none(self.errors@);
        }
        if let Some(n) = i64_read(w.as_str()) {
            return Some(Value::Number { value: n, bits: 64, signed: true });
        }
        if same_str(w.as_str(), "true") {
            proof {
                reveal_strlit("true");
            }
            return Some(Value::Bool(true));
        }
        if same_str(w.as_str(), "false") {
            proof {
                reveal_strlit("true");
                reveal_strlit("false");
            }
            return Some(Value::Bool(false));
        }
        let message = around("`", w.as_str(), "` is not a whole number.");
        let d = Diagnostic::new("E0407", message.as_str())
            .primary(at, "here")
            .rule("a written value in a sum is read as a number")
            .tip("`e:*0.1*` and `b64:*0.1*` are how a value says its own type where the chain does not.")
            .fix("write a whole number, or say `e:` or `b64:` in front of it");
        proof {
            reveal_strlit("true");
            reveal_strlit("false");
            let want = plain_view(w@, at).1[0]->0;
            assert(d@.labels =~= want.labels);
            assert(d@.rules =~= want.rules);
            assert(d@.tips =~= want.tips);
            assert(d@.fixes =~= want.fixes);
            assert(plain_view(w@, at).1 =~= seq![Some(d@)]);
        }
        self.told_one(d);
        None
    }

    /// Written digits read at a whole-number type, told rather than said.
    fn whole_value(&mut self, w: &str, bits: u8, signed: bool, at: Span, read: Whole) -> (r: Option<Value>)
        ensures
            old(self).same_tables(&*final(self)),
            final(self).body == old(self).body,
            final(self).hole == old(self).hole,
            made_or(r, whole_made(w@, bits, signed, at, read).0),
            told_after(final(self).errors@, old(self).errors@, whole_made(w@, bits, signed, at, read).1),
    {
        let ghost e0 = self.errors@;
        let r = self.a_whole_number(w, bits, signed, at, read);
        proof {
            lemma_said_told(self.errors@, e0, whole_view(w@, bits, signed, at, read).1);
        }
        r
    }

    /// A written value in a term: read by the type written in front of it, or else by
    /// `reading`, from what the number readings made of it.
    fn written_value(&mut self, ty: Option<Span>, mark: Span, reading: &Ty, read: Reading) -> (r: Option<Value>)
        requires
            reads_as_name(old(self).source, mark),
            match ty {
                Some(t) => cuts(old(self).source, t) && reads_fit(simple_view(text_at(old(self).source, t)), read),
                None => reads_fit(Some(reading@), read),
            },
        ensures
            old(self).same_tables(&*final(self)),
            final(self).body == old(self).body,
            final(self).hole == old(self).hole,
            made_or(r, written_view(old(self).source, ty, mark, reading@, read).0),
            told_after(final(self).errors@, old(self).errors@, written_view(old(self).source, ty, mark, reading@, read).1),
    {
        let w = self.named(mark);
        proof {
            lemma_told_none(self.errors@);
        }
        match ty {
            None => match reading {
                Ty::Hole(h) => {
                    let mut rule = String::from_str("`");
                    rule.append(h.word());
                    rule.append("` is filled by what the argument holds, and a written value holds nothing until a type reads it");
                    let fix = around("`str:", self.text(mark), "`, or whichever type was meant");
                    let d = Diagnostic::new("E0509", "this written value is what says which type the hole is, so it has to say.")
                        .primary(mark, "no type in front of it")
                        .rule(rule.as_str())
                        .tip("naming a variable says it instead, because a variable was declared with a type.")
                        .fix(fix.as_str());
                    proof {
                        let want = written_view(old(self).source, ty, mark, reading@, read).1[0]->0;
                        assert(rule@ =~= want.rules[0]);
                        assert(d@.labels =~= want.labels);
                        assert(d@.rules =~= want.rules);
                        assert(d@.tips =~= want.tips);
                        assert(d@.fixes =~= want.fixes);
                        assert(written_view(old(self).source, ty, mark, reading@, read).1 =~= seq![Some(d@)]);
                    }
                    self.told_one(d);
                    None
                },
                Ty::F64 | Ty::F32 | Ty::F16 => self.float_value(w, reading, mark, read),
                Ty::Decimal { digits } => self.decimal_value(w, *digits, mark, read),
                Ty::Exact => self.exact_value(w, mark, read),
                Ty::Int { bits, signed } => match read {
                    Reading::Whole(Whole::Read(n)) => Some(Value::Number { value: n, bits: *bits, signed: *signed }),
                    Reading::Whole(wh) => {
                        if i64_read(w.as_str()).is_some() || u64_reads(w.as_str()) {
                            self.whole_value(w.as_str(), *bits, *signed, mark, wh)
                        } else {
                            self.plain_value(w, mark)
                        }
                    },
                    _ => self.plain_value(w, mark),
                },
                _ => self.plain_value(w, mark),
            },
            Some(t) => {
                let word = self.text(t);
                match Ty::simple(word) {
                    Some(Ty::Exact) => self.exact_value(w, mark, read),
                    Some(Ty::Int { bits, signed }) => match read {
                        Reading::Whole(wh) => self.whole_value(w.as_str(), bits, signed, mark, wh),
                        _ => None,
                    },
                    Some(Ty::F64) => self.float_value(w, &Ty::F64, mark, read),
                    Some(Ty::F32) => self.float_value(w, &Ty::F32, mark, read),
                    Some(Ty::F16) => self.float_value(w, &Ty::F16, mark, read),
                    Some(Ty::Decimal { digits }) => self.decimal_value(w, digits, mark, read),
                    Some(Ty::Str) => Some(Value::Text(w)),
                    Some(Ty::Bool) => {
                        if same_str(w.as_str(), "true") {
                            proof {
                                reveal_strlit("true");
                            }
                            return Some(Value::Bool(true));
                        }
                        if same_str(w.as_str(), "false") {
                            proof {
                                reveal_strlit("true");
                                reveal_strlit("false");
                            }
                            return Some(Value::Bool(false));
                        }
                        let message = around("`", w.as_str(), "` is not true or false.");
                        let d = Diagnostic::new("E0416", message.as_str())
                            .primary(mark, "here")
                            .rule("a `bool` is written `*true*` or `*false*`, and nothing is truthy")
                            .fix("`*true*` or `*false*`");
                        proof {
                            reveal_strlit("true");
                            reveal_strlit("false");
                            let want = written_view(old(self).source, ty, mark, reading@, read).1[0]->0;
                            assert(d@.labels =~= want.labels);
                            assert(d@.rules =~= want.rules);
                            assert(d@.tips =~= want.tips);
                            assert(d@.fixes =~= want.fixes);
                            assert(written_view(old(self).source, ty, mark, reading@, read).1 =~= seq![Some(d@)]);
                        }
                        self.told_one(d);
                        None
                    },
                    _ => {
                        let message = around("`", word, "` has nothing to do in a sum.");
                        let d = Diagnostic::new("E0409", message.as_str())
                            .primary(t, "said here")
                            .rule("a value in a sum says one of the types that are built, and the chain says the rest")
                            .tip("this is for where the chain cannot say -- two things compared under a `bool` chain, most often.")
                            .fix("`e:`, `i64:`, `str:` or `bool:`, or nothing at all");
                        proof {
                            let want = written_view(old(self).source, ty, mark, reading@, read).1[0]->0;
                            assert(d@.labels =~= want.labels);
                            assert(d@.rules =~= want.rules);
                            assert(d@.tips =~= want.tips);
                            assert(d@.fixes =~= want.fixes);
                            assert(written_view(old(self).source, ty, mark, reading@, read).1 =~= seq![Some(d@)]);
                        }
                        self.told_one(d);
                        None
                    },
                }
            },
        }
    }

    /// Every size of a shape multiplied together.
    fn rows_of(&self, shape: &Vec<usize>) -> (n: usize)
        requires
            forall|k: int| 0 <= k <= shape@.len() ==> #[trigger] product(shape@.take(k)) <= usize::MAX,
        ensures
            n == product(shape@),
    {
        let mut p: usize = 1;
        let mut i: usize = 0;
        proof {
            assert(shape@.take(0) =~= Seq::<usize>::empty());
        }
        while i < shape.len()
            invariant
                i <= shape@.len(),
                p == product(shape@.take(i as int)),
                forall|k: int| 0 <= k <= shape@.len() ==> #[trigger] product(shape@.take(k)) <= usize::MAX,
            decreases shape@.len() - i,
        {
            proof {
                assert(shape@.take(i + 1).drop_last() =~= shape@.take(i as int));
                assert(product(shape@.take(i + 1)) <= usize::MAX);
            }
            p = p * shape[i];
            i = i + 1;
        }
        proof {
            assert(shape@.take(shape@.len() as int) =~= shape@);
        }
        p
    }

    /// Report one complaint, made whole already.
    fn push_one(&mut self, d: Diagnostic)
        ensures
            old(self).same_tables(&*final(self)),
            final(self).body == old(self).body,
            final(self).hole == old(self).hole,
            said(final(self).errors@) == said(old(self).errors@) + seq![d@],
    {
        self.errors.push(d);
        proof {
            assert(said(self.errors@) =~= said(old(self).errors@) + seq![d@]);
        }
    }

    /// E0411 for something that is not text among the pieces of text.
    fn not_text_here(&mut self, found: &Ty, at: Span, ty_span: Span)
        ensures
            old(self).same_tables(&*final(self)),
            final(self).body == old(self).body,
            final(self).hole == old(self).hole,
            said(final(self).errors@) == said(old(self).errors@).push(not_text(found@, at, ty_span)),
    {
        let name = found.name();
        let mut message = String::from_str("this is ");
        message.append(found.article());
        message.append(" `");
        message.append(name.as_str());
        message.append("`, and text is made of text.");
        let mut note = String::from_str(found.article());
        note.append(" `");
        note.append(name.as_str());
        note.append("`");
        let d = Diagnostic::new("E0411", message.as_str())
            .primary(at, note.as_str())
            .secondary(ty_span, "declared `str` here")
            .rule("pieces side by side join, and nothing converts on its own")
            .tip("a `print` shows any type because showing is not joining -- it writes one piece after another and builds nothing.")
            .fix("declare it `str`, or print the pieces separately");
        self.errors.push(d);
        proof {
            assert(message@ =~= "this is "@ + article_of(found@) + " `"@ + name_of(found@) + "`, and text is made of text."@);
            assert(note@ =~= article_of(found@) + " `"@ + name_of(found@) + "`"@);
            assert(d@.labels =~= not_text(found@, at, ty_span).labels);
            assert(d@.rules =~= not_text(found@, at, ty_span).rules);
            assert(d@.tips =~= not_text(found@, at, ty_span).tips);
            assert(d@.fixes =~= not_text(found@, at, ty_span).fixes);
            assert(said(self.errors@) =~= said(old(self).errors@).push(d@));
        }
    }
}

} // verus!
