//! Turning diagnostics into the message a person reads.
//!
//! Each one is laid out the same way: what is wrong, where (the `file:line:column` an
//! editor understands, then the line and the column a reader counts), the line itself
//! with a caret under each place it points at, the rules, tips and fixes, and the code.

use vstd::prelude::*;
use vstd::utf8::*;
use crate::diag::{first_primary, Diagnostic, DiagnosticView, Label, LabelStyle};
use crate::source::{SourceFile, Span};
use crate::text::{decimal, push_char, push_decimal};

verus! {

broadcast use vstd::utf8::group_utf8_lib, vstd::string::group_string_axioms;

/// `n` copies of `c`.
pub open spec fn repeated(c: char, n: int) -> Seq<char> {
    Seq::new(if n >= 0 { n as nat } else { 0 }, |i: int| c)
}

/// Whether a caret can be laid under `span`: the text is here and both ends of the span,
/// held to the end of it, fall between characters.
pub open spec fn can_point(file: &SourceFile, span: Span) -> bool {
    let n = file.bytes().len();
    let start = if span.start <= n { span.start as int } else { n as int };
    let end = if span.end <= n { span.end as int } else { n as int };
    &&& file.kept()
    &&& is_char_boundary(file.bytes(), start)
    &&& is_char_boundary(file.bytes(), end)
}

/// The mark a caret is drawn with: `^` under the error, `~` under what explains it.
pub open spec fn mark(style: LabelStyle) -> char {
    match style {
        LabelStyle::Primary => '^',
        LabelStyle::Secondary => '~',
    }
}

/// One label: the line it points into with a caret under the place, and its note.
pub open spec fn label_text(file: &SourceFile, label: (Span, Seq<char>, LabelStyle)) -> Seq<char> {
    let (span, note, style) = label;
    if can_point(file, span) {
        let line = crate::source::line_at(file.starts(), span.start as int);
        let (indent, under) = file.caret_at(span);
        "   | "@ + file.line_chars(line) + "\n"@ + "   | "@ + repeated(' ', indent) + repeated(
            mark(style),
            under,
        ) + " "@ + note + "\n"@
    } else {
        "   = "@ + note + "\n"@
    }
}

/// Every label, one after another.
pub open spec fn labels_text(file: &SourceFile, labels: Seq<(Span, Seq<char>, LabelStyle)>) -> Seq<char>
    decreases labels.len(),
{
    if labels.len() == 0 {
        Seq::empty()
    } else {
        labels_text(file, labels.drop_last()) + label_text(file, labels.last())
    }
}

/// One line per item, each after `prefix`.
pub open spec fn listed(prefix: Seq<char>, items: Seq<Seq<char>>) -> Seq<char>
    decreases items.len(),
{
    if items.len() == 0 {
        Seq::empty()
    } else {
        listed(prefix, items.drop_last()) + prefix + items.last() + "\n"@
    }
}

/// The label a diagnostic is about: the first primary one, or the first.
pub open spec fn headline(labels: Seq<(Span, Seq<char>, LabelStyle)>) -> (Span, Seq<char>, LabelStyle) {
    let i = first_primary_view(labels);
    if i < labels.len() {
        labels[i]
    } else {
        labels[0]
    }
}

/// Where the first primary label is among `labels`, or their number when there is none.
pub open spec fn first_primary_view(labels: Seq<(Span, Seq<char>, LabelStyle)>) -> int
    decreases labels.len(),
{
    if labels.len() == 0 {
        0
    } else if labels[0].2 == LabelStyle::Primary {
        0
    } else {
        1 + first_primary_view(labels.drop_first())
    }
}

/// Where a diagnostic is, said both ways, when it points anywhere.
pub open spec fn location_text(file: &SourceFile, labels: Seq<(Span, Seq<char>, LabelStyle)>) -> Seq<char> {
    if labels.len() == 0 {
        Seq::empty()
    } else {
        let at = headline(labels).0.start as int;
        if at < usize::MAX || file.size() < usize::MAX {
            let (line, column, byte_column) = file.position_at(at);
            "  --> "@ + file.path_view() + ":"@ + decimal(line as nat) + ":"@ + decimal(
                byte_column as nat,
            ) + "\n"@ + "  line: "@ + decimal(line as nat) + ", column: "@ + decimal(
                column as nat,
            ) + "\n"@
        } else {
            Seq::empty()
        }
    }
}

/// One diagnostic, laid out.
pub open spec fn diagnostic_text(file: &SourceFile, d: DiagnosticView) -> Seq<char> {
    "error: "@ + d.message + "\n"@ + location_text(file, d.labels) + labels_text(file, d.labels)
        + listed("  = rule: "@, d.rules) + listed("  = tip: "@, d.tips) + listed(
        "  = fix: "@,
        d.fixes,
    ) + "  Error code: "@ + d.code + "\n"@
}

/// Every diagnostic, laid out, with a blank line after each.
pub open spec fn report_text(file: &SourceFile, ds: Seq<DiagnosticView>) -> Seq<char>
    decreases ds.len(),
{
    if ds.len() == 0 {
        Seq::empty()
    } else {
        report_text(file, ds.drop_last()) + diagnostic_text(file, ds.last()) + "\n"@
    }
}

fn push_repeated(s: &mut String, c: char, n: usize)
    ensures
        final(s)@ == old(s)@ + repeated(c, n as int),
{
    let mut k: usize = 0;
    while k < n
        invariant
            k <= n,
            s@ == old(s)@ + repeated(c, k as int),
        decreases n - k,
    {
        push_char(s, c);
        assert(old(s)@ + repeated(c, k + 1) =~= (old(s)@ + repeated(c, k as int)).push(c));
        k = k + 1;
    }
}

#[verifier::rlimit(30)]
fn push_label(s: &mut String, file: &SourceFile, label: &Label)
    ensures
        final(s)@ == old(s)@ + label_text(file, (label.span, label.note@, label.style)),
{
    let text = file.text();
    let n = text.as_bytes().len();
    let start = if label.span.start <= n {
        label.span.start
    } else {
        n
    };
    let end = if label.span.end <= n {
        label.span.end
    } else {
        n
    };
    if file.has_text() && text.is_char_boundary(start) && text.is_char_boundary(end) {
        let line = file.line_of(label.span.start);
        let (indent, under) = file.caret_layout(label.span);
        s.append("   | ");
        assert(file.kept());
        let shown = file.line_text(line);
        s.append(shown);
        s.append("\n");
        s.append("   | ");
        push_repeated(s, ' ', indent);
        let mark = match label.style {
            LabelStyle::Primary => '^',
            LabelStyle::Secondary => '~',
        };
        push_repeated(s, mark, under);
        s.append(" ");
        s.append(label.note.as_str());
        s.append("\n");
        proof {
            reveal_strlit("\n");
        }
    } else {
        s.append("   = ");
        s.append(label.note.as_str());
        s.append("\n");
    }
}

fn push_listed(s: &mut String, prefix: &str, items: &Vec<String>)
    ensures
        final(s)@ == old(s)@ + listed(prefix@, crate::diag::texts(items@)),
{
    let ghost all = crate::diag::texts(items@);
    let mut i: usize = 0;
    assert(all.take(0) =~= Seq::<Seq<char>>::empty());
    while i < items.len()
        invariant
            i <= items.len(),
            all == crate::diag::texts(items@),
            s@ == old(s)@ + listed(prefix@, all.take(i as int)),
        decreases items.len() - i,
    {
        assert(all.take(i + 1).drop_last() =~= all.take(i as int));
        s.append(prefix);
        s.append(items[i].as_str());
        s.append("\n");
        i = i + 1;
    }
    assert(all.take(items.len() as int) =~= all);
}

proof fn lemma_first_primary_view(labels: Seq<Label>)
    ensures
        first_primary_view(crate::diag::label_views(labels)) == first_primary(labels),
    decreases labels.len(),
{
    if labels.len() > 0 {
        assert(crate::diag::label_views(labels).drop_first() =~= crate::diag::label_views(
            labels.drop_first(),
        ));
        lemma_first_primary_view(labels.drop_first());
    }
}

fn push_location(s: &mut String, file: &SourceFile, d: &Diagnostic)
    ensures
        final(s)@ == old(s)@ + location_text(file, d@.labels),
{
    proof {
        lemma_first_primary_view(d.labels@);
    }
    match d.primary_label() {
        None => {
            assert(s@ =~= s@ + location_text(file, d@.labels));
        },
        Some(label) => {
            let at = label.span.start;
            proof {
                crate::diag::lemma_first_primary_bounds(d.labels@);
                let i = first_primary(d.labels@);
                let views = crate::diag::label_views(d.labels@);
                assert(d@.labels == views);
                assert(views.len() == d.labels@.len());
                if i < d.labels@.len() {
                    assert(views[i] == (d.labels@[i].span, d.labels@[i].note@, d.labels@[i].style));
                } else {
                    assert(views[0] == (d.labels@[0].span, d.labels@[0].note@, d.labels@[0].style));
                }
            }
            assert(headline(d@.labels).0 == label.span);
            assert(d@.labels.len() > 0);
            if at < usize::MAX || file.len() < usize::MAX {
                let p = file.position(at);
                s.append("  --> ");
                s.append(file.path());
                s.append(":");
                push_decimal(s, p.line as u64);
                s.append(":");
                push_decimal(s, p.byte_column as u64);
                s.append("\n");
                s.append("  line: ");
                push_decimal(s, p.line as u64);
                s.append(", column: ");
                push_decimal(s, p.column as u64);
                s.append("\n");
            } else {
                assert(s@ =~= s@ + location_text(file, d@.labels));
            }
        },
    }
}

fn push_labels(s: &mut String, file: &SourceFile, labels: &Vec<Label>)
    ensures
        final(s)@ == old(s)@ + labels_text(file, crate::diag::label_views(labels@)),
{
    let ghost all = crate::diag::label_views(labels@);
    let mut i: usize = 0;
    assert(all.take(0) =~= Seq::<(Span, Seq<char>, LabelStyle)>::empty());
    while i < labels.len()
        invariant
            i <= labels.len(),
            all == crate::diag::label_views(labels@),
            s@ == old(s)@ + labels_text(file, all.take(i as int)),
        decreases labels.len() - i,
    {
        assert(all.take(i + 1).drop_last() =~= all.take(i as int));
        push_label(s, file, &labels[i]);
        i = i + 1;
    }
    assert(all.take(labels.len() as int) =~= all);
}

/// Every diagnostic about one file, laid out for a person to read.
pub fn report(file: &SourceFile, errors: &[Diagnostic]) -> (out: String)
    ensures
        out@ == report_text(file, errors@.map_values(|d: Diagnostic| d@)),
{
    let ghost all = errors@.map_values(|d: Diagnostic| d@);
    let mut out = String::new();
    let mut i: usize = 0;
    assert(all.take(0) =~= Seq::<DiagnosticView>::empty());
    while i < errors.len()
        invariant
            i <= errors@.len(),
            all == errors@.map_values(|d: Diagnostic| d@),
            out@ == report_text(file, all.take(i as int)),
        decreases errors.len() - i,
    {
        let d = &errors[i];
        assert(all.take(i + 1).drop_last() =~= all.take(i as int));
        assert(all.take(i + 1).last() == d@);
        out.append("error: ");
        out.append(d.message.as_str());
        out.append("\n");
        push_location(&mut out, file, d);
        push_labels(&mut out, file, &d.labels);
        push_listed(&mut out, "  = rule: ", &d.rules);
        push_listed(&mut out, "  = tip: ", &d.tips);
        push_listed(&mut out, "  = fix: ", &d.fixes);
        out.append("  Error code: ");
        out.append(d.code.as_str());
        out.append("\n");
        out.append("\n");
        i = i + 1;
    }
    assert(all.take(errors.len() as int) =~= all);
    out
}

} // verus!
