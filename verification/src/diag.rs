//! What a Quench error knows about itself.
//!
//! Everything here is data. Turning it into the message a person reads is
//! [`crate::render`]'s job, so that no part of the compiler has to know how an error is
//! laid out in order to report one.

use vstd::prelude::*;
use crate::source::Span;

verus! {

/// Whether a label is the thing that went wrong, or context for it.
#[derive(Clone, Copy, PartialEq, Eq, Debug, Structural)]
pub enum LabelStyle {
    /// The error itself. Underlined with `^`, and its position is the one reported at the
    /// top of the message.
    Primary,
    /// Something that explains it: a declaration, an earlier use. Underlined with `~`.
    Secondary,
}

/// One place in the source that an error wants to point at, and why.
#[derive(Clone, Debug)]
pub struct Label {
    pub span: Span,
    /// What is true about this spot. Shown beside the carets.
    pub note: String,
    pub style: LabelStyle,
}

impl Label {
    pub fn primary(span: Span, note: &str) -> (l: Label)
        ensures
            l.span == span,
            l.note@ == note@,
            l.style == LabelStyle::Primary,
    {
        Label { span, note: String::from_str(note), style: LabelStyle::Primary }
    }

    pub fn secondary(span: Span, note: &str) -> (l: Label)
        ensures
            l.span == span,
            l.note@ == note@,
            l.style == LabelStyle::Secondary,
    {
        Label { span, note: String::from_str(note), style: LabelStyle::Secondary }
    }
}

/// The characters of every string in a list.
pub open spec fn texts(v: Seq<String>) -> Seq<Seq<char>> {
    v.map_values(|s: String| s@)
}

/// Where the first primary label is among `labels`, or their number when there is none.
pub open spec fn first_primary(labels: Seq<Label>) -> int
    decreases labels.len(),
{
    if labels.len() == 0 {
        0
    } else if labels[0].style == LabelStyle::Primary {
        0
    } else {
        1 + first_primary(labels.drop_first())
    }
}

/// What a diagnostic says, as plain values.
pub struct DiagnosticView {
    pub code: Seq<char>,
    pub message: Seq<char>,
    pub rules: Seq<Seq<char>>,
    pub tips: Seq<Seq<char>>,
    pub fixes: Seq<Seq<char>>,
    pub labels: Seq<(Span, Seq<char>, LabelStyle)>,
}

/// What each label says, as plain values.
pub open spec fn label_views(labels: Seq<Label>) -> Seq<(Span, Seq<char>, LabelStyle)> {
    labels.map_values(|l: Label| (l.span, l.note@, l.style))
}

/// One thing wrong with a program.
///
/// A diagnostic is meant to carry a rule and at least one primary label. The rule is what
/// separates a Quench error from an apology: the message says what went wrong here, and
/// the rule says what is true everywhere.
#[derive(Clone, Debug)]
pub struct Diagnostic {
    /// The stable code, `E0104` and so on, for looking a thing up.
    pub code: String,
    /// One sentence saying what is wrong.
    pub message: String,
    /// The rule or rules broken. What is true everywhere, not just here.
    pub rules: Vec<String>,
    /// Things worth knowing that are not the fix.
    pub tips: Vec<String>,
    /// What to actually do about it.
    pub fixes: Vec<String>,
    /// Where to look, in the order the reader should look.
    pub labels: Vec<Label>,
}

impl View for Diagnostic {
    type V = DiagnosticView;

    open spec fn view(&self) -> DiagnosticView {
        DiagnosticView {
            code: self.code@,
            message: self.message@,
            rules: texts(self.rules@),
            tips: texts(self.tips@),
            fixes: texts(self.fixes@),
            labels: label_views(self.labels@),
        }
    }
}

impl Diagnostic {
    pub fn new(code: &str, message: &str) -> (d: Diagnostic)
        ensures
            d.code@ == code@,
            d.message@ == message@,
            d.rules@.len() == 0,
            d.tips@.len() == 0,
            d.fixes@.len() == 0,
            d.labels@.len() == 0,
            d@ == (DiagnosticView {
                code: code@,
                message: message@,
                rules: seq![],
                tips: seq![],
                fixes: seq![],
                labels: seq![],
            }),
    {
        proof {
            assert(texts(Seq::<String>::empty()) =~= Seq::<Seq<char>>::empty());
            assert(label_views(Seq::<Label>::empty()) =~= Seq::empty());
        }
        Diagnostic {
            code: String::from_str(code),
            message: String::from_str(message),
            rules: Vec::new(),
            tips: Vec::new(),
            fixes: Vec::new(),
            labels: Vec::new(),
        }
    }

    pub fn rule(self, rule: &str) -> (d: Diagnostic)
        ensures
            d.code == self.code,
            d.message == self.message,
            texts(d.rules@) == texts(self.rules@).push(rule@),
            d.tips == self.tips,
            d.fixes == self.fixes,
            d.labels == self.labels,
            d@ == (DiagnosticView { rules: self@.rules.push(rule@), ..self@ }),
    {
        let mut d = self;
        d.rules.push(String::from_str(rule));
        proof {
            assert(texts(d.rules@) =~= texts(self.rules@).push(rule@));
        }
        d
    }

    pub fn tip(self, tip: &str) -> (d: Diagnostic)
        ensures
            d.code == self.code,
            d.message == self.message,
            d.rules == self.rules,
            texts(d.tips@) == texts(self.tips@).push(tip@),
            d.fixes == self.fixes,
            d.labels == self.labels,
            d@ == (DiagnosticView { tips: self@.tips.push(tip@), ..self@ }),
    {
        let mut d = self;
        d.tips.push(String::from_str(tip));
        proof {
            assert(texts(d.tips@) =~= texts(self.tips@).push(tip@));
        }
        d
    }

    pub fn fix(self, fix: &str) -> (d: Diagnostic)
        ensures
            d.code == self.code,
            d.message == self.message,
            d.rules == self.rules,
            d.tips == self.tips,
            texts(d.fixes@) == texts(self.fixes@).push(fix@),
            d.labels == self.labels,
            d@ == (DiagnosticView { fixes: self@.fixes.push(fix@), ..self@ }),
    {
        let mut d = self;
        d.fixes.push(String::from_str(fix));
        proof {
            assert(texts(d.fixes@) =~= texts(self.fixes@).push(fix@));
        }
        d
    }

    pub fn label(self, label: Label) -> (d: Diagnostic)
        ensures
            d.code == self.code,
            d.message == self.message,
            d.rules == self.rules,
            d.tips == self.tips,
            d.fixes == self.fixes,
            d.labels@ == self.labels@.push(label),
    {
        let mut d = self;
        d.labels.push(label);
        d
    }

    pub fn primary(self, span: Span, note: &str) -> (d: Diagnostic)
        ensures
            d.code == self.code,
            d.message == self.message,
            d.rules == self.rules,
            d.tips == self.tips,
            d.fixes == self.fixes,
            d.labels@.len() == self.labels@.len() + 1,
            d.labels@.drop_last() == self.labels@,
            d.labels@.last().span == span,
            d.labels@.last().note@ == note@,
            d.labels@.last().style == LabelStyle::Primary,
            d@ == (DiagnosticView { labels: self@.labels.push((span, note@, LabelStyle::Primary)), ..self@ }),
    {
        let d = self.label(Label::primary(span, note));
        assert(d.labels@.drop_last() =~= self.labels@);
        assert(label_views(d.labels@) =~= label_views(self.labels@).push((span, note@, d.labels@.last().style)));
        d
    }

    pub fn secondary(self, span: Span, note: &str) -> (d: Diagnostic)
        ensures
            d.code == self.code,
            d.message == self.message,
            d.rules == self.rules,
            d.tips == self.tips,
            d.fixes == self.fixes,
            d.labels@.len() == self.labels@.len() + 1,
            d.labels@.drop_last() == self.labels@,
            d.labels@.last().span == span,
            d.labels@.last().note@ == note@,
            d.labels@.last().style == LabelStyle::Secondary,
            d@ == (DiagnosticView { labels: self@.labels.push((span, note@, LabelStyle::Secondary)), ..self@ }),
    {
        let d = self.label(Label::secondary(span, note));
        assert(d.labels@.drop_last() =~= self.labels@);
        assert(label_views(d.labels@) =~= label_views(self.labels@).push((span, note@, d.labels@.last().style)));
        d
    }

    /// The label the message is about: the first primary one, or failing that the first.
    pub fn primary_label(&self) -> (r: Option<&Label>)
        ensures
            r is Some <==> self.labels@.len() > 0,
            r is Some ==> *r->0 == if first_primary(self.labels@) < self.labels@.len() {
                self.labels@[first_primary(self.labels@)]
            } else {
                self.labels@[0]
            },
    {
        let mut i: usize = 0;
        while i < self.labels.len()
            invariant
                i <= self.labels@.len(),
                forall|j: int| 0 <= j < i ==> self.labels@[j].style != LabelStyle::Primary,
            decreases self.labels.len() - i,
        {
            if self.labels[i].style == LabelStyle::Primary {
                proof {
                    lemma_first_primary_at(self.labels@, i as int);
                }
                return Some(&self.labels[i]);
            }
            i = i + 1;
        }
        proof {
            lemma_first_primary_at(self.labels@, i as int);
        }
        if self.labels.len() == 0 {
            None
        } else {
            Some(&self.labels[0])
        }
    }
}

/// The first primary label is somewhere among the labels, or just past their end.
pub proof fn lemma_first_primary_bounds(labels: Seq<Label>)
    ensures
        0 <= first_primary(labels) <= labels.len(),
    decreases labels.len(),
{
    if labels.len() > 0 {
        lemma_first_primary_bounds(labels.drop_first());
    }
}

/// When nothing before `i` is primary, the first primary one is `i` if that is primary,
/// and there is none if `i` is the end.
proof fn lemma_first_primary_at(labels: Seq<Label>, i: int)
    requires
        0 <= i <= labels.len(),
        forall|j: int| 0 <= j < i ==> labels[j].style != LabelStyle::Primary,
        i < labels.len() ==> labels[i].style == LabelStyle::Primary,
    ensures
        first_primary(labels) == i,
    decreases i,
{
    if i > 0 {
        lemma_first_primary_at(labels.drop_first(), i - 1);
    }
}

} // verus!
