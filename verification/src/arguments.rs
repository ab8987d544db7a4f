//! A call to a function of the program: its arguments counted and checked against what
//! the function takes, and the hole they fill where the function opened one.

use vstd::prelude::*;
use crate::checked::Value;
use crate::checker::{complaints, refs_ok, said, span_to, typed, Checker};
use crate::diag::{Diagnostic, DiagnosticView, LabelStyle};
use crate::holes::{filled, filled_view, mentioned, mentioned_view, solve, solve_view};
use crate::source::Span;
use crate::ty::{accepts_view, article_of, hole_word, is_number, name_of, Hole, Ty, TyView};
use crate::values::{lemma_said_told, lemma_told_chain, lemma_told_none, somes, told_after};
use crate::checker::reads_as_name;
use crate::diag::texts;
use crate::program::joined;
use crate::ty::reaches_view;

verus! {

/// One argument of a call, worked out the way its parameter asks: read under the hole
/// where the parameter mentions the function's hole, and checked against the
/// parameter's type where it does not. What working it out said comes with it, to be
/// reported where the argument is reached.
pub struct Given {
    pub span: Span,
    pub built: Option<Value>,
    pub told: Vec<Diagnostic>,
}

/// What a parameter reads its argument as, with the callee's hole: whether the argument
/// fills the hole.
pub open spec fn fills(hole: Option<Hole>, ty: TyView) -> bool {
    hole is Some && mentioned_view(ty)
}

/// How far reading the arguments that fill the hole has got.
pub enum Filling {
    /// Still going: what fills the hole so far and where, the type each argument that
    /// fills it was found to be, and what was said on the way.
    Going { fill: Option<(TyView, Span)>, found: Seq<Option<TyView>>, told: Seq<Option<DiagnosticView>> },
    Stopped(Seq<Option<DiagnosticView>>),
}

/// How far checking every argument in order has got.
pub enum Checking {
    Going { values: Seq<Value>, told: Seq<Option<DiagnosticView>> },
    Stopped(Seq<Option<DiagnosticView>>),
}

/// An argument whose shape does not match the parameter that mentions the hole.
pub open spec fn wrong_shape(found: TyView, ty: TyView, name: Seq<char>, at: Span, list: Span) -> DiagnosticView {
    DiagnosticView {
        code: "E0505"@,
        message: "this is "@ + article_of(found) + " `"@ + name_of(found) + "`, and `'"@ + name + "'` takes "@
            + article_of(ty) + " `"@ + name_of(ty) + "`."@,
        rules: seq!["a hole is filled by what the argument holds, and the shape around it still has to match"@],
        tips: seq!["`arr.any` takes an array of something. It does not take the something."@],
        fixes: seq!["pass an argument of that shape"@],
        labels: seq![
            (at, article_of(found) + " `"@ + name_of(found) + "`"@, LabelStyle::Primary),
            (list, "takes "@ + article_of(ty) + " `"@ + name_of(ty) + "`"@, LabelStyle::Secondary),
        ],
    }
}

/// A call that fills one hole with two types.
pub open spec fn two_fills(name: Seq<char>, first: TyView, at_first: Span, second: TyView, at: Span) -> DiagnosticView {
    DiagnosticView {
        code: "E0506"@,
        message: "`'"@ + name + "'` has one hole, and this call gives it two types."@,
        rules: seq!["every mention of a hole in one signature is the same hole, so one call fills it once"@],
        tips: seq!["that is what makes `[immut.any 'a', immut.any 'b']` mean two of the same thing."@],
        fixes: seq!["pass two of the same type"@],
        labels: seq![
            (at_first, "filled with `"@ + name_of(first) + "` here"@, LabelStyle::Secondary),
            (at, "and with `"@ + name_of(second) + "` here"@, LabelStyle::Primary),
        ],
    }
}

/// A call whose arguments leave the hole unsaid.
pub open spec fn unfilled(name: Seq<char>, hole: Hole, at: Span, list: Span) -> DiagnosticView {
    DiagnosticView {
        code: "E0507"@,
        message: "nothing here says what `'"@ + name + "'`'s `"@ + hole_word(hole) + "` is."@,
        rules: seq!["a hole is worked out from the arguments, so it has to appear in what the function takes"@],
        tips: seq![
            "a function whose hole is only in what it gives back has nothing to work it out from, and there is no way to say it at the call."@,
        ],
        fixes: seq!["take something of that type, or say a real type"@],
        labels: seq![(at, "here"@, LabelStyle::Primary), (list, "and nothing it takes mentions the hole"@, LabelStyle::Secondary)],
    }
}

/// A `number` hole filled with what is not a number.
pub open spec fn not_a_number(name: Seq<char>, fill: TyView, at: Span, list: Span) -> DiagnosticView {
    DiagnosticView {
        code: "E0508"@,
        message: "`'"@ + name + "'` takes a `number`, and this is "@ + article_of(fill) + " `"@ + name_of(fill) + "`."@,
        rules: seq!["a `number` hole is filled by a number type, because the body is allowed to order and add what goes in it"@],
        tips: seq!["`any` is the hole that takes everything, and in exchange its body may only hold, hand back and `==`."@],
        fixes: seq!["pass a number, or have it say `any`"@],
        labels: seq![
            (at, article_of(fill) + " `"@ + name_of(fill) + "`"@, LabelStyle::Primary),
            (list, "`number` here"@, LabelStyle::Secondary),
        ],
    }
}

/// An argument that, with the hole filled, is not the type its parameter became.
pub open spec fn not_as_filled(found: TyView, asked: TyView, at: Span, fill: TyView, at_fill: Span) -> DiagnosticView {
    DiagnosticView {
        code: "E0406"@,
        message: "this is "@ + article_of(found) + " `"@ + name_of(found) + "`, and it is being given to "@
            + article_of(asked) + " `"@ + name_of(asked) + "`."@,
        rules: seq!["nothing converts on its own — two types meet only where something says they should"@],
        tips: seq![],
        fixes: seq!["pass the same type"@],
        labels: seq![
            (at, article_of(found) + " `"@ + name_of(found) + "`"@, LabelStyle::Primary),
            (at_fill, "the hole was filled with `"@ + name_of(fill) + "` here"@, LabelStyle::Secondary),
        ],
    }
}

/// `n` things, as a message counts them.
pub open spec fn things(n: nat) -> Seq<char> {
    crate::checker::counted_view(n, "thing"@)
}

/// A call that brings another number of arguments than the function takes.
pub open spec fn miscounted(name: Seq<char>, takes: nat, given: nat, at: Span, list: Span) -> DiagnosticView {
    DiagnosticView {
        code: "E0470"@,
        message: "`'"@ + name + "'` takes "@ + things(takes) + ", and was given "@ + things(given) + "."@,
        rules: seq!["a call brings one value for each parameter, in the same order"@],
        tips: seq![],
        fixes: seq!["add what is missing, or take away what is spare"@],
        labels: seq![(list, "takes "@ + things(takes), LabelStyle::Secondary), (at, "given "@ + things(given), LabelStyle::Primary)],
    }
}

/// Reading one more argument that may fill the hole.
pub open spec fn fill_step<'a>(c: Checker<'a>, j: Filling, hole: Option<Hole>, ty: TyView, g: Given, name: Seq<char>, list: Span) -> Filling {
    match j {
        Filling::Going { fill, found, told } => if !fills(hole, ty) {
            Filling::Going { fill, found: found.push(None), told }
        } else {
            let t2 = told + somes(said(g.told@));
            match g.built {
                None => Filling::Stopped(t2),
                Some(v) => {
                    let t3 = t2 + somes(complaints(c.locals@, c.constants@, c.signatures@, v, g.span));
                    match typed(c.locals@, c.constants@, c.signatures@, v) {
                        None => Filling::Stopped(t3),
                        Some(f) => match solve_view(ty, f) {
                            None => Filling::Stopped(t3.push(Some(wrong_shape(f, ty, name, g.span, list)))),
                            Some(s) => match fill {
                                None => Filling::Going { fill: Some((s, g.span)), found: found.push(Some(f)), told: t3 },
                                Some((first, at_first)) => if first != s {
                                    Filling::Stopped(t3.push(Some(two_fills(name, first, at_first, s, g.span))))
                                } else {
                                    Filling::Going { fill, found: found.push(Some(f)), told: t3 }
                                },
                            },
                        },
                    }
                },
            }
        },
        _ => j,
    }
}

/// Reading, in order, the arguments that fill the hole.
pub open spec fn filling<'a>(c: Checker<'a>, hole: Option<Hole>, tys: Seq<TyView>, gs: Seq<Given>, name: Seq<char>, list: Span) -> Filling
    decreases gs.len(),
{
    if gs.len() == 0 {
        Filling::Going { fill: None, found: Seq::empty(), told: Seq::empty() }
    } else {
        fill_step(
            c,
            filling(c, hole, tys, gs.drop_last(), name, list),
            hole,
            tys[gs.len() - 1],
            gs.last(),
            name,
            list,
        )
    }
}

/// Checking one more argument, with the hole filled as `fill` says.
pub open spec fn check_step(j: Checking, hole: Option<Hole>, ty: TyView, g: Given, found: Option<TyView>, fill: (TyView, Span)) -> Checking {
    match j {
        Checking::Going { values, told } => if fills(hole, ty) {
            let asked = filled_view(ty, fill.0);
            if !accepts_view(asked, found->0) {
                Checking::Stopped(told.push(Some(not_as_filled(found->0, asked, g.span, fill.0, fill.1))))
            } else {
                Checking::Going { values: values.push(g.built->0), told }
            }
        } else {
            let t2 = told + somes(said(g.told@));
            match g.built {
                None => Checking::Stopped(t2),
                Some(v) => Checking::Going { values: values.push(v), told: t2 },
            }
        },
        _ => j,
    }
}

/// Checking every argument in order.
pub open spec fn checking(
    hole: Option<Hole>,
    tys: Seq<TyView>,
    gs: Seq<Given>,
    found: Seq<Option<TyView>>,
    fill: (TyView, Span),
    start: Seq<Option<DiagnosticView>>,
) -> Checking
    decreases gs.len(),
{
    if gs.len() == 0 {
        Checking::Going { values: Seq::empty(), told: start }
    } else {
        check_step(
            checking(hole, tys, gs.drop_last(), found, fill, start),
            hole,
            tys[gs.len() - 1],
            gs.last(),
            found[gs.len() - 1],
            fill,
        )
    }
}

/// What the arguments of a call to function `callee` come to: the values to pass and
/// what fills the hole, or nothing; and what was said, in order.
pub open spec fn arguments_view<'a>(c: Checker<'a>, callee: u32, at_name: Span, gs: Seq<Given>, close: Span) -> (Option<(Seq<Value>, Option<TyView>)>, Seq<Option<DiagnosticView>>) {
    let s = c.signatures@[callee as int];
    let tys = s.takes@.map_values(|t: Ty| t@);
    let name = s.said@;
    if gs.len() != tys.len() {
        (None, seq![Some(miscounted(name, tys.len(), gs.len(), span_to(at_name, close), s.list))])
    } else {
        match s.hole {
            None => match checking(None, tys, gs, Seq::empty(), (TyView::Bool, at_name), Seq::empty()) {
                Checking::Going { values, told } => (Some((values, None)), told),
                Checking::Stopped(told) => (None, told),
            },
            Some(h) => match filling(c, s.hole, tys, gs, name, s.list) {
                Filling::Stopped(told) => (None, told),
                Filling::Going { fill, found, told } => match fill {
                    None => (None, told.push(Some(unfilled(name, h, span_to(at_name, close), s.list)))),
                    Some((f, at_f)) => if h == Hole::Number && !is_number(f) {
                        (None, told.push(Some(not_a_number(name, f, at_f, s.list))))
                    } else {
                        match checking(s.hole, tys, gs, found, (f, at_f), told) {
                            Checking::Going { values, told } => (Some((values, Some(f))), told),
                            Checking::Stopped(told) => (None, told),
                        }
                    },
                },
            },
        }
    }
}

/// What fills the hole, by view.
pub open spec fn fill_view(fill: Option<(Ty, Span)>) -> Option<(TyView, Span)> {
    match fill {
        Some((t, at)) => Some((t@, at)),
        None => None,
    }
}

/// Once reading the arguments that fill the hole has stopped, what follows changes
/// nothing.
proof fn lemma_filling_stays<'a>(c: Checker<'a>, hole: Option<Hole>, tys: Seq<TyView>, gs: Seq<Given>, name: Seq<char>, list: Span, k: int)
    requires
        0 <= k <= gs.len(),
        filling(c, hole, tys, gs.take(k), name, list) is Stopped,
    ensures
        filling(c, hole, tys, gs, name, list) == filling(c, hole, tys, gs.take(k), name, list),
    decreases gs.len(),
{
    if k == gs.len() {
        assert(gs.take(k) =~= gs);
    } else {
        assert(gs.drop_last().take(k) =~= gs.take(k));
        lemma_filling_stays(c, hole, tys, gs.drop_last(), name, list, k);
    }
}

/// Once checking the arguments has stopped, what follows changes nothing.
proof fn lemma_checking_stays(
    hole: Option<Hole>,
    tys: Seq<TyView>,
    gs: Seq<Given>,
    found: Seq<Option<TyView>>,
    fill: (TyView, Span),
    start: Seq<Option<DiagnosticView>>,
    k: int,
)
    requires
        0 <= k <= gs.len(),
        checking(hole, tys, gs.take(k), found, fill, start) is Stopped,
    ensures
        checking(hole, tys, gs, found, fill, start) == checking(hole, tys, gs.take(k), found, fill, start),
    decreases gs.len(),
{
    if k == gs.len() {
        assert(gs.take(k) =~= gs);
    } else {
        assert(gs.drop_last().take(k) =~= gs.take(k));
        lemma_checking_stays(hole, tys, gs.drop_last(), found, fill, start, k);
    }
}

/// Whether `after` keeps of `g` what checking needs: where it is and what it came to,
/// and what working it out said where that is still to be reported.
pub open spec fn kept(after: Given, g: Given, reported: bool) -> bool {
    &&& after.span == g.span
    &&& after.built == g.built
    &&& !reported ==> after.told@ == g.told@
}

/// The function of the program a marked name after `call` finds from where it is
/// written: the one its key reaches, when every module on the way may be named from here
/// and what it says of itself reaches here.
pub open spec fn function_found<'a>(c: Checker<'a>, name: Span, chain: Seq<Span>) -> Option<u32> {
    let key = joined(c.call_names(name, chain), "."@);
    match c.reach_view(c.named@, key) {
        None => None,
        Some(w) => {
            let sig = c.signatures@[w as int];
            if !(forall|d: int|
                1 <= d <= sig.in_module@.len() ==> #[trigger] c.module_passes(sig.in_file@, texts(sig.in_module@), d)) {
                None
            } else if sig.visibility matches Some(v) && !reaches_view(
                v,
                c.at_file@,
                texts(c.at_module@),
                sig.in_file@,
                texts(sig.in_module@),
            ) {
                None
            } else {
                Some(w)
            }
        },
    }
}

/// A call whose answer is wanted, to a function that gives nothing back.
pub open spec fn gives_nothing(name: Seq<char>, at: Span, call: Span) -> DiagnosticView {
    DiagnosticView {
        code: "E0471"@,
        message: "`'"@ + name + "'` gives `nothing` back, and this wants a value."@,
        rules: seq!["`nothing` means there is no answer, and there is no value to stand in for one"@],
        tips: seq![],
        fixes: seq!["call it on its own line, or have it give something back"@],
        labels: seq![(at, "declared `nothing` here"@, LabelStyle::Secondary), (call, "and its answer is wanted here"@, LabelStyle::Primary)],
    }
}

/// What calling function `callee` for its answer comes to: the call, with the arguments
/// to pass and what fills its hole, or nothing; and what was said.
pub open spec fn called_view<'a>(c: Checker<'a>, callee: u32, word: Span, at_name: Span, gs: Seq<Given>, close: Span) -> (Option<(Seq<Value>, Option<TyView>)>, Seq<Option<DiagnosticView>>) {
    let (r, told) = arguments_view(c, callee, at_name, gs, close);
    let s = c.signatures@[callee as int];
    match r {
        None => (None, told),
        Some(a) => if s.returns is None {
            (None, told.push(Some(gives_nothing(s.said@, s.at, span_to(word, close)))))
        } else {
            (Some(a), told)
        },
    }
}

impl<'a> Checker<'a> {
    /// The arguments of a call to function `callee`: as many as it takes, each checked
    /// against its parameter. Where the function opened a hole, the arguments whose
    /// parameters mention it say what fills it: each has to have the shape its
    /// parameter gives the hole, all have to fill it with one type, something has to
    /// fill it at all, and a `number` hole is filled by a number type. Then every
    /// argument is checked in order, those that filled the hole against the type their
    /// parameter became.
    pub fn arguments(&mut self, callee: u32, at_name: Span, given: Vec<Given>, close: Span) -> (r: Option<(Vec<Value>, Option<Ty>)>)
        requires
            callee < old(self).signatures@.len(),
            forall|i: int| 0 <= i < given@.len() ==> ((#[trigger] given@[i]).built matches Some(v) ==> refs_ok(old(self).locals@, old(self).constants@, old(self).signatures@, v)),
        ensures
            old(self).same_tables(&*final(self)),
            final(self).body == old(self).body,
            final(self).hole == old(self).hole,
            match (r, arguments_view(*old(self), callee, at_name, given@, close).0) {
                (Some((vs, f)), Some((ws, g))) => vs@ == ws && match (f, g) {
                    (Some(a), Some(b)) => a@ == b,
                    (None, None) => true,
                    _ => false,
                },
                (None, None) => true,
                _ => false,
            },
            told_after(final(self).errors@, old(self).errors@, arguments_view(*old(self), callee, at_name, given@, close).1),
    {
        let ghost c0: Checker<'a> = *self;
        let ghost all = given@;
        let ghost e0 = self.errors@;
        let idx = callee as usize;
        let takes = self.signatures[idx].takes.len();
        let name = self.signatures[idx].said.clone();
        let list = self.signatures[idx].list;
        let hole = self.signatures[idx].hole;
        let ghost tys = c0.signatures@[callee as int].takes@.map_values(|t: Ty| t@);
        if given.len() != takes {
            let wanted = crate::checker::counted(takes, "thing");
            let brought = crate::checker::counted(given.len(), "thing");
            let mut message = String::from_str("`'");
            message.append(name.as_str());
            message.append("'` takes ");
            message.append(wanted.as_str());
            message.append(", and was given ");
            message.append(brought.as_str());
            message.append(".");
            let mut takes_note = String::from_str("takes ");
            takes_note.append(wanted.as_str());
            let mut given_note = String::from_str("given ");
            given_note.append(brought.as_str());
            let d = Diagnostic::new("E0470", message.as_str())
                .secondary(list, takes_note.as_str())
                .primary(at_name.to(close), given_note.as_str())
                .rule("a call brings one value for each parameter, in the same order")
                .fix("add what is missing, or take away what is spare");
            proof {
                let want = miscounted(name@, tys.len(), all.len(), span_to(at_name, close), list);
                assert(message@ =~= want.message);
                assert(d@.labels =~= want.labels);
                assert(d@.rules =~= want.rules);
                assert(d@.tips =~= want.tips);
                assert(d@.fixes =~= want.fixes);
                assert(d@ == want);
            }
            self.errors.push(d);
            proof {
                assert(said(self.errors@) =~= said(e0).push(d@));
                assert(said(e0).push(d@) =~= said(e0) + seq![d@]);
                lemma_said_told(self.errors@, e0, seq![d@]);
                assert(seq![d@].map_values(|x: DiagnosticView| Some(x)) =~= seq![Some(d@)]);
            }
            return None;
        }
        match hole {
            None => {
                proof {
                    lemma_told_none(e0);
                }
                let ghost nothing: Seq<Option<TyView>> = Seq::empty();
                let ghost no_fill = (TyView::Bool, at_name);
                let r = self.check_all(callee, given, None, Vec::new(), Ghost(all), Ghost(nothing), Ghost(no_fill), Ghost(Seq::empty()), Ghost(e0), Ghost(c0));
                match r {
                    Some(vs) => Some((vs, None)),
                    None => None,
                }
            },
            Some(h) => {
                let (after, founds, fill) = match self.fill_all(callee, given, Ghost(c0), Ghost(e0)) {
                    Some(read) => read,
                    None => return None,
                };
                let ghost read = filling(c0, hole, tys, all, name@, list);
                let ghost told = read->told;
                let (f, at_f) = match fill {
                    Some(fl) => fl,
                    None => {
                        let mut message = String::from_str("nothing here says what `'");
                        message.append(name.as_str());
                        message.append("'`'s `");
                        message.append(h.word());
                        message.append("` is.");
                        let d = Diagnostic::new("E0507", message.as_str())
                            .primary(at_name.to(close), "here")
                            .secondary(list, "and nothing it takes mentions the hole")
                            .rule("a hole is worked out from the arguments, so it has to appear in what the function takes")
                            .tip("a function whose hole is only in what it gives back has nothing to work it out from, and there is no way to say it at the call.")
                            .fix("take something of that type, or say a real type");
                        proof {
                            let want = unfilled(name@, h, span_to(at_name, close), list);
                            assert(message@ =~= want.message);
                            assert(d@.labels =~= want.labels);
                            assert(d@.rules =~= want.rules);
                            assert(d@.tips =~= want.tips);
                            assert(d@.fixes =~= want.fixes);
                            assert(d@ == want);
                        }
                        let ghost e1 = self.errors@;
                        self.errors.push(d);
                        proof {
                            assert(said(self.errors@) =~= said(e1).push(d@));
                            assert(said(e1).push(d@) =~= said(e1) + seq![d@]);
                            lemma_said_told(self.errors@, e1, seq![d@]);
                            assert(seq![d@].map_values(|x: DiagnosticView| Some(x)) =~= seq![Some(d@)]);
                            lemma_told_chain(self.errors@, e1, e0, told, seq![Some(d@)]);
                            assert(told + seq![Some(d@)] =~= told.push(Some(d@)));
                        }
                        return None;
                    },
                };
                if !h.takes(&f) {
                    let name_f = f.name();
                    let mut message = String::from_str("`'");
                    message.append(name.as_str());
                    message.append("'` takes a `number`, and this is ");
                    message.append(f.article());
                    message.append(" `");
                    message.append(name_f.as_str());
                    message.append("`.");
                    let mut note = String::from_str(f.article());
                    note.append(" `");
                    note.append(name_f.as_str());
                    note.append("`");
                    let d = Diagnostic::new("E0508", message.as_str())
                        .primary(at_f, note.as_str())
                        .secondary(list, "`number` here")
                        .rule("a `number` hole is filled by a number type, because the body is allowed to order and add what goes in it")
                        .tip("`any` is the hole that takes everything, and in exchange its body may only hold, hand back and `==`.")
                        .fix("pass a number, or have it say `any`");
                    proof {
                        let want = not_a_number(name@, f@, at_f, list);
                        assert(message@ =~= want.message);
                        assert(d@.labels =~= want.labels);
                        assert(d@.rules =~= want.rules);
                        assert(d@.tips =~= want.tips);
                        assert(d@.fixes =~= want.fixes);
                        assert(d@ == want);
                    }
                    let ghost e1 = self.errors@;
                    self.errors.push(d);
                    proof {
                        assert(said(self.errors@) =~= said(e1).push(d@));
                        assert(said(e1).push(d@) =~= said(e1) + seq![d@]);
                        lemma_said_told(self.errors@, e1, seq![d@]);
                        assert(seq![d@].map_values(|x: DiagnosticView| Some(x)) =~= seq![Some(d@)]);
                        lemma_told_chain(self.errors@, e1, e0, told, seq![Some(d@)]);
                        assert(told + seq![Some(d@)] =~= told.push(Some(d@)));
                    }
                    return None;
                }
                let ghost fv = (f@, at_f);
                let r = self.check_all(callee, after, Some((&f, at_f)), founds, Ghost(all), Ghost(read->found), Ghost(fv), Ghost(told), Ghost(e0), Ghost(c0));
                match r {
                    Some(vs) => Some((vs, Some(f))),
                    None => None,
                }
            },
        }
    }

    /// A call, for its answer, to function `callee` of the program: its arguments, and
    /// then whether it gives an answer back at all.
    pub fn called(&mut self, callee: u32, word: Span, at_name: Span, given: Vec<Given>, close: Span) -> (r: Option<Value>)
        requires
            callee < old(self).signatures@.len(),
            forall|i: int| 0 <= i < given@.len() ==> ((#[trigger] given@[i]).built matches Some(v) ==> refs_ok(old(self).locals@, old(self).constants@, old(self).signatures@, v)),
        ensures
            old(self).same_tables(&*final(self)),
            final(self).body == old(self).body,
            final(self).hole == old(self).hole,
            match called_view(*old(self), callee, word, at_name, given@, close).0 {
                Some((vs, f)) => r matches Some(Value::Call { func, args, fill }) && func == callee && args@ == vs && match (fill, f) {
                    (Some(a), Some(b)) => a@ == b,
                    (None, None) => true,
                    _ => false,
                },
                None => r is None,
            },
            told_after(final(self).errors@, old(self).errors@, called_view(*old(self), callee, word, at_name, given@, close).1),
    {
        let ghost c0: Checker<'a> = *self;
        let ghost e0 = self.errors@;
        let (args, fill) = match self.arguments(callee, at_name, given, close) {
            Some(got) => got,
            None => return None,
        };
        let idx = callee as usize;
        if self.signatures[idx].returns.is_none() {
            let name = self.signatures[idx].said.clone();
            let at = self.signatures[idx].at;
            let message = crate::checker::around("`'", name.as_str(), "'` gives `nothing` back, and this wants a value.");
            let d = Diagnostic::new("E0471", message.as_str())
                .secondary(at, "declared `nothing` here")
                .primary(word.to(close), "and its answer is wanted here")
                .rule("`nothing` means there is no answer, and there is no value to stand in for one")
                .fix("call it on its own line, or have it give something back");
            proof {
                let want = gives_nothing(name@, at, span_to(word, close));
                assert(d@.labels =~= want.labels);
                assert(d@.rules =~= want.rules);
                assert(d@.tips =~= want.tips);
                assert(d@.fixes =~= want.fixes);
                assert(d@ == want);
            }
            let ghost e1 = self.errors@;
            self.errors.push(d);
            proof {
                let told = arguments_view(c0, callee, at_name, given@, close).1;
                assert(said(self.errors@) =~= said(e1).push(d@));
                assert(said(e1).push(d@) =~= said(e1) + seq![d@]);
                lemma_said_told(self.errors@, e1, seq![d@]);
                assert(seq![d@].map_values(|x: DiagnosticView| Some(x)) =~= seq![Some(d@)]);
                lemma_told_chain(self.errors@, e1, e0, told, seq![Some(d@)]);
                assert(told + seq![Some(d@)] =~= told.push(Some(d@)));
            }
            return None;
        }
        Some(Value::Call { func: callee, args, fill })
    }

    /// `call 'name'[…]`: the function of the program the marked name finds from here, and
    /// then the call to it, for its answer. A name that finds none is told why, as
    /// looking it up says.
    pub fn call(&mut self, name: Span, chain: &[Span], word: Span, given: Vec<Given>, close: Span) -> (r: Option<Value>)
        requires
            reads_as_name(old(self).source, name),
            forall|i: int| 0 <= i < chain@.len() ==> reads_as_name(old(self).source, #[trigger] chain@[i]),
            old(self).functions_ok(),
            forall|i: int| 0 <= i < given@.len() ==> ((#[trigger] given@[i]).built matches Some(v) ==> refs_ok(old(self).locals@, old(self).constants@, old(self).signatures@, v)),
        ensures
            old(self).same_tables(&*final(self)),
            final(self).body == old(self).body,
            final(self).hole == old(self).hole,
            match function_found(*old(self), name, chain@) {
                None => {
                    &&& r is None
                    &&& final(self).errors@.len() == old(self).errors@.len() + 1
                    &&& final(self).errors@.drop_last() == old(self).errors@
                },
                Some(w) => {
                    &&& match called_view(*old(self), w, word, name, given@, close).0 {
                        Some((vs, f)) => r matches Some(Value::Call { func, args, fill }) && func == w && args@ == vs && match (fill, f) {
                            (Some(a), Some(b)) => a@ == b,
                            (None, None) => true,
                            _ => false,
                        },
                        None => r is None,
                    }
                    &&& told_after(final(self).errors@, old(self).errors@, called_view(*old(self), w, word, name, given@, close).1)
                },
            },
    {
        let which = match self.function_named(name, chain, close) {
            Some(w) => w,
            None => return None,
        };
        proof {
            self.lemma_function_below(joined(self.call_names(name, chain@), "."@));
        }
        self.called(which, word, name, given, close)
    }

    /// Reading, in order, the arguments that fill the hole: what fills it, the type each
    /// of them was found to be, and every argument again with what still has to be
    /// reported of it.
    fn fill_all(&mut self, callee: u32, given: Vec<Given>, Ghost(c0): Ghost<Checker<'a>>, Ghost(e0): Ghost<Seq<Diagnostic>>) -> (r: Option<(Vec<Given>, Vec<Option<Ty>>, Option<(Ty, Span)>)>)
        requires
            c0 == *old(self),
            e0 == old(self).errors@,
            callee < old(self).signatures@.len(),
            old(self).signatures@[callee as int].hole is Some,
            given@.len() == old(self).signatures@[callee as int].takes@.len(),
            forall|i: int| 0 <= i < given@.len() ==> ((#[trigger] given@[i]).built matches Some(v) ==> refs_ok(old(self).locals@, old(self).constants@, old(self).signatures@, v)),
        ensures
            old(self).same_tables(&*final(self)),
            final(self).body == old(self).body,
            final(self).hole == old(self).hole,
            ({
                let s = c0.signatures@[callee as int];
                let read = filling(c0, s.hole, s.takes@.map_values(|t: Ty| t@), given@, s.said@, s.list);
                match r {
                    None => read matches Filling::Stopped(told) && told_after(final(self).errors@, e0, told),
                    Some((after, founds, fill)) => read matches Filling::Going { fill: fv, found, told } && {
                        &&& fill_view(fill) == fv
                        &&& told_after(final(self).errors@, e0, told)
                        &&& found.len() == given@.len()
                        &&& founds@.len() == given@.len()
                        &&& after@.len() == given@.len()
                        &&& forall|i: int| 0 <= i < found.len() ==> found[i] == match #[trigger] founds@[i] {
                            Some(t) => Some(t@),
                            None => None,
                        }
                        &&& forall|i: int| 0 <= i < after@.len() ==> kept(
                            #[trigger] after@[i],
                            given@[i],
                            fills(s.hole, s.takes@[i]@),
                        )
                        &&& forall|i: int| 0 <= i < found.len() ==> (fills(s.hole, s.takes@[i]@) <==> #[trigger] found[i] is Some)
                        &&& forall|i: int| 0 <= i < found.len() && #[trigger] fills(s.hole, s.takes@[i]@) ==> after@[i].built is Some
                    },
                }
            }),
    {
        let ghost all = given@;
        let ghost sig = c0.signatures@[callee as int];
        let ghost tys = sig.takes@.map_values(|t: Ty| t@);
        let idx = callee as usize;
        let name = self.signatures[idx].said.clone();
        let list = self.signatures[idx].list;
        let hole = self.signatures[idx].hole;
        let count = given.len();
        let mut rest = given;
        let mut after: Vec<Given> = Vec::new();
        let mut founds: Vec<Option<Ty>> = Vec::new();
        let mut fill: Option<(Ty, Span)> = None;
        let ghost mut found: Seq<Option<TyView>> = Seq::empty();
        let ghost mut told: Seq<Option<DiagnosticView>> = Seq::empty();
        let mut done: usize = 0;
        proof {
            assert(all.take(0) =~= Seq::<Given>::empty());
            assert(all.skip(0) =~= all);
            assert(all.len() == count);
            lemma_told_none(e0);
        }
        while rest.len() > 0
            invariant
                0 <= done <= all.len(),
                rest@ == all.skip(done as int),
                all.len() == tys.len(),
                tys == sig.takes@.map_values(|t: Ty| t@),
                sig == c0.signatures@[callee as int],
                name@ == sig.said@,
                list == sig.list,
                hole == sig.hole,
                hole is Some,
                c0.same_tables(&*self),
                c0 == *old(self),
                e0 == c0.errors@,
                all == given@,
                all.len() <= usize::MAX,
                self.body == c0.body,
                self.hole == c0.hole,
                idx == callee,
                callee < c0.signatures@.len(),
                forall|i: int| 0 <= i < all.len() ==> ((#[trigger] all[i]).built matches Some(v) ==> refs_ok(c0.locals@, c0.constants@, c0.signatures@, v)),
                filling(c0, hole, tys, all.take(done as int), name@, list) == (Filling::Going { fill: fill_view(fill), found, told }),
                told_after(self.errors@, e0, told),
                found.len() == done,
                founds@.len() == done,
                after@.len() == done,
                forall|i: int| 0 <= i < done ==> found[i] == match #[trigger] founds@[i] {
                    Some(t) => Some(t@),
                    None => None,
                },
                forall|i: int| 0 <= i < done ==> kept(#[trigger] after@[i], all[i], fills(hole, tys[i])),
                forall|i: int| 0 <= i < done ==> (fills(hole, tys[i]) <==> #[trigger] found[i] is Some),
                forall|i: int| 0 <= i < done && #[trigger] fills(hole, tys[i]) ==> after@[i].built is Some,
            decreases rest.len(),
        {
            let g = rest.remove(0);
            let ty = self.signatures[idx].takes[done].clone();
            let ghost e1 = self.errors@;
            let ghost step = fill_step(c0, Filling::Going { fill: fill_view(fill), found, told }, hole, tys[done as int], g, name@, list);
            proof {
                assert(all[done as int] == g);
                assert(all.take(done + 1).drop_last() =~= all.take(done as int));
                assert(all.take(done + 1).last() == g);
                assert(all.skip(done + 1) =~= rest@);
                assert(tys[done as int] == ty@);
                assert(filling(c0, hole, tys, all.take(done + 1), name@, list) == step);
            }
            if !mentioned(&ty) {
                after.push(g);
                founds.push(None);
                proof {
                    found = found.push(None);
                    assert forall|i: int| 0 <= i < done + 1 implies found[i] == match #[trigger] founds@[i] {
                        Some(t) => Some(t@),
                        None => None,
                    } by {}
                }
                done = done + 1;
                continue;
            }
            let Given { span, built, told: mut w } = g;
            let ghost wv = said(w@);
            self.errors.append(&mut w);
            proof {
                assert(said(self.errors@) =~= said(e1) + wv);
                lemma_said_told(self.errors@, e1, wv);
                lemma_told_chain(self.errors@, e1, e0, told, somes(wv));
            }
            let v = match built {
                Some(v) => v,
                None => {
                    proof {
                        assert(step == Filling::Stopped(told + somes(wv)));
                        lemma_filling_stays(c0, hole, tys, all, name@, list, done + 1);
                        assert(all.take(all.len() as int) =~= all);
                    }
                    return None;
                },
            };
            let ghost e2 = self.errors@;
            let ghost cs = complaints(c0.locals@, c0.constants@, c0.signatures@, v, span);
            let f = match self.type_of(&v, span) {
                Some(f) => f,
                None => {
                    proof {
                        lemma_said_told(self.errors@, e2, cs);
                        lemma_told_chain(self.errors@, e2, e0, told + somes(wv), somes(cs));
                        assert(step == Filling::Stopped(told + somes(wv) + somes(cs)));
                        lemma_filling_stays(c0, hole, tys, all, name@, list, done + 1);
                        assert(all.take(all.len() as int) =~= all);
                    }
                    return None;
                },
            };
            let ghost e3 = self.errors@;
            let ghost t3 = told + somes(wv) + somes(cs);
            proof {
                lemma_said_told(self.errors@, e2, cs);
                lemma_told_chain(self.errors@, e2, e0, told + somes(wv), somes(cs));
            }
            let solved = match solve(&ty, &f) {
                Some(solved) => solved,
                None => {
                    self.wrong_shape_here(&f, &ty, &name, span, list);
                    proof {
                        lemma_told_chain(self.errors@, e3, e0, t3, seq![Some(wrong_shape(f@, ty@, name@, span, list))]);
                        assert(t3 + seq![Some(wrong_shape(f@, ty@, name@, span, list))] =~= t3.push(Some(wrong_shape(f@, ty@, name@, span, list))));
                        assert(step == Filling::Stopped(t3.push(Some(wrong_shape(f@, ty@, name@, span, list)))));
                        lemma_filling_stays(c0, hole, tys, all, name@, list, done + 1);
                        assert(all.take(all.len() as int) =~= all);
                    }
                    return None;
                },
            };
            let clash = match &fill {
                None => false,
                Some((first, _)) => !first.same(&solved),
            };
            if clash {
                let (first, at_first) = match &fill {
                    Some((first, at_first)) => (first.clone(), *at_first),
                    None => (solved.clone(), span),
                };
                self.two_fills_here(&name, &first, at_first, &solved, span);
                proof {
                    let d = two_fills(name@, first@, at_first, solved@, span);
                    lemma_told_chain(self.errors@, e3, e0, t3, seq![Some(d)]);
                    assert(t3 + seq![Some(d)] =~= t3.push(Some(d)));
                    assert(step == Filling::Stopped(t3.push(Some(d))));
                    lemma_filling_stays(c0, hole, tys, all, name@, list, done + 1);
                    assert(all.take(all.len() as int) =~= all);
                }
                return None;
            }
            if fill.is_none() {
                fill = Some((solved, span));
            }
            after.push(Given { span, built: Some(v), told: Vec::new() });
            founds.push(Some(f));
            proof {
                told = t3;
                found = found.push(Some(f@));
                assert forall|i: int| 0 <= i < done + 1 implies found[i] == match #[trigger] founds@[i] {
                    Some(t) => Some(t@),
                    None => None,
                } by {}
            }
            done = done + 1;
        }
        proof {
            assert(all.take(done as int) =~= all);
        }
        Some((after, founds, fill))
    }

    /// Checking every argument in order: one that filled the hole against the type its
    /// parameter became, and any other by what working it out said.
    #[verifier::rlimit(40)]
    fn check_all(
        &mut self,
        callee: u32,
        gs: Vec<Given>,
        fill: Option<(&Ty, Span)>,
        founds: Vec<Option<Ty>>,
        Ghost(all): Ghost<Seq<Given>>,
        Ghost(found): Ghost<Seq<Option<TyView>>>,
        Ghost(fv): Ghost<(TyView, Span)>,
        Ghost(start): Ghost<Seq<Option<DiagnosticView>>>,
        Ghost(e0): Ghost<Seq<Diagnostic>>,
        Ghost(c0): Ghost<Checker<'a>>,
    ) -> (r: Option<Vec<Value>>)
        requires
            c0.same_tables(&*old(self)),
            callee < c0.signatures@.len(),
            gs@.len() == all.len(),
            all.len() == c0.signatures@[callee as int].takes@.len(),
            forall|i: int| 0 <= i < all.len() ==> kept(
                #[trigger] gs@[i],
                all[i],
                fills(c0.signatures@[callee as int].hole, c0.signatures@[callee as int].takes@[i]@),
            ),
            forall|i: int| 0 <= i < all.len() && #[trigger] fills(c0.signatures@[callee as int].hole, c0.signatures@[callee as int].takes@[i]@) ==> {
                &&& i < found.len()
                &&& i < founds@.len()
                &&& found[i] is Some
                &&& founds@[i] is Some
                &&& founds@[i]->0@ == found[i]->0
                &&& gs@[i].built is Some
            },
            c0.signatures@[callee as int].hole is Some ==> (fill matches Some((f, at)) && f@ == fv.0 && at == fv.1),
            told_after(old(self).errors@, e0, start),
        ensures
            old(self).same_tables(&*final(self)),
            final(self).body == old(self).body,
            final(self).hole == old(self).hole,
            match checking(c0.signatures@[callee as int].hole, c0.signatures@[callee as int].takes@.map_values(|t: Ty| t@), all, found, fv, start) {
                Checking::Going { values, told } => r matches Some(vs) && vs@ == values && told_after(final(self).errors@, e0, told),
                Checking::Stopped(told) => r is None && told_after(final(self).errors@, e0, told),
            },
    {
        let ghost sig = c0.signatures@[callee as int];
        let ghost tys = sig.takes@.map_values(|t: Ty| t@);
        let ghost s0: Checker<'a> = *self;
        let idx = callee as usize;
        let hole = self.signatures[idx].hole;
        let count = gs.len();
        let mut rest = gs;
        let mut values: Vec<Value> = Vec::new();
        let ghost mut told: Seq<Option<DiagnosticView>> = start;
        let mut done: usize = 0;
        proof {
            assert(all.take(0) =~= Seq::<Given>::empty());
            assert(gs@.skip(0) =~= gs@);
        }
        let ghost given = gs@;
        proof {
            assert(all.len() == count);
        }
        while rest.len() > 0
            invariant
                0 <= done <= all.len(),
                all.len() <= usize::MAX,
                rest@ == given.skip(done as int),
                given.len() == all.len(),
                all.len() == tys.len(),
                tys == sig.takes@.map_values(|t: Ty| t@),
                sig == c0.signatures@[callee as int],
                hole == sig.hole,
                idx == callee,
                callee < c0.signatures@.len(),
                c0.same_tables(&*self),
                c0.same_tables(&s0),
                s0 == *old(self),
                self.body == s0.body,
                self.hole == s0.hole,
                forall|i: int| 0 <= i < all.len() ==> kept(#[trigger] given[i], all[i], fills(hole, sig.takes@[i]@)),
                forall|i: int| 0 <= i < all.len() && #[trigger] fills(hole, sig.takes@[i]@) ==> {
                    &&& i < found.len()
                    &&& i < founds@.len()
                    &&& found[i] is Some
                    &&& founds@[i] is Some
                    &&& founds@[i]->0@ == found[i]->0
                    &&& given[i].built is Some
                },
                hole is Some ==> (fill matches Some((f, at)) && f@ == fv.0 && at == fv.1),
                checking(hole, tys, all.take(done as int), found, fv, start) == (Checking::Going { values: values@, told }),
                told_after(self.errors@, e0, told),
            decreases rest.len(),
        {
            let g = rest.remove(0);
            let ty = self.signatures[idx].takes[done].clone();
            let ghost e1 = self.errors@;
            proof {
                assert(given[done as int] == g);
                assert(all.take(done + 1).drop_last() =~= all.take(done as int));
                assert(all.take(done + 1).last() == all[done as int]);
                assert(given.skip(done + 1) =~= rest@);
                assert(tys[done as int] == ty@);
                assert(kept(g, all[done as int], fills(hole, sig.takes@[done as int]@)));
            }
            let fills_hole = match hole {
                Some(_) => mentioned(&ty),
                None => false,
            };
            if fills_hole {
                let (with, at_fill, found_ty) = match (fill, &founds[done]) {
                    (Some((with, at_fill)), Some(found_ty)) => (with, at_fill, found_ty),
                    _ => {
                        proof {
                            assert(fills(hole, sig.takes@[done as int]@));
                            assert(false);
                        }
                        return None;
                    },
                };
                let asked = filled(&ty, with);
                if !asked.accepts(found_ty) {
                    self.not_as_filled_here(found_ty, &asked, g.span, with, at_fill);
                    proof {
                        let d = not_as_filled(found_ty@, asked@, g.span, with@, fv.1);
                        lemma_told_chain(self.errors@, e1, e0, told, seq![Some(d)]);
                        assert(told + seq![Some(d)] =~= told.push(Some(d)));
                        assert(checking(hole, tys, all.take(done + 1), found, fv, start) is Stopped);
                        lemma_checking_stays(hole, tys, all, found, fv, start, done + 1);
                        assert(all.take(all.len() as int) =~= all);
                    }
                    return None;
                }
                let v = match g.built {
                    Some(v) => v,
                    None => {
                        proof {
                            assert(false);
                        }
                        return None;
                    },
                };
                values.push(v);
            } else {
                let Given { span, built, told: mut w } = g;
                let ghost wv = said(w@);
                self.errors.append(&mut w);
                proof {
                    assert(said(self.errors@) =~= said(e1) + wv);
                    lemma_said_told(self.errors@, e1, wv);
                    lemma_told_chain(self.errors@, e1, e0, told, somes(wv));
                }
                let v = match built {
                    Some(v) => v,
                    None => {
                        proof {
                            assert(checking(hole, tys, all.take(done + 1), found, fv, start) is Stopped);
                            lemma_checking_stays(hole, tys, all, found, fv, start, done + 1);
                            assert(all.take(all.len() as int) =~= all);
                        }
                        return None;
                    },
                };
                values.push(v);
                proof {
                    told = told + somes(wv);
                }
            }
            done = done + 1;
        }
        proof {
            assert(all.take(done as int) =~= all);
        }
        Some(values)
    }

    /// E0406 for an argument that is not the type its parameter became.
    fn not_as_filled_here(&mut self, found: &Ty, asked: &Ty, at: Span, fill: &Ty, at_fill: Span)
        ensures
            old(self).same_tables(&*final(self)),
            final(self).body == old(self).body,
            final(self).hole == old(self).hole,
            told_after(final(self).errors@, old(self).errors@, seq![Some(not_as_filled(found@, asked@, at, fill@, at_fill))]),
    {
        let found_name = found.name();
        let asked_name = asked.name();
        let fill_name = fill.name();
        let mut message = String::from_str("this is ");
        message.append(found.article());
        message.append(" `");
        message.append(found_name.as_str());
        message.append("`, and it is being given to ");
        message.append(asked.article());
        message.append(" `");
        message.append(asked_name.as_str());
        message.append("`.");
        let mut note = String::from_str(found.article());
        note.append(" `");
        note.append(found_name.as_str());
        note.append("`");
        let mut filled_note = String::from_str("the hole was filled with `");
        filled_note.append(fill_name.as_str());
        filled_note.append("` here");
        let d = Diagnostic::new("E0406", message.as_str())
            .primary(at, note.as_str())
            .secondary(at_fill, filled_note.as_str())
            .rule("nothing converts on its own — two types meet only where something says they should")
            .fix("pass the same type");
        proof {
            let want = not_as_filled(found@, asked@, at, fill@, at_fill);
            assert(message@ =~= want.message);
            assert(d@.labels =~= want.labels);
            assert(d@.rules =~= want.rules);
            assert(d@.tips =~= want.tips);
            assert(d@.fixes =~= want.fixes);
            assert(d@ == want);
        }
        let ghost e0 = self.errors@;
        self.errors.push(d);
        proof {
            assert(said(self.errors@) =~= said(e0).push(d@));
            assert(said(e0).push(d@) =~= said(e0) + seq![d@]);
            lemma_said_told(self.errors@, e0, seq![d@]);
            assert(seq![d@].map_values(|x: DiagnosticView| Some(x)) =~= seq![Some(d@)]);
        }
    }

    /// E0505, pointing at the argument and at the parameter list.
    fn wrong_shape_here(&mut self, found: &Ty, ty: &Ty, name: &String, at: Span, list: Span)
        ensures
            old(self).same_tables(&*final(self)),
            final(self).body == old(self).body,
            final(self).hole == old(self).hole,
            told_after(final(self).errors@, old(self).errors@, seq![Some(wrong_shape(found@, ty@, name@, at, list))]),
    {
        let found_name = found.name();
        let ty_name = ty.name();
        let mut message = String::from_str("this is ");
        message.append(found.article());
        message.append(" `");
        message.append(found_name.as_str());
        message.append("`, and `'");
        message.append(name.as_str());
        message.append("'` takes ");
        message.append(ty.article());
        message.append(" `");
        message.append(ty_name.as_str());
        message.append("`.");
        let mut note = String::from_str(found.article());
        note.append(" `");
        note.append(found_name.as_str());
        note.append("`");
        let mut takes = String::from_str("takes ");
        takes.append(ty.article());
        takes.append(" `");
        takes.append(ty_name.as_str());
        takes.append("`");
        let d = Diagnostic::new("E0505", message.as_str())
            .primary(at, note.as_str())
            .secondary(list, takes.as_str())
            .rule("a hole is filled by what the argument holds, and the shape around it still has to match")
            .tip("`arr.any` takes an array of something. It does not take the something.")
            .fix("pass an argument of that shape");
        proof {
            let want = wrong_shape(found@, ty@, name@, at, list);
            assert(message@ =~= want.message);
            assert(d@.labels =~= want.labels);
            assert(d@.rules =~= want.rules);
            assert(d@.tips =~= want.tips);
            assert(d@.fixes =~= want.fixes);
            assert(d@ == want);
        }
        let ghost e0 = self.errors@;
        self.errors.push(d);
        proof {
            assert(said(self.errors@) =~= said(e0).push(d@));
            assert(said(e0).push(d@) =~= said(e0) + seq![d@]);
            lemma_said_told(self.errors@, e0, seq![d@]);
            assert(seq![d@].map_values(|x: DiagnosticView| Some(x)) =~= seq![Some(d@)]);
        }
    }

    /// E0506, pointing at the first fill and at this one.
    fn two_fills_here(&mut self, name: &String, first: &Ty, at_first: Span, second: &Ty, at: Span)
        ensures
            old(self).same_tables(&*final(self)),
            final(self).body == old(self).body,
            final(self).hole == old(self).hole,
            told_after(final(self).errors@, old(self).errors@, seq![Some(two_fills(name@, first@, at_first, second@, at))]),
    {
        let mut message = String::from_str("`'");
        message.append(name.as_str());
        message.append("'` has one hole, and this call gives it two types.");
        let a = first.name();
        let b = second.name();
        let mut first_note = String::from_str("filled with `");
        first_note.append(a.as_str());
        first_note.append("` here");
        let mut second_note = String::from_str("and with `");
        second_note.append(b.as_str());
        second_note.append("` here");
        let d = Diagnostic::new("E0506", message.as_str())
            .secondary(at_first, first_note.as_str())
            .primary(at, second_note.as_str())
            .rule("every mention of a hole in one signature is the same hole, so one call fills it once")
            .tip("that is what makes `[immut.any 'a', immut.any 'b']` mean two of the same thing.")
            .fix("pass two of the same type");
        proof {
            let want = two_fills(name@, first@, at_first, second@, at);
            assert(message@ =~= want.message);
            assert(d@.labels =~= want.labels);
            assert(d@.rules =~= want.rules);
            assert(d@.tips =~= want.tips);
            assert(d@.fixes =~= want.fixes);
            assert(d@ == want);
        }
        let ghost e0 = self.errors@;
        self.errors.push(d);
        proof {
            assert(said(self.errors@) =~= said(e0).push(d@));
            assert(said(e0).push(d@) =~= said(e0) + seq![d@]);
            lemma_said_told(self.errors@, e0, seq![d@]);
            assert(seq![d@].map_values(|x: DiagnosticView| Some(x)) =~= seq![Some(d@)]);
        }
    }
}

} // verus!
