//! Reading a chain: the dotted links in front of what a parameter, a declaration or a
//! function declares, which say whether it can change, who can see it, how many `arr`
//! links wrap it, and its type.
//!
//! What is read is spans into the source and nothing else, so the chain is handed over as
//! its links, the shape in brackets after it as its sizes, and the span of the brackets.

use vstd::prelude::*;
use crate::checker::{
    copy_names, cuts, entry_of, find, lemma_entry_below, lemma_entry_push, name_at, qualified, qualified_view, reads_as_name, said, pointed, text_at, Checker,
    Signature,
};
use crate::diag::{texts, DiagnosticView, LabelStyle};
use crate::diag::Diagnostic;
use crate::source::Span;
use crate::text::same_str;
use crate::ty::{hole_named, simple_view, visibility_named, Hole, Ty, Visibility};

verus! {

/// A parameter as written: its chain, the whole of it for pointing at, and the shape in
/// brackets after the chain with the span of the brackets, if there are any.
pub struct Parameter {
    pub chain: Vec<Span>,
    pub span: Span,
    pub shape: Vec<Span>,
    pub shape_span: Option<Span>,
}

/// A function's heading as written: its name, its chain, the shape after the chain and
/// the span of its brackets, its parameters, and the span of their list.
pub struct Heading {
    pub name: Span,
    pub chain: Vec<Span>,
    pub shape: Vec<Span>,
    pub shape_span: Option<Span>,
    pub params: Vec<Parameter>,
    pub takes: Span,
}

/// Whether every link and size of a heading, and of each of its parameters, can be read
/// out of the source.
pub open spec fn heading_cuts(source: &str, func: Heading) -> bool {
    &&& forall|i: int| 0 <= i < func.chain@.len() ==> cuts(source, #[trigger] func.chain@[i])
    &&& forall|i: int| 0 <= i < func.shape@.len() ==> cuts(source, #[trigger] func.shape@[i])
    &&& forall|p: int| #![trigger func.params@[p]]
        0 <= p < func.params@.len() ==> {
            &&& forall|i: int|
                0 <= i < func.params@[p].chain@.len() ==> cuts(source, #[trigger] func.params@[p].chain@[i])
            &&& cuts(source, func.params@[p].span)
            &&& forall|i: int|
                0 <= i < func.params@[p].shape@.len() ==> cuts(source, #[trigger] func.params@[p].shape@[i])
        }
}

/// E0461, for a function declared at `first` and declared again at `again`.
pub open spec fn twice_declared(first: Span, again: Span, name: Seq<char>) -> DiagnosticView {
    DiagnosticView {
        code: "E0461"@,
        message: "`'"@ + name + "'` is declared twice."@,
        rules: seq!["one name means one thing, and two functions of a name means neither does"@],
        tips: Seq::empty(),
        fixes: seq!["rename one of them"@],
        labels: seq![
            (first, "declared here first"@, LabelStyle::Secondary),
            (again, "and declared again here"@, LabelStyle::Primary),
        ],
    }
}

/// Whether a link says whether what it describes can change.
pub open spec fn says_change(w: Seq<char>) -> bool {
    w == "mut"@ || w == "immut"@
}

/// The first link from `i` on that is neither `mut`, `immut` nor `arr`, which is where a
/// parameter's type is said; the number of links where there is none.
pub open spec fn type_place(source: &str, chain: Seq<Span>, i: int) -> int
    decreases chain.len() - i,
{
    if i >= chain.len() {
        chain.len() as int
    } else {
        let w = text_at(source, chain[i]);
        if says_change(w) || w == "arr"@ {
            type_place(source, chain, i + 1)
        } else {
            i
        }
    }
}

/// The links of a chain that say `arr`, in order.
pub open spec fn arr_links(source: &str, chain: Seq<Span>) -> Seq<Span>
    decreases chain.len(),
{
    if chain.len() == 0 {
        Seq::empty()
    } else {
        let rest = arr_links(source, chain.drop_last());
        if text_at(source, chain.last()) == "arr"@ {
            rest.push(chain.last())
        } else {
            rest
        }
    }
}

/// Whether some link of a chain says whether it can change.
pub open spec fn change_said(source: &str, chain: Seq<Span>) -> bool {
    exists|k: int| 0 <= k < chain.len() && says_change(#[trigger] text_at(source, chain[k]))
}

proof fn lemma_type_place_bounds(source: &str, chain: Seq<Span>, i: int)
    requires
        0 <= i <= chain.len(),
    ensures
        i <= type_place(source, chain, i) <= chain.len(),
        type_place(source, chain, i) < chain.len() ==> {
            let w = text_at(source, chain[type_place(source, chain, i)]);
            !says_change(w) && w != "arr"@
        },
        forall|k: int|
            i <= k < type_place(source, chain, i) ==> says_change(#[trigger] text_at(source, chain[k]))
                || text_at(source, chain[k]) == "arr"@,
    decreases chain.len() - i,
{
    if i < chain.len() {
        let w = text_at(source, chain[i]);
        if says_change(w) || w == "arr"@ {
            lemma_type_place_bounds(source, chain, i + 1);
        }
    }
}

/// What a declaration's chain said: whether it can change, its type where that could be
/// read, and where the type was written.
pub struct Chain {
    pub mutable: bool,
    pub ty: Option<Ty>,
    pub ty_span: Span,
}

/// How far reading a declaration's chain has got: what it has said so far, the errors
/// it has found as code and message, and whether it had to stop.
pub struct ChainState {
    pub mutable: Option<(bool, Span)>,
    pub ty_span: Option<Span>,
    pub arrays: Seq<Span>,
    pub said: Seq<DiagnosticView>,
    pub stopped: bool,
}

/// Nothing read yet.
pub open spec fn chain_begun() -> ChainState {
    ChainState { mutable: None, ty_span: None, arrays: Seq::empty(), said: Seq::empty(), stopped: false }
}

/// The same state with one more error found.
pub open spec fn chain_said(st: ChainState, d: DiagnosticView) -> ChainState {
    ChainState {
        mutable: st.mutable,
        ty_span: st.ty_span,
        arrays: st.arrays,
        said: st.said.push(d),
        stopped: st.stopped,
    }
}

/// Where a chain first said whether it can change; `link` where it has not.
pub open spec fn first_change(st: ChainState, link: Span) -> Span {
    match st.mutable {
        Some(m) => m.1,
        None => link,
    }
}

/// One more link of a declaration's chain read. At the top of a file a visibility is
/// someone else's business and `mut` or `immut` is E0473; elsewhere `mut` or `immut`
/// comes once (E0443), before the type (E0401); `arr` links come before the type; the
/// type is a type's name or a hole word (else E0402, which stops the reading); and
/// anything after the type is E0403.
pub open spec fn chain_step(source: &str, at_top: bool, st: ChainState, link: Span) -> ChainState {
    let w = text_at(source, link);
    if st.stopped {
        st
    } else if at_top && visibility_named(w) is Some {
        st
    } else if says_change(w) && at_top {
        chain_said(
            st,
            pointed(
                "E0473"@,
                "a constant never changes, so `"@ + w + "` says nothing."@,
                link,
                "here"@,
                "`const` is the answer to whether it changes, which is why it is a different word from `var`"@,
                seq!["a variable that never changes is `var.immut`, inside a function."@],
                "remove it"@,
            ),
        )
    } else if says_change(w) && st.mutable is None && st.ty_span is None {
        ChainState {
            mutable: Some((w == "mut"@, link)),
            ty_span: st.ty_span,
            arrays: st.arrays,
            said: st.said,
            stopped: st.stopped,
        }
    } else if says_change(w) && st.ty_span is Some {
        chain_said(
            st,
            pointed(
                "E0401"@,
                "`"@ + w + "` comes before the type."@,
                link,
                "here"@,
                "a chain reads `var`, then whether it changes, then what it is"@,
                Seq::empty(),
                "`var."@ + w + ".<type>`"@,
            ),
        )
    } else if says_change(w) {
        chain_said(
            st,
            DiagnosticView {
                code: "E0443"@,
                message: "this says twice whether it can change."@,
                rules: seq!["a declaration says `mut` or `immut`, once"@],
                tips: Seq::empty(),
                fixes: seq!["keep the one that was meant"@],
                labels: seq![
                    (first_change(st, link), "`"@ + text_at(source, first_change(st, link)) + "` here"@, LabelStyle::Secondary),
                    (link, "and `"@ + w + "` here"@, LabelStyle::Primary),
                ],
            },
        )
    } else if w == "arr"@ && st.ty_span is None {
        ChainState {
            mutable: st.mutable,
            ty_span: st.ty_span,
            arrays: st.arrays.push(link),
            said: st.said,
            stopped: st.stopped,
        }
    } else if st.ty_span is None {
        if simple_view(w) is None && hole_named(w) is None {
            ChainState {
                mutable: st.mutable,
                ty_span: st.ty_span,
                arrays: st.arrays,
                said: st.said.push(
                    pointed(
                        "E0402"@,
                        "`"@ + w + "` is not a type."@,
                        link,
                        "here"@,
                        "a declaration's chain ends with the type of what it declares"@,
                        seq!["the types are the numbers, `e`, `bool` and `str`."@],
                        "check the spelling"@,
                    ),
                ),
                stopped: true,
            }
        } else {
            ChainState {
                mutable: st.mutable,
                ty_span: Some(link),
                arrays: st.arrays,
                said: st.said,
                stopped: st.stopped,
            }
        }
    } else {
        chain_said(
            st,
            pointed(
                "E0403"@,
                "`"@ + w + "` comes after the type."@,
                link,
                "here"@,
                "the type is the last link in a declaration's chain"@,
                Seq::empty(),
                "move it before the type, or remove it"@,
            ),
        )
    }
}

/// A declaration's chain read link by link, the first link (the word that declares)
/// left out.
pub open spec fn chain_read(source: &str, at_top: bool, links: Seq<Span>) -> ChainState
    decreases links.len(),
{
    if links.len() == 0 {
        chain_begun()
    } else {
        chain_step(source, at_top, chain_read(source, at_top, links.drop_last()), links.last())
    }
}

/// Once a reading has stopped, what follows changes nothing.
proof fn lemma_stopped_stays(source: &str, at_top: bool, links: Seq<Span>, i: int, j: int)
    requires
        0 <= i <= j <= links.len(),
        chain_read(source, at_top, links.take(i)).stopped,
    ensures
        chain_read(source, at_top, links.take(j)) == chain_read(source, at_top, links.take(i)),
    decreases j - i,
{
    if i < j {
        lemma_stopped_stays(source, at_top, links, i, j - 1);
        assert(links.take(j).drop_last() =~= links.take(j - 1));
    }
}

/// The first link from `i` on that is neither a visibility nor `arr`, which is where a
/// function says what it gives back; the number of links where there is none.
pub open spec fn answer_place(source: &str, links: Seq<Span>, i: int) -> int
    decreases links.len() - i,
{
    if i >= links.len() {
        links.len() as int
    } else {
        let w = text_at(source, links[i]);
        if visibility_named(w) is Some || w == "arr"@ {
            answer_place(source, links, i + 1)
        } else {
            i
        }
    }
}

/// E0463 for every link that comes after what a function gives back and is no
/// visibility, as code and message, in order.
pub open spec fn late_said(source: &str, links: Seq<Span>) -> Seq<DiagnosticView>
    decreases links.len(),
{
    if links.len() == 0 {
        Seq::empty()
    } else {
        let rest = late_said(source, links.drop_last());
        let w = text_at(source, links.last());
        if visibility_named(w) is Some {
            rest
        } else {
            rest.push(
                pointed(
                    "E0463"@,
                    "`"@ + w + "` comes after what the function gives back."@,
                    links.last(),
                    "here"@,
                    "the last link of a function's chain is what it answers with"@,
                    Seq::empty(),
                    "move it before, or remove it"@,
                ),
            )
        }
    }
}

proof fn lemma_answer_place_bounds(source: &str, links: Seq<Span>, i: int)
    requires
        0 <= i <= links.len(),
    ensures
        i <= answer_place(source, links, i) <= links.len(),
        answer_place(source, links, i) < links.len() ==> {
            let w = text_at(source, links[answer_place(source, links, i)]);
            visibility_named(w) is None && w != "arr"@
        },
        forall|k: int|
            i <= k < answer_place(source, links, i) ==> visibility_named(#[trigger] text_at(source, links[k])) is Some
                || text_at(source, links[k]) == "arr"@,
    decreases links.len() - i,
{
    if i < links.len() {
        let w = text_at(source, links[i]);
        if visibility_named(w) is Some || w == "arr"@ {
            lemma_answer_place_bounds(source, links, i + 1);
        }
    }
}

/// `arr` is no visibility.
proof fn lemma_arr_is_no_visibility()
    ensures
        visibility_named("arr"@) is None,
{
    reveal_strlit("arr");
    reveal_strlit("module");
    reveal_strlit("parent");
    reveal_strlit("file");
    reveal_strlit("program");
    reveal_strlit("export");
    assert("arr"@.len() == 3);
    assert("module"@.len() == 6 && "parent"@.len() == 6 && "export"@.len() == 6);
    assert("file"@.len() == 4 && "program"@.len() == 7);
}

/// Whether `states` runs from one reading of a parameter to the next, `got[k]` being what
/// reading `params[k]` gave.
pub open spec fn in_turn<'a>(states: Seq<Checker<'a>>, got: Seq<Option<Ty>>, params: Seq<Parameter>) -> bool {
    &&& states.len() == params.len() + 1
    &&& got.len() == params.len()
    &&& forall|k: int|
        #![trigger got[k]]
        0 <= k < params.len() ==> states[k].param_read(&states[k + 1], params[k], got[k])
}

/// What reading an answer leaves alone: the source, the functions declared and where
/// this is.
proof fn lemma_answer_read_keeps<'a>(
    before: Checker<'a>,
    after: Checker<'a>,
    chain: Seq<Span>,
    shape: Seq<Span>,
    shape_span: Option<Span>,
    r: Option<Option<Ty>>,
)
    requires
        before.answer_read(&after, chain, shape, shape_span, r),
    ensures
        before.same_tables(&after),
{
    let source = before.source;
    let rest = chain.skip(1);
    let t = answer_place(source, rest, 0);
    let late = late_said(source, rest.skip(t + 1));
    let arrays = arr_links(source, rest.take(t));
    if t < rest.len() && text_at(source, rest[t]) != "nothing"@ {
        let (mid, e) = choose|mid: Checker<'a>, e: Option<Ty>|
            #[trigger] before.type_linked(&mid, rest[t], e) && if e is None {
                after == mid && r is None
            } else {
                exists|pre: Checker<'a>|
                    #[trigger] mid.with_said(&pre, late) && pre.arrayed_to(
                        &after,
                        e,
                        arrays,
                        shape,
                        shape_span,
                        match r {
                            Some(x) => x,
                            None => None,
                        },
                    ) && (r matches Some(x) ==> x is Some)
            };
        if e is Some {
            let pre = choose|pre: Checker<'a>|
                #[trigger] mid.with_said(&pre, late) && pre.arrayed_to(
                    &after,
                    e,
                    arrays,
                    shape,
                    shape_span,
                    match r {
                        Some(x) => x,
                        None => None,
                    },
                ) && (r matches Some(x) ==> x is Some);
        }
    }
}

/// What reading parameters leaves alone: the source, the functions declared and where
/// this is.
proof fn lemma_params_read_keeps<'a>(
    before: Checker<'a>,
    after: Checker<'a>,
    params: Seq<Parameter>,
    r: Option<Vec<Ty>>,
)
    requires
        before.params_read(&after, params, r),
    ensures
        before.same_tables(&after),
{
    let (states, got) = choose|states: Seq<Checker<'a>>, got: Seq<Option<Ty>>|
        #[trigger] in_turn(states, got, params) && states[0] == before && states.last() == after && if forall|k: int|
            0 <= k < got.len() ==> (#[trigger] got[k]) is Some {
            r matches Some(v) && v@.len() == got.len() && forall|k: int|
                0 <= k < got.len() ==> Some(#[trigger] v@[k]) == got[k]
        } else {
            r is None
        };
    lemma_in_turn_keeps(states, got, params, params.len() as int);
}

/// Parameters read in turn leave the tables alone, however many have been read.
proof fn lemma_in_turn_keeps<'a>(states: Seq<Checker<'a>>, got: Seq<Option<Ty>>, params: Seq<Parameter>, k: int)
    requires
        in_turn(states, got, params),
        0 <= k <= params.len(),
    ensures
        states[0].same_tables(&states[k]),
    decreases k,
{
    if k > 0 {
        lemma_in_turn_keeps(states, got, params, k - 1);
        assert(states[k - 1].param_read(&states[k], params[k - 1], got[k - 1]));
        lemma_param_read_keeps_tables(states[k - 1], states[k], params[k - 1], got[k - 1]);
    }
}

/// What reading a parameter leaves alone: the source, the functions declared and where
/// this is.
proof fn lemma_param_read_keeps_tables<'a>(before: Checker<'a>, after: Checker<'a>, param: Parameter, r: Option<Ty>)
    requires
        before.param_read(&after, param, r),
    ensures
        before.same_tables(&after),
{
    let t = type_place(before.source, param.chain@, 0);
    let n = param.chain@.len() as int;
    if !(t + 1 < n) && change_said(before.source, param.chain@) && t != n {
        let (mid, e) = choose|mid: Checker<'a>, e: Option<Ty>|
            #[trigger] before.type_linked(&mid, param.chain@[t], e) && mid.arrayed_to(
                &after,
                e,
                arr_links(before.source, param.chain@),
                param.shape@,
                param.shape_span,
                r,
            );
    }
}

impl<'a> Checker<'a> {
    /// Whether `after` is this with only some errors more.
    pub open spec fn with_said(&self, after: &Checker<'a>, more: Seq<DiagnosticView>) -> bool {
        &&& self.same_tables(after)
        &&& after.body == self.body
        &&& after.hole == self.hole
        &&& said(after.errors@) == said(self.errors@) + more
    }

    /// What reading what a function gives back does: see [`Checker::gives_back`].
    pub open spec fn answer_read(
        &self,
        after: &Checker<'a>,
        chain: Seq<Span>,
        shape: Seq<Span>,
        shape_span: Option<Span>,
        r: Option<Option<Ty>>,
    ) -> bool {
        let source = self.source;
        let rest = chain.skip(1);
        let n = rest.len() as int;
        let t = answer_place(source, rest, 0);
        let arrays = arr_links(source, rest.take(t));
        let late = late_said(source, rest.skip(t + 1));
        if t == n {
            &&& r is None
            &&& if arrays.len() > 0 {
                self.with_said(after, Seq::empty())
            } else {
                self.with_said(
                    after,
                    seq![
                        pointed(
                            "E0464"@,
                            "this function does not say what it gives back."@,
                            chain.last(),
                            "the chain ends here"@,
                            "a function always says what it answers with, and `nothing` is one of the answers"@,
                            seq![
                                "`nothing` is a real link, not an omission -- a reader should not have to read the body to find out."@,
                            ],
                            "`fn.<visibility>.nothing [...]` if it gives nothing back"@,
                        ),
                    ],
                )
            }
        } else if text_at(source, rest[t]) == "nothing"@ {
            &&& self.with_said(after, late)
            &&& r == if arrays.len() > 0 {
                None
            } else {
                Some(None::<Ty>)
            }
        } else {
            exists|mid: Checker<'a>, e: Option<Ty>|
                #[trigger] self.type_linked(&mid, rest[t], e) && if e is None {
                    *after == mid && r is None
                } else {
                    exists|pre: Checker<'a>|
                        #[trigger] mid.with_said(&pre, late) && pre.arrayed_to(
                            after,
                            e,
                            arrays,
                            shape,
                            shape_span,
                            match r {
                                Some(x) => x,
                                None => None,
                            },
                        ) && (r matches Some(x) ==> x is Some)
                }
        }
    }

    /// What a function gives back, from the links of its chain after the first and the
    /// shape after it: `nothing`, or a type with its `arr` links round it.
    ///
    /// Visibilities are someone else's business here. `arr` links come first; the first
    /// other link is the answer, read as [`Checker::a_type`] reads it unless it is
    /// `nothing`; every link after it that is no visibility is E0463; the array round it
    /// is read as [`Checker::arrayed`] reads it; and a chain with no answer is E0464.
    /// Nothing back is a refusal, reported already, and the reading stops.
    #[verifier::rlimit(40)]
    pub fn gives_back(&mut self, chain: &[Span], shape: &[Span], shape_span: Option<Span>) -> (r: Option<Option<Ty>>)
        requires
            chain@.len() >= 1,
            forall|i: int| 0 <= i < chain@.len() ==> cuts(old(self).source, #[trigger] chain@[i]),
            forall|i: int| 0 <= i < shape@.len() ==> cuts(old(self).source, #[trigger] shape@[i]),
        ensures
            old(self).answer_read(&*final(self), chain@, shape@, shape_span, r),
    {
        let ghost source = self.source;
        let ghost rest = chain@.skip(1);
        let ghost t = answer_place(source, rest, 0);
        proof {
            lemma_answer_place_bounds(source, rest, 0);
            lemma_arr_is_no_visibility();
        }
        let ghost mut mid: Checker<'a> = *self;
        let mut answer: Option<Ty> = None;
        let mut said_it = false;
        let mut arrays: Vec<Span> = Vec::new();
        let mut ty_span = chain[0];
        let mut i: usize = 1;
        assert(rest.take(0) =~= Seq::<Span>::empty());
        while i < chain.len()
            invariant
                1 <= i <= chain@.len(),
                rest == chain@.skip(1),
                self.source == source,
                0 <= t <= rest.len(),
                t == answer_place(source, rest, 0),
                t < rest.len() ==> {
                    let w = text_at(source, rest[t]);
                    visibility_named(w) is None && w != "arr"@
                },
                forall|k: int|
                    0 <= k < t ==> visibility_named(#[trigger] text_at(source, rest[k])) is Some || text_at(
                        source,
                        rest[k],
                    ) == "arr"@,
                forall|k: int| 0 <= k < chain@.len() ==> cuts(source, #[trigger] chain@[k]),
                said_it == (i - 1 > t),
                i - 1 <= t ==> {
                    &&& *self == *old(self)
                    &&& answer is None
                    &&& arrays@ == arr_links(source, rest.take(i - 1))
                },
                i - 1 > t ==> {
                    &&& ty_span == rest[t]
                    &&& arrays@ == arr_links(source, rest.take(t))
                    &&& mid.with_said(&*self, late_said(source, rest.subrange(t + 1, i - 1)))
                    &&& if text_at(source, rest[t]) == "nothing"@ {
                        mid == *old(self) && answer is None
                    } else {
                        old(self).type_linked(&mid, rest[t], answer) && answer is Some
                    }
                },
            decreases chain.len() - i,
        {
            let link = chain[i];
            let word = self.text(link);
            let ghost prev = self.errors@;
            proof {
                reveal_strlit("arr");
                lemma_arr_is_no_visibility();
                assert(rest[i - 1] == link);
                let next = rest.take(i as int);
                assert(next.drop_last() =~= rest.take(i - 1));
                assert(next.last() == link);
                assert(arr_links(source, next) == if word@ == "arr"@ {
                    arr_links(source, rest.take(i - 1)).push(link)
                } else {
                    arr_links(source, rest.take(i - 1))
                });
                if i - 1 > t {
                    let late = rest.subrange(t + 1, i as int);
                    assert(late.drop_last() =~= rest.subrange(t + 1, i - 1));
                    assert(late.last() == link);
                }
            }
            if Visibility::from_word(word).is_some() {
            } else if same_str(word, "arr") && !said_it {
                arrays.push(link);
            } else if said_it {
                let mut message = String::from_str("`");
                message.append(word);
                message.append("` comes after what the function gives back.");
                self.errors.push(
                    Diagnostic::new("E0463", message.as_str())
                        .primary(link, "here")
                        .rule("the last link of a function's chain is what it answers with")
                        .fix("move it before, or remove it"),
                );
                proof {
                    assert(said(self.errors@) =~= said(prev).push(self.errors@.last()@));
                }
            } else {
                said_it = true;
                ty_span = link;
                proof {
                    assert(i - 1 == t);
                    assert(rest.subrange(t + 1, i as int) =~= Seq::<Span>::empty());
                    assert(arrays@ == arr_links(source, rest.take(t)));
                }
                if !same_str(word, "nothing") {
                    match self.a_type(link) {
                        Some(ty) => {
                            answer = Some(ty);
                        },
                        None => {
                            proof {
                                assert(old(self).type_linked(&*self, rest[t], None::<Ty>));
                            }
                            return None;
                        },
                    }
                }
                proof {
                    mid = *self;
                }
            }
            i = i + 1;
        }
        proof {
            assert(rest.take(rest.len() as int) =~= rest);
            if t < rest.len() {
                assert(rest.subrange(t + 1, rest.len() as int) =~= rest.skip(t + 1));
            }
        }
        let ghost pre: Checker<'a> = *self;
        if answer.is_some() || arrays.len() > 0 {
            match self.arrayed(answer, ty_span, arrays.as_slice(), shape, shape_span) {
                Some(ty) => {
                    answer = Some(ty);
                },
                None => {
                    proof {
                        if t < rest.len() && text_at(source, rest[t]) != "nothing"@ {
                            assert(mid.with_said(&pre, late_said(source, rest.skip(t + 1))));
                        }
                    }
                    return None;
                },
            }
        }
        if !said_it {
            let ghost before = self.errors@;
            let last = chain[chain.len() - 1];
            self.errors.push(
                Diagnostic::new("E0464", "this function does not say what it gives back.")
                    .primary(last, "the chain ends here")
                    .rule("a function always says what it answers with, and `nothing` is one of the answers")
                    .tip("`nothing` is a real link, not an omission -- a reader should not have to read the body to find out.")
                    .fix("`fn.<visibility>.nothing [...]` if it gives nothing back"),
            );
            proof {
                assert(said(self.errors@) =~= said(before).push(self.errors@.last()@));
                assert(said(self.errors@) =~= said(old(self).errors@) + seq![
                    pointed(
                        "E0464"@,
                        "this function does not say what it gives back."@,
                        chain@.last(),
                        "the chain ends here"@,
                        "a function always says what it answers with, and `nothing` is one of the answers"@,
                        seq![
                            "`nothing` is a real link, not an omission -- a reader should not have to read the body to find out."@,
                        ],
                        "`fn.<visibility>.nothing [...]` if it gives nothing back"@,
                    ),
                ]);
            }
            return None;
        }
        proof {
            if text_at(source, rest[t]) != "nothing"@ {
                assert(mid.with_said(&pre, late_said(source, rest.skip(t + 1))));
            }
        }
        Some(answer)
    }

    /// What reading a parameter's chain does: see [`Checker::parameter_ty`].
    pub open spec fn param_read(&self, after: &Checker<'a>, param: Parameter, r: Option<Ty>) -> bool {
        let source = self.source;
        let t = type_place(source, param.chain@, 0);
        let n = param.chain@.len() as int;
        if t + 1 < n {
            &&& r is None
            &&& self.same_tables(after)
            &&& after.body == self.body
            &&& after.hole == self.hole
            &&& after.errors@.len() == self.errors@.len() + 1
            &&& after.errors@.drop_last() == self.errors@
            &&& after.errors@.last().code@ == "E0403"@
            &&& after.errors@.last().message@ == "`"@ + text_at(source, param.chain@[t + 1])
                + "` comes after the type."@
            &&& after.errors@.last()@ == pointed(
                "E0403"@,
                "`"@ + text_at(source, param.chain@[t + 1]) + "` comes after the type."@,
                param.chain@[t + 1],
                "here"@,
                "the type is the last link of a parameter's chain"@,
                Seq::empty(),
                "move it before the type, or remove it"@,
            )
        } else if !change_said(source, param.chain@) {
            &&& r is None
            &&& self.same_tables(after)
            &&& after.body == self.body
            &&& after.hole == self.hole
            &&& after.errors@.len() == self.errors@.len() + 1
            &&& after.errors@.drop_last() == self.errors@
            &&& after.errors@.last().code@ == "E0465"@
            &&& after.errors@.last().message@ == "this parameter does not say whether it can change."@
            &&& after.errors@.last()@ == pointed(
                "E0465"@,
                "this parameter does not say whether it can change."@,
                param.span,
                "here"@,
                "a parameter is a variable, and a variable says `mut` or `immut`"@,
                seq!["`immut` is nearly always the one, and saying so is the point."@],
                "`immut."@ + text_at(source, if n > 0 { param.chain@.last() } else { param.span }) + "`"@,
            )
        } else if t == n {
            &&& r is None
            &&& self.same_tables(after)
            &&& after.body == self.body
            &&& after.hole == self.hole
            &&& after.errors == self.errors
        } else {
            exists|mid: Checker<'a>, e: Option<Ty>|
                #[trigger] self.type_linked(&mid, param.chain@[t], e) && mid.arrayed_to(
                    after,
                    e,
                    arr_links(source, param.chain@),
                    param.shape@,
                    param.shape_span,
                    r,
                )
        }
    }

    /// A parameter's type, from its chain and shape: the same links a `var` carries.
    ///
    /// `mut` or `immut`, then `arr` links, then the type, which is the last link: one
    /// after it is E0403, and a chain that never says whether it can change is E0465.
    /// A chain with no type at all gives nothing and says nothing. The type is read as
    /// [`Checker::a_type`] reads it, and the array round it as [`Checker::arrayed`] does.
    pub fn parameter_ty(&mut self, param: &Parameter) -> (r: Option<Ty>)
        requires
            forall|i: int| 0 <= i < param.chain@.len() ==> cuts(old(self).source, #[trigger] param.chain@[i]),
            cuts(old(self).source, param.span),
            forall|i: int| 0 <= i < param.shape@.len() ==> cuts(old(self).source, #[trigger] param.shape@[i]),
        ensures
            old(self).param_read(&*final(self), *param, r),
    {
        let chain = param.chain.as_slice();
        let span = param.span;
        let shape = param.shape.as_slice();
        let shape_span = param.shape_span;
        let ghost source = self.source;
        let ghost t = type_place(source, chain@, 0);
        proof {
            lemma_type_place_bounds(source, chain@, 0);
        }
        let mut mutable = false;
        let mut ty_span: Option<Span> = None;
        let mut arrays: Vec<Span> = Vec::new();
        let mut i: usize = 0;
        assert(chain@.take(0) =~= Seq::<Span>::empty());
        while i < chain.len()
            invariant
                i <= chain@.len(),
                chain@ == param.chain@,
                self.source == source,
                *self == *old(self),
                0 <= t <= chain@.len(),
                t == type_place(source, chain@, 0),
                t < chain@.len() ==> {
                    let w = text_at(source, chain@[t]);
                    !says_change(w) && w != "arr"@
                },
                forall|k: int| 0 <= k < t ==> says_change(#[trigger] text_at(source, chain@[k]))
                    || text_at(source, chain@[k]) == "arr"@,
                forall|k: int| 0 <= k < chain@.len() ==> cuts(source, #[trigger] chain@[k]),
                ty_span is None ==> i <= t,
                ty_span matches Some(s) ==> i == t + 1 && s == chain@[t],
                mutable == exists|k: int| 0 <= k < i && says_change(#[trigger] text_at(source, chain@[k])),
                arrays@ == arr_links(source, chain@.take(i as int)),
            decreases chain.len() - i,
        {
            let link = chain[i];
            let word = self.text(link);
            proof {
                reveal_strlit("mut");
                reveal_strlit("immut");
                reveal_strlit("arr");
                let next = chain@.take(i + 1);
                assert(next.drop_last() =~= chain@.take(i as int));
                assert(next.last() == chain@[i as int]);
                assert(arr_links(source, next) == if word@ == "arr"@ {
                    arr_links(source, chain@.take(i as int)).push(link)
                } else {
                    arr_links(source, chain@.take(i as int))
                });
            }
            if ty_span.is_none() && (same_str(word, "mut") || same_str(word, "immut")) {
                mutable = true;
            } else if ty_span.is_none() && same_str(word, "arr") {
                arrays.push(link);
            } else {
                if ty_span.is_some() {
                    let mut message = String::from_str("`");
                    message.append(word);
                    message.append("` comes after the type.");
                    self.errors.push(
                        Diagnostic::new("E0403", message.as_str())
                            .primary(link, "here")
                            .rule("the type is the last link of a parameter's chain")
                            .fix("move it before the type, or remove it"),
                    );
                    proof {
                        assert(self.errors@.drop_last() =~= old(self).errors@);
                    }
                    return None;
                }
                ty_span = Some(link);
            }
            i = i + 1;
        }
        assert(chain@.take(chain@.len() as int) =~= chain@);
        if !mutable {
            let last = if chain.len() > 0 {
                chain[chain.len() - 1]
            } else {
                span
            };
            let mut fix = String::from_str("`immut.");
            fix.append(self.text(last));
            fix.append("`");
            self.errors.push(
                Diagnostic::new("E0465", "this parameter does not say whether it can change.")
                    .primary(span, "here")
                    .rule("a parameter is a variable, and a variable says `mut` or `immut`")
                    .tip("`immut` is nearly always the one, and saying so is the point.")
                    .fix(fix.as_str()),
            );
            proof {
                assert(self.errors@.drop_last() =~= old(self).errors@);
            }
            return None;
        }
        let ty_span = match ty_span {
            Some(s) => s,
            None => {
                return None;
            },
        };
        let element = self.a_type(ty_span);
        let ghost mid: Checker<'a> = *self;
        let r = self.arrayed(element, ty_span, arrays.as_slice(), shape, shape_span);
        proof {
            assert(old(self).type_linked(&mid, chain@[t], element));
        }
        r
    }
    /// A declaration's chain: whether it can change, its type, and where the type is.
    ///
    /// The first link is the word that declares and is not read. At the top of a file
    /// what is declared is a constant, which never changes and does not have to say so;
    /// elsewhere a chain that never says is E0444. A chain with no type is E0404. The
    /// errors [`chain_step`] finds along the way are all reported, and only a link that is
    /// no type stops the reading. The type is read as [`Checker::a_type`] reads it, and an
    /// array round it, where there are `arr` links or a shape, as [`Checker::arrayed`] does;
    /// what that refuses gives nothing.
    pub fn chain(&mut self, links: &[Span], shape: &[Span], shape_span: Option<Span>) -> (r: Option<Chain>)
        requires
            links@.len() >= 1,
            forall|i: int| 0 <= i < links@.len() ==> cuts(old(self).source, #[trigger] links@[i]),
            forall|i: int| 0 <= i < shape@.len() ==> cuts(old(self).source, #[trigger] shape@[i]),
        ensures
            ({
                let st = chain_read(old(self).source, old(self).at_top, links@.skip(1));
                let mutable = if old(self).at_top && st.mutable is None {
                    Some((false, links@[0]))
                } else {
                    st.mutable
                };
                let changes = match mutable {
                    Some(m) => m.0,
                    None => false,
                };
                let plain = st.arrays.len() == 0 && shape_span is None;
                let before = said(old(self).errors@) + st.said;
                if st.stopped {
                    &&& r is None
                    &&& old(self).same_tables(&*final(self))
                    &&& final(self).body == old(self).body
                    &&& final(self).hole == old(self).hole
                    &&& said(final(self).errors@) == before
                } else if mutable is None {
                    &&& r is None
                    &&& old(self).same_tables(&*final(self))
                    &&& final(self).body == old(self).body
                    &&& final(self).hole == old(self).hole
                    &&& said(final(self).errors@) == before.push(
                        pointed(
                            "E0444"@,
                            "this declaration does not say whether it can change."@,
                            links@[0],
                            "here"@,
                            "a declaration says `mut` or `immut`, and silence is not one of them"@,
                            seq!["it goes between `var` and the type, where visibility goes on the things that have it."@],
                            "`var.immut.<type>` if it never changes, `var.mut.<type>` if it does"@,
                        ),
                    )
                } else if st.ty_span is None {
                    &&& r is None
                    &&& old(self).same_tables(&*final(self))
                    &&& final(self).body == old(self).body
                    &&& final(self).hole == old(self).hole
                    &&& said(final(self).errors@) == before.push(
                        pointed(
                            "E0404"@,
                            "this declaration does not say what it is declaring."@,
                            links@[0],
                            "the chain ends here"@,
                            "a declaration always says its type, because a written value means nothing without one"@,
                            Seq::empty(),
                            "`var.str [...]`, or whichever type was meant"@,
                        ),
                    )
                } else {
                    exists|pre: Checker<'a>, mid: Checker<'a>, e: Option<Ty>|
                        #[trigger] pre.type_linked(&mid, st.ty_span->0, e)
                        && old(self).same_tables(&pre) && pre.body == old(self).body && pre.hole == old(self).hole
                        && said(pre.errors@) == before && if plain {
                            *final(self) == mid && r == Some(Chain { mutable: changes, ty: e, ty_span: st.ty_span->0 })
                        } else {
                            &&& mid.arrayed_to(
                                &*final(self),
                                e,
                                st.arrays,
                                shape@,
                                shape_span,
                                match r {
                                    Some(c) => c.ty,
                                    None => None,
                                },
                            )
                            &&& r matches Some(c) ==> c.mutable == changes && c.ty_span == st.ty_span->0 && c.ty is Some
                        }
                }
            }),
    {
        let ghost source = self.source;
        let ghost at_top = self.at_top;
        let ghost rest = links@.skip(1);
        let mut mutable: Option<(bool, Span)> = None;
        let mut ty_span: Option<Span> = None;
        let mut arrays: Vec<Span> = Vec::new();
        let mut i: usize = 1;
        assert(rest.take(0) =~= Seq::<Span>::empty());
        while i < links.len()
            invariant
                1 <= i <= links@.len(),
                rest == links@.skip(1),
                self.source == source,
                self.at_top == at_top,
                old(self).same_tables(&*self),
                self.body == old(self).body,
                self.hole == old(self).hole,
                forall|k: int| 0 <= k < links@.len() ==> cuts(source, #[trigger] links@[k]),
                !chain_read(source, at_top, rest.take(i - 1)).stopped,
                mutable == chain_read(source, at_top, rest.take(i - 1)).mutable,
                ty_span == chain_read(source, at_top, rest.take(i - 1)).ty_span,
                arrays@ == chain_read(source, at_top, rest.take(i - 1)).arrays,
                said(self.errors@) == said(old(self).errors@) + chain_read(source, at_top, rest.take(i - 1)).said,
                mutable matches Some(m) ==> cuts(source, m.1),
                ty_span matches Some(t) ==> cuts(source, t),
            decreases links.len() - i,
        {
            let link = links[i];
            let word = self.text(link);
            let ghost prev = self.errors@;
            let ghost st = chain_read(source, at_top, rest.take(i - 1));
            proof {
                assert(rest.take(i as int).drop_last() =~= rest.take(i - 1));
                assert(rest.take(i as int).last() == link);
            }
            let change = same_str(word, "mut") || same_str(word, "immut");
            if self.at_top && Visibility::from_word(word).is_some() {
            } else if change && self.at_top {
                let mut message = String::from_str("a constant never changes, so `");
                message.append(word);
                message.append("` says nothing.");
                self.errors.push(
                    Diagnostic::new("E0473", message.as_str())
                        .primary(link, "here")
                        .rule("`const` is the answer to whether it changes, which is why it is a different word from `var`")
                        .tip("a variable that never changes is `var.immut`, inside a function.")
                        .fix("remove it"),
                );
                proof {
                    assert(said(self.errors@) =~= said(prev).push(self.errors@.last()@));
                }
            } else if change && mutable.is_none() && ty_span.is_none() {
                mutable = Some((same_str(word, "mut"), link));
            } else if change && ty_span.is_some() {
                let mut message = String::from_str("`");
                message.append(word);
                message.append("` comes before the type.");
                let mut fix = String::from_str("`var.");
                fix.append(word);
                fix.append(".<type>`");
                self.errors.push(
                    Diagnostic::new("E0401", message.as_str())
                        .primary(link, "here")
                        .rule("a chain reads `var`, then whether it changes, then what it is")
                        .fix(fix.as_str()),
                );
                proof {
                    assert(said(self.errors@) =~= said(prev).push(self.errors@.last()@));
                }
            } else if change {
                let first = match mutable {
                    Some(m) => m.1,
                    None => link,
                };
                let mut first_note = String::from_str("`");
                first_note.append(self.text(first));
                first_note.append("` here");
                let mut note = String::from_str("and `");
                note.append(word);
                note.append("` here");
                let d = Diagnostic::new("E0443", "this says twice whether it can change.")
                    .secondary(first, first_note.as_str())
                    .primary(link, note.as_str())
                    .rule("a declaration says `mut` or `immut`, once")
                    .fix("keep the one that was meant");
                let ghost dv = d@;
                self.errors.push(d);
                proof {
                    assert(dv.labels == seq![
                        (first, first_note@, LabelStyle::Secondary),
                        (link, note@, LabelStyle::Primary),
                    ]);
                    assert(first == first_change(st, link));
                    assert(said(self.errors@) =~= said(prev).push(self.errors@.last()@));
                }
            } else if same_str(word, "arr") && ty_span.is_none() {
                arrays.push(link);
            } else if ty_span.is_none() {
                if Ty::simple(word).is_none() && Hole::from_word(word).is_none() {
                    let mut message = String::from_str("`");
                    message.append(word);
                    message.append("` is not a type.");
                    self.errors.push(
                        Diagnostic::new("E0402", message.as_str())
                            .primary(link, "here")
                            .rule("a declaration's chain ends with the type of what it declares")
                            .tip("the types are the numbers, `e`, `bool` and `str`.")
                            .fix("check the spelling"),
                    );
                    proof {
                        assert(said(self.errors@) =~= said(prev).push(self.errors@.last()@));
                        lemma_stopped_stays(source, at_top, rest, i as int, rest.len() as int);
                        assert(rest.take(rest.len() as int) =~= rest);
                    }
                    return None;
                }
                ty_span = Some(link);
            } else {
                let mut message = String::from_str("`");
                message.append(word);
                message.append("` comes after the type.");
                self.errors.push(
                    Diagnostic::new("E0403", message.as_str())
                        .primary(link, "here")
                        .rule("the type is the last link in a declaration's chain")
                        .fix("move it before the type, or remove it"),
                );
                proof {
                    assert(said(self.errors@) =~= said(prev).push(self.errors@.last()@));
                }
            }
            i = i + 1;
        }
        proof {
            assert(rest.take(i - 1) =~= rest);
        }
        if self.at_top && mutable.is_none() {
            mutable = Some((false, links[0]));
        }
        let mutable = match mutable {
            Some(m) => m.0,
            None => {
                let ghost prev = self.errors@;
                self.errors.push(
                    Diagnostic::new("E0444", "this declaration does not say whether it can change.")
                        .primary(links[0], "here")
                        .rule("a declaration says `mut` or `immut`, and silence is not one of them")
                        .tip("it goes between `var` and the type, where visibility goes on the things that have it.")
                        .fix("`var.immut.<type>` if it never changes, `var.mut.<type>` if it does"),
                );
                proof {
                    assert(said(self.errors@) =~= said(prev).push(self.errors@.last()@));
                }
                return None;
            },
        };
        let ty_span = match ty_span {
            Some(t) => t,
            None => {
                let ghost prev = self.errors@;
                self.errors.push(
                    Diagnostic::new("E0404", "this declaration does not say what it is declaring.")
                        .primary(links[0], "the chain ends here")
                        .rule("a declaration always says its type, because a written value means nothing without one")
                        .fix("`var.str [...]`, or whichever type was meant"),
                );
                proof {
                    assert(said(self.errors@) =~= said(prev).push(self.errors@.last()@));
                }
                return None;
            },
        };
        let ghost pre: Checker<'a> = *self;
        let mut ty = self.a_type(ty_span);
        let ghost mid: Checker<'a> = *self;
        let ghost e = ty;
        if arrays.len() > 0 || shape_span.is_some() {
            let a = self.arrayed(ty, ty_span, arrays.as_slice(), shape, shape_span);
            proof {
                assert(pre.type_linked(&mid, ty_span, e));
            }
            match a {
                Some(t) => {
                    ty = Some(t);
                },
                None => {
                    return None;
                },
            }
        } else {
            proof {
                assert(pre.type_linked(&mid, ty_span, e));
            }
        }
        Some(Chain { mutable, ty, ty_span })
    }

    /// What reading a function's parameters does: see [`Checker::parameters`].
    pub open spec fn params_read(&self, after: &Checker<'a>, params: Seq<Parameter>, r: Option<Vec<Ty>>) -> bool {
        exists|states: Seq<Checker<'a>>, got: Seq<Option<Ty>>|
            #[trigger] in_turn(states, got, params) && states[0] == *self && states.last() == *after && if forall|k: int|
                0 <= k < got.len() ==> (#[trigger] got[k]) is Some {
                r matches Some(v) && v@.len() == got.len() && forall|k: int|
                    0 <= k < got.len() ==> Some(#[trigger] v@[k]) == got[k]
            } else {
                r is None
            }
    }

    /// Every parameter's type, each read in turn as [`Checker::parameter_ty`] reads it;
    /// nothing if any of them gave nothing, once all of them have been read.
    pub fn parameters(&mut self, params: &[Parameter]) -> (r: Option<Vec<Ty>>)
        requires
            forall|p: int| #![trigger params@[p]]
                0 <= p < params@.len() ==> {
                    &&& forall|i: int|
                        0 <= i < params@[p].chain@.len() ==> cuts(old(self).source, #[trigger] params@[p].chain@[i])
                    &&& cuts(old(self).source, params@[p].span)
                    &&& forall|i: int|
                        0 <= i < params@[p].shape@.len() ==> cuts(old(self).source, #[trigger] params@[p].shape@[i])
                },
        ensures
            old(self).params_read(&*final(self), params@, r),
    {
        let ghost mut states: Seq<Checker<'a>> = seq![*self];
        let ghost mut got: Seq<Option<Ty>> = Seq::empty();
        let mut takes: Vec<Ty> = Vec::new();
        let mut ok = true;
        let mut i: usize = 0;
        while i < params.len()
            invariant
                i <= params@.len(),
                self.source == old(self).source,
                states.len() == i + 1,
                got.len() == i,
                states[0] == *old(self),
                states.last() == *self,
                forall|k: int|
                    #![trigger got[k]]
                    0 <= k < i ==> states[k].param_read(&states[k + 1], params@[k], got[k]),
                ok == forall|k: int| 0 <= k < i ==> (#[trigger] got[k]) is Some,
                ok ==> takes@.len() == i && forall|k: int| 0 <= k < i ==> Some(#[trigger] takes@[k]) == got[k],
                forall|p: int| #![trigger params@[p]]
                    0 <= p < params@.len() ==> {
                        &&& forall|j: int|
                            0 <= j < params@[p].chain@.len() ==> cuts(old(self).source, #[trigger] params@[p].chain@[j])
                        &&& cuts(old(self).source, params@[p].span)
                        &&& forall|j: int|
                            0 <= j < params@[p].shape@.len() ==> cuts(old(self).source, #[trigger] params@[p].shape@[j])
                    },
            decreases params.len() - i,
        {
            let ghost before: Checker<'a> = *self;
            let ghost param = params@[i as int];
            let ghost old_states = states;
            let ghost old_got = got;
            let ghost was_ok = ok;
            let t = self.parameter_ty(&params[i]);
            proof {
                assert(before.param_read(&*self, param, t));
                lemma_param_read_keeps_tables(before, *self, param, t);
                states = states.push(*self);
                got = got.push(t);
                assert(got[i as int] == t);
                assert forall|k: int| 0 <= k < i implies #[trigger] got[k] == old_got[k] by {}
                assert forall|k: int|
                    #![trigger got[k]]
                    0 <= k < i + 1 implies states[k].param_read(&states[k + 1], params@[k], got[k]) by {
                    if k < i {
                        assert(got[k] == old_got[k]);
                        assert(states[k] == old_states[k] && states[k + 1] == old_states[k + 1]);
                    }
                }
            }
            match t {
                Some(ty) => {
                    if ok {
                        takes.push(ty);
                    }
                },
                None => {
                    ok = false;
                },
            }
            proof {
                if !ok {
                    if t is None {
                        assert(got[i as int] is None);
                    } else {
                        assert(!was_ok);
                        let k0 = choose|k: int| 0 <= k < i && !((#[trigger] old_got[k]) is Some);
                        assert(got[k0] == old_got[k0]);
                    }
                }
            }
            i = i + 1;
        }
        proof {
            assert(in_turn(states, got, params@));
        }
        if ok {
            Some(takes)
        } else {
            None
        }
    }

    /// Whether everything but the functions declared is as it was.
    pub open spec fn same_but_functions(&self, other: &Checker<'a>) -> bool {
        &&& self.source == other.source
        &&& self.locals == other.locals
        &&& self.scope == other.scope
        &&& self.depth == other.depth
        &&& self.constants == other.constants
        &&& self.known == other.known
        &&& self.at_file == other.at_file
        &&& self.imports == other.imports
        &&& self.at_module == other.at_module
        &&& self.modules == other.modules
        &&& self.opening == other.opening
        &&& self.at_top == other.at_top
        &&& self.libraries == other.libraries
        &&& self.body == other.body
        &&& self.hole == other.hole
        &&& self.errors == other.errors
    }

    /// Whether everything but the hole and whether a signature is being read is as it was.
    pub open spec fn same_but_opening(&self, other: &Checker<'a>) -> bool {
        &&& self.source == other.source
        &&& self.locals == other.locals
        &&& self.scope == other.scope
        &&& self.depth == other.depth
        &&& self.signatures == other.signatures
        &&& self.named == other.named
        &&& self.constants == other.constants
        &&& self.known == other.known
        &&& self.at_file == other.at_file
        &&& self.imports == other.imports
        &&& self.at_module == other.at_module
        &&& self.modules == other.modules
        &&& self.at_top == other.at_top
        &&& self.libraries == other.libraries
        &&& self.body == other.body
        &&& self.errors == other.errors
    }

    /// Whether `after` is this with one more function declared under `key`: its
    /// signature at the end of the list, said as `name`, declared here, seen by `v`,
    /// giving back `answer`, opening the hole there is now, and taking `takes`.
    pub open spec fn signs(
        &self,
        after: &Checker<'a>,
        key: Seq<char>,
        name: Seq<char>,
        v: Option<Visibility>,
        answer: Option<Ty>,
        takes: Seq<Ty>,
        at: Span,
        list: Span,
    ) -> bool {
        let sig = after.signatures@.last();
        &&& self.same_but_functions(after)
        &&& after.signatures@.len() == self.signatures@.len() + 1
        &&& after.signatures@.drop_last() == self.signatures@
        &&& sig.said@ == name
        &&& sig.in_file@ == self.at_file@
        &&& texts(sig.in_module@) == texts(self.at_module@)
        &&& sig.visibility == v
        &&& sig.returns == answer
        &&& sig.hole == self.hole
        &&& sig.takes@ == takes
        &&& sig.at == at
        &&& sig.list == list
        &&& after.named@.len() == self.named@.len() + 1
        &&& after.named@.drop_last() == self.named@
        &&& after.named@.last().0@ == key
        &&& after.named@.last().1 == self.signatures@.len()
    }

    /// What reading a function's heading does: see [`Checker::read_signature`].
    pub open spec fn signed(&self, after: &Checker<'a>, func: Heading) -> bool {
        let name = name_at(self.source, func.name);
        let key = qualified_view(self.at_file@, texts(self.at_module@), name);
        exists|s1: Checker<'a>, v: Option<Visibility>|
            #[trigger] self.seen_as(&s1, func.chain@, func.chain@[0], "function"@, v) && if entry_of(self.named@, key) is Some {
                s1.with_said(after, seq![twice_declared(self.signatures@[entry_of(self.named@, key)->0 as int].at, func.name, name)])
            } else {
                exists|s2: Checker<'a>, ret: Option<Option<Ty>>|
                    #[trigger] s1.answer_read(&s2, func.chain@, func.shape@, func.shape_span, ret) && match ret {
                        None => *after == s2,
                        Some(answer) => exists|s3: Checker<'a>, takes: Option<Vec<Ty>>|
                            #[trigger] s2.params_read(&s3, func.params@, takes) && match takes {
                                None => *after == s3,
                                Some(list) => s3.signs(
                                    after,
                                    key,
                                    name,
                                    v,
                                    answer,
                                    list@,
                                    func.name,
                                    func.takes,
                                ),
                            },
                    }
            }
    }

    /// A function's heading, read before any body so that a call can come before what it
    /// calls: its key is the file, the modules and the name.
    ///
    /// Who may see it is read as [`Checker::seen_by`] reads it, and a key already
    /// declared is E0461. Then what it gives back, as [`Checker::gives_back`] reads it,
    /// and its parameters, as [`Checker::parameters`] reads them; where either gives
    /// nothing the reading stops. Otherwise the signature goes on the end of the list and
    /// the key names its place.
    pub fn read_signature(&mut self, func: &Heading)
        requires
            func.chain@.len() >= 1,
            reads_as_name(old(self).source, func.name),
            heading_cuts(old(self).source, *func),
            old(self).signatures@.len() < u32::MAX,
            forall|i: int| 0 <= i < old(self).named@.len() ==> (#[trigger] old(self).named@[i]).1 < old(self).signatures@.len(),
        ensures
            old(self).signed(&*final(self), *func),
    {
        let name = self.named(func.name);
        let key = qualified(self.at_file.as_str(), self.at_module.as_slice(), self.at_module.len(), name.as_str());
        proof {
            assert(texts(self.at_module@).take(self.at_module@.len() as int) =~= texts(self.at_module@));
        }
        let word = func.chain[0];
        let visibility = self.seen_by(func.chain.as_slice(), word, "function");
        let ghost s1: Checker<'a> = *self;
        match find(&self.named, key.as_str()) {
            Some(first) => {
                proof {
                    lemma_entry_below(self.named@, key@, self.signatures@.len() as int);
                }
                let at = self.signatures[*first as usize].at;
                let ghost before = self.errors@;
                let mut message = String::from_str("`'");
                message.append(name.as_str());
                message.append("'` is declared twice.");
                let d = Diagnostic::new("E0461", message.as_str())
                    .secondary(at, "declared here first")
                    .primary(func.name, "and declared again here")
                    .rule("one name means one thing, and two functions of a name means neither does")
                    .fix("rename one of them");
                let ghost dv = d@;
                self.errors.push(d);
                proof {
                    assert(dv.labels == seq![
                        (at, "declared here first"@, LabelStyle::Secondary),
                        (func.name, "and declared again here"@, LabelStyle::Primary),
                    ]);
                    assert(dv == twice_declared(at, func.name, name@));
                    assert(said(self.errors@) =~= said(before) + seq![dv]);
                }
                return;
            },
            None => {},
        }
        let ret = self.gives_back(func.chain.as_slice(), func.shape.as_slice(), func.shape_span);
        let ghost s2: Checker<'a> = *self;
        proof {
            lemma_answer_read_keeps(s1, s2, func.chain@, func.shape@, func.shape_span, ret);
        }
        let ghost ret_got = ret;
        let answer = match ret {
            Some(a) => a,
            None => {
                return;
            },
        };
        let takes = self.parameters(func.params.as_slice());
        let ghost s3: Checker<'a> = *self;
        let ghost takes_got = takes;
        proof {
            lemma_params_read_keeps(s2, s3, func.params@, takes);
        }
        let takes = match takes {
            Some(t) => t,
            None => {
                return;
            },
        };
        let hole = self.hole;
        let place = self.signatures.len() as u32;
        let in_file = self.at_file.clone();
        let in_module = copy_names(&self.at_module);
        let ghost key_view = key@;
        let ghost name_view = name@;
        let ghost takes_view = takes@;
        self.named.push((key, place));
        self.signatures.push(
            Signature {
                said: name,
                in_file,
                in_module,
                visibility,
                returns: answer,
                hole,
                takes,
                at: func.name,
                list: func.takes,
            },
        );
        proof {
            assert(self.signatures@.drop_last() =~= s3.signatures@);
            assert(self.named@.drop_last() =~= s3.named@);
            assert(s3.signs(&*self, key_view, name_view, visibility, answer, takes_view, func.name, func.takes));
            assert(s2.params_read(&s3, func.params@, takes_got));
            assert(s1.answer_read(&s2, func.chain@, func.shape@, func.shape_span, ret_got));
        }
    }

    /// [`Checker::read_signature`], with the hole a signature may open closed before and
    /// after: the one place a hole word opens one rather than naming it.
    pub fn signature(&mut self, func: &Heading)
        requires
            func.chain@.len() >= 1,
            reads_as_name(old(self).source, func.name),
            heading_cuts(old(self).source, *func),
            old(self).signatures@.len() < u32::MAX,
            forall|i: int| 0 <= i < old(self).named@.len() ==> (#[trigger] old(self).named@[i]).1 < old(self).signatures@.len(),
        ensures
            exists|s0: Checker<'a>, s1: Checker<'a>|
                #[trigger] s0.signed(&s1, *func) && old(self).same_but_opening(&s0) && s0.opening && s0.hole is None && s1.same_but_opening(
                    &*final(self),
                ) && !final(self).opening && final(self).hole is None,
    {
        self.hole = None;
        self.opening = true;
        let ghost s0: Checker<'a> = *self;
        self.read_signature(func);
        let ghost s1: Checker<'a> = *self;
        self.opening = false;
        self.hole = None;
        proof {
            assert(s0.signed(&s1, *func));
        }
    }
}


/// A function is declared once: where one heading was read into a signature, the next
/// heading read with the same name in the same place is E0461, and adds no signature.
pub proof fn law_a_name_is_declared_once<'a>(
    c0: Checker<'a>,
    c1: Checker<'a>,
    c2: Checker<'a>,
    f: Heading,
    g: Heading,
)
    requires
        c0.signed(&c1, f),
        c1.signatures@.len() == c0.signatures@.len() + 1,
        c1.signed(&c2, g),
        name_at(c1.source, g.name) == name_at(c0.source, f.name),
    ensures
        c2.signatures == c1.signatures,
        said(c2.errors@).last().code == "E0461"@,
        said(c2.errors@).last().message == "`'"@ + name_at(c0.source, f.name) + "'` is declared twice."@,
{
    let name = name_at(c0.source, f.name);
    let key = qualified_view(c0.at_file@, texts(c0.at_module@), name);
    let (s1, v) = choose|s1: Checker<'a>, v: Option<Visibility>|
        #[trigger] c0.seen_as(&s1, f.chain@, f.chain@[0], "function"@, v) && if entry_of(c0.named@, key) is Some {
            s1.with_said(&c1, seq![twice_declared(c0.signatures@[entry_of(c0.named@, key)->0 as int].at, f.name, name)])
        } else {
            exists|s2: Checker<'a>, ret: Option<Option<Ty>>|
                #[trigger] s1.answer_read(&s2, f.chain@, f.shape@, f.shape_span, ret) && match ret {
                    None => c1 == s2,
                    Some(answer) => exists|s3: Checker<'a>, takes: Option<Vec<Ty>>|
                        #[trigger] s2.params_read(&s3, f.params@, takes) && match takes {
                            None => c1 == s3,
                            Some(list) => s3.signs(&c1, key, name, v, answer, list@, f.name, f.takes),
                        },
                }
        };
    assert(entry_of(c0.named@, key) is None);
    let (s2, ret) = choose|s2: Checker<'a>, ret: Option<Option<Ty>>|
        #[trigger] s1.answer_read(&s2, f.chain@, f.shape@, f.shape_span, ret) && match ret {
            None => c1 == s2,
            Some(answer) => exists|s3: Checker<'a>, takes: Option<Vec<Ty>>|
                #[trigger] s2.params_read(&s3, f.params@, takes) && match takes {
                    None => c1 == s3,
                    Some(list) => s3.signs(&c1, key, name, v, answer, list@, f.name, f.takes),
                },
        };
    lemma_answer_read_keeps(s1, s2, f.chain@, f.shape@, f.shape_span, ret);
    let answer = ret->0;
    let (s3, takes) = choose|s3: Checker<'a>, takes: Option<Vec<Ty>>|
        #[trigger] s2.params_read(&s3, f.params@, takes) && match takes {
            None => c1 == s3,
            Some(list) => s3.signs(&c1, key, name, v, answer, list@, f.name, f.takes),
        };
    lemma_params_read_keeps(s2, s3, f.params@, takes);
    let last = c1.named@.last();
    assert(c1.named@ == s3.named@.push(last));
    assert(last.0@ == key);
    lemma_entry_push(s3.named@, last, key);
    assert(entry_of(c1.named@, key) is Some);
    let key1 = qualified_view(c1.at_file@, texts(c1.at_module@), name_at(c1.source, g.name));
    assert(key1 == key);
    let (t1, w) = choose|t1: Checker<'a>, w: Option<Visibility>|
        #[trigger] c1.seen_as(&t1, g.chain@, g.chain@[0], "function"@, w) && if entry_of(c1.named@, key1) is Some {
            t1.with_said(&c2, seq![twice_declared(c1.signatures@[entry_of(c1.named@, key1)->0 as int].at, g.name, name)])
        } else {
            exists|s2: Checker<'a>, ret: Option<Option<Ty>>|
                #[trigger] t1.answer_read(&s2, g.chain@, g.shape@, g.shape_span, ret) && match ret {
                    None => c2 == s2,
                    Some(answer) => exists|s3: Checker<'a>, takes: Option<Vec<Ty>>|
                        #[trigger] s2.params_read(&s3, g.params@, takes) && match takes {
                            None => c2 == s3,
                            Some(list) => s3.signs(&c2, key1, name, w, answer, list@, g.name, g.takes),
                        },
                }
        };
    let tail = seq![twice_declared(c1.signatures@[entry_of(c1.named@, key1)->0 as int].at, g.name, name)];
    assert((said(t1.errors@) + tail).last() == tail[0]);
}

} // verus!
