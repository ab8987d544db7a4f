//! Filling in the holes, so that nothing below the checker has to know there were any.
//!
//! A generic function is a pattern, not a function. What gets compiled are copies of it,
//! one per type it was actually used at. Working out which type a call site means is
//! [`solve`], and writing that type in everywhere the hole was is [`filled`]; between them
//! no `Ty::Hole` is left anywhere in a copy.

use vstd::prelude::*;
use crate::checked::{Arm, Flow, Func, Place, Printed, Stmt, Value};
use crate::diag::Diagnostic;
use crate::text::push_char;
use crate::source::Span;
use crate::ty::{base, links, name_of, Local, Ty, TyView, Visibility};

verus! {

/// Whether a hole appears anywhere in a type, however deep.
pub open spec fn mentioned_view(t: TyView) -> bool
    decreases t,
{
    match t {
        TyView::Hole(_) => true,
        TyView::Arr { of, .. } => mentioned_view(*of),
        _ => false,
    }
}

/// What the hole must be, for `found` to be the type `wanted` describes. Only the shape of
/// the type is walked: whether the sizes agree is the ordinary check, made afterwards.
pub open spec fn solve_view(wanted: TyView, found: TyView) -> Option<TyView>
    decreases wanted,
{
    match wanted {
        TyView::Hole(_) => Some(found),
        TyView::Arr { of: inner, .. } => match found {
            TyView::Arr { of: brought, .. } => solve_view(*inner, *brought),
            _ => None,
        },
        _ => None,
    }
}

/// `wanted`, with every hole in it replaced by `with`.
pub open spec fn filled_view(wanted: TyView, with: TyView) -> TyView
    decreases wanted,
{
    match wanted {
        TyView::Hole(_) => with,
        TyView::Arr { of, shape, length } => TyView::Arr {
            of: Box::new(filled_view(*of, with)),
            shape,
            length,
        },
        _ => wanted,
    }
}

/// Whether a hole appears anywhere in this, however deep.
pub fn mentioned(ty: &Ty) -> (b: bool)
    ensures
        b == mentioned_view(ty@),
    decreases ty,
{
    match ty {
        Ty::Hole(_) => true,
        Ty::Arr { of, .. } => {
            let inner: &Ty = of;
            mentioned(inner)
        },
        _ => false,
    }
}

/// What the hole must be, for `found` to be the type `wanted` describes.
///
/// `arr.any (grow)` against `arr.str (grow)` is `str`.
pub fn solve(wanted: &Ty, found: &Ty) -> (r: Option<Ty>)
    ensures
        match (r, solve_view(wanted@, found@)) {
            (Some(a), Some(b)) => a@ == b,
            (None, None) => true,
            _ => false,
        },
    decreases wanted,
{
    match wanted {
        Ty::Hole(_) => Some(found.clone()),
        Ty::Arr { of: inner, .. } => match found {
            Ty::Arr { of: brought, .. } => {
                let inner: &Ty = inner;
                solve(inner, brought)
            },
            _ => None,
        },
        _ => None,
    }
}

/// `wanted`, with every hole in it replaced by `with`.
pub fn filled(wanted: &Ty, with: &Ty) -> (t: Ty)
    ensures
        t@ == filled_view(wanted@, with@),
    decreases wanted,
{
    match wanted {
        Ty::Hole(_) => with.clone(),
        Ty::Arr { of, shape, length } => {
            let inner: &Ty = of;
            let sizes = shape.clone();
            assert(sizes@ =~= shape@);
            Ty::Arr { of: Box::new(filled(inner, with)), shape: sizes, length: *length }
        },
        settled => settled.clone(),
    }
}

/// Solving a type for the one that was written into it gives back what was written in:
/// a call at the filled-in type asks for exactly that copy.
pub proof fn law_solving_a_fill_gives_the_fill(wanted: TyView, with: TyView)
    requires
        mentioned_view(wanted),
    ensures
        solve_view(wanted, filled_view(wanted, with)) == Some(with),
    decreases wanted,
{
    match wanted {
        TyView::Arr { of, .. } => law_solving_a_fill_gives_the_fill(*of, with),
        _ => {},
    }
}

/// Once a hole is filled with a type that has none, no hole is left anywhere in it.
pub proof fn law_filling_leaves_no_hole(wanted: TyView, with: TyView)
    requires
        !mentioned_view(with),
    ensures
        !mentioned_view(filled_view(wanted, with)),
    decreases wanted,
{
    match wanted {
        TyView::Arr { of, .. } => law_filling_leaves_no_hole(*of, with),
        _ => {},
    }
}

/// A type with no hole in it is left as it is.
pub proof fn law_nothing_to_fill(wanted: TyView, with: TyView)
    requires
        !mentioned_view(wanted),
    ensures
        filled_view(wanted, with) == wanted,
    decreases wanted,
{
    match wanted {
        TyView::Arr { of, .. } => law_nothing_to_fill(*of, with),
        _ => {},
    }
}

/// Only a type with a hole in it can be solved, and what it is solved for, written in,
/// holds what the found type holds under the same number of `arr` links.
pub proof fn law_a_solution_matches_what_was_found(wanted: TyView, found: TyView)
    requires
        solve_view(wanted, found) is Some,
    ensures
        mentioned_view(wanted),
        links(filled_view(wanted, solve_view(wanted, found)->0)) == links(found),
        base(filled_view(wanted, solve_view(wanted, found)->0)) == base(found),
    decreases wanted,
{
    match wanted {
        TyView::Arr { of, .. } => match found {
            TyView::Arr { of: brought, .. } => law_a_solution_matches_what_was_found(*of, *brought),
            _ => {},
        },
        _ => {},
    }
}


/// Whether an optional type is free of holes.
pub open spec fn no_hole(t: Option<Ty>) -> bool {
    match t {
        Some(ty) => !mentioned_view(ty@),
        None => true,
    }
}

/// Whether a call's fill is as it should be: free of holes, and gone once `settled`.
pub open spec fn fill_ok(fill: Option<Ty>, settled: bool) -> bool {
    no_hole(fill) && (settled ==> fill is None)
}

/// Whether no type hanging off a value, however deep, mentions a hole, and, when
/// `settled`, no call in it still carries a fill.
pub open spec fn value_clean(v: Value, settled: bool) -> bool
    decreases v,
{
    match v {
        Value::Binary { lhs, rhs, .. } => value_clean(*lhs, settled) && value_clean(*rhs, settled),
        Value::Array { of, elements } => !mentioned_view(of@) && values_clean(elements@, settled),
        Value::At { array, indices, .. } => value_clean(*array, settled) && values_clean(
            indices@,
            settled,
        ),
        Value::Join(pieces) => values_clean(pieces@, settled),
        Value::Maths { of, .. } => values_clean(of@, settled),
        Value::Slowly { of, .. } => values_clean(of@, settled),
        Value::Pieces { of, .. } => values_clean(of@, settled),
        Value::Said { of, ty } => value_clean(*of, settled) && !mentioned_view(ty@),
        Value::Not(of) => value_clean(*of, settled),
        Value::Copied(of) => value_clean(*of, settled),
        Value::CountText(of) => value_clean(*of, settled),
        Value::Count(of) => value_clean(*of, settled),
        Value::CanRead { ty, text } => !mentioned_view(ty@) && value_clean(*text, settled),
        Value::Read { ty, text } => !mentioned_view(ty@) && value_clean(*text, settled),
        Value::Call { args, fill, .. } => values_clean(args@, settled) && fill_ok(fill, settled),
        _ => true,
    }
}

/// Whether every value in a list is clean.
pub open spec fn values_clean(vs: Seq<Value>, settled: bool) -> bool
    decreases vs,
{
    if vs.len() == 0 {
        true
    } else {
        value_clean(vs.last(), settled) && values_clean(vs.drop_last(), settled)
    }
}

/// Whether what drives a loop is clean.
pub open spec fn flow_clean(f: Flow, settled: bool) -> bool {
    match f {
        Flow::Range { from, to, .. } => value_clean(from, settled) && value_clean(to, settled),
        Flow::While(condition) => value_clean(condition, settled),
    }
}

/// Whether a place a value is put is clean.
pub open spec fn place_clean(p: Place, settled: bool) -> bool {
    match p {
        Place::Local(_) => true,
        Place::Element { array, indices, .. } => value_clean(array, settled) && values_clean(
            indices@,
            settled,
        ),
    }
}

/// Whether everything printed, and the type beside it, is clean.
pub open spec fn printed_clean(ps: Seq<Printed>, settled: bool) -> bool
    decreases ps.len(),
{
    if ps.len() == 0 {
        true
    } else {
        printed_ok(ps.last(), settled) && printed_clean(ps.drop_last(), settled)
    }
}

/// Whether a statement, and everything nested in it, is clean.
pub open spec fn stmt_clean(s: Stmt, settled: bool) -> bool
    decreases s,
{
    match s {
        Stmt::Declare { value, .. } => value_clean(value, settled),
        Stmt::If { arms, otherwise, .. } => arms_clean(arms@, settled) && match otherwise {
            Some(body) => stmts_clean(body@, settled),
            None => true,
        },
        Stmt::Loop { flow, body, .. } => flow_clean(flow, settled) && stmts_clean(body@, settled),
        Stmt::Break => true,
        Stmt::Give(v) => match v {
            Some(x) => value_clean(x, settled),
            None => true,
        },
        Stmt::Do { args, fill, .. } => values_clean(args@, settled) && fill_ok(fill, settled),
        Stmt::Assign { to, value } => place_clean(to, settled) && value_clean(value, settled),
        Stmt::Extend { array, value } => value_clean(array, settled) && value_clean(value, settled),
        Stmt::Print { pieces, .. } => printed_clean(pieces@, settled),
    }
}

/// Whether every statement in a list is clean.
pub open spec fn stmts_clean(ss: Seq<Stmt>, settled: bool) -> bool
    decreases ss,
{
    if ss.len() == 0 {
        true
    } else {
        stmt_clean(ss.last(), settled) && stmts_clean(ss.drop_last(), settled)
    }
}

/// Whether every arm's question and body is clean.
pub open spec fn arms_clean(arms: Seq<Arm<Stmt>>, settled: bool) -> bool
    decreases arms,
{
    if arms.len() == 0 {
        true
    } else {
        value_clean(arms.last().condition, settled) && stmts_clean(arms.last().body@, settled)
            && arms_clean(arms.drop_last(), settled)
    }
}

/// Whether a function is clean: it opens no hole, its answer and every local have a type
/// with none, and its body is clean.
pub open spec fn func_clean(f: Func, settled: bool) -> bool {
    &&& f.hole is None
    &&& no_hole(f.returns)
    &&& forall|i: int| 0 <= i < f.locals@.len() ==> !mentioned_view(#[trigger] f.locals@[i].ty@)
    &&& stmts_clean(f.body@, settled)
}

/// Whether every value in a list is clean, one at a time.
pub open spec fn all_clean(vs: Seq<Value>, settled: bool) -> bool {
    forall|j: int| 0 <= j < vs.len() ==> value_clean(#[trigger] vs[j], settled)
}

/// Whether every statement in a list is clean, one at a time.
pub open spec fn all_stmts_clean(ss: Seq<Stmt>, settled: bool) -> bool {
    forall|i: int| 0 <= i < ss.len() ==> stmt_clean(#[trigger] ss[i], settled)
}

/// Whether every arm is clean, one at a time.
pub open spec fn all_arms_clean(arms: Seq<Arm<Stmt>>, settled: bool) -> bool {
    forall|i: int|
        0 <= i < arms.len() ==> value_clean((#[trigger] arms[i]).condition, settled) && stmts_clean(arms[i].body@, settled)
}

/// Whether every printed piece is clean, one at a time.
pub open spec fn all_printed_ok(ps: Seq<Printed>, settled: bool) -> bool {
    forall|i: int| 0 <= i < ps.len() ==> printed_ok(#[trigger] ps[i], settled)
}

/// What making a body again does to it: fill the hole in every type with a type, or point
/// every call at the function it meant.
pub enum Job<'a> {
    Fill(&'a Ty),
    Point(&'a Vec<(usize, Ty, usize)>, &'a Vec<Option<usize>>),
}


/// Whether `u` is `t` made again by a job: with the hole filled in, or as it was.
pub open spec fn ty_done(t: Ty, u: Ty, job: Job) -> bool {
    match job {
        Job::Fill(with) => u@ == filled_view(t@, with@),
        Job::Point(..) => u@ == t@,
    }
}

/// Whether a call's fill was made again by a job: filled in, or, once the call points
/// at its copy, gone.
pub open spec fn fill_done(f: Option<Ty>, g: Option<Ty>, job: Job) -> bool {
    match job {
        Job::Fill(with) => match (f, g) {
            (Some(a), Some(b)) => b@ == filled_view(a@, with@),
            (None, None) => true,
            _ => false,
        },
        Job::Point(..) => g is None,
    }
}

/// Where among the copies made the one for this pattern and fill is, the first if more
/// than one.
pub open spec fn first_made(made: Seq<(usize, Ty, usize)>, which: int, wanted: TyView) -> Option<int>
    decreases made.len(),
{
    if made.len() == 0 {
        None
    } else if made[0].0 == which && made[0].1@ == wanted {
        Some(0)
    } else {
        match first_made(made.drop_first(), which, wanted) {
            Some(m) => Some(m + 1),
            None => None,
        }
    }
}

/// The function a call points at once the copies exist: the copy made for its pattern
/// and fill when there is one, and otherwise wherever the function it named went.
pub open spec fn pointed_to(func: u32, fill: Option<Ty>, made: Seq<(usize, Ty, usize)>, moved: Seq<Option<usize>>) -> u32 {
    let which = func as int;
    let elsewhere = if which < moved.len() {
        match moved[which] {
            Some(at) => at as u32,
            None => func,
        }
    } else {
        func
    };
    match fill {
        Some(wanted) => match first_made(made, which, wanted@) {
            Some(m) => made[m].2 as u32,
            None => elsewhere,
        },
        None => elsewhere,
    }
}

/// Whether a call names the function the job says it should.
pub open spec fn func_done(func: u32, fill: Option<Ty>, g: u32, job: Job) -> bool {
    match job {
        Job::Fill(_) => g == func,
        Job::Point(made, moved) => g == pointed_to(func, fill, made@, moved@),
    }
}

/// Whether `w` is the value `v` made again by a job: the same shape, with every type
/// hanging off it and every call done as the job does them.
pub open spec fn value_done(v: Value, w: Value, job: Job) -> bool
    decreases v,
{
    match v {
        Value::Text(a) => w matches Value::Text(b) && b@ == a@,
        Value::Number { .. } => w == v,
        Value::Bool(_) => w == v,
        Value::Float { .. } => w == v,
        Value::Exact(a) => w matches Value::Exact(b) && b@ == a@,
        Value::Decimal { written, digits } => w matches Value::Decimal { written: w2, digits: d2 } && w2@
            == written@ && d2 == digits,
        Value::Copy(_) => w == v,
        Value::Given { .. } => w == v,
        Value::Const(_) => w == v,
        Value::Binary { op, lhs, rhs } => w matches Value::Binary { op: o2, lhs: l2, rhs: r2 } && o2 == op
            && value_done(*lhs, *l2, job) && value_done(*rhs, *r2, job),
        Value::Array { of, elements } => w matches Value::Array { of: of2, elements: e2 } && ty_done(
            *of,
            *of2,
            job,
        ) && values_done(elements@, e2@, job),
        Value::At { array, indices, shape } => w matches Value::At { array: a2, indices: i2, shape: s2 }
            && value_done(*array, *a2, job) && values_done(indices@, i2@, job) && s2@ == shape@,
        Value::Join(pieces) => w matches Value::Join(p2) && values_done(pieces@, p2@, job),
        Value::Maths { which, of, width } => w matches Value::Maths { which: h2, of: o2, width: w2 } && h2
            == which && w2 == width && values_done(of@, o2@, job),
        Value::Slowly { which, of } => w matches Value::Slowly { which: h2, of: o2 } && h2 == which
            && values_done(of@, o2@, job),
        Value::Pieces { which, of } => w matches Value::Pieces { which: h2, of: o2 } && h2 == which
            && values_done(of@, o2@, job),
        Value::Said { of, ty } => w matches Value::Said { of: o2, ty: t2 } && value_done(*of, *o2, job)
            && ty_done(ty, t2, job),
        Value::Not(of) => w matches Value::Not(o2) && value_done(*of, *o2, job),
        Value::Copied(of) => w matches Value::Copied(o2) && value_done(*of, *o2, job),
        Value::CountText(of) => w matches Value::CountText(o2) && value_done(*of, *o2, job),
        Value::Count(of) => w matches Value::Count(o2) && value_done(*of, *o2, job),
        Value::CanRead { ty, text } => w matches Value::CanRead { ty: t2, text: x2 } && ty_done(ty, t2, job)
            && value_done(*text, *x2, job),
        Value::Read { ty, text } => w matches Value::Read { ty: t2, text: x2 } && ty_done(ty, t2, job)
            && value_done(*text, *x2, job),
        Value::Call { func, args, fill } => w matches Value::Call { func: f2, args: a2, fill: l2 }
            && func_done(func, fill, f2, job) && values_done(args@, a2@, job) && fill_done(fill, l2, job),
    }
}

/// Whether each value of one list was made again as the one in the same place of the
/// other.
pub open spec fn values_done(vs: Seq<Value>, ws: Seq<Value>, job: Job) -> bool
    decreases vs,
{
    if vs.len() == 0 {
        ws.len() == 0
    } else {
        ws.len() == vs.len() && value_done(vs.last(), ws.last(), job) && values_done(
            vs.drop_last(),
            ws.drop_last(),
            job,
        )
    }
}

/// Whether what drives a loop was made again by a job.
pub open spec fn flow_done(f: Flow, g: Flow, job: Job) -> bool {
    match f {
        Flow::Range { from, to, keeps } => g matches Flow::Range { from: f2, to: t2, keeps: k2 } && k2
            == keeps && value_done(from, f2, job) && value_done(to, t2, job),
        Flow::While(condition) => g matches Flow::While(c2) && value_done(condition, c2, job),
    }
}

/// Whether a place was made again by a job.
pub open spec fn place_done(p: Place, q: Place, job: Job) -> bool {
    match p {
        Place::Local(l) => q == Place::Local(l),
        Place::Element { array, indices, shape } => q matches Place::Element {
            array: a2,
            indices: i2,
            shape: s2,
        } && value_done(array, a2, job) && values_done(indices@, i2@, job) && s2@ == shape@,
    }
}

/// Whether one printed piece was made again by a job.
pub open spec fn piece_done(p: Printed, q: Printed, job: Job) -> bool {
    match p {
        Printed::Text(a) => q matches Printed::Text(b) && b@ == a@,
        Printed::Value { value, ty } => q matches Printed::Value { value: v2, ty: t2 } && value_done(
            value,
            v2,
            job,
        ) && ty_done(ty, t2, job),
    }
}

/// Whether each printed piece was made again as the one in the same place.
pub open spec fn pieces_done(ps: Seq<Printed>, qs: Seq<Printed>, job: Job) -> bool {
    ps.len() == qs.len() && forall|i: int| 0 <= i < ps.len() ==> piece_done(#[trigger] ps[i], qs[i], job)
}

/// Whether `t` is the statement `s` made again by a job.
pub open spec fn stmt_done(s: Stmt, t: Stmt, job: Job) -> bool
    decreases s,
{
    match s {
        Stmt::Declare { local, value } => t matches Stmt::Declare { local: l2, value: v2 } && l2 == local
            && value_done(value, v2, job),
        Stmt::If { arms, otherwise, live } => t matches Stmt::If { arms: a2, otherwise: o2, live: n2 } && n2
            == live && arms_done(arms@, a2@, job) && match (otherwise, o2) {
            (Some(b), Some(b2)) => stmts_done(b@, b2@, job),
            (None, None) => true,
            _ => false,
        },
        Stmt::Loop { flow, body, live } => t matches Stmt::Loop { flow: f2, body: b2, live: n2 } && n2 == live
            && flow_done(flow, f2, job) && stmts_done(body@, b2@, job),
        Stmt::Break => t == Stmt::Break,
        Stmt::Give(v) => t matches Stmt::Give(v2) && match (v, v2) {
            (Some(x), Some(y)) => value_done(x, y, job),
            (None, None) => true,
            _ => false,
        },
        Stmt::Do { func, args, fill } => t matches Stmt::Do { func: f2, args: a2, fill: l2 } && func_done(
            func,
            fill,
            f2,
            job,
        ) && values_done(args@, a2@, job) && fill_done(fill, l2, job),
        Stmt::Assign { to, value } => t matches Stmt::Assign { to: p2, value: v2 } && place_done(to, p2, job)
            && value_done(value, v2, job),
        Stmt::Extend { array, value } => t matches Stmt::Extend { array: a2, value: v2 } && value_done(
            array,
            a2,
            job,
        ) && value_done(value, v2, job),
        Stmt::Print { to, pieces } => t matches Stmt::Print { to: s2, pieces: p2 } && s2 == to && pieces_done(
            pieces@,
            p2@,
            job,
        ),
    }
}

/// Whether each statement of one list was made again as the one in the same place.
pub open spec fn stmts_done(ss: Seq<Stmt>, ts: Seq<Stmt>, job: Job) -> bool
    decreases ss,
{
    if ss.len() == 0 {
        ts.len() == 0
    } else {
        ts.len() == ss.len() && stmt_done(ss.last(), ts.last(), job) && stmts_done(
            ss.drop_last(),
            ts.drop_last(),
            job,
        )
    }
}

/// Whether each arm of one list was made again as the one in the same place.
pub open spec fn arms_done(arms: Seq<Arm<Stmt>>, bs: Seq<Arm<Stmt>>, job: Job) -> bool
    decreases arms,
{
    if arms.len() == 0 {
        bs.len() == 0
    } else {
        bs.len() == arms.len() && value_done(arms.last().condition, bs.last().condition, job) && stmts_done(
            arms.last().body@,
            bs.last().body@,
            job,
        ) && arms_done(arms.drop_last(), bs.drop_last(), job)
    }
}

/// Whether a job leaves what it makes clean: filling, with a type that has no hole; and
/// pointing, when what it is given was clean to begin with.
pub open spec fn ready(job: Job, clean: bool) -> bool {
    match job {
        Job::Fill(with) => !mentioned_view(with@),
        Job::Point(..) => clean,
    }
}

/// Whether a job leaves no call with a fill.
pub open spec fn settles(job: Job) -> bool {
    job is Point
}

fn filled_clean(ty: &Ty, with: &Ty) -> (r: Ty)
    ensures
        r@ == filled_view(ty@, with@),
        !mentioned_view(with@) ==> !mentioned_view(r@),
{
    let made = filled(ty, with);
    proof {
        if !mentioned_view(with@) {
            law_filling_leaves_no_hole(ty@, with@);
        }
    }
    made
}

fn job_ty(ty: &Ty, job: &Job) -> (r: Ty)
    ensures
        match *job {
            Job::Fill(with) => r@ == filled_view(ty@, with@),
            Job::Point(..) => r@ == ty@,
        },
        ready(*job, !mentioned_view(ty@)) ==> !mentioned_view(r@),
        ty_done(*ty, r, *job),
{
    match job {
        Job::Fill(with) => filled_clean(ty, with),
        Job::Point(..) => ty.clone(),
    }
}

fn job_fill(fill: &Option<Ty>, job: &Job) -> (r: Option<Ty>)
    ensures
        fill_done(*fill, r, *job),
        ready(*job, no_hole(*fill)) ==> fill_ok(r, settles(*job)),
{
    match job {
        Job::Fill(with) => match fill {
            Some(ty) => Some(filled_clean(ty, with)),
            None => None,
        },
        Job::Point(..) => None,
    }
}


/// The first copy made for a pattern and fill is where the first one with both is, and
/// there is none when none has both.
proof fn lemma_first_made(made: Seq<(usize, Ty, usize)>, which: int, wanted: TyView, m: int)
    requires
        0 <= m <= made.len(),
        forall|j: int| 0 <= j < m ==> !((#[trigger] made[j]).0 == which && made[j].1@ == wanted),
        m < made.len() ==> made[m].0 == which && made[m].1@ == wanted,
    ensures
        first_made(made, which, wanted) == if m < made.len() {
            Some(m)
        } else {
            None::<int>
        },
    decreases m,
{
    if m > 0 {
        let rest = made.drop_first();
        assert(!(made[0].0 == which && made[0].1@ == wanted));
        assert forall|j: int| 0 <= j < m - 1 implies !((#[trigger] rest[j]).0 == which && rest[j].1@ == wanted) by {
            assert(rest[j] == made[j + 1]);
        }
        if m < made.len() {
            assert(rest[m - 1] == made[m]);
        }
        lemma_first_made(rest, which, wanted, m - 1);
    }
}

/// Which function a call names once the job is done: the same one when filling; when
/// pointing, the copy made for its pattern and fill if it asked for one, and otherwise
/// wherever its function went.
fn job_func(func: u32, fill: &Option<Ty>, job: &Job) -> (r: u32)
    ensures
        func_done(func, *fill, r, *job),
{
    match job {
        Job::Fill(_) => func,
        Job::Point(made, moved) => {
            let which = func as usize;
            match fill {
                Some(wanted) => {
                    let mut m: usize = 0;
                    while m < made.len()
                        invariant
                            m <= made@.len(),
                            which == func as int,
                            *fill == Some(*wanted),
                            *job == Job::Point(*made, *moved),
                            forall|j: int|
                                0 <= j < m ==> !((#[trigger] made@[j]).0 == which && made@[j].1@ == wanted@),
                        decreases made.len() - m,
                    {
                        if made[m].0 == which && made[m].1.same(wanted) {
                            proof {
                                lemma_first_made(made@, which as int, wanted@, m as int);
                            }
                            return made[m].2 as u32;
                        }
                        m = m + 1;
                    }
                    proof {
                        lemma_first_made(made@, which as int, wanted@, made@.len() as int);
                    }
                },
                None => {},
            }
            if which < moved.len() {
                match moved[which] {
                    Some(at) => at as u32,
                    None => func,
                }
            } else {
                func
            }
        },
    }
}


proof fn lemma_values_done_step(vs: Seq<Value>, ws: Seq<Value>, i: int, w: Value, job: Job)
    requires
        0 <= i < vs.len(),
        values_done(vs.take(i), ws, job),
        value_done(vs[i], w, job),
    ensures
        values_done(vs.take(i + 1), ws.push(w), job),
{
    assert(vs.take(i + 1).drop_last() =~= vs.take(i));
    assert(ws.push(w).drop_last() =~= ws);
}

proof fn lemma_stmts_done_step(ss: Seq<Stmt>, ts: Seq<Stmt>, i: int, t: Stmt, job: Job)
    requires
        0 <= i < ss.len(),
        stmts_done(ss.take(i), ts, job),
        stmt_done(ss[i], t, job),
    ensures
        stmts_done(ss.take(i + 1), ts.push(t), job),
{
    assert(ss.take(i + 1).drop_last() =~= ss.take(i));
    assert(ts.push(t).drop_last() =~= ts);
}

proof fn lemma_arms_done_step(arms: Seq<Arm<Stmt>>, bs: Seq<Arm<Stmt>>, i: int, b: Arm<Stmt>, job: Job)
    requires
        0 <= i < arms.len(),
        arms_done(arms.take(i), bs, job),
        value_done(arms[i].condition, b.condition, job),
        stmts_done(arms[i].body@, b.body@, job),
    ensures
        arms_done(arms.take(i + 1), bs.push(b), job),
{
    assert(arms.take(i + 1).drop_last() =~= arms.take(i));
    assert(bs.push(b).drop_last() =~= bs);
}

/// A value made again by a job.
fn remade_value(v: &Value, job: &Job) -> (r: Value)
    ensures
        ready(*job, value_clean(*v, false)) ==> value_clean(r, settles(*job)),
        value_done(*v, r, *job),
    decreases *v,
{
    match v {
        Value::Text(t) => Value::Text(t.clone()),
        Value::Number { value, bits, signed } => Value::Number {
            value: *value,
            bits: *bits,
            signed: *signed,
        },
        Value::Bool(b) => Value::Bool(*b),
        Value::Float { bits, width } => Value::Float { bits: *bits, width: *width },
        Value::Exact(t) => Value::Exact(t.clone()),
        Value::Decimal { written, digits } => Value::Decimal {
            written: written.clone(),
            digits: *digits,
        },
        Value::Copy(l) => Value::Copy(*l),
        Value::Binary { op, lhs, rhs } => {
            let l: &Value = lhs;
            let r: &Value = rhs;
            Value::Binary {
                op: *op,
                lhs: Box::new(remade_value(l, job)),
                rhs: Box::new(remade_value(r, job)),
            }
        },
        Value::Array { of, elements } => {
            proof {
                assert(decreases_to!(*v => v->elements));
            }
            let inner: &Ty = of;
            Value::Array { of: Box::new(job_ty(inner, job)), elements: remade_values(elements, job) }
        },
        Value::At { array, indices, shape } => {
            proof {
                assert(decreases_to!(*v => v->indices));
            }
            let a: &Value = array;
            let sizes = shape.clone();
            assert(sizes@ =~= shape@);
            Value::At {
                array: Box::new(remade_value(a, job)),
                indices: remade_values(indices, job),
                shape: sizes,
            }
        },
        Value::Join(pieces) => {
            proof {
                assert(decreases_to!(*v => v->Join_0));
            }
            Value::Join(remade_values(pieces, job))
        },
        Value::Maths { which, of, width } => {
            proof {
                assert(decreases_to!(*v => v->Maths_of));
            }
            Value::Maths { which: *which, of: remade_values(of, job), width: *width }
        },
        Value::Slowly { which, of } => {
            proof {
                assert(decreases_to!(*v => v->Slowly_of));
            }
            Value::Slowly { which: *which, of: remade_values(of, job) }
        },
        Value::Pieces { which, of } => {
            proof {
                assert(decreases_to!(*v => v->Pieces_of));
            }
            Value::Pieces { which: *which, of: remade_values(of, job) }
        },
        Value::Given { which } => Value::Given { which: *which },
        Value::Said { of, ty } => {
            let o: &Value = of;
            Value::Said { of: Box::new(remade_value(o, job)), ty: job_ty(ty, job) }
        },
        Value::Not(of) => {
            let o: &Value = of;
            Value::Not(Box::new(remade_value(o, job)))
        },
        Value::Copied(of) => {
            let o: &Value = of;
            Value::Copied(Box::new(remade_value(o, job)))
        },
        Value::CountText(of) => {
            let o: &Value = of;
            Value::CountText(Box::new(remade_value(o, job)))
        },
        Value::Count(of) => {
            let o: &Value = of;
            Value::Count(Box::new(remade_value(o, job)))
        },
        Value::CanRead { ty, text } => {
            let t: &Value = text;
            Value::CanRead { ty: job_ty(ty, job), text: Box::new(remade_value(t, job)) }
        },
        Value::Read { ty, text } => {
            let t: &Value = text;
            Value::Read { ty: job_ty(ty, job), text: Box::new(remade_value(t, job)) }
        },
        Value::Const(c) => Value::Const(*c),
        Value::Call { func, args, fill } => {
            proof {
                assert(decreases_to!(*v => v->Call_args));
            }
            Value::Call {
                func: job_func(*func, fill, job),
                args: remade_values(args, job),
                fill: job_fill(fill, job),
            }
        },
    }
}

fn remade_values(vs: &Vec<Value>, job: &Job) -> (r: Vec<Value>)
    ensures
        ready(*job, values_clean(vs@, false)) ==> values_clean(r@, settles(*job)),
        values_done(vs@, r@, *job),
    decreases *vs,
{
    proof {
        lemma_values_clean(vs@, false);
    }
    let mut r: Vec<Value> = Vec::new();
    let mut i: usize = 0;
    assert(vs@.take(0) =~= Seq::<Value>::empty());
    while i < vs.len()
        invariant
            i <= vs@.len(),
            values_clean(vs@, false) <==> all_clean(vs@, false),
            ready(*job, values_clean(vs@, false)) ==> values_clean(r@, settles(*job)),
            values_done(vs@.take(i as int), r@, *job),
        decreases vs.len() - i,
    {
        proof {
            assert(decreases_to!(*vs => vs@));
            assert(decreases_to!(vs@ => vs@[i as int]));
        }
        let c = remade_value(&vs[i], job);
        proof {
            if values_clean(vs@, false) {
                assert(value_clean(vs@[i as int], false));
            }
            lemma_values_done_step(vs@, r@, i as int, c, *job);
        }
        let ghost before = r@;
        r.push(c);
        assert(r@.drop_last() =~= before);
        i = i + 1;
    }
    assert(vs@.take(i as int) =~= vs@);
    r
}

fn remade_flow(f: &Flow, job: &Job) -> (r: Flow)
    ensures
        ready(*job, flow_clean(*f, false)) ==> flow_clean(r, settles(*job)),
        flow_done(*f, r, *job),
{
    match f {
        Flow::Range { from, to, keeps } => Flow::Range {
            from: remade_value(from, job),
            to: remade_value(to, job),
            keeps: *keeps,
        },
        Flow::While(condition) => Flow::While(remade_value(condition, job)),
    }
}

fn remade_place(p: &Place, job: &Job) -> (r: Place)
    ensures
        ready(*job, place_clean(*p, false)) ==> place_clean(r, settles(*job)),
        place_done(*p, r, *job),
{
    match p {
        Place::Local(l) => Place::Local(*l),
        Place::Element { array, indices, shape } => {
            let sizes = shape.clone();
            assert(sizes@ =~= shape@);
            Place::Element {
                array: remade_value(array, job),
                indices: remade_values(indices, job),
                shape: sizes,
            }
        },
    }
}

/// What is printed, made again: what a `print` shows is decided by the type written
/// beside it, the one type in a body that does not hang off a value, so it is filled too.
fn remade_printed(ps: &Vec<Printed>, job: &Job) -> (r: Vec<Printed>)
    ensures
        ready(*job, printed_clean(ps@, false)) ==> printed_clean(r@, settles(*job)),
        pieces_done(ps@, r@, *job),
{
    proof {
        lemma_printed_clean(ps@, false);
    }
    let mut r: Vec<Printed> = Vec::new();
    let mut i: usize = 0;
    while i < ps.len()
        invariant
            i <= ps@.len(),
            printed_clean(ps@, false) <==> all_printed_ok(ps@, false),
            ready(*job, printed_clean(ps@, false)) ==> printed_clean(r@, settles(*job)),
            r@.len() == i,
            forall|k: int| 0 <= k < i ==> piece_done(#[trigger] ps@[k], r@[k], *job),
        decreases ps.len() - i,
    {
        proof {
            if printed_clean(ps@, false) {
                assert(printed_ok(ps@[i as int], false));
            }
        }
        let piece = match &ps[i] {
            Printed::Text(t) => Printed::Text(t.clone()),
            Printed::Value { value, ty } => Printed::Value {
                value: remade_value(value, job),
                ty: job_ty(ty, job),
            },
        };
        let ghost before = r@;
        r.push(piece);
        assert(r@.drop_last() =~= before);
        i = i + 1;
    }
    r
}

fn remade_stmt(st: &Stmt, job: &Job) -> (r: Stmt)
    ensures
        ready(*job, stmt_clean(*st, false)) ==> stmt_clean(r, settles(*job)),
        stmt_done(*st, r, *job),
    decreases *st,
{
    match st {
        Stmt::Declare { local, value } => Stmt::Declare { local: *local, value: remade_value(value, job) },
        Stmt::If { arms, otherwise, live } => {
            proof {
                assert(decreases_to!(*st => st->arms));
            }
            let new_arms = remade_arms(arms, job);
            let rest = match otherwise {
                Some(body) => {
                    proof {
                        assert(decreases_to!(*st => st->otherwise));
                        assert(decreases_to!(st->otherwise => st->otherwise->0));
                    }
                    Some(remade_stmts(body, job))
                },
                None => None,
            };
            Stmt::If { arms: new_arms, otherwise: rest, live: *live }
        },
        Stmt::Loop { flow, body, live } => {
            proof {
                assert(decreases_to!(*st => st->Loop_body));
            }
            Stmt::Loop { flow: remade_flow(flow, job), body: remade_stmts(body, job), live: *live }
        },
        Stmt::Break => Stmt::Break,
        Stmt::Give(v) => match v {
            Some(x) => Stmt::Give(Some(remade_value(x, job))),
            None => Stmt::Give(None),
        },
        Stmt::Do { func, args, fill } => Stmt::Do {
            func: job_func(*func, fill, job),
            args: remade_values(args, job),
            fill: job_fill(fill, job),
        },
        Stmt::Assign { to, value } => Stmt::Assign {
            to: remade_place(to, job),
            value: remade_value(value, job),
        },
        Stmt::Extend { array, value } => Stmt::Extend {
            array: remade_value(array, job),
            value: remade_value(value, job),
        },
        Stmt::Print { to, pieces } => Stmt::Print { to: *to, pieces: remade_printed(pieces, job) },
    }
}

fn remade_stmts(ss: &Vec<Stmt>, job: &Job) -> (r: Vec<Stmt>)
    ensures
        ready(*job, stmts_clean(ss@, false)) ==> stmts_clean(r@, settles(*job)),
        stmts_done(ss@, r@, *job),
    decreases *ss,
{
    proof {
        lemma_stmts_clean(ss@, false);
    }
    let mut r: Vec<Stmt> = Vec::new();
    let mut i: usize = 0;
    assert(ss@.take(0) =~= Seq::<Stmt>::empty());
    while i < ss.len()
        invariant
            i <= ss@.len(),
            stmts_clean(ss@, false) <==> all_stmts_clean(ss@, false),
            ready(*job, stmts_clean(ss@, false)) ==> stmts_clean(r@, settles(*job)),
            stmts_done(ss@.take(i as int), r@, *job),
        decreases ss.len() - i,
    {
        proof {
            assert(decreases_to!(*ss => ss@));
            assert(decreases_to!(ss@ => ss@[i as int]));
            if stmts_clean(ss@, false) {
                assert(stmt_clean(ss@[i as int], false));
            }
        }
        let c = remade_stmt(&ss[i], job);
        proof {
            lemma_stmts_done_step(ss@, r@, i as int, c, *job);
        }
        let ghost before = r@;
        r.push(c);
        assert(r@.drop_last() =~= before);
        i = i + 1;
    }
    assert(ss@.take(i as int) =~= ss@);
    r
}

fn remade_arms(arms: &Vec<Arm<Stmt>>, job: &Job) -> (r: Vec<Arm<Stmt>>)
    ensures
        ready(*job, arms_clean(arms@, false)) ==> arms_clean(r@, settles(*job)),
        arms_done(arms@, r@, *job),
    decreases *arms,
{
    proof {
        lemma_arms_clean(arms@, false);
    }
    let mut r: Vec<Arm<Stmt>> = Vec::new();
    let mut i: usize = 0;
    assert(arms@.take(0) =~= Seq::<Arm<Stmt>>::empty());
    while i < arms.len()
        invariant
            i <= arms@.len(),
            arms_clean(arms@, false) <==> all_arms_clean(arms@, false),
            ready(*job, arms_clean(arms@, false)) ==> arms_clean(r@, settles(*job)),
            arms_done(arms@.take(i as int), r@, *job),
        decreases arms.len() - i,
    {
        proof {
            assert(decreases_to!(*arms => arms@));
            assert(decreases_to!(arms@ => arms@[i as int]));
            assert(decreases_to!(arms@[i as int] => arms@[i as int].body));
            if arms_clean(arms@, false) {
                assert(value_clean(arms@[i as int].condition, false));
            }
        }
        let arm = Arm {
            condition: remade_value(&arms[i].condition, job),
            body: remade_stmts(&arms[i].body, job),
        };
        proof {
            lemma_arms_done_step(arms@, r@, i as int, arm, *job);
        }
        let ghost before = r@;
        r.push(arm);
        assert(r@.drop_last() =~= before);
        i = i + 1;
    }
    assert(arms@.take(i as int) =~= arms@);
    r
}

/// One copy of a pattern, called `called`, with `with` written in everywhere the hole was.
pub fn copied(pattern: &Func, with: &Ty, called: String) -> (made: Func)
    ensures
        made.name@ == called@,
        made.hole is None,
        made.visibility == pattern.visibility,
        made.takes == pattern.takes,
        made.at == pattern.at,
        made.locals@.len() == pattern.locals@.len(),
        forall|i: int|
            0 <= i < made.locals@.len() ==> (#[trigger] made.locals@[i]).ty@ == filled_view(
                pattern.locals@[i].ty@,
                with@,
            ) && made.locals@[i].name@ == pattern.locals@[i].name@,
        made.returns is Some == pattern.returns is Some,
        made.returns matches Some(r) ==> r@ == filled_view(pattern.returns->0@, with@),
        forall|i: int|
            0 <= i < made.locals@.len() ==> {
                &&& (#[trigger] made.locals@[i]).mutable == pattern.locals@[i].mutable
                &&& made.locals@[i].at == pattern.locals@[i].at
                &&& made.locals@[i].chain == pattern.locals@[i].chain
                &&& made.locals@[i].counter == pattern.locals@[i].counter
            },
        stmts_done(pattern.body@, made.body@, Job::Fill(with)),
        !mentioned_view(with@) ==> func_clean(made, false),
{
    let mut locals: Vec<Local> = Vec::new();
    let mut i: usize = 0;
    while i < pattern.locals.len()
        invariant
            i <= pattern.locals@.len(),
            locals@.len() == i,
            forall|j: int|
                0 <= j < i ==> (#[trigger] locals@[j]).ty@ == filled_view(
                    pattern.locals@[j].ty@,
                    with@,
                ) && locals@[j].name@ == pattern.locals@[j].name@ && (!mentioned_view(with@)
                    ==> !mentioned_view(locals@[j].ty@)) && locals@[j].mutable == pattern.locals@[j].mutable
                    && locals@[j].at == pattern.locals@[j].at && locals@[j].chain == pattern.locals@[j].chain
                    && locals@[j].counter == pattern.locals@[j].counter,
        decreases pattern.locals.len() - i,
    {
        let l = &pattern.locals[i];
        locals.push(
            Local {
                name: l.name.clone(),
                ty: filled_clean(&l.ty, with),
                mutable: l.mutable,
                at: l.at,
                chain: l.chain,
                counter: l.counter,
            },
        );
        i = i + 1;
    }
    let answer = match &pattern.returns {
        Some(ty) => Some(filled_clean(ty, with)),
        None => None,
    };
    Func {
        name: called,
        visibility: pattern.visibility,
        returns: answer,
        hole: None,
        takes: pattern.takes,
        locals,
        body: remade_stmts(&pattern.body, &Job::Fill(with)),
        at: pattern.at,
    }
}


proof fn lemma_values_clean(vs: Seq<Value>, settled: bool)
    ensures
        values_clean(vs, settled) <==> forall|i: int| 0 <= i < vs.len() ==> value_clean(#[trigger] vs[i], settled),
    decreases vs.len(),
{
    if vs.len() > 0 {
        let d = vs.drop_last();
        lemma_values_clean(d, settled);
        if forall|i: int| 0 <= i < vs.len() ==> value_clean(#[trigger] vs[i], settled) {
            assert forall|i: int| 0 <= i < d.len() implies value_clean(d[i], settled) by {
                assert(d[i] == vs[i]);
                assert(value_clean(vs[i], settled));
            }
            assert(value_clean(vs[vs.len() - 1], settled));
        }
        if values_clean(vs, settled) {
            assert forall|i: int| 0 <= i < vs.len() implies value_clean(vs[i], settled) by {
                if i < vs.len() - 1 {
                    assert(d[i] == vs[i]);
                    assert(value_clean(d[i], settled));
                }
            }
        }
    }
}

proof fn lemma_stmts_clean(ss: Seq<Stmt>, settled: bool)
    ensures
        stmts_clean(ss, settled) <==> forall|i: int| 0 <= i < ss.len() ==> stmt_clean(#[trigger] ss[i], settled),
    decreases ss.len(),
{
    if ss.len() > 0 {
        let d = ss.drop_last();
        lemma_stmts_clean(d, settled);
        if forall|i: int| 0 <= i < ss.len() ==> stmt_clean(#[trigger] ss[i], settled) {
            assert forall|i: int| 0 <= i < d.len() implies stmt_clean(d[i], settled) by {
                assert(d[i] == ss[i]);
                assert(stmt_clean(ss[i], settled));
            }
            assert(stmt_clean(ss[ss.len() - 1], settled));
        }
        if stmts_clean(ss, settled) {
            assert forall|i: int| 0 <= i < ss.len() implies stmt_clean(ss[i], settled) by {
                if i < ss.len() - 1 {
                    assert(d[i] == ss[i]);
                    assert(stmt_clean(d[i], settled));
                }
            }
        }
    }
}

proof fn lemma_arms_clean(arms: Seq<Arm<Stmt>>, settled: bool)
    ensures
        arms_clean(arms, settled) <==> forall|i: int|
            0 <= i < arms.len() ==> value_clean((#[trigger] arms[i]).condition, settled) && stmts_clean(arms[i].body@, settled),
    decreases arms.len(),
{
    if arms.len() > 0 {
        let d = arms.drop_last();
        lemma_arms_clean(d, settled);
        if forall|i: int| 0 <= i < arms.len() ==> (value_clean((#[trigger] arms[i]).condition, settled) && stmts_clean(arms[i].body@, settled)) {
            assert forall|i: int| 0 <= i < d.len() implies (value_clean((d[i]).condition, settled) && stmts_clean(d[i].body@, settled)) by {
                assert(d[i] == arms[i]);
                assert((value_clean((arms[i]).condition, settled) && stmts_clean(arms[i].body@, settled)));
            }
            assert((value_clean((arms[arms.len() - 1]).condition, settled) && stmts_clean(arms[arms.len() - 1].body@, settled)));
        }
        if arms_clean(arms, settled) {
            assert forall|i: int| 0 <= i < arms.len() implies (value_clean((arms[i]).condition, settled) && stmts_clean(arms[i].body@, settled)) by {
                if i < arms.len() - 1 {
                    assert(d[i] == arms[i]);
                    assert((value_clean((d[i]).condition, settled) && stmts_clean(d[i].body@, settled)));
                }
            }
        }
    }
}

/// Whether one printed piece, and the type beside it, is clean.
pub open spec fn printed_ok(p: Printed, settled: bool) -> bool {
    match p {
        Printed::Text(_) => true,
        Printed::Value { value, ty } => value_clean(value, settled) && !mentioned_view(ty@),
    }
}

proof fn lemma_printed_clean(ps: Seq<Printed>, settled: bool)
    ensures
        printed_clean(ps, settled) <==> forall|i: int| 0 <= i < ps.len() ==> printed_ok(#[trigger] ps[i], settled),
    decreases ps.len(),
{
    if ps.len() > 0 {
        let d = ps.drop_last();
        lemma_printed_clean(d, settled);
        if forall|i: int| 0 <= i < ps.len() ==> printed_ok(#[trigger] ps[i], settled) {
            assert forall|i: int| 0 <= i < d.len() implies printed_ok(d[i], settled) by {
                assert(d[i] == ps[i]);
                assert(printed_ok(ps[i], settled));
            }
            assert(printed_ok(ps[ps.len() - 1], settled));
        }
        if printed_clean(ps, settled) {
            assert forall|i: int| 0 <= i < ps.len() implies printed_ok(ps[i], settled) by {
                if i < ps.len() - 1 {
                    assert(d[i] == ps[i]);
                    assert(printed_ok(d[i], settled));
                }
            }
        }
    }
}

/// A pair a body asks for is one the copying can make: its function is a pattern, and
/// the type it asks for has no hole when the body it came from is clean.
pub open spec fn asked_well(pair: (usize, Ty), patterns: Seq<bool>, clean: bool) -> bool {
    &&& pair.0 < patterns.len()
    &&& patterns[pair.0 as int]
    &&& clean ==> !mentioned_view(pair.1@)
}


/// Whether a call with this fill asks for the copy of pattern `p` at `t`.
pub open spec fn call_asks(func: u32, fill: Option<Ty>, patterns: Seq<bool>, p: int, t: TyView) -> bool {
    &&& fill matches Some(f) && f@ == t
    &&& func as int == p
    &&& 0 <= p < patterns.len()
    &&& patterns[p]
}

/// Whether some call in a value asks for the copy of pattern `p` at `t`.
pub open spec fn value_asks(v: Value, patterns: Seq<bool>, p: int, t: TyView) -> bool
    decreases v,
{
    match v {
        Value::Binary { lhs, rhs, .. } => value_asks(*lhs, patterns, p, t) || value_asks(*rhs, patterns, p, t),
        Value::Array { elements, .. } => values_ask(elements@, patterns, p, t),
        Value::At { array, indices, .. } => value_asks(*array, patterns, p, t) || values_ask(indices@, patterns, p, t),
        Value::Join(pieces) => values_ask(pieces@, patterns, p, t),
        Value::Maths { of, .. } => values_ask(of@, patterns, p, t),
        Value::Slowly { of, .. } => values_ask(of@, patterns, p, t),
        Value::Pieces { of, .. } => values_ask(of@, patterns, p, t),
        Value::Said { of, .. } => value_asks(*of, patterns, p, t),
        Value::Not(of) => value_asks(*of, patterns, p, t),
        Value::Copied(of) => value_asks(*of, patterns, p, t),
        Value::CountText(of) => value_asks(*of, patterns, p, t),
        Value::Count(of) => value_asks(*of, patterns, p, t),
        Value::CanRead { text, .. } => value_asks(*text, patterns, p, t),
        Value::Read { text, .. } => value_asks(*text, patterns, p, t),
        Value::Call { func, args, fill } => call_asks(func, fill, patterns, p, t) || values_ask(
            args@,
            patterns,
            p,
            t,
        ),
        _ => false,
    }
}

/// Whether some value in a list asks for it.
pub open spec fn values_ask(vs: Seq<Value>, patterns: Seq<bool>, p: int, t: TyView) -> bool
    decreases vs,
{
    if vs.len() == 0 {
        false
    } else {
        value_asks(vs.last(), patterns, p, t) || values_ask(vs.drop_last(), patterns, p, t)
    }
}

/// Whether what drives a loop asks for it.
pub open spec fn flow_asks(f: Flow, patterns: Seq<bool>, p: int, t: TyView) -> bool {
    match f {
        Flow::Range { from, to, .. } => value_asks(from, patterns, p, t) || value_asks(to, patterns, p, t),
        Flow::While(condition) => value_asks(condition, patterns, p, t),
    }
}

/// Whether a printed value asks for it.
pub open spec fn piece_asks(piece: Printed, patterns: Seq<bool>, p: int, t: TyView) -> bool {
    match piece {
        Printed::Value { value, .. } => value_asks(value, patterns, p, t),
        Printed::Text(_) => false,
    }
}

/// Whether some printed value asks for it.
pub open spec fn pieces_ask(ps: Seq<Printed>, patterns: Seq<bool>, p: int, t: TyView) -> bool {
    exists|i: int| 0 <= i < ps.len() && piece_asks(#[trigger] ps[i], patterns, p, t)
}

/// Whether some call in a statement asks for it.
pub open spec fn stmt_asks(st: Stmt, patterns: Seq<bool>, p: int, t: TyView) -> bool
    decreases st,
{
    match st {
        Stmt::Declare { value, .. } => value_asks(value, patterns, p, t),
        Stmt::Give(v) => v matches Some(x) && value_asks(x, patterns, p, t),
        Stmt::Break => false,
        Stmt::If { arms, otherwise, .. } => arms_ask(arms@, patterns, p, t) || (otherwise matches Some(b) && stmts_ask(
            b@,
            patterns,
            p,
            t,
        )),
        Stmt::Loop { flow, body, .. } => flow_asks(flow, patterns, p, t) || stmts_ask(body@, patterns, p, t),
        Stmt::Do { func, args, fill } => call_asks(func, fill, patterns, p, t) || values_ask(args@, patterns, p, t),
        Stmt::Assign { to, value } => (match to {
            Place::Element { array, indices, .. } => value_asks(array, patterns, p, t) || values_ask(
                indices@,
                patterns,
                p,
                t,
            ),
            Place::Local(_) => false,
        }) || value_asks(value, patterns, p, t),
        Stmt::Extend { array, value } => value_asks(array, patterns, p, t) || value_asks(value, patterns, p, t),
        Stmt::Print { pieces, .. } => pieces_ask(pieces@, patterns, p, t),
    }
}

/// Whether some statement in a list asks for it.
pub open spec fn stmts_ask(ss: Seq<Stmt>, patterns: Seq<bool>, p: int, t: TyView) -> bool
    decreases ss,
{
    if ss.len() == 0 {
        false
    } else {
        stmt_asks(ss.last(), patterns, p, t) || stmts_ask(ss.drop_last(), patterns, p, t)
    }
}

/// Whether some arm, question or body, asks for it.
pub open spec fn arms_ask(arms: Seq<Arm<Stmt>>, patterns: Seq<bool>, p: int, t: TyView) -> bool
    decreases arms,
{
    if arms.len() == 0 {
        false
    } else {
        value_asks(arms.last().condition, patterns, p, t) || stmts_ask(arms.last().body@, patterns, p, t)
            || arms_ask(arms.drop_last(), patterns, p, t)
    }
}

/// Whether a list of pairs holds pattern `p` at `t`.
pub open spec fn has_pair(found: Seq<(usize, Ty)>, p: int, t: TyView) -> bool {
    exists|k: int| 0 <= k < found.len() && (#[trigger] found[k]).0 == p && found[k].1@ == t
}

/// What was found before is kept, and everything found since is asked for well.
pub open spec fn found_more(before: Seq<(usize, Ty)>, after: Seq<(usize, Ty)>, patterns: Seq<bool>, clean: bool) -> bool {
    &&& before.len() <= after.len()
    &&& forall|k: int| 0 <= k < before.len() ==> after[k] == before[k]
    &&& forall|k: int| before.len() <= k < after.len() ==> asked_well(#[trigger] after[k], patterns, clean)
}


/// A pair a list held, a list it is the start of holds too.
proof fn lemma_pairs_kept(a: Seq<(usize, Ty)>, b: Seq<(usize, Ty)>)
    requires
        a.len() <= b.len(),
        forall|k: int| 0 <= k < a.len() ==> b[k] == a[k],
    ensures
        forall|p: int, t: TyView| has_pair(a, p, t) ==> #[trigger] has_pair(b, p, t),
{
    assert forall|p: int, t: TyView| has_pair(a, p, t) implies #[trigger] has_pair(b, p, t) by {
        let k = choose|k: int| 0 <= k < a.len() && (#[trigger] a[k]).0 == p && a[k].1@ == t;
        assert(b[k] == a[k]);
    }
}


/// A pair the end of a list holds, the whole list holds.
proof fn lemma_pairs_at_end(a: Seq<(usize, Ty)>, b: Seq<(usize, Ty)>)
    ensures
        forall|p: int, t: TyView| has_pair(b, p, t) ==> #[trigger] has_pair(a + b, p, t),
{
    assert forall|p: int, t: TyView| has_pair(b, p, t) implies #[trigger] has_pair(a + b, p, t) by {
        let k = choose|k: int| 0 <= k < b.len() && (#[trigger] b[k]).0 == p && b[k].1@ == t;
        assert((a + b)[a.len() + k] == b[k]);
    }
}

fn ask_call(func: u32, fill: &Option<Ty>, patterns: &Vec<bool>, found: &mut Vec<(usize, Ty)>)
    ensures
        found_more(old(found)@, final(found)@, patterns@, no_hole(*fill)),
        forall|p: int, t: TyView| call_asks(func, *fill, patterns@, p, t) ==> #[trigger] has_pair(final(found)@, p, t),
        forall|k: int|
            old(found)@.len() <= k < final(found)@.len() ==> call_asks(
                func,
                *fill,
                patterns@,
                (#[trigger] final(found)@[k]).0 as int,
                final(found)@[k].1@,
            ),
{
    match fill {
        Some(f) => {
            let which = func as usize;
            if which < patterns.len() && patterns[which] {
                let c = f.clone();
                found.push((which, c));
                assert(found@[found@.len() - 1] == (which, c));
            }
        },
        None => {},
    }
}

fn ask_value(v: &Value, patterns: &Vec<bool>, found: &mut Vec<(usize, Ty)>)
    ensures
        found_more(old(found)@, final(found)@, patterns@, value_clean(*v, false)),
        forall|p: int, t: TyView| value_asks(*v, patterns@, p, t) ==> #[trigger] has_pair(final(found)@, p, t),
        forall|k: int|
            old(found)@.len() <= k < final(found)@.len() ==> value_asks(
                *v,
                patterns@,
                (#[trigger] final(found)@[k]).0 as int,
                final(found)@[k].1@,
            ),
    decreases *v,
{
    let ghost clean = value_clean(*v, false);
    match v {
        Value::Binary { lhs, rhs, .. } => {
            let ghost f0 = found@;
            ask_value(lhs, patterns, found);
            let ghost f1 = found@;
            ask_value(rhs, patterns, found);
            assert(found_more(f0, found@, patterns@, clean));
            proof {
                lemma_pairs_kept(f1, found@);
                assert forall|k: int| f0.len() <= k < found@.len() implies value_asks(
                    *v,
                    patterns@,
                    (#[trigger] found@[k]).0 as int,
                    found@[k].1@,
                ) by {
                    if k < f1.len() {
                        assert(found@[k] == f1[k]);
                    }
                }
            }
        },
        Value::Array { elements, .. } => {
            proof {
                assert(decreases_to!(*v => v->elements));
            }
            ask_values(elements, patterns, found);
        },
        Value::At { array, indices, .. } => {
            proof {
                assert(decreases_to!(*v => v->indices));
            }
            let ghost f0 = found@;
            ask_value(array, patterns, found);
            let ghost f1 = found@;
            ask_values(indices, patterns, found);
            assert(found_more(f0, found@, patterns@, clean));
            proof {
                lemma_pairs_kept(f1, found@);
                assert forall|k: int| f0.len() <= k < found@.len() implies value_asks(
                    *v,
                    patterns@,
                    (#[trigger] found@[k]).0 as int,
                    found@[k].1@,
                ) by {
                    if k < f1.len() {
                        assert(found@[k] == f1[k]);
                    }
                }
            }
        },
        Value::Join(pieces) => {
            proof {
                assert(decreases_to!(*v => v->Join_0));
            }
            ask_values(pieces, patterns, found);
        },
        Value::Maths { of, .. } => {
            proof {
                assert(decreases_to!(*v => v->Maths_of));
            }
            ask_values(of, patterns, found);
        },
        Value::Slowly { of, .. } => {
            proof {
                assert(decreases_to!(*v => v->Slowly_of));
            }
            ask_values(of, patterns, found);
        },
        Value::Pieces { of, .. } => {
            proof {
                assert(decreases_to!(*v => v->Pieces_of));
            }
            ask_values(of, patterns, found);
        },
        Value::Said { of, .. } => ask_value(of, patterns, found),
        Value::Not(of) => ask_value(of, patterns, found),
        Value::Copied(of) => ask_value(of, patterns, found),
        Value::CountText(of) => ask_value(of, patterns, found),
        Value::Count(of) => ask_value(of, patterns, found),
        Value::CanRead { text, .. } => ask_value(text, patterns, found),
        Value::Read { text, .. } => ask_value(text, patterns, found),
        Value::Call { func, args, fill } => {
            proof {
                assert(decreases_to!(*v => v->Call_args));
            }
            let ghost f0 = found@;
            ask_call(*func, fill, patterns, found);
            let ghost f1 = found@;
            ask_values(args, patterns, found);
            assert(found_more(f0, found@, patterns@, clean));
            proof {
                lemma_pairs_kept(f1, found@);
                assert forall|k: int| f0.len() <= k < found@.len() implies value_asks(
                    *v,
                    patterns@,
                    (#[trigger] found@[k]).0 as int,
                    found@[k].1@,
                ) by {
                    if k < f1.len() {
                        assert(found@[k] == f1[k]);
                    }
                }
            }
        },
        _ => {},
    }
}

fn ask_values(vs: &Vec<Value>, patterns: &Vec<bool>, found: &mut Vec<(usize, Ty)>)
    ensures
        found_more(old(found)@, final(found)@, patterns@, values_clean(vs@, false)),
        forall|p: int, t: TyView| values_ask(vs@, patterns@, p, t) ==> #[trigger] has_pair(final(found)@, p, t),
        forall|k: int|
            old(found)@.len() <= k < final(found)@.len() ==> values_ask(
                vs@,
                patterns@,
                (#[trigger] final(found)@[k]).0 as int,
                final(found)@[k].1@,
            ),
    decreases *vs,
{
    proof {
        lemma_values_clean(vs@, false);
    }
    let ghost f0 = found@;
    let mut i: usize = 0;
    assert(vs@.take(0) =~= Seq::<Value>::empty());
    while i < vs.len()
        invariant
            i <= vs@.len(),
            found_more(f0, found@, patterns@, values_clean(vs@, false)),
            values_clean(vs@, false) <==> forall|j: int| 0 <= j < vs@.len() ==> value_clean(#[trigger] vs@[j], false),
            f0 == old(found)@,
            forall|p: int, t: TyView| values_ask(vs@.take(i as int), patterns@, p, t) ==> #[trigger] has_pair(found@, p, t),
            forall|k: int|
                f0.len() <= k < found@.len() ==> values_ask(
                    vs@.take(i as int),
                    patterns@,
                    (#[trigger] found@[k]).0 as int,
                    found@[k].1@,
                ),
        decreases vs.len() - i,
    {
        proof {
            assert(decreases_to!(*vs => vs@));
            assert(decreases_to!(vs@ => vs@[i as int]));
        }
        let ghost f1 = found@;
        ask_value(&vs[i], patterns, found);
        proof {
            lemma_pairs_kept(f1, found@);
            assert(vs@.take(i + 1).drop_last() =~= vs@.take(i as int));
            assert(vs@.take(i + 1).last() == vs@[i as int]);
            assert forall|k: int| f0.len() <= k < found@.len() implies values_ask(
                vs@.take(i + 1),
                patterns@,
                (#[trigger] found@[k]).0 as int,
                found@[k].1@,
            ) by {
                if k < f1.len() {
                    assert(found@[k] == f1[k]);
                }
            }
        }
        assert(found_more(f0, found@, patterns@, values_clean(vs@, false))) by {
            if values_clean(vs@, false) {
                assert(value_clean(vs@[i as int], false));
            }
        }
        i = i + 1;
    }
    assert(vs@.take(i as int) =~= vs@);
}


fn ask_flow(f: &Flow, patterns: &Vec<bool>, found: &mut Vec<(usize, Ty)>)
    ensures
        found_more(old(found)@, final(found)@, patterns@, flow_clean(*f, false)),
        forall|p: int, t: TyView| flow_asks(*f, patterns@, p, t) ==> #[trigger] has_pair(final(found)@, p, t),
        forall|k: int|
            old(found)@.len() <= k < final(found)@.len() ==> flow_asks(
                *f,
                patterns@,
                (#[trigger] final(found)@[k]).0 as int,
                final(found)@[k].1@,
            ),
{
    match f {
        Flow::Range { from, to, .. } => {
            let ghost f0 = found@;
            ask_value(from, patterns, found);
            let ghost f1 = found@;
            ask_value(to, patterns, found);
            proof {
                lemma_pairs_kept(f1, found@);
                assert forall|k: int| f0.len() <= k < found@.len() implies flow_asks(
                    *f,
                    patterns@,
                    (#[trigger] found@[k]).0 as int,
                    found@[k].1@,
                ) by {
                    if k < f1.len() {
                        assert(found@[k] == f1[k]);
                    }
                }
            }
        },
        Flow::While(condition) => ask_value(condition, patterns, found),
    }
}

fn ask_printed(ps: &Vec<Printed>, patterns: &Vec<bool>, found: &mut Vec<(usize, Ty)>)
    ensures
        found_more(old(found)@, final(found)@, patterns@, printed_clean(ps@, false)),
        forall|p: int, t: TyView| pieces_ask(ps@, patterns@, p, t) ==> #[trigger] has_pair(final(found)@, p, t),
        forall|k: int|
            old(found)@.len() <= k < final(found)@.len() ==> pieces_ask(
                ps@,
                patterns@,
                (#[trigger] final(found)@[k]).0 as int,
                final(found)@[k].1@,
            ),
{
    proof {
        lemma_printed_clean(ps@, false);
    }
    let ghost f0 = found@;
    let mut i: usize = 0;
    while i < ps.len()
        invariant
            i <= ps@.len(),
            found_more(f0, found@, patterns@, printed_clean(ps@, false)),
            printed_clean(ps@, false) <==> forall|j: int| 0 <= j < ps@.len() ==> printed_ok(#[trigger] ps@[j], false),
            f0 == old(found)@,
            forall|p: int, t: TyView|
                (exists|j: int| 0 <= j < i && piece_asks(#[trigger] ps@[j], patterns@, p, t)) ==> #[trigger] has_pair(
                    found@,
                    p,
                    t,
                ),
            forall|k: int|
                f0.len() <= k < found@.len() ==> exists|j: int|
                    0 <= j < i && piece_asks(
                        #[trigger] ps@[j],
                        patterns@,
                        (#[trigger] found@[k]).0 as int,
                        found@[k].1@,
                    ),
        decreases ps.len() - i,
    {
        let ghost f1 = found@;
        match &ps[i] {
            Printed::Value { value, .. } => {
                ask_value(value, patterns, found);
                proof {
                    lemma_pairs_kept(f1, found@);
                    assert forall|k: int| f0.len() <= k < found@.len() implies exists|j: int|
                        0 <= j < i + 1 && piece_asks(
                            #[trigger] ps@[j],
                            patterns@,
                            (#[trigger] found@[k]).0 as int,
                            found@[k].1@,
                        ) by {
                        if k < f1.len() {
                            assert(found@[k] == f1[k]);
                        } else {
                            assert(piece_asks(ps@[i as int], patterns@, found@[k].0 as int, found@[k].1@));
                        }
                    }
                }
                assert(found_more(f0, found@, patterns@, printed_clean(ps@, false))) by {
                    if printed_clean(ps@, false) {
                        assert(printed_ok(ps@[i as int], false));
                    }
                }
            },
            Printed::Text(_) => {},
        }
        i = i + 1;
    }
}

fn ask_stmt(st: &Stmt, patterns: &Vec<bool>, found: &mut Vec<(usize, Ty)>)
    ensures
        found_more(old(found)@, final(found)@, patterns@, stmt_clean(*st, false)),
        forall|p: int, t: TyView| stmt_asks(*st, patterns@, p, t) ==> #[trigger] has_pair(final(found)@, p, t),
        forall|k: int|
            old(found)@.len() <= k < final(found)@.len() ==> stmt_asks(
                *st,
                patterns@,
                (#[trigger] final(found)@[k]).0 as int,
                final(found)@[k].1@,
            ),
    decreases *st,
{
    let ghost clean = stmt_clean(*st, false);
    let ghost f0 = found@;
    match st {
        Stmt::Declare { value, .. } => ask_value(value, patterns, found),
        Stmt::Give(v) => match v {
            Some(x) => ask_value(x, patterns, found),
            None => {},
        },
        Stmt::Break => {},
        Stmt::If { arms, otherwise, .. } => {
            proof {
                assert(decreases_to!(*st => st->arms));
            }
            ask_arms(arms, patterns, found);
            let ghost f1 = found@;
            match otherwise {
                Some(body) => {
                    proof {
                        assert(decreases_to!(*st => st->otherwise));
                        assert(decreases_to!(st->otherwise => st->otherwise->0));
                    }
                    ask_stmts(body, patterns, found);
                },
                None => {},
            }
            assert(found_more(f0, found@, patterns@, clean));
            proof {
                lemma_pairs_kept(f1, found@);
                assert forall|k: int| f0.len() <= k < found@.len() implies stmt_asks(
                    *st,
                    patterns@,
                    (#[trigger] found@[k]).0 as int,
                    found@[k].1@,
                ) by {
                    if k < f1.len() {
                        assert(found@[k] == f1[k]);
                    }
                }
            }
        },
        Stmt::Loop { flow, body, .. } => {
            proof {
                assert(decreases_to!(*st => st->Loop_body));
            }
            ask_flow(flow, patterns, found);
            let ghost f1 = found@;
            ask_stmts(body, patterns, found);
            assert(found_more(f0, found@, patterns@, clean));
            proof {
                lemma_pairs_kept(f1, found@);
                assert forall|k: int| f0.len() <= k < found@.len() implies stmt_asks(
                    *st,
                    patterns@,
                    (#[trigger] found@[k]).0 as int,
                    found@[k].1@,
                ) by {
                    if k < f1.len() {
                        assert(found@[k] == f1[k]);
                    }
                }
            }
        },
        Stmt::Do { func, args, fill } => {
            // A call written for what it does is a call, and asks for its copy the same way.
            ask_call(*func, fill, patterns, found);
            let ghost f1 = found@;
            ask_values(args, patterns, found);
            assert(found_more(f0, found@, patterns@, clean));
            proof {
                lemma_pairs_kept(f1, found@);
                assert forall|k: int| f0.len() <= k < found@.len() implies stmt_asks(
                    *st,
                    patterns@,
                    (#[trigger] found@[k]).0 as int,
                    found@[k].1@,
                ) by {
                    if k < f1.len() {
                        assert(found@[k] == f1[k]);
                    }
                }
            }
        },
        Stmt::Assign { to, value } => {
            match to {
                Place::Element { array, indices, .. } => {
                    ask_value(array, patterns, found);
                    let ghost f1 = found@;
                    ask_values(indices, patterns, found);
                    proof {
                        lemma_pairs_kept(f1, found@);
                        assert forall|k: int| f0.len() <= k < found@.len() implies stmt_asks(
                            *st,
                            patterns@,
                            (#[trigger] found@[k]).0 as int,
                            found@[k].1@,
                        ) by {
                            if k < f1.len() {
                                assert(found@[k] == f1[k]);
                            }
                        }
                    }
                },
                Place::Local(_) => {},
            }
            let ghost f2 = found@;
            ask_value(value, patterns, found);
            assert(found_more(f0, found@, patterns@, clean));
            proof {
                lemma_pairs_kept(f2, found@);
                assert forall|k: int| f0.len() <= k < found@.len() implies stmt_asks(
                    *st,
                    patterns@,
                    (#[trigger] found@[k]).0 as int,
                    found@[k].1@,
                ) by {
                    if k < f2.len() {
                        assert(found@[k] == f2[k]);
                    }
                }
            }
        },
        Stmt::Extend { array, value } => {
            ask_value(array, patterns, found);
            let ghost f1 = found@;
            ask_value(value, patterns, found);
            assert(found_more(f0, found@, patterns@, clean));
            proof {
                lemma_pairs_kept(f1, found@);
                assert forall|k: int| f0.len() <= k < found@.len() implies stmt_asks(
                    *st,
                    patterns@,
                    (#[trigger] found@[k]).0 as int,
                    found@[k].1@,
                ) by {
                    if k < f1.len() {
                        assert(found@[k] == f1[k]);
                    }
                }
            }
        },
        Stmt::Print { pieces, .. } => ask_printed(pieces, patterns, found),
    }
}

fn ask_stmts(ss: &Vec<Stmt>, patterns: &Vec<bool>, found: &mut Vec<(usize, Ty)>)
    ensures
        found_more(old(found)@, final(found)@, patterns@, stmts_clean(ss@, false)),
        forall|p: int, t: TyView| stmts_ask(ss@, patterns@, p, t) ==> #[trigger] has_pair(final(found)@, p, t),
        forall|k: int|
            old(found)@.len() <= k < final(found)@.len() ==> stmts_ask(
                ss@,
                patterns@,
                (#[trigger] final(found)@[k]).0 as int,
                final(found)@[k].1@,
            ),
    decreases *ss,
{
    proof {
        lemma_stmts_clean(ss@, false);
    }
    let ghost f0 = found@;
    let mut i: usize = 0;
    assert(ss@.take(0) =~= Seq::<Stmt>::empty());
    while i < ss.len()
        invariant
            i <= ss@.len(),
            found_more(f0, found@, patterns@, stmts_clean(ss@, false)),
            stmts_clean(ss@, false) <==> forall|j: int| 0 <= j < ss@.len() ==> stmt_clean(#[trigger] ss@[j], false),
            f0 == old(found)@,
            forall|p: int, t: TyView| stmts_ask(ss@.take(i as int), patterns@, p, t) ==> #[trigger] has_pair(found@, p, t),
            forall|k: int|
                f0.len() <= k < found@.len() ==> stmts_ask(
                    ss@.take(i as int),
                    patterns@,
                    (#[trigger] found@[k]).0 as int,
                    found@[k].1@,
                ),
        decreases ss.len() - i,
    {
        proof {
            assert(decreases_to!(*ss => ss@));
            assert(decreases_to!(ss@ => ss@[i as int]));
        }
        let ghost f1 = found@;
        ask_stmt(&ss[i], patterns, found);
        proof {
            lemma_pairs_kept(f1, found@);
            assert(ss@.take(i + 1).drop_last() =~= ss@.take(i as int));
            assert(ss@.take(i + 1).last() == ss@[i as int]);
            assert forall|k: int| f0.len() <= k < found@.len() implies stmts_ask(
                ss@.take(i + 1),
                patterns@,
                (#[trigger] found@[k]).0 as int,
                found@[k].1@,
            ) by {
                if k < f1.len() {
                    assert(found@[k] == f1[k]);
                }
            }
        }
        assert(found_more(f0, found@, patterns@, stmts_clean(ss@, false))) by {
            if stmts_clean(ss@, false) {
                assert(stmt_clean(ss@[i as int], false));
            }
        }
        i = i + 1;
    }
    assert(ss@.take(i as int) =~= ss@);
}

fn ask_arms(arms: &Vec<Arm<Stmt>>, patterns: &Vec<bool>, found: &mut Vec<(usize, Ty)>)
    ensures
        found_more(old(found)@, final(found)@, patterns@, arms_clean(arms@, false)),
        forall|p: int, t: TyView| arms_ask(arms@, patterns@, p, t) ==> #[trigger] has_pair(final(found)@, p, t),
        forall|k: int|
            old(found)@.len() <= k < final(found)@.len() ==> arms_ask(
                arms@,
                patterns@,
                (#[trigger] final(found)@[k]).0 as int,
                final(found)@[k].1@,
            ),
    decreases *arms,
{
    proof {
        lemma_arms_clean(arms@, false);
    }
    let ghost f0 = found@;
    let mut i: usize = 0;
    assert(arms@.take(0) =~= Seq::<Arm<Stmt>>::empty());
    while i < arms.len()
        invariant
            i <= arms@.len(),
            found_more(f0, found@, patterns@, arms_clean(arms@, false)),
            arms_clean(arms@, false) <==> forall|j: int|
                0 <= j < arms@.len() ==> value_clean((#[trigger] arms@[j]).condition, false) && stmts_clean(arms@[j].body@, false),
            f0 == old(found)@,
            forall|p: int, t: TyView| arms_ask(arms@.take(i as int), patterns@, p, t) ==> #[trigger] has_pair(found@, p, t),
            forall|k: int|
                f0.len() <= k < found@.len() ==> arms_ask(
                    arms@.take(i as int),
                    patterns@,
                    (#[trigger] found@[k]).0 as int,
                    found@[k].1@,
                ),
        decreases arms.len() - i,
    {
        proof {
            assert(decreases_to!(*arms => arms@));
            assert(decreases_to!(arms@ => arms@[i as int]));
            assert(decreases_to!(arms@[i as int] => arms@[i as int].body));
        }
        let ghost f1 = found@;
        ask_value(&arms[i].condition, patterns, found);
        let ghost f2 = found@;
        ask_stmts(&arms[i].body, patterns, found);
        proof {
            lemma_pairs_kept(f1, f2);
            lemma_pairs_kept(f2, found@);
            assert(arms@.take(i + 1).drop_last() =~= arms@.take(i as int));
            assert(arms@.take(i + 1).last() == arms@[i as int]);
            assert forall|k: int| f0.len() <= k < found@.len() implies arms_ask(
                arms@.take(i + 1),
                patterns@,
                (#[trigger] found@[k]).0 as int,
                found@[k].1@,
            ) by {
                if k < f1.len() {
                    assert(found@[k] == f1[k]);
                } else if k < f2.len() {
                    assert(found@[k] == f2[k]);
                }
            }
        }
        assert(found_more(f0, found@, patterns@, arms_clean(arms@, false))) by {
            if arms_clean(arms@, false) {
                assert(value_clean(arms@[i as int].condition, false));
            }
        }
        i = i + 1;
    }
    assert(arms@.take(i as int) =~= arms@);
}

/// Every `(pattern, fill)` a body asks for: each call, of either kind, naming a pattern and
/// saying what its hole turned out to be.
pub fn asked(body: &Vec<Stmt>, patterns: &Vec<bool>) -> (found: Vec<(usize, Ty)>)
    ensures
        forall|k: int| 0 <= k < found@.len() ==> asked_well(#[trigger] found@[k], patterns@, stmts_clean(body@, false)),
        forall|p: int, t: TyView| stmts_ask(body@, patterns@, p, t) ==> #[trigger] has_pair(found@, p, t),
        forall|k: int|
            0 <= k < found@.len() ==> stmts_ask(body@, patterns@, (#[trigger] found@[k]).0 as int, found@[k].1@),
{
    let mut found: Vec<(usize, Ty)> = Vec::new();
    ask_stmts(body, patterns, &mut found);
    found
}



/// How many copies one program may ask for before this gives up.
///
/// A pattern that calls itself at a wider type than it was given asks for an unbounded
/// number of them, and no amount of work finishes it. Nothing sensible reaches this;
/// something looping does.
pub const ENOUGH: usize = 256;

/// How many of the first `s` functions are real rather than patterns.
pub open spec fn reals_before(funcs: Seq<Func>, s: int) -> int
    decreases s,
{
    if s <= 0 {
        0
    } else {
        reals_before(funcs, s - 1) + if funcs[s - 1].hole is None {
            1int
        } else {
            0int
        }
    }
}

proof fn lemma_reals_before_grows(funcs: Seq<Func>, a: int, b: int)
    requires
        0 <= a <= b,
    ensures
        reals_before(funcs, a) <= reals_before(funcs, b) <= reals_before(funcs, a) + (b - a),
    decreases b - a,
{
    if a < b {
        lemma_reals_before_grows(funcs, a, b - 1);
    }
}

proof fn lemma_reals_before_step(funcs: Seq<Func>, s: int)
    requires
        0 <= s,
    ensures
        0 <= reals_before(funcs, s),
        reals_before(funcs, s + 1) == reals_before(funcs, s) + if funcs[s].hole is None {
            1int
        } else {
            0int
        },
{
    lemma_reals_before_grows(funcs, 0, s);
}

/// Every place below the count of real functions is the place of one of them.
proof fn lemma_reals_onto(funcs: Seq<Func>, s: int, c: int)
    requires
        0 <= s <= funcs.len(),
        0 <= c < reals_before(funcs, s),
    ensures
        exists|j: int| 0 <= j < s && funcs[j].hole is None && #[trigger] reals_before(funcs, j) == c,
    decreases s,
{
    if s > 0 {
        lemma_reals_before_step(funcs, s - 1);
        if c < reals_before(funcs, s - 1) {
            lemma_reals_onto(funcs, s - 1, c);
            let j = choose|j: int| 0 <= j < s - 1 && funcs[j].hole is None && #[trigger] reals_before(funcs, j) == c;
            assert(0 <= j < s && funcs[j].hole is None && reals_before(funcs, j) == c);
        } else {
            assert(funcs[s - 1].hole is None && reals_before(funcs, s - 1) == c);
        }
    }
}

/// Whether one of the first `upto` of `fs` asks for pattern `p` at `t`.
spec fn asked_among(fs: Seq<Func>, upto: int, patterns: Seq<bool>, p: int, t: TyView) -> bool {
    exists|c: int| 0 <= c < upto && #[trigger] stmts_ask(fs[c].body@, patterns, p, t)
}

proof fn lemma_asked_among_grows(
    a: Seq<Func>,
    b: Seq<Func>,
    x: int,
    y: int,
    patterns: Seq<bool>,
    p: int,
    t: TyView,
)
    requires
        a.len() <= b.len(),
        forall|c: int| 0 <= c < a.len() ==> #[trigger] b[c] == a[c],
        x <= a.len(),
        x <= y,
        asked_among(a, x, patterns, p, t),
    ensures
        asked_among(b, y, patterns, p, t),
{
    let c = choose|c: int| 0 <= c < x && #[trigger] stmts_ask(a[c].body@, patterns, p, t);
    assert(b[c] == a[c]);
    assert(stmts_ask(b[c].body@, patterns, p, t));
}

/// The longest name among some functions, in characters.
pub open spec fn longest_name(funcs: Seq<Func>) -> nat
    decreases funcs.len(),
{
    if funcs.len() == 0 {
        0
    } else {
        let rest = longest_name(funcs.drop_last());
        let here = funcs.last().name@.len();
        if here > rest {
            here
        } else {
            rest
        }
    }
}

proof fn lemma_longest_name(funcs: Seq<Func>, j: int)
    requires
        0 <= j < funcs.len(),
    ensures
        funcs[j].name@.len() <= longest_name(funcs),
    decreases funcs.len(),
{
    if j < funcs.len() - 1 {
        lemma_longest_name(funcs.drop_last(), j);
    }
}

fn named_already(funcs: &Vec<Func>, called: &String) -> (b: bool)
    ensures
        b == exists|j: int| 0 <= j < funcs@.len() && (#[trigger] funcs@[j]).name@ == called@,
{
    let mut j: usize = 0;
    while j < funcs.len()
        invariant
            j <= funcs@.len(),
            forall|k: int| 0 <= k < j ==> (#[trigger] funcs@[k]).name@ != called@,
        decreases funcs.len() - j,
    {
        if funcs[j].name == *called {
            return true;
        }
        j = j + 1;
    }
    false
}


/// Whether two lists of variables are the same variables, types included.
pub open spec fn locals_alike(a: Seq<Local>, b: Seq<Local>) -> bool {
    &&& a.len() == b.len()
    &&& forall|i: int|
        0 <= i < a.len() ==> {
            &&& (#[trigger] b[i]).name@ == a[i].name@
            &&& b[i].ty@ == a[i].ty@
            &&& b[i].mutable == a[i].mutable
            &&& b[i].at == a[i].at
            &&& b[i].chain == a[i].chain
            &&& b[i].counter == a[i].counter
        }
}

/// Whether two functions say the same about themselves: everything but the body.
pub open spec fn head_alike(f: Func, g: Func) -> bool {
    &&& g.name@ == f.name@
    &&& g.visibility == f.visibility
    &&& g.hole == f.hole
    &&& g.takes == f.takes
    &&& g.at == f.at
    &&& g.returns is Some == f.returns is Some
    &&& (g.returns matches Some(r) ==> r@ == f.returns->0@)
    &&& locals_alike(f.locals@, g.locals@)
}

/// The same function, with every call in its body pointed at the function it meant.
fn pointed(f: &Func, made: &Vec<(usize, Ty, usize)>, moved: &Vec<Option<usize>>) -> (g: Func)
    ensures
        head_alike(*f, g),
        stmts_done(f.body@, g.body@, Job::Point(made, moved)),
        func_clean(*f, false) ==> func_clean(g, true),
{
    let mut locals: Vec<Local> = Vec::new();
    let mut i: usize = 0;
    while i < f.locals.len()
        invariant
            i <= f.locals@.len(),
            locals@.len() == i,
            locals_alike(f.locals@.take(i as int), locals@),
        decreases f.locals.len() - i,
    {
        let l = &f.locals[i];
        locals.push(
            Local {
                name: l.name.clone(),
                ty: l.ty.clone(),
                mutable: l.mutable,
                at: l.at,
                chain: l.chain,
                counter: l.counter,
            },
        );
        assert(f.locals@.take(i + 1)[i as int] == f.locals@[i as int]);
        i = i + 1;
    }
    assert(f.locals@.take(i as int) =~= f.locals@);
    let answer = match &f.returns {
        Some(ty) => Some(ty.clone()),
        None => None,
    };
    Func {
        name: f.name.clone(),
        visibility: f.visibility,
        returns: answer,
        hole: f.hole,
        takes: f.takes,
        locals,
        body: remade_stmts(&f.body, &Job::Point(made, moved)),
        at: f.at,
    }
}

/// What is said when a program asks for more copies than can be written out.
pub open spec fn too_many_message(name: Seq<char>) -> Seq<char> {
    "`'"@ + name + "'` is asked for at more types than this can write out."@
}

fn too_many(pattern: &Func) -> (d: Diagnostic)
    ensures
        d.code@ == "E0504"@,
        d.message@ == too_many_message(pattern.name@),
{
    let mut message = String::from_str("`'");
    message.append(pattern.name.as_str());
    message.append("'` is asked for at more types than this can write out.");
    Diagnostic::new("E0504", message.as_str())
        .primary(pattern.at, "here")
        .rule("a function with a hole is copied once for every type it is used at, and the list has to end")
        .tip("a function that calls itself at a *wider* type each time asks for an endless number of copies -- an `any` handed an array of itself, most often.")
        .fix("give the recursive call the type it was given, rather than one built out of it")
}

/// The name a copy gets: its pattern's, the type it was made at in brackets, and as many
/// marks as it took to be a name nothing else had.
pub open spec fn copy_name(pattern: Seq<char>, fill: TyView, marks: nat) -> Seq<char> {
    pattern + " ("@ + name_of(fill) + ")"@ + Seq::new(marks, |_i: int| '\'')
}

/// Whether a function with this name, visibility and place is a copy of one of these
/// patterns: it points where the pattern did, is seen from where the pattern was, and is
/// named after it.
pub open spec fn copy_of(name: Seq<char>, visibility: Option<Visibility>, at: Span, funcs: Seq<Func>) -> bool {
    exists|p: int, fill: TyView, marks: nat|
        #![trigger copy_name(funcs[p].name@, fill, marks)]
        0 <= p < funcs.len() && funcs[p].hole is Some && name == copy_name(funcs[p].name@, fill, marks)
            && visibility == funcs[p].visibility && at == funcs[p].at
}

/// Whether every real function among these is clean, as a checked program's are.
pub open spec fn tidy(funcs: Seq<Func>) -> bool {
    forall|i: int| 0 <= i < funcs.len() && (#[trigger] funcs[i]).hole is None ==> func_clean(funcs[i], false)
}



/// Which functions are patterns.
pub open spec fn patterns_of(funcs: Seq<Func>) -> Seq<bool> {
    Seq::new(funcs.len(), |j: int| funcs[j].hole is Some)
}

/// Whether a copy of pattern `p` at `t` is among those made.
pub open spec fn made_has(made: Seq<(usize, Ty, usize)>, p: int, t: TyView) -> bool {
    exists|m: int| 0 <= m < made.len() && (#[trigger] made[m]).0 == p && made[m].1@ == t
}

/// A copy that was made is one `first_made` finds: a call asking for it points at a copy
/// made for exactly its pattern and fill.
pub proof fn law_a_copy_made_is_found(made: Seq<(usize, Ty, usize)>, p: int, t: TyView)
    requires
        made_has(made, p, t),
    ensures
        first_made(made, p, t) matches Some(m) && 0 <= m < made.len() && made[m].0 == p && made[m].1@ == t,
    decreases made.len(),
{
    if made.len() > 0 && !(made[0].0 == p && made[0].1@ == t) {
        let k = choose|k: int| 0 <= k < made.len() && (#[trigger] made[k]).0 == p && made[k].1@ == t;
        let rest = made.drop_first();
        assert(rest[k - 1] == made[k]);
        law_a_copy_made_is_found(rest, p, t);
        let m = first_made(rest, p, t)->0;
        assert(rest[m] == made[m + 1]);
    }
}

/// Where a function went once the patterns were taken out: a real one to its place among
/// the real ones, a pattern nowhere.
pub open spec fn moved_to(funcs: Seq<Func>, j: int) -> Option<usize> {
    if funcs[j].hole is None {
        Some(reals_before(funcs, j) as usize)
    } else {
        None
    }
}

/// Whether `c` is the copy of the pattern `p` made at `fill`, before its calls were
/// pointed: no hole, seen and placed as the pattern was, and the pattern's body with the
/// fill written in.
pub open spec fn copy_made(p: Func, fill: Ty, c: Func) -> bool {
    &&& c.hole is None
    &&& c.visibility == p.visibility
    &&& c.at == p.at
    &&& c.takes == p.takes
    &&& stmts_done(p.body@, c.body@, Job::Fill(&fill))
}

/// Whether pattern `p` at `t` is asked for by a real function of `funcs`, or by one of
/// the first `m` of `copies`.
pub open spec fn asked_before(funcs: Seq<Func>, copies: Seq<Func>, p: int, t: TyView, m: int) -> bool {
    ||| exists|j: int|
        0 <= j < funcs.len() && funcs[j].hole is None && #[trigger] stmts_ask(funcs[j].body@, patterns_of(funcs), p, t)
    ||| exists|k: int| 0 <= k < m && #[trigger] stmts_ask(copies[k].body@, patterns_of(funcs), p, t)
}

/// Whether `out` is `funcs` with its patterns replaced by the copies `made` lists, every
/// call pointed by `made` and `moved`: real functions first, in their order, and the copy
/// `made[m]` at `reals + m`, no two copies for one pattern and fill. `copies` are the
/// copies as they were made, before their calls were pointed, and each was asked for by a
/// real function or by a copy made before it.
pub open spec fn well_pointed(
    funcs: Seq<Func>,
    out: Seq<Func>,
    made: Vec<(usize, Ty, usize)>,
    moved: Vec<Option<usize>>,
    copies: Seq<Func>,
) -> bool {
    let reals = reals_before(funcs, funcs.len() as int);
    &&& moved@.len() == funcs.len()
    &&& forall|j: int| 0 <= j < funcs.len() ==> #[trigger] moved@[j] == moved_to(funcs, j)
    &&& made@.len() == out.len() - reals
    &&& copies.len() == made@.len()
    &&& forall|m1: int, m2: int|
        #![trigger made@[m1], made@[m2]]
        0 <= m1 < m2 < made@.len() ==> !(made@[m1].0 == made@[m2].0 && made@[m1].1@ == made@[m2].1@)
    &&& forall|m: int|
        0 <= m < made@.len() ==> {
            &&& (#[trigger] made@[m]).2 == reals + m
            &&& made@[m].0 < funcs.len()
            &&& funcs[made@[m].0 as int].hole is Some
            &&& copy_made(funcs[made@[m].0 as int], made@[m].1, copies[m])
            &&& head_alike(copies[m], out[reals + m])
            &&& stmts_done(copies[m].body@, out[reals + m].body@, Job::Point(&made, &moved))
            &&& forall|p: int, t: TyView|
                stmts_ask(copies[m].body@, patterns_of(funcs), p, t) ==> #[trigger] made_has(made@, p, t)
            &&& asked_before(funcs, copies, made@[m].0 as int, made@[m].1@, m)
        }
    &&& forall|j: int|
        0 <= j < funcs.len() && (#[trigger] funcs[j]).hole is None ==> {
            &&& head_alike(funcs[j], out[reals_before(funcs, j)])
            &&& stmts_done(funcs[j].body@, out[reals_before(funcs, j)].body@, Job::Point(&made, &moved))
            &&& forall|p: int, t: TyView|
                stmts_ask(funcs[j].body@, patterns_of(funcs), p, t) ==> #[trigger] made_has(made@, p, t)
        }
}

/// Whether a copy for this pattern and fill is among those made.
fn made_already(made: &Vec<(usize, Ty, usize)>, pattern: usize, fill: &Ty) -> (b: bool)
    ensures
        b == exists|m: int| 0 <= m < made@.len() && (#[trigger] made@[m]).0 == pattern && made@[m].1@ == fill@,
{
    let mut m: usize = 0;
    while m < made.len()
        invariant
            m <= made@.len(),
            forall|j: int| 0 <= j < m ==> !((#[trigger] made@[j]).0 == pattern && made@[j].1@ == fill@),
        decreases made.len() - m,
    {
        if made[m].0 == pattern && made[m].1.same(fill) {
            return true;
        }
        m = m + 1;
    }
    false
}


/// Every function with its calls pointed.
fn point_all(
    out: &Vec<Func>,
    made: &Vec<(usize, Ty, usize)>,
    moved: &Vec<Option<usize>>,
    Ghost(clean): Ghost<bool>,
) -> (result: Vec<Func>)
    requires
        forall|i: int| 0 <= i < out@.len() ==> (#[trigger] out@[i]).hole is None,
        clean ==> forall|i: int| 0 <= i < out@.len() ==> func_clean(#[trigger] out@[i], false),
    ensures
        result@.len() == out@.len(),
        forall|i: int|
            0 <= i < out@.len() ==> {
                &&& head_alike(out@[i], #[trigger] result@[i])
                &&& stmts_done(out@[i].body@, result@[i].body@, Job::Point(made, moved))
                &&& clean ==> func_clean(result@[i], true)
            },
{
    let mut result: Vec<Func> = Vec::new();
    let mut k: usize = 0;
    while k < out.len()
        invariant
            k <= out@.len(),
            result@.len() == k,
            forall|i: int| 0 <= i < out@.len() ==> (#[trigger] out@[i]).hole is None,
            clean ==> forall|i: int| 0 <= i < out@.len() ==> func_clean(#[trigger] out@[i], false),
            forall|i: int|
                0 <= i < k ==> {
                    &&& head_alike(out@[i], #[trigger] result@[i])
                    &&& stmts_done(out@[i].body@, result@[i].body@, Job::Point(made, moved))
                    &&& clean ==> func_clean(result@[i], true)
                },
        decreases out.len() - k,
    {
        result.push(pointed(&out[k], made, moved));
        k = k + 1;
    }
    result
}

/// Every copy the queue asks for, each walked in its turn because a copy may ask for
/// another, put on the end of `out`; and whether that finished, rather than stopping at
/// [`ENOUGH`] with E0504.
fn make_copies(
    out: &mut Vec<Func>,
    queue: Vec<(usize, Ty)>,
    pats: &Vec<Option<Func>>,
    patterns: &Vec<bool>,
    errors: &mut Vec<Diagnostic>,
    Ghost(orig): Ghost<Seq<Func>>,
) -> (r: (Vec<(usize, Ty, usize)>, bool))
    requires
        patterns@ == patterns_of(orig),
        pats@.len() == orig.len(),
        forall|j: int| 0 <= j < orig.len() && (#[trigger] orig[j]).hole is Some ==> pats@[j] == Some(orig[j]),
        old(out)@.len() == reals_before(orig, orig.len() as int),
        forall|i: int| 0 <= i < old(out)@.len() ==> (#[trigger] old(out)@[i]).hole is None,
        tidy(orig) ==> forall|i: int| 0 <= i < old(out)@.len() ==> func_clean(#[trigger] old(out)@[i], false),
        forall|m: int| 0 <= m < queue@.len() ==> asked_well(#[trigger] queue@[m], patterns@, tidy(orig)),
        forall|j: int|
            0 <= j < orig.len() && (#[trigger] orig[j]).hole is None ==> old(out)@[reals_before(orig, j)] == orig[j],
        forall|c: int, p: int, t: TyView|
            #![trigger stmts_ask(old(out)@[c].body@, patterns@, p, t)]
            0 <= c < old(out)@.len() && stmts_ask(old(out)@[c].body@, patterns@, p, t) ==> has_pair(queue@, p, t),
        forall|k: int|
            0 <= k < queue@.len() ==> asked_among(
                old(out)@,
                old(out)@.len() as int,
                patterns@,
                (#[trigger] queue@[k]).0 as int,
                queue@[k].1@,
            ),
    ensures
        ({
            let reals = reals_before(orig, orig.len() as int);
            let made = r.0;
            &&& final(out)@.len() == reals + made@.len()
            &&& made@.len() <= ENOUGH
            &&& forall|i: int| 0 <= i < final(out)@.len() ==> (#[trigger] final(out)@[i]).hole is None
            &&& tidy(orig) ==> forall|i: int| 0 <= i < final(out)@.len() ==> func_clean(#[trigger] final(out)@[i], false)
            &&& forall|c: int, j: int|
                #![trigger final(out)@[j], final(out)@[c]]
                reals <= c < final(out)@.len() && 0 <= j < c ==> final(out)@[j].name@ != final(out)@[c].name@
            &&& forall|j: int|
                0 <= j < orig.len() && (#[trigger] orig[j]).hole is None ==> final(out)@[reals_before(orig, j)] == orig[j]
            &&& forall|c: int|
                reals <= c < final(out)@.len() ==> copy_of(
                    (#[trigger] final(out)@[c]).name@,
                    final(out)@[c].visibility,
                    final(out)@[c].at,
                    orig,
                )
            &&& forall|m1: int, m2: int|
                #![trigger made@[m1], made@[m2]]
                0 <= m1 < m2 < made@.len() ==> !(made@[m1].0 == made@[m2].0 && made@[m1].1@ == made@[m2].1@)
            &&& forall|m: int|
                0 <= m < made@.len() ==> {
                    &&& (#[trigger] made@[m]).2 == reals + m
                    &&& made@[m].0 < orig.len()
                    &&& orig[made@[m].0 as int].hole is Some
                    &&& copy_made(orig[made@[m].0 as int], made@[m].1, final(out)@[reals + m])
                    &&& asked_among(final(out)@, reals + m, patterns@, made@[m].0 as int, made@[m].1@)
                }
            &&& r.1 ==> final(errors)@ == old(errors)@ && forall|c: int, p: int, t: TyView|
                #![trigger stmts_ask(final(out)@[c].body@, patterns@, p, t)]
                0 <= c < final(out)@.len() && stmts_ask(final(out)@[c].body@, patterns@, p, t) ==> made_has(made@, p, t)
            &&& !r.1 ==> final(errors)@.len() == old(errors)@.len() + 1 && final(errors)@.drop_last() == old(errors)@
                && final(errors)@.last().code@ == "E0504"@
        }),
{
    let n = pats.len();
    let reals = out.len();
    let mut queue = queue;
    let mut made: Vec<(usize, Ty, usize)> = Vec::new();
    while queue.len() > 0
        invariant
            n == orig.len(),
            patterns@.len() == n,
            pats@.len() == n,
            forall|j: int| 0 <= j < n ==> patterns@[j] == (#[trigger] orig[j]).hole is Some,
            forall|j: int| 0 <= j < n && (#[trigger] orig[j]).hole is Some ==> pats@[j] == Some(orig[j]),
            reals == reals_before(orig, n as int),
            reals <= out@.len(),
            out@.len() == reals + made@.len(),
            made@.len() <= ENOUGH,
            forall|i: int| 0 <= i < out@.len() ==> (#[trigger] out@[i]).hole is None,
            tidy(orig) ==> forall|i: int| 0 <= i < out@.len() ==> func_clean(#[trigger] out@[i], false),
            forall|m: int| 0 <= m < queue@.len() ==> asked_well(#[trigger] queue@[m], patterns@, tidy(orig)),
            forall|c: int, j: int|
                #![trigger out@[j], out@[c]]
                reals <= c < out@.len() && 0 <= j < c ==> out@[j].name@ != out@[c].name@,
            forall|j: int|
                0 <= j < n && (#[trigger] orig[j]).hole is None ==> out@[reals_before(orig, j)] == orig[j],
            errors@ == old(errors)@,
            forall|c: int|
                reals <= c < out@.len() ==> copy_of((#[trigger] out@[c]).name@, out@[c].visibility, out@[c].at, orig),
            patterns@ == patterns_of(orig),
            forall|c: int, p: int, t: TyView|
                #![trigger stmts_ask(out@[c].body@, patterns@, p, t)]
                0 <= c < out@.len() && stmts_ask(out@[c].body@, patterns@, p, t) ==> has_pair(queue@, p, t)
                    || made_has(made@, p, t),
            forall|m1: int, m2: int|
                #![trigger made@[m1], made@[m2]]
                0 <= m1 < m2 < made@.len() ==> !(made@[m1].0 == made@[m2].0 && made@[m1].1@ == made@[m2].1@),
            forall|m: int|
                0 <= m < made@.len() ==> {
                    &&& (#[trigger] made@[m]).2 == reals + m
                    &&& made@[m].0 < n
                    &&& orig[made@[m].0 as int].hole is Some
                    &&& copy_made(orig[made@[m].0 as int], made@[m].1, out@[reals + m])
                    &&& asked_among(out@, reals + m, patterns@, made@[m].0 as int, made@[m].1@)
                },
            forall|k: int|
                0 <= k < queue@.len() ==> asked_among(
                    out@,
                    out@.len() as int,
                    patterns@,
                    (#[trigger] queue@[k]).0 as int,
                    queue@[k].1@,
                ),
        decreases ENOUGH - made@.len(), queue@.len(),
    {
        let ghost waiting = queue@;
        proof {
            assert(asked_well(waiting[waiting.len() - 1], patterns@, tidy(orig)));
            assert(asked_among(
                out@,
                out@.len() as int,
                patterns@,
                waiting[waiting.len() - 1].0 as int,
                waiting[waiting.len() - 1].1@,
            ));
        }
        let (pattern, fill) = queue.pop().unwrap();
        proof {
            assert(queue@ =~= waiting.drop_last());
            assert(waiting[waiting.len() - 1] == (pattern, fill));
        }
        if made_already(&made, pattern, &fill) {
            proof {
                assert forall|k: int| 0 <= k < queue@.len() implies asked_among(
                    out@,
                    out@.len() as int,
                    patterns@,
                    (#[trigger] queue@[k]).0 as int,
                    queue@[k].1@,
                ) by {
                    assert(queue@[k] == waiting[k]);
                }
                assert forall|c: int, p: int, t: TyView|
                    #![trigger stmts_ask(out@[c].body@, patterns@, p, t)]
                    0 <= c < out@.len() && stmts_ask(out@[c].body@, patterns@, p, t) implies has_pair(queue@, p, t)
                        || made_has(made@, p, t) by {
                    if has_pair(waiting, p, t) && !made_has(made@, p, t) {
                        let k = choose|k: int| 0 <= k < waiting.len() && (#[trigger] waiting[k]).0 == p && waiting[k].1@ == t;
                        if k == waiting.len() - 1 {
                            assert(made_has(made@, p, t));
                        } else {
                            assert(queue@[k] == waiting[k]);
                        }
                    }
                }
            }
            continue;
        }
        assert(pattern < n && patterns@[pattern as int]);
        assert(orig[pattern as int].hole is Some);
        let pat = pats[pattern].as_ref().unwrap();
        if made.len() >= ENOUGH {
            errors.push(too_many(pat));
            proof {
                assert(errors@.drop_last() =~= old(errors)@);
                lemma_reals_before_grows(orig, 0, n as int);
            }
            return (made, false);
        }
        // A name of its own, because two copies of one pattern are two functions: kept
        // readable, and made unique the dull way.
        let mut called = pat.name.clone();
        called.append(" (");
        let fill_name = fill.name();
        called.append(fill_name.as_str());
        called.append(")");
        let ghost longest = longest_name(out@);
        let ghost mut marks: nat = 0;
        assert(called@ =~= copy_name(pat.name@, fill@, 0));
        while named_already(&out, &called)
            invariant
                longest == longest_name(out@),
                called@ == copy_name(pat.name@, fill@, marks),
            decreases longest + 1 - called@.len(),
        {
            proof {
                let j = choose|j: int| 0 <= j < out@.len() && (#[trigger] out@[j]).name@ == called@;
                lemma_longest_name(out@, j);
            }
            push_char(&mut called, '\'');
            proof {
                marks = marks + 1;
                assert(called@ =~= copy_name(pat.name@, fill@, marks));
            }
        }
        let ghost fill_view = fill@;
        let copy = copied(pat, &fill, called);
        let mut found = asked(&copy.body, &patterns);
        let ghost queue_before = queue@;
        let ghost found_view = found@;
        queue.append(&mut found);
        let ghost before = out@;
        let ghost made_before = made@;
        let ghost copy_view = copy;
        made.push((pattern, fill, out.len()));
        out.push(copy);
        proof {
            lemma_pairs_kept(queue_before, queue@);
            lemma_pairs_at_end(queue_before, found_view);
            assert(made@[made@.len() - 1].0 == pattern && made@[made@.len() - 1].1@ == fill_view);
            assert forall|k: int| 0 <= k < queue@.len() implies asked_among(
                out@,
                out@.len() as int,
                patterns@,
                (#[trigger] queue@[k]).0 as int,
                queue@[k].1@,
            ) by {
                if k < queue_before.len() {
                    assert(queue@[k] == queue_before[k]);
                    assert(queue_before[k] == waiting[k]);
                    lemma_asked_among_grows(
                        before,
                        out@,
                        before.len() as int,
                        out@.len() as int,
                        patterns@,
                        queue@[k].0 as int,
                        queue@[k].1@,
                    );
                } else {
                    assert(queue@[k] == found_view[k - queue_before.len()]);
                    let c = before.len() as int;
                    assert(out@[c] == copy_view);
                    assert(stmts_ask(out@[c].body@, patterns@, queue@[k].0 as int, queue@[k].1@));
                }
            }
            assert forall|m: int| 0 <= m < made@.len() implies asked_among(
                out@,
                reals + m,
                patterns@,
                (#[trigger] made@[m]).0 as int,
                made@[m].1@,
            ) by {
                if m == made@.len() - 1 {
                    lemma_asked_among_grows(
                        before,
                        out@,
                        before.len() as int,
                        reals + m,
                        patterns@,
                        pattern as int,
                        fill_view,
                    );
                } else {
                    assert(made@[m] == made_before[m]);
                    lemma_asked_among_grows(
                        before,
                        out@,
                        reals + m,
                        reals + m,
                        patterns@,
                        made@[m].0 as int,
                        made@[m].1@,
                    );
                }
            }
            assert forall|c: int, p: int, t: TyView|
                #![trigger stmts_ask(out@[c].body@, patterns@, p, t)]
                0 <= c < out@.len() && stmts_ask(out@[c].body@, patterns@, p, t) implies has_pair(queue@, p, t)
                    || made_has(made@, p, t) by {
                if c == out@.len() - 1 {
                    assert(out@[c] == copy_view);
                } else {
                    assert(out@[c] == before[c]);
                    if made_has(made_before, p, t) {
                        let m = choose|m: int| 0 <= m < made_before.len() && (#[trigger] made_before[m]).0 == p && made_before[m].1@ == t;
                        assert(made@[m] == made_before[m]);
                    } else if has_pair(waiting, p, t) {
                        let k = choose|k: int| 0 <= k < waiting.len() && (#[trigger] waiting[k]).0 == p && waiting[k].1@ == t;
                        if k == waiting.len() - 1 {
                            assert(made_has(made@, p, t));
                        } else {
                            assert(queue_before[k] == waiting[k]);
                        }
                    }
                }
            }
            assert forall|m1: int, m2: int|
                #![trigger made@[m1], made@[m2]]
                0 <= m1 < m2 < made@.len() implies !(made@[m1].0 == made@[m2].0 && made@[m1].1@ == made@[m2].1@) by {
                if m2 == made@.len() - 1 {
                    assert(made@[m1] == made_before[m1]);
                    assert(made@[m2].0 == pattern && made@[m2].1@ == fill_view);
                } else {
                    assert(made@[m1] == made_before[m1] && made@[m2] == made_before[m2]);
                }
            }
            assert forall|m: int| 0 <= m < made@.len() implies {
                &&& (#[trigger] made@[m]).2 == reals + m
                &&& made@[m].0 < n
                &&& orig[made@[m].0 as int].hole is Some
                &&& copy_made(orig[made@[m].0 as int], made@[m].1, out@[reals + m])
            } by {
                if m == made@.len() - 1 {
                    assert(out@[reals + m] == copy_view);
                } else {
                    assert(made@[m] == made_before[m]);
                    assert(out@[reals + m] == before[reals + m]);
                }
            }
            assert forall|c: int| reals <= c < out@.len() implies copy_of(
                (#[trigger] out@[c]).name@,
                out@[c].visibility,
                out@[c].at,
                orig,
            ) by {
                if c == out@.len() - 1 {
                    assert(copy_name(orig[pattern as int].name@, fill_view, marks) == out@[c].name@);
                } else {
                    assert(out@[c] == before[c]);
                }
            }
            assert forall|c: int, j: int|
                #![trigger out@[j], out@[c]]
                reals <= c < out@.len() && 0 <= j < c implies out@[j].name@ != out@[c].name@ by {
                if c == out@.len() - 1 {
                    assert(out@[j] == before[j]);
                } else {
                    assert(out@[j] == before[j] && out@[c] == before[c]);
                }
            }
            assert forall|j: int| 0 <= j < n && (#[trigger] orig[j]).hole is None implies out@[reals_before(orig, j)] == orig[j] by {
                lemma_reals_before_step(orig, j);
                lemma_reals_before_grows(orig, j + 1, n as int);
                assert(out@[reals_before(orig, j)] == before[reals_before(orig, j)]);
            }
        }
    }
    proof {
        assert forall|c: int, p: int, t: TyView|
            #![trigger stmts_ask(out@[c].body@, patterns@, p, t)]
            0 <= c < out@.len() && stmts_ask(out@[c].body@, patterns@, p, t) implies made_has(made@, p, t) by {
            if has_pair(queue@, p, t) {
                let k = choose|k: int| 0 <= k < queue@.len() && (#[trigger] queue@[k]).0 == p && queue@[k].1@ == t;
            }
        }
    }
    (made, true)
}


/// What pointing every function of `out` gives is `funcs` with its patterns replaced by
/// the copies `made` lists.
proof fn lemma_well_pointed(
    funcs: Seq<Func>,
    out: Seq<Func>,
    result: Seq<Func>,
    made: Vec<(usize, Ty, usize)>,
    moved: Vec<Option<usize>>,
)
    requires
        out.len() == reals_before(funcs, funcs.len() as int) + made@.len(),
        result.len() == out.len(),
        moved@.len() == funcs.len(),
        forall|j: int| 0 <= j < funcs.len() ==> #[trigger] moved@[j] == moved_to(funcs, j),
        forall|j: int|
            0 <= j < funcs.len() && (#[trigger] funcs[j]).hole is None ==> out[reals_before(funcs, j)] == funcs[j],
        forall|i: int|
            0 <= i < out.len() ==> {
                &&& head_alike(out[i], #[trigger] result[i])
                &&& stmts_done(out[i].body@, result[i].body@, Job::Point(&made, &moved))
            },
        forall|m1: int, m2: int|
            #![trigger made@[m1], made@[m2]]
            0 <= m1 < m2 < made@.len() ==> !(made@[m1].0 == made@[m2].0 && made@[m1].1@ == made@[m2].1@),
        forall|m: int|
            0 <= m < made@.len() ==> {
                &&& (#[trigger] made@[m]).2 == reals_before(funcs, funcs.len() as int) + m
                &&& made@[m].0 < funcs.len()
                &&& funcs[made@[m].0 as int].hole is Some
                &&& copy_made(funcs[made@[m].0 as int], made@[m].1, out[reals_before(funcs, funcs.len() as int) + m])
            },
        forall|c: int, p: int, t: TyView|
            #![trigger stmts_ask(out[c].body@, patterns_of(funcs), p, t)]
            0 <= c < out.len() && stmts_ask(out[c].body@, patterns_of(funcs), p, t) ==> made_has(made@, p, t),
        forall|m: int|
            0 <= m < made@.len() ==> asked_among(
                out,
                reals_before(funcs, funcs.len() as int) + m,
                patterns_of(funcs),
                (#[trigger] made@[m]).0 as int,
                made@[m].1@,
            ),
    ensures
        well_pointed(funcs, result, made, moved, out.subrange(reals_before(funcs, funcs.len() as int), out.len() as int)),
{
    let n = funcs.len();
    let reals = reals_before(funcs, n as int);
    lemma_reals_before_grows(funcs, 0, n as int);
    assert forall|j: int| 0 <= j < n && (#[trigger] funcs[j]).hole is None implies {
        &&& head_alike(funcs[j], result[reals_before(funcs, j)])
        &&& stmts_done(funcs[j].body@, result[reals_before(funcs, j)].body@, Job::Point(&made, &moved))
        &&& forall|p: int, t: TyView|
            stmts_ask(funcs[j].body@, patterns_of(funcs), p, t) ==> #[trigger] made_has(made@, p, t)
    } by {
        lemma_reals_before_step(funcs, j);
        lemma_reals_before_grows(funcs, j + 1, n as int);
        let i = reals_before(funcs, j);
        assert(out[i] == funcs[j]);
        assert(head_alike(out[i], result[i]));
        assert forall|p: int, t: TyView| stmts_ask(funcs[j].body@, patterns_of(funcs), p, t) implies #[trigger] made_has(made@, p, t) by {
            assert(stmts_ask(out[i].body@, patterns_of(funcs), p, t));
        }
    }
    let copies = out.subrange(reals, out.len() as int);
    assert forall|m: int| 0 <= m < made@.len() implies {
        &&& (#[trigger] made@[m]).2 == reals + m
        &&& made@[m].0 < funcs.len()
        &&& funcs[made@[m].0 as int].hole is Some
        &&& copy_made(funcs[made@[m].0 as int], made@[m].1, copies[m])
        &&& head_alike(copies[m], result[reals + m])
        &&& stmts_done(copies[m].body@, result[reals + m].body@, Job::Point(&made, &moved))
        &&& forall|p: int, t: TyView|
            stmts_ask(copies[m].body@, patterns_of(funcs), p, t) ==> #[trigger] made_has(made@, p, t)
        &&& asked_before(funcs, copies, made@[m].0 as int, made@[m].1@, m)
    } by {
        let c = out[reals + m];
        assert(copies[m] == c);
        assert(head_alike(c, result[reals + m]));
        assert(stmts_done(c.body@, result[reals + m].body@, Job::Point(&made, &moved)));
        assert forall|p: int, t: TyView| stmts_ask(c.body@, patterns_of(funcs), p, t) implies #[trigger] made_has(made@, p, t) by {
            assert(stmts_ask(out[reals + m].body@, patterns_of(funcs), p, t));
        }
        let p = made@[m].0 as int;
        let t = made@[m].1@;
        let a = choose|a: int| 0 <= a < reals + m && #[trigger] stmts_ask(out[a].body@, patterns_of(funcs), p, t);
        if a < reals {
            lemma_reals_onto(funcs, n as int, a);
            let j = choose|j: int| 0 <= j < n && funcs[j].hole is None && #[trigger] reals_before(funcs, j) == a;
            assert(out[reals_before(funcs, j)] == funcs[j]);
            assert(stmts_ask(funcs[j].body@, patterns_of(funcs), p, t));
        } else {
            assert(copies[a - reals] == out[a]);
            assert(stmts_ask(copies[a - reals].body@, patterns_of(funcs), p, t));
        }
    }
}


/// Make every copy the program asks for, and point every call at the one it meant.
///
/// What is real keeps its order and the copies go on the end, so what comes back has no
/// pattern in it and a function's place in the list is its id again. Each copy is named
/// after its pattern and the type it was made at, with marks added until the name is one
/// no other function has. A program asking for more than [`ENOUGH`] copies gets E0504 and
/// the copying stops there.
pub fn fill_in(funcs: Vec<Func>, start: Option<usize>, errors: &mut Vec<Diagnostic>) -> (r: (
    Vec<Func>,
    Option<usize>,
))
    requires
        start matches Some(s) ==> s < funcs@.len(),
    ensures
        (forall|i: int| 0 <= i < funcs@.len() ==> (#[trigger] funcs@[i]).hole is None) ==> {
            &&& r.0@ == funcs@
            &&& r.1 == start
            &&& final(errors)@ == old(errors)@
        },
        (exists|i: int| 0 <= i < funcs@.len() && (#[trigger] funcs@[i]).hole is Some) ==> {
            let reals = reals_before(funcs@, funcs@.len() as int);
            &&& reals <= r.0@.len() <= reals + ENOUGH
            &&& forall|i: int| 0 <= i < r.0@.len() ==> (#[trigger] r.0@[i]).hole is None
            &&& forall|j: int|
                0 <= j < funcs@.len() && (#[trigger] funcs@[j]).hole is None ==> {
                    &&& r.0@[reals_before(funcs@, j)].name@ == funcs@[j].name@
                    &&& r.0@[reals_before(funcs@, j)].at == funcs@[j].at
                    &&& r.0@[reals_before(funcs@, j)].visibility == funcs@[j].visibility
                }
            &&& r.1 == match start {
                Some(s) => if funcs@[s as int].hole is None {
                    Some(reals_before(funcs@, s as int) as usize)
                } else {
                    None
                },
                None => None,
            }
            &&& forall|c: int, j: int|
                #![trigger r.0@[j], r.0@[c]]
                reals <= c < r.0@.len() && 0 <= j < c ==> r.0@[j].name@ != r.0@[c].name@
            &&& forall|c: int|
                reals <= c < r.0@.len() ==> copy_of(
                    (#[trigger] r.0@[c]).name@,
                    r.0@[c].visibility,
                    r.0@[c].at,
                    funcs@,
                )
            &&& final(errors)@.len() == old(errors)@.len() && tidy(funcs@) ==> forall|i: int|
                0 <= i < r.0@.len() ==> func_clean(#[trigger] r.0@[i], true)
            &&& final(errors)@.len() == old(errors)@.len() ==> exists|
                made: Vec<(usize, Ty, usize)>,
                moved: Vec<Option<usize>>,
                copies: Seq<Func>,
            | #[trigger] well_pointed(funcs@, r.0@, made, moved, copies)
            &&& final(errors)@.len() == old(errors)@.len() || (final(errors)@.len() == old(errors)@.len() + 1
                && final(errors)@.drop_last() == old(errors)@ && final(errors)@.last().code@ == "E0504"@)
        },
{
    let ghost orig = funcs@;
    let mut patterns: Vec<bool> = Vec::new();
    let mut any = false;
    let mut i: usize = 0;
    while i < funcs.len()
        invariant
            i <= funcs@.len(),
            funcs@ == orig,
            patterns@.len() == i,
            forall|j: int| 0 <= j < i ==> patterns@[j] == (#[trigger] orig[j]).hole is Some,
            any == exists|j: int| 0 <= j < i && (#[trigger] orig[j]).hole is Some,
        decreases funcs.len() - i,
    {
        let is = funcs[i].hole.is_some();
        patterns.push(is);
        if is {
            any = true;
        }
        i = i + 1;
    }
    if !any {
        return (funcs, start);
    }
    let n = funcs.len();
    assert(patterns@ =~= patterns_of(orig));
    proof {
        assert(orig[0].hole is Some || exists|j: int| 0 <= j < orig.len() && (#[trigger] orig[j]).hole is Some);
    }
    // Taken from the back, so that each function moves rather than being copied.
    let mut rest = funcs;
    let mut backwards: Vec<Func> = Vec::new();
    while rest.len() > 0
        invariant
            n == orig.len(),
            rest@.len() + backwards@.len() == n,
            forall|j: int| 0 <= j < rest@.len() ==> #[trigger] rest@[j] == orig[j],
            forall|j: int| 0 <= j < backwards@.len() ==> #[trigger] backwards@[j] == orig[n - 1 - j],
        decreases rest.len(),
    {
        let f = rest.pop().unwrap();
        backwards.push(f);
    }

    // What is real keeps its order; the patterns are kept aside, by their place.
    let mut out: Vec<Func> = Vec::new();
    let mut pats: Vec<Option<Func>> = Vec::new();
    let mut moved: Vec<Option<usize>> = Vec::new();
    let mut k: usize = 0;
    while k < n
        invariant
            k <= n,
            n == orig.len(),
            patterns@.len() == n,
            forall|j: int| 0 <= j < n ==> patterns@[j] == (#[trigger] orig[j]).hole is Some,
            backwards@.len() == n - k,
            forall|j: int| 0 <= j < backwards@.len() ==> #[trigger] backwards@[j] == orig[n - 1 - j],
            out@.len() == reals_before(orig, k as int),
            pats@.len() == k,
            moved@.len() == k,
            forall|j: int|
                0 <= j < k ==> {
                    &&& (#[trigger] orig[j]).hole is None ==> moved@[j] == Some(reals_before(orig, j) as usize)
                        && out@[reals_before(orig, j)] == orig[j] && pats@[j] is None
                    &&& orig[j].hole is Some ==> moved@[j] is None && pats@[j] == Some(orig[j])
                },
            forall|i: int| 0 <= i < out@.len() ==> (#[trigger] out@[i]).hole is None,
            tidy(orig) ==> forall|i: int| 0 <= i < out@.len() ==> func_clean(#[trigger] out@[i], false),
        decreases n - k,
    {
        proof {
            lemma_reals_before_grows(orig, k as int, k as int + 1);
            assert(backwards@[backwards@.len() - 1] == orig[n - 1 - (n - k - 1)]);
        }
        let f = backwards.pop().unwrap();
        let ghost before = out@;
        if f.hole.is_none() {
            moved.push(Some(out.len()));
            pats.push(None);
            out.push(f);
        } else {
            moved.push(None);
            pats.push(Some(f));
        }
        proof {
            assert forall|j: int| 0 <= j < k && (#[trigger] orig[j]).hole is None implies out@[reals_before(orig, j)] == orig[j] by {
                lemma_reals_before_step(orig, j);
                lemma_reals_before_grows(orig, j + 1, k as int);
                assert(out@[reals_before(orig, j)] == before[reals_before(orig, j)]);
            }
        }
        k = k + 1;
    }
    let reals = out.len();
    assert forall|j: int| 0 <= j < n implies #[trigger] moved@[j] == moved_to(orig, j) by {
        assert(orig[j].hole is None || orig[j].hole is Some);
    }
    let begins = match start {
        Some(at) => moved[at],
        None => None,
    };

    // Every (pattern, fill) the real functions ask for, to begin with.
    let mut queue: Vec<(usize, Ty)> = Vec::new();
    let mut q: usize = 0;
    while q < out.len()
        invariant
            q <= out@.len(),
            patterns@.len() == n,
            forall|i: int| 0 <= i < out@.len() ==> (#[trigger] out@[i]).hole is None,
            tidy(orig) ==> forall|i: int| 0 <= i < out@.len() ==> func_clean(#[trigger] out@[i], false),
            forall|m: int| 0 <= m < queue@.len() ==> asked_well(#[trigger] queue@[m], patterns@, tidy(orig)),
            forall|c: int, p: int, t: TyView|
                #![trigger stmts_ask(out@[c].body@, patterns@, p, t)]
                0 <= c < q && stmts_ask(out@[c].body@, patterns@, p, t) ==> has_pair(queue@, p, t),
            forall|k: int|
                0 <= k < queue@.len() ==> asked_among(
                    out@,
                    q as int,
                    patterns@,
                    (#[trigger] queue@[k]).0 as int,
                    queue@[k].1@,
                ),
        decreases out.len() - q,
    {
        let mut found = asked(&out[q].body, &patterns);
        let ghost queue_before = queue@;
        let ghost found_view = found@;
        queue.append(&mut found);
        proof {
            lemma_pairs_kept(queue_before, queue@);
            lemma_pairs_at_end(queue_before, found_view);
            assert forall|k: int| 0 <= k < queue@.len() implies asked_among(
                out@,
                q + 1,
                patterns@,
                (#[trigger] queue@[k]).0 as int,
                queue@[k].1@,
            ) by {
                if k < queue_before.len() {
                    assert(queue@[k] == queue_before[k]);
                    lemma_asked_among_grows(
                        out@,
                        out@,
                        q as int,
                        q + 1,
                        patterns@,
                        queue@[k].0 as int,
                        queue@[k].1@,
                    );
                } else {
                    assert(queue@[k] == found_view[k - queue_before.len()]);
                    assert(stmts_ask(out@[q as int].body@, patterns@, queue@[k].0 as int, queue@[k].1@));
                }
            }
        }
        q = q + 1;
    }

    let (made, finished) = make_copies(&mut out, queue, &pats, &patterns, errors, Ghost(orig));
    if !finished {
        proof {
            lemma_reals_before_grows(orig, 0, n as int);
        }
        return (out, begins);
    }

    // Every copy exists now, so every call has something to point at.
    let result = point_all(&out, &made, &moved, Ghost(tidy(orig)));
    proof {
        lemma_reals_before_grows(orig, 0, n as int);
        lemma_well_pointed(orig, out@, result@, made, moved);
    }
    (result, begins)
}

} // verus!
