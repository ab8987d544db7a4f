//! What a program means, once names are resolved and types checked.
//!
//! The syntax tree says what somebody typed; this says what it means. It is a second,
//! smaller tree with no syntax left in it: no marks, no chain, no escapes, which is what
//! makes lowering afterwards a transliteration rather than a second round of decisions.

use vstd::prelude::*;
use crate::diag::Diagnostic;
use crate::source::Span;
use crate::text::same_str;
use crate::ty::{Hole, Local, LocalId, OpKind, Ty, Visibility};

verus! {

/// Where a `print` goes.
#[derive(Clone, Copy, PartialEq, Eq, Debug, Structural)]
pub enum Stream {
    Stdout,
    Stderr,
}

impl Stream {
    /// Every stream there is, the ordinary one first.
    pub const ALL: [Stream; 2] = [Stream::Stdout, Stream::Stderr];

    /// The word a `print` names a stream by.
    pub fn name(self) -> (n: &'static str)
        ensures
            n@ == match self {
                Stream::Stdout => "stdout"@,
                Stream::Stderr => "stderr"@,
            },
    {
        match self {
            Stream::Stdout => "stdout",
            Stream::Stderr => "stderr",
        }
    }

    /// The stream a word names, if it names one.
    pub fn from_name(word: &str) -> (s: Option<Stream>)
        ensures
            s == if word@ == "stdout"@ {
                Some(Stream::Stdout)
            } else if word@ == "stderr"@ {
                Some(Stream::Stderr)
            } else {
                None::<Stream>
            },
    {
        if same_str(word, "stdout") {
            Some(Stream::Stdout)
        } else if same_str(word, "stderr") {
            Some(Stream::Stderr)
        } else {
            None
        }
    }
}

/// A value, with the syntax taken off it and the tree built.
#[derive(PartialEq, Eq, Debug)]
pub enum Value {
    /// Text, with every piece already joined and every escape already meant.
    Text(String),
    /// A whole number, and how wide the type reading it is.
    Number { value: i64, bits: u8, signed: bool },
    Bool(bool),
    /// A binary float, kept as its bits, and which of the three widths it is.
    Float { bits: u64, width: u8 },
    /// An `e`, kept as the text it was written with.
    Exact(String),
    /// A `d32` or a `d64`, the same way, with how many digits to keep.
    Decimal { written: String, digits: u32 },
    /// The value another variable holds.
    Copy(LocalId),
    Binary { op: OpKind, lhs: Box<Value>, rhs: Box<Value> },
    /// The elements of an array, flat and in order, and what one of them is.
    Array { of: Box<Ty>, elements: Vec<Value> },
    /// One element, with the shape the lowering works its place out from.
    At { array: Box<Value>, indices: Vec<Value>, shape: Vec<usize> },
    /// Pieces of text, one after another.
    Join(Vec<Value>),
    /// The text of something that is not text, and the type that decides how it is
    /// written down.
    Said { of: Box<Value>, ty: Ty },
    /// The opposite of a `bool`.
    Not(Box<Value>),
    /// A new array holding the same things.
    Copied(Box<Value>),
    /// One of the maths functions IEEE 754 requires, on however wide a float.
    Maths { which: u8, of: Vec<Value>, width: u8 },
    /// One of the ones it only recommends, on a `b64`.
    Slowly { which: u8, of: Vec<Value> },
    /// How many characters a piece of text has, asked while it runs.
    CountText(Box<Value>),
    /// One of the five that take text apart.
    Pieces { which: u8, of: Vec<Value> },
    /// One of the four that read what arrived from outside.
    Given { which: u8 },
    /// How many an array holds, asked while it runs.
    Count(Box<Value>),
    /// Whether text holds one of those.
    CanRead { ty: Ty, text: Box<Value> },
    /// Text read as one of those, stopping when it is not one.
    Read { ty: Ty, text: Box<Value> },
    /// A top-level constant, written in where it was named.
    Const(u32),
    /// The answer a function gave back. `fill` is what the callee's hole turned out to
    /// be, until the copy it names exists.
    Call { func: u32, args: Vec<Value>, fill: Option<Ty> },
}

/// One thing to print.
#[derive(PartialEq, Eq, Debug)]
pub enum Printed {
    Text(String),
    Value { value: Value, ty: Ty },
}

/// A statement, resolved.
#[derive(PartialEq, Eq, Debug)]
pub enum Stmt {
    Declare { local: LocalId, value: Value },
    /// Arms asked in order; exactly one body runs, or none if nothing held and there is
    /// no `else`. `live` is how many locals existed before this.
    If { arms: Vec<Arm<Stmt>>, otherwise: Option<Vec<Stmt>>, live: u32 },
    /// A loop, and how many locals existed before it.
    Loop { flow: Flow, body: Vec<Stmt>, live: u32 },
    /// Leave the innermost loop now.
    Break,
    /// `give [ … ];`, or an early way out of a function that gives nothing back.
    Give(Option<Value>),
    /// A call written for what it does.
    Do { func: u32, args: Vec<Value>, fill: Option<Ty> },
    /// Changing something that already exists.
    Assign { to: Place, value: Value },
    /// One more on the end of a growing array.
    Extend { array: Value, value: Value },
    Print { to: Stream, pieces: Vec<Printed> },
}

/// What drives a loop.
#[derive(PartialEq, Eq, Debug)]
pub enum Flow {
    /// A counter walking from one bound to the other, both ends included; `keeps` when it
    /// outlives the loop.
    Range { from: Value, to: Value, keeps: bool },
    /// A question asked again before every pass.
    While(Value),
}

/// One `if` or `else-if`: the question, and the statements it guards.
#[derive(PartialEq, Eq, Debug)]
pub struct Arm<S> {
    pub condition: Value,
    pub body: Vec<S>,
}

/// Somewhere a value can be put.
#[derive(PartialEq, Eq, Debug)]
pub enum Place {
    Local(LocalId),
    /// One element of an array.
    Element { array: Value, indices: Vec<Value>, shape: Vec<usize> },
}

/// One function.
#[derive(PartialEq, Eq, Debug)]
pub struct Func {
    pub name: String,
    /// `None` for `START`, which nothing may call.
    pub visibility: Option<Visibility>,
    /// `None` is `nothing`: the function gives no answer back.
    pub returns: Option<Ty>,
    /// The hole this function opened, if any: a function with one is a pattern, and what
    /// gets compiled are the copies made from it.
    pub hole: Option<Hole>,
    /// How many of `locals` are parameters. They are the first ones, in order.
    pub takes: usize,
    pub locals: Vec<Local>,
    pub body: Vec<Stmt>,
    /// The name, for pointing at.
    pub at: Span,
}

/// One top-level constant: worked out by the checker and written in wherever it is named.
#[derive(PartialEq, Eq, Debug)]
pub struct Constant {
    pub name: String,
    /// The file it was declared in.
    pub in_file: String,
    /// The module it was declared in, outermost first.
    pub in_module: Vec<String>,
    pub visibility: Visibility,
    pub ty: Ty,
    pub value: Value,
    pub at: Span,
}

/// What a program means.
pub struct Checked {
    /// Every function, in the order written. `START` is one of them.
    pub funcs: Vec<Func>,
    pub constants: Vec<Constant>,
    /// Which of `funcs` is `START`, if the file has one.
    pub start: Option<usize>,
    pub errors: Vec<Diagnostic>,
}

impl Checked {
    /// Whether nothing was wrong.
    pub fn ok(&self) -> (b: bool)
        ensures
            b == (self.errors@.len() == 0),
    {
        self.errors.len() == 0
    }

    /// Whether the program has a `START`.
    pub fn has_start(&self) -> (b: bool)
        ensures
            b == self.start is Some,
    {
        self.start.is_some()
    }

    /// `START`'s locals, or none when there is no `START`.
    pub fn locals(&self) -> (l: &[Local])
        requires
            self.start matches Some(n) ==> n < self.funcs@.len(),
        ensures
            l@ == match self.start {
                Some(n) => self.funcs@[n as int].locals@,
                None => Seq::<Local>::empty(),
            },
    {
        match self.start {
            Some(n) => self.funcs[n].locals.as_slice(),
            None => &[],
        }
    }

    /// What `START` does, or nothing when there is no `START`.
    pub fn body(&self) -> (b: &[Stmt])
        requires
            self.start matches Some(n) ==> n < self.funcs@.len(),
        ensures
            b@ == match self.start {
                Some(n) => self.funcs@[n as int].body@,
                None => Seq::<Stmt>::empty(),
            },
    {
        match self.start {
            Some(n) => self.funcs[n].body.as_slice(),
            None => &[],
        }
    }
}

/// Whether every way out of a body ends in a `give`: some statement in it does.
pub open spec fn gives_all(body: Seq<Stmt>) -> bool
    decreases body,
{
    if body.len() == 0 {
        false
    } else {
        stmt_gives(body.last()) || gives_all(body.drop_last())
    }
}

/// Whether every arm's body ends in a `give` on every way out.
pub open spec fn arms_give(arms: Seq<Arm<Stmt>>) -> bool
    decreases arms,
{
    if arms.len() == 0 {
        true
    } else {
        gives_all(arms.last().body@) && arms_give(arms.drop_last())
    }
}

/// Whether one statement makes every way through it end in a `give`: a `give`, or an `if`
/// with an `else` whose every arm and whose `else` give.
pub open spec fn stmt_gives(stmt: Stmt) -> bool
    decreases stmt,
{
    match stmt {
        Stmt::Give(_) => true,
        Stmt::If { arms, otherwise, .. } => match otherwise {
            Some(rest) => arms_give(arms@) && gives_all(rest@),
            None => false,
        },
        _ => false,
    }
}


proof fn lemma_gives_somewhere(body: Seq<Stmt>, i: int)
    requires
        0 <= i < body.len(),
        stmt_gives(body[i]),
    ensures
        gives_all(body),
    decreases body.len(),
{
    if i < body.len() - 1 {
        lemma_gives_somewhere(body.drop_last(), i);
    }
}

proof fn lemma_arms_give(arms: Seq<Arm<Stmt>>, a: int)
    requires
        arms_give(arms),
        0 <= a < arms.len(),
    ensures
        gives_all(arms[a].body@),
    decreases arms.len(),
{
    if a < arms.len() - 1 {
        lemma_arms_give(arms.drop_last(), a);
    }
}

/// Whether every way out of this body ends in a `give`.
///
/// An `if` counts only when it has an `else` and every arm gives, because otherwise there
/// is a way through it that reaches the bottom with no answer. A loop never counts:
/// nothing here knows it runs.
pub fn gives(body: &[Stmt]) -> (b: bool)
    ensures
        b == gives_all(body@),
    decreases body@,
{
    let mut i: usize = 0;
    assert(body@.take(0) =~= Seq::<Stmt>::empty());
    while i < body.len()
        invariant
            i <= body@.len(),
            !gives_all(body@.take(i as int)),
        decreases body.len() - i,
    {
        proof {
            assert(decreases_to!(body@ => body@[i as int]));
        }
        if stmt_gives_exec(&body[i]) {
            proof {
                lemma_gives_somewhere(body@, i as int);
            }
            return true;
        }
        assert(body@.take(i + 1).drop_last() =~= body@.take(i as int));
        i = i + 1;
    }
    assert(body@.take(i as int) =~= body@);
    false
}

fn stmt_gives_exec(stmt: &Stmt) -> (b: bool)
    ensures
        b == stmt_gives(*stmt),
    decreases *stmt,
{
    match stmt {
        Stmt::Give(_) => true,
        Stmt::If { arms, otherwise, .. } => match otherwise {
            Some(rest) => {
                let mut a: usize = 0;
                assert(arms@.take(0) =~= Seq::<Arm<Stmt>>::empty());
                while a < arms.len()
                    invariant
                        a <= arms@.len(),
                        *stmt is If,
                        stmt->arms == *arms,
                        arms_give(arms@.take(a as int)),
                    decreases arms.len() - a,
                {
                    proof {
                        let s = *stmt;
                        assert(decreases_to!(s => s->arms));
                        assert(decreases_to!(s->arms => s->arms@));
                        assert(decreases_to!(s->arms@ => s->arms@[a as int]));
                        assert(decreases_to!(s->arms@[a as int] => s->arms@[a as int].body));
                        assert(decreases_to!(s->arms@[a as int].body => s->arms@[a as int].body@));
                    }
                    if !gives(arms[a].body.as_slice()) {
                        proof {
                            if arms_give(arms@) {
                                lemma_arms_give(arms@, a as int);
                            }
                        }
                        return false;
                    }
                    assert(arms@.take(a + 1).drop_last() =~= arms@.take(a as int));
                    a = a + 1;
                }
                assert(arms@.take(a as int) =~= arms@);
                proof {
                    let s = *stmt;
                    assert(decreases_to!(s => s->otherwise));
                    assert(decreases_to!(s->otherwise => s->otherwise->0));
                    assert(decreases_to!(s->otherwise->0 => s->otherwise->0@));
                }
                gives(rest.as_slice())
            },
            None => false,
        },
        _ => false,
    }
}

} // verus!
