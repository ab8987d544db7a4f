//! Running every generated program every way, and insisting on one answer.
//!
//! What the ways of running a program said is compared here: every way must say what the
//! first said, and a program on which one does not is a disagreement, recorded with the
//! seed and the settings that rebuild it.

use vstd::prelude::*;
use crate::conf::Settings;
use crate::gen::{settings_for, settings_of};

verus! {

/// What an engine said.
#[derive(Clone, PartialEq, Eq, Debug)]
pub enum Told {
    Answered(i64),
    Stopped(String),
    /// The engine could not run it at all, which is a bug in the generator or the IR.
    Refused(String),
}

/// Whether two engines said the same thing.
pub open spec fn told_alike(a: Told, b: Told) -> bool {
    match (a, b) {
        (Told::Answered(x), Told::Answered(y)) => x == y,
        (Told::Stopped(x), Told::Stopped(y)) => x@ == y@,
        (Told::Refused(x), Told::Refused(y)) => x@ == y@,
        _ => false,
    }
}

/// What an engine said, as a value: the number it answered, or the words it stopped or
/// refused with.
pub enum ToldView {
    Answered(i64),
    Stopped(Seq<char>),
    Refused(Seq<char>),
}

impl View for Told {
    type V = ToldView;

    open spec fn view(&self) -> ToldView {
        match self {
            Told::Answered(x) => ToldView::Answered(*x),
            Told::Stopped(x) => ToldView::Stopped(x@),
            Told::Refused(x) => ToldView::Refused(x@),
        }
    }
}

impl Told {
    /// Whether this and `other` are the same answer, the same stop or the same refusal.
    pub fn same(&self, other: &Told) -> (b: bool)
        ensures
            b == told_alike(*self, *other),
    {
        match self {
            Told::Answered(x) => match other {
                Told::Answered(y) => *x == *y,
                _ => false,
            },
            Told::Stopped(x) => match other {
                Told::Stopped(y) => *x == *y,
                _ => false,
            },
            Told::Refused(x) => match other {
                Told::Refused(y) => *x == *y,
                _ => false,
            },
        }
    }
}

/// One program that two engines answered differently. The seed is enough to rebuild it.
#[derive(Clone, PartialEq, Eq, Debug)]
pub struct Disagreement {
    pub seed: u64,
    /// The settings the program meant something under. Without this a disagreement cannot
    /// be reproduced, because the same seed is a different language under different
    /// settings.
    pub settings: Settings,
    /// What each way of running it said, named.
    pub answers: Vec<(String, Told)>,
}

/// Whether some way of running a program said something other than the first way said.
pub open spec fn split(answers: Seq<(String, Told)>) -> bool {
    exists|i: int| 0 <= i < answers.len() && !told_alike(#[trigger] answers[i].1, answers[0].1)
}

/// What the answers for one seed come to: nothing when every way agreed with the first,
/// and otherwise a disagreement holding the seed, the settings it was checked under and
/// every answer.
pub fn disagreement_among(seed: u64, answers: Vec<(String, Told)>) -> (d: Option<Disagreement>)
    ensures
        d is Some <==> split(answers@),
        d matches Some(found) ==> {
            &&& found.seed == seed
            &&& found.settings == settings_of(seed)
            &&& found.answers@ == answers@
        },
{
    let mut i: usize = 0;
    let mut differs = false;
    while i < answers.len()
        invariant
            i <= answers@.len(),
            differs <==> exists|j: int| 0 <= j < i && !told_alike(#[trigger] answers@[j].1, answers@[0].1),
        decreases answers.len() - i,
    {
        if !answers[i].1.same(&answers[0].1) {
            differs = true;
        }
        i = i + 1;
    }
    if differs {
        Some(Disagreement { seed, settings: settings_for(seed), answers })
    } else {
        None
    }
}

/// What a run found.
#[derive(Debug, Default)]
pub struct Report {
    pub programs: usize,
    pub batches: usize,
    pub workers: usize,
    pub elapsed: std::time::Duration,
    pub disagreements: Vec<Disagreement>,
}

impl Report {
    /// Whether every program was answered the same way by every engine.
    pub fn agreed(&self) -> (b: bool)
        ensures
            b == (self.disagreements@.len() == 0),
    {
        self.disagreements.len() == 0
    }
}

/// A way of running a program always agrees with itself, so one answer is never a
/// disagreement.
pub proof fn law_one_answer_never_disagrees(answers: Seq<(String, Told)>)
    requires
        answers.len() <= 1,
    ensures
        !split(answers),
{
    assert forall|i: int| 0 <= i < answers.len() implies told_alike(
        #[trigger] answers[i].1,
        answers[0].1,
    ) by {
        assert(i == 0);
        match answers[0].1 {
            Told::Answered(_) => {},
            Told::Stopped(_) => {},
            Told::Refused(_) => {},
        }
    }
}

/// Two engines said the same thing exactly when what they said is the same value: the
/// same number, or a stop or a refusal with the same words. Two stops with different
/// messages are not alike, nor is an answer alike a stop.
pub proof fn law_alike_is_saying_the_same_thing(a: Told, b: Told)
    ensures
        told_alike(a, b) <==> a@ == b@,
{
}

/// Being alike is an equivalence: every answer is alike itself, and alike goes both ways
/// and carries over.
pub proof fn law_alike_is_an_equivalence(a: Told, b: Told, c: Told)
    ensures
        told_alike(a, a),
        told_alike(a, b) ==> told_alike(b, a),
        told_alike(a, b) && told_alike(b, c) ==> told_alike(a, c),
{
    law_alike_is_saying_the_same_thing(a, a);
    law_alike_is_saying_the_same_thing(a, b);
    law_alike_is_saying_the_same_thing(b, a);
    law_alike_is_saying_the_same_thing(b, c);
    law_alike_is_saying_the_same_thing(a, c);
}

/// The answers for a seed split exactly when some way of running the program said a
/// different thing, as a value, from the first: two engines that stopped with different
/// messages are a disagreement.
pub proof fn law_a_different_value_is_a_disagreement(answers: Seq<(String, Told)>)
    ensures
        split(answers) <==> exists|i: int|
            0 <= i < answers.len() && (#[trigger] answers[i].1)@ != answers[0].1@,
{
    if split(answers) {
        let i = choose|i: int|
            0 <= i < answers.len() && !told_alike(#[trigger] answers[i].1, answers[0].1);
        law_alike_is_saying_the_same_thing(answers[i].1, answers[0].1);
    }
    if exists|i: int| 0 <= i < answers.len() && (#[trigger] answers[i].1)@ != answers[0].1@ {
        let i = choose|i: int|
            0 <= i < answers.len() && (#[trigger] answers[i].1)@ != answers[0].1@;
        law_alike_is_saying_the_same_thing(answers[i].1, answers[0].1);
    }
}

} // verus!
