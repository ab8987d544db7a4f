//! Filling in a generic function's hole.

use quench::holes::{filled, mentioned, solve};
use quench::ty::{Hole, Length, Ty};

fn arr(of: Ty, shape: Vec<usize>, length: Length) -> Ty {
    Ty::Arr { of: Box::new(of), shape, length }
}

#[test]
fn a_hole_is_found_however_deep() {
    assert!(mentioned(&Ty::Hole(Hole::Any)));
    assert!(mentioned(&arr(arr(Ty::Hole(Hole::Number), vec![2], Length::Said), vec![], Length::Grows)));
    assert!(!mentioned(&arr(Ty::Str, vec![2], Length::Said)));
    assert!(!mentioned(&Ty::Bool));
}

#[test]
fn solving_reads_the_hole_off_what_was_found() {
    let wanted = arr(Ty::Hole(Hole::Any), vec![], Length::Grows);
    let found = arr(Ty::Str, vec![], Length::Grows);
    assert_eq!(solve(&wanted, &found), Some(Ty::Str));
    // Only the shape of the type is walked, not the sizes.
    assert_eq!(solve(&wanted, &arr(Ty::Bool, vec![3], Length::Said)), Some(Ty::Bool));
    assert_eq!(solve(&wanted, &Ty::Str), None);
    assert_eq!(solve(&Ty::Str, &Ty::Str), None);
    assert_eq!(solve(&Ty::Hole(Hole::Any), &found), Some(found.clone()));
}

#[test]
fn filling_writes_the_type_in_everywhere_the_hole_was() {
    let wanted = arr(arr(Ty::Hole(Hole::Any), vec![3], Length::Said), vec![], Length::Grows);
    let with = Ty::Int { bits: 32, signed: true };
    let made = filled(&wanted, &with);
    assert_eq!(made, arr(arr(with.clone(), vec![3], Length::Said), vec![], Length::Grows));
    assert!(!mentioned(&made));
    assert_eq!(made.name(), "arr.arr.i32 (grow 3)");
    // Nothing to fill leaves the type alone.
    assert_eq!(filled(&Ty::Str, &with), Ty::Str);
}

#[test]
fn solving_what_was_filled_gives_back_the_fill() {
    let wanted = arr(Ty::Hole(Hole::Number), vec![2], Length::Said);
    let with = Ty::Decimal { digits: 16 };
    assert_eq!(solve(&wanted, &filled(&wanted, &with)), Some(with));
}

use quench::checked::{Func, Stmt, Value};
use quench::holes::{asked, copied, fill_in, ENOUGH};
use quench::source::Span;
use quench::ty::{Local, LocalId, Visibility};

fn local(name: &str, ty: Ty) -> Local {
    Local { name: name.to_string(), ty, mutable: false, at: Span::new(0, 1), chain: Span::new(0, 1), counter: false }
}

/// `largest`: hands back what it was handed, at whatever type it was called with.
fn largest() -> Func {
    Func {
        name: "largest".to_string(),
        visibility: Some(Visibility::Program),
        returns: Some(Ty::Hole(Hole::Any)),
        hole: Some(Hole::Any),
        takes: 1,
        locals: vec![local("x", Ty::Hole(Hole::Any))],
        body: vec![Stmt::Give(Some(Value::Copy(LocalId(0))))],
        at: Span::new(4, 11),
    }
}

fn ordinary(name: &str, body: Vec<Stmt>) -> Func {
    Func {
        name: name.to_string(),
        visibility: None,
        returns: None,
        hole: None,
        takes: 0,
        locals: vec![],
        body,
        at: Span::new(20, 20 + name.len()),
    }
}

fn call_at(func: u32, fill: Ty) -> Stmt {
    Stmt::Do { func, args: vec![Value::Bool(true)], fill: Some(fill) }
}

#[test]
fn a_copy_has_the_type_written_in_and_no_hole() {
    let made = copied(&largest(), &Ty::F64, "largest (b64)".to_string());
    assert_eq!(made.name, "largest (b64)");
    assert_eq!(made.hole, None);
    assert_eq!(made.returns, Some(Ty::F64));
    assert_eq!(made.locals[0].ty, Ty::F64);
    assert_eq!(made.locals[0].name, "x");
    assert_eq!(made.takes, 1);
    assert_eq!(made.visibility, Some(Visibility::Program));
    assert_eq!(made.at, Span::new(4, 11));
    assert_eq!(made.body, vec![Stmt::Give(Some(Value::Copy(LocalId(0))))]);
}

#[test]
fn a_copy_of_a_call_asks_at_the_filled_type() {
    let mut pattern = largest();
    pattern.body = vec![call_at(0, arr(Ty::Hole(Hole::Any), vec![], Length::Grows))];
    let made = copied(&pattern, &Ty::Bool, "largest (bool)".to_string());
    assert_eq!(made.body, vec![call_at(0, arr(Ty::Bool, vec![], Length::Grows))]);
}

#[test]
fn only_calls_to_patterns_are_asked_for() {
    let body = vec![call_at(0, Ty::Str), call_at(1, Ty::Bool), Stmt::Do { func: 0, args: vec![], fill: None }];
    let found = asked(&body, &vec![true, false]);
    assert_eq!(found, vec![(0, Ty::Str)]);
}

#[test]
fn a_program_without_patterns_is_left_alone() {
    let plain = || vec![ordinary("START", vec![Stmt::Give(None)]), ordinary("helper", vec![])];
    let mut errors = Vec::new();
    let (out, start) = fill_in(plain(), Some(1), &mut errors);
    assert_eq!(out, plain());
    assert_eq!(start, Some(1));
    assert!(errors.is_empty());
}

#[test]
fn patterns_are_replaced_by_the_copies_asked_for() {
    let funcs = vec![largest(), ordinary("START", vec![call_at(0, Ty::F64), call_at(0, Ty::Str), call_at(0, Ty::F64)])];
    let mut errors = Vec::new();
    let (out, start) = fill_in(funcs, Some(1), &mut errors);
    assert!(errors.is_empty());
    // START moved to the front; one copy per type, the last asked for made first.
    assert_eq!(start, Some(0));
    let names: Vec<&str> = out.iter().map(|f| f.name.as_str()).collect();
    assert_eq!(names, vec!["START", "largest (b64)", "largest (str)"]);
    assert!(out.iter().all(|f| f.hole.is_none()));
    assert_eq!(out[1].returns, Some(Ty::F64));
    assert_eq!(out[2].returns, Some(Ty::Str));
    assert_eq!(out[1].at, Span::new(4, 11));
    // Every call points at its copy, and carries no fill any more.
    assert_eq!(
        out[0].body,
        vec![
            Stmt::Do { func: 1, args: vec![Value::Bool(true)], fill: None },
            Stmt::Do { func: 2, args: vec![Value::Bool(true)], fill: None },
            Stmt::Do { func: 1, args: vec![Value::Bool(true)], fill: None },
        ]
    );
}

#[test]
fn a_copy_whose_name_is_taken_gets_marks() {
    let funcs = vec![
        ordinary("largest (b64)", vec![]),
        largest(),
        ordinary("START", vec![call_at(1, Ty::F64)]),
        ordinary("largest (b64)'", vec![]),
    ];
    let mut errors = Vec::new();
    let (out, start) = fill_in(funcs, Some(2), &mut errors);
    assert!(errors.is_empty());
    assert_eq!(start, Some(1));
    let names: Vec<&str> = out.iter().map(|f| f.name.as_str()).collect();
    assert_eq!(names, vec!["largest (b64)", "START", "largest (b64)'", "largest (b64)''"]);
    assert_eq!(out[1].body, vec![Stmt::Do { func: 3, args: vec![Value::Bool(true)], fill: None }]);
}

#[test]
fn a_start_that_is_a_pattern_is_no_start() {
    let funcs = vec![largest(), ordinary("main", vec![call_at(0, Ty::Bool)])];
    let mut errors = Vec::new();
    let (out, start) = fill_in(funcs, Some(0), &mut errors);
    assert_eq!(start, None);
    assert_eq!(out.len(), 2);
}

#[test]
fn a_pattern_asking_for_ever_wider_copies_is_stopped() {
    let mut grows = largest();
    grows.name = "grows".to_string();
    grows.body = vec![call_at(0, arr(Ty::Hole(Hole::Any), vec![], Length::Grows))];
    let funcs = vec![grows, ordinary("START", vec![call_at(0, Ty::Bool)])];
    let mut errors = Vec::new();
    let (out, start) = fill_in(funcs, Some(1), &mut errors);
    assert_eq!(start, Some(0));
    assert_eq!(errors.len(), 1);
    assert_eq!(errors[0].code, "E0504");
    assert_eq!(errors[0].message, "`'grows'` is asked for at more types than this can write out.");
    assert_eq!(out.len(), 1 + ENOUGH);
    assert_eq!(out[1].name, "grows (bool)");
    assert_eq!(out[2].name, "grows (arr.bool (grow))");
}
