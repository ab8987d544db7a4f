//! A call to a function of the program: its arguments and the hole they fill.

use quench::arguments::Given;
use quench::checked::Value;
use quench::checker::{Checker, Signature};
use quench::diag::Diagnostic;
use quench::source::Span;
use quench::ty::{Hole, Length, Ty, Visibility};

fn checker(source: &str) -> Checker<'_> {
    Checker {
        source,
        locals: vec![],
        scope: vec![vec![]],
        depth: 0,
        signatures: vec![],
        named: vec![],
        constants: vec![],
        known: vec![],
        at_file: "main".to_string(),
        imports: vec![("main".to_string(), vec!["main".to_string()])],
        libraries: vec![],
        at_module: vec![],
        modules: vec![],
        hole: None,
        opening: false,
        at_top: false,
        body: vec![],
        errors: vec![],
    }
}

fn i64_ty() -> Ty {
    Ty::Int { bits: 64, signed: true }
}

fn signature(said: &str, takes: Vec<Ty>, hole: Option<Hole>, returns: Option<Ty>) -> Signature {
    Signature {
        said: said.to_string(),
        in_file: "main".to_string(),
        in_module: vec![],
        visibility: Some(Visibility::File),
        returns,
        hole,
        takes,
        at: Span::new(0, 3),
        list: Span::new(4, 9),
    }
}

fn given(start: usize, value: Value) -> Given {
    Given { span: Span::new(start, start + 1), built: Some(value), told: vec![] }
}

fn number(n: i64) -> Value {
    Value::Number { value: n, bits: 64, signed: true }
}

#[test]
fn a_call_brings_one_value_for_each_parameter() {
    let mut c = checker("");
    c.signatures.push(signature("add", vec![i64_ty(), i64_ty()], None, Some(i64_ty())));
    assert_eq!(c.arguments(0, Span::new(10, 13), vec![given(14, number(1))], Span::new(20, 21)), None);
    assert_eq!(c.errors.len(), 1);
    let e = &c.errors[0];
    assert_eq!(e.code, "E0470");
    assert_eq!(e.message, "`'add'` takes 2 things, and was given 1 thing.");
    assert_eq!(e.labels[0].note, "takes 2 things");
    assert_eq!(e.labels[1].note, "given 1 thing");
    assert_eq!(e.labels[1].span, Span::new(10, 21));
}

#[test]
fn arguments_without_a_hole_are_what_checking_them_gave() {
    let mut c = checker("");
    c.signatures.push(signature("add", vec![i64_ty(), i64_ty()], None, Some(i64_ty())));
    let got = c.arguments(0, Span::new(0, 1), vec![given(2, number(1)), given(4, number(2))], Span::new(6, 7));
    assert_eq!(got, Some((vec![number(1), number(2)], None)));
    assert!(c.errors.is_empty());
    let failing = Given { span: Span::new(2, 3), built: None, told: vec![Diagnostic::new("E0406", "no.")] };
    let never = Given { span: Span::new(4, 5), built: None, told: vec![Diagnostic::new("E0413", "never reached.")] };
    assert_eq!(c.arguments(0, Span::new(0, 1), vec![failing, never], Span::new(6, 7)), None);
    assert_eq!(c.errors.len(), 1);
    assert_eq!(c.errors[0].code, "E0406");
}

#[test]
fn the_arguments_say_what_fills_the_hole() {
    let mut c = checker("");
    c.signatures.push(signature("largest", vec![Ty::Hole(Hole::Any), Ty::Hole(Hole::Any)], Some(Hole::Any), Some(Ty::Hole(Hole::Any))));
    let got = c.arguments(0, Span::new(0, 1), vec![given(2, number(1)), given(4, number(2))], Span::new(6, 7));
    assert_eq!(got, Some((vec![number(1), number(2)], Some(i64_ty()))));
    assert!(c.errors.is_empty());
}

#[test]
fn one_call_fills_a_hole_once() {
    let mut c = checker("");
    c.signatures.push(signature("largest", vec![Ty::Hole(Hole::Any), Ty::Hole(Hole::Any)], Some(Hole::Any), Some(Ty::Hole(Hole::Any))));
    let got = c.arguments(0, Span::new(0, 1), vec![given(2, number(1)), given(4, Value::Bool(true))], Span::new(6, 7));
    assert_eq!(got, None);
    let e = &c.errors[0];
    assert_eq!(e.code, "E0506");
    assert_eq!(e.message, "`'largest'` has one hole, and this call gives it two types.");
    assert_eq!(e.labels[0].note, "filled with `i64` here");
    assert_eq!(e.labels[1].note, "and with `bool` here");
}

#[test]
fn a_number_hole_is_filled_by_a_number() {
    let mut c = checker("");
    c.signatures.push(signature("twice", vec![Ty::Hole(Hole::Number)], Some(Hole::Number), Some(Ty::Hole(Hole::Number))));
    assert_eq!(c.arguments(0, Span::new(0, 1), vec![given(2, Value::Bool(true))], Span::new(6, 7)), None);
    let e = &c.errors[0];
    assert_eq!(e.code, "E0508");
    assert_eq!(e.message, "`'twice'` takes a `number`, and this is a `bool`.");
}

#[test]
fn a_hole_in_nothing_it_takes_cannot_be_worked_out() {
    let mut c = checker("");
    c.signatures.push(signature("make", vec![i64_ty()], Some(Hole::Any), Some(Ty::Hole(Hole::Any))));
    assert_eq!(c.arguments(0, Span::new(0, 1), vec![given(2, number(3))], Span::new(6, 7)), None);
    let e = &c.errors[0];
    assert_eq!(e.code, "E0507");
    assert_eq!(e.message, "nothing here says what `'make'`'s `any` is.");
}

#[test]
fn an_argument_has_the_shape_its_parameter_gives_the_hole() {
    let mut c = checker("");
    let arr_any = Ty::Arr { of: Box::new(Ty::Hole(Hole::Any)), shape: vec![], length: Length::Unknown };
    c.signatures.push(signature("first", vec![arr_any], Some(Hole::Any), Some(Ty::Hole(Hole::Any))));
    assert_eq!(c.arguments(0, Span::new(0, 1), vec![given(2, number(3))], Span::new(6, 7)), None);
    let e = &c.errors[0];
    assert_eq!(e.code, "E0505");
    assert!(e.message.starts_with("this is an `i64`, and `'first'` takes an `arr."), "{}", e.message);
}

#[test]
fn a_call_for_its_answer_to_a_function_that_gives_nothing_is_refused() {
    let mut c = checker("");
    c.signatures.push(signature("say", vec![], None, None));
    assert_eq!(c.called(0, Span::new(20, 24), Span::new(25, 30), vec![], Span::new(31, 32)), None);
    let e = &c.errors[0];
    assert_eq!(e.code, "E0471");
    assert_eq!(e.message, "`'say'` gives `nothing` back, and this wants a value.");
    assert_eq!(e.labels[1].span, Span::new(20, 32));
    c.signatures.push(signature("seven", vec![], None, Some(i64_ty())));
    assert_eq!(c.called(1, Span::new(20, 24), Span::new(25, 30), vec![], Span::new(31, 32)), Some(Value::Call { func: 1, args: vec![], fill: None }));
}

#[test]
fn a_marked_call_finds_the_function_it_names() {
    let source = "call 'seven'[] call 'eight'[]";
    let mut c = checker(source);
    c.signatures.push(signature("seven", vec![], None, Some(i64_ty())));
    c.named.push(("main.seven".to_string(), 0));
    let name = Span::new(5, 12);
    assert_eq!(c.call(name, &[], Span::new(0, 4), vec![], Span::new(13, 14)), Some(Value::Call { func: 0, args: vec![], fill: None }));
    assert!(c.errors.is_empty());
    assert_eq!(c.call(Span::new(20, 27), &[], Span::new(15, 19), vec![], Span::new(28, 29)), None);
    assert_eq!(c.errors.len(), 1);
    assert_eq!(c.errors[0].code, "E0455");
}
