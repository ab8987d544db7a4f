//! The checked program: its streams, its `START`, and which bodies always give an answer.

use quench::checked::{gives, Arm, Checked, Flow, Func, Stmt, Stream, Value};
use quench::source::Span;
use quench::ty::{Local, LocalId, Ty, Visibility};

fn local(name: &str, ty: Ty) -> Local {
    Local {
        name: name.to_string(),
        ty,
        mutable: false,
        at: Span::new(0, 1),
        chain: Span::new(0, 1),
        counter: false,
    }
}

fn func(name: &str, locals: Vec<Local>, body: Vec<Stmt>) -> Func {
    Func {
        name: name.to_string(),
        visibility: Some(Visibility::File),
        returns: None,
        hole: None,
        takes: 0,
        locals,
        body,
        at: Span::new(0, name.len()),
    }
}

fn yes() -> Value {
    Value::Bool(true)
}

#[test]
fn streams_are_named_and_found_by_name() {
    assert_eq!(Stream::ALL, [Stream::Stdout, Stream::Stderr]);
    assert_eq!(Stream::Stdout.name(), "stdout");
    assert_eq!(Stream::Stderr.name(), "stderr");
    for stream in Stream::ALL {
        assert_eq!(Stream::from_name(stream.name()), Some(stream));
    }
    assert_eq!(Stream::from_name("stdin"), None);
    assert_eq!(Stream::from_name("Stdout"), None);
    assert_eq!(Stream::from_name(""), None);
}

#[test]
fn a_program_with_a_start_shows_its_locals_and_body() {
    let start = func(
        "START",
        vec![local("x", Ty::Bool)],
        vec![Stmt::Declare { local: LocalId(0), value: yes() }],
    );
    let helper = func("helper", vec![], vec![Stmt::Give(None)]);
    let checked = Checked { funcs: vec![helper, start], constants: vec![], start: Some(1), errors: vec![] };
    assert!(checked.ok());
    assert!(checked.has_start());
    assert_eq!(checked.locals().len(), 1);
    assert_eq!(checked.locals()[0].name, "x");
    assert_eq!(checked.body(), &[Stmt::Declare { local: LocalId(0), value: yes() }][..]);
}

#[test]
fn a_program_without_a_start_has_nothing_to_show() {
    let errors = vec![quench::diag::Diagnostic::new("E0101", "something went wrong")];
    let checked = Checked { funcs: vec![func("helper", vec![], vec![])], constants: vec![], start: None, errors };
    assert!(!checked.ok());
    assert!(!checked.has_start());
    assert!(checked.locals().is_empty());
    assert!(checked.body().is_empty());
}

#[test]
fn a_give_anywhere_in_a_body_gives() {
    assert!(!gives(&[]));
    assert!(gives(&[Stmt::Give(None)]));
    assert!(gives(&[Stmt::Declare { local: LocalId(0), value: yes() }, Stmt::Give(Some(yes()))]));
    assert!(!gives(&[Stmt::Break]));
}

#[test]
fn an_if_gives_only_with_an_else_and_every_arm_giving() {
    let all = Stmt::If {
        arms: vec![Arm { condition: yes(), body: vec![Stmt::Give(None)] }],
        otherwise: Some(vec![Stmt::Give(None)]),
        live: 0,
    };
    assert!(gives(&[all]));
    let no_else = Stmt::If {
        arms: vec![Arm { condition: yes(), body: vec![Stmt::Give(None)] }],
        otherwise: None,
        live: 0,
    };
    assert!(!gives(&[no_else]));
    let one_arm_silent = Stmt::If {
        arms: vec![
            Arm { condition: yes(), body: vec![Stmt::Give(None)] },
            Arm { condition: yes(), body: vec![Stmt::Break] },
        ],
        otherwise: Some(vec![Stmt::Give(None)]),
        live: 0,
    };
    assert!(!gives(&[one_arm_silent]));
    let else_silent = Stmt::If {
        arms: vec![Arm { condition: yes(), body: vec![Stmt::Give(None)] }],
        otherwise: Some(vec![]),
        live: 0,
    };
    assert!(!gives(&[else_silent]));
}

#[test]
fn a_loop_never_counts_as_giving() {
    let looped = Stmt::Loop { flow: Flow::While(yes()), body: vec![Stmt::Give(None)], live: 0 };
    assert!(!gives(&[looped]));
}
