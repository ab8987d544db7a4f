//! Comparing what every way of running a program said.

use quench::conf::Settings;
use quench::gen::settings_for;
use quench::oracle::{disagreement_among, Disagreement, Report, Told};

fn said(way: &str, told: Told) -> (String, Told) {
    (way.to_string(), told)
}

#[test]
fn agreeing_engines_are_no_disagreement() {
    let answers = vec![
        said("interpreter", Told::Answered(7)),
        said("dev-jit", Told::Answered(7)),
        said("dev-jit @ speed", Told::Answered(7)),
    ];
    assert_eq!(disagreement_among(5, answers), None);
    let stopped = vec![
        said("interpreter", Told::Stopped("division by zero".to_string())),
        said("dev-jit", Told::Stopped("division by zero".to_string())),
    ];
    assert_eq!(disagreement_among(5, stopped), None);
    assert_eq!(disagreement_among(5, vec![]), None);
}

#[test]
fn one_engine_saying_otherwise_is_a_disagreement_that_can_be_replayed() {
    let answers = vec![
        said("interpreter", Told::Answered(7)),
        said("dev-jit", Told::Answered(8)),
    ];
    let found = disagreement_among(42, answers.clone()).expect("they differ");
    assert_eq!(found.seed, 42);
    assert_eq!(found.settings, settings_for(42));
    assert_eq!(found.answers, answers);

    let why = vec![
        said("interpreter", Told::Stopped("overflow".to_string())),
        said("dev-jit", Told::Refused("overflow".to_string())),
    ];
    assert!(disagreement_among(1, why).is_some(), "a stop and a refusal are not the same");
}

#[test]
fn a_report_agrees_when_it_found_nothing() {
    let mut report = Report::default();
    assert!(report.agreed());
    report.disagreements.push(Disagreement {
        seed: 3,
        settings: Settings::default(),
        answers: vec![said("interpreter", Told::Answered(1))],
    });
    assert!(!report.agreed());
}

#[test]
fn told_compares_what_was_said() {
    assert!(Told::Answered(1).same(&Told::Answered(1)));
    assert!(!Told::Answered(1).same(&Told::Answered(2)));
    assert!(Told::Refused("x".to_string()).same(&Told::Refused("x".to_string())));
    assert!(!Told::Refused("x".to_string()).same(&Told::Stopped("x".to_string())));
}
