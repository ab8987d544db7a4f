//! How a diagnostic is laid out for a person to read.

use quench::diag::{Diagnostic, Label, LabelStyle};
use quench::render::report;
use quench::source::{SourceFile, Span};

#[test]
fn a_diagnostic_says_what_where_why_and_its_code() {
    let text = "first line\nthe second line\n";
    let file = SourceFile::new("prog.qnl", text);
    let d = Diagnostic::new("E0999", "something is wrong.")
        .primary(Span::new(15, 21), "this")
        .rule("a rule that holds everywhere")
        .tip("a tip")
        .fix("a fix");
    let out = report(&file, &[d]);
    assert_eq!(
        out,
        "error: something is wrong.\n\
         \x20 --> prog.qnl:2:5\n\
         \x20 line: 2, column: 5\n\
         \x20  | the second line\n\
         \x20  |     ^^^^^^ this\n\
         \x20 = rule: a rule that holds everywhere\n\
         \x20 = tip: a tip\n\
         \x20 = fix: a fix\n\
         \x20 Error code: E0999\n\n"
    );
}

#[test]
fn a_secondary_label_is_drawn_with_tildes_and_the_primary_one_is_the_location() {
    let file = SourceFile::new("p.qnl", "abc def\n");
    let d = Diagnostic::new("E0001", "m")
        .secondary(Span::new(0, 3), "first")
        .primary(Span::new(4, 7), "second");
    let out = report(&file, &[d]);
    assert!(out.contains("  --> p.qnl:1:5\n"), "{out}");
    assert!(out.contains("   | ~~~ first\n"), "{out}");
    assert!(out.contains("   |     ^^^ second\n"), "{out}");
}

#[test]
fn a_label_with_nowhere_to_point_is_said_rather_than_drawn() {
    let file = SourceFile::without_text("gone.qnl", vec![0], 5);
    let d = Diagnostic::new("E0002", "m").primary(Span::new(1, 2), "here");
    let out = report(&file, &[d]);
    assert!(out.contains("  --> gone.qnl:1:2\n"), "{out}");
    assert!(out.contains("   = here\n"), "{out}");
}

#[test]
fn a_diagnostic_without_labels_has_no_location() {
    let file = SourceFile::new("p.qnl", "x");
    let out = report(&file, &[Diagnostic::new("E0003", "nowhere")]);
    assert_eq!(out, "error: nowhere\n  Error code: E0003\n\n");
    assert_eq!(report(&file, &[]), "");
}

#[test]
fn every_diagnostic_is_reported_in_order() {
    let file = SourceFile::new("p.qnl", "x");
    let out = report(&file, &[Diagnostic::new("E1", "one"), Diagnostic::new("E2", "two")]);
    assert_eq!(out, "error: one\n  Error code: E1\n\nerror: two\n  Error code: E2\n\n");
}

#[test]
fn a_diagnostic_is_built_up_a_piece_at_a_time() {
    let d = Diagnostic::new("E0100", "msg")
        .label(Label::secondary(Span::new(0, 1), "before"))
        .primary(Span::new(2, 3), "it")
        .rule("r1")
        .rule("r2");
    assert_eq!(d.code, "E0100");
    assert_eq!(d.rules, ["r1", "r2"]);
    assert_eq!(d.labels.len(), 2);
    let primary = d.primary_label().unwrap();
    assert_eq!(primary.note, "it");
    assert_eq!(primary.style, LabelStyle::Primary);
    let only_secondary = Diagnostic::new("E0101", "m").secondary(Span::new(0, 1), "first");
    assert_eq!(only_secondary.primary_label().unwrap().note, "first");
    assert!(Diagnostic::new("E0102", "m").primary_label().is_none());
    assert_eq!(Label::primary(Span::at(3), "p").span, Span::at(3));
}
