//! Values written as pieces side by side: text, `bool`s, and a name standing alone.

use quench::checked::{Constant, Printed, Stmt, Stream, Value};
use quench::checker::Checker;
use quench::diag::{Diagnostic, LabelStyle};
use quench::source::Span;
use quench::ty::{Hole, Length, Local, LocalId, Ty, Visibility};
use quench::values::{Fits, Piece, Reading, Shown, Term, Whole};

fn span_of(source: &str, needle: &str) -> Span {
    let start = source.find(needle).expect("the needle is in the source");
    Span::new(start, start + needle.len())
}

fn checker(source: &str) -> Checker<'_> {
    Checker {
        source,
        locals: vec![],
        scope: vec![vec![]],
        depth: 0,
        signatures: vec![],
        named: vec![],
        constants: vec![],
        known: vec![],
        at_file: "main".to_string(),
        imports: vec![("main".to_string(), vec!["main".to_string()])],
        libraries: vec![],
        at_module: vec![],
        modules: vec![],
        hole: None,
        opening: false,
        at_top: false,
        body: vec![],
        errors: vec![],
    }
}

fn local(name: &str, ty: Ty) -> Local {
    Local { name: name.to_string(), ty, mutable: false, at: Span::new(0, 1), chain: Span::new(0, 1), counter: false }
}

/// A checker that knows `'who'` (a `str`), `'n'` (an `i64`), `'xs'` (an array) and the
/// constant `'GREETING'` (a `str`).
fn with_names(source: &str) -> Checker<'_> {
    let mut c = checker(source);
    c.locals = vec![
        local("who", Ty::Str),
        local("n", Ty::Int { bits: 64, signed: true }),
        local(
            "xs",
            Ty::Arr { of: Box::new(Ty::Int { bits: 64, signed: true }), shape: vec![2], length: Length::Said },
        ),
    ];
    c.scope = vec![vec![
        ("who".to_string(), LocalId(0)),
        ("n".to_string(), LocalId(1)),
        ("xs".to_string(), LocalId(2)),
    ]];
    c.constants = vec![Constant {
        name: "GREETING".to_string(),
        in_file: "main".to_string(),
        in_module: vec![],
        visibility: Visibility::File,
        ty: Ty::Str,
        value: Value::Text("hello".to_string()),
        at: Span::new(0, 1),
    }];
    c.known = vec![("main.GREETING".to_string(), 0)];
    c
}

fn written(source: &str, needle: &str) -> Term {
    Term::Piece(Piece::Written { ty: None, mark: span_of(source, needle) })
}

fn only(errors: &[Diagnostic]) -> &Diagnostic {
    assert_eq!(errors.len(), 1, "{errors:?}");
    &errors[0]
}

#[test]
fn a_written_piece_is_its_text_and_an_escape_is_what_it_means() {
    let source = "*a \\* b* \\n \\q";
    let mut c = checker(source);
    let mark = Span::new(0, 8);
    assert_eq!(c.literal(&Piece::Written { ty: None, mark }), Some("a * b".to_string()));
    assert_eq!(c.literal(&Piece::Escape(span_of(source, "\\n"))), Some("\n".to_string()));
    assert!(c.errors.is_empty());
    assert_eq!(c.literal(&Piece::Escape(span_of(source, "\\q"))), None);
    let e = only(&c.errors);
    assert_eq!(e.code, "E0410");
    assert_eq!(e.message, "`\\q` is not an escape.");
    assert_eq!(e.rules, vec!["the escapes are `\\n`, `\\t`, `\\r` and `\\\\`".to_string()]);
}

#[test]
fn a_piece_that_said_its_type_gives_nothing_and_says_nothing_more() {
    let source = "str:*a*";
    let mut c = checker(source);
    let piece = Piece::Written { ty: Some(span_of(source, "str")), mark: span_of(source, "*a*") };
    assert_eq!(c.literal(&piece), None);
    assert!(c.errors.is_empty());
}

#[test]
fn a_name_an_element_or_a_path_is_not_text_known_now() {
    let source = "'who' 'xs'[1] 'm'.'K'";
    let mut c = with_names(source);
    assert_eq!(c.literal(&Piece::Name(span_of(source, "'who'"))), None);
    assert_eq!(c.literal(&Piece::At { name: span_of(source, "'xs'"), close: span_of(source, "]") }), None);
    assert_eq!(c.literal(&Piece::Path(vec![span_of(source, "'m'"), span_of(source, "'K'")])), None);
    assert_eq!(c.errors.len(), 3);
    assert_eq!(c.errors[0].message, "a name cannot be one piece of a longer value yet.");
    assert_eq!(c.errors[0].tips, vec!["a value that is *only* a name works — that copies rather than builds.".to_string()]);
    assert_eq!(c.errors[1].message, "an element cannot be one piece of a longer value yet.");
    assert_eq!(c.errors[1].labels[0].span, Span::new(6, 13));
    assert_eq!(c.errors[2].labels[0].span, Span::new(14, 21));
    assert!(c.errors.iter().all(|e| e.code == "E0411"));
}

#[test]
fn a_bool_is_true_or_false_and_nothing_is_truthy() {
    let source = "*true* *false* *yes*";
    let mut c = checker(source);
    let whole = Span::new(0, source.len());
    assert_eq!(c.written_bool(&vec![written(source, "*true*")], whole), Some(Value::Bool(true)));
    assert_eq!(c.written_bool(&vec![written(source, "*false*")], whole), Some(Value::Bool(false)));
    assert!(c.errors.is_empty());
    assert_eq!(c.written_bool(&vec![written(source, "*yes*")], whole), None);
    let e = only(&c.errors);
    assert_eq!(e.code, "E0416");
    assert_eq!(e.message, "`yes` is not true or false.");
    assert_eq!(e.labels[0].span, span_of(source, "*yes*"));
    assert_eq!(e.fixes, vec!["`*true*` or `*false*`, or a comparison".to_string()]);
}

#[test]
fn a_bool_is_one_thing_not_several() {
    let source = "*true* *false*";
    let mut c = checker(source);
    let whole = Span::new(0, source.len());
    let terms = vec![written(source, "*true*"), written(source, "*false*")];
    assert_eq!(c.written_bool(&terms, whole), None);
    let e = only(&c.errors);
    assert_eq!(e.code, "E0417");
    assert_eq!(e.message, "a `bool` is one thing, not several.");
    assert_eq!(e.labels[0].span, whole);
}

#[test]
fn one_name_is_what_it_holds_when_the_types_agree() {
    let source = "'who' 'GREETING'";
    let mut c = with_names(source);
    assert_eq!(c.one_name(span_of(source, "'who'"), &Ty::Str, Span::new(0, 1)), Some(Value::Copy(LocalId(0))));
    assert_eq!(c.one_name(span_of(source, "'GREETING'"), &Ty::Str, Span::new(0, 1)), Some(Value::Const(0)));
    assert!(c.errors.is_empty());
}

#[test]
fn one_name_of_another_type_is_refused_pointing_at_both() {
    let source = "var.immut.str 'n'";
    let mut c = with_names(source);
    let chain = span_of(source, "var.immut.str");
    assert_eq!(c.one_name(span_of(source, "'n'"), &Ty::Str, chain), None);
    let e = only(&c.errors);
    assert_eq!(e.code, "E0406");
    assert_eq!(e.message, "this is an `i64`, and it is being given to a `str`.");
    assert_eq!(e.labels.len(), 2);
    assert_eq!(e.labels[0].note, "an `i64`");
    assert_eq!(e.labels[1].span, chain);
    assert_eq!(e.labels[1].note, "declared `str` here");
    assert_eq!(e.labels[1].style, LabelStyle::Secondary);
    assert_eq!(e.fixes, vec!["declare it the same type, or write the value out".to_string()]);
}

#[test]
fn naming_an_array_alone_has_to_say_share_or_copy() {
    let source = "'xs'";
    let mut c = with_names(source);
    let arr = Ty::Arr { of: Box::new(Ty::Int { bits: 64, signed: true }), shape: vec![2], length: Length::Said };
    assert_eq!(c.one_name(span_of(source, "'xs'"), &arr, Span::new(0, 1)), None);
    let e = only(&c.errors);
    assert_eq!(e.code, "E0478");
    assert_eq!(e.message, "this does not say whether it shares `'xs'` or copies it.");
    assert_eq!(e.fixes, vec!["`[share 'xs']`, or `[copy 'xs']`".to_string()]);
}

#[test]
fn one_name_that_names_nothing_is_looked_up_as_a_variable() {
    let source = "'nobody'";
    let mut c = with_names(source);
    assert_eq!(c.one_name(span_of(source, "'nobody'"), &Ty::Str, Span::new(0, 1)), None);
    assert_eq!(only(&c.errors).code, "E0413");
}

#[test]
fn text_known_now_stays_one_piece_of_text() {
    let source = "*Hello,* \\n *world*";
    let mut c = checker(source);
    let terms = vec![written(source, "*Hello,*"), Term::Piece(Piece::Escape(span_of(source, "\\n"))), written(source, "*world*")];
    assert_eq!(c.joined_text(terms, Span::new(0, 1)), Some(Value::Text("Hello,\nworld".to_string())));
    assert!(c.errors.is_empty());
}

#[test]
fn a_name_among_the_pieces_makes_them_joined_in_order() {
    let source = "*Hello, * 'who' *!*";
    let mut c = with_names(source);
    let terms = vec![written(source, "*Hello, *"), Term::Piece(Piece::Name(span_of(source, "'who'"))), written(source, "*!*")];
    assert_eq!(
        c.joined_text(terms, Span::new(0, 1)),
        Some(Value::Join(vec![
            Value::Text("Hello, ".to_string()),
            Value::Copy(LocalId(0)),
            Value::Text("!".to_string()),
        ]))
    );
    assert!(c.errors.is_empty());
}

#[test]
fn an_element_worked_out_as_text_is_joined_too() {
    let source = "'who' 'GREETING'";
    let mut c = with_names(source);
    let terms = vec![
        Term::Worked { span: Span::new(0, 5), element: true, built: Some(Value::Const(0)), told: vec![] },
        Term::Piece(Piece::Name(span_of(source, "'who'"))),
    ];
    assert_eq!(
        c.joined_text(terms, Span::new(0, 1)),
        Some(Value::Join(vec![Value::Const(0), Value::Copy(LocalId(0))]))
    );
}

#[test]
fn a_number_among_the_pieces_of_text_is_refused() {
    let source = "var.immut.str *count: * 'n'";
    let mut c = with_names(source);
    let chain = span_of(source, "var.immut.str");
    let terms = vec![written(source, "*count: *"), Term::Piece(Piece::Name(span_of(source, "'n'")))];
    assert_eq!(c.joined_text(terms, chain), None);
    let e = only(&c.errors);
    assert_eq!(e.code, "E0411");
    assert_eq!(e.message, "this is an `i64`, and text is made of text.");
    assert_eq!(e.labels[0].span, span_of(source, "'n'"));
    assert_eq!(e.labels[1].note, "declared `str` here");
    assert_eq!(e.fixes, vec!["declare it `str`, or print the pieces separately".to_string()]);
}

#[test]
fn brackets_among_the_pieces_of_text_are_refused_and_nothing_after_is_read() {
    let source = "(*a*) \\q";
    let mut c = checker(source);
    let terms = vec![
        Term::Worked { span: Span::new(0, 5), element: false, built: Some(Value::Text("a".to_string())), told: vec![] },
        Term::Piece(Piece::Escape(span_of(source, "\\q"))),
    ];
    assert_eq!(c.joined_text(terms, Span::new(0, 1)), None);
    let e = only(&c.errors);
    assert_eq!(e.code, "E0415");
    assert_eq!(e.message, "brackets group something to work out, and text is not worked out.");
}

#[test]
fn what_working_out_an_element_said_is_reported_where_it_stands() {
    let source = "\\q 'xs'[9]";
    let mut c = checker(source);
    let told = vec![Diagnostic::new("E0432", "no such element.")];
    let terms = vec![
        Term::Worked { span: Span::new(3, 10), element: true, built: None, told },
        Term::Piece(Piece::Escape(span_of(source, "\\q"))),
    ];
    assert_eq!(c.joined_text(terms, Span::new(0, 1)), None);
    assert_eq!(only(&c.errors).code, "E0432");
}

fn i64_ty() -> Ty {
    Ty::Int { bits: 64, signed: true }
}

fn arr(of: Ty, shape: Vec<usize>, length: Length) -> Ty {
    Ty::Arr { of: Box::new(of), shape, length }
}

#[test]
fn the_shape_and_the_elements_have_to_agree() {
    let source = "var.immut.arr.i64 (5) ['xs'] = [[*1* *2*]];";
    let mut c = checker(source);
    let value = span_of(source, "[[*1* *2*]]");
    let chain = span_of(source, "var.immut.arr.i64 (5)");
    assert!(matches!(c.elements_fit(&i64_ty(), &vec![5], Length::Said, 2, value, value, chain), Fits::Refused));
    let e = only(&c.errors);
    assert_eq!(e.code, "E0431");
    assert_eq!(e.message, "this holds 5 element(s), and 2 were written.");
    assert_eq!(e.labels[0].note, "2 here");
    assert_eq!(e.labels[1].note, "declared (5)");
    assert!(e.rules[0].contains("written flat, row by row"));
    assert_eq!(e.fixes, vec!["write the missing ones".to_string()]);
}

#[test]
fn an_array_takes_exactly_what_its_shape_holds() {
    let mut c = checker("");
    let at = Span::new(0, 0);
    assert!(matches!(c.elements_fit(&i64_ty(), &vec![5], Length::Said, 5, at, at, at), Fits::Counted));
    assert!(matches!(c.elements_fit(&i64_ty(), &vec![2, 3], Length::Said, 6, at, at, at), Fits::Counted));
    assert!(c.errors.is_empty());
    assert!(matches!(c.elements_fit(&i64_ty(), &vec![2, 3], Length::Said, 7, at, at, at), Fits::Refused));
    assert_eq!(c.errors[0].message, "this holds 6 element(s), and 7 were written.");
    assert_eq!(c.errors[0].labels[1].note, "declared (2 3)");
    assert_eq!(c.errors[0].fixes, vec!["remove the extra ones".to_string()]);
}

#[test]
fn a_growing_array_takes_whole_rows() {
    let mut c = checker("");
    let at = Span::new(0, 0);
    let row = arr(i64_ty(), vec![3], Length::Said);
    assert!(matches!(c.elements_fit(&row, &vec![1], Length::Grows, 6, at, at, at), Fits::Counted));
    assert!(c.errors.is_empty());
    assert!(matches!(c.elements_fit(&row, &vec![1], Length::Grows, 4, at, at, at), Fits::Refused));
    let e = only(&c.errors);
    assert_eq!(e.code, "E0481");
    assert_eq!(e.message, "this grows in rows of 3 elements, and 4 elements were written.");
    assert_eq!(e.labels[0].note, "4 elements here");
    assert_eq!(e.fixes, vec!["write a multiple of 3".to_string()]);
}

#[test]
fn what_grows_under_something_can_only_be_written_empty() {
    let mut c = checker("");
    let at = Span::new(0, 0);
    let growing = arr(i64_ty(), vec![0], Length::Grows);
    assert!(matches!(c.elements_fit(&growing, &vec![2], Length::Said, 0, at, at, at), Fits::EmptyRows(2)));
    assert!(matches!(c.elements_fit(&growing, &vec![0], Length::Grows, 0, at, at, at), Fits::EmptyRows(0)));
    assert!(c.errors.is_empty());
    assert!(matches!(c.elements_fit(&growing, &vec![0], Length::Grows, 2, at, at, at), Fits::Refused));
    let e = only(&c.errors);
    assert_eq!(e.code, "E0484");
    assert_eq!(e.message, "nothing here says where one row ends.");
}

#[test]
fn an_array_whose_length_is_any_is_never_written_here() {
    let mut c = checker("");
    let at = Span::new(0, 0);
    assert!(matches!(c.elements_fit(&i64_ty(), &vec![0], Length::Unknown, 2, at, at, at), Fits::Refused));
    let under = arr(i64_ty(), vec![0], Length::Unknown);
    assert!(matches!(c.elements_fit(&under, &vec![2], Length::Said, 0, at, at, at), Fits::Refused));
    assert_eq!(c.errors.len(), 2);
    assert!(c.errors.iter().all(|e| e.code == "E0510"));
    assert_eq!(c.errors[0].message, "an array whose length is `any` is one that arrived, not one written here.");
}

#[test]
fn a_whole_number_that_was_read_is_that_number_at_that_width() {
    let mut c = checker("");
    let at = Span::new(0, 5);
    assert_eq!(
        c.a_whole_number("200", 8, false, at, Whole::Read(200)),
        Some(Value::Number { value: 200, bits: 8, signed: false })
    );
    assert!(c.errors.is_empty());
}

#[test]
fn a_whole_number_outside_its_type_says_what_the_type_holds() {
    let mut c = checker("");
    let at = Span::new(0, 5);
    assert_eq!(c.a_whole_number("200", 8, true, at, Whole::Outside), None);
    assert_eq!(c.a_whole_number("-3", 16, false, at, Whole::Outside), None);
    assert_eq!(c.errors.len(), 2);
    assert_eq!(c.errors[0].code, "E0489");
    assert_eq!(c.errors[0].message, "`200` does not fit in an `i8`.");
    assert_eq!(c.errors[0].rules, vec!["`i8` holds -128 to 127".to_string()]);
    assert_eq!(
        c.errors[0].tips,
        vec!["a written value is read by the type it is given to, and this one has an edge.".to_string()]
    );
    assert_eq!(c.errors[1].message, "`-3` does not fit in a `u16`.");
    assert_eq!(c.errors[1].rules, vec!["`u16` holds 0 to 65535".to_string()]);
    assert_eq!(c.errors[1].tips, vec!["an unsigned type holds no negative number at all.".to_string()]);
}

#[test]
fn what_is_not_a_whole_number_is_told_which_type_read_it() {
    let mut c = checker("");
    let at = Span::new(0, 5);
    assert_eq!(c.a_whole_number("0.5", 64, true, at, Whole::NotOne), None);
    let e = only(&c.errors);
    assert_eq!(e.code, "E0407");
    assert_eq!(e.message, "`0.5` is not an `i64`.");
    assert_eq!(e.rules, vec!["a written value is read by the type it is given to, and `i64` reads whole numbers".to_string()]);
    assert_eq!(e.tips, vec!["a negative one wears its minus inside the marks.".to_string()]);
    assert_eq!(e.fixes, vec!["write a whole number".to_string()]);
}

fn typed(source: &str, word: &str, value: &str) -> Shown {
    Shown::Piece(Piece::Written { ty: Some(span_of(source, word)), mark: span_of(source, value) })
}

#[test]
fn a_print_shows_each_piece_in_order() {
    let source = "print.stdout[str:*Hello, * 'who' \\n i64:*-42*];";
    let mut c = with_names(source);
    let shown = vec![
        typed(source, "str", "*Hello, *"),
        Shown::Piece(Piece::Name(span_of(source, "'who'"))),
        Shown::Piece(Piece::Escape(span_of(source, "\\n"))),
        typed(source, "i64", "*-42*"),
    ];
    c.print(span_of(source, "stdout"), shown);
    assert!(c.errors.is_empty(), "{:?}", c.errors);
    assert_eq!(
        c.body,
        vec![Stmt::Print {
            to: Stream::Stdout,
            pieces: vec![
                Printed::Text("Hello, ".to_string()),
                Printed::Value { value: Value::Copy(LocalId(0)), ty: Ty::Str },
                Printed::Text("\n".to_string()),
                Printed::Text("-42".to_string()),
            ],
        }]
    );
}

#[test]
fn a_print_goes_somewhere_that_is_a_stream() {
    let source = "print.stdin[str:*x*];";
    let mut c = checker(source);
    c.print(span_of(source, "stdin"), vec![typed(source, "str", "*x*")]);
    assert!(c.body.is_empty());
    let e = only(&c.errors);
    assert_eq!(e.code, "E0442");
    assert_eq!(e.message, "`stdin` is not somewhere to print.");
    assert_eq!(e.tips, vec!["there is `stdout` and `stderr`.".to_string()]);
    assert_eq!(e.fixes, vec!["`stdout` for the ordinary one".to_string()]);
}

#[test]
fn every_piece_of_a_print_that_cannot_be_shown_is_reported() {
    let source = "print.stderr[*hello* bool:*yes* i64:*12x* b17:*1* str:*ok*];";
    let mut c = checker(source);
    let shown = vec![
        Shown::Piece(Piece::Written { ty: None, mark: span_of(source, "*hello*") }),
        typed(source, "bool", "*yes*"),
        typed(source, "i64", "*12x*"),
        typed(source, "b17", "*1*"),
        typed(source, "str", "*ok*"),
    ];
    c.print(span_of(source, "stderr"), shown);
    let codes: Vec<&str> = c.errors.iter().map(|e| e.code.as_str()).collect();
    assert_eq!(codes, ["E0412", "E0416", "E0407", "E0402"]);
    assert_eq!(c.errors[0].fixes, vec!["`str:*hello*` if it is text".to_string()]);
    assert_eq!(c.errors[0].labels[0].note, "no type in front of it");
    assert_eq!(c.errors[1].fixes, vec!["`*true*` or `*false*`".to_string()]);
    assert_eq!(c.errors[2].message, "`12x` is not a whole number.");
    assert_eq!(c.errors[3].message, "`b17` is not a type.");
    assert_eq!(
        c.body,
        vec![Stmt::Print { to: Stream::Stderr, pieces: vec![Printed::Text("ok".to_string())] }]
    );
}

#[test]
fn a_whole_number_in_a_print_is_one_an_i64_holds() {
    let source = "i64:*-9223372036854775808* i64:*9223372036854775808* i64:*+7* i64:*-* stdout";
    let mut c = checker(source);
    let shown = vec![
        Shown::Piece(Piece::Written { ty: Some(Span::new(0, 3)), mark: Span::new(4, 26) }),
        Shown::Piece(Piece::Written { ty: Some(Span::new(27, 30)), mark: Span::new(31, 52) }),
        Shown::Piece(Piece::Written { ty: Some(Span::new(53, 56)), mark: Span::new(57, 61) }),
        Shown::Piece(Piece::Written { ty: Some(Span::new(62, 65)), mark: Span::new(66, 69) }),
    ];
    c.print(span_of(source, "stdout"), shown);
    let codes: Vec<&str> = c.errors.iter().map(|e| e.code.as_str()).collect();
    assert_eq!(codes, ["E0407", "E0407"]);
    assert_eq!(c.errors[0].message, "`9223372036854775808` is not a whole number.");
    assert_eq!(c.errors[1].message, "`-` is not a whole number.");
    assert_eq!(
        c.body,
        vec![Stmt::Print {
            to: Stream::Stdout,
            pieces: vec![Printed::Text("-9223372036854775808".to_string()), Printed::Text("+7".to_string())],
        }]
    );
}

#[test]
fn what_was_worked_out_for_a_print_is_shown_and_what_it_said_is_reported() {
    let source = "stdout";
    let mut c = checker(source);
    let shown = vec![
        Shown::Worked { built: Some((Value::Bool(true), Ty::Bool)), told: vec![] },
        Shown::Worked { built: None, told: vec![Diagnostic::new("E0432", "no such element.")] },
    ];
    c.print(Span::new(0, 6), shown);
    assert_eq!(only(&c.errors).code, "E0432");
    assert_eq!(
        c.body,
        vec![Stmt::Print {
            to: Stream::Stdout,
            pieces: vec![Printed::Value { value: Value::Bool(true), ty: Ty::Bool }],
        }]
    );
}

#[test]
fn one_thing_worked_out_alone_has_to_be_the_type_wanted() {
    let mut c = with_names("");
    let at = Span::new(0, 3);
    let chain = Span::new(4, 8);
    assert_eq!(c.worked_alone(at, Some(Value::Bool(true)), vec![], &Ty::Bool, chain), Some(Value::Bool(true)));
    assert!(c.errors.is_empty());
    let seven = Value::Number { value: 7, bits: 64, signed: true };
    assert_eq!(c.worked_alone(at, Some(seven), vec![], &Ty::Str, chain), None);
    let e = only(&c.errors);
    assert_eq!(e.code, "E0406");
    assert_eq!(e.message, "this is an `i64`, and it is being given to a `str`.");
    assert_eq!(e.labels[1].span, chain);
    assert_eq!(e.fixes, vec!["declare it the same type".to_string()]);
}

#[test]
fn one_thing_worked_out_alone_under_a_hole_is_what_the_caller_filled_it_with() {
    let mut c = with_names("");
    c.locals.push(local("given", Ty::Hole(Hole::Any)));
    let at = Span::new(0, 3);
    let given = Value::Copy(LocalId(3));
    assert_eq!(c.worked_alone(at, Some(given), vec![], &Ty::Hole(Hole::Any), at), Some(Value::Copy(LocalId(3))));
    assert!(c.errors.is_empty());
    let seven = Value::Number { value: 7, bits: 64, signed: true };
    assert_eq!(c.worked_alone(at, Some(seven), vec![], &Ty::Hole(Hole::Any), at), None);
    let e = only(&c.errors);
    assert_eq!(e.message, "this is an `i64`, and it is being given to an `any`.");
    assert_eq!(
        e.rules,
        vec!["a hole is one type, the same one everywhere in a signature — and the caller decides which".to_string()]
    );
    assert_eq!(e.fixes, vec!["name something the function was given, or declare it `i64`".to_string()]);
}

#[test]
fn what_working_out_a_lone_thing_said_comes_first_and_nothing_more_is_said() {
    let mut c = checker("");
    let told = vec![Diagnostic::new("E0436", "a bare number is a size, not a value.")];
    assert_eq!(c.worked_alone(Span::new(0, 1), None, told, &Ty::Str, Span::new(0, 1)), None);
    assert_eq!(only(&c.errors).code, "E0436");
}

#[test]
fn a_number_is_one_written_value_not_several() {
    let mut c = checker("");
    let at = Span::new(3, 9);
    let chain = Span::new(0, 2);
    c.not_several(&i64_ty(), at, 2, chain);
    c.not_several(&Ty::Hole(Hole::Number), at, 3, chain);
    c.not_several(&Ty::Exact, at, 2, chain);
    c.not_several(&Ty::Decimal { digits: 7 }, at, 2, chain);
    let codes: Vec<&str> = c.errors.iter().map(|e| e.code.as_str()).collect();
    assert_eq!(codes, ["E0408", "E0408", "E0475", "E0487"]);
    assert_eq!(c.errors[0].message, "a number is one written value, not several.");
    assert_eq!(c.errors[0].labels[0].note, "2 pieces here");
    assert_eq!(c.errors[0].tips, vec!["`str` is the type where a value is a list of pieces.".to_string()]);
    assert_eq!(c.errors[1].message, "a `number` is one value, not several.");
    assert_eq!(c.errors[1].labels[0].note, "3 pieces here");
    assert_eq!(c.errors[1].labels[1].note, "declared `number` here");
    assert_eq!(c.errors[2].message, "an `e` is one written value, not several.");
    assert_eq!(c.errors[3].message, "a `d32` is one written value, not several.");
    assert_eq!(c.errors[3].labels[1].note, "declared `d32` here");
}

fn boxed(t: Term) -> Box<Term> {
    Box::new(t)
}

#[test]
fn a_bare_number_is_a_size_not_a_value() {
    let source = "12";
    let mut c = checker(source);
    assert_eq!(c.term(Term::Number(Span::new(0, 2)), &i64_ty(), Reading::Unread), None);
    let e = only(&c.errors);
    assert_eq!(e.code, "E0436");
    assert_eq!(e.fixes, vec!["`*12*`".to_string()]);
}

#[test]
fn a_list_of_elements_and_an_escape_are_not_values_in_a_sum() {
    let source = "[[ ]] \\n";
    let mut c = checker(source);
    let list = Term::Elements { open: Span::new(0, 2), close: Span::new(3, 5) };
    assert_eq!(c.term(list, &i64_ty(), Reading::Unread), None);
    assert_eq!(c.term(Term::Piece(Piece::Escape(span_of(source, "\\n"))), &i64_ty(), Reading::Unread), None);
    let codes: Vec<&str> = c.errors.iter().map(|e| e.code.as_str()).collect();
    assert_eq!(codes, ["E0437", "E0419"]);
    assert_eq!(c.errors[0].labels[0].span, Span::new(0, 5));
}

#[test]
fn a_written_value_in_a_sum_is_read_by_the_chain() {
    let source = "*7* *300* *yes* *true*";
    let mut c = checker(source);
    let seven = written(source, "*7*");
    assert_eq!(
        c.term(seven, &Ty::Int { bits: 8, signed: false }, Reading::Whole(Whole::Read(7))),
        Some(Value::Number { value: 7, bits: 8, signed: false })
    );
    let big = written(source, "*300*");
    assert_eq!(c.term(big, &Ty::Int { bits: 8, signed: false }, Reading::Whole(Whole::Outside)), None);
    assert_eq!(only(&c.errors).message, "`300` does not fit in a `u8`.");
    let truth = written(source, "*true*");
    assert_eq!(
        c.term(truth, &Ty::Int { bits: 8, signed: false }, Reading::Whole(Whole::NotOne)),
        Some(Value::Bool(true))
    );
    assert_eq!(c.errors.len(), 1);
    let yes = written(source, "*yes*");
    assert_eq!(c.term(yes, &Ty::Str, Reading::Unread), None);
    assert_eq!(c.errors[1].code, "E0407");
    assert_eq!(c.errors[1].message, "`yes` is not a whole number.");
}

#[test]
fn a_written_value_for_a_hole_has_to_say_its_type() {
    let source = "*1*";
    let mut c = checker(source);
    assert_eq!(c.term(written(source, "*1*"), &Ty::Hole(Hole::Any), Reading::Unread), None);
    let e = only(&c.errors);
    assert_eq!(e.code, "E0509");
    assert_eq!(e.fixes, vec!["`str:*1*`, or whichever type was meant".to_string()]);
}

#[test]
fn a_written_value_that_says_its_type_is_read_by_it() {
    let source = "e:*0.1* str:*hi* b17:*1* d32:*x*";
    let mut c = checker(source);
    let exact = typed_term(source, "e:", "*0.1*");
    assert_eq!(c.term(exact, &Ty::Bool, Reading::Exact(true)), Some(Value::Exact("0.1".to_string())));
    let text = typed_term(source, "str", "*hi*");
    assert_eq!(c.term(text, &Ty::Bool, Reading::Unread), Some(Value::Text("hi".to_string())));
    assert!(c.errors.is_empty());
    let odd = typed_term(source, "b17", "*1*");
    assert_eq!(c.term(odd, &Ty::Bool, Reading::Unread), None);
    let dec = typed_term(source, "d32", "*x*");
    assert_eq!(c.term(dec, &Ty::Bool, Reading::Decimal(false)), None);
    let codes: Vec<&str> = c.errors.iter().map(|e| e.code.as_str()).collect();
    assert_eq!(codes, ["E0409", "E0489"]);
    assert_eq!(c.errors[0].message, "`b17` has nothing to do in a sum.");
    assert_eq!(c.errors[1].message, "`x` is not a `d32`.");
}

fn typed_term(source: &str, word: &str, value: &str) -> Term {
    let word = word.trim_end_matches(':');
    Term::Piece(Piece::Written { ty: Some(span_of(source, word)), mark: span_of(source, value) })
}

#[test]
fn not_turns_a_bool_round_and_nothing_else() {
    let source = "not *true* not 'n'";
    let mut c = with_names(source);
    let turned = Term::Not { span: Span::new(0, 10), word: Span::new(0, 3), of: boxed(written(source, "*true*")) };
    assert_eq!(c.term(turned, &Ty::Bool, Reading::Unread), Some(Value::Not(Box::new(Value::Bool(true)))));
    assert!(c.errors.is_empty());
    let wrong = Term::Not {
        span: Span::new(11, 18),
        word: Span::new(11, 14),
        of: boxed(Term::Piece(Piece::Name(span_of(source, "'n'")))),
    };
    assert_eq!(c.term(wrong, &Ty::Bool, Reading::Unread), None);
    let e = only(&c.errors);
    assert_eq!(e.code, "E0418");
    assert_eq!(e.message, "`not` turns a `bool` round, and this is an `i64`.");
    assert_eq!(e.labels[1].note, "asked to turn round here");
}

#[test]
fn share_and_copy_are_for_arrays() {
    let source = "copy 'xs' share 'who'";
    let mut c = with_names(source);
    let copied = Term::Handed {
        span: Span::new(0, 9),
        word: Span::new(0, 4),
        copies: true,
        of: boxed(Term::Piece(Piece::Name(span_of(source, "'xs'")))),
    };
    assert_eq!(c.term(copied, &Ty::Str, Reading::Unread), Some(Value::Copied(Box::new(Value::Copy(LocalId(2))))));
    let shared = Term::Handed {
        span: Span::new(10, 21),
        word: Span::new(10, 15),
        copies: false,
        of: boxed(Term::Piece(Piece::Name(span_of(source, "'who'")))),
    };
    assert_eq!(c.term(shared, &Ty::Str, Reading::Unread), None);
    let e = only(&c.errors);
    assert_eq!(e.code, "E0479");
    assert_eq!(e.message, "`share` is for arrays, and this is a `str`.");
}

#[test]
fn a_name_in_a_term_is_what_it_refers_to() {
    let source = "'GREETING' 'nobody'";
    let mut c = with_names(source);
    assert_eq!(c.term(Term::Piece(Piece::Name(span_of(source, "'GREETING'"))), &Ty::Str, Reading::Unread), Some(Value::Const(0)));
    assert_eq!(c.term(Term::Piece(Piece::Name(span_of(source, "'nobody'"))), &Ty::Str, Reading::Unread), None);
    assert_eq!(only(&c.errors).code, "E0413");
}

#[test]
fn the_shape_and_the_elements_are_built_into_the_array() {
    let source = "*1* *2* *3* *4* *5* *6*";
    let mut c = checker(source);
    let marks = ["*1*", "*2*", "*3*", "*4*", "*5*", "*6*"];
    let written: Vec<(Term, Reading)> = marks
        .iter()
        .enumerate()
        .map(|(i, m)| (written(source, m), Reading::Whole(Whole::Read(i as i64 + 1))))
        .collect();
    let row = arr(i64_ty(), vec![3], Length::Said);
    let at = Span::new(0, source.len());
    let built = c.array(&row, &vec![2], Length::Said, written, at, at, at).expect("it fits");
    assert!(c.errors.is_empty(), "{:?}", c.errors);
    let Value::Array { elements, .. } = built else { panic!("an array") };
    assert_eq!(elements.len(), 2);
    assert_eq!(
        elements[1],
        Value::Array {
            of: Box::new(i64_ty()),
            elements: vec![
                Value::Number { value: 4, bits: 64, signed: true },
                Value::Number { value: 5, bits: 64, signed: true },
                Value::Number { value: 6, bits: 64, signed: true },
            ],
        }
    );
}

#[test]
fn an_element_of_another_type_is_refused() {
    let source = "*1* 'who'";
    let mut c = with_names(source);
    let written = vec![
        (written(source, "*1*"), Reading::Whole(Whole::Read(1))),
        (Term::Piece(Piece::Name(span_of(source, "'who'"))), Reading::Unread),
    ];
    let chain = Span::new(0, 1);
    assert_eq!(c.array_rows(&i64_ty(), written, chain), None);
    let e = only(&c.errors);
    assert_eq!(e.code, "E0432");
    assert_eq!(e.message, "this is a `str`, and the array holds an `i64`.");
    assert_eq!(e.labels[1].note, "declared `arr.i64` here");
}

#[test]
fn the_array_count_is_still_checked_first() {
    let source = "*1* *2*";
    let mut c = checker(source);
    let written = vec![
        (written(source, "*1*"), Reading::Whole(Whole::Read(1))),
        (written(source, "*2*"), Reading::Whole(Whole::Read(2))),
    ];
    let at = Span::new(0, 7);
    assert_eq!(c.array(&i64_ty(), &vec![5], Length::Said, written, at, at, at), None);
    assert_eq!(only(&c.errors).message, "this holds 5 element(s), and 2 were written.");
}
