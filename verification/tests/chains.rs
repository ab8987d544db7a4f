//! Reading chains, headings, imports, and which function a call names.

use quench::chains::{Heading, Parameter};
use quench::checker::Checker;
use quench::source::Span;
use quench::ty::{Hole, Length, OpKind, Part, Ty, Visibility};

fn span_of(source: &str, needle: &str) -> Span {
    let start = source.find(needle).expect("the needle is in the source");
    Span::new(start, start + needle.len())
}

fn nth_span_of(source: &str, needle: &str, n: usize) -> Span {
    let start = source.match_indices(needle).nth(n).expect("that many").0;
    Span::new(start, start + needle.len())
}

fn links(source: &str, words: &[&str]) -> Vec<Span> {
    let mut from = 0;
    let mut out = Vec::new();
    for word in words {
        let start = from + source[from..].find(word).expect("the word is in the source");
        out.push(Span::new(start, start + word.len()));
        from = start + word.len();
    }
    out
}

fn i64_ty() -> Ty {
    Ty::Int { bits: 64, signed: true }
}

fn checker(source: &str) -> Checker<'_> {
    Checker {
        source,
        locals: vec![],
        scope: vec![vec![]],
        depth: 0,
        signatures: vec![],
        named: vec![],
        constants: vec![],
        known: vec![],
        at_file: "main".to_string(),
        imports: vec![("main".to_string(), vec!["main".to_string()])],
        libraries: vec![],
        at_module: vec![],
        modules: vec![],
        hole: None,
        opening: false,
        at_top: false,
        body: vec![],
        errors: vec![],
    }
}

fn codes(c: &Checker<'_>) -> Vec<String> {
    c.errors.iter().map(|e| e.code.clone()).collect()
}

fn parameter(source: &str, words: &[&str]) -> Parameter {
    let chain = links(source, words);
    let span = Span::new(chain[0].start, chain[chain.len() - 1].end);
    Parameter { chain, span, shape: vec![], shape_span: None }
}

#[test]
fn a_parameter_reads_its_type() {
    let source = "immut.i64";
    let mut c = checker(source);
    let got = c.parameter_ty(&parameter(source, &["immut", "i64"]));
    assert_eq!(got, Some(i64_ty()));
    assert!(c.errors.is_empty());
}

#[test]
fn a_parameter_that_never_says_whether_it_can_change_is_refused() {
    let source = "i64";
    let mut c = checker(source);
    assert_eq!(c.parameter_ty(&parameter(source, &["i64"])), None);
    assert_eq!(codes(&c), vec!["E0465"]);
    assert_eq!(c.errors[0].message, "this parameter does not say whether it can change.");
}

#[test]
fn a_link_after_a_parameters_type_is_refused() {
    let source = "immut.i64.str";
    let mut c = checker(source);
    assert_eq!(c.parameter_ty(&parameter(source, &["immut", "i64", "str"])), None);
    assert_eq!(codes(&c), vec!["E0403"]);
    assert_eq!(c.errors[0].message, "`str` comes after the type.");
}

#[test]
fn a_parameter_with_no_type_gives_nothing_and_says_nothing() {
    let source = "immut";
    let mut c = checker(source);
    assert_eq!(c.parameter_ty(&parameter(source, &["immut"])), None);
    assert!(c.errors.is_empty());
}

#[test]
fn a_parameter_can_be_an_array() {
    let source = "immut.arr.i64 (3)";
    let mut c = checker(source);
    let mut p = parameter(source, &["immut", "arr", "i64"]);
    p.shape = vec![span_of(source, "3")];
    p.shape_span = Some(span_of(source, "(3)"));
    let got = c.parameter_ty(&p);
    assert_eq!(got, Some(Ty::Arr { of: Box::new(i64_ty()), shape: vec![3], length: Length::Said }));
    assert!(c.errors.is_empty());
}

#[test]
fn a_declaration_chain_says_whether_it_changes_and_what_it_is() {
    let source = "var.mut.i64";
    let mut c = checker(source);
    let read = c.chain(&links(source, &["var", "mut", "i64"]), &[], None).expect("it reads");
    assert!(read.mutable);
    assert_eq!(read.ty, Some(i64_ty()));
    assert_eq!(read.ty_span, span_of(source, "i64"));
    assert!(c.errors.is_empty());
}

#[test]
fn a_declaration_that_never_says_whether_it_changes_is_refused() {
    let source = "var.i64";
    let mut c = checker(source);
    assert!(c.chain(&links(source, &["var", "i64"]), &[], None).is_none());
    assert_eq!(codes(&c), vec!["E0444"]);
}

#[test]
fn a_constant_does_not_have_to_say_it_never_changes() {
    let source = "const.file.i64";
    let mut c = checker(source);
    c.at_top = true;
    let read = c.chain(&links(source, &["const", "file", "i64"]), &[], None).expect("it reads");
    assert!(!read.mutable);
    assert_eq!(read.ty, Some(i64_ty()));
    assert!(c.errors.is_empty());
}

#[test]
fn a_constant_that_says_mut_says_nothing() {
    let source = "const.mut.i64";
    let mut c = checker(source);
    c.at_top = true;
    let read = c.chain(&links(source, &["const", "mut", "i64"]), &[], None).expect("it still reads");
    assert!(!read.mutable);
    assert_eq!(codes(&c), vec!["E0473"]);
    assert_eq!(c.errors[0].message, "a constant never changes, so `mut` says nothing.");
}

#[test]
fn saying_twice_whether_it_changes_is_reported_and_reading_goes_on() {
    let source = "var.mut.immut.i64";
    let mut c = checker(source);
    let read = c.chain(&links(source, &["var", "mut", "immut", "i64"]), &[], None).expect("it reads");
    assert!(read.mutable);
    assert_eq!(codes(&c), vec!["E0443"]);
}

#[test]
fn mut_after_the_type_is_in_the_wrong_place() {
    let source = "var.i64.mut";
    let mut c = checker(source);
    assert!(c.chain(&links(source, &["var", "i64", "mut"]), &[], None).is_none());
    assert_eq!(codes(&c), vec!["E0401", "E0444"]);
    assert_eq!(c.errors[0].message, "`mut` comes before the type.");
}

#[test]
fn a_word_that_is_no_type_stops_the_chain() {
    let source = "var.mut.thing.str";
    let mut c = checker(source);
    assert!(c.chain(&links(source, &["var", "mut", "thing", "str"]), &[], None).is_none());
    assert_eq!(codes(&c), vec!["E0402"]);
    assert_eq!(c.errors[0].message, "`thing` is not a type.");
}

#[test]
fn a_declaration_with_no_type_is_refused() {
    let source = "var.mut";
    let mut c = checker(source);
    assert!(c.chain(&links(source, &["var", "mut"]), &[], None).is_none());
    assert_eq!(codes(&c), vec!["E0404"]);
}

#[test]
fn a_declaration_chain_can_hold_an_array_of_any_length() {
    let source = "var.mut.arr.str (grow)";
    let mut c = checker(source);
    let shape = vec![span_of(source, "grow")];
    let read = c
        .chain(&links(source, &["var", "mut", "arr", "str"]), &shape, Some(span_of(source, "(grow)")))
        .expect("it reads");
    assert_eq!(read.ty, Some(Ty::Arr { of: Box::new(Ty::Str), shape: vec![], length: Length::Grows }));
}

#[test]
fn what_a_function_gives_back_is_its_last_link() {
    let source = "fn.file.i64";
    let mut c = checker(source);
    assert_eq!(c.gives_back(&links(source, &["fn", "file", "i64"]), &[], None), Some(Some(i64_ty())));
    assert!(c.errors.is_empty());
}

#[test]
fn nothing_is_an_answer_a_function_can_give() {
    let source = "fn.file.nothing";
    let mut c = checker(source);
    assert_eq!(c.gives_back(&links(source, &["fn", "file", "nothing"]), &[], None), Some(None));
    assert!(c.errors.is_empty());
}

#[test]
fn a_function_that_does_not_say_what_it_gives_back_is_refused() {
    let source = "fn.file";
    let mut c = checker(source);
    assert_eq!(c.gives_back(&links(source, &["fn", "file"]), &[], None), None);
    assert_eq!(codes(&c), vec!["E0464"]);
}

#[test]
fn links_after_the_answer_are_each_reported() {
    let source = "fn.i64.file.str.bool";
    let mut c = checker(source);
    assert_eq!(
        c.gives_back(&links(source, &["fn", "i64", "file", "str", "bool"]), &[], None),
        Some(Some(i64_ty())),
    );
    assert_eq!(codes(&c), vec!["E0463", "E0463"]);
    assert_eq!(c.errors[0].message, "`str` comes after what the function gives back.");
}

#[test]
fn parameters_are_all_read_before_any_is_refused() {
    let source = "i64 immut.str";
    let mut c = checker(source);
    let params = vec![
        Parameter { chain: vec![span_of(source, "i64")], span: span_of(source, "i64"), shape: vec![], shape_span: None },
        parameter(source, &["immut", "str"]),
    ];
    assert!(c.parameters(&params).is_none());
    assert_eq!(codes(&c), vec!["E0465"]);
    let source = "immut.i64 immut.str";
    let mut c = checker(source);
    let params = vec![parameter(source, &["immut", "i64"]), parameter(source, &["immut", "str"])];
    assert_eq!(c.parameters(&params), Some(vec![i64_ty(), Ty::Str]));
}

fn heading(source: &str, chain: &[&str], name: &str, params: Vec<Parameter>) -> Heading {
    Heading {
        name: span_of(source, name),
        chain: links(source, chain),
        shape: vec![],
        shape_span: None,
        params,
        takes: span_of(source, "("),
    }
}

#[test]
fn a_heading_becomes_a_signature_under_its_key() {
    let source = "fn.file.i64 'f' (immut.str)";
    let mut c = checker(source);
    let params = vec![parameter(source, &["immut", "str"])];
    c.read_signature(&heading(source, &["fn", "file", "i64"], "'f'", params));
    assert!(c.errors.is_empty());
    assert_eq!(c.named, vec![("main.f".to_string(), 0)]);
    let sig = &c.signatures[0];
    assert_eq!(sig.said, "f");
    assert_eq!(sig.in_file, "main");
    assert_eq!(sig.visibility, Some(Visibility::File));
    assert_eq!(sig.returns, Some(i64_ty()));
    assert_eq!(sig.takes, vec![Ty::Str]);
    assert_eq!(sig.hole, None);
    assert_eq!(sig.at, span_of(source, "'f'"));
}

#[test]
fn a_function_declared_twice_is_refused_the_second_time() {
    let source = "fn.file.nothing 'f' () fn.file.nothing 'f' ()";
    let mut c = checker(source);
    let first = Heading {
        name: nth_span_of(source, "'f'", 0),
        chain: links(source, &["fn", "file", "nothing"]),
        shape: vec![],
        shape_span: None,
        params: vec![],
        takes: nth_span_of(source, "()", 0),
    };
    c.read_signature(&first);
    let second = Heading {
        name: nth_span_of(source, "'f'", 1),
        chain: vec![nth_span_of(source, "fn", 1), nth_span_of(source, "file", 1), nth_span_of(source, "nothing", 1)],
        shape: vec![],
        shape_span: None,
        params: vec![],
        takes: nth_span_of(source, "()", 1),
    };
    c.read_signature(&second);
    assert_eq!(codes(&c), vec!["E0461"]);
    assert_eq!(c.errors[0].message, "`'f'` is declared twice.");
    assert_eq!(c.signatures.len(), 1);
}

#[test]
fn a_signature_opens_the_hole_it_names_and_closes_it_after() {
    let source = "fn.file.any 'g' (immut.any)";
    let mut c = checker(source);
    let params = vec![parameter(source, &["immut", "any"])];
    c.signature(&heading(source, &["fn", "file", "any"], "'g'", params));
    assert!(c.errors.is_empty());
    assert_eq!(c.hole, None);
    assert!(!c.opening);
    let sig = &c.signatures[0];
    assert_eq!(sig.hole, Some(Hole::Any));
    assert_eq!(sig.returns, Some(Ty::Hole(Hole::Any)));
    assert_eq!(sig.takes, vec![Ty::Hole(Hole::Any)]);
}

#[test]
fn a_hole_outside_a_signature_is_refused() {
    let source = "fn.file.any 'g' ()";
    let mut c = checker(source);
    c.read_signature(&heading(source, &["fn", "file", "any"], "'g'", vec![]));
    assert_eq!(codes(&c), vec!["E0501"]);
    assert!(c.signatures.is_empty());
}

#[test]
fn a_call_finds_the_function_it_names() {
    let source = "fn.file.nothing 'f' () call 'f'[]";
    let mut c = checker(source);
    c.read_signature(&heading(source, &["fn", "file", "nothing"], "'f'", vec![]));
    let name = nth_span_of(source, "'f'", 1);
    assert_eq!(c.function_named(name, &[], span_of(source, "]")), Some(0));
    assert!(c.errors.is_empty());
}

#[test]
fn a_call_to_nothing_says_so_and_points_at_a_near_path() {
    let source = "call 'h'[] 'f'";
    let mut c = checker(source);
    c.named.push(("main.maths.h".to_string(), 0));
    c.signatures.push(quench::checker::Signature {
        said: "h".to_string(),
        in_file: "main".to_string(),
        in_module: vec!["maths".to_string()],
        visibility: Some(Visibility::File),
        returns: None,
        hole: None,
        takes: vec![],
        at: span_of(source, "'f'"),
        list: span_of(source, "[]"),
    });
    assert_eq!(c.function_named(span_of(source, "'h'"), &[], span_of(source, "]")), None);
    assert_eq!(codes(&c), vec!["E0455"]);
    assert_eq!(c.errors[0].message, "there is nothing called `'h'`.");
    assert_eq!(c.errors[0].fixes, vec!["`call 'maths'.'h'[…]`, which is where that name is"]);
}

#[test]
fn a_call_into_a_file_this_one_does_not_import_says_to_import_it() {
    let source = "call 'other'.'f'[]";
    let mut c = checker(source);
    c.imports.push(("other".to_string(), vec!["other".to_string()]));
    let chain = vec![span_of(source, "'f'")];
    assert_eq!(c.function_named(span_of(source, "'other'"), &chain, span_of(source, "]")), None);
    assert_eq!(codes(&c), vec!["E0518"]);
    assert_eq!(c.errors[0].message, "`'other'` is a file of this program, and this file does not import it.");
}

#[test]
fn a_function_that_does_not_reach_here_is_refused() {
    let source = "call 'main'.'f'[] 'f'";
    let mut c = checker(source);
    c.named.push(("main.f".to_string(), 0));
    c.signatures.push(quench::checker::Signature {
        said: "f".to_string(),
        in_file: "main".to_string(),
        in_module: vec![],
        visibility: Some(Visibility::File),
        returns: None,
        hole: None,
        takes: vec![],
        at: nth_span_of(source, "'f'", 1),
        list: span_of(source, "[]"),
    });
    c.at_file = "second".to_string();
    c.imports.push(("second".to_string(), vec!["second".to_string(), "main".to_string()]));
    let chain = vec![nth_span_of(source, "'f'", 0)];
    assert_eq!(c.function_named(span_of(source, "'main'"), &chain, span_of(source, "]")), None);
    assert_eq!(codes(&c), vec!["E0511"]);
    assert_eq!(c.errors[0].message, "`'main.f'` says `file`, and this is written in the top of the file.");
}

fn parts() -> Vec<Part> {
    vec![Part { at: 0, name: "main".to_string() }, Part { at: 10, name: "other".to_string() }]
}

#[test]
fn importing_a_file_of_the_program_makes_it_nameable_once() {
    let source = "import ['other'];";
    let mut c = checker(source);
    let name = span_of(source, "'other'");
    c.imported(name, true, span_of(source, source), &parts());
    assert!(c.errors.is_empty());
    assert_eq!(c.imports[0].1, vec!["main".to_string(), "other".to_string()]);
    c.imported(name, true, span_of(source, source), &parts());
    assert_eq!(codes(&c), vec!["E0517"]);
    assert_eq!(c.errors[0].message, "`'other'` is imported twice.");
}

#[test]
fn a_file_cannot_import_itself_or_a_file_the_program_lacks() {
    let source = "import ['main']; import ['nope'];";
    let mut c = checker(source);
    c.imported(span_of(source, "'main'"), true, span_of(source, "import ['main'];"), &parts());
    c.imported(span_of(source, "'nope'"), true, span_of(source, "import ['nope'];"), &parts());
    assert_eq!(codes(&c), vec!["E0515", "E0516"]);
    assert_eq!(c.errors[0].message, "`'main'` is this file.");
    assert_eq!(c.errors[1].message, "`'nope'` is not a file of this program.");
    assert_eq!(c.errors[1].tips, vec!["the others are `'other'`."]);
}

#[test]
fn an_import_inside_a_module_is_refused() {
    let source = "import ['other'];";
    let mut c = checker(source);
    c.at_module = vec!["inner".to_string()];
    c.imported(span_of(source, "'other'"), true, span_of(source, source), &parts());
    assert_eq!(codes(&c), vec!["E0514"]);
}

#[test]
fn a_bare_import_is_one_of_the_languages_modules() {
    let source = "import maths;";
    let mut c = checker(source);
    c.imported(span_of(source, "maths"), false, span_of(source, source), &parts());
    assert!(c.errors.is_empty());
    assert_eq!(c.libraries, vec![("main".to_string(), vec!["maths".to_string()])]);
}

#[test]
fn two_operators_with_no_agreed_order_are_named_in_the_order_written() {
    let source = "a mod b ^ c";
    let mut c = checker(source);
    let md = (OpKind::Mod, span_of(source, "mod"));
    let pow = (OpKind::Pow, span_of(source, "^"));
    c.ambiguous(span_of(source, source), pow, md);
    assert_eq!(codes(&c), vec!["E0421"]);
    assert_eq!(c.errors[0].message, "`mod` and `^` have no agreed order, so this could be read two ways.");
}
