//! Name resolution, visibility and the small decisions the checker makes from a span.

use quench::checked::{Constant, Stmt, Value};
use quench::checker::Signature;
use quench::checker::{qualified, Checker, Known};
use quench::source::Span;
use quench::ty::{Hole, Length, Local, LocalId, OpKind, Size, Ty, Visibility};

fn span_of(source: &str, needle: &str) -> Span {
    let start = source.find(needle).expect("the needle is in the source");
    Span::new(start, start + needle.len())
}

fn nth_span_of(source: &str, needle: &str, n: usize) -> Span {
    let start = source.match_indices(needle).nth(n).expect("that many").0;
    Span::new(start, start + needle.len())
}

fn names(list: &[&str]) -> Vec<String> {
    list.iter().map(|s| s.to_string()).collect()
}

fn i64_ty() -> Ty {
    Ty::Int { bits: 64, signed: true }
}

fn checker(source: &str) -> Checker<'_> {
    Checker {
        source,
        locals: vec![],
        scope: vec![vec![]],
        depth: 0,
        signatures: vec![],
        named: vec![],
        constants: vec![],
        known: vec![],
        at_file: "main".to_string(),
        imports: vec![("main".to_string(), names(&["main"]))],
        libraries: vec![],
        at_module: vec![],
        modules: vec![],
        hole: None,
        opening: false,
        at_top: false,
        body: vec![],
        errors: vec![],
    }
}

fn constant(name: &str, in_file: &str, visibility: Visibility) -> Constant {
    Constant {
        name: name.to_string(),
        in_file: in_file.to_string(),
        in_module: vec![],
        visibility,
        ty: i64_ty(),
        value: Value::Number { value: 100, bits: 64, signed: true },
        at: Span::new(0, 1),
    }
}

#[test]
fn a_key_is_the_file_the_modules_and_the_name() {
    let at = names(&["maths", "trig"]);
    assert_eq!(qualified("main", &at, 2, "sin"), "main.maths.trig.sin");
    assert_eq!(qualified("main", &at, 1, "sin"), "main.maths.sin");
    assert_eq!(qualified("main", &at, 0, "sin"), "main.sin");
}

#[test]
fn the_innermost_scope_with_a_name_decides_what_it_means() {
    let mut c = checker("");
    c.scope = vec![
        vec![("x".to_string(), LocalId(0))],
        vec![("y".to_string(), LocalId(1)), ("x".to_string(), LocalId(2))],
    ];
    assert_eq!(c.seen("x"), Some(LocalId(2)));
    assert_eq!(c.seen("y"), Some(LocalId(1)));
    assert_eq!(c.seen("z"), None);
}

#[test]
fn a_name_is_looked_for_here_then_outward_then_in_an_imported_file() {
    let mut c = checker("");
    c.named = vec![
        ("main.f".to_string(), 0),
        ("main.m.g".to_string(), 1),
        ("lib.h".to_string(), 2),
        ("main.m.f".to_string(), 3),
    ];
    c.at_module = names(&["m"]);
    c.imports = vec![("main".to_string(), names(&["main", "lib"]))];
    assert_eq!(c.reachable("g"), Some(1));
    // The innermost match wins.
    assert_eq!(c.reachable("f"), Some(3));
    assert_eq!(c.reachable("lib.h"), Some(2));
    assert_eq!(c.reachable("main.f"), Some(0));
    assert_eq!(c.reachable("other.h"), None);
    assert_eq!(c.reachable("h"), None);
    assert!(c.imports_a("lib.anything"));
    assert!(c.imports_a("main"));
    assert!(!c.imports_a("other.x"));
}

#[test]
fn a_module_that_does_not_reach_here_is_reported_once() {
    let source = "'outer'.'inner'.'x'";
    let mut c = checker(source);
    let inner = span_of(source, "'inner'");
    c.modules = vec![(
        "main.outer.inner".to_string(),
        Known { visibility: Visibility::Module, in_file: "main".to_string(), in_module: names(&["outer"]), at: inner },
    )];
    let whole = Span::new(0, source.len());
    assert!(!c.modules_reach("main", &names(&["outer", "inner"]), whole));
    assert_eq!(c.errors.len(), 1);
    assert_eq!(c.errors[0].code, "E0513");
    assert_eq!(c.errors[0].message, "the module `'outer.inner'` says `module`, and this is written in `main`.");
    // From inside `outer`, the same module is reachable.
    let mut inside = checker(source);
    inside.modules = c.modules.clone();
    inside.at_module = names(&["outer"]);
    assert!(inside.modules_reach("main", &names(&["outer", "inner"]), whole));
    assert!(inside.errors.is_empty());
}

#[test]
fn a_bare_import_is_one_of_the_language_modules_once() {
    let source = "import maths; import maths; import nope;";
    let mut c = checker(source);
    let first = nth_span_of(source, "maths", 0);
    let second = nth_span_of(source, "maths", 1);
    let nope = span_of(source, "nope");
    c.library(first, first);
    assert!(c.errors.is_empty());
    assert_eq!(c.libraries, vec![("main".to_string(), names(&["maths"]))]);
    c.library(second, second);
    assert_eq!(c.errors.len(), 1);
    assert_eq!(c.errors[0].code, "E0517");
    assert_eq!(c.errors[0].message, "`maths` is imported twice.");
    c.library(nope, nope);
    assert_eq!(c.errors.len(), 2);
    assert_eq!(c.errors[1].code, "E0522");
    assert_eq!(c.errors[1].message, "`nope` is not a module the language has.");
    assert_eq!(c.libraries, vec![("main".to_string(), names(&["maths"]))]);
}

fn links(source: &str) -> Vec<Span> {
    let mut out = Vec::new();
    let mut start = 0;
    for (i, ch) in source.char_indices() {
        if ch == '.' {
            out.push(Span::new(start, i));
            start = i + 1;
        }
    }
    out.push(Span::new(start, source.len()));
    out
}

#[test]
fn a_declaration_says_who_can_see_it_once() {
    let source = "const.file.export.i64";
    let mut c = checker(source);
    let chain = links(source);
    assert_eq!(c.seen_by(&chain, chain[0], "constant"), Some(Visibility::File));
    assert_eq!(c.errors.len(), 1);
    assert_eq!(c.errors[0].code, "E0458");
    assert_eq!(c.errors[0].message, "this says twice who can see it.");

    let silent = "const.i64";
    let mut c = checker(silent);
    let chain = links(silent);
    assert_eq!(c.seen_by(&chain, chain[0], "constant"), None);
    assert_eq!(c.errors.len(), 1);
    assert_eq!(c.errors[0].code, "E0459");
    assert_eq!(c.errors[0].message, "this constant does not say who can see it.");
}

#[test]
fn the_narrow_words_want_a_boundary_that_is_there() {
    let source = "func.module.f";
    let mut c = checker(source);
    let chain = links(source);
    assert_eq!(c.seen_by(&chain, chain[0], "function"), None);
    assert_eq!(c.errors[0].code, "E0512");
    assert_eq!(c.errors[0].message, "`module` says a boundary that is not here.");

    let source = "func.parent.f";
    let mut c = checker(source);
    c.at_module = names(&["one"]);
    let chain = links(source);
    assert_eq!(c.seen_by(&chain, chain[0], "function"), None);
    assert_eq!(c.errors[0].message, "`parent` says a boundary that is not here.");
    c.errors.clear();
    c.at_module = names(&["one", "two"]);
    assert_eq!(c.seen_by(&chain, chain[0], "function"), Some(Visibility::Parent));
    assert!(c.errors.is_empty());
}

#[test]
fn only_the_first_size_of_an_allocation_may_say_a_word() {
    let mut c = checker("arr grow 3");
    let grow = Span::new(4, 8);
    let arr = Span::new(0, 3);
    let made = c.one_allocation(&[Size::Grows(grow), Size::Fixed(3)], i64_ty(), arr);
    assert_eq!(made, Some(Ty::Arr { of: Box::new(i64_ty()), shape: vec![3], length: Length::Grows }));
    let made = c.one_allocation(&[Size::Fixed(2), Size::Fixed(3)], Ty::Bool, arr);
    assert_eq!(made, Some(Ty::Arr { of: Box::new(Ty::Bool), shape: vec![2, 3], length: Length::Said }));
    let made = c.one_allocation(&[Size::Unknown(grow)], Ty::Str, arr);
    assert_eq!(made, Some(Ty::Arr { of: Box::new(Ty::Str), shape: vec![], length: Length::Unknown }));
    assert!(c.errors.is_empty());
    assert_eq!(c.one_allocation(&[Size::Fixed(2), Size::Grows(grow)], i64_ty(), arr), None);
    assert_eq!(c.errors.len(), 1);
    assert_eq!(c.errors[0].code, "E0480");
    assert_eq!(c.errors[0].message, "only the first size of an allocation can say `grow`.");
}

#[test]
fn a_type_link_is_a_type_a_hole_or_a_mistake() {
    let source = "i64 any number nope";
    let mut c = checker(source);
    assert_eq!(c.a_type(span_of(source, "i64")), Some(i64_ty()));
    // Outside a signature a hole has no function to belong to.
    assert_eq!(c.a_type(span_of(source, "any")), None);
    assert_eq!(c.errors[0].code, "E0501");
    assert_eq!(c.errors[0].message, "`any` is a hole, and there is no function here to fill it.");
    // Opening a signature, the first hole word opens the hole.
    c.opening = true;
    assert_eq!(c.a_type(span_of(source, "any")), Some(Ty::Hole(Hole::Any)));
    assert_eq!(c.hole, Some(Hole::Any));
    assert_eq!(c.a_type(span_of(source, "any")), Some(Ty::Hole(Hole::Any)));
    assert_eq!(c.a_type(span_of(source, "number")), None);
    assert_eq!(c.errors[1].code, "E0500");
    assert_eq!(c.errors[1].message, "this function opened `any`, and this says `number`.");
    assert_eq!(c.a_type(span_of(source, "nope")), None);
    assert_eq!(c.errors[2].code, "E0402");
    assert_eq!(c.errors[2].message, "`nope` is not a type.");
    assert_eq!(c.errors.len(), 3);
}

#[test]
fn break_needs_a_loop_around_it() {
    let mut c = checker("break");
    c.leave(Span::new(0, 5));
    assert_eq!(c.errors.len(), 1);
    assert_eq!(c.errors[0].code, "E0446");
    assert!(c.body.is_empty());
    c.errors.clear();
    c.depth = 1;
    c.leave(Span::new(0, 5));
    assert!(c.errors.is_empty());
    assert_eq!(c.body, vec![Stmt::Break]);
}

fn with_count_and_limit(source: &str) -> Checker<'_> {
    let mut c = checker(source);
    c.locals = vec![Local {
        name: "count".to_string(),
        ty: i64_ty(),
        mutable: true,
        at: Span::new(0, 1),
        chain: Span::new(0, 1),
        counter: false,
    }];
    c.scope = vec![vec![("count".to_string(), LocalId(0))]];
    c.constants = vec![constant("LIMIT", "main", Visibility::File)];
    c.known = vec![("main.LIMIT".to_string(), 0)];
    c
}

#[test]
fn a_name_is_a_variable_or_a_constant_or_undeclared() {
    let source = "'count' 'LIMIT' 'cout' 'zzzzzz'";
    let mut c = with_count_and_limit(source);
    assert_eq!(c.named(span_of(source, "'count'")), "count");
    assert_eq!(c.named_value(span_of(source, "'count'")), Some((Value::Copy(LocalId(0)), i64_ty())));
    assert_eq!(c.named_value(span_of(source, "'LIMIT'")), Some((Value::Const(0), i64_ty())));
    assert!(c.errors.is_empty());
    assert_eq!(c.lookup(span_of(source, "'count'")), Some(LocalId(0)));
    assert_eq!(c.lookup(span_of(source, "'LIMIT'")), None);
    assert_eq!(c.errors[0].code, "E0472");
    assert_eq!(c.errors[0].message, "`'LIMIT'` is a constant.");
    assert_eq!(c.named_value(span_of(source, "'cout'")), None);
    assert_eq!(c.errors[1].code, "E0413");
    assert_eq!(c.errors[1].message, "`'cout'` is not declared.");
    assert_eq!(c.errors[1].fixes, vec!["did you mean `'count'`?".to_string()]);
    assert_eq!(c.lookup(span_of(source, "'zzzzzz'")), None);
    assert_eq!(c.errors[2].fixes, vec!["declare it above, with `var`".to_string()]);
}

#[test]
fn a_suggestion_is_within_one_edit_and_prefers_a_constant() {
    let mut c = with_count_and_limit("");
    assert_eq!(c.nearest("count"), Some("count".to_string()));
    assert_eq!(c.nearest("counts"), Some("count".to_string()));
    assert_eq!(c.nearest("main.LIMT"), Some("main.LIMIT".to_string()));
    assert_eq!(c.nearest("limit"), None);
    c.scope.push(vec![("cont".to_string(), LocalId(0))]);
    assert_eq!(c.nearest("conn"), Some("cont".to_string()));
}

#[test]
fn a_constant_is_reached_through_a_path() {
    let source = "'main'.'LIMIT' 'lib'.'SECRET' 'main'.'NOTHING'";
    let mut c = with_count_and_limit(source);
    c.constants.push(constant("SECRET", "lib", Visibility::File));
    c.known.push(("lib.SECRET".to_string(), 1));
    c.imports = vec![("main".to_string(), names(&["main", "lib"]))];
    let path = [span_of(source, "'main'"), span_of(source, "'LIMIT'")];
    assert_eq!(c.constant_at(&path), Some((Value::Const(0), i64_ty())));
    assert!(c.errors.is_empty());
    let path = [span_of(source, "'lib'"), span_of(source, "'SECRET'")];
    assert_eq!(c.constant_at(&path), None);
    assert_eq!(c.errors[0].code, "E0511");
    assert_eq!(c.errors[0].message, "`'lib.SECRET'` says `file`, and this is written in `main`.");
    let path = [nth_span_of(source, "'main'", 1), span_of(source, "'NOTHING'")];
    assert_eq!(c.constant_at(&path), None);
    assert_eq!(c.errors[1].code, "E0455");
    assert_eq!(c.errors[1].message, "there is nothing called `'main.NOTHING'`.");
}

fn words(source: &str) -> Vec<Span> {
    let mut out = Vec::new();
    let mut start = None;
    for (i, ch) in source.char_indices() {
        match (ch == ' ', start) {
            (true, Some(s)) => {
                out.push(Span::new(s, i));
                start = None;
            }
            (false, None) => start = Some(i),
            _ => {}
        }
    }
    if let Some(s) = start {
        out.push(Span::new(s, source.len()));
    }
    out
}

#[test]
fn a_shape_is_numbers_grow_or_any() {
    let source = "grow 3 any +7";
    let mut c = checker(source);
    let shape = words(source);
    let whole = Some(Span::new(0, source.len()));
    let read = c.sizes(&shape, whole, Span::new(0, 0));
    assert_eq!(read, Some(vec![Size::Grows(shape[0]), Size::Fixed(3), Size::Unknown(shape[2]), Size::Fixed(7)]));
    assert!(c.errors.is_empty());
}

#[test]
fn a_shape_that_cannot_be_read_says_why() {
    let arr = Span::new(0, 3);
    let mut c = checker("3");
    assert_eq!(c.sizes(&[], None, arr), None);
    assert_eq!(c.errors[0].code, "E0426");
    assert_eq!(c.sizes(&[], Some(Span::new(0, 1)), arr), None);
    assert_eq!(c.errors[1].code, "E0427");

    let source = "2 0";
    let mut c = checker(source);
    assert_eq!(c.sizes(&words(source), Some(Span::new(0, 3)), arr), None);
    assert_eq!(c.errors[0].code, "E0428");
    assert_eq!(c.errors[0].message, "an array of nothing holds nothing.");

    let source = "2 x3 5";
    let mut c = checker(source);
    assert_eq!(c.sizes(&words(source), Some(Span::new(0, 6)), arr), None);
    assert_eq!(c.errors.len(), 1);
    assert_eq!(c.errors[0].code, "E0429");
    assert_eq!(c.errors[0].message, "`x3` is not a size.");

    let source = "99999999999999999999999";
    let mut c = checker(source);
    assert_eq!(c.sizes(&words(source), Some(Span::new(0, source.len())), arr), None);
    assert_eq!(c.errors[0].code, "E0429");
}

#[test]
fn every_arr_link_is_one_allocation_and_the_innermost_takes_the_rest() {
    let source = "arr arr 2 3";
    let mut c = checker(source);
    let spans = words(source);
    let arrays = [spans[0], spans[1]];
    let shape = [spans[2], spans[3]];
    let whole = Some(Span::new(8, source.len()));
    let made = c.arrayed(Some(i64_ty()), Span::new(0, 0), &arrays, &shape, whole);
    let inner = Ty::Arr { of: Box::new(i64_ty()), shape: vec![3], length: Length::Said };
    assert_eq!(made, Some(Ty::Arr { of: Box::new(inner), shape: vec![2], length: Length::Said }));
    // One link takes every size: a rectangle in one allocation.
    let made = c.arrayed(Some(i64_ty()), Span::new(0, 0), &arrays[..1], &shape, whole);
    assert_eq!(made, Some(Ty::Arr { of: Box::new(i64_ty()), shape: vec![2, 3], length: Length::Said }));
    assert!(c.errors.is_empty());
    // Two links and one size is one size short.
    let made = c.arrayed(Some(i64_ty()), Span::new(0, 0), &arrays, &shape[..1], whole);
    assert_eq!(made, None);
    assert_eq!(c.errors[0].code, "E0423");
    assert_eq!(c.errors[0].message, "this says `arr` 2 times and gives 1 size.");
    assert_eq!(c.errors[0].fixes, vec!["give at least 2 sizes".to_string()]);
}

#[test]
fn only_an_array_has_a_shape() {
    let mut c = checker("5");
    assert_eq!(c.arrayed(Some(Ty::Bool), Span::new(0, 0), &[], &[Span::new(0, 1)], Some(Span::new(0, 1))), None);
    assert_eq!(c.errors[0].code, "E0425");
    assert_eq!(c.arrayed(Some(Ty::Bool), Span::new(0, 0), &[], &[], None), Some(Ty::Bool));
    assert_eq!(c.errors.len(), 1);
}

fn binary(op: OpKind, lhs: Value, rhs: Value) -> Value {
    Value::Binary { op, lhs: Box::new(lhs), rhs: Box::new(rhs) }
}

fn number(n: i64) -> Value {
    Value::Number { value: n, bits: 64, signed: true }
}

#[test]
fn a_value_has_the_type_its_parts_give_it() {
    let mut c = checker("");
    let at = Span::new(0, 0);
    assert_eq!(c.type_of(&Value::Text("a".to_string()), at), Some(Ty::Str));
    assert_eq!(c.type_of(&number(1), at), Some(i64_ty()));
    assert_eq!(c.type_of(&Value::Float { bits: 0, width: 32 }, at), Some(Ty::F32));
    assert_eq!(c.type_of(&binary(OpKind::Add, number(1), number(2)), at), Some(i64_ty()));
    assert_eq!(c.type_of(&binary(OpKind::Lt, number(1), number(2)), at), Some(Ty::Bool));
    assert_eq!(c.type_of(&binary(OpKind::Eq, Value::Bool(true), Value::Bool(false)), at), Some(Ty::Bool));
    assert_eq!(c.type_of(&Value::Given { which: 3 }, at), Some(Ty::Arr { of: Box::new(Ty::Str), shape: vec![], length: Length::Grows }));
    assert_eq!(c.type_of(&Value::Array { of: Box::new(Ty::Bool), elements: vec![] }, at), None);
    assert!(c.errors.is_empty());
    c.signatures.push(Signature {
        said: "largest".to_string(),
        in_file: "main".to_string(),
        in_module: vec![],
        visibility: Some(Visibility::File),
        returns: Some(Ty::Hole(Hole::Any)),
        hole: Some(Hole::Any),
        takes: vec![Ty::Hole(Hole::Any)],
        at,
        list: at,
    });
    let call = Value::Call { func: 0, args: vec![], fill: Some(Ty::F64) };
    assert_eq!(c.type_of(&call, at), Some(Ty::F64));
}

#[test]
fn an_operator_on_what_it_does_not_work_on_is_reported_where_it_is() {
    let mut c = checker("");
    let at = Span::new(0, 0);
    assert_eq!(c.type_of(&binary(OpKind::And, number(1), Value::Bool(true)), at), None);
    assert_eq!(c.errors[0].code, "E0422");
    assert_eq!(c.errors[0].tips, vec!["a comparison makes one, and so does a `bool` variable.".to_string()]);
    assert_eq!(c.errors[0].fixes, vec!["compare each side against something".to_string()]);
    assert_eq!(c.errors[0].message, "`and` joins two things that are true or false.");
    assert_eq!(c.type_of(&binary(OpKind::Ne, number(1), Value::Bool(true)), at), None);
    assert_eq!(c.errors[1].code, "E0441");
    assert_eq!(c.errors[1].message, "`!==` compares two of the same thing.");
    assert_eq!(c.type_of(&binary(OpKind::Add, Value::Text("a".to_string()), Value::Text("b".to_string())), at), None);
    assert_eq!(c.errors[2].code, "E0420");
    assert_eq!(c.errors[2].message, "`+` works on numbers.");
    let float = || Value::Float { bits: 0, width: 64 };
    assert_eq!(c.type_of(&binary(OpKind::Mod, float(), float()), at), None);
    assert_eq!(c.errors[3].code, "E0488");
    assert_eq!(c.errors[3].message, "`mod` asks what a division left over, and a `b64` division leaves nothing.");
    // A mistake inside is reported once, and what is around it has no type to check.
    let nested = binary(OpKind::Add, binary(OpKind::And, number(1), number(2)), number(3));
    assert_eq!(c.type_of(&nested, at), None);
    assert_eq!(c.errors.len(), 5);
    assert_eq!(c.errors[4].code, "E0422");
}

#[test]
fn a_hole_has_what_every_type_filling_it_has() {
    let mut c = checker("");
    let at = Span::new(0, 0);
    c.locals = vec![
        Local { name: "a".to_string(), ty: Ty::Hole(Hole::Any), mutable: false, at, chain: at, counter: false },
        Local { name: "n".to_string(), ty: Ty::Hole(Hole::Number), mutable: false, at, chain: at, counter: false },
    ];
    let a = || Value::Copy(LocalId(0));
    let n = || Value::Copy(LocalId(1));
    assert_eq!(c.type_of(&binary(OpKind::Eq, a(), a()), at), Some(Ty::Bool));
    assert_eq!(c.type_of(&binary(OpKind::Lt, a(), a()), at), None);
    assert_eq!(c.errors[0].code, "E0502");
    assert_eq!(c.type_of(&binary(OpKind::Add, n(), n()), at), Some(Ty::Hole(Hole::Number)));
    assert_eq!(c.type_of(&binary(OpKind::Pow, n(), n()), at), None);
    assert_eq!(c.errors[1].code, "E0503");
    assert_eq!(c.errors[1].message, "`^` does not work on every number, and `number` is every number.");
}
