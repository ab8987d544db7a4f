//! The types a program means, and the words that name them.

use quench::ty::{
    boundaries, holds_a_made_number, is_comparison, made_number, provided, provided_in, tier,
    unsaid, Hole, Length, OpKind, Provides, Size, Ty, Visibility, CHAIN_LINKS, LITERALS, MODULES,
};
use quench::source::Span;

fn whole(bits: u8, signed: bool) -> Ty {
    Ty::Int { bits, signed }
}

fn arr(of: Ty, shape: Vec<usize>, length: Length) -> Ty {
    Ty::Arr { of: Box::new(of), shape, length }
}

#[test]
fn the_hole_words_are_words_the_language_lists() {
    for word in Hole::ALL.iter() {
        assert!(
            CHAIN_LINKS.contains(word),
            "`{word}` is a hole word and `quench words` has never heard of it"
        );
    }
}

#[test]
fn types_are_named_the_way_they_are_written() {
    assert_eq!(whole(64, true).name(), "i64");
    assert_eq!(whole(8, false).name(), "u8");
    assert_eq!(Ty::Str.name(), "str");
    assert_eq!(Ty::Bool.name(), "bool");
    assert_eq!(Ty::Exact.name(), "e");
    assert_eq!(Ty::Decimal { digits: 7 }.name(), "d32");
    assert_eq!(Ty::Decimal { digits: 16 }.name(), "d64");
    assert_eq!(Ty::F64.name(), "b64");
    assert_eq!(Ty::F32.name(), "b32");
    assert_eq!(Ty::F16.name(), "b16");
    assert_eq!(Ty::Hole(Hole::Any).name(), "any");
    assert_eq!(Ty::Hole(Hole::Number).name(), "number");
}

#[test]
fn an_array_is_named_links_then_sizes() {
    assert_eq!(arr(whole(64, true), vec![2, 3], Length::Said).name(), "arr.i64 (2 3)");
    assert_eq!(arr(Ty::Str, vec![], Length::Grows).name(), "arr.str (grow)");
    let nested = arr(arr(whole(8, false), vec![3], Length::Said), vec![], Length::Unknown);
    assert_eq!(nested.name(), "arr.arr.u8 (any 3)");
    assert_eq!(arr(Ty::Bool, vec![4, 5], Length::Grows).name(), "arr.bool (grow 4 5)");
}

#[test]
fn types_get_the_right_article() {
    assert_eq!(whole(64, true).article(), "an");
    assert_eq!(whole(8, false).article(), "a");
    assert_eq!(Ty::Str.article(), "a");
    assert_eq!(Ty::Exact.article(), "an");
    assert_eq!(arr(Ty::Bool, vec![2], Length::Said).article(), "an");
    assert_eq!(Ty::Hole(Hole::Any).article(), "an");
    assert_eq!(Ty::Hole(Hole::Number).article(), "a");
    assert_eq!(Ty::Decimal { digits: 7 }.article(), "a");
}

#[test]
fn every_one_word_name_reads_back_as_itself() {
    for word in Ty::NAMES {
        let ty = Ty::simple(word).unwrap_or_else(|| panic!("`{word}` is listed and not read"));
        assert_eq!(ty.name(), word);
    }
    assert!(Ty::simple("i128").is_none());
    assert!(Ty::simple("").is_none());
}

#[test]
fn any_length_takes_either_kind_of_array() {
    let wanted = arr(whole(64, true), vec![], Length::Unknown);
    assert!(wanted.accepts(&arr(whole(64, true), vec![3], Length::Said)));
    assert!(wanted.accepts(&arr(whole(64, true), vec![], Length::Grows)));
    assert!(!wanted.accepts(&arr(Ty::Str, vec![3], Length::Said)));
    assert!(!wanted.accepts(&whole(64, true)));

    // Nothing goes the other way.
    let said = arr(whole(64, true), vec![3], Length::Said);
    assert!(!said.accepts(&arr(whole(64, true), vec![], Length::Grows)));
    assert!(!said.accepts(&arr(whole(64, true), vec![4], Length::Said)));
    assert!(said.accepts(&arr(whole(64, true), vec![3], Length::Said)));
}

#[test]
fn accepting_is_equality_everywhere_else() {
    assert!(whole(8, true).accepts(&whole(8, true)));
    assert!(!whole(8, true).accepts(&whole(8, false)));
    assert!(!Ty::Str.accepts(&Ty::Bool));
    let grows = arr(Ty::Str, vec![2], Length::Grows);
    assert!(grows.accepts(&arr(Ty::Str, vec![2], Length::Grows)));
    assert!(!grows.accepts(&arr(Ty::Str, vec![2], Length::Said)));
}

#[test]
fn settled_and_unsaid_are_different_questions() {
    let grows = arr(whole(64, true), vec![], Length::Grows);
    assert!(!grows.settled());
    assert!(!unsaid(&grows));
    let any = arr(whole(64, true), vec![], Length::Unknown);
    assert!(!any.settled());
    assert!(unsaid(&any));
    let said = arr(arr(Ty::Bool, vec![2], Length::Said), vec![3], Length::Said);
    assert!(said.settled());
    assert!(!unsaid(&said));
    assert!(Ty::Str.settled());
    assert!(unsaid(&arr(arr(Ty::Bool, vec![], Length::Unknown), vec![3], Length::Said)));
}

#[test]
fn count_multiplies_through_every_allocation() {
    assert_eq!(whole(64, true).count(), 1);
    assert_eq!(arr(whole(64, true), vec![2, 3], Length::Said).count(), 6);
    assert_eq!(arr(arr(Ty::Str, vec![4], Length::Said), vec![2, 3], Length::Said).count(), 24);
    assert_eq!(arr(Ty::Str, vec![0, 5], Length::Said).count(), 0);
}

#[test]
fn boundaries_are_where_each_allocation_ends() {
    assert_eq!(boundaries(&arr(whole(64, true), vec![2, 3], Length::Said)), [2]);
    assert_eq!(
        boundaries(&arr(arr(whole(64, true), vec![3], Length::Said), vec![2], Length::Said)),
        [1, 2]
    );
    assert_eq!(boundaries(&arr(whole(64, true), vec![3], Length::Grows)), [2]);
    assert!(boundaries(&Ty::Bool).is_empty());
}

#[test]
fn the_made_numbers_are_the_ones_the_runtime_builds() {
    assert!(holds_a_made_number(&Ty::Exact));
    assert!(holds_a_made_number(&Ty::Decimal { digits: 16 }));
    assert!(holds_a_made_number(&arr(Ty::Exact, vec![2], Length::Said)));
    assert!(!holds_a_made_number(&arr(whole(8, true), vec![2], Length::Said)));
    assert!(!holds_a_made_number(&Ty::F64));
    assert_eq!(made_number(&arr(arr(Ty::F32, vec![1], Length::Said), vec![1], Length::Said)), &Ty::F32);
}

#[test]
fn a_hole_takes_what_it_says() {
    assert!(Hole::Any.takes(&Ty::Str));
    assert!(Hole::Any.takes(&arr(Ty::Bool, vec![1], Length::Said)));
    assert!(Hole::Number.takes(&whole(16, false)));
    assert!(Hole::Number.takes(&Ty::Exact));
    assert!(Hole::Number.takes(&Ty::Decimal { digits: 7 }));
    assert!(!Hole::Number.takes(&Ty::Str));
    assert!(!Hole::Number.takes(&Ty::Bool));
    assert!(!Hole::Number.takes(&arr(whole(8, true), vec![1], Length::Said)));
    assert_eq!(Hole::from_word("number"), Some(Hole::Number));
    assert_eq!(Hole::from_word("nothing"), None);
    for word in Hole::ALL {
        assert_eq!(Hole::from_word(word).unwrap().word(), word);
    }
}

#[test]
fn a_visibility_reaches_what_its_word_says() {
    let maths = vec!["maths".to_string()];
    let trig = vec!["maths".to_string(), "trig".to_string()];
    let top: Vec<String> = Vec::new();
    assert!(Visibility::Module.reaches(("main", &trig), ("main", &maths)), "a child sees its ancestors");
    assert!(!Visibility::Module.reaches(("main", &maths), ("main", &trig)), "a parent does not see into a child");
    assert!(!Visibility::Module.reaches(("other", &trig), ("main", &maths)));
    assert!(Visibility::Parent.reaches(("main", &maths), ("main", &trig)), "one rung up");
    assert!(!Visibility::Parent.reaches(("main", &trig), ("main", &top)), "nothing is around the top");
    assert!(Visibility::File.reaches(("main", &top), ("main", &trig)));
    assert!(!Visibility::File.reaches(("lib", &top), ("main", &trig)));
    assert!(Visibility::Program.reaches(("lib", &top), ("main", &trig)));
    assert!(Visibility::Export.reaches(("lib", &top), ("main", &trig)));
}

#[test]
fn every_visibility_word_names_its_visibility() {
    for word in Visibility::ALL {
        assert_eq!(Visibility::from_word(word).unwrap().word(), word);
    }
    assert_eq!(Visibility::from_word("public"), None);
    assert_eq!(Visibility::Module.word(), Visibility::ALL[0]);
    assert_eq!(Visibility::Export.word(), Visibility::ALL[4]);
}

#[test]
fn only_mathematics_settles_precedence() {
    assert_eq!(tier(OpKind::Pow), Some(1));
    assert_eq!(tier(OpKind::Mul), Some(2));
    assert_eq!(tier(OpKind::Sub), Some(3));
    assert_eq!(tier(OpKind::Ge), Some(4));
    assert_eq!(tier(OpKind::Mod), None);
    assert_eq!(tier(OpKind::And), None);
    assert!(is_comparison(OpKind::Eq));
    assert!(!is_comparison(OpKind::Add));
    assert!(!is_comparison(OpKind::Or));
}

#[test]
fn a_size_word_says_where_it_was() {
    assert_eq!(Size::Fixed(3).word(), None);
    assert_eq!(Size::Grows(Span::new(4, 8)).word(), Some("grow"));
    assert_eq!(Size::Unknown(Span::new(1, 4)).at(), Some(Span::new(1, 4)));
    assert_eq!(Size::Fixed(2).at(), None);
    assert_eq!(Length::Grows.word(), Some("grow"));
    assert_eq!(Length::Said.word(), None);
    assert!(Length::Said.known());
    assert!(!Length::Unknown.known());
}

#[test]
fn the_provided_functions_are_listed_by_module() {
    let all = provided();
    assert_eq!(all.len(), 41);
    assert_eq!(provided_in(""), ["count", "stitch", "is", "as"]);
    assert_eq!(provided_in("text"), ["slice", "has", "find", "split", "trim"]);
    assert_eq!(provided_in("input"), ["all", "line", "more", "arguments"]);
    assert_eq!(provided_in("maths").len(), 28);
    assert!(provided_in("nowhere").is_empty());
    assert!(all.contains(&("maths", "fma", Provides::Fused)));
    for module in MODULES {
        assert!(!provided_in(module).is_empty(), "`{module}` provides nothing");
    }
    assert_eq!(LITERALS, ["true", "false"]);
}

#[test]
fn a_copy_of_a_type_is_the_same_type() {
    let t = arr(arr(Ty::Hole(Hole::Number), vec![2], Length::Said), vec![], Length::Grows);
    let c = t.clone();
    assert_eq!(c, t);
    assert!(c.same(&t));
    assert!(!c.same(&Ty::Str));
}

#[test]
fn an_goes_before_a_vowel() {
    let types = vec![
        whole(64, true),
        whole(8, false),
        Ty::Str,
        Ty::Bool,
        Ty::Exact,
        Ty::F64,
        Ty::Decimal { digits: 7 },
        Ty::Hole(Hole::Any),
        Ty::Hole(Hole::Number),
        Ty::Arr { of: Box::new(whole(64, true)), shape: vec![3], length: Length::Said },
    ];
    for t in &types {
        let first = t.name().chars().next().expect("a name is never empty");
        let wanted = if matches!(first, 'a' | 'e' | 'i') { "an" } else { "a" };
        assert_eq!(t.article(), wanted, "{}", t.name());
    }
}
