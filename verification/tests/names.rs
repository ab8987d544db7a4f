//! What is between marks, and names that are nearly right.

use quench::names::{escape, unmarked, within_one_edit};

#[test]
fn the_marks_come_off() {
    assert_eq!(unmarked("'name'"), "name");
    assert_eq!(unmarked("*some text*"), "some text");
    assert_eq!(unmarked("''"), "");
    assert_eq!(unmarked("'"), "");
    assert_eq!(unmarked(""), "");
}

#[test]
fn a_mark_escaped_inside_is_the_mark() {
    assert_eq!(unmarked(r"'it\'s'"), "it's");
    assert_eq!(unmarked(r"*a \* star*"), "a * star");
    assert_eq!(unmarked(r"'back\\slash'"), r"back\slash");
    // Any other backslash is kept as it was written.
    assert_eq!(unmarked(r"*line\n*"), r"line\n");
    assert_eq!(unmarked(r"'ends\'"), r"ends\");
    assert_eq!(unmarked("'🧑‍🧑‍🧒‍🧒'"), "🧑‍🧑‍🧒‍🧒");
}

#[test]
fn four_escapes_mean_something() {
    assert_eq!(escape(r"\n"), Some("\n"));
    assert_eq!(escape(r"\t"), Some("\t"));
    assert_eq!(escape(r"\r"), Some("\r"));
    assert_eq!(escape(r"\\"), Some("\\"));
    assert_eq!(escape(r"\q"), None);
    assert_eq!(escape("n"), None);
}

#[test]
fn one_edit_is_near_and_two_are_not() {
    assert!(within_one_edit("count", "count"));
    assert!(within_one_edit("count", "coutn") == false);
    assert!(within_one_edit("count", "cont"), "a deletion");
    assert!(within_one_edit("cont", "count"), "an insertion");
    assert!(within_one_edit("count", "mount"), "a substitution");
    assert!(within_one_edit("count", "counts"));
    assert!(!within_one_edit("count", "amount"));
    assert!(!within_one_edit("count", "cou"));
    assert!(within_one_edit("", "a"));
    assert!(within_one_edit("", ""));
    assert!(!within_one_edit("ab", "ba"));
    assert!(within_one_edit("aab", "ab"));
    assert!(within_one_edit("🧒a", "a"));
}

#[test]
fn nearness_does_not_depend_on_order() {
    let words = ["divison", "division", "divisions", "dvision", "vision", "x", ""];
    for a in words {
        for b in words {
            assert_eq!(within_one_edit(a, b), within_one_edit(b, a), "{a} and {b}");
        }
    }
}
