//! A program as the files it is made of, and the words the language gives meaning to.

use quench::program::{counted_words, files_of, laid_end_to_end, listing, part_of, same_file};
use quench::ty::Part;

fn pair(a: &str, b: &str) -> (String, String) {
    (a.to_string(), b.to_string())
}

#[test]
fn one_file_is_the_module_main() {
    let files = files_of("prog.qnl", &[]).unwrap();
    assert_eq!(files, [pair("main", "prog.qnl")]);
}

#[test]
fn listed_files_are_the_program() {
    let listed = [pair("main", "src/main.qnl"), pair("maths", "src/maths.qnl")];
    assert_eq!(files_of("src/main.qnl", &listed).unwrap(), listed);
    // The same file named another way is still the same file.
    assert_eq!(files_of("main.qnl", &listed).unwrap(), listed);
}

#[test]
fn a_file_the_project_does_not_list_is_refused() {
    let listed = [pair("main", "src/main.qnl"), pair("maths", "src/maths.qnl")];
    let why = files_of("other.qnl", &listed).unwrap_err();
    assert_eq!(
        why,
        "`other.qnl` is not one of the files `[program.files]` lists.\nit lists src/main.qnl, src/maths.qnl."
    );
}

#[test]
fn same_file_compares_what_a_person_meant() {
    assert!(same_file("a/b.qnl", "a/b.qnl"));
    assert!(same_file("a/b.qnl", "c/b.qnl"));
    assert!(same_file("b.qnl", "./x/b.qnl"));
    assert!(!same_file("a/b.qnl", "a/c.qnl"));
    assert!(same_file("..", "../.."), "neither has a file name");
}

#[test]
fn files_are_laid_end_to_end_with_a_newline_after_each() {
    let named = [pair("main", "main.qnl"), pair("maths", "maths.qnl"), pair("é", "e.qnl")];
    let texts = ["START {}".to_string(), "é".to_string(), String::new()];
    let p = laid_end_to_end(&named, &texts);
    assert_eq!(p.whole, "START {}\né\n\n");
    let ats: Vec<usize> = p.parts.iter().map(|part| part.at).collect();
    assert_eq!(ats, [0, 9, 12]);
    assert_eq!(p.parts[1].name, "maths");
    assert_eq!(p.files[1].0, 9);
    assert_eq!(p.files[1].1.path(), "maths.qnl");
    assert_eq!(p.files[1].1.text(), "é");
    assert_eq!(p.files[2].2, "é");
}

#[test]
fn an_offset_belongs_to_the_file_it_sits_in() {
    let parts = [
        Part { at: 0, name: "main".to_string() },
        Part { at: 9, name: "maths".to_string() },
        Part { at: 12, name: "text".to_string() },
    ];
    assert_eq!(part_of(&parts, 0), 0);
    assert_eq!(part_of(&parts, 8), 0);
    assert_eq!(part_of(&parts, 9), 1);
    assert_eq!(part_of(&parts, 11), 1);
    assert_eq!(part_of(&parts, 12), 2);
    assert_eq!(part_of(&parts, 1000), 2);
    let later = [Part { at: 5, name: "late".to_string() }];
    assert_eq!(part_of(&later, 2), 0, "before every file is the first file");
}

#[test]
fn a_listing_is_one_line_per_word_per_group() {
    let groups = vec![("type", vec!["i8", "str"]), ("literal", vec!["true"]), ("empty", vec![])];
    assert_eq!(listing(&groups), "type\ti8\ntype\tstr\nliteral\ttrue\n");
}

#[test]
fn a_word_in_two_groups_is_one_word_in_two_places() {
    let listed = "chain link\tany\nchain link\tmut\nhole\tany\n";
    assert_eq!(counted_words(listed), "words\t2\nplaces\t3\ngroups\t2\n");
    assert_eq!(counted_words(""), "words\t0\nplaces\t0\ngroups\t0\n");
    // A line without a tab is a place, and names no word and no group.
    assert_eq!(counted_words("a\tb\r\nloose\nc\td"), "words\t2\nplaces\t3\ngroups\t2\n");
}

#[test]
fn counting_a_listing_counts_what_it_lists() {
    let groups = vec![
        ("chain link", quench::ty::CHAIN_LINKS.to_vec()),
        ("visibility", quench::ty::Visibility::ALL.to_vec()),
        ("hole", quench::ty::Hole::ALL.to_vec()),
    ];
    let listed = listing(&groups);
    assert_eq!(listed.lines().count(), 11 + 5 + 2);
    // `any` and `number` are chain links and holes both.
    assert_eq!(counted_words(&listed), "words\t16\nplaces\t18\ngroups\t3\n");
}
