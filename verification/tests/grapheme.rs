//! Characters as a reader counts them, and cells as a terminal draws them.

use quench::grapheme::{cluster_width, count, graphemes, width};

/// Four people joined into one character.
const FAMILY: &str = "🧑‍🧑‍🧒‍🧒";

/// Every cluster of `s`, in order.
fn clusters(s: &str) -> Vec<&str> {
    let mut all = Vec::new();
    let mut g = graphemes(s);
    while let Some(c) = g.next() {
        all.push(c);
    }
    all
}

#[test]
fn the_family_is_one_character() {
    assert_eq!(FAMILY.chars().count(), 7, "seven scalars");
    assert_eq!(FAMILY.len(), 25, "twenty-five bytes");
    assert_eq!(count(FAMILY), 1, "and one character");
    assert_eq!(graphemes(FAMILY).next(), Some(FAMILY));
}

#[test]
fn a_letter_is_one_character_too() {
    assert_eq!(count("c"), 1);
    assert_eq!(count("hello"), 5);
    assert_eq!(count(""), 0);
}

#[test]
fn ascii_splits_one_byte_at_a_time() {
    assert_eq!(clusters("abc"), ["a", "b", "c"]);
}

#[test]
fn combining_marks_join_what_they_follow() {
    assert_eq!(count("e\u{0301}"), 1);
    assert_eq!(count("é"), 1);
    assert_eq!(count("cafe\u{0301}"), 4);
    assert_eq!(count("a\u{0300}\u{0301}\u{0302}"), 1);
}

#[test]
fn flags_pair_off() {
    let gb = "\u{1F1EC}\u{1F1E7}";
    assert_eq!(count(gb), 1);
    assert_eq!(count(&format!("{gb}{gb}")), 2);
    assert_eq!(count(&format!("{gb}\u{1F1EC}")), 2);
}

#[test]
fn skin_tones_and_variation_selectors_attach() {
    assert_eq!(count("\u{1F44D}\u{1F3FF}"), 1, "thumbs up with a skin tone");
    assert_eq!(count("\u{2764}\u{FE0F}"), 1, "heart asking to be an emoji");
}

#[test]
fn joined_emoji_stay_together() {
    assert_eq!(count("\u{1F468}\u{200D}\u{1F4BB}"), 1, "one person, one laptop");
    assert_eq!(count(FAMILY), 1);
    assert_eq!(count(&format!("{FAMILY}{FAMILY}")), 2);
}

#[test]
fn a_dangling_joiner_does_not_swallow_a_letter() {
    assert_eq!(count("\u{1F9D1}\u{200D}a"), 2);
}

#[test]
fn newlines_are_their_own_character_and_crlf_is_one() {
    assert_eq!(count("\r\n"), 1);
    assert_eq!(count("a\r\nb"), 3);
    assert_eq!(count("a\nb"), 3);
    assert_eq!(count("\n\n"), 2);
}

#[test]
fn hangul_assembles() {
    assert_eq!(count("\u{1100}\u{1161}\u{11A8}"), 1);
    assert_eq!(count("한"), 1);
    assert_eq!(count("한글"), 2);
}

#[test]
fn width_is_not_the_same_measurement_as_count() {
    assert_eq!(count(FAMILY), 1);
    assert_eq!(width(FAMILY), 2);

    assert_eq!(count("c"), 1);
    assert_eq!(width("c"), 1);

    assert_eq!(count("한"), 1);
    assert_eq!(width("한"), 2);

    assert_eq!(width("e\u{0301}"), 1);
}

#[test]
fn a_caret_lands_under_the_right_thing() {
    let line = "var.immut.b16 ['🧑‍🧑‍🧒‍🧒'] = [*1*];";
    let upto = &line[..line.find("] =").unwrap()];
    assert_eq!(count(upto), 18, "eighteen characters before the bracket");
    assert_eq!(width(upto), 19, "but nineteen cells, because the emoji is wide");
}

#[test]
fn every_cluster_is_a_slice_of_the_original() {
    let s = format!("a{FAMILY}b\u{1F1EC}\u{1F1E7}c한e\u{0301}");
    let joined: String = clusters(&s).concat();
    assert_eq!(joined, s, "nothing lost and nothing added");
    assert_eq!(count(&s), 7);
}

#[test]
fn the_clusters_of_a_text_are_never_empty_and_count_them() {
    let s = format!("x{FAMILY}\r\ny\u{1F1EC}");
    let all = clusters(&s);
    assert!(all.iter().all(|c| !c.is_empty()));
    assert_eq!(all.len(), count(&s));
    assert_eq!(all, ["x", FAMILY, "\r\n", "y", "\u{1F1EC}"]);
}

#[test]
fn a_cluster_is_as_wide_as_what_it_draws() {
    assert_eq!(cluster_width("a"), 1);
    assert_eq!(cluster_width("한"), 2);
    assert_eq!(cluster_width(FAMILY), 2);
    assert_eq!(cluster_width("e\u{0301}"), 1);
    assert_eq!(cluster_width("\n"), 1);
    assert_eq!(cluster_width("\u{7}"), 0);
    assert_eq!(cluster_width(""), 0);
}

#[test]
fn width_is_the_sum_of_the_cluster_widths() {
    let s = format!("ab{FAMILY}한\u{0301}");
    let summed: usize = clusters(&s).into_iter().map(cluster_width).sum();
    assert_eq!(width(&s), summed);
    assert_eq!(width(&s), 1 + 1 + 2 + 2);
}
