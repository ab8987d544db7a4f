//! Where an offset is in a file, said the three ways a person needs.

use quench::source::{SourceFile, Span};

const FAMILY: &str = "🧑‍🧑‍🧒‍🧒";

fn file(text: &str) -> SourceFile {
    SourceFile::new("src/main.qnl", text)
}

#[test]
fn a_position_counts_from_one() {
    let f = file("abc\ndef\n");
    let at = f.position(0);
    assert_eq!((at.line, at.column, at.byte_column), (1, 1, 1));
}

#[test]
fn lines_are_found_by_offset() {
    let f = file("abc\ndef\nghi");
    assert_eq!(f.line_of(0), 1);
    assert_eq!(f.line_of(2), 1);
    assert_eq!(f.line_of(3), 1, "the newline belongs to the line it ends");
    assert_eq!(f.line_of(4), 2);
    assert_eq!(f.line_of(8), 3);
    assert_eq!(f.line_of(999), 3, "past the end is the last line");
    assert_eq!(f.line_count(), 3);
}

#[test]
fn line_text_excludes_the_ending() {
    let f = file("abc\ndef\nghi");
    assert_eq!(f.line_text(1), "abc");
    assert_eq!(f.line_text(2), "def");
    assert_eq!(f.line_text(3), "ghi");
    assert_eq!(f.line_text(0), "");
    assert_eq!(f.line_text(4), "");
}

#[test]
fn crlf_is_not_left_dangling_on_the_line() {
    let f = file("abc\r\ndef");
    assert_eq!(f.line_text(1), "abc");
    assert_eq!(f.line_text(2), "def");
    assert_eq!(f.line_of(5), 2);
}

#[test]
fn a_trailing_newline_opens_an_empty_last_line() {
    let f = file("abc\n");
    assert_eq!(f.line_count(), 2);
    assert_eq!(f.line_text(2), "");
    let at = f.position(4);
    assert_eq!((at.line, at.column), (2, 1));
}

#[test]
fn the_two_columns_agree_while_the_text_is_ascii() {
    let f = file("plain ascii text, every byte one column wide");
    for offset in 0..f.text().len() {
        let at = f.position(offset);
        assert_eq!(at.column, at.byte_column, "at byte {offset}");
        assert_eq!(at.column, offset + 1);
    }
}

#[test]
fn the_two_columns_part_company_at_an_emoji() {
    let line = format!("the family {FAMILY} lives here");
    let f = file(&line);
    let marker = line.find(" lives").unwrap();

    let at = f.position(marker);
    assert_eq!(at.line, 1);
    assert_eq!(at.column, 13, "thirteen characters in, as a reader counts");
    assert_eq!(at.byte_column, 37, "but thirty-seven bytes in");
    // A relative path is shown as it was written.
    assert_eq!(f.short_location(f.path(), marker), "src/main.qnl:1:37");
}

#[test]
fn a_caret_is_laid_out_in_cells_not_characters() {
    let line = format!("the family {FAMILY} lives here");
    let f = file(&line);
    let family_start = line.find(FAMILY).unwrap();
    let span = Span::new(family_start, family_start + FAMILY.len());

    let (indent, under) = f.caret_layout(span);
    assert_eq!(indent, 11, "eleven cells of `the family `");
    assert_eq!(under, 2, "and the emoji draws two");

    assert_eq!(f.position(family_start).column, 12);
}

#[test]
fn an_empty_span_still_gets_a_caret() {
    let f = file("abc");
    let (indent, under) = f.caret_layout(Span::at(2));
    assert_eq!((indent, under), (2, 1));
}

#[test]
fn spans_slice_and_join() {
    let f = file("a line of plain text here");
    let span = Span::new(2, 6);
    assert_eq!(f.slice(span), "line");
    assert_eq!(span.len(), 4);
    assert!(!span.is_empty());
    assert!(Span::at(4).is_empty());
    assert_eq!(Span::new(2, 5).to(Span::new(9, 12)), Span::new(2, 12));
}

#[test]
fn offsets_past_the_end_do_not_panic() {
    let f = file("abc");
    let at = f.position(999);
    assert_eq!((at.line, at.column, at.byte_column), (1, 4, 4));
    assert_eq!(f.slice(Span::new(1, 999)), "bc");
    assert_eq!(f.caret_layout(Span::new(999, 1000)), (3, 1));
}

#[test]
fn positions_on_a_later_line_restart_their_columns() {
    let f = file("the first line here\nthe second line here");
    let second_line = f.text().find("the second").unwrap();
    let at = f.position(second_line);
    assert_eq!((at.line, at.column, at.byte_column), (2, 1, 1));
}

#[test]
fn a_file_without_its_text_still_knows_where_lines_are() {
    let f = SourceFile::without_text("gone.qnl", vec![0, 4, 8], 11);
    assert!(!f.has_text());
    assert_eq!(f.line_count(), 3);
    assert_eq!(f.line_of(5), 2);
    let at = f.position(6);
    assert_eq!((at.line, at.column, at.byte_column), (2, 3, 3), "bytes stand in for characters");
    assert_eq!(f.line_text(9), "", "a line that is not there is empty");
}

#[test]
fn a_file_keeps_its_path_and_its_text() {
    let f = file("one\ntwo");
    assert_eq!(f.path(), "src/main.qnl");
    assert_eq!(f.text(), "one\ntwo");
    assert!(f.has_text());
    assert_eq!(f.short_location("main.qnl", 5), "main.qnl:2:2");
}

#[test]
fn a_span_covers_both_spans_in_either_order() {
    assert_eq!(Span::new(9, 12).to(Span::new(2, 5)), Span::new(2, 12));
    assert_eq!(Span::new(3, 4).to(Span::new(1, 9)), Span::new(1, 9));
}

#[test]
fn a_file_kept_only_as_its_shape_agrees_on_lines_and_byte_columns() {
    let text = "héllo\n🧑x\nend";
    let kept = SourceFile::new("a.qnl", text);
    let starts: Vec<usize> = vec![0, 7, 13];
    let shape = SourceFile::without_text("a.qnl", starts, text.len());
    for offset in 0..=text.len() + 2 {
        let a = kept.position(offset);
        let b = shape.position(offset);
        assert_eq!(a.line, b.line, "line at {offset}");
        assert_eq!(a.byte_column, b.byte_column, "byte column at {offset}");
        assert_eq!(b.column, b.byte_column);
    }
    // Past the emoji the two kinds of column part company only where the text is kept.
    assert_eq!(kept.position(11).column, 2);
    assert_eq!(shape.position(11).column, 5);
}

#[test]
fn a_one_line_file_without_its_text_has_an_empty_first_line() {
    let f = SourceFile::without_text("gone.qnl", vec![0], 0);
    assert_eq!(f.line_text(1), "");
}

#[test]
fn a_line_begins_one_past_the_last_newline_and_its_columns_agree_in_ascii() {
    let f = SourceFile::new("a.qnl", "ab\ncd\r\nxyz");
    let at = f.position(9);
    assert_eq!((at.line, at.column, at.byte_column), (3, 3, 3));
    let g = SourceFile::new("b.qnl", "x\n\u{1F9D1}\u{200D}\u{1F9D2}z");
    let end = g.text().len();
    let at = g.position(end);
    assert_eq!(at.line, 2);
    assert!(at.column <= at.byte_column);
    assert_eq!((at.column, at.byte_column), (3, end - 2 + 1));
}

#[test]
fn a_line_is_one_more_than_the_newlines_before_it_and_never_goes_back() {
    let f = file("one\ntwo\n\nfour");
    let lines: Vec<usize> = (0..20).map(|o| f.line_of(o)).collect();
    for (o, line) in lines.iter().enumerate() {
        let upto = o.min(f.text().len());
        assert_eq!(*line, 1 + f.text().as_bytes()[..upto].iter().filter(|b| **b == b'\n').count());
        assert!(*line >= 1 && *line <= f.line_count());
    }
    assert!(lines.windows(2).all(|w| w[0] <= w[1]));
    assert_eq!(f.line_of(999), 4);
}
