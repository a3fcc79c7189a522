use comrak::ctype::{isalpha, isdigit, ispunct, isspace};
use comrak::cursor::Cursor;
use comrak::html::{html_block_end, html_block_start, html_block_start_7};
use comrak::list_marker::{lists_match, parse_list_marker};
use comrak::nodes::{ListDelimType, ListType};
use comrak::scanners::{
    atx_heading_start, close_code_fence, open_code_fence, setext_heading_line, thematic_break,
    SetextChar,
};
use comrak::strings::{
    chop_trailing_hashtags, is_blank, is_line_end_char, is_space_or_tab,
    remove_trailing_blank_lines, rtrim, trim, unescape,
};
use comrak::unwrap::{unwrap_into, unwrap_into_2, unwrap_into_copy};

fn edited(input: &str, edit: fn(&mut Vec<u8>)) -> String {
    let mut v = input.as_bytes().to_vec();
    edit(&mut v);
    String::from_utf8(v).unwrap()
}

fn at(line: &str, offset: usize, column: usize) -> Cursor {
    let mut c = Cursor::start();
    c.offset = offset;
    c.column = column;
    c.find_first_nonspace(line.as_bytes());
    c
}

#[test]
fn bytes_fall_into_classes() {
    assert!(isspace(b' ') && isspace(b'\n') && isspace(11) && !isspace(b'x'));
    assert!(isdigit(b'0') && isdigit(b'9') && !isdigit(b'a'));
    assert!(isalpha(b'a') && isalpha(b'Z') && !isalpha(b'_'));
    assert!(ispunct(b'_') && ispunct(b'~') && !ispunct(b'a') && !ispunct(b' '));
    assert!(is_line_end_char(b'\n') && is_line_end_char(b'\r') && !is_line_end_char(b' '));
    assert!(is_space_or_tab(b' ') && is_space_or_tab(b'\t') && !is_space_or_tab(b'\n'));
}

#[test]
fn texts_are_trimmed() {
    assert_eq!(edited(" a \t\n", rtrim), " a");
    assert_eq!(edited(" \n", rtrim), "");
    assert_eq!(edited("\t a b \n", trim), "a b");
}

#[test]
fn closing_sequences_are_chopped() {
    assert_eq!(edited("# hi ##  \n", chop_trailing_hashtags), "# hi");
    assert_eq!(edited("# hi##\n", chop_trailing_hashtags), "# hi##");
    assert_eq!(edited("##\n", chop_trailing_hashtags), "##");
}

#[test]
fn blank_lines_at_the_end_are_removed() {
    assert_eq!(edited("a\n\n  \n", remove_trailing_blank_lines), "a");
    assert_eq!(edited("a  \nb", remove_trailing_blank_lines), "a  \nb");
    assert_eq!(edited(" \n\t\n", remove_trailing_blank_lines), "");
}

#[test]
fn escapes_are_resolved() {
    assert_eq!(edited("\\*a\\b\\\\", unescape), "*a\\b\\");
    assert_eq!(edited("\\", unescape), "\\");
}

#[test]
fn blank_texts_are_seen() {
    assert!(is_blank(b""));
    assert!(is_blank(b" \t"));
    assert!(is_blank(b"  \nx"));
    assert!(!is_blank(b" x"));
}

#[test]
fn indentation_is_measured_in_columns() {
    let c = at("  \tx\n", 0, 0);
    assert_eq!((c.first_nonspace, c.first_nonspace_column, c.indent), (3, 4, 4));
    assert!(!c.blank);
    let d = at("a\t\n", 1, 1);
    assert_eq!((d.first_nonspace, d.first_nonspace_column, d.indent), (2, 4, 3));
    assert!(d.blank);
    let mut e = d;
    e.find_first_nonspace(b"a\t\n");
    assert_eq!((e.first_nonspace, e.indent, e.blank), (2, 3, true));
}

#[test]
fn tabs_are_consumed_in_part() {
    let mut c = at("\tx\n", 0, 0);
    c.advance_offset(b"\tx\n", 1, true);
    assert_eq!((c.offset, c.column, c.partially_consumed_tab), (0, 1, true));
    c.advance_offset(b"\tx\n", 3, true);
    assert_eq!((c.offset, c.column, c.partially_consumed_tab), (1, 4, false));
    let mut d = at("\t\tx\n", 0, 0);
    d.advance_offset(b"\t\tx\n", 2, false);
    assert_eq!((d.offset, d.column, d.partially_consumed_tab), (2, 8, false));
    d.advance_offset(b"\t\tx\n", 0, true);
    assert_eq!((d.offset, d.column), (2, 8));
}

#[test]
fn heading_starts_are_measured() {
    assert_eq!(atx_heading_start(b"# a\n", 0), Some(2));
    assert_eq!(atx_heading_start(b" ##  a\n", 1), Some(4));
    assert_eq!(atx_heading_start(b"######\n", 0), Some(7));
    assert_eq!(atx_heading_start(b"#######\n", 0), None);
    assert_eq!(atx_heading_start(b"#a\n", 0), None);
}

#[test]
fn fences_are_measured() {
    assert_eq!(open_code_fence(b"``` a\n", 0), Some(3));
    assert_eq!(open_code_fence(b"~~~~`\n", 0), Some(4));
    assert_eq!(open_code_fence(b"``` `\n", 0), None);
    assert_eq!(open_code_fence(b"``\n", 0), None);
    assert_eq!(close_code_fence(b"```` \n", 0), Some(4));
    assert_eq!(close_code_fence(b"``` a\n", 0), None);
}

#[test]
fn underlines_tell_the_level() {
    assert!(matches!(setext_heading_line(b"==  \n", 0), Some(SetextChar::Equals)));
    assert!(matches!(setext_heading_line(b"-\n", 0), Some(SetextChar::Hyphen)));
    assert!(setext_heading_line(b"= =\n", 0).is_none());
    assert!(setext_heading_line(b"x\n", 0).is_none());
}

#[test]
fn breaks_take_three_marks() {
    assert!(thematic_break(b"* * *\n", 0).is_some());
    assert!(thematic_break(b"___\n", 0).is_some());
    assert!(thematic_break(b"--\n", 0).is_none());
    assert!(thematic_break(b"**-\n", 0).is_none());
}

#[test]
fn html_starts_tell_the_kind() {
    assert_eq!(html_block_start(b"<pre>\n", 0), Some(1));
    assert_eq!(html_block_start(b"<!--\n", 0), Some(2));
    assert_eq!(html_block_start(b"<?php\n", 0), Some(3));
    assert_eq!(html_block_start(b"<!DOCTYPE\n", 0), Some(4));
    assert_eq!(html_block_start(b"<![CDATA[\n", 0), Some(5));
    assert_eq!(html_block_start(b"</DIV>\n", 0), Some(6));
    assert_eq!(html_block_start(b"<span>\n", 0), None);
    assert_eq!(html_block_start_7(b"<span a='b' c>  \n", 0), Some(7));
    assert_eq!(html_block_start_7(b"<span> x\n", 0), None);
}

#[test]
fn html_ends_belong_to_kinds() {
    assert!(html_block_end(b"x </Script> y\n", 0, 1));
    assert!(html_block_end(b"x --> y\n", 0, 2));
    assert!(html_block_end(b"?>\n", 0, 3));
    assert!(html_block_end(b">\n", 0, 4));
    assert!(html_block_end(b"]]>\n", 0, 5));
    assert!(!html_block_end(b"-->\n", 0, 3));
    assert!(!html_block_end(b">\n", 0, 6));
    assert!(!html_block_end(b"-->\n", 1, 2));
}

#[test]
fn list_markers_are_read() {
    let (n, nl) = parse_list_marker(b"- a\n", 0, false).unwrap();
    assert_eq!((n, nl.bullet_char, nl.start), (1, b'-', 1));
    assert_eq!(nl.list_type, ListType::Bullet);
    let (m, ol) = parse_list_marker(b"  123) a\n", 2, false).unwrap();
    assert_eq!((m, ol.bullet_char, ol.start), (4, 0, 123));
    assert_eq!(ol.list_type, ListType::Ordered);
    assert_eq!(ol.delimiter, ListDelimType::Paren);
    let (k, last) = parse_list_marker(b"999999999. a\n", 0, false).unwrap();
    assert_eq!((k, last.start, last.delimiter), (10, 999999999, ListDelimType::Period));
}

#[test]
fn other_texts_are_no_markers() {
    assert!(parse_list_marker(b"-a\n", 0, false).is_none());
    assert!(parse_list_marker(b"1234567890. a\n", 0, false).is_none());
    assert!(parse_list_marker(b"1: a\n", 0, false).is_none());
    assert!(parse_list_marker(b"1.a\n", 0, false).is_none());
    assert!(parse_list_marker(b"a\n", 0, false).is_none());
    assert!(parse_list_marker(b"\n", 0, false).is_none());
}

#[test]
fn fewer_markers_interrupt_a_paragraph() {
    assert!(parse_list_marker(b"1. a\n", 0, true).is_some());
    assert!(parse_list_marker(b"2. a\n", 0, true).is_none());
    assert!(parse_list_marker(b"1.  \n", 0, true).is_none());
    assert!(parse_list_marker(b"*  \n", 0, true).is_none());
    assert!(parse_list_marker(b"*  \n", 0, false).is_some());
    assert!(parse_list_marker(b"* \r x\n", 0, true).is_some());
    assert!(parse_list_marker(b"1. \r x\n", 0, true).is_none());
    assert!(parse_list_marker(b"1. \r x\n", 0, false).is_some());
    assert!(parse_list_marker(b"-\n", 0, false).is_some());
}

#[test]
fn kinds_of_lists_are_classes() {
    let (_, a) = parse_list_marker(b"- a\n", 0, false).unwrap();
    let (_, b) = parse_list_marker(b"-  b\n", 0, false).unwrap();
    let (_, c) = parse_list_marker(b"+ c\n", 0, false).unwrap();
    let (_, d) = parse_list_marker(b"1. d\n", 0, false).unwrap();
    let (_, e) = parse_list_marker(b"7. e\n", 0, false).unwrap();
    let (_, f) = parse_list_marker(b"1) f\n", 0, false).unwrap();
    assert!(lists_match(&a, &a) && lists_match(&a, &b) && lists_match(&b, &a));
    assert!(!lists_match(&a, &c) && !lists_match(&a, &d));
    assert!(lists_match(&d, &e) && !lists_match(&d, &f));
}

#[test]
fn values_are_stored_when_they_are_there() {
    let mut x: usize = 1;
    assert!(unwrap_into(Some(5), &mut x));
    assert_eq!(x, 5);
    assert!(!unwrap_into(None, &mut x));
    assert_eq!(x, 5);
    assert!(unwrap_into_copy(Some(&7), &mut x));
    assert_eq!(x, 7);
    assert!(!unwrap_into_copy(None, &mut x));
    assert_eq!(x, 7);
    let mut s = "a".to_string();
    assert!(unwrap_into_2(Some((2, "b".to_string())), &mut x, &mut s));
    assert_eq!((x, s.as_str()), (2, "b"));
    assert!(!unwrap_into_2(None, &mut x, &mut s));
    assert_eq!((x, s.as_str()), (2, "b"));
}
