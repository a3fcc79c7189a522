use comrak::consolidate::consolidate_text_nodes;
use comrak::inlines::{clean_info, clean_title, clean_url, Inline, InlineSyntax, PlainText};
use comrak::nodes::{
    make_block, make_inline, InlineValue, NodeHeading, NodeHtmlBlock, NodeLink, NodeValue,
    TableAlignment,
};
use comrak::references::{scan_definition, RefMap, Reference};
use comrak::table::{row, try_opening_header};
use comrak::tree::Tree;
use comrak::{ComrakOptions, MAXBACKTICKS, MAX_LINK_LABEL_LENGTH};

fn word(t: &str) -> Inline {
    Inline {
        value: InlineValue::Text(t.as_bytes().to_vec()),
        children: Vec::new(),
    }
}

fn holder(value: InlineValue, children: Vec<Inline>) -> Inline {
    Inline { value: value, children: children }
}

fn link() -> InlineValue {
    InlineValue::Link(NodeLink { url: Vec::new(), title: Vec::new() })
}

fn texts(f: &[Inline]) -> Vec<String> {
    f.iter()
        .map(|x| match &x.value {
            InlineValue::Text(t) => String::from_utf8(t.clone()).unwrap(),
            _ => "-".to_string(),
        })
        .collect()
}

fn plain(f: &[Inline]) -> String {
    let mut s = String::new();
    for x in f {
        if let InlineValue::Text(t) = &x.value {
            s.push_str(&String::from_utf8(t.clone()).unwrap());
        }
        s.push_str(&plain(&x.children));
    }
    s
}

fn cells(line: &str) -> Option<Vec<String>> {
    let v = row(line.as_bytes())?;
    Some(v.iter().map(|c| String::from_utf8(c.clone()).unwrap()).collect())
}

#[test]
fn limits_are_fixed() {
    assert_eq!(MAXBACKTICKS, 80);
    assert_eq!(MAX_LINK_LABEL_LENGTH, 1000);
}

#[test]
fn everything_is_off_at_first() {
    let o = ComrakOptions::default();
    assert!(!o.hardbreaks && !o.github_pre_lang && !o.ext_strikethrough && !o.ext_tagfilter);
    assert!(!o.ext_table && !o.ext_autolink);
    assert_eq!(o.width, 0);
}

#[test]
fn definitions_are_scanned() {
    let d = scan_definition(b"[a b]: <uv> 'x\ny'  \nz").unwrap();
    assert_eq!(d.label, b"a b".to_vec());
    assert_eq!(d.title, b"'x\ny'".to_vec());
    assert_eq!(d.url, b"<uv>".to_vec());
    assert_eq!(d.end, 20);
    let e = scan_definition(b"[a]:\n /u\nz").unwrap();
    assert_eq!(e.url, b"/u".to_vec());
    assert_eq!(e.title, b"".to_vec());
    assert_eq!(e.end, 9);
}

#[test]
fn other_texts_are_no_definitions() {
    assert!(scan_definition(b"").is_none());
    assert!(scan_definition(b"x").is_none());
    assert!(scan_definition(b"[]: /u\n").is_none());
    assert!(scan_definition(b"[a] /u\n").is_none());
    assert!(scan_definition(b"[a]: \n").is_none());
    assert!(scan_definition(b"[a]: /u x\n").is_none());
    assert!(scan_definition(b"[a]: <u v>\n").is_none());
    assert!(scan_definition(b"[a[b]: /u\n").is_none());
}

#[test]
fn labels_are_bounded() {
    let mut long = vec![b'['];
    long.extend(vec![b'a'; 1002]);
    long.extend(b"]: /u\n");
    assert!(scan_definition(&long).is_none());
    let mut short = vec![b'['];
    short.extend(vec![b'a'; 999]);
    short.extend(b"]: /u\n");
    assert!(scan_definition(&short).is_some());
}

#[test]
fn the_first_reference_stays() {
    let mut m = RefMap::new();
    assert!(m.lookup(b"a").is_none());
    m.insert(b"a".to_vec(), Reference { url: b"1".to_vec(), title: Vec::new() });
    m.insert(b"a".to_vec(), Reference { url: b"2".to_vec(), title: Vec::new() });
    m.insert(b"b".to_vec(), Reference { url: b"3".to_vec(), title: Vec::new() });
    assert_eq!(m.lookup(b"a").unwrap().url, b"1".to_vec());
    assert_eq!(m.lookup(b"b").unwrap().url, b"3".to_vec());
}

#[test]
fn destinations_and_titles_are_cleaned() {
    let s = PlainText {};
    assert_eq!(clean_url(&s, b" <a\\*b> "), b"a*b".to_vec());
    assert_eq!(clean_url(&s, b"a"), b"a".to_vec());
    assert_eq!(clean_url(&s, b""), b"".to_vec());
    assert_eq!(clean_title(&s, b"'x'"), b"x".to_vec());
    assert_eq!(clean_title(&s, b"(x\\))"), b"x)".to_vec());
    assert_eq!(clean_title(&s, b"\"x'"), b"\"x'".to_vec());
    assert_eq!(clean_info(&s, b"  a \\_ "), b"a _".to_vec());
}

#[test]
fn labels_are_folded() {
    let s = PlainText {};
    assert_eq!(
        s.normalize_reference_label(b"  Foo \n\t BAR "),
        b"foo bar".to_vec()
    );
}

#[test]
fn rows_are_cut_into_cells() {
    assert_eq!(
        cells("| a | b\\|c |\n"),
        Some(vec!["a".to_string(), "b|c".to_string()])
    );
    assert_eq!(cells("a\n"), Some(vec!["a".to_string()]));
    assert_eq!(cells("\n"), None);
}

#[test]
fn headers_and_delimiters_make_tables() {
    let (aligns, names) = try_opening_header(b"a | b | c | d\n", b"-|:-|-:|:-:\n").unwrap();
    assert_eq!(
        aligns,
        vec![
            TableAlignment::Unset,
            TableAlignment::Left,
            TableAlignment::Right,
            TableAlignment::Center,
        ]
    );
    assert_eq!(names[3], b"d".to_vec());
    assert!(try_opening_header(b"a | b\n", b"-\n").is_none());
    assert!(try_opening_header(b"a\n", b"a\n").is_none());
}

#[test]
fn runs_of_texts_are_joined() {
    let f = vec![
        word("a"),
        word("b"),
        holder(InlineValue::Emph, vec![word("c"), word("d")]),
        word("e"),
        holder(link(), vec![word("f"), word("g")]),
    ];
    let r = consolidate_text_nodes(&PlainText {}, false, &f);
    assert_eq!(texts(&r), vec!["ab", "-", "e", "-"]);
    assert_eq!(texts(&r[1].children), vec!["cd"]);
    assert_eq!(texts(&r[3].children), vec!["f", "g"]);
    assert_eq!(plain(&r), plain(&f));
}

#[test]
fn joining_twice_is_joining_once() {
    let f = vec![word("a"), word("b"), word("c"), holder(InlineValue::Strong, vec![word("d")])];
    let r = consolidate_text_nodes(&PlainText {}, true, &f);
    let q = consolidate_text_nodes(&PlainText {}, true, &r);
    assert_eq!(texts(&r), vec!["abc", "-"]);
    assert_eq!(texts(&q), texts(&r));
    assert_eq!(plain(&q), plain(&f));
}

#[test]
fn blocks_hold_blocks() {
    let heading = NodeValue::Heading(NodeHeading { level: 1, setext: false });
    let html = NodeValue::HtmlBlock(NodeHtmlBlock { block_type: 6, literal: Vec::new() });
    assert!(NodeValue::Document.can_contain_type(&heading));
    assert!(!NodeValue::Document.can_contain_type(&NodeValue::Document));
    assert!(!NodeValue::Document.can_contain_type(&NodeValue::TableCell));
    assert!(!NodeValue::Paragraph.can_contain_type(&heading));
    assert!(NodeValue::Paragraph.can_contain_type(&NodeValue::Emph));
    assert!(!html.can_contain_type(&NodeValue::Emph));
    assert!(heading.accepts_lines() && !html.accepts_lines());
    assert!(heading.contains_inlines() && !NodeValue::BlockQuote.contains_inlines());
}

#[test]
fn nodes_come_and_go() {
    let mut t = Tree::new(make_block(NodeValue::Document, 0, 0));
    let a = t.append(0, make_block(NodeValue::Paragraph, 1, 1));
    let b = t.append(0, make_block(NodeValue::BlockQuote, 2, 1));
    let c = t.append(b, make_inline(NodeValue::Emph));
    assert_eq!(t.len(), 4);
    assert_eq!(t.first_child(0), Some(a));
    assert_eq!(t.last_child(0), Some(b));
    assert_eq!(t.next_sibling(a), Some(b));
    assert_eq!(t.next_sibling(b), None);
    assert_eq!(t.parent(c), Some(b));
    assert!(t.last_child_is_open(0));
    assert!(!t.last_child_is_open(b));
    t.detach(a);
    assert_eq!(t.parent(a), None);
    assert_eq!(t.first_child(0), Some(b));
    let d = t.replace(b, 0, make_block(NodeValue::ThematicBreak, 3, 1));
    assert_eq!(t.last_child(0), Some(d));
    assert_eq!(t.parent(b), None);
}

#[test]
fn inline_values_are_values_of_nodes() {
    assert!(!link().to_node().block() && !InlineValue::Code(b"x".to_vec()).to_node().block());
    assert!(matches!(InlineValue::SoftBreak.to_node(), NodeValue::SoftBreak));
    assert!(matches!(InlineValue::LineBreak.to_node(), NodeValue::LineBreak));
    assert!(matches!(InlineValue::Strikethrough.to_node(), NodeValue::Strikethrough));
    match InlineValue::HtmlInline(b"<b>".to_vec()).to_node() {
        NodeValue::HtmlInline(t) => assert_eq!(t, b"<b>".to_vec()),
        _ => panic!(),
    }
    let image = InlineValue::Image(NodeLink { url: b"/u".to_vec(), title: b"t".to_vec() });
    match image.duplicate().to_node() {
        NodeValue::Image(l) => assert_eq!((l.url, l.title), (b"/u".to_vec(), b"t".to_vec())),
        _ => panic!(),
    }
}

#[test]
fn a_new_node_takes_the_place_of_another() {
    let mut t = Tree::new(make_block(NodeValue::Document, 0, 0));
    let a = t.append(0, make_block(NodeValue::Paragraph, 1, 1));
    let b = t.append(0, make_block(NodeValue::Paragraph, 2, 1));
    let c = t.append(0, make_block(NodeValue::Paragraph, 3, 1));
    let d = t.replace(b, 0, make_block(NodeValue::ThematicBreak, 4, 1));
    assert_eq!(t.parent(b), None);
    assert_eq!(t.parent(d), Some(0));
    assert_eq!(t.next_sibling(a), Some(d));
    assert_eq!(t.next_sibling(d), Some(c));
    assert_eq!(t.next_sibling(c), None);
}
