use comrak::document::AstNode;
use comrak::inlines::{Autolink, Inline, InlineSyntax, PlainText};
use comrak::list_marker::lists_match;
use comrak::nodes::{InlineValue, ListType, NodeLink, NodeValue, TableAlignment};
use comrak::references::RefMap;
use comrak::{parse_document, ComrakOptions, Parser};
use typed_arena::Arena;

fn text(v: &[u8]) -> String {
    String::from_utf8(v.to_vec()).unwrap()
}

fn name(value: &NodeValue) -> String {
    match value {
        NodeValue::Document => "doc".to_string(),
        NodeValue::BlockQuote => "quote".to_string(),
        NodeValue::List(nl) => {
            let kind = match nl.list_type {
                ListType::Bullet => "ul".to_string(),
                ListType::Ordered => format!("ol{}", nl.start),
            };
            format!("{}{}", kind, if nl.tight { "" } else { "*" })
        }
        NodeValue::Item(_) => "li".to_string(),
        NodeValue::CodeBlock(ncb) => {
            format!("code{{{}|{}}}", text(&ncb.info), text(&ncb.literal))
        }
        NodeValue::HtmlBlock(nhb) => format!("html{}{{{}}}", nhb.block_type, text(&nhb.literal)),
        NodeValue::Paragraph => "p".to_string(),
        NodeValue::Heading(nh) => format!("h{}{}", nh.level, if nh.setext { "s" } else { "" }),
        NodeValue::ThematicBreak => "hr".to_string(),
        NodeValue::Table(aligns) => {
            let mut s = "table".to_string();
            for a in aligns {
                s.push(match a {
                    TableAlignment::Unset => '-',
                    TableAlignment::Left => '<',
                    TableAlignment::Center => '^',
                    TableAlignment::Right => '>',
                });
            }
            s
        }
        NodeValue::TableRow(header) => (if *header { "th" } else { "tr" }).to_string(),
        NodeValue::TableCell => "td".to_string(),
        NodeValue::Text(t) => format!("'{}'", text(t)),
        NodeValue::Link(link) => format!("a{{{}|{}}}", text(&link.url), text(&link.title)),
        NodeValue::Emph => "em".to_string(),
        _ => "other".to_string(),
    }
}

fn dump(node: &AstNode) -> String {
    let mut s = name(&node.data.value);
    if node.children.len() > 0 {
        let parts: Vec<String> = node.children.iter().map(|c| dump(c)).collect();
        s.push('(');
        s.push_str(&parts.join(" "));
        s.push(')');
    }
    s
}

fn parse(input: &str) -> String {
    let arena = Arena::new();
    dump(parse_document(
        &arena,
        input,
        &ComrakOptions::default(),
        &PlainText {},
    ))
}

fn parse_tables(input: &str) -> String {
    let arena = Arena::new();
    let mut options = ComrakOptions::default();
    options.ext_table = true;
    dump(parse_document(&arena, input, &options, &PlainText {}))
}

fn parse_pieces(pieces: &[&str]) -> String {
    let arena = Arena::new();
    let options = ComrakOptions::default();
    let syntax = PlainText {};
    let mut parser = Parser::new(&arena, &options, &syntax);
    for piece in pieces {
        parser.feed(piece, false);
    }
    dump(parser.finish())
}

fn is_closed(node: &AstNode) -> bool {
    let part = matches!(
        node.data.value,
        NodeValue::TableRow(_) | NodeValue::TableCell
    );
    (part || !node.data.open) && node.children.iter().all(|c| is_closed(c))
}

/// Words in place of a grammar: `&amp;` is the only character reference, labels are compared in
/// lower case, every word is a text of its own, `[label]` is a link, and `www.` starts a bare
/// link.
struct Words {}

impl InlineSyntax for Words {
    fn unescape_html(&self, t: &[u8]) -> Vec<u8> {
        text(t).replace("&amp;", "&").into_bytes()
    }

    fn normalize_reference_label(&self, label: &[u8]) -> Vec<u8> {
        text(label).trim().to_lowercase().into_bytes()
    }

    fn parse_inlines(&self, t: &[u8], refmap: &RefMap, _options: &ComrakOptions) -> Vec<Inline> {
        let mut nodes: Vec<Inline> = Vec::new();
        for word in text(t).split_inclusive(' ') {
            let inner = word.trim();
            if inner.starts_with('[') && inner.ends_with(']') {
                let label = self.normalize_reference_label(&inner.as_bytes()[1..inner.len() - 1]);
                if let Some(reference) = refmap.lookup(&label) {
                    nodes.push(Inline {
                        value: InlineValue::Link(NodeLink {
                            url: reference.url.clone(),
                            title: reference.title.clone(),
                        }),
                        children: Vec::new(),
                    });
                    continue;
                }
            }
            nodes.push(Inline {
                value: InlineValue::Text(word.as_bytes().to_vec()),
                children: Vec::new(),
            });
        }
        nodes
    }

    fn process_autolinks(&self, t: &[u8]) -> Option<Autolink> {
        let s = text(t);
        let start = s.find("www.")?;
        let end = match s[start..].find(' ') {
            Some(k) => start + k,
            None => s.len(),
        };
        Some(Autolink {
            start: start,
            end: end,
            link: Inline {
                value: InlineValue::Link(NodeLink {
                    url: format!("http://{}", &s[start..end]).into_bytes(),
                    title: Vec::new(),
                }),
                children: vec![Inline {
                    value: InlineValue::Text(s.as_bytes()[start..end].to_vec()),
                    children: Vec::new(),
                }],
            },
        })
    }
}

fn parse_words(input: &str, ext_autolink: bool) -> String {
    let arena = Arena::new();
    let mut options = ComrakOptions::default();
    options.ext_autolink = ext_autolink;
    dump(parse_document(&arena, input, &options, &Words {}))
}

#[test]
fn nothing_is_an_empty_document() {
    assert_eq!(parse(""), "doc");
    assert_eq!(parse("\n\n  \n"), "doc");
}

#[test]
fn lines_make_a_paragraph() {
    assert_eq!(parse("Hello.\nWorld.\n"), "doc(p('Hello.\nWorld.'))");
    assert_eq!(parse("a\n\nb"), "doc(p('a') p('b'))");
    assert_eq!(parse("  a\n      b\n"), "doc(p('a\nb'))");
}

#[test]
fn headings_have_levels_and_may_be_closed() {
    assert_eq!(parse("# hi ##\n"), "doc(h1('hi'))");
    assert_eq!(parse("###### x"), "doc(h6('x'))");
    assert_eq!(parse("####### x"), "doc(p('####### x'))");
    assert_eq!(parse("# #\n"), "doc(h1)");
    assert_eq!(parse("#\n"), "doc(h1)");
    assert_eq!(parse("# a#\n"), "doc(h1('a#'))");
    assert_eq!(parse("#a\n"), "doc(p('#a'))");
    assert_eq!(parse("a\n# b\n"), "doc(p('a') h1('b'))");
}

#[test]
fn underlines_make_headings() {
    assert_eq!(parse("a\n===\nb\n---\n"), "doc(h1s('a') h2s('b'))");
    assert_eq!(parse("a\nb\n==\n"), "doc(h1s('a\nb'))");
    assert_eq!(parse("===\n"), "doc(p('==='))");
}

#[test]
fn quotes_take_lazy_lines() {
    assert_eq!(
        parse("> a\nb\n> > c\n"),
        "doc(quote(p('a\nb') quote(p('c'))))"
    );
    assert_eq!(parse("> a\n\nb\n"), "doc(quote(p('a')) p('b'))");
    assert_eq!(parse(">\tcode\n"), "doc(quote(p('code')))");
    assert_eq!(parse(">\t\tcode\n"), "doc(quote(code{|  code\n}))");
}

#[test]
fn lists_are_tight_or_loose() {
    assert_eq!(parse("- a\n- b\n"), "doc(ul(li(p('a')) li(p('b'))))");
    assert_eq!(
        parse("- a\n- b\n\n- c\n"),
        "doc(ul*(li(p('a')) li(p('b')) li(p('c'))))"
    );
    assert_eq!(parse("- a\n\n\n  b\n"), "doc(ul*(li(p('a') p('b'))))");
    assert_eq!(parse("- a\n\nb\n"), "doc(ul(li(p('a'))) p('b'))");
}

#[test]
fn lists_of_other_kinds_are_other_lists() {
    assert_eq!(parse("+ x\n- y\n"), "doc(ul(li(p('x'))) ul(li(p('y'))))");
    assert_eq!(
        parse("10) a\n9) b\n11. c\n"),
        "doc(ol10(li(p('a')) li(p('b'))) ol11(li(p('c'))))"
    );
}

#[test]
fn only_lists_from_one_interrupt_a_paragraph() {
    assert_eq!(
        parse("a\n1. b\n2. c\n"),
        "doc(p('a') ol1(li(p('b')) li(p('c'))))"
    );
    assert_eq!(parse("a\n2. b\n"), "doc(p('a\n2. b'))");
    assert_eq!(parse("a\n*\nb\n"), "doc(p('a\n*\nb'))");
    assert_eq!(parse("1234567890. a\n"), "doc(p('1234567890. a'))");
}

#[test]
fn items_hold_what_is_indented_as_far() {
    assert_eq!(
        parse("1. a\n   b\n2. c\n"),
        "doc(ol1(li(p('a\nb')) li(p('c'))))"
    );
    assert_eq!(parse("- a\n  - b\n"), "doc(ul(li(p('a') ul(li(p('b'))))))");
    assert_eq!(parse("-     x\n"), "doc(ul(li(code{|x\n})))");
    assert_eq!(
        parse("* a\n\n  b\n*\n\n  c\n"),
        "doc(ul*(li(p('a') p('b')) li) p('c'))"
    );
}

#[test]
fn fences_keep_what_is_between_them() {
    assert_eq!(
        parse("``` rust\nfn hello();\n```\n"),
        "doc(code{rust|fn hello();\n})"
    );
    assert_eq!(
        parse("~~~~\n  a\n~~~\n~~~~ \nx"),
        "doc(code{|  a\n~~~\n} p('x'))"
    );
    assert_eq!(parse("  ```\n   a\n ```\n"), "doc(code{| a\n})");
    assert_eq!(parse("```\n"), "doc(code{|})");
    assert_eq!(parse("``` a`b\n"), "doc(p('``` a`b'))");
}

#[test]
fn indented_lines_are_code() {
    assert_eq!(
        parse("    code\n\n    more\n\n"),
        "doc(code{|code\n\nmore\n})"
    );
    assert_eq!(
        parse("\tcode\n -\tx\n"),
        "doc(code{|code\n} ul(li(p('x'))))"
    );
}

#[test]
fn html_blocks_have_kinds() {
    assert_eq!(parse("<div>\nx\n\ny"), "doc(html6{<div>\nx\n} p('y'))");
    assert_eq!(
        parse("<!-- a\n\nb --> c\nd"),
        "doc(html2{<!-- a\n\nb --> c\n} p('d'))"
    );
    assert_eq!(
        parse("<script>\n\n</script>\nx"),
        "doc(html1{<script>\n\n</script>\n} p('x'))"
    );
    assert_eq!(parse("<? a ?>\nx"), "doc(html3{<? a ?>\n} p('x'))");
    assert_eq!(parse("<!X a>\nx"), "doc(html4{<!X a>\n} p('x'))");
    assert_eq!(
        parse("<![CDATA[ a ]]>\nx"),
        "doc(html5{<![CDATA[ a ]]>\n} p('x'))"
    );
    assert_eq!(parse("<a>\nx\n"), "doc(html7{<a>\nx\n})");
    assert_eq!(parse("p\n<a>\n"), "doc(p('p\n<a>'))");
}

#[test]
fn thematic_breaks_stand_alone() {
    assert_eq!(parse("***\n- - -\n"), "doc(hr hr)");
    assert_eq!(parse("a\n***\nb\n"), "doc(p('a') hr p('b'))");
    assert_eq!(parse("--\n"), "doc(p('--'))");
}

#[test]
fn definitions_leave_no_paragraph() {
    assert_eq!(parse("[foo]: /url \"t\"\n"), "doc");
    assert_eq!(
        parse("[foo]: /url \"t\"\n\n[foo]: <x>\nbar\n"),
        "doc(p('bar'))"
    );
}

#[test]
fn the_first_definition_of_a_label_counts() {
    assert_eq!(
        parse_words("[Foo]: /one 'a'\n\n[foo]: /two\n\nsee [FOO] now\n", false),
        "doc(p('see ' a{/one|a} 'now'))"
    );
    assert_eq!(
        parse_words("[foo] ok\n\n> [foo]: <x&amp;y> (t\\*)\n", false),
        "doc(p(a{x&y|t*} 'ok') quote)"
    );
}

#[test]
fn info_strings_are_resolved() {
    assert_eq!(
        parse_words("```  a&amp;b \\*  \nx\n```\n", false),
        "doc(code{a&b *|x\n})"
    );
}

#[test]
fn zero_bytes_are_replaced() {
    assert_eq!(parse("a\0b"), "doc(p('a\u{fffd}b'))");
    assert_eq!(parse("\0"), "doc(p('\u{fffd}'))");
    assert_eq!(parse("a\0\nb"), "doc(p('a\u{fffd}b'))");
}

#[test]
fn a_byte_order_mark_is_skipped_once() {
    assert_eq!(parse("\u{feff}# x\n"), "doc(h1('x'))");
    assert_eq!(parse("a\n\u{feff}# x\n"), "doc(p('a\n\u{feff}# x'))");
}

#[test]
fn line_ends_are_alike() {
    assert_eq!(parse("a\r\nb\rc\nd"), "doc(p('a\nb\nc\nd'))");
    assert_eq!(parse("a\r\r\nb"), "doc(p('a') p('b'))");
    assert_eq!(
        parse("# a\r\n- b\r\n"),
        parse("# a\n- b\n")
    );
}

#[test]
fn line_ends_may_be_replaced() {
    for input in [
        "# a\n\n> b\n> - c\n>   d\n\n```\ne\n```\n",
        "a\n\n\nb",
        "\n",
        "\n\na\n===\n* * *\n",
        "a\0\nb\0\n",
        "",
    ] {
        assert_eq!(parse(&input.replace("\n", "\r\n")), parse(input));
        assert_eq!(parse(&input.replace("\n", "\r")), parse(input));
    }
}

#[test]
fn the_last_line_needs_no_end() {
    for input in ["a", "- b\n- c", "```\nd", "    e\0", "f\r", "\0\r", "> g\n\n ", "<div>"] {
        assert_eq!(parse(&format!("{}\n", input)), parse(input));
    }
}

#[test]
fn zero_bytes_stand_for_one_character_each() {
    for input in ["a\0b\n\0\0c\n", "- \0\0 a\n\n\0", "\0", "# \0 #\n[\0]: b\n"] {
        let replaced = input.replace("\0", "\u{fffd}");
        assert_eq!(parse(input), parse(&replaced));
        assert_eq!(parse_pieces(&[input, "x"]), parse_pieces(&[&replaced, "x"]));
    }
    assert_eq!(parse("\0\0"), "doc(p('\u{fffd}\u{fffd}'))");
}

#[test]
fn pieces_make_the_same_document() {
    let input = "# a\r\n\r\n> b\n> - c\r\n>   d\n\n```\ne\n```\n";
    let whole = parse(input);
    for k in 1..input.len() {
        assert_eq!(parse_pieces(&[&input[..k], &input[k..]]), whole);
    }
    assert_eq!(parse_pieces(&["a\r", "\nb"]), "doc(p('a\nb'))");
    assert_eq!(parse_pieces(&["a", "b", "c"]), "doc(p('abc'))");
}

#[test]
fn a_zero_byte_and_a_line_end_in_two_pieces() {
    assert_eq!(parse("a\0\nb"), "doc(p('a\u{fffd}b'))");
    assert_eq!(parse_pieces(&["a\0", "\nb"]), "doc(p('a\u{fffd}\nb'))");
}

#[test]
fn the_end_may_be_told_late() {
    let arena = Arena::new();
    let options = ComrakOptions::default();
    let syntax = PlainText {};
    let mut early = Parser::new(&arena, &options, &syntax);
    early.feed("a\n- b", true);
    let mut late = Parser::new(&arena, &options, &syntax);
    late.feed("a\n- b", false);
    assert_eq!(dump(early.finish()), dump(late.finish()));
}

#[test]
fn every_block_is_closed_in_the_end() {
    let arena = Arena::new();
    let mut options = ComrakOptions::default();
    options.ext_table = true;
    let root = parse_document(
        &arena,
        "> - a\n\n| b |\n|--|\n| c |\n```\nx",
        &options,
        &PlainText {},
    );
    assert!(is_closed(root));
    assert!(!root.data.open);
}

fn is_nested(node: &AstNode) -> bool {
    node.children.iter().all(|c| {
        (!c.data.value.block() || node.data.value.can_contain_type(&c.data.value)) && is_nested(c)
    })
}

#[test]
fn blocks_are_held_by_blocks_that_may_hold_them() {
    let arena = Arena::new();
    let mut options = ComrakOptions::default();
    options.ext_table = true;
    let root = parse_document(
        &arena,
        "> - a\n>   # b\n\n| c |\n|--|\n| d |\n\n1. <div>\n   e\n***\nf\n===\n",
        &options,
        &PlainText {},
    );
    assert!(is_nested(root));
    assert_eq!(root.children.len(), 5);
}

fn is_in_order(node: &AstNode) -> bool {
    let level = match &node.data.value {
        NodeValue::Heading(nh) => 1 <= nh.level && nh.level <= if nh.setext { 2 } else { 6 },
        _ => true,
    };
    level && node.children.iter().all(|c| {
        let kind = match (&node.data.value, &c.data.value) {
            (NodeValue::List(list), NodeValue::Item(item)) => lists_match(item, list),
            (NodeValue::List(_), _) | (_, NodeValue::Item(_)) => false,
            _ => true,
        };
        kind && is_in_order(c)
    })
}

#[test]
fn lists_hold_items_of_their_kind() {
    let arena = Arena::new();
    let input = "- a\n- b\n+ c\n  1. d\n  2. e\n  3) f\n\n###### g\n####### h\n---\ni\n===\n";
    let root = parse_document(&arena, input, &ComrakOptions::default(), &PlainText {});
    assert!(is_in_order(root));
    assert_eq!(
        dump(root),
        "doc(ul(li(p('a')) li(p('b'))) \
         ul(li(p('c') ol1(li(p('d')) li(p('e'))) ol3(li(p('f'))))) \
         h6('g') h2s('####### h') h1s('i'))"
    );
}

#[test]
fn positions_are_kept() {
    let arena = Arena::new();
    let root = parse_document(
        &arena,
        "# a\n\n  b\n",
        &ComrakOptions::default(),
        &PlainText {},
    );
    assert_eq!(root.data.start_line, 0);
    assert_eq!(root.data.end_line, 3);
    assert_eq!(root.data.end_column, 3);
    let heading = root.children[0];
    assert_eq!(heading.data.start_line, 1);
    assert_eq!(heading.data.start_column, 1);
    assert_eq!(heading.data.end_line, 2);
    assert_eq!(heading.data.end_column, 3);
    let paragraph = root.children[1];
    assert_eq!(paragraph.data.start_line, 3);
    assert_eq!(paragraph.data.start_column, 3);
    assert_eq!(paragraph.data.content, b"b\n".to_vec());
}

#[test]
fn tables_need_the_extension() {
    let input = "| a | b |\n|---|---|\n| c | d |\n";
    assert_eq!(
        parse_tables(input),
        "doc(table--(th(td('a') td('b')) tr(td('c') td('d'))))"
    );
    assert_eq!(
        parse(input),
        "doc(p('| a | b |\n|---|---|\n| c | d |'))"
    );
}

#[test]
fn rows_have_as_many_cells_as_the_header() {
    assert_eq!(
        parse_tables("a|b\n:-|-:\nc\nd|e|f\n\ny"),
        "doc(table<>(th(td('a') td('b')) tr(td('c') td) tr(td('d') td('e'))) p('y'))"
    );
    assert_eq!(
        parse_tables("a\n:-:\nb\n"),
        "doc(table^(th(td('a')) tr(td('b'))))"
    );
}

#[test]
fn a_header_and_its_delimiters_agree() {
    assert_eq!(
        parse_tables("a|b\n-|-|-\n"),
        "doc(p('a|b\n-|-|-'))"
    );
    assert_eq!(
        parse_tables("x\na|b\n-|-\n"),
        "doc(p('x\na|b\n-|-'))"
    );
}

#[test]
fn texts_in_a_row_become_one() {
    assert_eq!(parse_words("a b c\n", false), "doc(p('a b c'))");
}

#[test]
fn bare_links_need_the_extension() {
    let input = "Hello www.github.com there\n";
    assert_eq!(
        parse_words(input, false),
        "doc(p('Hello www.github.com there'))"
    );
    assert_eq!(
        parse_words(input, true),
        "doc(p('Hello ' a{http://www.github.com|}('www.github.com') ' there'))"
    );
    assert_eq!(
        parse_words("www.a www.b\n", true),
        "doc(p('' a{http://www.a|}('www.a') ' ' a{http://www.b|}('www.b')))"
    );
}

#[test]
fn tabs_reach_to_their_stops() {
    assert_eq!(parse("\tfoo\tbaz\t\tbim\n"), "doc(code{|foo\tbaz\t\tbim\n})");
    assert_eq!(parse("  \tfoo\n"), "doc(code{|foo\n})");
    assert_eq!(parse("  - foo\n\n\tbar\n"), "doc(ul*(li(p('foo') p('bar'))))");
    assert_eq!(
        parse("- foo\n\n\t\tbar\n"),
        "doc(ul*(li(p('foo') code{|  bar\n})))"
    );
    assert_eq!(parse(">\t\tfoo\n"), "doc(quote(code{|  foo\n}))");
    assert_eq!(parse("-\t\tfoo\n"), "doc(ul(li(code{|  foo\n})))");
    assert_eq!(parse("    foo\n\tbar\n"), "doc(code{|foo\nbar\n})");
    assert_eq!(
        parse(" - foo\n   - bar\n\t - baz\n"),
        "doc(ul(li(p('foo') ul(li(p('bar') ul(li(p('baz'))))))))"
    );
    assert_eq!(parse("#\tFoo\n"), "doc(h1('Foo'))");
    assert_eq!(parse("*\t*\t*\t\n"), "doc(hr)");
}

#[test]
fn blocks_interrupt_blocks() {
    assert_eq!(parse("- Foo\n- * * *\n"), "doc(ul(li(p('Foo')) li(hr)))");
    assert_eq!(parse("- foo\n***\n- bar\n"), "doc(ul(li(p('foo'))) hr ul(li(p('bar'))))");
    assert_eq!(parse("> Foo\n---\n"), "doc(quote(p('Foo')) hr)");
    assert_eq!(parse("- Foo\n---\n"), "doc(ul(li(p('Foo'))) hr)");
    assert_eq!(parse("Foo\n    ***\n"), "doc(p('Foo\n***'))");
    assert_eq!(parse("foo\n```\nbar\n```\nbaz\n"), "doc(p('foo') code{|bar\n} p('baz'))");
    assert_eq!(parse("> ```\n> aaa\n\nbbb\n"), "doc(quote(code{|aaa\n}) p('bbb'))");
    assert_eq!(parse("> ```\naaa\n"), "doc(quote(code{|}) p('aaa'))");
    assert_eq!(parse("> - foo\n- bar\n"), "doc(quote(ul(li(p('foo')))) ul(li(p('bar'))))");
    assert_eq!(parse(">     foo\n    bar\n"), "doc(quote(code{|foo\n}) code{|bar\n})");
}

#[test]
fn lazy_lines_stay_in_their_paragraph() {
    assert_eq!(parse("> bar\nbaz\n> foo\n"), "doc(quote(p('bar\nbaz\nfoo')))");
    assert_eq!(parse("> > > foo\nbar\n"), "doc(quote(quote(quote(p('foo\nbar')))))");
    assert_eq!(
        parse("> 1. > Blockquote\ncontinued here.\n"),
        "doc(quote(ol1(li(quote(p('Blockquote\ncontinued here.'))))))"
    );
    assert_eq!(parse("> # Foo\nbar\n"), "doc(quote(h1('Foo')) p('bar'))");
}

#[test]
fn lists_nest() {
    assert_eq!(
        parse("1.  A paragraph\n    with two lines.\n\n        indented code\n\n    > A quote.\n"),
        "doc(ol1*(li(p('A paragraph\nwith two lines.') code{|indented code\n} \
         quote(p('A quote.')))))"
    );
    assert_eq!(parse("- one\n\n two\n"), "doc(ul(li(p('one'))) p('two'))");
    assert_eq!(parse("- one\n\n  two\n"), "doc(ul*(li(p('one') p('two'))))");
    assert_eq!(parse("-one\n\n2.two\n"), "doc(p('-one') p('2.two'))");
    assert_eq!(
        parse("-\n  foo\n-\n  ```\n  bar\n  ```\n"),
        "doc(ul(li(p('foo')) li(code{|bar\n})))"
    );
    assert_eq!(parse("- - foo\n"), "doc(ul(li(ul(li(p('foo'))))))");
    assert_eq!(parse("1. - 2. foo\n"), "doc(ol1(li(ul(li(ol2(li(p('foo'))))))))");
    assert_eq!(
        parse("- # Foo\n- Bar\n  ---\n  baz\n"),
        "doc(ul(li(h1('Foo')) li(h2s('Bar') p('baz'))))"
    );
    assert_eq!(
        parse("* a\n  > b\n  >\n* c\n"),
        "doc(ul(li(p('a') quote(p('b'))) li(p('c'))))"
    );
    assert_eq!(
        parse("- a\n  - b\n\n    c\n- d\n"),
        "doc(ul(li(p('a') ul*(li(p('b') p('c')))) li(p('d'))))"
    );
    assert_eq!(
        parse("- a\n- ```\n  b\n\n\n  ```\n- c\n"),
        "doc(ul(li(p('a')) li(code{|b\n\n\n}) li(p('c'))))"
    );
}

#[test]
fn definitions_are_read_from_paragraphs() {
    assert_eq!(
        parse_words("[foo]: /url '\ntitle\nline1\n'\n\n[foo]\n", false),
        "doc(p(a{/url|\ntitle\nline1\n}))"
    );
    assert_eq!(parse_words("[foo]:\n/url\n\n[foo]\n", false), "doc(p(a{/url|}))");
    assert_eq!(
        parse_words("[foo]: /url \"title\" ok\n", false),
        "doc(p('[foo]: /url \"title\" ok'))"
    );
    assert_eq!(
        parse_words("Foo\n[bar]: /baz\n\n[bar]\n", false),
        "doc(p('Foo\n[bar]: /baz') p('[bar]'))"
    );
    assert_eq!(
        parse_words("# [Foo]\n[foo]: /url\n> bar\n", false),
        "doc(h1(a{/url|}) quote(p('bar')))"
    );
    assert_eq!(
        parse_words("[foo]: /foo-url \"foo\"\n[bar]: /bar-url\n  \"bar\"\n\n[foo] [bar]\n", false),
        "doc(p(a{/foo-url|foo} a{/bar-url|bar}))"
    );
}

fn is_text(node: &AstNode) -> bool {
    let ok = |v: &[u8]| std::str::from_utf8(v).is_ok();
    let value = match &node.data.value {
        NodeValue::CodeBlock(ncb) => ok(&ncb.info) && ok(&ncb.literal),
        NodeValue::HtmlBlock(nhb) => ok(&nhb.literal),
        NodeValue::Text(t) | NodeValue::Code(t) | NodeValue::HtmlInline(t) => ok(t),
        NodeValue::Link(l) | NodeValue::Image(l) => ok(&l.url) && ok(&l.title),
        _ => true,
    };
    value && ok(&node.data.content) && node.children.iter().all(|c| is_text(c))
}

#[test]
fn texts_are_utf8() {
    let input = "\u{feff}# \u{e9}\u{e9} ##\n\u{4e16}\\\u{754c}\n===\n\n> - \u{1f980}\n>\t\u{df}\n\n\
                 ``` \u{e9}&amp;\n\u{fc}\0\n```\n\n<p>\u{f1}\n\n    \u{fc}\n\t \u{f1}  \n\n\
                 | \u{e9} | b\\|\u{fc} |\n|--|--|\n|\u{1f980}|\n\n\
                 [\u{c9}]: <\\\u{e9}> '\u{fc}\\''\n[b]: \\\u{e9}(\u{fc}) (\u{f1})\n\
                 x [\u{c9}] \u{df}\n\
                 www.\u{e9}.de \u{fc} www.b.de";
    let arena = Arena::new();
    let mut options = ComrakOptions::default();
    options.ext_table = true;
    options.ext_autolink = true;
    assert!(is_text(parse_document(&arena, input, &options, &PlainText {})));
    assert!(is_text(parse_document(&arena, input, &options, &Words {})));
    assert_eq!(parse("\u{feff}\u{e9} #"), "doc(p('\u{e9} #'))");
    assert_eq!(parse_pieces(&["\u{e9}", "\u{4e16}\0"]), "doc(p('\u{e9}\u{4e16}\u{fffd}'))");
    assert_eq!(
        parse_words("[\u{e9}]: /\u{fc} \"\u{df}\"\n\n[\u{e9}]", false),
        "doc(p(a{/\u{fc}|\u{df}}))"
    );
}

#[test]
fn a_text_may_hold_many_bare_links() {
    let mut input = String::new();
    for _ in 0..2000 {
        input.push_str("www.a.de ");
    }
    let arena = Arena::new();
    let mut options = ComrakOptions::default();
    options.ext_autolink = true;
    let root = parse_document(&arena, &input, &options, &Words {});
    assert_eq!(root.children.len(), 1);
    assert_eq!(root.children[0].children.len(), 4000);
}

fn has_tables(node: &AstNode) -> bool {
    matches!(
        node.data.value,
        NodeValue::Table(_) | NodeValue::TableRow(_) | NodeValue::TableCell
    ) || node.children.iter().any(|c| has_tables(c))
}

#[test]
fn without_the_extension_nothing_is_part_of_a_table() {
    let arena = Arena::new();
    let mut options = ComrakOptions::default();
    let input = "> | a |\n> |--|\n> | b |\n\n- c | d\n  --|--\n";
    assert!(!has_tables(parse_document(&arena, input, &options, &PlainText {})));
    options.ext_table = true;
    assert!(has_tables(parse_document(&arena, input, &options, &PlainText {})));
}
