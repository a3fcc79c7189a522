//! The patterns that open and close blocks of raw HTML.
use crate::ctype::{is_alpha, is_digit, is_space, isalpha, isdigit, isspace, lower, to_lower};
use crate::strings::{after_spaces, skip_spaces};
use vstd::prelude::*;
use vstd::string::StringSliceAdditionalSpecFns;

verus! {

/// Elements whose contents are not read as Markdown.
pub const RAW_TAGS: [&'static str; 3] = ["script", "pre", "style"];

/// The tags that close them.
pub const RAW_END_TAGS: [&'static str; 3] = ["</script>", "</pre>", "</style>"];

/// Elements that form a block.
pub const BLOCK_TAGS: [&'static str; 63] = [
    "address",
    "article",
    "aside",
    "base",
    "basefont",
    "blockquote",
    "body",
    "caption",
    "center",
    "col",
    "colgroup",
    "dd",
    "details",
    "dialog",
    "dir",
    "div",
    "dl",
    "dt",
    "fieldset",
    "figcaption",
    "figure",
    "footer",
    "form",
    "frame",
    "frameset",
    "h1",
    "h2",
    "h3",
    "h4",
    "h5",
    "h6",
    "head",
    "header",
    "hr",
    "html",
    "iframe",
    "legend",
    "li",
    "link",
    "main",
    "menu",
    "menuitem",
    "meta",
    "nav",
    "noframes",
    "ol",
    "optgroup",
    "option",
    "p",
    "param",
    "section",
    "source",
    "summary",
    "table",
    "tbody",
    "td",
    "tfoot",
    "th",
    "thead",
    "title",
    "tr",
    "track",
    "ul",
];

/// `lit` stands at `i`, letters of either case being the same.
pub open spec fn text_at(s: Seq<u8>, i: int, lit: Seq<u8>) -> bool {
    &&& 0 <= i
    &&& i + lit.len() <= s.len()
    &&& forall|k: int| 0 <= k < lit.len() ==> lower(s[i + k]) == #[trigger] lit[k]
}

/// `lit` stands at `i`, byte for byte.
pub open spec fn bytes_at(s: Seq<u8>, i: int, lit: Seq<u8>) -> bool {
    &&& 0 <= i
    &&& i + lit.len() <= s.len()
    &&& forall|k: int| 0 <= k < lit.len() ==> s[i + k] == #[trigger] lit[k]
}

/// One of the first `n` of `names` is the text from `i` up to `j`.
pub open spec fn name_among(s: Seq<u8>, i: int, j: int, names: Seq<&'static str>, n: int) -> bool {
    exists|k: int|
        0 <= k < n && j - i == (#[trigger] names[k]).spec_bytes().len() && text_at(
            s,
            i,
            names[k].spec_bytes(),
        )
}

/// The first index from `i` on that holds neither a letter, a digit nor a hyphen.
pub open spec fn skip_name(s: Seq<u8>, i: int) -> int
    decreases s.len() - i,
{
    if 0 <= i < s.len() && (is_alpha(s[i]) || is_digit(s[i]) || s[i] == 45) {
        skip_name(s, i + 1)
    } else {
        i
    }
}

/// The byte ends the name of a tag: white space, `>`, or `/>`.
pub open spec fn tag_name_ends(s: Seq<u8>, e: int) -> bool {
    e < s.len() && (is_space(s[e]) || s[e] == 62 || (s[e] == 47 && e + 1 < s.len() && s[e + 1]
        == 62))
}

/// A line that opens a block of raw HTML of one of the kinds 1 to 6: a raw element, a comment,
/// a processing instruction, a declaration, character data, or an element that forms a block.
pub open spec fn html_start(s: Seq<u8>, i: int) -> Option<u8> {
    let e = skip_name(s, i + 1);
    let p = if i + 1 < s.len() && s[i + 1] == 47 {
        i + 2
    } else {
        i + 1
    };
    let f = skip_name(s, p);
    if !(i + 1 < s.len() && s[i] == 60) {
        None
    } else if name_among(s, i + 1, e, RAW_TAGS@, 3) && e < s.len() && (is_space(s[e]) || s[e]
        == 62) {
        Some(1)
    } else if bytes_at(s, i, "<!--".spec_bytes()) {
        Some(2)
    } else if s[i + 1] == 63 {
        Some(3)
    } else if s[i + 1] == 33 && i + 2 < s.len() && 65 <= s[i + 2] <= 90 {
        Some(4)
    } else if bytes_at(s, i, "<![CDATA[".spec_bytes()) {
        Some(5)
    } else if name_among(s, p, f, BLOCK_TAGS@, 63) && tag_name_ends(s, f) {
        Some(6)
    } else {
        None
    }
}

/// The first index from `i` on that cannot continue the name of an attribute.
pub open spec fn skip_attribute_name(s: Seq<u8>, i: int) -> int
    decreases s.len() - i,
{
    if 0 <= i < s.len() && (is_alpha(s[i]) || is_digit(s[i]) || s[i] == 58 || s[i] == 46 || s[i]
        == 95 || s[i] == 45) {
        skip_attribute_name(s, i + 1)
    } else {
        i
    }
}

/// The first index from `i` on that cannot continue a value without quotes.
pub open spec fn skip_unquoted(s: Seq<u8>, i: int) -> int
    decreases s.len() - i,
{
    if 0 <= i < s.len() && !is_space(s[i]) && s[i] != 34 && s[i] != 39 && s[i] != 61 && s[i] != 60
        && s[i] != 62 && s[i] != 96 {
        skip_unquoted(s, i + 1)
    } else {
        i
    }
}

/// The first index from `i` on that holds `c`, or the length.
pub open spec fn find_byte(s: Seq<u8>, i: int, c: u8) -> int
    decreases s.len() - i,
{
    if 0 <= i < s.len() && s[i] != c {
        find_byte(s, i + 1, c)
    } else {
        i
    }
}

/// The end of the attribute value at `i`.
pub open spec fn attribute_value_end(s: Seq<u8>, i: int) -> Option<int> {
    if 0 <= i < s.len() && (s[i] == 34 || s[i] == 39) {
        let e = find_byte(s, i + 1, s[i]);
        if e < s.len() {
            Some(e + 1)
        } else {
            None
        }
    } else if skip_unquoted(s, i) > i {
        Some(skip_unquoted(s, i))
    } else {
        None
    }
}

/// The end of the attribute that starts with the white space at `i`: a name, and an optional
/// value behind `=`.
pub open spec fn attribute_end(s: Seq<u8>, i: int) -> Option<int> {
    let j = skip_spaces(s, i);
    if i < j < s.len() && (is_alpha(s[j]) || s[j] == 95 || s[j] == 58) {
        let e = skip_attribute_name(s, j + 1);
        let q = skip_spaces(s, e);
        if q < s.len() && s[q] == 61 {
            match attribute_value_end(s, skip_spaces(s, q + 1)) {
                Some(v) => Some(v),
                None => Some(e),
            }
        } else {
            Some(e)
        }
    } else {
        None
    }
}

/// The end of the attributes from `i` on.
pub open spec fn attributes_end(s: Seq<u8>, i: int) -> int
    decreases s.len() - i,
{
    match attribute_end(s, i) {
        Some(e) => if i < e <= s.len() {
            attributes_end(s, e)
        } else {
            i
        },
        None => i,
    }
}

/// The end of the tag at `i`, which is the index behind its `<`.
pub open spec fn tag_end(s: Seq<u8>, i: int) -> Option<int> {
    if 0 <= i < s.len() && s[i] == 47 {
        let e = skip_spaces(s, skip_name(s, i + 1));
        if i + 1 < s.len() && is_alpha(s[i + 1]) && e < s.len() && s[e] == 62 {
            Some(e + 1)
        } else {
            None
        }
    } else if 0 <= i < s.len() && is_alpha(s[i]) {
        let a = skip_spaces(s, attributes_end(s, skip_name(s, i)));
        let b = if a < s.len() && s[a] == 47 {
            a + 1
        } else {
            a
        };
        if b < s.len() && s[b] == 62 {
            Some(b + 1)
        } else {
            None
        }
    } else {
        None
    }
}

/// A line that opens a block of raw HTML of kind 7: a complete tag and nothing else.
pub open spec fn html_start_7(s: Seq<u8>, i: int) -> bool {
    0 <= i < s.len() && s[i] == 60 && match tag_end(s, i + 1) {
        Some(e) => e < s.len() && skip_spaces(s, e) == s.len(),
        None => false,
    }
}

/// The kinds that a line of its own tells apart are those from one to six.
pub proof fn lemma_html_start(s: Seq<u8>, i: int)
    ensures
        html_start(s, i) matches Some(t) ==> 1 <= t <= 6,
{
}

/// `lit` occurs at `i` or behind it.
pub open spec fn text_from(s: Seq<u8>, i: int, lit: Seq<u8>) -> bool {
    exists|k: int| i <= k && #[trigger] text_at(s, k, lit)
}

/// From `i` on, the line holds what ends a block of raw HTML of the kind `block_type`.
pub open spec fn html_end(s: Seq<u8>, i: int, block_type: u8) -> bool {
    match block_type {
        1 => text_from(s, i, RAW_END_TAGS@[0].spec_bytes()) || text_from(
            s,
            i,
            RAW_END_TAGS@[1].spec_bytes(),
        ) || text_from(s, i, RAW_END_TAGS@[2].spec_bytes()),
        2 => text_from(s, i, "-->".spec_bytes()),
        3 => text_from(s, i, "?>".spec_bytes()),
        4 => text_from(s, i, ">".spec_bytes()),
        5 => text_from(s, i, "]]>".spec_bytes()),
        _ => false,
    }
}

fn is_text_at(s: &[u8], i: usize, lit: &str) -> (r: bool)
    requires
        i <= s@.len(),
    ensures
        r == text_at(s@, i as int, lit.spec_bytes()),
{
    let b: &[u8] = lit.as_bytes();
    let len: usize = s.len();
    if b.len() > len - i {
        return false;
    }
    let mut k: usize = 0;
    while k < b.len()
        invariant
            k <= b@.len(),
            i + b@.len() <= len == s@.len(),
            b@ == lit.spec_bytes(),
            forall|j: int| 0 <= j < k ==> lower(s@[i + j]) == #[trigger] b@[j],
        decreases b@.len() - k,
    {
        if to_lower(s[i + k]) != b[k] {
            assert(lower(s@[i + k]) != lit.spec_bytes()[k as int]);
            return false;
        }
        k += 1;
    }
    true
}

fn is_bytes_at(s: &[u8], i: usize, lit: &str) -> (r: bool)
    requires
        i <= s@.len(),
    ensures
        r == bytes_at(s@, i as int, lit.spec_bytes()),
{
    let b: &[u8] = lit.as_bytes();
    let len: usize = s.len();
    if b.len() > len - i {
        return false;
    }
    let mut k: usize = 0;
    while k < b.len()
        invariant
            k <= b@.len(),
            i + b@.len() <= len == s@.len(),
            b@ == lit.spec_bytes(),
            forall|j: int| 0 <= j < k ==> s@[i + j] == #[trigger] b@[j],
        decreases b@.len() - k,
    {
        if s[i + k] != b[k] {
            assert(s@[i + k] != lit.spec_bytes()[k as int]);
            return false;
        }
        k += 1;
    }
    true
}

fn is_text_from(s: &[u8], i: usize, lit: &str) -> (r: bool)
    requires
        i <= s@.len(),
    ensures
        r == text_from(s@, i as int, lit.spec_bytes()),
{
    let mut k: usize = i;
    while k < s.len()
        invariant
            i <= k <= s@.len(),
            forall|j: int| i <= j < k ==> !#[trigger] text_at(s@, j, lit.spec_bytes()),
        decreases s@.len() - k,
    {
        if is_text_at(s, k, lit) {
            return true;
        }
        k += 1;
    }
    is_text_at(s, k, lit)
}

fn is_raw_tag(s: &[u8], i: usize, j: usize) -> (r: bool)
    requires
        i <= j <= s@.len(),
    ensures
        r == name_among(s@, i as int, j as int, RAW_TAGS@, 3),
{
    let mut k: usize = 0;
    while k < 3
        invariant
            k <= 3,
            i <= j <= s@.len(),
            !name_among(s@, i as int, j as int, RAW_TAGS@, k as int),
        decreases 3 - k,
    {
        let name: &'static str = RAW_TAGS[k];
        if name.as_bytes().len() == j - i && is_text_at(s, i, name) {
            assert(RAW_TAGS@[k as int].spec_bytes().len() == j - i);
            return true;
        }
        k += 1;
    }
    false
}

fn is_block_tag(s: &[u8], i: usize, j: usize) -> (r: bool)
    requires
        i <= j <= s@.len(),
    ensures
        r == name_among(s@, i as int, j as int, BLOCK_TAGS@, 63),
{
    let mut k: usize = 0;
    while k < 63
        invariant
            k <= 63,
            i <= j <= s@.len(),
            !name_among(s@, i as int, j as int, BLOCK_TAGS@, k as int),
        decreases 63 - k,
    {
        let name: &'static str = BLOCK_TAGS[k];
        if name.as_bytes().len() == j - i && is_text_at(s, i, name) {
            assert(BLOCK_TAGS@[k as int].spec_bytes().len() == j - i);
            return true;
        }
        k += 1;
    }
    false
}

fn after_name(s: &[u8], start: usize) -> (r: usize)
    requires
        start <= s@.len(),
    ensures
        r == skip_name(s@, start as int),
        start <= r <= s@.len(),
{
    let mut i: usize = start;
    while i < s.len() && (isalpha(s[i]) || isdigit(s[i]) || s[i] == 45)
        invariant
            start <= i <= s@.len(),
            skip_name(s@, start as int) == skip_name(s@, i as int),
        decreases s@.len() - i,
    {
        i += 1;
    }
    i
}

fn after_attribute_name(s: &[u8], start: usize) -> (r: usize)
    requires
        start <= s@.len(),
    ensures
        r == skip_attribute_name(s@, start as int),
        start <= r <= s@.len(),
{
    let mut i: usize = start;
    while i < s.len() && (isalpha(s[i]) || isdigit(s[i]) || s[i] == 58 || s[i] == 46 || s[i] == 95
        || s[i] == 45)
        invariant
            start <= i <= s@.len(),
            skip_attribute_name(s@, start as int) == skip_attribute_name(s@, i as int),
        decreases s@.len() - i,
    {
        i += 1;
    }
    i
}

fn after_unquoted(s: &[u8], start: usize) -> (r: usize)
    requires
        start <= s@.len(),
    ensures
        r == skip_unquoted(s@, start as int),
        start <= r <= s@.len(),
{
    let mut i: usize = start;
    while i < s.len() && !isspace(s[i]) && s[i] != 34 && s[i] != 39 && s[i] != 61 && s[i] != 60
        && s[i] != 62 && s[i] != 96
        invariant
            start <= i <= s@.len(),
            skip_unquoted(s@, start as int) == skip_unquoted(s@, i as int),
        decreases s@.len() - i,
    {
        i += 1;
    }
    i
}

fn position_of(s: &[u8], start: usize, c: u8) -> (r: usize)
    requires
        start <= s@.len(),
    ensures
        r == find_byte(s@, start as int, c),
        start <= r <= s@.len(),
{
    let mut i: usize = start;
    while i < s.len() && s[i] != c
        invariant
            start <= i <= s@.len(),
            find_byte(s@, start as int, c) == find_byte(s@, i as int, c),
        decreases s@.len() - i,
    {
        i += 1;
    }
    i
}

fn after_attribute_value(s: &[u8], i: usize) -> (r: Option<usize>)
    requires
        i <= s@.len(),
    ensures
        match r {
            Some(e) => attribute_value_end(s@, i as int) == Some(e as int) && i < e <= s@.len(),
            None => attribute_value_end(s@, i as int) is None,
        },
{
    if i < s.len() && (s[i] == 34 || s[i] == 39) {
        let e: usize = position_of(s, i + 1, s[i]);
        if e < s.len() {
            return Some(e + 1);
        }
        return None;
    }
    let e: usize = after_unquoted(s, i);
    if e > i {
        Some(e)
    } else {
        None
    }
}

fn after_attribute(s: &[u8], i: usize) -> (r: Option<usize>)
    requires
        i <= s@.len(),
    ensures
        match r {
            Some(e) => attribute_end(s@, i as int) == Some(e as int) && i < e <= s@.len(),
            None => attribute_end(s@, i as int) is None,
        },
{
    let j: usize = after_spaces(s, i);
    if j == i || j >= s.len() || !(isalpha(s[j]) || s[j] == 95 || s[j] == 58) {
        return None;
    }
    let e: usize = after_attribute_name(s, j + 1);
    let q: usize = after_spaces(s, e);
    if q < s.len() && s[q] == 61 {
        let v: usize = after_spaces(s, q + 1);
        match after_attribute_value(s, v) {
            Some(end) => {
                return Some(end);
            },
            None => {
                return Some(e);
            },
        }
    }
    Some(e)
}

fn after_attributes(s: &[u8], start: usize) -> (r: usize)
    requires
        start <= s@.len(),
    ensures
        r == attributes_end(s@, start as int),
        start <= r <= s@.len(),
{
    let mut i: usize = start;
    loop
        invariant_except_break
            start <= i <= s@.len(),
            attributes_end(s@, start as int) == attributes_end(s@, i as int),
        ensures
            start <= i <= s@.len(),
            i == attributes_end(s@, start as int),
        decreases s@.len() - i,
    {
        match after_attribute(s, i) {
            Some(e) => {
                i = e;
            },
            None => {
                break ;
            },
        }
    }
    i
}

fn after_tag(s: &[u8], i: usize) -> (r: Option<usize>)
    requires
        i <= s@.len(),
    ensures
        match r {
            Some(e) => tag_end(s@, i as int) == Some(e as int) && e <= s@.len(),
            None => tag_end(s@, i as int) is None,
        },
{
    if i >= s.len() {
        return None;
    }
    if s[i] == 47 {
        let n: usize = after_name(s, i + 1);
        let e: usize = after_spaces(s, n);
        if i + 1 < s.len() && isalpha(s[i + 1]) && e < s.len() && s[e] == 62 {
            return Some(e + 1);
        }
        return None;
    }
    if !isalpha(s[i]) {
        return None;
    }
    let n: usize = after_name(s, i);
    let attributes: usize = after_attributes(s, n);
    let mut b: usize = after_spaces(s, attributes);
    if b < s.len() && s[b] == 47 {
        b += 1;
    }
    if b < s.len() && s[b] == 62 {
        Some(b + 1)
    } else {
        None
    }
}

pub fn html_block_start(s: &[u8], i: usize) -> (r: Option<u8>)
    requires
        i < s@.len(),
    ensures
        r == html_start(s@, i as int),
{
    if s[i] != 60 || s.len() - i < 2 {
        return None;
    }
    let e: usize = after_name(s, i + 1);
    if is_raw_tag(s, i + 1, e) && e < s.len() && (isspace(s[e]) || s[e] == 62) {
        return Some(1);
    }
    if is_bytes_at(s, i, "<!--") {
        return Some(2);
    }
    if s[i + 1] == 63 {
        return Some(3);
    }
    if s[i + 1] == 33 && s.len() - i > 2 && 65 <= s[i + 2] && s[i + 2] <= 90 {
        return Some(4);
    }
    if is_bytes_at(s, i, "<![CDATA[") {
        return Some(5);
    }
    let p: usize = if s[i + 1] == 47 {
        i + 2
    } else {
        i + 1
    };
    let f: usize = after_name(s, p);
    if is_block_tag(s, p, f) && f < s.len() && (isspace(s[f]) || s[f] == 62 || (s[f] == 47
        && s.len() - f > 1 && s[f + 1] == 62)) {
        return Some(6);
    }
    None
}

pub fn html_block_start_7(s: &[u8], i: usize) -> (r: Option<u8>)
    requires
        i < s@.len(),
    ensures
        r == if html_start_7(s@, i as int) {
            Some(7u8)
        } else {
            None
        },
{
    if s[i] != 60 {
        return None;
    }
    match after_tag(s, i + 1) {
        Some(e) => if e < s.len() && after_spaces(s, e) == s.len() {
            Some(7)
        } else {
            None
        },
        None => None,
    }
}

/// Whether a block of raw HTML of the kind `block_type` ends on this line.
pub fn html_block_end(s: &[u8], i: usize, block_type: u8) -> (r: bool)
    requires
        i <= s@.len(),
    ensures
        r == html_end(s@, i as int, block_type),
{
    match block_type {
        1 => is_text_from(s, i, RAW_END_TAGS[0]) || is_text_from(s, i, RAW_END_TAGS[1])
            || is_text_from(s, i, RAW_END_TAGS[2]),
        2 => is_text_from(s, i, "-->"),
        3 => is_text_from(s, i, "?>"),
        4 => is_text_from(s, i, ">"),
        5 => is_text_from(s, i, "]]>"),
        _ => false,
    }
}

/// The bytes of an ASCII literal.
proof fn lemma_literal(s: &str, b: Seq<u8>)
    requires
        s@.len() == b.len(),
        forall|k: int| 0 <= k < b.len() ==> b[k] < 128 && s@[k] == #[trigger] b[k] as char,
    ensures
        s.spec_bytes() == b,
{
    assert forall|k: int| 0 <= k < s@.len() implies '\0' <= #[trigger] s@[k] <= '\u{7f}' by {
        assert(b[k] < 128);
    }
    vstd::string::is_ascii_spec_bytes(s);
    assert(s.spec_bytes() =~= b);
}

/// How the marks of raw HTML are written.
pub proof fn lemma_literals()
    ensures
        RAW_TAGS@[0].spec_bytes() == seq![115u8, 99u8, 114u8, 105u8, 112u8, 116u8],
        RAW_TAGS@[1].spec_bytes() == seq![112u8, 114u8, 101u8],
        RAW_TAGS@[2].spec_bytes() == seq![115u8, 116u8, 121u8, 108u8, 101u8],
        RAW_END_TAGS@[0].spec_bytes() == seq![
            60u8,
            47u8,
            115u8,
            99u8,
            114u8,
            105u8,
            112u8,
            116u8,
            62u8,
        ],
        RAW_END_TAGS@[1].spec_bytes() == seq![60u8, 47u8, 112u8, 114u8, 101u8, 62u8],
        RAW_END_TAGS@[2].spec_bytes() == seq![60u8, 47u8, 115u8, 116u8, 121u8, 108u8, 101u8, 62u8],
        "<!--".spec_bytes() == seq![60u8, 33u8, 45u8, 45u8],
        "<![CDATA[".spec_bytes() == seq![60u8, 33u8, 91u8, 67u8, 68u8, 65u8, 84u8, 65u8, 91u8],
        "-->".spec_bytes() == seq![45u8, 45u8, 62u8],
        "?>".spec_bytes() == seq![63u8, 62u8],
        ">".spec_bytes() == seq![62u8],
        "]]>".spec_bytes() == seq![93u8, 93u8, 62u8],
{
    reveal_strlit("script");
    lemma_literal("script", seq![115u8, 99u8, 114u8, 105u8, 112u8, 116u8]);
    reveal_strlit("pre");
    lemma_literal("pre", seq![112u8, 114u8, 101u8]);
    reveal_strlit("style");
    lemma_literal("style", seq![115u8, 116u8, 121u8, 108u8, 101u8]);
    reveal_strlit("</script>");
    lemma_literal("</script>", seq![60u8, 47u8, 115u8, 99u8, 114u8, 105u8, 112u8, 116u8, 62u8]);
    reveal_strlit("</pre>");
    lemma_literal("</pre>", seq![60u8, 47u8, 112u8, 114u8, 101u8, 62u8]);
    reveal_strlit("</style>");
    lemma_literal("</style>", seq![60u8, 47u8, 115u8, 116u8, 121u8, 108u8, 101u8, 62u8]);
    reveal_strlit("<!--");
    lemma_literal("<!--", seq![60u8, 33u8, 45u8, 45u8]);
    reveal_strlit("<![CDATA[");
    lemma_literal("<![CDATA[", seq![60u8, 33u8, 91u8, 67u8, 68u8, 65u8, 84u8, 65u8, 91u8]);
    reveal_strlit("-->");
    lemma_literal("-->", seq![45u8, 45u8, 62u8]);
    reveal_strlit("?>");
    lemma_literal("?>", seq![63u8, 62u8]);
    reveal_strlit(">");
    lemma_literal(">", seq![62u8]);
    reveal_strlit("]]>");
    lemma_literal("]]>", seq![93u8, 93u8, 62u8]);
}

/// Which elements form a block.
pub proof fn law_block_tags()
    ensures
        BLOCK_TAGS@.contains("address"),
        BLOCK_TAGS@.contains("article"),
        BLOCK_TAGS@.contains("aside"),
        BLOCK_TAGS@.contains("base"),
        BLOCK_TAGS@.contains("basefont"),
        BLOCK_TAGS@.contains("blockquote"),
        BLOCK_TAGS@.contains("body"),
        BLOCK_TAGS@.contains("caption"),
        BLOCK_TAGS@.contains("center"),
        BLOCK_TAGS@.contains("col"),
        BLOCK_TAGS@.contains("colgroup"),
        BLOCK_TAGS@.contains("dd"),
        BLOCK_TAGS@.contains("details"),
        BLOCK_TAGS@.contains("dialog"),
        BLOCK_TAGS@.contains("dir"),
        BLOCK_TAGS@.contains("div"),
        BLOCK_TAGS@.contains("dl"),
        BLOCK_TAGS@.contains("dt"),
        BLOCK_TAGS@.contains("fieldset"),
        BLOCK_TAGS@.contains("figcaption"),
        BLOCK_TAGS@.contains("figure"),
        BLOCK_TAGS@.contains("footer"),
        BLOCK_TAGS@.contains("form"),
        BLOCK_TAGS@.contains("frame"),
        BLOCK_TAGS@.contains("frameset"),
        BLOCK_TAGS@.contains("h1"),
        BLOCK_TAGS@.contains("h2"),
        BLOCK_TAGS@.contains("h3"),
        BLOCK_TAGS@.contains("h4"),
        BLOCK_TAGS@.contains("h5"),
        BLOCK_TAGS@.contains("h6"),
        BLOCK_TAGS@.contains("head"),
        BLOCK_TAGS@.contains("header"),
        BLOCK_TAGS@.contains("hr"),
        BLOCK_TAGS@.contains("html"),
        BLOCK_TAGS@.contains("iframe"),
        BLOCK_TAGS@.contains("legend"),
        BLOCK_TAGS@.contains("li"),
        BLOCK_TAGS@.contains("link"),
        BLOCK_TAGS@.contains("main"),
        BLOCK_TAGS@.contains("menu"),
        BLOCK_TAGS@.contains("menuitem"),
        BLOCK_TAGS@.contains("meta"),
        BLOCK_TAGS@.contains("nav"),
        BLOCK_TAGS@.contains("noframes"),
        BLOCK_TAGS@.contains("ol"),
        BLOCK_TAGS@.contains("optgroup"),
        BLOCK_TAGS@.contains("option"),
        BLOCK_TAGS@.contains("p"),
        BLOCK_TAGS@.contains("param"),
        BLOCK_TAGS@.contains("section"),
        BLOCK_TAGS@.contains("source"),
        BLOCK_TAGS@.contains("summary"),
        BLOCK_TAGS@.contains("table"),
        BLOCK_TAGS@.contains("tbody"),
        BLOCK_TAGS@.contains("td"),
        BLOCK_TAGS@.contains("tfoot"),
        BLOCK_TAGS@.contains("th"),
        BLOCK_TAGS@.contains("thead"),
        BLOCK_TAGS@.contains("title"),
        BLOCK_TAGS@.contains("tr"),
        BLOCK_TAGS@.contains("track"),
        BLOCK_TAGS@.contains("ul"),
{
    assert(BLOCK_TAGS@[0] == "address");
    assert(BLOCK_TAGS@[1] == "article");
    assert(BLOCK_TAGS@[2] == "aside");
    assert(BLOCK_TAGS@[3] == "base");
    assert(BLOCK_TAGS@[4] == "basefont");
    assert(BLOCK_TAGS@[5] == "blockquote");
    assert(BLOCK_TAGS@[6] == "body");
    assert(BLOCK_TAGS@[7] == "caption");
    assert(BLOCK_TAGS@[8] == "center");
    assert(BLOCK_TAGS@[9] == "col");
    assert(BLOCK_TAGS@[10] == "colgroup");
    assert(BLOCK_TAGS@[11] == "dd");
    assert(BLOCK_TAGS@[12] == "details");
    assert(BLOCK_TAGS@[13] == "dialog");
    assert(BLOCK_TAGS@[14] == "dir");
    assert(BLOCK_TAGS@[15] == "div");
    assert(BLOCK_TAGS@[16] == "dl");
    assert(BLOCK_TAGS@[17] == "dt");
    assert(BLOCK_TAGS@[18] == "fieldset");
    assert(BLOCK_TAGS@[19] == "figcaption");
    assert(BLOCK_TAGS@[20] == "figure");
    assert(BLOCK_TAGS@[21] == "footer");
    assert(BLOCK_TAGS@[22] == "form");
    assert(BLOCK_TAGS@[23] == "frame");
    assert(BLOCK_TAGS@[24] == "frameset");
    assert(BLOCK_TAGS@[25] == "h1");
    assert(BLOCK_TAGS@[26] == "h2");
    assert(BLOCK_TAGS@[27] == "h3");
    assert(BLOCK_TAGS@[28] == "h4");
    assert(BLOCK_TAGS@[29] == "h5");
    assert(BLOCK_TAGS@[30] == "h6");
    assert(BLOCK_TAGS@[31] == "head");
    assert(BLOCK_TAGS@[32] == "header");
    assert(BLOCK_TAGS@[33] == "hr");
    assert(BLOCK_TAGS@[34] == "html");
    assert(BLOCK_TAGS@[35] == "iframe");
    assert(BLOCK_TAGS@[36] == "legend");
    assert(BLOCK_TAGS@[37] == "li");
    assert(BLOCK_TAGS@[38] == "link");
    assert(BLOCK_TAGS@[39] == "main");
    assert(BLOCK_TAGS@[40] == "menu");
    assert(BLOCK_TAGS@[41] == "menuitem");
    assert(BLOCK_TAGS@[42] == "meta");
    assert(BLOCK_TAGS@[43] == "nav");
    assert(BLOCK_TAGS@[44] == "noframes");
    assert(BLOCK_TAGS@[45] == "ol");
    assert(BLOCK_TAGS@[46] == "optgroup");
    assert(BLOCK_TAGS@[47] == "option");
    assert(BLOCK_TAGS@[48] == "p");
    assert(BLOCK_TAGS@[49] == "param");
    assert(BLOCK_TAGS@[50] == "section");
    assert(BLOCK_TAGS@[51] == "source");
    assert(BLOCK_TAGS@[52] == "summary");
    assert(BLOCK_TAGS@[53] == "table");
    assert(BLOCK_TAGS@[54] == "tbody");
    assert(BLOCK_TAGS@[55] == "td");
    assert(BLOCK_TAGS@[56] == "tfoot");
    assert(BLOCK_TAGS@[57] == "th");
    assert(BLOCK_TAGS@[58] == "thead");
    assert(BLOCK_TAGS@[59] == "title");
    assert(BLOCK_TAGS@[60] == "tr");
    assert(BLOCK_TAGS@[61] == "track");
    assert(BLOCK_TAGS@[62] == "ul");
}

/// White space from `i` up to `j`.
pub open spec fn white_between(s: Seq<u8>, i: int, j: int) -> bool {
    forall|k: int| i <= k < j ==> 9 <= #[trigger] s[k] <= 13 || s[k] == 32
}

/// The byte may go on with the name of an attribute.
pub open spec fn in_attribute_name(c: u8) -> bool {
    65 <= c <= 90 || 97 <= c <= 122 || 48 <= c <= 57 || c == 58 || c == 46 || c == 95 || c == 45
}

/// From `i` on stands white space, and the name of an attribute from `j` up to `e`.
pub open spec fn attribute_named(s: Seq<u8>, i: int, j: int, e: int) -> bool {
    &&& 0 <= i < j < e < s.len()
    &&& white_between(s, i, j)
    &&& 65 <= s[j] <= 90 || 97 <= s[j] <= 122 || s[j] == 95 || s[j] == 58
    &&& forall|k: int| j < k < e ==> in_attribute_name(#[trigger] s[k])
    &&& !in_attribute_name(s[e])
}

proof fn lemma_white_skipped(s: Seq<u8>, i: int, j: int)
    requires
        0 <= i <= j < s.len(),
        white_between(s, i, j),
        !is_space(s[j]),
    ensures
        skip_spaces(s, i) == j,
    decreases j - i,
{
    if i < j {
        assert(is_space(s[i]));
        lemma_white_skipped(s, i + 1, j);
    }
}

proof fn lemma_attribute_name(s: Seq<u8>, i: int, e: int)
    requires
        0 <= i <= e < s.len(),
        forall|k: int| i <= k < e ==> in_attribute_name(#[trigger] s[k]),
        !in_attribute_name(s[e]),
    ensures
        skip_attribute_name(s, i) == e,
    decreases e - i,
{
    if i < e {
        assert(in_attribute_name(s[i]));
        lemma_attribute_name(s, i + 1, e);
    }
}

proof fn lemma_byte_found(s: Seq<u8>, i: int, e: int, c: u8)
    requires
        0 <= i <= e < s.len(),
        forall|k: int| i <= k < e ==> #[trigger] s[k] != c,
        s[e] == c,
    ensures
        find_byte(s, i, c) == e,
    decreases e - i,
{
    if i < e {
        assert(s[i] != c);
        lemma_byte_found(s, i + 1, e, c);
    }
}

/// The byte may stand in the value of an attribute that has no quotes.
pub open spec fn in_unquoted(c: u8) -> bool {
    !(9 <= c <= 13) && c != 32 && c != 34 && c != 39 && c != 61 && c != 60 && c != 62 && c != 96
}

proof fn lemma_unquoted(s: Seq<u8>, i: int, e: int)
    requires
        0 <= i <= e < s.len(),
        forall|k: int| i <= k < e ==> in_unquoted(#[trigger] s[k]),
        !in_unquoted(s[e]),
    ensures
        skip_unquoted(s, i) == e,
    decreases e - i,
{
    if i < e {
        assert(in_unquoted(s[i]));
        lemma_unquoted(s, i + 1, e);
    }
}

/// An attribute may be a name alone, where no equals sign follows.
pub proof fn law_attribute_alone(s: Seq<u8>, i: int, j: int, e: int, q: int)
    requires
        attribute_named(s, i, j, e),
        e <= q < s.len(),
        white_between(s, e, q),
        !(9 <= s[q] <= 13) && s[q] != 32 && s[q] != 61,
    ensures
        attribute_end(s, i) == Some(e),
{
    lemma_white_skipped(s, i, j);
    lemma_attribute_name(s, j + 1, e);
    lemma_white_skipped(s, e, q);
}

/// An attribute may have a value in quotes of either kind, which holds anything but that quote.
/// White space may stand around the equals sign.
pub proof fn law_attribute_quoted(
    s: Seq<u8>,
    i: int,
    j: int,
    e: int,
    q: int,
    v: int,
    f: int,
)
    requires
        attribute_named(s, i, j, e),
        e <= q < v < f < s.len(),
        white_between(s, e, q),
        s[q] == 61,
        white_between(s, q + 1, v),
        s[v] == 34 || s[v] == 39,
        forall|k: int| v < k < f ==> #[trigger] s[k] != s[v],
        s[f] == s[v],
    ensures
        attribute_end(s, i) == Some(f + 1),
{
    lemma_white_skipped(s, i, j);
    lemma_attribute_name(s, j + 1, e);
    lemma_white_skipped(s, e, q);
    lemma_white_skipped(s, q + 1, v);
    lemma_byte_found(s, v + 1, f, s[v]);
}

/// An attribute may have a value without quotes, which holds no white space, no quotes and none of
/// `=`, `<`, `>` and the backquote.
pub proof fn law_attribute_unquoted(
    s: Seq<u8>,
    i: int,
    j: int,
    e: int,
    q: int,
    v: int,
    f: int,
)
    requires
        attribute_named(s, i, j, e),
        e <= q < v < f < s.len(),
        white_between(s, e, q),
        s[q] == 61,
        white_between(s, q + 1, v),
        forall|k: int| v <= k < f ==> in_unquoted(#[trigger] s[k]),
        !in_unquoted(s[f]),
    ensures
        attribute_end(s, i) == Some(f),
{
    lemma_white_skipped(s, i, j);
    lemma_attribute_name(s, j + 1, e);
    lemma_white_skipped(s, e, q);
    assert(in_unquoted(s[v]));
    lemma_white_skipped(s, q + 1, v);
    lemma_unquoted(s, v, f);
}

/// Attributes follow one another: behind one, the next one is read, and where none is, they end.
pub proof fn law_attributes_in_turn(s: Seq<u8>, i: int)
    requires
        0 <= i <= s.len(),
    ensures
        match attribute_end(s, i) {
            Some(e) => i < e <= s.len() ==> attributes_end(s, i) == attributes_end(s, e),
            None => attributes_end(s, i) == i,
        },
{
}

proof fn lemma_name_skipped(s: Seq<u8>, i: int, e: int)
    requires
        0 <= i <= e < s.len(),
        forall|k: int| i <= k < e ==> is_alpha(#[trigger] s[k]) || is_digit(s[k]) || s[k] == 45,
        !is_alpha(s[e]) && !is_digit(s[e]) && s[e] != 45,
    ensures
        skip_name(s, i) == e,
    decreases e - i,
{
    if i < e {
        assert(is_alpha(s[i]) || is_digit(s[i]) || s[i] == 45);
        lemma_name_skipped(s, i + 1, e);
    }
}

proof fn lemma_white_to_end(s: Seq<u8>, i: int)
    requires
        0 <= i <= s.len(),
        white_between(s, i, s.len() as int),
    ensures
        skip_spaces(s, i) == s.len(),
    decreases s.len() - i,
{
    if i < s.len() {
        assert(is_space(s[i]));
        lemma_white_to_end(s, i + 1);
    }
}

/// A complete opening tag: a name from a letter on, attributes, white space, perhaps a slash, and
/// `>`. On a line of its own it is raw HTML.
pub proof fn law_complete_opening_tag(s: Seq<u8>, i: int, n: int, a: int, b: int, slash: bool)
    requires
        0 <= i,
        i + 1 < n <= a <= b,
        s[i] == 60,
        is_alpha(s[i + 1]),
        forall|k: int| i + 1 <= k < n ==> is_alpha(#[trigger] s[k]) || is_digit(s[k]) || s[k] == 45,
        n < s.len(),
        !is_alpha(s[n]) && !is_digit(s[n]) && s[n] != 45,
        attributes_end(s, n) == a,
        white_between(s, a, b),
        ({
            let g = if slash {
                b + 1
            } else {
                b
            };
            &&& g + 1 < s.len()
            &&& slash ==> s[b] == 47
            &&& s[g] == 62
            &&& white_between(s, g + 1, s.len() as int)
        }),
    ensures
        html_start_7(s, i),
{
    lemma_name_skipped(s, i + 1, n);
    lemma_white_skipped(s, a, b);
    lemma_white_to_end(
        s,
        if slash {
            b + 2
        } else {
            b + 1
        },
    );
}

/// A complete closing tag: a slash, a name from a letter on, white space, and `>`, without
/// attributes. On a line of its own it is raw HTML.
pub proof fn law_complete_closing_tag(s: Seq<u8>, i: int, n: int, b: int)
    requires
        0 <= i,
        i + 2 < n <= b,
        b + 1 < s.len(),
        s[i] == 60,
        s[i + 1] == 47,
        is_alpha(s[i + 2]),
        forall|k: int| i + 2 <= k < n ==> is_alpha(#[trigger] s[k]) || is_digit(s[k]) || s[k] == 45,
        !is_alpha(s[n]) && !is_digit(s[n]) && s[n] != 45,
        white_between(s, n, b),
        s[b] == 62,
        white_between(s, b + 1, s.len() as int),
    ensures
        html_start_7(s, i),
{
    lemma_name_skipped(s, i + 2, n);
    lemma_white_skipped(s, n, b);
    lemma_white_to_end(s, b + 1);
}

proof fn lemma_spaces_are_white(s: Seq<u8>, i: int)
    requires
        0 <= i <= s.len(),
        skip_spaces(s, i) == s.len(),
    ensures
        white_between(s, i, s.len() as int),
    decreases s.len() - i,
{
    if i < s.len() {
        lemma_spaces_are_white(s, i + 1);
        assert forall|k: int| i <= k < s.len() implies 9 <= #[trigger] s[k] <= 13 || s[k] == 32 by {
            if k == i {
                assert(is_space(s[i]));
            }
        }
    }
}

/// Such a line holds nothing but white space behind the tag, and the tag has a name.
pub proof fn law_tag_stands_alone(s: Seq<u8>, i: int)
    requires
        html_start_7(s, i),
    ensures
        s[i] == 60,
        is_alpha(s[i + 1]) || s[i + 1] == 47 && is_alpha(s[i + 2]),
        exists|e: int|
            #![trigger s[e - 1]]
            i + 1 < e < s.len() && s[e - 1] == 62 && white_between(s, e, s.len() as int),
{
    let e = tag_end(s, i + 1)->0;
    lemma_tag_end(s, i + 1);
    lemma_spaces_are_white(s, e);
    assert(s[e - 1] == 62);
}

proof fn lemma_tag_end(s: Seq<u8>, i: int)
    requires
        0 <= i,
    ensures
        tag_end(s, i) matches Some(e) ==> i < e <= s.len() && s[e - 1] == 62,
{
    if i < s.len() {
        if s[i] == 47 {
            lemma_name_forward(s, i + 1);
            lemma_spaces_forward(s, skip_name(s, i + 1));
        } else {
            lemma_name_forward(s, i);
            lemma_attributes_forward(s, skip_name(s, i));
            lemma_spaces_forward(s, attributes_end(s, skip_name(s, i)));
        }
    }
}

proof fn lemma_name_forward(s: Seq<u8>, i: int)
    ensures
        i <= skip_name(s, i),
    decreases s.len() - i,
{
    if 0 <= i < s.len() && (is_alpha(s[i]) || is_digit(s[i]) || s[i] == 45) {
        lemma_name_forward(s, i + 1);
    }
}

proof fn lemma_spaces_forward(s: Seq<u8>, i: int)
    ensures
        i <= skip_spaces(s, i),
    decreases s.len() - i,
{
    if 0 <= i < s.len() && is_space(s[i]) {
        lemma_spaces_forward(s, i + 1);
    }
}

proof fn lemma_attributes_forward(s: Seq<u8>, i: int)
    ensures
        i <= attributes_end(s, i),
    decreases s.len() - i,
{
    if let Some(e) = attribute_end(s, i) {
        if i < e <= s.len() {
            lemma_attributes_forward(s, e);
        }
    }
}

} // verus!
