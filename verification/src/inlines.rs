//! What the block parser needs to know of the text within blocks: how character references and
//! link labels are read, which inline nodes a text gives, and where it holds a bare link.
use crate::ctype::{is_space, isspace, lower, to_lower};
use crate::nodes::{InlineValue, LinkView, ValueView};
use crate::options::ComrakOptions;
use crate::references::RefMap;
use crate::strings::{copy_range, trim, trimmed, unescape, unescaped};
use vstd::prelude::*;

verus! {

/// An inline node with everything below it.
#[derive(Debug)]
pub struct Inline {
    pub value: InlineValue,
    pub children: Vec<Inline>,
}

pub struct InlineView {
    pub value: ValueView,
    pub children: Seq<InlineView>,
}

impl View for Inline {
    type V = InlineView;

    open spec fn view(&self) -> InlineView {
        inline_view(*self)
    }
}

pub open spec fn inline_view(x: Inline) -> InlineView
    decreases x,
{
    InlineView {
        value: x.value@,
        children: Seq::new(
            x.children@.len(),
            |i: int|
                if 0 <= i < x.children@.len() {
                    inline_view(x.children@[i])
                } else {
                    arbitrary()
                },
        ),
    }
}

/// The inline nodes of a list.
pub open spec fn forest_view(f: Seq<Inline>) -> Seq<InlineView> {
    Seq::new(f.len(), |i: int| inline_view(f[i]))
}

/// The node is no block, and nothing below it is one.
pub open spec fn inline_node(x: InlineView) -> bool
    decreases x,
{
    &&& !x.value.is_block()
    &&& forall|k: int| 0 <= k < x.children.len() ==> inline_node(#[trigger] x.children[k])
}

/// There is no block among the nodes, nor below them.
pub open spec fn inline_forest(f: Seq<InlineView>) -> bool {
    forall|k: int| 0 <= k < f.len() ==> inline_node(#[trigger] f[k])
}

/// Inline nodes are no blocks.
pub proof fn lemma_inline_node(x: Inline)
    ensures
        inline_node(inline_view(x)),
    decreases x,
{
    let v = inline_view(x);
    assert forall|k: int| 0 <= k < v.children.len() implies inline_node(
        #[trigger] v.children[k],
    ) by {
        lemma_inline_node(x.children@[k]);
    }
}

/// The same of a list of them.
pub proof fn lemma_inline_forest(f: Seq<Inline>)
    ensures
        inline_forest(forest_view(f)),
{
    assert forall|k: int| 0 <= k < f.len() implies inline_node(
        #[trigger] forest_view(f)[k],
    ) by {
        lemma_inline_node(f[k]);
    }
}

/// A link that stands bare in a text, from `start` up to `end`.
#[derive(Debug)]
pub struct Autolink {
    pub start: usize,
    pub end: usize,
    pub link: Inline,
}

pub struct AutolinkView {
    pub start: int,
    pub end: int,
    pub link: InlineView,
}

impl View for Autolink {
    type V = AutolinkView;

    open spec fn view(&self) -> AutolinkView {
        AutolinkView { start: self.start as int, end: self.end as int, link: self.link@ }
    }
}

/// The rules for the text within blocks, as functions.
pub struct SyntaxView {
    pub entities: spec_fn(Seq<u8>) -> Seq<u8>,
    pub label: spec_fn(Seq<u8>) -> Seq<u8>,
    pub inlines: spec_fn(Seq<u8>, Map<Seq<u8>, LinkView>, ComrakOptions) -> Seq<InlineView>,
    pub autolink: spec_fn(Seq<u8>) -> Option<AutolinkView>,
}

/// The functions that a set of rules follows when nothing is said of them.
pub open spec fn unknown_rules<S: ?Sized>(s: &S) -> SyntaxView {
    (arbitrary::<spec_fn(&S) -> SyntaxView>())(s)
}

/// The rules for the text within blocks. What the four methods compute is a function of the rules
/// and of their arguments, which an implementation states in the four functions before them. Of
/// one that states nothing, only this is known: the same arguments give the same result.
pub trait InlineSyntax {
    /// What `text` is when its character references are resolved.
    open spec fn entities_decoded(&self, text: Seq<u8>) -> Seq<u8> {
        (unknown_rules(self).entities)(text)
    }

    /// The form by which a link label is looked up.
    open spec fn label_normalized(&self, label: Seq<u8>) -> Seq<u8> {
        (unknown_rules(self).label)(label)
    }

    /// The inline nodes that `text` gives.
    open spec fn inlines_of(
        &self,
        text: Seq<u8>,
        refmap: Map<Seq<u8>, LinkView>,
        options: ComrakOptions,
    ) -> Seq<InlineView> {
        (unknown_rules(self).inlines)(text, refmap, options)
    }

    /// The first bare link in `text`.
    open spec fn autolink_in(&self, text: Seq<u8>) -> Option<AutolinkView> {
        (unknown_rules(self).autolink)(text)
    }

    /// Replaces the character references in `text` by what they stand for.
    fn unescape_html(&self, text: &[u8]) -> (r: Vec<u8>)
        ensures
            r@ == self.entities_decoded(text@),
    ;

    /// Brings a link label into the form by which it is looked up.
    fn normalize_reference_label(&self, label: &[u8]) -> (r: Vec<u8>)
        ensures
            r@ == self.label_normalized(label@),
    ;

    /// Reads the inline nodes that `text` gives.
    fn parse_inlines(&self, text: &[u8], refmap: &RefMap, options: &ComrakOptions) -> (r: Vec<
        Inline,
    >)
        ensures
            forest_view(r@) == self.inlines_of(text@, refmap@, *options),
    ;

    /// Finds the first bare link in `text`.
    fn process_autolinks(&self, text: &[u8]) -> (r: Option<Autolink>)
        ensures
            match r {
                Some(a) => self.autolink_in(text@) == Some(a@),
                None => self.autolink_in(text@) is None,
            },
    ;
}

/// The functions that a set of rules follows.
pub open spec fn syntax_view<S: InlineSyntax>(s: &S) -> SyntaxView {
    SyntaxView {
        entities: |text: Seq<u8>| s.entities_decoded(text),
        label: |label: Seq<u8>| s.label_normalized(label),
        inlines: |text: Seq<u8>, refmap: Map<Seq<u8>, LinkView>, options: ComrakOptions|
            s.inlines_of(text, refmap, options),
        autolink: |text: Seq<u8>| s.autolink_in(text),
    }
}

/// A link destination without its angle brackets, with character references and escapes
/// resolved.
pub open spec fn url_cleaned(syntax: SyntaxView, url: Seq<u8>) -> Seq<u8> {
    let t = trimmed(url);
    if t.len() == 0 {
        Seq::empty()
    } else if t[0] == 60 && t.last() == 62 && t.len() > 1 {
        unescaped((syntax.entities)(t.subrange(1, t.len() - 1)))
    } else {
        unescaped((syntax.entities)(t))
    }
}

/// The bytes are the delimiters of a title.
pub open spec fn title_delimiters(first: u8, last: u8) -> bool {
    (first == 39 && last == 39) || (first == 40 && last == 41) || (first == 34 && last == 34)
}

/// A title without its delimiters, with character references and escapes resolved.
pub open spec fn title_cleaned(syntax: SyntaxView, title: Seq<u8>) -> Seq<u8> {
    if title.len() == 0 {
        Seq::empty()
    } else if title.len() > 1 && title_delimiters(title[0], title.last()) {
        unescaped((syntax.entities)(title.subrange(1, title.len() - 1)))
    } else {
        unescaped((syntax.entities)(title))
    }
}

/// An info string: character references are resolved, white space around it goes, and then the
/// escapes.
pub open spec fn info_cleaned(syntax: SyntaxView, info: Seq<u8>) -> Seq<u8> {
    unescaped(trimmed((syntax.entities)(info)))
}

pub fn clean_url<S: InlineSyntax>(syntax: &S, url: &[u8]) -> (r: Vec<u8>)
    ensures
        r@ == url_cleaned(syntax_view(syntax), url@),
{
    let mut t: Vec<u8> = copy_range(url, 0, url.len());
    assert(t@ == url@);
    trim(&mut t);
    let n: usize = t.len();
    if n == 0 {
        return Vec::new();
    }
    let mut b: Vec<u8> = if t[0] == 60 && t[n - 1] == 62 && n > 1 {
        let inner: Vec<u8> = copy_range(t.as_slice(), 1, n - 1);
        syntax.unescape_html(inner.as_slice())
    } else {
        syntax.unescape_html(t.as_slice())
    };
    unescape(&mut b);
    b
}

pub fn clean_title<S: InlineSyntax>(syntax: &S, title: &[u8]) -> (r: Vec<u8>)
    ensures
        r@ == title_cleaned(syntax_view(syntax), title@),
{
    let n: usize = title.len();
    if n == 0 {
        return Vec::new();
    }
    let first: u8 = title[0];
    let last: u8 = title[n - 1];
    let mut b: Vec<u8> = if n > 1 && ((first == 39 && last == 39) || (first == 40 && last == 41)
        || (first == 34 && last == 34)) {
        let inner: Vec<u8> = copy_range(title, 1, n - 1);
        syntax.unescape_html(inner.as_slice())
    } else {
        syntax.unescape_html(title)
    };
    unescape(&mut b);
    b
}

pub fn clean_info<S: InlineSyntax>(syntax: &S, info: &[u8]) -> (r: Vec<u8>)
    ensures
        r@ == info_cleaned(syntax_view(syntax), info@),
{
    let mut b: Vec<u8> = syntax.unescape_html(info);
    trim(&mut b);
    unescape(&mut b);
    b
}

/// A label in lower case, with every run of white space made one space. `after_space` tells
/// that a space was written last.
pub open spec fn label_folded(s: Seq<u8>, after_space: bool) -> Seq<u8>
    decreases s.len(),
{
    if s.len() == 0 {
        s
    } else if is_space(s[0]) {
        if after_space {
            label_folded(s.skip(1), true)
        } else {
            seq![32u8] + label_folded(s.skip(1), true)
        }
    } else {
        seq![lower(s[0])] + label_folded(s.skip(1), false)
    }
}

/// The plainest rules there are: text is text. Character references stay as they are, labels are
/// compared by their ASCII letters, and nothing is a link.
#[derive(Clone, Copy, Debug)]
pub struct PlainText {}

impl InlineSyntax for PlainText {
    open spec fn entities_decoded(&self, text: Seq<u8>) -> Seq<u8> {
        text
    }

    open spec fn label_normalized(&self, label: Seq<u8>) -> Seq<u8> {
        label_folded(trimmed(label), false)
    }

    open spec fn inlines_of(
        &self,
        text: Seq<u8>,
        refmap: Map<Seq<u8>, LinkView>,
        options: ComrakOptions,
    ) -> Seq<InlineView> {
        if text.len() == 0 {
            Seq::empty()
        } else {
            seq![InlineView { value: ValueView::Text(text), children: Seq::empty() }]
        }
    }

    open spec fn autolink_in(&self, text: Seq<u8>) -> Option<AutolinkView> {
        None
    }

    fn unescape_html(&self, text: &[u8]) -> (r: Vec<u8>) {
        let r: Vec<u8> = copy_range(text, 0, text.len());
        assert(r@ == text@);
        r
    }

    fn normalize_reference_label(&self, label: &[u8]) -> (r: Vec<u8>) {
        let mut t: Vec<u8> = copy_range(label, 0, label.len());
        assert(t@ == label@);
        trim(&mut t);
        let ghost s = t@;
        let mut r: Vec<u8> = Vec::new();
        let mut after_space: bool = false;
        let mut i: usize = 0;
        assert(s.skip(0) == s);
        while i < t.len()
            invariant
                i <= t@.len(),
                t@ == s,
                label_folded(s, false) == r@ + label_folded(s.skip(i as int), after_space),
            decreases t@.len() - i,
        {
            let ghost before = r@;
            let ghost rest = s.skip(i as int);
            assert(rest.skip(1) == s.skip(i + 1));
            if isspace(t[i]) {
                if !after_space {
                    r.push(32);
                    assert(r@ + label_folded(rest.skip(1), true) == before + (seq![32u8]
                        + label_folded(rest.skip(1), true)));
                }
                after_space = true;
            } else {
                r.push(to_lower(t[i]));
                assert(r@ + label_folded(rest.skip(1), false) == before + (seq![lower(rest[0])]
                    + label_folded(rest.skip(1), false)));
                after_space = false;
            }
            i += 1;
        }
        assert(r@ == label_folded(s, false));
        r
    }

    fn parse_inlines(&self, text: &[u8], refmap: &RefMap, options: &ComrakOptions) -> (r: Vec<
        Inline,
    >) {
        let mut r: Vec<Inline> = Vec::new();
        if text.len() > 0 {
            let t: Vec<u8> = copy_range(text, 0, text.len());
            assert(t@ == text@);
            let node: Inline = Inline { value: InlineValue::Text(t), children: Vec::new() };
            assert(inline_view(node).children =~= Seq::<InlineView>::empty());
            r.push(node);
        }
        assert(forest_view(r@) =~= self.inlines_of(text@, refmap@, *options));
        r
    }

    fn process_autolinks(&self, text: &[u8]) -> (r: Option<Autolink>) {
        None
    }
}

} // verus!
