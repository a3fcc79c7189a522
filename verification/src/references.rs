//! Link reference definitions: how one is written, and the map that holds them.
use crate::ctype::{is_punct, is_space, ispunct, isspace};
use crate::nodes::LinkView;
use crate::strings::{after_blanks, copy_range, same_bytes, skip_blanks, trim, trimmed};
use vstd::prelude::*;

verus! {

/// A run of backquotes longer than this opens no code span.
pub const MAXBACKTICKS: usize = 80;

/// A link label holds at most this many bytes.
pub const MAX_LINK_LABEL_LENGTH: usize = 1000;

/// Where a link label leads.
#[derive(Clone, Debug)]
pub struct Reference {
    pub url: Vec<u8>,
    pub title: Vec<u8>,
}

impl View for Reference {
    type V = LinkView;

    open spec fn view(&self) -> LinkView {
        LinkView { url: self.url@, title: self.title@ }
    }
}

#[derive(Debug)]
pub struct RefEntry {
    pub label: Vec<u8>,
    pub reference: Reference,
}

/// The reference definitions of a document, by their normalized labels.
#[derive(Debug)]
pub struct RefMap {
    pub entries: Vec<RefEntry>,
}

/// The map that a list of definitions makes: of two with one label, the first counts.
pub open spec fn entries_map(entries: Seq<RefEntry>) -> Map<Seq<u8>, LinkView>
    decreases entries.len(),
{
    if entries.len() == 0 {
        Map::empty()
    } else {
        let m = entries_map(entries.drop_last());
        or_inserted(m, entries.last().label@, entries.last().reference@)
    }
}

/// The map with `key` added, unless it is there already.
pub open spec fn or_inserted(
    m: Map<Seq<u8>, LinkView>,
    key: Seq<u8>,
    value: LinkView,
) -> Map<Seq<u8>, LinkView> {
    if m.contains_key(key) {
        m
    } else {
        m.insert(key, value)
    }
}

impl View for RefMap {
    type V = Map<Seq<u8>, LinkView>;

    open spec fn view(&self) -> Map<Seq<u8>, LinkView> {
        entries_map(self.entries@)
    }
}

proof fn lemma_entries_map(entries: Seq<RefEntry>, i: int, n: int)
    requires
        0 <= i < n <= entries.len(),
        forall|k: int| 0 <= k < i ==> (#[trigger] entries[k]).label@ != entries[i].label@,
    ensures
        entries_map(entries.take(n)).contains_key(entries[i].label@),
        entries_map(entries.take(n))[entries[i].label@] == entries[i].reference@,
    decreases n,
{
    let t = entries.take(n);
    assert(t.drop_last() == entries.take(n - 1));
    if i < n - 1 {
        lemma_entries_map(entries, i, n - 1);
    } else {
        lemma_entries_absent(entries, entries[i].label@, n - 1);
    }
}

proof fn lemma_entries_absent(entries: Seq<RefEntry>, key: Seq<u8>, n: int)
    requires
        0 <= n <= entries.len(),
        forall|k: int| 0 <= k < n ==> (#[trigger] entries[k]).label@ != key,
    ensures
        !entries_map(entries.take(n)).contains_key(key),
    decreases n,
{
    if n > 0 {
        assert(entries.take(n).drop_last() == entries.take(n - 1));
        lemma_entries_absent(entries, key, n - 1);
    }
}

impl RefMap {
    pub fn new() -> (r: RefMap)
        ensures
            r@ == Map::<Seq<u8>, LinkView>::empty(),
    {
        RefMap { entries: Vec::new() }
    }

    /// The reference that goes by a normalized label.
    pub fn lookup(&self, label: &[u8]) -> (r: Option<&Reference>)
        ensures
            match r {
                Some(found) => self@.contains_key(label@) && self@[label@] == found@,
                None => !self@.contains_key(label@),
            },
    {
        let mut i: usize = 0;
        assert(self.entries@.take(self.entries@.len() as int) == self.entries@);
        while i < self.entries.len()
            invariant
                i <= self.entries@.len(),
                self.entries@.take(self.entries@.len() as int) == self.entries@,
                forall|k: int| 0 <= k < i ==> (#[trigger] self.entries@[k]).label@ != label@,
            decreases self.entries@.len() - i,
        {
            if same_bytes(self.entries[i].label.as_slice(), label) {
                proof {
                    lemma_entries_map(self.entries@, i as int, self.entries@.len() as int);
                }
                return Some(&self.entries[i].reference);
            }
            i += 1;
        }
        proof {
            lemma_entries_absent(self.entries@, label@, self.entries@.len() as int);
        }
        None
    }

    /// Adds a definition, unless its label has one already.
    pub fn insert(&mut self, label: Vec<u8>, reference: Reference)
        ensures
            final(self)@ == or_inserted(old(self)@, label@, reference@),
    {
        let known: bool = self.lookup(label.as_slice()).is_some();
        if !known {
            let ghost before = self.entries@;
            self.entries.push(RefEntry { label, reference });
            assert(self.entries@.drop_last() == before);
        }
    }
}

/// A reference definition as it is written: its label without the brackets, the link
/// destination, the title with its delimiters, and the index behind it all.
pub struct DefinitionView {
    pub label: Seq<u8>,
    pub url: Seq<u8>,
    pub title: Seq<u8>,
    pub end: int,
}

pub struct Definition {
    pub label: Vec<u8>,
    pub url: Vec<u8>,
    pub title: Vec<u8>,
    pub end: usize,
}

impl View for Definition {
    type V = DefinitionView;

    open spec fn view(&self) -> DefinitionView {
        DefinitionView {
            label: self.label@,
            url: self.url@,
            title: self.title@,
            end: self.end as int,
        }
    }
}

/// The bytes of a backslash escape at `i`, or of a plain byte.
pub open spec fn escape_width(s: Seq<u8>, i: int) -> int {
    if s[i] == 92 && i + 1 < s.len() && is_punct(s[i + 1]) {
        2
    } else {
        1
    }
}

/// The bracket that closes a link label, where the text up to it ends at `limit` at the latest
/// and holds no other bracket that is not escaped.
pub open spec fn label_close(s: Seq<u8>, i: int, limit: int) -> Option<int>
    decreases s.len() - i,
{
    if !(0 <= i < s.len()) || s[i] == 91 {
        None
    } else if s[i] == 93 {
        Some(i)
    } else if i + escape_width(s, i) > limit {
        None
    } else {
        label_close(s, i + escape_width(s, i), limit)
    }
}

/// The index behind a backslash and the byte that it stands before, if there is one.
pub open spec fn after_backslash(s: Seq<u8>, i: int) -> int {
    if i + 1 < s.len() {
        i + 2
    } else {
        i + 1
    }
}

/// The index behind the `>` that closes a link destination.
pub open spec fn angle_close(s: Seq<u8>, i: int) -> Option<int>
    decreases s.len() - i,
{
    if !(0 <= i < s.len()) {
        Some(i)
    } else if s[i] == 62 {
        Some(i + 1)
    } else if s[i] == 92 {
        angle_close(s, after_backslash(s, i))
    } else if is_space(s[i]) {
        None
    } else {
        angle_close(s, i + 1)
    }
}

/// The end of a link destination without angle brackets, where `depth` parentheses are open.
pub open spec fn destination_stop(s: Seq<u8>, i: int, depth: int) -> int
    decreases s.len() - i,
{
    if !(0 <= i < s.len()) || is_space(s[i]) || (s[i] == 41 && depth == 0) {
        i
    } else if s[i] == 92 {
        destination_stop(s, after_backslash(s, i), depth)
    } else if s[i] == 40 {
        destination_stop(s, i + 1, depth + 1)
    } else if s[i] == 41 {
        destination_stop(s, i + 1, depth - 1)
    } else {
        destination_stop(s, i + 1, depth)
    }
}

/// The end of the link destination at `i`. Something has to follow it.
pub open spec fn destination_end(s: Seq<u8>, i: int) -> Option<int> {
    let e = if i < s.len() && s[i] == 60 {
        angle_close(s, i + 1)
    } else {
        Some(destination_stop(s, i, 0))
    };
    match e {
        Some(j) => if j < s.len() {
            Some(j)
        } else {
            None
        },
        None => None,
    }
}

/// The index behind the byte that closes a title which `open` opened.
pub open spec fn title_close(s: Seq<u8>, i: int, open: u8) -> Option<int>
    decreases s.len() - i,
{
    let close: u8 = if open == 40 {
        41
    } else {
        open
    };
    if !(0 <= i < s.len()) || s[i] == 0 {
        None
    } else if s[i] == close {
        Some(i + 1)
    } else if s[i] == open {
        None
    } else {
        title_close(s, i + escape_width(s, i), open)
    }
}

/// The end of the title at `i`: text in double quotes, in single quotes or in parentheses.
pub open spec fn title_end(s: Seq<u8>, i: int) -> Option<int> {
    if i < s.len() && (s[i] == 34 || s[i] == 39 || s[i] == 40) {
        title_close(s, i + 1, s[i])
    } else {
        None
    }
}

/// The index behind a line end at `i`, or `i`.
pub open spec fn after_line_end(s: Seq<u8>, i: int) -> int {
    let j = if i < s.len() && s[i] == 13 {
        i + 1
    } else {
        i
    };
    if j < s.len() && s[j] == 10 {
        j + 1
    } else {
        j
    }
}

/// The index behind spaces, at most one line end, and spaces again.
pub open spec fn spaces_and_newline(s: Seq<u8>, i: int) -> int {
    let a = skip_blanks(s, i);
    let b = after_line_end(s, a);
    if b > a {
        skip_blanks(s, b)
    } else {
        a
    }
}

/// The index behind the line end that is reached over spaces alone from `i`, or the end of the
/// text.
pub open spec fn line_finished(s: Seq<u8>, i: int) -> Option<int> {
    let a = skip_blanks(s, i);
    let b = after_line_end(s, a);
    if b > a || a >= s.len() {
        Some(b)
    } else {
        None
    }
}

/// The reference definition that `s` starts with: a label in brackets, a colon, a destination
/// and perhaps a title, up to the end of a line. Where text follows the title on its line, the
/// definition ends with the destination's line, provided that this is another one.
pub open spec fn definition(s: Seq<u8>) -> Option<DefinitionView> {
    let close = if s.len() > 0 && s[0] == 91 {
        label_close(s, 1, 1 + MAX_LINK_LABEL_LENGTH as int)
    } else {
        None
    };
    match close {
        None => None,
        Some(c) => {
            let label = trimmed(s.subrange(1, c));
            let u = spaces_and_newline(s, c + 2);
            if label.len() == 0 || !(c + 1 < s.len() && s[c + 1] == 58) {
                None
            } else {
                match destination_end(s, u) {
                    None => None,
                    Some(e) => {
                        let url = s.subrange(u, e);
                        let t = spaces_and_newline(s, e);
                        match title_end(s, t) {
                            Some(f) => {
                                let title = s.subrange(t, f);
                                match line_finished(s, f) {
                                    Some(end) => Some(DefinitionView { label, url, title, end }),
                                    None => match line_finished(s, e) {
                                        Some(end) => Some(
                                            DefinitionView { label, url, title, end },
                                        ),
                                        None => None,
                                    },
                                }
                            },
                            None => match line_finished(s, e) {
                                Some(end) => Some(
                                    DefinitionView { label, url, title: Seq::empty(), end },
                                ),
                                None => None,
                            },
                        }
                    },
                }
            }
        },
    }
}

fn escape_len(s: &[u8], i: usize) -> (r: usize)
    requires
        i < s@.len(),
    ensures
        r == escape_width(s@, i as int),
        i + r <= s@.len(),
{
    if s[i] == 92 && s.len() - i > 1 && ispunct(s[i + 1]) {
        2
    } else {
        1
    }
}

fn find_label_close(s: &[u8], start: usize, limit: usize) -> (r: Option<usize>)
    requires
        start <= s@.len(),
    ensures
        match r {
            Some(c) => label_close(s@, start as int, limit as int) == Some(c as int) && start <= c
                < s@.len(),
            None => label_close(s@, start as int, limit as int) is None,
        },
{
    let mut i: usize = start;
    while i < s.len()
        invariant
            start <= i <= s@.len(),
            label_close(s@, start as int, limit as int) == label_close(s@, i as int, limit as int),
        decreases s@.len() - i,
    {
        if s[i] == 93 {
            return Some(i);
        }
        if s[i] == 91 {
            return None;
        }
        let len: usize = s.len();
        let w: usize = escape_len(s, i);
        if i + w > limit {
            return None;
        }
        i += w;
    }
    None
}

fn find_angle_close(s: &[u8], start: usize) -> (r: Option<usize>)
    requires
        start <= s@.len(),
    ensures
        match r {
            Some(e) => angle_close(s@, start as int) == Some(e as int) && start <= e,
            None => angle_close(s@, start as int) is None,
        },
{
    let len: usize = s.len();
    let mut i: usize = start;
    while i < len
        invariant
            start <= i <= len,
            len == s@.len(),
            angle_close(s@, start as int) == angle_close(s@, i as int),
        decreases len - i,
    {
        let b: u8 = s[i];
        if b == 62 {
            return Some(i + 1);
        } else if b == 92 {
            i = if len - i > 1 {
                i + 2
            } else {
                i + 1
            };
        } else if isspace(b) {
            return None;
        } else {
            i += 1;
        }
    }
    Some(i)
}

fn find_destination_stop(s: &[u8], start: usize) -> (r: usize)
    requires
        start <= s@.len(),
    ensures
        r == destination_stop(s@, start as int, 0),
        start <= r,
{
    let len: usize = s.len();
    let mut i: usize = start;
    let mut depth: usize = 0;
    while i < len
        invariant
            start <= i <= len,
            len == s@.len(),
            depth <= i - start,
            destination_stop(s@, start as int, 0) == destination_stop(s@, i as int, depth as int),
        decreases len - i,
    {
        let b: u8 = s[i];
        if isspace(b) || (b == 41 && depth == 0) {
            return i;
        } else if b == 92 {
            i = if len - i > 1 {
                i + 2
            } else {
                i + 1
            };
        } else if b == 40 {
            depth += 1;
            i += 1;
        } else if b == 41 {
            depth -= 1;
            i += 1;
        } else {
            i += 1;
        }
    }
    i
}

fn find_destination_end(s: &[u8], start: usize) -> (r: Option<usize>)
    requires
        start <= s@.len(),
    ensures
        match r {
            Some(e) => destination_end(s@, start as int) == Some(e as int) && start <= e < s@.len(),
            None => destination_end(s@, start as int) is None,
        },
{
    let e: usize = if start < s.len() && s[start] == 60 {
        match find_angle_close(s, start + 1) {
            Some(e) => e,
            None => {
                return None;
            },
        }
    } else {
        find_destination_stop(s, start)
    };
    if e < s.len() {
        Some(e)
    } else {
        None
    }
}

fn find_title_end(s: &[u8], start: usize) -> (r: Option<usize>)
    requires
        start <= s@.len(),
    ensures
        match r {
            Some(e) => title_end(s@, start as int) == Some(e as int) && start < e <= s@.len(),
            None => title_end(s@, start as int) is None,
        },
{
    if start >= s.len() {
        return None;
    }
    let open: u8 = s[start];
    if open != 34 && open != 39 && open != 40 {
        return None;
    }
    let close: u8 = if open == 40 {
        41
    } else {
        open
    };
    let mut i: usize = start + 1;
    while i < s.len()
        invariant
            start < i <= s@.len(),
            open == s@[start as int],
            open == 34 || open == 39 || open == 40,
            close == (if open == 40 {
                41u8
            } else {
                open
            }),
            title_close(s@, start + 1, open) == title_close(s@, i as int, open),
        decreases s@.len() - i,
    {
        let b: u8 = s[i];
        if b == 0 {
            return None;
        }
        if b == close {
            return Some(i + 1);
        }
        if b == open {
            return None;
        }
        let w: usize = escape_len(s, i);
        i += w;
    }
    None
}

pub fn skip_line_end(s: &[u8], i: usize) -> (r: usize)
    requires
        i <= s@.len(),
    ensures
        r == after_line_end(s@, i as int),
        i <= r <= s@.len(),
{
    let mut j: usize = i;
    if j < s.len() && s[j] == 13 {
        j += 1;
    }
    if j < s.len() && s[j] == 10 {
        j += 1;
    }
    j
}

fn spnl(s: &[u8], i: usize) -> (r: usize)
    requires
        i <= s@.len(),
    ensures
        r == spaces_and_newline(s@, i as int),
        i <= r <= s@.len(),
{
    let a: usize = after_blanks(s, i);
    let b: usize = skip_line_end(s, a);
    if b > a {
        after_blanks(s, b)
    } else {
        a
    }
}

fn finish_line(s: &[u8], i: usize) -> (r: Option<usize>)
    requires
        i <= s@.len(),
    ensures
        match r {
            Some(e) => line_finished(s@, i as int) == Some(e as int) && i <= e <= s@.len(),
            None => line_finished(s@, i as int) is None,
        },
{
    let a: usize = after_blanks(s, i);
    let b: usize = skip_line_end(s, a);
    if b > a || a >= s.len() {
        Some(b)
    } else {
        None
    }
}

/// Reads the reference definition at the start of `s`.
pub fn scan_definition(s: &[u8]) -> (r: Option<Definition>)
    ensures
        match r {
            Some(d) => definition(s@) == Some(d@) && 0 < d.end <= s@.len(),
            None => definition(s@) is None,
        },
{
    if s.len() == 0 || s[0] != 91 {
        return None;
    }
    let c: usize = match find_label_close(s, 1, 1 + MAX_LINK_LABEL_LENGTH) {
        Some(c) => c,
        None => {
            return None;
        },
    };
    let mut label: Vec<u8> = copy_range(s, 1, c);
    trim(&mut label);
    if label.len() == 0 || s.len() - c < 2 || s[c + 1] != 58 {
        return None;
    }
    let u: usize = spnl(s, c + 2);
    let e: usize = match find_destination_end(s, u) {
        Some(e) => e,
        None => {
            return None;
        },
    };
    let url: Vec<u8> = copy_range(s, u, e);
    let t: usize = spnl(s, e);
    match find_title_end(s, t) {
        Some(f) => {
            let title: Vec<u8> = copy_range(s, t, f);
            match finish_line(s, f) {
                Some(end) => Some(Definition { label, url, title, end }),
                None => match finish_line(s, e) {
                    Some(end) => Some(Definition { label, url, title, end }),
                    None => None,
                },
            }
        },
        None => match finish_line(s, e) {
            Some(end) => Some(Definition { label, url, title: Vec::new(), end }),
            None => None,
        },
    }
}

} // verus!
