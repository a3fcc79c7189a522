//! Operations on the bytes of a line or of a block's text.
use crate::ctype::{is_punct, is_space, ispunct, isspace};
use vstd::prelude::*;

verus! {

pub open spec fn line_end(c: u8) -> bool {
    c == 10 || c == 13
}

pub open spec fn space_or_tab(c: u8) -> bool {
    c == 9 || c == 32
}

pub fn is_line_end_char(c: u8) -> (r: bool)
    ensures
        r == line_end(c),
{
    c == 10 || c == 13
}

pub fn is_space_or_tab(c: u8) -> (r: bool)
    ensures
        r == space_or_tab(c),
{
    c == 9 || c == 32
}

/// The first index from `i` on that holds neither a space nor a tab.
pub open spec fn skip_blanks(s: Seq<u8>, i: int) -> int
    decreases s.len() - i,
{
    if 0 <= i < s.len() && space_or_tab(s[i]) {
        skip_blanks(s, i + 1)
    } else {
        i
    }
}

/// The first index from `i` on that does not hold `c`.
pub open spec fn skip_run(s: Seq<u8>, i: int, c: u8) -> int
    decreases s.len() - i,
{
    if 0 <= i < s.len() && s[i] == c {
        skip_run(s, i + 1, c)
    } else {
        i
    }
}

/// The first index from `i` on that holds no white space.
pub open spec fn skip_spaces(s: Seq<u8>, i: int) -> int
    decreases s.len() - i,
{
    if 0 <= i < s.len() && is_space(s[i]) {
        skip_spaces(s, i + 1)
    } else {
        i
    }
}

/// The first index from `i` on that ends a line, or the length.
pub open spec fn find_line_end(s: Seq<u8>, i: int) -> int
    decreases s.len() - i,
{
    if 0 <= i < s.len() && !line_end(s[i]) {
        find_line_end(s, i + 1)
    } else {
        i
    }
}

pub proof fn lemma_skip_blanks(s: Seq<u8>, i: int)
    requires
        0 <= i <= s.len(),
    ensures
        i <= skip_blanks(s, i) <= s.len(),
        forall|k: int| i <= k < skip_blanks(s, i) ==> space_or_tab(#[trigger] s[k]),
        skip_blanks(s, i) < s.len() ==> !space_or_tab(s[skip_blanks(s, i)]),
    decreases s.len() - i,
{
    if i < s.len() && space_or_tab(s[i]) {
        lemma_skip_blanks(s, i + 1);
    }
}

pub proof fn lemma_skip_run(s: Seq<u8>, i: int, c: u8)
    requires
        0 <= i <= s.len(),
    ensures
        i <= skip_run(s, i, c) <= s.len(),
        forall|k: int| i <= k < skip_run(s, i, c) ==> #[trigger] s[k] == c,
        skip_run(s, i, c) < s.len() ==> s[skip_run(s, i, c)] != c,
    decreases s.len() - i,
{
    if i < s.len() && s[i] == c {
        lemma_skip_run(s, i + 1, c);
    }
}

pub proof fn lemma_find_line_end(s: Seq<u8>, i: int)
    requires
        0 <= i <= s.len(),
    ensures
        i <= find_line_end(s, i) <= s.len(),
        forall|k: int| i <= k < find_line_end(s, i) ==> !line_end(#[trigger] s[k]),
        find_line_end(s, i) < s.len() ==> line_end(s[find_line_end(s, i)]),
    decreases s.len() - i,
{
    if i < s.len() && !line_end(s[i]) {
        lemma_find_line_end(s, i + 1);
    }
}

/// Skips spaces and tabs.
pub fn after_blanks(s: &[u8], start: usize) -> (r: usize)
    requires
        start <= s@.len(),
    ensures
        r == skip_blanks(s@, start as int),
        start <= r <= s@.len(),
{
    let mut i: usize = start;
    while i < s.len() && is_space_or_tab(s[i])
        invariant
            start <= i <= s@.len(),
            skip_blanks(s@, start as int) == skip_blanks(s@, i as int),
        decreases s@.len() - i,
    {
        i += 1;
    }
    i
}

/// Skips every `c`.
pub fn after_run(s: &[u8], start: usize, c: u8) -> (r: usize)
    requires
        start <= s@.len(),
    ensures
        r == skip_run(s@, start as int, c),
        start <= r <= s@.len(),
{
    let mut i: usize = start;
    while i < s.len() && s[i] == c
        invariant
            start <= i <= s@.len(),
            skip_run(s@, start as int, c) == skip_run(s@, i as int, c),
        decreases s@.len() - i,
    {
        i += 1;
    }
    i
}

/// Skips white space.
pub fn after_spaces(s: &[u8], start: usize) -> (r: usize)
    requires
        start <= s@.len(),
    ensures
        r == skip_spaces(s@, start as int),
        start <= r <= s@.len(),
{
    let mut i: usize = start;
    while i < s.len() && isspace(s[i])
        invariant
            start <= i <= s@.len(),
            skip_spaces(s@, start as int) == skip_spaces(s@, i as int),
        decreases s@.len() - i,
    {
        i += 1;
    }
    i
}

/// Finds the end of the line that `start` lies on.
pub fn line_end_from(s: &[u8], start: usize) -> (r: usize)
    requires
        start <= s@.len(),
    ensures
        r == find_line_end(s@, start as int),
        start <= r <= s@.len(),
{
    let mut i: usize = start;
    while i < s.len() && !is_line_end_char(s[i])
        invariant
            start <= i <= s@.len(),
            find_line_end(s@, start as int) == find_line_end(s@, i as int),
        decreases s@.len() - i,
    {
        i += 1;
    }
    i
}

/// Copies the bytes from `from` up to `to`.
pub fn copy_range(s: &[u8], from: usize, to: usize) -> (r: Vec<u8>)
    requires
        from <= to <= s@.len(),
    ensures
        r@ == s@.subrange(from as int, to as int),
{
    let mut r: Vec<u8> = Vec::new();
    let mut i: usize = from;
    while i < to
        invariant
            from <= i <= to <= s@.len(),
            r@ == s@.subrange(from as int, i as int),
        decreases to - i,
    {
        r.push(s[i]);
        i += 1;
    }
    r
}

/// Appends the bytes from `from` up to `to` of `s`.
pub fn push_range(v: &mut Vec<u8>, s: &[u8], from: usize, to: usize)
    requires
        from <= to <= s@.len(),
    ensures
        final(v)@ == old(v)@ + s@.subrange(from as int, to as int),
{
    let mut i: usize = from;
    while i < to
        invariant
            from <= i <= to <= s@.len(),
            v@ == old(v)@ + s@.subrange(from as int, i as int),
        decreases to - i,
    {
        v.push(s[i]);
        i += 1;
    }
}

/// Two byte strings hold the same bytes.
pub fn same_bytes(a: &[u8], b: &[u8]) -> (r: bool)
    ensures
        r == (a@ == b@),
{
    if a.len() != b.len() {
        return false;
    }
    let mut i: usize = 0;
    while i < a.len()
        invariant
            0 <= i <= a@.len(),
            a@.len() == b@.len(),
            forall|k: int| 0 <= k < i ==> a@[k] == b@[k],
        decreases a@.len() - i,
    {
        if a[i] != b[i] {
            return false;
        }
        i += 1;
    }
    assert(a@ =~= b@);
    true
}

/// `s` up to its last byte that is not white space.
pub open spec fn rtrimmed(s: Seq<u8>) -> Seq<u8>
    decreases s.len(),
{
    if s.len() > 0 && is_space(s.last()) {
        rtrimmed(s.drop_last())
    } else {
        s
    }
}

/// `s` without the white space at either end.
pub open spec fn trimmed(s: Seq<u8>) -> Seq<u8> {
    rtrimmed(s.skip(skip_spaces(s, 0)))
}

/// A text loses exactly the white space at its end.
pub proof fn law_rtrimmed(s: Seq<u8>)
    ensures
        rtrimmed(s).len() <= s.len(),
        rtrimmed(s) == s.take(rtrimmed(s).len() as int),
        rtrimmed(s).len() > 0 ==> !is_space(rtrimmed(s).last()),
        forall|k: int| rtrimmed(s).len() <= k < s.len() ==> is_space(#[trigger] s[k]),
    decreases s.len(),
{
    if s.len() > 0 && is_space(s.last()) {
        let d = s.drop_last();
        law_rtrimmed(d);
        assert(d.take(rtrimmed(d).len() as int) == s.take(rtrimmed(d).len() as int));
        assert forall|k: int| rtrimmed(s).len() <= k < s.len() implies is_space(
            #[trigger] s[k],
        ) by {
            if k < d.len() {
                assert(d[k] == s[k]);
            }
        }
    } else {
        assert(s.take(s.len() as int) == s);
    }
}

pub fn rtrim(v: &mut Vec<u8>)
    ensures
        final(v)@ == rtrimmed(old(v)@),
{
    while v.len() > 0 && isspace(v[v.len() - 1])
        invariant
            rtrimmed(v@) == rtrimmed(old(v)@),
        decreases v@.len(),
    {
        let ghost before = v@;
        v.pop();
        assert(v@ == before.drop_last());
    }
}

pub fn trim(v: &mut Vec<u8>)
    ensures
        final(v)@ == trimmed(old(v)@),
{
    let start: usize = after_spaces(v.as_slice(), 0);
    let rest: Vec<u8> = copy_range(v.as_slice(), start, v.len());
    assert(rest@ == old(v)@.skip(skip_spaces(old(v)@, 0)));
    *v = rest;
    rtrim(v);
}

/// The text is empty, or its first line holds nothing but spaces and tabs.
pub open spec fn blank_text(s: Seq<u8>) -> bool {
    skip_blanks(s, 0) >= s.len() || line_end(s[skip_blanks(s, 0)])
}

pub fn is_blank(s: &[u8]) -> (r: bool)
    ensures
        r == blank_text(s@),
{
    let i: usize = after_blanks(s, 0);
    i >= s.len() || is_line_end_char(s[i])
}

/// `s` up to the end of its trailing run of `#`, not counting that run.
pub open spec fn hashes_dropped(s: Seq<u8>) -> Seq<u8>
    decreases s.len(),
{
    if s.len() > 0 && s.last() == 35 {
        hashes_dropped(s.drop_last())
    } else {
        s
    }
}

/// A heading's line without the closing sequence: the trailing white space goes, and so does
/// a trailing run of `#` that a space or a tab precedes.
pub open spec fn hashtags_chopped(s: Seq<u8>) -> Seq<u8> {
    let t = rtrimmed(s);
    let h = hashes_dropped(t);
    if 0 < h.len() < t.len() && space_or_tab(h.last()) {
        rtrimmed(h.drop_last())
    } else {
        t
    }
}

pub proof fn lemma_hashes_dropped(s: Seq<u8>)
    ensures
        hashes_dropped(s).len() <= s.len(),
        hashes_dropped(s) == s.take(hashes_dropped(s).len() as int),
    decreases s.len(),
{
    if s.len() > 0 && s.last() == 35 {
        let d = s.drop_last();
        lemma_hashes_dropped(d);
        assert(d.take(hashes_dropped(d).len() as int) == s.take(hashes_dropped(d).len() as int));
    } else {
        assert(s.take(s.len() as int) == s);
    }
}

pub fn chop_trailing_hashtags(line: &mut Vec<u8>)
    ensures
        final(line)@ == hashtags_chopped(old(line)@),
{
    rtrim(line);
    let ghost t = line@;
    proof {
        lemma_hashes_dropped(t);
    }
    assert(t.take(t.len() as int) == t);
    let mut n: usize = line.len();
    while n > 0 && line[n - 1] == 35
        invariant
            n <= line@.len(),
            line@ == t,
            hashes_dropped(t.take(n as int)) == hashes_dropped(t),
        decreases n,
    {
        assert(t.take(n as int).drop_last() == t.take(n - 1));
        n -= 1;
    }
    assert(hashes_dropped(t) == t.take(n as int));
    if 0 < n && n < line.len() && is_space_or_tab(line[n - 1]) {
        line.truncate(n - 1);
        assert(line@ == t.take(n as int).drop_last());
        rtrim(line);
    }
}

/// `s` up to its last byte that is neither a space, a tab nor a line end.
pub open spec fn blanks_dropped(s: Seq<u8>) -> Seq<u8>
    decreases s.len(),
{
    if s.len() > 0 && (space_or_tab(s.last()) || line_end(s.last())) {
        blanks_dropped(s.drop_last())
    } else {
        s
    }
}

/// Everything up to the end of the last line that is not blank, without that line's end.
pub open spec fn blank_lines_dropped(s: Seq<u8>) -> Seq<u8> {
    let k = blanks_dropped(s).len();
    if k == 0 {
        Seq::empty()
    } else {
        s.take(find_line_end(s, k as int))
    }
}

pub fn remove_trailing_blank_lines(v: &mut Vec<u8>)
    ensures
        final(v)@ == blank_lines_dropped(old(v)@),
{
    let ghost s = v@;
    assert(s.take(s.len() as int) == s);
    let mut k: usize = v.len();
    while k > 0 && (is_space_or_tab(v[k - 1]) || is_line_end_char(v[k - 1]))
        invariant
            k <= v@.len(),
            v@ == s,
            blanks_dropped(s.take(k as int)) == blanks_dropped(s),
        decreases k,
    {
        assert(s.take(k as int).drop_last() == s.take(k - 1));
        k -= 1;
    }
    assert(blanks_dropped(s) == s.take(k as int));
    if k == 0 {
        v.clear();
    } else {
        let end: usize = line_end_from(v.as_slice(), k);
        v.truncate(end);
        assert(v@ == s.take(end as int));
    }
}

/// `s` with every backslash taken out that stands before a punctuation byte.
pub open spec fn unescaped(s: Seq<u8>) -> Seq<u8>
    decreases s.len(),
{
    if s.len() == 0 {
        s
    } else if s[0] == 92 && s.len() > 1 && is_punct(s[1]) {
        seq![s[1]] + unescaped(s.skip(2))
    } else {
        seq![s[0]] + unescaped(s.skip(1))
    }
}

pub fn unescape(v: &mut Vec<u8>)
    ensures
        final(v)@ == unescaped(old(v)@),
{
    let ghost s = v@;
    let mut r: Vec<u8> = Vec::new();
    let mut i: usize = 0;
    assert(s.skip(0) == s);
    while i < v.len()
        invariant
            i <= v@.len(),
            v@ == s,
            unescaped(s) == r@ + unescaped(s.skip(i as int)),
        decreases v@.len() - i,
    {
        let ghost t = s.skip(i as int);
        let ghost r0 = r@;
        if v[i] == 92 && v.len() - i > 1 && ispunct(v[i + 1]) {
            r.push(v[i + 1]);
            assert(t.skip(2) == s.skip(i + 2));
            assert(r@ + unescaped(t.skip(2)) == r0 + (seq![t[1]] + unescaped(t.skip(2))));
            i += 2;
        } else {
            r.push(v[i]);
            assert(t.skip(1) == s.skip(i + 1));
            assert(r@ + unescaped(t.skip(1)) == r0 + (seq![t[0]] + unescaped(t.skip(1))));
            i += 1;
        }
    }
    assert(r@ == unescaped(s));
    *v = r;
}

/// The text with every byte `c` replaced by `w`.
pub open spec fn byte_replaced(s: Seq<u8>, c: u8, w: Seq<u8>) -> Seq<u8>
    decreases s.len(),
{
    if s.len() == 0 {
        s
    } else {
        (if s[0] == c {
            w
        } else {
            seq![s[0]]
        }) + byte_replaced(s.skip(1), c, w)
    }
}

/// The text up to the first such byte stays.
pub proof fn lemma_byte_replaced(s: Seq<u8>, c: u8, w: Seq<u8>, e: int)
    requires
        0 <= e <= s.len(),
        forall|k: int| 0 <= k < e ==> s[k] != c,
    ensures
        byte_replaced(s, c, w) == s.take(e) + byte_replaced(s.skip(e), c, w),
    decreases e,
{
    if e == 0 {
        assert(s.skip(0) =~= s);
        assert(byte_replaced(s, c, w) =~= s.take(0) + byte_replaced(s.skip(0), c, w));
    } else {
        let t = s.skip(1);
        assert(forall|k: int| 0 <= k < e - 1 ==> t[k] == s[k + 1]);
        lemma_byte_replaced(t, c, w, e - 1);
        assert(t.skip(e - 1) =~= s.skip(e));
        assert(byte_replaced(s, c, w) =~= s.take(e) + byte_replaced(s.skip(e), c, w));
    }
}

/// White space of any kind.
pub open spec fn white_space(s: Seq<u8>) -> bool {
    forall|k: int| 0 <= k < s.len() ==> 9 <= #[trigger] s[k] <= 13 || s[k] == 32
}

/// Neither end of the text is white space.
pub open spec fn trim_ended(s: Seq<u8>) -> bool {
    s.len() > 0 ==> {
        &&& !(9 <= s[0] <= 13 || s[0] == 32)
        &&& !(9 <= s.last() <= 13 || s.last() == 32)
    }
}

proof fn lemma_rtrimmed_is(s: Seq<u8>, w: Seq<u8>)
    requires
        white_space(w),
        s.len() > 0 ==> !is_space(s.last()),
    ensures
        rtrimmed(s + w) == s,
    decreases w.len(),
{
    let t = s + w;
    if w.len() > 0 {
        assert(t.last() == w[w.len() - 1]);
        assert(t.drop_last() =~= s + w.drop_last());
        assert forall|k: int| 0 <= k < w.len() - 1 implies 9 <= #[trigger] w.drop_last()[k] <= 13
            || w.drop_last()[k] == 32 by {
            assert(w.drop_last()[k] == w[k]);
        }
        lemma_rtrimmed_is(s, w.drop_last());
    } else {
        assert(t =~= s);
    }
}

proof fn lemma_skip_spaces_is(s: Seq<u8>, i: int, j: int)
    requires
        0 <= i <= j <= s.len(),
        forall|k: int| i <= k < j ==> is_space(#[trigger] s[k]),
        j < s.len() ==> !is_space(s[j]),
    ensures
        skip_spaces(s, i) == j,
    decreases j - i,
{
    if i < j {
        assert(is_space(s[i]));
        lemma_skip_spaces_is(s, i + 1, j);
    }
}

/// A text loses the white space at either end, and nothing else.
pub proof fn law_trimmed(a: Seq<u8>, s: Seq<u8>, b: Seq<u8>)
    requires
        white_space(a),
        white_space(b),
        trim_ended(s),
    ensures
        trimmed(a + s + b) == s,
        rtrimmed(s + b) == s,
{
    let t = a + s + b;
    lemma_rtrimmed_is(s, b);
    if s.len() == 0 {
        assert forall|k: int| 0 <= k < t.len() implies is_space(#[trigger] t[k]) by {
            if k < a.len() {
                assert(t[k] == a[k]);
            } else {
                assert(t[k] == b[k - a.len()]);
            }
        }
        lemma_skip_spaces_is(t, 0, t.len() as int);
        assert(t.skip(t.len() as int) =~= s);
        assert(s + Seq::<u8>::empty() =~= s);
        lemma_rtrimmed_is(s, Seq::empty());
    } else {
        assert forall|k: int| 0 <= k < a.len() implies is_space(#[trigger] t[k]) by {
            assert(t[k] == a[k]);
        }
        assert(t[a.len() as int] == s[0]);
        lemma_skip_spaces_is(t, 0, a.len() as int);
        assert(t.skip(a.len() as int) =~= s + b);
    }
}

/// A text counts as blank if nothing but spaces and tabs comes before its first line end, or at
/// all.
pub proof fn law_blank_text(s: Seq<u8>, n: int)
    requires
        0 <= n <= s.len(),
        forall|k: int| 0 <= k < n ==> #[trigger] s[k] == 32 || s[k] == 9,
        n < s.len() ==> s[n] != 32 && s[n] != 9,
    ensures
        blank_text(s) == (n == s.len() || s[n] == 10 || s[n] == 13),
{
    lemma_skip_blanks(s, 0);
    let j = skip_blanks(s, 0);
    if j < n {
        assert(s[j] == 32 || s[j] == 9);
    }
    if n < j {
        assert(space_or_tab(s[n]));
    }
}

proof fn lemma_hashes_are(s: Seq<u8>, h: Seq<u8>)
    requires
        s.len() > 0 ==> s.last() != 35,
        forall|k: int| 0 <= k < h.len() ==> #[trigger] h[k] == 35,
    ensures
        hashes_dropped(s + h) == s,
    decreases h.len(),
{
    let t = s + h;
    if h.len() > 0 {
        assert(t.last() == h[h.len() - 1]);
        assert(t.drop_last() =~= s + h.drop_last());
        lemma_hashes_are(s, h.drop_last());
    } else {
        assert(t =~= s);
    }
}

/// A run of number signs at the end of a heading's line closes it, where white space comes before
/// it: both go, and so does the white space behind it.
pub proof fn law_closing_hashes(x: Seq<u8>, a: Seq<u8>, h: Seq<u8>, b: Seq<u8>)
    requires
        x.len() > 0 ==> !is_space(x.last()),
        white_space(a),
        white_space(b),
        a.len() > 0,
        a.last() == 32 || a.last() == 9,
        h.len() > 0,
        forall|k: int| 0 <= k < h.len() ==> #[trigger] h[k] == 35,
    ensures
        hashtags_chopped(x + a + h + b) == x,
{
    let s = x + a;
    let t = s + h;
    assert(t.last() == h[h.len() - 1]);
    lemma_rtrimmed_is(t, b);
    assert(s.last() == a.last());
    lemma_hashes_are(s, h);
    let d = a.drop_last();
    assert forall|k: int| 0 <= k < d.len() implies 9 <= #[trigger] d[k] <= 13 || d[k] == 32 by {
        assert(d[k] == a[k]);
    }
    assert(s.drop_last() =~= x + d);
    lemma_rtrimmed_is(x, d);
}

/// Number signs that directly follow another byte are part of the heading's text, and so is any
/// text that does not end in one: only the white space behind it goes.
pub proof fn law_hashes_kept(x: Seq<u8>, h: Seq<u8>, b: Seq<u8>)
    requires
        x.len() > 0 ==> !is_space(x.last()) && x.last() != 35,
        white_space(b),
        forall|k: int| 0 <= k < h.len() ==> #[trigger] h[k] == 35,
    ensures
        hashtags_chopped(x + h + b) == x + h,
{
    let t = x + h;
    if h.len() > 0 {
        assert(t.last() == h[h.len() - 1]);
    } else {
        assert(t =~= x);
    }
    lemma_rtrimmed_is(t, b);
    lemma_hashes_are(x, h);
}

proof fn lemma_blanks_dropped_is(s: Seq<u8>, w: Seq<u8>)
    requires
        s.len() > 0 ==> !(space_or_tab(s.last()) || line_end(s.last())),
        forall|k: int|
            0 <= k < w.len() ==> #[trigger] w[k] == 32 || w[k] == 9 || w[k] == 10 || w[k] == 13,
    ensures
        blanks_dropped(s + w) == s,
    decreases w.len(),
{
    let t = s + w;
    if w.len() > 0 {
        assert(t.last() == w[w.len() - 1]);
        assert(t.drop_last() =~= s + w.drop_last());
        lemma_blanks_dropped_is(s, w.drop_last());
    } else {
        assert(t =~= s);
    }
}

proof fn lemma_find_line_end_is(s: Seq<u8>, i: int, j: int)
    requires
        0 <= i <= j < s.len(),
        forall|k: int| i <= k < j ==> !line_end(#[trigger] s[k]),
        line_end(s[j]),
    ensures
        find_line_end(s, i) == j,
    decreases j - i,
{
    if i < j {
        assert(!line_end(s[i]));
        lemma_find_line_end_is(s, i + 1, j);
    }
}

/// Blank lines at the end go, and nothing else: `s` ends in a line that is not blank, whose last
/// byte that is no space or tab is `s[k]`, and which keeps the white space behind that.
pub proof fn law_blank_lines_dropped(s: Seq<u8>, k: int, w: Seq<u8>)
    requires
        0 <= k < s.len(),
        s[k] != 32 && s[k] != 9 && s[k] != 10 && s[k] != 13,
        forall|m: int| k < m < s.len() ==> #[trigger] s[m] == 32 || s[m] == 9,
        w.len() > 0,
        w[0] == 10 || w[0] == 13,
        forall|m: int|
            0 <= m < w.len() ==> #[trigger] w[m] == 32 || w[m] == 9 || w[m] == 10 || w[m] == 13,
    ensures
        blank_lines_dropped(s + w) == s,
{
    let t = s + w;
    let head = s.take(k + 1);
    let tail = s.skip(k + 1) + w;
    assert(t =~= head + tail);
    assert(head.last() == s[k]);
    assert forall|m: int| 0 <= m < tail.len() implies #[trigger] tail[m] == 32 || tail[m] == 9
        || tail[m] == 10 || tail[m] == 13 by {
        if m < s.len() - k - 1 {
            assert(tail[m] == s[k + 1 + m]);
        } else {
            assert(tail[m] == w[m - (s.len() - k - 1)]);
        }
    }
    lemma_blanks_dropped_is(head, tail);
    assert(t[s.len() as int] == w[0]);
    assert forall|m: int| k + 1 <= m < s.len() implies !line_end(#[trigger] t[m]) by {
        assert(t[m] == s[m]);
    }
    lemma_find_line_end_is(t, k + 1, s.len() as int);
    assert(t.take(s.len() as int) =~= s);
}

/// Of blank lines alone, nothing is left.
pub proof fn law_only_blank_lines(w: Seq<u8>)
    requires
        forall|m: int|
            0 <= m < w.len() ==> #[trigger] w[m] == 32 || w[m] == 9 || w[m] == 10 || w[m] == 13,
    ensures
        blank_lines_dropped(w).len() == 0,
{
    lemma_blanks_dropped_is(Seq::empty(), w);
    assert(Seq::<u8>::empty() + w =~= w);
}

/// A text without backslashes holds no escapes.
pub proof fn law_nothing_escaped(s: Seq<u8>)
    requires
        forall|k: int| 0 <= k < s.len() ==> #[trigger] s[k] != 92,
    ensures
        unescaped(s) == s,
    decreases s.len(),
{
    if s.len() > 0 {
        law_nothing_escaped(s.skip(1));
        assert(seq![s[0]] + s.skip(1) =~= s);
    }
}

/// A backslash before punctuation goes, and what follows it stays, even if that is a backslash. A
/// backslash before anything else stays, and so does one at the end.
pub proof fn law_unescaped(a: Seq<u8>, c: u8, b: Seq<u8>)
    requires
        forall|k: int| 0 <= k < a.len() ==> #[trigger] a[k] != 92,
    ensures
        is_punct(c) ==> unescaped(a + seq![92u8, c] + b) == a + seq![c] + unescaped(b),
        !is_punct(c) ==> unescaped(a + seq![92u8, c] + b) == a + seq![92u8, c] + unescaped(b),
        unescaped(a + seq![92u8]) == a + seq![92u8],
    decreases a.len(),
{
    let s = a + seq![92u8, c] + b;
    let u = a + seq![92u8];
    if a.len() == 0 {
        assert(s[0] == 92 && s[1] == c);
        assert(s.skip(2) =~= b);
        let t = s.skip(1);
        assert(t[0] == c);
        assert(t.skip(1) =~= b);
        if is_punct(c) {
            assert(seq![c] + unescaped(b) =~= a + seq![c] + unescaped(b));
        } else {
            assert(unescaped(t) =~= seq![c] + unescaped(b));
            assert(unescaped(s) =~= a + seq![92u8, c] + unescaped(b));
        }
        assert(u.skip(1) =~= Seq::<u8>::empty());
        assert(unescaped(u.skip(1)) =~= Seq::<u8>::empty());
        assert(unescaped(u) =~= u);
    } else {
        let rest = a.skip(1);
        assert forall|k: int| 0 <= k < rest.len() implies #[trigger] rest[k] != 92 by {
            assert(rest[k] == a[k + 1]);
        }
        law_unescaped(rest, c, b);
        assert(s[0] == a[0] && u[0] == a[0]);
        assert(s.skip(1) =~= rest + seq![92u8, c] + b);
        assert(u.skip(1) =~= rest + seq![92u8]);
        if is_punct(c) {
            assert(unescaped(s) =~= a + seq![c] + unescaped(b));
        } else {
            assert(unescaped(s) =~= a + seq![92u8, c] + unescaped(b));
        }
        assert(unescaped(u) =~= u);
    }
}

} // verus!
