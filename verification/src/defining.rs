//! How a link reference definition is written.
use crate::ctype::{is_punct, is_space};
use crate::references::{
    after_line_end, angle_close, definition, destination_end, destination_stop, escape_width,
    label_close, line_finished, spaces_and_newline, title_close, title_end,
};
use crate::starting::{all_blank, lemma_blanks_are};
use crate::strings::{lemma_skip_blanks, skip_blanks, trimmed};
use vstd::prelude::*;

verus! {

/// Text that a link label may hold as it stands.
pub open spec fn label_text(s: Seq<u8>) -> bool {
    forall|k: int| 0 <= k < s.len() ==> #[trigger] s[k] != 91 && s[k] != 92 && s[k] != 93
}

/// White space within a definition: spaces and tabs, with at most one line feed among them.
pub open spec fn gap(w: Seq<u8>) -> bool {
    exists|m: int| #[trigger] parted(w, m)
}

/// The white space has its line feed, if it has one, at `m`.
pub open spec fn parted(w: Seq<u8>, m: int) -> bool {
    &&& 0 <= m <= w.len()
    &&& all_blank(w, 0, m)
    &&& m < w.len() ==> w[m] == 10
    &&& all_blank(w, m + 1, w.len() as int)
}

/// A link destination that needs no angle brackets, without parentheses and escapes.
pub open spec fn plain_destination(s: Seq<u8>) -> bool {
    &&& s.len() > 0
    &&& s[0] != 60
    &&& forall|k: int|
        0 <= k < s.len() ==> !(9 <= #[trigger] s[k] <= 13) && s[k] != 32 && s[k] != 40 && s[k]
            != 41 && s[k] != 92
}

/// A link destination in angle brackets, without escapes.
pub open spec fn angle_destination(s: Seq<u8>) -> bool {
    &&& s.len() > 1
    &&& s[0] == 60
    &&& s.last() == 62
    &&& forall|k: int|
        0 < k < s.len() - 1 ==> !(9 <= #[trigger] s[k] <= 13) && s[k] != 32 && s[k] != 62 && s[k]
            != 92
}

/// A title with its delimiters, without escapes.
pub open spec fn plain_title(s: Seq<u8>) -> bool {
    &&& s.len() > 1
    &&& s[0] == 34 && s.last() == 34 || s[0] == 39 && s.last() == 39 || s[0] == 40 && s.last()
        == 41
    &&& forall|k: int|
        0 < k < s.len() - 1 ==> #[trigger] s[k] != 0 && s[k] != 92 && s[k] != s[0] && s[k]
            != s.last()
}

/// The text `w` stands at `i`.
pub open spec fn stands_at(s: Seq<u8>, i: int, w: Seq<u8>) -> bool {
    &&& 0 <= i
    &&& i + w.len() <= s.len()
    &&& forall|k: int| 0 <= k < w.len() ==> s[i + k] == #[trigger] w[k]
}

proof fn lemma_label_close(s: Seq<u8>, i: int, e: int, limit: int)
    requires
        0 <= i <= e < s.len(),
        e <= limit,
        forall|k: int| i <= k < e ==> #[trigger] s[k] != 91 && s[k] != 92 && s[k] != 93,
        s[e] == 93,
    ensures
        label_close(s, i, limit) == Some(e),
    decreases e - i,
{
    if i < e {
        assert(s[i] != 91);
        lemma_label_close(s, i + 1, e, limit);
    }
}

proof fn lemma_label_too_long(s: Seq<u8>, i: int, limit: int)
    requires
        0 <= i <= limit < s.len(),
        forall|k: int| i <= k <= limit ==> #[trigger] s[k] != 92 && s[k] != 93,
    ensures
        label_close(s, i, limit) is None,
    decreases limit - i,
{
    assert(s[i] != 93);
    if i < limit && s[i] != 91 {
        lemma_label_too_long(s, i + 1, limit);
    }
}

proof fn lemma_label_opened_again(s: Seq<u8>, i: int, e: int, limit: int)
    requires
        0 <= i <= e < s.len(),
        forall|k: int| i <= k < e ==> #[trigger] s[k] != 91 && s[k] != 92 && s[k] != 93,
        s[e] == 91,
    ensures
        label_close(s, i, limit) is None,
    decreases e - i,
{
    if i < e {
        assert(s[i] != 93);
        lemma_label_opened_again(s, i + 1, e, limit);
    }
}

proof fn lemma_destination(s: Seq<u8>, i: int, w: Seq<u8>, k: int)
    requires
        stands_at(s, i, w),
        plain_destination(w),
        0 <= k <= w.len(),
        i + w.len() < s.len(),
        is_space(s[i + w.len()]),
    ensures
        destination_stop(s, i + k, 0) == i + w.len(),
    decreases w.len() - k,
{
    if k < w.len() {
        assert(s[i + k] == w[k]);
        lemma_destination(s, i, w, k + 1);
    }
}

proof fn lemma_angle(s: Seq<u8>, i: int, w: Seq<u8>, k: int)
    requires
        stands_at(s, i, w),
        angle_destination(w),
        0 < k < w.len(),
    ensures
        angle_close(s, i + k) == Some(i + w.len()),
    decreases w.len() - k,
{
    assert(s[i + k] == w[k]);
    if k < w.len() - 1 {
        lemma_angle(s, i, w, k + 1);
    }
}

proof fn lemma_title(s: Seq<u8>, i: int, w: Seq<u8>, k: int)
    requires
        stands_at(s, i, w),
        plain_title(w),
        0 < k < w.len(),
    ensures
        title_close(s, i + k, w[0]) == Some(i + w.len()),
    decreases w.len() - k,
{
    assert(s[i + k] == w[k]);
    if k < w.len() - 1 {
        assert(escape_width(s, i + k) == 1);
        lemma_title(s, i, w, k + 1);
    }
}

/// White space with at most one line feed leads from `i` to `j`.
proof fn lemma_gap(s: Seq<u8>, i: int, w: Seq<u8>)
    requires
        stands_at(s, i, w),
        gap(w),
        i + w.len() < s.len(),
        ({
            let c = s[i + w.len()];
            c != 32 && c != 9 && c != 10 && c != 13
        }),
    ensures
        spaces_and_newline(s, i) == i + w.len(),
{
    let m = choose|m: int| #[trigger] parted(w, m);
    let j = i + w.len();
    assert forall|k: int| i <= k < i + m implies #[trigger] s[k] == 32 || s[k] == 9 by {
        assert(s[i + (k - i)] == w[k - i]);
    }
    if m < w.len() {
        assert(s[i + m] == w[m]);
    }
    lemma_blanks_are(s, i, i + m);
    if m < w.len() {
        assert forall|k: int| i + m + 1 <= k < j implies #[trigger] s[k] == 32 || s[k] == 9 by {
            assert(s[i + (k - i)] == w[k - i]);
        }
        lemma_blanks_are(s, i + m + 1, j);
    }
}

/// A line feed that only spaces and tabs precede finishes the line.
proof fn lemma_finished(s: Seq<u8>, i: int, w: Seq<u8>)
    requires
        stands_at(s, i, w),
        all_blank(w, 0, w.len() as int),
        i + w.len() < s.len(),
        s[i + w.len()] == 10,
    ensures
        line_finished(s, i) == Some(i + w.len() + 1),
{
    assert forall|k: int| i <= k < i + w.len() implies #[trigger] s[k] == 32 || s[k] == 9 by {
        assert(s[i + (k - i)] == w[k - i]);
    }
    lemma_blanks_are(s, i, i + w.len());
}

/// The label and the destination of a definition are read.
#[verifier::rlimit(50)]
proof fn lemma_head(s: Seq<u8>, label: Seq<u8>, space: Seq<u8>, url: Seq<u8>)
    requires
        stands_at(s, 0, seq![91u8] + label + seq![93u8, 58u8] + space + url),
        label_text(label),
        label.len() <= 1000,
        gap(space),
        plain_destination(url) || angle_destination(url),
        ({
            let e = label.len() + space.len() + url.len() + 3int;
            e < s.len() && is_space(s[e])
        }),
    ensures
        ({
            let n = label.len() as int;
            let u = n + space.len() + 3;
            &&& s[0] == 91
            &&& label_close(s, 1, 1001) == Some(n + 1)
            &&& s[n + 2] == 58
            &&& s.subrange(1, n + 1) == label
            &&& spaces_and_newline(s, n + 3) == u
            &&& destination_end(s, u) == Some(u + url.len())
            &&& s.subrange(u, u + url.len()) == url
        }),
{
    let h = seq![91u8] + label + seq![93u8, 58u8] + space + url;
    let n = label.len() as int;
    let u = n + space.len() + 3;
    let e = u + url.len();
    assert(s[0] == h[0]);
    assert forall|k: int| 1 <= k < n + 1 implies #[trigger] s[k] != 91 && s[k] != 92 && s[k]
        != 93 by {
        assert(s[0 + k] == h[k]);
        assert(h[k] == label[k - 1]);
    }
    assert(s[0 + (n + 1)] == h[n + 1]);
    assert(s[0 + (n + 2)] == h[n + 2]);
    lemma_label_close(s, 1, n + 1, 1001);
    assert forall|k: int| 0 <= k < label.len() implies s.subrange(1, n + 1)[k] == label[k] by {
        assert(s[0 + (k + 1)] == h[k + 1]);
    }
    assert(s.subrange(1, n + 1) =~= label);
    assert(stands_at(s, n + 3, space)) by {
        assert forall|k: int| 0 <= k < space.len() implies s[n + 3 + k] == #[trigger] space[k] by {
            assert(s[0 + (n + 3 + k)] == h[n + 3 + k]);
        }
    }
    assert(stands_at(s, u, url)) by {
        assert forall|k: int| 0 <= k < url.len() implies s[u + k] == #[trigger] url[k] by {
            assert(s[0 + (u + k)] == h[u + k]);
        }
    }
    assert(s[u + 0] == url[0]);
    assert(url[0] != 32 && url[0] != 9 && url[0] != 10 && url[0] != 13);
    lemma_gap(s, n + 3, space);
    if plain_destination(url) {
        lemma_destination(s, u, url, 0);
    } else {
        lemma_angle(s, u, url, 1);
    }
    assert(s.subrange(u, e) =~= url);
}

/// A label in brackets, a colon and a destination make a definition, where nothing follows on the
/// line, and no title on the next one. The label is at most a thousand bytes long and not blank.
#[verifier::rlimit(50)]
pub proof fn law_definition_without_title(
    label: Seq<u8>,
    space: Seq<u8>,
    url: Seq<u8>,
    trail: Seq<u8>,
    rest: Seq<u8>,
)
    requires
        label_text(label),
        trimmed(label).len() > 0,
        label.len() <= 1000,
        gap(space),
        plain_destination(url) || angle_destination(url),
        all_blank(trail, 0, trail.len() as int),
        rest.len() > 0 ==> rest[0] != 32 && rest[0] != 9 && rest[0] != 34 && rest[0] != 39
            && rest[0] != 40,
    ensures
        ({
            let written = seq![91u8] + label + seq![93u8, 58u8] + space + url + trail + seq![10u8];
            definition(written + rest) matches Some(d) && d.label == trimmed(label) && d.url
                == url && d.title.len() == 0 && d.end == written.len()
        }),
{
    let head = seq![91u8] + label + seq![93u8, 58u8] + space + url;
    let written = head + trail + seq![10u8];
    let s = written + rest;
    let e = head.len() as int;
    let end = written.len() as int;
    assert(stands_at(s, 0, head)) by {
        assert forall|k: int| 0 <= k < head.len() implies s[0 + k] == #[trigger] head[k] by {}
    }
    assert(stands_at(s, e, trail)) by {
        assert forall|k: int| 0 <= k < trail.len() implies s[e + k] == #[trigger] trail[k] by {}
    }
    assert(s[e + trail.len()] == 10);
    if trail.len() > 0 {
        assert(s[e + 0] == trail[0]);
    }
    lemma_head(s, label, space, url);
    lemma_finished(s, e, trail);
    if rest.len() > 0 {
        assert(s[end] == rest[0]);
    }
    assert(skip_blanks(s, e) == end - 1) by {
        assert forall|k: int| e <= k < end - 1 implies #[trigger] s[k] == 32 || s[k] == 9 by {
            assert(s[e + (k - e)] == trail[k - e]);
        }
        lemma_blanks_are(s, e, end - 1);
    }
    let t = spaces_and_newline(s, e);
    assert(t == end);
    assert(title_end(s, t) is None);
}

/// The same with a title behind the destination, on the same line or on the next one.
#[verifier::rlimit(50)]
pub proof fn law_definition_with_title(
    label: Seq<u8>,
    space: Seq<u8>,
    url: Seq<u8>,
    between: Seq<u8>,
    title: Seq<u8>,
    trail: Seq<u8>,
    rest: Seq<u8>,
)
    requires
        label_text(label),
        trimmed(label).len() > 0,
        label.len() <= 1000,
        gap(space),
        plain_destination(url) || angle_destination(url),
        gap(between),
        between.len() > 0,
        plain_title(title),
        all_blank(trail, 0, trail.len() as int),
    ensures
        ({
            let head = seq![91u8] + label + seq![93u8, 58u8] + space + url;
            let written = head + between + title + trail + seq![10u8];
            definition(written + rest) matches Some(d) && d.label == trimmed(label) && d.url
                == url && d.title == title && d.end == written.len()
        }),
{
    let head = seq![91u8] + label + seq![93u8, 58u8] + space + url;
    let written = head + between + title + trail + seq![10u8];
    let s = written + rest;
    let e = head.len() as int;
    let t = e + between.len();
    let f = t + title.len();
    assert(stands_at(s, 0, head)) by {
        assert forall|k: int| 0 <= k < head.len() implies s[0 + k] == #[trigger] head[k] by {}
    }
    assert(stands_at(s, e, between)) by {
        assert forall|k: int| 0 <= k < between.len() implies s[e + k] == #[trigger] between[
            k
        ] by {}
    }
    assert(stands_at(s, t, title)) by {
        assert forall|k: int| 0 <= k < title.len() implies s[t + k] == #[trigger] title[k] by {}
    }
    assert(stands_at(s, f, trail)) by {
        assert forall|k: int| 0 <= k < trail.len() implies s[f + k] == #[trigger] trail[k] by {}
    }
    assert(s[f + trail.len()] == 10);
    let m = choose|m: int| #[trigger] parted(between, m);
    assert(s[e + 0] == between[0]);
    assert(is_space(s[e]));
    lemma_head(s, label, space, url);
    assert(s[t + 0] == title[0]);
    lemma_gap(s, e, between);
    lemma_title(s, t, title, 1);
    assert(s.subrange(t, f) =~= title);
    lemma_finished(s, f, trail);
}

/// No definition starts with anything but a bracket, nor has a label with an opening bracket in
/// it, nor a blank one, nor anything but a colon behind the label.
pub proof fn law_no_definition(label: Seq<u8>, rest: Seq<u8>)
    requires
        label_text(label),
        rest.len() > 0,
    ensures
        rest[0] != 91 ==> definition(rest) is None,
        rest[0] == 91 ==> definition(seq![91u8] + label + rest) is None,
        trimmed(label).len() == 0 ==> definition(seq![91u8] + label + seq![93u8] + rest) is None,
        rest[0] != 58 ==> definition(seq![91u8] + label + seq![93u8] + rest) is None,
        definition(seq![91u8] + label + seq![93u8]) is None,
        label.len() > 1000 ==> definition(seq![91u8] + label + rest) is None,
{
    let n = label.len() as int;
    let a = seq![91u8] + label + rest;
    let b = seq![91u8] + label + seq![93u8] + rest;
    let c = seq![91u8] + label + seq![93u8];
    assert forall|k: int| 1 <= k < n + 1 implies a[k] == #[trigger] label[k - 1] && b[k] == label[k
        - 1] && c[k] == label[k - 1] by {}
    assert(a[n + 1] == rest[0]);
    assert(b[n + 2] == rest[0]);
    if label.len() > 1000 {
        assert forall|k: int| 1 <= k <= 1001 implies #[trigger] a[k] != 92 && a[k] != 93 by {
            assert(a[k] == label[k - 1]);
        }
        assert forall|k: int| 1 <= k <= 1001 implies #[trigger] b[k] != 92 && b[k] != 93 by {
            assert(b[k] == label[k - 1]);
        }
        assert forall|k: int| 1 <= k <= 1001 implies #[trigger] c[k] != 92 && c[k] != 93 by {
            assert(c[k] == label[k - 1]);
        }
        lemma_label_too_long(a, 1, 1001);
        lemma_label_too_long(b, 1, 1001);
        lemma_label_too_long(c, 1, 1001);
    } else {
        assert forall|k: int| 1 <= k < n + 1 implies #[trigger] b[k] != 91 && b[k] != 92 && b[k]
            != 93 by {
            assert(b[k] == label[k - 1]);
        }
        assert forall|k: int| 1 <= k < n + 1 implies #[trigger] c[k] != 91 && c[k] != 92 && c[k]
            != 93 by {
            assert(c[k] == label[k - 1]);
        }
        lemma_label_close(b, 1, n + 1, 1001);
        lemma_label_close(c, 1, n + 1, 1001);
        assert(b.subrange(1, n + 1) =~= label);
        if rest[0] == 91 {
            assert forall|k: int| 1 <= k < n + 1 implies #[trigger] a[k] != 91 && a[k] != 92
                && a[k] != 93 by {
                assert(a[k] == label[k - 1]);
            }
            lemma_label_opened_again(a, 1, n + 1, 1001);
        }
    }
}

/// Where text follows the title on the line of the destination, there is no definition.
#[verifier::rlimit(50)]
pub proof fn law_text_behind_title(
    label: Seq<u8>,
    space: Seq<u8>,
    url: Seq<u8>,
    between: Seq<u8>,
    title: Seq<u8>,
    rest: Seq<u8>,
)
    requires
        label_text(label),
        trimmed(label).len() > 0,
        label.len() <= 1000,
        gap(space),
        plain_destination(url) || angle_destination(url),
        all_blank(between, 0, between.len() as int),
        between.len() > 0,
        plain_title(title),
        rest.len() > 0,
        rest[0] != 32 && rest[0] != 9 && rest[0] != 10 && rest[0] != 13,
    ensures
        definition(
            seq![91u8] + label + seq![93u8, 58u8] + space + url + between + title + rest,
        ) is None,
{
    let head = seq![91u8] + label + seq![93u8, 58u8] + space + url;
    let e = head.len() as int;
    let n = between.len() as int;
    let s = head + between + title + rest;
    assert(between[0] == 32 || between[0] == 9);
    assert(parted(between, n));
    assert(stands_at(s, 0, head)) by {
        assert forall|k: int| 0 <= k < head.len() implies s[0 + k] == #[trigger] head[k] by {}
    }
    assert(stands_at(s, e, between)) by {
        assert forall|k: int| 0 <= k < n implies s[e + k] == #[trigger] between[k] by {}
    }
    assert(stands_at(s, e + n, title)) by {
        assert forall|k: int| 0 <= k < title.len() implies s[e + n + k] == #[trigger] title[
            k
        ] by {}
    }
    assert(s[e + 0] == between[0]);
    assert(s[e + n + 0] == title[0]);
    lemma_head(s, label, space, url);
    lemma_gap(s, e, between);
    lemma_title(s, e + n, title, 1);
    let f = e + n + title.len();
    assert(s[f] == rest[0]);
    assert forall|k: int| e <= k < e + n implies #[trigger] s[k] == 32 || s[k] == 9 by {
        assert(s[e + (k - e)] == between[k - e]);
    }
    lemma_blanks_are(s, e, e + n);
    lemma_blanks_are(s, f, f);
    assert(line_finished(s, f) is None);
    assert(line_finished(s, e) is None);
}

/// Where text follows the title on the line behind that of the destination, the definition ends
/// with the line of the destination.
#[verifier::rlimit(50)]
pub proof fn law_text_behind_title_below(
    label: Seq<u8>,
    space: Seq<u8>,
    url: Seq<u8>,
    between: Seq<u8>,
    title: Seq<u8>,
    rest: Seq<u8>,
)
    requires
        label_text(label),
        trimmed(label).len() > 0,
        label.len() <= 1000,
        gap(space),
        plain_destination(url) || angle_destination(url),
        all_blank(between, 0, between.len() as int),
        plain_title(title),
        rest.len() > 0,
        rest[0] != 32 && rest[0] != 9 && rest[0] != 10 && rest[0] != 13,
    ensures
        ({
            let line = seq![91u8] + label + seq![93u8, 58u8] + space + url + between + seq![10u8];
            definition(line + title + rest) matches Some(d) && d.label == trimmed(label) && d.url
                == url && d.end == line.len()
        }),
{
    let head = seq![91u8] + label + seq![93u8, 58u8] + space + url;
    let e = head.len() as int;
    let n = between.len() as int;
    let line = head + between + seq![10u8];
    let r = line + title + rest;
    let w = between + seq![10u8];
    assert(parted(w, n)) by {
        assert forall|k: int| 0 <= k < n implies #[trigger] w[k] == 32 || w[k] == 9 by {
            assert(w[k] == between[k]);
        }
    }
    assert(stands_at(r, 0, head)) by {
        assert forall|k: int| 0 <= k < head.len() implies r[0 + k] == #[trigger] head[k] by {}
    }
    assert(stands_at(r, e, between)) by {
        assert forall|k: int| 0 <= k < n implies r[e + k] == #[trigger] between[k] by {}
    }
    assert(stands_at(r, e, w)) by {
        assert forall|k: int| 0 <= k < w.len() implies r[e + k] == #[trigger] w[k] by {}
    }
    assert(stands_at(r, e + n + 1, title)) by {
        assert forall|k: int| 0 <= k < title.len() implies r[e + n + 1 + k] == #[trigger] title[
            k
        ] by {}
    }
    assert(r[e + 0] == w[0]);
    assert(w[0] == 32 || w[0] == 9 || w[0] == 10);
    assert(r[e + n + 1 + 0] == title[0]);
    lemma_head(r, label, space, url);
    lemma_gap(r, e, w);
    lemma_title(r, e + n + 1, title, 1);
    let f = e + n + 1 + title.len();
    assert(r[f] == rest[0]);
    lemma_blanks_are(r, f, f);
    assert(line_finished(r, f) is None);
    assert(r[e + n] == 10);
    lemma_finished(r, e, between);
}

/// The bytes from `i` up to `j` mean nothing within a link label.
proof fn lemma_label_goes_on(s: Seq<u8>, i: int, j: int, limit: int)
    requires
        0 <= i <= j < s.len(),
        j <= limit,
        forall|k: int| i <= k < j ==> #[trigger] s[k] != 91 && s[k] != 92 && s[k] != 93,
    ensures
        label_close(s, i, limit) == label_close(s, j, limit),
    decreases j - i,
{
    if i < j {
        assert(s[i] != 91);
        lemma_label_goes_on(s, i + 1, j, limit);
    }
}

/// A bracket behind a backslash does not close a link label, nor open another one.
pub proof fn law_escaped_in_label(a: Seq<u8>, c: u8, b: Seq<u8>, rest: Seq<u8>)
    requires
        label_text(a),
        label_text(b),
        is_punct(c),
        a.len() + b.len() + 2 <= 1000,
    ensures
        label_close(seq![91u8] + a + seq![92u8, c] + b + seq![93u8] + rest, 1, 1001) == Some(
            (a.len() + b.len() + 3) as int,
        ),
{
    let s = seq![91u8] + a + seq![92u8, c] + b + seq![93u8] + rest;
    let i = a.len() + 1int;
    let e = a.len() + b.len() + 3int;
    assert forall|k: int| 1 <= k < i implies #[trigger] s[k] != 91 && s[k] != 92 && s[k] != 93 by {
        assert(s[k] == a[k - 1]);
    }
    assert forall|k: int| i + 2 <= k < e implies #[trigger] s[k] != 91 && s[k] != 92 && s[k]
        != 93 by {
        assert(s[k] == b[k - i - 2]);
    }
    lemma_label_goes_on(s, 1, i, 1001);
    assert(s[i] == 92 && s[i + 1] == c);
    lemma_label_close(s, i + 2, e, 1001);
}

/// A destination that parentheses in pairs, or a byte behind a backslash, do not end.
proof fn lemma_destination_goes_on(s: Seq<u8>, i: int, j: int, depth: int)
    requires
        0 <= i <= j <= s.len(),
        forall|k: int|
            i <= k < j ==> !(9 <= #[trigger] s[k] <= 13) && s[k] != 32 && s[k] != 40 && s[k] != 41
                && s[k] != 92,
    ensures
        destination_stop(s, i, depth) == destination_stop(s, j, depth),
    decreases j - i,
{
    if i < j {
        assert(s[i] != 32);
        lemma_destination_goes_on(s, i + 1, j, depth);
    }
}

/// Parentheses within a destination come in pairs. One that closes nothing ends the destination,
/// and so does white space.
pub proof fn law_parentheses_in_destination(
    a: Seq<u8>,
    b: Seq<u8>,
    c: Seq<u8>,
    rest: Seq<u8>,
)
    requires
        plain_destination(a),
        plain_destination(b),
        plain_destination(c),
        rest.len() > 0,
        9 <= rest[0] <= 13 || rest[0] == 32 || rest[0] == 41,
    ensures
        ({
            let url = a + seq![40u8] + b + seq![41u8] + c;
            destination_end(url + rest, 0) == Some(url.len() as int)
        }),
{
    let url = a + seq![40u8] + b + seq![41u8] + c;
    let s = url + rest;
    let i = a.len() as int;
    let j = i + b.len() + 1;
    let e = url.len() as int;
    assert forall|k: int| 0 <= k < i implies !(9 <= #[trigger] s[k] <= 13) && s[k] != 32 && s[k]
        != 40 && s[k] != 41 && s[k] != 92 by {
        assert(s[k] == a[k]);
    }
    assert forall|k: int| i + 1 <= k < j implies !(9 <= #[trigger] s[k] <= 13) && s[k] != 32 && s[k]
        != 40 && s[k] != 41 && s[k] != 92 by {
        assert(s[k] == b[k - i - 1]);
    }
    assert forall|k: int| j + 1 <= k < e implies !(9 <= #[trigger] s[k] <= 13) && s[k] != 32 && s[k]
        != 40 && s[k] != 41 && s[k] != 92 by {
        assert(s[k] == c[k - j - 1]);
    }
    assert(s[0] == a[0]);
    assert(s[i] == 40);
    assert(s[j] == 41);
    assert(s[e] == rest[0]);
    lemma_destination_goes_on(s, 0, i, 0);
    lemma_destination_goes_on(s, i + 1, j, 1);
    lemma_destination_goes_on(s, j + 1, e, 0);
    assert(destination_stop(s, i, 0) == destination_stop(s, i + 1, 1));
    assert(destination_stop(s, j, 1) == destination_stop(s, j + 1, 0));
}

/// A parenthesis or white space behind a backslash does not end a destination.
pub proof fn law_escaped_in_destination(a: Seq<u8>, c: u8, b: Seq<u8>, rest: Seq<u8>)
    requires
        plain_destination(a),
        plain_destination(b),
        rest.len() > 0,
        9 <= rest[0] <= 13 || rest[0] == 32 || rest[0] == 41,
    ensures
        ({
            let url = a + seq![92u8, c] + b;
            destination_end(url + rest, 0) == Some(url.len() as int)
        }),
{
    let url = a + seq![92u8, c] + b;
    let s = url + rest;
    let i = a.len() as int;
    let e = url.len() as int;
    assert forall|k: int| 0 <= k < i implies !(9 <= #[trigger] s[k] <= 13) && s[k] != 32 && s[k]
        != 40 && s[k] != 41 && s[k] != 92 by {
        assert(s[k] == a[k]);
    }
    assert forall|k: int| i + 2 <= k < e implies !(9 <= #[trigger] s[k] <= 13) && s[k] != 32 && s[k]
        != 40 && s[k] != 41 && s[k] != 92 by {
        assert(s[k] == b[k - i - 2]);
    }
    assert(s[0] == a[0]);
    assert(s[i] == 92 && s[i + 1] == c);
    assert(s[e] == rest[0]);
    lemma_destination_goes_on(s, 0, i, 0);
    lemma_destination_goes_on(s, i + 2, e, 0);
    assert(destination_stop(s, i, 0) == destination_stop(s, i + 2, 0));
}

proof fn lemma_title_goes_on(s: Seq<u8>, i: int, j: int, open: u8)
    requires
        0 <= i <= j < s.len(),
        forall|k: int|
            i <= k < j ==> #[trigger] s[k] != 0 && s[k] != 92 && s[k] != open && s[k] != (
            if open == 40 {
                41u8
            } else {
                open
            }),
    ensures
        title_close(s, i, open) == title_close(s, j, open),
    decreases j - i,
{
    if i < j {
        assert(s[i] != 0);
        assert(escape_width(s, i) == 1);
        lemma_title_goes_on(s, i + 1, j, open);
    }
}

/// A delimiter behind a backslash does not close a title.
pub proof fn law_escaped_in_title(a: Seq<u8>, c: u8, b: Seq<u8>, rest: Seq<u8>)
    requires
        plain_title(a + b),
        a.len() > 0,
        b.len() > 0,
        is_punct(c),
    ensures
        ({
            let title = a + seq![92u8, c] + b;
            title_end(title + rest, 0) == Some(title.len() as int)
        }),
{
    let title = a + seq![92u8, c] + b;
    let s = title + rest;
    let t = a + b;
    let i = a.len() as int;
    let e = title.len() as int;
    assert(t[0] == a[0] && s[0] == a[0]);
    assert(t.last() == b.last() && s[e - 1] == b.last());
    assert forall|k: int| 1 <= k < i implies #[trigger] s[k] != 0 && s[k] != 92 && s[k] != t[0]
        && s[k] != t.last() by {
        assert(s[k] == t[k]);
    }
    assert forall|k: int| i + 2 <= k < e - 1 implies #[trigger] s[k] != 0 && s[k] != 92 && s[k]
        != t[0] && s[k] != t.last() by {
        assert(s[k] == t[k - 2]);
    }
    assert(s[i] == 92 && s[i + 1] == c);
    lemma_title_goes_on(s, 1, i, a[0]);
    assert(escape_width(s, i) == 2);
    lemma_title_goes_on(s, i + 2, e - 1, a[0]);
}

/// A definition may end with the text instead of a line, if white space follows the destination.
#[verifier::rlimit(50)]
pub proof fn law_definition_at_the_end(
    label: Seq<u8>,
    space: Seq<u8>,
    url: Seq<u8>,
    trail: Seq<u8>,
)
    requires
        label_text(label),
        trimmed(label).len() > 0,
        label.len() <= 1000,
        gap(space),
        plain_destination(url) || angle_destination(url),
        all_blank(trail, 0, trail.len() as int),
        trail.len() > 0,
    ensures
        ({
            let head = seq![91u8] + label + seq![93u8, 58u8] + space + url;
            definition(head + trail) matches Some(d) && d.label == trimmed(label) && d.url
                == url && d.title.len() == 0 && d.end == head.len() + trail.len()
        }),
{
    let head = seq![91u8] + label + seq![93u8, 58u8] + space + url;
    let s = head + trail;
    let e = head.len() as int;
    assert(stands_at(s, 0, head)) by {
        assert forall|k: int| 0 <= k < head.len() implies s[0 + k] == #[trigger] head[k] by {}
    }
    assert(s[e] == trail[0]);
    lemma_head(s, label, space, url);
    assert forall|k: int| e <= k < s.len() implies #[trigger] s[k] == 32 || s[k] == 9 by {
        assert(s[k] == trail[k - e]);
    }
    lemma_skip_blanks(s, e);
    let a = skip_blanks(s, e);
    if a < s.len() {
        assert(s[a] == 32 || s[a] == 9);
    }
    assert(a == s.len());
    assert(after_line_end(s, a) == a);
    assert(spaces_and_newline(s, e) == a);
    assert(title_end(s, a) is None);
    assert(line_finished(s, e) == Some(a));
}

/// A title that is not closed is none: the text ends, a zero byte comes first, or a parenthesis
/// opens within parentheses.
pub proof fn law_title_not_closed(w: Seq<u8>, rest: Seq<u8>)
    requires
        w.len() > 0,
        w[0] == 34 || w[0] == 39 || w[0] == 40,
        forall|k: int|
            0 < k < w.len() ==> #[trigger] w[k] != 0 && w[k] != 92 && w[k] != w[0] && (w[0] == 40
                ==> w[k] != 41),
        rest.len() == 0 || rest[0] == 0 || w[0] == 40 && rest[0] == 40,
    ensures
        title_end(w + rest, 0) is None,
{
    let s = w + rest;
    assert(s[0] == w[0]);
    let e = w.len() as int;
    if rest.len() == 0 {
        lemma_title_never_closed(s, 1, w[0]);
    } else {
        assert(s[e] == rest[0]);
        assert forall|k: int| 1 <= k < e implies #[trigger] s[k] != 0 && s[k] != 92 && s[k] != w[0]
            && s[k] != (if w[0] == 40 {
            41u8
        } else {
            w[0]
        }) by {
            assert(s[k] == w[k]);
        }
        lemma_title_goes_on(s, 1, e, w[0]);
    }
}

proof fn lemma_title_never_closed(s: Seq<u8>, i: int, open: u8)
    requires
        0 <= i <= s.len(),
        forall|k: int|
            i <= k < s.len() ==> #[trigger] s[k] != 92 && s[k] != open && (open == 40 ==> s[k]
                != 41),
    ensures
        title_close(s, i, open) is None,
    decreases s.len() - i,
{
    if i < s.len() {
        assert(s[i] != open);
        lemma_title_never_closed(s, i + 1, open);
    }
}

/// A destination in angle brackets holds no white space, and has to be closed before the text
/// ends.
pub proof fn law_angle_not_closed(w: Seq<u8>, rest: Seq<u8>)
    requires
        w.len() > 0,
        w[0] == 60,
        forall|k: int|
            0 < k < w.len() ==> !(9 <= #[trigger] w[k] <= 13) && w[k] != 32 && w[k] != 62 && w[k]
                != 92,
        rest.len() == 0 || 9 <= rest[0] <= 13 || rest[0] == 32,
    ensures
        destination_end(w + rest, 0) is None,
{
    let s = w + rest;
    assert(s[0] == w[0]);
    let e = w.len() as int;
    assert forall|k: int| 1 <= k < e implies !(9 <= #[trigger] s[k] <= 13) && s[k] != 32 && s[k]
        != 62 && s[k] != 92 by {
        assert(s[k] == w[k]);
    }
    if rest.len() > 0 {
        assert(s[e] == rest[0]);
    }
    lemma_angle_goes_on(s, 1, e);
}

proof fn lemma_angle_goes_on(s: Seq<u8>, i: int, j: int)
    requires
        0 <= i <= j <= s.len(),
        forall|k: int|
            i <= k < j ==> !(9 <= #[trigger] s[k] <= 13) && s[k] != 32 && s[k] != 62 && s[k] != 92,
    ensures
        angle_close(s, i) == angle_close(s, j),
    decreases j - i,
{
    if i < j {
        assert(s[i] != 32);
        lemma_angle_goes_on(s, i + 1, j);
    }
}

/// A destination that the text ends with is none: something has to follow it.
pub proof fn law_destination_at_the_end(url: Seq<u8>)
    requires
        plain_destination(url) || angle_destination(url),
    ensures
        destination_end(url, 0) is None,
{
    if plain_destination(url) {
        lemma_destination_goes_on(url, 0, url.len() as int, 0);
    } else {
        assert(stands_at(url, 0, url)) by {
            assert forall|k: int| 0 <= k < url.len() implies url[0 + k] == #[trigger] url[k] by {}
        }
        lemma_angle(url, 0, url, 1);
    }
}

} // verus!
