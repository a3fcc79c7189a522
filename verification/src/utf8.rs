//! Texts are UTF-8: what the parser cuts out of a text and puts together again stays a text.
use crate::ctype::{is_punct, is_space};
use crate::model::replacement;
use crate::references::{
    after_backslash, after_line_end, angle_close, definition, destination_end, destination_stop,
    escape_width, label_close, line_finished, spaces_and_newline, title_close, title_end,
    MAX_LINK_LABEL_LENGTH,
};
use crate::strings::{
    blank_lines_dropped, blanks_dropped, find_line_end, hashes_dropped, hashtags_chopped,
    law_rtrimmed, lemma_find_line_end, lemma_hashes_dropped, lemma_skip_blanks, line_end, rtrimmed,
    skip_blanks, skip_spaces, space_or_tab, trimmed, unescaped,
};
use crate::table::{
    after_cell, cell_stop, cells_and, pipes_unescaped, row_cells, row_from, row_space, skip_newline,
    skip_row_spaces,
};
use vstd::prelude::*;
use vstd::string::StringSliceAdditionalSpecFns;
use vstd::utf8::{
    codepoint_width_3, encode_utf8_valid_utf8, is_char_boundary_iff_not_is_continuation_byte,
    is_char_boundary_start_end_of_seq, is_continuation_byte, pop_first_scalar, valid_first_scalar,
    valid_utf8, valid_utf8_concat, valid_utf8_split,
};

verus! {

/// The bytes are UTF-8.
#[verifier::opaque]
pub open spec fn is_utf8(s: Seq<u8>) -> bool {
    valid_utf8(s)
}

/// A character of the text starts at `i`, or the text ends there.
pub open spec fn char_start(s: Seq<u8>, i: int) -> bool {
    0 <= i <= s.len() && (i < s.len() ==> !is_continuation_byte(s[i]))
}

/// A text can be cut in two where a character starts.
pub proof fn lemma_utf8_cut(s: Seq<u8>, i: int)
    requires
        is_utf8(s),
        char_start(s, i),
    ensures
        is_utf8(s.take(i)),
        is_utf8(s.skip(i)),
{
    reveal(is_utf8);
    if i < s.len() {
        is_char_boundary_iff_not_is_continuation_byte(s, i);
    } else {
        is_char_boundary_start_end_of_seq(s);
    }
    valid_utf8_split(s, i);
    assert(s.take(i) =~= s.subrange(0, i));
    assert(s.skip(i) =~= s.subrange(i, s.len() as int));
}

/// A part of a text that starts and ends with a character is a text.
pub proof fn lemma_utf8_part(s: Seq<u8>, i: int, j: int)
    requires
        is_utf8(s),
        char_start(s, i),
        char_start(s, j),
        i <= j,
    ensures
        is_utf8(s.subrange(i, j)),
{
    lemma_utf8_cut(s, j);
    let t = s.take(j);
    assert(i < j ==> t[i] == s[i]);
    lemma_utf8_cut(t, i);
    assert(t.skip(i) =~= s.subrange(i, j));
}

/// Two texts make one.
pub proof fn lemma_utf8_joined(a: Seq<u8>, b: Seq<u8>)
    requires
        is_utf8(a),
        is_utf8(b),
    ensures
        is_utf8(a + b),
{
    reveal(is_utf8);
    valid_utf8_concat(a, b);
}

/// Nothing is a text.
pub proof fn lemma_utf8_empty()
    ensures
        is_utf8(Seq::empty()),
{
    reveal(is_utf8);
}

/// ASCII is UTF-8.
pub proof fn lemma_utf8_ascii(s: Seq<u8>)
    requires
        forall|k: int| 0 <= k < s.len() ==> #[trigger] s[k] < 128,
    ensures
        is_utf8(s),
    decreases s.len(),
{
    reveal(is_utf8);
    if s.len() > 0 {
        let b = s[0];
        assert(b & 0x7f == b) by (bit_vector)
            requires
                b < 128,
        ;
        assert(valid_first_scalar(s));
        assert(pop_first_scalar(s) =~= s.skip(1));
        lemma_utf8_ascii(s.skip(1));
    }
}

/// An ASCII character goes behind a text.
pub proof fn lemma_utf8_push(s: Seq<u8>, c: u8)
    requires
        is_utf8(s),
        c < 128,
    ensures
        is_utf8(s.push(c)),
{
    lemma_utf8_ascii(seq![c]);
    lemma_utf8_joined(s, seq![c]);
    assert(s + seq![c] =~= s.push(c));
}

/// Before and behind an ASCII character there is a place to cut.
pub proof fn lemma_utf8_around(s: Seq<u8>, i: int)
    requires
        is_utf8(s),
        0 <= i < s.len(),
        s[i] < 128,
    ensures
        char_start(s, i),
        char_start(s, i + 1),
{
    lemma_utf8_cut(s, i);
    let t = s.skip(i);
    if i + 1 < s.len() {
        assert(is_utf8(pop_first_scalar(t)) && pop_first_scalar(t)[0] == s[i + 1]) by {
            reveal(is_utf8);
        }
        lemma_utf8_first(pop_first_scalar(t));
    }
}

/// A text starts with a character.
pub proof fn lemma_utf8_first(s: Seq<u8>)
    requires
        is_utf8(s),
    ensures
        char_start(s, 0),
{
    reveal(is_utf8);
}

/// Moving on over ASCII characters leads from one place to cut to another.
pub proof fn lemma_utf8_onward(s: Seq<u8>, i: int, j: int)
    requires
        is_utf8(s),
        char_start(s, i),
        i <= j <= s.len(),
        i < j ==> s[j - 1] < 128,
    ensures
        char_start(s, j),
{
    if i < j {
        lemma_utf8_around(s, j - 1);
    }
}

/// Behind a byte order mark there is a place to cut.
pub proof fn lemma_utf8_mark(s: Seq<u8>)
    requires
        is_utf8(s),
        s.len() >= 3,
        s[0] == 0xef,
    ensures
        char_start(s, 3),
{
    if s.len() > 3 {
        assert(is_utf8(pop_first_scalar(s)) && pop_first_scalar(s)[0] == s[3]) by {
            reveal(is_utf8);
        }
        lemma_utf8_first(pop_first_scalar(s));
    }
}

pub proof fn lemma_utf8_rtrimmed(s: Seq<u8>)
    requires
        is_utf8(s),
    ensures
        is_utf8(rtrimmed(s)),
{
    law_rtrimmed(s);
    let n = rtrimmed(s).len() as int;
    assert(n < s.len() ==> is_space(s[n]));
    lemma_utf8_cut(s, n);
}

proof fn lemma_utf8_spaces(s: Seq<u8>, i: int)
    requires
        is_utf8(s),
        char_start(s, i),
    ensures
        i <= skip_spaces(s, i) <= s.len(),
        char_start(s, skip_spaces(s, i)),
    decreases s.len() - i,
{
    if i < s.len() && is_space(s[i]) {
        lemma_utf8_around(s, i);
        lemma_utf8_spaces(s, i + 1);
    }
}

pub proof fn lemma_utf8_trimmed(s: Seq<u8>)
    requires
        is_utf8(s),
    ensures
        is_utf8(trimmed(s)),
{
    lemma_utf8_first(s);
    lemma_utf8_spaces(s, 0);
    lemma_utf8_cut(s, skip_spaces(s, 0));
    lemma_utf8_rtrimmed(s.skip(skip_spaces(s, 0)));
}

proof fn lemma_utf8_hashes(s: Seq<u8>)
    requires
        is_utf8(s),
    ensures
        is_utf8(hashes_dropped(s)),
    decreases s.len(),
{
    if s.len() > 0 && s.last() == 35 {
        lemma_utf8_cut(s, s.len() - 1);
        assert(s.take(s.len() - 1) =~= s.drop_last());
        lemma_utf8_hashes(s.drop_last());
    }
}

pub proof fn lemma_utf8_chopped(s: Seq<u8>)
    requires
        is_utf8(s),
    ensures
        is_utf8(hashtags_chopped(s)),
        hashtags_chopped(s).len() <= s.len(),
        hashtags_chopped(s) == s.take(hashtags_chopped(s).len() as int),
{
    let t = rtrimmed(s);
    let h = hashes_dropped(t);
    law_rtrimmed(s);
    lemma_utf8_rtrimmed(s);
    lemma_utf8_hashes(t);
    lemma_hashes_dropped(t);
    if 0 < h.len() < t.len() && space_or_tab(h.last()) {
        let d = h.drop_last();
        lemma_utf8_cut(h, h.len() - 1);
        assert(h.take(h.len() - 1) =~= d);
        lemma_utf8_rtrimmed(d);
        law_rtrimmed(d);
        let r = rtrimmed(d);
        assert(r =~= s.take(r.len() as int));
    }
}

proof fn lemma_blanks_dropped(s: Seq<u8>)
    ensures
        blanks_dropped(s).len() <= s.len(),
    decreases s.len(),
{
    if s.len() > 0 && (space_or_tab(s.last()) || line_end(s.last())) {
        lemma_blanks_dropped(s.drop_last());
    }
}

pub proof fn lemma_utf8_blank_lines(s: Seq<u8>)
    requires
        is_utf8(s),
    ensures
        is_utf8(blank_lines_dropped(s)),
{
    let k = blanks_dropped(s).len() as int;
    lemma_blanks_dropped(s);
    lemma_utf8_empty();
    if k > 0 {
        lemma_find_line_end(s, k);
        lemma_utf8_cut(s, find_line_end(s, k));
    }
}

/// Backslashes that are taken out leave a text; the first `e` bytes hold none.
proof fn lemma_utf8_unescaped_from(s: Seq<u8>, e: int)
    requires
        is_utf8(s),
        0 <= e <= s.len(),
        unescaped(s) == s.take(e) + unescaped(s.skip(e)),
    ensures
        is_utf8(unescaped(s)),
    decreases s.len(), s.len() - e,
{
    let t = s.skip(e);
    if e == s.len() {
        assert(unescaped(t) =~= Seq::<u8>::empty());
        assert(unescaped(s) =~= s);
    } else if s[e] != 92 {
        assert(t.skip(1) =~= s.skip(e + 1));
        assert(unescaped(s) =~= s.take(e + 1) + unescaped(s.skip(e + 1)));
        lemma_utf8_unescaped_from(s, e + 1);
    } else {
        lemma_utf8_around(s, e);
        lemma_utf8_cut(s, e);
        let escapes = t.len() > 1 && is_punct(t[1]);
        let n: int = if escapes {
            2
        } else {
            1
        };
        let c = t[n - 1];
        if escapes {
            lemma_utf8_around(s, e + 1);
        }
        let rest = s.skip(e + n);
        lemma_utf8_cut(s, e + n);
        lemma_utf8_unescaped(rest);
        assert(t.skip(n) =~= rest);
        lemma_utf8_ascii(seq![c]);
        lemma_utf8_joined(seq![c], unescaped(rest));
        lemma_utf8_joined(s.take(e), unescaped(t));
    }
}

pub proof fn lemma_utf8_unescaped(s: Seq<u8>)
    requires
        is_utf8(s),
    ensures
        is_utf8(unescaped(s)),
    decreases s.len(), s.len() + 1,
{
    assert(s.skip(0) =~= s);
    assert(s.take(0) + unescaped(s) =~= unescaped(s));
    lemma_utf8_unescaped_from(s, 0);
}

/// The text with every `\|` made `|`, where the first `e` bytes hold no backslash.
proof fn lemma_utf8_pipes_from(s: Seq<u8>, e: int)
    requires
        is_utf8(s),
        0 <= e <= s.len(),
        pipes_unescaped(s) == s.take(e) + pipes_unescaped(s.skip(e)),
    ensures
        is_utf8(pipes_unescaped(s)),
    decreases s.len(), s.len() - e,
{
    let t = s.skip(e);
    if e == s.len() {
        assert(pipes_unescaped(t) =~= Seq::<u8>::empty());
        assert(pipes_unescaped(s) =~= s);
    } else if s[e] != 92 {
        assert(t.skip(1) =~= s.skip(e + 1));
        assert(pipes_unescaped(s) =~= s.take(e + 1) + pipes_unescaped(s.skip(e + 1)));
        lemma_utf8_pipes_from(s, e + 1);
    } else {
        lemma_utf8_around(s, e);
        lemma_utf8_cut(s, e);
        let escapes = t.len() > 1 && t[1] == 124;
        let n: int = if escapes {
            2
        } else {
            1
        };
        let c = t[n - 1];
        if escapes {
            lemma_utf8_around(s, e + 1);
        }
        let rest = s.skip(e + n);
        lemma_utf8_cut(s, e + n);
        lemma_utf8_pipes(rest);
        assert(t.skip(n) =~= rest);
        lemma_utf8_ascii(seq![c]);
        lemma_utf8_joined(seq![c], pipes_unescaped(rest));
        lemma_utf8_joined(s.take(e), pipes_unescaped(t));
    }
}

proof fn lemma_utf8_pipes(s: Seq<u8>)
    requires
        is_utf8(s),
    ensures
        is_utf8(pipes_unescaped(s)),
    decreases s.len(), s.len() + 1,
{
    assert(s.skip(0) =~= s);
    assert(s.take(0) + pipes_unescaped(s) =~= pipes_unescaped(s));
    lemma_utf8_pipes_from(s, 0);
}

/// A cell ends where a character starts.
proof fn lemma_utf8_cell_stop(s: Seq<u8>, i: int)
    requires
        0 <= i <= s.len(),
    ensures
        i <= cell_stop(s, i) <= s.len(),
        char_start(s, cell_stop(s, i)),
    decreases s.len() - i,
{
    if i < s.len() && s[i] != 124 && s[i] != 10 && s[i] != 13 {
        if s[i] == 92 && i + 1 < s.len() && is_punct(s[i + 1]) {
            lemma_utf8_cell_stop(s, i + 2);
        } else {
            lemma_utf8_cell_stop(s, i + 1);
        }
    }
}

proof fn lemma_utf8_row_spaces(s: Seq<u8>, i: int)
    requires
        is_utf8(s),
        char_start(s, i),
    ensures
        i <= skip_row_spaces(s, i) <= s.len(),
        char_start(s, skip_row_spaces(s, i)),
    decreases s.len() - i,
{
    if i < s.len() && row_space(s[i]) {
        lemma_utf8_around(s, i);
        lemma_utf8_row_spaces(s, i + 1);
    }
}

proof fn lemma_utf8_newline(s: Seq<u8>, i: int)
    requires
        is_utf8(s),
        char_start(s, i),
    ensures
        i <= skip_newline(s, i) <= s.len(),
        char_start(s, skip_newline(s, i)),
{
    lemma_utf8_onward(s, i, skip_newline(s, i));
}

/// So does the next cell.
proof fn lemma_utf8_after_cell(s: Seq<u8>, i: int)
    requires
        is_utf8(s),
        0 <= i <= s.len(),
    ensures
        i <= after_cell(s, i) <= s.len(),
        char_start(s, after_cell(s, i)),
{
    let c = cell_stop(s, i);
    lemma_utf8_cell_stop(s, i);
    if c < s.len() && s[c] == 124 {
        lemma_utf8_around(s, c);
        lemma_utf8_row_spaces(s, c + 1);
        lemma_utf8_newline(s, skip_row_spaces(s, c + 1));
    }
    lemma_utf8_row_spaces(s, c);
    lemma_utf8_newline(s, skip_row_spaces(s, c));
}

/// All of these are texts.
pub open spec fn all_utf8(cells: Seq<Seq<u8>>) -> bool {
    forall|k: int| 0 <= k < cells.len() ==> is_utf8(#[trigger] cells[k])
}

proof fn lemma_utf8_row_from(s: Seq<u8>, i: int, cells: Seq<Seq<u8>>)
    requires
        is_utf8(s),
        char_start(s, i),
        all_utf8(cells),
    ensures
        row_from(s, i, cells) matches Some(v) ==> all_utf8(v),
    decreases s.len() - i,
{
    let c = cell_stop(s, i);
    let f = after_cell(s, i);
    let more = cells_and(cells, s, i);
    lemma_utf8_cell_stop(s, i);
    lemma_utf8_after_cell(s, i);
    lemma_utf8_part(s, i, c);
    lemma_utf8_pipes(s.subrange(i, c));
    lemma_utf8_trimmed(pipes_unescaped(s.subrange(i, c)));
    assert(all_utf8(more));
    if i < f < s.len() {
        lemma_utf8_row_from(s, f, more);
    }
}

/// The cells of a row are texts.
pub proof fn lemma_utf8_row(s: Seq<u8>)
    requires
        is_utf8(s),
    ensures
        row_cells(s) matches Some(v) ==> all_utf8(v),
{
    lemma_utf8_first(s);
    if s.len() > 0 && s[0] == 124 {
        lemma_utf8_around(s, 0);
        lemma_utf8_row_from(s, 1, Seq::empty());
    } else {
        lemma_utf8_row_from(s, 0, Seq::empty());
    }
}

proof fn lemma_utf8_label_close(s: Seq<u8>, i: int, limit: int)
    requires
        0 <= i,
    ensures
        label_close(s, i, limit) matches Some(c) ==> i <= c < s.len() && s[c] == 93,
    decreases s.len() - i,
{
    if i < s.len() && s[i] != 91 && s[i] != 93 && i + escape_width(s, i) <= limit {
        lemma_utf8_label_close(s, i + escape_width(s, i), limit);
    }
}

proof fn lemma_utf8_angle_close(s: Seq<u8>, i: int)
    requires
        0 <= i,
    ensures
        angle_close(s, i) matches Some(e) ==> i <= e && (e < s.len() ==> i < e && s[e - 1] == 62),
    decreases s.len() - i,
{
    if i < s.len() && s[i] != 62 {
        if s[i] == 92 {
            lemma_utf8_angle_close(s, after_backslash(s, i));
        } else if !is_space(s[i]) {
            lemma_utf8_angle_close(s, i + 1);
        }
    }
}

proof fn lemma_utf8_destination_stop(s: Seq<u8>, i: int, depth: int)
    requires
        0 <= i,
    ensures
        i <= destination_stop(s, i, depth),
        destination_stop(s, i, depth) < s.len() ==> s[destination_stop(s, i, depth)] < 128,
    decreases s.len() - i,
{
    if i < s.len() && !is_space(s[i]) && !(s[i] == 41 && depth == 0) {
        if s[i] == 92 {
            lemma_utf8_destination_stop(s, after_backslash(s, i), depth);
        } else if s[i] == 40 {
            lemma_utf8_destination_stop(s, i + 1, depth + 1);
        } else if s[i] == 41 {
            lemma_utf8_destination_stop(s, i + 1, depth - 1);
        } else {
            lemma_utf8_destination_stop(s, i + 1, depth);
        }
    }
}

/// A link destination ends where a character starts.
proof fn lemma_utf8_destination(s: Seq<u8>, i: int)
    requires
        is_utf8(s),
        char_start(s, i),
    ensures
        destination_end(s, i) matches Some(e) ==> i <= e && char_start(s, e),
{
    if i < s.len() && s[i] == 60 {
        lemma_utf8_angle_close(s, i + 1);
        if let Some(e) = angle_close(s, i + 1) {
            if e < s.len() {
                lemma_utf8_around(s, e - 1);
            }
        }
    } else {
        lemma_utf8_destination_stop(s, i, 0);
    }
}

proof fn lemma_utf8_title_close(s: Seq<u8>, i: int, open: u8)
    requires
        0 <= i,
        open < 128,
    ensures
        title_close(s, i, open) matches Some(f) ==> i < f <= s.len() && s[f - 1] < 128,
    decreases s.len() - i,
{
    let close: u8 = if open == 40 {
        41
    } else {
        open
    };
    if i < s.len() && s[i] != 0 && s[i] != close && s[i] != open {
        lemma_utf8_title_close(s, i + escape_width(s, i), open);
    }
}

/// A title ends where a character starts.
proof fn lemma_utf8_title(s: Seq<u8>, i: int)
    requires
        is_utf8(s),
        char_start(s, i),
    ensures
        title_end(s, i) matches Some(f) ==> i < f && char_start(s, f),
{
    if i < s.len() && (s[i] == 34 || s[i] == 39 || s[i] == 40) {
        lemma_utf8_title_close(s, i + 1, s[i]);
        if let Some(f) = title_close(s, i + 1, s[i]) {
            lemma_utf8_around(s, f - 1);
        }
    }
}

pub proof fn lemma_utf8_blanks(s: Seq<u8>, i: int)
    requires
        is_utf8(s),
        char_start(s, i),
    ensures
        i <= skip_blanks(s, i) <= s.len(),
        char_start(s, skip_blanks(s, i)),
{
    lemma_skip_blanks(s, i);
    let j = skip_blanks(s, i);
    if i < j {
        assert(space_or_tab(s[j - 1]));
    }
    lemma_utf8_onward(s, i, j);
}

proof fn lemma_utf8_after_line_end(s: Seq<u8>, i: int)
    requires
        is_utf8(s),
        char_start(s, i),
    ensures
        i <= after_line_end(s, i) <= s.len(),
        char_start(s, after_line_end(s, i)),
{
    lemma_utf8_onward(s, i, after_line_end(s, i));
}

proof fn lemma_utf8_newline_skipped(s: Seq<u8>, i: int)
    requires
        is_utf8(s),
        char_start(s, i),
    ensures
        i <= spaces_and_newline(s, i) <= s.len(),
        char_start(s, spaces_and_newline(s, i)),
        line_finished(s, i) matches Some(e) ==> i <= e && char_start(s, e),
{
    let a = skip_blanks(s, i);
    lemma_utf8_blanks(s, i);
    lemma_utf8_after_line_end(s, a);
    lemma_utf8_blanks(s, after_line_end(s, a));
}

/// The parts of a reference definition are texts, and so is what follows it.
pub proof fn lemma_utf8_definition(s: Seq<u8>)
    requires
        is_utf8(s),
    ensures
        definition(s) matches Some(d) ==> {
            &&& is_utf8(d.label)
            &&& is_utf8(d.url)
            &&& is_utf8(d.title)
            &&& char_start(s, d.end)
        },
{
    let limit = 1 + MAX_LINK_LABEL_LENGTH as int;
    lemma_utf8_empty();
    if s.len() > 0 && s[0] == 91 {
        lemma_utf8_around(s, 0);
        lemma_utf8_label_close(s, 1, limit);
        if let Some(c) = label_close(s, 1, limit) {
            lemma_utf8_part(s, 1, c);
            lemma_utf8_trimmed(s.subrange(1, c));
            if c + 1 < s.len() && s[c + 1] == 58 {
                lemma_utf8_around(s, c + 1);
                let u = spaces_and_newline(s, c + 2);
                lemma_utf8_newline_skipped(s, c + 2);
                lemma_utf8_destination(s, u);
                if let Some(e) = destination_end(s, u) {
                    lemma_utf8_part(s, u, e);
                    lemma_utf8_newline_skipped(s, e);
                    let t = spaces_and_newline(s, e);
                    lemma_utf8_title(s, t);
                    if let Some(f) = title_end(s, t) {
                        lemma_utf8_part(s, t, f);
                        lemma_utf8_newline_skipped(s, f);
                    }
                }
            }
        }
    }
}

/// The first line of a text and the rest of it are texts.
pub proof fn lemma_utf8_first_line(s: Seq<u8>)
    requires
        is_utf8(s),
    ensures
        is_utf8(s.take(find_line_end(s, 0))),
        is_utf8(s.skip(after_line_end(s, find_line_end(s, 0)))),
{
    let e = find_line_end(s, 0);
    lemma_find_line_end(s, 0);
    lemma_utf8_cut(s, e);
    lemma_utf8_after_line_end(s, e);
    lemma_utf8_cut(s, after_line_end(s, e));
}

/// The bytes of a string are UTF-8.
pub proof fn lemma_utf8_str(s: &str)
    ensures
        is_utf8(s.spec_bytes()),
{
    reveal(is_utf8);
    encode_utf8_valid_utf8(s@);
}

/// U+FFFD is a character.
pub proof fn lemma_utf8_replacement()
    ensures
        is_utf8(replacement()),
{
    reveal(is_utf8);
    let s = replacement();
    assert(codepoint_width_3(0xef, 0xbf, 0xbd) == 0xfffd) by (bit_vector);
    assert(valid_first_scalar(s));
    assert(pop_first_scalar(s) =~= Seq::<u8>::empty());
    assert(valid_utf8(pop_first_scalar(s)));
}

} // verus!
