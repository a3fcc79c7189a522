//! How the rows of a table are written, and what they make.
use crate::ctype::is_space;
use crate::cursor::{lemma_advance_bytes, lemma_advance_to, lemma_find_first_nonspace};
use crate::model::{cells_appended, cells_fitted, ParserView};
use crate::nodes::{new_block, TableAlignment, ValueView};
use crate::preserved::opening;
use crate::starting::{lemma_nothing_marked, lemma_run_is, marks_nothing};
use crate::strings::{
    law_trimmed, line_end, skip_run, skip_spaces, trim_ended, trimmed, white_space,
};
use crate::table::{
    after_cell, alignment_of, cell_stop, cell_text, marker_end, markers_end, pipes_unescaped,
    row_cells, row_from, row_space, skip_newline, skip_row_spaces, table_opened, table_start,
};
use crate::tree::{
    appended, child_index, lemma_child_index, lemma_child_place, lemma_replaced_ok, replaced,
    NodeView,
};
use vstd::prelude::*;

verus! {

/// The line of a row: its cells, each with a `|` behind it, of which the last one may be left out.
pub open spec fn row_written(cells: Seq<Seq<u8>>, closed: bool) -> Seq<u8>
    decreases cells.len(),
{
    if cells.len() == 0 {
        seq![10u8]
    } else if cells.len() == 1 && !closed {
        cells[0] + seq![10u8]
    } else {
        cells[0] + seq![124u8] + row_written(cells.skip(1), closed)
    }
}

/// The text of a cell holds no `|`, no backslash and no line end.
pub open spec fn plain_cell(c: Seq<u8>) -> bool {
    forall|k: int|
        0 <= k < c.len() ==> #[trigger] c[k] != 124 && c[k] != 92 && c[k] != 10 && c[k] != 13
}

pub open spec fn plain_cells(cells: Seq<Seq<u8>>) -> bool {
    forall|k: int| 0 <= k < cells.len() ==> plain_cell(#[trigger] cells[k])
}

/// Something of the cell can be seen.
pub open spec fn visible(c: Seq<u8>) -> bool {
    exists|k: int| 0 <= k < c.len() && !(9 <= #[trigger] c[k] <= 13) && c[k] != 32
}

/// The cells without the white space around them.
pub open spec fn cells_trimmed(cells: Seq<Seq<u8>>) -> Seq<Seq<u8>> {
    Seq::new(cells.len(), |k: int| trimmed(cells[k]))
}

proof fn lemma_cell_stop(s: Seq<u8>, i: int, e: int)
    requires
        0 <= i <= e < s.len(),
        forall|k: int|
            i <= k < e ==> #[trigger] s[k] != 124 && s[k] != 92 && s[k] != 10 && s[k] != 13,
        s[e] == 124 || s[e] == 10,
    ensures
        cell_stop(s, i) == e,
    decreases e - i,
{
    if i < e {
        assert(s[i] != 124);
        lemma_cell_stop(s, i + 1, e);
    }
}

proof fn lemma_row_spaces(s: Seq<u8>, i: int)
    requires
        0 <= i <= s.len(),
    ensures
        i <= skip_row_spaces(s, i) <= s.len(),
        forall|k: int| i <= k < skip_row_spaces(s, i) ==> row_space(#[trigger] s[k]),
        skip_row_spaces(s, i) < s.len() ==> !row_space(s[skip_row_spaces(s, i)]),
    decreases s.len() - i,
{
    if i < s.len() && row_space(s[i]) {
        lemma_row_spaces(s, i + 1);
    }
}

proof fn lemma_row_spaces_are(s: Seq<u8>, i: int, j: int)
    requires
        0 <= i <= j < s.len(),
        forall|k: int| i <= k < j ==> row_space(#[trigger] s[k]),
        !row_space(s[j]),
    ensures
        skip_row_spaces(s, i) == j,
    decreases j - i,
{
    if i < j {
        assert(row_space(s[i]));
        lemma_row_spaces_are(s, i + 1, j);
    }
}

proof fn lemma_pipes_unescaped(s: Seq<u8>)
    requires
        forall|k: int| 0 <= k < s.len() ==> #[trigger] s[k] != 92,
    ensures
        pipes_unescaped(s) == s,
    decreases s.len(),
{
    if s.len() > 0 {
        lemma_pipes_unescaped(s.skip(1));
        assert(seq![s[0]] + s.skip(1) =~= s);
    }
}

proof fn lemma_spaces_shifted(w: Seq<u8>, s: Seq<u8>, k: int)
    requires
        0 <= k <= s.len(),
    ensures
        skip_spaces(w + s, w.len() + k) == w.len() + skip_spaces(s, k),
        k <= skip_spaces(s, k) <= s.len(),
    decreases s.len() - k,
{
    if k < s.len() && is_space(s[k]) {
        assert((w + s)[w.len() + k] == s[k]);
        lemma_spaces_shifted(w, s, k + 1);
    } else if k < s.len() {
        assert((w + s)[w.len() + k] == s[k]);
    }
}

proof fn lemma_spaces_skipped(s: Seq<u8>, i: int, j: int)
    requires
        0 <= i <= j <= s.len(),
        forall|k: int| i <= k < j ==> is_space(#[trigger] s[k]),
    ensures
        skip_spaces(s, i) == skip_spaces(s, j),
    decreases j - i,
{
    if i < j {
        assert(is_space(s[i]));
        lemma_spaces_skipped(s, i + 1, j);
    }
}

/// White space before a text does not matter once it is trimmed.
proof fn lemma_trimmed_front(w: Seq<u8>, s: Seq<u8>)
    requires
        white_space(w),
    ensures
        trimmed(w + s) == trimmed(s),
{
    let t = w + s;
    assert forall|k: int| 0 <= k < w.len() implies is_space(#[trigger] t[k]) by {
        assert(t[k] == w[k]);
    }
    lemma_spaces_skipped(t, 0, w.len() as int);
    lemma_spaces_shifted(w, s, 0);
    assert(t.skip(skip_spaces(t, 0)) =~= s.skip(skip_spaces(s, 0)));
}

#[verifier::rlimit(50)]
proof fn lemma_row(
    s: Seq<u8>,
    start: int,
    i: int,
    before: Seq<Seq<u8>>,
    cells: Seq<Seq<u8>>,
    closed: bool,
)
    requires
        0 <= start <= s.len(),
        s.skip(start) == row_written(cells, closed),
        cells.len() > 0,
        plain_cells(cells),
        !closed ==> visible(cells.last()),
        start <= i <= start + cells[0].len(),
        forall|k: int| start <= k < i ==> row_space(#[trigger] s[k]),
    ensures
        row_from(s, i, before) == Some(before + cells_trimmed(cells)),
    decreases cells.len(),
{
    let cell = cells[0];
    let e = start + cell.len();
    let w = row_written(cells, closed);
    let rest = cells.skip(1);
    assert(plain_cell(cell));
    let last = cells.len() == 1 && !closed;
    let tail = if last {
        seq![10u8]
    } else {
        seq![124u8] + row_written(rest, closed)
    };
    assert(w =~= cell + tail);
    assert(s.len() == start + w.len());
    assert forall|k: int| start <= k < e implies #[trigger] s[k] == cell[k - start] by {
        assert(s[k] == s.skip(start)[k - start]);
    }
    assert(s[e] == tail[0]) by {
        assert(s[e] == s.skip(start)[e - start]);
    }
    lemma_cell_stop(s, i, e);
    let front = s.subrange(start, i);
    let text = s.subrange(i, e);
    assert(front + text =~= cell);
    assert(white_space(front)) by {
        assert forall|k: int| 0 <= k < front.len() implies 9 <= #[trigger] front[k] <= 13
            || front[k] == 32 by {
            assert(front[k] == s[start + k]);
        }
    }
    lemma_trimmed_front(front, text);
    assert forall|k: int| 0 <= k < text.len() implies #[trigger] text[k] != 92 by {
        assert(text[k] == s[i + k]);
    }
    lemma_pipes_unescaped(text);
    assert(cell_text(s, i, e) == trimmed(cell));
    let more = before.push(trimmed(cell));
    if last {
        assert(cells.last() == cell);
        let k = choose|k: int| 0 <= k < cell.len() && !(9 <= #[trigger] cell[k] <= 13) && cell[k]
            != 32;
        if i == e {
            assert(row_space(s[start + k]));
        }
        assert(s.len() == e + 1);
        lemma_row_spaces_are(s, e, e);
        assert(after_cell(s, i) == s.len());
        assert(cells_trimmed(cells) =~= seq![trimmed(cell)]);
        assert(before + cells_trimmed(cells) =~= more);
    } else {
        assert(s.skip(e + 1) =~= row_written(rest, closed)) by {
            assert(s.skip(e + 1) =~= w.skip(cell.len() + 1int));
            assert(w.skip(cell.len() + 1int) =~= row_written(rest, closed));
        }
        lemma_row_spaces(s, e + 1);
        let j = skip_row_spaces(s, e + 1);
        if rest.len() == 0 {
            assert(s[e + 1] == 10) by {
                assert(s[e + 1] == s.skip(e + 1)[0]);
            }
            assert(j == e + 1);
            assert(s.len() == e + 2);
            assert(cells_trimmed(cells) =~= seq![trimmed(cell)]);
            assert(before + cells_trimmed(cells) =~= more);
        } else {
            let next = rest[0];
            assert(next == cells[1]);
            assert(plain_cell(next));
            let r = row_written(rest, closed);
            let f = e + 1 + next.len();
            let last_of_rest = rest.len() == 1 && !closed;
            assert(r =~= next + if last_of_rest {
                seq![10u8]
            } else {
                seq![124u8] + row_written(rest.skip(1), closed)
            });
            assert(s[f] == s.skip(e + 1)[next.len() as int]);
            assert(s[f] == 124 || s[f] == 10);
            if j > f {
                assert(row_space(s[f]));
            }
            if last_of_rest {
                assert(cells.last() == next);
                let k = choose|k: int|
                    0 <= k < next.len() && !(9 <= #[trigger] next[k] <= 13) && next[k] != 32;
                assert(s[e + 1 + k] == s.skip(e + 1)[k]);
                if j > e + 1 + k {
                    assert(row_space(s[e + 1 + k]));
                }
                assert(j < f);
            }
            if j < f {
                assert(s[j] == s.skip(e + 1)[j - e - 1]);
                assert(s[j] == next[j - e - 1]);
            }
            assert(skip_newline(s, j) == j);
            assert(after_cell(s, i) == j);
            assert forall|k: int| 0 <= k < rest.len() implies plain_cell(#[trigger] rest[k]) by {
                assert(rest[k] == cells[k + 1]);
            }
            assert(rest.last() == cells.last());
            lemma_row(s, e + 1, j, more, rest, closed);
            assert(before + cells_trimmed(cells) =~= more + cells_trimmed(rest));
        }
    }
}

/// A row has the cells that are written in it, without the white space around them. A `|` before
/// the first one and one behind the last one may be left out, the second one only if the last cell
/// is not blank.
pub proof fn law_row_cells(cells: Seq<Seq<u8>>, open: bool, closed: bool)
    requires
        cells.len() > 0,
        plain_cells(cells),
        open || cells[0].len() > 0,
        closed || visible(cells.last()),
    ensures
        row_cells(
            if open {
                seq![124u8] + row_written(cells, closed)
            } else {
                row_written(cells, closed)
            },
        ) == Some(cells_trimmed(cells)),
{
    let w = row_written(cells, closed);
    let none = Seq::<Seq<u8>>::empty();
    assert(none + cells_trimmed(cells) =~= cells_trimmed(cells));
    assert(plain_cell(cells[0]));
    if open {
        let s = seq![124u8] + w;
        assert(s.skip(1) =~= w);
        lemma_row(s, 1, 1, none, cells, closed);
    } else {
        assert(w.skip(0) =~= w);
        assert(w[0] == cells[0][0]);
        lemma_row(w, 0, 0, none, cells, closed);
    }
}

/// A carriage return before the line feed is part of the line's end.
pub proof fn law_row_ends_in_both(cell: Seq<u8>)
    requires
        plain_cell(cell),
        cell.len() > 0,
    ensures
        row_cells(cell + seq![13u8, 10u8]) == Some(seq![trimmed(cell)]),
{
    let s = cell + seq![13u8, 10u8];
    let e = cell.len() as int;
    assert forall|k: int| 0 <= k < e implies #[trigger] s[k] == cell[k] by {}
    assert(s[e] == 13 && s[e + 1] == 10);
    lemma_cell_goes_on(s, 0, e);
    assert(cell_stop(s, e) == e);
    let text = s.subrange(0, e);
    assert(text =~= cell);
    lemma_pipes_unescaped(cell);
    lemma_row_spaces_are(s, e, e);
    assert(after_cell(s, 0) == s.len());
    let none = Seq::<Seq<u8>>::empty();
    assert(none.push(trimmed(cell)) =~= seq![trimmed(cell)]);
}

/// A `|` behind a backslash is part of a cell, without the backslash.
pub proof fn law_escaped_pipe(a: Seq<u8>, b: Seq<u8>)
    requires
        plain_cell(a),
        plain_cell(b),
    ensures
        row_cells(seq![124u8] + a + seq![92u8, 124u8] + b + seq![124u8, 10u8]) == Some(
            seq![trimmed(a + seq![124u8] + b)],
        ),
{
    let s = seq![124u8] + a + seq![92u8, 124u8] + b + seq![124u8, 10u8];
    let i = a.len() + 1int;
    let e = i + 2 + b.len();
    assert forall|k: int| 1 <= k < i implies #[trigger] s[k] == a[k - 1] by {}
    assert forall|k: int| i + 2 <= k < e implies #[trigger] s[k] == b[k - i - 2] by {}
    assert(s[i] == 92 && s[i + 1] == 124 && s[e] == 124 && s[e + 1] == 10);
    lemma_cell_stop(s, i + 2, e);
    lemma_cell_goes_on(s, 1, i);
    assert(cell_stop(s, i) == cell_stop(s, i + 2));
    let text = s.subrange(1, e);
    assert(text =~= a + seq![92u8, 124u8] + b);
    lemma_pipe_unescaped(a, b);
    lemma_row_spaces_are(s, e + 1, e + 1);
    assert(after_cell(s, 1) == s.len());
    let none = Seq::<Seq<u8>>::empty();
    assert(none.push(trimmed(a + seq![124u8] + b)) =~= seq![trimmed(a + seq![124u8] + b)]);
}

proof fn lemma_cell_goes_on(s: Seq<u8>, i: int, j: int)
    requires
        0 <= i <= j < s.len(),
        forall|k: int|
            i <= k < j ==> #[trigger] s[k] != 124 && s[k] != 92 && s[k] != 10 && s[k] != 13,
    ensures
        cell_stop(s, i) == cell_stop(s, j),
    decreases j - i,
{
    if i < j {
        assert(s[i] != 124);
        lemma_cell_goes_on(s, i + 1, j);
    }
}

proof fn lemma_pipe_unescaped(a: Seq<u8>, b: Seq<u8>)
    requires
        plain_cell(a),
        plain_cell(b),
    ensures
        pipes_unescaped(a + seq![92u8, 124u8] + b) == a + seq![124u8] + b,
    decreases a.len(),
{
    let s = a + seq![92u8, 124u8] + b;
    if a.len() == 0 {
        assert(s[0] == 92 && s[1] == 124);
        assert(s.skip(2) =~= b);
        lemma_pipes_unescaped(b);
        assert(pipes_unescaped(s) =~= a + seq![124u8] + b);
    } else {
        let rest = a.skip(1);
        assert(s[0] == a[0]);
        assert(s.skip(1) =~= rest + seq![92u8, 124u8] + b);
        lemma_pipe_unescaped(rest, b);
        assert(pipes_unescaped(s) =~= a + seq![124u8] + b);
    }
}

/// A cell of a delimiter row, as it is written: hyphens with a colon on either side or without,
/// and white space around them.
pub struct Mark {
    pub before: Seq<u8>,
    pub left: bool,
    pub hyphens: nat,
    pub right: bool,
    pub after: Seq<u8>,
}

pub open spec fn colon(there: bool) -> Seq<u8> {
    if there {
        seq![58u8]
    } else {
        seq![]
    }
}

impl Mark {
    pub open spec fn inner(self) -> Seq<u8> {
        colon(self.left) + Seq::new(self.hyphens, |k: int| 45u8) + colon(self.right)
    }

    pub open spec fn text(self) -> Seq<u8> {
        self.before + self.inner() + self.after
    }

    pub open spec fn ok(self) -> bool {
        &&& self.hyphens > 0
        &&& forall|k: int|
            0 <= k < self.before.len() ==> #[trigger] self.before[k] == 32 || self.before[k] == 9
        &&& forall|k: int|
            0 <= k < self.after.len() ==> #[trigger] self.after[k] == 32 || self.after[k] == 9
    }

    pub open spec fn alignment(self) -> TableAlignment {
        match (self.left, self.right) {
            (true, true) => TableAlignment::Center,
            (true, false) => TableAlignment::Left,
            (false, true) => TableAlignment::Right,
            (false, false) => TableAlignment::Unset,
        }
    }
}

pub open spec fn marks_ok(marks: Seq<Mark>) -> bool {
    forall|k: int| 0 <= k < marks.len() ==> (#[trigger] marks[k]).ok()
}

pub open spec fn mark_texts(marks: Seq<Mark>) -> Seq<Seq<u8>> {
    Seq::new(marks.len(), |k: int| marks[k].text())
}

pub open spec fn mark_alignments(marks: Seq<Mark>) -> Seq<TableAlignment> {
    Seq::new(marks.len(), |k: int| marks[k].alignment())
}

proof fn lemma_mark(m: Mark)
    requires
        m.ok(),
    ensures
        trimmed(m.text()) == m.inner(),
        alignment_of(m.inner()) == m.alignment(),
        plain_cell(m.text()),
        visible(m.text()),
        m.inner().len() > 0,
{
    let inner = m.inner();
    let n = m.hyphens as int;
    let l = colon(m.left).len() as int;
    assert(inner.len() == l + n + colon(m.right).len());
    assert(inner[l] == 45);
    assert(inner[0] == if m.left {
        58u8
    } else {
        45u8
    });
    assert(inner.last() == if m.right {
        58u8
    } else {
        45u8
    });
    assert(trim_ended(inner));
    law_trimmed(m.before, inner, m.after);
    let t = m.text();
    let b = m.before.len() as int;
    assert(t[b] == inner[0]);
    assert forall|k: int| 0 <= k < t.len() implies #[trigger] t[k] != 124 && t[k] != 92 && t[k]
        != 10 && t[k] != 13 by {
        if k < b {
            assert(t[k] == m.before[k]);
        } else if k < b + inner.len() {
            assert(t[k] == inner[k - b]);
            assert(inner[k - b] == 58 || inner[k - b] == 45);
        } else {
            assert(t[k] == m.after[k - b - inner.len()]);
        }
    }
}

/// A delimiter cell that stands at `i`, with what ends it behind it, is read to its end.
#[verifier::rlimit(50)]
proof fn lemma_marker(s: Seq<u8>, i: int, m: Mark)
    requires
        m.ok(),
        0 <= i,
        i + m.text().len() < s.len(),
        s.subrange(i, i + m.text().len()) == m.text(),
        s[i + m.text().len()] == 124 || s[i + m.text().len()] == 10,
    ensures
        marker_end(s, i) == Some(i + m.text().len()),
{
    let t = m.text();
    let inner = m.inner();
    let b = m.before.len() as int;
    let l = colon(m.left).len() as int;
    let n = m.hyphens as int;
    let r = colon(m.right).len() as int;
    let e = i + t.len();
    assert(inner.len() == l + n + r);
    assert forall|k: int| i <= k < e implies #[trigger] s[k] == t[k - i] by {
        assert(s[k] == s.subrange(i, e)[k - i]);
    }
    assert forall|k: int| i <= k < i + b implies row_space(#[trigger] s[k]) by {
        assert(s[k] == m.before[k - i]);
    }
    assert forall|k: int| i + b <= k < i + b + inner.len() implies #[trigger] s[k] == inner[k - i
        - b] by {}
    assert forall|k: int| i + b + inner.len() <= k < e implies row_space(#[trigger] s[k]) by {
        assert(s[k] == m.after[k - i - b - inner.len()]);
    }
    let a = i + b;
    assert(s[a] == inner[0]);
    lemma_row_spaces_are(s, i, a);
    let h = a + l;
    assert forall|k: int| h <= k < h + n implies #[trigger] s[k] == 45 by {
        assert(s[k] == inner[k - a]);
    }
    if m.right {
        assert(s[h + n] == inner[l + n]);
    }
    lemma_run_is(s, h, 45, n);
    lemma_row_spaces_are(s, h + n + r, e);
}

#[verifier::rlimit(50)]
proof fn lemma_markers(s: Seq<u8>, i: int, marks: Seq<Mark>, closed: bool)
    requires
        marks_ok(marks),
        0 <= i < s.len(),
        marks.len() == 0 && !closed ==> s.skip(i) == seq![10u8],
        marks.len() > 0 || closed ==> s.skip(i) == seq![124u8] + row_written(
            mark_texts(marks),
            closed,
        ),
    ensures
        ({
            let j = markers_end(s, i);
            let k = if j < s.len() && s[j] == 124 {
                j + 1
            } else {
                j
            };
            i <= j && k < s.len() && s[k] == 10
        }),
    decreases marks.len(),
{
    let texts = mark_texts(marks);
    let w = row_written(texts, closed);
    assert(s[i] == s.skip(i)[0]);
    if marks.len() == 0 {
        if closed {
            assert(w =~= seq![10u8]);
            assert(s.skip(i).len() == 2);
            assert(s[i + 1] == s.skip(i)[1]);
            assert(skip_row_spaces(s, i + 1) == i + 1);
            assert(skip_run(s, i + 1, 45) == i + 1);
        }
    } else {
        let m = marks[0];
        let t = m.text();
        assert(texts[0] == t);
        let rest = marks.skip(1);
        let rest_texts = mark_texts(rest);
        assert(texts.skip(1) =~= rest_texts);
        let e = i + 1 + t.len();
        let last = marks.len() == 1 && !closed;
        let tail = if last {
            seq![10u8]
        } else {
            seq![124u8] + row_written(rest_texts, closed)
        };
        assert(w =~= t + tail);
        assert(s.skip(i) =~= seq![124u8] + t + tail);
        assert(s.subrange(i + 1, e) =~= t) by {
            assert forall|k: int| 0 <= k < t.len() implies s.subrange(i + 1, e)[k] == t[k] by {
                assert(s[i + 1 + k] == s.skip(i)[1 + k]);
            }
        }
        assert(s[e] == tail[0]) by {
            assert(s[e] == s.skip(i)[e - i]);
        }
        lemma_marker(s, i + 1, m);
        assert(s.skip(e) =~= tail) by {
            assert forall|k: int| 0 <= k < tail.len() implies s.skip(e)[k] == tail[k] by {
                assert(s[e + k] == s.skip(i)[e - i + k]);
            }
        }
        assert forall|k: int| 0 <= k < rest.len() implies (#[trigger] rest[k]).ok() by {
            assert(rest[k] == marks[k + 1]);
        }
        lemma_markers(s, e, rest, closed);
        assert(markers_end(s, i) == markers_end(s, e));
    }
}

proof fn lemma_mark_cells(marks: Seq<Mark>, open: bool, closed: bool)
    requires
        marks.len() > 0,
        marks_ok(marks),
    ensures
        row_cells(delimiters(marks, open, closed)) matches Some(cells) && cells.len()
            == marks.len() && forall|k: int|
            0 <= k < marks.len() ==> alignment_of(#[trigger] cells[k]) == marks[k].alignment(),
        marks[0].text().len() > 0,
        marks[0].text()[0] != 124,
{
    let texts = mark_texts(marks);
    assert forall|k: int| 0 <= k < texts.len() implies plain_cell(#[trigger] texts[k]) by {
        lemma_mark(marks[k]);
    }
    lemma_mark(marks[0]);
    lemma_mark(marks.last());
    assert(texts[0] == marks[0].text());
    assert(texts.last() == marks.last().text());
    law_row_cells(texts, open, closed);
    let cells = cells_trimmed(texts);
    assert forall|k: int| 0 <= k < marks.len() implies alignment_of(#[trigger] cells[k])
        == marks[k].alignment() by {
        lemma_mark(marks[k]);
    }
}

#[verifier::rlimit(50)]
proof fn lemma_table_start(marks: Seq<Mark>, open: bool, closed: bool)
    requires
        marks.len() > 0,
        marks_ok(marks),
        marks[0].text().len() > 0,
        marks[0].text()[0] != 124,
    ensures
        table_start(delimiters(marks, open, closed)),
{
    let texts = mark_texts(marks);
    let w = row_written(texts, closed);
    let s = delimiters(marks, open, closed);
    let m = marks[0];
    let t = m.text();
    let rest = marks.skip(1);
    assert(texts[0] == t);
    assert(texts.skip(1) =~= mark_texts(rest));
    let i: int = if open {
        1
    } else {
        0
    };
    let e = i + t.len();
    let last = marks.len() == 1 && !closed;
    let tail = if last {
        seq![10u8]
    } else {
        seq![124u8] + row_written(mark_texts(rest), closed)
    };
    assert(w =~= t + tail);
    assert(s =~= if open {
        seq![124u8] + t + tail
    } else {
        t + tail
    });
    assert(s.subrange(i, e) =~= t);
    assert(s[e] == tail[0]);
    lemma_marker(s, i, m);
    assert(s.skip(e) =~= tail);
    assert forall|k: int| 0 <= k < rest.len() implies (#[trigger] rest[k]).ok() by {
        assert(rest[k] == marks[k + 1]);
    }
    lemma_markers(s, e, rest, closed);
    assert(open ==> s[0] == 124);
    assert(!open ==> s[0] == t[0]);
    let j = markers_end(s, e);
    let k = if j < s.len() && s[j] == 124 {
        j + 1
    } else {
        j
    };
    assert(skip_row_spaces(s, k) == k);
    assert(skip_newline(s, k) == k + 1);
    let first: int = if s.len() > 0 && s[0] == 124 {
        1
    } else {
        0
    };
    assert(first == i);
    assert(marker_end(s, first) == Some(e));
    assert(table_start(s));
}

/// A delimiter row as it is written, with or without a `|` before the first mark and behind the
/// last one.
pub open spec fn delimiters(marks: Seq<Mark>, open: bool, closed: bool) -> Seq<u8> {
    let w = row_written(mark_texts(marks), closed);
    if open {
        seq![124u8] + w
    } else {
        w
    }
}

/// A row of such marks is the delimiter row of a table. The colons tell the alignments.
pub proof fn law_delimiter_row(marks: Seq<Mark>, open: bool, closed: bool)
    requires
        marks.len() > 0,
        marks_ok(marks),
    ensures
        table_start(delimiters(marks, open, closed)),
        row_cells(delimiters(marks, open, closed)) matches Some(cells) && cells.len()
            == marks.len() && forall|k: int|
            0 <= k < marks.len() ==> alignment_of(#[trigger] cells[k]) == marks[k].alignment(),
{
    lemma_mark_cells(marks, open, closed);
    lemma_table_start(marks, open, closed);
}

/// A header and a delimiter row make a table if they have the same number of cells, and only then.
pub proof fn law_table_opened(
    cells: Seq<Seq<u8>>,
    marks: Seq<Mark>,
    open: bool,
    closed: bool,
)
    requires
        cells.len() > 0,
        plain_cells(cells),
        marks.len() > 0,
        marks_ok(marks),
    ensures
        ({
            let header = seq![124u8] + row_written(cells, true);
            let line = delimiters(marks, open, closed);
            &&& cells.len() != marks.len() ==> table_opened(header, line) is None
            &&& cells.len() == marks.len() ==> table_opened(header, line) == Some(
                (mark_alignments(marks), cells_trimmed(cells)),
            )
        }),
{
    law_row_cells(cells, true, true);
    law_delimiter_row(marks, open, closed);
    let header = seq![124u8] + row_written(cells, true);
    let line = delimiters(marks, open, closed);
    if cells.len() == marks.len() {
        let (aligns, _) = table_opened(header, line)->0;
        assert forall|k: int| 0 <= k < marks.len() implies aligns[k] == marks[k].alignment() by {
            assert(alignment_of(row_cells(line)->0[k]) == marks[k].alignment());
        }
        assert(aligns =~= mark_alignments(marks));
    }
}

/// The numbers from `from` on, `n` of them.
pub open spec fn numbers_from(from: nat, n: nat) -> Seq<usize> {
    Seq::new(n, |k: int| (from + k) as usize)
}

/// The node is a cell of the row `row`, with this text.
pub open spec fn is_cell(node: NodeView, row: usize, text: Seq<u8>) -> bool {
    node.ast.value is TableCell && node.ast.content == text && node.parent == Some(row)
}

/// Cells become the last children of their row, in their order.
proof fn lemma_cells_in_order(
    t: Seq<NodeView>,
    p: usize,
    line_number: u32,
    column: usize,
    cells: Seq<Seq<u8>>,
)
    requires
        p < t.len(),
        t.len() + cells.len() <= usize::MAX,
    ensures
        cells_appended(t, p, line_number, column, cells).len() == t.len() + cells.len(),
        cells_appended(t, p, line_number, column, cells)[p as int].children
            == t[p as int].children + numbers_from(t.len(), cells.len()),
        forall|m: int|
            #![trigger cells_appended(t, p, line_number, column, cells)[m]]
            0 <= m < t.len() ==> {
                let node = cells_appended(t, p, line_number, column, cells)[m];
                &&& node.ast == t[m].ast
                &&& node.parent == t[m].parent
                &&& m != p ==> node.children == t[m].children
            },
        forall|k: int|
            #![trigger cells[k]]
            0 <= k < cells.len() ==> is_cell(
                cells_appended(t, p, line_number, column, cells)[t.len() + k],
                p,
                cells[k],
            ),
    decreases cells.len(),
{
    let u = cells_appended(t, p, line_number, column, cells);
    if cells.len() > 0 {
        let d = cells.drop_last();
        lemma_cells_in_order(t, p, line_number, column, d);
        let v = cells_appended(t, p, line_number, column, d);
        assert(u[p as int].children =~= t[p as int].children + numbers_from(
            t.len(),
            cells.len(),
        ));
        assert forall|m: int| #![trigger u[m]] 0 <= m < t.len() implies u[m].ast == t[m].ast
            && u[m].parent == t[m].parent && (m != p ==> u[m].children == t[m].children) by {
            assert(v[m].ast == t[m].ast);
        }
        assert forall|k: int| #![trigger cells[k]] 0 <= k < cells.len() implies is_cell(
            u[t.len() + k],
            p,
            cells[k],
        ) by {
            if k < d.len() {
                assert(d[k] == cells[k]);
                assert(is_cell(v[t.len() + k], p, d[k]));
                assert(u[t.len() + k] == v[t.len() + k]);
            }
        }
    } else {
        assert(u[p as int].children =~= t[p as int].children + numbers_from(
            t.len(),
            cells.len(),
        ));
    }
}

/// `row` is a row of the table, with these cells.
pub open spec fn row_stands(
    q: ParserView,
    row: usize,
    table: usize,
    header: bool,
    cells: Seq<Seq<u8>>,
) -> bool {
    &&& q.value(row) == ValueView::TableRow(header)
    &&& q.parent(row) == Some(table)
    &&& q.tree[table as int].children.last() == row
    &&& q.tree[row as int].children.len() == cells.len()
    &&& forall|k: int|
        #![trigger cells[k]]
        0 <= k < cells.len() ==> is_cell(
            q.tree[q.tree[row as int].children[k] as int],
            row,
            cells[k],
        )
}

/// With the extension, a delimiter row under a paragraph that makes a header, with as many cells,
/// turns the paragraph into a table, which takes its place and has the header as its first row.
pub proof fn law_delimiter_row_opens_table(
    p: ParserView,
    line: Seq<u8>,
    container: usize,
    all_matched: bool,
    maybe_lazy: bool,
    aligns: Seq<TableAlignment>,
    cells: Seq<Seq<u8>>,
)
    requires
        opening(p, line, container),
        p.options.ext_table,
        p.cursor.indent < 4,
        marks_nothing(line[p.cursor.first_nonspace]),
        p.value(container) is Paragraph,
        p.parent(container) is Some,
        table_opened(
            p.tree[container as int].ast.content,
            line.skip(p.cursor.first_nonspace),
        ) == Some((aligns, cells)),
        p.tree.len() + 2 + cells.len() <= usize::MAX,
    ensures
        ({
            let above = p.parent(container)->0;
            let before = p.tree[above as int].children;
            p.opened(line, container, all_matched, maybe_lazy) matches Some((q, table)) && {
                let after = q.tree[above as int].children;
                &&& q.value(table) == ValueView::Table(aligns)
                &&& q.tree[table as int].ast.open
                &&& q.parent(table) == Some(above)
                &&& q.parent(container) is None
                &&& after.len() == before.len()
                &&& forall|k: int|
                    0 <= k < before.len() ==> #[trigger] after[k] == if before[k] == container {
                        table
                    } else {
                        before[k]
                    }
                &&& row_stands(q, (table + 1) as usize, table, true, cells)
                &&& q.cursor.offset == line.len() - 1
            }
        }),
{
    reveal(ParserView::table_opened);
    let i = p.cursor.first_nonspace;
    lemma_nothing_marked(p, line, container, all_matched, maybe_lazy);
    lemma_find_first_nonspace(p.cursor, line);
    lemma_advance_to(p.cursor, line, line.len() - 1);
    lemma_advance_bytes(p.cursor, line, line.len() - 1 - p.cursor.offset);
    let column = (i + 1) as usize;
    let above = p.parent(container)->0;
    let before = p.tree[above as int].children;
    let table = p.tree.len() as usize;
    let header = (p.tree.len() + 1) as usize;
    let ast = new_block(ValueView::Table(aligns), p.line_number, column);
    let t = replaced(p.tree, container, ast);
    lemma_replaced_ok(p.tree, container, ast);
    lemma_child_index(p.tree, container);
    let row = new_block(ValueView::TableRow(true), p.line_number, column);
    let u = appended(t, table, row);
    lemma_cells_in_order(u, header, p.line_number, column, cells);
    let (q, c) = p.opened(line, container, all_matched, maybe_lazy)->0;
    assert(c == table);
    let after = q.tree[above as int].children;
    let place = child_index(p.tree, container);
    assert(after == before.update(place, table)) by {
        assert(u[above as int].children == t[above as int].children);
        assert(q.tree[above as int].children == u[above as int].children);
    }
    assert forall|k: int| 0 <= k < before.len() implies #[trigger] after[k] == if before[k]
        == container {
        table
    } else {
        before[k]
    } by {
        lemma_child_place(p.tree, above, k);
    }
    assert(q.tree[container as int].parent == u[container as int].parent);
    assert(q.tree[table as int].ast == u[table as int].ast);
    assert(q.tree[table as int].children == u[table as int].children);
    assert(u[header as int].children =~= Seq::<usize>::empty());
    assert forall|k: int| #![trigger cells[k]] 0 <= k < cells.len() implies is_cell(
        q.tree[q.tree[header as int].children[k] as int],
        header,
        cells[k],
    ) by {
        assert(q.tree[header as int].children[k] == (u.len() + k) as usize);
    }
}

/// A line within a table is a row of it, brought to the number of columns: cells beyond that are
/// left out, and missing ones are empty.
pub proof fn law_line_opens_row(
    p: ParserView,
    line: Seq<u8>,
    container: usize,
    all_matched: bool,
    maybe_lazy: bool,
    aligns: Seq<TableAlignment>,
    cells: Seq<Seq<u8>>,
    fitted: Seq<Seq<u8>>,
)
    requires
        opening(p, line, container),
        p.options.ext_table,
        p.cursor.indent < 4,
        marks_nothing(line[p.cursor.first_nonspace]),
        line[p.cursor.first_nonspace] != 10,
        p.value(container) == ValueView::Table(aligns),
        row_cells(line.skip(p.cursor.first_nonspace)) == Some(cells),
        fitted.len() == aligns.len(),
        forall|k: int|
            #![trigger fitted[k]]
            0 <= k < fitted.len() ==> if k < cells.len() {
                fitted[k] == cells[k]
            } else {
                fitted[k].len() == 0
            },
        p.tree.len() + 1 + aligns.len() <= usize::MAX,
    ensures
        p.opened(line, container, all_matched, maybe_lazy) matches Some((q, row)) && {
            &&& row == p.tree.len()
            &&& row_stands(q, row, container, false, fitted)
            &&& q.cursor.offset == line.len() - 1
        },
{
    reveal(ParserView::table_opened);
    let i = p.cursor.first_nonspace;
    lemma_nothing_marked(p, line, container, all_matched, maybe_lazy);
    lemma_find_first_nonspace(p.cursor, line);
    lemma_advance_to(p.cursor, line, line.len() - 1);
    lemma_advance_bytes(p.cursor, line, line.len() - 1 - p.cursor.offset);
    let column = (i + 1) as usize;
    let made = cells_fitted(cells, aligns.len());
    assert forall|k: int| 0 <= k < made.len() implies made[k] == fitted[k] by {
        assert(k >= cells.len() ==> fitted[k] =~= Seq::<u8>::empty());
    }
    assert(made =~= fitted);
    let n = p.tree.len() as usize;
    let row = new_block(ValueView::TableRow(false), p.line_number, column);
    let t = appended(p.tree, container, row);
    lemma_cells_in_order(t, n, p.line_number, column, fitted);
    assert(!line_end(line[i]));
    let (q, c) = p.opened(line, container, all_matched, maybe_lazy)->0;
    assert(c == n);
    assert(q.tree[container as int].children == t[container as int].children);
    assert(t[n as int].children =~= Seq::<usize>::empty());
    assert forall|k: int| #![trigger fitted[k]] 0 <= k < fitted.len() implies is_cell(
        q.tree[q.tree[n as int].children[k] as int],
        n,
        fitted[k],
    ) by {
        assert(q.tree[n as int].children[k] == (t.len() + k) as usize);
    }
}

/// Without the extension, no line opens a table or a row.
pub proof fn law_tables_need_the_extension(
    p: ParserView,
    line: Seq<u8>,
    container: usize,
    all_matched: bool,
    maybe_lazy: bool,
)
    requires
        opening(p, line, container),
        !p.options.ext_table,
        p.cursor.indent < 4,
        marks_nothing(line[p.cursor.first_nonspace]),
    ensures
        p.opened(line, container, all_matched, maybe_lazy) is None,
{
    lemma_nothing_marked(p, line, container, all_matched, maybe_lazy);
}

} // verus!
