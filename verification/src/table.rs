//! The rows of tables.
use crate::ctype::{is_punct, ispunct};
use crate::nodes::TableAlignment;
use crate::strings::{copy_range, trim, trimmed};
use vstd::prelude::*;

verus! {

/// White space within a row.
pub open spec fn row_space(c: u8) -> bool {
    c == 32 || c == 9 || c == 11 || c == 12
}

/// The first index from `i` on that holds no white space of a row.
pub open spec fn skip_row_spaces(s: Seq<u8>, i: int) -> int
    decreases s.len() - i,
{
    if 0 <= i < s.len() && row_space(s[i]) {
        skip_row_spaces(s, i + 1)
    } else {
        i
    }
}

/// The index behind a line feed, or behind a carriage return and a line feed, at `i`; or `i`.
pub open spec fn skip_newline(s: Seq<u8>, i: int) -> int {
    if 0 <= i < s.len() && s[i] == 10 {
        i + 1
    } else if 0 <= i && i + 1 < s.len() && s[i] == 13 && s[i + 1] == 10 {
        i + 2
    } else {
        i
    }
}

/// The end of the cell at `i`: a `|` that is not escaped, or the end of the line.
pub open spec fn cell_stop(s: Seq<u8>, i: int) -> int
    decreases s.len() - i,
{
    if !(0 <= i < s.len()) || s[i] == 124 || s[i] == 10 || s[i] == 13 {
        i
    } else if s[i] == 92 && i + 1 < s.len() && is_punct(s[i + 1]) {
        cell_stop(s, i + 2)
    } else {
        cell_stop(s, i + 1)
    }
}

/// The index behind the `|` at `i`, and the white space and the line end that may follow it;
/// or `i`.
pub open spec fn after_pipe(s: Seq<u8>, i: int) -> int {
    if 0 <= i < s.len() && s[i] == 124 {
        skip_newline(s, skip_row_spaces(s, i + 1))
    } else {
        i
    }
}

/// The index behind a line end that only white space precedes; or `i`.
pub open spec fn after_row(s: Seq<u8>, i: int) -> int {
    let j = skip_row_spaces(s, i);
    if skip_newline(s, j) > j {
        skip_newline(s, j)
    } else {
        i
    }
}

/// The text with every `\|` made `|`.
pub open spec fn pipes_unescaped(s: Seq<u8>) -> Seq<u8>
    decreases s.len(),
{
    if s.len() == 0 {
        s
    } else if s[0] == 92 && s.len() > 1 && s[1] == 124 {
        seq![124u8] + pipes_unescaped(s.skip(2))
    } else {
        seq![s[0]] + pipes_unescaped(s.skip(1))
    }
}

/// The cell that is written from `i` up to `j`.
pub open spec fn cell_text(s: Seq<u8>, i: int, j: int) -> Seq<u8> {
    trimmed(pipes_unescaped(s.subrange(i, j)))
}

/// The index behind the cell at `i` and what ends it.
pub open spec fn after_cell(s: Seq<u8>, i: int) -> int {
    let c = cell_stop(s, i);
    if after_pipe(s, c) > c {
        after_pipe(s, c)
    } else {
        after_row(s, c)
    }
}

/// The cells before the one at `i`, and that one, unless there is nothing there.
pub open spec fn cells_and(cells: Seq<Seq<u8>>, s: Seq<u8>, i: int) -> Seq<Seq<u8>> {
    let c = cell_stop(s, i);
    if c > i || after_pipe(s, c) > c {
        cells.push(cell_text(s, i, c))
    } else {
        cells
    }
}

/// The cells of a row that `cells` starts and that goes on at `i`, if it goes on to the end.
pub open spec fn row_from(s: Seq<u8>, i: int, cells: Seq<Seq<u8>>) -> Option<Seq<Seq<u8>>>
    decreases s.len() - i,
{
    let f = after_cell(s, i);
    let more = cells_and(cells, s, i);
    if i < f < s.len() {
        row_from(s, f, more)
    } else if f == s.len() && more.len() > 0 {
        Some(more)
    } else {
        None
    }
}

/// The cells of a row, the first of which may have a `|` before it.
pub open spec fn row_cells(s: Seq<u8>) -> Option<Seq<Seq<u8>>> {
    row_from(
        s,
        if s.len() > 0 && s[0] == 124 {
            1
        } else {
            0
        },
        Seq::empty(),
    )
}

/// The end of a delimiter cell at `i`: hyphens, with an optional colon on either side.
pub open spec fn marker_end(s: Seq<u8>, i: int) -> Option<int> {
    let a = skip_row_spaces(s, i);
    let b = if a < s.len() && s[a] == 58 {
        a + 1
    } else {
        a
    };
    let c = crate::strings::skip_run(s, b, 45);
    let d = if c < s.len() && s[c] == 58 {
        c + 1
    } else {
        c
    };
    if c > b {
        Some(skip_row_spaces(s, d))
    } else {
        None
    }
}

/// The index behind the delimiter cells that follow one another from the `|` at `i` on.
pub open spec fn markers_end(s: Seq<u8>, i: int) -> int
    decreases s.len() - i,
{
    if 0 <= i < s.len() && s[i] == 124 {
        match marker_end(s, i + 1) {
            Some(e) => if i < e <= s.len() {
                markers_end(s, e)
            } else {
                i
            },
            None => i,
        }
    } else {
        i
    }
}

/// The text is the delimiter row of a table.
pub open spec fn table_start(s: Seq<u8>) -> bool {
    let i = if s.len() > 0 && s[0] == 124 {
        1int
    } else {
        0
    };
    match marker_end(s, i) {
        Some(e) => {
            let j = markers_end(s, e);
            let k = if j < s.len() && s[j] == 124 {
                j + 1
            } else {
                j
            };
            let l = skip_row_spaces(s, k);
            skip_newline(s, l) > l
        },
        None => false,
    }
}

/// What the colons of a delimiter cell say.
pub open spec fn alignment_of(cell: Seq<u8>) -> TableAlignment {
    let left = cell.len() > 0 && cell[0] == 58;
    let right = cell.len() > 0 && cell.last() == 58;
    if left && right {
        TableAlignment::Center
    } else if left {
        TableAlignment::Left
    } else if right {
        TableAlignment::Right
    } else {
        TableAlignment::Unset
    }
}

pub open spec fn alignments_of(cells: Seq<Seq<u8>>) -> Seq<TableAlignment> {
    Seq::new(cells.len(), |i: int| alignment_of(cells[i]))
}

/// The alignments and the header cells of the table that `header` and the delimiter row `line`
/// open together, which they do if they have the same number of cells.
pub open spec fn table_opened(header: Seq<u8>, line: Seq<u8>) -> Option<
    (Seq<TableAlignment>, Seq<Seq<u8>>),
> {
    if table_start(line) && row_cells(header) is Some && row_cells(line) is Some && row_cells(
        header,
    )->0.len() == row_cells(line)->0.len() {
        Some((alignments_of(row_cells(line)->0), row_cells(header)->0))
    } else {
        None
    }
}

/// The bytes of every cell.
pub open spec fn cells_view(v: Seq<Vec<u8>>) -> Seq<Seq<u8>> {
    Seq::new(v.len(), |i: int| v[i]@)
}

fn after_row_spaces(s: &[u8], start: usize) -> (r: usize)
    requires
        start <= s@.len(),
    ensures
        r == skip_row_spaces(s@, start as int),
        start <= r <= s@.len(),
{
    let mut i: usize = start;
    while i < s.len() && (s[i] == 32 || s[i] == 9 || s[i] == 11 || s[i] == 12)
        invariant
            start <= i <= s@.len(),
            skip_row_spaces(s@, start as int) == skip_row_spaces(s@, i as int),
        decreases s@.len() - i,
    {
        i += 1;
    }
    i
}

fn after_newline(s: &[u8], i: usize) -> (r: usize)
    requires
        i <= s@.len(),
    ensures
        r == skip_newline(s@, i as int),
        i <= r <= s@.len(),
{
    if i < s.len() && s[i] == 10 {
        i + 1
    } else if s.len() - i > 1 && s[i] == 13 && s[i + 1] == 10 {
        i + 2
    } else {
        i
    }
}

fn find_cell_stop(s: &[u8], start: usize) -> (r: usize)
    requires
        start <= s@.len(),
    ensures
        r == cell_stop(s@, start as int),
        start <= r <= s@.len(),
{
    let mut i: usize = start;
    while i < s.len() && s[i] != 124 && s[i] != 10 && s[i] != 13
        invariant
            start <= i <= s@.len(),
            cell_stop(s@, start as int) == cell_stop(s@, i as int),
        decreases s@.len() - i,
    {
        if s[i] == 92 && s.len() - i > 1 && ispunct(s[i + 1]) {
            i += 2;
        } else {
            i += 1;
        }
    }
    i
}

fn unescape_pipes(v: &[u8]) -> (r: Vec<u8>)
    ensures
        r@ == pipes_unescaped(v@),
{
    let ghost s = v@;
    let mut r: Vec<u8> = Vec::new();
    let mut i: usize = 0;
    assert(s.skip(0) == s);
    while i < v.len()
        invariant
            i <= v@.len(),
            v@ == s,
            pipes_unescaped(s) == r@ + pipes_unescaped(s.skip(i as int)),
        decreases v@.len() - i,
    {
        let ghost t = s.skip(i as int);
        let ghost r0 = r@;
        if v[i] == 92 && v.len() - i > 1 && v[i + 1] == 124 {
            r.push(124);
            assert(t.skip(2) == s.skip(i + 2));
            assert(r@ + pipes_unescaped(t.skip(2)) == r0 + (seq![124u8] + pipes_unescaped(
                t.skip(2),
            )));
            i += 2;
        } else {
            r.push(v[i]);
            assert(t.skip(1) == s.skip(i + 1));
            assert(r@ + pipes_unescaped(t.skip(1)) == r0 + (seq![t[0]] + pipes_unescaped(
                t.skip(1),
            )));
            i += 1;
        }
    }
    assert(r@ == pipes_unescaped(s));
    r
}

/// Reads the cells of a row.
pub fn row(s: &[u8]) -> (r: Option<Vec<Vec<u8>>>)
    ensures
        match r {
            Some(v) => row_cells(s@) == Some(cells_view(v@)),
            None => row_cells(s@) is None,
        },
{
    let len: usize = s.len();
    let mut i: usize = if len > 0 && s[0] == 124 {
        1
    } else {
        0
    };
    let mut v: Vec<Vec<u8>> = Vec::new();
    assert(cells_view(v@) =~= Seq::empty());
    loop
        invariant
            len == s@.len(),
            i <= len,
            row_cells(s@) == row_from(s@, i as int, cells_view(v@)),
        decreases len - i,
    {
        let ghost before = cells_view(v@);
        let c: usize = find_cell_stop(s, i);
        let e: usize = if c < len && s[c] == 124 {
            let b: usize = after_row_spaces(s, c + 1);
            after_newline(s, b)
        } else {
            c
        };
        if c > i || e > c {
            let raw: Vec<u8> = copy_range(s, i, c);
            let mut cell: Vec<u8> = unescape_pipes(raw.as_slice());
            trim(&mut cell);
            v.push(cell);
            assert(cells_view(v@) =~= before.push(cell@));
        }
        let f: usize = if e > c {
            e
        } else {
            let b: usize = after_row_spaces(s, c);
            let n: usize = after_newline(s, b);
            if n > b {
                n
            } else {
                c
            }
        };
        assert(f == after_cell(s@, i as int));
        assert(cells_view(v@) == cells_and(before, s@, i as int));
        if f > i && f < len {
            i = f;
        } else if f == len && v.len() > 0 {
            return Some(v);
        } else {
            return None;
        }
    }
}

/// Whether the text is a row of a table.
pub fn matches(s: &[u8]) -> (r: bool)
    ensures
        r == (row_cells(s@) is Some),
{
    row(s).is_some()
}

fn after_marker(s: &[u8], i: usize) -> (r: Option<usize>)
    requires
        i <= s@.len(),
    ensures
        match r {
            Some(e) => marker_end(s@, i as int) == Some(e as int) && i < e <= s@.len(),
            None => marker_end(s@, i as int) is None,
        },
{
    let mut b: usize = after_row_spaces(s, i);
    if b < s.len() && s[b] == 58 {
        b += 1;
    }
    let mut c: usize = crate::strings::after_run(s, b, 45);
    if c == b {
        return None;
    }
    if c < s.len() && s[c] == 58 {
        c += 1;
    }
    Some(after_row_spaces(s, c))
}

fn after_markers(s: &[u8], start: usize) -> (r: usize)
    requires
        start <= s@.len(),
    ensures
        r == markers_end(s@, start as int),
        start <= r <= s@.len(),
{
    let mut i: usize = start;
    while i < s.len() && s[i] == 124
        invariant
            start <= i <= s@.len(),
            markers_end(s@, start as int) == markers_end(s@, i as int),
        decreases s@.len() - i,
    {
        match after_marker(s, i + 1) {
            Some(e) => {
                i = e;
            },
            None => {
                return i;
            },
        }
    }
    i
}

fn is_table_start(s: &[u8]) -> (r: bool)
    ensures
        r == table_start(s@),
{
    let i: usize = if s.len() > 0 && s[0] == 124 {
        1
    } else {
        0
    };
    match after_marker(s, i) {
        Some(e) => {
            let mut k: usize = after_markers(s, e);
            if k < s.len() && s[k] == 124 {
                k += 1;
            }
            let l: usize = after_row_spaces(s, k);
            after_newline(s, l) > l
        },
        None => false,
    }
}

fn alignment(cell: &Vec<u8>) -> (r: TableAlignment)
    ensures
        r == alignment_of(cell@),
{
    let n: usize = cell.len();
    let left: bool = n > 0 && cell[0] == 58;
    let right: bool = n > 0 && cell[n - 1] == 58;
    if left && right {
        TableAlignment::Center
    } else if left {
        TableAlignment::Left
    } else if right {
        TableAlignment::Right
    } else {
        TableAlignment::Unset
    }
}

/// Reads the header of a table.
pub fn try_opening_header(header: &[u8], line: &[u8]) -> (r: Option<
    (Vec<TableAlignment>, Vec<Vec<u8>>),
>)
    ensures
        match r {
            Some((aligns, cells)) => table_opened(header@, line@) == Some(
                (aligns@, cells_view(cells@)),
            ),
            None => table_opened(header@, line@) is None,
        },
{
    if !is_table_start(line) {
        return None;
    }
    let header_row: Vec<Vec<u8>> = match row(header) {
        Some(v) => v,
        None => {
            return None;
        },
    };
    let marker_row: Vec<Vec<u8>> = match row(line) {
        Some(v) => v,
        None => {
            return None;
        },
    };
    if header_row.len() != marker_row.len() {
        return None;
    }
    let mut aligns: Vec<TableAlignment> = Vec::new();
    let mut i: usize = 0;
    while i < marker_row.len()
        invariant
            i <= marker_row@.len(),
            aligns@.len() == i,
            forall|k: int|
                0 <= k < i ==> aligns@[k] == alignment_of(#[trigger] cells_view(marker_row@)[k]),
        decreases marker_row@.len() - i,
    {
        aligns.push(alignment(&marker_row[i]));
        i += 1;
    }
    assert(aligns@ =~= alignments_of(cells_view(marker_row@)));
    Some((aligns, header_row))
}

} // verus!
