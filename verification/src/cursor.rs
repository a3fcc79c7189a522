//! The position within a line: a byte offset and the column that goes with it.
use crate::strings::{is_line_end_char, lemma_skip_blanks, line_end, skip_blanks, space_or_tab};
use vstd::prelude::*;

verus! {

/// Tab stops stand every four columns.
pub const TAB_STOP: usize = 4;

/// From this indentation on, a line is indented code.
pub const CODE_INDENT: usize = 4;

/// Where the parser stands in the line, and what it knows of the indentation there.
#[derive(Clone, Copy)]
pub struct Cursor {
    pub offset: usize,
    pub column: usize,
    pub first_nonspace: usize,
    pub first_nonspace_column: usize,
    pub indent: usize,
    pub blank: bool,
    pub partially_consumed_tab: bool,
}

/// A cursor over mathematical integers.
pub struct CursorView {
    pub offset: int,
    pub column: int,
    pub first_nonspace: int,
    pub first_nonspace_column: int,
    pub indent: int,
    pub blank: bool,
    pub partially_consumed_tab: bool,
}

impl View for Cursor {
    type V = CursorView;

    open spec fn view(&self) -> CursorView {
        CursorView {
            offset: self.offset as int,
            column: self.column as int,
            first_nonspace: self.first_nonspace as int,
            first_nonspace_column: self.first_nonspace_column as int,
            indent: self.indent as int,
            blank: self.blank,
            partially_consumed_tab: self.partially_consumed_tab,
        }
    }
}

/// The columns of a line of this length, and a little more, fit in a `usize`.
pub open spec fn length_ok(len: int) -> bool {
    4 * len + 64 <= usize::MAX
}

/// A line that the block structure is read from: it ends in a line feed, and no other line end
/// occurs in it.
pub open spec fn line_ok(line: Seq<u8>) -> bool {
    &&& line.len() > 0
    &&& line.last() == 10
    &&& forall|k: int| 0 <= k < line.len() - 1 ==> !line_end(#[trigger] line[k])
    &&& length_ok(line.len() as int)
}

/// The columns from `col` to the next tab stop.
pub open spec fn tab_width(col: int) -> int {
    TAB_STOP - col % (TAB_STOP as int)
}

/// The column behind a byte that stands at column `col`.
pub open spec fn next_column(c: u8, col: int) -> int {
    if c == 9 {
        col + tab_width(col)
    } else {
        col + 1
    }
}

/// The column at index `j`, where index `i` stands at column `col`.
pub open spec fn column_at(line: Seq<u8>, i: int, j: int, col: int) -> int
    decreases j - i,
{
    if i < j {
        column_at(line, i + 1, j, next_column(line[i], col))
    } else {
        col
    }
}

impl CursorView {
    /// The cursor lies within a line of `len` bytes, and its column is one that the offset allows.
    pub open spec fn within(self, len: int) -> bool {
        0 <= self.offset <= len && 0 <= self.column <= 4 * self.offset + 3
    }

    /// The cursor stands on a byte of the line.
    pub open spec fn on(self, line: Seq<u8>) -> bool {
        self.within(line.len() as int) && self.offset < line.len()
    }

    /// A tab of which some columns are left stands at the offset.
    pub open spec fn tab_ok(self, line: Seq<u8>) -> bool {
        self.partially_consumed_tab ==> self.on(line) && line[self.offset] == 9
    }

    /// The indentation has been measured at the offset.
    pub open spec fn measured(self, line: Seq<u8>) -> bool {
        self == self.find_first_nonspace(line)
    }

    /// The cursor with the indentation measured at its offset.
    pub open spec fn find_first_nonspace(self, line: Seq<u8>) -> CursorView {
        let i = skip_blanks(line, self.offset);
        let col = column_at(line, self.offset, i, self.column);
        CursorView {
            first_nonspace: i,
            first_nonspace_column: col,
            indent: col - self.column,
            blank: i < line.len() && line_end(line[i]),
            ..self
        }
    }

    /// The cursor after the single byte or part of a tab that `count` reaches, and how much of
    /// `count` that takes.
    pub open spec fn step(self, line: Seq<u8>, count: int, columns: bool) -> (CursorView, int) {
        let width = tab_width(self.column);
        if line[self.offset] == 9 && columns {
            let partial = width > count;
            let taken = if partial {
                count
            } else {
                width
            };
            (
                CursorView {
                    partially_consumed_tab: partial,
                    column: self.column + taken,
                    offset: if partial {
                        self.offset
                    } else {
                        self.offset + 1
                    },
                    ..self
                },
                taken,
            )
        } else {
            (
                CursorView {
                    partially_consumed_tab: false,
                    column: next_column(line[self.offset], self.column),
                    offset: self.offset + 1,
                    ..self
                },
                1,
            )
        }
    }

    /// The cursor moved on by `count` columns, or by `count` bytes.
    pub open spec fn advance(self, line: Seq<u8>, count: int, columns: bool) -> CursorView
        decreases count,
    {
        if count > 0 && 0 <= self.offset < line.len() {
            let (next, taken) = self.step(line, count, columns);
            if taken > 0 {
                next.advance(line, count - taken, columns)
            } else {
                next
            }
        } else {
            self
        }
    }

    /// Moving on by `count` does not run past the end of the line.
    pub open spec fn can_advance(self, line: Seq<u8>, count: int, columns: bool) -> bool
        decreases count,
    {
        count > 0 ==> {
            &&& 0 <= self.offset < line.len()
            &&& {
                let (next, taken) = self.step(line, count, columns);
                0 < taken && next.can_advance(line, count - taken, columns)
            }
        }
    }
}

/// The column grows by one to four with every byte.
pub proof fn lemma_column_at(line: Seq<u8>, i: int, j: int, col: int)
    requires
        0 <= i <= j <= line.len(),
        0 <= col,
    ensures
        col + (j - i) <= column_at(line, i, j, col),
        col <= 4 * i + 3 ==> column_at(line, i, j, col) <= 4 * j + 3,
        column_at(line, i, j, col) <= col + 4 * (j - i),
    decreases j - i,
{
    if i < j {
        lemma_column_at(line, i + 1, j, next_column(line[i], col));
    }
}

/// Columns can be counted in two parts.
pub proof fn lemma_column_at_split(line: Seq<u8>, i: int, k: int, j: int, col: int)
    requires
        0 <= i <= k <= j <= line.len(),
    ensures
        column_at(line, i, j, col) == column_at(line, k, j, column_at(line, i, k, col)),
    decreases k - i,
{
    if i < k {
        lemma_column_at_split(line, i + 1, k, j, next_column(line[i], col));
    }
}

/// What the measured indentation is bounded by.
pub proof fn lemma_find_first_nonspace(c: CursorView, line: Seq<u8>)
    requires
        c.within(line.len() as int),
    ensures
        ({
            let f = c.find_first_nonspace(line);
            &&& f.offset == c.offset
            &&& f.column == c.column
            &&& f.within(line.len() as int)
            &&& f.partially_consumed_tab == c.partially_consumed_tab
            &&& c.offset <= f.first_nonspace <= line.len()
            &&& c.column <= f.first_nonspace_column <= 4 * f.first_nonspace + 3
            &&& 0 <= f.indent
            &&& f.first_nonspace - c.offset <= f.indent
            &&& forall|k: int|
                c.offset <= k < f.first_nonspace ==> space_or_tab(#[trigger] line[k])
            &&& f.first_nonspace < line.len() ==> !space_or_tab(line[f.first_nonspace])
            &&& line_ok(line) && c.offset < line.len() ==> f.first_nonspace < line.len()
        }),
{
    lemma_skip_blanks(line, c.offset);
    lemma_column_at(line, c.offset, skip_blanks(line, c.offset), c.column);
    if line_ok(line) && c.offset < line.len() && skip_blanks(line, c.offset) == line.len() {
        assert(space_or_tab(line[line.len() - 1]));
    }
}

/// A move keeps the cursor within the line and never goes back.
pub proof fn lemma_advance_within(c: CursorView, line: Seq<u8>, count: int, columns: bool)
    requires
        c.within(line.len() as int),
        0 <= count,
    ensures
        c.advance(line, count, columns).within(line.len() as int),
        c.offset <= c.advance(line, count, columns).offset,
        c.column <= c.advance(line, count, columns).column,
        c.advance(line, count, columns).offset <= c.offset + count,
        c.advance(line, count, columns).first_nonspace == c.first_nonspace,
        c.advance(line, count, columns).first_nonspace_column == c.first_nonspace_column,
        c.advance(line, count, columns).indent == c.indent,
        c.advance(line, count, columns).blank == c.blank,
    decreases count,
{
    if count > 0 && c.offset < line.len() {
        let (next, taken) = c.step(line, count, columns);
        if taken > 0 {
            lemma_advance_within(next, line, count - taken, columns);
        }
    }
}

/// A move leaves a tab in part only where it stops on one.
pub proof fn lemma_advance_tab(c: CursorView, line: Seq<u8>, count: int, columns: bool)
    requires
        c.within(line.len() as int),
        c.tab_ok(line),
        0 <= count,
    ensures
        c.advance(line, count, columns).tab_ok(line),
    decreases count,
{
    if count > 0 && c.offset < line.len() {
        let (next, taken) = c.step(line, count, columns);
        if taken > 0 {
            lemma_advance_tab(next, line, count - taken, columns);
        }
    }
}

/// A move that is counted in bytes goes on by exactly that many bytes.
pub proof fn lemma_advance_bytes(c: CursorView, line: Seq<u8>, count: int)
    requires
        c.within(line.len() as int),
        0 <= count,
        c.offset + count <= line.len(),
    ensures
        c.can_advance(line, count, false),
        c.advance(line, count, false).offset == c.offset + count,
        c.advance(line, count, false).column == column_at(
            line,
            c.offset,
            c.offset + count,
            c.column,
        ),
        count > 0 ==> !c.advance(line, count, false).partially_consumed_tab,
    decreases count,
{
    if count > 0 {
        let (next, taken) = c.step(line, count, false);
        lemma_advance_bytes(next, line, count - 1);
        if count > 1 {
        } else {
            assert(next.advance(line, 0, false) == next);
        }
    }
}

/// A move that is counted in columns goes on by exactly that many columns.
pub proof fn lemma_advance_columns(c: CursorView, line: Seq<u8>, count: int)
    requires
        c.within(line.len() as int),
        0 <= count,
        c.can_advance(line, count, true),
    ensures
        c.advance(line, count, true).column == c.column + count,
    decreases count,
{
    if count > 0 {
        let (next, taken) = c.step(line, count, true);
        lemma_advance_columns(next, line, count - taken);
    }
}

/// Columns of white space can be consumed, tabs in part if need be, and what is left of them
/// still ends at the same column.
pub proof fn lemma_advance_blanks(c: CursorView, line: Seq<u8>, count: int, j: int)
    requires
        c.within(line.len() as int),
        0 <= count,
        c.offset <= j <= line.len(),
        forall|k: int| c.offset <= k < j ==> space_or_tab(#[trigger] line[k]),
        count <= column_at(line, c.offset, j, c.column) - c.column,
    ensures
        c.can_advance(line, count, true),
        c.advance(line, count, true).offset <= j,
        column_at(
            line,
            c.advance(line, count, true).offset,
            j,
            c.advance(line, count, true).column,
        ) == column_at(line, c.offset, j, c.column),
    decreases count,
{
    if count > 0 {
        if c.offset == j {
            assert(false);
        }
        let (next, taken) = c.step(line, count, true);
        assert(space_or_tab(line[c.offset]));
        if line[c.offset] == 9 && tab_width(c.column) > count {
            assert(next.advance(line, 0, true) == next);
            assert(next.can_advance(line, 0, true));
            assert(next.column + tab_width(next.column) == c.column + tab_width(c.column));
            assert(column_at(line, next.offset, j, next.column) == column_at(
                line,
                c.offset + 1,
                j,
                next_column(9, next.column),
            ));
        } else {
            lemma_advance_blanks(next, line, count - taken, j);
        }
    }
}

/// White space of `count` columns and the byte behind it, which is no tab, can be consumed in
/// one move.
pub proof fn lemma_advance_past(c: CursorView, line: Seq<u8>, count: int, j: int)
    requires
        c.within(line.len() as int),
        c.offset <= j < line.len(),
        forall|k: int| c.offset <= k < j ==> space_or_tab(#[trigger] line[k]),
        count == column_at(line, c.offset, j, c.column) - c.column,
        line[j] != 9,
    ensures
        c.can_advance(line, count + 1, true),
        c.advance(line, count + 1, true).offset == j + 1,
    decreases j - c.offset,
{
    lemma_column_at(line, c.offset, j, c.column);
    let (next, taken) = c.step(line, count + 1, true);
    if c.offset < j {
        assert(space_or_tab(line[c.offset]));
        lemma_column_at(line, c.offset + 1, j, next_column(line[c.offset], c.column));
        lemma_advance_past(next, line, count - taken, j);
        assert((count + 1) - taken == (count - taken) + 1);
    } else {
        assert(next.advance(line, 0, true) == next);
        assert(next.can_advance(line, 0, true));
    }
}

/// One column of white space can be consumed, and the line goes on behind it.
pub proof fn lemma_advance_one(c: CursorView, line: Seq<u8>)
    requires
        line_ok(line),
        c.on(line),
        space_or_tab(line[c.offset]),
    ensures
        c.tab_ok(line) ==> c.advance(line, 1, true).tab_ok(line),
        c.can_advance(line, 1, true),
        c.advance(line, 1, true).on(line),
        c.advance(line, 1, true).column == c.column + 1,
        c.advance(line, 1, true).offset <= c.offset + 1,
{
    if c.tab_ok(line) {
        lemma_advance_tab(c, line, 1, true);
    }
    lemma_column_at(line, c.offset, c.offset + 1, c.column);
    lemma_advance_blanks(c, line, 1, c.offset + 1);
    lemma_advance_within(c, line, 1, true);
    lemma_advance_columns(c, line, 1);
    assert(c.offset != line.len() - 1);
}

/// Some or all of the columns of the indentation can be consumed.
pub proof fn lemma_advance_indent(c: CursorView, line: Seq<u8>, count: int)
    requires
        line_ok(line),
        c.on(line),
        c.measured(line),
        0 <= count <= c.indent,
    ensures
        c.tab_ok(line) ==> c.advance(line, count, true).tab_ok(line),
        c.can_advance(line, count, true),
        c.advance(line, count, true).on(line),
        c.advance(line, count, true).offset <= c.first_nonspace,
{
    if c.tab_ok(line) {
        lemma_advance_tab(c, line, count, true);
    }
    lemma_find_first_nonspace(c, line);
    lemma_advance_blanks(c, line, count, c.first_nonspace);
    lemma_advance_within(c, line, count, true);
}

/// The cursor can move on to any byte of the line behind it.
pub proof fn lemma_advance_to(c: CursorView, line: Seq<u8>, i: int)
    requires
        c.within(line.len() as int),
        c.offset <= i <= line.len(),
    ensures
        c.tab_ok(line) ==> c.advance(line, i - c.offset, false).tab_ok(line),
        c.can_advance(line, i - c.offset, false),
        c.advance(line, i - c.offset, false).within(line.len() as int),
        c.advance(line, i - c.offset, false).offset == i,
{
    if c.tab_ok(line) {
        lemma_advance_tab(c, line, i - c.offset, false);
    }
    lemma_advance_bytes(c, line, i - c.offset);
    lemma_advance_within(c, line, i - c.offset, false);
}

/// The marker of a block quote, and the indentation before it, can be consumed.
pub proof fn lemma_advance_marker(c: CursorView, line: Seq<u8>)
    requires
        line_ok(line),
        c.on(line),
        c.measured(line),
        line[c.first_nonspace] == 62,
    ensures
        c.tab_ok(line) ==> c.advance(line, c.indent + 1, true).tab_ok(line),
        c.can_advance(line, c.indent + 1, true),
        c.advance(line, c.indent + 1, true).on(line),
        c.advance(line, c.indent + 1, true).offset == c.first_nonspace + 1,
{
    lemma_find_first_nonspace(c, line);
    if c.tab_ok(line) {
        lemma_advance_tab(c, line, c.indent + 1, true);
    }
    lemma_advance_past(c, line, c.indent, c.first_nonspace);
    lemma_advance_within(c, line, c.indent + 1, true);
    assert(c.first_nonspace != line.len() - 1);
}

impl Cursor {
    /// The start of a line.
    pub fn start() -> (r: Cursor)
        ensures
            r@ == (CursorView {
                offset: 0,
                column: 0,
                first_nonspace: 0,
                first_nonspace_column: 0,
                indent: 0,
                blank: false,
                partially_consumed_tab: false,
            }),
    {
        Cursor {
            offset: 0,
            column: 0,
            first_nonspace: 0,
            first_nonspace_column: 0,
            indent: 0,
            blank: false,
            partially_consumed_tab: false,
        }
    }

    /// Measures the indentation from the offset on.
    pub fn find_first_nonspace(&mut self, line: &[u8])
        requires
            old(self)@.within(line@.len() as int),
            length_ok(line@.len() as int),
        ensures
            final(self)@ == old(self)@.find_first_nonspace(line@),
    {
        let mut i: usize = self.offset;
        let mut col: usize = self.column;
        let mut chars_to_tab: usize = TAB_STOP - (self.column % TAB_STOP);
        loop
            invariant_except_break
                length_ok(line@.len() as int),
                *self == *old(self),
                old(self)@.within(line@.len() as int),
                self.offset <= i <= line@.len(),
                chars_to_tab == tab_width(col as int),
                0 <= col <= 4 * i + 3,
                skip_blanks(line@, self.offset as int) == skip_blanks(line@, i as int),
                col == column_at(line@, self.offset as int, i as int, self.column as int),
            ensures
                *self == *old(self),
                self.offset <= i <= line@.len(),
                i == skip_blanks(line@, self.offset as int),
                col == column_at(line@, self.offset as int, i as int, self.column as int),
                self.column <= col,
            decreases line@.len() - i,
        {
            proof {
                lemma_column_at(line@, self.offset as int, i as int, self.column as int);
            }
            if i >= line.len() {
                break ;
            }
            let c: u8 = line[i];
            if c == 32 {
                proof {
                    lemma_column_at_split(
                        line@,
                        self.offset as int,
                        i as int,
                        i + 1,
                        self.column as int,
                    );
                    reveal_with_fuel(column_at, 2);
                }
                i += 1;
                col += 1;
                chars_to_tab -= 1;
                if chars_to_tab == 0 {
                    chars_to_tab = TAB_STOP;
                }
            } else if c == 9 {
                proof {
                    lemma_column_at_split(
                        line@,
                        self.offset as int,
                        i as int,
                        i + 1,
                        self.column as int,
                    );
                    reveal_with_fuel(column_at, 2);
                }
                i += 1;
                col += chars_to_tab;
                chars_to_tab = TAB_STOP;
            } else {
                break ;
            }
        }
        self.first_nonspace = i;
        self.first_nonspace_column = col;
        self.indent = col - self.column;
        self.blank = i < line.len() && is_line_end_char(line[i]);
    }

    /// Moves on by `count` columns or, where `columns` is false, by `count` bytes. A tab that
    /// is wider than the columns left is consumed in part: the cursor stays on it.
    pub fn advance_offset(&mut self, line: &[u8], count: usize, columns: bool)
        requires
            old(self)@.within(line@.len() as int),
            length_ok(line@.len() as int),
            old(self)@.can_advance(line@, count as int, columns),
        ensures
            final(self)@ == old(self)@.advance(line@, count as int, columns),
    {
        let mut left: usize = count;
        while left > 0
            invariant
                self@.within(line@.len() as int),
                length_ok(line@.len() as int),
                self@.can_advance(line@, left as int, columns),
                self@.advance(line@, left as int, columns) == old(self)@.advance(
                    line@,
                    count as int,
                    columns,
                ),
            decreases left,
        {
            let ghost before = self@;
            let ghost (next, taken) = before.step(line@, left as int, columns);
            if line[self.offset] == 9 {
                let chars_to_tab: usize = TAB_STOP - (self.column % TAB_STOP);
                if columns {
                    self.partially_consumed_tab = chars_to_tab > left;
                    let chars_to_advance: usize = if chars_to_tab > left {
                        left
                    } else {
                        chars_to_tab
                    };
                    self.column += chars_to_advance;
                    if !self.partially_consumed_tab {
                        self.offset += 1;
                    }
                    left -= chars_to_advance;
                } else {
                    self.partially_consumed_tab = false;
                    self.column += chars_to_tab;
                    self.offset += 1;
                    left -= 1;
                }
            } else {
                self.partially_consumed_tab = false;
                self.offset += 1;
                self.column += 1;
                left -= 1;
            }
            assert(self@ == next);
        }
    }
}

proof fn lemma_column_behind(line: Seq<u8>, i: int, col: int)
    ensures
        column_at(line, i, i + 1, col) == next_column(line[i], col),
{
    let next = next_column(line[i], col);
    assert(column_at(line, i + 1, i + 1, next) == next);
}

/// A byte that is no tab takes one column. A tab reaches to the next column that is a multiple of
/// four, and takes at least one.
pub proof fn law_columns(line: Seq<u8>, i: int, j: int, col: int)
    requires
        0 <= i < j <= line.len(),
        0 <= col,
    ensures
        column_at(line, i, i, col) == col,
        line[j - 1] != 9 ==> column_at(line, i, j, col) == column_at(line, i, j - 1, col) + 1,
        line[j - 1] == 9 ==> ({
            let before = column_at(line, i, j - 1, col);
            let after = column_at(line, i, j, col);
            after % 4 == 0 && before < after <= before + 4
        }),
{
    lemma_column_at(line, i, j - 1, col);
    lemma_column_at_split(line, i, j - 1, j, col);
    let before = column_at(line, i, j - 1, col);
    lemma_column_behind(line, j - 1, before);
}

/// The indentation goes up to the first byte that is neither a space nor a tab. It is measured in
/// columns, from the column of the cursor. The line is blank from there if it ends there.
pub proof fn law_indentation(c: CursorView, line: Seq<u8>, j: int)
    requires
        c.within(line.len() as int),
        c.offset <= j < line.len(),
        forall|k: int| c.offset <= k < j ==> #[trigger] line[k] == 32 || line[k] == 9,
        line[j] != 32 && line[j] != 9,
    ensures
        ({
            let f = c.find_first_nonspace(line);
            &&& f.offset == c.offset && f.column == c.column
            &&& f.partially_consumed_tab == c.partially_consumed_tab
            &&& f.first_nonspace == j
            &&& f.first_nonspace_column == column_at(line, c.offset, j, c.column)
            &&& f.indent == f.first_nonspace_column - c.column
            &&& f.blank == (line[j] == 10 || line[j] == 13)
            &&& (forall|k: int| c.offset <= k < j ==> #[trigger] line[k] == 32) ==> f.indent == j
                - c.offset
        }),
{
    lemma_skip_blanks(line, c.offset);
    let i = skip_blanks(line, c.offset);
    if i < j {
        assert(line[i] == 32 || line[i] == 9);
    }
    if j < i {
        assert(space_or_tab(line[j]));
    }
    if forall|k: int| c.offset <= k < j ==> #[trigger] line[k] == 32 {
        lemma_spaces_columns(line, c.offset, j, c.column);
    }
}

proof fn lemma_spaces_columns(line: Seq<u8>, i: int, j: int, col: int)
    requires
        0 <= i <= j <= line.len(),
        forall|k: int| i <= k < j ==> #[trigger] line[k] == 32,
    ensures
        column_at(line, i, j, col) == col + j - i,
    decreases j - i,
{
    if i < j {
        assert(line[i] == 32);
        lemma_spaces_columns(line, i + 1, j, col + 1);
    }
}

/// Moving on by columns over white space takes exactly these columns. A tab that reaches further
/// stays under the cursor, and is known to be consumed in part.
pub proof fn law_columns_consumed(c: CursorView, line: Seq<u8>, count: int)
    requires
        c.on(line),
        count > 0,
        line[c.offset] == 32 || line[c.offset] == 9,
    ensures
        ({
            let width = column_at(line, c.offset, c.offset + 1, c.column) - c.column;
            let d = c.advance(line, count, true);
            &&& width > count ==> d.offset == c.offset && d.column == c.column + count
                && d.partially_consumed_tab
            &&& width == count ==> d.offset == c.offset + 1 && d.column == c.column + count
                && !d.partially_consumed_tab
            &&& width < count ==> d == (CursorView {
                offset: c.offset + 1,
                column: c.column + width,
                partially_consumed_tab: false,
                ..c
            }).advance(line, count - width, true)
        }),
{
    let (next, taken) = c.step(line, count, true);
    lemma_column_behind(line, c.offset, c.column);
    if taken == count {
        assert(next.advance(line, 0, true) == next);
    }
}

/// Moving on by bytes goes exactly as many bytes on, whatever they are, and no tab is left in part
/// behind it.
pub proof fn law_bytes_consumed(c: CursorView, line: Seq<u8>, count: int)
    requires
        c.within(line.len() as int),
        0 < count <= line.len() - c.offset,
    ensures
        ({
            let d = c.advance(line, count, false);
            &&& d.offset == c.offset + count
            &&& d.column == column_at(line, c.offset, c.offset + count, c.column)
            &&& !d.partially_consumed_tab
        }),
{
    lemma_advance_bytes(c, line, count);
}

} // verus!
