use vstd::prelude::*;

use crate::table::{text_len, Index, SheetModel, Spreadsheet};

verus! {

/// `n` heavy horizontal rule glyphs.
pub open spec fn rule(n: int) -> Seq<char> {
    Seq::new(n as nat, |_i: int| '━')
}

/// `n` spaces.
pub open spec fn spaces(n: int) -> Seq<char> {
    Seq::new(n as nat, |_i: int| ' ')
}

/// The part of a border line that spans column `c`: the joiner, except before
/// the first column, then a rule two wider than the column.
pub open spec fn border_segment(joiner: Seq<char>, widths: Seq<usize>, c: int) -> Seq<char> {
    (if c > 0 { joiner } else { Seq::empty() }) + rule(widths[c] + 2)
}

/// The left edge followed by the segments of the first `n` columns.
pub open spec fn border_prefix(left: Seq<char>, joiner: Seq<char>, widths: Seq<usize>, n: nat) -> Seq<char>
    decreases n,
{
    if n == 0 {
        left
    } else {
        border_prefix(left, joiner, widths, (n - 1) as nat) + border_segment(joiner, widths, n - 1)
    }
}

/// A full border line over columns of the given widths: the left edge, the
/// columns' rules joined by the joiner, and the right edge.
pub open spec fn border_text(left: Seq<char>, joiner: Seq<char>, right: Seq<char>, widths: Seq<usize>) -> Seq<char> {
    border_prefix(left, joiner, widths, widths.len()) + right
}

/// Builds one border line: `left`, then for each column a rule of its width plus
/// two, with `joiner` between columns, then `right`.
pub fn border_line(left: &str, joiner: &str, right: &str, widths: &[usize]) -> (r: String)
    ensures
        r@ == border_text(left@, joiner@, right@, widths@),
{
    let mut line = String::new();
    line.append(left);
    proof {
        assert(line@ =~= border_prefix(left@, joiner@, widths@, 0));
    }
    for c in 0..widths.len()
        invariant
            line@ == border_prefix(left@, joiner@, widths@, c as nat),
    {
        if c > 0 {
            line.append(joiner);
        }
        let ghost start = line@;
        proof {
            assert(start =~= border_prefix(left@, joiner@, widths@, c as nat) + (if c > 0 { joiner@ } else { Seq::empty() }));
        }
        let w = widths[c];
        line.append("━");
        proof {
            reveal_strlit("━");
            assert(line@ =~= start + rule(1));
        }
        for k in 0..w
            invariant
                line@ == start + rule(k + 1),
        {
            line.append("━");
            proof {
                reveal_strlit("━");
                assert(line@ =~= start + rule(k + 2));
            }
        }
        line.append("━");
        proof {
            reveal_strlit("━");
            assert(line@ =~= start + rule(w + 2));
            assert(line@ =~= border_prefix(left@, joiner@, widths@, (c + 1) as nat));
        }
    }
    line.append(right);
    line
}

/// The text at (`r`, `c`), or the empty text where nothing is stored.
pub open spec fn cell_text(m: SheetModel, r: usize, c: usize) -> Seq<char> {
    if m.cells.contains_key((r, c)) {
        m.cells[(r, c)]
    } else {
        Seq::empty()
    }
}

/// The byte length of the text at (`r`, `c`); 0 where nothing is stored.
pub open spec fn cell_len(m: SheetModel, r: usize, c: usize) -> usize {
    text_len(cell_text(m, r, c))
}

/// The largest cell length in column `c` over the first `n` rows.
pub open spec fn width_upto(m: SheetModel, c: usize, n: nat) -> usize
    decreases n,
{
    if n == 0 {
        0
    } else {
        let w = width_upto(m, c, (n - 1) as nat);
        let l = cell_len(m, (n - 1) as usize, c);
        if l > w {
            l
        } else {
            w
        }
    }
}

/// The width of column `c`: its largest cell length over all rows within the bounds.
pub open spec fn column_width(m: SheetModel, c: usize) -> usize {
    width_upto(m, c, (m.max_row + 1) as nat)
}

/// The widths of all columns within the bounds.
pub open spec fn column_widths_of(m: SheetModel) -> Seq<usize> {
    Seq::new((m.max_col + 1) as nat, |c: int| column_width(m, c as usize))
}

/// The part of a data line that holds column `c`: a space, the text padded with
/// spaces to the column's width, a space and a vertical bar.
pub open spec fn data_segment(m: SheetModel, widths: Seq<usize>, r: usize, c: int) -> Seq<char> {
    seq![' '] + cell_text(m, r, c as usize) + spaces(widths[c] - cell_len(m, r, c as usize)) + seq![' ', '┃']
}

/// A vertical bar followed by the segments of the first `n` columns of row `r`.
pub open spec fn data_prefix(m: SheetModel, widths: Seq<usize>, r: usize, n: nat) -> Seq<char>
    decreases n,
{
    if n == 0 {
        seq!['┃']
    } else {
        data_prefix(m, widths, r, (n - 1) as nat) + data_segment(m, widths, r, n - 1)
    }
}

/// The data line of row `r`.
pub open spec fn data_text(m: SheetModel, widths: Seq<usize>, r: usize) -> Seq<char> {
    data_prefix(m, widths, r, widths.len())
}

pub open spec fn top_border(widths: Seq<usize>) -> Seq<char> {
    border_text(seq!['┏'], seq!['┳'], seq!['┓'], widths)
}

pub open spec fn separator(widths: Seq<usize>) -> Seq<char> {
    border_text(seq!['┣'], seq!['╋'], seq!['┫'], widths)
}

pub open spec fn bottom_border(widths: Seq<usize>) -> Seq<char> {
    border_text(seq!['┗'], seq!['┻'], seq!['┛'], widths)
}

/// The lines of the first `n` rows: each data line followed by a separator, or
/// by the bottom border after the last row within the bounds.
pub open spec fn row_lines(m: SheetModel, widths: Seq<usize>, n: nat) -> Seq<Seq<char>>
    decreases n,
{
    if n == 0 {
        Seq::empty()
    } else {
        let r = (n - 1) as usize;
        row_lines(m, widths, (n - 1) as nat) + seq![
            data_text(m, widths, r),
            if r < m.max_row { separator(widths) } else { bottom_border(widths) },
        ]
    }
}

/// The lines of the rendered table: the top border, then the lines of every row.
pub open spec fn table_lines(m: SheetModel) -> Seq<Seq<char>> {
    let widths = column_widths_of(m);
    seq![top_border(widths)] + row_lines(m, widths, (m.max_row + 1) as nat)
}

/// Lines joined, each ended by a newline.
pub open spec fn joined_lines(lines: Seq<Seq<char>>) -> Seq<char>
    decreases lines.len(),
{
    if lines.len() == 0 {
        Seq::empty()
    } else {
        joined_lines(lines.drop_last()) + lines.last() + seq!['\n']
    }
}

/// The rendered table as one text.
pub open spec fn table_text(m: SheetModel) -> Seq<char> {
    joined_lines(table_lines(m))
}

/// A cell never outgrows the width of its column over rows that include it.
proof fn lemma_cell_within_width(m: SheetModel, r: usize, c: usize, n: nat)
    requires
        r < n,
    ensures
        cell_len(m, r, c) <= width_upto(m, c, n),
    decreases n,
{
    if r < n - 1 {
        lemma_cell_within_width(m, r, c, (n - 1) as nat);
    }
}

/// A nonzero width over the first `n` rows is the length of a text stored in one of them.
proof fn lemma_width_attained(m: SheetModel, c: usize, n: nat)
    requires
        n <= usize::MAX + 1,
    ensures
        width_upto(m, c, n) == 0 || exists|r: usize| r < n && #[trigger] m.cells.contains_key((r, c))
            && text_len(m.cells[(r, c)]) == width_upto(m, c, n),
    decreases n,
{
    if n > 0 {
        lemma_width_attained(m, c, (n - 1) as nat);
        let r = (n - 1) as usize;
        if cell_len(m, r, c) > width_upto(m, c, (n - 1) as nat) {
            if !m.cells.contains_key((r, c)) {
                assert(cell_len(m, r, c) == 0) by {
                    reveal_with_fuel(vstd::utf8::encode_utf8, 1);
                }
            }
            assert(m.cells.contains_key((r, c)));
        }
    }
}

/// The width of a column is the largest byte length among the texts stored in
/// it, and 0 where nothing (or only empty text) is stored there; positions where
/// nothing is stored play no part.
pub proof fn lemma_column_width_is_max(m: SheetModel, c: usize)
    requires
        m.bounded(),
    ensures
        forall|r: usize| #[trigger] m.cells.contains_key((r, c)) ==> text_len(m.cells[(r, c)]) <= column_width(m, c),
        column_width(m, c) == 0 || exists|r: usize| #[trigger] m.cells.contains_key((r, c))
            && text_len(m.cells[(r, c)]) == column_width(m, c),
{
    assert forall|r: usize| #[trigger] m.cells.contains_key((r, c)) implies text_len(m.cells[(r, c)]) <= column_width(m, c) by {
        lemma_cell_within_width(m, r, c, (m.max_row + 1) as nat);
    }
    lemma_width_attained(m, c, (m.max_row + 1) as nat);
}

/// The first `n` rows give two lines each: the data line, then a separator or,
/// after the last row within the bounds, the bottom border.
proof fn lemma_row_lines_shape(m: SheetModel, widths: Seq<usize>, n: nat)
    requires
        n <= usize::MAX + 1,
    ensures
        row_lines(m, widths, n).len() == 2 * n,
        forall|r: int| 0 <= r < n ==> #[trigger] row_lines(m, widths, n)[2 * r] == data_text(m, widths, r as usize),
        forall|r: int| 0 <= r < n ==> #[trigger] row_lines(m, widths, n)[2 * r + 1] == if r < m.max_row {
            separator(widths)
        } else {
            bottom_border(widths)
        },
    decreases n,
{
    if n > 0 {
        lemma_row_lines_shape(m, widths, (n - 1) as nat);
        let prev = row_lines(m, widths, (n - 1) as nat);
        let all = row_lines(m, widths, n);
        assert forall|r: int| 0 <= r < n implies #[trigger] all[2 * r] == data_text(m, widths, r as usize) by {
            if r < n - 1 {
                assert(all[2 * r] == prev[2 * r]);
            }
        }
        assert forall|r: int| 0 <= r < n implies #[trigger] all[2 * r + 1] == if r < m.max_row {
            separator(widths)
        } else {
            bottom_border(widths)
        } by {
            if r < n - 1 {
                assert(all[2 * r + 1] == prev[2 * r + 1]);
            }
        }
    }
}

/// A grid with bounds (R, C) renders as exactly 1 + 2 * (R + 1) lines: the top
/// border, then for each row its data line followed by a separator, or by the
/// bottom border after the last row.
pub proof fn lemma_table_shape(m: SheetModel)
    ensures
        table_lines(m).len() == 1 + 2 * (m.max_row + 1),
        table_lines(m)[0] == top_border(column_widths_of(m)),
        forall|r: int| 0 <= r <= m.max_row ==> #[trigger] table_lines(m)[2 * r + 1] == data_text(
            m,
            column_widths_of(m),
            r as usize,
        ),
        forall|r: int| 0 <= r < m.max_row ==> #[trigger] table_lines(m)[2 * r + 2] == separator(column_widths_of(m)),
        table_lines(m)[2 * m.max_row + 2] == bottom_border(column_widths_of(m)),
{
    let widths = column_widths_of(m);
    let n = (m.max_row + 1) as nat;
    lemma_row_lines_shape(m, widths, n);
    let rows = row_lines(m, widths, n);
    assert forall|r: int| 0 <= r <= m.max_row implies #[trigger] table_lines(m)[2 * r + 1] == data_text(m, widths, r as usize) by {
        assert(table_lines(m)[2 * r + 1] == rows[2 * r]);
    }
    assert forall|r: int| 0 <= r < m.max_row implies #[trigger] table_lines(m)[2 * r + 2] == separator(widths) by {
        assert(table_lines(m)[2 * r + 2] == rows[2 * r + 1]);
    }
    assert(table_lines(m)[2 * m.max_row + 2] == rows[2 * m.max_row + 1]);
}

/// The number of newlines in `s`.
pub open spec fn newline_count(s: Seq<char>) -> nat
    decreases s.len(),
{
    if s.len() == 0 {
        0
    } else {
        newline_count(s.drop_last()) + if s.last() == '\n' { 1nat } else { 0nat }
    }
}

/// `s` holds no newline.
pub open spec fn no_newline(s: Seq<char>) -> bool {
    forall|i: int| 0 <= i < s.len() ==> s[i] != '\n'
}

proof fn lemma_newline_count_add(a: Seq<char>, b: Seq<char>)
    ensures
        newline_count(a + b) == newline_count(a) + newline_count(b),
    decreases b.len(),
{
    if b.len() == 0 {
        assert(a + b =~= a);
    } else {
        lemma_newline_count_add(a, b.drop_last());
        assert((a + b).drop_last() =~= a + b.drop_last());
    }
}

proof fn lemma_newline_free(s: Seq<char>)
    requires
        no_newline(s),
    ensures
        newline_count(s) == 0,
    decreases s.len(),
{
    if s.len() > 0 {
        lemma_newline_free(s.drop_last());
    }
}

proof fn lemma_border_prefix_newline_free(left: Seq<char>, joiner: Seq<char>, widths: Seq<usize>, n: nat)
    requires
        no_newline(left),
        no_newline(joiner),
        n <= widths.len(),
    ensures
        no_newline(border_prefix(left, joiner, widths, n)),
    decreases n,
{
    if n > 0 {
        lemma_border_prefix_newline_free(left, joiner, widths, (n - 1) as nat);
        let a = border_prefix(left, joiner, widths, (n - 1) as nat);
        let sep: Seq<char> = if n - 1 > 0 { joiner } else { Seq::empty() };
        let b = sep + rule(widths[n - 1] + 2);
        assert(no_newline(b));
        assert(no_newline(a + b));
    }
}

proof fn lemma_border_newline_free(left: char, joiner: char, right: char, widths: Seq<usize>)
    requires
        left != '\n',
        joiner != '\n',
        right != '\n',
    ensures
        no_newline(border_text(seq![left], seq![joiner], seq![right], widths)),
{
    lemma_border_prefix_newline_free(seq![left], seq![joiner], widths, widths.len());
    let a = border_prefix(seq![left], seq![joiner], widths, widths.len());
    assert(no_newline(a + seq![right]));
}

proof fn lemma_data_prefix_newline_free(m: SheetModel, widths: Seq<usize>, r: usize, n: nat)
    requires
        forall|k: (usize, usize)| #[trigger] m.cells.contains_key(k) ==> no_newline(m.cells[k]),
        n <= widths.len(),
    ensures
        no_newline(data_prefix(m, widths, r, n)),
    decreases n,
{
    if n > 0 {
        lemma_data_prefix_newline_free(m, widths, r, (n - 1) as nat);
        let c = n - 1;
        let a = data_prefix(m, widths, r, (n - 1) as nat);
        let t = cell_text(m, r, c as usize);
        assert(no_newline(t));
        let b = seq![' '] + t + spaces(widths[c] - cell_len(m, r, c as usize)) + seq![' ', '┃'];
        assert(no_newline(b));
        assert(data_segment(m, widths, r, c) == b);
        assert(no_newline(a + b));
    }
}

proof fn lemma_joined_newlines(lines: Seq<Seq<char>>)
    requires
        forall|i: int| 0 <= i < lines.len() ==> no_newline(#[trigger] lines[i]),
    ensures
        newline_count(joined_lines(lines)) == lines.len(),
    decreases lines.len(),
{
    if lines.len() > 0 {
        let init = lines.drop_last();
        assert forall|i: int| 0 <= i < init.len() implies no_newline(#[trigger] init[i]) by {
            assert(init[i] == lines[i]);
        }
        lemma_joined_newlines(init);
        lemma_newline_free(lines.last());
        lemma_newline_count_add(joined_lines(init), lines.last());
        lemma_newline_count_add(joined_lines(init) + lines.last(), seq!['\n']);
        assert(seq!['\n'].drop_last() =~= Seq::<char>::empty());
        assert(newline_count(Seq::<char>::empty()) == 0);
        assert(newline_count(seq!['\n']) == 1);
    }
}

/// When no stored text holds a newline, the rendered text of a grid with bounds
/// (R, C) holds exactly 1 + 2 * (R + 1) newlines, one at the end of each line,
/// and ends with one.
pub proof fn lemma_text_line_count(m: SheetModel)
    requires
        forall|k: (usize, usize)| #[trigger] m.cells.contains_key(k) ==> no_newline(m.cells[k]),
    ensures
        newline_count(table_text(m)) == 1 + 2 * (m.max_row + 1),
        table_text(m).last() == '\n',
{
    lemma_table_shape(m);
    let lines = table_lines(m);
    let widths = column_widths_of(m);
    assert forall|i: int| 0 <= i < lines.len() implies no_newline(#[trigger] lines[i]) by {
        if i == 0 {
            lemma_border_newline_free('┏', '┳', '┓', widths);
        } else if i % 2 == 1 {
            let r = (i - 1) / 2;
            assert(lines[2 * r + 1] == data_text(m, widths, r as usize));
            lemma_data_prefix_newline_free(m, widths, r as usize, widths.len());
        } else {
            let r = (i - 2) / 2;
            if r < m.max_row {
                assert(lines[2 * r + 2] == separator(widths));
                lemma_border_newline_free('┣', '╋', '┫', widths);
            } else {
                assert(lines[2 * m.max_row + 2] == bottom_border(widths));
                lemma_border_newline_free('┗', '┻', '┛', widths);
            }
        }
    }
    lemma_joined_newlines(lines);
}

/// Rendering depends on the grid's state alone: two grids in the same state,
/// however their cells were set, render the same lines and the same text, and so
/// do two renders of one grid with no change in between.
pub proof fn lemma_render_deterministic(a: &Spreadsheet, b: &Spreadsheet)
    requires
        a@ == b@,
    ensures
        table_lines(a@) == table_lines(b@),
        table_text(a@) == table_text(b@),
{
}

impl Spreadsheet {
    /// The width of each column within the bounds: the largest byte length of
    /// the texts stored in it, 0 for a column where nothing is stored.
    pub fn column_widths(&self) -> (r: Vec<usize>)
        requires
            self.wf(),
            self@.max_row < usize::MAX,
            self@.max_col < usize::MAX,
        ensures
            r@ == column_widths_of(self@),
    {
        let ghost m = self@;
        let ncols = self.max_col_index() + 1;
        let nrows = self.max_row_index() + 1;
        let mut widths: Vec<usize> = Vec::new();
        for c in 0..ncols
            invariant
                widths@.len() == c,
                forall|j: int| 0 <= j < c ==> widths@[j] == 0,
        {
            widths.push(0);
        }
        let mut row: usize = 0;
        while row < nrows
            invariant
                self.wf(),
                m == self@,
                nrows == m.max_row + 1,
                ncols == m.max_col + 1,
                0 <= row <= nrows,
                widths@.len() == ncols,
                forall|j: int| 0 <= j < ncols ==> widths@[j] == #[trigger] width_upto(m, j as usize, row as nat),
            decreases nrows - row,
        {
            let mut col: usize = 0;
            while col < ncols
                invariant
                    self.wf(),
                    m == self@,
                    ncols == m.max_col + 1,
                    row < nrows,
                    0 <= col <= ncols,
                    widths@.len() == ncols,
                    forall|j: int| 0 <= j < col ==> widths@[j] == #[trigger] width_upto(m, j as usize, (row + 1) as nat),
                    forall|j: int| col <= j < ncols ==> widths@[j] == #[trigger] width_upto(m, j as usize, row as nat),
                decreases ncols - col,
            {
                let ghost prev = widths@;
                assert(prev[col as int] == width_upto(m, (col as int) as usize, row as nat));
                match self.get(Index(row, col)) {
                    Some(text) => {
                        let len = text.as_str().len();
                        if len >= widths[col] {
                            widths.set(col, len);
                        }
                    },
                    None => {
                        assert(cell_len(m, row, col) == 0) by {
                            reveal_with_fuel(vstd::utf8::encode_utf8, 1);
                        }
                    },
                }
                assert(width_upto(m, col, (row + 1) as nat) == if cell_len(m, row, col) > prev[col as int] {
                    cell_len(m, row, col)
                } else {
                    prev[col as int]
                });
                assert(widths@[col as int] == width_upto(m, (col as int) as usize, (row + 1) as nat));
                col = col + 1;
            }
            let ghost done = row;
            row = row + 1;
            assert(row as nat == (done + 1) as nat);
        }
        assert(widths@ =~= column_widths_of(m));
        widths
    }

    /// Builds the data line of `row`: each cell's text padded with spaces to its
    /// column's width, framed by one space on each side and vertical bars.
    fn data_line(&self, widths: &[usize], row: usize) -> (r: String)
        requires
            self.wf(),
            widths@ == column_widths_of(self@),
            row <= self@.max_row,
        ensures
            r@ == data_text(self@, widths@, row),
    {
        let ghost m = self@;
        let empty = String::new();
        let mut line = String::new();
        line.append("┃");
        proof {
            reveal_strlit("┃");
            assert(line@ =~= data_prefix(m, widths@, row, 0));
        }
        for c in 0..widths.len()
            invariant
                self.wf(),
                m == self@,
                widths@ == column_widths_of(m),
                row <= m.max_row,
                empty@ == Seq::<char>::empty(),
                line@ == data_prefix(m, widths@, row, c as nat),
        {
            let ghost start = line@;
            let text: &String = match self.get(Index(row, c)) {
                Some(t) => t,
                None => &empty,
            };
            assert(text@ == cell_text(m, row, c));
            let len = text.as_str().len();
            proof {
                lemma_cell_within_width(m, row, c, (m.max_row + 1) as nat);
            }
            let w = widths[c];
            line.append(" ");
            line.append(text.as_str());
            proof {
                reveal_strlit(" ");
                assert(line@ =~= start + seq![' '] + cell_text(m, row, c) + spaces(0));
            }
            for k in len..w
                invariant
                    line@ == start + seq![' '] + cell_text(m, row, c) + spaces(k - len),
            {
                line.append(" ");
                proof {
                    reveal_strlit(" ");
                    assert(line@ =~= start + seq![' '] + cell_text(m, row, c) + spaces(k + 1 - len));
                }
            }
            line.append(" ");
            line.append("┃");
            proof {
                reveal_strlit(" ");
                reveal_strlit("┃");
                assert(line@ =~= data_prefix(m, widths@, row, (c + 1) as nat));
            }
        }
        line
    }

    /// The lines of the rendered table: the top border, then for each row within
    /// the bounds its data line and a separator, or the bottom border after the
    /// last row.
    pub fn render_lines(&self) -> (r: Vec<String>)
        requires
            self.wf(),
            self@.max_row < usize::MAX,
            self@.max_col < usize::MAX,
        ensures
            r@.map_values(|s: String| s@) == table_lines(self@),
            r@.len() == 2 * self@.max_row + 3,
    {
        let ghost m = self@;
        let widths = self.column_widths();
        let nrows = self.max_row_index() + 1;
        let mut lines: Vec<String> = Vec::new();
        let top = border_line("┏", "┳", "┓", widths.as_slice());
        proof {
            reveal_strlit("┏");
            assert("┏"@ =~= seq!['┏']);
            reveal_strlit("┳");
            assert("┳"@ =~= seq!['┳']);
            reveal_strlit("┓");
            assert("┓"@ =~= seq!['┓']);
        }
        lines.push(top);
        proof {
            assert(lines@.map_values(|s: String| s@) =~= seq![top_border(widths@)] + row_lines(m, widths@, 0));
        }
        let mut row: usize = 0;
        while row < nrows
            invariant
                self.wf(),
                m == self@,
                nrows == m.max_row + 1,
                0 <= row <= nrows,
                widths@ == column_widths_of(m),
                lines@.map_values(|s: String| s@) == seq![top_border(widths@)] + row_lines(m, widths@, row as nat),
                lines@.len() == 1 + 2 * row,
            decreases nrows - row,
        {
            let ghost before = lines@.map_values(|s: String| s@);
            let data = self.data_line(widths.as_slice(), row);
            lines.push(data);
            let border = if row + 1 < nrows {
                proof {
                    reveal_strlit("┣");
                    assert("┣"@ =~= seq!['┣']);
                    reveal_strlit("╋");
                    assert("╋"@ =~= seq!['╋']);
                    reveal_strlit("┫");
                    assert("┫"@ =~= seq!['┫']);
                }
                border_line("┣", "╋", "┫", widths.as_slice())
            } else {
                proof {
                    reveal_strlit("┗");
                    assert("┗"@ =~= seq!['┗']);
                    reveal_strlit("┻");
                    assert("┻"@ =~= seq!['┻']);
                    reveal_strlit("┛");
                    assert("┛"@ =~= seq!['┛']);
                }
                border_line("┗", "┻", "┛", widths.as_slice())
            };
            lines.push(border);
            proof {
                let want = if row < m.max_row { separator(widths@) } else { bottom_border(widths@) };
                assert(border@ == want);
                assert(row_lines(m, widths@, (row + 1) as nat) == row_lines(m, widths@, row as nat) + seq![
                    data_text(m, widths@, row),
                    want,
                ]);
                assert(lines@.map_values(|s: String| s@) =~= before.push(data_text(m, widths@, row)).push(want));
                assert(lines@.map_values(|s: String| s@) =~= seq![top_border(widths@)] + row_lines(m, widths@, (row + 1) as nat));
            }
            row = row + 1;
        }
        lines
    }

    /// The rendered table as one text, each line ended by a newline.
    pub fn render(&self) -> (r: String)
        requires
            self.wf(),
            self@.max_row < usize::MAX,
            self@.max_col < usize::MAX,
        ensures
            r@ == table_text(self@),
    {
        let lines = self.render_lines();
        let ghost all = lines@.map_values(|s: String| s@);
        let mut text = String::new();
        proof {
            reveal_strlit("\n");
            assert(all.take(0) =~= Seq::<Seq<char>>::empty());
        }
        for i in 0..lines.len()
            invariant
                all == lines@.map_values(|s: String| s@),
                text@ == joined_lines(all.take(i as int)),
        {
            text.append(lines[i].as_str());
            text.append("\n");
            proof {
                reveal_strlit("\n");
                assert(all.take(i + 1).drop_last() =~= all.take(i as int));
                assert(text@ =~= joined_lines(all.take(i + 1)));
            }
        }
        proof {
            assert(all.take(lines@.len() as int) =~= all);
        }
        text
    }
}

} // verus!
