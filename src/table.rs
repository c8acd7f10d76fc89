use vstd::prelude::*;

verus! {

/// Length of a text in bytes of its UTF-8 encoding, as `str::len` gives it.
pub open spec fn text_len(s: Seq<char>) -> usize {
    vstd::utf8::encode_utf8(s).len() as usize
}

/// A zero-based (row, column) position in a grid.
#[derive(Clone, Copy, Debug, Hash, PartialEq, Eq)]
pub struct Index(pub usize, pub usize);

impl Index {
    pub open spec fn key(self) -> (usize, usize) {
        (self.0, self.1)
    }
}

/// The abstract state of a grid: its bounds and the text stored at each position.
pub ghost struct SheetModel {
    pub max_row: usize,
    pub max_col: usize,
    pub cells: Map<(usize, usize), Seq<char>>,
}

impl SheetModel {
    /// A grid on which nothing was set: bounds (0, 0), no cells.
    pub open spec fn empty() -> SheetModel {
        SheetModel { max_row: 0, max_col: 0, cells: Map::empty() }
    }

    /// The grid with its bounds grown to cover `k`.
    pub open spec fn cover(self, k: (usize, usize)) -> SheetModel {
        SheetModel {
            max_row: if k.0 > self.max_row { k.0 } else { self.max_row },
            max_col: if k.1 > self.max_col { k.1 } else { self.max_col },
            cells: self.cells,
        }
    }

    /// The grid after storing `text` at `k`.
    pub open spec fn set(self, k: (usize, usize), text: Seq<char>) -> SheetModel {
        SheetModel { cells: self.cells.insert(k, text), ..self.cover(k) }
    }

    /// Every stored position lies within the bounds.
    pub open spec fn bounded(self) -> bool {
        forall|k: (usize, usize)| #[trigger] self.cells.contains_key(k)
            ==> k.0 <= self.max_row && k.1 <= self.max_col
    }
}

/// A sparse grid of text cells whose bounds grow to cover every position set.
pub struct Spreadsheet {
    max_row_idx: usize,
    max_col_idx: usize,
    data: Vec<(Index, String)>,
}

impl View for Spreadsheet {
    type V = SheetModel;

    closed spec fn view(&self) -> SheetModel {
        SheetModel {
            max_row: self.max_row_idx,
            max_col: self.max_col_idx,
            cells: Map::new(
                |k: (usize, usize)| exists|i: int| 0 <= i < self.data.len() && #[trigger] self.data[i].0.key() == k,
                |k: (usize, usize)| self.data[choose|i: int| 0 <= i < self.data.len() && #[trigger] self.data[i].0.key() == k].1@,
            ),
        }
    }
}

impl Spreadsheet {
    /// No position is stored twice, and every stored position lies within the bounds.
    pub closed spec fn wf(&self) -> bool {
        &&& forall|i: int, j: int|
            0 <= i < self.data.len() && 0 <= j < self.data.len() && i != j
                ==> #[trigger] self.data[i].0.key() != #[trigger] self.data[j].0.key()
        &&& forall|i: int| 0 <= i < self.data.len()
            ==> (#[trigger] self.data[i].0).0 <= self.max_row_idx && self.data[i].0.1 <= self.max_col_idx
    }

    /// A well-formed grid stores nothing outside its bounds.
    pub proof fn lemma_wf_bounded(&self)
        requires
            self.wf(),
        ensures
            self@.bounded(),
    {
        assert forall|k: (usize, usize)| #[trigger] self@.cells.contains_key(k)
            implies k.0 <= self@.max_row && k.1 <= self@.max_col
        by {
            let w = choose|j: int| 0 <= j < self.data.len() && #[trigger] self.data[j].0.key() == k;
            assert(self.data[w].0.key() == k);
        }
    }

    /// An empty grid with bounds (0, 0).
    pub fn new() -> (r: Spreadsheet)
        ensures
            r.wf(),
            r@ == SheetModel::empty(),
    {
        let r = Spreadsheet { max_row_idx: 0, max_col_idx: 0, data: Vec::new() };
        assert(r@.cells =~= Map::empty());
        r
    }

    /// Grows the bounds to cover `index`; the cells stay as they are.
    pub fn update_bounds(&mut self, index: Index)
        requires
            old(self).wf(),
        ensures
            final(self).wf(),
            final(self)@ == old(self)@.cover(index.key()),
    {
        if index.0 > self.max_row_idx {
            self.max_row_idx = index.0;
        }
        if index.1 > self.max_col_idx {
            self.max_col_idx = index.1;
        }
        assert(self@.cells =~= old(self)@.cells);
    }

    /// Stores `value` at `index`, replacing what was there, and grows the bounds to cover it.
    pub fn set(&mut self, index: Index, value: String)
        requires
            old(self).wf(),
        ensures
            final(self).wf(),
            final(self)@ == old(self)@.set(index.key(), value@),
    {
        self.update_bounds(index);
        let ghost pre = *self;
        assert(pre.wf());
        let n = self.data.len();
        let mut i: usize = 0;
        while i < n
            invariant
                *self == pre,
                pre.wf(),
                pre@ == old(self)@.cover(index.key()),
                n == self.data.len(),
                0 <= i <= n,
                forall|j: int| 0 <= j < i ==> (#[trigger] self.data[j].0).key() != index.key(),
            decreases n - i,
        {
            if self.data[i].0.0 == index.0 && self.data[i].0.1 == index.1 {
                self.data.set(i, (index, value));
                proof {
                    Spreadsheet::lemma_store(&pre, self, i as int, index.key());
                    assert(self@ == old(self)@.set(index.key(), self.data[i as int].1@));
                }
                return;
            }
            i = i + 1;
        }
        self.data.push((index, value));
        proof {
            Spreadsheet::lemma_store(&pre, self, n as int, index.key());
        }
    }

    /// Storing at slot `i` of `post` the only entry for `k`, where `pre` had it
    /// at `i` or nowhere, stores that entry's text at `k` and leaves the other
    /// cells as they were.
    proof fn lemma_store(pre: &Spreadsheet, post: &Spreadsheet, i: int, k: (usize, usize))
        requires
            pre.wf(),
            0 <= i < post.data.len(),
            post.data.len() == if i < pre.data.len() { pre.data.len() as int } else { pre.data.len() + 1 },
            post.data[i].0.key() == k,
            i < pre.data.len() ==> pre.data[i].0.key() == k,
            i >= pre.data.len() ==> forall|j: int| 0 <= j < pre.data.len() ==> (#[trigger] pre.data[j].0).key() != k,
            forall|j: int| 0 <= j < pre.data.len() && j != i ==> #[trigger] post.data[j] == pre.data[j],
        ensures
            post@.cells == pre@.cells.insert(k, post.data[i].1@),
    {
        assert forall|q: (usize, usize)|
            #[trigger] post@.cells.contains_key(q) == pre@.cells.insert(k, post.data[i].1@).contains_key(q)
        by {
            if pre@.cells.contains_key(q) && q != k {
                let w = choose|j: int| 0 <= j < pre.data.len() && #[trigger] pre.data[j].0.key() == q;
                assert(w != i);
                assert(post.data[w] == pre.data[w]);
                assert(post.data[w].0.key() == q);
            }
            if post@.cells.contains_key(q) && q != k {
                let w = choose|j: int| 0 <= j < post.data.len() && #[trigger] post.data[j].0.key() == q;
                assert(post.data[w] == pre.data[w]);
                assert(pre.data[w].0.key() == q);
            }
        }
        assert forall|q: (usize, usize)| #[trigger] post@.cells.contains_key(q)
            implies post@.cells[q] == pre@.cells.insert(k, post.data[i].1@)[q]
        by {
            let w = choose|j: int| 0 <= j < post.data.len() && #[trigger] post.data[j].0.key() == q;
            if q != k {
                let v = choose|j: int| 0 <= j < pre.data.len() && #[trigger] pre.data[j].0.key() == q;
                assert(post.data[w] == pre.data[w]);
                assert(pre.data[w].0.key() == q);
                assert(pre.data[v].0.key() == q);
                assert(w == v);
            } else if w != i {
                assert(post.data[w] == pre.data[w]);
                assert(pre.data[w].0.key() == k);
            }
        }
        assert(post@.cells =~= pre@.cells.insert(k, post.data[i].1@));
    }
}

impl Default for Spreadsheet {
    /// An empty grid with bounds (0, 0).
    fn default() -> (r: Spreadsheet)
        ensures
            r.wf(),
            r@ == SheetModel::empty(),
    {
        Spreadsheet::new()
    }
}

impl Spreadsheet {
    /// The largest row index covered by the bounds.
    pub fn max_row_index(&self) -> (r: usize)
        ensures
            r == self@.max_row,
    {
        self.max_row_idx
    }

    /// The largest column index covered by the bounds.
    pub fn max_col_index(&self) -> (r: usize)
        ensures
            r == self@.max_col,
    {
        self.max_col_idx
    }

    /// The text stored at `index`, if any.
    pub fn get(&self, index: Index) -> (r: Option<&String>)
        requires
            self.wf(),
        ensures
            r.is_some() == self@.cells.contains_key(index.key()),
            r.is_some() ==> r.unwrap()@ == self@.cells[index.key()],
    {
        let n = self.data.len();
        let mut i: usize = 0;
        while i < n
            invariant
                self.wf(),
                n == self.data.len(),
                0 <= i <= n,
                forall|j: int| 0 <= j < i ==> (#[trigger] self.data[j].0).key() != index.key(),
            decreases n - i,
        {
            if self.data[i].0.0 == index.0 && self.data[i].0.1 == index.1 {
                proof {
                    assert(self.data[i as int].0.key() == index.key());
                    let w = choose|j: int| 0 <= j < self.data.len() && #[trigger] self.data[j].0.key() == index.key();
                    assert(self.data[w].0.key() == index.key());
                }
                return Some(&self.data[i].1);
            }
            i = i + 1;
        }
        None
    }
}

/// The grid reached from `start` by storing each (position, text) of `ops` in turn.
pub open spec fn after_sets(start: SheetModel, ops: Seq<((usize, usize), Seq<char>)>) -> SheetModel
    decreases ops.len(),
{
    if ops.len() == 0 {
        start
    } else {
        after_sets(start, ops.drop_last()).set(ops.last().0, ops.last().1)
    }
}

/// After any sequence of `set` calls on a new grid, `max_row` is the largest row
/// set and `max_col` the largest column set (both 0 when nothing was set), and
/// every stored position lies within them.
pub proof fn lemma_bounds_after_sets(ops: Seq<((usize, usize), Seq<char>)>)
    ensures
        forall|i: int| 0 <= i < ops.len() ==> (#[trigger] ops[i]).0.0 <= after_sets(SheetModel::empty(), ops).max_row,
        forall|i: int| 0 <= i < ops.len() ==> (#[trigger] ops[i]).0.1 <= after_sets(SheetModel::empty(), ops).max_col,
        ops.len() == 0 ==> after_sets(SheetModel::empty(), ops) == SheetModel::empty(),
        ops.len() > 0 ==> exists|i: int| 0 <= i < ops.len() && (#[trigger] ops[i]).0.0 == after_sets(SheetModel::empty(), ops).max_row,
        ops.len() > 0 ==> exists|i: int| 0 <= i < ops.len() && (#[trigger] ops[i]).0.1 == after_sets(SheetModel::empty(), ops).max_col,
        after_sets(SheetModel::empty(), ops).bounded(),
    decreases ops.len(),
{
    if ops.len() > 0 {
        let prefix = ops.drop_last();
        lemma_bounds_after_sets(prefix);
        let before = after_sets(SheetModel::empty(), prefix);
        let after = after_sets(SheetModel::empty(), ops);
        let last = ops.len() - 1;
        assert forall|i: int| 0 <= i < ops.len() implies (#[trigger] ops[i]).0.0 <= after.max_row && ops[i].0.1 <= after.max_col by {
            if i < last {
                assert(ops[i] == prefix[i]);
            }
        }
        if after.max_row == ops[last].0.0 {
            assert(ops[last].0.0 == after.max_row);
        } else {
            let w = choose|i: int| 0 <= i < prefix.len() && (#[trigger] prefix[i]).0.0 == before.max_row;
            assert(ops[w] == prefix[w]);
        }
        if after.max_col == ops[last].0.1 {
            assert(ops[last].0.1 == after.max_col);
        } else {
            let w = choose|i: int| 0 <= i < prefix.len() && (#[trigger] prefix[i]).0.1 == before.max_col;
            assert(ops[w] == prefix[w]);
        }
    }
}

/// Along any sequence of `set` calls the bounds never shrink: the grid after the
/// first `i` calls has bounds no larger than the grid after the first `j >= i`.
pub proof fn lemma_bounds_monotonic(start: SheetModel, ops: Seq<((usize, usize), Seq<char>)>, i: int, j: int)
    requires
        0 <= i <= j <= ops.len(),
    ensures
        after_sets(start, ops.take(i)).max_row <= after_sets(start, ops.take(j)).max_row,
        after_sets(start, ops.take(i)).max_col <= after_sets(start, ops.take(j)).max_col,
    decreases j - i,
{
    if i < j {
        lemma_bounds_monotonic(start, ops, i, j - 1);
        assert(ops.take(j).drop_last() =~= ops.take(j - 1));
    }
}

/// A column of texts.
pub struct TableColumn {
    data: Vec<String>,
}

impl View for TableColumn {
    type V = Seq<Seq<char>>;

    closed spec fn view(&self) -> Seq<Seq<char>> {
        self.data@.map_values(|s: String| s@)
    }
}

impl TableColumn {
    /// A column holding `data`, top to bottom.
    pub fn new(data: Vec<String>) -> (r: TableColumn)
        ensures
            r@ == data@.map_values(|s: String| s@),
    {
        TableColumn { data }
    }

    /// The largest byte length among the column's texts; `None` for an empty column.
    pub fn get_longest_string_len(&self) -> (r: Option<usize>)
        ensures
            r.is_none() == (self@.len() == 0),
            r matches Some(n) ==> forall|i: int| 0 <= i < self@.len() ==> text_len(#[trigger] self@[i]) <= n,
            r matches Some(n) ==> exists|i: int| 0 <= i < self@.len() && text_len(#[trigger] self@[i]) == n,
    {
        let mut best: Option<usize> = None;
        for i in 0..self.data.len()
            invariant
                best.is_none() == (i == 0),
                best matches Some(n) ==> forall|j: int| 0 <= j < i ==> text_len(#[trigger] self@[j]) <= n,
                best matches Some(n) ==> exists|j: int| 0 <= j < i && text_len(#[trigger] self@[j]) == n,
        {
            let len = self.data[i].as_str().len();
            assert(self@[i as int] == self.data@[i as int]@);
            match best {
                Some(n) => {
                    if len > n {
                        best = Some(len);
                    }
                },
                None => {
                    best = Some(len);
                },
            }
        }
        best
    }
}

} // verus!
