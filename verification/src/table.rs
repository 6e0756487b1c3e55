//! A rectangular table of string values: one row per example, one column per
//! attribute, the target attribute in the last column.
use vstd::prelude::*;
use crate::values::{strs, distinct, occurrences, occurrence_total, lemma_distinct_occurrences};

verus! {

/// What a table holds: its number of columns and its rows of cells.
pub struct Grid {
    pub width: nat,
    pub rows: Seq<Seq<Seq<char>>>,
}

impl Grid {
    /// Every row has `width` cells.
    pub open spec fn wf(self) -> bool {
        forall|i: int| 0 <= i < self.rows.len() ==> #[trigger] self.rows[i].len() == self.width
    }

    /// The cells of column `c`, top to bottom.
    pub open spec fn column(self, c: int) -> Seq<Seq<char>> {
        Seq::new(self.rows.len(), |i: int| self.rows[i][c])
    }

    /// The last column: the value of the target attribute of each example.
    pub open spec fn target(self) -> Seq<Seq<char>> {
        self.column(self.width - 1)
    }

    /// The rows from `start` (inclusive) to `end` (exclusive), same width.
    pub open spec fn row_range(self, start: int, end: int) -> Grid {
        Grid { width: self.width, rows: self.rows.subrange(start, end) }
    }
}

/// The rows whose cell in column `a` equals `v`, in order, each without that cell.
pub open spec fn rows_with(rows: Seq<Seq<Seq<char>>>, v: Seq<char>, a: int) -> Seq<Seq<Seq<char>>>
    decreases rows.len(),
{
    if rows.len() == 0 {
        Seq::empty()
    } else {
        let p = rows_with(rows.drop_last(), v, a);
        if rows.last()[a] == v {
            p.push(rows.last().remove(a))
        } else {
            p
        }
    }
}

/// The examples whose attribute `a` has value `v`, with column `a` taken out.
pub open spec fn subset(g: Grid, v: Seq<char>, a: int) -> Grid {
    Grid { width: (g.width - 1) as nat, rows: rows_with(g.rows, v, a) }
}

/// The total number of examples in the subsets of `g` for the values `d` of
/// attribute column `a`.
pub open spec fn subsets_total(g: Grid, a: int, d: Seq<Seq<char>>) -> int
    decreases d.len(),
{
    if d.len() == 0 {
        0
    } else {
        subsets_total(g, a, d.drop_last()) + subset(g, d.last(), a).rows.len()
    }
}

/// The rows that `rows_with` keeps for `v` are as many as the cells `v` in column `a`.
pub proof fn lemma_rows_with_len(rows: Seq<Seq<Seq<char>>>, v: Seq<char>, a: int)
    ensures
        rows_with(rows, v, a).len() == occurrences(Seq::new(rows.len(), |i: int| rows[i][a]), v),
    decreases rows.len(),
{
    if rows.len() > 0 {
        let p = rows.drop_last();
        lemma_rows_with_len(p, v, a);
        let col = Seq::new(rows.len(), |i: int| rows[i][a]);
        assert(col.drop_last() =~= Seq::new(p.len(), |i: int| p[i][a]));
        assert(col.last() == rows.last()[a]);
    }
}

proof fn lemma_subsets_total(g: Grid, a: int, d: Seq<Seq<char>>)
    ensures
        subsets_total(g, a, d) == occurrence_total(g.column(a), d),
    decreases d.len(),
{
    if d.len() > 0 {
        lemma_subsets_total(g, a, d.drop_last());
        lemma_rows_with_len(g.rows, d.last(), a);
    }
}

/// The subsets of the examples for the distinct values of an attribute column
/// together hold every example once: their sizes add up to the number of
/// examples. (Which subset holds an example is `lemma_rows_with_has` in `id3`.)
pub proof fn lemma_subsets_partition(g: Grid, a: int)
    ensures
        subsets_total(g, a, distinct(g.column(a))) == g.rows.len(),
{
    lemma_subsets_total(g, a, distinct(g.column(a)));
    lemma_distinct_occurrences(g.column(a));
}

/// Every entry of `s` equals the first.
pub open spec fn uniform(s: Seq<Seq<char>>) -> bool {
    forall|i: int| 0 <= i < s.len() ==> #[trigger] s[i] == s[0]
}

/// The table of `nrows` rows of `ncols` cells that `cells` fills row by row.
pub open spec fn grid_of_cells(cells: Seq<Seq<char>>, nrows: nat, ncols: nat) -> Grid {
    Grid {
        width: ncols,
        rows: Seq::new(nrows, |i: int| cells.subrange(i * ncols, i * ncols + ncols)),
    }
}

/// The cells of `rows`, row after row.
pub open spec fn row_major(rows: Seq<Seq<Seq<char>>>) -> Seq<Seq<char>>
    decreases rows.len(),
{
    if rows.len() == 0 {
        Seq::empty()
    } else {
        row_major(rows.drop_last()) + rows.last()
    }
}

/// Filling a table row by row with the cells of a table, read row after row,
/// gives back that table: `from_shape_vec` undoes `cells`.
pub proof fn lemma_row_major_round_trip(g: Grid)
    requires
        g.wf(),
    ensures
        row_major(g.rows).len() == g.rows.len() * g.width,
        grid_of_cells(row_major(g.rows), g.rows.len(), g.width) == g,
    decreases g.rows.len(),
{
    let n = g.rows.len() as int;
    let w = g.width as int;
    let cells = row_major(g.rows);
    if n == 0 {
        assert(grid_of_cells(cells, 0, g.width).rows =~= g.rows);
    } else {
        let p = Grid { width: g.width, rows: g.rows.drop_last() };
        lemma_row_major_round_trip(p);
        let pc = row_major(p.rows);
        assert(g.rows.last().len() == w);
        assert(pc.len() == (n - 1) * w);
        assert((n - 1) * w + w == n * w) by (nonlinear_arith);
        let h = grid_of_cells(cells, g.rows.len(), g.width);
        assert forall|i: int| 0 <= i < n implies #[trigger] h.rows[i] == g.rows[i] by {
            if i < n - 1 {
                assert(i * w + w <= (n - 1) * w) by (nonlinear_arith)
                    requires
                        i < n - 1,
                        0 <= w,
                ;
                assert(0 <= i * w) by (nonlinear_arith)
                    requires
                        0 <= i,
                        0 <= w,
                ;
                assert(grid_of_cells(pc, (n - 1) as nat, g.width).rows[i] == p.rows[i]);
                assert(h.rows[i] =~= pc.subrange(i * w, i * w + w));
            } else {
                assert(h.rows[i] =~= g.rows.last());
            }
        }
        assert(h.rows =~= g.rows);
    }
}

/// A table of examples: rows of string cells, all of the same number of columns.
pub struct Table {
    rows: Vec<Vec<String>>,
    ncols: usize,
}

impl View for Table {
    type V = Grid;

    closed spec fn view(&self) -> Grid {
        Grid { width: self.ncols as nat, rows: self.rows@.map_values(|r: Vec<String>| strs(r@)) }
    }
}

/// A copy of `v`, string by string.
pub fn copy_strings(v: &Vec<String>) -> (r: Vec<String>)
    ensures
        strs(r@) == strs(v@),
        r.len() == v.len(),
{
    let mut r: Vec<String> = Vec::new();
    let mut j: usize = 0;
    while j < v.len()
        invariant
            j <= v.len(),
            strs(r@) == strs(v@).take(j as int),
        decreases v.len() - j,
    {
        let ghost old_r = strs(r@);
        r.push(v[j].clone());
        proof {
            assert(strs(r@) =~= old_r.push(v@[j as int]@));
            assert(strs(r@) =~= strs(v@).take(j + 1));
        }
        j = j + 1;
    }
    proof {
        assert(strs(v@).take(v.len() as int) =~= strs(v@));
    }
    r
}

/// `row` without its cell at column `a`.
fn without_column(row: &Vec<String>, a: usize) -> (r: Vec<String>)
    requires
        a < row.len(),
    ensures
        strs(r@) == strs(row@).remove(a as int),
        r.len() + 1 == row.len(),
{
    let ghost sr = strs(row@);
    let mut r: Vec<String> = Vec::new();
    let mut j: usize = 0;
    while j < a
        invariant
            j <= a < row.len(),
            sr == strs(row@),
            strs(r@) == sr.subrange(0, j as int),
        decreases a - j,
    {
        let ghost old_r = strs(r@);
        r.push(row[j].clone());
        proof {
            assert(strs(r@) =~= old_r.push(sr[j as int]));
            assert(strs(r@) =~= sr.subrange(0, j + 1));
        }
        j = j + 1;
    }
    j = a + 1;
    while j < row.len()
        invariant
            a < j <= row.len(),
            sr == strs(row@),
            strs(r@) == sr.subrange(0, a as int) + sr.subrange(a + 1, j as int),
        decreases row.len() - j,
    {
        let ghost old_r = strs(r@);
        r.push(row[j].clone());
        proof {
            assert(strs(r@) =~= old_r.push(sr[j as int]));
            assert(sr.subrange(a + 1, j + 1) =~= sr.subrange(a + 1, j as int).push(sr[j as int]));
            assert(strs(r@) =~= sr.subrange(0, a as int) + sr.subrange(a + 1, j + 1));
        }
        j = j + 1;
    }
    proof {
        assert(strs(r@) =~= sr.remove(a as int));
    }
    r
}

impl Table {
    #[verifier::type_invariant]
    spec fn rectangular(self) -> bool {
        forall|i: int| 0 <= i < self.rows@.len() ==> #[trigger] self.rows@[i].len() == self.ncols
    }

    proof fn lemma_view(self)
        requires
            self.rectangular(),
        ensures
            self@.wf(),
            self@.rows.len() == self.rows@.len(),
            forall|i: int| 0 <= i < self.rows@.len() ==> #[trigger] self@.rows[i] == strs(self.rows@[i]@),
    {
        assert forall|i: int| 0 <= i < self@.rows.len() implies #[trigger] self@.rows[i].len() == self@.width by {
            assert(self@.rows[i] == strs(self.rows@[i]@));
            assert(self.rows@[i].len() == self.ncols);
        }
    }

    /// The table of `ncols` columns with the given rows; `None` where a row has
    /// another number of cells.
    pub fn new(ncols: usize, rows: Vec<Vec<String>>) -> (r: Option<Table>)
        ensures
            match r {
                Some(t) => t@ == (Grid { width: ncols as nat, rows: rows@.map_values(|r: Vec<String>| strs(r@)) }),
                None => exists|i: int| 0 <= i < rows.len() && #[trigger] rows@[i].len() != ncols,
            },
    {
        let mut i: usize = 0;
        while i < rows.len()
            invariant
                i <= rows.len(),
                forall|k: int| 0 <= k < i ==> #[trigger] rows@[k].len() == ncols,
            decreases rows.len() - i,
        {
            if rows[i].len() != ncols {
                return None;
            }
            i = i + 1;
        }
        Some(Table { rows, ncols })
    }

    /// The table of `shape.0` rows and `shape.1` columns that `cells` fills row by
    /// row; `None` where the number of cells is not the product of the two.
    pub fn from_shape_vec(shape: (usize, usize), cells: Vec<String>) -> (r: Option<Table>)
        ensures
            match r {
                Some(t) => shape.0 * shape.1 == cells.len() && t@ == grid_of_cells(
                    strs(cells@),
                    shape.0 as nat,
                    shape.1 as nat,
                ),
                None => shape.0 * shape.1 != cells.len(),
            },
    {
        let (nrows, ncols) = shape;
        let size = nrows.checked_mul(ncols);
        if size.is_none() || size.unwrap() != cells.len() {
            return None;
        }
        let ghost sc = strs(cells@);
        let mut rows: Vec<Vec<String>> = Vec::new();
        let mut pos: usize = 0;
        let mut i: usize = 0;
        while i < nrows
            invariant
                i <= nrows,
                nrows * ncols == cells.len(),
                pos == i * ncols,
                sc == strs(cells@),
                rows.len() == i,
                forall|k: int| 0 <= k < i ==> #[trigger] rows@[k].len() == ncols,
                forall|k: int|
                    0 <= k < i ==> strs(#[trigger] rows@[k]@) == sc.subrange(
                        k * ncols,
                        k * ncols + ncols,
                    ),
            decreases nrows - i,
        {
            proof {
                assert(i * ncols + ncols <= nrows * ncols) by (nonlinear_arith)
                    requires
                        i < nrows,
                ;
            }
            let mut row: Vec<String> = Vec::new();
            let mut j: usize = 0;
            while j < ncols
                invariant
                    j <= ncols,
                    pos + ncols <= cells.len(),
                    sc == strs(cells@),
                    strs(row@) == sc.subrange(pos as int, pos + j),
                    row.len() == j,
                decreases ncols - j,
            {
                row.push(cells[pos + j].clone());
                proof {
                    assert(strs(row@) =~= sc.subrange(pos as int, pos + j + 1));
                }
                j = j + 1;
            }
            rows.push(row);
            proof {
                assert((i + 1) * ncols == i * ncols + ncols) by (nonlinear_arith);
            }
            pos = pos + ncols;
            i = i + 1;
        }
        let t = Table { rows, ncols };
        proof {
            assert(t@.rows =~= grid_of_cells(sc, nrows as nat, ncols as nat).rows);
        }
        Some(t)
    }

    /// The number of rows.
    pub fn nrows(&self) -> (n: usize)
        ensures
            n == self@.rows.len(),
            self@.wf(),
    {
        proof {
            use_type_invariant(self);
            self.lemma_view();
        }
        self.rows.len()
    }

    /// The number of columns.
    pub fn ncols(&self) -> (n: usize)
        ensures
            n == self@.width,
            self@.wf(),
    {
        proof {
            use_type_invariant(self);
            self.lemma_view();
        }
        self.ncols
    }

    /// The cells of row `i`.
    pub fn row(&self, i: usize) -> (r: &Vec<String>)
        requires
            i < self@.rows.len(),
        ensures
            strs(r@) == self@.rows[i as int],
            r.len() == self@.width,
    {
        proof {
            use_type_invariant(self);
            self.lemma_view();
        }
        &self.rows[i]
    }

    /// The cells, row after row.
    pub fn cells(&self) -> (r: Vec<String>)
        ensures
            strs(r@) == row_major(self@.rows),
    {
        proof {
            use_type_invariant(self);
        }
        let mut r: Vec<String> = Vec::new();
        let mut i: usize = 0;
        while i < self.rows.len()
            invariant
                i <= self.rows.len(),
                self.rectangular(),
                strs(r@) == row_major(self@.rows.take(i as int)),
            decreases self.rows.len() - i,
        {
            proof {
                self.lemma_view();
                assert(self@.rows.take(i + 1).drop_last() =~= self@.rows.take(i as int));
                assert(self@.rows.take(i + 1).last() == strs(self.rows@[i as int]@));
            }
            let row = &self.rows[i];
            let mut j: usize = 0;
            while j < row.len()
                invariant
                    j <= row.len(),
                    strs(r@) == row_major(self@.rows.take(i as int)) + strs(row@).take(j as int),
                decreases row.len() - j,
            {
                let ghost before = strs(r@);
                r.push(row[j].clone());
                proof {
                    assert(strs(r@) =~= before.push(row@[j as int]@));
                    assert(strs(row@).take(j + 1) =~= strs(row@).take(j as int).push(row@[j as int]@));
                }
                j = j + 1;
            }
            proof {
                assert(strs(row@).take(row.len() as int) =~= strs(row@));
            }
            i = i + 1;
        }
        proof {
            assert(self@.rows.take(self.rows.len() as int) =~= self@.rows);
        }
        r
    }

    /// The cells of column `c`, top to bottom.
    pub fn column(&self, c: usize) -> (r: Vec<String>)
        requires
            c < self@.width,
        ensures
            strs(r@) == self@.column(c as int),
            r.len() == self@.rows.len(),
    {
        proof {
            use_type_invariant(self);
            self.lemma_view();
        }
        let mut r: Vec<String> = Vec::new();
        let mut i: usize = 0;
        while i < self.rows.len()
            invariant
                i <= self.rows.len(),
                c < self.ncols,
                self.rectangular(),
                strs(r@) == self@.column(c as int).take(i as int),
            decreases self.rows.len() - i,
        {
            proof {
                self.lemma_view();
                assert(self.rows@[i as int].len() == self.ncols);
            }
            let ghost old_r = strs(r@);
            r.push(self.rows[i][c].clone());
            proof {
                assert(self@.rows[i as int] == strs(self.rows@[i as int]@));
                assert(strs(r@) =~= old_r.push(self@.rows[i as int][c as int]));
                assert(strs(r@) =~= self@.column(c as int).take(i + 1));
            }
            i = i + 1;
        }
        proof {
            assert(self@.column(c as int).take(self.rows.len() as int) =~= self@.column(c as int));
        }
        r
    }

    /// The indices of the attribute columns: every column but the last.
    pub fn attribute_columns(&self) -> (r: Vec<usize>)
        requires
            self@.width >= 1,
        ensures
            r@ == Seq::new((self@.width - 1) as nat, |i: int| i as usize),
    {
        let n = self.ncols() - 1;
        let mut r: Vec<usize> = Vec::new();
        let mut i: usize = 0;
        while i < n
            invariant
                i <= n,
                n == self@.width - 1,
                r@ == Seq::new(i as nat, |k: int| k as usize),
            decreases n - i,
        {
            r.push(i);
            proof {
                assert(r@ =~= Seq::new((i + 1) as nat, |k: int| k as usize));
            }
            i = i + 1;
        }
        r
    }

    /// A copy of the rows from `start` (inclusive) to `end` (exclusive).
    pub fn row_range(&self, start: usize, end: usize) -> (r: Table)
        requires
            start <= end <= self@.rows.len(),
        ensures
            r@ == self@.row_range(start as int, end as int),
    {
        proof {
            use_type_invariant(self);
            self.lemma_view();
        }
        let mut rows: Vec<Vec<String>> = Vec::new();
        let mut i: usize = start;
        while i < end
            invariant
                start <= i <= end <= self.rows.len(),
                self.rectangular(),
                rows.len() == i - start,
                forall|k: int| 0 <= k < rows.len() ==> #[trigger] rows@[k].len() == self.ncols,
                forall|k: int|
                    0 <= k < rows.len() ==> strs(#[trigger] rows@[k]@) == strs(
                        self.rows@[start + k]@,
                    ),
            decreases end - i,
        {
            rows.push(copy_strings(&self.rows[i]));
            i = i + 1;
        }
        let t = Table { rows, ncols: self.ncols };
        proof {
            assert(t@.rows =~= self@.rows.subrange(start as int, end as int));
        }
        t
    }

    /// An empty table of `ncols` columns.
    pub fn empty(ncols: usize) -> (r: Table)
        ensures
            r@ == (Grid { width: ncols as nat, rows: Seq::empty() }),
    {
        let t = Table { rows: Vec::new(), ncols };
        proof {
            assert(t@.rows =~= Seq::<Seq<Seq<char>>>::empty());
        }
        t
    }

    /// Appends a copy of the rows of `other`, a table of as many columns.
    pub fn append(&mut self, other: &Table)
        requires
            old(self)@.width == other@.width,
        ensures
            final(self)@ == (Grid { width: old(self)@.width, rows: old(self)@.rows + other@.rows }),
    {
        proof {
            use_type_invariant(&*self);
            use_type_invariant(other);
            other.lemma_view();
        }
        let ghost old_rows = self@.rows;
        let mut rows: Vec<Vec<String>> = Vec::new();
        std::mem::swap(&mut rows, &mut self.rows);
        let ghost ncols = self.ncols;
        proof {
            assert(rows@.map_values(|r: Vec<String>| strs(r@)) == old_rows);
        }
        let mut i: usize = 0;
        while i < other.rows.len()
            invariant
                i <= other.rows.len(),
                other.rectangular(),
                other.ncols == ncols,
                forall|k: int| 0 <= k < rows.len() ==> #[trigger] rows@[k].len() == ncols,
                rows@.map_values(|r: Vec<String>| strs(r@)) == old_rows + other@.rows.take(i as int),
            decreases other.rows.len() - i,
        {
            proof {
                other.lemma_view();
            }
            let ghost before = rows@.map_values(|r: Vec<String>| strs(r@));
            let row = copy_strings(&other.rows[i]);
            rows.push(row);
            proof {
                assert(rows@.map_values(|r: Vec<String>| strs(r@)) =~= before.push(other@.rows[i as int]));
                assert(other@.rows.take(i + 1) =~= other@.rows.take(i as int).push(other@.rows[i as int]));
            }
            i = i + 1;
        }
        self.rows = rows;
        proof {
            assert(other@.rows.take(other.rows.len() as int) =~= other@.rows);
        }
    }

    /// A copy of the table.
    pub fn copy(&self) -> (r: Table)
        ensures
            r@ == self@,
    {
        let n = self.nrows();
        let r = self.row_range(0, n);
        proof {
            assert(self@.rows.subrange(0, n as int) =~= self@.rows);
        }
        r
    }
}

/// Whether every value of `arr` is the same; if so, that value, else the empty string.
pub fn check_single_value(arr: &Vec<String>) -> (r: (bool, String))
    requires
        arr.len() > 0,
    ensures
        r.0 == uniform(strs(arr@)),
        r.0 ==> r.1@ == arr@[0]@,
        !r.0 ==> r.1@ == Seq::<char>::empty(),
{
    let value1 = &arr[0];
    let mut i: usize = 0;
    while i < arr.len()
        invariant
            i <= arr.len(),
            value1 == arr@[0],
            forall|k: int| 0 <= k < i ==> arr@[k]@ == value1@,
        decreases arr.len() - i,
    {
        if !(*value1 == arr[i]) {
            proof {
                assert(strs(arr@)[i as int] != strs(arr@)[0]);
            }
            return (false, String::new());
        }
        i = i + 1;
    }
    proof {
        assert forall|k: int| 0 <= k < strs(arr@).len() implies #[trigger] strs(arr@)[k] == strs(
            arr@,
        )[0] by {
            assert(arr@[k]@ == value1@);
        }
    }
    (true, value1.clone())
}

/// The examples whose attribute `a` has value `vi`, with column `a` taken out.
pub fn get_subset(examples: Table, vi: String, a: usize) -> (r: Table)
    requires
        examples@.width >= 1,
        examples@.rows.len() > 0 ==> a < examples@.width,
    ensures
        r@ == subset(examples@, vi@, a as int),
{
    let n = examples.nrows();
    let ncols = examples.ncols();
    let mut helper: Vec<Vec<String>> = Vec::new();
    let mut i: usize = 0;
    while i < n
        invariant
            i <= n == examples@.rows.len(),
            ncols == examples@.width >= 1,
            n > 0 ==> a < ncols,
            examples@.wf(),
            forall|k: int| 0 <= k < helper.len() ==> #[trigger] helper@[k].len() == ncols - 1,
            helper@.map_values(|r: Vec<String>| strs(r@)) == rows_with(
                examples@.rows.take(i as int),
                vi@,
                a as int,
            ),
        decreases n - i,
    {
        let row = examples.row(i);
        let ghost old_helper = helper@;
        proof {
            assert(examples@.rows.take(i + 1).drop_last() =~= examples@.rows.take(i as int));
            assert(examples@.rows.take(i + 1).last() == examples@.rows[i as int]);
            assert(strs(row@)[a as int] == row@[a as int]@);
        }
        if row[a] == vi {
            helper.push(without_column(row, a));
            proof {
                assert(helper@.map_values(|r: Vec<String>| strs(r@)) =~= old_helper.map_values(
                    |r: Vec<String>| strs(r@),
                ).push(strs(row@).remove(a as int)));
            }
        }
        i = i + 1;
    }
    proof {
        assert(examples@.rows.take(n as int) =~= examples@.rows);
    }
    let t = Table { rows: helper, ncols: ncols - 1 };
    t
}

} // verus!
