//! Dividing the examples for validation: a holdout split and the folds of
//! k-fold cross-validation.
use vstd::prelude::*;
use crate::table::{Grid, Table, grid_of_cells, row_major, lemma_row_major_round_trip};

verus! {

/// An index into `n` rows as array slicing reads it: a negative index counts
/// from the end.
pub open spec fn slice_index(n: int, idx: int) -> int {
    if idx < 0 {
        n + idx
    } else {
        idx
    }
}

/// The exclusive bound of `cut` rows, as a `usize`.
fn slice_bound(n: usize, cut: i64) -> (r: usize)
    requires
        -(n as int) <= cut <= n,
        cut > i64::MIN,
    ensures
        r == slice_index(n as int, cut as int),
{
    if cut >= 0 {
        cut as usize
    } else {
        n - ((-cut) as usize)
    }
}

/// Splits the examples in two: the rows before row `cut`, and the rows from row
/// `cut` on. A negative `cut` counts from the end.
pub fn split(examples: Table, cut: i32) -> (r: (Table, Table))
    requires
        -(examples@.rows.len() as int) <= cut <= examples@.rows.len(),
    ensures
        r.0@ == examples@.row_range(0, slice_index(examples@.rows.len() as int, cut as int)),
        r.1@ == examples@.row_range(
            slice_index(examples@.rows.len() as int, cut as int),
            examples@.rows.len() as int,
        ),
        r.0@.rows + r.1@.rows == examples@.rows,
        r.0@.width == r.1@.width == examples@.width,
{
    let n = examples.nrows();
    let at = slice_bound(n, cut as i64);
    let first = examples.row_range(0, at);
    let second = examples.row_range(at, n);
    proof {
        let rows = examples@.rows;
        assert(rows.subrange(0, at as int) + rows.subrange(at as int, rows.len() as int) =~= rows);
    }
    (first, second)
}

/// Where fold `i` of `k` folds of `n` rows starts: the folds follow one another
/// from the top, the first `n % k` of them holding `n / k + 1` rows and the others
/// `n / k`.
pub open spec fn fold_start(n: int, k: int, i: int) -> int {
    i * (n / k) + if i < n % k {
        i
    } else {
        n % k
    }
}

/// Where fold `i` of `k` folds of `n` rows ends (exclusive): where the next starts.
pub open spec fn fold_end(n: int, k: int, i: int) -> int {
    fold_start(n, k, i + 1)
}

/// How many rows fold `i` of `k` folds of `n` rows holds.
pub open spec fn fold_size(n: int, k: int, i: int) -> int {
    if i < n % k {
        n / k + 1
    } else {
        n / k
    }
}

proof fn lemma_fold_bounds(n: int, k: int, i: int)
    requires
        0 <= n,
        0 < k,
        0 <= i < k,
    ensures
        0 <= i * (n / k) <= fold_start(n, k, i) <= fold_end(n, k, i) <= n,
        (i + 1) * (n / k) <= fold_end(n, k, i),
        fold_end(n, k, i) - fold_start(n, k, i) == fold_size(n, k, i),
        fold_start(n, k, 0) == 0,
        fold_start(n, k, k) == n,
{
    let s = n / k;
    let m = n % k;
    vstd::arithmetic::div_mod::lemma_fundamental_div_mod(n, k);
    assert(0 <= m < k);
    assert(0 <= s);
    assert(0 <= i * s) by (nonlinear_arith)
        requires
            0 <= i,
            0 <= s,
    ;
    assert((i + 1) * s == i * s + s) by (nonlinear_arith);
    assert((i + 1) * s <= k * s) by (nonlinear_arith)
        requires
            i + 1 <= k,
            0 <= s,
    ;
    assert(0 * s == 0);
    assert(k * s == s * k) by (nonlinear_arith);
}

/// Splits the examples into `k` folds, one after another from the top: fold `i`
/// holds the rows from `fold_start(n, k, i)` to `fold_end(n, k, i)`. The first
/// `n % k` folds hold `n / k + 1` rows and the others `n / k`, and the folds
/// together hold every row once, in order.
pub fn splitk(examples: Table, k: usize) -> (r: Vec<Table>)
    requires
        k > 0,
    ensures
        r.len() == k,
        forall|i: int|
            0 <= i < k ==> (#[trigger] r@[i])@ == examples@.row_range(
                fold_start(examples@.rows.len() as int, k as int, i),
                fold_end(examples@.rows.len() as int, k as int, i),
            ),
        forall|i: int|
            0 <= i < k ==> (#[trigger] r@[i])@.rows.len() == fold_size(
                examples@.rows.len() as int,
                k as int,
                i,
            ),
        all_rows(grids(r@)) == examples@.rows,
{
    let mut ret: Vec<Table> = Vec::new();
    let nrows = examples.nrows();
    let s = nrows / k;
    let smod = nrows % k;
    let ghost n = nrows as int;
    proof {
        lemma_fold_bounds(n, k as int, 0);
        assert(grids(ret@) =~= Seq::<Grid>::empty());
        assert(examples@.rows.subrange(0, 0) =~= Seq::<Seq<Seq<char>>>::empty());
    }
    let mut i: usize = 0;
    while i < k
        invariant
            i <= k,
            n == nrows == examples@.rows.len(),
            s == n / (k as int),
            smod == n % (k as int),
            ret.len() == i,
            forall|j: int|
                0 <= j < i ==> (#[trigger] ret@[j])@ == examples@.row_range(
                    fold_start(n, k as int, j),
                    fold_end(n, k as int, j),
                ),
            0 <= fold_start(n, k as int, i as int) <= n,
            all_rows(grids(ret@)) == examples@.rows.subrange(0, fold_start(n, k as int, i as int)),
        decreases k - i,
    {
        proof {
            lemma_fold_bounds(n, k as int, i as int);
        }
        let start = if i < smod {
            i * s + i
        } else {
            i * s + smod
        };
        let end = if i + 1 < smod {
            (i + 1) * s + (i + 1)
        } else {
            (i + 1) * s + smod
        };
        let ghost before = grids(ret@);
        let part = examples.row_range(start, end);
        ret.push(part);
        proof {
            assert(grids(ret@).drop_last() =~= before);
            let rows = examples@.rows;
            assert(rows.subrange(0, start as int) + rows.subrange(start as int, end as int)
                =~= rows.subrange(0, end as int));
            if i + 1 < k {
                lemma_fold_bounds(n, k as int, i + 1);
            }
        }
        i = i + 1;
    }
    proof {
        lemma_fold_bounds(n, k as int, 0);
        assert(examples@.rows.subrange(0, n) =~= examples@.rows);
        assert forall|i: int| 0 <= i < k implies (#[trigger] ret@[i])@.rows.len() == fold_size(
            n,
            k as int,
            i,
        ) by {
            lemma_fold_bounds(n, k as int, i);
        }
    }
    ret
}

/// The rows of all the tables, one table after another.
pub open spec fn all_rows(parts: Seq<Grid>) -> Seq<Seq<Seq<char>>>
    decreases parts.len(),
{
    if parts.len() == 0 {
        Seq::empty()
    } else {
        all_rows(parts.drop_last()) + parts.last().rows
    }
}

/// What the tables show of themselves.
pub open spec fn grids(parts: Seq<Table>) -> Seq<Grid> {
    parts.map_values(|t: Table| t@)
}

/// The training examples of fold `held_out` in cross-validation over `nrows`
/// examples: the rows of all the other folds, in order. `None` where they are not
/// `nrows` less the rows of fold `held_out`.
pub fn join_folds(partition: &Vec<Table>, held_out: usize, nrows: usize) -> (r: Option<Table>)
    requires
        held_out < partition.len(),
        partition@[held_out as int]@.rows.len() <= nrows,
        forall|j: int|
            0 <= j < partition.len() ==> (#[trigger] partition@[j])@.width
                == partition@[held_out as int]@.width,
    ensures
        ({
            let others = all_rows(grids(partition@).remove(held_out as int));
            &&& r is Some <==> others.len() == nrows - partition@[held_out as int]@.rows.len()
            &&& r matches Some(t) ==> t@ == (Grid {
                width: partition@[held_out as int]@.width,
                rows: others,
            })
            &&& r matches Some(t) ==> t@ == grid_of_cells(
                row_major(others),
                (nrows - partition@[held_out as int]@.rows.len()) as nat,
                partition@[held_out as int]@.width,
            )
        }),
{
    let ghost parts = grids(partition@);
    let ghost others = parts.remove(held_out as int);
    let validation = &partition[held_out];
    let width = validation.ncols();
    let mut examples = Table::empty(width);
    let mut j: usize = 0;
    while j < partition.len()
        invariant
            j <= partition.len(),
            held_out < partition.len(),
            parts == grids(partition@),
            others == parts.remove(held_out as int),
            width == partition@[held_out as int]@.width,
            forall|m: int|
                0 <= m < partition.len() ==> (#[trigger] partition@[m])@.width == width,
            examples@ == (Grid {
                width: width as nat,
                rows: all_rows(
                    if j <= held_out {
                        parts.take(j as int)
                    } else {
                        others.take(j - 1)
                    },
                ),
            }),
        decreases partition.len() - j,
    {
        let ghost before = examples@.rows;
        if j != held_out {
            examples.append(&partition[j]);
        }
        proof {
            if j < held_out {
                assert(parts.take(j + 1).drop_last() =~= parts.take(j as int));
                assert(parts.take(j + 1).last() == partition@[j as int]@);
            } else if j == held_out {
                assert(others.take(j as int) =~= parts.take(j as int));
            } else {
                assert(others.take(j as int).drop_last() =~= others.take(j - 1));
                assert(others.take(j as int).last() == partition@[j as int]@);
            }
        }
        j = j + 1;
    }
    proof {
        assert(others.take(partition.len() - 1) =~= others);
    }
    if examples.nrows() == nrows - validation.nrows() {
        proof {
            lemma_row_major_round_trip(examples@);
        }
        Some(examples)
    } else {
        None
    }
}

/// The holdout cut for `percent` percent of `nrows` examples: `percent * nrows / 100`
/// (the quotient rounded toward zero) where that lies strictly between 0 and
/// `nrows - 1`, else `None` (no holdout).
pub fn holdout_cut(percent: i32, nrows: i32) -> (r: Option<i32>)
    requires
        i32::MIN <= percent * nrows <= i32::MAX,
        nrows > i32::MIN,
    ensures
        ({
            let p = percent * nrows;
            let k = if p >= 0 {
                p / 100
            } else {
                -((-p) / 100)
            };
            r == if 0 < k < nrows - 1 {
                Some(k as i32)
            } else {
                None::<i32>
            }
        }),
{
    let p: i64 = percent as i64 * nrows as i64;
    let k: i64 = if p >= 0 {
        p / 100
    } else {
        -((-p) / 100)
    };
    if k < nrows as i64 - 1 && k > 0 {
        Some(k as i32)
    } else {
        None
    }
}

} // verus!
