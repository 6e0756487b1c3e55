//! The ID3 algorithm: grow a decision tree from a table of examples, splitting
//! on the attribute that a selection rule picks at each node.
use vstd::prelude::*;
use crate::table::{Grid, Table, subset, rows_with, uniform, get_subset, check_single_value};
use crate::tree::{Tree, Child, first_child, classifies, testable, same_tree, passes};
use crate::values::{strs, distinct, distinct_values, lemma_distinct};

verus! {

/// Examples that agree on every attribute agree on the target attribute too.
pub open spec fn consistent(g: Grid) -> bool {
    forall|i: int, j: int|
        #![trigger g.rows[i], g.rows[j]]
        0 <= i < g.rows.len() && 0 <= j < g.rows.len() && g.rows[i].take(g.width - 1)
            == g.rows[j].take(g.width - 1) ==> g.rows[i][g.width - 1] == g.rows[j][g.width - 1]
}

/// `tree` is what ID3 grows from the examples `g`, whose attribute columns stand
/// for the attributes `attrs`: a leaf with the common target value where all
/// examples share it, else a branch on some attribute column `b` (see `branch_on`).
pub open spec fn is_id3_tree<F: Fn(&Table) -> usize>(g: Grid, attrs: Seq<usize>, tree: Tree, select: F) -> bool
    decreases attrs.len(), 1int,
{
    if uniform(g.target()) {
        tree matches Tree::Leaf(v) && v@ == g.target()[0]
    } else {
        match tree {
            Tree::Leaf(_) => false,
            Tree::Branch { label, children } => exists|b: int|
                0 <= b < attrs.len() && #[trigger] attrs[b] == label && branch_on(
                    g,
                    attrs,
                    b,
                    label,
                    children@,
                    select,
                ),
        }
    }
}

/// A branch on attribute column `b`, which `select` returns for a table that holds
/// the examples `g`: it is labelled with the attribute `attrs[b]`, and has one
/// child for each distinct value of the column, in the order of first occurrence,
/// whose tree ID3 grows from the examples with that value, column `b` taken out.
pub open spec fn branch_on<F: Fn(&Table) -> usize>(g: Grid, attrs: Seq<usize>, b: int, label: usize, children: Seq<Child>, select: F) -> bool
    decreases attrs.len(), 0int,
{
    if 0 <= b < attrs.len() && b + 1 < g.width {
        let vals = distinct(g.column(b));
        &&& exists|t: &Table| t@ == g && #[trigger] call_ensures(select, (t,), b as usize)
        &&& label == attrs[b]
        &&& children.len() == vals.len()
        &&& forall|i: int|
            0 <= i < children.len() ==> (#[trigger] children[i]).path@ == vals[i]
                && is_id3_tree(subset(g, vals[i], b), attrs.remove(b), children[i].tree, select)
    } else {
        false
    }
}

/// The selection rule `select` picks an attribute column (not the target) of every
/// table of two or more columns.
pub open spec fn selects_attribute<F: Fn(&Table) -> usize>(select: F) -> bool {
    forall|t: &Table, b: usize|
        #[trigger] call_ensures(select, (t,), b) && t@.width >= 2 ==> b + 1 < t@.width
}

/// The row at `i` whose cell at `a` is `v` is among `rows_with(rows, v, a)`, less
/// that cell; the index where it stands there is returned.
pub proof fn lemma_rows_with_has(rows: Seq<Seq<Seq<char>>>, v: Seq<char>, a: int, i: int) -> (k: int)
    requires
        0 <= i < rows.len(),
        rows[i][a] == v,
    ensures
        0 <= k < rows_with(rows, v, a).len(),
        rows_with(rows, v, a)[k] == rows[i].remove(a),
    decreases rows.len(),
{
    let p = rows.drop_last();
    let n = rows.len() - 1;
    if i == n {
        rows_with(p, v, a).len() as int
    } else {
        assert(p[i] == rows[i]);
        lemma_rows_with_has(p, v, a, i)
    }
}

/// Each entry of `rows_with(rows, v, a)` is a row of `rows` whose cell at `a` is
/// `v`, less that cell; the index of that row is returned.
pub proof fn lemma_rows_with_from(rows: Seq<Seq<Seq<char>>>, v: Seq<char>, a: int, k: int) -> (i: int)
    requires
        0 <= k < rows_with(rows, v, a).len(),
    ensures
        0 <= i < rows.len(),
        rows[i][a] == v,
        rows_with(rows, v, a)[k] == rows[i].remove(a),
    decreases rows.len(),
{
    let p = rows.drop_last();
    let n = rows.len() - 1;
    if rows.last()[a] == v && k == rows_with(p, v, a).len() {
        n
    } else {
        let i = lemma_rows_with_from(p, v, a, k);
        assert(p[i] == rows[i]);
        i
    }
}

/// Taking out an attribute column keeps the examples rectangular and consistent.
pub proof fn lemma_subset(g: Grid, v: Seq<char>, b: int)
    requires
        g.wf(),
        0 <= b,
        b + 1 < g.width,
    ensures
        subset(g, v, b).wf(),
        consistent(g) ==> consistent(subset(g, v, b)),
{
    let s = subset(g, v, b);
    let w = g.width as int;
    assert forall|k: int| 0 <= k < s.rows.len() implies #[trigger] s.rows[k].len() == s.width by {
        let i = lemma_rows_with_from(g.rows, v, b, k);
        assert(g.rows[i].len() == g.width);
    }
    if consistent(g) {
        assert forall|k1: int, k2: int|
            #![trigger s.rows[k1], s.rows[k2]]
            0 <= k1 < s.rows.len() && 0 <= k2 < s.rows.len() && s.rows[k1].take(s.width - 1)
                == s.rows[k2].take(s.width - 1) implies s.rows[k1][s.width - 1]
            == s.rows[k2][s.width - 1] by {
            let i1 = lemma_rows_with_from(g.rows, v, b, k1);
            let i2 = lemma_rows_with_from(g.rows, v, b, k2);
            let r1 = g.rows[i1];
            let r2 = g.rows[i2];
            assert(r1.len() == w && r2.len() == w);
            assert forall|c: int| 0 <= c < w - 1 implies #[trigger] r1.take(w - 1)[c] == r2.take(w - 1)[c] by {
                if c < b {
                    assert(s.rows[k1].take(s.width - 1)[c] == s.rows[k2].take(s.width - 1)[c]);
                } else if c > b {
                    assert(s.rows[k1].take(s.width - 1)[c - 1] == s.rows[k2].take(s.width - 1)[c - 1]);
                }
            }
            assert(r1.take(w - 1) =~= r2.take(w - 1));
            assert(r1[w - 1] == r2[w - 1]);
        }
    }
}

/// With no attribute column left, consistent examples share their target value.
pub proof fn lemma_no_attributes(g: Grid)
    requires
        g.wf(),
        g.width == 1,
        g.rows.len() > 0,
        consistent(g),
    ensures
        uniform(g.target()),
{
    assert forall|i: int| 0 <= i < g.target().len() implies #[trigger] g.target()[i] == g.target()[0] by {
        assert(g.rows[i].take(0) =~= g.rows[0].take(0));
    }
}

/// A value of column `b` selects at least one example.
proof fn lemma_value_present(g: Grid, b: int, x: Seq<char>)
    requires
        distinct(g.column(b)).contains(x),
    ensures
        rows_with(g.rows, x, b).len() > 0,
{
    lemma_distinct(g.column(b));
    let i = choose|i: int| 0 <= i < g.column(b).len() && g.column(b)[i] == x;
    lemma_rows_with_has(g.rows, x, b, i);
}

/// A copy of a list of attributes.
fn copy_attributes(v: &Vec<usize>) -> (r: Vec<usize>)
    ensures
        r@ == v@,
{
    let mut r: Vec<usize> = Vec::new();
    let mut j: usize = 0;
    while j < v.len()
        invariant
            j <= v.len(),
            r@ == v@.take(j as int),
        decreases v.len() - j,
    {
        r.push(v[j]);
        proof {
            assert(r@ =~= v@.take(j + 1));
        }
        j = j + 1;
    }
    proof {
        assert(v@.take(v.len() as int) =~= v@);
    }
    r
}

/// Grows a decision tree from `examples` by ID3. `attributes[c]` is the attribute
/// that attribute column `c` stands for; `select` picks the column to split on at
/// each node where the examples do not all share their target value.
/// `None` where `select` picks a column that is not an attribute column.
pub fn id3<F: Fn(&Table) -> usize>(examples: Table, attributes: Vec<usize>, select: &F) -> (res:
    Option<Tree>)
    requires
        examples@.rows.len() > 0,
        examples@.width >= 1,
        forall|t: &Table| t@.width >= 1 && t@.rows.len() > 0 ==> call_requires(*select, (t,)),
    ensures
        res matches Some(tree) ==> is_id3_tree(examples@, attributes@, tree, *select),
        consistent(examples@) && attributes@.len() + 1 >= examples@.width && selects_attribute(
            *select,
        ) ==> res is Some,
        !consistent(examples@) ==> res is None,
        res matches Some(tree) ==> (uniform(examples@.target()) <==> tree is Leaf),
        res matches Some(tree) ==> (tree is Branch ==> exists|b: usize|
            #![trigger call_ensures(*select, (&examples,), b)]
            call_ensures(*select, (&examples,), b) && b < attributes@.len() && tree->label
                == attributes@[b as int] && tree->children@.len() == distinct(
                examples@.column(b as int),
            ).len() && forall|i: int|
                0 <= i < tree->children@.len() ==> (#[trigger] tree->children@[i]).path@
                    == distinct(examples@.column(b as int))[i]),
    decreases attributes@.len(),
{
    let ghost g = examples@;
    let ncols = examples.ncols();
    let target = examples.column(ncols - 1);
    let (cond, value) = check_single_value(&target);
    proof {
        assert(strs(target@) =~= g.target());
    }
    if cond {
        let leaf = Tree::Leaf(value);
        proof {
            lemma_id3_tree_consistent(g, attributes@, leaf, *select);
        }
        return Some(leaf);
    }
    let best = select(&examples);
    if best >= attributes.len() || best + 1 >= ncols {
        proof {
            if consistent(g) && ncols == 1 {
                lemma_no_attributes(g);
            }
        }
        return None;
    }
    let values = distinct_values(&examples.column(best));
    let ghost vals = distinct(g.column(best as int));
    proof {
        lemma_distinct(g.column(best as int));
        lemma_subset(g, vals[0], best as int);
    }
    let label = attributes[best];
    let ghost attrs = attributes@;
    let mut rest = copy_attributes(&attributes);
    rest.remove(best);
    let mut children: Vec<Child> = Vec::new();
    let mut i: usize = 0;
    while i < values.len()
        invariant
            i <= values.len(),
            strs(values@) == vals,
            vals == distinct(g.column(best as int)),
            examples@ == g,
            g.wf(),
            g.rows.len() > 0,
            attrs == attributes@,
            best < attrs.len(),
            best + 1 < g.width,
            !uniform(g.target()),
            rest@ == attrs.remove(best as int),
            children.len() == i,
            call_ensures(*select, (&examples,), best),
            forall|t: &Table| t@.width >= 1 && t@.rows.len() > 0 ==> call_requires(*select, (t,)),
            forall|k: int|
                0 <= k < i ==> (#[trigger] children@[k]).path@ == vals[k] && is_id3_tree(
                    subset(g, vals[k], best as int),
                    rest@,
                    children@[k].tree,
                    *select,
                ),
        decreases values.len() - i,
    {
        let ghost x = vals[i as int];
        proof {
            assert(strs(values@)[i as int] == values@[i as int]@);
            assert(vals.contains(x));
            lemma_value_present(g, best as int, x);
            lemma_subset(g, x, best as int);
        }
        let part = get_subset(examples.copy(), values[i].clone(), best);
        let child = id3(part, copy_attributes(&rest), select);
        match child {
            Some(tree) => {
                children.push(Child { path: values[i].clone(), tree });
            },
            None => {
                proof {
                    assert(rest@.len() + 1 == attrs.len());
                }
                return None;
            },
        }
        i = i + 1;
    }
    proof {
        assert(call_ensures(*select, (&examples,), best as int as usize));
        assert(branch_on(g, attrs, best as int, label, children@, *select));
    }
    let tree = Tree::Branch { label, children };
    proof {
        lemma_id3_tree_consistent(g, attrs, tree, *select);
    }
    Some(tree)
}

/// What an ID3 tree holds at its root: where the examples share their target value,
/// a leaf with that value; else a branch on the attribute `attrs[b]` for a column
/// `b` that `select` returns for a table holding the examples, with one child for
/// each distinct value of column `b`, in the order of first occurrence, the child's
/// path being that value.
pub proof fn lemma_id3_root<F: Fn(&Table) -> usize>(g: Grid, attrs: Seq<usize>, tree: Tree, select: F)
    requires
        g.width <= usize::MAX,
        is_id3_tree(g, attrs, tree, select),
    ensures
        uniform(g.target()) ==> (tree matches Tree::Leaf(v) && v@ == g.target()[0]),
        !uniform(g.target()) ==> tree is Branch && exists|t: &Table, b: usize|
            #![trigger call_ensures(select, (t,), b)]
            t@ == g && call_ensures(select, (t,), b) && b < attrs.len() && b + 1 < g.width
                && tree->label == attrs[b as int] && tree->children@.len() == distinct(
                g.column(b as int),
            ).len() && forall|i: int|
                0 <= i < tree->children@.len() ==> (#[trigger] tree->children@[i]).path@
                    == distinct(g.column(b as int))[i],
{
    if !uniform(g.target()) {
        let c = tree->children@;
        let b = choose|b: int|
            0 <= b < attrs.len() && #[trigger] attrs[b] == tree->label && branch_on(
                g,
                attrs,
                b,
                tree->label,
                c,
                select,
            );
        let t = choose|t: &Table| t@ == g && #[trigger] call_ensures(select, (t,), b as usize);
        assert(b as usize as int == b);
        assert(call_ensures(select, (t,), b as usize));
    }
}

/// Only consistent examples have an ID3 tree: two examples that agree on every
/// attribute reach the same leaf, which holds one target value.
pub proof fn lemma_id3_tree_consistent<F: Fn(&Table) -> usize>(g: Grid, attrs: Seq<usize>, tree: Tree, select: F)
    requires
        g.wf(),
        g.width >= 1,
        is_id3_tree(g, attrs, tree, select),
    ensures
        consistent(g),
    decreases attrs.len(),
{
    let w = g.width as int;
    if uniform(g.target()) {
        assert forall|i: int, j: int|
            #![trigger g.rows[i], g.rows[j]]
            0 <= i < g.rows.len() && 0 <= j < g.rows.len() && g.rows[i].take(w - 1) == g.rows[j].take(
                w - 1,
            ) implies g.rows[i][w - 1] == g.rows[j][w - 1] by {
            assert(g.target()[i] == g.target()[0]);
            assert(g.target()[j] == g.target()[0]);
        }
    } else {
        let label = tree->label;
        let children = tree->children@;
        let b = choose|b: int|
            0 <= b < attrs.len() && #[trigger] attrs[b] == label && branch_on(
                g,
                attrs,
                b,
                label,
                children,
                select,
            );
        let col = g.column(b);
        let vals = distinct(col);
        lemma_distinct(col);
        assert forall|i: int, j: int|
            #![trigger g.rows[i], g.rows[j]]
            0 <= i < g.rows.len() && 0 <= j < g.rows.len() && g.rows[i].take(w - 1) == g.rows[j].take(
                w - 1,
            ) implies g.rows[i][w - 1] == g.rows[j][w - 1] by {
            let ri = g.rows[i];
            let rj = g.rows[j];
            let x = ri[b];
            assert(ri.take(w - 1)[b] == rj.take(w - 1)[b]);
            assert(rj[b] == x);
            assert(col[i] == x);
            assert(vals.contains(x));
            let k = choose|k: int| 0 <= k < vals.len() && vals[k] == x;
            assert(children[k].path@ == vals[k]);
            let s = subset(g, x, b);
            lemma_subset(g, x, b);
            lemma_id3_tree_consistent(s, attrs.remove(b), children[k].tree, select);
            let i2 = lemma_rows_with_has(g.rows, x, b, i);
            let j2 = lemma_rows_with_has(g.rows, x, b, j);
            let si = s.rows[i2];
            let sj = s.rows[j2];
            assert(si == ri.remove(b));
            assert(sj == rj.remove(b));
            assert forall|c: int| 0 <= c < w - 2 implies #[trigger] si.take(w - 2)[c] == sj.take(w - 2)[c] by {
                if c < b {
                    assert(ri.take(w - 1)[c] == rj.take(w - 1)[c]);
                } else {
                    assert(ri.take(w - 1)[c + 1] == rj.take(w - 1)[c + 1]);
                }
            }
            assert(si.take(w - 2) =~= sj.take(w - 2));
            assert(si[w - 2] == sj[w - 2]);
        }
    }
}

/// `row` is example `e` of a table whose attribute columns stand for the
/// attributes `attrs`: the cell of `row` at each such attribute, and its last cell,
/// are those of `e`.
pub open spec fn stands_for(g: Grid, attrs: Seq<usize>, row: Seq<Seq<char>>, e: Seq<Seq<char>>) -> bool {
    &&& row.len() > 0
    &&& attrs.len() + 1 >= g.width
    &&& e.len() == g.width
    &&& forall|c: int|
        0 <= c < g.width - 1 ==> (#[trigger] attrs[c]) < row.len() && row[attrs[c] as int] == e[c]
    &&& row[row.len() - 1] == e[g.width - 1]
}

proof fn lemma_fits<F: Fn(&Table) -> usize>(g: Grid, attrs: Seq<usize>, tree: Tree, select: F, row: Seq<Seq<char>>, i: int)
    requires
        g.wf(),
        g.width >= 1,
        0 <= i < g.rows.len(),
        is_id3_tree(g, attrs, tree, select),
        stands_for(g, attrs, row, g.rows[i]),
    ensures
        testable(tree, row),
        classifies(tree, row),
    decreases attrs.len(),
{
    let w = g.width as int;
    let e = g.rows[i];
    if uniform(g.target()) {
        assert(g.target()[i] == g.target()[0]);
    } else {
        let label = tree->label;
        let children = tree->children@;
        let b = choose|b: int|
            0 <= b < attrs.len() && #[trigger] attrs[b] == label && branch_on(
                g,
                attrs,
                b,
                label,
                children,
                select,
            );
        let x = e[b];
        let col = g.column(b);
        let vals = distinct(col);
        lemma_distinct(col);
        assert(col[i] == x);
        assert(vals.contains(x));
        let k = choose|k: int| 0 <= k < vals.len() && vals[k] == x;
        assert(children[k].path@ == x);
        assert forall|m: int| 0 <= m < k implies (#[trigger] children[m]).path@ != x by {
            assert(children[m].path@ == vals[m]);
        }
        assert(first_child(children, x) == k);
        assert(row[label as int] == x);
        let s = subset(g, x, b);
        let rest = attrs.remove(b);
        let i2 = lemma_rows_with_has(g.rows, x, b, i);
        lemma_subset(g, x, b);
        let e2 = s.rows[i2];
        assert(e2 == e.remove(b));
        assert forall|c: int| 0 <= c < s.width - 1 implies (#[trigger] rest[c]) < row.len()
            && row[rest[c] as int] == e2[c] by {
            if c < b {
                assert(rest[c] == attrs[c]);
                assert(e2[c] == e[c]);
            } else {
                assert(rest[c] == attrs[c + 1]);
                assert(e2[c] == e[c + 1]);
            }
        }
        assert(e2[s.width - 1] == e[w - 1]);
        assert(stands_for(s, rest, row, e2));
        lemma_fits(s, rest, children[k].tree, select, row, i2);
    }
}

/// ID3 fits the examples it grew from: the tree that it grows from a table whose
/// attribute columns stand for the attributes `0, 1, ..., width - 2` classifies
/// every example of that table correctly, and classifying one reads only cells
/// that the example has.
pub proof fn lemma_id3_fits_examples<F: Fn(&Table) -> usize>(g: Grid, tree: Tree, select: F)
    requires
        g.wf(),
        1 <= g.width <= usize::MAX,
        is_id3_tree(g, Seq::new((g.width - 1) as nat, |c: int| c as usize), tree, select),
    ensures
        forall|i: int|
            0 <= i < g.rows.len() ==> testable(tree, #[trigger] g.rows[i]) && classifies(
                tree,
                g.rows[i],
            ),
{
    let attrs = Seq::new((g.width - 1) as nat, |c: int| c as usize);
    assert forall|i: int| 0 <= i < g.rows.len() implies testable(tree, #[trigger] g.rows[i])
        && classifies(tree, g.rows[i]) by {
        let e = g.rows[i];
        assert forall|c: int| 0 <= c < g.width - 1 implies (#[trigger] attrs[c]) < e.len()
            && e[attrs[c] as int] == e[c] by {
            assert(attrs[c] as int == c);
        }
        lemma_fits(g, attrs, tree, select, e, i);
    }
}

/// The selection rule gives tables with the same contents the same column.
pub open spec fn selection_deterministic<F: Fn(&Table) -> usize>(select: F) -> bool {
    forall|t1: &Table, t2: &Table, b1: usize, b2: usize|
        #![trigger call_ensures(select, (t1,), b1), call_ensures(select, (t2,), b2)]
        t1@ == t2@ && call_ensures(select, (t1,), b1) && call_ensures(select, (t2,), b2) ==> b1
            == b2
}

/// With a selection rule that gives tables with the same contents the same column,
/// the examples and attributes fix the ID3 tree: any two ID3 trees of them are the
/// same. So two runs of `id3` give the same tree, and each child of a branch is the
/// tree that `id3` grows from its subset.
pub proof fn lemma_id3_tree_unique<F: Fn(&Table) -> usize>(
    g: Grid,
    attrs: Seq<usize>,
    t1: Tree,
    t2: Tree,
    select: F,
)
    requires
        g.width <= usize::MAX,
        selection_deterministic(select),
        is_id3_tree(g, attrs, t1, select),
        is_id3_tree(g, attrs, t2, select),
    ensures
        same_tree(t1, t2),
    decreases attrs.len(),
{
    if !uniform(g.target()) {
        let c1 = t1->children@;
        let c2 = t2->children@;
        let b1 = choose|b: int|
            0 <= b < attrs.len() && #[trigger] attrs[b] == t1->label && branch_on(
                g,
                attrs,
                b,
                t1->label,
                c1,
                select,
            );
        let b2 = choose|b: int|
            0 <= b < attrs.len() && #[trigger] attrs[b] == t2->label && branch_on(
                g,
                attrs,
                b,
                t2->label,
                c2,
                select,
            );
        let x1 = choose|t: &Table| t@ == g && #[trigger] call_ensures(select, (t,), b1 as usize);
        let x2 = choose|t: &Table| t@ == g && #[trigger] call_ensures(select, (t,), b2 as usize);
        assert(b1 as usize == b2 as usize);
        let vals = distinct(g.column(b1));
        assert forall|i: int| 0 <= i < c1.len() implies (#[trigger] c1[i]).path@ == c2[i].path@
            && same_tree(c1[i].tree, c2[i].tree) by {
            assert(c1[i].path@ == vals[i]);
            assert(c2[i].path@ == vals[i]);
            lemma_id3_tree_unique(subset(g, vals[i], b1), attrs.remove(b1), c1[i].tree, c2[i].tree, select);
        }
    }
}

proof fn lemma_all_pass(tree: Tree, rows: Seq<Seq<Seq<char>>>)
    requires
        forall|i: int| 0 <= i < rows.len() ==> classifies(tree, #[trigger] rows[i]),
    ensures
        passes(tree, rows) == rows.len(),
    decreases rows.len(),
{
    if rows.len() > 0 {
        let p = rows.drop_last();
        assert forall|i: int| 0 <= i < p.len() implies classifies(tree, #[trigger] p[i]) by {
            assert(p[i] == rows[i]);
        }
        lemma_all_pass(tree, p);
        assert(classifies(tree, rows[rows.len() - 1]));
    }
}

/// Validated on the examples it was grown from, an ID3 tree is right on every one:
/// `count_passes` of it on that table counts every row.
pub proof fn lemma_id3_passes_all<F: Fn(&Table) -> usize>(g: Grid, tree: Tree, select: F)
    requires
        g.wf(),
        1 <= g.width <= usize::MAX,
        is_id3_tree(g, Seq::new((g.width - 1) as nat, |c: int| c as usize), tree, select),
    ensures
        forall|i: int| 0 <= i < g.rows.len() ==> testable(tree, #[trigger] g.rows[i]),
        passes(tree, g.rows) == g.rows.len(),
{
    lemma_id3_fits_examples(g, tree, select);
    lemma_all_pass(tree, g.rows);
}

} // verus!
