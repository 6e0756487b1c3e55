//! Decision trees and how they classify an example.
use vstd::prelude::*;
use crate::table::Table;
use crate::values::strs;

verus! {

/// A decision tree. A `Leaf` holds the value of the target attribute for every
/// example that reaches it; a `Branch` examines attribute `label` and has a
/// child for each value of it.
#[derive(Debug)]
pub enum Tree {
    Leaf(String),
    Branch { label: usize, children: Vec<Child> },
}

/// The path from a branch to a subtree: the attribute value it stands for, and
/// the subtree.
#[derive(Debug)]
pub struct Child {
    pub path: String,
    pub tree: Tree,
}

/// The index of the first child whose path is `v`, or -1 where there is none.
pub open spec fn first_child(children: Seq<Child>, v: Seq<char>) -> int {
    if exists|k: int|
        0 <= k < children.len() && (#[trigger] children[k]).path@ == v && forall|m: int|
            0 <= m < k ==> (#[trigger] children[m]).path@ != v {
        choose|k: int|
            0 <= k < children.len() && (#[trigger] children[k]).path@ == v && forall|m: int|
                0 <= m < k ==> (#[trigger] children[m]).path@ != v
    } else {
        -1
    }
}

/// Whether `tree` predicts the target value (last cell) of `row`: a leaf compares
/// its value with it; a branch follows the first child whose path is the row's
/// value of its attribute, and fails where there is none.
pub open spec fn classifies(tree: Tree, row: Seq<Seq<char>>) -> bool
    decreases tree,
{
    match tree {
        Tree::Leaf(v) => row[row.len() - 1] == v@,
        Tree::Branch { label, children } => {
            let k = first_child(children@, row[label as int]);
            if 0 <= k < children@.len() {
                classifies(children@[k].tree, row)
            } else {
                false
            }
        },
    }
}

/// Whether `row` has every cell that classifying it reads: the last one at a
/// leaf, and the attribute of each branch on its path.
pub open spec fn testable(tree: Tree, row: Seq<Seq<char>>) -> bool
    decreases tree,
{
    match tree {
        Tree::Leaf(v) => row.len() > 0,
        Tree::Branch { label, children } => {
            &&& label < row.len()
            &&& {
                let k = first_child(children@, row[label as int]);
                0 <= k < children@.len() ==> testable(children@[k].tree, row)
            }
        },
    }
}

/// How many of `rows` the tree classifies correctly.
pub open spec fn passes(tree: Tree, rows: Seq<Seq<Seq<char>>>) -> nat
    decreases rows.len(),
{
    if rows.len() == 0 {
        0
    } else {
        passes(tree, rows.drop_last()) + if classifies(tree, rows.last()) {
            1nat
        } else {
            0nat
        }
    }
}

/// The two trees are the same, value for value: the same leaves, and branches on
/// the same attribute whose children have the same paths and the same subtrees, in
/// the same order.
pub open spec fn same_tree(t1: Tree, t2: Tree) -> bool
    decreases t1,
{
    match t1 {
        Tree::Leaf(v1) => t2 matches Tree::Leaf(v2) && v1@ == v2@,
        Tree::Branch { label, children } => t2 matches Tree::Branch { label: l2, children: c2 }
            && label == l2 && children@.len() == c2@.len() && forall|i: int|
            0 <= i < children@.len() ==> (#[trigger] children@[i]).path@ == c2@[i].path@
                && same_tree(children@[i].tree, c2@[i].tree),
    }
}

/// No two children have the same path.
pub open spec fn distinct_paths(children: Seq<Child>) -> bool {
    forall|i: int, j: int|
        0 <= i < children.len() && 0 <= j < children.len() && i != j ==> (#[trigger] children[i]).path@
            != (#[trigger] children[j]).path@
}

/// `t2` is `t1` with the children of some of its branches in another order. At
/// each branch the attribute is the same, and either the children stay in place
/// (the same paths in the same order, whatever they are, each over a reordered
/// subtree), or the paths are pairwise distinct on both sides, the same paths
/// stand on both sides, and under each path stands a reordered subtree.
pub open spec fn reordered(t1: Tree, t2: Tree) -> bool
    decreases t1,
{
    match t1 {
        Tree::Leaf(v1) => t2 matches Tree::Leaf(v2) && v1@ == v2@,
        Tree::Branch { label, children } => t2 matches Tree::Branch { label: l2, children: c2 }
            && label == l2 && ({
            ||| children@.len() == c2@.len() && forall|i: int|
                0 <= i < children@.len() ==> (#[trigger] children@[i]).path@ == c2@[i].path@
                    && reordered(children@[i].tree, c2@[i].tree)
            ||| distinct_paths(children@) && distinct_paths(c2@) && (forall|j: int|
                0 <= j < c2@.len() ==> exists|i: int|
                    0 <= i < children@.len() && (#[trigger] children@[i]).path@ == (
                    #[trigger] c2@[j]).path@) && forall|i: int|
                0 <= i < children@.len() ==> exists|j: int|
                    0 <= j < c2@.len() && (#[trigger] c2@[j]).path@ == (
                    #[trigger] children@[i]).path@ && reordered(children@[i].tree, c2@[j].tree)
        }),
    }
}

/// Where some child has path `v`, `first_child` finds one.
pub proof fn lemma_first_child_found(children: Seq<Child>, v: Seq<char>, k: int)
    requires
        0 <= k < children.len(),
        children[k].path@ == v,
    ensures
        0 <= first_child(children, v) < children.len(),
        children[first_child(children, v)].path@ == v,
        forall|m: int| 0 <= m < first_child(children, v) ==> (#[trigger] children[m]).path@ != v,
    decreases k,
{
    if exists|m: int| 0 <= m < k && (#[trigger] children[m]).path@ == v {
        let m = choose|m: int| 0 <= m < k && (#[trigger] children[m]).path@ == v;
        lemma_first_child_found(children, v, m);
    } else {
        assert(forall|m: int| 0 <= m < k ==> (#[trigger] children[m]).path@ != v);
    }
}

/// Children with the same paths in the same order lead a row to the same child.
pub proof fn lemma_first_child_same(c1: Seq<Child>, c2: Seq<Child>, v: Seq<char>)
    requires
        c1.len() == c2.len(),
        forall|i: int| 0 <= i < c1.len() ==> (#[trigger] c1[i]).path@ == c2[i].path@,
    ensures
        first_child(c1, v) == first_child(c2, v),
{
    if exists|k: int| 0 <= k < c1.len() && (#[trigger] c1[k]).path@ == v {
        let k = choose|k: int| 0 <= k < c1.len() && (#[trigger] c1[k]).path@ == v;
        assert(c2[k].path@ == v);
        lemma_first_child_found(c1, v, k);
        lemma_first_child_found(c2, v, k);
        let f1 = first_child(c1, v);
        let f2 = first_child(c2, v);
        if f1 < f2 {
            assert(c2[f1].path@ == c1[f1].path@);
        } else if f2 < f1 {
            assert(c1[f2].path@ == c2[f2].path@);
        }
    } else {
        if exists|k: int| 0 <= k < c2.len() && (#[trigger] c2[k]).path@ == v {
            let k = choose|k: int| 0 <= k < c2.len() && (#[trigger] c2[k]).path@ == v;
            assert(c1[k].path@ == v);
        }
        assert(first_child(c1, v) == -1);
        assert(first_child(c2, v) == -1);
    }
}

/// Where paths are pairwise distinct, `first_child` finds the one child with path `v`.
pub proof fn lemma_first_child_unique(children: Seq<Child>, v: Seq<char>, k: int)
    requires
        distinct_paths(children),
        0 <= k < children.len(),
        children[k].path@ == v,
    ensures
        first_child(children, v) == k,
{
    lemma_first_child_found(children, v, k);
    let f = first_child(children, v);
    if f != k {
        assert(children[f].path@ != children[k].path@);
    }
}

/// Reordering the children of some branches, each of which has pairwise distinct
/// paths, does not change how the tree classifies a row, nor which cells it
/// reads; branches left in place may hold the same path twice.
pub proof fn lemma_reordered_classifies(t1: Tree, t2: Tree, row: Seq<Seq<char>>)
    requires
        reordered(t1, t2),
    ensures
        classifies(t1, row) == classifies(t2, row),
        testable(t1, row) == testable(t2, row),
    decreases t1,
{
    match t1 {
        Tree::Leaf(_) => {},
        Tree::Branch { label, children } => {
            let c1 = children@;
            let c2 = t2->children@;
            let v = row[label as int];
            let k1 = first_child(c1, v);
            assert(decreases_to!(t1 => t1->children));
            if c1.len() == c2.len() && forall|i: int|
                0 <= i < c1.len() ==> (#[trigger] c1[i]).path@ == c2[i].path@ && reordered(
                    c1[i].tree,
                    c2[i].tree,
                ) {
                lemma_first_child_same(c1, c2, v);
                if 0 <= k1 < c1.len() {
                    assert(c1[k1].path@ == c2[k1].path@);
                    lemma_reordered_classifies(c1[k1].tree, c2[k1].tree, row);
                }
            } else if 0 <= k1 < c1.len() {
                assert(c1[k1].path@ == v);
                let j = choose|j: int|
                    0 <= j < c2.len() && (#[trigger] c2[j]).path@ == c1[k1].path@ && reordered(
                        c1[k1].tree,
                        c2[j].tree,
                    );
                lemma_first_child_unique(c2, v, j);
                assert(decreases_to!(t1 => c1[k1].tree)) by {
                    assert(decreases_to!(t1 => t1->children));
                }
                lemma_reordered_classifies(c1[k1].tree, c2[j].tree, row);
            } else {
                if exists|j: int| 0 <= j < c2.len() && (#[trigger] c2[j]).path@ == v {
                    let j = choose|j: int| 0 <= j < c2.len() && (#[trigger] c2[j]).path@ == v;
                    let i = choose|i: int| 0 <= i < c1.len() && (#[trigger] c1[i]).path@ == c2[j].path@;
                    lemma_first_child_found(c1, v, i);
                }
                assert(first_child(c2, v) == -1);
            }
        },
    }
}

/// A leaf classifies a row exactly when the row's last cell is the leaf's value.
pub proof fn lemma_classifies_leaf(v: String, row: Seq<Seq<char>>)
    ensures
        classifies(Tree::Leaf(v), row) == (row[row.len() - 1] == v@),
        testable(Tree::Leaf(v), row) == (row.len() > 0),
{
}

/// A branch reads the row's cell at its attribute. Where no child has that value
/// as its path, the branch does not classify the row. Where child `k` is the
/// first with that path, the branch classifies the row exactly when the subtree of
/// child `k` does.
pub proof fn lemma_classifies_branch(label: usize, children: Vec<Child>, row: Seq<Seq<char>>)
    ensures
        (forall|i: int| 0 <= i < children@.len() ==> (#[trigger] children@[i]).path@ != row[label as int])
            ==> !classifies(Tree::Branch { label, children }, row) && testable(
            Tree::Branch { label, children },
            row,
        ) == (label < row.len()),
        forall|k: int|
            0 <= k < children@.len() && (#[trigger] children@[k]).path@ == row[label as int] && (
            forall|m: int| 0 <= m < k ==> (#[trigger] children@[m]).path@ != row[label as int])
                ==> classifies(Tree::Branch { label, children }, row) == classifies(
                children@[k].tree,
                row,
            ) && testable(Tree::Branch { label, children }, row) == (label < row.len() && testable(
                children@[k].tree,
                row,
            )),
{
    let c = children@;
    let v = row[label as int];
    assert forall|k: int|
        0 <= k < c.len() && (#[trigger] c[k]).path@ == v && (forall|m: int|
            0 <= m < k ==> (#[trigger] c[m]).path@ != v) implies first_child(c, v) == k by {
        lemma_first_child_found(c, v, k);
        let f = first_child(c, v);
        if f < k {
            assert(c[f].path@ != v);
        } else if f > k {
            assert(c[k].path@ != v);
        }
    }
}

/// `passes` counts the rows that the tree classifies: as many as keeping only
/// those rows leaves.
pub proof fn lemma_passes_counts(tree: Tree, rows: Seq<Seq<Seq<char>>>)
    ensures
        passes(tree, rows) == rows.filter(|r: Seq<Seq<char>>| classifies(tree, r)).len(),
    decreases rows.len(),
{
    reveal(Seq::filter);
    if rows.len() > 0 {
        lemma_passes_counts(tree, rows.drop_last());
    }
}

/// Counting over two tables one after the other is the sum of the two counts;
/// no count exceeds the number of rows.
pub proof fn lemma_passes_add(tree: Tree, a: Seq<Seq<Seq<char>>>, b: Seq<Seq<Seq<char>>>)
    ensures
        passes(tree, a + b) == passes(tree, a) + passes(tree, b),
        passes(tree, a) <= a.len(),
    decreases b.len(),
{
    if b.len() > 0 {
        lemma_passes_add(tree, a, b.drop_last());
        assert((a + b).drop_last() =~= a + b.drop_last());
        assert((a + b).last() == b.last());
    } else {
        assert(a + b =~= a);
        lemma_passes_le(tree, a);
    }
}

proof fn lemma_passes_le(tree: Tree, a: Seq<Seq<Seq<char>>>)
    ensures
        passes(tree, a) <= a.len(),
    decreases a.len(),
{
    if a.len() > 0 {
        lemma_passes_le(tree, a.drop_last());
    }
}

impl Tree {
    /// Whether the tree predicts the target value (last cell) of `row`.
    pub fn test(&self, row: &Vec<String>) -> (r: bool)
        requires
            testable(*self, strs(row@)),
        ensures
            r == classifies(*self, strs(row@)),
        decreases self,
    {
        match self {
            Tree::Leaf(val) => {
                let r = row[row.len() - 1] == *val;
                proof {
                    let sr = strs(row@);
                    assert(sr.len() == row.len());
                    assert(sr[sr.len() - 1] == row@[row.len() - 1]@);
                    assert(*self == Tree::Leaf(*val));
                }
                r
            },
            Tree::Branch { label, children } => {
                let val = &row[*label];
                proof {
                    assert(strs(row@)[*label as int] == val@);
                }
                let mut j: usize = 0;
                while j < children.len()
                    invariant
                        j <= children.len(),
                        *self == (Tree::Branch { label: *label, children: *children }),
                        testable(*self, strs(row@)),
                        strs(row@)[*label as int] == val@,
                        forall|m: int| 0 <= m < j ==> (#[trigger] children@[m]).path@ != val@,
                    decreases children.len() - j,
                {
                    if children[j].path == *val {
                        proof {
                            assert(children@[j as int].path@ == val@);
                            assert(first_child(children@, val@) == j);
                        }
                        return children[j].tree.test(row);
                    }
                    j = j + 1;
                }
                proof {
                    assert(first_child(children@, val@) == -1);
                }
                false
            },
        }
    }
}

impl Tree {
    /// Whether `row` has every cell that classifying it with `test` reads.
    pub fn can_test(&self, row: &Vec<String>) -> (r: bool)
        ensures
            r == testable(*self, strs(row@)),
        decreases self,
    {
        match self {
            Tree::Leaf(_) => row.len() > 0,
            Tree::Branch { label, children } => {
                if *label >= row.len() {
                    return false;
                }
                let val = &row[*label];
                proof {
                    assert(strs(row@)[*label as int] == val@);
                }
                let mut j: usize = 0;
                while j < children.len()
                    invariant
                        j <= children.len(),
                        *self == (Tree::Branch { label: *label, children: *children }),
                        *label < row.len(),
                        strs(row@)[*label as int] == val@,
                        forall|m: int| 0 <= m < j ==> (#[trigger] children@[m]).path@ != val@,
                    decreases children.len() - j,
                {
                    if children[j].path == *val {
                        proof {
                            assert(first_child(children@, val@) == j);
                            assert(decreases_to!(*self => self->children));
                        }
                        return children[j].tree.can_test(row);
                    }
                    j = j + 1;
                }
                proof {
                    assert(first_child(children@, val@) == -1);
                }
                true
            },
        }
    }
}

/// How many rows of `validation` the tree classifies correctly.
pub fn count_passes(tree: &Tree, validation: &Table) -> (n: usize)
    requires
        forall|i: int|
            0 <= i < validation@.rows.len() ==> testable(*tree, #[trigger] validation@.rows[i]),
    ensures
        n == passes(*tree, validation@.rows),
        n == validation@.rows.filter(|r: Seq<Seq<char>>| classifies(*tree, r)).len(),
{
    let nrows = validation.nrows();
    let mut pass: usize = 0;
    let mut i: usize = 0;
    while i < nrows
        invariant
            i <= nrows == validation@.rows.len(),
            forall|k: int|
                0 <= k < validation@.rows.len() ==> testable(*tree, #[trigger] validation@.rows[k]),
            pass == passes(*tree, validation@.rows.take(i as int)),
            pass <= i,
        decreases nrows - i,
    {
        let row = validation.row(i);
        proof {
            assert(validation@.rows.take(i + 1).drop_last() =~= validation@.rows.take(i as int));
            assert(validation@.rows.take(i + 1).last() == validation@.rows[i as int]);
        }
        if tree.test(row) {
            pass = pass + 1;
        }
        i = i + 1;
    }
    proof {
        assert(validation@.rows.take(nrows as int) =~= validation@.rows);
        lemma_passes_counts(*tree, validation@.rows);
    }
    pass
}

} // verus!
