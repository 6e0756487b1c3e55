//! Choosing the attribute to split on: at random, and the grouping of target
//! values by attribute value that gain-based choices weigh.
use vstd::prelude::*;
use rand::Rng;
use crate::table::Table;
use crate::values::{strs, distinct, matching, group_by_value};

verus! {

/// `rand::Rng::gen_range(low, high)` on `rand::thread_rng()`: a number drawn at
/// random from `low` (inclusive) to `high` (exclusive). Which one is drawn is not
/// stated: it rests on chance. `gen_range` panics where `low >= high`, which the
/// `requires` rules out.
#[verifier::external_body]
fn random_in_range(low: usize, high: usize) -> (r: usize)
    requires
        low < high,
    ensures
        low <= r < high,
{
    rand::thread_rng().gen_range(low, high)
}

/// An attribute column of `examples` (any column but the last) drawn at random;
/// 0 where the table has only the target column.
pub fn random_attribute(examples: &Table) -> (r: usize)
    requires
        examples@.width >= 1,
    ensures
        examples@.width == 1 ==> r == 0,
        examples@.width > 1 ==> r + 1 < examples@.width,
{
    if examples.ncols() == 1 {
        0
    } else {
        random_in_range(0, examples.ncols() - 1)
    }
}

/// For attribute column `x` of `g`, the target values grouped by the value of
/// that attribute: one group per distinct value, in the order of first occurrence.
pub open spec fn target_groups(g: crate::table::Grid, x: int) -> Seq<Seq<Seq<char>>> {
    let vals = distinct(g.column(x));
    Seq::new(vals.len(), |j: int| matching(g.column(x), g.target(), vals[j]))
}

/// For each attribute column, in order, the target values of the examples grouped
/// by the value of that attribute.
pub fn attribute_groups(examples: &Table) -> (r: Vec<Vec<Vec<String>>>)
    requires
        examples@.width >= 1,
    ensures
        r.len() == examples@.width - 1,
        forall|x: int|
            0 <= x < r.len() ==> (#[trigger] r@[x])@.map_values(|v: Vec<String>| strs(v@))
                == target_groups(examples@, x),
{
    let ncols = examples.ncols();
    let target = examples.column(ncols - 1);
    let mut r: Vec<Vec<Vec<String>>> = Vec::new();
    let mut x: usize = 0;
    while x < ncols - 1
        invariant
            x <= ncols - 1,
            ncols == examples@.width >= 1,
            strs(target@) == examples@.target(),
            target.len() == examples@.rows.len(),
            r.len() == x,
            forall|k: int|
                0 <= k < x ==> (#[trigger] r@[k])@.map_values(|v: Vec<String>| strs(v@))
                    == target_groups(examples@, k),
        decreases ncols - 1 - x,
    {
        let column = examples.column(x);
        let (_, groups) = group_by_value(&column, &target);
        proof {
            assert(groups@.map_values(|v: Vec<String>| strs(v@)) =~= target_groups(
                examples@,
                x as int,
            ));
        }
        r.push(groups);
        x = x + 1;
    }
    r
}

} // verus!
