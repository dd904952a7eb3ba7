//! The fixed two-state neighbor-counting rule.
//!
//! One generation is a pointwise function of each cell's eight neighbors: a
//! cell is alive next generation iff it has exactly three live neighbors, or
//! it is alive and has exactly two.

use vstd::prelude::*;

verus! {

use crate::model::{grid_at, nodes_ok, store_extends, lemma_cell_at_frame};
use crate::node::Node;

/// 1 for a live cell, 0 for a dead one.
pub open spec fn b2i(b: bool) -> int {
    if b {
        1
    } else {
        0
    }
}

/// The rule on one cell, over the cell's own state and its eight neighbors.
/// Kept opaque so that rule applications stay atomic in proofs; equal
/// neighborhoods give equal outcomes by congruence alone.
#[verifier::opaque]
pub open spec fn rule_of(
    center: bool,
    n0: bool,
    n1: bool,
    n2: bool,
    n3: bool,
    n4: bool,
    n5: bool,
    n6: bool,
    n7: bool,
) -> bool {
    let cnt = b2i(n0) + b2i(n1) + b2i(n2) + b2i(n3) + b2i(n4) + b2i(n5) + b2i(n6) + b2i(n7);
    cnt == 3 || (cnt == 2 && center)
}

/// Number of live cells among the eight neighbors of `(x, y)` on the grid of
/// the given node (dead outside its bounds).
pub open spec fn nbhd_count(s: Seq<Node>, id: int, level: nat, x: int, y: int) -> int {
    b2i(grid_at(s, id, level, x - 1, y - 1)) + b2i(grid_at(s, id, level, x, y - 1)) + b2i(
        grid_at(s, id, level, x + 1, y - 1),
    ) + b2i(grid_at(s, id, level, x - 1, y)) + b2i(grid_at(s, id, level, x + 1, y)) + b2i(
        grid_at(s, id, level, x - 1, y + 1),
    ) + b2i(grid_at(s, id, level, x, y + 1)) + b2i(grid_at(s, id, level, x + 1, y + 1))
}

/// Whether `(x, y)` is alive one generation after the grid of the given
/// node. Kept opaque for the same reason as `rule_of`; `lemma_step_on_rule`
/// is the one place that opens it.
#[verifier::opaque]
pub open spec fn step_on(s: Seq<Node>, id: int, level: nat, x: int, y: int) -> bool {
    nbhd_count(s, id, level, x, y) == 3 || (nbhd_count(s, id, level, x, y) == 2 && grid_at(
        s,
        id,
        level,
        x,
        y,
    ))
}

/// The stepped state of a cell is the rule applied to its 3-by-3 block.
pub proof fn lemma_step_on_rule(s: Seq<Node>, id: int, level: nat, x: int, y: int)
    ensures
        step_on(s, id, level, x, y) == rule_of(
            grid_at(s, id, level, x, y),
            grid_at(s, id, level, x - 1, y - 1),
            grid_at(s, id, level, x, y - 1),
            grid_at(s, id, level, x + 1, y - 1),
            grid_at(s, id, level, x - 1, y),
            grid_at(s, id, level, x + 1, y),
            grid_at(s, id, level, x - 1, y + 1),
            grid_at(s, id, level, x, y + 1),
            grid_at(s, id, level, x + 1, y + 1),
        ),
{
    reveal(rule_of);
    reveal(step_on);
}

/// The stepped grid of a node is stable under store extension: the rule only
/// reads the node's own cells.
pub proof fn lemma_step_on_frame(s1: Seq<Node>, s2: Seq<Node>, id: int, level: nat, x: int, y: int)
    requires
        nodes_ok(s1),
        store_extends(s1, s2),
        0 <= id < s1.len(),
    ensures
        step_on(s2, id, level, x, y) == step_on(s1, id, level, x, y),
{
    assert forall|u: int, v: int| x - 1 <= u <= x + 1 && y - 1 <= v <= y + 1 implies #[trigger] grid_at(
        s2,
        id,
        level,
        u,
        v,
    ) == grid_at(s1, id, level, u, v) by {
        reveal(grid_at);
        lemma_cell_at_frame(s1, s2, id, level, u, v);
    }
    assert(grid_at(s2, id, level, x - 1, y - 1) == grid_at(s1, id, level, x - 1, y - 1));
    assert(grid_at(s2, id, level, x, y - 1) == grid_at(s1, id, level, x, y - 1));
    assert(grid_at(s2, id, level, x + 1, y - 1) == grid_at(s1, id, level, x + 1, y - 1));
    assert(grid_at(s2, id, level, x - 1, y) == grid_at(s1, id, level, x - 1, y));
    assert(grid_at(s2, id, level, x, y) == grid_at(s1, id, level, x, y));
    assert(grid_at(s2, id, level, x + 1, y) == grid_at(s1, id, level, x + 1, y));
    assert(grid_at(s2, id, level, x - 1, y + 1) == grid_at(s1, id, level, x - 1, y + 1));
    assert(grid_at(s2, id, level, x, y + 1) == grid_at(s1, id, level, x, y + 1));
    assert(grid_at(s2, id, level, x + 1, y + 1) == grid_at(s1, id, level, x + 1, y + 1));
    lemma_step_on_rule(s1, id, level, x, y);
    lemma_step_on_rule(s2, id, level, x, y);
}

/// A cell whose whole 3-by-3 block is dead stays dead.
pub proof fn lemma_step_on_dead(s: Seq<Node>, id: int, level: nat, x: int, y: int)
    requires
        forall|u: int, v: int| x - 1 <= u <= x + 1 && y - 1 <= v <= y + 1 ==> !(#[trigger] grid_at(
            s,
            id,
            level,
            u,
            v,
        )),
    ensures
        !step_on(s, id, level, x, y),
{
    reveal(rule_of);
    reveal(step_on);
    assert(!grid_at(s, id, level, x - 1, y - 1));
    assert(!grid_at(s, id, level, x, y - 1));
    assert(!grid_at(s, id, level, x + 1, y - 1));
    assert(!grid_at(s, id, level, x - 1, y));
    assert(!grid_at(s, id, level, x, y));
    assert(!grid_at(s, id, level, x + 1, y));
    assert(!grid_at(s, id, level, x - 1, y + 1));
    assert(!grid_at(s, id, level, x, y + 1));
    assert(!grid_at(s, id, level, x + 1, y + 1));
}

} // verus!
