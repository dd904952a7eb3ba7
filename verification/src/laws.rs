//! The library's laws, as proof functions over the store model and the
//! universe.

use vstd::prelude::*;

verus! {

use crate::life::rule_of;
use crate::model::{grid_at, node_ok, store_canon, store_ok, tree_inode};
use crate::node::{Node, desc_eq, node_pop};
use crate::universe::Universe;

/// Canonical uniqueness: in a well-formed store, two entries with equal
/// descriptions (the same cell, or the same four child identifiers) are the
/// same entry, so interning equal descriptions always yields the same
/// identifier and distinct identifiers never denote equal descriptions.
pub proof fn lemma_canonical_unique(s: Seq<Node>, i: int, j: int)
    requires
        store_ok(s),
        0 <= i < s.len(),
        0 <= j < s.len(),
        desc_eq(s[i], s[j]),
    ensures
        i == j,
{
    reveal(store_canon);
}

/// Population correctness: in a well-formed store, every internal node's
/// cached population is the sum of its four children's populations.
pub proof fn lemma_population_sum(s: Seq<Node>, i: int)
    requires
        store_ok(s),
        0 <= i < s.len(),
        s[i] is Inode,
    ensures
        tree_inode(s, i).population == node_pop(s[tree_inode(s, i).nw.0 as int]) + node_pop(
            s[tree_inode(s, i).ne.0 as int],
        ) + node_pop(s[tree_inode(s, i).sw.0 as int]) + node_pop(s[tree_inode(s, i).se.0 as int]),
{
    assert(node_ok(s, i));
}

/// Evolution agreement: the universe's grid one generation ahead is, cell
/// for cell, the fixed neighbor-counting rule applied to the universe's
/// current grid — what a naive cell-by-cell simulation computes.
pub proof fn lemma_step_agrees_with_rule(u: Universe, x: int, y: int)
    requires
        u.wf(),
        u.root is Some,
    ensures
        u.next_alive(x, y) == rule_of(
            u.alive_at(x, y),
            u.alive_at(x - 1, y - 1),
            u.alive_at(x, y - 1),
            u.alive_at(x + 1, y - 1),
            u.alive_at(x - 1, y),
            u.alive_at(x + 1, y),
            u.alive_at(x - 1, y + 1),
            u.alive_at(x, y + 1),
            u.alive_at(x + 1, y + 1),
        ),
{
    let s = u.store@;
    let r = u.spec_root().0 as int;
    let l = u.root_level();
    assert forall|a: int, b: int| x - 1 <= a <= x + 1 && y - 1 <= b <= y + 1 implies #[trigger] grid_at(
        s,
        r,
        l,
        a,
        b,
    ) == u.alive_at(a, b) by {
        reveal(crate::model::grid_at);
    }
    assert(grid_at(s, r, l, x - 1, y - 1) == u.alive_at(x - 1, y - 1));
    assert(grid_at(s, r, l, x, y - 1) == u.alive_at(x, y - 1));
    assert(grid_at(s, r, l, x + 1, y - 1) == u.alive_at(x + 1, y - 1));
    assert(grid_at(s, r, l, x - 1, y) == u.alive_at(x - 1, y));
    assert(grid_at(s, r, l, x, y) == u.alive_at(x, y));
    assert(grid_at(s, r, l, x + 1, y) == u.alive_at(x + 1, y));
    assert(grid_at(s, r, l, x - 1, y + 1) == u.alive_at(x - 1, y + 1));
    assert(grid_at(s, r, l, x, y + 1) == u.alive_at(x, y + 1));
    assert(grid_at(s, r, l, x + 1, y + 1) == u.alive_at(x + 1, y + 1));
    crate::life::lemma_step_on_rule(s, r, l, x, y);
}

} // verus!
