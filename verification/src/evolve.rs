//! The evolution algorithm: the direct 4-by-4 base case, the centered
//! extraction of overlapping sub-regions, and the recursive, memoized
//! subdivision that advances a node's center region one generation.

use vstd::prelude::*;

verus! {

use vstd::arithmetic::power2::{pow2, lemma_pow2_adds, lemma2_to64};
use crate::coords::{Position, MAX_LEVEL, half_side, quad_delta, quad_offset, spec_in_bounds};
use crate::life::{rule_of, step_on, lemma_step_on_frame, lemma_step_on_dead};
use crate::node::{Cell, Id, Inode, Leaf, Node, node_level, node_pop, same_but_result};
use crate::model::{
    cell_at,
    child_sel,
    lemma_assemble_covers,
    lemma_future_shift,
    lemma_assemble_future,

    lemma_child_covers,
    lemma_covers_frame,
    lemma_covers_step,
    covers,
    grid_at,
    tree_inode,
    node_alive,
    node_ok,
    nodes_ok,
    result_matches,
    store_extends,
    store_grows,
    lemma_dead_node,
    lemma_store_grows_extends,
    lemma_store_grows_trans,
};
use crate::store::NodeStore;

/// The fixed rule on one cell: alive next generation iff it has exactly
/// three live neighbors, or it is alive and has exactly two.
fn life_rule(
    center: Cell,
    n0: Cell,
    n1: Cell,
    n2: Cell,
    n3: Cell,
    n4: Cell,
    n5: Cell,
    n6: Cell,
    n7: Cell,
) -> (r: Cell)
    ensures
        (r is Alive) == rule_of(
            center is Alive,
            n0 is Alive,
            n1 is Alive,
            n2 is Alive,
            n3 is Alive,
            n4 is Alive,
            n5 is Alive,
            n6 is Alive,
            n7 is Alive,
        ),
{
    proof {
        reveal(crate::life::rule_of);
    }
    let mut cnt: u32 = 0;
    if matches!(n0, Cell::Alive) {
        cnt = cnt + 1;
    }
    if matches!(n1, Cell::Alive) {
        cnt = cnt + 1;
    }
    if matches!(n2, Cell::Alive) {
        cnt = cnt + 1;
    }
    if matches!(n3, Cell::Alive) {
        cnt = cnt + 1;
    }
    if matches!(n4, Cell::Alive) {
        cnt = cnt + 1;
    }
    if matches!(n5, Cell::Alive) {
        cnt = cnt + 1;
    }
    if matches!(n6, Cell::Alive) {
        cnt = cnt + 1;
    }
    if matches!(n7, Cell::Alive) {
        cnt = cnt + 1;
    }
    if cnt == 3 || (cnt == 2 && matches!(center, Cell::Alive)) {
        Cell::Alive
    } else {
        Cell::Dead
    }
}

/// A 2-by-2 node whose leaves hold the four stepped center cells is the
/// one-generation future of the 4-by-4 region.
proof fn lemma_assemble_quad(
    s5: Seq<Node>,
    rid: Id,
    lnw: Id,
    lne: Id,
    lsw: Id,
    lse: Id,
    rnw: Cell,
    rne: Cell,
    rsw: Cell,
    rse: Cell,
    tree: int,
)
    requires
        rid.0 < s5.len(),
        lnw.0 < s5.len(),
        lne.0 < s5.len(),
        lsw.0 < s5.len(),
        lse.0 < s5.len(),
        s5[lnw.0 as int] == Node::Leaf(Leaf(rnw)),
        s5[lne.0 as int] == Node::Leaf(Leaf(rne)),
        s5[lsw.0 as int] == Node::Leaf(Leaf(rsw)),
        s5[lse.0 as int] == Node::Leaf(Leaf(rse)),
        s5[rid.0 as int] matches Node::Inode(n) && n.nw == lnw && n.ne == lne && n.sw == lsw
            && n.se == lse && n.level == 1,
        (rnw is Alive) == step_on(s5, tree, 2, -1, -1),
        (rne is Alive) == step_on(s5, tree, 2, 0, -1),
        (rsw is Alive) == step_on(s5, tree, 2, -1, 0),
        (rse is Alive) == step_on(s5, tree, 2, 0, 0),
    ensures
        result_matches(s5, rid.0 as int, tree, 2),
{
    lemma2_to64();
    assert(pow2(0) == 1);
    assert(quad_delta(1) == 0);
    assert(node_alive(s5, rid.0 as int, 1, -1, -1) == (rnw is Alive)) by {
        assert(cell_at(s5, rid.0 as int, 1, -1, -1) == cell_at(s5, lnw.0 as int, 0, -1, -1));
    }
    assert(node_alive(s5, rid.0 as int, 1, 0, -1) == (rne is Alive)) by {
        assert(cell_at(s5, rid.0 as int, 1, 0, -1) == cell_at(s5, lne.0 as int, 0, 0, -1));
    }
    assert(node_alive(s5, rid.0 as int, 1, -1, 0) == (rsw is Alive)) by {
        assert(cell_at(s5, rid.0 as int, 1, -1, 0) == cell_at(s5, lsw.0 as int, 0, -1, 0));
    }
    assert(node_alive(s5, rid.0 as int, 1, 0, 0) == (rse is Alive)) by {
        assert(cell_at(s5, rid.0 as int, 1, 0, 0) == cell_at(s5, lse.0 as int, 0, 0, 0));
    }
    assert forall|x: int, y: int| spec_in_bounds(x, y, 1) implies #[trigger] node_alive(
        s5,
        rid.0 as int,
        1,
        x,
        y,
    ) == step_on(s5, tree, 2, x, y) by {
        assert(-1 <= x <= 0 && -1 <= y <= 0);
        if x == -1 && y == -1 {
            assert(node_alive(s5, rid.0 as int, 1, x, y) == node_alive(s5, rid.0 as int, 1, -1, -1));
        } else if x == 0 && y == -1 {
            assert(node_alive(s5, rid.0 as int, 1, x, y) == node_alive(s5, rid.0 as int, 1, 0, -1));
        } else if x == -1 && y == 0 {
            assert(node_alive(s5, rid.0 as int, 1, x, y) == node_alive(s5, rid.0 as int, 1, -1, 0));
        } else {
            assert(node_alive(s5, rid.0 as int, 1, x, y) == node_alive(s5, rid.0 as int, 1, 0, 0));
        }
    }
}

impl NodeStore {
    /// The four center cells of a level-2 node's region, advanced one
    /// generation by counting each cell's neighbors directly.
    #[verifier::rlimit(100)]
    #[verifier::spinoff_prover]
    fn evolved_cells(&self, tree: Id) -> (r: (Cell, Cell, Cell, Cell))
        requires
            self.wf(),
            self.valid(tree),
            node_level(self@[tree.0 as int]) == 2,
        ensures
            (r.0 is Alive) == step_on(self@, tree.0 as int, 2, -1, -1),
            (r.1 is Alive) == step_on(self@, tree.0 as int, 2, 0, -1),
            (r.2 is Alive) == step_on(self@, tree.0 as int, 2, -1, 0),
            (r.3 is Alive) == step_on(self@, tree.0 as int, 2, 0, 0),
    {
        proof {
            lemma2_to64();
            assert(half_side(2) == 2);
        }
        let c00 = self.get_tree_cell(tree, Position::new(-2, -2));
        let c10 = self.get_tree_cell(tree, Position::new(-1, -2));
        let c20 = self.get_tree_cell(tree, Position::new(0, -2));
        let c30 = self.get_tree_cell(tree, Position::new(1, -2));
        let c01 = self.get_tree_cell(tree, Position::new(-2, -1));
        let c11 = self.get_tree_cell(tree, Position::new(-1, -1));
        let c21 = self.get_tree_cell(tree, Position::new(0, -1));
        let c31 = self.get_tree_cell(tree, Position::new(1, -1));
        let c02 = self.get_tree_cell(tree, Position::new(-2, 0));
        let c12 = self.get_tree_cell(tree, Position::new(-1, 0));
        let c22 = self.get_tree_cell(tree, Position::new(0, 0));
        let c32 = self.get_tree_cell(tree, Position::new(1, 0));
        let c03 = self.get_tree_cell(tree, Position::new(-2, 1));
        let c13 = self.get_tree_cell(tree, Position::new(-1, 1));
        let c23 = self.get_tree_cell(tree, Position::new(0, 1));
        let c33 = self.get_tree_cell(tree, Position::new(1, 1));
        let rnw = life_rule(c11, c00, c10, c20, c01, c21, c02, c12, c22);
        let rne = life_rule(c21, c10, c20, c30, c11, c31, c12, c22, c32);
        let rsw = life_rule(c12, c01, c11, c21, c02, c22, c03, c13, c23);
        let rse = life_rule(c22, c11, c21, c31, c12, c32, c13, c23, c33);
        proof {
            let s = self@;
            let t = tree.0 as int;
            assert(grid_at(s, t, 2, -2, -2) == (c00 is Alive)) by {
                reveal(crate::model::grid_at);
            }
            assert(grid_at(s, t, 2, -1, -2) == (c10 is Alive)) by {
                reveal(crate::model::grid_at);
            }
            assert(grid_at(s, t, 2, 0, -2) == (c20 is Alive)) by {
                reveal(crate::model::grid_at);
            }
            assert(grid_at(s, t, 2, 1, -2) == (c30 is Alive)) by {
                reveal(crate::model::grid_at);
            }
            assert(grid_at(s, t, 2, -2, -1) == (c01 is Alive)) by {
                reveal(crate::model::grid_at);
            }
            assert(grid_at(s, t, 2, -1, -1) == (c11 is Alive)) by {
                reveal(crate::model::grid_at);
            }
            assert(grid_at(s, t, 2, 0, -1) == (c21 is Alive)) by {
                reveal(crate::model::grid_at);
            }
            assert(grid_at(s, t, 2, 1, -1) == (c31 is Alive)) by {
                reveal(crate::model::grid_at);
            }
            assert(grid_at(s, t, 2, -2, 0) == (c02 is Alive)) by {
                reveal(crate::model::grid_at);
            }
            assert(grid_at(s, t, 2, -1, 0) == (c12 is Alive)) by {
                reveal(crate::model::grid_at);
            }
            assert(grid_at(s, t, 2, 0, 0) == (c22 is Alive)) by {
                reveal(crate::model::grid_at);
            }
            assert(grid_at(s, t, 2, 1, 0) == (c32 is Alive)) by {
                reveal(crate::model::grid_at);
            }
            assert(grid_at(s, t, 2, -2, 1) == (c03 is Alive)) by {
                reveal(crate::model::grid_at);
            }
            assert(grid_at(s, t, 2, -1, 1) == (c13 is Alive)) by {
                reveal(crate::model::grid_at);
            }
            assert(grid_at(s, t, 2, 0, 1) == (c23 is Alive)) by {
                reveal(crate::model::grid_at);
            }
            assert(grid_at(s, t, 2, 1, 1) == (c33 is Alive)) by {
                reveal(crate::model::grid_at);
            }
            crate::life::lemma_step_on_rule(s, t, 2, -1, -1);
            crate::life::lemma_step_on_rule(s, t, 2, 0, -1);
            crate::life::lemma_step_on_rule(s, t, 2, -1, 0);
            crate::life::lemma_step_on_rule(s, t, 2, 0, 0);
        }
        (rnw, rne, rsw, rse)
    }

    /// Advances the 4-by-4 region of a level-2 node one generation and
    /// interns the 2-by-2 result.
    #[verifier::rlimit(100)]
    #[verifier::spinoff_prover]
    pub fn manual_evolve(&mut self, tree: Id) -> (r: Id)
        requires
            old(self).wf(),
            old(self).valid(tree),
            node_level(old(self)@[tree.0 as int]) == 2,
        ensures
            final(self).wf(),
            store_grows(old(self)@, final(self)@),
            final(self).valid(r),
            node_level(final(self)@[r.0 as int]) == 1,
            result_matches(final(self)@, r.0 as int, tree.0 as int, 2),
    {
        let ghost s0 = self@;
        let cells = self.evolved_cells(tree);
        let lnw = self.intern_leaf(cells.0);
        let lne = self.intern_leaf(cells.1);
        let lsw = self.intern_leaf(cells.2);
        let lse = self.intern_leaf(cells.3);
        let r = self.intern_inode(lnw, lne, lsw, lse);
        proof {
            let s5 = self@;
            assert(store_grows(s0, s5));
            lemma_store_grows_extends(s0, s5);
            lemma_step_on_frame(s0, s5, tree.0 as int, 2, -1, -1);
            lemma_step_on_frame(s0, s5, tree.0 as int, 2, 0, -1);
            lemma_step_on_frame(s0, s5, tree.0 as int, 2, -1, 0);
            lemma_step_on_frame(s0, s5, tree.0 as int, 2, 0, 0);
            lemma_assemble_quad(
                s5,
                r,
                lnw,
                lne,
                lsw,
                lse,
                cells.0,
                cells.1,
                cells.2,
                cells.3,
                tree.0 as int,
            );
        }
        r
    }
}

/// The index of the depth-3 descendant reached by three per-axis quadrant
/// sign choices.
pub open spec fn desc3_sel(
    s: Seq<Node>,
    t: int,
    s1x: int,
    s1y: int,
    s2x: int,
    s2y: int,
    s3x: int,
    s3y: int,
) -> int {
    child_sel(s, child_sel(s, child_sel(s, t, s1x, s1y), s2x, s2y), s3x, s3y)
}

/// A depth-3 descendant covers the region reached by its three quadrant
/// steps.
proof fn lemma_d3_covers(
    s: Seq<Node>,
    t: int,
    lv: nat,
    s1x: int,
    s1y: int,
    s2x: int,
    s2y: int,
    s3x: int,
    s3y: int,
)
    requires
        nodes_ok(s),
        0 <= t < s.len(),
        s[t] is Inode,
        node_level(s[t]) == lv,
        lv >= 3,
        s1x == -1 || s1x == 1,
        s1y == -1 || s1y == 1,
        s2x == -1 || s2x == 1,
        s2y == -1 || s2y == 1,
        s3x == -1 || s3x == 1,
        s3y == -1 || s3y == 1,
    ensures
        covers(
            s,
            desc3_sel(s, t, s1x, s1y, s2x, s2y, s3x, s3y),
            (lv - 3) as nat,
            t,
            lv,
            quad_offset(lv, s1x) + quad_offset((lv - 1) as nat, s2x) + quad_offset(
                (lv - 2) as nat,
                s3x,
            ),
            quad_offset(lv, s1y) + quad_offset((lv - 1) as nat, s2y) + quad_offset(
                (lv - 2) as nat,
                s3y,
            ),
        ),
{
    assert(node_ok(s, t));
    let c1 = child_sel(s, t, s1x, s1y);
    assert(node_ok(s, c1));
    assert(s[c1] is Inode);
    let c2 = child_sel(s, c1, s2x, s2y);
    assert(node_ok(s, c2));
    assert(s[c2] is Inode);
    let c3 = child_sel(s, c2, s3x, s3y);
    lemma_child_covers(s, t, lv, s1x, s1y);
    lemma_child_covers(s, c1, (lv - 1) as nat, s2x, s2y);
    lemma_child_covers(s, c2, (lv - 2) as nat, s3x, s3y);
    lemma_covers_step(
        s,
        c2,
        c1,
        t,
        (lv - 1) as nat,
        lv,
        s2x,
        s2y,
        quad_offset(lv, s1x),
        quad_offset(lv, s1y),
    );
    lemma_covers_step(
        s,
        c3,
        c2,
        t,
        (lv - 2) as nat,
        lv,
        s3x,
        s3y,
        quad_offset((lv - 1) as nat, s2x) + quad_offset(lv, s1x),
        quad_offset((lv - 1) as nat, s2y) + quad_offset(lv, s1y),
    );
}

/// The three per-axis quadrant signs that lead to the depth-3 descendant
/// whose region sits at `p * quad_delta(lv) + quad_offset(lv - 2, q)` on
/// this axis.
pub open spec fn spec_path_signs(p: int, q: int) -> (int, int, int) {
    if p == -1 && q == -1 {
        (-1, -1, 1)
    } else if p == -1 {
        (-1, 1, -1)
    } else if p == 0 && q == -1 {
        (-1, 1, 1)
    } else if p == 0 {
        (1, -1, -1)
    } else if q == -1 {
        (1, -1, 1)
    } else {
        (1, 1, -1)
    }
}

/// The sign paths of `spec_path_signs` land on the promised offsets.
proof fn lemma_path_offset(lv: nat, p: int, q: int)
    requires
        lv >= 3,
        p == -1 || p == 0 || p == 1,
        q == -1 || q == 1,
    ensures
        ({
            let (s1, s2, s3) = spec_path_signs(p, q);
            quad_offset(lv, s1) + quad_offset((lv - 1) as nat, s2) + quad_offset(
                (lv - 2) as nat,
                s3,
            ) == p * quad_delta(lv) + quad_offset((lv - 2) as nat, q)
        }),
{
    lemma2_to64();
    lemma_pow2_adds(1, (lv - 3) as nat);
    assert(quad_delta(lv) == 2 * quad_delta((lv - 1) as nat));
    if lv >= 4 {
        lemma_pow2_adds(1, (lv - 4) as nat);
        assert(quad_delta((lv - 1) as nat) == 2 * quad_delta((lv - 2) as nat));
    }
}


/// Depth-3 selection only reads existing entries, so it is stable when the
/// store merely grows.
proof fn lemma_desc3_frame(
    s0: Seq<Node>,
    s1: Seq<Node>,
    t: int,
    s1x: int,
    s1y: int,
    s2x: int,
    s2y: int,
    s3x: int,
    s3y: int,
)
    requires
        nodes_ok(s0),
        store_grows(s0, s1),
        0 <= t < s0.len(),
        s0[t] is Inode,
        node_level(s0[t]) >= 3,
    ensures
        desc3_sel(s1, t, s1x, s1y, s2x, s2y, s3x, s3y) == desc3_sel(
            s0,
            t,
            s1x,
            s1y,
            s2x,
            s2y,
            s3x,
            s3y,
        ),
{
    assert(node_ok(s0, t));
    assert(s1[t] == s0[t]);
    let c1 = child_sel(s0, t, s1x, s1y);
    assert(node_ok(s0, c1));
    assert(s1[c1] == s0[c1]);
    let c2 = child_sel(s0, c1, s2x, s2y);
    assert(node_ok(s0, c2));
    assert(s1[c2] == s0[c2]);
}

impl NodeStore {
    /// The depth-3 descendant reached by three per-axis quadrant sign
    /// choices.
    fn descend3(
        &self,
        t: Id,
        s1x: i64,
        s1y: i64,
        s2x: i64,
        s2y: i64,
        s3x: i64,
        s3y: i64,
    ) -> (r: Id)
        requires
            self.wf(),
            self.valid(t),
            self@[t.0 as int] is Inode,
            node_level(self@[t.0 as int]) >= 3,
            s1x == -1 || s1x == 1,
            s1y == -1 || s1y == 1,
            s2x == -1 || s2x == 1,
            s2y == -1 || s2y == 1,
            s3x == -1 || s3x == 1,
            s3y == -1 || s3y == 1,
        ensures
            self.valid(r),
            r.0 as int == desc3_sel(
                self@,
                t.0 as int,
                s1x as int,
                s1y as int,
                s2x as int,
                s2y as int,
                s3x as int,
                s3y as int,
            ),
            node_level(self@[r.0 as int]) == node_level(self@[t.0 as int]) - 3,
    {
        proof {
            assert(node_ok(self@, t.0 as int));
        }
        let n1 = self.inode(t);
        let i1 = if s1x < 0 && s1y < 0 {
            n1.nw
        } else if s1x >= 0 && s1y < 0 {
            n1.ne
        } else if s1x < 0 {
            n1.sw
        } else {
            n1.se
        };
        proof {
            assert(node_ok(self@, i1.0 as int));
        }
        let n2 = self.inode(i1);
        let i2 = if s2x < 0 && s2y < 0 {
            n2.nw
        } else if s2x >= 0 && s2y < 0 {
            n2.ne
        } else if s2x < 0 {
            n2.sw
        } else {
            n2.se
        };
        proof {
            assert(node_ok(self@, i2.0 as int));
        }
        let n3 = self.inode(i2);
        let i3 = if s3x < 0 && s3y < 0 {
            n3.nw
        } else if s3x >= 0 && s3y < 0 {
            n3.ne
        } else if s3x < 0 {
            n3.sw
        } else {
            n3.se
        };
        i3
    }

    /// One of the nine overlapping half-offset sub-regions of a node: the
    /// level-two-down square whose center sits at `(px, py)` quarter-sides
    /// from the node's center. Derived purely from the node's own
    /// grandchildren and interned as a node of its own.
    #[verifier::rlimit(100)]
    #[verifier::spinoff_prover]
    fn piece(&mut self, t: Id, px: i64, py: i64) -> (r: Id)
        requires
            old(self).wf(),
            old(self).valid(t),
            old(self)@[t.0 as int] is Inode,
            3 <= node_level(old(self)@[t.0 as int]) <= MAX_LEVEL,
            px == -1 || px == 0 || px == 1,
            py == -1 || py == 0 || py == 1,
        ensures
            final(self).wf(),
            store_grows(old(self)@, final(self)@),
            final(self).valid(r),
            node_level(final(self)@[r.0 as int]) == node_level(old(self)@[t.0 as int]) - 2,
            covers(
                final(self)@,
                r.0 as int,
                (node_level(old(self)@[t.0 as int]) - 2) as nat,
                t.0 as int,
                node_level(old(self)@[t.0 as int]),
                px * quad_delta(node_level(old(self)@[t.0 as int])),
                py * quad_delta(node_level(old(self)@[t.0 as int])),
            ),
    {
        let ghost s0 = self@;
        let ghost lv = node_level(s0[t.0 as int]);
        let (nw_s1x, nw_s2x, nw_s3x) = path_signs(px, -1);
        let (nw_s1y, nw_s2y, nw_s3y) = path_signs(py, -1);
        let (se_s1x, se_s2x, se_s3x) = path_signs(px, 1);
        let (se_s1y, se_s2y, se_s3y) = path_signs(py, 1);
        let cnw = self.descend3(t, nw_s1x, nw_s1y, nw_s2x, nw_s2y, nw_s3x, nw_s3y);
        let cne = self.descend3(t, se_s1x, nw_s1y, se_s2x, nw_s2y, se_s3x, nw_s3y);
        let csw = self.descend3(t, nw_s1x, se_s1y, nw_s2x, se_s2y, nw_s3x, se_s3y);
        let cse = self.descend3(t, se_s1x, se_s1y, se_s2x, se_s2y, se_s3x, se_s3y);
        let r = self.intern_inode(cnw, cne, csw, cse);
        proof {
            let s1 = self@;
            let tid = t.0 as int;
            let hh = quad_delta(lv);
            let lm2 = (lv - 2) as nat;
            lemma_desc3_frame(s0, s1, tid, nw_s1x as int, nw_s1y as int, nw_s2x as int, nw_s2y as int, nw_s3x as int, nw_s3y as int);
            lemma_desc3_frame(s0, s1, tid, se_s1x as int, nw_s1y as int, se_s2x as int, nw_s2y as int, se_s3x as int, nw_s3y as int);
            lemma_desc3_frame(s0, s1, tid, nw_s1x as int, se_s1y as int, nw_s2x as int, se_s2y as int, nw_s3x as int, se_s3y as int);
            lemma_desc3_frame(s0, s1, tid, se_s1x as int, se_s1y as int, se_s2x as int, se_s2y as int, se_s3x as int, se_s3y as int);
            lemma_d3_covers(s1, tid, lv, nw_s1x as int, nw_s1y as int, nw_s2x as int, nw_s2y as int, nw_s3x as int, nw_s3y as int);
            lemma_d3_covers(s1, tid, lv, se_s1x as int, nw_s1y as int, se_s2x as int, nw_s2y as int, se_s3x as int, nw_s3y as int);
            lemma_d3_covers(s1, tid, lv, nw_s1x as int, se_s1y as int, nw_s2x as int, se_s2y as int, nw_s3x as int, se_s3y as int);
            lemma_d3_covers(s1, tid, lv, se_s1x as int, se_s1y as int, se_s2x as int, se_s2y as int, se_s3x as int, se_s3y as int);
            lemma_path_offset(lv, px as int, -1);
            lemma_path_offset(lv, px as int, 1);
            lemma_path_offset(lv, py as int, -1);
            lemma_path_offset(lv, py as int, 1);
            assert(child_sel(s1, r.0 as int, -1, -1) == cnw.0 as int);
            assert(child_sel(s1, r.0 as int, 1, -1) == cne.0 as int);
            assert(child_sel(s1, r.0 as int, -1, 1) == csw.0 as int);
            assert(child_sel(s1, r.0 as int, 1, 1) == cse.0 as int);
            lemma_assemble_covers(s1, r.0 as int, lm2, tid, lv, px as int * hh, py as int * hh);
        }
        r
    }
}

/// The three per-axis quadrant signs of `spec_path_signs`, computed.
fn path_signs(p: i64, q: i64) -> (r: (i64, i64, i64))
    requires
        p == -1 || p == 0 || p == 1,
        q == -1 || q == 1,
    ensures
        (r.0 as int, r.1 as int, r.2 as int) == spec_path_signs(p as int, q as int),
        r.0 == -1 || r.0 == 1,
        r.1 == -1 || r.1 == 1,
        r.2 == -1 || r.2 == 1,
{
    if p == -1 && q == -1 {
        (-1, -1, 1)
    } else if p == -1 {
        (-1, 1, -1)
    } else if p == 0 && q == -1 {
        (-1, 1, 1)
    } else if p == 0 {
        (1, -1, -1)
    } else if q == -1 {
        (1, -1, 1)
    } else {
        (1, 1, -1)
    }
}

impl NodeStore {
    /// Advances a node's center region one generation: returns the canonical
    /// node one level down holding that future. Results are memoized on the
    /// node, an all-dead node returns its (all-dead) quadrant at once, and
    /// the recursive case assembles the future from the nine overlapping
    /// centered sub-regions.
    #[verifier::rlimit(100)]
    #[verifier::spinoff_prover]
    pub fn evolve_tree(&mut self, tree: Id) -> (r: Id)
        requires
            old(self).wf(),
            old(self).valid(tree),
            old(self)@[tree.0 as int] is Inode,
            2 <= node_level(old(self)@[tree.0 as int]) <= MAX_LEVEL,
        ensures
            final(self).wf(),
            store_extends(old(self)@, final(self)@),
            final(self).valid(r),
            node_level(final(self)@[r.0 as int]) == node_level(old(self)@[tree.0 as int]) - 1,
            result_matches(
                final(self)@,
                r.0 as int,
                tree.0 as int,
                node_level(old(self)@[tree.0 as int]),
            ),
            node_pop(old(self)@[tree.0 as int]) == 0 ==> final(self)@ == old(self)@ && r
                == tree_inode(old(self)@, tree.0 as int).nw && node_pop(final(self)@[r.0 as int])
                == 0,
            node_pop(old(self)@[tree.0 as int]) > 0 && tree_inode(
                old(self)@,
                tree.0 as int,
            ).result is Some ==> final(self)@ == old(self)@ && Some(r) == tree_inode(
                old(self)@,
                tree.0 as int,
            ).result,
            node_pop(old(self)@[tree.0 as int]) > 0 && node_level(old(self)@[tree.0 as int]) > 2
                ==> tree_inode(final(self)@, tree.0 as int).result == Some(r),
            forall|j: int|
                0 <= j < old(self)@.len() && j != tree.0 as int && node_level(
                    #[trigger] old(self)@[j],
                ) >= node_level(old(self)@[tree.0 as int]) ==> final(self)@[j] == old(self)@[j],
        decreases node_level(old(self)@[tree.0 as int]),
    {
        let ghost s0 = self@;
        let ghost tid = tree.0 as int;
        let ghost lv = node_level(s0[tid]);
        proof {
            assert(node_ok(s0, tid));
        }
        let n = self.inode(tree);
        if n.population == 0 {
            proof {
                assert forall|x: int, y: int| spec_in_bounds(x, y, (lv - 1) as nat) implies #[trigger] node_alive(
                    s0,
                    n.nw.0 as int,
                    (lv - 1) as nat,
                    x,
                    y,
                ) == step_on(s0, tid, lv, x, y) by {
                    lemma_dead_node(s0, n.nw.0 as int, (lv - 1) as nat, x, y);
                    assert forall|u: int, v: int|
                        x - 1 <= u <= x + 1 && y - 1 <= v <= y + 1 implies !(#[trigger] grid_at(
                        s0,
                        tid,
                        lv,
                        u,
                        v,
                    )) by {
                        reveal(crate::model::grid_at);
                        lemma_dead_node(s0, tid, lv, u, v);
                    }
                    lemma_step_on_dead(s0, tid, lv, x, y);
                }
            }
            return n.nw;
        }
        if let Some(m) = n.result {
            return m;
        }
        if n.level == 2 {
            let r = self.manual_evolve(tree);
            proof {
                lemma_store_grows_extends(s0, self@);
            }
            return r;
        }
        let pnn = self.piece(tree, -1, -1);
        let ghost g1 = self@;
        let pzn = self.piece(tree, 0, -1);
        let ghost g2 = self@;
        let ppn = self.piece(tree, 1, -1);
        let ghost g3 = self@;
        let pnz = self.piece(tree, -1, 0);
        let ghost g4 = self@;
        let pzz = self.piece(tree, 0, 0);
        let ghost g5 = self@;
        let ppz = self.piece(tree, 1, 0);
        let ghost g6 = self@;
        let pnp = self.piece(tree, -1, 1);
        let ghost g7 = self@;
        let pzp = self.piece(tree, 0, 1);
        let ghost g8 = self@;
        let ppp = self.piece(tree, 1, 1);
        let ghost g9 = self@;
        let cnw = self.intern_inode(pnn, pzn, pnz, pzz);
        let ghost g10 = self@;
        let cne = self.intern_inode(pzn, ppn, pzz, ppz);
        let ghost g11 = self@;
        let csw = self.intern_inode(pnz, pzz, pnp, pzp);
        let ghost g12 = self@;
        let cse = self.intern_inode(pzz, ppz, pzp, ppp);
        let ghost g13 = self@;
        let ghost hh = quad_delta(lv);
        let ghost e = quad_delta((lv - 1) as nat);
        proof {
            lemma2_to64();
            lemma_pow2_adds(1, (lv - 3) as nat);
            assert(hh == 2 * e);
            lemma_store_grows_trans(g11, g12, g13);
            lemma_store_grows_trans(g10, g11, g13);
            lemma_store_grows_trans(g9, g10, g13);
            lemma_store_grows_trans(g8, g9, g13);
            lemma_store_grows_trans(g7, g8, g13);
            lemma_store_grows_trans(g6, g7, g13);
            lemma_store_grows_trans(g5, g6, g13);
            lemma_store_grows_trans(g4, g5, g13);
            lemma_store_grows_trans(g3, g4, g13);
            lemma_store_grows_trans(g2, g3, g13);
            lemma_store_grows_trans(g1, g2, g13);
            lemma_store_grows_trans(s0, g1, g13);
            lemma_store_grows_extends(g1, g13);
            lemma_store_grows_extends(g2, g13);
            lemma_store_grows_extends(g3, g13);
            lemma_store_grows_extends(g4, g13);
            lemma_store_grows_extends(g5, g13);
            lemma_store_grows_extends(g6, g13);
            lemma_store_grows_extends(g7, g13);
            lemma_store_grows_extends(g8, g13);
            lemma_store_grows_extends(g9, g13);
            lemma_covers_frame(g1, g13, pnn.0 as int, (lv - 2) as nat, tid, lv, -hh, -hh);
            lemma_covers_frame(g2, g13, pzn.0 as int, (lv - 2) as nat, tid, lv, 0, -hh);
            lemma_covers_frame(g3, g13, ppn.0 as int, (lv - 2) as nat, tid, lv, hh, -hh);
            lemma_covers_frame(g4, g13, pnz.0 as int, (lv - 2) as nat, tid, lv, -hh, 0);
            lemma_covers_frame(g5, g13, pzz.0 as int, (lv - 2) as nat, tid, lv, 0, 0);
            lemma_covers_frame(g6, g13, ppz.0 as int, (lv - 2) as nat, tid, lv, hh, 0);
            lemma_covers_frame(g7, g13, pnp.0 as int, (lv - 2) as nat, tid, lv, -hh, hh);
            lemma_covers_frame(g8, g13, pzp.0 as int, (lv - 2) as nat, tid, lv, 0, hh);
            lemma_covers_frame(g9, g13, ppp.0 as int, (lv - 2) as nat, tid, lv, hh, hh);
            assert(g13[cnw.0 as int] == g10[cnw.0 as int]);
            assert(g13[cne.0 as int] == g11[cne.0 as int]);
            assert(g13[csw.0 as int] == g12[csw.0 as int]);
            assert(child_sel(g13, cnw.0 as int, -1, -1) == pnn.0 as int);
            assert(child_sel(g13, cnw.0 as int, 1, -1) == pzn.0 as int);
            assert(child_sel(g13, cnw.0 as int, -1, 1) == pnz.0 as int);
            assert(child_sel(g13, cnw.0 as int, 1, 1) == pzz.0 as int);
            lemma_assemble_covers(g13, cnw.0 as int, (lv - 1) as nat, tid, lv, -e, -e);
            assert(child_sel(g13, cne.0 as int, -1, -1) == pzn.0 as int);
            assert(child_sel(g13, cne.0 as int, 1, -1) == ppn.0 as int);
            assert(child_sel(g13, cne.0 as int, -1, 1) == pzz.0 as int);
            assert(child_sel(g13, cne.0 as int, 1, 1) == ppz.0 as int);
            lemma_assemble_covers(g13, cne.0 as int, (lv - 1) as nat, tid, lv, e, -e);
            assert(child_sel(g13, csw.0 as int, -1, -1) == pnz.0 as int);
            assert(child_sel(g13, csw.0 as int, 1, -1) == pzz.0 as int);
            assert(child_sel(g13, csw.0 as int, -1, 1) == pnp.0 as int);
            assert(child_sel(g13, csw.0 as int, 1, 1) == pzp.0 as int);
            lemma_assemble_covers(g13, csw.0 as int, (lv - 1) as nat, tid, lv, -e, e);
            assert(child_sel(g13, cse.0 as int, -1, -1) == pzz.0 as int);
            assert(child_sel(g13, cse.0 as int, 1, -1) == ppz.0 as int);
            assert(child_sel(g13, cse.0 as int, -1, 1) == pzp.0 as int);
            assert(child_sel(g13, cse.0 as int, 1, 1) == ppp.0 as int);
            lemma_assemble_covers(g13, cse.0 as int, (lv - 1) as nat, tid, lv, e, e);
            assert(g13[tid] == s0[tid]);
        }
        let rnw = self.evolve_tree(cnw);
        let ghost e1 = self@;
        proof {
            assert(node_level(g13[tid]) == lv && node_level(g13[cnw.0 as int]) == lv - 1);
            assert(tid != cnw.0 as int);
            assert(e1[tid] == g13[tid]);
            assert(same_but_result(g13[cne.0 as int], e1[cne.0 as int]));
            assert(same_but_result(g13[csw.0 as int], e1[csw.0 as int]));
            assert(same_but_result(g13[cse.0 as int], e1[cse.0 as int]));
        }
        let rne = self.evolve_tree(cne);
        let ghost e2 = self@;
        proof {
            assert(node_level(e1[tid]) == lv && node_level(e1[cne.0 as int]) == lv - 1);
            assert(tid != cne.0 as int);
            assert(e2[tid] == e1[tid]);
            assert(same_but_result(e1[csw.0 as int], e2[csw.0 as int]));
            assert(same_but_result(e1[cse.0 as int], e2[cse.0 as int]));
        }
        let rsw = self.evolve_tree(csw);
        let ghost e3 = self@;
        proof {
            assert(node_level(e2[tid]) == lv && node_level(e2[csw.0 as int]) == lv - 1);
            assert(tid != csw.0 as int);
            assert(e3[tid] == e2[tid]);
            assert(same_but_result(e2[cse.0 as int], e3[cse.0 as int]));
        }
        let rse = self.evolve_tree(cse);
        let ghost e4 = self@;
        proof {
            assert(node_level(e3[tid]) == lv && node_level(e3[cse.0 as int]) == lv - 1);
            assert(tid != cse.0 as int);
            assert(e4[tid] == e3[tid]);
            crate::model::lemma_store_extends_trans(e1, e2, e3);
            crate::model::lemma_store_extends_trans(e1, e3, e4);
            crate::model::lemma_store_extends_trans(e2, e3, e4);
            assert(same_but_result(e1[rnw.0 as int], e4[rnw.0 as int]));
            assert(same_but_result(e2[rne.0 as int], e4[rne.0 as int]));
            assert(same_but_result(e3[rsw.0 as int], e4[rsw.0 as int]));
        }
        let r = self.intern_inode(rnw, rne, rsw, rse);
        let ghost g14 = self@;
        proof {
            lemma_store_grows_extends(e4, g14);
            crate::model::lemma_store_extends_trans(e1, e4, g14);
            crate::model::lemma_store_extends_trans(e2, e4, g14);
            crate::model::lemma_store_extends_trans(e3, e4, g14);
            crate::model::lemma_store_extends_trans(g13, e1, e2);
            crate::model::lemma_store_extends_trans(g13, e2, e3);
            crate::model::lemma_store_extends_trans(g13, e3, e4);
            crate::model::lemma_store_extends_trans(g13, e4, g14);
            assert(g14[tid] == s0[tid]);
            // carry each memoized future and each covering relation to the
            // final table
            crate::model::lemma_result_matches_frame(e1, g14, rnw.0 as int, cnw.0 as int, (lv - 1) as nat);
            crate::model::lemma_result_matches_frame(e2, g14, rne.0 as int, cne.0 as int, (lv - 1) as nat);
            crate::model::lemma_result_matches_frame(e3, g14, rsw.0 as int, csw.0 as int, (lv - 1) as nat);
            crate::model::lemma_result_matches_frame(e4, g14, rse.0 as int, cse.0 as int, (lv - 1) as nat);
            lemma_covers_frame(g13, g14, cnw.0 as int, (lv - 1) as nat, tid, lv, -e, -e);
            lemma_covers_frame(g13, g14, cne.0 as int, (lv - 1) as nat, tid, lv, e, -e);
            lemma_covers_frame(g13, g14, csw.0 as int, (lv - 1) as nat, tid, lv, -e, e);
            lemma_covers_frame(g13, g14, cse.0 as int, (lv - 1) as nat, tid, lv, e, e);
            lemma_future_shift(g14, rnw.0 as int, cnw.0 as int, tid, lv, -e, -e);
            lemma_future_shift(g14, rne.0 as int, cne.0 as int, tid, lv, e, -e);
            lemma_future_shift(g14, rsw.0 as int, csw.0 as int, tid, lv, -e, e);
            lemma_future_shift(g14, rse.0 as int, cse.0 as int, tid, lv, e, e);
            assert(child_sel(g14, r.0 as int, -1, -1) == rnw.0 as int);
            assert(child_sel(g14, r.0 as int, 1, -1) == rne.0 as int);
            assert(child_sel(g14, r.0 as int, -1, 1) == rsw.0 as int);
            assert(child_sel(g14, r.0 as int, 1, 1) == rse.0 as int);
            lemma_assemble_future(g14, r.0 as int, tid, lv);
        }
        self.set_result(tree, r);
        proof {
            let sf = self@;
            crate::model::lemma_result_matches_frame(g14, sf, r.0 as int, tid, lv);
            crate::model::lemma_store_extends_trans(s0, g13, e1);
            crate::model::lemma_store_extends_trans(s0, e1, g14);
            crate::model::lemma_store_extends_trans(s0, g14, sf);
            lemma_store_grows_extends(s0, g13);
            assert forall|j: int|
                0 <= j < s0.len() && j != tid && node_level(#[trigger] s0[j]) >= lv implies sf[j]
                == s0[j] by {
                assert(g13[j] == s0[j]);
                assert(node_level(g13[j]) >= lv > lv - 1);
                assert(e1[j] == g13[j]);
                assert(e2[j] == e1[j]);
                assert(e3[j] == e2[j]);
                assert(e4[j] == e3[j]);
                assert(g14[j] == e4[j]);
                assert(sf[j] == g14[j]);
            }
        }
        r
    }
}

} // verus!
