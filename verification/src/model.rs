//! Mathematical model of the node store: which cell each position of a node's
//! region holds, and the well-formedness invariant of a store's node table.

use vstd::prelude::*;

verus! {

use vstd::arithmetic::power2::{pow2, lemma_pow2_adds, lemma2_to64};
use crate::coords::{spec_in_bounds, half_side, quad_delta, quad_offset, MAX_LEVEL};
use crate::life::step_on;
use crate::node::{Cell, Node, desc_eq, node_level, node_pop, same_but_result};

/// The cell a node of the given level holds at local coordinates `(x, y)`.
///
/// Quadrants are chosen by coordinate sign and the coordinates are recentered
/// on the chosen quadrant at each step, exactly as the executable descent
/// does. Out-of-table identifiers and malformed levels yield `Dead`; under
/// `store_ok` they are never reached.
pub open spec fn cell_at(s: Seq<Node>, id: int, level: nat, x: int, y: int) -> Cell
    decreases level,
{
    if 0 <= id < s.len() {
        match s[id] {
            Node::Leaf(l) => l.0,
            Node::Inode(n) => {
                if level == 0 {
                    Cell::Dead
                } else {
                    let d = quad_delta(level);
                    if x < 0 && y < 0 {
                        cell_at(s, n.nw.0 as int, (level - 1) as nat, x + d, y + d)
                    } else if x >= 0 && y < 0 {
                        cell_at(s, n.ne.0 as int, (level - 1) as nat, x - d, y + d)
                    } else if x < 0 {
                        cell_at(s, n.sw.0 as int, (level - 1) as nat, x + d, y - d)
                    } else {
                        cell_at(s, n.se.0 as int, (level - 1) as nat, x - d, y - d)
                    }
                }
            },
        }
    } else {
        Cell::Dead
    }
}

/// Whether the node's region holds a live cell at `(x, y)`.
pub open spec fn node_alive(s: Seq<Node>, id: int, level: nat, x: int, y: int) -> bool {
    cell_at(s, id, level, x, y) is Alive
}

/// Whether the node's region, extended by dead cells outside its bounds,
/// holds a live cell at `(x, y)`. Kept opaque so that grid points stay atomic
/// in proofs; the few lemmas that relate them to `cell_at` reveal it.
#[verifier::opaque]
pub open spec fn grid_at(s: Seq<Node>, id: int, level: nat, x: int, y: int) -> bool {
    spec_in_bounds(x, y, level) && node_alive(s, id, level, x, y)
}

/// The local coordinates a node's region answers for: its square bounds,
/// or the single point `(0, 0)` for a leaf.
pub open spec fn in_region(level: nat, x: int, y: int) -> bool {
    if level == 0 {
        x == 0 && y == 0
    } else {
        spec_in_bounds(x, y, level)
    }
}

/// The node `rid` holds, over its whole region, the same cells as node `tid`
/// shifted by `(ox, oy)`: `rid` is a sub-region of `tid`.
pub open spec fn covers(
    s: Seq<Node>,
    rid: int,
    rl: nat,
    tid: int,
    tl: nat,
    ox: int,
    oy: int,
) -> bool {
    forall|x: int, y: int|
        in_region(rl, x, y) ==> #[trigger] node_alive(s, rid, rl, x, y) == node_alive(
            s,
            tid,
            tl,
            x + ox,
            y + oy,
        )
}

/// A memoized result is a node one level down that holds the state of this
/// node's center region one generation ahead.
pub open spec fn result_matches(s: Seq<Node>, rid: int, id: int, level: nat) -> bool {
    forall|x: int, y: int|
        spec_in_bounds(x, y, (level - 1) as nat) ==> #[trigger] node_alive(
            s,
            rid,
            (level - 1) as nat,
            x,
            y,
        ) == step_on(s, id, level, x, y)
}

/// Local well-formedness of the node at index `i`: children come earlier in
/// the table and sit one level down, the cached population is the sum of the
/// children's and is bounded by the region's area, and a memoized result, if
/// present, is correct.
pub open spec fn node_ok(s: Seq<Node>, i: int) -> bool {
    match s[i] {
        Node::Leaf(_) => true,
        Node::Inode(n) => {
            &&& 1 <= n.level <= MAX_LEVEL
            &&& n.nw.0 < i
            &&& n.ne.0 < i
            &&& n.sw.0 < i
            &&& n.se.0 < i
            &&& node_level(s[n.nw.0 as int]) == n.level - 1
            &&& node_level(s[n.ne.0 as int]) == n.level - 1
            &&& node_level(s[n.sw.0 as int]) == n.level - 1
            &&& node_level(s[n.se.0 as int]) == n.level - 1
            &&& n.population == node_pop(s[n.nw.0 as int]) + node_pop(s[n.ne.0 as int]) + node_pop(
                s[n.sw.0 as int],
            ) + node_pop(s[n.se.0 as int])
            &&& n.population <= pow2(2 * (n.level as nat))
            &&& match n.result {
                None => true,
                Some(r) => {
                    &&& 2 <= n.level
                    &&& r.0 < s.len()
                    &&& node_level(s[r.0 as int]) == n.level - 1
                    &&& result_matches(s, r.0 as int, i, n.level as nat)
                },
            }
        },
    }
}

/// The internal node an index denotes, for specification purposes.
pub open spec fn tree_inode(s: Seq<Node>, t: int) -> Inode {
    match s[t] {
        Node::Inode(n) => n,
        Node::Leaf(_) => arbitrary(),
    }
}

/// The index of the child on the side given by the per-axis signs.
pub open spec fn child_sel(s: Seq<Node>, t: int, sx: int, sy: int) -> int {
    let n = tree_inode(s, t);
    if sx < 0 && sy < 0 {
        n.nw.0 as int
    } else if sx >= 0 && sy < 0 {
        n.ne.0 as int
    } else if sx < 0 {
        n.sw.0 as int
    } else {
        n.se.0 as int
    }
}

/// Each child of a well-formed internal node covers the corresponding
/// quadrant of the node's region.
pub proof fn lemma_child_covers(s: Seq<Node>, t: int, lv: nat, sx: int, sy: int)
    requires
        nodes_ok(s),
        0 <= t < s.len(),
        s[t] is Inode,
        node_level(s[t]) == lv,
        lv >= 1,
        sx == -1 || sx == 1,
        sy == -1 || sy == 1,
    ensures
        covers(
            s,
            child_sel(s, t, sx, sy),
            (lv - 1) as nat,
            t,
            lv,
            quad_offset(lv, sx),
            quad_offset(lv, sy),
        ),
{
    assert(node_ok(s, t));
    let c = child_sel(s, t, sx, sy);
    let ox = quad_offset(lv, sx);
    let oy = quad_offset(lv, sy);
    assert forall|x: int, y: int| in_region((lv - 1) as nat, x, y) implies #[trigger] node_alive(
        s,
        c,
        (lv - 1) as nat,
        x,
        y,
    ) == node_alive(s, t, lv, x + ox, y + oy) by {
        let d = quad_delta(lv);
        if lv >= 2 {
            assert(half_side((lv - 1) as nat) == d);
            assert(cell_at(s, t, lv, x + ox, y + oy) == cell_at(s, c, (lv - 1) as nat, x, y));
        } else {
            assert(d == 0);
            assert(x == 0 && y == 0);
            assert(node_level(s[c]) == 0);
            assert(node_ok(s, c));
            assert(s[c] is Leaf);
            assert(cell_at(s, t, 1, ox, oy) == cell_at(s, c, 0, ox, oy));
            assert(cell_at(s, c, 0, ox, oy) == cell_at(s, c, 0, 0, 0));
        }
    }
}

/// A covering relation only reads node descriptions, so it is stable under
/// store extension.
pub proof fn lemma_covers_frame(
    s1: Seq<Node>,
    s2: Seq<Node>,
    rid: int,
    rl: nat,
    tid: int,
    tl: nat,
    ox: int,
    oy: int,
)
    requires
        nodes_ok(s1),
        store_extends(s1, s2),
        0 <= rid < s1.len(),
        0 <= tid < s1.len(),
        covers(s1, rid, rl, tid, tl, ox, oy),
    ensures
        covers(s2, rid, rl, tid, tl, ox, oy),
{
    assert forall|x: int, y: int| in_region(rl, x, y) implies #[trigger] node_alive(
        s2,
        rid,
        rl,
        x,
        y,
    ) == node_alive(s2, tid, tl, x + ox, y + oy) by {
        lemma_cell_at_frame(s1, s2, rid, rl, x, y);
        lemma_cell_at_frame(s1, s2, tid, tl, x + ox, y + oy);
        assert(node_alive(s1, rid, rl, x, y) == node_alive(s1, tid, tl, x + ox, y + oy));
    }
}

/// Covering relations compose along a quadrant step.
pub proof fn lemma_covers_step(
    s: Seq<Node>,
    a: int,
    b: int,
    c: int,
    lb: nat,
    lc: nat,
    sx: int,
    sy: int,
    o2x: int,
    o2y: int,
)
    requires
        lb >= 1,
        sx == -1 || sx == 1,
        sy == -1 || sy == 1,
        covers(s, a, (lb - 1) as nat, b, lb, quad_offset(lb, sx), quad_offset(lb, sy)),
        covers(s, b, lb, c, lc, o2x, o2y),
    ensures
        covers(
            s,
            a,
            (lb - 1) as nat,
            c,
            lc,
            quad_offset(lb, sx) + o2x,
            quad_offset(lb, sy) + o2y,
        ),
{
    let o1x = quad_offset(lb, sx);
    let o1y = quad_offset(lb, sy);
    assert forall|x: int, y: int| in_region((lb - 1) as nat, x, y) implies #[trigger] node_alive(
        s,
        a,
        (lb - 1) as nat,
        x,
        y,
    ) == node_alive(s, c, lc, x + (o1x + o2x), y + (o1y + o2y)) by {
        assert(in_region(lb, x + o1x, y + o1y)) by {
            lemma2_to64();
            if lb >= 2 {
                lemma_pow2_adds(1, (lb - 2) as nat);
                assert(half_side(lb) == 2 * quad_delta(lb));
                assert(half_side((lb - 1) as nat) == quad_delta(lb));
            } else {
                assert(half_side(1) == 1);
            }
        }
        assert(node_alive(s, a, (lb - 1) as nat, x, y) == node_alive(s, b, lb, x + o1x, y + o1y));
        assert(node_alive(s, b, lb, x + o1x, y + o1y) == node_alive(
            s,
            c,
            lc,
            x + o1x + o2x,
            y + o1y + o2y,
        ));
    }
}

/// A node whose four children cover the four quadrants of a shifted region
/// covers the whole shifted region.
pub proof fn lemma_assemble_covers(
    s: Seq<Node>,
    r: int,
    rl: nat,
    t: int,
    tl: nat,
    cx: int,
    cy: int,
)
    requires
        nodes_ok(s),
        0 <= r < s.len(),
        s[r] is Inode,
        node_level(s[r]) == rl,
        rl >= 1,
        covers(s, child_sel(s, r, -1, -1), (rl - 1) as nat, t, tl, cx + quad_offset(rl, -1), cy + quad_offset(rl, -1)),
        covers(s, child_sel(s, r, 1, -1), (rl - 1) as nat, t, tl, cx + quad_offset(rl, 1), cy + quad_offset(rl, -1)),
        covers(s, child_sel(s, r, -1, 1), (rl - 1) as nat, t, tl, cx + quad_offset(rl, -1), cy + quad_offset(rl, 1)),
        covers(s, child_sel(s, r, 1, 1), (rl - 1) as nat, t, tl, cx + quad_offset(rl, 1), cy + quad_offset(rl, 1)),
    ensures
        covers(s, r, rl, t, tl, cx, cy),
{
    assert(node_ok(s, r));
    assert forall|x: int, y: int| in_region(rl, x, y) implies #[trigger] node_alive(
        s,
        r,
        rl,
        x,
        y,
    ) == node_alive(s, t, tl, x + cx, y + cy) by {
        let d = quad_delta(rl);
        let sx: int = if x < 0 { -1 } else { 1 };
        let sy: int = if y < 0 { -1 } else { 1 };
        let ch = child_sel(s, r, sx, sy);
        let ox = quad_offset(rl, sx);
        let oy = quad_offset(rl, sy);
        let lx = if x < 0 { x + d } else { x - d };
        let ly = if y < 0 { y + d } else { y - d };
        assert(cell_at(s, r, rl, x, y) == cell_at(s, ch, (rl - 1) as nat, lx, ly));
        if rl >= 2 {
            assert(half_side((rl - 1) as nat) == d);
            assert(half_side(rl) == 2 * d) by {
                lemma2_to64();
                lemma_pow2_adds(1, (rl - 2) as nat);
            }
            assert(in_region((rl - 1) as nat, lx, ly));
            assert(node_alive(s, ch, (rl - 1) as nat, lx, ly) == node_alive(
                s,
                t,
                tl,
                lx + (cx + ox),
                ly + (cy + oy),
            ));
            assert(lx + ox == x && ly + oy == y);
        } else {
            assert(d == 0 && lx == x && ly == y);
            assert(half_side(1) == 1) by {
                lemma2_to64();
            }
            assert(-1 <= x <= 0 && -1 <= y <= 0);
            assert(node_level(s[ch]) == 0);
            assert(node_ok(s, ch));
            assert(s[ch] is Leaf);
            assert(cell_at(s, ch, 0, lx, ly) == cell_at(s, ch, 0, 0, 0));
            assert(node_alive(s, ch, 0, 0, 0) == node_alive(s, t, tl, cx + ox, cy + oy));
            assert(x == ox && y == oy);
        }
    }
}

/// One generation on a covered region equals one generation on the covering
/// node, for cells whose whole 3-by-3 block lies inside both regions.
pub proof fn lemma_step_transport(
    s: Seq<Node>,
    c: int,
    cl: nat,
    t: int,
    tl: nat,
    ox: int,
    oy: int,
    x: int,
    y: int,
)
    requires
        cl >= 1,
        tl >= 1,
        covers(s, c, cl, t, tl, ox, oy),
        -half_side(cl) <= x - 1,
        x + 1 <= half_side(cl) - 1,
        -half_side(cl) <= y - 1,
        y + 1 <= half_side(cl) - 1,
        -half_side(tl) <= x + ox - 1,
        x + ox + 1 <= half_side(tl) - 1,
        -half_side(tl) <= y + oy - 1,
        y + oy + 1 <= half_side(tl) - 1,
    ensures
        step_on(s, c, cl, x, y) == step_on(s, t, tl, x + ox, y + oy),
{
    assert forall|u: int, v: int| x - 1 <= u <= x + 1 && y - 1 <= v <= y + 1 implies #[trigger] grid_at(
        s,
        c,
        cl,
        u,
        v,
    ) == grid_at(s, t, tl, u + ox, v + oy) by {
        assert(in_region(cl, u, v));
        assert(node_alive(s, c, cl, u, v) == node_alive(s, t, tl, u + ox, v + oy));
        reveal(grid_at);
    }
    assert(grid_at(s, c, cl, x - 1, y - 1) == grid_at(s, t, tl, x + ox - 1, y + oy - 1));
    assert(grid_at(s, c, cl, x, y - 1) == grid_at(s, t, tl, x + ox, y + oy - 1));
    assert(grid_at(s, c, cl, x + 1, y - 1) == grid_at(s, t, tl, x + ox + 1, y + oy - 1));
    assert(grid_at(s, c, cl, x - 1, y) == grid_at(s, t, tl, x + ox - 1, y + oy));
    assert(grid_at(s, c, cl, x, y) == grid_at(s, t, tl, x + ox, y + oy));
    assert(grid_at(s, c, cl, x + 1, y) == grid_at(s, t, tl, x + ox + 1, y + oy));
    assert(grid_at(s, c, cl, x - 1, y + 1) == grid_at(s, t, tl, x + ox - 1, y + oy + 1));
    assert(grid_at(s, c, cl, x, y + 1) == grid_at(s, t, tl, x + ox, y + oy + 1));
    assert(grid_at(s, c, cl, x + 1, y + 1) == grid_at(s, t, tl, x + ox + 1, y + oy + 1));
    crate::life::lemma_step_on_rule(s, c, cl, x, y);
    crate::life::lemma_step_on_rule(s, t, tl, x + ox, y + oy);
}

/// The evolved center of a sub-region is the evolved sub-region of the
/// center: a memoized result of a covering piece, shifted back.
pub proof fn lemma_future_shift(
    s: Seq<Node>,
    res: int,
    combo: int,
    t: int,
    lv: nat,
    cx: int,
    cy: int,
)
    requires
        lv >= 3,
        result_matches(s, res, combo, (lv - 1) as nat),
        covers(s, combo, (lv - 1) as nat, t, lv, cx, cy),
        cx == quad_delta((lv - 1) as nat) || cx == -quad_delta((lv - 1) as nat),
        cy == quad_delta((lv - 1) as nat) || cy == -quad_delta((lv - 1) as nat),
    ensures
        forall|x: int, y: int|
            in_region((lv - 2) as nat, x, y) ==> #[trigger] node_alive(
                s,
                res,
                (lv - 2) as nat,
                x,
                y,
            ) == step_on(s, t, lv, x + cx, y + cy),
{
    let e = quad_delta((lv - 1) as nat);
    assert(half_side((lv - 2) as nat) == e) by {
        if lv >= 4 {
            lemma_pow2_adds(1, (lv - 4) as nat);
        }
    }
    assert(half_side((lv - 1) as nat) == 2 * e) by {
        lemma2_to64();
        lemma_pow2_adds(1, (lv - 3) as nat);
    }
    assert(half_side(lv) == 4 * e) by {
        lemma_pow2_adds(2, (lv - 3) as nat);
        lemma2_to64();
    }
    vstd::arithmetic::power2::lemma_pow2_pos((lv - 3) as nat);
    assert forall|x: int, y: int| in_region((lv - 2) as nat, x, y) implies #[trigger] node_alive(
        s,
        res,
        (lv - 2) as nat,
        x,
        y,
    ) == step_on(s, t, lv, x + cx, y + cy) by {
        assert(node_alive(s, res, (lv - 2) as nat, x, y) == step_on(
            s,
            combo,
            (lv - 1) as nat,
            x,
            y,
        ));
        lemma_step_transport(s, combo, (lv - 1) as nat, t, lv, cx, cy, x, y);
    }
}

/// Four quadrant futures assemble into the future of the whole region.
pub proof fn lemma_assemble_future(s: Seq<Node>, r: int, t: int, lv: nat)
    requires
        nodes_ok(s),
        0 <= r < s.len(),
        s[r] is Inode,
        node_level(s[r]) == lv - 1,
        lv >= 3,
        forall|x: int, y: int|
            in_region((lv - 2) as nat, x, y) ==> #[trigger] node_alive(
                s,
                child_sel(s, r, -1, -1),
                (lv - 2) as nat,
                x,
                y,
            ) == step_on(s, t, lv, x - quad_delta((lv - 1) as nat), y - quad_delta((lv - 1) as nat)),
        forall|x: int, y: int|
            in_region((lv - 2) as nat, x, y) ==> #[trigger] node_alive(
                s,
                child_sel(s, r, 1, -1),
                (lv - 2) as nat,
                x,
                y,
            ) == step_on(s, t, lv, x + quad_delta((lv - 1) as nat), y - quad_delta((lv - 1) as nat)),
        forall|x: int, y: int|
            in_region((lv - 2) as nat, x, y) ==> #[trigger] node_alive(
                s,
                child_sel(s, r, -1, 1),
                (lv - 2) as nat,
                x,
                y,
            ) == step_on(s, t, lv, x - quad_delta((lv - 1) as nat), y + quad_delta((lv - 1) as nat)),
        forall|x: int, y: int|
            in_region((lv - 2) as nat, x, y) ==> #[trigger] node_alive(
                s,
                child_sel(s, r, 1, 1),
                (lv - 2) as nat,
                x,
                y,
            ) == step_on(s, t, lv, x + quad_delta((lv - 1) as nat), y + quad_delta((lv - 1) as nat)),
    ensures
        result_matches(s, r, t, lv),
{
    assert(node_ok(s, r));
    let e = quad_delta((lv - 1) as nat);
    assert(half_side((lv - 2) as nat) == e) by {
        if lv >= 4 {
            lemma_pow2_adds(1, (lv - 4) as nat);
        }
    }
    assert(half_side((lv - 1) as nat) == 2 * e) by {
        lemma2_to64();
        lemma_pow2_adds(1, (lv - 3) as nat);
    }
    vstd::arithmetic::power2::lemma_pow2_pos((lv - 3) as nat);
    assert forall|x: int, y: int| spec_in_bounds(x, y, (lv - 1) as nat) implies #[trigger] node_alive(
        s,
        r,
        (lv - 1) as nat,
        x,
        y,
    ) == step_on(s, t, lv, x, y) by {
        let sx: int = if x < 0 { -1 } else { 1 };
        let sy: int = if y < 0 { -1 } else { 1 };
        let ch = child_sel(s, r, sx, sy);
        let lx = if x < 0 { x + e } else { x - e };
        let ly = if y < 0 { y + e } else { y - e };
        assert(cell_at(s, r, (lv - 1) as nat, x, y) == cell_at(s, ch, (lv - 2) as nat, lx, ly));
        assert(in_region((lv - 2) as nat, lx, ly));
        if x < 0 && y < 0 {
            assert(node_alive(s, ch, (lv - 2) as nat, lx, ly) == step_on(s, t, lv, lx - e, ly - e));
        } else if x >= 0 && y < 0 {
            assert(node_alive(s, ch, (lv - 2) as nat, lx, ly) == step_on(s, t, lv, lx + e, ly - e));
        } else if x < 0 {
            assert(node_alive(s, ch, (lv - 2) as nat, lx, ly) == step_on(s, t, lv, lx - e, ly + e));
        } else {
            assert(node_alive(s, ch, (lv - 2) as nat, lx, ly) == step_on(s, t, lv, lx + e, ly + e));
        }
    }
}

/// Every node of the table is locally well formed.
pub open spec fn nodes_ok(s: Seq<Node>) -> bool {
    forall|i: int| 0 <= i < s.len() ==> #[trigger] node_ok(s, i)
}

/// Canonical uniqueness: no two distinct table entries have equal
/// descriptions. Kept opaque: proofs that need it reveal it, so that its
/// pairwise quantifier does not weigh on every other proof.
#[verifier::opaque]
pub open spec fn store_canon(s: Seq<Node>) -> bool {
    forall|i: int, j: int|
        0 <= i < s.len() && 0 <= j < s.len() && i != j ==> !desc_eq(#[trigger] s[i], #[trigger] s[j])
}

/// Full well-formedness of a node table.
pub open spec fn store_ok(s: Seq<Node>) -> bool {
    nodes_ok(s) && store_canon(s)
}

/// A later table extends an earlier one when every existing entry keeps its
/// description (only the memoized result may be filled in) and entries are
/// only added.
pub open spec fn store_extends(s1: Seq<Node>, s2: Seq<Node>) -> bool {
    &&& s1.len() <= s2.len()
    &&& forall|j: int| 0 <= j < s1.len() ==> same_but_result(#[trigger] s1[j], #[trigger] s2[j])
}

/// A later table grows out of an earlier one when entries are only added and
/// every existing entry is kept exactly as it was.
pub open spec fn store_grows(s1: Seq<Node>, s2: Seq<Node>) -> bool {
    &&& s1.len() <= s2.len()
    &&& forall|j: int| 0 <= j < s1.len() ==> s1[j] == #[trigger] s2[j]
}

pub proof fn lemma_store_grows_extends(s1: Seq<Node>, s2: Seq<Node>)
    requires
        store_grows(s1, s2),
    ensures
        store_extends(s1, s2),
{
    assert forall|j: int| 0 <= j < s1.len() implies same_but_result(#[trigger] s1[j], #[trigger] s2[j]) by {
        assert(s1[j] == s2[j]);
        match s1[j] {
            Node::Leaf(_) => {},
            Node::Inode(_) => {},
        }
    }
}

pub proof fn lemma_store_grows_trans(s1: Seq<Node>, s2: Seq<Node>, s3: Seq<Node>)
    requires
        store_grows(s1, s2),
        store_grows(s2, s3),
    ensures
        store_grows(s1, s3),
{
}

pub proof fn lemma_store_extends_trans(s1: Seq<Node>, s2: Seq<Node>, s3: Seq<Node>)
    requires
        store_extends(s1, s2),
        store_extends(s2, s3),
    ensures
        store_extends(s1, s3),
{
    assert forall|j: int| 0 <= j < s1.len() implies same_but_result(#[trigger] s1[j], #[trigger] s3[j]) by {
        assert(same_but_result(s1[j], s2[j]));
        assert(same_but_result(s2[j], s3[j]));
    }
}

/// The cell model only reads node descriptions, so it is stable under store
/// extension.
pub proof fn lemma_cell_at_frame(s1: Seq<Node>, s2: Seq<Node>, id: int, level: nat, x: int, y: int)
    requires
        nodes_ok(s1),
        store_extends(s1, s2),
        0 <= id < s1.len(),
    ensures
        cell_at(s2, id, level, x, y) == cell_at(s1, id, level, x, y),
    decreases level,
{
    assert(node_ok(s1, id));
    assert(same_but_result(s1[id], s2[id]));
    match s1[id] {
        Node::Leaf(_) => {},
        Node::Inode(n) => {
            if level > 0 {
                let d = quad_delta(level);
                if x < 0 && y < 0 {
                    lemma_cell_at_frame(s1, s2, n.nw.0 as int, (level - 1) as nat, x + d, y + d);
                } else if x >= 0 && y < 0 {
                    lemma_cell_at_frame(s1, s2, n.ne.0 as int, (level - 1) as nat, x - d, y + d);
                } else if x < 0 {
                    lemma_cell_at_frame(s1, s2, n.sw.0 as int, (level - 1) as nat, x + d, y - d);
                } else {
                    lemma_cell_at_frame(s1, s2, n.se.0 as int, (level - 1) as nat, x - d, y - d);
                }
            }
        },
    }
}

/// A node with population 0 holds `Dead` at every coordinate.
pub proof fn lemma_dead_node(s: Seq<Node>, id: int, level: nat, x: int, y: int)
    requires
        nodes_ok(s),
        0 <= id < s.len(),
        node_level(s[id]) == level,
        node_pop(s[id]) == 0,
    ensures
        cell_at(s, id, level, x, y) == Cell::Dead,
    decreases level,
{
    assert(node_ok(s, id));
    match s[id] {
        Node::Leaf(l) => {},
        Node::Inode(n) => {
            let d = quad_delta(level);
            if x < 0 && y < 0 {
                lemma_dead_node(s, n.nw.0 as int, (level - 1) as nat, x + d, y + d);
            } else if x >= 0 && y < 0 {
                lemma_dead_node(s, n.ne.0 as int, (level - 1) as nat, x - d, y + d);
            } else if x < 0 {
                lemma_dead_node(s, n.sw.0 as int, (level - 1) as nat, x + d, y - d);
            } else {
                lemma_dead_node(s, n.se.0 as int, (level - 1) as nat, x - d, y - d);
            }
        },
    }
}

/// `result_matches` is stable under store extension.
pub proof fn lemma_result_matches_frame(s1: Seq<Node>, s2: Seq<Node>, rid: int, id: int, level: nat)
    requires
        nodes_ok(s1),
        store_extends(s1, s2),
        0 <= id < s1.len(),
        0 <= rid < s1.len(),
        level >= 1,
        result_matches(s1, rid, id, level),
    ensures
        result_matches(s2, rid, id, level),
{
    assert forall|x: int, y: int| spec_in_bounds(x, y, (level - 1) as nat) implies #[trigger] node_alive(
        s2,
        rid,
        (level - 1) as nat,
        x,
        y,
    ) == step_on(s2, id, level, x, y) by {
        lemma_cell_at_frame(s1, s2, rid, (level - 1) as nat, x, y);
        crate::life::lemma_step_on_frame(s1, s2, id, level, x, y);
        assert(node_alive(s1, rid, (level - 1) as nat, x, y) == step_on(s1, id, level, x, y));
    }
}

/// Pushing a locally well-formed node onto a well-formed table keeps the
/// whole table well formed.
pub proof fn lemma_store_ok_push(s: Seq<Node>, n: Node)
    requires
        store_ok(s),
        node_ok(s.push(n), s.len() as int),
        forall|j: int| 0 <= j < s.len() ==> !desc_eq(#[trigger] s[j], n),
    ensures
        store_ok(s.push(n)),
        store_extends(s, s.push(n)),
{
    reveal(store_canon);
    let s2 = s.push(n);
    assert(store_extends(s, s2));
    assert forall|i: int| 0 <= i < s2.len() implies #[trigger] node_ok(s2, i) by {
        if i < s.len() {
            assert(node_ok(s, i));
            match s[i] {
                Node::Leaf(_) => {},
                Node::Inode(m) => {
                    match m.result {
                        None => {},
                        Some(r) => {
                            lemma_result_matches_frame(s, s2, r.0 as int, i, m.level as nat);
                        },
                    }
                },
            }
        }
    }
    assert forall|i: int, j: int|
        0 <= i < s2.len() && 0 <= j < s2.len() && i != j implies !desc_eq(
        #[trigger] s2[i],
        #[trigger] s2[j],
    ) by {
        if i < s.len() && j < s.len() {
            assert(!desc_eq(s[i], s[j]));
        } else if i < s.len() {
            assert(!desc_eq(s[i], n));
        } else {
            assert(!desc_eq(s[j], n));
            assert(desc_eq(s2[i], s2[j]) ==> desc_eq(s2[j], s2[i]));
        }
    }
}

/// Filling in a correct memoized result on one node keeps the table well
/// formed and leaves every description unchanged.
pub proof fn lemma_store_ok_set_result(s: Seq<Node>, i: int, n: Inode, r: crate::node::Id)
    requires
        store_ok(s),
        0 <= i < s.len(),
        s[i] == Node::Inode(n),
        2 <= n.level,
        r.0 < s.len(),
        node_level(s[r.0 as int]) == n.level - 1,
        result_matches(s, r.0 as int, i, n.level as nat),
    ensures
        store_ok(s.update(i, Node::Inode(Inode { result: Some(r), ..n }))),
        store_extends(s, s.update(i, Node::Inode(Inode { result: Some(r), ..n }))),
{
    reveal(store_canon);
    let n2 = Inode { result: Some(r), ..n };
    let s2 = s.update(i, Node::Inode(n2));
    assert forall|j: int| 0 <= j < s.len() implies same_but_result(#[trigger] s[j], #[trigger] s2[j]) by {
    }
    assert(store_extends(s, s2));
    assert forall|j: int| 0 <= j < s2.len() implies #[trigger] node_ok(s2, j) by {
        assert(node_ok(s, j));
        match s2[j] {
            Node::Leaf(_) => {},
            Node::Inode(m) => {
                let m1 = (match s[j] {
                    Node::Inode(q) => q,
                    Node::Leaf(_) => arbitrary(),
                });
                assert(m.nw == m1.nw && m.ne == m1.ne && m.sw == m1.sw && m.se == m1.se
                    && m.level == m1.level && m.population == m1.population);
                match m.result {
                    None => {},
                    Some(rr) => {
                        if j == i {
                            assert(rr == r);
                            lemma_result_matches_frame(s, s2, r.0 as int, i, n.level as nat);
                        } else {
                            assert(m1.result == Some(rr));
                            lemma_result_matches_frame(s, s2, rr.0 as int, j, m.level as nat);
                        }
                    },
                }
            },
        }
    }
    assert forall|p: int, q: int|
        0 <= p < s2.len() && 0 <= q < s2.len() && p != q implies !desc_eq(
        #[trigger] s2[p],
        #[trigger] s2[q],
    ) by {
        assert(!desc_eq(s[p], s[q]));
        assert(same_but_result(s[p], s2[p]));
        assert(same_but_result(s[q], s2[q]));
    }
}

use crate::node::Inode;

} // verus!
