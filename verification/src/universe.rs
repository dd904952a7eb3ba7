//! The universe: cell access on canonical trees, automatic growth, and the
//! owner of the node store and root identifier.

use vstd::prelude::*;

verus! {

use vstd::arithmetic::power2::{pow2, lemma_pow2_adds, lemma2_to64};
use crate::coords::{
    Level,
    Position,
    Quadrant,
    MAX_LEVEL,
    half_side,
    quad_delta,
    spec_in_bounds,
    spec_quadrant,
    lemma_pow2_fits_i64,
};
use crate::node::{Cell, Id, Inode, Leaf, Node, node_level, node_pop};
use crate::model::{
    cell_at,
    grid_at,
    store_extends,
    tree_inode,
    node_alive,
    node_ok,
    nodes_ok,
    store_grows,
    lemma_cell_at_frame,
    lemma_dead_node,
    lemma_store_grows_extends,
    lemma_store_grows_trans,
};
use crate::store::NodeStore;

impl NodeStore {
    /// The internal node an identifier denotes.
    pub fn inode(&self, id: Id) -> (n: Inode)
        requires
            self.valid(id),
            self@[id.0 as int] is Inode,
        ensures
            self@[id.0 as int] == Node::Inode(n),
    {
        match self.node(id) {
            Node::Inode(n) => n,
            Node::Leaf(_) => {
                proof {
                    assert(false);
                }
                Inode { level: 1, population: 0, result: None, nw: id, ne: id, sw: id, se: id }
            },
        }
    }

    /// The canonical all-dead tree of the given level.
    pub fn new_empty_tree(&mut self, level: u8) -> (r: Id)
        requires
            old(self).wf(),
            level <= MAX_LEVEL,
        ensures
            final(self).wf(),
            store_grows(old(self)@, final(self)@),
            final(self).valid(r),
            node_level(final(self)@[r.0 as int]) == level,
            node_pop(final(self)@[r.0 as int]) == 0,
        decreases level,
    {
        if level == 0 {
            let r = self.intern_leaf(Cell::Dead);
            r
        } else {
            let child = self.new_empty_tree(level - 1);
            let r = self.intern_inode(child, child, child, child);
            r
        }
    }

    /// The cell a canonical tree holds at a position given in the tree's own
    /// centered coordinates.
    pub fn get_tree_cell(&self, tree: Id, pos: Position) -> (r: Cell)
        requires
            self.wf(),
            self.valid(tree),
            node_level(self@[tree.0 as int]) >= 1 ==> spec_in_bounds(
                pos.x as int,
                pos.y as int,
                node_level(self@[tree.0 as int]),
            ),
        ensures
            r == cell_at(
                self@,
                tree.0 as int,
                node_level(self@[tree.0 as int]),
                pos.x as int,
                pos.y as int,
            ),
        decreases node_level(self@[tree.0 as int]),
    {
        proof {
            assert(node_ok(self@, tree.0 as int));
        }
        match self.node(tree) {
            Node::Leaf(l) => l.0,
            Node::Inode(n) => {
                let level = Level(n.level);
                proof {
                    lemma_pow2_fits_i64((n.level - 1) as nat);
                    if n.level >= 2 {
                        lemma_pow2_adds(1, (n.level - 2) as nat);
                        lemma2_to64();
                        assert(half_side(n.level as nat) == 2 * quad_delta(n.level as nat));
                    } else {
                        assert(quad_delta(1) == 0);
                    }
                }
                let q = pos.quadrant();
                let center = level.quadrant_center(q);
                let p2 = pos.relative_to(center);
                match q {
                    Quadrant::NorthWest => self.get_tree_cell(n.nw, p2),
                    Quadrant::NorthEast => self.get_tree_cell(n.ne, p2),
                    Quadrant::SouthWest => self.get_tree_cell(n.sw, p2),
                    Quadrant::SouthEast => self.get_tree_cell(n.se, p2),
                }
            },
        }
    }

    /// Rebuilds the path from a tree's root to the addressed cell with the
    /// cell replaced, reusing every untouched subtree, and returns the new
    /// canonical tree. The store only gains nodes.
    #[verifier::rlimit(100)]
    #[verifier::spinoff_prover]
    pub fn set_tree_cell(&mut self, tree: Id, pos: Position, state: Cell) -> (r: Id)
        requires
            old(self).wf(),
            old(self).valid(tree),
            1 <= node_level(old(self)@[tree.0 as int]) <= MAX_LEVEL,
            spec_in_bounds(pos.x as int, pos.y as int, node_level(old(self)@[tree.0 as int])),
        ensures
            final(self).wf(),
            store_grows(old(self)@, final(self)@),
            final(self)@.len() <= old(self)@.len() + node_level(old(self)@[tree.0 as int]) + 1,
            final(self).valid(r),
            node_level(final(self)@[r.0 as int]) == node_level(old(self)@[tree.0 as int]),
            forall|x2: int, y2: int|
                spec_in_bounds(x2, y2, node_level(old(self)@[tree.0 as int]))
                    ==> #[trigger] cell_at(
                    final(self)@,
                    r.0 as int,
                    node_level(old(self)@[tree.0 as int]),
                    x2,
                    y2,
                ) == (if x2 == pos.x as int && y2 == pos.y as int {
                    state
                } else {
                    cell_at(
                        old(self)@,
                        tree.0 as int,
                        node_level(old(self)@[tree.0 as int]),
                        x2,
                        y2,
                    )
                }),
        decreases node_level(old(self)@[tree.0 as int]),
    {
        let ghost s0 = self@;
        let ghost lvl = node_level(s0[tree.0 as int]);
        proof {
            assert(node_ok(s0, tree.0 as int));
        }
        let n = self.inode(tree);
        let level = Level(n.level);
        proof {
            lemma_pow2_fits_i64((n.level - 1) as nat);
            if n.level >= 2 {
                lemma_pow2_adds(1, (n.level - 2) as nat);
                lemma2_to64();
                assert(half_side(n.level as nat) == 2 * quad_delta(n.level as nat));
            } else {
                assert(quad_delta(1) == 0);
            }
        }
        let q = pos.quadrant();
        let center = level.quadrant_center(q);
        let p2 = pos.relative_to(center);
        let ghost d = quad_delta(lvl);
        if n.level == 1 {
            let leaf = self.intern_leaf(state);
            let ghost s1 = self@;
            let (cnw, cne, csw, cse) = match q {
                Quadrant::NorthWest => (leaf, n.ne, n.sw, n.se),
                Quadrant::NorthEast => (n.nw, leaf, n.sw, n.se),
                Quadrant::SouthWest => (n.nw, n.ne, leaf, n.se),
                Quadrant::SouthEast => (n.nw, n.ne, n.sw, leaf),
            };
            let r = self.intern_inode(cnw, cne, csw, cse);
            proof {
                let s2 = self@;
                assert(store_grows(s0, s2));
                assert(s2[r.0 as int] matches Node::Inode(m) && m.nw == cnw && m.ne == cne
                    && m.sw == csw && m.se == cse && m.level == 1);
                assert forall|x2: int, y2: int| spec_in_bounds(x2, y2, lvl) implies #[trigger] cell_at(
                    s2,
                    r.0 as int,
                    lvl,
                    x2,
                    y2,
                ) == (if x2 == pos.x as int && y2 == pos.y as int {
                    state
                } else {
                    cell_at(s0, tree.0 as int, lvl, x2, y2)
                }) by {
                    assert(pow2(0) == 1) by {
                        lemma2_to64();
                    }
                    assert(-1 <= x2 <= 0 && -1 <= y2 <= 0);
                    assert(-1 <= pos.x as int <= 0 && -1 <= pos.y as int <= 0);
                    assert(quad_delta(1) == 0);
                    assert(s2[leaf.0 as int] == Node::Leaf(Leaf(state)));
                    assert(s0[n.nw.0 as int] == s2[n.nw.0 as int]);
                    assert(s0[n.ne.0 as int] == s2[n.ne.0 as int]);
                    assert(s0[n.sw.0 as int] == s2[n.sw.0 as int]);
                    assert(s0[n.se.0 as int] == s2[n.se.0 as int]);
                    if x2 < 0 && y2 < 0 {
                        assert(cell_at(s2, r.0 as int, lvl, x2, y2) == cell_at(
                            s2,
                            cnw.0 as int,
                            0,
                            x2,
                            y2,
                        ));
                        assert(cell_at(s0, tree.0 as int, lvl, x2, y2) == cell_at(
                            s0,
                            n.nw.0 as int,
                            0,
                            x2,
                            y2,
                        ));
                    } else if x2 >= 0 && y2 < 0 {
                        assert(cell_at(s2, r.0 as int, lvl, x2, y2) == cell_at(
                            s2,
                            cne.0 as int,
                            0,
                            x2,
                            y2,
                        ));
                        assert(cell_at(s0, tree.0 as int, lvl, x2, y2) == cell_at(
                            s0,
                            n.ne.0 as int,
                            0,
                            x2,
                            y2,
                        ));
                    } else if x2 < 0 {
                        assert(cell_at(s2, r.0 as int, lvl, x2, y2) == cell_at(
                            s2,
                            csw.0 as int,
                            0,
                            x2,
                            y2,
                        ));
                        assert(cell_at(s0, tree.0 as int, lvl, x2, y2) == cell_at(
                            s0,
                            n.sw.0 as int,
                            0,
                            x2,
                            y2,
                        ));
                    } else {
                        assert(cell_at(s2, r.0 as int, lvl, x2, y2) == cell_at(
                            s2,
                            cse.0 as int,
                            0,
                            x2,
                            y2,
                        ));
                        assert(cell_at(s0, tree.0 as int, lvl, x2, y2) == cell_at(
                            s0,
                            n.se.0 as int,
                            0,
                            x2,
                            y2,
                        ));
                    }
                    assert(spec_quadrant(x2, y2) == spec_quadrant(pos.x as int, pos.y as int)
                        ==> x2 == pos.x as int && y2 == pos.y as int);
                }
            }
            r
        } else {
            let child = match q {
                Quadrant::NorthWest => n.nw,
                Quadrant::NorthEast => n.ne,
                Quadrant::SouthWest => n.sw,
                Quadrant::SouthEast => n.se,
            };
            proof {
                assert(spec_in_bounds(p2.x as int, p2.y as int, (lvl - 1) as nat));
            }
            let new_child = self.set_tree_cell(child, p2, state);
            let ghost s1 = self@;
            let (cnw, cne, csw, cse) = match q {
                Quadrant::NorthWest => (new_child, n.ne, n.sw, n.se),
                Quadrant::NorthEast => (n.nw, new_child, n.sw, n.se),
                Quadrant::SouthWest => (n.nw, n.ne, new_child, n.se),
                Quadrant::SouthEast => (n.nw, n.ne, n.sw, new_child),
            };
            let r = self.intern_inode(cnw, cne, csw, cse);
            proof {
                let s2 = self@;
                lemma_store_grows_trans(s0, s1, s2);
                lemma_store_grows_extends(s0, s1);
                lemma_store_grows_extends(s1, s2);
                lemma_store_grows_extends(s0, s2);
                assert(s2[r.0 as int] matches Node::Inode(m) && m.nw == cnw && m.ne == cne
                    && m.sw == csw && m.se == cse && m.level == lvl);
                assert forall|x2: int, y2: int| spec_in_bounds(x2, y2, lvl) implies #[trigger] cell_at(
                    s2,
                    r.0 as int,
                    lvl,
                    x2,
                    y2,
                ) == (if x2 == pos.x as int && y2 == pos.y as int {
                    state
                } else {
                    cell_at(s0, tree.0 as int, lvl, x2, y2)
                }) by {
                    let q2 = spec_quadrant(x2, y2);
                    if q2 == q {
                        let lx = (if x2 < 0 {
                            x2 + d
                        } else {
                            x2 - d
                        });
                        let ly = (if y2 < 0 {
                            y2 + d
                        } else {
                            y2 - d
                        });
                        assert(cell_at(s2, r.0 as int, lvl, x2, y2) == cell_at(
                            s2,
                            new_child.0 as int,
                            (lvl - 1) as nat,
                            lx,
                            ly,
                        ));
                        lemma_cell_at_frame(s1, s2, new_child.0 as int, (lvl - 1) as nat, lx, ly);
                        assert(spec_in_bounds(lx, ly, (lvl - 1) as nat));
                        assert(cell_at(s1, new_child.0 as int, (lvl - 1) as nat, lx, ly) == (
                        if lx == p2.x as int && ly == p2.y as int {
                            state
                        } else {
                            cell_at(s0, child.0 as int, (lvl - 1) as nat, lx, ly)
                        }));
                        assert((lx == p2.x as int && ly == p2.y as int) <==> (x2 == pos.x as int
                            && y2 == pos.y as int));
                        assert(cell_at(s0, tree.0 as int, lvl, x2, y2) == cell_at(
                            s0,
                            child.0 as int,
                            (lvl - 1) as nat,
                            lx,
                            ly,
                        ));
                    } else {
                        let sib = (match q2 {
                            Quadrant::NorthWest => n.nw,
                            Quadrant::NorthEast => n.ne,
                            Quadrant::SouthWest => n.sw,
                            Quadrant::SouthEast => n.se,
                        });
                        let lx = (if x2 < 0 {
                            x2 + d
                        } else {
                            x2 - d
                        });
                        let ly = (if y2 < 0 {
                            y2 + d
                        } else {
                            y2 - d
                        });
                        assert(cell_at(s2, r.0 as int, lvl, x2, y2) == cell_at(
                            s2,
                            sib.0 as int,
                            (lvl - 1) as nat,
                            lx,
                            ly,
                        ));
                        lemma_cell_at_frame(s0, s2, sib.0 as int, (lvl - 1) as nat, lx, ly);
                        assert(cell_at(s0, tree.0 as int, lvl, x2, y2) == cell_at(
                            s0,
                            sib.0 as int,
                            (lvl - 1) as nat,
                            lx,
                            ly,
                        ));
                        assert(!(x2 == pos.x as int && y2 == pos.y as int));
                    }
                }
            }
            r
        }
    }
}

/// The universe: the node store, the root identifier and the generation
/// counter. The represented grid is conceptually infinite: every cell
/// outside the root's square region is dead.
pub struct Universe {
    pub store: NodeStore,
    pub root: Option<Id>,
    pub generation: u64,
}

impl Universe {
    /// The root identifier, meaningful only while a root is installed.
    pub open spec fn spec_root(self) -> Id {
        match self.root {
            Some(r) => r,
            None => Id(0),
        }
    }

    /// The level of the installed root.
    pub open spec fn root_level(self) -> nat {
        node_level(self.store@[self.spec_root().0 as int])
    }

    /// Well-formedness: the store is well formed and the root, if installed,
    /// is an internal node of workable level.
    pub open spec fn wf(self) -> bool {
        &&& self.store.wf()
        &&& match self.root {
            None => true,
            Some(r) => r.0 < self.store@.len() && 2 <= node_level(self.store@[r.0 as int])
                <= MAX_LEVEL,
        }
    }

    /// The universe's grid: alive exactly at the live cells of the root's
    /// region, dead everywhere else.
    pub open spec fn alive_at(self, x: int, y: int) -> bool {
        &&& self.root is Some
        &&& spec_in_bounds(x, y, self.root_level())
        &&& node_alive(self.store@, self.spec_root().0 as int, self.root_level(), x, y)
    }

    /// A fresh universe: an empty store and no root installed.
    pub fn new() -> (r: Universe)
        ensures
            r.wf(),
            r.root is None,
            r.generation == 0,
            r.store@ == Seq::<Node>::empty(),
            forall|x: int, y: int| !r.alive_at(x, y),
    {
        Universe { store: NodeStore::new(), root: None, generation: 0 }
    }

    /// Installs an all-dead root of a small initial level.
    pub fn initilaize(&mut self)
        requires
            old(self).wf(),
        ensures
            final(self).wf(),
            final(self).root is Some,
            final(self).root_level() == 3,
            final(self).generation == old(self).generation,
            forall|x: int, y: int| !final(self).alive_at(x, y),
    {
        let root = self.store.new_empty_tree(3);
        self.root = Some(root);
        proof {
            assert forall|x: int, y: int| !self.alive_at(x, y) by {
                lemma_dead_node(self.store@, root.0 as int, 3, x, y);
            }
        }
    }

    /// The cell at an absolute position: dead outside the root's region.
    pub fn get_cell(&self, pos: Position) -> (r: Cell)
        requires
            self.wf(),
            self.root is Some,
        ensures
            r == (if self.alive_at(pos.x as int, pos.y as int) {
                Cell::Alive
            } else {
                Cell::Dead
            }),
    {
        let root = self.root.unwrap();
        let level = self.store.node(root).level();
        if pos.in_bounds(level) {
            self.store.get_tree_cell(root, pos)
        } else {
            Cell::Dead
        }
    }

    /// Re-roots the universe one level up, surrounding the old root with an
    /// all-dead border. The represented grid is unchanged at every position.
    pub fn expand(&mut self)
        requires
            old(self).wf(),
            old(self).root is Some,
            old(self).root_level() < MAX_LEVEL,
        ensures
            final(self).wf(),
            final(self).root is Some,
            final(self).root_level() == old(self).root_level() + 1,
            final(self).generation == old(self).generation,
            store_grows(old(self).store@, final(self).store@),
            forall|x: int, y: int| #[trigger] final(self).alive_at(x, y) == old(self).alive_at(
                x,
                y,
            ),
            ({
                let s0 = old(self).store@;
                let n0 = tree_inode(s0, old(self).spec_root().0 as int);
                let s1 = final(self).store@;
                let n1 = tree_inode(s1, final(self).spec_root().0 as int);
                &&& tree_inode(s1, n1.nw.0 as int).se == n0.nw && node_pop(s1[n1.nw.0 as int])
                    == node_pop(s0[n0.nw.0 as int])
                &&& tree_inode(s1, n1.ne.0 as int).sw == n0.ne && node_pop(s1[n1.ne.0 as int])
                    == node_pop(s0[n0.ne.0 as int])
                &&& tree_inode(s1, n1.sw.0 as int).ne == n0.sw && node_pop(s1[n1.sw.0 as int])
                    == node_pop(s0[n0.sw.0 as int])
                &&& tree_inode(s1, n1.se.0 as int).nw == n0.se && node_pop(s1[n1.se.0 as int])
                    == node_pop(s0[n0.se.0 as int])
            }),
    {
        let root_id = self.root.unwrap();
        let ghost s0 = self.store@;
        let n = self.store.inode(root_id);
        let ghost lv = n.level as nat;
        let ghost lv1: nat = (lv + 1) as nat;
        proof {
            assert(node_ok(s0, root_id.0 as int));
        }
        let border = self.store.new_empty_tree(n.level - 1);
        let ghost s1 = self.store@;
        let nw = self.store.intern_inode(border, border, border, n.nw);
        let ghost s2 = self.store@;
        let ne = self.store.intern_inode(border, border, n.ne, border);
        let ghost s3 = self.store@;
        let sw = self.store.intern_inode(border, n.sw, border, border);
        let ghost s4 = self.store@;
        let se = self.store.intern_inode(n.se, border, border, border);
        let ghost s5 = self.store@;
        let new_root = self.store.intern_inode(nw, ne, sw, se);
        self.root = Some(new_root);
        proof {
            let s6 = self.store@;
            lemma_store_grows_trans(s0, s1, s2);
            lemma_store_grows_trans(s0, s2, s3);
            lemma_store_grows_trans(s0, s3, s4);
            lemma_store_grows_trans(s0, s4, s5);
            lemma_store_grows_trans(s0, s5, s6);
            lemma_store_grows_extends(s0, s6);
            let h = half_side(lv);
            let hh = quad_delta(lv);
            lemma2_to64();
            lemma_pow2_adds(1, (lv - 1) as nat);
            lemma_pow2_adds(1, (lv - 2) as nat);
            assert(half_side(lv1) == 2 * h);
            assert(quad_delta(lv1) == h);
            assert(h == 2 * hh);
            assert(s6[border.0 as int] == s1[border.0 as int]);
            assert(s6[nw.0 as int] == s2[nw.0 as int]);
            assert(s6[ne.0 as int] == s3[ne.0 as int]);
            assert(s6[sw.0 as int] == s4[sw.0 as int]);
            assert(s6[se.0 as int] == s5[se.0 as int]);
            assert(node_pop(s6[border.0 as int]) == 0);
            assert(node_level(s6[border.0 as int]) == lv - 1);
            assert forall|x: int, y: int| #[trigger] self.alive_at(x, y) == old(self).alive_at(
                x,
                y,
            ) by {
                if spec_in_bounds(x, y, lv1) {
                    if x < 0 && y < 0 {
                        let x1 = x + h;
                        let y1 = y + h;
                        assert(cell_at(s6, new_root.0 as int, lv1, x, y) == cell_at(
                            s6,
                            nw.0 as int,
                            lv,
                            x1,
                            y1,
                        ));
                        if x1 < 0 && y1 < 0 {
                            assert(cell_at(s6, nw.0 as int, lv, x1, y1) == cell_at(
                                s6,
                                border.0 as int,
                                (lv - 1) as nat,
                                x1 + hh,
                                y1 + hh,
                            ));
                            lemma_dead_node(s6, border.0 as int, (lv - 1) as nat, x1 + hh, y1 + hh);
                            assert(!spec_in_bounds(x, y, lv));
                        } else if x1 >= 0 && y1 < 0 {
                            assert(cell_at(s6, nw.0 as int, lv, x1, y1) == cell_at(
                                s6,
                                border.0 as int,
                                (lv - 1) as nat,
                                x1 - hh,
                                y1 + hh,
                            ));
                            lemma_dead_node(s6, border.0 as int, (lv - 1) as nat, x1 - hh, y1 + hh);
                            assert(!spec_in_bounds(x, y, lv));
                        } else if x1 < 0 {
                            assert(cell_at(s6, nw.0 as int, lv, x1, y1) == cell_at(
                                s6,
                                border.0 as int,
                                (lv - 1) as nat,
                                x1 + hh,
                                y1 - hh,
                            ));
                            lemma_dead_node(s6, border.0 as int, (lv - 1) as nat, x1 + hh, y1 - hh);
                            assert(!spec_in_bounds(x, y, lv));
                        } else {
                            assert(cell_at(s6, nw.0 as int, lv, x1, y1) == cell_at(
                                s6,
                                n.nw.0 as int,
                                (lv - 1) as nat,
                                x1 - hh,
                                y1 - hh,
                            ));
                            lemma_cell_at_frame(s0, s6, n.nw.0 as int, (lv - 1) as nat, x + hh, y + hh);
                            assert(spec_in_bounds(x, y, lv));
                            assert(cell_at(s0, root_id.0 as int, lv, x, y) == cell_at(
                                s0,
                                n.nw.0 as int,
                                (lv - 1) as nat,
                                x + hh,
                                y + hh,
                            ));
                        }
                    } else if x >= 0 && y < 0 {
                        let x1 = x - h;
                        let y1 = y + h;
                        assert(cell_at(s6, new_root.0 as int, lv1, x, y) == cell_at(
                            s6,
                            ne.0 as int,
                            lv,
                            x1,
                            y1,
                        ));
                        if x1 < 0 && y1 >= 0 {
                            assert(cell_at(s6, ne.0 as int, lv, x1, y1) == cell_at(
                                s6,
                                n.ne.0 as int,
                                (lv - 1) as nat,
                                x1 + hh,
                                y1 - hh,
                            ));
                            lemma_cell_at_frame(s0, s6, n.ne.0 as int, (lv - 1) as nat, x - hh, y + hh);
                            assert(spec_in_bounds(x, y, lv));
                            assert(cell_at(s0, root_id.0 as int, lv, x, y) == cell_at(
                                s0,
                                n.ne.0 as int,
                                (lv - 1) as nat,
                                x - hh,
                                y + hh,
                            ));
                        } else if x1 < 0 && y1 < 0 {
                            assert(cell_at(s6, ne.0 as int, lv, x1, y1) == cell_at(
                                s6,
                                border.0 as int,
                                (lv - 1) as nat,
                                x1 + hh,
                                y1 + hh,
                            ));
                            lemma_dead_node(s6, border.0 as int, (lv - 1) as nat, x1 + hh, y1 + hh);
                            assert(!spec_in_bounds(x, y, lv));
                        } else if x1 >= 0 && y1 < 0 {
                            assert(cell_at(s6, ne.0 as int, lv, x1, y1) == cell_at(
                                s6,
                                border.0 as int,
                                (lv - 1) as nat,
                                x1 - hh,
                                y1 + hh,
                            ));
                            lemma_dead_node(s6, border.0 as int, (lv - 1) as nat, x1 - hh, y1 + hh);
                            assert(!spec_in_bounds(x, y, lv));
                        } else {
                            assert(cell_at(s6, ne.0 as int, lv, x1, y1) == cell_at(
                                s6,
                                border.0 as int,
                                (lv - 1) as nat,
                                x1 - hh,
                                y1 - hh,
                            ));
                            lemma_dead_node(s6, border.0 as int, (lv - 1) as nat, x1 - hh, y1 - hh);
                            assert(!spec_in_bounds(x, y, lv));
                        }
                    } else if x < 0 {
                        let x1 = x + h;
                        let y1 = y - h;
                        assert(cell_at(s6, new_root.0 as int, lv1, x, y) == cell_at(
                            s6,
                            sw.0 as int,
                            lv,
                            x1,
                            y1,
                        ));
                        if x1 >= 0 && y1 < 0 {
                            assert(cell_at(s6, sw.0 as int, lv, x1, y1) == cell_at(
                                s6,
                                n.sw.0 as int,
                                (lv - 1) as nat,
                                x1 - hh,
                                y1 + hh,
                            ));
                            lemma_cell_at_frame(s0, s6, n.sw.0 as int, (lv - 1) as nat, x + hh, y - hh);
                            assert(spec_in_bounds(x, y, lv));
                            assert(cell_at(s0, root_id.0 as int, lv, x, y) == cell_at(
                                s0,
                                n.sw.0 as int,
                                (lv - 1) as nat,
                                x + hh,
                                y - hh,
                            ));
                        } else if x1 < 0 && y1 < 0 {
                            assert(cell_at(s6, sw.0 as int, lv, x1, y1) == cell_at(
                                s6,
                                border.0 as int,
                                (lv - 1) as nat,
                                x1 + hh,
                                y1 + hh,
                            ));
                            lemma_dead_node(s6, border.0 as int, (lv - 1) as nat, x1 + hh, y1 + hh);
                            assert(!spec_in_bounds(x, y, lv));
                        } else if x1 < 0 {
                            assert(cell_at(s6, sw.0 as int, lv, x1, y1) == cell_at(
                                s6,
                                border.0 as int,
                                (lv - 1) as nat,
                                x1 + hh,
                                y1 - hh,
                            ));
                            lemma_dead_node(s6, border.0 as int, (lv - 1) as nat, x1 + hh, y1 - hh);
                            assert(!spec_in_bounds(x, y, lv));
                        } else {
                            assert(cell_at(s6, sw.0 as int, lv, x1, y1) == cell_at(
                                s6,
                                border.0 as int,
                                (lv - 1) as nat,
                                x1 - hh,
                                y1 - hh,
                            ));
                            lemma_dead_node(s6, border.0 as int, (lv - 1) as nat, x1 - hh, y1 - hh);
                            assert(!spec_in_bounds(x, y, lv));
                        }
                    } else {
                        let x1 = x - h;
                        let y1 = y - h;
                        assert(cell_at(s6, new_root.0 as int, lv1, x, y) == cell_at(
                            s6,
                            se.0 as int,
                            lv,
                            x1,
                            y1,
                        ));
                        if x1 < 0 && y1 < 0 {
                            assert(cell_at(s6, se.0 as int, lv, x1, y1) == cell_at(
                                s6,
                                n.se.0 as int,
                                (lv - 1) as nat,
                                x1 + hh,
                                y1 + hh,
                            ));
                            lemma_cell_at_frame(s0, s6, n.se.0 as int, (lv - 1) as nat, x - hh, y - hh);
                            assert(spec_in_bounds(x, y, lv));
                            assert(cell_at(s0, root_id.0 as int, lv, x, y) == cell_at(
                                s0,
                                n.se.0 as int,
                                (lv - 1) as nat,
                                x - hh,
                                y - hh,
                            ));
                        } else if x1 >= 0 && y1 < 0 {
                            assert(cell_at(s6, se.0 as int, lv, x1, y1) == cell_at(
                                s6,
                                border.0 as int,
                                (lv - 1) as nat,
                                x1 - hh,
                                y1 + hh,
                            ));
                            lemma_dead_node(s6, border.0 as int, (lv - 1) as nat, x1 - hh, y1 + hh);
                            assert(!spec_in_bounds(x, y, lv));
                        } else if x1 < 0 {
                            assert(cell_at(s6, se.0 as int, lv, x1, y1) == cell_at(
                                s6,
                                border.0 as int,
                                (lv - 1) as nat,
                                x1 + hh,
                                y1 - hh,
                            ));
                            lemma_dead_node(s6, border.0 as int, (lv - 1) as nat, x1 + hh, y1 - hh);
                            assert(!spec_in_bounds(x, y, lv));
                        } else {
                            assert(cell_at(s6, se.0 as int, lv, x1, y1) == cell_at(
                                s6,
                                border.0 as int,
                                (lv - 1) as nat,
                                x1 - hh,
                                y1 - hh,
                            ));
                            lemma_dead_node(s6, border.0 as int, (lv - 1) as nat, x1 - hh, y1 - hh);
                            assert(!spec_in_bounds(x, y, lv));
                        }
                    }
                } else {
                    crate::coords::lemma_half_side_mono(lv, lv1);
                    assert(!spec_in_bounds(x, y, lv));
                }
            }
        }
    }

    /// Writes a cell at an absolute position, growing the root first until
    /// the position is in bounds. Every other position keeps its state.
    pub fn set_cell(&mut self, pos: Position, cell: Cell)
        requires
            old(self).wf(),
            old(self).root is Some,
            spec_in_bounds(pos.x as int, pos.y as int, MAX_LEVEL as nat),
        ensures
            final(self).wf(),
            final(self).root is Some,
            final(self).generation == old(self).generation,
            old(self).root_level() <= final(self).root_level() <= MAX_LEVEL,
            spec_in_bounds(pos.x as int, pos.y as int, old(self).root_level())
                ==> final(self).root_level() == old(self).root_level(),
            store_grows(old(self).store@, final(self).store@),
            forall|x: int, y: int| #[trigger] final(self).alive_at(x, y) == (if x == pos.x as int
                && y == pos.y as int {
                cell is Alive
            } else {
                old(self).alive_at(x, y)
            }),
    {
        let ghost u0 = *self;
        loop
            invariant
                self.wf(),
                self.root is Some,
                self.generation == u0.generation,
                u0.wf(),
                u0.root is Some,
                spec_in_bounds(pos.x as int, pos.y as int, MAX_LEVEL as nat),
                u0.root_level() <= self.root_level() <= MAX_LEVEL,
                spec_in_bounds(pos.x as int, pos.y as int, u0.root_level())
                    ==> self.root_level() == u0.root_level(),
                store_grows(u0.store@, self.store@),
                forall|x: int, y: int| #[trigger] self.alive_at(x, y) == u0.alive_at(x, y),
            ensures
                self.wf(),
                self.root is Some,
                self.generation == u0.generation,
                spec_in_bounds(pos.x as int, pos.y as int, self.root_level()),
                u0.root_level() <= self.root_level() <= MAX_LEVEL,
                spec_in_bounds(pos.x as int, pos.y as int, u0.root_level())
                    ==> self.root_level() == u0.root_level(),
                store_grows(u0.store@, self.store@),
                forall|x: int, y: int| #[trigger] self.alive_at(x, y) == u0.alive_at(x, y),
            decreases MAX_LEVEL as int - self.root_level(),
        {
            let root_id = self.root.unwrap();
            let level = self.store.node(root_id).level();
            if pos.in_bounds(level) {
                break;
            }
            proof {
                if level.0 == MAX_LEVEL {
                    assert(spec_in_bounds(pos.x as int, pos.y as int, self.root_level()));
                }
            }
            let ghost up = *self;
            self.expand();
            proof {
                lemma_store_grows_trans(u0.store@, up.store@, self.store@);
            }
        }
        let root_id = self.root.unwrap();
        let ghost um = *self;
        let ghost lv = self.root_level();
        let new_root = self.store.set_tree_cell(root_id, pos, cell);
        self.root = Some(new_root);
        proof {
            lemma_store_grows_trans(u0.store@, um.store@, self.store@);
            assert forall|x: int, y: int| #[trigger] self.alive_at(x, y) == (if x == pos.x as int
                && y == pos.y as int {
                cell is Alive
            } else {
                u0.alive_at(x, y)
            }) by {
                assert(self.root_level() == lv);
                if spec_in_bounds(x, y, lv) {
                    assert(cell_at(self.store@, new_root.0 as int, lv, x, y) == (if x
                        == pos.x as int && y == pos.y as int {
                        cell
                    } else {
                        cell_at(um.store@, root_id.0 as int, lv, x, y)
                    }));
                    assert(um.alive_at(x, y) == u0.alive_at(x, y));
                } else {
                    assert(!self.alive_at(x, y));
                    assert(!um.alive_at(x, y));
                    assert(um.alive_at(x, y) == u0.alive_at(x, y));
                }
            }
        }
    }
}

/// Activity in each quadrant of the root is confined to the quadrant's inner
/// corner: the quadrant's population equals that of its sub-sub-quadrant
/// nearest the center.
pub open spec fn spec_padding(s: Seq<Node>, t: int) -> bool {
    let n = tree_inode(s, t);
    &&& node_pop(s[n.nw.0 as int]) == node_pop(
        s[tree_inode(s, tree_inode(s, n.nw.0 as int).se.0 as int).se.0 as int],
    )
    &&& node_pop(s[n.ne.0 as int]) == node_pop(
        s[tree_inode(s, tree_inode(s, n.ne.0 as int).sw.0 as int).sw.0 as int],
    )
    &&& node_pop(s[n.sw.0 as int]) == node_pop(
        s[tree_inode(s, tree_inode(s, n.sw.0 as int).ne.0 as int).ne.0 as int],
    )
    &&& node_pop(s[n.se.0 as int]) == node_pop(
        s[tree_inode(s, tree_inode(s, n.se.0 as int).nw.0 as int).nw.0 as int],
    )
}

/// With the padding condition, every live cell of the root's region lies in
/// the centered quarter-size square.
#[verifier::rlimit(100)]
#[verifier::spinoff_prover]
proof fn lemma_confined(s: Seq<Node>, t: int, lv: nat, x: int, y: int)
    requires
        nodes_ok(s),
        0 <= t < s.len(),
        s[t] is Inode,
        node_level(s[t]) == lv,
        lv >= 3,
        spec_padding(s, t),
        !spec_in_bounds(x, y, (lv - 2) as nat),
    ensures
        !grid_at(s, t, lv, x, y),
{
    reveal(crate::model::grid_at);
    if spec_in_bounds(x, y, lv) {
        let n = tree_inode(s, t);
        let hh = quad_delta(lv);
        let e = quad_delta((lv - 1) as nat);
        lemma2_to64();
        lemma_pow2_adds(1, (lv - 2) as nat);
        lemma_pow2_adds(1, (lv - 3) as nat);
        assert(half_side(lv) == 2 * hh);
        assert(hh == 2 * e);
        assert(half_side((lv - 2) as nat) == e);
        assert(node_ok(s, t));
        if x < 0 && y < 0 {
            let q = n.nw.0 as int;
            assert(node_ok(s, q));
            let qn = tree_inode(s, q);
            let x1 = x + hh;
            let y1 = y + hh;
            assert(cell_at(s, t, lv, x, y) == cell_at(s, q, (lv - 1) as nat, x1, y1));
            assert(node_ok(s, qn.se.0 as int));
            let sn = tree_inode(s, qn.se.0 as int);
            assert(node_pop(s[qn.nw.0 as int]) == 0 && node_pop(s[qn.ne.0 as int]) == 0
                && node_pop(s[qn.sw.0 as int]) == 0 && node_pop(s[sn.nw.0 as int]) == 0
                && node_pop(s[sn.ne.0 as int]) == 0 && node_pop(s[sn.sw.0 as int]) == 0);
            if x1 < 0 && y1 < 0 {
                lemma_dead_node(s, qn.nw.0 as int, (lv - 2) as nat, x1 + e, y1 + e);
            } else if x1 >= 0 && y1 < 0 {
                lemma_dead_node(s, qn.ne.0 as int, (lv - 2) as nat, x1 - e, y1 + e);
            } else if x1 < 0 {
                lemma_dead_node(s, qn.sw.0 as int, (lv - 2) as nat, x1 + e, y1 - e);
            } else {
                let x2 = x1 - e;
                let y2 = y1 - e;
                assert(cell_at(s, q, (lv - 1) as nat, x1, y1) == cell_at(
                    s,
                    qn.se.0 as int,
                    (lv - 2) as nat,
                    x2,
                    y2,
                ));
                let e2 = quad_delta((lv - 2) as nat);
                if x2 < 0 && y2 < 0 {
                    lemma_dead_node(s, sn.nw.0 as int, (lv - 3) as nat, x2 + e2, y2 + e2);
                } else if x2 >= 0 && y2 < 0 {
                    lemma_dead_node(s, sn.ne.0 as int, (lv - 3) as nat, x2 - e2, y2 + e2);
                } else if x2 < 0 {
                    lemma_dead_node(s, sn.sw.0 as int, (lv - 3) as nat, x2 + e2, y2 - e2);
                } else {
                    assert(x >= -e && y >= -e && x < 0 && y < 0);
                    assert(spec_in_bounds(x, y, (lv - 2) as nat));
                    assert(false);
                }
            }
        } else if x >= 0 && y < 0 {
            let q = n.ne.0 as int;
            assert(node_ok(s, q));
            let qn = tree_inode(s, q);
            let x1 = x - hh;
            let y1 = y + hh;
            assert(cell_at(s, t, lv, x, y) == cell_at(s, q, (lv - 1) as nat, x1, y1));
            assert(node_ok(s, qn.sw.0 as int));
            let sn = tree_inode(s, qn.sw.0 as int);
            assert(node_pop(s[qn.nw.0 as int]) == 0 && node_pop(s[qn.ne.0 as int]) == 0
                && node_pop(s[qn.se.0 as int]) == 0 && node_pop(s[sn.nw.0 as int]) == 0
                && node_pop(s[sn.ne.0 as int]) == 0 && node_pop(s[sn.se.0 as int]) == 0);
            if x1 < 0 && y1 < 0 {
                lemma_dead_node(s, qn.nw.0 as int, (lv - 2) as nat, x1 + e, y1 + e);
            } else if x1 >= 0 && y1 < 0 {
                lemma_dead_node(s, qn.ne.0 as int, (lv - 2) as nat, x1 - e, y1 + e);
            } else if x1 >= 0 {
                lemma_dead_node(s, qn.se.0 as int, (lv - 2) as nat, x1 - e, y1 - e);
            } else {
                let x2 = x1 + e;
                let y2 = y1 - e;
                assert(cell_at(s, q, (lv - 1) as nat, x1, y1) == cell_at(
                    s,
                    qn.sw.0 as int,
                    (lv - 2) as nat,
                    x2,
                    y2,
                ));
                let e2 = quad_delta((lv - 2) as nat);
                if x2 < 0 && y2 < 0 {
                    lemma_dead_node(s, sn.nw.0 as int, (lv - 3) as nat, x2 + e2, y2 + e2);
                } else if x2 >= 0 && y2 < 0 {
                    lemma_dead_node(s, sn.ne.0 as int, (lv - 3) as nat, x2 - e2, y2 + e2);
                } else if x2 >= 0 {
                    lemma_dead_node(s, sn.se.0 as int, (lv - 3) as nat, x2 - e2, y2 - e2);
                } else {
                    assert(x < e && y >= -e && x >= 0 && y < 0);
                    assert(spec_in_bounds(x, y, (lv - 2) as nat));
                    assert(false);
                }
            }
        } else if x < 0 {
            let q = n.sw.0 as int;
            assert(node_ok(s, q));
            let qn = tree_inode(s, q);
            let x1 = x + hh;
            let y1 = y - hh;
            assert(cell_at(s, t, lv, x, y) == cell_at(s, q, (lv - 1) as nat, x1, y1));
            assert(node_ok(s, qn.ne.0 as int));
            let sn = tree_inode(s, qn.ne.0 as int);
            assert(node_pop(s[qn.nw.0 as int]) == 0 && node_pop(s[qn.sw.0 as int]) == 0
                && node_pop(s[qn.se.0 as int]) == 0 && node_pop(s[sn.nw.0 as int]) == 0
                && node_pop(s[sn.sw.0 as int]) == 0 && node_pop(s[sn.se.0 as int]) == 0);
            if x1 < 0 && y1 < 0 {
                lemma_dead_node(s, qn.nw.0 as int, (lv - 2) as nat, x1 + e, y1 + e);
            } else if x1 < 0 && y1 >= 0 {
                lemma_dead_node(s, qn.sw.0 as int, (lv - 2) as nat, x1 + e, y1 - e);
            } else if x1 >= 0 && y1 >= 0 {
                lemma_dead_node(s, qn.se.0 as int, (lv - 2) as nat, x1 - e, y1 - e);
            } else {
                let x2 = x1 - e;
                let y2 = y1 + e;
                assert(cell_at(s, q, (lv - 1) as nat, x1, y1) == cell_at(
                    s,
                    qn.ne.0 as int,
                    (lv - 2) as nat,
                    x2,
                    y2,
                ));
                let e2 = quad_delta((lv - 2) as nat);
                if x2 < 0 && y2 < 0 {
                    lemma_dead_node(s, sn.nw.0 as int, (lv - 3) as nat, x2 + e2, y2 + e2);
                } else if x2 < 0 && y2 >= 0 {
                    lemma_dead_node(s, sn.sw.0 as int, (lv - 3) as nat, x2 + e2, y2 - e2);
                } else if x2 >= 0 && y2 >= 0 {
                    lemma_dead_node(s, sn.se.0 as int, (lv - 3) as nat, x2 - e2, y2 - e2);
                } else {
                    assert(x >= -e && y < e && x < 0 && y >= 0);
                    assert(spec_in_bounds(x, y, (lv - 2) as nat));
                    assert(false);
                }
            }
        } else {
            let q = n.se.0 as int;
            assert(node_ok(s, q));
            let qn = tree_inode(s, q);
            let x1 = x - hh;
            let y1 = y - hh;
            assert(cell_at(s, t, lv, x, y) == cell_at(s, q, (lv - 1) as nat, x1, y1));
            assert(node_ok(s, qn.nw.0 as int));
            let sn = tree_inode(s, qn.nw.0 as int);
            assert(node_pop(s[qn.ne.0 as int]) == 0 && node_pop(s[qn.sw.0 as int]) == 0
                && node_pop(s[qn.se.0 as int]) == 0 && node_pop(s[sn.ne.0 as int]) == 0
                && node_pop(s[sn.sw.0 as int]) == 0 && node_pop(s[sn.se.0 as int]) == 0);
            if x1 >= 0 && y1 < 0 {
                lemma_dead_node(s, qn.ne.0 as int, (lv - 2) as nat, x1 - e, y1 + e);
            } else if x1 < 0 && y1 >= 0 {
                lemma_dead_node(s, qn.sw.0 as int, (lv - 2) as nat, x1 + e, y1 - e);
            } else if x1 >= 0 && y1 >= 0 {
                lemma_dead_node(s, qn.se.0 as int, (lv - 2) as nat, x1 - e, y1 - e);
            } else {
                let x2 = x1 + e;
                let y2 = y1 + e;
                assert(cell_at(s, q, (lv - 1) as nat, x1, y1) == cell_at(
                    s,
                    qn.nw.0 as int,
                    (lv - 2) as nat,
                    x2,
                    y2,
                ));
                let e2 = quad_delta((lv - 2) as nat);
                if x2 >= 0 && y2 < 0 {
                    lemma_dead_node(s, sn.ne.0 as int, (lv - 3) as nat, x2 - e2, y2 + e2);
                } else if x2 < 0 && y2 >= 0 {
                    lemma_dead_node(s, sn.sw.0 as int, (lv - 3) as nat, x2 + e2, y2 - e2);
                } else if x2 >= 0 && y2 >= 0 {
                    lemma_dead_node(s, sn.se.0 as int, (lv - 3) as nat, x2 - e2, y2 - e2);
                } else {
                    assert(x < e && y < e && x >= 0 && y >= 0);
                    assert(spec_in_bounds(x, y, (lv - 2) as nat));
                    assert(false);
                }
            }
        }
    }
}

impl Universe {
    /// The universe's grid one generation ahead, stated over the root node.
    pub open spec fn next_alive(self, x: int, y: int) -> bool {
        crate::life::step_on(self.store@, self.spec_root().0 as int, self.root_level(), x, y)
    }

    /// Whether the root has enough dead padding that one generation of the
    /// live region stays inside the root's center.
    fn padding(&self) -> (r: bool)
        requires
            self.wf(),
            self.root is Some,
            self.root_level() >= 3,
        ensures
            r == spec_padding(self.store@, self.spec_root().0 as int),
    {
        proof {
            assert(node_ok(self.store@, self.spec_root().0 as int));
        }
        let root_id = self.root.unwrap();
        let n = self.store.inode(root_id);
        proof {
            assert(node_ok(self.store@, n.nw.0 as int));
            assert(node_ok(self.store@, n.ne.0 as int));
            assert(node_ok(self.store@, n.sw.0 as int));
            assert(node_ok(self.store@, n.se.0 as int));
        }
        let nwn = self.store.inode(n.nw);
        let nen = self.store.inode(n.ne);
        let swn = self.store.inode(n.sw);
        let sen = self.store.inode(n.se);
        proof {
            assert(node_ok(self.store@, nwn.se.0 as int));
            assert(node_ok(self.store@, nen.sw.0 as int));
            assert(node_ok(self.store@, swn.ne.0 as int));
            assert(node_ok(self.store@, sen.nw.0 as int));
        }
        let nwi = self.store.inode(nwn.se);
        let nei = self.store.inode(nen.sw);
        let swi = self.store.inode(swn.ne);
        let sei = self.store.inode(sen.nw);
        let pa = self.store.node(n.nw).population() == self.store.node(nwi.se).population();
        let pb = self.store.node(n.ne).population() == self.store.node(nei.sw).population();
        let pc = self.store.node(n.sw).population() == self.store.node(swi.ne).population();
        let pd = self.store.node(n.se).population() == self.store.node(sei.nw).population();
        pa && pb && pc && pd
    }

    /// Two universes with the same grid step to the same grid.
    proof fn lemma_next_alive_eq(u1: Universe, u2: Universe, x: int, y: int)
        requires
            u1.wf(),
            u1.root is Some,
            u2.wf(),
            u2.root is Some,
            forall|a: int, b: int| #[trigger] u1.alive_at(a, b) == u2.alive_at(a, b),
        ensures
            u1.next_alive(x, y) == u2.next_alive(x, y),
    {
        let s1 = u1.store@;
        let r1 = u1.spec_root().0 as int;
        let l1 = u1.root_level();
        let s2 = u2.store@;
        let r2 = u2.spec_root().0 as int;
        let l2 = u2.root_level();
        assert forall|a: int, b: int| x - 1 <= a <= x + 1 && y - 1 <= b <= y + 1 implies #[trigger] grid_at(
            s1,
            r1,
            l1,
            a,
            b,
        ) == grid_at(s2, r2, l2, a, b) by {
            reveal(crate::model::grid_at);
            assert(grid_at(s1, r1, l1, a, b) == u1.alive_at(a, b));
            assert(grid_at(s2, r2, l2, a, b) == u2.alive_at(a, b));
            assert(u1.alive_at(a, b) == u2.alive_at(a, b));
        }
        assert(grid_at(s1, r1, l1, x - 1, y - 1) == grid_at(s2, r2, l2, x - 1, y - 1));
        assert(grid_at(s1, r1, l1, x, y - 1) == grid_at(s2, r2, l2, x, y - 1));
        assert(grid_at(s1, r1, l1, x + 1, y - 1) == grid_at(s2, r2, l2, x + 1, y - 1));
        assert(grid_at(s1, r1, l1, x - 1, y) == grid_at(s2, r2, l2, x - 1, y));
        assert(grid_at(s1, r1, l1, x, y) == grid_at(s2, r2, l2, x, y));
        assert(grid_at(s1, r1, l1, x + 1, y) == grid_at(s2, r2, l2, x + 1, y));
        assert(grid_at(s1, r1, l1, x - 1, y + 1) == grid_at(s2, r2, l2, x - 1, y + 1));
        assert(grid_at(s1, r1, l1, x, y + 1) == grid_at(s2, r2, l2, x, y + 1));
        assert(grid_at(s1, r1, l1, x + 1, y + 1) == grid_at(s2, r2, l2, x + 1, y + 1));
        crate::life::lemma_step_on_rule(s1, r1, l1, x, y);
        crate::life::lemma_step_on_rule(s2, r2, l2, x, y);
    }

    /// Advances the universe one generation: grows the root until activity
    /// cannot reach the border, computes the root's future, installs it as
    /// the new root and counts the generation.
    #[verifier::rlimit(100)]
    #[verifier::spinoff_prover]
    pub fn evolve(&mut self)
        requires
            old(self).wf(),
            old(self).root is Some,
            old(self).root_level() + 3 <= MAX_LEVEL,
            old(self).generation < u64::MAX,
        ensures
            final(self).wf(),
            final(self).root is Some,
            final(self).generation == old(self).generation + 1,
            2 <= final(self).root_level() <= old(self).root_level() + 2,
            store_extends(old(self).store@, final(self).store@),
            forall|x: int, y: int| #[trigger] final(self).alive_at(x, y) == old(self).next_alive(
                x,
                y,
            ),
    {
        let ghost u0 = *self;
        let root0 = self.root.unwrap();
        if self.store.node(root0).level().0 < 3 {
            self.expand();
        }
        let ghost u1 = *self;
        if !self.padding() {
            self.expand();
            let ghost ua = *self;
            if !self.padding() {
                self.expand();
                proof {
                    let s1 = u1.store@;
                    let n1 = tree_inode(s1, u1.spec_root().0 as int);
                    let sa = ua.store@;
                    let na = tree_inode(sa, ua.spec_root().0 as int);
                    let sb = self.store@;
                    let nb = tree_inode(sb, self.spec_root().0 as int);
                    assert(node_ok(s1, u1.spec_root().0 as int));
                    assert(node_ok(sa, ua.spec_root().0 as int));
                    assert(sb[na.nw.0 as int] == sa[na.nw.0 as int]);
                    assert(sb[na.ne.0 as int] == sa[na.ne.0 as int]);
                    assert(sb[na.sw.0 as int] == sa[na.sw.0 as int]);
                    assert(sb[na.se.0 as int] == sa[na.se.0 as int]);
                    assert(sa[n1.nw.0 as int] == s1[n1.nw.0 as int]);
                    assert(sa[n1.ne.0 as int] == s1[n1.ne.0 as int]);
                    assert(sa[n1.sw.0 as int] == s1[n1.sw.0 as int]);
                    assert(sa[n1.se.0 as int] == s1[n1.se.0 as int]);
                    assert(sb[n1.nw.0 as int] == s1[n1.nw.0 as int]);
                    assert(sb[n1.ne.0 as int] == s1[n1.ne.0 as int]);
                    assert(sb[n1.sw.0 as int] == s1[n1.sw.0 as int]);
                    assert(sb[n1.se.0 as int] == s1[n1.se.0 as int]);
                    assert(tree_inode(sb, nb.nw.0 as int).se == na.nw);
                    assert(tree_inode(sb, na.nw.0 as int).se == n1.nw);
                    assert(node_pop(sb[nb.nw.0 as int]) == node_pop(s1[n1.nw.0 as int]));
                    assert(tree_inode(sb, nb.ne.0 as int).sw == na.ne);
                    assert(tree_inode(sb, na.ne.0 as int).sw == n1.ne);
                    assert(node_pop(sb[nb.ne.0 as int]) == node_pop(s1[n1.ne.0 as int]));
                    assert(tree_inode(sb, nb.sw.0 as int).ne == na.sw);
                    assert(tree_inode(sb, na.sw.0 as int).ne == n1.sw);
                    assert(node_pop(sb[nb.sw.0 as int]) == node_pop(s1[n1.sw.0 as int]));
                    assert(tree_inode(sb, nb.se.0 as int).nw == na.se);
                    assert(tree_inode(sb, na.se.0 as int).nw == n1.se);
                    assert(node_pop(sb[nb.se.0 as int]) == node_pop(s1[n1.se.0 as int]));
                    assert(spec_padding(sb, self.spec_root().0 as int));
                    lemma_store_grows_trans(u1.store@, ua.store@, self.store@);
                }
            }
            proof {
                assert(store_grows(u1.store@, self.store@));
            }
        }
        let ghost um = *self;
        proof {
            assert(store_grows(u0.store@, u1.store@));
            assert(store_grows(u1.store@, um.store@));
            lemma_store_grows_trans(u0.store@, u1.store@, um.store@);
            assert(um.root_level() <= u0.root_level() + 3);
            assert(spec_padding(um.store@, um.spec_root().0 as int));
            assert forall|x: int, y: int| #[trigger] um.alive_at(x, y) == u0.alive_at(x, y) by {
                assert(u1.alive_at(x, y) == u0.alive_at(x, y));
            }
        }
        let root = self.root.unwrap();
        let new_root = self.store.evolve_tree(root);
        self.root = Some(new_root);
        self.generation = self.generation + 1;
        proof {
            lemma_store_grows_extends(u0.store@, um.store@);
            crate::model::lemma_store_extends_trans(u0.store@, um.store@, self.store@);
            let sm = um.store@;
            let rid = um.spec_root().0 as int;
            let lv = um.root_level();
            let sf = self.store@;
            assert(node_ok(sm, rid));
            lemma2_to64();
            lemma_pow2_adds(1, (lv - 2) as nat);
            lemma_pow2_adds(1, (lv - 3) as nat);
            vstd::arithmetic::power2::lemma_pow2_pos((lv - 3) as nat);
            assert forall|x: int, y: int| #[trigger] self.alive_at(x, y) == u0.next_alive(
                x,
                y,
            ) by {
                Universe::lemma_next_alive_eq(u0, um, x, y);
                if spec_in_bounds(x, y, (lv - 1) as nat) {
                    assert(node_alive(sf, new_root.0 as int, (lv - 1) as nat, x, y)
                        == crate::life::step_on(sf, rid, lv, x, y));
                    crate::life::lemma_step_on_frame(sm, sf, rid, lv, x, y);
                } else {
                    assert(!self.alive_at(x, y));
                    assert forall|u: int, v: int|
                        x - 1 <= u <= x + 1 && y - 1 <= v <= y + 1 implies !(#[trigger] grid_at(
                        sm,
                        rid,
                        lv,
                        u,
                        v,
                    )) by {
                        assert(half_side((lv - 1) as nat) == 2 * quad_delta((lv - 1) as nat));
                        assert(!spec_in_bounds(u, v, (lv - 2) as nat));
                        lemma_confined(sm, rid, lv, u, v);
                    }
                    crate::life::lemma_step_on_dead(sm, rid, lv, x, y);
                }
            }
        }
    }
}

} // verus!
