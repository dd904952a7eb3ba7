//! The canonicalizing node store: an arena of immutable nodes addressed by
//! integer identifier, plus a bidirectional index from description keys to
//! identifiers that makes interning return the existing identifier for any
//! structurally equal node.

use vstd::prelude::*;

verus! {

use vstd::arithmetic::power2::{pow2, lemma_pow2_adds, lemma2_to64, lemma2_to64_rest};
use crate::coords::MAX_LEVEL;
use crate::node::{
    Cell,
    Id,
    Inode,
    Leaf,
    Node,
    desc_eq,
    desc_key,
    lemma_desc_key_injective,
    node_level,
    node_pop,
};
use crate::model::{
    node_ok,
    nodes_ok,
    store_ok,
    store_extends,
    lemma_store_ok_push,
    lemma_store_ok_set_result,
    result_matches,
};

/// The flat description key a node is indexed under.
pub type NodeKey = (u64, u64, u64, u64, u64);

#[verifier::external_type_specification]
#[verifier::external_body]
#[verifier::reject_recursive_types(L)]
#[verifier::reject_recursive_types(R)]
#[verifier::reject_recursive_types(LS)]
#[verifier::reject_recursive_types(RS)]
pub struct ExBiHashMap<L, R, LS, RS>(bimap::BiHashMap<L, R, LS, RS>);

/// The pairs a bidirectional table holds, as a map from left value
/// (identifier) to right value (description key).
pub uninterp spec fn table_pairs(m: bimap::BiHashMap<u64, NodeKey>) -> Map<u64, NodeKey>;

/// Relies on bimap::BiHashMap::new: the new table holds no pairs.
#[verifier::external_body]
fn table_new() -> (m: bimap::BiHashMap<u64, NodeKey>)
    ensures
        forall|k: u64| !table_pairs(m).dom().contains(k),
{
    bimap::BiHashMap::new()
}

/// Relies on bimap::BiHashMap::insert: with neither value present, it adds
/// exactly the given pair and overwrites nothing.
#[verifier::external_body]
fn table_insert(m: &mut bimap::BiHashMap<u64, NodeKey>, l: u64, r: NodeKey)
    requires
        !table_pairs(*old(m)).dom().contains(l),
        forall|k: u64| table_pairs(*old(m)).dom().contains(k) ==> #[trigger] table_pairs(
            *old(m),
        )[k] != r,
    ensures
        table_pairs(*final(m)) == table_pairs(*old(m)).insert(l, r),
{
    m.insert(l, r);
}

/// Relies on bimap::BiHashMap::get_by_right: it returns the left value of
/// the unique pair whose right value equals the key, if there is one.
#[verifier::external_body]
fn table_get_by_right(m: &bimap::BiHashMap<u64, NodeKey>, r: &NodeKey) -> (res: Option<u64>)
    ensures
        match res {
            Some(l) => table_pairs(*m).dom().contains(l) && table_pairs(*m)[l] == *r,
            None => forall|k: u64| table_pairs(*m).dom().contains(k) ==> #[trigger] table_pairs(
                *m,
            )[k] != *r,
        },
{
    m.get_by_right(r).copied()
}

/// The canonicalizing node store.
pub struct NodeStore {
    /// The arena: node `Id(i)` lives at index `i`.
    pub nodes: Vec<Node>,
    /// The canonical index from description key to identifier.
    pub table: bimap::BiHashMap<u64, NodeKey>,
}

impl View for NodeStore {
    type V = Seq<Node>;

    open spec fn view(&self) -> Seq<Node> {
        self.nodes@
    }
}

impl NodeStore {
    /// The index mirrors the arena: it holds exactly one pair per node, from
    /// the node's identifier to its description key.
    pub open spec fn table_ok(self) -> bool {
        &&& forall|k: u64| #[trigger] table_pairs(self.table).dom().contains(k) <==> (k as int)
            < self.nodes@.len()
        &&& forall|i: int| 0 <= i < self.nodes@.len() ==> table_pairs(self.table)[i as u64]
            == desc_key(#[trigger] self.nodes@[i])
    }

    /// Well-formedness: every node is locally well formed, descriptions are
    /// canonically unique, and the index mirrors the arena.
    pub open spec fn wf(self) -> bool {
        &&& store_ok(self@)
        &&& self.table_ok()
    }

    /// An identifier is valid when it addresses a node of the arena.
    pub open spec fn valid(self, id: Id) -> bool {
        id.0 < self@.len()
    }

    pub fn new() -> (r: NodeStore)
        ensures
            r.wf(),
            r@ == Seq::<Node>::empty(),
    {
        let r = NodeStore { nodes: Vec::new(), table: table_new() };
        proof {
            reveal(crate::model::store_canon);
            assert(r@.len() == 0);
        }
        r
    }

    /// The node an identifier denotes.
    pub fn node(&self, id: Id) -> (r: Node)
        requires
            self.valid(id),
        ensures
            r == self@[id.0 as int],
    {
        self.nodes[id.0]
    }

    /// Interns a leaf description: returns the existing identifier of the
    /// leaf with this cell if one exists, else creates it.
    pub fn intern_leaf(&mut self, cell: Cell) -> (r: Id)
        requires
            old(self).wf(),
        ensures
            final(self).wf(),
            store_extends(old(self)@, final(self)@),
            forall|j: int| 0 <= j < old(self)@.len() ==> old(self)@[j] == #[trigger] final(self)@[j],
            old(self)@.len() <= final(self)@.len() <= old(self)@.len() + 1,
            final(self).valid(r),
            final(self)@[r.0 as int] == Node::Leaf(Leaf(cell)),
            (exists|j: int|
                0 <= j < old(self)@.len() && desc_eq(#[trigger] old(self)@[j], Node::Leaf(Leaf(cell))))
                ==> final(self)@ == old(self)@,
    {
        let node = Node::Leaf(Leaf(cell));
        let key: NodeKey = (
            0u64,
            match cell {
                Cell::Alive => 1u64,
                Cell::Dead => 0u64,
            },
            0u64,
            0u64,
            0u64,
        );
        proof {
            assert(key == desc_key(node));
        }
        let arena_len = self.nodes.len();
        match table_get_by_right(&self.table, &key) {
            Some(l) => {
                proof {
                    assert(table_pairs(self.table).dom().contains(l));
                    assert((l as int) < arena_len as int);
                    assert((l as usize) as int == l as int);
                    assert(table_pairs(self.table)[l] == desc_key(self@[l as int]));
                    lemma_desc_key_injective(self@[l as int], node);
                    assert(desc_eq(self@[l as int], node));
                    assert(self@[l as int] == node);
                }
                Id(l as usize)
            },
            None => {
                let id = self.nodes.len();
                proof {
                    assert forall|j: int| 0 <= j < self@.len() implies !desc_eq(
                        #[trigger] self@[j],
                        node,
                    ) by {
                        assert(table_pairs(self.table).dom().contains(j as u64));
                        assert(table_pairs(self.table)[j as u64] == desc_key(self@[j]));
                        if desc_eq(self@[j], node) {
                            assert(desc_key(self@[j]) == key);
                        }
                    }
                    assert(node_ok(old(self)@.push(node), old(self)@.len() as int));
                    lemma_store_ok_push(old(self)@, node);
                    assert(!table_pairs(self.table).dom().contains(id as u64));
                }
                self.nodes.push(node);
                table_insert(&mut self.table, id as u64, key);
                proof {
                    assert forall|k: u64| #[trigger] table_pairs(self.table).dom().contains(k)
                        <==> (k as int) < self.nodes@.len() by {
                        if (k as int) < self.nodes@.len() && k != id as u64 {
                            assert((k as int) < old(self)@.len());
                        }
                    }
                    assert forall|i: int| 0 <= i < self.nodes@.len() implies table_pairs(
                        self.table,
                    )[i as u64] == desc_key(#[trigger] self.nodes@[i]) by {
                        if i < old(self)@.len() {
                            assert(i as u64 != id as u64);
                        }
                    }
                }
                Id(id)
            },
        }
    }

    /// Interns an internal-node description from four already canonical
    /// children of equal level: returns the existing identifier of the node
    /// with these children if one exists, else creates it, computing the
    /// aggregate population from the children.
    pub fn intern_inode(&mut self, nw: Id, ne: Id, sw: Id, se: Id) -> (r: Id)
        requires
            old(self).wf(),
            old(self).valid(nw),
            old(self).valid(ne),
            old(self).valid(sw),
            old(self).valid(se),
            node_level(old(self)@[nw.0 as int]) == node_level(old(self)@[ne.0 as int]),
            node_level(old(self)@[nw.0 as int]) == node_level(old(self)@[sw.0 as int]),
            node_level(old(self)@[nw.0 as int]) == node_level(old(self)@[se.0 as int]),
            node_level(old(self)@[nw.0 as int]) + 1 <= MAX_LEVEL,
        ensures
            final(self).wf(),
            store_extends(old(self)@, final(self)@),
            forall|j: int| 0 <= j < old(self)@.len() ==> old(self)@[j] == #[trigger] final(self)@[j],
            old(self)@.len() <= final(self)@.len() <= old(self)@.len() + 1,
            final(self).valid(r),
            final(self)@[r.0 as int] matches Node::Inode(n) && n.nw == nw && n.ne == ne && n.sw == sw
                && n.se == se && n.level == node_level(old(self)@[nw.0 as int]) + 1
                && n.population == node_pop(old(self)@[nw.0 as int]) + node_pop(
                old(self)@[ne.0 as int],
            ) + node_pop(old(self)@[sw.0 as int]) + node_pop(old(self)@[se.0 as int]),
            (exists|j: int|
                0 <= j < old(self)@.len() && ((#[trigger] old(self)@[j]) matches Node::Inode(m)
                    && m.nw == nw && m.ne == ne && m.sw == sw && m.se == se)) ==> final(self)@ == old(
                self,
            )@,
    {
        let child_level = self.node(nw).level();
        let level = child_level.0 + 1;
        proof {
            lemma_node_pop_bound(self@, nw.0 as int);
            lemma_node_pop_bound(self@, ne.0 as int);
            lemma_node_pop_bound(self@, sw.0 as int);
            lemma_node_pop_bound(self@, se.0 as int);
            lemma_pow2_fits_u128(2 * (child_level.0 as nat));
            lemma_pow2_adds(2, 2 * (child_level.0 as nat));
            lemma2_to64();
            assert(pow2(2 * (level as nat)) == 4 * pow2(2 * (child_level.0 as nat)));
        }
        let population = self.node(nw).population() + self.node(ne).population() + self.node(
            sw,
        ).population() + self.node(se).population();
        let node = Node::Inode(
            Inode { level, population, result: None, nw, ne, sw, se },
        );
        let key: NodeKey = (1u64, nw.0 as u64, ne.0 as u64, sw.0 as u64, se.0 as u64);
        proof {
            assert(key == desc_key(node));
        }
        let arena_len = self.nodes.len();
        match table_get_by_right(&self.table, &key) {
            Some(l) => {
                proof {
                    assert(table_pairs(self.table).dom().contains(l));
                    assert((l as int) < arena_len as int);
                    assert((l as usize) as int == l as int);
                    assert(table_pairs(self.table)[l] == desc_key(self@[l as int]));
                    lemma_desc_key_injective(self@[l as int], node);
                    assert(desc_eq(self@[l as int], node));
                    assert(node_ok(self@, l as int));
                }
                Id(l as usize)
            },
            None => {
                let id = self.nodes.len();
                proof {
                    assert forall|j: int| 0 <= j < self@.len() implies !desc_eq(
                        #[trigger] self@[j],
                        node,
                    ) by {
                        assert(table_pairs(self.table).dom().contains(j as u64));
                        assert(table_pairs(self.table)[j as u64] == desc_key(self@[j]));
                        if desc_eq(self@[j], node) {
                            assert(desc_key(self@[j]) == key);
                        }
                    }
                    assert(node_ok(old(self)@.push(node), old(self)@.len() as int));
                    lemma_store_ok_push(old(self)@, node);
                    assert(!table_pairs(self.table).dom().contains(id as u64));
                }
                self.nodes.push(node);
                table_insert(&mut self.table, id as u64, key);
                proof {
                    assert forall|k: u64| #[trigger] table_pairs(self.table).dom().contains(k)
                        <==> (k as int) < self.nodes@.len() by {
                        if (k as int) < self.nodes@.len() && k != id as u64 {
                            assert((k as int) < old(self)@.len());
                        }
                    }
                    assert forall|i: int| 0 <= i < self.nodes@.len() implies table_pairs(
                        self.table,
                    )[i as u64] == desc_key(#[trigger] self.nodes@[i]) by {
                        if i < old(self)@.len() {
                            assert(i as u64 != id as u64);
                        }
                    }
                }
                Id(id)
            },
        }
    }

    /// Fills in the memoized evolution result of an internal node. The
    /// node's description is unchanged; the result must be correct for it.
    pub fn set_result(&mut self, id: Id, res: Id)
        requires
            old(self).wf(),
            old(self).valid(id),
            old(self).valid(res),
            old(self)@[id.0 as int] matches Node::Inode(n) && n.result is None && 2 <= n.level
                && node_level(old(self)@[res.0 as int]) == n.level - 1 && result_matches(
                old(self)@,
                res.0 as int,
                id.0 as int,
                n.level as nat,
            ),
        ensures
            final(self).wf(),
            store_extends(old(self)@, final(self)@),
            final(self)@.len() == old(self)@.len(),
            final(self)@ == old(self)@.update(
                id.0 as int,
                (match old(self)@[id.0 as int] {
                    Node::Inode(n) => Node::Inode(Inode { result: Some(res), ..n }),
                    Node::Leaf(l) => Node::Leaf(l),
                }),
            ),
            final(self).table == old(self).table,
    {
        let node = self.nodes[id.0];
        match node {
            Node::Inode(n) => {
                proof {
                    lemma_store_ok_set_result(self@, id.0 as int, n, res);
                }
                self.nodes[id.0] = Node::Inode(
                    Inode { result: Some(res), ..n },
                );
                proof {
                    assert forall|i: int| 0 <= i < self.nodes@.len() implies table_pairs(
                        self.table,
                    )[i as u64] == desc_key(#[trigger] self.nodes@[i]) by {
                        assert(table_pairs(self.table)[i as u64] == desc_key(old(self)@[i]));
                    }
                }
            },
            Node::Leaf(_) => {
                proof {
                    assert(false);
                }
            },
        }
    }
}

/// A well-formed node's population never exceeds the area of its region.
pub proof fn lemma_node_pop_bound(s: Seq<Node>, i: int)
    requires
        nodes_ok(s),
        0 <= i < s.len(),
    ensures
        node_pop(s[i]) <= pow2(2 * node_level(s[i])),
{
    assert(node_ok(s, i));
    match s[i] {
        Node::Leaf(_) => {
            assert(pow2(0) == 1) by {
                lemma2_to64();
            }
        },
        Node::Inode(_) => {},
    }
}

/// `pow2` of any exponent up to 127 fits in a `u128`.
pub proof fn lemma_pow2_fits_u128(e: nat)
    requires
        e <= 124,
    ensures
        4 * pow2(e) < 0x1_0000_0000_0000_0000_0000_0000_0000_0000,
{
    lemma2_to64();
    lemma_pow2_adds(2, e);
    vstd::arithmetic::power2::lemma_pow2_strictly_increases((e + 2) as nat, 128);
    lemma_pow2_adds(64, 64);
    lemma2_to64_rest();
    assert(pow2(128) == 0x1_0000_0000_0000_0000_0000_0000_0000_0000);
}

} // verus!
