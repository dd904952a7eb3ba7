//! Node model: a cell, a leaf node, an internal node with four children,
//! and the integer identifier that the node store hands out.

use vstd::prelude::*;

verus! {

/// The binary state of a single grid cell.
#[derive(Debug, Copy, Clone, PartialEq, Eq, Structural)]
pub enum Cell {
    Dead,
    Alive,
}

/// A level-0 node: a single cell.
#[derive(Debug, Copy, Clone, PartialEq, Eq, Structural)]
pub struct Leaf(pub Cell);

/// Canonical identifier of a node in the node store.
#[derive(Debug, Copy, Clone, PartialEq, Eq, Structural)]
pub struct Id(pub usize);

/// An internal node: four children one level down, the cached aggregate
/// population, and the memoized evolution result once it has been computed.
#[derive(Debug, Copy, Clone)]
pub struct Inode {
    pub level: u8,
    pub population: u128,
    pub result: Option<Id>,
    pub nw: Id,
    pub ne: Id,
    pub sw: Id,
    pub se: Id,
}

/// A node: either a single cell or an internal node.
#[derive(Debug, Copy, Clone)]
pub enum Node {
    Leaf(Leaf),
    Inode(Inode),
}

impl Leaf {
    pub fn new(cell: Cell) -> (r: Self)
        ensures
            r.0 == cell,
    {
        Leaf(cell)
    }

    /// Whether this leaf's cell is alive.
    pub fn alive(self) -> (r: bool)
        ensures
            r == (self.0 is Alive),
    {
        match self.0 {
            Cell::Dead => false,
            Cell::Alive => true,
        }
    }
}

/// The level of a node: 0 for a leaf, the stored level for an internal node.
pub open spec fn node_level(n: Node) -> nat {
    match n {
        Node::Leaf(_) => 0,
        Node::Inode(i) => i.level as nat,
    }
}

/// The population of a node: 0 or 1 for a leaf, the cached aggregate for an
/// internal node.
pub open spec fn node_pop(n: Node) -> nat {
    match n {
        Node::Leaf(l) => if l.0 is Alive {
            1
        } else {
            0
        },
        Node::Inode(i) => i.population as nat,
    }
}

impl Node {
    /// Number of live cells in the region this node represents.
    pub fn population(&self) -> (r: u128)
        ensures
            r == node_pop(*self),
    {
        match self {
            Node::Inode(i) => i.population,
            Node::Leaf(l) => match l.0 {
                Cell::Dead => 0,
                Cell::Alive => 1,
            },
        }
    }

    /// The level of this node.
    pub fn level(&self) -> (r: crate::coords::Level)
        ensures
            r.0 == node_level(*self),
    {
        match self {
            Node::Inode(i) => crate::coords::Level(i.level),
            Node::Leaf(_) => crate::coords::Level(crate::coords::LEAF_LEVEL),
        }
    }
}

/// Structural equality of node descriptions: the same cell for leaves, the
/// same four child identifiers for internal nodes. The cached population and
/// the memoized result are derived data and take no part in it.
pub open spec fn desc_eq(a: Node, b: Node) -> bool {
    match (a, b) {
        (Node::Leaf(la), Node::Leaf(lb)) => la.0 == lb.0,
        (Node::Inode(ia), Node::Inode(ib)) => ia.nw == ib.nw && ia.ne == ib.ne && ia.sw == ib.sw
            && ia.se == ib.se,
        _ => false,
    }
}

/// Equality of everything except the memoized result: the node store never
/// changes a node's description once created, only fills in its result.
pub open spec fn same_but_result(a: Node, b: Node) -> bool {
    match (a, b) {
        (Node::Leaf(la), Node::Leaf(lb)) => la == lb,
        (Node::Inode(ia), Node::Inode(ib)) => ia.level == ib.level && ia.population
            == ib.population && ia.nw == ib.nw && ia.ne == ib.ne && ia.sw == ib.sw && ia.se
            == ib.se,
        _ => false,
    }
}

/// The flat key a node description is indexed under in the canonical table.
pub open spec fn desc_key(n: Node) -> (u64, u64, u64, u64, u64) {
    match n {
        Node::Leaf(l) => (
            0u64,
            if l.0 is Alive {
                1u64
            } else {
                0u64
            },
            0u64,
            0u64,
            0u64,
        ),
        Node::Inode(i) => (1u64, i.nw.0 as u64, i.ne.0 as u64, i.sw.0 as u64, i.se.0 as u64),
    }
}

/// Two nodes whose description keys coincide have equal descriptions.
pub proof fn lemma_desc_key_injective(a: Node, b: Node)
    requires
        desc_key(a) == desc_key(b),
    ensures
        desc_eq(a, b),
{
}

} // verus!
