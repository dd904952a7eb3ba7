use hashlife::coords::{Level, Position, Quadrant};
use hashlife::node::{Cell, Id, Leaf, Node};
use hashlife::store::NodeStore;
use hashlife::universe::Universe;

fn blinker_universe() -> Universe {
    let mut u = Universe::new();
    u.initilaize();
    u.set_cell(Position::new(0, 0), Cell::Alive);
    u.set_cell(Position::new(1, 0), Cell::Alive);
    u.set_cell(Position::new(-1, 0), Cell::Alive);
    u
}

/// One generation of the fixed rule on a plain array, for comparison.
fn naive_step(grid: &Vec<Vec<bool>>) -> Vec<Vec<bool>> {
    let h = grid.len();
    let w = grid[0].len();
    let mut out = vec![vec![false; w]; h];
    for y in 0..h {
        for x in 0..w {
            let mut count = 0;
            for dy in 0..3 {
                for dx in 0..3 {
                    if dx == 1 && dy == 1 {
                        continue;
                    }
                    let nx = x as i64 + dx as i64 - 1;
                    let ny = y as i64 + dy as i64 - 1;
                    if nx >= 0 && ny >= 0 && (nx as usize) < w && (ny as usize) < h {
                        if grid[ny as usize][nx as usize] {
                            count += 1;
                        }
                    }
                }
            }
            out[y][x] = count == 3 || (count == 2 && grid[y][x]);
        }
    }
    out
}

#[test]
fn canonical_leaf_interning() {
    let mut s = NodeStore::new();
    let a = s.intern_leaf(Cell::Alive);
    let b = s.intern_leaf(Cell::Alive);
    let c = s.intern_leaf(Cell::Dead);
    let d = s.intern_leaf(Cell::Dead);
    assert_eq!(a, b);
    assert_eq!(c, d);
    assert_ne!(a, c);
}

#[test]
fn canonical_inode_interning() {
    let mut s = NodeStore::new();
    let a = s.intern_leaf(Cell::Alive);
    let d = s.intern_leaf(Cell::Dead);
    let n1 = s.intern_inode(a, d, d, d);
    let n2 = s.intern_inode(a, d, d, d);
    let n3 = s.intern_inode(d, a, d, d);
    assert_eq!(n1, n2);
    assert_ne!(n1, n3);
}

#[test]
fn population_sums_to_children() {
    let mut s = NodeStore::new();
    let a = s.intern_leaf(Cell::Alive);
    let d = s.intern_leaf(Cell::Dead);
    let q1 = s.intern_inode(a, a, d, d);
    let q2 = s.intern_inode(a, d, d, d);
    let q3 = s.intern_inode(d, d, d, d);
    let top = s.intern_inode(q1, q2, q3, q1);
    assert_eq!(s.node(q1).population(), 2);
    assert_eq!(s.node(q2).population(), 1);
    assert_eq!(s.node(q3).population(), 0);
    assert_eq!(
        s.node(top).population(),
        s.node(q1).population()
            + s.node(q2).population()
            + s.node(q3).population()
            + s.node(q1).population()
    );
}

#[test]
fn leaf_and_node_accessors() {
    let leaf = Leaf::new(Cell::Alive);
    assert!(leaf.alive());
    assert!(!Leaf::new(Cell::Dead).alive());
    let n = Node::Leaf(leaf);
    assert_eq!(n.population(), 1);
    assert_eq!(n.level(), Level(0));
}

#[test]
fn set_then_get_round_trip() {
    let mut u = Universe::new();
    u.initilaize();
    assert_eq!(u.get_cell(Position::new(2, -3)), Cell::Dead);
    u.set_cell(Position::new(2, -3), Cell::Alive);
    assert_eq!(u.get_cell(Position::new(2, -3)), Cell::Alive);
    // untouched positions stay dead
    assert_eq!(u.get_cell(Position::new(-2, 3)), Cell::Dead);
    assert_eq!(u.get_cell(Position::new(3, -3)), Cell::Dead);
    // overwriting with Dead clears the cell
    u.set_cell(Position::new(2, -3), Cell::Dead);
    assert_eq!(u.get_cell(Position::new(2, -3)), Cell::Dead);
}

#[test]
fn set_out_of_bounds_grows_the_root() {
    let mut u = Universe::new();
    u.initilaize();
    u.set_cell(Position::new(100, -57), Cell::Alive);
    assert_eq!(u.get_cell(Position::new(100, -57)), Cell::Alive);
    assert_eq!(u.get_cell(Position::new(100, -58)), Cell::Dead);
}

#[test]
fn growth_preserves_every_cell() {
    let mut u = blinker_universe();
    let before: Vec<Cell> = (-4..4)
        .flat_map(|y| (-4..4).map(move |x| (x, y)))
        .map(|(x, y)| u.get_cell(Position::new(x, y)))
        .collect();
    u.expand();
    u.expand();
    let after: Vec<Cell> = (-4..4)
        .flat_map(|y| (-4..4).map(move |x| (x, y)))
        .map(|(x, y)| u.get_cell(Position::new(x, y)))
        .collect();
    assert_eq!(before, after);
}

#[test]
fn blinker_oscillates() {
    let mut u = blinker_universe();
    u.evolve();
    // after one generation the blinker points up-down
    assert_eq!(u.get_cell(Position::new(0, -1)), Cell::Alive);
    assert_eq!(u.get_cell(Position::new(0, 0)), Cell::Alive);
    assert_eq!(u.get_cell(Position::new(0, 1)), Cell::Alive);
    assert_eq!(u.get_cell(Position::new(-1, 0)), Cell::Dead);
    assert_eq!(u.get_cell(Position::new(1, 0)), Cell::Dead);
    u.evolve();
    // and back after two
    assert_eq!(u.get_cell(Position::new(-1, 0)), Cell::Alive);
    assert_eq!(u.get_cell(Position::new(0, 0)), Cell::Alive);
    assert_eq!(u.get_cell(Position::new(1, 0)), Cell::Alive);
    assert_eq!(u.get_cell(Position::new(0, -1)), Cell::Dead);
    assert_eq!(u.get_cell(Position::new(0, 1)), Cell::Dead);
    assert_eq!(u.generation, 2);
}

#[test]
fn evolution_agrees_with_naive_simulation() {
    // an r-pentomino-like seed, compared cell for cell against a plain
    // array simulation over several generations
    let seed = [(0i64, -1i64), (1, -1), (-1, 0), (0, 0), (0, 1)];
    let mut u = Universe::new();
    u.initilaize();
    let half: i64 = 16;
    let side = (2 * half) as usize;
    let mut grid = vec![vec![false; side]; side];
    for (x, y) in seed.iter() {
        u.set_cell(Position::new(*x, *y), Cell::Alive);
        grid[(y + half) as usize][(x + half) as usize] = true;
    }
    for _gen in 0..6 {
        u.evolve();
        grid = naive_step(&grid);
        for y in -10..10i64 {
            for x in -10..10i64 {
                let expect = grid[(y + half) as usize][(x + half) as usize];
                let got = u.get_cell(Position::new(x, y)) == Cell::Alive;
                assert_eq!(got, expect, "mismatch at ({}, {})", x, y);
            }
        }
    }
}

#[test]
fn memoized_result_is_identical_on_second_evolution() {
    let mut u = blinker_universe();
    // grow so the root has padding, then evolve the same node twice
    u.expand();
    u.expand();
    let root = u.root.unwrap();
    let len_before_first = u.store.nodes.len();
    let r1 = u.store.evolve_tree(root);
    let len_after_first = u.store.nodes.len();
    assert!(len_after_first >= len_before_first);
    let r2 = u.store.evolve_tree(root);
    let len_after_second = u.store.nodes.len();
    // the identical cached result both times, with no new nodes created
    assert_eq!(r1, r2);
    assert_eq!(len_after_first, len_after_second);
}

#[test]
fn all_dead_node_evolves_to_canonical_all_dead() {
    let mut s = NodeStore::new();
    let empty4 = s.new_empty_tree(4);
    let empty3 = s.new_empty_tree(3);
    let len_before = s.nodes.len();
    let r = s.evolve_tree(empty4);
    // the canonical all-dead node one level down, with nothing recomputed
    assert_eq!(r, empty3);
    assert_eq!(s.nodes.len(), len_before);
    assert_eq!(s.node(r).population(), 0);
    assert_eq!(s.node(r).level(), Level(3));
}

#[test]
fn level_geometry() {
    assert_eq!(Level::new(0).side_len(), 1);
    assert_eq!(Level::new(3).side_len(), 8);
    assert_eq!(Level::new(3).min_coord(), -4);
    assert_eq!(Level::new(3).max_coord(), 3);
    let range = Level::new(3).coord_range();
    assert_eq!(range.start, -4);
    assert_eq!(range.end, 4);
    assert_eq!(Level::new(3).min_pos(), Position::new(-4, -4));
    assert_eq!(Level::new(3).max_pos(), Position::new(3, 3));
    assert_eq!(Level::new(2).max_steps(), 1);
    assert_eq!(Level::new(5).max_steps(), 8);
    let c = Level::new(4).quadrant_center(Quadrant::NorthEast);
    assert_eq!(c, Position::new(4, -4));
    let c = Level::new(4).quadrant_center(Quadrant::SouthWest);
    assert_eq!(c, Position::new(-4, 4));
}

#[test]
fn position_quadrants_and_bounds() {
    assert_eq!(Position::new(-1, -1).quadrant(), Quadrant::NorthWest);
    assert_eq!(Position::new(0, -1).quadrant(), Quadrant::NorthEast);
    assert_eq!(Position::new(-1, 0).quadrant(), Quadrant::SouthWest);
    assert_eq!(Position::new(0, 0).quadrant(), Quadrant::SouthEast);
    assert!(Position::new(3, -4).in_bounds(Level::new(3)));
    assert!(!Position::new(4, 0).in_bounds(Level::new(3)));
    assert!(!Position::new(0, -5).in_bounds(Level::new(3)));
    let p = Position::new(5, -2).relative_to(Position::new(2, 2));
    assert_eq!(p, Position::new(3, -4));
    let o = hashlife::coords::Offset::new(2, -7);
    assert_eq!(o.dx, 2);
    assert_eq!(o.dy, -7);
    let _ = Id(0);
}

#[test]
fn fresh_universe_is_all_dead() {
    let mut u = Universe::new();
    assert_eq!(u.generation, 0);
    u.initilaize();
    for y in -4..4i64 {
        for x in -4..4i64 {
            assert_eq!(u.get_cell(Position::new(x, y)), Cell::Dead);
        }
    }
}

#[test]
fn edits_never_remove_nodes_and_old_roots_persist() {
    let mut u = blinker_universe();
    let old_root = u.root.unwrap();
    let len_before = u.store.nodes.len();
    u.set_cell(Position::new(2, 2), Cell::Alive);
    assert!(u.store.nodes.len() >= len_before);
    // the pre-edit root still denotes the pre-edit grid, untouched
    assert_eq!(u.store.get_tree_cell(old_root, Position::new(2, 2)), Cell::Dead);
    assert_eq!(u.store.get_tree_cell(old_root, Position::new(0, 0)), Cell::Alive);
    let len_mid = u.store.nodes.len();
    u.evolve();
    assert!(u.store.nodes.len() >= len_mid);
    assert_eq!(u.store.get_tree_cell(old_root, Position::new(1, 0)), Cell::Alive);
}

#[test]
fn cell_write_allocates_at_most_one_node_per_level() {
    let mut u = Universe::new();
    u.initilaize();
    // the root keeps level 3 for an in-bounds write, so the path rebuild may
    // intern at most level + 1 nodes
    let len_before = u.store.nodes.len();
    u.set_cell(Position::new(1, -2), Cell::Alive);
    assert!(u.store.nodes.len() <= len_before + 4);
}
