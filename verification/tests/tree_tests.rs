use grid_maze::grid::{get_neighbors, Coord};
use grid_maze::tree::{
    create_spanning_tree, dfs_get_max_level, dfs_spanning_tree, IdentityShuffler, ReverseShuffler,
};

/// A small union-find over the grid cells, used to check that the edge
/// list is acyclic and connects everything.
struct UnionFind {
    parent: Vec<usize>,
}

impl UnionFind {
    fn new(n: usize) -> Self {
        Self { parent: (0..n).collect() }
    }

    fn find(&mut self, i: usize) -> usize {
        let mut i = i;
        while self.parent[i] != i {
            i = self.parent[i];
        }
        i
    }

    fn union(&mut self, a: usize, b: usize) -> bool {
        let ra = self.find(a);
        let rb = self.find(b);
        if ra == rb {
            false
        } else {
            self.parent[ra] = rb;
            true
        }
    }
}

fn check_spanning_tree(tree: &Vec<(Coord, Coord)>, rows: usize, cols: usize) {
    assert_eq!(tree.len(), rows * cols - 1);
    let mut uf = UnionFind::new(rows * cols);
    let mut child_seen = vec![false; rows * cols];
    for &(a, b) in tree {
        assert!(a.x < cols && a.y < rows);
        assert!(b.x < cols && b.y < rows);
        let dx = if a.x > b.x { a.x - b.x } else { b.x - a.x };
        let dy = if a.y > b.y { a.y - b.y } else { b.y - a.y };
        assert_eq!(dx + dy, 1, "edge must join 4-adjacent cells");
        let ia = a.x + a.y * cols;
        let ib = b.x + b.y * cols;
        assert!(!child_seen[ib], "cell discovered twice");
        child_seen[ib] = true;
        assert!(uf.union(ia, ib), "edge connects already-connected cells");
    }
    // every cell except the root appears as a child exactly once
    assert!(!child_seen[0]);
    for i in 1..rows * cols {
        assert!(child_seen[i], "cell {} never discovered", i);
    }
    // all cells end up in one component
    let root = uf.find(0);
    for i in 0..rows * cols {
        assert_eq!(uf.find(i), root);
    }
}

#[test]
fn build_3x3_covers_grid() {
    let mut s = IdentityShuffler;
    let tree = dfs_spanning_tree(Coord::new(0, 0), 3, 3, &mut s);
    assert_eq!(tree.len(), 8);
    check_spanning_tree(&tree, 3, 3);
}

#[test]
fn build_3x3_reproducible() {
    let mut s1 = IdentityShuffler;
    let mut s2 = IdentityShuffler;
    let t1 = dfs_spanning_tree(Coord::new(0, 0), 3, 3, &mut s1);
    let t2 = dfs_spanning_tree(Coord::new(0, 0), 3, 3, &mut s2);
    assert_eq!(t1, t2);
    let mut r1 = ReverseShuffler;
    let mut r2 = ReverseShuffler;
    let u1 = dfs_spanning_tree(Coord::new(0, 0), 3, 3, &mut r1);
    let u2 = dfs_spanning_tree(Coord::new(0, 0), 3, 3, &mut r2);
    assert_eq!(u1, u2);
    check_spanning_tree(&u1, 3, 3);
}

#[test]
fn build_identity_order_is_plain_dfs() {
    // with the identity order the walk always goes left, right, up, down;
    // from (0,0) on a 2x2 grid that discovers (1,0), then from (1,0) the
    // cell (1,1), then from (1,1) the cell (0,1)
    let mut s = IdentityShuffler;
    let tree = dfs_spanning_tree(Coord::new(0, 0), 2, 2, &mut s);
    assert_eq!(
        tree,
        vec![
            (Coord::new(0, 0), Coord::new(1, 0)),
            (Coord::new(1, 0), Coord::new(1, 1)),
            (Coord::new(1, 1), Coord::new(0, 1)),
        ]
    );
}

#[test]
fn build_single_cell_grid() {
    let mut s = IdentityShuffler;
    let tree = dfs_spanning_tree(Coord::new(0, 0), 1, 1, &mut s);
    assert_eq!(tree.len(), 0);
}

#[test]
fn build_row_and_column_grids() {
    let mut s = IdentityShuffler;
    let tree = dfs_spanning_tree(Coord::new(0, 0), 1, 5, &mut s);
    check_spanning_tree(&tree, 1, 5);
    let tree = dfs_spanning_tree(Coord::new(0, 0), 5, 1, &mut s);
    check_spanning_tree(&tree, 5, 1);
}

#[test]
fn build_other_start_cell() {
    let mut s = ReverseShuffler;
    let tree = dfs_spanning_tree(Coord::new(2, 1), 4, 3, &mut s);
    assert_eq!(tree.len(), 11);
    // the start cell is never a child
    for &(_, b) in &tree {
        assert!(b != Coord::new(2, 1));
    }
}

#[test]
fn build_random_is_spanning_tree() {
    // runs the real random shuffle: whatever order it picks, the result
    // must still be a spanning tree
    let tree = create_spanning_tree(5, 7);
    check_spanning_tree(&tree, 5, 7);
    let again = create_spanning_tree(5, 7);
    check_spanning_tree(&again, 5, 7);
}

#[test]
fn max_level_is_extent() {
    let mut s = IdentityShuffler;
    let tree = dfs_spanning_tree(Coord::new(0, 0), 3, 3, &mut s);
    let mut max_level = 0;
    dfs_get_max_level(&tree, 0, &mut max_level);
    assert_eq!(max_level, 7);
}

#[test]
fn max_level_from_middle_and_past_end() {
    let mut s = IdentityShuffler;
    let tree = dfs_spanning_tree(Coord::new(0, 0), 3, 3, &mut s);
    let mut max_level = 0;
    dfs_get_max_level(&tree, 3, &mut max_level);
    assert_eq!(max_level, 7);
    let mut past = 42;
    dfs_get_max_level(&tree, 8, &mut past);
    assert_eq!(past, 42);
    let empty: Vec<(Coord, Coord)> = Vec::new();
    let mut untouched = 5;
    dfs_get_max_level(&empty, 0, &mut untouched);
    assert_eq!(untouched, 5);
}

#[test]
fn max_level_keeps_larger_start() {
    let mut s = IdentityShuffler;
    let tree = dfs_spanning_tree(Coord::new(0, 0), 3, 3, &mut s);
    let mut max_level = 100;
    dfs_get_max_level(&tree, 0, &mut max_level);
    assert_eq!(max_level, 100);
}

#[test]
fn neighbors_of_corner_and_center() {
    let corner = get_neighbors(Coord::new(0, 0), 3, 3);
    assert_eq!(corner, vec![Coord::new(1, 0), Coord::new(0, 1)]);
    let center = get_neighbors(Coord::new(1, 1), 3, 3);
    assert_eq!(
        center,
        vec![Coord::new(0, 1), Coord::new(2, 1), Coord::new(1, 0), Coord::new(1, 2)]
    );
    let lone = get_neighbors(Coord::new(0, 0), 1, 1);
    assert_eq!(lone.len(), 0);
}

#[test]
fn coord_new_sets_fields() {
    let c = Coord::new(3, 9);
    assert_eq!(c.x, 3);
    assert_eq!(c.y, 9);
}
