use vstd::prelude::*;

verus! {

/// A cell of the rectangular grid, addressed by column `x` and row `y`.
#[derive(Clone, Copy, Debug, PartialEq, Eq, Structural)]
pub struct Coord {
    pub x: usize,
    pub y: usize,
}

impl Coord {
    pub fn new(x: usize, y: usize) -> (c: Self)
        ensures
            c.x == x,
            c.y == y,
    {
        Self { x, y }
    }
}

/// The cell lies on the `rows` by `cols` grid.
pub open spec fn in_grid(c: Coord, rows: int, cols: int) -> bool {
    c.x < cols && c.y < rows
}

/// Two cells are 4-adjacent: they differ by one unit in exactly one axis.
pub open spec fn adjacent(a: Coord, b: Coord) -> bool {
    (a.y == b.y && (a.x + 1 == b.x || b.x + 1 == a.x)) || (a.x == b.x && (a.y + 1 == b.y
        || b.y + 1 == a.y))
}

/// The neighbor list of a cell, in the order the library produces it:
/// left, right, up, down, keeping only cells that lie on the grid.
pub open spec fn spec_neighbors(c: Coord, rows: int, cols: int) -> Seq<Coord> {
    (if c.x > 0 {
        seq![Coord { x: (c.x - 1) as usize, y: c.y }]
    } else {
        seq![]
    }) + (if c.x + 1 < cols {
        seq![Coord { x: (c.x + 1) as usize, y: c.y }]
    } else {
        seq![]
    }) + (if c.y > 0 {
        seq![Coord { x: c.x, y: (c.y - 1) as usize }]
    } else {
        seq![]
    }) + (if c.y + 1 < rows {
        seq![Coord { x: c.x, y: (c.y + 1) as usize }]
    } else {
        seq![]
    })
}

/// Returns the up-to-4 grid-adjacent cells of `coord` that lie within
/// bounds, in the order left, right, up, down.
pub fn get_neighbors(coord: Coord, rows: usize, cols: usize) -> (neighbors: Vec<Coord>)
    requires
        rows >= 1,
        cols >= 1,
        in_grid(coord, rows as int, cols as int),
    ensures
        neighbors@ == spec_neighbors(coord, rows as int, cols as int),
{
    let mut neighbors: Vec<Coord> = Vec::new();
    if coord.x > 0 {
        neighbors.push(Coord::new(coord.x - 1, coord.y));
    }
    if coord.x < cols - 1 {
        neighbors.push(Coord::new(coord.x + 1, coord.y));
    }
    if coord.y > 0 {
        neighbors.push(Coord::new(coord.x, coord.y - 1));
    }
    if coord.y < rows - 1 {
        neighbors.push(Coord::new(coord.x, coord.y + 1));
    }
    proof {
        assert(neighbors@ =~= spec_neighbors(coord, rows as int, cols as int));
    }
    neighbors
}

/// The neighbor list is exactly the set of in-bounds cells adjacent to `c`:
/// every entry is adjacent and on the grid, and every adjacent grid cell
/// occurs in the list.
pub proof fn lemma_neighbors_complete(c: Coord, rows: int, cols: int)
    requires
        rows >= 1,
        cols >= 1,
        rows <= usize::MAX,
        cols <= usize::MAX,
        in_grid(c, rows, cols),
    ensures
        forall|i: int|
            0 <= i < spec_neighbors(c, rows, cols).len() ==> in_grid(
                #[trigger] spec_neighbors(c, rows, cols)[i],
                rows,
                cols,
            ) && adjacent(spec_neighbors(c, rows, cols)[i], c),
        forall|n: Coord|
            in_grid(n, rows, cols) && adjacent(n, c) ==> #[trigger] spec_neighbors(
                c,
                rows,
                cols,
            ).contains(n),
{
    let ns = spec_neighbors(c, rows, cols);
    let s1: Seq<Coord> = if c.x > 0 {
        seq![Coord { x: (c.x - 1) as usize, y: c.y }]
    } else {
        seq![]
    };
    let s2: Seq<Coord> = if c.x + 1 < cols {
        seq![Coord { x: (c.x + 1) as usize, y: c.y }]
    } else {
        seq![]
    };
    let s3: Seq<Coord> = if c.y > 0 {
        seq![Coord { x: c.x, y: (c.y - 1) as usize }]
    } else {
        seq![]
    };
    let s4: Seq<Coord> = if c.y + 1 < rows {
        seq![Coord { x: c.x, y: (c.y + 1) as usize }]
    } else {
        seq![]
    };
    assert(ns == s1 + s2 + s3 + s4);
    assert forall|i: int| 0 <= i < ns.len() implies in_grid(ns[i], rows, cols) && adjacent(
        ns[i],
        c,
    ) by {
        if i < s1.len() {
            assert(ns[i] == s1[0]);
            assert(s1[0].x + 1 == c.x && s1[0].y == c.y);
            assert(adjacent(s1[0], c));
        } else if i < s1.len() + s2.len() {
            assert(ns[i] == s2[0]);
            assert(c.x + 1 == s2[0].x && s2[0].y == c.y);
            assert(adjacent(s2[0], c));
        } else if i < s1.len() + s2.len() + s3.len() {
            assert(ns[i] == s3[0]);
            assert(s3[0].y + 1 == c.y && s3[0].x == c.x);
            assert(adjacent(s3[0], c));
        } else {
            assert(ns[i] == s4[0]);
            assert(c.y + 1 == s4[0].y && s4[0].x == c.x);
            assert(adjacent(s4[0], c));
        }
    }
    assert forall|n: Coord| in_grid(n, rows, cols) && adjacent(n, c) implies ns.contains(n) by {
        let left: int = if c.x > 0 {
            1
        } else {
            0
        };
        let right: int = if c.x + 1 < cols {
            1
        } else {
            0
        };
        let up: int = if c.y > 0 {
            1
        } else {
            0
        };
        if n.y == c.y && n.x + 1 == c.x {
            assert(ns[0] == n);
        } else if n.y == c.y && c.x + 1 == n.x {
            assert(ns[left] == n);
        } else if n.x == c.x && n.y + 1 == c.y {
            assert(ns[left + right] == n);
        } else {
            assert(n.x == c.x && c.y + 1 == n.y);
            assert(ns[left + right + up] == n);
        }
    }
}

} // verus!
