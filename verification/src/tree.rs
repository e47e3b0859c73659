use crate::grid::{adjacent, get_neighbors, in_grid, lemma_neighbors_complete, spec_neighbors, Coord};
use rand::seq::SliceRandom;
use vstd::math::abs;
use vstd::prelude::*;

verus! {

broadcast use vstd::seq_lib::group_to_multiset_ensures;

/// The cell occurs as the child of some edge of the list.
pub open spec fn is_child(tree: Seq<(Coord, Coord)>, c: Coord) -> bool {
    exists|i: int| 0 <= i < tree.len() && tree[i].1 == c
}

/// A cell the traversal has reached: the start cell, or a discovered child.
pub open spec fn discovered(tree: Seq<(Coord, Coord)>, start: Coord, c: Coord) -> bool {
    c == start || is_child(tree, c)
}

/// The edge list is a spanning-tree prefix rooted at `start`: every edge
/// joins two adjacent grid cells, its parent was discovered before the edge
/// was appended, and its child was new at that point. In particular no edge
/// ever connects two already-connected cells, so the list is acyclic, and
/// every child is discovered exactly once.
pub open spec fn tree_wf(tree: Seq<(Coord, Coord)>, start: Coord, rows: int, cols: int) -> bool {
    forall|i: int|
        0 <= i < tree.len() ==> {
            let e = #[trigger] tree[i];
            &&& in_grid(e.0, rows, cols)
            &&& in_grid(e.1, rows, cols)
            &&& adjacent(e.0, e.1)
            &&& e.1 != start
            &&& discovered(tree.take(i), start, e.0)
            &&& !is_child(tree.take(i), e.1)
        }
}

/// In a well-formed edge list no cell appears as a child twice.
pub proof fn lemma_children_unique(tree: Seq<(Coord, Coord)>, start: Coord, rows: int, cols: int)
    requires
        tree_wf(tree, start, rows, cols),
    ensures
        forall|i: int, j: int|
            0 <= i < j < tree.len() ==> (#[trigger] tree[i]).1 != (#[trigger] tree[j]).1,
{
    assert forall|i: int, j: int| 0 <= i < j < tree.len() implies (#[trigger] tree[i]).1 != (
    #[trigger] tree[j]).1 by {
        assert(tree.take(j)[i] == tree[i]);
        assert(!is_child(tree.take(j), tree[j].1));
    }
}

/// Appending an edge discovers exactly its child, and nothing else.
proof fn lemma_child_push(tree: Seq<(Coord, Coord)>, e: (Coord, Coord), c: Coord)
    ensures
        is_child(tree.push(e), c) <==> (is_child(tree, c) || e.1 == c),
{
    assert(tree.push(e)[tree.len() as int] == e);
    if is_child(tree, c) {
        let i = choose|i: int| 0 <= i < tree.len() && tree[i].1 == c;
        assert(tree.push(e)[i] == tree[i]);
    }
    if is_child(tree.push(e), c) && e.1 != c {
        let i = choose|i: int| 0 <= i < tree.push(e).len() && tree.push(e)[i].1 == c;
        assert(tree.push(e)[i].1 == c);
        assert(i < tree.len());
        assert(tree[i].1 == c);
    }
}

/// How many cells of the flat visited matrix are still unvisited.
pub open spec fn count_false(v: Seq<bool>) -> nat
    decreases v.len(),
{
    if v.len() == 0 {
        0
    } else {
        count_false(v.drop_last()) + (if v.last() {
            0nat
        } else {
            1nat
        })
    }
}

/// Marking one unvisited cell lowers the unvisited count by exactly one.
proof fn lemma_count_false_update(v: Seq<bool>, i: int)
    requires
        0 <= i < v.len(),
        !v[i],
    ensures
        count_false(v.update(i, true)) + 1 == count_false(v),
    decreases v.len(),
{
    let v2 = v.update(i, true);
    if i == v.len() - 1 {
        assert(v2.drop_last() =~= v.drop_last());
        assert(v2.last());
    } else {
        assert(v2.drop_last() =~= v.drop_last().update(i, true));
        assert(v2.last() == v.last());
        lemma_count_false_update(v.drop_last(), i);
    }
}

/// A matrix with every cell visited has unvisited count zero.
proof fn lemma_count_false_zero(v: Seq<bool>)
    requires
        forall|i: int| 0 <= i < v.len() ==> v[i],
    ensures
        count_false(v) == 0,
    decreases v.len(),
{
    if v.len() > 0 {
        lemma_count_false_zero(v.drop_last());
    }
}

/// The grid is connected under 4-adjacency: any set of cells that contains
/// `start` and is closed under taking in-bounds neighbors contains every
/// cell. Walking the axes one unit at a time reaches `c` from `start`.
proof fn lemma_grid_connected(
    tree: Seq<(Coord, Coord)>,
    start: Coord,
    rows: int,
    cols: int,
    c: Coord,
)
    requires
        1 <= rows <= usize::MAX,
        1 <= cols <= usize::MAX,
        in_grid(start, rows, cols),
        in_grid(c, rows, cols),
        forall|d: Coord, m: Coord|
            discovered(tree, start, d) && in_grid(d, rows, cols) && in_grid(m, rows, cols)
                && #[trigger] adjacent(m, d) ==> #[trigger] discovered(tree, start, m),
    ensures
        discovered(tree, start, c),
    decreases abs(c.x as int - start.x as int) + abs(c.y as int - start.y as int),
{
    if c == start {
    } else {
        let d: Coord = if c.x < start.x {
            Coord { x: (c.x + 1) as usize, y: c.y }
        } else if c.x > start.x {
            Coord { x: (c.x - 1) as usize, y: c.y }
        } else if c.y < start.y {
            Coord { x: c.x, y: (c.y + 1) as usize }
        } else {
            Coord { x: c.x, y: (c.y - 1) as usize }
        };
        assert(in_grid(d, rows, cols));
        assert(adjacent(c, d));
        lemma_grid_connected(tree, start, rows, cols, d);
    }
}

/// A source of neighbor orderings, the only freedom the builder has. An
/// implementation may permute the list any way it likes, but must hand back
/// exactly the same cells.
pub trait Shuffler {
    fn shuffle(&mut self, cells: &mut Vec<Coord>)
        ensures
            final(cells)@.to_multiset() == old(cells)@.to_multiset(),
    ;
}

/// Leaves the neighbor order untouched: a deterministic order source, so
/// that the builder can be exercised reproducibly.
pub struct IdentityShuffler;

impl Shuffler for IdentityShuffler {
    fn shuffle(&mut self, cells: &mut Vec<Coord>) {
    }
}

/// Reverses the neighbor order: a second deterministic order source.
pub struct ReverseShuffler;

impl Shuffler for ReverseShuffler {
    fn shuffle(&mut self, cells: &mut Vec<Coord>) {
        let mut out: Vec<Coord> = Vec::new();
        let mut i = cells.len();
        while i > 0
            invariant
                i <= cells@.len(),
                out@.len() == cells@.len() - i,
                forall|j: int| 0 <= j < out@.len() ==> out@[j] == cells@[cells@.len() - 1 - j],
            decreases i,
        {
            i = i - 1;
            out.push(cells[i]);
        }
        proof {
            assert(out@ =~= cells@.reverse());
            cells@.lemma_reverse_to_multiset();
        }
        *cells = out;
    }
}

/// A stack frame of the iterative depth-first walk: the cell, its shuffled
/// neighbor list, and how many of those neighbors were already handled.
/// The frame's cell is a discovered grid cell, its list holds exactly the
/// cell's neighbors, and every handled neighbor is discovered.
spec fn frame_wf(
    f: (Coord, Vec<Coord>, usize),
    tree: Seq<(Coord, Coord)>,
    start: Coord,
    rows: int,
    cols: int,
) -> bool {
    &&& in_grid(f.0, rows, cols)
    &&& discovered(tree, start, f.0)
    &&& f.2 <= f.1@.len()
    &&& f.1@.to_multiset() == spec_neighbors(f.0, rows, cols).to_multiset()
    &&& forall|j: int| 0 <= j < f.2 ==> discovered(tree, start, #[trigger] f.1@[j])
}

/// The cell sits in some frame of the stack.
spec fn on_stack(st: Seq<(Coord, Vec<Coord>, usize)>, c: Coord) -> bool {
    exists|k: int| 0 <= k < st.len() && (#[trigger] st[k]).0 == c
}

/// Neighbors a frame has not handled yet.
spec fn frame_pending(f: (Coord, Vec<Coord>, usize)) -> nat {
    if f.2 <= f.1@.len() {
        (f.1@.len() - f.2) as nat
    } else {
        0
    }
}

/// Total neighbors still to handle across the stack.
spec fn pending(st: Seq<(Coord, Vec<Coord>, usize)>) -> nat
    decreases st.len(),
{
    if st.len() == 0 {
        0
    } else {
        pending(st.drop_last()) + frame_pending(st.last())
    }
}

/// The flat row-major visited matrix marks exactly the discovered cells.
spec fn visited_matches(
    v: Seq<bool>,
    tree: Seq<(Coord, Coord)>,
    start: Coord,
    rows: int,
    cols: int,
) -> bool {
    forall|c: Coord|
        #[trigger] in_grid(c, rows, cols) ==> v[c.x + c.y * cols] == discovered(tree, start, c)
}

/// Away from the stack the discovered region is closed: every neighbor of
/// a discovered cell that sits in no frame is itself discovered.
spec fn closed_off_stack(
    tree: Seq<(Coord, Coord)>,
    start: Coord,
    st: Seq<(Coord, Vec<Coord>, usize)>,
    rows: int,
    cols: int,
) -> bool {
    forall|d: Coord, m: Coord|
        discovered(tree, start, d) && in_grid(d, rows, cols) && !on_stack(st, d) && in_grid(
            m,
            rows,
            cols,
        ) && #[trigger] adjacent(m, d) ==> #[trigger] discovered(tree, start, m)
}

/// Appending an edge keeps every frame well formed.
proof fn lemma_frame_wf_push(
    f: (Coord, Vec<Coord>, usize),
    tree: Seq<(Coord, Coord)>,
    e: (Coord, Coord),
    start: Coord,
    rows: int,
    cols: int,
)
    requires
        frame_wf(f, tree, start, rows, cols),
    ensures
        frame_wf(f, tree.push(e), start, rows, cols),
{
    lemma_child_push(tree, e, f.0);
    assert forall|j: int| 0 <= j < f.2 implies discovered(tree.push(e), start, #[trigger] f.1@[j]) by {
        lemma_child_push(tree, e, f.1@[j]);
    }
}

/// A frame's list holds true neighbors of its cell, and all of them.
proof fn lemma_frame_neighbors(f: (Coord, Vec<Coord>, usize), rows: int, cols: int)
    requires
        1 <= rows <= usize::MAX,
        1 <= cols <= usize::MAX,
        in_grid(f.0, rows, cols),
        f.1@.to_multiset() == spec_neighbors(f.0, rows, cols).to_multiset(),
    ensures
        forall|j: int|
            0 <= j < f.1@.len() ==> in_grid(#[trigger] f.1@[j], rows, cols) && adjacent(
                f.1@[j],
                f.0,
            ),
        forall|m: Coord|
            in_grid(m, rows, cols) && adjacent(m, f.0) ==> exists|j: int|
                0 <= j < f.1@.len() && #[trigger] f.1@[j] == m,
{
    lemma_neighbors_complete(f.0, rows, cols);
    let ns = spec_neighbors(f.0, rows, cols);
    assert forall|j: int| 0 <= j < f.1@.len() implies in_grid(#[trigger] f.1@[j], rows, cols)
        && adjacent(f.1@[j], f.0) by {
        assert(f.1@.contains(f.1@[j]));
        assert(f.1@.to_multiset().count(f.1@[j]) > 0);
        assert(ns.contains(f.1@[j]));
        let i = choose|i: int| 0 <= i < ns.len() && ns[i] == f.1@[j];
        assert(in_grid(ns[i], rows, cols) && adjacent(ns[i], f.0));
    }
    assert forall|m: Coord| in_grid(m, rows, cols) && adjacent(m, f.0) implies exists|j: int|
        0 <= j < f.1@.len() && #[trigger] f.1@[j] == m by {
        assert(ns.contains(m));
        assert(ns.to_multiset().count(m) > 0);
        assert(f.1@.contains(m));
        let j = choose|j: int| 0 <= j < f.1@.len() && f.1@[j] == m;
        assert(f.1@[j] == m);
    }
}

/// Relies on `rand`'s `SliceRandom::shuffle`: it permutes the slice in
/// place, uniformly at random, keeping exactly the same elements.
#[verifier::external_body]
fn shuffle_with_thread_rng(cells: &mut Vec<Coord>)
    ensures
        final(cells)@.to_multiset() == old(cells)@.to_multiset(),
{
    cells.shuffle(&mut rand::thread_rng());
}

/// Shuffles with the thread-local generator of the `rand` crate: the order
/// source used for actual maze generation.
pub struct RandShuffler;

impl Shuffler for RandShuffler {
    fn shuffle(&mut self, cells: &mut Vec<Coord>) {
        shuffle_with_thread_rng(cells);
    }
}

/// A fully unvisited matrix has unvisited count equal to its size.
proof fn lemma_count_false_all(v: Seq<bool>)
    requires
        forall|i: int| 0 <= i < v.len() ==> !(#[trigger] v[i]),
    ensures
        count_false(v) == v.len(),
    decreases v.len(),
{
    if v.len() > 0 {
        lemma_count_false_all(v.drop_last());
    }
}

/// The stack after handling one neighbor and descending into it.
spec fn stack_after_descend(
    st0: Seq<(Coord, Vec<Coord>, usize)>,
    cell: Coord,
    ns: Vec<Coord>,
    idx: usize,
    nb: Coord,
    nns: Vec<Coord>,
) -> Seq<(Coord, Vec<Coord>, usize)> {
    st0.drop_last().push((cell, ns, (idx + 1) as usize)).push((nb, nns, 0usize))
}

/// The stack after handling one already-discovered neighbor.
spec fn stack_after_skip(
    st0: Seq<(Coord, Vec<Coord>, usize)>,
    cell: Coord,
    ns: Vec<Coord>,
    idx: usize,
) -> Seq<(Coord, Vec<Coord>, usize)> {
    st0.drop_last().push((cell, ns, (idx + 1) as usize))
}

/// Appending a freshly discovered edge keeps the edge list well formed.
proof fn lemma_tree_push_wf(
    t0: Seq<(Coord, Coord)>,
    cell: Coord,
    nb: Coord,
    start: Coord,
    r: int,
    co: int,
)
    requires
        tree_wf(t0, start, r, co),
        in_grid(cell, r, co),
        in_grid(nb, r, co),
        adjacent(cell, nb),
        discovered(t0, start, cell),
        !discovered(t0, start, nb),
    ensures
        tree_wf(t0.push((cell, nb)), start, r, co),
{
    let e = (cell, nb);
    let t1 = t0.push(e);
    assert(t1[t0.len() as int] == e);
    assert forall|i2: int| 0 <= i2 < t1.len() implies {
        let e2 = #[trigger] t1[i2];
        &&& in_grid(e2.0, r, co)
        &&& in_grid(e2.1, r, co)
        &&& adjacent(e2.0, e2.1)
        &&& e2.1 != start
        &&& discovered(t1.take(i2), start, e2.0)
        &&& !is_child(t1.take(i2), e2.1)
    } by {
        if i2 < t0.len() {
            assert(t1[i2] == t0[i2]);
            assert(t1.take(i2) =~= t0.take(i2));
        } else {
            assert(t1[i2] == e);
            assert(t1.take(i2) =~= t0);
        }
    }
}

/// Marking the discovered cell keeps the visited matrix in step with the
/// discovered region.
proof fn lemma_visited_update(
    t0: Seq<(Coord, Coord)>,
    v0: Seq<bool>,
    cell: Coord,
    nb: Coord,
    start: Coord,
    r: int,
    co: int,
)
    requires
        1 <= r <= usize::MAX,
        1 <= co <= usize::MAX,
        v0.len() == r * co,
        visited_matches(v0, t0, start, r, co),
        in_grid(nb, r, co),
        !discovered(t0, start, nb),
    ensures
        0 <= nb.x + nb.y * co < v0.len(),
        !v0[nb.x + nb.y * co],
        visited_matches(
            v0.update(nb.x + nb.y * co, true),
            t0.push((cell, nb)),
            start,
            r,
            co,
        ),
        count_false(v0.update(nb.x + nb.y * co, true)) + 1 == count_false(v0),
{
    assert(co * r == r * co) by (nonlinear_arith);
    crate::raster::lemma_coord_index(co, r, nb.x as int, nb.y as int);
    let e = (cell, nb);
    let t1 = t0.push(e);
    let ni = nb.x + nb.y * co;
    let v1 = v0.update(ni, true);
    assert(!v0[ni]);
    assert(t1[t0.len() as int] == e);
    assert forall|c: Coord| #[trigger] in_grid(c, r, co) implies v1[c.x + c.y * co] == discovered(
        t1,
        start,
        c,
    ) by {
        crate::raster::lemma_coord_index(co, r, c.x as int, c.y as int);
        lemma_child_push(t0, e, c);
        if c.x + c.y * co == ni {
            assert(c.x == ni % co && c.y == ni / co);
            assert(nb.x == ni % co && nb.y == ni / co);
            assert(c == nb);
            assert(v1[ni] == true);
            assert(is_child(t1, nb));
        } else {
            assert(c != nb);
            assert(v1[c.x + c.y * co] == v0[c.x + c.y * co]);
        }
    }
    lemma_count_false_update(v0, ni);
}

/// After descending into the discovered cell, every stack frame is well
/// formed against the extended edge list.
proof fn lemma_frames_after_descend(
    st0: Seq<(Coord, Vec<Coord>, usize)>,
    t0: Seq<(Coord, Coord)>,
    cell: Coord,
    ns: Vec<Coord>,
    idx: usize,
    nb: Coord,
    nns: Vec<Coord>,
    start: Coord,
    r: int,
    co: int,
)
    requires
        forall|k: int| 0 <= k < st0.len() ==> frame_wf(#[trigger] st0[k], t0, start, r, co),
        st0.len() > 0,
        st0.last() == (cell, ns, idx),
        ns@.len() <= usize::MAX,
        idx < ns@.len(),
        nb == ns@[idx as int],
        in_grid(nb, r, co),
        nns@.to_multiset() == spec_neighbors(nb, r, co).to_multiset(),
    ensures
        forall|k: int|
            0 <= k < stack_after_descend(st0, cell, ns, idx, nb, nns).len() ==> frame_wf(
                #[trigger] stack_after_descend(st0, cell, ns, idx, nb, nns)[k],
                t0.push((cell, nb)),
                start,
                r,
                co,
            ),
{
    let e = (cell, nb);
    let t1 = t0.push(e);
    let st1 = stack_after_descend(st0, cell, ns, idx, nb, nns);
    assert(frame_wf(st0[st0.len() - 1], t0, start, r, co));
    assert(t1[t0.len() as int] == e);
    assert forall|k: int| 0 <= k < st1.len() implies frame_wf(
        #[trigger] st1[k],
        t1,
        start,
        r,
        co,
    ) by {
        if k < st0.len() - 1 {
            assert(st1[k] == st0[k]);
            assert(frame_wf(st0[k], t0, start, r, co));
            lemma_frame_wf_push(st0[k], t0, e, start, r, co);
        } else if k == st0.len() - 1 {
            assert(st1[k] == (cell, ns, (idx + 1) as usize));
            lemma_child_push(t0, e, cell);
            assert forall|j: int| 0 <= j < idx + 1 implies discovered(
                t1,
                start,
                #[trigger] ns@[j],
            ) by {
                lemma_child_push(t0, e, ns@[j]);
                if j == idx {
                    assert(ns@[j] == nb);
                }
            }
        } else {
            assert(st1[k] == (nb, nns, 0usize));
            assert(is_child(t1, nb));
        }
    }
}

/// After descending, the region stays closed away from the stack: the new
/// cell and its parent both still sit in frames.
proof fn lemma_closed_after_descend(
    st0: Seq<(Coord, Vec<Coord>, usize)>,
    t0: Seq<(Coord, Coord)>,
    cell: Coord,
    ns: Vec<Coord>,
    idx: usize,
    nb: Coord,
    nns: Vec<Coord>,
    start: Coord,
    r: int,
    co: int,
)
    requires
        closed_off_stack(t0, start, st0, r, co),
        st0.len() > 0,
        st0.last() == (cell, ns, idx),
        ns@.len() <= usize::MAX,
    ensures
        closed_off_stack(
            t0.push((cell, nb)),
            start,
            stack_after_descend(st0, cell, ns, idx, nb, nns),
            r,
            co,
        ),
{
    let e = (cell, nb);
    let t1 = t0.push(e);
    let st1 = stack_after_descend(st0, cell, ns, idx, nb, nns);
    assert forall|d: Coord, m: Coord|
        discovered(t1, start, d) && in_grid(d, r, co) && !on_stack(st1, d) && in_grid(m, r, co)
            && #[trigger] adjacent(m, d) implies #[trigger] discovered(t1, start, m) by {
        lemma_child_push(t0, e, d);
        if d == nb {
            assert(st1[st1.len() - 1].0 == nb);
            assert(on_stack(st1, d));
            assert(false);
        } else {
            assert(discovered(t0, start, d));
            if on_stack(st0, d) {
                let k = choose|k: int| 0 <= k < st0.len() && (#[trigger] st0[k]).0 == d;
                if k < st0.len() - 1 {
                    assert(st1[k].0 == d);
                } else {
                    assert(d == cell);
                    assert(st1[st1.len() - 2].0 == cell);
                }
                assert(on_stack(st1, d));
                assert(false);
            }
            assert(discovered(t0, start, m));
            lemma_child_push(t0, e, m);
        }
    }
}

/// The walk step that discovers a new cell: the edge is appended, the cell
/// marked, its frame pushed, and the current frame advanced. Every loop
/// invariant of the builder survives.
proof fn lemma_step_discover(
    st0: Seq<(Coord, Vec<Coord>, usize)>,
    t0: Seq<(Coord, Coord)>,
    v0: Seq<bool>,
    cell: Coord,
    ns: Vec<Coord>,
    idx: usize,
    nb: Coord,
    nns: Vec<Coord>,
    start: Coord,
    r: int,
    co: int,
)
    requires
        1 <= r <= usize::MAX,
        1 <= co <= usize::MAX,
        in_grid(start, r, co),
        v0.len() == r * co,
        tree_wf(t0, start, r, co),
        visited_matches(v0, t0, start, r, co),
        forall|k: int| 0 <= k < st0.len() ==> frame_wf(#[trigger] st0[k], t0, start, r, co),
        closed_off_stack(t0, start, st0, r, co),
        st0.len() > 0,
        st0.last() == (cell, ns, idx),
        ns@.len() <= usize::MAX,
        idx < ns@.len(),
        nb == ns@[idx as int],
        !discovered(t0, start, nb),
        nns@.to_multiset() == spec_neighbors(nb, r, co).to_multiset(),
    ensures
        in_grid(nb, r, co),
        adjacent(cell, nb),
        0 <= nb.x + nb.y * co < v0.len(),
        !v0[nb.x + nb.y * co],
        tree_wf(t0.push((cell, nb)), start, r, co),
        visited_matches(
            v0.update(nb.x + nb.y * co, true),
            t0.push((cell, nb)),
            start,
            r,
            co,
        ),
        forall|k: int|
            0 <= k < stack_after_descend(st0, cell, ns, idx, nb, nns).len() ==> frame_wf(
                #[trigger] stack_after_descend(st0, cell, ns, idx, nb, nns)[k],
                t0.push((cell, nb)),
                start,
                r,
                co,
            ),
        closed_off_stack(
            t0.push((cell, nb)),
            start,
            stack_after_descend(st0, cell, ns, idx, nb, nns),
            r,
            co,
        ),
        count_false(v0.update(nb.x + nb.y * co, true)) + 1 == count_false(v0),
{
    assert(frame_wf(st0[st0.len() - 1], t0, start, r, co));
    lemma_frame_neighbors((cell, ns, idx), r, co);
    assert(in_grid(nb, r, co) && adjacent(nb, cell));
    lemma_tree_push_wf(t0, cell, nb, start, r, co);
    lemma_visited_update(t0, v0, cell, nb, start, r, co);
    lemma_frames_after_descend(st0, t0, cell, ns, idx, nb, nns, start, r, co);
    lemma_closed_after_descend(st0, t0, cell, ns, idx, nb, nns, start, r, co);
}

/// The walk step that finds the next neighbor already discovered: only the
/// frame's position advances.
proof fn lemma_step_skip(
    st0: Seq<(Coord, Vec<Coord>, usize)>,
    t0: Seq<(Coord, Coord)>,
    cell: Coord,
    ns: Vec<Coord>,
    idx: usize,
    nb: Coord,
    start: Coord,
    r: int,
    co: int,
)
    requires
        1 <= r <= usize::MAX,
        1 <= co <= usize::MAX,
        forall|k: int| 0 <= k < st0.len() ==> frame_wf(#[trigger] st0[k], t0, start, r, co),
        closed_off_stack(t0, start, st0, r, co),
        st0.len() > 0,
        st0.last() == (cell, ns, idx),
        ns@.len() <= usize::MAX,
        idx < ns@.len(),
        nb == ns@[idx as int],
        discovered(t0, start, nb),
    ensures
        forall|k: int|
            0 <= k < stack_after_skip(st0, cell, ns, idx).len() ==> frame_wf(
                #[trigger] stack_after_skip(st0, cell, ns, idx)[k],
                t0,
                start,
                r,
                co,
            ),
        closed_off_stack(t0, start, stack_after_skip(st0, cell, ns, idx), r, co),
        pending(stack_after_skip(st0, cell, ns, idx)) < pending(st0),
{
    assert(frame_wf(st0[st0.len() - 1], t0, start, r, co));
    let st1 = stack_after_skip(st0, cell, ns, idx);
    assert forall|k: int| 0 <= k < st1.len() implies frame_wf(
        #[trigger] st1[k],
        t0,
        start,
        r,
        co,
    ) by {
        if k < st0.len() - 1 {
            assert(st1[k] == st0[k]);
            assert(frame_wf(st0[k], t0, start, r, co));
        } else {
            assert(st1[k] == (cell, ns, (idx + 1) as usize));
            assert forall|j: int| 0 <= j < idx + 1 implies discovered(
                t0,
                start,
                #[trigger] ns@[j],
            ) by {
                if j == idx {
                    assert(ns@[j] == nb);
                }
            }
        }
    }
    // the same cells sit on the stack, so closure carries over
    assert forall|d: Coord, m: Coord|
        discovered(t0, start, d) && in_grid(d, r, co) && !on_stack(st1, d) && in_grid(m, r, co)
            && #[trigger] adjacent(m, d) implies #[trigger] discovered(t0, start, m) by {
        if on_stack(st0, d) {
            let k = choose|k: int| 0 <= k < st0.len() && (#[trigger] st0[k]).0 == d;
            if k < st0.len() - 1 {
                assert(st1[k].0 == d);
            } else {
                assert(st1[st1.len() - 1].0 == d);
            }
            assert(on_stack(st1, d));
            assert(false);
        }
    }
    // one fewer neighbor left to handle
    assert(st1.drop_last() =~= st0.drop_last());
    assert(pending(st1) < pending(st0));
}

/// The walk step that retires an exhausted frame: its cell's neighbors are
/// all discovered, so the closure extends to the popped cell.
proof fn lemma_step_pop(
    st0: Seq<(Coord, Vec<Coord>, usize)>,
    t0: Seq<(Coord, Coord)>,
    cell: Coord,
    ns: Vec<Coord>,
    idx: usize,
    start: Coord,
    r: int,
    co: int,
)
    requires
        1 <= r <= usize::MAX,
        1 <= co <= usize::MAX,
        forall|k: int| 0 <= k < st0.len() ==> frame_wf(#[trigger] st0[k], t0, start, r, co),
        closed_off_stack(t0, start, st0, r, co),
        st0.len() > 0,
        st0.last() == (cell, ns, idx),
        idx >= ns@.len(),
    ensures
        closed_off_stack(t0, start, st0.drop_last(), r, co),
        pending(st0.drop_last()) <= pending(st0),
{
    assert(frame_wf(st0[st0.len() - 1], t0, start, r, co));
    lemma_frame_neighbors((cell, ns, idx), r, co);
    let st1 = st0.drop_last();
    assert forall|d: Coord, m: Coord|
        discovered(t0, start, d) && in_grid(d, r, co) && !on_stack(st1, d) && in_grid(m, r, co)
            && #[trigger] adjacent(m, d) implies #[trigger] discovered(t0, start, m) by {
        if on_stack(st0, d) {
            let k = choose|k: int| 0 <= k < st0.len() && (#[trigger] st0[k]).0 == d;
            if k < st0.len() - 1 {
                assert(st1[k].0 == d);
                assert(on_stack(st1, d));
                assert(false);
            } else {
                assert(d == cell);
                let j = choose|j: int| 0 <= j < ns@.len() && #[trigger] ns@[j] == m;
                assert(discovered(t0, start, ns@[j]));
            }
        }
    }
}

/// Builds the randomized depth-first spanning tree of the `rows` by `cols`
/// grid, rooted at `start`. The walk is the classic recursive one — visit a
/// cell, shuffle its neighbors, descend into each not-yet-visited neighbor
/// before finishing the rest — run on an explicit stack, so the auxiliary
/// space per cell is constant and deep grids cannot overflow the call
/// stack. The edge order is exactly the recursive discovery order.
///
/// Whatever order the shuffler picks, the result is a spanning tree of the
/// grid: `rows * cols - 1` edges, every cell reachable, no cell discovered
/// twice.
pub fn dfs_spanning_tree<S: Shuffler>(
    start: Coord,
    rows: usize,
    cols: usize,
    shuffler: &mut S,
) -> (tree: Vec<(Coord, Coord)>)
    requires
        1 <= rows,
        1 <= cols,
        rows * cols <= usize::MAX,
        in_grid(start, rows as int, cols as int),
    ensures
        tree@.len() == rows * cols - 1,
        tree_wf(tree@, start, rows as int, cols as int),
        forall|c: Coord| in_grid(c, rows as int, cols as int) ==> discovered(tree@, start, c),
{
    let ghost r = rows as int;
    let ghost co = cols as int;
    let n = rows * cols;
    let mut visited: Vec<bool> = Vec::new();
    let mut i: usize = 0;
    while i < n
        invariant
            visited@.len() == i,
            i <= n,
            forall|j: int| 0 <= j < i ==> !(#[trigger] visited@[j]),
        decreases n - i,
    {
        visited.push(false);
        i = i + 1;
    }
    proof {
        assert(co * r == r * co) by (nonlinear_arith);
        lemma_count_false_all(visited@);
        crate::raster::lemma_coord_index(co, r, start.x as int, start.y as int);
    }
    let mut tree: Vec<(Coord, Coord)> = Vec::new();
    let mut stack: Vec<(Coord, Vec<Coord>, usize)> = Vec::new();
    let si = start.x + start.y * cols;
    let ghost v_before = visited@;
    visited[si] = true;
    proof {
        lemma_count_false_update(v_before, si as int);
        assert forall|c: Coord| #[trigger] in_grid(c, r, co) implies visited@[c.x + c.y * co]
            == discovered(tree@, start, c) by {
            crate::raster::lemma_coord_index(co, r, c.x as int, c.y as int);
            if c.x + c.y * co == si {
                assert(c.x == si as int % co && c.y == si as int / co);
                assert(c == start);
            } else {
                assert(c != start);
                assert(!is_child(tree@, c));
            }
        }
    }
    let mut ns0 = get_neighbors(start, rows, cols);
    shuffler.shuffle(&mut ns0);
    stack.push((start, ns0, 0));
    proof {
        assert(stack@[0].0 == start);
        assert forall|d: Coord, m: Coord|
            discovered(tree@, start, d) && in_grid(d, r, co) && !on_stack(stack@, d) && in_grid(
                m,
                r,
                co,
            ) && #[trigger] adjacent(m, d) implies #[trigger] discovered(tree@, start, m) by {
            assert(d == start);
            assert(on_stack(stack@, start));
        }
    }
    while stack.len() > 0
        invariant
            1 <= rows,
            1 <= cols,
            r == rows as int,
            co == cols as int,
            rows * cols <= usize::MAX,
            in_grid(start, r, co),
            visited@.len() == r * co,
            tree_wf(tree@, start, r, co),
            visited_matches(visited@, tree@, start, r, co),
            forall|k: int|
                0 <= k < stack@.len() ==> frame_wf(#[trigger] stack@[k], tree@, start, r, co),
            closed_off_stack(tree@, start, stack@, r, co),
            count_false(visited@) + tree@.len() + 1 == r * co,
        decreases count_false(visited@), pending(stack@), stack@.len(),
    {
        let ghost st0 = stack@;
        let ghost t0 = tree@;
        let ghost v0 = visited@;
        proof {
            assert(frame_wf(st0[st0.len() - 1], t0, start, r, co));
        }
        let frame = stack.pop().unwrap();
        let (cell, ns, idx) = frame;
        if idx < ns.len() {
            proof {
                lemma_frame_neighbors((cell, ns, idx), r, co);
            }
            let nb = ns[idx];
            proof {
                assert(co * r == r * co) by (nonlinear_arith);
                assert(in_grid(nb, r, co) && adjacent(nb, cell));
                crate::raster::lemma_coord_index(co, r, nb.x as int, nb.y as int);
            }
            let ni = nb.x + nb.y * cols;
            let already = visited[ni];
            if !already {
                visited[ni] = true;
                tree.push((cell, nb));
                let mut nns = get_neighbors(nb, rows, cols);
                shuffler.shuffle(&mut nns);
                proof {
                    lemma_step_discover(st0, t0, v0, cell, ns, idx, nb, nns, start, r, co);
                }
                stack.push((cell, ns, idx + 1));
                stack.push((nb, nns, 0));
                proof {
                    assert(stack@ == stack_after_descend(st0, cell, ns, idx, nb, nns));
                }
            } else {
                proof {
                    lemma_step_skip(st0, t0, cell, ns, idx, nb, start, r, co);
                }
                stack.push((cell, ns, idx + 1));
                proof {
                    assert(stack@ == stack_after_skip(st0, cell, ns, idx));
                }
            }
        } else {
            proof {
                lemma_step_pop(st0, t0, cell, ns, idx, start, r, co);
            }
        }
    }
    proof {
        // the stack is gone: the discovered region is closed, so the whole
        // grid is discovered, every cell is marked, and the counts give the
        // spanning-tree size
        assert forall|c: Coord| in_grid(c, r, co) implies discovered(tree@, start, c) by {
            assert forall|d: Coord, m: Coord|
                discovered(tree@, start, d) && in_grid(d, r, co) && in_grid(m, r, co)
                    && #[trigger] adjacent(m, d) implies #[trigger] discovered(tree@, start, m) by {
                assert(!on_stack(stack@, d));
            }
            lemma_grid_connected(tree@, start, r, co, c);
        }
        assert(co * r == r * co) by (nonlinear_arith);
        assert forall|j: int| 0 <= j < visited@.len() implies visited@[j] by {
            crate::raster::lemma_index_in_grid(co, r, j);
            let c = Coord { x: (j % co) as usize, y: (j / co) as usize };
            assert(in_grid(c, r, co));
            assert(c.x + c.y * co == j);
        }
        lemma_count_false_zero(visited@);
    }
    tree
}

/// Builds the spanning tree of the whole grid starting from the top-left
/// cell, with the neighbor order drawn from the thread-local random
/// generator: each run yields a fresh maze.
pub fn create_spanning_tree(rows: usize, cols: usize) -> (tree: Vec<(Coord, Coord)>)
    requires
        1 <= rows,
        1 <= cols,
        rows * cols <= usize::MAX,
    ensures
        tree@.len() == rows * cols - 1,
        tree_wf(tree@, Coord { x: 0, y: 0 }, rows as int, cols as int),
        forall|c: Coord|
            in_grid(c, rows as int, cols as int) ==> discovered(
                tree@,
                Coord { x: 0, y: 0 },
                c,
            ),
{
    let mut shuffler = RandShuffler;
    dfs_spanning_tree(Coord::new(0, 0), rows, cols, &mut shuffler)
}

/// Walks the edge list from position `level` on and raises `max_level` to
/// the highest position that exists. Starting from position 0 with
/// `max_level` 0 this computes the list's extent: its length minus one, the
/// greatest valid index — the normalization denominator of the animated
/// color sweep. It is a position count, not a graph-theoretic tree depth.
pub fn dfs_get_max_level(
    spanning_tree: &Vec<(Coord, Coord)>,
    level: usize,
    max_level: &mut usize,
)
    ensures
        level < spanning_tree@.len() ==> *final(max_level) == vstd::math::max(
            *old(max_level) as int,
            spanning_tree@.len() - 1,
        ),
        level >= spanning_tree@.len() ==> *final(max_level) == *old(max_level),
{
    let mut m: usize = *max_level;
    let mut l: usize = level;
    while l < spanning_tree.len()
        invariant
            level <= l,
            l <= spanning_tree@.len() || l == level,
            l > level ==> m as int == vstd::math::max(*old(max_level) as int, l - 1),
            l <= level ==> m == *old(max_level),
        decreases spanning_tree@.len() - l,
    {
        if l > m {
            m = l;
        }
        l = l + 1;
    }
    *max_level = m;
}

} // verus!
