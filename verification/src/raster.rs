use vstd::arithmetic::div_mod::{lemma_fundamental_div_mod, lemma_fundamental_div_mod_converse};
use vstd::math::abs;
use vstd::prelude::*;

verus! {

/// One step of the integer Bresenham traversal: the set of coordinates the
/// walk visits from `(x0, y0)` until it reaches `(x1, y1)`, with fixed
/// differences `dx >= 0 >= dy`, step signs `sx`, `sy`, and error
/// accumulator `err`. `fuel` bounds the recursion; the walk always reaches
/// the endpoint before the fuel of `line_pixels` runs out.
pub open spec fn line_rec(
    x0: int,
    y0: int,
    x1: int,
    y1: int,
    dx: int,
    dy: int,
    sx: int,
    sy: int,
    err: int,
    fuel: nat,
) -> Set<(int, int)>
    decreases fuel,
{
    if (x0 == x1 && y0 == y1) || fuel == 0 {
        set![(x0, y0)]
    } else {
        let e2 = 2 * err;
        let nx = if e2 >= dy {
            x0 + sx
        } else {
            x0
        };
        let ny = if e2 <= dx {
            y0 + sy
        } else {
            y0
        };
        let nerr = err + (if e2 >= dy {
            dy
        } else {
            0
        }) + (if e2 <= dx {
            dx
        } else {
            0
        });
        set![(x0, y0)].union(line_rec(nx, ny, x1, y1, dx, dy, sx, sy, nerr, (fuel - 1) as nat))
    }
}

/// The exact set of coordinates the Bresenham walk from `(x0, y0)` to
/// `(x1, y1)` visits, bounds ignored.
pub open spec fn line_pixels(x0: int, y0: int, x1: int, y1: int) -> Set<(int, int)> {
    let dx = abs(x1 - x0) as int;
    let dy = -(abs(y1 - y0) as int);
    let sx: int = if x0 < x1 {
        1
    } else {
        -1
    };
    let sy: int = if y0 < y1 {
        1
    } else {
        -1
    };
    line_rec(x0, y0, x1, y1, dx, dy, sx, sy, dx + dy, (dx - dy) as nat)
}

/// Once the walk has made all `dx` of its x-steps but y-steps remain, the
/// error term has sunk low enough that no further x-step fires: the walk
/// never overshoots `x1`.
proof fn lemma_no_x_overshoot(dx: int, dy: int, ky: int, err: int)
    requires
        dx >= 0,
        dy <= 0,
        0 <= ky < -dy,
        err == dx + dy + dx * dy + ky * dx,
    ensures
        2 * err < dy,
{
    assert(2 * err < dy) by (nonlinear_arith)
        requires
            dx >= 0,
            dy <= 0,
            0 <= ky < -dy,
            err == dx + dy + dx * dy + ky * dx,
    ;
}

/// The mirror image: once all y-steps are made but x-steps remain, no
/// further y-step fires.
proof fn lemma_no_y_overshoot(dx: int, dy: int, kx: int, err: int)
    requires
        dx >= 0,
        dy <= 0,
        0 <= kx < dx,
        err == dx + dy + kx * dy + (-dy) * dx,
    ensures
        2 * err > dx,
{
    assert(2 * err > dx) by (nonlinear_arith)
        requires
            dx >= 0,
            dy <= 0,
            0 <= kx < dx,
            err == dx + dy + kx * dy + (-dy) * dx,
    ;
}

/// Row-major indexing: the flat index of an in-bounds coordinate decomposes
/// back into that coordinate, and stays inside the buffer.
pub(crate) proof fn lemma_coord_index(w: int, h: int, x: int, y: int)
    requires
        w >= 1,
        h >= 1,
        0 <= x < w,
        0 <= y < h,
    ensures
        (x + y * w) / w == y,
        (x + y * w) % w == x,
        0 <= x + y * w < w * h,
{
    lemma_fundamental_div_mod_converse(x + y * w, w, y, x);
    assert(x + y * w < w * h) by (nonlinear_arith)
        requires
            0 <= x < w,
            0 <= y < h,
    ;
}

/// A flat index inside the buffer decomposes into an in-bounds coordinate.
pub(crate) proof fn lemma_index_in_grid(w: int, h: int, i: int)
    requires
        w >= 1,
        h >= 1,
        0 <= i < w * h,
    ensures
        0 <= i % w < w,
        0 <= i / w < h,
        i == (i % w) + (i / w) * w,
{
    lemma_fundamental_div_mod(i, w);
    assert(0 <= i % w < w && 0 <= i / w < h) by (nonlinear_arith)
        requires
            w >= 1,
            h >= 1,
            0 <= i < w * h,
            i == w * (i / w) + i % w,
    ;
}

/// Draws the line segment from `(x0, y0)` to `(x1, y1)` into the row-major
/// pixel buffer using integer Bresenham stepping. Every visited coordinate
/// inside `[0, width) x [0, height)` receives `color`; coordinates outside
/// the buffer are silently clipped, and no other pixel changes.
pub fn draw_line(
    buffer: &mut Vec<u32>,
    width: usize,
    height: usize,
    x0: usize,
    y0: usize,
    x1: usize,
    y1: usize,
    color: u32,
)
    requires
        old(buffer)@.len() == width * height,
        width * height <= usize::MAX,
    ensures
        final(buffer)@.len() == old(buffer)@.len(),
        forall|i: int|
            0 <= i < final(buffer)@.len() ==> final(buffer)@[i] == (if line_pixels(
                x0 as int,
                y0 as int,
                x1 as int,
                y1 as int,
            ).contains((i % (width as int), i / (width as int))) {
                color
            } else {
                old(buffer)@[i]
            }),
        forall|x: int, y: int|
            0 <= x < width && 0 <= y < height ==> final(buffer)@[x + y * (width as int)] == (if line_pixels(
                x0 as int,
                y0 as int,
                x1 as int,
                y1 as int,
            ).contains((x, y)) {
                color
            } else {
                old(buffer)@[x + y * (width as int)]
            }),
{
    let ghost w = width as int;
    let ghost h = height as int;
    let ghost total = line_pixels(x0 as int, y0 as int, x1 as int, y1 as int);
    let dxu: usize = if x1 >= x0 {
        x1 - x0
    } else {
        x0 - x1
    };
    let dyu: usize = if y1 >= y0 {
        y1 - y0
    } else {
        y0 - y1
    };
    let dx: i128 = dxu as i128;
    let dy: i128 = -(dyu as i128);
    let ghost sx: int = if (x0 as int) < x1 as int {
        1
    } else {
        -1
    };
    let ghost sy: int = if (y0 as int) < y1 as int {
        1
    } else {
        -1
    };
    let mut err: i128 = dx + dy;
    let mut cx = x0;
    let mut cy = y0;
    let ghost mut written: Set<(int, int)> = Set::empty();
    let ghost mut fuel: nat = (dx - dy) as nat;
    proof {
        assert(abs(cx as int - x0 as int) == 0 && abs(cy as int - y0 as int) == 0);
        assert(0 * (dy as int) == 0 && 0 * (dx as int) == 0);
    }
    while cx != x1 || cy != y1
        invariant
            buffer@.len() == width * height,
            width * height <= usize::MAX,
            w == width as int,
            h == height as int,
            dx as int == abs(x1 as int - x0 as int),
            dy as int == -(abs(y1 as int - y0 as int) as int),
            sx == (if (x0 as int) < x1 as int {
                1int
            } else {
                -1int
            }),
            sy == (if (y0 as int) < y1 as int {
                1int
            } else {
                -1int
            }),
            (x0 <= cx <= x1) || (x1 <= cx <= x0),
            (y0 <= cy <= y1) || (y1 <= cy <= y0),
            err as int == dx as int + dy as int + abs(cx as int - x0 as int) * (dy as int) + abs(
                cy as int - y0 as int,
            ) * (dx as int),
            2 * (dy as int) <= err as int <= 2 * (dx as int),
            fuel >= abs(x1 as int - cx as int) + abs(y1 as int - cy as int),
            total == line_pixels(x0 as int, y0 as int, x1 as int, y1 as int),
            written.union(
                line_rec(
                    cx as int,
                    cy as int,
                    x1 as int,
                    y1 as int,
                    dx as int,
                    dy as int,
                    sx,
                    sy,
                    err as int,
                    fuel,
                ),
            ) == total,
            forall|i: int|
                0 <= i < buffer@.len() ==> buffer@[i] == (if written.contains(
                    (i % w, i / w),
                ) {
                    color
                } else {
                    old(buffer)@[i]
                }),
        decreases fuel,
    {
        let ghost kx = abs(cx as int - x0 as int);
        let ghost ky = abs(cy as int - y0 as int);
        let ghost prev_written = written;
        let ghost prev_buf = buffer@;
        if cx < width && cy < height {
            proof {
                lemma_coord_index(w, h, cx as int, cy as int);
            }
            let idx = cx + cy * width;
            buffer[idx] = color;
        }
        proof {
            written = written.insert((cx as int, cy as int));
            assert forall|i: int| 0 <= i < buffer@.len() implies buffer@[i] == (if written.contains(
                (i % w, i / w),
            ) {
                color
            } else {
                old(buffer)@[i]
            }) by {
                lemma_index_in_grid(w, h, i);
                if (i % w, i / w) == (cx as int, cy as int) {
                    assert(cx < width && cy < height);
                    assert(i == cx as int + (cy as int) * w);
                }
            }
        }
        let e2 = 2 * err;
        let ghost step_x = e2 as int >= dy as int;
        let ghost step_y = e2 as int <= dx as int;
        proof {
            // The walk cannot stall: at least one of the step conditions holds.
            assert(step_x || step_y);
            // No overshoot: a firing step still has distance to cover.
            if step_x {
                if kx == dx {
                    assert(cx == x1);
                    assert(ky < -dy);
                    lemma_no_x_overshoot(dx as int, dy as int, ky as int, err as int);
                    assert(false);
                }
                assert(kx < dx);
                assert(cx != x1);
            }
            if step_y {
                if ky == -dy {
                    assert(cy == y1);
                    assert(kx < dx);
                    lemma_no_y_overshoot(dx as int, dy as int, kx as int, err as int);
                    assert(false);
                }
                assert(ky < -dy);
                assert(cy != y1);
            }
        }
        if e2 >= dy {
            err = err + dy;
            if x0 < x1 {
                cx = cx + 1;
            } else {
                cx = cx - 1;
            }
        }
        if e2 <= dx {
            err = err + dx;
            if y0 < y1 {
                cy = cy + 1;
            } else {
                cy = cy - 1;
            }
        }
        proof {
            let dxi = dx as int;
            let dyi = dy as int;
            assert((kx + 1) * dyi == kx * dyi + dyi) by (nonlinear_arith);
            assert((ky + 1) * dxi == ky * dxi + dxi) by (nonlinear_arith);
            if step_x {
                assert(abs(cx as int - x0 as int) == kx + 1);
            } else {
                assert(abs(cx as int - x0 as int) == kx);
            }
            if step_y {
                assert(abs(cy as int - y0 as int) == ky + 1);
            } else {
                assert(abs(cy as int - y0 as int) == ky);
            }
            fuel = (fuel - 1) as nat;
            assert(written.union(
                line_rec(
                    cx as int,
                    cy as int,
                    x1 as int,
                    y1 as int,
                    dx as int,
                    dy as int,
                    sx,
                    sy,
                    err as int,
                    fuel,
                ),
            ) =~= total);
        }
    }
    if cx < width && cy < height {
        proof {
            lemma_coord_index(w, h, cx as int, cy as int);
        }
        let idx = cx + cy * width;
        buffer[idx] = color;
    }
    proof {
        written = written.insert((cx as int, cy as int));
        assert(written =~= total);
        assert forall|i: int| 0 <= i < buffer@.len() implies buffer@[i] == (if total.contains(
            (i % w, i / w),
        ) {
            color
        } else {
            old(buffer)@[i]
        }) by {
            lemma_index_in_grid(w, h, i);
            if (i % w, i / w) == (cx as int, cy as int) {
                assert(cx < width && cy < height);
                assert(i == cx as int + (cy as int) * w);
            }
        }
        assert forall|x: int, y: int| 0 <= x < width && 0 <= y < height implies buffer@[x + y
            * w] == (if total.contains((x, y)) {
            color
        } else {
            old(buffer)@[x + y * w]
        }) by {
            lemma_coord_index(w, h, x, y);
        }
    }
}

/// The degenerate walk stays put: a line from a point to itself visits
/// exactly that point, so drawing it writes one pixel when the point is in
/// bounds and none otherwise.
pub proof fn lemma_line_degenerate(x: int, y: int)
    ensures
        line_pixels(x, y, x, y) =~= set![(x, y)],
{
}

/// Fills the whole buffer with one color.
pub fn clear_screen(buffer: &mut Vec<u32>, color: u32)
    ensures
        final(buffer)@.len() == old(buffer)@.len(),
        forall|i: int| 0 <= i < final(buffer)@.len() ==> final(buffer)@[i] == color,
{
    let mut i: usize = 0;
    while i < buffer.len()
        invariant
            i <= buffer@.len(),
            buffer@.len() == old(buffer)@.len(),
            forall|j: int| 0 <= j < i ==> buffer@[j] == color,
        decreases buffer@.len() - i,
    {
        buffer[i] = color;
        i = i + 1;
    }
}

/// The point `b` lies between `a` and `c`, whichever way round they are.
pub open spec fn between(a: int, b: int, c: int) -> bool {
    (a <= b <= c) || (c <= b <= a)
}

/// The pixels of a horizontal span: one row, the columns between the ends.
pub open spec fn hspan(y: int, xa: int, xb: int) -> Set<(int, int)> {
    Set::new(|p: (int, int)| p.1 == y && between(xa, p.0, xb))
}

/// The pixels of a vertical span: one column, the rows between the ends.
pub open spec fn vspan(x: int, ya: int, yb: int) -> Set<(int, int)> {
    Set::new(|p: (int, int)| p.0 == x && between(ya, p.1, yb))
}

/// A walk with no vertical extent marches straight along its row.
proof fn lemma_rec_horizontal(x0: int, y0: int, x1: int, dx: int, sx: int, sy: int, fuel: nat)
    requires
        dx > 0,
        (sx == 1 && x0 <= x1) || (sx == -1 && x1 <= x0),
        fuel >= abs(x1 - x0),
    ensures
        line_rec(x0, y0, x1, y0, dx, 0, sx, sy, dx, fuel) =~= hspan(y0, x0, x1),
    decreases abs(x1 - x0),
{
    if x0 == x1 {
    } else {
        lemma_rec_horizontal(x0 + sx, y0, x1, dx, sx, sy, (fuel - 1) as nat);
    }
}

/// A walk with no horizontal extent marches straight along its column.
proof fn lemma_rec_vertical(x0: int, y0: int, y1: int, dy: int, sx: int, sy: int, fuel: nat)
    requires
        dy < 0,
        (sy == 1 && y0 <= y1) || (sy == -1 && y1 <= y0),
        fuel >= abs(y1 - y0),
    ensures
        line_rec(x0, y0, x0, y1, 0, dy, sx, sy, dy, fuel) =~= vspan(x0, y0, y1),
    decreases abs(y1 - y0),
{
    if y0 == y1 {
    } else {
        lemma_rec_vertical(x0, y0 + sy, y1, dy, sx, sy, (fuel - 1) as nat);
    }
}

/// The pixels of an exact diagonal walk: `n` steps from `(x, y)`, moving
/// one unit along both axes each step.
pub open spec fn dspan(x: int, y: int, sx: int, sy: int, n: nat) -> Set<(int, int)>
    decreases n,
{
    if n == 0 {
        set![(x, y)]
    } else {
        set![(x, y)].union(dspan(x + sx, y + sy, sx, sy, (n - 1) as nat))
    }
}

/// The walk contains its far endpoint.
proof fn lemma_dspan_has_end(x: int, y: int, xe: int, ye: int, sx: int, sy: int, n: nat)
    requires
        (sx == 1 && xe == x + n) || (sx == -1 && xe == x - n),
        (sy == 1 && ye == y + n) || (sy == -1 && ye == y - n),
    ensures
        dspan(x, y, sx, sy, n).contains((xe, ye)),
    decreases n,
{
    if n == 0 {
    } else {
        lemma_dspan_has_end(x + sx, y + sy, xe, ye, sx, sy, (n - 1) as nat);
    }
}

/// A longer walk covers a shorter one from the same corner.
proof fn lemma_dspan_mono(x: int, y: int, sx: int, sy: int, n: nat)
    requires
        n > 0,
    ensures
        dspan(x, y, sx, sy, (n - 1) as nat).subset_of(dspan(x, y, sx, sy, n)),
    decreases n,
{
    if n > 1 {
        lemma_dspan_mono(x + sx, y + sy, sx, sy, (n - 1) as nat);
    }
}

/// The walk read backwards from the far endpoint covers the walk.
proof fn lemma_dspan_sub(x: int, y: int, xe: int, ye: int, sx: int, sy: int, n: nat)
    requires
        (sx == 1 && xe == x + n) || (sx == -1 && xe == x - n),
        (sy == 1 && ye == y + n) || (sy == -1 && ye == y - n),
    ensures
        dspan(x, y, sx, sy, n).subset_of(dspan(xe, ye, -sx, -sy, n)),
    decreases n,
{
    if n == 0 {
    } else {
        lemma_dspan_has_end(xe, ye, x, y, -sx, -sy, n);
        lemma_dspan_sub(x + sx, y + sy, xe, ye, sx, sy, (n - 1) as nat);
        lemma_dspan_mono(xe, ye, -sx, -sy, n);
    }
}

/// A walk with equal extents on both axes steps diagonally every
/// iteration: the error term stays zero.
proof fn lemma_rec_diagonal(
    x0: int,
    y0: int,
    x1: int,
    y1: int,
    bigd: int,
    sx: int,
    sy: int,
    n: int,
    fuel: nat,
)
    requires
        bigd > 0,
        0 <= n,
        (sx == 1 && x1 == x0 + n) || (sx == -1 && x1 == x0 - n),
        (sy == 1 && y1 == y0 + n) || (sy == -1 && y1 == y0 - n),
        fuel >= n,
    ensures
        line_rec(x0, y0, x1, y1, bigd, -bigd, sx, sy, 0, fuel) =~= dspan(
            x0,
            y0,
            sx,
            sy,
            n as nat,
        ),
    decreases n,
{
    if n == 0 {
    } else {
        lemma_rec_diagonal(x0 + sx, y0 + sy, x1, y1, bigd, sx, sy, n - 1, (fuel - 1) as nat);
    }
}

/// Axis-aligned, exactly diagonal and degenerate segments rasterize to the
/// same pixel set in either direction: a horizontal walk covers its row
/// span, a vertical walk its column span, and a diagonal walk its corner
/// chain, none of which depends on the direction. (A general slanted
/// segment need not be symmetric: the error tie is broken in the same
/// sense for both traversal directions.)
pub proof fn lemma_line_symmetric_straight(x0: int, y0: int, x1: int, y1: int)
    requires
        x0 == x1 || y0 == y1 || abs(x1 - x0) == abs(y1 - y0),
    ensures
        line_pixels(x0, y0, x1, y1) =~= line_pixels(x1, y1, x0, y0),
{
    if x0 == x1 && y0 == y1 {
    } else if y0 == y1 {
        let dx = abs(x1 - x0) as int;
        lemma_rec_horizontal(
            x0,
            y0,
            x1,
            dx,
            if x0 < x1 {
                1
            } else {
                -1
            },
            if y0 < y1 {
                1
            } else {
                -1
            },
            dx as nat,
        );
        lemma_rec_horizontal(
            x1,
            y0,
            x0,
            dx,
            if x1 < x0 {
                1
            } else {
                -1
            },
            if y1 < y0 {
                1
            } else {
                -1
            },
            dx as nat,
        );
        assert(hspan(y0, x0, x1) =~= hspan(y0, x1, x0));
    } else if x0 == x1 {
        let dy = -(abs(y1 - y0) as int);
        lemma_rec_vertical(
            x0,
            y0,
            y1,
            dy,
            if x0 < x1 {
                1
            } else {
                -1
            },
            if y0 < y1 {
                1
            } else {
                -1
            },
            (-dy) as nat,
        );
        lemma_rec_vertical(
            x0,
            y1,
            y0,
            dy,
            if x1 < x0 {
                1
            } else {
                -1
            },
            if y1 < y0 {
                1
            } else {
                -1
            },
            (-dy) as nat,
        );
        assert(vspan(x0, y0, y1) =~= vspan(x0, y1, y0));
    } else {
        let d = abs(x1 - x0) as int;
        let sx: int = if x0 < x1 {
            1
        } else {
            -1
        };
        let sy: int = if y0 < y1 {
            1
        } else {
            -1
        };
        lemma_rec_diagonal(x0, y0, x1, y1, d, sx, sy, d, (2 * d) as nat);
        lemma_rec_diagonal(x1, y1, x0, y0, d, -sx, -sy, d, (2 * d) as nat);
        lemma_dspan_sub(x0, y0, x1, y1, sx, sy, d as nat);
        lemma_dspan_sub(x1, y1, x0, y0, -sx, -sy, d as nat);
        assert(dspan(x0, y0, sx, sy, d as nat) =~= dspan(x1, y1, -sx, -sy, d as nat));
    }
}

/// Draws one tree edge: the cell coordinates are scaled to pixel space by
/// `cell_size` and the resulting segment rasterized in `color`.
pub fn draw_tree_edge(
    buffer: &mut Vec<u32>,
    width: usize,
    height: usize,
    cell_size: usize,
    edge: (crate::grid::Coord, crate::grid::Coord),
    color: u32,
)
    requires
        old(buffer)@.len() == width * height,
        width * height <= usize::MAX,
        edge.0.x * cell_size <= usize::MAX,
        edge.0.y * cell_size <= usize::MAX,
        edge.1.x * cell_size <= usize::MAX,
        edge.1.y * cell_size <= usize::MAX,
    ensures
        final(buffer)@.len() == old(buffer)@.len(),
        forall|i: int|
            0 <= i < final(buffer)@.len() ==> final(buffer)@[i] == (if line_pixels(
                edge.0.x * cell_size,
                edge.0.y * cell_size,
                edge.1.x * cell_size,
                edge.1.y * cell_size,
            ).contains((i % (width as int), i / (width as int))) {
                color
            } else {
                old(buffer)@[i]
            }),
{
    let x1 = edge.0.x * cell_size;
    let y1 = edge.0.y * cell_size;
    let x2 = edge.1.x * cell_size;
    let y2 = edge.1.y * cell_size;
    draw_line(buffer, width, height, x1, y1, x2, y2, color);
}

} // verus!
