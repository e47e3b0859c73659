use grid_maze::grid::Coord;
use grid_maze::raster::{clear_screen, draw_line, draw_tree_edge};

fn fresh(w: usize, h: usize) -> Vec<u32> {
    vec![0; w * h]
}

#[test]
fn horizontal_line_covers_row() {
    let mut buf = fresh(5, 3);
    draw_line(&mut buf, 5, 3, 0, 1, 4, 1, 7);
    for y in 0..3 {
        for x in 0..5 {
            let expected = if y == 1 { 7 } else { 0 };
            assert_eq!(buf[x + y * 5], expected);
        }
    }
}

#[test]
fn vertical_line_covers_column() {
    let mut buf = fresh(4, 6);
    draw_line(&mut buf, 4, 6, 2, 5, 2, 0, 9);
    for y in 0..6 {
        for x in 0..4 {
            let expected = if x == 2 { 9 } else { 0 };
            assert_eq!(buf[x + y * 4], expected);
        }
    }
}

#[test]
fn diagonal_line_hits_diagonal() {
    let mut buf = fresh(4, 4);
    draw_line(&mut buf, 4, 4, 0, 0, 3, 3, 1);
    for y in 0..4 {
        for x in 0..4 {
            let expected = if x == y { 1 } else { 0 };
            assert_eq!(buf[x + y * 4], expected);
        }
    }
}

#[test]
fn axis_and_diagonal_lines_direction_independent() {
    let cases = [
        ((0usize, 2usize), (6usize, 2usize)),
        ((3, 0), (3, 5)),
        ((0, 0), (5, 5)),
        ((6, 0), (1, 5)),
    ];
    for &((ax, ay), (bx, by)) in &cases {
        let mut fwd = fresh(7, 6);
        let mut rev = fresh(7, 6);
        draw_line(&mut fwd, 7, 6, ax, ay, bx, by, 3);
        draw_line(&mut rev, 7, 6, bx, by, ax, ay, 3);
        assert_eq!(fwd, rev);
    }
}

#[test]
fn degenerate_line_writes_one_pixel() {
    let mut buf = fresh(4, 4);
    draw_line(&mut buf, 4, 4, 2, 1, 2, 1, 5);
    for y in 0..4 {
        for x in 0..4 {
            let expected = if x == 2 && y == 1 { 5 } else { 0 };
            assert_eq!(buf[x + y * 4], expected);
        }
    }
}

#[test]
fn degenerate_line_out_of_bounds_writes_nothing() {
    let mut buf = fresh(4, 4);
    draw_line(&mut buf, 4, 4, 9, 9, 9, 9, 5);
    assert!(buf.iter().all(|&p| p == 0));
}

#[test]
fn fully_out_of_bounds_line_writes_nothing() {
    let mut buf = fresh(4, 4);
    draw_line(&mut buf, 4, 4, 10, 10, 14, 13, 5);
    assert!(buf.iter().all(|&p| p == 0));
}

#[test]
fn line_leaving_the_buffer_is_clipped() {
    let mut buf = fresh(5, 1);
    draw_line(&mut buf, 5, 1, 0, 0, 100, 0, 7);
    assert!(buf.iter().all(|&p| p == 7));
}

#[test]
fn empty_buffer_accepts_any_line() {
    let mut buf: Vec<u32> = Vec::new();
    draw_line(&mut buf, 0, 0, 0, 0, 3, 2, 7);
    assert_eq!(buf.len(), 0);
}

#[test]
fn clear_screen_fills_buffer() {
    let mut buf = fresh(3, 2);
    clear_screen(&mut buf, 0xABCDEF);
    assert_eq!(buf, vec![0xABCDEF; 6]);
    clear_screen(&mut buf, 0);
    assert_eq!(buf, vec![0; 6]);
}

#[test]
fn tree_edge_is_scaled_by_cell_size() {
    let mut buf = fresh(6, 3);
    let edge = (Coord::new(0, 0), Coord::new(2, 0));
    draw_tree_edge(&mut buf, 6, 3, 2, edge, 8);
    for y in 0..3 {
        for x in 0..6 {
            let expected = if y == 0 && x <= 4 { 8 } else { 0 };
            assert_eq!(buf[x + y * 6], expected);
        }
    }
}
