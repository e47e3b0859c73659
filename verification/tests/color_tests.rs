use grid_maze::color::{cyclic_gradient, map_color};

fn channels(c: u32) -> (u32, u32, u32) {
    ((c >> 16) & 0xFF, (c >> 8) & 0xFF, c & 0xFF)
}

#[test]
fn map_color_exact_values() {
    // segment width 2; value 3 lands in bucket 1 of 5
    assert_eq!(map_color(3, 10, 5), 0x33CC00);
    // bucket 0: no red, full green scale
    assert_eq!(map_color(0, 10, 5), 0x00FF00);
    // far past the range: clamped to the last bucket
    assert_eq!(map_color(999, 10, 5), 0xCC3300);
}

#[test]
fn map_color_single_bucket() {
    // one bucket: index is always 0, green saturates
    assert_eq!(map_color(0, 7, 1), 0x00FF00);
    assert_eq!(map_color(7, 7, 1), 0x00FF00);
}

#[test]
fn map_color_red_up_green_down() {
    let mut last_r = 0;
    let mut last_g = 256;
    for v in [0, 20, 40, 60, 80, 99] {
        let (r, g, b) = channels(map_color(v, 100, 5));
        assert!(r <= 255 && g <= 255);
        assert_eq!(b, 0);
        assert!(r >= last_r, "red never falls as the bucket rises");
        assert!(g <= last_g, "green never rises as the bucket rises");
        last_r = r;
        last_g = g;
    }
}

#[test]
fn cyclic_gradient_start_is_pure_red() {
    assert_eq!(cyclic_gradient(0, 10, 20), 0xFF0000);
}

#[test]
fn cyclic_gradient_halfway_is_cyan() {
    let c = cyclic_gradient(5, 10, 20);
    let (r, g, b) = channels(c);
    assert_eq!(r, 0);
    assert!(g > 0 && b > 0);
    assert_eq!(c, 0x00FFFF);
}

#[test]
fn cyclic_gradient_wraps_to_red() {
    assert_eq!(cyclic_gradient(10, 10, 20), cyclic_gradient(0, 10, 20));
}

#[test]
fn cyclic_gradient_channels_stay_in_range() {
    for v in 0..=200 {
        let (r, g, b) = channels(cyclic_gradient(v, 200, 20));
        assert!(r <= 255 && g <= 255 && b <= 255);
    }
}

#[test]
fn cyclic_gradient_sweeps_smoothly() {
    // away from the wrap-around, each channel moves by at most
    // 1536 / max_value + 1 per step
    let max = 100;
    let bound = 1536 / max + 1;
    let mut prev = channels(cyclic_gradient(0, max as usize, 20));
    for v in 1..max {
        let cur = channels(cyclic_gradient(v as usize, max as usize, 20));
        let diff = |a: u32, b: u32| if a > b { a - b } else { b - a };
        assert!(diff(cur.0, prev.0) <= bound);
        assert!(diff(cur.1, prev.1) <= bound);
        assert!(diff(cur.2, prev.2) <= bound);
        prev = cur;
    }
}

#[test]
fn cyclic_gradient_visits_all_sectors() {
    // a fine sweep passes through green-dominant and blue-dominant colors
    let mut saw_green = false;
    let mut saw_blue = false;
    for v in 0..600 {
        let (r, g, b) = channels(cyclic_gradient(v, 600, 20));
        if g == 255 && r < 64 && b < 64 {
            saw_green = true;
        }
        if b == 255 && r < 64 && g < 64 {
            saw_blue = true;
        }
    }
    assert!(saw_green && saw_blue);
}
