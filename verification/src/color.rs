use vstd::arithmetic::div_mod::{
    lemma_div_is_ordered, lemma_div_pos_is_pos, lemma_fundamental_div_mod,
    lemma_hoist_over_denominator, lemma_multiply_divide_lt, lemma_small_mod,
};
use vstd::math::abs;
use vstd::prelude::*;

verus! {

/// Packs 8-bit red, green and blue channels into one `0x00RRGGBB` word.
pub open spec fn pack_rgb(r: int, g: int, b: int) -> int {
    r * 0x10000 + g * 0x100 + b
}

/// The bucket a value falls into when `[0, max_value]` is split into
/// `num_colors` equal-width segments, clamped to the last bucket.
pub open spec fn spec_bucket(value: int, max_value: int, num_colors: int) -> int {
    let segment_size = max_value / num_colors;
    let raw = value / segment_size;
    if raw < num_colors - 1 {
        raw
    } else {
        num_colors - 1
    }
}

/// The segmented linear map: red scales up and green scales down with the
/// bucket index; blue is zero.
pub open spec fn spec_map_color(value: int, max_value: int, num_colors: int) -> int {
    let idx = spec_bucket(value, max_value, num_colors);
    pack_rgb(idx * 255 / num_colors, (num_colors - idx) * 255 / num_colors, 0)
}

/// Maps `value` into one of `num_colors` buckets of `[0, max_value]` and
/// returns a color whose red channel grows and green channel shrinks with
/// the bucket index.
///
/// The bucket always satisfies `0 <= bucket < num_colors`.
pub fn map_color(value: usize, max_value: usize, num_colors: usize) -> (color: u32)
    requires
        num_colors >= 1,
        max_value / num_colors >= 1,
        num_colors <= usize::MAX / 255,
    ensures
        color == spec_map_color(value as int, max_value as int, num_colors as int),
        0 <= spec_bucket(value as int, max_value as int, num_colors as int) < num_colors,
{
    let segment_size = max_value / num_colors;
    let color_index_raw = value / segment_size;
    let color_index = if color_index_raw < num_colors - 1 {
        color_index_raw
    } else {
        num_colors - 1
    };
    proof {
        let n = num_colors as int;
        let i = color_index as int;
        assert(i * 255 <= usize::MAX as int) by (nonlinear_arith)
            requires
                i <= n - 1,
                n <= usize::MAX as int / 255,
        ;
        assert(i * 255 / n <= 255 && (n - i) * 255 / n <= 255) by (nonlinear_arith)
            requires
                n >= 1,
                0 <= i <= n - 1,
        ;
    }
    let r = color_index * 255 / num_colors;
    let g = (num_colors - color_index) * 255 / num_colors;
    (r * 65536 + g * 256) as u32
}

/// Position of `value` on the color wheel, scaled so that one full cycle
/// spans 1536 units (six sectors of 256).
pub open spec fn spec_hue(value: int, max_value: int) -> int {
    (value * 1536 / max_value) % 1536
}

/// Red channel over the wheel: full in the first sector, falling, zero,
/// rising, full again.
pub open spec fn spec_red(h: int) -> int {
    if h < 256 {
        255
    } else if h < 512 {
        511 - h
    } else if h < 1024 {
        0
    } else if h < 1280 {
        h - 1024
    } else {
        255
    }
}

/// Green channel over the wheel.
pub open spec fn spec_green(h: int) -> int {
    if h < 256 {
        h
    } else if h < 768 {
        255
    } else if h < 1024 {
        1023 - h
    } else {
        0
    }
}

/// Blue channel over the wheel.
pub open spec fn spec_blue(h: int) -> int {
    if h < 512 {
        0
    } else if h < 768 {
        h - 512
    } else if h < 1280 {
        255
    } else {
        1535 - h
    }
}

/// The cyclic hue gradient: full-saturation, full-value HSV converted to RGB
/// by the six-sector piecewise-linear chroma construction.
pub open spec fn spec_cyclic_gradient(value: int, max_value: int) -> int {
    let h = spec_hue(value, max_value);
    pack_rgb(spec_red(h), spec_green(h), spec_blue(h))
}

/// Maps `value / max_value` to a hue angle on the color wheel and converts
/// it to RGB. `_num_colors` is accepted for interface symmetry with
/// `map_color` but does not discretize the hue: the gradient is continuous
/// in `value`.
pub fn cyclic_gradient(value: usize, max_value: usize, _num_colors: usize) -> (color: u32)
    requires
        max_value >= 1,
        value <= usize::MAX / 1536,
    ensures
        color == spec_cyclic_gradient(value as int, max_value as int),
        color <= 0xFFFFFF,
{
    proof {
        assert((value as int) * 1536 <= usize::MAX as int) by (nonlinear_arith)
            requires
                value as int <= usize::MAX as int / 1536,
        ;
    }
    let h = (value * 1536 / max_value) % 1536;
    let r: usize = if h < 256 {
        255
    } else if h < 512 {
        511 - h
    } else if h < 1024 {
        0
    } else if h < 1280 {
        h - 1024
    } else {
        255
    };
    let g: usize = if h < 256 {
        h
    } else if h < 768 {
        255
    } else if h < 1024 {
        1023 - h
    } else {
        0
    };
    let b: usize = if h < 512 {
        0
    } else if h < 768 {
        h - 512
    } else if h < 1280 {
        255
    } else {
        1535 - h
    };
    (r * 65536 + g * 256 + b) as u32
}

/// Every channel of the cyclic gradient stays within `[0, 255]`.
pub proof fn lemma_cyclic_channels_bounded(h: int)
    requires
        0 <= h < 1536,
    ensures
        0 <= spec_red(h) <= 255,
        0 <= spec_green(h) <= 255,
        0 <= spec_blue(h) <= 255,
{
}

/// Each channel of the cyclic gradient moves by at most one unit per unit
/// of hue: the color wheel has no jumps inside a cycle.
pub proof fn lemma_cyclic_lipschitz(h1: int, h2: int)
    requires
        0 <= h1 <= h2 < 1536,
    ensures
        abs(spec_red(h2) - spec_red(h1)) <= h2 - h1,
        abs(spec_green(h2) - spec_green(h1)) <= h2 - h1,
        abs(spec_blue(h2) - spec_blue(h1)) <= h2 - h1,
{
}

/// Stepping `value` by one moves the hue by at most `1536 / max_value + 1`
/// wheel units, so successive colors of the sweep differ by at most that
/// much in every channel: the gradient is smooth away from the wrap-around.
pub proof fn lemma_cyclic_continuity(value: int, max_value: int)
    requires
        max_value >= 1,
        0 <= value,
        value + 1 < max_value,
    ensures
        abs(
            spec_red(spec_hue(value + 1, max_value)) - spec_red(spec_hue(value, max_value)),
        ) <= 1536int / max_value + 1,
        abs(
            spec_green(spec_hue(value + 1, max_value)) - spec_green(spec_hue(value, max_value)),
        ) <= 1536int / max_value + 1,
        abs(
            spec_blue(spec_hue(value + 1, max_value)) - spec_blue(spec_hue(value, max_value)),
        ) <= 1536int / max_value + 1,
{
    let m = max_value;
    let a = value * 1536;
    let b = (value + 1) * 1536;
    assert(b == a + 1536);
    lemma_div_pos_is_pos(a, m);
    lemma_div_pos_is_pos(b, m);
    assert(a < m * 1536 && b < m * 1536) by (nonlinear_arith)
        requires
            0 <= value,
            value + 1 < m,
            a == value * 1536,
            b == (value + 1) * 1536,
    ;
    lemma_multiply_divide_lt(a, m, 1536);
    lemma_multiply_divide_lt(b, m, 1536);
    lemma_small_mod((a / m) as nat, 1536);
    lemma_small_mod((b / m) as nat, 1536);
    assert(spec_hue(value, m) == a / m);
    assert(spec_hue(value + 1, m) == b / m);
    lemma_fundamental_div_mod(a, m);
    let q = a / m;
    let r = a % m;
    lemma_hoist_over_denominator(r + 1536, q, m as nat);
    assert(q * m + (r + 1536) == b);
    assert(b / m == q + (r + 1536) / m);
    lemma_div_is_ordered(1536, r + 1536, m);
    lemma_div_is_ordered(r + 1536, 1535 + m, m);
    lemma_hoist_over_denominator(1535, 1, m as nat);
    lemma_div_is_ordered(1535, 1536, m);
    assert(1536int / m <= (r + 1536) / m <= 1536int / m + 1);
    lemma_cyclic_lipschitz(a / m, b / m);
}

/// A full sweep is cyclic: at `value == max_value` the hue wraps around to
/// exactly the color of `value == 0`.
pub proof fn lemma_cyclic_wraps(max_value: int)
    requires
        max_value >= 1,
    ensures
        spec_cyclic_gradient(max_value, max_value) == spec_cyclic_gradient(0, max_value),
{
    let m = max_value;
    assert(m * 1536 / m == 1536) by (nonlinear_arith)
        requires
            m >= 1,
    ;
    assert(spec_hue(m, m) == 1536int % 1536);
    assert(spec_hue(0, m) == 0);
}

} // verus!
