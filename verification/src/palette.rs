//! The cubic color space: its sizes, its coordinates and their display colors.

use vstd::prelude::*;
use vstd::arithmetic::div_mod::{
    lemma_div_denominator, lemma_div_is_ordered, lemma_div_multiples_vanish,
    lemma_fundamental_div_mod, lemma_fundamental_div_mod_converse, lemma_multiply_divide_lt,
};

verus! {

/// Largest scale whose color axis still fits one-byte coordinates.
pub const MAX_SCALE: u64 = 16;

/// Scales for which a palette exists: at least two levels per axis are needed
/// to spread them over `0..=255`, and at most 256 levels fit a byte.
pub open spec fn valid_scale(scale: u64) -> bool {
    2 <= scale <= MAX_SCALE
}

/// Number of levels on each color axis: the square of the scale.
pub open spec fn spec_color_axis_size(scale: int) -> int {
    scale * scale
}

/// Side of the square grid: the cube of the scale.
pub open spec fn spec_grid_size(scale: int) -> int {
    scale * scale * scale
}

/// Number of colors of the palette, which is also the number of grid cells:
/// the sixth power of the scale.
pub open spec fn spec_color_count(scale: int) -> int {
    spec_grid_size(scale) * spec_grid_size(scale)
}

/// The sizes of a valid scale are small and tied to each other.
pub proof fn lemma_sizes(scale: u64)
    requires
        valid_scale(scale),
    ensures
        4 <= spec_color_axis_size(scale as int) <= 256,
        8 <= spec_grid_size(scale as int) <= 4096,
        64 <= spec_color_count(scale as int) <= 16_777_216,
        spec_color_count(scale as int) == spec_color_axis_size(scale as int)
            * spec_color_axis_size(scale as int) * spec_color_axis_size(scale as int),
{
    let s = scale as int;
    assert(4 <= s * s <= 256) by (nonlinear_arith)
        requires 2 <= s <= 16;
    assert(8 <= s * s * s <= 4096) by (nonlinear_arith)
        requires 2 <= s <= 16;
    assert(64 <= (s * s * s) * (s * s * s) <= 16_777_216) by (nonlinear_arith)
        requires 8 <= s * s * s <= 4096;
    assert((s * s * s) * (s * s * s) == (s * s) * (s * s) * (s * s)) by (nonlinear_arith);
}

/// Computes the number of levels per color axis.
pub fn color_axis_size(scale: u64) -> (axis: u64)
    requires
        valid_scale(scale),
    ensures
        axis == spec_color_axis_size(scale as int),
{
    proof {
        lemma_sizes(scale);
    }
    scale * scale
}

/// Computes the side of the grid.
pub fn grid_size(scale: u64) -> (side: usize)
    requires
        valid_scale(scale),
    ensures
        side == spec_grid_size(scale as int),
{
    proof {
        lemma_sizes(scale);
    }
    let axis: u64 = scale * scale;
    (axis * scale) as usize
}

/// Computes the number of colors.
pub fn color_count(scale: u64) -> (count: usize)
    requires
        valid_scale(scale),
    ensures
        count == spec_color_count(scale as int),
{
    proof {
        lemma_sizes(scale);
    }
    let side: usize = grid_size(scale);
    side * side
}

/// A point of the color lattice, one level per axis.
#[derive(Clone, Copy, Debug, PartialEq, Eq, Hash, Structural)]
pub struct ColorCoord {
    pub r: u8,
    pub g: u8,
    pub b: u8,
}

/// A displayable color, one byte per channel.
#[derive(Clone, Copy, Debug, PartialEq, Eq, Hash, Structural)]
pub struct Color {
    pub r: u8,
    pub g: u8,
    pub b: u8,
}

impl ColorCoord {
    /// Every level lies on an axis of `axis` levels.
    pub open spec fn within(self, axis: int) -> bool {
        self.r < axis && self.g < axis && self.b < axis
    }

    /// Place of the coordinate in the enumeration of the lattice, red running
    /// fastest.
    pub open spec fn position(self, axis: int) -> int {
        self.r + axis * (self.g + axis * self.b)
    }
}

/// The coordinate at place `n` of the enumeration: the three digits of `n`
/// in base `axis`, red being the lowest.
pub open spec fn coord_at(n: int, axis: int) -> ColorCoord {
    ColorCoord {
        r: (n % axis) as u8,
        g: ((n / axis) % axis) as u8,
        b: (n / (axis * axis)) as u8,
    }
}

/// The whole palette in enumeration order.
pub open spec fn spec_color_bases(scale: int) -> Seq<ColorCoord> {
    Seq::new(
        spec_color_count(scale) as nat,
        |n: int| coord_at(n, spec_color_axis_size(scale)),
    )
}

/// A place below `axis³` splits into three digits below `axis`, and the
/// digits give the place back.
pub proof fn lemma_coord_at(n: int, axis: int)
    requires
        0 < axis <= 256,
        0 <= n < axis * axis * axis,
    ensures
        coord_at(n, axis).within(axis),
        coord_at(n, axis).position(axis) == n,
        coord_at(n, axis).r == n % axis,
        coord_at(n, axis).g == (n / axis) % axis,
        coord_at(n, axis).b == n / (axis * axis),
{
    let q = n / axis;
    lemma_fundamental_div_mod(n, axis);
    lemma_fundamental_div_mod(q, axis);
    lemma_div_denominator(n, axis, axis);
    assert(n < axis * (axis * axis)) by (nonlinear_arith)
        requires n < axis * axis * axis;
    lemma_multiply_divide_lt(n, axis, axis * axis);
    lemma_multiply_divide_lt(q, axis, axis);
    assert(0 <= q) by (nonlinear_arith)
        requires 0 <= n, 0 < axis, q == n / axis;
    assert(0 <= q / axis) by (nonlinear_arith)
        requires 0 <= q, 0 < axis;
    assert(0 <= n % axis < axis && 0 <= q % axis < axis) by (nonlinear_arith)
        requires 0 < axis;
}

/// The place of a coordinate of the lattice is below `axis³`, and the
/// coordinate stands at that place.
pub proof fn lemma_position(c: ColorCoord, axis: int)
    requires
        0 < axis <= 256,
        c.within(axis),
    ensures
        0 <= c.position(axis) < axis * axis * axis,
        coord_at(c.position(axis), axis) == c,
{
    let n = c.position(axis);
    let hi = c.g + axis * c.b;
    assert(0 <= hi < axis * axis && 0 <= n < axis * axis * axis) by (nonlinear_arith)
        requires
            0 <= c.r < axis,
            0 <= c.g < axis,
            0 <= c.b < axis,
            hi == c.g + axis * c.b,
            n == c.r + axis * hi,
    ;
    assert(n == hi * axis + c.r) by (nonlinear_arith)
        requires n == c.r + axis * hi;
    lemma_fundamental_div_mod_converse(n, axis, hi, c.r as int);
    assert(hi == c.b * axis + c.g) by (nonlinear_arith)
        requires hi == c.g + axis * c.b;
    lemma_fundamental_div_mod_converse(hi, axis, c.b as int, c.g as int);
    lemma_div_denominator(n, axis, axis);
}

/// Two different places of the enumeration hold two different coordinates.
pub proof fn lemma_coord_at_injective(m: int, n: int, axis: int)
    requires
        0 < axis <= 256,
        0 <= m < axis * axis * axis,
        0 <= n < axis * axis * axis,
        m != n,
    ensures
        coord_at(m, axis) != coord_at(n, axis),
{
    lemma_coord_at(m, axis);
    lemma_coord_at(n, axis);
}

/// The palette of a valid scale holds `scale⁶` coordinates, each on the
/// lattice and no two alike, and every coordinate of the lattice is in it at
/// its own place.
pub proof fn lemma_color_bases(scale: u64)
    requires
        valid_scale(scale),
    ensures
        spec_color_bases(scale as int).len() == spec_color_count(scale as int),
        forall|n: int|
            0 <= n < spec_color_count(scale as int) ==> (#[trigger] spec_color_bases(
                scale as int,
            )[n]).within(spec_color_axis_size(scale as int)),
        forall|m: int, n: int|
            0 <= m < n < spec_color_count(scale as int) ==> #[trigger] spec_color_bases(
                scale as int,
            )[m] != #[trigger] spec_color_bases(scale as int)[n],
        forall|c: ColorCoord| #[trigger]
            c.within(spec_color_axis_size(scale as int)) ==> 0 <= c.position(
                spec_color_axis_size(scale as int),
            ) < spec_color_count(scale as int) && spec_color_bases(scale as int)[c.position(
                spec_color_axis_size(scale as int),
            )] == c,
{
    lemma_sizes(scale);
    let axis = spec_color_axis_size(scale as int);
    let count = spec_color_count(scale as int);
    let bases = spec_color_bases(scale as int);
    assert forall|n: int| 0 <= n < count implies (#[trigger] bases[n]).within(axis) by {
        lemma_coord_at(n, axis);
    }
    assert forall|m: int, n: int| 0 <= m < n < count implies #[trigger] bases[m]
        != #[trigger] bases[n] by {
        lemma_coord_at_injective(m, n, axis);
    }
    assert forall|c: ColorCoord| #[trigger] c.within(axis) implies 0 <= c.position(axis) < count
        && bases[c.position(axis)] == c by {
        lemma_position(c, axis);
    }
}

/// Enumerates the palette: the coordinate at place `n` holds the digits of
/// `n` in base `scale²`, red lowest. Every coordinate of the lattice occurs
/// once.
pub fn color_bases(scale: u64) -> (bases: Vec<ColorCoord>)
    requires
        valid_scale(scale),
    ensures
        bases@ == spec_color_bases(scale as int),
        bases.len() == spec_color_count(scale as int),
        forall|n: int|
            0 <= n < bases.len() ==> (#[trigger] bases[n]).within(
                spec_color_axis_size(scale as int),
            ),
        forall|m: int, n: int| 0 <= m < n < bases.len() ==> bases[m] != bases[n],
{
    let axis: usize = color_axis_size(scale) as usize;
    let count: usize = color_count(scale);
    proof {
        lemma_sizes(scale);
        lemma_color_bases(scale);
    }
    let mut bases: Vec<ColorCoord> = Vec::new();
    let mut n: usize = 0;
    while n < count
        invariant
            valid_scale(scale),
            axis == spec_color_axis_size(scale as int),
            count == spec_color_count(scale as int),
            count == axis * axis * axis,
            4 <= axis <= 256,
            n <= count,
            bases.len() == n,
            forall|k: int| 0 <= k < n ==> bases[k] == coord_at(k, axis as int),
        decreases count - n,
    {
        proof {
            lemma_coord_at(n as int, axis as int);
            assert(axis * axis <= 65536) by (nonlinear_arith)
                requires axis <= 256;
        }
        let coord = ColorCoord {
            r: (n % axis) as u8,
            g: ((n / axis) % axis) as u8,
            b: (n / (axis * axis)) as u8,
        };
        bases.push(coord);
        n += 1;
    }
    assert(bases@ =~= spec_color_bases(scale as int));
    bases
}

/// One channel of a display color: level `level` of an axis of `axis` levels,
/// spread linearly over `0..=255` and cut to a byte.
pub open spec fn spec_channel(level: int, axis: int) -> int {
    (level * 255 / (axis - 1)) % 256
}

/// The display color of a coordinate.
pub open spec fn spec_color_of(coord: ColorCoord, axis: int) -> Color {
    Color {
        r: spec_channel(coord.r as int, axis) as u8,
        g: spec_channel(coord.g as int, axis) as u8,
        b: spec_channel(coord.b as int, axis) as u8,
    }
}

/// On an axis of at most 256 levels the spread loses nothing: it is exact at
/// both ends and strictly increasing in between.
pub proof fn lemma_channel(level: int, axis: int)
    requires
        2 <= axis <= 256,
        0 <= level < axis,
    ensures
        spec_channel(level, axis) == level * 255 / (axis - 1),
        0 <= spec_channel(level, axis) <= 255,
        spec_channel(0, axis) == 0,
        spec_channel(axis - 1, axis) == 255,
        level + 1 < axis ==> spec_channel(level, axis) < spec_channel(level + 1, axis),
{
    let d = axis - 1;
    assert(0 <= level * 255 <= d * 255) by (nonlinear_arith)
        requires 0 <= level <= d;
    lemma_div_is_ordered(0, level * 255, d);
    lemma_div_is_ordered(level * 255, d * 255, d);
    lemma_div_multiples_vanish(255, d);
    assert(d * 255 == (axis - 1) * 255);
    assert(0int / d == 0) by (nonlinear_arith)
        requires d > 0;
    assert(0 * 255 == 0);
    if level + 1 < axis {
        // Raising the level adds 255, which is at least one whole divisor.
        let x = level * 255;
        lemma_fundamental_div_mod(x, d);
        lemma_fundamental_div_mod(x + 255, d);
        assert((x + 255) / d > x / d) by (nonlinear_arith)
            requires
                0 < d <= 255,
                x == d * (x / d) + (x % d),
                x + 255 == d * ((x + 255) / d) + ((x + 255) % d),
                0 <= x % d < d,
                0 <= (x + 255) % d < d,
        ;
        assert((level + 1) * 255 == x + 255) by (nonlinear_arith)
            requires x == level * 255;
        assert(0 <= (level + 1) * 255 <= d * 255) by (nonlinear_arith)
            requires 0 <= level + 1 <= d;
        lemma_div_is_ordered((level + 1) * 255, d * 255, d);
        lemma_div_is_ordered(0, (level + 1) * 255, d);
    }
}

/// Two different levels of one axis get two different channel values.
pub proof fn lemma_channel_injective(a: int, b: int, axis: int)
    requires
        2 <= axis <= 256,
        0 <= a < b < axis,
    ensures
        spec_channel(a, axis) < spec_channel(b, axis),
    decreases b - a,
{
    lemma_channel(a, axis);
    if a + 1 < b {
        lemma_channel_injective(a + 1, b, axis);
    }
}

/// Two different coordinates of one lattice get two different display colors.
pub proof fn lemma_color_of_injective(c: ColorCoord, d: ColorCoord, axis: int)
    requires
        2 <= axis <= 256,
        c.within(axis),
        d.within(axis),
        c != d,
    ensures
        spec_color_of(c, axis) != spec_color_of(d, axis),
{
    lemma_channel(c.r as int, axis);
    lemma_channel(c.g as int, axis);
    lemma_channel(c.b as int, axis);
    lemma_channel(d.r as int, axis);
    lemma_channel(d.g as int, axis);
    lemma_channel(d.b as int, axis);
    if c.r < d.r {
        lemma_channel_injective(c.r as int, d.r as int, axis);
    } else if d.r < c.r {
        lemma_channel_injective(d.r as int, c.r as int, axis);
    } else if c.g < d.g {
        lemma_channel_injective(c.g as int, d.g as int, axis);
    } else if d.g < c.g {
        lemma_channel_injective(d.g as int, c.g as int, axis);
    } else if c.b < d.b {
        lemma_channel_injective(c.b as int, d.b as int, axis);
    } else {
        lemma_channel_injective(d.b as int, c.b as int, axis);
    }
}

/// Spreads one level over `0..=255`.
fn channel(level: u8, color_size: u64) -> (value: u8)
    requires
        color_size >= 2,
    ensures
        value == spec_channel(level as int, color_size as int),
{
    let wide: u64 = level as u64 * 255 / (color_size - 1);
    (wide % 256) as u8
}

/// Turns a coordinate into its display color by spreading each level of an
/// axis of `color_size` levels linearly over `0..=255`.
pub fn color_base_to_color(cb: ColorCoord, color_size: u64) -> (color: Color)
    requires
        color_size >= 2,
    ensures
        color == spec_color_of(cb, color_size as int),
{
    Color {
        r: channel(cb.r, color_size),
        g: channel(cb.g, color_size),
        b: channel(cb.b, color_size),
    }
}

} // verus!
