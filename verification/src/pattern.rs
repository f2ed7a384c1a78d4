//! Generated charts: checkerboard, stripes, diamonds, chevron, spiral and
//! noise, in as many colours as the palette has yarns.

use vstd::prelude::*;
use crate::color::Yarn;
use vstd::arithmetic::div_mod::{
    lemma_add_mod_noop_right, lemma_div_by_multiple, lemma_div_plus_one, lemma_mod_add_multiples_vanish,
    lemma_small_mod,
};

verus! {

/// The patterns that can be generated.
#[derive(Clone, Copy, PartialEq, Eq, Structural, Debug)]
pub enum PatternType {
    Checkerboard,
    Stripes,
    Diamonds,
    Chevron,
    Spiral,
    Noise,
}

/// An integer taken modulo 2^32, as 32-bit arithmetic that wraps gives it.
pub open spec fn wrap32(v: nat) -> u32 {
    (v % 0x1_0000_0000) as u32
}

/// Distance between two integers.
pub open spec fn abs_diff(a: int, b: int) -> nat {
    if a >= b {
        (a - b) as nat
    } else {
        (b - a) as nat
    }
}

/// Number of colours a pattern cycles through: the palette size, at least 1.
pub open spec fn colour_count(palette_len: nat) -> u32 {
    if palette_len > 1 {
        palette_len as u32
    } else {
        1
    }
}

/// The chevron period: twice the tile (a tile of 0 counts as 1), in 32 bits.
pub open spec fn chevron_period(tile: u32) -> u32 {
    wrap32(2 * (if tile > 0 {
        tile
    } else {
        1
    }) as nat)
}

/// Colour index of cell `(x, y)` (column, row) of a `w`×`h` pattern in `n`
/// colours with tile size `tile`, for every pattern but the spiral.
pub open spec fn pattern_value(
    kind: PatternType,
    x: u32,
    y: u32,
    w: u32,
    h: u32,
    n: u32,
    tile: u32,
) -> u32 {
    match kind {
        PatternType::Checkerboard => wrap32((x / tile + y / tile) as nat) % n,
        PatternType::Stripes => (y / tile) % n,
        PatternType::Diamonds => {
            let t = if tile > 0 {
                tile
            } else {
                1
            };
            ((abs_diff(x as int, (w / 2) as int) + abs_diff(y as int, (h / 2) as int)) / (t as nat)
                % (n as nat)) as u32
        },
        PatternType::Chevron => {
            let m = chevron_period(tile);
            let q = if m / n > 0 {
                m / n
            } else {
                1
            };
            (wrap32((x + y % m) as nat) % m) / q % n
        },
        PatternType::Noise => (wrap32((x * 2654435761u32) as nat) ^ wrap32(
            (y * 2246822519u32) as nat,
        )) % n,
        PatternType::Spiral => 0,
    }
}

/// The pattern can be computed without a division by zero or a coordinate
/// that does not fit an `i32`.
pub open spec fn pattern_computable(kind: PatternType, w: u32, h: u32, tile: u32) -> bool {
    w > 0 && h > 0 ==> match kind {
        PatternType::Checkerboard | PatternType::Stripes => tile > 0,
        PatternType::Chevron => chevron_period(tile) != 0,
        PatternType::Diamonds => w <= 0x7fff_ffff && h <= 0x7fff_ffff,
        _ => true,
    }
}

fn cell_value(kind: PatternType, x: u32, y: u32, w: u32, h: u32, n: u32, tile: u32) -> (v: u32)
    requires
        n > 0,
        x < w,
        y < h,
        kind != PatternType::Spiral,
        pattern_computable(kind, w, h, tile),
    ensures
        v == pattern_value(kind, x, y, w, h, n, tile),
{
    match kind {
        PatternType::Checkerboard => (x / tile).wrapping_add(y / tile) % n,
        PatternType::Stripes => (y / tile) % n,
        PatternType::Diamonds => {
            let t = if tile > 0 {
                tile
            } else {
                1
            };
            let cx = w / 2;
            let cy = h / 2;
            let dx = if x >= cx {
                x - cx
            } else {
                cx - x
            };
            let dy = if y >= cy {
                y - cy
            } else {
                cy - y
            };
            (dx + dy) / t % n
        },
        PatternType::Chevron => {
            let t = if tile > 0 {
                tile
            } else {
                1
            };
            let m = t.wrapping_mul(2);
            let q = if m / n > 0 {
                m / n
            } else {
                1
            };
            (x.wrapping_add(y % m) % m) / q % n
        },
        PatternType::Noise => (x.wrapping_mul(2654435761) ^ y.wrapping_mul(2246822519)) % n,
        PatternType::Spiral => 0,
    }
}

/// `cell` is a value that `spiral` gives at `(x, y)`, modulo `n`.
pub open spec fn spiral_cell<F: Fn(u32, u32) -> u32>(spiral: F, x: u32, y: u32, n: u32, cell: usize) -> bool {
    exists|v: u32| #[trigger] call_ensures(spiral, (x, y), v) && cell == (v % n) as usize
}

/// `chart` is the `w`×`h` pattern of kind `kind`; a spiral cell `(x, y)` is
/// the value that `spiral` gives there, modulo the colour count.
pub open spec fn is_pattern<F: Fn(u32, u32) -> u32>(
    chart: Seq<Vec<usize>>,
    kind: PatternType,
    w: u32,
    h: u32,
    n: u32,
    tile: u32,
    spiral: F,
) -> bool {
    &&& chart.len() == h
    &&& forall|y: int| 0 <= y < h ==> (#[trigger] chart[y])@.len() == w
    &&& forall|y: int, x: int|
        0 <= y < h && 0 <= x < w ==> if kind == PatternType::Spiral {
            spiral_cell(spiral, x as u32, y as u32, n, #[trigger] chart[y]@[x])
        } else {
            #[trigger] chart[y]@[x] == pattern_value(kind, x as u32, y as u32, w, h, n, tile) as usize
        }
}

/// Generates a `w`×`h` chart of the given pattern over the palette's
/// colours. The spiral's cell values come from `spiral` (its angle and
/// radius are floating-point work); they are taken modulo the colour count.
pub fn gen_pattern<F: Fn(u32, u32) -> u32>(
    kind: &PatternType,
    w: u32,
    h: u32,
    palette: &[Yarn],
    tile: u32,
    spiral: F,
) -> (chart: Vec<Vec<usize>>)
    requires
        palette@.len() <= u32::MAX,
        pattern_computable(*kind, w, h, tile),
        *kind == PatternType::Spiral ==> forall|x: u32, y: u32|
            x < w && y < h ==> call_requires(spiral, (x, y)),
    ensures
        is_pattern(chart@, *kind, w, h, colour_count(palette@.len()), tile, spiral),
{
    let n: u32 = if palette.len() > 1 {
        palette.len() as u32
    } else {
        1
    };
    let mut chart: Vec<Vec<usize>> = Vec::new();
    let mut y: u32 = 0;
    while y < h
        invariant
            n == colour_count(palette@.len()),
            n > 0,
            palette@.len() <= u32::MAX,
            pattern_computable(*kind, w, h, tile),
            *kind == PatternType::Spiral ==> forall|x: u32, y: u32|
                x < w && y < h ==> call_requires(spiral, (x, y)),
            y <= h,
            chart@.len() == y,
            forall|yy: int| 0 <= yy < y ==> (#[trigger] chart@[yy])@.len() == w,
            forall|yy: int, x: int|
                0 <= yy < y && 0 <= x < w ==> if *kind == PatternType::Spiral {
                    spiral_cell(spiral, x as u32, yy as u32, n, #[trigger] chart@[yy]@[x])
                } else {
                    #[trigger] chart@[yy]@[x] == pattern_value(
                        *kind,
                        x as u32,
                        yy as u32,
                        w,
                        h,
                        n,
                        tile,
                    ) as usize
                },
        decreases h - y,
    {
        let mut row: Vec<usize> = Vec::new();
        let mut x: u32 = 0;
        while x < w
            invariant
                n == colour_count(palette@.len()),
                n > 0,
                pattern_computable(*kind, w, h, tile),
                *kind == PatternType::Spiral ==> forall|x: u32, y: u32|
                    x < w && y < h ==> call_requires(spiral, (x, y)),
                y < h,
                x <= w,
                row@.len() == x,
                forall|k: int|
                    0 <= k < x ==> if *kind == PatternType::Spiral {
                        spiral_cell(spiral, k as u32, y, n, #[trigger] row@[k])
                    } else {
                        #[trigger] row@[k] == pattern_value(*kind, k as u32, y, w, h, n, tile) as usize
                    },
            decreases w - x,
        {
            let v = if *kind == PatternType::Spiral {
                let s = spiral(x, y);
                s % n
            } else {
                cell_value(*kind, x, y, w, h, n, tile)
            };
            row.push(v as usize);
            x = x + 1;
        }
        chart.push(row);
        y = y + 1;
    }
    chart
}

/// Every cell of a generated pattern is below the colour count, so it names
/// a yarn of the palette when the palette is not empty.
pub proof fn law_pattern_cells_in_range<F: Fn(u32, u32) -> u32>(
    chart: Seq<Vec<usize>>,
    kind: PatternType,
    w: u32,
    h: u32,
    n: u32,
    tile: u32,
    spiral: F,
    y: int,
    x: int,
)
    requires
        is_pattern(chart, kind, w, h, n, tile, spiral),
        n > 0,
        0 <= y < h,
        0 <= x < w,
    ensures
        chart[y]@[x] < n,
{
    assert(chart[y]@[x] == chart[y]@[x]);
    if kind == PatternType::Spiral {
        assert(spiral_cell(spiral, x as u32, y as u32, n, chart[y]@[x]));
    } else {
        match kind {
            PatternType::Diamonds => {
                let t = if tile > 0 {
                    tile
                } else {
                    1
                };
                let s = abs_diff(x, (w / 2) as int) + abs_diff(y, (h / 2) as int);
                assert((s / (t as nat)) % (n as nat) < n);
            },
            _ => {},
        }
    }
}

} // verus!

verus! {

/// Moving one tile right along a checkerboard moves to the next colour
/// (while the sum of the tile numbers fits 32 bits).
pub proof fn law_checkerboard_next_right<F: Fn(u32, u32) -> u32>(
    chart: Seq<Vec<usize>>,
    w: u32,
    h: u32,
    n: u32,
    tile: u32,
    spiral: F,
    x: u32,
    y: u32,
)
    requires
        is_pattern(chart, PatternType::Checkerboard, w, h, n, tile, spiral),
        n > 0,
        tile >= 1,
        y < h,
        x + tile < w,
        x / tile + y / tile + 1 < 0x1_0000_0000,
    ensures
        chart[y as int]@[x + tile] == (chart[y as int]@[x as int] + 1) % (n as int),
{
    let a = x / tile + y / tile;
    lemma_div_plus_one(x as int, tile as int);
    let x2 = (x + tile) as u32;
    assert(x2 / tile == x / tile + 1);
    assert(chart[y as int]@[x as int] == a % (n as int));
    assert(chart[y as int]@[x2 as int] == (a + 1) % (n as int));
    lemma_add_mod_noop_right(1, a, n as int);
}

/// Moving one tile down a checkerboard moves to the next colour (while the
/// sum of the tile numbers fits 32 bits).
pub proof fn law_checkerboard_next_down<F: Fn(u32, u32) -> u32>(
    chart: Seq<Vec<usize>>,
    w: u32,
    h: u32,
    n: u32,
    tile: u32,
    spiral: F,
    x: u32,
    y: u32,
)
    requires
        is_pattern(chart, PatternType::Checkerboard, w, h, n, tile, spiral),
        n > 0,
        tile >= 1,
        x < w,
        y + tile < h,
        x / tile + y / tile + 1 < 0x1_0000_0000,
    ensures
        chart[y + tile]@[x as int] == (chart[y as int]@[x as int] + 1) % (n as int),
{
    let a = x / tile + y / tile;
    lemma_div_plus_one(y as int, tile as int);
    let y2 = (y + tile) as u32;
    assert(y2 / tile == y / tile + 1);
    assert(chart[y as int]@[x as int] == a % (n as int));
    assert(chart[y2 as int]@[x as int] == (a + 1) % (n as int));
    lemma_add_mod_noop_right(1, a, n as int);
}

/// A square checkerboard is symmetric about its diagonal.
pub proof fn law_checkerboard_symmetric<F: Fn(u32, u32) -> u32>(
    chart: Seq<Vec<usize>>,
    w: u32,
    n: u32,
    tile: u32,
    spiral: F,
    x: u32,
    y: u32,
)
    requires
        is_pattern(chart, PatternType::Checkerboard, w, w, n, tile, spiral),
        x < w,
        y < w,
    ensures
        chart[y as int]@[x as int] == chart[x as int]@[y as int],
{
    assert(chart[y as int]@[x as int] == pattern_value(PatternType::Checkerboard, x, y, w, w, n, tile) as usize);
    assert(chart[x as int]@[y as int] == pattern_value(PatternType::Checkerboard, y, x, w, w, n, tile) as usize);
}

/// A generated chart depends on the palette only through its length: two
/// palettes of one length give the same chart. For the spiral this holds
/// when the two spiral functions give one and the same value at every cell.
pub proof fn law_pattern_depends_on_palette_length<F1: Fn(u32, u32) -> u32, F2: Fn(u32, u32) -> u32>(
    c1: Seq<Vec<usize>>,
    c2: Seq<Vec<usize>>,
    p1: Seq<Yarn>,
    p2: Seq<Yarn>,
    kind: PatternType,
    w: u32,
    h: u32,
    tile: u32,
    s1: F1,
    s2: F2,
)
    requires
        p1.len() == p2.len(),
        kind == PatternType::Spiral ==> forall|x: u32, y: u32, v1: u32, v2: u32|
            x < w && y < h && call_ensures(s1, (x, y), v1) && call_ensures(s2, (x, y), v2) ==> v1
                == v2,
        is_pattern(c1, kind, w, h, colour_count(p1.len()), tile, s1),
        is_pattern(c2, kind, w, h, colour_count(p2.len()), tile, s2),
    ensures
        c1.map_values(|r: Vec<usize>| r@) == c2.map_values(|r: Vec<usize>| r@),
{
    let n = colour_count(p1.len());
    assert forall|y: int| 0 <= y < h implies (#[trigger] c1[y])@ =~= c2[y]@ by {
        assert forall|x: int| 0 <= x < w implies c1[y]@[x] == c2[y]@[x] by {
            if kind == PatternType::Spiral {
                assert(spiral_cell(s1, x as u32, y as u32, n, c1[y]@[x]));
                assert(spiral_cell(s2, x as u32, y as u32, n, c2[y]@[x]));
                let v1 = choose|v: u32|
                    #[trigger] call_ensures(s1, (x as u32, y as u32), v) && c1[y]@[x] == (v % n) as usize;
                let v2 = choose|v: u32|
                    #[trigger] call_ensures(s2, (x as u32, y as u32), v) && c2[y]@[x] == (v % n) as usize;
                assert(v1 == v2);
            } else {
                assert(c1[y]@[x] == pattern_value(kind, x as u32, y as u32, w, h, n, tile) as usize);
                assert(c2[y]@[x] == pattern_value(kind, x as u32, y as u32, w, h, n, tile) as usize);
            }
        }
    }
    assert(c1.map_values(|r: Vec<usize>| r@) =~= c2.map_values(|r: Vec<usize>| r@));
}

} // verus!

verus! {

/// Stripes move to the next colour every `tile` rows.
pub proof fn law_stripes_next_colour<F: Fn(u32, u32) -> u32>(
    chart: Seq<Vec<usize>>,
    w: u32,
    h: u32,
    n: u32,
    tile: u32,
    spiral: F,
    x: u32,
    y: u32,
)
    requires
        is_pattern(chart, PatternType::Stripes, w, h, n, tile, spiral),
        n > 0,
        tile >= 1,
        x < w,
        y + tile < h,
    ensures
        chart[y + tile]@[x as int] == (chart[y as int]@[x as int] + 1) % (n as int),
{
    let a: int = (y / tile) as int;
    lemma_div_plus_one(y as int, tile as int);
    let y2 = (y + tile) as u32;
    assert(y2 / tile == y / tile + 1);
    assert(chart[y as int]@[x as int] == a % (n as int));
    assert(chart[y2 as int]@[x as int] == (a + 1) % (n as int));
    lemma_add_mod_noop_right(1, a, n as int);
}

/// Stripe `k` (rows `k·tile` on) has colour `k`, for every colour below the
/// colour count: a chart of `n·tile` rows or more uses every colour.
pub proof fn law_stripes_use_every_colour<F: Fn(u32, u32) -> u32>(
    chart: Seq<Vec<usize>>,
    w: u32,
    h: u32,
    n: u32,
    tile: u32,
    spiral: F,
    x: u32,
    k: nat,
)
    requires
        is_pattern(chart, PatternType::Stripes, w, h, n, tile, spiral),
        tile >= 1,
        k < n,
        x < w,
        k * tile < h,
    ensures
        chart[k * tile]@[x as int] == k,
{
    lemma_div_by_multiple(k as int, tile as int);
    let y = (k * tile) as u32;
    assert(y as int == k * tile);
    assert(y / tile == k);
    assert(chart[y as int]@[x as int] == pattern_value(PatternType::Stripes, x, y, w, h, n, tile) as usize);
    lemma_small_mod(k, n as nat);
    assert((y / tile) % n == k);
}

} // verus!

verus! {

/// The centre cell of a diamond pattern has the first colour.
pub proof fn law_diamonds_centre<F: Fn(u32, u32) -> u32>(
    chart: Seq<Vec<usize>>,
    w: u32,
    h: u32,
    n: u32,
    tile: u32,
    spiral: F,
)
    requires
        is_pattern(chart, PatternType::Diamonds, w, h, n, tile, spiral),
        n > 0,
        w > 0,
        h > 0,
    ensures
        chart[(h / 2) as int]@[(w / 2) as int] == 0,
{
    assert(chart[(h / 2) as int]@[(w / 2) as int] == pattern_value(
        PatternType::Diamonds,
        w / 2,
        h / 2,
        w,
        h,
        n,
        tile,
    ) as usize);
    let t: u32 = if tile > 0 { tile } else { 1 };
    assert(abs_diff((w / 2) as int, (w / 2) as int) + abs_diff((h / 2) as int, (h / 2) as int) == 0);
    assert(0nat / (t as nat) == 0) by (nonlinear_arith)
        requires
            t > 0,
    ;
    lemma_small_mod(0, n as nat);
}

/// Cells of a diamond pattern at the same distance across and down from
/// the centre have the same colour: the pattern is mirrored left to right
/// and top to bottom about the centre.
pub proof fn law_diamonds_mirrored<F: Fn(u32, u32) -> u32>(
    chart: Seq<Vec<usize>>,
    w: u32,
    h: u32,
    n: u32,
    tile: u32,
    spiral: F,
    x1: u32,
    y1: u32,
    x2: u32,
    y2: u32,
)
    requires
        is_pattern(chart, PatternType::Diamonds, w, h, n, tile, spiral),
        x1 < w && x2 < w && y1 < h && y2 < h,
        x1 + x2 == 2 * (w / 2) || x1 == x2,
        y1 + y2 == 2 * (h / 2) || y1 == y2,
    ensures
        chart[y1 as int]@[x1 as int] == chart[y2 as int]@[x2 as int],
{
    assert(chart[y1 as int]@[x1 as int] == pattern_value(PatternType::Diamonds, x1, y1, w, h, n, tile) as usize);
    assert(chart[y2 as int]@[x2 as int] == pattern_value(PatternType::Diamonds, x2, y2, w, h, n, tile) as usize);
    assert(abs_diff(x1 as int, (w / 2) as int) == abs_diff(x2 as int, (w / 2) as int));
    assert(abs_diff(y1 as int, (h / 2) as int) == abs_diff(y2 as int, (h / 2) as int));
}

/// Moving one tile farther right of the centre of a diamond pattern moves
/// to the next colour (a tile of 0 counts as 1).
pub proof fn law_diamonds_next_ring<F: Fn(u32, u32) -> u32>(
    chart: Seq<Vec<usize>>,
    w: u32,
    h: u32,
    n: u32,
    tile: u32,
    spiral: F,
    x: u32,
    y: u32,
)
    requires
        is_pattern(chart, PatternType::Diamonds, w, h, n, tile, spiral),
        n > 0,
        y < h,
        w / 2 <= x,
        x + (if tile > 0 { tile } else { 1 }) < w,
    ensures
        chart[y as int]@[x + (if tile > 0 { tile } else { 1 })] == (chart[y as int]@[x as int] + 1)
            % (n as int),
{
    let t: u32 = if tile > 0 { tile } else { 1 };
    let x2 = (x + t) as u32;
    let d: int = (abs_diff(x as int, (w / 2) as int) + abs_diff(y as int, (h / 2) as int)) as int;
    assert(abs_diff(x2 as int, (w / 2) as int) + abs_diff(y as int, (h / 2) as int) == t + d);
    lemma_div_plus_one(d, t as int);
    assert(chart[y as int]@[x as int] == pattern_value(PatternType::Diamonds, x, y, w, h, n, tile) as usize);
    assert(chart[y as int]@[x2 as int] == pattern_value(PatternType::Diamonds, x2, y, w, h, n, tile) as usize);
    assert(chart[y as int]@[x as int] == (d / (t as int)) % (n as int));
    assert(chart[y as int]@[x2 as int] == ((t + d) / (t as int)) % (n as int));
    lemma_add_mod_noop_right(1, d / (t as int), n as int);
}

/// A chevron pattern repeats down the chart every period (twice the tile)
/// rows.
pub proof fn law_chevron_repeats_down<F: Fn(u32, u32) -> u32>(
    chart: Seq<Vec<usize>>,
    w: u32,
    h: u32,
    n: u32,
    tile: u32,
    spiral: F,
    x: u32,
    y: u32,
)
    requires
        is_pattern(chart, PatternType::Chevron, w, h, n, tile, spiral),
        n > 0,
        chevron_period(tile) != 0,
        x < w,
        y + chevron_period(tile) < h,
    ensures
        chart[y + chevron_period(tile)]@[x as int] == chart[y as int]@[x as int],
{
    let m = chevron_period(tile);
    let y2 = (y + m) as u32;
    lemma_mod_add_multiples_vanish(y as int, m as int);
    assert(y2 % m == y % m);
    assert(chart[y as int]@[x as int] == pattern_value(PatternType::Chevron, x, y, w, h, n, tile) as usize);
    assert(chart[y2 as int]@[x as int] == pattern_value(PatternType::Chevron, x, y2, w, h, n, tile) as usize);
}

/// A chevron pattern repeats across the chart every period (twice the tile)
/// columns, while the column sums fit 32 bits.
pub proof fn law_chevron_repeats_across<F: Fn(u32, u32) -> u32>(
    chart: Seq<Vec<usize>>,
    w: u32,
    h: u32,
    n: u32,
    tile: u32,
    spiral: F,
    x: u32,
    y: u32,
)
    requires
        is_pattern(chart, PatternType::Chevron, w, h, n, tile, spiral),
        n > 0,
        chevron_period(tile) != 0,
        y < h,
        x + chevron_period(tile) < w,
        x + chevron_period(tile) + y % chevron_period(tile) < 0x1_0000_0000,
    ensures
        chart[y as int]@[x + chevron_period(tile)] == chart[y as int]@[x as int],
{
    let m = chevron_period(tile);
    let x2 = (x + m) as u32;
    let s: int = x + y % m;
    lemma_mod_add_multiples_vanish(s, m as int);
    assert(wrap32((x2 + y % m) as nat) == m + s);
    assert(wrap32((x + y % m) as nat) == s);
    assert(chart[y as int]@[x as int] == pattern_value(PatternType::Chevron, x, y, w, h, n, tile) as usize);
    assert(chart[y as int]@[x2 as int] == pattern_value(PatternType::Chevron, x2, y, w, h, n, tile) as usize);
}

} // verus!
