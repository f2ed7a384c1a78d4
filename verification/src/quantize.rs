//! Turning an image into a chart: every pixel becomes the index of the
//! nearest palette yarn, optionally with error diffusion (each pixel passes
//! what its yarn missed on to the pixels right of and below it, in
//! sixteenths: 7 right, 3 down-left, 5 down, 1 down-right).

use vstd::prelude::*;
use crate::color::{
    closest, closest_index, law_closest_exact_colour, lemma_nearest_yarn, lemma_nearest_yarn_exists,
    nearest_yarn,
    Yarn,
};

verus! {

/// One pixel of an image.
#[derive(Clone, Copy, PartialEq, Eq, Structural, Debug)]
pub struct Rgb {
    pub r: u8,
    pub g: u8,
    pub b: u8,
}

/// Channel `c` (0 red, 1 green, 2 blue) of a pixel.
pub open spec fn rgb_chan(p: Rgb, c: int) -> u8 {
    if c == 0 {
        p.r
    } else if c == 1 {
        p.g
    } else {
        p.b
    }
}

/// Channel `c` (0 red, 1 green, 2 blue) of a yarn.
pub open spec fn yarn_chan(y: Yarn, c: int) -> u8 {
    if c == 0 {
        y.r
    } else if c == 1 {
        y.g
    } else {
        y.b
    }
}

/// Width of an image given as rows of pixels: the length of its first row.
pub open spec fn image_width(img: Seq<Vec<Rgb>>) -> int {
    if img.len() == 0 {
        0
    } else {
        img[0]@.len() as int
    }
}

/// Every row of the image is as long as the first.
pub open spec fn is_rectangular(img: Seq<Vec<Rgb>>) -> bool {
    forall|y: int| 0 <= y < img.len() ==> (#[trigger] img[y])@.len() == image_width(img)
}

/// A channel value after adding an error given in sixteenths: clamped to
/// 0..=255 and rounded down.
pub open spec fn settle(p: u8, e16: int) -> u8 {
    let v = 16 * p + e16;
    if v < 0 {
        0
    } else if v > 4080 {
        255
    } else {
        (v / 16) as u8
    }
}

/// What a pixel's yarn missed in channel `c`: the adjusted pixel minus the
/// chosen yarn.
pub open spec fn leftover(palette: Seq<Yarn>, step: (Rgb, int), c: int) -> int {
    rgb_chan(step.0, c) - yarn_chan(palette[step.1], c)
}

/// Under error diffusion, pixel `(y, x)` (row, column) after adding the
/// error that reached it, and the index of the yarn chosen for it.
pub open spec fn diffused(img: Seq<Vec<Rgb>>, palette: Seq<Yarn>, y: int, x: int) -> (Rgb, int)
    decreases y, x, 1int,
{
    if y < 0 || x < 0 || y >= img.len() || x >= image_width(img) {
        (Rgb { r: 0, g: 0, b: 0 }, 0)
    } else {
        let p = img[y]@[x];
        let a = Rgb {
            r: settle(p.r, carried(img, palette, y, x, 0)),
            g: settle(p.g, carried(img, palette, y, x, 1)),
            b: settle(p.b, carried(img, palette, y, x, 2)),
        };
        (a, nearest_yarn(palette, a.r, a.g, a.b))
    }
}

/// The error in sixteenths, channel `c`, that reaches pixel `(y, x)`: 7 of
/// what the pixel to its left missed, 3 of what the pixel up-right missed,
/// 5 of what the pixel above missed and 1 of what the pixel up-left missed.
pub open spec fn carried(img: Seq<Vec<Rgb>>, palette: Seq<Yarn>, y: int, x: int, c: int) -> int
    decreases y, x, 0int,
{
    if y < 0 || x < 0 {
        0
    } else {
        (if x >= 1 {
            7 * leftover(palette, diffused(img, palette, y, x - 1), c)
        } else {
            0
        }) + (if y >= 1 && x + 1 < image_width(img) {
            3 * leftover(palette, diffused(img, palette, y - 1, x + 1), c)
        } else {
            0
        }) + (if y >= 1 {
            5 * leftover(palette, diffused(img, palette, y - 1, x), c)
        } else {
            0
        }) + (if y >= 1 && x >= 1 {
            leftover(palette, diffused(img, palette, y - 1, x - 1), c)
        } else {
            0
        })
    }
}

/// The yarn index that the chart holds for pixel `(y, x)`.
pub open spec fn quantized_cell(
    img: Seq<Vec<Rgb>>,
    palette: Seq<Yarn>,
    dither: bool,
    y: int,
    x: int,
) -> int {
    if dither {
        diffused(img, palette, y, x).1
    } else {
        let p = img[y]@[x];
        nearest_yarn(palette, p.r, p.g, p.b)
    }
}

/// `chart` is the quantisation of `img`: same rows, same width, each cell
/// as `quantized_cell` says.
pub open spec fn is_quantization(
    chart: Seq<Vec<usize>>,
    img: Seq<Vec<Rgb>>,
    palette: Seq<Yarn>,
    dither: bool,
) -> bool {
    &&& chart.len() == img.len()
    &&& forall|y: int| 0 <= y < chart.len() ==> (#[trigger] chart[y])@.len() == image_width(img)
    &&& forall|y: int, x: int|
        0 <= y < chart.len() && 0 <= x < image_width(img) ==> (#[trigger] chart[y]@[x]) as int
            == quantized_cell(img, palette, dither, y, x)
}

/// Raster order: `(y1, x1)` comes before `(y2, x2)`.
pub open spec fn before(y1: int, x1: int, y2: int, x2: int) -> bool {
    y1 < y2 || (y1 == y2 && x1 < x2)
}

/// The part of `carried(.., y, x, c)` sent by pixels before `(py, px)`.
pub open spec fn carried_before(
    img: Seq<Vec<Rgb>>,
    palette: Seq<Yarn>,
    y: int,
    x: int,
    c: int,
    py: int,
    px: int,
) -> int {
    (if x >= 1 && before(y, x - 1, py, px) {
        7 * leftover(palette, diffused(img, palette, y, x - 1), c)
    } else {
        0
    }) + (if y >= 1 && x + 1 < image_width(img) && before(y - 1, x + 1, py, px) {
        3 * leftover(palette, diffused(img, palette, y - 1, x + 1), c)
    } else {
        0
    }) + (if y >= 1 && before(y - 1, x, py, px) {
        5 * leftover(palette, diffused(img, palette, y - 1, x), c)
    } else {
        0
    }) + (if y >= 1 && x >= 1 && before(y - 1, x - 1, py, px) {
        leftover(palette, diffused(img, palette, y - 1, x - 1), c)
    } else {
        0
    })
}

/// The error carried to the pixels of one row, per channel, in sixteenths.
#[derive(Clone, Copy)]
struct Carry {
    r: i32,
    g: i32,
    b: i32,
}

spec fn carry_chan(k: Carry, c: int) -> int {
    if c == 0 {
        k.r as int
    } else if c == 1 {
        k.g as int
    } else {
        k.b as int
    }
}

/// Row `ty` of carries holds what pixels before `(py, px)` sent to it.
spec fn carries_row(
    row: Seq<Carry>,
    img: Seq<Vec<Rgb>>,
    palette: Seq<Yarn>,
    ty: int,
    py: int,
    px: int,
) -> bool {
    &&& row.len() == image_width(img)
    &&& forall|tx: int, c: int|
        0 <= tx < row.len() && 0 <= c < 3 ==> #[trigger] carry_chan(row[tx], c) == carried_before(
            img,
            palette,
            ty,
            tx,
            c,
            py,
            px,
        )
}

fn settle_channel(p: u8, e16: i32) -> (v: u8)
    requires
        -4080 <= e16 <= 4080,
    ensures
        v == settle(p, e16 as int),
{
    let t: i32 = 16 * (p as i32) + e16;
    if t < 0 {
        0
    } else if t > 4080 {
        255
    } else {
        (t / 16) as u8
    }
}

fn zero_carries(w: usize) -> (row: Vec<Carry>)
    ensures
        row@.len() == w,
        forall|i: int| 0 <= i < w ==> (#[trigger] row@[i]).r == 0 && row@[i].g == 0 && row@[i].b
            == 0,
{
    let mut row: Vec<Carry> = Vec::new();
    let mut i: usize = 0;
    while i < w
        invariant
            i <= w,
            row@.len() == i,
            forall|j: int| 0 <= j < i ==> (#[trigger] row@[j]).r == 0 && row@[j].g == 0
                && row@[j].b == 0,
        decreases w - i,
    {
        row.push(Carry { r: 0, g: 0, b: 0 });
        i = i + 1;
    }
    row
}

fn add_carry(k: Carry, q: Carry, f: i32) -> (res: Carry)
    requires
        -255 <= q.r <= 255 && -255 <= q.g <= 255 && -255 <= q.b <= 255,
        0 <= f <= 7,
        -100000 <= k.r <= 100000 && -100000 <= k.g <= 100000 && -100000 <= k.b <= 100000,
    ensures
        forall|c: int| 0 <= c < 3 ==> carry_chan(res, c) == carry_chan(k, c) + f * carry_chan(q, c),
{
    assert(-1785 <= f * q.r <= 1785 && -1785 <= f * q.g <= 1785 && -1785 <= f * q.b <= 1785)
        by (nonlinear_arith)
        requires
            -255 <= q.r <= 255 && -255 <= q.g <= 255 && -255 <= q.b <= 255,
            0 <= f <= 7,
    ;
    Carry { r: k.r + f * q.r, g: k.g + f * q.g, b: k.b + f * q.b }
}

fn quantize_plain(img: &Vec<Vec<Rgb>>, palette: &[Yarn]) -> (chart: Vec<Vec<usize>>)
    requires
        is_rectangular(img@),
    ensures
        is_quantization(chart@, img@, palette@, false),
{
    let h = img.len();
    let w = if h == 0 {
        0
    } else {
        img[0].len()
    };
    let mut chart: Vec<Vec<usize>> = Vec::new();
    let mut y: usize = 0;
    while y < h
        invariant
            h == img@.len(),
            w == image_width(img@),
            is_rectangular(img@),
            y <= h,
            chart@.len() == y,
            forall|yy: int| 0 <= yy < y ==> (#[trigger] chart@[yy])@.len() == w,
            forall|yy: int, x: int|
                0 <= yy < y && 0 <= x < w ==> (#[trigger] chart@[yy]@[x]) as int
                    == quantized_cell(img@, palette@, false, yy, x),
        decreases h - y,
    {
        let row = &img[y];
        assert(row@.len() == w);
        let mut out: Vec<usize> = Vec::new();
        let mut x: usize = 0;
        while x < w
            invariant
                h == img@.len(),
                w == image_width(img@),
                y < h,
                row@ == img@[y as int]@,
                row@.len() == w,
                x <= w,
                out@.len() == x,
                forall|k: int|
                    0 <= k < x ==> (#[trigger] out@[k]) as int == quantized_cell(
                        img@,
                        palette@,
                        false,
                        y as int,
                        k,
                    ),
            decreases w - x,
        {
            let p = row[x];
            let i = closest(palette, p.r, p.g, p.b);
            proof {
                lemma_nearest_yarn(palette@, p.r, p.g, p.b, i as int);
            }
            out.push(i);
            x = x + 1;
        }
        chart.push(out);
        y = y + 1;
    }
    chart
}

/// All four sources of `(y, x)` come before it.
proof fn lemma_carried_complete(img: Seq<Vec<Rgb>>, palette: Seq<Yarn>, y: int, x: int, c: int)
    requires
        0 <= y,
        0 <= x,
    ensures
        carried_before(img, palette, y, x, c, y, x) == carried(img, palette, y, x, c),
{
}

proof fn lemma_carried_before_bound(
    img: Seq<Vec<Rgb>>,
    palette: Seq<Yarn>,
    y: int,
    x: int,
    c: int,
    py: int,
    px: int,
)
    ensures
        -4080 <= carried_before(img, palette, y, x, c, py, px) <= 4080,
{
}

/// After pixel `(y, x)` is done, the carries of its own row are those sent
/// by the pixels before `(y, x + 1)`.
proof fn lemma_advance_current_row(
    img: Seq<Vec<Rgb>>,
    palette: Seq<Yarn>,
    y: int,
    x: int,
    cur0: Seq<Carry>,
    cur1: Seq<Carry>,
)
    requires
        0 <= y,
        0 <= x < image_width(img),
        carries_row(cur0, img, palette, y, y, x),
        cur1.len() == cur0.len(),
        forall|tx: int| 0 <= tx < cur0.len() && tx != x + 1 ==> cur1[tx] == cur0[tx],
        x + 1 < image_width(img) ==> forall|c: int|
            0 <= c < 3 ==> #[trigger] carry_chan(cur1[x + 1], c) == carry_chan(cur0[x + 1], c) + 7
                * leftover(palette, diffused(img, palette, y, x), c),
    ensures
        carries_row(cur1, img, palette, y, y, x + 1),
{
    assert forall|tx: int, c: int| 0 <= tx < cur1.len() && 0 <= c < 3 implies #[trigger] carry_chan(
        cur1[tx],
        c,
    ) == carried_before(img, palette, y, tx, c, y, x + 1) by {
        assert(carry_chan(cur0[tx], c) == carried_before(img, palette, y, tx, c, y, x));
    }
}

/// After pixel `(y, x)` is done, the carries of the next row are those sent
/// by the pixels before `(y, x + 1)`.
proof fn lemma_advance_next_row(
    img: Seq<Vec<Rgb>>,
    palette: Seq<Yarn>,
    y: int,
    x: int,
    next0: Seq<Carry>,
    next1: Seq<Carry>,
)
    requires
        0 <= y,
        0 <= x < image_width(img),
        carries_row(next0, img, palette, y + 1, y, x),
        next1.len() == next0.len(),
        forall|tx: int|
            0 <= tx < next0.len() && tx != x - 1 && tx != x && tx != x + 1 ==> next1[tx]
                == next0[tx],
        x >= 1 ==> forall|c: int|
            0 <= c < 3 ==> #[trigger] carry_chan(next1[x - 1], c) == carry_chan(next0[x - 1], c) + 3
                * leftover(palette, diffused(img, palette, y, x), c),
        forall|c: int|
            0 <= c < 3 ==> #[trigger] carry_chan(next1[x], c) == carry_chan(next0[x], c) + 5
                * leftover(palette, diffused(img, palette, y, x), c),
        x + 1 < image_width(img) ==> forall|c: int|
            0 <= c < 3 ==> #[trigger] carry_chan(next1[x + 1], c) == carry_chan(next0[x + 1], c)
                + leftover(palette, diffused(img, palette, y, x), c),
    ensures
        carries_row(next1, img, palette, y + 1, y, x + 1),
{
    assert forall|tx: int, c: int|
        0 <= tx < next1.len() && 0 <= c < 3 implies #[trigger] carry_chan(next1[tx], c)
        == carried_before(img, palette, y + 1, tx, c, y, x + 1) by {
        assert(carry_chan(next0[tx], c) == carried_before(img, palette, y + 1, tx, c, y, x));
    }
}

/// At the end of row `y` the next row has received everything it gets, and
/// a fresh row of zeros is what row `y + 2` has received.
proof fn lemma_advance_row(
    img: Seq<Vec<Rgb>>,
    palette: Seq<Yarn>,
    y: int,
    next: Seq<Carry>,
    fresh: Seq<Carry>,
)
    requires
        0 <= y,
        carries_row(next, img, palette, y + 1, y, image_width(img)),
        fresh.len() == image_width(img),
        forall|i: int| 0 <= i < fresh.len() ==> (#[trigger] fresh[i]).r == 0 && fresh[i].g == 0
            && fresh[i].b == 0,
    ensures
        carries_row(next, img, palette, y + 1, y + 1, 0),
        carries_row(fresh, img, palette, y + 2, y + 1, 0),
{
    assert forall|tx: int, c: int|
        0 <= tx < next.len() && 0 <= c < 3 implies #[trigger] carry_chan(next[tx], c)
        == carried_before(img, palette, y + 1, tx, c, y + 1, 0) by {
        assert(carry_chan(next[tx], c) == carried_before(
            img,
            palette,
            y + 1,
            tx,
            c,
            y,
            image_width(img),
        ));
    }
    assert forall|tx: int, c: int|
        0 <= tx < fresh.len() && 0 <= c < 3 implies #[trigger] carry_chan(fresh[tx], c)
        == carried_before(img, palette, y + 2, tx, c, y + 1, 0) by {
    }
}

fn quantize_diffused(img: &Vec<Vec<Rgb>>, palette: &[Yarn]) -> (chart: Vec<Vec<usize>>)
    requires
        is_rectangular(img@),
        palette@.len() > 0,
    ensures
        is_quantization(chart@, img@, palette@, true),
{
    let h = img.len();
    let w = if h == 0 {
        0
    } else {
        img[0].len()
    };
    let mut chart: Vec<Vec<usize>> = Vec::new();
    let mut cur = zero_carries(w);
    let mut next = zero_carries(w);
    let mut y: usize = 0;
    while y < h
        invariant
            h == img@.len(),
            w == image_width(img@),
            is_rectangular(img@),
            palette@.len() > 0,
            y <= h,
            chart@.len() == y,
            forall|yy: int| 0 <= yy < y ==> (#[trigger] chart@[yy])@.len() == w,
            forall|yy: int, x: int|
                0 <= yy < y && 0 <= x < w ==> (#[trigger] chart@[yy]@[x]) as int
                    == quantized_cell(img@, palette@, true, yy, x),
            carries_row(cur@, img@, palette@, y as int, y as int, 0),
            carries_row(next@, img@, palette@, y + 1, y as int, 0),
        decreases h - y,
    {
        let row = &img[y];
        assert(row@.len() == w);
        let mut out: Vec<usize> = Vec::new();
        let mut x: usize = 0;
        while x < w
            invariant
                h == img@.len(),
                w == image_width(img@),
                palette@.len() > 0,
                y < h,
                row@ == img@[y as int]@,
                row@.len() == w,
                x <= w,
                out@.len() == x,
                forall|k: int|
                    0 <= k < x ==> (#[trigger] out@[k]) as int == quantized_cell(
                        img@,
                        palette@,
                        true,
                        y as int,
                        k,
                    ),
                carries_row(cur@, img@, palette@, y as int, y as int, x as int),
                carries_row(next@, img@, palette@, y + 1, y as int, x as int),
            decreases w - x,
        {
            let e = cur[x];
            proof {
                lemma_carried_complete(img@, palette@, y as int, x as int, 0);
                lemma_carried_complete(img@, palette@, y as int, x as int, 1);
                lemma_carried_complete(img@, palette@, y as int, x as int, 2);
                assert(carry_chan(e, 0) == carried(img@, palette@, y as int, x as int, 0));
                assert(carry_chan(e, 1) == carried(img@, palette@, y as int, x as int, 1));
                assert(carry_chan(e, 2) == carried(img@, palette@, y as int, x as int, 2));
            }
            let p = row[x];
            let ar = settle_channel(p.r, e.r);
            let ag = settle_channel(p.g, e.g);
            let ab = settle_channel(p.b, e.b);
            let i = closest(palette, ar, ag, ab);
            let ghost step = (Rgb { r: ar, g: ag, b: ab }, i as int);
            proof {
                lemma_nearest_yarn(palette@, ar, ag, ab, i as int);
                assert(diffused(img@, palette@, y as int, x as int) == step);
            }
            let yarn = &palette[i];
            let q = Carry {
                r: ar as i32 - yarn.r as i32,
                g: ag as i32 - yarn.g as i32,
                b: ab as i32 - yarn.b as i32,
            };
            assert(forall|c: int| 0 <= c < 3 ==> carry_chan(q, c) == leftover(palette@, step, c));
            let ghost cur0 = cur@;
            let ghost next0 = next@;
            proof {
                lemma_carried_before_bound(img@, palette@, y as int, (x + 1) as int, 0, y as int, x as int);
                lemma_carried_before_bound(img@, palette@, y as int, (x + 1) as int, 1, y as int, x as int);
                lemma_carried_before_bound(img@, palette@, y as int, (x + 1) as int, 2, y as int, x as int);
                lemma_carried_before_bound(img@, palette@, y + 1, x - 1, 0, y as int, x as int);
                lemma_carried_before_bound(img@, palette@, y + 1, x - 1, 1, y as int, x as int);
                lemma_carried_before_bound(img@, palette@, y + 1, x - 1, 2, y as int, x as int);
                lemma_carried_before_bound(img@, palette@, y + 1, x as int, 0, y as int, x as int);
                lemma_carried_before_bound(img@, palette@, y + 1, x as int, 1, y as int, x as int);
                lemma_carried_before_bound(img@, palette@, y + 1, x as int, 2, y as int, x as int);
                lemma_carried_before_bound(img@, palette@, y + 1, x + 1, 0, y as int, x as int);
                lemma_carried_before_bound(img@, palette@, y + 1, x + 1, 1, y as int, x as int);
                lemma_carried_before_bound(img@, palette@, y + 1, x + 1, 2, y as int, x as int);
            }
            if x + 1 < w {
                let k = cur[x + 1];
                assert(carry_chan(k, 0) == carried_before(img@, palette@, y as int, x + 1, 0, y as int, x as int));
                assert(carry_chan(k, 1) == carried_before(img@, palette@, y as int, x + 1, 1, y as int, x as int));
                assert(carry_chan(k, 2) == carried_before(img@, palette@, y as int, x + 1, 2, y as int, x as int));
                cur[x + 1] = add_carry(k, q, 7);
            }
            proof {
                lemma_advance_current_row(img@, palette@, y as int, x as int, cur0, cur@);
            }
            if x >= 1 {
                let k = next[x - 1];
                assert(carry_chan(k, 0) == carried_before(img@, palette@, y + 1, x - 1, 0, y as int, x as int));
                assert(carry_chan(k, 1) == carried_before(img@, palette@, y + 1, x - 1, 1, y as int, x as int));
                assert(carry_chan(k, 2) == carried_before(img@, palette@, y + 1, x - 1, 2, y as int, x as int));
                next[x - 1] = add_carry(k, q, 3);
            }
            let k = next[x];
            assert(carry_chan(k, 0) == carried_before(img@, palette@, y + 1, x as int, 0, y as int, x as int));
            assert(carry_chan(k, 1) == carried_before(img@, palette@, y + 1, x as int, 1, y as int, x as int));
            assert(carry_chan(k, 2) == carried_before(img@, palette@, y + 1, x as int, 2, y as int, x as int));
            next[x] = add_carry(k, q, 5);
            if x + 1 < w {
                let k = next[x + 1];
                assert(carry_chan(k, 0) == carried_before(img@, palette@, y + 1, x + 1, 0, y as int, x as int));
                assert(carry_chan(k, 1) == carried_before(img@, palette@, y + 1, x + 1, 1, y as int, x as int));
                assert(carry_chan(k, 2) == carried_before(img@, palette@, y + 1, x + 1, 2, y as int, x as int));
                next[x + 1] = add_carry(k, q, 1);
            }
            proof {
                lemma_advance_next_row(img@, palette@, y as int, x as int, next0, next@);
            }
            out.push(i);
            x = x + 1;
        }
        chart.push(out);
        cur = next;
        next = zero_carries(w);
        proof {
            lemma_advance_row(img@, palette@, y as int, cur@, next@);
        }
        y = y + 1;
    }
    chart
}

/// Turns an image into a chart of palette indices, one per pixel, each the
/// nearest yarn to the pixel (to the pixel plus the error diffused to it,
/// when `dither` is set).
pub fn quantize(img: &Vec<Vec<Rgb>>, palette: &[Yarn], dither: bool) -> (chart: Vec<Vec<usize>>)
    requires
        is_rectangular(img@),
        dither && img@.len() > 0 && image_width(img@) > 0 ==> palette@.len() > 0,
    ensures
        is_quantization(chart@, img@, palette@, dither),
{
    if dither && palette.len() > 0 {
        quantize_diffused(img, palette)
    } else if dither {
        let chart = quantize_plain(img, palette);
        assert(is_quantization(chart@, img@, palette@, true));
        chart
    } else {
        quantize_plain(img, palette)
    }
}

} // verus!

verus! {

/// Every cell of a chart quantised with a non-empty palette names a yarn of
/// the palette.
pub proof fn law_quantized_cells_index_palette(
    chart: Seq<Vec<usize>>,
    img: Seq<Vec<Rgb>>,
    palette: Seq<Yarn>,
    dither: bool,
    y: int,
    x: int,
)
    requires
        is_quantization(chart, img, palette, dither),
        palette.len() > 0,
        0 <= y < chart.len(),
        0 <= x < image_width(img),
    ensures
        chart[y]@[x] < palette.len(),
{
    assert(chart[y]@[x] as int == quantized_cell(img, palette, dither, y, x));
    if dither {
        let s = diffused(img, palette, y, x);
        let p = img[y]@[x];
        let a = Rgb {
            r: settle(p.r, carried(img, palette, y, x, 0)),
            g: settle(p.g, carried(img, palette, y, x, 1)),
            b: settle(p.b, carried(img, palette, y, x, 2)),
        };
        lemma_nearest_yarn_exists(palette, a.r, a.g, a.b);
    } else {
        let p = img[y]@[x];
        lemma_nearest_yarn_exists(palette, p.r, p.g, p.b);
    }
}

/// Without dithering, a pixel that has exactly the colour of a palette yarn
/// gets the first yarn of that colour.
pub proof fn law_plain_quantize_keeps_palette_colours(
    chart: Seq<Vec<usize>>,
    img: Seq<Vec<Rgb>>,
    palette: Seq<Yarn>,
    y: int,
    x: int,
    j: int,
)
    requires
        is_quantization(chart, img, palette, false),
        0 <= y < chart.len(),
        0 <= x < image_width(img),
        0 <= j < palette.len(),
        palette[j].r == img[y]@[x].r && palette[j].g == img[y]@[x].g && palette[j].b == img[y]@[x].b,
    ensures
        palette[chart[y]@[x] as int].r == img[y]@[x].r,
        palette[chart[y]@[x] as int].g == img[y]@[x].g,
        palette[chart[y]@[x] as int].b == img[y]@[x].b,
        forall|k: int|
            0 <= k < chart[y]@[x] ==> !(#[trigger] palette[k].r == img[y]@[x].r && palette[k].g
                == img[y]@[x].g && palette[k].b == img[y]@[x].b),
{
    let p = img[y]@[x];
    assert(chart[y]@[x] as int == quantized_cell(img, palette, false, y, x));
    lemma_nearest_yarn_exists(palette, p.r, p.g, p.b);
    law_closest_exact_colour(palette, p.r, p.g, p.b, chart[y]@[x] as int, j);
}

} // verus!

verus! {

/// The palette holds a yarn of exactly this pixel's colour.
pub open spec fn colour_in_palette(palette: Seq<Yarn>, p: Rgb) -> bool {
    exists|j: int|
        0 <= j < palette.len() && (#[trigger] palette[j]).r == p.r && palette[j].g == p.g
            && palette[j].b == p.b
}

/// When every pixel has a palette colour, each pixel is its own adjusted
/// value under diffusion and its yarn misses nothing.
proof fn lemma_no_error(img: Seq<Vec<Rgb>>, palette: Seq<Yarn>, y: int, x: int)
    requires
        is_rectangular(img),
        forall|yy: int, xx: int|
            0 <= yy < img.len() && 0 <= xx < image_width(img) ==> colour_in_palette(
                palette,
                #[trigger] img[yy]@[xx],
            ),
        0 <= y < img.len(),
        0 <= x < image_width(img),
    ensures
        diffused(img, palette, y, x).0 == img[y]@[x],
        diffused(img, palette, y, x).1 == nearest_yarn(
            palette,
            img[y]@[x].r,
            img[y]@[x].g,
            img[y]@[x].b,
        ),
        forall|c: int| #[trigger] leftover(palette, diffused(img, palette, y, x), c) == 0,
    decreases y, x,
{
    if x >= 1 {
        lemma_no_error(img, palette, y, x - 1);
    }
    if y >= 1 {
        lemma_no_error(img, palette, y - 1, x);
        if x + 1 < image_width(img) {
            lemma_no_error(img, palette, y - 1, x + 1);
        }
        if x >= 1 {
            lemma_no_error(img, palette, y - 1, x - 1);
        }
    }
    let p = img[y]@[x];
    assert(carried(img, palette, y, x, 0) == 0);
    assert(carried(img, palette, y, x, 1) == 0);
    assert(carried(img, palette, y, x, 2) == 0);
    assert(diffused(img, palette, y, x).0 == p);
    assert(colour_in_palette(palette, p));
    let j = choose|j: int|
        0 <= j < palette.len() && (#[trigger] palette[j]).r == p.r && palette[j].g == p.g
            && palette[j].b == p.b;
    let i = nearest_yarn(palette, p.r, p.g, p.b);
    lemma_nearest_yarn_exists(palette, p.r, p.g, p.b);
    law_closest_exact_colour(palette, p.r, p.g, p.b, i, j);
}

/// When every pixel already has the colour of a palette yarn, no error
/// arises, so dithering gives the same chart as plain quantisation.
pub proof fn law_dither_changes_nothing_on_palette_colours(
    dithered: Seq<Vec<usize>>,
    plain: Seq<Vec<usize>>,
    img: Seq<Vec<Rgb>>,
    palette: Seq<Yarn>,
)
    requires
        is_rectangular(img),
        forall|y: int, x: int|
            0 <= y < img.len() && 0 <= x < image_width(img) ==> colour_in_palette(
                palette,
                #[trigger] img[y]@[x],
            ),
        is_quantization(dithered, img, palette, true),
        is_quantization(plain, img, palette, false),
    ensures
        dithered.map_values(|r: Vec<usize>| r@) == plain.map_values(|r: Vec<usize>| r@),
{
    assert forall|y: int| 0 <= y < img.len() implies (#[trigger] dithered[y])@ =~= plain[y]@ by {
        assert forall|x: int| 0 <= x < image_width(img) implies dithered[y]@[x] == plain[y]@[x] by {
            lemma_no_error(img, palette, y, x);
            assert(dithered[y]@[x] as int == quantized_cell(img, palette, true, y, x));
            assert(plain[y]@[x] as int == quantized_cell(img, palette, false, y, x));
        }
    }
    assert(dithered.map_values(|r: Vec<usize>| r@) =~= plain.map_values(|r: Vec<usize>| r@));
}

} // verus!

verus! {

/// Under error diffusion, each pixel is first adjusted: the pixel plus the
/// error that reached it (in sixteenths), rounded down and held to 0..=255.
/// Its yarn is the nearest to the adjusted pixel, and what it passes on is
/// the adjusted pixel minus that yarn.
pub proof fn law_diffusion_adjusts_each_pixel(
    img: Seq<Vec<Rgb>>,
    palette: Seq<Yarn>,
    y: int,
    x: int,
    c: int,
)
    requires
        is_rectangular(img),
        0 <= y < img.len(),
        0 <= x < image_width(img),
        0 <= c < 3,
    ensures
        ({
            let step = diffused(img, palette, y, x);
            let a = rgb_chan(step.0, c) as int;
            let v = 16 * rgb_chan(img[y]@[x], c) + carried(img, palette, y, x, c);
            &&& v < 0 ==> a == 0
            &&& v >= 4096 ==> a == 255
            &&& 0 <= v < 4096 ==> 16 * a <= v < 16 * a + 16
            &&& palette.len() > 0 ==> closest_index(palette, step.0.r, step.0.g, step.0.b, step.1)
            &&& leftover(palette, step, c) == a - yarn_chan(palette[step.1], c)
        }),
{
    let step = diffused(img, palette, y, x);
    let a = step.0;
    lemma_nearest_yarn_exists(palette, a.r, a.g, a.b);
}

/// In the first row, the error that reaches a pixel is 7 sixteenths of
/// what the pixel to its left passed on: its adjusted value minus its yarn.
pub proof fn law_first_row_error_comes_from_the_left(
    img: Seq<Vec<Rgb>>,
    palette: Seq<Yarn>,
    x: int,
    c: int,
)
    requires
        is_rectangular(img),
        img.len() > 0,
        1 <= x < image_width(img),
        0 <= c < 3,
    ensures
        carried(img, palette, 0, x, c) == 7 * (rgb_chan(diffused(img, palette, 0, x - 1).0, c)
            - yarn_chan(palette[diffused(img, palette, 0, x - 1).1], c)),
{
}

} // verus!

verus! {

/// What the pixel `(y, x)` passes on under error diffusion, channel `c`:
/// its adjusted value minus its yarn's; nothing outside the image.
pub open spec fn passed_on(img: Seq<Vec<Rgb>>, palette: Seq<Yarn>, y: int, x: int, c: int) -> int {
    if 0 <= y < img.len() && 0 <= x < image_width(img) {
        let step = diffused(img, palette, y, x);
        rgb_chan(step.0, c) - yarn_chan(palette[step.1], c)
    } else {
        0
    }
}

/// The error that reaches a pixel, in sixteenths: 7 of what its left
/// neighbour passed on, 3 of what the pixel up and to the right passed on,
/// 5 of what the pixel above passed on, 1 of what the pixel up and to the
/// left passed on; the weights add up to 16, so the whole error moves on.
pub proof fn law_error_reaching_a_pixel(
    img: Seq<Vec<Rgb>>,
    palette: Seq<Yarn>,
    y: int,
    x: int,
    c: int,
)
    requires
        0 <= y < img.len(),
        0 <= x < image_width(img),
        0 <= c < 3,
    ensures
        carried(img, palette, y, x, c) == 7 * passed_on(img, palette, y, x - 1, c) + 3 * passed_on(
            img,
            palette,
            y - 1,
            x + 1,
            c,
        ) + 5 * passed_on(img, palette, y - 1, x, c) + passed_on(img, palette, y - 1, x - 1, c),
{
}

} // verus!
