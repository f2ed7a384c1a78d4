//! A chart as a picture: every stitch a `scale`×`scale` square of its yarn's
//! colour.

use vstd::prelude::*;
use crate::color::Yarn;
use crate::quantize::Rgb;
use crate::render::cells_in_palette;
use vstd::arithmetic::div_mod::lemma_fundamental_div_mod_converse;

verus! {

/// Pixel `(py, px)` of the picture: the yarn of stitch
/// `(py / scale, px / scale)`, or black where that row has no such stitch.
pub open spec fn picture_pixel(
    chart: Seq<Vec<usize>>,
    palette: Seq<Yarn>,
    scale: nat,
    py: int,
    px: int,
) -> Rgb {
    let row = chart[py / (scale as int)]@;
    let x = px / (scale as int);
    if x < row.len() {
        let y = palette[row[x] as int];
        Rgb { r: y.r, g: y.g, b: y.b }
    } else {
        Rgb { r: 0, g: 0, b: 0 }
    }
}

/// The picture can be drawn: the chart has a first row, no row is longer
/// than it, every stitch names a yarn, and both sides fit a `u32`.
pub open spec fn picture_drawable(chart: Seq<Vec<usize>>, palette: Seq<Yarn>, scale: u32) -> bool {
    &&& chart.len() > 0
    &&& forall|y: int| 0 <= y < chart.len() ==> (#[trigger] chart[y])@.len() <= chart[0]@.len()
    &&& cells_in_palette(chart, palette.len())
    &&& chart.len() * scale <= u32::MAX
    &&& chart[0]@.len() * scale <= u32::MAX
}

/// The picture of a chart, as rows of pixels: as wide as the first row
/// times `scale`, as high as the chart times `scale`.
pub fn chart_picture(chart: &Vec<Vec<usize>>, palette: &[Yarn], scale: u32) -> (pic: Vec<Vec<Rgb>>)
    requires
        picture_drawable(chart@, palette@, scale),
    ensures
        pic@.len() == chart@.len() * scale,
        forall|py: int| 0 <= py < pic@.len() ==> (#[trigger] pic@[py])@.len() == chart@[0]@.len() * scale,
        forall|py: int, px: int|
            0 <= py < pic@.len() && 0 <= px < pic@[py]@.len() ==> (#[trigger] pic@[py]@[px])
                == picture_pixel(chart@, palette@, scale as nat, py, px),
{
    let s = scale as usize;
    let height = chart.len() * s;
    let width = chart[0].len() * s;
    let mut pic: Vec<Vec<Rgb>> = Vec::new();
    let mut py: usize = 0;
    while py < height
        invariant
            picture_drawable(chart@, palette@, scale),
            s == scale,
            height == chart@.len() * scale,
            width == chart@[0]@.len() * scale,
            py <= height,
            pic@.len() == py,
            forall|k: int| 0 <= k < py ==> (#[trigger] pic@[k])@.len() == width,
            forall|k: int, px: int|
                0 <= k < py && 0 <= px < width ==> (#[trigger] pic@[k]@[px]) == picture_pixel(
                    chart@,
                    palette@,
                    scale as nat,
                    k,
                    px,
                ),
        decreases height - py,
    {
        assert(py / s < chart@.len()) by (nonlinear_arith)
            requires
                py < height,
                height == chart@.len() * s,
                s > 0 || height == 0,
        ;
        let row = &chart[py / s];
        let mut line: Vec<Rgb> = Vec::new();
        let mut px: usize = 0;
        while px < width
            invariant
                picture_drawable(chart@, palette@, scale),
                s == scale,
                s > 0,
                py < height,
                height == chart@.len() * scale,
                py / s < chart@.len(),
                row@ == chart@[(py / s) as int]@,
                px <= width,
                line@.len() == px,
                forall|k: int|
                    0 <= k < px ==> (#[trigger] line@[k]) == picture_pixel(
                        chart@,
                        palette@,
                        scale as nat,
                        py as int,
                        k,
                    ),
            decreases width - px,
        {
            let x = px / s;
            let p = if x < row.len() {
                assert(chart@[(py / s) as int]@[x as int] == row@[x as int]);
                let y = &palette[row[x]];
                Rgb { r: y.r, g: y.g, b: y.b }
            } else {
                Rgb { r: 0, g: 0, b: 0 }
            };
            line.push(p);
            px = px + 1;
        }
        pic.push(line);
        py = py + 1;
    }
    pic
}

} // verus!

verus! {

/// Every stitch is a `scale`×`scale` square of its yarn's colour: pixel
/// `(y·scale + dy, x·scale + dx)` is the colour of stitch `(y, x)`.
pub proof fn law_stitch_is_a_square(
    chart: Seq<Vec<usize>>,
    palette: Seq<Yarn>,
    scale: nat,
    y: int,
    x: int,
    dy: int,
    dx: int,
)
    requires
        scale > 0,
        0 <= y < chart.len(),
        0 <= x < chart[y]@.len(),
        0 <= dy < scale,
        0 <= dx < scale,
    ensures
        picture_pixel(chart, palette, scale, y * scale + dy, x * scale + dx) == (Rgb {
            r: palette[chart[y]@[x] as int].r,
            g: palette[chart[y]@[x] as int].g,
            b: palette[chart[y]@[x] as int].b,
        }),
{
    lemma_fundamental_div_mod_converse(y * scale + dy, scale as int, y, dy);
    lemma_fundamental_div_mod_converse(x * scale + dx, scale as int, x, dx);
}

/// Where a row is shorter than the picture is wide, the picture is black.
pub proof fn law_missing_stitches_are_black(
    chart: Seq<Vec<usize>>,
    palette: Seq<Yarn>,
    scale: nat,
    y: int,
    x: int,
    dy: int,
    dx: int,
)
    requires
        scale > 0,
        0 <= y < chart.len(),
        x >= chart[y]@.len(),
        0 <= dy < scale,
        0 <= dx < scale,
    ensures
        picture_pixel(chart, palette, scale, y * scale + dy, x * scale + dx) == (Rgb {
            r: 0,
            g: 0,
            b: 0,
        }),
{
    lemma_fundamental_div_mod_converse(y * scale + dy, scale as int, y, dy);
    lemma_fundamental_div_mod_converse(x * scale + dx, scale as int, x, dx);
}

} // verus!
