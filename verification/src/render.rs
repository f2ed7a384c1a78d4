//! How one stitch of a chart is drawn, in each display mode.

use vstd::prelude::*;
use vstd::string::{StringExecFns, StringSliceAdditionalSpecFns};
use vstd::utf8::*;
use crate::color::{hex_digit_value, Yarn};
use crate::text::{
    decimal_spec, has_reset, is_basic_fg_code, lemma_no_escape_no_reset, no_escape, pad_right,
    paint_truecolor, push_padded_right, reset_seq, start_seq, styled, truecolor_code, truecolored,
};

verus! {

/// How stitches are drawn.
#[derive(Clone, Copy, PartialEq, Eq, Structural, Debug)]
pub enum DisplayMode {
    /// Two full blocks in the yarn's colour.
    Blocks,
    /// A shade character by the yarn's luminance.
    Ascii,
    /// The chart symbol in the yarn's colour.
    Symbols,
    /// The yarn's red channel divided by 16, as two hexadecimal digits.
    Hex,
}

/// Luminance of a colour times 1000: `299 r + 587 g + 114 b`.
pub open spec fn luminance_milli(r: u8, g: u8, b: u8) -> int {
    299 * r + 587 * g + 114 * b
}

/// The colours whose luminance is exactly 200, yet whose single-precision
/// luminance `0.299·r + 0.587·g + 0.114·b` (each product and sum rounded to
/// `f32`, left to right) comes out just above 200.
pub open spec fn rounds_above_200(r: u8, g: u8, b: u8) -> bool {
    ||| (r == 136 && g == 246 && b == 131)
    ||| (r == 155 && g == 227 && b == 179)
    ||| (r == 158 && g == 248 && b == 63)
    ||| (r == 159 && g == 217 && b == 220)
    ||| (r == 162 && g == 238 && b == 104)
    ||| (r == 174 && g == 208 && b == 227)
    ||| (r == 177 && g == 229 && b == 111)
    ||| (r == 181 && g == 219 && b == 152)
    ||| (r == 188 && g == 230 && b == 77)
    ||| (r == 203 && g == 221 && b == 84)
    ||| (r == 229 && g == 213 && b == 57)
    ||| (r == 241 && g == 183 && b == 180)
    ||| (r == 244 && g == 204 && b == 64)
}

/// The colours whose luminance is exactly 100, yet whose single-precision
/// luminance comes out just above 100.
pub open spec fn rounds_above_100(r: u8, g: u8, b: u8) -> bool {
    ||| (r == 3 && g == 143 && b == 133)
    ||| (r == 6 && g == 164 && b == 17)
    ||| (r == 11 && g == 123 && b == 215)
    ||| (r == 18 && g == 134 && b == 140)
    ||| (r == 22 && g == 124 && b == 181)
    ||| (r == 37 && g == 115 && b == 188)
    ||| (r == 41 && g == 105 && b == 229)
    ||| (r == 62 && g == 138 && b == 4)
    ||| (r == 81 && g == 119 && b == 52)
    ||| (r == 119 && g == 81 && b == 148)
    ||| (r == 122 && g == 102 && b == 32)
    ||| (r == 138 && g == 62 && b == 196)
    ||| (r == 141 && g == 83 && b == 80)
    ||| (r == 157 && g == 43 && b == 244)
    ||| (r == 160 && g == 64 && b == 128)
}

/// The single-precision luminance is above 200. Its rounding error is far
/// below the step of the exact luminance (0.001), so it is on the same side
/// of 200 as the exact value, except at 200 itself.
pub open spec fn light(r: u8, g: u8, b: u8) -> bool {
    luminance_milli(r, g, b) > 200000 || (luminance_milli(r, g, b) == 200000
        && rounds_above_200(r, g, b))
}

/// The single-precision luminance is above 100 (as for `light`).
pub open spec fn not_dark(r: u8, g: u8, b: u8) -> bool {
    luminance_milli(r, g, b) > 100000 || (luminance_milli(r, g, b) == 100000
        && rounds_above_100(r, g, b))
}

/// The shade drawn for a colour: light above single-precision luminance
/// 200, medium above 100, dark otherwise.
pub open spec fn shade(r: u8, g: u8, b: u8) -> Seq<char> {
    if light(r, g, b) {
        seq!['░', '░']
    } else if not_dark(r, g, b) {
        seq!['▒', '▒']
    } else {
        seq!['▓', '▓']
    }
}

fn rounds_above_200_exec(r: u8, g: u8, b: u8) -> (above: bool)
    ensures
        above == rounds_above_200(r, g, b),
{
    (r == 136 && g == 246 && b == 131) ||
    (r == 155 && g == 227 && b == 179) ||
    (r == 158 && g == 248 && b == 63) ||
    (r == 159 && g == 217 && b == 220) ||
    (r == 162 && g == 238 && b == 104) ||
    (r == 174 && g == 208 && b == 227) ||
    (r == 177 && g == 229 && b == 111) ||
    (r == 181 && g == 219 && b == 152) ||
    (r == 188 && g == 230 && b == 77) ||
    (r == 203 && g == 221 && b == 84) ||
    (r == 229 && g == 213 && b == 57) ||
    (r == 241 && g == 183 && b == 180) ||
    (r == 244 && g == 204 && b == 64)
}

fn rounds_above_100_exec(r: u8, g: u8, b: u8) -> (above: bool)
    ensures
        above == rounds_above_100(r, g, b),
{
    (r == 3 && g == 143 && b == 133) ||
    (r == 6 && g == 164 && b == 17) ||
    (r == 11 && g == 123 && b == 215) ||
    (r == 18 && g == 134 && b == 140) ||
    (r == 22 && g == 124 && b == 181) ||
    (r == 37 && g == 115 && b == 188) ||
    (r == 41 && g == 105 && b == 229) ||
    (r == 62 && g == 138 && b == 4) ||
    (r == 81 && g == 119 && b == 52) ||
    (r == 119 && g == 81 && b == 148) ||
    (r == 122 && g == 102 && b == 32) ||
    (r == 138 && g == 62 && b == 196) ||
    (r == 141 && g == 83 && b == 80) ||
    (r == 157 && g == 43 && b == 244) ||
    (r == 160 && g == 64 && b == 128)
}

/// Lower-case hexadecimal digit for a value below 16.
pub open spec fn lower_hex_digit(d: u8) -> char {
    if d < 10 {
        (d + 0x30) as char
    } else {
        (d - 10 + 0x61) as char
    }
}

/// `s` is how a stitch of yarn `c` is drawn in `mode` with symbol `sym`.
pub open spec fn is_stitch_cell(s: Seq<char>, c: Yarn, mode: DisplayMode, sym: Seq<char>) -> bool {
    match mode {
        DisplayMode::Blocks => truecolored(s, seq!['█', '█'], c.r, c.g, c.b),
        DisplayMode::Ascii => s == shade(c.r, c.g, c.b),
        DisplayMode::Symbols => truecolored(s, pad_right(sym, 2), c.r, c.g, c.b),
        DisplayMode::Hex => s == seq!['0', lower_hex_digit(c.r / 16)],
    }
}

fn lower_hex_str(d: u8) -> (s: &'static str)
    requires
        d < 16,
    ensures
        s@ == seq![lower_hex_digit(d)],
{
    proof {
        reveal_strlit("0");
        reveal_strlit("1");
        reveal_strlit("2");
        reveal_strlit("3");
        reveal_strlit("4");
        reveal_strlit("5");
        reveal_strlit("6");
        reveal_strlit("7");
        reveal_strlit("8");
        reveal_strlit("9");
        reveal_strlit("a");
        reveal_strlit("b");
        reveal_strlit("c");
        reveal_strlit("d");
        reveal_strlit("e");
        reveal_strlit("f");
    }
    match d {
        0 => "0",
        1 => "1",
        2 => "2",
        3 => "3",
        4 => "4",
        5 => "5",
        6 => "6",
        7 => "7",
        8 => "8",
        9 => "9",
        10 => "a",
        11 => "b",
        12 => "c",
        13 => "d",
        14 => "e",
        _ => "f",
    }
}

/// Text shorter than the reset sequence cannot hold it.
pub proof fn lemma_short_no_reset(t: Seq<char>)
    requires
        t.len() < 4,
    ensures
        !has_reset(t),
{
}

/// Draws one stitch of yarn `c`.
pub fn stitch_cell(c: &Yarn, mode: &DisplayMode, sym: &str) -> (s: String)
    requires
        *mode == DisplayMode::Symbols ==> !has_reset(pad_right(sym@, 2)),
    ensures
        is_stitch_cell(s@, *c, *mode, sym@),
{
    match mode {
        DisplayMode::Blocks => {
            proof {
                reveal_strlit("██");
                assert("██"@ == seq!['█', '█']);
                assert(no_escape("██"@));
                lemma_no_escape_no_reset("██"@);
            }
            let s = paint_truecolor("██", c.r, c.g, c.b);
            assert(truecolored(s@, "██"@, c.r, c.g, c.b));
            assert(*mode == DisplayMode::Blocks);
            s
        },
        DisplayMode::Ascii => {
            proof {
                reveal_strlit("░░");
                reveal_strlit("▒▒");
                reveal_strlit("▓▓");
            }
            let lum: u32 = 299 * (c.r as u32) + 587 * (c.g as u32) + 114 * (c.b as u32);
            assert("░░"@ == seq!['░', '░']);
            assert("▒▒"@ == seq!['▒', '▒']);
            assert("▓▓"@ == seq!['▓', '▓']);
            let s = if lum > 200000 || (lum == 200000 && rounds_above_200_exec(c.r, c.g, c.b)) {
                String::from_str("░░")
            } else if lum > 100000 || (lum == 100000 && rounds_above_100_exec(c.r, c.g, c.b)) {
                String::from_str("▒▒")
            } else {
                String::from_str("▓▓")
            };
            assert(s@ == shade(c.r, c.g, c.b));
            s
        },
        DisplayMode::Symbols => {
            let mut padded = String::new();
            push_padded_right(&mut padded, sym, 2);
            assert(padded@ =~= pad_right(sym@, 2));
            let s = paint_truecolor(padded.as_str(), c.r, c.g, c.b);
            assert(truecolored(s@, pad_right(sym@, 2), c.r, c.g, c.b));
            s
        },
        DisplayMode::Hex => {
            proof {
                reveal_strlit("0");
            }
            let mut s = String::from_str("0");
            s.append(lower_hex_str(c.r / 16));
            assert(s@ == seq!['0', lower_hex_digit(c.r / 16)]);
            s
        },
    }
}

/// Every character takes at least one byte in UTF-8.
pub proof fn lemma_encode_utf8_len(s: Seq<char>)
    ensures
        encode_utf8(s).len() >= s.len(),
    decreases s.len(),
{
    if s.len() > 0 {
        lemma_encode_utf8_len(s.drop_first());
    }
}

/// Byte length of the symbol prefix that the chart uses: at most two bytes.
pub open spec fn symbol_cut(symbol: Seq<char>) -> int {
    let n = encode_utf8(symbol).len() as int;
    if n < 2 {
        n
    } else {
        2
    }
}

/// The chart symbol for a given symbol: `x` when it is empty, else its first
/// two bytes.
pub fn chart_symbol(symbol: &str) -> (sym: String)
    requires
        is_char_boundary(symbol.spec_bytes(), symbol_cut(symbol@)),
    ensures
        symbol@.len() == 0 ==> sym@ == seq!['x'],
        symbol@.len() > 0 ==> encode_utf8(sym@) == symbol.spec_bytes().subrange(
            0,
            symbol_cut(symbol@),
        ),
        sym@.len() <= 2,
        !has_reset(pad_right(sym@, 2)),
{
    if symbol.is_empty() {
        proof {
            reveal_strlit("x");
        }
        return String::from_str("x");
    }
    let nc = symbol.unicode_len();
    proof {
        lemma_encode_utf8_len(symbol@);
        char_is_scalar(symbol@[0]);
        assert(encode_utf8(symbol@) == encode_scalar(symbol@[0] as u32) + encode_utf8(
            symbol@.drop_first(),
        ));
        lemma_encode_utf8_len(symbol@.drop_first());
    }
    let k: usize = if nc >= 2 {
        2
    } else {
        let c = symbol.get_char(0);
        if (c as u32) < 0x80 {
            1
        } else {
            2
        }
    };
    assert(k as int == symbol_cut(symbol@));
    let (head, _) = symbol.split_at(k);
    let sym = String::from_str(head);
    proof {
        lemma_encode_utf8_len(sym@);
        assert(head.spec_bytes() == encode_utf8(head@));
        lemma_short_no_reset(pad_right(sym@, 2));
    }
    sym
}

} // verus!

verus! {

/// Every cell of the chart names a yarn of the palette.
pub open spec fn cells_in_palette(chart: Seq<Vec<usize>>, palette_len: nat) -> bool {
    forall|y: int, x: int|
        0 <= y < chart.len() && 0 <= x < chart[y]@.len() ==> (#[trigger] chart[y]@[x]) < palette_len
}

/// Draws every stitch of a chart.
pub fn render_cells(chart: &Vec<Vec<usize>>, palette: &[Yarn], mode: &DisplayMode, sym: &str) -> (cells: Vec<Vec<String>>)
    requires
        cells_in_palette(chart@, palette@.len()),
        *mode == DisplayMode::Symbols ==> !has_reset(pad_right(sym@, 2)),
    ensures
        cells@.len() == chart@.len(),
        forall|y: int| 0 <= y < chart@.len() ==> (#[trigger] cells@[y])@.len() == chart@[y]@.len(),
        forall|y: int, x: int|
            0 <= y < chart@.len() && 0 <= x < chart@[y]@.len() ==> is_stitch_cell(
                (#[trigger] cells@[y]@[x])@,
                palette@[chart@[y]@[x] as int],
                *mode,
                sym@,
            ),
{
    let mut cells: Vec<Vec<String>> = Vec::new();
    let mut y: usize = 0;
    while y < chart.len()
        invariant
            y <= chart@.len(),
            cells_in_palette(chart@, palette@.len()),
            *mode == DisplayMode::Symbols ==> !has_reset(pad_right(sym@, 2)),
            cells@.len() == y,
            forall|yy: int| 0 <= yy < y ==> (#[trigger] cells@[yy])@.len() == chart@[yy]@.len(),
            forall|yy: int, x: int|
                0 <= yy < y && 0 <= x < chart@[yy]@.len() ==> is_stitch_cell(
                    (#[trigger] cells@[yy]@[x])@,
                    palette@[chart@[yy]@[x] as int],
                    *mode,
                    sym@,
                ),
        decreases chart@.len() - y,
    {
        let row = &chart[y];
        let mut out: Vec<String> = Vec::new();
        let mut x: usize = 0;
        while x < row.len()
            invariant
                y < chart@.len(),
                row@ == chart@[y as int]@,
                x <= row@.len(),
                cells_in_palette(chart@, palette@.len()),
                *mode == DisplayMode::Symbols ==> !has_reset(pad_right(sym@, 2)),
                out@.len() == x,
                forall|k: int|
                    0 <= k < x ==> is_stitch_cell(
                        (#[trigger] out@[k])@,
                        palette@[row@[k] as int],
                        *mode,
                        sym@,
                    ),
            decreases row@.len() - x,
        {
            let idx = row[x];
            assert(chart@[y as int]@[x as int] == idx);
            out.push(stitch_cell(&palette[idx], mode, sym));
            x = x + 1;
        }
        cells.push(out);
        y = y + 1;
    }
    cells
}

} // verus!

verus! {

/// In Hex mode a stitch is `0` and one lower-case hexadecimal digit whose
/// value is the yarn's red channel divided by 16.
pub proof fn law_hex_cell_shows_red_sixteenths(s: Seq<char>, c: Yarn, sym: Seq<char>)
    requires
        is_stitch_cell(s, c, DisplayMode::Hex, sym),
    ensures
        s.len() == 2,
        s[0] == '0',
        hex_digit_value(s[1] as u8) == Some((c.r / 16) as u8),
        !('A' <= s[1] <= 'F'),
{
}

/// In Hex mode a stitch depends on the red channel only: two yarns with one
/// red channel are drawn alike, whatever their green, blue, code or symbol.
pub proof fn law_hex_cell_ignores_green_and_blue(
    s1: Seq<char>,
    s2: Seq<char>,
    c1: Yarn,
    c2: Yarn,
    sym1: Seq<char>,
    sym2: Seq<char>,
)
    requires
        is_stitch_cell(s1, c1, DisplayMode::Hex, sym1),
        is_stitch_cell(s2, c2, DisplayMode::Hex, sym2),
        c1.r == c2.r,
    ensures
        s1 == s2,
{
}

} // verus!

verus! {

/// In Ascii mode a stitch is light above luminance 200, medium between 100
/// and 200, dark below 100 (luminance `0.299 r + 0.587 g + 0.114 b`).
pub proof fn law_ascii_shade_by_luminance(s: Seq<char>, c: Yarn, sym: Seq<char>)
    requires
        is_stitch_cell(s, c, DisplayMode::Ascii, sym),
    ensures
        299 * c.r + 587 * c.g + 114 * c.b > 200000 ==> s == seq!['░', '░'],
        100000 < 299 * c.r + 587 * c.g + 114 * c.b < 200000 ==> s == seq!['▒', '▒'],
        299 * c.r + 587 * c.g + 114 * c.b < 100000 ==> s == seq!['▓', '▓'],
{
}

/// A brighter yarn is never drawn darker in Ascii mode.
pub proof fn law_ascii_shade_monotonic(
    s1: Seq<char>,
    s2: Seq<char>,
    c1: Yarn,
    c2: Yarn,
    sym: Seq<char>,
)
    requires
        is_stitch_cell(s1, c1, DisplayMode::Ascii, sym),
        is_stitch_cell(s2, c2, DisplayMode::Ascii, sym),
        luminance_milli(c1.r, c1.g, c1.b) < luminance_milli(c2.r, c2.g, c2.b),
    ensures
        s1 == seq!['░', '░'] ==> s2 == seq!['░', '░'],
        s1 == seq!['▒', '▒'] ==> s2 != seq!['▓', '▓'],
{
}

/// Coloured text holds the text itself.
proof fn lemma_truecolored_holds_text(s: Seq<char>, t: Seq<char>, r: u8, g: u8, b: u8)
    requires
        truecolored(s, t, r, g, b),
    ensures
        exists|i: int| 0 <= i && i + t.len() <= s.len() && #[trigger] s.subrange(i, i + t.len()) == t,
{
    if s == t {
        let i: int = 0;
        assert(s.subrange(i, i + t.len()) =~= t);
    } else {
        let code = if s == start_seq(truecolor_code(r, g, b)) + t + reset_seq() {
            truecolor_code(r, g, b)
        } else {
            let k = choose|k: nat| is_basic_fg_code(k) && #[trigger] styled(s, t, decimal_spec(k));
            decimal_spec(k)
        };
        assert(s == start_seq(code) + t + reset_seq());
        let i = start_seq(code).len() as int;
        assert(s.subrange(i, i + t.len()) =~= t);
        assert(0 <= i && i + t.len() <= s.len());
    }
}

/// In Blocks mode the stitch holds two full blocks, coloured or bare.
pub proof fn law_blocks_cell_holds_two_blocks(s: Seq<char>, c: Yarn, sym: Seq<char>)
    requires
        is_stitch_cell(s, c, DisplayMode::Blocks, sym),
    ensures
        exists|i: int| 0 <= i && i + 2 <= s.len() && #[trigger] s.subrange(i, i + 2) == seq!['█', '█'],
{
    lemma_truecolored_holds_text(s, seq!['█', '█'], c.r, c.g, c.b);
}

/// In Symbols mode the stitch holds the symbol padded with spaces to two
/// characters, coloured or bare.
pub proof fn law_symbols_cell_holds_the_symbol(s: Seq<char>, c: Yarn, sym: Seq<char>)
    requires
        is_stitch_cell(s, c, DisplayMode::Symbols, sym),
    ensures
        pad_right(sym, 2).len() >= 2,
        pad_right(sym, 2).subrange(0, sym.len() as int) == sym,
        exists|i: int|
            0 <= i && i + pad_right(sym, 2).len() <= s.len() && #[trigger] s.subrange(
                i,
                i + pad_right(sym, 2).len(),
            ) == pad_right(sym, 2),
{
    lemma_truecolored_holds_text(s, pad_right(sym, 2), c.r, c.g, c.b);
    assert(pad_right(sym, 2).subrange(0, sym.len() as int) =~= sym);
}

} // verus!
