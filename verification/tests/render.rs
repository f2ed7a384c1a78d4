use tapestry::color::Yarn;
use tapestry::render::{chart_symbol, render_cells, stitch_cell, DisplayMode};

fn yarn(code: &str) -> Yarn {
    Yarn::from_hex(code).unwrap()
}

#[test]
fn ascii_shades_by_luminance() {
    assert_eq!(stitch_cell(&yarn("#ffffff"), &DisplayMode::Ascii, "x"), "░░");
    assert_eq!(stitch_cell(&yarn("#808080"), &DisplayMode::Ascii, "x"), "▒▒");
    assert_eq!(stitch_cell(&yarn("#000000"), &DisplayMode::Ascii, "x"), "▓▓");
    // Luminance exactly 200: single precision gives 200 + 2^-16 here, above 200.
    assert_eq!(stitch_cell(&yarn("#88f683"), &DisplayMode::Ascii, "x"), "░░");
    // Luminance exactly 200, and 200.0 in single precision: not above 200.
    assert_eq!(stitch_cell(&yarn("#c8c8c8"), &DisplayMode::Ascii, "x"), "▒▒");
    // Luminance exactly 100, just above 100 in single precision.
    assert_eq!(stitch_cell(&yarn("#038f85"), &DisplayMode::Ascii, "x"), "▒▒");
    // Luminance exactly 100, and 100.0 in single precision.
    assert_eq!(stitch_cell(&yarn("#646464"), &DisplayMode::Ascii, "x"), "▓▓");
    // 299·200 + 587·100 + 114·100 = 170000.
    assert_eq!(stitch_cell(&yarn("#c86464"), &DisplayMode::Ascii, "x"), "▒▒");
}

#[test]
fn hex_mode_shows_red_sixteenths() {
    assert_eq!(stitch_cell(&yarn("#F5F5DC"), &DisplayMode::Hex, "x"), "0f");
    assert_eq!(stitch_cell(&yarn("#2C2C2C"), &DisplayMode::Hex, "x"), "02");
    assert_eq!(stitch_cell(&yarn("#0a0000"), &DisplayMode::Hex, "x"), "00");
}

#[test]
fn blocks_and_symbols_hold_their_text() {
    let b = stitch_cell(&yarn("#C0392B"), &DisplayMode::Blocks, "x");
    assert!(b.contains("██"));
    let s = stitch_cell(&yarn("#C0392B"), &DisplayMode::Symbols, "x");
    assert!(s.contains("x "));
}

#[test]
fn chart_symbol_cuts_to_two_bytes() {
    assert_eq!(chart_symbol(""), "x");
    assert_eq!(chart_symbol("o"), "o");
    assert_eq!(chart_symbol("ab"), "ab");
    assert_eq!(chart_symbol("abc"), "ab");
    assert_eq!(chart_symbol("éa"), "é");
}

#[test]
fn render_cells_draws_every_stitch() {
    let pal = vec![yarn("#ffffff"), yarn("#000000")];
    let chart = vec![vec![0, 1, 1], vec![1]];
    let cells = render_cells(&chart, &pal, &DisplayMode::Ascii, "x");
    assert_eq!(cells, vec![vec!["░░", "▓▓", "▓▓"], vec!["▓▓"]]);
}

fn f32_shade(r: u8, g: u8, b: u8) -> &'static str {
    let lum = 0.299 * r as f32 + 0.587 * g as f32 + 0.114 * b as f32;
    if lum > 200. {
        "░░"
    } else if lum > 100. {
        "▒▒"
    } else {
        "▓▓"
    }
}

#[test]
fn ascii_shade_follows_single_precision_luminance() {
    let mut checked = 0;
    for r in 0..=255u32 {
        for g in 0..=255u32 {
            for b in 0..=255u32 {
                let exact = 299 * r + 587 * g + 114 * b;
                let near = |t: u32| exact + 3000 >= t && exact <= t + 3000;
                if near(200000) || near(100000) || (r % 17 == 0 && g % 17 == 0 && b % 17 == 0) {
                    let (r, g, b) = (r as u8, g as u8, b as u8);
                    let y = Yarn { r, g, b, hex: String::new() };
                    assert_eq!(stitch_cell(&y, &DisplayMode::Ascii, "x"), f32_shade(r, g, b));
                    checked += 1;
                }
            }
        }
    }
    assert!(checked > 1000);
}
