use tapestry::color::{default_palette, Yarn};
use tapestry::quantize::{quantize, Rgb};

fn px(r: u8, g: u8, b: u8) -> Rgb {
    Rgb { r, g, b }
}

fn black_white() -> Vec<Yarn> {
    vec![Yarn::from_hex("#000000").unwrap(), Yarn::from_hex("#ffffff").unwrap()]
}

#[test]
fn quantize_plain_picks_nearest_yarn() {
    let img = vec![vec![px(250, 250, 250), px(10, 10, 10)], vec![px(200, 50, 40), px(40, 130, 190)]];
    let chart = quantize(&img, &default_palette(), false);
    assert_eq!(chart, vec![vec![0, 1], vec![2, 3]]);
}

#[test]
fn quantize_keeps_dimensions() {
    let img = vec![vec![px(1, 2, 3); 5]; 3];
    let chart = quantize(&img, &black_white(), true);
    assert_eq!(chart.len(), 3);
    assert!(chart.iter().all(|r| r.len() == 5));
}

#[test]
fn quantize_dither_passes_error_right() {
    let img = vec![vec![px(128, 128, 128), px(128, 128, 128)]];
    let chart = quantize(&img, &black_white(), true);
    assert_eq!(chart, vec![vec![1, 0]]);
    let plain = quantize(&img, &black_white(), false);
    assert_eq!(plain, vec![vec![1, 1]]);
}

#[test]
fn quantize_dither_passes_error_down() {
    // (0,0): 128 -> white, leftover -127.
    // (0,1) gets 7/16: 128 - 55.5625 -> 72 -> black, leftover 72.
    // (1,0) gets 5/16 of -127 and 3/16 of 72: 128 - 39.6875 + 13.5 -> 101 -> black.
    // (1,1) gets 1/16 of -127, 5/16 of 72, 7/16 of 101: 128 - 7.9375 + 22.5 + 44.1875 -> 186 -> white.
    let img = vec![vec![px(128, 128, 128); 2]; 2];
    let chart = quantize(&img, &black_white(), true);
    assert_eq!(chart, vec![vec![1, 0], vec![0, 1]]);
}

#[test]
fn quantize_exact_palette_colours_stay() {
    let pal = default_palette();
    let img: Vec<Vec<Rgb>> = vec![pal.iter().map(|y| px(y.r, y.g, y.b)).collect()];
    assert_eq!(quantize(&img, &pal, false), vec![vec![0, 1, 2, 3, 4, 5]]);
}

#[test]
fn quantize_cells_index_the_palette() {
    let img: Vec<Vec<Rgb>> = (0..4u8)
        .map(|y| (0..7u8).map(|x| px(x * 37, y * 61, x.wrapping_mul(y) * 13)).collect())
        .collect();
    let pal = default_palette();
    for dither in [false, true] {
        let chart = quantize(&img, &pal, dither);
        assert!(chart.iter().flatten().all(|&i| i < pal.len()));
    }
}

#[test]
fn quantize_single_yarn_gives_zeros() {
    let img = vec![vec![px(9, 200, 31), px(255, 0, 0)]];
    let pal = vec![Yarn::from_hex("#808080").unwrap()];
    assert_eq!(quantize(&img, &pal, true), vec![vec![0, 0]]);
}

#[test]
fn quantize_empty_image() {
    let img: Vec<Vec<Rgb>> = Vec::new();
    assert!(quantize(&img, &[], true).is_empty());
}

#[test]
fn dither_changes_nothing_on_palette_colours() {
    let pal = default_palette();
    let img = vec![
        vec![px(0xF5, 0xF5, 0xDC), px(0x2C, 0x2C, 0x2C), px(0xC0, 0x39, 0x2B)],
        vec![px(0x29, 0x80, 0xB9), px(0x27, 0xAE, 0x60), px(0xF3, 0x9C, 0x12)],
    ];
    assert_eq!(quantize(&img, &pal, true), quantize(&img, &pal, false));
    assert_eq!(quantize(&img, &pal, true), vec![vec![0, 1, 2], vec![3, 4, 5]]);
}
