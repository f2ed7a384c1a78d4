use tapestry::color::{default_palette, Yarn};
use tapestry::pattern::{gen_pattern, PatternType};

fn three() -> Vec<Yarn> {
    default_palette().into_iter().take(3).collect()
}

fn gen(kind: PatternType) -> Vec<Vec<usize>> {
    gen_pattern(&kind, 6, 4, &three(), 2, |_x: u32, _y: u32| 0u32)
}

#[test]
fn checkerboard_cells() {
    assert_eq!(
        gen(PatternType::Checkerboard),
        vec![vec![0, 0, 1, 1, 2, 2], vec![0, 0, 1, 1, 2, 2], vec![1, 1, 2, 2, 0, 0], vec![1, 1, 2, 2, 0, 0]]
    );
}

#[test]
fn stripes_cells() {
    assert_eq!(gen(PatternType::Stripes), vec![vec![0; 6], vec![0; 6], vec![1; 6], vec![1; 6]]);
}

#[test]
fn diamonds_cells() {
    assert_eq!(
        gen(PatternType::Diamonds),
        vec![vec![2, 2, 1, 1, 1, 2], vec![2, 1, 1, 0, 1, 1], vec![1, 1, 0, 0, 0, 1], vec![2, 1, 1, 0, 1, 1]]
    );
}

#[test]
fn chevron_cells() {
    assert_eq!(
        gen(PatternType::Chevron),
        vec![vec![0, 1, 2, 0, 0, 1], vec![1, 2, 0, 0, 1, 2], vec![2, 0, 0, 1, 2, 0], vec![0, 0, 1, 2, 0, 0]]
    );
}

#[test]
fn noise_cells() {
    assert_eq!(
        gen(PatternType::Noise),
        vec![vec![0, 1, 1, 2, 2, 2], vec![2, 0, 0, 1, 2, 2], vec![0, 0, 0, 2, 2, 0], vec![2, 2, 0, 2, 0, 1]]
    );
}

#[test]
fn spiral_cells_come_from_the_spiral_value() {
    let chart = gen_pattern(&PatternType::Spiral, 3, 2, &three(), 4, |x: u32, y: u32| 10 * y + x);
    assert_eq!(chart, vec![vec![0, 1, 2], vec![1, 2, 0]]);
}

#[test]
fn pattern_cells_below_colour_count() {
    let pal = default_palette();
    for kind in [
        PatternType::Checkerboard,
        PatternType::Stripes,
        PatternType::Diamonds,
        PatternType::Chevron,
        PatternType::Noise,
    ] {
        let chart = gen_pattern(&kind, 9, 7, &pal, 3, |_x: u32, _y: u32| 0u32);
        assert_eq!(chart.len(), 7);
        assert!(chart.iter().all(|r| r.len() == 9 && r.iter().all(|&c| c < pal.len())));
    }
}

#[test]
fn empty_palette_uses_one_colour() {
    let chart = gen_pattern(&PatternType::Noise, 4, 3, &[], 0, |_x: u32, _y: u32| 0u32);
    assert_eq!(chart, vec![vec![0; 4]; 3]);
}

#[test]
fn diamonds_and_chevron_treat_tile_zero_as_one() {
    let pal = three();
    let d0 = gen_pattern(&PatternType::Diamonds, 5, 3, &pal, 0, |_x: u32, _y: u32| 0u32);
    let d1 = gen_pattern(&PatternType::Diamonds, 5, 3, &pal, 1, |_x: u32, _y: u32| 0u32);
    assert_eq!(d0, d1);
    let c0 = gen_pattern(&PatternType::Chevron, 5, 3, &pal, 0, |_x: u32, _y: u32| 0u32);
    let c1 = gen_pattern(&PatternType::Chevron, 5, 3, &pal, 1, |_x: u32, _y: u32| 0u32);
    assert_eq!(c0, c1);
}

#[test]
fn zero_sized_pattern_is_empty() {
    let chart = gen_pattern(&PatternType::Checkerboard, 0, 0, &three(), 0, |_x: u32, _y: u32| 0u32);
    assert!(chart.is_empty());
}

#[test]
fn checkerboard_steps_and_symmetry() {
    let c = gen_pattern(&PatternType::Checkerboard, 8, 8, &three(), 2, |_x: u32, _y: u32| 0u32);
    for y in 0..8 {
        for x in 0..8 {
            if x + 2 < 8 {
                assert_eq!(c[y][x + 2], (c[y][x] + 1) % 3);
            }
            if y + 2 < 8 {
                assert_eq!(c[y + 2][x], (c[y][x] + 1) % 3);
            }
            assert_eq!(c[y][x], c[x][y]);
        }
    }
}

#[test]
fn only_the_palette_length_matters() {
    let other: Vec<Yarn> = default_palette().into_iter().skip(3).collect();
    for kind in [
        PatternType::Checkerboard,
        PatternType::Stripes,
        PatternType::Diamonds,
        PatternType::Chevron,
        PatternType::Noise,
    ] {
        let a = gen_pattern(&kind, 7, 5, &three(), 3, |_x: u32, _y: u32| 0u32);
        let b = gen_pattern(&kind, 7, 5, &other, 3, |_x: u32, _y: u32| 5u32);
        assert_eq!(a, b);
    }
}

#[test]
fn spiral_depends_on_palette_length_only() {
    let other: Vec<Yarn> = default_palette().into_iter().skip(3).collect();
    let spiral = |x: u32, y: u32| x * 7 + y * 3;
    let a = gen_pattern(&PatternType::Spiral, 6, 5, &three(), 2, spiral);
    let b = gen_pattern(&PatternType::Spiral, 6, 5, &other, 2, spiral);
    assert_eq!(a, b);
}
