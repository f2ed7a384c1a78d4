use tapestry::color::Yarn;
use tapestry::layout::{chart_marks, ruler_labels};
use tapestry::render::{stitch_cell, DisplayMode};
use tapestry::tally::instruction_row;

#[test]
fn plain_when_colours_are_off() {
    colored::control::set_override(false);
    let m = chart_marks();
    assert_eq!(m.vsep, "|");
    assert_eq!(m.done, "✓");
    assert_eq!(m.open, "○");
    assert_eq!(ruler_labels(2), vec![" 1", " 2"]);
    let y = Yarn::from_hex("#C0392B").unwrap();
    assert_eq!(stitch_cell(&y, &DisplayMode::Blocks, "x"), "██");
    assert_eq!(stitch_cell(&y, &DisplayMode::Symbols, "o"), "o ");
}

#[test]
fn instructions_plain_when_colours_are_off() {
    colored::control::set_override(false);
    let pal = vec![Yarn::from_hex("#F5F5DC").unwrap(), Yarn::from_hex("#2c2c2c").unwrap()];
    let line = instruction_row(4, &vec![0, 0, 1, 1, 1, 0], &pal);
    assert_eq!(line, "row   5:  #F5F5DC ×2  #2C2C2C ×3  #F5F5DC ×1  ");
}
