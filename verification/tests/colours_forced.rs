use tapestry::color::Yarn;
use tapestry::layout::{chart_marks, ruler_labels};
use tapestry::render::{stitch_cell, DisplayMode};
use tapestry::tally::instruction_row;

fn wrapped(s: &str, text: &str) -> bool {
    s.starts_with("\x1b[") && s.ends_with(&format!("{}\x1b[0m", text))
}

#[test]
fn blocks_are_coloured_when_forced() {
    colored::control::set_override(true);
    let b = stitch_cell(&Yarn::from_hex("#C0392B").unwrap(), &DisplayMode::Blocks, "x");
    assert!(wrapped(&b, "██"));
    assert_ne!(b, "██");
    let s = stitch_cell(&Yarn::from_hex("#C0392B").unwrap(), &DisplayMode::Symbols, "o");
    assert!(wrapped(&s, "o "));
}

#[test]
fn marks_and_labels_when_forced() {
    colored::control::set_override(true);
    let m = chart_marks();
    assert!(wrapped(&m.vsep, "|"));
    assert_eq!(m.done, "\x1b[1;32m✓\x1b[0m");
    assert_eq!(m.open, "\x1b[2m○\x1b[0m");
    assert_eq!(ruler_labels(11)[10], "\x1b[2m11\x1b[0m");
    assert_eq!(ruler_labels(3)[0], "\x1b[2m 1\x1b[0m");
}

#[test]
fn instruction_runs_are_coloured_when_forced() {
    colored::control::set_override(true);
    let pal = vec![Yarn::from_hex("#0a0b0c").unwrap()];
    let line = instruction_row(0, &vec![0, 0], &pal);
    assert!(line.starts_with("row   1:  \x1b["));
    assert!(line.ends_with("#0A0B0C ×2\x1b[0m  "));
}
