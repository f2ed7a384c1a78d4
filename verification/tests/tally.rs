use tapestry::color::Yarn;
use tapestry::tally::{instruction_line, instruction_row, row_runs, run_label, stitch_counts};

#[test]
fn runs_of_a_row() {
    assert_eq!(row_runs(&vec![1, 1, 2, 2, 2, 1]), vec![(1, 2), (2, 3), (1, 1)]);
    assert_eq!(row_runs(&vec![4]), vec![(4, 1)]);
    assert_eq!(row_runs(&vec![0, 0, 0]), vec![(0, 3)]);
}

#[test]
fn run_labels_and_lines() {
    let y = Yarn::from_hex("f5f5dc").unwrap();
    assert_eq!(run_label(&y, 3), "#F5F5DC ×3");
    assert_eq!(run_label(&y, 120), "#F5F5DC ×120");
    let pieces = vec!["a".to_string(), "b".to_string()];
    assert_eq!(instruction_line(4, &pieces), "row   5:  a  b  ");
    assert_eq!(instruction_line(1233, &vec![]), "row 1234:  ");
}

#[test]
fn stitch_counts_by_yarn() {
    let (entries, total) = stitch_counts(&vec![vec![2, 0, 2], vec![5]]);
    assert_eq!(entries, vec![(0, 1), (2, 2), (5, 1)]);
    assert_eq!(total, 4);
    let (entries, total) = stitch_counts(&vec![]);
    assert!(entries.is_empty());
    assert_eq!(total, 0);
}

#[test]
fn instruction_row_has_one_piece_per_run() {
    let pal = vec![Yarn::from_hex("#000000").unwrap(), Yarn::from_hex("#ffffff").unwrap()];
    let line = instruction_row(0, &vec![1, 0, 0, 1], &pal);
    assert!(line.starts_with("row   1:  "));
    assert_eq!(line.matches('×').count(), 3);
    assert!(line.contains("#FFFFFF ×1"));
    assert!(line.contains("#000000 ×2"));
}

#[test]
fn stitch_counts_of_repeated_yarns() {
    let (entries, total) = stitch_counts(&vec![vec![3, 3, 3], vec![1, 3, 0], vec![]]);
    assert_eq!(entries, vec![(0, 1), (1, 1), (3, 4)]);
    assert_eq!(total, 6);
}
