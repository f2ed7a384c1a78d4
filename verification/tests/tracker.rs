use tapestry::tracker::{done_count, tracker_step, TrackerReply};

#[test]
fn row_number_toggles_its_row() {
    let mut done = vec![false, false, false];
    assert_eq!(tracker_step(&mut done, "2\n"), TrackerReply::Redraw);
    assert_eq!(done, vec![false, true, false]);
    assert_eq!(tracker_step(&mut done, "  2  "), TrackerReply::Redraw);
    assert_eq!(done, vec![false, false, false]);
    assert_eq!(tracker_step(&mut done, "+3"), TrackerReply::Redraw);
    assert_eq!(done, vec![false, false, true]);
}

#[test]
fn same_command_twice_restores_the_marks() {
    let start = vec![true, false, true, false];
    let mut done = start.clone();
    tracker_step(&mut done, "3");
    tracker_step(&mut done, "3");
    assert_eq!(done, start);
}

#[test]
fn all_and_reset() {
    let mut done = vec![false, true, false];
    assert_eq!(tracker_step(&mut done, "all"), TrackerReply::Redraw);
    assert_eq!(done, vec![true, true, true]);
    assert_eq!(done_count(&done), 3);
    assert_eq!(tracker_step(&mut done, "reset\n"), TrackerReply::Redraw);
    assert_eq!(done, vec![false, false, false]);
    assert_eq!(done_count(&done), 0);
}

#[test]
fn quit_leaves_marks_alone() {
    let mut done = vec![true, false];
    assert_eq!(tracker_step(&mut done, "q"), TrackerReply::Quit);
    assert_eq!(tracker_step(&mut done, " quit\n"), TrackerReply::Quit);
    assert_eq!(done, vec![true, false]);
}

#[test]
fn out_of_range_rows_are_refused() {
    let mut done = vec![false, false, false];
    assert_eq!(tracker_step(&mut done, "0"), TrackerReply::OutOfRange(0));
    assert_eq!(tracker_step(&mut done, "4"), TrackerReply::OutOfRange(4));
    assert_eq!(done, vec![false, false, false]);
}

#[test]
fn other_input_is_unrecognised() {
    let mut done = vec![false, true];
    assert_eq!(tracker_step(&mut done, "abc"), TrackerReply::Unrecognised);
    assert_eq!(tracker_step(&mut done, "-1"), TrackerReply::Unrecognised);
    assert_eq!(tracker_step(&mut done, "99999999999999999999999"), TrackerReply::Unrecognised);
    assert_eq!(tracker_step(&mut done, "1 2"), TrackerReply::Unrecognised);
    assert_eq!(done, vec![false, true]);
}

#[test]
fn empty_line_redraws() {
    let mut done = vec![false, true];
    assert_eq!(tracker_step(&mut done, "\n"), TrackerReply::Redraw);
    assert_eq!(tracker_step(&mut done, ""), TrackerReply::Redraw);
    assert_eq!(done, vec![false, true]);
    assert_eq!(done_count(&done), 1);
}
