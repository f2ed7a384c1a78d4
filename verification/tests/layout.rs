use tapestry::layout::{chart_lines, tracker_lines, ChartMarks, GridOpts};

fn cells() -> Vec<Vec<String>> {
    vec![
        vec!["AA".to_string(), "BB".to_string()],
        vec!["CC".to_string(), "DD".to_string()],
    ]
}

fn marks() -> ChartMarks {
    ChartMarks { vsep: "|".to_string(), done: "D".to_string(), open: "o".to_string() }
}

fn labels() -> Vec<String> {
    vec![" 1".to_string(), " 2".to_string()]
}

#[test]
fn chart_with_every_decoration() {
    let opts = GridOpts { grid: true, ruler: true, track: true };
    let lines = chart_lines(&cells(), &labels(), &marks(), &opts);
    assert_eq!(
        lines,
        vec![
            "       1  2",
            "     +--+--+",
            "  1 |AA|BB| 1  o",
            "     +--+--+",
            "  2 |CC|DD| 2  o",
            "     +--+--+",
            "       1  2",
        ]
    );
}

#[test]
fn plain_chart_is_just_the_stitches() {
    let opts = GridOpts { grid: false, ruler: false, track: false };
    let lines = chart_lines(&cells(), &labels(), &marks(), &opts);
    assert_eq!(lines, vec!["AABB", "CCDD"]);
}

#[test]
fn ruler_without_grid() {
    let opts = GridOpts { grid: false, ruler: true, track: false };
    let lines = chart_lines(&cells(), &labels(), &marks(), &opts);
    assert_eq!(lines, vec!["   1 2", "1 AABB 1", "2 CCDD 2", "   1 2"]);
}

#[test]
fn grid_without_ruler() {
    let opts = GridOpts { grid: true, ruler: false, track: false };
    let lines = chart_lines(&cells(), &labels(), &marks(), &opts);
    // The top line between ruler and rows is drawn only with the ruler.
    assert_eq!(lines, vec!["|AA|BB|", "+--+--+", "|CC|DD|", "+--+--+"]);
}

#[test]
fn tracker_redraw_marks_done_rows() {
    let opts = GridOpts { grid: true, ruler: true, track: true };
    let lines = tracker_lines(&cells(), &marks(), &opts, &vec![true, false]);
    assert_eq!(
        lines,
        vec!["1 D |AA|BB| 1", "     +--+--+", "2 o |CC|DD| 2", "1/2 rows done"]
    );
}

#[test]
fn tracker_redraw_without_decorations() {
    let opts = GridOpts { grid: false, ruler: false, track: true };
    let lines = tracker_lines(&cells(), &marks(), &opts, &vec![true, true]);
    assert_eq!(lines, vec!["D AABB", "D CCDD", "2/2 rows done"]);
}
