//! The lines of a drawn chart: optional column and row rulers, grid lines
//! between stitches and rows, and done marks for the row tracker.

use vstd::prelude::*;
use vstd::string::StringExecFns;
use crate::text::{
    bold_green, decimal, decimal_spec, dimmed, lemma_no_escape_no_reset, no_escape, pad_left,
    pad_right, paint_bold_green, paint_dimmed, paint_truecolor, push_padded_left,
    push_padded_right, push_spaces, spaces, truecolored,
};
use crate::tracker::{count_done, done_count};

verus! {

/// Which decorations a chart is drawn with.
#[derive(Clone, Copy, PartialEq, Eq, Structural, Debug)]
pub struct GridOpts {
    /// Separators between stitches and lines between rows.
    pub grid: bool,
    /// Column numbers above and below, row numbers left and right.
    pub ruler: bool,
    /// Done marks for the row tracker.
    pub track: bool,
}

/// The coloured marks of a chart: the grid separator, the done tick and the
/// open circle.
pub struct ChartMarks {
    pub vsep: String,
    pub done: String,
    pub open: String,
}

/// The marks as they are drawn: a grey `|`, a bold green `✓`, a dimmed `○`.
pub open spec fn marks_drawn(m: ChartMarks) -> bool {
    &&& truecolored(m.vsep@, seq!['|'], 80, 80, 80)
    &&& bold_green(m.done@, seq!['✓'])
    &&& dimmed(m.open@, seq!['○'])
}

/// Draws the chart marks.
pub fn chart_marks() -> (m: ChartMarks)
    ensures
        marks_drawn(m),
{
    proof {
        reveal_strlit("|");
        reveal_strlit("✓");
        reveal_strlit("○");
        assert("|"@ =~= seq!['|']);
        assert("✓"@ =~= seq!['✓']);
        assert("○"@ =~= seq!['○']);
        assert(no_escape("|"@));
        assert(no_escape("✓"@));
        assert(no_escape("○"@));
        lemma_no_escape_no_reset("|"@);
        lemma_no_escape_no_reset("✓"@);
        lemma_no_escape_no_reset("○"@);
    }
    ChartMarks {
        vsep: paint_truecolor("|", 80, 80, 80),
        done: paint_bold_green("✓"),
        open: paint_dimmed("○"),
    }
}

/// Column label `x` (counted from 0): the number `x + 1`, right-aligned in
/// two characters, dimmed.
pub open spec fn is_ruler_label(s: Seq<char>, x: nat) -> bool {
    dimmed(s, pad_left(decimal_spec(x + 1), 2))
}

/// Draws the column labels of a chart `cols` stitches wide.
pub fn ruler_labels(cols: usize) -> (labels: Vec<String>)
    ensures
        labels@.len() == cols,
        forall|x: int| 0 <= x < cols ==> is_ruler_label(#[trigger] labels@[x]@, x as nat),
{
    let mut labels: Vec<String> = Vec::new();
    let mut x: usize = 0;
    while x < cols
        invariant
            x <= cols,
            labels@.len() == x,
            forall|k: int| 0 <= k < x ==> is_ruler_label(#[trigger] labels@[k]@, k as nat),
        decreases cols - x,
    {
        let num = decimal(x + 1);
        let mut padded = String::new();
        push_padded_left(&mut padded, num.as_str(), 2);
        proof {
            lemma_decimal_no_escape((x + 1) as nat);
            assert(padded@ =~= pad_left(decimal_spec((x + 1) as nat), 2));
            assert(no_escape(padded@));
            lemma_no_escape_no_reset(padded@);
        }
        labels.push(paint_dimmed(padded.as_str()));
        x = x + 1;
    }
    labels
}

/// Decimal digits hold no escape character.
pub proof fn lemma_decimal_no_escape(n: nat)
    ensures
        no_escape(decimal_spec(n)),
        no_escape(pad_left(decimal_spec(n), 2)),
    decreases n,
{
    if n >= 10 {
        lemma_decimal_no_escape(n / 10);
    }
    let d = decimal_spec(n);
    if d.len() < 2 {
        assert(forall|i: int| 0 <= i < pad_left(d, 2).len() ==> #[trigger] pad_left(d, 2)[i] == (
        if i < 2 - d.len() {
            ' '
        } else {
            d[i - (2 - d.len())]
        }));
    }
}

/// The views of a row of strings.
pub open spec fn views(v: Seq<String>) -> Seq<Seq<char>> {
    v.map_values(|s: String| s@)
}

/// The views of rows of strings.
pub open spec fn grid_views(v: Seq<Vec<String>>) -> Seq<Seq<Seq<char>>> {
    v.map_values(|r: Vec<String>| views(r@))
}

/// Width of the row labels: the digits of the row count.
pub open spec fn row_label_width(rows: nat) -> nat {
    decimal_spec(rows).len()
}

/// Width left of the chart for row labels.
pub open spec fn left_gutter(rows: nat, opts: GridOpts) -> nat {
    if opts.ruler {
        row_label_width(rows) + 1
    } else {
        0
    }
}

/// Width left of the chart for done marks.
pub open spec fn done_gutter(opts: GridOpts) -> nat {
    if opts.track {
        3
    } else {
        0
    }
}

/// `--` for each column, joined by `+`.
pub open spec fn hsep_inner(cols: nat) -> Seq<char>
    decreases cols,
{
    if cols == 0 {
        seq![]
    } else if cols == 1 {
        seq!['-', '-']
    } else {
        hsep_inner((cols - 1) as nat) + seq!['+', '-', '-']
    }
}

/// The line drawn between rows: the gutter, then `+--+--+` over the columns.
pub open spec fn hsep_line(cols: nat, gutter: nat) -> Seq<char> {
    spaces(gutter) + seq!['+'] + hsep_inner(cols) + seq!['+']
}

/// The column labels in a row, a space between them when there is a grid.
pub open spec fn ruler_body(labels: Seq<Seq<char>>, grid: bool) -> Seq<char>
    decreases labels.len(),
{
    if labels.len() == 0 {
        seq![]
    } else {
        ruler_body(labels.drop_last(), grid) + (if grid && labels.len() >= 2 {
            seq![' ']
        } else {
            seq![]
        }) + labels.last()
    }
}

/// The column ruler line.
pub open spec fn ruler_line(labels: Seq<Seq<char>>, gutter: nat, grid: bool) -> Seq<char> {
    spaces(gutter + if grid {
        1nat
    } else {
        0nat
    }) + ruler_body(labels, grid)
}

/// The stitches of a row, each followed by the separator when there is a
/// grid.
pub open spec fn cells_body(cells: Seq<Seq<char>>, grid: bool, vsep: Seq<char>) -> Seq<char>
    decreases cells.len(),
{
    if cells.len() == 0 {
        seq![]
    } else {
        cells_body(cells.drop_last(), grid, vsep) + cells.last() + if grid {
            vsep
        } else {
            seq![]
        }
    }
}

/// What comes before the stitches in the line of row `ri` (from 0): as
/// first drawn, the done gutter and the row label; in the tracker's redraw,
/// the row label and the done mark.
pub open spec fn row_prefix(
    ri: nat,
    rows: nat,
    opts: GridOpts,
    marks: ChartMarks,
    done: bool,
    redraw: bool,
) -> Seq<char> {
    let label = if opts.ruler {
        pad_left(decimal_spec(ri + 1), row_label_width(rows)) + seq![' ']
    } else {
        seq![]
    };
    if redraw {
        label + (if done {
            marks.done@
        } else {
            marks.open@
        }) + seq![' ']
    } else {
        (if opts.track {
            if done {
                marks.done@ + seq![' ']
            } else {
                seq![' ', ' ']
            }
        } else {
            seq![]
        }) + label
    }
}

/// The stitches of row `ri`, between separators when there is a grid, then
/// the row label again when there is a ruler.
pub open spec fn row_body(
    cells: Seq<Seq<char>>,
    ri: nat,
    rows: nat,
    opts: GridOpts,
    marks: ChartMarks,
) -> Seq<char> {
    (if opts.grid {
        marks.vsep@
    } else {
        seq![]
    }) + cells_body(cells, opts.grid, marks.vsep@) + if opts.ruler {
        seq![' '] + pad_right(decimal_spec(ri + 1), row_label_width(rows))
    } else {
        seq![]
    }
}

/// What ends a row line: the done mark, as first drawn with tracking.
pub open spec fn row_suffix(opts: GridOpts, marks: ChartMarks, done: bool, redraw: bool) -> Seq<
    char,
> {
    if !redraw && opts.track {
        seq![' ', ' '] + if done {
            marks.done@
        } else {
            marks.open@
        }
    } else {
        seq![]
    }
}

/// Line of row `ri` (from 0).
pub open spec fn row_line(
    cells: Seq<Seq<char>>,
    ri: nat,
    rows: nat,
    opts: GridOpts,
    marks: ChartMarks,
    done: bool,
    redraw: bool,
) -> Seq<char> {
    row_prefix(ri, rows, opts, marks, done, redraw) + row_body(cells, ri, rows, opts, marks)
        + row_suffix(opts, marks, done, redraw)
}

/// The lines of the first `k` rows, with the row line between rows when
/// there is a grid.
pub open spec fn rows_block(
    cells: Seq<Seq<Seq<char>>>,
    k: nat,
    opts: GridOpts,
    marks: ChartMarks,
    done: Seq<bool>,
    redraw: bool,
    hsep: Seq<char>,
) -> Seq<Seq<char>>
    decreases k,
{
    if k == 0 {
        seq![]
    } else {
        let ri = (k - 1) as nat;
        rows_block(cells, ri, opts, marks, done, redraw, hsep) + seq![
            row_line(cells[ri as int], ri, cells.len(), opts, marks, done[ri as int], redraw),
        ] + if opts.grid && k < cells.len() {
            seq![hsep]
        } else {
            seq![]
        }
    }
}

/// Width of the chart: the stitches in its first row.
pub open spec fn chart_cols(cells: Seq<Seq<Seq<char>>>) -> nat {
    if cells.len() == 0 {
        0
    } else {
        cells[0].len()
    }
}

/// The row line of a chart.
pub open spec fn chart_hsep(cells: Seq<Seq<Seq<char>>>, opts: GridOpts) -> Seq<char> {
    hsep_line(chart_cols(cells), left_gutter(cells.len(), opts) + done_gutter(opts))
}

/// The lines of a chart as first drawn, no row done yet.
pub open spec fn chart_lines_spec(
    cells: Seq<Seq<Seq<char>>>,
    labels: Seq<Seq<char>>,
    marks: ChartMarks,
    opts: GridOpts,
) -> Seq<Seq<char>> {
    let hs = chart_hsep(cells, opts);
    let rl = ruler_line(labels, left_gutter(cells.len(), opts) + done_gutter(opts), opts.grid);
    (if opts.ruler {
        seq![rl] + if opts.grid {
            seq![hs]
        } else {
            seq![]
        }
    } else {
        seq![]
    }) + rows_block(
        cells,
        cells.len(),
        opts,
        marks,
        Seq::new(cells.len(), |i: int| false),
        false,
        hs,
    ) + (if opts.grid {
        seq![hs]
    } else {
        seq![]
    }) + if opts.ruler {
        seq![rl]
    } else {
        seq![]
    }
}

/// The tracker's count line: `k/n rows done`.
pub open spec fn summary_line(done: Seq<bool>) -> Seq<char> {
    decimal_spec(count_done(done)) + seq!['/'] + decimal_spec(done.len()) + seq![
        ' ',
        'r',
        'o',
        'w',
        's',
        ' ',
        'd',
        'o',
        'n',
        'e',
    ]
}

/// The lines the tracker draws after a command: the rows with their marks,
/// then the count of rows done.
pub open spec fn tracker_lines_spec(
    cells: Seq<Seq<Seq<char>>>,
    marks: ChartMarks,
    opts: GridOpts,
    done: Seq<bool>,
) -> Seq<Seq<char>> {
    rows_block(cells, cells.len(), opts, marks, done, true, chart_hsep(cells, opts)) + seq![
        summary_line(done),
    ]
}

fn hsep_string(cols: usize, gutter: usize) -> (s: String)
    ensures
        s@ == hsep_line(cols as nat, gutter as nat),
{
    let mut s = String::new();
    push_spaces(&mut s, gutter);
    proof {
        reveal_strlit("+");
        reveal_strlit("--");
        reveal_strlit("+--");
    }
    s.append("+");
    let ghost base = s@;
    let mut k: usize = 0;
    while k < cols
        invariant
            k <= cols,
            s@ == base + hsep_inner(k as nat),
        decreases cols - k,
    {
        proof {
            reveal_strlit("--");
            reveal_strlit("+--");
        }
        if k == 0 {
            s.append("--");
        } else {
            s.append("+--");
        }
        k = k + 1;
        assert(s@ =~= base + hsep_inner(k as nat));
    }
    s.append("+");
    assert(s@ =~= hsep_line(cols as nat, gutter as nat));
    s
}

fn ruler_string(labels: &Vec<String>, gutter: usize, grid: bool) -> (s: String)
    requires
        gutter < usize::MAX,
    ensures
        s@ == ruler_line(views(labels@), gutter as nat, grid),
{
    let mut s = String::new();
    push_spaces(
        &mut s,
        if grid {
            gutter + 1
        } else {
            gutter
        },
    );
    let ghost base = s@;
    let mut k: usize = 0;
    while k < labels.len()
        invariant
            k <= labels@.len(),
            s@ == base + ruler_body(views(labels@.subrange(0, k as int)), grid),
        decreases labels@.len() - k,
    {
        proof {
            reveal_strlit(" ");
        }
        if grid && k >= 1 {
            s.append(" ");
        }
        s.append(labels[k].as_str());
        proof {
            let pre = views(labels@.subrange(0, k as int));
            let next = views(labels@.subrange(0, k + 1));
            assert(next.drop_last() =~= pre);
            assert(next.last() == labels@[k as int]@);
        }
        k = k + 1;
        assert(s@ =~= base + ruler_body(views(labels@.subrange(0, k as int)), grid));
    }
    assert(labels@.subrange(0, labels@.len() as int) =~= labels@);
    assert(s@ =~= ruler_line(views(labels@), gutter as nat, grid));
    s
}

fn push_cells(s: &mut String, cells: &Vec<String>, grid: bool, vsep: &str)
    ensures
        final(s)@ == old(s)@ + cells_body(views(cells@), grid, vsep@),
{
    let ghost base = s@;
    let mut k: usize = 0;
    while k < cells.len()
        invariant
            k <= cells@.len(),
            s@ == base + cells_body(views(cells@.subrange(0, k as int)), grid, vsep@),
        decreases cells@.len() - k,
    {
        s.append(cells[k].as_str());
        if grid {
            s.append(vsep);
        }
        proof {
            let pre = views(cells@.subrange(0, k as int));
            let next = views(cells@.subrange(0, k + 1));
            assert(next.drop_last() =~= pre);
            assert(next.last() == cells@[k as int]@);
        }
        k = k + 1;
        assert(s@ =~= base + cells_body(views(cells@.subrange(0, k as int)), grid, vsep@));
    }
    assert(cells@.subrange(0, cells@.len() as int) =~= cells@);
}

fn row_prefix_string(
    ri: usize,
    rows: usize,
    opts: &GridOpts,
    marks: &ChartMarks,
    done: bool,
    redraw: bool,
) -> (s: String)
    requires
        ri < rows,
    ensures
        s@ == row_prefix(ri as nat, rows as nat, *opts, *marks, done, redraw),
{
    proof {
        reveal_strlit(" ");
        reveal_strlit("  ");
        assert(" "@ =~= seq![' ']);
        assert("  "@ =~= seq![' ', ' ']);
    }
    let mut label = String::new();
    if opts.ruler {
        let w = decimal(rows).unicode_len();
        push_padded_left(&mut label, decimal(ri + 1).as_str(), w);
        label.append(" ");
    }
    let mut s = String::new();
    if redraw {
        s.append(label.as_str());
        if done {
            s.append(marks.done.as_str());
        } else {
            s.append(marks.open.as_str());
        }
        s.append(" ");
    } else {
        if opts.track {
            if done {
                s.append(marks.done.as_str());
                s.append(" ");
            } else {
                s.append("  ");
            }
        }
        s.append(label.as_str());
    }
    assert(s@ =~= row_prefix(ri as nat, rows as nat, *opts, *marks, done, redraw));
    s
}

fn row_body_string(
    cells: &Vec<String>,
    ri: usize,
    rows: usize,
    opts: &GridOpts,
    marks: &ChartMarks,
) -> (s: String)
    requires
        ri < rows,
    ensures
        s@ == row_body(views(cells@), ri as nat, rows as nat, *opts, *marks),
{
    proof {
        reveal_strlit(" ");
        assert(" "@ =~= seq![' ']);
    }
    let mut s = String::new();
    if opts.grid {
        s.append(marks.vsep.as_str());
    }
    push_cells(&mut s, cells, opts.grid, marks.vsep.as_str());
    if opts.ruler {
        let w = decimal(rows).unicode_len();
        s.append(" ");
        push_padded_right(&mut s, decimal(ri + 1).as_str(), w);
    }
    assert(s@ =~= row_body(views(cells@), ri as nat, rows as nat, *opts, *marks));
    s
}

fn row_string(
    cells: &Vec<String>,
    ri: usize,
    rows: usize,
    opts: &GridOpts,
    marks: &ChartMarks,
    done: bool,
    redraw: bool,
) -> (s: String)
    requires
        ri < rows,
    ensures
        s@ == row_line(views(cells@), ri as nat, rows as nat, *opts, *marks, done, redraw),
{
    proof {
        reveal_strlit("  ");
        assert("  "@ =~= seq![' ', ' ']);
    }
    let mut s = row_prefix_string(ri, rows, opts, marks, done, redraw);
    let body = row_body_string(cells, ri, rows, opts, marks);
    s.append(body.as_str());
    if !redraw && opts.track {
        s.append("  ");
        if done {
            s.append(marks.done.as_str());
        } else {
            s.append(marks.open.as_str());
        }
    }
    assert(s@ =~= row_line(views(cells@), ri as nat, rows as nat, *opts, *marks, done, redraw));
    s
}

fn push_rows(
    lines: &mut Vec<String>,
    cells: &Vec<Vec<String>>,
    opts: &GridOpts,
    marks: &ChartMarks,
    done: &Vec<bool>,
    redraw: bool,
    hsep: &String,
)
    requires
        done@.len() == cells@.len(),
    ensures
        views(final(lines)@) == views(old(lines)@) + rows_block(
            grid_views(cells@),
            cells@.len(),
            *opts,
            *marks,
            done@,
            redraw,
            hsep@,
        ),
{
    let ghost base = views(lines@);
    let rows = cells.len();
    let mut k: usize = 0;
    while k < rows
        invariant
            rows == cells@.len(),
            done@.len() == rows,
            k <= rows,
            views(lines@) == base + rows_block(
                grid_views(cells@),
                k as nat,
                *opts,
                *marks,
                done@,
                redraw,
                hsep@,
            ),
        decreases rows - k,
    {
        let ghost before = lines@;
        let line = row_string(&cells[k], k, rows, opts, marks, done[k], redraw);
        let ghost line_view = line@;
        lines.push(line);
        proof {
            lemma_views_push(before, lines@.last());
            assert(grid_views(cells@)[k as int] == views(cells@[k as int]@));
            assert(grid_views(cells@).len() == rows);
        }
        if opts.grid && k + 1 < rows {
            let ghost mid = lines@;
            lines.push(hsep.clone());
            proof {
                lemma_views_push(mid, lines@.last());
            }
        }
        k = k + 1;
        assert(views(lines@) =~= base + rows_block(
            grid_views(cells@),
            k as nat,
            *opts,
            *marks,
            done@,
            redraw,
            hsep@,
        ));
    }
}

fn all_open(n: usize) -> (v: Vec<bool>)
    ensures
        v@ == Seq::new(n as nat, |i: int| false),
{
    let mut v: Vec<bool> = Vec::new();
    let mut i: usize = 0;
    while i < n
        invariant
            i <= n,
            v@ == Seq::new(i as nat, |j: int| false),
        decreases n - i,
    {
        v.push(false);
        i = i + 1;
        assert(v@ =~= Seq::new(i as nat, |j: int| false));
    }
    v
}

fn hsep_for(cells: &Vec<Vec<String>>, opts: &GridOpts) -> (s: String)
    ensures
        s@ == chart_hsep(grid_views(cells@), *opts),
{
    let rows = cells.len();
    let cols = if rows == 0 {
        0
    } else {
        cells[0].len()
    };
    proof {
        if rows > 0 {
            assert(grid_views(cells@)[0] == views(cells@[0]@));
        }
        lemma_decimal_len_bound(rows as nat);
    }
    let left = if opts.ruler {
        decimal(rows).unicode_len() + 1
    } else {
        0
    };
    let done_w: usize = if opts.track {
        3
    } else {
        0
    };
    hsep_string(cols, left + done_w)
}

/// A number has at most `n / 2 + 1` decimal digits.
pub proof fn lemma_decimal_len_bound(n: nat)
    ensures
        decimal_spec(n).len() <= n / 2 + 1,
        decimal_spec(n).len() >= 1,
    decreases n,
{
    if n >= 10 {
        lemma_decimal_len_bound(n / 10);
    }
}

proof fn lemma_views_push(s: Seq<String>, x: String)
    ensures
        views(s.push(x)) == views(s).push(x@),
{
    assert(views(s.push(x)) =~= views(s).push(x@));
}

/// The lines of a chart as first drawn (no row done yet), from its drawn
/// stitches, its column labels and its marks.
pub fn chart_lines(
    cells: &Vec<Vec<String>>,
    labels: &Vec<String>,
    marks: &ChartMarks,
    opts: &GridOpts,
) -> (lines: Vec<String>)
    ensures
        views(lines@) == chart_lines_spec(grid_views(cells@), views(labels@), *marks, *opts),
{
    let rows = cells.len();
    let hs = hsep_for(cells, opts);
    proof {
        lemma_decimal_len_bound(rows as nat);
    }
    let left = if opts.ruler {
        decimal(rows).unicode_len() + 1
    } else {
        0
    };
    let done_w: usize = if opts.track {
        3
    } else {
        0
    };
    let rl = ruler_string(labels, left + done_w, opts.grid);
    let ghost cv = grid_views(cells@);
    let ghost hv = hs@;
    let ghost rv = rl@;
    assert(cv.len() == rows);
    let mut lines: Vec<String> = Vec::new();
    assert(views(lines@) =~= Seq::<Seq<char>>::empty());
    if opts.ruler {
        let ghost l0 = lines@;
        lines.push(rl.clone());
        proof {
            lemma_views_push(l0, lines@.last());
        }
        if opts.grid {
            let ghost l1 = lines@;
            lines.push(hs.clone());
            proof {
                lemma_views_push(l1, lines@.last());
            }
        }
    }
    let ghost head = views(lines@);
    assert(head =~= (if opts.ruler {
        seq![rv] + if opts.grid {
            seq![hv]
        } else {
            seq![]
        }
    } else {
        seq![]
    }));
    let open = all_open(rows);
    push_rows(&mut lines, cells, opts, marks, &open, false, &hs);
    let ghost body = views(lines@);
    if opts.grid {
        let ghost l2 = lines@;
        lines.push(hs.clone());
        proof {
            lemma_views_push(l2, lines@.last());
        }
    }
    if opts.ruler {
        let ghost l3 = lines@;
        lines.push(rl);
        proof {
            lemma_views_push(l3, lines@.last());
        }
    }
    assert(views(lines@) =~= body + (if opts.grid {
        seq![hv]
    } else {
        seq![]
    }) + if opts.ruler {
        seq![rv]
    } else {
        seq![]
    });
    assert(views(lines@) =~= chart_lines_spec(grid_views(cells@), views(labels@), *marks, *opts));
    lines
}

/// The lines the tracker draws after a command, from the chart's drawn
/// stitches, its marks and which rows are done.
pub fn tracker_lines(
    cells: &Vec<Vec<String>>,
    marks: &ChartMarks,
    opts: &GridOpts,
    done: &Vec<bool>,
) -> (lines: Vec<String>)
    requires
        done@.len() == cells@.len(),
    ensures
        views(lines@) == tracker_lines_spec(grid_views(cells@), *marks, *opts, done@),
{
    let hs = hsep_for(cells, opts);
    let mut lines: Vec<String> = Vec::new();
    assert(views(lines@) =~= Seq::<Seq<char>>::empty());
    push_rows(&mut lines, cells, opts, marks, done, true, &hs);
    let ghost body = lines@;
    let mut summary = decimal(done_count(done));
    proof {
        reveal_strlit("/");
        reveal_strlit(" rows done");
        assert(" rows done"@ =~= seq![' ', 'r', 'o', 'w', 's', ' ', 'd', 'o', 'n', 'e']);
    }
    summary.append("/");
    summary.append(decimal(done.len()).as_str());
    summary.append(" rows done");
    assert(summary@ =~= summary_line(done@));
    lines.push(summary);
    proof {
        lemma_views_push(body, lines@.last());
    }
    assert(views(lines@) =~= tracker_lines_spec(grid_views(cells@), *marks, *opts, done@));
    lines
}

} // verus!

verus! {

/// A larger number has at least as many decimal digits.
pub proof fn lemma_decimal_len_monotonic(n: nat, m: nat)
    requires
        n <= m,
    ensures
        decimal_spec(n).len() <= decimal_spec(m).len(),
    decreases m,
{
    lemma_decimal_len_bound(m);
    if n >= 10 {
        lemma_decimal_len_monotonic(n / 10, m / 10);
    }
}

/// With the ruler, every row line begins with the row's number right-aligned
/// in as many characters as the row count has digits, then a space (after
/// the done mark's gutter when the chart is first drawn with tracking): so
/// the stitches of every row start in one column, that of the column ruler.
pub proof fn law_row_numbers_aligned(
    cells: Seq<Seq<char>>,
    ri: nat,
    rows: nat,
    opts: GridOpts,
    marks: ChartMarks,
    done: bool,
)
    requires
        opts.ruler,
        ri < rows,
    ensures
        decimal_spec(ri + 1).len() <= decimal_spec(rows).len(),
        ({
            let w = decimal_spec(rows).len();
            let label = spaces((w - decimal_spec(ri + 1).len()) as nat) + decimal_spec(ri + 1)
                + seq![' '];
            &&& label.len() == w + 1
            &&& row_line(cells, ri, rows, opts, marks, done, true).subrange(0, w as int + 1) == label
            &&& !opts.track ==> row_prefix(ri, rows, opts, marks, done, false) == label
            &&& !opts.track ==> row_line(cells, ri, rows, opts, marks, done, false).subrange(0, w as int + 1) == label
            &&& !opts.track ==> left_gutter(rows, opts) + done_gutter(opts) == label.len()
        }),
{
    lemma_decimal_len_monotonic(ri + 1, rows);
    let w = decimal_spec(rows).len();
    let d = decimal_spec(ri + 1);
    let label = spaces((w - d.len()) as nat) + d + seq![' '];
    assert(pad_left(d, w) + seq![' '] =~= label);
    let p1 = row_prefix(ri, rows, opts, marks, done, true);
    let l1 = row_line(cells, ri, rows, opts, marks, done, true);
    assert(l1.subrange(0, w as int + 1) =~= label) by {
        assert(p1 == label + (if done { marks.done@ } else { marks.open@ }) + seq![' ']);
        assert forall|i: int| 0 <= i < w + 1 implies l1[i] == label[i] by {
            assert(l1[i] == p1[i]);
        }
    }
    if !opts.track {
        let p0 = row_prefix(ri, rows, opts, marks, done, false);
        let l0 = row_line(cells, ri, rows, opts, marks, done, false);
        assert(p0 =~= label);
        assert(l0.subrange(0, w as int + 1) =~= label) by {
            assert forall|i: int| 0 <= i < w + 1 implies l0[i] == label[i] by {
                assert(l0[i] == p0[i]);
            }
        }
    }
}

} // verus!
