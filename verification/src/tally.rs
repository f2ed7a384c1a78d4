//! Counting a chart: runs of one colour along a row (the row instructions)
//! and stitches of each colour (the stitch counts).

use vstd::prelude::*;
use vstd::string::StringExecFns;
use crate::color::Yarn;
use std::collections::HashMap;
use crate::layout::lemma_decimal_no_escape;
use crate::text::{
    decimal, decimal_spec, lemma_no_escape_no_reset, no_escape, pad_left, paint_truecolor,
    push_padded_left, truecolored,
};

verus! {

/// The row written out from its runs: each run is a yarn index and how many
/// stitches of it follow.
pub open spec fn expand_runs(runs: Seq<(usize, usize)>) -> Seq<usize>
    decreases runs.len(),
{
    if runs.len() == 0 {
        seq![]
    } else {
        expand_runs(runs.drop_last()) + Seq::new(runs.last().1 as nat, |i: int| runs.last().0)
    }
}

/// `runs` is the run-length encoding of `row`: the runs give the row back,
/// no run is empty and neighbouring runs have different yarns.
pub open spec fn is_run_encoding(runs: Seq<(usize, usize)>, row: Seq<usize>) -> bool {
    &&& expand_runs(runs) == row
    &&& forall|k: int| 0 <= k < runs.len() ==> (#[trigger] runs[k]).1 >= 1
    &&& forall|k: int| 0 < k < runs.len() ==> (#[trigger] runs[k]).0 != runs[k - 1].0
}

/// The runs of one colour along a row, in order (`row` must not be empty).
pub fn row_runs(row: &Vec<usize>) -> (runs: Vec<(usize, usize)>)
    requires
        row@.len() > 0,
    ensures
        is_run_encoding(runs@, row@),
{
    let mut runs: Vec<(usize, usize)> = Vec::new();
    let mut cur = row[0];
    let mut cnt: usize = 1;
    let mut i: usize = 1;
    proof {
        let a = runs@.push((cur, cnt));
        assert(a.drop_last() =~= Seq::<(usize, usize)>::empty());
        assert(expand_runs(a.drop_last()) == Seq::<usize>::empty());
        assert(expand_runs(a) =~= row@.subrange(0, 1));
    }
    while i < row.len()
        invariant
            1 <= i <= row@.len(),
            1 <= cnt <= i,
            expand_runs(runs@.push((cur, cnt))) == row@.subrange(0, i as int),
            forall|k: int| 0 <= k < runs@.len() ==> (#[trigger] runs@[k]).1 >= 1,
            forall|k: int| 0 < k < runs@.len() ==> (#[trigger] runs@[k]).0 != runs@[k - 1].0,
            runs@.len() > 0 ==> runs@.last().0 != cur,
        decreases row@.len() - i,
    {
        let idx = row[i];
        let ghost old_runs = runs@;
        if idx == cur {
            proof {
                let a = runs@.push((cur, cnt));
                let b = runs@.push((cur, (cnt + 1) as usize));
                assert(a.drop_last() =~= runs@);
                assert(b.drop_last() =~= runs@);
                assert(expand_runs(b) =~= expand_runs(a).push(idx));
            }
            cnt = cnt + 1;
        } else {
            proof {
                let a = runs@.push((cur, cnt));
                let b = a.push((idx, 1usize));
                assert(b.drop_last() =~= a);
                assert(expand_runs(b) =~= expand_runs(a).push(idx));
            }
            runs.push((cur, cnt));
            cur = idx;
            cnt = 1;
        }
        i = i + 1;
        assert(row@.subrange(0, i as int) =~= row@.subrange(0, i - 1).push(idx));
    }
    runs.push((cur, cnt));
    assert(row@.subrange(0, row@.len() as int) =~= row@);
    runs
}

/// The label of a run: the yarn's code, ` ×` and the stitch count.
pub open spec fn run_label_spec(hex: Seq<char>, n: nat) -> Seq<char> {
    hex + seq![' ', '×'] + decimal_spec(n)
}

/// The label of a run of `n` stitches of yarn `y`.
pub fn run_label(y: &Yarn, n: usize) -> (s: String)
    ensures
        s@ == run_label_spec(y.hex@, n as nat),
{
    proof {
        reveal_strlit(" ×");
        assert(" ×"@ =~= seq![' ', '×']);
    }
    let mut s = String::new();
    s.append(y.hex.as_str());
    s.append(" ×");
    s.append(decimal(n).as_str());
    s
}

/// The drawn run labels, each followed by two spaces.
pub open spec fn joined_pieces(pieces: Seq<Seq<char>>) -> Seq<char>
    decreases pieces.len(),
{
    if pieces.len() == 0 {
        seq![]
    } else {
        joined_pieces(pieces.drop_last()) + pieces.last() + seq![' ', ' ']
    }
}

/// The instruction line of row `ri` (from 0): `row`, the row number
/// right-aligned in three characters, a colon, then the drawn runs.
pub open spec fn instruction_line_spec(ri: nat, pieces: Seq<Seq<char>>) -> Seq<char> {
    seq!['r', 'o', 'w', ' '] + pad_left(decimal_spec(ri + 1), 3) + seq![':', ' ', ' ']
        + joined_pieces(pieces)
}

/// The instruction line of row `ri` from its drawn run labels.
pub fn instruction_line(ri: usize, pieces: &Vec<String>) -> (s: String)
    requires
        ri < usize::MAX,
    ensures
        s@ == instruction_line_spec(ri as nat, pieces@.map_values(|p: String| p@)),
{
    proof {
        reveal_strlit("row ");
        reveal_strlit(":  ");
        reveal_strlit("  ");
        assert("row "@ =~= seq!['r', 'o', 'w', ' ']);
        assert(":  "@ =~= seq![':', ' ', ' ']);
    }
    let mut s = String::from_str("row ");
    push_padded_left(&mut s, decimal(ri + 1).as_str(), 3);
    s.append(":  ");
    let ghost base = s@;
    let mut k: usize = 0;
    while k < pieces.len()
        invariant
            k <= pieces@.len(),
            s@ == base + joined_pieces(pieces@.subrange(0, k as int).map_values(|p: String| p@)),
        decreases pieces@.len() - k,
    {
        proof {
            reveal_strlit("  ");
            assert("  "@ =~= seq![' ', ' ']);
        }
        s.append(pieces[k].as_str());
        s.append("  ");
        proof {
            let pre = pieces@.subrange(0, k as int).map_values(|p: String| p@);
            let next = pieces@.subrange(0, k + 1).map_values(|p: String| p@);
            assert(next.drop_last() =~= pre);
            assert(next.last() == pieces@[k as int]@);
        }
        k = k + 1;
        assert(s@ =~= base + joined_pieces(
            pieces@.subrange(0, k as int).map_values(|p: String| p@),
        ));
    }
    assert(pieces@.subrange(0, pieces@.len() as int) =~= pieces@);
    s
}

proof fn lemma_expand_parts(runs: Seq<(usize, usize)>)
    requires
        runs.len() > 0,
    ensures
        ({
            let p = expand_runs(runs.drop_last());
            let e = expand_runs(runs);
            &&& e.len() == p.len() + runs.last().1
            &&& e.subrange(0, p.len() as int) == p
            &&& forall|i: int| p.len() <= i < e.len() ==> #[trigger] e[i] == runs.last().0
        }),
{
    let p = expand_runs(runs.drop_last());
    let e = expand_runs(runs);
    assert(e.subrange(0, p.len() as int) =~= p);
}

/// A row has one run-length encoding: two encodings of the same row are the
/// same runs.
pub proof fn law_run_encoding_unique(a: Seq<(usize, usize)>, b: Seq<(usize, usize)>, row: Seq<usize>)
    requires
        is_run_encoding(a, row),
        is_run_encoding(b, row),
    ensures
        a == b,
    decreases row.len(),
{
    if a.len() > 0 {
        lemma_expand_parts(a);
    }
    if b.len() > 0 {
        lemma_expand_parts(b);
    }
    if a.len() > 0 && b.len() > 0 {
        let len = row.len() as int;
        let (va, na) = a.last();
        let (vb, nb) = b.last();
        assert(a.last().1 >= 1 && b.last().1 >= 1);
        assert(row[len - 1] == va);
        assert(row[len - 1] == vb);
        let pa = expand_runs(a.drop_last());
        let pb = expand_runs(b.drop_last());
        if na < nb {
            let i = len - 1 - na;
            assert(row[i] == vb);
            assert(a.drop_last().len() > 0);
            lemma_expand_parts(a.drop_last());
            assert(pa[i] == a.drop_last().last().0);
            assert(a[a.len() - 2] == a.drop_last().last());
            assert(a[a.len() - 1].0 != a[a.len() - 2].0);
            assert(row[i] == pa[i]) by {
                assert(row.subrange(0, pa.len() as int)[i] == row[i]);
            }
        } else if nb < na {
            let i = len - 1 - nb;
            assert(row[i] == va);
            assert(b.drop_last().len() > 0);
            lemma_expand_parts(b.drop_last());
            assert(pb[i] == b.drop_last().last().0);
            assert(b[b.len() - 2] == b.drop_last().last());
            assert(b[b.len() - 1].0 != b[b.len() - 2].0);
            assert(row[i] == pb[i]) by {
                assert(row.subrange(0, pb.len() as int)[i] == row[i]);
            }
        }
        assert(na == nb);
        let prefix = row.subrange(0, len - na);
        assert(is_run_encoding(a.drop_last(), prefix));
        assert(is_run_encoding(b.drop_last(), prefix));
        law_run_encoding_unique(a.drop_last(), b.drop_last(), prefix);
        assert(a =~= a.drop_last().push(a.last()));
        assert(b =~= b.drop_last().push(b.last()));
    } else if a.len() > 0 {
        assert(a.last().1 >= 1);
    } else if b.len() > 0 {
        assert(b.last().1 >= 1);
    } else {
        assert(a =~= b);
    }
}

/// Every run of an encoding names a yarn that occurs in the row.
pub proof fn lemma_run_yarn_in_row(runs: Seq<(usize, usize)>, k: int)
    requires
        0 <= k < runs.len(),
        runs[k].1 >= 1,
    ensures
        expand_runs(runs).contains(runs[k].0),
    decreases runs.len(),
{
    let prefix = expand_runs(runs.drop_last());
    if k == runs.len() - 1 {
        assert(expand_runs(runs)[prefix.len() as int] == runs[k].0);
    } else {
        lemma_run_yarn_in_row(runs.drop_last(), k);
        let p = choose|p: int| 0 <= p < prefix.len() && prefix[p] == runs[k].0;
        assert(expand_runs(runs)[p] == runs[k].0);
    }
}

/// `pieces` are the run labels of `runs`, each drawn in its yarn's colour.
pub open spec fn drawn_runs(
    pieces: Seq<Seq<char>>,
    runs: Seq<(usize, usize)>,
    palette: Seq<Yarn>,
) -> bool {
    &&& pieces.len() == runs.len()
    &&& forall|k: int|
        0 <= k < runs.len() ==> {
            let y = palette[(#[trigger] runs[k]).0 as int];
            truecolored(pieces[k], run_label_spec(y.hex@, runs[k].1 as nat), y.r, y.g, y.b)
        }
}

/// The instruction line of row `ri` (from 0) of a chart: the row's runs of
/// one colour, each labelled with its yarn's code and length and drawn in
/// the yarn's colour.
pub fn instruction_row(ri: usize, row: &Vec<usize>, palette: &[Yarn]) -> (s: String)
    requires
        ri < usize::MAX,
        row@.len() > 0,
        forall|i: int| 0 <= i < row@.len() ==> #[trigger] row@[i] < palette@.len(),
        forall|j: int| 0 <= j < palette@.len() ==> no_escape(#[trigger] palette@[j].hex@),
    ensures
        exists|runs: Seq<(usize, usize)>, pieces: Seq<Seq<char>>|
            is_run_encoding(runs, row@) && drawn_runs(pieces, runs, palette@) && s@
                == instruction_line_spec(ri as nat, pieces),
{
    let runs = row_runs(row);
    let mut pieces: Vec<String> = Vec::new();
    let mut k: usize = 0;
    while k < runs.len()
        invariant
            k <= runs@.len(),
            is_run_encoding(runs@, row@),
            forall|i: int| 0 <= i < row@.len() ==> #[trigger] row@[i] < palette@.len(),
            forall|j: int| 0 <= j < palette@.len() ==> no_escape(#[trigger] palette@[j].hex@),
            drawn_runs(
                pieces@.map_values(|p: String| p@),
                runs@.subrange(0, k as int),
                palette@,
            ),
        decreases runs@.len() - k,
    {
        let (v, n) = runs[k];
        proof {
            lemma_run_yarn_in_row(runs@, k as int);
        }
        let y = &palette[v];
        let label = run_label(y, n);
        proof {
            reveal_strlit(" ×");
            lemma_decimal_no_escape(n as nat);
            let t = run_label_spec(y.hex@, n as nat);
            assert(no_escape(palette@[v as int].hex@));
            assert forall|i: int| 0 <= i < t.len() implies #[trigger] t[i] != '\x1b' by {
                let h = y.hex@.len();
                if i < h {
                    assert(t[i] == y.hex@[i]);
                } else if i < h + 2 {
                } else {
                    assert(t[i] == decimal_spec(n as nat)[i - h - 2]);
                }
            }
            lemma_no_escape_no_reset(t);
        }
        let piece = paint_truecolor(label.as_str(), y.r, y.g, y.b);
        let ghost before = pieces@.map_values(|p: String| p@);
        pieces.push(piece);
        proof {
            let after = pieces@.map_values(|p: String| p@);
            assert(after =~= before.push(piece@));
            let sub = runs@.subrange(0, k + 1);
            assert forall|j: int| 0 <= j < sub.len() implies {
                let yy = palette@[(#[trigger] sub[j]).0 as int];
                truecolored(after[j], run_label_spec(yy.hex@, sub[j].1 as nat), yy.r, yy.g, yy.b)
            } by {
                if j < k {
                    assert(sub[j] == runs@.subrange(0, k as int)[j]);
                    assert(after[j] == before[j]);
                } else {
                    assert(sub[j] == (v, n));
                    assert(after[j] == piece@);
                }
            }
        }
        k = k + 1;
    }
    let s = instruction_line(ri, &pieces);
    assert(runs@.subrange(0, runs@.len() as int) =~= runs@);
    assert(is_run_encoding(runs@, row@) && drawn_runs(
        pieces@.map_values(|p: String| p@),
        runs@,
        palette@,
    ) && s@ == instruction_line_spec(ri as nat, pieces@.map_values(|p: String| p@)));
    s
}

} // verus!

verus! {

/// How often `v` occurs in `s`.
pub open spec fn occurrences(s: Seq<usize>, v: usize) -> nat
    decreases s.len(),
{
    if s.len() == 0 {
        0
    } else {
        occurrences(s.drop_last(), v) + if s.last() == v {
            1nat
        } else {
            0nat
        }
    }
}

/// The rows of a chart one after the other.
pub open spec fn flatten(rows: Seq<Seq<usize>>) -> Seq<usize>
    decreases rows.len(),
{
    if rows.len() == 0 {
        seq![]
    } else {
        flatten(rows.drop_last()) + rows.last()
    }
}

/// The stitches of a chart, row after row.
pub open spec fn chart_stitches(chart: Seq<Vec<usize>>) -> Seq<usize> {
    flatten(chart.map_values(|r: Vec<usize>| r@))
}

/// Sum of the counts of a tally.
pub open spec fn sum_counts(entries: Seq<(usize, usize)>) -> nat
    decreases entries.len(),
{
    if entries.len() == 0 {
        0
    } else {
        sum_counts(entries.drop_last()) + entries.last().1 as nat
    }
}

/// `entries` tallies `cells`: one entry per yarn index that occurs, in
/// increasing order of index, with how often it occurs.
pub open spec fn is_tally(entries: Seq<(usize, usize)>, cells: Seq<usize>) -> bool {
    &&& forall|i: int, j: int| 0 <= i < j < entries.len() ==> entries[i].0 < entries[j].0
    &&& forall|k: int|
        0 <= k < entries.len() ==> (#[trigger] entries[k]).1 == occurrences(cells, entries[k].0)
            && entries[k].1 > 0
    &&& forall|v: usize|
        occurrences(cells, v) > 0 ==> exists|k: int| 0 <= k < entries.len() && (#[trigger] entries[k]).0 == v
}

proof fn lemma_occurrences_bound(s: Seq<usize>, v: usize)
    ensures
        occurrences(s, v) <= s.len(),
    decreases s.len(),
{
    if s.len() > 0 {
        lemma_occurrences_bound(s.drop_last(), v);
    }
}

proof fn lemma_sum_counts_insert(s: Seq<(usize, usize)>, k: int, e: (usize, usize))
    requires
        0 <= k <= s.len(),
    ensures
        sum_counts(s.insert(k, e)) == sum_counts(s) + e.1,
    decreases s.len(),
{
    if k == s.len() {
        assert(s.insert(k, e).drop_last() =~= s);
    } else {
        assert(s.insert(k, e).drop_last() =~= s.drop_last().insert(k, e));
        lemma_sum_counts_insert(s.drop_last(), k, e);
    }
}

proof fn lemma_sum_counts_update(s: Seq<(usize, usize)>, k: int, e: (usize, usize))
    requires
        0 <= k < s.len(),
    ensures
        sum_counts(s.update(k, e)) == sum_counts(s) - s[k].1 + e.1,
    decreases s.len(),
{
    if k == s.len() - 1 {
        assert(s.update(k, e).drop_last() =~= s.drop_last());
    } else {
        assert(s.update(k, e).drop_last() =~= s.drop_last().update(k, e));
        lemma_sum_counts_update(s.drop_last(), k, e);
    }
}

/// The counting state after the stitches `seen`: `counts` maps each yarn
/// seen to its count, `keys` lists those yarns in increasing order, and
/// `entries` is the tally they make.
spec fn counting(
    counts: Map<usize, usize>,
    keys: Seq<usize>,
    entries: Seq<(usize, usize)>,
    seen: Seq<usize>,
) -> bool {
    &&& is_tally(entries, seen)
    &&& sum_counts(entries) == seen.len()
    &&& keys.len() == entries.len()
    &&& forall|k: int|
        0 <= k < keys.len() ==> (#[trigger] entries[k]).0 == keys[k] && counts.contains_key(keys[k])
            && counts[keys[k]] == entries[k].1
    &&& forall|u: usize| counts.contains_key(u) ==> occurrences(seen, u) > 0
}

/// Counts one more stitch of yarn `v`.
fn count_stitch(
    counts: &mut HashMap<usize, usize>,
    keys: &mut Vec<usize>,
    v: usize,
    Ghost(seen): Ghost<Seq<usize>>,
    Ghost(entries): Ghost<Seq<(usize, usize)>>,
) -> (next: Ghost<Seq<(usize, usize)>>)
    requires
        counting(old(counts)@, old(keys)@, entries, seen),
        seen.len() < usize::MAX,
    ensures
        counting(final(counts)@, final(keys)@, next@, seen.push(v)),
{
    broadcast use vstd::std_specs::hash::group_hash_axioms;

    let ghost m0 = counts@;
    let ghost k0 = keys@;
    let ghost e0 = entries;
    let ghost seen1 = seen.push(v);
    assert(seen1.drop_last() =~= seen);
    assert forall|u: usize| #[trigger] occurrences(seen1, u) == occurrences(seen, u) + if u == v {
        1nat
    } else {
        0nat
    } by {}
    let mut k: usize = 0;
    while k < keys.len() && keys[k] < v
        invariant
            keys@ == k0,
            k <= k0.len(),
            forall|j: int| 0 <= j < k ==> k0[j] < v,
        decreases k0.len() - k,
    {
        k = k + 1;
    }
    match counts.get(&v) {
        Some(c) => {
            let c = *c;
            proof {
                assert(occurrences(seen, v) > 0);
                let j = choose|j: int| 0 <= j < e0.len() && (#[trigger] e0[j]).0 == v;
                if j < k {
                    assert(k0[j] < v);
                } else if j > k {
                    assert(e0[k as int].0 < e0[j].0);
                }
                assert(j == k);
                lemma_occurrences_bound(seen, v);
            }
            counts.insert(v, c + 1);
            let ghost e1 = e0.update(k as int, (v, (c + 1) as usize));
            proof {
                lemma_sum_counts_update(e0, k as int, (v, (c + 1) as usize));
                assert forall|u: usize| occurrences(seen1, u) > 0 implies exists|j: int|
                    0 <= j < e1.len() && (#[trigger] e1[j]).0 == u by {
                    if u != v {
                        let j = choose|j: int| 0 <= j < e0.len() && (#[trigger] e0[j]).0 == u;
                        assert(e1[j].0 == u);
                    } else {
                        assert(e1[k as int].0 == u);
                    }
                }
                assert forall|j: int| 0 <= j < keys@.len() implies (#[trigger] e1[j]).0 == keys@[j]
                    && counts@.contains_key(keys@[j]) && counts@[keys@[j]] == e1[j].1 by {
                    if j != k {
                        assert(e0[j].0 == k0[j]);
                        assert(e0[k as int].0 == k0[k as int]);
                        if j < k {
                            assert(e0[j].0 < e0[k as int].0);
                        } else {
                            assert(e0[k as int].0 < e0[j].0);
                        }
                        assert(k0[j] != v);
                    }
                }
            }
            Ghost(e1)
        },
        None => {
            proof {
                if occurrences(seen, v) > 0 {
                    let j = choose|j: int| 0 <= j < e0.len() && (#[trigger] e0[j]).0 == v;
                    assert(m0.contains_key(k0[j]));
                    assert(false);
                }
            }
            counts.insert(v, 1);
            keys.insert(k, v);
            let ghost e1 = e0.insert(k as int, (v, 1usize));
            proof {
                lemma_sum_counts_insert(e0, k as int, (v, 1usize));
                assert forall|j: int| k <= j < e0.len() implies v < #[trigger] e0[j].0 by {
                    assert(e0[k as int].0 <= e0[j].0);
                    assert(e0[k as int].0 != v);
                }
                assert forall|j: int| 0 <= j < k implies e0[j].0 < v by {
                    assert(k0[j] < v);
                }
                assert forall|u: usize| occurrences(seen1, u) > 0 implies exists|j: int|
                    0 <= j < e1.len() && (#[trigger] e1[j]).0 == u by {
                    if u != v {
                        let j = choose|j: int| 0 <= j < e0.len() && (#[trigger] e0[j]).0 == u;
                        if j < k {
                            assert(e1[j].0 == u);
                        } else {
                            assert(e1[j + 1].0 == u);
                        }
                    } else {
                        assert(e1[k as int].0 == u);
                    }
                }
                assert forall|j: int| 0 <= j < keys@.len() implies (#[trigger] e1[j]).0 == keys@[j]
                    && counts@.contains_key(keys@[j]) && counts@[keys@[j]] == e1[j].1 by {
                    if j < k {
                        assert(keys@[j] == k0[j]);
                        assert(k0[j] != v);
                    } else if j > k {
                        assert(keys@[j] == k0[j - 1]);
                        assert(e1[j] == e0[j - 1]);
                        assert(k0[j - 1] != v);
                    }
                }
            }
            Ghost(e1)
        },
    }
}

/// The stitch count of every yarn in a chart, by increasing yarn index, and
/// the number of stitches.
pub fn stitch_counts(chart: &Vec<Vec<usize>>) -> (res: (Vec<(usize, usize)>, usize))
    requires
        chart_stitches(chart@).len() <= usize::MAX,
    ensures
        is_tally(res.0@, chart_stitches(chart@)),
        res.1 == chart_stitches(chart@).len(),
        sum_counts(res.0@) == res.1,
{
    broadcast use vstd::std_specs::hash::group_hash_axioms;

    let mut counts: HashMap<usize, usize> = HashMap::new();
    let mut keys: Vec<usize> = Vec::new();
    let ghost mut entries: Seq<(usize, usize)> = Seq::empty();
    let mut total: usize = 0;
    let ghost rows = chart@.map_values(|r: Vec<usize>| r@);
    let mut y: usize = 0;
    while y < chart.len()
        invariant
            y <= chart@.len(),
            rows == chart@.map_values(|r: Vec<usize>| r@),
            flatten(rows).len() <= usize::MAX,
            counting(counts@, keys@, entries, flatten(rows.subrange(0, y as int))),
            total == flatten(rows.subrange(0, y as int)).len(),
        decreases chart@.len() - y,
    {
        let row = &chart[y];
        let ghost done_rows = flatten(rows.subrange(0, y as int));
        proof {
            let next = rows.subrange(0, y + 1);
            assert(next.drop_last() =~= rows.subrange(0, y as int));
            assert(next.last() == row@);
            lemma_flatten_prefix_len(rows, y + 1);
        }
        let mut x: usize = 0;
        while x < row.len()
            invariant
                x <= row@.len(),
                done_rows.len() + row@.len() <= usize::MAX,
                counting(counts@, keys@, entries, done_rows + row@.subrange(0, x as int)),
                total == done_rows.len() + x,
            decreases row@.len() - x,
        {
            let ghost seen = done_rows + row@.subrange(0, x as int);
            let Ghost(e1) = count_stitch(&mut counts, &mut keys, row[x], Ghost(seen), Ghost(entries));
            proof {
                entries = e1;
            }
            assert(seen.push(row@[x as int]) =~= done_rows + row@.subrange(0, x + 1));
            total = total + 1;
            x = x + 1;
        }
        assert(row@.subrange(0, row@.len() as int) =~= row@);
        y = y + 1;
    }
    assert(rows.subrange(0, chart@.len() as int) =~= rows);
    let mut out: Vec<(usize, usize)> = Vec::new();
    let mut k: usize = 0;
    while k < keys.len()
        invariant
            k <= keys@.len(),
            counting(counts@, keys@, entries, chart_stitches(chart@)),
            out@ == entries.subrange(0, k as int),
        decreases keys@.len() - k,
    {
        let key = keys[k];
        assert(entries[k as int].0 == keys@[k as int]);
        let c = match counts.get(&key) {
            Some(c) => *c,
            None => {
                proof {
                    assert(counts@.contains_key(keys@[k as int]));
                }
                0
            },
        };
        out.push((key, c));
        assert(out@ =~= entries.subrange(0, k + 1));
        k = k + 1;
    }
    assert(out@ =~= entries);
    (out, total)
}

proof fn lemma_flatten_prefix_len(rows: Seq<Seq<usize>>, k: int)
    requires
        0 <= k <= rows.len(),
    ensures
        flatten(rows.subrange(0, k)).len() <= flatten(rows).len(),
    decreases rows.len() - k,
{
    if k < rows.len() {
        let a = rows.subrange(0, k + 1);
        assert(a.drop_last() =~= rows.subrange(0, k));
        lemma_flatten_prefix_len(rows, k + 1);
    } else {
        assert(rows.subrange(0, k) =~= rows);
    }
}

} // verus!
