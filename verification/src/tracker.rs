//! The row tracker: rows are marked done or not, one command at a time.

use vstd::prelude::*;
use vstd::string::StringExecFns;
use crate::text::{
    decimal_spec, is_digit, law_parse_decimal, lemma_decimal_digits, parse_unsigned,
    parse_unsigned_spec, trim, trim_end, trim_start, trimmed, IntError,
};

verus! {

/// What the tracker does after a command.
#[derive(PartialEq, Eq, Structural, Debug, Clone, Copy)]
pub enum TrackerReply {
    /// `q` or `quit`: leave the tracker.
    Quit,
    /// Draw the chart again with the marks.
    Redraw,
    /// A row number outside `1..=rows`; nothing changes.
    OutOfRange(usize),
    /// Neither a command nor a row number; nothing changes.
    Unrecognised,
}

/// The marks after command `line`, and the reply.
pub open spec fn tracker_next(done: Seq<bool>, line: Seq<char>) -> (Seq<bool>, TrackerReply) {
    let t = trimmed(line);
    if t == seq!['q'] || t == seq!['q', 'u', 'i', 't'] {
        (done, TrackerReply::Quit)
    } else if t == seq!['a', 'l', 'l'] {
        (Seq::new(done.len(), |i: int| true), TrackerReply::Redraw)
    } else if t == seq!['r', 'e', 's', 'e', 't'] {
        (Seq::new(done.len(), |i: int| false), TrackerReply::Redraw)
    } else {
        match parse_unsigned_spec(t, usize::MAX as nat) {
            Ok(n) => if 1 <= n <= done.len() {
                (done.update(n - 1, !done[n - 1]), TrackerReply::Redraw)
            } else {
                (done, TrackerReply::OutOfRange(n as usize))
            },
            Err(_) => if t.len() > 0 {
                (done, TrackerReply::Unrecognised)
            } else {
                (done, TrackerReply::Redraw)
            },
        }
    }
}

fn set_all(done: &mut Vec<bool>, v: bool)
    ensures
        final(done)@ == Seq::new(old(done)@.len(), |i: int| v),
{
    let n = done.len();
    let mut i: usize = 0;
    while i < n
        invariant
            n == done@.len(),
            i <= n,
            forall|j: int| 0 <= j < i ==> done@[j] == v,
        decreases n - i,
    {
        done[i] = v;
        i = i + 1;
    }
    assert(done@ =~= Seq::new(n as nat, |i: int| v));
}

/// Applies one command typed at the tracker prompt.
pub fn tracker_step(done: &mut Vec<bool>, line: &str) -> (reply: TrackerReply)
    ensures
        (final(done)@, reply) == tracker_next(old(done)@, line@),
{
    let t = trim(line);
    proof {
        reveal_strlit("q");
        reveal_strlit("quit");
        reveal_strlit("all");
        reveal_strlit("reset");
        assert("q"@ =~= seq!['q']);
        assert("quit"@ =~= seq!['q', 'u', 'i', 't']);
        assert("all"@ =~= seq!['a', 'l', 'l']);
        assert("reset"@ =~= seq!['r', 'e', 's', 'e', 't']);
    }
    if t == String::from_str("q") || t == String::from_str("quit") {
        return TrackerReply::Quit;
    }
    if t == String::from_str("all") {
        set_all(done, true);
        return TrackerReply::Redraw;
    }
    if t == String::from_str("reset") {
        set_all(done, false);
        return TrackerReply::Redraw;
    }
    match parse_unsigned(t.as_str(), usize::MAX as u64) {
        Ok(n) => {
            let n = n as usize;
            if 1 <= n && n <= done.len() {
                let v = done[n - 1];
                done[n - 1] = !v;
                TrackerReply::Redraw
            } else {
                TrackerReply::OutOfRange(n)
            }
        },
        Err(_) => {
            if t.unicode_len() > 0 {
                TrackerReply::Unrecognised
            } else {
                TrackerReply::Redraw
            }
        },
    }
}

/// Number of rows marked done.
pub open spec fn count_done(done: Seq<bool>) -> nat
    decreases done.len(),
{
    if done.len() == 0 {
        0
    } else {
        count_done(done.drop_last()) + if done.last() {
            1nat
        } else {
            0nat
        }
    }
}

/// Number of rows marked done.
pub fn done_count(done: &Vec<bool>) -> (k: usize)
    ensures
        k == count_done(done@),
{
    let mut k: usize = 0;
    let mut i: usize = 0;
    while i < done.len()
        invariant
            i <= done@.len(),
            k == count_done(done@.subrange(0, i as int)),
            k <= i,
        decreases done@.len() - i,
    {
        assert(done@.subrange(0, i + 1).drop_last() =~= done@.subrange(0, i as int));
        if done[i] {
            k = k + 1;
        }
        i = i + 1;
    }
    assert(done@.subrange(0, done@.len() as int) =~= done@);
    k
}

/// A command other than `all` and `reset`, given twice, leaves the marks as
/// they were: a row number toggles its row and toggles it back, anything
/// else changes nothing.
pub proof fn law_command_twice_restores(done: Seq<bool>, line: Seq<char>)
    requires
        trimmed(line) != seq!['a', 'l', 'l'],
        trimmed(line) != seq!['r', 'e', 's', 'e', 't'],
    ensures
        tracker_next(tracker_next(done, line).0, line).0 == done,
{
    let once = tracker_next(done, line).0;
    assert(once.len() == done.len());
    assert(tracker_next(once, line).0 =~= done);
}

/// Every row count is at most the number of rows.
pub proof fn lemma_count_done_bound(done: Seq<bool>)
    ensures
        count_done(done) <= done.len(),
    decreases done.len(),
{
    if done.len() > 0 {
        lemma_count_done_bound(done.drop_last());
    }
}

/// After `all` every row is done; after `reset` none is.
pub proof fn law_all_and_reset(done: Seq<bool>, line: Seq<char>)
    ensures
        trimmed(line) == seq!['a', 'l', 'l'] ==> count_done(tracker_next(done, line).0)
            == done.len(),
        trimmed(line) == seq!['r', 'e', 's', 'e', 't'] ==> count_done(tracker_next(done, line).0)
            == 0,
{
    if trimmed(line) == seq!['a', 'l', 'l'] {
        lemma_count_constant(done.len(), true);
    }
    if trimmed(line) == seq!['r', 'e', 's', 'e', 't'] {
        lemma_count_constant(done.len(), false);
    }
}

proof fn lemma_count_constant(n: nat, v: bool)
    ensures
        count_done(Seq::new(n, |i: int| v)) == if v {
            n
        } else {
            0
        },
    decreases n,
{
    if n > 0 {
        assert(Seq::new(n, |i: int| v).drop_last() =~= Seq::new((n - 1) as nat, |i: int| v));
        lemma_count_constant((n - 1) as nat, v);
    }
}

} // verus!

verus! {

/// Typing the number `n` of a row (1 to the row count) marks that row done
/// or not done, the other way round than before, leaves every other row as
/// it was, and redraws.
pub proof fn law_row_number_toggles_its_row(done: Seq<bool>, n: nat)
    requires
        1 <= n <= done.len(),
        done.len() <= usize::MAX,
    ensures
        tracker_next(done, decimal_spec(n)).1 == TrackerReply::Redraw,
        tracker_next(done, decimal_spec(n)).0.len() == done.len(),
        forall|i: int|
            0 <= i < done.len() ==> #[trigger] tracker_next(done, decimal_spec(n)).0[i] == if i
                == n - 1 {
                !done[i]
            } else {
                done[i]
            },
{
    law_parse_decimal(n, usize::MAX as nat);
    lemma_decimal_digits(n);
    let t = decimal_spec(n);
    assert(is_digit(t[0]));
    assert(t != seq!['q']);
    assert(t != seq!['q', 'u', 'i', 't']);
    assert(t != seq!['a', 'l', 'l']);
    assert(t != seq!['r', 'e', 's', 'e', 't']);
}

} // verus!

verus! {

/// `q` and `quit` leave the tracker and keep every mark.
pub proof fn law_quit_keeps_marks(done: Seq<bool>)
    ensures
        tracker_next(done, seq!['q']) == (done, TrackerReply::Quit),
        tracker_next(done, seq!['q', 'u', 'i', 't']) == (done, TrackerReply::Quit),
{
    let q = seq!['q'];
    let quit = seq!['q', 'u', 'i', 't'];
    assert(trim_start(q) == q);
    assert(trim_end(q) == q);
    assert(trim_start(quit) == quit);
    assert(trim_end(quit) == quit);
}

/// A number that names no row (0, or above the row count) is answered as
/// out of range, with that number, and changes no mark.
pub proof fn law_row_out_of_range(done: Seq<bool>, n: nat)
    requires
        n == 0 || n > done.len(),
        n <= usize::MAX,
    ensures
        tracker_next(done, decimal_spec(n)) == (done, TrackerReply::OutOfRange(n as usize)),
{
    law_parse_decimal(n, usize::MAX as nat);
    lemma_decimal_digits(n);
    let t = decimal_spec(n);
    assert(is_digit(t[0]));
    assert(t != seq!['q']);
    assert(t != seq!['q', 'u', 'i', 't']);
    assert(t != seq!['a', 'l', 'l']);
    assert(t != seq!['r', 'e', 's', 'e', 't']);
}

} // verus!
