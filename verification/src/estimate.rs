//! Yarn estimates: the stitch count given as `N` or `WxH`, and the yarn
//! each stitch and each weight takes.

use vstd::prelude::*;
use crate::text::{parse_unsigned, parse_unsigned_spec, trim, trimmed, IntError};

verus! {

/// Crochet stitches.
#[derive(Clone, Copy, PartialEq, Eq, Structural, Debug)]
pub enum StitchType {
    /// Single crochet.
    Sc,
    /// Half double crochet.
    Hdc,
    /// Double crochet.
    Dc,
    /// Slip stitch.
    Slst,
}

/// Yarn weights.
#[derive(Clone, Copy, PartialEq, Eq, Structural, Debug)]
pub enum YarnWeight {
    Lace,
    Fingering,
    Sport,
    Dk,
    Worsted,
    Bulky,
    SuperBulky,
}

/// Yarn one stitch takes, in tenths of a centimetre.
pub open spec fn stitch_yarn_mm(s: StitchType) -> u32 {
    match s {
        StitchType::Sc => 18,
        StitchType::Hdc => 22,
        StitchType::Dc => 28,
        StitchType::Slst => 12,
    }
}

/// Metres of yarn in 100 g.
pub open spec fn weight_metres(w: YarnWeight) -> u32 {
    match w {
        YarnWeight::Lace => 800,
        YarnWeight::Fingering => 380,
        YarnWeight::Sport => 275,
        YarnWeight::Dk => 220,
        YarnWeight::Worsted => 180,
        YarnWeight::Bulky => 110,
        YarnWeight::SuperBulky => 60,
    }
}

impl StitchType {
    /// Yarn one stitch takes, in tenths of a centimetre (1.8 cm for single
    /// crochet, 2.2 half double, 2.8 double, 1.2 slip stitch).
    pub fn yarn_mm(&self) -> (t: u32)
        ensures
            t == stitch_yarn_mm(*self),
    {
        match self {
            StitchType::Sc => 18,
            StitchType::Hdc => 22,
            StitchType::Dc => 28,
            StitchType::Slst => 12,
        }
    }
}

impl YarnWeight {
    /// Metres of yarn in 100 g of this weight.
    pub fn metres_per_100g(&self) -> (m: u32)
        ensures
            m == weight_metres(*self),
    {
        match self {
            YarnWeight::Lace => 800,
            YarnWeight::Fingering => 380,
            YarnWeight::Sport => 275,
            YarnWeight::Dk => 220,
            YarnWeight::Worsted => 180,
            YarnWeight::Bulky => 110,
            YarnWeight::SuperBulky => 60,
        }
    }
}

/// Why a stitch count was refused.
#[derive(PartialEq, Eq, Structural, Debug, Clone, Copy)]
pub enum StitchCountError {
    /// More than one `x` (or `×`): the count is not `WxH`.
    NotWxH,
    /// A number was refused.
    Number(IntError),
}

/// The characters that separate width and height.
pub open spec fn is_times(c: char) -> bool {
    c == 'x' || c == '×'
}

/// Number of separators in `s`.
pub open spec fn times_count(s: Seq<char>) -> nat
    decreases s.len(),
{
    if s.len() == 0 {
        0
    } else {
        times_count(s.drop_last()) + if is_times(s.last()) {
            1nat
        } else {
            0nat
        }
    }
}

/// Index of the first separator in `s` (meaningful when there is one).
pub open spec fn first_times(s: Seq<char>) -> int {
    choose|i: int| 0 <= i < s.len() && is_times(s[i]) && forall|j: int| 0 <= j < i ==> !is_times(s[j])
}

/// A number as a `u64` reads it.
pub open spec fn parse_u64_spec(s: Seq<char>) -> Result<nat, StitchCountError> {
    match parse_unsigned_spec(s, u64::MAX as nat) {
        Ok(v) => Ok(v),
        Err(e) => Err(StitchCountError::Number(e)),
    }
}

/// The stitch count that `s` gives: `N`, or `W x H` (white space around
/// either number allowed) for `W·H`, taken modulo 2^64.
pub open spec fn stitch_count_spec(s: Seq<char>) -> Result<nat, StitchCountError> {
    if times_count(s) == 0 {
        parse_u64_spec(s)
    } else if times_count(s) != 1 {
        Err(StitchCountError::NotWxH)
    } else {
        let i = first_times(s);
        match parse_u64_spec(trimmed(s.subrange(0, i))) {
            Err(e) => Err(e),
            Ok(w) => match parse_u64_spec(trimmed(s.subrange(i + 1, s.len() as int))) {
                Err(e) => Err(e),
                Ok(h) => Ok((w * h) % 0x1_0000_0000_0000_0000),
            },
        }
    }
}

fn parse_u64(s: &str) -> (res: Result<u64, StitchCountError>)
    ensures
        match res {
            Ok(v) => parse_u64_spec(s@) == Ok::<nat, StitchCountError>(v as nat),
            Err(e) => parse_u64_spec(s@) == Err::<nat, StitchCountError>(e),
        },
{
    match parse_unsigned(s, u64::MAX) {
        Ok(v) => Ok(v),
        Err(e) => Err(StitchCountError::Number(e)),
    }
}

proof fn lemma_times_count_prefix(s: Seq<char>, k: int)
    requires
        0 <= k <= s.len(),
        forall|j: int| 0 <= j < k ==> !is_times(#[trigger] s[j]),
    ensures
        times_count(s.subrange(0, k)) == 0,
    decreases k,
{
    if k > 0 {
        assert(s.subrange(0, k).drop_last() =~= s.subrange(0, k - 1));
        lemma_times_count_prefix(s, k - 1);
    }
}

proof fn lemma_times_count_split(s: Seq<char>, k: int)
    requires
        0 <= k <= s.len(),
    ensures
        times_count(s) == times_count(s.subrange(0, k)) + times_count(s.subrange(k, s.len() as int)),
    decreases s.len() - k,
{
    if k < s.len() {
        lemma_times_count_split(s.drop_last(), if k <= s.len() - 1 { k } else { s.len() - 1 });
        assert(s.drop_last().subrange(0, k) =~= s.subrange(0, k));
        assert(s.subrange(k, s.len() as int).drop_last() =~= s.drop_last().subrange(
            k,
            s.len() - 1,
        ));
    } else {
        assert(s.subrange(0, k) =~= s);
        assert(s.subrange(k, s.len() as int).len() == 0);
    }
}

proof fn lemma_times_count_zero(s: Seq<char>)
    requires
        times_count(s) == 0,
    ensures
        forall|j: int| 0 <= j < s.len() ==> !is_times(#[trigger] s[j]),
    decreases s.len(),
{
    if s.len() > 0 {
        lemma_times_count_zero(s.drop_last());
        assert forall|j: int| 0 <= j < s.len() implies !is_times(#[trigger] s[j]) by {
            if j < s.len() - 1 {
                assert(s[j] == s.drop_last()[j]);
            }
        }
    }
}

/// The parts of `w`, a separator and `h`, where neither part holds one.
proof fn lemma_wxh_parts(w: Seq<char>, x: char, h: Seq<char>)
    requires
        times_count(w) == 0,
        times_count(h) == 0,
        is_times(x),
    ensures
        ({
            let s = w + seq![x] + h;
            &&& times_count(s) == 1
            &&& first_times(s) == w.len()
            &&& s.subrange(0, w.len() as int) == w
            &&& s.subrange(w.len() as int + 1, s.len() as int) == h
        }),
{
    let s = w + seq![x] + h;
    let k = w.len() as int;
    lemma_times_count_split(s, k);
    assert(s.subrange(0, k) =~= w);
    let rest = s.subrange(k, s.len() as int);
    lemma_times_count_split(rest, 1);
    assert(rest.subrange(0, 1) =~= seq![x]);
    assert(seq![x].drop_last() =~= Seq::<char>::empty());
    assert(times_count(Seq::<char>::empty()) == 0);
    assert(times_count(seq![x]) == 1);
    assert(rest.subrange(1, rest.len() as int) =~= h);
    assert(s.subrange(k + 1, s.len() as int) =~= h);
    lemma_times_count_zero(w);
    assert(first_times(s) == k) by {
        assert(s[k] == x);
        assert forall|j: int| 0 <= j < k implies !is_times(s[j]) by {
            assert(s[j] == w[j]);
        }
        let f = first_times(s);
        if f < k {
            assert(s[f] == w[f]);
        }
    }
}

/// The count a `W x H` spelling gives: each side is read trimmed, the first
/// refused side gives its error, else the total is `W·H` (modulo 2^64). The
/// separator (`x` or `×`) does not matter.
pub open spec fn wxh_count(w: Seq<char>, h: Seq<char>) -> Result<nat, StitchCountError> {
    match parse_u64_spec(trimmed(w)) {
        Err(e) => Err(e),
        Ok(a) => match parse_u64_spec(trimmed(h)) {
            Err(e) => Err(e),
            Ok(b) => Ok((a * b) % 0x1_0000_0000_0000_0000),
        },
    }
}

/// A count spelled `W x H` or `W × H`, with any white space around either
/// side, is the product of the two sides; both separators give the same
/// count.
pub proof fn law_stitch_count_wxh(w: Seq<char>, h: Seq<char>, x: char, y: char)
    requires
        times_count(w) == 0,
        times_count(h) == 0,
        is_times(x),
        is_times(y),
    ensures
        stitch_count_spec(w + seq![x] + h) == wxh_count(w, h),
        stitch_count_spec(w + seq![x] + h) == stitch_count_spec(w + seq![y] + h),
{
    lemma_wxh_parts(w, x, h);
    lemma_wxh_parts(w, y, h);
}

/// A count spelled as one number is that number, read untrimmed.
pub proof fn law_stitch_count_plain(n: Seq<char>)
    requires
        times_count(n) == 0,
    ensures
        stitch_count_spec(n) == parse_u64_spec(n),
{
}

/// Width and height can be given either way round: when both sides are
/// numbers, `W x H` and `H x W` give the same count.
pub proof fn law_stitch_count_symmetric(w: Seq<char>, h: Seq<char>, x: char, y: char)
    requires
        times_count(w) == 0,
        times_count(h) == 0,
        is_times(x),
        is_times(y),
        parse_u64_spec(trimmed(w)) is Ok,
        parse_u64_spec(trimmed(h)) is Ok,
    ensures
        stitch_count_spec(w + seq![x] + h) == stitch_count_spec(h + seq![y] + w),
        stitch_count_spec(w + seq![x] + h) is Ok,
{
    lemma_wxh_parts(w, x, h);
    lemma_wxh_parts(h, y, w);
    let a = parse_u64_spec(trimmed(w))->Ok_0;
    let b = parse_u64_spec(trimmed(h))->Ok_0;
    assert(a * b == b * a) by (nonlinear_arith);
}

/// Reads a stitch count: `N`, or `W x H` for `W·H` (wrapping at 2^64).
pub fn parse_stitches(s: &str) -> (res: Result<u64, StitchCountError>)
    ensures
        match res {
            Ok(v) => stitch_count_spec(s@) == Ok::<nat, StitchCountError>(v as nat),
            Err(e) => stitch_count_spec(s@) == Err::<nat, StitchCountError>(e),
        },
{
    let n = s.unicode_len();
    let mut i: usize = 0;
    while i < n && !(s.get_char(i) == 'x' || s.get_char(i) == '×')
        invariant
            n == s@.len(),
            i <= n,
            forall|j: int| 0 <= j < i ==> !is_times(#[trigger] s@[j]),
        decreases n - i,
    {
        i = i + 1;
    }
    proof {
        lemma_times_count_prefix(s@, i as int);
        lemma_times_count_split(s@, i as int);
    }
    if i == n {
        assert(s@.subrange(0, n as int) =~= s@);
        return parse_u64(s);
    }
    let mut j: usize = i + 1;
    while j < n && !(s.get_char(j) == 'x' || s.get_char(j) == '×')
        invariant
            n == s@.len(),
            i < j <= n,
            forall|k: int| i < k < j ==> !is_times(#[trigger] s@[k]),
        decreases n - j,
    {
        j = j + 1;
    }
    proof {
        let rest = s@.subrange(i as int, n as int);
        assert(is_times(s@[i as int]));
        lemma_times_count_split(rest, 1);
        assert(rest.subrange(0, 1).drop_last() =~= Seq::<char>::empty());
        assert(times_count(Seq::<char>::empty()) == 0);
        assert(rest.subrange(0, 1).last() == s@[i as int]);
        assert(times_count(rest.subrange(0, 1)) == 1);
        let tail = rest.subrange(1, rest.len() as int);
        assert(tail =~= s@.subrange(i + 1, n as int));
        assert forall|k: int| 0 <= k < j - i - 1 implies !is_times(#[trigger] tail[k]) by {
            assert(tail[k] == s@[k + i + 1]);
        }
        lemma_times_count_prefix(tail, j - i - 1);
        lemma_times_count_split(tail, j - i - 1);
        if j < n {
            let after = tail.subrange(j - i - 1, tail.len() as int);
            assert(after[0] == s@[j as int]);
            lemma_times_count_split(after, 1);
            assert(after.subrange(0, 1).drop_last() =~= Seq::<char>::empty());
            assert(times_count(Seq::<char>::empty()) == 0);
            assert(after.subrange(0, 1).last() == s@[j as int]);
            assert(times_count(after.subrange(0, 1)) == 1);
        } else {
            assert(tail.subrange(j - i - 1, tail.len() as int).len() == 0);
        }
        assert(first_times(s@) == i) by {
            let f = first_times(s@);
            assert(0 <= i < s@.len() && is_times(s@[i as int]) && forall|k: int|
                0 <= k < i ==> !is_times(s@[k]));
            if f < i {
                assert(!is_times(s@[f]));
            } else if f > i {
                assert(!is_times(s@[i as int]));
            }
        }
    }
    if j < n {
        return Err(StitchCountError::NotWxH);
    }
    let head = trim(s.substring_char(0, i));
    let tail = trim(s.substring_char(i + 1, n));
    let w = match parse_u64(head.as_str()) {
        Ok(v) => v,
        Err(e) => return Err(e),
    };
    let h = match parse_u64(tail.as_str()) {
        Ok(v) => v,
        Err(e) => return Err(e),
    };
    Ok(w.wrapping_mul(h))
}

} // verus!
