//! Text pieces of a chart: decimal numbers, padding, and terminal colouring.

use vstd::prelude::*;
use vstd::string::StringExecFns;
use colored::Colorize;

verus! {

/// `n` spaces.
pub open spec fn spaces(n: nat) -> Seq<char> {
    Seq::new(n, |i: int| ' ')
}

/// Right-aligned in a field of `w` characters (`{:>w$}`).
pub open spec fn pad_left(s: Seq<char>, w: nat) -> Seq<char> {
    if s.len() < w {
        spaces((w - s.len()) as nat) + s
    } else {
        s
    }
}

/// Left-aligned in a field of `w` characters (`{:w$}`, `{:<w$}`).
pub open spec fn pad_right(s: Seq<char>, w: nat) -> Seq<char> {
    if s.len() < w {
        s + spaces((w - s.len()) as nat)
    } else {
        s
    }
}

/// The decimal digit for a value below 10.
pub open spec fn digit_char(d: nat) -> char {
    (d + 0x30) as char
}

/// The decimal spelling of a number.
pub open spec fn decimal_spec(n: nat) -> Seq<char>
    decreases n,
{
    if n < 10 {
        seq![digit_char(n)]
    } else {
        decimal_spec(n / 10).push(digit_char(n % 10))
    }
}

fn digit_str(d: usize) -> (s: &'static str)
    requires
        d < 10,
    ensures
        s@ == seq![digit_char(d as nat)],
{
    proof {
        reveal_strlit("0");
        reveal_strlit("1");
        reveal_strlit("2");
        reveal_strlit("3");
        reveal_strlit("4");
        reveal_strlit("5");
        reveal_strlit("6");
        reveal_strlit("7");
        reveal_strlit("8");
        reveal_strlit("9");
    }
    match d {
        0 => "0",
        1 => "1",
        2 => "2",
        3 => "3",
        4 => "4",
        5 => "5",
        6 => "6",
        7 => "7",
        8 => "8",
        _ => "9",
    }
}

/// The decimal spelling of `n` (`n.to_string()`).
pub fn decimal(n: usize) -> (s: String)
    ensures
        s@ == decimal_spec(n as nat),
    decreases n,
{
    if n < 10 {
        String::from_str(digit_str(n))
    } else {
        let mut s = decimal(n / 10);
        s.append(digit_str(n % 10));
        s
    }
}

/// Appends `n` spaces.
pub fn push_spaces(s: &mut String, n: usize)
    ensures
        final(s)@ == old(s)@ + spaces(n as nat),
{
    let ghost s0 = s@;
    let mut i: usize = 0;
    proof {
        reveal_strlit(" ");
    }
    while i < n
        invariant
            i <= n,
            s@ == s0 + spaces(i as nat),
        decreases n - i,
    {
        proof {
            reveal_strlit(" ");
        }
        s.append(" ");
        i = i + 1;
        assert(s@ =~= s0 + spaces(i as nat));
    }
    assert(s@ =~= s0 + spaces(n as nat));
}

/// Appends `t` right-aligned in a field of `w` characters.
pub fn push_padded_left(s: &mut String, t: &str, w: usize)
    ensures
        final(s)@ == old(s)@ + pad_left(t@, w as nat),
{
    let n = t.unicode_len();
    if n < w {
        push_spaces(s, w - n);
    }
    s.append(t);
    assert(s@ =~= old(s)@ + pad_left(t@, w as nat));
}

/// Appends `t` left-aligned in a field of `w` characters.
pub fn push_padded_right(s: &mut String, t: &str, w: usize)
    ensures
        final(s)@ == old(s)@ + pad_right(t@, w as nat),
{
    let n = t.unicode_len();
    s.append(t);
    if n < w {
        push_spaces(s, w - n);
    }
    assert(s@ =~= old(s)@ + pad_right(t@, w as nat));
}

/// The escape sequence that ends a colouring: ESC `[0m`.
pub open spec fn reset_seq() -> Seq<char> {
    seq!['\x1b', '[', '0', 'm']
}

/// The escape sequence ESC `[` code `m` that starts a colouring.
pub open spec fn start_seq(code: Seq<char>) -> Seq<char> {
    seq!['\x1b', '['] + code + seq!['m']
}

/// `t` holds the reset sequence somewhere.
pub open spec fn has_reset(t: Seq<char>) -> bool {
    exists|i: int| 0 <= i && i + 4 <= t.len() && #[trigger] t.subrange(i, i + 4) == reset_seq()
}

/// `t` holds no escape character.
pub open spec fn no_escape(t: Seq<char>) -> bool {
    forall|i: int| 0 <= i < t.len() ==> #[trigger] t[i] != '\x1b'
}

pub proof fn lemma_no_escape_no_reset(t: Seq<char>)
    requires
        no_escape(t),
    ensures
        !has_reset(t),
{
    assert forall|i: int| 0 <= i && i + 4 <= t.len() implies #[trigger] t.subrange(i, i + 4)
        != reset_seq() by {
        assert(t.subrange(i, i + 4)[0] == t[i]);
    }
}

/// The text with a colouring `code` around it, or the bare text (when the
/// terminal gets no colours).
pub open spec fn styled(s: Seq<char>, t: Seq<char>, code: Seq<char>) -> bool {
    s == t || s == start_seq(code) + t + reset_seq()
}

/// The codes of the sixteen basic foreground colours.
pub open spec fn is_basic_fg_code(code: nat) -> bool {
    30 <= code <= 37 || 90 <= code <= 97
}

/// The 24-bit foreground code `38;2;r;g;b`.
pub open spec fn truecolor_code(r: u8, g: u8, b: u8) -> Seq<char> {
    seq!['3', '8', ';', '2', ';'] + decimal_spec(r as nat) + seq![';'] + decimal_spec(g as nat)
        + seq![';'] + decimal_spec(b as nat)
}

/// `s` is `t` in colour `(r, g, b)`: 24-bit when the terminal declares it,
/// else the nearest of the sixteen basic colours, else uncoloured.
pub open spec fn truecolored(s: Seq<char>, t: Seq<char>, r: u8, g: u8, b: u8) -> bool {
    ||| styled(s, t, truecolor_code(r, g, b))
    ||| exists|code: nat| is_basic_fg_code(code) && #[trigger] styled(s, t, decimal_spec(code))
}

/// `s` is `t` dimmed (style code 2) or bare.
pub open spec fn dimmed(s: Seq<char>, t: Seq<char>) -> bool {
    styled(s, t, seq!['2'])
}

/// `s` is `t` bold and green (codes 1 and 32) or bare.
pub open spec fn bold_green(s: Seq<char>, t: Seq<char>) -> bool {
    styled(s, t, seq!['1', ';', '3', '2'])
}

/// `colored`: `t.truecolor(r, g, b)`, displayed. Whether colours are written
/// and whether 24-bit colour is used depend on the environment (`NO_COLOR`,
/// `CLICOLOR`, `CLICOLOR_FORCE`, `COLORTERM`) and on stdout being a
/// terminal; the contract states what holds in every case.
#[verifier::external_body]
pub(crate) fn paint_truecolor(t: &str, r: u8, g: u8, b: u8) -> (s: String)
    requires
        !has_reset(t@),
    ensures
        truecolored(s@, t@, r, g, b),
{
    t.truecolor(r, g, b).to_string()
}

/// `colored`: `t.dimmed()`, displayed; whether it is coloured depends on the
/// environment.
#[verifier::external_body]
pub(crate) fn paint_dimmed(t: &str) -> (s: String)
    requires
        !has_reset(t@),
    ensures
        dimmed(s@, t@),
{
    t.dimmed().to_string()
}

/// `colored`: `t.green().bold()`, displayed; whether it is coloured depends
/// on the environment.
#[verifier::external_body]
pub(crate) fn paint_bold_green(t: &str) -> (s: String)
    requires
        !has_reset(t@),
    ensures
        bold_green(s@, t@),
{
    t.green().bold().to_string()
}

} // verus!

verus! {

/// Unicode white space (the `White_Space` property), as `char::is_whitespace`.
pub open spec fn is_whitespace(c: char) -> bool {
    ||| c == '\t' || c == '\n' || c == '\u{0b}' || c == '\u{0c}' || c == '\r' || c == ' '
    ||| c == '\u{85}' || c == '\u{a0}' || c == '\u{1680}'
    ||| '\u{2000}' <= c <= '\u{200a}'
    ||| c == '\u{2028}' || c == '\u{2029}' || c == '\u{202f}' || c == '\u{205f}' || c == '\u{3000}'
}

/// `s` without its leading white space.
pub open spec fn trim_start(s: Seq<char>) -> Seq<char>
    decreases s.len(),
{
    if s.len() > 0 && is_whitespace(s[0]) {
        trim_start(s.drop_first())
    } else {
        s
    }
}

/// `s` without its trailing white space.
pub open spec fn trim_end(s: Seq<char>) -> Seq<char>
    decreases s.len(),
{
    if s.len() > 0 && is_whitespace(s.last()) {
        trim_end(s.drop_last())
    } else {
        s
    }
}

/// `s` without white space at either end (`str::trim`).
pub open spec fn trimmed(s: Seq<char>) -> Seq<char> {
    trim_end(trim_start(s))
}

fn is_whitespace_char(c: char) -> (b: bool)
    ensures
        b == is_whitespace(c),
{
    c == '\t' || c == '\n' || c == '\u{0b}' || c == '\u{0c}' || c == '\r' || c == ' ' || c
        == '\u{85}' || c == '\u{a0}' || c == '\u{1680}' || ('\u{2000}' <= c && c <= '\u{200a}')
        || c == '\u{2028}' || c == '\u{2029}' || c == '\u{202f}' || c == '\u{205f}' || c
        == '\u{3000}'
}

proof fn lemma_trim_start_skip(s: Seq<char>, k: int)
    requires
        0 <= k <= s.len(),
        forall|i: int| 0 <= i < k ==> is_whitespace(#[trigger] s[i]),
    ensures
        trim_start(s) == trim_start(s.subrange(k, s.len() as int)),
    decreases k,
{
    if k > 0 {
        assert(s.drop_first() =~= s.subrange(1, s.len() as int));
        lemma_trim_start_skip(s.drop_first(), k - 1);
        assert(s.drop_first().subrange(k - 1, s.drop_first().len() as int) =~= s.subrange(
            k,
            s.len() as int,
        ));
    } else {
        assert(s.subrange(0, s.len() as int) =~= s);
    }
}

proof fn lemma_trim_end_skip(s: Seq<char>, k: int)
    requires
        0 <= k <= s.len(),
        forall|i: int| k <= i < s.len() ==> is_whitespace(#[trigger] s[i]),
    ensures
        trim_end(s) == trim_end(s.subrange(0, k)),
    decreases s.len() - k,
{
    if k < s.len() {
        assert(s.drop_last() =~= s.subrange(0, s.len() - 1));
        lemma_trim_end_skip(s.drop_last(), k);
        assert(s.drop_last().subrange(0, k) =~= s.subrange(0, k));
    } else {
        assert(s.subrange(0, k) =~= s);
    }
}

/// `s` without white space at either end.
pub fn trim(s: &str) -> (t: String)
    ensures
        t@ == trimmed(s@),
{
    let n = s.unicode_len();
    let mut i: usize = 0;
    while i < n && is_whitespace_char(s.get_char(i))
        invariant
            n == s@.len(),
            i <= n,
            forall|k: int| 0 <= k < i ==> is_whitespace(#[trigger] s@[k]),
        decreases n - i,
    {
        i = i + 1;
    }
    let mut j: usize = n;
    while j > i && is_whitespace_char(s.get_char(j - 1))
        invariant
            n == s@.len(),
            i <= j <= n,
            forall|k: int| j <= k < n ==> is_whitespace(#[trigger] s@[k]),
        decreases j - i,
    {
        j = j - 1;
    }
    let t = String::from_str(s.substring_char(i, j));
    proof {
        lemma_trim_start_skip(s@, i as int);
        let rest = s@.subrange(i as int, n as int);
        if i < n {
            assert(rest[0] == s@[i as int]);
        }
        assert(trim_start(rest) == rest);
        assert forall|k: int| j - i <= k < rest.len() implies is_whitespace(#[trigger] rest[k]) by {
            assert(rest[k] == s@[k + i]);
        }
        lemma_trim_end_skip(rest, j - i);
        assert(rest.subrange(0, j - i) =~= s@.subrange(i as int, j as int));
        let mid = s@.subrange(i as int, j as int);
        if j > i {
            assert(mid.last() == s@[j - 1]);
        }
        assert(trim_end(mid) == mid);
    }
    t
}

/// Why a number was refused (`ParseIntError`'s kinds for an unsigned type).
#[derive(PartialEq, Eq, Structural, Debug, Clone, Copy)]
pub enum IntError {
    /// The text is empty.
    Empty,
    /// A character is not a decimal digit (or the text is a lone sign).
    InvalidDigit,
    /// The number is above the type's maximum.
    Overflow,
}

/// An ASCII decimal digit.
pub open spec fn is_digit(c: char) -> bool {
    '0' <= c <= '9'
}

/// Reading the digits of `d` from the left: the value, or the first
/// problem met (a character that is no digit, or a value above `max`).
pub open spec fn scan_digits(d: Seq<char>, max: nat) -> Result<nat, IntError>
    decreases d.len(),
{
    if d.len() == 0 {
        Ok(0)
    } else {
        match scan_digits(d.drop_last(), max) {
            Err(e) => Err(e),
            Ok(v) => if !is_digit(d.last()) {
                Err(IntError::InvalidDigit)
            } else if v * 10 + (d.last() as nat - 0x30) > max {
                Err(IntError::Overflow)
            } else {
                Ok((v * 10 + (d.last() as nat - 0x30)) as nat)
            },
        }
    }
}

/// `str::parse` for an unsigned type whose maximum is `max`: an optional
/// `+`, then decimal digits.
pub open spec fn parse_unsigned_spec(s: Seq<char>, max: nat) -> Result<nat, IntError> {
    if s.len() == 0 {
        Err(IntError::Empty)
    } else if s.len() == 1 && (s[0] == '+' || s[0] == '-') {
        Err(IntError::InvalidDigit)
    } else if s[0] == '+' {
        scan_digits(s.drop_first(), max)
    } else {
        scan_digits(s, max)
    }
}

/// Reads an unsigned decimal number no larger than `max`.
pub fn parse_unsigned(s: &str, max: u64) -> (res: Result<u64, IntError>)
    ensures
        match res {
            Ok(v) => parse_unsigned_spec(s@, max as nat) == Ok::<nat, IntError>(v as nat),
            Err(e) => parse_unsigned_spec(s@, max as nat) == Err::<nat, IntError>(e),
        },
{
    let n = s.unicode_len();
    if n == 0 {
        return Err(IntError::Empty);
    }
    let c0 = s.get_char(0);
    if n == 1 && (c0 == '+' || c0 == '-') {
        return Err(IntError::InvalidDigit);
    }
    let start: usize = if c0 == '+' {
        1
    } else {
        0
    };
    let ghost d = s@.subrange(start as int, n as int);
    proof {
        if start == 1 {
            assert(d =~= s@.drop_first());
        } else {
            assert(d =~= s@);
        }
        assert(parse_unsigned_spec(s@, max as nat) == scan_digits(d, max as nat));
    }
    let mut v: u64 = 0;
    let mut i: usize = start;
    while i < n
        invariant
            n == s@.len(),
            start <= i <= n,
            d == s@.subrange(start as int, n as int),
            parse_unsigned_spec(s@, max as nat) == scan_digits(d, max as nat),
            scan_digits(d.subrange(0, i - start), max as nat) == Ok::<nat, IntError>(v as nat),
        decreases n - i,
    {
        let c = s.get_char(i);
        let ghost pre = d.subrange(0, i - start);
        let ghost next = d.subrange(0, i + 1 - start);
        assert(next.drop_last() =~= pre);
        assert(next.last() == c);
        if !('0' <= c && c <= '9') {
            proof {
                lemma_scan_prefix_err(d, (i + 1 - start) as int, max as nat, IntError::InvalidDigit);
            }
            return Err(IntError::InvalidDigit);
        }
        let digit = (c as u32 - 0x30) as u64;
        let nv: u128 = (v as u128) * 10 + (digit as u128);
        assert(scan_digits(next, max as nat) == if nv > max {
            Err::<nat, IntError>(IntError::Overflow)
        } else {
            Ok::<nat, IntError>(nv as nat)
        });
        if nv > max as u128 {
            proof {
                lemma_scan_prefix_err(d, (i + 1 - start) as int, max as nat, IntError::Overflow);
            }
            return Err(IntError::Overflow);
        }
        v = nv as u64;
        i = i + 1;
    }
    assert(d.subrange(0, n - start) =~= d);
    Ok(v)
}

/// Once reading a prefix of the digits fails, reading all of them fails
/// the same way.
proof fn lemma_scan_prefix_err(d: Seq<char>, k: int, max: nat, e: IntError)
    requires
        0 <= k <= d.len(),
        scan_digits(d.subrange(0, k), max) == Err::<nat, IntError>(e),
    ensures
        scan_digits(d, max) == Err::<nat, IntError>(e),
    decreases d.len() - k,
{
    if k < d.len() {
        let next = d.subrange(0, k + 1);
        assert(next.drop_last() =~= d.subrange(0, k));
        lemma_scan_prefix_err(d, k + 1, max, e);
    } else {
        assert(d.subrange(0, k) =~= d);
    }
}

} // verus!

verus! {

/// Every character of a decimal spelling is a digit.
pub proof fn lemma_decimal_digits(n: nat)
    ensures
        decimal_spec(n).len() >= 1,
        forall|i: int| 0 <= i < decimal_spec(n).len() ==> is_digit(#[trigger] decimal_spec(n)[i]),
    decreases n,
{
    if n >= 10 {
        lemma_decimal_digits(n / 10);
        let d = decimal_spec(n / 10);
        assert forall|i: int| 0 <= i < decimal_spec(n).len() implies is_digit(
            #[trigger] decimal_spec(n)[i],
        ) by {
            if i < d.len() {
                assert(decimal_spec(n)[i] == d[i]);
            }
        }
    }
}

/// Reading a decimal spelling gives its number back.
pub proof fn lemma_scan_decimal(n: nat, max: nat)
    requires
        n <= max,
    ensures
        scan_digits(decimal_spec(n), max) == Ok::<nat, IntError>(n),
    decreases n,
{
    let d = decimal_spec(n);
    if n < 10 {
        assert(d.drop_last() =~= Seq::<char>::empty());
        assert(scan_digits(Seq::<char>::empty(), max) == Ok::<nat, IntError>(0));
    } else {
        lemma_scan_decimal(n / 10, max);
        assert(d.drop_last() =~= decimal_spec(n / 10));
        assert(n / 10 * 10 + n % 10 == n);
    }
}

/// `str::parse` reads a number written in decimal as that number, and
/// trimming leaves the spelling as it is.
pub proof fn law_parse_decimal(n: nat, max: nat)
    requires
        n <= max,
    ensures
        parse_unsigned_spec(decimal_spec(n), max) == Ok::<nat, IntError>(n),
        trimmed(decimal_spec(n)) == decimal_spec(n),
{
    lemma_decimal_digits(n);
    lemma_scan_decimal(n, max);
    let d = decimal_spec(n);
    assert(is_digit(d[0]));
    assert(is_digit(d[d.len() - 1]));
    assert(trim_start(d) == d);
    assert(trim_end(d) == d);
}

} // verus!
