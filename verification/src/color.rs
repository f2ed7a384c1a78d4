//! Yarn colours: parsing `#RRGGBB` codes.

use vstd::prelude::*;
use vstd::string::StringSliceAdditionalSpecFns;
use vstd::string::StringExecFns;
use vstd::utf8::*;

verus! {

/// ASCII code of `#`.
pub const HASH: u8 = 0x23;

/// ASCII code of `+`.
pub const PLUS: u8 = 0x2b;

/// A yarn colour: its channels and its canonical code (`#` and six
/// upper-case characters).
#[derive(Clone, Debug)]
pub struct Yarn {
    pub r: u8,
    pub g: u8,
    pub b: u8,
    pub hex: String,
}

/// Why a colour code was refused.
#[derive(PartialEq, Eq, Structural, Debug, Clone, Copy)]
pub enum HexError {
    /// After the leading `#` characters the code is not six bytes long.
    WrongLength,
    /// A two-byte channel is not a hexadecimal number.
    InvalidDigit,
}

/// Value of an ASCII hexadecimal digit (either case).
pub open spec fn hex_digit_value(c: u8) -> Option<u8> {
    if 0x30 <= c <= 0x39 {
        Some((c - 0x30) as u8)
    } else if 0x61 <= c <= 0x66 {
        Some((c - 0x61 + 10) as u8)
    } else if 0x41 <= c <= 0x46 {
        Some((c - 0x41 + 10) as u8)
    } else {
        None
    }
}

/// A two-byte channel read as a base-16 number: two digits, or `+` and one
/// digit (an explicit sign is allowed before an unsigned number).
pub open spec fn channel_value(c0: u8, c1: u8) -> Option<u8> {
    if c0 == PLUS {
        hex_digit_value(c1)
    } else {
        match (hex_digit_value(c0), hex_digit_value(c1)) {
            (Some(hi), Some(lo)) => Some((hi * 16 + lo) as u8),
            _ => None,
        }
    }
}

/// The bytes left after removing every leading `#`.
pub open spec fn trim_hashes(b: Seq<u8>) -> Seq<u8>
    decreases b.len(),
{
    if b.len() > 0 && b[0] == HASH {
        trim_hashes(b.drop_first())
    } else {
        b
    }
}

/// A UTF-8 continuation byte (`10xxxxxx`): an index that holds one is not a
/// character boundary.
pub open spec fn is_continuation(c: u8) -> bool {
    0x80 <= c < 0xc0
}

/// Cutting a six-byte code into its channels would split a character: the
/// first cut (at byte 2) always happens, the second (at byte 4) only once
/// the first channel was read.
pub open spec fn hex_code_splits_char(bytes: Seq<u8>) -> bool {
    let h = trim_hashes(bytes);
    h.len() == 6 && (is_continuation(h[2]) || (channel_value(h[0], h[1]) is Some
        && is_continuation(h[4])))
}

/// The channels that a colour code denotes, or why it is refused.
pub open spec fn hex_code_value(bytes: Seq<u8>) -> Result<(u8, u8, u8), HexError> {
    let h = trim_hashes(bytes);
    if h.len() != 6 {
        Err(HexError::WrongLength)
    } else {
        match (channel_value(h[0], h[1]), channel_value(h[2], h[3]), channel_value(h[4], h[5])) {
            (Some(r), Some(g), Some(b)) => Ok((r, g, b)),
            _ => Err(HexError::InvalidDigit),
        }
    }
}

/// ASCII upper case of a byte.
pub open spec fn ascii_upper(c: u8) -> u8 {
    if 0x61 <= c <= 0x7a {
        (c - 32) as u8
    } else {
        c
    }
}

/// The canonical code written for a code that was accepted: `#` and the six
/// characters in upper case.
pub open spec fn canonical_hex(bytes: Seq<u8>) -> Seq<char> {
    let h = trim_hashes(bytes);
    seq!['#'] + Seq::new(6, |i: int| ascii_upper(h[i]) as char)
}

/// Upper-case hexadecimal digit for a value below 16.
pub open spec fn upper_hex_digit(d: u8) -> char {
    if d < 10 {
        (d + 0x30) as char
    } else {
        (d - 10 + 0x41) as char
    }
}

/// The code `#RRGGBB` of a colour, in upper case.
pub open spec fn rgb_code(r: u8, g: u8, b: u8) -> Seq<char> {
    seq![
        '#',
        upper_hex_digit(r / 16),
        upper_hex_digit(r % 16),
        upper_hex_digit(g / 16),
        upper_hex_digit(g % 16),
        upper_hex_digit(b / 16),
        upper_hex_digit(b % 16),
    ]
}

proof fn lemma_upper_digit_value(d: u8)
    requires
        d < 16,
    ensures
        hex_digit_value(upper_hex_digit(d) as u8) == Some(d),
        ascii_upper(upper_hex_digit(d) as u8) == upper_hex_digit(d) as u8,
        upper_hex_digit(d) as u8 != HASH,
        '\0' <= upper_hex_digit(d) <= '\u{7f}',
{
}

proof fn lemma_ascii_bytes(s: Seq<char>)
    requires
        is_ascii_chars(s),
    ensures
        encode_utf8(s) == Seq::new(s.len(), |i: int| s[i] as u8),
{
    is_ascii_chars_encode_utf8(s);
    assert(encode_utf8(s) =~= Seq::new(s.len(), |i: int| s[i] as u8));
}

/// Writing a colour as `#RRGGBB` and reading it back gives the same colour,
/// and the code is already in its canonical spelling.
pub proof fn law_rgb_code_round_trip(r: u8, g: u8, b: u8)
    ensures
        hex_code_value(encode_utf8(rgb_code(r, g, b))) == Ok::<(u8, u8, u8), HexError>((r, g, b)),
        canonical_hex(encode_utf8(rgb_code(r, g, b))) == rgb_code(r, g, b),
        !hex_code_splits_char(encode_utf8(rgb_code(r, g, b))),
{
    let c = rgb_code(r, g, b);
    lemma_upper_digit_value(r / 16);
    lemma_upper_digit_value(r % 16);
    lemma_upper_digit_value(g / 16);
    lemma_upper_digit_value(g % 16);
    lemma_upper_digit_value(b / 16);
    lemma_upper_digit_value(b % 16);
    assert(is_ascii_chars(c));
    lemma_ascii_bytes(c);
    let bytes = encode_utf8(c);
    assert(bytes.drop_first() =~= Seq::new(6, |i: int| c[i + 1] as u8));
    assert(trim_hashes(bytes.drop_first()) == bytes.drop_first());
    assert(trim_hashes(bytes) == bytes.drop_first());
    assert(canonical_hex(bytes) =~= c);
}

/// A code that was accepted is accepted again, with the same colour and the
/// same canonical spelling, when its canonical spelling is read.
pub proof fn law_canonical_code_reparses(bytes: Seq<u8>)
    requires
        hex_code_value(bytes) is Ok,
    ensures
        hex_code_value(encode_utf8(canonical_hex(bytes))) == hex_code_value(bytes),
        canonical_hex(encode_utf8(canonical_hex(bytes))) == canonical_hex(bytes),
        !hex_code_splits_char(encode_utf8(canonical_hex(bytes))),
{
    let h = trim_hashes(bytes);
    let c = canonical_hex(bytes);
    assert forall|i: int| 0 <= i < 6 implies (h[i] == PLUS || hex_digit_value(h[i]) is Some) by {
        if i % 2 == 0 {
            assert(channel_value(h[i], h[i + 1]) is Some);
        } else {
            assert(channel_value(h[i - 1], h[i]) is Some);
        }
    }
    assert(is_ascii_chars(c));
    lemma_ascii_bytes(c);
    let nb = encode_utf8(c);
    assert(nb.drop_first() =~= Seq::new(6, |i: int| ascii_upper(h[i])));
    assert(nb.drop_first()[0] != HASH);
    assert(trim_hashes(nb.drop_first()) == nb.drop_first());
    assert(trim_hashes(nb) == nb.drop_first());
    assert(canonical_hex(nb) =~= c);
}

fn hex_digit(c: u8) -> (r: Option<u8>)
    ensures
        r == hex_digit_value(c),
{
    if 0x30 <= c && c <= 0x39 {
        Some(c - 0x30)
    } else if 0x61 <= c && c <= 0x66 {
        Some(c - 0x61 + 10)
    } else if 0x41 <= c && c <= 0x46 {
        Some(c - 0x41 + 10)
    } else {
        None
    }
}

fn channel(c0: u8, c1: u8) -> (r: Option<u8>)
    ensures
        r == channel_value(c0, c1),
{
    if c0 == PLUS {
        hex_digit(c1)
    } else {
        match (hex_digit(c0), hex_digit(c1)) {
            (Some(hi), Some(lo)) => Some(hi * 16 + lo),
            _ => None,
        }
    }
}

proof fn lemma_trim_hashes_skip(b: Seq<u8>, k: int)
    requires
        0 <= k <= b.len(),
        forall|i: int| 0 <= i < k ==> b[i] == HASH,
    ensures
        trim_hashes(b) == trim_hashes(b.subrange(k, b.len() as int)),
    decreases k,
{
    if k > 0 {
        assert(b.drop_first() =~= b.subrange(1, b.len() as int));
        lemma_trim_hashes_skip(b.drop_first(), k - 1);
        assert(b.drop_first().subrange(k - 1, b.drop_first().len() as int) =~= b.subrange(
            k,
            b.len() as int,
        ));
    } else {
        assert(b.subrange(0, b.len() as int) =~= b);
    }
}

/// The upper-case spelling of a byte that an accepted code can hold.
fn upper_char_str(c: u8) -> (s: &'static str)
    requires
        c == PLUS || hex_digit_value(c) is Some,
    ensures
        s@ == seq![ascii_upper(c) as char],
{
    proof {
        reveal_strlit("+");
        reveal_strlit("0");
        reveal_strlit("1");
        reveal_strlit("2");
        reveal_strlit("3");
        reveal_strlit("4");
        reveal_strlit("5");
        reveal_strlit("6");
        reveal_strlit("7");
        reveal_strlit("8");
        reveal_strlit("9");
        reveal_strlit("A");
        reveal_strlit("B");
        reveal_strlit("C");
        reveal_strlit("D");
        reveal_strlit("E");
        reveal_strlit("F");
    }
    match c {
        0x2b => "+",
        0x30 => "0",
        0x31 => "1",
        0x32 => "2",
        0x33 => "3",
        0x34 => "4",
        0x35 => "5",
        0x36 => "6",
        0x37 => "7",
        0x38 => "8",
        0x39 => "9",
        0x41 | 0x61 => "A",
        0x42 | 0x62 => "B",
        0x43 | 0x63 => "C",
        0x44 | 0x64 => "D",
        0x45 | 0x65 => "E",
        _ => "F",
    }
}

impl Yarn {
    /// Reads a colour code: any number of leading `#`, then exactly six bytes
    /// that form three base-16 channels.
    pub fn from_hex(hex: &str) -> (res: Result<Yarn, HexError>)
        requires
            !hex_code_splits_char(hex.spec_bytes()),
        ensures
            match res {
                Ok(y) => hex_code_value(hex.spec_bytes()) == Ok::<(u8, u8, u8), HexError>(
                    (y.r, y.g, y.b),
                ) && y.hex@ == canonical_hex(hex.spec_bytes()),
                Err(e) => hex_code_value(hex.spec_bytes()) == Err::<(u8, u8, u8), HexError>(e),
            },
    {
        let bytes = hex.as_bytes();
        let n = bytes.len();
        let mut k: usize = 0;
        while k < n && bytes[k] == HASH
            invariant
                n == bytes@.len(),
                bytes@ == hex.spec_bytes(),
                k <= n,
                forall|i: int| 0 <= i < k ==> bytes@[i] == HASH,
            decreases n - k,
        {
            k = k + 1;
        }
        let ghost h = bytes@.subrange(k as int, n as int);
        proof {
            lemma_trim_hashes_skip(bytes@, k as int);
            if h.len() > 0 {
                assert(h[0] == bytes@[k as int]);
            }
            assert(trim_hashes(h) == h);
        }
        if n - k != 6 {
            return Err(HexError::WrongLength);
        }
        assert(h[0] == bytes[k as int] && h[1] == bytes[k + 1] && h[2] == bytes[k + 2]);
        assert(h[3] == bytes[k + 3] && h[4] == bytes[k + 4] && h[5] == bytes[k + 5]);
        let r = match channel(bytes[k], bytes[k + 1]) {
            Some(v) => v,
            None => return Err(HexError::InvalidDigit),
        };
        let g = match channel(bytes[k + 2], bytes[k + 3]) {
            Some(v) => v,
            None => return Err(HexError::InvalidDigit),
        };
        let b = match channel(bytes[k + 4], bytes[k + 5]) {
            Some(v) => v,
            None => return Err(HexError::InvalidDigit),
        };
        let mut code = String::from_str("#");
        proof {
            reveal_strlit("#");
        }
        let mut i: usize = 0;
        while i < 6
            invariant
                i <= 6,
                k + 6 == n,
                n == bytes@.len(),
                h == bytes@.subrange(k as int, n as int),
                channel_value(h[0], h[1]) is Some,
                channel_value(h[2], h[3]) is Some,
                channel_value(h[4], h[5]) is Some,
                code@ == seq!['#'] + Seq::new(i as nat, |j: int| ascii_upper(h[j]) as char),
            decreases 6 - i,
        {
            let c = bytes[k + i];
            assert(c == h[i as int]);
            code.append(upper_char_str(c));
            i = i + 1;
            assert(code@ =~= seq!['#'] + Seq::new(i as nat, |j: int| ascii_upper(h[j]) as char));
        }
        Ok(Yarn { r, g, b, hex: code })
    }
}

} // verus!

verus! {

/// What `Yarn::from_hex` gives for a code that it accepts.
pub open spec fn yarn_from_code(y: Yarn, bytes: Seq<u8>) -> bool {
    &&& hex_code_value(bytes) == Ok::<(u8, u8, u8), HexError>((y.r, y.g, y.b))
    &&& y.hex@ == canonical_hex(bytes)
}

/// Perceptual distance between two colours, scaled by 100 and squared:
/// `30·Δr² + 59·Δg² + 11·Δb²` (the weights 0.30, 0.59, 0.11 of the
/// luminance formula). Squaring keeps the order of the distances. The
/// distance is exact here; computing `√(0.30·Δr² + 0.59·Δg² + 0.11·Δb²)` in
/// single precision rounds, so two yarns at nearly equal distances could be
/// ordered otherwise there (no such pair is known).
pub open spec fn weighted_dist_sq(r1: u8, g1: u8, b1: u8, r2: u8, g2: u8, b2: u8) -> int {
    30 * ((r1 - r2) * (r1 - r2)) + 59 * ((g1 - g2) * (g1 - g2)) + 11 * ((b1 - b2) * (b1
        - b2))
}

/// Distance of a yarn to a colour.
pub open spec fn yarn_dist(y: Yarn, r: u8, g: u8, b: u8) -> int {
    weighted_dist_sq(y.r, y.g, y.b, r, g, b)
}

/// `i` is the first palette entry at the least distance from the colour.
pub open spec fn is_closest(palette: Seq<Yarn>, r: u8, g: u8, b: u8, i: int) -> bool {
    &&& 0 <= i < palette.len()
    &&& forall|j: int| 0 <= j < palette.len() ==> yarn_dist(palette[i], r, g, b) <= yarn_dist(
        #[trigger] palette[j],
        r,
        g,
        b,
    )
    &&& forall|j: int| 0 <= j < i ==> yarn_dist(palette[i], r, g, b) < yarn_dist(
        #[trigger] palette[j],
        r,
        g,
        b,
    )
}

/// The index that `closest` gives: 0 for an empty palette.
pub open spec fn closest_index(palette: Seq<Yarn>, r: u8, g: u8, b: u8, i: int) -> bool {
    if palette.len() == 0 {
        i == 0
    } else {
        is_closest(palette, r, g, b, i)
    }
}

fn sq_diff(a: u8, b: u8) -> (d: u32)
    ensures
        d == (a - b) * (a - b),
        d <= 65025,
{
    let x: u32 = if a >= b {
        (a - b) as u32
    } else {
        (b - a) as u32
    };
    assert(x * x <= 255 * 255) by (nonlinear_arith)
        requires
            x <= 255,
    ;
    assert(x * x == (a - b) * (a - b)) by (nonlinear_arith)
        requires
            x == a - b || x == b - a,
    ;
    x * x
}

impl Yarn {
    /// Scaled squared perceptual distance of this yarn to a colour.
    pub fn weighted_dist(&self, r: u8, g: u8, b: u8) -> (d: u32)
        ensures
            d == yarn_dist(*self, r, g, b),
            d <= 6502500,
    {
        30 * sq_diff(self.r, r) + 59 * sq_diff(self.g, g) + 11 * sq_diff(self.b, b)
    }
}

/// Index of the palette yarn nearest to a colour; on a tie the first such
/// yarn; 0 for an empty palette.
pub fn closest(palette: &[Yarn], r: u8, g: u8, b: u8) -> (i: usize)
    ensures
        closest_index(palette@, r, g, b, i as int),
{
    if palette.len() == 0 {
        return 0;
    }
    let mut best: usize = 0;
    let mut best_d = palette[0].weighted_dist(r, g, b);
    let mut j: usize = 1;
    while j < palette.len()
        invariant
            1 <= j <= palette@.len(),
            best < j,
            best_d == yarn_dist(palette@[best as int], r, g, b),
            forall|k: int| 0 <= k < j ==> best_d <= yarn_dist(#[trigger] palette@[k], r, g, b),
            forall|k: int| 0 <= k < best ==> best_d < yarn_dist(#[trigger] palette@[k], r, g, b),
        decreases palette@.len() - j,
    {
        let d = palette[j].weighted_dist(r, g, b);
        if d < best_d {
            best = j;
            best_d = d;
        }
        j = j + 1;
    }
    best
}

proof fn lemma_dist_zero(r1: u8, g1: u8, b1: u8, r2: u8, g2: u8, b2: u8)
    ensures
        weighted_dist_sq(r1, g1, b1, r2, g2, b2) >= 0,
        weighted_dist_sq(r1, g1, b1, r2, g2, b2) == 0 <==> (r1 == r2 && g1 == g2 && b1 == b2),
{
    assert((r1 - r2) * (r1 - r2) >= 0 && ((r1 - r2) * (r1 - r2) == 0 <==> r1 == r2))
        by (nonlinear_arith);
    assert((g1 - g2) * (g1 - g2) >= 0 && ((g1 - g2) * (g1 - g2) == 0 <==> g1 == g2))
        by (nonlinear_arith);
    assert((b1 - b2) * (b1 - b2) >= 0 && ((b1 - b2) * (b1 - b2) == 0 <==> b1 == b2))
        by (nonlinear_arith);
}

/// When the palette holds the colour itself, the nearest yarn is the first
/// yarn of exactly that colour.
pub proof fn law_closest_exact_colour(palette: Seq<Yarn>, r: u8, g: u8, b: u8, i: int, j: int)
    requires
        closest_index(palette, r, g, b, i),
        0 <= j < palette.len(),
        palette[j].r == r && palette[j].g == g && palette[j].b == b,
    ensures
        palette[i].r == r && palette[i].g == g && palette[i].b == b,
        forall|k: int|
            0 <= k < i ==> !(#[trigger] palette[k].r == r && palette[k].g == g && palette[k].b
                == b),
{
    lemma_dist_zero(palette[j].r, palette[j].g, palette[j].b, r, g, b);
    lemma_dist_zero(palette[i].r, palette[i].g, palette[i].b, r, g, b);
    assert(yarn_dist(palette[i], r, g, b) <= yarn_dist(palette[j], r, g, b));
    assert forall|k: int|
        0 <= k < i implies !(#[trigger] palette[k].r == r && palette[k].g == g && palette[k].b
        == b) by {
        lemma_dist_zero(palette[k].r, palette[k].g, palette[k].b, r, g, b);
        assert(yarn_dist(palette[i], r, g, b) < yarn_dist(palette[k], r, g, b));
    }
}

/// Colours of the default palette, in order.
pub open spec fn default_colours() -> Seq<(u8, u8, u8)> {
    seq![
        (0xF5u8, 0xF5u8, 0xDCu8),
        (0x2Cu8, 0x2Cu8, 0x2Cu8),
        (0xC0u8, 0x39u8, 0x2Bu8),
        (0x29u8, 0x80u8, 0xB9u8),
        (0x27u8, 0xAEu8, 0x60u8),
        (0xF3u8, 0x9Cu8, 0x12u8),
    ]
}

/// The yarns of the default palette, in order, each with its canonical code.
pub open spec fn is_default_palette(p: Seq<Yarn>) -> bool {
    &&& p.len() == 6
    &&& forall|i: int|
        0 <= i < 6 ==> (#[trigger] p[i].r, p[i].g, p[i].b) == default_colours()[i] && p[i].hex@
            == rgb_code(p[i].r, p[i].g, p[i].b)
}

/// Reads a code that is `#RRGGBB` in upper case already.
fn yarn_from_rgb_code(code: &str, r: u8, g: u8, b: u8) -> (y: Yarn)
    requires
        code@ == rgb_code(r, g, b),
    ensures
        y.r == r && y.g == g && y.b == b,
        y.hex@ == rgb_code(r, g, b),
{
    proof {
        law_rgb_code_round_trip(r, g, b);
    }
    match Yarn::from_hex(code) {
        Ok(y) => y,
        Err(_) => {
            proof {
                assert(false);
            }
            Yarn { r, g, b, hex: String::new() }
        },
    }
}

/// The palette used when none is given: beige, charcoal, red, blue, green,
/// orange.
pub fn default_palette() -> (p: Vec<Yarn>)
    ensures
        is_default_palette(p@),
{
    let mut p: Vec<Yarn> = Vec::new();
    proof {
        reveal_strlit("#F5F5DC");
        reveal_strlit("#2C2C2C");
        reveal_strlit("#C0392B");
        reveal_strlit("#2980B9");
        reveal_strlit("#27AE60");
        reveal_strlit("#F39C12");
    }
    assert("#F5F5DC"@ =~= rgb_code(0xF5, 0xF5, 0xDC));
    p.push(yarn_from_rgb_code("#F5F5DC", 0xF5, 0xF5, 0xDC));
    assert("#2C2C2C"@ =~= rgb_code(0x2C, 0x2C, 0x2C));
    p.push(yarn_from_rgb_code("#2C2C2C", 0x2C, 0x2C, 0x2C));
    assert("#C0392B"@ =~= rgb_code(0xC0, 0x39, 0x2B));
    p.push(yarn_from_rgb_code("#C0392B", 0xC0, 0x39, 0x2B));
    assert("#2980B9"@ =~= rgb_code(0x29, 0x80, 0xB9));
    p.push(yarn_from_rgb_code("#2980B9", 0x29, 0x80, 0xB9));
    assert("#27AE60"@ =~= rgb_code(0x27, 0xAE, 0x60));
    p.push(yarn_from_rgb_code("#27AE60", 0x27, 0xAE, 0x60));
    assert("#F39C12"@ =~= rgb_code(0xF3, 0x9C, 0x12));
    p.push(yarn_from_rgb_code("#F39C12", 0xF3, 0x9C, 0x12));
    p
}

} // verus!

verus! {

/// The bytes of a palette code.
pub open spec fn code_bytes(s: String) -> Seq<u8> {
    encode_utf8(s@)
}

/// Every code before `i` is accepted.
pub open spec fn codes_accepted_before(codes: Seq<String>, i: int) -> bool {
    forall|j: int| 0 <= j < i ==> hex_code_value(code_bytes(#[trigger] codes[j])) is Ok
}

/// Codes are read in order until the first refused one; none of the codes
/// that get read may have a channel cut through a character.
pub open spec fn palette_codes_readable(codes: Seq<String>) -> bool {
    forall|i: int|
        0 <= i < codes.len() && codes_accepted_before(codes, i) ==> !hex_code_splits_char(
            code_bytes(#[trigger] codes[i]),
        )
}

/// Reads the palette given on the command line: the default palette when
/// none is given, else every code in order, stopping at the first refused
/// one.
pub fn parse_palette(hexes: &[String]) -> (res: Result<Vec<Yarn>, HexError>)
    requires
        palette_codes_readable(hexes@),
    ensures
        hexes@.len() == 0 ==> (res matches Ok(p) && is_default_palette(p@)),
        hexes@.len() > 0 ==> (res is Ok <==> codes_accepted_before(hexes@, hexes@.len() as int)),
        hexes@.len() > 0 ==> (res matches Ok(p) ==> p@.len() == hexes@.len() && forall|i: int|
            0 <= i < p@.len() ==> yarn_from_code(#[trigger] p@[i], code_bytes(hexes@[i]))),
        res matches Err(e) ==> exists|i: int|
            0 <= i < hexes@.len() && codes_accepted_before(hexes@, i) && hex_code_value(
                code_bytes(#[trigger] hexes@[i]),
            ) == Err::<(u8, u8, u8), HexError>(e),
{
    if hexes.len() == 0 {
        return Ok(default_palette());
    }
    let mut p: Vec<Yarn> = Vec::new();
    let mut i: usize = 0;
    while i < hexes.len()
        invariant
            i <= hexes@.len(),
            palette_codes_readable(hexes@),
            codes_accepted_before(hexes@, i as int),
            p@.len() == i,
            forall|j: int| 0 <= j < i ==> yarn_from_code(#[trigger] p@[j], code_bytes(hexes@[j])),
        decreases hexes@.len() - i,
    {
        let code = hexes[i].as_str();
        assert(code.spec_bytes() == code_bytes(hexes@[i as int]));
        match Yarn::from_hex(code) {
            Ok(y) => {
                p.push(y);
            },
            Err(e) => {
                return Err(e);
            },
        }
        i = i + 1;
    }
    Ok(p)
}

} // verus!

verus! {

/// The index that `closest` gives, as a spec value.
pub open spec fn nearest_yarn(palette: Seq<Yarn>, r: u8, g: u8, b: u8) -> int {
    choose|i: int| closest_index(palette, r, g, b, i)
}

/// Only one index is the first nearest yarn.
pub proof fn lemma_closest_index_unique(palette: Seq<Yarn>, r: u8, g: u8, b: u8, i: int, j: int)
    requires
        closest_index(palette, r, g, b, i),
        closest_index(palette, r, g, b, j),
    ensures
        i == j,
{
    if palette.len() > 0 {
        if i < j {
            assert(yarn_dist(palette[j], r, g, b) < yarn_dist(palette[i], r, g, b));
        } else if j < i {
            assert(yarn_dist(palette[i], r, g, b) < yarn_dist(palette[j], r, g, b));
        }
    }
}

/// An index that satisfies `closest_index` is `nearest_yarn`.
pub proof fn lemma_nearest_yarn(palette: Seq<Yarn>, r: u8, g: u8, b: u8, i: int)
    requires
        closest_index(palette, r, g, b, i),
    ensures
        nearest_yarn(palette, r, g, b) == i,
{
    lemma_closest_index_unique(palette, r, g, b, i, nearest_yarn(palette, r, g, b));
}

} // verus!

verus! {

/// A non-empty palette always has a first nearest yarn.
pub proof fn lemma_nearest_yarn_exists(palette: Seq<Yarn>, r: u8, g: u8, b: u8)
    ensures
        closest_index(palette, r, g, b, nearest_yarn(palette, r, g, b)),
    decreases palette.len(),
{
    if palette.len() == 0 {
        assert(closest_index(palette, r, g, b, 0));
    } else if palette.len() == 1 {
        assert(closest_index(palette, r, g, b, 0));
    } else {
        let pre = palette.drop_last();
        lemma_nearest_yarn_exists(pre, r, g, b);
        let i0 = nearest_yarn(pre, r, g, b);
        let last = palette.len() - 1;
        assert(forall|j: int| 0 <= j < pre.len() ==> pre[j] == palette[j]);
        if yarn_dist(palette[last], r, g, b) < yarn_dist(palette[i0], r, g, b) {
            assert(closest_index(palette, r, g, b, last));
        } else {
            assert(closest_index(palette, r, g, b, i0));
        }
    }
}

} // verus!

verus! {

/// ASCII lower case of a byte.
pub open spec fn ascii_lower(c: u8) -> u8 {
    if 0x41 <= c <= 0x5a {
        (c + 32) as u8
    } else {
        c
    }
}

/// The bytes in ASCII upper case (`up`) or lower case, as
/// `to_ascii_uppercase` and `to_ascii_lowercase` give them.
pub open spec fn ascii_case(b: Seq<u8>, up: bool) -> Seq<u8> {
    b.map_values(|c: u8| if up { ascii_upper(c) } else { ascii_lower(c) })
}

proof fn lemma_trim_hashes_case(b: Seq<u8>, up: bool)
    ensures
        trim_hashes(ascii_case(b, up)) == ascii_case(trim_hashes(b), up),
    decreases b.len(),
{
    let cb = ascii_case(b, up);
    if b.len() > 0 {
        if b[0] == HASH {
            assert(cb.drop_first() =~= ascii_case(b.drop_first(), up));
            lemma_trim_hashes_case(b.drop_first(), up);
        } else {
            assert(cb[0] != HASH);
        }
    } else {
        assert(cb.len() == 0);
    }
}

/// The case of the letters in a colour code does not matter: the code in
/// upper or in lower case is accepted or refused alike, gives the same
/// colour and canonical code, and splits a character alike.
pub proof fn law_hex_code_ignores_case(bytes: Seq<u8>, up: bool)
    ensures
        hex_code_value(ascii_case(bytes, up)) == hex_code_value(bytes),
        hex_code_splits_char(ascii_case(bytes, up)) == hex_code_splits_char(bytes),
        hex_code_value(bytes) is Ok ==> canonical_hex(ascii_case(bytes, up)) == canonical_hex(
            bytes,
        ),
{
    lemma_trim_hashes_case(bytes, up);
    let h = trim_hashes(bytes);
    let ch = ascii_case(h, up);
    assert(ch.len() == h.len());
    if h.len() == 6 {
        assert forall|i: int| 0 <= i < 6 implies {
            &&& hex_digit_value(#[trigger] ch[i]) == hex_digit_value(h[i])
            &&& (ch[i] == PLUS) == (h[i] == PLUS)
            &&& is_continuation(ch[i]) == is_continuation(h[i])
            &&& ascii_upper(ch[i]) == ascii_upper(h[i])
        } by {
            assert(ch[i] == if up { ascii_upper(h[i]) } else { ascii_lower(h[i]) });
        }
        assert(channel_value(ch[0], ch[1]) == channel_value(h[0], h[1]));
        assert(channel_value(ch[2], ch[3]) == channel_value(h[2], h[3]));
        assert(channel_value(ch[4], ch[5]) == channel_value(h[4], h[5]));
        assert(canonical_hex(ascii_case(bytes, up)) =~= canonical_hex(bytes));
    }
}

/// Reordering the palette, or any palette with the same yarns, leaves the
/// nearest distance the same (the index of the nearest yarn may change).
pub proof fn law_nearest_distance_same_yarns(
    p: Seq<Yarn>,
    q: Seq<Yarn>,
    r: u8,
    g: u8,
    b: u8,
    i: int,
    j: int,
)
    requires
        p.len() > 0,
        forall|k: int| 0 <= k < q.len() ==> p.contains(#[trigger] q[k]),
        forall|k: int| 0 <= k < p.len() ==> q.contains(#[trigger] p[k]),
        closest_index(p, r, g, b, i),
        closest_index(q, r, g, b, j),
    ensures
        yarn_dist(p[i], r, g, b) == yarn_dist(q[j], r, g, b),
{
    assert(q.contains(p[0]));
    let m = choose|m: int| 0 <= m < p.len() && p[m] == q[j];
    assert(p.contains(q[j]));
    assert(yarn_dist(p[i], r, g, b) <= yarn_dist(p[m], r, g, b));
    assert(q.contains(p[i]));
    let k = choose|k: int| 0 <= k < q.len() && q[k] == p[i];
    assert(yarn_dist(q[j], r, g, b) <= yarn_dist(q[k], r, g, b));
}

} // verus!
