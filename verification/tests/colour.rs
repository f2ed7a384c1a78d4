use tapestry::color::{closest, default_palette, parse_palette, HexError, Yarn};

fn yarn(code: &str) -> Yarn {
    Yarn::from_hex(code).unwrap()
}

#[test]
fn from_hex_reads_upper_case_code() {
    let y = yarn("#F5F5DC");
    assert_eq!((y.r, y.g, y.b), (0xF5, 0xF5, 0xDC));
    assert_eq!(y.hex, "#F5F5DC");
}

#[test]
fn from_hex_upper_cases_and_adds_hash() {
    let y = yarn("c0392b");
    assert_eq!((y.r, y.g, y.b), (0xC0, 0x39, 0x2B));
    assert_eq!(y.hex, "#C0392B");
}

#[test]
fn from_hex_trims_every_leading_hash() {
    let y = yarn("###00ff7f");
    assert_eq!((y.r, y.g, y.b), (0, 255, 127));
    assert_eq!(y.hex, "#00FF7F");
}

#[test]
fn from_hex_accepts_plus_sign_in_a_channel() {
    let y = yarn("#+f0a+1");
    assert_eq!((y.r, y.g, y.b), (15, 10, 1));
    assert_eq!(y.hex, "#+F0A+1");
}

#[test]
fn from_hex_refuses_wrong_length() {
    assert!(matches!(Yarn::from_hex("#abc"), Err(HexError::WrongLength)));
    assert!(matches!(Yarn::from_hex(""), Err(HexError::WrongLength)));
    assert!(matches!(Yarn::from_hex("#1234567"), Err(HexError::WrongLength)));
}

#[test]
fn from_hex_refuses_invalid_digit() {
    assert!(matches!(Yarn::from_hex("#gg0000"), Err(HexError::InvalidDigit)));
    assert!(matches!(Yarn::from_hex("#00-100"), Err(HexError::InvalidDigit)));
    assert!(matches!(Yarn::from_hex("#0000++"), Err(HexError::InvalidDigit)));
    assert!(matches!(Yarn::from_hex("#é0000"), Err(HexError::InvalidDigit)));
}

#[test]
fn canonical_code_reads_back_the_same() {
    for code in ["#a1b2c3", "ffffff", "#+f+e+d", "##000000"] {
        let y = yarn(code);
        let again = yarn(&y.hex);
        assert_eq!((again.r, again.g, again.b), (y.r, y.g, y.b));
        assert_eq!(again.hex, y.hex);
    }
}

#[test]
fn weighted_distance_exact_value() {
    let y = yarn("#0a141e");
    assert_eq!(y.weighted_dist(0, 0, 0), 30 * 100 + 59 * 400 + 11 * 900);
    assert_eq!(y.weighted_dist(10, 20, 30), 0);
    assert_eq!(yarn("#000000").weighted_dist(255, 255, 255), 6502500);
}

#[test]
fn closest_picks_nearest_and_first_on_tie() {
    let pal = default_palette();
    assert_eq!(closest(&pal, 0, 0, 0), 1);
    assert_eq!(closest(&pal, 255, 255, 255), 0);
    assert_eq!(closest(&pal, 0xC0, 0x39, 0x2B), 2);
    let twins = vec![yarn("#101010"), yarn("#101010")];
    assert_eq!(closest(&twins, 0x10, 0x10, 0x10), 0);
    let around = vec![yarn("#000000"), yarn("#202020")];
    assert_eq!(closest(&around, 0x10, 0x10, 0x10), 0);
}

#[test]
fn closest_of_empty_palette_is_zero() {
    assert_eq!(closest(&[], 1, 2, 3), 0);
}

#[test]
fn default_palette_colours() {
    let pal = default_palette();
    let got: Vec<(u8, u8, u8, String)> = pal.iter().map(|y| (y.r, y.g, y.b, y.hex.clone())).collect();
    assert_eq!(
        got,
        vec![
            (0xF5, 0xF5, 0xDC, "#F5F5DC".to_string()),
            (0x2C, 0x2C, 0x2C, "#2C2C2C".to_string()),
            (0xC0, 0x39, 0x2B, "#C0392B".to_string()),
            (0x29, 0x80, 0xB9, "#2980B9".to_string()),
            (0x27, 0xAE, 0x60, "#27AE60".to_string()),
            (0xF3, 0x9C, 0x12, "#F39C12".to_string()),
        ]
    );
}

#[test]
fn parse_palette_empty_gives_default() {
    let pal = parse_palette(&[]).unwrap();
    assert_eq!(pal.len(), 6);
    assert_eq!(pal[3].hex, "#2980B9");
}

#[test]
fn parse_palette_reads_every_code() {
    let codes = vec!["#ff0000".to_string(), "00ff00".to_string()];
    let pal = parse_palette(&codes).unwrap();
    assert_eq!(pal.len(), 2);
    assert_eq!((pal[0].r, pal[0].g, pal[0].b), (255, 0, 0));
    assert_eq!(pal[1].hex, "#00FF00");
}

#[test]
fn parse_palette_stops_at_first_bad_code() {
    let codes = vec!["#ff0000".to_string(), "#12".to_string(), "#zzzzzz".to_string()];
    assert!(matches!(parse_palette(&codes), Err(HexError::WrongLength)));
    let codes = vec!["#zzzzzz".to_string(), "#12".to_string()];
    assert!(matches!(parse_palette(&codes), Err(HexError::InvalidDigit)));
}

#[test]
fn case_of_the_digits_does_not_matter() {
    for code in ["#aBcDeF", "c0392b", "##F39C12", "+f+f+f", "#12345g", "#abc"] {
        let lower = Yarn::from_hex(&code.to_ascii_lowercase());
        let upper = Yarn::from_hex(&code.to_ascii_uppercase());
        let same = Yarn::from_hex(code);
        assert_eq!(lower.is_ok(), same.is_ok());
        assert_eq!(upper.is_ok(), same.is_ok());
        if let (Ok(a), Ok(b)) = (lower, same) {
            assert_eq!((a.r, a.g, a.b, a.hex.clone()), (b.r, b.g, b.b, b.hex.clone()));
            let c = upper.unwrap();
            assert_eq!((c.r, c.g, c.b, c.hex), (b.r, b.g, b.b, b.hex));
        }
    }
}

#[test]
fn reordered_palette_reaches_the_same_distance() {
    let p = default_palette();
    let mut q = default_palette();
    q.reverse();
    for (r, g, b) in [(0, 0, 0), (255, 255, 255), (100, 150, 200), (200, 60, 40)] {
        let dp = p[closest(&p, r, g, b)].weighted_dist(r, g, b);
        let dq = q[closest(&q, r, g, b)].weighted_dist(r, g, b);
        assert_eq!(dp, dq);
    }
}
