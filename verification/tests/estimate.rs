use tapestry::estimate::{parse_stitches, StitchCountError, StitchType, YarnWeight};
use tapestry::text::IntError;

#[test]
fn width_times_height() {
    assert_eq!(parse_stitches("60x40"), Ok(2400));
    assert_eq!(parse_stitches("60×40"), Ok(2400));
    assert_eq!(parse_stitches(" 60 x 40 "), Ok(2400));
    assert_eq!(parse_stitches("40x60"), Ok(2400));
}

#[test]
fn plain_count() {
    assert_eq!(parse_stitches("100"), Ok(100));
    assert_eq!(parse_stitches("0"), Ok(0));
}

#[test]
fn plain_count_is_not_trimmed() {
    assert_eq!(parse_stitches(" 100"), Err(StitchCountError::Number(IntError::InvalidDigit)));
    assert_eq!(parse_stitches(""), Err(StitchCountError::Number(IntError::Empty)));
}

#[test]
fn more_than_one_separator() {
    assert_eq!(parse_stitches("1x2x3"), Err(StitchCountError::NotWxH));
    assert_eq!(parse_stitches("1×2x"), Err(StitchCountError::NotWxH));
}

#[test]
fn bad_sides() {
    assert_eq!(parse_stitches("x"), Err(StitchCountError::Number(IntError::Empty)));
    assert_eq!(parse_stitches("2x"), Err(StitchCountError::Number(IntError::Empty)));
    assert_eq!(parse_stitches("ax2"), Err(StitchCountError::Number(IntError::InvalidDigit)));
    assert_eq!(
        parse_stitches("18446744073709551616x1"),
        Err(StitchCountError::Number(IntError::Overflow))
    );
    assert_eq!(
        parse_stitches("18446744073709551616"),
        Err(StitchCountError::Number(IntError::Overflow))
    );
}

#[test]
fn product_wraps_at_two_to_the_64() {
    assert_eq!(parse_stitches("4294967296x4294967296"), Ok(0));
    assert_eq!(parse_stitches("4294967296x4294967297"), Ok(4294967296));
}

#[test]
fn yarn_per_stitch_and_per_weight() {
    assert_eq!(StitchType::Sc.yarn_mm(), 18);
    assert_eq!(StitchType::Hdc.yarn_mm(), 22);
    assert_eq!(StitchType::Dc.yarn_mm(), 28);
    assert_eq!(StitchType::Slst.yarn_mm(), 12);
    assert_eq!(YarnWeight::Lace.metres_per_100g(), 800);
    assert_eq!(YarnWeight::Fingering.metres_per_100g(), 380);
    assert_eq!(YarnWeight::Sport.metres_per_100g(), 275);
    assert_eq!(YarnWeight::Dk.metres_per_100g(), 220);
    assert_eq!(YarnWeight::Worsted.metres_per_100g(), 180);
    assert_eq!(YarnWeight::Bulky.metres_per_100g(), 110);
    assert_eq!(YarnWeight::SuperBulky.metres_per_100g(), 60);
}

#[test]
fn every_spelling_of_one_count_agrees() {
    for s in ["60x40", "60×40", "60 × 40", " 60 x 40 ", "2400"] {
        assert_eq!(parse_stitches(s), Ok(2400));
    }
}
