use tapestry::color::Yarn;
use tapestry::picture::chart_picture;
use tapestry::quantize::Rgb;

#[test]
fn every_stitch_is_a_square() {
    let pal = vec![Yarn::from_hex("#ffffff").unwrap(), Yarn::from_hex("#ff0000").unwrap()];
    let pic = chart_picture(&vec![vec![0, 1], vec![1]], &pal, 2);
    let w = Rgb { r: 255, g: 255, b: 255 };
    let red = Rgb { r: 255, g: 0, b: 0 };
    let k = Rgb { r: 0, g: 0, b: 0 };
    assert_eq!(
        pic,
        vec![
            vec![w, w, red, red],
            vec![w, w, red, red],
            vec![red, red, k, k],
            vec![red, red, k, k],
        ]
    );
}

#[test]
fn scale_one_is_the_chart() {
    let pal = vec![Yarn::from_hex("#010203").unwrap()];
    let pic = chart_picture(&vec![vec![0, 0, 0]], &pal, 1);
    assert_eq!(pic, vec![vec![Rgb { r: 1, g: 2, b: 3 }; 3]]);
}
