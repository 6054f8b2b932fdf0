use vision_ai::save::{decimal_chars, render_saved_linear};
use vision_ai::saved::parse_saved_linear;

fn chars(s: &str) -> Vec<char> {
    s.chars().collect()
}

fn text(v: &[char]) -> String {
    v.iter().collect()
}

#[test]
fn decimal_digits() {
    assert_eq!(text(&decimal_chars(0)), "0");
    assert_eq!(text(&decimal_chars(7)), "7");
    assert_eq!(text(&decimal_chars(10)), "10");
    assert_eq!(text(&decimal_chars(4096)), "4096");
    assert_eq!(text(&decimal_chars(usize::MAX)), usize::MAX.to_string());
}

#[test]
fn renders_as_printed_by_format() {
    let weights = vec![1.0f64, -2.5, 3e-7];
    let bias = 0.25f64;
    let toks: Vec<Vec<char>> = weights.iter().map(|w| chars(&format!("{w:?}"))).collect();
    let rendered = text(&render_saved_linear(3, &toks, &chars(&format!("{bias}"))));
    let expected = format!("LinearRegression\ninput_size={}\nweights={:?}\nbias={}\n", 3, weights, bias);
    assert_eq!(rendered, expected);
}

#[test]
fn renders_empty_weight_list() {
    let rendered = text(&render_saved_linear(0, &Vec::new(), &chars("0")));
    assert_eq!(rendered, "LinearRegression\ninput_size=0\nweights=[]\nbias=0\n");
}

#[test]
fn save_then_load_round_trip() {
    let toks = vec![chars("1.0"), chars("-2.5"), chars("NaN"), chars("inf"), chars("1e-7")];
    let rendered = text(&render_saved_linear(12, &toks, &chars("-0.5")));
    let back = parse_saved_linear(&rendered).expect("should read back");
    assert_eq!(back.input_size, 12);
    assert_eq!(back.weights, toks);
    assert_eq!(back.bias, chars("-0.5"));
}

#[test]
fn save_then_load_round_trip_no_weights() {
    let rendered = text(&render_saved_linear(usize::MAX, &Vec::new(), &chars("3")));
    let back = parse_saved_linear(&rendered).expect("should read back");
    assert_eq!(back.input_size, usize::MAX);
    assert!(back.weights.is_empty());
    assert_eq!(back.bias, chars("3"));
}
