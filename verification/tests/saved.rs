use vision_ai::saved::{parse_saved_linear, LoadError};

fn text(v: &[char]) -> String {
    v.iter().collect()
}

fn ok_fields(content: &str) -> (usize, Vec<String>, String) {
    let sv = parse_saved_linear(content).expect("should parse");
    (sv.input_size, sv.weights.iter().map(|t| text(t)).collect(), text(&sv.bias))
}

fn err_of(content: &str) -> LoadError {
    match parse_saved_linear(content) {
        Ok(_) => panic!("should fail"),
        Err(e) => e,
    }
}

#[test]
fn reads_saved_linear_model() {
    let content = "LinearRegression\ninput_size=3\nweights=[1.0, -2.5, 3e2]\nbias=0.5\n";
    let (n, w, b) = ok_fields(content);
    assert_eq!(n, 3);
    assert_eq!(w, vec!["1.0", "-2.5", "3e2"]);
    assert_eq!(b, "0.5");
}

#[test]
fn empty_weight_list() {
    let (n, w, b) = ok_fields("input_size=0\nweights=[]\nbias=0\n");
    assert_eq!(n, 0);
    assert!(w.is_empty());
    assert_eq!(b, "0");
}

#[test]
fn later_lines_replace_earlier_ones() {
    let (n, w, b) = ok_fields("input_size=1\nweights=[1]\nbias=1\ninput_size=2\nbias=-7\n");
    assert_eq!(n, 2);
    assert_eq!(w, vec!["1"]);
    assert_eq!(b, "-7");
}

#[test]
fn crlf_lines_and_nested_brackets() {
    let (n, w, b) = ok_fields("input_size=+2\r\nweights= [[0.25 ,\t4.]] \r\nbias=inf\r\n");
    assert_eq!(n, 2);
    assert_eq!(w, vec!["0.25", "4."]);
    assert_eq!(b, "inf");
}

#[test]
fn float_literal_forms() {
    for good in ["1", "-1.5", "+.5", "5.", "1E-3", "2e+10", "-NaN", "Infinity", "INF"] {
        let content = format!("input_size=1\nweights=[{good}]\nbias={good}");
        let (_, w, b) = ok_fields(&content);
        assert_eq!(w, vec![good.to_string()]);
        assert_eq!(b, good);
        assert!(good.parse::<f64>().is_ok());
    }
    for bad in [".", "1e", "e5", "1.2.3", "+-1", " 1", "0x10", "infin", ""] {
        let content = format!("input_size=1\nweights=[]\nbias={bad}");
        assert_eq!(err_of(&content), LoadError::InvalidBias);
        assert!(bad.parse::<f64>().is_err());
    }
}

#[test]
fn invalid_fields() {
    assert_eq!(err_of("input_size=abc\nweights=[]\nbias=0"), LoadError::InvalidInputSize);
    assert_eq!(err_of("input_size= 3\nweights=[]\nbias=0"), LoadError::InvalidInputSize);
    assert_eq!(err_of("input_size=-3\nweights=[]\nbias=0"), LoadError::InvalidInputSize);
    assert_eq!(err_of("input_size=+\nweights=[]\nbias=0"), LoadError::InvalidInputSize);
    assert_eq!(
        err_of("input_size=99999999999999999999999\nweights=[]\nbias=0"),
        LoadError::InvalidInputSize
    );
    assert_eq!(err_of("input_size=1\nweights=[1.0, x]\nbias=0"), LoadError::InvalidWeights);
    assert_eq!(err_of("input_size=1\nweights=[1.0,]\nbias=0"), LoadError::InvalidWeights);
}

#[test]
fn first_error_in_line_order() {
    assert_eq!(err_of("weights=[z]\ninput_size=q\n"), LoadError::InvalidWeights);
    assert_eq!(err_of("bias=?\nweights=[z]\n"), LoadError::InvalidBias);
}

#[test]
fn missing_fields() {
    assert_eq!(err_of(""), LoadError::MissingInputSize);
    assert_eq!(err_of("weights=[]\nbias=1"), LoadError::MissingInputSize);
    assert_eq!(err_of("input_size=1\nbias=1"), LoadError::MissingWeights);
    assert_eq!(err_of("input_size=1\nweights=[2]"), LoadError::MissingBias);
    assert_eq!(err_of("input_size=1\nWeights=[2]\nbias=0"), LoadError::MissingWeights);
}

#[test]
fn input_size_largest_value() {
    let content = format!("input_size={}\nweights=[]\nbias=0", usize::MAX);
    assert_eq!(ok_fields(&content).0, usize::MAX);
}
