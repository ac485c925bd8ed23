use mandelbrot::parse_dimensions;

#[test]
fn parses_dimensions() {
    assert_eq!(parse_dimensions("1000x750"), Some((1000, 750)));
    assert_eq!(parse_dimensions("0x1"), Some((0, 1)));
    assert_eq!(parse_dimensions("+4x+5"), Some((4, 5)));
}

#[test]
fn splits_at_first_separator() {
    assert_eq!(parse_dimensions("10x20x30"), None);
    assert_eq!(parse_dimensions("10x"), None);
    assert_eq!(parse_dimensions("x10"), None);
}

#[test]
fn rejects_malformed_dimensions() {
    assert_eq!(parse_dimensions(""), None);
    assert_eq!(parse_dimensions("1000,750"), None);
    assert_eq!(parse_dimensions("1a0x750"), None);
    assert_eq!(parse_dimensions("-1x750"), None);
    assert_eq!(parse_dimensions("+x750"), None);
    assert_eq!(parse_dimensions(" 10x20"), None);
}

#[test]
fn rejects_dimensions_beyond_usize() {
    let max = usize::MAX.to_string();
    assert_eq!(parse_dimensions(&format!("{}x1", max)), Some((usize::MAX, 1)));
    assert_eq!(parse_dimensions(&format!("{}0x1", max)), None);
    assert_eq!(parse_dimensions("1x99999999999999999999999"), None);
}
