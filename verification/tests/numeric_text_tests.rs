use pcd::floattext::{format_float32, format_float64, parse_float32, parse_float64};

fn fmt32(v: f32) -> String {
    String::from_utf8(format_float32(v.to_bits())).unwrap()
}

fn fmt64(v: f64) -> String {
    String::from_utf8(format_float64(v.to_bits())).unwrap()
}

#[test]
fn test_format_float32_fixed6() {
    assert_eq!(fmt32(0.0), "0.000000");
    assert_eq!(fmt32(-0.0), "-0.000000");
    assert_eq!(fmt32(1.5), "1.500000");
    assert_eq!(fmt32(-2.25), "-2.250000");
    assert_eq!(fmt32(1048576.0), "1048576.000000");
    assert_eq!(fmt32(0.15625), "0.156250");
    assert_eq!(fmt32(f32::INFINITY), "inf");
    assert_eq!(fmt32(f32::NEG_INFINITY), "-inf");
    assert_eq!(fmt32(f32::NAN), "NaN");
    // the formatter agrees with the standard fixed-precision rendering
    for v in [3.14159f32, -0.1, 123.456, 1.0e-3, 7.0e7] {
        assert_eq!(fmt32(v), format!("{:.6}", v), "value {}", v);
    }
}

#[test]
fn test_format_float64_fixed6() {
    assert_eq!(fmt64(0.0), "0.000000");
    assert_eq!(fmt64(2.5), "2.500000");
    assert_eq!(fmt64(-1.0e10), "-10000000000.000000");
    for v in [3.141592653589793f64, -0.1, 6.02e23, 1.0e-4] {
        assert_eq!(fmt64(v), format!("{:.6}", v), "value {}", v);
    }
}

#[test]
fn test_parse_float32_matches_std() {
    for t in [
        "0", "1", "-1", "1.5", "-2.25", "0.1", "3.14159", "123.456", "0.000001", "9999999",
        "+7.5", "2.", ".5", "1000000000", "0.0000000000000000024",
    ] {
        let got = parse_float32(t.as_bytes()).unwrap();
        let want = t.parse::<f32>().unwrap().to_bits();
        assert_eq!(got, want, "token {}", t);
    }
    assert_eq!(parse_float32(b"inf").unwrap(), f32::INFINITY.to_bits());
    assert_eq!(parse_float32(b"-inf").unwrap(), f32::NEG_INFINITY.to_bits());
    assert!(f32::from_bits(parse_float32(b"NaN").unwrap()).is_nan());
    assert_eq!(parse_float32(b""), None);
    assert_eq!(parse_float32(b"1.2.3"), None);
    assert_eq!(parse_float32(b"abc"), None);
    assert_eq!(parse_float32(b"-"), None);
}

#[test]
fn test_parse_float64_matches_std() {
    for t in ["0.1", "-3.5", "6.25", "1234567890.098765432"] {
        let got = parse_float64(t.as_bytes()).unwrap();
        let want = t.parse::<f64>().unwrap().to_bits();
        assert_eq!(got, want, "token {}", t);
    }
}

#[test]
fn test_parse_float_long_tokens() {
    // tokens with more than nineteen significant digits are rounded, not
    // rejected, and agree with the standard parser away from midpoints
    for t in [
        "18446744073709551616",
        "-18446744073709551616",
        "340282346638528859811704183484516925440",
        "123456789012345678901234567890",
        "1.00000000000000000000000001",
    ] {
        let got = parse_float32(t.as_bytes()).unwrap();
        let want = t.parse::<f32>().unwrap().to_bits();
        assert_eq!(got, want, "token {}", t);
    }
    for t in [
        "18446744073709551616",
        "123456789012345678901234567890",
        "1427247692705959881058285969449495136382746624",
        &format!("1{}", "0".repeat(100)),
        &format!("987654321{}", "0".repeat(250)),
        &format!("17976931348623157{}", "0".repeat(292)),
    ] {
        let got = parse_float64(t.as_bytes()).unwrap();
        let want = t.parse::<f64>().unwrap().to_bits();
        assert_eq!(got, want, "token {}", t);
    }
    // past the binary64 range the parser saturates to infinity, as the
    // standard parser does
    let wide = format!("1{}", "0".repeat(309));
    assert_eq!(parse_float64(wide.as_bytes()).unwrap(), f64::INFINITY.to_bits());
    assert_eq!(
        parse_float64(format!("-{}", wide).as_bytes()).unwrap(),
        f64::NEG_INFINITY.to_bits(),
    );
    let very_wide = format!("5{}", "0".repeat(500));
    assert_eq!(parse_float64(very_wide.as_bytes()).unwrap(), f64::INFINITY.to_bits());
    // magnitudes beyond the largest finite value overflow to infinity
    let huge = "999999999999999999999999999999999999999999";
    assert_eq!(parse_float32(huge.as_bytes()).unwrap(), f32::INFINITY.to_bits());
    assert_eq!(
        parse_float32(format!("-{}", huge).as_bytes()).unwrap(),
        f32::NEG_INFINITY.to_bits(),
    );
}

#[test]
fn test_format_parse_roundtrip_large() {
    // the library's own rendering of large values reads back to the same
    // bit pattern
    for v in [18446744073709551616.0f32, f32::MAX, -3.0e30f32, 1.0e38f32] {
        let text = fmt32(v);
        let back = parse_float32(text.as_bytes()).unwrap();
        assert_eq!(back, v.to_bits(), "value {}", v);
    }
    for v in [
        1.0e40f64,
        -2.5e45f64,
        1427247692705959881058285969449495136382746624.0f64,
        6.02e23f64,
        -1.0e100f64,
        3.3e200f64,
        f64::MAX,
    ] {
        let text = fmt64(v);
        let back = parse_float64(text.as_bytes()).unwrap();
        assert_eq!(back, v.to_bits(), "value {}", v);
    }
}

#[test]
fn test_parse_format_roundtrip() {
    // values exactly representable with six fraction digits survive the
    // text round trip
    for v in [0.0f32, 1.5, -2.25, 100.125, -0.000244140625f32] {
        let text = fmt32(v);
        let back = parse_float32(text.as_bytes()).unwrap();
        assert_eq!(f32::from_bits(back), (format!("{:.6}", v)).parse::<f32>().unwrap());
    }
}
