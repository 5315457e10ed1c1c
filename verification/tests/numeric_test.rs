use gquest_core::numeric::Numeric;

fn text(s: &str) -> String {
    Numeric::parse(s).expect("a number").text()
}

#[test]
fn numeric_exponent_written_out_test() {
    assert_eq!(text("1e3"), "1000");
    assert_eq!(text("1E+3"), "1000");
    assert_eq!(text("1.5e-3"), "0.0015");
    assert_eq!(text("12.5e1"), "125");
    assert_eq!(text("-0.5E+2"), "-50");
    assert_eq!(text("0.1e1"), "1");
    assert_eq!(text("123e-1"), "12.3");
    assert_eq!(text("1e0"), "1");
    assert_eq!(text("1e400"), format!("1{}", "0".repeat(400)));
    assert_eq!(text("2.5e401"), "2.5e401");
    assert_eq!(text("1e-401"), "1e-401");
}

#[test]
fn numeric_same_value_test() {
    assert!(Numeric::parse("1e2").expect("n").same(&Numeric::parse("100").expect("n")));
    assert!(Numeric::parse("01.50").expect("n").same(&Numeric::parse("1.5").expect("n")));
    assert!(!Numeric::parse("1.5").expect("n").same(&Numeric::parse("1.05").expect("n")));
    assert_eq!(text("-inf"), "-inf");
    assert_eq!(text("NaN"), "NaN");
    assert!(Numeric::parse("1e").is_none());
    assert!(Numeric::parse(".").is_none());
}
