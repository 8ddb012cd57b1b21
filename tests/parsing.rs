use ft_linear_regression::data::{DataError, DataParser};
use ft_linear_regression::lexical::{is_numeral_range, trim_range};
use ft_linear_regression::pair::{parse_weights, NumeralPair};

fn pair(a: &str, b: &str) -> NumeralPair {
    NumeralPair { first: a.as_bytes().to_vec(), second: b.as_bytes().to_vec() }
}

fn numeral(s: &str) -> bool {
    is_numeral_range(s.as_bytes(), 0, s.len())
}

#[test]
fn numerals_accepted() {
    assert!(numeral("0"));
    assert!(numeral("24000"));
    assert!(numeral("-0.4"));
    assert!(numeral("+12.75"));
}

#[test]
fn numerals_refused() {
    assert!(!numeral(""));
    assert!(!numeral("-"));
    assert!(!numeral("1."));
    assert!(!numeral(".5"));
    assert!(!numeral("1.2.3"));
    assert!(!numeral("1e5"));
    assert!(!numeral("km"));
    assert!(!numeral(" 1"));
    assert!(!numeral("--1"));
}

#[test]
fn trim_removes_blanks_at_both_ends() {
    let s = b"x \t 42 \r\n";
    assert_eq!(trim_range(s, 1, s.len()), (4, 6));
    let blank = b"  \t ";
    let (a, b) = trim_range(blank, 0, blank.len());
    assert_eq!(a, b);
}

#[test]
fn table_with_header() {
    let text = "km,price\n240000,3650\n139800,3800\n150500,4400\n";
    let r = DataParser::parse_records(text.as_bytes()).unwrap();
    assert_eq!(r, vec![pair("240000", "3650"), pair("139800", "3800"), pair("150500", "4400")]);
}

#[test]
fn table_without_header_keeps_first_record() {
    let text = "10000,20000\n20000,18000\n30000,16000\n40000,14000";
    let r = DataParser::parse_records(text.as_bytes()).unwrap();
    assert_eq!(
        r,
        vec![
            pair("10000", "20000"),
            pair("20000", "18000"),
            pair("30000", "16000"),
            pair("40000", "14000"),
        ]
    );
}

#[test]
fn table_blank_lines_and_spaces() {
    let text = "\r\n 15000 , 10000 \r\n\n  \n-1.5,+2\n";
    let r = DataParser::parse_records(text.as_bytes()).unwrap();
    assert_eq!(r, vec![pair("15000", "10000"), pair("-1.5", "+2")]);
}

#[test]
fn table_empty_and_header_only() {
    assert_eq!(DataParser::parse_records(b"").unwrap(), vec![]);
    assert_eq!(DataParser::parse_records(b"km,price\n").unwrap(), vec![]);
}

#[test]
fn table_malformed_line_is_reported() {
    let text = "km,price\n240000,3650\n139800;3800\n150500,4400\n";
    assert_eq!(
        DataParser::parse_records(text.as_bytes()),
        Err(DataError::MalformedLine { line: 3 })
    );
    let text = "km,price\nmileage,price\n";
    assert_eq!(
        DataParser::parse_records(text.as_bytes()),
        Err(DataError::MalformedLine { line: 2 })
    );
    let text = "1,2\n3,4,5\n";
    assert_eq!(
        DataParser::parse_records(text.as_bytes()),
        Err(DataError::MalformedLine { line: 2 })
    );
}

#[test]
fn weights_read() {
    assert_eq!(parse_weights(b"8499.599649933,-0.0214489635"), Some(pair("8499.599649933", "-0.0214489635")));
    assert_eq!(parse_weights(b"0,0\n"), Some(pair("0", "0")));
    assert_eq!(parse_weights(b" 24000 ,\t-0.4 \n"), Some(pair("24000", "-0.4")));
}

#[test]
fn weights_malformed() {
    assert_eq!(parse_weights(b""), None);
    assert_eq!(parse_weights(b"0.0"), None);
    assert_eq!(parse_weights(b"NaN,inf"), None);
    assert_eq!(parse_weights(b"1,2,3"), None);
    assert_eq!(parse_weights(b"1,2\n3,4"), None);
}

#[test]
fn table_round_trip() {
    let records = vec![pair("240000", "3650"), pair("-1.25", "+0.5"), pair("0", "0")];
    let mut text = Vec::new();
    for r in &records {
        text.extend_from_slice(&r.first);
        text.push(b',');
        text.extend_from_slice(&r.second);
        text.push(b'\n');
    }
    assert_eq!(DataParser::parse_records(&text).unwrap(), records);
}

#[test]
fn table_malformed_last_line_without_line_feed() {
    let text = "km,price\n1,2\n3,4\n5,";
    assert_eq!(
        DataParser::parse_records(text.as_bytes()),
        Err(DataError::MalformedLine { line: 4 })
    );
}

#[test]
fn weights_round_trip() {
    let w = pair("8499.599649933", "-0.0214489635");
    let text = format!("{},{}", "8499.599649933", "-0.0214489635");
    assert_eq!(parse_weights(text.as_bytes()), Some(w));
}
