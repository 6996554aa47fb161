use themeloader::codec::{parse, serialize, ParseError};
use themeloader::style::{FloatLit, StyleValue, Stylesheet};

fn color_sheet() -> Stylesheet {
    let mut s = Stylesheet::new();
    s.insert(b"accent".to_vec(), StyleValue::Color(10, 20, 30, 255));
    s
}

fn full_sheet() -> Stylesheet {
    let mut s = Stylesheet::new();
    s.insert(
        b"window_background_color".to_vec(),
        StyleValue::Color(50, 50, 50, 50),
    );
    s.insert(
        b"font_name".to_vec(),
        StyleValue::Text(b"Menlo".to_vec()),
    );
    s.insert(
        b"text_size_normal".to_vec(),
        StyleValue::Float(FloatLit {
            neg: false,
            int_digits: b"14".to_vec(),
            frac_digits: b"0".to_vec(),
        }),
    );
    s
}

#[test]
fn round_trip_one_of_each_kind() {
    let s = full_sheet();
    let bytes = serialize(&s);
    let back = parse(&bytes).expect("serialized sheet must parse");
    assert!(back == s);
}

#[test]
fn round_trip_single_color() {
    let s = color_sheet();
    let back = parse(&serialize(&s)).expect("serialized sheet must parse");
    assert!(back == s);
}

#[test]
fn round_trip_empty_sheet() {
    let s = Stylesheet::new();
    let back = parse(&serialize(&s)).expect("serialized sheet must parse");
    assert!(back == s);
    assert_eq!(back.len(), 0);
}

#[test]
fn round_trip_negative_float_and_zero() {
    let mut s = Stylesheet::new();
    s.insert(
        b"offset".to_vec(),
        StyleValue::Float(FloatLit {
            neg: true,
            int_digits: b"12".to_vec(),
            frac_digits: b"5".to_vec(),
        }),
    );
    s.insert(
        b"zero".to_vec(),
        StyleValue::Float(FloatLit {
            neg: false,
            int_digits: b"0".to_vec(),
            frac_digits: b"0".to_vec(),
        }),
    );
    s.insert(b"black".to_vec(), StyleValue::Color(0, 0, 0, 0));
    s.insert(b"white".to_vec(), StyleValue::Color(255, 255, 255, 255));
    s.insert(b"empty".to_vec(), StyleValue::Text(Vec::new()));
    let back = parse(&serialize(&s)).expect("serialized sheet must parse");
    assert!(back == s);
}

#[test]
fn serialize_exact_bytes() {
    let s = color_sheet();
    let out = serialize(&s);
    let expected: &[u8] = b"{\n    \"accent\": Color(10, 20, 30, 255),\n}";
    assert_eq!(out.as_slice(), expected);
}

#[test]
fn serialize_empty_exact_bytes() {
    let out = serialize(&Stylesheet::new());
    assert_eq!(out.as_slice(), b"{\n}".as_slice());
}

#[test]
fn parse_accepts_flexible_whitespace() {
    let text = b"  {  \"a\" : Color( 1 , 2 , 3 , 4 ) ,\n\t\"b\":Float(1.5),\n\"c\":Text(\"x y\"),\n}  ".to_vec();
    let s = parse(&text).expect("whitespace-tolerant parse");
    assert_eq!(s.len(), 3);
    assert_eq!(s.get(&b"a".to_vec()), Some(&StyleValue::Color(1, 2, 3, 4)));
    assert_eq!(
        s.get(&b"b".to_vec()),
        Some(&StyleValue::Float(FloatLit {
            neg: false,
            int_digits: b"1".to_vec(),
            frac_digits: b"5".to_vec(),
        }))
    );
    assert_eq!(
        s.get(&b"c".to_vec()),
        Some(&StyleValue::Text(b"x y".to_vec()))
    );
}

#[test]
fn parse_accepts_leading_zero_bytes() {
    let text = b"{\"k\": Color(007, 0, 00, 255),}".to_vec();
    let s = parse(&text).expect("leading zeros are digits");
    assert_eq!(s.get(&b"k".to_vec()), Some(&StyleValue::Color(7, 0, 0, 255)));
}

#[test]
fn parse_rejects_byte_out_of_range() {
    let text = b"{\"k\": Color(300, 0, 0, 255),}".to_vec();
    let e = parse(&text).unwrap_err();
    assert!(matches!(e, ParseError::ByteRange { .. }));
}

#[test]
fn parse_rejects_duplicate_key() {
    let text = b"{\"k\": Float(1.0),\"k\": Float(2.0),}".to_vec();
    let e = parse(&text).unwrap_err();
    assert!(matches!(e, ParseError::DuplicateKey { .. }));
}

#[test]
fn parse_rejects_truncated_input() {
    let text = b"{\"k\": Float(1.0),".to_vec();
    let e = parse(&text).unwrap_err();
    assert!(matches!(e, ParseError::UnexpectedEnd));
}

#[test]
fn parse_rejects_unknown_keyword() {
    let text = b"{\"k\": Stuff(1),}".to_vec();
    let e = parse(&text).unwrap_err();
    assert!(matches!(e, ParseError::UnexpectedByte { .. }));
}

#[test]
fn parse_rejects_bad_floats() {
    assert!(parse(&b"{\"k\": Float(1.),}".to_vec()).is_err());
    assert!(parse(&b"{\"k\": Float(.5),}".to_vec()).is_err());
    assert!(parse(&b"{\"k\": Float(-),}".to_vec()).is_err());
    assert!(parse(&b"{\"k\": Float(1,5),}".to_vec()).is_err());
}

#[test]
fn parse_rejects_missing_comma_and_brace() {
    assert!(parse(&b"{\"k\": Float(1.0)}".to_vec()).is_err());
    assert!(parse(&b"\"k\": Float(1.0),".to_vec()).is_err());
    assert!(parse(&b"{\"k\": Float(1.0),".to_vec()).is_err());
}

#[test]
fn parse_rejects_trailing_garbage() {
    let e = parse(&b"{\n} x".to_vec()).unwrap_err();
    assert!(matches!(e, ParseError::UnexpectedByte { .. }));
}

#[test]
fn parse_rejects_unterminated_string() {
    let e = parse(&b"{\"k: Float(1.0),}".to_vec()).unwrap_err();
    assert!(matches!(e, ParseError::UnexpectedEnd));
}

#[test]
fn insert_replaces_existing_key() {
    let mut s = Stylesheet::new();
    s.insert(b"k".to_vec(), StyleValue::Color(1, 2, 3, 4));
    s.insert(b"k".to_vec(), StyleValue::Color(9, 9, 9, 9));
    assert_eq!(s.len(), 1);
    assert_eq!(s.get(&b"k".to_vec()), Some(&StyleValue::Color(9, 9, 9, 9)));
    assert!(s.contains_key(&b"k".to_vec()));
    assert!(!s.contains_key(&b"other".to_vec()));
    assert_eq!(s.get(&b"other".to_vec()), None);
}

#[test]
fn leak_string_keeps_contents() {
    let leaked: &'static str = themeloader::leak_string(String::from("themeloader.reload_styles"));
    assert_eq!(leaked, "themeloader.reload_styles");
    assert_eq!(leaked, themeloader::watch::RELOAD_STYLES);
}
