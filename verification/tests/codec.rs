use netex_graph::codec;

#[test]
fn parse_minutes() {
    let result = codec::parse_minutes("12:34".as_bytes());
    assert_eq!(result, 754);
}

#[test]
fn parse_day_bits_group() {
    let result = codec::parse_day_bits("1111111011".as_bytes());
    assert_eq!(&result, &[127, 3]);
}

#[test]
fn parse_date() {
    let result = codec::parse_date("2022-06-13T00:00:00".as_bytes());
    assert_eq!(result, 220613);
}

#[test]
fn parse_minutes_ignores_seconds() {
    assert_eq!(
        codec::parse_minutes("08:30:15".as_bytes()),
        codec::parse_minutes("08:30".as_bytes())
    );
    assert_eq!(codec::parse_minutes("23:55:59".as_bytes()), 1435);
}

#[test]
fn parse_day_bits_empty_and_exact_group() {
    assert_eq!(codec::parse_day_bits("".as_bytes()), Vec::<u8>::new());
    assert_eq!(codec::parse_day_bits("10000000".as_bytes()), vec![1]);
    assert_eq!(codec::parse_day_bits("00000001".as_bytes()), vec![128]);
}

#[test]
fn decimal_parser_plain_values() {
    assert_eq!(
        codec::parse_decimal_micro("13.405".as_bytes(), 180_000_000),
        Some(13_405_000)
    );
    assert_eq!(
        codec::parse_decimal_micro("-8.5".as_bytes(), 180_000_000),
        Some(-8_500_000)
    );
    assert_eq!(codec::parse_decimal_micro("50".as_bytes(), 90_000_000), Some(50_000_000));
    assert_eq!(codec::parse_decimal_micro(".25".as_bytes(), 90_000_000), Some(250_000));
    assert_eq!(codec::parse_decimal_micro("7.".as_bytes(), 90_000_000), Some(7_000_000));
    assert_eq!(
        codec::parse_decimal_micro("+12.0000009".as_bytes(), 180_000_000),
        Some(12_000_000)
    );
}

#[test]
fn decimal_parser_clamps() {
    assert_eq!(
        codec::parse_decimal_micro("200".as_bytes(), 180_000_000),
        Some(180_000_000)
    );
    assert_eq!(
        codec::parse_decimal_micro("-100".as_bytes(), 90_000_000),
        Some(-90_000_000)
    );
    assert_eq!(
        codec::parse_decimal_micro("99999999999999999999999".as_bytes(), 180_000_000),
        Some(180_000_000)
    );
}

#[test]
fn decimal_parser_rejects_everything_else() {
    assert_eq!(codec::parse_decimal_micro("".as_bytes(), 180_000_000), None);
    assert_eq!(codec::parse_decimal_micro("-".as_bytes(), 180_000_000), None);
    assert_eq!(codec::parse_decimal_micro(".".as_bytes(), 180_000_000), None);
    assert_eq!(codec::parse_decimal_micro("1e5".as_bytes(), 180_000_000), None);
    assert_eq!(codec::parse_decimal_micro("1.2.3".as_bytes(), 180_000_000), None);
    assert_eq!(codec::parse_decimal_micro("12a".as_bytes(), 180_000_000), None);
    assert_eq!(codec::parse_decimal_micro("NaN".as_bytes(), 180_000_000), None);
}
