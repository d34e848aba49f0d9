use pattern_match::{parse_ida_pattern, IdaConvertionError};

#[test]
fn ida_pattern_to_pairs_test() {
    assert!(matches!(
        parse_ida_pattern("asd"),
        Err(IdaConvertionError::InvalidByteLength)
    ));
    assert!(matches!(
        parse_ida_pattern("as"),
        Err(IdaConvertionError::InvalidByteDigit)
    ));
    assert!(matches!(
        parse_ida_pattern("7"),
        Err(IdaConvertionError::InvalidByteLength)
    ));
    assert!(matches!(
        parse_ida_pattern("777"),
        Err(IdaConvertionError::InvalidByteLength)
    ));
    assert!(matches!(
        parse_ida_pattern(" 7"),
        Err(IdaConvertionError::InvalidByteLength)
    ));
    assert!(matches!(
        parse_ida_pattern("7 "),
        Err(IdaConvertionError::InvalidByteLength)
    ));
    assert!(matches!(
        parse_ida_pattern("77  88"),
        Err(IdaConvertionError::InvalidByteLength)
    ));
    assert!(matches!(
        parse_ida_pattern("77 8 99"),
        Err(IdaConvertionError::InvalidByteLength)
    ));
    assert!(matches!(
        parse_ida_pattern("77 88 99 "),
        Err(IdaConvertionError::InvalidByteLength)
    ));
    assert!(matches!(
        parse_ida_pattern(" 77 88 99 "),
        Err(IdaConvertionError::InvalidByteLength)
    ));
    assert!(matches!(
        parse_ida_pattern(" 77 88 99"),
        Err(IdaConvertionError::InvalidByteLength)
    ));
    assert!(matches!(
        parse_ida_pattern("77 88 9? "),
        Err(IdaConvertionError::InvalidByteLength)
    ));
    assert!(matches!(
        parse_ida_pattern("77 88 99 ?"),
        Err(IdaConvertionError::InvalidByteLength)
    ));

    assert_eq!(
        parse_ida_pattern("77 88 99"),
        Ok(vec![(0x77, 0xFF), (0x88, 0xFF), (0x99, 0xFF)])
    );

    assert_eq!(
        parse_ida_pattern("77 8? 99"),
        Ok(vec![(0x77, 0xFF), (0x80, 0xF0), (0x99, 0xFF)])
    );

    assert_eq!(
        parse_ida_pattern("77 ?? 99"),
        Ok(vec![(0x77, 0xFF), (0x00, 0x00), (0x99, 0xFF)])
    );
}

#[test]
fn parse_upper_and_lower_case_digits() {
    assert_eq!(
        parse_ida_pattern("aB Cd 0f"),
        Ok(vec![(0xAB, 0xFF), (0xCD, 0xFF), (0x0F, 0xFF)])
    );
}

#[test]
fn parse_wildcard_nibbles() {
    assert_eq!(parse_ida_pattern("?5"), Ok(vec![(0x05, 0x0F)]));
    assert_eq!(parse_ida_pattern("??"), Ok(vec![(0x00, 0x00)]));
}

#[test]
fn parse_empty_text_is_a_length_error() {
    assert_eq!(parse_ida_pattern(""), Err(IdaConvertionError::InvalidByteLength));
}

#[test]
fn parse_first_bad_token_decides_the_error() {
    assert_eq!(parse_ida_pattern("zz 777"), Err(IdaConvertionError::InvalidByteDigit));
    assert_eq!(parse_ida_pattern("777 zz"), Err(IdaConvertionError::InvalidByteLength));
    assert_eq!(parse_ida_pattern("12 g4"), Err(IdaConvertionError::InvalidByteDigit));
}

#[test]
fn parse_non_ascii_token_counts_characters() {
    assert_eq!(parse_ida_pattern("é"), Err(IdaConvertionError::InvalidByteLength));
    assert_eq!(parse_ida_pattern("éé"), Err(IdaConvertionError::InvalidByteDigit));
}

#[test]
fn error_messages() {
    assert_eq!(IdaConvertionError::InvalidByteDigit.message(), "invalid byte digit");
    assert_eq!(
        IdaConvertionError::InvalidByteLength.message(),
        "not all bytes have length of 2"
    );
}
