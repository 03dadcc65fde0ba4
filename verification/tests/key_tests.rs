use tinystorm::error::{CipherError, ParseFailure};
use tinystorm::key::{parse_byte, parse_credentials, verify_key, Credentials};

fn chars(text: &str) -> Vec<char> {
    text.chars().collect()
}

#[test]
fn key_must_hold_four_symbols() {
    assert!(verify_key(&[1, 2, 3, 4]));
    assert!(!verify_key(&[1, 2, 3]));
    assert!(!verify_key(&[1, 2, 3, 4, 5]));
    assert!(!verify_key(&[]));
}

#[test]
fn keystream_starts_with_the_key() {
    let credentials = Credentials::new(&[5, 6, 7, 8], 3);
    let mut buffer = Vec::new();
    credentials.expand_key(&mut buffer, 3, 10);
    assert_eq!(buffer, vec![5, 6, 7, 8, 7, 7, 1, 0, 0, 4, 7, 7]);
    assert_eq!(&buffer[..4], &[5, 6, 7, 8]);
}

#[test]
fn keystream_of_one_block_or_none_is_the_key() {
    let credentials = Credentials::new(&[5, 6, 7, 8], 3);
    let mut buffer = vec![9, 9, 9, 9, 9, 9];
    credentials.expand_key(&mut buffer, 1, 10);
    assert_eq!(buffer, vec![5, 6, 7, 8]);
    credentials.expand_key(&mut buffer, 0, 10);
    assert_eq!(buffer, vec![5, 6, 7, 8]);
}

#[test]
fn keystream_is_the_same_every_time() {
    let first = Credentials::new(&[25, 21, 18, 40], 39);
    let second = Credentials::new(&[25, 21, 18, 40], 39);
    let mut a = Vec::new();
    let mut b = vec![1, 2, 3];
    first.expand_key(&mut a, 6, 42);
    second.expand_key(&mut b, 6, 42);
    assert_eq!(a.len(), 24);
    assert_eq!(a, b);
    first.expand_key(&mut b, 6, 42);
    assert_eq!(a, b);
}

#[test]
fn credentials_below_the_bound_are_accepted() {
    let credentials = Credentials::new(&[41, 41, 41, 41], 41);
    assert_eq!(credentials.verify_credentials_size(42), Ok(()));
}

#[test]
fn key_symbol_at_the_bound_is_rejected() {
    let credentials = Credentials::new(&[1, 2, 42, 42], 5);
    assert_eq!(
        credentials.verify_credentials_size(42),
        Err(CipherError::KeyOutOfBounds(2, 42))
    );
    let first = Credentials::new(&[42, 0, 0, 0], 42);
    assert_eq!(
        first.verify_credentials_size(42),
        Err(CipherError::KeyOutOfBounds(0, 42))
    );
}

#[test]
fn iv_at_the_bound_is_rejected() {
    let credentials = Credentials::new(&[1, 2, 3, 4], 42);
    assert_eq!(
        credentials.verify_credentials_size(42),
        Err(CipherError::IVOutOfBounds(42))
    );
}

#[test]
fn nothing_fits_an_empty_table() {
    let credentials = Credentials::new(&[0, 0, 0, 0], 0);
    assert_eq!(
        credentials.verify_credentials_size(0),
        Err(CipherError::KeyOutOfBounds(0, 0))
    );
}

#[test]
fn bytes_are_read_from_decimal_strings() {
    assert_eq!(parse_byte(&chars("0")), Ok(0));
    assert_eq!(parse_byte(&chars("39")), Ok(39));
    assert_eq!(parse_byte(&chars("255")), Ok(255));
    assert_eq!(parse_byte(&chars("007")), Ok(7));
    assert_eq!(parse_byte(&chars("+5")), Ok(5));
    assert_eq!(parse_byte(&chars("0000000000000000000000000012")), Ok(12));
}

#[test]
fn bad_decimal_strings_are_rejected() {
    assert_eq!(parse_byte(&chars("")), Err(ParseFailure::Empty));
    assert_eq!(parse_byte(&chars("+")), Err(ParseFailure::InvalidDigit));
    assert_eq!(parse_byte(&chars("-")), Err(ParseFailure::InvalidDigit));
    assert_eq!(parse_byte(&chars("-5")), Err(ParseFailure::InvalidDigit));
    assert_eq!(parse_byte(&chars("1a")), Err(ParseFailure::InvalidDigit));
    assert_eq!(parse_byte(&chars(" 1")), Err(ParseFailure::InvalidDigit));
    assert_eq!(parse_byte(&chars("256")), Err(ParseFailure::Overflow));
    assert_eq!(parse_byte(&chars("99999999999999999999999")), Err(ParseFailure::Overflow));
    assert_eq!(parse_byte(&chars("999x")), Err(ParseFailure::InvalidDigit));
}

#[test]
fn credentials_are_read_from_strings() {
    let credentials = parse_credentials("25211840", "39").unwrap();
    assert_eq!(credentials, Credentials::new(&[25, 21, 18, 40], 39));
    let signed = parse_credentials("+1+2+3+4", "+0").unwrap();
    assert_eq!(signed, Credentials::new(&[1, 2, 3, 4], 0));
}

#[test]
fn key_string_of_the_wrong_length_is_rejected() {
    assert_eq!(parse_credentials("123456", "39"), Err(CipherError::InvalidKey));
    assert_eq!(parse_credentials("1234567890", "39"), Err(CipherError::InvalidKey));
    assert_eq!(parse_credentials("", "39"), Err(CipherError::InvalidKey));
    // seven digits do not split into four chunks of two
    assert_eq!(parse_credentials("2521184", "39"), Err(CipherError::InvalidKey));
    assert_eq!(parse_credentials("252118400", "39"), Err(CipherError::InvalidKey));
}

#[test]
fn key_string_with_a_bad_chunk_is_rejected() {
    assert_eq!(
        parse_credentials("12x45678", "39"),
        Err(CipherError::ParseIntError(ParseFailure::InvalidDigit))
    );
    // a bad chunk is found before the length is looked at
    assert_eq!(
        parse_credentials("12345678zz", "39"),
        Err(CipherError::ParseIntError(ParseFailure::InvalidDigit))
    );
    assert_eq!(
        parse_credentials("123456x", "39"),
        Err(CipherError::ParseIntError(ParseFailure::InvalidDigit))
    );
}

#[test]
fn bad_iv_string_is_rejected() {
    assert_eq!(
        parse_credentials("25211840", ""),
        Err(CipherError::ParseIntError(ParseFailure::Empty))
    );
    assert_eq!(
        parse_credentials("25211840", "256"),
        Err(CipherError::ParseIntError(ParseFailure::Overflow))
    );
    assert_eq!(
        parse_credentials("25211840", "3 9"),
        Err(CipherError::ParseIntError(ParseFailure::InvalidDigit))
    );
    // the key is looked at first
    assert_eq!(parse_credentials("2521", "x"), Err(CipherError::InvalidKey));
}
