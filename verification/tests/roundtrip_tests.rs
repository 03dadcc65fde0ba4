use tinystorm::cipher::{adjust_chunks, Cipher};
use tinystorm::encoding::EncodingType;
use tinystorm::error::{CipherError, ParseFailure};

#[test]
fn latin_v1_scenario() {
    let cipher = Cipher::new(&[25, 21, 18, 40], 39).unwrap();
    let ciphertext = cipher.encrypt("hello, world!").unwrap();
    assert_eq!(ciphertext, "yd 01xue3o47h.w8");
    let decrypted = cipher.decrypt(&ciphertext).unwrap();
    assert_eq!(decrypted, "hello, world!   ");
    assert_eq!(decrypted.trim(), "hello, world!");
}

#[test]
fn cipher_from_strings_equals_cipher_from_bytes() {
    let a = Cipher::from("25211840", "39").unwrap();
    let b = Cipher::new(&[25, 21, 18, 40], 39).unwrap();
    assert_eq!(a, b);
}

#[test]
fn aligned_text_gets_no_padding() {
    let cipher = Cipher::new(&[25, 21, 18, 40], 39).unwrap();
    let ciphertext = cipher.encrypt("abcd").unwrap();
    assert_eq!(ciphertext, ".0.g");
    assert_eq!(cipher.decrypt(&ciphertext).unwrap(), "abcd");
    let longer = cipher.encrypt("abcde").unwrap();
    assert_eq!(longer, ".0.gcro1");
    assert_eq!(cipher.decrypt(&longer).unwrap(), "abcde   ");
}

#[test]
fn empty_text_stays_empty() {
    let cipher = Cipher::new(&[25, 21, 18, 40], 39).unwrap();
    assert_eq!(cipher.encrypt("").unwrap(), "");
    assert_eq!(cipher.decrypt("").unwrap(), "");
}

#[test]
fn texts_of_full_blocks_round_trip_exactly() {
    let mut cipher = Cipher::new(&[25, 21, 18, 40], 39).unwrap();
    for text in ["", "abcd", "hello, world!?-.", "0123456789ab"] {
        let ciphertext = cipher.encrypt(text).unwrap();
        assert_eq!(cipher.decrypt(&ciphertext).unwrap(), text);
    }
    cipher.set_encoder(EncodingType::RUv5);
    for text in ["море", "привет, мир!"] {
        let ciphertext = cipher.encrypt(text).unwrap();
        assert_eq!(cipher.decrypt(&ciphertext).unwrap(), text);
    }
}

#[test]
fn built_in_tables_are_reversible() {
    let mut cipher = Cipher::new(&[25, 21, 18, 40], 39).unwrap();
    for kind in [EncodingType::ENv1, EncodingType::RUv4, EncodingType::RUv5, EncodingType::ENv2] {
        cipher.set_encoder(kind);
        assert!(cipher.encoder().check_codes_dense());
        assert!(cipher.encoder().check_reversible());
    }
    // the larger Latin table holds upper case, which folding would change
    assert!(!cipher.encoder().check_fold_stable());
    for kind in [EncodingType::ENv1, EncodingType::RUv4, EncodingType::RUv5] {
        cipher.set_encoder(kind);
        assert!(cipher.encoder().check_fold_stable());
    }
}

#[test]
fn round_trip_is_told_from_the_cipher() {
    let mut cipher = Cipher::new(&[25, 21, 18, 40], 39).unwrap();
    assert!(cipher.check_round_trip());
    cipher.set_encoder(EncodingType::RUv4);
    // 40 and 39 fit the table of 41 symbols
    assert!(cipher.check_round_trip());
    let too_large = Cipher::new(&[25, 21, 18, 42], 39).unwrap();
    assert!(!too_large.check_round_trip());
    let mut custom = Cipher::new(&[1, 1, 1, 1], 1).unwrap();
    custom.load_encoder(&[('a', 1), ('b', 0)], false).unwrap();
    assert!(!custom.check_round_trip());
    custom.load_encoder(&[('b', 0), ('a', 1)], false).unwrap();
    assert!(custom.check_round_trip());
}

#[test]
fn tables_that_do_not_invert_are_told_apart() {
    let mut cipher = Cipher::new(&[0, 0, 0, 0], 0).unwrap();
    // folding changes 'A'
    cipher.load_encoder(&[('A', 0), ('b', 1)], false).unwrap();
    assert!(!cipher.encoder().check_fold_stable());
    assert!(!cipher.encoder().check_reversible());
    // the same table is reversible where case is told apart
    cipher.load_encoder(&[('A', 0), ('b', 1)], true).unwrap();
    assert!(cipher.encoder().check_reversible());
    // codes that are not the positions
    cipher.load_encoder(&[('a', 1), ('b', 2), ('c', 3)], false).unwrap();
    assert!(cipher.encoder().check_fold_stable());
    assert!(!cipher.encoder().check_codes_dense());
    assert!(!cipher.encoder().check_reversible());
}

#[test]
fn round_trip_gives_the_text_and_its_padding() {
    let mut cipher = Cipher::new(&[25, 21, 18, 40], 39).unwrap();
    let latin = ["", "a", "ab", "abc", "abcd", "abcde", "a b, c.d!e?f-g", "0123456789"];
    let cyrillic = ["", "я", "да", "мир", "море", "привет, мир!", "ёж - 7.5?"];
    let mixed_case = ["A", "aB", "Buzzy fuzz!", "X+Y@Z", "abcdEFGH"];
    for (kind, texts) in [
        (EncodingType::ENv1, &latin[..]),
        (EncodingType::ENv2, &latin[..]),
        (EncodingType::ENv2, &mixed_case[..]),
        (EncodingType::RUv5, &cyrillic[..]),
    ] {
        cipher.set_encoder(kind);
        for text in texts.iter().copied() {
            let ciphertext = cipher.encrypt(text).unwrap();
            let decrypted = cipher.decrypt(&ciphertext).unwrap();
            let padding = (4 - text.chars().count() % 4) % 4;
            assert_eq!(ciphertext.chars().count(), text.chars().count() + padding);
            assert_eq!(decrypted, format!("{}{}", text, " ".repeat(padding)));
        }
    }
}

#[test]
fn folded_and_dropped_characters_do_not_come_back() {
    let cipher = Cipher::new(&[25, 21, 18, 40], 39).unwrap();
    let ciphertext = cipher.encrypt("HeLLo, World! #").unwrap();
    assert_eq!(ciphertext, "yd 01xue3o47h.w8");
    assert_eq!(cipher.decrypt(&ciphertext).unwrap().trim(), "hello, world!");
}

#[test]
fn trailing_partial_block_is_left_alone_on_decrypt() {
    let cipher = Cipher::new(&[25, 21, 18, 40], 39).unwrap();
    assert_eq!(cipher.decrypt("abcde").unwrap(), "o!k?e");
    assert_eq!(cipher.decrypt("abc").unwrap(), "abc");
    assert_eq!(cipher.decrypt("").unwrap(), "");
}

#[test]
fn raw_buffers_round_trip() {
    let cipher = Cipher::new(&[25, 21, 18, 40], 39).unwrap();
    let mut buffer = vec![1u8, 2, 3, 4, 5, 6, 7, 8, 9];
    cipher.encrypt_raw(&mut buffer);
    assert_eq!(buffer, vec![37, 27, 37, 7, 30, 31, 15, 7, 9]);
    cipher.decrypt_raw(&mut buffer);
    assert_eq!(buffer, vec![1, 2, 3, 4, 5, 6, 7, 8, 9]);
    let mut short = vec![1u8, 2, 3];
    cipher.encrypt_raw(&mut short);
    assert_eq!(short, vec![1, 2, 3]);
    cipher.decrypt_raw(&mut short);
    assert_eq!(short, vec![1, 2, 3]);
}

#[test]
fn padding_fills_up_to_the_next_block() {
    let mut one = vec![9u8];
    adjust_chunks(&mut one, 1);
    assert_eq!(one, vec![9, 0, 0, 0]);
    let mut three = vec![9u8, 8, 7];
    adjust_chunks(&mut three, 3);
    assert_eq!(three, vec![9, 8, 7, 0]);
    let mut aligned = vec![1u8, 2, 3, 4];
    adjust_chunks(&mut aligned, 0);
    assert_eq!(aligned, vec![1, 2, 3, 4]);
    let mut empty: Vec<u8> = Vec::new();
    adjust_chunks(&mut empty, 0);
    assert!(empty.is_empty());
}

#[test]
fn raw_key_of_the_wrong_length_is_rejected() {
    assert_eq!(Cipher::new(&[1, 2, 3], 4), Err(CipherError::InvalidKey));
    assert_eq!(Cipher::new(&[1, 2, 3, 4, 5], 4), Err(CipherError::InvalidKey));
    assert_eq!(Cipher::new(&[], 4), Err(CipherError::InvalidKey));
}

#[test]
fn strings_that_are_no_credentials_are_rejected() {
    assert_eq!(Cipher::from("252118", "39"), Err(CipherError::InvalidKey));
    assert_eq!(
        Cipher::from("2521184o", "39"),
        Err(CipherError::ParseIntError(ParseFailure::InvalidDigit))
    );
    assert_eq!(
        Cipher::from("25211840", "300"),
        Err(CipherError::ParseIntError(ParseFailure::Overflow))
    );
}

#[test]
fn credentials_are_held_against_the_table_in_use() {
    // 69 fits the larger Latin table only
    let mut cipher = Cipher::new(&[1, 69, 3, 4], 5).unwrap();
    assert_eq!(cipher.encrypt("abc"), Err(CipherError::KeyOutOfBounds(1, 42)));
    assert_eq!(cipher.decrypt("abc"), Err(CipherError::KeyOutOfBounds(1, 42)));
    cipher.set_encoder(EncodingType::ENv2);
    assert!(cipher.encrypt("abc").is_ok());
    assert!(cipher.decrypt("abcd").is_ok());
}

#[test]
fn values_at_the_table_size_are_rejected_and_one_below_accepted() {
    let at_size = Cipher::new(&[42, 1, 1, 1], 1).unwrap();
    assert_eq!(at_size.encrypt("a"), Err(CipherError::KeyOutOfBounds(0, 42)));
    let last_at_size = Cipher::new(&[1, 1, 1, 42], 1).unwrap();
    assert_eq!(last_at_size.encrypt("a"), Err(CipherError::KeyOutOfBounds(3, 42)));
    let iv_at_size = Cipher::new(&[1, 1, 1, 1], 42).unwrap();
    assert_eq!(iv_at_size.encrypt("a"), Err(CipherError::IVOutOfBounds(42)));
    assert_eq!(iv_at_size.decrypt("a"), Err(CipherError::IVOutOfBounds(42)));
    let below = Cipher::new(&[41, 41, 41, 41], 41).unwrap();
    let ciphertext = below.encrypt("abc").unwrap();
    assert_eq!(ciphertext, "gejd");
    assert_eq!(below.decrypt(&ciphertext).unwrap(), "abc ");
}

#[test]
fn custom_table_round_trip() {
    let mut cipher = Cipher::new(&[1, 2, 0, 1], 2).unwrap();
    cipher.load_encoder(&[('a', 0), ('b', 1), ('c', 2)], false).unwrap();
    let ciphertext = cipher.encrypt("abcabc").unwrap();
    assert_eq!(ciphertext, "ccabaabc");
    assert_eq!(cipher.decrypt(&ciphertext).unwrap(), "abcabcaa");
}

#[test]
fn malformed_custom_table_leaves_the_cipher_as_it_was() {
    let mut cipher = Cipher::new(&[25, 21, 18, 40], 39).unwrap();
    assert_eq!(
        cipher.load_encoder(&[('a', 0), ('a', 1)], false),
        Err(CipherError::MalformedEncoding)
    );
    assert_eq!(cipher.encrypt("hello, world!").unwrap(), "yd 01xue3o47h.w8");
}

#[test]
fn error_messages() {
    assert_eq!(CipherError::InvalidKey.message(), "Invalid Key");
    assert_eq!(CipherError::InvalidIV.message(), "Invalid IV");
    assert_eq!(
        CipherError::MalformedEncoding.message(),
        "Malformed encoding: each character must be unique"
    );
    assert_eq!(CipherError::IVOutOfBounds(42).message(), "IV must be within 42");
    assert_eq!(CipherError::IVOutOfBounds(7).message(), "IV must be within 7");
    assert_eq!(
        CipherError::KeyOutOfBounds(3, 255).message(),
        "Key chunk 3 out of bounds: 255"
    );
    assert_eq!(
        CipherError::KeyOutOfBounds(0, 100).message(),
        "Key chunk 0 out of bounds: 100"
    );
    assert_eq!(
        CipherError::ParseIntError(ParseFailure::Empty).message(),
        "cannot parse integer from empty string"
    );
    assert_eq!(
        CipherError::ParseIntError(ParseFailure::InvalidDigit).message(),
        "invalid digit found in string"
    );
    assert_eq!(
        CipherError::ParseIntError(ParseFailure::Overflow).message(),
        "number too large to fit in target type"
    );
}
