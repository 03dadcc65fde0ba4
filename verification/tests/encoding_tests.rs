use tinystorm::encoding::{check_for_malformed_encoding, Encoder, Encoding, EncodingType};
use tinystorm::error::CipherError;

#[test]
fn built_in_tables_have_their_sizes() {
    assert_eq!(Encoder::new(EncodingType::ENv1).size(), 42);
    assert_eq!(Encoder::new(EncodingType::ENv2).size(), 70);
    assert_eq!(Encoder::new(EncodingType::RUv4).size(), 41);
    assert_eq!(Encoder::new(EncodingType::RUv5).size(), 51);
}

#[test]
fn latin_v1_codes() {
    let encoder = Encoder::new(EncodingType::ENv1);
    assert_eq!(encoder.encode(" az09.,!?-"), vec![0, 1, 26, 27, 36, 37, 38, 39, 40, 41]);
    assert_eq!(encoder.decode(&[8, 5, 12, 12, 15]), "hello");
}

#[test]
fn cyrillic_tables_differ_in_order() {
    let old = Encoder::new(EncodingType::RUv4);
    let new = Encoder::new(EncodingType::RUv5);
    assert_eq!(old.encode("опт@"), vec![19, 16, 17, 40]);
    assert_eq!(new.encode("опт@"), vec![16, 17, 20, 50]);
    assert_eq!(old.encode("7"), Vec::<u8>::new());
    assert_eq!(new.encode("7"), vec![41]);
}

#[test]
fn upper_case_is_folded_unless_the_table_holds_it() {
    let folding = Encoder::new(EncodingType::ENv1);
    assert_eq!(folding.encode("HeLLo"), folding.encode("hello"));
    assert_eq!(folding.encode("HeLLo"), vec![8, 5, 12, 12, 15]);
    let cyrillic = Encoder::new(EncodingType::RUv5);
    assert_eq!(cyrillic.encode("ПРИВЕТ"), cyrillic.encode("привет"));
    assert_eq!(cyrillic.encode("ПРИВЕТ").len(), 6);
    let exact = Encoder::new(EncodingType::ENv2);
    assert_eq!(exact.encode("Hh"), vec![34, 8]);
}

#[test]
fn unknown_characters_and_codes_are_left_out() {
    let encoder = Encoder::new(EncodingType::ENv1);
    assert_eq!(encoder.encode("a#b@c"), vec![1, 2, 3]);
    assert_eq!(encoder.decode(&[1, 42, 2, 255, 3]), "abc");
    assert_eq!(encoder.encode(""), Vec::<u8>::new());
    assert_eq!(encoder.decode(&[]), "");
}

#[test]
fn single_characters_and_codes() {
    let encoder = Encoder::new(EncodingType::ENv1);
    assert_eq!(encoder.encode_char('a'), Some(1));
    assert_eq!(encoder.encode_char('A'), None);
    assert_eq!(encoder.decode_char(0), Some(' '));
    assert_eq!(encoder.decode_char(41), Some('-'));
    assert_eq!(encoder.decode_char(42), None);
}

#[test]
fn table_with_a_repeated_character_is_rejected() {
    let table = Encoding::new_unchecked(&[('a', 0), ('b', 1), ('a', 2)]);
    assert_eq!(Encoder::load(table, false), Err(CipherError::MalformedEncoding));
    assert!(!check_for_malformed_encoding(&[('a', 0), ('b', 1), ('a', 2)]));
    assert!(!check_for_malformed_encoding(&[('x', 0), ('x', 1)]));
}

#[test]
fn table_of_distinct_characters_is_accepted() {
    let table = Encoding::new_unchecked(&[('a', 0), ('b', 1), ('c', 2), ('d', 3), ('e', 4)]);
    let encoder = Encoder::load(table, true).unwrap();
    assert_eq!(encoder.size(), 5);
    assert_eq!(encoder.encode("edcba"), vec![4, 3, 2, 1, 0]);
    assert!(check_for_malformed_encoding(&[('a', 0), ('b', 1), ('c', 2)]));
    assert!(check_for_malformed_encoding(&[]));
    // codes may repeat: only characters are looked at
    assert!(check_for_malformed_encoding(&[('a', 1), ('b', 1)]));
}

#[test]
fn empty_table_is_accepted() {
    let encoder = Encoder::load(Encoding::new_unchecked(&[]), false).unwrap();
    assert_eq!(encoder.size(), 0);
    assert_eq!(encoder.encode("abc"), Vec::<u8>::new());
}

#[test]
fn first_entry_wins_where_codes_repeat() {
    let table = Encoding::new_unchecked(&[('a', 1), ('b', 1)]);
    let encoder = Encoder::load(table, true).unwrap();
    assert_eq!(encoder.decode(&[1, 1]), "aa");
    assert_eq!(encoder.encode("ab"), vec![1, 1]);
}
