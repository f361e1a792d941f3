//! Ids as they are given on a command line or on standard input.

use opentelemetry_traceable::stylus::codec::{decode, encode};
use opentelemetry_traceable::stylus::ids::{encode_listed, parse_ids, IdError};

#[test]
fn encode_ids_prints_a_non_empty_string() {
    let text = encode(&mut [1, 5, 9]);
    assert!(!text.trim().is_empty());
}

#[test]
fn encode_ids_round_trips_and_is_order_independent() {
    let ascending = encode(&mut [1, 5, 9]);
    let shuffled = encode(&mut [9, 1, 5]);

    // Encoding sorts, so order in doesn't change the output.
    assert_eq!(ascending.trim(), shuffled.trim());
    assert_eq!(decode(ascending.trim()).unwrap(), vec![1, 5, 9]);
}

#[test]
fn encode_reads_ids_from_stdin_when_flag_omitted() {
    let from_args = encode(&mut [1, 2, 3]);
    let from_stdin = encode_listed("1\n2\n3\n").unwrap();

    assert_eq!(from_args.trim(), from_stdin.trim());
}

#[test]
fn encode_rejects_non_numeric_ids() {
    let invalid = encode_listed("not-a-number").unwrap_err();
    assert_eq!(invalid.word, "not-a-number");
    assert_eq!(invalid.error, IdError::InvalidDigit);
    assert_eq!(
        invalid.message(),
        "invalid id `not-a-number`: invalid digit found in string"
    );
}

#[test]
fn ids_are_separated_by_any_white_space() {
    assert_eq!(parse_ids("  7\t+8 \r\n 9\u{2003}10 ").unwrap(), vec![7, 8, 9, 10]);
    assert_eq!(parse_ids(" \n ").unwrap(), Vec::<u64>::new());
    assert_eq!(parse_ids("").unwrap(), Vec::<u64>::new());
}

#[test]
fn the_first_word_that_is_no_id_is_reported() {
    let invalid = parse_ids("1 2x 3y").unwrap_err();
    assert_eq!(invalid.word, "2x");
    assert_eq!(invalid.error, IdError::InvalidDigit);
    assert_eq!(parse_ids("+").unwrap_err().error, IdError::InvalidDigit);
    assert_eq!(parse_ids("-1").unwrap_err().error, IdError::InvalidDigit);
}

#[test]
fn an_id_has_64_bits() {
    assert_eq!(parse_ids("18446744073709551615").unwrap(), vec![u64::MAX]);
    let invalid = parse_ids("18446744073709551616").unwrap_err();
    assert_eq!(invalid.error, IdError::TooLarge);
    assert_eq!(
        invalid.message(),
        "invalid id `18446744073709551616`: number too large to fit in target type"
    );
}

#[test]
fn words_are_numbers_just_where_the_standard_library_says_so() {
    for word in ["0", "007", "+5", "++5", "5+", "9999999999999999999", "99999999999999999999", "1_0", "٣"] {
        let ours = parse_ids(word);
        match word.parse::<u64>() {
            Ok(id) => assert_eq!(ours.unwrap(), vec![id]),
            Err(error) => assert_eq!(ours.unwrap_err().error.message(), error.to_string()),
        }
    }
}
