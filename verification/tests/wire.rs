//! The wire formats, byte for byte.

use base64::engine::general_purpose::URL_SAFE_NO_PAD;
use base64::Engine as _;
use opentelemetry_traceable::stylus::codec::{self, decode, encode, ids_from_gaps};
use opentelemetry_traceable::stylus::subset::{self, Size};
use opentelemetry_traceable::stylus::url_base64::Base64Error;

#[test]
fn a_list_of_ids_has_one_text() {
    assert_eq!(encode(&mut [300]), "rAI");
    assert_eq!(encode(&mut [0]), "AA");
    assert_eq!(encode(&mut [1, 128, 1000]), "AX_oBg");
    assert_eq!(encode(&mut [u64::MAX]), "____________AQ");
    assert_eq!(decode("rAI").unwrap(), vec![300]);
    assert_eq!(decode("AX_oBg").unwrap(), vec![1, 128, 1000]);
    assert_eq!(decode("____________AQ").unwrap(), vec![u64::MAX]);
}

#[test]
fn encoding_sorts_the_list_it_is_given() {
    let mut ids = [9, 1, 5, 1];
    let text = encode(&mut ids);
    assert_eq!(ids, [1, 1, 5, 9]);
    assert_eq!(decode(&text).unwrap(), ids.to_vec());
}

#[test]
fn different_lists_have_different_texts() {
    let lists: Vec<Vec<u64>> = vec![vec![], vec![0], vec![0, 0], vec![1], vec![0, 1], vec![1, 1], vec![128]];
    for a in &lists {
        for b in &lists {
            assert_eq!(encode(&mut a.clone()) == encode(&mut b.clone()), a == b);
        }
    }
}

#[test]
fn numbers_may_be_longer_than_they_need_to_be() {
    assert_eq!(ids_from_gaps(&[0x80, 0x00]).unwrap(), vec![0]);
    assert_eq!(ids_from_gaps(&[0x85, 0x80, 0x00, 0x02]).unwrap(), vec![5, 7]);
}

#[test]
fn numbers_that_end_too_early_or_do_not_fit_are_refused() {
    let leb128 = codec::DecodeError::Leb128;
    assert_eq!(ids_from_gaps(&[0x80]).unwrap_err(), leb128);
    assert_eq!(ids_from_gaps(&[0x01, 0xff, 0xff]).unwrap_err(), leb128);
    assert_eq!(
        ids_from_gaps(&[0xff, 0xff, 0xff, 0xff, 0xff, 0xff, 0xff, 0xff, 0xff, 0x02]).unwrap_err(),
        leb128
    );
    assert_eq!(
        ids_from_gaps(&[0x80, 0x80, 0x80, 0x80, 0x80, 0x80, 0x80, 0x80, 0x80, 0x80, 0x00])
            .unwrap_err(),
        leb128
    );
    assert_eq!(decode("gA").unwrap_err(), leb128);
    assert_eq!(leb128.message(), "malformed LEB128 delta stream");
}

#[test]
fn ids_that_add_up_to_too_much_are_refused() {
    let text = URL_SAFE_NO_PAD
        .encode([0xff, 0xff, 0xff, 0xff, 0xff, 0xff, 0xff, 0xff, 0xff, 0x01, 0x01]);
    let error = decode(&text).unwrap_err();
    assert_eq!(error, codec::DecodeError::Overflow);
    assert_eq!(error.message(), "decoded ids overflow u64");
}

#[test]
fn texts_that_are_not_base64_are_refused_with_the_reason() {
    let cases = [
        ("not valid base64!!", Base64Error::InvalidByte { offset: 3, byte: b' ' }),
        ("A+B/", Base64Error::InvalidByte { offset: 1, byte: b'+' }),
        ("A", Base64Error::InvalidLength { symbols: 1 }),
        ("AB", Base64Error::InvalidLastSymbol { offset: 1, byte: b'B' }),
        ("AA==", Base64Error::InvalidPadding),
    ];
    for (text, error) in cases {
        let reason = URL_SAFE_NO_PAD.decode(text).unwrap_err().to_string();
        let refused = decode(text).unwrap_err();
        assert_eq!(refused, codec::DecodeError::Base64(error), "{text}");
        assert_eq!(refused.message(), format!("invalid base64: {reason}"));
        let refused = subset::contains(text, "x").unwrap_err();
        assert_eq!(refused, subset::DecodeError::Base64(error), "{text}");
        assert_eq!(refused.message(), format!("invalid base64: {reason}"));
    }
}

#[test]
fn ids_are_fnv_1a_hashes() {
    assert_eq!(subset::id_of(""), 0xcbf2_9ce4_8422_2325);
    assert_eq!(subset::id_of("a"), 0xaf63_dc4c_8601_ec8c);
    assert_eq!(subset::id_of("foobar"), 0x8594_4171_f739_67e8);
    assert_ne!(subset::id_of("é"), subset::id_of("e"));
}

#[test]
fn a_filter_has_one_text() {
    // Eight bits, one round; id 0 sets the first bit and id 3 the fourth.
    let size = Size { m: 8, k: 1 };
    assert_eq!(subset::encode_ids(&vec![0], size), URL_SAFE_NO_PAD.encode([8, 0, 0, 0, 1, 0x01]));
    assert_eq!(
        subset::encode_ids(&vec![3, 0], size),
        URL_SAFE_NO_PAD.encode([8, 0, 0, 0, 1, 0x09])
    );
    // 0x102 bits, two rounds; the halves of the id are 5 and 0x102 + 7.
    let id = 5 + ((0x102 + 7) << 32);
    let mut bytes = vec![0x02, 0x01, 0, 0, 2];
    bytes.extend([0u8; 33]);
    bytes[5] |= 1 << 5;
    bytes[5 + 1] |= 1 << 4;
    assert_eq!(subset::encode_ids(&vec![id], Size { m: 0x102, k: 2 }), URL_SAFE_NO_PAD.encode(&bytes));
}

#[test]
fn a_filter_does_not_depend_on_the_order_of_its_ids() {
    let size = Size { m: 100, k: 3 };
    let one = subset::encode(&["a", "b", "c"], size);
    assert_eq!(one, subset::encode(&["c", "a", "b", "a"], size));
    assert_eq!(one, subset::encode_ids(&["b", "c", "a"].map(subset::id_of).to_vec(), size));
}

#[test]
fn every_id_is_in_the_filter_of_everything() {
    assert_eq!(subset::encode_all(), "CAAAAAH_");
    for id in [0, 1, 7, 8, 0xffff_ffff, 0x1234_5678_9abc_def0, u64::MAX] {
        assert!(subset::contains_id(&subset::encode_all(), id).unwrap());
    }
    assert!(subset::contains(&subset::encode_all(), "anything").unwrap());
}

#[test]
fn a_position_wraps_around_as_32_bit_numbers_do() {
    let id = 0xffff_fff0_ffff_fff0;
    let blob = subset::encode_ids(&vec![id], Size { m: 1021, k: 5 });
    assert!(subset::contains_id(&blob, id).unwrap());
    let filter = subset::decode(&blob).unwrap();
    for round in 0u32..5 {
        let at = 0xffff_fff0u32.wrapping_add(round.wrapping_mul(0xffff_fff0)) % 1021;
        assert_eq!(filter.bits[at as usize / 8] >> (at % 8) & 1, 1);
    }
    let set: u32 = filter.bits.iter().map(|byte| byte.count_ones()).sum();
    assert!((1..=5).contains(&set));
}

#[test]
fn a_filter_that_is_cut_off_or_too_long_is_refused() {
    let truncated = subset::decode(&URL_SAFE_NO_PAD.encode([8, 0, 0, 0])).unwrap_err();
    assert_eq!(truncated, subset::DecodeError::Truncated);
    assert_eq!(truncated.message(), "blob is shorter than its header claims");
    let short = subset::decode(&URL_SAFE_NO_PAD.encode([0x61, 0, 0, 0, 1, 0xff])).unwrap_err();
    assert_eq!(short, subset::DecodeError::LengthMismatch { expected: 13, actual: 1 });
    assert_eq!(
        short.message(),
        "blob bit-array length mismatch: header implies 13 bytes, got 1"
    );
    let long = subset::decode(&URL_SAFE_NO_PAD.encode([8, 0, 0, 0, 1, 0xff, 0xff])).unwrap_err();
    assert_eq!(long, subset::DecodeError::LengthMismatch { expected: 1, actual: 2 });
}

#[test]
fn a_filter_without_bits_is_refused_unless_it_has_no_rounds() {
    let bitless = URL_SAFE_NO_PAD.encode([0, 0, 0, 0, 1]);
    assert_eq!(bitless, "AAAAAAE");
    let truncated = subset::DecodeError::Truncated;
    assert_eq!(subset::decode(&bitless).unwrap_err(), truncated);
    assert_eq!(subset::contains_id(&bitless, 0).unwrap_err(), truncated);
    assert_eq!(subset::contains(&bitless, "anything").unwrap_err(), truncated);
    let long = subset::decode(&URL_SAFE_NO_PAD.encode([0, 0, 0, 0, 1, 0xff])).unwrap_err();
    assert_eq!(long, subset::DecodeError::LengthMismatch { expected: 0, actual: 1 });
    let roundless = subset::decode(&URL_SAFE_NO_PAD.encode([0, 0, 0, 0, 0])).unwrap();
    assert!(roundless.contains_id(12));
}

#[test]
fn sizes_keep_within_their_bounds() {
    assert_eq!(subset::bit_count(0, 1000), 8);
    assert_eq!(subset::bit_count(3, 7), 8);
    assert_eq!(subset::bit_count(3, 1000), 1000);
    assert_eq!(subset::round_count(0, 9), 1);
    assert_eq!(subset::round_count(3, 0), 1);
    assert_eq!(subset::round_count(3, 9), 9);
    assert_eq!(subset::round_count(3, 200), 32);
}
