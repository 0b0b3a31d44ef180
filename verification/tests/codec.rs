use hashid_stack::bytevec::ByteVec;
use hashid_stack::hash::BV_L_D;
use hashid_stack::prelude::{DecodeErr, HashID, IdString, Normal, B32, B64, QR};
use hashid_stack::variants::{HashId, HashIdB32, HashIdB64, HashIdDefault, HashIdQr};

const SALT: &[u8; 15] = b"this is my salt";
const MAX7: [u64; 7] = [9223372036854775807; 7];

#[test]
fn known_ids_of_the_general_alphabet() {
    let codec = HashIdDefault::with_salt(SALT);
    assert_eq!(codec.encode(&[1, 2, 3]).as_str(), "laHquq");
    assert_eq!(codec.encode(&[1000, 2000, 3000, 4000]).as_str(), "On1FmmnI3N9trrn");
    assert_eq!(codec.encode(&[5]).as_str(), "rD");
    assert_eq!(codec.encode(&[0]).as_str(), "5x");
    assert_eq!(codec.encode(&[u64::MAX]).as_str(), "zXVjmzBamYlqX");
}

#[test]
fn known_ids_without_a_salt() {
    assert_eq!(HashIdDefault::with_salt(b"").encode(&[1, 2, 3]).as_str(), "o2fXhV");
    assert_eq!(HashIdQr::with_salt(b"").encode(&[1, 2, 3]).as_str(), "A6F6H/");
    assert_eq!(HashIdB64::with_salt(b"").encode(&[1, 2, 3]).as_str(), "OMFdHm");
    assert_eq!(HashIdB32::with_salt(b"").encode(&[1, 2, 3]).as_str(), "NOFQHP");
}

#[test]
fn known_ids_of_the_other_alphabets() {
    assert_eq!(HashIdQr::with_salt(SALT).encode(&[1, 2, 3]).as_str(), "KPHEIP");
    assert_eq!(HashIdQr::with_salt(SALT).encode(&[1000, 2000, 3000, 4000]).as_str(), "X*5SBZ*H36GTB:D");
    assert_eq!(HashIdB64::with_salt(SALT).encode(&[1, 2, 3]).as_str(), "LpCOF6");
    assert_eq!(HashIdB64::with_salt(SALT).encode(&[1000, 2000, 3000, 4000]).as_str(), "oQ1UMMkFN9phRR9");
    assert_eq!(HashIdB32::with_salt(SALT).encode(&[1, 2, 3]).as_str(), "L6HEIX");
    assert_eq!(HashIdB32::with_salt(SALT).encode(&[1000, 2000, 3000, 4000]).as_str(), "7G26SVDAIW3JFL5Z");
}

#[test]
fn scenarios_with_the_salt_1_2_3_4() {
    let codec = HashIdDefault::with_salt(b"1 2 3 4");
    assert_eq!(codec.encode(&[1]).as_str(), "rl");
    assert_eq!(codec.decode_fast::<1>(b"rl"), Ok([1]));
    assert_eq!(codec.encode(&[1, 2]).as_str(), "dES4");
    assert_eq!(codec.decode_fast::<2>(b"dES4"), Ok([1, 2]));
    assert_eq!(codec.encode(&[1, 2, 3, 4]).as_str(), "jZSBHps7");
    assert_eq!(codec.decode_fast::<4>(b"jZSBHps7"), Ok([1, 2, 3, 4]));
    let long = codec.encode(&MAX7);
    assert_eq!(
        long.as_str(),
        "vO7AqlL4bkgLOi48oDJ10mKB14h5EQR6gW8NDg5TKbe1N06rJo0KTZoq69DWMgQDZTgrRNmdEX79dgIo1BQnMO3kDMo"
    );
    assert_eq!(codec.decode_fast::<7>(long.as_str().as_bytes()), Ok(MAX7));
    assert_eq!(codec.decode::<7>(long.as_str().as_bytes()), Ok(MAX7));
}

#[test]
fn no_values_give_the_empty_id() {
    assert_eq!(HashIdDefault::with_salt(b"").encode(&[]).as_str(), "");
    assert_eq!(HashIdQr::with_salt(b"   ").encode(&[]).as_str(), "");
    assert_eq!(HashIdB64::with_salt(SALT).encode(&[]).as_str(), "");
    assert_eq!(HashIdB32::with_salt(SALT).encode(&[]).as_str(), "");
    assert_eq!(HashIdDefault::with_salt_and_len(SALT, Some(30)).encode(&[]).as_str(), "");
    assert_eq!(HashIdDefault::with_salt(SALT).encode_inner(&[]), None);
    assert!(HashIdDefault::with_salt(SALT).encode_buf(&[]).is_none());
}

#[test]
fn padded_ids_have_the_minimum_length() {
    let expected: [(usize, &str); 9] = [
        (5, "laHquq"),
        (10, "2GlaHquq0Y"),
        (20, "B4lM12GlaHquq0Yx7qeD"),
        (44, "OwpQPKkr5n9NB4lM12GlaHquq0Yx7qeDL6WXmzJbj8ag"),
        (47, "RvOwpQPKkr5n9NB4lM12GlaHquq0Yx7qeDL6WXmzJbj8agV"),
        (48, "RvOwpQPKkr5n9NB4lM12GlaHquq0Yx7qeDL6WXmzJbj8agVo"),
        (49, "ZRvOwpQPKkr5n9NB4lM12GlaHquq0Yx7qeDL6WXmzJbj8agVo"),
        (93, "ZRvOwpQPKkr5n9NB4lM123ZRvOwpQPKkr5n9NB4lM12GlaHquq0Yx7qeDL6WXmzJbj8agVoEyYx7qeDL6WXmzJbj8agVo"),
        (100, "123ZRvOwpQPKkr5n9NB4lM123ZRvOwpQPKkr5n9NB4lM12GlaHquq0Yx7qeDL6WXmzJbj8agVoEyYx7qeDL6WXmzJbj8agVoEyYx"),
    ];
    for (min_len, id) in expected {
        let codec = HashIdDefault::with_salt_and_len(SALT, Some(min_len));
        let made = codec.encode(&[1, 2, 3]);
        assert_eq!(made.as_str(), id);
        assert!(made.as_str().len() >= min_len);
        assert_eq!(codec.decode_fast::<3>(id.as_bytes()), Ok([1, 2, 3]));
        assert_eq!(codec.decode::<3>(id.as_bytes()), Ok([1, 2, 3]));
    }
}

#[test]
fn a_guard_in_front_is_enough_for_one_byte_more() {
    let codec = HashIdDefault::with_salt_and_len(SALT, Some(7));
    assert_eq!(codec.encode(&[1, 2, 3]).as_str(), "GlaHquq");
    assert_eq!(codec.decode::<3>(b"GlaHquq"), Ok([1, 2, 3]));
    let codec = HashIdDefault::with_salt_and_len(SALT, Some(8));
    assert_eq!(codec.encode(&[1, 2, 3]).as_str(), "GlaHquq0");
    assert_eq!(codec.decode::<3>(b"GlaHquq0"), Ok([1, 2, 3]));
}

#[test]
fn padded_ids_of_every_alphabet() {
    let values = [7, 8, 9];
    let codec = HashIdDefault::with_salt_and_len(b"1 2 3 4", Some(30));
    assert_eq!(codec.encode(&values).as_str(), "vJD1LNgOYlQz69TyiR23w8PK6yZ4RE");
    assert_eq!(codec.decode::<3>(b"vJD1LNgOYlQz69TyiR23w8PK6yZ4RE"), Ok(values));
    let codec = HashIdQr::with_salt_and_len(b"1 2 3 4", Some(30));
    assert_eq!(codec.encode(&values).as_str(), "VM2Y1ZWDB$/N+LUMTA-:G6+947EXAP");
    assert_eq!(codec.decode::<3>(b"VM2Y1ZWDB$/N+LUMTA-:G6+947EXAP"), Ok(values));
    let codec = HashIdB64::with_salt_and_len(b"1 2 3 4", Some(30));
    assert_eq!(codec.encode(&values).as_str(), "a1qRV8d6j3MZ6RtDSNZG7EDwbJkyNP");
    assert_eq!(codec.decode::<3>(b"a1qRV8d6j3MZ6RtDSNZG7EDwbJkyNP"), Ok(values));
    let codec = HashIdB32::with_salt_and_len(b"1 2 3 4", Some(30));
    assert_eq!(codec.encode(&values).as_str(), "5LBVNYOE2KM6OJURTGPX4ARJWQ3DG7");
    assert_eq!(codec.decode::<3>(b"5LBVNYOE2KM6OJURTGPX4ARJWQ3DG7"), Ok(values));
}

#[test]
fn padding_wraps_the_small_alphabet_more_than_once() {
    let codec = HashIdB32::with_salt_and_len(b"abc", Some(25));
    assert_eq!(codec.encode(&[1]).as_str(), "D3MLXPZWQG5O2JORJ62EKBA4Y");
    assert_eq!(codec.encode(&[22]).as_str(), "4RZJGLD7EQNK62N265Y3BXPWA");
    assert_eq!(codec.encode(&[1, 2]).as_str(), "YXKGMPZ3AJOQPT4VR542LW7BD");
    assert_eq!(codec.decode::<1>(b"D3MLXPZWQG5O2JORJ62EKBA4Y"), Ok([1]));
    assert_eq!(codec.decode::<2>(b"YXKGMPZ3AJOQPT4VR542LW7BD"), Ok([1, 2]));
    let codec = HashIdB32::with_salt_and_len(b"abc", Some(200));
    let id = codec.encode(&[1, 2]);
    assert_eq!(id.as_str().len(), 200);
    assert_eq!(codec.decode::<2>(id.as_str().as_bytes()), Ok([1, 2]));
}

#[test]
fn a_minimum_length_of_zero_asks_for_nothing() {
    let plain = HashIdDefault::with_salt(SALT);
    let zero = HashIdDefault::with_salt_and_len(SALT, Some(0));
    let none = HashIdDefault::with_salt_and_len(SALT, None);
    assert_eq!(zero.encode(&[1, 2, 3]).as_str(), plain.encode(&[1, 2, 3]).as_str());
    assert_eq!(none.encode(&[1, 2, 3]).as_str(), "laHquq");
}

#[test]
fn another_arity_is_refused() {
    let codec = HashIdDefault::with_salt(SALT);
    assert_eq!(codec.decode_fast::<3>(b"laHquq"), Ok([1, 2, 3]));
    assert_eq!(codec.decode_fast::<2>(b"laHquq"), Err(DecodeErr::TooMany));
    assert_eq!(codec.decode_fast::<0>(b"laHquq"), Err(DecodeErr::TooMany));
    assert_eq!(codec.decode_fast::<4>(b"laHquq"), Err(DecodeErr::TooFew));
    assert_eq!(codec.decode::<2>(b"laHquq"), Err(DecodeErr::TooMany));
    assert_eq!(codec.decode::<4>(b"laHquq"), Err(DecodeErr::TooFew));
}

#[test]
fn a_changed_byte_fails_the_checked_decoding() {
    let codec = HashIdDefault::with_salt(SALT);
    assert_eq!(codec.decode::<3>(b"laHquq"), Ok([1, 2, 3]));
    // A changed lottery symbol still parses, to other values.
    assert_eq!(codec.decode_fast::<3>(b"aaHquq"), Ok([40, 37, 12]));
    assert_eq!(codec.decode::<3>(b"aaHquq"), Err(DecodeErr::Hash));
    assert_eq!(codec.decode_fast::<3>(b"baHquq"), Ok([1, 2, 23]));
    assert_eq!(codec.decode::<3>(b"baHquq"), Err(DecodeErr::Hash));
    // No change of one byte to another symbol of the alphabet is accepted.
    let id = *b"laHquq";
    for at in 0..id.len() {
        for symbol in HashIdDefault::alph() {
            if *symbol != id[at] {
                let mut changed = id;
                changed[at] = *symbol;
                assert_ne!(codec.decode::<3>(&changed), Ok([1, 2, 3]));
                assert!(codec.decode::<3>(&changed).is_err());
            }
        }
    }
}

#[test]
fn every_error_has_an_input() {
    let codec = HashIdDefault::with_salt(SALT);
    assert_eq!(codec.decode_fast::<1>(b""), Err(DecodeErr::Hash));
    assert_eq!(codec.decode_fast::<1>(b"l"), Err(DecodeErr::Hash));
    assert_eq!(codec.decode_fast::<3>(b"laHqdq"), Err(DecodeErr::Hash));
    assert_eq!(codec.decode_fast::<1>(b"l!"), Err(DecodeErr::Value));
    assert_eq!(codec.decode_fast::<3>(b"lcHquq"), Err(DecodeErr::TooMany));
    assert_eq!(codec.decode_fast::<3>(b"ldHquq"), Err(DecodeErr::TooFew));
    assert_eq!(codec.decode::<1>(b"l!"), Err(DecodeErr::Value));
    assert_eq!(codec.decode::<1>(b""), Err(DecodeErr::Hash));
}

#[test]
fn a_number_beyond_64_bits_is_a_value_error() {
    let codec = HashIdDefault::with_salt(SALT);
    assert_eq!(codec.decode_fast::<1>(b"zXVjmzBamYlqX"), Ok([u64::MAX]));
    assert_eq!(codec.decode_fast::<1>(b"zXVjmzBamYlqXX"), Err(DecodeErr::Value));
    let mut long = vec![b'z'];
    long.extend([b'X'; 40]);
    assert_eq!(codec.decode_fast::<1>(&long), Err(DecodeErr::Value));
    // A value error comes before the count of the values.
    assert_eq!(codec.decode_fast::<5>(b"zXVjmzBamYlqXX"), Err(DecodeErr::Value));
}

#[test]
fn guards_and_what_lies_outside_them_are_stripped() {
    let codec = HashIdDefault::with_salt(SALT);
    assert_eq!(codec.decode_fast::<3>(b"xxAlaHquqdyy"), Ok([1, 2, 3]));
    assert_eq!(codec.decode_fast::<3>(b"AlaHquq"), Ok([1, 2, 3]));
    assert_eq!(codec.decode_fast::<3>(b"laHquqA"), Err(DecodeErr::Hash));
    assert_eq!(codec.decode_fast::<3>(b"laHquqAzz"), Err(DecodeErr::TooFew));
    assert_eq!(codec.decode_fast::<3>(b"A"), Err(DecodeErr::Hash));
    assert_eq!(codec.decode_fast::<3>(b"lA"), Err(DecodeErr::Hash));
    // The envelope is no part of a genuine id of this codec.
    assert_eq!(codec.decode::<3>(b"AlaHquq"), Err(DecodeErr::Hash));
}

#[test]
fn an_empty_segment_stands_for_zero() {
    let codec = HashIdDefault::with_salt(SALT);
    assert_eq!(codec.decode_fast::<1>(b"la"), Ok([1]));
    assert_eq!(codec.decode_fast::<2>(b"lH"), Ok([0, 0]));
    assert_eq!(codec.decode_fast::<2>(b"laH"), Ok([1, 0]));
    assert_eq!(codec.decode_fast::<2>(b"lHa"), Ok([0, 43]));
    assert_eq!(codec.decode::<2>(b"lH"), Err(DecodeErr::Hash));
}

#[test]
fn the_same_inputs_give_the_same_id() {
    let values = [12446646867894078354, 4908001284546428738, 9309420877296939278];
    let first = HashIdB64::with_salt_and_len(SALT, Some(64)).encode(&values);
    let second = HashIdB64::with_salt_and_len(SALT, Some(64)).encode(&values);
    assert_eq!(first.as_str(), second.as_str());
    let codec = HashIdB64::with_salt_and_len(SALT, Some(64));
    assert_eq!(codec.encode(&values).as_str(), codec.encode(&values).as_str());
    assert_eq!(codec.encode_inner(&values), codec.encode_inner(&values));
    assert_ne!(
        HashIdB64::with_salt(b"one salt").encode(&values).as_str(),
        HashIdB64::with_salt(b"another salt").encode(&values).as_str()
    );
}

#[test]
fn one_value_is_a_list_of_one() {
    let codec = HashIdDefault::with_salt(SALT);
    assert_eq!(codec.encode_one(5).as_str(), "rD");
    assert_eq!(codec.encode_one(5).as_str(), codec.encode(&[5]).as_str());
    assert_eq!(codec.encode_one(u64::MAX).as_str(), "zXVjmzBamYlqX");
    assert_eq!(codec.decode::<1>(codec.encode_one(77).as_str().as_bytes()), Ok([77]));
}

#[test]
fn the_bytes_and_the_text_of_an_id_agree() {
    let codec = HashIdQr::with_salt(SALT);
    let bytes = codec.encode_inner(&[1000, 2000, 3000, 4000]).unwrap();
    assert_eq!(bytes, b"X*5SBZ*H36GTB:D".to_vec());
    assert_eq!(codec.encode(&[1000, 2000, 3000, 4000]).as_str().as_bytes(), &bytes[..]);
}

#[test]
fn the_buffer_holds_a_short_id_whole() {
    let codec = HashIdDefault::with_salt(b"1 2 3 4");
    let buffer: ByteVec<BV_L_D> = codec.encode_buf(&[1, 2, 3, 4]).unwrap();
    assert_eq!(buffer.len(), 8);
    assert_eq!(buffer.as_slice(), b"jZSBHps7");
    assert_eq!(ByteVec::<BV_L_D>::capacity(), 55);
}

#[test]
fn the_buffer_holds_the_start_of_a_long_id() {
    let codec = HashIdDefault::with_salt(b"1 2 3 4");
    let buffer = codec.encode_buf(&MAX7).unwrap();
    assert_eq!(buffer.len(), 91);
    assert_eq!(buffer.as_slice().len(), 55);
    assert_eq!(buffer.as_slice(), b"vO7AqlL4bkgLOi48oDJ10mKB14h5EQR6gW8NDg5TKbe1N06rJo0KTZo");
}

#[test]
fn the_short_names_name_the_same_things() {
    let codec: HashID<Normal, 15> = Normal::with_salt(SALT);
    assert_eq!(codec.encode(&[1, 2, 3]).as_str(), "laHquq");
    assert_eq!(QR::with_salt(SALT).encode(&[1, 2, 3]).as_str(), "KPHEIP");
    assert_eq!(B64::with_salt(SALT).encode(&[1, 2, 3]).as_str(), "LpCOF6");
    assert_eq!(B32::with_salt(SALT).encode(&[1, 2, 3]).as_str(), "L6HEIX");
    let text: IdString = IdString::from_bytes(b"L6HEIX");
    assert_eq!(text.as_str(), "L6HEIX");
    assert_eq!(IdString::new().as_str(), "");
}

#[test]
fn the_text_lends_its_bytes() {
    let codec = HashIdDefault::with_salt(SALT);
    let id = codec.encode(&[1, 2, 3]);
    assert_eq!(id.as_bytes(), b"laHquq");
    assert_eq!(codec.decode_fast::<3>(id.as_bytes()), Ok([1, 2, 3]));
    assert_eq!(IdString::new().as_bytes(), b"");
    assert_eq!(IdString::from_bytes(&[0x41, 0xe9]).as_str(), "A\u{e9}");
    assert_eq!(IdString::from_bytes(&[0x41, 0xe9]).as_bytes(), &[0x41, 0xc3, 0xa9]);
}

#[test]
fn a_codec_is_cloned_with_its_tables() {
    let codec = HashIdDefault::with_salt_and_len(SALT, Some(20));
    let copy = codec.clone();
    assert_eq!(copy.encode(&[1, 2, 3]).as_str(), "B4lM12GlaHquq0Yx7qeD");
    assert_eq!(codec.encode(&[1, 2, 3]).as_str(), copy.encode(&[1, 2, 3]).as_str());
    assert!(format!("{:?}", codec).contains("HashId"));
}

#[test]
fn long_ids_spill_out_of_the_inline_string() {
    let bytes: Vec<u8> = (0..300).map(|i| b'a' + (i % 26) as u8).collect();
    let text = IdString::from_bytes(&bytes);
    assert_eq!(text.as_str().as_bytes(), &bytes[..]);
    assert_eq!(hashid_stack::text::to_text(b"abc"), "abc");
}

#[test]
fn round_trip_of_many_lists() {
    let codec = HashIdB32::with_salt_and_len(b"salt and pepper", Some(17));
    let mut seed: u64 = 0x2545F4914F6CDD1D;
    for _ in 0..200 {
        let mut values = [0u64; 4];
        for value in values.iter_mut() {
            seed ^= seed << 13;
            seed ^= seed >> 7;
            seed ^= seed << 17;
            *value = seed >> (seed % 64);
        }
        let id = codec.encode(&values);
        assert!(id.as_str().len() >= 17);
        assert_eq!(codec.decode_fast::<4>(id.as_str().as_bytes()), Ok(values));
        assert_eq!(codec.decode::<4>(id.as_str().as_bytes()), Ok(values));
        assert_eq!(codec.decode_fast::<3>(id.as_str().as_bytes()), Err(DecodeErr::TooMany));
        assert_eq!(codec.decode_fast::<5>(id.as_str().as_bytes()), Err(DecodeErr::TooFew));
    }
}
