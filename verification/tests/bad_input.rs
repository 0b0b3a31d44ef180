use hashid_stack::hash::HashId as HashID;
use hashid_stack::variants::{HashId, HashIdDefault};

fn d() -> HashID<HashIdDefault, 0> {
    HashIdDefault::with_salt(b"")
}

#[test]
fn should_fail_for_encoding_nothing() {
    assert_eq!("", d().encode(&[]).as_str(), "should return None when encoding an empty array")
}

#[test]
#[should_panic]
fn should_fail_for_decoding_nothing() {
    let _: [u64; 0] = d().decode_fast(b"").unwrap();
}

#[test]
#[should_panic]
fn should_fail_for_decoding_invalid_id() {
    let _: [u64; 1] = d().decode_fast(b"f").unwrap();
}
