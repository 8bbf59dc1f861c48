use unistellar_search::codec::{decode, Identifier, StoreValue};
use unistellar_search::errors::SearchError;

const SAMPLE: &str = "01J7YZ7MC3P44547KT11KHXGJV";

#[test]
fn store_envelope_round_trips_to_flat_text() {
    // A store value tagged as a string variant wrapping a ULID
    // decodes and re-encodes to the literal flat text.
    let sv = StoreValue::Record { table: String::from("user"), key: String::from(SAMPLE) };
    let id = decode(&sv).unwrap();
    assert_eq!(id.encode(), SAMPLE);
}

#[test]
fn envelope_shape_does_not_matter() {
    let nested = StoreValue::Record { table: String::from("course"), key: String::from(SAMPLE) };
    let other_table =
        StoreValue::Record { table: String::from("university"), key: String::from(SAMPLE) };
    let plain = StoreValue::Plain(String::from(SAMPLE));
    let a = decode(&nested).unwrap();
    let b = decode(&other_table).unwrap();
    let c = decode(&plain).unwrap();
    assert_eq!(a.value(), b.value());
    assert_eq!(b.value(), c.value());
    assert_eq!(a.encode(), c.encode());
}

#[test]
fn lower_case_text_decodes_to_the_same_value() {
    let upper = decode(&StoreValue::Plain(String::from(SAMPLE))).unwrap();
    let lower = decode(&StoreValue::Plain(SAMPLE.to_lowercase())).unwrap();
    assert_eq!(upper.value(), lower.value());
    // Encoding is always canonical upper case.
    assert_eq!(lower.encode(), SAMPLE);
}

#[test]
fn malformed_identifiers_are_rejected() {
    for bad in [
        "",
        "01J7YZ7MC3P44547KT11KHXGJ",    // too short
        "01J7YZ7MC3P44547KT11KHXGJVV",  // too long
        "01J7YZ7MC3P44547KT11KHXGIV",   // 'I' is not a digit
        "01J7YZ7MC3P44547KT11KHXGLV",   // 'L' is not a digit
        "O1J7YZ7MC3P44547KT11KHXGJV",   // 'O' is not a digit
        "01J7YZ7MC3P44547KT11KHXGUV",   // 'U' is not a digit
        "81J7YZ7MC3P44547KT11KHXGJV",   // leading digit above 7 overflows
        "01J7YZ7MC3P44547KT11KHXG!V",
    ] {
        let r = decode(&StoreValue::Plain(String::from(bad)));
        assert_eq!(r.unwrap_err(), SearchError::MalformedIdentifier, "should reject {bad:?}");
    }
}

#[test]
fn encode_matches_the_reference_implementation() {
    for value in [
        0u128,
        1,
        31,
        32,
        0x41414141414141414141414141414141,
        0x4d4e385051444a59454234335a413756,
        u128::MAX,
    ] {
        let ours = Identifier::new(value).encode();
        let reference = ulid::Ulid(value).to_string();
        assert_eq!(ours, reference, "encoding of {value:#x}");
    }
}

#[test]
fn decode_matches_the_reference_implementation() {
    for text in [
        "00000000000000000000000000",
        "0000000000000000000000001Z",
        "21850M2GA1850M2GA1850M2GA1",
        "2D9RW50MA499CMAGHM6DD42DTP",
        "7ZZZZZZZZZZZZZZZZZZZZZZZZZ",
        SAMPLE,
    ] {
        let ours = decode(&StoreValue::Plain(String::from(text))).unwrap();
        let reference = ulid::Ulid::from_string(text).unwrap();
        assert_eq!(ours.value(), reference.0, "value of {text}");
    }
}

#[test]
fn extreme_values_round_trip() {
    let zero = Identifier::new(0);
    assert_eq!(zero.encode(), "00000000000000000000000000");
    let max = Identifier::new(u128::MAX);
    assert_eq!(max.encode(), "7ZZZZZZZZZZZZZZZZZZZZZZZZZ");
    let back = decode(&StoreValue::Plain(max.encode())).unwrap();
    assert_eq!(back.value(), u128::MAX);
}
