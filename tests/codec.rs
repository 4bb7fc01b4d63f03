use smol_file::blob::{SmolBlob, SmolError};

fn text(s: &str) -> String {
    s.to_owned()
}

#[test]
fn smoke_test_round_trip() {
    let blob = SmolBlob::encode(&text("test"));
    assert_eq!(blob.symbol_count(), 4);
    assert_eq!(SmolBlob::decode_blob(&blob), Ok(text("test")));
    assert_eq!(SmolBlob::decode(&blob.buffer()), Ok(text("test")));
}

#[test]
fn mixed_case_digits_and_punctuation() {
    let input = text("Test 2022.");
    let blob = SmolBlob::encode(&input);
    // ESC t, e, s, t, space, NUM 2 0 2 2, NUM ., 
    assert_eq!(blob.symbol_count(), 13);
    assert_eq!(SmolBlob::decode_blob(&blob), Ok(input.clone()));
    assert_eq!(SmolBlob::decode(&blob.buffer()), Ok(input));
}

#[test]
fn headerless_round_trip() {
    let input = text("hello world!\nsecond line?");
    let blob = SmolBlob::encode(&input);
    let bytes = blob.buffer_headerless();
    let back = SmolBlob::unwrap_headerless(&bytes).unwrap();
    assert_eq!(back.symbol_count(), blob.symbol_count());
    assert_eq!(back.payload(), blob.payload());
    assert_eq!(SmolBlob::decode_blob(&back), Ok(input.clone()));
    assert_eq!(SmolBlob::decode_headerless(&bytes), Ok(input));
}

#[test]
fn carriage_returns_are_dropped() {
    let a = SmolBlob::encode(&text("a\r\nb"));
    let b = SmolBlob::encode(&text("a\nb"));
    assert_eq!(a.buffer(), b.buffer());
    assert_eq!(SmolBlob::decode_blob(&a), Ok(text("a\nb")));
    let c = SmolBlob::encode(&text("1\r2"));
    let d = SmolBlob::encode(&text("12"));
    assert_eq!(c.buffer(), d.buffer());
}

#[test]
fn frame_round_trip() {
    let blob = SmolBlob::encode(&text("Round 3 of 7, Go!"));
    let back = SmolBlob::unwrap_frame(&blob.buffer()).unwrap();
    assert_eq!(back.version(), blob.version());
    assert_eq!(back.symbol_count(), blob.symbol_count());
    assert_eq!(back.payload(), blob.payload());
}

#[test]
fn exact_frame_of_one_letter() {
    let blob = SmolBlob::encode(&text("a"));
    assert_eq!(blob.version(), 3);
    assert_eq!(blob.payload(), &vec![1u8]);
    assert_eq!(blob.buffer(), vec![115u8, 109, 111, 108, 2, 3, 1, 1, 1]);
    assert_eq!(blob.buffer_headerless(), vec![1u8, 1]);
}

#[test]
fn exact_packing_of_two_letters() {
    let blob = SmolBlob::encode(&text("ab"));
    assert_eq!(blob.symbol_count(), 2);
    assert_eq!(blob.payload(), &vec![65u8, 0]);
}

#[test]
fn empty_text() {
    let blob = SmolBlob::encode(&text(""));
    assert_eq!(blob.symbol_count(), 0);
    assert_eq!(blob.payload().len(), 0);
    assert_eq!(SmolBlob::decode(&blob.buffer()), Ok(text("")));
}

#[test]
fn digits_use_one_number_run() {
    let blob = SmolBlob::encode(&text("123"));
    // NUM 1 2 3 NUM
    assert_eq!(blob.symbol_count(), 5);
    assert_eq!(SmolBlob::decode_blob(&blob), Ok(text("123")));
    let blob = SmolBlob::encode(&text("0a9"));
    assert_eq!(blob.symbol_count(), 7);
    assert_eq!(SmolBlob::decode_blob(&blob), Ok(text("0a9")));
}

#[test]
fn uppercase_round_trip() {
    let input = text("HELLO World ABCXYZ");
    let blob = SmolBlob::encode(&input);
    assert_eq!(SmolBlob::decode_blob(&blob), Ok(input));
}

#[test]
fn characters_outside_the_alphabet_round_trip() {
    let input = text("hej d\u{e5}, x=1; \u{1F600} \u{c9}t\u{e9}");
    let blob = SmolBlob::encode(&input);
    assert_eq!(SmolBlob::decode_blob(&blob), Ok(input.clone()));
    assert_eq!(SmolBlob::decode_headerless(&blob.buffer_headerless()), Ok(input));
}

#[test]
fn short_input_is_truncated() {
    assert_eq!(SmolBlob::decode(&vec![115u8, 109, 111]), Err(SmolError::TruncatedInput));
    assert_eq!(SmolBlob::decode(&vec![]), Err(SmolError::TruncatedInput));
    assert!(SmolBlob::unwrap_frame(&vec![1u8, 2, 3]).is_err());
}

#[test]
fn wrong_magic_is_rejected() {
    assert_eq!(SmolBlob::decode(&vec![115u8, 109, 111, 109, 2, 3, 1, 0]), Err(SmolError::BadMagic));
}

#[test]
fn varint_past_the_end_is_malformed() {
    assert_eq!(SmolBlob::decode(&vec![115u8, 109, 111, 108, 0x80]), Err(SmolError::MalformedVarint));
    assert_eq!(SmolBlob::decode(&vec![115u8, 109, 111, 108]), Err(SmolError::MalformedVarint));
    assert_eq!(SmolBlob::decode_headerless(&vec![0xffu8]), Err(SmolError::MalformedVarint));
}

#[test]
fn payload_past_the_end_is_truncated() {
    assert_eq!(SmolBlob::decode(&vec![115u8, 109, 111, 108, 2, 3, 1, 5, 1]), Err(SmolError::TruncatedInput));
    // five symbols announced, one byte given
    assert_eq!(SmolBlob::decode_headerless(&vec![5u8, 1]), Err(SmolError::TruncatedInput));
}

#[test]
fn escape_of_escape_is_invalid() {
    assert_eq!(SmolBlob::decode_headerless(&vec![2u8, 0xff, 0x03]), Err(SmolError::InvalidSymbol));
}

#[test]
fn letter_in_number_mode_is_invalid() {
    assert_eq!(SmolBlob::decode_headerless(&vec![2u8, 0x5e, 0x01]), Err(SmolError::InvalidSymbol));
}

#[test]
fn raw_literal_must_be_utf8() {
    assert_eq!(SmolBlob::decode_headerless(&vec![2u8, 0xdf, 0x03, 1, 0xff]), Err(SmolError::InvalidUtf8));
    assert_eq!(SmolBlob::decode_headerless(&vec![2u8, 0xdf, 0x03, 2, 0xc3]), Err(SmolError::TruncatedInput));
}

#[test]
fn version_one_frame_counts_symbols_from_its_payload() {
    let bytes = vec![115u8, 109, 111, 108, 1, 1, 1, 1];
    let blob = SmolBlob::unwrap_frame(&bytes).unwrap();
    assert_eq!(blob.version(), 1);
    assert_eq!(blob.symbol_count(), 1);
    assert_eq!(SmolBlob::decode(&bytes), Ok(text("a")));
    assert_eq!(blob.buffer(), bytes);
}
