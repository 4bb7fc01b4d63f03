use smol_file::legacy::SmolBlob as LegacyBlob;
use smol_file::{SmolBlob, SmolError};

#[test]
fn legacy_round_trip_of_lowercase_text() {
    let blob = LegacyBlob::encode(&"test".to_owned());
    // four symbols, 20 bits, three bytes: room for exactly four symbols
    assert_eq!(LegacyBlob::decode(&blob.buffer()), Ok("test".to_owned()));
}

#[test]
fn legacy_encoding_lowercases() {
    let blob = LegacyBlob::encode(&"HeLLo".to_owned());
    assert_eq!(LegacyBlob::decode(&blob.buffer()), Ok("hello ".to_owned()));
}

#[test]
fn legacy_padding_reads_as_spaces() {
    let blob = LegacyBlob::encode(&"ab".to_owned());
    assert_eq!(blob.buffer(), vec![115u8, 109, 111, 108, 1, 1, 2, 65, 0]);
    assert_eq!(LegacyBlob::decode(&blob.buffer()), Ok("ab ".to_owned()));
}

#[test]
fn legacy_unknown_characters_become_spaces() {
    let blob = LegacyBlob::encode_lowered(&"a-b".to_owned());
    assert_eq!(LegacyBlob::decode(&blob.buffer()), Ok("a b".to_owned()));
}

#[test]
fn legacy_decode_errors() {
    assert_eq!(LegacyBlob::decode(&vec![1u8]), Err(SmolError::TruncatedInput));
    assert_eq!(LegacyBlob::decode(&vec![1u8, 2, 3, 4]), Err(SmolError::BadMagic));
    assert_eq!(LegacyBlob::decode(&vec![115u8, 109, 111, 108, 5, 1]), Err(SmolError::TruncatedInput));
    assert_eq!(LegacyBlob::decode(&vec![115u8, 109, 111, 108, 1, 1]), Err(SmolError::MalformedVarint));
}

#[test]
fn legacy_frame_is_read_by_the_current_reader() {
    let blob = LegacyBlob::encode(&"hi".to_owned());
    let current = SmolBlob::unwrap_frame(&blob.buffer()).unwrap();
    assert_eq!(current.version(), 1);
    assert_eq!(current.symbol_count(), 3);
    assert_eq!(SmolBlob::decode_blob(&current), Ok("hi ".to_owned()));
}

#[test]
fn raw_literal_layout() {
    let blob = SmolBlob::encode(&"\u{e9}".to_owned());
    assert_eq!(blob.symbol_count(), 2);
    assert_eq!(blob.payload(), &vec![0xdfu8, 0x03, 2, 0xc3, 0xa9]);
}

#[test]
fn long_counts_use_several_varint_bytes() {
    let input = "a".repeat(200);
    let blob = SmolBlob::encode(&input);
    assert_eq!(blob.symbol_count(), 200);
    let headerless = blob.buffer_headerless();
    assert_eq!(&headerless[0..2], &[0xc8u8, 0x01]);
    let framed = blob.buffer();
    // header: version 3, count 200 in two bytes; payload 125 bytes
    assert_eq!(&framed[0..9], &[115u8, 109, 111, 108, 3, 3, 0xc8, 0x01, 125]);
    assert_eq!(SmolBlob::decode(&framed), Ok(input.clone()));
    assert_eq!(SmolBlob::decode_headerless(&headerless), Ok(input));
}

#[test]
fn legacy_control_entries_round_trip_as_characters() {
    let blob = LegacyBlob::encode(&"a12".to_owned());
    // three symbols, 15 bits, two bytes: room for three symbols
    assert_eq!(LegacyBlob::decode(&blob.buffer()), Ok("a12".to_owned()));
}
