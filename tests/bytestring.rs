use matasano::bytestring::{ByteString, CodecError};

#[test]
fn from_hex_test() {
    assert_eq!(
        ByteString::from_hex("48656C6C6F").unwrap(),
        ByteString { bytes: vec![0x48, 0x65, 0x6C, 0x6C, 0x6F] }
    )
}

#[test]
fn to_hex_test() {
    assert_eq!(
        ByteString { bytes: vec![0x48, 0x65, 0x6C, 0x6C, 0x6F] }.to_hex(),
        "48656C6C6F".to_string()
    )
}

#[test]
fn from_base64_test() {
    assert_eq!(
        ByteString::from_base64("SGVsbG8=").unwrap(),
        ByteString { bytes: vec![0x48, 0x65, 0x6C, 0x6C, 0x6F] }
    )
}

#[test]
fn to_base64_test() {
    assert_eq!(
        ByteString { bytes: vec![0x48, 0x65, 0x6C, 0x6C, 0x6F] }.to_base64(),
        "SGVsbG8=".to_string()
    )
}

#[test]
fn s1() {
    assert_eq!(
        ByteString::from_hex(
            "49276d206b696c6c\
             696e6720796f7572\
             20627261696e206c\
             696b65206120706f\
             69736f6e6f757320\
             6d757368726f6f6d"
        )
        .unwrap()
        .to_base64(),
        "SSdtIGtpbGxpbmcg\
         eW91ciBicmFpbiBs\
         aWtlIGEgcG9pc29u\
         b3VzIG11c2hyb29t"
            .to_string()
    )
}

#[test]
fn hex_lower_case_digits() {
    assert_eq!(ByteString::from_hex("abCD09").unwrap().bytes, vec![0xAB, 0xCD, 0x09]);
}

#[test]
fn hex_empty() {
    assert_eq!(ByteString::from_hex("").unwrap().bytes, Vec::<u8>::new());
    assert_eq!(ByteString::from_bytes(vec![]).to_hex(), "");
}

#[test]
fn hex_odd_length() {
    assert_eq!(ByteString::from_hex("abc"), Err(CodecError::OddLength));
}

#[test]
fn hex_invalid_character() {
    assert_eq!(ByteString::from_hex("0g"), Err(CodecError::InvalidCharacter('g')));
}

#[test]
fn hex_invalid_character_before_length() {
    assert_eq!(ByteString::from_hex("a1x"), Err(CodecError::InvalidCharacter('x')));
}

#[test]
fn hex_round_trip_all_bytes() {
    let bytes: Vec<u8> = (0..=255u8).collect();
    let text = ByteString::from_bytes(bytes.clone()).to_hex();
    assert_eq!(text.len(), 512);
    assert_eq!(ByteString::from_hex(&text).unwrap().bytes, bytes);
}

#[test]
fn base64_padding_forms() {
    assert_eq!(ByteString::from_bytes(b"M".to_vec()).to_base64(), "TQ==");
    assert_eq!(ByteString::from_bytes(b"Ma".to_vec()).to_base64(), "TWE=");
    assert_eq!(ByteString::from_bytes(b"Man".to_vec()).to_base64(), "TWFu");
    assert_eq!(ByteString::from_bytes(vec![]).to_base64(), "");
    assert_eq!(ByteString::from_bytes(vec![0xFB, 0xFF]).to_base64(), "+/8=");
}

#[test]
fn base64_without_padding() {
    assert_eq!(ByteString::from_base64("TWE").unwrap().bytes, b"Ma".to_vec());
    assert_eq!(ByteString::from_base64("TQ").unwrap().bytes, b"M".to_vec());
}

#[test]
fn base64_dangling_character() {
    assert_eq!(ByteString::from_base64("TWFuT"), Err(CodecError::DanglingCharacter));
    assert_eq!(ByteString::from_base64("TWFuT==="), Err(CodecError::DanglingCharacter));
}

#[test]
fn base64_invalid_character() {
    assert_eq!(ByteString::from_base64("TW-u"), Err(CodecError::InvalidCharacter('-')));
}

#[test]
fn base64_round_trip_lengths() {
    for n in 0..10usize {
        let bytes: Vec<u8> = (0..n).map(|i| (i * 37 + 5) as u8).collect();
        let text = ByteString::from_bytes(bytes.clone()).to_base64();
        assert_eq!(text.len() % 4, 0);
        assert_eq!(ByteString::from_base64(&text).unwrap().bytes, bytes);
    }
}

#[test]
fn as_utf8_text() {
    assert_eq!(ByteString::from_bytes(b"hi there".to_vec()).as_utf8().unwrap(), "hi there");
}

#[test]
fn as_utf8_not_text() {
    assert_eq!(
        ByteString::from_bytes(vec![0xFF, 0x41]).as_utf8(),
        Err(CodecError::NonTextDecryption)
    );
}
