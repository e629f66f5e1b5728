use matasano::bytestring::ByteString;
use matasano::crypt::{
    multi_byte_xor_get_key, single_byte_xor_get_key, EncryptWith, MultiByteXor, SingleByteXor,
    TryDecrypt,
};
use matasano::languages::{Frequencies, Language, Score};

const CHALLENGE_TEXT: &str = "It was the best of times, it was the worst of times, it was the age of wisdom, it was the age of foolishness, it was the epoch of belief, it was the epoch of incredulity, it was the season of Light, it was the season of Darkness, it was the spring of hope, it was the winter of despair, we had everything before us, we had nothing before us, we were all going direct to Heaven, we were all going direct the other way.";

#[test]
fn lib_c1() {
    let b = ByteString::from_hex(
        "49276d206b696c6c696e6720796f757220627261696e206c696b65206120706f69736f6e6f7573206d757368726f6f6d",
    )
    .unwrap()
    .to_base64();
    assert_eq!(b, "SSdtIGtpbGxpbmcgeW91ciBicmFpbiBsaWtlIGEgcG9pc29ub3VzIG11c2hyb29t");
}

#[test]
fn lib_c2() {
    let b1 = ByteString::from_hex("1c0111001f010100061a024b53535009181c").unwrap().bytes;
    let b2 = ByteString::from_hex("686974207468652062756c6c277320657965").unwrap().bytes;
    let result = ByteString::from_hex("746865206b696420646f6e277420706c6179").unwrap().bytes;

    assert_eq!(MultiByteXor::encrypt_with(&b1, &b2), result);
}

#[test]
fn lib_c3() {
    let crypttext = ByteString::from_hex(
        "1b37373331363f78\
         151b7f2b78343133\
         3d78397828372d36\
         3c78373e783a393b\
         3736",
    )
    .unwrap()
    .bytes;

    let (plaintext, _score) = SingleByteXor::try_decrypt(&crypttext, Language::EnglishUtf8);
    let plaintext = String::from_utf8(plaintext).unwrap();

    assert_eq!(plaintext, "Cooking MC's like a pound of bacon");
}

#[test]
fn mod_c1() {
    let b1 = ByteString::from_hex(
        "49276d206b696c6c696e6720796f757220627261696e206c696b65206120706f69736f6e6f7573206d757368726f6f6d",
    )
    .unwrap()
    .to_base64();
    let b2 = "SSdtIGtpbGxpbmcgeW91ciBicmFpbiBsaWtlIGEgcG9pc29ub3VzIG11c2hyb29t";

    assert_eq!(b1, b2.trim());
}

#[test]
fn mod_c3() {
    let crypttext =
        ByteString::from_hex("1b37373331363f78151b7f2b783431333d78397828372d363c78373e783a393b3736")
            .unwrap()
            .bytes;

    let (plaintext, _score) = SingleByteXor::try_decrypt(&crypttext, Language::EnglishUtf8);
    let plaintext = String::from_utf8(plaintext).unwrap();

    assert_eq!(plaintext.trim(), "Cooking MC's like a pound of bacon");
}

#[test]
fn mod_c2() {
    let b1 = ByteString::from_hex("1c0111001f010100061a024b53535009181c").unwrap().bytes;
    let b2 = ByteString::from_hex("686974207468652062756c6c277320657965").unwrap().bytes;
    let out = ByteString::from_bytes(MultiByteXor::encrypt_with(&b1, &b2)).to_hex();

    assert_eq!(out.to_lowercase(), "746865206b696420646f6e277420706c6179");
}

#[test]
fn c5() {
    let plaintext = "Burning 'em, if you ain't quick and nimble\nI go crazy when I hear a cymbal".as_bytes();
    let key = "ICE".as_bytes();

    let out = ByteString::from_bytes(MultiByteXor::encrypt_with(plaintext, key)).to_hex();

    assert_eq!(
        out.to_lowercase(),
        "0b3637272a2b2e63622c2e69692a23693a2a3c6324202d623d63343c2a26226324272765272a282b2f20430a652e2c652a3124333a653e2b2027630c692b20283165286326302e27282f"
    );
}

#[test]
fn single_byte_key_recovered() {
    let crypttext = ByteString::from_hex(
        "1b37373331363f78151b7f2b783431333d78397828372d363c78373e783a393b3736",
    )
    .unwrap()
    .bytes;
    assert_eq!(single_byte_xor_get_key(&crypttext, Language::EnglishUtf8), 88);
}

#[test]
fn single_byte_empty_text() {
    let (plaintext, score) = SingleByteXor::try_decrypt(&[], Language::EnglishUtf8);
    assert!(plaintext.is_empty());
    assert_eq!(score, Score { distance: 2, scale: 1 });
    assert_eq!(single_byte_xor_get_key(&[], Language::EnglishUtf8), 0);
}

#[test]
fn multi_byte_attack_recovers_key() {
    let key = "Go Ninja".as_bytes();
    let sent = ByteString::from_bytes(MultiByteXor::encrypt_with(CHALLENGE_TEXT.as_bytes(), key))
        .to_base64();
    let crypttext = ByteString::from_base64(&sent).unwrap().bytes;

    assert_eq!(multi_byte_xor_get_key(&crypttext, Language::EnglishUtf8), key.to_vec());
    let (plaintext, score) = MultiByteXor::try_decrypt(&crypttext, Language::EnglishUtf8);
    assert_eq!(String::from_utf8(plaintext.clone()).unwrap(), CHALLENGE_TEXT);
    assert_eq!(score, Language::EnglishUtf8.compare(&plaintext));
}

#[test]
fn multi_byte_short_text_uses_one_byte_key() {
    let key = multi_byte_xor_get_key(&[1, 2, 3], Language::EnglishUtf8);
    assert_eq!(key.len(), 1);
    let (plaintext, _) = MultiByteXor::try_decrypt(&[], Language::EnglishUtf8);
    assert!(plaintext.is_empty());
}

#[test]
fn xor_twice_gives_text_back() {
    let text = b"attack at dawn".to_vec();
    let once = MultiByteXor::encrypt_with(&text, b"key");
    assert_ne!(once, text);
    assert_eq!(MultiByteXor::decrypt_with(&once, b"key"), text);
    let single = SingleByteXor::encrypt_with(&text, 0x5A);
    assert_eq!(SingleByteXor::decrypt_with(&single, 0x5A), text);
}

#[test]
fn xor_empty_key_gives_nothing() {
    assert!(MultiByteXor::encrypt_with(b"abc", &[]).is_empty());
}

#[test]
fn single_byte_xor_values() {
    assert_eq!(SingleByteXor::encrypt_with(&[0x00, 0xFF, 0x0F], 0xF0), vec![0xF0, 0x0F, 0xFF]);
}

#[test]
fn compare_exact_value() {
    let a = Frequencies::from_bytes(&[0, 0]);
    let b = Frequencies::from_bytes(&[1, 1]);
    assert_eq!(a.compare(b), Score { distance: 8, scale: 4 });
}

#[test]
fn compare_same_is_zero_and_symmetric() {
    let a = Frequencies::from_bytes(b"hello world");
    let b = Frequencies::from_bytes(b"hello world");
    assert_eq!(a.compare(b).distance, 0);
    let x = Frequencies::from_bytes(b"abcabc");
    let y = Frequencies::from_bytes(b"aab");
    let x2 = Frequencies::from_bytes(b"abcabc");
    let y2 = Frequencies::from_bytes(b"aab");
    let s1 = x.compare(y);
    let s2 = y2.compare(x2);
    assert_eq!(s1, s2);
    assert_eq!(s1, Score { distance: 12, scale: 18 });
}

#[test]
fn compare_empty_is_worst() {
    let a = Frequencies::from_bytes(&[]);
    let b = Frequencies::from_bytes(b"text");
    assert_eq!(a.compare(b), Score { distance: 2, scale: 1 });
    assert_eq!(Language::EnglishUtf8.compare(&[]), Score { distance: 2, scale: 1 });
}

#[test]
fn english_scores_text_below_noise() {
    let text = Language::EnglishUtf8.compare(b"the quick brown fox jumps over the lazy dog");
    let noise = Language::EnglishUtf8.compare(&[0xF3, 0x17, 0x88, 0x02, 0xC9, 0x5E]);
    assert!(text.distance * noise.scale < noise.distance * text.scale);
}
