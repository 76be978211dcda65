use textbook_crypto::base64::{decode, encode};
use textbook_crypto::error::DecodeError;

#[test]
fn encode_scenarios() {
    assert_eq!(encode(b"Man"), "TWFu");
    assert_eq!(encode(b"Ma"), "TWE=");
    assert_eq!(encode(b"M"), "TQ==");
    assert_eq!(encode(b""), "");
    assert_eq!(encode(b"based64"), "YmFzZWQ2NA==");
    assert_eq!(encode(&[0xfb, 0xff, 0xbf]), "+/+/");
}

#[test]
fn decode_scenarios() {
    assert_eq!(decode("TWFu"), Ok(b"Man".to_vec()));
    assert_eq!(decode("TWE="), Ok(b"Ma".to_vec()));
    assert_eq!(decode("TQ=="), Ok(b"M".to_vec()));
    assert_eq!(decode(""), Ok(vec![]));
    assert_eq!(decode("YmFzZWQ2NA=="), Ok(b"based64".to_vec()));
    assert_eq!(decode("+/+/"), Ok(vec![0xfb, 0xff, 0xbf]));
}

#[test]
fn decode_invalid_length() {
    assert_eq!(decode("TWF"), Err(DecodeError::InvalidLength));
    assert_eq!(decode("TWFuT"), Err(DecodeError::InvalidLength));
}

#[test]
fn decode_invalid_character() {
    assert_eq!(decode("TW*u"), Err(DecodeError::InvalidCharacter));
    assert_eq!(decode("T=Fu"), Err(DecodeError::InvalidCharacter));
    assert_eq!(decode("TW=u"), Err(DecodeError::InvalidCharacter));
    assert_eq!(decode("===="), Err(DecodeError::InvalidCharacter));
    assert_eq!(decode("TQ==TWFu"), Err(DecodeError::InvalidCharacter));
    assert_eq!(decode("TWé"), Err(DecodeError::InvalidCharacter));
}

#[test]
fn base64_round_trip() {
    let data: Vec<u8> = (0..=255u8).collect();
    for n in 0..data.len() {
        let text = encode(&data[..n]);
        assert_eq!(decode(&text), Ok(data[..n].to_vec()));
    }
}

#[test]
fn base64_padding() {
    for n in 0..20usize {
        let data = vec![7u8; n];
        let text = encode(&data);
        assert_eq!(text.len() % 4, 0);
        let pads = text.chars().rev().take_while(|c| *c == '=').count();
        assert_eq!(pads, (3 - n % 3) % 3);
    }
}
