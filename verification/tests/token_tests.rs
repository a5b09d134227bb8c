use icfpc2024::errors::DecodeError;
use icfpc2024::token::{decode_token, encode, integers, strings, BinaryOp, Token};
use num_bigint::BigInt;
use std::str::FromStr;

#[test]
fn decode_hello_world() {
    assert_eq!(
        decode_token("SB%,,/}Q/2,$_").unwrap(),
        Token::String("Hello World!".into())
    );
}

#[test]
fn decode_binary_op() {
    assert_eq!(decode_token("B+").unwrap(), Token::BinaryOp(BinaryOp::Add));
    assert_eq!(decode_token("B-").unwrap(), Token::BinaryOp(BinaryOp::Sub));
}

#[test]
fn decode_if() {
    assert_eq!(decode_token("?").unwrap(), Token::If);
}

#[test]
fn decode_lambda() {
    assert_eq!(decode_token("L#").unwrap(), Token::Lambda(BigInt::from(2)));
}

#[test]
fn decode_variable() {
    assert_eq!(decode_token("v\"").unwrap(), Token::Variable(BigInt::from(1)));
}

#[test]
fn decode_1337() {
    assert_eq!(decode_token("I/6").unwrap(), Token::Integer(BigInt::from(1337)));
    assert_eq!(decode_token("I$WD").unwrap(), Token::Integer(BigInt::from(31619)));
}

#[test]
fn encode_decode_bigint() {
    // 2**256
    let value = BigInt::from_str(
        "115792089237316195423570985008687907853269984665640564039457584007913129639936",
    )
    .expect("Failed to parse BigInt");
    let encoded = integers::encode(value.clone()).unwrap();
    assert_eq!(
        encoded.as_bytes(),
        b"\"<VHiCBw9\"s6x'adSCTArinu6dOl9m&SMkR*`/=)"
    );
    let decoded = integers::decode(encoded.as_bytes()).unwrap();
    assert_eq!(decoded, value);
}

#[test]
fn encode_decode_hello_world() {
    assert_eq!(
        encode(&[Token::String("Hello World!".into())]).unwrap(),
        "SB%,,/}Q/2,$_".to_owned()
    );
    assert_eq!(
        decode_token("SB%,,/}Q/2,$_").unwrap(),
        Token::String("Hello World!".into())
    );
}

#[test]
fn encode_language_test() {
    let value = integers::encode(BigInt::from(38798476154511i64)).unwrap();
    let result = strings::decode(value.as_bytes()).unwrap();
    assert_eq!(result, "4w3s0m3");
}

#[test]
fn integer_codec_zero_and_roundtrip() {
    // Zero must encode to the single digit "!", never an empty string.
    assert_eq!(integers::encode(BigInt::from(0u32)).unwrap(), "!");
    for n in [0u64, 1, 93, 94, 95, 1337, 123456789] {
        let enc = integers::encode(BigInt::from(n)).unwrap();
        let dec = integers::decode(enc.as_bytes()).unwrap();
        assert_eq!(dec, BigInt::from(n));
    }
}

#[test]
fn integer_codec_rejects_negative() {
    assert!(integers::encode(BigInt::from(-5)).is_err());
}

#[test]
fn string_codec_roundtrip_both_ways() {
    let text = "Hello World! 0\n";
    let wire = strings::encode(text).unwrap();
    let back = strings::decode(wire.as_bytes()).unwrap();
    assert_eq!(back, text);
}

#[test]
fn string_codec_rejects_outside_alphabet() {
    // The error names the first character outside the alphabet.
    assert_eq!(
        strings::encode("caf\u{e9}").unwrap_err(),
        DecodeError::OutOfAlphabet('\u{e9}')
    );
}

#[test]
fn token_stream_and_errors() {
    let tokens = icfpc2024::token::decode_token_stream("B+ I# I$").unwrap();
    assert_eq!(tokens.len(), 3);
    assert_eq!(tokens[0], Token::BinaryOp(BinaryOp::Add));
    assert_eq!(decode_token("").unwrap_err(), DecodeError::EmptyToken);
    // An unknown indicator names the offending byte, an out-of-range body
    // byte the offending character.
    assert_eq!(decode_token("X").unwrap_err(), DecodeError::UnknownToken(b'X'));
    assert_eq!(decode_token("T!").unwrap_err(), DecodeError::UnexpectedBody);
    assert_eq!(decode_token("U~").unwrap_err(), DecodeError::OutOfAlphabet('~'));
    assert_eq!(
        decode_token("I/\u{7f}").unwrap_err(),
        DecodeError::OutOfAlphabet('\u{7f}')
    );
}

#[test]
fn encode_token_roundtrip_all_kinds() {
    let tokens = vec![
        Token::Boolean(true),
        Token::Boolean(false),
        Token::Integer(BigInt::from(1337)),
        Token::String("yes".into()),
        Token::UnaryOp(icfpc2024::token::UnaryOp::Neg),
        Token::BinaryOp(BinaryOp::Apply),
        Token::If,
        Token::Lambda(BigInt::from(2)),
        Token::Variable(BigInt::from(1)),
    ];
    let wire = encode(&tokens).unwrap();
    let back = icfpc2024::token::decode_token_stream(&wire).unwrap();
    assert_eq!(back.len(), tokens.len());
    for (a, b) in back.iter().zip(tokens.iter()) {
        assert_eq!(a, b);
    }
}
