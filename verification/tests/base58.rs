use algorithms::base58::{decode, encode};
use rust_base58::base58::{FromBase58, ToBase58};

fn samples() -> Vec<String> {
    vec![
        String::from("a"),
        String::from("hello world"),
        String::from("The quick brown fox jumps over the lazy dog."),
        String::from("gr\u{fc}\u{df}e \u{2211} \u{1f600}"),
        String::from("\u{7f}\u{0}\u{0}"),
        String::from("0123456789".repeat(20)),
    ]
}

#[test]
fn base58_encode_should_work() {
    for text in samples() {
        assert_eq!(encode(&text), *(&text.as_bytes()).to_base58());
    }
}

#[test]
fn base58_encode_decode_should_work() {
    for text in samples() {
        let encoded_text = (&text.as_bytes()).to_base58();
        let same_text = (&encoded_text.as_bytes())
            .from_base58()
            .ok()
            .and_then(|value| String::from_utf8(value).ok());

        assert_eq!(decode(&encode(&text)), same_text);
        assert_eq!(decode(&encode(&text)), Some(text));
    }
}

#[test]
fn encode_known_values() {
    assert_eq!(encode(&String::from("")), "");
    assert_eq!(encode(&String::from("a")), "2g");
    assert_eq!(encode(&String::from("abc")), "ZiCa");
    assert_eq!(encode(&String::from("hello world")), "StV1DL6CwTryKyV");
}

#[test]
fn encode_zero_as_one_symbol() {
    assert_eq!(encode(&String::from("\u{0}")), "1");
    assert_eq!(encode(&String::from("\u{0}\u{0}\u{0}")), "1");
}

#[test]
fn encode_ignores_leading_zero_bytes() {
    assert_eq!(encode(&String::from("\u{0}a")), "2g");
}

#[test]
fn decode_known_values() {
    assert_eq!(decode(&String::from("")), Some(String::from("")));
    assert_eq!(decode(&String::from("2g")), Some(String::from("a")));
    assert_eq!(decode(&String::from("ZiCa")), Some(String::from("abc")));
    assert_eq!(
        decode(&String::from("StV1DL6CwTryKyV")),
        Some(String::from("hello world"))
    );
}

#[test]
fn decode_zero_as_one_zero_byte() {
    assert_eq!(decode(&String::from("1")), Some(String::from("\u{0}")));
    assert_eq!(decode(&String::from("111")), Some(String::from("\u{0}")));
}

#[test]
fn decode_rejects_characters_outside_the_alphabet() {
    assert_eq!(decode(&String::from("0")), None);
    assert_eq!(decode(&String::from("2gI")), None);
    assert_eq!(decode(&String::from("O2g")), None);
    assert_eq!(decode(&String::from("2l")), None);
    assert_eq!(decode(&String::from("2 g")), None);
    assert_eq!(decode(&String::from("\u{e9}")), None);
}

#[test]
fn decode_rejects_bytes_that_are_no_text() {
    // 255 = 4 * 58 + 23: the single byte 0xff is not UTF-8
    assert_eq!(decode(&String::from("5Q")), None);
}

#[test]
fn every_symbol_round_trips() {
    let alphabet = "123456789ABCDEFGHJKLMNPQRSTUVWXYZabcdefghijkmnopqrstuvwxyz";
    for (digit, symbol) in alphabet.chars().enumerate().skip(1) {
        let text = symbol.to_string();
        let plain = decode(&text);
        if digit < 128 {
            let expected = String::from_utf8(vec![digit as u8]).unwrap();
            assert_eq!(plain, Some(expected.clone()));
            assert_eq!(encode(&expected), text);
        }
    }
}
