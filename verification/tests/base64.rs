use algorithms::base64::decode::decode as core_decode;
use algorithms::base64::encode::{encode_bytes, Encodeable, EncodedStream, Options};
use base64::{decode, decode_config, encode, encode_config, STANDARD_NO_PAD};

fn string_to_bytes(text: String) -> Vec<u8> {
    let mut vector = Vec::new();

    for v in text.as_bytes().iter() {
        vector.push(*v);
    }

    vector
}

fn samples() -> Vec<String> {
    vec![
        String::new(),
        String::from("f"),
        String::from("fo"),
        String::from("foo"),
        String::from("foob"),
        String::from("fooba"),
        String::from("foobar"),
        String::from("Man is distinguished, not only by his reason"),
        String::from("\u{0}\u{1}\u{7f}"),
        String::from("gr\u{fc}\u{df}e \u{2211} \u{1f600}"),
        String::from("??>>~~"),
    ]
}

#[test]
fn static_decode_examples_should_work() {
    assert_eq!(
        Some(string_to_bytes(String::from("Man"))),
        core_decode(String::from("TWFu"), Options::default())
    );
    assert_eq!(
        Some(string_to_bytes(String::from("Ma"))),
        core_decode(String::from("TWE="), Options::default())
    );
    assert_eq!(
        Some(string_to_bytes(String::from("M"))),
        core_decode(String::from("TQ=="), Options::default())
    );
}

#[test]
fn static_encode_examples_should_work() {
    assert_eq!("TWFu", String::from("Man").encode(Options::default()));
    assert_eq!("TWE=", String::from("Ma").encode(Options::default()));
    assert_eq!("TQ==", String::from("M").encode(Options::default()));
    assert_eq!("", String::from("").encode(Options::default()));
}

#[test]
fn base64_encode_should_work() {
    for text in samples() {
        assert_eq!(encode(&text), text.encode(Options::default()));
    }
}

#[test]
fn encode_should_work_without_padding() {
    for text in samples() {
        assert_eq!(
            encode_config(&text, STANDARD_NO_PAD),
            text.encode(Options { unpadded: true })
        );
    }
}

#[test]
fn encode_random_strings_as_the_reference_does() {
    fn padded(text: String) -> bool {
        encode(&text) == text.encode(Options::default())
    }
    fn unpadded(text: String) -> bool {
        encode_config(&text, STANDARD_NO_PAD) == text.encode(Options { unpadded: true })
    }
    quickcheck::quickcheck(padded as fn(String) -> bool);
    quickcheck::quickcheck(unpadded as fn(String) -> bool);
}

#[test]
fn base64_decode_should_work() {
    for text in samples() {
        let encoded_text = encode(&text);

        assert_eq!(
            decode(&encoded_text).ok(),
            core_decode(encoded_text, Options::default())
        );
    }
}

#[test]
fn decode_should_work_without_padding() {
    for text in samples() {
        let encoded_text = encode_config(&text, STANDARD_NO_PAD);

        assert_eq!(
            decode_config(&encoded_text, STANDARD_NO_PAD).ok(),
            core_decode(encoded_text, Options { unpadded: true })
        );
    }
}

#[test]
fn decode_random_strings_as_the_reference_does() {
    fn round_trip(text: String) -> bool {
        let encoded_text = encode(&text);
        decode(&encoded_text).ok() == core_decode(encoded_text, Options::default())
    }
    quickcheck::quickcheck(round_trip as fn(String) -> bool);
}

#[test]
fn decode_rejects_bytes_outside_the_alphabet() {
    assert_eq!(None, core_decode(String::from("TW-u"), Options::default()));
    assert_eq!(None, core_decode(String::from("T Fu"), Options::default()));
    assert_eq!(None, core_decode(String::from("\u{e9}"), Options::default()));
}

#[test]
fn decode_stops_at_the_first_padding_byte() {
    assert_eq!(
        Some(vec![77]),
        core_decode(String::from("TQ==!!not read"), Options::default())
    );
    assert_eq!(Some(vec![]), core_decode(String::from("="), Options::default()));
    assert_eq!(Some(vec![]), core_decode(String::new(), Options::default()));
}

#[test]
fn decode_drops_a_dangling_symbol() {
    assert_eq!(Some(vec![]), core_decode(String::from("T"), Options::default()));
    assert_eq!(
        Some(vec![77, 97, 110]),
        core_decode(String::from("TWFuT"), Options::default())
    );
}

#[test]
fn decode_all_symbols() {
    assert_eq!(
        Some(vec![0x00, 0x10, 0x83, 0xfb, 0xff, 0xbf]),
        core_decode(String::from("ABCD+/+/"), Options::default())
    );
}

#[test]
fn encode_byte_slices() {
    assert_eq!("AAECAwQ=", encode_bytes(&[0, 1, 2, 3, 4], Options::default()));
    assert_eq!("AAECAwQ", encode_bytes(&[0, 1, 2, 3, 4], Options { unpadded: true }));
    assert_eq!("+/+/", [0xfb_u8, 0xff, 0xbf].encode(Options::default()));
    assert_eq!("//8=", [0xff_u8, 0xff].encode(Options::default()));
}

#[test]
fn stream_yields_symbols_one_by_one() {
    let bytes = [77_u8, 97];
    let mut stream = EncodedStream::new(&bytes, Options::default());
    assert_eq!(stream.next(), Some(b'T'));
    assert_eq!(stream.next(), Some(b'W'));
    assert_eq!(stream.next(), Some(b'E'));
    assert_eq!(stream.next(), Some(b'='));
    assert_eq!(stream.next(), None);
    assert_eq!(stream.next(), None);

    let mut bare = EncodedStream::new(&bytes, Options { unpadded: true });
    assert_eq!(bare.next(), Some(b'T'));
    assert_eq!(bare.next(), Some(b'W'));
    assert_eq!(bare.next(), Some(b'E'));
    assert_eq!(bare.next(), None);
    assert_eq!(bare.next(), None);
}
