//! Decoding base64 text.

use crate::base64::encode::{symbol_of, Options, PADDING_BYTE};
use vstd::prelude::*;

verus! {

/// The six-bit value that a symbol stands for, if it is one of the alphabet.
pub open spec fn value_of(symbol: u8) -> Option<u8> {
    if 65 <= symbol <= 90 {
        Some((symbol - 65) as u8)
    } else if 97 <= symbol <= 122 {
        Some((symbol - 97 + 26) as u8)
    } else if 48 <= symbol <= 57 {
        Some((symbol - 48 + 52) as u8)
    } else if symbol == 43 {
        Some(62)
    } else if symbol == 47 {
        Some(63)
    } else {
        None
    }
}

/// The length of the text before its first padding byte.
pub open spec fn data_len(text: Seq<u8>) -> int
    decreases text.len(),
{
    if text.len() == 0 || text[0] == PADDING_BYTE {
        0
    } else {
        1 + data_len(text.drop_first())
    }
}

/// The byte at position `j` of the bytes that the symbols `data` encode.
/// Each group of four symbols gives three bytes, most significant bits first.
pub open spec fn octet_at(data: Seq<u8>, j: int) -> u8 {
    let group = j / 3;
    let first = value_of(data[4 * group]).unwrap();
    let second = value_of(data[4 * group + 1]).unwrap();
    let third = value_of(data[4 * group + 2]).unwrap();
    let fourth = value_of(data[4 * group + 3]).unwrap();
    if j % 3 == 0 {
        (first << 2) | (second >> 4)
    } else if j % 3 == 1 {
        ((second & 15) << 4) | (third >> 2)
    } else {
        ((third & 3) << 6) | fourth
    }
}

/// The number of whole bytes that `symbols` symbols encode.
pub open spec fn decoded_len(symbols: int) -> int {
    3 * (symbols / 4) + if symbols % 4 == 0 {
        0int
    } else {
        symbols % 4 - 1
    }
}

/// The bytes that the symbols `data` encode.
pub open spec fn octets(data: Seq<u8>) -> Seq<u8> {
    Seq::new(decoded_len(data.len() as int) as nat, |j: int| octet_at(data, j))
}

/// What base64 text decodes to. The text ends at its first padding byte;
/// a byte before that which is no symbol of the alphabet makes it invalid.
pub open spec fn decoded(text: Seq<u8>) -> Option<Seq<u8>> {
    let data = text.take(data_len(text));
    if forall|i: int| 0 <= i < data.len() ==> (#[trigger] value_of(data[i])).is_some() {
        Some(octets(data))
    } else {
        None
    }
}

/// The six-bit value of a symbol, or `None` for a byte outside the alphabet.
pub fn decode_symbol(symbol: u8) -> (value: Option<u8>)
    ensures
        value == value_of(symbol),
        value matches Some(v) ==> v < 64 && symbol_of(v) == symbol,
{
    if 65 <= symbol && symbol <= 90 {
        Some(symbol - 65)
    } else if 97 <= symbol && symbol <= 122 {
        Some(symbol - 97 + 26)
    } else if 48 <= symbol && symbol <= 57 {
        Some(symbol - 48 + 52)
    } else if symbol == 43 {
        Some(62)
    } else if symbol == 47 {
        Some(63)
    } else {
        None
    }
}

/// [`data_len`] is the place of the first padding byte, or the length of
/// a text without one.
pub proof fn lemma_data_len(text: Seq<u8>)
    ensures
        0 <= data_len(text) <= text.len(),
        forall|i: int| 0 <= i < data_len(text) ==> #[trigger] text[i] != PADDING_BYTE,
        data_len(text) < text.len() ==> text[data_len(text)] == PADDING_BYTE,
    decreases text.len(),
{
    if text.len() == 0 || text[0] == PADDING_BYTE {
    } else {
        let rest = text.drop_first();
        lemma_data_len(rest);
        assert forall|i: int| 0 <= i < data_len(text) implies #[trigger] text[i]
            != PADDING_BYTE by {
            if i > 0 {
                assert(text[i] == rest[i - 1]);
            }
        }
        if data_len(text) < text.len() {
            assert(text[data_len(text)] == rest[data_len(rest)]);
        }
    }
}

/// A text without a padding byte before `end`, and with one at `end` or
/// ending there, has `end` bytes of data.
pub proof fn lemma_data_len_is(text: Seq<u8>, end: int)
    requires
        0 <= end <= text.len(),
        forall|i: int| 0 <= i < end ==> #[trigger] text[i] != PADDING_BYTE,
        end < text.len() ==> text[end] == PADDING_BYTE,
    ensures
        data_len(text) == end,
{
    lemma_data_len(text);
    if data_len(text) < end {
        assert(text[data_len(text)] != PADDING_BYTE);
    }
}

/// Decodes base64 text. The text is read up to its first padding byte;
/// `None` is returned where a byte before that is no symbol of the alphabet.
/// Text is taken with or without padding, whatever the options say.
pub fn decode(encoded_text: String, options: Options) -> (plain: Option<Vec<u8>>)
    ensures
        match decoded(vstd::utf8::encode_utf8(encoded_text@)) {
            Some(bytes) => plain matches Some(v) && v@ == bytes,
            None => plain is None,
        },
{
    let text = encoded_text.as_str().as_bytes();
    let mut plain_bytes: Vec<u8> = Vec::with_capacity(text.len());
    let mut byte_index: u8 = 0;
    let mut previous_byte: u8 = 0;
    let mut at: usize = 0;

    while at < text.len()
        invariant
            at <= text.len(),
            byte_index < 4,
            byte_index == at % 4,
            previous_byte < 64,
            text@ == vstd::utf8::encode_utf8(encoded_text@),
            forall|i: int| 0 <= i < at ==> #[trigger] text@[i] != PADDING_BYTE,
            forall|i: int| 0 <= i < at ==> (#[trigger] value_of(text@[i])).is_some(),
            at > 0 ==> value_of(text@[at - 1]) == Some(previous_byte),
            plain_bytes@ == octets(text@.take(at as int)),
        decreases text.len() - at,
    {
        let encoded_byte = text[at];
        if encoded_byte == PADDING_BYTE {
            proof {
                lemma_data_len_is(text@, at as int);
                assert forall|i: int| 0 <= i < at implies (#[trigger] value_of(
                    text@.take(at as int)[i],
                )).is_some() by {
                    assert(text@.take(at as int)[i] == text@[i]);
                }
            }
            return Some(plain_bytes);
        }
        let plain_result = decode_symbol(encoded_byte);

        if let Some(current_byte) = plain_result {
            proof {
                assert(((previous_byte & 0b00111111) << 2) + ((current_byte & 0b00110000) >> 4)
                    == (previous_byte << 2) | (current_byte >> 4)) by (bit_vector)
                    requires
                        previous_byte < 64,
                        current_byte < 64,
                ;
                assert(((previous_byte & 0b00001111) << 4) + ((current_byte & 0b00111100) >> 2)
                    == ((previous_byte & 15) << 4) | (current_byte >> 2)) by (bit_vector)
                    requires
                        previous_byte < 64,
                        current_byte < 64,
                ;
                assert(((previous_byte & 0b00000011) << 6) + (current_byte & 0b00111111) == ((
                previous_byte & 3) << 6) | current_byte) by (bit_vector)
                    requires
                        previous_byte < 64,
                        current_byte < 64,
                ;
                assert(((previous_byte & 0b00111111) << 2) as int + ((current_byte & 0b00110000)
                    >> 4) as int <= 255 && ((previous_byte & 0b00001111) << 4) as int + ((
                current_byte & 0b00111100) >> 2) as int <= 255 && ((previous_byte & 0b00000011)
                    << 6) as int + (current_byte & 0b00111111) as int <= 255) by {
                    assert((previous_byte & 0b00111111) << 2 <= 252 && (current_byte & 0b00110000)
                        >> 4 <= 3 && (previous_byte & 0b00001111) << 4 <= 240 && (current_byte
                        & 0b00111100) >> 2 <= 15 && (previous_byte & 0b00000011) << 6 <= 192 && (
                    current_byte & 0b00111111) <= 63) by (bit_vector);
                }
            }
            let next_result = if byte_index == 1 {
                Some(((previous_byte & 0b00111111) << 2) + ((current_byte & 0b00110000) >> 4))
            } else if byte_index == 2 {
                Some(((previous_byte & 0b00001111) << 4) + ((current_byte & 0b00111100) >> 2))
            } else if byte_index == 3 {
                Some(((previous_byte & 0b00000011) << 6) + (current_byte & 0b00111111))
            } else {
                None
            };

            let ghost before = text@.take(at as int);
            let ghost after = text@.take(at + 1);
            proof {
                assert forall|j: int| 0 <= j < octets(before).len() implies octets(before)[j]
                    == octet_at(after, j) by {
                    assert(before[4 * (j / 3)] == after[4 * (j / 3)]);
                    assert(before[4 * (j / 3) + 1] == after[4 * (j / 3) + 1]);
                    if j % 3 >= 1 {
                        assert(before[4 * (j / 3) + 2] == after[4 * (j / 3) + 2]);
                    }
                    if j % 3 == 2 {
                        assert(before[4 * (j / 3) + 3] == after[4 * (j / 3) + 3]);
                    }
                }
            }
            if let Some(next_byte) = next_result {
                plain_bytes.push(next_byte);
                proof {
                    let j = octets(before).len() as int;
                    assert(after[at as int] == encoded_byte);
                    assert(after[at - 1] == text@[at - 1]);
                    assert(octet_at(after, j) == next_byte);
                    assert(plain_bytes@ =~= octets(after));
                }
            } else {
                proof {
                    assert(plain_bytes@ =~= octets(after));
                }
            }

            byte_index = if byte_index == 3 {
                0
            } else {
                byte_index + 1
            };
            previous_byte = current_byte;
            at += 1;
        } else {
            proof {
                lemma_data_len(text@);
                if data_len(text@) <= at {
                    if data_len(text@) < at {
                        assert(text@[data_len(text@)] != PADDING_BYTE);
                    }
                    assert(text@[data_len(text@)] == PADDING_BYTE);
                }
                let data = text@.take(data_len(text@));
                assert(data[at as int] == text@[at as int]);
                assert(value_of(data[at as int]).is_none());
            }
            return None;
        }
    }
    proof {
        lemma_data_len_is(text@, at as int);
        assert(text@.take(at as int) =~= text@);
        assert forall|i: int| 0 <= i < text@.len() implies (#[trigger] value_of(
            text@.take(at as int)[i],
        )).is_some() by {
            assert(text@.take(at as int)[i] == text@[i]);
        }
    }
    Some(plain_bytes)
}

} // verus!
