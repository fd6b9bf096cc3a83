//! Decoding undoes encoding.

use crate::base64::decode::{data_len, decoded, decoded_len, lemma_data_len_is, octet_at, octets, value_of};
use crate::base64::encode::{byte_at, data_symbols, encoded, sextet_at, symbol_of, PADDING_BYTE};
use vstd::prelude::*;

verus! {

/// A symbol stands for the six-bit value that it was made of, and is no
/// padding byte.
pub proof fn lemma_symbol_value(value: u8)
    requires
        value < 64,
    ensures
        value_of(symbol_of(value)) == Some(value),
        symbol_of(value) != PADDING_BYTE,
{
}

/// The four six-bit values of a group are below 64 and hold the bits of
/// its three bytes.
pub proof fn lemma_group_bits(first: u8, second: u8, third: u8)
    ensures
        first >> 2 < 64,
        ((first & 3) << 4) | (second >> 4) < 64,
        ((second & 15) << 2) | (third >> 6) < 64,
        third & 63 < 64,
        ((first >> 2) << 2) | ((((first & 3) << 4) | (second >> 4)) >> 4) == first,
        (((((first & 3) << 4) | (second >> 4)) & 15) << 4) | ((((second & 15) << 2) | (third >> 6))
            >> 2) == second,
        (((((second & 15) << 2) | (third >> 6)) & 3) << 6) | (third & 63) == third,
{
    assert(first >> 2 < 64 && ((first & 3) << 4) | (second >> 4) < 64 && ((second & 15) << 2) | (
    third >> 6) < 64 && third & 63 < 64) by (bit_vector);
    assert(((first >> 2) << 2) | ((((first & 3) << 4) | (second >> 4)) >> 4) == first)
        by (bit_vector);
    assert((((((first & 3) << 4) | (second >> 4)) & 15) << 4) | ((((second & 15) << 2) | (third
        >> 6)) >> 2) == second) by (bit_vector);
    assert((((((second & 15) << 2) | (third >> 6)) & 3) << 6) | (third & 63) == third)
        by (bit_vector);
}

/// Every six-bit value of an encoding is below 64.
pub proof fn lemma_sextet_bound(bytes: Seq<u8>, p: int)
    ensures
        sextet_at(bytes, p) < 64,
{
    let group = p / 4;
    lemma_group_bits(
        byte_at(bytes, 3 * group),
        byte_at(bytes, 3 * group + 1),
        byte_at(bytes, 3 * group + 2),
    );
}

/// Base64 text decodes to the bytes that it encodes, with or without padding.
pub proof fn lemma_decode_encoded(bytes: Seq<u8>, unpadded: bool)
    ensures
        decoded(encoded(bytes, unpadded)) == Some(bytes),
{
    let text = encoded(bytes, unpadded);
    let count = data_symbols(bytes.len()) as int;
    assert(count <= text.len());
    assert forall|p: int| 0 <= p < count implies #[trigger] text[p] != PADDING_BYTE by {
        lemma_sextet_bound(bytes, p);
        lemma_symbol_value(sextet_at(bytes, p));
    }
    lemma_data_len_is(text, count);
    let data = text.take(count);
    assert forall|p: int| 0 <= p < data.len() implies (#[trigger] value_of(data[p])) == Some(
        sextet_at(bytes, p),
    ) by {
        lemma_sextet_bound(bytes, p);
        lemma_symbol_value(sextet_at(bytes, p));
    }
    assert(decoded_len(count) == bytes.len());
    assert forall|j: int| 0 <= j < bytes.len() implies octet_at(data, j) == bytes[j] by {
        let group = j / 3;
        lemma_group_bits(
            byte_at(bytes, 3 * group),
            byte_at(bytes, 3 * group + 1),
            byte_at(bytes, 3 * group + 2),
        );
        assert(value_of(data[4 * group]) == Some(sextet_at(bytes, 4 * group)));
        assert(value_of(data[4 * group + 1]) == Some(sextet_at(bytes, 4 * group + 1)));
        if j % 3 >= 1 {
            assert(value_of(data[4 * group + 2]) == Some(sextet_at(bytes, 4 * group + 2)));
        }
        if j % 3 == 2 {
            assert(value_of(data[4 * group + 3]) == Some(sextet_at(bytes, 4 * group + 3)));
        }
    }
    assert(octets(data) =~= bytes);
}

} // verus!
