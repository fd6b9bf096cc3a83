//! Encoding bytes as base64 text, one symbol at a time.

use crate::text::{ascii_chars, ascii_string};
use vstd::prelude::*;

verus! {

/// One byte of encoded text.
pub type EncodedByte = u8;

/// The byte that fills the last group of four symbols: `=`.
pub const PADDING_BYTE: EncodedByte = 61;

/// How to encode or decode.
pub struct Options {
    /// Leave the padding out.
    pub unpadded: bool,
}

impl Default for Options {
    /// The usual options: with padding.
    fn default() -> (options: Self)
        ensures
            !options.unpadded,
    {
        Options { unpadded: false }
    }
}

/// The symbol that stands for a six-bit value: `A` to `Z`, `a` to `z`,
/// `0` to `9`, `+` and `/`.
pub open spec fn symbol_of(value: u8) -> EncodedByte {
    if value < 26 {
        (65 + value) as u8
    } else if value < 52 {
        (97 + (value - 26)) as u8
    } else if value < 62 {
        (48 + (value - 52)) as u8
    } else if value == 62 {
        43
    } else {
        47
    }
}

/// The byte at `i`, or 0 past the end: the input is read as a bit string
/// that zeros complete to whole symbols.
pub open spec fn byte_at(bytes: Seq<u8>, i: int) -> u8 {
    if 0 <= i < bytes.len() {
        bytes[i]
    } else {
        0
    }
}

/// The six-bit value at position `p` of the encoding. Each group of three
/// bytes gives four values, most significant bits first.
pub open spec fn sextet_at(bytes: Seq<u8>, p: int) -> u8 {
    let group = p / 4;
    let first = byte_at(bytes, 3 * group);
    let second = byte_at(bytes, 3 * group + 1);
    let third = byte_at(bytes, 3 * group + 2);
    if p % 4 == 0 {
        first >> 2
    } else if p % 4 == 1 {
        ((first & 3) << 4) | (second >> 4)
    } else if p % 4 == 2 {
        ((second & 15) << 2) | (third >> 6)
    } else {
        third & 63
    }
}

/// The number of symbols that carry data for `len` bytes of input.
pub open spec fn data_symbols(len: nat) -> nat {
    4 * (len / 3) + if len % 3 == 0 {
        0nat
    } else {
        len % 3 + 1
    }
}

/// The length of the encoding of `len` bytes: the data symbols, completed
/// to a multiple of four by padding unless that is left out.
pub open spec fn encoded_len(len: nat, unpadded: bool) -> nat {
    if unpadded {
        data_symbols(len)
    } else {
        4 * ((len + 2) / 3)
    }
}

/// The base64 encoding of `bytes`.
pub open spec fn encoded(bytes: Seq<u8>, unpadded: bool) -> Seq<EncodedByte> {
    Seq::new(
        encoded_len(bytes.len(), unpadded),
        |p: int|
            if p < data_symbols(bytes.len()) {
                symbol_of(sextet_at(bytes, p))
            } else {
                PADDING_BYTE
            },
    )
}

/// The symbol for a six-bit value.
pub fn encode_sextet(value: u8) -> (symbol: EncodedByte)
    requires
        value < 64,
    ensures
        symbol == symbol_of(value),
        symbol < 128,
{
    if value < 26 {
        65 + value
    } else if value < 52 {
        97 + (value - 26)
    } else if value < 62 {
        48 + (value - 52)
    } else if value == 62 {
        43
    } else {
        47
    }
}

/// A cursor over the encoding of a byte string, which it produces symbol by symbol.
pub struct EncodedStream<'a> {
    index: usize,
    previous_byte: u8,
    byte_index: u8,
    padding: Option<u8>,
    unpadded: bool,
    bytes: &'a [u8],
}

impl<'a> EncodedStream<'a> {
    /// The bytes that are being encoded.
    pub closed spec fn input(&self) -> Seq<u8> {
        self.bytes@
    }

    /// Whether padding is left out.
    pub closed spec fn is_unpadded(&self) -> bool {
        self.unpadded
    }

    /// The number of symbols produced so far.
    pub closed spec fn position(&self) -> nat {
        let groups = self.index / 3;
        match self.padding {
            None => (4 * groups + self.byte_index) as nat,
            Some(left) => (4 * groups + 4 - left) as nat,
        }
    }

    /// The invariant of the cursor: its fields describe a place in the encoding.
    pub closed spec fn wf(&self) -> bool {
        &&& self.byte_index <= 3
        &&& self.index <= self.bytes@.len()
        &&& match self.padding {
            None => {
                &&& self.index % 3 == if self.byte_index == 3 {
                    2int
                } else {
                    self.byte_index as int
                }
                &&& (self.byte_index == 1 || self.byte_index == 2) ==> self.previous_byte
                    == self.bytes@[self.index - 1]
                &&& self.byte_index == 3 ==> self.index < self.bytes@.len()
            },
            Some(left) => {
                &&& self.index == self.bytes@.len()
                &&& (self.byte_index == 1 || self.byte_index == 2)
                &&& self.index % 3 == self.byte_index
                &&& left + self.byte_index <= 3
                &&& self.unpadded ==> left + self.byte_index == 3
            },
        }
    }

    /// A cursor at the start of the encoding of `bytes`.
    pub fn new(bytes: &'a [u8], options: Options) -> (stream: Self)
        ensures
            stream.wf(),
            stream.input() == bytes@,
            stream.is_unpadded() == options.unpadded,
            stream.position() == 0,
    {
        let Options { unpadded } = options;

        Self { index: 0, previous_byte: 0, byte_index: 0, padding: None, unpadded, bytes }
    }

    /// Produces the next symbol of the encoding, or `None` at its end.
    pub fn next(&mut self) -> (symbol: Option<EncodedByte>)
        requires
            old(self).wf(),
        ensures
            final(self).wf(),
            final(self).input() == old(self).input(),
            final(self).is_unpadded() == old(self).is_unpadded(),
            old(self).position() <= encoded(old(self).input(), old(self).is_unpadded()).len(),
            old(self).position() < encoded(old(self).input(), old(self).is_unpadded()).len() ==> {
                &&& symbol == Some(
                    encoded(old(self).input(), old(self).is_unpadded())[old(self).position() as int],
                )
                &&& final(self).position() == old(self).position() + 1
            },
            old(self).position() == encoded(old(self).input(), old(self).is_unpadded()).len() ==> {
                &&& symbol is None
                &&& final(self).position() == old(self).position()
            },
    {
        let bytes = self.bytes;
        let byte_index = self.byte_index;
        let ghost p = self.position() as int;
        let ghost group = (self.index / 3) as int;

        if self.index >= bytes.len() {
            if let Some(padding_remaining) = self.padding {
                if self.unpadded {
                    None
                } else if padding_remaining > 0 {
                    self.padding = Some(padding_remaining - 1);

                    Some(PADDING_BYTE)
                } else {
                    None
                }
            } else if byte_index == 0 {
                None
            } else if byte_index == 1 {
                self.padding = Some(2);

                let previous = self.previous_byte;
                let last_encoded = (previous & 0b00000011) << 4;
                proof {
                    assert(p % 4 == 1 && p / 4 == group);
                    assert((previous & 3) << 4 == ((previous & 3) << 4) | (0u8 >> 4)
                        && (previous & 3) << 4 < 64) by (bit_vector);
                }

                Some(encode_sextet(last_encoded))
            } else {
                self.padding = Some(1);

                let previous = self.previous_byte;
                let last_encoded = (previous & 0b00001111) << 2;
                proof {
                    assert(p % 4 == 2 && p / 4 == group);
                    assert((previous & 15) << 2 == ((previous & 15) << 2) | (0u8 >> 6)
                        && (previous & 15) << 2 < 64) by (bit_vector);
                }

                Some(encode_sextet(last_encoded))
            }
        } else {
            let current_byte = bytes[self.index];
            let previous = self.previous_byte;
            proof {
                assert(p % 4 == byte_index && p / 4 == group);
                assert((current_byte & 0b11111100) >> 2 == current_byte >> 2 && current_byte >> 2
                    < 64) by (bit_vector);
                assert(((previous & 3) << 4) + ((current_byte & 0b11110000) >> 4) == ((previous
                    & 3) << 4) | (current_byte >> 4) && ((previous & 3) << 4) | (current_byte >> 4)
                    < 64 && ((previous & 3) << 4) < 64 && ((current_byte & 0b11110000) >> 4) < 16)
                    by (bit_vector);
                assert(((previous & 15) << 2) + ((current_byte & 0b11000000) >> 6) == ((previous
                    & 15) << 2) | (current_byte >> 6) && ((previous & 15) << 2) | (current_byte
                    >> 6) < 64 && ((previous & 15) << 2) < 64 && ((current_byte & 0b11000000) >> 6)
                    < 4) by (bit_vector);
                assert(current_byte & 0b00111111 == current_byte & 63 && current_byte & 63 < 64)
                    by (bit_vector);
            }

            let next_encoded: EncodedByte = if byte_index == 0 {
                (current_byte & 0b11111100) >> 2
            } else if byte_index == 1 {
                ((previous & 0b00000011) << 4) + ((current_byte & 0b11110000) >> 4)
            } else if byte_index == 2 {
                ((previous & 0b00001111) << 2) + ((current_byte & 0b11000000) >> 6)
            } else {
                current_byte & 0b00111111
            };

            self.byte_index = if byte_index == 3 {
                0
            } else {
                byte_index + 1
            };
            self.index += if byte_index == 2 {
                0
            } else {
                1
            };
            self.previous_byte = current_byte;

            Some(encode_sextet(next_encoded))
        }
    }
}

/// The base64 text of `bytes`.
pub fn encode_bytes(bytes: &[u8], options: Options) -> (text: String)
    ensures
        text@ == ascii_chars(encoded(bytes@, options.unpadded)),
{
    let ghost unpadded = options.unpadded;
    let ghost whole = encoded(bytes@, unpadded);
    let mut stream = EncodedStream::new(bytes, options);
    let mut symbols: Vec<u8> = Vec::new();
    loop
        invariant
            stream.wf(),
            stream.input() == bytes@,
            stream.is_unpadded() == unpadded,
            whole == encoded(bytes@, unpadded),
            stream.position() <= whole.len(),
            symbols@ == whole.take(stream.position() as int),
        ensures
            symbols@ == whole,
        decreases whole.len() - stream.position(),
    {
        let ghost before = stream.position() as int;
        match stream.next() {
            None => {
                assert(whole.take(whole.len() as int) =~= whole);
                break ;
            },
            Some(symbol) => {
                symbols.push(symbol);
                assert(symbols@ =~= whole.take(before + 1));
            },
        }
    }
    proof {
        assert forall|i: int| 0 <= i < whole.len() implies #[trigger] whole[i] < 128 by {
            lemma_symbol_is_ascii(sextet_at(bytes@, i));
        }
    }
    ascii_string(symbols)
}

/// What can be encoded as base64 text.
pub trait Encodeable {
    /// The bytes that are encoded.
    spec fn plain_bytes(&self) -> Seq<u8>;

    /// The base64 text of the value's bytes.
    fn encode(&self, options: Options) -> (text: String)
        ensures
            text@ == ascii_chars(encoded(self.plain_bytes(), options.unpadded)),
    ;
}

impl Encodeable for String {
    /// A string is encoded as its UTF-8 bytes.
    open spec fn plain_bytes(&self) -> Seq<u8> {
        vstd::utf8::encode_utf8(self@)
    }

    fn encode(&self, options: Options) -> (text: String) {
        encode_bytes(self.as_str().as_bytes(), options)
    }
}

impl Encodeable for [u8] {
    open spec fn plain_bytes(&self) -> Seq<u8> {
        self@
    }

    fn encode(&self, options: Options) -> (text: String) {
        encode_bytes(self, options)
    }
}

/// Every symbol of the alphabet is an ASCII character.
pub proof fn lemma_symbol_is_ascii(value: u8)
    ensures
        symbol_of(value) < 128,
{
}

} // verus!
