//! The codec itself: `Base64` with `encode` and `decode`, and the error
//! that decoding reports.

use crate::alphabet::{index_of_symbol, push_padding, push_symbol, PADDING};
use crate::laws::{
    lemma_decoded_concat, lemma_encoded_concat, lemma_encoded_len, lemma_encoded_shape,
    lemma_pack_symbols_bounds, lemma_well_formed_parts,
};
use crate::model::{
    buffer_bytes, byte_or_zero, decode_group, decoded_bytes, encode_group, encoded_len,
    encoded_text, ends_with_padding, group_symbols, is_text_char, is_well_formed, octet,
    pack_bytes, pack_symbols, padding_count, sextet, sextet_at, slot_span, trailing_padding,
    yield_len,
};
use crate::text::rejected_bytes;
use std::string::FromUtf8Error;
use vstd::prelude::*;
use vstd::string::to_string_from_display_ensures;
use vstd::utf8::{decode_utf8, encode_utf8, encode_utf8_decode_utf8, valid_utf8};

verus! {

/// Why a text could not be decoded.
#[derive(Debug)]
pub enum Base64Error {
    /// The decoded bytes are not UTF-8; the standard library's diagnostic is
    /// carried along.
    Utf8Error(FromUtf8Error),
    /// The text holds a character that is neither a symbol of the alphabet
    /// nor the padding symbol.
    InvalidCharacter,
}

impl Base64Error {
    /// The message of this error: a fixed sentence for an invalid character,
    /// and for bytes that are not UTF-8 the text that the standard library's
    /// diagnostic displays.
    pub fn to_string(&self) -> (message: String)
        ensures
            match self {
                Base64Error::InvalidCharacter => message@ == "Invalid character in input"@,
                Base64Error::Utf8Error(error) => to_string_from_display_ensures::<FromUtf8Error>(
                    error,
                    message,
                ),
            },
    {
        match self {
            Base64Error::InvalidCharacter => "Invalid character in input".to_string(),
            Base64Error::Utf8Error(error) => error.to_string(),
        }
    }
}

/// The byte of a buffer at `position`, by shifting.
fn octet_of(buffer: u32, position: u8) -> (byte: u8)
    requires
        buffer < 0x100_0000,
        position < 3,
    ensures
        byte as int == octet(buffer as int, position as int),
{
    assert((buffer >> 16) & 0xff == buffer / 0x1_0000 % 256) by (bit_vector);
    assert((buffer >> 8) & 0xff == buffer / 0x100 % 256) by (bit_vector);
    assert(buffer & 0xff == buffer % 256) by (bit_vector);
    assert((buffer >> 16) & 0xff < 256 && (buffer >> 8) & 0xff < 256 && buffer & 0xff < 256)
        by (bit_vector);
    let shifted: u32 = if position == 0 {
        buffer >> 16
    } else if position == 1 {
        buffer >> 8
    } else {
        buffer
    };
    (shifted & 0xff) as u8
}

/// Folds a six-bit index into the buffer at `slot`, which is still empty.
fn fold_symbol(buffer: u32, slot: u8, index: u8) -> (folded: u32)
    requires
        slot < 4,
        index < 64,
        buffer < 0x100_0000,
        buffer as int % slot_span(slot as int) == 0,
    ensures
        folded as int == buffer + sextet_at(index as int, slot as int),
        folded < 0x100_0000,
{
    let bits: u32 = index as u32;
    let placed: u32 = if slot == 0 {
        assert((buffer | ((bits << 18) & 0xFF_FFFF)) == buffer + bits * 0x4_0000 && buffer + bits
            * 0x4_0000 < 0x100_0000) by (bit_vector)
            requires
                buffer < 0x100_0000 && buffer % 0x100_0000 == 0 && bits < 64,
        ;
        bits << 18
    } else if slot == 1 {
        assert((buffer | ((bits << 12) & 0xFF_FFFF)) == buffer + bits * 0x1000 && buffer + bits
            * 0x1000 < 0x100_0000) by (bit_vector)
            requires
                buffer < 0x100_0000 && buffer % 0x4_0000 == 0 && bits < 64,
        ;
        bits << 12
    } else if slot == 2 {
        assert((buffer | ((bits << 6) & 0xFF_FFFF)) == buffer + bits * 64 && buffer + bits * 64
            < 0x100_0000) by (bit_vector)
            requires
                buffer < 0x100_0000 && buffer % 0x1000 == 0 && bits < 64,
        ;
        bits << 6
    } else {
        assert((buffer | (bits & 0xFF_FFFF)) == buffer + bits && buffer + bits < 0x100_0000)
            by (bit_vector)
            requires
                buffer < 0x100_0000 && buffer % 64 == 0 && bits < 64,
        ;
        bits
    };
    buffer | (placed & 0xFF_FFFF)
}

/// Appends the bytes that a complete group yields: the leading
/// `3 - padding` bytes of its buffer, none where that is not positive.
fn push_bytes(bytes: &mut Vec<u8>, buffer: u32, padding: u8)
    requires
        buffer < 0x100_0000,
    ensures
        final(bytes)@ == old(bytes)@ + buffer_bytes(buffer as int, yield_len(padding as int)),
{
    let count: u8 = if padding >= 3 {
        0
    } else {
        3 - padding
    };
    let mut position: u8 = 0;
    while position < count
        invariant
            position <= count <= 3,
            buffer < 0x100_0000,
            bytes@ == old(bytes)@ + buffer_bytes(buffer as int, position as int),
        decreases count - position,
    {
        let byte: u8 = octet_of(buffer, position);
        bytes.push(byte);
        position = position + 1;
    }
}

/// The 24-bit buffer of the `count` bytes that start at `start`.
fn pack_group(bytes: &[u8], start: usize, count: usize) -> (buffer: u32)
    requires
        1 <= count <= 3,
        start + count <= bytes@.len(),
    ensures
        buffer as int == pack_bytes(bytes@.subrange(start as int, start + count)),
        buffer < 0x100_0000,
{
    let ghost group: Seq<u8> = bytes@.subrange(start as int, start + count);
    let first: u32 = bytes[start] as u32;
    let second: u32 = if count > 1 {
        bytes[start + 1] as u32
    } else {
        0
    };
    let third: u32 = if count > 2 {
        bytes[start + 2] as u32
    } else {
        0
    };
    assert(first == byte_or_zero(group, 0));
    assert(second == byte_or_zero(group, 1));
    assert(third == byte_or_zero(group, 2));
    assert(first < 256 && second < 256 && third < 256 ==> ((first << 16) | (second << 8) | third)
        == first * 0x1_0000 + second * 0x100 + third) by (bit_vector);
    (first << 16) | (second << 8) | third
}

/// The six-bit field of a buffer at `slot`, by shifting.
fn sextet_of(buffer: u32, slot: u8) -> (bits: u8)
    requires
        buffer < 0x100_0000,
        slot < 4,
    ensures
        bits as int == sextet(buffer as int, slot as int),
        bits < 64,
{
    assert((buffer >> 18) & 0x3f == buffer / 0x4_0000 % 64) by (bit_vector);
    assert((buffer >> 12) & 0x3f == buffer / 0x1000 % 64) by (bit_vector);
    assert((buffer >> 6) & 0x3f == buffer / 64 % 64) by (bit_vector);
    assert(buffer & 0x3f == buffer % 64) by (bit_vector);
    let shifted: u32 = if slot == 0 {
        buffer >> 18
    } else if slot == 1 {
        buffer >> 12
    } else if slot == 2 {
        buffer >> 6
    } else {
        buffer
    };
    (shifted & 0x3f) as u8
}

/// Appends the four characters that stand for a buffer packed from `count`
/// bytes: `count + 1` symbols, then padding.
fn push_group(out: &mut String, buffer: u32, count: usize)
    requires
        buffer < 0x100_0000,
        1 <= count <= 3,
    ensures
        final(out)@ == old(out)@ + group_symbols(buffer as int, count as int),
{
    let mut slot: u8 = 0;
    while slot < 4
        invariant
            slot <= 4,
            buffer < 0x100_0000,
            1 <= count <= 3,
            out@ == old(out)@ + group_symbols(buffer as int, count as int).take(slot as int),
        decreases 4 - slot,
    {
        if slot as usize <= count {
            let bits: u8 = sextet_of(buffer, slot);
            push_symbol(out, bits);
        } else {
            push_padding(out);
        }
        proof {
            let symbols = group_symbols(buffer as int, count as int);
            assert(symbols.take(slot + 1) == symbols.take(slot as int).push(symbols[slot as int]));
        }
        slot = slot + 1;
    }
    assert(group_symbols(buffer as int, count as int).take(4) == group_symbols(
        buffer as int,
        count as int,
    ));
}

/// The Base64 codec.  It holds no state.
pub struct Base64;

impl Base64 {
    /// A codec.
    pub fn new() -> (codec: Self)
        ensures
            codec == Base64,
    {
        Base64
    }

    /// Encodes the UTF-8 bytes of `input`.
    ///
    /// Each group of three bytes becomes four symbols; a last group of two
    /// bytes becomes three symbols and one padding symbol, a last group of
    /// one byte two symbols and two padding symbols.  The empty string
    /// encodes to the empty string.
    pub fn encode(&self, input: &str) -> (text: String)
        ensures
            text@ == encoded_text(encode_utf8(input@)),
            text@.len() == encoded_len(encode_utf8(input@).len()),
            ends_with_padding(text@, trailing_padding(encode_utf8(input@).len())),
            is_well_formed(text@),
    {
        let bytes: &[u8] = input.as_bytes();
        let len: usize = bytes.len();
        let mut text: String = String::new();
        let mut start: usize = 0;
        proof {
            assert(bytes@.take(0) == Seq::<u8>::empty());
        }
        while start < len
            invariant
                start <= len,
                len == bytes@.len(),
                start % 3 == 0 || start == len,
                text@ == encoded_text(bytes@.take(start as int)),
            decreases len - start,
        {
            let count: usize = if len - start < 3 {
                len - start
            } else {
                3
            };
            let buffer: u32 = pack_group(bytes, start, count);
            push_group(&mut text, buffer, count);
            proof {
                let group: Seq<u8> = bytes@.subrange(start as int, start + count);
                assert(bytes@.take(start + count) == bytes@.take(start as int) + group);
                lemma_encoded_concat(bytes@.take(start as int), group);
                assert(group.take(group.len() as int) == group);
                assert(encoded_text(group.skip(group.len() as int)) == Seq::<char>::empty());
                assert(encoded_text(group) == encode_group(group));
            }
            start = start + count;
        }
        proof {
            assert(bytes@.take(len as int) == bytes@);
            lemma_encoded_len(bytes@);
            lemma_encoded_shape(bytes@);
        }
        text
    }

    /// Decodes a text into the string whose UTF-8 bytes it stands for.
    ///
    /// Every complete group of four characters yields `3 - p` bytes, where
    /// `p` is the number of padding symbols in the group; fewer than four
    /// characters left over at the end yield nothing.  A character that is
    /// neither a symbol nor the padding symbol makes the whole text invalid,
    /// wherever it stands.  The bytes are then read as UTF-8.
    pub fn decode(&self, input: &str) -> (result: Result<String, Base64Error>)
        ensures
            match result {
                Ok(text) => {
                    &&& is_well_formed(input@)
                    &&& valid_utf8(decoded_bytes(input@))
                    &&& text@ == decode_utf8(decoded_bytes(input@))
                    &&& encode_utf8(text@) == decoded_bytes(input@)
                },
                Err(Base64Error::InvalidCharacter) => !is_well_formed(input@),
                Err(Base64Error::Utf8Error(error)) => {
                    &&& is_well_formed(input@)
                    &&& !valid_utf8(decoded_bytes(input@))
                    &&& rejected_bytes(error) == decoded_bytes(input@)
                },
            },
    {
        match decode_groups(input) {
            None => Err(Base64Error::InvalidCharacter),
            Some(bytes) => match String::from_utf8(bytes) {
                Ok(text) => {
                    proof {
                        encode_utf8_decode_utf8(text@);
                    }
                    Ok(text)
                },
                Err(error) => Err(Base64Error::Utf8Error(error)),
            },
        }
    }
}

/// The bytes of the complete groups of `input`, or `None` where `input`
/// holds a character that is neither a symbol nor the padding symbol.
fn decode_groups(input: &str) -> (decoded: Option<Vec<u8>>)
    ensures
        match decoded {
            Some(bytes) => is_well_formed(input@) && bytes@ == decoded_bytes(input@),
            None => !is_well_formed(input@),
        },
{
    let mut bytes: Vec<u8> = Vec::new();
    let mut buffer: u32 = 0;
    let mut padding: u8 = 0;
    let mut slot: u8 = 0;
    for c in chars: input.chars()
        invariant
            chars.seq() == input@,
            slot < 4,
            slot as int == chars.index() % 4,
            is_well_formed(input@.take(chars.index())),
            bytes@ == decoded_bytes(input@.take(chars.index() - slot)),
            buffer as int == pack_symbols(
                input@.subrange(chars.index() - slot, chars.index() as int),
            ),
            padding as int == padding_count(
                input@.subrange(chars.index() - slot, chars.index() as int),
            ),
            padding <= slot,
            buffer < 0x100_0000,
    {
        let ghost at: int = chars.index() as int;
        let ghost before: Seq<char> = input@.subrange(at - slot, at);
        let ghost group: Seq<char> = input@.subrange(at - slot, at + 1);
        proof {
            assert(group.drop_last() == before);
            assert(group.last() == c);
            lemma_well_formed_parts(input@.take(at), at - slot);
            assert(input@.take(at).skip(at - slot) == before);
            lemma_pack_symbols_bounds(before);
        }
        if c == PADDING {
            padding = padding + 1;
        } else {
            match index_of_symbol(c) {
                Some(index) => {
                    buffer = fold_symbol(buffer, slot, index);
                },
                None => {
                    assert(!is_text_char(input@[at]));
                    return None;
                },
            }
        }
        proof {
            assert(is_text_char(c));
            assert(input@.take(at + 1) == input@.take(at).push(c));
        }
        if slot == 3 {
            push_bytes(&mut bytes, buffer, padding);
            proof {
                assert(input@.take(at + 1) == input@.take(at - 3) + group);
                lemma_decoded_concat(input@.take(at - 3), group);
                assert(group.take(4) == group);
                assert(decoded_bytes(group.skip(4)) == Seq::<u8>::empty());
                assert(decoded_bytes(group) == decode_group(group));
                assert(input@.subrange(at + 1, at + 1) == Seq::<char>::empty());
            }
            buffer = 0;
            padding = 0;
            slot = 0;
        } else {
            slot = slot + 1;
        }
    }
    proof {
        let whole: int = input@.len() as int;
        assert(input@.take(whole) == input@);
        assert(input@ == input@.take(whole - slot) + input@.skip(whole - slot));
        lemma_decoded_concat(input@.take(whole - slot), input@.skip(whole - slot));
    }
    Some(bytes)
}

} // verus!
