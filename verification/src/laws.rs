//! What holds of the model: how long an encoding is and how it ends, how
//! encodings and decodings join, and that decoding undoes encoding.

use crate::alphabet::{is_symbol, lemma_symbol_index_of_entry, lemma_symbol_index_range, PADDING};
use crate::model::{
    decode_group, decoded_bytes, encode_group, encoded_len, encoded_text, ends_with_padding,
    group_len, is_text_char, is_well_formed, octet, pack_bytes, pack_symbols, padding_at,
    padding_count, sextet, sextet_at, slot_span, symbol_bits, trailing_padding, yield_len,
};
use vstd::prelude::*;
use vstd::utf8::{
    decode_utf8, encode_utf8, encode_utf8_decode_utf8, encode_utf8_valid_utf8, valid_utf8,
};

verus! {

/// The four six-bit fields of a 24-bit buffer, each at its slot, add up to
/// the buffer.
pub proof fn lemma_sextets_rebuild(buffer: int)
    requires
        0 <= buffer < 0x100_0000,
    ensures
        sextet_at(sextet(buffer, 0), 0) + sextet_at(sextet(buffer, 1), 1) + sextet_at(
            sextet(buffer, 2),
            2,
        ) + sextet_at(sextet(buffer, 3), 3) == buffer,
        forall|slot: int| 0 <= slot < 4 ==> 0 <= #[trigger] sextet(buffer, slot) < 64,
{
}

/// The buffer packed from a group of bytes holds each byte at its place,
/// and the six-bit fields that lie wholly in the bytes it lacks are zero.
pub proof fn lemma_pack_bytes_fields(group: Seq<u8>)
    requires
        1 <= group.len() <= 3,
    ensures
        0 <= pack_bytes(group) < 0x100_0000,
        forall|position: int|
            0 <= position < group.len() ==> #[trigger] octet(pack_bytes(group), position)
                == group[position],
        forall|slot: int|
            group.len() < slot < 4 ==> #[trigger] sextet(pack_bytes(group), slot) == 0,
{
}

/// Encoding goes group by group: where the first part is made of complete
/// groups of three bytes, the encoding of two parts joined is their
/// encodings joined.
pub proof fn lemma_encoded_concat(a: Seq<u8>, b: Seq<u8>)
    requires
        a.len() % 3 == 0,
    ensures
        encoded_text(a + b) == encoded_text(a) + encoded_text(b),
    decreases a.len(),
{
    if a.len() == 0 {
        assert(a + b == b);
    } else {
        assert((a + b).take(3) == a.take(3));
        assert((a + b).skip(3) == a.skip(3) + b);
        lemma_encoded_concat(a.skip(3), b);
    }
}

/// A byte sequence of length `n` encodes to `4 * ceil(n / 3)` characters.
pub proof fn lemma_encoded_len(bytes: Seq<u8>)
    ensures
        encoded_text(bytes).len() == encoded_len(bytes.len()),
        encoded_text(bytes).len() % 4 == 0,
    decreases bytes.len(),
{
    if bytes.len() > 0 {
        lemma_encoded_len(bytes.skip(group_len(bytes.len())));
    }
}

/// The number of bytes that were encoded can be read off an encoding:
/// three for each group of four characters, less the padding symbols at
/// its end, of which there are at most two.
pub proof fn lemma_len_from_padding(bytes: Seq<u8>)
    ensures
        trailing_padding(bytes.len()) <= 2,
        bytes.len() == 3 * (encoded_text(bytes).len() / 4) - trailing_padding(bytes.len()),
{
    lemma_encoded_len(bytes);
}

/// An encoding ends with exactly `(3 - n mod 3) mod 3` padding symbols,
/// where `n` is the number of bytes encoded, and every character before
/// them is a symbol of the alphabet.  So every encoding is well-formed.
pub proof fn lemma_encoded_shape(bytes: Seq<u8>)
    ensures
        ends_with_padding(encoded_text(bytes), trailing_padding(bytes.len())),
        is_well_formed(encoded_text(bytes)),
    decreases bytes.len(),
{
    if bytes.len() > 0 {
        let n = group_len(bytes.len());
        let head = encode_group(bytes.take(n));
        let rest = bytes.skip(n);
        let buffer = pack_bytes(bytes.take(n));
        lemma_encoded_shape(rest);
        lemma_encoded_len(rest);
        lemma_encoded_len(bytes);
        assert forall|slot: int| 0 <= slot < 4 && slot <= n implies is_symbol(
            #[trigger] head[slot],
        ) && head[slot] != PADDING by {
            lemma_pack_bytes_fields(bytes.take(n));
            lemma_sextets_rebuild(buffer);
            lemma_symbol_index_of_entry(sextet(buffer, slot));
        }
        let text = encoded_text(bytes);
        assert forall|i: int| 0 <= i < text.len() implies text[i] == (if i < 4 {
            head[i]
        } else {
            encoded_text(rest)[i - 4]
        }) by {}
    }
}

/// Every part of a well-formed text is well-formed.
pub proof fn lemma_well_formed_parts(text: Seq<char>, at: int)
    requires
        is_well_formed(text),
        0 <= at <= text.len(),
    ensures
        is_well_formed(text.take(at)),
        is_well_formed(text.skip(at)),
{
    assert forall|i: int| 0 <= i < text.skip(at).len() implies is_text_char(
        #[trigger] text.skip(at)[i],
    ) by {
        assert(text.skip(at)[i] == text[at + i]);
    }
}

/// The buffer folded from up to four characters fits in 24 bits, and the
/// slots that no character has reached yet are empty.
pub proof fn lemma_pack_symbols_bounds(symbols: Seq<char>)
    requires
        symbols.len() <= 4,
        is_well_formed(symbols),
    ensures
        0 <= pack_symbols(symbols) < 0x100_0000,
        symbols.len() < 4 ==> pack_symbols(symbols) % slot_span(symbols.len() as int) == 0,
    decreases symbols.len(),
{
    if symbols.len() > 0 {
        let c = symbols.last();
        assert(is_text_char(c));
        if c != PADDING {
            lemma_symbol_index_range(c);
        }
        lemma_well_formed_parts(symbols, symbols.len() - 1);
        lemma_pack_symbols_bounds(symbols.drop_last());
    }
}

/// The buffer and the padding count of a group of four characters, written
/// out slot by slot.
pub proof fn lemma_group_unfolded(group: Seq<char>)
    requires
        group.len() == 4,
    ensures
        pack_symbols(group) == sextet_at(symbol_bits(group[0]), 0) + sextet_at(
            symbol_bits(group[1]),
            1,
        ) + sextet_at(symbol_bits(group[2]), 2) + sextet_at(symbol_bits(group[3]), 3),
        padding_count(group) == padding_at(group, 0) + padding_at(group, 1) + padding_at(group, 2)
            + padding_at(group, 3),
{
    let three = group.drop_last();
    let two = three.drop_last();
    let one = two.drop_last();
    assert(pack_symbols(one.drop_last()) == 0);
    assert(padding_count(one.drop_last()) == 0);
    assert(pack_symbols(one) == sextet_at(symbol_bits(group[0]), 0));
    assert(padding_count(one) == padding_at(group, 0));
    assert(pack_symbols(two) == pack_symbols(one) + sextet_at(symbol_bits(group[1]), 1));
    assert(padding_count(two) == padding_count(one) + padding_at(group, 1));
    assert(pack_symbols(three) == pack_symbols(two) + sextet_at(symbol_bits(group[2]), 2));
    assert(padding_count(three) == padding_count(two) + padding_at(group, 2));
}

/// Decoding goes group by group: where the first part is made of complete
/// groups of four characters, the decoding of two parts joined is their
/// decodings joined.
pub proof fn lemma_decoded_concat(a: Seq<char>, b: Seq<char>)
    requires
        a.len() % 4 == 0,
    ensures
        decoded_bytes(a + b) == decoded_bytes(a) + decoded_bytes(b),
    decreases a.len(),
{
    if a.len() == 0 {
        assert(a + b == b);
    } else {
        assert((a + b).take(4) == a.take(4));
        assert((a + b).skip(4) == a.skip(4) + b);
        lemma_decoded_concat(a.skip(4), b);
    }
}

/// Decoding the encoding of one group of one to three bytes gives the
/// group back.
pub proof fn lemma_decode_group_inverts_encode_group(group: Seq<u8>)
    requires
        1 <= group.len() <= 3,
    ensures
        decode_group(encode_group(group)) == group,
{
    let buffer = pack_bytes(group);
    let count = group.len() as int;
    let symbols = encode_group(group);
    lemma_pack_bytes_fields(group);
    lemma_sextets_rebuild(buffer);
    assert forall|slot: int| 0 <= slot < 4 implies symbol_bits(#[trigger] symbols[slot]) == sextet(
        buffer,
        slot,
    ) && padding_at(symbols, slot) == (if slot > count {
        1int
    } else {
        0int
    }) by {
        if slot <= count {
            lemma_symbol_index_of_entry(sextet(buffer, slot));
        }
    }
    assert(pack_symbols(symbols) == buffer && padding_count(symbols) == 3 - count) by {
        lemma_group_unfolded(symbols);
    }
    assert(yield_len(padding_count(symbols)) == count);
    assert(decode_group(symbols) =~= group);
}

/// Decoding undoes encoding: the encoding of any byte sequence is
/// well-formed and decodes to that sequence.
pub proof fn lemma_decode_inverts_encode(bytes: Seq<u8>)
    ensures
        is_well_formed(encoded_text(bytes)),
        decoded_bytes(encoded_text(bytes)) == bytes,
    decreases bytes.len(),
{
    lemma_encoded_shape(bytes);
    if bytes.len() > 0 {
        let n = group_len(bytes.len());
        let head = encode_group(bytes.take(n));
        let rest = encoded_text(bytes.skip(n));
        let text = encoded_text(bytes);
        lemma_decode_group_inverts_encode_group(bytes.take(n));
        lemma_decode_inverts_encode(bytes.skip(n));
        assert(text.take(4) == head);
        assert(text.skip(4) == rest);
        assert(bytes.take(n) + bytes.skip(n) == bytes);
    }
}

/// The round trip on text: encoding the UTF-8 bytes of any text gives a
/// well-formed text whose decoded bytes are UTF-8 and read as the text that
/// was encoded.  So `decode` gives back every string that `encode` was
/// given.
pub proof fn lemma_round_trip(text: Seq<char>)
    ensures
        is_well_formed(encoded_text(encode_utf8(text))),
        valid_utf8(decoded_bytes(encoded_text(encode_utf8(text)))),
        decode_utf8(decoded_bytes(encoded_text(encode_utf8(text)))) == text,
{
    lemma_decode_inverts_encode(encode_utf8(text));
    encode_utf8_valid_utf8(text);
    encode_utf8_decode_utf8(text);
}

} // verus!
