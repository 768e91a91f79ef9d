//! The mathematical model of the codec: what a group of bytes encodes to,
//! what a group of symbols decodes to, and how groups are put together.

use crate::alphabet::{alphabet, is_symbol, symbol_index, PADDING};
use vstd::prelude::*;

verus! {

/// The byte at `position` of a group of up to three bytes; a byte that the
/// group lacks counts as zero.
pub open spec fn byte_or_zero(group: Seq<u8>, position: int) -> int {
    if 0 <= position < group.len() {
        group[position] as int
    } else {
        0
    }
}

/// The 24-bit buffer of a group of bytes: the first byte in bits 23–16, the
/// second in bits 15–8, the third in bits 7–0.
pub open spec fn pack_bytes(group: Seq<u8>) -> int {
    byte_or_zero(group, 0) * 0x1_0000 + byte_or_zero(group, 1) * 0x100 + byte_or_zero(group, 2)
}

/// The six-bit field of a 24-bit buffer at `slot`: slot 0 is bits 23–18,
/// slot 3 is bits 5–0.
pub open spec fn sextet(buffer: int, slot: int) -> int {
    if slot == 0 {
        buffer / 0x4_0000 % 64
    } else if slot == 1 {
        buffer / 0x1000 % 64
    } else if slot == 2 {
        buffer / 64 % 64
    } else {
        buffer % 64
    }
}

/// The byte of a 24-bit buffer at `position`: position 0 is bits 23–16,
/// position 2 is bits 7–0.
pub open spec fn octet(buffer: int, position: int) -> int {
    if position == 0 {
        buffer / 0x1_0000 % 256
    } else if position == 1 {
        buffer / 0x100 % 256
    } else {
        buffer % 256
    }
}

/// A six-bit value moved to its place in the 24-bit buffer.
pub open spec fn sextet_at(bits: int, slot: int) -> int {
    if slot == 0 {
        bits * 0x4_0000
    } else if slot == 1 {
        bits * 0x1000
    } else if slot == 2 {
        bits * 64
    } else {
        bits
    }
}

/// The four symbols that stand for a buffer packed from `count` bytes:
/// `count + 1` symbols of the alphabet, then padding.
pub open spec fn group_symbols(buffer: int, count: int) -> Seq<char> {
    Seq::new(
        4,
        |slot: int|
            if slot <= count {
                alphabet()[sextet(buffer, slot)]
            } else {
                PADDING
            },
    )
}

/// The encoding of one group of one to three bytes.
pub open spec fn encode_group(group: Seq<u8>) -> Seq<char> {
    group_symbols(pack_bytes(group), group.len() as int)
}

/// How many bytes the first group takes from `remaining` bytes.
pub open spec fn group_len(remaining: nat) -> int {
    if remaining < 3 {
        remaining as int
    } else {
        3
    }
}

/// The encoding of a byte sequence: its groups of three bytes, the last one
/// possibly shorter, each encoded on its own and joined in order.
pub open spec fn encoded_text(bytes: Seq<u8>) -> Seq<char>
    decreases bytes.len(),
{
    if bytes.len() == 0 {
        Seq::empty()
    } else {
        let n = group_len(bytes.len());
        encode_group(bytes.take(n)) + encoded_text(bytes.skip(n))
    }
}

/// What one character adds to the buffer: a symbol its index, the padding
/// symbol nothing.
pub open spec fn symbol_bits(c: char) -> int {
    if c == PADDING {
        0
    } else {
        symbol_index(c)
    }
}

/// The buffer folded from the first characters of a group, each at the
/// slot it stands at.
pub open spec fn pack_symbols(symbols: Seq<char>) -> int
    decreases symbols.len(),
{
    if symbols.len() == 0 {
        0
    } else {
        pack_symbols(symbols.drop_last()) + sextet_at(
            symbol_bits(symbols.last()),
            symbols.len() - 1,
        )
    }
}

/// One where the character at `slot` is the padding symbol, zero where it
/// is not.
pub open spec fn padding_at(symbols: Seq<char>, slot: int) -> int {
    if symbols[slot] == PADDING {
        1
    } else {
        0
    }
}

/// How many padding symbols a sequence holds.
pub open spec fn padding_count(symbols: Seq<char>) -> int
    decreases symbols.len(),
{
    if symbols.len() == 0 {
        0
    } else {
        padding_count(symbols.drop_last()) + padding_at(symbols, symbols.len() - 1)
    }
}

/// How many bytes a group with `padding` padding symbols yields.
pub open spec fn yield_len(padding: int) -> int {
    if padding >= 3 {
        0
    } else {
        3 - padding
    }
}

/// The leading `count` bytes of a buffer, most significant first.
pub open spec fn buffer_bytes(buffer: int, count: int) -> Seq<u8> {
    Seq::new(count as nat, |position: int| octet(buffer, position) as u8)
}

/// The bytes that one group of four characters decodes to.
pub open spec fn decode_group(group: Seq<char>) -> Seq<u8> {
    buffer_bytes(pack_symbols(group), yield_len(padding_count(group)))
}

/// The bytes that a text decodes to: its complete groups of four
/// characters, each decoded on its own and joined in order.  Fewer than
/// four characters at the end yield nothing.
pub open spec fn decoded_bytes(text: Seq<char>) -> Seq<u8>
    decreases text.len(),
{
    if text.len() < 4 {
        Seq::empty()
    } else {
        decode_group(text.take(4)) + decoded_bytes(text.skip(4))
    }
}

/// Whether a character may occur in an encoded text.
pub open spec fn is_text_char(c: char) -> bool {
    is_symbol(c) || c == PADDING
}

/// Whether every character of a text is a symbol or the padding symbol.
pub open spec fn is_well_formed(text: Seq<char>) -> bool {
    forall|i: int| 0 <= i < text.len() ==> is_text_char(#[trigger] text[i])
}

/// Whether a text is made of symbols of the alphabet followed by exactly
/// `padding` padding symbols at its end.
pub open spec fn ends_with_padding(text: Seq<char>, padding: nat) -> bool {
    &&& padding <= text.len()
    &&& forall|i: int|
        0 <= i < text.len() - padding ==> is_symbol(#[trigger] text[i]) && text[i] != PADDING
    &&& forall|i: int| text.len() - padding <= i < text.len() ==> #[trigger] text[i] == PADDING
}

/// The number of characters that `n` bytes encode to.
pub open spec fn encoded_len(n: nat) -> nat {
    4 * ((n + 2) / 3)
}

/// The number of padding symbols at the end of the encoding of `n` bytes.
pub open spec fn trailing_padding(n: nat) -> nat {
    ((3 - n % 3) % 3) as nat
}

/// The span of the buffer that the slots from `slot` on take up: a buffer
/// that is a multiple of it has those slots empty.
pub open spec fn slot_span(slot: int) -> int {
    if slot == 0 {
        0x100_0000
    } else if slot == 1 {
        0x4_0000
    } else if slot == 2 {
        0x1000
    } else {
        64
    }
}

} // verus!
