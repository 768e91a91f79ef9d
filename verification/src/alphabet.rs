//! The symbol table: sixty-four symbols and the padding symbol.

use vstd::prelude::*;
use vstd::string::{StrSliceExecFns, StringExecFns};
use vstd::utf8::is_ascii_chars;

verus! {

/// The sixty-four symbols in index order: `A`–`Z`, `a`–`z`, `0`–`9`, `+`, `/`.
pub const ALPHABET: &'static str =
    "ABCDEFGHIJKLMNOPQRSTUVWXYZabcdefghijklmnopqrstuvwxyz0123456789+/";

/// The symbol that fills an incomplete trailing group.  It is not part of
/// the alphabet.
pub const PADDING: char = '=';

/// The alphabet as a sequence: `alphabet()[i]` is the symbol with index `i`.
pub open spec fn alphabet() -> Seq<char> {
    ALPHABET@
}

/// Whether `c` is one of the sixty-four symbols.
pub open spec fn is_symbol(c: char) -> bool {
    alphabet().contains(c)
}

/// The index of a symbol in the alphabet.  Meaningful only where
/// `is_symbol(c)` holds.
pub open spec fn symbol_index(c: char) -> int {
    alphabet().index_of(c)
}

/// The code point of the symbol with index `i`, by ranges.
pub open spec fn symbol_code(i: int) -> int {
    if i < 26 {
        'A' as int + i
    } else if i < 52 {
        'a' as int + (i - 26)
    } else if i < 62 {
        '0' as int + (i - 52)
    } else if i == 62 {
        '+' as int
    } else {
        '/' as int
    }
}

/// The alphabet has sixty-four entries, laid out in four ranges of code
/// points; all of them are ASCII and none is the padding symbol.
pub proof fn lemma_alphabet_layout()
    ensures
        alphabet().len() == 64,
        forall|i: int| 0 <= i < 64 ==> (#[trigger] alphabet()[i]) as int == symbol_code(i),
        is_ascii_chars(alphabet()),
        !is_symbol(PADDING),
{
    reveal_strlit("ABCDEFGHIJKLMNOPQRSTUVWXYZabcdefghijklmnopqrstuvwxyz0123456789+/");
}

/// Looking a symbol up gives back the index it stands at: no symbol occurs
/// twice in the alphabet.
pub proof fn lemma_symbol_index_of_entry(i: int)
    requires
        0 <= i < 64,
    ensures
        is_symbol(alphabet()[i]),
        alphabet()[i] != PADDING,
        symbol_index(alphabet()[i]) == i,
{
    lemma_alphabet_layout();
    let c = alphabet()[i];
    let j = symbol_index(c);
    assert(alphabet()[j] == c);
}

/// The index of a symbol lies in `0..64` and names the symbol.
pub proof fn lemma_symbol_index_range(c: char)
    requires
        is_symbol(c),
    ensures
        0 <= symbol_index(c) < 64,
        alphabet()[symbol_index(c)] == c,
        c != PADDING,
{
    lemma_alphabet_layout();
}

/// Looks a character up in the alphabet: its index, or `None` where the
/// character is not a symbol.
pub fn index_of_symbol(c: char) -> (index: Option<u8>)
    ensures
        index == (if is_symbol(c) {
            Some(symbol_index(c) as u8)
        } else {
            None
        }),
        is_symbol(c) ==> 0 <= symbol_index(c) < 64,
{
    let code: u32 = c as u32;
    let found: Option<u8> = if 'A' as u32 <= code && code <= 'Z' as u32 {
        Some((code - 'A' as u32) as u8)
    } else if 'a' as u32 <= code && code <= 'z' as u32 {
        Some((code - 'a' as u32 + 26) as u8)
    } else if '0' as u32 <= code && code <= '9' as u32 {
        Some((code - '0' as u32 + 52) as u8)
    } else if c == '+' {
        Some(62)
    } else if c == '/' {
        Some(63)
    } else {
        None
    };
    proof {
        lemma_alphabet_layout();
        match found {
            Some(i) => {
                assert(alphabet()[i as int] == c);
                lemma_symbol_index_of_entry(i as int);
            },
            None => {
                if is_symbol(c) {
                    lemma_symbol_index_range(c);
                }
            },
        }
    }
    found
}

/// Appends the symbol with the given index to `out`.
pub(crate) fn push_symbol(out: &mut String, index: u8)
    requires
        index < 64,
    ensures
        final(out)@ == old(out)@.push(alphabet()[index as int]),
{
    proof {
        lemma_alphabet_layout();
    }
    let at: usize = index as usize;
    let symbol: &str = ALPHABET.substring_ascii(at, at + 1);
    assert(symbol@ == seq![alphabet()[index as int]]);
    out.append(symbol);
}

/// Appends one padding symbol to `out`.
pub(crate) fn push_padding(out: &mut String)
    ensures
        final(out)@ == old(out)@.push(PADDING),
{
    proof {
        reveal_strlit("=");
    }
    let symbol: &str = "=";
    assert(symbol@ == seq![PADDING]);
    out.append(symbol);
}

} // verus!
