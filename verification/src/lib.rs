//! Static Huffman coding for text: frequency counting, greedy tree
//! construction, prefix-free code assignment, bit-level encoding and
//! decoding, bit-to-byte packing, and a line-oriented code-table format.

pub mod node;
pub mod my_tree_map;
pub mod bits;
pub mod huffman;
pub mod table_format;

use vstd::prelude::*;

verus! {

/// Marker character carried by internal tree nodes; it never becomes a
/// code-table key.
pub const SPECIAL_CHAR: char = '\0';

/// Sentinel that stands in for a literal newline, so the line-oriented
/// code-table format never has to store a raw newline byte as a key.
pub const NEW_LINE: char = '%';

/// The errors the codec can report.
#[derive(Debug, Clone, Copy, PartialEq, Eq, Structural)]
pub enum HuffError {
    /// A character of the text has no entry in the code table.
    MissingCode,
    /// No table entry matches the bit stream at the current position.
    NoMatch,
    /// A line of a persisted code table is malformed.
    BadTableLine,
}

/// The substitution the frequency counter applies to every character of
/// the input text: a literal newline is counted under the sentinel.
pub open spec fn subst_char(c: char) -> char {
    if c == '\n' {
        NEW_LINE
    } else {
        c
    }
}

/// The inverse substitution the decoder applies to every emitted symbol.
pub open spec fn unsubst_char(c: char) -> char {
    if c == NEW_LINE {
        '\n'
    } else {
        c
    }
}

/// Strict character order used to keep table keys sorted.
pub open spec fn char_lt(a: char, b: char) -> bool {
    (a as u32) < (b as u32)
}

/// Two distinct characters compare strictly in one direction: `char`
/// casts to `u32` injectively.
pub proof fn lemma_char_lt_trichotomy(a: char, b: char)
    ensures
        a == b || char_lt(a, b) || char_lt(b, a),
        a != b ==> a as u32 != b as u32,
{
    vstd::utf8::char_u32_cast(a, a as u32);
    vstd::utf8::char_u32_cast(b, b as u32);
}

} // verus!
