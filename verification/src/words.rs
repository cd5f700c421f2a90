//! Bytes read as 32-bit words.

use vstd::prelude::*;

use byte_slice_cast::AsSliceOf;

verus! {

/// An error of `byte_slice_cast`: the bytes are not aligned for words, or their number is no
/// multiple of a word's size.
#[verifier::external_type_specification]
#[verifier::external_body]
pub struct ExCastError(byte_slice_cast::Error);

/// The `i`-th word of some bytes, its lowest byte first.
pub open spec fn little_word(bytes: Seq<u8>, i: int) -> int {
    bytes[4 * i] + bytes[4 * i + 1] * 0x100 + bytes[4 * i + 2] * 0x1_0000 + bytes[4 * i + 3]
        * 0x100_0000
}

/// The `i`-th word of some bytes, its highest byte first.
pub open spec fn big_word(bytes: Seq<u8>, i: int) -> int {
    bytes[4 * i] * 0x100_0000 + bytes[4 * i + 1] * 0x1_0000 + bytes[4 * i + 2] * 0x100 + bytes[4 * i
        + 3]
}

/// The bytes hold the words, all of them in the one order of bytes or all in the other.
pub open spec fn holds_words(bytes: Seq<u8>, words: Seq<u32>) -> bool {
    &&& bytes.len() == 4 * words.len()
    &&& {
        ||| forall|i: int| 0 <= i < words.len() ==> #[trigger] words[i] == little_word(bytes, i)
        ||| forall|i: int| 0 <= i < words.len() ==> #[trigger] words[i] == big_word(bytes, i)
    }
}

/// Bytes read as words in the machine's order of bytes, by `as_slice_of` of
/// `byte_slice_cast`, which reinterprets the bytes in place; the words are copied.
///
/// No bytes are no words. Bytes whose number is no multiple of four are refused, and so are
/// bytes at an address that is not aligned for a word. Which order of bytes the machine has,
/// and how an address is aligned, is left open.
#[verifier::external_body]
fn cast_words(bytes: &[u8]) -> (r: Result<Vec<u32>, byte_slice_cast::Error>)
    ensures
        r matches Ok(words) ==> holds_words(bytes@, words@),
        bytes@.len() == 0 ==> r is Ok,
        bytes@.len() % 4 != 0 ==> r is Err,
{
    bytes.as_slice_of::<u32>().map(|words| words.to_vec())
}

/// Why bytes cannot be read as words.
#[derive(Debug, Clone, Copy, PartialEq, Eq, Structural)]
pub enum WordsError {
    /// Their number is no multiple of four.
    Length,
    /// They do not lie at an address for words.
    Alignment,
}

/// Bytes read as words in the machine's order of bytes. Bytes whose number is a multiple of
/// four are refused only for their address.
pub fn words_in(bytes: &[u8]) -> (r: Result<Vec<u32>, WordsError>)
    ensures
        r matches Ok(words) ==> holds_words(bytes@, words@),
        bytes@.len() == 0 ==> r is Ok,
        r == Err::<Vec<u32>, WordsError>(WordsError::Length) <==> bytes@.len() % 4 != 0,
{
    let words = cast_words(bytes);
    if bytes.len() % 4 != 0 {
        return Err(WordsError::Length);
    }
    match words {
        Ok(words) => Ok(words),
        Err(_) => Err(WordsError::Alignment),
    }
}

} // verus!
