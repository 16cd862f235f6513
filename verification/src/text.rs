//! Words in text.

use vstd::prelude::*;
use vstd::utf8::{
    encode_utf8, encode_utf8_valid_utf8, is_char_boundary_iff_not_is_continuation_byte,
    valid_utf8,
};

verus! {

/// The byte of an ASCII space.
pub const SPACE: u8 = 0x20;

/// `word` is the first word of `text`, both as UTF-8 bytes: the longest
/// prefix without a space, which is all of `text` where it holds no space.
pub open spec fn is_first_word(word: Seq<u8>, text: Seq<u8>) -> bool {
    &&& word.len() <= text.len()
    &&& word == text.subrange(0, word.len() as int)
    &&& forall|i: int| 0 <= i < word.len() ==> word[i] != SPACE
    &&& word.len() < text.len() ==> text[word.len() as int] == SPACE
}

/// A text has one first word.
pub proof fn lemma_first_word_is_unique(a: Seq<u8>, b: Seq<u8>, text: Seq<u8>)
    requires
        is_first_word(a, text),
        is_first_word(b, text),
    ensures
        a == b,
{
    if a.len() < b.len() {
        assert(b[a.len() as int] == text[a.len() as int]);
    }
    if b.len() < a.len() {
        assert(a[b.len() as int] == text[b.len() as int]);
    }
    assert(a =~= b);
}

/// The first word of `s`: the text before its first space, or all of it.
pub fn first_word(s: &String) -> (word: &str)
    ensures
        is_first_word(encode_utf8(word@), encode_utf8(s@)),
{
    let text: &str = s.as_str();
    let bytes: &[u8] = text.as_bytes();
    proof {
        encode_utf8_valid_utf8(s@);
    }
    let mut i: usize = 0;
    while i < bytes.len()
        invariant
            text@ == s@,
            bytes@ == encode_utf8(s@),
            valid_utf8(bytes@),
            i <= bytes@.len(),
            forall|k: int| 0 <= k < i ==> bytes@[k] != SPACE,
        decreases bytes@.len() - i,
    {
        if bytes[i] == SPACE {
            proof {
                is_char_boundary_iff_not_is_continuation_byte(bytes@, i as int);
            }
            let (word, _) = text.split_at(i);
            return word;
        }
        i += 1;
    }
    proof {
        assert(bytes@ =~= bytes@.subrange(0, bytes@.len() as int));
    }
    text
}

} // verus!
