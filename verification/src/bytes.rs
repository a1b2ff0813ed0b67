//! 32-bit words as they lie in memory.

use vstd::prelude::*;

verus! {

/// The byte of `word` with the significance 256 to the power of `k`.
pub open spec fn byte_of(word: u32, k: int) -> u8 {
    if k == 0 {
        (word % 256) as u8
    } else if k == 1 {
        (word / 256 % 256) as u8
    } else if k == 2 {
        (word / 65536 % 256) as u8
    } else {
        (word / 16777216) as u8
    }
}

/// The bytes of `words` in memory, on a machine that stores the least
/// significant byte first (`little`) or last.
pub open spec fn memory_image(words: Seq<u32>, little: bool) -> Seq<u8> {
    Seq::new(
        4 * words.len(),
        |i: int|
            byte_of(
                words[i / 4],
                if little {
                    i % 4
                } else {
                    3 - i % 4
                },
            ),
    )
}

/// `bytes` are `words` as this machine, whichever its byte order, holds them.
pub open spec fn holds_words(bytes: Seq<u8>, words: Seq<u32>) -> bool {
    bytes == memory_image(words, true) || bytes == memory_image(words, false)
}

/// Calls `bytemuck::cast_slice` from `u32` to `u8`, which gives the memory of
/// the words as bytes, and copies them. Claimed: the bytes are those of the
/// words in order, in one of the two byte orders throughout. Which of the two
/// is left open, since it is the machine's.
#[verifier::external_body]
pub(crate) fn cast_words(words: &[u32]) -> (r: Vec<u8>)
    ensures
        holds_words(r@, words@),
{
    bytemuck::cast_slice::<u32, u8>(words).to_vec()
}

/// Calls `bytemuck::bytes_of` on an array of sixteen words and copies the
/// bytes. Claimed: the same as for a slice of words.
#[verifier::external_body]
pub(crate) fn bytes_of_words(words: &[u32; 16]) -> (r: Vec<u8>)
    ensures
        holds_words(r@, words@),
{
    bytemuck::bytes_of::<[u32; 16]>(words).to_vec()
}

proof fn lemma_bytes_determine_word(a: u32, b: u32)
    requires
        byte_of(a, 0) == byte_of(b, 0),
        byte_of(a, 1) == byte_of(b, 1),
        byte_of(a, 2) == byte_of(b, 2),
        byte_of(a, 3) == byte_of(b, 3),
    ensures
        a == b,
{
}

/// In either byte order, the memory of words gives the words back.
pub proof fn lemma_memory_determines_words(a: Seq<u32>, b: Seq<u32>, little: bool)
    requires
        memory_image(a, little) == memory_image(b, little),
    ensures
        a == b,
{
    let m = memory_image(a, little);
    let n = memory_image(b, little);
    assert(m.len() == n.len());
    assert forall|i: int| 0 <= i < a.len() implies a[i] == b[i] by {
        assert(m[4 * i] == n[4 * i]);
        assert(m[4 * i + 1] == n[4 * i + 1]);
        assert(m[4 * i + 2] == n[4 * i + 2]);
        assert(m[4 * i + 3] == n[4 * i + 3]);
        lemma_bytes_determine_word(a[i], b[i]);
    }
    assert(a =~= b);
}

/// The memory of words has four bytes for each, and they are its digits to the
/// base 256: word `i` is the sum of bytes `4 * i` to `4 * i + 3`, weighted from
/// the first up or from the last up.
pub proof fn lemma_bytes_are_digits(words: Seq<u32>, i: int)
    requires
        0 <= i < words.len(),
    ensures
        ({
            let up = memory_image(words, true);
            let down = memory_image(words, false);
            &&& up.len() == 4 * words.len()
            &&& down.len() == 4 * words.len()
            &&& words[i] == up[4 * i] + 256 * up[4 * i + 1] + 65536 * up[4 * i + 2] + 16777216 * up[4 * i + 3]
            &&& words[i] == down[4 * i + 3] + 256 * down[4 * i + 2] + 65536 * down[4 * i + 1] + 16777216 * down[4 * i]
        }),
{
}

/// `bytes` are the digits of `words` to the base 256, four for each and the least
/// first.
pub open spec fn digits_up(bytes: Seq<u8>, words: Seq<u32>) -> bool {
    forall|i: int|
        0 <= i < words.len() ==> #[trigger] words[i] == bytes[4 * i] + 256 * bytes[4 * i + 1] + 65536 * bytes[4 * i + 2]
            + 16777216 * bytes[4 * i + 3]
}

/// `bytes` are the digits of `words` to the base 256, four for each and the
/// greatest first.
pub open spec fn digits_down(bytes: Seq<u8>, words: Seq<u32>) -> bool {
    forall|i: int|
        0 <= i < words.len() ==> #[trigger] words[i] == bytes[4 * i + 3] + 256 * bytes[4 * i + 2] + 65536 * bytes[4 * i
            + 1] + 16777216 * bytes[4 * i]
}

/// What a buffer of words holds are the digits of the words, in one of the two
/// orders for all of them.
pub proof fn lemma_held_words_have_one_order(bytes: Seq<u8>, words: Seq<u32>)
    requires
        holds_words(bytes, words),
    ensures
        bytes.len() == 4 * words.len(),
        digits_up(bytes, words) || digits_down(bytes, words),
{
    let up = memory_image(words, true);
    let down = memory_image(words, false);
    assert(digits_up(up, words)) by {
        assert forall|i: int| 0 <= i < words.len() implies #[trigger] words[i] == up[4 * i] + 256 * up[4 * i + 1] + 65536
            * up[4 * i + 2] + 16777216 * up[4 * i + 3] by {
            lemma_bytes_are_digits(words, i);
        }
    }
    assert(digits_down(down, words)) by {
        assert forall|i: int| 0 <= i < words.len() implies #[trigger] words[i] == down[4 * i + 3] + 256 * down[4 * i + 2]
            + 65536 * down[4 * i + 1] + 16777216 * down[4 * i] by {
            lemma_bytes_are_digits(words, i);
        }
    }
}

} // verus!
