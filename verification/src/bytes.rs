//! Words as little-endian bytes.

use vstd::prelude::*;

verus! {

/// The word that four bytes stand for, the lowest first.
pub open spec fn word(b0: u8, b1: u8, b2: u8, b3: u8) -> u32 {
    (b0 as u32) | ((b1 as u32) << 8) | ((b2 as u32) << 16) | ((b3 as u32) << 24)
}

/// The word at position `pos` of `data`.
pub open spec fn word_at(data: Seq<u8>, pos: int) -> u32 {
    word(data[pos], data[pos + 1], data[pos + 2], data[pos + 3])
}

/// The words of `data`.
pub open spec fn words(data: Seq<u8>) -> Seq<u32> {
    Seq::new((data.len() / 4) as nat, |i: int| word_at(data, 4 * i))
}

/// A word as a number.
proof fn lemma_word_number(b0: u8, b1: u8, b2: u8, b3: u8)
    ensures
        word(b0, b1, b2, b3) == b0 + 256 * b1 + 65536 * b2 + 16777216 * b3,
{
    assert((b0 as u32) | ((b1 as u32) << 8) | ((b2 as u32) << 16) | ((b3 as u32) << 24) == b0 + 256 * b1 + 65536 * b2
        + 16777216 * b3) by (bit_vector);
}

/// A word is a number whose digits are four bytes, the lowest first.
pub proof fn law_words(data: Seq<u8>, i: int)
    requires
        0 <= i,
        4 * i + 4 <= data.len(),
    ensures
        words(data).len() == data.len() / 4,
        words(data)[i] == data[4 * i] + 256 * data[4 * i + 1] + 65536 * data[4 * i + 2] + 16777216 * data[4 * i + 3],
{
    lemma_word_number(data[4 * i], data[4 * i + 1], data[4 * i + 2], data[4 * i + 3]);
}

/// A word is made of its bytes.
proof fn lemma_word(w: u32)
    ensures
        word(w as u8, (w >> 8) as u8, (w >> 16) as u8, (w >> 24) as u8) == w,
{
    assert({
        let (a, b, c, d) = (w as u8, (w >> 8) as u8, (w >> 16) as u8, (w >> 24) as u8);
        (a as u32) | ((b as u32) << 8) | ((c as u32) << 16) | ((d as u32) << 24) == w
    }) by (bit_vector);
}

/// Bytes that make the same words are the same.
pub proof fn lemma_same_words(a: Seq<u8>, b: Seq<u8>)
    requires
        a.len() % 4 == 0,
        b.len() % 4 == 0,
        words(a) == words(b),
    ensures
        a == b,
{
    assert(words(a).len() == a.len() / 4);
    assert(words(b).len() == b.len() / 4);
    assert(a.len() == b.len());
    assert forall|i: int| 0 <= i < a.len() implies a[i] == b[i] by {
        let k = i / 4;
        let p = 4 * k;
        assert(words(a)[k] == word_at(a, 4 * k));
        assert(words(b)[k] == word_at(b, 4 * k));
        assert(i == p || i == p + 1 || i == p + 2 || i == p + 3);
        let (a0, a1, a2, a3) = (a[p], a[p + 1], a[p + 2], a[p + 3]);
        let (b0, b1, b2, b3) = (b[p], b[p + 1], b[p + 2], b[p + 3]);
        lemma_word_number(a0, a1, a2, a3);
        lemma_word_number(b0, b1, b2, b3);
    }
    assert(a =~= b);
}

/// Reads the word at position `pos`.
pub fn get_word(data: &[u8], pos: usize) -> (res: u32)
    requires
        pos + 4 <= data@.len(),
    ensures
        res == word_at(data@, pos as int),
{
    (data[pos] as u32) | ((data[pos + 1] as u32) << 8) | ((data[pos + 2] as u32) << 16) | ((data[pos + 3] as u32)
        << 24)
}

/// Writes a word behind `data`.
pub fn put_word(data: &mut Vec<u8>, w: u32)
    ensures
        final(data)@.len() == old(data)@.len() + 4,
        forall|i: int| 0 <= i < old(data)@.len() ==> #[trigger] final(data)@[i] == old(data)@[i],
        word_at(final(data)@, old(data)@.len() as int) == w,
{
    proof {
        lemma_word(w);
    }
    data.push(#[verifier::truncate] (w as u8));
    data.push(#[verifier::truncate] ((w >> 8) as u8));
    data.push(#[verifier::truncate] ((w >> 16) as u8));
    data.push(#[verifier::truncate] ((w >> 24) as u8));
}

} // verus!
