//! Words of four bytes.

use vstd::prelude::*;

verus! {

/// Byte `k` of `w`, lowest first.
pub open spec fn le_byte(w: u32, k: int) -> u8 {
    if k == 0 {
        (w % 256) as u8
    } else if k == 1 {
        (w / 256 % 256) as u8
    } else if k == 2 {
        (w / 65536 % 256) as u8
    } else {
        (w / 16777216) as u8
    }
}

/// The word whose bytes, lowest first, are the four from `at` on.
pub open spec fn le_word(b: Seq<u8>, at: int) -> u32 {
    (b[at] + 256 * b[at + 1] + 65536 * b[at + 2] + 16777216 * b[at + 3]) as u32
}

/// The bytes of a sequence of words.
pub open spec fn to_bytes(words: Seq<u32>) -> Seq<u8> {
    Seq::new(4 * words.len(), |i: int| le_byte(words[i / 4], i % 4))
}

/// The words that a sequence of bytes holds; up to three bytes at its end are left over.
pub open spec fn to_words(b: Seq<u8>) -> Seq<u32> {
    Seq::new(b.len() / 4, |i: int| le_word(b, 4 * i))
}

/// The word whose bytes, highest first, are the four from `at` on.
pub open spec fn be_word(b: Seq<u8>, at: int) -> u32 {
    (b[at + 3] + 256 * b[at + 2] + 65536 * b[at + 1] + 16777216 * b[at]) as u32
}

/// The words that `b` holds, read in one of the two byte orders.
pub open spec fn words_in(b: Seq<u8>, low_first: bool) -> Seq<u32> {
    Seq::new(
        b.len() / 4,
        |i: int|
            if low_first {
                le_word(b, 4 * i)
            } else {
                be_word(b, 4 * i)
            },
    )
}

/// `bytemuck::pod_collect_to_vec` from `u8` to `u32`: copies the bytes into words as they
/// lie in memory. Which byte of a word is lowest is up to the machine, so the result is one
/// of the two readings.
#[verifier::external_body]
pub(crate) fn native_words(b: &[u8]) -> (words: Vec<u32>)
    requires
        b@.len() % 4 == 0,
    ensures
        exists|low_first: bool| words@ == #[trigger] words_in(b@, low_first),
{
    bytemuck::pod_collect_to_vec::<u8, u32>(b)
}

proof fn word_of_bytes(w: u32)
    ensures
        le_byte(w, 0) + 256 * le_byte(w, 1) + 65536 * le_byte(w, 2) + 16777216 * le_byte(w, 3) == w,
{
}

/// Reading words gives back the words that were written.
pub proof fn words_survive(words: Seq<u32>)
    ensures
        to_words(to_bytes(words)) == words,
{
    let b = to_bytes(words);
    assert forall|i: int| 0 <= i < words.len() implies to_words(b)[i] == words[i] by {
        assert(b[4 * i] == le_byte(words[i], 0));
        assert(b[4 * i + 1] == le_byte(words[i], 1));
        assert(b[4 * i + 2] == le_byte(words[i], 2));
        assert(b[4 * i + 3] == le_byte(words[i], 3));
        word_of_bytes(words[i]);
    }
    assert(to_words(b) =~= words);
}

/// A word can be read from any sequence that begins with the bytes of `words`.
pub proof fn word_in_prefix(words: Seq<u32>, s: Seq<u8>, i: int)
    requires
        0 <= i < words.len(),
        to_bytes(words).len() <= s.len(),
        s.take(to_bytes(words).len() as int) == to_bytes(words),
    ensures
        le_word(s, 4 * i) == words[i],
{
    let b = to_bytes(words);
    words_survive(words);
    assert(to_words(b)[i] == le_word(b, 4 * i));
    assert forall|k: int| 0 <= k < b.len() implies s[k] == b[k] by {
        assert(s.take(b.len() as int)[k] == s[k]);
    }
}

/// Append the bytes of `w`.
pub fn push_word(out: &mut Vec<u8>, w: u32)
    ensures
        final(out)@ == old(out)@ + to_bytes(seq![w]),
{
    let ghost before = out@;
    out.push((w % 256) as u8);
    out.push((w / 256 % 256) as u8);
    out.push((w / 65536 % 256) as u8);
    out.push((w / 16777216) as u8);
    assert(out@ =~= before + to_bytes(seq![w]));
}

/// The bytes of a list of words followed by one more word.
pub proof fn to_bytes_append(words: Seq<u32>, w: u32)
    ensures
        to_bytes(words.push(w)) == to_bytes(words) + to_bytes(seq![w]),
{
    assert(to_bytes(words.push(w)) =~= to_bytes(words) + to_bytes(seq![w]));
}

/// The word at `at`.
pub fn read_word(b: &[u8], at: usize) -> (w: u32)
    requires
        at + 4 <= b@.len(),
    ensures
        w == le_word(b@, at as int),
{
    b[at] as u32 + 256 * b[at + 1] as u32 + 65536 * b[at + 2] as u32 + 16777216 * b[at + 3] as u32
}

/// All words of `b`.
pub fn read_words(b: &[u8]) -> (words: Vec<u32>)
    ensures
        words@ == to_words(b@),
{
    let n: usize = b.len() / 4;
    let mut words: Vec<u32> = Vec::new();
    for i in 0..n
        invariant
            n == b.len() / 4,
            words@.len() == i,
            forall|k: int| 0 <= k < i ==> #[trigger] words@[k] == le_word(b@, 4 * k),
    {
        words.push(read_word(b, 4 * i));
    }
    assert(words@ =~= to_words(b@));
    words
}

/// The bytes of a word stand lowest first: they are its digits in base 256.
pub proof fn bytes_are_digits(words: Seq<u32>, i: int)
    requires
        0 <= i < words.len(),
    ensures
        ({
            let b = to_bytes(words);
            &&& b.len() == 4 * words.len()
            &&& b[4 * i] + 256 * b[4 * i + 1] + 65536 * b[4 * i + 2] + 16777216 * b[4 * i + 3]
                == words[i]
        }),
{
    let b = to_bytes(words);
    let w = words[i] as int;
    assert(b[4 * i] == le_byte(words[i], 0));
    assert(b[4 * i + 1] == le_byte(words[i], 1));
    assert(b[4 * i + 2] == le_byte(words[i], 2));
    assert(b[4 * i + 3] == le_byte(words[i], 3));
    assert(w % 256 + 256 * (w / 256 % 256) + 65536 * (w / 65536 % 256) + 16777216 * (w / 16777216)
        == w);
}

/// Reading with the highest byte first is reading the bytes in reverse.
pub proof fn byte_orders_mirror(b: Seq<u8>, at: int)
    requires
        0 <= at,
        at + 4 <= b.len(),
    ensures
        be_word(b, at) == le_word(b.subrange(at, at + 4).reverse(), 0),
        le_word(b, at) == b[at] + 256 * (b[at + 1] + 256 * (b[at + 2] + 256 * b[at + 3])),
{
    let r = b.subrange(at, at + 4).reverse();
    assert(r[0] == b[at + 3] && r[1] == b[at + 2] && r[2] == b[at + 1] && r[3] == b[at]);
}

} // verus!
