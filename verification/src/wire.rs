use crate::error::DecodeError;
use vstd::prelude::*;

verus! {

/// The two bytes of a `u16`, least significant first.
pub open spec fn u16_le(x: u16) -> Seq<u8> {
    seq![(x % 256) as u8, (x / 256) as u8]
}

/// The four bytes of a `u32`, least significant first.
pub open spec fn u32_le(x: u32) -> Seq<u8> {
    seq![
        (x % 256) as u8,
        (x / 256 % 256) as u8,
        (x / 65536 % 256) as u8,
        (x / 16777216) as u8,
    ]
}

/// The `u32` with the same 32 bits as an `i32` in two's complement.
pub open spec fn i32_bits(x: i32) -> u32 {
    if x >= 0 {
        x as u32
    } else {
        (x + 0x1_0000_0000) as u32
    }
}

/// The `i32` with the same 32 bits as a `u32` in two's complement.
pub open spec fn i32_of_bits(x: u32) -> i32 {
    if x < 0x8000_0000 {
        x as i32
    } else {
        (x - 0x1_0000_0000) as i32
    }
}

/// The four bytes of an `i32` in two's complement, least significant first.
pub open spec fn i32_le(x: i32) -> Seq<u8> {
    u32_le(i32_bits(x))
}

/// The `u16` that two bytes spell, least significant first.
pub open spec fn u16_from_le(b: Seq<u8>) -> u16 {
    (b[0] + 256 * b[1]) as u16
}

/// The `u32` that four bytes spell, least significant first.
pub open spec fn u32_from_le(b: Seq<u8>) -> u32 {
    (b[0] + 256 * b[1] + 65536 * b[2] + 16777216 * b[3]) as u32
}

/// The `i32` that four bytes spell in two's complement, least significant
/// first.
pub open spec fn i32_from_le(b: Seq<u8>) -> i32 {
    i32_of_bits(u32_from_le(b))
}

/// Reading the bytes of a `u16` gives the number back.
pub proof fn lemma_u16_le_round_trip(x: u16)
    ensures
        u16_le(x).len() == 2,
        u16_from_le(u16_le(x)) == x,
{
}

/// Reading the bytes of a `u32` gives the number back.
pub proof fn lemma_u32_le_round_trip(x: u32)
    ensures
        u32_le(x).len() == 4,
        u32_from_le(u32_le(x)) == x,
{
}

/// Reading the bytes of an `i32` gives the number back.
pub proof fn lemma_i32_le_round_trip(x: i32)
    ensures
        i32_le(x).len() == 4,
        i32_from_le(i32_le(x)) == x,
{
    lemma_u32_le_round_trip(i32_bits(x));
}

/// Splits a `u16` into its bytes.
pub fn u16_to_le_bytes(x: u16) -> (b: [u8; 2])
    ensures
        b@ == u16_le(x),
{
    let b = [(x % 256) as u8, (x / 256) as u8];
    assert(b@ =~= u16_le(x));
    b
}

/// Splits a `u32` into its bytes.
pub fn u32_to_le_bytes(x: u32) -> (b: [u8; 4])
    ensures
        b@ == u32_le(x),
{
    let b = [
        (x % 256) as u8,
        (x / 256 % 256) as u8,
        (x / 65536 % 256) as u8,
        (x / 16777216) as u8,
    ];
    assert(b@ =~= u32_le(x));
    b
}

/// Splits an `i32` into its bytes.
pub fn i32_to_le_bytes(x: i32) -> (b: [u8; 4])
    ensures
        b@ == i32_le(x),
{
    let bits: u32 = if x >= 0 {
        x as u32
    } else {
        (x - i32::MIN) as u32 + 0x8000_0000u32
    };
    u32_to_le_bytes(bits)
}

/// Joins two bytes into a `u16`.
pub fn u16_from_le_bytes(b: [u8; 2]) -> (x: u16)
    ensures
        x == u16_from_le(b@),
{
    b[0] as u16 + 256 * (b[1] as u16)
}

/// Joins four bytes into a `u32`.
pub fn u32_from_le_bytes(b: [u8; 4]) -> (x: u32)
    ensures
        x == u32_from_le(b@),
{
    b[0] as u32 + 256 * (b[1] as u32) + 65536 * (b[2] as u32) + 16777216 * (b[3] as u32)
}

/// Joins four bytes into an `i32`.
pub fn i32_from_le_bytes(b: [u8; 4]) -> (x: i32)
    ensures
        x == i32_from_le(b@),
{
    let bits = u32_from_le_bytes(b);
    if bits < 0x8000_0000 {
        bits as i32
    } else {
        (bits - 0x8000_0000) as i32 + i32::MIN
    }
}


/// The bytes of a string of 32-bit words, each least significant byte first.
pub open spec fn word_bytes(words: Seq<u32>) -> Seq<u8> {
    words.map_values(|w: u32| u32_le(w)).flatten()
}

/// The error of a read of `wanted` bytes at `cursor`, in a buffer of `len`
/// bytes.
pub open spec fn eof_error(cursor: int, wanted: int, len: int) -> DecodeError {
    DecodeError::UnexpectedEof {
        cursor: cursor as usize,
        wanted: wanted as usize,
        remaining: (len - cursor) as usize,
    }
}

/// The `remaining` 32-bit words that stand in `bytes` from `pos` on, behind
/// the words `acc` that were read before; the error of the first read that
/// passes the end.
pub open spec fn words_from(bytes: Seq<u8>, pos: int, remaining: nat, acc: Seq<u32>) -> Result<
    Seq<u32>,
    DecodeError,
>
    decreases remaining,
{
    if remaining == 0 {
        Ok(acc)
    } else if pos + 4 > bytes.len() {
        Err(eof_error(pos, 4, bytes.len() as int))
    } else {
        words_from(
            bytes,
            pos + 4,
            (remaining - 1) as nat,
            acc.push(u32_from_le(bytes.subrange(pos, pos + 4))),
        )
    }
}

/// The pairs of a string of words: the first with the second, the third
/// with the fourth, and so on.
pub open spec fn word_pairs(words: Seq<u32>) -> Seq<(u32, u32)> {
    Seq::new(words.len() / 2, |i: int| (words[2 * i], words[2 * i + 1]))
}

/// The words of a string of pairs, one pair after the other.
pub open spec fn pair_words(pairs: Seq<(u32, u32)>) -> Seq<u32> {
    Seq::new(
        2 * pairs.len(),
        |k: int|
            if k % 2 == 0 {
                pairs[k / 2].0
            } else {
                pairs[k / 2].1
            },
    )
}

/// The pairs of the words of a string of pairs are the pairs.
pub proof fn lemma_word_pairs_round_trip(pairs: Seq<(u32, u32)>)
    ensures
        pair_words(pairs).len() == 2 * pairs.len(),
        word_pairs(pair_words(pairs)) == pairs,
{
    assert(word_pairs(pair_words(pairs)) =~= pairs);
}

/// A pair of signed numbers as a pair of words.
pub open spec fn signed_pair_bits(pair: (i32, i32)) -> (u32, u32) {
    (i32_bits(pair.0), i32_bits(pair.1))
}

/// A pair of words as a pair of signed numbers.
pub open spec fn signed_pair_of_bits(pair: (u32, u32)) -> (i32, i32) {
    (i32_of_bits(pair.0), i32_of_bits(pair.1))
}

/// A pair of signed numbers is read back from its words.
pub proof fn lemma_signed_pair_round_trip(pair: (i32, i32))
    ensures
        signed_pair_of_bits(signed_pair_bits(pair)) == pair,
{
}

/// A string of pairs of signed numbers is read back from its words.
pub proof fn lemma_signed_pairs_round_trip(pairs: Seq<(i32, i32)>)
    ensures
        pairs.map_values(|p: (i32, i32)| signed_pair_bits(p)).map_values(
            |p: (u32, u32)| signed_pair_of_bits(p),
        ) == pairs,
{
    let stored = pairs.map_values(|p: (i32, i32)| signed_pair_bits(p));
    let read = stored.map_values(|p: (u32, u32)| signed_pair_of_bits(p));
    assert forall|i: int| 0 <= i < pairs.len() implies read[i] == pairs[i] by {
        lemma_signed_pair_round_trip(pairs[i]);
    }
    assert(read =~= pairs);
}

/// Each word takes four bytes.
pub proof fn lemma_word_bytes_len(words: Seq<u32>)
    ensures
        word_bytes(words).len() == 4 * words.len(),
    decreases words.len(),
{
    let chunks = words.map_values(|w: u32| u32_le(w));
    if words.len() > 0 {
        lemma_word_bytes_len(words.drop_last());
        assert(chunks.drop_last() =~= words.drop_last().map_values(|w: u32| u32_le(w)));
        assert(chunks =~= chunks.drop_last().push(chunks.last()));
        chunks.drop_last().lemma_flatten_push(chunks.last());
    }
}

/// The bytes of two strings of words, one after the other, are the bytes of
/// their concatenation.
pub proof fn lemma_word_bytes_concat(first: Seq<u32>, second: Seq<u32>)
    ensures
        word_bytes(first + second) == word_bytes(first) + word_bytes(second),
{
    let f = |w: u32| u32_le(w);
    assert((first + second).map_values(f) =~= first.map_values(f) + second.map_values(f));
    vstd::seq_lib::lemma_flatten_concat(first.map_values(f), second.map_values(f));
}

/// The bytes of one more word.
pub proof fn lemma_word_bytes_push(words: Seq<u32>, word: u32)
    ensures
        word_bytes(words.push(word)) == word_bytes(words) + u32_le(word),
{
    let f = |w: u32| u32_le(w);
    assert(words.push(word).map_values(f) =~= words.map_values(f).push(u32_le(word)));
    words.map_values(f).lemma_flatten_push(u32_le(word));
}

/// Reading where the bytes of a string of words stand gives the words.
pub proof fn lemma_words_from_word_bytes(bytes: Seq<u8>, pos: int, words: Seq<u32>, acc: Seq<u32>)
    requires
        0 <= pos,
        pos + 4 * words.len() <= bytes.len(),
        bytes.subrange(pos, pos + 4 * words.len()) == word_bytes(words),
    ensures
        words_from(bytes, pos, words.len(), acc) == Ok::<Seq<u32>, DecodeError>(acc + words),
    decreases words.len(),
{
    if words.len() == 0 {
        assert(acc + words =~= acc);
    } else {
        let first = words[0];
        let rest = words.drop_first();
        assert(words =~= seq![first] + rest);
        lemma_word_bytes_concat(seq![first], rest);
        lemma_word_bytes_push(Seq::empty(), first);
        assert(Seq::<u32>::empty().push(first) =~= seq![first]);
        assert(word_bytes(Seq::<u32>::empty()) =~= Seq::<u8>::empty());
        assert(word_bytes(seq![first]) =~= u32_le(first));
        lemma_word_bytes_len(rest);
        let whole = bytes.subrange(pos, pos + 4 * words.len());
        assert(bytes.subrange(pos, pos + 4) =~= whole.subrange(0, 4));
        assert(whole.subrange(0, 4) =~= u32_le(first));
        lemma_u32_le_round_trip(first);
        let rest_len = 4 * rest.len() as int;
        assert(bytes.subrange(pos + 4, pos + 4 + rest_len) =~= whole.subrange(4, 4 + rest_len));
        assert(whole.subrange(4, 4 + rest_len) =~= word_bytes(rest));
        lemma_words_from_word_bytes(bytes, pos + 4, rest, acc.push(first));
        assert(acc.push(first) + rest =~= acc + words);
    }
}

/// The bytes of a part of a string of words are that part of the bytes.
pub proof fn lemma_word_bytes_subrange(words: Seq<u32>, from: int, to: int)
    requires
        0 <= from <= to <= words.len(),
    ensures
        word_bytes(words).len() == 4 * words.len(),
        word_bytes(words).subrange(4 * from, 4 * to) == word_bytes(words.subrange(from, to)),
{
    let front = words.subrange(0, from);
    let part = words.subrange(from, to);
    let back = words.subrange(to, words.len() as int);
    assert(words =~= front + part + back);
    lemma_word_bytes_concat(front, part);
    lemma_word_bytes_concat(front + part, back);
    lemma_word_bytes_len(front);
    lemma_word_bytes_len(part);
    lemma_word_bytes_len(back);
    lemma_word_bytes_len(words);
    assert(word_bytes(words).subrange(4 * from, 4 * to) =~= word_bytes(part));
}

/// Reading in a file that starts with the bytes of a string of words gives
/// the words.
pub proof fn lemma_words_in_file(
    words: Seq<u32>,
    data: Seq<u8>,
    from: int,
    to: int,
    acc: Seq<u32>,
)
    requires
        0 <= from <= to <= words.len(),
    ensures
        words_from(word_bytes(words) + data, 4 * from, (to - from) as nat, acc) == Ok::<
            Seq<u32>,
            DecodeError,
        >(acc + words.subrange(from, to)),
{
    let bytes = word_bytes(words) + data;
    let part = words.subrange(from, to);
    lemma_word_bytes_subrange(words, from, to);
    assert(bytes.subrange(4 * from, 4 * from + 4 * part.len()) =~= word_bytes(words).subrange(
        4 * from,
        4 * to,
    ));
    lemma_words_from_word_bytes(bytes, 4 * from, part, acc);
}

/// The words of a part of a string of pairs are that part of the words.
pub proof fn lemma_pair_words_subrange(pairs: Seq<(u32, u32)>, from: int, to: int)
    requires
        0 <= from <= to <= pairs.len(),
    ensures
        pair_words(pairs).len() == 2 * pairs.len(),
        pair_words(pairs).subrange(2 * from, 2 * to) == pair_words(pairs.subrange(from, to)),
{
    let part = pair_words(pairs).subrange(2 * from, 2 * to);
    let other = pair_words(pairs.subrange(from, to));
    assert forall|k: int| 0 <= k < part.len() implies part[k] == other[k] by {
        assert((2 * from + k) % 2 == k % 2);
        assert((2 * from + k) / 2 == from + k / 2);
    }
    assert(part =~= other);
}

/// The middle of three strings, cut out of their concatenation.
pub proof fn lemma_middle_of_three<A>(first: Seq<A>, middle: Seq<A>, last: Seq<A>, from: int, to: int)
    requires
        0 <= from <= to <= middle.len(),
    ensures
        (first + middle + last).subrange(first.len() + from, first.len() + to) == middle.subrange(
            from,
            to,
        ),
{
    assert((first + middle + last).subrange(first.len() + from, first.len() + to)
        =~= middle.subrange(from, to));
}

/// A read of words ends behind the words it read, or fails.
pub proof fn lemma_words_from_len(bytes: Seq<u8>, pos: int, remaining: nat, acc: Seq<u32>)
    requires
        0 <= pos <= bytes.len(),
    ensures
        match words_from(bytes, pos, remaining, acc) {
            Ok(words) => words.len() == acc.len() + remaining && pos + 4 * remaining <= bytes.len()
                && words.subrange(0, acc.len() as int) == acc,
            Err(_) => pos + 4 * remaining > bytes.len(),
        },
    decreases remaining,
{
    if remaining == 0 {
        assert(acc.subrange(0, acc.len() as int) =~= acc);
    } else if pos + 4 <= bytes.len() {
        let next = acc.push(u32_from_le(bytes.subrange(pos, pos + 4)));
        lemma_words_from_len(bytes, pos + 4, (remaining - 1) as nat, next);
        assert(words_from(bytes, pos, remaining, acc) == words_from(
            bytes,
            pos + 4,
            (remaining - 1) as nat,
            next,
        ));
        match words_from(bytes, pos, remaining, acc) {
            Ok(words) => {
                let front = words.subrange(0, next.len() as int);
                assert(front == next);
                assert(words.subrange(0, acc.len() as int) =~= front.subrange(
                    0,
                    acc.len() as int,
                ));
                assert(next.subrange(0, acc.len() as int) =~= acc);
            },
            Err(_) => {},
        }
    }
}

} // verus!
