use crate::bits::{bit_to_bytes, packed, BitAccumulator};
use crate::coalesced::{
    all_values, coalesced_bits, coalesced_bytes, coalesced_fits, coalesced_header, coalesced_index,
    coalesced_tree, key_table,
};
use crate::coalesced_write::{
    count_symbols, emit_index, keys_fit_check, layout_check, longest_key, longest_text,
    write_pair_block, write_string_table,
};
use crate::collect::{collect_names, collect_values, value_refs_view};
use crate::huffman::{
    counted_all, lemma_counted_all_concat, no_counts, symbols_of, FrequencyMap, Huffman,
};
use crate::keys::{distinct_keys, refs_view, sort_keys};
use crate::shared::{
    invert_huffman_tree, tlk_strings_view, Coalesced, Tlk, TlkString, TlkStringModel, WChar,
    ME3_MAGIC, TLK_MAGIC,
};
use crate::tlk::{
    all_entries, entries_bits, entries_fit, entries_symbols, entry_refs, lemma_entries_do_not_fit,
    lemma_entries_fit_prefix, lemma_entries_fit_step, lemma_entries_symbols_push,
    lemma_entries_take_push, lemma_tlk_bytes_len, tlk_bytes, tlk_data, tlk_fits, tlk_pairs,
    tlk_tree, tlk_words,
};
use crate::wire::{
    i32_bits, i32_le, i32_to_le_bytes, lemma_word_bytes_concat, lemma_word_bytes_len,
    lemma_word_bytes_push, pair_words, signed_pair_bits, u16_le, u16_to_le_bytes, u32_le,
    u32_to_le_bytes, word_bytes,
};
use vstd::prelude::*;

verus! {

/// Seekable write buffer. The cursor may stand anywhere, also past the end
/// of what was written; a write past the end grows the buffer, filling the
/// gap with zeros.
pub struct WriteBuffer {
    /// The underlying byte buffer.
    pub buffer: Vec<u8>,
    /// The current cursor position.
    pub cursor: usize,
    /// The length of the buffer that has been written to.
    pub length: usize,
}

/// `buffer`, filled up with zeros to `end` bytes where it is shorter.
pub open spec fn grown(buffer: Seq<u8>, end: int) -> Seq<u8> {
    if buffer.len() < end {
        buffer + Seq::new((end - buffer.len()) as nat, |i: int| 0u8)
    } else {
        buffer
    }
}

/// `buffer` with `data` written at offset `at`: the buffer grows as far as
/// the write reaches.
pub open spec fn overwritten(buffer: Seq<u8>, at: int, data: Seq<u8>) -> Seq<u8> {
    let base = grown(buffer, at + data.len());
    base.subrange(0, at) + data + base.subrange(at + data.len(), base.len() as int)
}

/// A write at the end of a buffer appends.
pub proof fn lemma_overwritten_at_end(buffer: Seq<u8>, data: Seq<u8>)
    ensures
        overwritten(buffer, buffer.len() as int, data) == buffer + data,
{
    assert(overwritten(buffer, buffer.len() as int, data) =~= buffer + data);
}

impl WriteBuffer {
    /// The cursor and the high-water mark stand at the end of the buffer, so
    /// that a write appends.
    pub open spec fn at_end(self) -> bool {
        self.cursor == self.buffer@.len() && self.length == self.buffer@.len()
    }

    /// An empty buffer with the cursor at its start.
    pub fn new() -> (w: WriteBuffer)
        ensures
            w.buffer@ == Seq::<u8>::empty(),
            w.cursor == 0,
            w.length == 0,
    {
        WriteBuffer { buffer: Vec::new(), cursor: 0, length: 0 }
    }

    /// The bytes written: the buffer cut at the high-water mark.
    pub open spec fn written(self) -> Seq<u8> {
        if self.length <= self.buffer@.len() {
            self.buffer@.subrange(0, self.length as int)
        } else {
            self.buffer@
        }
    }

    /// Ends the buffer and returns the bytes written.
    pub fn into_vec(self) -> (bytes: Vec<u8>)
        ensures
            bytes@ == self.written(),
    {
        let mut buffer = self.buffer;
        buffer.truncate(self.length);
        buffer
    }

    /// Writes a little-endian `u32` at the cursor.
    pub fn write_u32(&mut self, value: u32)
        requires
            old(self).cursor + 4 <= usize::MAX,
        ensures
            final(self).buffer@ == overwritten(old(self).buffer@, old(self).cursor as int, u32_le(value)),
            final(self).cursor == old(self).cursor + 4,
            final(self).length == if old(self).length < old(self).cursor + 4 {
                (old(self).cursor + 4) as usize
            } else {
                old(self).length
            },
    {
        let bytes = u32_to_le_bytes(value);
        self.write_slice(bytes.as_slice());
    }

    /// Writes a little-endian `u16` at the cursor.
    pub fn write_u16(&mut self, value: u16)
        requires
            old(self).cursor + 2 <= usize::MAX,
        ensures
            final(self).buffer@ == overwritten(old(self).buffer@, old(self).cursor as int, u16_le(value)),
            final(self).cursor == old(self).cursor + 2,
            final(self).length == if old(self).length < old(self).cursor + 2 {
                (old(self).cursor + 2) as usize
            } else {
                old(self).length
            },
    {
        let bytes = u16_to_le_bytes(value);
        self.write_slice(bytes.as_slice());
    }

    /// Writes a little-endian `i32` at the cursor.
    pub fn write_i32(&mut self, value: i32)
        requires
            old(self).cursor + 4 <= usize::MAX,
        ensures
            final(self).buffer@ == overwritten(old(self).buffer@, old(self).cursor as int, i32_le(value)),
            final(self).cursor == old(self).cursor + 4,
            final(self).length == if old(self).length < old(self).cursor + 4 {
                (old(self).cursor + 4) as usize
            } else {
                old(self).length
            },
    {
        let bytes = i32_to_le_bytes(value);
        self.write_slice(bytes.as_slice());
    }

    /// Writes `value` at the cursor, moves the cursor behind it and raises
    /// the high-water mark to the cursor where it was lower.
    pub fn write_slice(&mut self, value: &[u8])
        requires
            old(self).cursor + value@.len() <= usize::MAX,
        ensures
            final(self).buffer@ == overwritten(old(self).buffer@, old(self).cursor as int, value@),
            final(self).cursor == old(self).cursor + value@.len(),
            final(self).length == if old(self).length < old(self).cursor + value@.len() {
                (old(self).cursor + value@.len()) as usize
            } else {
                old(self).length
            },
    {
        let n = value.len();
        let ghost base = grown(self.buffer@, self.cursor + n);
        let data = self.get_slice_mut(n);
        let mut i: usize = 0;
        while i < n
            invariant
                i <= n,
                n == value@.len(),
                data@.len() == n,
                forall|j: int| 0 <= j < i ==> data@[j] == value@[j],
            decreases n - i,
        {
            data[i] = value[i];
            i += 1;
        }
        assert(data@ =~= value@);
        self.cursor += n;
        if self.cursor > self.length {
            self.length = self.cursor;
        }
    }

    /// Moves the cursor; any position is accepted.
    pub fn seek(&mut self, cursor: usize)
        ensures
            final(self).buffer@ == old(self).buffer@,
            final(self).cursor == cursor,
            final(self).length == old(self).length,
    {
        self.cursor = cursor;
    }

    /// The next `length` bytes at the cursor, for writing; the buffer grows
    /// to hold them. Neither the cursor nor the high-water mark moves.
    pub fn get_slice_mut(&mut self, length: usize) -> (slice: &mut [u8])
        requires
            old(self).cursor + length <= usize::MAX,
        ensures
            slice@ == grown(old(self).buffer@, old(self).cursor + length).subrange(
                old(self).cursor as int,
                old(self).cursor + length,
            ),
            final(self).buffer@ == grown(old(self).buffer@, old(self).cursor + length).subrange(
                0,
                old(self).cursor as int,
            ) + final(slice)@ + grown(old(self).buffer@, old(self).cursor + length).subrange(
                old(self).cursor + length,
                grown(old(self).buffer@, old(self).cursor + length).len() as int,
            ),
            final(self).cursor == old(self).cursor,
            final(self).length == old(self).length,
    {
        let start = self.cursor;
        let end = self.cursor + length;
        let buffer_length = self.buffer.len();
        // If the end point is past the buffer grow the buffer
        if start > buffer_length || end > buffer_length {
            self.buffer.resize(end, 0);
        }
        assert(self.buffer@ =~= grown(old(self).buffer@, end as int));
        let whole = self.buffer.as_mut_slice();
        let (_, tail) = whole.split_at_mut(start);
        let (slice, _) = tail.split_at_mut(length);
        slice
    }
}

impl Default for WriteBuffer {
    fn default() -> (w: WriteBuffer)
        ensures
            w.buffer@ == Seq::<u8>::empty(),
            w.cursor == 0,
            w.length == 0,
    {
        WriteBuffer::new()
    }
}

/// Appends a little-endian `u16`.
pub(crate) fn append_u16(out: &mut WriteBuffer, value: u16)
    requires
        old(out).at_end(),
        old(out).buffer@.len() + 2 <= usize::MAX,
    ensures
        final(out).at_end(),
        final(out).buffer@ == old(out).buffer@ + u16_le(value),
{
    proof {
        lemma_overwritten_at_end(out.buffer@, u16_le(value));
    }
    out.write_u16(value);
}

/// Appends a little-endian `u32`.
pub(crate) fn append_u32(out: &mut WriteBuffer, value: u32)
    requires
        old(out).at_end(),
        old(out).buffer@.len() + 4 <= usize::MAX,
    ensures
        final(out).at_end(),
        final(out).buffer@ == old(out).buffer@ + u32_le(value),
{
    proof {
        lemma_overwritten_at_end(out.buffer@, u32_le(value));
    }
    out.write_u32(value);
}

/// Appends bytes.
pub(crate) fn append_slice(out: &mut WriteBuffer, value: &[u8])
    requires
        old(out).at_end(),
        old(out).buffer@.len() + value@.len() <= usize::MAX,
    ensures
        final(out).at_end(),
        final(out).buffer@ == old(out).buffer@ + value@,
{
    proof {
        lemma_overwritten_at_end(out.buffer@, value@);
    }
    out.write_slice(value);
}

/// Appends little-endian words.
pub(crate) fn append_words(out: &mut WriteBuffer, words: &[u32])
    requires
        old(out).at_end(),
        old(out).buffer@.len() + 4 * words@.len() <= usize::MAX,
    ensures
        final(out).at_end(),
        final(out).buffer@ == old(out).buffer@ + word_bytes(words@),
{
    let mut i: usize = 0;
    proof {
        assert(word_bytes(words@.take(0)) =~= Seq::<u8>::empty());
        assert(out.buffer@ + Seq::<u8>::empty() =~= out.buffer@);
    }
    while i < words.len()
        invariant
            i <= words.len(),
            out.at_end(),
            old(out).buffer@.len() + 4 * words@.len() <= usize::MAX,
            out.buffer@ == old(out).buffer@ + word_bytes(words@.take(i as int)),
        decreases words.len() - i,
    {
        proof {
            lemma_word_bytes_len(words@.take(i as int));
            lemma_word_bytes_push(words@.take(i as int), words@[i as int]);
            assert(words@.take(i as int).push(words@[i as int]) =~= words@.take(i + 1));
            lemma_overwritten_at_end(out.buffer@, u32_le(words@[i as int]));
        }
        out.write_u32(words[i]);
        i += 1;
        assert(out.buffer@ =~= old(out).buffer@ + word_bytes(words@.take(i as int)));
    }
    assert(words@.take(i as int) =~= words@);
}

/// Appends pairs of little-endian words.
pub(crate) fn append_word_pairs(out: &mut WriteBuffer, pairs: &Vec<(u32, u32)>)
    requires
        old(out).at_end(),
        old(out).buffer@.len() + 8 * pairs@.len() <= usize::MAX,
    ensures
        final(out).at_end(),
        final(out).buffer@ == old(out).buffer@ + word_bytes(pair_words(pairs@)),
{
    let mut i: usize = 0;
    proof {
        assert(pair_words(pairs@.take(0)) =~= Seq::<u32>::empty());
        assert(word_bytes(Seq::<u32>::empty()) =~= Seq::<u8>::empty());
        assert(out.buffer@ + Seq::<u8>::empty() =~= out.buffer@);
    }
    while i < pairs.len()
        invariant
            i <= pairs.len(),
            out.at_end(),
            old(out).buffer@.len() + 8 * pairs@.len() <= usize::MAX,
            out.buffer@ == old(out).buffer@ + word_bytes(pair_words(pairs@.take(i as int))),
        decreases pairs.len() - i,
    {
        let (left, right) = pairs[i];
        proof {
            let done = pair_words(pairs@.take(i as int));
            lemma_word_bytes_len(done);
            lemma_word_bytes_push(done, left);
            lemma_word_bytes_push(done.push(left), right);
            assert(done.push(left).push(right) =~= pair_words(pairs@.take(i + 1)));
            lemma_overwritten_at_end(out.buffer@, u32_le(left));
            lemma_overwritten_at_end(out.buffer@ + u32_le(left), u32_le(right));
        }
        out.write_u32(left);
        out.write_u32(right);
        i += 1;
        assert(out.buffer@ =~= old(out).buffer@ + word_bytes(pair_words(pairs@.take(i as int))));
    }
    assert(pairs@.take(i as int) =~= pairs@);
}

/// Appends pairs of little-endian signed numbers.
pub(crate) fn append_signed_pairs(out: &mut WriteBuffer, pairs: &[(i32, i32)])
    requires
        old(out).at_end(),
        old(out).buffer@.len() + 8 * pairs@.len() <= usize::MAX,
    ensures
        final(out).at_end(),
        final(out).buffer@ == old(out).buffer@ + word_bytes(
            pair_words(pairs@.map_values(|p: (i32, i32)| signed_pair_bits(p))),
        ),
{
    let ghost as_words = pairs@.map_values(|p: (i32, i32)| signed_pair_bits(p));
    let mut i: usize = 0;
    proof {
        assert(pair_words(as_words.take(0)) =~= Seq::<u32>::empty());
        assert(word_bytes(Seq::<u32>::empty()) =~= Seq::<u8>::empty());
        assert(out.buffer@ + Seq::<u8>::empty() =~= out.buffer@);
    }
    while i < pairs.len()
        invariant
            i <= pairs.len(),
            out.at_end(),
            old(out).buffer@.len() + 8 * pairs@.len() <= usize::MAX,
            as_words == pairs@.map_values(|p: (i32, i32)| signed_pair_bits(p)),
            out.buffer@ == old(out).buffer@ + word_bytes(pair_words(as_words.take(i as int))),
        decreases pairs.len() - i,
    {
        let (left, right) = pairs[i];
        proof {
            let done = pair_words(as_words.take(i as int));
            lemma_word_bytes_len(done);
            lemma_word_bytes_push(done, i32_bits(left));
            lemma_word_bytes_push(done.push(i32_bits(left)), i32_bits(right));
            assert(done.push(i32_bits(left)).push(i32_bits(right)) =~= pair_words(
                as_words.take(i + 1),
            ));
            lemma_overwritten_at_end(out.buffer@, i32_le(left));
            lemma_overwritten_at_end(out.buffer@ + i32_le(left), i32_le(right));
        }
        out.write_i32(left);
        out.write_i32(right);
        i += 1;
        assert(out.buffer@ =~= old(out).buffer@ + word_bytes(pair_words(as_words.take(i as int))));
    }
    assert(as_words.take(i as int) =~= as_words);
}

/// Counts the symbols of each string and the 0 that ends it.
fn count_entries(
    freq: &mut FrequencyMap<WChar>,
    entries: &Vec<TlkString>,
    Ghost(before): Ghost<Seq<TlkStringModel>>,
)
    requires
        old(freq).counts() == counted_all(no_counts(), entries_symbols(before)),
    ensures
        final(freq).counts() == counted_all(
            no_counts(),
            entries_symbols(before + tlk_strings_view(entries@)),
        ),
{
    let ghost model = tlk_strings_view(entries@);
    let mut i: usize = 0;
    assert(before + model.take(0) =~= before);
    while i < entries.len()
        invariant
            i <= entries.len(),
            model == tlk_strings_view(entries@),
            freq.counts() == counted_all(no_counts(), entries_symbols(before + model.take(i as int))),
        decreases entries.len() - i,
    {
        let ghost done = before + model.take(i as int);
        let ghost text = symbols_of::<WChar>(entries@[i as int].value@);
        freq.push_iter(entries[i].value.as_slice());
        freq.push(0);
        proof {
            lemma_entries_symbols_push(done, model[i as int]);
            assert(done.push(model[i as int]) =~= before + model.take(i + 1));
            lemma_counted_all_concat(no_counts(), entries_symbols(done), text.push(0));
            assert(text.push(0).drop_last() =~= text);
            lemma_counted_all_concat(no_counts(), entries_symbols(done), text);
        }
        i += 1;
    }
    assert(model.take(i as int) =~= model);
}

/// Adds the bits of each string to the bit stream and its reference to the
/// references; stops at the first string that cannot be written and tells
/// whether it came to the end.
#[verifier::rlimit(40)]
fn encode_entries(
    huffman: &Huffman<WChar>,
    entries: &Vec<TlkString>,
    Ghost(before): Ghost<Seq<TlkStringModel>>,
    data: &mut BitAccumulator,
    refs: &mut Vec<(u32, u32)>,
) -> (done: bool)
    requires
        old(data)@ == entries_bits(huffman.tree(), before),
        old(refs)@ == entry_refs(huffman.tree(), before),
    ensures
        done == entries_fit(
            huffman.tree(),
            before + tlk_strings_view(entries@),
            before.len() as int,
            before.len() + entries@.len() as int,
        ),
        done ==> final(data)@ == entries_bits(huffman.tree(), before + tlk_strings_view(entries@)),
        done ==> final(refs)@ == entry_refs(huffman.tree(), before + tlk_strings_view(entries@)),
{
    let ghost tree = huffman.tree();
    let ghost whole = before + tlk_strings_view(entries@);
    let mut i: usize = 0;
    assert(whole.take(before.len() as int) =~= before);
    while i < entries.len()
        invariant
            i <= entries.len(),
            tree == huffman.tree(),
            whole == before + tlk_strings_view(entries@),
            data@ == entries_bits(tree, whole.take(before.len() + i)),
            refs@ == entry_refs(tree, whole.take(before.len() + i)),
            entries_fit(tree, whole, before.len() as int, before.len() + i),
        decreases entries.len() - i,
    {
        let ghost at = before.len() + i;
        proof {
            lemma_entries_take_push(tree, whole, at);
            assert(whole[at] == entries@[i as int]@);
        }
        let start = data.len();
        if start > u32::MAX as usize {
            proof {
                lemma_entries_do_not_fit(tree, whole, before.len() as int, whole.len() as int, at);
            }
            return false;
        }
        if !huffman.try_encode_terminated(entries[i].value.as_slice(), data) {
            proof {
                lemma_entries_do_not_fit(tree, whole, before.len() as int, whole.len() as int, at);
            }
            return false;
        }
        refs.push((entries[i].id, start as u32));
        i += 1;
        proof {
            lemma_entries_fit_step(tree, whole, before.len() as int, at);
        }
    }
    assert(whole.take(whole.len() as int) =~= whole);
    true
}

/// A copy of a pair table.
fn copy_pairs(pairs: &[(i32, i32)]) -> (copy: Vec<(i32, i32)>)
    ensures
        copy@ == pairs@,
{
    let mut copy: Vec<(i32, i32)> = Vec::new();
    let mut i: usize = 0;
    while i < pairs.len()
        invariant
            i <= pairs.len(),
            copy@ == pairs@.take(i as int),
        decreases pairs.len() - i,
    {
        copy.push(pairs[i]);
        i += 1;
        assert(copy@ =~= pairs@.take(i as int));
    }
    assert(pairs@.take(i as int) =~= pairs@);
    copy
}

/// The number of bytes of a TLK file with `refs` references, `pairs` pairs
/// and `data` bytes of data, if a `usize` holds it.
fn tlk_file_size(refs: usize, pairs: usize, data: usize) -> (size: Option<usize>)
    ensures
        match size {
            Some(n) => n == 28 + 8 * refs + 8 * pairs + data,
            None => 28 + 8 * refs + 8 * pairs + data > usize::MAX,
        },
{
    let limit = usize::MAX;
    if refs > (limit - 28) / 8 {
        return None;
    }
    let with_refs = 28 + 8 * refs;
    if pairs > (limit - with_refs) / 8 {
        return None;
    }
    let with_pairs = with_refs + 8 * pairs;
    if data > limit - with_pairs {
        return None;
    }
    Some(with_pairs + data)
}

/// Serializes a TLK document if it can be written (see [`tlk_fits`]).
///
/// The file holds the header, a reference for each male and then for each
/// female string, the pair table, inverted, and the data block with the
/// Huffman bits of every string.
#[verifier::rlimit(40)]
pub fn try_serialize_tlk(tlk: &Tlk) -> (r: Option<Vec<u8>>)
    ensures
        r is Some <==> tlk_fits(tlk@),
        r matches Some(bytes) ==> bytes@ == tlk_bytes(tlk@),
{
    let ghost t = tlk@;
    let ghost entries = all_entries(t);
    proof {
        reveal(tlk_fits);
    }
    if tlk.male.len() > u32::MAX as usize || tlk.female.len() > u32::MAX as usize {
        return None;
    }
    let male_entry_count: u32 = tlk.male.len() as u32;
    let female_entry_count: u32 = tlk.female.len() as u32;
    let huffman: Huffman<WChar> = {
        let mut freq = FrequencyMap::<WChar>::new();
        // Create a frequency map for the huffman tree with all the values
        proof {
            assert(entries_symbols(Seq::<TlkStringModel>::empty()) =~= Seq::<int>::empty());
            assert(Seq::<TlkStringModel>::empty() + t.male =~= t.male);
        }
        count_entries(&mut freq, &tlk.male, Ghost(Seq::empty()));
        count_entries(&mut freq, &tlk.female, Ghost(t.male));
        Huffman::new(freq)
    };
    let ghost tree = huffman.tree();
    assert(tree == tlk_tree(t));
    let mut pairs = copy_pairs(huffman.get_pairs());
    invert_huffman_tree(&mut pairs);
    assert(pairs@ == tlk_pairs(t));
    let mut data_buffer = BitAccumulator::new();
    let mut refs: Vec<(u32, u32)> = Vec::new();
    proof {
        assert(entries_bits(tree, Seq::<TlkStringModel>::empty()) =~= Seq::<bool>::empty());
        assert(refs@ =~= entry_refs(tree, Seq::<TlkStringModel>::empty()));
    }
    if !encode_entries(&huffman, &tlk.male, Ghost(Seq::empty()), &mut data_buffer, &mut refs) {
        proof {
            lemma_entries_fit_prefix(tree, t.male, t.female);
        }
        return None;
    }
    if !encode_entries(&huffman, &tlk.female, Ghost(t.male), &mut data_buffer, &mut refs) {
        return None;
    }
    proof {
        lemma_entries_fit_prefix(tree, t.male, t.female);
        assert(entries_fit(tree, entries, 0, entries.len() as int));
    }
    let data_bytes = bit_to_bytes(data_buffer);
    assert(data_bytes@ == tlk_data(t));
    if data_bytes.len() > u32::MAX as usize {
        return None;
    }
    proof {
        lemma_tlk_bytes_len(t);
    }
    let size = match tlk_file_size(refs.len(), pairs.len(), data_bytes.len()) {
        Some(size) => size,
        None => {
            return None;
        },
    };
    let header: [u32; 7] = [
        TLK_MAGIC,
        tlk.version,
        tlk.min_version,
        male_entry_count,
        female_entry_count,
        pairs.len() as u32,
        data_bytes.len() as u32,
    ];
    let mut out = WriteBuffer::new();
    // Write the headers
    append_words(&mut out, header.as_slice());
    // Write the contents
    proof {
        lemma_word_bytes_len(header@);
        lemma_word_bytes_len(pair_words(refs@));
    }
    append_word_pairs(&mut out, &refs);
    append_signed_pairs(&mut out, pairs.as_slice());
    proof {
        let ref_words = pair_words(refs@);
        let table_words = pair_words(pairs@.map_values(|p: (i32, i32)| signed_pair_bits(p)));
        lemma_word_bytes_len(table_words);
        lemma_word_bytes_concat(header@, ref_words);
        lemma_word_bytes_concat(header@ + ref_words, table_words);
        assert(header@ + ref_words + table_words =~= tlk_words(t));
        lemma_overwritten_at_end(out.buffer@, data_bytes@);
    }
    out.write_slice(data_bytes.as_slice());
    let bytes = out.into_vec();
    assert(bytes@ =~= tlk_bytes(t));
    Some(bytes)
}

/// Serializes a TLK document that can be written (see [`tlk_fits`]).
pub fn serialize_tlk(tlk: &Tlk) -> (bytes: Vec<u8>)
    requires
        tlk_fits(tlk@),
    ensures
        bytes@ == tlk_bytes(tlk@),
{
    match try_serialize_tlk(tlk) {
        Some(bytes) => bytes,
        None => Vec::new(),
    }
}

/// The number of bytes of a Coalesced file with blocks of the given sizes,
/// if a `usize` holds it.
fn coalesced_file_size(table: usize, huffman: usize, index: usize, data: usize) -> (size: Option<
    usize,
>)
    ensures
        match size {
            Some(n) => n == 32 + table + huffman + index + 4 + data,
            None => 32 + table + huffman + index + 4 + data > usize::MAX,
        },
{
    let limit = usize::MAX;
    if table > limit - 36 {
        return None;
    }
    let with_table = 36 + table;
    if huffman > limit - with_table {
        return None;
    }
    let with_huffman = with_table + huffman;
    if index > limit - with_huffman {
        return None;
    }
    let with_index = with_huffman + index;
    if data > limit - with_index {
        return None;
    }
    Some(with_index + data)
}

/// Serializes a Coalesced document if it can be written (see
/// [`coalesced_fits`]).
///
/// The file holds the header; the string table with every name of the
/// document once, in the order of the checksums; the pair table of the
/// Huffman tree of the values; the index block, in which each file, section
/// and property stands at an offset from the start of what holds it; and the
/// data block with the Huffman bits of every value.
#[verifier::rlimit(40)]
pub fn try_serialize_coalesced(coalesced: &Coalesced) -> (r: Option<Vec<u8>>)
    ensures
        r is Some <==> coalesced_fits(coalesced@),
        r matches Some(bytes) ==> bytes@ == coalesced_bytes(coalesced@),
{
    let ghost c = coalesced@;
    proof {
        reveal(coalesced_fits);
    }
    // Collect all keys for the string table, then sort the keys
    let names = collect_names(&coalesced.files);
    let unique = distinct_keys(&names);
    let keys = sort_keys(&unique);
    assert(refs_view(keys@) == key_table(c));
    if !keys_fit_check(&keys) {
        return None;
    }
    if !layout_check(&coalesced.files) {
        return None;
    }
    let values = collect_values(&coalesced.files);
    assert(value_refs_view(values@) == all_values(c));
    let huffman: Huffman<u8> = Huffman::new(count_symbols(&values));
    assert(huffman.tree() == coalesced_tree(c));
    let pairs = huffman.get_pairs();
    let max_value_length = longest_text(&values);
    if max_value_length > u32::MAX as usize {
        return None;
    }
    // Determine the max key length
    let max_key_length = longest_key(&keys);
    // Build the string table buffer
    let string_table_buffer = write_string_table(&keys);
    let huffman_buffer = write_pair_block(pairs);
    let mut data_buffer = BitAccumulator::new();
    let mut index = WriteBuffer::new();
    if !emit_index(&coalesced.files, &keys, &huffman, &mut data_buffer, &mut index) {
        return None;
    }
    let index_buffer = index.into_vec();
    assert(index_buffer@ == coalesced_index(c));
    let total_bits = data_buffer.len();
    if total_bits > u32::MAX as usize || total_bits > usize::MAX / 8 {
        return None;
    }
    let data_bytes = bit_to_bytes(data_buffer);
    assert(data_bytes@ == packed(coalesced_bits(c)));
    proof {
        lemma_word_bytes_len(coalesced_header(c));
    }
    let size = match coalesced_file_size(
        string_table_buffer.len(),
        huffman_buffer.len(),
        index_buffer.len(),
        data_bytes.len(),
    ) {
        Some(size) => size,
        None => {
            return None;
        },
    };
    let header: [u32; 8] = [
        ME3_MAGIC,
        coalesced.version,
        max_key_length as u32,
        max_value_length as u32,
        string_table_buffer.len() as u32,
        huffman_buffer.len() as u32,
        index_buffer.len() as u32,
        data_bytes.len() as u32,
    ];
    assert(header@ =~= coalesced_header(c));
    let mut out = WriteBuffer::new();
    // Write the headers
    append_words(&mut out, header.as_slice());
    // Write the contents
    append_slice(&mut out, string_table_buffer.as_slice());
    append_slice(&mut out, huffman_buffer.as_slice());
    append_slice(&mut out, index_buffer.as_slice());
    append_u32(&mut out, total_bits as u32);
    append_slice(&mut out, data_bytes.as_slice());
    let bytes = out.into_vec();
    assert(bytes@ =~= coalesced_bytes(c));
    Some(bytes)
}

/// Serializes a Coalesced document that can be written (see
/// [`coalesced_fits`]).
pub fn serialize_coalesced(coalesced: &Coalesced) -> (bytes: Vec<u8>)
    requires
        coalesced_fits(coalesced@),
    ensures
        bytes@ == coalesced_bytes(coalesced@),
{
    match try_serialize_coalesced(coalesced) {
        Some(bytes) => bytes,
        None => Vec::new(),
    }
}

} // verus!
