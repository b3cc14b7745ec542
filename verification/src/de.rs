use crate::coalesced::OFFSET_LIMIT;
use crate::coalesced_parse::{
    files_from, keys_from, name_entries_from, parsed_coalesced, parsed_index, parsed_pair_block,
    parsed_string_table, properties_from, sections_from, value_of_word, values_from, IndexContext,
};
use crate::crc32::hash_crc32;
use crate::error::{DecodeError, DecodeResult};
use crate::huffman::Huffman;
use crate::huffman_utf16::HuffmanUtf16;
use crate::shared::{
    files_view, invert_huffman_tree, keys_view, properties_view, sections_view, tlk_strings_view,
    values_view, CoalFile, Coalesced, FileModel, Property, PropertyModel, Section, SectionModel,
    Tlk, TlkString, TlkStringModel, Value, ValueModel, ValueType, ME3_MAGIC, TLK_MAGIC,
};
use crate::tlk::{parsed_tlk, strings_from};
use crate::wire::{
    eof_error, i32_from_le, i32_from_le_bytes, signed_pair_of_bits, u16_from_le, u16_from_le_bytes,
    u32_from_le, u32_from_le_bytes, word_pairs, words_from,
};
use vstd::prelude::*;
use vstd::slice::slice_to_vec;

verus! {

/// Seekable read view over borrowed bytes.
pub struct ReadBuffer<'de> {
    /// Buffer storing the bytes to be deserialized.
    buffer: &'de [u8],
    /// Cursor representing the current offset within the buffer.
    cursor: usize,
}

impl<'de> ReadBuffer<'de> {
    #[verifier::type_invariant]
    spec fn cursor_in_buffer(self) -> bool {
        self.cursor <= self.buffer@.len()
    }

    /// The bytes that the view covers.
    pub closed spec fn bytes(self) -> Seq<u8> {
        self.buffer@
    }

    /// The offset of the next read.
    pub closed spec fn position(self) -> int {
        self.cursor as int
    }

    /// Creates a view of the provided buffer, with the cursor at its start.
    pub fn new(buffer: &'de [u8]) -> (r: Self)
        ensures
            r.bytes() == buffer@,
            r.position() == 0,
    {
        Self { buffer, cursor: 0 }
    }

    /// The number of bytes left after the cursor.
    pub fn remaining(&self) -> (n: usize)
        ensures
            n == self.bytes().len() - self.position(),
            0 <= self.position() <= self.bytes().len(),
    {
        proof {
            use_type_invariant(self);
        }
        self.buffer.len() - self.cursor
    }

    /// Reads the next `length` bytes and moves the cursor behind them.
    pub fn read_bytes(&mut self, length: usize) -> (r: DecodeResult<&'de [u8]>)
        ensures
            final(self).bytes() == old(self).bytes(),
            match r {
                Ok(slice) => {
                    &&& old(self).position() + length <= old(self).bytes().len()
                    &&& slice@ == old(self).bytes().subrange(
                        old(self).position(),
                        old(self).position() + length,
                    )
                    &&& final(self).position() == old(self).position() + length
                },
                Err(e) => {
                    &&& old(self).position() + length > old(self).bytes().len()
                    &&& e == eof_error(
                        old(self).position(),
                        length as int,
                        old(self).bytes().len() as int,
                    )
                    &&& final(self).position() == old(self).position()
                },
            },
    {
        proof {
            use_type_invariant(&*self);
        }
        let remaining = self.buffer.len() - self.cursor;
        if length > remaining {
            return Err(DecodeError::UnexpectedEof { cursor: self.cursor, wanted: length, remaining });
        }
        let buffer: &'de [u8] = self.buffer;
        let slice = &buffer[self.cursor..self.cursor + length];
        self.cursor += length;
        Ok(slice)
    }

    /// Moves the cursor to `cursor`, which has to lie before the end of the
    /// view.
    pub fn seek(&mut self, cursor: usize) -> (r: DecodeResult<()>)
        ensures
            final(self).bytes() == old(self).bytes(),
            match r {
                Ok(_) => cursor < old(self).bytes().len() && final(self).position() == cursor,
                Err(e) => {
                    &&& cursor >= old(self).bytes().len()
                    &&& e == eof_error(
                        old(self).position(),
                        cursor as int,
                        old(self).bytes().len() as int,
                    )
                    &&& final(self).position() == old(self).position()
                },
            },
    {
        proof {
            use_type_invariant(&*self);
        }
        if cursor >= self.buffer.len() {
            return Err(
                DecodeError::UnexpectedEof {
                    cursor: self.cursor,
                    wanted: cursor,
                    remaining: self.buffer.len() - self.cursor,
                },
            );
        }
        self.cursor = cursor;
        Ok(())
    }

    /// Reads the next `S` bytes into an array.
    pub fn read_fixed<const S: usize>(&mut self) -> (r: DecodeResult<[u8; S]>)
        ensures
            final(self).bytes() == old(self).bytes(),
            match r {
                Ok(bytes) => {
                    &&& old(self).position() + S <= old(self).bytes().len()
                    &&& bytes@ == old(self).bytes().subrange(
                        old(self).position(),
                        old(self).position() + S,
                    )
                    &&& final(self).position() == old(self).position() + S
                },
                Err(e) => {
                    &&& old(self).position() + S > old(self).bytes().len()
                    &&& e == eof_error(
                        old(self).position(),
                        S as int,
                        old(self).bytes().len() as int,
                    )
                    &&& final(self).position() == old(self).position()
                },
            },
    {
        let slice = match self.read_bytes(S) {
            Ok(slice) => slice,
            Err(e) => return Err(e),
        };
        let mut bytes: [u8; S] = [0u8; S];
        let mut i: usize = 0;
        while i < S
            invariant
                i <= S,
                slice@.len() == S,
                forall|j: int| 0 <= j < i ==> bytes@[j] == slice@[j],
            decreases S - i,
        {
            bytes[i] = slice[i];
            i += 1;
        }
        assert(bytes@ =~= slice@);
        Ok(bytes)
    }

    /// Splits off a view of the next `length` bytes and moves the cursor
    /// behind them.
    pub fn take_slice(&mut self, length: usize) -> (r: DecodeResult<ReadBuffer<'de>>)
        ensures
            final(self).bytes() == old(self).bytes(),
            match r {
                Ok(block) => {
                    &&& old(self).position() + length <= old(self).bytes().len()
                    &&& block.bytes() == old(self).bytes().subrange(
                        old(self).position(),
                        old(self).position() + length,
                    )
                    &&& block.position() == 0
                    &&& final(self).position() == old(self).position() + length
                },
                Err(e) => {
                    &&& old(self).position() + length > old(self).bytes().len()
                    &&& e == eof_error(
                        old(self).position(),
                        length as int,
                        old(self).bytes().len() as int,
                    )
                    &&& final(self).position() == old(self).position()
                },
            },
    {
        match self.read_bytes(length) {
            Ok(slice) => Ok(Self::new(slice)),
            Err(e) => Err(e),
        }
    }

    /// Reads a little-endian `u32`.
    pub fn read_u32(&mut self) -> (r: DecodeResult<u32>)
        ensures
            final(self).bytes() == old(self).bytes(),
            match r {
                Ok(value) => {
                    &&& old(self).position() + 4 <= old(self).bytes().len()
                    &&& value == u32_from_le(
                        old(self).bytes().subrange(old(self).position(), old(self).position() + 4),
                    )
                    &&& final(self).position() == old(self).position() + 4
                },
                Err(e) => {
                    &&& old(self).position() + 4 > old(self).bytes().len()
                    &&& e == eof_error(old(self).position(), 4, old(self).bytes().len() as int)
                    &&& final(self).position() == old(self).position()
                },
            },
    {
        match self.read_fixed::<4>() {
            Ok(bytes) => Ok(u32_from_le_bytes(bytes)),
            Err(e) => Err(e),
        }
    }

    /// Reads a little-endian `u16`.
    pub fn read_u16(&mut self) -> (r: DecodeResult<u16>)
        ensures
            final(self).bytes() == old(self).bytes(),
            match r {
                Ok(value) => {
                    &&& old(self).position() + 2 <= old(self).bytes().len()
                    &&& value == u16_from_le(
                        old(self).bytes().subrange(old(self).position(), old(self).position() + 2),
                    )
                    &&& final(self).position() == old(self).position() + 2
                },
                Err(e) => {
                    &&& old(self).position() + 2 > old(self).bytes().len()
                    &&& e == eof_error(old(self).position(), 2, old(self).bytes().len() as int)
                    &&& final(self).position() == old(self).position()
                },
            },
    {
        match self.read_fixed::<2>() {
            Ok(bytes) => Ok(u16_from_le_bytes(bytes)),
            Err(e) => Err(e),
        }
    }

    /// Reads a little-endian `i32` in two's complement.
    pub fn read_i32(&mut self) -> (r: DecodeResult<i32>)
        ensures
            final(self).bytes() == old(self).bytes(),
            match r {
                Ok(value) => {
                    &&& old(self).position() + 4 <= old(self).bytes().len()
                    &&& value == i32_from_le(
                        old(self).bytes().subrange(old(self).position(), old(self).position() + 4),
                    )
                    &&& final(self).position() == old(self).position() + 4
                },
                Err(e) => {
                    &&& old(self).position() + 4 > old(self).bytes().len()
                    &&& e == eof_error(old(self).position(), 4, old(self).bytes().len() as int)
                    &&& final(self).position() == old(self).position()
                },
            },
    {
        match self.read_fixed::<4>() {
            Ok(bytes) => Ok(i32_from_le_bytes(bytes)),
            Err(e) => Err(e),
        }
    }
}

/// Reads `count` little-endian words.
fn read_words(r: &mut ReadBuffer, count: usize) -> (res: DecodeResult<Vec<u32>>)
    ensures
        final(r).bytes() == old(r).bytes(),
        match words_from(old(r).bytes(), old(r).position(), count as nat, Seq::empty()) {
            Ok(words) => {
                &&& res matches Ok(v) && v@ == words && v@.len() == count
                &&& final(r).position() == old(r).position() + 4 * count
            },
            Err(e) => res matches Err(f) && f == e,
        },
{
    let mut words: Vec<u32> = Vec::new();
    let ghost goal = words_from(r.bytes(), r.position(), count as nat, Seq::empty());
    let mut i: usize = 0;
    while i < count
        invariant
            i <= count,
            r.bytes() == old(r).bytes(),
            r.position() == old(r).position() + 4 * i,
            words@.len() == i,
            words_from(r.bytes(), r.position(), (count - i) as nat, words@) == goal,
            goal == words_from(old(r).bytes(), old(r).position(), count as nat, Seq::empty()),
        decreases count - i,
    {
        let word = match r.read_u32() {
            Ok(word) => word,
            Err(e) => {
                return Err(e);
            },
        };
        words.push(word);
        i += 1;
    }
    Ok(words)
}

/// Reads `count` pairs of little-endian words.
fn read_word_pairs(r: &mut ReadBuffer, count: u32) -> (res: DecodeResult<Vec<(u32, u32)>>)
    ensures
        final(r).bytes() == old(r).bytes(),
        match words_from(old(r).bytes(), old(r).position(), 2 * count as nat, Seq::empty()) {
            Ok(words) => res matches Ok(v) && v@ == word_pairs(words) && final(r).position()
                == old(r).position() + 8 * count,
            Err(e) => res matches Err(f) && f == e,
        },
{
    let mut pairs: Vec<(u32, u32)> = Vec::new();
    let ghost goal = words_from(r.bytes(), r.position(), 2 * count as nat, Seq::empty());
    let ghost mut words: Seq<u32> = Seq::empty();
    let mut i: u32 = 0;
    assert(pairs@ =~= word_pairs(words));
    while i < count
        invariant
            i <= count,
            r.bytes() == old(r).bytes(),
            r.position() == old(r).position() + 8 * i,
            words.len() == 2 * i,
            pairs@ == word_pairs(words),
            words_from(r.bytes(), r.position(), (2 * (count - i)) as nat, words) == goal,
            goal == words_from(old(r).bytes(), old(r).position(), 2 * count as nat, Seq::empty()),
        decreases count - i,
    {
        let ghost at = r.position();
        let left = match r.read_u32() {
            Ok(word) => word,
            Err(e) => {
                return Err(e);
            },
        };
        assert(words_from(r.bytes(), at + 4, (2 * (count - i) - 1) as nat, words.push(left))
            == goal);
        let right = match r.read_u32() {
            Ok(word) => word,
            Err(e) => {
                return Err(e);
            },
        };
        pairs.push((left, right));
        proof {
            assert(word_pairs(words.push(left).push(right)) =~= word_pairs(words).push(
                (left, right),
            ));
            words = words.push(left).push(right);
        }
        i += 1;
    }
    Ok(pairs)
}

/// Reads `count` pairs of little-endian signed numbers.
fn read_signed_pairs(r: &mut ReadBuffer, count: u32) -> (res: DecodeResult<Vec<(i32, i32)>>)
    ensures
        final(r).bytes() == old(r).bytes(),
        match words_from(old(r).bytes(), old(r).position(), 2 * count as nat, Seq::empty()) {
            Ok(words) => res matches Ok(v) && v@ == word_pairs(words).map_values(
                |p: (u32, u32)| signed_pair_of_bits(p),
            ) && final(r).position() == old(r).position() + 8 * count,
            Err(e) => res matches Err(f) && f == e,
        },
{
    let mut pairs: Vec<(i32, i32)> = Vec::new();
    let ghost goal = words_from(r.bytes(), r.position(), 2 * count as nat, Seq::empty());
    let ghost mut words: Seq<u32> = Seq::empty();
    let mut i: u32 = 0;
    assert(pairs@ =~= word_pairs(words).map_values(|p: (u32, u32)| signed_pair_of_bits(p)));
    while i < count
        invariant
            i <= count,
            r.bytes() == old(r).bytes(),
            r.position() == old(r).position() + 8 * i,
            words.len() == 2 * i,
            pairs@ == word_pairs(words).map_values(|p: (u32, u32)| signed_pair_of_bits(p)),
            words_from(r.bytes(), r.position(), (2 * (count - i)) as nat, words) == goal,
            goal == words_from(old(r).bytes(), old(r).position(), 2 * count as nat, Seq::empty()),
        decreases count - i,
    {
        let ghost at = r.position();
        let ghost left_word = u32_from_le(r.bytes().subrange(at, at + 4));
        let ghost right_word = u32_from_le(r.bytes().subrange(at + 4, at + 8));
        let left = match r.read_i32() {
            Ok(value) => value,
            Err(e) => {
                return Err(e);
            },
        };
        assert(words_from(r.bytes(), at + 4, (2 * (count - i) - 1) as nat, words.push(left_word))
            == goal);
        let right = match r.read_i32() {
            Ok(value) => value,
            Err(e) => {
                return Err(e);
            },
        };
        pairs.push((left, right));
        proof {
            let next = words.push(left_word).push(right_word);
            assert(word_pairs(next) =~= word_pairs(words).push((left_word, right_word)));
            assert(word_pairs(next).map_values(|p: (u32, u32)| signed_pair_of_bits(p))
                =~= word_pairs(words).map_values(|p: (u32, u32)| signed_pair_of_bits(p)).push(
                (left, right),
            ));
            words = next;
        }
        i += 1;
    }
    Ok(pairs)
}

/// Decodes the strings that the references point at.
fn decode_strings(data: &[u8], pairs: &[(i32, i32)], refs: &Vec<(u32, u32)>) -> (res: DecodeResult<
    Vec<TlkString>,
>)
    ensures
        match strings_from(data@, pairs@, refs@, 0, Seq::empty()) {
            Ok(strings) => res matches Ok(v) && tlk_strings_view(v@) == strings,
            Err(e) => res matches Err(f) && f == e,
        },
{
    let mut values: Vec<TlkString> = Vec::new();
    let ghost goal = strings_from(data@, pairs@, refs@, 0, Seq::empty());
    let mut i: usize = 0;
    assert(tlk_strings_view(values@) =~= Seq::<TlkStringModel>::empty());
    while i < refs.len()
        invariant
            i <= refs.len(),
            strings_from(data@, pairs@, refs@, i as int, tlk_strings_view(values@)) == goal,
            goal == strings_from(data@, pairs@, refs@, 0, Seq::empty()),
        decreases refs.len() - i,
    {
        let (key, offset) = refs[i];
        let text = match HuffmanUtf16::decode(data, pairs, offset as usize, usize::MAX) {
            Ok(text) => text,
            Err(e) => {
                return Err(e);
            },
        };
        let ghost before = tlk_strings_view(values@);
        values.push(TlkString { id: key, value: text });
        assert(tlk_strings_view(values@) =~= before.push(TlkStringModel { id: key, value: text@ }));
        i += 1;
    }
    Ok(values)
}

/// Reads a TLK file: the header, the references of the male and of the
/// female strings, the pair table, which is stored inverted, and the data
/// block, from which every string is decoded at the bit that its reference
/// names.
#[verifier::rlimit(40)]
pub fn deserialize_tlk(input: &[u8]) -> (r: DecodeResult<Tlk>)
    ensures
        match parsed_tlk(input@) {
            Ok(t) => r matches Ok(tlk) && tlk@ == t,
            Err(e) => r matches Err(f) && f == e,
        },
{
    let mut r = ReadBuffer::new(input);
    let magic = match read_words(&mut r, 1) {
        Ok(words) => words[0],
        Err(e) => {
            return Err(e);
        },
    };
    if magic != TLK_MAGIC {
        return Err(DecodeError::UnknownFileMagic);
    }
    // Header block
    let fields = match read_words(&mut r, 6) {
        Ok(words) => words,
        Err(e) => {
            return Err(e);
        },
    };
    let version = fields[0];
    let min_version = fields[1];
    let male_entry_count = fields[2];
    let female_entry_count = fields[3];
    let tree_node_count = fields[4];
    let data_length = fields[5];
    // Read the male refs
    let male_refs = match read_word_pairs(&mut r, male_entry_count) {
        Ok(refs) => refs,
        Err(e) => {
            return Err(e);
        },
    };
    // Read the female refs
    let female_refs = match read_word_pairs(&mut r, female_entry_count) {
        Ok(refs) => refs,
        Err(e) => {
            return Err(e);
        },
    };
    // Read the huffman tree
    let mut huffman_tree = match read_signed_pairs(&mut r, tree_node_count) {
        Ok(pairs) => pairs,
        Err(e) => {
            return Err(e);
        },
    };
    let ghost stored_pairs = huffman_tree@;
    invert_huffman_tree(&mut huffman_tree);
    // Read the data block
    let data_block: &[u8] = match r.read_bytes(data_length as usize) {
        Ok(block) => block,
        Err(e) => {
            return Err(e);
        },
    };
    // Decode the male ref values
    let male = match decode_strings(data_block, huffman_tree.as_slice(), &male_refs) {
        Ok(values) => values,
        Err(e) => {
            return Err(e);
        },
    };
    // Decode the female ref values
    let female = match decode_strings(data_block, huffman_tree.as_slice(), &female_refs) {
        Ok(values) => values,
        Err(e) => {
            return Err(e);
        },
    };
    Ok(Tlk { version, min_version, male, female })
}

/// Moves the cursor to a position that may lie beyond what a `usize` holds.
fn seek_wide(r: &mut ReadBuffer, target: u64) -> (res: DecodeResult<()>)
    ensures
        final(r).bytes() == old(r).bytes(),
        match res {
            Ok(_) => target < old(r).bytes().len() && final(r).position() == target,
            Err(e) => {
                &&& target >= old(r).bytes().len()
                &&& e == eof_error(
                    old(r).position(),
                    target as int,
                    old(r).bytes().len() as int,
                )
                &&& final(r).position() == old(r).position()
            },
        },
{
    proof {
        use_type_invariant(&*r);
    }
    let len = r.buffer.len();
    if target >= len as u64 {
        return Err(
            DecodeError::UnexpectedEof {
                cursor: r.cursor,
                wanted: target as usize,
                remaining: len - r.cursor,
            },
        );
    }
    r.seek(target as usize)
}

/// Reads the string table: its size, which has to be the one that the
/// header gives, the number of keys, the entries, and for each entry the key
/// at its offset, whose checksum has to be the stored one.
#[verifier::rlimit(40)]
fn read_string_table(block: &mut ReadBuffer, expected: u32) -> (res: DecodeResult<Vec<Vec<u8>>>)
    requires
        old(block).position() == 0,
    ensures
        match parsed_string_table(old(block).bytes(), expected) {
            Ok(keys) => res matches Ok(v) && keys_view(v@) == keys,
            Err(e) => res matches Err(f) && f == e,
        },
{
    let local_size = match read_words(block, 1) {
        Ok(words) => words[0],
        Err(e) => {
            return Err(e);
        },
    };
    if local_size != expected {
        return Err(DecodeError::StringTableSizeMismatch);
    }
    let count = match read_words(block, 1) {
        Ok(words) => words[0],
        Err(e) => {
            return Err(e);
        },
    };
    let offsets = match read_word_pairs(block, count) {
        Ok(offsets) => offsets,
        Err(e) => {
            return Err(e);
        },
    };
    let mut values: Vec<Vec<u8>> = Vec::new();
    let ghost goal = parsed_string_table(block.bytes(), expected);
    let mut i: usize = 0;
    assert(keys_view(values@) =~= Seq::<Seq<u8>>::empty());
    while i < offsets.len()
        invariant
            i <= offsets.len(),
            block.bytes() == old(block).bytes(),
            keys_from(block.bytes(), offsets@, i as int, block.position(), keys_view(values@))
                == goal,
            goal == parsed_string_table(old(block).bytes(), expected),
        decreases offsets.len() - i,
    {
        let (hash, offset) = offsets[i];
        match seek_wide(block, 8 + offset as u64) {
            Ok(_) => {},
            Err(e) => {
                return Err(e);
            },
        }
        let length = match block.read_u16() {
            Ok(length) => length,
            Err(e) => {
                return Err(e);
            },
        };
        let bytes = match block.read_bytes(length as usize) {
            Ok(bytes) => bytes,
            Err(e) => {
                return Err(e);
            },
        };
        if hash_crc32(bytes) != hash {
            return Err(DecodeError::StringTableHashMismatch);
        }
        let ghost before = keys_view(values@);
        values.push(slice_to_vec(bytes));
        assert(keys_view(values@) =~= before.push(bytes@));
        i += 1;
    }
    Ok(values)
}

/// Reads the Huffman block: the number of pairs, then the pairs.
fn read_pair_block(block: &mut ReadBuffer) -> (res: DecodeResult<Vec<(i32, i32)>>)
    requires
        old(block).position() == 0,
    ensures
        match parsed_pair_block(old(block).bytes()) {
            Ok(pairs) => res matches Ok(v) && v@ == pairs,
            Err(e) => res matches Err(f) && f == e,
        },
{
    // Read the length of the tree
    let count = match block.read_u16() {
        Ok(count) => count,
        Err(e) => {
            return Err(e);
        },
    };
    read_signed_pairs(block, count as u32)
}

/// The entries of a table of names as the reader holds them, each with the
/// name that its index names.
pub open spec fn named(keys: Seq<Seq<u8>>, entries: Seq<(u16, u32)>) -> Seq<(Seq<u8>, u32)> {
    entries.map_values(|e: (u16, u32)| (keys[e.0 as int], e.1))
}

/// Reads `count` entries of a table of names: for each the index of a name,
/// which has to lie in the string table, and an offset.
fn read_name_entries(index: &mut ReadBuffer, keys: &Vec<Vec<u8>>, count: u16) -> (res:
    DecodeResult<Vec<(u16, u32)>>)
    ensures
        final(index).bytes() == old(index).bytes(),
        match name_entries_from(
            old(index).bytes(),
            keys_view(keys@),
            old(index).position(),
            count as nat,
            Seq::empty(),
        ) {
            Ok(entries) => {
                &&& res matches Ok(v) && named(keys_view(keys@), v@) == entries
                &&& final(index).position() == old(index).position() + 6 * count
            },
            Err(e) => res matches Err(f) && f == e,
        },
        res matches Ok(v) ==> forall|i: int|
            0 <= i < v@.len() ==> (#[trigger] v@[i]).0 < keys@.len(),
{
    let mut entries: Vec<(u16, u32)> = Vec::new();
    let ghost names = keys_view(keys@);
    let ghost goal = name_entries_from(
        index.bytes(),
        names,
        index.position(),
        count as nat,
        Seq::empty(),
    );
    let mut i: u16 = 0;
    assert(named(names, entries@) =~= Seq::<(Seq<u8>, u32)>::empty());
    while i < count
        invariant
            i <= count,
            names == keys_view(keys@),
            index.bytes() == old(index).bytes(),
            index.position() == old(index).position() + 6 * i,
            forall|k: int| 0 <= k < entries@.len() ==> (#[trigger] entries@[k]).0 < keys@.len(),
            name_entries_from(
                index.bytes(),
                names,
                index.position(),
                (count - i) as nat,
                named(names, entries@),
            ) == goal,
            goal == name_entries_from(
                old(index).bytes(),
                keys_view(keys@),
                old(index).position(),
                count as nat,
                Seq::empty(),
            ),
        decreases count - i,
    {
        // Read the name and get it from the string table
        let name_index = match index.read_u16() {
            Ok(name_index) => name_index,
            Err(e) => {
                return Err(e);
            },
        };
        if name_index as usize >= keys.len() {
            return Err(DecodeError::InvalidNameOffset);
        }
        // Read the offset
        let offset = match index.read_u32() {
            Ok(offset) => offset,
            Err(e) => {
                return Err(e);
            },
        };
        let ghost before = named(names, entries@);
        entries.push((name_index, offset));
        assert(named(names, entries@) =~= before.push((names[name_index as int], offset)));
        i += 1;
    }
    Ok(entries)
}

/// What the index block is read with.
pub struct IndexReader<'a> {
    /// The string table.
    pub keys: &'a Vec<Vec<u8>>,
    /// The pair table.
    pub pairs: &'a [(i32, i32)],
    /// The data block.
    pub data: &'a [u8],
    /// The largest number of bytes of a value.
    pub max_length: usize,
}

impl<'a> IndexReader<'a> {
    /// What the index block `block` is read with.
    pub open spec fn context(self, block: Seq<u8>) -> IndexContext {
        IndexContext {
            block,
            keys: keys_view(self.keys@),
            pairs: self.pairs@,
            data: self.data@,
            max_length: self.max_length as int,
        }
    }

    /// Reads the value that a word of the index stands for.
    fn read_value(&self, word: u32, Ghost(block): Ghost<Seq<u8>>) -> (res: DecodeResult<Value>)
        ensures
            match value_of_word(self.context(block), word) {
                Ok(value) => res matches Ok(v) && v@ == value,
                Err(e) => res matches Err(f) && f == e,
            },
    {
        // Split the type and offset
        let ty = word / OFFSET_LIMIT;
        let item_offset = word % OFFSET_LIMIT;
        let ty = match ValueType::try_from(ty as u8) {
            Ok(ty) => ty,
            Err(_) => {
                return Err(DecodeError::UnknownValueType);
            },
        };
        let text = match ty {
            ValueType::RemoveProperty => None,
            _ => {
                let text = match Huffman::<u8>::decode::<Vec<u8>>(
                    self.data,
                    self.pairs,
                    item_offset as usize,
                    self.max_length,
                ) {
                    Ok(text) => text,
                    Err(e) => {
                        return Err(e);
                    },
                };
                Some(text)
            },
        };
        Ok(Value { ty, text })
    }

    /// Reads `count` values at the cursor.
    fn read_values(&self, index: &mut ReadBuffer, count: u16) -> (res: DecodeResult<Vec<Value>>)
        ensures
            final(index).bytes() == old(index).bytes(),
            match values_from(
                self.context(old(index).bytes()),
                old(index).position(),
                count as nat,
                Seq::empty(),
            ) {
                Ok(values) => {
                    &&& res matches Ok(v) && values_view(v@) == values
                    &&& final(index).position() == old(index).position() + 4 * count
                },
                Err(e) => res matches Err(f) && f == e,
            },
    {
        let mut items: Vec<Value> = Vec::new();
        let ghost ctx = self.context(index.bytes());
        let ghost goal = values_from(ctx, index.position(), count as nat, Seq::empty());
        let mut i: u16 = 0;
        assert(values_view(items@) =~= Seq::<ValueModel>::empty());
        while i < count
            invariant
                i <= count,
                index.bytes() == old(index).bytes(),
                ctx == self.context(old(index).bytes()),
                index.position() == old(index).position() + 4 * i,
                values_from(ctx, index.position(), (count - i) as nat, values_view(items@)) == goal,
                goal == values_from(
                    self.context(old(index).bytes()),
                    old(index).position(),
                    count as nat,
                    Seq::empty(),
                ),
            decreases count - i,
        {
            // Read the packed word of the item
            let word = match index.read_u32() {
                Ok(word) => word,
                Err(e) => {
                    return Err(e);
                },
            };
            let value = match self.read_value(word, Ghost(index.bytes())) {
                Ok(value) => value,
                Err(e) => {
                    return Err(e);
                },
            };
            let ghost before = values_view(items@);
            items.push(value);
            assert(values_view(items@) =~= before.push(value@));
            i += 1;
        }
        Ok(items)
    }

    /// Reads the properties that the entries name; their bodies stand at
    /// their offsets from `base`.
    #[verifier::rlimit(40)]
    fn read_properties(&self, index: &mut ReadBuffer, base: u64, entries: &Vec<(u16, u32)>) -> (res:
        DecodeResult<Vec<Property>>)
        requires
            base <= 2 * u32::MAX,
            forall|i: int| 0 <= i < entries@.len() ==> (#[trigger] entries@[i]).0 < self.keys@.len(),
        ensures
            final(index).bytes() == old(index).bytes(),
            match properties_from(
                self.context(old(index).bytes()),
                base as int,
                named(keys_view(self.keys@), entries@),
                0,
                old(index).position(),
                Seq::empty(),
            ) {
                Ok(read) => {
                    &&& res matches Ok(v) && properties_view(v@) == read.0
                    &&& final(index).position() == read.1
                },
                Err(e) => res matches Err(f) && f == e,
            },
    {
        let mut properties: Vec<Property> = Vec::new();
        let ghost ctx = self.context(index.bytes());
        let ghost names = named(keys_view(self.keys@), entries@);
        let ghost goal = properties_from(ctx, base as int, names, 0, index.position(), Seq::empty());
        let mut i: usize = 0;
        assert(properties_view(properties@) =~= Seq::<PropertyModel>::empty());
        while i < entries.len()
            invariant
                i <= entries.len(),
                base <= 2 * u32::MAX,
                forall|i: int|
                    0 <= i < entries@.len() ==> (#[trigger] entries@[i]).0 < self.keys@.len(),
                index.bytes() == old(index).bytes(),
                ctx == self.context(old(index).bytes()),
                names == named(keys_view(self.keys@), entries@),
                properties_from(
                    ctx,
                    base as int,
                    names,
                    i as int,
                    index.position(),
                    properties_view(properties@),
                ) == goal,
                goal == properties_from(
                    self.context(old(index).bytes()),
                    base as int,
                    named(keys_view(self.keys@), entries@),
                    0,
                    old(index).position(),
                    Seq::empty(),
                ),
            decreases entries.len() - i,
        {
            let (name_index, value_offset) = entries[i];
            assert(entries@[i as int].0 < self.keys@.len());
            // Seek the index to the property
            match seek_wide(index, base + value_offset as u64) {
                Ok(_) => {},
                Err(e) => {
                    return Err(e);
                },
            }
            let item_count = match index.read_u16() {
                Ok(count) => count,
                Err(e) => {
                    return Err(e);
                },
            };
            let items = match self.read_values(index, item_count) {
                Ok(items) => items,
                Err(e) => {
                    return Err(e);
                },
            };
            let ghost before = properties_view(properties@);
            let name = slice_to_vec(self.keys[name_index as usize].as_slice());
            let property = Property { name, values: items };
            assert(property@ == (PropertyModel { name: names[i as int].0, values: values_view(items@) }));
            properties.push(property);
            assert(properties_view(properties@) =~= before.push(property@));
            i += 1;
        }
        Ok(properties)
    }

    /// Reads the sections that the entries name; their bodies stand at
    /// their offsets from `base`, the start of the file.
    #[verifier::rlimit(40)]
    fn read_sections(&self, index: &mut ReadBuffer, base: u32, entries: &Vec<(u16, u32)>) -> (res:
        DecodeResult<Vec<Section>>)
        requires
            forall|i: int| 0 <= i < entries@.len() ==> (#[trigger] entries@[i]).0 < self.keys@.len(),
        ensures
            final(index).bytes() == old(index).bytes(),
            match sections_from(
                self.context(old(index).bytes()),
                base as int,
                named(keys_view(self.keys@), entries@),
                0,
                old(index).position(),
                Seq::empty(),
            ) {
                Ok(read) => {
                    &&& res matches Ok(v) && sections_view(v@) == read.0
                    &&& final(index).position() == read.1
                },
                Err(e) => res matches Err(f) && f == e,
            },
    {
        let mut sections: Vec<Section> = Vec::new();
        let ghost ctx = self.context(index.bytes());
        let ghost names = named(keys_view(self.keys@), entries@);
        let ghost goal = sections_from(ctx, base as int, names, 0, index.position(), Seq::empty());
        let mut i: usize = 0;
        assert(sections_view(sections@) =~= Seq::<SectionModel>::empty());
        while i < entries.len()
            invariant
                i <= entries.len(),
                forall|i: int|
                    0 <= i < entries@.len() ==> (#[trigger] entries@[i]).0 < self.keys@.len(),
                index.bytes() == old(index).bytes(),
                ctx == self.context(old(index).bytes()),
                names == named(keys_view(self.keys@), entries@),
                sections_from(
                    ctx,
                    base as int,
                    names,
                    i as int,
                    index.position(),
                    sections_view(sections@),
                ) == goal,
                goal == sections_from(
                    self.context(old(index).bytes()),
                    base as int,
                    named(keys_view(self.keys@), entries@),
                    0,
                    old(index).position(),
                    Seq::empty(),
                ),
            decreases entries.len() - i,
        {
            let (name_index, section_offset) = entries[i];
            assert(entries@[i as int].0 < self.keys@.len());
            // Seek the index to the section
            let start = base as u64 + section_offset as u64;
            match seek_wide(index, start) {
                Ok(_) => {},
                Err(e) => {
                    return Err(e);
                },
            }
            let values_count = match index.read_u16() {
                Ok(count) => count,
                Err(e) => {
                    return Err(e);
                },
            };
            let value_offsets = match read_name_entries(index, self.keys, values_count) {
                Ok(offsets) => offsets,
                Err(e) => {
                    return Err(e);
                },
            };
            let properties = match self.read_properties(index, start, &value_offsets) {
                Ok(properties) => properties,
                Err(e) => {
                    return Err(e);
                },
            };
            let ghost before = sections_view(sections@);
            let name = slice_to_vec(self.keys[name_index as usize].as_slice());
            let section = Section { name, properties };
            assert(section@ == (SectionModel {
                name: names[i as int].0,
                properties: properties_view(properties@),
            }));
            sections.push(section);
            assert(sections_view(sections@) =~= before.push(section@));
            i += 1;
        }
        Ok(sections)
    }

    /// Reads the files that the entries name; their bodies stand at their
    /// offsets from the start of the index block.
    #[verifier::rlimit(40)]
    fn read_files(&self, index: &mut ReadBuffer, entries: &Vec<(u16, u32)>) -> (res: DecodeResult<
        Vec<CoalFile>,
    >)
        requires
            forall|i: int| 0 <= i < entries@.len() ==> (#[trigger] entries@[i]).0 < self.keys@.len(),
        ensures
            final(index).bytes() == old(index).bytes(),
            match files_from(
                self.context(old(index).bytes()),
                named(keys_view(self.keys@), entries@),
                0,
                old(index).position(),
                Seq::empty(),
            ) {
                Ok(read) => {
                    &&& res matches Ok(v) && files_view(v@) == read.0
                    &&& final(index).position() == read.1
                },
                Err(e) => res matches Err(f) && f == e,
            },
    {
        let mut files: Vec<CoalFile> = Vec::new();
        let ghost ctx = self.context(index.bytes());
        let ghost names = named(keys_view(self.keys@), entries@);
        let ghost goal = files_from(ctx, names, 0, index.position(), Seq::empty());
        let mut i: usize = 0;
        assert(files_view(files@) =~= Seq::<FileModel>::empty());
        while i < entries.len()
            invariant
                i <= entries.len(),
                forall|i: int|
                    0 <= i < entries@.len() ==> (#[trigger] entries@[i]).0 < self.keys@.len(),
                index.bytes() == old(index).bytes(),
                ctx == self.context(old(index).bytes()),
                names == named(keys_view(self.keys@), entries@),
                files_from(ctx, names, i as int, index.position(), files_view(files@)) == goal,
                goal == files_from(
                    self.context(old(index).bytes()),
                    named(keys_view(self.keys@), entries@),
                    0,
                    old(index).position(),
                    Seq::empty(),
                ),
            decreases entries.len() - i,
        {
            let (name_index, file_offset) = entries[i];
            assert(entries@[i as int].0 < self.keys@.len());
            // Seek the index to the file
            match seek_wide(index, file_offset as u64) {
                Ok(_) => {},
                Err(e) => {
                    return Err(e);
                },
            }
            // Read the number of sections
            let sections_count = match index.read_u16() {
                Ok(count) => count,
                Err(e) => {
                    return Err(e);
                },
            };
            let section_offsets = match read_name_entries(index, self.keys, sections_count) {
                Ok(offsets) => offsets,
                Err(e) => {
                    return Err(e);
                },
            };
            let sections = match self.read_sections(index, file_offset, &section_offsets) {
                Ok(sections) => sections,
                Err(e) => {
                    return Err(e);
                },
            };
            let ghost before = files_view(files@);
            let path = slice_to_vec(self.keys[name_index as usize].as_slice());
            let file = CoalFile { path, sections };
            assert(file@ == (FileModel {
                path: names[i as int].0,
                sections: sections_view(sections@),
            }));
            files.push(file);
            assert(files_view(files@) =~= before.push(file@));
            i += 1;
        }
        Ok(files)
    }

    /// Reads the index block: the number of files, an entry for each, and
    /// the files.
    fn read_index(&self, index: &mut ReadBuffer) -> (res: DecodeResult<Vec<CoalFile>>)
        requires
            old(index).position() == 0,
        ensures
            match parsed_index(self.context(old(index).bytes())) {
                Ok(files) => res matches Ok(v) && files_view(v@) == files,
                Err(e) => res matches Err(f) && f == e,
            },
    {
        // Read the number of files
        let files_count = match index.read_u16() {
            Ok(count) => count,
            Err(e) => {
                return Err(e);
            },
        };
        // Read the file offsets
        let file_offsets = match read_name_entries(index, self.keys, files_count) {
            Ok(offsets) => offsets,
            Err(e) => {
                return Err(e);
            },
        };
        self.read_files(index, &file_offsets)
    }
}

/// Reads a Coalesced file: the header, the string table, the Huffman block,
/// the index block, the number of bits and the data block; then the files,
/// sections, properties and values that the index block names, each value
/// decoded at the bit that its word names.
#[verifier::rlimit(40)]
pub fn deserialize_coalesced(input: &[u8]) -> (r: DecodeResult<Coalesced>)
    ensures
        match parsed_coalesced(input@) {
            Ok(c) => r matches Ok(coalesced) && coalesced@ == c,
            Err(e) => r matches Err(f) && f == e,
        },
{
    let mut r = ReadBuffer::new(input);
    // Read the file header
    let magic = match read_words(&mut r, 1) {
        Ok(words) => words[0],
        Err(e) => {
            return Err(e);
        },
    };
    if magic != ME3_MAGIC {
        return Err(DecodeError::UnknownFileMagic);
    }
    let fields = match read_words(&mut r, 7) {
        Ok(words) => words,
        Err(e) => {
            return Err(e);
        },
    };
    let version = fields[0];
    let max_value_length = fields[2];
    let string_table_size = fields[3];
    let huffman_size = fields[4];
    let index_size = fields[5];
    let data_size = fields[6];
    // Read the string lookup table
    let string_table: Vec<Vec<u8>> = {
        let mut string_table_block = match r.take_slice(string_table_size as usize) {
            Ok(block) => block,
            Err(e) => {
                return Err(e);
            },
        };
        match read_string_table(&mut string_table_block, string_table_size) {
            Ok(keys) => keys,
            Err(e) => {
                return Err(e);
            },
        }
    };
    // Read the huffman tree
    let huffman_tree: Vec<(i32, i32)> = {
        let mut huffman_tree_block = match r.take_slice(huffman_size as usize) {
            Ok(block) => block,
            Err(e) => {
                return Err(e);
            },
        };
        match read_pair_block(&mut huffman_tree_block) {
            Ok(pairs) => pairs,
            Err(e) => {
                return Err(e);
            },
        }
    };
    // Read the index block
    let mut index_block = match r.take_slice(index_size as usize) {
        Ok(block) => block,
        Err(e) => {
            return Err(e);
        },
    };
    // Read the total bits count
    let _total_bits = match r.read_u32() {
        Ok(bits) => bits,
        Err(e) => {
            return Err(e);
        },
    };
    // Read the data block
    let data_block: &[u8] = match r.read_bytes(data_size as usize) {
        Ok(block) => block,
        Err(e) => {
            return Err(e);
        },
    };
    let reader = IndexReader {
        keys: &string_table,
        pairs: huffman_tree.as_slice(),
        data: data_block,
        max_length: max_value_length as usize,
    };
    let files = match reader.read_index(&mut index_block) {
        Ok(files) => files,
        Err(e) => {
            return Err(e);
        },
    };
    Ok(Coalesced { version, files })
}

} // verus!
