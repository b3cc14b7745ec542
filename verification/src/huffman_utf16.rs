use crate::bits::{max_bits, BitAccumulator};
use crate::error::DecodeError;
use crate::huffman::{
    chars_of, counted, counted_all, decoded, emitted, encoded, no_counts, symbols_of, FrequencyMap,
    Huffman, HuffmanTree, ALPHABET_SIZE,
};
use crate::pairs::pair_table;
use crate::shared::{WChar, WString};
use crate::tree::huffman_tree;
use vstd::prelude::*;

verus! {

/// Map containing the frequencies of 16-bit code units to build a Huffman
/// tree from.
pub struct FrequencyMapUtf16 {
    map: FrequencyMap<WChar>,
}

impl FrequencyMapUtf16 {
    /// The frequency of each code unit, held at the largest `u32`.
    pub closed spec fn counts(self) -> Seq<u32> {
        self.map.counts()
    }

    /// A map without occurrences.
    pub fn new() -> (freq: Self)
        ensures
            freq.counts() == no_counts(),
    {
        FrequencyMapUtf16 { map: FrequencyMap::new() }
    }

    /// Updates the frequency map based on the code units present in the
    /// provided string.
    pub fn push_str(&mut self, value: &WString)
        ensures
            final(self).counts() == counted_all(old(self).counts(), symbols_of(value@)),
    {
        self.map.push_iter(value.as_slice())
    }

    /// Updates the frequency map for the provided code unit.
    pub fn push(&mut self, value: WChar)
        ensures
            final(self).counts() == counted(old(self).counts(), value as int),
    {
        self.map.push(value)
    }
}

impl Default for FrequencyMapUtf16 {
    fn default() -> (freq: Self)
        ensures
            freq.counts() == no_counts(),
    {
        FrequencyMapUtf16::new()
    }
}

/// Huffman encoding state for strings of 16-bit code units.
pub struct HuffmanUtf16 {
    huffman: Huffman<WChar>,
}

impl HuffmanUtf16 {
    /// The Huffman tree of the encoder.
    pub closed spec fn tree(self) -> HuffmanTree {
        self.huffman.tree()
    }

    /// Creates a new Huffman encoder from the provided frequency map.
    pub fn new(freq: FrequencyMapUtf16) -> (huffman: Self)
        ensures
            huffman.tree() == huffman_tree(freq.counts()),
    {
        HuffmanUtf16 { huffman: Huffman::new(freq.map) }
    }

    /// Get a reference to the pairs for encoding.
    pub fn get_pairs(&self) -> (pairs: &[(i32, i32)])
        ensures
            pairs@ == pair_table(self.tree()),
            pairs@.len() < ALPHABET_SIZE,
    {
        self.huffman.get_pairs()
    }

    /// Writes the Huffman encoding bits representing the input text to the
    /// provided output buffer. A code unit without a code adds nothing.
    pub fn encode(&self, text: &WString, output: &mut BitAccumulator)
        requires
            old(output)@.len() + encoded(self.tree(), symbols_of(text@)).len() <= max_bits(),
        ensures
            final(output)@ == old(output)@ + encoded(self.tree(), symbols_of(text@)),
    {
        self.huffman.encode(text.as_slice(), output)
    }

    /// Writes the bits of the code unit 0, which ends a string.
    pub fn encode_null(&self, output: &mut BitAccumulator)
        requires
            old(output)@.len() + emitted(self.tree(), 0).len() <= max_bits(),
        ensures
            final(output)@ == old(output)@ + emitted(self.tree(), 0),
    {
        self.huffman.encode_null(output)
    }

    /// Decodes Huffman encoded text: the string that starts at bit
    /// `position` of `compressed_data`, cut at `max_length` code units.
    pub fn decode(
        compressed_data: &[u8],
        pairs: &[(i32, i32)],
        position: usize,
        max_length: usize,
    ) -> (r: Result<WString, DecodeError>)
        ensures
            match decoded(compressed_data@, pairs@, position as int, max_length as int) {
                Ok(symbols) => r matches Ok(text) && text@ == chars_of::<WChar>(symbols),
                Err(e) => r matches Err(f) && f == e,
            },
    {
        Huffman::<WChar>::decode::<WString>(compressed_data, pairs, position, max_length)
    }
}

} // verus!
