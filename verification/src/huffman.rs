use core::marker::PhantomData;
use crate::bits::{bit_at, get_bit, lemma_packed_bits, max_bits, packed, BitAccumulator};
use crate::error::DecodeError;
use crate::pairs::{
    collect_pairs, encodes, leaf_slot, lemma_pair_table, lemma_pair_table_len, pair_table,
};
use crate::shared::{WChar, WString};
use crate::tree::{build_from_counts, generate_huffman_codes, huffman_tree, lemma_huffman_tree};
use std::collections::HashMap;
use vstd::prelude::*;

verus! {

broadcast use vstd::std_specs::hash::group_hash_axioms;

/// Number of symbols of the largest alphabet: the 16-bit code units.
pub const ALPHABET_SIZE: usize = 0x1_0000;

/// Trait implemented by types that can be used as an individual character
/// within the Huffman encoding. A character stands for one symbol, a number
/// below [`ALPHABET_SIZE`]; symbol 0 ends a string.
pub trait HuffmanChar: Copy + Sized {
    /// The symbol that the character stands for.
    spec fn symbol(self) -> int;

    /// The character that a symbol of a pair table is read as.
    spec fn of_symbol(value: int) -> Self;

    /// Character representing null for this type.
    fn null() -> (c: Self)
        ensures
            c.symbol() == 0,
    ;

    /// Converts the value into a Huffman symbol.
    fn as_symbol(self) -> (s: i32)
        ensures
            s == self.symbol(),
            0 <= s < ALPHABET_SIZE,
    ;

    /// Creates a char from a Huffman symbol.
    fn from_symbol(value: i32) -> (c: Self)
        ensures
            c == Self::of_symbol(value as int),
    ;

    /// A character is read back from its own symbol.
    proof fn lemma_symbol_round_trip(c: Self)
        ensures
            Self::of_symbol(c.symbol()) == c,
    ;
}

impl HuffmanChar for u8 {
    open spec fn symbol(self) -> int {
        self as int
    }

    open spec fn of_symbol(value: int) -> Self {
        value as u8
    }

    fn null() -> (c: Self) {
        0
    }

    fn as_symbol(self) -> (s: i32) {
        self as i32
    }

    fn from_symbol(value: i32) -> (c: Self) {
        value as u8
    }

    proof fn lemma_symbol_round_trip(c: Self) {
    }
}

impl HuffmanChar for WChar {
    open spec fn symbol(self) -> int {
        self as int
    }

    open spec fn of_symbol(value: int) -> Self {
        value as u16
    }

    fn null() -> (c: Self) {
        0
    }

    fn as_symbol(self) -> (s: i32) {
        self as i32
    }

    fn from_symbol(value: i32) -> (c: Self) {
        value as u16
    }

    proof fn lemma_symbol_round_trip(c: Self) {
    }
}

/// Trait implemented by types that can be decoded as strings by the Huffman
/// encoding.
pub trait HuffmanString: Sized {
    /// Character type this string uses.
    type Char: HuffmanChar;

    /// The characters of the string.
    spec fn chars(&self) -> Seq<Self::Char>;

    /// Creates a new string instance.
    fn new() -> (s: Self)
        ensures
            s.chars() == Seq::<Self::Char>::empty(),
    ;

    /// Appends a char to the string.
    fn append_char(&mut self, value: Self::Char)
        ensures
            final(self).chars() == old(self).chars().push(value),
    ;

    /// Gets the length of the string.
    fn len(&self) -> (n: usize)
        ensures
            n == self.chars().len(),
    ;
}

impl HuffmanString for Vec<u8> {
    type Char = u8;

    open spec fn chars(&self) -> Seq<u8> {
        self@
    }

    fn new() -> (s: Self) {
        Vec::new()
    }

    fn append_char(&mut self, value: u8) {
        self.push(value)
    }

    fn len(&self) -> (n: usize) {
        Vec::len(self)
    }
}

impl HuffmanString for WString {
    type Char = WChar;

    open spec fn chars(&self) -> Seq<WChar> {
        self@
    }

    fn new() -> (s: Self) {
        Vec::new()
    }

    fn append_char(&mut self, value: WChar) {
        self.push(value)
    }

    fn len(&self) -> (n: usize) {
        Vec::len(self)
    }
}

/// The symbols of a string of characters.
pub open spec fn symbols_of<C: HuffmanChar>(text: Seq<C>) -> Seq<int> {
    text.map_values(|c: C| c.symbol())
}

/// The characters that a string of symbols is read as.
pub open spec fn chars_of<C: HuffmanChar>(symbols: Seq<int>) -> Seq<C> {
    symbols.map_values(|s: int| C::of_symbol(s))
}

/// A string of characters is read back from its own symbols.
pub proof fn lemma_chars_of_symbols<C: HuffmanChar>(text: Seq<C>)
    ensures
        chars_of::<C>(symbols_of(text)) == text,
{
    assert forall|i: int| 0 <= i < text.len() implies chars_of::<C>(symbols_of(text))[i]
        == text[i] by {
        C::lemma_symbol_round_trip(text[i]);
    }
    assert(chars_of::<C>(symbols_of(text)) =~= text);
}

/// Represents a node/leaf within a Huffman tree.
#[derive(Debug)]
pub enum HuffmanTree {
    /// Node with a left and right path.
    Node(Box<HuffmanTree>, Box<HuffmanTree>),
    /// Leaf with a symbol and its frequency.
    Leaf(u16, u32),
}

/// The sum of two frequencies, held at the largest `u64`.
pub open spec fn frequency_sum(a: u64, b: u64) -> u64 {
    if a + b > u64::MAX {
        u64::MAX
    } else {
        (a + b) as u64
    }
}

impl HuffmanTree {
    /// The frequency of this node or leaf: for a leaf its own, for a node
    /// the sum of both halves.
    pub open spec fn spec_frequency(&self) -> u64
        decreases self,
    {
        match self {
            HuffmanTree::Node(left, right) => frequency_sum(
                left.spec_frequency(),
                right.spec_frequency(),
            ),
            HuffmanTree::Leaf(_, freq) => freq as u64,
        }
    }

    /// Number of nodes and leaves of the tree.
    pub open spec fn size(self) -> nat
        decreases self,
    {
        match self {
            HuffmanTree::Node(left, right) => 1 + left.size() + right.size(),
            HuffmanTree::Leaf(_, _) => 1,
        }
    }

    /// Whether the tree has a leaf for `symbol`.
    pub open spec fn has_leaf(self, symbol: int) -> bool
        decreases self,
    {
        match self {
            HuffmanTree::Node(left, right) => left.has_leaf(symbol) || right.has_leaf(symbol),
            HuffmanTree::Leaf(s, _) => s == symbol,
        }
    }

    /// The bit path from the root to the leftmost leaf for `symbol`: a
    /// `false` for each left edge, a `true` for each right edge.
    pub open spec fn code_of(self, symbol: int) -> Seq<bool>
        decreases self,
    {
        match self {
            HuffmanTree::Node(left, right) => if left.has_leaf(symbol) {
                seq![false] + left.code_of(symbol)
            } else {
                seq![true] + right.code_of(symbol)
            },
            HuffmanTree::Leaf(_, _) => Seq::empty(),
        }
    }

    /// Gets the frequency of this Huffman tree node or leaf.
    #[verifier::when_used_as_spec(spec_frequency)]
    pub fn frequency(&self) -> (f: u64)
        ensures
            f == self.spec_frequency(),
        decreases self,
    {
        match self {
            HuffmanTree::Node(left, right) => {
                let a = left.frequency();
                let b = right.frequency();
                a.saturating_add(b)
            },
            HuffmanTree::Leaf(_, freq) => *freq as u64,
        }
    }
}

/// One more occurrence, held at the largest `u32`.
pub open spec fn counted_once(count: u32) -> u32 {
    if count == u32::MAX {
        count
    } else {
        (count + 1) as u32
    }
}

/// The frequencies after one more occurrence of `symbol`.
pub open spec fn counted(counts: Seq<u32>, symbol: int) -> Seq<u32> {
    if 0 <= symbol < counts.len() {
        counts.update(symbol, counted_once(counts[symbol]))
    } else {
        counts
    }
}

/// The frequencies after the occurrences of `symbols`, one after the other.
pub open spec fn counted_all(counts: Seq<u32>, symbols: Seq<int>) -> Seq<u32>
    decreases symbols.len(),
{
    if symbols.len() == 0 {
        counts
    } else {
        counted(counted_all(counts, symbols.drop_last()), symbols.last())
    }
}

/// No occurrence of any symbol.
pub open spec fn no_counts() -> Seq<u32> {
    Seq::new(ALPHABET_SIZE as nat, |i: int| 0u32)
}

/// Counting keeps the number of frequencies.
pub proof fn lemma_counted_all_len(counts: Seq<u32>, symbols: Seq<int>)
    ensures
        counted_all(counts, symbols).len() == counts.len(),
    decreases symbols.len(),
{
    if symbols.len() > 0 {
        lemma_counted_all_len(counts, symbols.drop_last());
    }
}

/// Counting two strings one after the other counts their concatenation.
pub proof fn lemma_counted_all_concat(counts: Seq<u32>, first: Seq<int>, second: Seq<int>)
    ensures
        counted_all(counts, first + second) == counted_all(counted_all(counts, first), second),
    decreases second.len(),
{
    if second.len() == 0 {
        assert(first + second =~= first);
    } else {
        lemma_counted_all_concat(counts, first, second.drop_last());
        assert((first + second).drop_last() =~= first + second.drop_last());
        assert((first + second).last() == second.last());
    }
}

/// A symbol that occurs in a counted string has a frequency above zero.
pub proof fn lemma_counted_all_positive(counts: Seq<u32>, symbols: Seq<int>, i: int)
    requires
        0 <= i < symbols.len(),
        0 <= symbols[i] < counts.len(),
    ensures
        counted_all(counts, symbols)[symbols[i]] > 0,
    decreases symbols.len(),
{
    lemma_counted_all_len(counts, symbols.drop_last());
    if i < symbols.len() - 1 {
        lemma_counted_all_positive(counts, symbols.drop_last(), i);
    }
}

/// Map containing character frequencies to build a Huffman tree from.
pub struct FrequencyMap<C: HuffmanChar> {
    counts: Vec<u32>,
    marker: PhantomData<C>,
}

impl<C: HuffmanChar> FrequencyMap<C> {
    #[verifier::type_invariant]
    spec fn one_count_per_symbol(self) -> bool {
        self.counts@.len() == ALPHABET_SIZE
    }

    /// The frequency of each symbol, held at the largest `u32`.
    pub closed spec fn counts(self) -> Seq<u32> {
        self.counts@
    }

    /// A map without occurrences.
    pub fn new() -> (freq: Self)
        ensures
            freq.counts() == no_counts(),
    {
        let mut counts: Vec<u32> = Vec::with_capacity(ALPHABET_SIZE);
        counts.resize(ALPHABET_SIZE, 0);
        assert(counts@ =~= no_counts());
        FrequencyMap { counts, marker: PhantomData }
    }

    /// Updates the frequency map with the provided characters.
    pub fn push_iter(&mut self, items: &[C])
        ensures
            final(self).counts() == counted_all(old(self).counts(), symbols_of(items@)),
    {
        let mut i: usize = 0;
        while i < items.len()
            invariant
                i <= items.len(),
                self.counts() == counted_all(old(self).counts(), symbols_of(items@.take(i as int))),
            decreases items.len() - i,
        {
            proof {
                assert(symbols_of(items@.take(i + 1)).drop_last() =~= symbols_of(
                    items@.take(i as int),
                ));
            }
            self.push(items[i]);
            i += 1;
        }
        assert(items@.take(i as int) =~= items@);
    }

    /// Updates the frequency map for the provided character.
    pub fn push(&mut self, value: C)
        ensures
            final(self).counts() == counted(old(self).counts(), value.symbol()),
            final(self).counts().len() == ALPHABET_SIZE,
    {
        proof {
            use_type_invariant(&*self);
        }
        let symbol = value.as_symbol() as usize;
        let count = self.counts[symbol];
        self.counts[symbol] = count.saturating_add(1);
    }

    /// The Huffman tree of the frequencies.
    pub(crate) fn build_tree(&self) -> (tree: HuffmanTree)
        ensures
            tree == huffman_tree(self.counts()),
            self.counts().len() == ALPHABET_SIZE,
    {
        proof {
            use_type_invariant(self);
        }
        build_from_counts(&self.counts)
    }
}

impl<C: HuffmanChar> Default for FrequencyMap<C> {
    fn default() -> (freq: Self)
        ensures
            freq.counts() == no_counts(),
    {
        FrequencyMap::new()
    }
}

/// Number of bits of a data block that a decoder reads.
pub open spec fn total_bits(data: Seq<u8>) -> int {
    if 8 * data.len() > usize::MAX {
        usize::MAX as int
    } else {
        8 * data.len() as int
    }
}

/// The symbols that a decoder reads from bit `pos` on, standing at the pair
/// `node` with `out` already read: it follows one slot for each bit, reads a
/// symbol where the slot holds a leaf marker and starts again at the last
/// pair. It ends at symbol 0, at the end of the data, or with `max_length`
/// symbols; a slot that points outside the table is an error.
pub open spec fn decoded_from(
    data: Seq<u8>,
    pairs: Seq<(i32, i32)>,
    pos: int,
    node: int,
    out: Seq<int>,
    max_length: int,
) -> Result<Seq<int>, DecodeError>
    decreases total_bits(data) - pos,
{
    if pos < 0 || pos >= total_bits(data) || out.len() >= max_length {
        Ok(out)
    } else if !(0 <= node < pairs.len()) {
        Err(DecodeError::MalformedDecompressionNodes)
    } else {
        let next = if bit_at(data, pos) {
            pairs[node].1
        } else {
            pairs[node].0
        };
        if next < 0 {
            let symbol = -1 - next;
            if symbol == 0 {
                Ok(out)
            } else {
                decoded_from(data, pairs, pos + 1, pairs.len() - 1, out.push(symbol), max_length)
            }
        } else if next >= pairs.len() {
            Err(DecodeError::MalformedDecompressionNodes)
        } else {
            decoded_from(data, pairs, pos + 1, next as int, out, max_length)
        }
    }
}

/// The symbols of the string that starts at bit `position` of `data`.
pub open spec fn decoded(data: Seq<u8>, pairs: Seq<(i32, i32)>, position: int, max_length: int) -> Result<
    Seq<int>,
    DecodeError,
> {
    decoded_from(data, pairs, position, pairs.len() - 1, Seq::empty(), max_length)
}

/// The bits that stand for one symbol: its code, or nothing where the tree
/// has no leaf for it.
pub open spec fn emitted(t: HuffmanTree, symbol: int) -> Seq<bool> {
    if t.has_leaf(symbol) {
        t.code_of(symbol)
    } else {
        Seq::empty()
    }
}

/// The bits that stand for a string of symbols.
pub open spec fn encoded(t: HuffmanTree, symbols: Seq<int>) -> Seq<bool>
    decreases symbols.len(),
{
    if symbols.len() == 0 {
        Seq::empty()
    } else {
        emitted(t, symbols[0]) + encoded(t, symbols.drop_first())
    }
}

/// The bits that stand for a string of symbols and the symbol 0 that ends
/// it.
pub open spec fn terminated(t: HuffmanTree, symbols: Seq<int>) -> Seq<bool> {
    encoded(t, symbols) + emitted(t, 0)
}

/// One more symbol adds its bits at the end.
pub proof fn lemma_encoded_push(t: HuffmanTree, symbols: Seq<int>, last: int)
    ensures
        encoded(t, symbols.push(last)) == encoded(t, symbols) + emitted(t, last),
    decreases symbols.len(),
{
    if symbols.len() == 0 {
        assert(symbols.push(last).drop_first() =~= Seq::<int>::empty());
        assert(encoded(t, Seq::<int>::empty()) =~= Seq::<bool>::empty());
        assert(encoded(t, symbols.push(last)) =~= emitted(t, last));
    } else {
        lemma_encoded_push(t, symbols.drop_first(), last);
        assert(symbols.push(last).drop_first() =~= symbols.drop_first().push(last));
        assert(encoded(t, symbols.push(last)) =~= encoded(t, symbols) + emitted(t, last));
    }
}

/// A tree that is a node spends at least one bit on each symbol that it
/// has a leaf for.
pub proof fn lemma_encoded_len(t: HuffmanTree, symbols: Seq<int>)
    requires
        t is Node,
        forall|i: int| 0 <= i < symbols.len() ==> t.has_leaf(#[trigger] symbols[i]),
    ensures
        encoded(t, symbols).len() >= symbols.len(),
    decreases symbols.len(),
{
    if symbols.len() > 0 {
        let rest = symbols.drop_first();
        assert forall|i: int| 0 <= i < rest.len() implies t.has_leaf(#[trigger] rest[i]) by {
            assert(rest[i] == symbols[i + 1]);
        }
        lemma_encoded_len(t, rest);
        assert(t.has_leaf(symbols[0]));
        assert(t.code_of(symbols[0]).len() >= 1);
    }
}

/// The codes are prefix-free: the code of a symbol is not the beginning of
/// the code of another symbol, where the tree has a leaf for both.
pub proof fn lemma_codes_prefix_free(t: HuffmanTree, a: int, b: int)
    requires
        t.has_leaf(a),
        t.has_leaf(b),
        a != b,
    ensures
        !t.code_of(a).is_prefix_of(t.code_of(b)),
    decreases t,
{
    match t {
        HuffmanTree::Node(left, right) => {
            let code_a = t.code_of(a);
            let code_b = t.code_of(b);
            if code_a.is_prefix_of(code_b) {
                assert(code_a[0] == code_b[0]);
                let below = if left.has_leaf(a) {
                    *left
                } else {
                    *right
                };
                assert(code_a =~= seq![code_a[0]] + below.code_of(a));
                assert(code_b =~= seq![code_b[0]] + below.code_of(b));
                lemma_codes_prefix_free(below, a, b);
                assert(below.code_of(a) =~= code_a.subrange(1, code_a.len() as int));
                assert(below.code_of(b) =~= code_b.subrange(1, code_b.len() as int));
                assert(below.code_of(a) =~= below.code_of(b).subrange(
                    0,
                    below.code_of(a).len() as int,
                ));
            }
        },
        HuffmanTree::Leaf(_, _) => {},
    }
}

/// The bits `bits` stand in `data` from bit `pos` on.
pub open spec fn holds_bits(data: Seq<u8>, pos: int, bits: Seq<bool>) -> bool {
    &&& 0 <= pos
    &&& pos + bits.len() <= total_bits(data)
    &&& forall|k: int| 0 <= k < bits.len() ==> bit_at(data, pos + k) == #[trigger] bits[k]
}

/// A decoder that stands at the pair of a node and reads the code of one of
/// the node's leaves arrives at that leaf.
#[verifier::rlimit(40)]
pub proof fn lemma_decode_code(
    data: Seq<u8>,
    pairs: Seq<(i32, i32)>,
    pos: int,
    index: int,
    t: HuffmanTree,
    symbol: int,
    out: Seq<int>,
    max_length: int,
)
    requires
        encodes(pairs, index, t),
        t.has_leaf(symbol),
        holds_bits(data, pos, t.code_of(symbol)),
        out.len() < max_length,
    ensures
        t.code_of(symbol).len() >= 1,
        decoded_from(data, pairs, pos, index, out, max_length) == if symbol == 0 {
            Ok::<Seq<int>, DecodeError>(out)
        } else {
            decoded_from(
                data,
                pairs,
                pos + t.code_of(symbol).len(),
                pairs.len() - 1,
                out.push(symbol),
                max_length,
            )
        },
    decreases t,
{
    let code = t.code_of(symbol);
    match t {
        HuffmanTree::Node(left, right) => {
            assert(code.len() >= 1);
            assert(bit_at(data, pos + 0) == code[0]);
            let below = if left.has_leaf(symbol) {
                *left
            } else {
                *right
            };
            let next = if left.has_leaf(symbol) {
                pairs[index].0
            } else {
                pairs[index].1
            };
            assert(code =~= seq![code[0]] + below.code_of(symbol));
            assert(code[0] == !left.has_leaf(symbol));
            assert(bit_at(data, pos) == code[0]);
            assert(pos < total_bits(data));
            assert(next == if bit_at(data, pos) {
                pairs[index].1
            } else {
                pairs[index].0
            });
            assert(left.has_leaf(symbol) || right.has_leaf(symbol));
            assert(below.has_leaf(symbol));
            match below {
                HuffmanTree::Leaf(s, _) => {
                    assert(next == leaf_slot(s));
                    assert(s == symbol);
                    assert(-1 - next == symbol);
                    assert(below.code_of(symbol) =~= Seq::<bool>::empty());
                    assert(code.len() == 1);
                },
                HuffmanTree::Node(_, _) => {
                    assert(encodes(pairs, next as int, below));
                    assert forall|k: int| 0 <= k < below.code_of(symbol).len() implies bit_at(
                        data,
                        pos + 1 + k,
                    ) == #[trigger] below.code_of(symbol)[k] by {
                        assert(code[k + 1] == below.code_of(symbol)[k]);
                    }
                    lemma_decode_code(data, pairs, pos + 1, next as int, below, symbol, out, max_length);
                },
            }
        },
        HuffmanTree::Leaf(_, _) => {},
    }
}

/// A decoder that starts at the bits of a string and of the 0 that ends it
/// reads the string, whatever follows in the data.
#[verifier::rlimit(40)]
pub proof fn lemma_decode_string(
    data: Seq<u8>,
    pairs: Seq<(i32, i32)>,
    t: HuffmanTree,
    pos: int,
    symbols: Seq<int>,
    out: Seq<int>,
    max_length: int,
)
    requires
        encodes(pairs, pairs.len() - 1, t),
        t.has_leaf(0),
        forall|i: int| 0 <= i < symbols.len() ==> #[trigger] symbols[i] != 0 && t.has_leaf(symbols[i]),
        holds_bits(data, pos, terminated(t, symbols)),
        out.len() + symbols.len() <= max_length,
    ensures
        decoded_from(data, pairs, pos, pairs.len() - 1, out, max_length) == Ok::<
            Seq<int>,
            DecodeError,
        >(out + symbols),
    decreases symbols.len(),
{
    let bits = terminated(t, symbols);
    if symbols.len() == 0 {
        assert(out + symbols =~= out);
        if out.len() < max_length {
            assert(bits =~= t.code_of(0));
            lemma_decode_code(data, pairs, pos, pairs.len() - 1, t, 0, out, max_length);
        }
    } else {
        let first = symbols[0];
        let rest = symbols.drop_first();
        let code = t.code_of(first);
        assert(bits =~= code + terminated(t, rest));
        assert forall|k: int| 0 <= k < code.len() implies bit_at(data, pos + k) == #[trigger] code[k] by {
            assert(bits[k] == code[k]);
        }
        lemma_decode_code(data, pairs, pos, pairs.len() - 1, t, first, out, max_length);
        assert forall|k: int| 0 <= k < terminated(t, rest).len() implies bit_at(
            data,
            pos + code.len() + k,
        ) == #[trigger] terminated(t, rest)[k] by {
            assert(bits[code.len() + k] == terminated(t, rest)[k]);
        }
        assert forall|i: int| 0 <= i < rest.len() implies #[trigger] rest[i] != 0 && t.has_leaf(
            rest[i],
        ) by {
            assert(rest[i] == symbols[i + 1]);
        }
        lemma_decode_string(data, pairs, t, pos + code.len(), rest, out.push(first), max_length);
        assert(out.push(first) + rest =~= out + symbols);
    }
}

/// The bits of two strings of symbols, one after the other, stand for their
/// concatenation.
pub proof fn lemma_encoded_concat(t: HuffmanTree, first: Seq<int>, second: Seq<int>)
    ensures
        encoded(t, first + second) == encoded(t, first) + encoded(t, second),
    decreases second.len(),
{
    if second.len() == 0 {
        assert(first + second =~= first);
        assert(encoded(t, first) + encoded(t, second) =~= encoded(t, first));
    } else {
        let front = second.drop_last();
        lemma_encoded_concat(t, first, front);
        lemma_encoded_push(t, first + front, second.last());
        lemma_encoded_push(t, front, second.last());
        assert((first + front).push(second.last()) =~= first + second);
        assert(front.push(second.last()) =~= second);
        assert(encoded(t, first + second) =~= encoded(t, first) + encoded(t, second));
    }
}

/// A decoder with the pair table of a tree reads a string back from the
/// bits that stand for it and for the 0 that ends it, wherever they stand
/// in the data, if the tree has a leaf for 0 and for each symbol of the
/// string, none of which is 0. Where the tree is a single leaf the table is
/// empty, and the data must be too.
pub proof fn lemma_decode_in_stream(
    t: HuffmanTree,
    data: Seq<u8>,
    pos: int,
    symbols: Seq<int>,
    max_length: int,
)
    requires
        t.size() <= i32::MAX,
        t.has_leaf(0),
        forall|i: int| 0 <= i < symbols.len() ==> #[trigger] symbols[i] != 0 && t.has_leaf(symbols[i]),
        holds_bits(data, pos, terminated(t, symbols)),
        symbols.len() <= max_length,
        t is Leaf ==> total_bits(data) == 0,
    ensures
        decoded(data, pair_table(t), pos, max_length) == Ok::<Seq<int>, DecodeError>(symbols),
{
    let pairs = pair_table(t);
    if t is Node {
        lemma_pair_table(t);
        lemma_decode_string(data, pairs, t, pos, symbols, Seq::empty(), max_length);
        assert(Seq::<int>::empty() + symbols =~= symbols);
    } else {
        if symbols.len() > 0 {
            assert(symbols[0] != 0 && t.has_leaf(symbols[0]));
        }
        assert(symbols =~= Seq::<int>::empty());
    }
}

/// Bits that stand in a bit string that the data holds stand in the data.
pub proof fn lemma_holds_part(data: Seq<u8>, stream: Seq<bool>, start: int, bits: Seq<bool>)
    requires
        holds_bits(data, 0, stream),
        0 <= start,
        start + bits.len() <= stream.len(),
        stream.subrange(start, start + bits.len()) == bits,
    ensures
        holds_bits(data, start, bits),
{
    assert forall|k: int| 0 <= k < bits.len() implies bit_at(data, start + k) == #[trigger] bits[k] by {
        assert(stream.subrange(start, start + bits.len())[k] == stream[start + k]);
        assert(bit_at(data, 0 + (start + k)) == stream[start + k]);
    }
}

/// The packed form of a bit string holds the bit string from bit 0 on.
pub proof fn lemma_packed_holds_bits(bits: Seq<bool>)
    requires
        bits.len() <= max_bits(),
    ensures
        holds_bits(packed(bits), 0, bits),
        total_bits(packed(bits)) == 8 * packed(bits).len(),
{
    assert forall|k: int| 0 <= k < bits.len() implies bit_at(packed(bits), 0 + k) == #[trigger] bits[k] by {
        lemma_packed_bits(bits, k);
    }
}

/// Huffman round trip: a decoder with the pair table of the Huffman tree of
/// a table of frequencies reads every string of symbols that occur, none of
/// them 0, back from the packed bits that stand for the string and for the
/// 0 that ends it.
pub proof fn lemma_huffman_round_trip(counts: Seq<u32>, symbols: Seq<int>)
    requires
        counts.len() == ALPHABET_SIZE,
        forall|i: int|
            0 <= i < symbols.len() ==> 0 < #[trigger] symbols[i] < ALPHABET_SIZE
                && counts[symbols[i]] > 0,
        terminated(huffman_tree(counts), symbols).len() <= max_bits(),
    ensures
        decoded(
            packed(terminated(huffman_tree(counts), symbols)),
            pair_table(huffman_tree(counts)),
            0,
            symbols.len() as int + 1,
        ) == Ok::<Seq<int>, DecodeError>(symbols),
{
    let t = huffman_tree(counts);
    let bits = terminated(t, symbols);
    lemma_huffman_tree(counts);
    lemma_packed_holds_bits(bits);
    if t is Leaf {
        if symbols.len() > 0 {
            assert(symbols[0] != 0 && t.has_leaf(symbols[0]));
        }
        assert(symbols =~= Seq::<int>::empty());
        assert(encoded(t, symbols) =~= Seq::<bool>::empty());
        assert(bits =~= Seq::<bool>::empty());
    }
    lemma_decode_in_stream(t, packed(bits), 0, symbols, symbols.len() as int + 1);
}

/// Huffman encoding state.
pub struct Huffman<C: HuffmanChar> {
    /// Mapping from symbols to their Huffman encoded bits.
    mapping: HashMap<u16, Vec<bool>>,
    /// Flattened pairs from the Huffman tree.
    pairs: Vec<(i32, i32)>,
    /// The tree that the mapping and the pairs were made from.
    tree: Ghost<HuffmanTree>,
    marker: PhantomData<C>,
}

impl<C: HuffmanChar> Huffman<C> {
    #[verifier::type_invariant]
    spec fn made_from_tree(self) -> bool {
        &&& self.pairs@ == pair_table(self.tree@)
        &&& self.tree@.has_leaf(0)
        &&& self.tree@.size() < 2 * ALPHABET_SIZE
        &&& forall|s: u16| #[trigger] self.mapping@.contains_key(s) <==> self.tree@.has_leaf(s as int)
        &&& forall|s: u16|
            self.tree@.has_leaf(s as int) ==> (#[trigger] self.mapping@[s])@ == self.tree@.code_of(
                s as int,
            )
    }

    /// The Huffman tree of the encoder.
    pub closed spec fn tree(self) -> HuffmanTree {
        self.tree@
    }

    /// Creates a new Huffman encoder from the provided frequency map.
    pub fn new(freq: FrequencyMap<C>) -> (huffman: Self)
        ensures
            huffman.tree() == huffman_tree(freq.counts()),
    {
        let huffman_tree = freq.build_tree();
        proof {
            lemma_huffman_tree(freq.counts());
        }
        let mapping = generate_huffman_codes(&huffman_tree);
        let pairs = collect_pairs(&huffman_tree);
        Huffman { mapping, pairs, tree: Ghost(huffman_tree), marker: PhantomData }
    }

    /// Get a reference to the pairs for encoding.
    pub fn get_pairs(&self) -> (pairs: &[(i32, i32)])
        ensures
            pairs@ == pair_table(self.tree()),
            pairs@.len() < ALPHABET_SIZE,
    {
        proof {
            use_type_invariant(self);
            lemma_pair_table_len(self.tree());
        }
        self.pairs.as_slice()
    }

    /// The code of a character, if the tree has a leaf for it.
    fn code(&self, value: C) -> (code: Option<&Vec<bool>>)
        ensures
            match code {
                Some(bits) => self.tree().has_leaf(value.symbol()) && bits@ == emitted(
                    self.tree(),
                    value.symbol(),
                ),
                None => !self.tree().has_leaf(value.symbol()) && emitted(
                    self.tree(),
                    value.symbol(),
                ) == Seq::<bool>::empty(),
            },
    {
        proof {
            use_type_invariant(self);
        }
        let symbol = value.as_symbol() as u16;
        self.mapping.get(&symbol)
    }

    /// The number of bits that stand for `text`, if a `usize` holds it.
    pub fn encoded_len(&self, text: &[C]) -> (len: Option<usize>)
        ensures
            match len {
                Some(n) => n == encoded(self.tree(), symbols_of(text@)).len(),
                None => encoded(self.tree(), symbols_of(text@)).len() > usize::MAX,
            },
    {
        let mut total: usize = 0;
        let mut i: usize = 0;
        proof {
            assert(symbols_of(text@.take(0)) =~= Seq::<int>::empty());
        }
        while i < text.len()
            invariant
                i <= text.len(),
                total == encoded(self.tree(), symbols_of(text@.take(i as int))).len(),
            decreases text.len() - i,
        {
            proof {
                lemma_encoded_push(self.tree(), symbols_of(text@.take(i as int)), text@[i as int].symbol());
                assert(symbols_of(text@.take(i as int)).push(text@[i as int].symbol()) =~= symbols_of(
                    text@.take(i + 1),
                ));
            }
            let step = match self.code(text[i]) {
                Some(code) => code.len(),
                None => 0,
            };
            if step > usize::MAX - total {
                proof {
                    let done = symbols_of(text@.take(i + 1));
                    let rest = symbols_of(text@.skip(i + 1));
                    lemma_encoded_concat(self.tree(), done, rest);
                    assert(done + rest =~= symbols_of(text@));
                }
                return None;
            }
            total += step;
            i += 1;
        }
        assert(text@.take(i as int) =~= text@);
        Some(total)
    }

    /// Writes the Huffman encoding bits representing the input text to the
    /// provided output buffer. A character without a code adds nothing.
    pub fn encode(&self, text: &[C], output: &mut BitAccumulator)
        requires
            old(output)@.len() + encoded(self.tree(), symbols_of(text@)).len() <= max_bits(),
        ensures
            final(output)@ == old(output)@ + encoded(self.tree(), symbols_of(text@)),
    {
        let mut i: usize = 0;
        proof {
            assert(symbols_of(text@.take(0)) =~= Seq::<int>::empty());
            assert(output@ + encoded(self.tree(), Seq::<int>::empty()) =~= output@);
        }
        while i < text.len()
            invariant
                i <= text.len(),
                old(output)@.len() + encoded(self.tree(), symbols_of(text@)).len() <= max_bits(),
                output@ == old(output)@ + encoded(self.tree(), symbols_of(text@.take(i as int))),
            decreases text.len() - i,
        {
            proof {
                let done = symbols_of(text@.take(i as int));
                let next = symbols_of(text@.take(i + 1));
                let rest = symbols_of(text@.skip(i + 1));
                lemma_encoded_push(self.tree(), done, text@[i as int].symbol());
                assert(done.push(text@[i as int].symbol()) =~= next);
                lemma_encoded_concat(self.tree(), next, rest);
                assert(next + rest =~= symbols_of(text@));
            }
            match self.code(text[i]) {
                Some(code) => {
                    output.append(code.as_slice());
                },
                None => {},
            }
            i += 1;
            assert(output@ =~= old(output)@ + encoded(
                self.tree(),
                symbols_of(text@.take(i as int)),
            ));
        }
        assert(text@.take(i as int) =~= text@);
    }

    /// Writes the bits of the null character, which ends a string.
    pub fn encode_null(&self, output: &mut BitAccumulator)
        requires
            old(output)@.len() + emitted(self.tree(), 0).len() <= max_bits(),
        ensures
            final(output)@ == old(output)@ + emitted(self.tree(), 0),
    {
        match self.code(C::null()) {
            Some(code) => {
                output.append(code.as_slice());
            },
            None => {
                assert(output@ + emitted(self.tree(), 0) =~= output@);
            },
        }
    }

    /// Writes the bits of `text` and of the null character that ends it, if
    /// the output can hold them; tells whether it did.
    pub fn try_encode_terminated(&self, text: &[C], output: &mut BitAccumulator) -> (done: bool)
        ensures
            done == (old(output)@.len() + terminated(self.tree(), symbols_of(text@)).len()
                <= max_bits()),
            done ==> final(output)@ == old(output)@ + terminated(self.tree(), symbols_of(text@)),
            !done ==> final(output)@ == old(output)@,
    {
        let limit = usize::MAX / 8;
        let held = output.len();
        let end_len = match self.code(C::null()) {
            Some(code) => code.len(),
            None => 0,
        };
        match self.encoded_len(text) {
            Some(len) => {
                if held <= limit && len <= limit - held && end_len <= limit - held - len {
                    self.encode(text, output);
                    self.encode_null(output);
                    assert(output@ =~= old(output)@ + terminated(
                        self.tree(),
                        symbols_of(text@),
                    ));
                    true
                } else {
                    false
                }
            },
            None => false,
        }
    }

    /// Decodes Huffman encoded text: the string that starts at bit
    /// `position` of `compressed_data`, cut at `max_length` characters.
    pub fn decode<S: HuffmanString<Char = C>>(
        compressed_data: &[u8],
        pairs: &[(i32, i32)],
        position: usize,
        max_length: usize,
    ) -> (r: Result<S, DecodeError>)
        ensures
            match decoded(compressed_data@, pairs@, position as int, max_length as int) {
                Ok(symbols) => r matches Ok(text) && text.chars() == chars_of::<C>(symbols),
                Err(e) => r matches Err(f) && f == e,
            },
    {
        let mut sb = S::new();
        let count = pairs.len();
        let end: usize = if compressed_data.len() > usize::MAX / 8 {
            usize::MAX
        } else {
            compressed_data.len() * 8
        };
        if count == 0 {
            if position < end && 0 < max_length {
                return Err(DecodeError::MalformedDecompressionNodes);
            }
            assert(sb.chars() =~= chars_of::<C>(Seq::<int>::empty()));
            return Ok(sb);
        }
        let mut cur_node: usize = count - 1;
        let mut pos: usize = position;
        let ghost mut symbols: Seq<int> = Seq::empty();
        let ghost goal = decoded(compressed_data@, pairs@, position as int, max_length as int);
        proof {
            assert(sb.chars() =~= chars_of::<C>(symbols));
        }
        while pos < end && sb.len() < max_length
            invariant
                count == pairs@.len(),
                count > 0,
                cur_node < count,
                end == total_bits(compressed_data@),
                goal == decoded(compressed_data@, pairs@, position as int, max_length as int),
                symbols.len() == sb.chars().len(),
                sb.chars() == chars_of::<C>(symbols),
                decoded_from(
                    compressed_data@,
                    pairs@,
                    pos as int,
                    cur_node as int,
                    symbols,
                    max_length as int,
                ) == goal,
            decreases end - pos,
        {
            let bit = get_bit(compressed_data, pos);
            let next = pairs[cur_node];
            let next = if bit {
                next.1
            } else {
                next.0
            };
            if next < 0 {
                let ch = -1 - next;
                if ch == 0 {
                    return Ok(sb);
                }
                sb.append_char(C::from_symbol(ch));
                proof {
                    assert(chars_of::<C>(symbols.push(ch as int)) =~= chars_of::<C>(symbols).push(
                        C::of_symbol(ch as int),
                    ));
                    symbols = symbols.push(ch as int);
                }
                cur_node = count - 1;
            } else {
                if next as usize >= count {
                    return Err(DecodeError::MalformedDecompressionNodes);
                }
                cur_node = next as usize;
            }
            pos += 1;
        }
        Ok(sb)
    }
}

} // verus!
