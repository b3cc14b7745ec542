use crate::bits::{max_bits, packed};
use crate::coalesced::{
    longest, value_bits, value_symbols, value_well_formed, values_bits, values_symbols,
    values_well_formed, written_text, written_texts,
};
use crate::coalesced_write::lemma_values_bits_concat;
use crate::error::DecodeError;
use crate::flat::{
    lemma_flat_map_piece, lemma_flatten_empty_pieces, lemma_flatten_index, lemma_flatten_split,
};
use crate::huffman::{
    counted_all, decoded, emitted, encoded, lemma_counted_all_len, lemma_counted_all_positive,
    lemma_decode_in_stream, lemma_holds_part, lemma_packed_holds_bits, no_counts, symbols_of,
    terminated, HuffmanTree, ALPHABET_SIZE,
};
use crate::pairs::pair_table;
use crate::shared::ValueModel;
use crate::tree::{huffman_tree, lemma_huffman_tree};
use vstd::prelude::*;

verus! {

/// Value `l` of a list whose first value starts at bit `start` is one that a
/// reader gives back, and a decoder reads its text at the bit at which it
/// starts.
pub open spec fn value_decodes(
    tree: HuffmanTree,
    data: Seq<u8>,
    max_length: int,
    values: Seq<ValueModel>,
    start: int,
    l: int,
) -> bool {
    &&& value_well_formed(values[l])
    &&& match written_text(values[l]) {
        Some(text) => decoded(
            data,
            pair_table(tree),
            start + values_bits(tree, values.take(l)).len(),
            max_length,
        ) == Ok::<Seq<int>, DecodeError>(symbols_of::<u8>(text)),
        None => true,
    }
}

/// Every value of a list whose first value starts at bit `start` is one
/// that a reader gives back, and a decoder reads its text.
pub open spec fn values_decode(
    tree: HuffmanTree,
    data: Seq<u8>,
    max_length: int,
    values: Seq<ValueModel>,
    start: int,
) -> bool {
    forall|l: int|
        0 <= l < values.len() ==> #[trigger] value_decodes(tree, data, max_length, values, start, l)
}

/// What holds of a list of values holds of its two parts.
pub proof fn lemma_values_decode_split(
    tree: HuffmanTree,
    data: Seq<u8>,
    max_length: int,
    first: Seq<ValueModel>,
    second: Seq<ValueModel>,
    start: int,
)
    requires
        values_decode(tree, data, max_length, first + second, start),
    ensures
        values_decode(tree, data, max_length, first, start),
        values_decode(tree, data, max_length, second, start + values_bits(tree, first).len()),
{
    let whole = first + second;
    assert forall|l: int| 0 <= l < first.len() implies #[trigger] value_decodes(
        tree,
        data,
        max_length,
        first,
        start,
        l,
    ) by {
        assert(value_decodes(tree, data, max_length, whole, start, l));
        assert(whole.take(l) =~= first.take(l));
    }
    assert forall|l: int| 0 <= l < second.len() implies #[trigger] value_decodes(
        tree,
        data,
        max_length,
        second,
        start + values_bits(tree, first).len(),
        l,
    ) by {
        assert(value_decodes(tree, data, max_length, whole, start, first.len() + l));
        assert(whole.take(first.len() + l) =~= first + second.take(l));
        lemma_values_bits_concat(tree, first, second.take(l));
    }
}

/// What holds of the values of a list of items holds of the values of each
/// item.
pub proof fn lemma_values_decode_piece<T>(
    tree: HuffmanTree,
    data: Seq<u8>,
    max_length: int,
    items: Seq<T>,
    f: spec_fn(T) -> Seq<ValueModel>,
    start: int,
    r: int,
)
    requires
        values_decode(tree, data, max_length, items.map_values(f).flatten(), start),
        0 <= r < items.len(),
    ensures
        values_decode(
            tree,
            data,
            max_length,
            f(items[r]),
            start + values_bits(tree, items.take(r).map_values(f).flatten()).len(),
        ),
{
    let pieces = items.map_values(f);
    let front = pieces.take(r).flatten();
    let back = pieces.skip(r + 1).flatten();
    lemma_flatten_split(pieces, r);
    assert(pieces.take(r) =~= items.take(r).map_values(f));
    assert(pieces.flatten() == (front + pieces[r]) + back);
    lemma_values_decode_split(tree, data, max_length, front + pieces[r], back, start);
    lemma_values_decode_split(tree, data, max_length, front, pieces[r], start);
}

/// The longest of a list of texts is no shorter than any of them.
pub proof fn lemma_longest(texts: Seq<Seq<u8>>, i: int)
    requires
        0 <= i < texts.len(),
    ensures
        texts[i].len() <= longest(texts),
    decreases texts.len(),
{
    if i < texts.len() - 1 {
        lemma_longest(texts.drop_last(), i);
    }
}

/// Whether the tree has a leaf for every byte of every text that is
/// written.
#[verifier::opaque]
pub open spec fn tree_covers_values(tree: HuffmanTree, values: Seq<ValueModel>) -> bool {
    forall|i: int, j: int|
        0 <= i < values.len() && 0 <= j < values_text(values, i).len() ==> tree.has_leaf(
            #[trigger] values_text(values, i)[j] as int,
        )
}

/// The text of value `i` that is written; an empty text where none is.
pub open spec fn values_text(values: Seq<ValueModel>, i: int) -> Seq<u8> {
    match written_text(values[i]) {
        Some(text) => text,
        None => Seq::empty(),
    }
}

/// The Huffman tree of a list of values has a leaf for 0 and for every byte
/// of every text that is written.
#[verifier::rlimit(40)]
pub proof fn lemma_values_tree(values: Seq<ValueModel>)
    ensures
        huffman_tree(counted_all(no_counts(), values_symbols(values))).has_leaf(0),
        huffman_tree(counted_all(no_counts(), values_symbols(values))).size() < 2 * ALPHABET_SIZE,
        tree_covers_values(
            huffman_tree(counted_all(no_counts(), values_symbols(values))),
            values,
        ),
{
    let symbols = values_symbols(values);
    let counts = counted_all(no_counts(), symbols);
    let tree = huffman_tree(counts);
    lemma_counted_all_len(no_counts(), symbols);
    lemma_huffman_tree(counts);
    let pieces = values.map_values(|v: ValueModel| value_symbols(v));
    assert forall|i: int, j: int|
        0 <= i < values.len() && 0 <= j < values_text(values, i).len() implies tree.has_leaf(
        #[trigger] values_text(values, i)[j] as int,
    ) by {
        let text = values_text(values, i);
        assert(written_text(values[i]) == Some(text));
        assert(pieces[i] == symbols_of::<u8>(text).push(0));
        lemma_flatten_index(pieces, i, j);
        let k = pieces.take(i).flatten().len() + j;
        assert(pieces[i][j] == text[j] as int);
        lemma_counted_all_positive(no_counts(), symbols, k);
    }
    reveal(tree_covers_values);
}

/// Every symbol of a text that is written has a leaf in the tree and is not
/// 0.
proof fn lemma_value_symbols(tree: HuffmanTree, values: Seq<ValueModel>, i: int, text: Seq<u8>)
    requires
        tree_covers_values(tree, values),
        values_well_formed(values),
        0 <= i < values.len(),
        written_text(values[i]) == Some(text),
    ensures
        forall|k: int|
            0 <= k < symbols_of::<u8>(text).len() ==> #[trigger] symbols_of::<u8>(text)[k] != 0
                && tree.has_leaf(symbols_of::<u8>(text)[k]),
{
    reveal(tree_covers_values);
    let symbols = symbols_of::<u8>(text);
    assert(value_well_formed(values[i]));
    assert(values[i].text == Some(text));
    assert forall|k: int| 0 <= k < symbols.len() implies #[trigger] symbols[k] != 0
        && tree.has_leaf(symbols[k]) by {
        let held = values[i].text->0;
        assert(held == text);
        assert(held[k] != 0);
        assert(values_text(values, i)[k] == text[k]);
        assert(tree.has_leaf(values_text(values, i)[k] as int));
    }
}

/// With a tree that is a single leaf, the bit stream is empty.
proof fn lemma_leaf_values_stream_empty(tree: HuffmanTree, values: Seq<ValueModel>)
    requires
        tree is Leaf,
        tree.has_leaf(0),
        tree_covers_values(tree, values),
        values_well_formed(values),
    ensures
        values_bits(tree, values).len() == 0,
{
    let pieces = values.map_values(|v: ValueModel| value_bits(tree, v));
    assert forall|n: int| 0 <= n < pieces.len() implies (#[trigger] pieces[n]).len() == 0 by {
        match written_text(values[n]) {
            Some(text) => {
                lemma_value_symbols(tree, values, n, text);
                let symbols = symbols_of::<u8>(text);
                if symbols.len() > 0 {
                    assert(symbols[0] != 0 && tree.has_leaf(symbols[0]));
                }
                assert(symbols =~= Seq::<int>::empty());
                assert(encoded(tree, symbols) =~= Seq::<bool>::empty());
                assert(emitted(tree, 0) =~= Seq::<bool>::empty());
            },
            None => {},
        }
    }
    lemma_flatten_empty_pieces(pieces);
}

/// A decoder reads the text of value `i` of a list at the bit at which it
/// starts in the packed bit stream.
#[verifier::rlimit(40)]
proof fn lemma_decode_value(tree: HuffmanTree, values: Seq<ValueModel>, i: int, text: Seq<u8>)
    requires
        tree.has_leaf(0),
        tree.size() < 2 * ALPHABET_SIZE,
        tree_covers_values(tree, values),
        values_well_formed(values),
        values_bits(tree, values).len() <= max_bits(),
        0 <= i < values.len(),
        written_text(values[i]) == Some(text),
    ensures
        decoded(
            packed(values_bits(tree, values)),
            pair_table(tree),
            values_bits(tree, values.take(i)).len() as int,
            longest(written_texts(values)) as int,
        ) == Ok::<Seq<int>, DecodeError>(symbols_of::<u8>(text)),
{
    let stream = values_bits(tree, values);
    let data = packed(stream);
    let symbols = symbols_of::<u8>(text);
    let bits = terminated(tree, symbols);
    let start = values_bits(tree, values.take(i)).len() as int;
    lemma_flat_map_piece(values, |v: ValueModel| value_bits(tree, v), i);
    assert(value_bits(tree, values[i]) == bits);
    lemma_packed_holds_bits(stream);
    lemma_holds_part(data, stream, start, bits);
    lemma_value_symbols(tree, values, i, text);
    lemma_longest(written_texts(values), i);
    assert(written_texts(values)[i] == text);
    if tree is Leaf {
        lemma_leaf_values_stream_empty(tree, values);
    }
    lemma_decode_in_stream(tree, data, start, symbols, longest(written_texts(values)) as int);
}

/// Every value of a list of values that a reader gives back is read from
/// the packed bit stream of the list, with the pair table of the Huffman
/// tree of the list and the length of the longest text as limit.
#[verifier::rlimit(40)]
pub proof fn lemma_values_decode(values: Seq<ValueModel>)
    requires
        values_well_formed(values),
        values_bits(
            huffman_tree(counted_all(no_counts(), values_symbols(values))),
            values,
        ).len() <= max_bits(),
    ensures
        values_decode(
            huffman_tree(counted_all(no_counts(), values_symbols(values))),
            packed(values_bits(huffman_tree(counted_all(no_counts(), values_symbols(values))), values)),
            longest(written_texts(values)) as int,
            values,
            0,
        ),
{
    let tree = huffman_tree(counted_all(no_counts(), values_symbols(values)));
    let data = packed(values_bits(tree, values));
    let max_length = longest(written_texts(values)) as int;
    lemma_values_tree(values);
    assert forall|l: int| 0 <= l < values.len() implies #[trigger] value_decodes(
        tree,
        data,
        max_length,
        values,
        0,
        l,
    ) by {
        assert(value_well_formed(values[l]));
        match written_text(values[l]) {
            Some(text) => {
                lemma_decode_value(tree, values, l, text);
            },
            None => {},
        }
    }
}

} // verus!
