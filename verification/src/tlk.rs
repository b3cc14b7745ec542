use crate::bits::{max_bits, packed};
use crate::error::DecodeError;
use crate::flat::{
    lemma_flatten_empty_pieces, lemma_flatten_index, lemma_flatten_piece, lemma_flatten_split,
};
use crate::huffman::{
    chars_of, counted_all, decoded, emitted, encoded, holds_bits, lemma_chars_of_symbols,
    lemma_counted_all_len, lemma_counted_all_positive, lemma_decode_in_stream, lemma_encoded_len,
    lemma_holds_part, lemma_packed_holds_bits, no_counts, symbols_of, terminated, total_bits,
    HuffmanTree, ALPHABET_SIZE,
};
use crate::pairs::{lemma_pair_table_in_range, pair_table};
use crate::shared::{inverted, lemma_invert_involution, TlkModel, TlkStringModel, WChar, TLK_MAGIC};
use crate::tree::{huffman_tree, lemma_huffman_tree};
use crate::wire::{
    eof_error, lemma_middle_of_three, lemma_pair_words_subrange, lemma_signed_pairs_round_trip,
    lemma_word_bytes_len, lemma_word_pairs_round_trip, lemma_words_from_len, lemma_words_in_file,
    pair_words, signed_pair_bits, signed_pair_of_bits, u32_from_le, word_bytes, word_pairs,
    words_from,
};
use vstd::prelude::*;

verus! {

/// Number of bytes of the header of a TLK file.
pub const TLK_HEADER_SIZE: usize = 28;

/// The strings of a document in the order of the file: the male ones, then
/// the female ones.
pub open spec fn all_entries(t: TlkModel) -> Seq<TlkStringModel> {
    t.male + t.female
}

/// The symbols of a list of strings, each string ended by a 0.
pub open spec fn entries_symbols(entries: Seq<TlkStringModel>) -> Seq<int> {
    entries.map_values(|e: TlkStringModel| symbols_of::<WChar>(e.value).push(0)).flatten()
}

/// The Huffman tree of a document: that of the frequencies of the symbols
/// of its strings and of the 0 that ends each.
pub open spec fn tlk_tree(t: TlkModel) -> HuffmanTree {
    huffman_tree(counted_all(no_counts(), entries_symbols(all_entries(t))))
}

/// The bit stream of a list of strings: the bits of each string and of the
/// 0 that ends it, one string after the other.
pub open spec fn entries_bits(tree: HuffmanTree, entries: Seq<TlkStringModel>) -> Seq<bool> {
    entries.map_values(|e: TlkStringModel| terminated(tree, symbols_of::<WChar>(e.value))).flatten()
}

/// The bit at which string `i` of the list starts in the bit stream.
pub open spec fn bit_offset(tree: HuffmanTree, entries: Seq<TlkStringModel>, i: int) -> nat {
    entries_bits(tree, entries.take(i)).len()
}

/// The references of a list of strings: for each its id and the bit at
/// which it starts.
pub open spec fn entry_refs(tree: HuffmanTree, entries: Seq<TlkStringModel>) -> Seq<(u32, u32)> {
    Seq::new(entries.len(), |i: int| (entries[i].id, bit_offset(tree, entries, i) as u32))
}

/// The pair table of a document as it stands in the file: inverted, the
/// root's pair first.
pub open spec fn tlk_pairs(t: TlkModel) -> Seq<(i32, i32)> {
    inverted(pair_table(tlk_tree(t)))
}

/// The data block of a document: its bit stream, packed.
pub open spec fn tlk_data(t: TlkModel) -> Seq<u8> {
    packed(entries_bits(tlk_tree(t), all_entries(t)))
}

/// The words of a TLK file: the seven words of the header, the references
/// of the male and of the female strings, and the pair table.
pub open spec fn tlk_words(t: TlkModel) -> Seq<u32> {
    seq![
        TLK_MAGIC,
        t.version,
        t.min_version,
        t.male.len() as u32,
        t.female.len() as u32,
        tlk_pairs(t).len() as u32,
        tlk_data(t).len() as u32,
    ] + pair_words(entry_refs(tlk_tree(t), all_entries(t))) + pair_words(
        tlk_pairs(t).map_values(|p: (i32, i32)| signed_pair_bits(p)),
    )
}

/// The bytes of a TLK file: its words, then the data block.
pub open spec fn tlk_bytes(t: TlkModel) -> Seq<u8> {
    word_bytes(tlk_words(t)) + tlk_data(t)
}

/// Whether string `i` of the list can be written: the bit at which it
/// starts fits in 32 bits, and the bit stream with the string fits in an
/// accumulator.
pub open spec fn entry_fits(tree: HuffmanTree, entries: Seq<TlkStringModel>, i: int) -> bool {
    bit_offset(tree, entries, i) <= u32::MAX && bit_offset(tree, entries, i + 1) <= max_bits()
}

/// Whether the strings from `from` up to `to` of the list can be written.
pub open spec fn entries_fit(
    tree: HuffmanTree,
    entries: Seq<TlkStringModel>,
    from: int,
    to: int,
) -> bool {
    forall|i: int| from <= i < to ==> #[trigger] entry_fits(tree, entries, i)
}

/// Whether a document can be written: the numbers of strings, the bit at
/// which each string starts and the size of the data block fit in 32 bits,
/// the bit stream fits in an accumulator, and the file fits in memory.
#[verifier::opaque]
pub open spec fn tlk_fits(t: TlkModel) -> bool {
    &&& t.male.len() <= u32::MAX
    &&& t.female.len() <= u32::MAX
    &&& entries_fit(tlk_tree(t), all_entries(t), 0, all_entries(t).len() as int)
    &&& tlk_data(t).len() <= u32::MAX
    &&& tlk_bytes(t).len() <= usize::MAX
}

/// The symbols of one more string.
pub proof fn lemma_entries_symbols_push(entries: Seq<TlkStringModel>, entry: TlkStringModel)
    ensures
        entries_symbols(entries.push(entry)) == entries_symbols(entries) + symbols_of::<WChar>(
            entry.value,
        ).push(0),
{
    let f = |e: TlkStringModel| symbols_of::<WChar>(e.value).push(0);
    assert(entries.push(entry).map_values(f) =~= entries.map_values(f).push(f(entry)));
    entries.map_values(f).lemma_flatten_push(f(entry));
}

/// The bits of one more string.
pub proof fn lemma_entries_bits_push(
    tree: HuffmanTree,
    entries: Seq<TlkStringModel>,
    entry: TlkStringModel,
)
    ensures
        entries_bits(tree, entries.push(entry)) == entries_bits(tree, entries) + terminated(
            tree,
            symbols_of::<WChar>(entry.value),
        ),
{
    let f = |e: TlkStringModel| terminated(tree, symbols_of::<WChar>(e.value));
    assert(entries.push(entry).map_values(f) =~= entries.map_values(f).push(f(entry)));
    entries.map_values(f).lemma_flatten_push(f(entry));
}

/// The bit at which a string starts depends on the strings before it only.
pub proof fn lemma_bit_offset_take(tree: HuffmanTree, entries: Seq<TlkStringModel>, n: int, i: int)
    requires
        0 <= i <= n <= entries.len(),
    ensures
        bit_offset(tree, entries.take(n), i) == bit_offset(tree, entries, i),
{
    assert(entries.take(n).take(i) =~= entries.take(i));
}

/// The bit stream and the references of the first `at + 1` strings are
/// those of the first `at`, with the bits and the reference of string `at`
/// behind them.
pub proof fn lemma_entries_take_push(tree: HuffmanTree, entries: Seq<TlkStringModel>, at: int)
    requires
        0 <= at < entries.len(),
    ensures
        entries_bits(tree, entries.take(at + 1)) == entries_bits(tree, entries.take(at))
            + terminated(tree, symbols_of::<WChar>(entries[at].value)),
        entry_refs(tree, entries.take(at + 1)) == entry_refs(tree, entries.take(at)).push(
            (entries[at].id, bit_offset(tree, entries, at) as u32),
        ),
        bit_offset(tree, entries, at) == entries_bits(tree, entries.take(at)).len(),
        bit_offset(tree, entries, at + 1) == entries_bits(tree, entries.take(at)).len()
            + terminated(tree, symbols_of::<WChar>(entries[at].value)).len(),
{
    let done = entries.take(at);
    let next = entries.take(at + 1);
    assert(next =~= done.push(entries[at]));
    lemma_entries_bits_push(tree, done, entries[at]);
    let refs = entry_refs(tree, done).push((entries[at].id, bit_offset(tree, entries, at) as u32));
    assert forall|k: int| 0 <= k < next.len() implies #[trigger] entry_refs(tree, next)[k]
        == refs[k] by {
        lemma_bit_offset_take(tree, entries, at + 1, k);
        if k < at {
            lemma_bit_offset_take(tree, entries, at, k);
        }
    }
    assert(entry_refs(tree, next) =~= refs);
}

/// A string that cannot be written keeps the list from fitting.
pub proof fn lemma_entries_do_not_fit(
    tree: HuffmanTree,
    entries: Seq<TlkStringModel>,
    from: int,
    to: int,
    at: int,
)
    requires
        from <= at < to,
        !entry_fits(tree, entries, at),
    ensures
        !entries_fit(tree, entries, from, to),
{
}

/// One more string that can be written.
pub proof fn lemma_entries_fit_step(
    tree: HuffmanTree,
    entries: Seq<TlkStringModel>,
    from: int,
    at: int,
)
    requires
        entries_fit(tree, entries, from, at),
        entry_fits(tree, entries, at),
    ensures
        entries_fit(tree, entries, from, at + 1),
{
}

/// The strings of the first part of a list fit as they fit in the whole
/// list.
pub proof fn lemma_entries_fit_prefix(
    tree: HuffmanTree,
    first: Seq<TlkStringModel>,
    second: Seq<TlkStringModel>,
)
    ensures
        entries_fit(tree, first, 0, first.len() as int) == entries_fit(
            tree,
            first + second,
            0,
            first.len() as int,
        ),
        entries_fit(tree, first + second, 0, (first + second).len() as int) == (entries_fit(
            tree,
            first + second,
            0,
            first.len() as int,
        ) && entries_fit(
            tree,
            first + second,
            first.len() as int,
            first.len() + second.len() as int,
        )),
{
    let whole = first + second;
    assert(whole.take(first.len() as int) =~= first);
    assert forall|i: int| 0 <= i < first.len() implies entry_fits(tree, first, i) == entry_fits(
        tree,
        whole,
        i,
    ) by {
        lemma_bit_offset_take(tree, whole, first.len() as int, i);
        lemma_bit_offset_take(tree, whole, first.len() as int, i + 1);
    }
}

/// The number of bytes of a TLK file.
pub proof fn lemma_tlk_bytes_len(t: TlkModel)
    ensures
        tlk_bytes(t).len() == TLK_HEADER_SIZE + 8 * all_entries(t).len() + 8 * tlk_pairs(t).len()
            + tlk_data(t).len(),
        tlk_words(t).len() == 7 + 2 * all_entries(t).len() + 2 * tlk_pairs(t).len(),
{
    lemma_word_bytes_len(tlk_words(t));
}

/// The strings that the references from `from` on point at, behind the
/// strings `acc` that were read before; the error of the first string that
/// cannot be read.
pub open spec fn strings_from(
    data: Seq<u8>,
    pairs: Seq<(i32, i32)>,
    refs: Seq<(u32, u32)>,
    from: int,
    acc: Seq<TlkStringModel>,
) -> Result<Seq<TlkStringModel>, DecodeError>
    decreases refs.len() - from,
{
    if from < 0 || from >= refs.len() {
        Ok(acc)
    } else {
        match decoded(data, pairs, refs[from].1 as int, usize::MAX as int) {
            Ok(symbols) => strings_from(
                data,
                pairs,
                refs,
                from + 1,
                acc.push(TlkStringModel { id: refs[from].0, value: chars_of::<WChar>(symbols) }),
            ),
            Err(e) => Err(e),
        }
    }
}

/// What a TLK file holds behind its tables: the data block, and the strings
/// that the references point at in it.
pub open spec fn parsed_tlk_strings(
    bytes: Seq<u8>,
    fields: Seq<u32>,
    male_refs: Seq<(u32, u32)>,
    female_refs: Seq<(u32, u32)>,
    stored_pairs: Seq<(i32, i32)>,
) -> Result<TlkModel, DecodeError> {
    let pos = TLK_HEADER_SIZE + 8 * fields[2] + 8 * fields[3] + 8 * fields[4];
    if pos + fields[5] > bytes.len() {
        Err(eof_error(pos, fields[5] as int, bytes.len() as int))
    } else {
        let data = bytes.subrange(pos, pos + fields[5]);
        let pairs = inverted(stored_pairs);
        match strings_from(data, pairs, male_refs, 0, Seq::empty()) {
            Ok(male) => match strings_from(data, pairs, female_refs, 0, Seq::empty()) {
                Ok(female) => Ok(
                    TlkModel { version: fields[0], min_version: fields[1], male, female },
                ),
                Err(e) => Err(e),
            },
            Err(e) => Err(e),
        }
    }
}

/// What a TLK file holds behind its header, whose six words after the magic
/// number are `fields`.
pub open spec fn parsed_tlk_tables(bytes: Seq<u8>, fields: Seq<u32>) -> Result<
    TlkModel,
    DecodeError,
> {
    let male_at = TLK_HEADER_SIZE as int;
    let female_at = male_at + 8 * fields[2];
    let pairs_at = female_at + 8 * fields[3];
    match words_from(bytes, male_at, 2 * fields[2] as nat, Seq::empty()) {
        Ok(male_words) => match words_from(bytes, female_at, 2 * fields[3] as nat, Seq::empty()) {
            Ok(female_words) => match words_from(
                bytes,
                pairs_at,
                2 * fields[4] as nat,
                Seq::empty(),
            ) {
                Ok(pairs_words) => parsed_tlk_strings(
                    bytes,
                    fields,
                    word_pairs(male_words),
                    word_pairs(female_words),
                    word_pairs(pairs_words).map_values(|p: (u32, u32)| signed_pair_of_bits(p)),
                ),
                Err(e) => Err(e),
            },
            Err(e) => Err(e),
        },
        Err(e) => Err(e),
    }
}

/// The document that a TLK file holds, or the error that a reader meets
/// first.
pub open spec fn parsed_tlk(bytes: Seq<u8>) -> Result<TlkModel, DecodeError> {
    match words_from(bytes, 0, 1, Seq::empty()) {
        Ok(magic) => if magic[0] != TLK_MAGIC {
            Err(DecodeError::UnknownFileMagic)
        } else {
            match words_from(bytes, 4, 6, Seq::empty()) {
                Ok(fields) => parsed_tlk_tables(bytes, fields),
                Err(e) => Err(e),
            }
        },
        Err(e) => Err(e),
    }
}

/// No string of the list holds the code unit 0, which ends a string in the
/// bit stream.
pub open spec fn no_null_units(entries: Seq<TlkStringModel>) -> bool {
    forall|i: int, j: int|
        0 <= i < entries.len() && 0 <= j < entries[i].value.len() ==> #[trigger] entries[i].value[j]
            != 0
}

/// The Huffman tree of a list of strings has a leaf for 0 and for every
/// code unit of every string.
#[verifier::rlimit(40)]
proof fn lemma_tlk_tree_leaves(entries: Seq<TlkStringModel>)
    ensures
        huffman_tree(counted_all(no_counts(), entries_symbols(entries))).has_leaf(0),
        huffman_tree(counted_all(no_counts(), entries_symbols(entries))).size() < 2
            * ALPHABET_SIZE,
        forall|i: int, j: int|
            0 <= i < entries.len() && 0 <= j < entries[i].value.len() ==> huffman_tree(
                counted_all(no_counts(), entries_symbols(entries)),
            ).has_leaf(#[trigger] entries[i].value[j] as int),
{
    let symbols = entries_symbols(entries);
    let counts = counted_all(no_counts(), symbols);
    let tree = huffman_tree(counts);
    lemma_counted_all_len(no_counts(), symbols);
    lemma_huffman_tree(counts);
    let f = |e: TlkStringModel| symbols_of::<WChar>(e.value).push(0);
    let pieces = entries.map_values(f);
    assert forall|i: int, j: int|
        0 <= i < entries.len() && 0 <= j < entries[i].value.len() implies tree.has_leaf(
        #[trigger] entries[i].value[j] as int,
    ) by {
        lemma_flatten_index(pieces, i, j);
        let k = pieces.take(i).flatten().len() + j;
        assert(pieces[i][j] == entries[i].value[j] as int);
        lemma_counted_all_positive(no_counts(), symbols, k);
    }
}

/// The bits of string `i` stand in the bit stream at the bit at which the
/// string starts, and the next string starts behind them.
proof fn lemma_entry_in_stream(tree: HuffmanTree, entries: Seq<TlkStringModel>, i: int)
    requires
        0 <= i < entries.len(),
    ensures
        bit_offset(tree, entries, i + 1) == bit_offset(tree, entries, i) + terminated(
            tree,
            symbols_of::<WChar>(entries[i].value),
        ).len(),
        bit_offset(tree, entries, i + 1) <= entries_bits(tree, entries).len(),
        entries_bits(tree, entries).subrange(
            bit_offset(tree, entries, i) as int,
            bit_offset(tree, entries, i + 1) as int,
        ) == terminated(tree, symbols_of::<WChar>(entries[i].value)),
{
    let g = |e: TlkStringModel| terminated(tree, symbols_of::<WChar>(e.value));
    let pieces = entries.map_values(g);
    assert(pieces.take(i) =~= entries.take(i).map_values(g));
    assert(pieces.take(i + 1) =~= entries.take(i + 1).map_values(g));
    lemma_flatten_piece(pieces, i);
    lemma_flatten_split(pieces, i);
}

/// Every symbol of string `i` has a leaf in the tree and is not 0.
proof fn lemma_entry_symbols(tree: HuffmanTree, entries: Seq<TlkStringModel>, i: int)
    requires
        forall|i: int, j: int|
            0 <= i < entries.len() && 0 <= j < entries[i].value.len() ==> tree.has_leaf(
                #[trigger] entries[i].value[j] as int,
            ),
        no_null_units(entries),
        0 <= i < entries.len(),
    ensures
        forall|k: int|
            0 <= k < symbols_of::<WChar>(entries[i].value).len() ==> #[trigger] symbols_of::<WChar>(
                entries[i].value,
            )[k] != 0 && tree.has_leaf(symbols_of::<WChar>(entries[i].value)[k]),
{
    let symbols = symbols_of::<WChar>(entries[i].value);
    assert forall|k: int| 0 <= k < symbols.len() implies #[trigger] symbols[k] != 0
        && tree.has_leaf(symbols[k]) by {
        assert(entries[i].value[k] != 0);
        assert(tree.has_leaf(entries[i].value[k] as int));
    }
}

/// The bits of string `i` stand in the packed bit stream at the bit at
/// which the string starts.
#[verifier::rlimit(40)]
proof fn lemma_entry_holds_bits(tree: HuffmanTree, entries: Seq<TlkStringModel>, i: int)
    requires
        entries_bits(tree, entries).len() <= max_bits(),
        0 <= i < entries.len(),
    ensures
        holds_bits(
            packed(entries_bits(tree, entries)),
            bit_offset(tree, entries, i) as int,
            terminated(tree, symbols_of::<WChar>(entries[i].value)),
        ),
{
    let stream = entries_bits(tree, entries);
    let bits = terminated(tree, symbols_of::<WChar>(entries[i].value));
    lemma_entry_in_stream(tree, entries, i);
    lemma_packed_holds_bits(stream);
    lemma_holds_part(packed(stream), stream, bit_offset(tree, entries, i) as int, bits);
}

/// With a tree that is a single leaf, the bit stream is empty.
proof fn lemma_leaf_stream_empty(tree: HuffmanTree, entries: Seq<TlkStringModel>)
    requires
        tree is Leaf,
        tree.has_leaf(0),
        forall|i: int, j: int|
            0 <= i < entries.len() && 0 <= j < entries[i].value.len() ==> tree.has_leaf(
                #[trigger] entries[i].value[j] as int,
            ),
        no_null_units(entries),
    ensures
        entries_bits(tree, entries).len() == 0,
{
    let g = |e: TlkStringModel| terminated(tree, symbols_of::<WChar>(e.value));
    let pieces = entries.map_values(g);
    assert forall|n: int| 0 <= n < pieces.len() implies (#[trigger] pieces[n]).len() == 0 by {
        let text = symbols_of::<WChar>(entries[n].value);
        if text.len() > 0 {
            assert(entries[n].value[0] != 0);
            assert(tree.has_leaf(entries[n].value[0] as int));
        }
        assert(text =~= Seq::<int>::empty());
        assert(encoded(tree, text) =~= Seq::<bool>::empty());
        assert(emitted(tree, 0) =~= Seq::<bool>::empty());
    }
    lemma_flatten_empty_pieces(pieces);
}

/// Whether the tree has a leaf for every code unit of every string.
#[verifier::opaque]
pub open spec fn tree_covers(tree: HuffmanTree, entries: Seq<TlkStringModel>) -> bool {
    forall|i: int, j: int|
        0 <= i < entries.len() && 0 <= j < entries[i].value.len() ==> tree.has_leaf(
            #[trigger] entries[i].value[j] as int,
        )
}

/// A string is no longer than a `usize` holds, and with a tree that is a
/// single leaf the data block is empty.
#[verifier::rlimit(40)]
proof fn lemma_entry_bounds(tree: HuffmanTree, entries: Seq<TlkStringModel>, i: int)
    requires
        tree.has_leaf(0),
        tree_covers(tree, entries),
        no_null_units(entries),
        entries_bits(tree, entries).len() <= max_bits(),
        0 <= i < entries.len(),
    ensures
        entries[i].value.len() <= usize::MAX,
        tree is Leaf ==> total_bits(packed(entries_bits(tree, entries))) == 0,
{
    reveal(tree_covers);
    let symbols = symbols_of::<WChar>(entries[i].value);
    lemma_entry_in_stream(tree, entries, i);
    lemma_entry_symbols(tree, entries, i);
    lemma_packed_holds_bits(entries_bits(tree, entries));
    if tree is Leaf {
        lemma_leaf_stream_empty(tree, entries);
        if symbols.len() > 0 {
            assert(symbols[0] != 0 && tree.has_leaf(symbols[0]));
        }
    } else {
        assert forall|k: int| 0 <= k < symbols.len() implies tree.has_leaf(#[trigger] symbols[k]) by {
            assert(symbols[k] != 0 && tree.has_leaf(symbols[k]));
        }
        lemma_encoded_len(tree, symbols);
    }
}

/// A decoder reads string `i` of a list at the bit at which it starts in
/// the packed bit stream.
#[verifier::rlimit(40)]
proof fn lemma_decode_entry(tree: HuffmanTree, entries: Seq<TlkStringModel>, i: int)
    requires
        tree.has_leaf(0),
        tree.size() < 2 * ALPHABET_SIZE,
        tree_covers(tree, entries),
        no_null_units(entries),
        entries_bits(tree, entries).len() <= max_bits(),
        0 <= i < entries.len(),
    ensures
        decoded(
            packed(entries_bits(tree, entries)),
            pair_table(tree),
            bit_offset(tree, entries, i) as int,
            usize::MAX as int,
        ) == Ok::<Seq<int>, DecodeError>(symbols_of::<WChar>(entries[i].value)),
{
    lemma_entry_bounds(tree, entries, i);
    lemma_entry_holds_bits(tree, entries, i);
    assert(forall|k: int|
        0 <= k < symbols_of::<WChar>(entries[i].value).len() ==> #[trigger] symbols_of::<WChar>(
            entries[i].value,
        )[k] != 0 && tree.has_leaf(symbols_of::<WChar>(entries[i].value)[k])) by {
        reveal(tree_covers);
        lemma_entry_symbols(tree, entries, i);
    }
    lemma_decode_in_stream(
        tree,
        packed(entries_bits(tree, entries)),
        bit_offset(tree, entries, i) as int,
        symbols_of::<WChar>(entries[i].value),
        usize::MAX as int,
    );
}

/// The strings that a reader decodes with the references of the strings
/// from `from` up to `to` of a list, each of which a decoder reads at the
/// bit at which it starts, are those strings.
proof fn lemma_strings_from(
    tree: HuffmanTree,
    entries: Seq<TlkStringModel>,
    data: Seq<u8>,
    table: Seq<(i32, i32)>,
    from: int,
    to: int,
    k: int,
    acc: Seq<TlkStringModel>,
)
    requires
        0 <= from <= to <= entries.len(),
        0 <= k <= to - from,
        forall|i: int| from <= i < to ==> entry_decodes(tree, entries, data, table, i),
    ensures
        strings_from(data, table, entry_refs(tree, entries).subrange(from, to), k, acc) == Ok::<
            Seq<TlkStringModel>,
            DecodeError,
        >(acc + entries.subrange(from + k, to)),
    decreases to - from - k,
{
    let refs = entry_refs(tree, entries).subrange(from, to);
    if k >= to - from {
        assert(acc + entries.subrange(from + k, to) =~= acc);
    } else {
        let entry = entries[from + k];
        assert(entry_decodes(tree, entries, data, table, from + k));
        assert(refs[k] == (entry.id, bit_offset(tree, entries, from + k) as u32));
        lemma_chars_of_symbols::<WChar>(entry.value);
        let read = TlkStringModel {
            id: refs[k].0,
            value: chars_of::<WChar>(symbols_of::<WChar>(entry.value)),
        };
        assert(read == entry);
        lemma_strings_from(tree, entries, data, table, from, to, k + 1, acc.push(entry));
        assert(acc.push(entry) + entries.subrange(from + k + 1, to) =~= acc + entries.subrange(
            from + k,
            to,
        ));
    }
}

/// The bit at which string `i` starts fits in 32 bits, and a decoder reads
/// the string there.
pub open spec fn entry_decodes(
    tree: HuffmanTree,
    entries: Seq<TlkStringModel>,
    data: Seq<u8>,
    table: Seq<(i32, i32)>,
    i: int,
) -> bool {
    &&& bit_offset(tree, entries, i) <= u32::MAX
    &&& decoded(data, table, bit_offset(tree, entries, i) as int, usize::MAX as int) == Ok::<
        Seq<int>,
        DecodeError,
    >(symbols_of::<WChar>(entries[i].value))
}

/// The six words of the header behind the magic number.
pub open spec fn tlk_fields(t: TlkModel) -> Seq<u32> {
    seq![
        t.version,
        t.min_version,
        t.male.len() as u32,
        t.female.len() as u32,
        tlk_pairs(t).len() as u32,
        tlk_data(t).len() as u32,
    ]
}

/// The pair table of a document has fewer pairs than twice the number of
/// symbols, and inverting it twice gives it back.
proof fn lemma_tlk_pairs(t: TlkModel)
    ensures
        tlk_pairs(t).len() < 2 * ALPHABET_SIZE,
        inverted(tlk_pairs(t)) == pair_table(tlk_tree(t)),
        tlk_tree(t).has_leaf(0),
        tlk_tree(t).size() < 2 * ALPHABET_SIZE,
{
    lemma_tlk_tree_leaves(all_entries(t));
    lemma_pair_table_in_range(tlk_tree(t));
    lemma_invert_involution(pair_table(tlk_tree(t)));
}

/// A reader finds the header of a document in its file.
#[verifier::rlimit(40)]
proof fn lemma_tlk_header(t: TlkModel)
    requires
        tlk_fits(t),
    ensures
        words_from(tlk_bytes(t), 0, 1, Seq::empty()) == Ok::<Seq<u32>, DecodeError>(
            seq![TLK_MAGIC],
        ),
        words_from(tlk_bytes(t), 4, 6, Seq::empty()) == Ok::<Seq<u32>, DecodeError>(tlk_fields(t)),
        tlk_fields(t)[2] == t.male.len(),
        tlk_fields(t)[3] == t.female.len(),
        tlk_fields(t)[4] == tlk_pairs(t).len(),
        tlk_fields(t)[5] == tlk_data(t).len(),
{
    let words = tlk_words(t);
    reveal(tlk_fits);
    lemma_tlk_pairs(t);
    lemma_tlk_bytes_len(t);
    lemma_words_in_file(words, tlk_data(t), 0, 1, Seq::empty());
    assert(Seq::<u32>::empty() + words.subrange(0, 1) =~= seq![TLK_MAGIC]);
    lemma_words_in_file(words, tlk_data(t), 1, 7, Seq::empty());
    assert(Seq::<u32>::empty() + words.subrange(1, 7) =~= tlk_fields(t));
}

/// A reader finds the references and the pair table of a document in its
/// file.
#[verifier::rlimit(40)]
proof fn lemma_tlk_tables(t: TlkModel)
    requires
        tlk_fits(t),
    ensures
        words_from(tlk_bytes(t), TLK_HEADER_SIZE as int, 2 * t.male.len(), Seq::empty()) == Ok::<
            Seq<u32>,
            DecodeError,
        >(pair_words(entry_refs(tlk_tree(t), all_entries(t)).subrange(0, t.male.len() as int))),
        words_from(
            tlk_bytes(t),
            TLK_HEADER_SIZE + 8 * t.male.len(),
            2 * t.female.len(),
            Seq::empty(),
        ) == Ok::<Seq<u32>, DecodeError>(
            pair_words(
                entry_refs(tlk_tree(t), all_entries(t)).subrange(
                    t.male.len() as int,
                    all_entries(t).len() as int,
                ),
            ),
        ),
        words_from(
            tlk_bytes(t),
            TLK_HEADER_SIZE + 8 * t.male.len() + 8 * t.female.len(),
            2 * tlk_pairs(t).len(),
            Seq::empty(),
        ) == Ok::<Seq<u32>, DecodeError>(
            pair_words(tlk_pairs(t).map_values(|p: (i32, i32)| signed_pair_bits(p))),
        ),
{
    let words = tlk_words(t);
    let data = tlk_data(t);
    let refs = entry_refs(tlk_tree(t), all_entries(t));
    let m = t.male.len() as int;
    let n = all_entries(t).len() as int;
    let p = tlk_pairs(t).len() as int;
    let header = seq![
        TLK_MAGIC,
        t.version,
        t.min_version,
        t.male.len() as u32,
        t.female.len() as u32,
        tlk_pairs(t).len() as u32,
        tlk_data(t).len() as u32,
    ];
    let ref_words = pair_words(refs);
    let table_words = pair_words(tlk_pairs(t).map_values(|p: (i32, i32)| signed_pair_bits(p)));
    reveal(tlk_fits);
    lemma_tlk_bytes_len(t);
    assert(words == header + ref_words + table_words);
    lemma_pair_words_subrange(refs, 0, m);
    lemma_pair_words_subrange(refs, m, n);
    lemma_middle_of_three(header, ref_words, table_words, 0, 2 * m);
    lemma_middle_of_three(header, ref_words, table_words, 2 * m, 2 * n);
    assert(words.subrange(7 + 2 * n, 7 + 2 * n + 2 * p) =~= table_words);
    lemma_words_in_file(words, data, 7, 7 + 2 * m, Seq::empty());
    lemma_words_in_file(words, data, 7 + 2 * m, 7 + 2 * n, Seq::empty());
    lemma_words_in_file(words, data, 7 + 2 * n, 7 + 2 * n + 2 * p, Seq::empty());
    assert(Seq::<u32>::empty() + words.subrange(7, 7 + 2 * m) =~= words.subrange(7, 7 + 2 * m));
    assert(Seq::<u32>::empty() + words.subrange(7 + 2 * m, 7 + 2 * n) =~= words.subrange(
        7 + 2 * m,
        7 + 2 * n,
    ));
    assert(Seq::<u32>::empty() + words.subrange(7 + 2 * n, 7 + 2 * n + 2 * p) =~= table_words);
}

/// A reader decodes every string of a document in the data block of its
/// file.
#[verifier::rlimit(40)]
proof fn lemma_tlk_decodes(t: TlkModel)
    requires
        tlk_fits(t),
        no_null_units(all_entries(t)),
    ensures
        forall|i: int|
            0 <= i < all_entries(t).len() ==> entry_decodes(
                tlk_tree(t),
                all_entries(t),
                tlk_data(t),
                pair_table(tlk_tree(t)),
                i,
            ),
{
    let entries = all_entries(t);
    let tree = tlk_tree(t);
    let stream = entries_bits(tree, entries);
    reveal(tlk_fits);
    lemma_tlk_tree_leaves(entries);
    assert(tree_covers(tree, entries)) by {
        reveal(tree_covers);
    }
    if entries.len() > 0 {
        let last = entries.len() - 1;
        assert(entry_fits(tree, entries, last));
        assert(entries.take(last + 1) =~= entries);
    } else {
        assert(entries.map_values(
            |e: TlkStringModel| terminated(tree, symbols_of::<WChar>(e.value)),
        ) =~= Seq::<Seq<bool>>::empty());
    }
    assert(stream.len() <= max_bits());
    assert forall|i: int| 0 <= i < entries.len() implies entry_decodes(
        tree,
        entries,
        tlk_data(t),
        pair_table(tree),
        i,
    ) by {
        assert(entry_fits(tree, entries, i));
        lemma_decode_entry(tree, entries, i);
    }
}

/// A reader finds the strings of a document behind the tables of its file.
#[verifier::rlimit(40)]
proof fn lemma_tlk_strings(t: TlkModel)
    requires
        tlk_fits(t),
        no_null_units(all_entries(t)),
    ensures
        parsed_tlk_strings(
            tlk_bytes(t),
            tlk_fields(t),
            entry_refs(tlk_tree(t), all_entries(t)).subrange(0, t.male.len() as int),
            entry_refs(tlk_tree(t), all_entries(t)).subrange(
                t.male.len() as int,
                all_entries(t).len() as int,
            ),
            tlk_pairs(t),
        ) == Ok::<TlkModel, DecodeError>(t),
{
    let entries = all_entries(t);
    let tree = tlk_tree(t);
    let table = pair_table(tree);
    let data = tlk_data(t);
    let bytes = tlk_bytes(t);
    let m = t.male.len() as int;
    let n = entries.len() as int;
    lemma_tlk_header(t);
    lemma_tlk_pairs(t);
    lemma_tlk_bytes_len(t);
    lemma_word_bytes_len(tlk_words(t));
    lemma_tlk_decodes(t);
    let pos = TLK_HEADER_SIZE + 8 * tlk_fields(t)[2] + 8 * tlk_fields(t)[3] + 8 * tlk_fields(t)[4];
    assert(pos == word_bytes(tlk_words(t)).len());
    assert(bytes.subrange(pos, pos + data.len()) =~= data);
    lemma_strings_from(tree, entries, data, table, 0, m, 0, Seq::empty());
    lemma_strings_from(tree, entries, data, table, m, n, 0, Seq::empty());
    assert(Seq::<TlkStringModel>::empty() + entries.subrange(0, m) =~= t.male);
    assert(Seq::<TlkStringModel>::empty() + entries.subrange(m, n) =~= t.female);
}

/// A TLK document that can be written, none of whose strings holds the code
/// unit 0, is read back from its file.
#[verifier::rlimit(40)]
pub proof fn lemma_tlk_round_trip(t: TlkModel)
    requires
        tlk_fits(t),
        no_null_units(all_entries(t)),
    ensures
        parsed_tlk(tlk_bytes(t)) == Ok::<TlkModel, DecodeError>(t),
{
    let refs = entry_refs(tlk_tree(t), all_entries(t));
    let male_refs = refs.subrange(0, t.male.len() as int);
    let female_refs = refs.subrange(t.male.len() as int, all_entries(t).len() as int);
    let stored_bits = tlk_pairs(t).map_values(|p: (i32, i32)| signed_pair_bits(p));
    lemma_tlk_header(t);
    lemma_tlk_tables(t);
    lemma_tlk_strings(t);
    lemma_word_pairs_round_trip(male_refs);
    lemma_word_pairs_round_trip(female_refs);
    lemma_word_pairs_round_trip(stored_bits);
    lemma_signed_pairs_round_trip(tlk_pairs(t));
    assert(parsed_tlk_tables(tlk_bytes(t), tlk_fields(t)) == Ok::<TlkModel, DecodeError>(t));
}

/// The number of bytes that the header of a TLK file announces: the
/// header, the references, the pair table and the data block.
pub open spec fn announced_tlk_size(bytes: Seq<u8>) -> int {
    TLK_HEADER_SIZE + 8 * u32_from_le(bytes.subrange(12, 16)) + 8 * u32_from_le(
        bytes.subrange(16, 20),
    ) + 8 * u32_from_le(bytes.subrange(20, 24)) + u32_from_le(bytes.subrange(24, 28))
}

/// The six words of the header of a file of 28 bytes or more.
proof fn lemma_tlk_header_fields(bytes: Seq<u8>)
    requires
        bytes.len() >= 28,
    ensures
        words_from(bytes, 4, 6, Seq::empty()) is Ok,
        words_from(bytes, 4, 6, Seq::empty())->Ok_0.len() == 6,
        words_from(bytes, 4, 6, Seq::empty())->Ok_0[2] == u32_from_le(bytes.subrange(12, 16)),
        words_from(bytes, 4, 6, Seq::empty())->Ok_0[3] == u32_from_le(bytes.subrange(16, 20)),
        words_from(bytes, 4, 6, Seq::empty())->Ok_0[4] == u32_from_le(bytes.subrange(20, 24)),
        words_from(bytes, 4, 6, Seq::empty())->Ok_0[5] == u32_from_le(bytes.subrange(24, 28)),
{
    reveal_with_fuel(words_from, 7);
}

/// A TLK file that a reader accepts is no shorter than its header
/// announces.
pub proof fn lemma_accepted_tlk_size(bytes: Seq<u8>)
    requires
        parsed_tlk(bytes) is Ok,
    ensures
        bytes.len() >= 28,
        bytes.len() >= announced_tlk_size(bytes),
{
    lemma_words_from_len(bytes, 0, 1, Seq::empty());
    if bytes.len() >= 4 {
        lemma_words_from_len(bytes, 4, 6, Seq::empty());
    }
    if bytes.len() >= 28 {
        lemma_tlk_header_fields(bytes);
    }
}

/// A TLK file cut short is refused: of a file that is as long as its
/// header announces, no proper prefix is accepted.
pub proof fn lemma_truncated_tlk(bytes: Seq<u8>, k: int)
    requires
        0 <= k < bytes.len(),
        bytes.len() >= 28 ==> bytes.len() == announced_tlk_size(bytes),
    ensures
        parsed_tlk(bytes.take(k)) is Err,
{
    let cut = bytes.take(k);
    if parsed_tlk(cut) is Ok {
        lemma_accepted_tlk_size(cut);
        assert(cut.subrange(12, 16) =~= bytes.subrange(12, 16));
        assert(cut.subrange(16, 20) =~= bytes.subrange(16, 20));
        assert(cut.subrange(20, 24) =~= bytes.subrange(20, 24));
        assert(cut.subrange(24, 28) =~= bytes.subrange(24, 28));
    }
}

} // verus!
