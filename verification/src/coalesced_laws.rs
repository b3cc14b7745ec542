use crate::bits::{max_bits, packed};
use crate::coalesced::{
    all_names, all_values, coalesced_bits, coalesced_bytes, coalesced_fits, coalesced_header,
    coalesced_index, coalesced_pairs, coalesced_tree, coalesced_well_formed, distinct, files_fit,
    files_names, hashes, index_of, key_entries, key_offset, key_record, key_records, key_table,
    keys_fit, layout_fits, longest, pair_block, place_by_hash, sorted_by_hash, string_table,
    string_table_size, texts_without_null, value_tagged, value_well_formed, written_texts,
    COALESCED_HEADER_SIZE,
};
use crate::coalesced_index::{
    index_stands, lemma_index_round_trip, lemma_word_bytes_at, names_known,
};
use crate::coalesced_parse::{
    block_at, keys_from, parsed_coalesced, parsed_coalesced_blocks, parsed_index, parsed_pair_block,
    parsed_string_table, u16_at, u32_at, IndexContext,
};
use crate::coalesced_tags::lemma_parsed_values_tagged;
use crate::coalesced_values::{lemma_values_decode, lemma_values_tree};
use crate::coalesced_write::{lemma_index_block_len, lemma_key_records_step};
use crate::crc32::crc32;
use crate::error::DecodeError;
use crate::flat::{lemma_flat_map_piece, lemma_six_parts};
use crate::keys::lemma_index_of;
use crate::pairs::lemma_pair_table_len;
use crate::shared::{CoalescedModel, FileModel, ME3_MAGIC};
use crate::wire::{
    lemma_signed_pairs_round_trip, lemma_u16_le_round_trip, lemma_word_bytes_len,
    lemma_word_pairs_round_trip, lemma_words_from_len, lemma_words_from_word_bytes,
    lemma_words_in_file, pair_words, signed_pair_bits, u16_le, u32_from_le, u32_le, word_bytes,
    word_pairs, words_from,
};
use vstd::prelude::*;

verus! {

/// Every name is among the names without repetitions.
pub proof fn lemma_distinct_contains(names: Seq<Seq<u8>>, name: Seq<u8>)
    requires
        names.contains(name),
    ensures
        distinct(names).contains(name),
    decreases names.len(),
{
    let i = choose|i: int| 0 <= i < names.len() && names[i] == name;
    let front = names.drop_last();
    let kept = distinct(front);
    if i < names.len() - 1 {
        assert(front[i] == name);
        assert(front.contains(name));
        lemma_distinct_contains(front, name);
        let k = choose|k: int| 0 <= k < kept.len() && kept[k] == name;
        if !kept.contains(names.last()) {
            assert(kept.push(names.last())[k] == name);
        }
    } else {
        if !kept.contains(names.last()) {
            assert(kept.push(names.last())[kept.len() as int] == name);
        }
    }
}

/// The place of a key lies in the list or at its end.
pub proof fn lemma_place_by_hash(sorted: Seq<u32>, hash: u32)
    ensures
        0 <= place_by_hash(sorted, hash) <= sorted.len(),
        forall|j: int| place_by_hash(sorted, hash) <= j < sorted.len() ==> #[trigger] sorted[j] > hash,
        place_by_hash(sorted, hash) > 0 ==> sorted[place_by_hash(sorted, hash) - 1] <= hash,
    decreases sorted.len(),
{
    if sorted.len() > 0 && sorted.last() > hash {
        let front = sorted.drop_last();
        lemma_place_by_hash(front, hash);
        assert forall|j: int| place_by_hash(sorted, hash) <= j < sorted.len() implies #[trigger] sorted[j]
            > hash by {
            if j < front.len() {
                assert(front[j] == sorted[j]);
            }
        }
        if place_by_hash(sorted, hash) > 0 {
            assert(front[place_by_hash(sorted, hash) - 1] == sorted[place_by_hash(sorted, hash) - 1]);
        }
    }
}

/// Sorting keeps every key and the number of keys, and the checksums of
/// the sorted keys rise.
#[verifier::rlimit(40)]
pub proof fn lemma_sorted_by_hash(keys: Seq<Seq<u8>>)
    ensures
        sorted_by_hash(keys).len() == keys.len(),
        forall|key: Seq<u8>| keys.contains(key) ==> #[trigger] sorted_by_hash(keys).contains(key),
        forall|key: Seq<u8>| #[trigger] sorted_by_hash(keys).contains(key) ==> keys.contains(key),
        forall|i: int, j: int|
            0 <= i <= j < keys.len() ==> crc32(#[trigger] sorted_by_hash(keys)[i]) <= crc32(
                #[trigger] sorted_by_hash(keys)[j],
            ),
    decreases keys.len(),
{
    if keys.len() > 0 {
        let front = keys.drop_last();
        let last = keys.last();
        let before = sorted_by_hash(front);
        let at = place_by_hash(hashes(before), crc32(last));
        let after = sorted_by_hash(keys);
        lemma_sorted_by_hash(front);
        lemma_place_by_hash(hashes(before), crc32(last));
        assert(after == before.insert(at, last));
        assert forall|key: Seq<u8>| keys.contains(key) implies #[trigger] after.contains(key) by {
            let i = choose|i: int| 0 <= i < keys.len() && keys[i] == key;
            if i < front.len() {
                assert(front[i] == key);
                assert(front.contains(key));
                assert(before.contains(key));
                let k = choose|k: int| 0 <= k < before.len() && before[k] == key;
                if k < at {
                    assert(after[k] == key);
                } else {
                    assert(after[k + 1] == key);
                }
            } else {
                assert(after[at] == key);
            }
        }
        assert forall|key: Seq<u8>| #[trigger] after.contains(key) implies keys.contains(key) by {
            let k = choose|k: int| 0 <= k < after.len() && after[k] == key;
            if k == at {
                assert(keys[keys.len() - 1] == key);
            } else {
                let k0 = if k < at {
                    k
                } else {
                    k - 1
                };
                assert(before[k0] == key);
                assert(before.contains(key));
                let i = choose|i: int| 0 <= i < front.len() && front[i] == key;
                assert(keys[i] == key);
            }
        }
        assert forall|i: int, j: int| 0 <= i <= j < keys.len() implies crc32(
            #[trigger] after[i],
        ) <= crc32(#[trigger] after[j]) by {
            let i0 = if i < at {
                i
            } else {
                i - 1
            };
            let j0 = if j < at {
                j
            } else {
                j - 1
            };
            if i != at && j != at {
                assert(after[i] == before[i0] && after[j] == before[j0]);
                assert(crc32(before[i0]) <= crc32(before[j0]));
            } else if i == at && j != at {
                assert(after[j] == before[j0]);
                assert(hashes(before)[j0] > crc32(last));
            } else if i != at && j == at {
                assert(after[i] == before[i0]);
                assert(hashes(before)[at - 1] <= crc32(last));
                assert(crc32(before[i0]) <= crc32(before[at - 1]));
            }
        }
    }
}

/// Every name of a document stands in its string table, at the index that
/// `index_of` gives.
pub proof fn lemma_key_table_contains(c: CoalescedModel, name: Seq<u8>)
    requires
        all_names(c).contains(name),
    ensures
        key_table(c).contains(name),
        0 <= index_of(key_table(c), name) < key_table(c).len(),
        key_table(c)[index_of(key_table(c), name)] == name,
{
    lemma_distinct_contains(all_names(c), name);
    lemma_sorted_by_hash(distinct(all_names(c)));
    lemma_index_of(key_table(c), name);
}

/// The words of the string table: its size, the number of keys, and the
/// entries.
pub open spec fn string_table_words(keys: Seq<Seq<u8>>) -> Seq<u32> {
    seq![string_table_size(keys) as u32, keys.len() as u32] + pair_words(key_entries(keys))
}

/// The string table has the size that it names, and the record of key `k`
/// stands at the offset of its entry.
#[verifier::rlimit(40)]
pub proof fn lemma_string_table_layout(keys: Seq<Seq<u8>>, k: int)
    requires
        0 <= k < keys.len(),
    ensures
        string_table(keys).len() == string_table_size(keys),
        string_table_words(keys).len() == 2 + 2 * keys.len(),
        8 + 8 * keys.len() <= 8 + key_offset(keys, k),
        8 + key_offset(keys, k) + 2 + keys[k].len() <= string_table(keys).len(),
        string_table(keys).subrange(8 + key_offset(keys, k), 8 + key_offset(keys, k) + 2)
            == u16_le(keys[k].len() as u16),
        string_table(keys).subrange(
            8 + key_offset(keys, k) + 2,
            8 + key_offset(keys, k) + 2 + keys[k].len(),
        ) == keys[k],
{
    let table = string_table(keys);
    let words = string_table_words(keys);
    let records = key_records(keys);
    let at = key_records(keys.take(k)).len() as int;
    let record = key_record(keys[k]);
    lemma_word_bytes_len(words);
    lemma_key_records_step(keys, k);
    lemma_flat_map_piece(keys, |key: Seq<u8>| key_record(key), k);
    assert(records.subrange(at, at + record.len()) == record);
    assert(table.subrange(8 + key_offset(keys, k), 8 + key_offset(keys, k) + 2)
        =~= records.subrange(at, at + record.len()).subrange(0, 2));
    assert(record.subrange(0, 2) =~= u16_le(keys[k].len() as u16));
    assert(table.subrange(8 + key_offset(keys, k) + 2, 8 + key_offset(keys, k) + 2 + keys[k].len())
        =~= records.subrange(at, at + record.len()).subrange(2, 2 + keys[k].len() as int));
    assert(record.subrange(2, 2 + keys[k].len() as int) =~= keys[k]);
}

/// The string table of no keys has eight bytes.
pub proof fn lemma_string_table_len(keys: Seq<Seq<u8>>)
    ensures
        string_table(keys).len() == string_table_size(keys),
        string_table_size(keys) >= 8,
{
    lemma_word_bytes_len(string_table_words(keys));
}

/// A reader finds the keys from `from` on in the string table.
#[verifier::rlimit(40)]
proof fn lemma_keys_from(keys: Seq<Seq<u8>>, from: int, cursor: int, acc: Seq<Seq<u8>>)
    requires
        keys_fit(keys),
        0 <= from <= keys.len(),
    ensures
        keys_from(string_table(keys), key_entries(keys), from, cursor, acc) == Ok::<
            Seq<Seq<u8>>,
            DecodeError,
        >(acc + keys.skip(from)),
    decreases keys.len() - from,
{
    let table = string_table(keys);
    if from >= keys.len() {
        assert(acc + keys.skip(from) =~= acc);
    } else {
        let key = keys[from];
        lemma_string_table_layout(keys, from);
        lemma_u16_le_round_trip(key.len() as u16);
        assert(key.len() <= u16::MAX);
        assert(key_entries(keys)[from] == (crc32(key), key_offset(keys, from) as u32));
        let target = 8 + key_offset(keys, from);
        assert(u16_at(table, target) == Ok::<u16, DecodeError>(key.len() as u16));
        assert(block_at(table, target + 2, key.len() as int) == Ok::<Seq<u8>, DecodeError>(key));
        lemma_keys_from(keys, from + 1, target + 2 + key.len(), acc.push(key));
        assert(acc.push(key) + keys.skip(from + 1) =~= acc + keys.skip(from));
    }
}

/// A reader finds the keys in the string table that was written for them.
/// In particular, the checksum that the table stores for a key is the
/// checksum of the key.
#[verifier::rlimit(40)]
pub proof fn lemma_string_table_round_trip(keys: Seq<Seq<u8>>)
    requires
        keys_fit(keys),
    ensures
        string_table(keys).len() == string_table_size(keys),
        parsed_string_table(string_table(keys), string_table_size(keys) as u32) == Ok::<
            Seq<Seq<u8>>,
            DecodeError,
        >(keys),
        forall|k: int|
            0 <= k < keys.len() ==> (#[trigger] word_pairs(
                string_table_words(keys).subrange(2, 2 + 2 * keys.len() as int),
            )[k]).0 == crc32(keys[k]),
{
    let table = string_table(keys);
    let words = string_table_words(keys);
    let records = key_records(keys);
    let entries = key_entries(keys);
    let n = keys.len() as int;
    lemma_string_table_len(keys);
    lemma_word_bytes_len(words);
    lemma_words_in_file(words, records, 0, 1, Seq::empty());
    lemma_words_in_file(words, records, 1, 2, Seq::empty());
    lemma_words_in_file(words, records, 2, 2 + 2 * n, Seq::empty());
    assert(Seq::<u32>::empty() + words.subrange(0, 1) =~= seq![string_table_size(keys) as u32]);
    assert(Seq::<u32>::empty() + words.subrange(1, 2) =~= seq![n as u32]);
    assert(Seq::<u32>::empty() + words.subrange(2, 2 + 2 * n) =~= pair_words(entries));
    assert(words.subrange(2, 2 + 2 * n) =~= pair_words(entries));
    lemma_word_pairs_round_trip(entries);
    lemma_keys_from(keys, 0, 8 + 8 * n, Seq::empty());
    assert(Seq::<Seq<u8>>::empty() + keys.skip(0) =~= keys);
}

/// A reader finds the pairs in the Huffman block that was written for
/// them.
#[verifier::rlimit(40)]
pub proof fn lemma_pair_block_round_trip(pairs: Seq<(i32, i32)>)
    requires
        pairs.len() <= u16::MAX,
    ensures
        pair_block(pairs).len() == 2 + 8 * pairs.len(),
        parsed_pair_block(pair_block(pairs)) == Ok::<Seq<(i32, i32)>, DecodeError>(pairs),
{
    let block = pair_block(pairs);
    let stored = pairs.map_values(|p: (i32, i32)| signed_pair_bits(p));
    let words = pair_words(stored);
    lemma_word_bytes_len(words);
    lemma_u16_le_round_trip(pairs.len() as u16);
    assert(block.subrange(0, 2) =~= u16_le(pairs.len() as u16));
    assert(block.subrange(2, 2 + 4 * words.len() as int) =~= word_bytes(words));
    lemma_words_from_word_bytes(block, 2, words, Seq::empty());
    assert(Seq::<u32>::empty() + words =~= words);
    lemma_word_pairs_round_trip(stored);
    lemma_signed_pairs_round_trip(pairs);
}

/// The seven words of the header behind the magic number.
pub open spec fn coalesced_fields(c: CoalescedModel) -> Seq<u32> {
    coalesced_header(c).subrange(1, 8)
}

/// What the index block of a document is read with.
pub open spec fn coalesced_context(c: CoalescedModel) -> IndexContext {
    IndexContext {
        block: coalesced_index(c),
        keys: key_table(c),
        pairs: coalesced_pairs(c),
        data: packed(coalesced_bits(c)),
        max_length: coalesced_fields(c)[2] as int,
    }
}

/// The sizes of the blocks of a document that can be written are the sizes
/// that its header names.
proof fn lemma_coalesced_sizes(c: CoalescedModel)
    requires
        coalesced_fits(c),
    ensures
        coalesced_fields(c).len() == 7,
        coalesced_fields(c)[0] == c.version,
        coalesced_fields(c)[2] == longest(written_texts(all_values(c))),
        coalesced_fields(c)[3] == string_table(key_table(c)).len(),
        coalesced_fields(c)[3] == string_table_size(key_table(c)),
        coalesced_fields(c)[4] == pair_block(coalesced_pairs(c)).len(),
        coalesced_fields(c)[5] == coalesced_index(c).len(),
        coalesced_fields(c)[6] == packed(coalesced_bits(c)).len(),
        word_bytes(coalesced_header(c)).len() == 32,
        keys_fit(key_table(c)),
        coalesced_pairs(c).len() <= u16::MAX,
        coalesced_bits(c).len() <= max_bits(),
        layout_fits(c.files),
        files_fit(coalesced_tree(c), c.files, 0),
{
    reveal(coalesced_fits);
    lemma_values_tree(all_values(c));
    lemma_pair_table_len(coalesced_tree(c));
    lemma_string_table_len(key_table(c));
    lemma_pair_block_round_trip(coalesced_pairs(c));
    lemma_index_block_len(coalesced_tree(c), key_table(c), c.files);
    lemma_word_bytes_len(coalesced_header(c));
}

/// A reader finds the header of a document in its file.
#[verifier::rlimit(40)]
proof fn lemma_coalesced_header(c: CoalescedModel)
    ensures
        words_from(coalesced_bytes(c), 0, 1, Seq::empty()) == Ok::<Seq<u32>, DecodeError>(
            seq![ME3_MAGIC],
        ),
        words_from(coalesced_bytes(c), 4, 7, Seq::empty()) == Ok::<Seq<u32>, DecodeError>(
            coalesced_fields(c),
        ),
{
    let header = coalesced_header(c);
    let rest = string_table(key_table(c)) + pair_block(coalesced_pairs(c)) + coalesced_index(c)
        + u32_le(coalesced_bits(c).len() as u32) + packed(coalesced_bits(c));
    lemma_six_parts(
        word_bytes(header),
        string_table(key_table(c)),
        pair_block(coalesced_pairs(c)),
        coalesced_index(c),
        u32_le(coalesced_bits(c).len() as u32),
        packed(coalesced_bits(c)),
    );
    lemma_words_in_file(header, rest, 0, 1, Seq::empty());
    lemma_words_in_file(header, rest, 1, 8, Seq::empty());
    assert(Seq::<u32>::empty() + header.subrange(0, 1) =~= seq![ME3_MAGIC]);
    assert(Seq::<u32>::empty() + header.subrange(1, 8) =~= coalesced_fields(c));
}

/// A reader finds the blocks of a document in its file.
#[verifier::rlimit(40)]
proof fn lemma_coalesced_blocks(c: CoalescedModel)
    requires
        coalesced_fits(c),
    ensures
        block_at(
            coalesced_bytes(c),
            COALESCED_HEADER_SIZE as int,
            coalesced_fields(c)[3] as int,
        ) == Ok::<Seq<u8>, DecodeError>(string_table(key_table(c))),
        block_at(
            coalesced_bytes(c),
            COALESCED_HEADER_SIZE + coalesced_fields(c)[3],
            coalesced_fields(c)[4] as int,
        ) == Ok::<Seq<u8>, DecodeError>(pair_block(coalesced_pairs(c))),
        block_at(
            coalesced_bytes(c),
            COALESCED_HEADER_SIZE + coalesced_fields(c)[3] + coalesced_fields(c)[4],
            coalesced_fields(c)[5] as int,
        ) == Ok::<Seq<u8>, DecodeError>(coalesced_index(c)),
        u32_at(
            coalesced_bytes(c),
            COALESCED_HEADER_SIZE + coalesced_fields(c)[3] + coalesced_fields(c)[4]
                + coalesced_fields(c)[5],
        ) is Ok,
        block_at(
            coalesced_bytes(c),
            COALESCED_HEADER_SIZE + coalesced_fields(c)[3] + coalesced_fields(c)[4]
                + coalesced_fields(c)[5] + 4,
            coalesced_fields(c)[6] as int,
        ) == Ok::<Seq<u8>, DecodeError>(packed(coalesced_bits(c))),
        coalesced_bytes(c).len() == COALESCED_HEADER_SIZE + coalesced_fields(c)[3]
            + coalesced_fields(c)[4] + coalesced_fields(c)[5] + 4 + coalesced_fields(c)[6],
{
    lemma_coalesced_sizes(c);
    lemma_six_parts(
        word_bytes(coalesced_header(c)),
        string_table(key_table(c)),
        pair_block(coalesced_pairs(c)),
        coalesced_index(c),
        u32_le(coalesced_bits(c).len() as u32),
        packed(coalesced_bits(c)),
    );
}

/// Every name of a document stands in its string table.
proof fn lemma_names_known(c: CoalescedModel)
    ensures
        names_known(key_table(c), files_names(c.files)),
{
    let names = files_names(c.files);
    assert forall|i: int| 0 <= i < names.len() implies key_table(c).contains(
        #[trigger] names[i],
    ) by {
        assert(all_names(c).contains(names[i]));
        lemma_key_table_contains(c, names[i]);
    }
}

/// A reader finds the files of a document in its index block.
#[verifier::rlimit(40)]
proof fn lemma_coalesced_index(c: CoalescedModel)
    requires
        coalesced_fits(c),
        coalesced_well_formed(c),
    ensures
        parsed_index(coalesced_context(c)) == Ok::<Seq<FileModel>, DecodeError>(c.files),
{
    let ctx = coalesced_context(c);
    let tree = coalesced_tree(c);
    lemma_coalesced_sizes(c);
    lemma_names_known(c);
    lemma_values_decode(all_values(c));
    lemma_index_block_len(tree, key_table(c), c.files);
    assert(index_stands(ctx, tree, c.files));
    lemma_index_round_trip(ctx, tree, c.files);
}

/// A Coalesced document that can be written, all of whose values are such
/// as a reader gives back, is read back from its file.
#[verifier::rlimit(40)]
pub proof fn lemma_coalesced_round_trip(c: CoalescedModel)
    requires
        coalesced_fits(c),
        coalesced_well_formed(c),
    ensures
        parsed_coalesced(coalesced_bytes(c)) == Ok::<CoalescedModel, DecodeError>(c),
{
    let bytes = coalesced_bytes(c);
    let fields = coalesced_fields(c);
    let keys = key_table(c);
    lemma_coalesced_sizes(c);
    lemma_coalesced_header(c);
    lemma_coalesced_blocks(c);
    lemma_string_table_round_trip(keys);
    lemma_pair_block_round_trip(coalesced_pairs(c));
    lemma_coalesced_index(c);
    let ctx = IndexContext {
        block: coalesced_index(c),
        keys,
        pairs: coalesced_pairs(c),
        data: packed(coalesced_bits(c)),
        max_length: fields[2] as int,
    };
    assert(ctx == coalesced_context(c));
    let read = CoalescedModel { version: fields[0], files: c.files };
    assert(read == c);
    assert(parsed_coalesced_blocks(bytes, fields, keys) == Ok::<CoalescedModel, DecodeError>(c));
}

/// The checksum that the string table of a document stores for key `k`,
/// in the four bytes at offset `8 + 8 * k`, is the checksum of the bytes of
/// the key.
pub proof fn lemma_stored_hash(c: CoalescedModel, k: int)
    requires
        0 <= k < key_table(c).len(),
    ensures
        8 + 8 * k + 4 <= string_table(key_table(c)).len(),
        string_table(key_table(c)).subrange(8 + 8 * k, 8 + 8 * k + 4) == u32_le(
            crc32(key_table(c)[k]),
        ),
{
    let keys = key_table(c);
    let words = string_table_words(keys);
    let table = string_table(keys);
    lemma_word_bytes_at(words, 2 + 2 * k);
    assert(words[2 + 2 * k] == pair_words(key_entries(keys))[2 * k]);
    assert(words[2 + 2 * k] == crc32(keys[k]));
    assert(table.subrange(8 + 8 * k, 8 + 8 * k + 4) =~= word_bytes(words).subrange(
        4 * (2 + 2 * k),
        4 * (2 + 2 * k) + 4,
    ));
}

/// Whether no key stands in a list twice.
pub open spec fn no_key_twice(keys: Seq<Seq<u8>>) -> bool {
    forall|i: int, j: int| 0 <= i < j < keys.len() ==> #[trigger] keys[i] != #[trigger] keys[j]
}

/// Among the names without repetitions no name stands twice, and each of
/// them is one of the names.
pub proof fn lemma_distinct(names: Seq<Seq<u8>>)
    ensures
        no_key_twice(distinct(names)),
        forall|key: Seq<u8>| #[trigger] distinct(names).contains(key) ==> names.contains(key),
    decreases names.len(),
{
    if names.len() > 0 {
        let front = names.drop_last();
        let kept = distinct(front);
        let last = names.last();
        lemma_distinct(front);
        assert forall|key: Seq<u8>| #[trigger] distinct(names).contains(key) implies names.contains(
            key,
        ) by {
            let k = choose|k: int| 0 <= k < distinct(names).len() && distinct(names)[k] == key;
            if k < kept.len() {
                assert(kept[k] == key);
                assert(kept.contains(key));
                let i = choose|i: int| 0 <= i < front.len() && front[i] == key;
                assert(names[i] == key);
            } else {
                assert(names[names.len() - 1] == key);
            }
        }
        if !kept.contains(last) {
            let after = kept.push(last);
            assert forall|i: int, j: int| 0 <= i < j < after.len() implies #[trigger] after[i]
                != #[trigger] after[j] by {
                if j < kept.len() {
                    assert(kept[i] != kept[j]);
                } else {
                    assert(kept[i] == after[i]);
                    assert(kept.contains(after[i]));
                }
            }
        }
    }
}

/// Sorting a list in which no key stands twice gives such a list.
proof fn lemma_sorted_no_key_twice(keys: Seq<Seq<u8>>)
    requires
        no_key_twice(keys),
    ensures
        no_key_twice(sorted_by_hash(keys)),
    decreases keys.len(),
{
    if keys.len() > 0 {
        let front = keys.drop_last();
        let last = keys.last();
        let before = sorted_by_hash(front);
        let at = place_by_hash(hashes(before), crc32(last));
        let after = sorted_by_hash(keys);
        assert forall|i: int, j: int| 0 <= i < j < front.len() implies #[trigger] front[i]
            != #[trigger] front[j] by {
            assert(keys[i] != keys[j]);
        }
        lemma_sorted_no_key_twice(front);
        lemma_sorted_by_hash(front);
        lemma_place_by_hash(hashes(before), crc32(last));
        assert(after == before.insert(at, last));
        if before.contains(last) {
            assert(front.contains(last));
            let i = choose|i: int| 0 <= i < front.len() && front[i] == last;
            assert(keys[i] != keys[keys.len() - 1]);
        }
        assert forall|i: int, j: int| 0 <= i < j < after.len() implies #[trigger] after[i]
            != #[trigger] after[j] by {
            let i0 = if i < at {
                i
            } else {
                i - 1
            };
            let j0 = if j < at {
                j
            } else {
                j - 1
            };
            if i != at && j != at {
                assert(after[i] == before[i0] && after[j] == before[j0]);
                assert(before[i0] != before[j0]);
            } else if i == at {
                assert(after[j] == before[j0]);
                assert(before.contains(before[j0]));
            } else {
                assert(after[i] == before[i0]);
                assert(before.contains(before[i0]));
            }
        }
    }
}

/// The string table of a document holds every name of the document once,
/// and nothing else, in the order of the checksums.
pub proof fn lemma_key_table_sorted(c: CoalescedModel)
    ensures
        forall|i: int, j: int|
            0 <= i <= j < key_table(c).len() ==> crc32(#[trigger] key_table(c)[i]) <= crc32(
                #[trigger] key_table(c)[j],
            ),
        no_key_twice(key_table(c)),
        forall|key: Seq<u8>| #[trigger] key_table(c).contains(key) <==> all_names(c).contains(key),
{
    let names = all_names(c);
    lemma_distinct(names);
    lemma_sorted_by_hash(distinct(names));
    lemma_sorted_no_key_twice(distinct(names));
    assert forall|key: Seq<u8>| #[trigger] key_table(c).contains(key) <==> names.contains(
        key,
    ) by {
        if names.contains(key) {
            lemma_distinct_contains(names, key);
        }
        if key_table(c).contains(key) {
            assert(distinct(names).contains(key));
        }
    }
}

/// The number of bytes that the header of a Coalesced file announces: the
/// header, the four blocks and the number of bits.
pub open spec fn announced_size(bytes: Seq<u8>) -> int {
    COALESCED_HEADER_SIZE + 4 + u32_from_le(bytes.subrange(16, 20)) + u32_from_le(
        bytes.subrange(20, 24),
    ) + u32_from_le(bytes.subrange(24, 28)) + u32_from_le(bytes.subrange(28, 32))
}

/// The seven words of the header of a file of 32 bytes or more.
proof fn lemma_header_fields(bytes: Seq<u8>)
    requires
        bytes.len() >= 32,
    ensures
        words_from(bytes, 4, 7, Seq::empty()) is Ok,
        words_from(bytes, 4, 7, Seq::empty())->Ok_0.len() == 7,
        words_from(bytes, 4, 7, Seq::empty())->Ok_0[3] == u32_from_le(bytes.subrange(16, 20)),
        words_from(bytes, 4, 7, Seq::empty())->Ok_0[4] == u32_from_le(bytes.subrange(20, 24)),
        words_from(bytes, 4, 7, Seq::empty())->Ok_0[5] == u32_from_le(bytes.subrange(24, 28)),
        words_from(bytes, 4, 7, Seq::empty())->Ok_0[6] == u32_from_le(bytes.subrange(28, 32)),
{
    reveal_with_fuel(words_from, 8);
}

/// A file that a reader accepts is no shorter than its header announces.
pub proof fn lemma_accepted_size(bytes: Seq<u8>)
    requires
        parsed_coalesced(bytes) is Ok,
    ensures
        bytes.len() >= 32,
        bytes.len() >= announced_size(bytes),
{
    lemma_words_from_len(bytes, 0, 1, Seq::empty());
    if bytes.len() >= 4 {
        lemma_words_from_len(bytes, 4, 7, Seq::empty());
    }
    if bytes.len() >= 32 {
        lemma_header_fields(bytes);
    }
}

/// A file cut short is refused: of a file that is as long as its header
/// announces, no proper prefix is accepted.
pub proof fn lemma_truncated_coalesced(bytes: Seq<u8>, k: int)
    requires
        0 <= k < bytes.len(),
        bytes.len() >= 32 ==> bytes.len() == announced_size(bytes),
    ensures
        parsed_coalesced(bytes.take(k)) is Err,
{
    let cut = bytes.take(k);
    if parsed_coalesced(cut) is Ok {
        lemma_accepted_size(cut);
        assert(cut.subrange(16, 20) =~= bytes.subrange(16, 20));
        assert(cut.subrange(20, 24) =~= bytes.subrange(20, 24));
        assert(cut.subrange(24, 28) =~= bytes.subrange(24, 28));
        assert(cut.subrange(28, 32) =~= bytes.subrange(28, 32));
    }
}

/// The file of a document is as long as its header announces, so that no
/// proper prefix of it is accepted.
pub proof fn lemma_truncated_document(c: CoalescedModel, k: int)
    requires
        coalesced_fits(c),
        0 <= k < coalesced_bytes(c).len(),
    ensures
        coalesced_bytes(c).len() == announced_size(coalesced_bytes(c)),
        parsed_coalesced(coalesced_bytes(c).take(k)) is Err,
{
    let bytes = coalesced_bytes(c);
    lemma_coalesced_blocks(c);
    lemma_coalesced_header(c);
    lemma_header_fields(bytes);
    lemma_truncated_coalesced(bytes, k);
}

/// Decoding, encoding and decoding again gives what decoding gave: the
/// document of a file that a reader accepts is read back from the file that
/// is written for it, if it can be written and none of its texts holds the
/// byte 0.
pub proof fn lemma_decode_encode_decode(bytes: Seq<u8>, c: CoalescedModel)
    requires
        parsed_coalesced(bytes) == Ok::<CoalescedModel, DecodeError>(c),
        coalesced_fits(c),
        texts_without_null(all_values(c)),
    ensures
        parsed_coalesced(coalesced_bytes(c)) == parsed_coalesced(bytes),
{
    let values = all_values(c);
    lemma_parsed_values_tagged(bytes);
    assert forall|l: int| 0 <= l < values.len() implies value_well_formed(
        #[trigger] values[l],
    ) by {
        assert(value_tagged(values[l]));
        match values[l].text {
            Some(text) => {
                assert forall|j: int| 0 <= j < text.len() implies #[trigger] text[j] != 0 by {
                    assert(values[l].text->0[j] != 0);
                }
            },
            None => {},
        }
    }
    lemma_coalesced_round_trip(c);
}

} // verus!
