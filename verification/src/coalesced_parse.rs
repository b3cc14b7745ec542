use crate::coalesced::{COALESCED_HEADER_SIZE, OFFSET_LIMIT};
use crate::crc32::crc32;
use crate::error::DecodeError;
use crate::huffman::{chars_of, decoded};
use crate::shared::{
    CoalescedModel, FileModel, PropertyModel, SectionModel, ValueModel, ValueType, ME3_MAGIC,
};
use crate::wire::{eof_error, signed_pair_of_bits, u16_from_le, u32_from_le, word_pairs, words_from};
use vstd::prelude::*;

verus! {

/// The `u16` at `pos` of a block, or the error of the read.
pub open spec fn u16_at(block: Seq<u8>, pos: int) -> Result<u16, DecodeError> {
    if pos + 2 > block.len() {
        Err(eof_error(pos, 2, block.len() as int))
    } else {
        Ok(u16_from_le(block.subrange(pos, pos + 2)))
    }
}

/// The `u32` at `pos` of a block, or the error of the read.
pub open spec fn u32_at(block: Seq<u8>, pos: int) -> Result<u32, DecodeError> {
    if pos + 4 > block.len() {
        Err(eof_error(pos, 4, block.len() as int))
    } else {
        Ok(u32_from_le(block.subrange(pos, pos + 4)))
    }
}

/// The `size` bytes at `pos`, or the error of the read.
pub open spec fn block_at(bytes: Seq<u8>, pos: int, size: int) -> Result<Seq<u8>, DecodeError> {
    if pos + size > bytes.len() {
        Err(eof_error(pos, size, bytes.len() as int))
    } else {
        Ok(bytes.subrange(pos, pos + size))
    }
}

/// The keys that the entries from `from` on point at in a string table,
/// behind the keys `acc` that were read before, for a reader whose cursor
/// stands at `cursor`; the error of the first key that cannot be read or
/// whose checksum differs from the stored one.
pub open spec fn keys_from(
    block: Seq<u8>,
    entries: Seq<(u32, u32)>,
    from: int,
    cursor: int,
    acc: Seq<Seq<u8>>,
) -> Result<Seq<Seq<u8>>, DecodeError>
    decreases entries.len() - from,
{
    if from < 0 || from >= entries.len() {
        Ok(acc)
    } else {
        let hash = entries[from].0;
        let target = 8 + entries[from].1;
        if target >= block.len() {
            Err(eof_error(cursor, target, block.len() as int))
        } else {
            match u16_at(block, target) {
                Ok(length) => match block_at(block, target + 2, length as int) {
                    Ok(text) => if crc32(text) != hash {
                        Err(DecodeError::StringTableHashMismatch)
                    } else {
                        keys_from(block, entries, from + 1, target + 2 + length, acc.push(text))
                    },
                    Err(e) => Err(e),
                },
                Err(e) => Err(e),
            }
        }
    }
}

/// The keys of a string table block whose size the header gives as
/// `expected`.
pub open spec fn parsed_string_table(block: Seq<u8>, expected: u32) -> Result<
    Seq<Seq<u8>>,
    DecodeError,
> {
    match words_from(block, 0, 1, Seq::empty()) {
        Ok(size) => if size[0] != expected {
            Err(DecodeError::StringTableSizeMismatch)
        } else {
            match words_from(block, 4, 1, Seq::empty()) {
                Ok(count) => match words_from(block, 8, 2 * count[0] as nat, Seq::empty()) {
                    Ok(words) => keys_from(
                        block,
                        word_pairs(words),
                        0,
                        8 + 8 * count[0],
                        Seq::empty(),
                    ),
                    Err(e) => Err(e),
                },
                Err(e) => Err(e),
            }
        },
        Err(e) => Err(e),
    }
}

/// The pairs of a Huffman block.
pub open spec fn parsed_pair_block(block: Seq<u8>) -> Result<Seq<(i32, i32)>, DecodeError> {
    match u16_at(block, 0) {
        Ok(count) => match words_from(block, 2, 2 * count as nat, Seq::empty()) {
            Ok(words) => Ok(word_pairs(words).map_values(|p: (u32, u32)| signed_pair_of_bits(p))),
            Err(e) => Err(e),
        },
        Err(e) => Err(e),
    }
}

/// What the index block is read with.
pub struct IndexContext {
    /// The index block.
    pub block: Seq<u8>,
    /// The string table.
    pub keys: Seq<Seq<u8>>,
    /// The pair table.
    pub pairs: Seq<(i32, i32)>,
    /// The data block.
    pub data: Seq<u8>,
    /// The largest number of bytes of a value.
    pub max_length: int,
}

/// The `remaining` entries of a table of names that stand at `pos`, each
/// with the name that its index names in the string table, behind the
/// entries `acc` that were read before.
pub open spec fn name_entries_from(
    block: Seq<u8>,
    keys: Seq<Seq<u8>>,
    pos: int,
    remaining: nat,
    acc: Seq<(Seq<u8>, u32)>,
) -> Result<Seq<(Seq<u8>, u32)>, DecodeError>
    decreases remaining,
{
    if remaining == 0 {
        Ok(acc)
    } else {
        match u16_at(block, pos) {
            Ok(name_index) => if name_index >= keys.len() {
                Err(DecodeError::InvalidNameOffset)
            } else {
                match u32_at(block, pos + 2) {
                    Ok(offset) => name_entries_from(
                        block,
                        keys,
                        pos + 6,
                        (remaining - 1) as nat,
                        acc.push((keys[name_index as int], offset)),
                    ),
                    Err(e) => Err(e),
                }
            },
            Err(e) => Err(e),
        }
    }
}

/// The value that a word of the index stands for: the tag from its three
/// highest bits, and for every tag but `RemoveProperty` the text that
/// starts at the bit that its other bits name.
pub open spec fn value_of_word(ctx: IndexContext, word: u32) -> Result<ValueModel, DecodeError> {
    match ValueType::of_code(word as int / OFFSET_LIMIT as int) {
        Some(ty) => if ty == ValueType::RemoveProperty {
            Ok(ValueModel { ty, text: None })
        } else {
            match decoded(ctx.data, ctx.pairs, word as int % OFFSET_LIMIT as int, ctx.max_length) {
                Ok(symbols) => Ok(ValueModel { ty, text: Some(chars_of::<u8>(symbols)) }),
                Err(e) => Err(e),
            }
        },
        None => Err(DecodeError::UnknownValueType),
    }
}

/// The `remaining` values whose words stand at `pos`, behind the values
/// `acc` that were read before.
pub open spec fn values_from(ctx: IndexContext, pos: int, remaining: nat, acc: Seq<ValueModel>) -> Result<
    Seq<ValueModel>,
    DecodeError,
>
    decreases remaining,
{
    if remaining == 0 {
        Ok(acc)
    } else {
        match u32_at(ctx.block, pos) {
            Ok(word) => match value_of_word(ctx, word) {
                Ok(value) => values_from(ctx, pos + 4, (remaining - 1) as nat, acc.push(value)),
                Err(e) => Err(e),
            },
            Err(e) => Err(e),
        }
    }
}

/// The properties that the entries from `from` on name, whose bodies stand
/// at their offsets from `base`, behind the properties `acc` that were read
/// before, for a reader whose cursor stands at `cursor`; with them the
/// reader's cursor at the end.
pub open spec fn properties_from(
    ctx: IndexContext,
    base: int,
    entries: Seq<(Seq<u8>, u32)>,
    from: int,
    cursor: int,
    acc: Seq<PropertyModel>,
) -> Result<(Seq<PropertyModel>, int), DecodeError>
    decreases entries.len() - from,
{
    if from < 0 || from >= entries.len() {
        Ok((acc, cursor))
    } else {
        let target = base + entries[from].1;
        if target >= ctx.block.len() {
            Err(eof_error(cursor, target, ctx.block.len() as int))
        } else {
            match u16_at(ctx.block, target) {
                Ok(count) => match values_from(ctx, target + 2, count as nat, Seq::empty()) {
                    Ok(values) => properties_from(
                        ctx,
                        base,
                        entries,
                        from + 1,
                        target + 2 + 4 * count,
                        acc.push(PropertyModel { name: entries[from].0, values }),
                    ),
                    Err(e) => Err(e),
                },
                Err(e) => Err(e),
            }
        }
    }
}

/// The sections that the entries from `from` on name, whose bodies stand at
/// their offsets from `base`, the start of the file; with them the reader's
/// cursor at the end.
pub open spec fn sections_from(
    ctx: IndexContext,
    base: int,
    entries: Seq<(Seq<u8>, u32)>,
    from: int,
    cursor: int,
    acc: Seq<SectionModel>,
) -> Result<(Seq<SectionModel>, int), DecodeError>
    decreases entries.len() - from,
{
    if from < 0 || from >= entries.len() {
        Ok((acc, cursor))
    } else {
        let target = base + entries[from].1;
        if target >= ctx.block.len() {
            Err(eof_error(cursor, target, ctx.block.len() as int))
        } else {
            match u16_at(ctx.block, target) {
                Ok(count) => match name_entries_from(
                    ctx.block,
                    ctx.keys,
                    target + 2,
                    count as nat,
                    Seq::empty(),
                ) {
                    Ok(props) => match properties_from(
                        ctx,
                        target,
                        props,
                        0,
                        target + 2 + 6 * count,
                        Seq::empty(),
                    ) {
                        Ok(read) => sections_from(
                            ctx,
                            base,
                            entries,
                            from + 1,
                            read.1,
                            acc.push(SectionModel { name: entries[from].0, properties: read.0 }),
                        ),
                        Err(e) => Err(e),
                    },
                    Err(e) => Err(e),
                },
                Err(e) => Err(e),
            }
        }
    }
}

/// The files that the entries from `from` on name, whose bodies stand at
/// their offsets from the start of the index block; with them the reader's
/// cursor at the end.
pub open spec fn files_from(
    ctx: IndexContext,
    entries: Seq<(Seq<u8>, u32)>,
    from: int,
    cursor: int,
    acc: Seq<FileModel>,
) -> Result<(Seq<FileModel>, int), DecodeError>
    decreases entries.len() - from,
{
    if from < 0 || from >= entries.len() {
        Ok((acc, cursor))
    } else {
        let target = entries[from].1 as int;
        if target >= ctx.block.len() {
            Err(eof_error(cursor, target, ctx.block.len() as int))
        } else {
            match u16_at(ctx.block, target) {
                Ok(count) => match name_entries_from(
                    ctx.block,
                    ctx.keys,
                    target + 2,
                    count as nat,
                    Seq::empty(),
                ) {
                    Ok(sections) => match sections_from(
                        ctx,
                        target,
                        sections,
                        0,
                        target + 2 + 6 * count,
                        Seq::empty(),
                    ) {
                        Ok(read) => files_from(
                            ctx,
                            entries,
                            from + 1,
                            read.1,
                            acc.push(FileModel { path: entries[from].0, sections: read.0 }),
                        ),
                        Err(e) => Err(e),
                    },
                    Err(e) => Err(e),
                },
                Err(e) => Err(e),
            }
        }
    }
}

/// The files of an index block.
pub open spec fn parsed_index(ctx: IndexContext) -> Result<Seq<FileModel>, DecodeError> {
    match u16_at(ctx.block, 0) {
        Ok(count) => match name_entries_from(ctx.block, ctx.keys, 2, count as nat, Seq::empty()) {
            Ok(entries) => match files_from(ctx, entries, 0, 2 + 6 * count, Seq::empty()) {
                Ok(read) => Ok(read.0),
                Err(e) => Err(e),
            },
            Err(e) => Err(e),
        },
        Err(e) => Err(e),
    }
}

/// What a Coalesced file holds behind its string table, whose keys are
/// `keys`: the Huffman block, the index block, the number of bits, the data
/// block and, in the index block, the files. `fields` are the seven words of
/// the header behind the magic number.
pub open spec fn parsed_coalesced_blocks(bytes: Seq<u8>, fields: Seq<u32>, keys: Seq<Seq<u8>>) -> Result<
    CoalescedModel,
    DecodeError,
> {
    let huffman_at = COALESCED_HEADER_SIZE + fields[3];
    let index_at = huffman_at + fields[4];
    let bits_at = index_at + fields[5];
    let data_at = bits_at + 4;
    match block_at(bytes, huffman_at, fields[4] as int) {
        Ok(huffman) => match parsed_pair_block(huffman) {
            Ok(pairs) => match block_at(bytes, index_at, fields[5] as int) {
                Ok(index) => match u32_at(bytes, bits_at) {
                    Ok(_) => match block_at(bytes, data_at, fields[6] as int) {
                        Ok(data) => match parsed_index(
                            IndexContext {
                                block: index,
                                keys,
                                pairs,
                                data,
                                max_length: fields[2] as int,
                            },
                        ) {
                            Ok(files) => Ok(CoalescedModel { version: fields[0], files }),
                            Err(e) => Err(e),
                        },
                        Err(e) => Err(e),
                    },
                    Err(e) => Err(e),
                },
                Err(e) => Err(e),
            },
            Err(e) => Err(e),
        },
        Err(e) => Err(e),
    }
}

/// The document that a Coalesced file holds, or the error that a reader
/// meets first.
pub open spec fn parsed_coalesced(bytes: Seq<u8>) -> Result<CoalescedModel, DecodeError> {
    match words_from(bytes, 0, 1, Seq::empty()) {
        Ok(magic) => if magic[0] != ME3_MAGIC {
            Err(DecodeError::UnknownFileMagic)
        } else {
            match words_from(bytes, 4, 7, Seq::empty()) {
                Ok(fields) => match block_at(bytes, COALESCED_HEADER_SIZE as int, fields[3] as int) {
                    Ok(table) => match parsed_string_table(table, fields[3]) {
                        Ok(keys) => parsed_coalesced_blocks(bytes, fields, keys),
                        Err(e) => Err(e),
                    },
                    Err(e) => Err(e),
                },
                Err(e) => Err(e),
            }
        },
        Err(e) => Err(e),
    }
}

} // verus!
