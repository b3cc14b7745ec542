use crate::bits::{max_bits, packed};
use crate::crc32::crc32;
use crate::flat::total_size;
use crate::huffman::{counted_all, no_counts, symbols_of, terminated, HuffmanTree};
use crate::pairs::pair_table;
use crate::shared::{
    CoalescedModel, FileModel, PropertyModel, SectionModel, ValueModel, ValueType, ME3_MAGIC,
};
use crate::tree::huffman_tree;
use crate::wire::{pair_words, signed_pair_bits, u16_le, u32_le, word_bytes};
use vstd::prelude::*;

verus! {

/// Number of bytes of the header of a Coalesced file.
pub const COALESCED_HEADER_SIZE: usize = 32;

/// Number of bits of the bit offset in a packed value.
pub const OFFSET_BITS: u32 = 29;

/// The first number that the bit offset of a packed value cannot hold.
pub const OFFSET_LIMIT: u32 = 0x2000_0000;

// ---------------------------------------------------------------------
// The string table
// ---------------------------------------------------------------------

/// The names of a section: its own, then those of its properties.
pub open spec fn section_names(s: SectionModel) -> Seq<Seq<u8>> {
    seq![s.name] + s.properties.map_values(|p: PropertyModel| p.name)
}

/// The names of a file: its path, then the names of its sections.
pub open spec fn file_names(f: FileModel) -> Seq<Seq<u8>> {
    seq![f.path] + f.sections.map_values(|s: SectionModel| section_names(s)).flatten()
}

/// The names of a list of files in the order in which they occur.
pub open spec fn files_names(files: Seq<FileModel>) -> Seq<Seq<u8>> {
    files.map_values(|f: FileModel| file_names(f)).flatten()
}

/// The names of a document in the order in which they occur.
pub open spec fn all_names(c: CoalescedModel) -> Seq<Seq<u8>> {
    files_names(c.files)
}

/// The names without repetitions: of each, the first occurrence.
pub open spec fn distinct(names: Seq<Seq<u8>>) -> Seq<Seq<u8>>
    decreases names.len(),
{
    if names.len() == 0 {
        Seq::empty()
    } else if distinct(names.drop_last()).contains(names.last()) {
        distinct(names.drop_last())
    } else {
        distinct(names.drop_last()).push(names.last())
    }
}

/// The checksums of a list of keys.
pub open spec fn hashes(keys: Seq<Seq<u8>>) -> Seq<u32> {
    keys.map_values(|k: Seq<u8>| crc32(k))
}

/// The place of a key with checksum `hash` in a list of checksums in rising
/// order: behind the last one that is not greater.
pub open spec fn place_by_hash(sorted: Seq<u32>, hash: u32) -> int
    decreases sorted.len(),
{
    if sorted.len() == 0 {
        0
    } else if sorted.last() <= hash {
        sorted.len() as int
    } else {
        place_by_hash(sorted.drop_last(), hash)
    }
}

/// The keys in the order of their checksums; keys with one checksum in the
/// order in which they stand in `keys`.
pub open spec fn sorted_by_hash(keys: Seq<Seq<u8>>) -> Seq<Seq<u8>>
    decreases keys.len(),
{
    if keys.len() == 0 {
        Seq::empty()
    } else {
        let sorted = sorted_by_hash(keys.drop_last());
        sorted.insert(place_by_hash(hashes(sorted), crc32(keys.last())), keys.last())
    }
}

/// The string table of a document: its names, each once, in the order of
/// their checksums.
pub open spec fn key_table(c: CoalescedModel) -> Seq<Seq<u8>> {
    sorted_by_hash(distinct(all_names(c)))
}

/// Position of the first key that equals `name`; the number of keys if
/// there is none.
pub open spec fn index_of(keys: Seq<Seq<u8>>, name: Seq<u8>) -> int
    decreases keys.len(),
{
    if keys.len() == 0 {
        0
    } else if keys[0] == name {
        0
    } else {
        1 + index_of(keys.drop_first(), name)
    }
}

/// The record of a key: its length in two bytes, then its bytes.
pub open spec fn key_record(key: Seq<u8>) -> Seq<u8> {
    u16_le(key.len() as u16) + key
}

/// The records of a list of keys, one after the other.
pub open spec fn key_records(keys: Seq<Seq<u8>>) -> Seq<u8> {
    keys.map_values(|k: Seq<u8>| key_record(k)).flatten()
}

/// The offset of the record of key `k`, counted from byte 8 of the string
/// table.
pub open spec fn key_offset(keys: Seq<Seq<u8>>, k: int) -> int {
    8 * keys.len() as int + key_records(keys.take(k)).len() as int
}

/// The entries of the string table: for each key its checksum and the
/// offset of its record.
pub open spec fn key_entries(keys: Seq<Seq<u8>>) -> Seq<(u32, u32)> {
    Seq::new(keys.len(), |k: int| (crc32(keys[k]), key_offset(keys, k) as u32))
}

/// Number of bytes of the string table.
pub open spec fn string_table_size(keys: Seq<Seq<u8>>) -> int {
    8 + 8 * keys.len() as int + key_records(keys).len() as int
}

/// The string table block: its own size, the number of keys, the entries,
/// and the records.
pub open spec fn string_table(keys: Seq<Seq<u8>>) -> Seq<u8> {
    word_bytes(
        seq![string_table_size(keys) as u32, keys.len() as u32] + pair_words(key_entries(keys)),
    ) + key_records(keys)
}

/// The longest of the keys.
pub open spec fn longest(texts: Seq<Seq<u8>>) -> nat
    decreases texts.len(),
{
    if texts.len() == 0 {
        0
    } else if texts.last().len() > longest(texts.drop_last()) {
        texts.last().len()
    } else {
        longest(texts.drop_last())
    }
}

// ---------------------------------------------------------------------
// The Huffman block and the data block
// ---------------------------------------------------------------------

/// The text of a value that is written: none for `RemoveProperty`, whose
/// text is ignored.
pub open spec fn written_text(v: ValueModel) -> Option<Seq<u8>> {
    if v.ty == ValueType::RemoveProperty {
        None
    } else {
        v.text
    }
}

/// The symbols that a value adds to the frequencies: those of its text and
/// the 0 that ends it.
pub open spec fn value_symbols(v: ValueModel) -> Seq<int> {
    match written_text(v) {
        Some(text) => symbols_of::<u8>(text).push(0),
        None => Seq::empty(),
    }
}

/// The bits that a value adds to the bit stream.
pub open spec fn value_bits(tree: HuffmanTree, v: ValueModel) -> Seq<bool> {
    match written_text(v) {
        Some(text) => terminated(tree, symbols_of::<u8>(text)),
        None => Seq::empty(),
    }
}

/// The values of a section in the order in which they occur.
pub open spec fn section_values(s: SectionModel) -> Seq<ValueModel> {
    properties_values(s.properties)
}

/// The values of a file in the order in which they occur.
pub open spec fn file_values(f: FileModel) -> Seq<ValueModel> {
    sections_values(f.sections)
}

/// The values of a document in the order in which they occur.
pub open spec fn all_values(c: CoalescedModel) -> Seq<ValueModel> {
    files_values(c.files)
}

/// The symbols of a list of values.
pub open spec fn values_symbols(values: Seq<ValueModel>) -> Seq<int> {
    values.map_values(|v: ValueModel| value_symbols(v)).flatten()
}

/// The Huffman tree of a document: that of the frequencies of the symbols
/// of its values.
pub open spec fn coalesced_tree(c: CoalescedModel) -> HuffmanTree {
    huffman_tree(counted_all(no_counts(), values_symbols(all_values(c))))
}

/// The bit stream of a list of values.
pub open spec fn values_bits(tree: HuffmanTree, values: Seq<ValueModel>) -> Seq<bool> {
    values.map_values(|v: ValueModel| value_bits(tree, v)).flatten()
}

/// The texts of a list of values that are written.
pub open spec fn written_texts(values: Seq<ValueModel>) -> Seq<Seq<u8>> {
    values.map_values(
        |v: ValueModel|
            match written_text(v) {
                Some(text) => text,
                None => Seq::empty(),
            },
    )
}

/// The Huffman block: the number of pairs in two bytes, then the pairs.
pub open spec fn pair_block(pairs: Seq<(i32, i32)>) -> Seq<u8> {
    u16_le(pairs.len() as u16) + word_bytes(
        pair_words(pairs.map_values(|p: (i32, i32)| signed_pair_bits(p))),
    )
}

// ---------------------------------------------------------------------
// The index block
// ---------------------------------------------------------------------

/// A value's word in the index: the tag in the three highest bits, the bit
/// at which the text starts in the other 29.
pub open spec fn packed_value(ty: ValueType, bit_offset: int) -> u32 {
    (ty.spec_code() * OFFSET_LIMIT + bit_offset) as u32
}

/// In bits, the word of a value is the tag shifted into the three highest
/// bits, joined with the bit offset; the tag is read back from the three
/// highest bits and the bit offset from the 29 others.
pub proof fn lemma_packed_value_bits(ty: ValueType, bit_offset: u32)
    requires
        bit_offset < OFFSET_LIMIT,
    ensures
        packed_value(ty, bit_offset as int) == ((ty.spec_code() as u32) << OFFSET_BITS) | (
        bit_offset & 0x1FFF_FFFF),
        (packed_value(ty, bit_offset as int) & 0xE000_0000) >> OFFSET_BITS == ty.spec_code(),
        packed_value(ty, bit_offset as int) & 0x1FFF_FFFF == bit_offset,
        packed_value(ty, bit_offset as int) / OFFSET_LIMIT == ty.spec_code(),
        packed_value(ty, bit_offset as int) % OFFSET_LIMIT == bit_offset,
{
    let code: u32 = ty.spec_code() as u32;
    let word: u32 = (code * 0x2000_0000 + bit_offset) as u32;
    assert(word == packed_value(ty, bit_offset as int));
    assert(word == (code << 29) | (bit_offset & 0x1FFF_FFFF) && (word & 0xE000_0000) >> 29 == code
        && word & 0x1FFF_FFFF == bit_offset) by (bit_vector)
        requires
            code <= 4,
            bit_offset < 0x2000_0000,
            word == code * 0x2000_0000 + bit_offset,
    ;
}

/// A value with the tag `RemoveProperty` adds no bits to the bit stream,
/// and its word is the bit offset with bit 29 set.
pub proof fn lemma_remove_property_word(tree: HuffmanTree, v: ValueModel, bit_offset: u32)
    requires
        v.ty == ValueType::RemoveProperty,
        bit_offset < OFFSET_LIMIT,
    ensures
        value_bits(tree, v) == Seq::<bool>::empty(),
        packed_value(v.ty, bit_offset as int) == (1u32 << 29) | bit_offset,
{
    lemma_packed_value_bits(v.ty, bit_offset);
    assert((1u32 << 29) | (bit_offset & 0x1FFF_FFFF) == (1u32 << 29) | bit_offset) by (bit_vector)
        requires
            bit_offset < 0x2000_0000,
    ;
}

/// The words of the values of a property, the first of which starts at bit
/// `start` of the bit stream.
pub open spec fn value_words(tree: HuffmanTree, values: Seq<ValueModel>, start: int) -> Seq<u32> {
    Seq::new(
        values.len(),
        |l: int| packed_value(values[l].ty, start + values_bits(tree, values.take(l)).len()),
    )
}

/// The body of a property: the number of values, then a word for each.
pub open spec fn property_body(tree: HuffmanTree, p: PropertyModel, start: int) -> Seq<u8> {
    u16_le(p.values.len() as u16) + word_bytes(value_words(tree, p.values, start))
}

/// Number of bytes of the body of a property.
pub open spec fn property_size(p: PropertyModel) -> int {
    2 + 4 * p.values.len() as int
}

/// Number of bytes of the bodies of a list of properties.
pub open spec fn properties_size(props: Seq<PropertyModel>) -> int {
    total_size(props, |p: PropertyModel| property_size(p))
}

/// Number of bytes of the body of a section.
pub open spec fn section_size(s: SectionModel) -> int {
    2 + 6 * s.properties.len() as int + properties_size(s.properties)
}

/// Number of bytes of the bodies of a list of sections.
pub open spec fn sections_size(sections: Seq<SectionModel>) -> int {
    total_size(sections, |s: SectionModel| section_size(s))
}

/// Number of bytes of the body of a file.
pub open spec fn file_size(f: FileModel) -> int {
    2 + 6 * f.sections.len() as int + sections_size(f.sections)
}

/// Number of bytes of the bodies of a list of files.
pub open spec fn files_size(files: Seq<FileModel>) -> int {
    total_size(files, |f: FileModel| file_size(f))
}

/// Number of bytes of the index block.
pub open spec fn index_size(files: Seq<FileModel>) -> int {
    2 + 6 * files.len() as int + files_size(files)
}

/// An entry of a table of names: the index of the name in the string table
/// in two bytes, then an offset in four.
pub open spec fn name_entry(keys: Seq<Seq<u8>>, name: Seq<u8>, offset: int) -> Seq<u8> {
    u16_le(index_of(keys, name) as u16) + u32_le(offset as u32)
}

/// The values of a list of properties in the order in which they occur.
pub open spec fn properties_values(props: Seq<PropertyModel>) -> Seq<ValueModel> {
    props.map_values(|p: PropertyModel| p.values).flatten()
}

/// The values of a list of sections in the order in which they occur.
pub open spec fn sections_values(sections: Seq<SectionModel>) -> Seq<ValueModel> {
    sections.map_values(|s: SectionModel| section_values(s)).flatten()
}

/// The values of a list of files in the order in which they occur.
pub open spec fn files_values(files: Seq<FileModel>) -> Seq<ValueModel> {
    files.map_values(|f: FileModel| file_values(f)).flatten()
}

/// The bodies of a list of properties, the values of the first of which
/// start at bit `start`.
pub open spec fn property_bodies(tree: HuffmanTree, props: Seq<PropertyModel>, start: int) -> Seq<
    Seq<u8>,
> {
    Seq::new(
        props.len(),
        |r: int|
            property_body(
                tree,
                props[r],
                start + values_bits(tree, properties_values(props.take(r))).len(),
            ),
    )
}

/// The entries of a section: for each property its name and the offset of
/// its body from the start of the section.
pub open spec fn property_entries(keys: Seq<Seq<u8>>, props: Seq<PropertyModel>) -> Seq<Seq<u8>> {
    Seq::new(
        props.len(),
        |r: int|
            name_entry(
                keys,
                props[r].name,
                2 + 6 * props.len() + properties_size(props.take(r)),
            ),
    )
}

/// The body of a section at bit `start` of the bit stream: the number of
/// properties, an entry for each, then the bodies.
pub open spec fn section_body(
    tree: HuffmanTree,
    keys: Seq<Seq<u8>>,
    s: SectionModel,
    start: int,
) -> Seq<u8> {
    u16_le(s.properties.len() as u16) + property_entries(keys, s.properties).flatten()
        + property_bodies(tree, s.properties, start).flatten()
}

/// The bodies of a list of sections, the values of the first of which start
/// at bit `start`.
pub open spec fn section_bodies(
    tree: HuffmanTree,
    keys: Seq<Seq<u8>>,
    sections: Seq<SectionModel>,
    start: int,
) -> Seq<Seq<u8>> {
    Seq::new(
        sections.len(),
        |q: int|
            section_body(
                tree,
                keys,
                sections[q],
                start + values_bits(tree, sections_values(sections.take(q))).len(),
            ),
    )
}

/// The entries of a file: for each section its name and the offset of its
/// body from the start of the file.
pub open spec fn section_entries(keys: Seq<Seq<u8>>, sections: Seq<SectionModel>) -> Seq<Seq<u8>> {
    Seq::new(
        sections.len(),
        |q: int|
            name_entry(
                keys,
                sections[q].name,
                2 + 6 * sections.len() + sections_size(sections.take(q)),
            ),
    )
}

/// The body of a file at bit `start` of the bit stream: the number of
/// sections, an entry for each, then the bodies.
pub open spec fn file_body(tree: HuffmanTree, keys: Seq<Seq<u8>>, f: FileModel, start: int) -> Seq<
    u8,
> {
    u16_le(f.sections.len() as u16) + section_entries(keys, f.sections).flatten() + section_bodies(
        tree,
        keys,
        f.sections,
        start,
    ).flatten()
}

/// The bodies of a list of files, the values of the first of which start at
/// bit `start`.
pub open spec fn file_bodies(
    tree: HuffmanTree,
    keys: Seq<Seq<u8>>,
    files: Seq<FileModel>,
    start: int,
) -> Seq<Seq<u8>> {
    Seq::new(
        files.len(),
        |k: int|
            file_body(
                tree,
                keys,
                files[k],
                start + values_bits(tree, files_values(files.take(k))).len(),
            ),
    )
}

/// The entries of the index block: for each file its path and the offset of
/// its body from the start of the block.
pub open spec fn file_entries(keys: Seq<Seq<u8>>, files: Seq<FileModel>) -> Seq<Seq<u8>> {
    Seq::new(
        files.len(),
        |k: int| name_entry(keys, files[k].path, 2 + 6 * files.len() + files_size(files.take(k))),
    )
}

/// The index block: the number of files, an entry for each, then the
/// bodies.
pub open spec fn index_block(tree: HuffmanTree, keys: Seq<Seq<u8>>, files: Seq<FileModel>) -> Seq<
    u8,
> {
    u16_le(files.len() as u16) + file_entries(keys, files).flatten() + file_bodies(
        tree,
        keys,
        files,
        0,
    ).flatten()
}

// ---------------------------------------------------------------------
// What can be written
// ---------------------------------------------------------------------

/// Whether value `l` of a list whose first value starts at bit `start` can
/// be written: the bit at which it starts fits in 29 bits, and the bit
/// stream with the value fits in an accumulator.
pub open spec fn value_fits(tree: HuffmanTree, values: Seq<ValueModel>, start: int, l: int) -> bool {
    &&& start + values_bits(tree, values.take(l)).len() < OFFSET_LIMIT
    &&& start + values_bits(tree, values.take(l + 1)).len() <= max_bits()
}

/// Whether the values of a list whose first value starts at bit `start` can
/// be written.
pub open spec fn values_fit(tree: HuffmanTree, values: Seq<ValueModel>, start: int) -> bool {
    forall|l: int| 0 <= l < values.len() ==> #[trigger] value_fits(tree, values, start, l)
}

/// The bit at which the values of property `r` of a list start, where those
/// of the first start at bit `start`.
pub open spec fn property_start(
    tree: HuffmanTree,
    props: Seq<PropertyModel>,
    start: int,
    r: int,
) -> int {
    start + values_bits(tree, properties_values(props.take(r))).len()
}

/// Whether the values of property `r` of a list can be written.
pub open spec fn property_fits(
    tree: HuffmanTree,
    props: Seq<PropertyModel>,
    start: int,
    r: int,
) -> bool {
    values_fit(tree, props[r].values, property_start(tree, props, start, r))
}

/// Whether the values of a list of properties can be written.
pub open spec fn properties_fit(tree: HuffmanTree, props: Seq<PropertyModel>, start: int) -> bool {
    forall|r: int| 0 <= r < props.len() ==> #[trigger] property_fits(tree, props, start, r)
}

/// The bit at which the values of section `q` of a list start.
pub open spec fn section_start(
    tree: HuffmanTree,
    sections: Seq<SectionModel>,
    start: int,
    q: int,
) -> int {
    start + values_bits(tree, sections_values(sections.take(q))).len()
}

/// Whether the values of section `q` of a list can be written.
pub open spec fn section_fits(
    tree: HuffmanTree,
    sections: Seq<SectionModel>,
    start: int,
    q: int,
) -> bool {
    properties_fit(tree, sections[q].properties, section_start(tree, sections, start, q))
}

/// Whether the values of a list of sections can be written.
pub open spec fn sections_fit(tree: HuffmanTree, sections: Seq<SectionModel>, start: int) -> bool {
    forall|q: int| 0 <= q < sections.len() ==> #[trigger] section_fits(tree, sections, start, q)
}

/// The bit at which the values of file `k` of a list start.
pub open spec fn file_start(tree: HuffmanTree, files: Seq<FileModel>, start: int, k: int) -> int {
    start + values_bits(tree, files_values(files.take(k))).len()
}

/// Whether the values of file `k` of a list can be written.
pub open spec fn file_fits(tree: HuffmanTree, files: Seq<FileModel>, start: int, k: int) -> bool {
    sections_fit(tree, files[k].sections, file_start(tree, files, start, k))
}

/// Whether the values of a list of files can be written.
pub open spec fn files_fit(tree: HuffmanTree, files: Seq<FileModel>, start: int) -> bool {
    forall|k: int| 0 <= k < files.len() ==> #[trigger] file_fits(tree, files, start, k)
}

/// Whether the numbers of values of the properties fit in 16 bits.
pub open spec fn property_counts_fit(props: Seq<PropertyModel>) -> bool {
    forall|r: int| 0 <= r < props.len() ==> (#[trigger] props[r]).values.len() <= u16::MAX
}

/// Whether the numbers of properties and of their values fit in 16 bits.
pub open spec fn section_counts_fit(sections: Seq<SectionModel>) -> bool {
    forall|q: int|
        0 <= q < sections.len() ==> (#[trigger] sections[q]).properties.len() <= u16::MAX
            && property_counts_fit(sections[q].properties)
}

/// Whether the numbers of sections, of their properties and of their
/// values fit in 16 bits.
pub open spec fn file_counts_fit(files: Seq<FileModel>) -> bool {
    forall|k: int|
        0 <= k < files.len() ==> (#[trigger] files[k]).sections.len() <= u16::MAX
            && section_counts_fit(files[k].sections)
}

/// Whether the index block can be written: every number of files,
/// sections, properties and values fits in 16 bits, and the size of the
/// block in 32.
pub open spec fn layout_fits(files: Seq<FileModel>) -> bool {
    &&& files.len() <= u16::MAX
    &&& file_counts_fit(files)
    &&& index_size(files) <= u32::MAX
}

/// Whether the string table can be written: the index of every key and the
/// length of every key fit in 16 bits, and the size of the table in 32.
pub open spec fn keys_fit(keys: Seq<Seq<u8>>) -> bool {
    &&& keys.len() <= u16::MAX + 1
    &&& forall|k: int| 0 <= k < keys.len() ==> (#[trigger] keys[k]).len() <= u16::MAX
    &&& string_table_size(keys) <= u32::MAX
}

// ---------------------------------------------------------------------
// The file
// ---------------------------------------------------------------------

/// The pair table of a document.
pub open spec fn coalesced_pairs(c: CoalescedModel) -> Seq<(i32, i32)> {
    pair_table(coalesced_tree(c))
}

/// The bit stream of a document.
pub open spec fn coalesced_bits(c: CoalescedModel) -> Seq<bool> {
    values_bits(coalesced_tree(c), all_values(c))
}

/// The index block of a document.
pub open spec fn coalesced_index(c: CoalescedModel) -> Seq<u8> {
    index_block(coalesced_tree(c), key_table(c), c.files)
}

/// The eight words of the header.
pub open spec fn coalesced_header(c: CoalescedModel) -> Seq<u32> {
    seq![
        ME3_MAGIC,
        c.version,
        longest(key_table(c)) as u32,
        longest(written_texts(all_values(c))) as u32,
        string_table(key_table(c)).len() as u32,
        pair_block(coalesced_pairs(c)).len() as u32,
        coalesced_index(c).len() as u32,
        packed(coalesced_bits(c)).len() as u32,
    ]
}

/// The bytes of a Coalesced file: the header, the string table, the Huffman
/// block, the index block, the number of bits of the bit stream, and the
/// data block.
pub open spec fn coalesced_bytes(c: CoalescedModel) -> Seq<u8> {
    word_bytes(coalesced_header(c)) + string_table(key_table(c)) + pair_block(coalesced_pairs(c))
        + coalesced_index(c) + u32_le(coalesced_bits(c).len() as u32) + packed(coalesced_bits(c))
}

/// Whether a document can be written: its string table, its index block
/// and every value can, the number of bits and the length of the longest
/// value fit in 32 bits, and the file fits in memory.
#[verifier::opaque]
pub open spec fn coalesced_fits(c: CoalescedModel) -> bool {
    &&& keys_fit(key_table(c))
    &&& layout_fits(c.files)
    &&& longest(written_texts(all_values(c))) <= u32::MAX
    &&& files_fit(coalesced_tree(c), c.files, 0)
    &&& coalesced_bits(c).len() <= u32::MAX
    &&& coalesced_bits(c).len() <= max_bits()
    &&& coalesced_bytes(c).len() <= usize::MAX
}

/// Whether the tag and the text of a value go together: `RemoveProperty`
/// comes without a text and every other tag with one.
pub open spec fn value_tagged(v: ValueModel) -> bool {
    (v.ty == ValueType::RemoveProperty) == v.text.is_none()
}

/// Whether a value is one that a reader gives back: its tag and its text go
/// together, and its text does not hold the byte 0, which ends a text in
/// the bit stream.
pub open spec fn value_well_formed(v: ValueModel) -> bool {
    &&& value_tagged(v)
    &&& match v.text {
        Some(text) => forall|j: int| 0 <= j < text.len() ==> #[trigger] text[j] != 0,
        None => true,
    }
}

/// Whether no text of a list of values holds the byte 0.
pub open spec fn texts_without_null(values: Seq<ValueModel>) -> bool {
    forall|l: int, j: int|
        0 <= l < values.len() && values[l].text.is_some() && 0 <= j < values[l].text->0.len()
            ==> #[trigger] values[l].text->0[j] != 0
}

/// Whether every value of a list is one that a reader gives back.
pub open spec fn values_well_formed(values: Seq<ValueModel>) -> bool {
    forall|l: int| 0 <= l < values.len() ==> value_well_formed(#[trigger] values[l])
}

/// Whether every value of a document is one that a reader gives back.
pub open spec fn coalesced_well_formed(c: CoalescedModel) -> bool {
    values_well_formed(all_values(c))
}

} // verus!
