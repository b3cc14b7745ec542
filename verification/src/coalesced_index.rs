use crate::coalesced::{
    file_bodies, file_body, file_counts_fit, file_entries, file_fits, file_names, file_size,
    file_start, file_values, files_fit, files_names, files_size, files_values, index_block,
    index_of, index_size, name_entry, packed_value, properties_fit, properties_size,
    property_bodies, property_body, property_counts_fit, property_entries, property_fits,
    property_size, property_start, section_bodies, section_body, section_counts_fit,
    section_entries, section_fits, section_names, section_size, section_start, section_values,
    sections_fit, sections_size, value_fits, value_words, values_bits, values_fit, written_text,
    OFFSET_LIMIT,
};
use crate::coalesced_parse::{
    files_from, name_entries_from, parsed_index, properties_from, sections_from, u16_at, u32_at,
    value_of_word, values_from, IndexContext,
};
use crate::coalesced_values::{lemma_values_decode_piece, value_decodes, values_decode};
use crate::coalesced_write::{
    lemma_file_body_len, lemma_files_layout, lemma_name_entry_len, lemma_properties_layout,
    lemma_property_body_len, lemma_section_body_len, lemma_sections_layout,
};
use crate::error::DecodeError;
use crate::flat::{lemma_flatten_fixed, lemma_flatten_index, lemma_flatten_piece};
use crate::huffman::{lemma_chars_of_symbols, HuffmanTree};
use crate::keys::lemma_index_of;
use crate::pairs::pair_table;
use crate::shared::{
    lemma_value_type_code_round_trip, FileModel, PropertyModel, SectionModel, ValueModel,
};
use crate::wire::{
    lemma_u16_le_round_trip, lemma_u32_le_round_trip, lemma_word_bytes_len, lemma_word_bytes_push,
    lemma_word_bytes_subrange, u16_le, u32_le, word_bytes,
};
use vstd::prelude::*;

verus! {

/// A part of a part of a block is a part of the block.
pub proof fn lemma_part_of_part(block: Seq<u8>, at: int, size: int, from: int, to: int)
    requires
        0 <= at,
        0 <= from <= to <= size,
        at + size <= block.len(),
    ensures
        block.subrange(at, at + size).subrange(from, to) == block.subrange(at + from, at + to),
{
    assert(block.subrange(at, at + size).subrange(from, to) =~= block.subrange(at + from, at + to));
}

/// A reader finds a `u16` where its bytes stand.
pub proof fn lemma_u16_at(block: Seq<u8>, pos: int, value: u16)
    requires
        0 <= pos,
        pos + 2 <= block.len(),
        block.subrange(pos, pos + 2) == u16_le(value),
    ensures
        u16_at(block, pos) == Ok::<u16, DecodeError>(value),
{
    lemma_u16_le_round_trip(value);
}

/// A reader finds a `u32` where its bytes stand.
pub proof fn lemma_u32_at(block: Seq<u8>, pos: int, value: u32)
    requires
        0 <= pos,
        pos + 4 <= block.len(),
        block.subrange(pos, pos + 4) == u32_le(value),
    ensures
        u32_at(block, pos) == Ok::<u32, DecodeError>(value),
{
    lemma_u32_le_round_trip(value);
}

/// The bytes of word `k` of a string of words.
pub proof fn lemma_word_bytes_at(words: Seq<u32>, k: int)
    requires
        0 <= k < words.len(),
    ensures
        word_bytes(words).len() == 4 * words.len(),
        word_bytes(words).subrange(4 * k, 4 * k + 4) == u32_le(words[k]),
{
    lemma_word_bytes_subrange(words, k, k + 1);
    let one = words.subrange(k, k + 1);
    assert(one =~= seq![words[k]]);
    lemma_word_bytes_push(Seq::empty(), words[k]);
    assert(Seq::<u32>::empty().push(words[k]) =~= seq![words[k]]);
    assert(word_bytes(Seq::<u32>::empty()) =~= Seq::<u8>::empty());
    assert(word_bytes(seq![words[k]]) =~= u32_le(words[k]));
}

/// A reader makes value `l` of a list out of its word.
pub proof fn lemma_value_of_word(
    ctx: IndexContext,
    tree: HuffmanTree,
    values: Seq<ValueModel>,
    start: int,
    l: int,
)
    requires
        ctx.pairs == pair_table(tree),
        0 <= start,
        0 <= l < values.len(),
        value_decodes(tree, ctx.data, ctx.max_length, values, start, l),
        value_fits(tree, values, start, l),
    ensures
        value_of_word(ctx, value_words(tree, values, start)[l]) == Ok::<ValueModel, DecodeError>(
            values[l],
        ),
{
    let value = values[l];
    let offset = start + values_bits(tree, values.take(l)).len();
    let word = packed_value(value.ty, offset);
    let code = value.ty.spec_code() as int;
    let limit = OFFSET_LIMIT as int;
    assert(0 <= code <= 4);
    assert(word == code * limit + offset);
    assert(word as int / limit == code);
    assert(word as int % limit == offset);
    lemma_value_type_code_round_trip(value.ty);
    match written_text(value) {
        Some(text) => {
            lemma_chars_of_symbols::<u8>(text);
        },
        None => {},
    }
}

/// A reader finds the values of a list from value `k` on where their words
/// stand.
pub proof fn lemma_values_from(
    ctx: IndexContext,
    tree: HuffmanTree,
    values: Seq<ValueModel>,
    start: int,
    pos: int,
    k: int,
    acc: Seq<ValueModel>,
)
    requires
        ctx.pairs == pair_table(tree),
        0 <= start,
        values_decode(tree, ctx.data, ctx.max_length, values, start),
        values_fit(tree, values, start),
        0 <= pos,
        pos + 4 * values.len() <= ctx.block.len(),
        ctx.block.subrange(pos, pos + 4 * values.len()) == word_bytes(
            value_words(tree, values, start),
        ),
        0 <= k <= values.len(),
    ensures
        values_from(ctx, pos + 4 * k, (values.len() - k) as nat, acc) == Ok::<
            Seq<ValueModel>,
            DecodeError,
        >(acc + values.skip(k)),
    decreases values.len() - k,
{
    if k >= values.len() {
        assert(acc + values.skip(k) =~= acc);
    } else {
        let words = value_words(tree, values, start);
        lemma_word_bytes_at(words, k);
        lemma_part_of_part(ctx.block, pos, 4 * values.len() as int, 4 * k, 4 * k + 4);
        lemma_u32_at(ctx.block, pos + 4 * k, words[k]);
        assert(value_decodes(tree, ctx.data, ctx.max_length, values, start, k));
        assert(value_fits(tree, values, start, k));
        lemma_value_of_word(ctx, tree, values, start, k);
        lemma_values_from(ctx, tree, values, start, pos, k + 1, acc.push(values[k]));
        assert(acc.push(values[k]) + values.skip(k + 1) =~= acc + values.skip(k));
    }
}

/// A reader finds a property where its body stands.
pub proof fn lemma_property_at(
    ctx: IndexContext,
    tree: HuffmanTree,
    p: PropertyModel,
    start: int,
    target: int,
)
    requires
        ctx.pairs == pair_table(tree),
        0 <= start,
        values_decode(tree, ctx.data, ctx.max_length, p.values, start),
        values_fit(tree, p.values, start),
        p.values.len() <= u16::MAX,
        0 <= target,
        target + property_size(p) <= ctx.block.len(),
        ctx.block.subrange(target, target + property_size(p)) == property_body(tree, p, start),
    ensures
        u16_at(ctx.block, target) == Ok::<u16, DecodeError>(p.values.len() as u16),
        values_from(ctx, target + 2, p.values.len(), Seq::empty()) == Ok::<
            Seq<ValueModel>,
            DecodeError,
        >(p.values),
{
    let body = property_body(tree, p, start);
    let words = value_words(tree, p.values, start);
    let size = property_size(p);
    lemma_property_body_len(tree, p, start);
    lemma_word_bytes_len(words);
    lemma_part_of_part(ctx.block, target, size, 0, 2);
    assert(body.subrange(0, 2) =~= u16_le(p.values.len() as u16));
    lemma_u16_at(ctx.block, target, p.values.len() as u16);
    lemma_part_of_part(ctx.block, target, size, 2, size);
    assert(body.subrange(2, size) =~= word_bytes(words));
    lemma_values_from(ctx, tree, p.values, start, target + 2, 0, Seq::empty());
    assert(Seq::<ValueModel>::empty() + p.values.skip(0) =~= p.values);
}

/// Whether every name of a list stands in the string table.
pub open spec fn names_known(keys: Seq<Seq<u8>>, names: Seq<Seq<u8>>) -> bool {
    forall|i: int| 0 <= i < names.len() ==> keys.contains(#[trigger] names[i])
}

/// The names of a list that is a part of a list of known names are known.
pub proof fn lemma_names_known_part(keys: Seq<Seq<u8>>, names: Seq<Seq<u8>>, from: int, to: int)
    requires
        names_known(keys, names),
        0 <= from <= to <= names.len(),
    ensures
        names_known(keys, names.subrange(from, to)),
{
    assert forall|i: int| 0 <= i < to - from implies keys.contains(
        #[trigger] names.subrange(from, to)[i],
    ) by {
        assert(names.subrange(from, to)[i] == names[from + i]);
    }
}

/// The names of each item of a list of items whose names are known are
/// known.
pub proof fn lemma_names_known_piece<T>(
    keys: Seq<Seq<u8>>,
    items: Seq<T>,
    f: spec_fn(T) -> Seq<Seq<u8>>,
    i: int,
)
    requires
        names_known(keys, items.map_values(f).flatten()),
        0 <= i < items.len(),
    ensures
        names_known(keys, f(items[i])),
{
    let pieces = items.map_values(f);
    assert forall|j: int| 0 <= j < f(items[i]).len() implies keys.contains(
        #[trigger] f(items[i])[j],
    ) by {
        lemma_flatten_index(pieces, i, j);
        let k = pieces.take(i).flatten().len() + j;
        assert(pieces.flatten()[k] == f(items[i])[j]);
    }
}

/// The rows of a table of names as a reader holds them: each name with its
/// offset.
pub open spec fn name_rows(names: Seq<Seq<u8>>, offsets: Seq<int>) -> Seq<(Seq<u8>, u32)> {
    Seq::new(names.len(), |i: int| (names[i], offsets[i] as u32))
}

/// The entries of a table of names.
pub open spec fn name_entries(keys: Seq<Seq<u8>>, names: Seq<Seq<u8>>, offsets: Seq<int>) -> Seq<
    Seq<u8>,
> {
    Seq::new(names.len(), |i: int| name_entry(keys, names[i], offsets[i]))
}

/// A reader finds the rows of a table of names from row `k` on where the
/// entries stand.
#[verifier::rlimit(40)]
pub proof fn lemma_name_entries_from(
    block: Seq<u8>,
    keys: Seq<Seq<u8>>,
    names: Seq<Seq<u8>>,
    offsets: Seq<int>,
    pos: int,
    k: int,
    acc: Seq<(Seq<u8>, u32)>,
)
    requires
        names.len() == offsets.len(),
        keys.len() <= u16::MAX + 1,
        names_known(keys, names),
        0 <= pos,
        pos + 6 * names.len() <= block.len(),
        block.subrange(pos, pos + 6 * names.len()) == name_entries(keys, names, offsets).flatten(),
        0 <= k <= names.len(),
    ensures
        name_entries_from(block, keys, pos + 6 * k, (names.len() - k) as nat, acc) == Ok::<
            Seq<(Seq<u8>, u32)>,
            DecodeError,
        >(acc + name_rows(names, offsets).skip(k)),
    decreases names.len() - k,
{
    let rows = name_rows(names, offsets);
    if k >= names.len() {
        assert(acc + rows.skip(k) =~= acc);
    } else {
        let entries = name_entries(keys, names, offsets);
        let index = index_of(keys, names[k]);
        let entry = entries[k];
        assert forall|j: int| 0 <= j < entries.len() implies (#[trigger] entries[j]).len() == 6 by {
            lemma_name_entry_len(keys, names[j], offsets[j]);
        }
        lemma_flatten_fixed(entries, 6, k);
        lemma_flatten_piece(entries, k);
        assert(keys.contains(names[k]));
        lemma_index_of(keys, names[k]);
        let flat = entries.flatten();
        assert(flat.subrange(6 * k, 6 * k + 6) == entry);
        lemma_part_of_part(block, pos, 6 * names.len() as int, 6 * k, 6 * k + 2);
        lemma_part_of_part(block, pos, 6 * names.len() as int, 6 * k + 2, 6 * k + 6);
        assert(flat.subrange(6 * k, 6 * k + 2) =~= flat.subrange(6 * k, 6 * k + 6).subrange(0, 2));
        assert(flat.subrange(6 * k + 2, 6 * k + 6) =~= flat.subrange(6 * k, 6 * k + 6).subrange(
            2,
            6,
        ));
        assert(entry.subrange(0, 2) =~= u16_le(index as u16));
        assert(entry.subrange(2, 6) =~= u32_le(offsets[k] as u32));
        lemma_u16_at(block, pos + 6 * k, index as u16);
        lemma_u32_at(block, pos + 6 * k + 2, offsets[k] as u32);
        lemma_name_entries_from(block, keys, names, offsets, pos, k + 1, acc.push(rows[k]));
        assert(acc.push(rows[k]) + rows.skip(k + 1) =~= acc + rows.skip(k));
    }
}

/// The names of the properties of a list.
pub open spec fn property_names(props: Seq<PropertyModel>) -> Seq<Seq<u8>> {
    props.map_values(|p: PropertyModel| p.name)
}

/// The offsets of the bodies of the properties of a section from the start
/// of the section.
pub open spec fn property_offsets(props: Seq<PropertyModel>) -> Seq<int> {
    Seq::new(props.len(), |r: int| 2 + 6 * props.len() + properties_size(props.take(r)))
}

/// What a reader needs to find a section in the index block `ctx.block`:
/// its body stands at `target`, its values start at bit `start`, and
/// everything in it can be written and read.
pub open spec fn section_stands(
    ctx: IndexContext,
    tree: HuffmanTree,
    s: SectionModel,
    start: int,
    target: int,
) -> bool {
    &&& ctx.pairs == pair_table(tree)
    &&& ctx.keys.len() <= u16::MAX + 1
    &&& names_known(ctx.keys, section_names(s))
    &&& 0 <= start
    &&& s.properties.len() <= u16::MAX
    &&& property_counts_fit(s.properties)
    &&& section_size(s) <= u32::MAX
    &&& properties_fit(tree, s.properties, start)
    &&& values_decode(tree, ctx.data, ctx.max_length, section_values(s), start)
    &&& 0 <= target
    &&& target + section_size(s) <= ctx.block.len()
    &&& ctx.block.subrange(target, target + section_size(s)) == section_body(
        tree,
        ctx.keys,
        s,
        start,
    )
}

/// The body of property `r` of a section stands at its offset.
#[verifier::rlimit(40)]
proof fn lemma_property_stands(
    ctx: IndexContext,
    tree: HuffmanTree,
    s: SectionModel,
    start: int,
    target: int,
    r: int,
)
    requires
        section_stands(ctx, tree, s, start, target),
        0 <= r < s.properties.len(),
    ensures
        0 <= property_offsets(s.properties)[r] <= u32::MAX,
        target + property_offsets(s.properties)[r] + property_size(s.properties[r])
            <= ctx.block.len(),
        property_size(s.properties[r]) >= 2,
        ctx.block.subrange(
            target + property_offsets(s.properties)[r],
            target + property_offsets(s.properties)[r] + property_size(s.properties[r]),
        ) == property_body(
            tree,
            s.properties[r],
            property_start(tree, s.properties, start, r),
        ),
        values_decode(
            tree,
            ctx.data,
            ctx.max_length,
            s.properties[r].values,
            property_start(tree, s.properties, start, r),
        ),
        values_fit(tree, s.properties[r].values, property_start(tree, s.properties, start, r)),
        s.properties[r].values.len() <= u16::MAX,
        0 <= property_start(tree, s.properties, start, r),
{
    let props = s.properties;
    let body = section_body(tree, ctx.keys, s, start);
    let bodies = property_bodies(tree, props, start);
    let entries = property_entries(ctx.keys, props);
    let offset = property_offsets(props)[r];
    let size = property_size(props[r]);
    lemma_properties_layout(tree, ctx.keys, props, start, r);
    lemma_property_body_len(tree, props[r], property_start(tree, props, start, r));
    lemma_flatten_piece(bodies, r);
    let head = u16_le(props.len() as u16) + entries.flatten();
    assert(body == head + bodies.flatten());
    assert(head.len() == 2 + 6 * props.len());
    assert(body.subrange(offset, offset + size) =~= bodies.flatten().subrange(
        properties_size(props.take(r)),
        properties_size(props.take(r)) + size,
    ));
    lemma_part_of_part(ctx.block, target, section_size(s), offset, offset + size);
    lemma_values_decode_piece(
        tree,
        ctx.data,
        ctx.max_length,
        props,
        |p: PropertyModel| p.values,
        start,
        r,
    );
    assert(property_fits(tree, props, start, r));
    assert(props[r].values.len() <= u16::MAX);
}

/// A reader finds the properties of a section from property `from` on.
#[verifier::rlimit(40)]
proof fn lemma_properties_from(
    ctx: IndexContext,
    tree: HuffmanTree,
    s: SectionModel,
    start: int,
    target: int,
    from: int,
    cursor: int,
    acc: Seq<PropertyModel>,
)
    requires
        section_stands(ctx, tree, s, start, target),
        0 <= from <= s.properties.len(),
    ensures
        match properties_from(
            ctx,
            target,
            name_rows(property_names(s.properties), property_offsets(s.properties)),
            from,
            cursor,
            acc,
        ) {
            Ok(read) => read.0 == acc + s.properties.skip(from),
            Err(_) => false,
        },
    decreases s.properties.len() - from,
{
    let props = s.properties;
    let rows = name_rows(property_names(props), property_offsets(props));
    if from >= props.len() {
        assert(acc + props.skip(from) =~= acc);
    } else {
        let p = props[from];
        let begin = property_start(tree, props, start, from);
        lemma_property_stands(ctx, tree, s, start, target, from);
        let at = target + property_offsets(props)[from];
        assert(rows[from] == (p.name, property_offsets(props)[from] as u32));
        lemma_property_at(ctx, tree, p, begin, at);
        let read = PropertyModel { name: rows[from].0, values: p.values };
        assert(read == p);
        lemma_properties_from(
            ctx,
            tree,
            s,
            start,
            target,
            from + 1,
            at + 2 + 4 * (p.values.len() as u16),
            acc.push(p),
        );
        assert(acc.push(p) + props.skip(from + 1) =~= acc + props.skip(from));
    }
}

/// A reader finds a section where its body stands.
#[verifier::rlimit(40)]
pub proof fn lemma_section_at(
    ctx: IndexContext,
    tree: HuffmanTree,
    s: SectionModel,
    start: int,
    target: int,
    cursor: int,
)
    requires
        section_stands(ctx, tree, s, start, target),
    ensures
        u16_at(ctx.block, target) == Ok::<u16, DecodeError>(s.properties.len() as u16),
        name_entries_from(ctx.block, ctx.keys, target + 2, s.properties.len(), Seq::empty())
            == Ok::<Seq<(Seq<u8>, u32)>, DecodeError>(
            name_rows(property_names(s.properties), property_offsets(s.properties)),
        ),
        match properties_from(
            ctx,
            target,
            name_rows(property_names(s.properties), property_offsets(s.properties)),
            0,
            cursor,
            Seq::empty(),
        ) {
            Ok(read) => read.0 == s.properties,
            Err(_) => false,
        },
{
    let props = s.properties;
    let n = props.len() as int;
    let body = section_body(tree, ctx.keys, s, start);
    let entries = property_entries(ctx.keys, props);
    let names = property_names(props);
    let offsets = property_offsets(props);
    lemma_properties_layout(tree, ctx.keys, props, start, 0);
    lemma_part_of_part(ctx.block, target, section_size(s), 0, 2);
    assert(body.subrange(0, 2) =~= u16_le(n as u16));
    lemma_u16_at(ctx.block, target, n as u16);
    lemma_part_of_part(ctx.block, target, section_size(s), 2, 2 + 6 * n);
    assert(body.subrange(2, 2 + 6 * n) =~= entries.flatten());
    assert(entries =~= name_entries(ctx.keys, names, offsets));
    assert(section_names(s).subrange(1, 1 + n) =~= names);
    lemma_names_known_part(ctx.keys, section_names(s), 1, 1 + n);
    lemma_name_entries_from(ctx.block, ctx.keys, names, offsets, target + 2, 0, Seq::empty());
    assert(Seq::<(Seq<u8>, u32)>::empty() + name_rows(names, offsets).skip(0) =~= name_rows(
        names,
        offsets,
    ));
    lemma_properties_from(ctx, tree, s, start, target, 0, cursor, Seq::empty());
    assert(Seq::<PropertyModel>::empty() + props.skip(0) =~= props);
}

/// The names of the sections of a list.
pub open spec fn sections_names(sections: Seq<SectionModel>) -> Seq<Seq<u8>> {
    sections.map_values(|s: SectionModel| s.name)
}

/// The offsets of the bodies of the sections of a file from the start of
/// the file.
pub open spec fn section_offsets(sections: Seq<SectionModel>) -> Seq<int> {
    Seq::new(sections.len(), |q: int| 2 + 6 * sections.len() + sections_size(sections.take(q)))
}

/// What a reader needs to find a file in the index block `ctx.block`: its
/// body stands at `target`, its values start at bit `start`, and everything
/// in it can be written and read.
pub open spec fn file_stands(
    ctx: IndexContext,
    tree: HuffmanTree,
    f: FileModel,
    start: int,
    target: int,
) -> bool {
    &&& ctx.pairs == pair_table(tree)
    &&& ctx.keys.len() <= u16::MAX + 1
    &&& names_known(ctx.keys, file_names(f))
    &&& 0 <= start
    &&& f.sections.len() <= u16::MAX
    &&& section_counts_fit(f.sections)
    &&& file_size(f) <= u32::MAX
    &&& sections_fit(tree, f.sections, start)
    &&& values_decode(tree, ctx.data, ctx.max_length, file_values(f), start)
    &&& 0 <= target
    &&& target + file_size(f) <= ctx.block.len()
    &&& ctx.block.subrange(target, target + file_size(f)) == file_body(tree, ctx.keys, f, start)
}

/// The body of section `q` of a file stands at its offset.
#[verifier::rlimit(40)]
proof fn lemma_section_stands(
    ctx: IndexContext,
    tree: HuffmanTree,
    f: FileModel,
    start: int,
    target: int,
    q: int,
)
    requires
        file_stands(ctx, tree, f, start, target),
        0 <= q < f.sections.len(),
    ensures
        0 <= section_offsets(f.sections)[q] <= u32::MAX,
        section_stands(
            ctx,
            tree,
            f.sections[q],
            section_start(tree, f.sections, start, q),
            target + section_offsets(f.sections)[q],
        ),
{
    let sections = f.sections;
    let s = sections[q];
    let body = file_body(tree, ctx.keys, f, start);
    let bodies = section_bodies(tree, ctx.keys, sections, start);
    let entries = section_entries(ctx.keys, sections);
    let offset = section_offsets(sections)[q];
    let size = section_size(s);
    let n = sections.len() as int;
    lemma_sections_layout(tree, ctx.keys, sections, start, q);
    lemma_section_body_len(tree, ctx.keys, s, section_start(tree, sections, start, q));
    lemma_flatten_piece(bodies, q);
    let head = u16_le(n as u16) + entries.flatten();
    assert(body == head + bodies.flatten());
    assert(head.len() == 2 + 6 * n);
    assert(body.subrange(offset, offset + size) =~= bodies.flatten().subrange(
        sections_size(sections.take(q)),
        sections_size(sections.take(q)) + size,
    ));
    lemma_part_of_part(ctx.block, target, file_size(f), offset, offset + size);
    lemma_values_decode_piece(
        tree,
        ctx.data,
        ctx.max_length,
        sections,
        |s: SectionModel| section_values(s),
        start,
        q,
    );
    assert(section_fits(tree, sections, start, q));
    assert(s.properties.len() <= u16::MAX && property_counts_fit(s.properties));
    let names = file_names(f);
    let below = sections.map_values(|s: SectionModel| section_names(s)).flatten();
    assert(names.subrange(1, names.len() as int) =~= below);
    lemma_names_known_part(ctx.keys, names, 1, names.len() as int);
    lemma_names_known_piece(ctx.keys, sections, |s: SectionModel| section_names(s), q);
}

/// The name of section `q` of a file is known.
proof fn lemma_section_name_known(keys: Seq<Seq<u8>>, f: FileModel)
    requires
        names_known(keys, file_names(f)),
    ensures
        names_known(keys, sections_names(f.sections)),
{
    let sections = f.sections;
    let names = file_names(f);
    let below = sections.map_values(|s: SectionModel| section_names(s)).flatten();
    assert(names.subrange(1, names.len() as int) =~= below);
    lemma_names_known_part(keys, names, 1, names.len() as int);
    assert forall|q: int| 0 <= q < sections.len() implies keys.contains(
        #[trigger] sections_names(sections)[q],
    ) by {
        lemma_names_known_piece(keys, sections, |s: SectionModel| section_names(s), q);
        assert(section_names(sections[q])[0] == sections[q].name);
    }
}

/// A reader finds the sections of a file from section `from` on.
#[verifier::rlimit(40)]
proof fn lemma_sections_from(
    ctx: IndexContext,
    tree: HuffmanTree,
    f: FileModel,
    start: int,
    target: int,
    from: int,
    cursor: int,
    acc: Seq<SectionModel>,
)
    requires
        file_stands(ctx, tree, f, start, target),
        0 <= from <= f.sections.len(),
    ensures
        match sections_from(
            ctx,
            target,
            name_rows(sections_names(f.sections), section_offsets(f.sections)),
            from,
            cursor,
            acc,
        ) {
            Ok(read) => read.0 == acc + f.sections.skip(from),
            Err(_) => false,
        },
    decreases f.sections.len() - from,
{
    let sections = f.sections;
    let rows = name_rows(sections_names(sections), section_offsets(sections));
    if from >= sections.len() {
        assert(acc + sections.skip(from) =~= acc);
    } else {
        let s = sections[from];
        let begin = section_start(tree, sections, start, from);
        lemma_section_stands(ctx, tree, f, start, target, from);
        let at = target + section_offsets(sections)[from];
        assert(rows[from] == (s.name, section_offsets(sections)[from] as u32));
        let count = s.properties.len() as u16;
        let below = name_rows(property_names(s.properties), property_offsets(s.properties));
        lemma_section_at(ctx, tree, s, begin, at, at + 2 + 6 * count);
        let inner = properties_from(ctx, at, below, 0, at + 2 + 6 * count, Seq::empty());
        assert(inner is Ok);
        let read = inner->Ok_0;
        assert(read.0 == s.properties);
        let section = SectionModel { name: rows[from].0, properties: read.0 };
        assert(section == s);
        lemma_sections_from(ctx, tree, f, start, target, from + 1, read.1, acc.push(s));
        assert(acc.push(s) + sections.skip(from + 1) =~= acc + sections.skip(from));
    }
}

/// A reader finds a file where its body stands.
#[verifier::rlimit(40)]
pub proof fn lemma_file_at(
    ctx: IndexContext,
    tree: HuffmanTree,
    f: FileModel,
    start: int,
    target: int,
    cursor: int,
)
    requires
        file_stands(ctx, tree, f, start, target),
    ensures
        u16_at(ctx.block, target) == Ok::<u16, DecodeError>(f.sections.len() as u16),
        name_entries_from(ctx.block, ctx.keys, target + 2, f.sections.len(), Seq::empty()) == Ok::<
            Seq<(Seq<u8>, u32)>,
            DecodeError,
        >(name_rows(sections_names(f.sections), section_offsets(f.sections))),
        match sections_from(
            ctx,
            target,
            name_rows(sections_names(f.sections), section_offsets(f.sections)),
            0,
            cursor,
            Seq::empty(),
        ) {
            Ok(read) => read.0 == f.sections,
            Err(_) => false,
        },
{
    let sections = f.sections;
    let n = sections.len() as int;
    let body = file_body(tree, ctx.keys, f, start);
    let entries = section_entries(ctx.keys, sections);
    let names = sections_names(sections);
    let offsets = section_offsets(sections);
    lemma_sections_layout(tree, ctx.keys, sections, start, 0);
    lemma_part_of_part(ctx.block, target, file_size(f), 0, 2);
    assert(body.subrange(0, 2) =~= u16_le(n as u16));
    lemma_u16_at(ctx.block, target, n as u16);
    lemma_part_of_part(ctx.block, target, file_size(f), 2, 2 + 6 * n);
    assert(body.subrange(2, 2 + 6 * n) =~= entries.flatten());
    assert(entries =~= name_entries(ctx.keys, names, offsets));
    lemma_section_name_known(ctx.keys, f);
    lemma_name_entries_from(ctx.block, ctx.keys, names, offsets, target + 2, 0, Seq::empty());
    assert(Seq::<(Seq<u8>, u32)>::empty() + name_rows(names, offsets).skip(0) =~= name_rows(
        names,
        offsets,
    ));
    lemma_sections_from(ctx, tree, f, start, target, 0, cursor, Seq::empty());
    assert(Seq::<SectionModel>::empty() + sections.skip(0) =~= sections);
}

/// The paths of the files of a list.
pub open spec fn files_paths(files: Seq<FileModel>) -> Seq<Seq<u8>> {
    files.map_values(|f: FileModel| f.path)
}

/// The offsets of the bodies of the files from the start of the index
/// block.
pub open spec fn file_offsets(files: Seq<FileModel>) -> Seq<int> {
    Seq::new(files.len(), |k: int| 2 + 6 * files.len() + files_size(files.take(k)))
}

/// What a reader needs to find the files in the index block: the block is
/// the index block of the files, and everything in it can be written and
/// read.
pub open spec fn index_stands(ctx: IndexContext, tree: HuffmanTree, files: Seq<FileModel>) -> bool {
    &&& ctx.pairs == pair_table(tree)
    &&& ctx.keys.len() <= u16::MAX + 1
    &&& names_known(ctx.keys, files_names(files))
    &&& files.len() <= u16::MAX
    &&& file_counts_fit(files)
    &&& index_size(files) <= u32::MAX
    &&& files_fit(tree, files, 0)
    &&& values_decode(tree, ctx.data, ctx.max_length, files_values(files), 0)
    &&& ctx.block == index_block(tree, ctx.keys, files)
}

/// The body of file `k` stands at its offset.
#[verifier::rlimit(40)]
proof fn lemma_file_stands(ctx: IndexContext, tree: HuffmanTree, files: Seq<FileModel>, k: int)
    requires
        index_stands(ctx, tree, files),
        0 <= k < files.len(),
    ensures
        0 <= file_offsets(files)[k] <= u32::MAX,
        file_stands(ctx, tree, files[k], file_start(tree, files, 0, k), file_offsets(files)[k]),
        keys_contain_path(ctx.keys, files, k),
{
    let f = files[k];
    let body = index_block(tree, ctx.keys, files);
    let bodies = file_bodies(tree, ctx.keys, files, 0);
    let entries = file_entries(ctx.keys, files);
    let offset = file_offsets(files)[k];
    let size = file_size(f);
    let n = files.len() as int;
    lemma_files_layout(tree, ctx.keys, files, 0, k);
    lemma_file_body_len(tree, ctx.keys, f, file_start(tree, files, 0, k));
    lemma_flatten_piece(bodies, k);
    let head = u16_le(n as u16) + entries.flatten();
    assert(body == head + bodies.flatten());
    assert(head.len() == 2 + 6 * n);
    assert(body.subrange(offset, offset + size) =~= bodies.flatten().subrange(
        files_size(files.take(k)),
        files_size(files.take(k)) + size,
    ));
    lemma_values_decode_piece(
        tree,
        ctx.data,
        ctx.max_length,
        files,
        |f: FileModel| file_values(f),
        0,
        k,
    );
    assert(file_fits(tree, files, 0, k));
    assert(f.sections.len() <= u16::MAX && section_counts_fit(f.sections));
    lemma_names_known_piece(ctx.keys, files, |f: FileModel| file_names(f), k);
    assert(file_names(f)[0] == f.path);
}

/// The path of file `k` stands in the string table.
pub open spec fn keys_contain_path(keys: Seq<Seq<u8>>, files: Seq<FileModel>, k: int) -> bool {
    keys.contains(files[k].path)
}

/// A reader finds the files from file `from` on.
#[verifier::rlimit(40)]
proof fn lemma_files_from(
    ctx: IndexContext,
    tree: HuffmanTree,
    files: Seq<FileModel>,
    from: int,
    cursor: int,
    acc: Seq<FileModel>,
)
    requires
        index_stands(ctx, tree, files),
        0 <= from <= files.len(),
    ensures
        match files_from(
            ctx,
            name_rows(files_paths(files), file_offsets(files)),
            from,
            cursor,
            acc,
        ) {
            Ok(read) => read.0 == acc + files.skip(from),
            Err(_) => false,
        },
    decreases files.len() - from,
{
    let rows = name_rows(files_paths(files), file_offsets(files));
    if from >= files.len() {
        assert(acc + files.skip(from) =~= acc);
    } else {
        let f = files[from];
        let begin = file_start(tree, files, 0, from);
        lemma_file_stands(ctx, tree, files, from);
        let at = file_offsets(files)[from];
        assert(rows[from] == (f.path, file_offsets(files)[from] as u32));
        let count = f.sections.len() as u16;
        let below = name_rows(sections_names(f.sections), section_offsets(f.sections));
        lemma_file_at(ctx, tree, f, begin, at, at + 2 + 6 * count);
        let inner = sections_from(ctx, at, below, 0, at + 2 + 6 * count, Seq::empty());
        assert(inner is Ok);
        let read = inner->Ok_0;
        assert(read.0 == f.sections);
        let file = FileModel { path: rows[from].0, sections: read.0 };
        assert(file == f);
        lemma_files_from(ctx, tree, files, from + 1, read.1, acc.push(f));
        assert(acc.push(f) + files.skip(from + 1) =~= acc + files.skip(from));
    }
}

/// A reader finds the files in the index block that was written for them.
#[verifier::rlimit(40)]
pub proof fn lemma_index_round_trip(ctx: IndexContext, tree: HuffmanTree, files: Seq<FileModel>)
    requires
        index_stands(ctx, tree, files),
    ensures
        parsed_index(ctx) == Ok::<Seq<FileModel>, DecodeError>(files),
{
    let n = files.len() as int;
    let body = index_block(tree, ctx.keys, files);
    let entries = file_entries(ctx.keys, files);
    let names = files_paths(files);
    let offsets = file_offsets(files);
    lemma_files_layout(tree, ctx.keys, files, 0, 0);
    assert(body.subrange(0, 2) =~= u16_le(n as u16));
    lemma_u16_at(ctx.block, 0, n as u16);
    assert(body.subrange(2, 2 + 6 * n) =~= entries.flatten());
    assert(entries =~= name_entries(ctx.keys, names, offsets));
    assert forall|k: int| 0 <= k < names.len() implies ctx.keys.contains(#[trigger] names[k]) by {
        lemma_file_stands(ctx, tree, files, k);
        assert(keys_contain_path(ctx.keys, files, k));
    }
    lemma_name_entries_from(ctx.block, ctx.keys, names, offsets, 2, 0, Seq::empty());
    assert(Seq::<(Seq<u8>, u32)>::empty() + name_rows(names, offsets).skip(0) =~= name_rows(
        names,
        offsets,
    ));
    lemma_files_from(ctx, tree, files, 0, 2 + 6 * (n as u16), Seq::empty());
    assert(Seq::<FileModel>::empty() + files.skip(0) =~= files);
}

} // verus!
