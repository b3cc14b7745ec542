use crate::coalesced::{
    all_values, file_values, files_values, section_values, value_tagged, COALESCED_HEADER_SIZE,
};
use crate::coalesced_parse::{
    block_at, files_from, name_entries_from, parsed_coalesced, parsed_coalesced_blocks,
    parsed_index, parsed_pair_block, parsed_string_table, properties_from, sections_from, u16_at,
    u32_at, value_of_word, values_from, IndexContext,
};
use crate::error::DecodeError;
use crate::flat::lemma_flatten_all;
use crate::shared::{CoalescedModel, FileModel, PropertyModel, SectionModel, ValueModel};
use crate::wire::words_from;
use vstd::prelude::*;

verus! {

/// Whether the tag and the text of every value of a list go together.
pub open spec fn values_tagged(values: Seq<ValueModel>) -> bool {
    forall|l: int| 0 <= l < values.len() ==> value_tagged(#[trigger] values[l])
}

/// Whether the tag and the text of every value of every property go
/// together.
pub open spec fn properties_tagged(props: Seq<PropertyModel>) -> bool {
    forall|r: int| 0 <= r < props.len() ==> values_tagged((#[trigger] props[r]).values)
}

/// Whether the tag and the text of every value of every section go
/// together.
pub open spec fn sections_tagged(sections: Seq<SectionModel>) -> bool {
    forall|q: int| 0 <= q < sections.len() ==> properties_tagged((#[trigger] sections[q]).properties)
}

/// Whether the tag and the text of every value of every file go together.
pub open spec fn files_tagged(files: Seq<FileModel>) -> bool {
    forall|k: int| 0 <= k < files.len() ==> sections_tagged((#[trigger] files[k]).sections)
}

/// The values that a reader finds have tags and texts that go together.
proof fn lemma_values_from_tagged(ctx: IndexContext, pos: int, remaining: nat, acc: Seq<ValueModel>)
    requires
        values_tagged(acc),
        values_from(ctx, pos, remaining, acc) is Ok,
    ensures
        values_tagged(values_from(ctx, pos, remaining, acc)->Ok_0),
    decreases remaining,
{
    if remaining > 0 {
        let word = u32_at(ctx.block, pos)->Ok_0;
        let value = value_of_word(ctx, word)->Ok_0;
        assert(value_tagged(value));
        let next = acc.push(value);
        assert forall|l: int| 0 <= l < next.len() implies value_tagged(#[trigger] next[l]) by {
            if l < acc.len() {
                assert(next[l] == acc[l]);
            }
        }
        lemma_values_from_tagged(ctx, pos + 4, (remaining - 1) as nat, next);
    }
}

/// The properties that a reader finds have tags and texts that go together.
proof fn lemma_properties_from_tagged(
    ctx: IndexContext,
    base: int,
    entries: Seq<(Seq<u8>, u32)>,
    from: int,
    cursor: int,
    acc: Seq<PropertyModel>,
)
    requires
        properties_tagged(acc),
        properties_from(ctx, base, entries, from, cursor, acc) is Ok,
    ensures
        properties_tagged(properties_from(ctx, base, entries, from, cursor, acc)->Ok_0.0),
    decreases entries.len() - from,
{
    if 0 <= from < entries.len() {
        let target = base + entries[from].1;
        let count = u16_at(ctx.block, target)->Ok_0;
        let values = values_from(ctx, target + 2, count as nat, Seq::empty())->Ok_0;
        lemma_values_from_tagged(ctx, target + 2, count as nat, Seq::empty());
        let property = PropertyModel { name: entries[from].0, values };
        let next = acc.push(property);
        assert forall|r: int| 0 <= r < next.len() implies values_tagged(
            (#[trigger] next[r]).values,
        ) by {
            if r < acc.len() {
                assert(next[r] == acc[r]);
            }
        }
        lemma_properties_from_tagged(ctx, base, entries, from + 1, target + 2 + 4 * count, next);
    }
}

/// The sections that a reader finds have tags and texts that go together.
proof fn lemma_sections_from_tagged(
    ctx: IndexContext,
    base: int,
    entries: Seq<(Seq<u8>, u32)>,
    from: int,
    cursor: int,
    acc: Seq<SectionModel>,
)
    requires
        sections_tagged(acc),
        sections_from(ctx, base, entries, from, cursor, acc) is Ok,
    ensures
        sections_tagged(sections_from(ctx, base, entries, from, cursor, acc)->Ok_0.0),
    decreases entries.len() - from,
{
    if 0 <= from < entries.len() {
        let target = base + entries[from].1;
        let count = u16_at(ctx.block, target)->Ok_0;
        let props = name_entries_from(ctx.block, ctx.keys, target + 2, count as nat, Seq::empty())->Ok_0;
        let read = properties_from(ctx, target, props, 0, target + 2 + 6 * count, Seq::empty())->Ok_0;
        lemma_properties_from_tagged(ctx, target, props, 0, target + 2 + 6 * count, Seq::empty());
        let section = SectionModel { name: entries[from].0, properties: read.0 };
        let next = acc.push(section);
        assert forall|q: int| 0 <= q < next.len() implies properties_tagged(
            (#[trigger] next[q]).properties,
        ) by {
            if q < acc.len() {
                assert(next[q] == acc[q]);
            }
        }
        lemma_sections_from_tagged(ctx, base, entries, from + 1, read.1, next);
    }
}

/// The files that a reader finds have tags and texts that go together.
proof fn lemma_files_from_tagged(
    ctx: IndexContext,
    entries: Seq<(Seq<u8>, u32)>,
    from: int,
    cursor: int,
    acc: Seq<FileModel>,
)
    requires
        files_tagged(acc),
        files_from(ctx, entries, from, cursor, acc) is Ok,
    ensures
        files_tagged(files_from(ctx, entries, from, cursor, acc)->Ok_0.0),
    decreases entries.len() - from,
{
    if 0 <= from < entries.len() {
        let target = entries[from].1 as int;
        let count = u16_at(ctx.block, target)->Ok_0;
        let sections = name_entries_from(
            ctx.block,
            ctx.keys,
            target + 2,
            count as nat,
            Seq::empty(),
        )->Ok_0;
        let read = sections_from(ctx, target, sections, 0, target + 2 + 6 * count, Seq::empty())->Ok_0;
        lemma_sections_from_tagged(ctx, target, sections, 0, target + 2 + 6 * count, Seq::empty());
        let file = FileModel { path: entries[from].0, sections: read.0 };
        let next = acc.push(file);
        assert forall|k: int| 0 <= k < next.len() implies sections_tagged(
            (#[trigger] next[k]).sections,
        ) by {
            if k < acc.len() {
                assert(next[k] == acc[k]);
            }
        }
        lemma_files_from_tagged(ctx, entries, from + 1, read.1, next);
    }
}

/// The values of files whose values have tags and texts that go together
/// have tags and texts that go together.
proof fn lemma_files_values_tagged(files: Seq<FileModel>)
    requires
        files_tagged(files),
    ensures
        values_tagged(files_values(files)),
{
    let tagged = |v: ValueModel| value_tagged(v);
    let by_file = files.map_values(|f: FileModel| file_values(f));
    assert forall|k: int, j: int|
        0 <= k < by_file.len() && 0 <= j < by_file[k].len() implies tagged(
        #[trigger] by_file[k][j],
    ) by {
        let sections = files[k].sections;
        assert(sections_tagged(sections));
        let by_section = sections.map_values(|s: SectionModel| section_values(s));
        assert forall|q: int, i: int|
            0 <= q < by_section.len() && 0 <= i < by_section[q].len() implies tagged(
            #[trigger] by_section[q][i],
        ) by {
            let props = sections[q].properties;
            assert(properties_tagged(props));
            let by_property = props.map_values(|p: PropertyModel| p.values);
            assert forall|r: int, l: int|
                0 <= r < by_property.len() && 0 <= l < by_property[r].len() implies tagged(
                #[trigger] by_property[r][l],
            ) by {
                assert(values_tagged(props[r].values));
                assert(value_tagged(props[r].values[l]));
            }
            lemma_flatten_all(by_property, tagged);
            assert(by_section[q] == by_property.flatten());
        }
        lemma_flatten_all(by_section, tagged);
        assert(by_file[k] == by_section.flatten());
    }
    lemma_flatten_all(by_file, tagged);
    assert forall|l: int| 0 <= l < files_values(files).len() implies value_tagged(
        #[trigger] files_values(files)[l],
    ) by {
        assert(tagged(by_file.flatten()[l]));
    }
}

/// In every document that a reader gives back, the tag and the text of
/// every value go together: `RemoveProperty` comes without a text and every
/// other tag with one.
pub proof fn lemma_parsed_values_tagged(bytes: Seq<u8>)
    requires
        parsed_coalesced(bytes) is Ok,
    ensures
        values_tagged(all_values(parsed_coalesced(bytes)->Ok_0)),
{
    let c = parsed_coalesced(bytes)->Ok_0;
    let fields = words_from(bytes, 4, 7, Seq::empty())->Ok_0;
    let table = block_at(
        bytes,
        COALESCED_HEADER_SIZE as int,
        fields[3] as int,
    )->Ok_0;
    let keys = parsed_string_table(table, fields[3])->Ok_0;
    assert(parsed_coalesced_blocks(bytes, fields, keys) == Ok::<
        CoalescedModel,
        DecodeError,
    >(c));
    let huffman_at = COALESCED_HEADER_SIZE + fields[3];
    let index_at = huffman_at + fields[4];
    let data_at = index_at + fields[5] + 4;
    let huffman = block_at(bytes, huffman_at, fields[4] as int)->Ok_0;
    let pairs = parsed_pair_block(huffman)->Ok_0;
    let index = block_at(bytes, index_at, fields[5] as int)->Ok_0;
    let data = block_at(bytes, data_at, fields[6] as int)->Ok_0;
    let ctx = IndexContext { block: index, keys, pairs, data, max_length: fields[2] as int };
    assert(parsed_index(ctx) == Ok::<Seq<FileModel>, DecodeError>(c.files));
    let count = u16_at(ctx.block, 0)->Ok_0;
    let entries = name_entries_from(ctx.block, ctx.keys, 2, count as nat, Seq::empty())->Ok_0;
    lemma_files_from_tagged(ctx, entries, 0, 2 + 6 * count, Seq::empty());
    lemma_files_values_tagged(c.files);
}

} // verus!
