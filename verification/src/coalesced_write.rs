use crate::bits::BitAccumulator;
use crate::coalesced::{
    file_bodies, file_body, file_counts_fit, file_entries, file_fits, file_size, file_start,
    file_values, files_fit, files_size, files_values, index_block, index_size, key_entries,
    key_record, key_records, keys_fit, layout_fits, longest, name_entry, packed_value, pair_block,
    properties_fit, properties_size, properties_values, property_bodies, property_body,
    property_counts_fit, property_entries, property_fits, property_size, property_start,
    section_bodies, section_body, section_counts_fit, section_entries, section_fits, section_size,
    section_start, section_values, sections_fit, sections_size, sections_values, string_table,
    string_table_size, value_bits, value_fits, value_symbols, value_words, values_bits, values_fit,
    values_symbols, written_text, written_texts, OFFSET_LIMIT,
};
use crate::collect::value_refs_view;
use crate::crc32::hash_crc32;
use crate::flat::{
    lemma_flat_map_concat, lemma_flat_map_empty, lemma_flat_map_piece, lemma_flat_map_step,
    lemma_flatten_fixed, lemma_flatten_split, lemma_sized_pieces, lemma_total_size_bounds,
    lemma_total_size_step, total_size,
};
use crate::huffman::{
    counted_all, lemma_counted_all_concat, no_counts, symbols_of, FrequencyMap, Huffman,
    HuffmanTree,
};
use crate::keys::{find_key, refs_view};
use crate::ser::{
    append_signed_pairs, append_slice, append_u16, append_u32, append_word_pairs, append_words,
    WriteBuffer,
};
use crate::shared::{
    files_view, properties_view, sections_view, values_view, CoalFile, FileModel, Property,
    PropertyModel, Section, SectionModel, Value, ValueModel, ValueType,
};
use crate::wire::{
    lemma_word_bytes_concat, lemma_word_bytes_len, lemma_word_bytes_push, pair_words, word_bytes,
};
use vstd::prelude::*;

verus! {

/// The bit stream of two lists of values, one after the other.
pub proof fn lemma_values_bits_concat(
    tree: HuffmanTree,
    first: Seq<ValueModel>,
    second: Seq<ValueModel>,
)
    ensures
        values_bits(tree, first + second) == values_bits(tree, first) + values_bits(tree, second),
{
    lemma_flat_map_concat(first, second, |v: ValueModel| value_bits(tree, v));
}

/// The bit stream of the first `l + 1` values.
pub proof fn lemma_values_bits_step(tree: HuffmanTree, values: Seq<ValueModel>, l: int)
    requires
        0 <= l < values.len(),
    ensures
        values_bits(tree, values.take(l + 1)) == values_bits(tree, values.take(l)) + value_bits(
            tree,
            values[l],
        ),
        values_bits(tree, values.take(0)) == Seq::<bool>::empty(),
{
    lemma_flat_map_step(values, |v: ValueModel| value_bits(tree, v), l);
    lemma_flat_map_empty(values.take(0), |v: ValueModel| value_bits(tree, v));
}

/// The bit at which the values of the next property start.
pub proof fn lemma_property_start_step(
    tree: HuffmanTree,
    props: Seq<PropertyModel>,
    start: int,
    r: int,
)
    requires
        0 <= r < props.len(),
    ensures
        property_start(tree, props, start, r + 1) == property_start(tree, props, start, r)
            + values_bits(tree, props[r].values).len(),
        property_start(tree, props, start, 0) == start,
        properties_values(props.take(r + 1)) == properties_values(props.take(r)) + props[r].values,
        values_bits(tree, properties_values(props.take(r + 1))) == values_bits(
            tree,
            properties_values(props.take(r)),
        ) + values_bits(tree, props[r].values),
{
    lemma_flat_map_step(props, |p: PropertyModel| p.values, r);
    lemma_flat_map_empty(props.take(0), |p: PropertyModel| p.values);
    lemma_values_bits_concat(tree, properties_values(props.take(r)), props[r].values);
    lemma_flat_map_empty(
        properties_values(props.take(0)),
        |v: ValueModel| value_bits(tree, v),
    );
}

/// The bit at which the values of the next section start.
pub proof fn lemma_section_start_step(
    tree: HuffmanTree,
    sections: Seq<SectionModel>,
    start: int,
    q: int,
)
    requires
        0 <= q < sections.len(),
    ensures
        section_start(tree, sections, start, q + 1) == section_start(tree, sections, start, q)
            + values_bits(tree, section_values(sections[q])).len(),
        section_start(tree, sections, start, 0) == start,
        sections_values(sections.take(q + 1)) == sections_values(sections.take(q))
            + section_values(sections[q]),
        values_bits(tree, sections_values(sections.take(q + 1))) == values_bits(
            tree,
            sections_values(sections.take(q)),
        ) + values_bits(tree, section_values(sections[q])),
{
    lemma_flat_map_step(sections, |s: SectionModel| section_values(s), q);
    lemma_flat_map_empty(sections.take(0), |s: SectionModel| section_values(s));
    lemma_values_bits_concat(tree, sections_values(sections.take(q)), section_values(sections[q]));
    lemma_flat_map_empty(
        sections_values(sections.take(0)),
        |v: ValueModel| value_bits(tree, v),
    );
}

/// The bit at which the values of the next file start.
pub proof fn lemma_file_start_step(tree: HuffmanTree, files: Seq<FileModel>, start: int, k: int)
    requires
        0 <= k < files.len(),
    ensures
        file_start(tree, files, start, k + 1) == file_start(tree, files, start, k) + values_bits(
            tree,
            file_values(files[k]),
        ).len(),
        file_start(tree, files, start, 0) == start,
        files_values(files.take(k + 1)) == files_values(files.take(k)) + file_values(files[k]),
        values_bits(tree, files_values(files.take(k + 1))) == values_bits(
            tree,
            files_values(files.take(k)),
        ) + values_bits(tree, file_values(files[k])),
{
    lemma_flat_map_step(files, |f: FileModel| file_values(f), k);
    lemma_flat_map_empty(files.take(0), |f: FileModel| file_values(f));
    lemma_values_bits_concat(tree, files_values(files.take(k)), file_values(files[k]));
    lemma_flat_map_empty(files_values(files.take(0)), |v: ValueModel| value_bits(tree, v));
}

/// An entry of a table of names has six bytes.
pub proof fn lemma_name_entry_len(keys: Seq<Seq<u8>>, name: Seq<u8>, offset: int)
    ensures
        name_entry(keys, name, offset).len() == 6,
{
}

/// The body of a property has the size of the property.
pub proof fn lemma_property_body_len(tree: HuffmanTree, p: PropertyModel, start: int)
    ensures
        property_body(tree, p, start).len() == property_size(p),
        property_size(p) >= 2,
{
    lemma_word_bytes_len(value_words(tree, p.values, start));
}

/// Where the entries and the bodies of the properties of a section stand.
#[verifier::rlimit(40)]
pub proof fn lemma_properties_layout(
    tree: HuffmanTree,
    keys: Seq<Seq<u8>>,
    props: Seq<PropertyModel>,
    start: int,
    r: int,
)
    requires
        0 <= r <= props.len(),
    ensures
        property_entries(keys, props).take(r).flatten().len() == 6 * r,
        property_entries(keys, props).flatten().len() == 6 * props.len(),
        property_bodies(tree, props, start).take(r).flatten().len() == properties_size(
            props.take(r),
        ),
        property_bodies(tree, props, start).flatten().len() == properties_size(props),
        0 <= properties_size(props.take(r)) <= properties_size(props),
        r < props.len() ==> properties_size(props.take(r)) + property_size(props[r])
            <= properties_size(props),
        r < props.len() ==> properties_size(props.take(r + 1)) == properties_size(props.take(r))
            + property_size(props[r]),
{
    let size = |p: PropertyModel| property_size(p);
    let bodies = property_bodies(tree, props, start);
    let entries = property_entries(keys, props);
    assert forall|j: int| 0 <= j < props.len() implies (#[trigger] bodies[j]).len() == size(
        props[j],
    ) by {
        lemma_property_body_len(tree, props[j], property_start(tree, props, start, j));
    }
    assert forall|j: int| 0 <= j < props.len() implies size(#[trigger] props[j]) >= 0 by {
        lemma_property_body_len(tree, props[j], 0);
    }
    lemma_sized_pieces(props, size, bodies, r);
    lemma_sized_pieces(props, size, bodies, props.len() as int);
    assert(bodies.take(props.len() as int) =~= bodies);
    assert(props.take(props.len() as int) =~= props);
    lemma_total_size_bounds(props, size, r);
    if r < props.len() {
        lemma_total_size_step(props, size, r);
    }
    lemma_flatten_fixed(entries, 6, r);
}

/// The body of a section has the size of the section.
pub proof fn lemma_section_body_len(
    tree: HuffmanTree,
    keys: Seq<Seq<u8>>,
    s: SectionModel,
    start: int,
)
    ensures
        section_body(tree, keys, s, start).len() == section_size(s),
        section_size(s) >= 2,
{
    lemma_properties_layout(tree, keys, s.properties, start, 0);
}

/// Where the entries and the bodies of the sections of a file stand.
#[verifier::rlimit(40)]
pub proof fn lemma_sections_layout(
    tree: HuffmanTree,
    keys: Seq<Seq<u8>>,
    sections: Seq<SectionModel>,
    start: int,
    q: int,
)
    requires
        0 <= q <= sections.len(),
    ensures
        section_entries(keys, sections).take(q).flatten().len() == 6 * q,
        section_entries(keys, sections).flatten().len() == 6 * sections.len(),
        section_bodies(tree, keys, sections, start).take(q).flatten().len() == sections_size(
            sections.take(q),
        ),
        section_bodies(tree, keys, sections, start).flatten().len() == sections_size(sections),
        0 <= sections_size(sections.take(q)) <= sections_size(sections),
        q < sections.len() ==> sections_size(sections.take(q)) + section_size(sections[q])
            <= sections_size(sections),
        q < sections.len() ==> sections_size(sections.take(q + 1)) == sections_size(
            sections.take(q),
        ) + section_size(sections[q]),
{
    let size = |s: SectionModel| section_size(s);
    let bodies = section_bodies(tree, keys, sections, start);
    let entries = section_entries(keys, sections);
    assert forall|j: int| 0 <= j < sections.len() implies (#[trigger] bodies[j]).len() == size(
        sections[j],
    ) by {
        lemma_section_body_len(tree, keys, sections[j], section_start(tree, sections, start, j));
    }
    assert forall|j: int| 0 <= j < sections.len() implies size(#[trigger] sections[j]) >= 0 by {
        lemma_section_body_len(tree, keys, sections[j], 0);
    }
    lemma_sized_pieces(sections, size, bodies, q);
    lemma_sized_pieces(sections, size, bodies, sections.len() as int);
    assert(bodies.take(sections.len() as int) =~= bodies);
    assert(sections.take(sections.len() as int) =~= sections);
    lemma_total_size_bounds(sections, size, q);
    if q < sections.len() {
        lemma_total_size_step(sections, size, q);
    }
    lemma_flatten_fixed(entries, 6, q);
}

/// The body of a file has the size of the file.
pub proof fn lemma_file_body_len(tree: HuffmanTree, keys: Seq<Seq<u8>>, f: FileModel, start: int)
    ensures
        file_body(tree, keys, f, start).len() == file_size(f),
        file_size(f) >= 2,
{
    lemma_sections_layout(tree, keys, f.sections, start, 0);
}

/// Where the entries and the bodies of the files of the index block stand.
#[verifier::rlimit(40)]
pub proof fn lemma_files_layout(
    tree: HuffmanTree,
    keys: Seq<Seq<u8>>,
    files: Seq<FileModel>,
    start: int,
    k: int,
)
    requires
        0 <= k <= files.len(),
    ensures
        file_entries(keys, files).take(k).flatten().len() == 6 * k,
        file_entries(keys, files).flatten().len() == 6 * files.len(),
        file_bodies(tree, keys, files, start).take(k).flatten().len() == files_size(files.take(k)),
        file_bodies(tree, keys, files, start).flatten().len() == files_size(files),
        0 <= files_size(files.take(k)) <= files_size(files),
        k < files.len() ==> files_size(files.take(k)) + file_size(files[k]) <= files_size(files),
        k < files.len() ==> files_size(files.take(k + 1)) == files_size(files.take(k)) + file_size(
            files[k],
        ),
{
    let size = |f: FileModel| file_size(f);
    let bodies = file_bodies(tree, keys, files, start);
    let entries = file_entries(keys, files);
    assert forall|j: int| 0 <= j < files.len() implies (#[trigger] bodies[j]).len() == size(
        files[j],
    ) by {
        lemma_file_body_len(tree, keys, files[j], file_start(tree, files, start, j));
    }
    assert forall|j: int| 0 <= j < files.len() implies size(#[trigger] files[j]) >= 0 by {
        lemma_file_body_len(tree, keys, files[j], 0);
    }
    lemma_sized_pieces(files, size, bodies, k);
    lemma_sized_pieces(files, size, bodies, files.len() as int);
    assert(bodies.take(files.len() as int) =~= bodies);
    assert(files.take(files.len() as int) =~= files);
    lemma_total_size_bounds(files, size, k);
    if k < files.len() {
        lemma_total_size_step(files, size, k);
    }
    lemma_flatten_fixed(entries, 6, k);
}

/// The index block has the size that the sizes of the files sum up to.
pub proof fn lemma_index_block_len(tree: HuffmanTree, keys: Seq<Seq<u8>>, files: Seq<FileModel>)
    ensures
        index_block(tree, keys, files).len() == index_size(files),
        index_size(files) >= 2,
{
    lemma_files_layout(tree, keys, files, 0, 0);
}

/// The text of a value that is written.
fn text_to_write(value: &Value) -> (text: Option<&Vec<u8>>)
    ensures
        match text {
            Some(t) => written_text(value@) == Some(t@),
            None => written_text(value@).is_none(),
        },
{
    match value.ty {
        ValueType::RemoveProperty => None,
        _ => value.text.as_ref(),
    }
}

/// Writes the words of the values of a property, and their texts to the bit
/// stream; stops at the first value that cannot be written and tells
/// whether it came to the end.
#[verifier::rlimit(40)]
fn emit_values(
    values: &Vec<Value>,
    huffman: &Huffman<u8>,
    bits: &mut BitAccumulator,
    out: &mut WriteBuffer,
) -> (done: bool)
    requires
        old(out).at_end(),
        old(out).buffer@.len() + 4 * values@.len() <= usize::MAX,
    ensures
        done == values_fit(huffman.tree(), values_view(values@), old(bits)@.len() as int),
        done ==> final(bits)@ == old(bits)@ + values_bits(huffman.tree(), values_view(values@)),
        done ==> final(out).at_end(),
        done ==> final(out).buffer@ == old(out).buffer@ + word_bytes(
            value_words(huffman.tree(), values_view(values@), old(bits)@.len() as int),
        ),
{
    let ghost tree = huffman.tree();
    let ghost model = values_view(values@);
    let ghost start = bits@.len() as int;
    let ghost words = value_words(tree, model, start);
    let mut l: usize = 0;
    proof {
        lemma_flat_map_empty(model.take(0), |v: ValueModel| value_bits(tree, v));
        assert(bits@ + Seq::<bool>::empty() =~= bits@);
        assert(word_bytes(words.take(0)) =~= Seq::<u8>::empty());
        assert(out.buffer@ + Seq::<u8>::empty() =~= out.buffer@);
    }
    while l < values.len()
        invariant
            l <= values.len(),
            tree == huffman.tree(),
            model == values_view(values@),
            start == old(bits)@.len(),
            words == value_words(tree, model, start),
            out.at_end(),
            old(out).buffer@.len() + 4 * values@.len() <= usize::MAX,
            bits@ == old(bits)@ + values_bits(tree, model.take(l as int)),
            out.buffer@ == old(out).buffer@ + word_bytes(words.take(l as int)),
            forall|j: int| 0 <= j < l ==> #[trigger] value_fits(tree, model, start, j),
        decreases values.len() - l,
    {
        let value = &values[l];
        proof {
            lemma_values_bits_step(tree, model, l as int);
            lemma_word_bytes_len(words.take(l as int));
            lemma_word_bytes_push(words.take(l as int), words[l as int]);
            assert(words.take(l as int).push(words[l as int]) =~= words.take(l + 1));
            assert(model[l as int] == value@);
        }
        let bit_offset = bits.len();
        if bit_offset >= OFFSET_LIMIT as usize {
            assert(!value_fits(tree, model, start, l as int));
            return false;
        }
        match text_to_write(value) {
            Some(text) => {
                if !huffman.try_encode_terminated(text.as_slice(), bits) {
                    assert(!value_fits(tree, model, start, l as int));
                    return false;
                }
            },
            None => {
                assert(bits@ + Seq::<bool>::empty() =~= bits@);
            },
        }
        // Combine the type and the offset
        let word: u32 = (value.ty.code() as u32) * OFFSET_LIMIT + bit_offset as u32;
        assert(word == packed_value(value@.ty, bit_offset as int));
        append_u32(out, word);
        proof {
            assert(value_fits(tree, model, start, l as int));
            assert(bits@ =~= old(bits)@ + values_bits(tree, model.take(l + 1)));
            assert(out.buffer@ =~= old(out).buffer@ + word_bytes(words.take(l + 1)));
        }
        l += 1;
    }
    proof {
        assert(model.take(l as int) =~= model);
        assert(words.take(l as int) =~= words);
    }
    true
}

/// Writes the body of a property, and the texts of its values to the bit
/// stream; tells whether every value could be written.
fn emit_property(
    property: &Property,
    huffman: &Huffman<u8>,
    bits: &mut BitAccumulator,
    out: &mut WriteBuffer,
) -> (done: bool)
    requires
        old(out).at_end(),
        old(out).buffer@.len() + property_size(property@) <= usize::MAX,
    ensures
        done == values_fit(huffman.tree(), property@.values, old(bits)@.len() as int),
        done ==> final(bits)@ == old(bits)@ + values_bits(huffman.tree(), property@.values),
        done ==> final(out).at_end(),
        done ==> final(out).buffer@ == old(out).buffer@ + property_body(
            huffman.tree(),
            property@,
            old(bits)@.len() as int,
        ),
{
    append_u16(out, property.values.len() as u16);
    let done = emit_values(&property.values, huffman, bits, out);
    proof {
        if done {
            assert(out.buffer@ =~= old(out).buffer@ + property_body(
                huffman.tree(),
                property@,
                old(bits)@.len() as int,
            ));
        }
    }
    done
}

/// Writes an entry of a table of names: the index of the name in the string
/// table, and an offset.
fn emit_name_entry(keys: &Vec<&Vec<u8>>, name: &Vec<u8>, offset: usize, out: &mut WriteBuffer)
    requires
        old(out).at_end(),
        old(out).buffer@.len() + 6 <= usize::MAX,
    ensures
        final(out).at_end(),
        final(out).buffer@ == old(out).buffer@ + name_entry(refs_view(keys@), name@, offset as int),
{
    let name_index = find_key(keys, name);
    append_u16(out, name_index as u16);
    append_u32(out, offset as u32);
    assert(out.buffer@ =~= old(out).buffer@ + name_entry(refs_view(keys@), name@, offset as int));
}

/// Writes the entries of the properties of a section.
#[verifier::rlimit(40)]
fn emit_property_entries(props: &Vec<Property>, keys: &Vec<&Vec<u8>>, out: &mut WriteBuffer)
    requires
        old(out).at_end(),
        old(out).buffer@.len() + 6 * props@.len() <= usize::MAX,
        2 + 6 * props@.len() + properties_size(properties_view(props@)) <= usize::MAX,
    ensures
        final(out).at_end(),
        final(out).buffer@ == old(out).buffer@ + property_entries(
            refs_view(keys@),
            properties_view(props@),
        ).flatten(),
{
    let ghost model = properties_view(props@);
    let ghost names = refs_view(keys@);
    let ghost entries = property_entries(names, model);
    let ghost tree = HuffmanTree::Leaf(0, 0);
    let count = props.len();
    let mut offset: usize = 2 + 6 * count;
    let mut r: usize = 0;
    proof {
        lemma_properties_layout(tree, names, model, 0, 0);
        assert(entries.take(0) =~= Seq::<Seq<u8>>::empty());
        assert(out.buffer@ + Seq::<u8>::empty() =~= out.buffer@);
    }
    while r < count
        invariant
            r <= count,
            count == props@.len(),
            model == properties_view(props@),
            names == refs_view(keys@),
            entries == property_entries(names, model),
            out.at_end(),
            old(out).buffer@.len() + 6 * count <= usize::MAX,
            2 + 6 * count + properties_size(model) <= usize::MAX,
            offset == 2 + 6 * count + properties_size(model.take(r as int)),
            out.buffer@ == old(out).buffer@ + entries.take(r as int).flatten(),
        decreases count - r,
    {
        proof {
            lemma_properties_layout(tree, names, model, 0, r as int);
            lemma_flatten_split(entries, r as int);
            assert(model[r as int] == props@[r as int]@);
        }
        emit_name_entry(keys, &props[r].name, offset, out);
        offset = offset + (2 + 4 * props[r].values.len());
        r += 1;
        assert(out.buffer@ =~= old(out).buffer@ + entries.take(r as int).flatten());
    }
    assert(entries.take(r as int) =~= entries);
}

/// Writes the bodies of the properties of a section, and the texts of
/// their values to the bit stream; tells whether every value could be
/// written.
#[verifier::rlimit(40)]
fn emit_properties(
    props: &Vec<Property>,
    huffman: &Huffman<u8>,
    bits: &mut BitAccumulator,
    out: &mut WriteBuffer,
) -> (done: bool)
    requires
        old(out).at_end(),
        old(out).buffer@.len() + properties_size(properties_view(props@)) <= usize::MAX,
    ensures
        done == properties_fit(huffman.tree(), properties_view(props@), old(bits)@.len() as int),
        done ==> final(bits)@ == old(bits)@ + values_bits(
            huffman.tree(),
            properties_values(properties_view(props@)),
        ),
        done ==> final(out).at_end(),
        done ==> final(out).buffer@ == old(out).buffer@ + property_bodies(
            huffman.tree(),
            properties_view(props@),
            old(bits)@.len() as int,
        ).flatten(),
{
    let ghost tree = huffman.tree();
    let ghost model = properties_view(props@);
    let ghost start = bits@.len() as int;
    let ghost bodies = property_bodies(tree, model, start);
    let mut r: usize = 0;
    proof {
        lemma_flat_map_empty(model.take(0), |p: PropertyModel| p.values);
        lemma_flat_map_empty(properties_values(model.take(0)), |v: ValueModel| value_bits(tree, v));
        assert(bits@ + Seq::<bool>::empty() =~= bits@);
        assert(bodies.take(0) =~= Seq::<Seq<u8>>::empty());
        assert(out.buffer@ + Seq::<u8>::empty() =~= out.buffer@);
    }
    while r < props.len()
        invariant
            r <= props.len(),
            tree == huffman.tree(),
            model == properties_view(props@),
            start == old(bits)@.len(),
            bodies == property_bodies(tree, model, start),
            out.at_end(),
            old(out).buffer@.len() + properties_size(model) <= usize::MAX,
            bits@ == old(bits)@ + values_bits(tree, properties_values(model.take(r as int))),
            out.buffer@ == old(out).buffer@ + bodies.take(r as int).flatten(),
            forall|j: int| 0 <= j < r ==> #[trigger] property_fits(tree, model, start, j),
        decreases props.len() - r,
    {
        proof {
            lemma_properties_layout(tree, Seq::empty(), model, start, r as int);
            lemma_property_start_step(tree, model, start, r as int);
            lemma_flatten_split(bodies, r as int);
            assert(model[r as int] == props@[r as int]@);
        }
        if !emit_property(&props[r], huffman, bits, out) {
            assert(!property_fits(tree, model, start, r as int));
            return false;
        }
        proof {
            assert(property_fits(tree, model, start, r as int));
            assert(bits@ =~= old(bits)@ + values_bits(tree, properties_values(model.take(r + 1))));
            assert(out.buffer@ =~= old(out).buffer@ + bodies.take(r + 1).flatten());
        }
        r += 1;
    }
    proof {
        assert(model.take(r as int) =~= model);
        assert(bodies.take(r as int) =~= bodies);
    }
    true
}

/// Writes the body of a section, and the texts of its values to the bit
/// stream; tells whether every value could be written.
fn emit_section(
    section: &Section,
    keys: &Vec<&Vec<u8>>,
    huffman: &Huffman<u8>,
    bits: &mut BitAccumulator,
    out: &mut WriteBuffer,
) -> (done: bool)
    requires
        old(out).at_end(),
        old(out).buffer@.len() + section_size(section@) <= usize::MAX,
    ensures
        done == properties_fit(huffman.tree(), section@.properties, old(bits)@.len() as int),
        done ==> final(bits)@ == old(bits)@ + values_bits(huffman.tree(), section_values(section@)),
        done ==> final(out).at_end(),
        done ==> final(out).buffer@ == old(out).buffer@ + section_body(
            huffman.tree(),
            refs_view(keys@),
            section@,
            old(bits)@.len() as int,
        ),
{
    proof {
        lemma_properties_layout(huffman.tree(), refs_view(keys@), section@.properties, 0, 0);
    }
    append_u16(out, section.properties.len() as u16);
    emit_property_entries(&section.properties, keys, out);
    let done = emit_properties(&section.properties, huffman, bits, out);
    proof {
        if done {
            assert(out.buffer@ =~= old(out).buffer@ + section_body(
                huffman.tree(),
                refs_view(keys@),
                section@,
                old(bits)@.len() as int,
            ));
        }
    }
    done
}

/// Writes the entries of the sections of a file.
#[verifier::rlimit(40)]
fn emit_section_entries(sections: &Vec<Section>, keys: &Vec<&Vec<u8>>, out: &mut WriteBuffer)
    requires
        old(out).at_end(),
        old(out).buffer@.len() + 6 * sections@.len() <= usize::MAX,
        2 + 6 * sections@.len() + sections_size(sections_view(sections@)) <= usize::MAX,
    ensures
        final(out).at_end(),
        final(out).buffer@ == old(out).buffer@ + section_entries(
            refs_view(keys@),
            sections_view(sections@),
        ).flatten(),
{
    let ghost model = sections_view(sections@);
    let ghost names = refs_view(keys@);
    let ghost entries = section_entries(names, model);
    let ghost tree = HuffmanTree::Leaf(0, 0);
    let count = sections.len();
    let mut offset: usize = 2 + 6 * count;
    let mut q: usize = 0;
    proof {
        lemma_sections_layout(tree, names, model, 0, 0);
        assert(entries.take(0) =~= Seq::<Seq<u8>>::empty());
        assert(out.buffer@ + Seq::<u8>::empty() =~= out.buffer@);
    }
    while q < count
        invariant
            q <= count,
            count == sections@.len(),
            model == sections_view(sections@),
            names == refs_view(keys@),
            entries == section_entries(names, model),
            out.at_end(),
            old(out).buffer@.len() + 6 * count <= usize::MAX,
            2 + 6 * count + sections_size(model) <= usize::MAX,
            offset == 2 + 6 * count + sections_size(model.take(q as int)),
            out.buffer@ == old(out).buffer@ + entries.take(q as int).flatten(),
        decreases count - q,
    {
        proof {
            lemma_sections_layout(tree, names, model, 0, q as int);
            lemma_flatten_split(entries, q as int);
            assert(model[q as int] == sections@[q as int]@);
        }
        emit_name_entry(keys, &sections[q].name, offset, out);
        let size = checked_section_size(&sections[q]);
        offset = offset + size.unwrap();
        q += 1;
        assert(out.buffer@ =~= old(out).buffer@ + entries.take(q as int).flatten());
    }
    assert(entries.take(q as int) =~= entries);
}

/// Writes the bodies of the sections of a file, and the texts of their
/// values to the bit stream; tells whether every value could be written.
#[verifier::rlimit(40)]
fn emit_sections(
    sections: &Vec<Section>,
    keys: &Vec<&Vec<u8>>,
    huffman: &Huffman<u8>,
    bits: &mut BitAccumulator,
    out: &mut WriteBuffer,
) -> (done: bool)
    requires
        old(out).at_end(),
        old(out).buffer@.len() + sections_size(sections_view(sections@)) <= usize::MAX,
    ensures
        done == sections_fit(huffman.tree(), sections_view(sections@), old(bits)@.len() as int),
        done ==> final(bits)@ == old(bits)@ + values_bits(
            huffman.tree(),
            sections_values(sections_view(sections@)),
        ),
        done ==> final(out).at_end(),
        done ==> final(out).buffer@ == old(out).buffer@ + section_bodies(
            huffman.tree(),
            refs_view(keys@),
            sections_view(sections@),
            old(bits)@.len() as int,
        ).flatten(),
{
    let ghost tree = huffman.tree();
    let ghost names = refs_view(keys@);
    let ghost model = sections_view(sections@);
    let ghost start = bits@.len() as int;
    let ghost bodies = section_bodies(tree, names, model, start);
    let mut q: usize = 0;
    proof {
        lemma_flat_map_empty(model.take(0), |s: SectionModel| section_values(s));
        lemma_flat_map_empty(sections_values(model.take(0)), |v: ValueModel| value_bits(tree, v));
        assert(bits@ + Seq::<bool>::empty() =~= bits@);
        assert(bodies.take(0) =~= Seq::<Seq<u8>>::empty());
        assert(out.buffer@ + Seq::<u8>::empty() =~= out.buffer@);
    }
    while q < sections.len()
        invariant
            q <= sections.len(),
            tree == huffman.tree(),
            names == refs_view(keys@),
            model == sections_view(sections@),
            start == old(bits)@.len(),
            bodies == section_bodies(tree, names, model, start),
            out.at_end(),
            old(out).buffer@.len() + sections_size(model) <= usize::MAX,
            bits@ == old(bits)@ + values_bits(tree, sections_values(model.take(q as int))),
            out.buffer@ == old(out).buffer@ + bodies.take(q as int).flatten(),
            forall|j: int| 0 <= j < q ==> #[trigger] section_fits(tree, model, start, j),
        decreases sections.len() - q,
    {
        proof {
            lemma_sections_layout(tree, names, model, start, q as int);
            lemma_section_start_step(tree, model, start, q as int);
            lemma_flatten_split(bodies, q as int);
            assert(model[q as int] == sections@[q as int]@);
        }
        if !emit_section(&sections[q], keys, huffman, bits, out) {
            assert(!section_fits(tree, model, start, q as int));
            return false;
        }
        proof {
            assert(section_fits(tree, model, start, q as int));
            assert(bits@ =~= old(bits)@ + values_bits(tree, sections_values(model.take(q + 1))));
            assert(out.buffer@ =~= old(out).buffer@ + bodies.take(q + 1).flatten());
        }
        q += 1;
    }
    proof {
        assert(model.take(q as int) =~= model);
        assert(bodies.take(q as int) =~= bodies);
    }
    true
}

/// Writes the body of a file, and the texts of its values to the bit
/// stream; tells whether every value could be written.
fn emit_file(
    file: &CoalFile,
    keys: &Vec<&Vec<u8>>,
    huffman: &Huffman<u8>,
    bits: &mut BitAccumulator,
    out: &mut WriteBuffer,
) -> (done: bool)
    requires
        old(out).at_end(),
        old(out).buffer@.len() + file_size(file@) <= usize::MAX,
    ensures
        done == sections_fit(huffman.tree(), file@.sections, old(bits)@.len() as int),
        done ==> final(bits)@ == old(bits)@ + values_bits(huffman.tree(), file_values(file@)),
        done ==> final(out).at_end(),
        done ==> final(out).buffer@ == old(out).buffer@ + file_body(
            huffman.tree(),
            refs_view(keys@),
            file@,
            old(bits)@.len() as int,
        ),
{
    proof {
        lemma_sections_layout(huffman.tree(), refs_view(keys@), file@.sections, 0, 0);
    }
    append_u16(out, file.sections.len() as u16);
    emit_section_entries(&file.sections, keys, out);
    let done = emit_sections(&file.sections, keys, huffman, bits, out);
    proof {
        if done {
            assert(out.buffer@ =~= old(out).buffer@ + file_body(
                huffman.tree(),
                refs_view(keys@),
                file@,
                old(bits)@.len() as int,
            ));
        }
    }
    done
}

/// Writes the entries of the files of the index block.
#[verifier::rlimit(40)]
fn emit_file_entries(files: &Vec<CoalFile>, keys: &Vec<&Vec<u8>>, out: &mut WriteBuffer)
    requires
        old(out).at_end(),
        old(out).buffer@.len() + 6 * files@.len() <= usize::MAX,
        2 + 6 * files@.len() + files_size(files_view(files@)) <= usize::MAX,
    ensures
        final(out).at_end(),
        final(out).buffer@ == old(out).buffer@ + file_entries(
            refs_view(keys@),
            files_view(files@),
        ).flatten(),
{
    let ghost model = files_view(files@);
    let ghost names = refs_view(keys@);
    let ghost entries = file_entries(names, model);
    let ghost tree = HuffmanTree::Leaf(0, 0);
    let count = files.len();
    let mut offset: usize = 2 + 6 * count;
    let mut k: usize = 0;
    proof {
        lemma_files_layout(tree, names, model, 0, 0);
        assert(entries.take(0) =~= Seq::<Seq<u8>>::empty());
        assert(out.buffer@ + Seq::<u8>::empty() =~= out.buffer@);
    }
    while k < count
        invariant
            k <= count,
            count == files@.len(),
            model == files_view(files@),
            names == refs_view(keys@),
            entries == file_entries(names, model),
            out.at_end(),
            old(out).buffer@.len() + 6 * count <= usize::MAX,
            2 + 6 * count + files_size(model) <= usize::MAX,
            offset == 2 + 6 * count + files_size(model.take(k as int)),
            out.buffer@ == old(out).buffer@ + entries.take(k as int).flatten(),
        decreases count - k,
    {
        proof {
            lemma_files_layout(tree, names, model, 0, k as int);
            lemma_flatten_split(entries, k as int);
            assert(model[k as int] == files@[k as int]@);
        }
        emit_name_entry(keys, &files[k].path, offset, out);
        let size = checked_file_size(&files[k]);
        offset = offset + size.unwrap();
        k += 1;
        assert(out.buffer@ =~= old(out).buffer@ + entries.take(k as int).flatten());
    }
    assert(entries.take(k as int) =~= entries);
}

/// Writes the bodies of the files of the index block, and the texts of
/// their values to the bit stream; tells whether every value could be
/// written.
#[verifier::rlimit(40)]
fn emit_files(
    files: &Vec<CoalFile>,
    keys: &Vec<&Vec<u8>>,
    huffman: &Huffman<u8>,
    bits: &mut BitAccumulator,
    out: &mut WriteBuffer,
) -> (done: bool)
    requires
        old(out).at_end(),
        old(out).buffer@.len() + files_size(files_view(files@)) <= usize::MAX,
    ensures
        done == files_fit(huffman.tree(), files_view(files@), old(bits)@.len() as int),
        done ==> final(bits)@ == old(bits)@ + values_bits(
            huffman.tree(),
            files_values(files_view(files@)),
        ),
        done ==> final(out).at_end(),
        done ==> final(out).buffer@ == old(out).buffer@ + file_bodies(
            huffman.tree(),
            refs_view(keys@),
            files_view(files@),
            old(bits)@.len() as int,
        ).flatten(),
{
    let ghost tree = huffman.tree();
    let ghost names = refs_view(keys@);
    let ghost model = files_view(files@);
    let ghost start = bits@.len() as int;
    let ghost bodies = file_bodies(tree, names, model, start);
    let mut k: usize = 0;
    proof {
        lemma_flat_map_empty(model.take(0), |f: FileModel| file_values(f));
        lemma_flat_map_empty(files_values(model.take(0)), |v: ValueModel| value_bits(tree, v));
        assert(bits@ + Seq::<bool>::empty() =~= bits@);
        assert(bodies.take(0) =~= Seq::<Seq<u8>>::empty());
        assert(out.buffer@ + Seq::<u8>::empty() =~= out.buffer@);
    }
    while k < files.len()
        invariant
            k <= files.len(),
            tree == huffman.tree(),
            names == refs_view(keys@),
            model == files_view(files@),
            start == old(bits)@.len(),
            bodies == file_bodies(tree, names, model, start),
            out.at_end(),
            old(out).buffer@.len() + files_size(model) <= usize::MAX,
            bits@ == old(bits)@ + values_bits(tree, files_values(model.take(k as int))),
            out.buffer@ == old(out).buffer@ + bodies.take(k as int).flatten(),
            forall|j: int| 0 <= j < k ==> #[trigger] file_fits(tree, model, start, j),
        decreases files.len() - k,
    {
        proof {
            lemma_files_layout(tree, names, model, start, k as int);
            lemma_file_start_step(tree, model, start, k as int);
            lemma_flatten_split(bodies, k as int);
            assert(model[k as int] == files@[k as int]@);
        }
        if !emit_file(&files[k], keys, huffman, bits, out) {
            assert(!file_fits(tree, model, start, k as int));
            return false;
        }
        proof {
            assert(file_fits(tree, model, start, k as int));
            assert(bits@ =~= old(bits)@ + values_bits(tree, files_values(model.take(k + 1))));
            assert(out.buffer@ =~= old(out).buffer@ + bodies.take(k + 1).flatten());
        }
        k += 1;
    }
    proof {
        assert(model.take(k as int) =~= model);
        assert(bodies.take(k as int) =~= bodies);
    }
    true
}

/// Writes the index block, and the texts of the values to the bit stream;
/// tells whether every value could be written.
pub fn emit_index(
    files: &Vec<CoalFile>,
    keys: &Vec<&Vec<u8>>,
    huffman: &Huffman<u8>,
    bits: &mut BitAccumulator,
    out: &mut WriteBuffer,
) -> (done: bool)
    requires
        old(out).at_end(),
        old(out).buffer@.len() == 0,
        old(bits)@.len() == 0,
        index_size(files_view(files@)) <= usize::MAX,
    ensures
        done == files_fit(huffman.tree(), files_view(files@), 0),
        done ==> final(bits)@ == values_bits(huffman.tree(), files_values(files_view(files@))),
        done ==> final(out).at_end(),
        done ==> final(out).buffer@ == index_block(
            huffman.tree(),
            refs_view(keys@),
            files_view(files@),
        ),
{
    proof {
        lemma_files_layout(huffman.tree(), refs_view(keys@), files_view(files@), 0, 0);
    }
    append_u16(out, files.len() as u16);
    emit_file_entries(files, keys, out);
    let done = emit_files(files, keys, huffman, bits, out);
    proof {
        if done {
            assert(out.buffer@ =~= index_block(
                huffman.tree(),
                refs_view(keys@),
                files_view(files@),
            ));
            assert(bits@ =~= values_bits(huffman.tree(), files_values(files_view(files@))));
        }
    }
    done
}

/// The sum `a + b`, if a `usize` holds it.
fn checked_sum(a: usize, b: usize) -> (sum: Option<usize>)
    ensures
        match sum {
            Some(n) => n == a + b,
            None => a + b > usize::MAX,
        },
{
    if b > usize::MAX - a {
        None
    } else {
        Some(a + b)
    }
}

/// The size of a table of `count` entries with bodies of `bodies` bytes
/// behind it, if a `usize` holds it.
fn checked_table_size(count: usize, bodies: usize) -> (size: Option<usize>)
    ensures
        match size {
            Some(n) => n == 2 + 6 * count + bodies,
            None => 2 + 6 * count + bodies > usize::MAX,
        },
{
    if count > (usize::MAX - 2) / 6 {
        return None;
    }
    checked_sum(2 + 6 * count, bodies)
}

/// Number of bytes of the body of a property, if a `usize` holds it.
fn checked_property_size(property: &Property) -> (size: Option<usize>)
    ensures
        match size {
            Some(n) => n == property_size(property@),
            None => property_size(property@) > usize::MAX,
        },
{
    let count = property.values.len();
    if count > (usize::MAX - 2) / 4 {
        return None;
    }
    Some(2 + 4 * count)
}

/// Number of bytes of the bodies of a list of properties, if a `usize`
/// holds it.
fn checked_properties_size(props: &Vec<Property>) -> (size: Option<usize>)
    ensures
        match size {
            Some(n) => n == properties_size(properties_view(props@)),
            None => properties_size(properties_view(props@)) > usize::MAX,
        },
{
    let ghost model = properties_view(props@);
    let ghost tree = HuffmanTree::Leaf(0, 0);
    let mut total: usize = 0;
    let mut r: usize = 0;
    proof {
        lemma_properties_layout(tree, Seq::empty(), model, 0, 0);
        assert(total_size(model.take(0), |p: PropertyModel| property_size(p)) == 0) by {
            assert(model.take(0) =~= Seq::<PropertyModel>::empty());
        }
    }
    while r < props.len()
        invariant
            r <= props.len(),
            model == properties_view(props@),
            total == properties_size(model.take(r as int)),
        decreases props.len() - r,
    {
        proof {
            lemma_properties_layout(tree, Seq::empty(), model, 0, r as int);
            assert(model[r as int] == props@[r as int]@);
        }
        let size = match checked_property_size(&props[r]) {
            Some(size) => size,
            None => {
                return None;
            },
        };
        total = match checked_sum(total, size) {
            Some(total) => total,
            None => {
                return None;
            },
        };
        r += 1;
    }
    assert(model.take(r as int) =~= model);
    Some(total)
}

/// Number of bytes of the body of a section, if a `usize` holds it.
fn checked_section_size(section: &Section) -> (size: Option<usize>)
    ensures
        match size {
            Some(n) => n == section_size(section@),
            None => section_size(section@) > usize::MAX,
        },
{
    proof {
        lemma_properties_layout(HuffmanTree::Leaf(0, 0), Seq::empty(), section@.properties, 0, 0);
    }
    match checked_properties_size(&section.properties) {
        Some(bodies) => checked_table_size(section.properties.len(), bodies),
        None => None,
    }
}

/// Number of bytes of the bodies of a list of sections, if a `usize` holds
/// it.
fn checked_sections_size(sections: &Vec<Section>) -> (size: Option<usize>)
    ensures
        match size {
            Some(n) => n == sections_size(sections_view(sections@)),
            None => sections_size(sections_view(sections@)) > usize::MAX,
        },
{
    let ghost model = sections_view(sections@);
    let ghost tree = HuffmanTree::Leaf(0, 0);
    let mut total: usize = 0;
    let mut q: usize = 0;
    proof {
        assert(total_size(model.take(0), |s: SectionModel| section_size(s)) == 0) by {
            assert(model.take(0) =~= Seq::<SectionModel>::empty());
        }
    }
    while q < sections.len()
        invariant
            q <= sections.len(),
            model == sections_view(sections@),
            total == sections_size(model.take(q as int)),
        decreases sections.len() - q,
    {
        proof {
            lemma_sections_layout(tree, Seq::empty(), model, 0, q as int);
            assert(model[q as int] == sections@[q as int]@);
        }
        let size = match checked_section_size(&sections[q]) {
            Some(size) => size,
            None => {
                return None;
            },
        };
        total = match checked_sum(total, size) {
            Some(total) => total,
            None => {
                return None;
            },
        };
        q += 1;
    }
    assert(model.take(q as int) =~= model);
    Some(total)
}

/// Number of bytes of the body of a file, if a `usize` holds it.
fn checked_file_size(file: &CoalFile) -> (size: Option<usize>)
    ensures
        match size {
            Some(n) => n == file_size(file@),
            None => file_size(file@) > usize::MAX,
        },
{
    proof {
        lemma_sections_layout(HuffmanTree::Leaf(0, 0), Seq::empty(), file@.sections, 0, 0);
    }
    match checked_sections_size(&file.sections) {
        Some(bodies) => checked_table_size(file.sections.len(), bodies),
        None => None,
    }
}

/// Number of bytes of the bodies of a list of files, if a `usize` holds it.
fn checked_files_size(files: &Vec<CoalFile>) -> (size: Option<usize>)
    ensures
        match size {
            Some(n) => n == files_size(files_view(files@)),
            None => files_size(files_view(files@)) > usize::MAX,
        },
{
    let ghost model = files_view(files@);
    let ghost tree = HuffmanTree::Leaf(0, 0);
    let mut total: usize = 0;
    let mut k: usize = 0;
    proof {
        assert(total_size(model.take(0), |f: FileModel| file_size(f)) == 0) by {
            assert(model.take(0) =~= Seq::<FileModel>::empty());
        }
    }
    while k < files.len()
        invariant
            k <= files.len(),
            model == files_view(files@),
            total == files_size(model.take(k as int)),
        decreases files.len() - k,
    {
        proof {
            lemma_files_layout(tree, Seq::empty(), model, 0, k as int);
            assert(model[k as int] == files@[k as int]@);
        }
        let size = match checked_file_size(&files[k]) {
            Some(size) => size,
            None => {
                return None;
            },
        };
        total = match checked_sum(total, size) {
            Some(total) => total,
            None => {
                return None;
            },
        };
        k += 1;
    }
    assert(model.take(k as int) =~= model);
    Some(total)
}

/// Number of bytes of the index block, if a `usize` holds it.
pub fn checked_index_size(files: &Vec<CoalFile>) -> (size: Option<usize>)
    ensures
        match size {
            Some(n) => n == index_size(files_view(files@)),
            None => index_size(files_view(files@)) > usize::MAX,
        },
{
    proof {
        lemma_files_layout(HuffmanTree::Leaf(0, 0), Seq::empty(), files_view(files@), 0, 0);
    }
    match checked_files_size(files) {
        Some(bodies) => checked_table_size(files.len(), bodies),
        None => None,
    }
}

/// Counts the symbols of the texts that are written and the 0 that ends
/// each.
pub fn count_symbols(values: &Vec<&Value>) -> (freq: FrequencyMap<u8>)
    ensures
        freq.counts() == counted_all(no_counts(), values_symbols(value_refs_view(values@))),
{
    let mut freq = FrequencyMap::<u8>::new();
    let ghost model = value_refs_view(values@);
    let ghost f = |v: ValueModel| value_symbols(v);
    let mut l: usize = 0;
    proof {
        lemma_flat_map_empty(model.take(0), f);
    }
    while l < values.len()
        invariant
            l <= values.len(),
            model == value_refs_view(values@),
            f == (|v: ValueModel| value_symbols(v)),
            freq.counts() == counted_all(no_counts(), model.take(l as int).map_values(f).flatten()),
        decreases values.len() - l,
    {
        let ghost done = model.take(l as int).map_values(f).flatten();
        proof {
            lemma_flat_map_step(model, f, l as int);
            assert(model[l as int] == values@[l as int]@);
        }
        match text_to_write(values[l]) {
            Some(text) => {
                // Collect the symbols of values for huffman encoded data
                freq.push_iter(text.as_slice());
                freq.push(0);
                proof {
                    let symbols = symbols_of::<u8>(text@);
                    lemma_counted_all_concat(no_counts(), done, symbols);
                    lemma_counted_all_concat(no_counts(), done, symbols.push(0));
                    assert(symbols.push(0).drop_last() =~= symbols);
                }
            },
            None => {
                assert(done + Seq::<int>::empty() =~= done);
            },
        }
        l += 1;
    }
    assert(model.take(l as int) =~= model);
    freq
}

/// The length of the longest text that is written.
pub fn longest_text(values: &Vec<&Value>) -> (n: usize)
    ensures
        n == longest(written_texts(value_refs_view(values@))),
{
    let ghost model = value_refs_view(values@);
    let mut max_value_length: usize = 0;
    let mut l: usize = 0;
    assert(written_texts(model.take(0)) =~= Seq::<Seq<u8>>::empty());
    while l < values.len()
        invariant
            l <= values.len(),
            model == value_refs_view(values@),
            max_value_length == longest(written_texts(model.take(l as int))),
        decreases values.len() - l,
    {
        proof {
            assert(written_texts(model.take(l + 1)).drop_last() =~= written_texts(
                model.take(l as int),
            ));
            assert(model[l as int] == values@[l as int]@);
        }
        let value_length = match text_to_write(values[l]) {
            Some(text) => text.len(),
            None => 0,
        };
        if value_length > max_value_length {
            max_value_length = value_length;
        }
        l += 1;
    }
    assert(model.take(l as int) =~= model);
    max_value_length
}

/// The length of the longest key.
pub fn longest_key(keys: &Vec<&Vec<u8>>) -> (n: usize)
    ensures
        n == longest(refs_view(keys@)),
{
    let ghost model = refs_view(keys@);
    let mut max_key_length: usize = 0;
    let mut k: usize = 0;
    assert(model.take(0) =~= Seq::<Seq<u8>>::empty());
    while k < keys.len()
        invariant
            k <= keys.len(),
            model == refs_view(keys@),
            max_key_length == longest(model.take(k as int)),
        decreases keys.len() - k,
    {
        proof {
            assert(model.take(k + 1).drop_last() =~= model.take(k as int));
        }
        let key_len = keys[k].len();
        if key_len > max_key_length {
            max_key_length = key_len;
        }
        k += 1;
    }
    assert(model.take(k as int) =~= model);
    max_key_length
}

/// The records of the first `k + 1` keys.
pub proof fn lemma_key_records_step(keys: Seq<Seq<u8>>, k: int)
    requires
        0 <= k < keys.len(),
    ensures
        key_records(keys.take(k + 1)) == key_records(keys.take(k)) + key_record(keys[k]),
        key_records(keys.take(0)) == Seq::<u8>::empty(),
        key_records(keys.take(k)).len() + key_record(keys[k]).len() <= key_records(keys).len(),
        key_record(keys[k]).len() == 2 + keys[k].len(),
{
    let f = |key: Seq<u8>| key_record(key);
    lemma_flat_map_step(keys, f, k);
    lemma_flat_map_empty(keys.take(0), f);
    lemma_flat_map_piece(keys, f, k);
}

/// Number of bytes of the string table, if a `usize` holds it.
pub fn checked_string_table_size(keys: &Vec<&Vec<u8>>) -> (size: Option<usize>)
    ensures
        match size {
            Some(n) => n == string_table_size(refs_view(keys@)),
            None => string_table_size(refs_view(keys@)) > usize::MAX,
        },
{
    let ghost model = refs_view(keys@);
    let count = keys.len();
    if count > (usize::MAX - 8) / 8 {
        return None;
    }
    let mut total: usize = 8 + 8 * count;
    let mut k: usize = 0;
    proof {
        lemma_flat_map_empty(model.take(0), |key: Seq<u8>| key_record(key));
    }
    while k < count
        invariant
            k <= count,
            count == keys@.len(),
            model == refs_view(keys@),
            total == 8 + 8 * count + key_records(model.take(k as int)).len(),
        decreases count - k,
    {
        proof {
            lemma_key_records_step(model, k as int);
        }
        let len = keys[k].len();
        if len > usize::MAX - 2 {
            return None;
        }
        total = match checked_sum(total, 2 + len) {
            Some(total) => total,
            None => {
                return None;
            },
        };
        k += 1;
    }
    assert(model.take(k as int) =~= model);
    Some(total)
}

/// Whether the string table can be written.
pub fn keys_fit_check(keys: &Vec<&Vec<u8>>) -> (fit: bool)
    ensures
        fit == keys_fit(refs_view(keys@)),
{
    let ghost model = refs_view(keys@);
    if keys.len() > 0x1_0000 {
        return false;
    }
    let mut k: usize = 0;
    while k < keys.len()
        invariant
            k <= keys.len(),
            model == refs_view(keys@),
            forall|j: int| 0 <= j < k ==> (#[trigger] model[j]).len() <= u16::MAX,
        decreases keys.len() - k,
    {
        if keys[k].len() > 0xFFFF {
            assert(model[k as int].len() > u16::MAX);
            return false;
        }
        k += 1;
    }
    match checked_string_table_size(keys) {
        Some(size) => size <= u32::MAX as usize,
        None => false,
    }
}

/// Builds the string table block: its own size, the number of keys, for
/// each key its checksum and the offset of its record, and the records.
#[verifier::rlimit(40)]
pub fn write_string_table(keys: &Vec<&Vec<u8>>) -> (bytes: Vec<u8>)
    requires
        string_table_size(refs_view(keys@)) <= usize::MAX,
    ensures
        bytes@ == string_table(refs_view(keys@)),
{
    let ghost model = refs_view(keys@);
    let count = keys.len();
    let size = checked_string_table_size(keys).unwrap();
    let mut offsets: Vec<(u32, u32)> = Vec::new();
    let mut offset: usize = 8 * count;
    let mut k: usize = 0;
    proof {
        lemma_flat_map_empty(model.take(0), |key: Seq<u8>| key_record(key));
        assert(offsets@ =~= key_entries(model).take(0));
    }
    while k < count
        invariant
            k <= count,
            count == keys@.len(),
            model == refs_view(keys@),
            string_table_size(model) <= usize::MAX,
            offset == 8 * count + key_records(model.take(k as int)).len(),
            offsets@ == key_entries(model).take(k as int),
        decreases count - k,
    {
        proof {
            lemma_key_records_step(model, k as int);
        }
        let bytes: &[u8] = keys[k].as_slice();
        let hash = hash_crc32(bytes);
        offsets.push((hash, offset as u32));
        offset = offset + (2 + bytes.len());
        k += 1;
        assert(offsets@ =~= key_entries(model).take(k as int));
    }
    assert(key_entries(model).take(k as int) =~= key_entries(model));
    let mut out = WriteBuffer::new();
    let head: [u32; 2] = [size as u32, count as u32];
    proof {
        lemma_word_bytes_len(head@);
        lemma_word_bytes_len(pair_words(offsets@));
        lemma_word_bytes_concat(head@, pair_words(offsets@));
    }
    append_words(&mut out, head.as_slice());
    append_word_pairs(&mut out, &offsets);
    let ghost table = out.buffer@;
    assert(table =~= word_bytes(head@ + pair_words(key_entries(model))));
    // Write the data table
    let mut k: usize = 0;
    proof {
        assert(table + Seq::<u8>::empty() =~= table);
    }
    while k < count
        invariant
            k <= count,
            count == keys@.len(),
            model == refs_view(keys@),
            string_table_size(model) <= usize::MAX,
            table.len() == 8 + 8 * count,
            out.at_end(),
            out.buffer@ == table + key_records(model.take(k as int)),
        decreases count - k,
    {
        proof {
            lemma_key_records_step(model, k as int);
        }
        let bytes: &[u8] = keys[k].as_slice();
        append_u16(&mut out, bytes.len() as u16);
        append_slice(&mut out, bytes);
        k += 1;
        assert(out.buffer@ =~= table + key_records(model.take(k as int)));
    }
    assert(model.take(k as int) =~= model);
    let bytes = out.into_vec();
    assert(bytes@ =~= string_table(model));
    bytes
}

/// Builds the Huffman block: the number of pairs, then the pairs.
pub fn write_pair_block(pairs: &[(i32, i32)]) -> (bytes: Vec<u8>)
    requires
        2 + 8 * pairs@.len() <= usize::MAX,
    ensures
        bytes@ == pair_block(pairs@),
{
    let mut huffman_buffer = WriteBuffer::new();
    // Write the length of pairs
    append_u16(&mut huffman_buffer, pairs.len() as u16);
    // Write the pairs
    append_signed_pairs(&mut huffman_buffer, pairs);
    let bytes = huffman_buffer.into_vec();
    assert(bytes@ =~= pair_block(pairs@));
    bytes
}

/// Whether the numbers of values of the properties fit in 16 bits.
fn property_counts_check(props: &Vec<Property>) -> (fit: bool)
    ensures
        fit == property_counts_fit(properties_view(props@)),
{
    let ghost model = properties_view(props@);
    let mut r: usize = 0;
    while r < props.len()
        invariant
            r <= props.len(),
            model == properties_view(props@),
            forall|j: int| 0 <= j < r ==> (#[trigger] model[j]).values.len() <= u16::MAX,
        decreases props.len() - r,
    {
        if props[r].values.len() > 0xFFFF {
            assert(model[r as int].values.len() > u16::MAX);
            return false;
        }
        r += 1;
    }
    true
}

/// Whether the numbers of properties and of their values fit in 16 bits.
fn section_counts_check(sections: &Vec<Section>) -> (fit: bool)
    ensures
        fit == section_counts_fit(sections_view(sections@)),
{
    let ghost model = sections_view(sections@);
    let mut q: usize = 0;
    while q < sections.len()
        invariant
            q <= sections.len(),
            model == sections_view(sections@),
            forall|j: int|
                0 <= j < q ==> (#[trigger] model[j]).properties.len() <= u16::MAX
                    && property_counts_fit(model[j].properties),
        decreases sections.len() - q,
    {
        if sections[q].properties.len() > 0xFFFF || !property_counts_check(
            &sections[q].properties,
        ) {
            assert(!(model[q as int].properties.len() <= u16::MAX && property_counts_fit(
                model[q as int].properties,
            )));
            return false;
        }
        q += 1;
    }
    true
}

/// Whether the numbers of sections, of their properties and of their
/// values fit in 16 bits.
fn file_counts_check(files: &Vec<CoalFile>) -> (fit: bool)
    ensures
        fit == file_counts_fit(files_view(files@)),
{
    let ghost model = files_view(files@);
    let mut k: usize = 0;
    while k < files.len()
        invariant
            k <= files.len(),
            model == files_view(files@),
            forall|j: int|
                0 <= j < k ==> (#[trigger] model[j]).sections.len() <= u16::MAX
                    && section_counts_fit(model[j].sections),
        decreases files.len() - k,
    {
        if files[k].sections.len() > 0xFFFF || !section_counts_check(&files[k].sections) {
            assert(!(model[k as int].sections.len() <= u16::MAX && section_counts_fit(
                model[k as int].sections,
            )));
            return false;
        }
        k += 1;
    }
    true
}

/// Whether the index block can be written.
pub fn layout_check(files: &Vec<CoalFile>) -> (fit: bool)
    ensures
        fit == layout_fits(files_view(files@)),
{
    if files.len() > 0xFFFF {
        return false;
    }
    if !file_counts_check(files) {
        return false;
    }
    match checked_index_size(files) {
        Some(size) => size <= u32::MAX as usize,
        None => false,
    }
}

} // verus!
