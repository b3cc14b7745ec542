use crate::coalesced::{
    file_names, file_values, files_names, files_values, properties_values, section_names,
    section_values, sections_values,
};
use crate::flat::{lemma_flat_map_empty, lemma_flat_map_step};
use crate::keys::refs_view;
use crate::shared::{
    files_view, properties_view, sections_view, values_view, CoalFile, FileModel, Property,
    PropertyModel, Section, SectionModel, Value, ValueModel,
};
use vstd::prelude::*;

verus! {

/// The values that a list of references names.
pub open spec fn value_refs_view(values: Seq<&Value>) -> Seq<ValueModel> {
    values.map_values(|v: &Value| v@)
}

/// Adds the names of a section: its own, then those of its properties.
fn push_section_names<'a>(section: &'a Section, names: &mut Vec<&'a Vec<u8>>)
    ensures
        refs_view(final(names)@) == refs_view(old(names)@) + section_names(section@),
{
    let ghost before = refs_view(names@);
    let ghost model = section@.properties;
    names.push(&section.name);
    assert(refs_view(names@) =~= before + seq![section@.name]);
    let mut r: usize = 0;
    assert(model.take(0).map_values(|p: PropertyModel| p.name) =~= Seq::<Seq<u8>>::empty());
    while r < section.properties.len()
        invariant
            r <= section.properties.len(),
            model == section@.properties,
            refs_view(names@) == before + seq![section@.name] + model.take(r as int).map_values(
                |p: PropertyModel| p.name,
            ),
        decreases section.properties.len() - r,
    {
        let ghost held = refs_view(names@);
        names.push(&section.properties[r].name);
        proof {
            assert(model[r as int] == section.properties@[r as int]@);
            assert(refs_view(names@) =~= held.push(section.properties@[r as int].name@));
            assert(model.take(r + 1).map_values(|p: PropertyModel| p.name) =~= model.take(
                r as int,
            ).map_values(|p: PropertyModel| p.name).push(model[r as int].name));
        }
        r += 1;
        assert(refs_view(names@) =~= before + seq![section@.name] + model.take(r as int).map_values(
            |p: PropertyModel| p.name,
        ));
    }
    proof {
        assert(model.take(r as int) =~= model);
        assert(refs_view(names@) =~= before + section_names(section@));
    }
}

/// Adds the names of a file: its path, then the names of its sections.
fn push_file_names<'a>(file: &'a CoalFile, names: &mut Vec<&'a Vec<u8>>)
    ensures
        refs_view(final(names)@) == refs_view(old(names)@) + file_names(file@),
{
    let ghost before = refs_view(names@);
    let ghost model = file@.sections;
    let ghost f = |s: SectionModel| section_names(s);
    names.push(&file.path);
    assert(refs_view(names@) =~= before + seq![file@.path]);
    let mut q: usize = 0;
    proof {
        lemma_flat_map_empty(model.take(0), f);
    }
    while q < file.sections.len()
        invariant
            q <= file.sections.len(),
            model == file@.sections,
            f == (|s: SectionModel| section_names(s)),
            refs_view(names@) == before + seq![file@.path] + model.take(q as int).map_values(
                f,
            ).flatten(),
        decreases file.sections.len() - q,
    {
        proof {
            lemma_flat_map_step(model, f, q as int);
            assert(model[q as int] == file.sections@[q as int]@);
        }
        push_section_names(&file.sections[q], names);
        q += 1;
        assert(refs_view(names@) =~= before + seq![file@.path] + model.take(q as int).map_values(
            f,
        ).flatten());
    }
    proof {
        assert(model.take(q as int) =~= model);
        assert(refs_view(names@) =~= before + file_names(file@));
    }
}

/// The names of the files in the order in which they occur.
pub fn collect_names<'a>(files: &'a Vec<CoalFile>) -> (names: Vec<&'a Vec<u8>>)
    ensures
        refs_view(names@) == files_names(files_view(files@)),
{
    let mut names: Vec<&'a Vec<u8>> = Vec::new();
    let ghost model = files_view(files@);
    let ghost f = |f: FileModel| file_names(f);
    let mut k: usize = 0;
    proof {
        lemma_flat_map_empty(model.take(0), f);
        assert(refs_view(names@) =~= Seq::<Seq<u8>>::empty());
    }
    while k < files.len()
        invariant
            k <= files.len(),
            model == files_view(files@),
            f == (|f: FileModel| file_names(f)),
            refs_view(names@) == model.take(k as int).map_values(f).flatten(),
        decreases files.len() - k,
    {
        proof {
            lemma_flat_map_step(model, f, k as int);
            assert(model[k as int] == files@[k as int]@);
        }
        push_file_names(&files[k], &mut names);
        k += 1;
    }
    assert(model.take(k as int) =~= model);
    names
}

/// Adds the values of a list of properties.
fn push_properties_values<'a>(props: &'a Vec<Property>, values: &mut Vec<&'a Value>)
    ensures
        value_refs_view(final(values)@) == value_refs_view(old(values)@) + properties_values(
            properties_view(props@),
        ),
{
    let ghost before = value_refs_view(values@);
    let ghost model = properties_view(props@);
    let ghost f = |p: PropertyModel| p.values;
    let mut r: usize = 0;
    proof {
        lemma_flat_map_empty(model.take(0), f);
        assert(before + Seq::<ValueModel>::empty() =~= before);
    }
    while r < props.len()
        invariant
            r <= props.len(),
            model == properties_view(props@),
            f == (|p: PropertyModel| p.values),
            value_refs_view(values@) == before + model.take(r as int).map_values(f).flatten(),
        decreases props.len() - r,
    {
        let property = &props[r];
        let ghost at_property = value_refs_view(values@);
        let ghost items = values_view(property.values@);
        proof {
            lemma_flat_map_step(model, f, r as int);
            assert(model[r as int] == props@[r as int]@);
        }
        let mut l: usize = 0;
        assert(at_property + items.take(0) =~= at_property);
        while l < property.values.len()
            invariant
                l <= property.values.len(),
                items == values_view(property.values@),
                value_refs_view(values@) == at_property + items.take(l as int),
            decreases property.values.len() - l,
        {
            let ghost held = value_refs_view(values@);
            values.push(&property.values[l]);
            assert(value_refs_view(values@) =~= held.push(property.values@[l as int]@));
            l += 1;
            assert(value_refs_view(values@) =~= at_property + items.take(l as int));
        }
        assert(items.take(l as int) =~= items);
        r += 1;
        assert(value_refs_view(values@) =~= before + model.take(r as int).map_values(f).flatten());
    }
    assert(model.take(r as int) =~= model);
}

/// Adds the values of a list of sections.
fn push_sections_values<'a>(sections: &'a Vec<Section>, values: &mut Vec<&'a Value>)
    ensures
        value_refs_view(final(values)@) == value_refs_view(old(values)@) + sections_values(
            sections_view(sections@),
        ),
{
    let ghost before = value_refs_view(values@);
    let ghost model = sections_view(sections@);
    let ghost f = |s: SectionModel| section_values(s);
    let mut q: usize = 0;
    proof {
        lemma_flat_map_empty(model.take(0), f);
        assert(before + Seq::<ValueModel>::empty() =~= before);
    }
    while q < sections.len()
        invariant
            q <= sections.len(),
            model == sections_view(sections@),
            f == (|s: SectionModel| section_values(s)),
            value_refs_view(values@) == before + model.take(q as int).map_values(f).flatten(),
        decreases sections.len() - q,
    {
        proof {
            lemma_flat_map_step(model, f, q as int);
            assert(model[q as int] == sections@[q as int]@);
        }
        push_properties_values(&sections[q].properties, values);
        q += 1;
        assert(value_refs_view(values@) =~= before + model.take(q as int).map_values(f).flatten());
    }
    assert(model.take(q as int) =~= model);
}

/// The values of the files in the order in which they occur.
pub fn collect_values<'a>(files: &'a Vec<CoalFile>) -> (values: Vec<&'a Value>)
    ensures
        value_refs_view(values@) == files_values(files_view(files@)),
{
    let mut values: Vec<&'a Value> = Vec::new();
    let ghost model = files_view(files@);
    let ghost f = |f: FileModel| file_values(f);
    let mut k: usize = 0;
    proof {
        lemma_flat_map_empty(model.take(0), f);
        assert(value_refs_view(values@) =~= Seq::<ValueModel>::empty());
    }
    while k < files.len()
        invariant
            k <= files.len(),
            model == files_view(files@),
            f == (|f: FileModel| file_values(f)),
            value_refs_view(values@) == model.take(k as int).map_values(f).flatten(),
        decreases files.len() - k,
    {
        proof {
            lemma_flat_map_step(model, f, k as int);
            assert(model[k as int] == files@[k as int]@);
        }
        push_sections_values(&files[k].sections, &mut values);
        k += 1;
    }
    assert(model.take(k as int) =~= model);
    values
}

} // verus!
