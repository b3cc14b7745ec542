use vstd::prelude::*;

verus! {

/// Magic number that opens a Coalesced file ("mrmf").
pub const ME3_MAGIC: u32 = 0x666D726D;

/// Magic number that opens a TLK file ("Tlk\0").
pub const TLK_MAGIC: u32 = 0x006B6C54;

/// One 16-bit code unit of a TLK string.
pub type WChar = u16;

/// A TLK string: 16-bit code units, no surrogate processing.
pub type WString = Vec<u16>;

/// How an overlay entry acts on the base configuration.
#[derive(Debug, Clone, Copy, PartialEq, Eq, Hash, Structural)]
pub enum ValueType {
    /// Overwrite.
    New,
    /// Remove the property entirely.
    RemoveProperty,
    /// Add always.
    Add,
    /// Add if unique.
    AddUnique,
    /// Remove if same.
    Remove,
}

/// A tag outside `0..=4`.
#[derive(Debug, Clone, Copy, PartialEq, Eq)]
pub struct UnknownValueType;

impl ValueType {
    /// The tag's numeric code.
    pub open spec fn spec_code(self) -> u8 {
        match self {
            ValueType::New => 0,
            ValueType::RemoveProperty => 1,
            ValueType::Add => 2,
            ValueType::AddUnique => 3,
            ValueType::Remove => 4,
        }
    }

    /// The tag with the given code, if there is one.
    pub open spec fn of_code(value: int) -> Option<ValueType> {
        if value == 0 {
            Some(ValueType::New)
        } else if value == 1 {
            Some(ValueType::RemoveProperty)
        } else if value == 2 {
            Some(ValueType::Add)
        } else if value == 3 {
            Some(ValueType::AddUnique)
        } else if value == 4 {
            Some(ValueType::Remove)
        } else {
            None
        }
    }

    /// The tag's numeric code.
    #[verifier::when_used_as_spec(spec_code)]
    pub fn code(self) -> (c: u8)
        ensures
            c == self.spec_code(),
            c <= 4,
    {
        match self {
            ValueType::New => 0,
            ValueType::RemoveProperty => 1,
            ValueType::Add => 2,
            ValueType::AddUnique => 3,
            ValueType::Remove => 4,
        }
    }

    /// Reads a tag from its numeric code; codes above 4 are rejected.
    pub fn try_from(value: u8) -> (r: Result<ValueType, UnknownValueType>)
        ensures
            match r {
                Ok(ty) => ValueType::of_code(value as int) == Some(ty),
                Err(_) => ValueType::of_code(value as int).is_none(),
            },
    {
        match value {
            0 => Ok(ValueType::New),
            1 => Ok(ValueType::RemoveProperty),
            2 => Ok(ValueType::Add),
            3 => Ok(ValueType::AddUnique),
            4 => Ok(ValueType::Remove),
            _ => Err(UnknownValueType),
        }
    }
}

/// A tag is recovered from its own code.
pub proof fn lemma_value_type_code_round_trip(ty: ValueType)
    ensures
        ValueType::of_code(ty.spec_code() as int) == Some(ty),
{
}

/// One value of a property.
#[derive(Debug, Clone, PartialEq, Eq, Hash)]
pub struct Value {
    /// Value type.
    pub ty: ValueType,
    /// Associated text; absent for `RemoveProperty`.
    pub text: Option<Vec<u8>>,
}

/// A named list of values.
#[derive(Debug, Clone, PartialEq, Eq, Hash)]
pub struct Property {
    /// The name of the property.
    pub name: Vec<u8>,
    /// The values for this property.
    pub values: Vec<Value>,
}

/// A named list of properties.
#[derive(Debug, Clone, PartialEq, Eq, Hash)]
pub struct Section {
    /// The section name.
    pub name: Vec<u8>,
    /// Properties within the section.
    pub properties: Vec<Property>,
}

/// File within the coalesced.
#[derive(Debug, Clone, PartialEq, Eq, Hash)]
pub struct CoalFile {
    /// The relative file path.
    pub path: Vec<u8>,
    /// The sections within the file.
    pub sections: Vec<Section>,
}

/// Coalesced file.
#[derive(Debug, Clone, PartialEq, Eq, Hash)]
pub struct Coalesced {
    /// Coalesced version.
    pub version: u32,
    /// Files within the coalesced.
    pub files: Vec<CoalFile>,
}

/// Mathematical value of a [`Value`].
pub struct ValueModel {
    pub ty: ValueType,
    pub text: Option<Seq<u8>>,
}

/// Mathematical value of a [`Property`].
pub struct PropertyModel {
    pub name: Seq<u8>,
    pub values: Seq<ValueModel>,
}

/// Mathematical value of a [`Section`].
pub struct SectionModel {
    pub name: Seq<u8>,
    pub properties: Seq<PropertyModel>,
}

/// Mathematical value of a [`CoalFile`].
pub struct FileModel {
    pub path: Seq<u8>,
    pub sections: Seq<SectionModel>,
}

/// Mathematical value of a [`Coalesced`].
pub struct CoalescedModel {
    pub version: u32,
    pub files: Seq<FileModel>,
}

impl View for Value {
    type V = ValueModel;

    open spec fn view(&self) -> ValueModel {
        ValueModel {
            ty: self.ty,
            text: match self.text {
                Some(text) => Some(text@),
                None => None,
            },
        }
    }
}

impl View for Property {
    type V = PropertyModel;

    open spec fn view(&self) -> PropertyModel {
        PropertyModel { name: self.name@, values: values_view(self.values@) }
    }
}

impl View for Section {
    type V = SectionModel;

    open spec fn view(&self) -> SectionModel {
        SectionModel { name: self.name@, properties: properties_view(self.properties@) }
    }
}

impl View for CoalFile {
    type V = FileModel;

    open spec fn view(&self) -> FileModel {
        FileModel { path: self.path@, sections: sections_view(self.sections@) }
    }
}

impl View for Coalesced {
    type V = CoalescedModel;

    open spec fn view(&self) -> CoalescedModel {
        CoalescedModel { version: self.version, files: files_view(self.files@) }
    }
}

/// The values of a list of values.
pub open spec fn values_view(values: Seq<Value>) -> Seq<ValueModel> {
    values.map_values(|v: Value| v@)
}

/// The values of a list of properties.
pub open spec fn properties_view(props: Seq<Property>) -> Seq<PropertyModel> {
    props.map_values(|p: Property| p@)
}

/// The values of a list of sections.
pub open spec fn sections_view(sections: Seq<Section>) -> Seq<SectionModel> {
    sections.map_values(|s: Section| s@)
}

/// The values of a list of files.
pub open spec fn files_view(files: Seq<CoalFile>) -> Seq<FileModel> {
    files.map_values(|f: CoalFile| f@)
}

/// The values of a list of byte strings.
pub open spec fn keys_view(keys: Seq<Vec<u8>>) -> Seq<Seq<u8>> {
    keys.map_values(|k: Vec<u8>| k@)
}

/// String within a tlk file.
#[derive(Debug, Clone, PartialEq, Eq, Hash)]
pub struct TlkString {
    /// ID of the value.
    pub id: u32,
    /// The string value itself.
    pub value: WString,
}

/// Tlk file.
#[derive(Debug, Clone, PartialEq, Eq, Hash)]
pub struct Tlk {
    pub version: u32,
    pub min_version: u32,
    /// Male tlk strings.
    pub male: Vec<TlkString>,
    /// Female tlk strings.
    pub female: Vec<TlkString>,
}

/// Mathematical value of a [`TlkString`].
pub struct TlkStringModel {
    pub id: u32,
    pub value: Seq<u16>,
}

/// Mathematical value of a [`Tlk`].
pub struct TlkModel {
    pub version: u32,
    pub min_version: u32,
    pub male: Seq<TlkStringModel>,
    pub female: Seq<TlkStringModel>,
}

impl View for TlkString {
    type V = TlkStringModel;

    open spec fn view(&self) -> TlkStringModel {
        TlkStringModel { id: self.id, value: self.value@ }
    }
}

impl View for Tlk {
    type V = TlkModel;

    open spec fn view(&self) -> TlkModel {
        TlkModel {
            version: self.version,
            min_version: self.min_version,
            male: tlk_strings_view(self.male@),
            female: tlk_strings_view(self.female@),
        }
    }
}

/// The values of a list of TLK strings.
pub open spec fn tlk_strings_view(entries: Seq<TlkString>) -> Seq<TlkStringModel> {
    entries.map_values(|e: TlkString| e@)
}

/// Whether some entry carries `id`.
pub open spec fn has_id(entries: Seq<TlkStringModel>, id: u32) -> bool {
    exists|i: int| 0 <= i < entries.len() && #[trigger] entries[i].id == id
}

/// Position of the first entry that carries `id`; the length of the list if
/// there is none.
pub open spec fn first_with_id(entries: Seq<TlkStringModel>, id: u32) -> int
    decreases entries.len(),
{
    if entries.len() == 0 {
        0
    } else if entries[0].id == id {
        0
    } else {
        1 + first_with_id(entries.drop_first(), id)
    }
}

/// The list with the value of the first entry that carries `id` replaced;
/// the list itself if no entry carries it.
pub open spec fn replaced(entries: Seq<TlkStringModel>, id: u32, value: Seq<u16>) -> Seq<
    TlkStringModel,
> {
    if has_id(entries, id) {
        entries.update(first_with_id(entries, id), TlkStringModel { id, value })
    } else {
        entries
    }
}

/// The list after an insertion: the first entry that carries `id` replaced,
/// or a new entry at the end if no entry carries it.
pub open spec fn inserted(entries: Seq<TlkStringModel>, id: u32, value: Seq<u16>) -> Seq<
    TlkStringModel,
> {
    if has_id(entries, id) {
        entries.update(first_with_id(entries, id), TlkStringModel { id, value })
    } else {
        entries.push(TlkStringModel { id, value })
    }
}

/// `first_with_id` is the least position that carries `id`.
pub proof fn lemma_first_with_id(entries: Seq<TlkStringModel>, id: u32)
    ensures
        0 <= first_with_id(entries, id) <= entries.len(),
        forall|j: int| 0 <= j < first_with_id(entries, id) ==> (#[trigger] entries[j]).id != id,
        first_with_id(entries, id) < entries.len() ==> entries[first_with_id(entries, id)].id
            == id,
        has_id(entries, id) <==> first_with_id(entries, id) < entries.len(),
    decreases entries.len(),
{
    if entries.len() == 0 {
    } else if entries[0].id == id {
    } else {
        let rest = entries.drop_first();
        lemma_first_with_id(rest, id);
        let k = first_with_id(rest, id);
        assert forall|j: int| 0 <= j < 1 + k implies (#[trigger] entries[j]).id != id by {
            if j > 0 {
                assert(entries[j] == rest[j - 1]);
            }
        }
        if has_id(entries, id) {
            let i = choose|i: int| 0 <= i < entries.len() && #[trigger] entries[i].id == id;
            assert(rest[i - 1].id == id);
        }
        if k < rest.len() {
            assert(entries[k + 1] == rest[k]);
        }
    }
}

/// Replaces the value of the first entry of `entries` that carries `id`.
fn replace_entry(entries: &mut Vec<TlkString>, id: u32, value: WString) -> (found: bool)
    ensures
        found == has_id(tlk_strings_view(old(entries)@), id),
        tlk_strings_view(final(entries)@) == replaced(tlk_strings_view(old(entries)@), id, value@),
{
    let ghost before = tlk_strings_view(entries@);
    let mut i: usize = 0;
    while i < entries.len()
        invariant
            i <= entries.len(),
            entries@ == old(entries)@,
            forall|j: int| 0 <= j < i ==> (#[trigger] before[j]).id != id,
            before == tlk_strings_view(entries@),
        decreases entries.len() - i,
    {
        if entries[i].id == id {
            proof {
                lemma_first_with_id(before, id);
                assert(before[i as int].id == id);
            }
            entries[i].value = value;
            assert(tlk_strings_view(entries@) =~= before.update(
                i as int,
                TlkStringModel { id, value: value@ },
            ));
            return true;
        }
        i += 1;
    }
    proof {
        lemma_first_with_id(before, id);
    }
    false
}

impl Tlk {
    /// Replaces the value of the first male string with the provided id;
    /// tells whether there was one.
    pub fn replace_male(&mut self, id: u32, value: WString) -> (found: bool)
        ensures
            found == has_id(old(self)@.male, id),
            final(self)@ == (TlkModel { male: replaced(old(self)@.male, id, value@), ..old(self)@ }),
    {
        replace_entry(&mut self.male, id, value)
    }

    /// Inserts a male string, replacing the first one with the same id if
    /// there is one.
    pub fn insert_male(&mut self, id: u32, value: WString)
        ensures
            final(self)@ == (TlkModel { male: inserted(old(self)@.male, id, value@), ..old(self)@ }),
    {
        insert_entry(&mut self.male, id, value)
    }

    /// Replaces the value of the first female string with the provided id;
    /// tells whether there was one.
    pub fn replace_female(&mut self, id: u32, value: WString) -> (found: bool)
        ensures
            found == has_id(old(self)@.female, id),
            final(self)@ == (TlkModel {
                female: replaced(old(self)@.female, id, value@),
                ..old(self)@
            }),
    {
        replace_entry(&mut self.female, id, value)
    }

    /// Inserts a female string, replacing the first one with the same id if
    /// there is one.
    pub fn insert_female(&mut self, id: u32, value: WString)
        ensures
            final(self)@ == (TlkModel {
                female: inserted(old(self)@.female, id, value@),
                ..old(self)@
            }),
    {
        insert_entry(&mut self.female, id, value)
    }
}

/// Replaces the value of the first entry of `entries` that carries `id`, or
/// adds an entry at the end.
fn insert_entry(entries: &mut Vec<TlkString>, id: u32, value: WString)
    ensures
        tlk_strings_view(final(entries)@) == inserted(tlk_strings_view(old(entries)@), id, value@),
{
    let ghost before = tlk_strings_view(entries@);
    proof {
        lemma_first_with_id(before, id);
    }
    match find_id(entries, id) {
        Some(i) => {
            entries[i].value = value;
            assert(tlk_strings_view(entries@) =~= inserted(before, id, value@));
        },
        None => {
            entries.push(TlkString { id, value });
            assert(tlk_strings_view(entries@) =~= inserted(before, id, value@));
        },
    }
}

/// Position of the first entry that carries `id`.
fn find_id(entries: &Vec<TlkString>, id: u32) -> (r: Option<usize>)
    ensures
        match r {
            Some(i) => has_id(tlk_strings_view(entries@), id) && i == first_with_id(
                tlk_strings_view(entries@),
                id,
            ) && i < entries.len(),
            None => !has_id(tlk_strings_view(entries@), id),
        },
{
    let ghost model = tlk_strings_view(entries@);
    let mut i: usize = 0;
    while i < entries.len()
        invariant
            i <= entries.len(),
            model == tlk_strings_view(entries@),
            forall|j: int| 0 <= j < i ==> (#[trigger] model[j]).id != id,
        decreases entries.len() - i,
    {
        if entries[i].id == id {
            proof {
                lemma_first_with_id(model, id);
                assert(model[i as int].id == id);
            }
            return Some(i);
        }
        i += 1;
    }
    proof {
        lemma_first_with_id(model, id);
    }
    None
}

/// A slot of an inverted pair table: leaf markers stay, pair indices are
/// counted from the other end of a table of `len` pairs.
pub open spec fn inverted_slot(slot: i32, len: nat) -> i32 {
    if slot > -1 {
        ((len - 1) as i32).wrapping_sub(slot)
    } else {
        slot
    }
}

/// In a table of no more than 2^31 pairs, the inverted form of an index
/// that points into the table is the index counted from the other end.
pub proof fn lemma_inverted_slot(slot: i32, len: nat)
    requires
        0 <= slot < len <= 0x8000_0000,
    ensures
        inverted_slot(slot, len) == len - 1 - slot,
{
}

/// The inverted form of a pair table: the pairs in reverse order, each slot
/// inverted.
pub open spec fn inverted(pairs: Seq<(i32, i32)>) -> Seq<(i32, i32)> {
    Seq::new(
        pairs.len(),
        |i: int|
            (
                inverted_slot(pairs[pairs.len() - 1 - i].0, pairs.len()),
                inverted_slot(pairs[pairs.len() - 1 - i].1, pairs.len()),
            ),
    )
}

/// Every pair index of the table points into the table.
pub open spec fn indices_in_range(pairs: Seq<(i32, i32)>) -> bool {
    forall|i: int|
        0 <= i < pairs.len() ==> (#[trigger] pairs[i]).0 < pairs.len() && pairs[i].1 < pairs.len()
}

/// Inverts the order of the provided Huffman pairs.
///
/// The TLK format stores the table with the root first, the Coalesced format
/// with the root last; the same transform leads from each to the other.
pub fn invert_huffman_tree(pairs: &mut Vec<(i32, i32)>)
    ensures
        final(pairs)@ == inverted(old(pairs)@),
{
    let n = pairs.len();
    if n == 0 {
        assert(pairs@ =~= inverted(pairs@));
        return ;
    }
    let last_index: i32 = (n - 1) as i32;
    let mut out: Vec<(i32, i32)> = Vec::with_capacity(n);
    let mut i: usize = 0;
    while i < n
        invariant
            i <= n,
            n == pairs.len(),
            n > 0,
            last_index == (n - 1) as i32,
            pairs@ == old(pairs)@,
            out.len() == i,
            forall|j: int| 0 <= j < i ==> out[j] == inverted(pairs@)[j],
        decreases n - i,
    {
        let pair = pairs[n - 1 - i];
        let left = if pair.0 > -1 {
            last_index.wrapping_sub(pair.0)
        } else {
            pair.0
        };
        let right = if pair.1 > -1 {
            last_index.wrapping_sub(pair.1)
        } else {
            pair.1
        };
        out.push((left, right));
        i += 1;
    }
    assert(out@ =~= inverted(pairs@));
    *pairs = out;
}

/// Pair-table inversion undoes itself on every table whose pair indices
/// point into the table.
pub proof fn lemma_invert_involution(pairs: Seq<(i32, i32)>)
    requires
        indices_in_range(pairs),
        pairs.len() <= 0x8000_0000,
    ensures
        inverted(inverted(pairs)) == pairs,
        indices_in_range(inverted(pairs)),
{
    let once = inverted(pairs);
    let n = pairs.len();
    assert forall|i: int| 0 <= i < n implies (#[trigger] once[i]).0 < n && once[i].1 < n by {
        let p = pairs[n - 1 - i];
        assert(p.0 < n && p.1 < n);
    }
    assert forall|i: int| 0 <= i < n implies inverted(once)[i] == pairs[i] by {
        let p = pairs[i];
        assert(p.0 < n && p.1 < n);
        let q = once[n - 1 - i];
        assert(q.0 == inverted_slot(p.0, n));
        assert(q.1 == inverted_slot(p.1, n));
    }
    assert(inverted(once) =~= pairs);
}

} // verus!
