use crate::coalesced::{distinct, hashes, index_of, place_by_hash, sorted_by_hash};
use crate::crc32::hash_crc32;
use vstd::prelude::*;

verus! {

/// The byte strings that a list of references names.
pub open spec fn refs_view(keys: Seq<&Vec<u8>>) -> Seq<Seq<u8>> {
    keys.map_values(|k: &Vec<u8>| k@)
}

/// Whether two byte strings are equal.
pub fn bytes_eq(a: &[u8], b: &[u8]) -> (equal: bool)
    ensures
        equal == (a@ == b@),
{
    if a.len() != b.len() {
        return false;
    }
    let mut i: usize = 0;
    while i < a.len()
        invariant
            i <= a.len(),
            a@.len() == b@.len(),
            forall|j: int| 0 <= j < i ==> a@[j] == b@[j],
        decreases a.len() - i,
    {
        if a[i] != b[i] {
            return false;
        }
        i += 1;
    }
    assert(a@ =~= b@);
    true
}

/// `index_of` is the least position that holds the name.
pub proof fn lemma_index_of(keys: Seq<Seq<u8>>, name: Seq<u8>)
    ensures
        0 <= index_of(keys, name) <= keys.len(),
        forall|j: int| 0 <= j < index_of(keys, name) ==> #[trigger] keys[j] != name,
        index_of(keys, name) < keys.len() ==> keys[index_of(keys, name)] == name,
        keys.contains(name) <==> index_of(keys, name) < keys.len(),
    decreases keys.len(),
{
    if keys.len() == 0 {
    } else if keys[0] == name {
        assert(keys.contains(name));
    } else {
        let rest = keys.drop_first();
        lemma_index_of(rest, name);
        let k = index_of(rest, name);
        assert forall|j: int| 0 <= j < 1 + k implies #[trigger] keys[j] != name by {
            if j > 0 {
                assert(keys[j] == rest[j - 1]);
            }
        }
        if keys.contains(name) {
            let i = choose|i: int| 0 <= i < keys.len() && keys[i] == name;
            assert(rest[i - 1] == name);
            assert(rest.contains(name));
        }
        if k < rest.len() {
            assert(keys[k + 1] == rest[k]);
            assert(keys.contains(name));
        }
    }
}

/// Position of the first key that equals `name`; the number of keys if there
/// is none.
pub fn find_key(keys: &Vec<&Vec<u8>>, name: &Vec<u8>) -> (at: usize)
    ensures
        at == index_of(refs_view(keys@), name@),
        at <= keys@.len(),
{
    let ghost model = refs_view(keys@);
    let mut i: usize = 0;
    while i < keys.len()
        invariant
            i <= keys.len(),
            model == refs_view(keys@),
            forall|j: int| 0 <= j < i ==> #[trigger] model[j] != name@,
        decreases keys.len() - i,
    {
        if bytes_eq(keys[i].as_slice(), name.as_slice()) {
            proof {
                lemma_index_of(model, name@);
                assert(model[i as int] == name@);
            }
            return i;
        }
        i += 1;
    }
    proof {
        lemma_index_of(model, name@);
    }
    i
}

/// The names without repetitions: of each, the first occurrence.
pub fn distinct_keys<'a>(names: &Vec<&'a Vec<u8>>) -> (keys: Vec<&'a Vec<u8>>)
    ensures
        refs_view(keys@) == distinct(refs_view(names@)),
{
    let mut keys: Vec<&'a Vec<u8>> = Vec::new();
    let ghost model = refs_view(names@);
    let mut i: usize = 0;
    assert(refs_view(keys@) =~= distinct(model.take(0)));
    while i < names.len()
        invariant
            i <= names.len(),
            model == refs_view(names@),
            refs_view(keys@) == distinct(model.take(i as int)),
        decreases names.len() - i,
    {
        let name = names[i];
        let ghost before = refs_view(keys@);
        proof {
            assert(model.take(i + 1).drop_last() =~= model.take(i as int));
            assert(model.take(i + 1).last() == name@);
            lemma_index_of(before, name@);
        }
        if find_key(&keys, name) == keys.len() {
            keys.push(name);
            assert(refs_view(keys@) =~= before.push(name@));
        }
        i += 1;
    }
    assert(model.take(i as int) =~= model);
    keys
}

/// The place of a key with checksum `hash` in a list of checksums in rising
/// order.
fn find_place(sorted: &Vec<u32>, hash: u32) -> (at: usize)
    ensures
        at == place_by_hash(sorted@, hash),
        at <= sorted@.len(),
{
    let mut at: usize = sorted.len();
    assert(sorted@.take(at as int) =~= sorted@);
    while at > 0 && sorted[at - 1] > hash
        invariant
            at <= sorted.len(),
            place_by_hash(sorted@, hash) == place_by_hash(sorted@.take(at as int), hash),
        decreases at,
    {
        proof {
            assert(sorted@.take(at as int).drop_last() =~= sorted@.take(at - 1));
        }
        at -= 1;
    }
    at
}

/// Sorts the keys by their checksums; keys with one checksum keep their
/// order.
pub fn sort_keys<'a>(keys: &Vec<&'a Vec<u8>>) -> (sorted: Vec<&'a Vec<u8>>)
    ensures
        refs_view(sorted@) == sorted_by_hash(refs_view(keys@)),
{
    let mut sorted: Vec<&'a Vec<u8>> = Vec::new();
    let mut sorted_hashes: Vec<u32> = Vec::new();
    let ghost model = refs_view(keys@);
    let mut i: usize = 0;
    assert(refs_view(sorted@) =~= sorted_by_hash(model.take(0)));
    assert(sorted_hashes@ =~= hashes(refs_view(sorted@)));
    while i < keys.len()
        invariant
            i <= keys.len(),
            model == refs_view(keys@),
            refs_view(sorted@) == sorted_by_hash(model.take(i as int)),
            sorted_hashes@ == hashes(refs_view(sorted@)),
        decreases keys.len() - i,
    {
        let key = keys[i];
        let hash = hash_crc32(key.as_slice());
        let ghost before = refs_view(sorted@);
        proof {
            assert(model.take(i + 1).drop_last() =~= model.take(i as int));
            assert(model.take(i + 1).last() == key@);
        }
        let at = find_place(&sorted_hashes, hash);
        sorted.insert(at, key);
        sorted_hashes.insert(at, hash);
        proof {
            assert(refs_view(sorted@) =~= before.insert(at as int, key@));
            assert(sorted_hashes@ =~= hashes(refs_view(sorted@)));
        }
        i += 1;
    }
    assert(model.take(i as int) =~= model);
    sorted
}

} // verus!
