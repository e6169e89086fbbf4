//! Small maps keyed by strings, held as lists of (key, value) entries in
//! which no key occurs twice.

use vstd::prelude::*;

verus! {

/// The map that a list of entries stands for; a later entry for a key takes
/// the place of an earlier one.
pub open spec fn keyed_map<V>(entries: Seq<(String, V)>) -> Map<Seq<char>, V>
    decreases entries.len(),
{
    if entries.len() == 0 {
        Map::empty()
    } else {
        keyed_map(entries.drop_last()).insert(entries.last().0@, entries.last().1)
    }
}

/// No key occurs twice.
pub open spec fn keys_unique<V>(entries: Seq<(String, V)>) -> bool {
    forall|i: int, j: int|
        0 <= i < j < entries.len() ==> #[trigger] entries[i].0@ != #[trigger] entries[j].0@
}

/// The keys, in the order of the entries.
pub open spec fn keys_of<V>(entries: Seq<(String, V)>) -> Seq<Seq<char>> {
    entries.map_values(|entry: (String, V)| entry.0@)
}

pub proof fn lemma_keyed_found<V>(entries: Seq<(String, V)>, key: Seq<char>, i: int)
    requires
        0 <= i < entries.len(),
        entries[i].0@ == key,
        forall|j: int| i < j < entries.len() ==> #[trigger] entries[j].0@ != key,
    ensures
        keyed_map(entries).contains_key(key),
        keyed_map(entries)[key] == entries[i].1,
    decreases entries.len(),
{
    if i < entries.len() - 1 {
        let rest = entries.drop_last();
        assert forall|j: int| i < j < rest.len() implies #[trigger] rest[j].0@ != key by {
            assert(rest[j] == entries[j]);
        }
        lemma_keyed_found(rest, key, i);
        assert(entries.last() == entries[entries.len() - 1]);
    }
}

pub proof fn lemma_keyed_absent<V>(entries: Seq<(String, V)>, key: Seq<char>)
    requires
        forall|j: int| 0 <= j < entries.len() ==> #[trigger] entries[j].0@ != key,
    ensures
        !keyed_map(entries).contains_key(key),
    decreases entries.len(),
{
    if entries.len() > 0 {
        let rest = entries.drop_last();
        assert forall|j: int| 0 <= j < rest.len() implies #[trigger] rest[j].0@ != key by {
            assert(rest[j] == entries[j]);
        }
        lemma_keyed_absent(rest, key);
        assert(entries.last() == entries[entries.len() - 1]);
    }
}

/// The keys of the map are the keys of the entries.
pub proof fn lemma_keyed_dom<V>(entries: Seq<(String, V)>)
    ensures
        keyed_map(entries).dom() == keys_of(entries).to_set(),
    decreases entries.len(),
{
    if entries.len() > 0 {
        let rest = entries.drop_last();
        lemma_keyed_dom(rest);
        let keys = keys_of(entries);
        assert(keys =~= keys_of(rest).push(entries.last().0@));
        assert forall|k: Seq<char>| keys.contains(k) <==> (keys_of(rest).contains(k) || k
            == entries.last().0@) by {
            if keys.contains(k) {
                let i = choose|i: int| 0 <= i < keys.len() && keys[i] == k;
                if i < keys.len() - 1 {
                    assert(keys_of(rest)[i] == k);
                }
            }
            if keys_of(rest).contains(k) {
                let i = choose|i: int| 0 <= i < keys_of(rest).len() && keys_of(rest)[i] == k;
                assert(keys[i] == k);
            }
            if k == entries.last().0@ {
                assert(keys[keys.len() - 1] == k);
            }
        }
    } else {
        assert(keys_of(entries).to_set() =~= Set::<Seq<char>>::empty());
    }
    assert(keyed_map(entries).dom() =~= keys_of(entries).to_set());
}

pub proof fn lemma_keyed_replace<V>(entries: Seq<(String, V)>, i: int, entry: (String, V))
    requires
        0 <= i < entries.len(),
        entries[i].0@ == entry.0@,
        forall|j: int| i < j < entries.len() ==> #[trigger] entries[j].0@ != entry.0@,
    ensures
        keyed_map(entries.update(i, entry)) == keyed_map(entries).insert(entry.0@, entry.1),
    decreases entries.len(),
{
    let updated = entries.update(i, entry);
    if i == entries.len() - 1 {
        assert(updated.drop_last() =~= entries.drop_last());
        assert(keyed_map(updated) =~= keyed_map(entries).insert(entry.0@, entry.1));
    } else {
        let rest = entries.drop_last();
        assert forall|j: int| i < j < rest.len() implies #[trigger] rest[j].0@ != entry.0@ by {
            assert(rest[j] == entries[j]);
        }
        lemma_keyed_replace(rest, i, entry);
        assert(updated.drop_last() =~= rest.update(i, entry));
        assert(updated.last() == entries.last());
        assert(entries.last() == entries[entries.len() - 1]);
        assert(keyed_map(updated) =~= keyed_map(entries).insert(entry.0@, entry.1));
    }
}

/// The index of the last entry for `key`, if there is one.
pub fn find_key<V>(entries: &Vec<(String, V)>, key: &String) -> (r: Option<usize>)
    ensures
        match r {
            Some(i) => {
                &&& i < entries@.len()
                &&& entries@[i as int].0@ == key@
                &&& forall|j: int| i < j < entries@.len() ==> #[trigger] entries@[j].0@ != key@
            },
            None => forall|j: int| 0 <= j < entries@.len() ==> #[trigger] entries@[j].0@ != key@,
        },
{
    let mut i = entries.len();
    while i > 0
        invariant
            i <= entries@.len(),
            forall|j: int| i <= j < entries@.len() ==> #[trigger] entries@[j].0@ != key@,
        decreases i,
    {
        i = i - 1;
        if entries[i].0 == *key {
            return Some(i);
        }
    }
    None
}

/// Sets the value of `key`, in place of any earlier one.
pub fn insert_keyed<V>(entries: &mut Vec<(String, V)>, key: String, value: V)
    ensures
        keyed_map(final(entries)@) == keyed_map(old(entries)@).insert(key@, value),
        keys_unique(old(entries)@) ==> keys_unique(final(entries)@),
{
    match find_key(entries, &key) {
        Some(i) => {
            proof {
                lemma_keyed_replace(entries@, i as int, (key, value));
            }
            entries.set(i, (key, value));
        },
        None => {
            let ghost before = entries@;
            entries.push((key, value));
            assert(entries@.drop_last() =~= before);
        },
    }
}

} // verus!
