//! What holds of the hash map whatever is done with it.

use crate::hash_map::{lookup, HashMap, DEFAULT_CAPACITY};
use crate::key::{home, Key};
use crate::layout::{
    grown, has_place, holds, lemma_first_place, lemma_flatten_update, lemma_grown,
    lemma_model_key, model, overloaded, place_of, placed, removed, table_wf,
};
use vstd::prelude::*;

verus! {

/// The map after each entry of `more` has been inserted, in turn.
pub open spec fn inserted_all<K: Key, V>(map: Map<K::V, V>, more: Seq<(K, V)>) -> Map<K::V, V>
    decreases more.len(),
{
    if more.len() == 0 {
        map
    } else {
        inserted_all(map, more.drop_last()).insert(more.last().0@, more.last().1)
    }
}

/// A value that was inserted under a key is what a lookup of the key gives,
/// however many entries with other keys are inserted after it.
pub proof fn law_insert_then_get<K: Key, V>(
    map: Map<K::V, V>,
    key: K,
    value: V,
    more: Seq<(K, V)>,
)
    requires
        forall|i: int| 0 <= i < more.len() ==> (#[trigger] more[i]).0@ != key@,
    ensures
        lookup::<K, V>(inserted_all(map.insert(key@, value), more), key@) == Some(value),
    decreases more.len(),
{
    if more.len() > 0 {
        assert(more.last().0@ != key@);
        law_insert_then_get(map, key, value, more.drop_last());
    }
}

/// No two entries of a table have the same key, and the table has as many
/// entries as its map has keys.
pub proof fn law_keys_are_unique<K: Key, V>(table: HashMap<K, V>, m: int, n: int)
    requires
        table.wf(),
        0 <= m < table.entries().len(),
        0 <= n < table.entries().len(),
        m != n,
    ensures
        table.entries()[m].0@ != table.entries()[n].0@,
        table.entries().len() == table@.len(),
        table@.dom().finite(),
{
    table.lemma_count();
    if table.entries()[m].0@ == table.entries()[n].0@ {
        table.lemma_entries_distinct(m, n);
    }
}

/// An insertion adds one to the number of keys if the key is new, and
/// nothing if the map has the key.
pub proof fn law_count_after_insert<K: Key, V>(map: Map<K::V, V>, key: K, value: V)
    requires
        map.dom().finite(),
    ensures
        map.insert(key@, value).dom().finite(),
        map.insert(key@, value).len() == map.len() + (if map.contains_key(key@) {
            0int
        } else {
            1int
        }),
{
    assert(map.insert(key@, value).dom() =~= map.dom().insert(key@));
}

/// Removing a key that the map lacks changes nothing. Removing a key that
/// the map has takes one from the number of keys. Either way a lookup of the
/// key then gives nothing.
pub proof fn law_remove<K: Key, V>(map: Map<K::V, V>, key: K)
    requires
        map.dom().finite(),
    ensures
        !map.contains_key(key@) ==> map.remove(key@) == map && lookup::<K, V>(map, key@)
            is None,
        map.contains_key(key@) ==> map.remove(key@).len() == map.len() - 1,
        lookup::<K, V>(map.remove(key@), key@) is None,
        map.remove(key@).dom().finite(),
{
    assert(map.remove(key@).dom() =~= map.dom().remove(key@));
    if !map.contains_key(key@) {
        assert(map.remove(key@) =~= map);
    }
}

/// The entries of a table are never more than one over three quarters of its
/// buckets.
pub proof fn law_load_within_one<K: Key, V>(table: HashMap<K, V>)
    requires
        table.wf(),
    ensures
        4 * table@.len() <= 3 * table.spec_capacity() + 4,
{
    table.lemma_count();
}

/// After an insertion the entries are at most three quarters of the buckets,
/// unless the key was new and the table stood within one entry of that bound
/// without being over it, or had a single bucket with a single entry.
pub proof fn law_load_after_insert<K: Key, V>(
    before: HashMap<K, V>,
    after: HashMap<K, V>,
    key: K,
    value: V,
)
    requires
        before.wf(),
        before.spec_capacity() > 0,
        after.layout() == placed(grown(before.layout(), DEFAULT_CAPACITY as nat), key, value),
        ({
            let count = before@.len();
            let capacity = before.spec_capacity();
            ||| before@.contains_key(key@)
            ||| 4 * count + 4 <= 3 * capacity
            ||| (4 * count > 3 * capacity && 4 * count + 4 <= 6 * capacity)
        }),
    ensures
        4 * after.entries().len() <= 3 * after.spec_capacity(),
{
    let b = before.layout();
    let g = grown(b, DEFAULT_CAPACITY as nat);
    before.lemma_count();
    lemma_grown(b, DEFAULT_CAPACITY as nat);
    let h = home::<K>(key@, g.len());
    if before@.contains_key(key@) {
        let p = lemma_model_key(g, key@);
        assert(holds(g, p.0, p.1));
        lemma_first_place(g[h], key@, p.1);
    }
    if has_place(g[h], key@) {
        let j = place_of(g[h], key@);
        lemma_flatten_update(g, h, g[h].update(j, (g[h][j].0, value)));
    } else {
        lemma_flatten_update(g, h, g[h].push((key, value)));
    }
}

/// An insertion doubles the buckets of a table that is over its load, gives a
/// table without buckets the default ones, and leaves the number of buckets
/// of any other table as it is. A removal never changes it.
pub proof fn law_capacity_only_doubles<K: Key, V>(table: Seq<Seq<(K, V)>>, key: K, value: V)
    ensures
        placed(grown(table, DEFAULT_CAPACITY as nat), key, value).len() == (if table.len() == 0 {
            DEFAULT_CAPACITY as nat
        } else if overloaded(table.flatten().len(), table.len()) {
            2 * table.len()
        } else {
            table.len()
        }),
        removed(table, key@).len() == table.len(),
{
}

/// Growing a table keeps what it holds: the layout that an insertion starts
/// from stands for the same map as the table, is valid, has buckets, and is
/// not over its load.
pub proof fn law_growth_keeps_contents<K: Key, V>(table: HashMap<K, V>)
    requires
        table.wf(),
    ensures
        model(grown(table.layout(), DEFAULT_CAPACITY as nat)) == table@,
        table_wf(grown(table.layout(), DEFAULT_CAPACITY as nat)),
        grown(table.layout(), DEFAULT_CAPACITY as nat).len() > 0,
        !overloaded(
            grown(table.layout(), DEFAULT_CAPACITY as nat).flatten().len(),
            grown(table.layout(), DEFAULT_CAPACITY as nat).len(),
        ),
{
    lemma_grown(table.layout(), DEFAULT_CAPACITY as nat);
}

} // verus!
