//! A hash map with chained buckets that doubles its capacity when its load
//! exceeds three quarters.

use crate::key::{home, make_index, Key};
use crate::layout::{
    alike, lemma_alike, first_at, fits, grown, has_place, holds, lemma_append, lemma_empty_layout, lemma_flatten_at,
    lemma_flatten_locate, lemma_flatten_split, lemma_flatten_update, lemma_model_absent,
    lemma_model_at, lemma_model_key, lemma_rehashed_empty, lemma_rehashed_push, lemma_replace,
    lemma_swap_remove, model, overloaded, place_of, placed, rehashed, removed, table_wf, vacant,
};
use crate::text::{chars_of, debug_text, pair, paired_all, terminate, terminated};
use std::fmt::Debug;
use vstd::prelude::*;
use vstd::seq_lib::lemma_flatten_concat;

verus! {

/// The number of buckets of a table made by `new`.
pub const DEFAULT_CAPACITY: usize = 4;

/// The contents of a vector of buckets.
pub open spec fn views<E>(buckets: Seq<Vec<E>>) -> Seq<Seq<E>> {
    Seq::new(buckets.len(), |i: int| buckets[i]@)
}

/// A map from keys to values, held in buckets: each entry lies in the bucket
/// that its key's digest selects.
///
/// Every table that `new` or `with_capacity` makes has buckets, and keeps
/// having them. While an operation works on the buckets the table is without
/// them, and it stays so if the operation is cut short, as by a failed
/// allocation. A table without buckets holds nothing; the next insertion
/// gives it the default ones.
pub struct HashMap<K: Key, V> {
    buckets: Vec<Vec<(K, V)>>,
}

impl<K: Key, V> View for HashMap<K, V> {
    type V = Map<K::V, V>;

    /// The map that the table's layout stands for.
    open spec fn view(&self) -> Map<K::V, V> {
        model(self.layout())
    }
}

/// What a map gives for a key: its value, or nothing.
pub open spec fn lookup<K: Key, V>(map: Map<K::V, V>, k: K::V) -> Option<V> {
    if map.contains_key(k) {
        Some(map[k])
    } else {
        None
    }
}

/// Looks for `key` in `bucket`: the first place that holds it, if any.
pub fn find<K: Key, V>(bucket: &Vec<(K, V)>, key: &K) -> (found: Option<usize>)
    ensures
        match found {
            Some(j) => j < bucket@.len() && bucket@[j as int].0@ == key@ && forall|t: int|
                0 <= t < j ==> (#[trigger] bucket@[t]).0@ != key@,
            None => forall|t: int| 0 <= t < bucket@.len() ==> (#[trigger] bucket@[t]).0@ != key@,
        },
{
    let mut j: usize = 0;
    while j < bucket.len()
        invariant
            j <= bucket@.len(),
            forall|t: int| 0 <= t < j ==> (#[trigger] bucket@[t]).0@ != key@,
        decreases bucket@.len() - j,
    {
        if bucket[j].0.same(key) {
            return Some(j);
        }
        j += 1;
    }
    None
}

/// Whether `count` entries are too many for `capacity` buckets.
pub fn over_load(count: usize, capacity: usize) -> (over: bool)
    ensures
        over == overloaded(count as nat, capacity as nat),
{
    4 * (count as u128) > 3 * (capacity as u128)
}

impl<K: Key, V> HashMap<K, V> {
    /// The buckets and what each holds, in order.
    pub closed spec fn layout(&self) -> Seq<Seq<(K, V)>> {
        views(self.buckets@)
    }

    /// The number of buckets.
    pub open spec fn spec_capacity(&self) -> nat {
        self.layout().len()
    }

    /// The entries in the order of traversal: bucket by bucket, and within a
    /// bucket in the order of its places.
    pub open spec fn entries(&self) -> Seq<(K, V)> {
        self.layout().flatten()
    }

    /// The table is valid: every entry lies in the home bucket of its key, no
    /// key occurs twice, and the load is within one entry of its bound. Every
    /// table that this library hands out is valid.
    #[verifier::type_invariant]
    pub open spec fn wf(&self) -> bool {
        table_wf(self.layout())
    }

    /// The map has finitely many keys, as many as the traversal has entries.
    pub proof fn lemma_count(&self)
        requires
            self.wf(),
        ensures
            self@.dom().finite(),
            self@.len() == self.entries().len(),
    {
    }

    /// A table of few enough entries can double when its load asks for it.
    pub proof fn lemma_room(&self)
        requires
            self.wf(),
            fits(self@.len()),
        ensures
            self.needs_growth() ==> 2 * self.spec_capacity() <= usize::MAX,
    {
    }

    /// Every entry of the traversal is in the map, under its key and with
    /// its value.
    pub proof fn lemma_entry_in_view(&self, n: int)
        requires
            self.wf(),
            0 <= n < self.entries().len(),
        ensures
            self@.contains_key(self.entries()[n].0@),
            self@[self.entries()[n].0@] == self.entries()[n].1,
    {
        let p = lemma_flatten_locate(self.layout(), n);
        lemma_model_at(self.layout(), p.0, p.1);
    }

    /// Every key of the map is the key of an entry of the traversal.
    pub proof fn lemma_view_in_entries(&self, k: K::V) -> (n: int)
        requires
            self.wf(),
            self@.contains_key(k),
        ensures
            0 <= n < self.entries().len(),
            self.entries()[n].0@ == k,
    {
        let p = lemma_model_key(self.layout(), k);
        lemma_flatten_at(self.layout(), p.0, p.1);
        self.layout().take(p.0).flatten().len() + p.1
    }

    /// No two entries of the traversal have the same key.
    pub proof fn lemma_entries_distinct(&self, m: int, n: int)
        requires
            self.wf(),
            0 <= m < self.entries().len(),
            0 <= n < self.entries().len(),
            self.entries()[m].0@ == self.entries()[n].0@,
        ensures
            m == n,
    {
        let p = lemma_flatten_locate(self.layout(), m);
        let q = lemma_flatten_locate(self.layout(), n);
        assert(holds(self.layout(), p.0, p.1) && holds(self.layout(), q.0, q.1));
    }

    /// The table is over its load, so that the next insertion doubles it.
    pub open spec fn needs_growth(&self) -> bool {
        overloaded(self.entries().len(), self.spec_capacity())
    }

    /// Makes an empty table with the default capacity.
    pub fn new() -> (map: Self)
        ensures
            map@ == Map::<K::V, V>::empty(),
            map.layout() == vacant::<(K, V)>(DEFAULT_CAPACITY as nat),
            map.entries() == Seq::<(K, V)>::empty(),
    {
        Self::with_capacity(DEFAULT_CAPACITY)
    }

    /// Makes an empty table of `capacity` buckets.
    pub fn with_capacity(capacity: usize) -> (map: Self)
        requires
            capacity >= 1,
        ensures
            map@ == Map::<K::V, V>::empty(),
            map.layout() == vacant::<(K, V)>(capacity as nat),
            map.entries() == Seq::<(K, V)>::empty(),
    {
        let mut buckets: Vec<Vec<(K, V)>> = Vec::with_capacity(capacity);
        let mut i: usize = 0;
        while i < capacity
            invariant
                i <= capacity,
                buckets@.len() == i,
                forall|t: int| 0 <= t < i ==> (#[trigger] buckets@[t])@.len() == 0,
            decreases capacity - i,
        {
            buckets.push(Vec::new());
            i += 1;
        }
        proof {
            lemma_empty_layout(views(buckets@));
            assert forall|t: int| 0 <= t < capacity implies #[trigger] views(buckets@)[t]
                == Seq::<(K, V)>::empty() by {
                assert(buckets@[t]@ =~= Seq::<(K, V)>::empty());
            }
            assert(views(buckets@) =~= vacant::<(K, V)>(capacity as nat));
        }
        HashMap { buckets }
    }

    /// The number of buckets.
    pub fn capacity(&self) -> (capacity: usize)
        ensures
            capacity == self.spec_capacity(),
    {
        self.buckets.len()
    }

    /// The number of entries.
    pub fn len(&self) -> (count: usize)
        ensures
            self@.dom().finite(),
            count == self@.len(),
            count == self.entries().len(),
    {
        proof {
            use_type_invariant(self);
        }
        let ghost b = self.layout();
        let mut count: usize = 0;
        let mut i: usize = 0;
        while i < self.buckets.len()
            invariant
                i <= self.buckets@.len(),
                b == views(self.buckets@),
                table_wf(b),
                count == b.take(i as int).flatten().len(),
            decreases self.buckets@.len() - i,
        {
            proof {
                assert(b.take(i + 1).drop_last() =~= b.take(i as int));
                assert(b.take(i + 1) =~= b.take(i as int).push(b[i as int]));
                b.take(i as int).lemma_flatten_push(b[i as int]);
                assert(b =~= b.take(i + 1) + b.skip(i + 1));
                lemma_flatten_concat(b.take(i + 1), b.skip(i + 1));
            }
            count = count + self.buckets[i].len();
            i += 1;
        }
        proof {
            assert(b.take(i as int) =~= b);
        }
        count
    }

    /// The value stored under `key`, if the table has the key.
    pub fn get(&self, key: &K) -> (value: Option<&V>)
        ensures
            match value {
                Some(v) => lookup::<K, V>(self@, key@) == Some(*v),
                None => lookup::<K, V>(self@, key@) is None,
            },
    {
        proof {
            use_type_invariant(self);
        }
        let capacity = self.buckets.len();
        if capacity == 0 {
            proof {
                lemma_empty_layout(self.layout());
            }
            return None;
        }
        let index = make_index(key, capacity);
        let bucket = &self.buckets[index];
        match find(bucket, key) {
            Some(j) => {
                proof {
                    lemma_model_at(self.layout(), index as int, j as int);
                }
                Some(&bucket[j].1)
            },
            None => {
                proof {
                    lemma_model_absent(self.layout(), key@);
                }
                None
            },
        }
    }

    /// Takes `key` out of the table and returns the value that was stored
    /// under it. The last entry of the key's bucket moves into its place, so
    /// the order within that bucket changes; the capacity does not.
    pub fn remove(&mut self, key: &K) -> (value: Option<V>)
        ensures
            final(self)@ == old(self)@.remove(key@),
            value == lookup::<K, V>(old(self)@, key@),
            final(self).layout() == removed(old(self).layout(), key@),
    {
        proof {
            use_type_invariant(&*self);
        }
        let ghost b = self.layout();
        let mut buckets: Vec<Vec<(K, V)>> = Vec::new();
        proof {
            lemma_empty_layout(views(buckets@));
        }
        core::mem::swap(&mut self.buckets, &mut buckets);
        let capacity = buckets.len();
        let mut value: Option<V> = None;
        if capacity > 0 {
            let index = make_index(key, capacity);
            match find(&buckets[index], key) {
                Some(j) => {
                    let entry = buckets[index].swap_remove(j);
                    value = Some(entry.1);
                    proof {
                        let s = b[index as int];
                        assert(first_at(s, key@, j as int));
                        lemma_model_at(b, index as int, j as int);
                        lemma_swap_remove(b, index as int, j as int);
                        assert(views(buckets@) =~= b.update(
                            index as int,
                            s.update(j as int, s.last()).drop_last(),
                        ));
                    }
                },
                None => {
                    proof {
                        lemma_model_absent(b, key@);
                        assert(views(buckets@) =~= b);
                        assert(model(b).remove(key@) =~= model(b));
                    }
                },
            }
        } else {
            proof {
                lemma_empty_layout(b);
                assert(views(buckets@) =~= b);
                assert(model(b).remove(key@) =~= model(b));
            }
        }
        self.buckets = buckets;
        value
    }

    /// Stores `value` under `key` and returns the value that the key had
    /// before. A table over its load is first rebuilt with twice the buckets;
    /// then the entry goes to the home bucket of its key, into the place that
    /// holds the key already or else behind the bucket's last entry.
    ///
    /// Twice the capacity of a table over its load has to fit the machine's
    /// word; `lemma_room` shows that it does while the entries are at most
    /// three eighths of `usize::MAX`.
    pub fn insert(&mut self, key: K, value: V) -> (previous: Option<V>)
        requires
            old(self).needs_growth() ==> 2 * old(self).spec_capacity() <= usize::MAX,
        ensures
            final(self)@ == old(self)@.insert(key@, value),
            previous == lookup::<K, V>(old(self)@, key@),
            final(self).layout() == placed(
                grown(old(self).layout(), DEFAULT_CAPACITY as nat),
                key,
                value,
            ),
        decreases
                (if old(self).needs_growth() {
                    1nat
                } else {
                    0nat
                }),
                1nat,
    {
        self.try_resize();
        proof {
            use_type_invariant(&*self);
        }
        let ghost b = self.layout();
        let ghost entry = (key, value);
        let mut buckets: Vec<Vec<(K, V)>> = Vec::new();
        proof {
            lemma_empty_layout(views(buckets@));
        }
        core::mem::swap(&mut self.buckets, &mut buckets);
        let index = make_index(&key, buckets.len());
        let previous = match find(&buckets[index], &key) {
            Some(j) => {
                let mut value = value;
                core::mem::swap(&mut buckets[index][j].1, &mut value);
                proof {
                    let s = b[index as int];
                    assert(first_at(s, key@, j as int));
                    assert(place_of(s, key@) == j);
                    lemma_model_at(b, index as int, j as int);
                    lemma_replace(b, index as int, j as int, entry.1);
                    assert(views(buckets@) =~= b.update(
                        index as int,
                        s.update(j as int, (s[j as int].0, entry.1)),
                    ));
                }
                Some(value)
            },
            None => {
                proof {
                    lemma_model_absent(b, key@);
                    lemma_append(b, entry);
                    assert(!has_place(b[index as int], key@));
                }
                buckets[index].push((key, value));
                proof {
                    assert(views(buckets@) =~= b.update(
                        index as int,
                        b[index as int].push(entry),
                    ));
                }
                None
            },
        };
        self.buckets = buckets;
        previous
    }

    /// Rebuilds a table that is over its load with twice the buckets: every
    /// entry, in the order of traversal, is inserted into the new table. A
    /// table without buckets gets the default ones.
    fn try_resize(&mut self)
        requires
            old(self).needs_growth() ==> 2 * old(self).spec_capacity() <= usize::MAX,
        ensures
            final(self)@ == old(self)@,
            final(self).layout() == grown(old(self).layout(), DEFAULT_CAPACITY as nat),
            final(self).spec_capacity() > 0,
            !final(self).needs_growth(),
        decreases
                (if old(self).needs_growth() {
                    1nat
                } else {
                    0nat
                }),
                0nat,
    {
        proof {
            use_type_invariant(&*self);
        }
        let ghost b = self.layout();
        let count = self.len();
        let capacity = self.buckets.len();
        if capacity == 0 {
            proof {
                lemma_empty_layout(b);
            }
            *self = Self::with_capacity(DEFAULT_CAPACITY);
        } else if over_load(count, capacity) {
            let mut new_map = Self::with_capacity(capacity * 2);
            let mut old_buckets: Vec<Vec<(K, V)>> = Vec::new();
            proof {
                lemma_empty_layout(views(old_buckets@));
                lemma_rehashed_empty::<K, V>((2 * capacity) as nat);
            }
            core::mem::swap(&mut self.buckets, &mut old_buckets);
            let ghost mut done: Seq<(K, V)> = Seq::empty();
            for bucket in outer: old_buckets.into_iter()
                invariant
                    views(outer.seq()) == b,
                    b == old(self).layout(),
                    capacity == b.len(),
                    0 < capacity,
                    2 * capacity <= usize::MAX,
                    table_wf(b),
                    count == b.flatten().len(),
                    overloaded(count as nat, capacity as nat),
                    done == b.take(outer.index() as int).flatten(),
                    new_map.layout() == rehashed(done, (2 * capacity) as nat),
                    new_map@.dom().finite(),
                    new_map@.len() == done.len(),
                    forall|i: int, j: int|
                        #![trigger holds(b, i, j)]
                        holds(b, i, j) && i < outer.index() ==> new_map@.contains_key(b[i][j].0@)
                            && new_map@[b[i][j].0@] == b[i][j].1,
                    forall|k: K::V|
                        #![trigger new_map@.contains_key(k)]
                        new_map@.contains_key(k) ==> exists|i: int, j: int|
                            #[trigger] holds(b, i, j) && i < outer.index() && b[i][j].0@ == k,
            {
                let ghost at = outer.index() as int;
                assert(bucket@ == b[at]);
                let ghost before = done;
                for entry in inner: bucket.into_iter()
                    invariant
                        inner.seq() == b[at],
                        b == old(self).layout(),
                        0 <= at < b.len(),
                        capacity == b.len(),
                        0 < capacity,
                        2 * capacity <= usize::MAX,
                        table_wf(b),
                        count == b.flatten().len(),
                        overloaded(count as nat, capacity as nat),
                        before == b.take(at).flatten(),
                        done == before + b[at].take(inner.index() as int),
                        new_map.layout() == rehashed(done, (2 * capacity) as nat),
                        new_map@.dom().finite(),
                        new_map@.len() == done.len(),
                        forall|i: int, j: int|
                            #![trigger holds(b, i, j)]
                            holds(b, i, j) && (i < at || (i == at && j < inner.index()))
                                ==> new_map@.contains_key(b[i][j].0@) && new_map@[b[i][j].0@]
                                == b[i][j].1,
                        forall|k: K::V|
                            #![trigger new_map@.contains_key(k)]
                            new_map@.contains_key(k) ==> exists|i: int, j: int|
                                #[trigger] holds(b, i, j) && (i < at || (i == at && j
                                    < inner.index())) && b[i][j].0@ == k,
                {
                    let ghost place = inner.index() as int;
                    let ghost e = entry;
                    let ghost l = new_map.layout();
                    let ghost m = new_map@;
                    proof {
                        use_type_invariant(&new_map);
                        assert(holds(b, at, place));
                        assert(e == b[at][place]);
                        lemma_flatten_at(b, at, place);
                        // The key is new to the table that is being built.
                        if m.contains_key(e.0@) {
                            let (i, j) = choose|i: int, j: int|
                                #[trigger] holds(b, i, j) && (i < at || (i == at && j < place))
                                    && b[i][j].0@ == e.0@;
                            assert(holds(b, i, j));
                        }
                        lemma_rehashed_push(done, e, (2 * capacity) as nat);
                        let h = home::<K>(e.0@, l.len());
                        if has_place(l[h], e.0@) {
                            let t = place_of(l[h], e.0@);
                            assert(holds(l, h, t));
                            lemma_model_at(l, h, t);
                        }
                        assert(b[at].take(place + 1) =~= b[at].take(place).push(e));
                        assert(before + b[at].take(place + 1) =~= done.push(e));
                        assert(l.flatten().len() == done.len());
                        assert(done.len() < count);
                        assert(!new_map.needs_growth());
                    }
                    new_map.insert(entry.0, entry.1);
                    proof {
                        done = done.push(e);
                        assert((e.0, e.1) == e);
                        assert forall|i: int, j: int|
                            #![trigger holds(b, i, j)]
                            holds(b, i, j) && (i < at || (i == at && j < place + 1))
                                implies new_map@.contains_key(b[i][j].0@) && new_map@[b[i][j].0@]
                                == b[i][j].1 by {
                            if !(i == at && j == place) {
                                assert(m.contains_key(b[i][j].0@));
                            }
                        }
                        assert forall|k: K::V|
                            #![trigger new_map@.contains_key(k)]
                            new_map@.contains_key(k) implies exists|i: int, j: int|
                                #[trigger] holds(b, i, j) && (i < at || (i == at && j < place
                                    + 1)) && b[i][j].0@ == k by {
                            if k == e.0@ {
                                assert(holds(b, at, place));
                            } else {
                                assert(m.contains_key(k));
                                let (i, j) = choose|i: int, j: int|
                                    #[trigger] holds(b, i, j) && (i < at || (i == at && j
                                        < place)) && b[i][j].0@ == k;
                                assert(holds(b, i, j));
                            }
                        }
                    }
                }
                proof {
                    assert(b[at].take(b[at].len() as int) =~= b[at]);
                    assert(b.take(at + 1) =~= b.take(at).push(b[at]));
                    b.take(at).lemma_flatten_push(b[at]);
                }
            }
            proof {
                use_type_invariant(&new_map);
                assert(b.take(b.len() as int) =~= b);
                assert(new_map.entries().len() == count);
                assert(new_map@ =~= model(b)) by {
                    assert forall|k: K::V| model(b).contains_key(k) implies new_map@.contains_key(
                        k,
                    ) by {
                        let p = lemma_model_key(b, k);
                        assert(holds(b, p.0, p.1));
                    }
                    assert forall|k: K::V| new_map@.contains_key(k) implies model(b).contains_key(
                        k,
                    ) && new_map@[k] == model(b)[k] by {
                        let (i, j) = choose|i: int, j: int|
                            #[trigger] holds(b, i, j) && i < b.len() && b[i][j].0@ == k;
                        lemma_model_at(b, i, j);
                    }
                }
            }
            *self = new_map;
        }
    }

    /// Starts a traversal of the entries, which leaves the table as it is.
    pub fn iter(&self) -> (iter: Iter<'_, K, V>)
        ensures
            iter.map() == *self,
            iter.position() == 0,
    {
        proof {
            assert(self.layout().take(0) =~= Seq::<Seq<(K, V)>>::empty());
        }
        Iter { hash_map: self, pos: (0, 0) }
    }

    /// Turns the table into a traversal that hands its entries out.
    pub fn into_iter(self) -> (iter: IntoIter<K, V>)
        ensures
            iter.pending() == self.entries(),
    {
        proof {
            assert(self.layout().skip(0) =~= self.layout());
        }
        IntoIter { buckets: self.buckets, at: 0 }
    }
}

impl<K: Key + Debug, V: Debug> HashMap<K, V> {
    /// The entries in the order of traversal, one to a line: the key's
    /// text, an arrow, the value's text. The text of a key or a value is
    /// what its `Debug` writes.
    pub fn to_text(&self) -> (text: String)
        ensures
            exists|shown: Seq<(Seq<char>, Seq<char>)>|
                shown.len() == self.entries().len() && text@ == terminated(
                    paired_all(shown),
                    "\n"@,
                ),
    {
        let mut lines: Vec<String> = Vec::new();
        let ghost mut shown: Seq<(Seq<char>, Seq<char>)> = Seq::empty();
        let mut iter = self.iter();
        loop
            invariant
                iter.map() == *self,
                shown.len() == iter.position(),
                iter.position() <= self.entries().len(),
                chars_of(lines@) == paired_all(shown),
            ensures
                shown.len() == self.entries().len(),
                chars_of(lines@) == paired_all(shown),
            decreases self.entries().len() - iter.position(),
        {
            match iter.next() {
                Some(entry) => {
                    let key = debug_text(&entry.0);
                    let value = debug_text(&entry.1);
                    let ghost before = shown;
                    let ghost had = lines@;
                    proof {
                        shown = shown.push((key@, value@));
                    }
                    lines.push(pair(key, value.as_str()));
                    proof {
                        assert(chars_of(had).len() == before.len());
                        assert(chars_of(lines@) =~= chars_of(had).push(lines@.last()@));
                        assert(paired_all(shown) =~= paired_all(before).push(lines@.last()@));
                    }
                },
                None => {
                    break ;
                },
            }
        }
        terminate(&lines, "\n")
    }
}

impl<K: Key, V: Copy> Clone for HashMap<K, V> {
    /// A table of the same layout that holds, place by place, a copy of each
    /// key with its value.
    fn clone(&self) -> (copy: Self)
        ensures
            copy@ == self@,
            alike(self.layout(), copy.layout()),
    {
        proof {
            use_type_invariant(self);
        }
        let ghost b = self.layout();
        let mut buckets: Vec<Vec<(K, V)>> = Vec::with_capacity(self.buckets.len());
        let mut i: usize = 0;
        while i < self.buckets.len()
            invariant
                i <= self.buckets@.len(),
                b == self.layout(),
                buckets@.len() == i,
                alike(b.take(i as int), views(buckets@)),
            decreases self.buckets@.len() - i,
        {
            let bucket = &self.buckets[i];
            let mut copies: Vec<(K, V)> = Vec::with_capacity(bucket.len());
            let mut j: usize = 0;
            while j < bucket.len()
                invariant
                    j <= bucket@.len(),
                    copies@.len() == j,
                    forall|t: int|
                        0 <= t < j ==> (#[trigger] copies@[t]).0@ == bucket@[t].0@ && copies@[t].1
                            == bucket@[t].1,
                decreases bucket@.len() - j,
            {
                copies.push((bucket[j].0.replica(), bucket[j].1));
                j += 1;
            }
            let ghost had = views(buckets@);
            buckets.push(copies);
            proof {
                assert(views(buckets@) =~= had.push(copies@));
                assert(b.take(i + 1) =~= b.take(i as int).push(bucket@));
                assert forall|s: int, t: int| #[trigger]
                    holds(b.take(i + 1), s, t) implies b.take(i + 1)[s][t].0@ == views(
                    buckets@,
                )[s][t].0@ && b.take(i + 1)[s][t].1 == views(buckets@)[s][t].1 by {
                    if s < i {
                        assert(holds(b.take(i as int), s, t));
                    }
                }
            }
            i += 1;
        }
        proof {
            assert(b.take(i as int) =~= b);
            lemma_alike(b, views(buckets@));
        }
        HashMap { buckets }
    }
}

impl<K: Key, V> Default for HashMap<K, V> {
    /// The empty table with the default capacity.
    fn default() -> (map: Self)
        ensures
            map@ == Map::<K::V, V>::empty(),
            map.layout() == vacant::<(K, V)>(DEFAULT_CAPACITY as nat),
    {
        Self::with_capacity(DEFAULT_CAPACITY)
    }
}

/// A traversal of a table's entries by reference, in the order of
/// `HashMap::entries`.
pub struct Iter<'a, K: Key, V> {
    hash_map: &'a HashMap<K, V>,
    pos: (usize, usize),
}

impl<'a, K: Key, V> Iter<'a, K, V> {
    /// The cursor points at a place of a bucket, or behind the last bucket.
    #[verifier::type_invariant]
    closed spec fn wf(&self) -> bool {
        let b = self.hash_map.layout();
        if self.pos.0 < b.len() {
            self.pos.1 <= b[self.pos.0 as int].len()
        } else {
            self.pos.0 == b.len() && self.pos.1 == 0
        }
    }

    /// The table that is traversed.
    pub closed spec fn map(&self) -> HashMap<K, V> {
        *self.hash_map
    }

    /// The number of entries that the traversal has passed.
    pub closed spec fn position(&self) -> nat {
        (self.hash_map.layout().take(self.pos.0 as int).flatten().len() + self.pos.1) as nat
    }

    /// Hands out the next entry of the traversal, if one is left.
    pub fn next(&mut self) -> (item: Option<&'a (K, V)>)
        ensures
            final(self).map() == old(self).map(),
            match item {
                Some(entry) => {
                    &&& old(self).position() < old(self).map().entries().len()
                    &&& *entry == old(self).map().entries()[old(self).position() as int]
                    &&& final(self).position() == old(self).position() + 1
                },
                None => {
                    &&& old(self).position() == old(self).map().entries().len()
                    &&& final(self).position() == old(self).position()
                },
            },
    {
        proof {
            use_type_invariant(&*self);
        }
        let ghost b = self.hash_map.layout();
        while self.pos.0 < self.hash_map.buckets.len()
            invariant
                self.hash_map == old(self).hash_map,
                b == self.hash_map.layout(),
                self.wf(),
                self.position() == old(self).position(),
            decreases b.len() - self.pos.0,
        {
            let bucket = &self.hash_map.buckets[self.pos.0];
            if self.pos.1 == bucket.len() {
                proof {
                    let at = self.pos.0 as int;
                    assert(b.take(at + 1) =~= b.take(at).push(b[at]));
                    b.take(at).lemma_flatten_push(b[at]);
                }
                self.pos = (self.pos.0 + 1, 0);
            } else {
                proof {
                    lemma_flatten_at(b, self.pos.0 as int, self.pos.1 as int);
                }
                let entry = &bucket[self.pos.1];
                self.pos.1 += 1;
                return Some(entry);
            }
        }
        proof {
            assert(b.take(b.len() as int) =~= b);
        }
        None
    }
}

/// A traversal that owns a table's buckets and hands the entries out, in the
/// order of `HashMap::entries`.
pub struct IntoIter<K: Key, V> {
    buckets: Vec<Vec<(K, V)>>,
    at: usize,
}

impl<K: Key, V> IntoIter<K, V> {
    /// The entries that are still to come, in their order.
    pub closed spec fn pending(&self) -> Seq<(K, V)> {
        if self.at < self.buckets@.len() {
            views(self.buckets@).skip(self.at as int).flatten()
        } else {
            Seq::empty()
        }
    }

    /// Hands out the next entry: it takes the foremost entry out of the first
    /// bucket that is not empty.
    pub fn next(&mut self) -> (item: Option<(K, V)>)
        ensures
            match item {
                Some(entry) => {
                    &&& old(self).pending().len() > 0
                    &&& entry == old(self).pending()[0]
                    &&& final(self).pending() == old(self).pending().drop_first()
                },
                None => {
                    &&& old(self).pending().len() == 0
                    &&& final(self).pending() == old(self).pending()
                },
            },
    {
        while self.at < self.buckets.len()
            invariant
                self.pending() == old(self).pending(),
            decreases self.buckets@.len() - self.at,
        {
            let ghost b = views(self.buckets@);
            let ghost at = self.at as int;
            let ghost rest = b.skip(at);
            proof {
                lemma_flatten_split(rest, 0);
                assert(rest.take(0) =~= Seq::<Seq<(K, V)>>::empty());
                assert(rest.skip(1) =~= b.skip(at + 1));
                assert(rest.flatten() =~= b[at] + b.skip(at + 1).flatten());
            }
            if self.buckets[self.at].is_empty() {
                proof {
                    if at + 1 == b.len() {
                        assert(b.skip(at + 1) =~= Seq::<Seq<(K, V)>>::empty());
                    }
                }
                self.at += 1;
            } else {
                let entry = self.buckets[self.at].remove(0);
                proof {
                    let c = views(self.buckets@);
                    assert(c =~= b.update(at, b[at].remove(0)));
                    lemma_flatten_update(rest, 0, b[at].remove(0));
                    assert(c.skip(at) =~= rest.update(0, b[at].remove(0)));
                    assert(b[at].remove(0) =~= b[at].drop_first());
                    assert(c.skip(at).flatten() =~= rest.flatten().drop_first());
                }
                return Some(entry);
            }
        }
        None
    }
}

} // verus!
