//! A set of unique elements, kept as the keys of a hash map whose values are
//! the unit.
//!
//! The four combining operations keep the names they have always had in this
//! library, which differ from common usage: `intersection` yields what is
//! commonly called the union, `difference` what is commonly called the
//! intersection, and `union` and `symmetric_difference` are built from
//! `difference` and yield common elements twice. Each contract states exactly
//! what comes out.

use crate::hash_map::{HashMap, DEFAULT_CAPACITY};
use crate::key::Key;
use crate::layout::{alike, fits, grown, placed, removed, stored_all, vacant};
use crate::text::{chars_of, debug_text, terminate, terminated};
use std::fmt::Debug;
use vstd::prelude::*;
use vstd::set_lib::lemma_len_subset;

verus! {

/// What a sequence of references refers to.
pub open spec fn targets<T>(items: Seq<&T>) -> Seq<T> {
    items.map_values(|item: &T| *item)
}

/// The keys of a sequence of entries.
pub open spec fn keys<T>(entries: Seq<(T, ())>) -> Seq<T> {
    entries.map_values(|entry: (T, ())| entry.0)
}

/// The entries of a table that holds `items` as its keys.
pub open spec fn units<T>(items: Seq<T>) -> Seq<(T, ())> {
    items.map_values(|item: T| (item, ()))
}

/// The views of a sequence of elements, as a set.
pub open spec fn views_of<T: Key>(items: Seq<T>) -> Set<T::V> {
    Set::new(|v: T::V| exists|i: int| 0 <= i < items.len() && (#[trigger] items[i])@ == v)
}

/// Holds of the elements whose membership in `set` is `wanted`.
pub open spec fn member_is<T: Key>(set: Set<T::V>, wanted: bool) -> spec_fn(T) -> bool {
    |item: T| set.contains(item@) == wanted
}

/// The views of a sequence with one element more.
pub proof fn lemma_views_of_push<T: Key>(items: Seq<T>, item: T)
    ensures
        views_of(items.push(item)) == views_of(items).insert(item@),
{
    let more = items.push(item);
    assert forall|v: T::V| views_of(more).contains(v) implies views_of(items).insert(
        item@,
    ).contains(v) by {
        let i = choose|i: int| 0 <= i < more.len() && (#[trigger] more[i])@ == v;
        if i < items.len() {
            assert(items[i]@ == v);
        }
    }
    assert forall|v: T::V| views_of(items).insert(item@).contains(v) implies views_of(
        more,
    ).contains(v) by {
        if v == item@ {
            assert(more[items.len() as int]@ == v);
        } else {
            let i = choose|i: int| 0 <= i < items.len() && (#[trigger] items[i])@ == v;
            assert(more[i]@ == v);
        }
    }
    assert(views_of(more) =~= views_of(items).insert(item@));
}

/// The views of two sequences in a row.
pub proof fn lemma_views_of_add<T: Key>(a: Seq<T>, b: Seq<T>)
    ensures
        views_of(a + b) == views_of(a).union(views_of(b)),
{
    let both = a + b;
    assert forall|v: T::V| views_of(both).contains(v) implies views_of(a).union(
        views_of(b),
    ).contains(v) by {
        let i = choose|i: int| 0 <= i < both.len() && (#[trigger] both[i])@ == v;
        if i < a.len() {
            assert(a[i]@ == v);
        } else {
            assert(b[i - a.len()]@ == v);
        }
    }
    assert forall|v: T::V| views_of(a).union(views_of(b)).contains(v) implies views_of(
        both,
    ).contains(v) by {
        if views_of(a).contains(v) {
            let i = choose|i: int| 0 <= i < a.len() && (#[trigger] a[i])@ == v;
            assert(both[i]@ == v);
        } else {
            let i = choose|i: int| 0 <= i < b.len() && (#[trigger] b[i])@ == v;
            assert(both[a.len() + i]@ == v);
        }
    }
    assert(views_of(both) =~= views_of(a).union(views_of(b)));
}

/// The views of the elements that a membership test selects.
pub proof fn lemma_views_of_filter<T: Key>(items: Seq<T>, set: Set<T::V>, wanted: bool)
    ensures
        views_of(items.filter(member_is::<T>(set, wanted))) == views_of(items).filter(
            |v: T::V| set.contains(v) == wanted,
        ),
    decreases items.len(),
{
    reveal(Seq::filter);
    let pick = member_is::<T>(set, wanted);
    let test = |v: T::V| set.contains(v) == wanted;
    if items.len() == 0 {
        assert(views_of(items.filter(pick)) =~= views_of(items).filter(test));
    } else {
        let front = items.drop_last();
        let last = items.last();
        lemma_views_of_filter(front, set, wanted);
        assert(front.push(last) =~= items);
        lemma_views_of_push(front, last);
        if pick(last) {
            lemma_views_of_push(front.filter(pick), last);
        }
        assert(views_of(items.filter(pick)) =~= views_of(items).filter(test));
    }
}

/// A set of elements, unique by their views.
pub struct HashSet<T: Key> {
    hash_map: HashMap<T, ()>,
}

impl<T: Key> View for HashSet<T> {
    type V = Set<T::V>;

    /// The keys of the set's table.
    open spec fn view(&self) -> Set<T::V> {
        self.table()@.dom()
    }
}

impl<T: Key> HashSet<T> {
    /// The table that holds the elements as its keys.
    pub closed spec fn table(&self) -> HashMap<T, ()> {
        self.hash_map
    }

    /// The elements in the order of traversal.
    pub open spec fn elements(&self) -> Seq<T> {
        keys(self.table().entries())
    }

    /// The set is valid, which is to say that its table is. Every set that
    /// this library hands out is valid.
    pub open spec fn wf(&self) -> bool {
        self.table().wf()
    }

    /// A valid set is finite, has as many elements as its traversal, and
    /// holds exactly the views of the elements of its traversal, each once.
    pub proof fn lemma_elements(&self)
        requires
            self.wf(),
        ensures
            self@.finite(),
            self@.len() == self.elements().len(),
            self@ == views_of(self.elements()),
            forall|i: int, j: int|
                0 <= i < self.elements().len() && 0 <= j < self.elements().len()
                    && self.elements()[i]@ == self.elements()[j]@ ==> i == j,
    {
        let map = self.table();
        map.lemma_count();
        assert forall|v: T::V| self@.contains(v) implies views_of(self.elements()).contains(
            v,
        ) by {
            let n = map.lemma_view_in_entries(v);
            assert(self.elements()[n]@ == v);
        }
        assert forall|v: T::V| views_of(self.elements()).contains(v) implies self@.contains(
            v,
        ) by {
            let n = choose|n: int|
                0 <= n < self.elements().len() && (#[trigger] self.elements()[n])@ == v;
            map.lemma_entry_in_view(n);
        }
        assert(self@ =~= views_of(self.elements()));
        assert forall|i: int, j: int|
            0 <= i < self.elements().len() && 0 <= j < self.elements().len()
                && self.elements()[i]@ == self.elements()[j]@ implies i == j by {
            map.lemma_entries_distinct(i, j);
        }
    }

    /// Makes an empty set with the default capacity.
    pub fn new() -> (set: Self)
        ensures
            set@ == Set::<T::V>::empty(),
            set.table().layout() == vacant::<(T, ())>(DEFAULT_CAPACITY as nat),
    {
        let set = HashSet { hash_map: HashMap::new() };
        assert(set@ =~= Set::<T::V>::empty());
        set
    }

    /// Makes an empty set whose table has `capacity` buckets.
    pub fn with_capacity(capacity: usize) -> (set: Self)
        requires
            capacity >= 1,
        ensures
            set@ == Set::<T::V>::empty(),
            set.table().layout() == vacant::<(T, ())>(capacity as nat),
    {
        let set = HashSet { hash_map: HashMap::with_capacity(capacity) };
        assert(set@ =~= Set::<T::V>::empty());
        set
    }

    /// The number of elements.
    pub fn len(&self) -> (count: usize)
        ensures
            self@.finite(),
            count == self@.len(),
            count == self.elements().len(),
    {
        self.hash_map.len()
    }

    /// The number of buckets of the table.
    pub fn capacity(&self) -> (capacity: usize)
        ensures
            capacity == self.table().spec_capacity(),
    {
        self.hash_map.capacity()
    }

    /// Whether the set has no element.
    pub fn is_empty(&self) -> (empty: bool)
        ensures
            empty == (self@ == Set::<T::V>::empty()),
            empty == (self@.len() == 0),
    {
        proof {
            use_type_invariant(&self.hash_map);
            self.hash_map.lemma_count();
            if self@.len() == 0 {
                self@.lemma_len0_is_empty();
                assert(self@ =~= Set::<T::V>::empty());
            }
        }
        self.hash_map.len() == 0
    }

    /// Whether `value` is an element.
    pub fn contains(&self, value: &T) -> (found: bool)
        ensures
            found == self@.contains(value@),
    {
        self.hash_map.get(value).is_some()
    }

    /// Adds `value` and tells whether it was an element already: `true`
    /// means that the set held it before, `false` that it is new. (Many
    /// libraries answer the other way round.)
    ///
    /// Twice the capacity of a table over its load has to fit the machine's
    /// word, as for `HashMap::insert`.
    pub fn insert(&mut self, value: T) -> (existed: bool)
        requires
            old(self).table().needs_growth() ==> 2 * old(self).table().spec_capacity()
                <= usize::MAX,
        ensures
            final(self)@ == old(self)@.insert(value@),
            existed == old(self)@.contains(value@),
            final(self).table().layout() == placed(
                grown(old(self).table().layout(), DEFAULT_CAPACITY as nat),
                value,
                (),
            ),
    {
        self.hash_map.insert(value, ()).is_some()
    }

    /// Takes `value` out and tells whether it was an element.
    pub fn remove(&mut self, value: &T) -> (existed: bool)
        ensures
            final(self)@ == old(self)@.remove(value@),
            existed == old(self)@.contains(value@),
            final(self).table().layout() == removed(old(self).table().layout(), value@),
    {
        self.hash_map.remove(value).is_some()
    }

    /// The elements, by reference, in the order of traversal.
    pub fn iter(&self) -> (items: Vec<&T>)
        ensures
            targets(items@) == self.elements(),
    {
        let mut items: Vec<&T> = Vec::new();
        let mut entries = self.hash_map.iter();
        loop
            invariant
                entries.map() == self.hash_map,
                entries.position() <= self.elements().len(),
                targets(items@) == self.elements().take(entries.position() as int),
            ensures
                targets(items@) == self.elements(),
            decreases self.elements().len() - entries.position(),
        {
            let ghost n = entries.position() as int;
            let ghost before = items@;
            match entries.next() {
                Some(entry) => {
                    items.push(&entry.0);
                    proof {
                        assert(targets(before).len() == before.len());
                        assert(self.elements()[n] == entry.0);
                        assert forall|i: int| 0 <= i < n + 1 implies targets(items@)[i]
                            == self.elements().take(n + 1)[i] by {
                            if i < n {
                                assert(targets(before)[i] == self.elements().take(n)[i]);
                            }
                        }
                        assert(targets(items@) =~= self.elements().take(n + 1));
                    }
                },
                None => {
                    proof {
                        assert(self.elements().take(n) =~= self.elements());
                    }
                    break ;
                },
            }
        }
        items
    }

    /// The elements of `self` whose membership in `other` is `wanted`, by
    /// reference, in the order of traversal.
    fn select<'a>(&'a self, other: &Self, wanted: bool) -> (items: Vec<&'a T>)
        ensures
            targets(items@) == self.elements().filter(member_is::<T>(other@, wanted)),
    {
        let ghost pick = member_is::<T>(other@, wanted);
        let mut items: Vec<&T> = Vec::new();
        let mut entries = self.hash_map.iter();
        proof {
            reveal(Seq::filter);
            assert(self.elements().take(0) =~= Seq::<T>::empty());
            assert(targets(items@) =~= self.elements().take(0).filter(pick));
        }
        loop
            invariant
                pick == member_is::<T>(other@, wanted),
                entries.map() == self.hash_map,
                entries.position() <= self.elements().len(),
                targets(items@) == self.elements().take(entries.position() as int).filter(pick),
            ensures
                targets(items@) == self.elements().filter(pick),
            decreases self.elements().len() - entries.position(),
        {
            let ghost n = entries.position() as int;
            let ghost before = items@;
            match entries.next() {
                Some(entry) => {
                    proof {
                        assert(self.elements()[n] == entry.0);
                        assert(self.elements().take(n + 1) =~= self.elements().take(n).push(
                            entry.0,
                        ));
                        self.elements().take(n).lemma_filter_push(entry.0, pick);
                    }
                    if other.contains(&entry.0) == wanted {
                        items.push(&entry.0);
                        proof {
                            assert(targets(items@) =~= targets(before).push(entry.0));
                        }
                    }
                },
                None => {
                    proof {
                        assert(self.elements().take(n) =~= self.elements());
                    }
                    break ;
                },
            }
        }
        items
    }

    /// Whether every element of `self` is an element of `other`.
    pub fn is_subset(&self, other: &Self) -> (subset: bool)
        ensures
            subset == self@.subset_of(other@),
    {
        proof {
            use_type_invariant(&self.hash_map);
            use_type_invariant(&other.hash_map);
            self.lemma_elements();
            other.lemma_elements();
        }
        if self.len() > other.len() {
            proof {
                if self@.subset_of(other@) {
                    lemma_len_subset(self@, other@);
                }
            }
            return false;
        }
        let mut entries = self.hash_map.iter();
        loop
            invariant
                self.wf(),
                self@ == views_of(self.elements()),
                entries.map() == self.hash_map,
                entries.position() <= self.elements().len(),
                forall|i: int|
                    0 <= i < entries.position() ==> other@.contains(
                        (#[trigger] self.elements()[i])@,
                    ),
            ensures
                self@.subset_of(other@),
            decreases self.elements().len() - entries.position(),
        {
            let ghost n = entries.position() as int;
            match entries.next() {
                Some(entry) => {
                    proof {
                        assert(self.elements()[n] == entry.0);
                    }
                    if !other.contains(&entry.0) {
                        proof {
                            assert(self@.contains(entry.0@));
                        }
                        return false;
                    }
                },
                None => {
                    proof {
                        assert forall|v: T::V| self@.contains(v) implies other@.contains(v) by {
                            let i = choose|i: int|
                                0 <= i < self.elements().len() && (#[trigger] self.elements()[i])@
                                    == v;
                        }
                    }
                    break ;
                },
            }
        }
        true
    }

    /// Whether every element of `other` is an element of `self`.
    pub fn is_superset(&self, other: &Self) -> (superset: bool)
        ensures
            superset == other@.subset_of(self@),
    {
        other.is_subset(self)
    }

    /// Whether no element of `self` is an element of `other`.
    pub fn is_disjoint(self, other: &Self) -> (disjoint: bool)
        ensures
            disjoint == self@.disjoint(other@),
    {
        proof {
            use_type_invariant(&self.hash_map);
            self.lemma_elements();
        }
        let mut entries = self.hash_map.iter();
        loop
            invariant
                self.wf(),
                self@ == views_of(self.elements()),
                entries.map() == self.hash_map,
                entries.position() <= self.elements().len(),
                forall|i: int|
                    0 <= i < entries.position() ==> !other@.contains(
                        (#[trigger] self.elements()[i])@,
                    ),
            ensures
                self@.disjoint(other@),
            decreases self.elements().len() - entries.position(),
        {
            let ghost n = entries.position() as int;
            match entries.next() {
                Some(entry) => {
                    proof {
                        assert(self.elements()[n] == entry.0);
                    }
                    if other.contains(&entry.0) {
                        proof {
                            assert(self@.contains(entry.0@));
                        }
                        return false;
                    }
                },
                None => {
                    proof {
                        assert forall|v: T::V| self@.contains(v) implies !other@.contains(v) by {
                            let i = choose|i: int|
                                0 <= i < self.elements().len() && (#[trigger] self.elements()[i])@
                                    == v;
                        }
                    }
                    break ;
                },
            }
        }
        true
    }

    /// The elements of `self`, followed by the elements of `other` that are
    /// not in `self`: every element of either set, once. (Commonly called
    /// the union.)
    pub fn intersection<'a>(&'a self, other: &'a Self) -> (items: Vec<&'a T>)
        ensures
            targets(items@) == self.elements() + other.elements().filter(
                member_is::<T>(self@, false),
            ),
    {
        let mut items = self.iter();
        let mut rest = other.select(self, false);
        proof {
            assert(targets(items@ + rest@) =~= targets(items@) + targets(rest@));
        }
        items.append(&mut rest);
        items
    }

    /// The elements of `self` that are in `other` too. (Commonly called the
    /// intersection.)
    pub fn difference<'a>(&'a self, other: &'a Self) -> (items: Vec<&'a T>)
        ensures
            targets(items@) == self.elements().filter(member_is::<T>(other@, true)),
    {
        self.select(other, true)
    }

    /// The elements of `self`, followed by the elements of `other` that are
    /// in `self` too: every common element comes twice.
    pub fn union<'a>(&'a self, other: &'a Self) -> (items: Vec<&'a T>)
        ensures
            targets(items@) == self.elements() + other.elements().filter(
                member_is::<T>(self@, true),
            ),
    {
        let mut items = self.iter();
        let mut rest = other.difference(self);
        proof {
            assert(targets(items@ + rest@) =~= targets(items@) + targets(rest@));
        }
        items.append(&mut rest);
        items
    }

    /// The elements of `self` that are in `other`, followed by the elements
    /// of `other` that are in `self`: every common element comes twice.
    pub fn symmetric_difference<'a>(&'a self, other: &'a Self) -> (items: Vec<&'a T>)
        ensures
            targets(items@) == self.elements().filter(member_is::<T>(other@, true))
                + other.elements().filter(member_is::<T>(self@, true)),
    {
        let mut items = self.difference(other);
        let mut rest = other.difference(self);
        proof {
            assert(targets(items@ + rest@) =~= targets(items@) + targets(rest@));
        }
        items.append(&mut rest);
        items
    }

    /// Makes a set of copies of the elements that `items` refer to.
    fn collect(items: &Vec<&T>) -> (set: Self)
        requires
            fits(items@.len()),
        ensures
            set@ == views_of(targets(items@)),
    {
        let mut set = Self::new();
        let mut i: usize = 0;
        proof {
            assert(targets(items@).take(0) =~= Seq::<T>::empty());
            assert(views_of(targets(items@).take(0)) =~= Set::<T::V>::empty());
        }
        while i < items.len()
            invariant
                i <= items@.len(),
                fits(items@.len()),
                set@ == views_of(targets(items@).take(i as int)),
                set@.len() <= i,
            decreases items@.len() - i,
        {
            proof {
                use_type_invariant(&set.hash_map);
                set.hash_map.lemma_count();
                set.hash_map.lemma_room();
                assert(targets(items@).take(i + 1) =~= targets(items@).take(i as int).push(
                    *items@[i as int],
                ));
                lemma_views_of_push(targets(items@).take(i as int), *items@[i as int]);
            }
            set.insert(items[i].replica());
            i += 1;
        }
        proof {
            assert(targets(items@).take(i as int) =~= targets(items@));
        }
        set
    }

    /// Makes a set of the elements of `items`: each is inserted, in turn,
    /// into a set that starts empty with the default capacity.
    pub fn from_iter(items: Vec<T>) -> (set: Self)
        requires
            fits(items@.len()),
        ensures
            set@ == views_of(items@),
            set.table().layout() == stored_all(
                vacant::<(T, ())>(DEFAULT_CAPACITY as nat),
                units(items@),
                DEFAULT_CAPACITY as nat,
            ),
    {
        let mut set = Self::new();
        let ghost all = items@;
        proof {
            assert(all.take(0) =~= Seq::<T>::empty());
            assert(views_of(all.take(0)) =~= Set::<T::V>::empty());
        }
        for item in source: items.into_iter()
            invariant
                source.seq() == all,
                fits(all.len()),
                set@ == views_of(all.take(source.index() as int)),
                set@.len() <= source.index(),
                set.table().layout() == stored_all(
                    vacant::<(T, ())>(DEFAULT_CAPACITY as nat),
                    units(all.take(source.index() as int)),
                    DEFAULT_CAPACITY as nat,
                ),
        {
            proof {
                let i = source.index() as int;
                use_type_invariant(&set.hash_map);
                set.hash_map.lemma_count();
                set.hash_map.lemma_room();
                assert(all.take(i + 1) =~= all.take(i).push(item));
                lemma_views_of_push(all.take(i), item);
                assert(units(all.take(i + 1)).drop_last() =~= units(all.take(i)));
                assert(units(all.take(i + 1)).last() == (item, ()));
            }
            set.insert(item);
        }
        proof {
            assert(all.take(all.len() as int) =~= all);
        }
        set
    }

    /// A new set of what `union` yields, which is the elements of `self`.
    pub fn bitor(&self, other: &Self) -> (set: Self)
        requires
            fits(self@.len() + other@.len()),
        ensures
            set@ == self@,
    {
        let items = self.union(other);
        proof {
            use_type_invariant(&self.hash_map);
            use_type_invariant(&other.hash_map);
            self.lemma_elements();
            other.lemma_elements();
            let rest = other.elements().filter(member_is::<T>(self@, true));
            other.elements().lemma_filter_len(member_is::<T>(self@, true));
            lemma_views_of_add(self.elements(), rest);
            lemma_views_of_filter(other.elements(), self@, true);
            assert(views_of(targets(items@)) =~= self@);
        }
        Self::collect(&items)
    }

    /// A new set of what `intersection` yields, which is every element of
    /// either set.
    pub fn bitand(&self, other: &Self) -> (set: Self)
        requires
            fits(self@.len() + other@.len()),
        ensures
            set@ == self@.union(other@),
    {
        let items = self.intersection(other);
        proof {
            use_type_invariant(&self.hash_map);
            use_type_invariant(&other.hash_map);
            self.lemma_elements();
            other.lemma_elements();
            let rest = other.elements().filter(member_is::<T>(self@, false));
            other.elements().lemma_filter_len(member_is::<T>(self@, false));
            lemma_views_of_add(self.elements(), rest);
            lemma_views_of_filter(other.elements(), self@, false);
            assert(views_of(targets(items@)) =~= self@.union(other@));
        }
        Self::collect(&items)
    }

    /// A new set of what `difference` yields, which is the elements that
    /// the two sets have in common.
    pub fn sub(&self, other: &Self) -> (set: Self)
        requires
            fits(self@.len() + other@.len()),
        ensures
            set@ == self@.intersect(other@),
    {
        let items = self.difference(other);
        proof {
            use_type_invariant(&self.hash_map);
            self.lemma_elements();
            self.elements().lemma_filter_len(member_is::<T>(other@, true));
            lemma_views_of_filter(self.elements(), other@, true);
            assert(views_of(targets(items@)) =~= self@.intersect(other@));
        }
        Self::collect(&items)
    }

    /// A new set of what `symmetric_difference` yields, which is the
    /// elements that the two sets have in common.
    pub fn bitxor(&self, other: &Self) -> (set: Self)
        requires
            fits(self@.len() + other@.len()),
        ensures
            set@ == self@.intersect(other@),
    {
        let items = self.symmetric_difference(other);
        proof {
            use_type_invariant(&self.hash_map);
            use_type_invariant(&other.hash_map);
            self.lemma_elements();
            other.lemma_elements();
            let ours = self.elements().filter(member_is::<T>(other@, true));
            let theirs = other.elements().filter(member_is::<T>(self@, true));
            self.elements().lemma_filter_len(member_is::<T>(other@, true));
            other.elements().lemma_filter_len(member_is::<T>(self@, true));
            lemma_views_of_add(ours, theirs);
            lemma_views_of_filter(self.elements(), other@, true);
            lemma_views_of_filter(other.elements(), self@, true);
            assert(views_of(targets(items@)) =~= self@.intersect(other@));
        }
        Self::collect(&items)
    }
}

impl<T: Key + Debug> HashSet<T> {
    /// The elements in the order of traversal, one to a line. The text of an
    /// element is what its `Debug` writes.
    pub fn to_text(&self) -> (text: String)
        ensures
            exists|shown: Seq<Seq<char>>|
                shown.len() == self.elements().len() && text@ == terminated(shown, "\n"@),
    {
        let items = self.iter();
        let mut lines: Vec<String> = Vec::new();
        let mut i: usize = 0;
        proof {
            assert(targets(items@).len() == items@.len());
        }
        while i < items.len()
            invariant
                i <= items@.len(),
                lines@.len() == i,
            decreases items@.len() - i,
        {
            lines.push(debug_text(items[i]));
            i += 1;
        }
        let text = terminate(&lines, "\n");
        proof {
            assert(chars_of(lines@).len() == self.elements().len());
        }
        text
    }
}

impl<T: Key> Clone for HashSet<T> {
    /// A set with a copy of each element, in a table of the same layout.
    fn clone(&self) -> (copy: Self)
        ensures
            copy@ == self@,
            alike(self.table().layout(), copy.table().layout()),
    {
        HashSet { hash_map: self.hash_map.clone() }
    }
}

impl<T: Key> Default for HashSet<T> {
    /// The empty set with the default capacity.
    fn default() -> (set: Self)
        ensures
            set@ == Set::<T::V>::empty(),
    {
        Self::new()
    }
}

} // verus!
