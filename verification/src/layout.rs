//! The mathematics of a table's buckets: which entries a layout holds, in what
//! order they are traversed, and when a layout is a valid hash table.

use crate::key::{home, Key};
use vstd::prelude::*;
use vstd::seq_lib::lemma_flatten_concat;

verus! {

/// `(i, j)` is a position of the layout: bucket `i`, place `j` within it.
pub open spec fn holds<E>(b: Seq<Seq<E>>, i: int, j: int) -> bool {
    0 <= i < b.len() && 0 <= j < b[i].len()
}

/// Some entry of the layout has a key with view `k`.
pub open spec fn has_key<K: Key, V>(b: Seq<Seq<(K, V)>>, k: K::V) -> bool {
    exists|i: int, j: int| #[trigger] holds(b, i, j) && b[i][j].0@ == k
}

/// The value stored under the key with view `k`.
pub open spec fn value_of<K: Key, V>(b: Seq<Seq<(K, V)>>, k: K::V) -> V {
    let (i, j) = choose|i: int, j: int| #[trigger] holds(b, i, j) && b[i][j].0@ == k;
    b[i][j].1
}

/// The map that a layout stands for.
pub open spec fn model<K: Key, V>(b: Seq<Seq<(K, V)>>) -> Map<K::V, V> {
    Map::new(|k: K::V| has_key(b, k), |k: K::V| value_of(b, k))
}

/// Every entry lies in the home bucket of its key.
pub open spec fn well_placed<K: Key, V>(b: Seq<Seq<(K, V)>>) -> bool {
    forall|i: int, j: int| #[trigger]
        holds(b, i, j) ==> home::<K>(b[i][j].0@, b.len()) == i
}

/// No key occurs at two positions.
pub open spec fn unique<K: Key, V>(b: Seq<Seq<(K, V)>>) -> bool {
    forall|i1: int, j1: int, i2: int, j2: int|
        #[trigger] holds(b, i1, j1) && #[trigger] holds(b, i2, j2) && b[i1][j1].0@
            == b[i2][j2].0@ ==> i1 == i2 && j1 == j2
}

/// So few entries that a table which holds them can still double its
/// capacity when its load asks for it.
pub open spec fn fits(count: nat) -> bool {
    8 * count <= 3 * usize::MAX
}

/// A table of `capacity` buckets with `count` entries is over its load: the
/// entries are more than three quarters of the buckets.
pub open spec fn overloaded(count: nat, capacity: nat) -> bool {
    4 * count > 3 * capacity
}

/// The load is at most one entry over three quarters of the buckets.
pub open spec fn within_load<E>(b: Seq<Seq<E>>) -> bool {
    4 * b.flatten().len() <= 3 * b.len() + 4
}

/// The map has as many keys as the layout has entries.
pub open spec fn counted<K: Key, V>(b: Seq<Seq<(K, V)>>) -> bool {
    model(b).dom().finite() && model(b).dom().len() == b.flatten().len()
}

/// The layout is a valid hash table.
pub open spec fn table_wf<K: Key, V>(b: Seq<Seq<(K, V)>>) -> bool {
    &&& well_placed(b)
    &&& unique(b)
    &&& within_load(b)
    &&& counted(b)
}

/// The layout after each of `entries` has been stored, in turn, by an
/// insertion: before each the layout grows as `grown` says, with `fallback`
/// buckets where it has none.
pub open spec fn stored_all<K: Key, V>(
    b: Seq<Seq<(K, V)>>,
    entries: Seq<(K, V)>,
    fallback: nat,
) -> Seq<Seq<(K, V)>>
    decreases entries.len(),
{
    if entries.len() == 0 {
        b
    } else {
        placed(
            grown(stored_all(b, entries.drop_last(), fallback), fallback),
            entries.last().0,
            entries.last().1,
        )
    }
}

/// Two layouts of the same shape hold the same values under keys with the
/// same views, place by place.
pub open spec fn alike<K: Key, V>(b: Seq<Seq<(K, V)>>, c: Seq<Seq<(K, V)>>) -> bool {
    &&& b.len() == c.len()
    &&& forall|i: int| 0 <= i < b.len() ==> (#[trigger] b[i]).len() == c[i].len()
    &&& forall|i: int, j: int| #[trigger]
        holds(b, i, j) ==> b[i][j].0@ == c[i][j].0@ && b[i][j].1 == c[i][j].1
}

/// Place `j` of bucket `s` is the first that holds a key with view `k`.
pub open spec fn first_at<K: Key, V>(s: Seq<(K, V)>, k: K::V, j: int) -> bool {
    &&& 0 <= j < s.len()
    &&& s[j].0@ == k
    &&& forall|t: int| 0 <= t < j ==> (#[trigger] s[t]).0@ != k
}

/// Bucket `s` holds a key with view `k`.
pub open spec fn has_place<K: Key, V>(s: Seq<(K, V)>, k: K::V) -> bool {
    exists|j: int| first_at(s, k, j)
}

/// The first place of bucket `s` that holds a key with view `k`.
pub open spec fn place_of<K: Key, V>(s: Seq<(K, V)>, k: K::V) -> int {
    choose|j: int| first_at(s, k, j)
}

/// The layout after `value` has been stored under `key`, in the home bucket
/// of the key: in the place that holds the key already, whose key stays, or
/// else behind the bucket's last entry. A layout without buckets stays so.
pub open spec fn placed<K: Key, V>(b: Seq<Seq<(K, V)>>, key: K, value: V) -> Seq<Seq<(K, V)>> {
    if b.len() == 0 {
        b
    } else {
        let h = home::<K>(key@, b.len());
        if has_place(b[h], key@) {
            let j = place_of(b[h], key@);
            b.update(h, b[h].update(j, (b[h][j].0, value)))
        } else {
            b.update(h, b[h].push((key, value)))
        }
    }
}

/// The layout after the key with view `k` has been taken out of its home
/// bucket: the bucket's last entry moves into the place that held the key.
pub open spec fn removed<K: Key, V>(b: Seq<Seq<(K, V)>>, k: K::V) -> Seq<Seq<(K, V)>> {
    if b.len() == 0 {
        b
    } else {
        let h = home::<K>(k, b.len());
        if has_place(b[h], k) {
            let j = place_of(b[h], k);
            b.update(h, b[h].update(j, b[h].last()).drop_last())
        } else {
            b
        }
    }
}

/// Holds of the entries whose home among `capacity` buckets is bucket `i`.
pub open spec fn at_home<K: Key, V>(capacity: nat, i: int) -> spec_fn((K, V)) -> bool {
    |e: (K, V)| home::<K>(e.0@, capacity) == i
}

/// The layout of `capacity` buckets over which `entries` are spread: each
/// bucket holds the entries whose home it is, in the order they came in.
pub open spec fn rehashed<K: Key, V>(entries: Seq<(K, V)>, capacity: nat) -> Seq<Seq<(K, V)>> {
    Seq::new(capacity, |i: int| entries.filter(at_home::<K, V>(capacity, i)))
}

/// The layout of `capacity` empty buckets.
pub open spec fn vacant<E>(capacity: nat) -> Seq<Seq<E>> {
    Seq::new(capacity, |i: int| Seq::<E>::empty())
}

/// The layout that an insertion starts from. A layout over its load is first
/// spread over twice as many buckets, and one without buckets gets
/// `fallback` empty ones; any other is left as it is.
pub open spec fn grown<K: Key, V>(b: Seq<Seq<(K, V)>>, fallback: nat) -> Seq<Seq<(K, V)>> {
    if b.len() == 0 {
        vacant(fallback)
    } else if overloaded(b.flatten().len(), b.len()) {
        rehashed(b.flatten(), 2 * b.len())
    } else {
        b
    }
}

/// A layout splits around any of its buckets.
pub proof fn lemma_flatten_split<E>(b: Seq<Seq<E>>, i: int)
    requires
        0 <= i < b.len(),
    ensures
        b.flatten() == b.take(i).flatten() + b[i] + b.skip(i + 1).flatten(),
{
    let front = b.take(i);
    let back = b.skip(i + 1);
    assert(b =~= (front + seq![b[i]]) + back);
    lemma_flatten_concat(front + seq![b[i]], back);
    lemma_flatten_concat(front, seq![b[i]]);
    seq![b[i]].lemma_flatten_one_element();
}

/// Replacing one bucket changes the traversal between the same two ends.
pub proof fn lemma_flatten_update<E>(b: Seq<Seq<E>>, i: int, bucket: Seq<E>)
    requires
        0 <= i < b.len(),
    ensures
        b.update(i, bucket).flatten() == b.take(i).flatten() + bucket + b.skip(i + 1).flatten(),
        b.update(i, bucket).flatten().len() == b.flatten().len() - b[i].len() + bucket.len(),
{
    let c = b.update(i, bucket);
    lemma_flatten_split(b, i);
    lemma_flatten_split(c, i);
    assert(c.take(i) =~= b.take(i));
    assert(c.skip(i + 1) =~= b.skip(i + 1));
}

/// The entry at place `j` of bucket `i` is traversed after all entries of
/// the buckets before it and the `j` entries before it in its own bucket.
pub proof fn lemma_flatten_at<E>(b: Seq<Seq<E>>, i: int, j: int)
    requires
        holds(b, i, j),
    ensures
        b.take(i).flatten().len() + j < b.flatten().len(),
        b.flatten()[b.take(i).flatten().len() + j] == b[i][j],
{
    lemma_flatten_split(b, i);
}

/// Every traversed entry comes from a position of the layout.
pub proof fn lemma_flatten_locate<E>(b: Seq<Seq<E>>, n: int) -> (p: (int, int))
    requires
        0 <= n < b.flatten().len(),
    ensures
        holds(b, p.0, p.1),
        b.take(p.0).flatten().len() + p.1 == n,
        b.flatten()[n] == b[p.0][p.1],
    decreases b.len(),
{
    let front = b.drop_last();
    assert(front.push(b.last()) =~= b);
    front.lemma_flatten_push(b.last());
    if n < front.flatten().len() {
        let p = lemma_flatten_locate(front, n);
        assert(b.take(p.0) =~= front.take(p.0));
        p
    } else {
        assert(b.take(b.len() - 1) =~= front);
        (b.len() - 1, n - front.flatten().len())
    }
}

/// A layout of empty buckets holds nothing.
pub proof fn lemma_empty_layout<K: Key, V>(b: Seq<Seq<(K, V)>>)
    requires
        forall|i: int| 0 <= i < b.len() ==> (#[trigger] b[i]).len() == 0,
    ensures
        b.flatten() == Seq::<(K, V)>::empty(),
        model(b) == Map::<K::V, V>::empty(),
        table_wf(b),
    decreases b.len(),
{
    if b.len() > 0 {
        let front = b.drop_last();
        assert(front.push(b.last()) =~= b);
        front.lemma_flatten_push(b.last());
        lemma_empty_layout(front);
    }
    assert(b.flatten() =~= Seq::<(K, V)>::empty());
    assert(model(b) =~= Map::<K::V, V>::empty());
    assert(model(b).dom() =~= Set::<K::V>::empty());
}

/// What a position holds is what the map gives for its key.
pub proof fn lemma_model_at<K: Key, V>(b: Seq<Seq<(K, V)>>, i: int, j: int)
    requires
        unique(b),
        holds(b, i, j),
    ensures
        model(b).contains_key(b[i][j].0@),
        model(b)[b[i][j].0@] == b[i][j].1,
{
    let k = b[i][j].0@;
    assert(has_key(b, k));
    let (i2, j2) = choose|i2: int, j2: int| #[trigger] holds(b, i2, j2) && b[i2][j2].0@ == k;
    assert(holds(b, i2, j2) && b[i2][j2].0@ == k);
}

/// A key of the map lies at some position.
pub proof fn lemma_model_key<K: Key, V>(b: Seq<Seq<(K, V)>>, k: K::V) -> (p: (int, int))
    requires
        model(b).contains_key(k),
    ensures
        holds(b, p.0, p.1),
        b[p.0][p.1].0@ == k,
{
    choose|i: int, j: int| #[trigger] holds(b, i, j) && b[i][j].0@ == k
}

/// A key that its home bucket lacks is no key of the map.
pub proof fn lemma_model_absent<K: Key, V>(b: Seq<Seq<(K, V)>>, k: K::V)
    requires
        well_placed(b),
        b.len() > 0,
        forall|j: int|
            0 <= j < b[home::<K>(k, b.len())].len() ==> (#[trigger] b[home::<K>(
                k,
                b.len(),
            )][j]).0@ != k,
    ensures
        !model(b).contains_key(k),
{
    if has_key(b, k) {
        let p = lemma_model_key(b, k);
        assert(holds(b, p.0, p.1));
        assert(b[home::<K>(k, b.len())][p.1].0@ != k);
    }
}

/// A bucket that holds a key at some place holds it at a first place.
pub proof fn lemma_first_place<K: Key, V>(s: Seq<(K, V)>, k: K::V, j: int)
    requires
        0 <= j < s.len(),
        s[j].0@ == k,
    ensures
        has_place(s, k),
        first_at(s, k, place_of(s, k)),
    decreases j,
{
    if exists|t: int| 0 <= t < j && (#[trigger] s[t]).0@ == k {
        let t = choose|t: int| 0 <= t < j && (#[trigger] s[t]).0@ == k;
        lemma_first_place(s, k, t);
    } else {
        assert(first_at(s, k, j));
    }
}

/// Appending an entry with a new key to its home bucket inserts it into the
/// map and keeps the layout's order, placement and count.
pub proof fn lemma_append<K: Key, V>(b: Seq<Seq<(K, V)>>, e: (K, V))
    requires
        b.len() > 0,
        well_placed(b),
        unique(b),
        counted(b),
        !model(b).contains_key(e.0@),
    ensures
        ({
            let h = home::<K>(e.0@, b.len());
            let c = b.update(h, b[h].push(e));
            &&& 0 <= h < b.len()
            &&& well_placed(c)
            &&& unique(c)
            &&& counted(c)
            &&& model(c) == model(b).insert(e.0@, e.1)
            &&& c.flatten().len() == b.flatten().len() + 1
        }),
{
    let h = home::<K>(e.0@, b.len());
    let c = b.update(h, b[h].push(e));
    let last = b[h].len() as int;
    lemma_flatten_update(b, h, b[h].push(e));
    assert forall|i: int, j: int| #[trigger] holds(c, i, j) implies (if i == h && j == last {
        c[i][j] == e
    } else {
        holds(b, i, j) && c[i][j] == b[i][j]
    }) by {}
    assert forall|i: int, j: int| #[trigger] holds(b, i, j) implies holds(c, i, j) && c[i][j]
        == b[i][j] by {}
    assert(holds(c, h, last));
    assert(well_placed(c));
    assert(unique(c)) by {
        assert forall|i1: int, j1: int, i2: int, j2: int|
            #[trigger] holds(c, i1, j1) && #[trigger] holds(c, i2, j2) && c[i1][j1].0@
                == c[i2][j2].0@ implies i1 == i2 && j1 == j2 by {
            if i1 == h && j1 == last {
                if !(i2 == h && j2 == last) {
                    assert(holds(b, i2, j2));
                    assert(has_key(b, e.0@));
                }
            } else if i2 == h && j2 == last {
                assert(holds(b, i1, j1));
                assert(has_key(b, e.0@));
            } else {
                assert(holds(b, i1, j1) && holds(b, i2, j2));
            }
        }
    }
    assert(model(c) =~= model(b).insert(e.0@, e.1)) by {
        assert forall|k: K::V| model(c).contains_key(k) implies model(b).insert(
            e.0@,
            e.1,
        ).contains_key(k) && model(c)[k] == model(b).insert(e.0@, e.1)[k] by {
            let p = lemma_model_key(c, k);
            lemma_model_at(c, p.0, p.1);
            if !(p.0 == h && p.1 == last) {
                assert(holds(b, p.0, p.1));
                lemma_model_at(b, p.0, p.1);
            }
        }
        assert forall|k: K::V| model(b).insert(e.0@, e.1).contains_key(k) implies model(
            c,
        ).contains_key(k) by {
            if k == e.0@ {
                lemma_model_at(c, h, last);
            } else {
                let p = lemma_model_key(b, k);
                assert(holds(c, p.0, p.1));
                lemma_model_at(c, p.0, p.1);
            }
        }
    }
}

/// Replacing the value at a position assigns it to the position's key and
/// leaves the rest of the table as it was.
pub proof fn lemma_replace<K: Key, V>(b: Seq<Seq<(K, V)>>, i: int, j: int, v: V)
    requires
        table_wf(b),
        holds(b, i, j),
    ensures
        ({
            let c = b.update(i, b[i].update(j, (b[i][j].0, v)));
            &&& table_wf(c)
            &&& model(c) == model(b).insert(b[i][j].0@, v)
            &&& c.flatten().len() == b.flatten().len()
        }),
{
    let key = b[i][j].0;
    let c = b.update(i, b[i].update(j, (key, v)));
    lemma_flatten_update(b, i, b[i].update(j, (key, v)));
    assert forall|i1: int, j1: int| #[trigger] holds(c, i1, j1) implies holds(b, i1, j1)
        && c[i1][j1].0 == b[i1][j1].0 && (if i1 == i && j1 == j {
        c[i1][j1].1 == v
    } else {
        c[i1][j1] == b[i1][j1]
    }) by {}
    assert forall|i1: int, j1: int| #[trigger] holds(b, i1, j1) implies holds(c, i1, j1) by {}
    assert(well_placed(c));
    assert(unique(c)) by {
        assert forall|i1: int, j1: int, i2: int, j2: int|
            #[trigger] holds(c, i1, j1) && #[trigger] holds(c, i2, j2) && c[i1][j1].0@
                == c[i2][j2].0@ implies i1 == i2 && j1 == j2 by {
            assert(holds(b, i1, j1) && holds(b, i2, j2));
        }
    }
    lemma_model_at(b, i, j);
    assert(model(c) =~= model(b).insert(key@, v)) by {
        assert forall|k: K::V| model(c).contains_key(k) implies model(b).insert(
            key@,
            v,
        ).contains_key(k) && model(c)[k] == model(b).insert(key@, v)[k] by {
            let p = lemma_model_key(c, k);
            lemma_model_at(c, p.0, p.1);
            assert(holds(b, p.0, p.1));
            lemma_model_at(b, p.0, p.1);
        }
        assert forall|k: K::V| model(b).insert(key@, v).contains_key(k) implies model(
            c,
        ).contains_key(k) by {
            let p = if k == key@ {
                (i, j)
            } else {
                lemma_model_key(b, k)
            };
            assert(holds(c, p.0, p.1));
            lemma_model_at(c, p.0, p.1);
        }
    }
    assert(model(c).dom() =~= model(b).dom());
}

/// Moving a bucket's last entry into a position removes the position's key
/// from the map and leaves the rest of the table as it was.
pub proof fn lemma_swap_remove<K: Key, V>(b: Seq<Seq<(K, V)>>, i: int, j: int)
    requires
        table_wf(b),
        holds(b, i, j),
    ensures
        ({
            let c = b.update(i, b[i].update(j, b[i].last()).drop_last());
            &&& table_wf(c)
            &&& model(c) == model(b).remove(b[i][j].0@)
            &&& c.flatten().len() == b.flatten().len() - 1
        }),
{
    let gone = b[i][j].0@;
    let end = b[i].len() - 1;
    let c = b.update(i, b[i].update(j, b[i].last()).drop_last());
    lemma_flatten_update(b, i, b[i].update(j, b[i].last()).drop_last());
    // Where each position of the new layout comes from.
    assert forall|i1: int, j1: int| #[trigger] holds(c, i1, j1) implies (if i1 == i && j1 == j {
        holds(b, i, end) && c[i1][j1] == b[i][end]
    } else {
        holds(b, i1, j1) && c[i1][j1] == b[i1][j1] && !(i1 == i && j1 == end)
    }) by {}
    assert(holds(b, i, end));
    assert(well_placed(c)) by {
        assert forall|i1: int, j1: int| #[trigger] holds(c, i1, j1) implies home::<K>(
            c[i1][j1].0@,
            c.len(),
        ) == i1 by {
            if i1 == i && j1 == j {
                assert(holds(b, i, end));
            } else {
                assert(holds(b, i1, j1));
            }
        }
    }
    assert(unique(c)) by {
        assert forall|i1: int, j1: int, i2: int, j2: int|
            #[trigger] holds(c, i1, j1) && #[trigger] holds(c, i2, j2) && c[i1][j1].0@
                == c[i2][j2].0@ implies i1 == i2 && j1 == j2 by {
            let from = if i1 == i && j1 == j {
                (i, end)
            } else {
                (i1, j1)
            };
            let to = if i2 == i && j2 == j {
                (i, end)
            } else {
                (i2, j2)
            };
            assert(holds(b, from.0, from.1) && holds(b, to.0, to.1));
        }
    }
    lemma_model_at(b, i, j);
    assert(model(c) =~= model(b).remove(gone)) by {
        assert forall|k: K::V| model(c).contains_key(k) implies model(b).remove(
            gone,
        ).contains_key(k) && model(c)[k] == model(b).remove(gone)[k] by {
            let p = lemma_model_key(c, k);
            lemma_model_at(c, p.0, p.1);
            let q = if p.0 == i && p.1 == j {
                (i, end)
            } else {
                p
            };
            assert(holds(b, q.0, q.1));
            lemma_model_at(b, q.0, q.1);
            assert(holds(b, i, j));
        }
        assert forall|k: K::V| model(b).remove(gone).contains_key(k) implies model(
            c,
        ).contains_key(k) by {
            let p = lemma_model_key(b, k);
            let q = if p.0 == i && p.1 == end {
                (i, j)
            } else {
                p
            };
            assert(holds(c, q.0, q.1));
            lemma_model_at(c, q.0, q.1);
        }
    }
    assert(model(c).dom() =~= model(b).dom().remove(gone));
}

/// Spreading no entries gives empty buckets.
pub proof fn lemma_rehashed_empty<K: Key, V>(capacity: nat)
    ensures
        rehashed(Seq::<(K, V)>::empty(), capacity) == vacant::<(K, V)>(capacity),
{
    reveal(Seq::filter);
    assert(rehashed(Seq::<(K, V)>::empty(), capacity) =~= vacant::<(K, V)>(capacity));
}

/// Spreading one entry more appends it to its home bucket.
pub proof fn lemma_rehashed_push<K: Key, V>(entries: Seq<(K, V)>, e: (K, V), capacity: nat)
    requires
        capacity > 0,
    ensures
        ({
            let h = home::<K>(e.0@, capacity);
            let r = rehashed(entries, capacity);
            &&& 0 <= h < capacity
            &&& rehashed(entries.push(e), capacity) == r.update(h, r[h].push(e))
        }),
{
    let h = home::<K>(e.0@, capacity);
    let r = rehashed(entries, capacity);
    assert forall|i: int| 0 <= i < capacity implies #[trigger] rehashed(
        entries.push(e),
        capacity,
    )[i] == r.update(h, r[h].push(e))[i] by {
        entries.lemma_filter_push(e, at_home::<K, V>(capacity, i));
    }
    assert(rehashed(entries.push(e), capacity) =~= r.update(h, r[h].push(e)));
}

/// Spreading the first `n` of entries with distinct keys gives a layout in
/// which each lies in its home bucket and which stands for the map of those
/// entries.
pub proof fn lemma_rehashed_prefix<K: Key, V>(entries: Seq<(K, V)>, capacity: nat, n: int)
    requires
        capacity > 0,
        0 <= n <= entries.len(),
        forall|i: int, j: int|
            0 <= i < entries.len() && 0 <= j < entries.len() && i != j ==> entries[i].0@
                != entries[j].0@,
    ensures
        ({
            let r = rehashed(entries.take(n), capacity);
            &&& well_placed(r)
            &&& unique(r)
            &&& counted(r)
            &&& r.flatten().len() == n
            &&& forall|k: K::V|
                #![trigger model(r).contains_key(k)]
                model(r).contains_key(k) ==> exists|i: int|
                    0 <= i < n && (#[trigger] entries[i]).0@ == k
            &&& forall|i: int|
                0 <= i < n ==> model(r).contains_key((#[trigger] entries[i]).0@) && model(
                    r,
                )[entries[i].0@] == entries[i].1
        }),
    decreases n,
{
    if n == 0 {
        assert(entries.take(0) =~= Seq::<(K, V)>::empty());
        lemma_rehashed_empty::<K, V>(capacity);
        lemma_empty_layout::<K, V>(vacant::<(K, V)>(capacity));
    } else {
        let front = entries.take(n - 1);
        let e = entries[n - 1];
        let r = rehashed(front, capacity);
        lemma_rehashed_prefix(entries, capacity, n - 1);
        assert(entries.take(n) =~= front.push(e));
        lemma_rehashed_push(front, e, capacity);
        if model(r).contains_key(e.0@) {
            let i = choose|i: int| 0 <= i < n - 1 && (#[trigger] entries[i]).0@ == e.0@;
            assert(entries[i].0@ != entries[n - 1].0@);
        }
        lemma_append(r, e);
        let c = rehashed(entries.take(n), capacity);
        assert forall|k: K::V|
            #![trigger model(c).contains_key(k)]
            model(c).contains_key(k) implies exists|i: int|
            0 <= i < n && (#[trigger] entries[i]).0@ == k by {
            if k == e.0@ {
                assert(entries[n - 1].0@ == k);
            } else {
                assert(model(r).contains_key(k));
                let i = choose|i: int| 0 <= i < n - 1 && (#[trigger] entries[i]).0@ == k;
                assert(entries[i].0@ == k);
            }
        }
        assert forall|i: int| 0 <= i < n implies model(c).contains_key(
            (#[trigger] entries[i]).0@,
        ) && model(c)[entries[i].0@] == entries[i].1 by {
            if i < n - 1 {
                assert(entries[i].0@ != entries[n - 1].0@);
            }
        }
    }
}

/// The layout that an insertion starts from is a valid table with buckets
/// that is not over its load, and it stands for the same map.
pub proof fn lemma_grown<K: Key, V>(b: Seq<Seq<(K, V)>>, fallback: nat)
    requires
        table_wf(b),
        fallback > 0,
    ensures
        table_wf(grown(b, fallback)),
        model(grown(b, fallback)) == model(b),
        grown(b, fallback).flatten().len() == b.flatten().len(),
        grown(b, fallback).len() > 0,
        !overloaded(grown(b, fallback).flatten().len(), grown(b, fallback).len()),
{
    let entries = b.flatten();
    if b.len() == 0 {
        lemma_empty_layout(b);
        lemma_empty_layout::<K, V>(vacant::<(K, V)>(fallback));
    } else if overloaded(entries.len(), b.len()) {
        let capacity = 2 * b.len();
        let r = rehashed(entries, capacity);
        assert forall|i: int, j: int|
            0 <= i < entries.len() && 0 <= j < entries.len() && i != j implies entries[i].0@
            != entries[j].0@ by {
            let p = lemma_flatten_locate(b, i);
            let q = lemma_flatten_locate(b, j);
            assert(holds(b, p.0, p.1) && holds(b, q.0, q.1));
        }
        lemma_rehashed_prefix(entries, capacity, entries.len() as int);
        assert(entries.take(entries.len() as int) =~= entries);
        assert(model(r) =~= model(b)) by {
            assert forall|k: K::V| model(r).contains_key(k) implies model(b).contains_key(k)
                && model(r)[k] == model(b)[k] by {
                let i = choose|i: int| 0 <= i < entries.len() && (#[trigger] entries[i]).0@ == k;
                let p = lemma_flatten_locate(b, i);
                lemma_model_at(b, p.0, p.1);
            }
            assert forall|k: K::V| model(b).contains_key(k) implies model(r).contains_key(k) by {
                let p = lemma_model_key(b, k);
                lemma_flatten_at(b, p.0, p.1);
                let i = b.take(p.0).flatten().len() + p.1;
                assert(entries[i].0@ == k);
            }
        }
    }
}

/// Layouts that are alike have as many entries.
pub proof fn lemma_alike_count<K: Key, V>(b: Seq<Seq<(K, V)>>, c: Seq<Seq<(K, V)>>)
    requires
        alike(b, c),
    ensures
        b.flatten().len() == c.flatten().len(),
    decreases b.len(),
{
    if b.len() > 0 {
        assert(b.drop_last().push(b.last()) =~= b);
        assert(c.drop_last().push(c.last()) =~= c);
        b.drop_last().lemma_flatten_push(b.last());
        c.drop_last().lemma_flatten_push(c.last());
        assert forall|i: int, j: int| #[trigger] holds(b.drop_last(), i, j) implies b.drop_last()[i][j].0@
            == c.drop_last()[i][j].0@ && b.drop_last()[i][j].1 == c.drop_last()[i][j].1 by {
            assert(holds(b, i, j));
        }
        lemma_alike_count(b.drop_last(), c.drop_last());
    }
}

/// A layout that is like a valid table is a valid table, and stands for the
/// same map.
pub proof fn lemma_alike<K: Key, V>(b: Seq<Seq<(K, V)>>, c: Seq<Seq<(K, V)>>)
    requires
        table_wf(b),
        alike(b, c),
    ensures
        table_wf(c),
        model(c) == model(b),
{
    lemma_alike_count(b, c);
    assert forall|i: int, j: int| #[trigger] holds(c, i, j) implies holds(b, i, j) by {}
    assert(well_placed(c));
    assert(unique(c)) by {
        assert forall|i1: int, j1: int, i2: int, j2: int|
            #[trigger] holds(c, i1, j1) && #[trigger] holds(c, i2, j2) && c[i1][j1].0@
                == c[i2][j2].0@ implies i1 == i2 && j1 == j2 by {
            assert(holds(b, i1, j1) && holds(b, i2, j2));
        }
    }
    assert(model(c) =~= model(b)) by {
        assert forall|k: K::V| model(c).contains_key(k) implies model(b).contains_key(k)
            && model(c)[k] == model(b)[k] by {
            let p = lemma_model_key(c, k);
            assert(holds(b, p.0, p.1));
            lemma_model_at(c, p.0, p.1);
            lemma_model_at(b, p.0, p.1);
        }
        assert forall|k: K::V| model(b).contains_key(k) implies model(c).contains_key(k) by {
            let p = lemma_model_key(b, k);
            assert(holds(c, p.0, p.1));
            lemma_model_at(c, p.0, p.1);
        }
    }
}

} // verus!
