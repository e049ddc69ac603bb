//! All orders in which a collection of numbers can be arranged, found by
//! backtracking: `[1, 2, 3]` gives `[1, 2, 3]`, `[1, 3, 2]`, `[2, 1, 3]`,
//! `[2, 3, 1]`, `[3, 2, 1]` and `[3, 1, 2]`.

use vstd::prelude::*;

verus! {

/// The sequence with the numbers at places `a` and `b` exchanged.
pub open spec fn swapped(s: Seq<i32>, a: int, b: int) -> Seq<i32> {
    s.update(a, s[b]).update(b, s[a])
}

/// The arrangements of `s` that keep its first `depth` numbers in place: for
/// each place from `depth` on, in order, its number is brought to place
/// `depth` by an exchange, and the arrangements that keep `depth + 1` numbers
/// of that sequence follow.
pub open spec fn arrangements(s: Seq<i32>, depth: nat) -> Seq<Seq<i32>>
    decreases s.len() - depth, s.len() + 1,
{
    if depth >= s.len() {
        seq![s]
    } else {
        arrangements_from(s, depth, depth)
    }
}

/// The arrangements of `s` that keep its first `depth` numbers in place and
/// have at place `depth` the number of a place from `i` on.
pub open spec fn arrangements_from(s: Seq<i32>, depth: nat, i: nat) -> Seq<Seq<i32>>
    decreases s.len() - depth, s.len() - i,
{
    if depth >= s.len() || i >= s.len() {
        Seq::empty()
    } else {
        arrangements(swapped(s, depth as int, i as int), depth + 1) + arrangements_from(
            s,
            depth,
            i + 1,
        )
    }
}

/// The product of the numbers from 1 to `n`.
pub open spec fn factorial(n: nat) -> nat
    decreases n,
{
    if n == 0 {
        1
    } else {
        n * factorial((n - 1) as nat)
    }
}

/// The rows of a table.
pub open spec fn rows(table: Seq<Vec<i32>>) -> Seq<Seq<i32>> {
    table.map_values(|row: Vec<i32>| row@)
}

/// Every arrangement holds the numbers of the sequence, each as often, and
/// keeps the first `depth` of them in place.
pub proof fn lemma_arrangement_rearranges(s: Seq<i32>, depth: nat, t: int)
    requires
        0 <= t < arrangements(s, depth).len(),
    ensures
        arrangements(s, depth)[t].to_multiset() == s.to_multiset(),
        arrangements(s, depth)[t].len() == s.len(),
        forall|p: int| 0 <= p < depth && p < s.len() ==> arrangements(s, depth)[t][p] == s[p],
    decreases s.len() - depth, s.len() + 1,
{
    if depth < s.len() {
        lemma_arrangement_from_rearranges(s, depth, depth, t);
    }
}

/// The same of the arrangements that begin with the number of a place from
/// `i` on.
pub proof fn lemma_arrangement_from_rearranges(s: Seq<i32>, depth: nat, i: nat, t: int)
    requires
        depth <= i,
        0 <= t < arrangements_from(s, depth, i).len(),
    ensures
        arrangements_from(s, depth, i)[t].to_multiset() == s.to_multiset(),
        arrangements_from(s, depth, i)[t].len() == s.len(),
        forall|p: int|
            0 <= p < depth && p < s.len() ==> arrangements_from(s, depth, i)[t][p] == s[p],
    decreases s.len() - depth, s.len() - i,
{
    if depth < s.len() && i < s.len() {
        let moved = swapped(s, depth as int, i as int);
        let first = arrangements(moved, depth + 1);
        if t < first.len() {
            lemma_arrangement_rearranges(moved, depth + 1, t);
            lemma_swapped_rearranges(s, depth as int, i as int);
            assert forall|p: int| 0 <= p < depth && p < s.len() implies arrangements_from(
                s,
                depth,
                i,
            )[t][p] == s[p] by {
                assert(first[t][p] == moved[p]);
            }
        } else {
            lemma_arrangement_from_rearranges(s, depth, i + 1, t - first.len());
        }
    }
}

/// An exchange of two numbers keeps the numbers.
pub proof fn lemma_swapped_rearranges(s: Seq<i32>, a: int, b: int)
    requires
        0 <= a < s.len(),
        0 <= b < s.len(),
    ensures
        swapped(s, a, b).to_multiset() == s.to_multiset(),
{
    let once = s.update(a, s[b]);
    vstd::seq_lib::to_multiset_update(s, a, s[b]);
    vstd::seq_lib::to_multiset_update(once, b, s[a]);
    s.to_multiset_ensures();
    assert(s.to_multiset().count(s[a]) > 0 && s.to_multiset().count(s[b]) > 0) by {
        assert(s.contains(s[a]) && s.contains(s[b]));
    }
    assert(swapped(s, a, b).to_multiset() =~= s.to_multiset());
}

/// A sequence with `depth` of its numbers in place has as many arrangements
/// as there are orders of the others.
pub proof fn lemma_arrangements_count(s: Seq<i32>, depth: nat)
    requires
        depth <= s.len(),
    ensures
        arrangements(s, depth).len() == factorial((s.len() - depth) as nat),
    decreases s.len() - depth, s.len() + 1,
{
    if depth < s.len() {
        lemma_arrangements_from_count(s, depth, depth);
        assert(factorial((s.len() - depth) as nat) == (s.len() - depth) * factorial(
            (s.len() - depth - 1) as nat,
        ));
    }
}

/// The same of the arrangements that begin with the number of a place from
/// `i` on.
pub proof fn lemma_arrangements_from_count(s: Seq<i32>, depth: nat, i: nat)
    requires
        depth < s.len(),
        depth <= i <= s.len(),
    ensures
        arrangements_from(s, depth, i).len() == (s.len() - i) * factorial(
            (s.len() - depth - 1) as nat,
        ),
    decreases s.len() - depth, s.len() - i,
{
    let each = factorial((s.len() - depth - 1) as nat);
    if i < s.len() {
        lemma_arrangements_count(swapped(s, depth as int, i as int), depth + 1);
        lemma_arrangements_from_count(s, depth, i + 1);
        assert((s.len() - i) * each == each + (s.len() - i - 1) * each) by (nonlinear_arith);
    } else {
        assert((s.len() - i) * each == 0) by (nonlinear_arith)
            requires
                s.len() - i == 0,
        ;
    }
}

/// A sequence with the numbers of `s`, each as often, that agrees with `s`
/// before place `depth`, has at place `depth` a number that `s` has at that
/// place or behind it.
pub proof fn lemma_number_behind(s: Seq<i32>, p: Seq<i32>, depth: int) -> (i: int)
    requires
        0 <= depth < s.len(),
        p.len() == s.len(),
        p.to_multiset() == s.to_multiset(),
        forall|q: int| 0 <= q < depth ==> p[q] == s[q],
    ensures
        depth <= i < s.len(),
        s[i] == p[depth],
{
    let wanted = p[depth];
    assert(s =~= s.take(depth) + s.skip(depth));
    assert(p =~= p.take(depth) + p.skip(depth));
    assert(s.take(depth) =~= p.take(depth));
    vstd::seq_lib::lemma_multiset_commutative(s.take(depth), s.skip(depth));
    vstd::seq_lib::lemma_multiset_commutative(p.take(depth), p.skip(depth));
    vstd::seq_lib::to_multiset_contains(s.skip(depth), wanted);
    vstd::seq_lib::to_multiset_contains(p.skip(depth), wanted);
    assert(p.skip(depth)[0] == wanted);
    assert(p.skip(depth).contains(wanted));
    assert(s.skip(depth).to_multiset().count(wanted) == p.skip(depth).to_multiset().count(
        wanted,
    )) by {
        assert(s.to_multiset().count(wanted) == s.take(depth).to_multiset().count(wanted)
            + s.skip(depth).to_multiset().count(wanted));
        assert(p.to_multiset().count(wanted) == p.take(depth).to_multiset().count(wanted)
            + p.skip(depth).to_multiset().count(wanted));
    }
    let j = choose|j: int| 0 <= j < s.skip(depth).len() && s.skip(depth)[j] == wanted;
    depth + j
}

/// The arrangements that bring the number of place `i` to place `depth` are
/// among those that bring there the number of a place from `j` on, for any
/// `j` up to `i`.
pub proof fn lemma_arrangements_block(s: Seq<i32>, depth: nat, j: nat, i: nat, t: int) -> (at:
    int)
    requires
        depth <= j <= i < s.len(),
        0 <= t < arrangements(swapped(s, depth as int, i as int), depth + 1).len(),
    ensures
        0 <= at < arrangements_from(s, depth, j).len(),
        arrangements_from(s, depth, j)[at] == arrangements(
            swapped(s, depth as int, i as int),
            depth + 1,
        )[t],
    decreases i - j,
{
    if j == i {
        t
    } else {
        let first = arrangements(swapped(s, depth as int, j as int), depth + 1);
        first.len() + lemma_arrangements_block(s, depth, j + 1, i, t)
    }
}

/// Every sequence with the numbers of `s`, each as often, that agrees with
/// `s` before place `depth` is an arrangement of `s` that keeps `depth`
/// numbers in place.
pub proof fn lemma_every_order_is_arranged(s: Seq<i32>, depth: nat, p: Seq<i32>) -> (t: int)
    requires
        depth <= s.len(),
        p.len() == s.len(),
        p.to_multiset() == s.to_multiset(),
        forall|q: int| 0 <= q < depth ==> p[q] == s[q],
    ensures
        0 <= t < arrangements(s, depth).len(),
        arrangements(s, depth)[t] == p,
    decreases s.len() - depth,
{
    if depth == s.len() {
        assert(p =~= s);
        0
    } else {
        let i = lemma_number_behind(s, p, depth as int);
        let moved = swapped(s, depth as int, i);
        lemma_swapped_rearranges(s, depth as int, i);
        let t = lemma_every_order_is_arranged(moved, depth + 1, p);
        lemma_arrangements_block(s, depth, depth, i as nat, t)
    }
}

/// Exchanges the numbers at places `a` and `b`.
fn swap(current: &mut Vec<i32>, a: usize, b: usize)
    requires
        a < old(current)@.len(),
        b < old(current)@.len(),
    ensures
        final(current)@ == swapped(old(current)@, a as int, b as int),
{
    let first = current[a];
    let second = current[b];
    current[a] = second;
    current[b] = first;
}

/// Appends to `result` the arrangements of `current` that keep its first
/// `depth` numbers in place, and leaves `current` as it was.
fn backtrace(depth: usize, result: &mut Vec<Vec<i32>>, current: &mut Vec<i32>)
    requires
        depth <= old(current)@.len(),
    ensures
        final(current)@ == old(current)@,
        rows(final(result)@) == rows(old(result)@) + arrangements(old(current)@, depth as nat),
    decreases old(current)@.len() - depth,
{
    let ghost s = current@;
    let ghost before = rows(result@);
    if depth == current.len() {
        let row = current.clone();
        proof {
            assert(row@ =~= s);
        }
        result.push(row);
        proof {
            assert(rows(result@) =~= before + seq![s]);
        }
    }
    let mut i: usize = depth;
    while i < current.len()
        invariant
            depth <= i <= s.len(),
            current@ == s,
            s == old(current)@,
            before == rows(old(result)@),
            rows(result@) + arrangements_from(s, depth as nat, i as nat) == before + arrangements(
                s,
                depth as nat,
            ),
        decreases s.len() - i,
    {
        let ghost so_far = rows(result@);
        let ghost moved = swapped(s, depth as int, i as int);
        swap(current, depth, i);
        backtrace(depth + 1, result, current);
        swap(current, depth, i);
        proof {
            assert(swapped(moved, depth as int, i as int) =~= s);
            assert(so_far + (arrangements(moved, (depth + 1) as nat) + arrangements_from(
                s,
                depth as nat,
                (i + 1) as nat,
            )) =~= so_far + arrangements(moved, (depth + 1) as nat) + arrangements_from(
                s,
                depth as nat,
                (i + 1) as nat,
            ));
        }
        i += 1;
    }
    proof {
        assert(rows(result@) + Seq::<Seq<i32>>::empty() =~= rows(result@));
    }
}

/// All arrangements of `nums`, in the order in which exchanges reach them:
/// each row holds the numbers of `nums`, every order of them is a row, and
/// there are as many rows as there are orders of that many numbers.
pub fn permute(nums: &Vec<i32>) -> (result: Vec<Vec<i32>>)
    ensures
        rows(result@) == arrangements(nums@, 0),
{
    let mut result: Vec<Vec<i32>> = Vec::new();
    let mut current = nums.clone();
    proof {
        assert(current@ =~= nums@);
        assert(rows(result@) =~= Seq::<Seq<i32>>::empty());
    }
    backtrace(0, &mut result, &mut current);
    proof {
        assert(Seq::<Seq<i32>>::empty() + arrangements(nums@, 0) =~= arrangements(nums@, 0));
    }
    result
}

} // verus!
