//! All ways to choose `k` numbers out of `1..=n`, found by backtracking.
//!
//! `generate_all_combinations(4, 2)` gives
//! `[[1, 2], [1, 3], [1, 4], [2, 3], [2, 4], [3, 4]]`.

use vstd::prelude::*;

verus! {

/// The rows with `first` put in front of each.
pub open spec fn with_first(first: int, rows: Seq<Seq<int>>) -> Seq<Seq<int>> {
    rows.map_values(|row: Seq<int>| seq![first] + row)
}

/// The rows with `prefix` put in front of each.
pub open spec fn extended(prefix: Seq<int>, rows: Seq<Seq<int>>) -> Seq<Seq<int>> {
    rows.map_values(|row: Seq<int>| prefix + row)
}

/// The increasing sequences of `k` numbers from `start` to `n`, in
/// lexicographic order: those that begin with `start`, then those that do
/// not. There is one sequence of no numbers, the empty one.
pub open spec fn combinations(start: int, n: int, k: int) -> Seq<Seq<int>>
    decreases n - start + 1,
{
    if k <= 0 {
        seq![Seq::<int>::empty()]
    } else if start > n - k + 1 {
        Seq::empty()
    } else {
        with_first(start, combinations(start + 1, n, k - 1)) + combinations(start + 1, n, k)
    }
}

/// `row` is an increasing sequence of numbers from `start` to `n`.
pub open spec fn increasing_within(row: Seq<int>, start: int, n: int) -> bool {
    &&& forall|i: int| 0 <= i < row.len() ==> start <= #[trigger] row[i] <= n
    &&& forall|i: int, j: int| 0 <= i < j < row.len() ==> row[i] < row[j]
}

/// The numbers of a row.
pub open spec fn ints(row: Seq<i32>) -> Seq<int> {
    row.map_values(|x: i32| x as int)
}

/// The rows of a table, each as its numbers.
pub open spec fn table(rows: Seq<Vec<i32>>) -> Seq<Seq<int>> {
    rows.map_values(|row: Vec<i32>| ints(row@))
}

/// Every row of `combinations(start, n, k)` has `k` numbers, which increase
/// and lie between `start` and `n`.
pub proof fn lemma_rows_are_combinations(start: int, n: int, k: int, i: int)
    requires
        0 <= k,
        0 <= i < combinations(start, n, k).len(),
    ensures
        combinations(start, n, k)[i].len() == k,
        increasing_within(combinations(start, n, k)[i], start, n),
    decreases n - start + 1,
{
    if k > 0 && start <= n - k + 1 {
        let firsts = combinations(start + 1, n, k - 1);
        let others = combinations(start + 1, n, k);
        if i < firsts.len() {
            lemma_rows_are_combinations(start + 1, n, k - 1, i);
            let row = firsts[i];
            assert(combinations(start, n, k)[i] == seq![start] + row);
            assert forall|a: int, b: int| 0 <= a < b < (seq![start] + row).len() implies (
            seq![start] + row)[a] < (seq![start] + row)[b] by {
                if a > 0 {
                    assert(row[a - 1] < row[b - 1]);
                } else {
                    assert(start + 1 <= row[b - 1]);
                }
            }
        } else {
            lemma_rows_are_combinations(start + 1, n, k, i - firsts.len());
        }
    }
}

/// Every increasing sequence of `k` numbers from `start` to `n` is a row of
/// `combinations(start, n, k)`.
pub proof fn lemma_combinations_are_rows(start: int, n: int, row: Seq<int>) -> (i: int)
    requires
        increasing_within(row, start, n),
    ensures
        0 <= i < combinations(start, n, row.len() as int).len(),
        combinations(start, n, row.len() as int)[i] == row,
    decreases n - start + 1,
{
    let k = row.len() as int;
    if k == 0 {
        assert(row =~= Seq::<int>::empty());
        0
    } else {
        // The numbers increase from at least `start`, so the last is at
        // least `start + k - 1`, and it is at most `n`.
        lemma_increasing_reach(row, start, n, k - 1);
        let firsts = combinations(start + 1, n, k - 1);
        let others = combinations(start + 1, n, k);
        if row[0] == start {
            let rest = row.drop_first();
            assert forall|a: int| 0 <= a < rest.len() implies start + 1 <= #[trigger] rest[a]
                <= n by {
                assert(row[0] < row[a + 1]);
            }
            assert forall|a: int, b: int| 0 <= a < b < rest.len() implies rest[a] < rest[b] by {
                assert(row[a + 1] < row[b + 1]);
            }
            let i = lemma_combinations_are_rows(start + 1, n, rest);
            assert(seq![start] + rest =~= row);
            i
        } else {
            assert forall|a: int| 0 <= a < row.len() implies start + 1 <= #[trigger] row[a]
                <= n by {
                if a > 0 {
                    assert(row[0] < row[a]);
                }
            }
            let i = lemma_combinations_are_rows(start + 1, n, row);
            firsts.len() + i
        }
    }
}

/// `a` comes before `b` in the order of a dictionary.
pub open spec fn before(a: Seq<int>, b: Seq<int>) -> bool
    decreases a.len(),
{
    if b.len() == 0 {
        false
    } else if a.len() == 0 {
        true
    } else {
        a[0] < b[0] || (a[0] == b[0] && before(a.drop_first(), b.drop_first()))
    }
}

/// The rows of `combinations(start, n, k)` come in the order of a dictionary,
/// so that no row comes twice.
pub proof fn lemma_rows_in_order(start: int, n: int, k: int, i: int, j: int)
    requires
        0 <= k,
        0 <= i < j < combinations(start, n, k).len(),
    ensures
        before(combinations(start, n, k)[i], combinations(start, n, k)[j]),
        combinations(start, n, k)[i] != combinations(start, n, k)[j],
    decreases n - start + 1,
{
    let firsts = combinations(start + 1, n, k - 1);
    let others = combinations(start + 1, n, k);
    let a = combinations(start, n, k)[i];
    let b = combinations(start, n, k)[j];
    if j < firsts.len() {
        lemma_rows_in_order(start + 1, n, k - 1, i, j);
        assert(a.drop_first() =~= firsts[i]);
        assert(b.drop_first() =~= firsts[j]);
    } else if i < firsts.len() {
        lemma_rows_are_combinations(start + 1, n, k, j - firsts.len());
        assert(a[0] == start);
        assert(start + 1 <= b[0]);
    } else {
        lemma_rows_in_order(start + 1, n, k, i - firsts.len(), j - firsts.len());
    }
    lemma_before_differs(a, b);
}

/// A sequence does not come before itself.
pub proof fn lemma_before_differs(a: Seq<int>, b: Seq<int>)
    requires
        before(a, b),
    ensures
        a != b,
    decreases a.len(),
{
    if a.len() > 0 && b.len() > 0 && a[0] == b[0] {
        lemma_before_differs(a.drop_first(), b.drop_first());
    }
}

/// In an increasing sequence from `start` on, the number at place `i` is at
/// least `start + i`.
pub proof fn lemma_increasing_reach(row: Seq<int>, start: int, n: int, i: int)
    requires
        increasing_within(row, start, n),
        0 <= i < row.len(),
    ensures
        start + i <= row[i],
    decreases i,
{
    if i > 0 {
        lemma_increasing_reach(row, start, n, i - 1);
        assert(row[i - 1] < row[i]);
    }
}

/// Appends to `result` every way to complete `current_list`, which holds
/// `level - 1` numbers, to `k` numbers by larger ones from `start` to
/// `total_number`.
fn create_all_state(
    level: i64,
    start: i64,
    total_number: i64,
    k: i64,
    current_list: &mut Vec<i32>,
    result: &mut Vec<Vec<i32>>,
)
    requires
        i32::MIN <= start,
        total_number <= i32::MAX,
        i32::MIN <= k <= i32::MAX,
        1 <= level,
        i32::MIN <= total_number,
    ensures
        final(current_list)@ == old(current_list)@,
        table(final(result)@) == table(old(result)@) + extended(
            ints(old(current_list)@),
            combinations(start as int, total_number as int, k - level + 1),
        ),
    decreases k - level + 1,
{
    let ghost prefix = ints(current_list@);
    let ghost before = table(result@);
    let ghost n = total_number as int;
    let ghost r = k - level + 1;
    if level > k {
        let row = current_list.clone();
        proof {
            assert(row@ =~= current_list@);
            assert(extended(prefix, combinations(start as int, n, r)) =~= seq![prefix]);
        }
        result.push(row);
        proof {
            assert(table(result@) =~= before + seq![prefix]);
        }
        return ;
    }
    let limit: i64 = total_number - k + level;
    let mut i: i64 = start;
    let ghost mut done: Seq<Seq<int>> = Seq::empty();
    proof {
        assert(extended(prefix, done) =~= Seq::<Seq<int>>::empty());
    }
    while i <= limit
        invariant
            start <= i,
            i <= limit + 1 || i == start,
            limit == total_number - k + level,
            i32::MIN <= start,
            total_number <= i32::MAX,
            i32::MIN <= total_number,
            i32::MIN <= k <= i32::MAX,
            1 <= level <= k,
            n == total_number,
            r == k - level + 1,
            current_list@ == old(current_list)@,
            prefix == ints(current_list@),
            before == table(old(result)@),
            table(result@) == before + extended(prefix, done),
            done + combinations(i as int, n, r) == combinations(start as int, n, r),
        decreases limit + 1 - i,
    {
        let ghost firsts = combinations(i + 1, n, r - 1);
        let ghost so_far = table(result@);
        current_list.push(i as i32);
        proof {
            assert(ints(current_list@) =~= prefix.push(i as int));
        }
        create_all_state(level + 1, i + 1, total_number, k, current_list, result);
        current_list.pop();
        proof {
            assert(current_list@ =~= old(current_list)@);
            assert(extended(prefix.push(i as int), firsts) =~= extended(
                prefix,
                with_first(i as int, firsts),
            )) by {
                assert forall|t: int| 0 <= t < firsts.len() implies prefix.push(i as int)
                    + firsts[t] == prefix + (seq![i as int] + firsts[t]) by {
                    assert(prefix.push(i as int) + firsts[t] =~= prefix + (seq![i as int]
                        + firsts[t]));
                }
            }
            assert(extended(prefix, done + with_first(i as int, firsts)) =~= extended(
                prefix,
                done,
            ) + extended(prefix, with_first(i as int, firsts)));
            assert(done + with_first(i as int, firsts) + combinations(i + 1, n, r) =~= done + (
            with_first(i as int, firsts) + combinations(i + 1, n, r)));
            done = done + with_first(i as int, firsts);
        }
        i += 1;
    }
    proof {
        assert(done =~= done + combinations(i as int, n, r));
    }
}

/// All ways to choose `k` numbers out of `1..=n`: every increasing sequence
/// of `k` numbers from 1 to `n`, once, in lexicographic order. For a `k`
/// below 1 that is the one empty sequence, and for a `k` above `n` none.
pub fn generate_all_combinations(n: i32, k: i32) -> (result: Vec<Vec<i32>>)
    ensures
        table(result@) == combinations(1, n as int, k as int),
{
    let mut result: Vec<Vec<i32>> = Vec::new();
    let mut current: Vec<i32> = Vec::new();
    create_all_state(1, 1, n as i64, k as i64, &mut current, &mut result);
    proof {
        let rows = combinations(1, n as int, k as int);
        assert(ints(Seq::<i32>::empty()) =~= Seq::<int>::empty());
        assert forall|t: int| 0 <= t < rows.len() implies Seq::<int>::empty() + rows[t]
            == rows[t] by {
            assert(Seq::<int>::empty() + rows[t] =~= rows[t]);
        }
        assert(extended(Seq::<int>::empty(), rows) =~= rows);
        assert(table(Seq::<Vec<i32>>::empty()) =~= Seq::<Seq<int>>::empty());
        assert(Seq::<Seq<int>>::empty() + rows =~= rows);
    }
    result
}

} // verus!
