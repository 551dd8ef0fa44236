//! Sums over integer sequences and matrices, the vocabulary of every contract.

use vstd::prelude::*;

verus! {

/// The sum of the entries of `s`.
pub open spec fn sum(s: Seq<int>) -> int
    decreases s.len(),
{
    if s.len() == 0 {
        0
    } else {
        sum(s.drop_last()) + s.last()
    }
}

/// A machine vector read as mathematical integers.
pub open spec fn ints(s: Seq<i32>) -> Seq<int> {
    Seq::new(s.len(), |i: int| s[i] as int)
}

/// A machine matrix read as rows of mathematical integers.
pub open spec fn grid(a: Seq<Vec<i32>>) -> Seq<Seq<int>> {
    Seq::new(a.len(), |i: int| ints(a[i]@))
}

/// `g` has `m` rows of `n` entries each.
pub open spec fn has_shape(g: Seq<Seq<int>>, m: nat, n: nat) -> bool {
    g.len() == m && forall|i: int| 0 <= i < m ==> (#[trigger] g[i]).len() == n
}

/// Every entry of `g` is at least zero.
pub open spec fn non_negative(g: Seq<Seq<int>>) -> bool {
    forall|i: int, j: int| 0 <= i < g.len() && 0 <= j < g[i].len() ==> #[trigger] g[i][j] >= 0
}

/// Column `c` of `g`, top to bottom.
pub open spec fn column(g: Seq<Seq<int>>, c: int) -> Seq<int> {
    Seq::new(g.len(), |r: int| g[r][c])
}

/// The sum of row `r` of `g`.
pub open spec fn row_sum(g: Seq<Seq<int>>, r: int) -> int {
    sum(g[r])
}

/// The sum of column `c` of `g`.
pub open spec fn col_sum(g: Seq<Seq<int>>, c: int) -> int {
    sum(column(g, c))
}

/// Entry-wise products of a cost row and an allocation row.
pub open spec fn products(c: Seq<int>, a: Seq<int>) -> Seq<int> {
    Seq::new(a.len(), |j: int| c[j] * a[j])
}

/// The cost of one row: the sum of its entry-wise products.
pub open spec fn row_cost(c: Seq<int>, a: Seq<int>) -> int {
    sum(products(c, a))
}

/// The cost of each row of the allocation `a` at unit costs `c`.
pub open spec fn row_costs(c: Seq<Seq<int>>, a: Seq<Seq<int>>) -> Seq<int> {
    Seq::new(a.len(), |i: int| row_cost(c[i], a[i]))
}

/// The cost of shipping the allocation `a` at unit costs `c`: the sum over
/// all cells of allocation times unit cost.
pub open spec fn cost_of(c: Seq<Seq<int>>, a: Seq<Seq<int>>) -> int {
    sum(row_costs(c, a))
}

/// One more entry in a prefix adds that entry to its sum.
pub proof fn lemma_sum_push(s: Seq<int>, k: int)
    requires
        0 <= k < s.len(),
    ensures
        sum(s.take(k + 1)) == sum(s.take(k)) + s[k],
{
    assert(s.take(k + 1).drop_last() =~= s.take(k));
}

/// Replacing an entry changes the sum by the difference.
pub proof fn lemma_sum_update(s: Seq<int>, i: int, x: int)
    requires
        0 <= i < s.len(),
    ensures
        sum(s.update(i, x)) == sum(s) - s[i] + x,
    decreases s.len(),
{
    let t = s.update(i, x);
    if i == s.len() - 1 {
        assert(t.drop_last() =~= s.drop_last());
    } else {
        lemma_sum_update(s.drop_last(), i, x);
        assert(t.drop_last() =~= s.drop_last().update(i, x));
    }
}

/// In a sequence without negative entries no entry exceeds the sum.
pub proof fn lemma_sum_bounds(s: Seq<int>)
    requires
        forall|i: int| 0 <= i < s.len() ==> s[i] >= 0,
    ensures
        sum(s) >= 0,
        forall|i: int| 0 <= i < s.len() ==> s[i] <= sum(s),
    decreases s.len(),
{
    if s.len() > 0 {
        lemma_sum_bounds(s.drop_last());
        assert forall|i: int| 0 <= i < s.len() implies s[i] <= sum(s) by {
            if i < s.len() - 1 {
                assert(s.drop_last()[i] == s[i]);
            }
        }
    }
}

/// Zeros sum to zero.
pub proof fn lemma_sum_zeros(s: Seq<int>)
    requires
        forall|i: int| 0 <= i < s.len() ==> s[i] == 0,
    ensures
        sum(s) == 0,
    decreases s.len(),
{
    if s.len() > 0 {
        lemma_sum_zeros(s.drop_last());
    }
}

/// A sum is the sum of a prefix plus the sum of the rest.
pub proof fn lemma_sum_split(s: Seq<int>, k: int)
    requires
        0 <= k <= s.len(),
    ensures
        sum(s) == sum(s.take(k)) + sum(s.skip(k)),
    decreases s.len(),
{
    if k == s.len() {
        assert(s.take(k) =~= s);
        assert(s.skip(k) =~= Seq::<int>::empty());
    } else {
        lemma_sum_split(s.drop_last(), k);
        assert(s.drop_last().take(k) =~= s.take(k));
        assert(s.skip(k).drop_last() =~= s.drop_last().skip(k));
    }
}

/// One for each positive entry of `s`, zero for each other entry.
pub open spec fn positives(s: Seq<int>) -> Seq<int> {
    Seq::new(s.len(), |j: int| if s[j] > 0 { 1int } else { 0int })
}

/// The number of basic cells in each row of `g`.
pub open spec fn basic_per_row(g: Seq<Seq<int>>) -> Seq<int> {
    Seq::new(g.len(), |i: int| sum(positives(g[i])))
}

/// The number of basic cells of `g`: the entries above zero.
pub open spec fn basic_count(g: Seq<Seq<int>>) -> int {
    sum(basic_per_row(g))
}

/// A matrix of zeros has no basic cell.
pub proof fn lemma_no_basic_cells(g: Seq<Seq<int>>)
    requires
        forall|i: int, j: int| 0 <= i < g.len() && 0 <= j < g[i].len() ==> #[trigger] g[i][j] == 0,
    ensures
        basic_count(g) == 0,
{
    assert forall|i: int| 0 <= i < g.len() implies #[trigger] basic_per_row(g)[i] == 0 by {
        assert forall|j: int| 0 <= j < g[i].len() implies #[trigger] positives(g[i])[j] == 0 by {
            assert(g[i][j] == 0);
        }
        lemma_sum_zeros(positives(g[i]));
    }
    lemma_sum_zeros(basic_per_row(g));
}

/// Writing into a cell that held zero adds at most one basic cell.
pub proof fn lemma_basic_count_update(g: Seq<Seq<int>>, i: int, j: int, x: int)
    requires
        0 <= i < g.len(),
        0 <= j < g[i].len(),
        g[i][j] == 0,
    ensures
        basic_count(g.update(i, g[i].update(j, x))) <= basic_count(g) + 1,
{
    let h = g.update(i, g[i].update(j, x));
    let b = if x > 0 { 1int } else { 0int };
    assert(positives(h[i]) =~= positives(g[i]).update(j, b));
    lemma_sum_update(positives(g[i]), j, b);
    assert(basic_per_row(h) =~= basic_per_row(g).update(i, basic_per_row(g)[i] + b));
    lemma_sum_update(basic_per_row(g), i, basic_per_row(g)[i] + b);
}

/// The sum of the first `k` entries of `s`.
pub open spec fn prefix(s: Seq<int>, k: int) -> int {
    sum(s.take(k))
}

/// Without negative entries a longer prefix sums to no less.
pub proof fn lemma_prefix_monotone(s: Seq<int>, a: int, b: int)
    requires
        forall|i: int| 0 <= i < s.len() ==> s[i] >= 0,
        0 <= a <= b <= s.len(),
    ensures
        prefix(s, a) <= prefix(s, b),
    decreases b - a,
{
    if a < b {
        lemma_prefix_monotone(s, a, b - 1);
        lemma_sum_push(s, b - 1);
    }
}

/// If the entries up to `k`, less `rem`, already make up the whole sum of a
/// sequence without negative entries, then `rem` and all later entries are zero.
pub proof fn lemma_tail_zero(s: Seq<int>, k: int, rem: int)
    requires
        forall|i: int| 0 <= i < s.len() ==> s[i] >= 0,
        0 <= k < s.len(),
        rem >= 0,
        sum(s) == sum(s.take(k)) + s[k] - rem,
    ensures
        rem == 0,
        forall|c: int| k < c < s.len() ==> s[c] == 0,
{
    lemma_sum_split(s, k + 1);
    lemma_sum_push(s, k);
    let t = s.skip(k + 1);
    lemma_sum_bounds(t);
    assert forall|c: int| k < c < s.len() implies s[c] == 0 by {
        assert(t[c - k - 1] == s[c]);
    }
}

/// What replacing one entry does to the row and column sums.
pub proof fn lemma_cell_update(g: Seq<Seq<int>>, i: int, j: int, x: int)
    requires
        0 <= i < g.len(),
        0 <= j < g[i].len(),
    ensures
        ({
            let h = g.update(i, g[i].update(j, x));
            &&& row_sum(h, i) == row_sum(g, i) - g[i][j] + x
            &&& col_sum(h, j) == col_sum(g, j) - g[i][j] + x
            &&& forall|r: int| 0 <= r < g.len() && r != i ==> h[r] == g[r]
            &&& forall|c: int| 0 <= c < g[i].len() && c != j ==> column(h, c) == column(g, c)
        }),
{
    let h = g.update(i, g[i].update(j, x));
    lemma_sum_update(g[i], j, x);
    lemma_sum_update(column(g, j), i, x);
    assert(column(h, j) =~= column(g, j).update(i, x));
    assert forall|c: int| 0 <= c < g[i].len() && c != j implies column(h, c) == column(g, c) by {
        assert(column(h, c) =~= column(g, c));
    }
}

/// Writes `x` into cell (`i`, `j`).
pub fn set_cell(a: &mut Vec<Vec<i32>>, i: usize, j: usize, x: i32)
    requires
        i < old(a).len(),
        j < old(a)[i as int].len(),
    ensures
        grid(final(a)@) == grid(old(a)@).update(
            i as int,
            grid(old(a)@)[i as int].update(j as int, x as int),
        ),
{
    a[i][j] = x;
    proof {
        let g = grid(old(a)@);
        assert(grid(a@) =~= g.update(i as int, g[i as int].update(j as int, x as int))) by {
            assert(ints(a@[i as int]@) =~= g[i as int].update(j as int, x as int));
        }
    }
}

/// A matrix of `m` rows and `n` columns, every entry zero.
pub fn zero_grid(m: usize, n: usize) -> (a: Vec<Vec<i32>>)
    ensures
        has_shape(grid(a@), m as nat, n as nat),
        forall|i: int, j: int| 0 <= i < m && 0 <= j < n ==> #[trigger] grid(a@)[i][j] == 0,
{
    let mut a: Vec<Vec<i32>> = Vec::new();
    let mut i: usize = 0;
    while i < m
        invariant
            i <= m,
            a@.len() == i,
            forall|r: int| 0 <= r < i ==> (#[trigger] a@[r])@.len() == n,
            forall|r: int, c: int| 0 <= r < i && 0 <= c < n ==> (#[trigger] a@[r]@[c]) == 0,
        decreases m - i,
    {
        let mut row: Vec<i32> = Vec::new();
        let mut j: usize = 0;
        while j < n
            invariant
                j <= n,
                row@.len() == j,
                forall|c: int| 0 <= c < j ==> #[trigger] row@[c] == 0,
            decreases n - j,
        {
            row.push(0);
            j = j + 1;
        }
        a.push(row);
        i = i + 1;
    }
    a
}

} // verus!
