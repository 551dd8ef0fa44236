//! Stepping-stone cycles: what they are, how one is found, and how a plan is
//! shifted along one.

use vstd::prelude::*;
use crate::grid::{grid, has_shape, non_negative, row_sum, col_sum, column, lemma_cell_update, lemma_sum_bounds, set_cell};
use crate::problem::TransportProblem;

verus! {

/// `cell` names an entry of `g`.
pub open spec fn in_grid(g: Seq<Seq<int>>, cell: (usize, usize)) -> bool {
    cell.0 < g.len() && cell.1 < g[cell.0 as int].len()
}

/// The entry of `g` that `cell` names.
pub open spec fn at(g: Seq<Seq<int>>, cell: (usize, usize)) -> int {
    g[cell.0 as int][cell.1 as int]
}

/// The step from position `t` stays in the row when `t` is even and in the
/// column when `t` is odd.
pub open spec fn linked(p: Seq<(usize, usize)>, t: int) -> bool {
    if t % 2 == 0 {
        p[t].0 == p[t + 1].0
    } else {
        p[t].1 == p[t + 1].1
    }
}

/// An alternating path from `start`: every later cell is basic, a step from
/// an even position stays in the row, a step from an odd position stays in
/// the column, no two row steps use one row and no two column steps use
/// one column.
pub open spec fn partial_path(g: Seq<Seq<int>>, start: (usize, usize), p: Seq<(usize, usize)>) -> bool {
    &&& p.len() >= 1
    &&& p[0] == start
    &&& forall|t: int| 0 <= t < p.len() ==> in_grid(g, #[trigger] p[t])
    &&& forall|t: int| 1 <= t < p.len() ==> at(g, #[trigger] p[t]) > 0
    &&& forall|t: int| 0 <= t < p.len() - 1 ==> #[trigger] linked(p, t)
    &&& forall|s: int, t: int|
        0 <= s < t < p.len() && s % 2 == 0 && t % 2 == 0 ==> (#[trigger] p[s]).0 != (#[trigger] p[t]).0
    &&& forall|s: int, t: int|
        0 <= s < t < p.len() && s % 2 == 1 && t % 2 == 1 ==> (#[trigger] p[s]).1 != (#[trigger] p[t]).1
}

/// A closed stepping-stone cycle through `start`: an alternating path whose
/// last basic cell lies in the column of `start`, written with `start`
/// repeated at the end. Cells at even positions receive, cells at odd
/// positions donate; each row and each column involved holds one of each.
pub open spec fn valid_cycle(g: Seq<Seq<int>>, start: (usize, usize), cyc: Seq<(usize, usize)>) -> bool {
    &&& cyc.len() >= 5
    &&& cyc.len() % 2 == 1
    &&& cyc.last() == start
    &&& partial_path(g, start, cyc.drop_last())
    &&& cyc[cyc.len() - 2].1 == start.1
}

/// `cyc` starts with the cells of `p`, in order.
pub open spec fn begins_with(cyc: Seq<(usize, usize)>, p: Seq<(usize, usize)>) -> bool {
    p.len() <= cyc.len() && forall|t: int| 0 <= t < p.len() ==> cyc[t] == p[t]
}

/// After a receiving cell, a cycle goes on with a basic cell of the same
/// row, in a column that no donating cell before it has used.
proof fn lemma_next_in_row(g: Seq<Seq<int>>, start: (usize, usize), base: Seq<(usize, usize)>, cyc: Seq<(usize, usize)>)
    requires
        partial_path(g, start, base),
        base.len() % 2 == 1,
        valid_cycle(g, start, cyc),
        begins_with(cyc, base),
    ensures
        cyc.len() > base.len() + 1,
        in_grid(g, cyc[base.len() as int]),
        at(g, cyc[base.len() as int]) > 0,
        cyc[base.len() as int].0 == base.last().0,
        cyc[base.len() as int].1 != base.last().1,
        forall|t: int| 0 <= t < base.len() && t % 2 == 1 ==> (#[trigger] base[t]).1 != cyc[base.len() as int].1,
{
    let len = base.len() as int;
    let p = cyc.drop_last();
    assert(forall|t: int| 0 <= t < p.len() ==> p[t] == cyc[t]);
    if cyc.len() == len {
        assert(base[0] == cyc[0] && base[len - 1] == cyc[len - 1]);
        assert(base[0].0 != base[len - 1].0);
    }
    assert(linked(p, len - 1));
    assert(in_grid(g, p[len]));
    assert(at(g, p[len]) > 0);
    if len >= 3 {
        assert(linked(p, len - 2));
        assert(p[len - 2].1 != p[len].1);
    } else {
        assert(p[1].1 != p[p.len() - 1].1);
    }
    assert forall|t: int| 0 <= t < len && t % 2 == 1 implies (#[trigger] base[t]).1 != cyc[len].1 by {
        assert(p[t].1 != p[len].1);
    }
}

/// After a donating cell outside the entering column, a cycle goes on with
/// a basic cell of the same column, in a row that no receiving cell before
/// it has used.
proof fn lemma_next_in_column(
    g: Seq<Seq<int>>,
    start: (usize, usize),
    base: Seq<(usize, usize)>,
    cyc: Seq<(usize, usize)>,
)
    requires
        partial_path(g, start, base),
        base.len() % 2 == 0,
        base.last().1 != start.1,
        valid_cycle(g, start, cyc),
        begins_with(cyc, base),
    ensures
        cyc.len() > base.len() + 1,
        in_grid(g, cyc[base.len() as int]),
        at(g, cyc[base.len() as int]) > 0,
        cyc[base.len() as int].1 == base.last().1,
        cyc[base.len() as int].0 != base.last().0,
        forall|t: int| 0 <= t < base.len() && t % 2 == 0 ==> (#[trigger] base[t]).0 != cyc[base.len() as int].0,
{
    let len = base.len() as int;
    let p = cyc.drop_last();
    assert(forall|t: int| 0 <= t < p.len() ==> p[t] == cyc[t]);
    if cyc.len() == len + 1 {
        assert(cyc[cyc.len() - 2] == base[len - 1]);
    }
    assert(linked(p, len - 1));
    assert(linked(p, len - 2));
    assert(in_grid(g, p[len]));
    assert(at(g, p[len]) > 0);
    assert(p[len - 2].0 != p[len].0);
    assert forall|t: int| 0 <= t < len && t % 2 == 0 implies (#[trigger] base[t]).0 != cyc[len].0 by {
        assert(p[t].0 != p[len].0);
    }
}

/// The first donating cell of a cycle lies outside the entering column.
proof fn lemma_no_early_close(g: Seq<Seq<int>>, start: (usize, usize), base: Seq<(usize, usize)>, cyc: Seq<(usize, usize)>)
    requires
        base.len() == 2,
        valid_cycle(g, start, cyc),
        begins_with(cyc, base),
    ensures
        base[1].1 != start.1,
{
    let p = cyc.drop_last();
    assert(forall|t: int| 0 <= t < p.len() ==> p[t] == cyc[t]);
    assert(p[1].1 != p[p.len() - 1].1);
}

/// Distinct values below `m` are at most `m` in number.
pub proof fn lemma_distinct_bound(f: Seq<int>, m: int)
    requires
        0 <= m,
        forall|i: int| 0 <= i < f.len() ==> 0 <= #[trigger] f[i] < m,
        forall|i: int, j: int| 0 <= i < j < f.len() ==> #[trigger] f[i] != #[trigger] f[j],
    ensures
        f.len() <= m,
    decreases f.len(),
{
    if f.len() > 0 {
        assert(0 <= f[0] < m);
        if exists|i: int| 0 <= i < f.len() && #[trigger] f[i] == m - 1 {
            let i = choose|i: int| 0 <= i < f.len() && #[trigger] f[i] == m - 1;
            let rest = f.remove(i);
            assert forall|j: int| 0 <= j < rest.len() implies 0 <= #[trigger] rest[j] < m - 1 by {
                if j < i {
                    assert(rest[j] == f[j]);
                    assert(f[j] != f[i]);
                } else {
                    assert(rest[j] == f[j + 1]);
                    assert(f[i] != f[j + 1]);
                }
            }
            assert forall|j: int, k: int| 0 <= j < k < rest.len() implies #[trigger] rest[j]
                != #[trigger] rest[k] by {
                let j2 = if j < i { j } else { j + 1 };
                let k2 = if k < i { k } else { k + 1 };
                assert(rest[j] == f[j2] && rest[k] == f[k2]);
                assert(f[j2] != f[k2]);
            }
            lemma_distinct_bound(rest, m - 1);
        } else {
            let rest = f.drop_last();
            assert forall|j: int| 0 <= j < rest.len() implies 0 <= #[trigger] rest[j] < m - 1 by {
                assert(rest[j] == f[j]);
            }
            assert forall|j: int, k: int| 0 <= j < k < rest.len() implies #[trigger] rest[j]
                != #[trigger] rest[k] by {
                assert(rest[j] == f[j] && rest[k] == f[k]);
            }
            lemma_distinct_bound(rest, m - 1);
        }
    }
}

/// A cycle in a matrix of `m` rows and `n` columns holds at most `m` row
/// steps and at most `n` column steps.
pub proof fn lemma_cycle_length(g: Seq<Seq<int>>, start: (usize, usize), cyc: Seq<(usize, usize)>, m: nat, n: nat)
    requires
        has_shape(g, m, n),
        valid_cycle(g, start, cyc),
    ensures
        cyc.len() <= 2 * m + 1,
        cyc.len() <= 2 * n + 1,
        cyc.len() <= m + n + 1,
{
    let p = cyc.drop_last();
    let k = (p.len() / 2) as nat;
    let rows = Seq::new(k, |s: int| p[2 * s].0 as int);
    let cols = Seq::new(k, |s: int| p[2 * s + 1].1 as int);
    assert forall|i: int| 0 <= i < k implies 0 <= #[trigger] rows[i] < m by {
        assert(in_grid(g, p[2 * i]));
    }
    assert forall|i: int| 0 <= i < k implies 0 <= #[trigger] cols[i] < n by {
        assert(in_grid(g, p[2 * i + 1]));
    }
    assert forall|i: int, j: int| 0 <= i < j < k implies #[trigger] rows[i] != #[trigger] rows[j] by {
        assert(p[2 * i].0 != p[2 * j].0);
    }
    assert forall|i: int, j: int| 0 <= i < j < k implies #[trigger] cols[i] != #[trigger] cols[j] by {
        assert(p[2 * i + 1].1 != p[2 * j + 1].1);
    }
    lemma_distinct_bound(rows, m as int);
    lemma_distinct_bound(cols, n as int);
}

/// No stepping-stone cycle closes at `start`.
pub open spec fn no_cycle(g: Seq<Seq<int>>, start: (usize, usize)) -> bool {
    forall|cyc: Seq<(usize, usize)>| !#[trigger] valid_cycle(g, start, cyc)
}

/// `q` is the least allocation among the donating cells of the cycle.
pub open spec fn least_donation(g: Seq<Seq<int>>, cyc: Seq<(usize, usize)>, q: int) -> bool {
    &&& forall|t: int| 0 <= t < cyc.len() - 1 && t % 2 == 1 ==> q <= at(g, #[trigger] cyc[t])
    &&& exists|t: int| 0 <= t < cyc.len() - 1 && t % 2 == 1 && q == at(g, #[trigger] cyc[t])
}

/// `h` is `g` after `q` moved along the cycle: in each row of the cycle
/// from its donating cell to its receiving cell, no other row touched.
pub open spec fn shifted(g: Seq<Seq<int>>, h: Seq<Seq<int>>, cyc: Seq<(usize, usize)>, q: int) -> bool {
    &&& h.len() == g.len()
    &&& forall|s: int|
        0 <= s < cyc.len() - 1 && s % 2 == 0 ==> h[(#[trigger] cyc[s]).0 as int] == shifted_row(
            g[cyc[s].0 as int],
            cyc[s].1 as int,
            cyc[s + 1].1 as int,
            q,
        )
    &&& forall|r: int| 0 <= r < g.len() && !cycle_row(cyc, r) ==> #[trigger] h[r] == g[r]
}

/// A row after `q` moved from entry `give` to entry `recv`.
pub open spec fn shifted_row(row: Seq<int>, recv: int, give: int, q: int) -> Seq<int> {
    row.update(give, row[give] - q).update(recv, row[recv] + q)
}

/// Row `r` holds a cell of the cycle.
pub open spec fn cycle_row(cyc: Seq<(usize, usize)>, r: int) -> bool {
    exists|s: int| 0 <= s < cyc.len() - 1 && s % 2 == 0 && (#[trigger] cyc[s]).0 == r
}

/// The least allocation among the donating cells of a cycle.
pub fn min_donation(allocations: &Vec<Vec<i32>>, cycle: &Vec<(usize, usize)>) -> (q: i32)
    requires
        cycle@.len() >= 1,
        valid_cycle(grid(allocations@), cycle@[0], cycle@),
    ensures
        q > 0,
        least_donation(grid(allocations@), cycle@, q as int),
{
    let ghost g = grid(allocations@);
    let ghost p = cycle@.drop_last();
    assert(forall|t: int| 0 <= t < p.len() ==> p[t] == cycle@[t]);
    assert(in_grid(g, p[1]) && at(g, p[1]) > 0);
    let first = cycle[1];
    let mut q: i32 = allocations[first.0][first.1];
    let ghost mut witness: int = 1;
    let mut t: usize = 3;
    while t < cycle.len() - 1
        invariant
            3 <= t <= cycle@.len(),
            t % 2 == 1,
            g == grid(allocations@),
            p == cycle@.drop_last(),
            valid_cycle(g, cycle@[0], cycle@),
            q > 0,
            forall|s: int| 0 <= s < t && s < cycle@.len() - 1 && s % 2 == 1 ==> q <= at(g, #[trigger] cycle@[s]),
            0 <= witness < cycle@.len() - 1 && witness % 2 == 1 && q == at(g, cycle@[witness]),
        decreases cycle@.len() - t,
    {
        assert(in_grid(g, p[t as int]) && at(g, p[t as int]) > 0 && p[t as int] == cycle@[t as int]);
        let cell = cycle[t];
        let x: i32 = allocations[cell.0][cell.1];
        if x < q {
            q = x;
            proof {
                witness = t as int;
            }
        }
        t = t + 2;
    }
    q
}

/// Shifts `q`, the least donating allocation, along the cycle: every
/// receiving cell gains `q` and every donating cell loses `q`. No row sum and
/// no column sum changes, and nothing becomes negative. Every donating cell
/// that held exactly `q` drops to zero and is no longer basic; where several
/// tie, all of them leave and the basis becomes degenerate.
pub fn reallocate(allocations: &mut Vec<Vec<i32>>, cycle: &Vec<(usize, usize)>) -> (q: i32)
    requires
        cycle@.len() >= 1,
        valid_cycle(grid(old(allocations)@), cycle@[0], cycle@),
        old(allocations)@.len() > 0,
        has_shape(grid(old(allocations)@), old(allocations)@.len(), old(allocations)@[0]@.len()),
        non_negative(grid(old(allocations)@)),
        forall|r: int|
            0 <= r < old(allocations)@.len() ==> #[trigger] row_sum(grid(old(allocations)@), r)
                <= i32::MAX,
    ensures
        q > 0,
        least_donation(grid(old(allocations)@), cycle@, q as int),
        shifted(grid(old(allocations)@), grid(final(allocations)@), cycle@, q as int),
        has_shape(grid(final(allocations)@), old(allocations)@.len(), old(allocations)@[0]@.len()),
        non_negative(grid(final(allocations)@)),
        forall|r: int|
            0 <= r < old(allocations)@.len() ==> #[trigger] row_sum(grid(final(allocations)@), r)
                == row_sum(grid(old(allocations)@), r),
        forall|c: int|
            0 <= c < old(allocations)@[0]@.len() ==> #[trigger] col_sum(
                grid(final(allocations)@),
                c,
            ) == col_sum(grid(old(allocations)@), c),
{
    let q = min_donation(allocations, cycle);
    let ghost g = grid(allocations@);
    let ghost p = cycle@.drop_last();
    let ghost m = allocations@.len();
    let ghost n = allocations@[0]@.len();
    let ghost j0 = cycle@[0].1 as int;
    assert(forall|t: int| 0 <= t < p.len() ==> p[t] == cycle@[t]);
    assert(g[0].len() == n);
    let mut t: usize = 0;
    while t < cycle.len() - 1
        invariant
            t <= cycle@.len() - 1,
            t % 2 == 0,
            m > 0,
            p == cycle@.drop_last(),
            j0 == cycle@[0].1,
            j0 < n,
            valid_cycle(g, cycle@[0], cycle@),
            has_shape(g, m, n),
            non_negative(g),
            q > 0,
            forall|s: int| 0 <= s < cycle@.len() - 1 && s % 2 == 1 ==> q <= at(g, #[trigger] cycle@[s]),
            forall|r: int| 0 <= r < m ==> #[trigger] row_sum(g, r) <= i32::MAX,
            has_shape(grid(allocations@), m, n),
            non_negative(grid(allocations@)),
            forall|r: int| 0 <= r < m ==> #[trigger] row_sum(grid(allocations@), r) == row_sum(g, r),
            forall|c: int|
                0 <= c < n ==> #[trigger] col_sum(grid(allocations@), c) == col_sum(g, c) + (if t > 0
                    && c == j0 {
                    q as int
                } else {
                    0
                }) - (if t > 0 && c == cycle@[t - 1].1 {
                    q as int
                } else {
                    0
                }),
            forall|s: int|
                t <= s < cycle@.len() - 1 && s % 2 == 0 ==> grid(allocations@)[(#[trigger] cycle@[s]).0 as int]
                    == g[cycle@[s].0 as int],
            forall|s: int|
                0 <= s < t && s % 2 == 0 ==> grid(allocations@)[(#[trigger] cycle@[s]).0 as int]
                    == shifted_row(
                    g[cycle@[s].0 as int],
                    cycle@[s].1 as int,
                    cycle@[s + 1].1 as int,
                    q as int,
                ),
            forall|r: int|
                0 <= r < m && !cycle_row(cycle@, r) ==> #[trigger] grid(allocations@)[r] == g[r],
        decreases cycle@.len() - t,
    {
        let recv = cycle[t];
        let give = cycle[t + 1];
        let ghost h0 = grid(allocations@);
        let ghost r = recv.0 as int;
        proof {
            assert(p[t as int] == recv && p[t + 1] == give);
            assert(in_grid(g, p[t as int]) && in_grid(g, p[t + 1]));
            assert(linked(p, t as int));
            assert(recv.0 == give.0);
            assert(g[r].len() == n && h0[r].len() == n);
            assert(h0[r] == g[r]);
            assert(q <= at(g, cycle@[t + 1]));
            assert(cycle_row(cycle@, r));
            assert(recv.1 != give.1) by {
                if t > 0 {
                    assert(linked(p, t - 1));
                    assert(p[t - 1].1 != p[t + 1].1);
                } else {
                    assert(p[1].1 != p[p.len() - 1].1);
                }
            }
            assert(h0[r][give.1 as int] == allocations@[r]@[give.1 as int]);
            assert(h0[r][recv.1 as int] == allocations@[r]@[recv.1 as int]);
        }
        let old_give: i32 = allocations[give.0][give.1];
        set_cell(allocations, give.0, give.1, old_give - q);
        let ghost h1 = grid(allocations@);
        proof {
            lemma_cell_update(h0, r, give.1 as int, (old_give - q) as int);
            assert(h1[r].len() == n);
            assert forall|c: int| 0 <= c < n implies #[trigger] h1[r][c] >= 0 by {
                assert(h0[r][c] >= 0);
            }
            lemma_sum_bounds(h1[r]);
            assert(row_sum(h0, r) == row_sum(g, r));
            assert(row_sum(h1, r) == row_sum(g, r) - q);
            assert(h1[r][recv.1 as int] <= row_sum(h1, r));
            assert(h1[r][recv.1 as int] == allocations@[r]@[recv.1 as int]);
            assert(h1[r] =~= g[r].update(give.1 as int, g[r][give.1 as int] - q));
        }
        let old_recv: i32 = allocations[recv.0][recv.1];
        set_cell(allocations, recv.0, recv.1, old_recv + q);
        proof {
            let h2 = grid(allocations@);
            lemma_cell_update(h1, r, recv.1 as int, (old_recv + q) as int);
            assert(h2[r] =~= shifted_row(g[r], recv.1 as int, give.1 as int, q as int));
            assert(has_shape(h2, m, n)) by {
                assert forall|i: int| 0 <= i < m implies (#[trigger] h2[i]).len() == n by {
                    if i != r {
                        assert(h2[i] == h1[i] && h1[i] == h0[i]);
                    }
                }
            }
            assert forall|i: int, c: int|
                0 <= i < h2.len() && 0 <= c < h2[i].len() implies #[trigger] h2[i][c] >= 0 by {
                if i != r {
                    assert(h2[i] == h1[i] && h1[i] == h0[i]);
                    assert(h0[i][c] >= 0);
                } else {
                    assert(h1[r][c] >= 0);
                }
            }
            assert forall|i: int| 0 <= i < m implies #[trigger] row_sum(h2, i) == row_sum(g, i) by {
                if i != r {
                    assert(h2[i] == h1[i] && h1[i] == h0[i]);
                    assert(row_sum(h0, i) == row_sum(g, i));
                }
            }
            assert(t > 0 ==> cycle@[t as int].1 == cycle@[t - 1].1) by {
                if t > 0 {
                    assert(linked(p, t - 1));
                }
            }
            assert forall|c: int| 0 <= c < n implies #[trigger] col_sum(h2, c) == col_sum(g, c) + (
            if c == j0 {
                q as int
            } else {
                0
            }) - (if c == give.1 {
                q as int
            } else {
                0
            }) by {
                assert(col_sum(h0, c) == col_sum(g, c) + (if t > 0 && c == j0 {
                    q as int
                } else {
                    0
                }) - (if t > 0 && c == cycle@[t - 1].1 {
                    q as int
                } else {
                    0
                }));
                if c != give.1 {
                    assert(column(h1, c) == column(h0, c));
                }
                if c != recv.1 {
                    assert(column(h2, c) == column(h1, c));
                }
            }
            assert forall|s: int| t + 2 <= s < cycle@.len() - 1 && s % 2 == 0 implies h2[(
            #[trigger] cycle@[s]).0 as int] == g[cycle@[s].0 as int] by {
                assert(p[t as int].0 != p[s].0);
                assert(in_grid(g, p[s]));
                let i = cycle@[s].0 as int;
                assert(h2[i] == h1[i] && h1[i] == h0[i]);
            }
            assert forall|s: int| 0 <= s < t + 2 && s % 2 == 0 implies h2[(#[trigger] cycle@[s]).0 as int]
                == shifted_row(
                g[cycle@[s].0 as int],
                cycle@[s].1 as int,
                cycle@[s + 1].1 as int,
                q as int,
            ) by {
                if s < t {
                    assert(p[s].0 != p[t as int].0);
                    assert(in_grid(g, p[s]));
                    let i = cycle@[s].0 as int;
                    assert(h2[i] == h1[i] && h1[i] == h0[i]);
                }
            }
            assert forall|i: int| 0 <= i < m && !cycle_row(cycle@, i) implies #[trigger] h2[i]
                == g[i] by {
                assert(h2[i] == h1[i] && h1[i] == h0[i]);
            }
        }
        t = t + 2;
    }
    q
}

/// Whether a row step of the path already uses row `r`.
fn row_taken(path: &Vec<(usize, usize)>, r: usize) -> (taken: bool)
    ensures
        !taken ==> forall|t: int| 0 <= t < path@.len() && t % 2 == 0 ==> (#[trigger] path@[t]).0 != r,
        taken ==> exists|t: int| 0 <= t < path@.len() && t % 2 == 0 && (#[trigger] path@[t]).0 == r,
{
    let mut t: usize = 0;
    while t < path.len()
        invariant
            t <= path@.len(),
            forall|s: int| 0 <= s < t && s % 2 == 0 ==> (#[trigger] path@[s]).0 != r,
        decreases path@.len() - t,
    {
        if t % 2 == 0 && path[t].0 == r {
            return true;
        }
        t = t + 1;
    }
    false
}

/// Whether a column step of the path already uses column `c`.
fn column_taken(path: &Vec<(usize, usize)>, c: usize) -> (taken: bool)
    ensures
        !taken ==> forall|t: int| 0 <= t < path@.len() && t % 2 == 1 ==> (#[trigger] path@[t]).1 != c,
        taken ==> exists|t: int| 0 <= t < path@.len() && t % 2 == 1 && (#[trigger] path@[t]).1 == c,
{
    let mut t: usize = 0;
    while t < path.len()
        invariant
            t <= path@.len(),
            forall|s: int| 0 <= s < t && s % 2 == 1 ==> (#[trigger] path@[s]).1 != c,
        decreases path@.len() - t,
    {
        if t % 2 == 1 && path[t].1 == c {
            return true;
        }
        t = t + 1;
    }
    false
}

/// Backtracking search: tries to grow the alternating path into a cycle
/// that closes at `start`, going at most `fuel` cells deeper. On failure the
/// path is left as it was.
fn extend_path(
    a: &Vec<Vec<i32>>,
    m: usize,
    n: usize,
    start: (usize, usize),
    path: &mut Vec<(usize, usize)>,
    fuel: u128,
) -> (found: bool)
    requires
        has_shape(grid(a@), m as nat, n as nat),
        partial_path(grid(a@), start, old(path)@),
    ensures
        found ==> valid_cycle(grid(a@), start, final(path)@),
        !found ==> final(path)@ == old(path)@,
        !found ==> forall|cyc: Seq<(usize, usize)>|
            #[trigger] valid_cycle(grid(a@), start, cyc) && begins_with(cyc, old(path)@) ==> cyc.len()
                >= old(path)@.len() + fuel,
    decreases fuel,
{
    if fuel == 0 {
        return false;
    }
    let ghost g = grid(a@);
    let ghost base = path@;
    let last = path.len() - 1;
    let cell = path[last];
    let r = cell.0;
    let c = cell.1;
    assert(in_grid(g, base[last as int]));
    assert(g[r as int].len() == n);
    if last % 2 == 0 {
        let mut cand: usize = 0;
        while cand < n
            invariant
                cand <= n,
                path@ == base,
                g == grid(a@),
                has_shape(g, m as nat, n as nat),
                partial_path(g, start, base),
                last == base.len() - 1,
                last % 2 == 0,
                base[last as int] == (r, c),
                r < m,
                fuel > 0,
                forall|cyc: Seq<(usize, usize)>|
                    #[trigger] valid_cycle(g, start, cyc) && begins_with(cyc, base) && cyc[base.len() as int].1
                        < cand ==> cyc.len() >= base.len() + fuel,
            decreases n - cand,
        {
            let ghost mut tried: Seq<(usize, usize)> = base;
            let ghost mut refused = true;
            if cand != c && a[r][cand] > 0 && !column_taken(path, cand) {
                proof {
                    tried = base.push((r, cand));
                    refused = false;
                }
                path.push((r, cand));
                proof {
                    let q = path@;
                    assert(g[r as int][cand as int] == a@[r as int]@[cand as int]);
                    assert forall|t: int| 0 <= t < q.len() implies in_grid(g, #[trigger] q[t]) by {
                        if t < base.len() {
                            assert(q[t] == base[t]);
                        }
                    }
                    assert forall|t: int| 1 <= t < q.len() implies at(g, #[trigger] q[t]) > 0 by {
                        if t < base.len() {
                            assert(q[t] == base[t]);
                        }
                    }
                    assert forall|t: int| 0 <= t < q.len() - 1 implies #[trigger] linked(q, t) by {
                        if t < base.len() - 1 {
                            assert(linked(base, t));
                        }
                    }
                    assert forall|s: int, t: int|
                        0 <= s < t < q.len() && s % 2 == 0 && t % 2 == 0 implies (#[trigger] q[s]).0
                        != (#[trigger] q[t]).0 by {
                        assert(q[s] == base[s] && q[t] == base[t]);
                    }
                    assert forall|s: int, t: int|
                        0 <= s < t < q.len() && s % 2 == 1 && t % 2 == 1 implies (#[trigger] q[s]).1
                        != (#[trigger] q[t]).1 by {
                        assert(q[s] == base[s]);
                        if t < base.len() {
                            assert(q[t] == base[t]);
                        }
                    }
                }
                if extend_path(a, m, n, start, path, fuel - 1) {
                    return true;
                }
                path.pop();
                assert(path@ =~= base);
            }
            proof {
                assert(g[r as int][cand as int] == a@[r as int]@[cand as int]);
                assert forall|cyc: Seq<(usize, usize)>|
                    #[trigger] valid_cycle(g, start, cyc) && begins_with(cyc, base) && cyc[base.len() as int].1
                        < cand + 1 implies cyc.len() >= base.len() + fuel by {
                    if cyc[base.len() as int].1 == cand {
                        lemma_next_in_row(g, start, base, cyc);
                        if refused {
                            assert(false);
                        } else {
                            assert(begins_with(cyc, tried));
                        }
                    }
                }
            }
            cand = cand + 1;
        }
        proof {
            assert forall|cyc: Seq<(usize, usize)>|
                #[trigger] valid_cycle(g, start, cyc) && begins_with(cyc, base) implies cyc.len()
                >= base.len() + fuel by {
                lemma_next_in_row(g, start, base, cyc);
            }
        }
        false
    } else {
        if c == start.1 {
            if path.len() >= 4 {
                path.push(start);
                assert(path@.drop_last() =~= base);
                return true;
            }
            proof {
                assert forall|cyc: Seq<(usize, usize)>|
                    #[trigger] valid_cycle(g, start, cyc) && begins_with(cyc, base) implies cyc.len()
                    >= base.len() + fuel by {
                    lemma_no_early_close(g, start, base, cyc);
                }
            }
            return false;
        }
        let mut cand: usize = 0;
        while cand < m
            invariant
                cand <= m,
                path@ == base,
                g == grid(a@),
                has_shape(g, m as nat, n as nat),
                partial_path(g, start, base),
                last == base.len() - 1,
                last % 2 == 1,
                base[last as int] == (r, c),
                c < n,
                c != start.1,
                fuel > 0,
                forall|cyc: Seq<(usize, usize)>|
                    #[trigger] valid_cycle(g, start, cyc) && begins_with(cyc, base) && cyc[base.len() as int].0
                        < cand ==> cyc.len() >= base.len() + fuel,
            decreases m - cand,
        {
            assert(g[cand as int].len() == n);
            let ghost mut tried: Seq<(usize, usize)> = base;
            let ghost mut refused = true;
            if cand != r && a[cand][c] > 0 && !row_taken(path, cand) {
                proof {
                    tried = base.push((cand, c));
                    refused = false;
                }
                path.push((cand, c));
                proof {
                    let q = path@;
                    assert(g[cand as int].len() == n);
                    assert(g[cand as int][c as int] == a@[cand as int]@[c as int]);
                    assert forall|t: int| 0 <= t < q.len() implies in_grid(g, #[trigger] q[t]) by {
                        if t < base.len() {
                            assert(q[t] == base[t]);
                        }
                    }
                    assert forall|t: int| 1 <= t < q.len() implies at(g, #[trigger] q[t]) > 0 by {
                        if t < base.len() {
                            assert(q[t] == base[t]);
                        }
                    }
                    assert forall|t: int| 0 <= t < q.len() - 1 implies #[trigger] linked(q, t) by {
                        if t < base.len() - 1 {
                            assert(linked(base, t));
                        }
                    }
                    assert forall|s: int, t: int|
                        0 <= s < t < q.len() && s % 2 == 0 && t % 2 == 0 implies (#[trigger] q[s]).0
                        != (#[trigger] q[t]).0 by {
                        assert(q[s] == base[s]);
                        if t < base.len() {
                            assert(q[t] == base[t]);
                        }
                    }
                    assert forall|s: int, t: int|
                        0 <= s < t < q.len() && s % 2 == 1 && t % 2 == 1 implies (#[trigger] q[s]).1
                        != (#[trigger] q[t]).1 by {
                        assert(q[s] == base[s] && q[t] == base[t]);
                    }
                }
                if extend_path(a, m, n, start, path, fuel - 1) {
                    return true;
                }
                path.pop();
                assert(path@ =~= base);
            }
            proof {
                assert(g[cand as int][c as int] == a@[cand as int]@[c as int]);
                assert forall|cyc: Seq<(usize, usize)>|
                    #[trigger] valid_cycle(g, start, cyc) && begins_with(cyc, base) && cyc[base.len() as int].0
                        < cand + 1 implies cyc.len() >= base.len() + fuel by {
                    if cyc[base.len() as int].0 == cand {
                        lemma_next_in_column(g, start, base, cyc);
                        if refused {
                            assert(false);
                        } else {
                            assert(begins_with(cyc, tried));
                        }
                    }
                }
            }
            cand = cand + 1;
        }
        proof {
            assert forall|cyc: Seq<(usize, usize)>|
                #[trigger] valid_cycle(g, start, cyc) && begins_with(cyc, base) implies cyc.len()
                >= base.len() + fuel by {
                lemma_next_in_column(g, start, base, cyc);
            }
        }
        false
    }
}

impl TransportProblem {
    /// Looks for a stepping-stone cycle through the entering cell
    /// (`start_i`, `start_j`) by backtracking over the basic cells, a row
    /// step and a column step in turn. The cycle found begins and ends with
    /// the entering cell.
    pub fn find_cycle(&self, allocations: &Vec<Vec<i32>>, start_i: usize, start_j: usize) -> (result:
        Option<Vec<(usize, usize)>>)
        requires
            start_i < allocations@.len(),
            start_j < allocations@[0]@.len(),
            has_shape(grid(allocations@), allocations@.len(), allocations@[0]@.len()),
        ensures
            result matches Some(cycle) ==> valid_cycle(
                grid(allocations@),
                (start_i, start_j),
                cycle@,
            ),
            result is None ==> no_cycle(grid(allocations@), (start_i, start_j)),
    {
        let m = allocations.len();
        let n = allocations[0].len();
        let fuel: u128 = m as u128 + n as u128 + 1;
        let mut path: Vec<(usize, usize)> = Vec::new();
        path.push((start_i, start_j));
        assert(grid(allocations@)[start_i as int].len() == n);
        let ghost base = path@;
        if extend_path(allocations, m, n, (start_i, start_j), &mut path, fuel) {
            Some(path)
        } else {
            proof {
                let g = grid(allocations@);
                assert forall|cyc: Seq<(usize, usize)>| !#[trigger] valid_cycle(
                    g,
                    (start_i, start_j),
                    cyc,
                ) by {
                    if valid_cycle(g, (start_i, start_j), cyc) {
                        assert(cyc.drop_last()[0] == cyc[0]);
                        assert(begins_with(cyc, base));
                        lemma_cycle_length(g, (start_i, start_j), cyc, m as nat, n as nat);
                    }
                }
            }
            None
        }
    }
}

} // verus!
