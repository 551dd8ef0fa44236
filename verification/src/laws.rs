//! Laws of the cost function and of the improvement step.

use vstd::prelude::*;
use crate::grid::{sum, has_shape, products, row_cost, row_costs, cost_of, lemma_sum_update};
use crate::cycle::{at, in_grid, linked, valid_cycle, shifted, shifted_row, cycle_row};
use crate::optimize::{reduced_cost, shift_step};
use crate::potentials::{row_duals, col_duals};

verus! {

/// `p` lists each of the indices `0 .. n` exactly once.
pub open spec fn is_permutation(p: Seq<int>, n: nat) -> bool {
    &&& p.len() == n
    &&& forall|i: int| 0 <= i < n ==> 0 <= #[trigger] p[i] < n
    &&& forall|i: int, j: int| 0 <= i < j < n ==> #[trigger] p[i] != #[trigger] p[j]
}

/// The entries of `s` in the order that `p` lists them.
pub open spec fn rearranged(s: Seq<int>, p: Seq<int>) -> Seq<int> {
    Seq::new(p.len(), |i: int| s[p[i]])
}

/// The matrix whose entry (`i`, `j`) is entry (`rows[i]`, `cols[j]`) of `g`.
pub open spec fn permuted(g: Seq<Seq<int>>, rows: Seq<int>, cols: Seq<int>) -> Seq<Seq<int>> {
    Seq::new(rows.len(), |i: int| Seq::new(cols.len(), |j: int| g[rows[i]][cols[j]]))
}

/// Taking one entry out of a sequence lowers the sum by that entry.
pub proof fn lemma_sum_remove(s: Seq<int>, k: int)
    requires
        0 <= k < s.len(),
    ensures
        sum(s) == sum(s.remove(k)) + s[k],
    decreases s.len(),
{
    if k == s.len() - 1 {
        assert(s.remove(k) =~= s.drop_last());
    } else {
        lemma_sum_remove(s.drop_last(), k);
        assert(s.remove(k).drop_last() =~= s.drop_last().remove(k));
        assert(s.remove(k).last() == s.last());
    }
}

/// The sum of a sequence does not depend on the order of its entries.
pub proof fn lemma_sum_rearranged(s: Seq<int>, p: Seq<int>)
    requires
        is_permutation(p, s.len()),
    ensures
        sum(rearranged(s, p)) == sum(s),
    decreases s.len(),
{
    let n = s.len() as int;
    if n > 0 {
        let k = p[n - 1];
        let rest = s.remove(k);
        let q = Seq::new((n - 1) as nat, |i: int| if p[i] > k { p[i] - 1 } else { p[i] });
        assert(is_permutation(q, rest.len())) by {
            assert forall|i: int| 0 <= i < n - 1 implies 0 <= #[trigger] q[i] < n - 1 by {
                assert(p[i] != p[n - 1]);
            }
            assert forall|i: int, j: int| 0 <= i < j < n - 1 implies #[trigger] q[i] != #[trigger] q[j] by {
                assert(p[i] != p[j]);
                assert(p[i] != p[n - 1]);
                assert(p[j] != p[n - 1]);
            }
        }
        lemma_sum_rearranged(rest, q);
        assert(rearranged(rest, q) =~= rearranged(s, p).drop_last()) by {
            assert forall|i: int| 0 <= i < n - 1 implies rearranged(rest, q)[i] == rearranged(s, p)[i] by {
                assert(p[i] != p[n - 1]);
            }
        }
        lemma_sum_remove(s, k);
    }
}

/// The total cost is the same after the rows and the columns of the costs
/// and of the allocations have been permuted in the same way.
pub proof fn lemma_cost_permutation_invariant(
    c: Seq<Seq<int>>,
    a: Seq<Seq<int>>,
    rows: Seq<int>,
    cols: Seq<int>,
    m: nat,
    n: nat,
)
    requires
        has_shape(c, m, n),
        has_shape(a, m, n),
        is_permutation(rows, m),
        is_permutation(cols, n),
    ensures
        cost_of(permuted(c, rows, cols), permuted(a, rows, cols)) == cost_of(c, a),
{
    let pc = permuted(c, rows, cols);
    let pa = permuted(a, rows, cols);
    assert forall|i: int| 0 <= i < m implies #[trigger] row_costs(pc, pa)[i] == rearranged(
        row_costs(c, a),
        rows,
    )[i] by {
        let r = rows[i];
        assert(a[r].len() == n && c[r].len() == n);
        assert(products(pc[i], pa[i]) =~= rearranged(products(c[r], a[r]), cols));
        lemma_sum_rearranged(products(c[r], a[r]), cols);
        assert(row_cost(pc[i], pa[i]) == row_cost(c[r], a[r]));
    }
    assert(row_costs(pc, pa) =~= rearranged(row_costs(c, a), rows));
    lemma_sum_rearranged(row_costs(c, a), rows);
}

/// What the first `k` row steps of a cycle add to the cost per unit moved:
/// the costs of their receiving cells less those of their donating cells.
pub open spec fn gain_upto(c: Seq<Seq<int>>, cyc: Seq<(usize, usize)>, k: nat) -> int
    decreases k,
{
    if k == 0 {
        0
    } else {
        gain_upto(c, cyc, (k - 1) as nat) + at(c, cyc[2 * (k - 1)]) - at(c, cyc[2 * (k - 1) + 1])
    }
}

/// What moving one unit along the whole cycle adds to the cost.
pub open spec fn cycle_gain(c: Seq<Seq<int>>, cyc: Seq<(usize, usize)>) -> int {
    gain_upto(c, cyc, ((cyc.len() - 1) / 2) as nat)
}

/// `g` after `q` moved along the first `k` row steps of the cycle.
pub open spec fn shift_upto(g: Seq<Seq<int>>, cyc: Seq<(usize, usize)>, q: int, k: nat) -> Seq<Seq<int>>
    decreases k,
{
    if k == 0 {
        g
    } else {
        let h = shift_upto(g, cyc, q, (k - 1) as nat);
        let r = cyc[2 * (k - 1)].0 as int;
        h.update(r, shifted_row(h[r], cyc[2 * (k - 1)].1 as int, cyc[2 * (k - 1) + 1].1 as int, q))
    }
}

/// One of the first `k` row steps of the cycle lies in row `r`.
pub open spec fn row_used(cyc: Seq<(usize, usize)>, r: int, k: nat) -> bool {
    exists|t: int| 0 <= t < 2 * k && t % 2 == 0 && (#[trigger] cyc[t]).0 == r
}

/// Moving `q` within a row changes the row's cost by `q` times the cost
/// difference of the two cells.
pub proof fn lemma_shifted_row_cost(c: Seq<int>, row: Seq<int>, recv: int, give: int, q: int)
    requires
        0 <= recv < row.len(),
        0 <= give < row.len(),
        recv != give,
    ensures
        row_cost(c, shifted_row(row, recv, give, q)) == row_cost(c, row) + q * (c[recv] - c[give]),
{
    let mid = row.update(give, row[give] - q);
    let end = shifted_row(row, recv, give, q);
    assert(products(c, mid) =~= products(c, row).update(give, c[give] * (row[give] - q)));
    lemma_sum_update(products(c, row), give, c[give] * (row[give] - q));
    assert(products(c, end) =~= products(c, mid).update(recv, c[recv] * (row[recv] + q)));
    lemma_sum_update(products(c, mid), recv, c[recv] * (row[recv] + q));
    assert(c[give] * (row[give] - q) == c[give] * row[give] - q * c[give]) by (nonlinear_arith);
    assert(c[recv] * (row[recv] + q) == c[recv] * row[recv] + q * c[recv]) by (nonlinear_arith);
    assert(q * (c[recv] - c[give]) == q * c[recv] - q * c[give]) by (nonlinear_arith);
}

/// Replacing one row changes the total cost by the change of that row's cost.
pub proof fn lemma_row_replaced_cost(c: Seq<Seq<int>>, g: Seq<Seq<int>>, r: int, row: Seq<int>)
    requires
        0 <= r < g.len(),
    ensures
        cost_of(c, g.update(r, row)) == cost_of(c, g) - row_cost(c[r], g[r]) + row_cost(c[r], row),
{
    assert(row_costs(c, g.update(r, row)) =~= row_costs(c, g).update(r, row_cost(c[r], row)));
    lemma_sum_update(row_costs(c, g), r, row_cost(c[r], row));
}

/// After the first `k` row steps, each row of those steps holds its shifted
/// self, every other row is untouched, and the cost has changed by `q` times
/// the gain of those steps.
pub proof fn lemma_shift_upto(
    c: Seq<Seq<int>>,
    g: Seq<Seq<int>>,
    start: (usize, usize),
    cyc: Seq<(usize, usize)>,
    q: int,
    k: nat,
    m: nat,
    n: nat,
)
    requires
        has_shape(c, m, n),
        has_shape(g, m, n),
        valid_cycle(g, start, cyc),
        2 * k <= cyc.len() - 1,
    ensures
        has_shape(shift_upto(g, cyc, q, k), m, n),
        forall|t: int|
            0 <= t < 2 * k && t % 2 == 0 ==> shift_upto(g, cyc, q, k)[(#[trigger] cyc[t]).0 as int]
                == shifted_row(g[cyc[t].0 as int], cyc[t].1 as int, cyc[t + 1].1 as int, q),
        forall|r: int|
            0 <= r < m && !row_used(cyc, r, k) ==> #[trigger] shift_upto(g, cyc, q, k)[r] == g[r],
        cost_of(c, shift_upto(g, cyc, q, k)) == cost_of(c, g) + q * gain_upto(c, cyc, k),
    decreases k,
{
    if k == 0 {
        assert(q * 0 == 0);
    } else {
        let j = (k - 1) as nat;
        lemma_shift_upto(c, g, start, cyc, q, j, m, n);
        let p = cyc.drop_last();
        assert(forall|t: int| 0 <= t < p.len() ==> p[t] == cyc[t]);
        let h = shift_upto(g, cyc, q, j);
        let e: int = 2 * (k - 1);
        let recv = cyc[e];
        let give = cyc[e + 1];
        let r = recv.0 as int;
        let new = shift_upto(g, cyc, q, k);
        assert(in_grid(g, p[e]) && in_grid(g, p[e + 1]));
        assert(linked(p, e));
        assert(g[r].len() == n && c[r].len() == n && h[r].len() == n);
        assert(recv.1 != give.1) by {
            if e > 0 {
                assert(linked(p, e - 1));
                assert(p[e - 1].1 != p[e + 1].1);
            } else {
                assert(p[1].1 != p[p.len() - 1].1);
            }
        }
        assert(!row_used(cyc, r, j)) by {
            if row_used(cyc, r, j) {
                let t = choose|t: int| 0 <= t < 2 * j && t % 2 == 0 && (#[trigger] cyc[t]).0 == r;
                assert(p[t].0 != p[e].0);
            }
        }
        assert(h[r] == g[r]);
        assert(new == h.update(r, shifted_row(h[r], recv.1 as int, give.1 as int, q)));
        assert forall|i: int| 0 <= i < m implies (#[trigger] new[i]).len() == n by {
            if i != r {
                assert(new[i] == h[i]);
            }
        }
        assert forall|t: int| 0 <= t < 2 * k && t % 2 == 0 implies new[(#[trigger] cyc[t]).0 as int]
            == shifted_row(g[cyc[t].0 as int], cyc[t].1 as int, cyc[t + 1].1 as int, q) by {
            if t < e {
                assert(p[t].0 != p[e].0);
                assert(in_grid(g, p[t]));
                assert(new[cyc[t].0 as int] == h[cyc[t].0 as int]);
            }
        }
        assert forall|i: int| 0 <= i < m && !row_used(cyc, i, k) implies #[trigger] new[i] == g[i] by {
            if row_used(cyc, i, j) {
                let t = choose|t: int| 0 <= t < 2 * j && t % 2 == 0 && (#[trigger] cyc[t]).0 == i;
                assert(0 <= t < 2 * k && t % 2 == 0 && cyc[t].0 == i);
            }
            if i == r {
                assert(0 <= e < 2 * k && e % 2 == 0 && cyc[e].0 == i);
            }
            assert(new[i] == h[i]);
        }
        lemma_row_replaced_cost(c, h, r, shifted_row(h[r], recv.1 as int, give.1 as int, q));
        lemma_shifted_row_cost(c[r], h[r], recv.1 as int, give.1 as int, q);
        let step = at(c, recv) - at(c, give);
        assert(gain_upto(c, cyc, k) == gain_upto(c, cyc, j) + step);
        assert(q * (gain_upto(c, cyc, j) + step) == q * gain_upto(c, cyc, j) + q * step)
            by (nonlinear_arith);
    }
}

/// Shifting `q` along a cycle changes the cost by `q` times the gain of
/// the cycle.
pub proof fn lemma_shift_cost(
    c: Seq<Seq<int>>,
    g: Seq<Seq<int>>,
    h: Seq<Seq<int>>,
    start: (usize, usize),
    cyc: Seq<(usize, usize)>,
    q: int,
    m: nat,
    n: nat,
)
    requires
        has_shape(c, m, n),
        has_shape(g, m, n),
        valid_cycle(g, start, cyc),
        shifted(g, h, cyc, q),
    ensures
        cost_of(c, h) == cost_of(c, g) + q * cycle_gain(c, cyc),
{
    let k = ((cyc.len() - 1) / 2) as nat;
    lemma_shift_upto(c, g, start, cyc, q, k, m, n);
    let w = shift_upto(g, cyc, q, k);
    assert forall|r: int| 0 <= r < m implies h[r] == w[r] by {
        if cycle_row(cyc, r) {
            let t = choose|t: int| 0 <= t < cyc.len() - 1 && t % 2 == 0 && (#[trigger] cyc[t]).0 == r;
            assert(h[cyc[t].0 as int] == w[cyc[t].0 as int]);
        } else {
            if row_used(cyc, r, k) {
                let t = choose|t: int| 0 <= t < 2 * k && t % 2 == 0 && (#[trigger] cyc[t]).0 == r;
                assert(0 <= t < cyc.len() - 1 && t % 2 == 0 && cyc[t].0 == r);
            }
            assert(w[r] == g[r]);
        }
    }
    assert(h =~= w);
}

/// Where every basic cell of the cycle has `cost = u + v`, the gain of its
/// first `k` row steps is the cost of the entering cell less the potential
/// of its row and that of the column reached.
pub proof fn lemma_gain_telescopes(
    c: Seq<Seq<int>>,
    g: Seq<Seq<int>>,
    start: (usize, usize),
    cyc: Seq<(usize, usize)>,
    u: Seq<int>,
    v: Seq<int>,
    k: nat,
)
    requires
        valid_cycle(g, start, cyc),
        1 <= k,
        2 * k <= cyc.len() - 1,
        forall|t: int|
            1 <= t < cyc.len() - 1 ==> at(c, #[trigger] cyc[t]) == u[cyc[t].0 as int] + v[cyc[t].1 as int],
    ensures
        gain_upto(c, cyc, k) == at(c, start) - u[start.0 as int] - v[cyc[2 * k - 1].1 as int],
    decreases k,
{
    let p = cyc.drop_last();
    assert(forall|t: int| 0 <= t < p.len() ==> p[t] == cyc[t]);
    let e: int = 2 * (k - 1);
    assert(linked(p, e));
    assert(at(c, cyc[e + 1]) == u[cyc[e + 1].0 as int] + v[cyc[e + 1].1 as int]);
    if k == 1 {
        assert(gain_upto(c, cyc, 0) == 0);
    } else {
        lemma_gain_telescopes(c, g, start, cyc, u, v, (k - 1) as nat);
        assert(linked(p, e - 1));
        assert(at(c, cyc[e]) == u[cyc[e].0 as int] + v[cyc[e].1 as int]);
    }
}

/// One improvement step at consistent potentials: where every basic cell
/// of the cycle has `cost = u + v`, shifting `q` along the cycle changes
/// the cost by `q` times the reduced cost of the entering cell.
pub proof fn lemma_step_cost(
    c: Seq<Seq<int>>,
    a: Seq<Seq<int>>,
    b: Seq<Seq<int>>,
    start: (usize, usize),
    cyc: Seq<(usize, usize)>,
    q: int,
    u: Seq<int>,
    v: Seq<int>,
    m: nat,
    n: nat,
)
    requires
        has_shape(c, m, n),
        has_shape(a, m, n),
        valid_cycle(a, start, cyc),
        shifted(a, b, cyc, q),
        forall|t: int|
            1 <= t < cyc.len() - 1 ==> at(c, #[trigger] cyc[t]) == u[cyc[t].0 as int] + v[cyc[t].1 as int],
    ensures
        cost_of(c, b) == cost_of(c, a) + q * reduced_cost(c, u, v, start.0 as int, start.1 as int),
{
    let k = ((cyc.len() - 1) / 2) as nat;
    lemma_shift_cost(c, a, b, start, cyc, q, m, n);
    lemma_gain_telescopes(c, a, start, cyc, u, v, k);
}

/// An improvement step lowers the cost wherever the potentials are true on
/// its cycle: if every basic cell of the cycle has `cost = u + v` at the
/// potentials of the plan, the plan after the step costs strictly less.
pub proof fn lemma_step_lowers_cost(
    c: Seq<Seq<int>>,
    a: Seq<Seq<int>>,
    b: Seq<Seq<int>>,
    cell: (usize, usize),
    cyc: Seq<(usize, usize)>,
    q: int,
    m: nat,
    n: nat,
)
    requires
        has_shape(c, m, n),
        has_shape(a, m, n),
        shift_step(c, a, b, cell, cyc, q),
        forall|t: int|
            1 <= t < cyc.len() - 1 ==> at(c, #[trigger] cyc[t]) == row_duals(c, a)[cyc[t].0 as int]
                + col_duals(c, a)[cyc[t].1 as int],
    ensures
        cost_of(c, b) < cost_of(c, a),
{
    let u = row_duals(c, a);
    let v = col_duals(c, a);
    lemma_step_cost(c, a, b, cell, cyc, q, u, v, m, n);
    let rc = reduced_cost(c, u, v, cell.0 as int, cell.1 as int);
    let p = cyc.drop_last();
    let t = choose|t: int| 0 <= t < cyc.len() - 1 && t % 2 == 1 && q == at(a, #[trigger] cyc[t]);
    assert(p[t] == cyc[t]);
    assert(at(a, p[t]) > 0);
    assert(q * rc < 0) by (nonlinear_arith)
        requires
            q > 0,
            rc < 0,
    ;
}

/// An improvement step does not raise the cost unless moving a unit along
/// its cycle costs more than it saves.
pub proof fn lemma_step_never_raises(
    c: Seq<Seq<int>>,
    a: Seq<Seq<int>>,
    b: Seq<Seq<int>>,
    cell: (usize, usize),
    cyc: Seq<(usize, usize)>,
    q: int,
    m: nat,
    n: nat,
)
    requires
        has_shape(c, m, n),
        has_shape(a, m, n),
        shift_step(c, a, b, cell, cyc, q),
        cycle_gain(c, cyc) <= 0,
    ensures
        cost_of(c, b) <= cost_of(c, a),
{
    lemma_shift_cost(c, a, b, cell, cyc, q, m, n);
    let p = cyc.drop_last();
    let t = choose|t: int| 0 <= t < cyc.len() - 1 && t % 2 == 1 && q == at(a, #[trigger] cyc[t]);
    assert(p[t] == cyc[t]);
    assert(at(a, p[t]) > 0);
    let gain = cycle_gain(c, cyc);
    assert(q * gain <= 0) by (nonlinear_arith)
        requires
            q > 0,
            gain <= 0,
    ;
}

} // verus!
