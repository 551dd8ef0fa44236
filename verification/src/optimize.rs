//! The improvement loop: potentials, entering cell, cycle, reallocation.

use vstd::prelude::*;
use crate::grid::{grid, has_shape, row_sum};
use crate::cycle::{reallocate, valid_cycle, least_donation, shifted, no_cycle};
use crate::potentials::{wide, row_duals, col_duals};
use crate::problem::{TransportPlan, TransportProblem};

verus! {

/// Why the optimizer gave up without certifying the plan.
#[derive(Debug, PartialEq, Eq, Clone, Copy)]
pub enum StallReason {
    /// No stepping-stone cycle closes at the entering cell.
    CycleNotFound,
}

/// How an optimization run ended.
#[derive(Debug, PartialEq, Eq, Clone, Copy)]
pub enum OptimizationOutcome {
    /// No non-basic cell has a negative reduced cost.
    Optimal,
    /// An improving cell exists, but the plan could not be improved through it.
    Stalled(StallReason),
    /// The allowed number of iterations was used up.
    IterationCapReached,
}

/// The reduced cost of cell (`i`, `j`) at potentials `u`, `v`.
pub open spec fn reduced_cost(c: Seq<Seq<int>>, u: Seq<int>, v: Seq<int>, i: int, j: int) -> int {
    c[i][j] - (u[i] + v[j])
}

/// Cell (`i`, `j`) is non-basic and its reduced cost is negative.
pub open spec fn improving_at(
    c: Seq<Seq<int>>,
    a: Seq<Seq<int>>,
    u: Seq<int>,
    v: Seq<int>,
    i: int,
    j: int,
) -> bool {
    a[i][j] == 0 && reduced_cost(c, u, v, i, j) < 0
}

/// Cell (`i`, `j`) comes before cell (`bi`, `bj`) in row-major order.
pub open spec fn earlier(i: int, j: int, bi: int, bj: int) -> bool {
    i < bi || (i == bi && j < bj)
}

/// No cell improves at potentials `u`, `v`.
pub open spec fn no_improving_cell(c: Seq<Seq<int>>, a: Seq<Seq<int>>, u: Seq<int>, v: Seq<int>) -> bool {
    forall|i: int, j: int|
        0 <= i < a.len() && 0 <= j < a[i].len() ==> !#[trigger] improving_at(c, a, u, v, i, j)
}

/// `cell` is the entering cell: the first, in row-major order, among the
/// non-basic cells of most negative reduced cost.
pub open spec fn entering(
    c: Seq<Seq<int>>,
    a: Seq<Seq<int>>,
    u: Seq<int>,
    v: Seq<int>,
    cell: (usize, usize),
) -> bool {
    let bi = cell.0 as int;
    let bj = cell.1 as int;
    &&& bi < a.len()
    &&& bj < a[bi].len()
    &&& improving_at(c, a, u, v, bi, bj)
    &&& forall|i: int, j: int|
        0 <= i < a.len() && 0 <= j < a[i].len() && a[i][j] == 0 ==> {
            &&& #[trigger] reduced_cost(c, u, v, i, j) >= reduced_cost(c, u, v, bi, bj)
            &&& earlier(i, j, bi, bj) ==> reduced_cost(c, u, v, i, j) > reduced_cost(c, u, v, bi, bj)
        }
}

/// The plan `a` passes the optimality test at its own potentials.
pub open spec fn certified_optimal(c: Seq<Seq<int>>, a: Seq<Seq<int>>) -> bool {
    a.len() > 0 ==> no_improving_cell(c, a, row_duals(c, a), col_duals(c, a))
}

/// `b` is `a` after the least donation `q` moved along the cycle `cyc`
/// through the entering cell `cell` of `a`.
pub open spec fn shift_step(
    c: Seq<Seq<int>>,
    a: Seq<Seq<int>>,
    b: Seq<Seq<int>>,
    cell: (usize, usize),
    cyc: Seq<(usize, usize)>,
    q: int,
) -> bool {
    &&& entering(c, a, row_duals(c, a), col_duals(c, a), cell)
    &&& valid_cycle(a, cell, cyc)
    &&& least_donation(a, cyc, q)
    &&& shifted(a, b, cyc, q)
}

/// One improvement step leads from `a` to `b`.
pub open spec fn improves_to(c: Seq<Seq<int>>, a: Seq<Seq<int>>, b: Seq<Seq<int>>) -> bool {
    exists|cell: (usize, usize), cyc: Seq<(usize, usize)>, q: int| #[trigger]
        shift_step(c, a, b, cell, cyc, q)
}

/// `k` improvement steps lead from `a` to `b`.
pub open spec fn reaches(c: Seq<Seq<int>>, a: Seq<Seq<int>>, b: Seq<Seq<int>>, k: nat) -> bool
    decreases k,
{
    if k == 0 {
        a == b
    } else {
        exists|mid: Seq<Seq<int>>|
            #![trigger improves_to(c, mid, b)]
            reaches(c, a, mid, (k - 1) as nat) && improves_to(c, mid, b)
    }
}

/// A chain of improvement steps grows by one step at its end.
pub proof fn lemma_reaches_step(c: Seq<Seq<int>>, a: Seq<Seq<int>>, mid: Seq<Seq<int>>, b: Seq<Seq<int>>, k: nat)
    requires
        reaches(c, a, mid, k),
        improves_to(c, mid, b),
    ensures
        reaches(c, a, b, k + 1),
{
    assert(((k + 1) - 1) as nat == k);
}

/// The plan `a` has an entering cell, but cannot be improved through it for
/// the given reason.
pub open spec fn stalled_by(c: Seq<Seq<int>>, a: Seq<Seq<int>>, reason: StallReason) -> bool {
    match reason {
        StallReason::CycleNotFound => exists|cell: (usize, usize)| #[trigger]
            entering(c, a, row_duals(c, a), col_duals(c, a), cell) && no_cycle(a, cell),
    }
}

/// What a run from `a` with at most `cap` steps may return: the plan `b`
/// reached by some number of improvement steps, and how the run ended
/// there.
pub open spec fn run_result(
    c: Seq<Seq<int>>,
    a: Seq<Seq<int>>,
    b: Seq<Seq<int>>,
    outcome: OptimizationOutcome,
    cap: nat,
) -> bool {
    exists|k: nat| #[trigger]
        reaches(c, a, b, k) && k <= cap && match outcome {
            OptimizationOutcome::Optimal => k < cap && certified_optimal(c, b),
            OptimizationOutcome::Stalled(reason) => k < cap && stalled_by(c, b, reason),
            OptimizationOutcome::IterationCapReached => k == cap,
        }
}

impl TransportProblem {
    /// Scans the non-basic cells for the most negative reduced cost; among
    /// equals the first in row-major order wins. Costs and potentials are
    /// integers, so a cell improves exactly when its reduced cost is below
    /// zero.
    pub fn find_entering_cell(&self, allocations: &Vec<Vec<i32>>, u: &Vec<i128>, v: &Vec<i128>) -> (result:
        Option<(usize, usize)>)
        requires
            has_shape(self.cost(), self.supplies@.len(), self.demands@.len()),
            has_shape(grid(allocations@), self.supplies@.len(), self.demands@.len()),
            u@.len() == self.supplies@.len(),
            v@.len() == self.demands@.len(),
            forall|i: int|
                0 <= i < u@.len() ==> -0x1_0000_0000_0000_0000_0000_0000 <= #[trigger] u@[i]
                    <= 0x1_0000_0000_0000_0000_0000_0000,
            forall|j: int|
                0 <= j < v@.len() ==> -0x1_0000_0000_0000_0000_0000_0000 <= #[trigger] v@[j]
                    <= 0x1_0000_0000_0000_0000_0000_0000,
        ensures
            result is None <==> no_improving_cell(self.cost(), grid(allocations@), wide(u@), wide(v@)),
            result matches Some(cell) ==> entering(
                self.cost(),
                grid(allocations@),
                wide(u@),
                wide(v@),
                cell,
            ),
    {
        let m = self.supplies.len();
        let n = self.demands.len();
        let ghost c = self.cost();
        let ghost a = grid(allocations@);
        let ghost uu = wide(u@);
        let ghost vv = wide(v@);
        let mut best: Option<(usize, usize)> = None;
        let mut best_delta: i128 = 0;
        let mut i: usize = 0;
        while i < m
            invariant
                i <= m,
                m == self.supplies@.len(),
                n == self.demands@.len(),
                c == self.cost(),
                a == grid(allocations@),
                uu == wide(u@),
                vv == wide(v@),
                u@.len() == m,
                v@.len() == n,
                has_shape(c, m as nat, n as nat),
                has_shape(a, m as nat, n as nat),
                forall|r: int|
                    0 <= r < u@.len() ==> -0x1_0000_0000_0000_0000_0000_0000 <= #[trigger] u@[r]
                        <= 0x1_0000_0000_0000_0000_0000_0000,
                forall|r: int|
                    0 <= r < v@.len() ==> -0x1_0000_0000_0000_0000_0000_0000 <= #[trigger] v@[r]
                        <= 0x1_0000_0000_0000_0000_0000_0000,
                best_delta <= 0,
                forall|r: int, s: int|
                    0 <= r < m && 0 <= s < n && earlier(r, s, i as int, 0) && a[r][s] == 0
                        ==> #[trigger] reduced_cost(c, uu, vv, r, s) >= best_delta,
                best is None ==> best_delta == 0,
                best matches Some(cell) ==> {
                    &&& cell.0 < i
                    &&& cell.1 < n
                    &&& a[cell.0 as int][cell.1 as int] == 0
                    &&& best_delta < 0
                    &&& best_delta == reduced_cost(c, uu, vv, cell.0 as int, cell.1 as int)
                    &&& forall|r: int, s: int|
                        0 <= r < m && 0 <= s < n && earlier(r, s, cell.0 as int, cell.1 as int)
                            && a[r][s] == 0 ==> #[trigger] reduced_cost(c, uu, vv, r, s)
                            > best_delta
                },
            decreases m - i,
        {
            let mut j: usize = 0;
            while j < n
                invariant
                    i < m,
                    j <= n,
                    m == self.supplies@.len(),
                    n == self.demands@.len(),
                    c == self.cost(),
                    a == grid(allocations@),
                    uu == wide(u@),
                    vv == wide(v@),
                    u@.len() == m,
                    v@.len() == n,
                    has_shape(c, m as nat, n as nat),
                    has_shape(a, m as nat, n as nat),
                    forall|r: int|
                        0 <= r < u@.len() ==> -0x1_0000_0000_0000_0000_0000_0000 <= #[trigger] u@[r]
                            <= 0x1_0000_0000_0000_0000_0000_0000,
                    forall|r: int|
                        0 <= r < v@.len() ==> -0x1_0000_0000_0000_0000_0000_0000 <= #[trigger] v@[r]
                            <= 0x1_0000_0000_0000_0000_0000_0000,
                    best_delta <= 0,
                    forall|r: int, s: int|
                        0 <= r < m && 0 <= s < n && earlier(r, s, i as int, j as int) && a[r][s]
                            == 0 ==> #[trigger] reduced_cost(c, uu, vv, r, s) >= best_delta,
                    best is None ==> best_delta == 0,
                    best matches Some(cell) ==> {
                        &&& earlier(cell.0 as int, cell.1 as int, i as int, j as int)
                        &&& cell.1 < n
                        &&& a[cell.0 as int][cell.1 as int] == 0
                        &&& best_delta < 0
                        &&& best_delta == reduced_cost(c, uu, vv, cell.0 as int, cell.1 as int)
                        &&& forall|r: int, s: int|
                            0 <= r < m && 0 <= s < n && earlier(r, s, cell.0 as int, cell.1 as int)
                                && a[r][s] == 0 ==> #[trigger] reduced_cost(c, uu, vv, r, s)
                                > best_delta
                    },
                decreases n - j,
            {
                proof {
                    assert(a[i as int].len() == n && c[i as int].len() == n);
                    assert(a[i as int][j as int] == allocations@[i as int]@[j as int]);
                    assert(c[i as int][j as int] == self.costs@[i as int]@[j as int]);
                    assert(uu[i as int] == u@[i as int]);
                    assert(vv[j as int] == v@[j as int]);
                }
                if allocations[i][j] == 0 {
                    let delta: i128 = self.costs[i][j] as i128 - (u[i] + v[j]);
                    assert(delta == reduced_cost(c, uu, vv, i as int, j as int));
                    if delta < best_delta {
                        best_delta = delta;
                        best = Some((i, j));
                    }
                }
                j = j + 1;
            }
            i = i + 1;
        }
        proof {
            match best {
                None => {
                    assert forall|r: int, s: int| 0 <= r < a.len() && 0 <= s < a[r].len() implies !#[trigger] improving_at(
                        c,
                        a,
                        uu,
                        vv,
                        r,
                        s,
                    ) by {
                        if a[r][s] == 0 {
                            assert(earlier(r, s, m as int, 0));
                            assert(reduced_cost(c, uu, vv, r, s) >= 0);
                        }
                    }
                },
                Some(cell) => {
                    assert(a[cell.0 as int].len() == n);
                    assert(improving_at(c, a, uu, vv, cell.0 as int, cell.1 as int));
                    assert forall|r: int, s: int|
                        0 <= r < a.len() && 0 <= s < a[r].len() && a[r][s] == 0 implies {
                        &&& #[trigger] reduced_cost(c, uu, vv, r, s) >= best_delta
                        &&& earlier(r, s, cell.0 as int, cell.1 as int) ==> reduced_cost(c, uu, vv, r, s)
                            > best_delta
                    } by {
                        assert(earlier(r, s, m as int, 0));
                    }
                },
            }
        }
        best
    }

    /// Improves a feasible plan step by step, at most `max_iterations`
    /// times. Each step computes the potentials, picks the entering cell,
    /// finds its stepping-stone cycle and shifts the least donating
    /// allocation along it. The plan returned is feasible and carries its
    /// true cost; a plan that already passes the optimality test comes back
    /// unchanged.
    pub fn optimize_by_potentials(&self, plan: TransportPlan, max_iterations: usize) -> (result: (
        TransportPlan,
        OptimizationOutcome,
    ))
        requires
            self.wf(),
            self.admits(&plan),
        ensures
            self.admits(&result.0),
            run_result(
                self.cost(),
                plan.allocation(),
                result.0.allocation(),
                result.1,
                max_iterations as nat,
            ),
            result.1 == OptimizationOutcome::Optimal ==> certified_optimal(
                self.cost(),
                result.0.allocation(),
            ),
            max_iterations == 0 ==> result.1 == OptimizationOutcome::IterationCapReached,
            max_iterations > 0 && certified_optimal(self.cost(), plan.allocation()) ==> result.1
                == OptimizationOutcome::Optimal,
            max_iterations == 0 || certified_optimal(self.cost(), plan.allocation())
                ==> result.0.allocation() == plan.allocation(),
    {
        let ghost initial = plan.allocation();
        let ghost c = self.cost();
        let m = self.supplies.len();
        let n = self.demands.len();
        let mut current = plan;
        assert(reaches(c, initial, initial, 0));
        if max_iterations == 0 {
            return (current, OptimizationOutcome::IterationCapReached);
        }
        if m == 0 {
            return (current, OptimizationOutcome::Optimal);
        }
        let mut iteration: usize = 0;
        while iteration < max_iterations
            invariant
                self.wf(),
                c == self.cost(),
                m == self.supplies@.len(),
                n == self.demands@.len(),
                m > 0,
                self.admits(&current),
                iteration <= max_iterations,
                reaches(c, initial, current.allocation(), iteration as nat),
                iteration == 0 ==> current.allocation() == initial,
                iteration > 0 ==> !certified_optimal(c, initial),
                initial == plan.allocation(),
                max_iterations > 0,
            decreases max_iterations - iteration,
        {
            let ghost a = current.allocation();
            let (u, v) = self.compute_potentials(&current.allocations);
            match self.find_entering_cell(&current.allocations, &u, &v) {
                None => {
                    return (current, OptimizationOutcome::Optimal);
                },
                Some(cell) => {
                    assert(a[0].len() == n);
                    assert(improving_at(c, a, wide(u@), wide(v@), cell.0 as int, cell.1 as int));
                    assert(!certified_optimal(c, a));
                    match self.find_cycle(&current.allocations, cell.0, cell.1) {
                        None => {
                            assert(stalled_by(c, a, StallReason::CycleNotFound));
                            return (
                                current,
                                OptimizationOutcome::Stalled(StallReason::CycleNotFound),
                            );
                        },
                        Some(cycle) => {
                            proof {
                                assert(cycle@.drop_last()[0] == cycle@[0]);
                                assert forall|r: int| 0 <= r < m implies #[trigger] row_sum(a, r)
                                    <= i32::MAX by {
                                    assert(row_sum(a, r) == self.supply()[r]);
                                }
                                assert(a.len() == current.allocations@.len());
                                assert(a[0].len() == current.allocations@[0]@.len());
                            }
                            let q = reallocate(&mut current.allocations, &cycle);
                            let cost = self.calculate_total_cost(&current.allocations);
                            current.total_cost = cost;
                            proof {
                                let b = current.allocation();
                                assert(shift_step(c, a, b, cell, cycle@, q as int));
                                assert(improves_to(c, a, b));
                                lemma_reaches_step(c, initial, a, b, iteration as nat);
                            }
                        },
                    }
                },
            }
            iteration = iteration + 1;
        }
        (current, OptimizationOutcome::IterationCapReached)
    }
}

} // verus!
