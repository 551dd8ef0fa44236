//! The problem data, a shipment plan, and the north-west-corner construction.

use vstd::prelude::*;
use crate::grid::{basic_count, lemma_no_basic_cells, lemma_basic_count_update, prefix, lemma_prefix_monotone, lemma_cell_update, lemma_tail_zero, set_cell, zero_grid, column, sum, ints, grid, has_shape, non_negative, row_sum, col_sum, products, row_cost, row_costs, cost_of, lemma_sum_push};

verus! {

/// Supplies, demands and the unit cost of each route.
pub struct TransportProblem {
    pub supplies: Vec<i32>,
    pub demands: Vec<i32>,
    pub costs: Vec<Vec<i32>>,
}

/// A shipment plan together with its cost.
pub struct TransportPlan {
    pub allocations: Vec<Vec<i32>>,
    pub total_cost: i128,
}

/// The one way in which a problem can be unfit for planning.
#[derive(Debug, PartialEq, Eq, Clone, Copy)]
pub enum TransportError {
    /// Total supply differs from total demand.
    UnbalancedProblem,
}

/// What the north-west-corner rule ships from row `i` to column `j`: lay the
/// supplies end to end, and the demands beside them; the cell gets the
/// length that stretch `i` of the one shares with stretch `j` of the other.
pub open spec fn corner_amount(s: Seq<int>, d: Seq<int>, i: int, j: int) -> int {
    let hi = if prefix(s, i + 1) < prefix(d, j + 1) {
        prefix(s, i + 1)
    } else {
        prefix(d, j + 1)
    };
    let lo = if prefix(s, i) > prefix(d, j) {
        prefix(s, i)
    } else {
        prefix(d, j)
    };
    if hi > lo {
        hi - lo
    } else {
        0
    }
}

/// The sum of a vector, wide enough for any length.
pub fn vector_total(v: &Vec<i32>) -> (total: i128)
    ensures
        total == sum(ints(v@)),
{
    let mut total: i128 = 0;
    let mut k: usize = 0;
    while k < v.len()
        invariant
            k <= v.len(),
            total == sum(ints(v@).take(k as int)),
            -(k as int) * 0x8000_0000 <= total <= (k as int) * 0x8000_0000,
        decreases v.len() - k,
    {
        proof {
            lemma_sum_push(ints(v@), k as int);
        }
        total = total + v[k] as i128;
        k = k + 1;
    }
    proof {
        assert(ints(v@).take(k as int) =~= ints(v@));
    }
    total
}

/// The cost of one row of a plan.
fn row_total(c: &Vec<i32>, a: &Vec<i32>) -> (total: i128)
    requires
        c.len() == a.len(),
    ensures
        total == row_cost(ints(c@), ints(a@)),
        -(a.len() as int) * 0x4000_0000_0000_0000 <= total <= (a.len() as int)
            * 0x4000_0000_0000_0000,
{
    let mut total: i128 = 0;
    let mut j: usize = 0;
    let ghost p = products(ints(c@), ints(a@));
    while j < a.len()
        invariant
            j <= a.len(),
            c.len() == a.len(),
            p == products(ints(c@), ints(a@)),
            total == sum(p.take(j as int)),
            -(j as int) * 0x4000_0000_0000_0000 <= total <= (j as int) * 0x4000_0000_0000_0000,
        decreases a.len() - j,
    {
        proof {
            lemma_sum_push(p, j as int);
            let x = c[j as int] as int;
            let y = a[j as int] as int;
            assert(p[j as int] == x * y);
            assert(-0x4000_0000_0000_0000 <= x * y <= 0x4000_0000_0000_0000) by (nonlinear_arith)
                requires
                    -0x8000_0000 <= x < 0x8000_0000,
                    -0x8000_0000 <= y < 0x8000_0000,
            ;
        }
        let term: i128 = (c[j] as i128) * (a[j] as i128);
        total = total + term;
        j = j + 1;
    }
    proof {
        assert(p.take(j as int) =~= p);
    }
    total
}

/// The sum of one column of a matrix.
fn column_total(a: &Vec<Vec<i32>>, c: usize, n: usize) -> (total: i128)
    requires
        has_shape(grid(a@), a@.len(), n as nat),
        c < n,
    ensures
        total == col_sum(grid(a@), c as int),
{
    let ghost col = column(grid(a@), c as int);
    let mut total: i128 = 0;
    let mut r: usize = 0;
    while r < a.len()
        invariant
            r <= a@.len(),
            c < n,
            has_shape(grid(a@), a@.len(), n as nat),
            col == column(grid(a@), c as int),
            total == sum(col.take(r as int)),
            -(r as int) * 0x8000_0000 <= total <= (r as int) * 0x8000_0000,
        decreases a@.len() - r,
    {
        proof {
            lemma_sum_push(col, r as int);
            assert(grid(a@)[r as int].len() == n);
            assert(col[r as int] == a@[r as int]@[c as int]);
        }
        total = total + a[r][c] as i128;
        r = r + 1;
    }
    proof {
        assert(col.take(r as int) =~= col);
    }
    total
}

impl TransportProblem {
    /// The supplies as integers.
    pub open spec fn supply(&self) -> Seq<int> {
        ints(self.supplies@)
    }

    /// The demands as integers.
    pub open spec fn demand(&self) -> Seq<int> {
        ints(self.demands@)
    }

    /// The unit costs as a matrix of integers.
    pub open spec fn cost(&self) -> Seq<Seq<int>> {
        grid(self.costs@)
    }

    /// One cost per route, nothing negative, and a cell count that a machine
    /// index can hold.
    pub open spec fn wf(&self) -> bool {
        &&& has_shape(self.cost(), self.supplies@.len(), self.demands@.len())
        &&& self.supplies@.len() * self.demands@.len() <= usize::MAX
        &&& forall|i: int| 0 <= i < self.supply().len() ==> #[trigger] self.supply()[i] >= 0
        &&& forall|j: int| 0 <= j < self.demand().len() ==> #[trigger] self.demand()[j] >= 0
        &&& non_negative(self.cost())
    }

    /// Total supply equals total demand.
    pub open spec fn balanced(&self) -> bool {
        sum(self.supply()) == sum(self.demand())
    }

    /// `a` ships exactly every supply and meets exactly every demand.
    pub open spec fn feasible(&self, a: Seq<Seq<int>>) -> bool {
        &&& has_shape(a, self.supplies@.len(), self.demands@.len())
        &&& non_negative(a)
        &&& forall|i: int| 0 <= i < self.supply().len() ==> #[trigger] row_sum(a, i) == self.supply()[i]
        &&& forall|j: int| 0 <= j < self.demand().len() ==> #[trigger] col_sum(a, j) == self.demand()[j]
    }

    /// `a` is the north-west-corner allocation of this problem.
    pub open spec fn corner_rule(&self, a: Seq<Seq<int>>) -> bool {
        forall|i: int, j: int|
            0 <= i < self.supply().len() && 0 <= j < self.demand().len() ==> #[trigger] a[i][j]
                == corner_amount(self.supply(), self.demand(), i, j)
    }

    /// `plan` is feasible for this problem and carries its true cost.
    pub open spec fn admits(&self, plan: &TransportPlan) -> bool {
        &&& self.feasible(plan.allocation())
        &&& plan.total_cost == cost_of(self.cost(), plan.allocation())
    }

    /// The standard instance: three suppliers, five consumers.
    pub fn new() -> (p: TransportProblem)
        ensures
            p.supply() == seq![200int, 150, 150],
            p.demand() == seq![90int, 100, 70, 130, 110],
            p.cost() == seq![
                seq![12int, 15, 21, 14, 17],
                seq![14int, 8, 15, 11, 21],
                seq![19int, 16, 26, 12, 20],
            ],
            p.wf(),
            p.balanced(),
    {
        let p = TransportProblem {
            supplies: vec![200, 150, 150],
            demands: vec![90, 100, 70, 130, 110],
            costs: vec![
                vec![12, 15, 21, 14, 17],
                vec![14, 8, 15, 11, 21],
                vec![19, 16, 26, 12, 20],
            ],
        };
        proof {
            let s = p.supply();
            let d = p.demand();
            let c = p.cost();
            assert(s =~= seq![200int, 150, 150]);
            assert(d =~= seq![90int, 100, 70, 130, 110]);
            assert(c[0] =~= seq![12int, 15, 21, 14, 17]);
            assert(c[1] =~= seq![14int, 8, 15, 11, 21]);
            assert(c[2] =~= seq![19int, 16, 26, 12, 20]);
            assert(c =~= seq![
                seq![12int, 15, 21, 14, 17],
                seq![14int, 8, 15, 11, 21],
                seq![19int, 16, 26, 12, 20],
            ]);
            assert(s.take(0) =~= Seq::<int>::empty());
            lemma_sum_push(s, 0);
            lemma_sum_push(s, 1);
            lemma_sum_push(s, 2);
            assert(s.take(3) =~= s);
            assert(d.take(0) =~= Seq::<int>::empty());
            lemma_sum_push(d, 0);
            lemma_sum_push(d, 1);
            lemma_sum_push(d, 2);
            lemma_sum_push(d, 3);
            lemma_sum_push(d, 4);
            assert(d.take(5) =~= d);
        }
        p
    }

    /// Whether the data are well formed: the check a caller makes before
    /// planning.
    pub fn is_well_formed(&self) -> (ok: bool)
        ensures
            ok == self.wf(),
    {
        let m = self.supplies.len();
        let n = self.demands.len();
        if self.costs.len() != m {
            return false;
        }
        if m.checked_mul(n).is_none() {
            return false;
        }
        let mut i: usize = 0;
        while i < m
            invariant
                i <= m,
                m == self.supplies@.len(),
                forall|r: int| 0 <= r < i ==> #[trigger] self.supply()[r] >= 0,
            decreases m - i,
        {
            if self.supplies[i] < 0 {
                assert(self.supply()[i as int] < 0);
                return false;
            }
            assert(self.supply()[i as int] >= 0);
            i = i + 1;
        }
        let mut j: usize = 0;
        while j < n
            invariant
                j <= n,
                n == self.demands@.len(),
                forall|c: int| 0 <= c < j ==> #[trigger] self.demand()[c] >= 0,
            decreases n - j,
        {
            if self.demands[j] < 0 {
                assert(self.demand()[j as int] < 0);
                return false;
            }
            assert(self.demand()[j as int] >= 0);
            j = j + 1;
        }
        let mut i: usize = 0;
        while i < m
            invariant
                i <= m,
                m == self.supplies@.len(),
                m == self.costs@.len(),
                n == self.demands@.len(),
                forall|r: int| 0 <= r < i ==> (#[trigger] self.cost()[r]).len() == n,
                forall|r: int, c: int| 0 <= r < i && 0 <= c < n ==> #[trigger] self.cost()[r][c] >= 0,
            decreases m - i,
        {
            if self.costs[i].len() != n {
                assert(self.cost()[i as int].len() != n);
                return false;
            }
            assert(self.cost()[i as int].len() == n);
            let mut j: usize = 0;
            while j < n
                invariant
                    i < m,
                    j <= n,
                    m == self.costs@.len(),
                    self.costs@[i as int]@.len() == n,
                    forall|c: int| 0 <= c < j ==> #[trigger] self.cost()[i as int][c] >= 0,
                decreases n - j,
            {
                if self.costs[i][j] < 0 {
                    assert(self.cost()[i as int][j as int] < 0);
                    assert(self.cost()[i as int].len() == n);
                    return false;
                }
                assert(self.cost()[i as int][j as int] >= 0);
                j = j + 1;
            }
            i = i + 1;
        }
        true
    }

    /// Whether `plan` is feasible for this problem and carries its true
    /// cost: the check a caller makes before handing over a plan of its own.
    pub fn admits_plan(&self, plan: &TransportPlan) -> (ok: bool)
        requires
            self.wf(),
        ensures
            ok == self.admits(plan),
    {
        let m = self.supplies.len();
        let n = self.demands.len();
        let ghost g = plan.allocation();
        if plan.allocations.len() != m {
            return false;
        }
        let mut i: usize = 0;
        while i < m
            invariant
                i <= m,
                m == self.supplies@.len(),
                n == self.demands@.len(),
                m == plan.allocations@.len(),
                g == plan.allocation(),
                forall|r: int| 0 <= r < i ==> (#[trigger] g[r]).len() == n,
                forall|r: int, c: int| 0 <= r < i && 0 <= c < n ==> #[trigger] g[r][c] >= 0,
            decreases m - i,
        {
            if plan.allocations[i].len() != n {
                assert(g[i as int].len() != n);
                return false;
            }
            assert(g[i as int].len() == n);
            let mut j: usize = 0;
            while j < n
                invariant
                    i < m,
                    j <= n,
                    m == plan.allocations@.len(),
                    g == plan.allocation(),
                    plan.allocations@[i as int]@.len() == n,
                    forall|c: int| 0 <= c < j ==> #[trigger] g[i as int][c] >= 0,
                decreases n - j,
            {
                if plan.allocations[i][j] < 0 {
                    assert(g[i as int][j as int] < 0);
                    assert(g[i as int].len() == n);
                    return false;
                }
                assert(g[i as int][j as int] >= 0);
                j = j + 1;
            }
            i = i + 1;
        }
        assert(has_shape(g, m as nat, n as nat));
        assert(non_negative(g));
        let mut i: usize = 0;
        while i < m
            invariant
                i <= m,
                m == self.supplies@.len(),
                m == plan.allocations@.len(),
                g == plan.allocation(),
                forall|r: int| 0 <= r < i ==> #[trigger] row_sum(g, r) == self.supply()[r],
            decreases m - i,
        {
            let total = vector_total(&plan.allocations[i]);
            assert(total == row_sum(g, i as int));
            if total != self.supplies[i] as i128 {
                assert(row_sum(g, i as int) != self.supply()[i as int]);
                return false;
            }
            assert(row_sum(g, i as int) == self.supply()[i as int]);
            i = i + 1;
        }
        let mut j: usize = 0;
        while j < n
            invariant
                j <= n,
                n == self.demands@.len(),
                m == plan.allocations@.len(),
                g == plan.allocation(),
                has_shape(g, m as nat, n as nat),
                forall|c: int| 0 <= c < j ==> #[trigger] col_sum(g, c) == self.demand()[c],
            decreases n - j,
        {
            let total = column_total(&plan.allocations, j, n);
            if total != self.demands[j] as i128 {
                assert(col_sum(g, j as int) != self.demand()[j as int]);
                return false;
            }
            assert(col_sum(g, j as int) == self.demand()[j as int]);
            j = j + 1;
        }
        let cost = self.calculate_total_cost(&plan.allocations);
        cost == plan.total_cost
    }

    /// Whether total supply equals total demand.
    pub fn is_balanced(&self) -> (b: bool)
        ensures
            b == self.balanced(),
    {
        let total_supply = vector_total(&self.supplies);
        let total_demand = vector_total(&self.demands);
        total_supply == total_demand
    }

    /// The cost of shipping `allocations` at this problem's unit costs.
    pub fn calculate_total_cost(&self, allocations: &Vec<Vec<i32>>) -> (total: i128)
        requires
            has_shape(self.cost(), self.supplies@.len(), self.demands@.len()),
            has_shape(grid(allocations@), self.supplies@.len(), self.demands@.len()),
            self.supplies@.len() * self.demands@.len() <= usize::MAX,
        ensures
            total == cost_of(self.cost(), grid(allocations@)),
    {
        let m = allocations.len();
        let ghost n = self.demands@.len() as int;
        let ghost rc = row_costs(self.cost(), grid(allocations@));
        let mut total: i128 = 0;
        let mut i: usize = 0;
        while i < m
            invariant
                i <= m,
                m == allocations.len(),
                m == self.supplies@.len(),
                n == self.demands@.len(),
                m * n <= usize::MAX,
                has_shape(self.cost(), m as nat, n as nat),
                has_shape(grid(allocations@), m as nat, n as nat),
                rc == row_costs(self.cost(), grid(allocations@)),
                total == sum(rc.take(i as int)),
                -(i * n) * 0x4000_0000_0000_0000 <= total <= (i * n) * 0x4000_0000_0000_0000,
            decreases m - i,
        {
            proof {
                lemma_sum_push(rc, i as int);
                assert(self.cost()[i as int].len() == n);
                assert(grid(allocations@)[i as int].len() == n);
                assert((i + 1) * n == i * n + n) by (nonlinear_arith);
                assert((i + 1) * n <= m * n) by (nonlinear_arith)
                    requires
                        i + 1 <= m,
                        n >= 0,
                ;
                assert((i * n + n) * 0x4000_0000_0000_0000 == (i * n) * 0x4000_0000_0000_0000 + n
                    * 0x4000_0000_0000_0000) by (nonlinear_arith);
            }
            let row = row_total(&self.costs[i], &allocations[i]);
            total = total + row;
            i = i + 1;
        }
        proof {
            assert(rc.take(i as int) =~= rc);
        }
        total
    }

    /// The north-west-corner plan: starting at the first cell, each step ships
    /// as much as the current row still has and the current column still
    /// needs, then leaves the row, the column, or both, once exhausted.
    pub fn north_west_corner(&self) -> (plan: TransportPlan)
        requires
            self.wf(),
            self.balanced(),
        ensures
            self.admits(&plan),
            self.corner_rule(plan.allocation()),
            self.supplies@.len() + self.demands@.len() >= 1 ==> basic_count(plan.allocation())
                <= self.supplies@.len() + self.demands@.len() - 1,
    {
        let m = self.supplies.len();
        let n = self.demands.len();
        let mut allocations = zero_grid(m, n);
        let mut i: usize = 0;
        let mut j: usize = 0;
        let mut s_rem: i32 = if m > 0 { self.supplies[0] } else { 0 };
        let mut d_rem: i32 = if n > 0 { self.demands[0] } else { 0 };
        let ghost sup = self.supply();
        let ghost dem = self.demand();
        let ghost mut given: int = 0;
        proof {
            assert(sup.take(0) =~= Seq::<int>::empty());
            assert(dem.take(0) =~= Seq::<int>::empty());
            let g = grid(allocations@);
            assert forall|r: int| 0 <= r < m implies #[trigger] row_sum(g, r) == 0 by {
                crate::grid::lemma_sum_zeros(g[r]);
            }
            assert forall|c: int| 0 <= c < n implies #[trigger] col_sum(g, c) == 0 by {
                crate::grid::lemma_sum_zeros(column(g, c));
            }
            lemma_no_basic_cells(g);
            assert(m > 0 ==> sup[0] == self.supplies@[0] && sup[0] >= 0);
            assert(n > 0 ==> dem[0] == self.demands@[0] && dem[0] >= 0);
        }
        while i < m && j < n
            invariant
                self.wf(),
                sup == self.supply(),
                dem == self.demand(),
                m == self.supplies@.len(),
                n == self.demands@.len(),
                i <= m,
                j <= n,
                has_shape(grid(allocations@), m as nat, n as nat),
                non_negative(grid(allocations@)),
                forall|r: int, c: int|
                    0 <= r < m && 0 <= c < n && (r > i || c > j) ==> #[trigger] grid(
                        allocations@,
                    )[r][c] == 0,
                i < m && j < n ==> grid(allocations@)[i as int][j as int] == 0,
                0 <= s_rem,
                0 <= d_rem,
                i < m ==> s_rem <= sup[i as int],
                j < n ==> d_rem <= dem[j as int],
                forall|r: int|
                    0 <= r < m ==> #[trigger] row_sum(grid(allocations@), r) == (if r < i {
                        sup[r]
                    } else if r == i {
                        sup[r] - s_rem
                    } else {
                        0
                    }),
                forall|c: int|
                    0 <= c < n ==> #[trigger] col_sum(grid(allocations@), c) == (if c < j {
                        dem[c]
                    } else if c == j {
                        dem[c] - d_rem
                    } else {
                        0
                    }),
                i < m && j < n ==> s_rem == sup[i as int] || d_rem == dem[j as int],
                basic_count(grid(allocations@)) <= i + j,
                i == m && j == n && m + n >= 1 ==> basic_count(grid(allocations@)) <= m + n - 1,
                forall|r: int, c: int|
                    0 <= r < m && 0 <= c < n && (r < i || c < j) ==> #[trigger] grid(
                        allocations@,
                    )[r][c] == corner_amount(sup, dem, r, c),
                given == sum(sup.take(i as int)) + (if i < m {
                    sup[i as int] - s_rem
                } else {
                    0
                }),
                given == sum(dem.take(j as int)) + (if j < n {
                    dem[j as int] - d_rem
                } else {
                    0
                }),
            decreases (m - i) + (n - j),
        {
            let amount: i32 = if s_rem < d_rem { s_rem } else { d_rem };
            let ghost g = grid(allocations@);
            set_cell(&mut allocations, i, j, amount);
            s_rem = s_rem - amount;
            d_rem = d_rem - amount;
            proof {
                let h = grid(allocations@);
                lemma_cell_update(g, i as int, j as int, amount as int);
                lemma_basic_count_update(g, i as int, j as int, amount as int);
                given = given + amount;
                assert(has_shape(h, m as nat, n as nat));
                assert forall|r: int| 0 <= r < m implies #[trigger] row_sum(h, r) == (if r < i {
                    sup[r]
                } else if r == i {
                    sup[r] - s_rem
                } else {
                    0
                }) by {
                    if r != i {
                        assert(h[r] == g[r]);
                        assert(row_sum(g, r) == row_sum(h, r));
                    }
                }
                assert forall|c: int| 0 <= c < n implies #[trigger] col_sum(h, c) == (if c < j {
                    dem[c]
                } else if c == j {
                    dem[c] - d_rem
                } else {
                    0
                }) by {
                    if c != j {
                        assert(column(h, c) == column(g, c));
                        assert(col_sum(g, c) == col_sum(h, c));
                    }
                }
                assert forall|r: int, c: int|
                    0 <= r < h.len() && 0 <= c < h[r].len() implies #[trigger] h[r][c] >= 0 by {
                    if r != i {
                        assert(h[r] == g[r]);
                    }
                    assert(g[r][c] >= 0);
                }
                assert forall|r: int, c: int|
                    0 <= r < m && 0 <= c < n && (r > i || c > j) implies #[trigger] h[r][c]
                    == 0 by {
                    if r != i {
                        assert(h[r] == g[r]);
                    }
                    assert(g[r][c] == 0);
                }
                lemma_sum_push(sup, i as int);
                lemma_sum_push(dem, j as int);
            }
            let row_done = s_rem == 0;
            let col_done = d_rem == 0;
            proof {
                let h = grid(allocations@);
                let i2 = if row_done { i + 1 } else { i as int };
                let j2 = if col_done { j + 1 } else { j as int };
                assert(h[i as int][j as int] == amount);
                assert(corner_amount(sup, dem, i as int, j as int) == amount);
                assert forall|r: int, c: int|
                    0 <= r < m && 0 <= c < n && (r < i2 || c < j2) implies #[trigger] h[r][c]
                    == corner_amount(sup, dem, r, c) by {
                    if r < i || c < j {
                        if r != i {
                            assert(h[r] == g[r]);
                        }
                        assert(g[r][c] == corner_amount(sup, dem, r, c));
                    } else if r == i && c == j {
                    } else if r == i {
                        lemma_prefix_monotone(dem, j + 1, c);
                    } else {
                        lemma_prefix_monotone(sup, i + 1, r);
                    }
                }
            }
            if row_done {
                i = i + 1;
                if i < m {
                    s_rem = self.supplies[i];
                    assert(sup[i as int] == s_rem && sup[i as int] >= 0);
                }
            }
            if col_done {
                j = j + 1;
                if j < n {
                    d_rem = self.demands[j];
                    assert(dem[j as int] == d_rem && dem[j as int] >= 0);
                }
            }
        }
        proof {
            let g = grid(allocations@);
            crate::grid::lemma_sum_split(sup, m as int);
            crate::grid::lemma_sum_split(dem, n as int);
            assert(sup.take(m as int) =~= sup);
            assert(dem.take(n as int) =~= dem);
            if i < m {
                lemma_tail_zero(sup, i as int, s_rem as int);
            }
            if j < n {
                lemma_tail_zero(dem, j as int, d_rem as int);
            }
            assert forall|r: int| 0 <= r < sup.len() implies #[trigger] row_sum(g, r)
                == sup[r] by {}
            assert forall|c: int| 0 <= c < dem.len() implies #[trigger] col_sum(g, c)
                == dem[c] by {}
        }
        let total_cost = self.calculate_total_cost(&allocations);
        TransportPlan { allocations, total_cost }
    }

    /// The north-west-corner plan of a balanced problem; an unbalanced
    /// problem is refused before anything is allocated.
    pub fn build_initial_plan(&self) -> (result: Result<TransportPlan, TransportError>)
        requires
            self.wf(),
        ensures
            result.is_ok() <==> self.balanced(),
            result matches Ok(plan) ==> {
                &&& self.admits(&plan)
                &&& self.corner_rule(plan.allocation())
                &&& self.supplies@.len() + self.demands@.len() >= 1 ==> basic_count(plan.allocation())
                    <= self.supplies@.len() + self.demands@.len() - 1
            },
            result matches Err(e) ==> e == TransportError::UnbalancedProblem,
    {
        if self.is_balanced() {
            Ok(self.north_west_corner())
        } else {
            Err(TransportError::UnbalancedProblem)
        }
    }
}

impl TransportPlan {
    /// The model of the plan: its allocation matrix as integers.
    pub open spec fn allocation(&self) -> Seq<Seq<int>> {
        grid(self.allocations@)
    }
}

} // verus!
