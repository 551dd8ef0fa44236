//! Dual potentials of a plan.

use vstd::prelude::*;
use crate::grid::{grid, has_shape, sum, lemma_sum_update};
use crate::problem::TransportProblem;

verus! {

/// Row potentials `u` and column potentials `v`, each known or not yet known.
pub struct Duals {
    pub u: Seq<Option<int>>,
    pub v: Seq<Option<int>>,
}

/// Only the potential of the first row is known, and it is zero.
pub open spec fn anchor(m: nat, n: nat) -> Duals {
    Duals {
        u: Seq::new(m, |i: int| if i == 0 { Some(0int) } else { None }),
        v: Seq::new(n, |j: int| None),
    }
}

/// The rule for one cell: at a basic cell with exactly one potential known,
/// the other follows from `cost = u + v`.
pub open spec fn relax_cell(c: Seq<Seq<int>>, a: Seq<Seq<int>>, d: Duals, i: int, j: int) -> Duals {
    if a[i][j] > 0 {
        match (d.u[i], d.v[j]) {
            (Some(x), None) => Duals { u: d.u, v: d.v.update(j, Some(c[i][j] - x)) },
            (None, Some(y)) => Duals { u: d.u.update(i, Some(c[i][j] - y)), v: d.v },
            _ => d,
        }
    } else {
        d
    }
}

/// The rule applied to the first `j` cells of row `i`, left to right.
pub open spec fn relax_row(c: Seq<Seq<int>>, a: Seq<Seq<int>>, d: Duals, i: int, j: nat) -> Duals
    decreases j,
{
    if j == 0 {
        d
    } else {
        relax_cell(c, a, relax_row(c, a, d, i, (j - 1) as nat), i, j - 1)
    }
}

/// The rule applied to the first `i` rows, top to bottom.
pub open spec fn relax_rows(c: Seq<Seq<int>>, a: Seq<Seq<int>>, d: Duals, i: nat) -> Duals
    decreases i,
{
    if i == 0 {
        d
    } else {
        relax_row(c, a, relax_rows(c, a, d, (i - 1) as nat), i - 1, d.v.len())
    }
}

/// Full passes over the matrix, repeated until one changes nothing (or
/// `fuel` passes have changed something).
pub open spec fn propagate(c: Seq<Seq<int>>, a: Seq<Seq<int>>, d: Duals, fuel: nat) -> Duals
    decreases fuel,
{
    let e = relax_rows(c, a, d, d.u.len());
    if e == d || fuel == 0 {
        d
    } else {
        propagate(c, a, e, (fuel - 1) as nat)
    }
}

/// Known potentials as they are, unknown ones as zero.
pub open spec fn settled(s: Seq<Option<int>>) -> Seq<int> {
    Seq::new(
        s.len(),
        |i: int|
            match s[i] {
                Some(x) => x,
                None => 0,
            },
    )
}

/// The potentials of the plan `a` at costs `c`: propagated from the anchor
/// through the basic cells.
pub open spec fn duals_of(c: Seq<Seq<int>>, a: Seq<Seq<int>>) -> Duals {
    let m = a.len();
    let n = a[0].len();
    propagate(c, a, anchor(m, n), m + n)
}

/// The row potentials of the plan, unknown ones settled to zero.
pub open spec fn row_duals(c: Seq<Seq<int>>, a: Seq<Seq<int>>) -> Seq<int> {
    settled(duals_of(c, a).u)
}

/// The column potentials of the plan, unknown ones settled to zero.
pub open spec fn col_duals(c: Seq<Seq<int>>, a: Seq<Seq<int>>) -> Seq<int> {
    settled(duals_of(c, a).v)
}

/// Machine potentials read as mathematical ones.
pub open spec fn opt(s: Seq<Option<i128>>) -> Seq<Option<int>> {
    Seq::new(
        s.len(),
        |i: int|
            match s[i] {
                Some(x) => Some(x as int),
                None => None,
            },
    )
}

/// Two machine vectors of potentials as one model value.
pub open spec fn pair(u: Seq<Option<i128>>, v: Seq<Option<i128>>) -> Duals {
    Duals { u: opt(u), v: opt(v) }
}

/// A vector of settled machine potentials read as mathematical integers.
pub open spec fn wide(s: Seq<i128>) -> Seq<int> {
    Seq::new(s.len(), |i: int| s[i] as int)
}

/// One for each known potential, zero for each unknown one.
pub open spec fn flags(s: Seq<Option<int>>) -> Seq<int> {
    Seq::new(s.len(), |i: int| if s[i].is_some() { 1int } else { 0int })
}

/// How many potentials are known.
pub open spec fn known(s: Seq<Option<int>>) -> int {
    sum(flags(s))
}

/// Every known potential lies within `k` cost ranges of zero.
pub open spec fn bounded(s: Seq<Option<int>>, k: int) -> bool {
    forall|i: int|
        0 <= i < s.len() ==> match #[trigger] s[i] {
            Some(x) => -k * 0x8000_0000 <= x <= k * 0x8000_0000,
            None => true,
        }
}

/// No more potentials are known than there are.
proof fn lemma_known_le_len(s: Seq<Option<int>>)
    ensures
        0 <= known(s) <= s.len(),
    decreases s.len(),
{
    if s.len() > 0 {
        lemma_known_le_len(s.drop_last());
        assert(flags(s).drop_last() =~= flags(s.drop_last()));
    }
}

/// Learning an unknown potential raises the count by one.
proof fn lemma_known_grows(s: Seq<Option<int>>, i: int, x: int)
    requires
        0 <= i < s.len(),
        s[i].is_none(),
    ensures
        known(s.update(i, Some(x))) == known(s) + 1,
{
    lemma_sum_update(flags(s), i, 1);
    assert(flags(s.update(i, Some(x))) =~= flags(s).update(i, 1));
}

/// How many potentials of `d` are known.
pub open spec fn known_total(d: Duals) -> int {
    known(d.u) + known(d.v)
}

/// The rule for one cell never forgets a potential, and learns one unless
/// it changes nothing.
pub proof fn lemma_relax_cell_grows(c: Seq<Seq<int>>, a: Seq<Seq<int>>, d: Duals, i: int, j: int)
    requires
        0 <= i < d.u.len(),
        0 <= j < d.v.len(),
    ensures
        relax_cell(c, a, d, i, j).u.len() == d.u.len(),
        relax_cell(c, a, d, i, j).v.len() == d.v.len(),
        known_total(relax_cell(c, a, d, i, j)) >= known_total(d),
        known_total(relax_cell(c, a, d, i, j)) == known_total(d) ==> relax_cell(c, a, d, i, j) == d,
{
    if a[i][j] > 0 {
        match (d.u[i], d.v[j]) {
            (Some(x), None) => {
                lemma_known_grows(d.v, j, c[i][j] - x);
            },
            (None, Some(y)) => {
                lemma_known_grows(d.u, i, c[i][j] - y);
            },
            _ => {},
        }
    }
}

/// A stretch of a row that learns nothing changes nothing, cell by cell.
pub proof fn lemma_relax_row_grows(c: Seq<Seq<int>>, a: Seq<Seq<int>>, d: Duals, i: int, j: nat)
    requires
        0 <= i < d.u.len(),
        j <= d.v.len(),
    ensures
        relax_row(c, a, d, i, j).u.len() == d.u.len(),
        relax_row(c, a, d, i, j).v.len() == d.v.len(),
        known_total(relax_row(c, a, d, i, j)) >= known_total(d),
        known_total(relax_row(c, a, d, i, j)) == known_total(d) ==> {
            &&& relax_row(c, a, d, i, j) == d
            &&& forall|t: int| 0 <= t < j ==> #[trigger] relax_cell(c, a, d, i, t) == d
        },
    decreases j,
{
    if j > 0 {
        let e = relax_row(c, a, d, i, (j - 1) as nat);
        lemma_relax_row_grows(c, a, d, i, (j - 1) as nat);
        lemma_relax_cell_grows(c, a, e, i, j - 1);
    }
}

/// A pass that learns nothing changes nothing, cell by cell.
pub proof fn lemma_relax_rows_grows(c: Seq<Seq<int>>, a: Seq<Seq<int>>, d: Duals, i: nat)
    requires
        i <= d.u.len(),
    ensures
        relax_rows(c, a, d, i).u.len() == d.u.len(),
        relax_rows(c, a, d, i).v.len() == d.v.len(),
        known_total(relax_rows(c, a, d, i)) >= known_total(d),
        known_total(relax_rows(c, a, d, i)) == known_total(d) ==> {
            &&& relax_rows(c, a, d, i) == d
            &&& forall|r: int, t: int|
                0 <= r < i && 0 <= t < d.v.len() ==> #[trigger] relax_cell(c, a, d, r, t) == d
        },
    decreases i,
{
    if i > 0 {
        let e = relax_rows(c, a, d, (i - 1) as nat);
        lemma_relax_rows_grows(c, a, d, (i - 1) as nat);
        lemma_relax_row_grows(c, a, e, i - 1, d.v.len());
    }
}

/// Where a full pass changes nothing, every basic cell has both of its
/// potentials known or neither.
pub proof fn lemma_fixpoint_closed(c: Seq<Seq<int>>, a: Seq<Seq<int>>, d: Duals)
    requires
        relax_rows(c, a, d, d.u.len()) == d,
    ensures
        forall|i: int, j: int|
            0 <= i < d.u.len() && 0 <= j < d.v.len() && #[trigger] a[i][j] > 0 ==> (d.u[i].is_some()
                <==> d.v[j].is_some()),
{
    lemma_relax_rows_grows(c, a, d, d.u.len());
    assert forall|i: int, j: int|
        0 <= i < d.u.len() && 0 <= j < d.v.len() && #[trigger] a[i][j] > 0 implies (d.u[i].is_some()
        <==> d.v[j].is_some()) by {
        let e = relax_cell(c, a, d, i, j);
        assert(e == d);
        match (d.u[i], d.v[j]) {
            (Some(x), None) => {
                assert(e.v[j].is_some());
            },
            (None, Some(y)) => {
                assert(e.u[i].is_some());
            },
            _ => {},
        }
    }
}

/// With a pass to spare for every potential still unknown, propagation ends
/// where a full pass changes nothing.
pub proof fn lemma_propagate_fixpoint(c: Seq<Seq<int>>, a: Seq<Seq<int>>, d: Duals, fuel: nat)
    requires
        fuel + known_total(d) >= d.u.len() + d.v.len(),
    ensures
        propagate(c, a, d, fuel).u.len() == d.u.len(),
        propagate(c, a, d, fuel).v.len() == d.v.len(),
        relax_rows(c, a, propagate(c, a, d, fuel), d.u.len()) == propagate(c, a, d, fuel),
    decreases fuel,
{
    let e = relax_rows(c, a, d, d.u.len());
    lemma_relax_rows_grows(c, a, d, d.u.len());
    if e != d {
        lemma_known_le_len(e.u);
        lemma_known_le_len(e.v);
        lemma_propagate_fixpoint(c, a, e, (fuel - 1) as nat);
    }
}

/// In the potentials of a plan every basic cell has both of its potentials
/// known or neither: what is left to settle at zero belongs to rows and
/// columns that no chain of basic cells joins to the first row.
pub proof fn lemma_duals_closed(c: Seq<Seq<int>>, a: Seq<Seq<int>>)
    requires
        a.len() > 0,
    ensures
        duals_of(c, a).u.len() == a.len(),
        duals_of(c, a).v.len() == a[0].len(),
        forall|i: int, j: int|
            0 <= i < a.len() && 0 <= j < a[0].len() && #[trigger] a[i][j] > 0 ==> (duals_of(
                c,
                a,
            ).u[i].is_some() <==> duals_of(c, a).v[j].is_some()),
{
    let m = a.len();
    let n = a[0].len();
    let d = anchor(m, n);
    let blank = Seq::new(m, |i: int| None::<int>);
    assert(flags(blank) =~= Seq::new(m, |i: int| 0int));
    crate::grid::lemma_sum_zeros(flags(blank));
    lemma_known_grows(blank, 0, 0);
    assert(blank.update(0, Some(0int)) =~= d.u);
    lemma_known_le_len(d.v);
    lemma_propagate_fixpoint(c, a, d, m + n);
    lemma_fixpoint_closed(c, a, duals_of(c, a));
}

/// Row `i` vouches for the potential of column `j`: the cell is basic and
/// its cost is the sum of the two potentials.
pub open spec fn column_witness(c: Seq<Seq<int>>, a: Seq<Seq<int>>, d: Duals, j: int, i: int) -> bool {
    &&& 0 <= i < d.u.len()
    &&& a[i][j] > 0
    &&& d.u[i].is_some()
    &&& d.v[j].is_some()
    &&& c[i][j] == d.u[i].unwrap() + d.v[j].unwrap()
}

/// Column `j` vouches for the potential of row `i`.
pub open spec fn row_witness(c: Seq<Seq<int>>, a: Seq<Seq<int>>, d: Duals, i: int, j: int) -> bool {
    &&& 0 <= j < d.v.len()
    &&& a[i][j] > 0
    &&& d.u[i].is_some()
    &&& d.v[j].is_some()
    &&& c[i][j] == d.u[i].unwrap() + d.v[j].unwrap()
}

/// The first row is anchored at zero, and every other known potential is
/// vouched for by a basic cell whose cost is the sum of its two potentials.
pub open spec fn supported(c: Seq<Seq<int>>, a: Seq<Seq<int>>, d: Duals) -> bool {
    &&& d.u.len() > 0
    &&& d.u[0] == Some(0int)
    &&& forall|j: int|
        0 <= j < d.v.len() && (#[trigger] d.v[j]).is_some() ==> exists|i: int| #[trigger]
            column_witness(c, a, d, j, i)
    &&& forall|i: int|
        1 <= i < d.u.len() && (#[trigger] d.u[i]).is_some() ==> exists|j: int| #[trigger]
            row_witness(c, a, d, i, j)
}

/// The rule for one cell keeps the potentials supported.
pub proof fn lemma_relax_cell_supported(c: Seq<Seq<int>>, a: Seq<Seq<int>>, d: Duals, i: int, j: int)
    requires
        supported(c, a, d),
        0 <= i < d.u.len(),
        0 <= j < d.v.len(),
    ensures
        supported(c, a, relax_cell(c, a, d, i, j)),
        relax_cell(c, a, d, i, j).u.len() == d.u.len(),
        relax_cell(c, a, d, i, j).v.len() == d.v.len(),
{
    let e = relax_cell(c, a, d, i, j);
    if e != d {
        assert forall|t: int| 0 <= t < e.v.len() && (#[trigger] e.v[t]).is_some() implies exists|r: int| #[trigger]
            column_witness(c, a, e, t, r) by {
            if d.v[t].is_some() {
                let r = choose|r: int| #[trigger] column_witness(c, a, d, t, r);
                assert(column_witness(c, a, e, t, r));
            } else {
                assert(column_witness(c, a, e, t, i));
            }
        }
        assert forall|r: int| 1 <= r < e.u.len() && (#[trigger] e.u[r]).is_some() implies exists|t: int| #[trigger]
            row_witness(c, a, e, r, t) by {
            if d.u[r].is_some() {
                let t = choose|t: int| #[trigger] row_witness(c, a, d, r, t);
                assert(row_witness(c, a, e, r, t));
            } else {
                assert(row_witness(c, a, e, r, j));
            }
        }
    }
}

/// A stretch of a row keeps the potentials supported.
pub proof fn lemma_relax_row_supported(c: Seq<Seq<int>>, a: Seq<Seq<int>>, d: Duals, i: int, j: nat)
    requires
        supported(c, a, d),
        0 <= i < d.u.len(),
        j <= d.v.len(),
    ensures
        supported(c, a, relax_row(c, a, d, i, j)),
        relax_row(c, a, d, i, j).u.len() == d.u.len(),
        relax_row(c, a, d, i, j).v.len() == d.v.len(),
    decreases j,
{
    if j > 0 {
        lemma_relax_row_supported(c, a, d, i, (j - 1) as nat);
        lemma_relax_cell_supported(c, a, relax_row(c, a, d, i, (j - 1) as nat), i, j - 1);
    }
}

/// A pass keeps the potentials supported.
pub proof fn lemma_relax_rows_supported(c: Seq<Seq<int>>, a: Seq<Seq<int>>, d: Duals, i: nat)
    requires
        supported(c, a, d),
        i <= d.u.len(),
    ensures
        supported(c, a, relax_rows(c, a, d, i)),
        relax_rows(c, a, d, i).u.len() == d.u.len(),
        relax_rows(c, a, d, i).v.len() == d.v.len(),
    decreases i,
{
    if i > 0 {
        lemma_relax_rows_supported(c, a, d, (i - 1) as nat);
        lemma_relax_row_supported(c, a, relax_rows(c, a, d, (i - 1) as nat), i - 1, d.v.len());
    }
}

/// Propagation keeps the potentials supported.
pub proof fn lemma_propagate_supported(c: Seq<Seq<int>>, a: Seq<Seq<int>>, d: Duals, fuel: nat)
    requires
        supported(c, a, d),
    ensures
        supported(c, a, propagate(c, a, d, fuel)),
    decreases fuel,
{
    let e = relax_rows(c, a, d, d.u.len());
    if e != d && fuel > 0 {
        lemma_relax_rows_supported(c, a, d, d.u.len());
        lemma_propagate_supported(c, a, e, (fuel - 1) as nat);
    }
}

/// The potentials of a plan are supported: the first row has potential
/// zero, and every other potential that propagation found satisfies
/// `cost = u + v` at some basic cell of its row or column.
pub proof fn lemma_duals_supported(c: Seq<Seq<int>>, a: Seq<Seq<int>>)
    requires
        a.len() > 0,
    ensures
        supported(c, a, duals_of(c, a)),
{
    let d = anchor(a.len(), a[0].len());
    assert(supported(c, a, d));
    lemma_propagate_supported(c, a, d, a.len() + a[0].len());
}

/// A vector of `len` unknown potentials.
fn unknown_vector(len: usize) -> (s: Vec<Option<i128>>)
    ensures
        s@.len() == len,
        forall|i: int| 0 <= i < len ==> (#[trigger] s@[i]).is_none(),
{
    let mut s: Vec<Option<i128>> = Vec::new();
    let mut i: usize = 0;
    while i < len
        invariant
            i <= len,
            s@.len() == i,
            forall|t: int| 0 <= t < i ==> (#[trigger] s@[t]).is_none(),
        decreases len - i,
    {
        s.push(None);
        i = i + 1;
    }
    s
}

/// Known potentials as they are, unknown ones as zero.
fn settle(s: &Vec<Option<i128>>) -> (r: Vec<i128>)
    ensures
        wide(r@) == settled(opt(s@)),
{
    let mut r: Vec<i128> = Vec::new();
    let mut i: usize = 0;
    while i < s.len()
        invariant
            i <= s@.len(),
            r@.len() == i,
            forall|t: int| 0 <= t < i ==> (#[trigger] r@[t]) as int == settled(opt(s@))[t],
        decreases s@.len() - i,
    {
        let x: i128 = match s[i] {
            Some(x) => x,
            None => 0,
        };
        r.push(x);
        i = i + 1;
    }
    assert(wide(r@) =~= settled(opt(s@)));
    r
}

impl TransportProblem {
    /// The potentials of a plan: the first row is anchored at zero, every
    /// basic cell with one potential known yields the other, pass after
    /// pass until nothing changes; what stays unknown is set to zero.
    pub fn compute_potentials(&self, allocations: &Vec<Vec<i32>>) -> (duals: (Vec<i128>, Vec<i128>))
        requires
            self.supplies@.len() > 0,
            has_shape(self.cost(), self.supplies@.len(), self.demands@.len()),
            has_shape(grid(allocations@), self.supplies@.len(), self.demands@.len()),
        ensures
            wide(duals.0@) == row_duals(self.cost(), grid(allocations@)),
            wide(duals.1@) == col_duals(self.cost(), grid(allocations@)),
            duals.0@.len() == self.supplies@.len(),
            duals.1@.len() == self.demands@.len(),
            forall|i: int|
                0 <= i < duals.0@.len() ==> -0x1_0000_0000_0000_0000_0000_0000 <= #[trigger] duals.0@[i]
                    <= 0x1_0000_0000_0000_0000_0000_0000,
            forall|j: int|
                0 <= j < duals.1@.len() ==> -0x1_0000_0000_0000_0000_0000_0000 <= #[trigger] duals.1@[j]
                    <= 0x1_0000_0000_0000_0000_0000_0000,
    {
        let m = self.supplies.len();
        let n = self.demands.len();
        let ghost c = self.cost();
        let ghost a = grid(allocations@);
        let mut u = unknown_vector(m);
        let mut v = unknown_vector(n);
        u.set(0, Some(0));
        let ghost mut fuel: nat = (m + n) as nat;
        let ghost mut k: int = 1;
        proof {
            assert(a[0].len() == n);
            assert(opt(u@) =~= anchor(m as nat, n as nat).u);
            assert(opt(v@) =~= anchor(m as nat, n as nat).v);
            let blank = Seq::new(m as nat, |i: int| None::<int>);
            assert(flags(blank) =~= Seq::new(m as nat, |i: int| 0int));
            crate::grid::lemma_sum_zeros(flags(blank));
            lemma_known_grows(blank, 0, 0);
            assert(blank.update(0, Some(0int)) =~= opt(u@));
            assert(flags(opt(v@)) =~= Seq::new(n as nat, |i: int| 0int));
            crate::grid::lemma_sum_zeros(flags(opt(v@)));
        }
        let mut changed = true;
        while changed
            invariant
                m == self.supplies@.len(),
                n == self.demands@.len(),
                c == self.cost(),
                a == grid(allocations@),
                has_shape(c, m as nat, n as nat),
                has_shape(a, m as nat, n as nat),
                u@.len() == m,
                v@.len() == n,
                propagate(c, a, anchor(m as nat, n as nat), (m + n) as nat) == propagate(
                    c,
                    a,
                    pair(u@, v@),
                    fuel,
                ),
                !changed ==> relax_rows(c, a, pair(u@, v@), m as nat) == pair(u@, v@),
                k == known(opt(u@)) + known(opt(v@)),
                fuel + k >= m + n,
                bounded(opt(u@), k),
                bounded(opt(v@), k),
            decreases 2 * (m + n - k) + (if changed { 1int } else { 0int }),
        {
            changed = false;
            let ghost start = pair(u@, v@);
            let ghost k_start = k;
            proof {
                lemma_known_le_len(opt(u@));
                lemma_known_le_len(opt(v@));
            }
            let mut i: usize = 0;
            while i < m
                invariant
                    i <= m,
                    m == self.supplies@.len(),
                    n == self.demands@.len(),
                    c == self.cost(),
                    a == grid(allocations@),
                    has_shape(c, m as nat, n as nat),
                    has_shape(a, m as nat, n as nat),
                    u@.len() == m,
                    v@.len() == n,
                    start.u.len() == m,
                    start.v.len() == n,
                    pair(u@, v@) == relax_rows(c, a, start, i as nat),
                    !changed ==> k == k_start && start == pair(u@, v@),
                    changed ==> k > k_start,
                    k == known(opt(u@)) + known(opt(v@)),
                    bounded(opt(u@), k),
                    bounded(opt(v@), k),
                decreases m - i,
            {
                let ghost row_start = pair(u@, v@);
                let mut j: usize = 0;
                while j < n
                    invariant
                        i < m,
                        j <= n,
                        m == self.supplies@.len(),
                        n == self.demands@.len(),
                        c == self.cost(),
                        a == grid(allocations@),
                        has_shape(c, m as nat, n as nat),
                        has_shape(a, m as nat, n as nat),
                        u@.len() == m,
                        v@.len() == n,
                        pair(u@, v@) == relax_row(c, a, row_start, i as int, j as nat),
                        !changed ==> k == k_start && start == pair(u@, v@),
                        changed ==> k > k_start,
                        k == known(opt(u@)) + known(opt(v@)),
                        bounded(opt(u@), k),
                        bounded(opt(v@), k),
                    decreases n - j,
                {
                    let ghost before = pair(u@, v@);
                    proof {
                        assert(a[i as int].len() == n && c[i as int].len() == n);
                        assert(a[i as int][j as int] == allocations@[i as int]@[j as int]);
                        assert(c[i as int][j as int] == self.costs@[i as int]@[j as int]);
                        lemma_known_le_len(opt(u@));
                        lemma_known_le_len(opt(v@));
                        assert(before.u[i as int] == opt(u@)[i as int]);
                        assert(before.v[j as int] == opt(v@)[j as int]);
                    }
                    if allocations[i][j] > 0 {
                        let cost: i128 = self.costs[i][j] as i128;
                        match u[i] {
                            Some(x) => {
                                if v[j].is_none() {
                                    v.set(j, Some(cost - x));
                                    changed = true;
                                    proof {
                                        lemma_known_grows(before.v, j as int, cost - x);
                                        assert(opt(v@) =~= before.v.update(j as int, Some(cost - x)));
                                        k = k + 1;
                                    }
                                }
                            },
                            None => {
                                match v[j] {
                                    Some(y) => {
                                        u.set(i, Some(cost - y));
                                        changed = true;
                                        proof {
                                            lemma_known_grows(before.u, i as int, cost - y);
                                            assert(opt(u@) =~= before.u.update(i as int, Some(cost - y)));
                                            k = k + 1;
                                        }
                                    },
                                    None => {},
                                }
                            },
                        }
                    }
                    proof {
                        assert(pair(u@, v@) == relax_cell(c, a, before, i as int, j as int));
                    }
                    j = j + 1;
                }
                i = i + 1;
            }
            proof {
                let cur = pair(u@, v@);
                lemma_known_le_len(opt(u@));
                lemma_known_le_len(opt(v@));
                if changed {
                    assert(cur != start);
                    fuel = (fuel - 1) as nat;
                }
            }
        }
        proof {
            let cur = pair(u@, v@);
            assert(propagate(c, a, cur, fuel) == cur);
            lemma_known_le_len(opt(u@));
            lemma_known_le_len(opt(v@));
        }
        let uu = settle(&u);
        let vv = settle(&v);
        proof {
            assert(wide(uu@).len() == m);
            assert(wide(vv@).len() == n);
            assert forall|i: int| 0 <= i < uu@.len() implies -0x1_0000_0000_0000_0000_0000_0000
                <= #[trigger] uu@[i] <= 0x1_0000_0000_0000_0000_0000_0000 by {
                assert(wide(uu@)[i] == settled(opt(u@))[i]);
                let _ = opt(u@)[i];
            }
            assert forall|j: int| 0 <= j < vv@.len() implies -0x1_0000_0000_0000_0000_0000_0000
                <= #[trigger] vv@[j] <= 0x1_0000_0000_0000_0000_0000_0000 by {
                assert(wide(vv@)[j] == settled(opt(v@))[j]);
                let _ = opt(v@)[j];
            }
        }
        (uu, vv)
    }
}

} // verus!
