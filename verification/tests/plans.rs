use transport::cycle::reallocate;
use transport::optimize::{OptimizationOutcome, StallReason};
use transport::problem::{vector_total, TransportError, TransportPlan, TransportProblem};

fn row_sums(a: &Vec<Vec<i32>>) -> Vec<i32> {
    a.iter().map(|row| row.iter().sum()).collect()
}

fn col_sums(a: &Vec<Vec<i32>>) -> Vec<i32> {
    let n = if a.is_empty() { 0 } else { a[0].len() };
    (0..n).map(|j| a.iter().map(|row| row[j]).sum()).collect()
}

fn corner_plan() -> Vec<Vec<i32>> {
    vec![vec![90, 100, 10, 0, 0], vec![0, 0, 60, 90, 0], vec![0, 0, 0, 40, 110]]
}

#[test]
fn standard_instance_is_balanced() {
    let p = TransportProblem::new();
    assert_eq!(p.supplies, vec![200, 150, 150]);
    assert_eq!(p.demands, vec![90, 100, 70, 130, 110]);
    assert_eq!(p.costs[1], vec![14, 8, 15, 11, 21]);
    assert!(p.is_balanced());
}

#[test]
fn vector_total_adds_entries() {
    assert_eq!(vector_total(&vec![]), 0);
    assert_eq!(vector_total(&vec![200, 150, 150]), 500);
    assert_eq!(vector_total(&vec![i32::MAX, i32::MAX]), 2 * (i32::MAX as i128));
}

#[test]
fn north_west_corner_of_standard_instance() {
    let p = TransportProblem::new();
    let plan = p.north_west_corner();
    assert_eq!(plan.allocations, corner_plan());
    assert_eq!(plan.total_cost, 7360);
}

#[test]
fn north_west_corner_meets_supplies_and_demands() {
    let p = TransportProblem {
        supplies: vec![0, 7, 3, 0, 5],
        demands: vec![4, 0, 6, 5],
        costs: vec![vec![1, 2, 3, 4]; 5],
    };
    let plan = p.build_initial_plan().unwrap();
    assert_eq!(row_sums(&plan.allocations), p.supplies);
    assert_eq!(col_sums(&plan.allocations), p.demands);
    assert_eq!(plan.total_cost, p.calculate_total_cost(&plan.allocations));
}

#[test]
fn north_west_corner_degenerate_step_leaves_row_and_column() {
    let p = TransportProblem {
        supplies: vec![5, 5],
        demands: vec![5, 5],
        costs: vec![vec![1, 9], vec![9, 1]],
    };
    let plan = p.north_west_corner();
    assert_eq!(plan.allocations, vec![vec![5, 0], vec![0, 5]]);
    assert_eq!(plan.total_cost, 10);
}

#[test]
fn empty_problem_has_empty_plan() {
    let p = TransportProblem { supplies: vec![], demands: vec![], costs: vec![] };
    let plan = p.build_initial_plan().unwrap();
    assert!(plan.allocations.is_empty());
    assert_eq!(plan.total_cost, 0);
    let (plan, outcome) = p.optimize_by_potentials(plan, 5);
    assert_eq!(outcome, OptimizationOutcome::Optimal);
    assert!(plan.allocations.is_empty());
}

#[test]
fn unbalanced_problem_is_refused() {
    let p = TransportProblem {
        supplies: vec![10],
        demands: vec![5, 10],
        costs: vec![vec![1, 1]],
    };
    assert!(!p.is_balanced());
    match p.build_initial_plan() {
        Err(e) => assert_eq!(e, TransportError::UnbalancedProblem),
        Ok(_) => panic!("an unbalanced problem got a plan"),
    }
}

#[test]
fn total_cost_of_known_plans() {
    let p = TransportProblem::new();
    assert_eq!(p.calculate_total_cost(&corner_plan()), 7360);
    let improved = vec![vec![90, 100, 0, 0, 10], vec![0, 0, 70, 80, 0], vec![0, 0, 0, 50, 100]];
    assert_eq!(p.calculate_total_cost(&improved), 7280);
    let zero = vec![vec![0; 5]; 3];
    assert_eq!(p.calculate_total_cost(&zero), 0);
}

#[test]
fn total_cost_survives_permutation() {
    let p = TransportProblem::new();
    let a = corner_plan();
    let rows = [2usize, 0, 1];
    let cols = [4usize, 2, 0, 3, 1];
    let permute = |g: &Vec<Vec<i32>>| -> Vec<Vec<i32>> {
        rows.iter().map(|&r| cols.iter().map(|&c| g[r][c]).collect()).collect()
    };
    let q = TransportProblem {
        supplies: rows.iter().map(|&r| p.supplies[r]).collect(),
        demands: cols.iter().map(|&c| p.demands[c]).collect(),
        costs: permute(&p.costs),
    };
    assert_eq!(q.calculate_total_cost(&permute(&a)), 7360);
}

#[test]
fn potentials_of_corner_plan() {
    let p = TransportProblem::new();
    let (u, v) = p.compute_potentials(&corner_plan());
    assert_eq!(u, vec![0, -6, -5]);
    assert_eq!(v, vec![12, 15, 21, 17, 25]);
}

#[test]
fn unknown_potentials_settle_to_zero() {
    let p = TransportProblem::new();
    let a = vec![vec![90, 0, 0, 0, 110], vec![0, 80, 70, 0, 0], vec![0, 20, 0, 130, 0]];
    let (u, v) = p.compute_potentials(&a);
    assert_eq!(u, vec![0, 0, 0]);
    assert_eq!(v, vec![12, 0, 0, 0, 17]);
}

#[test]
fn entering_cell_is_first_most_negative() {
    let p = TransportProblem::new();
    let a = corner_plan();
    let (u, v) = p.compute_potentials(&a);
    assert_eq!(p.find_entering_cell(&a, &u, &v), Some((0, 4)));
    let tie = TransportProblem {
        supplies: vec![1, 1],
        demands: vec![1, 1],
        costs: vec![vec![5, 1], vec![1, 5]],
    };
    let b = vec![vec![1, 0], vec![0, 1]];
    assert_eq!(tie.find_entering_cell(&b, &vec![0, 0], &vec![5, 5]), Some((0, 1)));
    assert_eq!(tie.find_entering_cell(&b, &vec![0, 0], &vec![1, 1]), None);
}

#[test]
fn cycle_through_entering_cell() {
    let p = TransportProblem::new();
    let cycle = p.find_cycle(&corner_plan(), 0, 4).unwrap();
    assert_eq!(cycle, vec![(0, 4), (0, 2), (1, 2), (1, 3), (2, 3), (2, 4), (0, 4)]);
}

#[test]
fn no_cycle_without_enough_basic_cells() {
    let p = TransportProblem {
        supplies: vec![5, 5],
        demands: vec![5, 5],
        costs: vec![vec![1, 9], vec![9, 1]],
    };
    let a = vec![vec![5, 0], vec![0, 5]];
    assert_eq!(p.find_cycle(&a, 0, 1), None);
}

#[test]
fn reallocation_keeps_row_and_column_sums() {
    let mut a = corner_plan();
    let cycle = vec![(0, 4), (0, 2), (1, 2), (1, 3), (2, 3), (2, 4), (0, 4)];
    let q = reallocate(&mut a, &cycle);
    assert_eq!(q, 10);
    assert_eq!(a, vec![vec![90, 100, 0, 0, 10], vec![0, 0, 70, 80, 0], vec![0, 0, 0, 50, 100]]);
    assert_eq!(row_sums(&a), vec![200, 150, 150]);
    assert_eq!(col_sums(&a), vec![90, 100, 70, 130, 110]);
}

#[test]
fn optimizer_never_raises_cost() {
    let p = TransportProblem::new();
    let mut last = 7360;
    for cap in 0..6 {
        let plan = p.north_west_corner();
        let (plan, _) = p.optimize_by_potentials(plan, cap);
        assert!(plan.total_cost <= last);
        assert_eq!(plan.total_cost, p.calculate_total_cost(&plan.allocations));
        assert_eq!(row_sums(&plan.allocations), p.supplies);
        assert_eq!(col_sums(&plan.allocations), p.demands);
        last = plan.total_cost;
    }
}

#[test]
fn optimizer_steps_on_standard_instance() {
    let p = TransportProblem::new();
    let (plan, outcome) = p.optimize_by_potentials(p.north_west_corner(), 0);
    assert_eq!(outcome, OptimizationOutcome::IterationCapReached);
    assert_eq!(plan.allocations, corner_plan());
    let (plan, outcome) = p.optimize_by_potentials(p.north_west_corner(), 1);
    assert_eq!(outcome, OptimizationOutcome::IterationCapReached);
    assert_eq!(plan.total_cost, 7280);
    let (plan, outcome) = p.optimize_by_potentials(p.north_west_corner(), 2);
    assert_eq!(outcome, OptimizationOutcome::IterationCapReached);
    assert_eq!(plan.total_cost, 6560);
    let (plan, outcome) = p.optimize_by_potentials(p.north_west_corner(), 5);
    assert_eq!(outcome, OptimizationOutcome::Optimal);
    assert_eq!(plan.total_cost, 6520);
    assert_eq!(
        plan.allocations,
        vec![vec![90, 0, 0, 0, 110], vec![0, 80, 70, 0, 0], vec![0, 20, 0, 130, 0]]
    );
}

#[test]
fn optimizer_is_idempotent_on_optimal_plan() {
    let p = TransportProblem::new();
    let (plan, outcome) = p.optimize_by_potentials(p.north_west_corner(), 10);
    assert_eq!(outcome, OptimizationOutcome::Optimal);
    let before = plan.allocations.clone();
    let cost = plan.total_cost;
    let (again, outcome) = p.optimize_by_potentials(plan, 10);
    assert_eq!(outcome, OptimizationOutcome::Optimal);
    assert_eq!(again.allocations, before);
    assert_eq!(again.total_cost, cost);
}

#[test]
fn optimizer_stalls_without_cycle() {
    let p = TransportProblem {
        supplies: vec![5, 5],
        demands: vec![5, 5],
        costs: vec![vec![9, 1], vec![1, 9]],
    };
    let plan = TransportPlan { allocations: vec![vec![5, 0], vec![0, 5]], total_cost: 90 };
    let (plan, outcome) = p.optimize_by_potentials(plan, 5);
    assert_eq!(outcome, OptimizationOutcome::Stalled(StallReason::CycleNotFound));
    assert_eq!(plan.allocations, vec![vec![5, 0], vec![0, 5]]);
    assert_eq!(plan.total_cost, 90);
}

#[test]
fn well_formedness_is_checked() {
    assert!(TransportProblem::new().is_well_formed());
    let ragged = TransportProblem {
        supplies: vec![1, 1],
        demands: vec![1, 1],
        costs: vec![vec![1, 2], vec![3]],
    };
    assert!(!ragged.is_well_formed());
    let negative = TransportProblem {
        supplies: vec![1, -1],
        demands: vec![0],
        costs: vec![vec![1], vec![1]],
    };
    assert!(!negative.is_well_formed());
    let negative_cost = TransportProblem {
        supplies: vec![1],
        demands: vec![1],
        costs: vec![vec![-1]],
    };
    assert!(!negative_cost.is_well_formed());
}

#[test]
fn plans_are_checked_against_the_problem() {
    let p = TransportProblem::new();
    let good = p.north_west_corner();
    assert!(p.admits_plan(&good));
    let wrong_cost = TransportPlan { allocations: corner_plan(), total_cost: 7361 };
    assert!(!p.admits_plan(&wrong_cost));
    let mut a = corner_plan();
    a[0][0] = 89;
    let cost = p.calculate_total_cost(&a);
    assert!(!p.admits_plan(&TransportPlan { allocations: a, total_cost: cost }));
    let mut b = corner_plan();
    b[0][0] = 80;
    b[0][1] = 110;
    let cost = p.calculate_total_cost(&b);
    assert!(!p.admits_plan(&TransportPlan { allocations: b, total_cost: cost }));
    let short = TransportPlan { allocations: vec![vec![0; 5]; 2], total_cost: 0 };
    assert!(!p.admits_plan(&short));
}

#[test]
fn step_at_untrue_potentials_may_raise_cost() {
    let p = TransportProblem {
        supplies: vec![1, 4, 3, 3],
        demands: vec![6, 3, 2],
        costs: vec![vec![50, 50, 0], vec![9, 1, 50], vec![5, 5, 50], vec![1, 9, 0]],
    };
    let allocations = vec![vec![0, 0, 1], vec![2, 2, 0], vec![3, 0, 0], vec![1, 1, 1]];
    assert!(p.is_well_formed());
    let (u, v) = p.compute_potentials(&allocations);
    assert_eq!(u, vec![0, 8, 4, 0]);
    assert_eq!(v, vec![1, 9, 0]);
    assert_eq!(p.find_entering_cell(&allocations, &u, &v), Some((2, 1)));
    let cycle = p.find_cycle(&allocations, 2, 1).unwrap();
    assert_eq!(cycle, vec![(2, 1), (2, 0), (1, 0), (1, 1), (2, 1)]);
    let plan = TransportPlan { allocations, total_cost: 45 };
    assert!(p.admits_plan(&plan));
    let (plan, outcome) = p.optimize_by_potentials(plan, 1);
    assert_eq!(outcome, OptimizationOutcome::IterationCapReached);
    assert_eq!(
        plan.allocations,
        vec![vec![0, 0, 1], vec![4, 0, 0], vec![1, 2, 0], vec![1, 1, 1]]
    );
    assert_eq!(plan.total_cost, 61);
    assert!(p.admits_plan(&plan));
}

#[test]
fn tied_donors_all_leave_the_basis() {
    let mut a = vec![vec![90, 20, 0, 0, 90], vec![0, 80, 70, 0, 0], vec![0, 0, 0, 130, 20]];
    let cycle = vec![(2, 1), (2, 4), (0, 4), (0, 1), (2, 1)];
    assert_eq!(reallocate(&mut a, &cycle), 20);
    assert_eq!(a, vec![vec![90, 0, 0, 0, 110], vec![0, 80, 70, 0, 0], vec![0, 20, 0, 130, 0]]);
}

#[test]
fn step_changes_cost_by_quantity_times_reduced_cost() {
    let p = TransportProblem::new();
    let mut a = corner_plan();
    let (u, v) = p.compute_potentials(&a);
    let (i, j) = p.find_entering_cell(&a, &u, &v).unwrap();
    let delta = p.costs[i][j] as i128 - (u[i] + v[j]);
    assert_eq!(delta, -8);
    let cycle = p.find_cycle(&a, i, j).unwrap();
    let before = p.calculate_total_cost(&a);
    let q = reallocate(&mut a, &cycle);
    let after = p.calculate_total_cost(&a);
    assert_eq!(after, before + (q as i128) * delta);
    assert_eq!(after, 7280);
}

#[test]
fn basic_cells_of_corner_plan_are_bounded() {
    let p = TransportProblem::new();
    let plan = p.north_west_corner();
    let basic = plan.allocations.iter().flatten().filter(|&&x| x > 0).count();
    assert_eq!(basic, 7);
    assert!(basic <= p.supplies.len() + p.demands.len() - 1);
}
