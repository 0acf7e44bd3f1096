use fleet_planner::assign::destinations;
use fleet_planner::assign::solve;
use fleet_planner::assign::INFEASIBLE;

fn total(costs: &[i32], cells: usize, dest: &[Option<usize>]) -> i64 {
    dest.iter().enumerate().map(|(i, d)| costs[i * cells + d.unwrap()] as i64).sum()
}

fn least(costs: &[i32], units: usize, cells: usize, row: usize, used: &mut Vec<bool>) -> i64 {
    if row == units {
        return 0;
    }
    let mut best = i64::MAX;
    for j in 0..cells {
        if !used[j] {
            used[j] = true;
            let rest = least(costs, units, cells, row + 1, used);
            used[j] = false;
            if rest != i64::MAX {
                best = best.min(rest + costs[row * cells + j] as i64);
            }
        }
    }
    best
}

#[test]
fn a_square_matrix_is_assigned_at_least_total_cost() {
    let costs = vec![1, 2, 1, 4, 5, 6, 7, 8, 9];
    let dest = solve(&costs, 3, 3);
    assert_eq!(dest, vec![Some(2), Some(1), Some(0)]);
    assert_eq!(total(&costs, 3, &dest), 13);
}

#[test]
fn a_wide_matrix_leaves_cells_out() {
    let costs = vec![1, 0, 5, 2, 3, 1];
    let dest = solve(&costs, 2, 3);
    assert_eq!(dest, vec![Some(1), Some(2)]);
    assert_eq!(total(&costs, 3, &dest), 1);
}

#[test]
fn small_matrices_are_solved_as_well_as_by_trying_every_assignment() {
    let mut seed: u64 = 0x2545_f491_4f6c_dd1d;
    for units in 1..=5usize {
        for cells in units..=5usize {
            for _ in 0..40 {
                let mut costs = Vec::new();
                for _ in 0..units * cells {
                    seed = seed.wrapping_mul(6364136223846793005).wrapping_add(1442695040888963407);
                    costs.push(((seed >> 33) % 50) as i32);
                }
                let dest = solve(&costs, units, cells);
                assert_eq!(dest.len(), units);
                let mut used = vec![false; cells];
                for d in &dest {
                    let j = d.expect("every unit has a cell");
                    assert!(j < cells);
                    assert!(!used[j]);
                    used[j] = true;
                }
                let mut free = vec![false; cells];
                assert_eq!(total(&costs, cells, &dest), least(&costs, units, cells, 0, &mut free));
            }
        }
    }
}

#[test]
fn more_units_than_cells_leaves_units_without_a_destination() {
    let costs = vec![5, 5, 1, 0, 2, 3];
    let dest = solve(&costs, 3, 2);
    assert_eq!(dest.len(), 3);
    let placed: Vec<usize> = dest.iter().flatten().cloned().collect();
    assert_eq!(placed.len(), 2);
    assert_ne!(placed[0], placed[1]);
    assert_eq!(dest, vec![None, Some(1), Some(0)]);
}

#[test]
fn no_unit_means_no_destination() {
    assert_eq!(solve(&vec![], 0, 4), vec![]);
    assert_eq!(solve(&vec![], 0, 0), vec![]);
    assert_eq!(solve(&vec![], 2, 0), vec![None, None]);
}

#[test]
fn an_infeasible_cell_is_taken_only_when_forced_and_then_dropped() {
    let costs = vec![INFEASIBLE, 3, INFEASIBLE, 4];
    let dest = solve(&costs, 2, 2);
    assert_eq!(dest.len(), 2);
    assert_eq!(dest.iter().flatten().count(), 1);
    assert!(dest.contains(&Some(1)));
    let costs = vec![INFEASIBLE, 3, 2, INFEASIBLE];
    assert_eq!(solve(&costs, 2, 2), vec![Some(1), Some(0)]);
}

#[test]
fn negative_costs_count_as_nothing() {
    let costs = vec![-5, 1, 1, -7];
    assert_eq!(solve(&costs, 2, 2), vec![Some(0), Some(1)]);
}

#[test]
fn destinations_reads_an_assignment_defensively() {
    let costs = vec![1, 2, 3, INFEASIBLE, 5, 6];
    let rows = vec![Some(2), Some(0)];
    assert_eq!(destinations(&rows, &costs, 2, 3), vec![Some(2), None]);
    let rows = vec![Some(3), None];
    assert_eq!(destinations(&rows, &costs, 2, 3), vec![None, None]);
    let rows = vec![Some(1)];
    assert_eq!(destinations(&rows, &costs, 2, 3), vec![Some(1), None]);
    let rows = vec![Some(1), Some(2), Some(0)];
    assert_eq!(destinations(&rows, &costs, 2, 3), vec![Some(1), Some(2)]);
}

#[test]
fn no_two_units_are_given_the_same_destination() {
    let mut seed: u64 = 77;
    for units in 1..=6usize {
        for cells in 1..=6usize {
            let mut costs = Vec::new();
            for _ in 0..units * cells {
                seed = seed.wrapping_mul(6364136223846793005).wrapping_add(1442695040888963407);
                costs.push(if (seed >> 40) % 4 == 0 { INFEASIBLE } else { ((seed >> 33) % 9) as i32 });
            }
            let dest = solve(&costs, units, cells);
            assert_eq!(dest.len(), units);
            let placed: Vec<usize> = dest.iter().flatten().cloned().collect();
            for a in 0..placed.len() {
                assert!(placed[a] < cells);
                for b in 0..a {
                    assert_ne!(placed[a], placed[b]);
                }
            }
        }
    }
}
