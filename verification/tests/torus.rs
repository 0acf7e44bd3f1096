use fleet_planner::data::Dropoff;
use fleet_planner::data::Pos;
use fleet_planner::data::Ship;
use fleet_planner::data::Shipyard;
use fleet_planner::grid::Grid;
use fleet_planner::schedule::Schedule;
use fleet_planner::torus::Dir;

fn view<'a>(w: i8, h: i8, halite: &'a [i32], ships: &[Ship], drops: &[Dropoff]) -> Grid<'a> {
    let yards = [Shipyard { owner: 0, x: 0, y: 0 }, Shipyard { owner: 1, x: 2, y: 2 }];
    Grid::new(0, w, h, 0, halite, ships, drops, &yards, Schedule::new(w, h))
}

#[test]
fn distance_wraps_around_the_edges() {
    let halite = vec![0; 25];
    let grid = view(5, 5, &halite, &[], &[]);
    assert_eq!(grid.dist(Pos(0, 0), Pos(4, 4)), 2);
    assert_eq!(grid.dist(Pos(4, 4), Pos(0, 0)), 2);
    assert_eq!(grid.dist(Pos(1, 1), Pos(1, 1)), 0);
    assert_eq!(grid.dist(Pos(0, 0), Pos(2, 2)), 4);
    assert_eq!(grid.dx(0, 3), 2);
    assert_eq!(grid.dy(1, 3), 2);
}

#[test]
fn distance_is_symmetric_on_every_pair_of_a_small_grid() {
    let halite = vec![0; 12];
    let grid = view(4, 3, &halite, &[], &[]);
    for a in 0..12usize {
        for b in 0..12usize {
            let pa = grid.inv_idx(a);
            let pb = grid.inv_idx(b);
            assert_eq!(grid.dist(pa, pb), grid.dist(pb, pa));
            assert_eq!(grid.dist(pa, pb) == 0, a == b);
        }
    }
}

#[test]
fn distance_on_an_even_axis_takes_the_shorter_way() {
    let halite = vec![0; 36];
    let grid = view(6, 6, &halite, &[], &[]);
    assert_eq!(grid.dx(0, 3), 3);
    assert_eq!(grid.dx(0, 4), 2);
    assert_eq!(grid.dx(5, 0), 1);
}

#[test]
fn reflect_turns_each_direction_round() {
    assert_eq!(Dir::N.reflect(), Dir::S);
    assert_eq!(Dir::S.reflect(), Dir::N);
    assert_eq!(Dir::E.reflect(), Dir::W);
    assert_eq!(Dir::W.reflect(), Dir::E);
    assert_eq!(Dir::O.reflect(), Dir::O);
}

#[test]
fn step_wraps_and_staying_is_a_fixed_point() {
    let halite = vec![0; 20];
    let grid = view(5, 4, &halite, &[], &[]);
    assert_eq!(grid.step(Pos(0, 0), Dir::N), Pos(0, 3));
    assert_eq!(grid.step(Pos(0, 3), Dir::S), Pos(0, 0));
    assert_eq!(grid.step(Pos(4, 1), Dir::E), Pos(0, 1));
    assert_eq!(grid.step(Pos(0, 1), Dir::W), Pos(4, 1));
    assert_eq!(grid.step(Pos(2, 2), Dir::N), Pos(2, 1));
    assert_eq!(grid.step(Pos(2, 2), Dir::E), Pos(3, 2));
    assert_eq!(grid.step(Pos(2, 2), Dir::O), Pos(2, 2));
}

#[test]
fn inv_step_undoes_step_also_across_the_edges() {
    let halite = vec![0; 20];
    let grid = view(5, 4, &halite, &[], &[]);
    for i in 0..20usize {
        let p = grid.inv_idx(i);
        for d in [Dir::N, Dir::S, Dir::E, Dir::W, Dir::O] {
            let q = grid.step(p, d);
            assert_eq!(grid.inv_step(p, q), d);
            assert!(grid.dist(p, q) <= 1);
        }
    }
    assert_eq!(grid.inv_step(Pos(0, 0), Pos(4, 0)), Dir::W);
    assert_eq!(grid.inv_step(Pos(0, 0), Pos(0, 3)), Dir::N);
}

#[test]
fn idx_and_inv_idx_are_row_major_and_inverse() {
    let halite = vec![0; 20];
    let grid = view(5, 4, &halite, &[], &[]);
    assert_eq!(grid.idx(Pos(0, 0)), 0);
    assert_eq!(grid.idx(Pos(4, 0)), 4);
    assert_eq!(grid.idx(Pos(0, 1)), 5);
    assert_eq!(grid.idx(Pos(3, 2)), 13);
    assert_eq!(grid.inv_idx(13), Pos(3, 2));
    for i in 0..20usize {
        assert_eq!(grid.idx(grid.inv_idx(i)), i);
    }
}

#[test]
fn occupancy_marks_allies_enemies_and_harbors() {
    let mut halite = vec![0; 25];
    halite[7] = 123;
    let ships = [
        Ship { owner: 0, id: 1, x: 1, y: 1, halite: 0 },
        Ship { owner: 1, id: 2, x: 3, y: 3, halite: 0 },
    ];
    let drops = [Dropoff { owner: 0, x: 4, y: 0 }, Dropoff { owner: 1, x: 4, y: 4 }];
    let grid = view(5, 5, &halite, &ships, &drops);
    assert!(grid.is_ally(Pos(1, 1)));
    assert!(!grid.is_ally(Pos(3, 3)));
    assert!(grid.is_enemy(Pos(3, 3)));
    assert!(!grid.is_enemy(Pos(1, 1)));
    assert!(!grid.is_enemy(Pos(0, 0)));
    assert!(grid.is_safe_harbor(Pos(0, 0)));
    assert!(grid.is_safe_harbor(Pos(4, 0)));
    assert!(!grid.is_safe_harbor(Pos(4, 4)));
    assert!(!grid.is_safe_harbor(Pos(2, 2)));
    assert_eq!(grid.resource_at(Pos(2, 1)), 123);
    assert_eq!(grid.resource_at(Pos(1, 2)), 0);
    assert_eq!(grid.fare(Pos(2, 1)), 12);
    assert_eq!(grid.dist_from_yard(&ships[0]), 2);
}

#[test]
fn enemies_around_counts_the_cells_within_the_radius_once_each() {
    let halite = vec![0; 49];
    let ships = [
        Ship { owner: 1, id: 2, x: 3, y: 3, halite: 0 },
        Ship { owner: 1, id: 3, x: 4, y: 4, halite: 0 },
        Ship { owner: 1, id: 4, x: 6, y: 6, halite: 0 },
        Ship { owner: 0, id: 5, x: 3, y: 4, halite: 0 },
    ];
    let grid = view(7, 7, &halite, &ships, &[]);
    assert_eq!(grid.enemies_around(Pos(3, 3), -1), 0);
    assert_eq!(grid.enemies_around(Pos(3, 3), 0), 1);
    assert_eq!(grid.enemies_around(Pos(3, 3), 1), 1);
    assert_eq!(grid.enemies_around(Pos(3, 3), 2), 2);
    assert_eq!(grid.enemies_around(Pos(3, 4), 0), 0);
    assert_eq!(grid.enemies_around(Pos(3, 4), 1), 2);
    assert_eq!(grid.enemies_around(Pos(3, 4), 2), 2);
    assert_eq!(grid.enemies_around(Pos(0, 0), 1), 0);
    assert_eq!(grid.enemies_around(Pos(0, 0), 2), 1);
    assert_eq!(grid.enemies_around(Pos(1, 1), 2), 0);
    assert_eq!(grid.enemies_around(Pos(5, 5), 3), 2);
    assert_eq!(grid.enemies_around(Pos(5, 5), 4), 3);
    assert_eq!(grid.enemies_around(Pos(0, 3), 127), 3);
    assert_eq!(grid.allies_around(Pos(3, 3), 0), 0);
    assert_eq!(grid.allies_around(Pos(3, 3), 1), 1);
    assert_eq!(grid.allies_around(Pos(3, 3), 2), 1);
    assert!(grid.is_threatened(Pos(2, 2)));
    assert!(!grid.is_threatened(Pos(1, 1)));
    assert!(!grid.is_threatened(Pos(0, 0)));
}

#[test]
fn on_a_grid_of_one_cell_a_unit_is_counted_once() {
    let halite = vec![0];
    let ships = [Ship { owner: 1, id: 2, x: 0, y: 0, halite: 0 }];
    let yards = [Shipyard { owner: 0, x: 0, y: 0 }];
    let grid = Grid::new(0, 1, 1, 0, &halite, &ships, &[], &yards, Schedule::new(1, 1));
    assert_eq!(grid.enemies_around(Pos(0, 0), 0), 1);
    assert_eq!(grid.enemies_around(Pos(0, 0), 2), 1);
    assert_eq!(grid.enemies_around(Pos(0, 0), 127), 1);
    assert_eq!(grid.allies_around(Pos(0, 0), 2), 0);
}

#[test]
fn on_a_narrow_grid_a_unit_one_step_east_is_within_radius_one() {
    let halite = vec![0; 25];
    let ships = [Ship { owner: 1, id: 2, x: 3, y: 2, halite: 0 }];
    let grid = view(5, 5, &halite, &ships, &[]);
    assert_eq!(grid.enemies_around(Pos(2, 2), 1), 1);
    assert_eq!(grid.enemies_around(Pos(2, 2), 0), 0);
    assert_eq!(grid.enemies_around(Pos(4, 2), 1), 1);
    assert_eq!(grid.enemies_around(Pos(0, 2), 1), 0);
    assert_eq!(grid.enemies_around(Pos(0, 2), 2), 1);
}

#[test]
fn edge_cost_adds_time_fare_crowding_and_threat() {
    let mut halite = vec![0; 49];
    halite[2 * 7 + 2] = 57;
    let ships = [
        Ship { owner: 0, id: 1, x: 2, y: 2, halite: 0 },
        Ship { owner: 0, id: 2, x: 3, y: 2, halite: 0 },
        Ship { owner: 0, id: 3, x: 1, y: 0, halite: 0 },
        Ship { owner: 1, id: 4, x: 2, y: 5, halite: 0 },
    ];
    let grid = view(7, 7, &halite, &ships, &[]);
    assert_eq!(grid.edge_cost(Pos(2, 2), Dir::O), 1);
    assert_eq!(grid.edge_cost(Pos(2, 2), Dir::N), 1 + 5);
    assert_eq!(grid.edge_cost(Pos(2, 2), Dir::E), 1 + 5 + 1_000);
    assert_eq!(grid.edge_cost(Pos(0, 0), Dir::E), 1 + 1_000_000_000);
    assert_eq!(grid.edge_cost(Pos(2, 3), Dir::S), 1 + 1_000_000_000);
    assert_eq!(grid.edge_cost(Pos(2, 4), Dir::O), 1 + 1_000_000_000);
}

#[test]
fn fill_cost_visits_every_cell_row_by_row() {
    let halite: Vec<i32> = (0..12).collect();
    let grid = view(4, 3, &halite, &[], &[]);
    let mut costs = vec![-1];
    grid.fill_cost(&mut costs, |g, pos, h| h * 10 + g.idx(pos) as i32);
    assert_eq!(costs.len(), 13);
    assert_eq!(costs[0], -1);
    for i in 0..12 {
        assert_eq!(costs[i + 1], (i as i32) * 11);
    }
}
