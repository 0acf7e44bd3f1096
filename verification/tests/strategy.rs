use fleet_planner::assign::INFEASIBLE;
use fleet_planner::command::Command;
use fleet_planner::constants::Constants;
use fleet_planner::data::Dropoff;
use fleet_planner::data::Pos;
use fleet_planner::data::Ship;
use fleet_planner::data::Shipyard;
use fleet_planner::data::State;
use fleet_planner::rank::rank;
use fleet_planner::rank::ranks_before;
use fleet_planner::strategy::cell_cost;
use fleet_planner::strategy::depth_for;
use fleet_planner::strategy::duty_of;
use fleet_planner::strategy::should_spawn;
use fleet_planner::strategy::sum_field;
use fleet_planner::strategy::Duty;
use fleet_planner::strategy::Executor;
use fleet_planner::strategy::Role;
use fleet_planner::torus::Dir;

fn unit(id: u16, x: i8, y: i8, halite: i32) -> Ship {
    Ship { owner: 0, id, x, y, halite }
}

fn snapshot(round: i16, ships: Vec<Ship>, halite: Vec<i32>) -> State {
    State {
        id: 0,
        width: 5,
        height: 5,
        round,
        scores: vec![5000, 5000],
        drops: vec![],
        ships,
        yards: vec![Shipyard { owner: 0, x: 0, y: 0 }, Shipyard { owner: 1, x: 4, y: 4 }],
        halite,
    }
}

#[test]
fn the_fuller_unit_is_served_first_and_the_lower_identifier_breaks_ties() {
    let a = unit(4, 0, 0, 10);
    let b = unit(2, 1, 0, 30);
    let c = unit(3, 2, 0, 30);
    let d = unit(1, 3, 0, 0);
    assert!(ranks_before(&b, &a));
    assert!(!ranks_before(&a, &b));
    assert!(ranks_before(&b, &c));
    assert!(!ranks_before(&c, &b));
    assert!(!ranks_before(&a, &a));
    assert_eq!(rank(&vec![a, b, c, d]), vec![b, c, a, d]);
    assert_eq!(rank(&vec![d, c, b, a]), vec![b, c, a, d]);
    assert_eq!(rank(&vec![c, a, d, b]), vec![b, c, a, d]);
    assert_eq!(rank(&vec![]), vec![]);
}

#[test]
fn a_unit_gets_the_duty_of_the_first_rule_that_applies() {
    let crash = Duty { role: Role::Crash, renew: true, landed: false };
    let back = Duty { role: Role::Return, renew: true, landed: false };
    let landed = Duty { role: Role::Gather, renew: false, landed: true };
    assert_eq!(duty_of(0, 10, 380, 400, false, false, false), crash);
    assert_eq!(duty_of(999, 0, 390, 400, true, true, false), crash);
    assert_eq!(duty_of(0, 10, 379, 400, false, false, false).role, Role::Gather);
    assert_eq!(duty_of(950, 10, 100, 400, false, false, false), back);
    assert_eq!(duty_of(950, 0, 100, 400, true, false, false), back);
    assert_eq!(duty_of(949, 0, 100, 400, true, true, false), landed);
    assert_eq!(
        duty_of(949, 3, 100, 400, false, true, true),
        Duty { role: Role::Crash, renew: false, landed: false }
    );
    assert_eq!(
        duty_of(949, 3, 100, 400, false, true, false),
        Duty { role: Role::Return, renew: false, landed: false }
    );
    assert_eq!(
        duty_of(949, 3, 100, 400, false, false, false),
        Duty { role: Role::Gather, renew: false, landed: false }
    );
}

#[test]
fn a_cell_costs_what_it_lacks_and_how_far_it_is() {
    assert_eq!(cell_cost(1000, 900, 4, 4, false), 8);
    assert_eq!(cell_cost(1000, 100, 4, 4, false), 4 + 8);
    assert_eq!(cell_cost(1000, 99, 4, 4, false), 4 + 8 + 100_000);
    assert_eq!(cell_cost(1000, 12, 0, 1, false), 4 + 1 + 100_000);
    assert_eq!(cell_cost(1000, 11, 4, 4, false), INFEASIBLE);
    assert_eq!(cell_cost(1000, 0, 4, 4, false), INFEASIBLE);
    assert_eq!(cell_cost(1000, 900, 0, 4, true), INFEASIBLE);
    assert_eq!(cell_cost(1000, 5000, 2, 3, false), 5);
    assert_eq!(cell_cost(1000, 600, 2, 3, false), 2 + 5);
}

#[test]
fn the_last_steps_of_a_way_are_left_unplanned() {
    assert_eq!(depth_for(0), 1);
    assert_eq!(depth_for(5), 1);
    assert_eq!(depth_for(6), 1);
    assert_eq!(depth_for(7), 2);
    assert_eq!(depth_for(126), 121);
}

#[test]
fn a_unit_is_spawned_only_when_every_condition_holds() {
    assert!(should_spawn(true, 501, 1000, 1000, 1000, 200, 400));
    assert!(!should_spawn(false, 501, 1000, 1000, 1000, 200, 400));
    assert!(!should_spawn(true, 500, 1000, 1000, 1000, 200, 400));
    assert!(!should_spawn(true, 501, 1000, 999, 1000, 200, 400));
    assert!(!should_spawn(true, 501, 1000, -1, 0, 200, 400));
    assert!(!should_spawn(true, 501, 1000, 1000, 1000, 201, 400));
    assert!(should_spawn(true, 501, 1000, 1000, 1000, 0, 1));
    assert!(!should_spawn(true, 501, 1000, 1000, 1000, 1, 1));
}

#[test]
fn the_field_is_added_up() {
    assert_eq!(sum_field(&vec![]), 0);
    assert_eq!(sum_field(&vec![1, 2, 3, -4]), 2);
    assert_eq!(sum_field(&vec![i32::MAX, i32::MAX, i32::MAX]), 3 * (i32::MAX as i64));
}

#[test]
fn a_snapshot_is_valid_when_everything_lies_on_the_grid() {
    let good = snapshot(0, vec![unit(1, 4, 4, 0)], vec![0; 25]);
    assert!(good.is_valid());
    assert_eq!(good.halite(), 5000);
    let mut bad = good.clone();
    bad.ships.push(unit(2, 5, 0, 0));
    assert!(!bad.is_valid());
    let mut bad = good.clone();
    bad.ships.push(unit(2, 0, -1, 0));
    assert!(!bad.is_valid());
    let mut bad = good.clone();
    bad.halite.pop();
    assert!(!bad.is_valid());
    let mut bad = good.clone();
    bad.width = 0;
    assert!(!bad.is_valid());
    let mut bad = good.clone();
    bad.round = -1;
    assert!(!bad.is_valid());
    let mut bad = good.clone();
    bad.round = i16::MAX;
    assert!(!bad.is_valid());
    let mut bad = good.clone();
    bad.id = 2;
    assert!(!bad.is_valid());
    let mut bad = good.clone();
    bad.drops.push(Dropoff { owner: 1, x: 0, y: 5 });
    assert!(!bad.is_valid());
    let mut bad = good.clone();
    bad.yards[0] = Shipyard { owner: 0, x: 5, y: 0 };
    assert!(!bad.is_valid());
    let mut bad = good.clone();
    bad.scores = vec![];
    assert!(!bad.is_valid());
}

#[test]
fn a_snapshot_tells_the_sides_apart() {
    let mine = unit(1, 1, 1, 0);
    let also = unit(2, 2, 2, 0);
    let theirs = Ship { owner: 1, id: 3, x: 3, y: 3, halite: 0 };
    let state = snapshot(0, vec![mine, theirs, also], vec![0; 25]);
    assert_eq!(state.allies(), vec![mine, also]);
    assert_eq!(state.enemies(), vec![theirs]);
    assert_eq!(mine.pos(), Pos(1, 1));
    assert_eq!(state.yards[1].pos(), Pos(4, 4));
}

#[test]
fn the_usual_constants_are_those_of_the_game() {
    let c = Constants::default();
    assert_eq!(c.MAX_TURNS, 400);
    assert_eq!(c.MAX_CELL_PRODUCTION, 1000);
    assert_eq!(c.NEW_ENTITY_ENERGY_COST, 1000);
    assert_eq!(c.MOVE_COST_RATIO, 10);
    assert_eq!(c.DROPOFF_COST, 4000);
    assert_eq!(c.INITIAL_ENERGY, 5000);
    assert_eq!(c.MAX_ENERGY, 1000);
    assert_eq!(c.EXTRACT_RATIO, 4);
    assert!(c.INSPIRATION_ENABLED);
    assert!(!c.CAPTURE_ENABLED);
    assert!(!c.STRICT_ERRORS);
    assert_eq!(c.GAME_SEED, 0);
    assert_eq!(fleet_planner::constants::max_turns(), 400);
    assert_eq!(fleet_planner::constants::min_cell_production(), 900);
    assert_eq!(fleet_planner::constants::RETURN, 800);
}

fn one_rich_cell() -> Vec<i32> {
    let mut halite = vec![0; 25];
    halite[3 * 5 + 3] = 900;
    halite[1 * 5 + 4] = 700;
    halite
}

#[test]
fn a_turn_orders_every_unit_once_and_in_the_order_of_rank() {
    let state = snapshot(
        0,
        vec![unit(7, 1, 1, 0), Ship { owner: 1, id: 9, x: 4, y: 0, halite: 0 }, unit(3, 2, 3, 5)],
        one_rich_cell(),
    );
    let mut executor = Executor::new(1000);
    let cmds = executor.execute(&Constants::default(), &state);
    assert_eq!(cmds.len(), 3);
    assert!(matches!(cmds[0], Command::Move(3, _)));
    assert!(matches!(cmds[1], Command::Move(7, _)));
    assert_eq!(cmds[2], Command::Spawn);
    assert_eq!(cmds[0], Command::Move(3, Dir::E));
}

#[test]
fn a_turn_planned_twice_from_the_same_snapshot_gives_the_same_orders() {
    let state = snapshot(
        0,
        vec![unit(7, 2, 1, 40), unit(3, 2, 3, 40), unit(5, 1, 2, 40), unit(6, 3, 2, 10)],
        one_rich_cell(),
    );
    let first = Executor::new(1000).execute(&Constants::default(), &state);
    let second = Executor::new(1000).execute(&Constants::default(), &state);
    assert_eq!(first, second);
    assert_eq!(first.len(), 5);
    let ids: Vec<usize> = first
        .iter()
        .filter_map(|c| match c {
            Command::Move(id, _) => Some(*id),
            _ => None,
        })
        .collect();
    assert_eq!(ids, vec![3, 5, 7, 6]);
}

#[test]
fn no_unit_is_spawned_onto_a_reserved_base_or_a_spent_field() {
    let state = snapshot(0, vec![unit(7, 1, 0, 960)], one_rich_cell());
    let mut executor = Executor::new(1000);
    let cmds = executor.execute(&Constants::default(), &state);
    assert_eq!(cmds, vec![Command::Move(7, Dir::W)]);

    let state = snapshot(0, vec![unit(7, 2, 2, 0)], one_rich_cell());
    let mut executor = Executor::new(4000);
    let cmds = executor.execute(&Constants::default(), &state);
    assert_eq!(cmds.len(), 1);

    let mut late = snapshot(201, vec![unit(7, 2, 2, 0)], one_rich_cell());
    let mut executor = Executor::new(1000);
    assert_eq!(executor.execute(&Constants::default(), &late).len(), 1);
    late.round = 200;
    let mut executor = Executor::new(1000);
    assert_eq!(executor.execute(&Constants::default(), &late).len(), 2);
    late.scores[0] = 999;
    let mut executor = Executor::new(1000);
    assert_eq!(executor.execute(&Constants::default(), &late).len(), 1);
}

#[test]
fn near_the_end_every_unit_heads_for_the_base() {
    let state = snapshot(388, vec![unit(7, 2, 0, 0), unit(8, 0, 2, 0)], one_rich_cell());
    let mut executor = Executor::new(1000);
    let cmds = executor.execute(&Constants::default(), &state);
    assert_eq!(cmds, vec![Command::Move(7, Dir::W), Command::Move(8, Dir::N)]);
}

#[test]
fn a_fleet_keeps_its_routes_from_turn_to_turn() {
    let mut halite = vec![0; 25];
    halite[4 * 5 + 4] = 900;
    let mut state = snapshot(0, vec![unit(7, 1, 0, 960)], halite);
    state.width = 5;
    let mut executor = Executor::new(100_000);
    let cmds = executor.execute(&Constants::default(), &state);
    assert_eq!(cmds, vec![Command::Move(7, Dir::W)]);
    state.round = 1;
    state.ships = vec![unit(7, 0, 0, 0)];
    let cmds = executor.execute(&Constants::default(), &state);
    assert_eq!(cmds.len(), 1);
    assert!(matches!(cmds[0], Command::Move(7, _)));
}

fn five_by_five<'a>(halite: &'a [i32], ships: &[Ship]) -> fleet_planner::grid::Grid<'a> {
    let yards = [Shipyard { owner: 0, x: 0, y: 0 }];
    fleet_planner::grid::Grid::new(
        0,
        5,
        5,
        0,
        halite,
        ships,
        &[],
        &yards,
        fleet_planner::schedule::Schedule::new(5, 5),
    )
}

#[test]
fn the_steps_of_a_turn_fit_together() {
    let halite = one_rich_cell();
    let ranked = vec![unit(3, 2, 3, 960), unit(7, 1, 1, 5), unit(8, 0, 0, 0)];
    let mut grid = five_by_five(&halite, &ranked);
    let mut executor = Executor::new(1000);
    let roles = executor.enlist(&mut grid, &ranked, 400);
    assert_eq!(roles, vec![Role::Return, Role::Gather, Role::Gather]);

    let costs = fleet_planner::strategy::price(&grid, &ranked, &roles, 1000);
    assert_eq!(costs.len(), 50);
    assert_eq!(costs[0], INFEASIBLE);
    assert_eq!(costs[3 * 5 + 3], 0 + 4 + 4);
    assert_eq!(costs[1 * 5 + 4], 1 + 2 + 2);
    assert_eq!(costs[25 + 3 * 5 + 3], 0 + 4 + 4);
    assert_eq!(costs[25 + 1 * 5 + 4], 1 + 2 + 2);
    assert_eq!(costs[25 + 2], INFEASIBLE);

    let dest = fleet_planner::assign::solve(&costs, 2, 25);
    assert_eq!(dest, vec![Some(18), Some(9)]);
    let tasks = fleet_planner::strategy::tasks_for(&grid, &ranked, &roles, &dest);
    assert_eq!(tasks.len(), 3);
    assert_eq!((tasks[0].target, tasks[0].depth, tasks[0].crash), (Pos(0, 0), i16::MAX, false));
    assert_eq!((tasks[1].target, tasks[1].depth, tasks[1].crash), (Pos(3, 3), 1, false));
    assert_eq!((tasks[2].target, tasks[2].depth, tasks[2].crash), (Pos(4, 1), 1, false));

    let (cmds, unsettled) = fleet_planner::strategy::dispatch(&mut grid, &ranked, &tasks);
    assert!(unsettled.is_empty());
    assert_eq!(cmds.len(), 3);
    assert!(matches!(cmds[0], Command::Move(3, _)));
    assert!(matches!(cmds[1], Command::Move(7, _)));
    assert!(matches!(cmds[2], Command::Move(8, _)));
}

#[test]
fn a_unit_without_a_destination_is_told_to_stay_where_it_is() {
    let halite = one_rich_cell();
    let ranked = vec![unit(7, 1, 1, 5), unit(8, 2, 2, 0)];
    let grid = five_by_five(&halite, &ranked);
    let roles = vec![Role::Gather, Role::Gather];
    let tasks = fleet_planner::strategy::tasks_for(&grid, &ranked, &roles, &vec![None, Some(25)]);
    assert_eq!((tasks[0].target, tasks[0].depth), (Pos(1, 1), 1));
    assert_eq!((tasks[1].target, tasks[1].depth), (Pos(2, 2), 1));
    let tasks = fleet_planner::strategy::tasks_for(&grid, &ranked, &roles, &vec![Some(24)]);
    assert_eq!((tasks[0].target, tasks[0].depth), (Pos(4, 4), 1));
    assert_eq!((tasks[1].target, tasks[1].depth), (Pos(2, 2), 1));
}

#[test]
fn a_returning_unit_keeps_returning_until_it_lands() {
    let halite = vec![0; 25];
    let mut executor = Executor::new(1000);
    let full = vec![unit(3, 2, 3, 960)];
    let mut grid = five_by_five(&halite, &full);
    assert_eq!(executor.enlist(&mut grid, &full, 400), vec![Role::Return]);
    let emptied = vec![unit(3, 2, 2, 10)];
    let mut grid = five_by_five(&halite, &emptied);
    assert_eq!(executor.enlist(&mut grid, &emptied, 400), vec![Role::Return]);
    let landed = vec![unit(3, 0, 0, 10)];
    let mut grid = five_by_five(&halite, &landed);
    assert_eq!(executor.enlist(&mut grid, &landed, 400), vec![Role::Gather]);
    let out = vec![unit(3, 1, 0, 10)];
    let mut grid = five_by_five(&halite, &out);
    assert_eq!(executor.enlist(&mut grid, &out, 400), vec![Role::Gather]);
    let late = vec![unit(3, 1, 0, 10)];
    let mut grid = five_by_five(&halite, &late);
    assert_eq!(executor.enlist(&mut grid, &late, 11), vec![Role::Crash]);
    let mut grid = five_by_five(&halite, &late);
    assert_eq!(executor.enlist(&mut grid, &late, 400), vec![Role::Crash]);
}

#[test]
fn a_unit_that_sets_out_for_the_base_gives_up_its_route() {
    let halite = vec![0; 25];
    let ranked = vec![unit(3, 2, 3, 960), unit(4, 1, 1, 0)];
    let mut schedule = fleet_planner::schedule::Schedule::new(5, 5);
    schedule.reserve(Pos(2, 2), 1, 3);
    schedule.reserve(Pos(1, 2), 1, 4);
    let yards = [Shipyard { owner: 0, x: 0, y: 0 }];
    let mut grid = fleet_planner::grid::Grid::new(0, 5, 5, 0, &halite, &ranked, &[], &yards, schedule);
    let mut executor = Executor::new(1000);
    executor.enlist(&mut grid, &ranked, 400);
    let schedule = grid.into_schedule();
    assert_eq!(schedule.claimant(Pos(2, 2), 1), None);
    assert_eq!(schedule.claimant(Pos(1, 2), 1), Some(4));
}

#[test]
fn a_snapshot_with_two_units_of_one_identifier_is_not_valid() {
    let good = snapshot(0, vec![unit(1, 4, 4, 0), unit(2, 3, 3, 0)], vec![0; 25]);
    assert!(good.is_valid());
    let twice = snapshot(0, vec![unit(1, 4, 4, 0), unit(1, 3, 3, 0)], vec![0; 25]);
    assert!(!twice.is_valid());
    let theirs = Ship { owner: 1, id: 1, x: 0, y: 0, halite: 0 };
    let mixed = snapshot(0, vec![unit(1, 4, 4, 0), theirs], vec![0; 25]);
    assert!(mixed.is_valid());
    assert!(fleet_planner::rank::ids_distinct(&vec![]));
    assert!(fleet_planner::rank::ids_distinct(&vec![unit(1, 0, 0, 0), unit(2, 0, 0, 0), unit(3, 0, 0, 0)]));
    assert!(!fleet_planner::rank::ids_distinct(&vec![unit(1, 0, 0, 0), unit(2, 0, 0, 0), unit(1, 1, 1, 5)]));
}

#[test]
fn a_unit_that_loses_its_cell_after_moving_plans_once_more() {
    let mut halite = vec![0; 25];
    halite[2 * 5 + 2] = 500;
    let mover = unit(1, 1, 2, 100);
    let stuck = unit(2, 2, 2, 10);
    let ranked = vec![mover, stuck];
    let mut grid = five_by_five(&halite, &ranked);
    let tasks = vec![
        fleet_planner::strategy::Task { target: Pos(2, 2), depth: 3, crash: false },
        fleet_planner::strategy::Task { target: Pos(4, 4), depth: 3, crash: false },
    ];
    let (cmds, unsettled) = fleet_planner::strategy::dispatch(&mut grid, &ranked, &tasks);
    assert!(unsettled.is_empty());
    assert_eq!(cmds[1], Command::Move(2, Dir::O));
    assert_ne!(cmds[0], Command::Move(1, Dir::E));
    let probe = five_by_five(&halite, &ranked);
    let to = match cmds[0] {
        Command::Move(_, d) => probe.step(Pos(1, 2), d),
        _ => panic!("a unit answers with a move"),
    };
    let schedule = grid.into_schedule();
    assert_eq!(schedule.claimant(Pos(2, 2), 1), Some(2));
    assert_eq!(schedule.claimant(to, 1), Some(1));
    assert_ne!(to, Pos(2, 2));
}

#[test]
fn after_a_turn_the_units_are_ordered_to_cells_of_their_own() {
    let halite = one_rich_cell();
    let state = snapshot(
        3,
        vec![
            unit(1, 2, 2, 40),
            unit(2, 2, 3, 40),
            unit(3, 3, 2, 20),
            unit(4, 1, 2, 0),
            unit(5, 2, 1, 960),
            unit(6, 0, 1, 999),
        ],
        halite.clone(),
    );
    let mut executor = Executor::new(1000);
    let cmds = executor.execute(&Constants::default(), &state);
    let ranked = rank(&state.allies());
    let probe = five_by_five(&halite, &ranked);
    let mut cells = Vec::new();
    for (ship, cmd) in ranked.iter().zip(cmds.iter()) {
        match cmd {
            Command::Move(id, d) => {
                assert_eq!(*id, ship.id as usize);
                if !executor.at_risk().contains(&ship.id) {
                    cells.push(probe.step(ship.pos(), *d));
                }
            },
            _ => panic!("a unit answers with a move"),
        }
    }
    for a in 0..cells.len() {
        for b in 0..a {
            assert_ne!(cells[a], cells[b]);
        }
    }
    assert!(executor.at_risk().is_empty());
}

#[test]
fn a_turn_without_units_orders_nothing_and_adds_nothing() {
    let halite = one_rich_cell();
    let theirs = Ship { owner: 1, id: 9, x: 2, y: 2, halite: 0 };
    let state = snapshot(201, vec![theirs], halite);
    let mut executor = Executor::new(1000);
    let cmds = executor.execute(&Constants::default(), &state);
    assert!(cmds.is_empty());
    assert!(executor.at_risk().is_empty());
    let early = snapshot(0, vec![theirs], one_rich_cell());
    let mut executor = Executor::new(1000);
    assert_eq!(executor.execute(&Constants::default(), &early), vec![Command::Spawn]);
}

#[test]
fn a_gatherer_without_a_destination_stays_where_it_is() {
    let halite = vec![0; 25];
    let state = snapshot(201, vec![unit(7, 2, 2, 0), unit(8, 3, 3, 0)], halite);
    let mut executor = Executor::new(1000);
    let cmds = executor.execute(&Constants::default(), &state);
    assert_eq!(cmds, vec![Command::Move(7, Dir::O), Command::Move(8, Dir::O)]);
}

#[test]
fn a_hemmed_in_unit_is_ordered_to_stay_by_a_whole_turn() {
    let halite = one_rich_cell();
    let ranked = vec![unit(7, 2, 2, 5)];
    let mut schedule = fleet_planner::schedule::Schedule::new(5, 5);
    for turn in 1..=4 {
        for cell in [Pos(2, 2), Pos(2, 1), Pos(2, 3), Pos(1, 2), Pos(3, 2)] {
            schedule.reserve(cell, turn, 99);
        }
    }
    let yards = [Shipyard { owner: 0, x: 0, y: 0 }];
    let mut grid = fleet_planner::grid::Grid::new(0, 5, 5, 0, &halite, &ranked, &[], &yards, schedule);
    let tasks = vec![fleet_planner::strategy::Task { target: Pos(3, 3), depth: 3, crash: false }];
    let (cmds, unsettled) = fleet_planner::strategy::dispatch(&mut grid, &ranked, &tasks);
    assert_eq!(cmds, vec![Command::Move(7, Dir::O)]);
    assert!(unsettled.is_empty());
    let schedule = grid.into_schedule();
    assert_eq!(schedule.claimant(Pos(2, 2), 1), Some(7));
    assert!(!schedule.has_cached_route(99));
}

#[test]
fn the_routes_left_by_a_turn_are_held_by_their_units() {
    let halite = one_rich_cell();
    let state = snapshot(
        3,
        vec![unit(1, 2, 2, 40), unit(2, 0, 3, 40), unit(3, 4, 4, 960), unit(4, 1, 0, 999)],
        halite,
    );
    let mut executor = Executor::new(1000);
    executor.execute(&Constants::default(), &state);
    let ranked = rank(&state.allies());
    let tasks: Vec<fleet_planner::strategy::Task> = Vec::new();
    assert!(tasks.is_empty());
    let mut grid = five_by_five(&state.halite, &ranked);
    let roles = Executor::new(1000).enlist(&mut grid, &ranked, 400);
    let costs = fleet_planner::strategy::price(&grid, &ranked, &roles, 1000);
    let gatherers = roles.iter().filter(|r| **r == Role::Gather).count();
    let dest = fleet_planner::assign::solve(&costs, gatherers, 25);
    let tasks = fleet_planner::strategy::tasks_for(&grid, &ranked, &roles, &dest);
    let (_, unsettled) = fleet_planner::strategy::dispatch(&mut grid, &ranked, &tasks);
    assert!(unsettled.is_empty());
    let mut schedule = grid.into_schedule();
    for ship in &ranked {
        while let Some((cell, turn)) = schedule.pop_next(ship.id) {
            assert!(schedule.claimant(cell, turn) == Some(ship.id) || cell == Pos(0, 0));
        }
    }
}
