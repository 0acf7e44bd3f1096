use fleet_planner::command::Command;
use fleet_planner::data::Pos;
use fleet_planner::data::Ship;
use fleet_planner::data::Shipyard;
use fleet_planner::grid::Grid;
use fleet_planner::schedule::Schedule;
use fleet_planner::torus::Dir;

const YARDS: [Shipyard; 2] = [Shipyard { owner: 0, x: 0, y: 0 }, Shipyard { owner: 1, x: 7, y: 7 }];

fn view<'a>(round: i16, halite: &'a [i32], ships: &[Ship], schedule: Schedule) -> Grid<'a> {
    Grid::new(0, 8, 8, round, halite, ships, &[], &YARDS, schedule)
}

fn unit(id: u16, x: i8, y: i8, halite: i32) -> Ship {
    Ship { owner: 0, id, x, y, halite }
}

fn foe(id: u16, x: i8, y: i8) -> Ship {
    Ship { owner: 1, id, x, y, halite: 0 }
}

fn drain(schedule: &mut Schedule, id: u16) -> Vec<(Pos, i16)> {
    let mut way = Vec::new();
    while let Some(entry) = schedule.pop_next(id) {
        way.push(entry);
    }
    way
}

fn direction(cmd: Command) -> Dir {
    match cmd {
        Command::Move(_, d) => d,
        _ => panic!("a unit answers with a move"),
    }
}

#[test]
fn in_an_open_field_the_route_is_as_long_as_the_distance() {
    let halite = vec![0; 64];
    let pairs = [
        (Pos(1, 1), Pos(3, 2)),
        (Pos(0, 0), Pos(7, 7)),
        (Pos(6, 1), Pos(1, 6)),
        (Pos(4, 4), Pos(4, 0)),
        (Pos(2, 5), Pos(3, 5)),
        (Pos(0, 3), Pos(4, 7)),
    ];
    for (start, target) in pairs {
        let ship = unit(1, start.0, start.1, 0);
        let ships = [ship];
        let mut grid = view(0, &halite, &ships, Schedule::new(8, 8));
        let expected = grid.dist(start, target) as usize;
        let (displaced, cmd) = grid.navigate(&ship, target, 30, false);
        assert_eq!(displaced, None);
        let first = grid.step(start, direction(cmd));
        let mut schedule = grid.into_schedule();
        let way = drain(&mut schedule, 1);
        assert_eq!(way.len(), expected);
        assert_eq!(way[0], (first, 1));
        assert_eq!(way[way.len() - 1].0, target);
    }
}

#[test]
fn a_planned_route_is_continuous_and_reserved() {
    let mut halite = vec![0; 64];
    halite[2 * 8 + 2] = 40;
    let ship = unit(5, 1, 1, 100);
    let ships = [ship, unit(6, 2, 1, 0)];
    let mut grid = view(4, &halite, &ships, Schedule::new(8, 8));
    let (_, cmd) = grid.navigate(&ship, Pos(5, 6), 30, false);
    let mut at = grid.step(Pos(1, 1), direction(cmd));
    let mut schedule = grid.into_schedule();
    let probe = view(4, &halite, &ships, Schedule::new(8, 8));
    let way = drain(&mut schedule, 5);
    assert!(!way.is_empty());
    assert_eq!(way[0], (at, 5));
    for (k, &(cell, turn)) in way.iter().enumerate() {
        assert_eq!(turn, 5 + k as i16);
        assert!(probe.dist(at, cell) <= 1);
        assert_eq!(schedule.claimant(cell, turn), Some(5));
        at = cell;
    }
    assert_eq!(at, Pos(5, 6));
}

#[test]
fn the_first_steps_of_a_search_follow_the_order_of_service() {
    let halite = vec![0; 64];
    let ship = unit(1, 1, 1, 0);
    let ships = [ship];
    let mut grid = view(0, &halite, &ships, Schedule::new(8, 8));
    let (_, cmd) = grid.navigate(&ship, Pos(3, 2), 30, false);
    assert_eq!(cmd, Command::Move(1, Dir::E));
    let mut schedule = grid.into_schedule();
    assert_eq!(drain(&mut schedule, 1), vec![(Pos(2, 1), 1), (Pos(3, 1), 2), (Pos(3, 2), 3)]);
}

#[test]
fn a_unit_hemmed_in_by_reservations_stays() {
    let halite = vec![0; 64];
    let ship = unit(1, 3, 3, 0);
    let ships = [ship];
    let mut schedule = Schedule::new(8, 8);
    for turn in 1..=6 {
        for cell in [Pos(3, 2), Pos(3, 4), Pos(2, 3), Pos(4, 3)] {
            schedule.reserve(cell, turn, 9);
        }
    }
    let mut grid = view(0, &halite, &ships, schedule);
    let (displaced, cmd) = grid.navigate(&ship, Pos(6, 6), 5, false);
    assert_eq!(displaced, None);
    assert_eq!(cmd, Command::Move(1, Dir::O));
    let schedule = grid.into_schedule();
    assert_eq!(schedule.claimant(Pos(3, 3), 1), Some(1));
    assert_eq!(schedule.claimant(Pos(3, 2), 1), Some(9));
}

#[test]
fn a_unit_with_every_cell_held_stays_and_takes_its_own() {
    let halite = vec![0; 64];
    let ship = unit(1, 3, 3, 0);
    let ships = [ship];
    let mut schedule = Schedule::new(8, 8);
    for turn in 1..=6 {
        for cell in [Pos(3, 3), Pos(3, 2), Pos(3, 4), Pos(2, 3), Pos(4, 3)] {
            schedule.reserve(cell, turn, 9);
        }
    }
    let mut grid = view(0, &halite, &ships, schedule);
    let (displaced, cmd) = grid.navigate(&ship, Pos(6, 6), 5, false);
    assert_eq!(displaced, Some(9));
    assert_eq!(cmd, Command::Move(1, Dir::O));
    let schedule = grid.into_schedule();
    assert_eq!(schedule.claimant(Pos(3, 3), 1), Some(1));
    assert!(!schedule.has_cached_route(1));
}

#[test]
fn a_unit_that_cannot_pay_for_a_move_stays() {
    let mut halite = vec![0; 64];
    halite[3 * 8 + 3] = 30;
    let ship = unit(1, 3, 3, 2);
    let ships = [ship];
    let mut schedule = Schedule::new(8, 8);
    schedule.reserve(Pos(3, 3), 1, 4);
    let mut grid = view(0, &halite, &ships, schedule);
    let (displaced, cmd) = grid.navigate(&ship, Pos(4, 3), 5, false);
    assert_eq!(displaced, Some(4));
    assert_eq!(cmd, Command::Move(1, Dir::O));
    let schedule = grid.into_schedule();
    assert_eq!(schedule.claimant(Pos(3, 3), 1), Some(1));
    assert!(!schedule.has_cached_route(1));

    let paying = unit(1, 3, 3, 3);
    let ships = [paying];
    let mut grid = view(0, &halite, &ships, Schedule::new(8, 8));
    let (_, cmd) = grid.navigate(&paying, Pos(4, 3), 5, false);
    assert_eq!(cmd, Command::Move(1, Dir::E));
}

#[test]
fn a_unit_on_a_rich_cell_waits_rather_than_pay_more_than_the_way_is_worth() {
    let mut halite = vec![0; 64];
    halite[3 * 8 + 3] = 500;
    let ship = unit(1, 3, 3, 50);
    let ships = [ship];
    let mut grid = view(0, &halite, &ships, Schedule::new(8, 8));
    let (_, cmd) = grid.navigate(&ship, Pos(6, 6), 5, false);
    assert_eq!(cmd, Command::Move(1, Dir::O));
    let mut schedule = grid.into_schedule();
    let way = drain(&mut schedule, 1);
    assert_eq!(way.len(), 5);
    assert!(way.iter().all(|&(cell, _)| cell == Pos(3, 3)));
}

#[test]
fn a_unit_given_no_turn_to_plan_stays() {
    let halite = vec![0; 64];
    let ship = unit(1, 3, 3, 0);
    let ships = [ship];
    let mut grid = view(0, &halite, &ships, Schedule::new(8, 8));
    let (_, cmd) = grid.navigate(&ship, Pos(6, 6), 0, false);
    assert_eq!(cmd, Command::Move(1, Dir::O));
}

#[test]
fn a_search_stops_at_its_depth() {
    let halite = vec![0; 64];
    let ship = unit(1, 1, 1, 0);
    let ships = [ship];
    let mut grid = view(0, &halite, &ships, Schedule::new(8, 8));
    let (_, cmd) = grid.navigate(&ship, Pos(4, 4), 2, false);
    assert_eq!(cmd, Command::Move(1, Dir::E));
    let mut schedule = grid.into_schedule();
    assert_eq!(drain(&mut schedule, 1).len(), 2);
}

#[test]
fn a_unit_on_its_target_stays_unless_threatened() {
    let halite = vec![0; 64];
    let ship = unit(1, 3, 3, 0);
    let ships = [ship];
    let mut grid = view(0, &halite, &ships, Schedule::new(8, 8));
    let (displaced, cmd) = grid.navigate(&ship, Pos(3, 3), 5, false);
    assert_eq!((displaced, cmd), (None, Command::Move(1, Dir::O)));
    let schedule = grid.into_schedule();
    assert_eq!(schedule.claimant(Pos(3, 3), 1), Some(1));

    let ships = [ship, foe(7, 4, 4)];
    let mut grid = view(0, &halite, &ships, Schedule::new(8, 8));
    let (_, cmd) = grid.navigate(&ship, Pos(3, 3), 5, false);
    assert_eq!(cmd, Command::Move(1, Dir::N));
    let schedule = grid.into_schedule();
    assert_eq!(schedule.claimant(Pos(3, 2), 1), Some(1));

    let mut held = Schedule::new(8, 8);
    held.reserve(Pos(3, 2), 1, 9);
    let mut grid = view(0, &halite, &ships, held);
    let (displaced, cmd) = grid.navigate(&ship, Pos(3, 3), 5, false);
    assert_eq!((displaced, cmd), (None, Command::Move(1, Dir::W)));
}

#[test]
fn a_stored_route_is_followed_step_by_step() {
    let halite = vec![0; 64];
    let ship = unit(1, 1, 1, 0);
    let ships = [ship];
    let mut grid = view(0, &halite, &ships, Schedule::new(8, 8));
    let (_, cmd) = grid.navigate(&ship, Pos(3, 2), 30, false);
    assert_eq!(cmd, Command::Move(1, Dir::E));
    let schedule = grid.into_schedule();

    let moved = unit(1, 2, 1, 0);
    let ships = [moved];
    let mut grid = view(1, &halite, &ships, schedule);
    let (displaced, cmd) = grid.navigate(&moved, Pos(6, 6), 30, false);
    assert_eq!((displaced, cmd), (None, Command::Move(1, Dir::E)));
    let schedule = grid.into_schedule();
    assert_eq!(schedule.claimant(Pos(2, 1), 1), None);
    assert_eq!(schedule.claimant(Pos(3, 1), 2), Some(1));
    assert_eq!(schedule.peek_next(1), Some((Pos(3, 1), 2)));

    let moved = unit(1, 3, 1, 0);
    let ships = [moved];
    let mut grid = view(2, &halite, &ships, schedule);
    let (_, cmd) = grid.navigate(&moved, Pos(6, 6), 30, false);
    assert_eq!(cmd, Command::Move(1, Dir::S));
    let mut schedule = grid.into_schedule();
    assert_eq!(drain(&mut schedule, 1), vec![(Pos(3, 2), 3)]);
}

#[test]
fn a_stale_route_is_dropped_and_planned_anew() {
    let halite = vec![0; 64];
    let ship = unit(1, 1, 1, 0);
    let ships = [ship];
    let mut grid = view(0, &halite, &ships, Schedule::new(8, 8));
    grid.navigate(&ship, Pos(3, 2), 30, false);
    let schedule = grid.into_schedule();

    let astray = unit(1, 1, 2, 0);
    let ships = [astray];
    let mut grid = view(1, &halite, &ships, schedule);
    let (_, cmd) = grid.navigate(&astray, Pos(3, 2), 30, false);
    assert_eq!(cmd, Command::Move(1, Dir::E));
    let mut schedule = grid.into_schedule();
    assert_eq!(schedule.claimant(Pos(3, 1), 2), None);
    assert_eq!(schedule.claimant(Pos(2, 1), 1), None);
    assert_eq!(drain(&mut schedule, 1), vec![(Pos(2, 2), 2), (Pos(3, 2), 3)]);
}

#[test]
fn a_route_whose_next_cell_is_threatened_is_planned_anew() {
    let halite = vec![0; 64];
    let ship = unit(1, 1, 1, 0);
    let ships = [ship];
    let mut grid = view(0, &halite, &ships, Schedule::new(8, 8));
    grid.navigate(&ship, Pos(3, 2), 30, false);
    let schedule = grid.into_schedule();

    let moved = unit(1, 2, 1, 0);
    let ships = [moved, foe(8, 4, 0)];
    let mut grid = view(1, &halite, &ships, schedule);
    let (_, cmd) = grid.navigate(&moved, Pos(3, 2), 30, false);
    assert_eq!(cmd, Command::Move(1, Dir::S));
    let mut schedule = grid.into_schedule();
    assert_eq!(schedule.claimant(Pos(3, 1), 2), None);
    assert_eq!(drain(&mut schedule, 1), vec![(Pos(2, 2), 2), (Pos(3, 2), 3)]);
}

#[test]
fn a_route_whose_next_slot_was_taken_is_planned_anew() {
    let halite = vec![0; 64];
    let ship = unit(1, 1, 1, 0);
    let ships = [ship];
    let mut grid = view(0, &halite, &ships, Schedule::new(8, 8));
    grid.navigate(&ship, Pos(3, 2), 30, false);
    let mut schedule = grid.into_schedule();
    assert_eq!(schedule.reserve(Pos(3, 1), 2, 9), Some(1));

    let moved = unit(1, 2, 1, 0);
    let ships = [moved];
    let mut grid = view(1, &halite, &ships, schedule);
    let (_, cmd) = grid.navigate(&moved, Pos(3, 2), 30, false);
    assert_eq!(cmd, Command::Move(1, Dir::S));
    let schedule = grid.into_schedule();
    assert_eq!(schedule.claimant(Pos(3, 1), 2), Some(9));
    assert_eq!(schedule.claimant(Pos(2, 2), 2), Some(1));
}

#[test]
fn of_two_units_bound_for_one_cell_the_first_served_gets_it() {
    let halite = vec![0; 64];
    let a = unit(1, 1, 2, 0);
    let b = unit(2, 3, 2, 0);
    let ships = [a, b];
    let mut outcomes = Vec::new();
    for _ in 0..2 {
        let mut grid = view(0, &halite, &ships, Schedule::new(8, 8));
        let first = grid.navigate(&a, Pos(2, 2), 30, false);
        let second = grid.navigate(&b, Pos(2, 2), 30, false);
        assert_eq!(first, (None, Command::Move(1, Dir::E)));
        assert_eq!(second.0, None);
        assert_ne!(second.1, Command::Move(2, Dir::W));
        let mut schedule = grid.into_schedule();
        assert_eq!(schedule.claimant(Pos(2, 2), 1), Some(1));
        let way = drain(&mut schedule, 2);
        assert_eq!(way[way.len() - 1].0, Pos(2, 2));
        assert!(way[way.len() - 1].1 > 1);
        outcomes.push((first, second, way));
    }
    assert_eq!(outcomes[0], outcomes[1]);
}

#[test]
fn a_crashing_unit_ends_on_its_target_whoever_holds_it() {
    let halite = vec![0; 64];
    let ship = unit(1, 1, 0, 0);
    let ships = [ship];
    let mut held = Schedule::new(8, 8);
    for turn in 1..=40 {
        held.reserve(Pos(0, 0), turn, 9);
    }
    let mut grid = view(0, &halite, &ships, held);
    let (displaced, cmd) = grid.navigate(&ship, Pos(0, 0), 30, true);
    assert_eq!((displaced, cmd), (Some(9), Command::Move(1, Dir::W)));
    let schedule = grid.into_schedule();
    assert_eq!(schedule.claimant(Pos(0, 0), 1), Some(1));

    let mut held = Schedule::new(8, 8);
    for turn in 1..=40 {
        held.reserve(Pos(0, 0), turn, 9);
    }
    let mut grid = view(0, &halite, &ships, held);
    let (displaced, cmd) = grid.navigate(&ship, Pos(0, 0), 3, false);
    assert_eq!(displaced, None);
    assert_ne!(cmd, Command::Move(1, Dir::W));
    let schedule = grid.into_schedule();
    assert_eq!(schedule.claimant(Pos(0, 0), 1), Some(9));
}

#[test]
fn spawning_waits_for_a_free_base_and_rounds_are_cleared() {
    let halite = vec![0; 64];
    let mut schedule = Schedule::new(8, 8);
    schedule.reserve(Pos(0, 0), 3, 4);
    schedule.reserve(Pos(5, 5), 2, 4);
    let grid = view(1, &halite, &[], schedule);
    assert!(grid.can_spawn());
    let schedule = grid.into_schedule();
    let mut grid = view(2, &halite, &[], schedule);
    assert!(!grid.can_spawn());
    grid.clear_route(4);
    assert!(grid.can_spawn());
    let mut schedule = grid.into_schedule();
    schedule.reserve(Pos(0, 0), 3, 4);
    schedule.reserve(Pos(0, 0), 4, 4);
    let mut grid = view(2, &halite, &[], schedule);
    grid.clear_round(3);
    assert!(!grid.can_spawn());
    grid.clear_round(4);
    assert!(grid.can_spawn());
    let schedule = grid.into_schedule();
    assert_eq!(schedule.claimant(Pos(0, 0), 3), None);
    assert_eq!(schedule.claimant(Pos(0, 0), 4), Some(4));
}

#[test]
fn clearing_a_round_keeps_that_round_and_the_later_ones() {
    let halite = vec![0; 25];
    let mut schedule = Schedule::new(5, 5);
    schedule.reserve(Pos(0, 0), 3, 1);
    schedule.reserve(Pos(0, 0), 4, 1);
    schedule.reserve(Pos(0, 0), 5, 1);
    let yards = [Shipyard { owner: 0, x: 0, y: 0 }];
    let mut grid = Grid::new(0, 5, 5, 4, &halite, &[], &[], &yards, schedule);
    grid.clear_round(4);
    let schedule = grid.into_schedule();
    assert_eq!(schedule.claimant(Pos(0, 0), 3), None);
    assert_eq!(schedule.claimant(Pos(0, 0), 4), Some(1));
    assert_eq!(schedule.claimant(Pos(0, 0), 5), Some(1));
}

#[test]
fn the_fallback_prefers_the_cell_with_the_fewest_threats() {
    let halite = vec![0; 64];
    let ships = [foe(7, 4, 4), foe(8, 4, 2)];
    let grid = view(0, &halite, &ships, Schedule::new(8, 8));
    assert_eq!(grid.fallback_dir(Pos(3, 3), 1), Dir::W);
    assert_eq!(grid.fallback_dir(Pos(6, 6), 1), Dir::O);
    let mut held = Schedule::new(8, 8);
    held.reserve(Pos(2, 3), 1, 9);
    held.reserve(Pos(3, 3), 1, 1);
    let grid = view(0, &halite, &ships, held);
    assert_eq!(grid.fallback_dir(Pos(3, 3), 1), Dir::N);
    assert!(grid.is_passable(Pos(3, 3), 1, 1, false, Pos(0, 0)));
    assert!(!grid.is_passable(Pos(2, 3), 1, 1, false, Pos(0, 0)));
    assert!(!grid.is_passable(Pos(2, 3), 1, 1, true, Pos(0, 0)));
    assert!(grid.is_passable(Pos(2, 3), 1, 1, true, Pos(2, 3)));
    assert!(grid.is_passable(Pos(2, 3), 2, 1, false, Pos(0, 0)));
}

#[test]
fn a_unit_with_one_way_open_finds_it() {
    let halite = vec![0; 64];
    let ship = unit(1, 3, 3, 0);
    let ships = [ship];
    let mut schedule = Schedule::new(8, 8);
    for turn in 1..=3 {
        for y in 0..8 {
            for x in 0..8 {
                let on_the_way = match turn {
                    1 => (x, y) == (3, 4),
                    2 => (x, y) == (3, 4),
                    _ => (x, y) == (4, 4),
                };
                if !on_the_way {
                    schedule.reserve(Pos(x, y), turn, 9);
                }
            }
        }
    }
    let mut grid = view(0, &halite, &ships, schedule);
    let (displaced, cmd) = grid.navigate(&ship, Pos(0, 0), 3, false);
    assert_eq!((displaced, cmd), (None, Command::Move(1, Dir::S)));
    let mut schedule = grid.into_schedule();
    assert_eq!(drain(&mut schedule, 1), vec![(Pos(3, 4), 1), (Pos(3, 4), 2), (Pos(4, 4), 3)]);
}
