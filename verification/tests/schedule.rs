use std::collections::VecDeque;

use fleet_planner::data::Pos;
use fleet_planner::schedule::key_of;
use fleet_planner::schedule::turn_of;
use fleet_planner::schedule::Schedule;

#[test]
fn a_new_store_is_empty() {
    let s = Schedule::new(5, 4);
    assert_eq!(s.grid_width(), 5);
    assert_eq!(s.grid_height(), 4);
    assert_eq!(s.claimant(Pos(0, 0), 0), None);
    assert!(!s.has_cached_route(1));
    assert_eq!(s.peek_next(1), None);
}

#[test]
fn slot_keys_are_distinct_and_hold_the_turn() {
    assert_eq!(key_of(Pos(0, 0), 0), 0);
    assert_eq!(key_of(Pos(3, 2), 0), 2 * 128 + 3);
    assert_eq!(key_of(Pos(3, 2), 5), 5 * 16384 + 2 * 128 + 3);
    assert_eq!(turn_of(key_of(Pos(127, 127), 9)), 9);
    assert_eq!(turn_of(key_of(Pos(0, 0), 32767)), 32767);
    assert_ne!(key_of(Pos(1, 0), 0), key_of(Pos(0, 1), 0));
    assert_ne!(key_of(Pos(0, 0), 1), key_of(Pos(0, 127), 0));
}

#[test]
fn a_slot_has_one_holder_and_a_second_claim_reports_the_first() {
    let mut s = Schedule::new(5, 5);
    assert_eq!(s.reserve(Pos(2, 2), 3, 7), None);
    assert_eq!(s.claimant(Pos(2, 2), 3), Some(7));
    assert_eq!(s.reserve(Pos(2, 2), 3, 7), None);
    assert_eq!(s.reserve(Pos(2, 2), 3, 8), Some(7));
    assert_eq!(s.claimant(Pos(2, 2), 3), Some(8));
    assert_eq!(s.claimant(Pos(2, 2), 4), None);
    assert_eq!(s.claimant(Pos(2, 3), 3), None);
    assert_eq!(s.reserve(Pos(2, 2), 4, 7), None);
    assert_eq!(s.claimant(Pos(2, 2), 3), Some(8));
    assert_eq!(s.claimant(Pos(2, 2), 4), Some(7));
}

#[test]
fn release_frees_only_the_slot_named() {
    let mut s = Schedule::new(5, 5);
    s.reserve(Pos(1, 1), 2, 4);
    s.reserve(Pos(1, 2), 2, 4);
    s.release(Pos(1, 1), 2);
    assert_eq!(s.claimant(Pos(1, 1), 2), None);
    assert_eq!(s.claimant(Pos(1, 2), 2), Some(4));
    s.release(Pos(1, 1), 2);
    assert_eq!(s.claimant(Pos(1, 1), 2), None);
}

fn way(entries: &[(i8, i8, i16)]) -> VecDeque<(Pos, i16)> {
    entries.iter().map(|&(x, y, t)| (Pos(x, y), t)).collect()
}

#[test]
fn routes_are_peeked_and_popped_from_the_front() {
    let mut s = Schedule::new(5, 5);
    s.set_route(3, way(&[(0, 0, 1), (1, 0, 2), (1, 1, 3)]));
    assert!(s.has_cached_route(3));
    assert!(!s.has_cached_route(4));
    assert_eq!(s.peek_next(3), Some((Pos(0, 0), 1)));
    assert_eq!(s.pop_next(3), Some((Pos(0, 0), 1)));
    assert_eq!(s.peek_next(3), Some((Pos(1, 0), 2)));
    assert_eq!(s.pop_next(3), Some((Pos(1, 0), 2)));
    assert_eq!(s.pop_next(3), Some((Pos(1, 1), 3)));
    assert!(!s.has_cached_route(3));
    assert_eq!(s.pop_next(3), None);
    assert_eq!(s.peek_next(3), None);
}

#[test]
fn adopt_claims_every_slot_of_the_route() {
    let mut s = Schedule::new(5, 5);
    s.reserve(Pos(1, 0), 2, 9);
    s.reserve(Pos(4, 4), 2, 9);
    let displaced = s.adopt(3, way(&[(0, 0, 1), (1, 0, 2), (1, 1, 3)]));
    assert_eq!(displaced, None);
    assert_eq!(s.claimant(Pos(0, 0), 1), Some(3));
    assert_eq!(s.claimant(Pos(1, 0), 2), Some(3));
    assert_eq!(s.claimant(Pos(1, 1), 3), Some(3));
    assert_eq!(s.claimant(Pos(4, 4), 2), Some(9));
    assert_eq!(s.peek_next(3), Some((Pos(0, 0), 1)));
    let displaced = s.adopt(5, way(&[(0, 0, 1), (0, 1, 2)]));
    assert_eq!(displaced, Some(3));
    assert_eq!(s.claimant(Pos(0, 0), 1), Some(5));
}

#[test]
fn invalidate_drops_route_and_slots_of_one_unit_and_is_idempotent() {
    let mut s = Schedule::new(5, 5);
    s.adopt(3, way(&[(0, 0, 1), (1, 0, 2)]));
    s.adopt(4, way(&[(2, 2, 1), (2, 3, 2)]));
    s.reserve(Pos(4, 4), 7, 3);
    s.invalidate(3);
    assert!(!s.has_cached_route(3));
    assert_eq!(s.claimant(Pos(0, 0), 1), None);
    assert_eq!(s.claimant(Pos(1, 0), 2), None);
    assert_eq!(s.claimant(Pos(4, 4), 7), None);
    assert!(s.has_cached_route(4));
    assert_eq!(s.claimant(Pos(2, 2), 1), Some(4));
    assert_eq!(s.claimant(Pos(2, 3), 2), Some(4));
    s.invalidate(3);
    assert!(!s.has_cached_route(3));
    assert!(s.has_cached_route(4));
    assert_eq!(s.claimant(Pos(2, 2), 1), Some(4));
    assert_eq!(s.claimant(Pos(2, 3), 2), Some(4));
}

#[test]
fn clear_past_drops_only_the_turns_before() {
    let mut s = Schedule::new(5, 5);
    s.reserve(Pos(1, 1), 4, 2);
    s.reserve(Pos(1, 1), 5, 2);
    s.reserve(Pos(1, 1), 6, 2);
    s.reserve(Pos(3, 0), 0, 8);
    s.clear_past(5);
    assert_eq!(s.claimant(Pos(1, 1), 4), None);
    assert_eq!(s.claimant(Pos(3, 0), 0), None);
    assert_eq!(s.claimant(Pos(1, 1), 5), Some(2));
    assert_eq!(s.claimant(Pos(1, 1), 6), Some(2));
    s.clear_past(0);
    assert_eq!(s.claimant(Pos(1, 1), 5), Some(2));
}
