use fleet_planner::command::push_decimal;
use fleet_planner::command::Command;
use fleet_planner::command::Queue;
use fleet_planner::torus::Dir;

#[test]
fn orders_have_the_text_the_game_reads() {
    assert_eq!(Command::Spawn.to_string(), "g");
    assert_eq!(Command::Transform(7).to_string(), "c 7");
    assert_eq!(Command::Transform(0).to_string(), "c 0");
    assert_eq!(Command::Move(12, Dir::N).to_string(), "m 12 n");
    assert_eq!(Command::Move(3, Dir::S).to_string(), "m 3 s");
    assert_eq!(Command::Move(65535, Dir::E).to_string(), "m 65535 e");
    assert_eq!(Command::Move(100, Dir::W).to_string(), "m 100 w");
    assert_eq!(Command::Move(9, Dir::O).to_string(), "m 9 o");
}

#[test]
fn directions_have_one_letter_each() {
    assert_eq!(Dir::N.to_string(), "n");
    assert_eq!(Dir::S.to_string(), "s");
    assert_eq!(Dir::E.to_string(), "e");
    assert_eq!(Dir::W.to_string(), "w");
    assert_eq!(Dir::O.to_string(), "o");
}

#[test]
fn numbers_are_written_in_decimal() {
    for n in [0usize, 1, 9, 10, 11, 99, 100, 101, 4096, 65535, 1234567890] {
        let mut text = String::from("x");
        push_decimal(&mut text, n);
        assert_eq!(text, format!("x{}", n));
    }
}

#[test]
fn a_queue_gathers_orders_with_a_blank_after_each() {
    let mut q = Queue::new();
    assert_eq!(q.flush(), "");
    q.push(&Command::Move(1, Dir::N));
    q.push(&Command::Spawn);
    q.push(&Command::Transform(20));
    assert_eq!(q.flush(), "m 1 n g c 20 ");
    assert_eq!(q.flush(), "");
    q.push(&Command::Move(2, Dir::O));
    assert_eq!(q.flush(), "m 2 o ");
}
