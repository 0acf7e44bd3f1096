use fleet_planner::orbit::push_signed;
use fleet_planner::orbit::Command;
use fleet_planner::orbit::CommandQueue;

#[test]
fn orders_to_ships_have_the_text_the_game_reads() {
    let mut text = String::new();
    Command::Dock(3, 12).write(&mut text);
    assert_eq!(text, "d 3 12");
    let mut text = String::new();
    Command::Undock(40).write(&mut text);
    assert_eq!(text, "u 40");
    let mut text = String::new();
    Command::Thrust(7, 5, 270).write(&mut text);
    assert_eq!(text, "t 7 5 270");
    let mut text = String::new();
    Command::Thrust(0, -3, -45).write(&mut text);
    assert_eq!(text, "t 0 -3 -45");
}

#[test]
fn signed_numbers_are_written_in_decimal() {
    for n in [0i32, 1, -1, 9, -10, 360, -360, i32::MAX, i32::MIN] {
        let mut text = String::from("x");
        push_signed(&mut text, n);
        assert_eq!(text, format!("x{}", n));
    }
}

#[test]
fn a_command_queue_gathers_orders_with_a_blank_after_each() {
    let mut q = CommandQueue::new();
    assert_eq!(q.flush(), "");
    q.push(&Command::Dock(1, 2));
    q.push(&Command::Undock(3));
    q.push(&Command::Thrust(4, 7, 90));
    assert_eq!(q.flush(), "d 1 2 u 3 t 4 7 90 ");
    assert_eq!(q.flush(), "");
}
