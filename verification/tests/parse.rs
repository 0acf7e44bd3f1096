use fleet_planner::data::Dropoff;
use fleet_planner::data::Ship;
use fleet_planner::data::Shipyard;
use fleet_planner::parse::numbers;
use fleet_planner::parse::Progress;
use fleet_planner::parse::Reader;

#[test]
fn a_line_of_numbers_is_read_whatever_the_blanks() {
    assert_eq!(numbers(b"12 -3 +7"), Some(vec![12, -3, 7]));
    assert_eq!(numbers(b"  12\t-3 \r\n"), Some(vec![12, -3]));
    assert_eq!(numbers(b""), Some(vec![]));
    assert_eq!(numbers(b"   "), Some(vec![]));
    assert_eq!(numbers(b"0"), Some(vec![0]));
    assert_eq!(numbers(b"007"), Some(vec![7]));
    assert_eq!(numbers(b"-0"), Some(vec![0]));
    assert_eq!(numbers(b"9223372036854775807"), Some(vec![i64::MAX]));
    assert_eq!(numbers(b"-9223372036854775807"), Some(vec![-i64::MAX]));
}

#[test]
fn a_line_with_anything_but_numbers_is_refused() {
    assert_eq!(numbers(b"12 x"), None);
    assert_eq!(numbers(b"1.5"), None);
    assert_eq!(numbers(b"-"), None);
    assert_eq!(numbers(b"+ 1"), None);
    assert_eq!(numbers(b"1-2"), None);
    assert_eq!(numbers(b"--1"), None);
    assert_eq!(numbers(b"9223372036854775808"), None);
    assert_eq!(numbers(b"99999999999999999999"), None);
    assert_eq!(numbers(b"1 2 3 four"), None);
}

fn feed(reader: &mut Reader, line: &str) -> Progress {
    reader.feed(&numbers(line.as_bytes()).expect("a line of numbers"))
}

#[test]
fn the_lines_of_a_game_add_up_to_its_snapshots() {
    let mut reader = Reader::new();
    assert_eq!(feed(&mut reader, "2 1"), Progress::More);
    assert_eq!(feed(&mut reader, "1 3 2"), Progress::More);
    assert_eq!(feed(&mut reader, "0 0 1"), Progress::More);
    assert_eq!(feed(&mut reader, "4 3"), Progress::More);
    assert_eq!(feed(&mut reader, "1 2 3 4"), Progress::More);
    assert_eq!(feed(&mut reader, "5 6 7 8"), Progress::More);
    assert_eq!(feed(&mut reader, "9 10 11 12"), Progress::Done);
    {
        let state = reader.state();
        assert_eq!(state.id, 1);
        assert_eq!((state.width, state.height, state.round), (4, 3, 0));
        assert_eq!(state.scores, vec![0, 0]);
        assert_eq!(
            state.yards,
            vec![Shipyard { owner: 0, x: 0, y: 1 }, Shipyard { owner: 1, x: 3, y: 2 }]
        );
        assert_eq!(state.halite, (1..=12).collect::<Vec<i32>>());
        assert!(state.ships.is_empty());
        assert!(state.is_valid());
    }
    assert_eq!(feed(&mut reader, "1"), Progress::More);
    assert_eq!(feed(&mut reader, "0 1 1 4000"), Progress::More);
    assert_eq!(feed(&mut reader, "5 1 1 250"), Progress::More);
    assert_eq!(feed(&mut reader, "0 2 2"), Progress::More);
    assert_eq!(feed(&mut reader, "1 2 0 3000"), Progress::More);
    assert_eq!(feed(&mut reader, "6 3 2 0"), Progress::More);
    assert_eq!(feed(&mut reader, "7 3 1 10"), Progress::More);
    assert_eq!(feed(&mut reader, "2"), Progress::More);
    assert_eq!(feed(&mut reader, "1 1 77"), Progress::More);
    assert_eq!(feed(&mut reader, "3 2 0"), Progress::Done);
    {
        let state = reader.state();
        assert_eq!(state.round, 1);
        assert_eq!(state.scores, vec![4000, 3000]);
        assert_eq!(
            state.ships,
            vec![
                Ship { owner: 0, id: 5, x: 1, y: 1, halite: 250 },
                Ship { owner: 1, id: 6, x: 3, y: 2, halite: 0 },
                Ship { owner: 1, id: 7, x: 3, y: 1, halite: 10 },
            ]
        );
        assert_eq!(state.drops, vec![Dropoff { owner: 0, x: 2, y: 2 }]);
        assert_eq!(state.halite, vec![1, 2, 3, 4, 5, 77, 7, 8, 9, 10, 11, 0]);
        assert!(state.is_valid());
    }
    assert_eq!(feed(&mut reader, "2"), Progress::More);
    assert_eq!(feed(&mut reader, "1 0 0 10"), Progress::More);
    assert_eq!(feed(&mut reader, "0 0 0 20"), Progress::More);
    assert_eq!(feed(&mut reader, "0"), Progress::Done);
    let state = reader.state();
    assert_eq!(state.round, 2);
    assert_eq!(state.scores, vec![20, 10]);
    assert!(state.ships.is_empty());
    assert!(state.drops.is_empty());
}

#[test]
fn a_line_that_is_not_expected_changes_nothing() {
    let mut reader = Reader::new();
    assert_eq!(feed(&mut reader, "2"), Progress::Bad);
    assert_eq!(feed(&mut reader, "0 0"), Progress::Bad);
    assert_eq!(feed(&mut reader, "2 2"), Progress::Bad);
    assert_eq!(feed(&mut reader, "256 0"), Progress::Bad);
    assert_eq!(feed(&mut reader, "1 0"), Progress::More);
    assert_eq!(feed(&mut reader, "1 0 0"), Progress::Bad);
    assert_eq!(feed(&mut reader, "0 128 0"), Progress::Bad);
    assert_eq!(feed(&mut reader, "0 1 1"), Progress::More);
    assert_eq!(feed(&mut reader, "0 2"), Progress::Bad);
    assert_eq!(feed(&mut reader, "128 2"), Progress::Bad);
    assert_eq!(feed(&mut reader, "2 2"), Progress::More);
    assert_eq!(feed(&mut reader, "1"), Progress::Bad);
    assert_eq!(feed(&mut reader, "1 2 3"), Progress::Bad);
    assert_eq!(feed(&mut reader, "1 2147483648"), Progress::Bad);
    assert_eq!(feed(&mut reader, "1 2"), Progress::More);
    assert_eq!(feed(&mut reader, "3 4"), Progress::Done);
    assert_eq!(reader.state().halite, vec![1, 2, 3, 4]);
    assert_eq!(feed(&mut reader, "-1"), Progress::Bad);
    assert_eq!(feed(&mut reader, "32768"), Progress::Bad);
    assert_eq!(feed(&mut reader, "5"), Progress::More);
    assert_eq!(feed(&mut reader, "1 0 0 0"), Progress::Bad);
    assert_eq!(feed(&mut reader, "0 1 0"), Progress::Bad);
    assert_eq!(feed(&mut reader, "0 1 0 9"), Progress::More);
    assert_eq!(feed(&mut reader, "3 1 1"), Progress::Bad);
    assert_eq!(feed(&mut reader, "65536 1 1 0"), Progress::Bad);
    assert_eq!(feed(&mut reader, "3 1 1 0"), Progress::More);
    assert_eq!(feed(&mut reader, "1 1"), Progress::Bad);
    assert_eq!(feed(&mut reader, "1"), Progress::More);
    assert_eq!(feed(&mut reader, "2 0 5"), Progress::Bad);
    assert_eq!(feed(&mut reader, "0 2 5"), Progress::Bad);
    assert_eq!(feed(&mut reader, "1 1 5"), Progress::Done);
    assert_eq!(reader.state().halite, vec![1, 2, 3, 5]);
    assert_eq!(reader.state().round, 5);
}

#[test]
fn a_new_reader_holds_a_blank_snapshot() {
    let reader = Reader::new();
    let state = reader.state();
    assert_eq!((state.id, state.width, state.height, state.round), (0, 0, 0, 0));
    assert!(state.scores.is_empty());
    assert!(state.drops.is_empty());
    assert!(state.ships.is_empty());
    assert!(state.yards.is_empty());
    assert!(state.halite.is_empty());
    assert!(!state.is_valid());
}
