use maze_builder::builder::cells::{position, remove_cell};
use maze_builder::builder::grid::{step_on_board, LinkDirections};
use maze_builder::builder::visited::Visited;

#[test]
fn a_new_set_is_empty() {
    let visited = Visited::new(3, 2);
    for row in 0..4 {
        for column in 0..3 {
            assert!(!visited.contains((row, column)));
        }
    }
}

#[test]
fn insert_marks_one_cell() {
    let mut visited = Visited::new(3, 2);
    visited.insert((2, 1));
    for row in 0..3 {
        for column in 0..2 {
            assert_eq!(visited.contains((row, column)), (row, column) == (2, 1));
        }
    }
    visited.insert((2, 1));
    visited.insert((0, 0));
    assert!(visited.contains((2, 1)));
    assert!(visited.contains((0, 0)));
    assert!(!visited.contains((1, 1)));
    assert!(!visited.contains((3, 1)));
    assert!(!visited.contains((2, 2)));
}

#[test]
fn neighbors_are_split_by_their_marks() {
    let mut visited = Visited::new(3, 3);
    visited.insert((0, 1));
    visited.insert((1, 2));
    assert_eq!(
        visited.neighbors((1, 1), true),
        vec![((0, 1), LinkDirections::South), ((1, 2), LinkDirections::East)]
    );
    assert_eq!(
        visited.neighbors((1, 1), false),
        vec![((2, 1), LinkDirections::North), ((1, 0), LinkDirections::West)]
    );
    assert_eq!(visited.neighbors((2, 0), true), vec![]);
    assert_eq!(
        visited.neighbors((2, 0), false),
        vec![((1, 0), LinkDirections::South), ((2, 1), LinkDirections::East)]
    );
}

#[test]
fn the_hunt_finds_nothing_next_to_an_empty_set() {
    assert_eq!(Visited::new(3, 3).hunt(), None);
}

#[test]
fn the_hunt_finds_nothing_when_every_cell_is_marked() {
    let mut visited = Visited::new(2, 2);
    for row in 0..2 {
        for column in 0..2 {
            visited.insert((row, column));
        }
    }
    assert_eq!(visited.hunt(), None);
    let mut single = Visited::new(1, 1);
    single.insert((0, 0));
    assert_eq!(single.hunt(), None);
}

#[test]
fn the_hunt_goes_from_the_top_row_down_and_from_column_zero_up() {
    let mut visited = Visited::new(3, 3);
    visited.insert((1, 1));
    assert_eq!(visited.hunt(), Some(((2, 1), LinkDirections::South)));
    visited.insert((2, 1));
    assert_eq!(visited.hunt(), Some(((2, 0), LinkDirections::East)));
    visited.insert((2, 0));
    assert_eq!(visited.hunt(), Some(((2, 2), LinkDirections::West)));
    visited.insert((2, 2));
    assert_eq!(visited.hunt(), Some(((1, 0), LinkDirections::North)));
    visited.insert((1, 0));
    assert_eq!(visited.hunt(), Some(((1, 2), LinkDirections::North)));
    visited.insert((1, 2));
    assert_eq!(visited.hunt(), Some(((0, 0), LinkDirections::North)));
}

#[test]
fn the_hunt_names_the_first_marked_neighbor() {
    let mut visited = Visited::new(3, 3);
    visited.insert((0, 1));
    visited.insert((2, 1));
    visited.insert((1, 0));
    visited.insert((1, 2));
    visited.insert((2, 0));
    visited.insert((2, 2));
    assert_eq!(visited.hunt(), Some(((1, 1), LinkDirections::South)));
}

#[test]
fn position_is_the_first_index() {
    let list = vec![(0, 0), (0, 1), (1, 0), (0, 1)];
    assert_eq!(position(&list, (0, 0)), Some(0));
    assert_eq!(position(&list, (0, 1)), Some(1));
    assert_eq!(position(&list, (1, 0)), Some(2));
    assert_eq!(position(&list, (1, 1)), None);
    assert_eq!(position(&vec![], (0, 0)), None);
}

#[test]
fn remove_cell_takes_the_first_entry_out() {
    let mut list = vec![(0, 0), (0, 1), (1, 0), (0, 1)];
    remove_cell(&mut list, (0, 1));
    assert_eq!(list, vec![(0, 0), (1, 0), (0, 1)]);
    remove_cell(&mut list, (5, 5));
    assert_eq!(list, vec![(0, 0), (1, 0), (0, 1)]);
    remove_cell(&mut list, (0, 0));
    remove_cell(&mut list, (0, 1));
    remove_cell(&mut list, (1, 0));
    assert_eq!(list, vec![]);
}

#[test]
fn step_on_board_stays_on_the_board() {
    assert_eq!(step_on_board(2, 2, (0, 0), LinkDirections::North), Some((1, 0)));
    assert_eq!(step_on_board(2, 2, (1, 0), LinkDirections::North), None);
    assert_eq!(step_on_board(2, 2, (1, 1), LinkDirections::West), Some((1, 0)));
    assert_eq!(step_on_board(2, 2, (1, 0), LinkDirections::West), None);
    assert_eq!(step_on_board(1, 1, (0, 0), LinkDirections::East), None);
    assert_eq!(step_on_board(1, 1, (0, 0), LinkDirections::South), None);
    assert_eq!(step_on_board(0, 0, (0, 0), LinkDirections::South), None);
}
