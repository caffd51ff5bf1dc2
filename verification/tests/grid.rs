use maze_builder::builder::grid::{Cell, Grid, GridError, LinkDirections};

const ALL: [LinkDirections; 4] = [
    LinkDirections::North,
    LinkDirections::East,
    LinkDirections::South,
    LinkDirections::West,
];

fn opened_walls(grid: &Grid) -> usize {
    let mut count = 0;
    for row in 0..grid.rows() {
        for column in 0..grid.columns() {
            if grid.linked(row, column, LinkDirections::North) {
                count += 1;
            }
            if grid.linked(row, column, LinkDirections::East) {
                count += 1;
            }
        }
    }
    count
}

fn half_links(grid: &Grid) -> usize {
    let mut count = 0;
    for row in 0..grid.rows() {
        for column in 0..grid.columns() {
            for direction in ALL {
                if grid.linked(row, column, direction) {
                    count += 1;
                }
            }
        }
    }
    count
}

#[test]
fn new_makes_a_blank_grid() {
    let grid = Grid::new(3, 4).unwrap();
    assert_eq!(grid.rows(), 3);
    assert_eq!(grid.columns(), 4);
    assert!(grid.is_blank());
    for row in 0..3 {
        for column in 0..4 {
            assert!(grid.unlinked((row, column)));
            for direction in ALL {
                assert!(!grid.linked(row, column, direction));
            }
        }
    }
    assert_eq!(half_links(&grid), 0);
}

#[test]
fn new_refuses_zero_rows() {
    assert_eq!(Grid::new(0, 5).err(), Some(GridError::NoCells));
}

#[test]
fn new_refuses_zero_columns() {
    assert_eq!(Grid::new(5, 0).err(), Some(GridError::NoCells));
}

#[test]
fn new_refuses_zero_rows_and_columns() {
    assert_eq!(Grid::new(0, 0).err(), Some(GridError::NoCells));
}

#[test]
fn new_refuses_more_cells_than_can_be_counted() {
    assert_eq!(Grid::new(usize::MAX, 2).err(), Some(GridError::TooLarge));
    assert_eq!(Grid::new(2, usize::MAX).err(), Some(GridError::TooLarge));
    assert_eq!(Grid::new(usize::MAX, usize::MAX).err(), Some(GridError::TooLarge));
}

#[test]
fn new_accepts_a_single_cell() {
    let grid = Grid::new(1, 1).unwrap();
    assert_eq!((grid.rows(), grid.columns()), (1, 1));
    assert!(grid.is_blank());
}

#[test]
fn new_cell_has_every_wall_closed() {
    let cell = Cell::new(2, 7);
    for direction in ALL {
        assert!(!cell.linked(direction));
    }
}

#[test]
fn cell_link_opens_one_wall() {
    for direction in ALL {
        let mut cell = Cell::new(0, 0);
        cell.link(direction);
        for other in ALL {
            assert_eq!(cell.linked(other), other == direction);
        }
    }
}

#[test]
fn cell_link_twice_is_link_once() {
    let mut cell = Cell::new(1, 1);
    cell.link(LinkDirections::East);
    cell.link(LinkDirections::East);
    assert!(cell.linked(LinkDirections::East));
    assert!(!cell.linked(LinkDirections::West));
}

#[test]
fn cell_unlink_closes_one_wall() {
    let mut cell = Cell::new(1, 1);
    cell.link(LinkDirections::North);
    cell.link(LinkDirections::South);
    cell.unlink(LinkDirections::North);
    assert!(!cell.linked(LinkDirections::North));
    assert!(cell.linked(LinkDirections::South));
    cell.unlink(LinkDirections::East);
    assert!(cell.linked(LinkDirections::South));
    assert!(!cell.linked(LinkDirections::East));
}

#[test]
fn opposite_turns_each_direction_round() {
    assert_eq!(LinkDirections::North.opposite(), LinkDirections::South);
    assert_eq!(LinkDirections::South.opposite(), LinkDirections::North);
    assert_eq!(LinkDirections::East.opposite(), LinkDirections::West);
    assert_eq!(LinkDirections::West.opposite(), LinkDirections::East);
}

#[test]
fn link_opens_the_wall_from_both_sides() {
    let cases = [
        (LinkDirections::North, (2, 1), LinkDirections::South),
        (LinkDirections::South, (0, 1), LinkDirections::North),
        (LinkDirections::East, (1, 2), LinkDirections::West),
        (LinkDirections::West, (1, 0), LinkDirections::East),
    ];
    for (direction, other, back) in cases {
        let mut grid = Grid::new(3, 3).unwrap();
        grid.link(1, 1, direction);
        assert!(grid.linked(1, 1, direction));
        assert!(grid.linked(other.0, other.1, back));
        assert_eq!(half_links(&grid), 2);
        assert_eq!(opened_walls(&grid), 1);
        assert!(!grid.is_blank());
        assert!(!grid.unlinked((1, 1)));
        assert!(!grid.unlinked(other));
    }
}

#[test]
fn link_twice_is_link_once() {
    let mut grid = Grid::new(2, 2).unwrap();
    grid.link(0, 0, LinkDirections::East);
    grid.link(0, 0, LinkDirections::East);
    grid.link(0, 1, LinkDirections::West);
    assert_eq!(half_links(&grid), 2);
    assert_eq!(opened_walls(&grid), 1);
}

#[test]
fn link_off_the_edge_changes_nothing() {
    let rows = 3;
    let columns = 4;
    let mut grid = Grid::new(rows, columns).unwrap();
    grid.link(1, 1, LinkDirections::East);
    grid.link(0, 0, LinkDirections::North);
    let before = opened_walls(&grid);
    let before_halves = half_links(&grid);
    for column in 0..columns {
        grid.link(0, column, LinkDirections::South);
        grid.link(rows - 1, column, LinkDirections::North);
    }
    for row in 0..rows {
        grid.link(row, 0, LinkDirections::West);
        grid.link(row, columns - 1, LinkDirections::East);
    }
    assert_eq!(opened_walls(&grid), before);
    assert_eq!(half_links(&grid), before_halves);
    for column in 0..columns {
        assert!(!grid.linked(0, column, LinkDirections::South));
        assert!(!grid.linked(rows - 1, column, LinkDirections::North));
    }
    for row in 0..rows {
        assert!(!grid.linked(row, 0, LinkDirections::West));
        assert!(!grid.linked(row, columns - 1, LinkDirections::East));
    }
}

#[test]
fn link_off_the_edge_leaves_a_blank_grid_blank() {
    let mut grid = Grid::new(1, 1).unwrap();
    for direction in ALL {
        grid.link(0, 0, direction);
    }
    assert!(grid.is_blank());
}

#[test]
fn link_from_a_place_off_the_board_changes_nothing() {
    let mut grid = Grid::new(2, 3).unwrap();
    grid.link(2, 0, LinkDirections::South);
    grid.link(0, 3, LinkDirections::West);
    grid.link(7, 7, LinkDirections::North);
    grid.link(usize::MAX, usize::MAX, LinkDirections::East);
    assert!(grid.is_blank());
}

#[test]
fn linked_is_false_off_the_board() {
    let grid = Grid::new(2, 2).unwrap();
    for direction in ALL {
        assert!(!grid.linked(2, 0, direction));
        assert!(!grid.linked(0, 2, direction));
    }
    assert!(grid.unlinked((5, 5)));
}

#[test]
fn cell_gives_the_walls_of_a_place() {
    let mut grid = Grid::new(2, 2).unwrap();
    grid.link(0, 0, LinkDirections::North);
    let low = grid.cell(0, 0).unwrap();
    let high = grid.cell(1, 0).unwrap();
    assert!(low.linked(LinkDirections::North));
    assert!(!low.linked(LinkDirections::East));
    assert!(high.linked(LinkDirections::South));
    assert!(!high.linked(LinkDirections::North));
    assert!(grid.cell(2, 0).is_none());
    assert!(grid.cell(0, 2).is_none());
}

#[test]
fn neighbor_steps_on_the_board() {
    let grid = Grid::new(3, 4).unwrap();
    assert_eq!(grid.neighbor((1, 1), LinkDirections::North), Some((2, 1)));
    assert_eq!(grid.neighbor((1, 1), LinkDirections::South), Some((0, 1)));
    assert_eq!(grid.neighbor((1, 1), LinkDirections::East), Some((1, 2)));
    assert_eq!(grid.neighbor((1, 1), LinkDirections::West), Some((1, 0)));
    assert_eq!(grid.neighbor((2, 3), LinkDirections::North), None);
    assert_eq!(grid.neighbor((2, 3), LinkDirections::East), None);
    assert_eq!(grid.neighbor((0, 0), LinkDirections::South), None);
    assert_eq!(grid.neighbor((0, 0), LinkDirections::West), None);
    assert_eq!(grid.neighbor((3, 0), LinkDirections::South), Some((2, 0)));
    assert_eq!(grid.neighbor((0, 4), LinkDirections::West), Some((0, 3)));
    assert_eq!(grid.neighbor((usize::MAX, 0), LinkDirections::North), None);
    assert_eq!(grid.neighbor((0, usize::MAX), LinkDirections::East), None);
}

#[test]
fn neighbors_of_an_inner_cell_come_south_north_west_east() {
    let grid = Grid::new(3, 3).unwrap();
    assert_eq!(
        grid.neighbors((1, 1)),
        vec![
            ((0, 1), LinkDirections::South),
            ((2, 1), LinkDirections::North),
            ((1, 0), LinkDirections::West),
            ((1, 2), LinkDirections::East),
        ]
    );
}

#[test]
fn neighbors_of_the_corners() {
    let grid = Grid::new(2, 3).unwrap();
    assert_eq!(
        grid.neighbors((0, 0)),
        vec![((1, 0), LinkDirections::North), ((0, 1), LinkDirections::East)]
    );
    assert_eq!(
        grid.neighbors((1, 2)),
        vec![((0, 2), LinkDirections::South), ((1, 1), LinkDirections::West)]
    );
    assert_eq!(
        grid.neighbors((0, 2)),
        vec![((1, 2), LinkDirections::North), ((0, 1), LinkDirections::West)]
    );
    assert_eq!(
        grid.neighbors((1, 0)),
        vec![((0, 0), LinkDirections::South), ((1, 1), LinkDirections::East)]
    );
}

#[test]
fn a_single_cell_has_no_neighbors() {
    let grid = Grid::new(1, 1).unwrap();
    assert_eq!(grid.neighbors((0, 0)), vec![]);
    assert_eq!(grid.unlinked_neighbors((0, 0)), vec![]);
}

#[test]
fn neighbors_in_a_single_row_and_a_single_column() {
    let row = Grid::new(1, 3).unwrap();
    assert_eq!(
        row.neighbors((0, 1)),
        vec![((0, 0), LinkDirections::West), ((0, 2), LinkDirections::East)]
    );
    let column = Grid::new(3, 1).unwrap();
    assert_eq!(
        column.neighbors((1, 0)),
        vec![((0, 0), LinkDirections::South), ((2, 0), LinkDirections::North)]
    );
}

#[test]
fn unlinked_neighbors_leave_out_linked_cells() {
    let mut grid = Grid::new(3, 3).unwrap();
    grid.link(0, 1, LinkDirections::West);
    grid.link(1, 2, LinkDirections::North);
    assert_eq!(
        grid.unlinked_neighbors((1, 1)),
        vec![((2, 1), LinkDirections::North), ((1, 0), LinkDirections::West)]
    );
    assert_eq!(grid.neighbors((1, 1)).len(), 4);
}

#[test]
fn cell_locations_are_row_major() {
    let grid = Grid::new(2, 3).unwrap();
    assert_eq!(
        grid.cell_locations(),
        vec![(0, 0), (0, 1), (0, 2), (1, 0), (1, 1), (1, 2)]
    );
    assert_eq!(Grid::new(1, 1).unwrap().cell_locations(), vec![(0, 0)]);
}

#[test]
fn is_blank_sees_one_open_wall() {
    let mut grid = Grid::new(4, 4).unwrap();
    assert!(grid.is_blank());
    grid.link(3, 3, LinkDirections::West);
    assert!(!grid.is_blank());
}
