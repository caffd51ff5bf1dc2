use maze_builder::builder::grid::{Grid, LinkDirections};

#[test]
fn a_blank_cell_is_drawn_with_a_star() {
    let grid = Grid::new(1, 1).unwrap();
    assert_eq!(grid.render(), "____\n||*|\n");
}

#[test]
fn a_blank_grid_is_drawn_row_by_row() {
    let grid = Grid::new(2, 3).unwrap();
    assert_eq!(grid.render(), "__________\n||*||*||*|\n||*||*||*|\n");
}

#[test]
fn the_rule_has_three_underscores_for_each_column_and_one_more() {
    for columns in 1..7 {
        let grid = Grid::new(1, columns).unwrap();
        let text = grid.render();
        let first = text.lines().next().unwrap();
        assert_eq!(first, "_".repeat(3 * columns + 1));
    }
}

#[test]
fn a_corridor_has_a_floor_and_no_walls_inside() {
    let mut grid = Grid::new(1, 3).unwrap();
    grid.link(0, 0, LinkDirections::East);
    grid.link(0, 1, LinkDirections::East);
    assert_eq!(grid.render(), "__________\n|________|\n");
}

#[test]
fn the_top_row_is_drawn_first() {
    let mut grid = Grid::new(2, 1).unwrap();
    grid.link(0, 0, LinkDirections::North);
    assert_eq!(grid.render(), "____\n|  |\n|__|\n");
}

#[test]
fn glyph_of_every_set_of_open_walls() {
    let table = [
        ((true, false, false, false), "__|"),
        ((true, true, false, false), "___"),
        ((true, true, false, true), "___"),
        ((true, true, true, false), "   "),
        ((true, true, true, true), "   "),
        ((true, false, true, false), "  |"),
        ((true, false, true, true), "  |"),
        ((true, false, false, true), "__|"),
        ((false, false, false, false), "|*|"),
        ((false, true, false, false), "___"),
        ((false, true, false, true), "___"),
        ((false, true, true, false), "   "),
        ((false, true, true, true), "   "),
        ((false, false, true, false), "  |"),
        ((false, false, true, true), "  |"),
        ((false, false, false, true), "__|"),
    ];
    for ((north, east, south, west), block) in table {
        let mut grid = Grid::new(3, 3).unwrap();
        if north {
            grid.link(1, 1, LinkDirections::North);
        }
        if east {
            grid.link(1, 1, LinkDirections::East);
        }
        if south {
            grid.link(1, 1, LinkDirections::South);
        }
        if west {
            grid.link(1, 1, LinkDirections::West);
        }
        assert_eq!(grid.glyph(1, 1), block);
    }
}

#[test]
fn a_small_maze_is_drawn() {
    let mut grid = Grid::new(2, 2).unwrap();
    grid.link(0, 0, LinkDirections::East);
    grid.link(0, 1, LinkDirections::North);
    grid.link(1, 1, LinkDirections::West);
    assert_eq!(grid.render(), "_______\n|___  |\n|_____|\n");
}
