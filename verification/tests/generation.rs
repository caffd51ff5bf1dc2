use maze_builder::builder::grid::{Grid, LinkDirections};
use maze_builder::builder::{
    aldous_broder, aldous_broder_seeded, aldous_broder_within, backtracker, backtracker_seeded,
    hunt_and_kill, hunt_and_kill_seeded, sidewinder, sidewinder_seeded, wilsions_seeded, wilsons,
    wilsons_within,
};

const ALL: [LinkDirections; 4] = [
    LinkDirections::North,
    LinkDirections::East,
    LinkDirections::South,
    LinkDirections::West,
];

const SIZES: [(usize, usize); 12] = [
    (1, 1),
    (1, 2),
    (2, 1),
    (2, 2),
    (1, 7),
    (7, 1),
    (2, 5),
    (3, 3),
    (3, 4),
    (5, 4),
    (6, 6),
    (9, 13),
];

fn step(cell: (usize, usize), direction: LinkDirections) -> (isize, isize) {
    let (row, column) = (cell.0 as isize, cell.1 as isize);
    match direction {
        LinkDirections::North => (row + 1, column),
        LinkDirections::South => (row - 1, column),
        LinkDirections::East => (row, column + 1),
        LinkDirections::West => (row, column - 1),
    }
}

fn degree(grid: &Grid, cell: (usize, usize)) -> usize {
    ALL.iter().filter(|d| grid.linked(cell.0, cell.1, **d)).count()
}

fn opened_walls(grid: &Grid) -> usize {
    let mut count = 0;
    for cell in grid.cell_locations() {
        if grid.linked(cell.0, cell.1, LinkDirections::North) {
            count += 1;
        }
        if grid.linked(cell.0, cell.1, LinkDirections::East) {
            count += 1;
        }
    }
    count
}

fn links_of(grid: &Grid) -> Vec<((usize, usize), LinkDirections)> {
    let mut links = Vec::new();
    for cell in grid.cell_locations() {
        for direction in ALL {
            if grid.linked(cell.0, cell.1, direction) {
                links.push((cell, direction));
            }
        }
    }
    links
}

fn assert_symmetric(grid: &Grid) {
    for (cell, direction) in links_of(grid) {
        let (row, column) = step(cell, direction);
        assert!(row >= 0 && (row as usize) < grid.rows());
        assert!(column >= 0 && (column as usize) < grid.columns());
        assert!(grid.linked(row as usize, column as usize, direction.opposite()));
    }
}

fn reached_from_origin(grid: &Grid) -> usize {
    let mut seen = vec![vec![false; grid.columns()]; grid.rows()];
    let mut pending = vec![(0usize, 0usize)];
    seen[0][0] = true;
    let mut count = 1;
    while let Some(cell) = pending.pop() {
        for direction in ALL {
            if grid.linked(cell.0, cell.1, direction) {
                let (row, column) = step(cell, direction);
                let next = (row as usize, column as usize);
                if !seen[next.0][next.1] {
                    seen[next.0][next.1] = true;
                    count += 1;
                    pending.push(next);
                }
            }
        }
    }
    count
}

fn assert_perfect(grid: &Grid) {
    let cells = grid.rows() * grid.columns();
    assert_symmetric(grid);
    assert_eq!(opened_walls(grid), cells - 1);
    assert_eq!(links_of(grid).len(), 2 * (cells - 1));
    assert_eq!(reached_from_origin(grid), cells);
}

fn made(make: fn(&mut Grid, u64), rows: usize, columns: usize, seed: u64) -> Grid {
    let mut grid = Grid::new(rows, columns).unwrap();
    assert!(grid.is_blank());
    make(&mut grid, seed);
    grid
}

fn assert_all_perfect(make: fn(&mut Grid, u64)) {
    for (rows, columns) in SIZES {
        for seed in [0, 1, 2, 3, 17, 255, 65_536, u64::MAX] {
            let grid = made(make, rows, columns, seed);
            assert_eq!((grid.rows(), grid.columns()), (rows, columns));
            assert_perfect(&grid);
        }
    }
}

fn assert_repeatable(make: fn(&mut Grid, u64)) {
    for (rows, columns) in SIZES {
        for seed in [0, 2, 99, u64::MAX] {
            let first = made(make, rows, columns, seed);
            let second = made(make, rows, columns, seed);
            assert_eq!(links_of(&first), links_of(&second));
            assert_eq!(first.render(), second.render());
        }
    }
}

fn assert_seed_matters(make: fn(&mut Grid, u64)) {
    let first = made(make, 6, 6, 0).render();
    assert!((1..40).any(|seed| made(make, 6, 6, seed).render() != first));
}

fn assert_single_cell_stays_blank(make: fn(&mut Grid, u64)) {
    for seed in [0, 1, 2, 12_345, u64::MAX] {
        let grid = made(make, 1, 1, seed);
        assert!(grid.is_blank());
        assert_eq!(links_of(&grid), vec![]);
        assert_perfect(&grid);
    }
}

#[test]
fn sidewinder_makes_perfect_mazes() {
    assert_all_perfect(sidewinder_seeded);
}

#[test]
fn aldous_broder_makes_perfect_mazes() {
    assert_all_perfect(aldous_broder_seeded);
}

#[test]
fn wilsons_makes_perfect_mazes() {
    assert_all_perfect(wilsions_seeded);
}

#[test]
fn hunt_and_kill_makes_perfect_mazes() {
    assert_all_perfect(hunt_and_kill_seeded);
}

#[test]
fn backtracker_makes_perfect_mazes() {
    assert_all_perfect(backtracker_seeded);
}

#[test]
fn sidewinder_is_repeatable() {
    assert_repeatable(sidewinder_seeded);
}

#[test]
fn aldous_broder_is_repeatable() {
    assert_repeatable(aldous_broder_seeded);
}

#[test]
fn wilsons_is_repeatable() {
    assert_repeatable(wilsions_seeded);
}

#[test]
fn hunt_and_kill_is_repeatable() {
    assert_repeatable(hunt_and_kill_seeded);
}

#[test]
fn backtracker_is_repeatable() {
    assert_repeatable(backtracker_seeded);
}

#[test]
fn sidewinder_depends_on_the_seed() {
    assert_seed_matters(sidewinder_seeded);
}

#[test]
fn aldous_broder_depends_on_the_seed() {
    assert_seed_matters(aldous_broder_seeded);
}

#[test]
fn wilsons_depends_on_the_seed() {
    assert_seed_matters(wilsions_seeded);
}

#[test]
fn hunt_and_kill_depends_on_the_seed() {
    assert_seed_matters(hunt_and_kill_seeded);
}

#[test]
fn backtracker_depends_on_the_seed() {
    assert_seed_matters(backtracker_seeded);
}

#[test]
fn sidewinder_leaves_a_single_cell_blank() {
    assert_single_cell_stays_blank(sidewinder_seeded);
}

#[test]
fn aldous_broder_leaves_a_single_cell_blank() {
    assert_single_cell_stays_blank(aldous_broder_seeded);
}

#[test]
fn wilsons_leaves_a_single_cell_blank() {
    assert_single_cell_stays_blank(wilsions_seeded);
}

#[test]
fn hunt_and_kill_leaves_a_single_cell_blank() {
    assert_single_cell_stays_blank(hunt_and_kill_seeded);
}

#[test]
fn backtracker_leaves_a_single_cell_blank() {
    assert_single_cell_stays_blank(backtracker_seeded);
}

#[test]
fn sidewinder_on_one_row_is_a_corridor() {
    for columns in 1..12 {
        for seed in [0, 1, 2, 3, 1_000] {
            let grid = made(sidewinder_seeded, 1, columns, seed);
            for column in 0..columns - 1 {
                assert!(grid.linked(0, column, LinkDirections::East));
                assert!(grid.linked(0, column + 1, LinkDirections::West));
            }
            assert_eq!(opened_walls(&grid), columns - 1);
            assert_eq!(links_of(&grid).len(), 2 * (columns - 1));
        }
    }
}

#[test]
fn sidewinder_top_row_is_a_corridor() {
    for (rows, columns) in SIZES {
        for seed in [0, 5, 77] {
            let grid = made(sidewinder_seeded, rows, columns, seed);
            for column in 0..columns - 1 {
                assert!(grid.linked(rows - 1, column, LinkDirections::East));
            }
            for column in 0..columns {
                assert!(!grid.linked(rows - 1, column, LinkDirections::North));
            }
        }
    }
}

#[test]
fn sidewinder_opens_one_wall_northward_from_each_run() {
    let grid = made(sidewinder_seeded, 6, 9, 4);
    for row in 0..5 {
        let mut northward = 0;
        for column in 0..9 {
            if grid.linked(row, column, LinkDirections::North) {
                northward += 1;
            }
            if !grid.linked(row, column, LinkDirections::East) {
                assert_eq!(northward, 1);
                northward = 0;
            }
        }
    }
}

#[test]
fn backtracker_on_two_by_two_is_a_path() {
    for seed in 0..50 {
        let grid = made(backtracker_seeded, 2, 2, seed);
        assert_perfect(&grid);
        assert_eq!(opened_walls(&grid), 3);
        let mut ends = 0;
        for cell in grid.cell_locations() {
            let walls = degree(&grid, cell);
            assert!(walls == 1 || walls == 2);
            if walls == 1 {
                ends += 1;
            }
        }
        assert_eq!(ends, 2);
    }
}

#[test]
fn sidewinder_with_seed_two() {
    let grid = made(sidewinder_seeded, 3, 4, 2);
    assert_eq!(grid.render(), "_____________\n|___        |\n|   __|__|__|\n|___________|\n");
}

#[test]
fn sidewinder_with_seed_seven() {
    let grid = made(sidewinder_seeded, 4, 5, 7);
    assert_eq!(
        grid.render(),
        "________________\n|      ______  |\n|  |      __|  |\n|  |__|__|     |\n|________|__|__|\n"
    );
}

#[test]
fn backtracker_with_seed_two() {
    let grid = made(backtracker_seeded, 3, 4, 2);
    assert_eq!(grid.render(), "_____________\n|  |     |  |\n|  |__|___  |\n|___________|\n");
}

#[test]
fn backtracker_with_seed_seven() {
    let grid = made(backtracker_seeded, 4, 5, 7);
    assert_eq!(
        grid.render(),
        "________________\n|___   __|___  |\n|     |     |  |\n|  |__|  |_____|\n|______________|\n"
    );
}

#[test]
fn hunt_and_kill_with_seed_two() {
    let grid = made(hunt_and_kill_seeded, 3, 4, 2);
    assert_eq!(grid.render(), "_____________\n|  |     |  |\n|  |__|___  |\n|___________|\n");
}

#[test]
fn hunt_and_kill_with_seed_seven() {
    let grid = made(hunt_and_kill_seeded, 4, 5, 7);
    assert_eq!(
        grid.render(),
        "________________\n|   _____|___  |\n|     |     |  |\n|  |__|  |   __|\n|________|_____|\n"
    );
}

#[test]
fn aldous_broder_with_seed_two() {
    let grid = made(aldous_broder_seeded, 3, 4, 2);
    assert_eq!(grid.render(), "_____________\n|     |     |\n|__|   __|__|\n|___________|\n");
}

#[test]
fn aldous_broder_with_seed_seven() {
    let grid = made(aldous_broder_seeded, 4, 5, 7);
    assert_eq!(
        grid.render(),
        "________________\n|     |______  |\n|__|___  |___  |\n|  |   _____|  |\n|______________|\n"
    );
}

#[test]
fn wilsons_with_seed_two() {
    let grid = made(wilsions_seeded, 3, 4, 2);
    assert_eq!(grid.render(), "_____________\n|      ___  |\n|  |  |___  |\n|__|__|_____|\n");
}

#[test]
fn wilsons_with_seed_seven() {
    let grid = made(wilsions_seeded, 4, 5, 7);
    assert_eq!(
        grid.render(),
        "________________\n|  |  |  |___  |\n|  |   ___   __|\n|      __|__|  |\n|__|___________|\n"
    );
}

#[test]
fn aldous_broder_without_steps_is_made_by_hunting() {
    let mut grid = Grid::new(3, 4).unwrap();
    aldous_broder_within(&mut grid, 2, 0);
    assert_perfect(&grid);
    assert_eq!(grid.render(), "_____________\n|           |\n|  |  |  |  |\n|__|__|__|__|\n");
}

#[test]
fn aldous_broder_with_few_steps_is_finished_by_hunting() {
    let mut grid = Grid::new(3, 4).unwrap();
    aldous_broder_within(&mut grid, 2, 3);
    assert_perfect(&grid);
    assert_eq!(grid.render(), "_____________\n|   ___     |\n|  |  |  |  |\n|_____|__|__|\n");
    let mut grid = Grid::new(3, 4).unwrap();
    aldous_broder_within(&mut grid, 2, 10);
    assert_perfect(&grid);
    assert_eq!(grid.render(), "_____________\n|___  |     |\n|  |   __|  |\n|________|__|\n");
}

#[test]
fn aldous_broder_within_any_budget_is_perfect() {
    for (rows, columns) in SIZES {
        for budget in [0, 1, 2, 5, 20, 100, 1_000] {
            let mut grid = Grid::new(rows, columns).unwrap();
            aldous_broder_within(&mut grid, 11, budget);
            assert_perfect(&grid);
        }
    }
}

#[test]
fn aldous_broder_with_a_large_budget_is_aldous_broder() {
    for seed in [0, 2, 31] {
        let mut bounded = Grid::new(5, 6).unwrap();
        aldous_broder_within(&mut bounded, seed, u64::MAX);
        assert_eq!(bounded.render(), made(aldous_broder_seeded, 5, 6, seed).render());
    }
}

#[test]
fn wilsons_without_steps_is_made_by_hunting() {
    let mut grid = Grid::new(3, 4).unwrap();
    wilsons_within(&mut grid, 2, 0);
    assert_perfect(&grid);
    assert_eq!(grid.render(), "_____________\n|           |\n|  |  |  |  |\n|__|__|__|__|\n");
}

#[test]
fn wilsons_within_any_budget_is_perfect() {
    for (rows, columns) in SIZES {
        for budget in [0, 1, 2, 5, 20, 100, 1_000] {
            let mut grid = Grid::new(rows, columns).unwrap();
            wilsons_within(&mut grid, 11, budget);
            assert_perfect(&grid);
        }
    }
}

#[test]
fn wilsons_with_a_large_budget_is_wilsons() {
    for seed in [0, 2, 31] {
        let mut bounded = Grid::new(5, 6).unwrap();
        wilsons_within(&mut bounded, seed, u64::MAX);
        assert_eq!(bounded.render(), made(wilsions_seeded, 5, 6, seed).render());
    }
}

#[test]
fn the_fixed_seed_sidewinder_is_sidewinder_with_seed_two() {
    let mut grid = Grid::new(5, 7).unwrap();
    maze_builder::builder::grid::sidewinder(&mut grid);
    assert_perfect(&grid);
    assert_eq!(grid.render(), made(sidewinder_seeded, 5, 7, 2).render());
}

#[test]
fn unseeded_algorithms_make_perfect_mazes() {
    let algorithms: [fn(&mut Grid); 5] =
        [sidewinder, aldous_broder, wilsons, hunt_and_kill, backtracker];
    for make in algorithms {
        for (rows, columns) in [(1, 1), (1, 5), (4, 4), (7, 3)] {
            let mut grid = Grid::new(rows, columns).unwrap();
            make(&mut grid);
            assert_perfect(&grid);
        }
    }
}

#[test]
fn large_mazes_are_perfect() {
    let algorithms: [fn(&mut Grid, u64); 5] = [
        sidewinder_seeded,
        aldous_broder_seeded,
        wilsions_seeded,
        hunt_and_kill_seeded,
        backtracker_seeded,
    ];
    for make in algorithms {
        let grid = made(make, 30, 40, 2);
        assert_perfect(&grid);
    }
}
