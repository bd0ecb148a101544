use joeboids::grid::Grid;

// The cell counts that a grid of cells of side `1 / fac` needs to cover
// `extent`, as the flock computes them from its bounds.
fn cell_counts(extent: (usize, usize), fac: f32) -> (usize, usize) {
    (
        (extent.0 as f32 * fac).ceil() as usize,
        (extent.1 as f32 * fac).ceil() as usize,
    )
}

#[test]
fn is_init_grid_vec_correct_size() {
    let new_grid = Grid::init_grid_vec(cell_counts((8, 6), 1.0 / 2.0));
    assert_eq!(4_usize, new_grid.len());
    assert_eq!(3_usize, new_grid[3].len());
}

#[test]
fn is_init_grid_vec_working_with_positions() {
    let data: Vec<(f32, f32)> = vec![(16.0, 9.0), (-16.0, -9.0)];

    let mut min = (0.0, 0.0);
    let mut max = (0.0, 0.0);
    for position in data.iter() {
        if position.0 > max.0 {
            max.0 = position.0;
        }
        if position.1 > max.1 {
            max.1 = position.1;
        }
        if position.0 < min.0 {
            min.0 = position.0;
        }
        if position.1 < min.1 {
            min.1 = position.1;
        }
    }
    let max = ((max.0 - min.0).ceil() as usize, (max.1 - min.1).ceil() as usize);
    let new_grid = Grid::init_grid_vec(cell_counts(max, 1.0 / 2.0));
    assert_eq!(16_usize, new_grid.len());
    assert_eq!(9_usize, new_grid[7].len());
}

#[test]
fn init_grid_vec_cells_are_empty() {
    let cells = Grid::init_grid_vec((2, 3));
    assert_eq!(cells, vec![vec![Vec::<usize>::new(); 3]; 2]);
}

#[test]
fn new_grid_is_empty() {
    let grid = Grid::new((3, 2));
    assert_eq!(grid.size(), (3, 2));
    assert!(grid.iterate_flattened().is_empty());
}

#[test]
fn walk_goes_column_by_column() {
    let grid = Grid::from_vec((2, 2), &vec![(0, 0), (1, 1), (0, 0), (1, 0)]);
    assert_eq!(grid.iterate_flattened(), vec![0, 2, 3, 1]);
}

#[test]
fn insert_appends_to_the_cell() {
    let mut grid = Grid::new((2, 2));
    grid.insert((1, 0), 7);
    grid.insert((0, 1), 5);
    grid.insert((1, 0), 2);
    assert_eq!(grid.iterate_flattened(), vec![5, 7, 2]);
}

#[test]
fn walk_finds_each_item_once() {
    let cells_of: Vec<(usize, usize)> = (0..50).map(|i| ((i * 7) % 4, (i * 3) % 5)).collect();
    let grid = Grid::from_vec((4, 5), &cells_of);
    let mut items = grid.iterate_flattened();
    items.sort();
    assert_eq!(items, (0..50).collect::<Vec<usize>>());
}

// A 4 by 4 grid whose cell (x, y) holds the single item 4 * x + y.
fn numbered_grid() -> Grid {
    let cells_of: Vec<(usize, usize)> = (0..16).map(|i| (i / 4, i % 4)).collect();
    Grid::from_vec((4, 4), &cells_of)
}

#[test]
fn neighbors_in_the_middle() {
    let grid = numbered_grid();
    assert_eq!(
        grid.get_cell_neighbors((2, 2), (3, 3)),
        vec![6, 5, 7, 14, 13, 15, 11, 9, 10, 15]
    );
}

#[test]
fn neighbors_near_the_start_skip_the_first_two_rows_and_columns() {
    let grid = numbered_grid();
    assert_eq!(grid.get_cell_neighbors((1, 1), (3, 3)), vec![9, 10, 6, 5, 15]);
}

#[test]
fn neighbors_at_the_limits() {
    let grid = numbered_grid();
    assert_eq!(grid.get_cell_neighbors((3, 3), (3, 3)), vec![11, 10, 14, 15, 15]);
}

#[test]
fn neighbors_include_own_cell() {
    let cells_of: Vec<(usize, usize)> = (0..30).map(|i| ((i * 5) % 3, (i * 2) % 3)).collect();
    let grid = Grid::from_vec((3, 3), &cells_of);
    for x in 0..3 {
        for y in 0..3 {
            let found = grid.get_cell_neighbors((x, y), (2, 2));
            for (i, c) in cells_of.iter().enumerate() {
                if *c == (x, y) {
                    assert!(found.contains(&i));
                }
            }
        }
    }
}
