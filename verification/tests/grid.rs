use keyed_grid::grid::{Cell, Dimensions, Grid};
use keyed_grid::reconciler::Reconciler;
use keyed_grid::rows::{bad_rows, good_rows, row_cells, Row};

fn dims(width: usize, height: usize) -> Dimensions {
    Dimensions { width, height }
}

#[test]
fn new_cell_is_off() {
    assert_eq!(Cell::new(), Cell { example: false });
}

#[test]
fn toggling_a_cell_twice_restores_it() {
    let mut cell = Cell::new();
    cell.toggle();
    assert!(cell.example);
    cell.toggle();
    assert!(!cell.example);
}

#[test]
fn cell_color_follows_the_flag() {
    let mut cell = Cell::new();
    assert_eq!(cell.color(), "black");
    cell.toggle();
    assert_eq!(cell.color(), "red");
}

#[test]
fn new_grid_has_width_times_height_blank_cells() {
    let grid = Grid::new(dims(5, 5));
    assert_eq!(grid.len(), 25);
    assert_eq!(grid.dimensions(), dims(5, 5));
    assert!(grid.cells().iter().all(|c| !c.example));
}

#[test]
fn resize_from_5x5_to_10x10_resets_everything() {
    let mut grid = Grid::new(dims(5, 5));
    grid.toggle(3);
    grid.toggle(24);
    grid.resize(dims(10, 10));
    assert_eq!(grid.len(), 100);
    assert_eq!(grid.cells().len(), 100);
    assert_eq!(grid.dimensions(), dims(10, 10));
    assert!(grid.cells().iter().all(|c| !c.example));
}

#[test]
fn resize_to_15x15_and_back() {
    let mut grid = Grid::new(dims(5, 5));
    grid.resize(dims(15, 15));
    assert_eq!(grid.len(), 225);
    grid.resize(dims(5, 5));
    assert_eq!(grid.len(), 25);
}

#[test]
fn resize_to_zero_cells_is_valid() {
    let mut grid = Grid::new(dims(5, 5));
    grid.resize(dims(0, 7));
    assert_eq!(grid.len(), 0);
    assert!(grid.good_rows().is_empty());
    assert!(grid.bad_rows().is_empty());
    grid.resize(dims(7, 0));
    assert_eq!(grid.len(), 0);
    assert!(grid.good_rows().is_empty());
    assert!(grid.bad_rows().is_empty());
    let empty = Grid::new(dims(0, 0));
    assert_eq!(empty.len(), 0);
}

#[test]
fn toggle_changes_only_that_cell() {
    let mut grid = Grid::new(dims(4, 3));
    grid.toggle(5);
    for (i, cell) in grid.cells().iter().enumerate() {
        assert_eq!(cell.example, i == 5);
    }
    grid.toggle(0);
    grid.toggle(5);
    for (i, cell) in grid.cells().iter().enumerate() {
        assert_eq!(cell.example, i == 0);
    }
    assert_eq!(grid.dimensions(), dims(4, 3));
    assert_eq!(grid.len(), 12);
}

#[test]
fn dimensions_fit_unless_the_area_overflows() {
    assert!(dims(5, 5).fits());
    assert!(dims(0, usize::MAX).fits());
    assert!(dims(usize::MAX, 1).fits());
    assert!(!dims(usize::MAX, 2).fits());
    assert!(!dims(usize::MAX, usize::MAX).fits());
}

#[test]
fn grid_rows_are_full_rows() {
    let mut grid = Grid::new(dims(3, 2));
    grid.toggle(4);
    let good = grid.good_rows();
    let bad = grid.bad_rows();
    assert_eq!(good.len(), 2);
    assert_eq!(bad.len(), 2);
    assert_eq!(good[0].0, "3-3-2-0");
    assert_eq!(good[1].0, "3-3-2-1");
    assert_eq!(bad[0].0, "3-2-0");
    assert_eq!(bad[1].0, "3-2-1");
    let off = Cell { example: false };
    let on = Cell { example: true };
    assert_eq!(good[0].1, Row { y: 0, cells: vec![off, off, off] });
    assert_eq!(good[1].1, Row { y: 1, cells: vec![off, on, off] });
    assert_eq!(bad[0].1, good[0].1);
    assert_eq!(bad[1].1, good[1].1);
}

#[test]
fn rows_cut_cells_by_width_with_a_shorter_last_row() {
    let cells = vec![Cell::new(); 25];
    let good = good_rows(&cells, dims(10, 10));
    let bad = bad_rows(&cells, dims(10, 10));
    let good_keys: Vec<&str> = good.iter().map(|r| r.0.as_str()).collect();
    let bad_keys: Vec<&str> = bad.iter().map(|r| r.0.as_str()).collect();
    assert_eq!(good_keys, vec!["10-10-10-0", "10-10-10-1", "5-10-10-2"]);
    assert_eq!(bad_keys, vec!["10-10-0", "10-10-1", "10-10-2"]);
    let lens: Vec<usize> = good.iter().map(|r| r.1.cells.len()).collect();
    assert_eq!(lens, vec![10, 10, 5]);
    let ys: Vec<usize> = bad.iter().map(|r| r.1.y).collect();
    assert_eq!(ys, vec![0, 1, 2]);
}

#[test]
fn rows_keep_the_cells_in_order() {
    let mut cells = vec![Cell::new(); 7];
    cells[3].toggle();
    cells[6].toggle();
    let rows = good_rows(&cells, dims(3, 3));
    assert_eq!(rows.len(), 3);
    let flat: Vec<Cell> = rows.iter().flat_map(|r| r.1.cells.clone()).collect();
    assert_eq!(flat, cells);
    assert_eq!(rows[1].1.cells[0], Cell { example: true });
    assert_eq!(rows[2].1.cells, vec![Cell { example: true }]);
}

#[test]
fn rows_of_no_cells_are_no_rows() {
    let cells: Vec<Cell> = Vec::new();
    assert!(good_rows(&cells, dims(0, 0)).is_empty());
    assert!(bad_rows(&cells, dims(0, 5)).is_empty());
    assert!(good_rows(&cells, dims(4, 4)).is_empty());
}

#[test]
fn rows_of_width_one() {
    let cells = vec![Cell::new(); 3];
    let rows = bad_rows(&cells, dims(1, 3));
    let keys: Vec<&str> = rows.iter().map(|r| r.0.as_str()).collect();
    assert_eq!(keys, vec!["1-3-0", "1-3-1", "1-3-2"]);
}

#[test]
fn row_cells_are_keyed_by_grid_index() {
    let mut row = vec![Cell::new(); 4];
    row[2].toggle();
    let entries = row_cells(&row, 3, 10);
    let keys: Vec<usize> = entries.iter().map(|e| e.0).collect();
    assert_eq!(keys, vec![30, 31, 32, 33]);
    let cells: Vec<Cell> = entries.iter().map(|e| e.1).collect();
    assert_eq!(cells, row);
    assert!(row_cells(&Vec::new(), 3, 10).is_empty());
}

#[test]
fn bad_keys_reuse_a_short_row_after_the_grid_has_grown() {
    // A 25-cell grid seen through the width of a 10x10 grid has a third row
    // of 5 cells. Once the grid holds 100 cells that row has 10 cells.
    let before = vec![Cell::new(); 25];
    let after = vec![Cell::new(); 100];

    let mut bad: Reconciler<String, Row> = Reconciler::new();
    bad.reconcile(bad_rows(&before, dims(10, 10)));
    let stale = bad.find(&"10-10-2".to_string()).unwrap().id;
    let destroyed = bad.reconcile(bad_rows(&after, dims(10, 10)));
    assert!(destroyed.is_empty());
    let third = bad.find(&"10-10-2".to_string()).unwrap();
    assert_eq!(third.id, stale);
    assert_eq!(third.item.cells.len(), 10);
    assert_eq!(bad.len(), 10);
    assert_eq!(bad.issued(), 10);

    let mut good: Reconciler<String, Row> = Reconciler::new();
    good.reconcile(good_rows(&before, dims(10, 10)));
    let short = good.find(&"5-10-10-2".to_string()).unwrap().id;
    let destroyed = good.reconcile(good_rows(&after, dims(10, 10)));
    assert_eq!(destroyed.len(), 1);
    assert_eq!(destroyed[0].0, "5-10-10-2");
    assert_eq!(destroyed[0].1.id, short);
    assert!(good.find(&"5-10-10-2".to_string()).is_none());
    let third = good.find(&"10-10-10-2".to_string()).unwrap();
    assert_ne!(third.id, short);
    assert_eq!(good.len(), 10);
    assert_eq!(good.issued(), 11);
}

#[test]
fn resizing_the_grid_replaces_every_row_node() {
    let mut grid = Grid::new(dims(5, 5));
    let mut nodes: Reconciler<String, Row> = Reconciler::new();
    nodes.reconcile(grid.good_rows());
    assert_eq!(nodes.len(), 5);
    grid.resize(dims(10, 10));
    let destroyed = nodes.reconcile(grid.good_rows());
    assert_eq!(destroyed.len(), 5);
    assert_eq!(nodes.len(), 10);
    let ids: Vec<u64> = nodes.nodes().iter().map(|(_, n)| n.id).collect();
    assert_eq!(ids, (5..15).collect::<Vec<u64>>());
}
