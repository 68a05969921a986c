//! Grid state: dimensions, cells, and the two mutations a user can trigger
//! (resizing the grid, toggling one cell).

use crate::model::snapshot_keys;
use crate::reconciler::snapshot_of;
use crate::row_key::{bad_key_text, good_key_text};
use crate::rows::{bad_rows, boundary, good_rows, row_cells_of, row_count, Row};
use vstd::arithmetic::div_mod::lemma_fundamental_div_mod_converse;
use vstd::prelude::*;

verus! {

/// Width and height of the grid, in cells.
#[derive(Clone, Copy, Debug, PartialEq, Eq, Structural)]
pub struct Dimensions {
    pub width: usize,
    pub height: usize,
}

impl Dimensions {
    /// The number of cells of a grid with these dimensions.
    pub open spec fn area(self) -> nat {
        (self.width * self.height) as nat
    }

    /// Whether a grid with these dimensions can be held in memory at all:
    /// whether its number of cells is a `usize`.
    pub fn fits(self) -> (ok: bool)
        ensures
            ok == (self.area() <= usize::MAX),
    {
        self.width.checked_mul(self.height).is_some()
    }
}

/// One cell of the grid: a single flag.
#[derive(Clone, Copy, Debug, PartialEq, Eq, Structural)]
pub struct Cell {
    pub example: bool,
}

impl Cell {
    /// A freshly initialised cell: the flag is off.
    pub fn new() -> (cell: Cell)
        ensures
            cell.example == false,
    {
        Cell { example: false }
    }

    /// Flips the flag.
    pub fn toggle(&mut self)
        ensures
            final(self).example == !old(self).example,
    {
        self.example = !self.example;
    }

    /// The colour in which the cell is drawn: red while the flag is on, black
    /// while it is off.
    pub fn color(&self) -> (name: &'static str)
        ensures
            name@ == if self.example {
                "red"@
            } else {
                "black"@
            },
    {
        if self.example {
            "red"
        } else {
            "black"
        }
    }
}

/// What a grid is to its contracts: its dimensions and its cells, row by row.
pub struct GridView {
    pub dimensions: Dimensions,
    pub cells: Seq<Cell>,
}

/// `count` freshly initialised cells.
pub open spec fn blank_cells(count: nat) -> Seq<Cell> {
    Seq::new(count, |i: int| Cell { example: false })
}

/// The grid: `width * height` cells, stored row by row.
pub struct Grid {
    dimensions: Dimensions,
    cells: Vec<Cell>,
}

impl View for Grid {
    type V = GridView;

    closed spec fn view(&self) -> GridView {
        GridView { dimensions: self.dimensions, cells: self.cells@ }
    }
}

/// Makes `count` freshly initialised cells.
fn make_blank(count: usize) -> (cells: Vec<Cell>)
    ensures
        cells@ == blank_cells(count as nat),
{
    let mut cells: Vec<Cell> = Vec::new();
    let mut made: usize = 0;
    while made < count
        invariant
            made <= count,
            cells@ == blank_cells(made as nat),
        decreases count - made,
    {
        cells.push(Cell::new());
        made += 1;
        proof {
            assert(cells@ =~= blank_cells(made as nat));
        }
    }
    cells
}

impl Grid {
    /// The grid has as many cells as its dimensions say.
    pub open spec fn wf(&self) -> bool {
        self@.cells.len() == self@.dimensions.area()
    }

    /// A grid of the given dimensions, every flag off.
    pub fn new(dimensions: Dimensions) -> (grid: Grid)
        requires
            dimensions.area() <= usize::MAX,
        ensures
            grid.wf(),
            grid@.dimensions == dimensions,
            grid@.cells == blank_cells(dimensions.area()),
    {
        Grid { dimensions, cells: make_blank(dimensions.width * dimensions.height) }
    }

    /// Replaces the whole grid by one of the given dimensions, every flag off.
    pub fn resize(&mut self, dimensions: Dimensions)
        requires
            dimensions.area() <= usize::MAX,
        ensures
            final(self).wf(),
            final(self)@.dimensions == dimensions,
            final(self)@.cells == blank_cells(dimensions.area()),
    {
        let cells = make_blank(dimensions.width * dimensions.height);
        self.dimensions = dimensions;
        self.cells = cells;
    }

    /// Flips the flag of the cell at `index` and leaves every other cell as
    /// it is.
    pub fn toggle(&mut self, index: usize)
        requires
            old(self).wf(),
            index < old(self)@.cells.len(),
        ensures
            final(self).wf(),
            final(self)@.dimensions == old(self)@.dimensions,
            final(self)@.cells == old(self)@.cells.update(
                index as int,
                Cell { example: !old(self)@.cells[index as int].example },
            ),
    {
        let mut cell = self.cells[index];
        cell.toggle();
        self.cells.set(index, cell);
    }

    /// The dimensions of the grid.
    pub fn dimensions(&self) -> (dimensions: Dimensions)
        ensures
            dimensions == self@.dimensions,
    {
        self.dimensions
    }

    /// The number of cells.
    pub fn len(&self) -> (n: usize)
        ensures
            n == self@.cells.len(),
    {
        self.cells.len()
    }

    /// The cells, row by row.
    pub fn cells(&self) -> (cells: &Vec<Cell>)
        ensures
            cells@ == self@.cells,
    {
        &self.cells
    }

    /// The rows of the grid as a keyed list whose keys spell the length of
    /// each row. There are `height` rows of `width` cells each, and none if
    /// the grid has no cells.
    pub fn good_rows(&self) -> (rows: Vec<(String, Row)>)
        requires
            self.wf(),
        ensures
            rows.len() == row_count(self@.cells.len(), self@.dimensions.width as nat),
            self@.dimensions.width > 0 ==> rows.len() == self@.dimensions.height,
            forall|i: int|
                0 <= i < rows.len() ==> {
                    &&& (#[trigger] rows[i]).1.y == i
                    &&& rows[i].1.cells@ == row_cells_of(
                        self@.cells,
                        self@.dimensions.width as nat,
                        i as nat,
                    )
                    &&& rows[i].1.cells@.len() == self@.dimensions.width
                    &&& rows[i].0@ == good_key_text(
                        rows[i].1.cells@.len(),
                        self@.dimensions.width as nat,
                        self@.dimensions.height as nat,
                        i as nat,
                    )
                },
            snapshot_keys(snapshot_of(rows@)).no_duplicates(),
    {
        proof {
            lemma_full_rows(self@.dimensions.width as nat, self@.dimensions.height as nat);
        }
        good_rows(&self.cells, self.dimensions)
    }

    /// The rows of the grid as a keyed list whose keys leave the length of
    /// each row out. There are `height` rows of `width` cells each, and none
    /// if the grid has no cells.
    pub fn bad_rows(&self) -> (rows: Vec<(String, Row)>)
        requires
            self.wf(),
        ensures
            rows.len() == row_count(self@.cells.len(), self@.dimensions.width as nat),
            self@.dimensions.width > 0 ==> rows.len() == self@.dimensions.height,
            forall|i: int|
                0 <= i < rows.len() ==> {
                    &&& (#[trigger] rows[i]).1.y == i
                    &&& rows[i].1.cells@ == row_cells_of(
                        self@.cells,
                        self@.dimensions.width as nat,
                        i as nat,
                    )
                    &&& rows[i].1.cells@.len() == self@.dimensions.width
                    &&& rows[i].0@ == bad_key_text(
                        self@.dimensions.width as nat,
                        self@.dimensions.height as nat,
                        i as nat,
                    )
                },
            snapshot_keys(snapshot_of(rows@)).no_duplicates(),
    {
        proof {
            lemma_full_rows(self@.dimensions.width as nat, self@.dimensions.height as nat);
        }
        bad_rows(&self.cells, self.dimensions)
    }
}

/// `width * height` cells fall into `height` rows, each of them full.
pub proof fn lemma_full_rows(width: nat, height: nat)
    ensures
        width > 0 ==> row_count(width * height, width) == height,
        width == 0 ==> width * height == 0,
        forall|i: nat|
            i < row_count(width * height, width) ==> #[trigger] boundary(
                width * height,
                width,
                i + 1,
            ) - boundary(width * height, width, i) == width,
{
    if width > 0 {
        assert(width * height == height * width) by (nonlinear_arith);
        lemma_fundamental_div_mod_converse(
            width * height + width - 1,
            width as int,
            height as int,
            width - 1,
        );
        assert forall|i: nat| i < height implies #[trigger] boundary(width * height, width, i + 1)
            - boundary(width * height, width, i) == width by {
            assert(i * width <= (i + 1) * width <= height * width && (i + 1) * width - i * width
                == width) by (nonlinear_arith)
                requires
                    i + 1 <= height,
                    width > 0,
            ;
        }
    } else {
        assert(width * height == 0) by (nonlinear_arith)
            requires
                width == 0,
        ;
    }
}

} // verus!
