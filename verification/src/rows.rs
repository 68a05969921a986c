//! The lists that are derived from the grid: its rows, keyed in either of
//! the two ways, and the cells of one row, keyed by their index in the grid.

use crate::grid::{Cell, Dimensions};
use crate::model::snapshot_keys;
use crate::reconciler::snapshot_of;
use crate::row_key::{
    bad_key, bad_key_text, good_key, good_key_text, law_bad_key_injective, law_good_key_injective,
};
use vstd::arithmetic::div_mod::lemma_fundamental_div_mod_converse;
use vstd::prelude::*;

verus! {

/// One row of the grid: its index from the top and its cells.
#[derive(Debug, PartialEq, Eq)]
pub struct Row {
    pub y: usize,
    pub cells: Vec<Cell>,
}

/// Into how many rows `len` cells fall when a row holds up to `width` cells.
pub open spec fn row_count(len: nat, width: nat) -> nat {
    if width == 0 {
        0
    } else {
        ((len + width - 1) / (width as int)) as nat
    }
}

/// Where row `index` begins among `len` cells: after `index` full rows, or at
/// the end of the cells if there are not that many.
pub open spec fn boundary(len: nat, width: nat, index: nat) -> nat {
    if index * width <= len {
        index * width
    } else {
        len
    }
}

/// The cells of row `index`: up to `width` cells, fewer in a last row that the
/// cells do not fill.
pub open spec fn row_cells_of(cells: Seq<Cell>, width: nat, index: nat) -> Seq<Cell> {
    cells.subrange(
        boundary(cells.len(), width, index) as int,
        boundary(cells.len(), width, index + 1) as int,
    )
}

/// Cuts the cells into rows of `width` cells.
fn chunk_rows(cells: &Vec<Cell>, width: usize) -> (rows: Vec<Row>)
    requires
        width > 0 || cells.len() == 0,
    ensures
        rows.len() == row_count(cells.len() as nat, width as nat),
        forall|i: int|
            0 <= i < rows.len() ==> {
                &&& (#[trigger] rows[i]).y == i
                &&& rows[i].cells@ == row_cells_of(cells@, width as nat, i as nat)
            },
{
    let len = cells.len();
    let mut rows: Vec<Row> = Vec::new();
    let mut start: usize = 0;
    while start < len
        invariant
            len == cells.len(),
            width > 0 || len == 0,
            start <= len,
            rows.len() <= start,
            start == boundary(len as nat, width as nat, rows.len() as nat),
            rows.len() > 0 ==> (rows.len() - 1) * width < len,
            forall|i: int|
                0 <= i < rows.len() ==> {
                    &&& (#[trigger] rows[i]).y == i
                    &&& rows[i].cells@ == row_cells_of(cells@, width as nat, i as nat)
                },
        decreases len - start,
    {
        let index = rows.len();
        let end = if len - start < width {
            len
        } else {
            start + width
        };
        proof {
            assert((index + 1) * width == index * width + width) by (nonlinear_arith);
            assert(end == boundary(len as nat, width as nat, (index + 1) as nat));
        }
        let mut row_cells: Vec<Cell> = Vec::new();
        let mut at = start;
        while at < end
            invariant
                start <= at <= end <= cells.len(),
                row_cells@ == cells@.subrange(start as int, at as int),
            decreases end - at,
        {
            row_cells.push(cells[at]);
            at += 1;
            proof {
                assert(row_cells@ =~= cells@.subrange(start as int, at as int));
            }
        }
        rows.push(Row { y: index, cells: row_cells });
        start = end;
    }
    proof {
        let n = rows.len() as int;
        if width > 0 {
            assert(n * width - width == (n - 1) * width) by (nonlinear_arith);
            lemma_fundamental_div_mod_converse(
                len + width - 1,
                width as int,
                n,
                len + width - 1 - n * width,
            );
        }
    }
    rows
}

/// The rows of the grid as a keyed list, each key spelling the row's length,
/// the dimensions and the row index. No cells make no rows, whatever the
/// width; cells cannot be cut into rows of width 0.
pub fn good_rows(cells: &Vec<Cell>, dimensions: Dimensions) -> (rows: Vec<(String, Row)>)
    requires
        dimensions.width > 0 || cells.len() == 0,
    ensures
        rows.len() == row_count(cells.len() as nat, dimensions.width as nat),
        forall|i: int|
            0 <= i < rows.len() ==> {
                &&& (#[trigger] rows[i]).1.y == i
                &&& rows[i].1.cells@ == row_cells_of(cells@, dimensions.width as nat, i as nat)
                &&& rows[i].0@ == good_key_text(
                    rows[i].1.cells@.len(),
                    dimensions.width as nat,
                    dimensions.height as nat,
                    i as nat,
                )
            },
        snapshot_keys(snapshot_of(rows@)).no_duplicates(),
{
    let chunks = chunk_rows(cells, dimensions.width);
    let mut rows: Vec<(String, Row)> = Vec::new();
    for row in it: chunks
        invariant
            rows.len() == it.index(),
            forall|i: int|
                0 <= i < it.seq().len() ==> {
                    &&& (#[trigger] it.seq()[i]).y == i
                    &&& it.seq()[i].cells@ == row_cells_of(cells@, dimensions.width as nat, i as nat)
                },
            forall|i: int|
                0 <= i < rows.len() ==> {
                    &&& (#[trigger] rows[i]).1.y == i
                    &&& rows[i].1.cells@ == row_cells_of(cells@, dimensions.width as nat, i as nat)
                    &&& rows[i].0@ == good_key_text(
                        rows[i].1.cells@.len(),
                        dimensions.width as nat,
                        dimensions.height as nat,
                        i as nat,
                    )
                },
    {
        let key = good_key(row.cells.len(), dimensions.width, dimensions.height, row.y);
        rows.push((key, row));
    }
    proof {
        let listed = snapshot_keys(snapshot_of(rows@));
        assert forall|i: int, j: int|
            0 <= i < listed.len() && 0 <= j < listed.len() && i != j implies listed[i]
            != listed[j] by {
            assert(listed[i] == rows[i].0@);
            assert(listed[j] == rows[j].0@);
            if listed[i] == listed[j] {
                law_good_key_injective(
                    rows[i].1.cells@.len(),
                    dimensions.width as nat,
                    dimensions.height as nat,
                    i as nat,
                    rows[j].1.cells@.len(),
                    dimensions.width as nat,
                    dimensions.height as nat,
                    j as nat,
                );
            }
        }
    }
    rows
}

/// The rows of the grid as a keyed list, each key spelling the dimensions and
/// the row index only. No cells make no rows, whatever the width; cells
/// cannot be cut into rows of width 0.
pub fn bad_rows(cells: &Vec<Cell>, dimensions: Dimensions) -> (rows: Vec<(String, Row)>)
    requires
        dimensions.width > 0 || cells.len() == 0,
    ensures
        rows.len() == row_count(cells.len() as nat, dimensions.width as nat),
        forall|i: int|
            0 <= i < rows.len() ==> {
                &&& (#[trigger] rows[i]).1.y == i
                &&& rows[i].1.cells@ == row_cells_of(cells@, dimensions.width as nat, i as nat)
                &&& rows[i].0@ == bad_key_text(
                    dimensions.width as nat,
                    dimensions.height as nat,
                    i as nat,
                )
            },
        snapshot_keys(snapshot_of(rows@)).no_duplicates(),
{
    let chunks = chunk_rows(cells, dimensions.width);
    let mut rows: Vec<(String, Row)> = Vec::new();
    for row in it: chunks
        invariant
            rows.len() == it.index(),
            forall|i: int|
                0 <= i < it.seq().len() ==> {
                    &&& (#[trigger] it.seq()[i]).y == i
                    &&& it.seq()[i].cells@ == row_cells_of(cells@, dimensions.width as nat, i as nat)
                },
            forall|i: int|
                0 <= i < rows.len() ==> {
                    &&& (#[trigger] rows[i]).1.y == i
                    &&& rows[i].1.cells@ == row_cells_of(cells@, dimensions.width as nat, i as nat)
                    &&& rows[i].0@ == bad_key_text(
                        dimensions.width as nat,
                        dimensions.height as nat,
                        i as nat,
                    )
                },
    {
        let key = bad_key(dimensions.width, dimensions.height, row.y);
        rows.push((key, row));
    }
    proof {
        let listed = snapshot_keys(snapshot_of(rows@));
        assert forall|i: int, j: int|
            0 <= i < listed.len() && 0 <= j < listed.len() && i != j implies listed[i]
            != listed[j] by {
            assert(listed[i] == rows[i].0@);
            assert(listed[j] == rows[j].0@);
            if listed[i] == listed[j] {
                law_bad_key_injective(
                    dimensions.width as nat,
                    dimensions.height as nat,
                    i as nat,
                    dimensions.width as nat,
                    dimensions.height as nat,
                    j as nat,
                );
            }
        }
    }
    rows
}

/// The cells of row `y` as a keyed list. The key of a cell is its index in
/// the grid, counted row by row: `y * width + x` for the cell at `x`. The
/// index of the last cell has to be a `usize`.
pub fn row_cells(row: &Vec<Cell>, y: usize, width: usize) -> (entries: Vec<(usize, Cell)>)
    requires
        row.len() > 0 ==> y * width + row.len() - 1 <= usize::MAX,
    ensures
        entries.len() == row.len(),
        forall|x: int|
            0 <= x < row.len() ==> #[trigger] entries[x] == ((y * width + x) as usize, row[x]),
        snapshot_keys(snapshot_of(entries@)).no_duplicates(),
{
    let mut entries: Vec<(usize, Cell)> = Vec::new();
    if row.len() == 0 {
        assert(snapshot_keys(snapshot_of(entries@)).len() == 0);
        return entries;
    }
    proof {
        assert(0 <= y * width) by (nonlinear_arith)
            requires
                0 <= y,
                0 <= width,
        ;
    }
    let index_offset = y * width;
    let mut x: usize = 0;
    while x < row.len()
        invariant
            x <= row.len(),
            index_offset == y * width,
            index_offset + row.len() - 1 <= usize::MAX,
            entries.len() == x,
            forall|i: int|
                0 <= i < x ==> #[trigger] entries[i] == ((index_offset + i) as usize, row[i]),
        decreases row.len() - x,
    {
        entries.push((index_offset + x, row[x]));
        x += 1;
    }
    proof {
        let listed = snapshot_keys(snapshot_of(entries@));
        assert forall|i: int, j: int|
            0 <= i < listed.len() && 0 <= j < listed.len() && i != j implies listed[i]
            != listed[j] by {
            assert(listed[i] == entries[i].0);
            assert(listed[j] == entries[j].0);
        }
    }
    entries
}

} // verus!
