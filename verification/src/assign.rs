//! The choice of one destination per unit: a cost for every pair of a unit
//! and a cell, and the assignment of units to cells of least total cost,
//! which the `hungarian` crate computes.

use vstd::prelude::*;
use crate::data::Halite;

verus! {

/// The cost that marks a cell as no destination for a unit.
pub const INFEASIBLE: Halite = Halite::MAX;

/// What `hungarian::minimize` returns for a matrix of `height` rows and
/// `width` columns, given row by row: for each row the column assigned to
/// it, if one is.
pub uninterp spec fn hungarian_minimize(matrix: Seq<i64>, height: usize, width: usize) -> Seq<
    Option<usize>,
>;

/// What an assignment of columns to the rows of a matrix costs in all: the
/// entries at the assigned columns, added up; a row without a column adds
/// nothing.
pub open spec fn total_cost(matrix: Seq<i64>, width: int, rows: Seq<Option<usize>>) -> int
    decreases rows.len(),
{
    if rows.len() == 0 {
        0
    } else {
        total_cost(matrix, width, rows.drop_last()) + (match rows.last() {
            Some(j) => matrix[(rows.len() - 1) * width + j] as int,
            None => 0,
        })
    }
}

/// Whether every one of `height` rows is assigned a column of its own
/// among `width` columns.
pub open spec fn is_assignment(rows: Seq<Option<usize>>, height: int, width: int) -> bool {
    &&& rows.len() == height
    &&& forall|i: int| 0 <= i < height ==> (#[trigger] rows[i]).is_some() && rows[i].unwrap() < width
    &&& forall|i: int, j: int| 0 <= i < j < height ==> rows[i] != rows[j]
}

/// Whether `rows` assigns every row a column of its own at no more total
/// cost than any other such assignment.
pub open spec fn is_best(matrix: Seq<i64>, height: int, width: int, rows: Seq<Option<usize>>) -> bool {
    &&& is_assignment(rows, height, width)
    &&& forall|other: Seq<Option<usize>>| #[trigger]
        is_assignment(other, height, width) ==> total_cost(matrix, width, rows) <= total_cost(
            matrix,
            width,
            other,
        )
}

/// `hungarian::minimize`: the assignment of least total cost of the rows of
/// a matrix to its columns. The result depends on the matrix and its two
/// sizes alone. It is empty for a matrix without rows or without columns,
/// and has one entry per row otherwise; an assigned column is one of the
/// matrix; and where the rows are no more than the columns, every row is
/// assigned a column of its own and no such assignment costs less in all.
/// The crate reads the matrix by the sizes it is given, and as it goes it
/// adds the least entry of some rows and columns to others: the
/// precondition keeps the sizes true to the matrix, and the entries, held
/// as `i64`, within the range of an `i32`, so that none of these sums
/// leaves `i64`.
#[verifier::external_body]
fn minimize(matrix: &Vec<i64>, height: usize, width: usize) -> (rows: Vec<Option<usize>>)
    requires
        matrix@.len() == height * width,
        forall|i: int| 0 <= i < matrix@.len() ==> 0 <= #[trigger] matrix@[i] <= i32::MAX,
    ensures
        rows@ == hungarian_minimize(matrix@, height, width),
        rows@.len() == (if height == 0 || width == 0 {
            0
        } else {
            height as int
        }),
        forall|i: int| 0 <= i < rows@.len() && (#[trigger] rows@[i]).is_some() ==> rows@[i].unwrap() < width,
        0 < height <= width ==> is_best(matrix@, height as int, width as int, rows@),
{
    hungarian::minimize(matrix.as_slice(), height, width)
}

/// Number of columns of the matrix that is solved for `units` units and
/// `cells` cells: one per cell, and at least one per unit.
pub open spec fn padded_width(units: int, cells: int) -> int {
    if units > cells {
        units
    } else {
        cells
    }
}

/// Entry of the matrix that is solved, at row `i` and column `j`: the cost
/// of the cell for the unit, or nothing where it is negative; and nothing
/// for a column beyond the cells.
pub open spec fn padded_entry(costs: Seq<Halite>, cells: int, i: int, j: int) -> i64 {
    if j < cells && costs[i * cells + j] > 0 {
        costs[i * cells + j] as i64
    } else {
        0
    }
}

/// The matrix that is solved: one row per unit, one column per cell, and
/// where the units outnumber the cells further columns, which cost nothing,
/// to make up the number.
pub open spec fn padded(costs: Seq<Halite>, units: int, cells: int) -> Seq<i64> {
    let width = padded_width(units, cells);
    Seq::new(
        (units * width) as nat,
        |k: int| padded_entry(costs, cells, k / width, k % width),
    )
}

/// The destination of unit `i` under an assignment of columns to rows: the
/// cell assigned to it, unless the assignment has no such row, assigns it
/// nothing or a column beyond the cells, or the cell is infeasible for the
/// unit.
pub open spec fn destination(
    rows: Seq<Option<usize>>,
    costs: Seq<Halite>,
    cells: int,
    i: int,
) -> Option<usize> {
    if i < rows.len() {
        match rows[i] {
            Some(j) => if j < cells && costs[i * cells + j] < INFEASIBLE {
                Some(j)
            } else {
                None
            },
            None => None,
        }
    } else {
        None
    }
}

/// The destinations of all units under an assignment of columns to rows.
pub open spec fn spec_destinations(
    rows: Seq<Option<usize>>,
    costs: Seq<Halite>,
    units: int,
    cells: int,
) -> Seq<Option<usize>> {
    Seq::new(units as nat, |i: int| destination(rows, costs, cells, i))
}

/// Reads the destinations of the units off an assignment of columns to
/// rows: exactly one entry per unit, a cell or none.
pub fn destinations(rows: &Vec<Option<usize>>, costs: &Vec<Halite>, units: usize, cells: usize) -> (dest:
    Vec<Option<usize>>)
    requires
        costs@.len() == units * cells,
    ensures
        dest@ == spec_destinations(rows@, costs@, units as int, cells as int),
{
    let mut dest: Vec<Option<usize>> = Vec::new();
    let mut i: usize = 0;
    while i < units
        invariant
            0 <= i <= units,
            costs@.len() == units * cells,
            dest@.len() == i,
            forall|k: int|
                0 <= k < i ==> #[trigger] dest@[k] == destination(rows@, costs@, cells as int, k),
        decreases units - i,
    {
        let mut d: Option<usize> = None;
        if i < rows.len() {
            if let Some(j) = rows[i] {
                if j < cells {
                    assert(0 <= i * cells <= i * cells + j < units * cells) by (nonlinear_arith)
                        requires
                            0 <= i < units,
                            0 <= j < cells,
                    ;
                    assert(units * cells == costs.len());
                    if costs[i * cells + j] < INFEASIBLE {
                        d = Some(j);
                    }
                }
            }
        }
        dest.push(d);
        i += 1;
    }
    assert(dest@ =~= spec_destinations(rows@, costs@, units as int, cells as int));
    dest
}

/// Builds the matrix that is solved for the given costs.
fn pad(costs: &Vec<Halite>, units: usize, cells: usize) -> (matrix: Vec<i64>)
    requires
        costs@.len() == units * cells,
        units * padded_width(units as int, cells as int) <= usize::MAX,
    ensures
        matrix@ == padded(costs@, units as int, cells as int),
        matrix@.len() == units * padded_width(units as int, cells as int),
        forall|i: int| 0 <= i < matrix@.len() ==> 0 <= #[trigger] matrix@[i] <= i32::MAX,
{
    let width = if units > cells {
        units
    } else {
        cells
    };
    let mut matrix: Vec<i64> = Vec::new();
    let mut i: usize = 0;
    while i < units
        invariant
            0 <= i <= units,
            width == padded_width(units as int, cells as int),
            cells <= width,
            costs@.len() == units * cells,
            units * width <= usize::MAX,
            matrix@.len() == i * width,
            forall|k: int|
                0 <= k < matrix@.len() ==> #[trigger] matrix@[k] == padded_entry(
                    costs@,
                    cells as int,
                    k / (width as int),
                    k % (width as int),
                ),
            forall|k: int| 0 <= k < matrix@.len() ==> 0 <= #[trigger] matrix@[k] <= i32::MAX,
        decreases units - i,
    {
        let mut j: usize = 0;
        while j < width
            invariant
                0 <= i < units,
                0 <= j <= width,
                width == padded_width(units as int, cells as int),
                cells <= width,
                costs@.len() == units * cells,
                units * width <= usize::MAX,
                matrix@.len() == i * width + j,
                forall|k: int|
                    0 <= k < matrix@.len() ==> #[trigger] matrix@[k] == padded_entry(
                        costs@,
                        cells as int,
                        k / (width as int),
                        k % (width as int),
                    ),
                forall|k: int| 0 <= k < matrix@.len() ==> 0 <= #[trigger] matrix@[k] <= i32::MAX,
            decreases width - j,
        {
            let mut entry: i64 = 0;
            if j < cells {
                assert(0 <= i * cells <= i * cells + j < units * cells) by (nonlinear_arith)
                    requires
                        0 <= i < units,
                        0 <= j < cells,
                ;
                assert(units * cells == costs.len());
                let cost = costs[i * cells + j];
                if cost > 0 {
                    entry = cost as i64;
                }
            }
            proof {
                let k = i * width + j;
                vstd::arithmetic::div_mod::lemma_fundamental_div_mod_converse(
                    k as int,
                    width as int,
                    i as int,
                    j as int,
                );
            }
            matrix.push(entry);
            j += 1;
        }
        assert((i + 1) * width == i * width + width) by (nonlinear_arith);
        i += 1;
    }
    assert(matrix@ =~= padded(costs@, units as int, cells as int));
    matrix
}

/// Chooses one destination per unit. `costs` holds, unit by unit, the cost
/// of every cell for that unit; `INFEASIBLE` marks a cell that is no
/// destination for the unit. The units are assigned to distinct cells so
/// that the total cost is least, by `hungarian::minimize`: no assignment
/// of the units to columns of their own of the matrix that is solved costs
/// less in all. A unit that is left without a cell, or with an infeasible
/// one, has no destination, and no two units have the same.
/// Where the units outnumber the cells the matrix is made up with columns
/// that cost nothing, so that every unit has a row and a column; no unit
/// means no destination.
pub fn solve(costs: &Vec<Halite>, units: usize, cells: usize) -> (dest: Vec<Option<usize>>)
    requires
        costs@.len() == units * cells,
        units * padded_width(units as int, cells as int) <= usize::MAX,
    ensures
        dest@.len() == units,
        dest@ == spec_destinations(
            hungarian_minimize(
                padded(costs@, units as int, cells as int),
                units,
                padded_width(units as int, cells as int) as usize,
            ),
            costs@,
            units as int,
            cells as int,
        ),
        units > 0 ==> is_best(
            padded(costs@, units as int, cells as int),
            units as int,
            padded_width(units as int, cells as int),
            hungarian_minimize(
                padded(costs@, units as int, cells as int),
                units,
                padded_width(units as int, cells as int) as usize,
            ),
        ),
        forall|i: int, j: int|
            0 <= i < j < units && (#[trigger] dest@[i]).is_some() ==> dest@[i] != #[trigger] dest@[j],
{
    let width = if units > cells {
        units
    } else {
        cells
    };
    let matrix = pad(costs, units, cells);
    let rows = minimize(&matrix, units, width);
    let dest = destinations(&rows, costs, units, cells);
    proof {
        assert forall|i: int, j: int|
            0 <= i < j < units && (#[trigger] dest@[i]).is_some() implies dest@[i]
            != #[trigger] dest@[j] by {
            assert(is_assignment(rows@, units as int, width as int));
            assert(dest@[i] == destination(rows@, costs@, cells as int, i));
            assert(dest@[j] == destination(rows@, costs@, cells as int, j));
            assert(rows@[i] != rows@[j]);
        }
    }
    dest
}

} // verus!
