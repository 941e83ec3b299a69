//! The grid assembler: pure composition of five column sequences into sheets.

use vstd::prelude::*;
use crate::GenError;

verus! {

/// The marker left in the centre cell, which never carries a number.
pub const FREE_CELL: i32 = 0;

/// One 5×5 sheet of numbers, stored row-major; the centre cell (2,2) always
/// holds the free marker.
#[derive(Debug)]
pub struct Grid {
    pub cells: Vec<i32>,
}

impl Grid {
    /// The value at column `x`, row `y`.
    pub open spec fn cell(self, x: int, y: int) -> i32 {
        self.cells@[y * 5 + x]
    }

    /// A grid is a full 5×5 sheet whose centre is the free marker.
    pub open spec fn wf(self) -> bool {
        &&& self.cells@.len() == 25
        &&& self.cell(2, 2) == FREE_CELL
    }

    /// Reads the value at column `x`, row `y`.
    pub fn get(&self, x: usize, y: usize) -> (v: i32)
        requires
            self.wf(),
            x < 5,
            y < 5,
        ensures
            v == self.cell(x as int, y as int),
    {
        self.cells[y * 5 + x]
    }
}

/// Whether grid `g` shows sheet `i` of the five column sequences: every cell
/// but the free centre holds the `y`-th value of column `x`'s `i`-th
/// arrangement.
pub open spec fn grid_shows(g: Grid, cols: Seq<Seq<Seq<i32>>>, i: int) -> bool {
    forall|x: int, y: int|
        0 <= x < 5 && 0 <= y < 5 && !(x == 2 && y == 2) ==> #[trigger] g.cell(x, y)
            == cols[x][i][y]
}

/// Merges five per-column arrangement sequences into one grid per sheet,
/// reserving the centre cell as the free marker. Sequences of unequal length
/// are rejected as a length mismatch, and nothing else fails.
pub fn assemble_grids(columns: &Vec<Vec<Vec<i32>>>) -> (result: Result<Vec<Grid>, GenError>)
    requires
        columns@.len() == 5,
        forall|x: int, i: int|
            0 <= x < 5 && 0 <= i < columns@[x]@.len() ==> (#[trigger] columns@[x]@[i]@).len() == 5,
    ensures
        (result is Err) <==> !(forall|x: int|
            0 <= x < 5 ==> (#[trigger] columns@[x]@).len() == columns@[0]@.len()),
        result matches Err(e) ==> e == GenError::LengthMismatch,
        result matches Ok(grids) ==> {
            &&& grids@.len() == columns@[0]@.len()
            &&& forall|i: int| 0 <= i < grids@.len() ==> (#[trigger] grids@[i]).wf()
            &&& forall|i: int|
                0 <= i < grids@.len() ==> grid_shows(#[trigger] grids@[i], columns.deep_view(), i)
        },
{
    let count = columns[0].len();
    let mut x: usize = 1;
    while x < 5
        invariant
            columns@.len() == 5,
            count == columns@[0]@.len(),
            1 <= x <= 5,
            forall|c: int| 0 <= c < x ==> (#[trigger] columns@[c]@).len() == count,
        decreases 5 - x,
    {
        if columns[x].len() != count {
            return Err(GenError::LengthMismatch);
        }
        x = x + 1;
    }
    let mut grids: Vec<Grid> = Vec::new();
    let mut i: usize = 0;
    while i < count
        invariant
            columns@.len() == 5,
            count == columns@[0]@.len(),
            forall|c: int| 0 <= c < 5 ==> (#[trigger] columns@[c]@).len() == count,
            forall|c: int, s: int|
                0 <= c < 5 && 0 <= s < count ==> (#[trigger] columns@[c]@[s]@).len() == 5,
            i <= count,
            grids@.len() == i,
            forall|s: int| 0 <= s < i ==> (#[trigger] grids@[s]).wf(),
            forall|s: int|
                0 <= s < i ==> grid_shows(#[trigger] grids@[s], columns.deep_view(), s),
        decreases count - i,
    {
        let mut cells: Vec<i32> = Vec::new();
        let mut y: usize = 0;
        while y < 5
            invariant
                columns@.len() == 5,
                count == columns@[0]@.len(),
                forall|c: int| 0 <= c < 5 ==> (#[trigger] columns@[c]@).len() == count,
                forall|c: int, s: int|
                    0 <= c < 5 && 0 <= s < count ==> (#[trigger] columns@[c]@[s]@).len() == 5,
                i < count,
                y <= 5,
                cells@.len() == y * 5,
                forall|cx: int, cy: int|
                    0 <= cx < 5 && 0 <= cy < y && !(cx == 2 && cy == 2) ==> #[trigger] cells@[cy * 5
                        + cx] == columns@[cx]@[i as int]@[cy],
                y >= 3 ==> cells@[12] == FREE_CELL,
            decreases 5 - y,
        {
            let mut x2: usize = 0;
            while x2 < 5
                invariant
                    columns@.len() == 5,
                    count == columns@[0]@.len(),
                    forall|c: int| 0 <= c < 5 ==> (#[trigger] columns@[c]@).len() == count,
                    forall|c: int, s: int|
                        0 <= c < 5 && 0 <= s < count ==> (#[trigger] columns@[c]@[s]@).len() == 5,
                    i < count,
                    y < 5,
                    x2 <= 5,
                    cells@.len() == y * 5 + x2,
                    forall|cx: int, cy: int|
                        0 <= cx < 5 && 0 <= cy < y && !(cx == 2 && cy == 2) ==> #[trigger] cells@[cy
                            * 5 + cx] == columns@[cx]@[i as int]@[cy],
                    y >= 3 ==> cells@[12] == FREE_CELL,
                    forall|cx: int|
                        0 <= cx < x2 && !(cx == 2 && y == 2) ==> #[trigger] cells@[y as int * 5
                            + cx] == columns@[cx]@[i as int]@[y as int],
                    y == 2 && x2 > 2 ==> cells@[y as int * 5 + 2] == FREE_CELL,
                decreases 5 - x2,
            {
                if x2 == 2 && y == 2 {
                    cells.push(FREE_CELL);
                } else {
                    let v = columns[x2][i][y];
                    cells.push(v);
                }
                x2 = x2 + 1;
            }
            y = y + 1;
        }
        let g = Grid { cells };
        proof {
            assert(g.wf());
            let deep = columns.deep_view();
            assert forall|cx: int, cy: int|
                0 <= cx < 5 && 0 <= cy < 5 && !(cx == 2 && cy == 2) implies #[trigger] g.cell(
                cx,
                cy,
            ) == deep[cx][i as int][cy] by {
                assert(g.cell(cx, cy) == columns@[cx]@[i as int]@[cy]);
                assert(deep[cx] == columns@[cx].deep_view());
                assert(deep[cx][i as int] == columns@[cx]@[i as int].deep_view());
                assert(columns@[cx]@[i as int].deep_view() =~= columns@[cx]@[i as int]@);
            }
            assert(grid_shows(g, deep, i as int));
        }
        grids.push(g);
        i = i + 1;
    }
    Ok(grids)
}

} // verus!
