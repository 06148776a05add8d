use vstd::prelude::*;

verus! {

use crate::candidates::{cand_has, mask_wf, mask_count, mask_none, mask_add, mask_from_vec};
use crate::line::{Line, LineDirection};
use crate::square::Square;
use crate::vec2::Vec2;

/// Whether (x, y) shares a row, a column or a box with (px, py).
pub open spec fn same_unit(px: int, py: int, x: int, y: int) -> bool {
    px == x || py == y || (px / 3 == x / 3 && py / 3 == y / 3)
}

/// A cell value: 0 for an empty cell, otherwise a digit 1..=9.
pub type CellValue = u8;

/// A coordinate component, in [0, 9).
pub type Coord = u8;

/// The 81 cells of the puzzle, stored twice: once split into 9 row lines and
/// once into 9 column lines, with a reduced third projection of 9 boxes that
/// only records which values each box holds. Well-formedness (`wf`) ties the
/// three projections together, so that reading a cell through its row or its
/// column can never disagree.
#[derive(Debug)]
pub struct Grid {
    pub columns: Vec<Line>,
    pub original_numbers: Vec<Vec2>,
    pub rows: Vec<Line>,
    pub squares: Vec<Square>,
    pub invalid_cells: Vec<Vec2>,
    pub solution: Vec<(Vec2, CellValue)>,
}

impl Grid {
    /// The value of cell (x, y), read through the row projection.
    pub open spec fn val(self, x: int, y: int) -> u8 {
        self.rows[y].val(x)
    }

    /// The candidate mask of cell (x, y), read through the row projection.
    pub open spec fn cmask_at(self, x: int, y: int) -> u16 {
        self.rows[y].cmask(x)
    }

    /// Whether digit `v` is a candidate of cell (x, y).
    pub open spec fn has_cand(self, x: int, y: int, v: u8) -> bool {
        cand_has(self.cmask_at(x, y), v)
    }

    /// The value of cell (x, y), read through the column projection.
    pub open spec fn col_val(self, x: int, y: int) -> u8 {
        self.columns[x].val(y)
    }

    /// The candidate mask of cell (x, y), read through the column projection.
    pub open spec fn col_cmask(self, x: int, y: int) -> u16 {
        self.columns[x].cmask(y)
    }

    /// Shape of the three projections: 9 rows, 9 columns and 9 boxes, each
    /// anchored at its own rank.
    pub open spec fn wf_struct(self) -> bool {
        &&& self.rows.len() == 9
        &&& self.columns.len() == 9
        &&& self.squares.len() == 9
        &&& forall|y: int| 0 <= y < 9 ==> (#[trigger] self.rows[y]).wf()
        &&& forall|y: int| 0 <= y < 9 ==> (#[trigger] self.rows[y]).direction
            == LineDirection::Row
        &&& forall|y: int| 0 <= y < 9 ==> (#[trigger] self.rows[y]).point == (Vec2 {
            x: 0,
            y: y as u8,
        })
        &&& forall|x: int| 0 <= x < 9 ==> (#[trigger] self.columns[x]).wf()
        &&& forall|x: int| 0 <= x < 9 ==> (#[trigger] self.columns[x]).direction
            == LineDirection::Column
        &&& forall|x: int| 0 <= x < 9 ==> (#[trigger] self.columns[x]).point == (Vec2 {
            x: x as u8,
            y: 0,
        })
        &&& forall|i: int| 0 <= i < 9 ==> (#[trigger] self.squares[i]).wf()
        &&& forall|i: int| 0 <= i < 9 ==> (#[trigger] self.squares[i]).x == i % 3
        &&& forall|i: int| 0 <= i < 9 ==> (#[trigger] self.squares[i]).y == i / 3
    }

    /// The row and the column projections agree on every cell: the same
    /// value, and the same candidate set.
    pub open spec fn proj_ok(self) -> bool {
        &&& forall|x: int, y: int| 0 <= x < 9 && 0 <= y < 9
            ==> #[trigger] self.col_val(x, y) == self.val(x, y)
        &&& forall|x: int, y: int, w: u8| 0 <= x < 9 && 0 <= y < 9
            ==> (#[trigger] cand_has(self.col_cmask(x, y), w)) == cand_has(self.cmask_at(x, y), w)
    }

    /// Each box records exactly the values assigned among its 9 cells.
    pub open spec fn squares_ok(self) -> bool {
        forall|i: int, v: u8| 0 <= i < 9 && 1 <= v <= 9 ==> ((#[trigger] cand_has(
            self.squares[i].cells,
            v,
        )) == exists|x: int, y: int| 0 <= x < 9 && 0 <= y < 9
            && x / 3 + 3 * (y / 3) == i && #[trigger] self.val(x, y) == v)
    }

    /// The grid's invariant: well-shaped projections that agree everywhere.
    pub open spec fn wf(self) -> bool {
        self.wf_struct() && self.proj_ok() && self.squares_ok()
    }

    /// Well-formedness only reads the three projections, so it carries over
    /// to any grid whose projections are the same sequences.
    pub(crate) proof fn lemma_wf_congruence(g0: Grid, g1: Grid)
        requires
            g0.wf(),
            g1.rows@ == g0.rows@,
            g1.columns@ == g0.columns@,
            g1.squares@ == g0.squares@,
        ensures
            g1.wf(),
            forall|x: int, y: int| 0 <= x < 9 && 0 <= y < 9
                ==> #[trigger] g1.val(x, y) == g0.val(x, y),
            forall|x: int, y: int| 0 <= x < 9 && 0 <= y < 9
                ==> #[trigger] g1.cmask_at(x, y) == g0.cmask_at(x, y),
    {
        assert forall|x: int, y: int| 0 <= x < 9 && 0 <= y < 9
            implies #[trigger] g1.val(x, y) == g0.val(x, y) by {
            assert(g1.rows[y] == g0.rows[y]);
        }
        assert forall|x: int, y: int| 0 <= x < 9 && 0 <= y < 9
            implies #[trigger] g1.cmask_at(x, y) == g0.cmask_at(x, y) by {
            assert(g1.rows[y] == g0.rows[y]);
        }
        assert(g1.wf_struct());
        assert forall|x: int, y: int| 0 <= x < 9 && 0 <= y < 9
            implies #[trigger] g1.col_val(x, y) == g1.val(x, y) by {
            assert(g1.columns[x] == g0.columns[x]);
            assert(g0.col_val(x, y) == g0.val(x, y));
        }
        assert forall|x: int, y: int, w: u8| 0 <= x < 9 && 0 <= y < 9
            implies (#[trigger] cand_has(g1.col_cmask(x, y), w))
                == cand_has(g1.cmask_at(x, y), w) by {
            assert(g1.columns[x] == g0.columns[x]);
            assert(cand_has(g0.col_cmask(x, y), w) == cand_has(g0.cmask_at(x, y), w));
        }
        Grid::lemma_squares_ok_preserved(g0, g1);
    }

    /// Whether row `y` holds value `v` in some cell.
    pub open spec fn row_has_value(self, y: int, v: u8) -> bool {
        exists|x: int| 0 <= x < 9 && #[trigger] self.val(x, y) == v
    }

    /// Whether column `x` holds value `v` in some cell.
    pub open spec fn col_has_value(self, x: int, v: u8) -> bool {
        exists|y: int| 0 <= y < 9 && #[trigger] self.val(x, y) == v
    }

    /// Whether box `i` holds value `v` in some cell.
    pub open spec fn box_has_value(self, i: int, v: u8) -> bool {
        exists|x: int, y: int| 0 <= x < 9 && 0 <= y < 9 && x / 3 + 3 * (y / 3) == i
            && #[trigger] self.val(x, y) == v
    }

    /// Whether `v` is a legal candidate for cell (x, y) given the values now
    /// on the grid: a digit not yet present in the cell's row, column or box.
    pub open spec fn cell_candidate(self, x: int, y: int, v: u8) -> bool {
        &&& 1 <= v <= 9
        &&& !self.row_has_value(y, v)
        &&& !self.col_has_value(x, v)
        &&& !self.box_has_value(x / 3 + 3 * (y / 3), v)
    }

    /// Box consistency only depends on the box masks and the cell values, so
    /// it survives any step that changes neither.
    proof fn lemma_squares_ok_preserved(g0: Grid, g1: Grid)
        requires
            g0.squares_ok(),
            g1.squares@ == g0.squares@,
            forall|x: int, y: int| 0 <= x < 9 && 0 <= y < 9
                ==> #[trigger] g1.val(x, y) == g0.val(x, y),
        ensures
            g1.squares_ok(),
    {
        assert forall|i: int, v: u8| 0 <= i < 9 && 1 <= v <= 9 implies ((#[trigger] cand_has(
            g1.squares[i].cells,
            v,
        )) == exists|x: int, y: int| 0 <= x < 9 && 0 <= y < 9
            && x / 3 + 3 * (y / 3) == i && #[trigger] g1.val(x, y) == v) by {
            assert(g1.squares[i] == g0.squares[i]);
            if cand_has(g0.squares[i].cells, v) {
                let (x, y) = choose|x: int, y: int| 0 <= x < 9 && 0 <= y < 9
                    && x / 3 + 3 * (y / 3) == i && #[trigger] g0.val(x, y) == v;
                assert(g1.val(x, y) == v);
            }
            if exists|x: int, y: int| 0 <= x < 9 && 0 <= y < 9
                && x / 3 + 3 * (y / 3) == i && #[trigger] g1.val(x, y) == v {
                let (x, y) = choose|x: int, y: int| 0 <= x < 9 && 0 <= y < 9
                    && x / 3 + 3 * (y / 3) == i && #[trigger] g1.val(x, y) == v;
                assert(g0.val(x, y) == v);
                assert(cand_has(g0.squares[i].cells, v));
            }
        }
    }

    pub fn new() -> (r: Grid)
        ensures
            r.wf(),
            forall|x: int, y: int| 0 <= x < 9 && 0 <= y < 9 ==> #[trigger] r.val(x, y) == 0,
            forall|x: int, y: int, w: u8| 0 <= x < 9 && 0 <= y < 9
                ==> !(#[trigger] r.has_cand(x, y, w)),
            r.original_numbers@.len() == 0,
            r.invalid_cells@.len() == 0,
            r.solution@.len() == 0,
    {
        let mut rows: Vec<Line> = Vec::new();
        let mut y: u8 = 0;
        while y < 9
            invariant
                y <= 9,
                rows@.len() == y,
                forall|j: int| 0 <= j < y ==> (#[trigger] rows@[j]).wf(),
                forall|j: int| 0 <= j < y ==> (#[trigger] rows@[j]).direction
                    == LineDirection::Row,
                forall|j: int| 0 <= j < y ==> (#[trigger] rows@[j]).point == (Vec2 {
                    x: 0,
                    y: j as u8,
                }),
                forall|j: int, k: int| 0 <= j < y && 0 <= k < 9
                    ==> (#[trigger] rows@[j].val(k)) == 0,
                forall|j: int, k: int, w: u8| 0 <= j < y && 0 <= k < 9
                    ==> !(#[trigger] cand_has(rows@[j].cmask(k), w)),
            decreases 9 - y,
        {
            rows.push(Line::new(Vec2::new(0, y), LineDirection::Row));
            y = y + 1;
        }
        let mut columns: Vec<Line> = Vec::new();
        let mut x: u8 = 0;
        while x < 9
            invariant
                x <= 9,
                columns@.len() == x,
                forall|j: int| 0 <= j < x ==> (#[trigger] columns@[j]).wf(),
                forall|j: int| 0 <= j < x ==> (#[trigger] columns@[j]).direction
                    == LineDirection::Column,
                forall|j: int| 0 <= j < x ==> (#[trigger] columns@[j]).point == (Vec2 {
                    x: j as u8,
                    y: 0,
                }),
                forall|j: int, k: int| 0 <= j < x && 0 <= k < 9
                    ==> (#[trigger] columns@[j].val(k)) == 0,
                forall|j: int, k: int, w: u8| 0 <= j < x && 0 <= k < 9
                    ==> !(#[trigger] cand_has(columns@[j].cmask(k), w)),
            decreases 9 - x,
        {
            columns.push(Line::new(Vec2::new(x, 0), LineDirection::Column));
            x = x + 1;
        }
        let mut squares: Vec<Square> = Vec::new();
        let mut i: u8 = 0;
        while i < 9
            invariant
                i <= 9,
                squares@.len() == i,
                forall|j: int| 0 <= j < i ==> (#[trigger] squares@[j]).wf(),
                forall|j: int| 0 <= j < i ==> (#[trigger] squares@[j]).x == j % 3,
                forall|j: int| 0 <= j < i ==> (#[trigger] squares@[j]).y == j / 3,
                forall|j: int, v: u8| 0 <= j < i ==> !(#[trigger] cand_has(
                    squares@[j].cells,
                    v,
                )),
            decreases 9 - i,
        {
            squares.push(Square::new(i % 3, i / 3));
            i = i + 1;
        }
        let r = Grid {
            columns,
            original_numbers: Vec::new(),
            rows,
            squares,
            invalid_cells: Vec::new(),
            solution: Vec::new(),
        };
        proof {
            assert(r.wf_struct());
            assert(r.proj_ok());
            assert forall|i2: int, v: u8| 0 <= i2 < 9 && 1 <= v <= 9 implies ((#[trigger] cand_has(
                r.squares[i2].cells,
                v,
            )) == exists|x2: int, y2: int| 0 <= x2 < 9 && 0 <= y2 < 9
                && x2 / 3 + 3 * (y2 / 3) == i2 && #[trigger] r.val(x2, y2) == v) by {
                assert(!cand_has(r.squares[i2].cells, v));
                if exists|x2: int, y2: int| 0 <= x2 < 9 && 0 <= y2 < 9
                    && x2 / 3 + 3 * (y2 / 3) == i2 && #[trigger] r.val(x2, y2) == v {
                    let (x2, y2) = choose|x2: int, y2: int| 0 <= x2 < 9 && 0 <= y2 < 9
                        && x2 / 3 + 3 * (y2 / 3) == i2 && #[trigger] r.val(x2, y2) == v;
                    assert(r.val(x2, y2) == 0);
                }
            }
        }
        r
    }

    /// Whether cell `point` holds a value.
    pub fn has_number(&self, point: &Vec2) -> (r: bool)
        requires
            self.wf(),
            point.x < 9,
            point.y < 9,
        ensures
            r == (self.val(point.x as int, point.y as int) != 0),
    {
        let row = &self.rows[point.y as usize];
        row.get_number(point) != 0
    }

    /// The value of cell `point`. The row and the column projections hold it
    /// redundantly; `wf` guarantees they agree, so the row copy is returned.
    pub fn get_number(&self, point: &Vec2) -> (r: CellValue)
        requires
            self.wf(),
            point.x < 9,
            point.y < 9,
        ensures
            r == self.val(point.x as int, point.y as int),
            r == self.col_val(point.x as int, point.y as int),
    {
        let row = &self.rows[point.y as usize];
        row.get_number(point)
    }

    /// The candidate digits of cell `point`, in increasing order. As with
    /// values, `wf` guarantees the two projections agree on the set.
    pub fn get_candidates(&self, point: &Vec2) -> (r: Vec<u8>)
        requires
            self.wf(),
            point.x < 9,
            point.y < 9,
        ensures
            forall|w: u8| r@.contains(w) == self.has_cand(point.x as int, point.y as int, w),
            forall|i: int, j: int| 0 <= i < j < r@.len() ==> r@[i] < r@[j],
            forall|i: int| 0 <= i < r@.len() ==> 1 <= #[trigger] r@[i] <= 9,
            r@.len() == mask_count(self.cmask_at(point.x as int, point.y as int)),
    {
        let row = &self.rows[point.y as usize];
        row.get_candidates(point)
    }

    /// Whether digit `number` is still a candidate of cell `point`.
    pub fn has_candidate(&self, point: &Vec2, number: u8) -> (r: bool)
        requires
            self.wf(),
            point.x < 9,
            point.y < 9,
        ensures
            r == self.has_cand(point.x as int, point.y as int, number),
    {
        let row = &self.rows[point.y as usize];
        let (mi, ci) = row.direction.mini_line_index(point);
        crate::candidates::mask_has(row.mini_lines[mi].candidates[ci], number)
    }

    /// Set the value of `point` in both the row and the column projections.
    fn set_value_pair(&mut self, point: &Vec2, number: u8)
        requires
            old(self).wf_struct(),
            point.x < 9,
            point.y < 9,
            number <= 9,
        ensures
            final(self).wf_struct(),
            final(self).val(point.x as int, point.y as int) == number,
            final(self).col_val(point.x as int, point.y as int) == number,
            forall|x: int, y: int| 0 <= x < 9 && 0 <= y < 9
                && !(x == point.x as int && y == point.y as int)
                ==> #[trigger] final(self).val(x, y) == old(self).val(x, y),
            forall|x: int, y: int| 0 <= x < 9 && 0 <= y < 9
                && !(x == point.x as int && y == point.y as int)
                ==> #[trigger] final(self).col_val(x, y) == old(self).col_val(x, y),
            forall|x: int, y: int| 0 <= x < 9 && 0 <= y < 9
                ==> #[trigger] final(self).cmask_at(x, y) == old(self).cmask_at(x, y),
            forall|x: int, y: int| 0 <= x < 9 && 0 <= y < 9
                ==> #[trigger] final(self).col_cmask(x, y) == old(self).col_cmask(x, y),
            final(self).squares@ == old(self).squares@,
            final(self).original_numbers@ == old(self).original_numbers@,
            final(self).invalid_cells@ == old(self).invalid_cells@,
            final(self).solution@ == old(self).solution@,
    {
        let mut row = self.rows[point.y as usize];
        row.set_number(point, number);
        self.rows[point.y as usize] = row;
        let mut col = self.columns[point.x as usize];
        col.set_number(point, number);
        self.columns[point.x as usize] = col;
    }

    /// Set the candidate mask of `point` in both projections.
    fn set_cmask_pair(&mut self, point: &Vec2, m: u16)
        requires
            old(self).wf_struct(),
            point.x < 9,
            point.y < 9,
            mask_wf(m),
        ensures
            final(self).wf_struct(),
            final(self).cmask_at(point.x as int, point.y as int) == m,
            final(self).col_cmask(point.x as int, point.y as int) == m,
            forall|x: int, y: int| 0 <= x < 9 && 0 <= y < 9
                && !(x == point.x as int && y == point.y as int)
                ==> #[trigger] final(self).cmask_at(x, y) == old(self).cmask_at(x, y),
            forall|x: int, y: int| 0 <= x < 9 && 0 <= y < 9
                && !(x == point.x as int && y == point.y as int)
                ==> #[trigger] final(self).col_cmask(x, y) == old(self).col_cmask(x, y),
            forall|x: int, y: int| 0 <= x < 9 && 0 <= y < 9
                ==> #[trigger] final(self).val(x, y) == old(self).val(x, y),
            forall|x: int, y: int| 0 <= x < 9 && 0 <= y < 9
                ==> #[trigger] final(self).col_val(x, y) == old(self).col_val(x, y),
            final(self).squares@ == old(self).squares@,
            final(self).original_numbers@ == old(self).original_numbers@,
            final(self).invalid_cells@ == old(self).invalid_cells@,
            final(self).solution@ == old(self).solution@,
    {
        let mut row = self.rows[point.y as usize];
        row.set_cmask(point, m);
        self.rows[point.y as usize] = row;
        let mut col = self.columns[point.x as usize];
        col.set_cmask(point, m);
        self.columns[point.x as usize] = col;
    }

    /// Remove digit `number` from the candidate set of `point` in both
    /// projections; report whether it was present.
    fn remove_candidate_pair(&mut self, point: &Vec2, number: u8) -> (r: bool)
        requires
            old(self).wf_struct(),
            point.x < 9,
            point.y < 9,
            1 <= number <= 9,
        ensures
            final(self).wf_struct(),
            r == cand_has(old(self).cmask_at(point.x as int, point.y as int), number),
            !r ==> final(self).rows@ == old(self).rows@,
            !cand_has(old(self).col_cmask(point.x as int, point.y as int), number)
                ==> final(self).columns@ == old(self).columns@,
            forall|w: u8| cand_has(final(self).cmask_at(point.x as int, point.y as int), w)
                == (cand_has(old(self).cmask_at(point.x as int, point.y as int), w)
                    && w != number),
            forall|w: u8| cand_has(final(self).col_cmask(point.x as int, point.y as int), w)
                == (cand_has(old(self).col_cmask(point.x as int, point.y as int), w)
                    && w != number),
            forall|x: int, y: int| 0 <= x < 9 && 0 <= y < 9
                && !(x == point.x as int && y == point.y as int)
                ==> #[trigger] final(self).cmask_at(x, y) == old(self).cmask_at(x, y),
            forall|x: int, y: int| 0 <= x < 9 && 0 <= y < 9
                && !(x == point.x as int && y == point.y as int)
                ==> #[trigger] final(self).col_cmask(x, y) == old(self).col_cmask(x, y),
            forall|x: int, y: int| 0 <= x < 9 && 0 <= y < 9
                ==> #[trigger] final(self).val(x, y) == old(self).val(x, y),
            forall|x: int, y: int| 0 <= x < 9 && 0 <= y < 9
                ==> #[trigger] final(self).col_val(x, y) == old(self).col_val(x, y),
            final(self).squares@ == old(self).squares@,
            final(self).original_numbers@ == old(self).original_numbers@,
            final(self).invalid_cells@ == old(self).invalid_cells@,
            final(self).solution@ == old(self).solution@,
    {
        let mut col = self.columns[point.x as usize];
        let rc = col.remove_candidate(point, number);
        self.columns[point.x as usize] = col;
        let mut row = self.rows[point.y as usize];
        let r = row.remove_candidate(point, number);
        self.rows[point.y as usize] = row;
        proof {
            if !rc {
                assert(self.columns@ =~= old(self).columns@);
            }
            if !r {
                assert(self.rows@ =~= old(self).rows@);
            }
        }
        r
    }

    /// Replace the candidate set of `point` (in both projections) by the set
    /// of digits listed in `candidates`.
    pub fn set_candidates(&mut self, point: &Vec2, candidates: Vec<CellValue>)
        requires
            old(self).wf(),
            point.x < 9,
            point.y < 9,
            forall|i: int| 0 <= i < candidates@.len() ==> 1 <= #[trigger] candidates@[i] <= 9,
        ensures
            final(self).wf(),
            forall|w: u8| final(self).has_cand(point.x as int, point.y as int, w)
                == candidates@.contains(w),
            forall|x: int, y: int| 0 <= x < 9 && 0 <= y < 9
                && !(x == point.x as int && y == point.y as int)
                ==> #[trigger] final(self).cmask_at(x, y) == old(self).cmask_at(x, y),
            forall|x: int, y: int| 0 <= x < 9 && 0 <= y < 9
                ==> #[trigger] final(self).val(x, y) == old(self).val(x, y),
            final(self).squares@ == old(self).squares@,
            final(self).original_numbers@ == old(self).original_numbers@,
            final(self).invalid_cells@ == old(self).invalid_cells@,
            final(self).solution@ == old(self).solution@,
    {
        let m = mask_from_vec(&candidates);
        self.set_cmask_pair(point, m);
        proof {
            Grid::lemma_squares_ok_preserved(*old(self), *self);
            assert forall|x: int, y: int| 0 <= x < 9 && 0 <= y < 9
                implies #[trigger] self.col_val(x, y) == self.val(x, y) by {
                assert(old(self).col_val(x, y) == old(self).val(x, y));
            }
            assert forall|x: int, y: int, w: u8| 0 <= x < 9 && 0 <= y < 9
                implies (#[trigger] cand_has(self.col_cmask(x, y), w))
                    == cand_has(self.cmask_at(x, y), w) by {
                assert((cand_has(old(self).col_cmask(x, y), w))
                    == cand_has(old(self).cmask_at(x, y), w));
                if !(x == point.x as int && y == point.y as int) {
                    assert(self.cmask_at(x, y) == old(self).cmask_at(x, y));
                    assert(self.col_cmask(x, y) == old(self).col_cmask(x, y));
                }
            }
        }
    }

    /// Remove digit `number` from the candidate set of `point` (in both
    /// projections); true exactly when it was present.
    pub fn remove_candidate(&mut self, point: &Vec2, number: CellValue) -> (r: bool)
        requires
            old(self).wf(),
            point.x < 9,
            point.y < 9,
            1 <= number <= 9,
        ensures
            final(self).wf(),
            r == old(self).has_cand(point.x as int, point.y as int, number),
            !r ==> final(self).rows@ == old(self).rows@
                && final(self).columns@ == old(self).columns@,
            forall|w: u8| final(self).has_cand(point.x as int, point.y as int, w)
                == (old(self).has_cand(point.x as int, point.y as int, w) && w != number),
            forall|x: int, y: int| 0 <= x < 9 && 0 <= y < 9
                && !(x == point.x as int && y == point.y as int)
                ==> #[trigger] final(self).cmask_at(x, y) == old(self).cmask_at(x, y),
            forall|x: int, y: int| 0 <= x < 9 && 0 <= y < 9
                ==> #[trigger] final(self).val(x, y) == old(self).val(x, y),
            final(self).squares@ == old(self).squares@,
            final(self).original_numbers@ == old(self).original_numbers@,
            final(self).invalid_cells@ == old(self).invalid_cells@,
            final(self).solution@ == old(self).solution@,
    {
        let r = self.remove_candidate_pair(point, number);
        proof {
            if !r {
                assert(!cand_has(old(self).col_cmask(point.x as int, point.y as int), number));
            }
            Grid::lemma_squares_ok_preserved(*old(self), *self);
            assert forall|x: int, y: int| 0 <= x < 9 && 0 <= y < 9
                implies #[trigger] self.col_val(x, y) == self.val(x, y) by {
                assert(old(self).col_val(x, y) == old(self).val(x, y));
            }
            assert forall|x: int, y: int, w: u8| 0 <= x < 9 && 0 <= y < 9
                implies (#[trigger] cand_has(self.col_cmask(x, y), w))
                    == cand_has(self.cmask_at(x, y), w) by {
                assert((cand_has(old(self).col_cmask(x, y), w))
                    == cand_has(old(self).cmask_at(x, y), w));
                if !(x == point.x as int && y == point.y as int) {
                    assert(self.cmask_at(x, y) == old(self).cmask_at(x, y));
                    assert(self.col_cmask(x, y) == old(self).col_cmask(x, y));
                }
            }
        }
        r
    }

    /// Assign `number` to the empty cell `point`: set it in both the row and
    /// the column projections, record it in the owning box, clear the cell's
    /// own candidate set, and remove `number` as a candidate from every cell
    /// sharing the point's row, column or box. This is the single mutation
    /// that advances solving.
    pub fn insert_number(&mut self, point: &Vec2, number: CellValue)
        requires
            old(self).wf(),
            point.x < 9,
            point.y < 9,
            1 <= number <= 9,
            old(self).val(point.x as int, point.y as int) == 0,
        ensures
            final(self).wf(),
            final(self).val(point.x as int, point.y as int) == number,
            forall|x: int, y: int| 0 <= x < 9 && 0 <= y < 9
                && !(x == point.x as int && y == point.y as int)
                ==> #[trigger] final(self).val(x, y) == old(self).val(x, y),
            forall|w: u8| !final(self).has_cand(point.x as int, point.y as int, w),
            forall|x: int, y: int, w: u8| 0 <= x < 9 && 0 <= y < 9
                && !(x == point.x as int && y == point.y as int)
                ==> (#[trigger] final(self).has_cand(x, y, w)) == (old(self).has_cand(x, y, w)
                    && !(w == number && same_unit(point.x as int, point.y as int, x, y))),
            forall|i: int, v: u8| 0 <= i < 9 && 1 <= v <= 9 ==> ((#[trigger] cand_has(
                final(self).squares[i].cells,
                v,
            )) == (cand_has(old(self).squares[i].cells, v)
                || (i == point.x as int / 3 + 3 * (point.y as int / 3) && v == number))),
            final(self).original_numbers@ == old(self).original_numbers@,
            final(self).invalid_cells@ == old(self).invalid_cells@,
            final(self).solution@ == old(self).solution@,
    {
        let ghost px = point.x as int;
        let ghost py = point.y as int;
        let si = Square::point_to_index(point);
        let mut sq = self.squares[si];
        sq.record(number);
        self.squares[si] = sq;
        self.set_value_pair(point, number);
        let empty = mask_none();
        self.set_cmask_pair(point, empty);
        let ghost s0 = *self;
        proof {
            assert forall|x: int, y: int| 0 <= x < 9 && 0 <= y < 9
                && !(x == px && y == py) implies #[trigger] s0.val(x, y) == old(self).val(x, y) by {}
            assert forall|x: int, y: int, w: u8| 0 <= x < 9 && 0 <= y < 9
                implies (#[trigger] cand_has(s0.col_cmask(x, y), w)) == cand_has(
                s0.cmask_at(x, y),
                w,
            ) by {
                if !(x == px && y == py) {
                    assert(cand_has(old(self).col_cmask(x, y), w) == cand_has(
                        old(self).cmask_at(x, y),
                        w,
                    ));
                }
            }
            assert forall|x: int, y: int| 0 <= x < 9 && 0 <= y < 9
                implies #[trigger] s0.col_val(x, y) == s0.val(x, y) by {
                if !(x == px && y == py) {
                    assert(old(self).col_val(x, y) == old(self).val(x, y));
                }
            }
        }
        // Sweep the owning box.
        let bx = (point.x / 3) * 3;
        let by = (point.y / 3) * 3;
        let mut i: u8 = 0;
        while i < 9
            invariant
                self.wf_struct(),
                i <= 9,
                bx == 3 * (px / 3),
                by == 3 * (py / 3),
                px == point.x as int,
                py == point.y as int,
                0 <= px < 9,
                0 <= py < 9,
                1 <= number <= 9,
                forall|x: int, y: int| 0 <= x < 9 && 0 <= y < 9
                    ==> #[trigger] self.val(x, y) == s0.val(x, y),
                forall|x: int, y: int| 0 <= x < 9 && 0 <= y < 9
                    ==> #[trigger] self.col_val(x, y) == s0.col_val(x, y),
                forall|x: int, y: int, w: u8| 0 <= x < 9 && 0 <= y < 9
                    ==> (#[trigger] cand_has(self.cmask_at(x, y), w)) == (cand_has(
                    s0.cmask_at(x, y),
                    w,
                ) && !(w == number && x / 3 == px / 3 && y / 3 == py / 3
                    && 3 * (x % 3) + (y % 3) < i)),
                forall|x: int, y: int, w: u8| 0 <= x < 9 && 0 <= y < 9
                    ==> (#[trigger] cand_has(self.col_cmask(x, y), w)) == (cand_has(
                    s0.col_cmask(x, y),
                    w,
                ) && !(w == number && x / 3 == px / 3 && y / 3 == py / 3
                    && 3 * (x % 3) + (y % 3) < i)),
                self.squares@ == s0.squares@,
                self.original_numbers@ == s0.original_numbers@,
                self.invalid_cells@ == s0.invalid_cells@,
                self.solution@ == s0.solution@,
            decreases 9 - i,
        {
            let q = Vec2::new(bx + i / 3, by + i % 3);
            proof {
                assert(q.x as int / 3 == px / 3 && q.y as int / 3 == py / 3);
                assert(3 * (q.x as int % 3) + (q.y as int % 3) == i);
            }
            self.remove_candidate_pair(&q, number);
            i = i + 1;
        }
        let ghost s1 = *self;
        // Sweep the row.
        let mut x: u8 = 0;
        while x < 9
            invariant
                self.wf_struct(),
                x <= 9,
                px == point.x as int,
                py == point.y as int,
                0 <= px < 9,
                0 <= py < 9,
                1 <= number <= 9,
                forall|x2: int, y2: int| 0 <= x2 < 9 && 0 <= y2 < 9
                    ==> #[trigger] self.val(x2, y2) == s1.val(x2, y2),
                forall|x2: int, y2: int| 0 <= x2 < 9 && 0 <= y2 < 9
                    ==> #[trigger] self.col_val(x2, y2) == s1.col_val(x2, y2),
                forall|x2: int, y2: int, w: u8| 0 <= x2 < 9 && 0 <= y2 < 9
                    ==> (#[trigger] cand_has(self.cmask_at(x2, y2), w)) == (cand_has(
                    s1.cmask_at(x2, y2),
                    w,
                ) && !(w == number && y2 == py && x2 < x)),
                forall|x2: int, y2: int, w: u8| 0 <= x2 < 9 && 0 <= y2 < 9
                    ==> (#[trigger] cand_has(self.col_cmask(x2, y2), w)) == (cand_has(
                    s1.col_cmask(x2, y2),
                    w,
                ) && !(w == number && y2 == py && x2 < x)),
                self.squares@ == s1.squares@,
                self.original_numbers@ == s1.original_numbers@,
                self.invalid_cells@ == s1.invalid_cells@,
                self.solution@ == s1.solution@,
            decreases 9 - x,
        {
            let q = Vec2::new(x, point.y);
            self.remove_candidate_pair(&q, number);
            x = x + 1;
        }
        let ghost s2 = *self;
        // Sweep the column.
        let mut y: u8 = 0;
        while y < 9
            invariant
                self.wf_struct(),
                y <= 9,
                px == point.x as int,
                py == point.y as int,
                0 <= px < 9,
                0 <= py < 9,
                1 <= number <= 9,
                forall|x2: int, y2: int| 0 <= x2 < 9 && 0 <= y2 < 9
                    ==> #[trigger] self.val(x2, y2) == s2.val(x2, y2),
                forall|x2: int, y2: int| 0 <= x2 < 9 && 0 <= y2 < 9
                    ==> #[trigger] self.col_val(x2, y2) == s2.col_val(x2, y2),
                forall|x2: int, y2: int, w: u8| 0 <= x2 < 9 && 0 <= y2 < 9
                    ==> (#[trigger] cand_has(self.cmask_at(x2, y2), w)) == (cand_has(
                    s2.cmask_at(x2, y2),
                    w,
                ) && !(w == number && x2 == px && y2 < y)),
                forall|x2: int, y2: int, w: u8| 0 <= x2 < 9 && 0 <= y2 < 9
                    ==> (#[trigger] cand_has(self.col_cmask(x2, y2), w)) == (cand_has(
                    s2.col_cmask(x2, y2),
                    w,
                ) && !(w == number && x2 == px && y2 < y)),
                self.squares@ == s2.squares@,
                self.original_numbers@ == s2.original_numbers@,
                self.invalid_cells@ == s2.invalid_cells@,
                self.solution@ == s2.solution@,
            decreases 9 - y,
        {
            let q = Vec2::new(point.x, y);
            self.remove_candidate_pair(&q, number);
            y = y + 1;
        }
        proof {
            let fin = *self;
            // Values: only the target cell changed, in both projections.
            assert(fin.val(px, py) == number);
            assert forall|x2: int, y2: int| 0 <= x2 < 9 && 0 <= y2 < 9
                && !(x2 == px && y2 == py)
                implies #[trigger] fin.val(x2, y2) == old(self).val(x2, y2) by {
                assert(fin.val(x2, y2) == s0.val(x2, y2));
            }
            // Candidate sets, traced through the three sweeps.
            assert forall|x2: int, y2: int, w: u8| 0 <= x2 < 9 && 0 <= y2 < 9
                && !(x2 == px && y2 == py)
                implies (#[trigger] cand_has(fin.cmask_at(x2, y2), w)) == (cand_has(
                old(self).cmask_at(x2, y2),
                w,
            ) && !(w == number && same_unit(px, py, x2, y2))) by {
                assert(cand_has(s0.cmask_at(x2, y2), w) == cand_has(
                    old(self).cmask_at(x2, y2),
                    w,
                ));
            }
            assert forall|w: u8| !cand_has(fin.cmask_at(px, py), w) by {
                assert(!cand_has(s0.cmask_at(px, py), w));
            }
            assert forall|x2: int, y2: int, w: u8| 0 <= x2 < 9 && 0 <= y2 < 9
                implies (#[trigger] cand_has(fin.col_cmask(x2, y2), w)) == cand_has(
                fin.cmask_at(x2, y2),
                w,
            ) by {
                assert(cand_has(s0.col_cmask(x2, y2), w) == cand_has(s0.cmask_at(x2, y2), w));
            }
            assert forall|x2: int, y2: int| 0 <= x2 < 9 && 0 <= y2 < 9
                implies #[trigger] fin.col_val(x2, y2) == fin.val(x2, y2) by {
                assert(fin.col_val(x2, y2) == s0.col_val(x2, y2));
                assert(fin.val(x2, y2) == s0.val(x2, y2));
            }
            // Box masks: only the owning box gained `number`.
            assert(fin.squares@ == old(self).squares@.update(
                px / 3 + 3 * (py / 3),
                fin.squares@[px / 3 + 3 * (py / 3)],
            ));
            assert forall|i2: int, v: u8| 0 <= i2 < 9 && 1 <= v <= 9
                implies ((#[trigger] cand_has(fin.squares[i2].cells, v)) == (cand_has(
                old(self).squares[i2].cells,
                v,
            ) || (i2 == px / 3 + 3 * (py / 3) && v == number))) by {
                if i2 != px / 3 + 3 * (py / 3) {
                    assert(fin.squares[i2] == old(self).squares[i2]);
                }
            }
            // Box consistency against the new values.
            assert forall|i2: int, v: u8| 0 <= i2 < 9 && 1 <= v <= 9
                implies ((#[trigger] cand_has(fin.squares[i2].cells, v))
                    == exists|x2: int, y2: int| 0 <= x2 < 9 && 0 <= y2 < 9
                        && x2 / 3 + 3 * (y2 / 3) == i2 && #[trigger] fin.val(x2, y2) == v) by {
                let home = px / 3 + 3 * (py / 3);
                if cand_has(fin.squares[i2].cells, v) {
                    if cand_has(old(self).squares[i2].cells, v) {
                        let (x2, y2) = choose|x2: int, y2: int| 0 <= x2 < 9 && 0 <= y2 < 9
                            && x2 / 3 + 3 * (y2 / 3) == i2 && #[trigger] old(self).val(x2, y2) == v;
                        assert(fin.val(x2, y2) == v);
                    } else {
                        assert(i2 == home && v == number);
                        assert(fin.val(px, py) == v && px / 3 + 3 * (py / 3) == i2);
                    }
                }
                if exists|x2: int, y2: int| 0 <= x2 < 9 && 0 <= y2 < 9
                    && x2 / 3 + 3 * (y2 / 3) == i2 && #[trigger] fin.val(x2, y2) == v {
                    let (x2, y2) = choose|x2: int, y2: int| 0 <= x2 < 9 && 0 <= y2 < 9
                        && x2 / 3 + 3 * (y2 / 3) == i2 && #[trigger] fin.val(x2, y2) == v;
                    if x2 == px && y2 == py {
                        assert(v == number && i2 == home);
                    } else {
                        assert(old(self).val(x2, y2) == v);
                        assert(cand_has(old(self).squares[i2].cells, v));
                    }
                }
            }
        }
    }


    /// Recompute the candidate set of `point` from scratch: the digits 1..=9
    /// not yet present in the point's row, column or box. Both projections
    /// receive the same set.
    pub fn calculate_candidates(&mut self, point: &Vec2)
        requires
            old(self).wf(),
            point.x < 9,
            point.y < 9,
        ensures
            final(self).wf(),
            forall|w: u8| final(self).has_cand(point.x as int, point.y as int, w)
                == old(self).cell_candidate(point.x as int, point.y as int, w),
            forall|x: int, y: int| 0 <= x < 9 && 0 <= y < 9
                && !(x == point.x as int && y == point.y as int)
                ==> #[trigger] final(self).cmask_at(x, y) == old(self).cmask_at(x, y),
            forall|x: int, y: int| 0 <= x < 9 && 0 <= y < 9
                ==> #[trigger] final(self).val(x, y) == old(self).val(x, y),
            final(self).squares@ == old(self).squares@,
            final(self).original_numbers@ == old(self).original_numbers@,
            final(self).invalid_cells@ == old(self).invalid_cells@,
            final(self).solution@ == old(self).solution@,
    {
        let ghost px = point.x as int;
        let ghost py = point.y as int;
        let si = Square::point_to_index(point);
        let mut m: u16 = mask_none();
        let mut v: u8 = 1;
        while v <= 9
            invariant
                self.wf(),
                *self == *old(self),
                point.x < 9,
                point.y < 9,
                px == point.x as int,
                py == point.y as int,
                si as int == px / 3 + 3 * (py / 3),
                1 <= v <= 10,
                mask_wf(m),
                forall|w: u8| cand_has(m, w) == (w < v && self.cell_candidate(px, py, w)),
            decreases 10 - v,
        {
            let row_has = self.rows[point.y as usize].has_number(v);
            let col_has = self.columns[point.x as usize].has_number(v);
            let sq_has = self.squares[si].has_number(v);
            proof {
                if row_has {
                    let k = choose|k: int| 0 <= k < 9 && self.rows[py].val(k) == v;
                    assert(self.val(k, py) == v);
                }
                if self.row_has_value(py, v) {
                    let k = choose|k: int| 0 <= k < 9 && #[trigger] self.val(k, py) == v;
                    assert(self.rows[py].val(k) == v);
                }
                assert(row_has == self.row_has_value(py, v));
                assert(col_has == (exists|k: int| 0 <= k < 9
                    && #[trigger] self.columns[px].val(k) == v));
                assert forall|k: int| 0 <= k < 9
                    implies #[trigger] self.columns[px].val(k) == self.val(px, k) by {
                    assert(self.col_val(px, k) == self.val(px, k));
                }
                if col_has {
                    let k = choose|k: int| 0 <= k < 9 && #[trigger] self.columns[px].val(k) == v;
                    assert(self.val(px, k) == v);
                }
                if self.col_has_value(px, v) {
                    let k = choose|k: int| 0 <= k < 9 && #[trigger] self.val(px, k) == v;
                    assert(self.columns[px].val(k) == v);
                }
                assert(col_has == self.col_has_value(px, v));
                assert(sq_has == self.box_has_value(si as int, v));
            }
            if !row_has && !col_has && !sq_has {
                m = mask_add(m, v);
            }
            v = v + 1;
        }
        self.set_cmask_pair(point, m);
        proof {
            Grid::lemma_squares_ok_preserved(*old(self), *self);
            assert forall|x: int, y: int| 0 <= x < 9 && 0 <= y < 9
                implies #[trigger] self.col_val(x, y) == self.val(x, y) by {
                assert(old(self).col_val(x, y) == old(self).val(x, y));
            }
            assert forall|x: int, y: int, w: u8| 0 <= x < 9 && 0 <= y < 9
                implies (#[trigger] cand_has(self.col_cmask(x, y), w))
                    == cand_has(self.cmask_at(x, y), w) by {
                assert((cand_has(old(self).col_cmask(x, y), w))
                    == cand_has(old(self).cmask_at(x, y), w));
                if !(x == px && y == py) {
                    assert(self.cmask_at(x, y) == old(self).cmask_at(x, y));
                    assert(self.col_cmask(x, y) == old(self).col_cmask(x, y));
                }
            }
        }
    }

    /// Whether every assigned cell's value is recorded in its owning box.
    /// Under `wf` this always holds; the scan re-checks it from the raw data.
    pub fn verify_data_structure(&self) -> (r: bool)
        requires
            self.wf_struct(),
        ensures
            r == (forall|x: int, y: int| 0 <= x < 9 && 0 <= y < 9
                && #[trigger] self.val(x, y) != 0
                ==> cand_has(self.squares[x / 3 + 3 * (y / 3)].cells, self.val(x, y))),
    {
        let mut x: u8 = 0;
        while x < 9
            invariant
                self.wf_struct(),
                x <= 9,
                forall|x2: int, y2: int| 0 <= x2 < x && 0 <= y2 < 9
                    && #[trigger] self.val(x2, y2) != 0
                    ==> cand_has(self.squares[x2 / 3 + 3 * (y2 / 3)].cells, self.val(x2, y2)),
            decreases 9 - x,
        {
            let mut y: u8 = 0;
            while y < 9
                invariant
                    self.wf_struct(),
                    x < 9,
                    y <= 9,
                    forall|x2: int, y2: int| 0 <= x2 < x && 0 <= y2 < 9
                        && #[trigger] self.val(x2, y2) != 0
                        ==> cand_has(self.squares[x2 / 3 + 3 * (y2 / 3)].cells, self.val(x2, y2)),
                    forall|y2: int| 0 <= y2 < y && #[trigger] self.val(x as int, y2) != 0
                        ==> cand_has(
                        self.squares[x as int / 3 + 3 * (y2 / 3)].cells,
                        self.val(x as int, y2),
                    ),
                decreases 9 - y,
            {
                let q = Vec2::new(x, y);
                let number = self.rows[y as usize].get_number(&q);
                if number != 0 {
                    let si = Square::point_to_index(&q);
                    if !self.squares[si].has_number(number) {
                        proof {
                            assert(number == self.val(x as int, y as int));
                            assert(self.val(x as int, y as int) != 0 && !cand_has(
                                self.squares[x as int / 3 + 3 * (y as int / 3)].cells,
                                self.val(x as int, y as int),
                            ));
                        }
                        return false;
                    }
                }
                y = y + 1;
            }
            x = x + 1;
        }
        true
    }

    /// Whether some row or some column holds a repeated nonzero value.
    pub open spec fn any_line_duplicate(self) -> bool {
        ||| exists|y: int| 0 <= y < 9 && (#[trigger] self.rows[y]).has_duplicate()
        ||| exists|x: int| 0 <= x < 9 && (#[trigger] self.columns[x]).has_duplicate()
    }

    /// An empty cell whose candidate set is empty: a dead end.
    pub open spec fn cell_dead(self, x: int, y: int) -> bool {
        self.val(x, y) == 0 && forall|w: u8| !self.has_cand(x, y, w)
    }

    /// Whether the grid holds a dead end.
    pub open spec fn any_dead_cell(self) -> bool {
        exists|x: int, y: int| 0 <= x < 9 && 0 <= y < 9 && #[trigger] self.cell_dead(x, y)
    }

    /// Whether `p` is the later of two equal nonzero values in its row or in
    /// its column.
    pub open spec fn marks_duplicate(self, p: Vec2) -> bool {
        &&& p.x < 9
        &&& p.y < 9
        &&& self.val(p.x as int, p.y as int) != 0
        &&& {
            ||| exists|x: int| 0 <= x < p.x as int && #[trigger] self.val(x, p.y as int)
                == self.val(p.x as int, p.y as int)
            ||| exists|y: int| 0 <= y < p.y as int && #[trigger] self.val(p.x as int, y)
                == self.val(p.x as int, p.y as int)
        }
    }

    /// Scan all 9 rows and all 9 columns for repeated nonzero values,
    /// recording the coordinate of each repeat, then scan for dead ends.
    /// True exactly when no repeat and no dead end exists.
    pub fn verify(&mut self) -> (r: bool)
        requires
            old(self).wf(),
        ensures
            final(self).wf(),
            forall|x: int, y: int| 0 <= x < 9 && 0 <= y < 9
                ==> #[trigger] final(self).val(x, y) == old(self).val(x, y),
            forall|x: int, y: int| 0 <= x < 9 && 0 <= y < 9
                ==> #[trigger] final(self).cmask_at(x, y) == old(self).cmask_at(x, y),
            final(self).rows@ == old(self).rows@,
            final(self).columns@ == old(self).columns@,
            final(self).squares@ == old(self).squares@,
            final(self).original_numbers@ == old(self).original_numbers@,
            final(self).solution@ == old(self).solution@,
            r == (!old(self).any_line_duplicate() && !old(self).any_dead_cell()),
            r ==> final(self).invalid_cells@ == old(self).invalid_cells@,
            old(self).invalid_cells@.is_prefix_of(final(self).invalid_cells@),
            forall|i: int| old(self).invalid_cells@.len() <= i < final(self).invalid_cells@.len()
                ==> old(self).marks_duplicate(#[trigger] final(self).invalid_cells@[i]),
    {
        let mut valid = true;
        let mut k: u8 = 0;
        while k < 9
            invariant
                self.rows@ == old(self).rows@,
                self.columns@ == old(self).columns@,
                self.squares@ == old(self).squares@,
                self.original_numbers@ == old(self).original_numbers@,
                self.solution@ == old(self).solution@,
                old(self).wf(),
                self.wf(),
                k <= 9,
                valid == forall|j: int| 0 <= j < k ==> !(#[trigger] self.rows[j]).has_duplicate(),
                valid ==> self.invalid_cells@ == old(self).invalid_cells@,
                old(self).invalid_cells@.is_prefix_of(self.invalid_cells@),
                forall|i: int| old(self).invalid_cells@.len() <= i < self.invalid_cells@.len()
                    ==> old(self).marks_duplicate(#[trigger] self.invalid_cells@[i]),
            decreases 9 - k,
        {
            let row = self.rows[k as usize];
            let dup = row.verify();
            match dup {
                Some(p) => {
                    proof {
                        assert(row.has_duplicate());
                        assert(row.direction == LineDirection::Row);
                        assert(p.y == k && p.x < 9);
                        assert(row.direction.spec_offset(p) == p.x);
                        let i = choose|i: int| 0 <= i < row.direction.spec_offset(p) as int
                            && #[trigger] row.val(i) == row.val(row.direction.spec_offset(p) as int);
                        assert(old(self).val(i, p.y as int) == row.val(i));
                        assert(old(self).val(p.x as int, p.y as int) == row.val(p.x as int));
                        assert(old(self).val(p.x as int, p.y as int) != 0);
                        assert(old(self).marks_duplicate(p));
                    }
                    self.invalid_cells.push(p);
                    valid = false;
                    proof {
                        Grid::lemma_wf_congruence(*old(self), *self);
                    }
                }
                None => {
                    proof {
                        assert(!row.has_duplicate());
                    }
                }
            }
            k = k + 1;
        }
        let ghost no_row_dup = valid;
        let mut k2: u8 = 0;
        while k2 < 9
            invariant
                self.rows@ == old(self).rows@,
                self.columns@ == old(self).columns@,
                self.squares@ == old(self).squares@,
                self.original_numbers@ == old(self).original_numbers@,
                self.solution@ == old(self).solution@,
                old(self).wf(),
                self.wf(),
                k2 <= 9,
                no_row_dup == forall|j: int| 0 <= j < 9
                    ==> !(#[trigger] self.rows[j]).has_duplicate(),
                valid == (no_row_dup && forall|j: int| 0 <= j < k2
                    ==> !(#[trigger] self.columns[j]).has_duplicate()),
                valid ==> self.invalid_cells@ == old(self).invalid_cells@,
                old(self).invalid_cells@.is_prefix_of(self.invalid_cells@),
                forall|i: int| old(self).invalid_cells@.len() <= i < self.invalid_cells@.len()
                    ==> old(self).marks_duplicate(#[trigger] self.invalid_cells@[i]),
            decreases 9 - k2,
        {
            let column = self.columns[k2 as usize];
            let dup = column.verify();
            match dup {
                Some(p) => {
                    proof {
                        assert(column.has_duplicate());
                        assert(column.direction == LineDirection::Column);
                        assert(p.x == k2 && p.y < 9);
                        assert(column.direction.spec_offset(p) == p.y);
                        let i = choose|i: int| 0 <= i < column.direction.spec_offset(p) as int
                            && #[trigger] column.val(i)
                                == column.val(column.direction.spec_offset(p) as int);
                        assert(old(self).col_val(k2 as int, i) == column.val(i));
                        assert(old(self).col_val(k2 as int, i) == old(self).val(k2 as int, i));
                        assert(old(self).col_val(p.x as int, p.y as int)
                            == column.val(p.y as int));
                        assert(old(self).col_val(p.x as int, p.y as int)
                            == old(self).val(p.x as int, p.y as int));
                        assert(old(self).val(k2 as int, i)
                            == old(self).val(p.x as int, p.y as int));
                        assert(old(self).val(p.x as int, p.y as int) != 0);
                        assert(old(self).marks_duplicate(p));
                    }
                    self.invalid_cells.push(p);
                    valid = false;
                    proof {
                        Grid::lemma_wf_congruence(*old(self), *self);
                    }
                }
                None => {
                    proof {
                        assert(!column.has_duplicate());
                    }
                }
            }
            k2 = k2 + 1;
        }
        let mut x: u8 = 0;
        while x < 9
            invariant
                self.rows@ == old(self).rows@,
                self.columns@ == old(self).columns@,
                self.squares@ == old(self).squares@,
                self.original_numbers@ == old(self).original_numbers@,
                self.solution@ == old(self).solution@,
                old(self).wf(),
                self.wf(),
                x <= 9,
                valid == !old(self).any_line_duplicate(),
                valid ==> self.invalid_cells@ == old(self).invalid_cells@,
                old(self).invalid_cells@.is_prefix_of(self.invalid_cells@),
                forall|i: int| old(self).invalid_cells@.len() <= i < self.invalid_cells@.len()
                    ==> old(self).marks_duplicate(#[trigger] self.invalid_cells@[i]),
                forall|x2: int, y2: int| 0 <= x2 < x && 0 <= y2 < 9
                    ==> !(#[trigger] self.cell_dead(x2, y2)),
            decreases 9 - x,
        {
            let mut y: u8 = 0;
            while y < 9
                invariant
                    self.rows@ == old(self).rows@,
                    self.columns@ == old(self).columns@,
                    self.squares@ == old(self).squares@,
                    self.original_numbers@ == old(self).original_numbers@,
                    self.solution@ == old(self).solution@,
                    self.wf(),
                    x < 9,
                    y <= 9,
                    valid == !old(self).any_line_duplicate(),
                    valid ==> self.invalid_cells@ == old(self).invalid_cells@,
                    old(self).invalid_cells@.is_prefix_of(self.invalid_cells@),
                    forall|i: int| old(self).invalid_cells@.len() <= i < self.invalid_cells@.len()
                        ==> old(self).marks_duplicate(#[trigger] self.invalid_cells@[i]),
                    forall|x2: int, y2: int| 0 <= x2 < x && 0 <= y2 < 9
                        ==> !(#[trigger] self.cell_dead(x2, y2)),
                    forall|y2: int| 0 <= y2 < y ==> !(#[trigger] self.cell_dead(x as int, y2)),
                decreases 9 - y,
            {
                let q = Vec2::new(x, y);
                if !self.has_number(&q) {
                    let cands = self.get_candidates(&q);
                    if cands.len() == 0 {
                        proof {
                            assert forall|w: u8| !self.has_cand(x as int, y as int, w) by {
                                assert(!cands@.contains(w));
                            }
                            assert(self.cell_dead(x as int, y as int));
                            assert(old(self).rows[y as int] == self.rows[y as int]);
                            assert(old(self).val(x as int, y as int)
                                == self.val(x as int, y as int));
                            assert(old(self).cmask_at(x as int, y as int)
                                == self.cmask_at(x as int, y as int));
                            assert forall|w: u8| !old(self).has_cand(x as int, y as int, w) by {
                                assert(!self.has_cand(x as int, y as int, w));
                            }
                            assert(old(self).cell_dead(x as int, y as int));
                            assert(old(self).any_dead_cell());
                        }
                        return false;
                    }
                    proof {
                        assert(cands@.contains(cands@[0]));
                        assert(self.has_cand(x as int, y as int, cands@[0]));
                        assert(!self.cell_dead(x as int, y as int));
                    }
                } else {
                    proof {
                        assert(self.val(x as int, y as int) != 0);
                        assert(!self.cell_dead(x as int, y as int));
                    }
                }
                y = y + 1;
            }
            x = x + 1;
        }
        proof {
            if old(self).any_dead_cell() {
                let (x2, y2) = choose|x2: int, y2: int| 0 <= x2 < 9 && 0 <= y2 < 9
                    && #[trigger] old(self).cell_dead(x2, y2);
                assert(old(self).rows[y2] == self.rows[y2]);
                assert(self.val(x2, y2) == old(self).val(x2, y2));
                assert(self.cmask_at(x2, y2) == old(self).cmask_at(x2, y2));
                assert forall|w: u8| !self.has_cand(x2, y2, w) by {
                    assert(!old(self).has_cand(x2, y2, w));
                }
                assert(self.cell_dead(x2, y2));
                assert(false);
            }
            assert forall|x2: int, y2: int| 0 <= x2 < 9 && 0 <= y2 < 9
                implies #[trigger] self.val(x2, y2) == old(self).val(x2, y2) by {
                assert(old(self).rows[y2] == self.rows[y2]);
            }
            assert forall|x2: int, y2: int| 0 <= x2 < 9 && 0 <= y2 < 9
                implies #[trigger] self.cmask_at(x2, y2) == old(self).cmask_at(x2, y2) by {
                assert(old(self).rows[y2] == self.rows[y2]);
            }
        }
        valid
    }

}

/// For a well-formed grid, reading any cell through its row or through its
/// column gives the same value and the same candidate set.
pub proof fn lemma_projection_consistent(g: Grid, x: int, y: int)
    requires
        g.wf(),
        0 <= x < 9,
        0 <= y < 9,
    ensures
        g.col_val(x, y) == g.val(x, y),
        forall|w: u8| cand_has(g.col_cmask(x, y), w) == cand_has(g.cmask_at(x, y), w),
{
}

/// A grid without row or column repeats (as `verify` reports) holds every
/// nonzero value at most once in each row and at most once in each column.
pub proof fn lemma_accepted_grid_unique(g: Grid)
    requires
        g.wf(),
        !g.any_line_duplicate(),
    ensures
        forall|x1: int, x2: int, y: int| 0 <= x1 < x2 < 9 && 0 <= y < 9
            && #[trigger] g.val(x1, y) != 0 ==> g.val(x1, y) != #[trigger] g.val(x2, y),
        forall|y1: int, y2: int, x: int| 0 <= y1 < y2 < 9 && 0 <= x < 9
            && #[trigger] g.val(x, y1) != 0 ==> g.val(x, y1) != #[trigger] g.val(x, y2),
{
    assert forall|x1: int, x2: int, y: int| 0 <= x1 < x2 < 9 && 0 <= y < 9
        && #[trigger] g.val(x1, y) != 0 implies g.val(x1, y) != #[trigger] g.val(x2, y) by {
        assert(!g.rows[y].has_duplicate());
        if g.val(x1, y) == g.val(x2, y) {
            assert(g.rows[y].val(x1) != 0 && g.rows[y].val(x1) == g.rows[y].val(x2));
        }
    }
    assert forall|y1: int, y2: int, x: int| 0 <= y1 < y2 < 9 && 0 <= x < 9
        && #[trigger] g.val(x, y1) != 0 implies g.val(x, y1) != #[trigger] g.val(x, y2) by {
        assert(!g.columns[x].has_duplicate());
        assert(g.col_val(x, y1) == g.val(x, y1));
        assert(g.col_val(x, y2) == g.val(x, y2));
        if g.val(x, y1) == g.val(x, y2) {
            assert(g.columns[x].val(y1) != 0 && g.columns[x].val(y1) == g.columns[x].val(y2));
        }
    }
}

/// An element-by-element copy of a vector of plain values.
pub fn copy_vec<T: Copy>(v: &Vec<T>) -> (r: Vec<T>)
    ensures
        r@ == v@,
{
    let mut r: Vec<T> = Vec::new();
    let mut i: usize = 0;
    while i < v.len()
        invariant
            i <= v@.len(),
            r@ == v@.subrange(0, i as int),
        decreases v@.len() - i,
    {
        r.push(v[i]);
        proof {
            assert(r@ =~= v@.subrange(0, i + 1));
        }
        i = i + 1;
    }
    proof {
        assert(r@ =~= v@);
    }
    r
}

impl Clone for Grid {
    /// A deep copy: every projection and every auxiliary list is duplicated,
    /// so mutating the copy never touches the original.
    fn clone(&self) -> (r: Self)
        ensures
            r.rows@ == self.rows@,
            r.columns@ == self.columns@,
            r.squares@ == self.squares@,
            r.original_numbers@ == self.original_numbers@,
            r.invalid_cells@ == self.invalid_cells@,
            r.solution@ == self.solution@,
    {
        Grid {
            columns: copy_vec(&self.columns),
            original_numbers: copy_vec(&self.original_numbers),
            rows: copy_vec(&self.rows),
            squares: copy_vec(&self.squares),
            invalid_cells: copy_vec(&self.invalid_cells),
            solution: copy_vec(&self.solution),
        }
    }
}

} // verus!
