use vstd::prelude::*;

verus! {

use crate::candidates::cand_has;
use crate::measure::{grid_measure, lemma_grid_measure_congruence, lemma_measure_lt_candidate_loss,
    lemma_measure_lt_insert};
use crate::grid::{CellValue, Coord, Grid};
use crate::square::Square;
use crate::vec2::Vec2;

/// A hidden single: `v` fits cell (x, y), and no other empty cell of the
/// box still lists `v`, so (x, y) must take `v`.
pub open spec fn hidden_single(g: Grid, x: int, y: int, v: u8) -> bool {
    &&& 0 <= x < 9
    &&& 0 <= y < 9
    &&& g.val(x, y) == 0
    &&& g.has_cand(x, y, v)
    &&& forall|x2: int, y2: int| 0 <= x2 < 9 && 0 <= y2 < 9 && x2 / 3 == x / 3
        && y2 / 3 == y / 3 && !(x2 == x && y2 == y) && g.val(x2, y2) == 0
        ==> !(#[trigger] g.has_cand(x2, y2, v))
}

/// Whether (x, y) is an empty cell of box `s` that still lists `v`.
pub open spec fn box_cell_fits(g: Grid, s: int, x: int, y: int, v: u8) -> bool {
    &&& 0 <= x < 9
    &&& 0 <= y < 9
    &&& x / 3 == s % 3
    &&& y / 3 == s / 3
    &&& g.val(x, y) == 0
    &&& g.has_cand(x, y, v)
}

/// Whether some cell of row `y` inside box column `sx` still lists `v`.
pub open spec fn row_mini_has_cand(g: Grid, y: int, sx: int, v: u8) -> bool {
    exists|x: int| 0 <= x < 9 && x / 3 == sx && #[trigger] g.has_cand(x, y, v)
}

/// Whether some cell of column `x` inside box row `sy` still lists `v`.
pub open spec fn col_mini_has_cand(g: Grid, x: int, sy: int, v: u8) -> bool {
    exists|y: int| 0 <= y < 9 && y / 3 == sy && #[trigger] g.has_cand(x, y, v)
}

/// In row `y`, every remaining occurrence of `v` lies inside box column `sx`.
pub open spec fn claim_row_confined(g: Grid, y: int, sx: int, v: u8) -> bool {
    &&& row_mini_has_cand(g, y, sx, v)
    &&& forall|sx2: int| 0 <= sx2 < 3 && sx2 != sx
        ==> !(#[trigger] row_mini_has_cand(g, y, sx2, v))
}

/// In column `x`, every remaining occurrence of `v` lies inside box row `sy`.
pub open spec fn claim_col_confined(g: Grid, x: int, sy: int, v: u8) -> bool {
    &&& col_mini_has_cand(g, x, sy, v)
    &&& forall|sy2: int| 0 <= sy2 < 3 && sy2 != sy
        ==> !(#[trigger] col_mini_has_cand(g, x, sy2, v))
}

/// The row-claiming rule removes `v` from (x, y): another row of (x, y)'s
/// box confines its occurrences of `v` to that box.
pub open spec fn claim_row_removal(g: Grid, x: int, y: int, v: u8) -> bool {
    exists|y2: int| 0 <= y2 < 9 && y2 / 3 == y / 3 && y2 != y
        && #[trigger] claim_row_confined(g, y2, x / 3, v)
}

/// The column-claiming rule removes `v` from (x, y): another column of
/// (x, y)'s box confines its occurrences of `v` to that box.
pub open spec fn claim_col_removal(g: Grid, x: int, y: int, v: u8) -> bool {
    exists|x2: int| 0 <= x2 < 9 && x2 / 3 == x / 3 && x2 != x
        && #[trigger] claim_col_confined(g, x2, y / 3, v)
}

/// Whether the removal list holds the pair ((x, y), v).
pub open spec fn listed(list: Seq<((u8, u8), u8)>, x: int, y: int, v: u8) -> bool {
    exists|j: int| 0 <= j < list.len() && #[trigger] list[j] == (((x as u8), (y as u8)), v)
}

/// How phase one of claiming encodes a (row, digit) pair: the single box
/// column holding the digit (0..=2), 4 when several box columns hold it, and
/// 5 when none does.
pub open spec fn claim_row_enc(g: Grid, y: int, v: u8, e: u8) -> bool {
    &&& (e < 3 ==> claim_row_confined(g, y, e as int, v))
    &&& (e == 4 ==> exists|s1: int, s2: int| 0 <= s1 < 3 && 0 <= s2 < 3 && s1 != s2
        && #[trigger] row_mini_has_cand(g, y, s1, v) && #[trigger] row_mini_has_cand(g, y, s2, v))
    &&& (e == 5 ==> forall|sx: int| 0 <= sx < 3 ==> !(#[trigger] row_mini_has_cand(g, y, sx, v)))
    &&& (e < 3 || e == 4 || e == 5)
}

/// The column-claiming counterpart of `claim_row_enc`.
pub open spec fn claim_col_enc(g: Grid, x: int, v: u8, e: u8) -> bool {
    &&& (e < 3 ==> claim_col_confined(g, x, e as int, v))
    &&& (e == 4 ==> exists|s1: int, s2: int| 0 <= s1 < 3 && 0 <= s2 < 3 && s1 != s2
        && #[trigger] col_mini_has_cand(g, x, s1, v) && #[trigger] col_mini_has_cand(g, x, s2, v))
    &&& (e == 5 ==> forall|sy: int| 0 <= sy < 3 ==> !(#[trigger] col_mini_has_cand(g, x, sy, v)))
    &&& (e < 3 || e == 4 || e == 5)
}

/// In box `s`, every remaining occurrence of `v` lies on row `y`.
pub open spec fn pointing_row(g: Grid, s: int, y: int, v: u8) -> bool {
    &&& 0 <= y < 9
    &&& y / 3 == s / 3
    &&& row_mini_has_cand(g, y, s % 3, v)
    &&& forall|y2: int| 0 <= y2 < 9 && y2 / 3 == s / 3 && y2 != y
        ==> !(#[trigger] row_mini_has_cand(g, y2, s % 3, v))
}

/// In box `s`, every remaining occurrence of `v` lies in column `x`.
pub open spec fn pointing_col(g: Grid, s: int, x: int, v: u8) -> bool {
    &&& 0 <= x < 9
    &&& x / 3 == s % 3
    &&& col_mini_has_cand(g, x, s / 3, v)
    &&& forall|x2: int| 0 <= x2 < 9 && x2 / 3 == s % 3 && x2 != x
        ==> !(#[trigger] col_mini_has_cand(g, x2, s / 3, v))
}

/// Box `s` still lists `v` on two or more of its rows.
pub open spec fn box_multi_row(g: Grid, s: int, v: u8) -> bool {
    exists|y1: int, y2: int| 0 <= y1 < 9 && 0 <= y2 < 9 && y1 / 3 == s / 3 && y2 / 3 == s / 3
        && y1 != y2 && (#[trigger] row_mini_has_cand(g, y1, s % 3, v))
        && (#[trigger] row_mini_has_cand(g, y2, s % 3, v))
}

/// Box `s` still lists `v` in two or more of its columns.
pub open spec fn box_multi_col(g: Grid, s: int, v: u8) -> bool {
    exists|x1: int, x2: int| 0 <= x1 < 9 && 0 <= x2 < 9 && x1 / 3 == s % 3 && x2 / 3 == s % 3
        && x1 != x2 && (#[trigger] col_mini_has_cand(g, x1, s / 3, v))
        && (#[trigger] col_mini_has_cand(g, x2, s / 3, v))
}

/// The pointing rule removes `v` from (x, y) along the row: another box of
/// the row's band confines `v` to row `y`, while (x, y)'s own box still
/// spreads `v` over several rows.
pub open spec fn pointing_row_removal(g: Grid, x: int, y: int, v: u8) -> bool {
    &&& exists|s: int| 0 <= s < 9 && s / 3 == y / 3 && s % 3 != x / 3
        && #[trigger] pointing_row(g, s, y, v)
    &&& box_multi_row(g, x / 3 + 3 * (y / 3), v)
}

/// The pointing rule removes `v` from (x, y) along the column: another box of
/// the column's band confines `v` to column `x`, while (x, y)'s own box still
/// spreads `v` over several columns.
pub open spec fn pointing_col_removal(g: Grid, x: int, y: int, v: u8) -> bool {
    &&& exists|s: int| 0 <= s < 9 && s % 3 == x / 3 && s / 3 != y / 3
        && #[trigger] pointing_col(g, s, x, v)
    &&& box_multi_col(g, x / 3 + 3 * (y / 3), v)
}

/// How phase one of pointing encodes a (box, digit) pair over rows: `cnt`
/// counts the box rows still holding the digit (two standing for two or
/// more), and `idx` names the single such row when there is exactly one.
pub open spec fn point_row_enc(g: Grid, s: int, v: u8, cnt: u8, idx: u8) -> bool {
    &&& cnt <= 2
    &&& (cnt == 0 ==> forall|y: int| 0 <= y < 9 && y / 3 == s / 3
        ==> !(#[trigger] row_mini_has_cand(g, y, s % 3, v)))
    &&& (cnt == 1 ==> pointing_row(g, s, idx as int, v))
    &&& (cnt == 2 <==> box_multi_row(g, s, v))
}

/// The column counterpart of `point_row_enc`.
pub open spec fn point_col_enc(g: Grid, s: int, v: u8, cnt: u8, idx: u8) -> bool {
    &&& cnt <= 2
    &&& (cnt == 0 ==> forall|x: int| 0 <= x < 9 && x / 3 == s % 3
        ==> !(#[trigger] col_mini_has_cand(g, x, s / 3, v)))
    &&& (cnt == 1 ==> pointing_col(g, s, idx as int, v))
    &&& (cnt == 2 <==> box_multi_col(g, s, v))
}

/// A naked single: the candidate set of (x, y) is exactly {v}.
pub open spec fn naked_single(g: Grid, x: int, y: int, v: u8) -> bool {
    &&& g.has_cand(x, y, v)
    &&& forall|w: u8| w != v ==> !(#[trigger] g.has_cand(x, y, w))
}

/// No strategy can make progress: no hidden single, no naked single, and no
/// pointing or claiming elimination with a candidate left to remove.
pub open spec fn quiescent(g: Grid) -> bool {
    &&& forall|x: int, y: int, v: u8| !(#[trigger] hidden_single(g, x, y, v))
    &&& forall|x: int, y: int, v: u8| 0 <= x < 9 && 0 <= y < 9
        ==> !(#[trigger] naked_single(g, x, y, v))
    &&& forall|x: int, y: int, v: u8| 0 <= x < 9 && 0 <= y < 9 && #[trigger] g.has_cand(x, y, v)
        ==> !pointing_row_removal(g, x, y, v) && !pointing_col_removal(g, x, y, v)
            && !claim_row_removal(g, x, y, v) && !claim_col_removal(g, x, y, v)
}

/// No strategy can act on this grid: no hidden single, no naked single on an
/// empty cell, and no pointing or claiming elimination with a candidate left
/// to remove. A round that reports zero progress leaves behind exactly such a
/// grid.
pub open spec fn stalled(g: Grid) -> bool {
    &&& forall|x: int, y: int, v: u8| !(#[trigger] hidden_single(g, x, y, v))
    &&& forall|x: int, y: int, v: u8| 0 <= x < 9 && 0 <= y < 9 && g.val(x, y) == 0
        ==> !(#[trigger] naked_single(g, x, y, v))
    &&& forall|x: int, y: int, v: u8| 0 <= x < 9 && 0 <= y < 9 && #[trigger] g.has_cand(x, y, v)
        ==> !pointing_row_removal(g, x, y, v) && !pointing_col_removal(g, x, y, v)
            && !claim_row_removal(g, x, y, v) && !claim_col_removal(g, x, y, v)
}

/// Every strategy reads the grid only through its values and candidate sets,
/// so two grids that agree on both license the same deductions.
pub proof fn lemma_preds_same_state(g1: Grid, g2: Grid)
    requires
        forall|x: int, y: int| 0 <= x < 9 && 0 <= y < 9
            ==> #[trigger] g1.val(x, y) == g2.val(x, y),
        forall|x: int, y: int, w: u8| 0 <= x < 9 && 0 <= y < 9
            ==> (#[trigger] g1.has_cand(x, y, w)) == g2.has_cand(x, y, w),
    ensures
        forall|x: int, y: int, v: u8| (#[trigger] hidden_single(g1, x, y, v))
            == hidden_single(g2, x, y, v),
        forall|x: int, y: int, v: u8| 0 <= x < 9 && 0 <= y < 9
            ==> (#[trigger] naked_single(g1, x, y, v)) == naked_single(g2, x, y, v),
        forall|x: int, y: int, v: u8| 0 <= x < 9 && 0 <= y < 9
            ==> (#[trigger] pointing_row_removal(g1, x, y, v))
                == pointing_row_removal(g2, x, y, v),
        forall|x: int, y: int, v: u8| 0 <= x < 9 && 0 <= y < 9
            ==> (#[trigger] pointing_col_removal(g1, x, y, v))
                == pointing_col_removal(g2, x, y, v),
        forall|x: int, y: int, v: u8| 0 <= x < 9 && 0 <= y < 9
            ==> (#[trigger] claim_row_removal(g1, x, y, v)) == claim_row_removal(g2, x, y, v),
        forall|x: int, y: int, v: u8| 0 <= x < 9 && 0 <= y < 9
            ==> (#[trigger] claim_col_removal(g1, x, y, v)) == claim_col_removal(g2, x, y, v),
{
    assert forall|y: int, sx: int, v: u8| 0 <= y < 9 && 0 <= sx < 3
        implies (#[trigger] row_mini_has_cand(g1, y, sx, v))
            == row_mini_has_cand(g2, y, sx, v) by {
        if row_mini_has_cand(g1, y, sx, v) {
            let x = choose|x: int| 0 <= x < 9 && x / 3 == sx && #[trigger] g1.has_cand(x, y, v);
            assert(g2.has_cand(x, y, v));
        }
        if row_mini_has_cand(g2, y, sx, v) {
            let x = choose|x: int| 0 <= x < 9 && x / 3 == sx && #[trigger] g2.has_cand(x, y, v);
            assert(g1.has_cand(x, y, v));
        }
    }
    assert forall|x: int, sy: int, v: u8| 0 <= x < 9 && 0 <= sy < 3
        implies (#[trigger] col_mini_has_cand(g1, x, sy, v))
            == col_mini_has_cand(g2, x, sy, v) by {
        if col_mini_has_cand(g1, x, sy, v) {
            let y = choose|y: int| 0 <= y < 9 && y / 3 == sy && #[trigger] g1.has_cand(x, y, v);
            assert(g2.has_cand(x, y, v));
        }
        if col_mini_has_cand(g2, x, sy, v) {
            let y = choose|y: int| 0 <= y < 9 && y / 3 == sy && #[trigger] g2.has_cand(x, y, v);
            assert(g1.has_cand(x, y, v));
        }
    }
    assert forall|x: int, y: int, v: u8| (#[trigger] hidden_single(g1, x, y, v))
        == hidden_single(g2, x, y, v) by {
        if hidden_single(g1, x, y, v) {
            assert forall|x2: int, y2: int| 0 <= x2 < 9 && 0 <= y2 < 9 && x2 / 3 == x / 3
                && y2 / 3 == y / 3 && !(x2 == x && y2 == y) && g2.val(x2, y2) == 0
                implies !(#[trigger] g2.has_cand(x2, y2, v)) by {
                assert(!g1.has_cand(x2, y2, v));
            }
        }
        if hidden_single(g2, x, y, v) {
            assert forall|x2: int, y2: int| 0 <= x2 < 9 && 0 <= y2 < 9 && x2 / 3 == x / 3
                && y2 / 3 == y / 3 && !(x2 == x && y2 == y) && g1.val(x2, y2) == 0
                implies !(#[trigger] g1.has_cand(x2, y2, v)) by {
                assert(!g2.has_cand(x2, y2, v));
            }
        }
    }
    assert forall|x: int, y: int, v: u8| 0 <= x < 9 && 0 <= y < 9
        implies (#[trigger] naked_single(g1, x, y, v)) == naked_single(g2, x, y, v) by {
        if naked_single(g1, x, y, v) {
            assert forall|w: u8| w != v implies !(#[trigger] g2.has_cand(x, y, w)) by {
                assert(!g1.has_cand(x, y, w));
            }
            assert(g2.has_cand(x, y, v));
        }
        if naked_single(g2, x, y, v) {
            assert forall|w: u8| w != v implies !(#[trigger] g1.has_cand(x, y, w)) by {
                assert(!g2.has_cand(x, y, w));
            }
            assert(g1.has_cand(x, y, v));
        }
    }
    assert forall|s: int, y: int, v: u8| 0 <= s < 9
        implies (#[trigger] pointing_row(g1, s, y, v)) == pointing_row(g2, s, y, v) by {
        if pointing_row(g1, s, y, v) {
            assert forall|y2: int| 0 <= y2 < 9 && y2 / 3 == s / 3 && y2 != y
                implies !(#[trigger] row_mini_has_cand(g2, y2, s % 3, v)) by {
                assert(!row_mini_has_cand(g1, y2, s % 3, v));
            }
            assert(row_mini_has_cand(g2, y, s % 3, v));
        }
        if pointing_row(g2, s, y, v) {
            assert forall|y2: int| 0 <= y2 < 9 && y2 / 3 == s / 3 && y2 != y
                implies !(#[trigger] row_mini_has_cand(g1, y2, s % 3, v)) by {
                assert(!row_mini_has_cand(g2, y2, s % 3, v));
            }
            assert(row_mini_has_cand(g1, y, s % 3, v));
        }
    }
    assert forall|s: int, x: int, v: u8| 0 <= s < 9
        implies (#[trigger] pointing_col(g1, s, x, v)) == pointing_col(g2, s, x, v) by {
        if pointing_col(g1, s, x, v) {
            assert forall|x2: int| 0 <= x2 < 9 && x2 / 3 == s % 3 && x2 != x
                implies !(#[trigger] col_mini_has_cand(g2, x2, s / 3, v)) by {
                assert(!col_mini_has_cand(g1, x2, s / 3, v));
            }
            assert(col_mini_has_cand(g2, x, s / 3, v));
        }
        if pointing_col(g2, s, x, v) {
            assert forall|x2: int| 0 <= x2 < 9 && x2 / 3 == s % 3 && x2 != x
                implies !(#[trigger] col_mini_has_cand(g1, x2, s / 3, v)) by {
                assert(!col_mini_has_cand(g2, x2, s / 3, v));
            }
            assert(col_mini_has_cand(g1, x, s / 3, v));
        }
    }
    assert forall|s: int, v: u8| 0 <= s < 9
        implies (#[trigger] box_multi_row(g1, s, v)) == box_multi_row(g2, s, v) by {
        if box_multi_row(g1, s, v) {
            let (y1, y2) = choose|y1: int, y2: int| 0 <= y1 < 9 && 0 <= y2 < 9
                && y1 / 3 == s / 3 && y2 / 3 == s / 3 && y1 != y2
                && (#[trigger] row_mini_has_cand(g1, y1, s % 3, v))
                && (#[trigger] row_mini_has_cand(g1, y2, s % 3, v));
            assert(row_mini_has_cand(g2, y1, s % 3, v) && row_mini_has_cand(g2, y2, s % 3, v));
        }
        if box_multi_row(g2, s, v) {
            let (y1, y2) = choose|y1: int, y2: int| 0 <= y1 < 9 && 0 <= y2 < 9
                && y1 / 3 == s / 3 && y2 / 3 == s / 3 && y1 != y2
                && (#[trigger] row_mini_has_cand(g2, y1, s % 3, v))
                && (#[trigger] row_mini_has_cand(g2, y2, s % 3, v));
            assert(row_mini_has_cand(g1, y1, s % 3, v) && row_mini_has_cand(g1, y2, s % 3, v));
        }
    }
    assert forall|s: int, v: u8| 0 <= s < 9
        implies (#[trigger] box_multi_col(g1, s, v)) == box_multi_col(g2, s, v) by {
        if box_multi_col(g1, s, v) {
            let (x1, x2) = choose|x1: int, x2: int| 0 <= x1 < 9 && 0 <= x2 < 9
                && x1 / 3 == s % 3 && x2 / 3 == s % 3 && x1 != x2
                && (#[trigger] col_mini_has_cand(g1, x1, s / 3, v))
                && (#[trigger] col_mini_has_cand(g1, x2, s / 3, v));
            assert(col_mini_has_cand(g2, x1, s / 3, v) && col_mini_has_cand(g2, x2, s / 3, v));
        }
        if box_multi_col(g2, s, v) {
            let (x1, x2) = choose|x1: int, x2: int| 0 <= x1 < 9 && 0 <= x2 < 9
                && x1 / 3 == s % 3 && x2 / 3 == s % 3 && x1 != x2
                && (#[trigger] col_mini_has_cand(g2, x1, s / 3, v))
                && (#[trigger] col_mini_has_cand(g2, x2, s / 3, v));
            assert(col_mini_has_cand(g1, x1, s / 3, v) && col_mini_has_cand(g1, x2, s / 3, v));
        }
    }
    assert forall|x: int, y: int, v: u8| 0 <= x < 9 && 0 <= y < 9
        implies (#[trigger] pointing_row_removal(g1, x, y, v))
            == pointing_row_removal(g2, x, y, v) by {
        if exists|s: int| 0 <= s < 9 && s / 3 == y / 3 && s % 3 != x / 3
            && #[trigger] pointing_row(g1, s, y, v) {
            let s = choose|s: int| 0 <= s < 9 && s / 3 == y / 3 && s % 3 != x / 3
                && #[trigger] pointing_row(g1, s, y, v);
            assert(pointing_row(g2, s, y, v));
        }
        if exists|s: int| 0 <= s < 9 && s / 3 == y / 3 && s % 3 != x / 3
            && #[trigger] pointing_row(g2, s, y, v) {
            let s = choose|s: int| 0 <= s < 9 && s / 3 == y / 3 && s % 3 != x / 3
                && #[trigger] pointing_row(g2, s, y, v);
            assert(pointing_row(g1, s, y, v));
        }
    }
    assert forall|x: int, y: int, v: u8| 0 <= x < 9 && 0 <= y < 9
        implies (#[trigger] pointing_col_removal(g1, x, y, v))
            == pointing_col_removal(g2, x, y, v) by {
        if exists|s: int| 0 <= s < 9 && s % 3 == x / 3 && s / 3 != y / 3
            && #[trigger] pointing_col(g1, s, x, v) {
            let s = choose|s: int| 0 <= s < 9 && s % 3 == x / 3 && s / 3 != y / 3
                && #[trigger] pointing_col(g1, s, x, v);
            assert(pointing_col(g2, s, x, v));
        }
        if exists|s: int| 0 <= s < 9 && s % 3 == x / 3 && s / 3 != y / 3
            && #[trigger] pointing_col(g2, s, x, v) {
            let s = choose|s: int| 0 <= s < 9 && s % 3 == x / 3 && s / 3 != y / 3
                && #[trigger] pointing_col(g2, s, x, v);
            assert(pointing_col(g1, s, x, v));
        }
    }
    assert forall|y: int, sx: int, v: u8| 0 <= y < 9 && 0 <= sx < 3
        implies (#[trigger] claim_row_confined(g1, y, sx, v))
            == claim_row_confined(g2, y, sx, v) by {
        if claim_row_confined(g1, y, sx, v) {
            assert forall|sx2: int| 0 <= sx2 < 3 && sx2 != sx
                implies !(#[trigger] row_mini_has_cand(g2, y, sx2, v)) by {
                assert(!row_mini_has_cand(g1, y, sx2, v));
            }
            assert(row_mini_has_cand(g2, y, sx, v));
        }
        if claim_row_confined(g2, y, sx, v) {
            assert forall|sx2: int| 0 <= sx2 < 3 && sx2 != sx
                implies !(#[trigger] row_mini_has_cand(g1, y, sx2, v)) by {
                assert(!row_mini_has_cand(g2, y, sx2, v));
            }
            assert(row_mini_has_cand(g1, y, sx, v));
        }
    }
    assert forall|x: int, sy: int, v: u8| 0 <= x < 9 && 0 <= sy < 3
        implies (#[trigger] claim_col_confined(g1, x, sy, v))
            == claim_col_confined(g2, x, sy, v) by {
        if claim_col_confined(g1, x, sy, v) {
            assert forall|sy2: int| 0 <= sy2 < 3 && sy2 != sy
                implies !(#[trigger] col_mini_has_cand(g2, x, sy2, v)) by {
                assert(!col_mini_has_cand(g1, x, sy2, v));
            }
            assert(col_mini_has_cand(g2, x, sy, v));
        }
        if claim_col_confined(g2, x, sy, v) {
            assert forall|sy2: int| 0 <= sy2 < 3 && sy2 != sy
                implies !(#[trigger] col_mini_has_cand(g1, x, sy2, v)) by {
                assert(!col_mini_has_cand(g2, x, sy2, v));
            }
            assert(col_mini_has_cand(g1, x, sy, v));
        }
    }
    assert forall|x: int, y: int, v: u8| 0 <= x < 9 && 0 <= y < 9
        implies (#[trigger] claim_row_removal(g1, x, y, v))
            == claim_row_removal(g2, x, y, v) by {
        if claim_row_removal(g1, x, y, v) {
            let y2 = choose|y2: int| 0 <= y2 < 9 && y2 / 3 == y / 3 && y2 != y
                && #[trigger] claim_row_confined(g1, y2, x / 3, v);
            assert(claim_row_confined(g2, y2, x / 3, v));
        }
        if claim_row_removal(g2, x, y, v) {
            let y2 = choose|y2: int| 0 <= y2 < 9 && y2 / 3 == y / 3 && y2 != y
                && #[trigger] claim_row_confined(g2, y2, x / 3, v);
            assert(claim_row_confined(g1, y2, x / 3, v));
        }
    }
    assert forall|x: int, y: int, v: u8| 0 <= x < 9 && 0 <= y < 9
        implies (#[trigger] claim_col_removal(g1, x, y, v))
            == claim_col_removal(g2, x, y, v) by {
        if claim_col_removal(g1, x, y, v) {
            let x2 = choose|x2: int| 0 <= x2 < 9 && x2 / 3 == x / 3 && x2 != x
                && #[trigger] claim_col_confined(g1, x2, y / 3, v);
            assert(claim_col_confined(g2, x2, y / 3, v));
        }
        if claim_col_removal(g2, x, y, v) {
            let x2 = choose|x2: int| 0 <= x2 < 9 && x2 / 3 == x / 3 && x2 != x
                && #[trigger] claim_col_confined(g2, x2, y / 3, v);
            assert(claim_col_confined(g1, x2, y / 3, v));
        }
    }
}

/// A grid with every cell assigned and every candidate set empty admits no
/// further deduction.
pub proof fn lemma_solved_grid_quiescent(g: Grid)
    requires
        forall|x: int, y: int| 0 <= x < 9 && 0 <= y < 9 ==> #[trigger] g.val(x, y) != 0,
        forall|x: int, y: int, w: u8| 0 <= x < 9 && 0 <= y < 9
            ==> !(#[trigger] g.has_cand(x, y, w)),
    ensures
        quiescent(g),
{
    assert forall|x: int, y: int, v: u8| !(#[trigger] hidden_single(g, x, y, v)) by {
        if hidden_single(g, x, y, v) {
            assert(g.val(x, y) != 0);
        }
    }
    assert forall|x: int, y: int, v: u8| 0 <= x < 9 && 0 <= y < 9
        implies !(#[trigger] naked_single(g, x, y, v)) by {
        if naked_single(g, x, y, v) {
            assert(!g.has_cand(x, y, v));
        }
    }
}

/// `cell_candidate` only reads values, so grids with equal values agree on
/// it.
pub proof fn lemma_cell_candidate_same_values(g1: Grid, g2: Grid, x: int, y: int, w: u8)
    requires
        forall|x2: int, y2: int| 0 <= x2 < 9 && 0 <= y2 < 9
            ==> #[trigger] g1.val(x2, y2) == g2.val(x2, y2),
        0 <= x < 9,
        0 <= y < 9,
    ensures
        g1.cell_candidate(x, y, w) == g2.cell_candidate(x, y, w),
{
    assert(g1.row_has_value(y, w) == g2.row_has_value(y, w)) by {
        if g1.row_has_value(y, w) {
            let x2 = choose|x2: int| 0 <= x2 < 9 && #[trigger] g1.val(x2, y) == w;
            assert(g2.val(x2, y) == w);
        }
        if g2.row_has_value(y, w) {
            let x2 = choose|x2: int| 0 <= x2 < 9 && #[trigger] g2.val(x2, y) == w;
            assert(g1.val(x2, y) == w);
        }
    }
    assert(g1.col_has_value(x, w) == g2.col_has_value(x, w)) by {
        if g1.col_has_value(x, w) {
            let y2 = choose|y2: int| 0 <= y2 < 9 && #[trigger] g1.val(x, y2) == w;
            assert(g2.val(x, y2) == w);
        }
        if g2.col_has_value(x, w) {
            let y2 = choose|y2: int| 0 <= y2 < 9 && #[trigger] g2.val(x, y2) == w;
            assert(g1.val(x, y2) == w);
        }
    }
    let i = x / 3 + 3 * (y / 3);
    assert(g1.box_has_value(i, w) == g2.box_has_value(i, w)) by {
        if g1.box_has_value(i, w) {
            let (x2, y2) = choose|x2: int, y2: int| 0 <= x2 < 9 && 0 <= y2 < 9
                && x2 / 3 + 3 * (y2 / 3) == i && #[trigger] g1.val(x2, y2) == w;
            assert(g2.val(x2, y2) == w);
        }
        if g2.box_has_value(i, w) {
            let (x2, y2) = choose|x2: int, y2: int| 0 <= x2 < 9 && 0 <= y2 < 9
                && x2 / 3 + 3 * (y2 / 3) == i && #[trigger] g2.val(x2, y2) == w;
            assert(g1.val(x2, y2) == w);
        }
    }
}

/// Recomputing a cell's candidate set twice in a row, with no mutation in
/// between, gives the same set both times: `calculate_candidates` reads only
/// the values, and never changes them. Here `g1` is `g0` after one
/// recomputation at (x, y), and `g2` is `g1` after another, each step
/// described by `Grid::calculate_candidates`'s contract.
pub proof fn lemma_calculate_candidates_idempotent(g0: Grid, g1: Grid, g2: Grid, x: int, y: int)
    requires
        0 <= x < 9,
        0 <= y < 9,
        forall|x2: int, y2: int| 0 <= x2 < 9 && 0 <= y2 < 9
            ==> #[trigger] g1.val(x2, y2) == g0.val(x2, y2),
        forall|w: u8| (#[trigger] g1.has_cand(x, y, w)) == g0.cell_candidate(x, y, w),
        forall|x2: int, y2: int| 0 <= x2 < 9 && 0 <= y2 < 9
            ==> #[trigger] g2.val(x2, y2) == g1.val(x2, y2),
        forall|w: u8| (#[trigger] g2.has_cand(x, y, w)) == g1.cell_candidate(x, y, w),
    ensures
        forall|w: u8| (#[trigger] g2.has_cand(x, y, w)) == g1.has_cand(x, y, w),
{
    assert forall|w: u8| (#[trigger] g2.has_cand(x, y, w)) == g1.has_cand(x, y, w) by {
        lemma_cell_candidate_same_values(g1, g0, x, y, w);
    }
}

/// The solver: runs elimination rounds over one grid and, when they stall,
/// explores speculative branches on deep copies of it.
pub struct Analysis {
    pub cheating: bool,
    pub grid: Grid,
}

impl Analysis {
    pub fn new(grid: Grid, cheating: bool) -> (r: Self)
        ensures
            r.grid == grid,
            r.cheating == cheating,
    {
        Analysis { cheating, grid }
    }

    /// Check the grid for contradictions; see `Grid::verify`.
    pub fn verify(&mut self) -> (r: bool)
        requires
            old(self).grid.wf(),
        ensures
            final(self).grid.wf(),
            final(self).cheating == old(self).cheating,
            forall|x: int, y: int| 0 <= x < 9 && 0 <= y < 9
                ==> #[trigger] final(self).grid.val(x, y) == old(self).grid.val(x, y),
            forall|x: int, y: int| 0 <= x < 9 && 0 <= y < 9
                ==> #[trigger] final(self).grid.cmask_at(x, y) == old(self).grid.cmask_at(x, y),
            final(self).grid.rows@ == old(self).grid.rows@,
            final(self).grid.columns@ == old(self).grid.columns@,
            final(self).grid.squares@ == old(self).grid.squares@,
            final(self).grid.original_numbers@ == old(self).grid.original_numbers@,
            final(self).grid.solution@ == old(self).grid.solution@,
            r == (!old(self).grid.any_line_duplicate() && !old(self).grid.any_dead_cell()),
            r ==> final(self).grid.invalid_cells@ == old(self).grid.invalid_cells@,
    {
        self.grid.verify()
    }

    /// Recompute the candidate set of every empty cell from the values now on
    /// the grid; assigned cells keep their candidate sets.
    pub fn calculate_all_candidates(&mut self)
        requires
            old(self).grid.wf(),
        ensures
            final(self).grid.wf(),
            final(self).cheating == old(self).cheating,
            forall|x: int, y: int| 0 <= x < 9 && 0 <= y < 9
                ==> #[trigger] final(self).grid.val(x, y) == old(self).grid.val(x, y),
            forall|x: int, y: int, w: u8| 0 <= x < 9 && 0 <= y < 9
                && old(self).grid.val(x, y) == 0
                ==> (#[trigger] final(self).grid.has_cand(x, y, w))
                    == old(self).grid.cell_candidate(x, y, w),
            forall|x: int, y: int| 0 <= x < 9 && 0 <= y < 9 && old(self).grid.val(x, y) != 0
                ==> #[trigger] final(self).grid.cmask_at(x, y) == old(self).grid.cmask_at(x, y),
            final(self).grid.squares@ == old(self).grid.squares@,
            final(self).grid.original_numbers@ == old(self).grid.original_numbers@,
            final(self).grid.invalid_cells@ == old(self).grid.invalid_cells@,
            final(self).grid.solution@ == old(self).grid.solution@,
    {
        let ghost g0 = self.grid;
        let mut x: u8 = 0;
        while x < 9
            invariant
                self.grid.wf(),
                self.cheating == old(self).cheating,
                x <= 9,
                g0 == old(self).grid,
                forall|x2: int, y2: int| 0 <= x2 < 9 && 0 <= y2 < 9
                    ==> #[trigger] self.grid.val(x2, y2) == g0.val(x2, y2),
                forall|x2: int, y2: int, w: u8| 0 <= x2 < 9 && 0 <= y2 < 9 && x2 < x
                    && g0.val(x2, y2) == 0
                    ==> (#[trigger] self.grid.has_cand(x2, y2, w))
                        == g0.cell_candidate(x2, y2, w),
                forall|x2: int, y2: int| 0 <= x2 < 9 && 0 <= y2 < 9
                    && (x2 >= x || g0.val(x2, y2) != 0)
                    ==> #[trigger] self.grid.cmask_at(x2, y2) == g0.cmask_at(x2, y2),
                self.grid.squares@ == g0.squares@,
                self.grid.original_numbers@ == g0.original_numbers@,
                self.grid.invalid_cells@ == g0.invalid_cells@,
                self.grid.solution@ == g0.solution@,
            decreases 9 - x,
        {
            let mut y: u8 = 0;
            while y < 9
                invariant
                    self.grid.wf(),
                    self.cheating == old(self).cheating,
                    x < 9,
                    y <= 9,
                    g0 == old(self).grid,
                    forall|x2: int, y2: int| 0 <= x2 < 9 && 0 <= y2 < 9
                        ==> #[trigger] self.grid.val(x2, y2) == g0.val(x2, y2),
                    forall|x2: int, y2: int, w: u8| 0 <= x2 < 9 && 0 <= y2 < 9
                        && (x2 < x || (x2 == x && y2 < y)) && g0.val(x2, y2) == 0
                        ==> (#[trigger] self.grid.has_cand(x2, y2, w))
                            == g0.cell_candidate(x2, y2, w),
                    forall|x2: int, y2: int| 0 <= x2 < 9 && 0 <= y2 < 9
                        && (x2 > x || (x2 == x && y2 >= y) || g0.val(x2, y2) != 0)
                        ==> #[trigger] self.grid.cmask_at(x2, y2) == g0.cmask_at(x2, y2),
                    self.grid.squares@ == g0.squares@,
                    self.grid.original_numbers@ == g0.original_numbers@,
                    self.grid.invalid_cells@ == g0.invalid_cells@,
                    self.grid.solution@ == g0.solution@,
                decreases 9 - y,
            {
                let q = Vec2::new(x, y);
                if !self.grid.has_number(&q) {
                    let ghost before = self.grid;
                    self.grid.calculate_candidates(&q);
                    proof {
                        assert forall|w: u8| (#[trigger] self.grid.has_cand(
                            x as int,
                            y as int,
                            w,
                        )) == g0.cell_candidate(x as int, y as int, w) by {
                            lemma_cell_candidate_same_values(before, g0, x as int, y as int, w);
                        }
                        assert forall|x2: int, y2: int, w: u8| 0 <= x2 < 9 && 0 <= y2 < 9
                            && !(x2 == x as int && y2 == y as int)
                            implies (#[trigger] self.grid.has_cand(x2, y2, w))
                                == before.has_cand(x2, y2, w) by {
                            assert(self.grid.cmask_at(x2, y2) == before.cmask_at(x2, y2));
                        }
                    }
                }
                y = y + 1;
            }
            x = x + 1;
        }
    }

    /// For each box and each digit, the (cell, digit) pairs where the digit
    /// still fits exactly one empty cell of that box: the hidden singles.
    pub fn single_in_squares(&self) -> (r: Vec<((Coord, Coord), CellValue)>)
        requires
            self.grid.wf(),
        ensures
            forall|i: int| 0 <= i < r@.len() ==> (#[trigger] r@[i]).0.0 < 9 && r@[i].0.1 < 9
                && hidden_single(self.grid, r@[i].0.0 as int, r@[i].0.1 as int, r@[i].1),
            forall|x: u8, y: u8, v: u8| x < 9 && y < 9
                && hidden_single(self.grid, x as int, y as int, v)
                ==> r@.contains(((x, y), v)),
            r@.len() <= 81,
    {
        let mut r: Vec<((Coord, Coord), CellValue)> = Vec::new();
        let mut s: u8 = 0;
        while s < 9
            invariant
                self.grid.wf(),
                s <= 9,
                forall|i: int| 0 <= i < r@.len() ==> (#[trigger] r@[i]).0.0 < 9 && r@[i].0.1 < 9
                    && hidden_single(self.grid, r@[i].0.0 as int, r@[i].0.1 as int, r@[i].1),
                forall|x: u8, y: u8, v2: u8| x < 9 && y < 9
                    && hidden_single(self.grid, x as int, y as int, v2)
                    ==> (r@.contains(((x, y), v2))
                        == (x as int / 3 + 3 * (y as int / 3) < s)),
                r@.len() <= s * 9,
            decreases 9 - s,
        {
            let mut v: u8 = 1;
            while v <= 9
                invariant
                    self.grid.wf(),
                    s < 9,
                    1 <= v <= 10,
                    forall|i: int| 0 <= i < r@.len() ==> (#[trigger] r@[i]).0.0 < 9
                        && r@[i].0.1 < 9
                        && hidden_single(self.grid, r@[i].0.0 as int, r@[i].0.1 as int, r@[i].1),
                    forall|x: u8, y: u8, v2: u8| x < 9 && y < 9 && 1 <= v2 <= 9
                        && hidden_single(self.grid, x as int, y as int, v2)
                        ==> (r@.contains(((x, y), v2))
                            == (x as int / 3 + 3 * (y as int / 3) < s
                                || (x as int / 3 + 3 * (y as int / 3) == s && v2 < v))),
                    r@.len() <= s * 9 + v - 1,
                decreases 10 - v,
            {
                let mut count: u8 = 0;
                let mut fx: u8 = 0;
                let mut fy: u8 = 0;
                let mut t: u8 = 0;
                while t < 9
                    invariant
                        self.grid.wf(),
                        s < 9,
                        1 <= v <= 9,
                        t <= 9,
                        count <= 2,
                        count == 0 ==> forall|x2: int, y2: int| 0 <= x2 < 9 && 0 <= y2 < 9
                            && x2 / 3 == s % 3 && y2 / 3 == s / 3 && 3 * (x2 % 3) + y2 % 3 < t
                            ==> !box_cell_fits(self.grid, s as int, x2, y2, v),
                        count == 1 ==> box_cell_fits(self.grid, s as int, fx as int, fy as int, v)
                            && 3 * (fx as int % 3) + fy as int % 3 < t
                            && forall|x2: int, y2: int| 0 <= x2 < 9 && 0 <= y2 < 9
                                && x2 / 3 == s % 3 && y2 / 3 == s / 3
                                && 3 * (x2 % 3) + y2 % 3 < t
                                && !(x2 == fx as int && y2 == fy as int)
                                ==> !box_cell_fits(self.grid, s as int, x2, y2, v),
                        count == 2 ==> exists|x2: int, y2: int, x3: int, y3: int|
                            box_cell_fits(self.grid, s as int, x2, y2, v)
                            && box_cell_fits(self.grid, s as int, x3, y3, v)
                            && !(x2 == x3 && y2 == y3),
                    decreases 9 - t,
                {
                    let cx = (s % 3) * 3 + t / 3;
                    let cy = (s / 3) * 3 + t % 3;
                    let q = Vec2::new(cx, cy);
                    proof {
                        assert(cx as int / 3 == s as int % 3);
                        assert(cy as int / 3 == s as int / 3);
                        assert(3 * (cx as int % 3) + cy as int % 3 == t);
                    }
                    if !self.grid.has_number(&q) && self.grid.has_candidate(&q, v) {
                        proof {
                            assert(box_cell_fits(self.grid, s as int, cx as int, cy as int, v));
                        }
                        if count == 0 {
                            fx = cx;
                            fy = cy;
                            count = 1;
                        } else if count == 1 {
                            count = 2;
                            proof {
                                assert(box_cell_fits(
                                    self.grid,
                                    s as int,
                                    fx as int,
                                    fy as int,
                                    v,
                                ));
                                assert(!(fx as int == cx as int && fy as int == cy as int));
                            }
                        }
                    }
                    t = t + 1;
                }
                let ghost old_r = r@;
                if count == 1 {
                    r.push(((fx, fy), v));
                    proof {
                        assert(hidden_single(self.grid, fx as int, fy as int, v)) by {
                            assert forall|x2: int, y2: int| 0 <= x2 < 9 && 0 <= y2 < 9
                                && x2 / 3 == fx as int / 3 && y2 / 3 == fy as int / 3
                                && !(x2 == fx as int && y2 == fy as int)
                                && self.grid.val(x2, y2) == 0
                                implies !(#[trigger] self.grid.has_cand(x2, y2, v)) by {
                                assert(3 * (x2 % 3) + y2 % 3 < 9);
                                assert(x2 / 3 == s as int % 3 && y2 / 3 == s as int / 3);
                                assert(!box_cell_fits(self.grid, s as int, x2, y2, v));
                            }
                        }
                        assert(r@[r@.len() - 1] == ((fx, fy), v));
                    }
                }
                proof {
                    assert forall|x: u8, y: u8, v2: u8| x < 9 && y < 9 && 1 <= v2 <= 9
                        && hidden_single(self.grid, x as int, y as int, v2)
                        implies (r@.contains(((x, y), v2))
                            == (x as int / 3 + 3 * (y as int / 3) < s
                                || (x as int / 3 + 3 * (y as int / 3) == s && v2 < v + 1))) by {
                        let bb = x as int / 3 + 3 * (y as int / 3);
                        if bb == s as int && v2 == v {
                            // this box and digit were just scanned
                            assert(x as int / 3 == s as int % 3 && y as int / 3 == s as int / 3);
                            assert(box_cell_fits(self.grid, s as int, x as int, y as int, v));
                            if count == 0 {
                                assert(3 * (x as int % 3) + y as int % 3 < 9);
                                assert(false);
                            }
                            if count == 2 {
                                let (x2, y2, x3, y3) = choose|x2: int, y2: int, x3: int, y3: int|
                                    box_cell_fits(self.grid, s as int, x2, y2, v)
                                    && box_cell_fits(self.grid, s as int, x3, y3, v)
                                    && !(x2 == x3 && y2 == y3);
                                if !(x2 == x as int && y2 == y as int) {
                                    assert(self.grid.val(x2, y2) == 0
                                        && self.grid.has_cand(x2, y2, v));
                                    assert(false);
                                } else {
                                    assert(self.grid.val(x3, y3) == 0
                                        && self.grid.has_cand(x3, y3, v));
                                    assert(false);
                                }
                            }
                            assert(count == 1);
                            assert(x as int == fx as int && y as int == fy as int) by {
                                if !(x as int == fx as int && y as int == fy as int) {
                                    assert(box_cell_fits(
                                        self.grid,
                                        s as int,
                                        fx as int,
                                        fy as int,
                                        v,
                                    ));
                                    assert(self.grid.val(fx as int, fy as int) == 0
                                        && self.grid.has_cand(fx as int, fy as int, v));
                                    assert(false);
                                }
                            }
                            assert(r@[r@.len() - 1] == ((x, y), v2));
                            assert(r@.contains(((x, y), v2)));
                        } else {
                            // carried over from earlier boxes or digits
                            if old_r.contains(((x, y), v2)) {
                                let i = choose|i: int| 0 <= i < old_r.len()
                                    && old_r[i] == ((x, y), v2);
                                assert(r@[i] == ((x, y), v2));
                                assert(r@.contains(((x, y), v2)));
                            }
                            if r@.contains(((x, y), v2)) && !old_r.contains(((x, y), v2)) {
                                let i = choose|i: int| 0 <= i < r@.len()
                                    && r@[i] == ((x, y), v2);
                                assert(i == old_r.len());
                                assert(count == 1 && ((x, y), v2) == ((fx, fy), v));
                            }
                        }
                    }
                }
                v = v + 1;
            }
            s = s + 1;
        }
        r
    }

    /// Every cell whose candidate set has exactly one digit left, paired with
    /// that digit.
    pub fn lonely_cells(&self) -> (r: Vec<((Coord, Coord), CellValue)>)
        requires
            self.grid.wf(),
        ensures
            forall|i: int| 0 <= i < r@.len() ==> (#[trigger] r@[i]).0.0 < 9 && r@[i].0.1 < 9
                && naked_single(self.grid, r@[i].0.0 as int, r@[i].0.1 as int, r@[i].1),
            forall|x: u8, y: u8, v: u8| x < 9 && y < 9
                && naked_single(self.grid, x as int, y as int, v)
                ==> r@.contains(((x, y), v)),
            r@.len() <= 81,
    {
        let mut r: Vec<((Coord, Coord), CellValue)> = Vec::new();
        let mut x: u8 = 0;
        while x < 9
            invariant
                self.grid.wf(),
                x <= 9,
                forall|i: int| 0 <= i < r@.len() ==> (#[trigger] r@[i]).0.0 < 9 && r@[i].0.1 < 9
                    && naked_single(self.grid, r@[i].0.0 as int, r@[i].0.1 as int, r@[i].1),
                forall|x2: u8, y2: u8, v: u8| x2 < 9 && y2 < 9 && x2 < x
                    && naked_single(self.grid, x2 as int, y2 as int, v)
                    ==> r@.contains(((x2, y2), v)),
                r@.len() <= x * 9,
            decreases 9 - x,
        {
            let mut y: u8 = 0;
            while y < 9
                invariant
                    self.grid.wf(),
                    x < 9,
                    y <= 9,
                    forall|i: int| 0 <= i < r@.len() ==> (#[trigger] r@[i]).0.0 < 9
                        && r@[i].0.1 < 9
                        && naked_single(self.grid, r@[i].0.0 as int, r@[i].0.1 as int, r@[i].1),
                    forall|x2: u8, y2: u8, v: u8| x2 < 9 && y2 < 9
                        && (x2 < x || (x2 == x && y2 < y))
                        && naked_single(self.grid, x2 as int, y2 as int, v)
                        ==> r@.contains(((x2, y2), v)),
                    r@.len() <= x * 9 + y,
                decreases 9 - y,
            {
                let q = Vec2::new(x, y);
                let candidates = self.grid.get_candidates(&q);
                let ghost old_r = r@;
                if candidates.len() == 1 {
                    let v = candidates[0];
                    r.push(((x, y), v));
                    proof {
                        assert(candidates@.contains(v));
                        assert(naked_single(self.grid, x as int, y as int, v)) by {
                            assert forall|w: u8| w != v
                                implies !(#[trigger] self.grid.has_cand(x as int, y as int, w)) by {
                                if self.grid.has_cand(x as int, y as int, w) {
                                    assert(candidates@.contains(w));
                                    let i = choose|i: int| 0 <= i < candidates@.len()
                                        && candidates@[i] == w;
                                    assert(i == 0);
                                }
                            }
                        }
                        assert(r@[r@.len() - 1] == ((x, y), v));
                    }
                }
                proof {
                    assert forall|x2: u8, y2: u8, v2: u8| x2 < 9 && y2 < 9
                        && (x2 < x || (x2 == x && y2 < y + 1))
                        && naked_single(self.grid, x2 as int, y2 as int, v2)
                        implies r@.contains(((x2, y2), v2)) by {
                        if x2 == x && y2 == y {
                            // the current cell: a naked single has exactly one
                            // candidate, so the scan pushed it
                            assert(self.grid.has_cand(x as int, y as int, v2));
                            assert(candidates@.contains(v2));
                            if candidates@.len() != 1 {
                                if candidates@.len() == 0 {
                                    assert(false);
                                } else {
                                    assert(candidates@[0] < candidates@[1]);
                                    assert(candidates@.contains(candidates@[0]));
                                    assert(candidates@.contains(candidates@[1]));
                                    assert(self.grid.has_cand(x as int, y as int, candidates@[0]));
                                    assert(self.grid.has_cand(x as int, y as int, candidates@[1]));
                                    assert(false);
                                }
                            }
                            let i = choose|i: int| 0 <= i < candidates@.len()
                                && candidates@[i] == v2;
                            assert(candidates@[0] == v2);
                            assert(r@[r@.len() - 1] == ((x2, y2), v2));
                        } else {
                            assert(old_r.contains(((x2, y2), v2)));
                            let i = choose|i: int| 0 <= i < old_r.len()
                                && old_r[i] == ((x2, y2), v2);
                            assert(r@[i] == ((x2, y2), v2));
                        }
                    }
                }
                y = y + 1;
            }
            x = x + 1;
        }
        r
    }

    /// Pointing (locked candidates): where a box confines a digit to one of
    /// its rows (or columns), remove the digit from the rest of that row (or
    /// column) outside the box, but only from cells whose own box does not
    /// also confine the digit to a single line. True exactly when some
    /// candidate was actually removed.
    pub fn single_line_in_squares(&mut self) -> (r: bool)
        requires
            old(self).grid.wf(),
        ensures
            final(self).grid.wf(),
            final(self).cheating == old(self).cheating,
            forall|x: int, y: int| 0 <= x < 9 && 0 <= y < 9
                ==> #[trigger] final(self).grid.val(x, y) == old(self).grid.val(x, y),
            forall|x: int, y: int, w: u8| 0 <= x < 9 && 0 <= y < 9
                ==> (#[trigger] final(self).grid.has_cand(x, y, w))
                    == (old(self).grid.has_cand(x, y, w)
                        && !pointing_row_removal(old(self).grid, x, y, w)
                        && !pointing_col_removal(old(self).grid, x, y, w)),
            final(self).grid.squares@ == old(self).grid.squares@,
            final(self).grid.original_numbers@ == old(self).grid.original_numbers@,
            final(self).grid.invalid_cells@ == old(self).grid.invalid_cells@,
            final(self).grid.solution@ == old(self).grid.solution@,
            !r ==> final(self).grid.rows@ == old(self).grid.rows@
                && final(self).grid.columns@ == old(self).grid.columns@,
            r == exists|x: int, y: int, w: u8| 0 <= x < 9 && 0 <= y < 9
                && (#[trigger] old(self).grid.has_cand(x, y, w))
                && (pointing_row_removal(old(self).grid, x, y, w)
                    || pointing_col_removal(old(self).grid, x, y, w)),
    {
        let ghost g = self.grid;
        // Phase one: per (box, digit), how many box rows and box columns
        // still hold the digit, and the single one when unique.
        let mut rcnt: Vec<u8> = Vec::new();
        let mut ridx: Vec<u8> = Vec::new();
        let mut ccnt: Vec<u8> = Vec::new();
        let mut cidx: Vec<u8> = Vec::new();
        let mut s: u8 = 0;
        while s < 9
            invariant
                *self == *old(self),
                self.grid.wf(),
                g == self.grid,
                s <= 9,
                rcnt@.len() == s * 9,
                ridx@.len() == s * 9,
                ccnt@.len() == s * 9,
                cidx@.len() == s * 9,
                forall|s2: int, v2: u8| 0 <= s2 < s && 1 <= v2 <= 9
                    ==> point_row_enc(g, s2, v2, #[trigger] rcnt@[s2 * 9 + v2 - 1],
                        ridx@[s2 * 9 + v2 - 1]),
                forall|s2: int, v2: u8| 0 <= s2 < s && 1 <= v2 <= 9
                    ==> point_col_enc(g, s2, v2, #[trigger] ccnt@[s2 * 9 + v2 - 1],
                        cidx@[s2 * 9 + v2 - 1]),
            decreases 9 - s,
        {
            let mut v: u8 = 1;
            while v <= 9
                invariant
                    *self == *old(self),
                    self.grid.wf(),
                    g == self.grid,
                    s < 9,
                    1 <= v <= 10,
                    rcnt@.len() == s * 9 + v - 1,
                    ridx@.len() == s * 9 + v - 1,
                    ccnt@.len() == s * 9 + v - 1,
                    cidx@.len() == s * 9 + v - 1,
                    forall|s2: int, v2: u8| 0 <= s2 < s && 1 <= v2 <= 9
                        ==> point_row_enc(g, s2, v2, #[trigger] rcnt@[s2 * 9 + v2 - 1],
                            ridx@[s2 * 9 + v2 - 1]),
                    forall|s2: int, v2: u8| 0 <= s2 < s && 1 <= v2 <= 9
                        ==> point_col_enc(g, s2, v2, #[trigger] ccnt@[s2 * 9 + v2 - 1],
                            cidx@[s2 * 9 + v2 - 1]),
                    forall|v2: u8| 1 <= v2 < v
                        ==> point_row_enc(g, s as int, v2, #[trigger] rcnt@[s * 9 + v2 - 1],
                            ridx@[s * 9 + v2 - 1]),
                    forall|v2: u8| 1 <= v2 < v
                        ==> point_col_enc(g, s as int, v2, #[trigger] ccnt@[s * 9 + v2 - 1],
                            cidx@[s * 9 + v2 - 1]),
                decreases 10 - v,
            {
                let mut cnt: u8 = 0;
                let mut idx: u8 = 0;
                let mut t: u8 = 0;
                while t < 3
                    invariant
                        *self == *old(self),
                        self.grid.wf(),
                        g == self.grid,
                        s < 9,
                        1 <= v <= 9,
                        t <= 3,
                        cnt <= 2,
                        cnt == 0 ==> forall|y2: int| 0 <= y2 < 9 && y2 / 3 == s as int / 3
                            && y2 % 3 < t
                            ==> !(#[trigger] row_mini_has_cand(g, y2, s as int % 3, v)),
                        cnt == 1 ==> idx < 9 && idx as int / 3 == s as int / 3
                            && idx as int % 3 < t
                            && row_mini_has_cand(g, idx as int, s as int % 3, v)
                            && forall|y2: int| 0 <= y2 < 9 && y2 / 3 == s as int / 3
                                && y2 % 3 < t && y2 != idx
                                ==> !(#[trigger] row_mini_has_cand(g, y2, s as int % 3, v)),
                        cnt == 2 ==> box_multi_row(g, s as int, v),
                    decreases 3 - t,
                {
                    let y = (s / 3) * 3 + t;
                    let ml = self.grid.rows[y as usize].mini_lines[(s % 3) as usize];
                    let hm = ml.has_candidate_anywhere(v);
                    proof {
                        assert forall|i: int| 0 <= i < 3
                            implies #[trigger] ml.candidates[i]
                                == g.cmask_at(3 * (s as int % 3) + i, y as int) by {
                            assert(g.rows[y as int].cmask(3 * (s as int % 3) + i)
                                == ml.candidates[i]);
                        }
                        if hm {
                            let i = choose|i: int| 0 <= i < 3
                                && cand_has(#[trigger] ml.candidates[i], v);
                            assert(g.has_cand(3 * (s as int % 3) + i, y as int, v));
                            assert(row_mini_has_cand(g, y as int, s as int % 3, v));
                        }
                        if row_mini_has_cand(g, y as int, s as int % 3, v) {
                            let x3 = choose|x3: int| 0 <= x3 < 9 && x3 / 3 == s as int % 3
                                && #[trigger] g.has_cand(x3, y as int, v);
                            assert(ml.candidates[x3 % 3] == g.cmask_at(x3, y as int));
                            assert(cand_has(ml.candidates[x3 % 3], v));
                            assert(hm);
                        }
                        assert(hm == row_mini_has_cand(g, y as int, s as int % 3, v));
                    }
                    if hm {
                        if cnt == 0 {
                            cnt = 1;
                            idx = y;
                        } else if cnt == 1 {
                            proof {
                                assert(row_mini_has_cand(g, idx as int, s as int % 3, v));
                                assert(row_mini_has_cand(g, y as int, s as int % 3, v));
                                assert(idx as int != y as int);
                                assert(box_multi_row(g, s as int, v));
                            }
                            cnt = 2;
                        }
                    }
                    t = t + 1;
                }
                proof {
                    if cnt != 2 && box_multi_row(g, s as int, v) {
                        let (y1, y2) = choose|y1: int, y2: int| 0 <= y1 < 9 && 0 <= y2 < 9
                            && y1 / 3 == s as int / 3 && y2 / 3 == s as int / 3 && y1 != y2
                            && (#[trigger] row_mini_has_cand(g, y1, s as int % 3, v))
                            && (#[trigger] row_mini_has_cand(g, y2, s as int % 3, v));
                        assert(y1 % 3 < 3 && y2 % 3 < 3);
                        if cnt == 0 {
                            assert(false);
                        } else {
                            assert(y1 == idx as int && y2 == idx as int);
                            assert(false);
                        }
                    }
                    assert(point_row_enc(g, s as int, v, cnt, idx)) by {
                        if cnt == 0 {
                            assert forall|y2: int| 0 <= y2 < 9 && y2 / 3 == s as int / 3
                                implies !(#[trigger] row_mini_has_cand(g, y2, s as int % 3, v))
                                by {
                                assert(y2 % 3 < 3);
                            }
                        }
                        if cnt == 1 {
                            assert forall|y2: int| 0 <= y2 < 9 && y2 / 3 == s as int / 3
                                && y2 != idx
                                implies !(#[trigger] row_mini_has_cand(g, y2, s as int % 3, v))
                                by {
                                assert(y2 % 3 < 3);
                            }
                        }
                    }
                }
                rcnt.push(cnt);
                ridx.push(idx);
                // the same scan along the box's columns
                let mut cnt2: u8 = 0;
                let mut idx2: u8 = 0;
                let mut t2: u8 = 0;
                while t2 < 3
                    invariant
                        *self == *old(self),
                        self.grid.wf(),
                        g == self.grid,
                        s < 9,
                        1 <= v <= 9,
                        t2 <= 3,
                        cnt2 <= 2,
                        cnt2 == 0 ==> forall|x2: int| 0 <= x2 < 9 && x2 / 3 == s as int % 3
                            && x2 % 3 < t2
                            ==> !(#[trigger] col_mini_has_cand(g, x2, s as int / 3, v)),
                        cnt2 == 1 ==> idx2 < 9 && idx2 as int / 3 == s as int % 3
                            && idx2 as int % 3 < t2
                            && col_mini_has_cand(g, idx2 as int, s as int / 3, v)
                            && forall|x2: int| 0 <= x2 < 9 && x2 / 3 == s as int % 3
                                && x2 % 3 < t2 && x2 != idx2
                                ==> !(#[trigger] col_mini_has_cand(g, x2, s as int / 3, v)),
                        cnt2 == 2 ==> box_multi_col(g, s as int, v),
                    decreases 3 - t2,
                {
                    let x = (s % 3) * 3 + t2;
                    let ml = self.grid.columns[x as usize].mini_lines[(s / 3) as usize];
                    let hm = ml.has_candidate_anywhere(v);
                    proof {
                        assert forall|i: int| 0 <= i < 3
                            implies #[trigger] ml.candidates[i]
                                == g.col_cmask(x as int, 3 * (s as int / 3) + i) by {
                            assert(g.columns[x as int].cmask(3 * (s as int / 3) + i)
                                == ml.candidates[i]);
                        }
                        assert forall|i: int| 0 <= i < 3
                            implies (cand_has(#[trigger] ml.candidates[i], v)
                                == g.has_cand(x as int, 3 * (s as int / 3) + i, v)) by {
                            assert(cand_has(g.col_cmask(x as int, 3 * (s as int / 3) + i), v)
                                == cand_has(g.cmask_at(x as int, 3 * (s as int / 3) + i), v));
                        }
                        if hm {
                            let i = choose|i: int| 0 <= i < 3
                                && cand_has(#[trigger] ml.candidates[i], v);
                            assert(g.has_cand(x as int, 3 * (s as int / 3) + i, v));
                            assert(col_mini_has_cand(g, x as int, s as int / 3, v));
                        }
                        if col_mini_has_cand(g, x as int, s as int / 3, v) {
                            let y3 = choose|y3: int| 0 <= y3 < 9 && y3 / 3 == s as int / 3
                                && #[trigger] g.has_cand(x as int, y3, v);
                            assert(cand_has(ml.candidates[y3 % 3], v));
                            assert(hm);
                        }
                        assert(hm == col_mini_has_cand(g, x as int, s as int / 3, v));
                    }
                    if hm {
                        if cnt2 == 0 {
                            cnt2 = 1;
                            idx2 = x;
                        } else if cnt2 == 1 {
                            proof {
                                assert(col_mini_has_cand(g, idx2 as int, s as int / 3, v));
                                assert(col_mini_has_cand(g, x as int, s as int / 3, v));
                                assert(idx2 as int != x as int);
                                assert(box_multi_col(g, s as int, v));
                            }
                            cnt2 = 2;
                        }
                    }
                    t2 = t2 + 1;
                }
                proof {
                    if cnt2 != 2 && box_multi_col(g, s as int, v) {
                        let (x1, x2) = choose|x1: int, x2: int| 0 <= x1 < 9 && 0 <= x2 < 9
                            && x1 / 3 == s as int % 3 && x2 / 3 == s as int % 3 && x1 != x2
                            && (#[trigger] col_mini_has_cand(g, x1, s as int / 3, v))
                            && (#[trigger] col_mini_has_cand(g, x2, s as int / 3, v));
                        assert(x1 % 3 < 3 && x2 % 3 < 3);
                        if cnt2 == 0 {
                            assert(false);
                        } else {
                            assert(x1 == idx2 as int && x2 == idx2 as int);
                            assert(false);
                        }
                    }
                    assert(point_col_enc(g, s as int, v, cnt2, idx2)) by {
                        if cnt2 == 0 {
                            assert forall|x2: int| 0 <= x2 < 9 && x2 / 3 == s as int % 3
                                implies !(#[trigger] col_mini_has_cand(g, x2, s as int / 3, v))
                                by {
                                assert(x2 % 3 < 3);
                            }
                        }
                        if cnt2 == 1 {
                            assert forall|x2: int| 0 <= x2 < 9 && x2 / 3 == s as int % 3
                                && x2 != idx2
                                implies !(#[trigger] col_mini_has_cand(g, x2, s as int / 3, v))
                                by {
                                assert(x2 % 3 < 3);
                            }
                        }
                    }
                }
                ccnt.push(cnt2);
                cidx.push(idx2);
                v = v + 1;
            }
            s = s + 1;
        }
        // Phase two: collect the eliminations licensed by the row pointing.
        let mut list: Vec<((Coord, Coord), CellValue)> = Vec::new();
        let mut s2: u8 = 0;
        while s2 < 9
            invariant
                *self == *old(self),
                self.grid.wf(),
                g == self.grid,
                s2 <= 9,
                rcnt@.len() == 81,
                ridx@.len() == 81,
                ccnt@.len() == 81,
                cidx@.len() == 81,
                forall|s3: int, v2: u8| 0 <= s3 < 9 && 1 <= v2 <= 9
                    ==> point_row_enc(g, s3, v2, #[trigger] rcnt@[s3 * 9 + v2 - 1],
                        ridx@[s3 * 9 + v2 - 1]),
                forall|s3: int, v2: u8| 0 <= s3 < 9 && 1 <= v2 <= 9
                    ==> point_col_enc(g, s3, v2, #[trigger] ccnt@[s3 * 9 + v2 - 1],
                        cidx@[s3 * 9 + v2 - 1]),
                forall|j: int| 0 <= j < list@.len() ==> (#[trigger] list@[j]).0.0 < 9
                    && list@[j].0.1 < 9 && 1 <= list@[j].1 <= 9,
                forall|qx: int, qy: int, w: u8| 0 <= qx < 9 && 0 <= qy < 9
                    ==> (#[trigger] listed(list@, qx, qy, w)) == (1 <= w <= 9
                        && box_multi_row(g, qx / 3 + 3 * (qy / 3), w)
                        && exists|s3: int| 0 <= s3 < 9 && s3 / 3 == qy / 3 && s3 % 3 != qx / 3
                            && s3 < s2 && #[trigger] pointing_row(g, s3, qy, w)),
            decreases 9 - s2,
        {
            let mut v: u8 = 1;
            while v <= 9
                invariant
                    *self == *old(self),
                    self.grid.wf(),
                    g == self.grid,
                    s2 < 9,
                    1 <= v <= 10,
                    rcnt@.len() == 81,
                    ridx@.len() == 81,
                    ccnt@.len() == 81,
                    cidx@.len() == 81,
                    forall|s3: int, v2: u8| 0 <= s3 < 9 && 1 <= v2 <= 9
                        ==> point_row_enc(g, s3, v2, #[trigger] rcnt@[s3 * 9 + v2 - 1],
                            ridx@[s3 * 9 + v2 - 1]),
                    forall|s3: int, v2: u8| 0 <= s3 < 9 && 1 <= v2 <= 9
                        ==> point_col_enc(g, s3, v2, #[trigger] ccnt@[s3 * 9 + v2 - 1],
                            cidx@[s3 * 9 + v2 - 1]),
                    forall|j: int| 0 <= j < list@.len() ==> (#[trigger] list@[j]).0.0 < 9
                        && list@[j].0.1 < 9 && 1 <= list@[j].1 <= 9,
                    forall|qx: int, qy: int, w: u8| 0 <= qx < 9 && 0 <= qy < 9
                        ==> (#[trigger] listed(list@, qx, qy, w)) == (1 <= w <= 9
                            && box_multi_row(g, qx / 3 + 3 * (qy / 3), w)
                            && exists|s3: int| 0 <= s3 < 9 && s3 / 3 == qy / 3
                                && s3 % 3 != qx / 3 && (s3 < s2 || (s3 == s2 && w < v))
                                && #[trigger] pointing_row(g, s3, qy, w)),
                decreases 10 - v,
            {
                let cnt = rcnt[(s2 as usize) * 9 + (v as usize) - 1];
                let ghost base = list@;
                if cnt == 1 {
                    let yy = ridx[(s2 as usize) * 9 + (v as usize) - 1];
                    proof {
                        assert(point_row_enc(g, s2 as int, v, cnt, yy));
                        assert(pointing_row(g, s2 as int, yy as int, v));
                        assert(yy < 9 && yy as int / 3 == s2 as int / 3);
                    }
                    let mut x: u8 = 0;
                    while x < 9
                        invariant
                            *self == *old(self),
                            self.grid.wf(),
                            g == self.grid,
                            s2 < 9,
                            1 <= v <= 9,
                            x <= 9,
                            yy < 9,
                            yy as int / 3 == s2 as int / 3,
                            pointing_row(g, s2 as int, yy as int, v),
                            rcnt@.len() == 81,
                            ridx@.len() == 81,
                            forall|s3: int, v2: u8| 0 <= s3 < 9 && 1 <= v2 <= 9
                                ==> point_row_enc(g, s3, v2, #[trigger] rcnt@[s3 * 9 + v2 - 1],
                                    ridx@[s3 * 9 + v2 - 1]),
                            forall|j: int| 0 <= j < list@.len() ==> (#[trigger] list@[j]).0.0 < 9
                                && list@[j].0.1 < 9 && 1 <= list@[j].1 <= 9,
                            forall|qx: int, qy: int, w: u8| 0 <= qx < 9 && 0 <= qy < 9
                                ==> (#[trigger] listed(list@, qx, qy, w)) == (listed(
                                base,
                                qx,
                                qy,
                                w,
                            ) || (w == v && qy == yy as int && qx < x && qx / 3 != s2 as int % 3
                                && box_multi_row(g, qx / 3 + 3 * (qy / 3), w))),
                        decreases 9 - x,
                    {
                        if x / 3 != s2 % 3 {
                            let bs = Square::square_coord_to_index(x / 3, yy / 3);
                            let guard = rcnt[bs * 9 + (v as usize) - 1];
                            let ghost prev = list@;
                            if guard == 2 {
                                list.push(((x, yy), v));
                                proof {
                                    assert(point_row_enc(g, bs as int, v, guard,
                                        ridx@[bs * 9 + v - 1]));
                                    assert(box_multi_row(g, x as int / 3 + 3 * (yy as int / 3),
                                        v));
                                    assert(list@[list@.len() - 1] == ((x, yy), v));
                                    assert forall|qx: int, qy: int, w: u8| 0 <= qx < 9
                                        && 0 <= qy < 9
                                        implies (#[trigger] listed(list@, qx, qy, w)) == (listed(
                                        base,
                                        qx,
                                        qy,
                                        w,
                                    ) || (w == v && qy == yy as int && qx < x + 1
                                        && qx / 3 != s2 as int % 3
                                        && box_multi_row(g, qx / 3 + 3 * (qy / 3), w))) by {
                                        if listed(list@, qx, qy, w) {
                                            let j = choose|j: int| 0 <= j < list@.len()
                                                && #[trigger] list@[j]
                                                    == (((qx as u8), (qy as u8)), w);
                                            if j < prev.len() {
                                                assert(prev[j] == (((qx as u8), (qy as u8)), w));
                                                assert(listed(prev, qx, qy, w));
                                            } else {
                                                assert(qx == x as int && qy == yy as int
                                                    && w == v);
                                            }
                                        }
                                        if listed(prev, qx, qy, w) {
                                            let j = choose|j: int| 0 <= j < prev.len()
                                                && #[trigger] prev[j]
                                                    == (((qx as u8), (qy as u8)), w);
                                            assert(list@[j] == (((qx as u8), (qy as u8)), w));
                                            assert(listed(list@, qx, qy, w));
                                        }
                                        if !listed(prev, qx, qy, w) && (w == v
                                            && qy == yy as int && qx < x + 1
                                            && qx / 3 != s2 as int % 3
                                            && box_multi_row(g, qx / 3 + 3 * (qy / 3), w))
                                            && !(qx < x) {
                                            assert(qx == x as int);
                                            assert(list@[list@.len() - 1]
                                                == (((qx as u8), (qy as u8)), w));
                                            assert(listed(list@, qx, qy, w));
                                        }
                                    }
                                }
                            } else {
                                proof {
                                    assert(point_row_enc(g, bs as int, v, guard,
                                        ridx@[bs * 9 + v - 1]));
                                    assert(!box_multi_row(g, x as int / 3 + 3 * (yy as int / 3),
                                        v));
                                    assert forall|qx: int, qy: int, w: u8| 0 <= qx < 9
                                        && 0 <= qy < 9
                                        implies (#[trigger] listed(list@, qx, qy, w)) == (listed(
                                        base,
                                        qx,
                                        qy,
                                        w,
                                    ) || (w == v && qy == yy as int && qx < x + 1
                                        && qx / 3 != s2 as int % 3
                                        && box_multi_row(g, qx / 3 + 3 * (qy / 3), w))) by {
                                        if (w == v && qy == yy as int && qx == x as int
                                            && qx / 3 != s2 as int % 3
                                            && box_multi_row(g, qx / 3 + 3 * (qy / 3), w)) {
                                            assert(false);
                                        }
                                    }
                                }
                            }
                        }
                        x = x + 1;
                    }
                }
                proof {
                    assert forall|qx: int, qy: int, w: u8| 0 <= qx < 9 && 0 <= qy < 9
                        implies (#[trigger] listed(list@, qx, qy, w)) == (1 <= w <= 9
                            && box_multi_row(g, qx / 3 + 3 * (qy / 3), w)
                            && exists|s3: int| 0 <= s3 < 9 && s3 / 3 == qy / 3
                                && s3 % 3 != qx / 3 && (s3 < s2 || (s3 == s2 && w < v + 1))
                                && #[trigger] pointing_row(g, s3, qy, w)) by {
                        if cnt == 1 {
                            let yy0 = ridx@[s2 * 9 + v - 1];
                            if listed(list@, qx, qy, w) && !listed(base, qx, qy, w) {
                                assert(w == v && qy == yy0 as int && qx / 3 != s2 as int % 3);
                                assert(pointing_row(g, s2 as int, qy, w));
                            }
                            if !listed(list@, qx, qy, w) && 1 <= w <= 9
                                && box_multi_row(g, qx / 3 + 3 * (qy / 3), w)
                                && exists|s3: int| 0 <= s3 < 9 && s3 / 3 == qy / 3
                                    && s3 % 3 != qx / 3 && (s3 < s2 || (s3 == s2 && w < v + 1))
                                    && #[trigger] pointing_row(g, s3, qy, w) {
                                let s3 = choose|s3: int| 0 <= s3 < 9 && s3 / 3 == qy / 3
                                    && s3 % 3 != qx / 3 && (s3 < s2 || (s3 == s2 && w < v + 1))
                                    && #[trigger] pointing_row(g, s3, qy, w);
                                if s3 == s2 as int && w == v {
                                    assert(pointing_row(g, s2 as int, yy0 as int, v));
                                    assert(row_mini_has_cand(g, qy, s2 as int % 3, v));
                                    if qy != yy0 as int {
                                        assert(!row_mini_has_cand(g, qy, s2 as int % 3, v));
                                        assert(false);
                                    }
                                    assert(listed(list@, qx, qy, w));
                                    assert(false);
                                } else {
                                    assert(listed(base, qx, qy, w));
                                    assert(false);
                                }
                            }
                        } else {
                            if listed(list@, qx, qy, w) != listed(base, qx, qy, w) {
                                assert(false);
                            }
                            if 1 <= w <= 9 && box_multi_row(g, qx / 3 + 3 * (qy / 3), w)
                                && exists|s3: int| 0 <= s3 < 9 && s3 / 3 == qy / 3
                                    && s3 % 3 != qx / 3 && (s3 < s2 || (s3 == s2 && w < v + 1))
                                    && #[trigger] pointing_row(g, s3, qy, w) {
                                let s3 = choose|s3: int| 0 <= s3 < 9 && s3 / 3 == qy / 3
                                    && s3 % 3 != qx / 3 && (s3 < s2 || (s3 == s2 && w < v + 1))
                                    && #[trigger] pointing_row(g, s3, qy, w);
                                if s3 == s2 as int && w == v {
                                    assert(point_row_enc(g, s2 as int, v, cnt,
                                        ridx@[s2 * 9 + v - 1]));
                                    if cnt == 0 {
                                        assert(row_mini_has_cand(g, qy, s2 as int % 3, v));
                                        assert(false);
                                    } else {
                                        assert(cnt == 2);
                                        assert(box_multi_row(g, s2 as int, v));
                                        let (y1, y2) = choose|y1: int, y2: int| 0 <= y1 < 9
                                            && 0 <= y2 < 9 && y1 / 3 == s2 as int / 3
                                            && y2 / 3 == s2 as int / 3 && y1 != y2
                                            && (#[trigger] row_mini_has_cand(g, y1,
                                                s2 as int % 3, v))
                                            && (#[trigger] row_mini_has_cand(g, y2,
                                                s2 as int % 3, v));
                                        if y1 != qy {
                                            assert(!row_mini_has_cand(g, y1, s2 as int % 3, v));
                                            assert(false);
                                        } else {
                                            assert(!row_mini_has_cand(g, y2, s2 as int % 3, v));
                                            assert(false);
                                        }
                                    }
                                } else {
                                    assert(listed(base, qx, qy, w));
                                }
                            }
                        }
                    }
                }
                v = v + 1;
            }
            s2 = s2 + 1;
        }
        let ghost row_part = list@;
        // Phase two continued: the eliminations licensed by the column
        // pointing, appended to the same list.
        let mut s4: u8 = 0;
        while s4 < 9
            invariant
                *self == *old(self),
                self.grid.wf(),
                g == self.grid,
                s4 <= 9,
                ccnt@.len() == 81,
                cidx@.len() == 81,
                forall|s3: int, v2: u8| 0 <= s3 < 9 && 1 <= v2 <= 9
                    ==> point_col_enc(g, s3, v2, #[trigger] ccnt@[s3 * 9 + v2 - 1],
                        cidx@[s3 * 9 + v2 - 1]),
                forall|j: int| 0 <= j < list@.len() ==> (#[trigger] list@[j]).0.0 < 9
                    && list@[j].0.1 < 9 && 1 <= list@[j].1 <= 9,
                forall|qx: int, qy: int, w: u8| 0 <= qx < 9 && 0 <= qy < 9
                    ==> (#[trigger] listed(list@, qx, qy, w)) == (listed(row_part, qx, qy, w)
                        || (1 <= w <= 9 && box_multi_col(g, qx / 3 + 3 * (qy / 3), w)
                            && exists|s3: int| 0 <= s3 < 9 && s3 % 3 == qx / 3
                                && s3 / 3 != qy / 3 && s3 < s4
                                && #[trigger] pointing_col(g, s3, qx, w))),
            decreases 9 - s4,
        {
            let mut v: u8 = 1;
            while v <= 9
                invariant
                    *self == *old(self),
                    self.grid.wf(),
                    g == self.grid,
                    s4 < 9,
                    1 <= v <= 10,
                    ccnt@.len() == 81,
                    cidx@.len() == 81,
                    forall|s3: int, v2: u8| 0 <= s3 < 9 && 1 <= v2 <= 9
                        ==> point_col_enc(g, s3, v2, #[trigger] ccnt@[s3 * 9 + v2 - 1],
                            cidx@[s3 * 9 + v2 - 1]),
                    forall|j: int| 0 <= j < list@.len() ==> (#[trigger] list@[j]).0.0 < 9
                        && list@[j].0.1 < 9 && 1 <= list@[j].1 <= 9,
                    forall|qx: int, qy: int, w: u8| 0 <= qx < 9 && 0 <= qy < 9
                        ==> (#[trigger] listed(list@, qx, qy, w)) == (listed(row_part, qx, qy, w)
                            || (1 <= w <= 9 && box_multi_col(g, qx / 3 + 3 * (qy / 3), w)
                                && exists|s3: int| 0 <= s3 < 9 && s3 % 3 == qx / 3
                                    && s3 / 3 != qy / 3 && (s3 < s4 || (s3 == s4 && w < v))
                                    && #[trigger] pointing_col(g, s3, qx, w))),
                decreases 10 - v,
            {
                let cnt = ccnt[(s4 as usize) * 9 + (v as usize) - 1];
                let ghost base = list@;
                if cnt == 1 {
                    let xx = cidx[(s4 as usize) * 9 + (v as usize) - 1];
                    proof {
                        assert(point_col_enc(g, s4 as int, v, cnt, xx));
                        assert(pointing_col(g, s4 as int, xx as int, v));
                        assert(xx < 9 && xx as int / 3 == s4 as int % 3);
                    }
                    let mut y: u8 = 0;
                    while y < 9
                        invariant
                            *self == *old(self),
                            self.grid.wf(),
                            g == self.grid,
                            s4 < 9,
                            1 <= v <= 9,
                            y <= 9,
                            xx < 9,
                            xx as int / 3 == s4 as int % 3,
                            pointing_col(g, s4 as int, xx as int, v),
                            ccnt@.len() == 81,
                            cidx@.len() == 81,
                            forall|s3: int, v2: u8| 0 <= s3 < 9 && 1 <= v2 <= 9
                                ==> point_col_enc(g, s3, v2, #[trigger] ccnt@[s3 * 9 + v2 - 1],
                                    cidx@[s3 * 9 + v2 - 1]),
                            forall|j: int| 0 <= j < list@.len() ==> (#[trigger] list@[j]).0.0 < 9
                                && list@[j].0.1 < 9 && 1 <= list@[j].1 <= 9,
                            forall|qx: int, qy: int, w: u8| 0 <= qx < 9 && 0 <= qy < 9
                                ==> (#[trigger] listed(list@, qx, qy, w)) == (listed(
                                base,
                                qx,
                                qy,
                                w,
                            ) || (w == v && qx == xx as int && qy < y && qy / 3 != s4 as int / 3
                                && box_multi_col(g, qx / 3 + 3 * (qy / 3), w))),
                        decreases 9 - y,
                    {
                        if y / 3 != s4 / 3 {
                            let bs = Square::square_coord_to_index(xx / 3, y / 3);
                            let guard = ccnt[bs * 9 + (v as usize) - 1];
                            let ghost prev = list@;
                            if guard == 2 {
                                list.push(((xx, y), v));
                                proof {
                                    assert(point_col_enc(g, bs as int, v, guard,
                                        cidx@[bs * 9 + v - 1]));
                                    assert(box_multi_col(g, xx as int / 3 + 3 * (y as int / 3),
                                        v));
                                    assert(list@[list@.len() - 1] == ((xx, y), v));
                                    assert forall|qx: int, qy: int, w: u8| 0 <= qx < 9
                                        && 0 <= qy < 9
                                        implies (#[trigger] listed(list@, qx, qy, w)) == (listed(
                                        base,
                                        qx,
                                        qy,
                                        w,
                                    ) || (w == v && qx == xx as int && qy < y + 1
                                        && qy / 3 != s4 as int / 3
                                        && box_multi_col(g, qx / 3 + 3 * (qy / 3), w))) by {
                                        if listed(list@, qx, qy, w) {
                                            let j = choose|j: int| 0 <= j < list@.len()
                                                && #[trigger] list@[j]
                                                    == (((qx as u8), (qy as u8)), w);
                                            if j < prev.len() {
                                                assert(prev[j] == (((qx as u8), (qy as u8)), w));
                                                assert(listed(prev, qx, qy, w));
                                            } else {
                                                assert(qy == y as int && qx == xx as int
                                                    && w == v);
                                            }
                                        }
                                        if listed(prev, qx, qy, w) {
                                            let j = choose|j: int| 0 <= j < prev.len()
                                                && #[trigger] prev[j]
                                                    == (((qx as u8), (qy as u8)), w);
                                            assert(list@[j] == (((qx as u8), (qy as u8)), w));
                                            assert(listed(list@, qx, qy, w));
                                        }
                                        if !listed(prev, qx, qy, w) && (w == v
                                            && qx == xx as int && qy < y + 1
                                            && qy / 3 != s4 as int / 3
                                            && box_multi_col(g, qx / 3 + 3 * (qy / 3), w))
                                            && !(qy < y) {
                                            assert(qy == y as int);
                                            assert(list@[list@.len() - 1]
                                                == (((qx as u8), (qy as u8)), w));
                                            assert(listed(list@, qx, qy, w));
                                        }
                                    }
                                }
                            } else {
                                proof {
                                    assert(point_col_enc(g, bs as int, v, guard,
                                        cidx@[bs * 9 + v - 1]));
                                    assert(!box_multi_col(g, xx as int / 3 + 3 * (y as int / 3),
                                        v));
                                    assert forall|qx: int, qy: int, w: u8| 0 <= qx < 9
                                        && 0 <= qy < 9
                                        implies (#[trigger] listed(list@, qx, qy, w)) == (listed(
                                        base,
                                        qx,
                                        qy,
                                        w,
                                    ) || (w == v && qx == xx as int && qy < y + 1
                                        && qy / 3 != s4 as int / 3
                                        && box_multi_col(g, qx / 3 + 3 * (qy / 3), w))) by {
                                        if (w == v && qx == xx as int && qy == y as int
                                            && qy / 3 != s4 as int / 3
                                            && box_multi_col(g, qx / 3 + 3 * (qy / 3), w)) {
                                            assert(false);
                                        }
                                    }
                                }
                            }
                        }
                        y = y + 1;
                    }
                }
                proof {
                    assert forall|qx: int, qy: int, w: u8| 0 <= qx < 9 && 0 <= qy < 9
                        implies (#[trigger] listed(list@, qx, qy, w)) == (listed(
                        row_part,
                        qx,
                        qy,
                        w,
                    ) || (1 <= w <= 9 && box_multi_col(g, qx / 3 + 3 * (qy / 3), w)
                        && exists|s3: int| 0 <= s3 < 9 && s3 % 3 == qx / 3 && s3 / 3 != qy / 3
                            && (s3 < s4 || (s3 == s4 && w < v + 1))
                            && #[trigger] pointing_col(g, s3, qx, w))) by {
                        if cnt == 1 {
                            let xx0 = cidx@[s4 * 9 + v - 1];
                            if listed(list@, qx, qy, w) && !listed(base, qx, qy, w) {
                                assert(w == v && qx == xx0 as int && qy / 3 != s4 as int / 3);
                                assert(pointing_col(g, s4 as int, qx, w));
                            }
                            if !listed(list@, qx, qy, w) && !listed(row_part, qx, qy, w)
                                && 1 <= w <= 9 && box_multi_col(g, qx / 3 + 3 * (qy / 3), w)
                                && exists|s3: int| 0 <= s3 < 9 && s3 % 3 == qx / 3
                                    && s3 / 3 != qy / 3 && (s3 < s4 || (s3 == s4 && w < v + 1))
                                    && #[trigger] pointing_col(g, s3, qx, w) {
                                let s3 = choose|s3: int| 0 <= s3 < 9 && s3 % 3 == qx / 3
                                    && s3 / 3 != qy / 3 && (s3 < s4 || (s3 == s4 && w < v + 1))
                                    && #[trigger] pointing_col(g, s3, qx, w);
                                if s3 == s4 as int && w == v {
                                    assert(pointing_col(g, s4 as int, xx0 as int, v));
                                    assert(col_mini_has_cand(g, qx, s4 as int / 3, v));
                                    if qx != xx0 as int {
                                        assert(!col_mini_has_cand(g, qx, s4 as int / 3, v));
                                        assert(false);
                                    }
                                    assert(listed(list@, qx, qy, w));
                                    assert(false);
                                } else {
                                    assert(listed(base, qx, qy, w));
                                    assert(false);
                                }
                            }
                        } else {
                            if listed(list@, qx, qy, w) != listed(base, qx, qy, w) {
                                assert(false);
                            }
                            if !listed(row_part, qx, qy, w) && 1 <= w <= 9
                                && box_multi_col(g, qx / 3 + 3 * (qy / 3), w)
                                && exists|s3: int| 0 <= s3 < 9 && s3 % 3 == qx / 3
                                    && s3 / 3 != qy / 3 && (s3 < s4 || (s3 == s4 && w < v + 1))
                                    && #[trigger] pointing_col(g, s3, qx, w) {
                                let s3 = choose|s3: int| 0 <= s3 < 9 && s3 % 3 == qx / 3
                                    && s3 / 3 != qy / 3 && (s3 < s4 || (s3 == s4 && w < v + 1))
                                    && #[trigger] pointing_col(g, s3, qx, w);
                                if s3 == s4 as int && w == v {
                                    assert(point_col_enc(g, s4 as int, v, cnt,
                                        cidx@[s4 * 9 + v - 1]));
                                    if cnt == 0 {
                                        assert(col_mini_has_cand(g, qx, s4 as int / 3, v));
                                        assert(false);
                                    } else {
                                        assert(cnt == 2);
                                        assert(box_multi_col(g, s4 as int, v));
                                        let (x1, x2) = choose|x1: int, x2: int| 0 <= x1 < 9
                                            && 0 <= x2 < 9 && x1 / 3 == s4 as int % 3
                                            && x2 / 3 == s4 as int % 3 && x1 != x2
                                            && (#[trigger] col_mini_has_cand(g, x1,
                                                s4 as int / 3, v))
                                            && (#[trigger] col_mini_has_cand(g, x2,
                                                s4 as int / 3, v));
                                        if x1 != qx {
                                            assert(!col_mini_has_cand(g, x1, s4 as int / 3, v));
                                            assert(false);
                                        } else {
                                            assert(!col_mini_has_cand(g, x2, s4 as int / 3, v));
                                            assert(false);
                                        }
                                    }
                                } else {
                                    assert(listed(base, qx, qy, w));
                                }
                            }
                        }
                    }
                }
                v = v + 1;
            }
            s4 = s4 + 1;
        }
        // Phase three: apply all collected eliminations.
        let changed = Self::apply_removals(&mut self.grid, &list);
        proof {
            assert forall|qx: int, qy: int, w: u8| 0 <= qx < 9 && 0 <= qy < 9
                implies (#[trigger] listed(list@, qx, qy, w)) == (1 <= w <= 9
                    && (pointing_row_removal(g, qx, qy, w)
                        || pointing_col_removal(g, qx, qy, w))) by {
                assert(listed(row_part, qx, qy, w) == (1 <= w <= 9
                    && box_multi_row(g, qx / 3 + 3 * (qy / 3), w)
                    && exists|s3: int| 0 <= s3 < 9 && s3 / 3 == qy / 3 && s3 % 3 != qx / 3
                        && s3 < 9 && #[trigger] pointing_row(g, s3, qy, w)));
                if pointing_row_removal(g, qx, qy, w) && 1 <= w <= 9 {
                    let s3 = choose|s3: int| 0 <= s3 < 9 && s3 / 3 == qy / 3
                        && s3 % 3 != qx / 3 && #[trigger] pointing_row(g, s3, qy, w);
                    assert(listed(row_part, qx, qy, w));
                }
                if pointing_col_removal(g, qx, qy, w) && 1 <= w <= 9 {
                    let s3 = choose|s3: int| 0 <= s3 < 9 && s3 % 3 == qx / 3
                        && s3 / 3 != qy / 3 && #[trigger] pointing_col(g, s3, qx, w);
                    assert(listed(list@, qx, qy, w));
                }
                if listed(row_part, qx, qy, w) {
                    assert(pointing_row_removal(g, qx, qy, w));
                }
                if listed(list@, qx, qy, w) && !listed(row_part, qx, qy, w) {
                    assert(pointing_col_removal(g, qx, qy, w));
                }
            }
            assert forall|x3: int, y3: int, w: u8| 0 <= x3 < 9 && 0 <= y3 < 9
                implies (#[trigger] self.grid.has_cand(x3, y3, w)) == (old(self).grid.has_cand(
                x3,
                y3,
                w,
            ) && !pointing_row_removal(old(self).grid, x3, y3, w)
                && !pointing_col_removal(old(self).grid, x3, y3, w)) by {
                if old(self).grid.has_cand(x3, y3, w) {
                    assert(1 <= w <= 9);
                }
            }
            if changed {
                let j = choose|j: int| 0 <= j < list@.len()
                    && g.has_cand((#[trigger] list@[j]).0.0 as int, list@[j].0.1 as int,
                        list@[j].1);
                assert(listed(list@, list@[j].0.0 as int, list@[j].0.1 as int, list@[j].1));
            }
            if exists|x3: int, y3: int, w: u8| 0 <= x3 < 9 && 0 <= y3 < 9
                && (#[trigger] g.has_cand(x3, y3, w))
                && (pointing_row_removal(g, x3, y3, w) || pointing_col_removal(g, x3, y3, w)) {
                let (x3, y3, w) = choose|x3: int, y3: int, w: u8| 0 <= x3 < 9 && 0 <= y3 < 9
                    && (#[trigger] g.has_cand(x3, y3, w))
                    && (pointing_row_removal(g, x3, y3, w) || pointing_col_removal(g, x3, y3, w));
                assert(listed(list@, x3, y3, w));
                let j = choose|j: int| 0 <= j < list@.len()
                    && #[trigger] list@[j] == (((x3 as u8), (y3 as u8)), w);
                assert(g.has_cand(list@[j].0.0 as int, list@[j].0.1 as int, list@[j].1));
                assert(changed);
            }
        }
        changed
    }

    /// Claiming over rows: for each row holding all its occurrences of a
    /// digit inside one box, remove that digit from the box's other two rows.
    /// True exactly when some candidate was actually removed.
    pub fn square_claim_rows(&mut self) -> (r: bool)
        requires
            old(self).grid.wf(),
        ensures
            final(self).grid.wf(),
            final(self).cheating == old(self).cheating,
            forall|x: int, y: int| 0 <= x < 9 && 0 <= y < 9
                ==> #[trigger] final(self).grid.val(x, y) == old(self).grid.val(x, y),
            forall|x: int, y: int, w: u8| 0 <= x < 9 && 0 <= y < 9
                ==> (#[trigger] final(self).grid.has_cand(x, y, w))
                    == (old(self).grid.has_cand(x, y, w)
                        && !claim_row_removal(old(self).grid, x, y, w)),
            final(self).grid.squares@ == old(self).grid.squares@,
            final(self).grid.original_numbers@ == old(self).grid.original_numbers@,
            final(self).grid.invalid_cells@ == old(self).grid.invalid_cells@,
            final(self).grid.solution@ == old(self).grid.solution@,
            !r ==> final(self).grid.rows@ == old(self).grid.rows@
                && final(self).grid.columns@ == old(self).grid.columns@,
            r == exists|x: int, y: int, w: u8| 0 <= x < 9 && 0 <= y < 9
                && (#[trigger] old(self).grid.has_cand(x, y, w))
                && claim_row_removal(old(self).grid, x, y, w),
    {
        let ghost g = self.grid;
        // Phase one: per (row, digit), which box column confines the digit.
        let mut excl: Vec<u8> = Vec::new();
        let mut y: u8 = 0;
        while y < 9
            invariant
                *self == *old(self),
                self.grid.wf(),
                g == self.grid,
                y <= 9,
                excl@.len() == y * 9,
                forall|y2: int, v2: u8| 0 <= y2 < y && 1 <= v2 <= 9
                    ==> claim_row_enc(g, y2, v2, #[trigger] excl@[y2 * 9 + v2 - 1]),
            decreases 9 - y,
        {
            let mut v: u8 = 1;
            while v <= 9
                invariant
                    *self == *old(self),
                    self.grid.wf(),
                    g == self.grid,
                    y < 9,
                    1 <= v <= 10,
                    excl@.len() == y * 9 + v - 1,
                    forall|y2: int, v2: u8| 0 <= y2 < y && 1 <= v2 <= 9
                        ==> claim_row_enc(g, y2, v2, #[trigger] excl@[y2 * 9 + v2 - 1]),
                    forall|v2: u8| 1 <= v2 < v
                        ==> claim_row_enc(g, y as int, v2, #[trigger] excl@[y * 9 + v2 - 1]),
                decreases 10 - v,
            {
                let mut e: u8 = 5;
                let mut sx: u8 = 0;
                while sx < 3
                    invariant
                        *self == *old(self),
                        self.grid.wf(),
                        g == self.grid,
                        y < 9,
                        1 <= v <= 9,
                        sx <= 3,
                        e < sx || e == 4 || e == 5,
                        e < 3 ==> row_mini_has_cand(g, y as int, e as int, v)
                            && forall|s2: int| 0 <= s2 < sx && s2 != e
                                ==> !(#[trigger] row_mini_has_cand(g, y as int, s2, v)),
                        e == 4 ==> exists|s1: int, s2: int| 0 <= s1 < 3 && 0 <= s2 < 3
                            && s1 != s2 && #[trigger] row_mini_has_cand(g, y as int, s1, v)
                            && #[trigger] row_mini_has_cand(g, y as int, s2, v),
                        e == 5 ==> forall|s2: int| 0 <= s2 < sx
                            ==> !(#[trigger] row_mini_has_cand(g, y as int, s2, v)),
                    decreases 3 - sx,
                {
                    let ml = self.grid.rows[y as usize].mini_lines[sx as usize];
                    let hm = ml.has_candidate_anywhere(v);
                    proof {
                        assert forall|i: int| 0 <= i < 3
                            implies #[trigger] ml.candidates[i]
                                == g.cmask_at(3 * sx + i, y as int) by {
                            assert(g.rows[y as int].cmask(3 * sx + i) == ml.candidates[i]);
                        }
                        if hm {
                            let i = choose|i: int| 0 <= i < 3
                                && cand_has(#[trigger] ml.candidates[i], v);
                            assert(g.has_cand(3 * sx + i, y as int, v));
                            assert(row_mini_has_cand(g, y as int, sx as int, v));
                        }
                        if row_mini_has_cand(g, y as int, sx as int, v) {
                            let x2 = choose|x2: int| 0 <= x2 < 9 && x2 / 3 == sx as int
                                && #[trigger] g.has_cand(x2, y as int, v);
                            assert(ml.candidates[x2 % 3] == g.cmask_at(x2, y as int));
                            assert(cand_has(ml.candidates[x2 % 3], v));
                            assert(hm);
                        }
                        assert(hm == row_mini_has_cand(g, y as int, sx as int, v));
                    }
                    if hm {
                        if e == 5 {
                            e = sx;
                        } else if e != 4 {
                            proof {
                                assert(row_mini_has_cand(g, y as int, e as int, v));
                                assert(row_mini_has_cand(g, y as int, sx as int, v));
                                assert(e as int != sx as int);
                            }
                            e = 4;
                        }
                    }
                    sx = sx + 1;
                }
                excl.push(e);
                proof {
                    assert(claim_row_enc(g, y as int, v, e));
                    assert(excl@[y * 9 + v - 1] == e);
                    assert forall|v2: u8| 1 <= v2 < v + 1
                        implies claim_row_enc(g, y as int, v2, #[trigger] excl@[y * 9 + v2 - 1])
                        by {}
                }
                v = v + 1;
            }
            y = y + 1;
        }
        // Phase two: collect every (cell, digit) the rule eliminates.
        let mut list: Vec<((Coord, Coord), CellValue)> = Vec::new();
        let mut y2: u8 = 0;
        while y2 < 9
            invariant
                *self == *old(self),
                self.grid.wf(),
                g == self.grid,
                y2 <= 9,
                excl@.len() == 81,
                forall|y3: int, v2: u8| 0 <= y3 < 9 && 1 <= v2 <= 9
                    ==> claim_row_enc(g, y3, v2, #[trigger] excl@[y3 * 9 + v2 - 1]),
                forall|j: int| 0 <= j < list@.len() ==> (#[trigger] list@[j]).0.0 < 9
                    && list@[j].0.1 < 9 && 1 <= list@[j].1 <= 9,
                forall|qx: int, qy: int, w: u8| 0 <= qx < 9 && 0 <= qy < 9
                    ==> (#[trigger] listed(list@, qx, qy, w)) == (1 <= w <= 9
                        && exists|y3: int| 0 <= y3 < 9 && y3 / 3 == qy / 3 && y3 != qy && y3 < y2
                            && #[trigger] claim_row_confined(g, y3, qx / 3, w)),
            decreases 9 - y2,
        {
            let mut v: u8 = 1;
            while v <= 9
                invariant
                    *self == *old(self),
                    self.grid.wf(),
                    g == self.grid,
                    y2 < 9,
                    1 <= v <= 10,
                    excl@.len() == 81,
                    forall|y3: int, v2: u8| 0 <= y3 < 9 && 1 <= v2 <= 9
                        ==> claim_row_enc(g, y3, v2, #[trigger] excl@[y3 * 9 + v2 - 1]),
                    forall|j: int| 0 <= j < list@.len() ==> (#[trigger] list@[j]).0.0 < 9
                        && list@[j].0.1 < 9 && 1 <= list@[j].1 <= 9,
                    forall|qx: int, qy: int, w: u8| 0 <= qx < 9 && 0 <= qy < 9
                        ==> (#[trigger] listed(list@, qx, qy, w)) == (1 <= w <= 9
                            && exists|y3: int| 0 <= y3 < 9 && y3 / 3 == qy / 3 && y3 != qy
                                && (y3 < y2 || (y3 == y2 && w < v))
                                && #[trigger] claim_row_confined(g, y3, qx / 3, w)),
                decreases 10 - v,
            {
                let e = excl[(y2 as usize) * 9 + (v as usize) - 1];
                let ghost base = list@;
                if e <= 2 {
                    proof {
                        assert(claim_row_enc(g, y2 as int, v, e));
                        assert(claim_row_confined(g, y2 as int, e as int, v));
                    }
                    let mut bi: u8 = 0;
                    while bi < 3
                        invariant
                            *self == *old(self),
                            self.grid.wf(),
                            g == self.grid,
                            y2 < 9,
                            1 <= v <= 9,
                            e <= 2,
                            bi <= 3,
                            claim_row_confined(g, y2 as int, e as int, v),
                            forall|j: int| 0 <= j < list@.len() ==> (#[trigger] list@[j]).0.0 < 9
                                && list@[j].0.1 < 9 && 1 <= list@[j].1 <= 9,
                            forall|qx: int, qy: int, w: u8| 0 <= qx < 9 && 0 <= qy < 9
                                ==> (#[trigger] listed(list@, qx, qy, w)) == (listed(
                                base,
                                qx,
                                qy,
                                w,
                            ) || (w == v && qx / 3 == e && qy / 3 == y2 as int / 3 && qy != y2
                                && qy % 3 < bi)),
                        decreases 3 - bi,
                    {
                        let br = (y2 / 3) * 3 + bi;
                        if br != y2 {
                            let mut ci: u8 = 0;
                            while ci < 3
                                invariant
                                    *self == *old(self),
                                    self.grid.wf(),
                                    g == self.grid,
                                    y2 < 9,
                                    1 <= v <= 9,
                                    e <= 2,
                                    bi < 3,
                                    br == (y2 as int / 3) * 3 + bi,
                                    br != y2,
                                    ci <= 3,
                                    claim_row_confined(g, y2 as int, e as int, v),
                                    forall|j: int| 0 <= j < list@.len()
                                        ==> (#[trigger] list@[j]).0.0 < 9
                                            && list@[j].0.1 < 9 && 1 <= list@[j].1 <= 9,
                                    forall|qx: int, qy: int, w: u8| 0 <= qx < 9 && 0 <= qy < 9
                                        ==> (#[trigger] listed(list@, qx, qy, w)) == (listed(
                                        base,
                                        qx,
                                        qy,
                                        w,
                                    ) || (w == v && qx / 3 == e && qy / 3 == y2 as int / 3
                                        && qy != y2
                                        && (qy % 3 < bi || (qy == br && qx % 3 < ci)))),
                                decreases 3 - ci,
                            {
                                let ghost prev = list@;
                                list.push(((e * 3 + ci, br), v));
                                proof {
                                    assert(list@[list@.len() - 1] == (((e * 3 + ci) as u8, br), v));
                                    assert forall|qx: int, qy: int, w: u8| 0 <= qx < 9
                                        && 0 <= qy < 9
                                        implies (#[trigger] listed(list@, qx, qy, w)) == (listed(
                                        base,
                                        qx,
                                        qy,
                                        w,
                                    ) || (w == v && qx / 3 == e && qy / 3 == y2 as int / 3
                                        && qy != y2
                                        && (qy % 3 < bi || (qy == br && qx % 3 < ci + 1)))) by {
                                        if listed(list@, qx, qy, w) {
                                            let j = choose|j: int| 0 <= j < list@.len()
                                                && #[trigger] list@[j]
                                                    == (((qx as u8), (qy as u8)), w);
                                            if j < prev.len() {
                                                assert(prev[j] == (((qx as u8), (qy as u8)), w));
                                                assert(listed(prev, qx, qy, w));
                                            } else {
                                                assert(qx == e * 3 + ci && qy == br && w == v);
                                            }
                                        }
                                        if listed(prev, qx, qy, w) {
                                            let j = choose|j: int| 0 <= j < prev.len()
                                                && #[trigger] prev[j]
                                                    == (((qx as u8), (qy as u8)), w);
                                            assert(list@[j] == (((qx as u8), (qy as u8)), w));
                                            assert(listed(list@, qx, qy, w));
                                        }
                                        if !listed(prev, qx, qy, w) && (w == v && qx / 3 == e
                                            && qy / 3 == y2 as int / 3 && qy != y2
                                            && (qy % 3 < bi || (qy == br && qx % 3 < ci + 1)))
                                            && !(qy % 3 < bi || (qy == br && qx % 3 < ci)) {
                                            assert(qy == br && qx % 3 == ci);
                                            assert(qx == e * 3 + ci);
                                            assert(list@[list@.len() - 1]
                                                == (((qx as u8), (qy as u8)), w));
                                            assert(listed(list@, qx, qy, w));
                                        }
                                    }
                                }
                                ci = ci + 1;
                            }
                        } else {
                            proof {
                                assert forall|qx: int, qy: int, w: u8| 0 <= qx < 9 && 0 <= qy < 9
                                    implies (#[trigger] listed(list@, qx, qy, w)) == (listed(
                                    base,
                                    qx,
                                    qy,
                                    w,
                                ) || (w == v && qx / 3 == e && qy / 3 == y2 as int / 3
                                    && qy != y2 && qy % 3 < bi + 1)) by {
                                    if qy % 3 == bi && qy / 3 == y2 as int / 3 {
                                        assert(qy == br);
                                    }
                                }
                            }
                        }
                        bi = bi + 1;
                    }
                }
                proof {
                    assert forall|qx: int, qy: int, w: u8| 0 <= qx < 9 && 0 <= qy < 9
                        implies (#[trigger] listed(list@, qx, qy, w)) == (1 <= w <= 9
                            && exists|y3: int| 0 <= y3 < 9 && y3 / 3 == qy / 3 && y3 != qy
                                && (y3 < y2 || (y3 == y2 && w < v + 1))
                                && #[trigger] claim_row_confined(g, y3, qx / 3, w)) by {
                        if e <= 2 {
                            // entries for source row y2 and digit v were added
                            if listed(list@, qx, qy, w) && !listed(base, qx, qy, w) {
                                assert(w == v && qx / 3 == e && qy / 3 == y2 as int / 3
                                    && qy != y2);
                                assert(claim_row_confined(g, y2 as int, qx / 3, w));
                            }
                            if !listed(list@, qx, qy, w) && 1 <= w <= 9
                                && exists|y3: int| 0 <= y3 < 9 && y3 / 3 == qy / 3 && y3 != qy
                                    && (y3 < y2 || (y3 == y2 && w < v + 1))
                                    && #[trigger] claim_row_confined(g, y3, qx / 3, w) {
                                let y3 = choose|y3: int| 0 <= y3 < 9 && y3 / 3 == qy / 3
                                    && y3 != qy && (y3 < y2 || (y3 == y2 && w < v + 1))
                                    && #[trigger] claim_row_confined(g, y3, qx / 3, w);
                                if y3 == y2 as int && w == v {
                                    // confinement pins the box column to e
                                    if qx / 3 != e as int {
                                        assert(row_mini_has_cand(g, y2 as int, qx / 3, w));
                                        assert(!row_mini_has_cand(g, y2 as int, qx / 3, v));
                                        assert(false);
                                    }
                                    assert(listed(list@, qx, qy, w));
                                    assert(false);
                                } else {
                                    assert(listed(base, qx, qy, w));
                                    assert(false);
                                }
                            }
                        } else {
                            // no confinement in this row for this digit
                            if listed(list@, qx, qy, w) != listed(base, qx, qy, w) {
                                assert(false);
                            }
                            if 1 <= w <= 9 && exists|y3: int| 0 <= y3 < 9 && y3 / 3 == qy / 3
                                && y3 != qy && (y3 < y2 || (y3 == y2 && w < v + 1))
                                && #[trigger] claim_row_confined(g, y3, qx / 3, w) {
                                let y3 = choose|y3: int| 0 <= y3 < 9 && y3 / 3 == qy / 3
                                    && y3 != qy && (y3 < y2 || (y3 == y2 && w < v + 1))
                                    && #[trigger] claim_row_confined(g, y3, qx / 3, w);
                                if y3 == y2 as int && w == v {
                                    assert(claim_row_enc(g, y2 as int, v, e));
                                    if e == 5 {
                                        assert(row_mini_has_cand(g, y2 as int, qx / 3, v));
                                        assert(false);
                                    } else {
                                        let (s1, s2) = choose|s1: int, s2: int| 0 <= s1 < 3
                                            && 0 <= s2 < 3 && s1 != s2
                                            && #[trigger] row_mini_has_cand(g, y2 as int, s1, v)
                                            && #[trigger] row_mini_has_cand(g, y2 as int, s2, v);
                                        if s1 != qx / 3 {
                                            assert(!row_mini_has_cand(g, y2 as int, s1, v));
                                            assert(false);
                                        } else {
                                            assert(!row_mini_has_cand(g, y2 as int, s2, v));
                                            assert(false);
                                        }
                                    }
                                } else {
                                    assert(listed(base, qx, qy, w));
                                }
                            }
                        }
                    }
                }
                v = v + 1;
            }
            y2 = y2 + 1;
        }
        // Phase three: apply the removals.
        let changed = Self::apply_removals(&mut self.grid, &list);
        proof {
            assert forall|qx: int, qy: int, w: u8| 0 <= qx < 9 && 0 <= qy < 9
                implies (#[trigger] listed(list@, qx, qy, w))
                    == (1 <= w <= 9 && claim_row_removal(g, qx, qy, w)) by {
                if claim_row_removal(g, qx, qy, w) && 1 <= w <= 9 {
                    let y3 = choose|y3: int| 0 <= y3 < 9 && y3 / 3 == qy / 3 && y3 != qy
                        && #[trigger] claim_row_confined(g, y3, qx / 3, w);
                    assert(listed(list@, qx, qy, w));
                }
                if listed(list@, qx, qy, w) {
                    let y3 = choose|y3: int| 0 <= y3 < 9 && y3 / 3 == qy / 3 && y3 != qy
                        && (y3 < 9 || (y3 == 9 && w < 10))
                        && #[trigger] claim_row_confined(g, y3, qx / 3, w);
                    assert(claim_row_removal(g, qx, qy, w));
                }
            }
            assert forall|x: int, y3: int, w: u8| 0 <= x < 9 && 0 <= y3 < 9
                implies (#[trigger] self.grid.has_cand(x, y3, w)) == (old(self).grid.has_cand(
                x,
                y3,
                w,
            ) && !claim_row_removal(old(self).grid, x, y3, w)) by {
                if old(self).grid.has_cand(x, y3, w) {
                    assert(1 <= w <= 9);
                }
            }
            if changed {
                let j = choose|j: int| 0 <= j < list@.len()
                    && g.has_cand((#[trigger] list@[j]).0.0 as int, list@[j].0.1 as int,
                        list@[j].1);
                assert(listed(list@, list@[j].0.0 as int, list@[j].0.1 as int, list@[j].1));
                assert(claim_row_removal(g, list@[j].0.0 as int, list@[j].0.1 as int,
                    list@[j].1));
            }
            if exists|x: int, y3: int, w: u8| 0 <= x < 9 && 0 <= y3 < 9
                && (#[trigger] g.has_cand(x, y3, w)) && claim_row_removal(g, x, y3, w) {
                let (x, y3, w) = choose|x: int, y3: int, w: u8| 0 <= x < 9 && 0 <= y3 < 9
                    && (#[trigger] g.has_cand(x, y3, w)) && claim_row_removal(g, x, y3, w);
                assert(listed(list@, x, y3, w));
                let j = choose|j: int| 0 <= j < list@.len()
                    && #[trigger] list@[j] == (((x as u8), (y3 as u8)), w);
                assert(g.has_cand(list@[j].0.0 as int, list@[j].0.1 as int, list@[j].1));
                assert(changed);
            }
        }
        changed
    }

    /// Claiming over columns: for each column holding all its occurrences of
    /// a digit inside one box, remove that digit from the box's other two
    /// columns. True exactly when some candidate was actually removed.
    pub fn square_claim_columns(&mut self) -> (r: bool)
        requires
            old(self).grid.wf(),
        ensures
            final(self).grid.wf(),
            final(self).cheating == old(self).cheating,
            forall|x: int, y: int| 0 <= x < 9 && 0 <= y < 9
                ==> #[trigger] final(self).grid.val(x, y) == old(self).grid.val(x, y),
            forall|x: int, y: int, w: u8| 0 <= x < 9 && 0 <= y < 9
                ==> (#[trigger] final(self).grid.has_cand(x, y, w))
                    == (old(self).grid.has_cand(x, y, w)
                        && !claim_col_removal(old(self).grid, x, y, w)),
            final(self).grid.squares@ == old(self).grid.squares@,
            final(self).grid.original_numbers@ == old(self).grid.original_numbers@,
            final(self).grid.invalid_cells@ == old(self).grid.invalid_cells@,
            final(self).grid.solution@ == old(self).grid.solution@,
            !r ==> final(self).grid.rows@ == old(self).grid.rows@
                && final(self).grid.columns@ == old(self).grid.columns@,
            r == exists|x: int, y: int, w: u8| 0 <= x < 9 && 0 <= y < 9
                && (#[trigger] old(self).grid.has_cand(x, y, w))
                && claim_col_removal(old(self).grid, x, y, w),
    {
        let ghost g = self.grid;
        // Phase one: per (column, digit), which box row confines the digit.
        let mut excl: Vec<u8> = Vec::new();
        let mut x: u8 = 0;
        while x < 9
            invariant
                *self == *old(self),
                self.grid.wf(),
                g == self.grid,
                x <= 9,
                excl@.len() == x * 9,
                forall|x2: int, v2: u8| 0 <= x2 < x && 1 <= v2 <= 9
                    ==> claim_col_enc(g, x2, v2, #[trigger] excl@[x2 * 9 + v2 - 1]),
            decreases 9 - x,
        {
            let mut v: u8 = 1;
            while v <= 9
                invariant
                    *self == *old(self),
                    self.grid.wf(),
                    g == self.grid,
                    x < 9,
                    1 <= v <= 10,
                    excl@.len() == x * 9 + v - 1,
                    forall|x2: int, v2: u8| 0 <= x2 < x && 1 <= v2 <= 9
                        ==> claim_col_enc(g, x2, v2, #[trigger] excl@[x2 * 9 + v2 - 1]),
                    forall|v2: u8| 1 <= v2 < v
                        ==> claim_col_enc(g, x as int, v2, #[trigger] excl@[x * 9 + v2 - 1]),
                decreases 10 - v,
            {
                let mut e: u8 = 5;
                let mut sy: u8 = 0;
                while sy < 3
                    invariant
                        *self == *old(self),
                        self.grid.wf(),
                        g == self.grid,
                        x < 9,
                        1 <= v <= 9,
                        sy <= 3,
                        e < sy || e == 4 || e == 5,
                        e < 3 ==> col_mini_has_cand(g, x as int, e as int, v)
                            && forall|s2: int| 0 <= s2 < sy && s2 != e
                                ==> !(#[trigger] col_mini_has_cand(g, x as int, s2, v)),
                        e == 4 ==> exists|s1: int, s2: int| 0 <= s1 < 3 && 0 <= s2 < 3
                            && s1 != s2 && #[trigger] col_mini_has_cand(g, x as int, s1, v)
                            && #[trigger] col_mini_has_cand(g, x as int, s2, v),
                        e == 5 ==> forall|s2: int| 0 <= s2 < sy
                            ==> !(#[trigger] col_mini_has_cand(g, x as int, s2, v)),
                    decreases 3 - sy,
                {
                    let ml = self.grid.columns[x as usize].mini_lines[sy as usize];
                    let hm = ml.has_candidate_anywhere(v);
                    proof {
                        assert forall|i: int| 0 <= i < 3
                            implies #[trigger] ml.candidates[i]
                                == g.col_cmask(x as int, 3 * sy + i) by {
                            assert(g.columns[x as int].cmask(3 * sy + i) == ml.candidates[i]);
                        }
                        assert forall|i: int| 0 <= i < 3
                            implies (cand_has(#[trigger] ml.candidates[i], v)
                                == g.has_cand(x as int, 3 * sy + i, v)) by {
                            assert(cand_has(g.col_cmask(x as int, 3 * sy + i), v)
                                == cand_has(g.cmask_at(x as int, 3 * sy + i), v));
                        }
                        if hm {
                            let i = choose|i: int| 0 <= i < 3
                                && cand_has(#[trigger] ml.candidates[i], v);
                            assert(g.has_cand(x as int, 3 * sy + i, v));
                            assert(col_mini_has_cand(g, x as int, sy as int, v));
                        }
                        if col_mini_has_cand(g, x as int, sy as int, v) {
                            let y2 = choose|y2: int| 0 <= y2 < 9 && y2 / 3 == sy as int
                                && #[trigger] g.has_cand(x as int, y2, v);
                            assert(cand_has(ml.candidates[y2 % 3], v));
                            assert(hm);
                        }
                        assert(hm == col_mini_has_cand(g, x as int, sy as int, v));
                    }
                    if hm {
                        if e == 5 {
                            e = sy;
                        } else if e != 4 {
                            proof {
                                assert(col_mini_has_cand(g, x as int, e as int, v));
                                assert(col_mini_has_cand(g, x as int, sy as int, v));
                                assert(e as int != sy as int);
                            }
                            e = 4;
                        }
                    }
                    sy = sy + 1;
                }
                excl.push(e);
                proof {
                    assert(claim_col_enc(g, x as int, v, e));
                    assert(excl@[x * 9 + v - 1] == e);
                    assert forall|v2: u8| 1 <= v2 < v + 1
                        implies claim_col_enc(g, x as int, v2, #[trigger] excl@[x * 9 + v2 - 1])
                        by {}
                }
                v = v + 1;
            }
            x = x + 1;
        }
        // Phase two: collect every (cell, digit) the rule eliminates.
        let mut list: Vec<((Coord, Coord), CellValue)> = Vec::new();
        let mut x2: u8 = 0;
        while x2 < 9
            invariant
                *self == *old(self),
                self.grid.wf(),
                g == self.grid,
                x2 <= 9,
                excl@.len() == 81,
                forall|x3: int, v2: u8| 0 <= x3 < 9 && 1 <= v2 <= 9
                    ==> claim_col_enc(g, x3, v2, #[trigger] excl@[x3 * 9 + v2 - 1]),
                forall|j: int| 0 <= j < list@.len() ==> (#[trigger] list@[j]).0.0 < 9
                    && list@[j].0.1 < 9 && 1 <= list@[j].1 <= 9,
                forall|qx: int, qy: int, w: u8| 0 <= qx < 9 && 0 <= qy < 9
                    ==> (#[trigger] listed(list@, qx, qy, w)) == (1 <= w <= 9
                        && exists|x3: int| 0 <= x3 < 9 && x3 / 3 == qx / 3 && x3 != qx && x3 < x2
                            && #[trigger] claim_col_confined(g, x3, qy / 3, w)),
            decreases 9 - x2,
        {
            let mut v: u8 = 1;
            while v <= 9
                invariant
                    *self == *old(self),
                    self.grid.wf(),
                    g == self.grid,
                    x2 < 9,
                    1 <= v <= 10,
                    excl@.len() == 81,
                    forall|x3: int, v2: u8| 0 <= x3 < 9 && 1 <= v2 <= 9
                        ==> claim_col_enc(g, x3, v2, #[trigger] excl@[x3 * 9 + v2 - 1]),
                    forall|j: int| 0 <= j < list@.len() ==> (#[trigger] list@[j]).0.0 < 9
                        && list@[j].0.1 < 9 && 1 <= list@[j].1 <= 9,
                    forall|qx: int, qy: int, w: u8| 0 <= qx < 9 && 0 <= qy < 9
                        ==> (#[trigger] listed(list@, qx, qy, w)) == (1 <= w <= 9
                            && exists|x3: int| 0 <= x3 < 9 && x3 / 3 == qx / 3 && x3 != qx
                                && (x3 < x2 || (x3 == x2 && w < v))
                                && #[trigger] claim_col_confined(g, x3, qy / 3, w)),
                decreases 10 - v,
            {
                let e = excl[(x2 as usize) * 9 + (v as usize) - 1];
                let ghost base = list@;
                if e <= 2 {
                    proof {
                        assert(claim_col_enc(g, x2 as int, v, e));
                        assert(claim_col_confined(g, x2 as int, e as int, v));
                    }
                    let mut bi: u8 = 0;
                    while bi < 3
                        invariant
                            *self == *old(self),
                            self.grid.wf(),
                            g == self.grid,
                            x2 < 9,
                            1 <= v <= 9,
                            e <= 2,
                            bi <= 3,
                            claim_col_confined(g, x2 as int, e as int, v),
                            forall|j: int| 0 <= j < list@.len() ==> (#[trigger] list@[j]).0.0 < 9
                                && list@[j].0.1 < 9 && 1 <= list@[j].1 <= 9,
                            forall|qx: int, qy: int, w: u8| 0 <= qx < 9 && 0 <= qy < 9
                                ==> (#[trigger] listed(list@, qx, qy, w)) == (listed(
                                base,
                                qx,
                                qy,
                                w,
                            ) || (w == v && qy / 3 == e && qx / 3 == x2 as int / 3 && qx != x2
                                && qx % 3 < bi)),
                        decreases 3 - bi,
                    {
                        let bc = (x2 / 3) * 3 + bi;
                        if bc != x2 {
                            let mut ci: u8 = 0;
                            while ci < 3
                                invariant
                                    *self == *old(self),
                                    self.grid.wf(),
                                    g == self.grid,
                                    x2 < 9,
                                    1 <= v <= 9,
                                    e <= 2,
                                    bi < 3,
                                    bc == (x2 as int / 3) * 3 + bi,
                                    bc != x2,
                                    ci <= 3,
                                    claim_col_confined(g, x2 as int, e as int, v),
                                    forall|j: int| 0 <= j < list@.len()
                                        ==> (#[trigger] list@[j]).0.0 < 9
                                            && list@[j].0.1 < 9 && 1 <= list@[j].1 <= 9,
                                    forall|qx: int, qy: int, w: u8| 0 <= qx < 9 && 0 <= qy < 9
                                        ==> (#[trigger] listed(list@, qx, qy, w)) == (listed(
                                        base,
                                        qx,
                                        qy,
                                        w,
                                    ) || (w == v && qy / 3 == e && qx / 3 == x2 as int / 3
                                        && qx != x2
                                        && (qx % 3 < bi || (qx == bc && qy % 3 < ci)))),
                                decreases 3 - ci,
                            {
                                let ghost prev = list@;
                                list.push(((bc, e * 3 + ci), v));
                                proof {
                                    assert(list@[list@.len() - 1]
                                        == ((bc, (e * 3 + ci) as u8), v));
                                    assert forall|qx: int, qy: int, w: u8| 0 <= qx < 9
                                        && 0 <= qy < 9
                                        implies (#[trigger] listed(list@, qx, qy, w)) == (listed(
                                        base,
                                        qx,
                                        qy,
                                        w,
                                    ) || (w == v && qy / 3 == e && qx / 3 == x2 as int / 3
                                        && qx != x2
                                        && (qx % 3 < bi || (qx == bc && qy % 3 < ci + 1)))) by {
                                        if listed(list@, qx, qy, w) {
                                            let j = choose|j: int| 0 <= j < list@.len()
                                                && #[trigger] list@[j]
                                                    == (((qx as u8), (qy as u8)), w);
                                            if j < prev.len() {
                                                assert(prev[j] == (((qx as u8), (qy as u8)), w));
                                                assert(listed(prev, qx, qy, w));
                                            } else {
                                                assert(qy == e * 3 + ci && qx == bc && w == v);
                                            }
                                        }
                                        if listed(prev, qx, qy, w) {
                                            let j = choose|j: int| 0 <= j < prev.len()
                                                && #[trigger] prev[j]
                                                    == (((qx as u8), (qy as u8)), w);
                                            assert(list@[j] == (((qx as u8), (qy as u8)), w));
                                            assert(listed(list@, qx, qy, w));
                                        }
                                        if !listed(prev, qx, qy, w) && (w == v && qy / 3 == e
                                            && qx / 3 == x2 as int / 3 && qx != x2
                                            && (qx % 3 < bi || (qx == bc && qy % 3 < ci + 1)))
                                            && !(qx % 3 < bi || (qx == bc && qy % 3 < ci)) {
                                            assert(qx == bc && qy % 3 == ci);
                                            assert(qy == e * 3 + ci);
                                            assert(list@[list@.len() - 1]
                                                == (((qx as u8), (qy as u8)), w));
                                            assert(listed(list@, qx, qy, w));
                                        }
                                    }
                                }
                                ci = ci + 1;
                            }
                        } else {
                            proof {
                                assert forall|qx: int, qy: int, w: u8| 0 <= qx < 9 && 0 <= qy < 9
                                    implies (#[trigger] listed(list@, qx, qy, w)) == (listed(
                                    base,
                                    qx,
                                    qy,
                                    w,
                                ) || (w == v && qy / 3 == e && qx / 3 == x2 as int / 3
                                    && qx != x2 && qx % 3 < bi + 1)) by {
                                    if qx % 3 == bi && qx / 3 == x2 as int / 3 {
                                        assert(qx == bc);
                                    }
                                }
                            }
                        }
                        bi = bi + 1;
                    }
                }
                proof {
                    assert forall|qx: int, qy: int, w: u8| 0 <= qx < 9 && 0 <= qy < 9
                        implies (#[trigger] listed(list@, qx, qy, w)) == (1 <= w <= 9
                            && exists|x3: int| 0 <= x3 < 9 && x3 / 3 == qx / 3 && x3 != qx
                                && (x3 < x2 || (x3 == x2 && w < v + 1))
                                && #[trigger] claim_col_confined(g, x3, qy / 3, w)) by {
                        if e <= 2 {
                            if listed(list@, qx, qy, w) && !listed(base, qx, qy, w) {
                                assert(w == v && qy / 3 == e && qx / 3 == x2 as int / 3
                                    && qx != x2);
                                assert(claim_col_confined(g, x2 as int, qy / 3, w));
                            }
                            if !listed(list@, qx, qy, w) && 1 <= w <= 9
                                && exists|x3: int| 0 <= x3 < 9 && x3 / 3 == qx / 3 && x3 != qx
                                    && (x3 < x2 || (x3 == x2 && w < v + 1))
                                    && #[trigger] claim_col_confined(g, x3, qy / 3, w) {
                                let x3 = choose|x3: int| 0 <= x3 < 9 && x3 / 3 == qx / 3
                                    && x3 != qx && (x3 < x2 || (x3 == x2 && w < v + 1))
                                    && #[trigger] claim_col_confined(g, x3, qy / 3, w);
                                if x3 == x2 as int && w == v {
                                    if qy / 3 != e as int {
                                        assert(col_mini_has_cand(g, x2 as int, qy / 3, w));
                                        assert(!col_mini_has_cand(g, x2 as int, qy / 3, v));
                                        assert(false);
                                    }
                                    assert(listed(list@, qx, qy, w));
                                    assert(false);
                                } else {
                                    assert(listed(base, qx, qy, w));
                                    assert(false);
                                }
                            }
                        } else {
                            if listed(list@, qx, qy, w) != listed(base, qx, qy, w) {
                                assert(false);
                            }
                            if 1 <= w <= 9 && exists|x3: int| 0 <= x3 < 9 && x3 / 3 == qx / 3
                                && x3 != qx && (x3 < x2 || (x3 == x2 && w < v + 1))
                                && #[trigger] claim_col_confined(g, x3, qy / 3, w) {
                                let x3 = choose|x3: int| 0 <= x3 < 9 && x3 / 3 == qx / 3
                                    && x3 != qx && (x3 < x2 || (x3 == x2 && w < v + 1))
                                    && #[trigger] claim_col_confined(g, x3, qy / 3, w);
                                if x3 == x2 as int && w == v {
                                    assert(claim_col_enc(g, x2 as int, v, e));
                                    if e == 5 {
                                        assert(col_mini_has_cand(g, x2 as int, qy / 3, v));
                                        assert(false);
                                    } else {
                                        let (s1, s2) = choose|s1: int, s2: int| 0 <= s1 < 3
                                            && 0 <= s2 < 3 && s1 != s2
                                            && #[trigger] col_mini_has_cand(g, x2 as int, s1, v)
                                            && #[trigger] col_mini_has_cand(g, x2 as int, s2, v);
                                        if s1 != qy / 3 {
                                            assert(!col_mini_has_cand(g, x2 as int, s1, v));
                                            assert(false);
                                        } else {
                                            assert(!col_mini_has_cand(g, x2 as int, s2, v));
                                            assert(false);
                                        }
                                    }
                                } else {
                                    assert(listed(base, qx, qy, w));
                                }
                            }
                        }
                    }
                }
                v = v + 1;
            }
            x2 = x2 + 1;
        }
        // Phase three: apply the removals.
        let changed = Self::apply_removals(&mut self.grid, &list);
        proof {
            assert forall|qx: int, qy: int, w: u8| 0 <= qx < 9 && 0 <= qy < 9
                implies (#[trigger] listed(list@, qx, qy, w))
                    == (1 <= w <= 9 && claim_col_removal(g, qx, qy, w)) by {
                if claim_col_removal(g, qx, qy, w) && 1 <= w <= 9 {
                    let x3 = choose|x3: int| 0 <= x3 < 9 && x3 / 3 == qx / 3 && x3 != qx
                        && #[trigger] claim_col_confined(g, x3, qy / 3, w);
                    assert(listed(list@, qx, qy, w));
                }
                if listed(list@, qx, qy, w) {
                    let x3 = choose|x3: int| 0 <= x3 < 9 && x3 / 3 == qx / 3 && x3 != qx
                        && (x3 < 9 || (x3 == 9 && w < 10))
                        && #[trigger] claim_col_confined(g, x3, qy / 3, w);
                    assert(claim_col_removal(g, qx, qy, w));
                }
            }
            assert forall|x3: int, y3: int, w: u8| 0 <= x3 < 9 && 0 <= y3 < 9
                implies (#[trigger] self.grid.has_cand(x3, y3, w)) == (old(self).grid.has_cand(
                x3,
                y3,
                w,
            ) && !claim_col_removal(old(self).grid, x3, y3, w)) by {
                if old(self).grid.has_cand(x3, y3, w) {
                    assert(1 <= w <= 9);
                }
            }
            if changed {
                let j = choose|j: int| 0 <= j < list@.len()
                    && g.has_cand((#[trigger] list@[j]).0.0 as int, list@[j].0.1 as int,
                        list@[j].1);
                assert(listed(list@, list@[j].0.0 as int, list@[j].0.1 as int, list@[j].1));
                assert(claim_col_removal(g, list@[j].0.0 as int, list@[j].0.1 as int,
                    list@[j].1));
            }
            if exists|x3: int, y3: int, w: u8| 0 <= x3 < 9 && 0 <= y3 < 9
                && (#[trigger] g.has_cand(x3, y3, w)) && claim_col_removal(g, x3, y3, w) {
                let (x3, y3, w) = choose|x3: int, y3: int, w: u8| 0 <= x3 < 9 && 0 <= y3 < 9
                    && (#[trigger] g.has_cand(x3, y3, w)) && claim_col_removal(g, x3, y3, w);
                assert(listed(list@, x3, y3, w));
                let j = choose|j: int| 0 <= j < list@.len()
                    && #[trigger] list@[j] == (((x3 as u8), (y3 as u8)), w);
                assert(g.has_cand(list@[j].0.0 as int, list@[j].0.1 as int, list@[j].1));
                assert(changed);
            }
        }
        changed
    }

    /// One pass of the elimination strategies, in their fixed order: hidden
    /// singles, naked singles, pointing, row claiming, column claiming. Each
    /// assignment counts one unit of progress; each elimination pass that
    /// removed anything counts one unit, however many candidates it removed.
    fn round_steps(&mut self) -> (r: usize)
        requires
            old(self).grid.wf(),
        ensures
            final(self).grid.wf(),
            final(self).cheating == old(self).cheating,
            forall|x: int, y: int| 0 <= x < 9 && 0 <= y < 9 && old(self).grid.val(x, y) != 0
                ==> #[trigger] final(self).grid.val(x, y) == old(self).grid.val(x, y),
            grid_measure(final(self).grid) <= grid_measure(old(self).grid),
            r != 0 ==> grid_measure(final(self).grid) < grid_measure(old(self).grid),
            r == 0 ==> final(self).grid.rows@ == old(self).grid.rows@
                && final(self).grid.columns@ == old(self).grid.columns@
                && final(self).grid.squares@ == old(self).grid.squares@,
            final(self).grid.original_numbers@ == old(self).grid.original_numbers@,
            final(self).grid.invalid_cells@ == old(self).grid.invalid_cells@,
            final(self).grid.solution@ == old(self).grid.solution@,
            quiescent(old(self).grid) ==> r == 0,
            r == 0 ==> stalled(old(self).grid),
    {
        let ghost g0 = self.grid;
        let mut inserted: usize = 0;
        let answers = self.single_in_squares();
        let mut i: usize = 0;
        while i < answers.len()
            invariant
                self.grid.wf(),
                self.cheating == old(self).cheating,
                g0 == old(self).grid,
                i <= answers@.len(),
                answers@.len() <= 81,
                inserted <= i,
                forall|j: int| 0 <= j < answers@.len() ==> (#[trigger] answers@[j]).0.0 < 9
                    && answers@[j].0.1 < 9
                    && hidden_single(g0, answers@[j].0.0 as int, answers@[j].0.1 as int,
                        answers@[j].1),
                forall|x: int, y: int| 0 <= x < 9 && 0 <= y < 9 && g0.val(x, y) != 0
                    ==> #[trigger] self.grid.val(x, y) == g0.val(x, y),
                grid_measure(self.grid) <= grid_measure(g0),
                inserted > 0 ==> grid_measure(self.grid) < grid_measure(g0),
                inserted == 0 ==> self.grid == g0,
                inserted == 0 ==> i == 0,
                self.grid.original_numbers@ == g0.original_numbers@,
                self.grid.invalid_cells@ == g0.invalid_cells@,
                self.grid.solution@ == g0.solution@,
            decreases answers@.len() - i,
        {
            let ((x, y), v) = answers[i];
            proof {
                assert(hidden_single(g0, x as int, y as int, v));
            }
            let q = Vec2::new(x, y);
            if !self.grid.has_number(&q) {
                let ghost pre = self.grid;
                self.grid.insert_number(&q, v);
                inserted = inserted + 1;
                proof {
                    assert forall|x2: int, y2: int, w: u8| 0 <= x2 < 9 && 0 <= y2 < 9
                        implies ((#[trigger] self.grid.has_cand(x2, y2, w))
                            ==> pre.has_cand(x2, y2, w)) by {}
                    lemma_measure_lt_insert(self.grid, pre, x as int, y as int);
                }
            } else {
                proof {
                    // a hidden single's cell starts empty, so the first entry
                    // is always applied
                    if inserted == 0 {
                        assert(self.grid.val(x as int, y as int) == 0);
                        assert(false);
                    }
                }
            }
            i = i + 1;
        }
        let ghost g1 = self.grid;
        let ghost ins1 = inserted;
        let answers2 = self.lonely_cells();
        let mut i2: usize = 0;
        while i2 < answers2.len()
            invariant
                self.grid.wf(),
                self.cheating == old(self).cheating,
                g0 == old(self).grid,
                i2 <= answers2@.len(),
                answers2@.len() <= 81,
                inserted <= 81 + i2,
                forall|j: int| 0 <= j < answers2@.len() ==> (#[trigger] answers2@[j]).0.0 < 9
                    && answers2@[j].0.1 < 9
                    && naked_single(g1, answers2@[j].0.0 as int, answers2@[j].0.1 as int,
                        answers2@[j].1),
                forall|x: int, y: int| 0 <= x < 9 && 0 <= y < 9 && g0.val(x, y) != 0
                    ==> #[trigger] self.grid.val(x, y) == g0.val(x, y),
                grid_measure(self.grid) <= grid_measure(g0),
                inserted > 0 ==> grid_measure(self.grid) < grid_measure(g0),
                inserted == 0 ==> self.grid == g0,
                i2 == 0 ==> inserted == ins1 && self.grid == g1,
                ins1 <= inserted,
                inserted == 0 ==> forall|j: int| 0 <= j < i2
                    ==> g0.val((#[trigger] answers2@[j]).0.0 as int, answers2@[j].0.1 as int)
                        != 0,
                self.grid.original_numbers@ == g0.original_numbers@,
                self.grid.invalid_cells@ == g0.invalid_cells@,
                self.grid.solution@ == g0.solution@,
            decreases answers2@.len() - i2,
        {
            let ((x, y), v) = answers2[i2];
            proof {
                assert(naked_single(g1, x as int, y as int, v));
            }
            let q = Vec2::new(x, y);
            if !self.grid.has_number(&q) {
                let ghost pre = self.grid;
                self.grid.insert_number(&q, v);
                inserted = inserted + 1;
                proof {
                    assert forall|x2: int, y2: int, w: u8| 0 <= x2 < 9 && 0 <= y2 < 9
                        implies ((#[trigger] self.grid.has_cand(x2, y2, w))
                            ==> pre.has_cand(x2, y2, w)) by {}
                    lemma_measure_lt_insert(self.grid, pre, x as int, y as int);
                }
            } else {
                proof {
                    if inserted == 0 {
                        assert(g0.val(x as int, y as int) != 0);
                    }
                }
            }
            i2 = i2 + 1;
        }
        let ghost g2 = self.grid;
        let f1 = self.single_line_in_squares();
        proof {
            if f1 {
                let (wx, wy, wv) = choose|wx: int, wy: int, wv: u8| 0 <= wx < 9 && 0 <= wy < 9
                    && (#[trigger] g2.has_cand(wx, wy, wv))
                    && (pointing_row_removal(g2, wx, wy, wv)
                        || pointing_col_removal(g2, wx, wy, wv));
                assert(!self.grid.has_cand(wx, wy, wv));
                assert forall|x2: int, y2: int, w: u8| 0 <= x2 < 9 && 0 <= y2 < 9
                    implies ((#[trigger] self.grid.has_cand(x2, y2, w))
                        ==> g2.has_cand(x2, y2, w)) by {}
                lemma_measure_lt_candidate_loss(self.grid, g2, wx, wy, wv);
            } else {
                assert forall|x2: int, y2: int| 0 <= x2 < 9 && 0 <= y2 < 9
                    implies #[trigger] self.grid.val(x2, y2) == g2.val(x2, y2) by {
                    assert(self.grid.rows[y2] == g2.rows[y2]);
                }
                assert forall|x2: int, y2: int, w: u8| 0 <= x2 < 9 && 0 <= y2 < 9
                    implies (#[trigger] self.grid.has_cand(x2, y2, w))
                        == g2.has_cand(x2, y2, w) by {
                    assert(self.grid.rows[y2] == g2.rows[y2]);
                }
                lemma_grid_measure_congruence(self.grid, g2);
            }
        }
        let ghost g3 = self.grid;
        let f2 = self.square_claim_rows();
        proof {
            if f2 {
                let (wx, wy, wv) = choose|wx: int, wy: int, wv: u8| 0 <= wx < 9 && 0 <= wy < 9
                    && (#[trigger] g3.has_cand(wx, wy, wv)) && claim_row_removal(g3, wx, wy, wv);
                assert(!self.grid.has_cand(wx, wy, wv));
                assert forall|x2: int, y2: int, w: u8| 0 <= x2 < 9 && 0 <= y2 < 9
                    implies ((#[trigger] self.grid.has_cand(x2, y2, w))
                        ==> g3.has_cand(x2, y2, w)) by {}
                lemma_measure_lt_candidate_loss(self.grid, g3, wx, wy, wv);
            } else {
                assert forall|x2: int, y2: int| 0 <= x2 < 9 && 0 <= y2 < 9
                    implies #[trigger] self.grid.val(x2, y2) == g3.val(x2, y2) by {
                    assert(self.grid.rows[y2] == g3.rows[y2]);
                }
                assert forall|x2: int, y2: int, w: u8| 0 <= x2 < 9 && 0 <= y2 < 9
                    implies (#[trigger] self.grid.has_cand(x2, y2, w))
                        == g3.has_cand(x2, y2, w) by {
                    assert(self.grid.rows[y2] == g3.rows[y2]);
                }
                lemma_grid_measure_congruence(self.grid, g3);
            }
        }
        let ghost g4 = self.grid;
        let f3 = self.square_claim_columns();
        proof {
            if f3 {
                let (wx, wy, wv) = choose|wx: int, wy: int, wv: u8| 0 <= wx < 9 && 0 <= wy < 9
                    && (#[trigger] g4.has_cand(wx, wy, wv)) && claim_col_removal(g4, wx, wy, wv);
                assert(!self.grid.has_cand(wx, wy, wv));
                assert forall|x2: int, y2: int, w: u8| 0 <= x2 < 9 && 0 <= y2 < 9
                    implies ((#[trigger] self.grid.has_cand(x2, y2, w))
                        ==> g4.has_cand(x2, y2, w)) by {}
                lemma_measure_lt_candidate_loss(self.grid, g4, wx, wy, wv);
            } else {
                assert forall|x2: int, y2: int| 0 <= x2 < 9 && 0 <= y2 < 9
                    implies #[trigger] self.grid.val(x2, y2) == g4.val(x2, y2) by {
                    assert(self.grid.rows[y2] == g4.rows[y2]);
                }
                assert forall|x2: int, y2: int, w: u8| 0 <= x2 < 9 && 0 <= y2 < 9
                    implies (#[trigger] self.grid.has_cand(x2, y2, w))
                        == g4.has_cand(x2, y2, w) by {
                    assert(self.grid.rows[y2] == g4.rows[y2]);
                }
                lemma_grid_measure_congruence(self.grid, g4);
            }
        }
        let mut progress: usize = inserted;
        if f1 {
            progress = progress + 1;
        }
        if f2 {
            progress = progress + 1;
        }
        if f3 {
            progress = progress + 1;
        }
        proof {
            if quiescent(g0) {
                // nothing could run: the hidden-single list is empty
                if answers@.len() > 0 {
                    assert(hidden_single(g0, answers@[0].0.0 as int, answers@[0].0.1 as int,
                        answers@[0].1));
                    assert(false);
                }
                assert(ins1 == 0 && g1 == g0);
                if answers2@.len() > 0 {
                    assert(naked_single(g0, answers2@[0].0.0 as int, answers2@[0].0.1 as int,
                        answers2@[0].1));
                    assert(false);
                }
                assert(inserted == 0);
                assert(g2 == g0);
                if f1 {
                    let (wx, wy, wv) = choose|wx: int, wy: int, wv: u8| 0 <= wx < 9
                        && 0 <= wy < 9 && (#[trigger] g2.has_cand(wx, wy, wv))
                        && (pointing_row_removal(g2, wx, wy, wv)
                            || pointing_col_removal(g2, wx, wy, wv));
                    assert(false);
                }
                assert forall|x2: int, y2: int| 0 <= x2 < 9 && 0 <= y2 < 9
                    implies #[trigger] g3.val(x2, y2) == g0.val(x2, y2) by {
                    assert(g3.rows[y2] == g0.rows[y2]);
                }
                assert forall|x2: int, y2: int, w: u8| 0 <= x2 < 9 && 0 <= y2 < 9
                    implies (#[trigger] g3.has_cand(x2, y2, w)) == g0.has_cand(x2, y2, w) by {
                    assert(g3.rows[y2] == g0.rows[y2]);
                }
                lemma_preds_same_state(g3, g0);
                if f2 {
                    let (wx, wy, wv) = choose|wx: int, wy: int, wv: u8| 0 <= wx < 9
                        && 0 <= wy < 9 && (#[trigger] g3.has_cand(wx, wy, wv))
                        && claim_row_removal(g3, wx, wy, wv);
                    assert(g0.has_cand(wx, wy, wv));
                    assert(claim_row_removal(g0, wx, wy, wv));
                    assert(false);
                }
                assert forall|x2: int, y2: int| 0 <= x2 < 9 && 0 <= y2 < 9
                    implies #[trigger] g4.val(x2, y2) == g0.val(x2, y2) by {
                    assert(g4.rows[y2] == g3.rows[y2]);
                    assert(g3.rows[y2] == g0.rows[y2]);
                }
                assert forall|x2: int, y2: int, w: u8| 0 <= x2 < 9 && 0 <= y2 < 9
                    implies (#[trigger] g4.has_cand(x2, y2, w)) == g0.has_cand(x2, y2, w) by {
                    assert(g4.rows[y2] == g3.rows[y2]);
                    assert(g3.rows[y2] == g0.rows[y2]);
                }
                lemma_preds_same_state(g4, g0);
                if f3 {
                    let (wx, wy, wv) = choose|wx: int, wy: int, wv: u8| 0 <= wx < 9
                        && 0 <= wy < 9 && (#[trigger] g4.has_cand(wx, wy, wv))
                        && claim_col_removal(g4, wx, wy, wv);
                    assert(g0.has_cand(wx, wy, wv));
                    assert(claim_col_removal(g0, wx, wy, wv));
                    assert(false);
                }
            }
            if progress == 0 {
                assert(inserted == 0 && !f1 && !f2 && !f3);
                assert(g2 == g0);
                assert(self.grid.rows@ == g0.rows@);
                assert(self.grid.columns@ == g0.columns@);
                assert(self.grid.squares@ == g0.squares@);
                // nothing was applicable: the starting grid was stalled
                assert(ins1 == 0 && g1 == g0);
                assert forall|x: int, y: int, v: u8| !(#[trigger] hidden_single(g0, x, y, v))
                    by {
                    if hidden_single(g0, x, y, v) {
                        assert(answers@.contains(((x as u8, y as u8), v)));
                        assert(answers@.len() > 0);
                        assert(false);
                    }
                }
                assert forall|x: int, y: int, v: u8| 0 <= x < 9 && 0 <= y < 9
                    && g0.val(x, y) == 0 implies !(#[trigger] naked_single(g0, x, y, v)) by {
                    if naked_single(g0, x, y, v) {
                        assert(naked_single(g1, x, y, v));
                        assert(answers2@.contains(((x as u8, y as u8), v)));
                        let j = choose|j: int| 0 <= j < answers2@.len()
                            && answers2@[j] == ((x as u8, y as u8), v);
                        assert(g0.val(answers2@[j].0.0 as int, answers2@[j].0.1 as int) != 0);
                        assert(false);
                    }
                }
                assert forall|x2: int, y2: int| 0 <= x2 < 9 && 0 <= y2 < 9
                    implies #[trigger] g3.val(x2, y2) == g0.val(x2, y2) by {
                    assert(g3.rows[y2] == g0.rows[y2]);
                }
                assert forall|x2: int, y2: int, w: u8| 0 <= x2 < 9 && 0 <= y2 < 9
                    implies (#[trigger] g3.has_cand(x2, y2, w)) == g0.has_cand(x2, y2, w) by {
                    assert(g3.rows[y2] == g0.rows[y2]);
                }
                lemma_preds_same_state(g3, g0);
                assert forall|x2: int, y2: int| 0 <= x2 < 9 && 0 <= y2 < 9
                    implies #[trigger] g4.val(x2, y2) == g0.val(x2, y2) by {
                    assert(g4.rows[y2] == g3.rows[y2]);
                    assert(g3.rows[y2] == g0.rows[y2]);
                }
                assert forall|x2: int, y2: int, w: u8| 0 <= x2 < 9 && 0 <= y2 < 9
                    implies (#[trigger] g4.has_cand(x2, y2, w)) == g0.has_cand(x2, y2, w) by {
                    assert(g4.rows[y2] == g3.rows[y2]);
                    assert(g3.rows[y2] == g0.rows[y2]);
                }
                lemma_preds_same_state(g4, g0);
                assert forall|x: int, y: int, v: u8| 0 <= x < 9 && 0 <= y < 9
                    && #[trigger] g0.has_cand(x, y, v)
                    implies !pointing_row_removal(g0, x, y, v)
                        && !pointing_col_removal(g0, x, y, v)
                        && !claim_row_removal(g0, x, y, v)
                        && !claim_col_removal(g0, x, y, v) by {
                    if pointing_row_removal(g0, x, y, v) || pointing_col_removal(g0, x, y, v) {
                        assert(g2.has_cand(x, y, v));
                        assert(f1);
                        assert(false);
                    }
                    if claim_row_removal(g0, x, y, v) {
                        assert(g3.has_cand(x, y, v) && claim_row_removal(g3, x, y, v));
                        assert(f2);
                        assert(false);
                    }
                    if claim_col_removal(g0, x, y, v) {
                        assert(g4.has_cand(x, y, v) && claim_col_removal(g4, x, y, v));
                        assert(f3);
                        assert(false);
                    }
                }
                assert(stalled(g0));
            }
        }
        progress
    }

    /// One solving round. When the round makes no progress and speculative
    /// search is enabled, the search explores copies of the grid and the
    /// round reports zero: a zero return means solved, stuck, or handed to
    /// the search, and the caller must stop.
    pub fn round(&mut self) -> (r: usize)
        requires
            old(self).grid.wf(),
        ensures
            final(self).grid.wf(),
            final(self).cheating == old(self).cheating,
            forall|x: int, y: int| 0 <= x < 9 && 0 <= y < 9 && old(self).grid.val(x, y) != 0
                ==> #[trigger] final(self).grid.val(x, y) == old(self).grid.val(x, y),
            grid_measure(final(self).grid) <= grid_measure(old(self).grid),
            r != 0 ==> grid_measure(final(self).grid) < grid_measure(old(self).grid),
            r == 0 ==> final(self).grid.rows@ == old(self).grid.rows@
                && final(self).grid.columns@ == old(self).grid.columns@
                && final(self).grid.squares@ == old(self).grid.squares@,
            final(self).grid.original_numbers@ == old(self).grid.original_numbers@,
            final(self).grid.invalid_cells@ == old(self).grid.invalid_cells@,
            final(self).grid.solution@ == old(self).grid.solution@,
            quiescent(old(self).grid) ==> r == 0,
            r == 0 ==> stalled(old(self).grid),
    {
        let r = self.round_steps();
        if self.cheating && r == 0 {
            if self.cheat() {
                return 0;
            }
        }
        r
    }

    /// Speculative search. Pick the box with the most assigned values that is
    /// not yet complete, take its first empty cell that still has candidates,
    /// and explore every candidate of that cell on an independent deep copy
    /// of the grid. No branch's outcome is ever written back: the caller's
    /// state is left exactly as it was, and the search reports true.
    pub fn cheat(&mut self) -> (r: bool)
        requires
            old(self).grid.wf(),
        ensures
            *final(self) == *old(self),
            r == true,
    {
        Self::branch_out(&self.grid, self.cheating);
        true
    }

    /// Seed the speculative branches from a stalled grid: one copy per
    /// candidate of the chosen cell, each assigned and then driven onward.
    fn branch_out(grid: &Grid, cheating: bool)
        requires
            grid.wf(),
        decreases grid_measure(*grid), 0int,
    {
        let mut best: usize = 0;
        let mut bi: usize = 1;
        while bi < 9
            invariant
                grid.wf(),
                best < 9,
                1 <= bi <= 9,
            decreases 9 - bi,
        {
            let bc = grid.squares[best].count_values();
            let sc = grid.squares[bi].count_values();
            if (sc > bc && sc != 9) || bc == 0 {
                best = bi;
            }
            bi = bi + 1;
        }
        let coords = grid.squares[best].coords();
        proof {
            assert forall|j: int| 0 <= j < 9 implies (#[trigger] coords@[j]).x < 9
                && coords@[j].y < 9 by {
                assert(grid.squares[best as int].x < 3 && grid.squares[best as int].y < 3);
            }
        }
        let mut ci: usize = 0;
        let mut found = false;
        let mut cell = Vec2::new(0, 0);
        while ci < coords.len()
            invariant
                grid.wf(),
                coords@.len() == 9,
                forall|j: int| 0 <= j < 9 ==> (#[trigger] coords@[j]).x < 9
                    && coords@[j].y < 9,
                found ==> cell.x < 9 && cell.y < 9
                    && grid.val(cell.x as int, cell.y as int) == 0,
            decreases coords@.len() - ci,
        {
            let q = coords[ci];
            if !grid.has_number(&q) {
                let cands = grid.get_candidates(&q);
                if cands.len() != 0 {
                    found = true;
                    cell = q;
                    break;
                }
            }
            ci = ci + 1;
        }
        if found {
            let cands = grid.get_candidates(&cell);
            let mut k: usize = 0;
            while k < cands.len()
                invariant
                    grid.wf(),
                    cell.x < 9,
                    cell.y < 9,
                    grid.val(cell.x as int, cell.y as int) == 0,
                    forall|j: int| 0 <= j < cands@.len() ==> 1 <= #[trigger] cands@[j] <= 9,
                decreases cands@.len() - k,
            {
                let v = cands[k];
                let mut copy = grid.clone();
                proof {
                    Grid::lemma_wf_congruence(*grid, copy);
                    lemma_grid_measure_congruence(copy, *grid);
                }
                let ghost pre = copy;
                copy.insert_number(&cell, v);
                proof {
                    assert forall|x2: int, y2: int, w: u8| 0 <= x2 < 9 && 0 <= y2 < 9
                        implies ((#[trigger] copy.has_cand(x2, y2, w))
                            ==> pre.has_cand(x2, y2, w)) by {}
                    lemma_measure_lt_insert(copy, pre, cell.x as int, cell.y as int);
                }
                Self::explore(copy, cheating);
                k = k + 1;
            }
        }
    }

    /// Drive one speculative copy to quiescence: run rounds until one makes
    /// no progress (then branch deeper) or the copy shows a contradiction.
    fn explore(grid: Grid, cheating: bool)
        requires
            grid.wf(),
        decreases grid_measure(grid), 1int,
    {
        let mut analysis = Analysis::new(grid, cheating);
        loop
            invariant
                analysis.grid.wf(),
                analysis.cheating == cheating,
                grid_measure(analysis.grid) <= grid_measure(grid),
            decreases grid_measure(analysis.grid),
        {
            let r = analysis.round_steps();
            if r == 0 {
                if cheating {
                    Self::branch_out(&analysis.grid, cheating);
                }
                break;
            }
            let ghost pre = analysis.grid;
            let ok = analysis.verify();
            proof {
                lemma_grid_measure_congruence(analysis.grid, pre);
            }
            if !ok {
                break;
            }
        }
    }

    /// Remove each listed (cell, digit) pair from the grid, in both
    /// projections; true exactly when some pair was actually present.
    fn apply_removals(grid: &mut Grid, list: &Vec<((Coord, Coord), CellValue)>) -> (r: bool)
        requires
            old(grid).wf(),
            forall|j: int| 0 <= j < list@.len() ==> (#[trigger] list@[j]).0.0 < 9
                && list@[j].0.1 < 9 && 1 <= list@[j].1 <= 9,
        ensures
            final(grid).wf(),
            forall|x: int, y: int| 0 <= x < 9 && 0 <= y < 9
                ==> #[trigger] final(grid).val(x, y) == old(grid).val(x, y),
            forall|x: int, y: int, w: u8| 0 <= x < 9 && 0 <= y < 9
                ==> (#[trigger] final(grid).has_cand(x, y, w)) == (old(grid).has_cand(x, y, w)
                    && !listed(list@, x, y, w)),
            final(grid).squares@ == old(grid).squares@,
            final(grid).original_numbers@ == old(grid).original_numbers@,
            final(grid).invalid_cells@ == old(grid).invalid_cells@,
            final(grid).solution@ == old(grid).solution@,
            !r ==> final(grid).rows@ == old(grid).rows@
                && final(grid).columns@ == old(grid).columns@,
            r == exists|j: int| 0 <= j < list@.len()
                && old(grid).has_cand((#[trigger] list@[j]).0.0 as int, list@[j].0.1 as int,
                    list@[j].1),
    {
        let mut changed = false;
        let mut idx: usize = 0;
        while idx < list.len()
            invariant
                grid.wf(),
                idx <= list@.len(),
                forall|j: int| 0 <= j < list@.len() ==> (#[trigger] list@[j]).0.0 < 9
                    && list@[j].0.1 < 9 && 1 <= list@[j].1 <= 9,
                forall|x: int, y: int| 0 <= x < 9 && 0 <= y < 9
                    ==> #[trigger] grid.val(x, y) == old(grid).val(x, y),
                forall|x: int, y: int, w: u8| 0 <= x < 9 && 0 <= y < 9
                    ==> (#[trigger] grid.has_cand(x, y, w)) == (old(grid).has_cand(x, y, w)
                        && !(exists|j: int| 0 <= j < idx
                            && #[trigger] list@[j] == (((x as u8), (y as u8)), w))),
                grid.squares@ == old(grid).squares@,
                grid.original_numbers@ == old(grid).original_numbers@,
                grid.invalid_cells@ == old(grid).invalid_cells@,
                grid.solution@ == old(grid).solution@,
                !changed ==> grid.rows@ == old(grid).rows@
                    && grid.columns@ == old(grid).columns@,
                changed == exists|j: int| 0 <= j < idx
                    && old(grid).has_cand((#[trigger] list@[j]).0.0 as int, list@[j].0.1 as int,
                        list@[j].1),
            decreases list@.len() - idx,
        {
            let ((x, y), v) = list[idx];
            let q = Vec2::new(x, y);
            let ghost pre = *grid;
            let was = grid.remove_candidate(&q, v);
            proof {
                if was {
                    assert(pre.has_cand(x as int, y as int, v));
                    assert(old(grid).has_cand(x as int, y as int, v));
                    assert(list@[idx as int] == ((x, y), v));
                }
            }
            if was {
                changed = true;
            }
            proof {
                assert forall|x2: int, y2: int, w: u8| 0 <= x2 < 9 && 0 <= y2 < 9
                    implies (#[trigger] grid.has_cand(x2, y2, w)) == (old(grid).has_cand(
                    x2,
                    y2,
                    w,
                ) && !(exists|j: int| 0 <= j < idx + 1
                    && #[trigger] list@[j] == (((x2 as u8), (y2 as u8)), w))) by {
                    if x2 == x as int && y2 == y as int {
                        assert(grid.has_cand(x2, y2, w) == (pre.has_cand(x2, y2, w) && w != v));
                    } else {
                        assert(grid.cmask_at(x2, y2) == pre.cmask_at(x2, y2));
                        assert(grid.has_cand(x2, y2, w) == pre.has_cand(x2, y2, w));
                    }
                    assert(pre.has_cand(x2, y2, w) == (old(grid).has_cand(x2, y2, w)
                        && !(exists|j: int| 0 <= j < idx
                            && #[trigger] list@[j] == (((x2 as u8), (y2 as u8)), w))));
                    if exists|j: int| 0 <= j < idx + 1
                        && #[trigger] list@[j] == (((x2 as u8), (y2 as u8)), w) {
                        let j = choose|j: int| 0 <= j < idx + 1
                            && #[trigger] list@[j] == (((x2 as u8), (y2 as u8)), w);
                        if j == idx {
                            assert(x2 == x as int && y2 == y as int && w == v);
                        }
                    } else {
                        assert(!(exists|j: int| 0 <= j < idx
                            && #[trigger] list@[j] == (((x2 as u8), (y2 as u8)), w)));
                        assert(list@[idx as int] != (((x2 as u8), (y2 as u8)), w));
                        if x2 == x as int && y2 == y as int && w == v {
                            assert(list@[idx as int] == ((x, y), v));
                            assert(false);
                        }
                    }
                }
                if changed && !(exists|j: int| 0 <= j < idx
                    && old(grid).has_cand((#[trigger] list@[j]).0.0 as int, list@[j].0.1 as int,
                        list@[j].1)) {
                    assert(old(grid).has_cand((list@[idx as int]).0.0 as int,
                        list@[idx as int].0.1 as int, list@[idx as int].1));
                }
            }
            idx = idx + 1;
        }
        proof {
            if exists|j: int| 0 <= j < list@.len()
                && old(grid).has_cand((#[trigger] list@[j]).0.0 as int, list@[j].0.1 as int,
                    list@[j].1) {
                let j = choose|j: int| 0 <= j < list@.len()
                    && old(grid).has_cand((#[trigger] list@[j]).0.0 as int, list@[j].0.1 as int,
                        list@[j].1);
                assert(0 <= j < idx);
            }
            assert forall|x2: int, y2: int, w: u8| 0 <= x2 < 9 && 0 <= y2 < 9
                implies (#[trigger] grid.has_cand(x2, y2, w)) == (old(grid).has_cand(x2, y2, w)
                    && !listed(list@, x2, y2, w)) by {}
        }
        changed
    }
}

} // verus!
