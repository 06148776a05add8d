use vstd::prelude::*;

verus! {

use crate::candidates::{cand_has, mask_count, mask_count_from};
use crate::grid::Grid;

/// How far a run of the solver can still go: every elimination removes a
/// candidate and every assignment fills an empty cell, so the sum of all
/// candidate counts plus the number of empty cells shrinks with each step of
/// progress. It bounds the solver's loops and the depth of the search.
pub open spec fn cell_measure(g: Grid, x: int, y: int) -> nat {
    mask_count(g.cmask_at(x, y)) + if g.val(x, y) == 0 {
        1nat
    } else {
        0nat
    }
}

pub open spec fn measure_from(g: Grid, i: int) -> nat
    decreases 81 - i,
{
    if i < 0 || i >= 81 {
        0
    } else {
        cell_measure(g, i % 9, i / 9) + measure_from(g, i + 1)
    }
}

pub open spec fn grid_measure(g: Grid) -> nat {
    measure_from(g, 0)
}

proof fn lemma_count_from_le(m1: u16, m2: u16, v: u8)
    requires
        forall|w: u8| cand_has(m1, w) ==> cand_has(m2, w),
    ensures
        mask_count_from(m1, v) <= mask_count_from(m2, v),
    decreases 10 - v,
{
    if v < 10 {
        lemma_count_from_le(m1, m2, (v + 1) as u8);
    }
}

/// A mask that holds no digit the other lacks counts no more digits.
pub proof fn lemma_mask_count_le(m1: u16, m2: u16)
    requires
        forall|w: u8| cand_has(m1, w) ==> cand_has(m2, w),
    ensures
        mask_count(m1) <= mask_count(m2),
{
    lemma_count_from_le(m1, m2, 1);
}

proof fn lemma_count_from_lt(m1: u16, m2: u16, wit: u8, v: u8)
    requires
        forall|w: u8| cand_has(m1, w) ==> cand_has(m2, w),
        cand_has(m2, wit),
        !cand_has(m1, wit),
        1 <= v <= wit,
    ensures
        mask_count_from(m1, v) < mask_count_from(m2, v),
    decreases 10 - v,
{
    if v == wit {
        lemma_count_from_le(m1, m2, (v + 1) as u8);
    } else {
        lemma_count_from_lt(m1, m2, wit, (v + 1) as u8);
    }
}

/// A mask that lost a digit counts strictly fewer digits.
pub proof fn lemma_mask_count_lt(m1: u16, m2: u16, wit: u8)
    requires
        forall|w: u8| cand_has(m1, w) ==> cand_has(m2, w),
        cand_has(m2, wit),
        !cand_has(m1, wit),
    ensures
        mask_count(m1) < mask_count(m2),
{
    lemma_count_from_lt(m1, m2, wit, 1);
}

proof fn lemma_measure_from_le(g1: Grid, g2: Grid, i: int)
    requires
        forall|x: int, y: int| 0 <= x < 9 && 0 <= y < 9
            ==> #[trigger] cell_measure(g1, x, y) <= cell_measure(g2, x, y),
    ensures
        measure_from(g1, i) <= measure_from(g2, i),
    decreases 81 - i,
{
    if 0 <= i < 81 {
        lemma_measure_from_le(g1, g2, i + 1);
    }
}

/// Cell-by-cell the first grid is no larger, so neither is its measure.
pub proof fn lemma_grid_measure_le(g1: Grid, g2: Grid)
    requires
        forall|x: int, y: int| 0 <= x < 9 && 0 <= y < 9
            ==> #[trigger] cell_measure(g1, x, y) <= cell_measure(g2, x, y),
    ensures
        grid_measure(g1) <= grid_measure(g2),
{
    lemma_measure_from_le(g1, g2, 0);
}

proof fn lemma_measure_from_lt(g1: Grid, g2: Grid, i: int, wi: int)
    requires
        forall|x: int, y: int| 0 <= x < 9 && 0 <= y < 9
            ==> #[trigger] cell_measure(g1, x, y) <= cell_measure(g2, x, y),
        0 <= i <= wi < 81,
        cell_measure(g1, wi % 9, wi / 9) < cell_measure(g2, wi % 9, wi / 9),
    ensures
        measure_from(g1, i) < measure_from(g2, i),
    decreases 81 - i,
{
    if i == wi {
        lemma_measure_from_le(g1, g2, i + 1);
    } else {
        lemma_measure_from_lt(g1, g2, i + 1, wi);
    }
}

/// Cell-by-cell no larger and strictly smaller somewhere: the measure drops.
pub proof fn lemma_grid_measure_lt(g1: Grid, g2: Grid, wx: int, wy: int)
    requires
        forall|x: int, y: int| 0 <= x < 9 && 0 <= y < 9
            ==> #[trigger] cell_measure(g1, x, y) <= cell_measure(g2, x, y),
        0 <= wx < 9,
        0 <= wy < 9,
        cell_measure(g1, wx, wy) < cell_measure(g2, wx, wy),
    ensures
        grid_measure(g1) < grid_measure(g2),
{
    let wi = 9 * wy + wx;
    assert(wi % 9 == wx && wi / 9 == wy);
    lemma_measure_from_lt(g1, g2, 0, wi);
}

/// Two grids that agree on every value and every candidate set have the same
/// measure.
pub proof fn lemma_grid_measure_congruence(g1: Grid, g2: Grid)
    requires
        forall|x: int, y: int| 0 <= x < 9 && 0 <= y < 9
            ==> #[trigger] g1.val(x, y) == g2.val(x, y),
        forall|x: int, y: int, w: u8| 0 <= x < 9 && 0 <= y < 9
            ==> (#[trigger] g1.has_cand(x, y, w)) == g2.has_cand(x, y, w),
    ensures
        grid_measure(g1) == grid_measure(g2),
{
    assert forall|x: int, y: int| 0 <= x < 9 && 0 <= y < 9
        implies #[trigger] cell_measure(g1, x, y) <= cell_measure(g2, x, y) by {
        assert forall|w: u8| cand_has(g1.cmask_at(x, y), w)
            implies cand_has(g2.cmask_at(x, y), w) by {
            assert(g1.has_cand(x, y, w) == g2.has_cand(x, y, w));
        }
        lemma_mask_count_le(g1.cmask_at(x, y), g2.cmask_at(x, y));
    }
    assert forall|x: int, y: int| 0 <= x < 9 && 0 <= y < 9
        implies #[trigger] cell_measure(g2, x, y) <= cell_measure(g1, x, y) by {
        assert forall|w: u8| cand_has(g2.cmask_at(x, y), w)
            implies cand_has(g1.cmask_at(x, y), w) by {
            assert(g1.has_cand(x, y, w) == g2.has_cand(x, y, w));
        }
        lemma_mask_count_le(g2.cmask_at(x, y), g1.cmask_at(x, y));
    }
    lemma_grid_measure_le(g1, g2);
    lemma_grid_measure_le(g2, g1);
}


/// Values kept and candidates only lost: the measure cannot grow.
pub proof fn lemma_measure_le_candidate_subset(gpost: Grid, gpre: Grid)
    requires
        forall|x: int, y: int| 0 <= x < 9 && 0 <= y < 9
            ==> #[trigger] gpost.val(x, y) == gpre.val(x, y),
        forall|x: int, y: int, w: u8| 0 <= x < 9 && 0 <= y < 9
            ==> ((#[trigger] gpost.has_cand(x, y, w)) ==> gpre.has_cand(x, y, w)),
    ensures
        grid_measure(gpost) <= grid_measure(gpre),
{
    assert forall|x: int, y: int| 0 <= x < 9 && 0 <= y < 9
        implies #[trigger] cell_measure(gpost, x, y) <= cell_measure(gpre, x, y) by {
        assert forall|w: u8| cand_has(gpost.cmask_at(x, y), w)
            implies cand_has(gpre.cmask_at(x, y), w) by {
            assert(gpost.has_cand(x, y, w));
        }
        lemma_mask_count_le(gpost.cmask_at(x, y), gpre.cmask_at(x, y));
    }
    lemma_grid_measure_le(gpost, gpre);
}

/// Some candidate was actually lost: the measure strictly drops.
pub proof fn lemma_measure_lt_candidate_loss(gpost: Grid, gpre: Grid, wx: int, wy: int, wv: u8)
    requires
        forall|x: int, y: int| 0 <= x < 9 && 0 <= y < 9
            ==> #[trigger] gpost.val(x, y) == gpre.val(x, y),
        forall|x: int, y: int, w: u8| 0 <= x < 9 && 0 <= y < 9
            ==> ((#[trigger] gpost.has_cand(x, y, w)) ==> gpre.has_cand(x, y, w)),
        0 <= wx < 9,
        0 <= wy < 9,
        gpre.has_cand(wx, wy, wv),
        !gpost.has_cand(wx, wy, wv),
    ensures
        grid_measure(gpost) < grid_measure(gpre),
{
    assert forall|x: int, y: int| 0 <= x < 9 && 0 <= y < 9
        implies #[trigger] cell_measure(gpost, x, y) <= cell_measure(gpre, x, y) by {
        assert forall|w: u8| cand_has(gpost.cmask_at(x, y), w)
            implies cand_has(gpre.cmask_at(x, y), w) by {
            assert(gpost.has_cand(x, y, w));
        }
        lemma_mask_count_le(gpost.cmask_at(x, y), gpre.cmask_at(x, y));
    }
    assert(cell_measure(gpost, wx, wy) < cell_measure(gpre, wx, wy)) by {
        assert forall|w: u8| cand_has(gpost.cmask_at(wx, wy), w)
            implies cand_has(gpre.cmask_at(wx, wy), w) by {
            assert(gpost.has_cand(wx, wy, w));
        }
        lemma_mask_count_lt(gpost.cmask_at(wx, wy), gpre.cmask_at(wx, wy), wv);
    }
    lemma_grid_measure_lt(gpost, gpre, wx, wy);
}

/// An empty cell was filled and no candidate appeared: the measure strictly
/// drops.
pub proof fn lemma_measure_lt_insert(gpost: Grid, gpre: Grid, wx: int, wy: int)
    requires
        forall|x: int, y: int| 0 <= x < 9 && 0 <= y < 9 && !(x == wx && y == wy)
            ==> #[trigger] gpost.val(x, y) == gpre.val(x, y),
        forall|x: int, y: int, w: u8| 0 <= x < 9 && 0 <= y < 9
            ==> ((#[trigger] gpost.has_cand(x, y, w)) ==> gpre.has_cand(x, y, w)),
        0 <= wx < 9,
        0 <= wy < 9,
        gpre.val(wx, wy) == 0,
        gpost.val(wx, wy) != 0,
    ensures
        grid_measure(gpost) < grid_measure(gpre),
{
    assert forall|x: int, y: int| 0 <= x < 9 && 0 <= y < 9
        implies #[trigger] cell_measure(gpost, x, y) <= cell_measure(gpre, x, y) by {
        assert forall|w: u8| cand_has(gpost.cmask_at(x, y), w)
            implies cand_has(gpre.cmask_at(x, y), w) by {
            assert(gpost.has_cand(x, y, w));
        }
        lemma_mask_count_le(gpost.cmask_at(x, y), gpre.cmask_at(x, y));
    }
    assert(cell_measure(gpost, wx, wy) < cell_measure(gpre, wx, wy)) by {
        assert forall|w: u8| cand_has(gpost.cmask_at(wx, wy), w)
            implies cand_has(gpre.cmask_at(wx, wy), w) by {
            assert(gpost.has_cand(wx, wy, w));
        }
        lemma_mask_count_le(gpost.cmask_at(wx, wy), gpre.cmask_at(wx, wy));
    }
    lemma_grid_measure_lt(gpost, gpre, wx, wy);
}

} // verus!
