use vstd::prelude::*;

verus! {

use crate::candidates::{cand_has, mask_wf, mask_count, mask_none, mask_remove, mask_from_vec,
    mask_to_vec, mask_has};
use crate::line::LineDirection;
use crate::vec2::Vec2;

/// The 3 cells where one line (a row or a column) crosses one box: their raw
/// values, their candidate masks, and the coordinate of the crossed box.
#[derive(Clone, Copy, Debug)]
pub struct MiniLine {
    pub cells: [u8; 3],
    pub direction: LineDirection,
    pub point: Vec2,
    pub square_point: Vec2,
    pub candidates: [u16; 3],
}

impl MiniLine {
    /// All stored values are digits or empty, and all masks are well formed.
    pub open spec fn wf(self) -> bool {
        &&& forall|i: int| 0 <= i < 3 ==> #[trigger] self.cells[i] <= 9
        &&& forall|i: int| 0 <= i < 3 ==> mask_wf(#[trigger] self.candidates[i])
    }

    /// The rank of the crossed box along the line's own axis.
    pub open spec fn spec_square_rank(self) -> u8 {
        match self.direction {
            LineDirection::Row => self.square_point.x,
            LineDirection::Column => self.square_point.y,
        }
    }

    pub fn new(point: Vec2, direction: LineDirection) -> (r: Self)
        ensures
            r.wf(),
            r.point == point,
            r.direction == direction,
            r.square_point == (Vec2 { x: point.x / 3, y: point.y / 3 }),
            forall|i: int| 0 <= i < 3 ==> #[trigger] r.cells[i] == 0,
            forall|i: int, w: u8| 0 <= i < 3 ==> !(#[trigger] cand_has(r.candidates[i], w)),
    {
        let empty = mask_none();
        MiniLine {
            cells: [0, 0, 0],
            direction,
            point,
            square_point: Vec2::new(point.x / 3, point.y / 3),
            candidates: [empty, empty, empty],
        }
    }

    /// Replace the candidate set of one cell by the set of digits in `candidates`.
    pub fn set_candidates(&mut self, candidate_index: usize, candidates: Vec<u8>)
        requires
            candidate_index < 3,
            forall|i: int| 0 <= i < candidates@.len() ==> 1 <= #[trigger] candidates@[i] <= 9,
        ensures
            mask_wf(final(self).candidates[candidate_index as int]),
            forall|w: u8| cand_has(final(self).candidates[candidate_index as int], w)
                == candidates@.contains(w),
            forall|i: int| 0 <= i < 3 && i != candidate_index
                ==> #[trigger] final(self).candidates[i] == old(self).candidates[i],
            final(self).cells == old(self).cells,
            final(self).direction == old(self).direction,
            final(self).point == old(self).point,
            final(self).square_point == old(self).square_point,
    {
        let m = mask_from_vec(&candidates);
        self.candidates[candidate_index] = m;
    }

    /// Replace the candidate set of one cell by the mask `m`.
    pub(crate) fn set_mask(&mut self, candidate_index: usize, m: u16)
        requires
            candidate_index < 3,
        ensures
            final(self).candidates[candidate_index as int] == m,
            forall|i: int| 0 <= i < 3 && i != candidate_index
                ==> #[trigger] final(self).candidates[i] == old(self).candidates[i],
            final(self).cells == old(self).cells,
            final(self).direction == old(self).direction,
            final(self).point == old(self).point,
            final(self).square_point == old(self).square_point,
    {
        self.candidates[candidate_index] = m;
    }

    /// Remove digit `number` from one cell's candidate set; report whether it
    /// was present.
    pub fn remove_candidate(&mut self, candidate_index: usize, number: u8) -> (r: bool)
        requires
            candidate_index < 3,
            1 <= number <= 9,
        ensures
            r == cand_has(old(self).candidates[candidate_index as int], number),
            !r ==> *final(self) == *old(self),
            forall|w: u8| cand_has(final(self).candidates[candidate_index as int], w)
                == (cand_has(old(self).candidates[candidate_index as int], w) && w != number),
            mask_wf(old(self).candidates[candidate_index as int])
                ==> mask_wf(final(self).candidates[candidate_index as int]),
            forall|i: int| 0 <= i < 3 && i != candidate_index
                ==> #[trigger] final(self).candidates[i] == old(self).candidates[i],
            final(self).cells == old(self).cells,
            final(self).direction == old(self).direction,
            final(self).point == old(self).point,
            final(self).square_point == old(self).square_point,
    {
        let present = mask_has(self.candidates[candidate_index], number);
        let m = mask_remove(self.candidates[candidate_index], number);
        self.candidates[candidate_index] = m;
        proof {
            if !present {
                assert(self.candidates@ =~= old(self).candidates@);
                assert(self.candidates == old(self).candidates);
            }
        }
        present
    }

    /// Empty one cell's candidate set.
    pub fn clear_candidates(&mut self, candidate_index: usize)
        requires
            candidate_index < 3,
        ensures
            mask_wf(final(self).candidates[candidate_index as int]),
            forall|w: u8| !cand_has(final(self).candidates[candidate_index as int], w),
            forall|i: int| 0 <= i < 3 && i != candidate_index
                ==> #[trigger] final(self).candidates[i] == old(self).candidates[i],
            final(self).cells == old(self).cells,
            final(self).direction == old(self).direction,
            final(self).point == old(self).point,
            final(self).square_point == old(self).square_point,
    {
        let m = mask_none();
        self.candidates[candidate_index] = m;
    }

    /// The digits still possible for one cell, in increasing order.
    pub fn get_candidates(&self, candidate_index: usize) -> (r: Vec<u8>)
        requires
            candidate_index < 3,
        ensures
            forall|w: u8| r@.contains(w) == cand_has(self.candidates[candidate_index as int], w),
            forall|i: int, j: int| 0 <= i < j < r@.len() ==> r@[i] < r@[j],
            forall|i: int| 0 <= i < r@.len() ==> 1 <= #[trigger] r@[i] <= 9,
            r@.len() == mask_count(self.candidates[candidate_index as int]),
    {
        mask_to_vec(self.candidates[candidate_index])
    }

    /// Whether any of the 3 cells still lists `number` as a candidate.
    pub fn has_candidate_anywhere(&self, number: u8) -> (r: bool)
        ensures
            r == exists|i: int| 0 <= i < 3 && cand_has(#[trigger] self.candidates[i], number),
    {
        if mask_has(self.candidates[0], number) {
            proof {
                assert(cand_has(self.candidates[0], number));
            }
            return true;
        }
        if mask_has(self.candidates[1], number) {
            proof {
                assert(cand_has(self.candidates[1], number));
            }
            return true;
        }
        if mask_has(self.candidates[2], number) {
            proof {
                assert(cand_has(self.candidates[2], number));
            }
            return true;
        }
        false
    }

    /// The rank of the crossed box along the line's own axis.
    pub fn square_rank(&self) -> (r: u8)
        ensures
            r == self.spec_square_rank(),
    {
        match self.direction {
            LineDirection::Row => self.square_point.x,
            LineDirection::Column => self.square_point.y,
        }
    }
}

} // verus!
