use vstd::prelude::*;

verus! {

use crate::candidates::{cand_has, mask_wf, mask_count, mask_has, mask_add, mask_none};
use crate::mini_line::MiniLine;
use crate::vec2::Vec2;

/// Whether a line runs along the x axis (a row) or the y axis (a column).
#[derive(Clone, Copy, Debug, PartialEq, Eq, Structural)]
pub enum LineDirection {
    Row,
    Column,
}

impl LineDirection {
    /// The position of `p` along this direction's axis.
    pub open spec fn spec_offset(self, p: Vec2) -> u8 {
        match self {
            LineDirection::Row => p.x,
            LineDirection::Column => p.y,
        }
    }

    /// The coordinate `amount` of consecutive coordinates from `start` along
    /// this direction.
    pub open spec fn spec_coord(self, start: Vec2, i: int) -> Vec2 {
        match self {
            LineDirection::Row => Vec2 { x: (start.x + i) as u8, y: start.y },
            LineDirection::Column => Vec2 { x: start.x, y: (start.y + i) as u8 },
        }
    }

    /// The `amount` consecutive coordinates from `start` along this direction.
    pub fn coords(&self, start: &Vec2, amount: u8) -> (r: Vec<Vec2>)
        requires
            *self == LineDirection::Row ==> start.x + amount <= 255,
            *self == LineDirection::Column ==> start.y + amount <= 255,
        ensures
            r@.len() == amount,
            forall|i: int| 0 <= i < amount ==> r@[i] == self.spec_coord(*start, i),
    {
        let mut r: Vec<Vec2> = Vec::new();
        let mut i: u8 = 0;
        while i < amount
            invariant
                i <= amount,
                *self == LineDirection::Row ==> start.x + amount <= 255,
                *self == LineDirection::Column ==> start.y + amount <= 255,
                r@.len() == i,
                forall|j: int| 0 <= j < i ==> r@[j] == self.spec_coord(*start, j),
            decreases amount - i,
        {
            let c = match self {
                LineDirection::Row => Vec2::new(start.x + i, start.y),
                LineDirection::Column => Vec2::new(start.x, start.y + i),
            };
            r.push(c);
            i = i + 1;
        }
        r
    }

    /// Which of the line's 3 segments holds `point`, and at which of the
    /// segment's 3 cells.
    pub fn mini_line_index(&self, point: &Vec2) -> (r: (usize, usize))
        ensures
            r.0 == self.spec_offset(*point) as int / 3,
            r.1 == self.spec_offset(*point) as int % 3,
    {
        match self {
            LineDirection::Row => (point.x as usize / 3, point.x as usize % 3),
            LineDirection::Column => (point.y as usize / 3, point.y as usize % 3),
        }
    }
}

/// One full row or column: 9 cells split into 3 box-aligned segments.
#[derive(Clone, Copy, Debug)]
pub struct Line {
    pub direction: LineDirection,
    pub mini_lines: [MiniLine; 3],
    pub point: Vec2,
}

impl Line {
    /// Value of the `k`-th cell along the line.
    pub open spec fn val(self, k: int) -> u8 {
        self.mini_lines[k / 3].cells[k % 3]
    }

    /// Candidate mask of the `k`-th cell along the line.
    pub open spec fn cmask(self, k: int) -> u16 {
        self.mini_lines[k / 3].candidates[k % 3]
    }

    /// Which row (for a row line) or column (for a column line) this is.
    pub open spec fn spec_rank(self) -> u8 {
        match self.direction {
            LineDirection::Row => self.point.y,
            LineDirection::Column => self.point.x,
        }
    }

    /// The coordinate of the `k`-th cell along the line.
    pub open spec fn coord_of(self, k: int) -> Vec2 {
        self.direction.spec_coord(self.point, k)
    }

    /// Whether `p` lies on this line (the fixed axis matches) with a valid
    /// position along the moving axis.
    pub open spec fn contains_point(self, p: Vec2) -> bool {
        match self.direction {
            LineDirection::Row => p.y == self.point.y && p.x < 9,
            LineDirection::Column => p.x == self.point.x && p.y < 9,
        }
    }

    /// Structural shape: the anchor sits at the start of the line, within the
    /// grid, and the 3 segments carry the direction and their own anchors.
    pub open spec fn wf(self) -> bool {
        &&& (match self.direction {
            LineDirection::Row => self.point.x == 0 && self.point.y < 9,
            LineDirection::Column => self.point.y == 0 && self.point.x < 9,
        })
        &&& forall|k: int| 0 <= k < 3 ==> (#[trigger] self.mini_lines[k]).direction
            == self.direction
        &&& forall|k: int| 0 <= k < 3 ==> (#[trigger] self.mini_lines[k]).point
            == self.direction.spec_coord(self.point, 3 * k)
        &&& forall|k: int| 0 <= k < 3 ==> (#[trigger] self.mini_lines[k]).square_point == (Vec2 {
            x: self.direction.spec_coord(self.point, 3 * k).x / 3,
            y: self.direction.spec_coord(self.point, 3 * k).y / 3,
        })
        &&& forall|k: int| 0 <= k < 3 ==> (#[trigger] self.mini_lines[k]).wf()
    }

    pub fn new(point: Vec2, direction: LineDirection) -> (r: Self)
        requires
            match direction {
                LineDirection::Row => point.x == 0 && point.y < 9,
                LineDirection::Column => point.y == 0 && point.x < 9,
            },
        ensures
            r.wf(),
            r.direction == direction,
            r.point == point,
            forall|k: int| 0 <= k < 9 ==> r.val(k) == 0,
            forall|k: int, w: u8| 0 <= k < 9 ==> !(#[trigger] cand_has(r.cmask(k), w)),
    {
        let m0 = match direction {
            LineDirection::Row => MiniLine::new(Vec2::new(0, point.y), direction),
            LineDirection::Column => MiniLine::new(Vec2::new(point.x, 0), direction),
        };
        let m1 = match direction {
            LineDirection::Row => MiniLine::new(Vec2::new(3, point.y), direction),
            LineDirection::Column => MiniLine::new(Vec2::new(point.x, 3), direction),
        };
        let m2 = match direction {
            LineDirection::Row => MiniLine::new(Vec2::new(6, point.y), direction),
            LineDirection::Column => MiniLine::new(Vec2::new(point.x, 6), direction),
        };
        let r = Line { direction, mini_lines: [m0, m1, m2], point };
        proof {
            assert forall|k: int| 0 <= k < 9 implies r.val(k) == 0 by {
                assert(0 <= k / 3 < 3 && 0 <= k % 3 < 3);
            }
            assert forall|k: int, w: u8| 0 <= k < 9 implies !(#[trigger] cand_has(r.cmask(k), w)) by {
                assert(0 <= k / 3 < 3 && 0 <= k % 3 < 3);
            }
        }
        r
    }

    /// Whether some cell of the line holds `number`.
    pub fn has_number(&self, number: u8) -> (r: bool)
        ensures
            r == exists|k: int| 0 <= k < 9 && self.val(k) == number,
    {
        let mut k: u8 = 0;
        while k < 9
            invariant
                k <= 9,
                forall|j: int| 0 <= j < k ==> self.val(j) != number,
            decreases 9 - k,
        {
            let ml = self.mini_lines[(k / 3) as usize];
            if ml.cells[(k % 3) as usize] == number {
                proof {
                    assert(self.val(k as int) == number);
                }
                return true;
            }
            k = k + 1;
        }
        false
    }

    /// Set the value of the cell at `point`.
    pub fn set_number(&mut self, point: &Vec2, number: u8)
        requires
            old(self).contains_point(*point),
        ensures
            final(self).val(old(self).direction.spec_offset(*point) as int) == number,
            forall|k: int| 0 <= k < 9 && k != old(self).direction.spec_offset(*point) as int
                ==> final(self).val(k) == old(self).val(k),
            forall|k: int| 0 <= k < 9 ==> final(self).cmask(k) == old(self).cmask(k),
            final(self).direction == old(self).direction,
            final(self).point == old(self).point,
            forall|k: int| 0 <= k < 3 ==> (#[trigger] final(self).mini_lines[k]).point
                == old(self).mini_lines[k].point,
            forall|k: int| 0 <= k < 3 ==> (#[trigger] final(self).mini_lines[k]).square_point
                == old(self).mini_lines[k].square_point,
            forall|k: int| 0 <= k < 3 ==> (#[trigger] final(self).mini_lines[k]).direction
                == old(self).mini_lines[k].direction,
            old(self).wf() && number <= 9 ==> final(self).wf(),
    {
        let (mi, ci) = self.direction.mini_line_index(point);
        let mut ml = self.mini_lines[mi];
        ml.cells[ci] = number;
        self.mini_lines[mi] = ml;
        proof {
            assert forall|k: int| 0 <= k < 9 && k != old(self).direction.spec_offset(*point) as int
                implies self.val(k) == old(self).val(k) by {
                assert(0 <= k / 3 < 3 && 0 <= k % 3 < 3);
            }
            assert forall|k: int| 0 <= k < 9 implies self.cmask(k) == old(self).cmask(k) by {
                assert(0 <= k / 3 < 3 && 0 <= k % 3 < 3);
            }
        }
    }

    /// The value of the cell at `point`.
    pub fn get_number(&self, point: &Vec2) -> (r: u8)
        requires
            self.contains_point(*point),
        ensures
            r == self.val(self.direction.spec_offset(*point) as int),
    {
        let (mi, ci) = self.direction.mini_line_index(point);
        self.mini_lines[mi].cells[ci]
    }

    /// Replace the candidate set of the cell at `point`.
    pub fn set_candidates(&mut self, point: &Vec2, candidates: Vec<u8>)
        requires
            old(self).contains_point(*point),
            forall|i: int| 0 <= i < candidates@.len() ==> 1 <= #[trigger] candidates@[i] <= 9,
        ensures
            forall|w: u8| cand_has(
                final(self).cmask(old(self).direction.spec_offset(*point) as int),
                w,
            ) == candidates@.contains(w),
            forall|k: int| 0 <= k < 9 && k != old(self).direction.spec_offset(*point) as int
                ==> final(self).cmask(k) == old(self).cmask(k),
            forall|k: int| 0 <= k < 9 ==> final(self).val(k) == old(self).val(k),
            final(self).direction == old(self).direction,
            final(self).point == old(self).point,
            forall|k: int| 0 <= k < 3 ==> (#[trigger] final(self).mini_lines[k]).point
                == old(self).mini_lines[k].point,
            forall|k: int| 0 <= k < 3 ==> (#[trigger] final(self).mini_lines[k]).square_point
                == old(self).mini_lines[k].square_point,
            forall|k: int| 0 <= k < 3 ==> (#[trigger] final(self).mini_lines[k]).direction
                == old(self).mini_lines[k].direction,
            old(self).wf() ==> final(self).wf(),
    {
        let (mi, ci) = self.direction.mini_line_index(point);
        let mut ml = self.mini_lines[mi];
        ml.set_candidates(ci, candidates);
        self.mini_lines[mi] = ml;
        proof {
            assert forall|k: int| 0 <= k < 9 implies self.val(k) == old(self).val(k) by {
                assert(0 <= k / 3 < 3 && 0 <= k % 3 < 3);
            }
            assert forall|k: int| 0 <= k < 9 && k != old(self).direction.spec_offset(*point) as int
                implies self.cmask(k) == old(self).cmask(k) by {
                assert(0 <= k / 3 < 3 && 0 <= k % 3 < 3);
            }
        }
    }

    /// Replace the candidate set of the cell at `point` by the mask `m`.
    pub(crate) fn set_cmask(&mut self, point: &Vec2, m: u16)
        requires
            old(self).contains_point(*point),
        ensures
            final(self).cmask(old(self).direction.spec_offset(*point) as int) == m,
            forall|k: int| 0 <= k < 9 && k != old(self).direction.spec_offset(*point) as int
                ==> final(self).cmask(k) == old(self).cmask(k),
            forall|k: int| 0 <= k < 9 ==> final(self).val(k) == old(self).val(k),
            final(self).direction == old(self).direction,
            final(self).point == old(self).point,
            forall|k: int| 0 <= k < 3 ==> (#[trigger] final(self).mini_lines[k]).point
                == old(self).mini_lines[k].point,
            forall|k: int| 0 <= k < 3 ==> (#[trigger] final(self).mini_lines[k]).square_point
                == old(self).mini_lines[k].square_point,
            forall|k: int| 0 <= k < 3 ==> (#[trigger] final(self).mini_lines[k]).direction
                == old(self).mini_lines[k].direction,
            old(self).wf() && mask_wf(m) ==> final(self).wf(),
    {
        let (mi, ci) = self.direction.mini_line_index(point);
        let mut ml = self.mini_lines[mi];
        ml.set_mask(ci, m);
        self.mini_lines[mi] = ml;
        proof {
            assert forall|k: int| 0 <= k < 9 implies self.val(k) == old(self).val(k) by {
                assert(0 <= k / 3 < 3 && 0 <= k % 3 < 3);
            }
            assert forall|k: int| 0 <= k < 9 && k != old(self).direction.spec_offset(*point) as int
                implies self.cmask(k) == old(self).cmask(k) by {
                assert(0 <= k / 3 < 3 && 0 <= k % 3 < 3);
            }
        }
    }

    /// Remove digit `number` from the candidate set of the cell at `point`;
    /// report whether it was present.
    pub fn remove_candidate(&mut self, point: &Vec2, number: u8) -> (r: bool)
        requires
            old(self).contains_point(*point),
            1 <= number <= 9,
        ensures
            r == cand_has(old(self).cmask(old(self).direction.spec_offset(*point) as int), number),
            !r ==> *final(self) == *old(self),
            forall|w: u8| cand_has(
                final(self).cmask(old(self).direction.spec_offset(*point) as int),
                w,
            ) == (cand_has(old(self).cmask(old(self).direction.spec_offset(*point) as int), w)
                && w != number),
            forall|k: int| 0 <= k < 9 && k != old(self).direction.spec_offset(*point) as int
                ==> final(self).cmask(k) == old(self).cmask(k),
            forall|k: int| 0 <= k < 9 ==> final(self).val(k) == old(self).val(k),
            final(self).direction == old(self).direction,
            final(self).point == old(self).point,
            forall|k: int| 0 <= k < 3 ==> (#[trigger] final(self).mini_lines[k]).point
                == old(self).mini_lines[k].point,
            forall|k: int| 0 <= k < 3 ==> (#[trigger] final(self).mini_lines[k]).square_point
                == old(self).mini_lines[k].square_point,
            forall|k: int| 0 <= k < 3 ==> (#[trigger] final(self).mini_lines[k]).direction
                == old(self).mini_lines[k].direction,
            old(self).wf() ==> final(self).wf(),
    {
        let (mi, ci) = self.direction.mini_line_index(point);
        let mut ml = self.mini_lines[mi];
        let r = ml.remove_candidate(ci, number);
        self.mini_lines[mi] = ml;
        proof {
            if !r {
                assert(self.mini_lines@ =~= old(self).mini_lines@);
                assert(self.mini_lines == old(self).mini_lines);
            }
            assert forall|k: int| 0 <= k < 9 implies self.val(k) == old(self).val(k) by {
                assert(0 <= k / 3 < 3 && 0 <= k % 3 < 3);
            }
            assert forall|k: int| 0 <= k < 9 && k != old(self).direction.spec_offset(*point) as int
                implies self.cmask(k) == old(self).cmask(k) by {
                assert(0 <= k / 3 < 3 && 0 <= k % 3 < 3);
            }
        }
        r
    }

    /// Empty the candidate set of the cell at `point`.
    pub fn clear_candidates(&mut self, point: &Vec2)
        requires
            old(self).contains_point(*point),
        ensures
            forall|w: u8| !cand_has(
                final(self).cmask(old(self).direction.spec_offset(*point) as int),
                w,
            ),
            forall|k: int| 0 <= k < 9 && k != old(self).direction.spec_offset(*point) as int
                ==> final(self).cmask(k) == old(self).cmask(k),
            forall|k: int| 0 <= k < 9 ==> final(self).val(k) == old(self).val(k),
            final(self).direction == old(self).direction,
            final(self).point == old(self).point,
            forall|k: int| 0 <= k < 3 ==> (#[trigger] final(self).mini_lines[k]).point
                == old(self).mini_lines[k].point,
            forall|k: int| 0 <= k < 3 ==> (#[trigger] final(self).mini_lines[k]).square_point
                == old(self).mini_lines[k].square_point,
            forall|k: int| 0 <= k < 3 ==> (#[trigger] final(self).mini_lines[k]).direction
                == old(self).mini_lines[k].direction,
            old(self).wf() ==> final(self).wf(),
    {
        let (mi, ci) = self.direction.mini_line_index(point);
        let mut ml = self.mini_lines[mi];
        ml.clear_candidates(ci);
        self.mini_lines[mi] = ml;
        proof {
            assert forall|k: int| 0 <= k < 9 implies self.val(k) == old(self).val(k) by {
                assert(0 <= k / 3 < 3 && 0 <= k % 3 < 3);
            }
            assert forall|k: int| 0 <= k < 9 && k != old(self).direction.spec_offset(*point) as int
                implies self.cmask(k) == old(self).cmask(k) by {
                assert(0 <= k / 3 < 3 && 0 <= k % 3 < 3);
            }
        }
    }

    /// The candidate digits of the cell at `point`, in increasing order.
    pub fn get_candidates(&self, point: &Vec2) -> (r: Vec<u8>)
        requires
            self.contains_point(*point),
        ensures
            forall|w: u8| r@.contains(w) == cand_has(
                self.cmask(self.direction.spec_offset(*point) as int),
                w,
            ),
            forall|i: int, j: int| 0 <= i < j < r@.len() ==> r@[i] < r@[j],
            forall|i: int| 0 <= i < r@.len() ==> 1 <= #[trigger] r@[i] <= 9,
            r@.len() == mask_count(self.cmask(self.direction.spec_offset(*point) as int)),
    {
        let (mi, ci) = self.direction.mini_line_index(point);
        self.mini_lines[mi].get_candidates(ci)
    }

    /// The 9 coordinates of the line's cells, in order.
    pub fn coords(&self) -> (r: Vec<Vec2>)
        requires
            self.wf(),
        ensures
            r@.len() == 9,
            forall|k: int| 0 <= k < 9 ==> r@[k] == self.coord_of(k),
    {
        self.direction.coords(&self.point, 9)
    }

    /// Which row (for a row line) or column (for a column line) this is.
    pub fn rank(&self) -> (r: u8)
        ensures
            r == self.spec_rank(),
    {
        match self.direction {
            LineDirection::Row => self.point.y,
            LineDirection::Column => self.point.x,
        }
    }

    /// Whether two cells of the line hold the same nonzero value.
    pub open spec fn has_duplicate(self) -> bool {
        exists|i: int, j: int| 0 <= i < j < 9 && self.val(i) != 0 && self.val(i) == self.val(j)
    }

    /// Scan the line for a repeated nonzero value; on a repeat, return the
    /// coordinate of its later occurrence.
    pub fn verify(&self) -> (r: Option<Vec2>)
        requires
            self.wf(),
        ensures
            r is Some <==> self.has_duplicate(),
            r matches Some(p) ==> self.contains_point(p)
                && (exists|i: int| 0 <= i < self.direction.spec_offset(p) as int
                    && #[trigger] self.val(i) == self.val(self.direction.spec_offset(p) as int))
                && self.val(self.direction.spec_offset(p) as int) != 0,
    {
        let mut seen: u16 = mask_none();
        let mut k: u8 = 0;
        while k < 9
            invariant
                self.wf(),
                k <= 9,
                forall|v: u8| 1 <= v <= 9 ==> cand_has(seen, v) == exists|i: int|
                    0 <= i < k && self.val(i) == v,
                forall|i: int, j: int| 0 <= i < j < k && self.val(i) != 0
                    ==> self.val(i) != self.val(j),
            decreases 9 - k,
        {
            let ml = self.mini_lines[(k / 3) as usize];
            let cell = ml.cells[(k % 3) as usize];
            proof {
                assert(0 <= k as int / 3 < 3 && 0 <= k as int % 3 < 3);
                assert(cell == self.val(k as int));
                assert(self.mini_lines[k as int / 3].wf());
                assert(cell <= 9);
            }
            if cell != 0 {
                if mask_has(seen, cell) {
                    let p = match self.direction {
                        LineDirection::Row => Vec2::new(k, self.point.y),
                        LineDirection::Column => Vec2::new(self.point.x, k),
                    };
                    proof {
                        assert(cand_has(seen, cell));
                        let i = choose|i: int| 0 <= i < k && self.val(i) == cell;
                        assert(self.direction.spec_offset(p) == k);
                        assert(self.val(i) == self.val(k as int));
                        assert(self.has_duplicate());
                    }
                    return Some(p);
                }
                seen = mask_add(seen, cell);
                proof {
                    assert forall|v: u8| 1 <= v <= 9 && cand_has(seen, v)
                        implies exists|i: int| 0 <= i < k + 1 && self.val(i) == v by {
                        if v == cell {
                            assert(self.val(k as int) == v);
                        } else {
                            let i = choose|i: int| 0 <= i < k && self.val(i) == v;
                            assert(0 <= i < k + 1 && self.val(i) == v);
                        }
                    }
                    assert forall|v: u8| 1 <= v <= 9
                        && (exists|i: int| 0 <= i < k + 1 && self.val(i) == v)
                        implies cand_has(seen, v) by {
                        let i = choose|i: int| 0 <= i < k + 1 && self.val(i) == v;
                        if i == k {
                            assert(v == cell);
                        }
                    }
                }
            } else {
                proof {
                    assert forall|v: u8| 1 <= v <= 9
                        && (exists|i: int| 0 <= i < k + 1 && self.val(i) == v)
                        implies cand_has(seen, v) by {
                        let i = choose|i: int| 0 <= i < k + 1 && self.val(i) == v;
                        assert(i < k);
                    }
                }
            }
            k = k + 1;
        }
        proof {
            if self.has_duplicate() {
                let (i, j) = choose|i: int, j: int| 0 <= i < j < 9 && self.val(i) != 0
                    && self.val(i) == self.val(j);
                assert(false);
            }
        }
        None
    }
}

} // verus!
