use vstd::prelude::*;

verus! {

use crate::candidates::{cand_has, mask_wf, mask_none, mask_add, mask_has, mask_count};
use crate::vec2::Vec2;

/// The index (in [0, 9)) of the box that owns coordinate `p`.
pub open spec fn square_index_of(p: Vec2) -> int {
    p.x as int / 3 + 3 * (p.y as int / 3)
}

/// One 3x3 box: its box coordinate (`x`, `y`, each in [0, 3)) and the set of
/// values currently assigned within its 9 cells, stored as a mask.
#[derive(Clone, Copy, Debug)]
pub struct Square {
    pub cells: u16,
    pub x: u8,
    pub y: u8,
}

impl Square {
    pub open spec fn wf(self) -> bool {
        self.x < 3 && self.y < 3 && mask_wf(self.cells)
    }

    /// Whether coordinate `p` lies in this box.
    pub open spec fn spec_owns(self, p: Vec2) -> bool {
        p.x / 3 == self.x && p.y / 3 == self.y
    }

    pub fn new(x: u8, y: u8) -> (r: Self)
        requires
            x < 3,
            y < 3,
        ensures
            r.wf(),
            r.x == x,
            r.y == y,
            forall|v: u8| !cand_has(r.cells, v),
    {
        Square { cells: mask_none(), x, y }
    }

    /// Whether value `number` is already assigned somewhere in this box.
    pub fn has_number(&self, number: u8) -> (r: bool)
        ensures
            r == cand_has(self.cells, number),
    {
        mask_has(self.cells, number)
    }

    /// Record that value `number` is now assigned in this box.
    pub fn record(&mut self, number: u8)
        requires
            1 <= number <= 9,
        ensures
            forall|v: u8| cand_has(final(self).cells, v) == (cand_has(old(self).cells, v)
                || v == number),
            mask_wf(old(self).cells) ==> mask_wf(final(self).cells),
            final(self).x == old(self).x,
            final(self).y == old(self).y,
    {
        self.cells = mask_add(self.cells, number);
    }

    /// How many distinct values are assigned in this box.
    pub fn count_values(&self) -> (r: usize)
        ensures
            r == mask_count(self.cells),
    {
        crate::candidates::mask_size(self.cells)
    }

    /// The array index of the box with box coordinate (`x`, `y`).
    pub fn square_coord_to_index(x: u8, y: u8) -> (r: usize)
        requires
            x < 3,
            y < 3,
        ensures
            r == x + y * 3,
            r < 9,
    {
        (x + y * 3) as usize
    }

    /// The array index of the box that owns coordinate `point`.
    pub fn point_to_index(point: &Vec2) -> (r: usize)
        requires
            point.x < 9,
            point.y < 9,
        ensures
            r == square_index_of(*point),
            r < 9,
    {
        Square::square_coord_to_index(point.x / 3, point.y / 3)
    }

    /// The 9 coordinates of this box's cells, column by column.
    pub fn coords(&self) -> (r: Vec<Vec2>)
        requires
            self.x < 3,
            self.y < 3,
        ensures
            r@.len() == 9,
            forall|i: int| 0 <= i < 9 ==> r@[i] == (Vec2 {
                x: (3 * self.x + i / 3) as u8,
                y: (3 * self.y + i % 3) as u8,
            }),
    {
        let mut r: Vec<Vec2> = Vec::new();
        let mut i: u8 = 0;
        while i < 9
            invariant
                i <= 9,
                self.x < 3,
                self.y < 3,
                r@.len() == i,
                forall|j: int| 0 <= j < i ==> r@[j] == (Vec2 {
                    x: (3 * self.x + j / 3) as u8,
                    y: (3 * self.y + j % 3) as u8,
                }),
            decreases 9 - i,
        {
            r.push(Vec2::new(3 * self.x + i / 3, 3 * self.y + i % 3));
            i = i + 1;
        }
        r
    }
}

} // verus!
