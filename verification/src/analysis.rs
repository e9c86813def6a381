//! Methods that measure the pattern of a grid: the bounding box of its
//! living cells.

use vstd::prelude::*;

use crate::{lemma_boundaries_unique, lemma_has_live_lines, Grid, ALIVE};

verus! {

impl Grid {
    /// True when column `x` holds at least one living cell.
    fn col_has_live(&self, x: usize) -> (b: bool)
        requires
            self@.wf(),
            x < self@.width,
        ensures
            b == self@.live_in_col(x as int),
    {
        let mut y: usize = 0;
        let mut found: bool = false;
        while y < self.height
            invariant
                self@.wf(),
                x < self@.width,
                y <= self@.height,
                found == exists|yy: int| 0 <= yy < y && self@.alive(x as int, yy),
            decreases self@.height - y,
        {
            if self.cell_at_xy(x, y) == ALIVE {
                proof {
                    assert(self@.alive(x as int, y as int));
                }
                found = true;
            }
            y = y + 1;
        }
        found
    }

    /// True when row `y` holds at least one living cell.
    fn row_has_live(&self, y: usize) -> (b: bool)
        requires
            self@.wf(),
            y < self@.height,
        ensures
            b == self@.live_in_row(y as int),
    {
        let mut x: usize = 0;
        let mut found: bool = false;
        while x < self.width
            invariant
                self@.wf(),
                y < self@.height,
                x <= self@.width,
                found == exists|xx: int| 0 <= xx < x && self@.alive(xx, y as int),
            decreases self@.width - x,
        {
            if self.cell_at_xy(x, y) == ALIVE {
                proof {
                    assert(self@.alive(x as int, y as int));
                }
                found = true;
            }
            x = x + 1;
        }
        found
    }

    /// Returns the bounds of the pattern of living cells, as
    /// `(min col, max col, min row, max row)`. Each bound is `None` exactly
    /// when the grid holds no living cell at all.
    pub fn compute_pattern_boundaries(&self) -> (r: (
        Option<usize>,
        Option<usize>,
        Option<usize>,
        Option<usize>,
    ))
        requires
            self@.wf(),
        ensures
            (r.0 is Some) == self@.has_live(),
            (r.1 is Some) == self@.has_live(),
            (r.2 is Some) == self@.has_live(),
            (r.3 is Some) == self@.has_live(),
            r.0 matches Some(m) ==> self@.is_min_live_col(m as int),
            r.1 matches Some(m) ==> self@.is_max_live_col(m as int),
            r.2 matches Some(m) ==> self@.is_min_live_row(m as int),
            r.3 matches Some(m) ==> self@.is_max_live_row(m as int),
    {
        proof {
            lemma_has_live_lines(self@);
        }
        let mut min_x: Option<usize> = None;
        let mut x: usize = 0;
        while x < self.width && min_x.is_none()
            invariant
                self@.wf(),
                x <= self@.width,
                min_x is None ==> forall|xx: int| 0 <= xx < x ==> !self@.live_in_col(xx),
                min_x matches Some(m) ==> self@.is_min_live_col(m as int),
            decreases self@.width - x,
        {
            if self.col_has_live(x) {
                min_x = Some(x);
            }
            x = x + 1;
        }

        let mut max_x: Option<usize> = None;
        let mut xd: usize = self.width;
        while xd > 0 && max_x.is_none()
            invariant
                self@.wf(),
                xd <= self@.width,
                max_x is None ==> forall|xx: int| xd <= xx < self@.width ==> !self@.live_in_col(
                    xx,
                ),
                max_x matches Some(m) ==> self@.is_max_live_col(m as int),
            decreases xd,
        {
            xd = xd - 1;
            if self.col_has_live(xd) {
                max_x = Some(xd);
            }
        }

        let mut min_y: Option<usize> = None;
        let mut y: usize = 0;
        while y < self.height && min_y.is_none()
            invariant
                self@.wf(),
                y <= self@.height,
                min_y is None ==> forall|yy: int| 0 <= yy < y ==> !self@.live_in_row(yy),
                min_y matches Some(m) ==> self@.is_min_live_row(m as int),
            decreases self@.height - y,
        {
            if self.row_has_live(y) {
                min_y = Some(y);
            }
            y = y + 1;
        }

        let mut max_y: Option<usize> = None;
        let mut yd: usize = self.height;
        while yd > 0 && max_y.is_none()
            invariant
                self@.wf(),
                yd <= self@.height,
                max_y is None ==> forall|yy: int| yd <= yy < self@.height ==> !self@.live_in_row(
                    yy,
                ),
                max_y matches Some(m) ==> self@.is_max_live_row(m as int),
            decreases yd,
        {
            yd = yd - 1;
            if self.row_has_live(yd) {
                max_y = Some(yd);
            }
        }

        (min_x, max_x, min_y, max_y)
    }

    /// Returns the coordinates `(col, row)` of the north-west corner of the
    /// pattern of living cells: each axis is minimized separately. Returns
    /// `(0, 0)` when the grid holds no living cell.
    pub fn guess_pattern_origin(&self) -> (r: (usize, usize))
        requires
            self@.wf(),
        ensures
            self@.has_live() ==> self@.is_min_live_col(r.0 as int) && self@.is_min_live_row(
                r.1 as int,
            ),
            !self@.has_live() ==> r == (0usize, 0usize),
    {
        let (min_x, _, min_y, _) = self.compute_pattern_boundaries();
        match (min_x, min_y) {
            (Some(a), Some(b)) => (a, b),
            _ => (0, 0),
        }
    }

    /// Returns the size `(width, height)` of the bounding box of the pattern
    /// of living cells, or `(0, 0)` when the grid holds no living cell.
    pub fn guess_pattern_size(&self) -> (r: (usize, usize))
        requires
            self@.wf(),
        ensures
            self@.has_live() ==> r.0 as int == self@.pattern_width() && r.1 as int
                == self@.pattern_height(),
            !self@.has_live() ==> r == (0usize, 0usize),
    {
        let (min_x, max_x, min_y, max_y) = self.compute_pattern_boundaries();
        match (min_x, max_x, min_y, max_y) {
            (Some(a), Some(b), Some(c), Some(d)) => {
                proof {
                    lemma_boundaries_unique(self@, a as int);
                    lemma_boundaries_unique(self@, b as int);
                    lemma_boundaries_unique(self@, c as int);
                    lemma_boundaries_unique(self@, d as int);
                }
                (b - a + 1, d - c + 1)
            },
            _ => (0, 0),
        }
    }
}

} // verus!
