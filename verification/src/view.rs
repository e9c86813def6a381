//! A rectangular window over a grid, and its rendering into a pixel buffer.

use vstd::arithmetic::div_mod::{
    lemma_fundamental_div_mod, lemma_mod_bound, lemma_multiply_divide_lt,
};
use vstd::prelude::*;

use crate::Grid;

verus! {

/// The extent of the window along one axis: its size, cut down so that the
/// window does not reach past the grid.
pub open spec fn clamped(pos: int, size: int, limit: int) -> int {
    if pos + size > limit {
        limit - pos
    } else {
        size
    }
}

/// A positioned rectangular window over a [`Grid`], to be rendered at an
/// arbitrary raster resolution.
pub struct GridView<'a> {
    pub grid: &'a Grid,
    pub x_pos: usize,
    pub y_pos: usize,
    pub width: usize,
    pub height: usize,
}

impl<'a> GridView<'a> {
    /// A window over the whole grid.
    pub fn new(grid: &'a Grid) -> (r: GridView<'a>)
        ensures
            r.grid == grid,
            r.x_pos == 0,
            r.y_pos == 0,
            r.width == grid@.width,
            r.height == grid@.height,
    {
        GridView::new_positioned(grid, 0, 0, grid.get_width(), grid.get_height())
    }

    /// A window of the given position and size.
    pub fn new_positioned(
        grid: &'a Grid,
        x_pos: usize,
        y_pos: usize,
        width: usize,
        height: usize,
    ) -> (r: GridView<'a>)
        ensures
            r.grid == grid,
            r.x_pos == x_pos,
            r.y_pos == y_pos,
            r.width == width,
            r.height == height,
    {
        GridView { grid, x_pos, y_pos, width, height }
    }

    /// Returns the position of the window.
    pub fn position(&self) -> (r: (usize, usize))
        ensures
            r == (self.x_pos, self.y_pos),
    {
        (self.x_pos, self.y_pos)
    }

    /// Moves the window.
    pub fn set_position(&mut self, x: usize, y: usize)
        ensures
            *final(self) == (GridView { x_pos: x, y_pos: y, ..*old(self) }),
    {
        self.x_pos = x;
        self.y_pos = y;
    }

    /// Returns the width of the window.
    pub fn width(&self) -> (r: usize)
        ensures
            r == self.width,
    {
        self.width
    }

    /// Resizes the window horizontally.
    pub fn set_width(&mut self, w: usize)
        ensures
            *final(self) == (GridView { width: w, ..*old(self) }),
    {
        self.width = w;
    }

    /// Returns the height of the window.
    pub fn height(&self) -> (r: usize)
        ensures
            r == self.height,
    {
        self.height
    }

    /// Resizes the window vertically.
    pub fn set_height(&mut self, h: usize)
        ensures
            *final(self) == (GridView { height: h, ..*old(self) }),
    {
        self.height = h;
    }

    /// Renders the window into a raster of `img_width` by `img_height`
    /// pixels, row-major: each pixel holds the state of the window cell it
    /// falls on by nearest sampling. The window is first cut down so that
    /// it does not reach past the grid.
    pub fn render(&self, img_width: usize, img_height: usize) -> (r: Vec<u8>)
        requires
            self.grid@.wf(),
            self.x_pos <= self.grid@.width,
            self.y_pos <= self.grid@.height,
            img_width * img_height <= usize::MAX,
        ensures
            r@.len() == img_width * img_height,
            forall|p: int|
                0 <= p < r@.len() ==> r@[p] == self.grid@.cell(
                    self.x_pos + (p % img_width as int) * clamped(
                        self.x_pos as int,
                        self.width as int,
                        self.grid@.width as int,
                    ) / img_width as int,
                    self.y_pos + (p / img_width as int) * clamped(
                        self.y_pos as int,
                        self.height as int,
                        self.grid@.height as int,
                    ) / img_height as int,
                ),
    {
        let gw: usize = self.grid.get_width();
        let gh: usize = self.grid.get_height();
        let view_width: usize = if self.width > gw - self.x_pos {
            gw - self.x_pos
        } else {
            self.width
        };
        let view_height: usize = if self.height > gh - self.y_pos {
            gh - self.y_pos
        } else {
            self.height
        };
        proof {
            assert(view_width as int == clamped(
                self.x_pos as int,
                self.width as int,
                self.grid@.width as int,
            ));
            assert(view_height as int == clamped(
                self.y_pos as int,
                self.height as int,
                self.grid@.height as int,
            ));
        }
        let n: usize = img_width * img_height;
        let mut r: Vec<u8> = Vec::new();
        let mut i: usize = 0;
        while i < n
            invariant
                self.grid@.wf(),
                self.x_pos + view_width <= self.grid@.width,
                self.y_pos + view_height <= self.grid@.height,
                view_width as int == clamped(
                    self.x_pos as int,
                    self.width as int,
                    self.grid@.width as int,
                ),
                view_height as int == clamped(
                    self.y_pos as int,
                    self.height as int,
                    self.grid@.height as int,
                ),
                n == img_width * img_height,
                i <= n,
                r@.len() == i,
                forall|p: int|
                    0 <= p < i ==> r@[p] == self.grid@.cell(
                        self.x_pos + (p % img_width as int) * view_width / img_width as int,
                        self.y_pos + (p / img_width as int) * view_height / img_height as int,
                    ),
            decreases n - i,
        {
            let px: usize = i % img_width;
            let py: usize = i / img_width;
            proof {
                lemma_mod_bound(i as int, img_width as int);
                lemma_fundamental_div_mod(i as int, img_width as int);
                assert(py < img_height) by (nonlinear_arith)
                    requires
                        i as int == img_width as int * (py as int) + (px as int),
                        0 <= px as int,
                        (i as int) < (img_width as int) * (img_height as int),
                        0 < img_width,
                ;
            }
            proof {
                assert((px as u128) * (view_width as u128) <= (u64::MAX as u128) * (
                u64::MAX as u128)) by (nonlinear_arith)
                    requires
                        0 <= px as u128 <= u64::MAX as u128,
                        0 <= view_width as u128 <= u64::MAX as u128,
                ;
                assert((py as u128) * (view_height as u128) <= (u64::MAX as u128) * (
                u64::MAX as u128)) by (nonlinear_arith)
                    requires
                        0 <= py as u128 <= u64::MAX as u128,
                        0 <= view_height as u128 <= u64::MAX as u128,
                ;
            }
            let dx: usize = ((px as u128) * (view_width as u128) / (img_width as u128)) as usize;
            let dy: usize = ((py as u128) * (view_height as u128) / (img_height as u128)) as usize;
            proof {
                assert((px as int) * (view_width as int) < (img_width as int) * (view_width as int)
                    || view_width == 0) by (nonlinear_arith)
                    requires
                        0 <= px < img_width,
                        view_width >= 0,
                ;
                if view_width > 0 {
                    lemma_multiply_divide_lt(
                        (px as int) * (view_width as int),
                        img_width as int,
                        view_width as int,
                    );
                } else {
                    assert((px as int) * 0 == 0) by (nonlinear_arith);
                }
                assert((py as int) * (view_height as int) < (img_height as int) * (
                view_height as int) || view_height == 0) by (nonlinear_arith)
                    requires
                        0 <= py < img_height,
                        view_height >= 0,
                ;
                if view_height > 0 {
                    lemma_multiply_divide_lt(
                        (py as int) * (view_height as int),
                        img_height as int,
                        view_height as int,
                    );
                } else {
                    assert((py as int) * 0 == 0) by (nonlinear_arith);
                }
            }
            let sx: usize = self.x_pos + dx;
            let sy: usize = self.y_pos + dy;
            let v: u8 = self.grid.cell_ext(sx as i128, sy as i128);
            r.push(v);
            i = i + 1;
        }
        r
    }
}

} // verus!
