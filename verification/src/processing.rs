//! Methods that modify a grid: randomizing it and computing its next
//! generations.

use vstd::arithmetic::div_mod::{lemma_fundamental_div_mod, lemma_mod_bound, lemma_mod_self_0};
use vstd::prelude::*;

use crate::{
    in_rule, lemma_boundaries_unique, lemma_mod_flip, lemma_mod_small, lemma_row_major_index,
    zero_cells, Grid, GridModel, ALIVE,
};

verus! {

/// Relies on rand::random::<bool>: one independent uniformly random draw per
/// call; nothing is promised of the value.
#[verifier::external_body]
fn random_bool() -> bool {
    rand::random()
}

fn contains_u32(v: &Vec<u32>, t: u32) -> (b: bool)
    ensures
        b == in_rule(v@, t as int),
{
    let mut i: usize = 0;
    let mut found: bool = false;
    while i < v.len()
        invariant
            i <= v@.len(),
            found == exists|j: int| 0 <= j < i && v@[j] == t,
        decreases v@.len() - i,
    {
        if v[i] == t {
            found = true;
        }
        i = i + 1;
    }
    found
}

/// Position `i` of a grid `nw` cells wide lies before the copy mark
/// `(done_rows, done_cols)`, both counted from the border offset `b`.
spec fn before_mark(i: int, nw: int, b: int, done_rows: int, done_cols: int) -> bool {
    ||| i / nw - b < done_rows
    ||| (i / nw - b == done_rows && i % nw - b < done_cols)
}

/// The prefix of the copy that `recenter_pattern` has already performed:
/// every position of `cur` inside the target rectangle that lies before the
/// copy mark already holds its final value; every other position still
/// holds 0.
spec fn copied_prefix(
    cur: Seq<u8>,
    tgt: Seq<u8>,
    nw: int,
    b: int,
    pw: int,
    done_rows: int,
    done_cols: int,
) -> bool {
    &&& cur.len() == tgt.len()
    &&& forall|i: int|
        0 <= i < cur.len() ==> cur[i] == (if b <= i % nw < b + pw && b <= i / nw && before_mark(
            i,
            nw,
            b,
            done_rows,
            done_cols,
        ) {
            tgt[i]
        } else {
            0u8
        })
}

/// A toroidal grid of at least 5 by 5 cells under the classic rule
/// `S23/B3`, holding exactly one 2-by-2 block of living cells with its
/// upper-left corner at column 1, row 1.
pub open spec fn is_block_grid(m: GridModel) -> bool {
    &&& m.wf()
    &&& m.toroidal
    &&& m.width >= 5
    &&& m.height >= 5
    &&& m.survival == seq![2u32, 3u32]
    &&& m.birth == seq![3u32]
    &&& forall|i: int|
        0 <= i < m.cells.len() ==> m.cells[i] == (if 1 <= i % m.width as int <= 2 && 1 <= i
            / m.width as int <= 2 {
            ALIVE
        } else {
            0u8
        })
}

proof fn lemma_block_alive(m: GridModel, v: int, u: int)
    requires
        is_block_grid(m),
        -1 <= v <= m.width,
        -1 <= u <= m.height,
    ensures
        m.alive(v, u) == (1 <= v <= 2 && 1 <= u <= 2),
{
    let w = m.width as int;
    let h = m.height as int;
    if v == -1 {
        lemma_mod_flip(0, w);
        lemma_mod_small(0, w);
    } else if v == w {
        lemma_mod_self_0(w);
    } else {
        lemma_mod_small(v, w);
    }
    if u == -1 {
        lemma_mod_flip(0, h);
        lemma_mod_small(0, h);
    } else if u == h {
        lemma_mod_self_0(h);
    } else {
        lemma_mod_small(u, h);
    }
    lemma_row_major_index(v % w, u % h, w, h);
}

/// Law (still-life invariance): a 2-by-2 live block on a toroidal grid of
/// size at least 5 by 5 under the rule `S23/B3` is unchanged by one
/// generation step.
pub proof fn lemma_block_still_life(m: GridModel)
    requires
        is_block_grid(m),
    ensures
        m.step() == m,
{
    let w = m.width as int;
    let h = m.height as int;
    assert forall|i: int| 0 <= i < m.cells.len() implies m.step().cells[i] == m.cells[i] by {
        lemma_mod_bound(i, w);
        lemma_fundamental_div_mod(i, w);
        let x = i % w;
        let y = i / w;
        assert(y < h) by (nonlinear_arith)
            requires
                i == w * y + x,
                0 <= x,
                i < w * h,
                0 < w,
        ;
        lemma_block_alive(m, x - 1, y - 1);
        lemma_block_alive(m, x, y - 1);
        lemma_block_alive(m, x + 1, y - 1);
        lemma_block_alive(m, x - 1, y);
        lemma_block_alive(m, x, y);
        lemma_block_alive(m, x + 1, y);
        lemma_block_alive(m, x - 1, y + 1);
        lemma_block_alive(m, x, y + 1);
        lemma_block_alive(m, x + 1, y + 1);
        if 1 <= x <= 2 && 1 <= y <= 2 {
            assert(m.neighbor_count_at(x, y) == 3);
            assert(in_rule(m.survival, 3)) by {
                assert(m.survival[1] == 3);
            }
            assert(m.step_cell(x, y) == ALIVE);
        } else {
            assert(!in_rule(m.birth, m.neighbor_count_at(x, y))) by {
                if in_rule(m.birth, m.neighbor_count_at(x, y)) {
                    let t = choose|t: int|
                        0 <= t < m.birth.len() && m.birth[t] == m.neighbor_count_at(x, y);
                    assert(m.neighbor_count_at(x, y) == 3);
                }
            }
            assert(m.step_cell(x, y) == 0);
        }
    }
    assert(m.step().cells =~= m.cells);
    assert(m.step() =~= m);
}

/// Law: one generation of a resizable grid holding a pattern with bounding
/// box `pattern_width()` by `pattern_height()` yields a grid of exactly that
/// box plus the stepper's one-cell border on every side: the new dimensions
/// are `pattern_width() + 2` by `pattern_height() + 2`.
pub proof fn lemma_bounded_step_dims(m: GridModel)
    requires
        m.wf(),
        !m.toroidal,
        m.has_live(),
    ensures
        m.recentered(1).step().width == m.pattern_width() + 2,
        m.recentered(1).step().height == m.pattern_height() + 2,
{
    crate::lemma_boundaries_exist(m);
}

impl Grid {
    /// Reads the cell at coordinates at most one step outside the extent,
    /// as the neighbor sweep does.
    pub(crate) fn cell_ext(&self, x: i128, y: i128) -> (r: u8)
        requires
            self@.wf(),
            -1 <= x <= self@.width,
            -1 <= y <= self@.height,
        ensures
            r == self@.cell(x as int, y as int),
    {
        if self.width == 0 || self.height == 0 {
            return 0;
        }
        if self.toroidal {
            let xr: usize = if x < 0 {
                proof {
                    lemma_mod_flip(0, self@.width as int);
                    lemma_mod_small(0, self@.width as int);
                }
                self.width - 1
            } else if x >= self.width as i128 {
                proof {
                    lemma_mod_self_0(self@.width as int);
                }
                0
            } else {
                proof {
                    lemma_mod_small(x as int, self@.width as int);
                }
                x as usize
            };
            let yr: usize = if y < 0 {
                proof {
                    lemma_mod_flip(0, self@.height as int);
                    lemma_mod_small(0, self@.height as int);
                }
                self.height - 1
            } else if y >= self.height as i128 {
                proof {
                    lemma_mod_self_0(self@.height as int);
                }
                0
            } else {
                proof {
                    lemma_mod_small(y as int, self@.height as int);
                }
                y as usize
            };
            let n: usize = self.cells.len();
            proof {
                lemma_row_major_index(
                    xr as int,
                    yr as int,
                    self@.width as int,
                    self@.height as int,
                );
            }
            self.cells[yr * self.width + xr]
        } else {
            if x < 0 || y < 0 || x >= self.width as i128 || y >= self.height as i128 {
                0
            } else {
                self.cell_at_xy(x as usize, y as usize)
            }
        }
    }

    /// Counts the living Moore neighbors of the in-range cell (`x`, `y`).
    fn neighbor_count_xy(&self, x: usize, y: usize) -> (r: u8)
        requires
            self@.wf(),
            x < self@.width,
            y < self@.height,
        ensures
            r == self@.neighbor_count_at(x as int, y as int),
            r <= 8,
    {
        let xi: i128 = x as i128;
        let yi: i128 = y as i128;
        let mut count: u8 = 0;
        if self.cell_ext(xi - 1, yi - 1) == ALIVE {
            count = count + 1;
        }
        if self.cell_ext(xi, yi - 1) == ALIVE {
            count = count + 1;
        }
        if self.cell_ext(xi + 1, yi - 1) == ALIVE {
            count = count + 1;
        }
        if self.cell_ext(xi - 1, yi) == ALIVE {
            count = count + 1;
        }
        if self.cell_ext(xi + 1, yi) == ALIVE {
            count = count + 1;
        }
        if self.cell_ext(xi - 1, yi + 1) == ALIVE {
            count = count + 1;
        }
        if self.cell_ext(xi, yi + 1) == ALIVE {
            count = count + 1;
        }
        if self.cell_ext(xi + 1, yi + 1) == ALIVE {
            count = count + 1;
        }
        count
    }

    /// True when the rule keeps or makes the cell alive, given its current
    /// state and its neighbor count.
    fn rule_matches(&self, was_alive: bool, n: u8) -> (b: bool)
        ensures
            b == self@.rule_lives(was_alive, n as int),
    {
        if was_alive {
            contains_u32(&self.survival, n as u32)
        } else {
            contains_u32(&self.birth, n as u32)
        }
    }

    /// Computes the cells of the next generation, read against `self`.
    fn step_cells(&self) -> (r: Vec<u8>)
        requires
            self@.wf(),
        ensures
            r@ == self@.step().cells,
    {
        let mut r: Vec<u8> = Vec::new();
        if self.width == 0 || self.height == 0 {
            proof {
                assert(self@.width * self@.height == 0) by (nonlinear_arith)
                    requires
                        self@.width == 0 || self@.height == 0,
                ;
                assert(r@ =~= self@.step().cells);
            }
            return r;
        }
        let n: usize = self.cells.len();
        let mut i: usize = 0;
        while i < n
            invariant
                self@.wf(),
                0 < self@.width,
                0 < self@.height,
                n == self@.area(),
                i <= n,
                r@.len() == i,
                forall|j: int| 0 <= j < i ==> r@[j] == self@.step().cells[j],
            decreases n - i,
        {
            let x: usize = i % self.width;
            let y: usize = i / self.width;
            proof {
                lemma_mod_bound(i as int, self@.width as int);
                lemma_fundamental_div_mod(i as int, self@.width as int);
                assert(y < self@.height) by (nonlinear_arith)
                    requires
                        i as int == self@.width as int * (y as int) + (x as int),
                        0 <= x as int,
                        (i as int) < (self@.width as int) * (self@.height as int),
                        0 < self@.width,
                ;
            }
            let nc: u8 = self.neighbor_count_xy(x, y);
            let cur: u8 = self.cell_at_xy(x, y);
            let next: u8 = if self.rule_matches(cur == ALIVE, nc) {
                ALIVE
            } else {
                0
            };
            r.push(next);
            i = i + 1;
        }
        assert(r@ =~= self@.step().cells);
        r
    }

    /// Randomizes the current `Grid` by drawing an independent random state
    /// for each cell. Everything but the cells is left unchanged, and every
    /// cell ends up either alive or plainly dead.
    pub fn randomize(&mut self)
        requires
            old(self)@.wf(),
        ensures
            final(self)@.wf(),
            final(self)@ == (GridModel { cells: final(self)@.cells, ..old(self)@ }),
            final(self)@.cells.len() == old(self)@.cells.len(),
            forall|i: int|
                0 <= i < final(self)@.cells.len() ==> (final(self)@.cells[i] == ALIVE
                    || final(self)@.cells[i] == 0),
    {
        let n: usize = self.cells.len();
        let mut i: usize = 0;
        while i < n
            invariant
                old(self)@.wf(),
                self@.wf(),
                self@ == (GridModel { cells: self@.cells, ..old(self)@ }),
                self@.cells.len() == n,
                i <= n,
                forall|j: int| 0 <= j < i ==> self@.cells[j] == ALIVE || self@.cells[j] == 0,
            decreases n - i,
        {
            let state: u8 = if random_bool() {
                ALIVE
            } else {
                0
            };
            self.cells[i] = state;
            i = i + 1;
        }
    }

    /// Relocates the pattern of living cells so that its bounding box sits
    /// at `(border_width, border_width)` of a freshly sized grid: the
    /// bounding box plus a dead border of `border_width` cells on every
    /// side. A grid with no living cell is left unchanged.
    pub fn recenter_pattern(&mut self, border_width: usize)
        requires
            old(self)@.wf(),
            old(self)@.has_live() ==> (old(self)@.width + 2 * border_width) * (old(self)@.height
                + 2 * border_width) <= usize::MAX,
        ensures
            final(self)@.wf(),
            final(self)@ == old(self)@.recentered(border_width as int),
    {
        let (min_x, max_x, min_y, max_y) = self.compute_pattern_boundaries();
        if min_x.is_none() || max_x.is_none() || min_y.is_none() || max_y.is_none() {
            return ;
        }
        let a: usize = min_x.unwrap();
        let b: usize = max_x.unwrap();
        let c: usize = min_y.unwrap();
        let d: usize = max_y.unwrap();
        proof {
            lemma_boundaries_unique(self@, a as int);
            lemma_boundaries_unique(self@, b as int);
            lemma_boundaries_unique(self@, c as int);
            lemma_boundaries_unique(self@, d as int);
        }
        let pw: usize = b - a + 1;
        let ph: usize = d - c + 1;
        proof {
            assert((self@.width + 2 * border_width) <= (self@.width + 2 * border_width) * (
            self@.height + 2 * border_width)) by (nonlinear_arith)
                requires
                    self@.height >= 1,
                    self@.width >= 0,
                    border_width >= 0,
            ;
            assert((self@.height + 2 * border_width) <= (self@.width + 2 * border_width) * (
            self@.height + 2 * border_width)) by (nonlinear_arith)
                requires
                    self@.height >= 0,
                    self@.width >= 1,
                    border_width >= 0,
            ;
        }
        let bw2: usize = 2 * border_width;
        let nw: usize = pw + bw2;
        let nh: usize = ph + bw2;
        proof {
            assert((nw as int) * (nh as int) <= ((self@.width + 2 * border_width) as int) * ((
            self@.height + 2 * border_width) as int)) by (nonlinear_arith)
                requires
                    0 < nw <= self@.width + 2 * border_width,
                    0 < nh <= self@.height + 2 * border_width,
            ;
        }
        let total: usize = nw * nh;
        let mut newc: Vec<u8> = zero_cells(total);
        let ghost tgt = self@.recentered(border_width as int);
        proof {
            assert(tgt.cells.len() == total);
            assert(copied_prefix(
                newc@,
                tgt.cells,
                nw as int,
                border_width as int,
                pw as int,
                0,
                0,
            ));
        }
        let mut yy: usize = 0;
        while yy < ph
            invariant
                self@.wf(),
                self@.is_min_live_col(a as int),
                self@.is_max_live_col(b as int),
                self@.is_min_live_row(c as int),
                self@.is_max_live_row(d as int),
                self@.has_live(),
                pw == b - a + 1,
                ph == d - c + 1,
                a + pw <= self@.width,
                c + ph <= self@.height,
                nw == pw + 2 * border_width,
                nh == ph + 2 * border_width,
                total == nw * nh,
                newc@.len() == total,
                tgt == self@.recentered(border_width as int),
                tgt.cells.len() == total,
                yy <= ph,
                copied_prefix(
                    newc@,
                    tgt.cells,
                    nw as int,
                    border_width as int,
                    pw as int,
                    yy as int,
                    0,
                ),
            decreases ph - yy,
        {
            let mut xx: usize = 0;
            while xx < pw
                invariant
                    self@.wf(),
                    self@.is_min_live_col(a as int),
                    self@.is_max_live_col(b as int),
                    self@.is_min_live_row(c as int),
                    self@.is_max_live_row(d as int),
                    self@.has_live(),
                    pw == b - a + 1,
                    ph == d - c + 1,
                    a + pw <= self@.width,
                    c + ph <= self@.height,
                    nw == pw + 2 * border_width,
                    nh == ph + 2 * border_width,
                    total == nw * nh,
                    newc@.len() == total,
                    tgt == self@.recentered(border_width as int),
                    tgt.cells.len() == total,
                    yy < ph,
                    xx <= pw,
                    copied_prefix(
                        newc@,
                        tgt.cells,
                        nw as int,
                        border_width as int,
                        pw as int,
                        yy as int,
                        xx as int,
                    ),
                decreases pw - xx,
            {
                let n_old: usize = self.cells.len();
                proof {
                    lemma_row_major_index(
                        (a + xx) as int,
                        (c + yy) as int,
                        self@.width as int,
                        self@.height as int,
                    );
                    lemma_row_major_index(
                        (border_width + xx) as int,
                        (border_width + yy) as int,
                        nw as int,
                        nh as int,
                    );
                }
                let v: u8 = self.cells[(c + yy) * self.width + (a + xx)];
                let idxn: usize = (border_width + yy) * nw + (border_width + xx);
                newc[idxn] = v;
                proof {
                    lemma_boundaries_unique(self@, a as int);
                    lemma_boundaries_unique(self@, b as int);
                    lemma_boundaries_unique(self@, c as int);
                    lemma_boundaries_unique(self@, d as int);
                    assert(tgt.cells[idxn as int] == v);
                    assert forall|i: int| 0 <= i < total && i != idxn implies before_mark(
                        i,
                        nw as int,
                        border_width as int,
                        yy as int,
                        xx as int + 1,
                    ) == before_mark(
                        i,
                        nw as int,
                        border_width as int,
                        yy as int,
                        xx as int,
                    ) by {
                        lemma_fundamental_div_mod(i, nw as int);
                        if i / (nw as int) == yy as int + border_width as int && i % (nw as int)
                            == xx as int + border_width as int {
                            assert(i == (nw as int) * (yy as int + border_width as int) + (
                            xx as int + border_width as int));
                            assert(i == idxn as int) by (nonlinear_arith)
                                requires
                                    i == (nw as int) * (yy as int + border_width as int) + (
                                    xx as int + border_width as int),
                                    idxn as int == (border_width as int + yy as int) * (nw as int)
                                        + (border_width as int + xx as int),
                            ;
                        }
                    }
                    assert(copied_prefix(
                        newc@,
                        tgt.cells,
                        nw as int,
                        border_width as int,
                        pw as int,
                        yy as int,
                        xx as int + 1,
                    ));
                }
                xx = xx + 1;
            }
            proof {
                assert(copied_prefix(
                    newc@,
                    tgt.cells,
                    nw as int,
                    border_width as int,
                    pw as int,
                    yy as int + 1,
                    0,
                ));
            }
            yy = yy + 1;
        }
        self.width = nw;
        self.height = nh;
        self.cells = newc;
        proof {
            assert(self@.cells =~= tgt.cells);
            assert(self@ =~= tgt);
        }
    }

    /// Computes the next generation of the current `Grid` and updates it.
    ///
    /// A toroidal grid keeps its dimensions and every cell takes its next
    /// state under the rule. A resizable grid is first recentered around its
    /// pattern with a one-cell border, then stepped the same way.
    pub fn next_gen(&mut self)
        requires
            old(self)@.wf(),
            !old(self)@.toroidal ==> (old(self)@.width + 2) * (old(self)@.height + 2)
                <= usize::MAX,
        ensures
            final(self)@.wf(),
            old(self)@.toroidal ==> final(self)@ == old(self)@.step(),
            !old(self)@.toroidal ==> final(self)@ == old(self)@.recentered(1).step(),
    {
        if !self.is_toroidal() {
            self.recenter_pattern(1);
        }
        let newc: Vec<u8> = self.step_cells();
        self.cells = newc;
    }
}

} // verus!
