//! Life-family cellular automata: a rectangular grid of binary cells that
//! evolves generation by generation under a configurable survival/birth rule.
//!
//! A grid is either toroidal (out-of-range coordinates wrap around both axes)
//! or resizable (out-of-range coordinates read as dead; the grid regrows
//! around its pattern on every generation).
//!
//! Cells are stored row-major as bytes: a cell is alive exactly when its byte
//! is 255. Coordinates are `(x, y)` where `x` indexes columns (width) and `y`
//! indexes rows (height), so the cell `(x, y)` lives at index `y * width + x`.

use vstd::arithmetic::div_mod::{
    lemma_fundamental_div_mod, lemma_fundamental_div_mod_converse, lemma_mod_bound,
    lemma_mod_self_0,
};
use vstd::prelude::*;

pub mod analysis;
pub mod error;
pub mod file;
pub mod processing;
pub mod view;
pub mod vulkan;

use crate::error::GridErrorKind;

verus! {

/// The byte that marks a living cell; every other byte counts as dead.
pub const ALIVE: u8 = 255;

/// True when the neighbor count `n` belongs to the rule list `r`.
pub open spec fn in_rule(r: Seq<u32>, n: int) -> bool {
    exists|i: int| 0 <= i < r.len() && r[i] == n
}

/// The mathematical model of a [`Grid`]: the same data with sequences in
/// place of vectors and unbounded integers in place of machine integers.
#[verifier::ext_equal]
pub ghost struct GridModel {
    pub format: Seq<char>,
    pub toroidal: bool,
    pub survival: Seq<u32>,
    pub birth: Seq<u32>,
    pub width: nat,
    pub height: nat,
    pub cells: Seq<u8>,
}

impl GridModel {
    /// The number of cells the grid stores.
    pub open spec fn area(self) -> nat {
        self.width * self.height
    }

    /// Every survival and birth condition is a neighbor count, so at most 8.
    pub open spec fn rules_wf(self) -> bool {
        &&& forall|i: int| 0 <= i < self.survival.len() ==> #[trigger] self.survival[i] <= 8
        &&& forall|i: int| 0 <= i < self.birth.len() ==> #[trigger] self.birth[i] <= 8
    }

    /// The grid invariant: storage matches the dimensions and the rule lists
    /// hold neighbor counts only.
    pub open spec fn wf(self) -> bool {
        &&& self.cells.len() == self.area()
        &&& self.rules_wf()
    }

    /// The state of the cell at `(x, y)`, resolved by the topology: a grid
    /// with no cells reads as dead everywhere; a toroidal grid wraps both
    /// axes by floor-modulo; a resizable grid reads as dead out of range.
    pub open spec fn cell(self, x: int, y: int) -> u8 {
        if self.width == 0 || self.height == 0 {
            0
        } else if self.toroidal {
            self.cells[(y % self.height as int) * self.width as int + (x % self.width as int)]
        } else if 0 <= x < self.width && 0 <= y < self.height {
            self.cells[y * self.width as int + x]
        } else {
            0
        }
    }

    /// True when the cell at `(x, y)` is alive.
    pub open spec fn alive(self, x: int, y: int) -> bool {
        self.cell(x, y) == ALIVE
    }

    /// 1 when the cell at `(x, y)` is alive, else 0.
    pub open spec fn live1(self, x: int, y: int) -> int {
        if self.alive(x, y) {
            1
        } else {
            0
        }
    }

    /// How many of the 8 Moore neighbors of `(x, y)` are alive, honoring the
    /// topology through [`GridModel::cell`].
    pub open spec fn neighbor_count_at(self, x: int, y: int) -> int {
        self.live1(x - 1, y - 1) + self.live1(x, y - 1) + self.live1(x + 1, y - 1) + self.live1(
            x - 1,
            y,
        ) + self.live1(x + 1, y) + self.live1(x - 1, y + 1) + self.live1(x, y + 1) + self.live1(
            x + 1,
            y + 1,
        )
    }

    /// The rule of the automaton: a living cell survives when its neighbor
    /// count is a survival condition; a dead cell is born when its neighbor
    /// count is a birth condition.
    pub open spec fn rule_lives(self, was_alive: bool, n: int) -> bool {
        if was_alive {
            in_rule(self.survival, n)
        } else {
            in_rule(self.birth, n)
        }
    }

    /// The state the cell at `(x, y)` takes in the next generation.
    pub open spec fn step_cell(self, x: int, y: int) -> u8 {
        if self.rule_lives(self.alive(x, y), self.neighbor_count_at(x, y)) {
            ALIVE
        } else {
            0
        }
    }

    /// One full generation: every cell of the extent is replaced by its next
    /// state, all computed against `self`. Dimensions do not change.
    pub open spec fn step(self) -> GridModel {
        GridModel {
            cells: Seq::new(
                self.area(),
                |i: int| self.step_cell(i % self.width as int, i / self.width as int),
            ),
            ..self
        }
    }

    /// True when some cell of column `x` is alive.
    pub open spec fn live_in_col(self, x: int) -> bool {
        exists|y: int| 0 <= y < self.height && self.alive(x, y)
    }

    /// True when some cell of row `y` is alive.
    pub open spec fn live_in_row(self, y: int) -> bool {
        exists|x: int| 0 <= x < self.width && self.alive(x, y)
    }

    /// True when the grid holds at least one living cell.
    pub open spec fn has_live(self) -> bool {
        exists|x: int, y: int|
            0 <= x < self.width && 0 <= y < self.height && self.alive(x, y)
    }

    /// `m` is the leftmost column holding a living cell.
    pub open spec fn is_min_live_col(self, m: int) -> bool {
        &&& 0 <= m < self.width
        &&& self.live_in_col(m)
        &&& forall|x: int| 0 <= x < m ==> !self.live_in_col(x)
    }

    /// `m` is the rightmost column holding a living cell.
    pub open spec fn is_max_live_col(self, m: int) -> bool {
        &&& 0 <= m < self.width
        &&& self.live_in_col(m)
        &&& forall|x: int| m < x < self.width ==> !self.live_in_col(x)
    }

    /// `m` is the topmost row holding a living cell.
    pub open spec fn is_min_live_row(self, m: int) -> bool {
        &&& 0 <= m < self.height
        &&& self.live_in_row(m)
        &&& forall|y: int| 0 <= y < m ==> !self.live_in_row(y)
    }

    /// `m` is the bottommost row holding a living cell.
    pub open spec fn is_max_live_row(self, m: int) -> bool {
        &&& 0 <= m < self.height
        &&& self.live_in_row(m)
        &&& forall|y: int| m < y < self.height ==> !self.live_in_row(y)
    }

    /// The leftmost column holding a living cell (meaningful only when
    /// `has_live()`).
    pub open spec fn min_live_col(self) -> int {
        choose|m: int| self.is_min_live_col(m)
    }

    /// The rightmost column holding a living cell.
    pub open spec fn max_live_col(self) -> int {
        choose|m: int| self.is_max_live_col(m)
    }

    /// The topmost row holding a living cell.
    pub open spec fn min_live_row(self) -> int {
        choose|m: int| self.is_min_live_row(m)
    }

    /// The bottommost row holding a living cell.
    pub open spec fn max_live_row(self) -> int {
        choose|m: int| self.is_max_live_row(m)
    }

    /// The width of the bounding box of the living cells.
    pub open spec fn pattern_width(self) -> int {
        self.max_live_col() - self.min_live_col() + 1
    }

    /// The height of the bounding box of the living cells.
    pub open spec fn pattern_height(self) -> int {
        self.max_live_row() - self.min_live_row() + 1
    }

    /// The grid recentered around its pattern: the bounding box of the
    /// living cells is copied so that its corner lands at `(b, b)`, inside a
    /// fresh all-dead grid of the bounding box's size plus a border of `b` on
    /// every side. A grid with no living cell is left as it is.
    pub open spec fn recentered(self, b: int) -> GridModel {
        if !self.has_live() {
            self
        } else {
            let minc = self.min_live_col();
            let minr = self.min_live_row();
            let pw = self.pattern_width();
            let ph = self.pattern_height();
            let nw = pw + 2 * b;
            let nh = ph + 2 * b;
            GridModel {
                width: nw as nat,
                height: nh as nat,
                cells: Seq::new(
                    (nw * nh) as nat,
                    |i: int|
                        {
                            let x = i % nw;
                            let y = i / nw;
                            if b <= x < b + pw && b <= y < b + ph {
                                self.cells[(y - b + minr) * self.width as int + (x - b + minc)]
                            } else {
                                0u8
                            }
                        },
                ),
                ..self
            }
        }
    }
}

/// A grid holds a living cell exactly when some column does, and exactly
/// when some row does.
pub proof fn lemma_has_live_lines(m: GridModel)
    ensures
        m.has_live() == (exists|x: int| 0 <= x < m.width && m.live_in_col(x)),
        m.has_live() == (exists|y: int| 0 <= y < m.height && m.live_in_row(y)),
{
    if m.has_live() {
        let (x, y) = choose|x: int, y: int|
            0 <= x < m.width && 0 <= y < m.height && m.alive(x, y);
        assert(m.live_in_col(x));
        assert(m.live_in_row(y));
    }
    if exists|x: int| 0 <= x < m.width && m.live_in_col(x) {
        let x = choose|x: int| 0 <= x < m.width && m.live_in_col(x);
        let y = choose|y: int| 0 <= y < m.height && m.alive(x, y);
        assert(m.has_live());
    }
    if exists|y: int| 0 <= y < m.height && m.live_in_row(y) {
        let y = choose|y: int| 0 <= y < m.height && m.live_in_row(y);
        let x = choose|x: int| 0 <= x < m.width && m.alive(x, y);
        assert(m.has_live());
    }
}

proof fn lemma_min_col_exists(m: GridModel, x: int)
    requires
        0 <= x < m.width,
        m.live_in_col(x),
    ensures
        exists|v: int| m.is_min_live_col(v),
    decreases x,
{
    if forall|xx: int| 0 <= xx < x ==> !m.live_in_col(xx) {
        assert(m.is_min_live_col(x));
    } else {
        let xx = choose|xx: int| 0 <= xx < x && m.live_in_col(xx);
        lemma_min_col_exists(m, xx);
    }
}

proof fn lemma_max_col_exists(m: GridModel, x: int)
    requires
        0 <= x < m.width,
        m.live_in_col(x),
    ensures
        exists|v: int| m.is_max_live_col(v),
    decreases m.width - x,
{
    if forall|xx: int| x < xx < m.width ==> !m.live_in_col(xx) {
        assert(m.is_max_live_col(x));
    } else {
        let xx = choose|xx: int| x < xx < m.width && m.live_in_col(xx);
        lemma_max_col_exists(m, xx);
    }
}

proof fn lemma_min_row_exists(m: GridModel, y: int)
    requires
        0 <= y < m.height,
        m.live_in_row(y),
    ensures
        exists|v: int| m.is_min_live_row(v),
    decreases y,
{
    if forall|yy: int| 0 <= yy < y ==> !m.live_in_row(yy) {
        assert(m.is_min_live_row(y));
    } else {
        let yy = choose|yy: int| 0 <= yy < y && m.live_in_row(yy);
        lemma_min_row_exists(m, yy);
    }
}

proof fn lemma_max_row_exists(m: GridModel, y: int)
    requires
        0 <= y < m.height,
        m.live_in_row(y),
    ensures
        exists|v: int| m.is_max_live_row(v),
    decreases m.height - y,
{
    if forall|yy: int| y < yy < m.height ==> !m.live_in_row(yy) {
        assert(m.is_max_live_row(y));
    } else {
        let yy = choose|yy: int| y < yy < m.height && m.live_in_row(yy);
        lemma_max_row_exists(m, yy);
    }
}

/// A grid with a living cell has all four bounds of its pattern's bounding
/// box, and the `choose`-based bound functions pick them.
pub proof fn lemma_boundaries_exist(m: GridModel)
    requires
        m.has_live(),
    ensures
        m.is_min_live_col(m.min_live_col()),
        m.is_max_live_col(m.max_live_col()),
        m.is_min_live_row(m.min_live_row()),
        m.is_max_live_row(m.max_live_row()),
{
    let (x, y) = choose|x: int, y: int|
        0 <= x < m.width && 0 <= y < m.height && m.alive(x, y);
    assert(m.live_in_col(x));
    assert(m.live_in_row(y));
    lemma_min_col_exists(m, x);
    lemma_max_col_exists(m, x);
    lemma_min_row_exists(m, y);
    lemma_max_row_exists(m, y);
}

/// The four bounding-box predicates each pin their value down, so the
/// corresponding `choose` forms equal any witness.
pub proof fn lemma_boundaries_unique(m: GridModel, v: int)
    ensures
        m.is_min_live_col(v) ==> m.min_live_col() == v,
        m.is_max_live_col(v) ==> m.max_live_col() == v,
        m.is_min_live_row(v) ==> m.min_live_row() == v,
        m.is_max_live_row(v) ==> m.max_live_row() == v,
{
    if m.is_min_live_col(v) {
        assert(m.is_min_live_col(m.min_live_col()));
    }
    if m.is_max_live_col(v) {
        assert(m.is_max_live_col(m.max_live_col()));
    }
    if m.is_min_live_row(v) {
        assert(m.is_min_live_row(m.min_live_row()));
    }
    if m.is_max_live_row(v) {
        assert(m.is_max_live_row(m.max_live_row()));
    }
}

/// The grid of a life cellular automaton.
///
/// The cells are stored as a flat row-major `Vec<u8>`. When the grid is
/// toroidal its size is constant; otherwise it is resized around its pattern
/// when computing the next generation.
///
/// The automaton's rules are stored as the two lists `survival` and `birth`
/// of neighbor counts.
#[derive(Debug, Clone)]
pub struct Grid {
    pub format: String,
    pub toroidal: bool,
    pub survival: Vec<u32>,
    pub birth: Vec<u32>,
    pub width: usize,
    pub height: usize,
    pub cells: Vec<u8>,
}

impl View for Grid {
    type V = GridModel;

    open spec fn view(&self) -> GridModel {
        GridModel {
            format: self.format@,
            toroidal: self.toroidal,
            survival: self.survival@,
            birth: self.birth@,
            width: self.width as nat,
            height: self.height as nat,
            cells: self.cells@,
        }
    }
}

/// The grid drawn as text: each grid row becomes one line of `*` (alive)
/// and `.` (dead) bytes, ended by a newline.
pub open spec fn spec_ascii(m: GridModel) -> Seq<u8> {
    Seq::new(
        m.height * (m.width + 1),
        |k: int|
            {
                let x = k % (m.width as int + 1);
                let y = k / (m.width as int + 1);
                if x == m.width as int {
                    10u8
                } else if m.cells[y * m.width as int + x] == ALIVE {
                    42u8
                } else {
                    46u8
                }
            },
    )
}

/// Law: writing a state into an in-range cell and reading the same
/// coordinates back yields exactly that state, on either topology.
pub proof fn lemma_set_then_get(m: GridModel, x: int, y: int, s: u8)
    requires
        m.wf(),
        0 <= x < m.width,
        0 <= y < m.height,
    ensures
        (GridModel { cells: m.cells.update(y * m.width as int + x, s), ..m }).cell(x, y) == s,
{
    lemma_row_major_index(x, y, m.width as int, m.height as int);
    if m.toroidal {
        lemma_mod_small(x, m.width as int);
        lemma_mod_small(y, m.height as int);
    }
}

/// Law: on a toroidal grid the coordinates just outside an edge read the
/// cells of the opposite edge, on both axes.
pub proof fn lemma_toroidal_wraparound(m: GridModel, x: int, y: int)
    requires
        m.wf(),
        m.toroidal,
        0 <= x < m.width,
        0 <= y < m.height,
    ensures
        m.cell(x, -1) == m.cell(x, m.height - 1),
        m.cell(x, m.height as int) == m.cell(x, 0),
        m.cell(-1, y) == m.cell(m.width - 1, y),
        m.cell(m.width as int, y) == m.cell(0, y),
{
    lemma_mod_flip(0, m.width as int);
    lemma_mod_flip(0, m.height as int);
    lemma_mod_small(0, m.width as int);
    lemma_mod_small(0, m.height as int);
    lemma_mod_self_0(m.width as int);
    lemma_mod_self_0(m.height as int);
    lemma_mod_small(x, m.width as int);
    lemma_mod_small(y, m.height as int);
    lemma_mod_small(m.width - 1, m.width as int);
    lemma_mod_small(m.height - 1, m.height as int);
}

/// Law: on a resizable grid every out-of-range read is dead, and reading is
/// total: no coordinate raises an error.
pub proof fn lemma_bounded_out_of_range(m: GridModel, x: int, y: int)
    requires
        !m.toroidal,
        !(0 <= x < m.width && 0 <= y < m.height),
    ensures
        m.cell(x, y) == 0,
{
}

/// Euclidean remainder of a negative number, written through the remainder
/// of its non-negative mirror image.
pub proof fn lemma_mod_flip(a: int, w: int)
    requires
        w > 0,
        a >= 0,
    ensures
        (-a - 1) % w == w - 1 - (a % w),
{
    let q = a / w;
    let r = a % w;
    lemma_fundamental_div_mod(a, w);
    lemma_mod_bound(a, w);
    assert(-a - 1 == (-q - 1) * w + (w - 1 - r)) by (nonlinear_arith)
        requires
            a == w * q + r,
    ;
    lemma_fundamental_div_mod_converse(-a - 1, w, -q - 1, w - 1 - r);
}

/// A remainder already in range is its own remainder.
pub proof fn lemma_mod_small(a: int, w: int)
    requires
        0 <= a < w,
    ensures
        a % w == a,
{
    lemma_fundamental_div_mod_converse(a, w, 0, a);
}

/// A row-major index built from in-range coordinates is in range.
pub proof fn lemma_row_major_index(x: int, y: int, w: int, h: int)
    requires
        0 <= x < w,
        0 <= y < h,
    ensures
        0 <= y * w + x < w * h,
        (y * w + x) % w == x,
        (y * w + x) / w == y,
{
    assert(0 <= y * w + x < w * h) by (nonlinear_arith)
        requires
            0 <= x < w,
            0 <= y < h,
    ;
    lemma_fundamental_div_mod_converse(y * w + x, w, y, x);
}

pub(crate) fn zero_cells(n: usize) -> (r: Vec<u8>)
    ensures
        r@ == Seq::new(n as nat, |i: int| 0u8),
{
    let mut r: Vec<u8> = Vec::new();
    let mut i: usize = 0;
    while i < n
        invariant
            i <= n,
            r@ =~= Seq::new(i as nat, |j: int| 0u8),
        decreases n - i,
    {
        r.push(0u8);
        i = i + 1;
        assert(r@ =~= Seq::new(i as nat, |j: int| 0u8));
    }
    r
}

impl Grid {
    /// Returns a new `Grid`:
    /// * carrying the file format `frmt`
    /// * toroidal if `trdl` is `true`, resizable otherwise
    /// * with the rules given by `srvl` and `brth`
    /// * whose size is `width` by `height`, every cell dead.
    pub fn new(
        frmt: &String,
        trdl: bool,
        srvl: &Vec<u32>,
        brth: &Vec<u32>,
        width: usize,
        height: usize,
    ) -> (r: Grid)
        requires
            width * height <= usize::MAX,
            forall|i: int| 0 <= i < srvl@.len() ==> #[trigger] srvl@[i] <= 8,
            forall|i: int| 0 <= i < brth@.len() ==> #[trigger] brth@[i] <= 8,
        ensures
            r@ == (GridModel {
                format: frmt@,
                toroidal: trdl,
                survival: srvl@,
                birth: brth@,
                width: width as nat,
                height: height as nat,
                cells: Seq::new((width * height) as nat, |i: int| 0u8),
            }),
            r@.wf(),
    {
        let n: usize = width * height;
        Grid {
            format: frmt.clone(),
            toroidal: trdl,
            survival: srvl.clone(),
            birth: brth.clone(),
            width,
            height,
            cells: zero_cells(n),
        }
    }

    /// Returns a new `Grid` and initializes its cells randomly: every cell
    /// is drawn independently, and ends up either alive or plainly dead.
    pub fn new_random(
        frmt: &String,
        trdl: bool,
        srvl: &Vec<u32>,
        brth: &Vec<u32>,
        width: usize,
        height: usize,
    ) -> (r: Grid)
        requires
            width * height <= usize::MAX,
            forall|i: int| 0 <= i < srvl@.len() ==> #[trigger] srvl@[i] <= 8,
            forall|i: int| 0 <= i < brth@.len() ==> #[trigger] brth@[i] <= 8,
        ensures
            r@.wf(),
            r@.format == frmt@,
            r@.toroidal == trdl,
            r@.survival == srvl@,
            r@.birth == brth@,
            r@.width == width as nat,
            r@.height == height as nat,
            r@.cells.len() == width * height,
            forall|i: int|
                0 <= i < r@.cells.len() ==> (#[trigger] r@.cells[i] == ALIVE || r@.cells[i] == 0),
    {
        let mut new_grid = Grid::new(frmt, trdl, srvl, brth, width, height);
        new_grid.randomize();
        new_grid
    }

    /// Returns the file format used.
    pub fn get_format(&self) -> (r: String)
        ensures
            r@ == self@.format,
    {
        self.format.clone()
    }

    /// Sets a new file format for this `Grid`.
    pub fn set_format(&mut self, frmt: &String)
        ensures
            final(self)@ == (GridModel { format: frmt@, ..old(self)@ }),
    {
        self.format = frmt.clone();
    }

    /// Returns `true` if the grid is toroidal. Otherwise the grid is resizable.
    pub fn is_toroidal(&self) -> (r: bool)
        ensures
            r == self@.toroidal,
    {
        self.toroidal
    }

    /// Returns the survival conditions of the cellular automaton.
    pub fn get_survival(&self) -> (r: Vec<u32>)
        ensures
            r@ == self@.survival,
    {
        self.survival.clone()
    }

    /// Redefines the survival conditions of the cellular automaton.
    pub fn set_survival(&mut self, srvl: &Vec<u32>)
        requires
            forall|i: int| 0 <= i < srvl@.len() ==> #[trigger] srvl@[i] <= 8,
        ensures
            final(self)@ == (GridModel { survival: srvl@, ..old(self)@ }),
    {
        self.survival = srvl.clone();
    }

    /// Returns the birth conditions of the cellular automaton.
    pub fn get_birth(&self) -> (r: Vec<u32>)
        ensures
            r@ == self@.birth,
    {
        self.birth.clone()
    }

    /// Redefines the birth conditions of the cellular automaton.
    pub fn set_birth(&mut self, brth: &Vec<u32>)
        requires
            forall|i: int| 0 <= i < brth@.len() ==> #[trigger] brth@[i] <= 8,
        ensures
            final(self)@ == (GridModel { birth: brth@, ..old(self)@ }),
    {
        self.birth = brth.clone();
    }

    /// Returns the width of the grid.
    pub fn get_width(&self) -> (r: usize)
        ensures
            r == self@.width,
    {
        self.width
    }

    /// Returns the height of the grid.
    pub fn get_height(&self) -> (r: usize)
        ensures
            r == self@.height,
    {
        self.height
    }

    /// Returns the state of the cell at the coordinates (`x`, `y`).
    ///
    /// If the coordinates are out of bounds and the grid is toroidal, each
    /// axis wraps by floor-modulo into range. If they are out of bounds and
    /// the grid is resizable, the cell reads as dead.
    pub fn get_cell_state(&self, x: i64, y: i64) -> (r: u8)
        requires
            self@.wf(),
        ensures
            r == self@.cell(x as int, y as int),
    {
        if self.width == 0 || self.height == 0 {
            return 0;
        }
        let n: usize = self.cells.len();
        if self.toroidal {
            let w: u128 = self.width as u128;
            let h: u128 = self.height as u128;
            let xr: u128 = if x >= 0 {
                (x as u128) % w
            } else {
                proof {
                    lemma_mod_flip(-(x as int) - 1, self@.width as int);
                }
                w - 1 - ((((-(x as i128)) as u128) - 1) % w)
            };
            let yr: u128 = if y >= 0 {
                (y as u128) % h
            } else {
                proof {
                    lemma_mod_flip(-(y as int) - 1, self@.height as int);
                }
                h - 1 - ((((-(y as i128)) as u128) - 1) % h)
            };
            proof {
                lemma_mod_bound(x as int, self@.width as int);
                lemma_mod_bound(y as int, self@.height as int);
                assert(xr == (x as int) % (self@.width as int));
                assert(yr == (y as int) % (self@.height as int));
                lemma_row_major_index(
                    xr as int,
                    yr as int,
                    self@.width as int,
                    self@.height as int,
                );
                assert(yr * w + xr < n);
            }
            let idx: usize = (yr * w + xr) as usize;
            self.cells[idx]
        } else {
            if x < 0 || y < 0 {
                return 0;
            }
            if (x as u128) >= (self.width as u128) || (y as u128) >= (self.height as u128) {
                return 0;
            }
            proof {
                lemma_row_major_index(x as int, y as int, self@.width as int, self@.height as int);
                assert((y as int) * (self@.width as int) + (x as int) < n);
            }
            let idx: usize = (y as usize) * self.width + (x as usize);
            self.cells[idx]
        }
    }

    /// Writes `state` into the cell at the coordinates (`x`, `y`).
    ///
    /// Fails with `GridErrorKind::OutOfBoundCoords` exactly when
    /// `x >= width` or `y >= height`; there is no wraparound on write.
    pub fn set_cell_state(&mut self, x: usize, y: usize, state: u8) -> (r: Result<
        (),
        GridErrorKind,
    >)
        requires
            old(self)@.wf(),
        ensures
            final(self)@.wf(),
            x < old(self)@.width && y < old(self)@.height ==> r == Ok::<(), GridErrorKind>(())
                && final(self)@ == (GridModel {
                cells: old(self)@.cells.update(
                    (y as int) * (old(self)@.width as int) + (x as int),
                    state,
                ),
                ..old(self)@
            }),
            !(x < old(self)@.width && y < old(self)@.height) ==> r == Err::<
                (),
                GridErrorKind,
            >(GridErrorKind::OutOfBoundCoords) && final(self)@ == old(self)@,
    {
        if x >= self.width || y >= self.height {
            Err(GridErrorKind::OutOfBoundCoords)
        } else {
            let n: usize = self.cells.len();
            proof {
                lemma_row_major_index(x as int, y as int, self@.width as int, self@.height as int);
                assert((y as int) * (self@.width as int) + (x as int) < n);
            }
            let idx: usize = y * self.width + x;
            self.cells[idx] = state;
            Ok(())
        }
    }

    /// Reads the cell at coordinates already known to be in range.
    pub(crate) fn cell_at_xy(&self, x: usize, y: usize) -> (r: u8)
        requires
            self@.wf(),
            x < self@.width,
            y < self@.height,
        ensures
            r == self@.cell(x as int, y as int),
    {
        let n: usize = self.cells.len();
        proof {
            lemma_row_major_index(x as int, y as int, self@.width as int, self@.height as int);
            if self@.toroidal {
                lemma_mod_small(x as int, self@.width as int);
                lemma_mod_small(y as int, self@.height as int);
            }
        }
        self.cells[y * self.width + x]
    }

    /// Draws the grid as text: one row of `*` (alive) and `.` (dead) per
    /// grid row, each row ended by a newline.
    pub fn to_ascii(&self) -> (r: Vec<u8>)
        requires
            self@.wf(),
            self@.height * (self@.width + 1) <= usize::MAX,
        ensures
            r@ == spec_ascii(self@),
    {
        if self.height == 0 {
            let r: Vec<u8> = Vec::new();
            proof {
                assert(self@.height * (self@.width + 1) == 0) by (nonlinear_arith)
                    requires
                        self@.height == 0,
                ;
                assert(r@ =~= spec_ascii(self@));
            }
            return r;
        }
        let w: usize = self.width;
        proof {
            assert(self@.width + 1 <= self@.height * (self@.width + 1)) by (nonlinear_arith)
                requires
                    self@.height >= 1,
                    self@.width >= 0,
            ;
        }
        let stride: usize = w + 1;
        let total: usize = self.height * stride;
        let mut r: Vec<u8> = Vec::new();
        let mut i: usize = 0;
        while i < total
            invariant
                self@.wf(),
                w == self@.width,
                stride == w + 1,
                total == self@.height * stride,
                i <= total,
                r@.len() == i,
                forall|k: int| 0 <= k < i ==> r@[k] == spec_ascii(self@)[k],
            decreases total - i,
        {
            let x: usize = i % stride;
            let y: usize = i / stride;
            proof {
                lemma_mod_bound(i as int, stride as int);
                lemma_fundamental_div_mod(i as int, stride as int);
                assert(y < self@.height) by (nonlinear_arith)
                    requires
                        i as int == stride as int * (y as int) + (x as int),
                        0 <= x as int,
                        (i as int) < (self@.height as int) * (stride as int),
                        0 < stride,
                ;
            }
            let b: u8 = if x == w {
                10
            } else {
                if self.cell_at_xy(x, y) == ALIVE {
                    42
                } else {
                    46
                }
            };
            proof {
                if x < w && self@.toroidal {
                    lemma_mod_small(x as int, self@.width as int);
                    lemma_mod_small(y as int, self@.height as int);
                }
                if x < w {
                    lemma_row_major_index(x as int, y as int, w as int, self@.height as int);
                }
            }
            r.push(b);
            i = i + 1;
        }
        proof {
            assert(r@ =~= spec_ascii(self@));
        }
        r
    }

    /// Counts how many of the 8 Moore neighbors of (`x`, `y`) are alive,
    /// honoring the topology exactly as [`Grid::get_cell_state`] does. The
    /// count always lies in `[0, 8]`.
    pub fn neighbor_count(&self, x: i64, y: i64) -> (r: u8)
        requires
            self@.wf(),
            i64::MIN < x < i64::MAX,
            i64::MIN < y < i64::MAX,
        ensures
            r == self@.neighbor_count_at(x as int, y as int),
            r <= 8,
    {
        let mut count: u8 = 0;
        if self.get_cell_state(x - 1, y - 1) == ALIVE {
            count = count + 1;
        }
        if self.get_cell_state(x, y - 1) == ALIVE {
            count = count + 1;
        }
        if self.get_cell_state(x + 1, y - 1) == ALIVE {
            count = count + 1;
        }
        if self.get_cell_state(x - 1, y) == ALIVE {
            count = count + 1;
        }
        if self.get_cell_state(x + 1, y) == ALIVE {
            count = count + 1;
        }
        if self.get_cell_state(x - 1, y + 1) == ALIVE {
            count = count + 1;
        }
        if self.get_cell_state(x, y + 1) == ALIVE {
            count = count + 1;
        }
        if self.get_cell_state(x + 1, y + 1) == ALIVE {
            count = count + 1;
        }
        count
    }
}

} // verus!

