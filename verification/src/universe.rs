use vstd::prelude::*;

use crate::cell::Cell;
use crate::cell::CellReadError;
use crate::cell::Color;

verus! {

/// Width of a standard match grid, in cells.
pub const WIDTH_UNIVERSE: u32 = 32;

/// Height of a standard match grid, in cells.
pub const HEIGHT_UNIVERSE: u32 = 32;

/// How many cells a freshly randomized grid tries to pre-set to `Neutral`.
pub const N_NEUTRAL_BLOCKS: u32 = 100;

/// A position on the grid: column first, then row.
pub type Coords = (usize, usize);

/// Two positions are adjacent when they differ by one step in exactly one
/// axis (4-connectivity: no diagonals, no wraparound).
pub open spec fn adjacent(p: Coords, q: Coords) -> bool {
    ||| (p.0 == q.0 && (p.1 + 1 == q.1 || q.1 + 1 == p.1))
    ||| (p.1 == q.1 && (p.0 + 1 == q.0 || q.0 + 1 == p.0))
}

/// The index of the first frontier entry adjacent to `q`, or the length
/// of the frontier when no entry is.  During a generation step, this
/// entry's claim is the one that wins `q`: every earlier entry has
/// already been processed without reaching `q`.
pub open spec fn first_claimer(s: Seq<(Cell, Coords)>, q: Coords) -> int
    decreases s.len(),
{
    if s.len() == 0 {
        0
    } else if adjacent(s[0].1, q) {
        0
    } else {
        1 + first_claimer(s.drop_first(), q)
    }
}

pub proof fn lemma_first_claimer(s: Seq<(Cell, Coords)>, q: Coords)
    ensures
        0 <= first_claimer(s, q) <= s.len(),
        first_claimer(s, q) < s.len() ==> adjacent(s[first_claimer(s, q)].1, q),
        forall|j: int| 0 <= j < first_claimer(s, q) ==> !adjacent((#[trigger] s[j]).1, q),
        (exists|j: int| 0 <= j < s.len() && adjacent((#[trigger] s[j]).1, q)) ==> first_claimer(
            s,
            q,
        ) < s.len(),
    decreases s.len(),
{
    if s.len() > 0 && !adjacent(s[0].1, q) {
        let rest = s.drop_first();
        lemma_first_claimer(rest, q);
        assert forall|j: int| 0 <= j < first_claimer(s, q) implies !adjacent(
            (#[trigger] s[j]).1,
            q,
        ) by {
            if j > 0 {
                assert(rest[j - 1] == s[j]);
            }
        }
        if first_claimer(s, q) < s.len() {
            assert(rest[first_claimer(rest, q)] == s[first_claimer(s, q)]);
        }
        if exists|j: int| 0 <= j < s.len() && adjacent((#[trigger] s[j]).1, q) {
            let j = choose|j: int| 0 <= j < s.len() && adjacent((#[trigger] s[j]).1, q);
            assert(rest[j - 1] == s[j]);
            assert(adjacent((rest[j - 1]).1, q));
        }
    }
}

/// How many entries of `s` hold the value `c`.
pub open spec fn count_cells(s: Seq<Cell>, c: Cell) -> int
    decreases s.len(),
{
    if s.len() == 0 {
        0
    } else {
        count_cells(s.drop_last(), c) + if s.last() == c {
            1int
        } else {
            0int
        }
    }
}

pub proof fn lemma_count_bounds(s: Seq<Cell>, c: Cell)
    ensures
        0 <= count_cells(s, c) <= s.len(),
    decreases s.len(),
{
    if s.len() > 0 {
        lemma_count_bounds(s.drop_last(), c);
    }
}

pub proof fn lemma_count_update(s: Seq<Cell>, i: int, x: Cell, c: Cell)
    requires
        0 <= i < s.len(),
    ensures
        count_cells(s.update(i, x), c) == count_cells(s, c) - (if s[i] == c {
            1int
        } else {
            0int
        }) + (if x == c {
            1int
        } else {
            0int
        }),
    decreases s.len(),
{
    let t = s.update(i, x);
    if i == s.len() - 1 {
        assert(t.drop_last() =~= s.drop_last());
        assert(t.last() == x);
        assert(s.last() == s[i]);
    } else {
        assert(t.drop_last() =~= s.drop_last().update(i, x));
        assert(t.last() == s.last());
        lemma_count_update(s.drop_last(), i, x, c);
    }
}

/// If some entry holds `c`, the count of `c` is at least one.
pub proof fn lemma_count_positive(s: Seq<Cell>, c: Cell, i: int)
    requires
        0 <= i < s.len(),
        s[i] == c,
    ensures
        count_cells(s, c) >= 1,
    decreases s.len(),
{
    if i == s.len() - 1 {
        lemma_count_bounds(s.drop_last(), c);
    } else {
        lemma_count_positive(s.drop_last(), c, i);
    }
}

/// Every cell holds exactly one of the four values, so the four counts
/// partition the grid.
pub proof fn lemma_count_total(s: Seq<Cell>)
    ensures
        count_cells(s, Cell::Empty) + count_cells(s, Cell::Neutral) + count_cells(s, Cell::Red)
            + count_cells(s, Cell::Blue) == s.len(),
    decreases s.len(),
{
    if s.len() > 0 {
        lemma_count_total(s.drop_last());
    }
}

/// In a sequence that holds `c` everywhere, the count of `c` is the length
/// and every other count is zero.
pub proof fn lemma_count_uniform(s: Seq<Cell>, c: Cell, d: Cell)
    requires
        forall|i: int| 0 <= i < s.len() ==> s[i] == c,
    ensures
        count_cells(s, d) == if c == d {
            s.len() as int
        } else {
            0int
        },
    decreases s.len(),
{
    if s.len() > 0 {
        assert(forall|i: int| 0 <= i < s.drop_last().len() ==> s.drop_last()[i] == c);
        lemma_count_uniform(s.drop_last(), c, d);
    }
}

/// Pointwise containment of occurrences gives an inequality of counts, and
/// a position that lost the value makes it strict.
pub proof fn lemma_count_pointwise(s1: Seq<Cell>, s2: Seq<Cell>, c: Cell)
    requires
        s1.len() == s2.len(),
        forall|i: int| 0 <= i < s2.len() && s2[i] == c ==> s1[i] == c,
    ensures
        count_cells(s2, c) <= count_cells(s1, c),
        forall|i: int|
            0 <= i < s1.len() && s1[i] == c && s2[i] != c ==> count_cells(s2, c) < count_cells(
                s1,
                c,
            ),
    decreases s1.len(),
{
    if s1.len() > 0 {
        assert(forall|i: int|
            0 <= i < s2.drop_last().len() && s2.drop_last()[i] == c ==> s1.drop_last()[i] == c);
        lemma_count_pointwise(s1.drop_last(), s2.drop_last(), c);
        assert forall|i: int|
            0 <= i < s1.len() && s1[i] == c && s2[i] != c implies count_cells(s2, c) < count_cells(
            s1,
            c,
        ) by {
            if i == s1.len() - 1 {
                assert(s1.last() == c && s2.last() != c);
            } else {
                assert(s1.drop_last()[i] == c && s2.drop_last()[i] != c);
            }
        }
    }
}

/// A column and a row inside the rectangle give a row-major index inside
/// the cell array.
pub proof fn lemma_index_bound(x: int, y: int, w: int, h: int)
    by (nonlinear_arith)
    requires
        0 <= x < w,
        0 <= y < h,
    ensures
        0 <= y * w + x < w * h,
{
}

/// Row-major indexing is injective on in-bounds positions.
pub proof fn lemma_index_injective(x1: int, y1: int, x2: int, y2: int, w: int)
    by (nonlinear_arith)
    requires
        0 <= x1 < w,
        0 <= x2 < w,
        0 <= y1,
        0 <= y2,
        y1 * w + x1 == y2 * w + x2,
    ensures
        x1 == x2,
        y1 == y2,
{
}

/// Relies on rand::random: draws a value of the type from the thread-local
/// generator.  Nothing can be promised of a random result.
pub assume_specification<T>[ rand::random::<T> ]() -> (r: T)
    where
        rand::distributions::Standard: rand::distributions::Distribution<T>,
;

/// The playing field: a fixed rectangle of cells in row-major order, the
/// frontier of cells that can still propagate, and aggregate counters.
pub struct Universe {
    /// Row-major cell array of length `width * height`.
    pub cells: Vec<Cell>,
    /// The frontier: the cells claimed in the current generation, as
    /// `(value, position)` pairs.  Every fresh claim enters it, and each
    /// generation step rebuilds it from that step's claims alone, so a
    /// cell enters the frontier at most once and, once dropped, never
    /// returns.  An entry whose neighbourhood fills during its own
    /// generation lingers until the next step and spreads nothing there:
    /// the engine drops such an entry one generation late rather than
    /// eagerly, which is its documented rule.
    pub active_cells: Vec<(Cell, Coords)>,
    pub width: usize,
    pub height: usize,
    pub n_empty: u32,
    pub n_neutral: u32,
    pub n_red: u32,
    pub n_blue: u32,
    /// True once a generation step ends with no `Empty` cell left.
    pub finished: bool,
    /// Milliseconds elapsed in the current turn; client display only.
    pub timer: u64,
    pub red_player_connected: bool,
    pub blue_player_connected: bool,
}

impl Universe {
    /// `p` lies on the grid.
    pub open spec fn in_bounds(self, p: Coords) -> bool {
        p.0 < self.width && p.1 < self.height
    }

    /// Row-major index of position `p`.
    pub open spec fn idx(self, p: Coords) -> int {
        p.1 * self.width + p.0
    }

    /// The cell value at position `p`.
    pub open spec fn cell_at(self, p: Coords) -> Cell {
        self.cells@[self.idx(p)]
    }

    /// A frontier entry records a non-empty cell together with the position
    /// that really holds that value.
    pub open spec fn frontier_entry_ok(self, e: (Cell, Coords)) -> bool {
        &&& e.0 != Cell::Empty
        &&& self.in_bounds(e.1)
        &&& self.cell_at(e.1) == e.0
    }

    /// Well-formedness: the array fills the rectangle, the counters count
    /// exactly, `finished` reports exactly a full board, and the frontier
    /// holds only truthful entries.
    pub open spec fn wf(self) -> bool {
        &&& self.cells@.len() as int == self.width * self.height
        &&& self.cells@.len() <= u32::MAX
        &&& self.n_empty as int == count_cells(self.cells@, Cell::Empty)
        &&& self.n_neutral as int == count_cells(self.cells@, Cell::Neutral)
        &&& self.n_red as int == count_cells(self.cells@, Cell::Red)
        &&& self.n_blue as int == count_cells(self.cells@, Cell::Blue)
        &&& (self.finished <==> self.n_empty == 0)
        &&& forall|j: int|
            0 <= j < self.active_cells@.len() ==> self.frontier_entry_ok(
                #[trigger] self.active_cells@[j],
            )
    }

    /// An entirely empty grid of the given size.
    pub fn new_empty_sized(width: usize, height: usize) -> (u: Universe)
        requires
            0 < width,
            0 < height,
            width * height <= u32::MAX,
        ensures
            u.wf(),
            u.width == width,
            u.height == height,
            forall|i: int| 0 <= i < u.cells@.len() ==> u.cells@[i] == Cell::Empty,
            u.n_empty as int == width * height,
            u.n_neutral == 0,
            u.n_red == 0,
            u.n_blue == 0,
            u.active_cells@.len() == 0,
            !u.finished,
            u.timer == 0,
            !u.red_player_connected,
            !u.blue_player_connected,
    {
        proof {
            lemma_index_bound(width - 1, height - 1, width as int, height as int);
        }
        let n: usize = width * height;
        let cells: Vec<Cell> = vec![Cell::Empty; n];
        proof {
            lemma_count_uniform(cells@, Cell::Empty, Cell::Empty);
            lemma_count_uniform(cells@, Cell::Empty, Cell::Neutral);
            lemma_count_uniform(cells@, Cell::Empty, Cell::Red);
            lemma_count_uniform(cells@, Cell::Empty, Cell::Blue);
        }
        Universe {
            cells,
            active_cells: Vec::new(),
            width,
            height,
            n_empty: n as u32,
            n_neutral: 0,
            n_red: 0,
            n_blue: 0,
            finished: false,
            timer: 0,
            red_player_connected: false,
            blue_player_connected: false,
        }
    }

    /// An entirely empty grid of the standard size.
    pub fn new_empty() -> (u: Universe)
        ensures
            u.wf(),
            u.width == WIDTH_UNIVERSE as usize,
            u.height == HEIGHT_UNIVERSE as usize,
            forall|i: int| 0 <= i < u.cells@.len() ==> u.cells@[i] == Cell::Empty,
            u.n_empty as int == u.width * u.height,
            u.n_neutral == 0,
            u.n_red == 0,
            u.n_blue == 0,
            u.active_cells@.len() == 0,
            !u.finished,
            u.timer == 0,
            !u.red_player_connected,
            !u.blue_player_connected,
    {
        Universe::new_empty_sized(WIDTH_UNIVERSE as usize, HEIGHT_UNIVERSE as usize)
    }

    /// A standard-size grid built from a pre-filled cell array whose
    /// counters the caller has already tallied; no player cell yet, empty
    /// frontier.
    pub fn _new_rand(cells: Vec<Cell>, n_empty: u32, n_neutral: u32) -> (u: Universe)
        requires
            cells@.len() as int == (WIDTH_UNIVERSE as int) * (HEIGHT_UNIVERSE as int),
            n_empty as int == count_cells(cells@, Cell::Empty),
            n_neutral as int == count_cells(cells@, Cell::Neutral),
            count_cells(cells@, Cell::Red) == 0,
            count_cells(cells@, Cell::Blue) == 0,
        ensures
            u.wf(),
            u.width == WIDTH_UNIVERSE as usize,
            u.height == HEIGHT_UNIVERSE as usize,
            u.cells@ == cells@,
            u.timer == 0,
            u.n_empty == n_empty,
            u.n_neutral == n_neutral,
            u.n_red == 0,
            u.n_blue == 0,
            u.active_cells@.len() == 0,
            u.finished == (n_empty == 0),
            !u.red_player_connected,
            !u.blue_player_connected,
    {
        Universe {
            cells,
            active_cells: Vec::new(),
            width: WIDTH_UNIVERSE as usize,
            height: HEIGHT_UNIVERSE as usize,
            n_empty,
            n_neutral,
            n_red: 0,
            n_blue: 0,
            finished: n_empty == 0,
            timer: 0,
            red_player_connected: false,
            blue_player_connected: false,
        }
    }

    /// A standard-size grid with up to `N_NEUTRAL_BLOCKS` cells pre-set to
    /// `Neutral` at randomly drawn positions.  A position drawn twice is
    /// left as it is, so the grid may hold fewer neutral cells than asked
    /// for (best-effort, as documented) -- but never none: the first draw
    /// always lands on a still-empty board.
    pub fn new_rand() -> (u: Universe)
        ensures
            u.wf(),
            u.width == WIDTH_UNIVERSE as usize,
            u.height == HEIGHT_UNIVERSE as usize,
            u.n_red == 0,
            u.n_blue == 0,
            1 <= u.n_neutral <= N_NEUTRAL_BLOCKS,
            u.n_empty as int + u.n_neutral as int == u.width * u.height,
            u.active_cells@.len() == 0,
            !u.finished,
            u.timer == 0,
            !u.red_player_connected,
            !u.blue_player_connected,
            forall|i: int|
                0 <= i < u.cells@.len() ==> (u.cells@[i] == Cell::Empty || u.cells@[i]
                    == Cell::Neutral),
    {
        proof {
            lemma_index_bound(
                WIDTH_UNIVERSE - 1,
                HEIGHT_UNIVERSE - 1,
                WIDTH_UNIVERSE as int,
                HEIGHT_UNIVERSE as int,
            );
        }
        let n: usize = (WIDTH_UNIVERSE as usize) * (HEIGHT_UNIVERSE as usize);
        let mut cells: Vec<Cell> = vec![Cell::Empty; n];
        proof {
            lemma_count_uniform(cells@, Cell::Empty, Cell::Empty);
            lemma_count_uniform(cells@, Cell::Empty, Cell::Neutral);
            lemma_count_uniform(cells@, Cell::Empty, Cell::Red);
            lemma_count_uniform(cells@, Cell::Empty, Cell::Blue);
        }
        let mut n_empty: u32 = n as u32;
        let mut n_neutral: u32 = 0;
        let mut i: u32 = 0;
        while i < N_NEUTRAL_BLOCKS
            invariant
                cells@.len() == n,
                0 < n <= u32::MAX,
                n_empty as int == count_cells(cells@, Cell::Empty),
                n_neutral as int == count_cells(cells@, Cell::Neutral),
                count_cells(cells@, Cell::Red) == 0,
                count_cells(cells@, Cell::Blue) == 0,
                n_neutral <= i,
                i <= N_NEUTRAL_BLOCKS,
                // the very first draw lands on an all-empty board, so at
                // least one neutral cell is always placed
                i == 0 ==> forall|k: int| 0 <= k < cells@.len() ==> cells@[k] == Cell::Empty,
                i > 0 ==> n_neutral >= 1,
                forall|k: int|
                    0 <= k < cells@.len() ==> (cells@[k] == Cell::Empty || cells@[k]
                        == Cell::Neutral),
            decreases N_NEUTRAL_BLOCKS - i,
        {
            let r: usize = rand::random::<usize>();
            let pos: usize = r % cells.len();
            if cells[pos] == Cell::Empty {
                let ghost pre = cells@;
                cells[pos] = Cell::Neutral;
                proof {
                    lemma_count_update(pre, pos as int, Cell::Neutral, Cell::Empty);
                    lemma_count_update(pre, pos as int, Cell::Neutral, Cell::Neutral);
                    lemma_count_update(pre, pos as int, Cell::Neutral, Cell::Red);
                    lemma_count_update(pre, pos as int, Cell::Neutral, Cell::Blue);
                    lemma_count_positive(pre, Cell::Empty, pos as int);
                    lemma_count_bounds(cells@, Cell::Neutral);
                }
                n_empty = n_empty - 1;
                n_neutral = n_neutral + 1;
            }
            i += 1;
        }
        let u = Universe::_new_rand(cells, n_empty, n_neutral);
        proof {
            lemma_cell_count_sum(u);
        }
        u
    }

    /// Outcome of attempting to claim `coords` with `cell`: claiming
    /// `Empty` is invalid; a position off the grid or already taken is
    /// silently not claimed; otherwise the claim succeeds.
    pub open spec fn claim_result(self, cell: Cell, coords: Coords) -> Result<bool, CellReadError> {
        if cell == Cell::Empty {
            Err(CellReadError)
        } else if !self.in_bounds(coords) {
            Ok(false)
        } else if self.cell_at(coords) != Cell::Empty {
            Ok(false)
        } else {
            Ok(true)
        }
    }

    /// How one claim changes the grid: on success exactly one cell flips
    /// from `Empty` to `cell`, the claim is appended to the frontier and
    /// the counters follow; on anything else the grid is untouched.
    pub open spec fn set_cell_rel(
        pre: Universe,
        post: Universe,
        cell: Cell,
        coords: Coords,
        r: Result<bool, CellReadError>,
    ) -> bool {
        &&& r == pre.claim_result(cell, coords)
        &&& if r == Ok::<bool, CellReadError>(true) {
            &&& post.cells@ == pre.cells@.update(pre.idx(coords), cell)
            &&& post.active_cells@ == pre.active_cells@.push((cell, coords))
            &&& post.n_empty as int == pre.n_empty as int - 1
            &&& post.n_neutral as int == pre.n_neutral as int + (if cell == Cell::Neutral {
                1int
            } else {
                0int
            })
            &&& post.n_red as int == pre.n_red as int + (if cell == Cell::Red {
                1int
            } else {
                0int
            })
            &&& post.n_blue as int == pre.n_blue as int + (if cell == Cell::Blue {
                1int
            } else {
                0int
            })
            &&& post.width == pre.width
            &&& post.height == pre.height
            &&& post.finished == (post.n_empty == 0)
            &&& post.timer == pre.timer
            &&& post.red_player_connected == pre.red_player_connected
            &&& post.blue_player_connected == pre.blue_player_connected
        } else {
            post == pre
        }
    }

    /// Attempt to claim the cell at `coords` with `cell`.  Whose turn it is
    /// is the match coordinator's business; the grid only enforces that a
    /// cell is claimed at most once and that `Empty` cannot be placed.
    pub fn set_cell(&mut self, cell: &Cell, coords: Coords) -> (r: Result<bool, CellReadError>)
        requires
            old(self).wf(),
        ensures
            final(self).wf(),
            Universe::set_cell_rel(*old(self), *final(self), *cell, coords, r),
    {
        if *cell == Cell::Empty {
            return Err(CellReadError);
        }
        if !(coords.0 < self.width && coords.1 < self.height) {
            return Ok(false);
        }
        let i = self.index_of(coords);
        if self.cells[i] != Cell::Empty {
            return Ok(false);
        }
        let ghost pre = *self;
        self.cells[i] = *cell;
        proof {
            lemma_count_update(pre.cells@, i as int, *cell, Cell::Empty);
            lemma_count_update(pre.cells@, i as int, *cell, Cell::Neutral);
            lemma_count_update(pre.cells@, i as int, *cell, Cell::Red);
            lemma_count_update(pre.cells@, i as int, *cell, Cell::Blue);
            lemma_count_positive(pre.cells@, Cell::Empty, i as int);
            lemma_count_bounds(self.cells@, Cell::Neutral);
            lemma_count_bounds(self.cells@, Cell::Red);
            lemma_count_bounds(self.cells@, Cell::Blue);
        }
        self.n_empty = self.n_empty - 1;
        if *cell == Cell::Red {
            self.n_red = self.n_red + 1;
        }
        if *cell == Cell::Blue {
            self.n_blue = self.n_blue + 1;
        }
        if *cell == Cell::Neutral {
            self.n_neutral = self.n_neutral + 1;
        }
        self.active_cells.push((*cell, coords));
        if self.n_empty == 0 {
            self.finished = true;
        }
        proof {
            assert forall|j: int|
                0 <= j < self.active_cells@.len() implies self.frontier_entry_ok(
                #[trigger] self.active_cells@[j],
            ) by {
                if j < pre.active_cells@.len() {
                    let e = pre.active_cells@[j];
                    assert(pre.frontier_entry_ok(e));
                    lemma_index_bound(
                        e.1.0 as int,
                        e.1.1 as int,
                        pre.width as int,
                        pre.height as int,
                    );
                }
            }
        }
        Ok(true)
    }

    /// Row-major index of an in-bounds position, as executable code.
    fn index_of(&self, coords: Coords) -> (i: usize)
        requires
            self.cells@.len() as int == self.width * self.height,
            self.cells@.len() <= u32::MAX,
            self.in_bounds(coords),
        ensures
            i as int == self.idx(coords),
            i < self.cells@.len(),
    {
        proof {
            lemma_index_bound(
                coords.0 as int,
                coords.1 as int,
                self.width as int,
                self.height as int,
            );
        }
        coords.1 * self.width + coords.0
    }

    /// The row-major index of `coords`, or an error when `coords` lies
    /// outside the grid.
    pub fn get_index(&self, coords: Coords) -> (r: Result<usize, ()>)
        requires
            self.wf(),
        ensures
            match r {
                Ok(i) => self.in_bounds(coords) && i as int == self.idx(coords) && i
                    < self.cells@.len(),
                Err(_) => !self.in_bounds(coords),
            },
    {
        if coords.0 < self.width && coords.1 < self.height {
            Ok(self.index_of(coords))
        } else {
            Err(())
        }
    }

    /// Whether a generation step has ended with the board full.
    pub fn is_finished(&self) -> (r: bool)
        ensures
            r == self.finished,
            self.wf() ==> (r <==> self.n_empty == 0),
    {
        self.finished
    }

    /// Snapshot of the counters: `(empty, red, blue, neutral)`.
    pub fn get_cell_numbers(&self) -> (r: (u32, u32, u32, u32))
        ensures
            r == (self.n_empty, self.n_red, self.n_blue, self.n_neutral),
    {
        (self.n_empty, self.n_red, self.n_blue, self.n_neutral)
    }

    /// A copy of the cell array.
    pub fn get_cells(&self) -> (r: Vec<Cell>)
        ensures
            r@ == self.cells@,
    {
        copied_vec(&self.cells)
    }

    /// Milliseconds elapsed in the current turn, as last recorded.
    pub fn get_timer(&self) -> (t: u64)
        ensures
            t == self.timer,
    {
        self.timer
    }

    /// Record the milliseconds elapsed in the current turn (display only).
    pub fn set_timer(&mut self, t: u64)
        requires
            old(self).wf(),
        ensures
            final(self).wf(),
            *final(self) == (Universe { timer: t, ..*old(self) }),
    {
        self.timer = t;
    }

    /// The side holding more cells; `Neither` on a tie.
    pub fn winner(&self) -> (c: Color)
        ensures
            c == (if self.n_red > self.n_blue {
                Color::Red
            } else if self.n_blue > self.n_red {
                Color::Blue
            } else {
                Color::Neither
            }),
    {
        if self.n_red > self.n_blue {
            Color::Red
        } else if self.n_blue > self.n_red {
            Color::Blue
        } else {
            Color::Neither
        }
    }

    /// The in-bounds 4-neighbours of `p`, each listed once.
    fn get_neighbours(&self, p: Coords) -> (res: Vec<Coords>)
        requires
            self.in_bounds(p),
        ensures
            forall|k: int|
                0 <= k < res@.len() ==> self.in_bounds(#[trigger] res@[k]) && adjacent(p, res@[k]),
            forall|q: Coords| self.in_bounds(q) && adjacent(p, q) ==> res@.contains(q),
            res@.no_duplicates(),
    {
        let mut res: Vec<Coords> = Vec::new();
        if p.1 + 1 < self.height {
            res.push((p.0, p.1 + 1));
        }
        if p.0 + 1 < self.width {
            res.push((p.0 + 1, p.1));
        }
        if p.0 > 0 {
            res.push((p.0 - 1, p.1));
        }
        if p.1 > 0 {
            res.push((p.0, p.1 - 1));
        }
        proof {
            broadcast use vstd::seq_lib::lemma_seq_contains_after_push;

            assert(res@.no_duplicates());
            assert forall|q: Coords| self.in_bounds(q) && adjacent(p, q) implies res@.contains(
                q,
            ) by {
                if q.0 == p.0 && p.1 + 1 == q.1 {
                    assert(res@.contains((p.0, (p.1 + 1) as usize)));
                } else if q.0 == p.0 && q.1 + 1 == p.1 {
                    assert(res@.contains((p.0, (p.1 - 1) as usize)));
                } else if q.1 == p.1 && p.0 + 1 == q.0 {
                    assert(res@.contains(((p.0 + 1) as usize, p.1)));
                } else {
                    assert(q.1 == p.1 && q.0 + 1 == p.0);
                    assert(res@.contains(((p.0 - 1) as usize, p.1)));
                }
            }
        }
        res
    }

    /// An entry of the next generation's frontier: a cell that was empty
    /// before the step and has been claimed during it with the value of
    /// the first adjacent entry of the old frontier.
    pub open spec fn next_entry_ok(pre: Universe, cur: Universe, e: (Cell, Coords)) -> bool {
        &&& e.0 != Cell::Empty
        &&& pre.in_bounds(e.1)
        &&& pre.cell_at(e.1) == Cell::Empty
        &&& cur.cell_at(e.1) == e.0
        &&& exists|j: int|
            0 <= j < pre.active_cells@.len() && adjacent(
                (#[trigger] pre.active_cells@[j]).1,
                e.1,
            ) && pre.active_cells@[j].0 == e.0
        &&& first_claimer(pre.active_cells@, e.1) < pre.active_cells@.len()
        &&& pre.active_cells@[first_claimer(pre.active_cells@, e.1)].0 == e.0
    }

    /// State threaded through one generation step: `cur` is `pre` with some
    /// empty cells claimed, each claim recorded in `next`, and the counters
    /// tracking the cell array exactly.
    pub open spec fn step_inv(pre: Universe, cur: Universe, next: Seq<(Cell, Coords)>) -> bool {
        &&& cur.width == pre.width
        &&& cur.height == pre.height
        &&& cur.timer == pre.timer
        &&& cur.finished == pre.finished
        &&& cur.red_player_connected == pre.red_player_connected
        &&& cur.blue_player_connected == pre.blue_player_connected
        &&& cur.active_cells@ == pre.active_cells@
        &&& cur.cells@.len() == pre.cells@.len()
        &&& cur.n_empty as int == count_cells(cur.cells@, Cell::Empty)
        &&& cur.n_neutral as int == count_cells(cur.cells@, Cell::Neutral)
        &&& cur.n_red as int == count_cells(cur.cells@, Cell::Red)
        &&& cur.n_blue as int == count_cells(cur.cells@, Cell::Blue)
        &&& cur.n_empty <= pre.n_empty
        &&& forall|i: int|
            #![trigger cur.cells@[i]]
            0 <= i < pre.cells@.len() && pre.cells@[i] != Cell::Empty ==> cur.cells@[i]
                == pre.cells@[i]
        &&& forall|k: int|
            #![trigger next[k]]
            0 <= k < next.len() ==> Universe::next_entry_ok(pre, cur, next[k])
        &&& forall|q: Coords|
            #![trigger cur.cell_at(q)]
            pre.in_bounds(q) && pre.cell_at(q) == Cell::Empty && cur.cell_at(q) != Cell::Empty
                ==> (exists|k: int| 0 <= k < next.len() && (#[trigger] next[k]).1 == q)
        &&& (pre.active_cells@.len() == 0 ==> cur.cells@ == pre.cells@)
    }

    /// How one generation step changes the grid.  Claimed cells never
    /// change; every empty 4-neighbour of an old frontier entry is claimed,
    /// and a claimed cell takes the value of the first adjacent entry in
    /// frontier order -- the engine's tie-break for contested cells, here
    /// part of the contract, so the resulting cells and counters are a
    /// function of the old grid and frontier; the new frontier holds
    /// exactly the cells claimed this step (their order within it is
    /// engine-internal); `finished` is recomputed at the end.
    pub open spec fn step_rel(pre: Universe, post: Universe) -> bool {
        &&& post.width == pre.width
        &&& post.height == pre.height
        &&& post.timer == pre.timer
        &&& post.red_player_connected == pre.red_player_connected
        &&& post.blue_player_connected == pre.blue_player_connected
        &&& post.cells@.len() == pre.cells@.len()
        &&& post.n_empty <= pre.n_empty
        &&& forall|i: int|
            #![trigger post.cells@[i]]
            0 <= i < pre.cells@.len() && pre.cells@[i] != Cell::Empty ==> post.cells@[i]
                == pre.cells@[i]
        &&& forall|q: Coords|
            #![trigger post.cell_at(q)]
            pre.in_bounds(q) && pre.cell_at(q) == Cell::Empty && post.cell_at(q) != Cell::Empty
                ==> exists|j: int|
                0 <= j < pre.active_cells@.len() && adjacent(
                    (#[trigger] pre.active_cells@[j]).1,
                    q,
                ) && pre.active_cells@[j].0 == post.cell_at(q)
        &&& forall|q: Coords|
            #![trigger post.cell_at(q)]
            pre.in_bounds(q) && pre.cell_at(q) == Cell::Empty && post.cell_at(q) != Cell::Empty
                ==> (first_claimer(pre.active_cells@, q) < pre.active_cells@.len()
                    && post.cell_at(q) == pre.active_cells@[first_claimer(
                    pre.active_cells@,
                    q,
                )].0)
        &&& forall|j: int, q: Coords|
            #![trigger adjacent(pre.active_cells@[j].1, q)]
            0 <= j < pre.active_cells@.len() && pre.in_bounds(q) && adjacent(
                pre.active_cells@[j].1,
                q,
            ) && pre.cell_at(q) == Cell::Empty ==> post.cell_at(q) != Cell::Empty
        &&& forall|k: int|
            #![trigger post.active_cells@[k]]
            0 <= k < post.active_cells@.len() ==> (post.in_bounds(post.active_cells@[k].1)
                && pre.cell_at(post.active_cells@[k].1) == Cell::Empty && post.cell_at(
                post.active_cells@[k].1,
            ) == post.active_cells@[k].0 && post.active_cells@[k].0 != Cell::Empty)
        &&& forall|q: Coords|
            #![trigger pre.cell_at(q), post.cell_at(q)]
            pre.in_bounds(q) && pre.cell_at(q) == Cell::Empty && post.cell_at(q) != Cell::Empty
                ==> (exists|k: int|
                0 <= k < post.active_cells@.len() && (#[trigger] post.active_cells@[k]).1 == q)
        &&& (pre.active_cells@.len() == 0 ==> post.cells@ == pre.cells@
            && post.active_cells@.len() == 0)
        &&& post.finished == (post.n_empty == 0)
    }

    /// After one claim at `q`, a position that already held a non-empty
    /// cell still holds it.
    proof fn lemma_claim_preserves_cell(mid: Universe, cur: Universe, q: Coords, e_cell: Cell, p2: Coords)
        requires
            mid.cells@.len() as int == mid.width * mid.height,
            mid.in_bounds(q),
            mid.in_bounds(p2),
            mid.cell_at(q) == Cell::Empty,
            mid.cell_at(p2) != Cell::Empty,
            cur.cells@ == mid.cells@.update(mid.idx(q), e_cell),
            cur.width == mid.width,
            cur.height == mid.height,
        ensures
            cur.cell_at(p2) == mid.cell_at(p2),
    {
        lemma_index_bound(q.0 as int, q.1 as int, mid.width as int, mid.height as int);
        lemma_index_bound(p2.0 as int, p2.1 as int, mid.width as int, mid.height as int);
        if mid.idx(p2) == mid.idx(q) {
            assert(mid.cell_at(p2) == mid.cell_at(q));
            assert(false);
        }
    }

    /// One claim inside a generation step preserves the step invariant.
    proof fn lemma_step_claim(
        pre: Universe,
        mid: Universe,
        cur: Universe,
        next_pre: Seq<(Cell, Coords)>,
        e_cell: Cell,
        q: Coords,
        j: int,
    )
        requires
            pre.wf(),
            Universe::step_inv(pre, mid, next_pre),
            0 <= j < pre.active_cells@.len(),
            pre.active_cells@[j].0 == e_cell,
            adjacent(pre.active_cells@[j].1, q),
            forall|j2: int| 0 <= j2 < j ==> !adjacent((#[trigger] pre.active_cells@[j2]).1, q),
            pre.in_bounds(q),
            mid.cell_at(q) == Cell::Empty,
            cur.cells@ == mid.cells@.update(mid.idx(q), e_cell),
            cur.n_empty as int == mid.n_empty as int - 1,
            cur.n_neutral as int == mid.n_neutral as int + (if e_cell == Cell::Neutral {
                1int
            } else {
                0int
            }),
            cur.n_red as int == mid.n_red as int + (if e_cell == Cell::Red {
                1int
            } else {
                0int
            }),
            cur.n_blue as int == mid.n_blue as int + (if e_cell == Cell::Blue {
                1int
            } else {
                0int
            }),
            cur.width == mid.width,
            cur.height == mid.height,
            cur.timer == mid.timer,
            cur.finished == mid.finished,
            cur.red_player_connected == mid.red_player_connected,
            cur.blue_player_connected == mid.blue_player_connected,
            cur.active_cells@ == mid.active_cells@,
        ensures
            Universe::step_inv(pre, cur, next_pre.push((e_cell, q))),
            e_cell != Cell::Empty,
            cur.cell_at(q) == e_cell,
    {
        assert(pre.frontier_entry_ok(pre.active_cells@[j]));
        assert(e_cell != Cell::Empty);
        let w = pre.width as int;
        let h = pre.height as int;
        lemma_index_bound(q.0 as int, q.1 as int, w, h);
        let qi = mid.idx(q);
        lemma_count_update(mid.cells@, qi, e_cell, Cell::Empty);
        lemma_count_update(mid.cells@, qi, e_cell, Cell::Neutral);
        lemma_count_update(mid.cells@, qi, e_cell, Cell::Red);
        lemma_count_update(mid.cells@, qi, e_cell, Cell::Blue);
        let next = next_pre.push((e_cell, q));
        // the claiming entry is the first adjacent one in frontier order
        lemma_first_claimer(pre.active_cells@, q);
        let fc = first_claimer(pre.active_cells@, q);
        assert(fc == j) by {
            if fc < j {
                assert(adjacent(pre.active_cells@[fc].1, q));
            }
            if j < fc {
                assert(!adjacent(pre.active_cells@[j].1, q));
            }
        }
        // pre had an empty cell at q, so the claim is genuinely new
        assert(pre.cell_at(q) == Cell::Empty) by {
            if pre.cell_at(q) != Cell::Empty {
                assert(mid.cells@[qi] == pre.cells@[qi]);
            }
        }
        // monotonicity is preserved
        assert forall|i: int|
            #![trigger cur.cells@[i]]
            0 <= i < pre.cells@.len() && pre.cells@[i] != Cell::Empty implies cur.cells@[i]
            == pre.cells@[i] by {
            if i == qi {
                assert(mid.cells@[i] == pre.cells@[i]);
                assert(false);
            }
        }
        // every recorded claim still reads back
        assert forall|k: int| #![trigger next[k]] 0 <= k < next.len() implies Universe::next_entry_ok(
            pre,
            cur,
            next[k],
        ) by {
            if k < next_pre.len() {
                let e = next_pre[k];
                assert(Universe::next_entry_ok(pre, mid, e));
                Universe::lemma_claim_preserves_cell(mid, cur, q, e_cell, e.1);
            } else {
                assert(next[k] == (e_cell, q));
                assert(cur.cell_at(q) == e_cell);
            }
        }
        // every claimed cell is recorded
        assert forall|p2: Coords|
            #![trigger cur.cell_at(p2)]
            pre.in_bounds(p2) && pre.cell_at(p2) == Cell::Empty && cur.cell_at(p2)
                != Cell::Empty implies (exists|k: int|
            0 <= k < next.len() && (#[trigger] next[k]).1 == p2) by {
            lemma_index_bound(p2.0 as int, p2.1 as int, w, h);
            if mid.cell_at(p2) != Cell::Empty {
                let k = choose|k: int|
                    0 <= k < next_pre.len() && (#[trigger] next_pre[k]).1 == p2;
                assert(next[k].1 == p2);
            } else {
                lemma_index_injective(p2.0 as int, p2.1 as int, q.0 as int, q.1 as int, w);
                assert(p2 == q);
                assert(next[next_pre.len() as int].1 == q);
            }
        }
    }
}

impl Universe {
    /// Advance the grid by one generation: every entry of the frontier
    /// attempts to claim each of its 4-neighbours with its own value, each
    /// newly claimed cell joins the next frontier (never the current one,
    /// so growth is strictly one layer per call), then the frontier is
    /// replaced and `finished` recomputed.  When two claims contest one
    /// empty cell within a step the first in frontier order wins; the
    /// tie-break is part of the contract (`first_claimer`), engine-defined
    /// rather than a fairness rule.
    #[verifier::loop_isolation(false)]
    pub fn evolve(&mut self)
        requires
            old(self).wf(),
        ensures
            final(self).wf(),
            Universe::step_rel(*old(self), *final(self)),
    {
        let ghost pre = *old(self);
        let mut next_cells: Vec<(Cell, Coords)> = Vec::new();
        let mut j: usize = 0;
        while j < self.active_cells.len()
            invariant
                j <= self.active_cells@.len(),
                Universe::step_inv(pre, *self, next_cells@),
                forall|j2: int, q: Coords|
                    #![trigger adjacent(pre.active_cells@[j2].1, q)]
                    0 <= j2 < j && pre.in_bounds(q) && adjacent(pre.active_cells@[j2].1, q)
                        ==> self.cell_at(q) != Cell::Empty,
            decreases self.active_cells@.len() - j,
        {
            let entry: (Cell, Coords) = self.active_cells[j];
            proof {
                assert(pre.frontier_entry_ok(pre.active_cells@[j as int]));
            }
            let neighbours = self.get_neighbours(entry.1);
            let ghost self_at_entry = *self;
            let mut n: usize = 0;
            while n < neighbours.len()
                invariant
                    n <= neighbours@.len(),
                    Universe::step_inv(pre, *self, next_cells@),
                    self.width == self_at_entry.width,
                    self.height == self_at_entry.height,
                    forall|j2: int, q: Coords|
                        #![trigger adjacent(pre.active_cells@[j2].1, q)]
                        0 <= j2 < j && pre.in_bounds(q) && adjacent(pre.active_cells@[j2].1, q)
                            ==> self.cell_at(q) != Cell::Empty,
                    forall|n2: int|
                        0 <= n2 < n ==> self.cell_at(#[trigger] neighbours@[n2]) != Cell::Empty,
                decreases neighbours@.len() - n,
            {
                let q: Coords = neighbours[n];
                let qi: usize = self.index_of(q);
                if self.cells[qi] == Cell::Empty {
                    let ghost mid = *self;
                    let ghost next_pre = next_cells@;
                    self.cells[qi] = entry.0;
                    proof {
                        lemma_count_update(mid.cells@, qi as int, entry.0, Cell::Empty);
                        lemma_count_update(mid.cells@, qi as int, entry.0, Cell::Neutral);
                        lemma_count_update(mid.cells@, qi as int, entry.0, Cell::Red);
                        lemma_count_update(mid.cells@, qi as int, entry.0, Cell::Blue);
                        lemma_count_positive(mid.cells@, Cell::Empty, qi as int);
                        lemma_count_bounds(self.cells@, Cell::Neutral);
                        lemma_count_bounds(self.cells@, Cell::Red);
                        lemma_count_bounds(self.cells@, Cell::Blue);
                    }
                    self.n_empty = self.n_empty - 1;
                    if entry.0 == Cell::Red {
                        self.n_red = self.n_red + 1;
                    }
                    if entry.0 == Cell::Blue {
                        self.n_blue = self.n_blue + 1;
                    }
                    if entry.0 == Cell::Neutral {
                        self.n_neutral = self.n_neutral + 1;
                    }
                    next_cells.push((entry.0, q));
                    proof {
                        assert forall|j2: int| 0 <= j2 < j implies !adjacent(
                            (#[trigger] pre.active_cells@[j2]).1,
                            q,
                        ) by {
                            if adjacent(pre.active_cells@[j2].1, q) {
                                assert(mid.cell_at(q) != Cell::Empty);
                            }
                        }
                        Universe::lemma_step_claim(
                            pre,
                            mid,
                            *self,
                            next_pre,
                            entry.0,
                            q,
                            j as int,
                        );
                        assert forall|j2: int, q2: Coords|
                            #![trigger adjacent(pre.active_cells@[j2].1, q2)]
                            0 <= j2 < j && pre.in_bounds(q2) && adjacent(
                                pre.active_cells@[j2].1,
                                q2,
                            ) implies self.cell_at(q2) != Cell::Empty by {
                            Universe::lemma_claim_preserves_cell(mid, *self, q, entry.0, q2);
                        }
                        assert forall|n2: int| 0 <= n2 < n + 1 implies self.cell_at(
                            #[trigger] neighbours@[n2],
                        ) != Cell::Empty by {
                            if n2 < n {
                                Universe::lemma_claim_preserves_cell(
                                    mid,
                                    *self,
                                    q,
                                    entry.0,
                                    neighbours@[n2],
                                );
                            }
                        }
                    }
                }
                n += 1;
            }
            proof {
                assert forall|j2: int, q2: Coords|
                    #![trigger adjacent(pre.active_cells@[j2].1, q2)]
                    0 <= j2 < j + 1 && pre.in_bounds(q2) && adjacent(
                        pre.active_cells@[j2].1,
                        q2,
                    ) implies self.cell_at(q2) != Cell::Empty by {
                    if j2 == j {
                        assert(neighbours@.contains(q2));
                        let n2 = choose|n2: int|
                            0 <= n2 < neighbours@.len() && neighbours@[n2] == q2;
                        assert(self.cell_at(neighbours@[n2]) != Cell::Empty);
                    }
                }
            }
            j += 1;
        }
        let ghost done = *self;
        self.active_cells = next_cells;
        if self.n_empty == 0 {
            self.finished = true;
        }
        proof {
            assert(Universe::step_inv(pre, done, self.active_cells@));
            assert(self.cells@ == done.cells@);
            // the new frontier satisfies the grid invariant
            assert forall|k: int|
                0 <= k < self.active_cells@.len() implies self.frontier_entry_ok(
                #[trigger] self.active_cells@[k],
            ) by {
                assert(Universe::next_entry_ok(pre, done, self.active_cells@[k]));
            }
            // a finished flag still reports a full board
            assert(self.finished ==> self.n_empty == 0) by {
                if pre.finished {
                    assert(pre.n_empty == 0);
                }
            }
            // a cell claimed this step took its value from an adjacent
            // entry of the old frontier
            assert forall|q: Coords|
                pre.in_bounds(q) && pre.cell_at(q) == Cell::Empty && self.cell_at(q)
                    != Cell::Empty implies (exists|j2: int|
                0 <= j2 < pre.active_cells@.len() && adjacent(
                    (#[trigger] pre.active_cells@[j2]).1,
                    q,
                ) && pre.active_cells@[j2].0 == self.cell_at(q)) by {
                assert(done.cell_at(q) != Cell::Empty);
                let k = choose|k: int|
                    0 <= k < self.active_cells@.len() && (#[trigger] self.active_cells@[k]).1
                        == q;
                let e = self.active_cells@[k];
                assert(Universe::next_entry_ok(pre, done, e));
                let j2 = choose|j2: int|
                    0 <= j2 < pre.active_cells@.len() && adjacent(
                        (#[trigger] pre.active_cells@[j2]).1,
                        e.1,
                    ) && pre.active_cells@[j2].0 == e.0;
                assert(0 <= j2 < pre.active_cells@.len() && adjacent(
                    pre.active_cells@[j2].1,
                    q,
                ) && pre.active_cells@[j2].0 == self.cell_at(q));
            }
            // every claim took the value of the first adjacent entry
            assert forall|q: Coords|
                pre.in_bounds(q) && pre.cell_at(q) == Cell::Empty && self.cell_at(q)
                    != Cell::Empty implies (first_claimer(pre.active_cells@, q)
                < pre.active_cells@.len() && self.cell_at(q) == pre.active_cells@[first_claimer(
                pre.active_cells@,
                q,
            )].0) by {
                assert(done.cell_at(q) != Cell::Empty);
                let k = choose|k: int|
                    0 <= k < self.active_cells@.len() && (#[trigger] self.active_cells@[k]).1
                        == q;
                assert(Universe::next_entry_ok(pre, done, self.active_cells@[k]));
            }
            // an empty frontier leaves the board untouched
            if pre.active_cells@.len() == 0 {
                assert(self.active_cells@.len() == 0) by {
                    if self.active_cells@.len() > 0 {
                        assert(Universe::next_entry_ok(pre, done, self.active_cells@[0]));
                    }
                }
            }
            assert(Universe::step_rel(pre, *self));
        }
    }
}

/// An element-by-element copy of a vector of `Copy` values.
fn copied_vec<T: Copy>(v: &Vec<T>) -> (r: Vec<T>)
    ensures
        r@ == v@,
{
    let mut r: Vec<T> = Vec::new();
    let mut i: usize = 0;
    while i < v.len()
        invariant
            i <= v@.len(),
            r@ == v@.subrange(0, i as int),
        decreases v@.len() - i,
    {
        r.push(v[i]);
        proof {
            assert(r@ =~= v@.subrange(0, i + 1));
        }
        i += 1;
    }
    proof {
        assert(r@ =~= v@);
    }
    r
}

impl Clone for Universe {
    /// A deep copy carrying the same cells, frontier, counters and flags.
    fn clone(&self) -> (r: Self)
        ensures
            r.cells@ == self.cells@,
            r.active_cells@ == self.active_cells@,
            r.width == self.width,
            r.height == self.height,
            r.n_empty == self.n_empty,
            r.n_neutral == self.n_neutral,
            r.n_red == self.n_red,
            r.n_blue == self.n_blue,
            r.finished == self.finished,
            r.timer == self.timer,
            r.red_player_connected == self.red_player_connected,
            r.blue_player_connected == self.blue_player_connected,
            r.wf() <==> self.wf(),
    {
        let r = Universe {
            cells: copied_vec(&self.cells),
            active_cells: copied_vec(&self.active_cells),
            width: self.width,
            height: self.height,
            n_empty: self.n_empty,
            n_neutral: self.n_neutral,
            n_red: self.n_red,
            n_blue: self.n_blue,
            finished: self.finished,
            timer: self.timer,
            red_player_connected: self.red_player_connected,
            blue_player_connected: self.blue_player_connected,
        };
        proof {
            if self.wf() {
                assert forall|j: int|
                    0 <= j < r.active_cells@.len() implies r.frontier_entry_ok(
                    #[trigger] r.active_cells@[j],
                ) by {
                    assert(self.frontier_entry_ok(self.active_cells@[j]));
                }
            }
            if r.wf() {
                assert forall|j: int|
                    0 <= j < self.active_cells@.len() implies self.frontier_entry_ok(
                    #[trigger] self.active_cells@[j],
                ) by {
                    assert(r.frontier_entry_ok(r.active_cells@[j]));
                }
            }
        }
        r
    }
}

/// The four counters of a well-formed grid partition the board: they sum
/// to `width * height` after every operation that preserves `wf`.
pub proof fn lemma_cell_count_sum(u: Universe)
    requires
        u.wf(),
    ensures
        u.n_empty + u.n_neutral + u.n_red + u.n_blue == u.width * u.height,
{
    lemma_count_total(u.cells@);
}

/// A cell once claimed never changes again: a claim touches no cell that
/// already holds a value.
pub proof fn lemma_claim_is_set_once(
    pre: Universe,
    post: Universe,
    cell: Cell,
    coords: Coords,
    r: Result<bool, CellReadError>,
    i: int,
)
    requires
        pre.wf(),
        Universe::set_cell_rel(pre, post, cell, coords, r),
        0 <= i < pre.cells@.len(),
        pre.cells@[i] != Cell::Empty,
    ensures
        post.cells@[i] == pre.cells@[i],
{
    if r == Ok::<bool, CellReadError>(true) {
        lemma_index_bound(coords.0 as int, coords.1 as int, pre.width as int, pre.height as int);
        assert(pre.cells@[pre.idx(coords)] == Cell::Empty);
    }
}

/// A cell once claimed never changes again: a generation step touches no
/// cell that already holds a value.
pub proof fn lemma_step_is_set_once(pre: Universe, post: Universe, i: int)
    requires
        Universe::step_rel(pre, post),
        0 <= i < pre.cells@.len(),
        pre.cells@[i] != Cell::Empty,
    ensures
        post.cells@[i] == pre.cells@[i],
{
}

/// A cell never re-enters the frontier: no entry of the frontier left by
/// a generation step stands at the position of an entry of the frontier
/// that went into it.  With claims being set-once, a cell therefore sits
/// in the frontier for exactly one generation of its lifetime.
pub proof fn lemma_frontier_never_reenters(pre: Universe, post: Universe, j: int, k: int)
    requires
        pre.wf(),
        Universe::step_rel(pre, post),
        0 <= j < pre.active_cells@.len(),
        0 <= k < post.active_cells@.len(),
    ensures
        post.active_cells@[k].1 != pre.active_cells@[j].1,
{
    assert(pre.frontier_entry_ok(pre.active_cells@[j]));
}

/// A generation step on an empty frontier is a no-op: cells and counters
/// are unchanged and the frontier stays empty.
pub proof fn lemma_step_empty_frontier_noop(pre: Universe, post: Universe)
    requires
        pre.wf(),
        post.wf(),
        Universe::step_rel(pre, post),
        pre.active_cells@.len() == 0,
    ensures
        post.cells@ == pre.cells@,
        post.active_cells@.len() == 0,
        post.n_empty == pre.n_empty,
        post.n_neutral == pre.n_neutral,
        post.n_red == pre.n_red,
        post.n_blue == pre.n_blue,
{
}

/// An index of an entry holding `c`, which exists while the count of `c`
/// is positive.
pub proof fn lemma_count_exists(s: Seq<Cell>, c: Cell) -> (i: int)
    requires
        count_cells(s, c) > 0,
    ensures
        0 <= i < s.len(),
        s[i] == c,
    decreases s.len(),
{
    if s.last() == c {
        s.len() - 1
    } else {
        lemma_count_exists(s.drop_last(), c)
    }
}

/// An index of an entry not holding `c`, which exists while the count of
/// `c` stays below the length.
pub proof fn lemma_count_missing(s: Seq<Cell>, c: Cell) -> (i: int)
    requires
        count_cells(s, c) < s.len(),
    ensures
        0 <= i < s.len(),
        s[i] != c,
    decreases s.len(),
{
    if s.last() != c {
        s.len() - 1
    } else {
        lemma_count_bounds(s.drop_last(), c);
        lemma_count_missing(s.drop_last(), c)
    }
}

impl Universe {
    /// The position whose row-major index is `i`.
    pub proof fn lemma_coords_of_index(self, i: int) -> (p: Coords)
        requires
            self.wf(),
            0 <= i < self.cells@.len(),
        ensures
            self.in_bounds(p),
            self.idx(p) == i,
        decreases i,
    {
        assert(self.width > 0 && self.height > 0) by (nonlinear_arith)
            requires
                self.cells@.len() as int == self.width * self.height,
                self.cells@.len() > 0,
        ;
        if i == 0 {
            (0usize, 0usize)
        } else {
            let q = self.lemma_coords_of_index(i - 1);
            if q.0 + 1 < self.width {
                ((q.0 + 1) as usize, q.1)
            } else {
                let p = (0usize, (q.1 + 1) as usize);
                assert(q.0 == self.width - 1);
                assert(i == (q.1 + 1) * self.width) by (nonlinear_arith)
                    requires
                        i - 1 == q.1 * self.width + self.width - 1,
                ;
                assert(q.1 + 1 < self.height) by (nonlinear_arith)
                    requires
                        i == (q.1 + 1) * self.width,
                        i < self.width * self.height,
                        self.width > 0,
                        q.1 >= 0,
                ;
                p
            }
        }
    }

    /// The frontier covers the whole spreading boundary: every claimed
    /// cell that still borders an empty cell stands in the frontier.  A
    /// fresh board holds it vacuously, `set_cell` and `evolve` preserve it
    /// (the lemmas below), and a pre-set neutral block deliberately breaks
    /// it, which is why such a block never spreads.
    pub open spec fn frontier_covers(self) -> bool {
        forall|p: Coords, q: Coords|
            #![trigger adjacent(p, q), self.cell_at(p)]
            self.in_bounds(p) && self.in_bounds(q) && adjacent(p, q) && self.cell_at(p)
                != Cell::Empty && self.cell_at(q) == Cell::Empty ==> (exists|k: int|
                0 <= k < self.active_cells@.len() && (#[trigger] self.active_cells@[k]).1 == p)
    }
}

/// A board without claimed cells covers its boundary vacuously.
pub proof fn lemma_all_empty_covers(u: Universe)
    requires
        u.wf(),
        forall|i: int| 0 <= i < u.cells@.len() ==> u.cells@[i] == Cell::Empty,
    ensures
        u.frontier_covers(),
{
    assert forall|p: Coords, q: Coords|
        u.in_bounds(p) && u.in_bounds(q) && adjacent(p, q) && u.cell_at(p) != Cell::Empty
            && u.cell_at(q) == Cell::Empty implies (exists|k: int|
        0 <= k < u.active_cells@.len() && (#[trigger] u.active_cells@[k]).1 == p) by {
        lemma_index_bound(p.0 as int, p.1 as int, u.width as int, u.height as int);
    }
}

/// One claim preserves boundary coverage: the claimed cell joins the
/// frontier itself, and no other cell gains an empty neighbour.
pub proof fn lemma_claim_keeps_covered(
    pre: Universe,
    post: Universe,
    cell: Cell,
    coords: Coords,
    r: Result<bool, CellReadError>,
)
    requires
        pre.wf(),
        Universe::set_cell_rel(pre, post, cell, coords, r),
        pre.frontier_covers(),
    ensures
        post.frontier_covers(),
{
    if r == Ok::<bool, CellReadError>(true) {
        let ci = pre.idx(coords);
        lemma_index_bound(coords.0 as int, coords.1 as int, pre.width as int, pre.height as int);
        assert forall|p: Coords, q: Coords|
            post.in_bounds(p) && post.in_bounds(q) && adjacent(p, q) && post.cell_at(p)
                != Cell::Empty && post.cell_at(q) == Cell::Empty implies (exists|k: int|
            0 <= k < post.active_cells@.len() && (#[trigger] post.active_cells@[k]).1
                == p) by {
            lemma_index_bound(p.0 as int, p.1 as int, pre.width as int, pre.height as int);
            lemma_index_bound(q.0 as int, q.1 as int, pre.width as int, pre.height as int);
            if p == coords {
                let k = pre.active_cells@.len() as int;
                assert(post.active_cells@[k] == (cell, coords));
            } else {
                if pre.idx(p) == ci {
                    lemma_index_injective(
                        p.0 as int,
                        p.1 as int,
                        coords.0 as int,
                        coords.1 as int,
                        pre.width as int,
                    );
                }
                assert(pre.cell_at(p) == post.cell_at(p));
                if pre.idx(q) == ci {
                    lemma_index_injective(
                        q.0 as int,
                        q.1 as int,
                        coords.0 as int,
                        coords.1 as int,
                        pre.width as int,
                    );
                }
                assert(pre.cell_at(q) == Cell::Empty);
                let k = choose|k: int|
                    0 <= k < pre.active_cells@.len() && (#[trigger] pre.active_cells@[k]).1
                        == p;
                assert(post.active_cells@[k].1 == p);
            }
        }
    }
}

/// One generation step preserves boundary coverage: a newly claimed cell
/// joins the next frontier, and an old frontier entry leaves no empty
/// neighbour behind.
pub proof fn lemma_step_keeps_covered(pre: Universe, post: Universe)
    requires
        pre.wf(),
        Universe::step_rel(pre, post),
        pre.frontier_covers(),
    ensures
        post.frontier_covers(),
{
    assert forall|p: Coords, q: Coords|
        post.in_bounds(p) && post.in_bounds(q) && adjacent(p, q) && post.cell_at(p)
            != Cell::Empty && post.cell_at(q) == Cell::Empty implies (exists|k: int|
        0 <= k < post.active_cells@.len() && (#[trigger] post.active_cells@[k]).1 == p) by {
        lemma_index_bound(p.0 as int, p.1 as int, pre.width as int, pre.height as int);
        lemma_index_bound(q.0 as int, q.1 as int, pre.width as int, pre.height as int);
        assert(pre.cell_at(q) == Cell::Empty) by {
            if pre.cell_at(q) != Cell::Empty {
                assert(post.cells@[pre.idx(q)] == pre.cells@[pre.idx(q)]);
            }
        }
        if pre.cell_at(p) != Cell::Empty {
            // an old claimed cell: it was covered, and its covering entry
            // would have claimed q during the step
            let k = choose|k: int|
                0 <= k < pre.active_cells@.len() && (#[trigger] pre.active_cells@[k]).1 == p;
            assert(adjacent(pre.active_cells@[k].1, q));
            assert(post.cell_at(q) != Cell::Empty);
        }
        // otherwise p was claimed this very step and stands in the new
        // frontier by the step relation
    }
}

/// A straight-line walk from a claimed cell to an empty one crosses the
/// boundary somewhere: an adjacent claimed/empty pair exists.
pub proof fn lemma_boundary_exists(u: Universe, p: Coords, q: Coords) -> (r: (Coords, Coords))
    requires
        u.wf(),
        u.in_bounds(p),
        u.in_bounds(q),
        u.cell_at(p) != Cell::Empty,
        u.cell_at(q) == Cell::Empty,
    ensures
        u.in_bounds(r.0),
        u.in_bounds(r.1),
        adjacent(r.0, r.1),
        u.cell_at(r.0) != Cell::Empty,
        u.cell_at(r.1) == Cell::Empty,
    decreases
            (if p.0 <= q.0 {
                q.0 - p.0
            } else {
                p.0 - q.0
            }) + (if p.1 <= q.1 {
                q.1 - p.1
            } else {
                p.1 - q.1
            }),
{
    let n: Coords = if p.0 < q.0 {
        ((p.0 + 1) as usize, p.1)
    } else if p.0 > q.0 {
        ((p.0 - 1) as usize, p.1)
    } else if p.1 < q.1 {
        (p.0, (p.1 + 1) as usize)
    } else {
        (p.0, (p.1 - 1) as usize)
    };
    assert(adjacent(p, n));
    if u.cell_at(n) == Cell::Empty {
        (p, n)
    } else {
        lemma_boundary_exists(u, n, q)
    }
}

/// While the frontier covers the boundary and the board holds both a
/// claimed and an empty cell, one generation step strictly decreases the
/// number of empty cells: repeated stepping drives such a board to
/// `finished` within `n_empty` steps.
pub proof fn lemma_step_progress_covered(pre: Universe, post: Universe)
    requires
        pre.wf(),
        post.wf(),
        Universe::step_rel(pre, post),
        pre.frontier_covers(),
        0 < pre.n_empty,
        (pre.n_empty as int) < pre.width * pre.height,
    ensures
        post.n_empty < pre.n_empty,
{
    let ie = lemma_count_exists(pre.cells@, Cell::Empty);
    let ic = lemma_count_missing(pre.cells@, Cell::Empty);
    let pe = pre.lemma_coords_of_index(ie);
    let pc = pre.lemma_coords_of_index(ic);
    let (a, b) = lemma_boundary_exists(pre, pc, pe);
    let k = choose|k: int|
        0 <= k < pre.active_cells@.len() && (#[trigger] pre.active_cells@[k]).1 == a;
    lemma_step_progress(pre, post, k, b);
}

/// Repeated stepping finishes the board: along any run of generation
/// steps from a well-formed board whose frontier covers the boundary and
/// which holds at least one claimed cell, the board is full and flagged
/// `finished` after at most `n_empty` steps.
pub proof fn lemma_repeated_steps_finish(tr: Seq<Universe>)
    requires
        tr.len() >= 2,
        tr.len() >= tr[0].n_empty + 2,
        forall|i: int| 0 <= i < tr.len() ==> (#[trigger] tr[i]).wf(),
        forall|i: int| 0 <= i < tr.len() - 1 ==> Universe::step_rel(#[trigger] tr[i], tr[i + 1]),
        tr[0].frontier_covers(),
        (tr[0].n_empty as int) < tr[0].width * tr[0].height,
    ensures
        tr[tr.len() - 1].finished,
        tr[tr.len() - 1].n_empty == 0,
    decreases tr.len(),
{
    assert(Universe::step_rel(tr[0], tr[1]));
    if tr.len() == 2 {
        assert(tr[0].n_empty == 0);
    } else {
        let rest = tr.drop_first();
        assert forall|i: int| 0 <= i < rest.len() implies (#[trigger] rest[i]).wf() by {
            assert(rest[i] == tr[i + 1]);
        }
        assert forall|i: int| 0 <= i < rest.len() - 1 implies Universe::step_rel(
            #[trigger] rest[i],
            rest[i + 1],
        ) by {
            assert(rest[i] == tr[i + 1] && rest[i + 1] == tr[i + 2]);
            assert(Universe::step_rel(tr[i + 1], tr[i + 2]));
        }
        lemma_step_keeps_covered(tr[0], tr[1]);
        if tr[0].n_empty > 0 {
            lemma_step_progress_covered(tr[0], tr[1]);
        }
        assert(rest[0] == tr[1]);
        lemma_repeated_steps_finish(rest);
        assert(rest[rest.len() - 1] == tr[tr.len() - 1]);
    }
}

/// The Manhattan distance between two positions: the number of
/// 4-connected steps needed to walk from one to the other on a free
/// board.
pub open spec fn manhattan(a: Coords, b: Coords) -> int {
    (if a.0 <= b.0 {
        b.0 - a.0
    } else {
        a.0 - b.0
    }) + (if a.1 <= b.1 {
        b.1 - a.1
    } else {
        a.1 - b.1
    })
}

/// One 4-connected step changes the distance to any fixed point by at
/// most one.
pub proof fn lemma_adjacent_distance(seed: Coords, p: Coords, q: Coords)
    requires
        adjacent(p, q),
    ensures
        manhattan(seed, q) <= manhattan(seed, p) + 1,
        manhattan(seed, p) <= manhattan(seed, q) + 1,
{
}

/// A position away from `seed` has an in-bounds neighbour one step
/// closer to it.
pub proof fn lemma_toward_seed(u: Universe, seed: Coords, q: Coords) -> (n: Coords)
    requires
        u.in_bounds(seed),
        u.in_bounds(q),
        manhattan(seed, q) >= 1,
    ensures
        u.in_bounds(n),
        adjacent(n, q),
        manhattan(seed, n) == manhattan(seed, q) - 1,
{
    if q.0 > seed.0 {
        ((q.0 - 1) as usize, q.1)
    } else if q.0 < seed.0 {
        ((q.0 + 1) as usize, q.1)
    } else if q.1 > seed.1 {
        (q.0, (q.1 - 1) as usize)
    } else {
        (q.0, (q.1 + 1) as usize)
    }
}

impl Universe {
    /// The board has grown breadth-first to radius `k` around `seed`: a
    /// cell is claimed exactly when it lies within distance `k`, and the
    /// frontier holds exactly the ring at distance `k`.
    pub open spec fn layered(self, seed: Coords, k: int) -> bool {
        &&& forall|q: Coords|
            #![trigger self.cell_at(q)]
            #![trigger manhattan(seed, q)]
            self.in_bounds(q) ==> (self.cell_at(q) != Cell::Empty <==> manhattan(seed, q) <= k)
        &&& forall|j: int|
            0 <= j < self.active_cells@.len() ==> manhattan(
                seed,
                (#[trigger] self.active_cells@[j]).1,
            ) == k
        &&& forall|q: Coords|
            #![trigger manhattan(seed, q)]
            self.in_bounds(q) && manhattan(seed, q) == k ==> (exists|j: int|
                0 <= j < self.active_cells@.len() && (#[trigger] self.active_cells@[j]).1 == q)
    }
}

/// A board whose one claimed cell is also its one frontier entry has
/// grown to radius zero around that cell; claiming a single seed on a
/// fresh board produces exactly this state.
pub proof fn lemma_single_seed_layered(u: Universe, seed: Coords)
    requires
        u.wf(),
        u.in_bounds(seed),
        u.cell_at(seed) != Cell::Empty,
        forall|q: Coords|
            #![trigger u.cell_at(q)]
            u.in_bounds(q) && q != seed ==> u.cell_at(q) == Cell::Empty,
        u.active_cells@.len() == 1,
        u.active_cells@[0].1 == seed,
    ensures
        u.layered(seed, 0),
{
    assert forall|q: Coords| u.in_bounds(q) implies (u.cell_at(q) != Cell::Empty <==> manhattan(
        seed,
        q,
    ) <= 0) by {
        if manhattan(seed, q) <= 0 {
            assert(q.0 == seed.0 && q.1 == seed.1);
            assert(q == seed);
        }
        if u.cell_at(q) != Cell::Empty {
            assert(q == seed);
        }
    }
}

/// One generation step grows a breadth-first board by exactly one ring:
/// radius `k` becomes radius `k + 1`.
pub proof fn lemma_step_layer(pre: Universe, post: Universe, seed: Coords, k: int)
    requires
        pre.wf(),
        post.wf(),
        Universe::step_rel(pre, post),
        pre.in_bounds(seed),
        k >= 0,
        pre.layered(seed, k),
    ensures
        post.layered(seed, k + 1),
{
    // a cell is claimed after the step exactly when it lies within k + 1
    assert forall|q: Coords| post.in_bounds(q) implies (post.cell_at(q) != Cell::Empty
        <==> manhattan(seed, q) <= k + 1) by {
        lemma_index_bound(q.0 as int, q.1 as int, pre.width as int, pre.height as int);
        if post.cell_at(q) != Cell::Empty {
            if pre.cell_at(q) != Cell::Empty {
                assert(manhattan(seed, q) <= k);
            } else {
                let j = choose|j: int|
                    0 <= j < pre.active_cells@.len() && adjacent(
                        (#[trigger] pre.active_cells@[j]).1,
                        q,
                    ) && pre.active_cells@[j].0 == post.cell_at(q);
                lemma_adjacent_distance(seed, pre.active_cells@[j].1, q);
            }
        }
        if manhattan(seed, q) <= k + 1 {
            if manhattan(seed, q) <= k {
                assert(pre.cell_at(q) != Cell::Empty);
                assert(post.cells@[pre.idx(q)] == pre.cells@[pre.idx(q)]);
            } else {
                let n = lemma_toward_seed(pre, seed, q);
                let j = choose|j: int|
                    0 <= j < pre.active_cells@.len() && (#[trigger] pre.active_cells@[j]).1
                        == n;
                if pre.cell_at(q) == Cell::Empty {
                    assert(adjacent(pre.active_cells@[j].1, q));
                    assert(post.cell_at(q) != Cell::Empty);
                } else {
                    assert(manhattan(seed, q) <= k);
                }
            }
        }
    }
    // the new frontier is exactly the ring at k + 1
    assert forall|j: int| 0 <= j < post.active_cells@.len() implies manhattan(
        seed,
        (#[trigger] post.active_cells@[j]).1,
    ) == k + 1 by {
        let e = post.active_cells@[j];
        assert(pre.cell_at(e.1) == Cell::Empty && post.cell_at(e.1) == e.0);
        assert(manhattan(seed, e.1) > k);
        assert(post.in_bounds(e.1));
        assert(post.cell_at(e.1) != Cell::Empty);
    }
    assert forall|q: Coords| post.in_bounds(q) && manhattan(seed, q) == k + 1 implies (exists|
        j: int,
    |
        0 <= j < post.active_cells@.len() && (#[trigger] post.active_cells@[j]).1 == q) by {
        lemma_index_bound(q.0 as int, q.1 as int, pre.width as int, pre.height as int);
        assert(pre.cell_at(q) == Cell::Empty);
        assert(post.cell_at(q) != Cell::Empty);
    }
}

/// Breadth-first growth along a run of generation steps: starting from a
/// board grown to radius `k` around `seed`, the board after the run is
/// grown to radius `k` plus the number of steps.  With the seed alone
/// claimed this says a cell is claimed after `n` steps exactly when its
/// distance from the seed is at most `n`: the spread reaches each cell at
/// its breadth-first depth, and a corner-seeded free board of `w` by `h`
/// cells finishes after exactly `(w - 1) + (h - 1)` steps.
pub proof fn lemma_layers_along(tr: Seq<Universe>, seed: Coords, k: int)
    requires
        tr.len() >= 1,
        forall|i: int| 0 <= i < tr.len() ==> (#[trigger] tr[i]).wf(),
        forall|i: int| 0 <= i < tr.len() - 1 ==> Universe::step_rel(#[trigger] tr[i], tr[i + 1]),
        tr[0].in_bounds(seed),
        k >= 0,
        tr[0].layered(seed, k),
    ensures
        tr[tr.len() - 1].layered(seed, k + tr.len() - 1),
    decreases tr.len(),
{
    if tr.len() > 1 {
        assert(Universe::step_rel(tr[0], tr[1]));
        lemma_step_layer(tr[0], tr[1], seed, k);
        let rest = tr.drop_first();
        assert forall|i: int| 0 <= i < rest.len() implies (#[trigger] rest[i]).wf() by {
            assert(rest[i] == tr[i + 1]);
        }
        assert forall|i: int| 0 <= i < rest.len() - 1 implies Universe::step_rel(
            #[trigger] rest[i],
            rest[i + 1],
        ) by {
            assert(rest[i] == tr[i + 1] && rest[i + 1] == tr[i + 2]);
            assert(Universe::step_rel(tr[i + 1], tr[i + 2]));
        }
        assert(rest[0] == tr[1]);
        lemma_layers_along(rest, seed, k + 1);
        assert(rest[rest.len() - 1] == tr[tr.len() - 1]);
    }
}

/// Spreading never invents a color: on a board holding only empty cells
/// and cells of one kind, a step claims cells of that kind alone.  From a
/// single red seed on a neutral-free board, everything ever claimed is
/// red.
pub proof fn lemma_spread_keeps_single_color(pre: Universe, post: Universe, c: Cell)
    requires
        pre.wf(),
        Universe::step_rel(pre, post),
        forall|i: int|
            0 <= i < pre.cells@.len() ==> (pre.cells@[i] == Cell::Empty || pre.cells@[i] == c),
    ensures
        forall|i: int|
            0 <= i < post.cells@.len() ==> (post.cells@[i] == Cell::Empty || post.cells@[i]
                == c),
{
    assert forall|i: int|
        0 <= i < post.cells@.len() implies (post.cells@[i] == Cell::Empty || post.cells@[i]
        == c) by {
        if pre.cells@[i] == Cell::Empty && post.cells@[i] != Cell::Empty {
            let p = pre.lemma_coords_of_index(i);
            assert(pre.cell_at(p) == Cell::Empty && post.cell_at(p) != Cell::Empty);
            let j = choose|j: int|
                0 <= j < pre.active_cells@.len() && adjacent(
                    (#[trigger] pre.active_cells@[j]).1,
                    p,
                ) && pre.active_cells@[j].0 == post.cell_at(p);
            assert(pre.frontier_entry_ok(pre.active_cells@[j]));
            let e = pre.active_cells@[j];
            lemma_index_bound(e.1.0 as int, e.1.1 as int, pre.width as int, pre.height as int);
            assert(pre.cells@[pre.idx(e.1)] == e.0);
        }
    }
}

/// Along a run of generation steps, a board holding only empty cells and
/// cells of one kind keeps holding only those.
pub proof fn lemma_steps_keep_single_color(tr: Seq<Universe>, c: Cell)
    requires
        tr.len() >= 1,
        forall|i: int| 0 <= i < tr.len() ==> (#[trigger] tr[i]).wf(),
        forall|i: int| 0 <= i < tr.len() - 1 ==> Universe::step_rel(#[trigger] tr[i], tr[i + 1]),
        forall|i: int|
            #![trigger tr[0].cells@[i]]
            0 <= i < tr[0].cells@.len() ==> (tr[0].cells@[i] == Cell::Empty || tr[0].cells@[i]
                == c),
    ensures
        forall|i: int|
            #![trigger tr[tr.len() - 1].cells@[i]]
            0 <= i < tr[tr.len() - 1].cells@.len() ==> (tr[tr.len() - 1].cells@[i] == Cell::Empty
                || tr[tr.len() - 1].cells@[i] == c),
    decreases tr.len(),
{
    if tr.len() > 1 {
        let rest = tr.drop_first();
        assert(Universe::step_rel(tr[0], tr[1]));
        lemma_spread_keeps_single_color(tr[0], tr[1], c);
        assert forall|i: int| 0 <= i < rest.len() implies (#[trigger] rest[i]).wf() by {
            assert(rest[i] == tr[i + 1]);
        }
        assert forall|i: int| 0 <= i < rest.len() - 1 implies Universe::step_rel(
            #[trigger] rest[i],
            rest[i + 1],
        ) by {
            assert(rest[i] == tr[i + 1] && rest[i + 1] == tr[i + 2]);
            assert(Universe::step_rel(tr[i + 1], tr[i + 2]));
        }
        assert(rest[0] == tr[1]);
        lemma_steps_keep_single_color(rest, c);
        assert(rest[rest.len() - 1] == tr[tr.len() - 1]);
    }
}

/// From a board seeded with one color only (no neutral blocks), whose
/// frontier covers the boundary, enough generation steps claim every
/// cell with that color and flag the board finished.
pub proof fn lemma_single_color_fills_board(tr: Seq<Universe>, c: Cell)
    requires
        tr.len() >= 2,
        tr.len() >= tr[0].n_empty + 2,
        forall|i: int| 0 <= i < tr.len() ==> (#[trigger] tr[i]).wf(),
        forall|i: int| 0 <= i < tr.len() - 1 ==> Universe::step_rel(#[trigger] tr[i], tr[i + 1]),
        tr[0].frontier_covers(),
        (tr[0].n_empty as int) < tr[0].width * tr[0].height,
        c != Cell::Empty,
        forall|i: int|
            #![trigger tr[0].cells@[i]]
            0 <= i < tr[0].cells@.len() ==> (tr[0].cells@[i] == Cell::Empty || tr[0].cells@[i]
                == c),
    ensures
        tr[tr.len() - 1].finished,
        forall|i: int|
            #![trigger tr[tr.len() - 1].cells@[i]]
            0 <= i < tr[tr.len() - 1].cells@.len() ==> tr[tr.len() - 1].cells@[i] == c,
{
    lemma_repeated_steps_finish(tr);
    lemma_steps_keep_single_color(tr, c);
    let last = tr[tr.len() - 1];
    assert forall|i: int| 0 <= i < last.cells@.len() implies last.cells@[i] == c by {
        if last.cells@[i] == Cell::Empty {
            lemma_count_positive(last.cells@, Cell::Empty, i);
        }
    }
}

/// A generation step makes progress: while some empty cell borders the
/// frontier, the number of empty cells strictly decreases.  Repeated from
/// a seeded grid this is what drives the board to `finished`.
pub proof fn lemma_step_progress(pre: Universe, post: Universe, j: int, q: Coords)
    requires
        pre.wf(),
        post.wf(),
        Universe::step_rel(pre, post),
        0 <= j < pre.active_cells@.len(),
        pre.in_bounds(q),
        adjacent(pre.active_cells@[j].1, q),
        pre.cell_at(q) == Cell::Empty,
    ensures
        post.n_empty < pre.n_empty,
{
    assert(post.cell_at(q) != Cell::Empty);
    lemma_index_bound(q.0 as int, q.1 as int, pre.width as int, pre.height as int);
    assert(forall|i: int|
        0 <= i < post.cells@.len() && post.cells@[i] == Cell::Empty ==> pre.cells@[i]
            == Cell::Empty) by {
        assert forall|i: int|
            0 <= i < post.cells@.len() && post.cells@[i] == Cell::Empty implies pre.cells@[i]
            == Cell::Empty by {
            if pre.cells@[i] != Cell::Empty {
                assert(post.cells@[i] == pre.cells@[i]);
            }
        }
    }
    lemma_count_pointwise(pre.cells@, post.cells@, Cell::Empty);
}

} // verus!
