use vstd::prelude::*;

use crate::cell::CellReadError;
use crate::cell::Color;
use crate::universe::Coords;
use crate::universe::Universe;

verus! {

/// Milliseconds a turn lasts: once this much time has passed since the
/// turn began, the next poll advances the grid by one generation and the
/// turn flips.  Simulation progress is measured in generations, never in
/// seconds; the clock only gates when a generation may run.
pub const TURN_MS: u64 = 2000;

/// One match: a grid, two seats and one turn clock.  The wall clock itself
/// lives with the caller (a match that nobody polls never advances); the
/// coordinator is handed the milliseconds elapsed since the turn began.
pub struct Match {
    pub grid: Universe,
    /// The side whose claim is accepted this turn; alternates between
    /// `Red` and `Blue` every time the clock rolls over.
    pub turn_owner: Color,
    /// Whether the one accepted claim of the current turn has been spent.
    pub cell_claimed_this_turn: bool,
}

impl Match {
    /// Well-formedness: the grid is well-formed and the turn is always
    /// owned by an actual player.
    pub open spec fn wf(self) -> bool {
        &&& self.grid.wf()
        &&& (self.turn_owner == Color::Red || self.turn_owner == Color::Blue)
    }

    /// A fresh match over `grid`: Red moves first, no claim spent yet.
    pub fn new(grid: Universe) -> (m: Match)
        requires
            grid.wf(),
        ensures
            m.wf(),
            m.grid == grid,
            m.turn_owner == Color::Red,
            !m.cell_claimed_this_turn,
    {
        Match { grid, turn_owner: Color::Red, cell_claimed_this_turn: false }
    }

    /// Exact description of one seat request: Red if free, else Blue, else
    /// nothing changes and the match reports itself full.
    pub open spec fn seat_rel(pre: Match, post: Match, r: Option<Color>) -> bool {
        if !pre.grid.red_player_connected {
            &&& r == Some(Color::Red)
            &&& post == (Match {
                grid: Universe { red_player_connected: true, ..pre.grid },
                ..pre
            })
        } else if !pre.grid.blue_player_connected {
            &&& r == Some(Color::Blue)
            &&& post == (Match {
                grid: Universe { blue_player_connected: true, ..pre.grid },
                ..pre
            })
        } else {
            &&& r == None::<Color>
            &&& post == pre
        }
    }

    /// Claim a seat.  Each seat is handed out at most once; a full match
    /// returns `None` and the caller opens a new match instead.
    pub fn assign_seat(&mut self) -> (r: Option<Color>)
        requires
            old(self).wf(),
        ensures
            final(self).wf(),
            Match::seat_rel(*old(self), *final(self), r),
    {
        if !self.grid.red_player_connected {
            self.grid.red_player_connected = true;
            Some(Color::Red)
        } else if !self.grid.blue_player_connected {
            self.grid.blue_player_connected = true;
            Some(Color::Blue)
        } else {
            None
        }
    }

    /// Exact description of one claim attempt: only the turn owner's first
    /// claim of a turn reaches the grid, and it spends the turn's claim
    /// whether or not the grid accepts the cell.  Anything else is
    /// silently ignored and changes nothing.
    pub open spec fn claim_rel(
        pre: Match,
        post: Match,
        color: Color,
        coords: Coords,
        accepted: bool,
    ) -> bool {
        if color == pre.turn_owner && !pre.cell_claimed_this_turn {
            &&& post.turn_owner == pre.turn_owner
            &&& post.cell_claimed_this_turn
            &&& Universe::set_cell_rel(
                pre.grid,
                post.grid,
                color.spec_to_cell(),
                coords,
                Ok(accepted),
            )
        } else {
            &&& post == pre
            &&& !accepted
        }
    }

    /// Attempt to claim the cell at `coords` for `color`.  Out-of-turn and
    /// repeated claims are dropped silently: repeated client polling makes
    /// duplicate or late requests normal, not errors.
    pub fn attempt_claim(&mut self, color: Color, coords: Coords) -> (accepted: bool)
        requires
            old(self).wf(),
        ensures
            final(self).wf(),
            Match::claim_rel(*old(self), *final(self), color, coords, accepted),
    {
        if color == self.turn_owner && !self.cell_claimed_this_turn {
            self.cell_claimed_this_turn = true;
            let cell = color.to_cell();
            let r = self.grid.set_cell(&cell, coords);
            match r {
                Ok(b) => b,
                Err(_) => false,
            }
        } else {
            false
        }
    }

    /// Exact description of one poll of the turn clock: before the
    /// threshold nothing happens; from the threshold on, the grid advances
    /// one generation, the spent-claim flag clears and the turn flips.
    pub open spec fn tick_rel(pre: Match, post: Match, elapsed_ms: u64, advanced: bool) -> bool {
        if elapsed_ms >= TURN_MS {
            &&& advanced
            &&& Universe::step_rel(pre.grid, post.grid)
            &&& post.turn_owner == (if pre.turn_owner == Color::Red {
                Color::Blue
            } else {
                Color::Red
            })
            &&& !post.cell_claimed_this_turn
        } else {
            &&& !advanced
            &&& post == pre
        }
    }

    /// Poll the turn clock with the milliseconds elapsed since the turn
    /// began.  Returns whether a generation ran, in which case the caller
    /// restarts its clock.  Polling before the threshold is a no-op, so
    /// concurrent pollers cannot advance the match faster than real time.
    pub fn tick(&mut self, elapsed_ms: u64) -> (advanced: bool)
        requires
            old(self).wf(),
        ensures
            final(self).wf(),
            Match::tick_rel(*old(self), *final(self), elapsed_ms, advanced),
    {
        if elapsed_ms >= TURN_MS {
            self.grid.evolve();
            self.cell_claimed_this_turn = false;
            self.turn_owner = if self.turn_owner == Color::Red {
                Color::Blue
            } else {
                Color::Red
            };
            true
        } else {
            false
        }
    }

    /// `snap` is a faithful copy of `grid` carrying `t` as its displayed
    /// turn time.
    pub open spec fn is_snapshot(snap: Universe, grid: Universe, t: u64) -> bool {
        &&& snap.cells@ == grid.cells@
        &&& snap.active_cells@ == grid.active_cells@
        &&& snap.width == grid.width
        &&& snap.height == grid.height
        &&& snap.n_empty == grid.n_empty
        &&& snap.n_neutral == grid.n_neutral
        &&& snap.n_red == grid.n_red
        &&& snap.n_blue == grid.n_blue
        &&& snap.finished == grid.finished
        &&& snap.timer == t
        &&& snap.red_player_connected == grid.red_player_connected
        &&& snap.blue_player_connected == grid.blue_player_connected
    }

    /// A read-only copy of the grid with the elapsed turn time recorded,
    /// ready to be serialized for the client.
    pub fn snapshot(&self, elapsed_ms: u64) -> (r: Universe)
        requires
            self.wf(),
        ensures
            r.wf(),
            Match::is_snapshot(r, self.grid, elapsed_ms),
    {
        let mut r = self.grid.clone();
        r.set_timer(elapsed_ms);
        r
    }
}

/// Seat assignment on a fresh match hands out Red, then Blue, then only
/// reports the match full, changing nothing further.
pub proof fn lemma_seats_in_order(
    m0: Match,
    m1: Match,
    m2: Match,
    m3: Match,
    r1: Option<Color>,
    r2: Option<Color>,
    r3: Option<Color>,
)
    requires
        !m0.grid.red_player_connected,
        !m0.grid.blue_player_connected,
        Match::seat_rel(m0, m1, r1),
        Match::seat_rel(m1, m2, r2),
        Match::seat_rel(m2, m3, r3),
    ensures
        r1 == Some(Color::Red),
        r2 == Some(Color::Blue),
        r3 == None::<Color>,
        m3 == m2,
{
}

/// A claim from the side not owning the turn is always rejected and
/// leaves the match untouched, whatever the position named.
pub proof fn lemma_claim_out_of_turn_rejected(
    pre: Match,
    post: Match,
    color: Color,
    coords: Coords,
    accepted: bool,
)
    requires
        Match::claim_rel(pre, post, color, coords, accepted),
        color != pre.turn_owner,
    ensures
        !accepted,
        post == pre,
{
}

/// Two claims by the turn owner within one turn: the first reaches the
/// grid (and succeeds exactly when it names an empty cell on the board);
/// the second is a no-op even when it names a different valid empty cell.
pub proof fn lemma_second_claim_ignored(
    m0: Match,
    m1: Match,
    m2: Match,
    color: Color,
    p1: Coords,
    p2: Coords,
    a1: bool,
    a2: bool,
)
    requires
        color == m0.turn_owner,
        !m0.cell_claimed_this_turn,
        Match::claim_rel(m0, m1, color, p1, a1),
        Match::claim_rel(m1, m2, color, p2, a2),
    ensures
        a1 == (m0.grid.claim_result(color.spec_to_cell(), p1) == Ok::<bool, CellReadError>(true)),
        !a2,
        m2 == m1,
{
}

} // verus!
