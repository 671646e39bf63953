use vstd::prelude::*;

use std::collections::HashMap;

use crate::cell::Color;
use crate::match_state::Match;
use crate::universe::Coords;
use crate::universe::Universe;
use crate::universe::HEIGHT_UNIVERSE;
use crate::universe::N_NEUTRAL_BLOCKS;
use crate::universe::WIDTH_UNIVERSE;

verus! {

broadcast use vstd::std_specs::hash::group_hash_axioms;

/// The process-wide table of matches keyed by identifier, plus the cursor
/// naming the one match currently open for seat assignment.  Exactly one
/// match accepts new seats at a time: once it fills, the cursor rolls
/// forward onto a fresh match and the full one stays reachable only by
/// its two players.  Callers guard a `Registry` with one lock and hold it
/// for single operations only.
pub struct Registry {
    pub matches: HashMap<u32, Match>,
    pub uni_id: u32,
}

impl Registry {
    /// Well-formedness: every match in the table is well-formed.
    pub open spec fn wf(self) -> bool {
        forall|id: u32| self.matches@.contains_key(id) ==> (#[trigger] self.matches@[id]).wf()
    }

    /// A registry holding one freshly randomized match under identifier 0,
    /// which is also the match open for seats.
    pub fn new() -> (r: Registry)
        ensures
            r.wf(),
            r.uni_id == 0,
            r.matches@.contains_key(0),
            r.matches@.dom() =~= Set::<u32>::empty().insert(0),
            r.matches@[0].turn_owner == Color::Red,
            !r.matches@[0].cell_claimed_this_turn,
            !r.matches@[0].grid.red_player_connected,
            !r.matches@[0].grid.blue_player_connected,
            r.matches@[0].grid.width == WIDTH_UNIVERSE as usize,
            r.matches@[0].grid.height == HEIGHT_UNIVERSE as usize,
            r.matches@[0].grid.n_red == 0,
            r.matches@[0].grid.n_blue == 0,
            1 <= r.matches@[0].grid.n_neutral <= N_NEUTRAL_BLOCKS,
            !r.matches@[0].grid.finished,
    {
        let mut matches: HashMap<u32, Match> = HashMap::new();
        matches.insert(0, Match::new(Universe::new_rand()));
        Registry { matches, uni_id: 0 }
    }

    /// Whether a match with this identifier exists.
    pub fn contains(&self, id: u32) -> (r: bool)
        ensures
            r == self.matches@.contains_key(id),
    {
        self.matches.contains_key(&id)
    }

    /// Borrow the match with this identifier, if it exists.
    pub fn get_match(&self, id: u32) -> (r: Option<&Match>)
        ensures
            match r {
                Some(m) => self.matches@.contains_key(id) && *m == self.matches@[id],
                None => !self.matches@.contains_key(id),
            },
    {
        self.matches.get(&id)
    }

    /// Tear the match with this identifier down; irreversible.  Returns
    /// whether anything was removed; later access under the identifier
    /// fails cleanly with a lookup miss.
    pub fn remove(&mut self, id: u32) -> (removed: bool)
        requires
            old(self).wf(),
        ensures
            final(self).wf(),
            final(self).matches@ == old(self).matches@.remove(id),
            final(self).uni_id == old(self).uni_id,
            removed == old(self).matches@.contains_key(id),
    {
        let r = self.matches.remove(&id);
        proof {
            assert(self.matches@ =~= old(self).matches@.remove(id));
        }
        match r {
            Some(_) => true,
            None => false,
        }
    }

    /// Hand a seat to a caller: the open match's free seat if it has one;
    /// otherwise the cursor rolls forward and a fresh randomized match is
    /// opened with the caller seated as Red.  Returns the color and the
    /// identifier of the joined match, or `None` when no match stands
    /// under the cursor (it was torn down and nothing was created since).
    pub fn request_seat(&mut self) -> (r: Option<(Color, u32)>)
        requires
            old(self).wf(),
            old(self).uni_id < u32::MAX,
        ensures
            final(self).wf(),
            match r {
                None => {
                    &&& !old(self).matches@.contains_key(old(self).uni_id)
                    &&& final(self).matches@ == old(self).matches@
                    &&& final(self).uni_id == old(self).uni_id
                },
                Some(assigned) => {
                    let cur = old(self).matches@[old(self).uni_id];
                    &&& old(self).matches@.contains_key(old(self).uni_id)
                    &&& final(self).uni_id == assigned.1
                    &&& final(self).matches@.contains_key(assigned.1)
                    &&& final(self).matches@ == old(self).matches@.insert(
                        assigned.1,
                        final(self).matches@[assigned.1],
                    )
                    &&& if !cur.grid.red_player_connected {
                        &&& assigned == (Color::Red, old(self).uni_id)
                        &&& Match::seat_rel(
                            cur,
                            final(self).matches@[assigned.1],
                            Some(Color::Red),
                        )
                    } else if !cur.grid.blue_player_connected {
                        &&& assigned == (Color::Blue, old(self).uni_id)
                        &&& Match::seat_rel(
                            cur,
                            final(self).matches@[assigned.1],
                            Some(Color::Blue),
                        )
                    } else {
                        let fresh = final(self).matches@[assigned.1];
                        &&& assigned == (Color::Red, (old(self).uni_id + 1) as u32)
                        &&& fresh.turn_owner == Color::Red
                        &&& !fresh.cell_claimed_this_turn
                        &&& fresh.grid.red_player_connected
                        &&& !fresh.grid.blue_player_connected
                        &&& fresh.grid.n_red == 0
                        &&& fresh.grid.n_blue == 0
                        &&& 1 <= fresh.grid.n_neutral <= N_NEUTRAL_BLOCKS
                        &&& !fresh.grid.finished
                        &&& fresh.grid.width == WIDTH_UNIVERSE as usize
                        &&& fresh.grid.height == HEIGHT_UNIVERSE as usize
                    }
                },
            },
    {
        let id = self.uni_id;
        let cur = self.matches.remove(&id);
        match cur {
            None => {
                proof {
                    assert(self.matches@ =~= old(self).matches@);
                }
                None
            },
            Some(mut m) => {
                let seat = m.assign_seat();
                match seat {
                    Some(c) => {
                        self.matches.insert(id, m);
                        proof {
                            assert(self.matches@ =~= old(self).matches@.insert(
                                id,
                                self.matches@[id],
                            ));
                        }
                        Some((c, id))
                    },
                    None => {
                        // the open match is full: put it back untouched,
                        // roll the cursor, open a fresh match, take Red
                        self.matches.insert(id, m);
                        let new_id = id + 1;
                        let mut fresh = Match::new(Universe::new_rand());
                        let _first_seat = fresh.assign_seat();
                        self.matches.insert(new_id, fresh);
                        self.uni_id = new_id;
                        proof {
                            assert(self.matches@ =~= old(self).matches@.insert(
                                new_id,
                                self.matches@[new_id],
                            ));
                        }
                        Some((Color::Red, new_id))
                    },
                }
            },
        }
    }

    /// One poll of a match: advance the turn clock with the elapsed time
    /// and return whether a generation ran together with a snapshot for
    /// the client (showing a restarted clock when one did).  `None` when
    /// no match stands under the identifier.
    pub fn poll(&mut self, id: u32, elapsed_ms: u64) -> (r: Option<(bool, Universe)>)
        requires
            old(self).wf(),
        ensures
            final(self).wf(),
            final(self).uni_id == old(self).uni_id,
            match r {
                None => {
                    &&& !old(self).matches@.contains_key(id)
                    &&& final(self).matches@ == old(self).matches@
                },
                Some(out) => {
                    &&& old(self).matches@.contains_key(id)
                    &&& final(self).matches@ == old(self).matches@.insert(
                        id,
                        final(self).matches@[id],
                    )
                    &&& Match::tick_rel(
                        old(self).matches@[id],
                        final(self).matches@[id],
                        elapsed_ms,
                        out.0,
                    )
                    &&& Match::is_snapshot(
                        out.1,
                        final(self).matches@[id].grid,
                        if out.0 {
                            0u64
                        } else {
                            elapsed_ms
                        },
                    )
                },
            },
    {
        let cur = self.matches.remove(&id);
        match cur {
            None => {
                proof {
                    assert(self.matches@ =~= old(self).matches@);
                }
                None
            },
            Some(mut m) => {
                let advanced = m.tick(elapsed_ms);
                let snap = m.snapshot(if advanced {
                    0
                } else {
                    elapsed_ms
                });
                self.matches.insert(id, m);
                proof {
                    assert(self.matches@ =~= old(self).matches@.insert(id, self.matches@[id]));
                }
                Some((advanced, snap))
            },
        }
    }

    /// One claim attempt routed to a match: accepted only when `color`
    /// owns the turn and has not spent its claim (the match's rules).
    /// `None` when no match stands under the identifier.
    pub fn claim_cell(&mut self, id: u32, color: Color, coords: Coords) -> (r: Option<bool>)
        requires
            old(self).wf(),
        ensures
            final(self).wf(),
            final(self).uni_id == old(self).uni_id,
            match r {
                None => {
                    &&& !old(self).matches@.contains_key(id)
                    &&& final(self).matches@ == old(self).matches@
                },
                Some(accepted) => {
                    &&& old(self).matches@.contains_key(id)
                    &&& final(self).matches@ == old(self).matches@.insert(
                        id,
                        final(self).matches@[id],
                    )
                    &&& Match::claim_rel(
                        old(self).matches@[id],
                        final(self).matches@[id],
                        color,
                        coords,
                        accepted,
                    )
                },
            },
    {
        let cur = self.matches.remove(&id);
        match cur {
            None => {
                proof {
                    assert(self.matches@ =~= old(self).matches@);
                }
                None
            },
            Some(mut m) => {
                let accepted = m.attempt_claim(color, coords);
                self.matches.insert(id, m);
                proof {
                    assert(self.matches@ =~= old(self).matches@.insert(id, self.matches@[id]));
                }
                Some(accepted)
            },
        }
    }
}

} // verus!
