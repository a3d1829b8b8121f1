//! The match state: grid, unit registry, wait-turn scheduler and the
//! delayed turn notices, with the invariant that ties them together.
//!
//! A unit's `position` and the grid tile's occupant are always mutually
//! consistent: every unit stands on the tile that names it, and every
//! occupied tile names a registered unit.

use vstd::prelude::*;

use crate::grid::{Grid, MAX_SIDE};
use crate::units::{Role, TimedAction, Unit};

verus! {

/// Who commands a team.
#[derive(Clone, Copy, PartialEq, Eq, Structural, Debug)]
pub enum ControlledBy {
    Player,
    Ai,
    Nobody,
}

/// A turn-start notification scheduled for broadcast once `due`
/// milliseconds of simulation time have passed. The delay keeps it from
/// racing the previous turn's closing broadcast.
#[derive(Clone, Copy, PartialEq, Eq, Structural, Debug)]
pub struct TurnNotice {
    pub client_id: u64,
    pub current_unit: usize,
    pub due: u64,
}

/// Delay between a unit becoming active and the turn-start broadcast.
pub const TURN_NOTICE_DELAY_MS: u64 = 500;

/// The server-authoritative state of one match.
pub struct MatchState {
    pub grid: Grid,
    pub units: Vec<Unit>,
    /// Id of the unit whose turn is active, if any.
    pub active: Option<usize>,
    pub current_team: usize,
    pub has_started: bool,
    pub players: Vec<(usize, ControlledBy)>,
    pub winner: ControlledBy,
    pub pending_turn_notices: Vec<TurnNotice>,
}

impl MatchState {
    pub open spec fn units_wf(self) -> bool {
        forall|i: int| 0 <= i < self.units@.len() ==> (#[trigger] self.units@[i]).wf()
    }

    pub open spec fn ids_unique(self) -> bool {
        forall|i: int, j: int|
            0 <= i < j < self.units@.len() ==> (#[trigger] self.units@[i]).id != (
            #[trigger] self.units@[j]).id
    }

    /// Every unit stands on the tile that records its id.
    pub open spec fn units_placed(self) -> bool {
        forall|i: int|
            0 <= i < self.units@.len() ==> self.grid.occ_at((#[trigger] self.units@[i]).pos)
                == Some(self.units@[i].id)
    }

    /// Every occupied tile records the id of a unit standing there.
    pub open spec fn occupants_registered(self) -> bool {
        forall|x: int, y: int|
            #[trigger] self.grid.occ(x, y) is Some ==> exists|i: int|
                0 <= i < self.units@.len() && (#[trigger] self.units@[i]).pos.x == x
                    && self.units@[i].pos.y == y && self.units@[i].id == self.grid.occ(
                    x,
                    y,
                )->Some_0
    }

    pub open spec fn active_registered(self) -> bool {
        match self.active {
            Some(id) => exists|i: int|
                0 <= i < self.units@.len() && (#[trigger] self.units@[i]).id == id,
            None => true,
        }
    }

    #[verifier::opaque]
    pub open spec fn wf(self) -> bool {
        &&& self.grid.wf()
        &&& self.units_wf()
        &&& self.ids_unique()
        &&& self.units_placed()
        &&& self.occupants_registered()
        &&& self.active_registered()
    }

    /// A fresh match: an empty grid, no units, nobody active, team one to
    /// act, no winner yet.
    pub fn new(width: usize, height: usize) -> (s: MatchState)
        requires
            1 <= width <= MAX_SIDE,
            1 <= height <= MAX_SIDE,
        ensures
            s.wf(),
            s.grid.width == width,
            s.grid.height == height,
            s.units@.len() == 0,
            s.active is None,
            s.current_team == 1,
            !s.has_started,
            s.players@.len() == 0,
            s.winner is Nobody,
            s.pending_turn_notices@.len() == 0,
    {
        proof {
            reveal(MatchState::wf);
        }
        MatchState {
            grid: Grid::new(width, height),
            units: Vec::new(),
            active: None,
            current_team: 1,
            has_started: false,
            players: Vec::new(),
            winner: ControlledBy::Nobody,
            pending_turn_notices: Vec::new(),
        }
    }

    /// Registers the two player-controlled teams and marks the match as
    /// started.
    pub fn setup_players(&mut self)
        ensures
            final(self).players@ == seq![
                (1usize, ControlledBy::Player),
                (2usize, ControlledBy::Player),
            ],
            final(self).has_started,
            *final(self) == (MatchState {
                players: final(self).players,
                has_started: true,
                ..*old(self)
            }),
    {
        let mut players: Vec<(usize, ControlledBy)> = Vec::new();
        players.push((1, ControlledBy::Player));
        players.push((2, ControlledBy::Player));
        proof {
            assert(players@ =~= seq![(1usize, ControlledBy::Player), (2usize, ControlledBy::Player)]);
        }
        self.players = players;
        self.has_started = true;
    }

    /// Adds a unit to the registry and places it on its tile. Rejected,
    /// leaving the state unchanged, when the unit's id is already taken,
    /// its tile is off the grid, or its tile is occupied.
    pub fn add_unit(&mut self, u: Unit) -> (ok: bool)
        requires
            old(self).wf(),
            u.wf(),
        ensures
            final(self).wf(),
            ok == (!(exists|i: int|
                0 <= i < old(self).units@.len() && (#[trigger] old(self).units@[i]).id == u.id)
                && old(self).grid.spec_in_bounds(u.pos) && old(self).grid.occ_at(u.pos) is None),
            final(self).grid.width == old(self).grid.width,
            final(self).grid.height == old(self).grid.height,
            ok ==> *final(self) == (MatchState {
                grid: final(self).grid,
                units: final(self).units,
                ..*old(self)
            }) && final(self).units@ == old(self).units@.push(u) && final(self).grid.occ_at(u.pos)
                == Some(u.id) && (forall|x: int, y: int|
                !(x == u.pos.x && y == u.pos.y) ==> final(self).grid.occ(x, y) == old(
                    self,
                ).grid.occ(x, y)),
            !ok ==> *final(self) == *old(self),
    {
        proof {
            lemma_wf_grid(*old(self));
        }
        let mut taken = false;
        let mut i: usize = 0;
        while i < self.units.len()
            invariant
                i <= self.units@.len(),
                taken == (exists|j: int|
                    0 <= j < i && (#[trigger] self.units@[j]).id == u.id),
            decreases self.units@.len() - i,
        {
            if self.units[i].id == u.id {
                taken = true;
            }
            i = i + 1;
        }
        if taken {
            return false;
        }
        let placed = self.grid.place(u.pos, u.id);
        if !placed {
            return false;
        }
        self.units.push(u);
        proof {
            reveal(MatchState::wf);
            let n = old(self).units@.len() as int;
            assert(self.units@[n] == u);
            assert forall|x: int, y: int| #[trigger] self.grid.occ(x, y) is Some implies exists|
                k: int,
            |
                0 <= k < self.units@.len() && (#[trigger] self.units@[k]).pos.x == x
                    && self.units@[k].pos.y == y && self.units@[k].id == self.grid.occ(
                    x,
                    y,
                )->Some_0 by {
                if x == u.pos.x && y == u.pos.y {
                    assert(self.units@[n].pos.x == x && self.units@[n].pos.y == y);
                } else {
                    assert(old(self).grid.occ(x, y) is Some);
                    let k = choose|k: int|
                        0 <= k < old(self).units@.len() && (#[trigger] old(self).units@[k]).pos.x
                            == x && old(self).units@[k].pos.y == y && old(self).units@[k].id == old(
                            self,
                        ).grid.occ(x, y)->Some_0;
                    assert(self.units@[k] == old(self).units@[k]);
                }
            }
            assert forall|i2: int|
                0 <= i2 < self.units@.len() implies self.grid.occ_at(
                (#[trigger] self.units@[i2]).pos,
            ) == Some(self.units@[i2].id) by {
                if i2 < n {
                    assert(old(self).grid.occ_at(old(self).units@[i2].pos) == Some(
                        old(self).units@[i2].id,
                    ));
                    if self.units@[i2].pos.x == u.pos.x && self.units@[i2].pos.y == u.pos.y {
                        assert(old(self).grid.occ_at(u.pos) is None);
                        assert(false);
                    }
                }
            }
        }
        true
    }
}

/// A unit after one scheduler pass: its wait counter one lower unless
/// already zero.
pub open spec fn wt_after_tick(u: Unit) -> Unit {
    Unit { wt_current: if u.wt_current > 0 { (u.wt_current - 1) as usize } else { 0 }, ..u }
}

/// Index of the first unit, in creation order from `k` on, whose wait
/// counter is zero.
pub open spec fn first_zero_from(units: Seq<Unit>, k: int) -> Option<int>
    decreases units.len() - k,
{
    if k < 0 || k >= units.len() {
        None
    } else if units[k].wt_current == 0 {
        Some(k)
    } else {
        first_zero_from(units, k + 1)
    }
}

/// Index of the unit carrying `id`, if registered.
pub open spec fn idx_of_id(units: Seq<Unit>, id: usize) -> Option<int>
    decreases units.len(),
{
    if units.len() == 0 {
        None
    } else if units[0].id == id {
        Some(0)
    } else {
        match idx_of_id(units.drop_first(), id) {
            Some(i) => Some(i + 1),
            None => None,
        }
    }
}

/// One scheduler pass over an idle match, relating the state before to
/// the state after: every wait counter one lower unless already zero,
/// the first unit at zero (in creation order) activated, and its delayed
/// turn-start notice scheduled.
pub open spec fn scheduler_ticked(
    pre: MatchState,
    post: MatchState,
    now: u64,
    activated: bool,
) -> bool {
    let sel = first_zero_from(post.units@, 0);
    &&& post.units@.len() == pre.units@.len()
    &&& (forall|i: int|
        0 <= i < pre.units@.len() ==> #[trigger] post.units@[i] == wt_after_tick(pre.units@[i]))
    &&& activated == (sel is Some)
    &&& post.active == (match sel {
        Some(i) => Some(post.units@[i].id),
        None => None::<usize>,
    })
    &&& post.pending_turn_notices@ == (match sel {
        Some(i) => pre.pending_turn_notices@.push(
            TurnNotice {
                client_id: post.units@[i].team as u64,
                current_unit: post.units@[i].id,
                due: (now + TURN_NOTICE_DELAY_MS) as u64,
            },
        ),
        None => pre.pending_turn_notices@,
    })
    &&& post == (MatchState {
        units: post.units,
        active: post.active,
        pending_turn_notices: post.pending_turn_notices,
        ..pre
    })
}

/// The active unit may end its turn: it is registered and its action
/// queue has fully drained.
pub open spec fn turn_completable(s: MatchState) -> bool {
    match s.active {
        Some(id) => (match idx_of_id(s.units@, id) {
            Some(i) => s.units@[i].actions@.len() == 0 && !s.units@[i].processing,
            None => false,
        }),
        None => false,
    }
}

/// Ending the active unit's turn: its wait counter back at its maximum,
/// the Active tag cleared, everything else untouched.
pub open spec fn turn_completed(pre: MatchState, post: MatchState) -> bool {
    let i = idx_of_id(pre.units@, pre.active->Some_0)->Some_0;
    &&& post.units@ == pre.units@.update(
        i,
        Unit { wt_current: pre.units@[i].wt_max, ..pre.units@[i] },
    )
    &&& post.active is None
    &&& post == (MatchState { units: post.units, active: None, ..pre })
}

/// The death sweep's effect: the survivors are exactly the living units
/// in order, each dead unit's tile is cleared (and no other), the grid
/// keeps its bounds, and the scheduler idles if the active unit died.
pub open spec fn deaths_processed(pre: MatchState, post: MatchState) -> bool {
    &&& post.units@ == pre.units@.filter(|u: Unit| u.hp_current > 0)
    &&& post.grid.width == pre.grid.width
    &&& post.grid.height == pre.grid.height
    &&& (forall|x: int, y: int|
        #[trigger] post.grid.occ(x, y) == (if dead_at(pre.units@, x, y) {
            None
        } else {
            pre.grid.occ(x, y)
        }))
    &&& post.active == (match pre.active {
        Some(id) => if dead_id(pre.units@, id) {
            None
        } else {
            Some(id)
        },
        None => None::<usize>,
    })
    &&& post == (MatchState { grid: post.grid, units: post.units, active: post.active, ..pre })
}

/// Handing out a scheduled turn-start notice: the oldest one leaves the
/// schedule exactly when its delay has elapsed.
pub open spec fn notice_taken(
    pre: MatchState,
    post: MatchState,
    now: u64,
    r: Option<TurnNotice>,
) -> bool {
    match r {
        Some(n) => pre.pending_turn_notices@.len() > 0 && n == pre.pending_turn_notices@[0]
            && n.due <= now && post == (MatchState {
            pending_turn_notices: post.pending_turn_notices,
            ..pre
        }) && post.pending_turn_notices@ == pre.pending_turn_notices@.drop_first(),
        None => post == pre && (pre.pending_turn_notices@.len() == 0
            || pre.pending_turn_notices@[0].due > now),
    }
}

impl MatchState {
    /// One scheduler pass, run only while no turn is active: every unit's
    /// wait counter drops by one unless already zero, then the first unit
    /// in creation order whose counter sits at zero becomes Active and its
    /// turn-start notice is scheduled `TURN_NOTICE_DELAY_MS` ahead.
    pub fn wait_turn_tick(&mut self, now: u64) -> (activated: bool)
        requires
            old(self).wf(),
            now + TURN_NOTICE_DELAY_MS <= u64::MAX,
        ensures
            final(self).wf(),
            old(self).active is Some ==> *final(self) == *old(self) && !activated,
            old(self).active is None ==> scheduler_ticked(*old(self), *final(self), now, activated),
    {
        if self.active.is_some() {
            return false;
        }
        let n = self.units.len();
        let mut i: usize = 0;
        while i < n
            invariant
                n == self.units@.len(),
                n == old(self).units@.len(),
                i <= n,
                *self == (MatchState { units: self.units, ..*old(self) }),
                forall|j: int|
                    0 <= j < i ==> #[trigger] self.units@[j] == wt_after_tick(old(self).units@[j]),
                forall|j: int| i <= j < n ==> #[trigger] self.units@[j] == old(self).units@[j],
            decreases n - i,
        {
            if self.units[i].wt_current > 0 {
                let w = self.units[i].wt_current;
                self.units[i].wt_current = w - 1;
            }
            i = i + 1;
        }
        proof {
            reveal(MatchState::wf);
            assert forall|i2: int|
                0 <= i2 < self.units@.len() implies self.grid.occ_at(
                (#[trigger] self.units@[i2]).pos,
            ) == Some(self.units@[i2].id) by {
                assert(self.units@[i2] == wt_after_tick(old(self).units@[i2]));
            }
            assert forall|x: int, y: int| #[trigger] self.grid.occ(x, y) is Some implies exists|
                k: int,
            |
                0 <= k < self.units@.len() && (#[trigger] self.units@[k]).pos.x == x
                    && self.units@[k].pos.y == y && self.units@[k].id == self.grid.occ(
                    x,
                    y,
                )->Some_0 by {
                let k = choose|k: int|
                    0 <= k < old(self).units@.len() && (#[trigger] old(self).units@[k]).pos.x == x
                        && old(self).units@[k].pos.y == y && old(self).units@[k].id == old(
                        self,
                    ).grid.occ(x, y)->Some_0;
                assert(self.units@[k] == wt_after_tick(old(self).units@[k]));
            }
        }
        let mut k: usize = 0;
        while k < n
            invariant
                n == self.units@.len(),
                n == old(self).units@.len(),
                k <= n,
                first_zero_from(self.units@, 0) == first_zero_from(self.units@, k as int),
                now + TURN_NOTICE_DELAY_MS <= u64::MAX,
                self.wf(),
                *self == (MatchState { units: self.units, ..*old(self) }),
                self.active is None,
                forall|j: int|
                    0 <= j < n ==> #[trigger] self.units@[j] == wt_after_tick(old(self).units@[j]),
            decreases n - k,
        {
            if self.units[k].wt_current == 0 {
                proof {
                    assert(first_zero_from(self.units@, k as int) == Some(k as int));
                }
                let id = self.units[k].id;
                let team = self.units[k].team;
                self.active = Some(id);
                self.pending_turn_notices.push(
                    TurnNotice { client_id: team as u64, current_unit: id, due: now
                        + TURN_NOTICE_DELAY_MS },
                );
                proof {
                    reveal(MatchState::wf);
                    assert(self.units@[k as int].id == id);
                    let sel = first_zero_from(self.units@, 0);
                    assert(sel == Some(k as int));
                    assert(self.units@.len() == old(self).units@.len());
                    assert(self.active == Some(self.units@[k as int].id));
                    assert(self.pending_turn_notices@ == old(self).pending_turn_notices@.push(
                        TurnNotice {
                            client_id: self.units@[k as int].team as u64,
                            current_unit: self.units@[k as int].id,
                            due: (now + TURN_NOTICE_DELAY_MS) as u64,
                        },
                    ));
                    assert(*self == (MatchState {
                        units: self.units,
                        active: self.active,
                        pending_turn_notices: self.pending_turn_notices,
                        ..*old(self)
                    }));
                }
                return true;
            }
            k = k + 1;
        }
        false
    }

    /// Ends the active unit's turn on the client's signal: its wait
    /// counter resets to its maximum and the Active tag clears. Ignored,
    /// returning `false`, when no unit is active or the active unit's
    /// action queue has not fully drained.
    #[verifier::rlimit(100)]
    pub fn complete_turn(&mut self) -> (done: bool)
        requires
            old(self).wf(),
        ensures
            final(self).wf(),
            done == turn_completable(*old(self)),
            done ==> turn_completed(*old(self), *final(self)),
            !done ==> *final(self) == *old(self),
    {
        let id = match self.active {
            Some(id) => id,
            None => {
                return false;
            },
        };
        let n = self.units.len();
        proof {
            assert(self.units@.subrange(0, n as int) =~= self.units@);
        }
        let mut k: usize = 0;
        while k < n
            invariant
                n == self.units@.len(),
                k <= n,
                idx_of_id(self.units@, id) == (match idx_of_id(
                    self.units@.subrange(k as int, n as int),
                    id,
                ) {
                    Some(i) => Some(i + k),
                    None => None::<int>,
                }),
                *self == *old(self),
                old(self).wf(),
                self.active == Some(id),
            decreases n - k,
        {
            let ghost suffix = self.units@.subrange(k as int, n as int);
            proof {
                assert(suffix[0] == self.units@[k as int]);
                assert(suffix.drop_first() =~= self.units@.subrange(k + 1, n as int));
            }
            if self.units[k].id == id {
                proof {
                    assert(idx_of_id(self.units@, id) == Some(k as int));
                }
                if self.units[k].actions.len() == 0 && !self.units[k].processing {
                    let wt_max = self.units[k].wt_max;
                    self.units[k].wt_current = wt_max;
                    self.active = None;
                    proof {
                        reveal(MatchState::wf);
                        let i = k as int;
                        assert(self.units@ =~= old(self).units@.update(
                            i,
                            Unit { wt_current: old(self).units@[i].wt_max, ..old(self).units@[i] },
                        ));
                        assert forall|i2: int|
                            0 <= i2 < self.units@.len() implies self.grid.occ_at(
                            (#[trigger] self.units@[i2]).pos,
                        ) == Some(self.units@[i2].id) by {
                            assert(old(self).grid.occ_at(old(self).units@[i2].pos) == Some(
                                old(self).units@[i2].id,
                            ));
                        }
                        assert forall|x: int, y: int|
                            #[trigger] self.grid.occ(x, y) is Some implies exists|j: int|
                            0 <= j < self.units@.len() && (#[trigger] self.units@[j]).pos.x == x
                                && self.units@[j].pos.y == y && self.units@[j].id == self.grid.occ(
                                x,
                                y,
                            )->Some_0 by {
                            let j = choose|j: int|
                                0 <= j < old(self).units@.len() && (
                                #[trigger] old(self).units@[j]).pos.x == x
                                    && old(self).units@[j].pos.y == y && old(self).units@[j].id
                                    == old(self).grid.occ(x, y)->Some_0;
                            assert(self.units@[j].pos == old(self).units@[j].pos);
                            assert(self.units@[j].id == old(self).units@[j].id);
                        }
                    }
                    return true;
                } else {
                    return false;
                }
            }
            k = k + 1;
        }
        false
    }

    /// Index of the registered unit carrying `id`.
    pub fn find_by_id(&self, id: usize) -> (r: Option<usize>)
        ensures
            (match r {
                Some(i) => idx_of_id(self.units@, id) == Some(i as int) && i < self.units@.len()
                    && self.units@[i as int].id == id,
                None => idx_of_id(self.units@, id) is None,
            }),
    {
        let n = self.units.len();
        proof {
            assert(self.units@.subrange(0, n as int) =~= self.units@);
        }
        let mut k: usize = 0;
        while k < n
            invariant
                n == self.units@.len(),
                k <= n,
                idx_of_id(self.units@, id) == (match idx_of_id(
                    self.units@.subrange(k as int, n as int),
                    id,
                ) {
                    Some(i) => Some(i + k),
                    None => None::<int>,
                }),
            decreases n - k,
        {
            let ghost suffix = self.units@.subrange(k as int, n as int);
            proof {
                assert(suffix[0] == self.units@[k as int]);
                assert(suffix.drop_first() =~= self.units@.subrange(k + 1, n as int));
            }
            if self.units[k].id == id {
                proof {
                    assert(idx_of_id(self.units@, id) == Some(k as int));
                }
                return Some(k);
            }
            k = k + 1;
        }
        None
    }

    /// Appends one timed action to unit `i`'s queue.
    pub fn push_unit_action(&mut self, i: usize, ta: TimedAction)
        requires
            old(self).wf(),
            i < old(self).units@.len(),
        ensures
            final(self).wf(),
            final(self).units@ == old(self).units@.update(
                i as int,
                Unit { actions: final(self).units@[i as int].actions, ..old(self).units@[i as int] },
            ),
            final(self).units@[i as int].actions@ == old(self).units@[i as int].actions@.push(ta),
            *final(self) == (MatchState { units: final(self).units, ..*old(self) }),
    {
        self.units[i].actions.push(ta);
        proof {
            assert(self.units@ =~= old(self).units@.update(
                i as int,
                Unit { actions: self.units@[i as int].actions, ..old(self).units@[i as int] },
            ));
            lemma_wf_units_requeued(*old(self), *self);
        }
    }

    /// Sets unit `i`'s transient combat role.
    pub fn set_unit_role(&mut self, i: usize, role: Option<Role>)
        requires
            old(self).wf(),
            i < old(self).units@.len(),
        ensures
            final(self).wf(),
            final(self).units@ == old(self).units@.update(
                i as int,
                Unit { role: role, ..old(self).units@[i as int] },
            ),
            *final(self) == (MatchState { units: final(self).units, ..*old(self) }),
    {
        self.units[i].role = role;
        proof {
            assert(self.units@ =~= old(self).units@.update(
                i as int,
                Unit { role: role, ..old(self).units@[i as int] },
            ));
            lemma_wf_units_requeued(*old(self), *self);
        }
    }

    /// Hands out the oldest scheduled turn-start notice once its delay
    /// has elapsed; the notice leaves the schedule.
    pub fn due_turn_notice(&mut self, now: u64) -> (r: Option<TurnNotice>)
        requires
            old(self).wf(),
        ensures
            final(self).wf(),
            notice_taken(*old(self), *final(self), now, r),
    {
        if self.pending_turn_notices.len() == 0 {
            return None;
        }
        let head = self.pending_turn_notices[0];
        if head.due <= now {
            self.pending_turn_notices.remove(0);
            proof {
                reveal(MatchState::wf);
                assert(self.pending_turn_notices@ =~= old(
                    self,
                ).pending_turn_notices@.drop_first());
            }
            Some(head)
        } else {
            None
        }
    }
}

/// Some unit among `units` has died (zero health) standing at `(x, y)`.
pub open spec fn dead_at(units: Seq<Unit>, x: int, y: int) -> bool {
    exists|i: int|
        0 <= i < units.len() && (#[trigger] units[i]).hp_current == 0 && units[i].pos.x == x
            && units[i].pos.y == y
}

/// Some unit among `units` carrying `id` has died.
pub open spec fn dead_id(units: Seq<Unit>, id: usize) -> bool {
    exists|i: int|
        0 <= i < units.len() && (#[trigger] units[i]).id == id && units[i].hp_current == 0
}

/// A well-formed match state has a well-formed grid.
pub proof fn lemma_wf_grid(s: MatchState)
    requires
        s.wf(),
    ensures
        s.grid.wf(),
{
    reveal(MatchState::wf);
}

/// Every unit of a well-formed match state keeps its stat bounds.
pub proof fn lemma_wf_unit(s: MatchState, i: int)
    requires
        s.wf(),
        0 <= i < s.units@.len(),
    ensures
        s.units@[i].wf(),
{
    reveal(MatchState::wf);
}

/// Changing only a unit's queue, flags, role, facing or step chain keeps
/// the match state well formed: the invariant cares only about ids,
/// positions and stat bounds.
pub proof fn lemma_wf_units_requeued(pre: MatchState, post: MatchState)
    requires
        pre.wf(),
        post.grid == pre.grid,
        post.active == pre.active,
        post.units@.len() == pre.units@.len(),
        forall|i: int|
            0 <= i < pre.units@.len() ==> #[trigger] post.units@[i] == (Unit {
                actions: post.units@[i].actions,
                processing: post.units@[i].processing,
                role: post.units@[i].role,
                steps: post.units@[i].steps,
                facing: post.units@[i].facing,
                ..pre.units@[i]
            }),
    ensures
        post.wf(),
{
    assert forall|i: int|
        0 <= i < pre.units@.len() implies (#[trigger] post.units@[i]).id == pre.units@[i].id
            && post.units@[i].pos == pre.units@[i].pos && post.units@[i].wf() by {
        lemma_wf_unit(pre, i);
    }
    lemma_wf_units_replaced(pre, post);
}

/// Replacing units without moving them or renaming them keeps the match
/// state well formed: the grid and the active tag only care about unit
/// ids and positions.
pub proof fn lemma_wf_units_replaced(pre: MatchState, post: MatchState)
    requires
        pre.wf(),
        post.grid == pre.grid,
        post.active == pre.active,
        post.units@.len() == pre.units@.len(),
        forall|i: int|
            0 <= i < pre.units@.len() ==> (#[trigger] post.units@[i]).id == pre.units@[i].id
                && post.units@[i].pos == pre.units@[i].pos && post.units@[i].wf(),
    ensures
        post.wf(),
{
    reveal(MatchState::wf);
    assert forall|x: int, y: int| #[trigger] post.grid.occ(x, y) is Some implies exists|i: int|
        0 <= i < post.units@.len() && (#[trigger] post.units@[i]).pos.x == x
            && post.units@[i].pos.y == y && post.units@[i].id == post.grid.occ(x, y)->Some_0 by {
        assert(pre.grid.occ(x, y) is Some);
        let k = choose|k: int|
            0 <= k < pre.units@.len() && (#[trigger] pre.units@[k]).pos.x == x
                && pre.units@[k].pos.y == y && pre.units@[k].id == pre.grid.occ(x, y)->Some_0;
        assert(post.units@[k].pos.x == x && post.units@[k].pos.y == y && post.units@[k].id
            == post.grid.occ(x, y)->Some_0);
    }
    match post.active {
        Some(id) => {
            let k = choose|k: int|
                0 <= k < pre.units@.len() && (#[trigger] pre.units@[k]).id == id;
            assert(0 <= k < post.units@.len() && (#[trigger] post.units@[k]).id == id);
        },
        None => {},
    }
}

/// Filtering keeps ids pairwise distinct.
proof fn lemma_filter_keeps_distinct_ids(s: Seq<Unit>, pred: spec_fn(Unit) -> bool)
    requires
        forall|i: int, j: int|
            0 <= i < j < s.len() ==> (#[trigger] s[i]).id != (#[trigger] s[j]).id,
    ensures
        forall|i: int, j: int|
            0 <= i < j < s.filter(pred).len() ==> (#[trigger] s.filter(pred)[i]).id != (
            #[trigger] s.filter(pred)[j]).id,
    decreases s.len(),
{
    if s.len() == 0 {
        assert(s.filter(pred) =~= Seq::<Unit>::empty());
    } else {
        let rest = s.drop_last();
        let last = s.last();
        assert(forall|i: int| 0 <= i < rest.len() ==> #[trigger] rest[i] == s[i]);
        lemma_filter_keeps_distinct_ids(rest, pred);
        assert(rest.push(last) =~= s);
        rest.lemma_filter_push(last, pred);
        let f = s.filter(pred);
        let fr = rest.filter(pred);
        if pred(last) {
            assert(f == fr.push(last));
            assert forall|i: int| 0 <= i < fr.len() implies (#[trigger] fr[i]).id != last.id by {
                assert(fr.contains(fr[i]));
                rest.lemma_filter_contains_rev(pred, fr[i]);
                let k = choose|k: int| 0 <= k < rest.len() && rest[k] == fr[i];
                assert(s[k] == fr[i]);
                assert(s[k].id != s[s.len() - 1].id);
            }
            assert forall|i: int, j: int|
                0 <= i < j < f.len() implies (#[trigger] f[i]).id != (#[trigger] f[j]).id by {
                if j == f.len() - 1 {
                    assert(f[i] == fr[i]);
                    assert(f[j] == last);
                } else {
                    assert(f[i] == fr[i]);
                    assert(f[j] == fr[j]);
                }
            }
        } else {
            assert(f == fr);
        }
    }
}

proof fn lemma_dead_push(prefix: Seq<Unit>, u: Unit)
    ensures
        forall|x: int, y: int|
            #[trigger] dead_at(prefix.push(u), x, y) == (dead_at(prefix, x, y) || (u.hp_current
                == 0 && u.pos.x == x && u.pos.y == y)),
        forall|id: usize|
            #[trigger] dead_id(prefix.push(u), id) == (dead_id(prefix, id) || (u.hp_current == 0
                && u.id == id)),
{
    let longer = prefix.push(u);
    assert forall|x: int, y: int|
        #[trigger] dead_at(longer, x, y) == (dead_at(prefix, x, y) || (u.hp_current == 0
            && u.pos.x == x && u.pos.y == y)) by {
        if dead_at(longer, x, y) {
            let k = choose|k: int|
                0 <= k < longer.len() && (#[trigger] longer[k]).hp_current == 0 && longer[k].pos.x
                    == x && longer[k].pos.y == y;
            if k < prefix.len() {
                assert(prefix[k] == longer[k]);
                assert(dead_at(prefix, x, y));
            } else {
                assert(longer[k] == u);
            }
        }
        if dead_at(prefix, x, y) {
            let k = choose|k: int|
                0 <= k < prefix.len() && (#[trigger] prefix[k]).hp_current == 0 && prefix[k].pos.x
                    == x && prefix[k].pos.y == y;
            assert(longer[k] == prefix[k]);
            assert(dead_at(longer, x, y));
        }
        if u.hp_current == 0 && u.pos.x == x && u.pos.y == y {
            assert(longer[prefix.len() as int] == u);
            assert(dead_at(longer, x, y));
        }
    }
    assert forall|id: usize|
        #[trigger] dead_id(longer, id) == (dead_id(prefix, id) || (u.hp_current == 0 && u.id
            == id)) by {
        if dead_id(longer, id) {
            let k = choose|k: int|
                0 <= k < longer.len() && (#[trigger] longer[k]).id == id && longer[k].hp_current
                    == 0;
            if k < prefix.len() {
                assert(prefix[k] == longer[k]);
                assert(dead_id(prefix, id));
            } else {
                assert(longer[k] == u);
            }
        }
        if dead_id(prefix, id) {
            let k = choose|k: int|
                0 <= k < prefix.len() && (#[trigger] prefix[k]).id == id && prefix[k].hp_current
                    == 0;
            assert(longer[k] == prefix[k]);
            assert(dead_id(longer, id));
        }
        if u.hp_current == 0 && u.id == id {
            assert(longer[prefix.len() as int] == u);
            assert(dead_id(longer, id));
        }
    }
}

impl MatchState {
    /// The continuous death check: every unit at zero health leaves its
    /// grid tile and the registry, and if it held the active turn the
    /// scheduler falls back to idle at once, within the same pass.
    #[verifier::rlimit(100)]
    pub fn process_deaths(&mut self)
        requires
            old(self).wf(),
        ensures
            final(self).wf(),
            deaths_processed(*old(self), *final(self)),
    {
        proof {
            lemma_wf_grid(*old(self));
        }
        let ghost alive_pred = |u: Unit| u.hp_current > 0;
        let ghost olds = old(self).units@;
        let n = self.units.len();
        let mut k: usize = 0;
        let mut idx: usize = 0;
        proof {
            assert(olds.subrange(0, 0).filter(alive_pred) =~= Seq::<Unit>::empty());
            assert(self.units@ =~= olds.subrange(0, 0).filter(alive_pred) + olds.subrange(
                0,
                n as int,
            ));
        }
        while k < n
            invariant
                old(self).wf(),
                n == olds.len(),
                olds == old(self).units@,
                k <= n,
                alive_pred == (|u: Unit| u.hp_current > 0),
                idx == olds.subrange(0, k as int).filter(alive_pred).len(),
                self.units@ == olds.subrange(0, k as int).filter(alive_pred) + olds.subrange(
                    k as int,
                    n as int,
                ),
                *self == (MatchState {
                    grid: self.grid,
                    units: self.units,
                    active: self.active,
                    ..*old(self)
                }),
                self.grid.width == old(self).grid.width,
                self.grid.height == old(self).grid.height,
                self.grid.wf(),
                forall|x: int, y: int|
                    #[trigger] self.grid.occ(x, y) == (if dead_at(
                        olds.subrange(0, k as int),
                        x,
                        y,
                    ) {
                        None
                    } else {
                        old(self).grid.occ(x, y)
                    }),
                self.active == (match old(self).active {
                    Some(id) => if dead_id(olds.subrange(0, k as int), id) {
                        None
                    } else {
                        Some(id)
                    },
                    None => None::<usize>,
                }),
            decreases n - k,
        {
            let ghost prefix = olds.subrange(0, k as int);
            let ghost longer = olds.subrange(0, k + 1);
            let ghost uo = olds[k as int];
            proof {
                assert(longer =~= prefix.push(uo));
                lemma_dead_push(prefix, uo);
                prefix.lemma_filter_push(uo, alive_pred);
                prefix.lemma_filter_len(alive_pred);
                assert(self.units@[idx as int] == olds.subrange(k as int, n as int)[0]);
                assert(self.units@[idx as int] == uo);
            }
            if self.units[idx].hp_current == 0 {
                let p = self.units[idx].pos;
                let uid = self.units[idx].id;
                self.grid.vacate(p);
                match self.active {
                    Some(a) => {
                        if a == uid {
                            self.active = None;
                        }
                    },
                    None => {},
                }
                self.units.remove(idx);
                proof {
                    assert(uo.hp_current == 0 && uo.pos == p && uo.id == uid);
                    assert(longer.filter(alive_pred) == prefix.filter(alive_pred));
                    assert(self.units@ =~= longer.filter(alive_pred) + olds.subrange(
                        k + 1,
                        n as int,
                    ));
                }
            } else {
                idx = idx + 1;
                proof {
                    assert(self.units@ =~= longer.filter(alive_pred) + olds.subrange(
                        k + 1,
                        n as int,
                    ));
                }
            }
            k = k + 1;
        }
        proof {
            reveal(MatchState::wf);
            assert(olds.subrange(0, n as int) =~= olds);
            assert(olds.subrange(n as int, n as int) =~= Seq::<Unit>::empty());
            assert(self.units@ =~= olds.filter(alive_pred));
            assert forall|i2: int|
                0 <= i2 < self.units@.len() implies (#[trigger] self.units@[i2]).wf()
                    && self.grid.occ_at(self.units@[i2].pos) == Some(self.units@[i2].id) by {
                let u = self.units@[i2];
                assert(self.units@.contains(u));
                olds.lemma_filter_contains_rev(alive_pred, u);
                olds.lemma_filter_pred(alive_pred, i2);
                let k2 = choose|k2: int| 0 <= k2 < olds.len() && olds[k2] == u;
                assert(olds[k2].wf());
                let pos = u.pos;
                if dead_at(olds, pos.x as int, pos.y as int) {
                    let d = choose|d: int|
                        0 <= d < olds.len() && (#[trigger] olds[d]).hp_current == 0
                            && olds[d].pos.x == pos.x && olds[d].pos.y == pos.y;
                    assert(old(self).grid.occ_at(olds[d].pos) == Some(olds[d].id));
                    assert(olds[d].pos == pos);
                    assert(old(self).grid.occ_at(olds[k2].pos) == Some(olds[k2].id));
                    assert(olds[d].id == olds[k2].id);
                    if d != k2 {
                        assert(false);
                    }
                    assert(false);
                }
                assert(self.grid.occ(pos.x as int, pos.y as int) == old(self).grid.occ(
                    pos.x as int,
                    pos.y as int,
                ));
            }
            assert forall|j1: int, j2: int|
                0 <= j1 < j2 < self.units@.len() implies (#[trigger] self.units@[j1]).id != (
            #[trigger] self.units@[j2]).id by {
                lemma_filter_keeps_distinct_ids(olds, alive_pred);
            }
            assert forall|x: int, y: int| #[trigger] self.grid.occ(x, y) is Some implies exists|
                j: int,
            |
                0 <= j < self.units@.len() && (#[trigger] self.units@[j]).pos.x == x
                    && self.units@[j].pos.y == y && self.units@[j].id == self.grid.occ(
                    x,
                    y,
                )->Some_0 by {
                assert(!dead_at(olds, x, y));
                assert(old(self).grid.occ(x, y) is Some);
                let k2 = choose|k2: int|
                    0 <= k2 < olds.len() && (#[trigger] olds[k2]).pos.x == x && olds[k2].pos.y == y
                        && olds[k2].id == old(self).grid.occ(x, y)->Some_0;
                if olds[k2].hp_current == 0 {
                    assert(dead_at(olds, x, y));
                }
                olds.lemma_filter_contains(alive_pred, k2);
                assert(self.units@.contains(olds[k2]));
                let j = choose|j: int| 0 <= j < self.units@.len() && self.units@[j] == olds[k2];
                assert((#[trigger] self.units@[j]).pos.x == x && self.units@[j].pos.y == y
                    && self.units@[j].id == self.grid.occ(x, y)->Some_0);
            }
            match self.active {
                Some(id) => {
                    assert(old(self).active == Some(id) && !dead_id(olds, id));
                    let k2 = choose|k2: int| 0 <= k2 < olds.len() && (#[trigger] olds[k2]).id == id;
                    if olds[k2].hp_current == 0 {
                        assert(dead_id(olds, id));
                    }
                    olds.lemma_filter_contains(alive_pred, k2);
                    assert(self.units@.contains(olds[k2]));
                    let j = choose|j: int| 0 <= j < self.units@.len() && self.units@[j] == olds[k2];
                    assert(0 <= j < self.units@.len() && (#[trigger] self.units@[j]).id == id);
                },
                None => {},
            }
        }
    }
}

} // verus!
