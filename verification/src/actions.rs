//! The action processor: dispatch gating, expansion of a queued move into
//! single-step actions along a shortest path, and staged execution of
//! those steps.
//!
//! Per unit at most one action is in flight: the head of the queue is
//! dispatched once the unit is not already processing and the action's
//! not-before time has passed.

use vstd::prelude::*;

use crate::grid::Pos;
use crate::pathfind::{is_step_path, shortest_path};
use crate::state::{lemma_wf_grid, lemma_wf_units_requeued, MatchState};
use crate::units::{Action, MoveStep, TimedAction, Unit};

verus! {

/// Duration of one expanded movement step.
pub const STEP_MS: u64 = 2000;

/// Latest simulation time at which new work may be scheduled; keeps
/// deadline arithmetic far from overflow.
pub const MAX_SIM_TIME_MS: u64 = 0x1000_0000_0000_0000;

/// The kind of action a dispatch hands to its sub-processor.
#[derive(Clone, Copy, PartialEq, Eq, Structural, Debug)]
pub enum ActionKind {
    Move,
    Talk,
    BasicAttack,
    DoNothing,
}

/// What one pass over a unit's movement steps did.
#[derive(Clone, Copy, PartialEq, Eq, Structural, Debug)]
pub enum StepOutcome {
    /// The next step's timer has not elapsed.
    Waiting,
    /// No steps remain; the queued move completed.
    Finished,
    /// The next step's target was occupied; the whole remaining chain was
    /// abandoned and the unit keeps its position.
    Blocked,
    /// One step executed: the unit advanced one tile.
    Stepped,
}

pub open spec fn kind_of(a: Action) -> ActionKind {
    match a {
        Action::Move { .. } => ActionKind::Move,
        Action::Talk { .. } => ActionKind::Talk,
        Action::BasicAttack { .. } => ActionKind::BasicAttack,
        Action::DoNothing => ActionKind::DoNothing,
    }
}

/// The tile sequence a step chain walks: the origin, then each step's
/// target in order.
pub open spec fn steps_path(origin: Pos, steps: Seq<MoveStep>) -> Seq<Pos> {
    seq![origin] + steps.map_values(|s: MoveStep| s.destination)
}

/// A dispatch attempt's effect: the queue head is dispatched (the unit
/// marked processing, the head's kind named) exactly when the unit is
/// free and the head's not-before time has passed; otherwise nothing
/// changes.
pub open spec fn dispatch_done(
    pre: MatchState,
    post: MatchState,
    i: int,
    now: u64,
    r: Option<ActionKind>,
) -> bool {
    &&& (r is Some <==> (pre.units@[i].actions@.len() > 0 && !pre.units@[i].processing && now
        >= pre.units@[i].actions@[0].not_before))
    &&& (match r {
        Some(kind) => kind == kind_of(pre.units@[i].actions@[0].action) && post.units@
            == pre.units@.update(i, Unit { processing: true, ..pre.units@[i] }) && post
            == (MatchState { units: post.units, ..pre }),
        None => post == pre,
    })
}

/// A move expansion's effect: only unit `i`'s step chain changes; the
/// chain walks a cost-minimal step path from the queued origin to the
/// queued destination (minus the leading origin tile), each step due
/// `STEP_MS` after the one before; the chain is empty exactly when the
/// move is degenerate or no path exists at expansion time.
pub open spec fn move_expanded(pre: MatchState, post: MatchState, i: int, now: u64) -> bool {
    let origin = pre.units@[i].actions@[0].action->Move_origin;
    let destination = pre.units@[i].actions@[0].action->Move_destination;
    let steps = post.units@[i].steps@;
    &&& post.units@ == pre.units@.update(
        i,
        Unit { steps: post.units@[i].steps, ..pre.units@[i] },
    )
    &&& post == (MatchState { units: post.units, ..pre })
    &&& (forall|k: int|
        0 <= k < steps.len() ==> (#[trigger] steps[k]).due == now + STEP_MS * (k + 1))
    &&& steps.len() > 0 ==> is_step_path(pre.grid, steps_path(origin, steps), origin, destination)
        && (forall|q: Seq<Pos>|
        is_step_path(pre.grid, q, origin, destination) ==> q.len() >= steps.len() + 1) && (forall|
        k: int,
    | 0 <= k < steps.len() ==> (#[trigger] steps[k]).origin == steps_path(origin, steps)[k])
    &&& steps.len() == 0 ==> (origin == destination || !pre.grid.spec_in_bounds(origin)
        || !pre.grid.spec_in_bounds(destination) || (forall|q: Seq<Pos>|
        !is_step_path(pre.grid, q, origin, destination)))
}

/// One step-chain pass's effect, by outcome: waiting leaves everything
/// alone; a drained chain completes the move; an occupied or off-grid
/// target abandons the chain; otherwise the unit advances one tile,
/// position and grid updated together and the grid's bounds kept.
pub open spec fn move_stepped(
    pre: MatchState,
    post: MatchState,
    i: int,
    now: u64,
    r: StepOutcome,
) -> bool {
    let u = pre.units@[i];
    match r {
        StepOutcome::Waiting => u.steps@.len() > 0 && now < u.steps@[0].due && post == pre,
        StepOutcome::Finished => u.steps@.len() == 0 && post.units@ == pre.units@.update(
            i,
            Unit { actions: post.units@[i].actions, processing: false, ..u },
        ) && post.units@[i].actions@ == u.actions@.drop_first() && post == (MatchState {
            units: post.units,
            ..pre
        }),
        StepOutcome::Blocked => u.steps@.len() > 0 && now >= u.steps@[0].due && (pre.grid.occ_at(
            u.steps@[0].destination,
        ) is Some || !pre.grid.spec_in_bounds(u.steps@[0].destination)) && post.units@
            == pre.units@.update(
            i,
            Unit {
                actions: post.units@[i].actions,
                processing: false,
                steps: post.units@[i].steps,
                ..u
            },
        ) && post.units@[i].actions@ == u.actions@.drop_first() && post.units@[i].steps@.len()
            == 0 && post == (MatchState { units: post.units, ..pre }),
        StepOutcome::Stepped => u.steps@.len() > 0 && now >= u.steps@[0].due && pre.grid.occ_at(
            u.steps@[0].destination,
        ) is None && pre.grid.spec_in_bounds(u.steps@[0].destination) && post.units@
            == pre.units@.update(
            i,
            Unit { pos: u.steps@[0].destination, steps: post.units@[i].steps, ..u },
        ) && post.units@[i].steps@ == u.steps@.drop_first() && post.grid.width == pre.grid.width
            && post.grid.height == pre.grid.height && post.grid.occ_at(u.pos) is None
            && post.grid.occ_at(u.steps@[0].destination) == Some(u.id) && (forall|x: int, y: int|
            !(x == u.pos.x && y == u.pos.y) && !(x == u.steps@[0].destination.x && y
                == u.steps@[0].destination.y) ==> post.grid.occ(x, y) == pre.grid.occ(x, y))
            && post == (MatchState { grid: post.grid, units: post.units, ..pre }),
    }
}

/// Completing a dispatched inert action: the head leaves the queue, the
/// unit is free again, nothing else changes.
pub open spec fn inert_finished(pre: MatchState, post: MatchState, i: int) -> bool {
    &&& post.units@ == pre.units@.update(
        i,
        Unit { actions: post.units@[i].actions, processing: false, ..pre.units@[i] },
    )
    &&& post.units@[i].actions@ == pre.units@[i].actions@.drop_first()
    &&& post == (MatchState { units: post.units, ..pre })
}

impl MatchState {
    /// Dispatches the head of unit `i`'s queue when nothing of this unit
    /// is mid-execution and the head's not-before time has passed,
    /// marking the unit as processing and naming the dispatched kind.
    pub fn dispatch_ready(&mut self, i: usize, now: u64) -> (r: Option<ActionKind>)
        requires
            old(self).wf(),
            i < old(self).units@.len(),
        ensures
            final(self).wf(),
            dispatch_done(*old(self), *final(self), i as int, now, r),
    {
        if self.units[i].actions.len() == 0 {
            return None;
        }
        if self.units[i].processing {
            return None;
        }
        if now < self.units[i].actions[0].not_before {
            return None;
        }
        let kind = match &self.units[i].actions[0].action {
            Action::Move { .. } => ActionKind::Move,
            Action::Talk { .. } => ActionKind::Talk,
            Action::BasicAttack { .. } => ActionKind::BasicAttack,
            Action::DoNothing => ActionKind::DoNothing,
        };
        self.units[i].processing = true;
        proof {
            assert(self.units@ =~= old(self).units@.update(
                i as int,
                Unit { processing: true, ..old(self).units@[i as int] },
            ));
            lemma_wf_units_requeued(*old(self), *self);
        }
        Some(kind)
    }

    /// Expands a dispatched move into its chain of single-step actions:
    /// the shortest path to the destination, minus its first tile, each
    /// step on its own timer `STEP_MS` apart. With no path (or a
    /// degenerate one) the chain stays empty and the move will complete
    /// without effect.
    pub fn expand_move(&mut self, i: usize, now: u64)
        requires
            old(self).wf(),
            i < old(self).units@.len(),
            old(self).units@[i as int].processing,
            old(self).units@[i as int].actions@.len() > 0,
            old(self).units@[i as int].actions@[0].action is Move,
            old(self).units@[i as int].steps@.len() == 0,
            now <= MAX_SIM_TIME_MS,
        ensures
            final(self).wf(),
            move_expanded(*old(self), *final(self), i as int, now),
    {
        proof {
            lemma_wf_grid(*old(self));
        }
        let (origin, destination) = match &self.units[i].actions[0].action {
            Action::Move { origin, destination } => (*origin, *destination),
            _ => (Pos { x: 0, y: 0 }, Pos { x: 0, y: 0 }),
        };
        let path = shortest_path(&self.grid, origin, destination);
        match path {
            Some(p) => {
                let mut steps: Vec<MoveStep> = Vec::new();
                let mut k: usize = 1;
                proof {
                    assert(self.grid.width * self.grid.height <= 0x1_0000_0000int) by (nonlinear_arith)
                        requires
                            self.grid.wf(),
                    ;
                }
                while k < p.len()
                    invariant
                        1 <= k <= p@.len(),
                        p@.len() <= 0x1_0000_0000,
                        now <= MAX_SIM_TIME_MS,
                        steps@.len() == k - 1,
                        forall|m: int|
                            0 <= m < k - 1 ==> (#[trigger] steps@[m]).origin == p@[m]
                                && steps@[m].destination == p@[m + 1] && steps@[m].due == now
                                + STEP_MS * (m + 1),
                    decreases p@.len() - k,
                {
                    let due = now + STEP_MS * (k as u64);
                    steps.push(MoveStep { origin: p[k - 1], destination: p[k], due });
                    k = k + 1;
                }
                self.units[i].steps = steps;
                proof {
                    assert(self.units@ =~= old(self).units@.update(
                        i as int,
                        Unit {
                            steps: self.units@[i as int].steps,
                            ..old(self).units@[i as int]
                        },
                    ));
                    lemma_wf_units_requeued(*old(self), *self);
                    let st = self.units@[i as int].steps@;
                    if st.len() > 0 {
                        assert(steps_path(origin, st) =~= p@);
                    }
                }
            },
            None => {
                proof {
                    assert(self.units@ =~= old(self).units@.update(
                        i as int,
                        Unit {
                            steps: self.units@[i as int].steps,
                            ..old(self).units@[i as int]
                        },
                    ));
                    lemma_wf_units_requeued(*old(self), *self);
                }
            },
        }
    }

    /// Completes a dispatched inert action (a talk passthrough or
    /// do-nothing): the head entry leaves the queue and the unit is free
    /// again.
    pub fn finish_inert_action(&mut self, i: usize)
        requires
            old(self).wf(),
            i < old(self).units@.len(),
            old(self).units@[i as int].processing,
            old(self).units@[i as int].actions@.len() > 0,
            old(self).units@[i as int].actions@[0].action is Talk || old(self).units@[i as int].actions@[0].action is DoNothing,
        ensures
            final(self).wf(),
            inert_finished(*old(self), *final(self), i as int),
    {
        self.units[i].actions.remove(0);
        self.units[i].processing = false;
        proof {
            assert(self.units@[i as int].actions@ =~= old(self).units@[i as int].actions@.drop_first());
            assert(self.units@ =~= old(self).units@.update(
                i as int,
                Unit {
                    actions: self.units@[i as int].actions,
                    processing: false,
                    ..old(self).units@[i as int]
                },
            ));
            lemma_wf_units_requeued(*old(self), *self);
        }
    }

    /// One pass over a dispatched move's step chain. Nothing happens
    /// before the next step's timer elapses. An empty chain completes the
    /// move. A step whose target tile has become occupied abandons the
    /// whole remaining chain, the unit keeping its position. Otherwise
    /// the unit leaves its tile and takes the target tile, position and
    /// grid updated together.
    pub fn execute_move_step(&mut self, i: usize, now: u64) -> (r: StepOutcome)
        requires
            old(self).wf(),
            i < old(self).units@.len(),
            old(self).units@[i as int].processing,
            old(self).units@[i as int].actions@.len() > 0,
            old(self).units@[i as int].actions@[0].action is Move,
        ensures
            final(self).wf(),
            move_stepped(*old(self), *final(self), i as int, now, r),
    {
        proof {
            lemma_wf_grid(*old(self));
        }
        if self.units[i].steps.len() == 0 {
            self.units[i].actions.remove(0);
            self.units[i].processing = false;
            proof {
                assert(self.units@[i as int].actions@ =~= old(self).units@[i as int].actions@.drop_first());
                assert(self.units@ =~= old(self).units@.update(
                    i as int,
                    Unit {
                        actions: self.units@[i as int].actions,
                        processing: false,
                        ..old(self).units@[i as int]
                    },
                ));
                lemma_wf_units_requeued(*old(self), *self);
            }
            return StepOutcome::Finished;
        }
        let step = MoveStep {
            origin: self.units[i].steps[0].origin,
            destination: self.units[i].steps[0].destination,
            due: self.units[i].steps[0].due,
        };
        if now < step.due {
            return StepOutcome::Waiting;
        }
        if !self.grid.in_bounds(step.destination) || self.grid.occupant_at(
            step.destination,
        ).is_some() {
            self.units[i].steps.truncate(0);
            self.units[i].actions.remove(0);
            self.units[i].processing = false;
            proof {
                assert(self.units@[i as int].actions@ =~= old(self).units@[i as int].actions@.drop_first());
                assert(self.units@ =~= old(self).units@.update(
                    i as int,
                    Unit {
                        actions: self.units@[i as int].actions,
                        processing: false,
                        steps: self.units@[i as int].steps,
                        ..old(self).units@[i as int]
                    },
                ));
                lemma_wf_units_requeued(*old(self), *self);
            }
            return StepOutcome::Blocked;
        }
        let from = self.units[i].pos;
        let uid = self.units[i].id;
        self.grid.vacate(from);
        let placed = self.grid.place(step.destination, uid);
        proof {
            assert(placed);
        }
        self.units[i].pos = step.destination;
        self.units[i].steps.remove(0);
        proof {
            reveal(MatchState::wf);
            let u = old(self).units@[i as int];
            assert(self.units@[i as int].steps@ =~= u.steps@.drop_first());
            assert(self.units@ =~= old(self).units@.update(
                i as int,
                Unit {
                    pos: u.steps@[0].destination,
                    steps: self.units@[i as int].steps,
                    ..u
                },
            ));
            assert forall|i2: int|
                0 <= i2 < self.units@.len() implies self.grid.occ_at(
                (#[trigger] self.units@[i2]).pos,
            ) == Some(self.units@[i2].id) by {
                if i2 != i {
                    assert(old(self).grid.occ_at(old(self).units@[i2].pos) == Some(
                        old(self).units@[i2].id,
                    ));
                    if self.units@[i2].pos.x == u.pos.x && self.units@[i2].pos.y == u.pos.y {
                        assert(old(self).units@[i2].id == u.id);
                        assert(false);
                    }
                    if self.units@[i2].pos.x == step.destination.x && self.units@[i2].pos.y
                        == step.destination.y {
                        assert(old(self).grid.occ_at(step.destination) is Some);
                        assert(false);
                    }
                }
            }
            assert forall|x: int, y: int| #[trigger] self.grid.occ(x, y) is Some implies exists|
                j: int,
            |
                0 <= j < self.units@.len() && (#[trigger] self.units@[j]).pos.x == x
                    && self.units@[j].pos.y == y && self.units@[j].id == self.grid.occ(
                    x,
                    y,
                )->Some_0 by {
                if x == step.destination.x && y == step.destination.y {
                    assert(self.units@[i as int].pos.x == x && self.units@[i as int].pos.y == y);
                } else {
                    assert(self.grid.occ(x, y) == old(self).grid.occ(x, y));
                    let j = choose|j: int|
                        0 <= j < old(self).units@.len() && (#[trigger] old(self).units@[j]).pos.x
                            == x && old(self).units@[j].pos.y == y && old(self).units@[j].id == old(self).grid.occ(x, y)->Some_0;
                    assert(j != i);
                    assert(self.units@[j] == old(self).units@[j]);
                }
            }
            match self.active {
                Some(id) => {
                    let k = choose|k: int|
                        0 <= k < old(self).units@.len() && (#[trigger] old(self).units@[k]).id
                            == id;
                    assert(0 <= k < self.units@.len() && (#[trigger] self.units@[k]).id == id);
                },
                None => {},
            }
        }
        StepOutcome::Stepped
    }
}

} // verus!
