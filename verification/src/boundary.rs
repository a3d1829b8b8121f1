//! The message boundary: client intents in, notifications out, and the
//! fixed-order simulation tick that drives scheduler, action processor,
//! combat and the death check.
//!
//! Transport is an external collaborator: these functions consume already
//! decoded intents and hand back the notifications to send.

use vstd::prelude::*;

use crate::actions::{
    dispatch_done, inert_finished, kind_of, move_expanded, move_stepped, ActionKind, StepOutcome,
};
use crate::combat::{attack_resolution, AttackNotice, MAX_COMBAT_TIME_MS};
use crate::grid::Pos;
use crate::state::{
    deaths_processed, idx_of_id, lemma_wf_grid, lemma_wf_units_requeued, notice_taken,
    scheduler_ticked, turn_completable, turn_completed, MatchState, TurnNotice,
};
use crate::units::{Action, Role, TimedAction, Unit};

verus! {

/// A decoded client intent.
pub enum ClientMessage {
    GetClientId,
    StartGame,
    LoadingComplete,
    WaitTurnComplete,
    Wait,
    Move { origin: Pos, destination: Pos },
    BasicAttack { attacker: Pos, target: Pos, damage: usize },
}

/// A notification for one client or for all of them.
pub enum ServerMessage {
    ClientId { client_id: u64 },
    StartGame { client_id: u64 },
    StartGame2,
    PlayerTurn { client_id: u64, current_unit: usize },
    WaitTurn { wait_turns: Vec<(usize, usize)> },
    Wait,
    Move { origin: Pos, destination: Pos },
    BasicAttack { attacker: Pos, target: Pos, damage: usize, is_counterattack: bool },
}

/// Index of the entry for `client` in a loadings table.
pub open spec fn client_idx(l: Seq<(u64, bool)>, client: u64) -> Option<int>
    decreases l.len(),
{
    if l.len() == 0 {
        None
    } else if l[0].0 == client {
        Some(0)
    } else {
        match client_idx(l.drop_first(), client) {
            Some(i) => Some(i + 1),
            None => None,
        }
    }
}

/// The pre-battle lobby: which clients are known and which of them have
/// finished loading.
pub struct LobbyState {
    pub has_started: bool,
    pub loadings: Vec<(u64, bool)>,
}

impl LobbyState {
    pub fn new() -> (s: LobbyState)
        ensures
            !s.has_started,
            s.loadings@.len() == 0,
    {
        LobbyState { has_started: false, loadings: Vec::new() }
    }

    fn set_loading(&mut self, client: u64, value: bool)
        ensures
            final(self).has_started == old(self).has_started,
            final(self).loadings@ == (match client_idx(old(self).loadings@, client) {
                Some(i) => old(self).loadings@.update(i, (client, value)),
                None => old(self).loadings@.push((client, value)),
            }),
    {
        let n = self.loadings.len();
        proof {
            assert(self.loadings@.subrange(0, n as int) =~= self.loadings@);
        }
        let mut k: usize = 0;
        while k < n
            invariant
                n == self.loadings@.len(),
                k <= n,
                *self == *old(self),
                client_idx(self.loadings@, client) == (match client_idx(
                    self.loadings@.subrange(k as int, n as int),
                    client,
                ) {
                    Some(i) => Some(i + k),
                    None => None::<int>,
                }),
            decreases n - k,
        {
            let ghost suffix = self.loadings@.subrange(k as int, n as int);
            proof {
                assert(suffix[0] == self.loadings@[k as int]);
                assert(suffix.drop_first() =~= self.loadings@.subrange(k + 1, n as int));
            }
            if self.loadings[k].0 == client {
                proof {
                    assert(client_idx(self.loadings@, client) == Some(k as int));
                }
                self.loadings[k] = (client, value);
                return ;
            }
            k = k + 1;
        }
        self.loadings.push((client, value));
    }

    /// Registers a client as known and not yet loaded, answering with its
    /// id.
    pub fn register_client(&mut self, client: u64) -> (reply: ServerMessage)
        ensures
            final(self).has_started == old(self).has_started,
            final(self).loadings@ == (match client_idx(old(self).loadings@, client) {
                Some(i) => old(self).loadings@.update(i, (client, false)),
                None => old(self).loadings@.push((client, false)),
            }),
            reply == (ServerMessage::ClientId { client_id: client }),
    {
        self.set_loading(client, false);
        ServerMessage::ClientId { client_id: client }
    }

    /// A client asks to start: the start is echoed to everyone, and the
    /// first such request starts the match and moves on to waiting for
    /// clients to load.
    pub fn handle_start_game(&mut self, client: u64) -> (r: (ServerMessage, bool))
        ensures
            r.0 == (ServerMessage::StartGame { client_id: client }),
            r.1 == !old(self).has_started,
            final(self).has_started,
            final(self).loadings@ == old(self).loadings@,
    {
        let fresh = !self.has_started;
        self.has_started = true;
        (ServerMessage::StartGame { client_id: client }, fresh)
    }

    /// Records that a client finished loading.
    pub fn loading_complete(&mut self, client: u64)
        ensures
            final(self).has_started == old(self).has_started,
            final(self).loadings@ == (match client_idx(old(self).loadings@, client) {
                Some(i) => old(self).loadings@.update(i, (client, true)),
                None => old(self).loadings@.push((client, true)),
            }),
    {
        self.set_loading(client, true);
    }

    /// Whether every known client has finished loading (vacuously true of
    /// an empty lobby).
    pub fn all_loaded(&self) -> (r: bool)
        ensures
            r == (forall|i: int| 0 <= i < self.loadings@.len() ==> (#[trigger] self.loadings@[i]).1),
    {
        let n = self.loadings.len();
        let mut k: usize = 0;
        while k < n
            invariant
                n == self.loadings@.len(),
                k <= n,
                forall|i: int| 0 <= i < k ==> (#[trigger] self.loadings@[i]).1,
            decreases n - k,
        {
            if !self.loadings[k].1 {
                return false;
            }
            k = k + 1;
        }
        true
    }
}

/// Some unit holds the active turn and is registered, so a client intent
/// can be queued on it.
pub open spec fn intent_queueable(s: MatchState) -> bool {
    match s.active {
        Some(id) => idx_of_id(s.units@, id) is Some,
        None => false,
    }
}

/// Queueing a move intent: exactly one `Move` action with the client's
/// coordinates, immediately eligible, lands at the tail of the active
/// unit's queue; nothing else changes.
pub open spec fn move_queued(
    pre: MatchState,
    post: MatchState,
    origin: Pos,
    destination: Pos,
) -> bool {
    let i = idx_of_id(pre.units@, pre.active->Some_0)->Some_0;
    &&& post.units@ == pre.units@.update(
        i,
        Unit { actions: post.units@[i].actions, ..pre.units@[i] },
    )
    &&& post.units@[i].actions@ == pre.units@[i].actions@.push(
        TimedAction { action: Action::Move { origin, destination }, not_before: 0 },
    )
    &&& post == (MatchState { units: post.units, ..pre })
}

/// Queueing an attack intent: the attack action lands at the tail of the
/// active unit's queue, the active unit takes the Attacker role, the
/// occupant of the target tile (if any) the Target role, and every other
/// unit is untouched.
pub open spec fn attack_queued(
    pre: MatchState,
    post: MatchState,
    target: Pos,
    damage: usize,
) -> bool {
    let a = idx_of_id(pre.units@, pre.active->Some_0)->Some_0;
    let tgt = (match pre.grid.occ_at(target) {
        Some(tid) => idx_of_id(pre.units@, tid),
        None => None,
    });
    &&& post.units@.len() == pre.units@.len()
    &&& post.units@[a].actions@ == pre.units@[a].actions@.push(
        TimedAction {
            action: Action::BasicAttack { target, is_counterattack: false, damage },
            not_before: 0,
        },
    )
    &&& post.units@[a] == (Unit {
        actions: post.units@[a].actions,
        role: post.units@[a].role,
        ..pre.units@[a]
    })
    &&& post.units@[a].role == (match tgt {
        Some(j) => if j == a {
            Some(Role::Target)
        } else {
            Some(Role::Attacker)
        },
        None => Some(Role::Attacker),
    })
    &&& (match tgt {
        Some(j) => post.units@[j].role == Some(Role::Target) && (j != a ==> post.units@[j]
            == (Unit { role: Some(Role::Target), ..pre.units@[j] })),
        None => true,
    })
    &&& (forall|k: int|
        0 <= k < pre.units@.len() && k != a && (match tgt {
            Some(j) => k != j,
            None => true,
        }) ==> #[trigger] post.units@[k] == pre.units@[k])
    &&& post == (MatchState { units: post.units, ..pre })
}

/// Everything one per-unit processing pass does: a dispatch attempt,
/// then — if an action is in flight — the sub-processor matching its
/// kind: a move is expanded when its chain is empty and then stepped; a
/// basic attack resolves under some roll below seven, its broadcast
/// handed back; an inert action completes. With nothing in flight the
/// dispatch attempt is all that happens.
#[verifier::opaque]
pub open spec fn unit_processed(
    pre: MatchState,
    post: MatchState,
    i: int,
    now: u64,
    msg: Option<ServerMessage>,
) -> bool {
    exists|r: Option<ActionKind>, s1: MatchState|
        #[trigger] dispatch_done(pre, s1, i, now, r) && (if s1.units@[i].processing
            && s1.units@[i].actions@.len() > 0 {
            match kind_of(s1.units@[i].actions@[0].action) {
                ActionKind::Move => msg is None && (exists|s2: MatchState, oc: StepOutcome|
                    (if s1.units@[i].steps@.len() == 0 {
                        move_expanded(s1, s2, i, now)
                    } else {
                        s2 == s1
                    }) && #[trigger] move_stepped(s2, post, i, now, oc)),
                ActionKind::BasicAttack => exists|roll: usize, struck: Option<AttackNotice>|
                    roll < 7 && #[trigger] attack_resolution(s1, post, i, roll, now, struck)
                        && msg == (match struck {
                        Some(n) => Some(
                            ServerMessage::BasicAttack {
                                attacker: n.attacker,
                                target: n.target,
                                damage: n.damage,
                                is_counterattack: n.is_counterattack,
                            },
                        ),
                        None => None::<ServerMessage>,
                    }),
                _ => inert_finished(s1, post, i) && msg is None,
            }
        } else {
            post == s1 && msg is None
        })
}

/// `cnt` units processed in creation order starting at index `k`: the
/// per-unit relation chained, the broadcasts concatenated in order.
#[verifier::opaque]
pub open spec fn units_processed_upto(
    pre: MatchState,
    post: MatchState,
    k: int,
    cnt: nat,
    now: u64,
    msgs: Seq<ServerMessage>,
) -> bool
    decreases cnt,
{
    if cnt == 0 {
        post == pre && msgs == Seq::<ServerMessage>::empty()
    } else {
        exists|mid: MatchState, m: Option<ServerMessage>|
            #[trigger] unit_processed(pre, mid, k, now, m) && (match m {
                Some(x) => msgs.len() >= 1 && msgs[0] == x && units_processed_upto(
                    mid,
                    post,
                    k + 1,
                    (cnt - 1) as nat,
                    now,
                    msgs.drop_first(),
                ),
                None => units_processed_upto(mid, post, k + 1, (cnt - 1) as nat, now, msgs),
            })
    }
}

/// Extending a processed chain by one more unit at its tail.
proof fn lemma_units_processed_snoc(
    pre: MatchState,
    mid: MatchState,
    post: MatchState,
    k: int,
    cnt: nat,
    now: u64,
    msgs: Seq<ServerMessage>,
    m: Option<ServerMessage>,
)
    requires
        units_processed_upto(pre, mid, k, cnt, now, msgs),
        unit_processed(mid, post, k + cnt, now, m),
    ensures
        units_processed_upto(
            pre,
            post,
            k,
            (cnt + 1) as nat,
            now,
            (match m {
                Some(x) => msgs.push(x),
                None => msgs,
            }),
        ),
    decreases cnt,
{
    reveal(units_processed_upto);
    let newmsgs = (match m {
        Some(x) => msgs.push(x),
        None => msgs,
    });
    if cnt == 0 {
        assert(pre == mid);
        match m {
            Some(x) => {
                assert(newmsgs.len() == 1 && newmsgs[0] == x);
                assert(newmsgs.drop_first() =~= Seq::<ServerMessage>::empty());
                assert(units_processed_upto(post, post, k + 1, 0, now, newmsgs.drop_first()));
            },
            None => {
                assert(units_processed_upto(post, post, k + 1, 0, now, newmsgs));
            },
        }
        assert(unit_processed(pre, post, k, now, m));
        assert(units_processed_upto(pre, post, k, (cnt + 1) as nat, now, newmsgs));
    } else {
        let (mid1, m1) = choose|mid1: MatchState, m1: Option<ServerMessage>|
            #[trigger] unit_processed(pre, mid1, k, now, m1) && (match m1 {
                Some(x) => msgs.len() >= 1 && msgs[0] == x && units_processed_upto(
                    mid1,
                    mid,
                    k + 1,
                    (cnt - 1) as nat,
                    now,
                    msgs.drop_first(),
                ),
                None => units_processed_upto(mid1, mid, k + 1, (cnt - 1) as nat, now, msgs),
            });
        match m1 {
            Some(x1) => {
                lemma_units_processed_snoc(
                    mid1,
                    mid,
                    post,
                    k + 1,
                    (cnt - 1) as nat,
                    now,
                    msgs.drop_first(),
                    m,
                );
                match m {
                    Some(x) => {
                        assert(msgs.drop_first().push(x) =~= newmsgs.drop_first());
                        assert(newmsgs.len() >= 1 && newmsgs[0] == x1);
                    },
                    None => {},
                }
                assert(units_processed_upto(pre, post, k, (cnt + 1) as nat, now, newmsgs));
            },
            None => {
                lemma_units_processed_snoc(mid1, mid, post, k + 1, (cnt - 1) as nat, now, msgs, m);
                assert(units_processed_upto(pre, post, k, (cnt + 1) as nat, now, newmsgs));
            },
        }
    }
}

/// The scheduler's part of one tick: a pass of the wait-turn clock while
/// no turn is active, nothing otherwise.
pub open spec fn scheduler_phase(
    pre: MatchState,
    post: MatchState,
    now: u64,
    activated: bool,
) -> bool {
    if pre.active is Some {
        post == pre && !activated
    } else {
        scheduler_ticked(pre, post, now, activated)
    }
}

/// The wait-turn table: every unit's id with its current counter, in
/// creation order.
pub open spec fn wait_table(s: MatchState) -> Seq<(usize, usize)> {
    s.units@.map_values(|u: Unit| (u.id, u.wt_current))
}

/// Everything one tick does, in the loop's fixed order: the scheduler
/// phase (broadcasting the wait-turn table when a unit is activated),
/// every unit processed in creation order, the death sweep, and the due
/// turn-start notice, its broadcast appended last.
pub open spec fn ticked(
    pre: MatchState,
    post: MatchState,
    now: u64,
    out: Seq<ServerMessage>,
) -> bool {
    exists|
        s1: MatchState,
        s2: MatchState,
        s3: MatchState,
        activated: bool,
        body: Seq<ServerMessage>,
        notice: Option<TurnNotice>,
    |
        #![trigger scheduler_phase(pre, s1, now, activated), units_processed_upto(
            s1,
            s2,
            0,
            s1.units@.len(),
            now,
            body,
        ), deaths_processed(s2, s3), notice_taken(s3, post, now, notice)]
        {
            let suffix = (match notice {
                Some(n) => seq![
                    ServerMessage::PlayerTurn {
                        client_id: n.client_id,
                        current_unit: n.current_unit,
                    },
                ],
                None => Seq::<ServerMessage>::empty(),
            });
            &&& scheduler_phase(pre, s1, now, activated)
            &&& units_processed_upto(s1, s2, 0, s1.units@.len(), now, body)
            &&& deaths_processed(s2, s3)
            &&& notice_taken(s3, post, now, notice)
            &&& (if activated {
                &&& out.len() == 1 + body.len() + suffix.len()
                &&& out[0] is WaitTurn
                &&& out[0]->WaitTurn_wait_turns@ == wait_table(s1)
                &&& out.subrange(1, out.len() as int) == body + suffix
            } else {
                out == body + suffix
            })
        }
}

impl MatchState {
    /// The wait-turn table broadcast when a turn ends: every unit's id
    /// with its current wait counter, in creation order.
    pub fn wait_turn_report(&self) -> (r: Vec<(usize, usize)>)
        ensures
            r@.len() == self.units@.len(),
            forall|i: int|
                0 <= i < r@.len() ==> #[trigger] r@[i] == (
                    self.units@[i].id,
                    self.units@[i].wt_current,
                ),
            r@ == wait_table(*self),
    {
        let n = self.units.len();
        let mut out: Vec<(usize, usize)> = Vec::new();
        let mut k: usize = 0;
        while k < n
            invariant
                n == self.units@.len(),
                k <= n,
                out@.len() == k,
                forall|i: int|
                    0 <= i < k ==> #[trigger] out@[i] == (
                        self.units@[i].id,
                        self.units@[i].wt_current,
                    ),
            decreases n - k,
        {
            out.push((self.units[k].id, self.units[k].wt_current));
            k = k + 1;
        }
        proof {
            assert(out@ =~= wait_table(*self));
        }
        out
    }

    /// Queues a move intent on the active unit, to run as soon as it is
    /// dispatched. Ignored when no unit holds the active turn.
    pub fn queue_move(&mut self, origin: Pos, destination: Pos) -> (queued: bool)
        requires
            old(self).wf(),
        ensures
            final(self).wf(),
            queued == intent_queueable(*old(self)),
            queued ==> move_queued(*old(self), *final(self), origin, destination),
            !queued ==> *final(self) == *old(self),
    {
        let id = match self.active {
            Some(id) => id,
            None => {
                return false;
            },
        };
        let i = match self.find_by_id(id) {
            Some(i) => i,
            None => {
                return false;
            },
        };
        self.units[i].actions.push(
            TimedAction { action: Action::Move { origin, destination }, not_before: 0 },
        );
        proof {
            assert(self.units@ =~= old(self).units@.update(
                i as int,
                Unit { actions: self.units@[i as int].actions, ..old(self).units@[i as int] },
            ));
            lemma_wf_units_requeued(*old(self), *self);
        }
        true
    }

    /// Queues a basic-attack intent on the active unit and marks the
    /// combat roles: the active unit becomes the Attacker, the occupant
    /// of the target tile (if any) the Target. Ignored when no unit holds
    /// the active turn.
    #[verifier::spinoff_prover]
    #[verifier::rlimit(100)]
    pub fn queue_attack(&mut self, target: Pos, damage: usize) -> (queued: bool)
        requires
            old(self).wf(),
        ensures
            final(self).wf(),
            queued == intent_queueable(*old(self)),
            queued ==> attack_queued(*old(self), *final(self), target, damage),
            !queued ==> *final(self) == *old(self),
    {
        proof {
            lemma_wf_grid(*old(self));
        }
        let id = match self.active {
            Some(id) => id,
            None => {
                return false;
            },
        };
        let a = match self.find_by_id(id) {
            Some(i) => i,
            None => {
                return false;
            },
        };
        let tgt = match self.grid.occupant_at(target) {
            Some(tid) => self.find_by_id(tid),
            None => None,
        };
        self.push_unit_action(
            a,
            TimedAction {
                action: Action::BasicAttack { target, is_counterattack: false, damage },
                not_before: 0,
            },
        );
        self.set_unit_role(a, Some(Role::Attacker));
        match tgt {
            Some(j) => {
                self.set_unit_role(j, Some(Role::Target));
            },
            None => {},
        }
        true
    }

    /// Handles one in-battle client message: a turn-complete signal ends
    /// the active turn and echoes `Wait`; a move intent is queued and
    /// echoed; an attack intent is queued silently. Anything else, and
    /// any intent arriving while it cannot apply, is ignored.
    pub fn handle_battle_message(&mut self, msg: &ClientMessage) -> (out: Vec<ServerMessage>)
        requires
            old(self).wf(),
        ensures
            final(self).wf(),
            (match *msg {
                ClientMessage::Wait => if turn_completable(*old(self)) {
                    turn_completed(*old(self), *final(self)) && out@ == seq![ServerMessage::Wait]
                } else {
                    *final(self) == *old(self) && out@.len() == 0
                },
                ClientMessage::Move { origin, destination } => if intent_queueable(*old(self)) {
                    move_queued(*old(self), *final(self), origin, destination) && out@ == seq![
                        ServerMessage::Move { origin, destination },
                    ]
                } else {
                    *final(self) == *old(self) && out@.len() == 0
                },
                ClientMessage::BasicAttack { attacker, target, damage } => (if intent_queueable(
                    *old(self),
                ) {
                    attack_queued(*old(self), *final(self), target, damage)
                } else {
                    *final(self) == *old(self)
                }) && out@.len() == 0,
                _ => *final(self) == *old(self) && out@.len() == 0,
            }),
    {
        let mut out: Vec<ServerMessage> = Vec::new();
        match msg {
            ClientMessage::Wait => {
                if self.complete_turn() {
                    out.push(ServerMessage::Wait);
                    proof {
                        assert(out@ =~= seq![ServerMessage::Wait]);
                    }
                }
            },
            ClientMessage::Move { origin, destination } => {
                if self.queue_move(*origin, *destination) {
                    out.push(ServerMessage::Move { origin: *origin, destination: *destination });
                    proof {
                        assert(out@ =~= seq![
                            ServerMessage::Move { origin: *origin, destination: *destination },
                        ]);
                    }
                }
            },
            ClientMessage::BasicAttack { attacker: _, target, damage } => {
                self.queue_attack(*target, *damage);
            },
            _ => {},
        }
        out
    }

    /// Dispatches and advances one unit's in-flight action: a move is
    /// expanded when freshly dispatched and then stepped, an inert action
    /// completes, a basic attack resolves with a fresh damage roll,
    /// returning the attack broadcast if one was struck.
    #[verifier::spinoff_prover]
    #[verifier::rlimit(100)]
    fn process_unit(&mut self, i: usize, now: u64) -> (msg: Option<ServerMessage>)
        requires
            old(self).wf(),
            i < old(self).units@.len(),
            now <= MAX_COMBAT_TIME_MS,
        ensures
            final(self).wf(),
            final(self).units@.len() == old(self).units@.len(),
            final(self).grid.width == old(self).grid.width,
            final(self).grid.height == old(self).grid.height,
            unit_processed(*old(self), *final(self), i as int, now, msg),
    {
        let dispatched = self.dispatch_ready(i, now);
        let ghost s1 = *self;
        if self.units[i].processing && self.units[i].actions.len() > 0 {
            let head_kind = match &self.units[i].actions[0].action {
                Action::Move { .. } => ActionKind::Move,
                Action::Talk { .. } => ActionKind::Talk,
                Action::BasicAttack { .. } => ActionKind::BasicAttack,
                Action::DoNothing => ActionKind::DoNothing,
            };
            match head_kind {
                ActionKind::Move => {
                    if self.units[i].steps.len() == 0 {
                        self.expand_move(i, now);
                    }
                    let ghost s2 = *self;
                    let oc = self.execute_move_step(i, now);
                    proof {
                        reveal(unit_processed);
                        assert(dispatch_done(*old(self), s1, i as int, now, dispatched));
                        assert(move_stepped(s2, *self, i as int, now, oc));
                        assert(unit_processed(
                            *old(self),
                            *self,
                            i as int,
                            now,
                            None::<ServerMessage>,
                        ));
                    }
                    None
                },
                ActionKind::BasicAttack => {
                    let struck = self.resolve_attack_sampled(i, now);
                    let reply = match struck {
                        Some(notice) => Some(
                            ServerMessage::BasicAttack {
                                attacker: notice.attacker,
                                target: notice.target,
                                damage: notice.damage,
                                is_counterattack: notice.is_counterattack,
                            },
                        ),
                        None => None,
                    };
                    proof {
                        reveal(unit_processed);
                        assert(dispatch_done(*old(self), s1, i as int, now, dispatched));
                        let roll = choose|roll: usize|
                            roll < 7 && attack_resolution(s1, *self, i as int, roll, now, struck);
                        assert(attack_resolution(s1, *self, i as int, roll, now, struck));
                        assert(unit_processed(*old(self), *self, i as int, now, reply));
                    }
                    reply
                },
                _ => {
                    self.finish_inert_action(i);
                    proof {
                        reveal(unit_processed);
                        assert(dispatch_done(*old(self), s1, i as int, now, dispatched));
                        assert(inert_finished(s1, *self, i as int));
                        assert(unit_processed(
                            *old(self),
                            *self,
                            i as int,
                            now,
                            None::<ServerMessage>,
                        ));
                    }
                    None
                },
            }
        } else {
            proof {
                reveal(unit_processed);
                assert(dispatch_done(*old(self), s1, i as int, now, dispatched));
                assert(unit_processed(*old(self), *self, i as int, now, None::<ServerMessage>));
            }
            None
        }
    }

    /// One simulation tick, in the fixed order of the loop: the wait-turn
    /// scheduler while no turn is active (broadcasting the wait-turn
    /// table when it activates a unit), then per unit dispatch and the
    /// matching sub-processor (move expansion and stepping, inert
    /// completion, combat), then the death check, then any turn-start
    /// notice whose delay has elapsed. Returns the notifications to
    /// broadcast, in that order.
    #[verifier::spinoff_prover]
    #[verifier::rlimit(100)]
    pub fn tick(&mut self, now: u64) -> (out: Vec<ServerMessage>)
        requires
            old(self).wf(),
            now <= MAX_COMBAT_TIME_MS,
        ensures
            final(self).wf(),
            final(self).grid.width == old(self).grid.width,
            final(self).grid.height == old(self).grid.height,
            ticked(*old(self), *final(self), now, out@),
    {
        let mut out: Vec<ServerMessage> = Vec::new();
        let mut activated = false;
        let ghost mut table_view: Seq<(usize, usize)> = Seq::empty();
        if self.active.is_none() {
            activated = self.wait_turn_tick(now);
            if activated {
                let table = self.wait_turn_report();
                proof {
                    table_view = table@;
                }
                out.push(ServerMessage::WaitTurn { wait_turns: table });
            }
        }
        let ghost s1 = *self;
        let ghost prefix = out@;
        proof {
            assert(scheduler_phase(*old(self), s1, now, activated));
            if activated {
                assert(prefix.len() == 1);
                assert(prefix[0] is WaitTurn);
                assert(prefix[0]->WaitTurn_wait_turns@ == table_view);
                assert(table_view == wait_table(s1));
            } else {
                assert(prefix.len() == 0);
            }
            reveal(units_processed_upto);
            assert(units_processed_upto(s1, *self, 0, 0, now, Seq::<ServerMessage>::empty()));
            assert(out@.subrange(prefix.len() as int, out@.len() as int) =~= Seq::<
                ServerMessage,
            >::empty());
        }
        let n = self.units.len();
        let mut i: usize = 0;
        while i < n
            invariant
                self.wf(),
                n == self.units@.len(),
                n == s1.units@.len(),
                i <= n,
                now <= MAX_COMBAT_TIME_MS,
                self.grid.width == s1.grid.width,
                self.grid.height == s1.grid.height,
                out@.len() >= prefix.len(),
                out@.subrange(0, prefix.len() as int) == prefix,
                activated ==> prefix.len() == 1 && prefix[0] is WaitTurn
                    && prefix[0]->WaitTurn_wait_turns@ == wait_table(s1),
                !activated ==> prefix.len() == 0,
                units_processed_upto(
                    s1,
                    *self,
                    0,
                    i as nat,
                    now,
                    out@.subrange(prefix.len() as int, out@.len() as int),
                ),
            decreases n - i,
        {
            let ghost mid = *self;
            let ghost msgs_before = out@.subrange(prefix.len() as int, out@.len() as int);
            let reply = self.process_unit(i, now);
            let ghost reply_snapshot = reply;
            match reply {
                Some(msg) => {
                    out.push(msg);
                },
                None => {},
            }
            proof {
                lemma_units_processed_snoc(
                    s1,
                    mid,
                    *self,
                    0,
                    i as nat,
                    now,
                    msgs_before,
                    reply_snapshot,
                );
                assert(out@.subrange(0, prefix.len() as int) =~= prefix);
                match reply_snapshot {
                    Some(msg) => {
                        assert(out@.subrange(prefix.len() as int, out@.len() as int)
                            =~= msgs_before.push(msg));
                    },
                    None => {
                        assert(out@.subrange(prefix.len() as int, out@.len() as int)
                            =~= msgs_before);
                    },
                }
            }
            i = i + 1;
        }
        let ghost s2 = *self;
        let ghost body = out@.subrange(prefix.len() as int, out@.len() as int);
        self.process_deaths();
        let ghost s3 = *self;
        let notice = self.due_turn_notice(now);
        match notice {
            Some(n2) => {
                out.push(
                    ServerMessage::PlayerTurn {
                        client_id: n2.client_id,
                        current_unit: n2.current_unit,
                    },
                );
            },
            None => {},
        }
        proof {
            let ghost suffix = (match notice {
                Some(n2) => seq![
                    ServerMessage::PlayerTurn {
                        client_id: n2.client_id,
                        current_unit: n2.current_unit,
                    },
                ],
                None => Seq::<ServerMessage>::empty(),
            });
            assert(units_processed_upto(s1, s2, 0, s1.units@.len(), now, body));
            assert(deaths_processed(s2, s3));
            assert(notice_taken(s3, *self, now, notice));
            assert(out@.subrange(0, prefix.len() as int) =~= prefix);
            assert(out@.len() == prefix.len() + body.len() + suffix.len());
            if activated {
                assert(out@[0] == prefix[0]);
                assert(out@[0] is WaitTurn);
                assert(out@[0]->WaitTurn_wait_turns@ == wait_table(s1));
                assert(out@.subrange(1, out@.len() as int) =~= body + suffix);
            } else {
                assert(out@ =~= body + suffix);
            }
            assert(ticked(*old(self), *self, now, out@));
        }
        out
    }
}

} // verus!
