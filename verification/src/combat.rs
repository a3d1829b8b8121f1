//! Combat resolution: damage, death by damage, and the automatic
//! counter-attack a surviving melee target schedules against its
//! attacker.

use vstd::prelude::*;

use crate::grid::{Direction, Pos};
use crate::pathfind::{attack_member, attack_tiles, contains_pos};
use crate::state::{idx_of_id, lemma_wf_grid, lemma_wf_unit, lemma_wf_units_replaced, lemma_wf_units_requeued, MatchState};
use crate::units::{Action, AttackType, Role, TimedAction, Unit};

verus! {

/// Delay before an injected counter-attack may be dispatched, giving
/// clients time to present the original attack first.
pub const COUNTER_DELAY_MS: u64 = 2000;

/// Latest simulation time at which combat may run; keeps the
/// counter-attack scheduling arithmetic far from overflow.
pub const MAX_COMBAT_TIME_MS: u64 = 0x1000_0000_0000_0000;

/// An outgoing attack broadcast.
#[derive(Clone, Copy, PartialEq, Eq, Structural, Debug)]
pub struct AttackNotice {
    pub attacker: Pos,
    pub target: Pos,
    pub damage: usize,
    pub is_counterattack: bool,
}

/// Damage of a basic attack: a third of the attacker's strength plus a
/// modifier of `roll - 3`, floored at zero.
pub open spec fn damage_spec(strength: usize, roll: usize) -> usize {
    let base = strength / 3 + roll;
    if base >= 3 {
        (base - 3) as usize
    } else {
        0
    }
}

/// With the modifier sampled in `[-3, 3]`, damage stays within three of
/// a third of the attacker's strength and never goes below zero.
pub proof fn lemma_damage_bounds(strength: usize, roll: usize)
    requires
        roll < 7,
    ensures
        damage_spec(strength, roll) <= strength / 3 + 3,
        strength / 3 >= 3 ==> damage_spec(strength, roll) >= strength / 3 - 3,
{
}

/// The facing that looks from `from` toward `to`: the vertical axis is
/// decided first and the horizontal axis afterwards, so on a diagonal the
/// horizontal decision wins; a target on the same tile leaves the facing
/// alone.
pub open spec fn facing_toward(from: Pos, to: Pos, fallback: Direction) -> Direction {
    if to.x < from.x {
        Direction::West
    } else if to.x > from.x {
        Direction::East
    } else if to.y < from.y {
        Direction::South
    } else if to.y > from.y {
        Direction::North
    } else {
        fallback
    }
}

/// Index of the unit an attack dispatched on unit `i` would strike: the
/// occupant of the target tile, when the tile holds a registered unit.
pub open spec fn attack_target_idx(s: MatchState, i: int) -> Option<int> {
    let tpos = s.units@[i].actions@[0].action->BasicAttack_target;
    match s.grid.occ_at(tpos) {
        Some(id) => idx_of_id(s.units@, id),
        None => None,
    }
}

/// The attack on unit `i`'s queue finds a target: some other unit stands
/// on the target tile and carries the Target role.
pub open spec fn attack_resolvable(s: MatchState, i: int) -> bool {
    match attack_target_idx(s, i) {
        Some(j) => j != i && s.units@[j].role == Some(Role::Target),
        None => false,
    }
}

/// A surviving target strikes back exactly when the blow was not itself
/// a counter-attack, the target fights melee, and the attacker stands
/// within the target's attack tiles.
pub open spec fn counter_due(s: MatchState, i: int, j: int) -> bool {
    &&& !s.units@[i].actions@[0].action->BasicAttack_is_counterattack
    &&& s.units@[j].attack_type is Melee
    &&& attack_member(
        s.grid,
        s.units@[j].pos,
        s.units@[j].attack_range,
        AttackType::Melee,
        s.units@[i].pos,
    )
}

/// Everything one basic-attack resolution does, relating the state
/// before (`pre`) to the state after (`post`).
pub open spec fn attack_resolution(
    pre: MatchState,
    post: MatchState,
    i: int,
    roll: usize,
    now: u64,
    r: Option<AttackNotice>,
) -> bool {
    let u = pre.units@[i];
    let is_ca = u.actions@[0].action->BasicAttack_is_counterattack;
    if !attack_resolvable(pre, i) {
        // No unit to strike: the action completes with no further effect.
        &&& r is None
        &&& post.units@ == pre.units@.update(
            i,
            Unit { actions: post.units@[i].actions, processing: false, role: None, ..u },
        )
        &&& post.units@[i].actions@ == u.actions@.drop_first()
        &&& post == (MatchState { units: post.units, ..pre })
    } else {
        let j = attack_target_idx(pre, i)->Some_0;
        let t = pre.units@[j];
        let dmg = damage_spec(u.strength, roll);
        let lethal = dmg >= t.hp_current;
        let counter = !lethal && counter_due(pre, i, j);
        &&& r == Some(
            AttackNotice {
                attacker: u.pos,
                target: t.pos,
                damage: dmg,
                is_counterattack: is_ca,
            },
        )
        &&& post.units@ == pre.units@.update(
            i,
            Unit {
                facing: facing_toward(u.pos, t.pos, u.facing),
                actions: post.units@[i].actions,
                processing: false,
                role: if counter {
                    Some(Role::Target)
                } else {
                    None
                },
                ..u
            },
        ).update(
            j,
            Unit {
                hp_current: if lethal {
                    0
                } else {
                    (t.hp_current - dmg) as usize
                },
                role: if lethal {
                    t.role
                } else if counter {
                    Some(Role::Attacker)
                } else {
                    None
                },
                actions: post.units@[j].actions,
                ..t
            },
        )
        &&& post.units@[i].actions@ == u.actions@.drop_first()
        &&& post.units@[j].actions@ == (if counter {
            t.actions@.push(
                TimedAction {
                    action: Action::BasicAttack {
                        target: u.pos,
                        is_counterattack: true,
                        damage: 0,
                    },
                    not_before: (now + COUNTER_DELAY_MS) as u64,
                },
            )
        } else {
            t.actions@
        })
        &&& post == (MatchState { units: post.units, ..pre })
    }
}

/// Relies on `rand::thread_rng` and `rand::Rng::gen_range`: a sample
/// drawn uniformly from `0..n`. Nothing more is assumed of the value;
/// callers are verified for every outcome.
#[verifier::external_body]
fn sample_below(n: usize) -> (r: usize)
    requires
        1 <= n,
    ensures
        r < n,
{
    rand::Rng::gen_range(&mut rand::thread_rng(), 0..n)
}

impl MatchState {
    /// Resolves the basic attack dispatched on unit `i` with the given
    /// damage roll. The attacker turns toward the target; damage is a
    /// third of strength plus the roll's modifier; a lethal blow zeroes
    /// the target's health and never provokes a counter; a surviving
    /// melee target with the attacker in range schedules exactly one
    /// counter-attack, tagged as such so it can never chain further.
    #[verifier::rlimit(100)]
    pub fn resolve_attack(&mut self, i: usize, roll: usize, now: u64) -> (r: Option<AttackNotice>)
        requires
            old(self).wf(),
            i < old(self).units@.len(),
            old(self).units@[i as int].processing,
            old(self).units@[i as int].actions@.len() > 0,
            old(self).units@[i as int].actions@[0].action is BasicAttack,
            roll < 7,
            now <= MAX_COMBAT_TIME_MS,
        ensures
            final(self).wf(),
            final(self).units@.len() == old(self).units@.len(),
            r is Some <==> attack_resolvable(*old(self), i as int),
            attack_resolution(*old(self), *final(self), i as int, roll, now, r),
    {
        proof {
            lemma_wf_grid(*old(self));
        }
        let (tpos, is_ca) = match &self.units[i].actions[0].action {
            Action::BasicAttack { target, is_counterattack, .. } => (*target, *is_counterattack),
            _ => (Pos { x: 0, y: 0 }, false),
        };
        let target_idx = match self.grid.occupant_at(tpos) {
            Some(id) => self.find_by_id(id),
            None => None,
        };
        let j = match target_idx {
            Some(j) if j != i && matches!(self.units[j].role, Some(Role::Target)) => j,
            _ => {
                self.units[i].actions.remove(0);
                self.units[i].processing = false;
                self.units[i].role = None;
                proof {
                    assert(self.units@[i as int].actions@ =~= old(
                        self,
                    ).units@[i as int].actions@.drop_first());
                    assert(self.units@ =~= old(self).units@.update(
                        i as int,
                        Unit {
                            actions: self.units@[i as int].actions,
                            processing: false,
                            role: None,
                            ..old(self).units@[i as int]
                        },
                    ));
                    lemma_wf_units_requeued(*old(self), *self);
                }
                return None;
            },
        };
        let upos = self.units[i].pos;
        let strength = self.units[i].strength;
        let t_pos = self.units[j].pos;
        let t_hp = self.units[j].hp_current;
        let t_type = self.units[j].attack_type;
        let t_range = self.units[j].attack_range;
        // Attacker turns toward the target, the horizontal axis decided
        // last.
        let new_facing = if t_pos.x < upos.x {
            Direction::West
        } else if t_pos.x > upos.x {
            Direction::East
        } else if t_pos.y < upos.y {
            Direction::South
        } else if t_pos.y > upos.y {
            Direction::North
        } else {
            self.units[i].facing
        };
        let base = strength / 3 + roll;
        let dmg = if base >= 3 {
            base - 3
        } else {
            0
        };
        let notice = AttackNotice {
            attacker: upos,
            target: t_pos,
            damage: dmg,
            is_counterattack: is_ca,
        };
        let lethal = dmg >= t_hp;
        let mut counter = false;
        if lethal {
            self.units[j].hp_current = 0;
        } else {
            self.units[j].hp_current = t_hp - dmg;
            if !is_ca && matches!(t_type, AttackType::Melee) {
                let reach = attack_tiles(&self.grid, t_pos, t_range, AttackType::Melee);
                proof {
                    assert(reach@.to_set().contains(upos) == reach@.contains(upos));
                    assert(reach@.to_set().contains(upos) == attack_member(
                        self.grid,
                        t_pos,
                        t_range,
                        AttackType::Melee,
                        upos,
                    ));
                }
                if contains_pos(&reach, upos) {
                    counter = true;
                    self.units[j].actions.push(
                        TimedAction {
                            action: Action::BasicAttack {
                                target: upos,
                                is_counterattack: true,
                                damage: 0,
                            },
                            not_before: now + COUNTER_DELAY_MS,
                        },
                    );
                    self.units[j].role = Some(Role::Attacker);
                } else {
                    self.units[j].role = None;
                }
            } else {
                self.units[j].role = None;
            }
        }
        self.units[i].facing = new_facing;
        self.units[i].actions.remove(0);
        self.units[i].processing = false;
        self.units[i].role = if counter {
            Some(Role::Target)
        } else {
            None
        };
        proof {
            let pre = *old(self);
            let ii = i as int;
            let jj = j as int;
            let u = pre.units@[ii];
            let t = pre.units@[jj];
            assert(attack_resolvable(pre, ii));
            assert(attack_target_idx(pre, ii) == Some(jj));
            assert(self.units@[ii].actions@ =~= u.actions@.drop_first());
            let dmg_s = damage_spec(u.strength, roll);
            assert(dmg == dmg_s);
            let lethal_s = dmg_s >= t.hp_current;
            assert(counter == (!lethal_s && counter_due(pre, ii, jj)));
            assert(self.units@ =~= pre.units@.update(
                ii,
                Unit {
                    facing: facing_toward(u.pos, t.pos, u.facing),
                    actions: self.units@[ii].actions,
                    processing: false,
                    role: if counter {
                        Some(Role::Target)
                    } else {
                        None
                    },
                    ..u
                },
            ).update(
                jj,
                Unit {
                    hp_current: if lethal_s {
                        0
                    } else {
                        (t.hp_current - dmg_s) as usize
                    },
                    role: if lethal_s {
                        t.role
                    } else if counter {
                        Some(Role::Attacker)
                    } else {
                        None
                    },
                    actions: self.units@[jj].actions,
                    ..t
                },
            ));
            assert forall|k: int|
                0 <= k < pre.units@.len() implies (#[trigger] self.units@[k]).id
                    == pre.units@[k].id && self.units@[k].pos == pre.units@[k].pos
                    && self.units@[k].wf() by {
                lemma_wf_unit(pre, k);
            }
            lemma_wf_units_replaced(pre, *self);
        }
        Some(notice)
    }

    /// Resolves the basic attack dispatched on unit `i`, drawing the
    /// damage modifier from the random number generator. Whatever the
    /// sample, the outcome obeys the attack-resolution relation for some
    /// roll below seven.
    pub fn resolve_attack_sampled(&mut self, i: usize, now: u64) -> (r: Option<AttackNotice>)
        requires
            old(self).wf(),
            i < old(self).units@.len(),
            old(self).units@[i as int].processing,
            old(self).units@[i as int].actions@.len() > 0,
            old(self).units@[i as int].actions@[0].action is BasicAttack,
            now <= MAX_COMBAT_TIME_MS,
        ensures
            final(self).wf(),
            final(self).units@.len() == old(self).units@.len(),
            r is Some <==> attack_resolvable(*old(self), i as int),
            exists|roll: usize|
                roll < 7 && attack_resolution(*old(self), *final(self), i as int, roll, now, r),
    {
        let roll = sample_below(7);
        let r = self.resolve_attack(i, roll, now);
        proof {
            assert(roll < 7 && attack_resolution(*old(self), *self, i as int, roll, now, r));
        }
        r
    }
}

} // verus!
