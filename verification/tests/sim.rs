use tactics_core::actions::StepOutcome;
use tactics_core::boundary::{ClientMessage, LobbyState, ServerMessage};
use tactics_core::grid::{Direction, Grid, Pos};
use tactics_core::state::MatchState;
use tactics_core::pathfind::{attack_tiles, reachable_tiles, shortest_path};
use tactics_core::units::{
    parse_usize, unit_from_record, Action, AttackType, RecordError, Role, Unit,
};

fn p(x: usize, y: usize) -> Pos {
    Pos { x, y }
}

fn unit(id: usize, x: usize, y: usize) -> Unit {
    Unit {
        id,
        team: 1,
        name: String::from("test"),
        class_name: String::from("swordsman"),
        pos: p(x, y),
        wt_max: 3,
        wt_current: 3,
        hp_max: 20,
        hp_current: 20,
        mp_max: 5,
        mp_current: 5,
        strength: 9,
        vitality: 2,
        intellect: 2,
        mentality: 2,
        agility: 2,
        dexterity: 2,
        luck: 2,
        facing: Direction::East,
        movement_range: 3,
        attack_range: 1,
        attack_type: AttackType::Melee,
        role: None,
        actions: Vec::new(),
        processing: false,
        steps: Vec::new(),
    }
}

fn sorted(mut v: Vec<Pos>) -> Vec<(usize, usize)> {
    let mut out: Vec<(usize, usize)> = v.drain(..).map(|q| (q.x, q.y)).collect();
    out.sort();
    out.dedup();
    out
}

// Grid basics: placement is rejected on an occupied or off-grid tile and
// vacating returns the previous occupant.

#[test]
fn grid_place_and_vacate() {
    let mut g = Grid::new(8, 8);
    assert!(g.place(p(2, 3), 7));
    assert_eq!(g.occupant_at(p(2, 3)), Some(7));
    assert!(!g.place(p(2, 3), 9));
    assert!(!g.place(p(8, 0), 1));
    assert_eq!(g.vacate(p(2, 3)), Some(7));
    assert_eq!(g.occupant_at(p(2, 3)), None);
    assert_eq!(g.vacate(p(2, 3)), None);
}

// A clear path costs exactly the Manhattan distance in steps.

#[test]
fn shortest_path_clear_grid_length() {
    let g = Grid::new(10, 10);
    let path = shortest_path(&g, p(1, 1), p(4, 6)).expect("open grid must have a path");
    assert_eq!(path.len(), 3 + 5 + 1);
    assert_eq!(path[0], p(1, 1));
    assert_eq!(path[path.len() - 1], p(4, 6));
    for w in path.windows(2) {
        let dx = w[0].x.abs_diff(w[1].x);
        let dy = w[0].y.abs_diff(w[1].y);
        assert_eq!(dx + dy, 1);
    }
}

// A destination ringed by occupied tiles cannot be reached from afar.

#[test]
fn shortest_path_enclosed_destination() {
    let mut g = Grid::new(10, 10);
    for (i, q) in [p(4, 5), p(6, 5), p(5, 4), p(5, 6)].into_iter().enumerate() {
        assert!(g.place(q, 100 + i));
    }
    assert!(shortest_path(&g, p(0, 0), p(5, 5)).is_none());
    // Out-of-bounds endpoints never panic; they simply have no path.
    assert!(shortest_path(&g, p(50, 0), p(5, 5)).is_none());
}

// Reachability: range zero reaches nothing; the occupied origin and other
// occupied tiles are never included.

#[test]
fn reachable_tiles_basics() {
    let mut g = Grid::new(11, 11);
    assert!(g.place(p(5, 5), 1));
    assert!(g.place(p(5, 6), 2));
    assert!(reachable_tiles(&g, p(5, 5), 0).is_empty());
    let tiles = reachable_tiles(&g, p(5, 5), 2);
    assert!(!tiles.contains(&p(5, 5)));
    assert!(!tiles.contains(&p(5, 6)));
    assert!(tiles.contains(&p(5, 4)));
    assert!(tiles.contains(&p(4, 5)));
    assert!(tiles.contains(&p(4, 6)));
    // Diamond of radius 2 minus the origin and the blocked branch:
    // (5,6) occupied also removes (5,7) from reach through that line,
    // but (5,7) stays unreachable only via (5,6); (4,6)/(6,6) reach it not
    // within range 2.
    assert!(!tiles.contains(&p(5, 7)));
}

// Melee attack tiles reach along the axes and an occupied tile blocks the
// line beyond it while remaining attackable itself.

#[test]
fn melee_attack_tiles_blocking() {
    let mut g = Grid::new(10, 10);
    assert!(g.place(p(5, 6), 9));
    let tiles = attack_tiles(&g, p(5, 5), 2, AttackType::Melee);
    let got = sorted(tiles);
    let expected = sorted(vec![
        p(4, 5),
        p(6, 5),
        p(5, 4),
        p(5, 6),
        p(3, 5),
        p(7, 5),
        p(5, 3),
    ]);
    assert_eq!(got, expected);
}

// Ranged attack tiles flood over occupancy; re-querying yields the same
// set.

#[test]
fn ranged_attack_tiles_and_idempotence() {
    let mut g = Grid::new(11, 11);
    assert!(g.place(p(5, 6), 9));
    let a = attack_tiles(&g, p(5, 5), 2, AttackType::Ranged);
    let b = attack_tiles(&g, p(5, 5), 2, AttackType::Ranged);
    assert_eq!(sorted(a.clone()), sorted(b));
    // The flood ignores occupancy entirely: the occupied tile is in range,
    // and so is the origin itself once two steps can loop back onto it.
    assert!(a.contains(&p(5, 6)));
    assert!(a.contains(&p(5, 5)));
    assert!(a.contains(&p(5, 7)));
    assert_eq!(sorted(a).len(), 13);
}

// Decimal parsing accepts exactly nonempty all-digit strings in range.

#[test]
fn parse_usize_cases() {
    assert_eq!(parse_usize(&String::from("0")), Some(0));
    assert_eq!(parse_usize(&String::from("1234")), Some(1234));
    assert_eq!(parse_usize(&String::from("")), None);
    assert_eq!(parse_usize(&String::from("12a")), None);
    assert_eq!(parse_usize(&String::from("-3")), None);
    assert_eq!(parse_usize(&String::from("99999999999999999999999999")), None);
}

#[test]
fn direction_and_attack_type_from_string() {
    assert_eq!(Direction::from_string(&String::from("North")), Some(Direction::North));
    assert_eq!(Direction::from_string(&String::from("east")), None);
    assert_eq!(AttackType::from_string(&String::from("Ranged")), Some(AttackType::Ranged));
    assert_eq!(AttackType::from_string(&String::from("Magic")), None);
}

fn record(fields: &[&str]) -> Vec<String> {
    fields.iter().map(|s| String::from(*s)).collect()
}

fn good_record() -> Vec<String> {
    record(&[
        "7", "1", "Ajax", "Knight", "2", "3", "5", "4", "10", "9", "4", "4", "9", "2", "3", "4",
        "5", "6", "7", "knight", "North", "3", "1", "Melee",
    ])
}

#[test]
fn unit_from_record_reads_all_columns() {
    let u = unit_from_record(&good_record()).expect("record must load");
    assert_eq!(u.id, 7);
    assert_eq!(u.team, 1);
    assert_eq!(u.name, "Ajax");
    assert_eq!(u.class_name, "Knight");
    assert_eq!(u.pos, Pos { x: 2, y: 3 });
    assert_eq!((u.wt_max, u.wt_current), (5, 4));
    assert_eq!((u.hp_max, u.hp_current), (10, 9));
    assert_eq!((u.mp_max, u.mp_current), (4, 4));
    assert_eq!(u.strength, 9);
    assert_eq!(u.luck, 7);
    assert_eq!(u.facing, Direction::North);
    assert_eq!(u.movement_range, 3);
    assert_eq!(u.attack_range, 1);
    assert_eq!(u.attack_type, AttackType::Melee);
    assert!(u.actions.is_empty() && !u.processing && u.steps.is_empty() && u.role.is_none());
}

#[test]
fn unit_from_record_errors() {
    assert!(matches!(unit_from_record(&record(&["1", "2"])), Err(RecordError::TooShort)));
    let mut bad = good_record();
    bad[6] = String::from("x5");
    assert!(matches!(unit_from_record(&bad), Err(RecordError::BadField { column: 6 })));
    let mut bad_facing = good_record();
    bad_facing[20] = String::from("Up");
    assert!(matches!(
        unit_from_record(&bad_facing),
        Err(RecordError::BadField { column: 20 })
    ));
    let mut bad_hp = good_record();
    bad_hp[9] = String::from("11");
    assert!(matches!(unit_from_record(&bad_hp), Err(RecordError::StatsOutOfRange)));
}

// Turn scheduler: with wait counters [3,1,2] the second unit acts after
// one tick; after completing its turn the scheduler deterministically
// picks the next unit whose counter reaches zero.

#[test]
fn wait_turn_scheduling() {
    let mut s = MatchState::new(30, 30);
    let mut u1 = unit(1, 0, 0);
    u1.wt_max = 3;
    u1.wt_current = 3;
    let mut u2 = unit(2, 1, 0);
    u2.wt_max = 1;
    u2.wt_current = 1;
    let mut u3 = unit(3, 2, 0);
    u3.wt_max = 2;
    u3.wt_current = 2;
    assert!(s.add_unit(u1));
    assert!(s.add_unit(u2));
    assert!(s.add_unit(u3));
    assert!(s.wait_turn_tick(0));
    assert_eq!(s.active, Some(2));
    assert_eq!(s.units[0].wt_current, 2);
    assert_eq!(s.units[1].wt_current, 0);
    assert_eq!(s.units[2].wt_current, 1);
    // The turn-start notice is delayed; it is not due immediately.
    assert!(s.due_turn_notice(0).is_none());
    let notice = s.due_turn_notice(500).expect("notice due after its delay");
    assert_eq!(notice.current_unit, 2);
    // The active unit completes its turn: its counter resets to its
    // maximum and the scheduler is idle again.
    assert!(s.complete_turn());
    assert_eq!(s.active, None);
    assert_eq!(s.units[1].wt_current, 1);
    // The next tick deterministically grants the next zero counter.
    assert!(s.wait_turn_tick(1000));
    assert_eq!(s.active, Some(2));
}

// The scheduler never advances while a unit is still active.

#[test]
fn scheduler_waits_for_active_turn() {
    let mut s = MatchState::new(10, 10);
    let mut u1 = unit(1, 0, 0);
    u1.wt_current = 0;
    assert!(s.add_unit(u1));
    assert!(s.wait_turn_tick(0));
    assert_eq!(s.active, Some(1));
    assert!(!s.wait_turn_tick(100));
    assert_eq!(s.active, Some(1));
}

fn attack_setup(target_hp: usize, target_type: AttackType) -> MatchState {
    let mut s = MatchState::new(10, 10);
    let mut attacker = unit(1, 0, 0);
    attacker.strength = 9;
    attacker.wt_current = 0;
    let mut target = unit(2, 0, 1);
    target.hp_max = 20;
    target.hp_current = target_hp;
    target.attack_type = target_type;
    target.attack_range = 1;
    assert!(s.add_unit(attacker));
    assert!(s.add_unit(target));
    s.active = Some(1);
    assert!(s.queue_attack(p(0, 1), 0));
    assert_eq!(s.units[1].role, Some(Role::Target));
    assert!(s.dispatch_ready(0, 0).is_some());
    s
}

// Combat: with strength 9 every roll in [0,6] deals damage equal to the
// roll (a third of strength plus the sampled modifier in [-3,3]).

#[test]
fn damage_range_with_strength_nine() {
    for roll in 0..7usize {
        let mut s = attack_setup(20, AttackType::Ranged);
        let notice = s.resolve_attack(0, roll, 0).expect("target is present");
        assert_eq!(notice.damage, roll);
        assert!(notice.damage <= 6);
        assert!(!notice.is_counterattack);
        assert_eq!(s.units[1].hp_current, 20 - roll);
    }
}

// A sub-lethal melee hit against a melee target in range schedules
// exactly one counter-attack, tagged as such.

#[test]
fn sublethal_melee_hit_counters_once() {
    let mut s = attack_setup(20, AttackType::Melee);
    let notice = s.resolve_attack(0, 6, 0).expect("target is present");
    assert_eq!(notice.damage, 6);
    assert_eq!(s.units[1].hp_current, 14);
    assert_eq!(s.units[1].actions.len(), 1);
    match &s.units[1].actions[0].action {
        Action::BasicAttack { target, is_counterattack, .. } => {
            assert_eq!(*target, p(0, 0));
            assert!(*is_counterattack);
        },
        _ => panic!("expected a queued counter-attack"),
    }
    assert_eq!(s.units[1].actions[0].not_before, 2000);
    assert_eq!(s.units[1].role, Some(Role::Attacker));
    assert_eq!(s.units[0].role, Some(Role::Target));
}

// A ranged target never counters; nor does any target of a blow that was
// itself a counter-attack.

#[test]
fn ranged_target_never_counters() {
    let mut s = attack_setup(20, AttackType::Ranged);
    s.resolve_attack(0, 6, 0).expect("target is present");
    assert!(s.units[1].actions.is_empty());
    assert_eq!(s.units[1].role, None);
}

// A lethal hit zeroes the target and never provokes a counter; the death
// check then clears the tile exactly once and idles the scheduler if the
// dead unit was active.

#[test]
fn lethal_hit_and_death() {
    let mut s = attack_setup(5, AttackType::Melee);
    let notice = s.resolve_attack(0, 6, 0).expect("target is present");
    assert_eq!(notice.damage, 6);
    assert_eq!(s.units[1].hp_current, 0);
    assert!(s.units[1].actions.is_empty(), "a lethal hit never schedules a counter");
    assert_eq!(s.grid.occupant_at(p(0, 1)), Some(2));
    s.active = Some(2);
    s.process_deaths();
    assert_eq!(s.units.len(), 1);
    assert_eq!(s.grid.occupant_at(p(0, 1)), None);
    assert_eq!(s.active, None, "the scheduler idles when the active unit dies");
    // A second pass finds nothing more to remove.
    s.process_deaths();
    assert_eq!(s.units.len(), 1);
}

// End-to-end: a queued move to a tile three steps away expands into three
// chained single-step moves, each advancing one tile on its own timer.

#[test]
fn move_expansion_end_to_end() {
    let mut s = MatchState::new(30, 30);
    let mut a = unit(1, 0, 0);
    a.movement_range = 3;
    assert!(s.add_unit(a));
    s.active = Some(1);
    assert!(s.queue_move(p(0, 0), p(0, 3)));
    // Dispatch and expansion happen on the first tick; the first step is
    // not due yet.
    let out = s.tick(0);
    assert!(out.is_empty());
    assert!(s.units[0].processing);
    assert_eq!(s.units[0].steps.len(), 3);
    assert_eq!(s.units[0].steps[0].due, 2000);
    assert_eq!(s.units[0].steps[2].due, 6000);
    assert_eq!(s.units[0].pos, p(0, 0));
    s.tick(2000);
    assert_eq!(s.units[0].pos, p(0, 1));
    s.tick(4000);
    assert_eq!(s.units[0].pos, p(0, 2));
    s.tick(6000);
    assert_eq!(s.units[0].pos, p(0, 3));
    // One more tick completes the drained chain.
    s.tick(6001);
    assert!(!s.units[0].processing);
    assert!(s.units[0].actions.is_empty());
    assert_eq!(s.grid.occupant_at(p(0, 0)), None);
    assert_eq!(s.grid.occupant_at(p(0, 3)), Some(1));
}

// A move step whose target has become occupied abandons the whole chain;
// the mover keeps its position.

#[test]
fn move_step_aborts_on_occupied_tile() {
    let mut s = MatchState::new(10, 10);
    assert!(s.add_unit(unit(1, 0, 0)));
    s.active = Some(1);
    assert!(s.queue_move(p(0, 0), p(0, 2)));
    assert!(s.dispatch_ready(0, 0).is_some());
    s.expand_move(0, 0);
    assert_eq!(s.units[0].steps.len(), 2);
    // Another unit takes the step target before the timer elapses.
    assert!(s.add_unit(unit(9, 0, 1)));
    assert_eq!(s.execute_move_step(0, 1000), StepOutcome::Waiting);
    assert_eq!(s.execute_move_step(0, 2000), StepOutcome::Blocked);
    assert_eq!(s.units[0].pos, p(0, 0));
    assert!(s.units[0].steps.is_empty());
    assert!(!s.units[0].processing);
}

// The lobby tracks loading clients; the all-loaded check is exact.

#[test]
fn lobby_loading_flow() {
    let mut l = LobbyState::new();
    assert!(l.all_loaded());
    match l.register_client(4) {
        ServerMessage::ClientId { client_id } => assert_eq!(client_id, 4),
        _ => panic!("expected a client id reply"),
    }
    let (_echo, fresh) = l.handle_start_game(4);
    assert!(fresh);
    let (_echo, fresh2) = l.handle_start_game(5);
    assert!(!fresh2);
    l.register_client(5);
    assert!(!l.all_loaded());
    l.loading_complete(4);
    l.loading_complete(5);
    assert!(l.all_loaded());
}

// The battle message boundary: a Wait signal ends the turn and is echoed;
// move intents are queued on the active unit and echoed; stray messages
// are ignored.

#[test]
fn battle_message_boundary() {
    let mut s = MatchState::new(10, 10);
    let mut u1 = unit(1, 0, 0);
    u1.wt_current = 0;
    assert!(s.add_unit(u1));
    s.active = Some(1);
    let out = s.handle_battle_message(&ClientMessage::Move {
        origin: p(0, 0),
        destination: p(0, 2),
    });
    assert_eq!(out.len(), 1);
    assert_eq!(s.units[0].actions.len(), 1);
    // The turn cannot complete while an action is still queued.
    let out2 = s.handle_battle_message(&ClientMessage::Wait);
    assert!(out2.is_empty());
    assert_eq!(s.active, Some(1));
    s.units[0].actions.clear();
    let out3 = s.handle_battle_message(&ClientMessage::Wait);
    assert_eq!(out3.len(), 1);
    assert_eq!(s.active, None);
    // Out-of-phase messages are ignored.
    let out4 = s.handle_battle_message(&ClientMessage::GetClientId);
    assert!(out4.is_empty());
}

// The wait-turn report lists every unit with its counter, in creation
// order.

#[test]
fn wait_turn_report_lists_units() {
    let mut s = MatchState::new(10, 10);
    let mut u1 = unit(1, 0, 0);
    u1.wt_current = 2;
    let mut u2 = unit(2, 1, 0);
    u2.wt_current = 3;
    assert!(s.add_unit(u1));
    assert!(s.add_unit(u2));
    assert_eq!(s.wait_turn_report(), vec![(1, 2), (2, 3)]);
}

// Duplicate ids and occupied tiles are rejected at setup.

#[test]
fn add_unit_rejections() {
    let mut s = MatchState::new(10, 10);
    assert!(s.add_unit(unit(1, 0, 0)));
    assert!(!s.add_unit(unit(1, 5, 5)), "duplicate id");
    assert!(!s.add_unit(unit(2, 0, 0)), "occupied tile");
    assert!(!s.add_unit(unit(3, 50, 0)), "off the grid");
    assert_eq!(s.units.len(), 1);
}
