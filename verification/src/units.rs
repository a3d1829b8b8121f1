//! Units: combat attributes, the per-unit action queue, and the roster
//! record they are loaded from.
//!
//! A roster record is one row of the tabular unit data, already split into
//! its columns. All numeric columns are non-negative integers; a column
//! that fails to parse is fatal to battle setup.

use vstd::prelude::*;

use crate::grid::{dir_from_chars, Direction, Pos};

verus! {

/// How a unit strikes: melee reaches along grid axes and is blocked by
/// intervening units; ranged reaches over units.
#[derive(Clone, Copy, PartialEq, Eq, Structural, Debug)]
pub enum AttackType {
    Melee,
    Ranged,
}

/// The attack type a roster record's last column spells, if any.
pub open spec fn atk_from_chars(s: Seq<char>) -> Option<AttackType> {
    if s == "Melee"@ {
        Some(AttackType::Melee)
    } else if s == "Ranged"@ {
        Some(AttackType::Ranged)
    } else {
        None
    }
}

impl AttackType {
    /// Reads an attack type from its roster-record spelling.
    pub fn from_string(s: &String) -> (r: Option<AttackType>)
        ensures
            r == atk_from_chars(s@),
    {
        proof {
            reveal_strlit("Melee");
            reveal_strlit("Ranged");
            assert("Melee"@.len() == 5 && "Ranged"@.len() == 6);
        }
        if s.eq(&"Melee".to_owned()) {
            Some(AttackType::Melee)
        } else if s.eq(&"Ranged".to_owned()) {
            Some(AttackType::Ranged)
        } else {
            None
        }
    }
}

/// A transient combat role, in place of entity marker tags: set when an
/// attack is queued, consumed when it resolves.
#[derive(Clone, Copy, PartialEq, Eq, Structural, Debug)]
pub enum Role {
    Attacker,
    Target,
}

/// A queued intent for a unit.
pub enum Action {
    Move { origin: Pos, destination: Pos },
    Talk { message: String },
    BasicAttack { target: Pos, is_counterattack: bool, damage: usize },
    DoNothing,
}

impl Default for Action {
    /// The inert action.
    fn default() -> (r: Action)
        ensures
            r is DoNothing,
    {
        Action::DoNothing
    }
}

/// An action and the earliest time, in milliseconds of simulation time, at
/// which it may be dispatched.
pub struct TimedAction {
    pub action: Action,
    pub not_before: u64,
}

impl Default for TimedAction {
    /// An inert action, dispatchable at once.
    fn default() -> (r: TimedAction)
        ensures
            r.action is DoNothing,
            r.not_before == 0,
    {
        TimedAction { action: Action::DoNothing, not_before: 0 }
    }
}

/// One expanded movement step: a single-tile move that completes at `due`
/// milliseconds of simulation time.
pub struct MoveStep {
    pub origin: Pos,
    pub destination: Pos,
    pub due: u64,
}

pub open spec fn is_digit(c: char) -> bool {
    48 <= c as u32 <= 57
}

pub open spec fn digit_val(c: char) -> int {
    c as u32 - 48
}

/// Value of a digit string, most significant digit first.
pub open spec fn digits_val(s: Seq<char>) -> int
    decreases s.len(),
{
    if s.len() == 0 {
        0
    } else {
        digits_val(s.drop_last()) * 10 + digit_val(s.last())
    }
}

pub open spec fn all_digits(s: Seq<char>) -> bool {
    forall|i: int| 0 <= i < s.len() ==> is_digit(#[trigger] s[i])
}

/// A column parses as a `usize`: nonempty, digits only, and in range.
pub open spec fn parses_as_usize(s: Seq<char>) -> bool {
    s.len() >= 1 && all_digits(s) && digits_val(s) <= usize::MAX
}

proof fn lemma_digits_val_nonneg(s: Seq<char>)
    requires
        all_digits(s),
    ensures
        digits_val(s) >= 0,
    decreases s.len(),
{
    if s.len() > 0 {
        assert(forall|i: int| 0 <= i < s.drop_last().len() ==> #[trigger] s.drop_last()[i] == s[i]);
        lemma_digits_val_nonneg(s.drop_last());
    }
}

proof fn lemma_digits_val_prefix_le(s: Seq<char>, m: int)
    requires
        all_digits(s),
        0 <= m <= s.len(),
    ensures
        digits_val(s.subrange(0, m)) <= digits_val(s),
    decreases s.len() - m,
{
    if m < s.len() {
        let a = s.subrange(0, m);
        let b = s.subrange(0, m + 1);
        assert(b.drop_last() =~= a);
        assert(forall|i: int| 0 <= i < a.len() ==> #[trigger] a[i] == s[i]);
        lemma_digits_val_nonneg(a);
        assert(digits_val(b) == digits_val(a) * 10 + digit_val(s[m]));
        lemma_digits_val_prefix_le(s, m + 1);
    } else {
        assert(s.subrange(0, m) =~= s);
    }
}

/// Reads a non-negative integer written in decimal digits; `None` on an
/// empty string, a non-digit character, or a value over `usize::MAX`.
pub fn parse_usize(s: &String) -> (r: Option<usize>)
    ensures
        (match r {
            Some(n) => parses_as_usize(s@) && n == digits_val(s@),
            None => !parses_as_usize(s@),
        }),
{
    let n = s.as_str().unicode_len();
    if n == 0 {
        return None;
    }
    let mut i: usize = 0;
    let mut acc: usize = 0;
    while i < n
        invariant
            n == s@.len(),
            i <= n,
            all_digits(s@.subrange(0, i as int)),
            acc == digits_val(s@.subrange(0, i as int)),
        decreases n - i,
    {
        let c = s.as_str().get_char(i);
        let code = c as u32;
        if code < 48 || code > 57 {
            proof {
                assert(!is_digit(s@[i as int]));
            }
            return None;
        }
        let d = (code - 48) as usize;
        let ghost prefix = s@.subrange(0, i as int);
        let ghost longer = s@.subrange(0, i + 1);
        proof {
            assert(longer =~= prefix.push(s@[i as int]));
            assert(longer.drop_last() =~= prefix);
            assert(digits_val(longer) == digits_val(prefix) * 10 + digit_val(s@[i as int]));
        }
        let stepped = match acc.checked_mul(10) {
            Some(m) => m.checked_add(d),
            None => None,
        };
        match stepped {
            Some(v) => {
                acc = v;
            },
            None => {
                proof {
                    if parses_as_usize(s@) {
                        lemma_digits_val_prefix_le(s@, i + 1);
                    }
                }
                return None;
            },
        }
        i = i + 1;
    }
    proof {
        assert(s@.subrange(0, n as int) =~= s@);
    }
    Some(acc)
}

/// A battle unit and everything the simulation tracks for it, including
/// its pending action queue and any expanded movement steps.
pub struct Unit {
    pub id: usize,
    pub team: usize,
    pub name: String,
    pub class_name: String,
    pub pos: Pos,
    pub wt_max: usize,
    pub wt_current: usize,
    pub hp_max: usize,
    pub hp_current: usize,
    pub mp_max: usize,
    pub mp_current: usize,
    pub strength: usize,
    pub vitality: usize,
    pub intellect: usize,
    pub mentality: usize,
    pub agility: usize,
    pub dexterity: usize,
    pub luck: usize,
    pub facing: Direction,
    pub movement_range: usize,
    pub attack_range: usize,
    pub attack_type: AttackType,
    pub role: Option<Role>,
    pub actions: Vec<TimedAction>,
    pub processing: bool,
    pub steps: Vec<MoveStep>,
}

impl Unit {
    /// Stat bounds every live unit keeps.
    pub open spec fn wf(self) -> bool {
        self.hp_current <= self.hp_max && self.wt_current <= self.wt_max
    }
}

/// Why a roster record was rejected.
#[derive(Clone, Copy, PartialEq, Eq, Structural, Debug)]
pub enum RecordError {
    /// Fewer columns than the roster layout has.
    TooShort,
    /// The first column, in layout order, whose text cannot be read.
    BadField { column: usize },
    /// All columns read, but a current stat exceeds its maximum.
    StatsOutOfRange,
}

/// Number of columns in a roster record.
pub const RECORD_COLUMNS: usize = 24;

/// Whether column `c` of a (long enough) record holds readable text.
/// Columns 2, 3 and 19 (name, class, sprite key) are free-form; 20 is a
/// facing; 23 an attack type; the rest are non-negative integers.
pub open spec fn col_ok(f: Seq<Seq<char>>, c: int) -> bool {
    if c == 2 || c == 3 || c == 19 {
        true
    } else if c == 20 {
        dir_from_chars(f[c]) is Some
    } else if c == 23 {
        atk_from_chars(f[c]) is Some
    } else {
        parses_as_usize(f[c])
    }
}

pub open spec fn record_cols_ok(f: Seq<Seq<char>>) -> bool {
    forall|c: int| 0 <= c < RECORD_COLUMNS ==> #[trigger] col_ok(f, c)
}

/// The two cross-column stat bounds a record must satisfy.
pub open spec fn record_stats_ok(f: Seq<Seq<char>>) -> bool {
    digits_val(f[7]) <= digits_val(f[6]) && digits_val(f[9]) <= digits_val(f[8])
}

pub open spec fn record_ok(f: Seq<Seq<char>>) -> bool {
    f.len() >= RECORD_COLUMNS && record_cols_ok(f) && record_stats_ok(f)
}

/// Builds a unit from one roster record, its columns in layout order:
/// id, team, name, class, position, wait-turn and health counters, mana,
/// the seven base stats, sprite key, facing, movement range, attack range
/// and attack type. The unit starts with an empty action queue, no role,
/// and nothing in flight.
pub fn unit_from_record(fields: &Vec<String>) -> (r: Result<Unit, RecordError>)
    ensures
        r is Ok <==> record_ok(fields@.map_values(|s: String| s@)),
        (match r {
            Ok(u) => ({
                let f = fields@.map_values(|s: String| s@);
                &&& u.wf()
                &&& u.id == digits_val(f[0])
                &&& u.team == digits_val(f[1])
                &&& u.name == fields@[2]
                &&& u.class_name == fields@[3]
                &&& u.pos.x == digits_val(f[4])
                &&& u.pos.y == digits_val(f[5])
                &&& u.wt_max == digits_val(f[6])
                &&& u.wt_current == digits_val(f[7])
                &&& u.hp_max == digits_val(f[8])
                &&& u.hp_current == digits_val(f[9])
                &&& u.mp_max == digits_val(f[10])
                &&& u.mp_current == digits_val(f[11])
                &&& u.strength == digits_val(f[12])
                &&& u.vitality == digits_val(f[13])
                &&& u.intellect == digits_val(f[14])
                &&& u.mentality == digits_val(f[15])
                &&& u.agility == digits_val(f[16])
                &&& u.dexterity == digits_val(f[17])
                &&& u.luck == digits_val(f[18])
                &&& Some(u.facing) == dir_from_chars(f[20])
                &&& u.movement_range == digits_val(f[21])
                &&& u.attack_range == digits_val(f[22])
                &&& Some(u.attack_type) == atk_from_chars(f[23])
                &&& u.role is None
                &&& u.actions@.len() == 0
                &&& !u.processing
                &&& u.steps@.len() == 0
            }),
            Err(RecordError::TooShort) => fields@.len() < RECORD_COLUMNS,
            Err(RecordError::BadField { column }) => ({
                let f = fields@.map_values(|s: String| s@);
                &&& fields@.len() >= RECORD_COLUMNS
                &&& 0 <= column < RECORD_COLUMNS
                &&& !col_ok(f, column as int)
                &&& forall|c: int| 0 <= c < column ==> #[trigger] col_ok(f, c)
            }),
            Err(RecordError::StatsOutOfRange) => ({
                let f = fields@.map_values(|s: String| s@);
                fields@.len() >= RECORD_COLUMNS && record_cols_ok(f) && !record_stats_ok(f)
            }),
        }),
{
    if fields.len() < RECORD_COLUMNS {
        return Err(RecordError::TooShort);
    }
    proof {
        let f = fields@.map_values(|s: String| s@);
        assert(forall|c: int| 0 <= c < fields@.len() ==> #[trigger] f[c] == fields@[c]@);
    }
    let id = match parse_usize(&fields[0]) {
        Some(v) => v,
        None => {
            proof {
                assert(!col_ok(fields@.map_values(|s: String| s@), 0));
            }
            return Err(RecordError::BadField { column: 0 });
        },
    };
    let team = match parse_usize(&fields[1]) {
        Some(v) => v,
        None => {
            proof {
                assert(!col_ok(fields@.map_values(|s: String| s@), 1));
            }
            return Err(RecordError::BadField { column: 1 });
        },
    };
    let name = fields[2].clone();
    let class_name = fields[3].clone();
    let pos_x = match parse_usize(&fields[4]) {
        Some(v) => v,
        None => {
            proof {
                assert(!col_ok(fields@.map_values(|s: String| s@), 4));
            }
            return Err(RecordError::BadField { column: 4 });
        },
    };
    let pos_y = match parse_usize(&fields[5]) {
        Some(v) => v,
        None => {
            proof {
                assert(!col_ok(fields@.map_values(|s: String| s@), 5));
            }
            return Err(RecordError::BadField { column: 5 });
        },
    };
    let wt_max = match parse_usize(&fields[6]) {
        Some(v) => v,
        None => {
            proof {
                assert(!col_ok(fields@.map_values(|s: String| s@), 6));
            }
            return Err(RecordError::BadField { column: 6 });
        },
    };
    let wt_current = match parse_usize(&fields[7]) {
        Some(v) => v,
        None => {
            proof {
                assert(!col_ok(fields@.map_values(|s: String| s@), 7));
            }
            return Err(RecordError::BadField { column: 7 });
        },
    };
    let hp_max = match parse_usize(&fields[8]) {
        Some(v) => v,
        None => {
            proof {
                assert(!col_ok(fields@.map_values(|s: String| s@), 8));
            }
            return Err(RecordError::BadField { column: 8 });
        },
    };
    let hp_current = match parse_usize(&fields[9]) {
        Some(v) => v,
        None => {
            proof {
                assert(!col_ok(fields@.map_values(|s: String| s@), 9));
            }
            return Err(RecordError::BadField { column: 9 });
        },
    };
    let mp_max = match parse_usize(&fields[10]) {
        Some(v) => v,
        None => {
            proof {
                assert(!col_ok(fields@.map_values(|s: String| s@), 10));
            }
            return Err(RecordError::BadField { column: 10 });
        },
    };
    let mp_current = match parse_usize(&fields[11]) {
        Some(v) => v,
        None => {
            proof {
                assert(!col_ok(fields@.map_values(|s: String| s@), 11));
            }
            return Err(RecordError::BadField { column: 11 });
        },
    };
    let strength = match parse_usize(&fields[12]) {
        Some(v) => v,
        None => {
            proof {
                assert(!col_ok(fields@.map_values(|s: String| s@), 12));
            }
            return Err(RecordError::BadField { column: 12 });
        },
    };
    let vitality = match parse_usize(&fields[13]) {
        Some(v) => v,
        None => {
            proof {
                assert(!col_ok(fields@.map_values(|s: String| s@), 13));
            }
            return Err(RecordError::BadField { column: 13 });
        },
    };
    let intellect = match parse_usize(&fields[14]) {
        Some(v) => v,
        None => {
            proof {
                assert(!col_ok(fields@.map_values(|s: String| s@), 14));
            }
            return Err(RecordError::BadField { column: 14 });
        },
    };
    let mentality = match parse_usize(&fields[15]) {
        Some(v) => v,
        None => {
            proof {
                assert(!col_ok(fields@.map_values(|s: String| s@), 15));
            }
            return Err(RecordError::BadField { column: 15 });
        },
    };
    let agility = match parse_usize(&fields[16]) {
        Some(v) => v,
        None => {
            proof {
                assert(!col_ok(fields@.map_values(|s: String| s@), 16));
            }
            return Err(RecordError::BadField { column: 16 });
        },
    };
    let dexterity = match parse_usize(&fields[17]) {
        Some(v) => v,
        None => {
            proof {
                assert(!col_ok(fields@.map_values(|s: String| s@), 17));
            }
            return Err(RecordError::BadField { column: 17 });
        },
    };
    let luck = match parse_usize(&fields[18]) {
        Some(v) => v,
        None => {
            proof {
                assert(!col_ok(fields@.map_values(|s: String| s@), 18));
            }
            return Err(RecordError::BadField { column: 18 });
        },
    };
    let facing = match Direction::from_string(&fields[20]) {
        Some(v) => v,
        None => {
            proof {
                assert(!col_ok(fields@.map_values(|s: String| s@), 20));
            }
            return Err(RecordError::BadField { column: 20 });
        },
    };
    let movement_range = match parse_usize(&fields[21]) {
        Some(v) => v,
        None => {
            proof {
                assert(!col_ok(fields@.map_values(|s: String| s@), 21));
            }
            return Err(RecordError::BadField { column: 21 });
        },
    };
    let attack_range = match parse_usize(&fields[22]) {
        Some(v) => v,
        None => {
            proof {
                assert(!col_ok(fields@.map_values(|s: String| s@), 22));
            }
            return Err(RecordError::BadField { column: 22 });
        },
    };
    let attack_type = match AttackType::from_string(&fields[23]) {
        Some(v) => v,
        None => {
            proof {
                assert(!col_ok(fields@.map_values(|s: String| s@), 23));
            }
            return Err(RecordError::BadField { column: 23 });
        },
    };
    if wt_current > wt_max || hp_current > hp_max {
        proof {
            assert(!record_stats_ok(fields@.map_values(|s: String| s@)));
        }
        return Err(RecordError::StatsOutOfRange);
    }
    proof {
        let f = fields@.map_values(|s: String| s@);
        assert forall|c: int| 0 <= c < RECORD_COLUMNS implies #[trigger] col_ok(f, c) by {
            assert(f[c] == fields@[c]@);
        }
    }
    Ok(
        Unit {
            id,
            team,
            name,
            class_name,
            pos: Pos { x: pos_x, y: pos_y },
            wt_max,
            wt_current,
            hp_max,
            hp_current,
            mp_max,
            mp_current,
            strength,
            vitality,
            intellect,
            mentality,
            agility,
            dexterity,
            luck,
            facing,
            movement_range,
            attack_range,
            attack_type,
            role: None,
            actions: Vec::new(),
            processing: false,
            steps: Vec::new(),
        },
    )
}

} // verus!
