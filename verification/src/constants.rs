use vstd::prelude::*;

verus! {

/// Range within which a spawn draws energy from friendly spawns and extensions.
pub const SPAWN_RANGE: u32 = 20;

pub const ATTACK_POWER: u32 = 30;
pub const HEAL_POWER: u32 = 12;
pub const RANGED_HEAL_POWER: u32 = 4;
pub const RANGED_ATTACK_POWER: u32 = 10;
pub const CARRY_CAPACITY: u32 = 50;
pub const DISMANTLE_POWER: u32 = 50;

pub const TOWER_FALLOFF_RANGE: u32 = 20;
pub const TOWER_OPTIMAL_RANGE: u32 = 5;
pub const TOWER_POWER_ATTACK: u32 = 150;
pub const TOWER_POWER_HEAL: u32 = 100;
pub const TOWER_RANGE: u32 = 50;

pub const ROOM_HEIGHT: u32 = 100;
pub const ROOM_WIDTH: u32 = 100;
pub const CREEP_HITS_PER_PART: u32 = 100;
pub const MOVE_POWER: u32 = 2;
pub const RANGED_MASS_ATTACK_POWER_RANGE_1: u32 = 10;
pub const RANGED_MASS_ATTACK_POWER_RANGE_2: u32 = 4;
pub const RANGED_MASS_ATTACK_POWER_RANGE_3: u32 = 1;

/// The eight compass directions, numbered 1 (top) to 8 (top-left) clockwise.
#[derive(Debug, Clone, Copy, PartialEq, Eq, Structural, Hash)]
pub enum Direction {
    Top,
    TopRight,
    Right,
    BottomRight,
    Bottom,
    BottomLeft,
    Left,
    TopLeft,
}

/// The eight directions in the order a spawn tries them by default.
pub fn default_spawn_directions() -> (v: Vec<Direction>)
    ensures
        v@.len() == 8,
        forall|i: int| 0 <= i < 8 ==> #[trigger] v@[i].number() == i + 1,
{
    vec![
        Direction::Top,
        Direction::TopRight,
        Direction::Right,
        Direction::BottomRight,
        Direction::Bottom,
        Direction::BottomLeft,
        Direction::Left,
        Direction::TopLeft,
    ]
}

/// The direction with number `n`, for `1 <= n <= 8`.
pub open spec fn direction_of(n: int) -> Direction {
    if n == 1 {
        Direction::Top
    } else if n == 2 {
        Direction::TopRight
    } else if n == 3 {
        Direction::Right
    } else if n == 4 {
        Direction::BottomRight
    } else if n == 5 {
        Direction::Bottom
    } else if n == 6 {
        Direction::BottomLeft
    } else if n == 7 {
        Direction::Left
    } else {
        Direction::TopLeft
    }
}

impl Direction {
    /// The direction's number, 1 to 8.
    pub open spec fn number(self) -> int {
        match self {
            Direction::Top => 1,
            Direction::TopRight => 2,
            Direction::Right => 3,
            Direction::BottomRight => 4,
            Direction::Bottom => 5,
            Direction::BottomLeft => 6,
            Direction::Left => 7,
            Direction::TopLeft => 8,
        }
    }

    /// Horizontal component of one step in this direction.
    pub open spec fn spec_dx(self) -> int {
        match self {
            Direction::Top | Direction::Bottom => 0,
            Direction::TopRight | Direction::Right | Direction::BottomRight => 1,
            _ => -1,
        }
    }

    /// Vertical component of one step in this direction (downwards positive).
    pub open spec fn spec_dy(self) -> int {
        match self {
            Direction::Left | Direction::Right => 0,
            Direction::BottomRight | Direction::Bottom | Direction::BottomLeft => 1,
            _ => -1,
        }
    }

    /// The direction's number as a `u8`.
    pub fn to_u8(&self) -> (n: u8)
        ensures
            n == self.number(),
    {
        match self {
            Direction::Top => 1,
            Direction::TopRight => 2,
            Direction::Right => 3,
            Direction::BottomRight => 4,
            Direction::Bottom => 5,
            Direction::BottomLeft => 6,
            Direction::Left => 7,
            Direction::TopLeft => 8,
        }
    }

    /// The direction numbered `val`, or `None` outside `1..=8`.
    pub fn from_u8(val: u8) -> (r: Option<Direction>)
        ensures
            1 <= val <= 8 ==> r == Some(direction_of(val as int)),
            !(1 <= val <= 8) ==> r.is_none(),
            r matches Some(d) ==> d.number() == val,
    {
        match val {
            1 => Some(Direction::Top),
            2 => Some(Direction::TopRight),
            3 => Some(Direction::Right),
            4 => Some(Direction::BottomRight),
            5 => Some(Direction::Bottom),
            6 => Some(Direction::BottomLeft),
            7 => Some(Direction::Left),
            8 => Some(Direction::TopLeft),
            _ => None,
        }
    }

    /// The direction reached by turning `steps` eighths clockwise
    /// (counter-clockwise for negative `steps`).
    pub fn multi_rot(&self, steps: i32) -> (d: Direction)
        ensures
            d == direction_of((self.number() - 1 + steps) % 8 + 1),
    {
        let val = self.to_u8() as i32;
        let r: i32 = if steps >= 0 {
            steps % 8
        } else {
            7 - (-(steps + 1)) % 8
        };
        proof {
            if steps < 0 {
                let m = -(steps + 1);
                assert(r == 7 - m % 8);
                assert(steps % 8 == 7 - m % 8) by (nonlinear_arith)
                    requires
                        m == -(steps + 1),
                        m >= 0,
                {
                }
            }
            assert(r == steps % 8);
        }
        let new_val = (val - 1 + r) % 8 + 1;
        proof {
            assert((val - 1 + r) % 8 == (self.number() - 1 + steps) % 8) by (nonlinear_arith)
                requires
                    val == self.number(),
                    r == steps % 8,
            {
            }
        }
        match new_val {
            1 => Direction::Top,
            2 => Direction::TopRight,
            3 => Direction::Right,
            4 => Direction::BottomRight,
            5 => Direction::Bottom,
            6 => Direction::BottomLeft,
            7 => Direction::Left,
            _ => Direction::TopLeft,
        }
    }

    /// The opposite direction.
    pub open spec fn spec_opposite(self) -> Direction {
        match self {
            Direction::Top => Direction::Bottom,
            Direction::TopRight => Direction::BottomLeft,
            Direction::Right => Direction::Left,
            Direction::BottomRight => Direction::TopLeft,
            Direction::Bottom => Direction::Top,
            Direction::BottomLeft => Direction::TopRight,
            Direction::Left => Direction::Right,
            Direction::TopLeft => Direction::BottomRight,
        }
    }

    /// The opposite direction (the `-` of a direction).
    pub fn neg(self) -> (d: Direction)
        ensures
            d == self.spec_opposite(),
    {
        match self {
            Direction::Top => Direction::Bottom,
            Direction::TopRight => Direction::BottomLeft,
            Direction::Right => Direction::Left,
            Direction::BottomRight => Direction::TopLeft,
            Direction::Bottom => Direction::Top,
            Direction::BottomLeft => Direction::TopRight,
            Direction::Left => Direction::Right,
            Direction::TopLeft => Direction::BottomRight,
        }
    }

    /// The direction's name, as `Debug` prints it.
    pub open spec fn spec_name(self) -> Seq<char> {
        match self {
            Direction::Top => "Top"@,
            Direction::TopRight => "TopRight"@,
            Direction::Right => "Right"@,
            Direction::BottomRight => "BottomRight"@,
            Direction::Bottom => "Bottom"@,
            Direction::BottomLeft => "BottomLeft"@,
            Direction::Left => "Left"@,
            Direction::TopLeft => "TopLeft"@,
        }
    }

    /// The direction's name, as `Debug` prints it.
    pub fn name(&self) -> (s: &'static str)
        ensures
            s@ == self.spec_name(),
    {
        match self {
            Direction::Top => "Top",
            Direction::TopRight => "TopRight",
            Direction::Right => "Right",
            Direction::BottomRight => "BottomRight",
            Direction::Bottom => "Bottom",
            Direction::BottomLeft => "BottomLeft",
            Direction::Left => "Left",
            Direction::TopLeft => "TopLeft",
        }
    }
}

/// Law: the opposite of the opposite direction is the direction itself.
pub proof fn law_opposite_involution(d: Direction)
    ensures
        d.spec_opposite().spec_opposite() == d,
{
}

/// Law: the opposite direction steps back exactly one step in each axis.
pub proof fn law_opposite_steps_back(d: Direction)
    ensures
        d.spec_opposite().spec_dx() == -d.spec_dx(),
        d.spec_opposite().spec_dy() == -d.spec_dy(),
{
}

/// Law: turning by four eighths gives the opposite direction.
pub proof fn law_half_turn_is_opposite(d: Direction)
    ensures
        direction_of((d.number() - 1 + 4) % 8 + 1) == d.spec_opposite(),
{
}

/// Law: turning by `a` then by `b` is turning by `a + b`.
pub proof fn law_rotations_compose(d: Direction, a: int, b: int)
    ensures
        direction_of((direction_of((d.number() - 1 + a) % 8 + 1).number() - 1 + b) % 8 + 1)
            == direction_of((d.number() - 1 + a + b) % 8 + 1),
{
    let n = (d.number() - 1 + a) % 8 + 1;
    assert(1 <= n <= 8);
    assert(direction_of(n).number() == n);
    assert((n - 1 + b) % 8 == (d.number() - 1 + a + b) % 8) by (nonlinear_arith)
        requires
            n == (d.number() - 1 + a) % 8 + 1,
    {
    }
}

/// Law: numbering a direction and reading the number back gives the direction.
pub proof fn law_number_round_trip(d: Direction)
    ensures
        1 <= d.number() <= 8,
        direction_of(d.number()) == d,
{
}

/// Body part kinds.
#[derive(Debug, Clone, Copy, PartialEq, Eq, Structural, Hash)]
pub enum Part {
    Move,
    Work,
    Carry,
    Attack,
    RangedAttack,
    Tough,
    Heal,
}

impl Part {
    /// Energy cost of spawning one part of this kind.
    pub open spec fn spec_cost(self) -> u32 {
        match self {
            Part::Move => 50,
            Part::Work => 100,
            Part::Carry => 50,
            Part::Attack => 80,
            Part::RangedAttack => 150,
            Part::Tough => 10,
            Part::Heal => 250,
        }
    }

    /// The part kind's number, 1 (move) to 7 (heal).
    pub open spec fn number(self) -> int {
        match self {
            Part::Move => 1,
            Part::Work => 2,
            Part::Carry => 3,
            Part::Attack => 4,
            Part::RangedAttack => 5,
            Part::Tough => 6,
            Part::Heal => 7,
        }
    }

    /// Energy cost of spawning one part of this kind.
    pub fn cost(&self) -> (c: u32)
        ensures
            c == self.spec_cost(),
            *self == Part::Move ==> c == 50,
            *self == Part::Work ==> c == 100,
            *self == Part::Carry ==> c == 50,
            *self == Part::Attack ==> c == 80,
            *self == Part::RangedAttack ==> c == 150,
            *self == Part::Tough ==> c == 10,
            *self == Part::Heal ==> c == 250,
    {
        match self {
            Part::Move => 50,
            Part::Work => 100,
            Part::Carry => 50,
            Part::Attack => 80,
            Part::RangedAttack => 150,
            Part::Tough => 10,
            Part::Heal => 250,
        }
    }

    /// The part kind's number.
    pub fn to_u8(&self) -> (n: u8)
        ensures
            n == self.number(),
    {
        match self {
            Part::Move => 1,
            Part::Work => 2,
            Part::Carry => 3,
            Part::Attack => 4,
            Part::RangedAttack => 5,
            Part::Tough => 6,
            Part::Heal => 7,
        }
    }
}

/// Result codes of game actions; `code` gives the game's numeric value.
#[derive(Debug, Clone, Copy, PartialEq, Eq, Structural, Hash)]
pub enum ReturnCode {
    OK,
    NotOwner,
    NoPath,
    NameExists,
    Busy,
    NotFound,
    NotEnough,
    InvalidTarget,
    Full,
    NotInRange,
    InvalidArgs,
    Tired,
    NoBodypart,
    Error,
}

impl ReturnCode {
    /// The game's numeric value: 0 for success, negative for errors.
    pub fn code(&self) -> (c: i8)
        ensures
            (c == 0) == (*self == ReturnCode::OK),
            -13 <= c <= 0,
    {
        match self {
            ReturnCode::OK => 0,
            ReturnCode::NotOwner => -1,
            ReturnCode::NoPath => -2,
            ReturnCode::NameExists => -3,
            ReturnCode::Busy => -4,
            ReturnCode::NotFound => -5,
            ReturnCode::NotEnough => -6,
            ReturnCode::InvalidTarget => -7,
            ReturnCode::Full => -8,
            ReturnCode::NotInRange => -9,
            ReturnCode::InvalidArgs => -10,
            ReturnCode::Tired => -11,
            ReturnCode::NoBodypart => -12,
            ReturnCode::Error => -13,
        }
    }
}

/// Terrain kinds of a tile.
#[derive(Debug, Clone, Copy, PartialEq, Eq, Structural, Hash)]
pub enum Terrain {
    Plain,
    Wall,
    Swamp,
}

/// Resource kinds.
#[derive(Debug, Clone, Copy, PartialEq, Eq, Structural, Hash)]
pub enum ResourceType {
    Energy,
    Score,
    ScoreX,
    ScoreY,
    ScoreZ,
}

impl ResourceType {
    /// The resource kind's number, 1 (energy) to 5.
    pub open spec fn number(self) -> int {
        match self {
            ResourceType::Energy => 1,
            ResourceType::Score => 2,
            ResourceType::ScoreX => 3,
            ResourceType::ScoreY => 4,
            ResourceType::ScoreZ => 5,
        }
    }

    /// The resource kind's number.
    pub fn to_u8(&self) -> (n: u8)
        ensures
            n == self.number(),
    {
        match self {
            ResourceType::Energy => 1,
            ResourceType::Score => 2,
            ResourceType::ScoreX => 3,
            ResourceType::ScoreY => 4,
            ResourceType::ScoreZ => 5,
        }
    }
}

} // verus!
