use vstd::prelude::*;

verus! {

/// Kinds of game objects the host can list, numbered 1 to 16.
#[derive(Debug, Clone, Copy, PartialEq, Eq, Structural)]
pub enum PrototypeId {
    Creep,
    StructureSpawn,
    StructureTower,
    StructureExtension,
    StructureRampart,
    StructureContainer,
    StructureRoad,
    StructureWall,
    Resource,
    Source,
    Flag,
    ScoreCollector,
    BonusFlag,
    AreaEffect,
    ConstructionSite,
    OwnedStructure,
}

impl PrototypeId {
    /// The kind's number on the host interface.
    pub open spec fn number(self) -> int {
        match self {
            PrototypeId::Creep => 1,
            PrototypeId::StructureSpawn => 2,
            PrototypeId::StructureTower => 3,
            PrototypeId::StructureExtension => 4,
            PrototypeId::StructureRampart => 5,
            PrototypeId::StructureContainer => 6,
            PrototypeId::StructureRoad => 7,
            PrototypeId::StructureWall => 8,
            PrototypeId::Resource => 9,
            PrototypeId::Source => 10,
            PrototypeId::Flag => 11,
            PrototypeId::ScoreCollector => 12,
            PrototypeId::BonusFlag => 13,
            PrototypeId::AreaEffect => 14,
            PrototypeId::ConstructionSite => 15,
            PrototypeId::OwnedStructure => 16,
        }
    }

    /// The kind's number on the host interface.
    pub fn to_u32(&self) -> (n: u32)
        ensures
            n == self.number(),
    {
        match self {
            PrototypeId::Creep => 1,
            PrototypeId::StructureSpawn => 2,
            PrototypeId::StructureTower => 3,
            PrototypeId::StructureExtension => 4,
            PrototypeId::StructureRampart => 5,
            PrototypeId::StructureContainer => 6,
            PrototypeId::StructureRoad => 7,
            PrototypeId::StructureWall => 8,
            PrototypeId::Resource => 9,
            PrototypeId::Source => 10,
            PrototypeId::Flag => 11,
            PrototypeId::ScoreCollector => 12,
            PrototypeId::BonusFlag => 13,
            PrototypeId::AreaEffect => 14,
            PrototypeId::ConstructionSite => 15,
            PrototypeId::OwnedStructure => 16,
        }
    }
}

/// Actions a creep or spawn can queue with the host, numbered 1 to 11.
#[derive(Debug, Clone, Copy, PartialEq, Eq, Structural)]
pub enum ActionId {
    Move,
    Attack,
    RangedAttack,
    RangedMassAttack,
    Heal,
    RangedHeal,
    Harvest,
    Transfer,
    Withdraw,
    Build,
    SpawnCreep,
}

/// The action with number `n`, for `1 <= n <= 11`.
pub open spec fn action_of(n: int) -> ActionId {
    if n == 1 {
        ActionId::Move
    } else if n == 2 {
        ActionId::Attack
    } else if n == 3 {
        ActionId::RangedAttack
    } else if n == 4 {
        ActionId::RangedMassAttack
    } else if n == 5 {
        ActionId::Heal
    } else if n == 6 {
        ActionId::RangedHeal
    } else if n == 7 {
        ActionId::Harvest
    } else if n == 8 {
        ActionId::Transfer
    } else if n == 9 {
        ActionId::Withdraw
    } else if n == 10 {
        ActionId::Build
    } else {
        ActionId::SpawnCreep
    }
}

impl ActionId {
    /// The action's number on the host interface.
    pub open spec fn number(self) -> int {
        match self {
            ActionId::Move => 1,
            ActionId::Attack => 2,
            ActionId::RangedAttack => 3,
            ActionId::RangedMassAttack => 4,
            ActionId::Heal => 5,
            ActionId::RangedHeal => 6,
            ActionId::Harvest => 7,
            ActionId::Transfer => 8,
            ActionId::Withdraw => 9,
            ActionId::Build => 10,
            ActionId::SpawnCreep => 11,
        }
    }

    /// The action's number on the host interface.
    pub fn to_u32(&self) -> (n: u32)
        ensures
            n == self.number(),
    {
        match self {
            ActionId::Move => 1,
            ActionId::Attack => 2,
            ActionId::RangedAttack => 3,
            ActionId::RangedMassAttack => 4,
            ActionId::Heal => 5,
            ActionId::RangedHeal => 6,
            ActionId::Harvest => 7,
            ActionId::Transfer => 8,
            ActionId::Withdraw => 9,
            ActionId::Build => 10,
            ActionId::SpawnCreep => 11,
        }
    }

    /// The action with the given number, if there is one.
    pub fn from_u32(val: u32) -> (r: Option<ActionId>)
        ensures
            r is Some <==> 1 <= val <= 11,
            r matches Some(a) ==> a == action_of(val as int) && a.number() == val,
    {
        match val {
            1 => Some(ActionId::Move),
            2 => Some(ActionId::Attack),
            3 => Some(ActionId::RangedAttack),
            4 => Some(ActionId::RangedMassAttack),
            5 => Some(ActionId::Heal),
            6 => Some(ActionId::RangedHeal),
            7 => Some(ActionId::Harvest),
            8 => Some(ActionId::Transfer),
            9 => Some(ActionId::Withdraw),
            10 => Some(ActionId::Build),
            11 => Some(ActionId::SpawnCreep),
            _ => None,
        }
    }
}

/// Numbering an action and reading the number back gives the action.
pub proof fn law_action_number_round_trip(a: ActionId)
    ensures
        1 <= a.number() <= 11,
        action_of(a.number()) == a,
{
}

/// One call of the host's action queue: who acts, what it does, on whom,
/// and the two numeric arguments of that action.
#[derive(Debug, Clone, PartialEq, Eq)]
pub struct ActionRequest {
    pub actor_id: String,
    pub action: ActionId,
    pub target_id: Option<String>,
    pub arg1: u64,
    pub arg2: u64,
}

} // verus!
