use vstd::prelude::*;
use crate::ffi::PrototypeId;
use crate::objects::{
    AreaEffect, BonusFlag, ConstructionSite, Creep, Flag, OwnedStructure, Resource, ScoreCollector, Source,
    StructureContainer, StructureExtension, StructureRampart, StructureRoad, StructureSpawn, StructureTower,
    StructureWall,
};

verus! {

/// A marker for one kind of game object: the object type it lists and
/// its kind on the host interface.
pub trait PrototypeConstant {
    /// The object type of this kind.
    type Item;

    /// The kind on the host interface.
    spec fn spec_kind() -> PrototypeId;

    /// The kind on the host interface.
    fn kind() -> (k: PrototypeId)
        ensures
            k == Self::spec_kind(),
    ;

    /// The kind's number on the host interface.
    fn id() -> (n: u32)
        ensures
            n == Self::spec_kind().number(),
    {
        Self::kind().to_u32()
    }
}

/// Marker for `Creep` objects.
#[allow(non_camel_case_types)]
#[derive(Debug, Clone, Copy)]
pub struct CREEP;

impl PrototypeConstant for CREEP {
    type Item = Creep;

    open spec fn spec_kind() -> PrototypeId {
        PrototypeId::Creep
    }

    fn kind() -> (k: PrototypeId) {
        PrototypeId::Creep
    }
}

/// Marker for `StructureSpawn` objects.
#[allow(non_camel_case_types)]
#[derive(Debug, Clone, Copy)]
pub struct STRUCTURE_SPAWN;

impl PrototypeConstant for STRUCTURE_SPAWN {
    type Item = StructureSpawn;

    open spec fn spec_kind() -> PrototypeId {
        PrototypeId::StructureSpawn
    }

    fn kind() -> (k: PrototypeId) {
        PrototypeId::StructureSpawn
    }
}

/// Marker for `StructureTower` objects.
#[allow(non_camel_case_types)]
#[derive(Debug, Clone, Copy)]
pub struct STRUCTURE_TOWER;

impl PrototypeConstant for STRUCTURE_TOWER {
    type Item = StructureTower;

    open spec fn spec_kind() -> PrototypeId {
        PrototypeId::StructureTower
    }

    fn kind() -> (k: PrototypeId) {
        PrototypeId::StructureTower
    }
}

/// Marker for `StructureContainer` objects.
#[allow(non_camel_case_types)]
#[derive(Debug, Clone, Copy)]
pub struct STRUCTURE_CONTAINER;

impl PrototypeConstant for STRUCTURE_CONTAINER {
    type Item = StructureContainer;

    open spec fn spec_kind() -> PrototypeId {
        PrototypeId::StructureContainer
    }

    fn kind() -> (k: PrototypeId) {
        PrototypeId::StructureContainer
    }
}

/// Marker for `Resource` objects.
#[allow(non_camel_case_types)]
#[derive(Debug, Clone, Copy)]
pub struct RESOURCE;

impl PrototypeConstant for RESOURCE {
    type Item = Resource;

    open spec fn spec_kind() -> PrototypeId {
        PrototypeId::Resource
    }

    fn kind() -> (k: PrototypeId) {
        PrototypeId::Resource
    }
}

/// Marker for `Source` objects.
#[allow(non_camel_case_types)]
#[derive(Debug, Clone, Copy)]
pub struct SOURCE;

impl PrototypeConstant for SOURCE {
    type Item = Source;

    open spec fn spec_kind() -> PrototypeId {
        PrototypeId::Source
    }

    fn kind() -> (k: PrototypeId) {
        PrototypeId::Source
    }
}

/// Marker for `Flag` objects.
#[allow(non_camel_case_types)]
#[derive(Debug, Clone, Copy)]
pub struct FLAG;

impl PrototypeConstant for FLAG {
    type Item = Flag;

    open spec fn spec_kind() -> PrototypeId {
        PrototypeId::Flag
    }

    fn kind() -> (k: PrototypeId) {
        PrototypeId::Flag
    }
}

/// Marker for `OwnedStructure` objects.
#[allow(non_camel_case_types)]
#[derive(Debug, Clone, Copy)]
pub struct OWNED_STRUCTURE;

impl PrototypeConstant for OWNED_STRUCTURE {
    type Item = OwnedStructure;

    open spec fn spec_kind() -> PrototypeId {
        PrototypeId::OwnedStructure
    }

    fn kind() -> (k: PrototypeId) {
        PrototypeId::OwnedStructure
    }
}

/// Marker for `StructureWall` objects.
#[allow(non_camel_case_types)]
#[derive(Debug, Clone, Copy)]
pub struct STRUCTURE_WALL;

impl PrototypeConstant for STRUCTURE_WALL {
    type Item = StructureWall;

    open spec fn spec_kind() -> PrototypeId {
        PrototypeId::StructureWall
    }

    fn kind() -> (k: PrototypeId) {
        PrototypeId::StructureWall
    }
}

/// Marker for `StructureRampart` objects.
#[allow(non_camel_case_types)]
#[derive(Debug, Clone, Copy)]
pub struct STRUCTURE_RAMPART;

impl PrototypeConstant for STRUCTURE_RAMPART {
    type Item = StructureRampart;

    open spec fn spec_kind() -> PrototypeId {
        PrototypeId::StructureRampart
    }

    fn kind() -> (k: PrototypeId) {
        PrototypeId::StructureRampart
    }
}

/// Marker for `StructureExtension` objects.
#[allow(non_camel_case_types)]
#[derive(Debug, Clone, Copy)]
pub struct STRUCTURE_EXTENSION;

impl PrototypeConstant for STRUCTURE_EXTENSION {
    type Item = StructureExtension;

    open spec fn spec_kind() -> PrototypeId {
        PrototypeId::StructureExtension
    }

    fn kind() -> (k: PrototypeId) {
        PrototypeId::StructureExtension
    }
}

/// Marker for `ConstructionSite` objects.
#[allow(non_camel_case_types)]
#[derive(Debug, Clone, Copy)]
pub struct CONSTRUCTION_SITE;

impl PrototypeConstant for CONSTRUCTION_SITE {
    type Item = ConstructionSite;

    open spec fn spec_kind() -> PrototypeId {
        PrototypeId::ConstructionSite
    }

    fn kind() -> (k: PrototypeId) {
        PrototypeId::ConstructionSite
    }
}

/// Marker for `StructureRoad` objects.
#[allow(non_camel_case_types)]
#[derive(Debug, Clone, Copy)]
pub struct STRUCTURE_ROAD;

impl PrototypeConstant for STRUCTURE_ROAD {
    type Item = StructureRoad;

    open spec fn spec_kind() -> PrototypeId {
        PrototypeId::StructureRoad
    }

    fn kind() -> (k: PrototypeId) {
        PrototypeId::StructureRoad
    }
}

/// Marker for `ScoreCollector` objects.
#[allow(non_camel_case_types)]
#[derive(Debug, Clone, Copy)]
pub struct SCORE_COLLECTOR;

impl PrototypeConstant for SCORE_COLLECTOR {
    type Item = ScoreCollector;

    open spec fn spec_kind() -> PrototypeId {
        PrototypeId::ScoreCollector
    }

    fn kind() -> (k: PrototypeId) {
        PrototypeId::ScoreCollector
    }
}

/// Marker for `BonusFlag` objects.
#[allow(non_camel_case_types)]
#[derive(Debug, Clone, Copy)]
pub struct BONUS_FLAG;

impl PrototypeConstant for BONUS_FLAG {
    type Item = BonusFlag;

    open spec fn spec_kind() -> PrototypeId {
        PrototypeId::BonusFlag
    }

    fn kind() -> (k: PrototypeId) {
        PrototypeId::BonusFlag
    }
}

/// Marker for `AreaEffect` objects.
#[allow(non_camel_case_types)]
#[derive(Debug, Clone, Copy)]
pub struct AREA_EFFECT;

impl PrototypeConstant for AREA_EFFECT {
    type Item = AreaEffect;

    open spec fn spec_kind() -> PrototypeId {
        PrototypeId::AreaEffect
    }

    fn kind() -> (k: PrototypeId) {
        PrototypeId::AreaEffect
    }
}

} // verus!

pub use self::CONSTRUCTION_SITE as CONSTRUCTION_SITE_PROTOTYPE;
pub use self::CREEP as CREEP_PROTOTYPE;
pub use self::FLAG as FLAG_PROTOTYPE;
pub use self::RESOURCE as RESOURCE_PROTOTYPE;
pub use self::SOURCE as SOURCE_PROTOTYPE;
pub use self::STRUCTURE_CONTAINER as STRUCTURE_CONTAINER_PROTOTYPE;
pub use self::STRUCTURE_EXTENSION as STRUCTURE_EXTENSION_PROTOTYPE;
pub use self::STRUCTURE_SPAWN as STRUCTURE_SPAWN_PROTOTYPE;
pub use self::STRUCTURE_TOWER as STRUCTURE_TOWER_PROTOTYPE;
