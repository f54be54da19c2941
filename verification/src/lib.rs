use vstd::prelude::*;

pub mod constants;
pub mod enums;
pub mod ffi;
pub mod game;
pub mod js_sys;
pub mod objects;
pub mod pathfinder;
pub mod pf_cc;
pub mod pf_cc_heap;
pub mod prelude;
pub mod prototypes;
pub mod search;
pub mod traits;
pub mod utils;
pub mod visual;
pub mod wasm_bindgen;

pub use crate::constants::{Direction, Part, ResourceType, ReturnCode, Terrain};
pub use crate::objects::{
    AreaEffect, BodyPart, BonusFlag, ConstructionSite, Creep, Flag, GameObject, OwnedStructure, Resource,
    ScoreCollector, Source, Spawning, Store, Structure, StructureContainer, StructureExtension,
    StructureRampart, StructureRoad, StructureSpawn, StructureTower, StructureWall,
};
pub use crate::traits::{
    AsGameObject, Attackable, GameObjectProperties, HasCooldown, HasHits, HasPosition, HasStore,
    OwnedStructureProperties, Transferable, Withdrawable,
};
