pub use crate::pathfinder::Position;
pub use crate::traits::{
    AsGameObject, Attackable, GameObjectProperties, HasCooldown, HasHits, HasPosition, HasStore,
    OwnedStructureProperties, Transferable, Withdrawable,
};
