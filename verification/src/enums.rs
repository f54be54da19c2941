pub use crate::constants::{Direction, Part, ResourceType, ReturnCode, Terrain};
