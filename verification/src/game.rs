pub use crate::pathfinder;
pub use crate::utils;
pub use crate::utils::{
    arena_info, create_construction_site, find_path, get_cpu_time, get_heap_statistics, get_object_by_id,
    get_objects, get_terrain_at, get_terrain_at_pos, get_ticks,
};
pub use crate::visual;
