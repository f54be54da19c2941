use screeps_arena_mock::constants::{Direction, Part, ReturnCode};
use screeps_arena_mock::ffi::{ActionId, PrototypeId};
use screeps_arena_mock::js_sys::{JsString, Object};
use screeps_arena_mock::objects::{
    ConstructionSite, Creep, GameObject, OwnedStructure, Source, Store, Structure, StructureSpawn,
    StructureTower,
};
use screeps_arena_mock::pathfinder::{CostMatrix, Position, TerrainMap};
use screeps_arena_mock::pf_cc_heap::{OpenClosedList, PfCcHeap};
use screeps_arena_mock::prototypes::{PrototypeConstant, CREEP, STRUCTURE_SPAWN, STRUCTURE_TOWER};
use screeps_arena_mock::traits::{GameObjectProperties, HasHits, HasPosition, HasStore, OwnedStructureProperties};
use screeps_arena_mock::utils::{
    arena_info, create_construction_site, get_cpu_time, get_heap_statistics, get_object_by_id, get_objects,
    get_terrain_at, get_terrain_at_pos, get_ticks, ArenaObjects,
};
use screeps_arena_mock::visual::{TextAlign, TextStyle, Visual};
use screeps_arena_mock::wasm_bindgen::{JsCast, JsValue};

fn obj(id: &str, x: u8, y: u8) -> GameObject {
    GameObject { id: id.to_string(), x, y }
}

fn creep(id: &str, x: u8, y: u8) -> Creep {
    Creep { base: obj(id, x, y), fatigue: 0, hits: 100, hits_max: 100, my: true, spawning: false, body: vec![] }
}

fn tower(id: &str) -> StructureTower {
    StructureTower { base: obj(id, 1, 2), hits: 3000, hits_max: 3000, energy: 10, energy_max: 50, my: Some(true) }
}

#[test]
fn action_numbers_round_trip() {
    for n in 0u32..=12 {
        match ActionId::from_u32(n) {
            Some(a) => {
                assert!((1..=11).contains(&n));
                assert_eq!(a.to_u32(), n);
            }
            None => assert!(n == 0 || n == 12),
        }
    }
    assert_eq!(ActionId::from_u32(11), Some(ActionId::SpawnCreep));
    assert_eq!(PrototypeId::OwnedStructure.to_u32(), 16);
}

#[test]
fn prototype_markers_name_their_kind() {
    assert_eq!(CREEP::id(), 1);
    assert_eq!(STRUCTURE_SPAWN::id(), 2);
    assert_eq!(STRUCTURE_TOWER::kind(), PrototypeId::StructureTower);
}

#[test]
fn directions_rotate_and_reverse() {
    assert_eq!(Direction::Top.multi_rot(1), Direction::TopRight);
    assert_eq!(Direction::Top.multi_rot(-1), Direction::TopLeft);
    assert_eq!(Direction::Left.multi_rot(10), Direction::Top);
    assert_eq!(Direction::Top.neg(), Direction::Bottom);
    assert_eq!(Direction::from_u8(0), None);
    assert_eq!(Direction::from_u8(5), Some(Direction::Bottom));
    assert_eq!(Direction::BottomLeft.neg().neg(), Direction::BottomLeft);
}

#[test]
fn part_costs() {
    assert_eq!(Part::Move.cost(), 50);
    assert_eq!(Part::Heal.cost(), 250);
    assert_eq!(ReturnCode::NoBodypart.code(), -12);
    assert_eq!(ReturnCode::OK.code(), 0);
}

#[test]
fn positions_step_and_measure() {
    let p = Position { x: 10, y: 10 };
    assert_eq!(p.add(Direction::TopRight), Position { x: 11, y: 9 });
    assert_eq!(p.add(Direction::TopRight).add(Direction::BottomLeft), p);
    assert_eq!(Position { x: 0, y: 0 }.add(Direction::TopLeft), Position { x: 0, y: 0 });
    assert_eq!(HasPosition::range_to(&p, &Position { x: 13, y: 8 }), 3);
}

#[test]
fn cost_matrix_get_after_set() {
    let mut cm = CostMatrix::new();
    cm.set(3, 4, 17);
    assert_eq!(cm.get(3, 4), 17);
    assert_eq!(cm.get(4, 3), 0);
    cm.set(150, 4, 9);
    assert_eq!(cm.get(150, 4), 0);
}

#[test]
fn heap_pops_in_priority_order() {
    let mut heap = PfCcHeap::new();
    heap.insert(5, 30);
    heap.insert(7, 10);
    heap.insert(9, 20);
    assert!(!heap.empty());
    assert_eq!(heap.pop(), (7, 10));
    heap.update(5, 5);
    assert_eq!(heap.pop(), (5, 5));
    assert_eq!(heap.pop(), (9, 20));
    assert!(heap.empty());
    heap.insert(1, 1);
    heap.clear();
    assert!(heap.empty());
}

#[test]
fn pop_right_after_insert_gives_it_back() {
    let mut heap = PfCcHeap::new();
    heap.insert(3, 9);
    assert_eq!(heap.pop(), (3, 9));
    assert!(heap.empty());
    heap.insert(4, 50);
    heap.insert(8, 60);
    let (_, p) = heap.pop();
    assert!(p <= 60);
    assert_eq!(heap.priority(8), 60);
}

#[test]
fn open_closed_list_tracks_nodes() {
    let mut list = OpenClosedList::new();
    assert!(!list.is_open(4) && !list.is_closed(4));
    list.open(4);
    assert!(list.is_open(4) && !list.is_closed(4));
    list.close(4);
    assert!(!list.is_open(4) && list.is_closed(4));
    list.clear();
    assert!(!list.is_open(4) && !list.is_closed(4));
}

#[test]
fn game_object_properties() {
    let c = creep("c9", 4, 5);
    assert!(c.object_exists());
    assert_eq!(c.id().to_text(), "c9");
    assert_eq!((GameObjectProperties::x(&c), GameObjectProperties::y(&c)), (4, 5));
    assert_eq!(c.ticks_to_decay(), None);
    assert_eq!(c.pos(), Position { x: 4, y: 5 });
    assert_eq!(OwnedStructureProperties::my(&c), Some(true));
    assert_eq!(c.store().get_capacity(None), Some(2000));
    assert_eq!(Store.get_used_capacity(None), Some(0));
    assert_eq!(Store.get_free_capacity(None), Some(2000));
    let s = Structure { base: obj("w", 1, 1) };
    assert_eq!(s.hits(), 100);
    let o = OwnedStructure { base: Structure { base: obj("o", 2, 2) }, my: None };
    assert_eq!(o.hits_max(), 100);
    assert_eq!(o.pos(), Position { x: 2, y: 2 });
    let t = tower("t1");
    assert_eq!(HasHits::hits(&t), 3000);
    let site = ConstructionSite { base: obj("cs", 3, 3), my: true, progress: 5, progress_total: 10 };
    assert!(site.my());
    assert_eq!(site.progress(), 5);
    assert_eq!(site.progress_total(), 10);
    assert!(c.find_in_range(&[Position { x: 1, y: 1 }], 3).is_empty());
    assert!(c.find_closest_by_range(&[Position { x: 1, y: 1 }]).is_none());
    assert_eq!(c.get_range_to(&Object::new()), 0);
    let path = c.find_path_to(&Position { x: 4, y: 8 }, None, &TerrainMap::plain());
    assert_eq!(path.path.last(), Some(&Position { x: 4, y: 8 }));
}

#[test]
fn objects_are_listed_kind_by_kind() {
    let mut objects = ArenaObjects::empty();
    assert!(get_objects(&objects).is_empty());
    objects.towers.push(tower("t1"));
    objects.creeps.push(creep("c1", 1, 1));
    objects.creeps.push(creep("c2", 2, 2));
    objects.sources.push(Source { base: obj("src", 9, 9), energy: 10, energy_max: 10 });
    let ids: Vec<String> = get_objects(&objects).into_iter().map(|g| g.id).collect();
    assert_eq!(ids, vec!["c1", "c2", "t1", "src"]);
}

#[test]
fn objects_are_found_by_id() {
    let creeps = vec![creep("a", 1, 1), creep("b", 2, 2), creep("b", 3, 3)];
    let found = get_object_by_id("b", CREEP, creeps.clone()).unwrap();
    assert_eq!((found.base.x, found.base.y), (2, 2));
    assert!(get_object_by_id("z", CREEP, creeps).is_none());
    let spawns: Vec<StructureSpawn> = Vec::new();
    assert!(get_object_by_id("a", STRUCTURE_SPAWN, spawns).is_none());
}

#[test]
fn utility_values() {
    assert_eq!(get_ticks(None), 1);
    assert_eq!(get_ticks(Some(42)), 42);
    assert_eq!(get_cpu_time(None), 0);
    assert_eq!(get_cpu_time(Some(7)), 7);
    assert_eq!(get_heap_statistics().used_heap_size(), 0);
    let info = arena_info();
    assert_eq!(info.tick_limit, 2000);
    assert_eq!(info.cpu_time_limit, 50000000);
    assert_eq!(create_construction_site(1, 1, &Object::new()).err(), Some(ReturnCode::Error));
    let mut terrain = TerrainMap::plain();
    terrain.set(3, 4, screeps_arena_mock::constants::Terrain::Swamp);
    assert_eq!(get_terrain_at_pos(3, 4, &terrain), screeps_arena_mock::constants::Terrain::Swamp);
    assert_eq!(get_terrain_at(&Position { x: 4, y: 3 }, &terrain), screeps_arena_mock::constants::Terrain::Plain);
}

#[test]
fn script_values() {
    let v = JsValue(Some("{}".to_string()));
    assert!(!v.is_null() && !v.is_undefined());
    assert_eq!(v.as_string(), Some("{}".to_string()));
    assert_eq!(v.as_bool(), None);
    assert!(JsValue::null().is_null());
    assert!(JsValue::undefined().is_undefined());
    assert!(v.dyn_ref::<Position>().is_none());
    assert!(!v.is_instance_of::<Position>());
    assert_eq!(JsString::from_str("abc").to_text(), "abc");
}

#[test]
fn text_styles() {
    let style = TextStyle::default().align(TextAlign::Center).color("#fff");
    assert_eq!(style.align, Some(TextAlign::Center));
    assert!(TextStyle::default().align.is_none());
    let _v = Visual::new(Some(1), true);
}
