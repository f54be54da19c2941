use screeps_arena_mock::constants::{default_spawn_directions, Direction, Part, ResourceType, ReturnCode};
use screeps_arena_mock::ffi::{ActionId, ActionRequest};
use screeps_arena_mock::objects::{
    BodyPart, Creep, GameObject, Spawning, StructureContainer, StructureExtension, StructureSpawn,
};
use screeps_arena_mock::pathfinder::{Position, TerrainMap};

fn obj(id: &str, x: u8, y: u8) -> GameObject {
    GameObject { id: id.to_string(), x, y }
}

fn spawn_at(id: &str, x: u8, y: u8, energy: u32) -> StructureSpawn {
    StructureSpawn {
        base: obj(id, x, y),
        hits: 5000,
        hits_max: 5000,
        energy,
        energy_max: 1000,
        my: Some(true),
        spawning: None,
        next_id: "creep1".to_string(),
        directions: default_spawn_directions(),
    }
}

fn creep(id: &str, body: Vec<BodyPart>) -> Creep {
    Creep { base: obj(id, 10, 10), fatigue: 0, hits: 100, hits_max: 100, my: true, spawning: false, body }
}

fn part(p: Part) -> BodyPart {
    BodyPart { part: p, hits: 100 }
}

#[test]
fn test_spawn_creep_body_packing() {
    let spawn = StructureSpawn {
        base: GameObject { id: "spawn1".to_string(), x: 10, y: 10 },
        hits: 5000,
        hits_max: 5000,
        energy: 1000,
        energy_max: 1000,
        my: Some(true),
        spawning: None,
        next_id: "creep1".to_string(),
        directions: default_spawn_directions(),
    };

    let body = vec![Part::Move, Part::Work, Part::Carry, Part::Attack, Part::RangedAttack, Part::Tough, Part::Heal];
    let mut encoded_body: usize = 0;
    for (i, part) in body.iter().enumerate().take(16) {
        encoded_body |= ((part.to_u8() as usize) & 0xF) << (i * 4);
    }
    assert_eq!(encoded_body, 0x7654321);

    let (creep, request) = spawn.spawn_creep(&body, &[], &[]).unwrap();
    assert_eq!(creep.body().len(), 7);
    assert_eq!(creep.body()[0].part(), Part::Move);
    assert_eq!(creep.body()[6].part(), Part::Heal);
    assert_eq!(request.arg2, 0x7654321);
    assert_eq!(request.arg1, 7);
}

#[test]
fn test_creep_actions_ffi_queueing() {
    let c = creep(
        "c1",
        vec![
            part(Part::Move),
            part(Part::Work),
            part(Part::Carry),
            part(Part::Attack),
            part(Part::RangedAttack),
            part(Part::Heal),
        ],
    );

    // 1. Move Direction
    let req = c.move_direction(Direction::Top).unwrap();
    assert_eq!(req.action, ActionId::Move);
    assert_eq!(req.actor_id, "c1");
    assert_eq!(req.target_id, None);
    assert_eq!(req.arg1, Direction::Top.to_u8() as u64);

    // 2. Attack
    let target_creep = Creep {
        base: obj("c2", 11, 10),
        fatigue: 0,
        hits: 100,
        hits_max: 100,
        my: false,
        spawning: false,
        body: vec![],
    };
    let req = c.attack(&target_creep).unwrap();
    assert_eq!(req.action, ActionId::Attack);
    assert_eq!(req.actor_id, "c1");
    assert_eq!(req.target_id, Some("c2".to_string()));

    // 3. Ranged Attack
    let req = c.ranged_attack(&target_creep).unwrap();
    assert_eq!(req.action, ActionId::RangedAttack);
    assert_eq!(req.actor_id, "c1");
    assert_eq!(req.target_id, Some("c2".to_string()));

    // 4. Heal
    let req = c.heal(&target_creep).unwrap();
    assert_eq!(req.action, ActionId::Heal);
    assert_eq!(req.actor_id, "c1");
    assert_eq!(req.target_id, Some("c2".to_string()));

    // 5. Ranged Heal
    let req = c.ranged_heal(&target_creep).unwrap();
    assert_eq!(req.action, ActionId::RangedHeal);
    assert_eq!(req.actor_id, "c1");
    assert_eq!(req.target_id, Some("c2".to_string()));

    // 6. Transfer
    let req = c.transfer(&target_creep, ResourceType::Energy, Some(50)).unwrap();
    assert_eq!(req.action, ActionId::Transfer);
    assert_eq!(req.actor_id, "c1");
    assert_eq!(req.target_id, Some("c2".to_string()));
    assert_eq!(req.arg1, ResourceType::Energy.to_u8() as u64);
    assert_eq!(req.arg2, 50);

    // 7. Withdraw
    let target_container = StructureContainer {
        base: obj("cont1", 10, 11),
        hits: 2500,
        hits_max: 2500,
        store: 1000,
        store_max: 2000,
    };
    let req = c.withdraw(&target_container, ResourceType::Energy, Some(100)).unwrap();
    assert_eq!(req.action, ActionId::Withdraw);
    assert_eq!(req.actor_id, "c1");
    assert_eq!(req.target_id, Some("cont1".to_string()));
    assert_eq!(req.arg1, ResourceType::Energy.to_u8() as u64);
    assert_eq!(req.arg2, 100);

    // 8. Move To
    let creep_no_move = creep("c_no_move", Vec::new());
    let creep_with_move = creep("c_move", vec![part(Part::Move)]);
    let move_target = Position { x: 15, y: 10 };
    let terrain = TerrainMap::plain();

    assert_eq!(creep_no_move.move_to(&move_target, None, &[], &terrain), Err(ReturnCode::NoBodypart));

    let result = creep_with_move.move_to(&move_target, None, &[], &terrain);
    assert!(result.is_ok());
    if let Ok(Some(req)) = result {
        assert_eq!(req.action, ActionId::Move);
        assert_eq!(req.actor_id, "c_move");
        assert!(req.arg1 == Direction::Right.to_u8() as u64 || req.arg1 == Direction::TopRight.to_u8() as u64);
    }
}

#[test]
fn actions_of_foreign_or_spawning_creeps_fail() {
    let mut c = creep("c1", vec![part(Part::Move)]);
    c.my = false;
    assert_eq!(c.ranged_mass_attack(), Err(ReturnCode::NotOwner));
    assert_eq!(c.move_direction(Direction::Left), Err(ReturnCode::NotOwner));
    c.my = true;
    c.spawning = true;
    assert_eq!(c.ranged_mass_attack(), Err(ReturnCode::Busy));
    assert_eq!(c.move_to(&Position { x: 12, y: 10 }, None, &[], &TerrainMap::plain()), Err(ReturnCode::Busy));
    c.spawning = false;
    c.fatigue = 2;
    assert_eq!(c.move_direction(Direction::Left), Err(ReturnCode::Tired));
    assert_eq!(c.move_to(&Position { x: 12, y: 10 }, None, &[], &TerrainMap::plain()), Err(ReturnCode::Tired));
    assert_eq!(c.pull(&creep("c2", vec![])), ReturnCode::OK);
    let req = creep("c3", vec![]).ranged_mass_attack().unwrap();
    assert_eq!(
        req,
        ActionRequest {
            actor_id: "c3".to_string(),
            action: ActionId::RangedMassAttack,
            target_id: None,
            arg1: 0,
            arg2: 0
        }
    );
}

#[test]
fn move_to_needs_a_living_move_part() {
    let c = creep("c1", vec![BodyPart { part: Part::Move, hits: 0 }, part(Part::Work)]);
    assert_eq!(c.move_to(&Position { x: 12, y: 10 }, None, &[], &TerrainMap::plain()), Err(ReturnCode::NoBodypart));
}

#[test]
fn move_to_own_tile_queues_nothing() {
    let c = creep("c1", vec![part(Part::Move)]);
    assert_eq!(c.move_to(&Position { x: 10, y: 10 }, None, &[], &TerrainMap::plain()), Ok(None));
}

#[test]
fn move_to_steps_around_obstacles() {
    let c = creep("c1", vec![part(Part::Move)]);
    let obstacles = [Position { x: 11, y: 9 }, Position { x: 11, y: 10 }, Position { x: 11, y: 11 }];
    let req = c.move_to(&Position { x: 15, y: 10 }, None, &obstacles, &TerrainMap::plain()).unwrap().unwrap();
    let d = Direction::from_u8(req.arg1 as u8).unwrap();
    let step = Position { x: 10, y: 10 }.add(d);
    assert!(!obstacles.contains(&step));
    assert!(step.range_to(&Position { x: 10, y: 10 }) == 1);
}

#[test]
fn spawn_creep_errors() {
    let mut spawn = spawn_at("s1", 10, 10, 1000);
    let body = [Part::Move];
    spawn.my = Some(false);
    assert_eq!(spawn.spawn_creep(&body, &[], &[]).err(), Some(ReturnCode::NotOwner));
    spawn.my = None;
    assert_eq!(spawn.spawn_creep(&body, &[], &[]).err(), Some(ReturnCode::NotOwner));
    spawn.my = Some(true);
    spawn.spawning = Some(Spawning { need_time: 3, remaining_time: 1 });
    assert_eq!(spawn.spawn_creep(&body, &[], &[]).err(), Some(ReturnCode::Busy));
    spawn.spawning = None;
    assert_eq!(spawn.spawn_creep(&[], &[], &[]).err(), Some(ReturnCode::InvalidArgs));
    let too_long = vec![Part::Tough; 51];
    assert_eq!(spawn.spawn_creep(&too_long, &[], &[]).err(), Some(ReturnCode::InvalidArgs));
    let costly = vec![Part::Heal; 5];
    assert_eq!(spawn.spawn_creep(&costly, &[], &[]).err(), Some(ReturnCode::NotEnough));
    let exact = vec![Part::Heal; 4];
    assert!(spawn.spawn_creep(&exact, &[], &[]).is_ok());
}

#[test]
fn spawn_creep_draws_on_nearby_spawns_and_extensions() {
    let spawn = spawn_at("s1", 10, 10, 1000);
    let near = spawn_at("s2", 20, 20, 100);
    let far = spawn_at("s3", 40, 10, 5000);
    let ext = StructureExtension {
        base: obj("e1", 12, 12),
        hits: 100,
        hits_max: 100,
        energy: 50,
        energy_max: 50,
        my: Some(true),
    };
    let foreign = StructureExtension { my: Some(false), energy: 5000, ..ext.clone() };
    // Nearby energy is 150: the spawn's own 1000 is not counted then.
    let body = vec![Part::Move, Part::Move, Part::Move, Part::Move];
    assert_eq!(
        spawn.spawn_creep(&body, &[near.clone(), far.clone()], &[ext.clone(), foreign.clone()]).err(),
        Some(ReturnCode::NotEnough)
    );
    let body = vec![Part::Move, Part::Move, Part::Move];
    assert!(spawn.spawn_creep(&body[..3], &[near.clone()], &[ext.clone(), ext.clone()]).is_ok());
    // With nothing nearby the spawn's own energy counts.
    assert!(spawn.spawn_creep(&body, &[far], &[foreign]).is_ok());
}

#[test]
fn spawned_creep_has_the_next_id_and_full_hits() {
    let spawn = spawn_at("s1", 7, 8, 1000);
    let (c, req) = spawn.spawn_creep(&[Part::Work, Part::Move], &[], &[]).unwrap();
    assert_eq!(c.base.id, "creep1");
    assert_eq!((c.base.x, c.base.y), (7, 8));
    assert_eq!(c.hits, 200);
    assert_eq!(c.hits_max, 200);
    assert!(c.my && c.spawning);
    assert_eq!(c.fatigue, 0);
    assert_eq!(req.actor_id, "s1");
    assert_eq!(req.action, ActionId::SpawnCreep);
    assert_eq!(req.target_id, None);
    assert_eq!(req.arg1, 2);
    assert_eq!(req.arg2, 0x12);
}

#[test]
fn spawn_body_encoding_keeps_sixteen_parts() {
    let spawn = spawn_at("s1", 7, 8, 10000);
    let body = vec![Part::Tough; 20];
    let (_, req) = spawn.spawn_creep(&body, &[], &[]).unwrap();
    assert_eq!(req.arg1, 20);
    assert_eq!(req.arg2, 0x6666_6666_6666_6666);
}

#[test]
fn set_directions_checks() {
    let mut spawn = spawn_at("s1", 10, 10, 0);
    let mut dirs = default_spawn_directions();
    dirs.reverse();
    assert_eq!(spawn.set_directions(&dirs), ReturnCode::OK);
    assert_eq!(spawn.directions(), dirs);
    let mut dup = dirs.clone();
    dup[0] = dup[1];
    assert_eq!(spawn.set_directions(&dup), ReturnCode::InvalidArgs);
    assert_eq!(spawn.directions(), dirs);
    assert_eq!(spawn.set_directions(&dirs[..7]), ReturnCode::InvalidArgs);
    spawn.spawning = Some(Spawning { need_time: 3, remaining_time: 2 });
    assert_eq!(spawn.set_directions(&dirs), ReturnCode::Busy);
    spawn.my = Some(false);
    assert_eq!(spawn.set_directions(&dirs), ReturnCode::NotOwner);
}

#[test]
fn spawn_getters() {
    let spawn = spawn_at("s1", 10, 10, 0);
    assert_eq!(spawn.next_id(), "creep1");
    assert!(spawn.spawning().is_none());
    let s = Spawning { need_time: 9, remaining_time: 4 };
    assert_eq!(s.need_time(), 9);
    assert_eq!(s.remaining_time(), 4);
}
