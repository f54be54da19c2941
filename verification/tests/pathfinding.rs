use screeps_arena_mock::constants::Terrain;
use screeps_arena_mock::objects::{Creep, GameObject};
use screeps_arena_mock::pathfinder::{
    search_path, CostMatrix, FindPathOptions, GoalInput, GoalSpec, Position, SearchPathOptions, TerrainMap,
};
use screeps_arena_mock::traits::HasPosition;
use screeps_arena_mock::utils::{find_path, terrain_from_code};

fn creep_at(id: &str, x: u8, y: u8) -> Creep {
    Creep {
        base: GameObject { id: id.to_string(), x, y },
        fatigue: 0,
        hits: 100,
        hits_max: 100,
        my: true,
        spawning: false,
        body: Vec::new(),
    }
}

#[test]
fn test_search_path_creep_as_ref_origin() {
    let creep = creep_at("creep_1", 10, 10);
    let goal = GoalSpec { pos: Position { x: 10, y: 15 }, range: 1 };
    let mut options = SearchPathOptions::new();
    options.plain_cost(1);
    let terrain = TerrainMap::plain();

    let results = search_path(creep.pos(), &GoalInput::Spec(goal), Some(&options), &terrain);
    assert!(!results.incomplete);
    assert!(!results.path.is_empty());
    assert_eq!(results.path.last().unwrap(), &Position { x: 9, y: 14 });
}

#[test]
fn test_find_path_utility() {
    let from = Position { x: 10, y: 10 };
    let to = Position { x: 10, y: 13 };
    let terrain = TerrainMap::plain();

    let result = find_path(&from, &to, None, &terrain);
    assert!(!result.incomplete);
    assert!(!result.path.is_empty());
    assert_eq!(result.path.last().unwrap(), &to);
}

#[test]
fn test_search_path_options_interior_mutability() {
    let mut options = SearchPathOptions::new();
    options.flee(true);
    options.plain_cost(5);
    options.swamp_cost(20);

    assert_eq!(options.flee, Some(true));
    assert_eq!(options.plain_cost, Some(5));
    assert_eq!(options.swamp_cost, Some(20));
}

#[test]
fn test_search_path_default_empty_costmatrix() {
    let creep = creep_at("creep_default_cm", 5, 5);
    let goal = GoalInput::Spec(GoalSpec { pos: Position { x: 5, y: 10 }, range: 0 });
    let terrain = TerrainMap::plain();

    let results_none = search_path(creep.pos(), &goal, None, &terrain);
    assert!(!results_none.incomplete);
    assert_eq!(results_none.path.len(), 5);
    assert_eq!(results_none.path.last().unwrap(), &Position { x: 5, y: 10 });

    let mut options = SearchPathOptions::new();
    let empty_cm = CostMatrix::new();
    options.cost_matrix(&empty_cm);

    let results_empty_cm = search_path(creep.pos(), &goal, Some(&options), &terrain);
    assert!(!results_empty_cm.incomplete);
    assert_eq!(results_empty_cm.path.len(), 5);
    assert_eq!(results_empty_cm.path.last().unwrap(), &Position { x: 5, y: 10 });
}

#[test]
fn test_search_path_with_costmatrix_obstacles() {
    let creep = creep_at("creep_cm_obstacles", 10, 10);
    let goal = GoalInput::Spec(GoalSpec { pos: Position { x: 10, y: 14 }, range: 0 });
    let terrain = TerrainMap::plain();

    let mut options = SearchPathOptions::new();
    let mut cm = CostMatrix::new();
    cm.set(10, 11, 255);
    cm.set(10, 12, 255);
    cm.set(10, 13, 255);
    options.cost_matrix(&cm);

    let results = search_path(creep.pos(), &goal, Some(&options), &terrain);
    assert!(!results.incomplete);
    assert!(!results.path.is_empty());
    assert_eq!(results.path.last().unwrap(), &Position { x: 10, y: 14 });

    let contains_blocked_tile = results.path.iter().any(|p| p.x == 10 && (p.y >= 11 && p.y <= 13));
    assert!(!contains_blocked_tile);
}

#[test]
fn test_search_path_around_terrain_wall() {
    // The host reports code 1 (wall) at (20, 21), (20, 22), (20, 23), 0 elsewhere.
    let mut terrain = TerrainMap::plain();
    for y in [21u8, 22, 23] {
        terrain.set(20, y, terrain_from_code(Some(1)));
    }

    let creep = creep_at("creep_terrain_wall", 20, 20);
    let goal = GoalInput::Spec(GoalSpec { pos: Position { x: 20, y: 24 }, range: 0 });

    let results = search_path(creep.pos(), &goal, None, &terrain);
    assert!(!results.incomplete);
    assert!(!results.path.is_empty());
    assert_eq!(results.path.last().unwrap(), &Position { x: 20, y: 24 });

    let contains_terrain_wall = results.path.iter().any(|p| p.x == 20 && (p.y >= 21 && p.y <= 23));
    assert!(!contains_terrain_wall);
}

#[test]
fn test_search_path_raw_position_goal() {
    let creep = creep_at("creep_raw_pos_goal", 10, 10);
    let goal = GoalInput::Pos(Position { x: 10, y: 13 });
    let terrain = TerrainMap::plain();

    let results = search_path(creep.pos(), &goal, None, &terrain);
    assert!(!results.incomplete);
    assert_eq!(results.path.len(), 3);
    assert_eq!(results.path.last().unwrap(), &Position { x: 10, y: 13 });
}

#[test]
fn test_search_path_multi_goals() {
    let creep = creep_at("creep_multi_goals", 10, 10);
    let terrain = TerrainMap::plain();

    let multi_goal_specs = GoalInput::Specs(vec![
        GoalSpec { pos: Position { x: 10, y: 13 }, range: 0 },
        GoalSpec { pos: Position { x: 10, y: 18 }, range: 0 },
    ]);
    let results_spec = search_path(creep.pos(), &multi_goal_specs, None, &terrain);
    assert!(!results_spec.incomplete);
    assert_eq!(results_spec.path.last().unwrap(), &Position { x: 10, y: 13 });

    let multi_pos = GoalInput::Positions(vec![Position { x: 10, y: 13 }, Position { x: 10, y: 18 }]);
    let results_pos = search_path(creep.pos(), &multi_pos, None, &terrain);
    assert!(!results_pos.incomplete);
    assert_eq!(results_pos.path.last().unwrap(), &Position { x: 10, y: 13 });
}

#[test]
fn test_search_path_raw_position_origin() {
    let origin = Position { x: 5, y: 5 };
    let goal = GoalInput::Pos(Position { x: 5, y: 8 });
    let terrain = TerrainMap::plain();

    let results = search_path(origin, &goal, None, &terrain);
    assert!(!results.incomplete);
    assert_eq!(results.path.len(), 3);
    assert_eq!(results.path.last().unwrap(), &Position { x: 5, y: 8 });
}

#[test]
fn find_path_appends_target_next_to_start() {
    let from = Position { x: 10, y: 10 };
    let to = Position { x: 11, y: 11 };
    let terrain = TerrainMap::plain();
    let result = find_path(&from, &to, None, &terrain);
    assert!(!result.incomplete);
    assert_eq!(result.path, vec![to]);
}

#[test]
fn find_path_uses_the_options_cost_matrix() {
    let from = Position { x: 10, y: 10 };
    let to = Position { x: 10, y: 14 };
    let mut cm = CostMatrix::new();
    cm.set(10, 11, 255);
    cm.set(9, 11, 255);
    cm.set(11, 11, 255);
    let options = FindPathOptions { cost_matrix: Some(cm) };
    let terrain = TerrainMap::plain();
    let result = find_path(&from, &to, Some(&options), &terrain);
    assert!(!result.incomplete);
    assert_eq!(result.path.last().unwrap(), &to);
    assert!(!result.path.iter().any(|p| p.y == 11 && p.x >= 9 && p.x <= 11));
}

#[test]
fn search_path_start_at_goal_is_empty_and_complete() {
    let terrain = TerrainMap::plain();
    let start = Position { x: 30, y: 30 };
    let results = search_path(start, &GoalInput::Pos(start), None, &terrain);
    assert!(!results.incomplete);
    assert!(results.path.is_empty());
}

#[test]
fn search_path_without_goals_is_empty_and_complete() {
    let terrain = TerrainMap::plain();
    let results = search_path(Position { x: 3, y: 3 }, &GoalInput::Unrecognized, None, &terrain);
    assert!(!results.incomplete);
    assert!(results.path.is_empty());
    assert_eq!(results.ops, 0);
    assert_eq!(results.cost, 0);
}

#[test]
fn search_path_walled_in_goal_is_incomplete() {
    let mut terrain = TerrainMap::plain();
    for x in 39u8..=41 {
        for y in 39u8..=41 {
            if x != 40 || y != 40 {
                terrain.set(x, y, Terrain::Wall);
            }
        }
    }
    let results = search_path(Position { x: 10, y: 10 }, &GoalInput::Pos(Position { x: 40, y: 40 }), None, &terrain);
    assert!(results.incomplete);
}

#[test]
fn search_path_flee_leaves_the_range() {
    let terrain = TerrainMap::plain();
    let mut options = SearchPathOptions::new();
    options.flee(true);
    let goal = GoalInput::Spec(GoalSpec { pos: Position { x: 50, y: 50 }, range: 3 });
    let results = search_path(Position { x: 50, y: 50 }, &goal, Some(&options), &terrain);
    assert!(!results.incomplete);
    let end = *results.path.last().unwrap();
    let dx = (end.x as i32 - 50).abs();
    let dy = (end.y as i32 - 50).abs();
    assert!(dx.max(dy) >= 3);
}

#[test]
fn terrain_codes_decode() {
    assert_eq!(terrain_from_code(None), Terrain::Plain);
    assert_eq!(terrain_from_code(Some(0)), Terrain::Plain);
    assert_eq!(terrain_from_code(Some(1)), Terrain::Wall);
    assert_eq!(terrain_from_code(Some(2)), Terrain::Swamp);
    assert_eq!(terrain_from_code(Some(3)), Terrain::Wall);
}
