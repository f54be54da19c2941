use screeps_arena_mock::constants::Terrain;
use screeps_arena_mock::pathfinder::{
    search_path_pf_cc, CostMatrix, GoalInput, GoalSpec, Position, SearchPathOptions, SearchResults, TerrainMap,
};
use screeps_arena_mock::search::{search_path_astar, search_path_hybrid, search_path_jps};

type Search = fn(Position, &GoalInput, Option<&SearchPathOptions>, &TerrainMap) -> SearchResults;

fn variants() -> Vec<(&'static str, Search)> {
    vec![
        ("astar", search_path_astar as Search),
        ("jps", search_path_jps as Search),
        ("pf_cc", search_path_pf_cc as Search),
    ]
}

fn is_walk(start: Position, path: &[Position]) -> bool {
    let mut prev = start;
    for p in path {
        let dx = (p.x as i32 - prev.x as i32).abs();
        let dy = (p.y as i32 - prev.y as i32).abs();
        if dx.max(dy) != 1 {
            return false;
        }
        prev = *p;
    }
    true
}

#[test]
fn every_search_reaches_an_open_goal() {
    let terrain = TerrainMap::plain();
    let start = Position { x: 20, y: 20 };
    let goal = GoalInput::Pos(Position { x: 26, y: 23 });
    for (name, search) in variants() {
        let r = search(start, &goal, None, &terrain);
        assert!(!r.incomplete, "{}", name);
        assert_eq!(r.path.last(), Some(&Position { x: 26, y: 23 }), "{}", name);
        assert!(is_walk(start, &r.path), "{}", name);
        assert_eq!(r.path.len(), 6, "{}", name);
    }
}

#[test]
fn every_search_avoids_walls_and_blocked_tiles() {
    let mut terrain = TerrainMap::plain();
    for y in 10u8..=30 {
        terrain.set(40, y, Terrain::Wall);
    }
    let mut cm = CostMatrix::new();
    cm.set(41, 31, 255);
    let mut options = SearchPathOptions::new();
    options.cost_matrix(&cm);
    let start = Position { x: 35, y: 20 };
    let goal = GoalInput::Spec(GoalSpec { pos: Position { x: 45, y: 20 }, range: 0 });
    for (name, search) in variants() {
        let r = search(start, &goal, Some(&options), &terrain);
        assert!(!r.incomplete, "{}", name);
        assert_eq!(r.path.last(), Some(&Position { x: 45, y: 20 }), "{}", name);
        assert!(is_walk(start, &r.path), "{}", name);
        assert!(!r.path.iter().any(|p| p.x == 40 && p.y >= 10 && p.y <= 30), "{}", name);
        assert!(!r.path.contains(&Position { x: 41, y: 31 }), "{}", name);
    }
}

#[test]
fn every_search_reports_an_unreachable_goal() {
    let mut terrain = TerrainMap::plain();
    for x in 59u8..=61 {
        for y in 59u8..=61 {
            if x != 60 || y != 60 {
                terrain.set(x, y, Terrain::Wall);
            }
        }
    }
    let start = Position { x: 50, y: 50 };
    let goal = GoalInput::Pos(Position { x: 60, y: 60 });
    for (name, search) in variants() {
        let r = search(start, &goal, None, &terrain);
        assert!(r.incomplete, "{}", name);
    }
}

#[test]
fn searches_without_goals_return_nothing() {
    let terrain = TerrainMap::plain();
    let none = GoalInput::Specs(vec![]);
    let start = Position { x: 5, y: 5 };
    for search in [search_path_astar as Search, search_path_jps as Search, search_path_hybrid as Search] {
        let r = search(start, &none, None, &terrain);
        assert!(r.incomplete && r.path.is_empty() && r.ops == 0 && r.cost == 0);
    }
    let r = search_path_pf_cc(start, &none, None, &terrain);
    assert!(!r.incomplete && r.path.is_empty() && r.ops == 0 && r.cost == 0);
}

#[test]
fn hybrid_search_follows_rays_to_goals() {
    let terrain = TerrainMap::plain();
    let start = Position { x: 20, y: 20 };
    let on_ray = GoalInput::Pos(Position { x: 26, y: 26 });
    let r = search_path_hybrid(start, &on_ray, None, &terrain);
    assert!(!r.incomplete);
    assert_eq!(r.path.len(), 6);
    assert_eq!(r.path.last(), Some(&Position { x: 26, y: 26 }));
    assert!(is_walk(start, &r.path));
    assert_eq!(r.cost, 12);
    // In an open field only goals on the eight rays from the start are jump points.
    let off_ray = GoalInput::Pos(Position { x: 26, y: 23 });
    let r = search_path_hybrid(start, &off_ray, None, &terrain);
    assert!(r.incomplete);
}

#[test]
fn hybrid_search_at_goal_is_done() {
    let terrain = TerrainMap::plain();
    let start = Position { x: 20, y: 20 };
    let goal = GoalInput::Spec(GoalSpec { pos: Position { x: 21, y: 21 }, range: 2 });
    let r = search_path_hybrid(start, &goal, None, &terrain);
    assert!(!r.incomplete && r.path.is_empty() && r.ops == 0);
}

#[test]
fn pf_cc_respects_the_expansion_bound() {
    let mut terrain = TerrainMap::plain();
    for x in 59u8..=61 {
        for y in 59u8..=61 {
            if x != 60 || y != 60 {
                terrain.set(x, y, Terrain::Wall);
            }
        }
    }
    let mut options = SearchPathOptions::new();
    options.max_ops(5);
    let r = search_path_pf_cc(Position { x: 50, y: 50 }, &GoalInput::Pos(Position { x: 60, y: 60 }), Some(&options), &terrain);
    assert!(r.incomplete);
    assert!(r.ops <= 6);
}
