use screeps_arena_mock::constants::{Direction, Part, Terrain};
use screeps_arena_mock::objects::{BodyPart, Creep, GameObject};
use screeps_arena_mock::pathfinder::{
    search_path, GoalInput, GoalSpec, Position, SearchPathOptions, SearchResults, TerrainMap,
};
use screeps_arena_mock::pf_cc_heap::PfCcHeap;
use screeps_arena_mock::search::{search_path_astar, search_path_hybrid, search_path_jps};

fn same(a: &SearchResults, b: &SearchResults) -> bool {
    a.path == b.path && a.ops == b.ops && a.cost == b.cost && a.incomplete == b.incomplete
}

fn walled_corridor() -> TerrainMap {
    // A wall from (30, 0) to (30, 60) with the only way round below it.
    let mut terrain = TerrainMap::plain();
    for y in 0u8..=60 {
        terrain.set(30, y, Terrain::Wall);
    }
    terrain
}

#[test]
fn a_zero_option_takes_the_default() {
    let mut terrain = TerrainMap::plain();
    terrain.set(12, 12, Terrain::Swamp);
    terrain.set(13, 13, Terrain::Swamp);
    let start = Position { x: 10, y: 10 };
    let goal = GoalInput::Pos(Position { x: 20, y: 16 });
    let pairs: Vec<(SearchPathOptions, SearchPathOptions)> = vec![
        {
            let mut a = SearchPathOptions::new();
            a.plain_cost(0);
            let mut b = SearchPathOptions::new();
            b.plain_cost(2);
            (a, b)
        },
        {
            let mut a = SearchPathOptions::new();
            a.swamp_cost(0);
            let mut b = SearchPathOptions::new();
            b.swamp_cost(10);
            (a, b)
        },
        {
            let mut a = SearchPathOptions::new();
            a.max_ops(0);
            let mut b = SearchPathOptions::new();
            b.max_ops(10000);
            (a, b)
        },
        {
            let mut a = SearchPathOptions::new();
            a.heuristic_weight(0);
            let mut b = SearchPathOptions::new();
            b.heuristic_weight(1200);
            (a, b)
        },
    ];
    for (a, b) in pairs.iter() {
        let ra = search_path(start, &goal, Some(a), &terrain);
        let rb = search_path(start, &goal, Some(b), &terrain);
        assert!(same(&ra, &rb));
        assert!(!ra.incomplete);
    }
}

#[test]
fn astar_finds_the_way_round_a_wall() {
    let terrain = walled_corridor();
    let start = Position { x: 25, y: 20 };
    let goal = GoalInput::Pos(Position { x: 35, y: 20 });
    for r in [search_path_astar(start, &goal, None, &terrain), search_path_jps(start, &goal, None, &terrain)] {
        assert!(!r.incomplete);
        assert_eq!(r.path.last(), Some(&Position { x: 35, y: 20 }));
        assert!(r.path.iter().all(|p| p.x != 30 || p.y > 60));
        // Every tile is plain, so entering the path's tiles costs two each.
        assert!(r.cost as usize >= 2 * r.path.len());
    }
}

#[test]
fn astar_cost_on_open_ground_is_the_path_cost() {
    let terrain = TerrainMap::plain();
    let r = search_path_astar(Position { x: 5, y: 5 }, &GoalInput::Pos(Position { x: 9, y: 7 }), None, &terrain);
    assert!(!r.incomplete);
    assert_eq!(r.path.len(), 4);
    assert_eq!(r.cost, 8);
}

#[test]
fn astar_gives_up_only_without_a_route() {
    let mut terrain = TerrainMap::plain();
    // A ring of walls round the start: no king move leaves it.
    for i in 55u8..=65 {
        terrain.set(i, 55, Terrain::Wall);
        terrain.set(i, 65, Terrain::Wall);
        terrain.set(55, i, Terrain::Wall);
        terrain.set(65, i, Terrain::Wall);
    }
    let r = search_path_astar(Position { x: 60, y: 60 }, &GoalInput::Pos(Position { x: 80, y: 80 }), None, &terrain);
    assert!(r.incomplete);
    assert!(r.ops < 50000);
    assert!(r.path.is_empty() && r.cost == 0);
    // With a gap in the ring the goal is reached.
    terrain.set(65, 60, Terrain::Plain);
    let r = search_path_astar(Position { x: 60, y: 60 }, &GoalInput::Pos(Position { x: 80, y: 80 }), None, &terrain);
    assert!(!r.incomplete);
    assert_eq!(r.path.last(), Some(&Position { x: 80, y: 80 }));
}

#[test]
fn astar_does_not_cut_a_blocked_corner() {
    let mut terrain = TerrainMap::plain();
    terrain.set(11, 10, Terrain::Wall);
    terrain.set(10, 11, Terrain::Wall);
    // The diagonal (10, 10) -> (11, 11) passes both walls' corners.
    let r = search_path_astar(Position { x: 10, y: 10 }, &GoalInput::Pos(Position { x: 11, y: 11 }), None, &terrain);
    assert!(!r.incomplete);
    assert!(r.path.len() > 1);
    assert_eq!(r.path.last(), Some(&Position { x: 11, y: 11 }));
}

#[test]
fn search_with_a_goal_next_door_is_complete() {
    let terrain = TerrainMap::plain();
    let r = search_path(Position { x: 40, y: 40 }, &GoalInput::Pos(Position { x: 41, y: 39 }), None, &terrain);
    assert!(!r.incomplete);
    assert_eq!(r.path, vec![Position { x: 41, y: 39 }]);
    let r = search_path(
        Position { x: 40, y: 40 },
        &GoalInput::Spec(GoalSpec { pos: Position { x: 43, y: 40 }, range: 2 }),
        None,
        &terrain,
    );
    assert!(!r.incomplete);
    assert_eq!(r.path.len(), 1);
}

#[test]
fn heap_reads_back_the_priorities_it_was_given() {
    let mut heap = PfCcHeap::new();
    heap.insert(5, 7);
    assert_eq!(heap.priority(5), 7);
    heap.insert(9, 3);
    heap.update(5, 2);
    assert_eq!(heap.priority(5), 2);
    assert_eq!(heap.priority(9), 3);
    // An index that is not stored is left alone.
    heap.update(11, 1);
    assert_eq!(heap.pop(), (5, 2));
    assert_eq!(heap.pop(), (9, 3));
    assert!(heap.empty());
}

#[test]
fn move_to_an_open_neighbour_steps_onto_it() {
    let c = Creep {
        base: GameObject { id: "c1".to_string(), x: 10, y: 10 },
        fatigue: 0,
        hits: 100,
        hits_max: 100,
        my: true,
        spawning: false,
        body: vec![BodyPart { part: Part::Move, hits: 100 }],
    };
    let req = c.move_to(&Position { x: 11, y: 9 }, None, &[], &TerrainMap::plain()).unwrap().unwrap();
    assert_eq!(req.arg1, Direction::TopRight.to_u8() as u64);
}

#[test]
fn search_cost_covers_the_tiles_entered() {
    let mut terrain = TerrainMap::plain();
    for y in 0u8..=99 {
        terrain.set(52, y, Terrain::Swamp);
    }
    let r = search_path(Position { x: 50, y: 50 }, &GoalInput::Pos(Position { x: 54, y: 50 }), None, &terrain);
    assert!(!r.incomplete);
    assert_eq!(r.path.len(), 4);
    // Three plain tiles at 2 and one swamp tile at 10.
    assert_eq!(r.cost, 16);
    let r = search_path(Position { x: 5, y: 5 }, &GoalInput::Pos(Position { x: 5, y: 8 }), None, &TerrainMap::plain());
    assert_eq!(r.path, vec![Position { x: 5, y: 6 }, Position { x: 5, y: 7 }, Position { x: 5, y: 8 }]);
    assert_eq!(r.cost, 6);
}

#[test]
fn heap_update_of_an_unknown_node_changes_nothing() {
    let mut heap = PfCcHeap::new();
    heap.insert(2, 40);
    heap.update(20000, 1);
    heap.update(3, 1);
    assert_eq!(heap.priority(2), 40);
    assert_eq!(heap.pop(), (2, 40));
    assert!(heap.empty());
}

#[test]
fn astar_at_weight_one_finds_the_cheapest_way() {
    // A band of swamp across the direct route, with a plain gap far away.
    let mut terrain = TerrainMap::plain();
    for x in 0u8..=99 {
        if x != 40 {
            terrain.set(x, 30, Terrain::Swamp);
        }
    }
    let mut options = SearchPathOptions::new();
    options.heuristic_weight(1000);
    let start = Position { x: 20, y: 25 };
    let goal = GoalInput::Pos(Position { x: 20, y: 35 });
    let r = search_path_astar(start, &goal, Some(&options), &terrain);
    assert!(!r.incomplete);
    assert_eq!(r.path.last(), Some(&Position { x: 20, y: 35 }));
    // Ten steps with one swamp tile cost 9 * 2 + 10 = 28; the detour
    // through the gap at x = 40 needs at least 20 steps, 40 in cost.
    assert_eq!(r.cost, 28);
    let sum: u32 = r.path.iter().map(|p| if p.y == 30 && p.x != 40 { 10 } else { 2 }).sum();
    assert_eq!(r.cost, sum);
}

#[test]
fn hybrid_search_reaches_a_goal_on_a_ray() {
    let terrain = TerrainMap::plain();
    let start = Position { x: 30, y: 30 };
    for goal in [Position { x: 30, y: 40 }, Position { x: 37, y: 23 }, Position { x: 20, y: 30 }] {
        let r = search_path_hybrid(start, &GoalInput::Pos(goal), None, &terrain);
        assert!(!r.incomplete);
        assert_eq!(r.path.last(), Some(&goal));
        assert!(r.cost as usize >= 2 * r.path.len());
    }
}

fn king_reachable(walls: &[bool], s: (usize, usize), g: (usize, usize)) -> bool {
    let mut seen = vec![false; 10000];
    let mut stack = vec![s];
    seen[s.0 * 100 + s.1] = true;
    while let Some((x, y)) = stack.pop() {
        if (x, y) == g {
            return true;
        }
        for dx in -1i32..=1 {
            for dy in -1i32..=1 {
                let nx = x as i32 + dx;
                let ny = y as i32 + dy;
                if nx < 0 || ny < 0 || nx > 99 || ny > 99 {
                    continue;
                }
                let i = nx as usize * 100 + ny as usize;
                if !walls[i] && !seen[i] {
                    seen[i] = true;
                    stack.push((nx as usize, ny as usize));
                }
            }
        }
    }
    false
}

#[test]
fn search_path_finds_every_reachable_goal_on_random_maps() {
    let mut seed: u64 = 2024;
    let mut next = || {
        seed = seed.wrapping_mul(6364136223846793005).wrapping_add(1442695040888963407);
        (seed >> 33) as u32
    };
    for round in 0..300u32 {
        let density = 10 + (round % 8) * 4;
        let mut walls = vec![false; 10000];
        let mut terrain = TerrainMap::plain();
        for x in 0..100usize {
            for y in 0..100usize {
                let v = next() % 100;
                if v < density {
                    walls[x * 100 + y] = true;
                    terrain.set(x as u8, y as u8, Terrain::Wall);
                } else if v < density + 20 {
                    terrain.set(x as u8, y as u8, Terrain::Swamp);
                }
            }
        }
        let s = ((next() % 100) as usize, (next() % 100) as usize);
        let g = ((next() % 100) as usize, (next() % 100) as usize);
        for p in [s, g] {
            walls[p.0 * 100 + p.1] = false;
            terrain.set(p.0 as u8, p.1 as u8, Terrain::Plain);
        }
        let start = Position { x: s.0 as u8, y: s.1 as u8 };
        let goal = Position { x: g.0 as u8, y: g.1 as u8 };
        let r = search_path(start, &GoalInput::Pos(goal), None, &terrain);
        assert_eq!(!r.incomplete, king_reachable(&walls, s, g), "round {}", round);
    }
}
