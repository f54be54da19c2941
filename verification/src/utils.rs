use vstd::prelude::*;
use crate::constants::{ReturnCode, Terrain};
use crate::js_sys::Object;
use crate::objects::{
    AreaEffect, BonusFlag, ConstructionSite, Creep, Flag, GameObject, Resource, ScoreCollector, Source,
    StructureContainer, StructureExtension, StructureRampart, StructureRoad, StructureSpawn,
    StructureTower, StructureWall,
};
use crate::prototypes::PrototypeConstant;
use crate::pathfinder::{
    adjacent, cheb, in_bounds, lemma_walk_same_looks, search_path, search_path_ctx, FindPathOptions, GoalInput,
    GoalSpec, Position, SearchCtx, SearchPathOptions, SearchResults, TerrainMap,
};
use crate::pf_cc::{goal_next_to, goal_reached, valid_walk, walk_end};
use crate::traits::{AsGameObject, HasPosition};

verus! {

/// The path `find_path` reports: the search's walk, with the target added
/// when the walk ends one step from it (or, for an empty walk, when the
/// start is within one step of it).
pub open spec fn find_path_tail(base: Seq<Position>, from: Position, to: Position) -> Seq<Position> {
    if base.len() > 0 {
        if cheb(base.last(), to) == 1 {
            base.push(to)
        } else {
            base
        }
    } else if cheb(from, to) <= 1 {
        base.push(to)
    } else {
        base
    }
}

/// The tile costs `find_path` searches with: defaults, and the options'
/// cost matrix.
pub open spec fn find_path_ctx<'a>(terrain: &'a TerrainMap, options: Option<&'a FindPathOptions>) -> SearchCtx<'a> {
    SearchCtx {
        terrain,
        cost_matrix: match options {
            Some(o) => match &o.cost_matrix {
                Some(c) => Some(c),
                None => None,
            },
            None => None,
        },
        plain_cost: 2,
        swamp_cost: 10,
    }
}

/// Toward a single goal of range 1, the search heuristic is the distance
/// to the goal's square.
proof fn lemma_range_one_heuristic(target: Position, p: Position)
    ensures
        crate::pf_cc::pf_heuristic(seq![GoalSpec { pos: target, range: 1 }], false, p) == if cheb(p, target) <= 1 {
            0
        } else {
            cheb(p, target) - 1
        },
{
    let goals = seq![GoalSpec { pos: target, range: 1 }];
    assert(goals.drop_last() =~= Seq::<GoalSpec>::empty());
    if cheb(p, target) <= 1 {
        assert(crate::pf_cc::some_goal_in_range(goals, p)) by {
            assert(cheb(p, goals[0].pos) <= goals[0].range);
        }
    } else {
        assert(!crate::pf_cc::some_goal_in_range(goals, p)) by {
            if crate::pf_cc::some_goal_in_range(goals, p) {
                let i = choose|i: int| 0 <= i < goals.len() && cheb(p, #[trigger] goals[i].pos) <= goals[i].range;
                assert(i == 0);
            }
        }
        assert(cheb(p, target) <= 255);
        assert(crate::pf_cc::seek_h(goals.drop_last(), p) == u32::MAX);
        assert(goals.last() == GoalSpec { pos: target, range: 1 });
        assert(crate::pf_cc::seek_h(goals, p) == cheb(p, target) - 1);
    }
}

/// Law: `find_path` searches as `search_path` does with options that
/// carry only the cost matrix, that is with the default costs: a swamp
/// without a matrix cost costs 10 and a plain tile 2.
pub proof fn law_find_path_default_costs(terrain: &TerrainMap, options: Option<&FindPathOptions>, x: int, y: int)
    ensures
        find_path_ctx(terrain, options) == search_path_ctx(
            terrain,
            Some(
                &SearchPathOptions {
                    cost_matrix: match options {
                        Some(f) => f.cost_matrix,
                        None => None,
                    },
                    max_ops: None,
                    heuristic_weight: None,
                    max_rooms: None,
                    plain_cost: None,
                    swamp_cost: None,
                    flee: None,
                },
            ),
        ),
        find_path_ctx(terrain, options).matrix_cost(x, y) == 0 && terrain.at(x, y) == Terrain::Swamp ==> find_path_ctx(
            terrain,
            options,
        ).spec_look(x, y) == Some(10u32),
        find_path_ctx(terrain, options).matrix_cost(x, y) == 0 && terrain.at(x, y) == Terrain::Plain ==> find_path_ctx(
            terrain,
            options,
        ).spec_look(x, y) == Some(2u32),
{
}

/// A path from `from_pos` to within one tile of `to_pos`, then onto
/// `to_pos` (default costs, the options' cost matrix). The cost is that of
/// the search, at least the cost of entering the searched walk's tiles.
pub fn find_path<A: HasPosition + ?Sized, B: HasPosition>(
    from_pos: &A,
    to_pos: &B,
    options: Option<&FindPathOptions>,
    terrain: &TerrainMap,
) -> (r: SearchResults)
    requires
        terrain.wf(),
        options matches Some(o) ==> (o.cost_matrix matches Some(c) ==> c.wf()),
    ensures
        exists|base: Seq<Position>|
            #[trigger] find_path_tail(base, from_pos.spec_pos(), to_pos.spec_pos()) == r.path@ && valid_walk(
                find_path_ctx(terrain, options),
                from_pos.spec_pos(),
                base,
            ) && r.cost >= crate::search::path_cost(find_path_ctx(terrain, options), base),
        !r.incomplete && in_bounds(from_pos.spec_pos()) ==> r.path@.len() > 0 && r.path@.last()
            == to_pos.spec_pos(),
        in_bounds(from_pos.spec_pos()) && goal_next_to(
            find_path_ctx(terrain, options),
            seq![GoalSpec { pos: to_pos.spec_pos(), range: 1 }],
            false,
            from_pos.spec_pos(),
        ) ==> !r.incomplete,
        in_bounds(from_pos.spec_pos()) && (exists|n: Position|
            adjacent(from_pos.spec_pos(), n) && #[trigger] find_path_ctx(terrain, options).passable(n.x as int, n.y as int)
                && cheb(n, to_pos.spec_pos()) < cheb(from_pos.spec_pos(), to_pos.spec_pos())) ==> r.path@.len() > 0,
{
    let from = from_pos.pos();
    let to = to_pos.pos();
    let mut opts = SearchPathOptions::new();
    if let Some(find_opts) = options {
        if let Some(cm) = &find_opts.cost_matrix {
            opts.cost_matrix(cm);
        }
    }
    let goal = GoalInput::Spec(GoalSpec { pos: to, range: 1 });
    let mut result = search_path(from, &goal, Some(&opts), terrain);
    let ghost base = result.path@;
    proof {
        let c1 = search_path_ctx(terrain, Some(&opts));
        let c2 = find_path_ctx(terrain, options);
        assert forall|x: int, y: int| c1.matrix_cost(x, y) == c2.matrix_cost(x, y) by {}
        lemma_walk_same_looks(c1, c2, from, base);
        crate::search::lemma_path_cost_same_looks(c1, c2, base);
        let goals = seq![GoalSpec { pos: to, range: 1 }];
        if in_bounds(from) && goal_next_to(c2, goals, false, from) {
            let n = choose|n: Position| adjacent(from, n) && #[trigger] c2.passable(n.x as int, n.y as int) && goal_reached(goals, false, n);
            assert(c1.matrix_cost(n.x as int, n.y as int) == c2.matrix_cost(n.x as int, n.y as int));
            assert(c1.passable(n.x as int, n.y as int));
            assert(goal_next_to(c1, goals, false, from));
            assert(crate::pathfinder::spec_goals(goal) == goals);
        }
        if in_bounds(from) && exists|n: Position|
            adjacent(from, n) && #[trigger] c2.passable(n.x as int, n.y as int) && cheb(n, to) < cheb(from, to) {
            let n = choose|n: Position|
                adjacent(from, n) && #[trigger] c2.passable(n.x as int, n.y as int) && cheb(n, to) < cheb(from, to);
            assert(c1.matrix_cost(n.x as int, n.y as int) == c2.matrix_cost(n.x as int, n.y as int));
            assert(c1.passable(n.x as int, n.y as int));
            assert(crate::pathfinder::spec_goals(goal) == goals);
            if cheb(from, to) >= 2 {
                lemma_range_one_heuristic(to, n);
                lemma_range_one_heuristic(to, from);
                assert(base.len() > 0);
            }
        }
        if !result.incomplete && in_bounds(from) {
            let e = walk_end(from, base);
            assert(goal_reached(seq![GoalSpec { pos: to, range: 1 }], false, e));
            assert(cheb(e, seq![GoalSpec { pos: to, range: 1 }][0].pos) <= 1);
        }
    }
    let dist_from_to = from.range_to(&to);
    let n = result.path.len();
    if n > 0 {
        let last = result.path[n - 1];
        if last.range_to(&to) == 1 {
            result.path.push(to);
        }
    } else if dist_from_to <= 1 {
        result.path.push(to);
    }
    proof {
        assert(find_path_tail(base, from, to) == result.path@);
    }
    result
}


/// The limits of the arena.
#[derive(Debug, Clone, Copy, PartialEq, Eq, Structural)]
pub struct ArenaInfo {
    pub cpu_time_limit: u32,
    pub cpu_time_limit_ticks: u32,
    pub cpu_time_limit_first_tick: u32,
    pub tick_limit: u32,
}

/// Heap figures of the script engine.
#[derive(Debug, Clone, Copy, PartialEq, Eq, Structural)]
pub struct HeapStatistics {
    pub total_heap_size: u32,
    pub total_heap_size_executable: u32,
    pub total_physical_size: u32,
    pub total_available_size: u32,
    pub used_heap_size: u32,
    pub heap_size_limit: u32,
    pub malloced_memory: u32,
    pub peak_malloced_memory: u32,
    pub does_zap_garbage: u32,
    pub number_of_native_contexts: u32,
    pub number_of_detached_contexts: u32,
}

impl HeapStatistics {
    /// The heap in use.
    pub fn used_heap_size(&self) -> (u: u32)
        ensures
            u == self.used_heap_size,
    {
        self.used_heap_size
    }
}

/// The current tick: what the host reports, or 1 without a host.
pub fn get_ticks(host_ticks: Option<u32>) -> (t: u32)
    ensures
        t == (match host_ticks {
            Some(v) => v,
            None => 1,
        }),
{
    match host_ticks {
        Some(v) => v,
        None => 1,
    }
}

/// CPU time used: what the host reports, or 0 without a host.
pub fn get_cpu_time(host_cpu_time: Option<u32>) -> (t: u32)
    ensures
        t == (match host_cpu_time {
            Some(v) => v,
            None => 0,
        }),
{
    match host_cpu_time {
        Some(v) => v,
        None => 0,
    }
}

/// Heap figures: all zero here.
pub fn get_heap_statistics() -> (h: HeapStatistics)
    ensures
        h == (HeapStatistics {
            total_heap_size: 0,
            total_heap_size_executable: 0,
            total_physical_size: 0,
            total_available_size: 0,
            used_heap_size: 0,
            heap_size_limit: 0,
            malloced_memory: 0,
            peak_malloced_memory: 0,
            does_zap_garbage: 0,
            number_of_native_contexts: 0,
            number_of_detached_contexts: 0,
        }),
{
    HeapStatistics {
        total_heap_size: 0,
        total_heap_size_executable: 0,
        total_physical_size: 0,
        total_available_size: 0,
        used_heap_size: 0,
        heap_size_limit: 0,
        malloced_memory: 0,
        peak_malloced_memory: 0,
        does_zap_garbage: 0,
        number_of_native_contexts: 0,
        number_of_detached_contexts: 0,
    }
}

/// The arena's limits: 50 000 000 CPU time per tick (first tick too), 2000 ticks.
pub fn arena_info() -> (a: ArenaInfo)
    ensures
        a == (ArenaInfo {
            cpu_time_limit: 50000000,
            cpu_time_limit_ticks: 50000000,
            cpu_time_limit_first_tick: 50000000,
            tick_limit: 2000,
        }),
{
    ArenaInfo {
        cpu_time_limit: 50000000,
        cpu_time_limit_ticks: 50000000,
        cpu_time_limit_first_tick: 50000000,
        tick_limit: 2000,
    }
}

/// The game objects underneath a list of objects, in order.
pub open spec fn bases<T: AsGameObject>(items: Seq<T>) -> Seq<GameObject> {
    items.map_values(|t: T| t.spec_game_object())
}

/// The objects the host lists, one list per kind.
pub struct ArenaObjects {
    pub creeps: Vec<Creep>,
    pub spawns: Vec<StructureSpawn>,
    pub towers: Vec<StructureTower>,
    pub extensions: Vec<StructureExtension>,
    pub ramparts: Vec<StructureRampart>,
    pub containers: Vec<StructureContainer>,
    pub roads: Vec<StructureRoad>,
    pub walls: Vec<StructureWall>,
    pub resources: Vec<Resource>,
    pub sources: Vec<Source>,
    pub flags: Vec<Flag>,
    pub score_collectors: Vec<ScoreCollector>,
    pub bonus_flags: Vec<BonusFlag>,
    pub area_effects: Vec<AreaEffect>,
    pub construction_sites: Vec<ConstructionSite>,
}

impl ArenaObjects {
    /// No objects at all, as without a host.
    pub fn empty() -> (o: ArenaObjects)
        ensures
            o.all_bases().len() == 0,
    {
        let o = ArenaObjects {
            creeps: Vec::new(),
            spawns: Vec::new(),
            towers: Vec::new(),
            extensions: Vec::new(),
            ramparts: Vec::new(),
            containers: Vec::new(),
            roads: Vec::new(),
            walls: Vec::new(),
            resources: Vec::new(),
            sources: Vec::new(),
            flags: Vec::new(),
            score_collectors: Vec::new(),
            bonus_flags: Vec::new(),
            area_effects: Vec::new(),
            construction_sites: Vec::new(),
        };
        assert(o.all_bases() =~= Seq::<GameObject>::empty());
        o
    }

    /// Every listed object's game object: creeps, spawns, towers,
    /// extensions, ramparts, containers, roads, walls, resources, sources,
    /// flags, score collectors, bonus flags, area effects, construction
    /// sites, each list in its order.
    pub open spec fn all_bases(&self) -> Seq<GameObject> {
        bases(self.creeps@) + bases(self.spawns@) + bases(self.towers@) + bases(self.extensions@) + bases(
            self.ramparts@,
        ) + bases(self.containers@) + bases(self.roads@) + bases(self.walls@) + bases(self.resources@)
            + bases(self.sources@) + bases(self.flags@) + bases(self.score_collectors@) + bases(
            self.bonus_flags@,
        ) + bases(self.area_effects@) + bases(self.construction_sites@)
    }
}

/// Appends the game objects underneath `items` to `out`.
fn append_bases<T: AsGameObject>(out: &mut Vec<GameObject>, items: &Vec<T>)
    ensures
        final(out)@ == old(out)@ + bases(items@),
{
    let mut i: usize = 0;
    while i < items.len()
        invariant
            i <= items@.len(),
            out@ == old(out)@ + bases(items@.subrange(0, i as int)),
        decreases items@.len() - i,
    {
        let g = items[i].game_object().duplicate();
        out.push(g);
        i += 1;
        assert(bases(items@.subrange(0, i as int)) =~= bases(items@.subrange(0, i as int - 1)).push(
            items@[i as int - 1].spec_game_object(),
        ));
    }
    assert(items@.subrange(0, items@.len() as int) =~= items@);
}

/// All game objects on the map, kind by kind in the order of `all_bases`.
pub fn get_objects(objects: &ArenaObjects) -> (all: Vec<GameObject>)
    ensures
        all@ == objects.all_bases(),
        all@.len() == objects.creeps@.len() + objects.spawns@.len() + objects.towers@.len() + objects.extensions@.len() + objects.ramparts@.len() + objects.containers@.len() + objects.roads@.len() + objects.walls@.len() + objects.resources@.len() + objects.sources@.len() + objects.flags@.len() + objects.score_collectors@.len() + objects.bonus_flags@.len() + objects.area_effects@.len() + objects.construction_sites@.len(),
        forall|i: int| 0 <= i < objects.creeps@.len() ==> all@.contains(#[trigger] objects.creeps@[i].spec_game_object()),
        forall|i: int| 0 <= i < objects.spawns@.len() ==> all@.contains(#[trigger] objects.spawns@[i].spec_game_object()),
        forall|i: int| 0 <= i < objects.towers@.len() ==> all@.contains(#[trigger] objects.towers@[i].spec_game_object()),
        forall|i: int| 0 <= i < objects.extensions@.len() ==> all@.contains(#[trigger] objects.extensions@[i].spec_game_object()),
        forall|i: int| 0 <= i < objects.ramparts@.len() ==> all@.contains(#[trigger] objects.ramparts@[i].spec_game_object()),
        forall|i: int| 0 <= i < objects.containers@.len() ==> all@.contains(#[trigger] objects.containers@[i].spec_game_object()),
        forall|i: int| 0 <= i < objects.roads@.len() ==> all@.contains(#[trigger] objects.roads@[i].spec_game_object()),
        forall|i: int| 0 <= i < objects.walls@.len() ==> all@.contains(#[trigger] objects.walls@[i].spec_game_object()),
        forall|i: int| 0 <= i < objects.resources@.len() ==> all@.contains(#[trigger] objects.resources@[i].spec_game_object()),
        forall|i: int| 0 <= i < objects.sources@.len() ==> all@.contains(#[trigger] objects.sources@[i].spec_game_object()),
        forall|i: int| 0 <= i < objects.flags@.len() ==> all@.contains(#[trigger] objects.flags@[i].spec_game_object()),
        forall|i: int| 0 <= i < objects.score_collectors@.len() ==> all@.contains(#[trigger] objects.score_collectors@[i].spec_game_object()),
        forall|i: int| 0 <= i < objects.bonus_flags@.len() ==> all@.contains(#[trigger] objects.bonus_flags@[i].spec_game_object()),
        forall|i: int| 0 <= i < objects.area_effects@.len() ==> all@.contains(#[trigger] objects.area_effects@[i].spec_game_object()),
        forall|i: int| 0 <= i < objects.construction_sites@.len() ==> all@.contains(#[trigger] objects.construction_sites@[i].spec_game_object()),
{
    let mut all: Vec<GameObject> = Vec::new();
    append_bases(&mut all, &objects.creeps);
    append_bases(&mut all, &objects.spawns);
    append_bases(&mut all, &objects.towers);
    append_bases(&mut all, &objects.extensions);
    append_bases(&mut all, &objects.ramparts);
    append_bases(&mut all, &objects.containers);
    append_bases(&mut all, &objects.roads);
    append_bases(&mut all, &objects.walls);
    append_bases(&mut all, &objects.resources);
    append_bases(&mut all, &objects.sources);
    append_bases(&mut all, &objects.flags);
    append_bases(&mut all, &objects.score_collectors);
    append_bases(&mut all, &objects.bonus_flags);
    append_bases(&mut all, &objects.area_effects);
    append_bases(&mut all, &objects.construction_sites);
    assert(all@ =~= objects.all_bases());
    proof {
        law_all_bases_lists_every_object(*objects);
    }
    all
}

/// The game objects of `items`, in order, have one entry per item, and the
/// object of every item is among them.
proof fn lemma_bases<T: AsGameObject>(items: Seq<T>)
    ensures
        bases(items).len() == items.len(),
        forall|i: int| 0 <= i < items.len() ==> bases(items)[i] == #[trigger] items[i].spec_game_object(),
{
}

/// Law: the game objects of all kinds are one per listed object, and the
/// object of every listed object of every kind is among them.
pub proof fn law_all_bases_lists_every_object(objects: ArenaObjects)
    ensures
        objects.all_bases().len() == objects.creeps@.len() + objects.spawns@.len() + objects.towers@.len() + objects.extensions@.len() + objects.ramparts@.len() + objects.containers@.len() + objects.roads@.len() + objects.walls@.len() + objects.resources@.len() + objects.sources@.len() + objects.flags@.len() + objects.score_collectors@.len() + objects.bonus_flags@.len() + objects.area_effects@.len() + objects.construction_sites@.len(),
        forall|i: int| 0 <= i < objects.creeps@.len() ==> objects.all_bases().contains(#[trigger] objects.creeps@[i].spec_game_object()),
        forall|i: int| 0 <= i < objects.spawns@.len() ==> objects.all_bases().contains(#[trigger] objects.spawns@[i].spec_game_object()),
        forall|i: int| 0 <= i < objects.towers@.len() ==> objects.all_bases().contains(#[trigger] objects.towers@[i].spec_game_object()),
        forall|i: int| 0 <= i < objects.extensions@.len() ==> objects.all_bases().contains(#[trigger] objects.extensions@[i].spec_game_object()),
        forall|i: int| 0 <= i < objects.ramparts@.len() ==> objects.all_bases().contains(#[trigger] objects.ramparts@[i].spec_game_object()),
        forall|i: int| 0 <= i < objects.containers@.len() ==> objects.all_bases().contains(#[trigger] objects.containers@[i].spec_game_object()),
        forall|i: int| 0 <= i < objects.roads@.len() ==> objects.all_bases().contains(#[trigger] objects.roads@[i].spec_game_object()),
        forall|i: int| 0 <= i < objects.walls@.len() ==> objects.all_bases().contains(#[trigger] objects.walls@[i].spec_game_object()),
        forall|i: int| 0 <= i < objects.resources@.len() ==> objects.all_bases().contains(#[trigger] objects.resources@[i].spec_game_object()),
        forall|i: int| 0 <= i < objects.sources@.len() ==> objects.all_bases().contains(#[trigger] objects.sources@[i].spec_game_object()),
        forall|i: int| 0 <= i < objects.flags@.len() ==> objects.all_bases().contains(#[trigger] objects.flags@[i].spec_game_object()),
        forall|i: int| 0 <= i < objects.score_collectors@.len() ==> objects.all_bases().contains(#[trigger] objects.score_collectors@[i].spec_game_object()),
        forall|i: int| 0 <= i < objects.bonus_flags@.len() ==> objects.all_bases().contains(#[trigger] objects.bonus_flags@[i].spec_game_object()),
        forall|i: int| 0 <= i < objects.area_effects@.len() ==> objects.all_bases().contains(#[trigger] objects.area_effects@[i].spec_game_object()),
        forall|i: int| 0 <= i < objects.construction_sites@.len() ==> objects.all_bases().contains(#[trigger] objects.construction_sites@[i].spec_game_object()),
{
    lemma_bases(objects.creeps@);
    lemma_bases(objects.spawns@);
    lemma_bases(objects.towers@);
    lemma_bases(objects.extensions@);
    lemma_bases(objects.ramparts@);
    lemma_bases(objects.containers@);
    lemma_bases(objects.roads@);
    lemma_bases(objects.walls@);
    lemma_bases(objects.resources@);
    lemma_bases(objects.sources@);
    lemma_bases(objects.flags@);
    lemma_bases(objects.score_collectors@);
    lemma_bases(objects.bonus_flags@);
    lemma_bases(objects.area_effects@);
    lemma_bases(objects.construction_sites@);
    let all = objects.all_bases();
    assert(all.len() == objects.creeps@.len() + objects.spawns@.len() + objects.towers@.len() + objects.extensions@.len() + objects.ramparts@.len() + objects.containers@.len() + objects.roads@.len() + objects.walls@.len() + objects.resources@.len() + objects.sources@.len() + objects.flags@.len() + objects.score_collectors@.len() + objects.bonus_flags@.len() + objects.area_effects@.len() + objects.construction_sites@.len());
    assert forall|i: int| 0 <= i < objects.creeps@.len() implies all.contains(#[trigger] objects.creeps@[i].spec_game_object()) by {
        let k = 0 + i;
        assert(all[k] == objects.creeps@[i].spec_game_object());
    }
    assert forall|i: int| 0 <= i < objects.spawns@.len() implies all.contains(#[trigger] objects.spawns@[i].spec_game_object()) by {
        let k = objects.creeps@.len() + i;
        assert(all[k] == objects.spawns@[i].spec_game_object());
    }
    assert forall|i: int| 0 <= i < objects.towers@.len() implies all.contains(#[trigger] objects.towers@[i].spec_game_object()) by {
        let k = objects.creeps@.len() + objects.spawns@.len() + i;
        assert(all[k] == objects.towers@[i].spec_game_object());
    }
    assert forall|i: int| 0 <= i < objects.extensions@.len() implies all.contains(#[trigger] objects.extensions@[i].spec_game_object()) by {
        let k = objects.creeps@.len() + objects.spawns@.len() + objects.towers@.len() + i;
        assert(all[k] == objects.extensions@[i].spec_game_object());
    }
    assert forall|i: int| 0 <= i < objects.ramparts@.len() implies all.contains(#[trigger] objects.ramparts@[i].spec_game_object()) by {
        let k = objects.creeps@.len() + objects.spawns@.len() + objects.towers@.len() + objects.extensions@.len() + i;
        assert(all[k] == objects.ramparts@[i].spec_game_object());
    }
    assert forall|i: int| 0 <= i < objects.containers@.len() implies all.contains(#[trigger] objects.containers@[i].spec_game_object()) by {
        let k = objects.creeps@.len() + objects.spawns@.len() + objects.towers@.len() + objects.extensions@.len() + objects.ramparts@.len() + i;
        assert(all[k] == objects.containers@[i].spec_game_object());
    }
    assert forall|i: int| 0 <= i < objects.roads@.len() implies all.contains(#[trigger] objects.roads@[i].spec_game_object()) by {
        let k = objects.creeps@.len() + objects.spawns@.len() + objects.towers@.len() + objects.extensions@.len() + objects.ramparts@.len() + objects.containers@.len() + i;
        assert(all[k] == objects.roads@[i].spec_game_object());
    }
    assert forall|i: int| 0 <= i < objects.walls@.len() implies all.contains(#[trigger] objects.walls@[i].spec_game_object()) by {
        let k = objects.creeps@.len() + objects.spawns@.len() + objects.towers@.len() + objects.extensions@.len() + objects.ramparts@.len() + objects.containers@.len() + objects.roads@.len() + i;
        assert(all[k] == objects.walls@[i].spec_game_object());
    }
    assert forall|i: int| 0 <= i < objects.resources@.len() implies all.contains(#[trigger] objects.resources@[i].spec_game_object()) by {
        let k = objects.creeps@.len() + objects.spawns@.len() + objects.towers@.len() + objects.extensions@.len() + objects.ramparts@.len() + objects.containers@.len() + objects.roads@.len() + objects.walls@.len() + i;
        assert(all[k] == objects.resources@[i].spec_game_object());
    }
    assert forall|i: int| 0 <= i < objects.sources@.len() implies all.contains(#[trigger] objects.sources@[i].spec_game_object()) by {
        let k = objects.creeps@.len() + objects.spawns@.len() + objects.towers@.len() + objects.extensions@.len() + objects.ramparts@.len() + objects.containers@.len() + objects.roads@.len() + objects.walls@.len() + objects.resources@.len() + i;
        assert(all[k] == objects.sources@[i].spec_game_object());
    }
    assert forall|i: int| 0 <= i < objects.flags@.len() implies all.contains(#[trigger] objects.flags@[i].spec_game_object()) by {
        let k = objects.creeps@.len() + objects.spawns@.len() + objects.towers@.len() + objects.extensions@.len() + objects.ramparts@.len() + objects.containers@.len() + objects.roads@.len() + objects.walls@.len() + objects.resources@.len() + objects.sources@.len() + i;
        assert(all[k] == objects.flags@[i].spec_game_object());
    }
    assert forall|i: int| 0 <= i < objects.score_collectors@.len() implies all.contains(#[trigger] objects.score_collectors@[i].spec_game_object()) by {
        let k = objects.creeps@.len() + objects.spawns@.len() + objects.towers@.len() + objects.extensions@.len() + objects.ramparts@.len() + objects.containers@.len() + objects.roads@.len() + objects.walls@.len() + objects.resources@.len() + objects.sources@.len() + objects.flags@.len() + i;
        assert(all[k] == objects.score_collectors@[i].spec_game_object());
    }
    assert forall|i: int| 0 <= i < objects.bonus_flags@.len() implies all.contains(#[trigger] objects.bonus_flags@[i].spec_game_object()) by {
        let k = objects.creeps@.len() + objects.spawns@.len() + objects.towers@.len() + objects.extensions@.len() + objects.ramparts@.len() + objects.containers@.len() + objects.roads@.len() + objects.walls@.len() + objects.resources@.len() + objects.sources@.len() + objects.flags@.len() + objects.score_collectors@.len() + i;
        assert(all[k] == objects.bonus_flags@[i].spec_game_object());
    }
    assert forall|i: int| 0 <= i < objects.area_effects@.len() implies all.contains(#[trigger] objects.area_effects@[i].spec_game_object()) by {
        let k = objects.creeps@.len() + objects.spawns@.len() + objects.towers@.len() + objects.extensions@.len() + objects.ramparts@.len() + objects.containers@.len() + objects.roads@.len() + objects.walls@.len() + objects.resources@.len() + objects.sources@.len() + objects.flags@.len() + objects.score_collectors@.len() + objects.bonus_flags@.len() + i;
        assert(all[k] == objects.area_effects@[i].spec_game_object());
    }
    assert forall|i: int| 0 <= i < objects.construction_sites@.len() implies all.contains(#[trigger] objects.construction_sites@[i].spec_game_object()) by {
        let k = objects.creeps@.len() + objects.spawns@.len() + objects.towers@.len() + objects.extensions@.len() + objects.ramparts@.len() + objects.containers@.len() + objects.roads@.len() + objects.walls@.len() + objects.resources@.len() + objects.sources@.len() + objects.flags@.len() + objects.score_collectors@.len() + objects.bonus_flags@.len() + objects.area_effects@.len() + i;
        assert(all[k] == objects.construction_sites@[i].spec_game_object());
    }
}


/// Whether an object carries the id `id`.
pub open spec fn has_id<T: AsGameObject>(item: T, id: Seq<char>) -> bool {
    item.spec_game_object().id@ == id
}

/// The first of `items` (the objects of kind `prototype`) whose id is `id`.
pub fn get_object_by_id<P: PrototypeConstant>(id: &str, prototype: P, items: Vec<P::Item>) -> (r: Option<
    P::Item,
>) where P::Item: AsGameObject
    ensures
        r is None <==> forall|i: int| 0 <= i < items@.len() ==> !has_id(#[trigger] items@[i], id@),
        r matches Some(t) ==> exists|i: int|
            0 <= i < items@.len() && items@[i] == t && has_id(t, id@) && forall|j: int|
                0 <= j < i ==> !has_id(#[trigger] items@[j], id@),
{
    let target: String = id.to_owned();
    let mut i: usize = 0;
    while i < items.len()
        invariant
            target@ == id@,
            i <= items@.len(),
            forall|j: int| 0 <= j < i ==> !has_id(#[trigger] items@[j], id@),
        ensures
            i <= items@.len(),
            forall|j: int| 0 <= j < i ==> !has_id(#[trigger] items@[j], id@),
            i < items@.len() ==> has_id(items@[i as int], id@),
        decreases items@.len() - i,
    {
        if items[i].game_object().id == target {
            break;
        }
        i += 1;
    }
    if i == items.len() {
        return None;
    }
    assert(has_id(items@[i as int], id@));
    let ghost all = items@;
    let mut rest = items;
    let t = rest.remove(i);
    assert(t == all[i as int]);
    Some(t)
}

/// The terrain a host terrain code stands for: bit 0 marks a wall, bit 1
/// a swamp; no code (no host) reads as plain.
pub fn terrain_from_code(code: Option<u32>) -> (t: Terrain)
    ensures
        t == (match code {
            Some(c) => if c & 1 != 0 {
                Terrain::Wall
            } else if c & 2 != 0 {
                Terrain::Swamp
            } else {
                Terrain::Plain
            },
            None => Terrain::Plain,
        }),
{
    match code {
        Some(c) => if c & 1 != 0 {
            Terrain::Wall
        } else if c & 2 != 0 {
            Terrain::Swamp
        } else {
            Terrain::Plain
        },
        None => Terrain::Plain,
    }
}

/// The terrain at `(x, y)`.
pub fn get_terrain_at_pos(x: u8, y: u8, terrain: &TerrainMap) -> (t: Terrain)
    requires
        terrain.wf(),
    ensures
        t == terrain.at(x as int, y as int),
{
    terrain.get(x, y)
}

/// The terrain at a position.
pub fn get_terrain_at(pos: &Position, terrain: &TerrainMap) -> (t: Terrain)
    requires
        terrain.wf(),
    ensures
        t == terrain.at(pos.x as int, pos.y as int),
{
    get_terrain_at_pos(pos.x, pos.y, terrain)
}

/// Placing construction sites is not supported here: always an error.
pub fn create_construction_site(x: u8, y: u8, structure_type: &Object) -> (r: Result<ConstructionSite, ReturnCode>)
    ensures
        r == Err::<ConstructionSite, ReturnCode>(ReturnCode::Error),
{
    Err(ReturnCode::Error)
}

} // verus!
