use vstd::prelude::*;
use vstd::set_lib::{lemma_int_range, lemma_len_subset, set_int_range};
use crate::constants::Terrain;
use crate::pathfinder::{
    adjacent, on_map, cheb, empty_results, in_bounds, index_of, lemma_pidx, lemma_pos_of, matrix_of, normalize_goals,
    options_flee, pidx, pos_of, raw_max_ops, raw_options, raw_options_ctx, raw_plain_cost, raw_swamp_cost, raw_weight,
    spec_goals, GoalInput, GoalSpec,
    Position, SearchCtx, SearchPathOptions, SearchResults, TerrainMap,
};
use crate::pf_cc::{
    lemma_extend_run, lemma_run_cost_one, lemma_step_edge, on_run, range_to, ray, run_cost, run_edge, run_passable,
    run_sum, run_tile, sign, unit, valid_walk, walk_end,
};

verus! {

/// A position counts as arrived when some goal's condition holds there:
/// within its range, or, when fleeing, at least its range away.
pub open spec fn at_goal(goals: Seq<GoalSpec>, flee: bool, p: Position) -> bool {
    exists|i: int|
        0 <= i < goals.len() && (if flee {
            cheb(p, #[trigger] goals[i].pos) >= goals[i].range
        } else {
            cheb(p, goals[i].pos) <= goals[i].range
        })
}

/// Whether `pos` counts as arrived (see `at_goal`).
pub fn is_at_goal(goals: &Vec<GoalSpec>, flee: bool, pos: Position) -> (b: bool)
    ensures
        b == at_goal(goals@, flee, pos),
{
    let mut i: usize = 0;
    while i < goals.len()
        invariant
            i <= goals@.len(),
            forall|j: int|
                0 <= j < i ==> !(if flee {
                    cheb(pos, #[trigger] goals@[j].pos) >= goals@[j].range
                } else {
                    cheb(pos, goals@[j].pos) <= goals@[j].range
                }),
        decreases goals@.len() - i,
    {
        let g = goals[i];
        let range = pos.range_to(&g.pos);
        if flee {
            if range >= g.range {
                proof {
                    assert(cheb(pos, goals@[i as int].pos) >= goals@[i as int].range);
                }
                return true;
            }
        } else {
            if range <= g.range {
                proof {
                    assert(cheb(pos, goals@[i as int].pos) <= goals@[i as int].range);
                }
                return true;
            }
        }
        i += 1;
    }
    false
}

/// The least distance from `p` to a goal's position, `u32::MAX` when there
/// are no goals.
pub open spec fn min_goal_dist(goals: Seq<GoalSpec>, p: Position) -> int
    decreases goals.len(),
{
    if goals.len() == 0 {
        u32::MAX as int
    } else {
        let r = min_goal_dist(goals.drop_last(), p);
        let d = cheb(p, goals.last().pos);
        if d < r {
            d
        } else {
            r
        }
    }
}

proof fn lemma_min_goal_dist(goals: Seq<GoalSpec>, p: Position)
    ensures
        goals.len() > 0 ==> 0 <= min_goal_dist(goals, p) <= 255,
        goals.len() == 0 ==> min_goal_dist(goals, p) == u32::MAX,
    decreases goals.len(),
{
    if goals.len() > 0 {
        lemma_min_goal_dist(goals.drop_last(), p);
    }
}

/// The distance heuristic: the least distance to a goal's position.
pub fn goal_distance(goals: &Vec<GoalSpec>, pos: Position) -> (h: u32)
    ensures
        h == min_goal_dist(goals@, pos),
{
    let mut min_h: u32 = u32::MAX;
    let mut i: usize = 0;
    while i < goals.len()
        invariant
            i <= goals@.len(),
            min_h == min_goal_dist(goals@.take(i as int), pos),
        decreases goals@.len() - i,
    {
        proof {
            assert(goals@.take(i as int + 1).drop_last() =~= goals@.take(i as int));
            lemma_min_goal_dist(goals@.take(i as int), pos);
        }
        let dist = range_to(pos, goals[i].pos);
        if dist < min_h {
            min_h = dist;
        }
        i += 1;
    }
    proof {
        assert(goals@.take(goals@.len() as int) =~= goals@);
    }
    min_h
}

/// A tile that stops a diagonal move from cutting its corner: a wall, or
/// a matrix cost of 255.
pub open spec fn corner_blocks(ctx: SearchCtx, x: int, y: int) -> bool {
    ctx.terrain.at(x, y) == Terrain::Wall || ctx.matrix_cost(x, y) == 255
}

/// Whether tile `(x, y)` stops a diagonal move past it.
pub fn corner_blocked(ctx: &SearchCtx, x: u8, y: u8) -> (b: bool)
    requires
        ctx.wf(),
    ensures
        b == corner_blocks(*ctx, x as int, y as int),
{
    match ctx.terrain.get(x, y) {
        Terrain::Wall => true,
        _ => match ctx.cost_matrix {
            Some(cm) => cm.get(x, y) == 255,
            None => false,
        },
    }
}

/// One move of A* from `a` to `b`: a king move onto a passable tile that,
/// when diagonal, does not cut past a blocked corner.
pub open spec fn astar_move(ctx: SearchCtx, a: Position, b: Position) -> bool {
    &&& adjacent(a, b)
    &&& ctx.passable(b.x as int, b.y as int)
    &&& (a.x != b.x && a.y != b.y) ==> !corner_blocks(ctx, a.x as int, b.y as int) && !corner_blocks(
        ctx,
        b.x as int,
        a.y as int,
    )
}

/// A walk from `start` made of A* moves.
pub open spec fn astar_walk(ctx: SearchCtx, start: Position, path: Seq<Position>) -> bool {
    &&& path.len() > 0 ==> astar_move(ctx, start, path[0])
    &&& forall|k: int| 0 <= k < path.len() - 1 ==> astar_move(ctx, #[trigger] path[k], path[k + 1])
}

/// No walk of A* moves from `start` ends where the goals count as arrived.
pub open spec fn no_astar_route(ctx: SearchCtx, goals: Seq<GoalSpec>, flee: bool, start: Position) -> bool {
    forall|w: Seq<Position>| #[trigger] astar_walk(ctx, start, w) ==> !at_goal(goals, flee, walk_end(start, w))
}

/// The rank of the unit offset `(dx, dy)` among the A* directions
/// (8 for any other offset).
spec fn dir_rank(dx: int, dy: int) -> int {
    if dx == 0 && dy == -1 {
        0
    } else if dx == 1 && dy == -1 {
        1
    } else if dx == 1 && dy == 0 {
        2
    } else if dx == 1 && dy == 1 {
        3
    } else if dx == 0 && dy == 1 {
        4
    } else if dx == -1 && dy == 1 {
        5
    } else if dx == -1 && dy == 0 {
        6
    } else if dx == -1 && dy == -1 {
        7
    } else {
        8
    }
}

proof fn lemma_rank(a: int, b: int, k: int)
    requires
        0 <= k < 8,
        dir_rank(a, b) == k,
    ensures
        a == astar_dir(k).0,
        b == astar_dir(k).1,
{
}

proof fn lemma_rank_dir(k: int)
    requires
        0 <= k < 8,
    ensures
        dir_rank(astar_dir(k).0, astar_dir(k).1) == k,
        -1 <= astar_dir(k).0 <= 1,
        -1 <= astar_dir(k).1 <= 1,
{
}

/// The cost of entering tile `p` (0 when it is impassable).
pub open spec fn step_cost(ctx: SearchCtx, p: Position) -> int {
    match ctx.spec_look(p.x as int, p.y as int) {
        Some(c) => c as int,
        None => 0,
    }
}

/// The cost of walking `path`: the sum of the costs of entering its tiles.
pub open spec fn path_cost(ctx: SearchCtx, path: Seq<Position>) -> int
    decreases path.len(),
{
    if path.len() == 0 {
        0
    } else {
        path_cost(ctx, path.drop_last()) + step_cost(ctx, path.last())
    }
}

proof fn lemma_path_cost_nonneg(ctx: SearchCtx, path: Seq<Position>)
    ensures
        path_cost(ctx, path) >= 0,
    decreases path.len(),
{
    if path.len() > 0 {
        lemma_path_cost_nonneg(ctx, path.drop_last());
    }
}

pub(crate) proof fn lemma_path_cost_push(ctx: SearchCtx, path: Seq<Position>, p: Position)
    ensures
        path_cost(ctx, path.push(p)) == path_cost(ctx, path) + step_cost(ctx, p),
{
    assert(path.push(p).drop_last() =~= path);
}

proof fn lemma_path_cost_front(ctx: SearchCtx, s: Seq<Position>)
    requires
        s.len() > 0,
    ensures
        path_cost(ctx, s) == step_cost(ctx, s[0]) + path_cost(ctx, s.subrange(1, s.len() as int)),
    decreases s.len(),
{
    if s.len() == 1 {
        assert(s.drop_last() =~= Seq::<Position>::empty());
        assert(s.subrange(1, 1) =~= Seq::<Position>::empty());
    } else {
        lemma_path_cost_front(ctx, s.drop_last());
        assert(s.drop_last().subrange(1, s.len() - 1) =~= s.subrange(1, s.len() as int).drop_last());
        assert(s.subrange(1, s.len() as int).last() == s.last());
    }
}

/// Two searches that see the same costs price every walk alike.
pub(crate) proof fn lemma_path_cost_same_looks(c1: SearchCtx, c2: SearchCtx, path: Seq<Position>)
    requires
        c1.terrain == c2.terrain,
        c1.plain_cost == c2.plain_cost,
        c1.swamp_cost == c2.swamp_cost,
        forall|x: int, y: int| c1.matrix_cost(x, y) == c2.matrix_cost(x, y),
    ensures
        path_cost(c1, path) == path_cost(c2, path),
    decreases path.len(),
{
    if path.len() > 0 {
        lemma_path_cost_same_looks(c1, c2, path.drop_last());
        let p = path.last();
        assert(c1.matrix_cost(p.x as int, p.y as int) == c2.matrix_cost(p.x as int, p.y as int));
    }
}

pub(crate) proof fn lemma_path_cost_step(ctx: SearchCtx, nodes: Seq<Position>, k: int, walk: Seq<Position>)
    requires
        0 <= k < nodes.len(),
        path_cost(ctx, walk) == path_cost(ctx, nodes.subrange(k + 1, nodes.len() as int)),
    ensures
        path_cost(ctx, walk.push(nodes[k])) == path_cost(ctx, nodes.subrange(k, nodes.len() as int)),
{
    lemma_path_cost_push(ctx, walk, nodes[k]);
    let sub = nodes.subrange(k, nodes.len() as int);
    lemma_path_cost_front(ctx, sub);
    assert(sub.subrange(1, sub.len() as int) =~= nodes.subrange(k + 1, nodes.len() as int));
}

/// Some entry of `open` is for `p` at cost `c`.
spec fn has_entry(open: Seq<OpenEntry>, p: Position, c: int) -> bool {
    exists|j: int| 0 <= j < open.len() && (#[trigger] open[j]).pos == p && open[j].cost == c
}

proof fn lemma_has_entry_remove(s: Seq<OpenEntry>, k: int, p: Position, c: int)
    requires
        0 <= k < s.len(),
        has_entry(s, p, c),
        !(s[k].pos == p && s[k].cost == c),
    ensures
        has_entry(s.remove(k), p, c),
{
    let j = choose|j: int| 0 <= j < s.len() && (#[trigger] s[j]).pos == p && s[j].cost == c;
    if j < k {
        assert(s.remove(k)[j] == s[j]);
    } else {
        assert(s.remove(k)[j - 1] == s[j]);
    }
}

proof fn lemma_has_entry_prefix(s: Seq<OpenEntry>, t: Seq<OpenEntry>, p: Position, c: int)
    requires
        has_entry(s, p, c),
        s.len() <= t.len(),
        forall|j: int| 0 <= j < s.len() ==> t[j] == s[j],
    ensures
        has_entry(t, p, c),
{
    let j = choose|j: int| 0 <= j < s.len() && (#[trigger] s[j]).pos == p && s[j].cost == c;
    assert(t[j] == s[j]);
}

/// Largest cost added to a path by one plain A* step.
pub const TILE_BOUND: u32 = 255;

/// Largest cost added to a path by one jump (at most 100 tiles of cost 255).
pub const JUMP_BOUND: u32 = 25500;

/// An open-list entry: estimate, cost so far, position, and (for the
/// jump searches) the direction to continue in.
#[derive(Clone, Copy)]
pub struct OpenEntry {
    pub est: u64,
    pub cost: u32,
    pub pos: Position,
    pub dx: i32,
    pub dy: i32,
    pub id: u64,
}

/// Entry `a` is taken no later than `b`: lower estimate first, then lower
/// cost, then earlier insertion.
pub open spec fn open_before(a: OpenEntry, b: OpenEntry) -> bool {
    a.est < b.est || (a.est == b.est && (a.cost < b.cost || (a.cost == b.cost && a.id <= b.id)))
}

/// Removes and returns the open-list entry that is taken first.
pub fn pop_open(open: &mut Vec<OpenEntry>) -> (r: OpenEntry)
    requires
        old(open)@.len() > 0,
    ensures
        final(open)@.len() == old(open)@.len() - 1,
        old(open)@.contains(r),
        forall|k: int| 0 <= k < final(open)@.len() ==> old(open)@.contains(#[trigger] final(open)@[k]),
        forall|k: int| 0 <= k < old(open)@.len() ==> open_before(r, #[trigger] old(open)@[k]),
        exists|k: int| 0 <= k < old(open)@.len() && old(open)@[k] == r && final(open)@ == old(open)@.remove(k),
{
    let mut best: usize = 0;
    let mut i: usize = 1;
    while i < open.len()
        invariant
            open@ == old(open)@,
            best < i <= open@.len(),
            forall|k: int| 0 <= k < i ==> open_before(open@[best as int], #[trigger] open@[k]),
        decreases open@.len() - i,
    {
        let a = open[i];
        let b = open[best];
        if a.est < b.est || (a.est == b.est && (a.cost < b.cost || (a.cost == b.cost && a.id < b.id))) {
            best = i;
        }
        i += 1;
    }
    let ghost before = open@;
    let r = open.remove(best);
    proof {
        assert(before[best as int] == r);
        assert(open@ == before.remove(best as int));
        assert forall|k: int| 0 <= k < open@.len() implies before.contains(#[trigger] open@[k]) by {
            if k < best {
                assert(open@[k] == before[k]);
            } else {
                assert(open@[k] == before[k + 1]);
            }
        }
    }
    r
}

/// `g * 1000 + h * weight`: the estimate of a path through a tile with
/// cost `g` and heuristic `h`, the weight in thousandths.
pub open spec fn spec_estimate(g: u32, h: u32, weight: u32) -> int {
    g as int * 1000 + h as int * weight as int
}

/// The estimate of a path through a tile (see `spec_estimate`).
fn estimate(g: u32, h: u32, weight: u32) -> (e: u64)
    requires
        g <= 300_000_000,
        h <= 255,
    ensures
        e == spec_estimate(g, h, weight),
{
    proof {
        assert(h as int * weight as int <= 255 * u32::MAX) by (nonlinear_arith)
            requires
                h <= 255,
                weight <= u32::MAX,
        {
        }
    }
    (g as u64) * 1000 + (h as u64) * (weight as u64)
}

/// The part of a search's working state that opening tiles changes: best
/// costs, predecessors, the open list, and the insertion counter.
type PathTrack = (Seq<u32>, Seq<Option<Position>>, Seq<OpenEntry>, u64);

/// Whether making `node` reached at `new_g` improves it: it is not the
/// start and `new_g` is below its best cost.
spec fn improves(t: PathTrack, start: Position, node: Position, new_g: u32) -> bool {
    node != start && new_g < t.0[pidx(node)]
}

/// An improvement of `node` to cost `new_g` through `pos`, when it improves.
spec fn improve_effect(t: PathTrack, start: Position, pos: Position, node: Position, new_g: u32) -> PathTrack {
    if improves(t, start, node, new_g) {
        (t.0.update(pidx(node), new_g), t.1.update(pidx(node), Some(pos)), t.2, t.3)
    } else {
        t
    }
}

/// Working state of the A* and jump-point searches: best cost and
/// predecessor per tile, the open list, and (ghost) when each predecessor
/// was last set, the set of tiles reached, and the largest cost one link
/// adds.
struct PathState {
    g_score: Vec<u32>,
    came_from: Vec<Option<Position>>,
    open: Vec<OpenEntry>,
    counter: u64,
    stamp: Ghost<Seq<int>>,
    clock: Ghost<int>,
    dset: Ghost<Set<int>>,
    step: Ghost<int>,
}

impl PathState {
    /// The best costs, predecessors, open list and insertion counter.
    spec fn ptrack(&self) -> PathTrack {
        (self.g_score@, self.came_from@, self.open@, self.counter)
    }

    /// Best known cost of reaching `p` (0 for the start).
    spec fn gv(&self, start: Position, p: Position) -> int {
        if p == start {
            0
        } else if in_bounds(p) {
            self.g_score@[pidx(p)] as int
        } else {
            u32::MAX as int
        }
    }

    /// When `p`'s predecessor was last set (0 for the start).
    spec fn sv(&self, start: Position, p: Position) -> int {
        if p == start {
            0
        } else {
            self.stamp@[pidx(p)]
        }
    }

    /// A tile is reached: the start, or a tile with a known cost.
    spec fn reached(&self, start: Position, p: Position) -> bool {
        p == start || (in_bounds(p) && self.g_score@[pidx(p)] != u32::MAX)
    }

    /// The predecessor of slot `i` is a reached tile with a passable run to
    /// it, from which `i` costs more, or as much with an earlier stamp.
    spec fn link_ok(&self, ctx: SearchCtx, start: Position, i: int) -> bool {
        self.came_from@[i] matches Some(p) ==> {
            &&& run_edge(ctx, p, pos_of(i))
            &&& self.reached(start, p)
            &&& (self.g_score@[i] > self.gv(start, p) || (self.g_score@[i] == self.gv(start, p) && self.sv(
                start,
                p,
            ) < self.stamp@[i]))
        }
    }

    /// Every predecessor link is one A* move.
    spec fn astar_links(&self, ctx: SearchCtx) -> bool {
        forall|i: int| 0 <= i < 10000 ==> (#[trigger] self.came_from@[i] matches Some(p) ==> astar_move(ctx, p, pos_of(i)))
    }

    /// Every tile's best cost is at least its predecessor's plus the cost of
    /// the run between them.
    spec fn cost_links(&self, ctx: SearchCtx, start: Position) -> bool {
        forall|i: int|
            0 <= i < 10000 ==> (#[trigger] self.came_from@[i] matches Some(p) ==> self.g_score@[i] >= self.gv(start, p)
                + run_cost(ctx, p, pos_of(i)))
    }

    spec fn inv(&self, ctx: SearchCtx, start: Position) -> bool {
        &&& self.g_score@.len() == 10000
        &&& self.came_from@.len() == 10000
        &&& self.stamp@.len() == 10000
        &&& self.dset@.finite()
        &&& self.dset@.len() <= 10000
        &&& 0 <= self.step@ <= JUMP_BOUND
        &&& forall|i: int| #[trigger] self.dset@.contains(i) <==> (0 <= i < 10000 && self.g_score@[i] != u32::MAX)
        &&& in_bounds(start) ==> self.g_score@[pidx(start)] == 0 && self.came_from@[pidx(start)] is None
        &&& forall|i: int|
            0 <= i < 10000 && pos_of(i) != start ==> ((#[trigger] self.came_from@[i] is Some) <==> self.g_score@[i]
                != u32::MAX)
        &&& forall|i: int| 0 <= i < 10000 ==> #[trigger] self.link_ok(ctx, start, i)
        &&& forall|i: int|
            0 <= i < 10000 && #[trigger] self.came_from@[i] is Some ==> 1 <= self.stamp@[i] <= self.clock@
        &&& forall|i: int|
            0 <= i < 10000 && #[trigger] self.g_score@[i] != u32::MAX ==> self.g_score@[i] <= self.step@
                * self.dset@.len()
        &&& forall|j: int|
            0 <= j < self.open@.len() ==> self.reached(start, #[trigger] self.open@[j].pos) && self.open@[j].cost
                >= self.gv(start, self.open@[j].pos) && self.open@[j].cost <= self.step@ * self.dset@.len()
        &&& self.clock@ >= 0
    }

    fn new(ctx: &SearchCtx, start: Position, step: Ghost<int>) -> (st: Self)
        requires
            0 <= step@ <= JUMP_BOUND,
        ensures
            st.inv(*ctx, start),
            st.open@.len() == 0,
            st.counter == 0,
            st.step == step,
            forall|p: Position| #[trigger] st.reached(start, p) ==> p == start,
            st.cost_links(*ctx, start),
            st.astar_links(*ctx),
    {
        let mut g_score = vec![u32::MAX; 10000];
        let mut dset: Ghost<Set<int>> = Ghost(Set::empty());
        if start.x < 100 && start.y < 100 {
            let i = index_of(start);
            g_score.set(i, 0);
            proof {
                dset@ = dset@.insert(i as int);
            }
        }
        let st = PathState {
            g_score,
            came_from: vec![None; 10000],
            open: Vec::new(),
            counter: 0,
            stamp: Ghost(Seq::new(10000, |i: int| 0)),
            clock: Ghost(0),
            dset,
            step,
        };
        proof {
            if in_bounds(start) {
                lemma_pidx(start);
            }
            assert forall|i: int| #[trigger] st.dset@.contains(i) <==> (0 <= i < 10000 && st.g_score@[i] != u32::MAX) by {
                if 0 <= i < 10000 && st.g_score@[i] != u32::MAX {
                    assert(i == pidx(start));
                }
            }
            assert forall|i: int| 0 <= i < 10000 implies #[trigger] st.link_ok(*ctx, start, i) by {
                assert(st.came_from@[i] == None::<Position>);
            }
            assert forall|i: int|
                0 <= i < 10000 && pos_of(i) != start implies ((#[trigger] st.came_from@[i] is Some) <==> st.g_score@[i]
                != u32::MAX) by {
                assert(st.came_from@[i] == None::<Position>);
                if st.g_score@[i] != u32::MAX {
                    assert(i == pidx(start));
                    lemma_pos_of(i);
                }
            }
            assert forall|i: int|
                0 <= i < 10000 && #[trigger] st.came_from@[i] is Some implies 1 <= st.stamp@[i] <= st.clock@ by {
                assert(st.came_from@[i] == None::<Position>);
            }
            assert forall|i: int| 0 <= i < 10000 implies (#[trigger] st.came_from@[i] matches Some(p) ==> st.g_score@[i]
                >= st.gv(start, p) + run_cost(*ctx, p, pos_of(i))) by {
                assert(st.came_from@[i] == None::<Position>);
            }
            assert forall|i: int| 0 <= i < 10000 implies (#[trigger] st.came_from@[i] matches Some(p) ==> astar_move(
                *ctx,
                p,
                pos_of(i),
            )) by {
                assert(st.came_from@[i] == None::<Position>);
            }
            assert forall|p: Position| #[trigger] st.reached(start, p) implies p == start by {
                if p != start {
                    lemma_pidx(p);
                    if in_bounds(start) {
                        lemma_pidx(start);
                    }
                }
            }
        }
        st
    }

    /// Best known cost of reaching `p` (0 for the start, `u32::MAX` if unknown).
    fn g_get(&self, start: Position, p: Position) -> (g: u32)
        requires
            self.g_score@.len() == 10000,
        ensures
            g == self.gv(start, p),
    {
        if p.x == start.x && p.y == start.y {
            0
        } else if p.x < 100 && p.y < 100 {
            self.g_score[index_of(p)]
        } else {
            u32::MAX
        }
    }

    /// Makes `pos` the predecessor of `node` with cost `new_g` when that
    /// improves on `node`'s best cost (the start is never improved).
    fn improve(&mut self, ctx: &SearchCtx, start: Position, pos: Position, node: Position, new_g: u32) -> (changed: bool)
        requires
            old(self).inv(*ctx, start),
            old(self).reached(start, pos),
            run_edge(*ctx, pos, node),
            in_bounds(node),
            new_g >= old(self).gv(start, pos),
            new_g <= old(self).step@ * (old(self).dset@.len() + 1),
        ensures
            final(self).inv(*ctx, start),
            final(self).open == old(self).open,
            final(self).counter == old(self).counter,
            final(self).step == old(self).step,
            final(self).dset@.len() >= old(self).dset@.len(),
            changed ==> final(self).reached(start, node) && final(self).gv(start, node) == new_g && new_g
                <= final(self).step@ * final(self).dset@.len(),
            !changed ==> *final(self) == *old(self),
            changed == improves(old(self).ptrack(), start, node, new_g),
            final(self).ptrack() == improve_effect(old(self).ptrack(), start, pos, node, new_g),
            forall|q: Position| q != node ==> final(self).gv(start, q) == old(self).gv(start, q),
            forall|q: Position| old(self).reached(start, q) ==> final(self).reached(start, q),
    {
        let i = index_of(node);
        proof {
            lemma_pidx(node);
        }
        if node.x == start.x && node.y == start.y {
            return false;
        }
        if new_g < self.g_score[i] {
            let ghost prev = *self;
            let ghost fresh = self.g_score@[i as int] == u32::MAX;
            proof {
                if fresh {
                    assert(!self.dset@.contains(i as int));
                    assert(self.dset@.subset_of(set_int_range(0, 10000)));
                    lemma_int_range(0, 10000);
                    assert(self.dset@.insert(i as int).subset_of(set_int_range(0, 10000)));
                    lemma_len_subset(self.dset@.insert(i as int), set_int_range(0, 10000));
                }
            }
            self.came_from.set(i, Some(pos));
            self.g_score.set(i, new_g);
            proof {
                self.clock@ = self.clock@ + 1;
                self.stamp@ = self.stamp@.update(i as int, self.clock@);
                if fresh {
                    self.dset@ = self.dset@.insert(i as int);
                }
                assert(self.dset@.len() >= prev.dset@.len());
                assert(pos != node);
                if pos != start {
                    lemma_pidx(pos);
                    assert(pidx(pos) != i);
                    assert(prev.came_from@[pidx(pos)] is Some);
                    assert(prev.stamp@[pidx(pos)] <= prev.clock@);
                }
                assert(self.gv(start, pos) == prev.gv(start, pos));
                assert(self.sv(start, pos) < self.stamp@[i as int]);
                assert forall|j: int| 0 <= j < 10000 implies #[trigger] self.link_ok(*ctx, start, j) by {
                    assert(prev.link_ok(*ctx, start, j));
                    lemma_pos_of(j);
                    if j != i {
                        if let Some(p) = self.came_from@[j] {
                            assert(prev.came_from@[j] == Some(p));
                            if p == node {
                                assert(prev.reached(start, p));
                                assert(prev.g_score@[i as int] != u32::MAX);
                                assert(self.gv(start, p) < prev.gv(start, p));
                            } else if p != start {
                                assert(prev.reached(start, p));
                                lemma_pidx(p);
                                assert(pidx(p) != i);
                                assert(self.gv(start, p) == prev.gv(start, p));
                                assert(self.sv(start, p) == prev.sv(start, p));
                            }
                        }
                    } else {
                        assert(pos_of(j) == node);
                        assert(self.came_from@[j] == Some(pos));
                    }
                }
                assert forall|j: int| #[trigger] self.dset@.contains(j) <==> (0 <= j < 10000 && self.g_score@[j] != u32::MAX) by {
                    assert(prev.dset@.contains(j) <==> (0 <= j < 10000 && prev.g_score@[j] != u32::MAX));
                }
                assert forall|j: int|
                    0 <= j < 10000 && pos_of(j) != start implies ((#[trigger] self.came_from@[j] is Some) <==> self.g_score@[j]
                    != u32::MAX) by {
                    if j != i {
                        assert(prev.came_from@[j] is Some <==> prev.g_score@[j] != u32::MAX);
                    }
                }
                assert forall|j: int|
                    0 <= j < 10000 && #[trigger] self.came_from@[j] is Some implies 1 <= self.stamp@[j] <= self.clock@ by {
                    if j != i {
                        assert(prev.came_from@[j] is Some);
                    }
                }
                assert(self.step@ * prev.dset@.len() <= self.step@ * self.dset@.len()) by (nonlinear_arith)
                    requires
                        self.step@ >= 0,
                        prev.dset@.len() <= self.dset@.len(),
                {
                }
                assert(new_g <= self.step@ * self.dset@.len()) by {
                    if fresh {
                        assert(self.dset@.len() == prev.dset@.len() + 1);
                    } else {
                        assert(prev.g_score@[i as int] <= self.step@ * prev.dset@.len());
                    }
                }
                assert forall|j: int|
                    0 <= j < 10000 && #[trigger] self.g_score@[j] != u32::MAX implies self.g_score@[j] <= self.step@
                    * self.dset@.len() by {
                    if j != i {
                        assert(prev.g_score@[j] <= self.step@ * prev.dset@.len());
                    }
                }
                assert forall|j: int|
                    0 <= j < self.open@.len() implies self.reached(start, #[trigger] self.open@[j].pos)
                    && self.open@[j].cost >= self.gv(start, self.open@[j].pos) && self.open@[j].cost <= self.step@
                    * self.dset@.len() by {
                    let q = prev.open@[j].pos;
                    assert(self.open@[j] == prev.open@[j]);
                    if q != start {
                        lemma_pidx(q);
                    }
                }
                assert forall|q: Position| q != node implies self.gv(start, q) == prev.gv(start, q) by {
                    if q != start && in_bounds(q) {
                        lemma_pidx(q);
                    }
                }
                assert forall|q: Position| prev.reached(start, q) implies self.reached(start, q) by {
                    if q != start && in_bounds(q) {
                        lemma_pidx(q);
                    }
                }
            }
            true
        } else {
            false
        }
    }

    /// Adds an entry to the open list.
    fn push_entry(&mut self, ctx: &SearchCtx, start: Position, entry: OpenEntry)
        requires
            old(self).inv(*ctx, start),
            old(self).reached(start, entry.pos),
            entry.cost >= old(self).gv(start, entry.pos),
            entry.cost <= old(self).step@ * old(self).dset@.len(),
            old(self).counter < u64::MAX,
        ensures
            final(self).inv(*ctx, start),
            final(self).counter == old(self).counter + 1,
            final(self).open@ == old(self).open@.push(entry),
            final(self).g_score == old(self).g_score,
            final(self).came_from == old(self).came_from,
            final(self).stamp == old(self).stamp,
            final(self).clock == old(self).clock,
            final(self).dset == old(self).dset,
            final(self).step == old(self).step,
    {
        let ghost prev = *self;
        self.counter = self.counter + 1;
        self.open.push(entry);
        proof {
            assert forall|j: int|
                0 <= j < self.open@.len() implies self.reached(start, #[trigger] self.open@[j].pos)
                && self.open@[j].cost >= self.gv(start, self.open@[j].pos) && self.open@[j].cost <= self.step@
                * self.dset@.len() by {
                if j < prev.open@.len() {
                    assert(self.open@[j] == prev.open@[j]);
                }
            }
            assert forall|i: int| 0 <= i < 10000 implies #[trigger] self.link_ok(*ctx, start, i) by {
                assert(prev.link_ok(*ctx, start, i));
            }
        }
    }

    /// Takes the first entry off the open list.
    fn pop_entry(&mut self, ctx: &SearchCtx, start: Position) -> (e: OpenEntry)
        requires
            old(self).inv(*ctx, start),
            old(self).open@.len() > 0,
        ensures
            final(self).inv(*ctx, start),
            final(self).open@.len() == old(self).open@.len() - 1,
            final(self).counter == old(self).counter,
            final(self).step == old(self).step,
            final(self).dset == old(self).dset,
            final(self).reached(start, e.pos),
            old(self).open@.contains(e),
            forall|k: int| 0 <= k < final(self).open@.len() ==> old(self).open@.contains(#[trigger] final(self).open@[k]),
            e.cost >= final(self).gv(start, e.pos),
            e.cost <= final(self).step@ * final(self).dset@.len(),
            final(self).g_score@ == old(self).g_score@,
            final(self).came_from@ == old(self).came_from@,
            exists|k: int|
                0 <= k < old(self).open@.len() && old(self).open@[k] == e && final(self).open@ == old(self).open@.remove(k),
            forall|k: int| 0 <= k < old(self).open@.len() ==> open_before(e, #[trigger] old(self).open@[k]),
    {
        let ghost a = *self;
        let e = pop_open(&mut self.open);
        proof {
            assert forall|j: int| 0 <= j < self.open@.len() implies self.reached(start, #[trigger] self.open@[j].pos)
                && self.open@[j].cost >= self.gv(start, self.open@[j].pos) && self.open@[j].cost <= self.step@
                * self.dset@.len() by {
                let x = self.open@[j];
                assert(a.open@.contains(x));
                let k = choose|k: int| 0 <= k < a.open@.len() && a.open@[k] == x;
                assert(a.reached(start, a.open@[k].pos));
            }
            assert forall|i: int| 0 <= i < 10000 implies #[trigger] self.link_ok(*ctx, start, i) by {
                assert(a.link_ok(*ctx, start, i));
            }
            let k = choose|k: int| 0 <= k < a.open@.len() && a.open@[k] == e;
            assert(a.reached(start, a.open@[k].pos));
        }
        e
    }

    /// Follows predecessors back from the reached `target` to `start` and
    /// returns the walk from `start`, every skipped tile filled in.
    #[verifier::rlimit(40)]
    fn reconstruct(&self, ctx: &SearchCtx, start: Position, target: Position) -> (path: Vec<Position>)
        requires
            self.inv(*ctx, start),
            ctx.wf(),
            self.reached(start, target),
        ensures
            valid_walk(*ctx, start, path@),
            target != start ==> path@.len() > 0 && path@.last() == target,
            target == start ==> path@.len() == 0,
            self.cost_links(*ctx, start) ==> path_cost(*ctx, path@) <= self.gv(start, target),
            self.astar_links(*ctx) ==> astar_walk(*ctx, start, path@),
    {
        let mut nodes: Vec<Position> = Vec::new();
        let mut curr = target;
        let ghost links = self.cost_links(*ctx, start);
        while curr.x != start.x || curr.y != start.y
            invariant
                self.inv(*ctx, start),
                links == self.cost_links(*ctx, start),
                forall|k: int|
                    0 <= k < nodes@.len() ==> #[trigger] nodes@[k] != start && in_bounds(nodes@[k]),
                forall|k: int|
                    0 <= k < nodes@.len() - 1 ==> self.came_from@[pidx(#[trigger] nodes@[k])] == Some(nodes@[k + 1]),
                nodes@.len() > 0 ==> self.came_from@[pidx(nodes@.last())] == Some(curr),
                self.reached(start, curr),
                forall|k: int| 0 <= k < nodes@.len() - 1 ==> run_edge(*ctx, nodes@[k + 1], #[trigger] nodes@[k]),
                nodes@.len() > 0 ==> run_edge(*ctx, curr, nodes@.last()),
                nodes@.len() > 0 ==> nodes@[0] == target,
                nodes@.len() == 0 ==> curr == target,
                target == start ==> nodes@.len() == 0,
            decreases self.gv(start, curr), self.sv(start, curr),
        {
            let i = index_of(curr);
            proof {
                lemma_pidx(curr);
                lemma_pos_of(i as int);
                assert(self.link_ok(*ctx, start, i as int));
                assert(self.came_from@[i as int] is Some);
            }
            let ghost prev = nodes@;
            nodes.push(curr);
            let p = self.came_from[i].unwrap();
            proof {
                assert(self.came_from@[i as int] == Some(p));
                assert forall|m: int|
                    0 <= m < nodes@.len() - 1 implies self.came_from@[pidx(#[trigger] nodes@[m])] == Some(nodes@[m + 1]) by {
                    if m < prev.len() - 1 {
                        assert(nodes@[m] == prev[m] && nodes@[m + 1] == prev[m + 1]);
                    } else {
                        assert(nodes@[m] == prev.last());
                    }
                }
                assert forall|m: int| 0 <= m < nodes@.len() implies #[trigger] nodes@[m] != start && in_bounds(nodes@[m]) by {
                    if m < prev.len() {
                        assert(nodes@[m] == prev[m]);
                    }
                }
                assert forall|m: int| 0 <= m < nodes@.len() - 1 implies run_edge(*ctx, nodes@[m + 1], #[trigger] nodes@[m]) by {
                    if m < prev.len() - 1 {
                        assert(nodes@[m] == prev[m] && nodes@[m + 1] == prev[m + 1]);
                    }
                }
                if p != start {
                    lemma_pidx(p);
                    lemma_pos_of(pidx(p));
                    assert(self.came_from@[pidx(p)] is Some);
                    assert(self.link_ok(*ctx, start, pidx(p)));
                }
            }
            curr = p;
        }
        let mut path: Vec<Position> = Vec::new();
        let mut prev = start;
        let mut k: usize = nodes.len();
        while k > 0
            invariant
                ctx.wf(),
                self.inv(*ctx, start),
                links == self.cost_links(*ctx, start),
                forall|m: int|
                    0 <= m < nodes@.len() ==> #[trigger] nodes@[m] != start && in_bounds(nodes@[m]),
                forall|m: int|
                    0 <= m < nodes@.len() - 1 ==> self.came_from@[pidx(#[trigger] nodes@[m])] == Some(nodes@[m + 1]),
                nodes@.len() > 0 ==> self.came_from@[pidx(nodes@.last())] == Some(start),
                links ==> path_cost(*ctx, path@) <= self.gv(start, prev),
                self.astar_links(*ctx) ==> astar_walk(*ctx, start, path@),
                k <= nodes@.len(),
                forall|m: int| 0 <= m < nodes@.len() - 1 ==> run_edge(*ctx, nodes@[m + 1], #[trigger] nodes@[m]),
                nodes@.len() > 0 ==> run_edge(*ctx, start, nodes@.last()),
                k < nodes@.len() ==> prev == nodes@[k as int],
                k == nodes@.len() ==> prev == start,
                k == nodes@.len() ==> path@.len() == 0,
                valid_walk(*ctx, start, path@),
                walk_end(start, path@) == prev,
            decreases k,
        {
            k -= 1;
            let node = nodes[k];
            let ghost before = path@;
            interpolate(ctx, &mut path, Ghost(start), prev, node);
            proof {
                if links {
                    assert(self.came_from@[pidx(node)] == Some(prev)) by {
                        if k + 1 < nodes@.len() {
                            assert(prev == nodes@[k + 1]);
                        }
                    }
                    lemma_pidx(node);
                    assert(self.came_from@[pidx(node)] matches Some(q) ==> self.g_score@[pidx(node)] >= self.gv(start, q)
                        + run_cost(*ctx, q, pos_of(pidx(node))));
                }
                if self.astar_links(*ctx) {
                    assert(self.came_from@[pidx(node)] == Some(prev)) by {
                        if k + 1 < nodes@.len() {
                            assert(prev == nodes@[k + 1]);
                        }
                    }
                    lemma_pidx(node);
                    assert(astar_move(*ctx, prev, node));
                    assert(path@ == before.push(node));
                    assert forall|m: int| 0 <= m < path@.len() - 1 implies astar_move(*ctx, #[trigger] path@[m], path@[m + 1]) by {
                        if m < before.len() - 1 {
                            assert(path@[m] == before[m] && path@[m + 1] == before[m + 1]);
                        } else {
                            assert(path@[m] == before.last());
                        }
                    }
                    if before.len() == 0 {
                        assert(path@[0] == node);
                    }
                }
            }
            prev = node;
        }
        proof {
            if nodes@.len() > 0 {
                assert(prev == nodes@[0]);
                assert(path@.len() > 0) by {
                    if path@.len() == 0 {
                        assert(prev == start);
                        assert(run_edge(*ctx, start, target) || nodes@.len() > 1);
                    }
                }
            }
        }
        path
    }
}

/// Appends to a walk ending at `from` the tiles of the run from `from` to
/// `to`, ending at `to`.
fn interpolate(ctx: &SearchCtx, path: &mut Vec<Position>, start: Ghost<Position>, from: Position, to: Position)
    requires
        ctx.wf(),
        run_edge(*ctx, from, to),
        valid_walk(*ctx, start@, old(path)@),
        walk_end(start@, old(path)@) == from,
    ensures
        valid_walk(*ctx, start@, final(path)@),
        walk_end(start@, final(path)@) == to,
        final(path)@.len() > old(path)@.len(),
        path_cost(*ctx, final(path)@) == path_cost(*ctx, old(path)@) + run_cost(*ctx, from, to),
        cheb(from, to) == 1 ==> final(path)@ == old(path)@.push(to),
{
    let ghost k = cheb(from, to);
    let ghost dxs = sign(to.x - from.x);
    let ghost dys = sign(to.y - from.y);
    let dx: i32 = if to.x > from.x { 1 } else if to.x < from.x { -1 } else { 0 };
    let dy: i32 = if to.y > from.y { 1 } else if to.y < from.y { -1 } else { 0 };
    let mut step_x: i32 = from.x as i32;
    let mut step_y: i32 = from.y as i32;
    let ghost mut j: int = 0;
    let ghost len0 = path@.len();
    while step_x != to.x as i32 || step_y != to.y as i32
        invariant
            ctx.wf(),
            run_edge(*ctx, from, to),
            k == cheb(from, to),
            dx == dxs,
            dy == dys,
            dxs == sign(to.x - from.x),
            dys == sign(to.y - from.y),
            0 <= j <= k,
            step_x == ray(from.x as int, dxs, j),
            step_y == ray(from.y as int, dys, j),
            valid_walk(*ctx, start@, path@),
            walk_end(start@, path@) == (Position { x: step_x as u8, y: step_y as u8 }),
            path@.len() == len0 + j,
            len0 == old(path)@.len(),
            path_cost(*ctx, path@) == path_cost(*ctx, old(path)@) + run_sum(*ctx, from, dxs, dys, j),
            forall|m: int| 0 <= m < len0 ==> #[trigger] path@[m] == old(path)@[m],
        decreases k - j,
    {
        proof {
            if j == k {
                assert(step_x == to.x && step_y == to.y);
            }
            assert(run_passable(*ctx, from.x as int, from.y as int, dxs, dys, 1, k));
            assert(ctx.passable(ray(from.x as int, dxs, j + 1), ray(from.y as int, dys, j + 1)));
        }
        let ghost before = path@;
        let ghost cur = Position { x: step_x as u8, y: step_y as u8 };
        step_x = step_x + dx;
        step_y = step_y + dy;
        proof {
            j = j + 1;
        }
        let next = Position { x: step_x as u8, y: step_y as u8 };
        path.push(next);
        proof {
            lemma_path_cost_push(*ctx, before, next);
            assert(next == run_tile(from, dxs, dys, j));
            assert forall|m: int| 0 <= m < len0 implies #[trigger] path@[m] == old(path)@[m] by {
                assert(path@[m] == before[m]);
            }
            assert(adjacent(cur, next));
            assert forall|m: int| 0 <= m < path@.len() - 1 implies adjacent(#[trigger] path@[m], path@[m + 1]) by {
                if m < before.len() - 1 {
                    assert(path@[m] == before[m] && path@[m + 1] == before[m + 1]);
                } else {
                    assert(path@[m] == before.last());
                }
            }
            assert forall|m: int| 0 <= m < path@.len() implies #[trigger] ctx.passable(path@[m].x as int, path@[m].y as int) by {
                if m < before.len() {
                    assert(path@[m] == before[m]);
                }
            }
            if before.len() == 0 {
                assert(adjacent(start@, path@[0]));
            }
        }
    }
    proof {
        if k == 1 {
            assert(path@ =~= old(path)@.push(to));
        }
    }
}

/// The operation count as reported: saturated to `u32`.
fn ops_u32(ops: u64) -> (r: u32)
    ensures
        r == (if ops > u32::MAX as u64 { u32::MAX as int } else { ops as int }),
{
    if ops > u32::MAX as u64 {
        u32::MAX
    } else {
        ops as u32
    }
}

/// The `k`-th neighbour direction of A*, clockwise from the top.
spec fn astar_dir(k: int) -> (int, int) {
    if k == 0 {
        (0, -1)
    } else if k == 1 {
        (1, -1)
    } else if k == 2 {
        (1, 0)
    } else if k == 3 {
        (1, 1)
    } else if k == 4 {
        (0, 1)
    } else if k == 5 {
        (-1, 1)
    } else if k == 6 {
        (-1, 0)
    } else {
        (-1, -1)
    }
}

/// One A* neighbour of `pos` (reached at `cost`) in direction `(dx, dy)`:
/// nothing off the map, past a blocked corner, or on an impassable tile;
/// otherwise, when it improves, the neighbour gets the new cost and
/// predecessor and an open entry.
spec fn astar_step(
    t: PathTrack,
    ctx: SearchCtx,
    goals: Seq<GoalSpec>,
    weight: u32,
    start: Position,
    pos: Position,
    cost: u32,
    dx: int,
    dy: int,
) -> PathTrack {
    let nx = pos.x + dx;
    let ny = pos.y + dy;
    if !(0 <= nx < 100 && 0 <= ny < 100) {
        t
    } else if dx != 0 && dy != 0 && (corner_blocks(ctx, pos.x as int, ny) || corner_blocks(ctx, nx, pos.y as int)) {
        t
    } else {
        match ctx.spec_look(nx, ny) {
            None => t,
            Some(c) => {
                let neighbor = Position { x: nx as u8, y: ny as u8 };
                let g = (cost + c) as u32;
                if improves(t, start, neighbor, g) {
                    let t1 = improve_effect(t, start, pos, neighbor, g);
                    (
                        t1.0,
                        t1.1,
                        t1.2.push(
                            OpenEntry {
                                est: spec_estimate(g, min_goal_dist(goals, neighbor) as u32, weight) as u64,
                                cost: g,
                                pos: neighbor,
                                dx: 0,
                                dy: 0,
                                id: (t.3 + 1) as u64,
                            },
                        ),
                        (t.3 + 1) as u64,
                    )
                } else {
                    t
                }
            },
        }
    }
}

/// The first `n` neighbour steps of an A* expansion of `pos`.
spec fn astar_steps(
    t: PathTrack,
    ctx: SearchCtx,
    goals: Seq<GoalSpec>,
    weight: u32,
    start: Position,
    pos: Position,
    cost: u32,
    n: nat,
) -> PathTrack
    decreases n,
{
    if n == 0 {
        t
    } else {
        let d = astar_dir(n - 1);
        astar_step(astar_steps(t, ctx, goals, weight, start, pos, cost, (n - 1) as nat), ctx, goals, weight, start, pos, cost, d.0, d.1)
    }
}

impl PathState {
    /// Expands the tile `pos`, reached at `cost`, for A*: every passable
    /// on-map neighbour not behind a blocked corner is improved and opened.
    fn expand_astar(
        &mut self,
        ctx: &SearchCtx,
        goals: &Vec<GoalSpec>,
        weight: u32,
        start: Position,
        pos: Position,
        cost: u32,
    )
        requires
            old(self).inv(*ctx, start),
            old(self).step@ == TILE_BOUND,
            ctx.wf(),
            old(self).reached(start, pos),
            cost == old(self).gv(start, pos),
            cost <= TILE_BOUND * old(self).dset@.len(),
            old(self).counter < u64::MAX - 8,
            goals@.len() > 0,
        ensures
            final(self).inv(*ctx, start),
            final(self).step == old(self).step,
            old(self).counter <= final(self).counter <= old(self).counter + 8,
            final(self).ptrack() == astar_steps(old(self).ptrack(), *ctx, goals@, weight, start, pos, cost, 8),
            forall|n: Position|
                #[trigger] astar_move(*ctx, pos, n) ==> final(self).reached(start, n) && final(self).gv(start, n)
                    <= cost + step_cost(*ctx, n),
            forall|q: Position| #[trigger] final(self).gv(start, q) <= old(self).gv(start, q),
            forall|q: Position| #[trigger] old(self).reached(start, q) ==> final(self).reached(start, q),
            old(self).cost_links(*ctx, start) ==> final(self).cost_links(*ctx, start),
            old(self).astar_links(*ctx) ==> final(self).astar_links(*ctx),
            est_ok(old(self).open@, goals@, weight) ==> est_ok(final(self).open@, goals@, weight),
            final(self).open@.len() >= old(self).open@.len(),
            forall|j: int| 0 <= j < old(self).open@.len() ==> #[trigger] final(self).open@[j] == old(self).open@[j],
            forall|q: Position|
                #[trigger] final(self).gv(start, q) != old(self).gv(start, q) ==> has_entry(
                    final(self).open@,
                    q,
                    final(self).gv(start, q),
                ),
    {
        let dirs: [(i32, i32); 8] = [(0, -1), (1, -1), (1, 0), (1, 1), (0, 1), (-1, 1), (-1, 0), (-1, -1)];
        assert(forall|k: int| 0 <= k < 8 ==> (#[trigger] dirs@[k]).0 == astar_dir(k).0 && dirs@[k].1 == astar_dir(k).1);
        let mut d: usize = 0;
        while d < 8
            invariant
                self.inv(*ctx, start),
                self.step@ == TILE_BOUND,
                ctx.wf(),
                self.reached(start, pos),
                cost == self.gv(start, pos),
                cost <= TILE_BOUND * self.dset@.len(),
                old(self).counter <= self.counter <= old(self).counter + d,
                d <= 8,
                old(self).counter < u64::MAX - 8,
                goals@.len() > 0,
                forall|k: int|
                    0 <= k < 8 ==> -1 <= (#[trigger] dirs@[k]).0 <= 1 && -1 <= dirs@[k].1 <= 1 && (dirs@[k].0 != 0
                        || dirs@[k].1 != 0),
                forall|k: int| 0 <= k < 8 ==> (#[trigger] dirs@[k]).0 == astar_dir(k).0 && dirs@[k].1 == astar_dir(k).1,
                self.ptrack() == astar_steps(old(self).ptrack(), *ctx, goals@, weight, start, pos, cost, d as nat),
                forall|n: Position|
                    #[trigger] astar_move(*ctx, pos, n) && dir_rank(n.x - pos.x, n.y - pos.y) < d ==> self.reached(
                        start,
                        n,
                    ) && self.gv(start, n) <= cost + step_cost(*ctx, n),
                forall|q: Position| #[trigger] self.gv(start, q) <= old(self).gv(start, q),
                forall|q: Position| #[trigger] old(self).reached(start, q) ==> self.reached(start, q),
                old(self).cost_links(*ctx, start) ==> self.cost_links(*ctx, start),
                old(self).astar_links(*ctx) ==> self.astar_links(*ctx),
                est_ok(old(self).open@, goals@, weight) ==> est_ok(self.open@, goals@, weight),
                self.open@.len() >= old(self).open@.len(),
                forall|j: int| 0 <= j < old(self).open@.len() ==> #[trigger] self.open@[j] == old(self).open@[j],
                forall|q: Position|
                    #[trigger] self.gv(start, q) != old(self).gv(start, q) ==> has_entry(self.open@, q, self.gv(start, q)),
            decreases 8 - d,
        {
            let (dx, dy) = dirs[d];
            let ghost d0 = d as int;
            proof {
                lemma_rank_dir(d0);
                assert forall|n: Position|
                    #[trigger] astar_move(*ctx, pos, n) && dir_rank(n.x - pos.x, n.y - pos.y) == d0 implies n.x
                    == pos.x + dx && n.y == pos.y + dy by {
                    lemma_rank(n.x - pos.x, n.y - pos.y, d0);
                }
                assert forall|n: Position|
                    #[trigger] astar_move(*ctx, pos, n) && dir_rank(n.x - pos.x, n.y - pos.y) < d0 + 1 && dir_rank(
                        n.x - pos.x,
                        n.y - pos.y,
                    ) != d0 implies self.reached(start, n) && self.gv(start, n) <= cost + step_cost(*ctx, n) by {
                }
            }
            let ghost before = self.ptrack();
            let ghost prev_state = *self;
            proof {
                assert(astar_steps(old(self).ptrack(), *ctx, goals@, weight, start, pos, cost, (d + 1) as nat)
                    == astar_step(before, *ctx, goals@, weight, start, pos, cost, dx as int, dy as int));
            }
            let nx = pos.x as i32 + dx;
            let ny = pos.y as i32 + dy;
            d += 1;
            if nx < 0 || nx >= 100 || ny < 0 || ny >= 100 {
                continue;
            }
            if dx != 0 && dy != 0 {
                let orth1_blocked = corner_blocked(ctx, pos.x, ny as u8);
                let orth2_blocked = corner_blocked(ctx, nx as u8, pos.y);
                if orth1_blocked || orth2_blocked {
                    continue;
                }
            }
            let neighbor = Position { x: nx as u8, y: ny as u8 };
            let tile_cost = match ctx.look(neighbor.x, neighbor.y) {
                Some(c) => c,
                None => continue,
            };
            proof {
                lemma_step_edge(*ctx, pos, neighbor, dx as int, dy as int);
            }
            let tentative_g = cost + tile_cost;
            proof {
                lemma_pidx(neighbor);
            }
            let ghost pre_improve = *self;
            let changed = self.improve(ctx, start, pos, neighbor, tentative_g);
            proof {
                if changed && old(self).astar_links(*ctx) {
                    let ni = pidx(neighbor);
                    assert(astar_move(*ctx, pos, neighbor));
                    assert forall|i: int| 0 <= i < 10000 implies (#[trigger] self.came_from@[i] matches Some(p)
                        ==> astar_move(*ctx, p, pos_of(i))) by {
                        if i == ni {
                            assert(pos_of(i) == neighbor);
                        } else {
                            assert(self.came_from@[i] == pre_improve.came_from@[i]);
                        }
                    }
                }
                if changed && old(self).cost_links(*ctx, start) {
                    let ni = pidx(neighbor);
                    assert(adjacent(pos, neighbor));
                    assert(neighbor != pos);
                    lemma_run_cost_one(*ctx, pos, neighbor, dx as int, dy as int);
                    assert forall|i: int| 0 <= i < 10000 implies (#[trigger] self.came_from@[i] matches Some(p)
                        ==> self.g_score@[i] >= self.gv(start, p) + run_cost(*ctx, p, pos_of(i))) by {
                        if i == ni {
                            assert(pos_of(i) == neighbor);
                            assert(self.came_from@[i] == Some(pos));
                            assert(self.gv(start, pos) == pre_improve.gv(start, pos));
                        } else {
                            assert(self.came_from@[i] == pre_improve.came_from@[i]);
                            assert(self.g_score@[i] == pre_improve.g_score@[i]);
                            if let Some(p) = self.came_from@[i] {
                                if p != neighbor {
                                    assert(self.gv(start, p) == pre_improve.gv(start, p));
                                } else {
                                    assert(self.gv(start, p) <= pre_improve.gv(start, p));
                                }
                            }
                        }
                    }
                }
            }
            if changed {
                let h = goal_distance(goals, neighbor);
                proof {
                    lemma_min_goal_dist(goals@, neighbor);
                }
                let est = estimate(tentative_g, h, weight);
                let ghost mid = *self;
                let entry = OpenEntry { est, cost: tentative_g, pos: neighbor, dx: 0, dy: 0, id: self.counter + 1 };
                self.push_entry(ctx, start, entry);
                proof {
                    assert(self.open@[self.open@.len() - 1] == entry);
                    assert forall|q: Position|
                        #[trigger] self.gv(start, q) != old(self).gv(start, q) implies has_entry(
                        self.open@,
                        q,
                        self.gv(start, q),
                    ) by {
                        if q == neighbor {
                            assert(self.open@[self.open@.len() - 1].pos == q);
                        } else {
                            assert(mid.gv(start, q) == prev_state.gv(start, q));
                            lemma_has_entry_prefix(prev_state.open@, self.open@, q, self.gv(start, q));
                        }
                    }
                    assert forall|j: int| 0 <= j < old(self).open@.len() implies #[trigger] self.open@[j] == old(
                        self,
                    ).open@[j] by {
                        assert(self.open@[j] == prev_state.open@[j]);
                    }
                    if est_ok(old(self).open@, goals@, weight) {
                        assert forall|j: int| 0 <= j < self.open@.len() implies (#[trigger] self.open@[j]).est
                            == spec_estimate(self.open@[j].cost, min_goal_dist(goals@, self.open@[j].pos) as u32, weight) by {
                            if j < prev_state.open@.len() {
                                assert(self.open@[j] == prev_state.open@[j]);
                            }
                        }
                    }
                }
            } else {
                proof {
                    assert(self.reached(start, neighbor));
                }
            }
            proof {
                assert(self.reached(start, neighbor));
                assert(step_cost(*ctx, neighbor) == tile_cost);
                assert(self.gv(start, neighbor) <= tentative_g);
                assert forall|n: Position|
                    #[trigger] astar_move(*ctx, pos, n) && dir_rank(n.x - pos.x, n.y - pos.y) < d0 + 1 implies self.reached(
                    start,
                    n,
                ) && self.gv(start, n) <= cost + step_cost(*ctx, n) by {
                    if dir_rank(n.x - pos.x, n.y - pos.y) == d0 {
                        assert(n == neighbor);
                    } else {
                        assert(self.gv(start, n) <= prev_state.gv(start, n));
                    }
                }
                assert forall|q: Position| #[trigger] self.gv(start, q) <= old(self).gv(start, q) by {
                    assert(prev_state.gv(start, q) <= old(self).gv(start, q));
                }
            }
        }
    }
}

/// The cost links hold of any state with the same best costs and
/// predecessors.
proof fn lemma_cost_links_same(a: PathState, b: PathState, ctx: SearchCtx, start: Position)
    requires
        a.cost_links(ctx, start),
        b.g_score@ == a.g_score@,
        b.came_from@ == a.came_from@,
    ensures
        b.cost_links(ctx, start),
{
    assert forall|i: int| 0 <= i < 10000 implies (#[trigger] b.came_from@[i] matches Some(p) ==> b.g_score@[i]
        >= b.gv(start, p) + run_cost(ctx, p, pos_of(i))) by {
        assert(a.came_from@[i] == b.came_from@[i]);
        if let Some(p) = b.came_from@[i] {
            assert(a.gv(start, p) == b.gv(start, p));
        }
    }
}

/// Every open entry's estimate is its cost plus the weighted distance to
/// the nearest goal (see `spec_estimate`).
spec fn est_ok(open: Seq<OpenEntry>, goals: Seq<GoalSpec>, weight: u32) -> bool {
    forall|j: int|
        0 <= j < open.len() ==> (#[trigger] open[j]).est == spec_estimate(
            open[j].cost,
            min_goal_dist(goals, open[j].pos) as u32,
            weight,
        )
}

/// The options and goals under which A* returns a cheapest path: a
/// heuristic weight of 1000 thousandths, no fleeing, plain and swamp costs
/// of at least 1, and every goal of range 0.
pub open spec fn astar_exact(options: Option<&SearchPathOptions>, goals: Seq<GoalSpec>) -> bool {
    &&& raw_weight(options) == 1000
    &&& !options_flee(options)
    &&& raw_plain_cost(options) >= 1
    &&& raw_swamp_cost(options) >= 1
    &&& forall|i: int| 0 <= i < goals.len() ==> #[trigger] goals[i].range == 0
}

/// Tile `i` of the walk `w` from `start`: `start` itself for 0.
pub open spec fn walk_node(start: Position, w: Seq<Position>, i: int) -> Position {
    if i == 0 {
        start
    } else {
        w[i - 1]
    }
}

proof fn lemma_min_goal_dist_le(goals: Seq<GoalSpec>, p: Position, i: int)
    requires
        0 <= i < goals.len(),
    ensures
        min_goal_dist(goals, p) <= cheb(p, goals[i].pos),
    decreases goals.len(),
{
    if i < goals.len() - 1 {
        lemma_min_goal_dist_le(goals.drop_last(), p, i);
    }
}

proof fn lemma_min_goal_dist_nonneg(goals: Seq<GoalSpec>, p: Position)
    ensures
        min_goal_dist(goals, p) >= 0,
    decreases goals.len(),
{
    if goals.len() > 0 {
        lemma_min_goal_dist_nonneg(goals.drop_last(), p);
    }
}

/// Along an A* walk whose tiles each cost at least 1, the walk from tile
/// `j` to its end is at least as long as the distance between them and
/// costs at least as much as its number of steps.
proof fn lemma_walk_tail(ctx: SearchCtx, start: Position, w: Seq<Position>, j: int)
    requires
        astar_walk(ctx, start, w),
        ctx.plain_cost >= 1,
        ctx.swamp_cost >= 1,
        0 <= j <= w.len(),
    ensures
        cheb(walk_node(start, w, j), walk_end(start, w)) <= w.len() - j,
        path_cost(ctx, w) - path_cost(ctx, w.take(j)) >= w.len() - j,
    decreases w.len(),
{
    if j == w.len() {
        assert(w.take(j) =~= w);
        if j > 0 {
            assert(walk_node(start, w, j) == w.last());
        }
    } else {
        let w0 = w.drop_last();
        assert(astar_walk(ctx, start, w0)) by {
            assert forall|k: int| 0 <= k < w0.len() - 1 implies astar_move(ctx, #[trigger] w0[k], w0[k + 1]) by {
                assert(w0[k] == w[k] && w0[k + 1] == w[k + 1]);
            }
            if w0.len() > 0 {
                assert(w0[0] == w[0]);
            }
        }
        lemma_walk_tail(ctx, start, w0, j);
        assert(w0.take(j) =~= w.take(j));
        let prev = walk_end(start, w0);
        let last = w.last();
        assert(astar_move(ctx, prev, last)) by {
            if w0.len() > 0 {
                assert(w[w.len() - 2] == w0.last());
            }
        }
        if j > 0 {
            assert(walk_node(start, w0, j) == walk_node(start, w, j));
        }
        assert(path_cost(ctx, w) == path_cost(ctx, w0) + step_cost(ctx, last)) by {
            assert(w0 =~= w.drop_last());
        }
        assert(ctx.passable(last.x as int, last.y as int));
        assert(step_cost(ctx, last) >= 1);
        let a = walk_node(start, w, j);
        assert(cheb(a, last) <= cheb(a, prev) + cheb(prev, last));
    }
}

/// Whether the walk `w` from `start` meets the A* frontier by tile `i`:
/// some tile up to `i` has an open entry at a best cost no greater than
/// the walk's cost to it, or tile `i` was expanded at such a cost.
spec fn frontier_at(
    st: PathState,
    ctx: SearchCtx,
    goals: Seq<GoalSpec>,
    start: Position,
    w: Seq<Position>,
    i: int,
) -> bool {
    (exists|j: int|
        0 <= j <= i && has_entry(st.open@, #[trigger] walk_node(start, w, j), st.gv(start, walk_node(start, w, j)))
            && st.gv(start, walk_node(start, w, j)) <= path_cost(ctx, w.take(j))) || (astar_expanded(
        st,
        ctx,
        goals,
        false,
        start,
        walk_node(start, w, i),
    ) && st.gv(start, walk_node(start, w, i)) <= path_cost(ctx, w.take(i)))
}

proof fn lemma_astar_frontier(
    st: PathState,
    ctx: SearchCtx,
    goals: Seq<GoalSpec>,
    start: Position,
    w: Seq<Position>,
    i: int,
)
    requires
        astar_all_settled(st, ctx, goals, false, start),
        astar_walk(ctx, start, w),
        0 <= i <= w.len(),
    ensures
        frontier_at(st, ctx, goals, start, w, i),
    decreases i,
{
    let n = walk_node(start, w, i);
    if i == 0 {
        assert(w.take(0) =~= Seq::<Position>::empty());
        assert(st.reached(start, start));
        assert(astar_settled(st, ctx, goals, false, start, start));
        if has_entry(st.open@, n, st.gv(start, n)) {
            assert(0 <= 0 <= i && has_entry(st.open@, walk_node(start, w, 0), st.gv(start, walk_node(start, w, 0))));
        }
    } else {
        lemma_astar_frontier(st, ctx, goals, start, w, i - 1);
        let m = walk_node(start, w, i - 1);
        if astar_expanded(st, ctx, goals, false, start, m) && st.gv(start, m) <= path_cost(ctx, w.take(i - 1)) {
            assert(astar_move(ctx, m, n)) by {
                if i >= 2 {
                    assert(astar_move(ctx, w[i - 2], w[i - 1]));
                }
            }
            assert(st.reached(start, n));
            assert(w.take(i) =~= w.take(i - 1).push(w[i - 1]));
            lemma_path_cost_push(ctx, w.take(i - 1), w[i - 1]);
            assert(st.gv(start, n) <= path_cost(ctx, w.take(i)));
            assert(astar_settled(st, ctx, goals, false, start, n));
            if has_entry(st.open@, n, st.gv(start, n)) {
                assert(0 <= i <= i && has_entry(st.open@, walk_node(start, w, i), st.gv(start, walk_node(start, w, i))));
            }
        } else {
            let j = choose|j: int|
                0 <= j <= i - 1 && has_entry(st.open@, #[trigger] walk_node(start, w, j), st.gv(start, walk_node(start, w, j)))
                    && st.gv(start, walk_node(start, w, j)) <= path_cost(ctx, w.take(j));
            assert(0 <= j <= i);
        }
    }
}

/// When every reached tile is settled and the open entries' estimates are
/// exact, some open entry's estimate is at most 1000 times the cost of any
/// A* walk from `start` to a goal of range 0.
proof fn lemma_astar_bound(
    st: PathState,
    ctx: SearchCtx,
    goals: Seq<GoalSpec>,
    start: Position,
    w: Seq<Position>,
)
    requires
        astar_all_settled(st, ctx, goals, false, start),
        est_ok(st.open@, goals, 1000),
        astar_walk(ctx, start, w),
        at_goal(goals, false, walk_end(start, w)),
        forall|i: int| 0 <= i < goals.len() ==> #[trigger] goals[i].range == 0,
        ctx.plain_cost >= 1,
        ctx.swamp_cost >= 1,
    ensures
        exists|m: int| 0 <= m < st.open@.len() && (#[trigger] st.open@[m]).est <= 1000 * path_cost(ctx, w),
{
    let k = w.len() as int;
    lemma_astar_frontier(st, ctx, goals, start, w, k);
    assert(walk_node(start, w, k) == walk_end(start, w));
    assert(w.take(k) =~= w);
    let j = choose|j: int|
        0 <= j <= k && has_entry(st.open@, #[trigger] walk_node(start, w, j), st.gv(start, walk_node(start, w, j)))
            && st.gv(start, walk_node(start, w, j)) <= path_cost(ctx, w.take(j));
    let nj = walk_node(start, w, j);
    let m = choose|m: int| 0 <= m < st.open@.len() && (#[trigger] st.open@[m]).pos == nj && st.open@[m].cost == st.gv(
        start,
        nj,
    );
    let gi = choose|gi: int| 0 <= gi < goals.len() && cheb(walk_end(start, w), #[trigger] goals[gi].pos) <= goals[gi].range;
    assert(goals[gi].range == 0);
    lemma_min_goal_dist_le(goals, nj, gi);
    lemma_min_goal_dist_nonneg(goals, nj);
    lemma_walk_tail(ctx, start, w, j);
    let e = walk_end(start, w);
    assert(cheb(nj, goals[gi].pos) <= cheb(nj, e) + cheb(e, goals[gi].pos));
    let h = min_goal_dist(goals, nj);
    let d = path_cost(ctx, w);
    let pj = path_cost(ctx, w.take(j));
    assert(h <= d - pj);
    let c = st.open@[m].cost as int;
    assert(c <= pj);
    assert(h as u32 as int == h) by {
        lemma_min_goal_dist(goals, nj);
    }
    assert(st.open@[m].est == c * 1000 + h * 1000);
    assert(c * 1000 + h * 1000 <= 1000 * d) by (nonlinear_arith)
        requires
            c + h <= d,
    ;
}

/// A reached tile was expanded at its best cost for A*: it does not count
/// as arrived, and every A* move from it leads to a reached tile whose best
/// cost is at most this tile's plus the cost of entering it.
spec fn astar_expanded(st: PathState, ctx: SearchCtx, goals: Seq<GoalSpec>, flee: bool, start: Position, p: Position) -> bool {
    !at_goal(goals, flee, p) && forall|n: Position|
        #[trigger] astar_move(ctx, p, n) ==> st.reached(start, n) && st.gv(start, n) <= st.gv(start, p) + step_cost(
            ctx,
            n,
        )
}

/// A reached tile is settled for A*: it still has an open entry at its
/// best cost, or it was expanded.
spec fn astar_settled(st: PathState, ctx: SearchCtx, goals: Seq<GoalSpec>, flee: bool, start: Position, p: Position) -> bool {
    has_entry(st.open@, p, st.gv(start, p)) || astar_expanded(st, ctx, goals, flee, start, p)
}

/// Every reached tile is settled.
spec fn astar_all_settled(st: PathState, ctx: SearchCtx, goals: Seq<GoalSpec>, flee: bool, start: Position) -> bool {
    forall|p: Position| #[trigger] st.reached(start, p) ==> astar_settled(st, ctx, goals, flee, start, p)
}

/// Taking entry `k` off the open list unsettles at most the tile of that
/// entry, and only when the entry holds its best cost.
proof fn lemma_astar_pop(
    a: PathState,
    b: PathState,
    k: int,
    ctx: SearchCtx,
    goals: Seq<GoalSpec>,
    flee: bool,
    start: Position,
)
    requires
        astar_all_settled(a, ctx, goals, flee, start),
        0 <= k < a.open@.len(),
        b.open@ == a.open@.remove(k),
        b.g_score@ == a.g_score@,
    ensures
        forall|p: Position|
            #[trigger] b.reached(start, p) && !(p == a.open@[k].pos && a.open@[k].cost == b.gv(start, p))
                ==> astar_settled(b, ctx, goals, flee, start, p),
{
    assert forall|p: Position|
        #[trigger] b.reached(start, p) && !(p == a.open@[k].pos && a.open@[k].cost == b.gv(start, p))
            implies astar_settled(b, ctx, goals, flee, start, p) by {
        assert(a.reached(start, p));
        assert(a.gv(start, p) == b.gv(start, p));
        assert(astar_settled(a, ctx, goals, flee, start, p));
        if has_entry(a.open@, p, a.gv(start, p)) {
            lemma_has_entry_remove(a.open@, k, p, a.gv(start, p));
        } else {
            assert forall|n: Position| #[trigger] astar_move(ctx, p, n) implies b.reached(start, n) && b.gv(start, n)
                <= b.gv(start, p) + step_cost(ctx, n) by {
                assert(a.reached(start, n));
                assert(a.gv(start, n) == b.gv(start, n));
            }
        }
    }
}

/// After expanding `pos`, every reached tile is settled again.
proof fn lemma_astar_expand(
    a: PathState,
    b: PathState,
    ctx: SearchCtx,
    goals: Seq<GoalSpec>,
    flee: bool,
    start: Position,
    pos: Position,
)
    requires
        forall|p: Position| #[trigger] a.reached(start, p) && p != pos ==> astar_settled(a, ctx, goals, flee, start, p),
        !at_goal(goals, flee, pos),
        forall|n: Position|
            #[trigger] astar_move(ctx, pos, n) ==> b.reached(start, n) && b.gv(start, n) <= a.gv(start, pos)
                + step_cost(ctx, n),
        forall|q: Position| #[trigger] a.reached(start, q) ==> b.reached(start, q),
        forall|q: Position| #[trigger] b.gv(start, q) <= a.gv(start, q),
        b.open@.len() >= a.open@.len(),
        forall|j: int| 0 <= j < a.open@.len() ==> #[trigger] b.open@[j] == a.open@[j],
        forall|q: Position| #[trigger] b.gv(start, q) != a.gv(start, q) ==> has_entry(b.open@, q, b.gv(start, q)),
    ensures
        astar_all_settled(b, ctx, goals, flee, start),
{
    assert forall|p: Position| #[trigger] b.reached(start, p) implies astar_settled(b, ctx, goals, flee, start, p) by {
        if b.gv(start, p) != a.gv(start, p) {
        } else if p == pos {
            assert(astar_expanded(b, ctx, goals, flee, start, p));
        } else {
            assert(a.reached(start, p));
            assert(astar_settled(a, ctx, goals, flee, start, p));
            if has_entry(a.open@, p, a.gv(start, p)) {
                lemma_has_entry_prefix(a.open@, b.open@, p, a.gv(start, p));
            } else {
                assert forall|n: Position| #[trigger] astar_move(ctx, p, n) implies b.reached(start, n) && b.gv(
                    start,
                    n,
                ) <= b.gv(start, p) + step_cost(ctx, n) by {
                    assert(a.reached(start, n));
                    assert(b.gv(start, n) <= a.gv(start, n));
                }
            }
        }
    }
}

/// With the open list empty and every reached tile settled, every A* walk
/// from `start` ends on a reached tile that does not count as arrived.
proof fn lemma_astar_closed(
    st: PathState,
    ctx: SearchCtx,
    goals: Seq<GoalSpec>,
    flee: bool,
    start: Position,
    w: Seq<Position>,
)
    requires
        st.open@.len() == 0,
        astar_all_settled(st, ctx, goals, flee, start),
        astar_walk(ctx, start, w),
    ensures
        st.reached(start, walk_end(start, w)),
        !at_goal(goals, flee, walk_end(start, w)),
    decreases w.len(),
{
    if w.len() == 0 {
        assert(st.reached(start, start));
        assert(astar_settled(st, ctx, goals, flee, start, start));
    } else {
        let w0 = w.drop_last();
        assert(astar_walk(ctx, start, w0)) by {
            assert forall|k: int| 0 <= k < w0.len() - 1 implies astar_move(ctx, #[trigger] w0[k], w0[k + 1]) by {
                assert(w0[k] == w[k] && w0[k + 1] == w[k + 1]);
            }
            if w0.len() > 0 {
                assert(w0[0] == w[0]);
            }
        }
        lemma_astar_closed(st, ctx, goals, flee, start, w0);
        let prev = walk_end(start, w0);
        let last = w.last();
        assert(astar_move(ctx, prev, last)) by {
            if w0.len() > 0 {
                assert(w[w.len() - 2] == w0.last());
            }
        }
        assert(astar_settled(st, ctx, goals, flee, start, prev));
        assert(st.reached(start, last));
        assert(astar_settled(st, ctx, goals, flee, start, last));
    }
}

/// A* search from `start` to the goals `goal` stands for, over the options'
/// costs taken as given (defaults: plain 2, swamp 10, heuristic weight 1200
/// thousandths, 50000 operations). A goal argument that names no goal gives
/// an empty, incomplete result; a start that already counts as arrived
/// gives an empty, complete one.
///
/// Entries are taken from the open list by lowest estimate
/// `g * 1000 + distance * weight`, then lowest cost, then earliest
/// insertion. Diagonal moves may not cut past a wall or a matrix cost of
/// 255. The result's path is a walk of passable tiles from `start`; when
/// complete it ends where the goal counts as arrived, and when incomplete
/// it is empty. The search is complete: an incomplete result means the
/// operations ran out or no walk of A* moves (king moves onto passable
/// tiles, no diagonal past a blocked corner) reaches a goal. A complete
/// result's cost is at least the cost of entering the tiles of its path
/// (more when a tile's best cost fell after a later tile was reached
/// through it).
pub fn search_path_astar(
    start: Position,
    goal: &GoalInput,
    options: Option<&SearchPathOptions>,
    terrain: &TerrainMap,
) -> (r: SearchResults)
    requires
        terrain.wf(),
        options matches Some(o) ==> o.wf(),
    ensures
        spec_goals(*goal).len() == 0 ==> r.path@.len() == 0 && r.ops == 0 && r.cost == 0 && r.incomplete,
        spec_goals(*goal).len() > 0 && at_goal(spec_goals(*goal), options_flee(options), start) ==> r.path@.len()
            == 0 && r.ops == 0 && r.cost == 0 && !r.incomplete,
        valid_walk(raw_options_ctx(terrain, options), start, r.path@),
        !r.incomplete ==> at_goal(spec_goals(*goal), options_flee(options), walk_end(start, r.path@)),
        r.incomplete ==> r.path@.len() == 0 && r.cost == 0,
        r.ops <= raw_max_ops(options) + 1,
        !r.incomplete ==> r.cost >= path_cost(raw_options_ctx(terrain, options), r.path@),
        astar_walk(raw_options_ctx(terrain, options), start, r.path@),
        astar_exact(options, spec_goals(*goal)) && !r.incomplete ==> r.cost == path_cost(
            raw_options_ctx(terrain, options),
            r.path@,
        ),
        astar_exact(options, spec_goals(*goal)) && !r.incomplete ==> forall|w: Seq<Position>|
            #[trigger] astar_walk(raw_options_ctx(terrain, options), start, w) && at_goal(
                spec_goals(*goal),
                false,
                walk_end(start, w),
            ) ==> r.cost <= path_cost(raw_options_ctx(terrain, options), w),
        r.incomplete ==> r.ops > raw_max_ops(options) || r.ops == u32::MAX || no_astar_route(
            raw_options_ctx(terrain, options),
            spec_goals(*goal),
            options_flee(options),
            start,
        ),
{
    let goals = normalize_goals(goal);
    if goals.len() == 0 {
        return empty_results(0, true);
    }
    let (plain_cost, swamp_cost, weight, max_ops, flee) = raw_options(options);
    let ctx = SearchCtx { terrain, cost_matrix: matrix_of(options), plain_cost, swamp_cost };
    assert(ctx == raw_options_ctx(terrain, options));
    if is_at_goal(&goals, flee, start) {
        proof {
            assert forall|w: Seq<Position>| #[trigger] astar_walk(ctx, start, w) implies path_cost(ctx, w) >= 0 by {
                lemma_path_cost_nonneg(ctx, w);
            }
        }
        return empty_results(0, false);
    }
    let mut st = PathState::new(&ctx, start, Ghost(TILE_BOUND as int));
    let start_h = goal_distance(&goals, start);
    proof {
        lemma_min_goal_dist(goals@, start);
    }
    let start_est = estimate(0, start_h, weight);
    let ghost fresh = st;
    let first = OpenEntry { est: start_est, cost: 0, pos: start, dx: 0, dy: 0, id: 0 };
    st.push_entry(&ctx, start, first);
    proof {
        assert(st.open@[0] == first);
        assert(st.open@.len() == 1);
        assert(est_ok(st.open@, goals@, weight));
        assert forall|p: Position| #[trigger] st.reached(start, p) implies astar_settled(
            st,
            ctx,
            goals@,
            flee,
            start,
            p,
        ) by {
            assert(fresh.reached(start, p));
            assert(st.open@[0].pos == p);
        }
    }
    let mut ops: u64 = 0;
    let mut best_target: Option<Position> = None;
    while st.open.len() > 0
        invariant_except_break
            ops <= max_ops,
            best_target is None,
            astar_all_settled(st, ctx, goals@, flee, start),
        invariant
            st.inv(ctx, start),
            st.cost_links(ctx, start),
            st.astar_links(ctx),
            est_ok(st.open@, goals@, weight),
            st.step@ == TILE_BOUND,
            ctx.wf(),
            ctx == raw_options_ctx(terrain, options),
            weight == raw_weight(options),
            flee == options_flee(options),
            goals@ == spec_goals(*goal),
            goals@.len() > 0,
            st.counter <= 8 * ops + 1,
            ops <= max_ops as int + 1,
        ensures
            st.inv(ctx, start),
            st.cost_links(ctx, start),
            st.astar_links(ctx),
            ops <= max_ops as int + 1,
            best_target matches Some(t) ==> st.reached(start, t) && at_goal(goals@, flee, t),
            best_target matches Some(t) ==> (astar_exact(options, goals@) ==> forall|w: Seq<Position>|
                #[trigger] astar_walk(ctx, start, w) && at_goal(goals@, false, walk_end(start, w)) ==> st.gv(start, t)
                    <= path_cost(ctx, w)),
            best_target is None && ops <= max_ops ==> st.open@.len() == 0 && astar_all_settled(
                st,
                ctx,
                goals@,
                flee,
                start,
            ),
        decreases max_ops + 1 - ops,
    {
        let ghost a = st;
        let entry = st.pop_entry(&ctx, start);
        proof {
            let k = choose|k: int|
                0 <= k < a.open@.len() && a.open@[k] == entry && st.open@ == a.open@.remove(k);
            lemma_astar_pop(a, st, k, ctx, goals@, flee, start);
            assert forall|j: int| 0 <= j < st.open@.len() implies (#[trigger] st.open@[j]).est == spec_estimate(
                st.open@[j].cost,
                min_goal_dist(goals@, st.open@[j].pos) as u32,
                weight,
            ) by {
                if j < k {
                    assert(st.open@[j] == a.open@[j]);
                } else {
                    assert(st.open@[j] == a.open@[j + 1]);
                }
            }
        }
        ops += 1;
        if ops > max_ops as u64 {
            break;
        }
        let pos = entry.pos;
        if is_at_goal(&goals, flee, pos) {
            proof {
                if astar_exact(options, goals@) {
                    assert forall|w: Seq<Position>|
                        #[trigger] astar_walk(ctx, start, w) && at_goal(goals@, false, walk_end(start, w)) implies st.gv(
                        start,
                        pos,
                    ) <= path_cost(ctx, w) by {
                        lemma_astar_bound(a, ctx, goals@, start, w);
                        let m = choose|m: int| 0 <= m < a.open@.len() && (#[trigger] a.open@[m]).est <= 1000 * path_cost(
                            ctx,
                            w,
                        );
                        assert(open_before(entry, a.open@[m]));
                        let gi = choose|gi: int|
                            0 <= gi < goals@.len() && cheb(pos, #[trigger] goals@[gi].pos) <= goals@[gi].range;
                        lemma_min_goal_dist_le(goals@, pos, gi);
                        lemma_min_goal_dist_nonneg(goals@, pos);
                        let kk = choose|kk: int| 0 <= kk < a.open@.len() && a.open@[kk] == entry;
                        assert(entry.est == spec_estimate(entry.cost, min_goal_dist(goals@, pos) as u32, weight));
                        assert(min_goal_dist(goals@, pos) == 0);
                        let d = path_cost(ctx, w);
                        let c = entry.cost as int;
                        assert(entry.est == c * 1000);
                        assert(c * 1000 <= 1000 * d ==> c <= d) by (nonlinear_arith);
                    }
                }
            }
            best_target = Some(pos);
            break;
        }
        let recorded_g = st.g_get(start, pos);
        if entry.cost > recorded_g {
            continue;
        }
        let ghost b = st;
        st.expand_astar(&ctx, &goals, weight, start, pos, entry.cost);
        proof {
            assert(est_ok(st.open@, goals@, weight));
        }
        proof {
            lemma_astar_expand(b, st, ctx, goals@, flee, start, pos);
        }
    }
    match best_target {
        Some(target) => {
            let path = st.reconstruct(&ctx, start, target);
            let path_cost = st.g_get(start, target);
            proof {
                assert(walk_end(start, path@) == target);
                if astar_exact(options, goals@) {
                    assert(astar_walk(ctx, start, path@));
                }
            }
            SearchResults { path, ops: ops_u32(ops), cost: path_cost, incomplete: false }
        },
        None => {
            proof {
                if ops <= max_ops {
                    assert forall|w: Seq<Position>| #[trigger] astar_walk(ctx, start, w) implies !at_goal(
                        goals@,
                        flee,
                        walk_end(start, w),
                    ) by {
                        lemma_astar_closed(st, ctx, goals@, flee, start, w);
                    }
                }
            }
            empty_results(ops_u32(ops), true)
        },
    }
}

/// Whether the tile `(nx, ny)`, entered along `(dx, dy)`, has a forced
/// neighbour for `jps_jump`: a blocked tile beside the run with an open
/// tile beyond it.
#[verifier::opaque]
pub open spec fn jps_forced(ctx: SearchCtx, nx: int, ny: int, dx: int, dy: int) -> bool {
    if dx != 0 && dy != 0 {
        (ctx.spec_look(((nx - dx) as u8) as int, (ny as u8) as int) is None && ctx.spec_look(
            ((nx - dx) as u8) as int,
            ((ny + dy) as u8) as int,
        ) is Some) || (ctx.spec_look((nx as u8) as int, ((ny - dy) as u8) as int) is None && ctx.spec_look(
            ((nx + dx) as u8) as int,
            ((ny - dy) as u8) as int,
        ) is Some)
    } else if dx != 0 {
        (ctx.spec_look((nx as u8) as int, ((ny - 1) as u8) as int) is None && ctx.spec_look(
            ((nx + dx) as u8) as int,
            ((ny - 1) as u8) as int,
        ) is Some) || (ctx.spec_look((nx as u8) as int, ((ny + 1) as u8) as int) is None && ctx.spec_look(
            ((nx + dx) as u8) as int,
            ((ny + 1) as u8) as int,
        ) is Some)
    } else {
        (ctx.spec_look(((nx - 1) as u8) as int, (ny as u8) as int) is None && ctx.spec_look(
            ((nx - 1) as u8) as int,
            ((ny + dy) as u8) as int,
        ) is Some) || (ctx.spec_look(((nx + 1) as u8) as int, (ny as u8) as int) is None && ctx.spec_look(
            ((nx + 1) as u8) as int,
            ((ny + dy) as u8) as int,
        ) is Some)
    }
}

/// What `jps_scan` accumulates, continued `j` tiles along the run from
/// `pos`: the cost of entering the run's tiles up to the tile it stops at.
proof fn lemma_jps_scan_cost(
    ctx: SearchCtx,
    goals: Seq<GoalSpec>,
    flee: bool,
    tg: Position,
    pos: Position,
    dx: int,
    dy: int,
    j: int,
    acc: int,
    q: Position,
    a: u32,
)
    requires
        ctx.wf(),
        unit(dx),
        unit(dy),
        dx != 0 || dy != 0,
        0 <= j <= 400,
        0 <= acc <= 300_000_000 + 255 * j,
        jps_scan(ctx, goals, flee, tg, ray(pos.x as int, dx, j), ray(pos.y as int, dy, j), dx, dy, acc) == Some((q, a)),
    ensures
        j < cheb(pos, q),
        q == run_tile(pos, dx, dy, cheb(pos, q)),
        a == acc + run_sum(ctx, pos, dx, dy, cheb(pos, q)) - run_sum(ctx, pos, dx, dy, j),
    decreases 400 - j,
{
    let cx = ray(pos.x as int, dx, j);
    let cy = ray(pos.y as int, dy, j);
    let nx = cx + dx;
    let ny = cy + dy;
    assert(nx == ray(pos.x as int, dx, j + 1));
    assert(ny == ray(pos.y as int, dy, j + 1));
    assert(0 <= nx < 100 && 0 <= ny < 100);
    let c = ctx.spec_look((nx as u8) as int, (ny as u8) as int)->0;
    let acc2 = acc + c;
    let next_pos = Position { x: nx as u8, y: ny as u8 };
    assert(next_pos == run_tile(pos, dx, dy, j + 1));
    assert(c <= 255);
    assert(run_sum(ctx, pos, dx, dy, j + 1) == run_sum(ctx, pos, dx, dy, j) + step_cost(ctx, next_pos));
    assert(step_cost(ctx, next_pos) == c);
    if at_goal(goals, flee, next_pos) || (dx != 0 && dy != 0 && nx == tg.x) || jps_forced(ctx, nx, ny, dx, dy) {
        assert(q == next_pos);
        assert(cheb(pos, q) == j + 1);
    } else {
        assert(j + 1 <= 400);
        lemma_jps_scan_cost(ctx, goals, flee, tg, pos, dx, dy, j + 1, acc2, q, a);
    }
}

/// Whether `(nx, ny)` has a forced neighbour (see `jps_forced`).
fn jps_forced_at(ctx: &SearchCtx, nx: i32, ny: i32, dx: i32, dy: i32) -> (b: bool)
    requires
        ctx.wf(),
        unit(dx as int),
        unit(dy as int),
        0 <= nx < 100,
        0 <= ny < 100,
    ensures
        b == jps_forced(*ctx, nx as int, ny as int, dx as int, dy as int),
{
    reveal(jps_forced);
    if dx != 0 && dy != 0 {
        let left_blocked = ctx.look((nx - dx) as u8, ny as u8).is_none();
        let left_open = ctx.look((nx - dx) as u8, (ny + dy) as u8).is_some();
        let right_blocked = ctx.look(nx as u8, (ny - dy) as u8).is_none();
        let right_open = ctx.look((nx + dx) as u8, (ny - dy) as u8).is_some();
        (left_blocked && left_open) || (right_blocked && right_open)
    } else if dx != 0 {
        let up_blocked = ctx.look(nx as u8, (ny - 1) as u8).is_none();
        let up_open = ctx.look((nx + dx) as u8, (ny - 1) as u8).is_some();
        let down_blocked = ctx.look(nx as u8, (ny + 1) as u8).is_none();
        let down_open = ctx.look((nx + dx) as u8, (ny + 1) as u8).is_some();
        (up_blocked && up_open) || (down_blocked && down_open)
    } else {
        let left_blocked = ctx.look((nx - 1) as u8, ny as u8).is_none();
        let left_open = ctx.look((nx - 1) as u8, (ny + dy) as u8).is_some();
        let right_blocked = ctx.look((nx + 1) as u8, ny as u8).is_none();
        let right_open = ctx.look((nx + 1) as u8, (ny + dy) as u8).is_some();
        (left_blocked && left_open) || (right_blocked && right_open)
    }
}

/// Where `jps_jump` stops, continued from `(cx, cy)` with `acc`
/// accumulated: the next tile with the cost on reaching it, when it counts
/// as arrived, lies in the target's column on a diagonal, or has a forced
/// neighbour; `None` when the run first leaves the map, meets an
/// impassable tile, or (diagonally) a blocked corner.
pub open spec fn jps_scan(
    ctx: SearchCtx,
    goals: Seq<GoalSpec>,
    flee: bool,
    target_goal: Position,
    cx: int,
    cy: int,
    dx: int,
    dy: int,
    acc: int,
) -> Option<(Position, u32)>
    decreases (if dx == 1 {
        300 - cx
    } else if dx == -1 {
        cx + 1
    } else if dy == 1 {
        300 - cy
    } else {
        cy + 1
    }),
{
    let nx = cx + dx;
    let ny = cy + dy;
    if !unit(dx) || !unit(dy) || (dx == 0 && dy == 0) || !(0 <= nx < 100 && 0 <= ny < 100) {
        None
    } else if dx != 0 && dy != 0 && (ctx.spec_look((cx as u8) as int, (ny as u8) as int) is None
        || ctx.spec_look((nx as u8) as int, (cy as u8) as int) is None) {
        None
    } else {
        match ctx.spec_look((nx as u8) as int, (ny as u8) as int) {
            None => None,
            Some(c) => {
                let acc2 = acc + c;
                let next_pos = Position { x: nx as u8, y: ny as u8 };
                if at_goal(goals, flee, next_pos) || (dx != 0 && dy != 0 && nx == target_goal.x) || jps_forced(
                    ctx,
                    nx,
                    ny,
                    dx,
                    dy,
                ) {
                    Some((next_pos, acc2 as u32))
                } else {
                    jps_scan(ctx, goals, flee, target_goal, nx, ny, dx, dy, acc2)
                }
            },
        }
    }
}

/// The jump-point scan of `search_path_jps`: from `pos`, step along
/// `(dx, dy)` accumulating tile costs onto `current_g`, and stop at a tile
/// that counts as arrived, at the first goal's column on a diagonal, or
/// beside a forced neighbour; `None` when the run leaves the map, meets an
/// impassable tile, or (diagonally) would cut a blocked corner.
#[verifier::rlimit(50)]
#[verifier::spinoff_prover]
fn jps_jump(
    ctx: &SearchCtx,
    goals: &Vec<GoalSpec>,
    flee: bool,
    target_goal: Position,
    pos: Position,
    dx: i32,
    dy: i32,
    current_g: u32,
) -> (r: Option<(Position, u32)>)
    requires
        ctx.wf(),
        unit(dx as int),
        unit(dy as int),
        dx != 0 || dy != 0,
        current_g <= 300_000_000,
    ensures
        r == jps_scan(*ctx, goals@, flee, target_goal, pos.x as int, pos.y as int, dx as int, dy as int, current_g as int),
        r matches Some((q, acc)) ==> in_bounds(q) && run_edge(*ctx, pos, q) && sign(q.x - pos.x) == dx && sign(
            q.y - pos.y,
        ) == dy && current_g <= acc <= current_g + JUMP_BOUND,
{
    let mut curr_x: i32 = pos.x as i32;
    let mut curr_y: i32 = pos.y as i32;
    let mut accumulated_g: u32 = current_g;
    let ghost mut j: int = 0;
    loop
        invariant
            ctx.wf(),
            unit(dx as int),
            unit(dy as int),
            dx != 0 || dy != 0,
            current_g <= 300_000_000,
            0 <= j <= 100,
            curr_x == ray(pos.x as int, dx as int, j),
            curr_y == ray(pos.y as int, dy as int, j),
            0 <= curr_x <= 255,
            0 <= curr_y <= 255,
            j >= 1 ==> on_map(curr_x as int, curr_y as int),
            j >= 1 ==> on_map(ray(pos.x as int, dx as int, 1), ray(pos.y as int, dy as int, 1)),
            run_passable(*ctx, pos.x as int, pos.y as int, dx as int, dy as int, 1, j),
            current_g <= accumulated_g <= current_g + 255 * j,
            jps_scan(*ctx, goals@, flee, target_goal, pos.x as int, pos.y as int, dx as int, dy as int, current_g as int)
                == jps_scan(*ctx, goals@, flee, target_goal, curr_x as int, curr_y as int, dx as int, dy as int, accumulated_g as int),
        decreases (if dx == 1 {
            300 - curr_x
        } else if dx == -1 {
            curr_x + 1
        } else if dy == 1 {
            300 - curr_y
        } else {
            curr_y + 1
        }),
    {
        let ghost cx0 = curr_x as int;
        let ghost cy0 = curr_y as int;
        let ghost g0 = accumulated_g as int;
        let nx = curr_x + dx;
        let ny = curr_y + dy;
        if nx < 0 || nx >= 100 || ny < 0 || ny >= 100 {
            assert(jps_scan(*ctx, goals@, flee, target_goal, cx0, cy0, dx as int, dy as int, g0) is None);
            return None;
        }
        if dx != 0 && dy != 0 {
            let orth1_blocked = ctx.look(curr_x as u8, ny as u8).is_none();
            let orth2_blocked = ctx.look(nx as u8, curr_y as u8).is_none();
            if orth1_blocked || orth2_blocked {
                assert(jps_scan(*ctx, goals@, flee, target_goal, cx0, cy0, dx as int, dy as int, g0) is None);
                return None;
            }
        }
        let cost = match ctx.look(nx as u8, ny as u8) {
            Some(c) => c,
            None => {
                assert(jps_scan(*ctx, goals@, flee, target_goal, cx0, cy0, dx as int, dy as int, g0) is None);
                return None;
            },
        };
        proof {
            if j >= 1 {
                if dx == 1 {
                    assert(j <= 98);
                } else if dx == -1 {
                    assert(j <= 99);
                } else if dy == 1 {
                    assert(j <= 98);
                } else {
                    assert(j <= 99);
                }
            }
        }
        accumulated_g = accumulated_g + cost;
        let next_pos = Position { x: nx as u8, y: ny as u8 };
        proof {
            j = j + 1;
            assert(ctx.passable(ray(pos.x as int, dx as int, j), ray(pos.y as int, dy as int, j)));
            assert forall|i: int| 1 <= i <= j implies #[trigger] ctx.passable(
                ray(pos.x as int, dx as int, i),
                ray(pos.y as int, dy as int, i),
            ) by {
                if i < j {
                    assert(run_passable(*ctx, pos.x as int, pos.y as int, dx as int, dy as int, 1, j - 1));
                }
            }
            assert(cheb(pos, next_pos) == j);
            assert(255 * j <= JUMP_BOUND);
        }
        if is_at_goal(goals, flee, next_pos) {
            assert(jps_scan(*ctx, goals@, flee, target_goal, cx0, cy0, dx as int, dy as int, g0) == Some((next_pos, accumulated_g)));
            return Some((next_pos, accumulated_g));
        }
        if dx != 0 && dy != 0 && nx == target_goal.x as i32 {
            assert(jps_scan(*ctx, goals@, flee, target_goal, cx0, cy0, dx as int, dy as int, g0) == Some((next_pos, accumulated_g)));
            return Some((next_pos, accumulated_g));
        }
        if jps_forced_at(ctx, nx, ny, dx, dy) {
            assert(jps_scan(*ctx, goals@, flee, target_goal, cx0, cy0, dx as int, dy as int, g0) == Some((next_pos, accumulated_g)));
            return Some((next_pos, accumulated_g));
        }
        assert(jps_scan(*ctx, goals@, flee, target_goal, cx0, cy0, dx as int, dy as int, g0) == jps_scan(
            *ctx,
            goals@,
            flee,
            target_goal,
            nx as int,
            ny as int,
            dx as int,
            dy as int,
            accumulated_g as int,
        ));
        curr_x = nx;
        curr_y = ny;
    }
}

/// The successor list after adding `(dx, dy)` for the jump point
/// `jump_pos`: a component becomes 0 where `jump_pos` shares the target's
/// column or row, and the direction is appended unless it is null or
/// already listed.
pub open spec fn spec_add_successor(
    dirs: Seq<(i32, i32)>,
    dx: i32,
    dy: i32,
    jump_pos: Position,
    target: Position,
) -> Seq<(i32, i32)> {
    let d_x: i32 = if jump_pos.x == target.x { 0 } else { dx };
    let d_y: i32 = if jump_pos.y == target.y { 0 } else { dy };
    if (d_x != 0 || d_y != 0) && !dirs.contains((d_x, d_y)) {
        dirs.push((d_x, d_y))
    } else {
        dirs
    }
}

/// Adds direction `(dx, dy)` to the successor list, with a component
/// zeroed where the jump point already shares the goal's column or row;
/// the null direction and repeats are left out.
fn add_successor(dirs: &mut Vec<(i32, i32)>, dx: i32, dy: i32, jump_pos: Position, target: Position)
    requires
        unit(dx as int),
        unit(dy as int),
        forall|k: int| 0 <= k < old(dirs)@.len() ==> unit((#[trigger] old(dirs)@[k]).0 as int) && unit(old(dirs)@[k].1 as int)
            && (old(dirs)@[k].0 != 0 || old(dirs)@[k].1 != 0),
    ensures
        final(dirs)@ == spec_add_successor(old(dirs)@, dx, dy, jump_pos, target),
        final(dirs)@.len() <= old(dirs)@.len() + 1,
        forall|k: int| 0 <= k < final(dirs)@.len() ==> unit((#[trigger] final(dirs)@[k]).0 as int) && unit(final(dirs)@[k].1 as int)
            && (final(dirs)@[k].0 != 0 || final(dirs)@[k].1 != 0),
{
    let d_x = if jump_pos.x == target.x { 0 } else { dx };
    let d_y = if jump_pos.y == target.y { 0 } else { dy };
    if d_x != 0 || d_y != 0 {
        let mut found = false;
        let mut i: usize = 0;
        while i < dirs.len()
            invariant
                i <= dirs@.len(),
                found == dirs@.subrange(0, i as int).contains((d_x, d_y)),
            decreases dirs@.len() - i,
        {
            let (a, b) = dirs[i];
            proof {
                let pre = dirs@.subrange(0, i as int);
                let post = dirs@.subrange(0, i as int + 1);
                assert(post == pre.push(dirs@[i as int]));
                if pre.contains((d_x, d_y)) {
                    let k = choose|k: int| 0 <= k < pre.len() && pre[k] == (d_x, d_y);
                    assert(post[k] == (d_x, d_y));
                }
                if post.contains((d_x, d_y)) && !(a == d_x && b == d_y) {
                    let k = choose|k: int| 0 <= k < post.len() && post[k] == (d_x, d_y);
                    assert(k < pre.len());
                    assert(pre[k] == (d_x, d_y));
                }
                if a == d_x && b == d_y {
                    assert(post[i as int] == (d_x, d_y));
                }
            }
            if a == d_x && b == d_y {
                found = true;
            }
            i += 1;
        }
        assert(dirs@.subrange(0, dirs@.len() as int) =~= dirs@);
        if !found {
            dirs.push((d_x, d_y));
        }
    }
}

/// The sign of `a - b` as a direction component.
fn sign_diff(a: u8, b: u8) -> (s: i32)
    ensures
        s == sign(a - b),
{
    if a > b {
        1
    } else if a < b {
        -1
    } else {
        0
    }
}

/// The successor directions `expand_jps` opens a jump point `jp` with,
/// for an entry moving along `(dir_x, dir_y)`: for a diagonal move, the
/// move, its two components, the direction to the target and its two
/// components; for a straight move, the move, the move turned towards the
/// target, and the direction to the target; each as `spec_add_successor`
/// adds it.
pub open spec fn jps_successors(dir_x: i32, dir_y: i32, jp: Position, target: Position) -> Seq<(i32, i32)> {
    let gdx = sign(target.x - jp.x) as i32;
    let gdy = sign(target.y - jp.y) as i32;
    let e = Seq::<(i32, i32)>::empty();
    if dir_x != 0 && dir_y != 0 {
        let d1 = spec_add_successor(e, dir_x, dir_y, jp, target);
        let d2 = spec_add_successor(d1, dir_x, 0, jp, target);
        let d3 = spec_add_successor(d2, 0, dir_y, jp, target);
        let d4 = spec_add_successor(d3, gdx, gdy, jp, target);
        let d5 = spec_add_successor(d4, 0, gdy, jp, target);
        spec_add_successor(d5, gdx, 0, jp, target)
    } else if dir_x != 0 {
        let d1 = spec_add_successor(e, dir_x, 0, jp, target);
        let d2 = spec_add_successor(d1, dir_x, gdy, jp, target);
        spec_add_successor(d2, gdx, gdy, jp, target)
    } else {
        let d1 = spec_add_successor(e, 0, dir_y, jp, target);
        let d2 = spec_add_successor(d1, gdx, dir_y, jp, target);
        spec_add_successor(d2, gdx, gdy, jp, target)
    }
}

/// The open entries `expand_jps` adds for a jump point: one per successor
/// direction, numbered on from `counter`.
spec fn jps_entries(dirs: Seq<(i32, i32)>, est: u64, cost: u32, jp: Position, counter: u64) -> Seq<OpenEntry> {
    Seq::new(
        dirs.len(),
        |k: int| OpenEntry { est, cost, pos: jp, dx: dirs[k].0, dy: dirs[k].1, id: (counter + 1 + k) as u64 },
    )
}

/// Expanding an open entry for the jump-point search: the jump point the
/// scan finds, when it improves, gets the new cost and predecessor and one
/// open entry per successor direction.
spec fn expand_jps_effect(
    t: PathTrack,
    ctx: SearchCtx,
    goals: Seq<GoalSpec>,
    flee: bool,
    weight: u32,
    start: Position,
    target_goal: Position,
    entry: OpenEntry,
) -> PathTrack {
    let pos = entry.pos;
    match jps_scan(ctx, goals, flee, target_goal, pos.x as int, pos.y as int, entry.dx as int, entry.dy as int, entry.cost as int) {
        Some((jp, jg)) => if improves(t, start, jp, jg) {
            let t1 = improve_effect(t, start, pos, jp, jg);
            let dirs = jps_successors(entry.dx, entry.dy, jp, target_goal);
            let est = spec_estimate(jg, min_goal_dist(goals, jp) as u32, weight) as u64;
            (t1.0, t1.1, t1.2 + jps_entries(dirs, est, jg, jp, t.3), (t.3 + dirs.len()) as u64)
        } else {
            t
        },
        None => t,
    }
}

impl PathState {
    /// Expands an open entry for the jump-point search: scans from its
    /// position in its direction, and when the jump point found improves,
    /// opens it once per successor direction.
    fn expand_jps(
        &mut self,
        ctx: &SearchCtx,
        goals: &Vec<GoalSpec>,
        flee: bool,
        weight: u32,
        start: Position,
        target_goal: Position,
        entry: OpenEntry,
    )
        requires
            old(self).inv(*ctx, start),
            old(self).step@ == JUMP_BOUND,
            ctx.wf(),
            old(self).reached(start, entry.pos),
            entry.cost >= old(self).gv(start, entry.pos),
            entry.cost <= JUMP_BOUND * old(self).dset@.len(),
            unit(entry.dx as int),
            unit(entry.dy as int),
            entry.dx != 0 || entry.dy != 0,
            old(self).counter < u64::MAX - 8,
            goals@.len() > 0,
            forall|k: int|
                0 <= k < old(self).open@.len() ==> unit((#[trigger] old(self).open@[k]).dx as int) && unit(
                    old(self).open@[k].dy as int,
                ) && (old(self).open@[k].dx != 0 || old(self).open@[k].dy != 0),
        ensures
            final(self).inv(*ctx, start),
            final(self).step == old(self).step,
            old(self).counter <= final(self).counter <= old(self).counter + 6,
            forall|k: int|
                0 <= k < final(self).open@.len() ==> unit((#[trigger] final(self).open@[k]).dx as int) && unit(
                    final(self).open@[k].dy as int,
                ) && (final(self).open@[k].dx != 0 || final(self).open@[k].dy != 0),
            final(self).ptrack() == expand_jps_effect(
                old(self).ptrack(),
                *ctx,
                goals@,
                flee,
                weight,
                start,
                target_goal,
                entry,
            ),
            old(self).cost_links(*ctx, start) ==> final(self).cost_links(*ctx, start),
    {
        let pos = entry.pos;
        proof {
            assert(old(self).dset@.len() <= 10000);
        }
        if let Some((jump_pos, jump_g)) = jps_jump(ctx, goals, flee, target_goal, pos, entry.dx, entry.dy, entry.cost) {
            let ghost t0 = self.ptrack();
            let ghost pre_improve = *self;
            let changed = self.improve(ctx, start, pos, jump_pos, jump_g);
            let ghost after_improve = *self;
            proof {
                if changed && old(self).cost_links(*ctx, start) {
                    assert(ray(pos.x as int, entry.dx as int, 0) == pos.x);
                    assert(ray(pos.y as int, entry.dy as int, 0) == pos.y);
                    lemma_jps_scan_cost(
                        *ctx,
                        goals@,
                        flee,
                        target_goal,
                        pos,
                        entry.dx as int,
                        entry.dy as int,
                        0,
                        entry.cost as int,
                        jump_pos,
                        jump_g,
                    );
                    assert(run_sum(*ctx, pos, entry.dx as int, entry.dy as int, 0) == 0);
                    assert(jump_g == entry.cost + run_cost(*ctx, pos, jump_pos));
                    let ni = pidx(jump_pos);
                    lemma_pidx(jump_pos);
                    assert(jump_pos != pos);
                    assert forall|i: int| 0 <= i < 10000 implies (#[trigger] self.came_from@[i] matches Some(p)
                        ==> self.g_score@[i] >= self.gv(start, p) + run_cost(*ctx, p, pos_of(i))) by {
                        if i == ni {
                            assert(pos_of(i) == jump_pos);
                            assert(self.came_from@[i] == Some(pos));
                            assert(self.gv(start, pos) == pre_improve.gv(start, pos));
                        } else {
                            assert(self.came_from@[i] == pre_improve.came_from@[i]);
                            assert(self.g_score@[i] == pre_improve.g_score@[i]);
                            if let Some(p) = self.came_from@[i] {
                                if p != jump_pos {
                                    assert(self.gv(start, p) == pre_improve.gv(start, p));
                                } else {
                                    assert(self.gv(start, p) <= pre_improve.gv(start, p));
                                }
                            }
                        }
                    }
                }
            }
            if changed {
                let ghost t1 = self.ptrack();
                let h_val = goal_distance(goals, jump_pos);
                proof {
                    lemma_min_goal_dist(goals@, jump_pos);
                    assert(self.dset@.len() <= 10000);
                }
                let f_score = estimate(jump_g, h_val, weight);
                let cur_goal_dx = sign_diff(target_goal.x, jump_pos.x);
                let cur_goal_dy = sign_diff(target_goal.y, jump_pos.y);
                let dir_x = entry.dx;
                let dir_y = entry.dy;
                let mut successor_dirs: Vec<(i32, i32)> = Vec::new();
                if dir_x != 0 && dir_y != 0 {
                    add_successor(&mut successor_dirs, dir_x, dir_y, jump_pos, target_goal);
                    add_successor(&mut successor_dirs, dir_x, 0, jump_pos, target_goal);
                    add_successor(&mut successor_dirs, 0, dir_y, jump_pos, target_goal);
                    add_successor(&mut successor_dirs, cur_goal_dx, cur_goal_dy, jump_pos, target_goal);
                    add_successor(&mut successor_dirs, 0, cur_goal_dy, jump_pos, target_goal);
                    add_successor(&mut successor_dirs, cur_goal_dx, 0, jump_pos, target_goal);
                } else if dir_x != 0 {
                    add_successor(&mut successor_dirs, dir_x, 0, jump_pos, target_goal);
                    add_successor(&mut successor_dirs, dir_x, cur_goal_dy, jump_pos, target_goal);
                    add_successor(&mut successor_dirs, cur_goal_dx, cur_goal_dy, jump_pos, target_goal);
                } else {
                    add_successor(&mut successor_dirs, 0, dir_y, jump_pos, target_goal);
                    add_successor(&mut successor_dirs, cur_goal_dx, dir_y, jump_pos, target_goal);
                    add_successor(&mut successor_dirs, cur_goal_dx, cur_goal_dy, jump_pos, target_goal);
                }
                assert(successor_dirs@ == jps_successors(entry.dx, entry.dy, jump_pos, target_goal));
                let mut k: usize = 0;
                while k < successor_dirs.len()
                    invariant
                        self.inv(*ctx, start),
                        self.step@ == JUMP_BOUND,
                        successor_dirs@.len() <= 6,
                        k <= successor_dirs@.len(),
                        old(self).counter <= self.counter <= old(self).counter + k,
                        old(self).counter < u64::MAX - 8,
                        self.reached(start, jump_pos),
                        self.gv(start, jump_pos) == jump_g,
                        jump_g <= self.step@ * self.dset@.len(),
                        forall|m: int| 0 <= m < successor_dirs@.len() ==> unit((#[trigger] successor_dirs@[m]).0 as int)
                            && unit(successor_dirs@[m].1 as int) && (successor_dirs@[m].0 != 0 || successor_dirs@[m].1 != 0),
                        forall|m: int|
                            0 <= m < self.open@.len() ==> unit((#[trigger] self.open@[m]).dx as int) && unit(
                                self.open@[m].dy as int,
                            ) && (self.open@[m].dx != 0 || self.open@[m].dy != 0),
                        self.g_score@ == t1.0,
                        self.came_from@ == t1.1,
                        self.open@ == t1.2 + jps_entries(successor_dirs@.subrange(0, k as int), f_score, jump_g, jump_pos, t0.3),
                        self.counter == t0.3 + k,
                        t1.3 == t0.3,
                    decreases successor_dirs@.len() - k,
                {
                    let (ndx, ndy) = successor_dirs[k];
                    let ghost before = self.open@;
                    self.push_entry(
                        ctx,
                        start,
                        OpenEntry { est: f_score, cost: jump_g, pos: jump_pos, dx: ndx, dy: ndy, id: self.counter + 1 },
                    );
                    proof {
                        assert forall|m: int|
                            0 <= m < self.open@.len() implies unit((#[trigger] self.open@[m]).dx as int) && unit(
                                self.open@[m].dy as int,
                            ) && (self.open@[m].dx != 0 || self.open@[m].dy != 0) by {
                            if m < before.len() {
                                assert(self.open@[m] == before[m]);
                            }
                        }
                        assert(jps_entries(successor_dirs@.subrange(0, k as int + 1), f_score, jump_g, jump_pos, t0.3)
                            =~= jps_entries(successor_dirs@.subrange(0, k as int), f_score, jump_g, jump_pos, t0.3).push(
                            OpenEntry { est: f_score, cost: jump_g, pos: jump_pos, dx: ndx, dy: ndy, id: (t0.3 + 1 + k) as u64 },
                        ));
                    }
                    k += 1;
                }
                assert(successor_dirs@.subrange(0, successor_dirs@.len() as int) =~= successor_dirs@);
                proof {
                    if old(self).cost_links(*ctx, start) {
                        lemma_cost_links_same(after_improve, *self, *ctx, start);
                    }
                }
            }
        }
    }
}

/// Jump-point search from `start` to the goals `goal` stands for, with the
/// options' costs taken as given (defaults as for `search_path_astar`);
/// when it finds nothing it falls back to `search_path_astar`.
///
/// Each open entry carries a direction; scanning from it along that
/// direction (see `jps_jump`) gives a jump point, which is opened with
/// successor directions pointed towards the first goal. The result's path
/// is a walk of passable tiles from `start`; when complete it ends where
/// the goal counts as arrived, and when incomplete it is empty. Since an
/// incomplete result comes from the A* fallback, it is incomplete only when
/// the operations ran out or no walk of A* moves reaches a goal. A complete
/// result's cost is at least the cost of entering the tiles of its path.
pub fn search_path_jps(
    start: Position,
    goal: &GoalInput,
    options: Option<&SearchPathOptions>,
    terrain: &TerrainMap,
) -> (r: SearchResults)
    requires
        terrain.wf(),
        options matches Some(o) ==> o.wf(),
    ensures
        spec_goals(*goal).len() == 0 ==> r.path@.len() == 0 && r.ops == 0 && r.cost == 0 && r.incomplete,
        spec_goals(*goal).len() > 0 && at_goal(spec_goals(*goal), options_flee(options), start) ==> r.path@.len()
            == 0 && r.ops == 0 && r.cost == 0 && !r.incomplete,
        valid_walk(raw_options_ctx(terrain, options), start, r.path@),
        !r.incomplete ==> at_goal(spec_goals(*goal), options_flee(options), walk_end(start, r.path@)),
        r.incomplete ==> r.path@.len() == 0 && r.cost == 0,
        r.ops <= raw_max_ops(options) + 1,
        !r.incomplete ==> r.cost >= path_cost(raw_options_ctx(terrain, options), r.path@),
        r.incomplete ==> r.ops > raw_max_ops(options) || r.ops == u32::MAX || no_astar_route(
            raw_options_ctx(terrain, options),
            spec_goals(*goal),
            options_flee(options),
            start,
        ),
{
    let goals = normalize_goals(goal);
    if goals.len() == 0 {
        return empty_results(0, true);
    }
    let (plain_cost, swamp_cost, weight, max_ops, flee) = raw_options(options);
    let ctx = SearchCtx { terrain, cost_matrix: matrix_of(options), plain_cost, swamp_cost };
    assert(ctx == raw_options_ctx(terrain, options));
    if is_at_goal(&goals, flee, start) {
        return empty_results(0, false);
    }
    let mut st = PathState::new(&ctx, start, Ghost(JUMP_BOUND as int));
    let target_goal = goals[0].pos;
    let start_h = goal_distance(&goals, start);
    proof {
        lemma_min_goal_dist(goals@, start);
    }
    let start_est = estimate(0, start_h, weight);
    let dirs: [(i32, i32); 8] = [(0, -1), (1, -1), (1, 0), (1, 1), (0, 1), (-1, 1), (-1, 0), (-1, -1)];
    let mut d: usize = 0;
    while d < 8
        invariant
            st.inv(ctx, start),
            st.cost_links(ctx, start),
            st.step@ == JUMP_BOUND,
            d <= 8,
            st.counter == d,
            forall|k: int|
                0 <= k < 8 ==> -1 <= (#[trigger] dirs@[k]).0 <= 1 && -1 <= dirs@[k].1 <= 1 && (dirs@[k].0 != 0
                    || dirs@[k].1 != 0),
            forall|m: int|
                0 <= m < st.open@.len() ==> unit((#[trigger] st.open@[m]).dx as int) && unit(st.open@[m].dy as int)
                    && (st.open@[m].dx != 0 || st.open@[m].dy != 0),
        decreases 8 - d,
    {
        let (dx, dy) = dirs[d];
        let ghost before = st.open@;
        let ghost prev_st = st;
        st.push_entry(&ctx, start, OpenEntry { est: start_est, cost: 0, pos: start, dx, dy, id: st.counter + 1 });
        proof {
            lemma_cost_links_same(prev_st, st, ctx, start);
            assert forall|m: int|
                0 <= m < st.open@.len() implies unit((#[trigger] st.open@[m]).dx as int) && unit(st.open@[m].dy as int)
                && (st.open@[m].dx != 0 || st.open@[m].dy != 0) by {
                if m < before.len() {
                    assert(st.open@[m] == before[m]);
                }
            }
        }
        d += 1;
    }
    let mut ops: u64 = 0;
    let mut best_target: Option<Position> = None;
    while st.open.len() > 0
        invariant_except_break
            ops <= max_ops,
            best_target is None,
        invariant
            st.inv(ctx, start),
            st.cost_links(ctx, start),
            st.step@ == JUMP_BOUND,
            ctx.wf(),
            goals@.len() > 0,
            st.counter <= 6 * ops + 8,
            ops <= max_ops as int + 1,
            forall|m: int|
                0 <= m < st.open@.len() ==> unit((#[trigger] st.open@[m]).dx as int) && unit(st.open@[m].dy as int)
                    && (st.open@[m].dx != 0 || st.open@[m].dy != 0),
        ensures
            st.inv(ctx, start),
            st.cost_links(ctx, start),
            ops <= max_ops as int + 1,
            best_target matches Some(t) ==> st.reached(start, t) && at_goal(goals@, flee, t),
        decreases max_ops + 1 - ops,
    {
        let ghost before = st.open@;
        let ghost prev_st = st;
        let entry = st.pop_entry(&ctx, start);
        proof {
            lemma_cost_links_same(prev_st, st, ctx, start);
            assert forall|m: int|
                0 <= m < st.open@.len() implies unit((#[trigger] st.open@[m]).dx as int) && unit(st.open@[m].dy as int)
                && (st.open@[m].dx != 0 || st.open@[m].dy != 0) by {
                let x = st.open@[m];
                assert(before.contains(x));
                let k = choose|k: int| 0 <= k < before.len() && before[k] == x;
                assert(unit(before[k].dx as int));
            }
            let k = choose|k: int| 0 <= k < before.len() && before[k] == entry;
            assert(unit(before[k].dx as int));
        }
        ops += 1;
        if ops > max_ops as u64 {
            break;
        }
        let pos = entry.pos;
        if is_at_goal(&goals, flee, pos) {
            best_target = Some(pos);
            break;
        }
        st.expand_jps(&ctx, &goals, flee, weight, start, target_goal, entry);
    }
    match best_target {
        Some(target) => {
            let path = st.reconstruct(&ctx, start, target);
            let path_cost = st.g_get(start, target);
            SearchResults { path, ops: ops_u32(ops), cost: path_cost, incomplete: false }
        },
        None => search_path_astar(start, goal, options, terrain),
    }
}

/// Offering `node` at cost `new_g` through `pos`: unless `node` is the
/// start or already has a cost no greater, it gets that cost and
/// predecessor and an open entry with the next insertion number.
spec fn offer_effect(
    t: PathTrack,
    start: Position,
    goals: Seq<GoalSpec>,
    weight: u32,
    pos: Position,
    node: Position,
    new_g: u32,
) -> PathTrack {
    let i = pidx(node);
    if node == start || new_g >= t.0[i] {
        t
    } else {
        (
            t.0.update(i, new_g),
            t.1.update(i, Some(pos)),
            t.2.push(
                OpenEntry {
                    est: spec_estimate(new_g, min_goal_dist(goals, node) as u32, weight) as u64,
                    cost: new_g,
                    pos: node,
                    dx: 0,
                    dy: 0,
                    id: (t.3 + 1) as u64,
                },
            ),
            (t.3 + 1) as u64,
        )
    }
}

/// Whether the open tile `(nx, ny)`, entered along `(dx, dy)` at cost
/// `tile_cost`, is a jump node of the hybrid search: arrived, or beside a
/// tile of another cost with an open tile beyond it.
#[verifier::opaque]
pub open spec fn hybrid_jump_node(
    ctx: SearchCtx,
    goals: Seq<GoalSpec>,
    flee: bool,
    nx: int,
    ny: int,
    dx: int,
    dy: int,
    tile_cost: u32,
) -> bool {
    let t = Some(tile_cost);
    at_goal(goals, flee, Position { x: nx as u8, y: ny as u8 }) || if dx != 0 && dy != 0 {
        (ctx.spec_look(((nx - dx) as u8) as int, (ny as u8) as int) != t && ctx.spec_look(
            ((nx - dx) as u8) as int,
            ((ny + dy) as u8) as int,
        ) is Some) || (ctx.spec_look((nx as u8) as int, ((ny - dy) as u8) as int) != t && ctx.spec_look(
            ((nx + dx) as u8) as int,
            ((ny - dy) as u8) as int,
        ) is Some)
    } else if dx != 0 {
        (ctx.spec_look((nx as u8) as int, ((ny - 1) as u8) as int) != t && ctx.spec_look(
            ((nx + dx) as u8) as int,
            ((ny - 1) as u8) as int,
        ) is Some) || (ctx.spec_look((nx as u8) as int, ((ny + 1) as u8) as int) != t && ctx.spec_look(
            ((nx + dx) as u8) as int,
            ((ny + 1) as u8) as int,
        ) is Some)
    } else {
        (ctx.spec_look(((nx - 1) as u8) as int, (ny as u8) as int) != t && ctx.spec_look(
            ((nx - 1) as u8) as int,
            ((ny + dy) as u8) as int,
        ) is Some) || (ctx.spec_look(((nx + 1) as u8) as int, (ny as u8) as int) != t && ctx.spec_look(
            ((nx + 1) as u8) as int,
            ((ny + dy) as u8) as int,
        ) is Some)
    }
}

/// Whether the open tile `(nx, ny)` is a jump node of the hybrid search
/// (see `hybrid_jump_node`).
fn hybrid_jump_node_at(
    ctx: &SearchCtx,
    goals: &Vec<GoalSpec>,
    flee: bool,
    nx: i32,
    ny: i32,
    dx: i32,
    dy: i32,
    tile_cost: u32,
) -> (b: bool)
    requires
        ctx.wf(),
        unit(dx as int),
        unit(dy as int),
        0 <= nx < 100,
        0 <= ny < 100,
    ensures
        b == hybrid_jump_node(*ctx, goals@, flee, nx as int, ny as int, dx as int, dy as int, tile_cost),
{
    reveal(hybrid_jump_node);
    let t = Some(tile_cost);
    let neighbor = Position { x: nx as u8, y: ny as u8 };
    is_at_goal(goals, flee, neighbor) || if dx != 0 && dy != 0 {
        (ctx.look((nx - dx) as u8, ny as u8) != t && ctx.look((nx - dx) as u8, (ny + dy) as u8).is_some())
            || (ctx.look(nx as u8, (ny - dy) as u8) != t && ctx.look((nx + dx) as u8, (ny - dy) as u8).is_some())
    } else if dx != 0 {
        (ctx.look(nx as u8, (ny - 1) as u8) != t && ctx.look((nx + dx) as u8, (ny - 1) as u8).is_some())
            || (ctx.look(nx as u8, (ny + 1) as u8) != t && ctx.look((nx + dx) as u8, (ny + 1) as u8).is_some())
    } else {
        (ctx.look((nx - 1) as u8, ny as u8) != t && ctx.look((nx - 1) as u8, (ny + dy) as u8).is_some())
            || (ctx.look((nx + 1) as u8, ny as u8) != t && ctx.look((nx + 1) as u8, (ny + dy) as u8).is_some())
    }
}

/// Working state of the hybrid search: best cost and predecessor per
/// tile, closed marks (the start's kept apart when it is off the map), the
/// open list, and (ghost) the order in which tiles were closed.
struct HybridState {
    g_score: Vec<u32>,
    came_from: Vec<Option<Position>>,
    closed: Vec<bool>,
    start_closed: bool,
    open: Vec<OpenEntry>,
    counter: u64,
    rank: Ghost<Seq<int>>,
    nclosed: Ghost<nat>,
    cset: Ghost<Set<int>>,
}

impl HybridState {
    /// The best costs, predecessors, open list and insertion counter.
    spec fn htrack(&self) -> PathTrack {
        (self.g_score@, self.came_from@, self.open@, self.counter)
    }

    /// Where the scan of `scan` from `(cx, cy)` along `(dx, dy)`, having
    /// accumulated `acc`, offers a tile: the first open jump node, with the
    /// cost accumulated on reaching it; `None` when the run first leaves the
    /// map, meets an impassable tile, or (diagonally) a blocked corner.
    spec fn scan_target(
        &self,
        ctx: SearchCtx,
        goals: Seq<GoalSpec>,
        flee: bool,
        start: Position,
        cx: int,
        cy: int,
        dx: int,
        dy: int,
        acc: int,
    ) -> Option<(Position, u32)>
        decreases (if dx == 1 {
            300 - cx
        } else if dx == -1 {
            cx + 1
        } else if dy == 1 {
            300 - cy
        } else {
            cy + 1
        }),
    {
        let nx = cx + dx;
        let ny = cy + dy;
        if !unit(dx) || !unit(dy) || (dx == 0 && dy == 0) || !(0 <= nx < 100 && 0 <= ny < 100) {
            None
        } else if dx != 0 && dy != 0 && (ctx.spec_look((cx as u8) as int, (ny as u8) as int) is None
            || ctx.spec_look((nx as u8) as int, (cy as u8) as int) is None) {
            None
        } else {
            match ctx.spec_look((nx as u8) as int, (ny as u8) as int) {
                None => None,
                Some(tile_cost) => {
                    let acc2 = acc + tile_cost;
                    let neighbor = Position { x: nx as u8, y: ny as u8 };
                    if self.is_closed(start, neighbor) {
                        self.scan_target(ctx, goals, flee, start, nx, ny, dx, dy, acc2)
                    } else if hybrid_jump_node(ctx, goals, flee, nx, ny, dx, dy, tile_cost) {
                        Some((neighbor, acc2 as u32))
                    } else {
                        self.scan_target(ctx, goals, flee, start, nx, ny, dx, dy, acc2)
                    }
                },
            }
        }
    }

    /// Whether `p` is closed.
    spec fn is_closed(&self, start: Position, p: Position) -> bool {
        if in_bounds(p) {
            self.closed@[pidx(p)]
        } else {
            p == start && self.start_closed
        }
    }

    /// Best known cost of reaching `p` (0 for the start).
    spec fn gv(&self, start: Position, p: Position) -> int {
        if p == start {
            0
        } else if in_bounds(p) {
            self.g_score@[pidx(p)] as int
        } else {
            u32::MAX as int
        }
    }

    /// The predecessor of slot `i` is the start or a tile closed before it,
    /// with a passable run from it.
    spec fn link_ok(&self, start: Position, ctx: SearchCtx, i: int) -> bool {
        self.came_from@[i] matches Some(p) ==> {
            &&& run_edge(ctx, p, pos_of(i))
            &&& (p == start || (in_bounds(p) && self.closed@[pidx(p)] && (self.closed@[i] ==> self.rank@[pidx(p)]
                < self.rank@[i])))
        }
    }

    /// Every tile's best cost is at least its predecessor's plus the cost of
    /// the run between them, and every open entry's cost is at least its
    /// tile's best cost.
    spec fn hcost_ok(&self, ctx: SearchCtx, start: Position) -> bool {
        &&& forall|i: int|
            0 <= i < 10000 ==> (#[trigger] self.came_from@[i] matches Some(p) ==> self.g_score@[i] >= self.gv(start, p)
                + run_cost(ctx, p, pos_of(i)))
        &&& forall|j: int| 0 <= j < self.open@.len() ==> (#[trigger] self.open@[j]).cost >= self.gv(start, self.open@[j].pos)
    }

    spec fn inv(&self, ctx: SearchCtx, start: Position) -> bool {
        &&& self.g_score@.len() == 10000
        &&& self.came_from@.len() == 10000
        &&& self.closed@.len() == 10000
        &&& self.rank@.len() == 10000
        &&& self.cset@.finite()
        &&& self.cset@.len() == self.nclosed@
        &&& self.nclosed@ <= 10000
        &&& forall|i: int| #[trigger] self.cset@.contains(i) <==> (0 <= i < 10000 && self.closed@[i])
        &&& in_bounds(start) ==> self.g_score@[pidx(start)] == 0 && self.came_from@[pidx(start)] is None
        &&& forall|i: int|
            0 <= i < 10000 && pos_of(i) != start ==> ((#[trigger] self.came_from@[i] is Some) <==> self.g_score@[i]
                != u32::MAX)
        &&& forall|i: int| 0 <= i < 10000 ==> #[trigger] self.link_ok(start, ctx, i)
        &&& forall|i: int|
            0 <= i < 10000 && #[trigger] self.closed@[i] ==> (pos_of(i) == start || self.came_from@[i] is Some)
                && 0 <= self.rank@[i] < self.nclosed@ && self.g_score@[i] <= JUMP_BOUND * self.nclosed@
        &&& forall|i: int|
            0 <= i < 10000 && #[trigger] self.g_score@[i] != u32::MAX ==> self.g_score@[i] <= JUMP_BOUND * (
            self.nclosed@ + 1)
        &&& forall|j: int|
            0 <= j < self.open@.len() ==> (#[trigger] self.open@[j].pos == start || (in_bounds(self.open@[j].pos)
                && self.came_from@[pidx(self.open@[j].pos)] is Some)) && self.open@[j].cost <= JUMP_BOUND * (
            self.nclosed@ + 1)
        &&& forall|j: int| 0 <= j < self.open@.len() && #[trigger] self.open@[j].pos == start ==> self.open@[j].cost == 0
    }

    fn new(ctx: &SearchCtx, start: Position) -> (st: Self)
        ensures
            st.inv(*ctx, start),
            st.open@.len() == 0,
            st.counter == 0,
            st.nclosed@ == 0,
            !st.start_closed,
            forall|i: int| 0 <= i < 10000 ==> !st.closed@[i],
            forall|i: int| 0 <= i < 10000 && pos_of(i) != start ==> #[trigger] st.g_score@[i] == u32::MAX,
    {
        let mut g_score = vec![u32::MAX; 10000];
        if start.x < 100 && start.y < 100 {
            g_score.set(index_of(start), 0);
        }
        let st = HybridState {
            g_score,
            came_from: vec![None; 10000],
            closed: vec![false; 10000],
            start_closed: false,
            open: Vec::new(),
            counter: 0,
            rank: Ghost(Seq::new(10000, |i: int| 0)),
            nclosed: Ghost(0),
            cset: Ghost(Set::empty()),
        };
        proof {
            if in_bounds(start) {
                lemma_pidx(start);
            }
            assert forall|i: int| #[trigger] st.cset@.contains(i) <==> (0 <= i < 10000 && st.closed@[i]) by {
                if 0 <= i < 10000 {
                    assert(!st.closed@[i]);
                }
            }
            assert forall|i: int| 0 <= i < 10000 implies #[trigger] st.link_ok(start, *ctx, i) by {
                assert(st.came_from@[i] == None::<Position>);
            }
            assert forall|i: int|
                0 <= i < 10000 && pos_of(i) != start implies ((#[trigger] st.came_from@[i] is Some) <==> st.g_score@[i]
                != u32::MAX) by {
                assert(st.came_from@[i] == None::<Position>);
                if st.g_score@[i] != u32::MAX {
                    assert(i == pidx(start));
                    lemma_pos_of(i);
                }
            }
            assert forall|i: int|
                0 <= i < 10000 && #[trigger] st.g_score@[i] != u32::MAX implies st.g_score@[i] <= JUMP_BOUND * (
                st.nclosed@ + 1) by {
                if st.g_score@[i] != u32::MAX {
                    assert(i == pidx(start));
                }
            }
            assert forall|i: int| 0 <= i < 10000 && pos_of(i) != start implies #[trigger] st.g_score@[i] == u32::MAX by {
                if st.g_score@[i] != u32::MAX {
                    assert(i == pidx(start));
                    lemma_pos_of(i);
                }
            }
        }
        st
    }

    /// Whether `p` is closed.
    fn closed_at(&self, start: Position, p: Position) -> (b: bool)
        requires
            self.closed@.len() == 10000,
        ensures
            b == self.is_closed(start, p),
    {
        if p.x < 100 && p.y < 100 {
            self.closed[index_of(p)]
        } else {
            p.x == start.x && p.y == start.y && self.start_closed
        }
    }

    /// Best known cost of reaching `p` (0 for the start, `u32::MAX` if unknown).
    fn g_get(&self, start: Position, p: Position) -> (g: u32)
        requires
            self.g_score@.len() == 10000,
        ensures
            g == self.gv(start, p),
    {
        if p.x == start.x && p.y == start.y {
            0
        } else if p.x < 100 && p.y < 100 {
            self.g_score[index_of(p)]
        } else {
            u32::MAX
        }
    }

    /// Closes `p` (the start or a tile with a predecessor).
    fn close(&mut self, ctx: &SearchCtx, start: Position, p: Position)
        requires
            old(self).inv(*ctx, start),
            !old(self).is_closed(start, p),
            p == start || (in_bounds(p) && old(self).came_from@[pidx(p)] is Some),
            old(self).gv(start, p) <= JUMP_BOUND * (old(self).nclosed@ + 1),
        ensures
            final(self).inv(*ctx, start),
            final(self).is_closed(start, p),
            final(self).nclosed@ >= old(self).nclosed@,
            final(self).nclosed@ <= old(self).nclosed@ + 1,
            in_bounds(p) ==> final(self).nclosed@ == old(self).nclosed@ + 1,
            in_bounds(p) ==> final(self).rank@[pidx(p)] == old(self).nclosed@,
            final(self).open == old(self).open,
            final(self).counter == old(self).counter,
            final(self).g_score == old(self).g_score,
            final(self).came_from == old(self).came_from,
            forall|q: Position| q != p ==> final(self).is_closed(start, q) == old(self).is_closed(start, q),
            forall|q: Position| old(self).is_closed(start, q) ==> final(self).is_closed(start, q),
            forall|q: Position|
                in_bounds(q) && old(self).is_closed(start, q) ==> final(self).rank@[pidx(q)] == old(self).rank@[pidx(q)],
    {
        if p.x < 100 && p.y < 100 {
            let i = index_of(p);
            let ghost prev = *self;
            proof {
                lemma_pidx(p);
                assert(self.cset@.subset_of(set_int_range(0, 10000)));
                lemma_int_range(0, 10000);
                let bigger = self.cset@.insert(i as int);
                assert(bigger.subset_of(set_int_range(0, 10000)));
                lemma_len_subset(bigger, set_int_range(0, 10000));
            }
            self.closed.set(i, true);
            proof {
                self.rank@ = self.rank@.update(i as int, self.nclosed@ as int);
                self.nclosed@ = self.nclosed@ + 1;
                self.cset@ = self.cset@.insert(i as int);
                assert forall|j: int| 0 <= j < 10000 implies #[trigger] self.link_ok(start, *ctx, j) by {
                    assert(prev.link_ok(start, *ctx, j));
                    if let Some(q) = self.came_from@[j] {
                        if q != start && j == i {
                            assert(prev.rank@[pidx(q)] < prev.nclosed@);
                        }
                    }
                }
                assert forall|j: int| #[trigger] self.cset@.contains(j) <==> (0 <= j < 10000 && self.closed@[j]) by {
                    assert(prev.cset@.contains(j) <==> (0 <= j < 10000 && prev.closed@[j]));
                }
                assert forall|j: int|
                    0 <= j < 10000 && #[trigger] self.closed@[j] implies (pos_of(j) == start || self.came_from@[j]
                    is Some) && 0 <= self.rank@[j] < self.nclosed@ && self.g_score@[j] <= JUMP_BOUND
                    * self.nclosed@ by {
                    if j != i {
                        assert(prev.closed@[j]);
                    } else {
                        lemma_pos_of(j);
                    }
                }
                assert forall|j: int|
                    0 <= j < 10000 && #[trigger] self.g_score@[j] != u32::MAX implies self.g_score@[j] <= JUMP_BOUND
                    * (self.nclosed@ + 1) by {
                    assert(prev.g_score@[j] <= JUMP_BOUND * (prev.nclosed@ + 1));
                }
                assert forall|j: int|
                    0 <= j < self.open@.len() implies (#[trigger] self.open@[j].pos == start || (in_bounds(
                    self.open@[j].pos,
                ) && self.came_from@[pidx(self.open@[j].pos)] is Some)) && self.open@[j].cost <= JUMP_BOUND * (
                self.nclosed@ + 1) by {
                    assert(prev.open@[j] == self.open@[j]);
                }
                assert forall|q: Position| q != p implies self.is_closed(start, q) == prev.is_closed(start, q) by {
                    if in_bounds(q) {
                        lemma_pidx(q);
                    }
                }
                assert forall|q: Position|
                    in_bounds(q) && prev.is_closed(start, q) implies self.rank@[pidx(q)] == prev.rank@[pidx(q)] by {
                    lemma_pidx(q);
                }
            }
        } else {
            self.start_closed = true;
            proof {
                assert forall|j: int| 0 <= j < 10000 implies #[trigger] self.link_ok(start, *ctx, j) by {
                    assert(old(self).link_ok(start, *ctx, j));
                }
            }
        }
    }

    /// Makes the closed `pos` the predecessor of the open tile `node` with
    /// cost `new_g` when that improves on its best cost, and opens it.
    fn offer(
        &mut self,
        ctx: &SearchCtx,
        goals: &Vec<GoalSpec>,
        weight: u32,
        start: Position,
        pos: Position,
        node: Position,
        new_g: u32,
    )
        requires
            old(self).inv(*ctx, start),
            old(self).is_closed(start, pos),
            pos == start || in_bounds(pos),
            run_edge(*ctx, pos, node),
            in_bounds(node),
            !old(self).is_closed(start, node),
            new_g <= JUMP_BOUND * (old(self).nclosed@ + 1),
            old(self).counter < u64::MAX,
            goals@.len() > 0,
        ensures
            final(self).inv(*ctx, start),
            final(self).closed == old(self).closed,
            final(self).start_closed == old(self).start_closed,
            final(self).rank == old(self).rank,
            final(self).nclosed == old(self).nclosed,
            final(self).cset == old(self).cset,
            old(self).counter <= final(self).counter <= old(self).counter + 1,
            final(self).htrack() == offer_effect(old(self).htrack(), start, goals@, weight, pos, node, new_g),
    {
        let i = index_of(node);
        proof {
            lemma_pidx(node);
        }
        if node.x == start.x && node.y == start.y {
            return;
        }
        if new_g < self.g_score[i] {
            let ghost prev = *self;
            self.came_from.set(i, Some(pos));
            self.g_score.set(i, new_g);
            let h = goal_distance(goals, node);
            proof {
                lemma_min_goal_dist(goals@, node);
                assert(new_g <= 300_000_000);
            }
            let est = estimate(new_g, h, weight);
            self.counter = self.counter + 1;
            self.open.push(OpenEntry { est, cost: new_g, pos: node, dx: 0, dy: 0, id: self.counter });
            proof {
                if pos != start {
                    lemma_pidx(pos);
                }
                assert forall|j: int| 0 <= j < 10000 implies #[trigger] self.link_ok(start, *ctx, j) by {
                    assert(prev.link_ok(start, *ctx, j));
                    lemma_pos_of(j);
                }
                assert forall|j: int|
                    0 <= j < 10000 && pos_of(j) != start implies ((#[trigger] self.came_from@[j] is Some) <==> self.g_score@[j]
                    != u32::MAX) by {
                    if j != i {
                        assert(prev.came_from@[j] is Some <==> prev.g_score@[j] != u32::MAX);
                    }
                }
                assert forall|j: int|
                    0 <= j < 10000 && #[trigger] self.closed@[j] implies (pos_of(j) == start || self.came_from@[j]
                    is Some) && 0 <= self.rank@[j] < self.nclosed@ && self.g_score@[j] <= JUMP_BOUND
                    * self.nclosed@ by {
                    assert(prev.closed@[j]);
                    if j == i {
                        lemma_pos_of(j);
                    }
                }
                assert forall|j: int|
                    0 <= j < 10000 && #[trigger] self.g_score@[j] != u32::MAX implies self.g_score@[j] <= JUMP_BOUND
                    * (self.nclosed@ + 1) by {
                    if j != i {
                        assert(prev.g_score@[j] <= JUMP_BOUND * (prev.nclosed@ + 1));
                    }
                }
                assert forall|j: int|
                    0 <= j < self.open@.len() implies (#[trigger] self.open@[j].pos == start || (in_bounds(
                    self.open@[j].pos,
                ) && self.came_from@[pidx(self.open@[j].pos)] is Some)) && self.open@[j].cost <= JUMP_BOUND * (
                self.nclosed@ + 1) by {
                    if j < prev.open@.len() {
                        assert(prev.open@[j] == self.open@[j]);
                        if self.open@[j].pos != start {
                            assert(prev.came_from@[pidx(self.open@[j].pos)] is Some);
                        }
                    }
                }
            }
        }
    }

    /// Scans from the closed `pos` along `(dx, dy)`, passing over closed
    /// tiles, and offers the first open tile that is a jump node (arrived,
    /// or beside a change of cost) at the cost accumulated so far.
    #[verifier::rlimit(100)]
    #[verifier::spinoff_prover]
    fn scan(
        &mut self,
        ctx: &SearchCtx,
        goals: &Vec<GoalSpec>,
        flee: bool,
        weight: u32,
        start: Position,
        pos: Position,
        cost: u32,
        dx: i32,
        dy: i32,
    )
        requires
            old(self).inv(*ctx, start),
            ctx.wf(),
            old(self).is_closed(start, pos),
            pos == start || in_bounds(pos),
            cost <= JUMP_BOUND * old(self).nclosed@,
            unit(dx as int),
            unit(dy as int),
            dx != 0 || dy != 0,
            old(self).counter < u64::MAX - 8,
            goals@.len() > 0,
        ensures
            final(self).inv(*ctx, start),
            final(self).closed == old(self).closed,
            final(self).start_closed == old(self).start_closed,
            final(self).rank == old(self).rank,
            final(self).nclosed == old(self).nclosed,
            final(self).cset == old(self).cset,
            old(self).counter <= final(self).counter <= old(self).counter + 1,
            final(self).htrack() == match old(self).scan_target(
                *ctx,
                goals@,
                flee,
                start,
                pos.x as int,
                pos.y as int,
                dx as int,
                dy as int,
                cost as int,
            ) {
                Some((node, g)) => offer_effect(old(self).htrack(), start, goals@, weight, pos, node, g),
                None => old(self).htrack(),
            },
    {
        let mut curr_x: i32 = pos.x as i32;
        let mut curr_y: i32 = pos.y as i32;
        let mut jump_g: u32 = cost;
        let ghost mut j: int = 0;
        loop
            invariant
                self == old(self),
                self.inv(*ctx, start),
                ctx.wf(),
                self.is_closed(start, pos),
                pos == start || in_bounds(pos),
                old(self).counter < u64::MAX - 8,
                goals@.len() > 0,
                unit(dx as int),
                unit(dy as int),
                dx != 0 || dy != 0,
                cost <= JUMP_BOUND * self.nclosed@,
                self.nclosed@ <= 10000,
                0 <= j <= 100,
                curr_x == ray(pos.x as int, dx as int, j),
                curr_y == ray(pos.y as int, dy as int, j),
                0 <= curr_x <= 255,
                0 <= curr_y <= 255,
                j >= 1 ==> on_map(curr_x as int, curr_y as int),
                j >= 1 ==> on_map(ray(pos.x as int, dx as int, 1), ray(pos.y as int, dy as int, 1)),
                run_passable(*ctx, pos.x as int, pos.y as int, dx as int, dy as int, 1, j),
                cost <= jump_g <= cost + 255 * j,
                old(self).scan_target(*ctx, goals@, flee, start, pos.x as int, pos.y as int, dx as int, dy as int, cost as int)
                    == old(self).scan_target(*ctx, goals@, flee, start, curr_x as int, curr_y as int, dx as int, dy as int, jump_g as int),
            decreases (if dx == 1 {
                300 - curr_x
            } else if dx == -1 {
                curr_x + 1
            } else if dy == 1 {
                300 - curr_y
            } else {
                curr_y + 1
            }),
        {
            let ghost cx0 = curr_x as int;
            let ghost cy0 = curr_y as int;
            let ghost g0 = jump_g as int;
            let nx = curr_x + dx;
            let ny = curr_y + dy;
            if nx < 0 || nx >= 100 || ny < 0 || ny >= 100 {
                assert(old(self).scan_target(*ctx, goals@, flee, start, cx0, cy0, dx as int, dy as int, g0) is None);
                return;
            }
            if dx != 0 && dy != 0 {
                let orth1_blocked = ctx.look(curr_x as u8, ny as u8).is_none();
                let orth2_blocked = ctx.look(nx as u8, curr_y as u8).is_none();
                if orth1_blocked || orth2_blocked {
                    assert(old(self).scan_target(*ctx, goals@, flee, start, cx0, cy0, dx as int, dy as int, g0) is None);
                    return;
                }
            }
            let tile_cost = match ctx.look(nx as u8, ny as u8) {
                Some(c) => c,
                None => {
                    assert(old(self).scan_target(*ctx, goals@, flee, start, cx0, cy0, dx as int, dy as int, g0) is None);
                    return;
                },
            };
            proof {
                if j >= 1 {
                    if dx == 1 {
                        assert(j <= 98);
                    } else if dx == -1 {
                        assert(j <= 99);
                    } else if dy == 1 {
                        assert(j <= 98);
                    } else {
                        assert(j <= 99);
                    }
                }
            }
            jump_g = jump_g + tile_cost;
            let neighbor = Position { x: nx as u8, y: ny as u8 };
            proof {
                j = j + 1;
                assert forall|i: int| 1 <= i <= j implies #[trigger] ctx.passable(
                    ray(pos.x as int, dx as int, i),
                    ray(pos.y as int, dy as int, i),
                ) by {
                    if i < j {
                        assert(run_passable(*ctx, pos.x as int, pos.y as int, dx as int, dy as int, 1, j - 1));
                    }
                }
                assert(cheb(pos, neighbor) == j);
                assert(255 * j <= JUMP_BOUND);
            }
            if self.closed_at(start, neighbor) {
                assert(old(self).scan_target(*ctx, goals@, flee, start, cx0, cy0, dx as int, dy as int, g0)
                    == old(self).scan_target(*ctx, goals@, flee, start, nx as int, ny as int, dx as int, dy as int, jump_g as int));
                curr_x = nx;
                curr_y = ny;
                continue;
            }
            let is_jump_node = hybrid_jump_node_at(ctx, goals, flee, nx, ny, dx, dy, tile_cost);
            if is_jump_node {
                assert(old(self).scan_target(*ctx, goals@, flee, start, cx0, cy0, dx as int, dy as int, g0)
                    == Some((neighbor, jump_g)));
                self.offer(ctx, goals, weight, start, pos, neighbor, jump_g);
                return;
            }
            assert(old(self).scan_target(*ctx, goals@, flee, start, cx0, cy0, dx as int, dy as int, g0)
                == old(self).scan_target(*ctx, goals@, flee, start, nx as int, ny as int, dx as int, dy as int, jump_g as int));
            curr_x = nx;
            curr_y = ny;
        }
    }

    /// Follows predecessors back from the closed `target` to `start` and
    /// returns the walk from `start`, every skipped tile filled in.
    fn reconstruct(&self, ctx: &SearchCtx, start: Position, target: Position) -> (path: Vec<Position>)
        requires
            self.inv(*ctx, start),
            ctx.wf(),
            self.is_closed(start, target),
            target == start || in_bounds(target),
        ensures
            valid_walk(*ctx, start, path@),
            target != start ==> path@.len() > 0 && path@.last() == target,
            target == start ==> path@.len() == 0,
            self.hcost_ok(*ctx, start) ==> path_cost(*ctx, path@) <= self.gv(start, target),
    {
        let mut nodes: Vec<Position> = Vec::new();
        let mut curr = target;
        while curr.x != start.x || curr.y != start.y
            invariant
                self.inv(*ctx, start),
                forall|k: int|
                    0 <= k < nodes@.len() ==> #[trigger] nodes@[k] != start && in_bounds(nodes@[k]),
                forall|k: int|
                    0 <= k < nodes@.len() - 1 ==> self.came_from@[pidx(#[trigger] nodes@[k])] == Some(nodes@[k + 1]),
                nodes@.len() > 0 ==> self.came_from@[pidx(nodes@.last())] == Some(curr),
                curr == start || (in_bounds(curr) && self.closed@[pidx(curr)]),
                forall|k: int| 0 <= k < nodes@.len() - 1 ==> run_edge(*ctx, nodes@[k + 1], #[trigger] nodes@[k]),
                nodes@.len() > 0 ==> run_edge(*ctx, curr, nodes@.last()),
                nodes@.len() > 0 ==> nodes@[0] == target,
                nodes@.len() == 0 ==> curr == target,
                target == start ==> nodes@.len() == 0,
            decreases (if curr == start { 0 } else { self.rank@[pidx(curr)] + 1 }),
        {
            let i = index_of(curr);
            proof {
                lemma_pidx(curr);
                lemma_pos_of(i as int);
                assert(self.link_ok(start, *ctx, i as int));
                assert(self.came_from@[i as int] is Some);
            }
            let ghost prev = nodes@;
            nodes.push(curr);
            let p = self.came_from[i].unwrap();
            proof {
                assert(self.came_from@[i as int] == Some(p));
                assert forall|m: int|
                    0 <= m < nodes@.len() - 1 implies self.came_from@[pidx(#[trigger] nodes@[m])] == Some(nodes@[m + 1]) by {
                    if m < prev.len() - 1 {
                        assert(nodes@[m] == prev[m] && nodes@[m + 1] == prev[m + 1]);
                    } else {
                        assert(nodes@[m] == prev.last());
                    }
                }
                assert forall|m: int| 0 <= m < nodes@.len() implies #[trigger] nodes@[m] != start && in_bounds(nodes@[m]) by {
                    if m < prev.len() {
                        assert(nodes@[m] == prev[m]);
                    }
                }
                assert forall|m: int| 0 <= m < nodes@.len() - 1 implies run_edge(*ctx, nodes@[m + 1], #[trigger] nodes@[m]) by {
                    if m < prev.len() - 1 {
                        assert(nodes@[m] == prev[m] && nodes@[m + 1] == prev[m + 1]);
                    }
                }
                if p != start {
                    lemma_pidx(p);
                }
            }
            curr = p;
        }
        let mut path: Vec<Position> = Vec::new();
        let mut prev = start;
        let mut k: usize = nodes.len();
        while k > 0
            invariant
                ctx.wf(),
                k <= nodes@.len(),
                forall|m: int| 0 <= m < nodes@.len() - 1 ==> run_edge(*ctx, nodes@[m + 1], #[trigger] nodes@[m]),
                nodes@.len() > 0 ==> run_edge(*ctx, start, nodes@.last()),
                k < nodes@.len() ==> prev == nodes@[k as int],
                k == nodes@.len() ==> prev == start,
                k == nodes@.len() ==> path@.len() == 0,
                valid_walk(*ctx, start, path@),
                walk_end(start, path@) == prev,
                self.inv(*ctx, start),
                forall|m: int|
                    0 <= m < nodes@.len() ==> #[trigger] nodes@[m] != start && in_bounds(nodes@[m]),
                forall|m: int|
                    0 <= m < nodes@.len() - 1 ==> self.came_from@[pidx(#[trigger] nodes@[m])] == Some(nodes@[m + 1]),
                nodes@.len() > 0 ==> self.came_from@[pidx(nodes@.last())] == Some(start),
                self.hcost_ok(*ctx, start) ==> path_cost(*ctx, path@) <= self.gv(start, prev),
            decreases k,
        {
            k -= 1;
            let node = nodes[k];
            interpolate(ctx, &mut path, Ghost(start), prev, node);
            proof {
                if self.hcost_ok(*ctx, start) {
                    assert(self.came_from@[pidx(node)] == Some(prev)) by {
                        if k + 1 < nodes@.len() {
                            assert(prev == nodes@[k + 1]);
                        }
                    }
                    lemma_pidx(node);
                    assert(self.came_from@[pidx(node)] matches Some(q) ==> self.g_score@[pidx(node)] >= self.gv(start, q)
                        + run_cost(*ctx, q, pos_of(pidx(node))));
                }
            }
            prev = node;
        }
        path
    }
}

/// The search directions from `pos` reached from `parent`: for a diagonal
/// step `(dx, dy)`, itself, its two components and the two turns
/// `(-dx, dy)` and `(dx, -dy)`; for a straight step, itself and its two
/// diagonal neighbours; at the start all eight, clockwise from the top.
pub open spec fn spec_hybrid_dirs(parent: Option<Position>, pos: Position) -> Seq<(i32, i32)> {
    match parent {
        Some(p) => {
            let dx = sign(pos.x - p.x) as i32;
            let dy = sign(pos.y - p.y) as i32;
            if dx != 0 && dy != 0 {
                seq![(dx, dy), (dx, 0i32), (0i32, dy), ((-dx) as i32, dy), (dx, (-dy) as i32)]
            } else if dx != 0 {
                seq![(dx, 0i32), (dx, -1i32), (dx, 1i32)]
            } else {
                seq![(0i32, dy), (-1i32, dy), (1i32, dy)]
            }
        },
        None => seq![
            (0i32, -1i32),
            (1i32, -1i32),
            (1i32, 0i32),
            (1i32, 1i32),
            (0i32, 1i32),
            (-1i32, 1i32),
            (-1i32, 0i32),
            (-1i32, -1i32),
        ],
    }
}

/// The search directions from `pos` reached from `parent`: the direction
/// of travel and its forced turns; all eight at the start.
fn hybrid_dirs(parent: Option<Position>, pos: Position) -> (dirs: Vec<(i32, i32)>)
    requires
        parent matches Some(p) ==> p != pos,
    ensures
        dirs@ == spec_hybrid_dirs(parent, pos),
        dirs@.len() <= 8,
        forall|k: int|
            0 <= k < dirs@.len() ==> unit((#[trigger] dirs@[k]).0 as int) && unit(dirs@[k].1 as int) && (dirs@[k].0
                != 0 || dirs@[k].1 != 0),
{
    match parent {
        Some(p) => {
            let dx = sign_diff(pos.x, p.x);
            let dy = sign_diff(pos.y, p.y);
            if dx != 0 && dy != 0 {
                let ndx = -dx;
                let ndy = -dy;
                vec![(dx, dy), (dx, 0), (0, dy), (ndx, dy), (dx, ndy)]
            } else if dx != 0 {
                vec![(dx, 0), (dx, -1), (dx, 1)]
            } else {
                vec![(0, dy), (-1, dy), (1, dy)]
            }
        },
        None => vec![(0, -1), (1, -1), (1, 0), (1, 1), (0, 1), (-1, 1), (-1, 0), (-1, -1)],
    }
}

/// What the hybrid scan accumulates, continued `j` tiles along the run
/// from `pos`: the cost of entering the run's tiles up to the tile offered.
proof fn lemma_scan_target_cost(
    st: HybridState,
    ctx: SearchCtx,
    goals: Seq<GoalSpec>,
    flee: bool,
    start: Position,
    pos: Position,
    dx: int,
    dy: int,
    j: int,
    acc: int,
    q: Position,
    a: u32,
)
    requires
        ctx.wf(),
        unit(dx),
        unit(dy),
        dx != 0 || dy != 0,
        0 <= j <= 400,
        0 <= acc <= 300_000_000 + 255 * j,
        st.scan_target(ctx, goals, flee, start, ray(pos.x as int, dx, j), ray(pos.y as int, dy, j), dx, dy, acc)
            == Some((q, a)),
    ensures
        j < cheb(pos, q),
        q == run_tile(pos, dx, dy, cheb(pos, q)),
        0 <= ray(pos.x as int, dx, cheb(pos, q)) < 100,
        0 <= ray(pos.y as int, dy, cheb(pos, q)) < 100,
        a == acc + run_sum(ctx, pos, dx, dy, cheb(pos, q)) - run_sum(ctx, pos, dx, dy, j),
    decreases 400 - j,
{
    let cx = ray(pos.x as int, dx, j);
    let cy = ray(pos.y as int, dy, j);
    let nx = cx + dx;
    let ny = cy + dy;
    assert(nx == ray(pos.x as int, dx, j + 1));
    assert(ny == ray(pos.y as int, dy, j + 1));
    assert(0 <= nx < 100 && 0 <= ny < 100);
    let c = ctx.spec_look((nx as u8) as int, (ny as u8) as int)->0;
    let acc2 = acc + c;
    let neighbor = Position { x: nx as u8, y: ny as u8 };
    assert(neighbor == run_tile(pos, dx, dy, j + 1));
    assert(c <= 255);
    assert(run_sum(ctx, pos, dx, dy, j + 1) == run_sum(ctx, pos, dx, dy, j) + step_cost(ctx, neighbor));
    assert(step_cost(ctx, neighbor) == c);
    if !st.is_closed(start, neighbor) && hybrid_jump_node(ctx, goals, flee, nx, ny, dx, dy, c) {
        assert(q == neighbor);
        assert(cheb(pos, q) == j + 1);
    } else {
        assert(j + 1 <= 400);
        lemma_scan_target_cost(st, ctx, goals, flee, start, pos, dx, dy, j + 1, acc2, q, a);
    }
}

/// One scan of the hybrid search keeps its costs bounded by its links.
proof fn lemma_hybrid_scan_cost(
    b: HybridState,
    st: HybridState,
    ctx: SearchCtx,
    goals: Seq<GoalSpec>,
    flee: bool,
    weight: u32,
    start: Position,
    pos: Position,
    cost: u32,
    dx: int,
    dy: int,
)
    requires
        b.inv(ctx, start),
        b.hcost_ok(ctx, start),
        ctx.wf(),
        unit(dx),
        unit(dy),
        dx != 0 || dy != 0,
        pos == start || in_bounds(pos),
        cost >= b.gv(start, pos),
        cost <= 300_000_000,
        st.htrack() == match b.scan_target(ctx, goals, flee, start, pos.x as int, pos.y as int, dx, dy, cost as int) {
            Some((node, g)) => offer_effect(b.htrack(), start, goals, weight, pos, node, g),
            None => b.htrack(),
        },
    ensures
        st.hcost_ok(ctx, start),
        forall|q: Position| #[trigger] st.gv(start, q) <= b.gv(start, q),
{
    let r = b.scan_target(ctx, goals, flee, start, pos.x as int, pos.y as int, dx, dy, cost as int);
    if let Some((node, g)) = r {
        assert(ray(pos.x as int, dx, 0) == pos.x);
        assert(ray(pos.y as int, dy, 0) == pos.y);
        lemma_scan_target_cost(b, ctx, goals, flee, start, pos, dx, dy, 0, cost as int, node, g);
        lemma_scan_target_in_bounds(b, ctx, goals, flee, start, pos.x as int, pos.y as int, dx, dy, cost as int);
        lemma_pidx(node);
        let ni = pidx(node);
        let m = cheb(pos, node);
        assert(node.x as int == ray(pos.x as int, dx, m));
        assert(node.y as int == ray(pos.y as int, dy, m));
        assert(sign(node.x - pos.x) == dx);
        assert(sign(node.y - pos.y) == dy);
        assert(run_sum(ctx, pos, dx, dy, 0) == 0);
        assert(g == cost + run_cost(ctx, pos, node));
        if node == start || g >= b.g_score@[ni] {
            assert(st.htrack() == b.htrack());
        } else {
            assert forall|q: Position| #[trigger] st.gv(start, q) <= b.gv(start, q) by {
                if q != start && in_bounds(q) {
                    lemma_pidx(q);
                }
            }
            assert(node != pos);
            if pos != start {
                lemma_pidx(pos);
            }
            assert(st.gv(start, pos) == b.gv(start, pos));
            assert forall|i: int| 0 <= i < 10000 implies (#[trigger] st.came_from@[i] matches Some(p) ==> st.g_score@[i]
                >= st.gv(start, p) + run_cost(ctx, p, pos_of(i))) by {
                if i == ni {
                    lemma_pos_of(i);
                    assert(st.came_from@[i] == Some(pos));
                } else {
                    assert(st.came_from@[i] == b.came_from@[i]);
                    if let Some(p) = st.came_from@[i] {
                        if p != start && in_bounds(p) {
                            lemma_pidx(p);
                        }
                        assert(st.gv(start, p) <= b.gv(start, p));
                    }
                }
            }
            assert forall|j: int| 0 <= j < st.open@.len() implies (#[trigger] st.open@[j]).cost >= st.gv(
                start,
                st.open@[j].pos,
            ) by {
                if j < b.open@.len() {
                    assert(st.open@[j] == b.open@[j]);
                    let q = b.open@[j].pos;
                    if q != start && in_bounds(q) {
                        lemma_pidx(q);
                    }
                    assert(st.gv(start, q) <= b.gv(start, q));
                }
            }
        }
    } else {
        assert(st.htrack() == b.htrack());
    }
}

/// The first tile of the ray from `(cx, cy)` along `(dx, dy)` that is a
/// jump node of the hybrid search (see `hybrid_jump_node`); `None` when the
/// ray first leaves the map, meets an impassable tile, or (diagonally) a
/// blocked corner.
pub open spec fn hybrid_ray_hit(
    ctx: SearchCtx,
    goals: Seq<GoalSpec>,
    flee: bool,
    cx: int,
    cy: int,
    dx: int,
    dy: int,
) -> Option<Position>
    decreases (if dx == 1 {
        300 - cx
    } else if dx == -1 {
        cx + 1
    } else if dy == 1 {
        300 - cy
    } else {
        cy + 1
    }),
{
    let nx = cx + dx;
    let ny = cy + dy;
    if !unit(dx) || !unit(dy) || (dx == 0 && dy == 0) || !(0 <= nx < 100 && 0 <= ny < 100) {
        None
    } else if dx != 0 && dy != 0 && (ctx.spec_look((cx as u8) as int, (ny as u8) as int) is None
        || ctx.spec_look((nx as u8) as int, (cy as u8) as int) is None) {
        None
    } else {
        match ctx.spec_look((nx as u8) as int, (ny as u8) as int) {
            None => None,
            Some(tile_cost) => if hybrid_jump_node(ctx, goals, flee, nx, ny, dx, dy, tile_cost) {
                Some(Position { x: nx as u8, y: ny as u8 })
            } else {
                hybrid_ray_hit(ctx, goals, flee, nx, ny, dx, dy)
            },
        }
    }
}

/// The ray from `start` along `(dx, dy)` first meets, among the hybrid
/// search's jump nodes, a tile where the goals count as arrived.
pub open spec fn hybrid_ray_arrives(ctx: SearchCtx, goals: Seq<GoalSpec>, flee: bool, start: Position, dx: int, dy: int) -> bool {
    hybrid_ray_hit(ctx, goals, flee, start.x as int, start.y as int, dx, dy) matches Some(t) && at_goal(goals, flee, t)
}

/// Some ray from `start` first meets, among the hybrid search's jump nodes,
/// a tile where the goals count as arrived.
pub open spec fn hybrid_goal_on_ray(ctx: SearchCtx, goals: Seq<GoalSpec>, flee: bool, start: Position) -> bool {
    exists|dx: int, dy: int|
        unit(dx) && unit(dy) && (dx != 0 || dy != 0) && (#[trigger] hybrid_ray_arrives(ctx, goals, flee, start, dx, dy))
}

/// With no tile but the start closed, the scan from the start along a ray
/// offers the ray's first jump node, at a cost within reach of `acc`.
proof fn lemma_ray_scan(
    st: HybridState,
    ctx: SearchCtx,
    goals: Seq<GoalSpec>,
    flee: bool,
    start: Position,
    j: int,
    dx: int,
    dy: int,
    acc: int,
    t: Position,
)
    requires
        st.closed@.len() == 10000,
        forall|p: Position| in_bounds(p) && p != start ==> !#[trigger] st.closed@[pidx(p)],
        ctx.wf(),
        unit(dx),
        unit(dy),
        dx != 0 || dy != 0,
        0 <= j <= 400,
        0 <= acc <= 255 * j,
        hybrid_ray_hit(ctx, goals, flee, ray(start.x as int, dx, j), ray(start.y as int, dy, j), dx, dy) == Some(t),
    ensures
        t != start,
        st.scan_target(ctx, goals, flee, start, ray(start.x as int, dx, j), ray(start.y as int, dy, j), dx, dy, acc)
            matches Some((q, g)) && q == t && g <= 255 * 400,
    decreases 400 - j,
{
    let cx = ray(start.x as int, dx, j);
    let cy = ray(start.y as int, dy, j);
    let nx = cx + dx;
    let ny = cy + dy;
    assert(nx == ray(start.x as int, dx, j + 1));
    assert(ny == ray(start.y as int, dy, j + 1));
    let neighbor = Position { x: nx as u8, y: ny as u8 };
    assert(0 <= nx < 100 && 0 <= ny < 100);
    assert(neighbor != start);
    assert(in_bounds(neighbor));
    lemma_pidx(neighbor);
    assert(!st.is_closed(start, neighbor));
    let c = ctx.spec_look(nx, ny)->0;
    assert(c <= 255);
    if hybrid_jump_node(ctx, goals, flee, nx, ny, dx, dy, c) {
        assert(t == neighbor);
    } else {
        assert(j + 1 <= 400);
        lemma_ray_scan(st, ctx, goals, flee, start, j + 1, dx, dy, acc + c, t);
    }
}

/// One scan of the hybrid search keeps the open list's entries, and on the
/// first expansion (only the start closed, every reached tile opened) it
/// keeps every reached tile opened and opens a tile where the goals count
/// as arrived when that is the first jump node of its ray.
proof fn lemma_hybrid_scan_step(
    b: HybridState,
    st: HybridState,
    ctx: SearchCtx,
    goals: Seq<GoalSpec>,
    flee: bool,
    weight: u32,
    start: Position,
    pos: Position,
    cost: u32,
    dx: int,
    dy: int,
    first: bool,
)
    requires
        b.inv(ctx, start),
        ctx.wf(),
        unit(dx),
        unit(dy),
        dx != 0 || dy != 0,
        st.closed == b.closed,
        st.start_closed == b.start_closed,
        st.htrack() == match b.scan_target(ctx, goals, flee, start, pos.x as int, pos.y as int, dx, dy, cost as int) {
            Some((node, g)) => offer_effect(b.htrack(), start, goals, weight, pos, node, g),
            None => b.htrack(),
        },
        first ==> pos == start && cost == 0,
        first ==> forall|p: Position| in_bounds(p) && p != start ==> !#[trigger] b.closed@[pidx(p)],
        first ==> forall|i: int|
            0 <= i < 10000 && pos_of(i) != start && #[trigger] b.g_score@[i] != u32::MAX ==> exists|j: int|
                0 <= j < b.open@.len() && b.open@[j].pos == pos_of(i),
    ensures
        st.open@.len() >= b.open@.len(),
        forall|m: int| 0 <= m < b.open@.len() ==> #[trigger] st.open@[m] == b.open@[m],
        forall|p: Position| #[trigger] st.is_closed(start, p) == b.is_closed(start, p),
        first ==> forall|i: int|
            0 <= i < 10000 && pos_of(i) != start && #[trigger] st.g_score@[i] != u32::MAX ==> exists|j: int|
                0 <= j < st.open@.len() && st.open@[j].pos == pos_of(i),
        first && hybrid_ray_arrives(ctx, goals, flee, start, dx, dy) ==> exists|j: int| 0 <= j < st.open@.len() && at_goal(goals, flee, #[trigger] st.open@[j].pos),
{
    let r = b.scan_target(ctx, goals, flee, start, pos.x as int, pos.y as int, dx, dy, cost as int);
    if let Some((node, g)) = r {
        lemma_scan_target_in_bounds(b, ctx, goals, flee, start, pos.x as int, pos.y as int, dx, dy, cost as int);
        lemma_pidx(node);
        let ni = pidx(node);
        if node == start || g >= b.g_score@[ni] {
            assert(st.htrack() == b.htrack());
        } else {
            assert(st.open@ == b.open@.push(st.open@[b.open@.len() as int]));
            assert(st.open@[b.open@.len() as int].pos == node);
        }
    } else {
        assert(st.htrack() == b.htrack());
    }
    assert forall|m: int| 0 <= m < b.open@.len() implies #[trigger] st.open@[m] == b.open@[m] by {}
    if first {
        assert forall|i: int|
            0 <= i < 10000 && pos_of(i) != start && #[trigger] st.g_score@[i] != u32::MAX implies exists|j: int|
                0 <= j < st.open@.len() && st.open@[j].pos == pos_of(i) by {
            let fresh = r matches Some((node, g)) && !(node == start || g >= b.g_score@[pidx(node)]) && i == pidx(node);
            if fresh {
                assert(st.open@[b.open@.len() as int].pos == pos_of(i));
            } else {
                assert(st.g_score@[i] == b.g_score@[i]);
                let j = choose|j: int| 0 <= j < b.open@.len() && b.open@[j].pos == pos_of(i);
                assert(st.open@[j] == b.open@[j]);
            }
        }
        if hybrid_ray_arrives(ctx, goals, flee, start, dx, dy) {
            let t = hybrid_ray_hit(ctx, goals, flee, start.x as int, start.y as int, dx, dy)->0;
            assert(ray(start.x as int, dx, 0) == start.x);
            assert(ray(start.y as int, dy, 0) == start.y);
            lemma_ray_scan(b, ctx, goals, flee, start, 0, dx, dy, 0, t);
            let g = (r->0).1;
            assert((r->0).0 == t);
            lemma_pidx(t);
            let ti = pidx(t);
            if g < b.g_score@[ti] {
                assert(st.open@[b.open@.len() as int].pos == t);
            } else {
                assert(b.g_score@[ti] != u32::MAX);
                lemma_pos_of(ti);
                let j = choose|j: int| 0 <= j < b.open@.len() && b.open@[j].pos == pos_of(ti);
                assert(st.open@[j] == b.open@[j]);
            }
        }
    }
}

proof fn lemma_scan_target_in_bounds(
    st: HybridState,
    ctx: SearchCtx,
    goals: Seq<GoalSpec>,
    flee: bool,
    start: Position,
    cx: int,
    cy: int,
    dx: int,
    dy: int,
    acc: int,
)
    ensures
        st.scan_target(ctx, goals, flee, start, cx, cy, dx, dy, acc) matches Some((n, g)) ==> in_bounds(n),
    decreases (if dx == 1 {
        300 - cx
    } else if dx == -1 {
        cx + 1
    } else if dy == 1 {
        300 - cy
    } else {
        cy + 1
    }),
{
    let nx = cx + dx;
    let ny = cy + dy;
    if !unit(dx) || !unit(dy) || (dx == 0 && dy == 0) || !(0 <= nx < 100 && 0 <= ny < 100) {
    } else if dx != 0 && dy != 0 && (ctx.spec_look((cx as u8) as int, (ny as u8) as int) is None
        || ctx.spec_look((nx as u8) as int, (cy as u8) as int) is None) {
    } else {
        match ctx.spec_look((nx as u8) as int, (ny as u8) as int) {
            None => {},
            Some(tile_cost) => {
                lemma_scan_target_in_bounds(st, ctx, goals, flee, start, nx, ny, dx, dy, acc + tile_cost);
            },
        }
    }
}

/// When some ray from the start first meets an arrived tile, one of the
/// eight directions of the start's expansion is that ray.
proof fn lemma_hybrid_dirs_cover(ctx: SearchCtx, goals: Seq<GoalSpec>, flee: bool, start: Position)
    requires
        hybrid_goal_on_ray(ctx, goals, flee, start),
    ensures
        exists|m: int|
            0 <= m < 8 && #[trigger] hybrid_ray_arrives(
                ctx,
                goals,
                flee,
                start,
                spec_hybrid_dirs(None, start)[m].0 as int,
                spec_hybrid_dirs(None, start)[m].1 as int,
            ),
{
    let (dx, dy) = choose|dx: int, dy: int|
        unit(dx) && unit(dy) && (dx != 0 || dy != 0) && (#[trigger] hybrid_ray_arrives(ctx, goals, flee, start, dx, dy));
    let d = spec_hybrid_dirs(None, start);
    let m = dir_rank(dx, dy);
    assert(0 <= m < 8);
    assert(d[m].0 as int == dx && d[m].1 as int == dy);
}

/// The hybrid search from `start` to the goals `goal` stands for, with
/// the options' costs taken as given (defaults as for
/// `search_path_astar`): an A* over jump nodes with a closed set, where
/// each closed tile scans straight and diagonal runs (over closed tiles)
/// in the directions its predecessor leaves open.
///
/// The result's path is a walk of passable tiles from `start`; when
/// complete it ends where the goal counts as arrived, and when incomplete
/// it is empty. The search does not see every route, but it is sure to
/// finish, unless the operations run out, when some ray from the start
/// first meets an arrived tile among its jump nodes (see
/// `hybrid_goal_on_ray`).
#[verifier::rlimit(100)]
#[verifier::spinoff_prover]
pub fn search_path_hybrid(
    start: Position,
    goal: &GoalInput,
    options: Option<&SearchPathOptions>,
    terrain: &TerrainMap,
) -> (r: SearchResults)
    requires
        terrain.wf(),
        options matches Some(o) ==> o.wf(),
    ensures
        spec_goals(*goal).len() == 0 ==> r.path@.len() == 0 && r.ops == 0 && r.cost == 0 && r.incomplete,
        spec_goals(*goal).len() > 0 && at_goal(spec_goals(*goal), options_flee(options), start) ==> r.path@.len()
            == 0 && r.ops == 0 && r.cost == 0 && !r.incomplete,
        valid_walk(raw_options_ctx(terrain, options), start, r.path@),
        !r.incomplete ==> at_goal(spec_goals(*goal), options_flee(options), walk_end(start, r.path@)),
        r.incomplete ==> r.path@.len() == 0 && r.cost == 0,
        r.ops <= raw_max_ops(options) + 1,
        hybrid_goal_on_ray(raw_options_ctx(terrain, options), spec_goals(*goal), options_flee(options), start)
            ==> !r.incomplete || r.ops > raw_max_ops(options) || r.ops == u32::MAX,
        !r.incomplete ==> r.cost >= path_cost(raw_options_ctx(terrain, options), r.path@),
{
    let goals = normalize_goals(goal);
    if goals.len() == 0 {
        return empty_results(0, true);
    }
    let (plain_cost, swamp_cost, weight, max_ops, flee) = raw_options(options);
    let ctx = SearchCtx { terrain, cost_matrix: matrix_of(options), plain_cost, swamp_cost };
    assert(ctx == raw_options_ctx(terrain, options));
    if is_at_goal(&goals, flee, start) {
        return empty_results(0, false);
    }
    let mut st = HybridState::new(&ctx, start);
    let start_h = goal_distance(&goals, start);
    proof {
        lemma_min_goal_dist(goals@, start);
    }
    let start_est = estimate(0, start_h, weight);
    let ghost st0 = st;
    st.counter = 1;
    st.open.push(OpenEntry { est: start_est, cost: 0, pos: start, dx: 0, dy: 0, id: 1 });
    proof {
        assert forall|j: int| 0 <= j < 10000 implies #[trigger] st.link_ok(start, ctx, j) by {
            assert(st0.link_ok(start, ctx, j));
        }
        assert forall|j: int|
            0 <= j < st.open@.len() implies (#[trigger] st.open@[j].pos == start || (in_bounds(st.open@[j].pos)
            && st.came_from@[pidx(st.open@[j].pos)] is Some)) && st.open@[j].cost <= JUMP_BOUND * (st.nclosed@
            + 1) by {
            assert(j == 0);
        }
        assert(st.hcost_ok(ctx, start)) by {
            assert forall|i: int| 0 <= i < 10000 implies (#[trigger] st.came_from@[i] matches Some(p) ==> st.g_score@[i]
                >= st.gv(start, p) + run_cost(ctx, p, pos_of(i))) by {
                assert(st0.link_ok(start, ctx, i));
                assert(st0.came_from@[i] == st.came_from@[i]);
                if st.came_from@[i] is Some {
                    assert(st0.closed@[i] || !st0.closed@[i]);
                }
            }
        }
    }
    let mut ops: u64 = 0;
    let mut best_target: Option<Position> = None;
    let ghost hit = hybrid_goal_on_ray(ctx, goals@, flee, start);
    while st.open.len() > 0
        invariant_except_break
            ops <= max_ops,
            best_target is None,
            forall|p: Position| #[trigger] st.is_closed(start, p) ==> !at_goal(goals@, flee, p),
            hit && ops > 0 ==> exists|j: int| 0 <= j < st.open@.len() && at_goal(goals@, flee, #[trigger] st.open@[j].pos),
        invariant
            st.inv(ctx, start),
            st.hcost_ok(ctx, start),
            ctx.wf(),
            goals@.len() > 0,
            st.counter <= 8 * ops + 1,
            ops <= max_ops as int + 1,
            hit == hybrid_goal_on_ray(ctx, goals@, flee, start),
            !at_goal(goals@, flee, start),
            ops == 0 ==> st.open@.len() == 1 && st.open@[0].pos == start && st.open@[0].cost == 0 && !st.start_closed
                && (forall|i: int| 0 <= i < 10000 ==> !#[trigger] st.closed@[i]) && (forall|i: int|
                0 <= i < 10000 && pos_of(i) != start ==> #[trigger] st.g_score@[i] == u32::MAX),
        ensures
            st.inv(ctx, start),
            st.hcost_ok(ctx, start),
            ops <= max_ops as int + 1,
            best_target matches Some(t) ==> st.is_closed(start, t) && (t == start || in_bounds(t)) && at_goal(
                goals@,
                flee,
                t,
            ),
            best_target is None && ops <= max_ops ==> !hit,
        decreases max_ops + 1 - ops, st.open@.len(),
    {
        let ghost a = st;
        let entry = pop_open(&mut st.open);
        let ghost kpop = choose|k: int| 0 <= k < a.open@.len() && a.open@[k] == entry && st.open@ == a.open@.remove(k);
        proof {
            assert forall|j: int| 0 <= j < st.open@.len() implies (#[trigger] st.open@[j]).cost >= st.gv(
                start,
                st.open@[j].pos,
            ) by {
                if j < kpop {
                    assert(st.open@[j] == a.open@[j]);
                } else {
                    assert(st.open@[j] == a.open@[j + 1]);
                }
            }
            assert(a.open@[kpop].cost >= a.gv(start, a.open@[kpop].pos));
            assert forall|p: Position| #[trigger] st.is_closed(start, p) implies !at_goal(goals@, flee, p) by {
                assert(a.is_closed(start, p));
            }
            if hit && ops > 0 && !at_goal(goals@, flee, entry.pos) {
                let j0 = choose|j: int| 0 <= j < a.open@.len() && at_goal(goals@, flee, #[trigger] a.open@[j].pos);
                assert(j0 != kpop);
                if j0 < kpop {
                    assert(st.open@[j0] == a.open@[j0]);
                } else {
                    assert(st.open@[j0 - 1] == a.open@[j0]);
                }
            }
            assert forall|j: int|
                0 <= j < st.open@.len() implies (#[trigger] st.open@[j].pos == start || (in_bounds(st.open@[j].pos)
                && st.came_from@[pidx(st.open@[j].pos)] is Some)) && st.open@[j].cost <= JUMP_BOUND * (st.nclosed@
                + 1) by {
                let x = st.open@[j];
                assert(a.open@.contains(x));
                let k = choose|k: int| 0 <= k < a.open@.len() && a.open@[k] == x;
                assert(a.open@[k].pos == start || in_bounds(a.open@[k].pos));
            }
            assert forall|j: int| 0 <= j < 10000 implies #[trigger] st.link_ok(start, ctx, j) by {
                assert(a.link_ok(start, ctx, j));
            }
            assert forall|j: int| 0 <= j < st.open@.len() && #[trigger] st.open@[j].pos == start implies st.open@[j].cost == 0 by {
                let x = st.open@[j];
                assert(a.open@.contains(x));
                let k = choose|k: int| 0 <= k < a.open@.len() && a.open@[k] == x;
                assert(a.open@[k].pos == start ==> a.open@[k].cost == 0);
            }
            let k = choose|k: int| 0 <= k < a.open@.len() && a.open@[k] == entry;
            assert(a.open@[k].pos == start || in_bounds(a.open@[k].pos));
            assert(entry.pos == start ==> entry.cost == 0);
        }
        let pos = entry.pos;
        if st.closed_at(start, pos) {
            proof {
                if ops == 0 {
                    assert(a.open@[0] == entry);
                    if in_bounds(start) {
                        lemma_pidx(start);
                    }
                }
            }
            continue;
        }
        proof {
            if pos != start {
                lemma_pidx(pos);
                lemma_pos_of(pidx(pos));
                assert(st.g_score@[pidx(pos)] != u32::MAX);
            }
        }
        let ghost first = ops == 0;
        proof {
            if first {
                assert(a.open@[0] == entry);
                assert(pos == start);
            }
        }
        st.close(&ctx, start, pos);
        ops += 1;
        if ops > max_ops as u64 {
            break;
        }
        if is_at_goal(&goals, flee, pos) {
            best_target = Some(pos);
            break;
        }
        proof {
            assert forall|p: Position| #[trigger] st.is_closed(start, p) implies !at_goal(goals@, flee, p) by {
                if p != pos {
                    assert(a.is_closed(start, p));
                }
            }
            if first {
                assert forall|p: Position| in_bounds(p) && p != start implies !#[trigger] st.closed@[pidx(p)] by {
                    assert(!st.is_closed(start, p));
                }
            }
        }
        let parent_opt = if pos.x < 100 && pos.y < 100 {
            st.came_from[index_of(pos)]
        } else {
            None
        };
        proof {
            if pos.x < 100 && pos.y < 100 {
                lemma_pidx(pos);
                assert(st.link_ok(start, ctx, pidx(pos)));
                if let Some(p) = parent_opt {
                    lemma_pos_of(pidx(pos));
                    assert(cheb(p, pos) >= 1);
                }
            }
        }
        let dirs = hybrid_dirs(parent_opt, pos);
        proof {
            if first {
                if in_bounds(start) {
                    lemma_pidx(start);
                }
                assert(parent_opt is None);
            }
        }
        let ghost o1 = st.open@;
        let mut k: usize = 0;
        while k < dirs.len()
            invariant
                st.open@.len() >= o1.len(),
                forall|m: int| 0 <= m < o1.len() ==> #[trigger] st.open@[m] == o1[m],
                forall|p: Position| #[trigger] st.is_closed(start, p) ==> !at_goal(goals@, flee, p),
                first ==> pos == start && entry.cost == 0 && dirs@ == spec_hybrid_dirs(None, start),
                first ==> forall|p: Position| in_bounds(p) && p != start ==> !#[trigger] st.closed@[pidx(p)],
                first ==> forall|i: int|
                    0 <= i < 10000 && pos_of(i) != start && #[trigger] st.g_score@[i] != u32::MAX ==> exists|j: int|
                        0 <= j < st.open@.len() && st.open@[j].pos == pos_of(i),
                first ==> (exists|m: int|
                    0 <= m < k && #[trigger] hybrid_ray_arrives(ctx, goals@, flee, start, dirs@[m].0 as int, dirs@[m].1 as int)) ==> exists|j: int|
                    0 <= j < st.open@.len() && at_goal(goals@, flee, #[trigger] st.open@[j].pos),
                st.inv(ctx, start),
                st.hcost_ok(ctx, start),
                entry.cost >= st.gv(start, pos),
                ctx.wf(),
                goals@.len() > 0,
                st.is_closed(start, pos),
                pos == start || in_bounds(pos),
                entry.cost <= JUMP_BOUND * st.nclosed@,
                dirs@.len() <= 8,
                k <= dirs@.len(),
                st.counter <= 8 * (ops - 1) + 1 + k,
                1 <= ops <= max_ops,
                forall|m: int|
                    0 <= m < dirs@.len() ==> unit((#[trigger] dirs@[m]).0 as int) && unit(dirs@[m].1 as int) && (
                    dirs@[m].0 != 0 || dirs@[m].1 != 0),
            decreases dirs@.len() - k,
        {
            let (dx, dy) = dirs[k];
            let ghost b = st;
            st.scan(&ctx, &goals, flee, weight, start, pos, entry.cost, dx, dy);
            proof {
                lemma_hybrid_scan_step(b, st, ctx, goals@, flee, weight, start, pos, entry.cost, dx as int, dy as int, first);
                lemma_hybrid_scan_cost(b, st, ctx, goals@, flee, weight, start, pos, entry.cost, dx as int, dy as int);
                if first {
                    if exists|m: int|
                        0 <= m < k + 1 && #[trigger] hybrid_ray_arrives(ctx, goals@, flee, start, dirs@[m].0 as int, dirs@[m].1 as int) {
                        let m = choose|m: int|
                            0 <= m < k + 1 && #[trigger] hybrid_ray_arrives(ctx, goals@, flee, start, dirs@[m].0 as int, dirs@[m].1 as int);
                        if m < k {
                            let j0 = choose|j: int| 0 <= j < b.open@.len() && at_goal(goals@, flee, #[trigger] b.open@[j].pos);
                            assert(st.open@[j0] == b.open@[j0]);
                        }
                    }
                }
            }
            k += 1;
        }
        proof {
            if first && hit {
                lemma_hybrid_dirs_cover(ctx, goals@, flee, start);
                let m = choose|m: int|
                    0 <= m < 8 && #[trigger] hybrid_ray_arrives(
                        ctx,
                        goals@,
                        flee,
                        start,
                        spec_hybrid_dirs(None, start)[m].0 as int,
                        spec_hybrid_dirs(None, start)[m].1 as int,
                    );
                assert(hybrid_ray_arrives(ctx, goals@, flee, start, dirs@[m].0 as int, dirs@[m].1 as int));
            }
            if !first && hit {
                let j0 = choose|j: int| 0 <= j < o1.len() && at_goal(goals@, flee, #[trigger] o1[j].pos);
                assert(st.open@[j0] == o1[j0]);
            }
        }
    }
    match best_target {
        Some(target) => {
            let path = st.reconstruct(&ctx, start, target);
            let path_cost = st.g_get(start, target);
            SearchResults { path, ops: ops_u32(ops), cost: path_cost, incomplete: false }
        },
        None => empty_results(ops_u32(ops), true),
    }
}

} // verus!
