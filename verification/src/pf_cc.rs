use vstd::prelude::*;
use vstd::set_lib::{lemma_int_range, lemma_len_subset, set_int_range};
use crate::pathfinder::{
    abs_diff, adjacent, cheb, empty_results, idx100, in_bounds, index_of, lemma_pidx, lemma_pos_of, on_map, pidx,
    pos_of, GoalSpec, Position, SearchCtx, SearchResults,
};
use crate::search::{lemma_path_cost_push, lemma_path_cost_step, path_cost, step_cost};

verus! {

/// Sign of an integer: -1, 0 or 1.
pub open spec fn sign(v: int) -> int {
    if v > 0 {
        1
    } else if v < 0 {
        -1
    } else {
        0
    }
}

/// Coordinate `v` moved `i` steps in direction `d` (`d` in -1..=1).
pub open spec fn ray(v: int, d: int, i: int) -> int {
    if d == 1 {
        v + i
    } else if d == -1 {
        v - i
    } else {
        v
    }
}

/// A direction component.
pub open spec fn unit(d: int) -> bool {
    d == -1 || d == 0 || d == 1
}

/// Every tile of the run from `(fx, fy)` along `(dx, dy)`, steps `lo..=k`,
/// is on the map and passable.
pub open spec fn run_passable(ctx: SearchCtx, fx: int, fy: int, dx: int, dy: int, lo: int, k: int) -> bool {
    forall|i: int| lo <= i <= k ==> #[trigger] ctx.passable(ray(fx, dx, i), ray(fy, dy, i))
}

/// `q` lies `cheb(from, q)` steps from `from` along `(dx, dy)`, and the
/// whole run from `from` to `q` is passable.
pub open spec fn on_run(ctx: SearchCtx, from: Position, dx: int, dy: int, q: Position) -> bool {
    let k = cheb(from, q);
    &&& q.x == ray(from.x as int, dx, k)
    &&& q.y == ray(from.y as int, dy, k)
    &&& run_passable(ctx, from.x as int, from.y as int, dx, dy, 0, k)
}

/// A straight or diagonal run from `p` to a different position `n` whose
/// tiles after `p` are all passable.
pub open spec fn run_edge(ctx: SearchCtx, p: Position, n: Position) -> bool {
    let k = cheb(p, n);
    let dx = sign(n.x - p.x);
    let dy = sign(n.y - p.y);
    &&& k >= 1
    &&& n.x == ray(p.x as int, dx, k)
    &&& n.y == ray(p.y as int, dy, k)
    &&& run_passable(ctx, p.x as int, p.y as int, dx, dy, 1, k)
}

/// A walk from `start`: every position is passable, and each one is a
/// king move from the one before it (the first from `start`).
pub open spec fn valid_walk(ctx: SearchCtx, start: Position, path: Seq<Position>) -> bool {
    &&& forall|k: int| 0 <= k < path.len() ==> #[trigger] ctx.passable(path[k].x as int, path[k].y as int)
    &&& forall|k: int| 0 <= k < path.len() - 1 ==> adjacent(#[trigger] path[k], path[k + 1])
    &&& path.len() > 0 ==> adjacent(start, path[0])
}

/// Where a walk from `start` ends.
pub open spec fn walk_end(start: Position, path: Seq<Position>) -> Position {
    if path.len() == 0 {
        start
    } else {
        path.last()
    }
}

/// The largest `range - distance` over goals whose square contains `p`, 0 if none.
pub open spec fn flee_h(goals: Seq<GoalSpec>, p: Position) -> int
    decreases goals.len(),
{
    if goals.len() == 0 {
        0
    } else {
        let r = flee_h(goals.drop_last(), p);
        let g = goals.last();
        let d = cheb(p, g.pos);
        if d < g.range && g.range - d > r {
            g.range - d
        } else {
            r
        }
    }
}

/// The least `distance - range` over goals whose square does not contain
/// `p`, `u32::MAX` if none.
pub open spec fn seek_h(goals: Seq<GoalSpec>, p: Position) -> int
    decreases goals.len(),
{
    if goals.len() == 0 {
        u32::MAX as int
    } else {
        let r = seek_h(goals.drop_last(), p);
        let g = goals.last();
        let d = cheb(p, g.pos);
        if d > g.range && d - g.range < r {
            d - g.range
        } else {
            r
        }
    }
}

/// Some goal's square contains `p`.
pub open spec fn some_goal_in_range(goals: Seq<GoalSpec>, p: Position) -> bool {
    exists|i: int| 0 <= i < goals.len() && cheb(p, #[trigger] goals[i].pos) <= goals[i].range
}

/// The search heuristic: when fleeing, how far `p` still is inside the
/// deepest goal square; otherwise 0 inside some goal square and else the
/// least distance to a goal square.
pub open spec fn pf_heuristic(goals: Seq<GoalSpec>, flee: bool, p: Position) -> int {
    if flee {
        flee_h(goals, p)
    } else if some_goal_in_range(goals, p) {
        0
    } else if seek_h(goals, p) == u32::MAX {
        0
    } else {
        seek_h(goals, p)
    }
}

/// What it means to have arrived: when fleeing, no goal square contains
/// `p` closer than its range; otherwise some goal square contains `p`
/// (trivially so when there are no goals).
pub open spec fn goal_reached(goals: Seq<GoalSpec>, flee: bool, p: Position) -> bool {
    if flee {
        forall|i: int| 0 <= i < goals.len() ==> cheb(p, #[trigger] goals[i].pos) >= goals[i].range
    } else {
        goals.len() == 0 || some_goal_in_range(goals, p)
    }
}

proof fn lemma_flee_h(goals: Seq<GoalSpec>, p: Position)
    ensures
        flee_h(goals, p) >= 0,
        flee_h(goals, p) <= 255,
        (flee_h(goals, p) == 0) == (forall|i: int|
            0 <= i < goals.len() ==> cheb(p, #[trigger] goals[i].pos) >= goals[i].range),
    decreases goals.len(),
{
    if goals.len() > 0 {
        let s = goals.drop_last();
        lemma_flee_h(s, p);
        assert forall|i: int| 0 <= i < s.len() implies #[trigger] s[i] == goals[i] by {}
        if flee_h(goals, p) == 0 {
            assert forall|i: int| 0 <= i < goals.len() implies cheb(p, #[trigger] goals[i].pos)
                >= goals[i].range by {
                if i < goals.len() - 1 {
                    assert(s[i] == goals[i]);
                }
            }
        }
    }
}

proof fn lemma_seek_h(goals: Seq<GoalSpec>, p: Position)
    ensures
        !some_goal_in_range(goals, p) && goals.len() > 0 ==> 1 <= seek_h(goals, p) <= 255,
        goals.len() == 0 ==> seek_h(goals, p) == u32::MAX,
    decreases goals.len(),
{
    if goals.len() > 0 {
        let s = goals.drop_last();
        lemma_seek_h(s, p);
        if !some_goal_in_range(goals, p) {
            assert(!some_goal_in_range(s, p)) by {
                if some_goal_in_range(s, p) {
                    let i = choose|i: int| 0 <= i < s.len() && cheb(p, #[trigger] s[i].pos) <= s[i].range;
                    assert(goals[i] == s[i]);
                }
            }
            let last = goals.len() - 1;
            assert(!(cheb(p, goals[last].pos) <= goals[last].range));
        }
    }
}

/// The heuristic is zero exactly on positions where the goal is reached.
pub proof fn lemma_heuristic_zero(goals: Seq<GoalSpec>, flee: bool, p: Position)
    ensures
        (pf_heuristic(goals, flee, p) == 0) == goal_reached(goals, flee, p),
        0 <= pf_heuristic(goals, flee, p) <= 255,
{
    lemma_flee_h(goals, p);
    lemma_seek_h(goals, p);
}

/// Whether a coordinate is on the map's border (0 or 99).
pub fn is_border_pos(val: u8) -> (b: bool)
    ensures
        b == (val == 0 || val == 99),
{
    val == 0 || val == 99
}

/// Whether a coordinate is within one tile of the map's border.
pub fn is_near_border_pos(val: u8) -> (b: bool)
    ensures
        b == (val <= 1 || val >= 98),
{
    val <= 1 || val >= 98
}

/// Chebyshev distance between two positions.
pub fn range_to(a: Position, b: Position) -> (r: u32)
    ensures
        r == cheb(a, b),
{
    a.range_to(&b) as u32
}

/// The search heuristic of `pos` (see `pf_heuristic`).
pub fn heuristic(goals: &Vec<GoalSpec>, flee: bool, pos: Position) -> (h: u32)
    ensures
        h == pf_heuristic(goals@, flee, pos),
{
    if flee {
        let mut ret: u32 = 0;
        let mut i: usize = 0;
        while i < goals.len()
            invariant
                i <= goals@.len(),
                ret == flee_h(goals@.take(i as int), pos),
            decreases goals@.len() - i,
        {
            proof {
                assert(goals@.take(i as int + 1).drop_last() =~= goals@.take(i as int));
                lemma_flee_h(goals@.take(i as int), pos);
            }
            let g = goals[i];
            let dist = range_to(pos, g.pos);
            let r = g.range as u32;
            if dist < r {
                if r - dist > ret {
                    ret = r - dist;
                }
            }
            i += 1;
        }
        proof {
            assert(goals@.take(goals@.len() as int) =~= goals@);
        }
        ret
    } else {
        let mut ret: u32 = u32::MAX;
        let mut i: usize = 0;
        while i < goals.len()
            invariant
                i <= goals@.len(),
                !flee,
                ret == seek_h(goals@.take(i as int), pos),
                forall|j: int| 0 <= j < i ==> !(cheb(pos, #[trigger] goals@[j].pos) <= goals@[j].range),
            decreases goals@.len() - i,
        {
            proof {
                assert(goals@.take(i as int + 1).drop_last() =~= goals@.take(i as int));
                lemma_seek_h(goals@.take(i as int), pos);
            }
            let g = goals[i];
            let dist = range_to(pos, g.pos);
            let r = g.range as u32;
            if dist > r {
                if dist - r < ret {
                    ret = dist - r;
                }
            } else {
                proof {
                    assert(cheb(pos, goals@[i as int].pos) <= goals@[i as int].range);
                    assert(some_goal_in_range(goals@, pos));
                }
                return 0;
            }
            i += 1;
        }
        proof {
            assert(goals@.take(goals@.len() as int) =~= goals@);
        }
        if ret == u32::MAX {
            0
        } else {
            ret
        }
    }
}

/// `floor(h * weight / 1000)`, saturating at `u32::MAX`: the heuristic
/// scaled by a weight given in thousandths.
pub open spec fn spec_weighted(h: u32, weight: u32) -> u32 {
    let v = (h as int * weight as int) / 1000;
    if v > u32::MAX {
        u32::MAX
    } else {
        v as u32
    }
}

/// Scales a heuristic value by a weight given in thousandths.
pub fn weighted(h: u32, weight: u32) -> (r: u32)
    ensures
        r == spec_weighted(h, weight),
{
    proof {
        assert((h as int) * (weight as int) <= u64::MAX) by (nonlinear_arith)
            requires
                h <= u32::MAX,
                weight <= u32::MAX,
        {
        }
    }
    let v = (h as u64) * (weight as u64) / 1000;
    if v > u32::MAX as u64 {
        u32::MAX
    } else {
        v as u32
    }
}

/// Where the horizontal scan of `jump_x` stops, continued from `pos` with
/// the looks above and below the previous tile: `pos` itself at a goal,
/// near the border, or beside a forced neighbour; the next tile when its
/// cost differs from `cost`; `None` when the next tile is impassable.
pub open spec fn scan_x(
    ctx: SearchCtx,
    goals: Seq<GoalSpec>,
    flee: bool,
    cost: u32,
    pos: Position,
    dx: int,
    prev_u: Option<u32>,
    prev_d: Option<u32>,
) -> Option<Position>
    decreases (if dx == 1 { 100 - pos.x } else { pos.x as int }),
{
    if dx != 1 && dx != -1 {
        None
    } else if pf_heuristic(goals, flee, pos) == 0 || pos.x <= 1 || pos.x >= 98 {
        Some(pos)
    } else {
        let nx = pos.x + dx;
        let cost_u = ctx.spec_look_at(nx, pos.y - 1);
        let cost_d = ctx.spec_look_at(nx, pos.y + 1);
        if (cost_u is Some && prev_u != Some(cost)) || (cost_d is Some && prev_d != Some(cost)) {
            Some(pos)
        } else {
            let np = Position { x: nx as u8, y: pos.y };
            let jump_cost = ctx.spec_look(np.x as int, np.y as int);
            if jump_cost is None {
                None
            } else if jump_cost != Some(cost) {
                Some(np)
            } else {
                scan_x(ctx, goals, flee, cost, np, dx, cost_u, cost_d)
            }
        }
    }
}

/// The jump point `jump_x` finds from `pos` along `dx`.
pub open spec fn spec_jump_x(ctx: SearchCtx, goals: Seq<GoalSpec>, flee: bool, cost: u32, pos: Position, dx: int) -> Option<Position> {
    scan_x(
        ctx,
        goals,
        flee,
        cost,
        pos,
        dx,
        ctx.spec_look_at(pos.x as int, pos.y - 1),
        ctx.spec_look_at(pos.x as int, pos.y + 1),
    )
}

/// The vertical counterpart of `scan_x`.
pub open spec fn scan_y(
    ctx: SearchCtx,
    goals: Seq<GoalSpec>,
    flee: bool,
    cost: u32,
    pos: Position,
    dy: int,
    prev_l: Option<u32>,
    prev_r: Option<u32>,
) -> Option<Position>
    decreases (if dy == 1 { 100 - pos.y } else { pos.y as int }),
{
    if dy != 1 && dy != -1 {
        None
    } else if pf_heuristic(goals, flee, pos) == 0 || pos.y <= 1 || pos.y >= 98 {
        Some(pos)
    } else {
        let ny = pos.y + dy;
        let cost_l = ctx.spec_look_at(pos.x - 1, ny);
        let cost_r = ctx.spec_look_at(pos.x + 1, ny);
        if (cost_l is Some && prev_l != Some(cost)) || (cost_r is Some && prev_r != Some(cost)) {
            Some(pos)
        } else {
            let np = Position { x: pos.x, y: ny as u8 };
            let jump_cost = ctx.spec_look(np.x as int, np.y as int);
            if jump_cost is None {
                None
            } else if jump_cost != Some(cost) {
                Some(np)
            } else {
                scan_y(ctx, goals, flee, cost, np, dy, cost_l, cost_r)
            }
        }
    }
}

/// The jump point `jump_y` finds from `pos` along `dy`.
pub open spec fn spec_jump_y(ctx: SearchCtx, goals: Seq<GoalSpec>, flee: bool, cost: u32, pos: Position, dy: int) -> Option<Position> {
    scan_y(
        ctx,
        goals,
        flee,
        cost,
        pos,
        dy,
        ctx.spec_look_at(pos.x - 1, pos.y as int),
        ctx.spec_look_at(pos.x + 1, pos.y as int),
    )
}

/// Where the diagonal scan of `jump_xy` stops, continued from `pos` with
/// the looks behind it in x and in y: like `scan_x`, and also where a
/// horizontal or vertical sub-scan from the next tiles finds a jump point.
pub open spec fn scan_xy(
    ctx: SearchCtx,
    goals: Seq<GoalSpec>,
    flee: bool,
    cost: u32,
    pos: Position,
    dx: int,
    dy: int,
    prev_x: Option<u32>,
    prev_y: Option<u32>,
) -> Option<Position>
    decreases (if dx == 1 { 100 - pos.x } else { pos.x as int }),
{
    if (dx != 1 && dx != -1) || (dy != 1 && dy != -1) {
        None
    } else if pf_heuristic(goals, flee, pos) == 0 || pos.x <= 1 || pos.x >= 98 || pos.y <= 1 || pos.y >= 98 {
        Some(pos)
    } else {
        let diag_x = ctx.spec_look_at(pos.x - dx, pos.y + dy);
        let diag_y = ctx.spec_look_at(pos.x + dx, pos.y - dy);
        if (diag_x is Some && prev_x != Some(cost)) || (diag_y is Some && prev_y != Some(cost)) {
            Some(pos)
        } else {
            let next_x = ctx.spec_look_at(pos.x as int, pos.y + dy);
            let next_y = ctx.spec_look_at(pos.x + dx, pos.y as int);
            if next_y is Some && spec_jump_x(
                ctx,
                goals,
                flee,
                cost,
                Position { x: (pos.x + dx) as u8, y: pos.y },
                dx,
            ) is Some {
                Some(pos)
            } else if next_x is Some && spec_jump_y(
                ctx,
                goals,
                flee,
                cost,
                Position { x: pos.x, y: (pos.y + dy) as u8 },
                dy,
            ) is Some {
                Some(pos)
            } else {
                let np = Position { x: (pos.x + dx) as u8, y: (pos.y + dy) as u8 };
                let jump_cost = ctx.spec_look(np.x as int, np.y as int);
                if jump_cost is None {
                    None
                } else if jump_cost != Some(cost) {
                    Some(np)
                } else {
                    scan_xy(ctx, goals, flee, cost, np, dx, dy, next_x, next_y)
                }
            }
        }
    }
}

/// The jump point `jump_xy` finds from `pos` along `(dx, dy)`.
pub open spec fn spec_jump_xy(
    ctx: SearchCtx,
    goals: Seq<GoalSpec>,
    flee: bool,
    cost: u32,
    pos: Position,
    dx: int,
    dy: int,
) -> Option<Position> {
    scan_xy(
        ctx,
        goals,
        flee,
        cost,
        pos,
        dx,
        dy,
        ctx.spec_look_at(pos.x - dx, pos.y as int),
        ctx.spec_look_at(pos.x as int, pos.y - dy),
    )
}

/// The jump point `jump` finds from `pos` along `(dx, dy)`.
pub open spec fn spec_jump(
    ctx: SearchCtx,
    goals: Seq<GoalSpec>,
    flee: bool,
    cost: u32,
    pos: Position,
    dx: int,
    dy: int,
) -> Option<Position> {
    if dx != 0 {
        if dy != 0 {
            spec_jump_xy(ctx, goals, flee, cost, pos, dx, dy)
        } else {
            spec_jump_x(ctx, goals, flee, cost, pos, dx)
        }
    } else {
        spec_jump_y(ctx, goals, flee, cost, pos, dy)
    }
}

/// Tile `i` of the run from `p` along `(dx, dy)`.
pub open spec fn run_tile(p: Position, dx: int, dy: int, i: int) -> Position {
    Position { x: ray(p.x as int, dx, i) as u8, y: ray(p.y as int, dy, i) as u8 }
}

/// The cost of entering tiles `1..=k` of the run from `p` along `(dx, dy)`.
pub open spec fn run_sum(ctx: SearchCtx, p: Position, dx: int, dy: int, k: int) -> int
    decreases k,
{
    if k <= 0 {
        0
    } else {
        run_sum(ctx, p, dx, dy, k - 1) + step_cost(ctx, run_tile(p, dx, dy, k))
    }
}

/// The cost of entering the tiles of the run from `p` to `n`, `p` not
/// counted (see `run_edge`).
pub open spec fn run_cost(ctx: SearchCtx, p: Position, n: Position) -> int {
    run_sum(ctx, p, sign(n.x - p.x), sign(n.y - p.y), cheb(p, n))
}

proof fn lemma_run_sum_uniform(ctx: SearchCtx, p: Position, dx: int, dy: int, m: int, c: u32)
    requires
        0 <= m,
        forall|i: int|
            1 <= i <= m ==> on_map(ray(p.x as int, dx, i), ray(p.y as int, dy, i)) && #[trigger] ctx.spec_look(
                ray(p.x as int, dx, i),
                ray(p.y as int, dy, i),
            ) == Some(c),
    ensures
        run_sum(ctx, p, dx, dy, m) == c * m,
    decreases m,
{
    if m > 0 {
        lemma_run_sum_uniform(ctx, p, dx, dy, m - 1, c);
        let t = run_tile(p, dx, dy, m);
        assert(ctx.spec_look(ray(p.x as int, dx, m), ray(p.y as int, dy, m)) == Some(c));
        assert(on_map(ray(p.x as int, dx, m), ray(p.y as int, dy, m)));
        assert(t.x as int == ray(p.x as int, dx, m));
        assert(t.y as int == ray(p.y as int, dy, m));
        assert(step_cost(ctx, t) == c);
        assert(run_sum(ctx, p, dx, dy, m) == run_sum(ctx, p, dx, dy, m - 1) + step_cost(ctx, t));
        assert(c * (m - 1) + c == c * m) by (nonlinear_arith);
    } else {
        assert(c * m == 0) by (nonlinear_arith)
            requires
                m == 0,
        ;
    }
}

/// A run of one step costs what entering its tile costs.
pub(crate) proof fn lemma_run_cost_one(ctx: SearchCtx, p: Position, n: Position, dx: int, dy: int)
    requires
        unit(dx),
        unit(dy),
        dx != 0 || dy != 0,
        n.x == p.x + dx,
        n.y == p.y + dy,
    ensures
        run_cost(ctx, p, n) == step_cost(ctx, n),
{
    assert(cheb(p, n) == 1);
    assert(sign(n.x - p.x) == dx);
    assert(sign(n.y - p.y) == dy);
    assert(run_tile(p, dx, dy, 1) == n);
    assert(run_sum(ctx, p, dx, dy, 0) == 0);
}

/// The first `m` tiles of the run from `from` along `(dx, dy)`, `from`
/// itself included, all cost `cost` to enter.
pub open spec fn run_uniform(ctx: SearchCtx, from: Position, dx: int, dy: int, m: int, cost: u32) -> bool {
    forall|j: int|
        0 <= j < m ==> #[trigger] ctx.spec_look(ray(from.x as int, dx, j), ray(from.y as int, dy, j)) == Some(cost)
}

proof fn lemma_scan_x_uniform(
    ctx: SearchCtx,
    goals: Seq<GoalSpec>,
    flee: bool,
    cost: u32,
    pos: Position,
    dx: int,
    pu: Option<u32>,
    pd: Option<u32>,
    q: Position,
)
    requires
        scan_x(ctx, goals, flee, cost, pos, dx, pu, pd) == Some(q),
        ctx.spec_look(pos.x as int, pos.y as int) == Some(cost),
    ensures
        q.x == ray(pos.x as int, dx, cheb(pos, q)),
        q.y == pos.y,
        run_uniform(ctx, pos, dx, 0, cheb(pos, q), cost),
    decreases (if dx == 1 { 100 - pos.x } else { pos.x as int }),
{
    if dx != 1 && dx != -1 {
    } else if pf_heuristic(goals, flee, pos) == 0 || pos.x <= 1 || pos.x >= 98 {
    } else {
        let nx = pos.x + dx;
        let cost_u = ctx.spec_look_at(nx, pos.y - 1);
        let cost_d = ctx.spec_look_at(nx, pos.y + 1);
        if (cost_u is Some && pu != Some(cost)) || (cost_d is Some && pd != Some(cost)) {
        } else {
            let np = Position { x: nx as u8, y: pos.y };
            let jump_cost = ctx.spec_look(np.x as int, np.y as int);
            if jump_cost is None {
            } else if jump_cost != Some(cost) {
                assert(q == np);
                assert(cheb(pos, q) == 1);
                assert forall|j: int| 0 <= j < 1 implies #[trigger] ctx.spec_look(
                    ray(pos.x as int, dx, j),
                    ray(pos.y as int, 0, j),
                ) == Some(cost) by {
                    assert(ray(pos.x as int, dx, j) == pos.x);
                }
            } else {
                lemma_scan_x_uniform(ctx, goals, flee, cost, np, dx, cost_u, cost_d, q);
                let m = cheb(np, q);
                assert(cheb(pos, q) == m + 1);
                assert forall|j: int| 0 <= j < m + 1 implies #[trigger] ctx.spec_look(
                    ray(pos.x as int, dx, j),
                    ray(pos.y as int, 0, j),
                ) == Some(cost) by {
                    if j > 0 {
                        assert(ray(pos.x as int, dx, j) == ray(np.x as int, dx, j - 1));
                        assert(ctx.spec_look(ray(np.x as int, dx, j - 1), ray(np.y as int, 0, j - 1)) == Some(cost));
                    }
                }
            }
        }
    }
}

proof fn lemma_scan_y_uniform(
    ctx: SearchCtx,
    goals: Seq<GoalSpec>,
    flee: bool,
    cost: u32,
    pos: Position,
    dy: int,
    pl: Option<u32>,
    pr: Option<u32>,
    q: Position,
)
    requires
        scan_y(ctx, goals, flee, cost, pos, dy, pl, pr) == Some(q),
        ctx.spec_look(pos.x as int, pos.y as int) == Some(cost),
    ensures
        q.y == ray(pos.y as int, dy, cheb(pos, q)),
        q.x == pos.x,
        run_uniform(ctx, pos, 0, dy, cheb(pos, q), cost),
    decreases (if dy == 1 { 100 - pos.y } else { pos.y as int }),
{
    if dy != 1 && dy != -1 {
    } else if pf_heuristic(goals, flee, pos) == 0 || pos.y <= 1 || pos.y >= 98 {
    } else {
        let ny = pos.y + dy;
        let cost_l = ctx.spec_look_at(pos.x - 1, ny);
        let cost_r = ctx.spec_look_at(pos.x + 1, ny);
        if (cost_l is Some && pl != Some(cost)) || (cost_r is Some && pr != Some(cost)) {
        } else {
            let np = Position { x: pos.x, y: ny as u8 };
            let jump_cost = ctx.spec_look(np.x as int, np.y as int);
            if jump_cost is None {
            } else if jump_cost != Some(cost) {
                assert(q == np);
                assert(cheb(pos, q) == 1);
                assert forall|j: int| 0 <= j < 1 implies #[trigger] ctx.spec_look(
                    ray(pos.x as int, 0, j),
                    ray(pos.y as int, dy, j),
                ) == Some(cost) by {
                    assert(ray(pos.y as int, dy, j) == pos.y);
                }
            } else {
                lemma_scan_y_uniform(ctx, goals, flee, cost, np, dy, cost_l, cost_r, q);
                let m = cheb(np, q);
                assert(cheb(pos, q) == m + 1);
                assert forall|j: int| 0 <= j < m + 1 implies #[trigger] ctx.spec_look(
                    ray(pos.x as int, 0, j),
                    ray(pos.y as int, dy, j),
                ) == Some(cost) by {
                    if j > 0 {
                        assert(ray(pos.y as int, dy, j) == ray(np.y as int, dy, j - 1));
                        assert(ctx.spec_look(ray(np.x as int, 0, j - 1), ray(np.y as int, dy, j - 1)) == Some(cost));
                    }
                }
            }
        }
    }
}

proof fn lemma_scan_xy_uniform(
    ctx: SearchCtx,
    goals: Seq<GoalSpec>,
    flee: bool,
    cost: u32,
    pos: Position,
    dx: int,
    dy: int,
    px: Option<u32>,
    py: Option<u32>,
    q: Position,
)
    requires
        scan_xy(ctx, goals, flee, cost, pos, dx, dy, px, py) == Some(q),
        ctx.spec_look(pos.x as int, pos.y as int) == Some(cost),
    ensures
        q.x == ray(pos.x as int, dx, cheb(pos, q)),
        q.y == ray(pos.y as int, dy, cheb(pos, q)),
        run_uniform(ctx, pos, dx, dy, cheb(pos, q), cost),
    decreases (if dx == 1 { 100 - pos.x } else { pos.x as int }),
{
    if (dx != 1 && dx != -1) || (dy != 1 && dy != -1) {
    } else if pf_heuristic(goals, flee, pos) == 0 || pos.x <= 1 || pos.x >= 98 || pos.y <= 1 || pos.y >= 98 {
    } else {
        let diag_x = ctx.spec_look_at(pos.x - dx, pos.y + dy);
        let diag_y = ctx.spec_look_at(pos.x + dx, pos.y - dy);
        if (diag_x is Some && px != Some(cost)) || (diag_y is Some && py != Some(cost)) {
        } else {
            let next_x = ctx.spec_look_at(pos.x as int, pos.y + dy);
            let next_y = ctx.spec_look_at(pos.x + dx, pos.y as int);
            if next_y is Some && spec_jump_x(ctx, goals, flee, cost, Position { x: (pos.x + dx) as u8, y: pos.y }, dx) is Some {
            } else if next_x is Some && spec_jump_y(ctx, goals, flee, cost, Position { x: pos.x, y: (pos.y + dy) as u8 }, dy) is Some {
            } else {
                let np = Position { x: (pos.x + dx) as u8, y: (pos.y + dy) as u8 };
                let jump_cost = ctx.spec_look(np.x as int, np.y as int);
                if jump_cost is None {
                } else if jump_cost != Some(cost) {
                    assert(q == np);
                    assert(cheb(pos, q) == 1);
                    assert forall|j: int| 0 <= j < 1 implies #[trigger] ctx.spec_look(
                        ray(pos.x as int, dx, j),
                        ray(pos.y as int, dy, j),
                    ) == Some(cost) by {
                        assert(ray(pos.x as int, dx, j) == pos.x);
                        assert(ray(pos.y as int, dy, j) == pos.y);
                    }
                } else {
                    lemma_scan_xy_uniform(ctx, goals, flee, cost, np, dx, dy, next_x, next_y, q);
                    let m = cheb(np, q);
                    assert(cheb(pos, q) == m + 1);
                    assert forall|j: int| 0 <= j < m + 1 implies #[trigger] ctx.spec_look(
                        ray(pos.x as int, dx, j),
                        ray(pos.y as int, dy, j),
                    ) == Some(cost) by {
                        if j > 0 {
                            assert(ray(pos.x as int, dx, j) == ray(np.x as int, dx, j - 1));
                            assert(ray(pos.y as int, dy, j) == ray(np.y as int, dy, j - 1));
                            assert(ctx.spec_look(ray(np.x as int, dx, j - 1), ray(np.y as int, dy, j - 1)) == Some(cost));
                        }
                    }
                }
            }
        }
    }
}

/// Every tile of a jump's run before the jump point costs what the jump
/// was made with, when its first tile does.
proof fn lemma_jump_uniform(
    ctx: SearchCtx,
    goals: Seq<GoalSpec>,
    flee: bool,
    cost: u32,
    pos: Position,
    dx: int,
    dy: int,
    q: Position,
)
    requires
        spec_jump(ctx, goals, flee, cost, pos, dx, dy) == Some(q),
        ctx.spec_look(pos.x as int, pos.y as int) == Some(cost),
    ensures
        run_uniform(ctx, pos, dx, dy, cheb(pos, q), cost),
{
    if dx != 0 {
        if dy != 0 {
            lemma_scan_xy_uniform(
                ctx,
                goals,
                flee,
                cost,
                pos,
                dx,
                dy,
                ctx.spec_look_at(pos.x - dx, pos.y as int),
                ctx.spec_look_at(pos.x as int, pos.y - dy),
                q,
            );
        } else {
            lemma_scan_x_uniform(
                ctx,
                goals,
                flee,
                cost,
                pos,
                dx,
                ctx.spec_look_at(pos.x as int, pos.y - 1),
                ctx.spec_look_at(pos.x as int, pos.y + 1),
                q,
            );
        }
    } else {
        lemma_scan_y_uniform(
            ctx,
            goals,
            flee,
            cost,
            pos,
            dy,
            ctx.spec_look_at(pos.x - 1, pos.y as int),
            ctx.spec_look_at(pos.x + 1, pos.y as int),
            q,
        );
    }
}

/// The cost of the run from `pos` through its neighbour `nb` to the jump
/// point `jp` found from `nb` with `nb`'s cost: that cost for every tile
/// before `jp`, then `jp`'s own.
proof fn lemma_jump_cost(
    ctx: SearchCtx,
    goals: Seq<GoalSpec>,
    flee: bool,
    pos: Position,
    nb: Position,
    jp: Position,
    dx: int,
    dy: int,
    c: u32,
)
    requires
        unit(dx),
        unit(dy),
        dx != 0 || dy != 0,
        nb.x == pos.x + dx,
        nb.y == pos.y + dy,
        spec_jump(ctx, goals, flee, c, nb, dx, dy) == Some(jp),
        on_run(ctx, nb, dx, dy, jp),
        ctx.spec_look(nb.x as int, nb.y as int) == Some(c),
    ensures
        run_cost(ctx, pos, jp) == c * (cheb(pos, jp) - 1) + step_cost(ctx, jp),
        ctx.spec_look(jp.x as int, jp.y as int) is Some,
{
    lemma_jump_uniform(ctx, goals, flee, c, nb, dx, dy, jp);
    lemma_extend_run(ctx, pos, nb, jp, dx, dy);
    let k = cheb(pos, jp);
    assert(run_passable(ctx, pos.x as int, pos.y as int, dx, dy, 1, k));
    assert forall|i: int|
        1 <= i <= k - 1 implies on_map(ray(pos.x as int, dx, i), ray(pos.y as int, dy, i)) && #[trigger] ctx.spec_look(
        ray(pos.x as int, dx, i),
        ray(pos.y as int, dy, i),
    ) == Some(c) by {
        assert(ctx.passable(ray(pos.x as int, dx, i), ray(pos.y as int, dy, i)));
        assert(ray(pos.x as int, dx, i) == ray(nb.x as int, dx, i - 1));
        assert(ray(pos.y as int, dy, i) == ray(nb.y as int, dy, i - 1));
        assert(ctx.spec_look(ray(nb.x as int, dx, i - 1), ray(nb.y as int, dy, i - 1)) == Some(c));
    }
    lemma_run_sum_uniform(ctx, pos, dx, dy, k - 1, c);
    assert(run_tile(pos, dx, dy, k) == jp);
    assert(ctx.passable(ray(pos.x as int, dx, k), ray(pos.y as int, dy, k)));
}

/// Scans horizontally from `pos` (passable) in direction `dx` for the next
/// jump point: a tile whose cost changes, with a forced neighbour above or
/// below, at a goal, or near the border; `None` when the ray hits an
/// obstacle first.
pub fn jump_x(ctx: &SearchCtx, goals: &Vec<GoalSpec>, flee: bool, cost: u32, from: Position, dx: i32) -> (r: Option<Position>)
    requires
        ctx.wf(),
        in_bounds(from),
        ctx.passable(from.x as int, from.y as int),
        dx == 1 || dx == -1,
    ensures
        r == spec_jump_x(*ctx, goals@, flee, cost, from, dx as int),
        r matches Some(q) ==> in_bounds(q) && q.y == from.y && on_run(*ctx, from, dx as int, 0, q),
{
    let ghost start = from;
    let mut pos = from;
    let mut prev_cost_u = ctx.look_at(pos.x as i32, pos.y as i32 - 1);
    let mut prev_cost_d = ctx.look_at(pos.x as i32, pos.y as i32 + 1);
    loop
        invariant_except_break
            spec_jump_x(*ctx, goals@, flee, cost, start, dx as int) == scan_x(
                *ctx,
                goals@,
                flee,
                cost,
                pos,
                dx as int,
                prev_cost_u,
                prev_cost_d,
            ),
        invariant
            ctx.wf(),
            in_bounds(pos),
            dx == 1 || dx == -1,
            pos.y == start.y,
            start == from,
            on_run(*ctx, start, dx as int, 0, pos),
        ensures
            spec_jump_x(*ctx, goals@, flee, cost, start, dx as int) == Some(pos),
        decreases (if dx == 1 { 100 - pos.x } else { pos.x as int }),
    {
        let ghost p0 = pos;
        let ghost u0 = prev_cost_u;
        let ghost d0 = prev_cost_d;
        if heuristic(goals, flee, pos) == 0 || is_near_border_pos(pos.x) {
            assert(scan_x(*ctx, goals@, flee, cost, p0, dx as int, u0, d0) == Some(p0));
            break;
        }
        let nx = pos.x as i32 + dx;
        let cost_u = ctx.look_at(nx, pos.y as i32 - 1);
        let cost_d = ctx.look_at(nx, pos.y as i32 + 1);
        if (cost_u.is_some() && prev_cost_u != Some(cost)) || (cost_d.is_some() && prev_cost_d != Some(
            cost,
        )) {
            assert(scan_x(*ctx, goals@, flee, cost, p0, dx as int, u0, d0) == Some(p0));
            break;
        }
        prev_cost_u = cost_u;
        prev_cost_d = cost_d;
        let ghost k = cheb(start, pos);
        pos.x = nx as u8;
        let jump_cost = ctx.look(pos.x, pos.y);
        if jump_cost.is_none() {
            assert(scan_x(*ctx, goals@, flee, cost, p0, dx as int, u0, d0) == None::<Position>);
            return None;
        }
        proof {
            assert(cheb(start, pos) == k + 1);
            assert forall|i: int| 0 <= i <= k + 1 implies #[trigger] ctx.passable(
                ray(start.x as int, dx as int, i),
                ray(start.y as int, 0, i),
            ) by {
                if i <= k {
                    assert(run_passable(*ctx, start.x as int, start.y as int, dx as int, 0, 0, k));
                }
            }
        }
        if jump_cost != Some(cost) {
            assert(scan_x(*ctx, goals@, flee, cost, p0, dx as int, u0, d0) == Some(pos));
            break;
        }
        assert(scan_x(*ctx, goals@, flee, cost, p0, dx as int, u0, d0) == scan_x(
            *ctx,
            goals@,
            flee,
            cost,
            pos,
            dx as int,
            prev_cost_u,
            prev_cost_d,
        ));
    }
    Some(pos)
}

/// Scans vertically from `pos` (passable) in direction `dy`; the
/// counterpart of `jump_x`.
pub fn jump_y(ctx: &SearchCtx, goals: &Vec<GoalSpec>, flee: bool, cost: u32, from: Position, dy: i32) -> (r: Option<Position>)
    requires
        ctx.wf(),
        in_bounds(from),
        ctx.passable(from.x as int, from.y as int),
        dy == 1 || dy == -1,
    ensures
        r == spec_jump_y(*ctx, goals@, flee, cost, from, dy as int),
        r matches Some(q) ==> in_bounds(q) && q.x == from.x && on_run(*ctx, from, 0, dy as int, q),
{
    let ghost start = from;
    let mut pos = from;
    let mut prev_cost_l = ctx.look_at(pos.x as i32 - 1, pos.y as i32);
    let mut prev_cost_r = ctx.look_at(pos.x as i32 + 1, pos.y as i32);
    loop
        invariant_except_break
            spec_jump_y(*ctx, goals@, flee, cost, start, dy as int) == scan_y(
                *ctx,
                goals@,
                flee,
                cost,
                pos,
                dy as int,
                prev_cost_l,
                prev_cost_r,
            ),
        invariant
            ctx.wf(),
            in_bounds(pos),
            dy == 1 || dy == -1,
            pos.x == start.x,
            start == from,
            on_run(*ctx, start, 0, dy as int, pos),
        ensures
            spec_jump_y(*ctx, goals@, flee, cost, start, dy as int) == Some(pos),
        decreases (if dy == 1 { 100 - pos.y } else { pos.y as int }),
    {
        let ghost p0 = pos;
        let ghost l0 = prev_cost_l;
        let ghost r0 = prev_cost_r;
        if heuristic(goals, flee, pos) == 0 || is_near_border_pos(pos.y) {
            assert(scan_y(*ctx, goals@, flee, cost, p0, dy as int, l0, r0) == Some(p0));
            break;
        }
        let ny = pos.y as i32 + dy;
        let cost_l = ctx.look_at(pos.x as i32 - 1, ny);
        let cost_r = ctx.look_at(pos.x as i32 + 1, ny);
        if (cost_l.is_some() && prev_cost_l != Some(cost)) || (cost_r.is_some() && prev_cost_r != Some(
            cost,
        )) {
            assert(scan_y(*ctx, goals@, flee, cost, p0, dy as int, l0, r0) == Some(p0));
            break;
        }
        prev_cost_l = cost_l;
        prev_cost_r = cost_r;
        let ghost k = cheb(start, pos);
        pos.y = ny as u8;
        let jump_cost = ctx.look(pos.x, pos.y);
        if jump_cost.is_none() {
            assert(scan_y(*ctx, goals@, flee, cost, p0, dy as int, l0, r0) == None::<Position>);
            return None;
        }
        proof {
            assert(cheb(start, pos) == k + 1);
            assert forall|i: int| 0 <= i <= k + 1 implies #[trigger] ctx.passable(
                ray(start.x as int, 0, i),
                ray(start.y as int, dy as int, i),
            ) by {
                if i <= k {
                    assert(run_passable(*ctx, start.x as int, start.y as int, 0, dy as int, 0, k));
                }
            }
        }
        if jump_cost != Some(cost) {
            assert(scan_y(*ctx, goals@, flee, cost, p0, dy as int, l0, r0) == Some(pos));
            break;
        }
        assert(scan_y(*ctx, goals@, flee, cost, p0, dy as int, l0, r0) == scan_y(
            *ctx,
            goals@,
            flee,
            cost,
            pos,
            dy as int,
            prev_cost_l,
            prev_cost_r,
        ));
    }
    Some(pos)
}

/// Scans diagonally from `pos` (passable) in direction `(dx, dy)`, also
/// stopping where a horizontal or vertical sub-scan finds a jump point.
#[verifier::rlimit(50)]
pub fn jump_xy(ctx: &SearchCtx, goals: &Vec<GoalSpec>, flee: bool, cost: u32, from: Position, dx: i32, dy: i32) -> (r: Option<Position>)
    requires
        ctx.wf(),
        in_bounds(from),
        ctx.passable(from.x as int, from.y as int),
        dx == 1 || dx == -1,
        dy == 1 || dy == -1,
    ensures
        r == spec_jump_xy(*ctx, goals@, flee, cost, from, dx as int, dy as int),
        r matches Some(q) ==> in_bounds(q) && on_run(*ctx, from, dx as int, dy as int, q),
{
    let ghost start = from;
    let mut pos = from;
    let mut prev_cost_x = ctx.look_at(pos.x as i32 - dx, pos.y as i32);
    let mut prev_cost_y = ctx.look_at(pos.x as i32, pos.y as i32 - dy);
    loop
        invariant_except_break
            spec_jump_xy(*ctx, goals@, flee, cost, start, dx as int, dy as int) == scan_xy(
                *ctx,
                goals@,
                flee,
                cost,
                pos,
                dx as int,
                dy as int,
                prev_cost_x,
                prev_cost_y,
            ),
        invariant
            ctx.wf(),
            in_bounds(pos),
            dx == 1 || dx == -1,
            dy == 1 || dy == -1,
            abs_diff(pos.x as int, start.x as int) == abs_diff(pos.y as int, start.y as int),
            start == from,
            on_run(*ctx, start, dx as int, dy as int, pos),
        ensures
            spec_jump_xy(*ctx, goals@, flee, cost, start, dx as int, dy as int) == Some(pos),
        decreases (if dx == 1 { 100 - pos.x } else { pos.x as int }),
    {
        let ghost p0 = pos;
        let ghost x0 = prev_cost_x;
        let ghost y0 = prev_cost_y;
        if heuristic(goals, flee, pos) == 0 || is_near_border_pos(pos.x) || is_near_border_pos(pos.y) {
            assert(scan_xy(*ctx, goals@, flee, cost, p0, dx as int, dy as int, x0, y0) == Some(p0));
            break;
        }
        let diag_x = ctx.look_at(pos.x as i32 - dx, pos.y as i32 + dy);
        let diag_y = ctx.look_at(pos.x as i32 + dx, pos.y as i32 - dy);
        if (diag_x.is_some() && prev_cost_x != Some(cost)) || (diag_y.is_some() && prev_cost_y != Some(
            cost,
        )) {
            assert(scan_xy(*ctx, goals@, flee, cost, p0, dx as int, dy as int, x0, y0) == Some(p0));
            break;
        }
        prev_cost_x = ctx.look_at(pos.x as i32, pos.y as i32 + dy);
        prev_cost_y = ctx.look_at(pos.x as i32 + dx, pos.y as i32);
        if prev_cost_y.is_some() && jump_x(
            ctx,
            goals,
            flee,
            cost,
            Position { x: (pos.x as i32 + dx) as u8, y: pos.y },
            dx,
        ).is_some() {
            assert(scan_xy(*ctx, goals@, flee, cost, p0, dx as int, dy as int, x0, y0) == Some(p0));
            break;
        }
        if prev_cost_x.is_some() && jump_y(
            ctx,
            goals,
            flee,
            cost,
            Position { x: pos.x, y: (pos.y as i32 + dy) as u8 },
            dy,
        ).is_some() {
            assert(scan_xy(*ctx, goals@, flee, cost, p0, dx as int, dy as int, x0, y0) == Some(p0));
            break;
        }
        let ghost k = cheb(start, pos);
        pos.x = (pos.x as i32 + dx) as u8;
        pos.y = (pos.y as i32 + dy) as u8;
        let jump_cost = ctx.look(pos.x, pos.y);
        if jump_cost.is_none() {
            assert(scan_xy(*ctx, goals@, flee, cost, p0, dx as int, dy as int, x0, y0) == None::<Position>);
            return None;
        }
        proof {
            assert(cheb(start, pos) == k + 1);
            assert forall|i: int| 0 <= i <= k + 1 implies #[trigger] ctx.passable(
                ray(start.x as int, dx as int, i),
                ray(start.y as int, dy as int, i),
            ) by {
                if i <= k {
                    assert(run_passable(*ctx, start.x as int, start.y as int, dx as int, dy as int, 0, k));
                }
            }
        }
        if jump_cost != Some(cost) {
            assert(scan_xy(*ctx, goals@, flee, cost, p0, dx as int, dy as int, x0, y0) == Some(pos));
            break;
        }
        assert(scan_xy(*ctx, goals@, flee, cost, p0, dx as int, dy as int, x0, y0) == scan_xy(
            *ctx,
            goals@,
            flee,
            cost,
            pos,
            dx as int,
            dy as int,
            prev_cost_x,
            prev_cost_y,
        ));
    }
    Some(pos)
}

/// Dispatches to the horizontal, vertical or diagonal scan.
pub fn jump(ctx: &SearchCtx, goals: &Vec<GoalSpec>, flee: bool, cost: u32, pos: Position, dx: i32, dy: i32) -> (r: Option<Position>)
    requires
        ctx.wf(),
        in_bounds(pos),
        ctx.passable(pos.x as int, pos.y as int),
        unit(dx as int),
        unit(dy as int),
        dx != 0 || dy != 0,
    ensures
        r == spec_jump(*ctx, goals@, flee, cost, pos, dx as int, dy as int),
        r matches Some(q) ==> in_bounds(q) && on_run(*ctx, pos, dx as int, dy as int, q),
{
    if dx != 0 {
        if dy != 0 {
            jump_xy(ctx, goals, flee, cost, pos, dx, dy)
        } else {
            jump_x(ctx, goals, flee, cost, pos, dx)
        }
    } else {
        jump_y(ctx, goals, flee, cost, pos, dy)
    }
}

/// Largest cost one expansion adds to a path: a run of at most 99 tiles of
/// cost at most 255.
pub const STEP_BOUND: u32 = 25500;

/// An entry of the open list: a position with its f-cost and insertion number.
#[derive(Clone, Copy)]
pub struct HeapState {
    pub f_cost: u32,
    pub insert_id: u64,
    pub pos: Position,
}

/// Entry `a` is taken no later than `b`: lower f-cost first, and among
/// equal f-costs the later insertion first.
pub open spec fn pops_before(a: HeapState, b: HeapState) -> bool {
    a.f_cost < b.f_cost || (a.f_cost == b.f_cost && a.insert_id >= b.insert_id)
}

/// Removes and returns the open-list entry that is taken first.
pub fn pop_best(heap: &mut Vec<HeapState>) -> (r: HeapState)
    requires
        old(heap)@.len() > 0,
    ensures
        final(heap)@.len() == old(heap)@.len() - 1,
        old(heap)@.contains(r),
        forall|k: int| 0 <= k < final(heap)@.len() ==> old(heap)@.contains(#[trigger] final(heap)@[k]),
        forall|k: int| 0 <= k < old(heap)@.len() ==> pops_before(r, #[trigger] old(heap)@[k]),
        exists|b: int| 0 <= b < old(heap)@.len() && old(heap)@[b] == r && final(heap)@ == old(heap)@.remove(b),
{
    let mut best: usize = 0;
    let mut i: usize = 1;
    while i < heap.len()
        invariant
            heap@ == old(heap)@,
            best < i <= heap@.len(),
            forall|k: int| 0 <= k < i ==> pops_before(heap@[best as int], #[trigger] heap@[k]),
        decreases heap@.len() - i,
    {
        let a = heap[i];
        let b = heap[best];
        if a.f_cost < b.f_cost || (a.f_cost == b.f_cost && a.insert_id > b.insert_id) {
            best = i;
        }
        i += 1;
    }
    let ghost before = heap@;
    let r = heap.remove(best);
    proof {
        assert(before[best as int] == r);
        assert forall|k: int| 0 <= k < heap@.len() implies before.contains(#[trigger] heap@[k]) by {
            if k < best {
                assert(heap@[k] == before[k]);
            } else {
                assert(heap@[k] == before[k + 1]);
            }
        }
    }
    r
}

/// The part of a search's working state that opening tiles changes: best
/// costs, parents, the open list, and the insertion counter.
type PfTrack = (Seq<u32>, Seq<Option<Position>>, Seq<HeapState>, u64);

/// Opening `p_to` from `p_from` at cost `g_cost`: unless `p_to` is closed
/// or already has a cost no greater, it gets that cost and parent, and an
/// open-list entry with f-cost `g_cost` plus the weighted heuristic
/// (saturating) and the next insertion number.
spec fn push_effect(
    t: PfTrack,
    closed: Seq<bool>,
    goals: Seq<GoalSpec>,
    flee: bool,
    weight: u32,
    p_from: Position,
    p_to: Position,
    g_cost: u32,
) -> PfTrack {
    let i = pidx(p_to);
    if closed[i] || g_cost >= t.0[i] {
        t
    } else {
        let hw = spec_weighted(pf_heuristic(goals, flee, p_to) as u32, weight);
        let f_cost = if g_cost + hw > u32::MAX {
            u32::MAX
        } else {
            (g_cost + hw) as u32
        };
        (
            t.0.update(i, g_cost),
            t.1.update(i, Some(p_from)),
            t.2.push(HeapState { f_cost, insert_id: (t.3 + 1) as u64, pos: p_to }),
            (t.3 + 1) as u64,
        )
    }
}

/// The jump-point step from `pos` (of cost `cost`, best cost `neighbor_g`)
/// towards `neighbor` (of cost `n_cost`): a neighbour of another cost or on
/// the border is opened directly; otherwise the jump point the scan finds,
/// if any, is opened at the cost of the run to it.
spec fn jump_neighbor_effect(
    t: PfTrack,
    closed: Seq<bool>,
    ctx: SearchCtx,
    goals: Seq<GoalSpec>,
    flee: bool,
    weight: u32,
    pos: Position,
    cost: u32,
    neighbor: Position,
    neighbor_g: u32,
    n_cost: u32,
) -> PfTrack {
    if n_cost == 0 {
        t
    } else if n_cost != cost || neighbor.x == 0 || neighbor.x == 99 || neighbor.y == 0 || neighbor.y == 99 {
        push_effect(t, closed, goals, flee, weight, pos, neighbor, (neighbor_g + n_cost) as u32)
    } else {
        match spec_jump(ctx, goals, flee, n_cost, neighbor, neighbor.x - pos.x, neighbor.y - pos.y) {
            Some(jp) => {
                let jump_cost = match ctx.spec_look(jp.x as int, jp.y as int) {
                    Some(c) => c,
                    None => ctx.plain_cost,
                };
                push_effect(
                    t,
                    closed,
                    goals,
                    flee,
                    weight,
                    pos,
                    jp,
                    (neighbor_g + n_cost * (cheb(pos, jp) - 1) + jump_cost) as u32,
                )
            },
            None => t,
        }
    }
}

/// Visiting the tile `(ox, oy)` away from `pos`: nothing off the map or on
/// an impassable tile; otherwise the jump-point step towards it
/// (`use_jump`) or opening it at `g_cost` plus its cost.
spec fn visit_effect(
    t: PfTrack,
    closed: Seq<bool>,
    ctx: SearchCtx,
    goals: Seq<GoalSpec>,
    flee: bool,
    weight: u32,
    pos: Position,
    cost: u32,
    g_cost: u32,
    ox: int,
    oy: int,
    use_jump: bool,
) -> PfTrack {
    let nx = pos.x + ox;
    let ny = pos.y + oy;
    if 0 <= nx < 100 && 0 <= ny < 100 {
        let neighbor = Position { x: nx as u8, y: ny as u8 };
        match ctx.spec_look(nx, ny) {
            Some(n_cost) => if use_jump {
                jump_neighbor_effect(t, closed, ctx, goals, flee, weight, pos, cost, neighbor, g_cost, n_cost)
            } else {
                push_effect(t, closed, goals, flee, weight, pos, neighbor, (g_cost + n_cost) as u32)
            },
            None => t,
        }
    } else {
        t
    }
}

/// Expanding the closed `pos` with best cost `g_cost`: the visits in the
/// direction `pos` was reached from, then the forced neighbours, in the
/// order the search makes them.
spec fn expand_effect(
    t: PfTrack,
    closed: Seq<bool>,
    ctx: SearchCtx,
    goals: Seq<GoalSpec>,
    flee: bool,
    weight: u32,
    pos: Position,
    g_cost: u32,
) -> PfTrack {
    let dx = match t.1[pidx(pos)] {
        Some(p) => sign(pos.x - p.x),
        None => 0,
    };
    let dy = match t.1[pidx(pos)] {
        Some(p) => sign(pos.y - p.y),
        None => 0,
    };
    let cost = match ctx.spec_look(pos.x as int, pos.y as int) {
        Some(c) => c,
        None => ctx.plain_cost,
    };
    let bdx: int = if pos.x == 1 { -1 } else if pos.x == 98 { 1 } else { 0 };
    let bdy: int = if pos.y == 1 { -1 } else if pos.y == 98 { 1 } else { 0 };
    let t1 = if dx != 0 {
        visit_effect(t, closed, ctx, goals, flee, weight, pos, cost, g_cost, dx, 0, bdy == 0)
    } else {
        t
    };
    let t2 = if dy != 0 {
        visit_effect(t1, closed, ctx, goals, flee, weight, pos, cost, g_cost, 0, dy, bdx == 0)
    } else {
        t1
    };
    if dx != 0 {
        if dy != 0 {
            let t3 = visit_effect(t2, closed, ctx, goals, flee, weight, pos, cost, g_cost, dx, dy, true);
            let t4 = if ctx.spec_look_at(pos.x - dx, pos.y as int) != Some(cost) {
                visit_effect(t3, closed, ctx, goals, flee, weight, pos, cost, g_cost, -dx, dy, true)
            } else {
                t3
            };
            if ctx.spec_look_at(pos.x as int, pos.y - dy) != Some(cost) {
                visit_effect(t4, closed, ctx, goals, flee, weight, pos, cost, g_cost, dx, -dy, true)
            } else {
                t4
            }
        } else {
            let t3 = if bdy == 1 || ctx.spec_look_at(pos.x as int, pos.y + 1) != Some(cost) {
                visit_effect(t2, closed, ctx, goals, flee, weight, pos, cost, g_cost, dx, 1, true)
            } else {
                t2
            };
            if bdy == -1 || ctx.spec_look_at(pos.x as int, pos.y - 1) != Some(cost) {
                visit_effect(t3, closed, ctx, goals, flee, weight, pos, cost, g_cost, dx, -1, true)
            } else {
                t3
            }
        }
    } else if dy != 0 {
        let t3 = if bdx == 1 || ctx.spec_look_at(pos.x + 1, pos.y as int) != Some(cost) {
            visit_effect(t2, closed, ctx, goals, flee, weight, pos, cost, g_cost, 1, dy, true)
        } else {
            t2
        };
        if bdx == -1 || ctx.spec_look_at(pos.x - 1, pos.y as int) != Some(cost) {
            visit_effect(t3, closed, ctx, goals, flee, weight, pos, cost, g_cost, -1, dy, true)
        } else {
            t3
        }
    } else {
        t2
    }
}

/// Some open-list entry stands on slot `i`.
spec fn in_heap(heap: Seq<HeapState>, i: int) -> bool {
    exists|j: int| 0 <= j < heap.len() && pidx(#[trigger] heap[j].pos) == i
}

/// A goal square contains a passable tile one step from `start`.
pub open spec fn goal_next_to(ctx: SearchCtx, goals: Seq<GoalSpec>, flee: bool, start: Position) -> bool {
    exists|n: Position| adjacent(start, n) && #[trigger] ctx.passable(n.x as int, n.y as int) && goal_reached(goals, flee, n)
}

/// Working state of one search: per-tile best cost and parent, closed
/// marks, the open list, and (ghost) the order in which tiles were closed.
struct PfState {
    g_score: Vec<u32>,
    parents: Vec<Option<Position>>,
    closed: Vec<bool>,
    heap: Vec<HeapState>,
    insert_counter: u64,
    rank: Ghost<Seq<int>>,
    nclosed: Ghost<nat>,
    cset: Ghost<Set<int>>,
}

impl PfState {
    /// Every tile with a known cost that is not closed has an entry in the
    /// open list.
    spec fn covered(&self) -> bool {
        forall|i: int|
            0 <= i < 10000 && #[trigger] self.g_score@[i] != u32::MAX && !self.closed@[i] ==> in_heap(self.heap@, i)
    }

    /// What opening tiles keeps: best costs only fall, the open list keeps
    /// its entries, and coverage is kept.
    spec fn grows(&self, b: PfState) -> bool {
        &&& forall|i: int| 0 <= i < 10000 ==> #[trigger] b.g_score@[i] <= self.g_score@[i]
        &&& forall|i: int| #[trigger] in_heap(self.heap@, i) ==> in_heap(b.heap@, i)
        &&& (self.covered() ==> b.covered())
    }

    /// The best costs, parents, open list and insertion counter.
    spec fn track(&self) -> PfTrack {
        (self.g_score@, self.parents@, self.heap@, self.insert_counter)
    }

    /// The best cost of `p` as a parent: 0 for the start.
    spec fn gz(&self, start: Position, p: Position) -> int {
        if p == start {
            0
        } else if in_bounds(p) {
            self.g_score@[pidx(p)] as int
        } else {
            u32::MAX as int
        }
    }

    /// Every node's best cost is at least its parent's plus the cost of the
    /// run between them.
    #[verifier::opaque]
    spec fn links(&self, ctx: SearchCtx, start: Position) -> bool {
        forall|i: int|
            0 <= i < 10000 ==> (#[trigger] self.parents@[i] matches Some(p) ==> self.g_score@[i] >= self.gz(start, p)
                + run_cost(ctx, p, pos_of(i)))
    }

    spec fn is_closed(&self, p: Position) -> bool {
        in_bounds(p) && self.closed@[pidx(p)]
    }

    /// The parent of a node is the start, or a node closed before it.
    spec fn parent_ok(&self, ctx: SearchCtx, start: Position, i: int) -> bool {
        self.parents@[i] matches Some(p) ==> {
            &&& run_edge(ctx, p, pos_of(i))
            &&& (p == start || (self.is_closed(p) && (self.closed@[i] ==> self.rank@[pidx(p)]
                < self.rank@[i])))
        }
    }

    spec fn inv(&self, ctx: SearchCtx, start: Position) -> bool {
        &&& self.g_score@.len() == 10000
        &&& self.parents@.len() == 10000
        &&& self.closed@.len() == 10000
        &&& self.rank@.len() == 10000
        &&& self.cset@.finite()
        &&& self.cset@.len() == self.nclosed@
        &&& self.nclosed@ <= 10000
        &&& forall|i: int| #[trigger] self.cset@.contains(i) <==> (0 <= i < 10000 && self.closed@[i])
        &&& forall|i: int|
            0 <= i < 10000 ==> ((#[trigger] self.parents@[i] is Some) <==> self.g_score@[i] != u32::MAX)
        &&& forall|i: int| 0 <= i < 10000 ==> #[trigger] self.parent_ok(ctx, start, i)
        &&& forall|i: int|
            0 <= i < 10000 && #[trigger] self.closed@[i] ==> self.parents@[i] is Some && 0 <= self.rank@[i]
                < self.nclosed@ && self.g_score@[i] <= STEP_BOUND * self.nclosed@
        &&& forall|i: int|
            0 <= i < 10000 && #[trigger] self.g_score@[i] != u32::MAX ==> self.g_score@[i] <= STEP_BOUND * (
            self.nclosed@ + 1)
        &&& forall|j: int|
            0 <= j < self.heap@.len() ==> in_bounds(#[trigger] self.heap@[j].pos) && self.parents@[pidx(
                self.heap@[j].pos,
            )] is Some
    }

    fn new() -> (st: Self)
        ensures
            forall|ctx: SearchCtx, start: Position| #[trigger] st.inv(ctx, start),
            forall|ctx: SearchCtx, start: Position| #[trigger] st.links(ctx, start),
            st.covered(),
            forall|i: int| 0 <= i < 10000 ==> !#[trigger] st.closed@[i],
            st.nclosed@ == 0,
            st.insert_counter == 0,
            st.heap@.len() == 0,
    {
        let st = PfState {
            g_score: vec![u32::MAX; 10000],
            parents: vec![None; 10000],
            closed: vec![false; 10000],
            heap: Vec::new(),
            insert_counter: 0,
            rank: Ghost(Seq::new(10000, |i: int| 0)),
            nclosed: Ghost(0),
            cset: Ghost(Set::empty()),
        };
        proof {
            assert forall|ctx: SearchCtx, start: Position| #[trigger] st.inv(ctx, start) by {
                assert forall|i: int| 0 <= i < 10000 implies #[trigger] st.parent_ok(ctx, start, i) by {
                    assert(st.parents@[i] == None::<Position>);
                }
                assert forall|i: int| #[trigger] st.cset@.contains(i) <==> (0 <= i < 10000 && st.closed@[i]) by {
                    if 0 <= i < 10000 {
                        assert(!st.closed@[i]);
                    }
                }
            }
            assert forall|ctx: SearchCtx, start: Position| #[trigger] st.links(ctx, start) by {
                reveal(PfState::links);
                assert forall|i: int| 0 <= i < 10000 implies (#[trigger] st.parents@[i] matches Some(p)
                    ==> st.g_score@[i] >= st.gz(start, p) + run_cost(ctx, p, pos_of(i))) by {
                    assert(st.parents@[i] == None::<Position>);
                }
            }
        }
        st
    }

    /// Records `p_from` as the parent of `p_to` and opens `p_to` when `p_to`
    /// is not closed and `g_cost` improves on its best cost.
    fn push_node(
        &mut self,
        ctx: &SearchCtx,
        goals: &Vec<GoalSpec>,
        flee: bool,
        weight: u32,
        start: Position,
        p_from: Position,
        p_to: Position,
        g_cost: u32,
    )
        requires
            old(self).inv(*ctx, start),
            ctx.wf(),
            in_bounds(p_to),
            run_edge(*ctx, p_from, p_to),
            p_from == start || old(self).is_closed(p_from),
            g_cost <= STEP_BOUND * (old(self).nclosed@ + 1),
            old(self).insert_counter < u64::MAX,
            g_cost >= old(self).gz(start, p_from) + run_cost(*ctx, p_from, p_to),
        ensures
            old(self).grows(*final(self)),
            old(self).links(*ctx, start) ==> final(self).links(*ctx, start),
            final(self).inv(*ctx, start),
            final(self).closed@ == old(self).closed@,
            final(self).nclosed@ == old(self).nclosed@,
            final(self).rank@ == old(self).rank@,
            final(self).cset@ == old(self).cset@,
            old(self).insert_counter <= final(self).insert_counter <= old(self).insert_counter + 1,
            final(self).track() == push_effect(
                old(self).track(),
                old(self).closed@,
                goals@,
                flee,
                weight,
                p_from,
                p_to,
                g_cost,
            ),
    {
        let i = index_of(p_to);
        proof {
            lemma_pidx(p_to);
        }
        if self.closed[i] {
            return;
        }
        if g_cost < self.g_score[i] {
            let ghost prev = *self;
            self.g_score.set(i, g_cost);
            self.parents.set(i, Some(p_from));
            let h = heuristic(goals, flee, p_to);
            let hw = weighted(h, weight);
            let f_cost = g_cost.saturating_add(hw);
            self.insert_counter = self.insert_counter + 1;
            self.heap.push(HeapState { f_cost, insert_id: self.insert_counter, pos: p_to });
            proof {
                assert forall|j: int| 0 <= j < 10000 implies #[trigger] self.parent_ok(*ctx, start, j) by {
                    if j != i {
                        assert(prev.parent_ok(*ctx, start, j));
                    } else {
                        lemma_pidx(p_to);
                    }
                }
                assert forall|j: int|
                    0 <= j < 10000 implies ((#[trigger] self.parents@[j] is Some) <==> self.g_score@[j]
                    != u32::MAX) by {
                    if j != i {
                        assert(prev.parents@[j] is Some <==> prev.g_score@[j] != u32::MAX);
                    }
                }
                assert forall|j: int|
                    0 <= j < self.heap@.len() implies in_bounds(#[trigger] self.heap@[j].pos)
                    && self.parents@[pidx(self.heap@[j].pos)] is Some by {
                    if j < prev.heap@.len() {
                        assert(prev.heap@[j] == self.heap@[j]);
                    }
                }
                assert forall|k: int| #[trigger] in_heap(prev.heap@, k) implies in_heap(self.heap@, k) by {
                    let j = choose|j: int| 0 <= j < prev.heap@.len() && pidx(#[trigger] prev.heap@[j].pos) == k;
                    assert(self.heap@[j] == prev.heap@[j]);
                }
                if prev.links(*ctx, start) {
                    reveal(PfState::links);
                    assert forall|j: int| 0 <= j < 10000 implies (#[trigger] self.parents@[j] matches Some(p)
                        ==> self.g_score@[j] >= self.gz(start, p) + run_cost(*ctx, p, pos_of(j))) by {
                        lemma_pos_of(j);
                        if j == i {
                            assert(pos_of(j) == p_to);
                            assert(p_from != p_to);
                            if p_from != start {
                                lemma_pidx(p_from);
                                assert(pidx(p_from) != i);
                            }
                            assert(self.gz(start, p_from) == prev.gz(start, p_from));
                        } else {
                            assert(self.parents@[j] == prev.parents@[j]);
                            if let Some(p) = self.parents@[j] {
                                if p != start && in_bounds(p) {
                                    lemma_pidx(p);
                                }
                                assert(self.gz(start, p) <= prev.gz(start, p));
                            }
                        }
                    }
                }
                lemma_pidx(p_to);
                assert(pidx(self.heap@[self.heap@.len() - 1].pos) == i);
                assert(in_heap(self.heap@, i as int));
                if prev.covered() {
                    assert forall|k: int|
                        0 <= k < 10000 && #[trigger] self.g_score@[k] != u32::MAX && !self.closed@[k] implies in_heap(
                        self.heap@,
                        k,
                    ) by {
                        if k != i {
                            assert(prev.g_score@[k] != u32::MAX);
                            assert(in_heap(prev.heap@, k));
                        }
                    }
                }
            }
        }
    }

    /// Closes slot `i`, giving it the next rank.
    fn close(&mut self, ctx: &SearchCtx, start: Position, i: usize)
        requires
            old(self).inv(*ctx, start),
            i < 10000,
            !old(self).closed@[i as int],
            old(self).parents@[i as int] is Some,
        ensures
            final(self).inv(*ctx, start),
            final(self).closed@ == old(self).closed@.update(i as int, true),
            final(self).nclosed@ == old(self).nclosed@ + 1,
            final(self).rank@ == old(self).rank@.update(i as int, old(self).nclosed@ as int),
            final(self).g_score@ == old(self).g_score@,
            final(self).parents@ == old(self).parents@,
            final(self).heap@ == old(self).heap@,
            final(self).insert_counter == old(self).insert_counter,
    {
        let ghost prev = *self;
        proof {
            assert(self.cset@.subset_of(set_int_range(0, 10000)));
            lemma_int_range(0, 10000);
            let bigger = self.cset@.insert(i as int);
            assert(bigger.subset_of(set_int_range(0, 10000)));
            lemma_len_subset(bigger, set_int_range(0, 10000));
        }
        self.closed.set(i, true);
        proof {
            self.rank@ = self.rank@.update(i as int, self.nclosed@ as int);
            self.nclosed@ = self.nclosed@ + 1;
            self.cset@ = self.cset@.insert(i as int);
            assert forall|j: int| 0 <= j < 10000 implies #[trigger] self.parent_ok(*ctx, start, j) by {
                assert(prev.parent_ok(*ctx, start, j));
                if let Some(p) = self.parents@[j] {
                    if p != start && j == i {
                        assert(prev.rank@[pidx(p)] < prev.nclosed@);
                    }
                }
            }
            assert forall|j: int| #[trigger] self.cset@.contains(j) <==> (0 <= j < 10000 && self.closed@[j]) by {
                assert(prev.cset@.contains(j) <==> (0 <= j < 10000 && prev.closed@[j]));
            }
            assert forall|j: int|
                0 <= j < 10000 && #[trigger] self.closed@[j] implies self.parents@[j] is Some && 0
                <= self.rank@[j] < self.nclosed@ && self.g_score@[j] <= STEP_BOUND * self.nclosed@ by {
                if j != i {
                    assert(prev.closed@[j]);
                } else {
                    assert(prev.g_score@[j] != u32::MAX);
                }
            }
            assert forall|j: int|
                0 <= j < 10000 && #[trigger] self.g_score@[j] != u32::MAX implies self.g_score@[j]
                <= STEP_BOUND * (self.nclosed@ + 1) by {
                assert(prev.g_score@[j] <= STEP_BOUND * (prev.nclosed@ + 1));
            }
        }
    }
}

pub proof fn lemma_extend_run(ctx: SearchCtx, pos: Position, nb: Position, jp: Position, dx: int, dy: int)
    requires
        unit(dx),
        unit(dy),
        dx != 0 || dy != 0,
        nb.x == pos.x + dx,
        nb.y == pos.y + dy,
        on_run(ctx, nb, dx, dy, jp),
    ensures
        run_edge(ctx, pos, jp),
        cheb(pos, jp) == cheb(nb, jp) + 1,
        sign(jp.x - pos.x) == dx,
        sign(jp.y - pos.y) == dy,
{
    let k = cheb(nb, jp);
    assert(jp.x == ray(pos.x as int, dx, k + 1));
    assert(jp.y == ray(pos.y as int, dy, k + 1));
    assert(cheb(pos, jp) == k + 1);
    assert(sign(jp.x - pos.x) == dx);
    assert(sign(jp.y - pos.y) == dy);
    assert forall|i: int| 1 <= i <= k + 1 implies #[trigger] ctx.passable(
        ray(pos.x as int, dx, i),
        ray(pos.y as int, dy, i),
    ) by {
        assert(ray(pos.x as int, dx, i) == ray(nb.x as int, dx, i - 1));
        assert(ray(pos.y as int, dy, i) == ray(nb.y as int, dy, i - 1));
        assert(run_passable(ctx, nb.x as int, nb.y as int, dx, dy, 0, k));
    }
}

pub proof fn lemma_step_edge(ctx: SearchCtx, pos: Position, nb: Position, dx: int, dy: int)
    requires
        unit(dx),
        unit(dy),
        dx != 0 || dy != 0,
        nb.x == pos.x + dx,
        nb.y == pos.y + dy,
        ctx.passable(nb.x as int, nb.y as int),
    ensures
        run_edge(ctx, pos, nb),
{
    assert(cheb(pos, nb) == 1);
    assert(ray(pos.x as int, dx, 1) == nb.x);
    assert(ray(pos.y as int, dy, 1) == nb.y);
}

impl PfState {
    /// The jump-point step towards `neighbor` (passable, one king move from
    /// the closed `pos`): a tile whose cost differs from `pos`'s, or a border
    /// tile, is opened directly; otherwise the scan from `neighbor` decides
    /// which tile to open.
    #[verifier::rlimit(60)]
    fn jump_neighbor(
        &mut self,
        ctx: &SearchCtx,
        goals: &Vec<GoalSpec>,
        flee: bool,
        weight: u32,
        start: Position,
        pos: Position,
        cost: u32,
        neighbor: Position,
        neighbor_g: u32,
        n_cost: u32,
    )
        requires
            old(self).inv(*ctx, start),
            ctx.wf(),
            old(self).is_closed(pos),
            in_bounds(neighbor),
            unit(neighbor.x - pos.x),
            unit(neighbor.y - pos.y),
            neighbor != pos,
            ctx.spec_look(neighbor.x as int, neighbor.y as int) == Some(n_cost),
            n_cost <= 255,
            neighbor_g <= STEP_BOUND * old(self).nclosed@,
            old(self).insert_counter < u64::MAX,
            neighbor_g >= old(self).gz(start, pos),
        ensures
            old(self).grows(*final(self)),
            old(self).links(*ctx, start) ==> final(self).links(*ctx, start),
            final(self).inv(*ctx, start),
            final(self).closed@ == old(self).closed@,
            final(self).nclosed@ == old(self).nclosed@,
            final(self).rank@ == old(self).rank@,
            final(self).cset@ == old(self).cset@,
            old(self).insert_counter <= final(self).insert_counter <= old(self).insert_counter + 1,
            final(self).track() == jump_neighbor_effect(
                old(self).track(),
                old(self).closed@,
                *ctx,
                goals@,
                flee,
                weight,
                pos,
                cost,
                neighbor,
                neighbor_g,
                n_cost,
            ),
    {
        if n_cost == 0 {
            return;
        }
        let ndx = neighbor.x as i32 - pos.x as i32;
        let ndy = neighbor.y as i32 - pos.y as i32;
        if n_cost != cost || is_border_pos(neighbor.x) || is_border_pos(neighbor.y) {
            proof {
                lemma_step_edge(*ctx, pos, neighbor, ndx as int, ndy as int);
                lemma_run_cost_one(*ctx, pos, neighbor, ndx as int, ndy as int);
            }
            self.push_node(ctx, goals, flee, weight, start, pos, neighbor, neighbor_g + n_cost);
        } else {
            if let Some(jump_pt) = jump(ctx, goals, flee, n_cost, neighbor, ndx, ndy) {
                proof {
                    lemma_extend_run(*ctx, pos, neighbor, jump_pt, ndx as int, ndy as int);
                }
                let jump_cost = match ctx.look(jump_pt.x, jump_pt.y) {
                    Some(c) => c,
                    None => ctx.plain_cost,
                };
                let dist = range_to(pos, jump_pt);
                proof {
                    assert(1 <= dist <= 99);
                    assert(n_cost * (dist - 1) <= 255 * 98) by (nonlinear_arith)
                        requires
                            n_cost <= 255,
                            1 <= dist <= 99,
                    {
                    }
                    assert(old(self).nclosed@ <= 10000);
                }
                let total_g = neighbor_g + n_cost * (dist - 1) + jump_cost;
                proof {
                    lemma_jump_cost(*ctx, goals@, flee, pos, neighbor, jump_pt, ndx as int, ndy as int, n_cost);
                    assert(step_cost(*ctx, jump_pt) == jump_cost);
                }
                self.push_node(ctx, goals, flee, weight, start, pos, jump_pt, total_g);
            }
        }
    }

    /// Looks at the tile `(ox, oy)` away from the closed `pos` and, when it
    /// is on the map and passable, takes the jump-point step towards it
    /// (`use_jump`) or opens it directly.
    fn visit(
        &mut self,
        ctx: &SearchCtx,
        goals: &Vec<GoalSpec>,
        flee: bool,
        weight: u32,
        start: Position,
        pos: Position,
        cost: u32,
        g_cost: u32,
        ox: i32,
        oy: i32,
        use_jump: bool,
    )
        requires
            old(self).inv(*ctx, start),
            ctx.wf(),
            old(self).is_closed(pos),
            unit(ox as int),
            unit(oy as int),
            ox != 0 || oy != 0,
            g_cost <= STEP_BOUND * old(self).nclosed@,
            old(self).insert_counter < u64::MAX,
            g_cost >= old(self).gz(start, pos),
        ensures
            old(self).grows(*final(self)),
            old(self).links(*ctx, start) ==> final(self).links(*ctx, start),
            final(self).inv(*ctx, start),
            final(self).closed@ == old(self).closed@,
            final(self).nclosed@ == old(self).nclosed@,
            final(self).rank@ == old(self).rank@,
            final(self).cset@ == old(self).cset@,
            old(self).insert_counter <= final(self).insert_counter <= old(self).insert_counter + 1,
            final(self).track() == visit_effect(
                old(self).track(),
                old(self).closed@,
                *ctx,
                goals@,
                flee,
                weight,
                pos,
                cost,
                g_cost,
                ox as int,
                oy as int,
                use_jump,
            ),
    {
        let nx = pos.x as i32 + ox;
        let ny = pos.y as i32 + oy;
        if nx >= 0 && nx < 100 && ny >= 0 && ny < 100 {
            let neighbor = Position { x: nx as u8, y: ny as u8 };
            if let Some(n_cost) = ctx.look(neighbor.x, neighbor.y) {
                if use_jump {
                    self.jump_neighbor(ctx, goals, flee, weight, start, pos, cost, neighbor, g_cost, n_cost);
                } else {
                    proof {
                        lemma_step_edge(*ctx, pos, neighbor, ox as int, oy as int);
                        lemma_run_cost_one(*ctx, pos, neighbor, ox as int, oy as int);
                    }
                    self.push_node(ctx, goals, flee, weight, start, pos, neighbor, g_cost + n_cost);
                }
            }
        }
    }

    /// Expands the closed node `pos`: the jump-point search successors in
    /// the direction it was reached from, plus forced neighbours.
    #[verifier::rlimit(100)]
    #[verifier::spinoff_prover]
    fn expand(
        &mut self,
        ctx: &SearchCtx,
        goals: &Vec<GoalSpec>,
        flee: bool,
        weight: u32,
        start: Position,
        pos: Position,
        g_cost: u32,
    )
        requires
            old(self).inv(*ctx, start),
            ctx.wf(),
            old(self).is_closed(pos),
            g_cost <= STEP_BOUND * old(self).nclosed@,
            old(self).insert_counter < u64::MAX - 8,
            g_cost >= old(self).gz(start, pos),
        ensures
            old(self).grows(*final(self)),
            old(self).links(*ctx, start) ==> final(self).links(*ctx, start),
            final(self).inv(*ctx, start),
            final(self).closed@ == old(self).closed@,
            final(self).nclosed@ == old(self).nclosed@,
            final(self).rank@ == old(self).rank@,
            final(self).cset@ == old(self).cset@,
            old(self).insert_counter <= final(self).insert_counter <= old(self).insert_counter + 5,
            final(self).track() == expand_effect(
                old(self).track(),
                old(self).closed@,
                *ctx,
                goals@,
                flee,
                weight,
                pos,
                g_cost,
            ),
    {
        let i = index_of(pos);
        let (dx, dy): (i32, i32) = match self.parents[i] {
            Some(p) => (
                if pos.x > p.x { 1 } else if pos.x < p.x { -1 } else { 0 },
                if pos.y > p.y { 1 } else if pos.y < p.y { -1 } else { 0 },
            ),
            None => (0, 0),
        };
        let cost = match ctx.look(pos.x, pos.y) {
            Some(c) => c,
            None => ctx.plain_cost,
        };
        let border_dx: i32 = if pos.x == 1 { -1 } else if pos.x == 98 { 1 } else { 0 };
        let border_dy: i32 = if pos.y == 1 { -1 } else if pos.y == 98 { 1 } else { 0 };
        let ghost c0 = self.insert_counter;
        if dx != 0 {
            self.visit(ctx, goals, flee, weight, start, pos, cost, g_cost, dx, 0, border_dy == 0);
        }
        if dy != 0 {
            self.visit(ctx, goals, flee, weight, start, pos, cost, g_cost, 0, dy, border_dx == 0);
        }
        if dx != 0 {
            if dy != 0 {
                self.visit(ctx, goals, flee, weight, start, pos, cost, g_cost, dx, dy, true);
                if ctx.look_at(pos.x as i32 - dx, pos.y as i32) != Some(cost) {
                    self.visit(ctx, goals, flee, weight, start, pos, cost, g_cost, -dx, dy, true);
                }
                if ctx.look_at(pos.x as i32, pos.y as i32 - dy) != Some(cost) {
                    self.visit(ctx, goals, flee, weight, start, pos, cost, g_cost, dx, -dy, true);
                }
            } else {
                if border_dy == 1 || ctx.look_at(pos.x as i32, pos.y as i32 + 1) != Some(cost) {
                    self.visit(ctx, goals, flee, weight, start, pos, cost, g_cost, dx, 1, true);
                }
                if border_dy == -1 || ctx.look_at(pos.x as i32, pos.y as i32 - 1) != Some(cost) {
                    self.visit(ctx, goals, flee, weight, start, pos, cost, g_cost, dx, -1, true);
                }
            }
        } else if dy != 0 {
            if border_dx == 1 || ctx.look_at(pos.x as i32 + 1, pos.y as i32) != Some(cost) {
                self.visit(ctx, goals, flee, weight, start, pos, cost, g_cost, 1, dy, true);
            }
            if border_dx == -1 || ctx.look_at(pos.x as i32 - 1, pos.y as i32) != Some(cost) {
                self.visit(ctx, goals, flee, weight, start, pos, cost, g_cost, -1, dy, true);
            }
        }
    }

    /// Walks parent links back from the closed `goal_node` to `start`,
    /// filling in the tiles that each jump skipped, and returns the walk in
    /// start-to-goal order.
    fn reconstruct(&self, ctx: &SearchCtx, start: Position, goal_node: Position) -> (path: Vec<Position>)
        requires
            self.inv(*ctx, start),
            ctx.wf(),
            self.is_closed(goal_node),
        ensures
            valid_walk(*ctx, start, path@),
            goal_node != start ==> path@.len() > 0 && path@.last() == goal_node,
            goal_node == start ==> path@.len() == 0,
            self.links(*ctx, start) ==> path_cost(*ctx, path@) <= self.gz(start, goal_node),
    {
        let mut rev: Vec<Position> = Vec::new();
        let mut pos = goal_node;
        let ghost links = self.links(*ctx, start);
        proof {
            lemma_closed_passable(self, *ctx, start, goal_node);
        }
        while pos != start
            invariant
                self.inv(*ctx, start),
                ctx.wf(),
                pos == start || self.is_closed(pos),
                pos != start ==> ctx.passable(pos.x as int, pos.y as int),
                forall|k: int| 0 <= k < rev@.len() ==> #[trigger] ctx.passable(rev@[k].x as int, rev@[k].y as int),
                forall|k: int| 0 <= k < rev@.len() - 1 ==> adjacent(#[trigger] rev@[k], rev@[k + 1]),
                rev@.len() > 0 ==> adjacent(rev@.last(), pos),
                rev@.len() > 0 ==> rev@[0] == goal_node,
                rev@.len() == 0 ==> pos == goal_node,
                goal_node == start ==> rev@.len() == 0,
                links == self.links(*ctx, start),
                links ==> path_cost(*ctx, rev@) + self.gz(start, pos) <= self.gz(start, goal_node),
            decreases (if pos == start { 0 } else { self.rank@[pidx(pos)] + 1 }),
        {
            let i = index_of(pos);
            proof {
                lemma_pidx(pos);
                assert(self.parent_ok(*ctx, start, i as int));
            }
            let parent = self.parents[i].unwrap();
            let ghost prev = rev@;
            rev.push(pos);
            let ghost kk = cheb(parent, pos);
            let ghost rdx = sign(pos.x - parent.x);
            let ghost rdy = sign(pos.y - parent.y);
            proof {
                lemma_path_cost_push(*ctx, prev, pos);
                assert(run_tile(parent, rdx, rdy, kk) == pos);
                assert(run_sum(*ctx, parent, rdx, rdy, kk) == run_sum(*ctx, parent, rdx, rdy, kk - 1) + step_cost(
                    *ctx,
                    pos,
                ));
            }
            proof {
                assert forall|m: int| 0 <= m < rev@.len() - 1 implies adjacent(#[trigger] rev@[m], rev@[m + 1]) by {
                    if m < prev.len() - 1 {
                        assert(rev@[m] == prev[m] && rev@[m + 1] == prev[m + 1]);
                    }
                }
                assert forall|m: int| 0 <= m < rev@.len() implies #[trigger] ctx.passable(rev@[m].x as int, rev@[m].y as int) by {
                    if m < prev.len() {
                        assert(rev@[m] == prev[m]);
                    }
                }
                assert(cheb(parent, pos) >= 1);
            }
            if range_to(pos, parent) > 1 {
                fill_run(ctx, &mut rev, parent, pos, Ghost(goal_node), Ghost(path_cost(*ctx, prev)));
            }
            proof {
                assert(path_cost(*ctx, rev@) == path_cost(*ctx, prev) + run_cost(*ctx, parent, pos));
                if links {
                    reveal(PfState::links);
                    assert(pos_of(i as int) == pos);
                    assert(self.parents@[i as int] == Some(parent));
                }
                assert(self.parent_ok(*ctx, start, i as int));
                if parent != start {
                    lemma_closed_passable(self, *ctx, start, parent);
                    lemma_pidx(parent);
                }
            }
            pos = parent;
        }
        proof {
            if rev@.len() > 0 {
                assert(adjacent(rev@.last(), start));
            }
        }
        reverse_walk(ctx, start, &rev)
    }
}

/// Pushes the tiles strictly between `pos` and `parent` onto `rev`, from
/// `pos` towards `parent`.
fn fill_run(
    ctx: &SearchCtx,
    rev: &mut Vec<Position>,
    parent: Position,
    pos: Position,
    goal_node: Ghost<Position>,
    base: Ghost<int>,
)
    requires
        path_cost(*ctx, old(rev)@) == base@ + run_sum(
            *ctx,
            parent,
            sign(pos.x - parent.x),
            sign(pos.y - parent.y),
            cheb(parent, pos),
        ) - run_sum(*ctx, parent, sign(pos.x - parent.x), sign(pos.y - parent.y), cheb(parent, pos) - 1),
        ctx.wf(),
        run_edge(*ctx, parent, pos),
        cheb(parent, pos) > 1,
        old(rev)@.len() > 0,
        old(rev)@.last() == pos,
        old(rev)@[0] == goal_node@,
        forall|m: int| 0 <= m < old(rev)@.len() ==> #[trigger] ctx.passable(old(rev)@[m].x as int, old(rev)@[m].y as int),
        forall|m: int| 0 <= m < old(rev)@.len() - 1 ==> adjacent(#[trigger] old(rev)@[m], old(rev)@[m + 1]),
    ensures
        final(rev)@.len() > 0,
        adjacent(final(rev)@.last(), parent),
        final(rev)@[0] == goal_node@,
        forall|m: int| 0 <= m < final(rev)@.len() ==> #[trigger] ctx.passable(final(rev)@[m].x as int, final(rev)@[m].y as int),
        forall|m: int| 0 <= m < final(rev)@.len() - 1 ==> adjacent(#[trigger] final(rev)@[m], final(rev)@[m + 1]),
        path_cost(*ctx, final(rev)@) == base@ + run_cost(*ctx, parent, pos),
{
    let ghost k = cheb(parent, pos);
    let ghost dxp = sign(pos.x - parent.x);
    let ghost dyp = sign(pos.y - parent.y);
    let ddx: i32 = if parent.x > pos.x { 1 } else if parent.x < pos.x { -1 } else { 0 };
    let ddy: i32 = if parent.y > pos.y { 1 } else if parent.y < pos.y { -1 } else { 0 };
    let mut cur = pos;
    let ghost mut j: int = 0;
    while range_to(cur, parent) > 1
        invariant
            ctx.wf(),
            run_edge(*ctx, parent, pos),
            k == cheb(parent, pos),
            dxp == sign(pos.x - parent.x),
            dyp == sign(pos.y - parent.y),
            ddx == -dxp,
            ddy == -dyp,
            0 <= j < k,
            cur.x == ray(parent.x as int, dxp, k - j),
            cur.y == ray(parent.y as int, dyp, k - j),
            cheb(cur, parent) == k - j,
            rev@.len() > 0,
            rev@.last() == cur,
            rev@[0] == goal_node@,
            forall|m: int| 0 <= m < rev@.len() ==> #[trigger] ctx.passable(rev@[m].x as int, rev@[m].y as int),
            forall|m: int| 0 <= m < rev@.len() - 1 ==> adjacent(#[trigger] rev@[m], rev@[m + 1]),
            path_cost(*ctx, rev@) == base@ + run_sum(*ctx, parent, dxp, dyp, k) - run_sum(*ctx, parent, dxp, dyp, k - j - 1),
        decreases k - j,
    {
        proof {
            assert(run_passable(*ctx, parent.x as int, parent.y as int, dxp, dyp, 1, k));
            assert(ctx.passable(ray(parent.x as int, dxp, k - j - 1), ray(parent.y as int, dyp, k - j - 1)));
        }
        let ghost prev = rev@;
        cur.x = (cur.x as i32 + ddx) as u8;
        cur.y = (cur.y as i32 + ddy) as u8;
        proof {
            j = j + 1;
        }
        rev.push(cur);
        proof {
            lemma_path_cost_push(*ctx, prev, cur);
            assert(cur == run_tile(parent, dxp, dyp, k - j));
            assert(run_sum(*ctx, parent, dxp, dyp, k - j) == run_sum(*ctx, parent, dxp, dyp, k - j - 1) + step_cost(
                *ctx,
                cur,
            ));
            assert forall|m: int| 0 <= m < rev@.len() - 1 implies adjacent(#[trigger] rev@[m], rev@[m + 1]) by {
                if m < prev.len() - 1 {
                    assert(rev@[m] == prev[m] && rev@[m + 1] == prev[m + 1]);
                }
            }
            assert forall|m: int| 0 <= m < rev@.len() implies #[trigger] ctx.passable(rev@[m].x as int, rev@[m].y as int) by {
                if m < prev.len() {
                    assert(rev@[m] == prev[m]);
                }
            }
        }
    }
}

/// The walk built backwards in `rev`, put in start-to-goal order.
pub(crate) fn reverse_walk(ctx: &SearchCtx, start: Position, rev: &Vec<Position>) -> (path: Vec<Position>)
    requires
        forall|m: int| 0 <= m < rev@.len() ==> #[trigger] ctx.passable(rev@[m].x as int, rev@[m].y as int),
        forall|m: int| 0 <= m < rev@.len() - 1 ==> adjacent(#[trigger] rev@[m], rev@[m + 1]),
        rev@.len() > 0 ==> adjacent(rev@.last(), start),
    ensures
        valid_walk(*ctx, start, path@),
        path@.len() == rev@.len(),
        path@.len() > 0 ==> path@.last() == rev@[0],
        path_cost(*ctx, path@) == path_cost(*ctx, rev@),
{
    let mut path: Vec<Position> = Vec::new();
    let mut k: usize = rev.len();
    while k > 0
        invariant
            k <= rev@.len(),
            path@.len() == rev@.len() - k,
            forall|m: int| 0 <= m < path@.len() ==> #[trigger] path@[m] == rev@[rev@.len() - 1 - m],
            path_cost(*ctx, path@) == path_cost(*ctx, rev@.subrange(k as int, rev@.len() as int)),
        decreases k,
    {
        k -= 1;
        let ghost before = path@;
        path.push(rev[k]);
        proof {
            lemma_path_cost_step(*ctx, rev@, k as int, before);
        }
    }
    proof {
        assert(rev@.subrange(0, rev@.len() as int) =~= rev@);
        assert forall|m: int| 0 <= m < path@.len() - 1 implies adjacent(#[trigger] path@[m], path@[m + 1]) by {
            assert(adjacent(rev@[rev@.len() - 2 - m], rev@[rev@.len() - 1 - m]));
            assert(path@[m] == rev@[rev@.len() - 1 - m]);
            assert(path@[m + 1] == rev@[rev@.len() - 2 - m]);
        }
        assert forall|m: int| 0 <= m < path@.len() implies #[trigger] ctx.passable(
            path@[m].x as int,
            path@[m].y as int,
        ) by {
            assert(path@[m] == rev@[rev@.len() - 1 - m]);
        }
        if path@.len() > 0 {
            assert(path@[0] == rev@.last());
            assert(path@.last() == rev@[0]);
        }
    }
    path
}

/// The parent links hold of any state with the same best costs and parents.
proof fn lemma_links_same(a: &PfState, b: &PfState, ctx: SearchCtx, start: Position)
    requires
        a.links(ctx, start),
        b.g_score@ == a.g_score@,
        b.parents@ == a.parents@,
    ensures
        b.links(ctx, start),
{
    reveal(PfState::links);
    assert forall|i: int| 0 <= i < 10000 implies (#[trigger] b.parents@[i] matches Some(p) ==> b.g_score@[i] >= b.gz(
        start,
        p,
    ) + run_cost(ctx, p, pos_of(i))) by {
        assert(a.parents@[i] == b.parents@[i]);
        if let Some(p) = b.parents@[i] {
            assert(a.gz(start, p) == b.gz(start, p));
        }
    }
}

/// Taking entries off the open list keeps the search invariant.
proof fn lemma_heap_shrunk(a: &PfState, b: &PfState, ctx: SearchCtx, start: Position)
    requires
        a.inv(ctx, start),
        b.g_score == a.g_score,
        b.parents == a.parents,
        b.closed == a.closed,
        b.rank == a.rank,
        b.nclosed == a.nclosed,
        b.cset == a.cset,
        forall|k: int| 0 <= k < b.heap@.len() ==> a.heap@.contains(#[trigger] b.heap@[k]),
    ensures
        b.inv(ctx, start),
{
    assert forall|j: int| 0 <= j < b.heap@.len() implies in_bounds(#[trigger] b.heap@[j].pos)
        && b.parents@[pidx(b.heap@[j].pos)] is Some by {
        let e = b.heap@[j];
        assert(a.heap@.contains(e));
        let k = choose|k: int| 0 <= k < a.heap@.len() && a.heap@[k] == e;
        assert(in_bounds(a.heap@[k].pos));
    }
    assert forall|i: int| 0 <= i < 10000 implies #[trigger] b.parent_ok(ctx, start, i) by {
        assert(a.parent_ok(ctx, start, i));
    }
}

/// A closed node is passable: it is the end of its parent's run.
proof fn lemma_closed_passable(st: &PfState, ctx: SearchCtx, start: Position, p: Position)
    requires
        st.inv(ctx, start),
        st.is_closed(p),
    ensures
        ctx.passable(p.x as int, p.y as int),
{
    lemma_pidx(p);
    let i = pidx(p);
    assert(st.parent_ok(ctx, start, i));
    let par = st.parents@[i].unwrap();
    let k = cheb(par, p);
    assert(run_passable(ctx, par.x as int, par.y as int, sign(p.x - par.x), sign(p.y - par.y), 1, k));
    assert(ctx.passable(
        ray(par.x as int, sign(p.x - par.x), k),
        ray(par.y as int, sign(p.y - par.y), k),
    ));
}

impl PfState {
    /// Opens the tile `(ox, oy)` away from `start` when it is on the map
    /// and passable, at the cost of entering it.
    fn open_from_start(
        &mut self,
        ctx: &SearchCtx,
        goals: &Vec<GoalSpec>,
        flee: bool,
        weight: u32,
        start: Position,
        ox: i32,
        oy: i32,
    )
        requires
            old(self).inv(*ctx, start),
            ctx.wf(),
            unit(ox as int),
            unit(oy as int),
            ox != 0 || oy != 0,
            old(self).insert_counter < 8,
        ensures
            old(self).grows(*final(self)),
            old(self).links(*ctx, start) ==> final(self).links(*ctx, start),
            ({
                let nx = start.x + ox;
                let ny = start.y + oy;
                0 <= nx < 100 && 0 <= ny < 100 && ctx.spec_look(nx, ny) is Some && !old(self).closed@[idx100(nx, ny)]
                    ==> final(self).g_score@[idx100(nx, ny)] != u32::MAX
            }),
            final(self).inv(*ctx, start),
            final(self).nclosed@ == old(self).nclosed@,
            final(self).closed@ == old(self).closed@,
            old(self).insert_counter <= final(self).insert_counter <= old(self).insert_counter + 1,
            final(self).track() == ({
                let nx = start.x + ox;
                let ny = start.y + oy;
                if 0 <= nx < 100 && 0 <= ny < 100 {
                    match ctx.spec_look(nx, ny) {
                        Some(n_cost) => push_effect(
                            old(self).track(),
                            old(self).closed@,
                            goals@,
                            flee,
                            weight,
                            start,
                            Position { x: nx as u8, y: ny as u8 },
                            n_cost,
                        ),
                        None => old(self).track(),
                    }
                } else {
                    old(self).track()
                }
            }),
    {
        let nx = start.x as i32 + ox;
        let ny = start.y as i32 + oy;
        if nx >= 0 && nx < 100 && ny >= 0 && ny < 100 {
            let n_pos = Position { x: nx as u8, y: ny as u8 };
            if let Some(n_cost) = ctx.look(n_pos.x, n_pos.y) {
                proof {
                    lemma_step_edge(*ctx, start, n_pos, ox as int, oy as int);
                    lemma_run_cost_one(*ctx, start, n_pos, ox as int, oy as int);
                }
                self.push_node(ctx, goals, flee, weight, start, start, n_pos, n_cost);
            }
        }
    }
}

/// A fresh search state with every passable neighbour of `start` opened,
/// clockwise from the top, at the cost of entering it.
#[verifier::rlimit(60)]
fn start_search(ctx: &SearchCtx, goals: &Vec<GoalSpec>, flee: bool, weight: u32, start: Position) -> (st: PfState)
    requires
        ctx.wf(),
    ensures
        st.inv(*ctx, start),
        st.nclosed@ == 0,
        st.insert_counter <= 8,
        st.covered(),
        st.links(*ctx, start),
        forall|n: Position|
            adjacent(start, n) && #[trigger] ctx.passable(n.x as int, n.y as int) ==> in_bounds(n)
                && st.g_score@[pidx(n)] != u32::MAX,
{
    let mut st = PfState::new();
    proof {
        assert(st.inv(*ctx, start));
        assert(st.links(*ctx, start));
    }
    st.open_from_start(ctx, goals, flee, weight, start, 0, -1);
    let ghost s1 = st;
    st.open_from_start(ctx, goals, flee, weight, start, 1, -1);
    let ghost s2 = st;
    st.open_from_start(ctx, goals, flee, weight, start, 1, 0);
    let ghost s3 = st;
    st.open_from_start(ctx, goals, flee, weight, start, 1, 1);
    let ghost s4 = st;
    st.open_from_start(ctx, goals, flee, weight, start, 0, 1);
    let ghost s5 = st;
    st.open_from_start(ctx, goals, flee, weight, start, -1, 1);
    let ghost s6 = st;
    st.open_from_start(ctx, goals, flee, weight, start, -1, 0);
    let ghost s7 = st;
    st.open_from_start(ctx, goals, flee, weight, start, -1, -1);
    proof {
        assert forall|n: Position|
            adjacent(start, n) && #[trigger] ctx.passable(n.x as int, n.y as int) implies in_bounds(n)
            && st.g_score@[pidx(n)] != u32::MAX by {
            let ox = n.x - start.x;
            let oy = n.y - start.y;
            let i = idx100(n.x as int, n.y as int);
            assert(0 <= i < 10000);
            assert(!s1.closed@[i]);
            if ox == 0 && oy == -1 {
                assert(s1.g_score@[i] != u32::MAX);
            } else if ox == 1 && oy == -1 {
                assert(s2.g_score@[i] != u32::MAX);
            } else if ox == 1 && oy == 0 {
                assert(s3.g_score@[i] != u32::MAX);
            } else if ox == 1 && oy == 1 {
                assert(s4.g_score@[i] != u32::MAX);
            } else if ox == 0 && oy == 1 {
                assert(s5.g_score@[i] != u32::MAX);
            } else if ox == -1 && oy == 1 {
                assert(s6.g_score@[i] != u32::MAX);
            } else if ox == -1 && oy == 0 {
                assert(s7.g_score@[i] != u32::MAX);
            } else {
                assert(st.g_score@[i] != u32::MAX);
            }
        }
    }
    st
}

/// The jump-point search from `start` towards (or, when `flee`, away
/// from) `goals` over the tiles `ctx` describes; `weight` scales the
/// heuristic in thousandths and `max_ops` bounds the expansions.
///
/// The result's path is a walk of passable tiles from `start`; when the
/// result is complete the walk ends where the goal is reached, and when it
/// is incomplete it ends at the expanded tile nearest the goal (empty
/// when nothing was expanded).
#[verifier::rlimit(100)]
pub fn search(
    ctx: &SearchCtx,
    goals: &Vec<GoalSpec>,
    start: Position,
    weight: u32,
    max_ops: u32,
    flee: bool,
) -> (r: SearchResults)
    requires
        ctx.wf(),
    ensures
        valid_walk(*ctx, start, r.path@),
        !r.incomplete ==> goal_reached(goals@, flee, walk_end(start, r.path@)),
        pf_heuristic(goals@, flee, start) == 0 ==> r.path@.len() == 0 && r.ops == 0 && r.cost == 0
            && !r.incomplete,
        goal_next_to(*ctx, goals@, flee, start) ==> !r.incomplete || r.ops > max_ops,
        r.cost >= path_cost(*ctx, r.path@),
        r.ops <= max_ops && (exists|n: Position|
            adjacent(start, n) && #[trigger] ctx.passable(n.x as int, n.y as int) && pf_heuristic(goals@, flee, n)
                < pf_heuristic(goals@, flee, start)) ==> r.path@.len() > 0,
        r.ops <= 10000,
        r.ops <= max_ops as int + 1,
{
    if heuristic(goals, flee, start) == 0 {
        proof {
            lemma_heuristic_zero(goals@, flee, start);
            assert forall|n: Position| #[trigger] ctx.passable(n.x as int, n.y as int) implies pf_heuristic(goals@, flee, n)
                >= 0 by {
                lemma_heuristic_zero(goals@, flee, n);
            }
        }
        return empty_results(0, false);
    }
    let mut st = start_search(ctx, goals, flee, weight, start);
    let ghost near: Option<Position> = if goal_next_to(*ctx, goals@, flee, start) {
        Some(choose|n: Position| adjacent(start, n) && #[trigger] ctx.passable(n.x as int, n.y as int) && goal_reached(goals@, flee, n))
    } else {
        None
    };
    let ghost lower: Option<Position> = if exists|n: Position|
        adjacent(start, n) && #[trigger] ctx.passable(n.x as int, n.y as int) && pf_heuristic(goals@, flee, n)
            < pf_heuristic(goals@, flee, start) {
        Some(
            choose|n: Position|
                adjacent(start, n) && #[trigger] ctx.passable(n.x as int, n.y as int) && pf_heuristic(goals@, flee, n)
                    < pf_heuristic(goals@, flee, start),
        )
    } else {
        None
    };
    proof {
        if let Some(n) = near {
            assert(ctx.passable(n.x as int, n.y as int));
            lemma_heuristic_zero(goals@, flee, n);
        }
        if let Some(n) = lower {
            assert(ctx.passable(n.x as int, n.y as int));
        }
    }
    let mut ops: u32 = 0;
    let mut min_node: Option<Position> = None;
    let mut min_node_h: u32 = u32::MAX;
    let mut min_node_g: u32 = 0;
    while st.heap.len() > 0
        invariant_except_break
            ops <= max_ops,
            min_node_h != 0,
        invariant
            st.inv(*ctx, start),
            ctx.wf(),
            ops <= st.nclosed@,
            ops <= max_ops as int + 1,
            st.insert_counter <= 8 * (st.nclosed@ + 1),
            min_node matches Some(m) ==> st.is_closed(m) && min_node_h == pf_heuristic(goals@, flee, m),
            min_node is None ==> min_node_h == u32::MAX,
            st.links(*ctx, start),
            min_node matches Some(m) ==> min_node_g >= st.gz(start, m),
            st.covered(),
            near matches Some(n) ==> in_bounds(n) && st.g_score@[pidx(n)] != u32::MAX && pf_heuristic(goals@, flee, n) == 0,
            lower matches Some(n) ==> in_bounds(n) && st.g_score@[pidx(n)] != u32::MAX && pf_heuristic(goals@, flee, n)
                < pf_heuristic(goals@, flee, start),
            forall|p: Position|
                #[trigger] st.is_closed(p) ==> min_node is Some && min_node_h <= pf_heuristic(goals@, flee, p),
            pf_heuristic(goals@, flee, start) != 0,
            min_node_h != 0 ==> forall|p: Position| #[trigger] st.is_closed(p) ==> pf_heuristic(goals@, flee, p) != 0,
        ensures
            st.inv(*ctx, start),
            ops <= st.nclosed@,
            ops <= max_ops as int + 1,
            min_node matches Some(m) ==> st.is_closed(m) && min_node_h == pf_heuristic(goals@, flee, m),
            min_node is None ==> min_node_h == u32::MAX,
            st.links(*ctx, start),
            min_node matches Some(m) ==> min_node_g >= st.gz(start, m),
            near is Some ==> min_node_h == 0 || ops > max_ops || st.heap@.len() == 0,
            lower is Some ==> (min_node is Some && min_node_h < pf_heuristic(goals@, flee, start)) || ops > max_ops
                || st.heap@.len() == 0,
            forall|p: Position|
                #[trigger] st.is_closed(p) ==> min_node is Some && min_node_h <= pf_heuristic(goals@, flee, p),
            st.covered(),
            lower matches Some(n) ==> in_bounds(n) && st.g_score@[pidx(n)] != u32::MAX && pf_heuristic(goals@, flee, n)
                < pf_heuristic(goals@, flee, start),
        decreases 10000 - st.nclosed@, st.heap@.len(),
    {
        let ghost prev_st = st;
        let entry = pop_best(&mut st.heap);
        proof {
            lemma_heap_shrunk(&prev_st, &st, *ctx, start);
            lemma_links_same(&prev_st, &st, *ctx, start);
            let k = choose|k: int| 0 <= k < prev_st.heap@.len() && prev_st.heap@[k] == entry;
            assert(in_bounds(prev_st.heap@[k].pos));
        }
        let pos = entry.pos;
        let i = index_of(pos);
        proof {
            lemma_pidx(pos);
            let b = choose|b: int|
                0 <= b < prev_st.heap@.len() && prev_st.heap@[b] == entry && st.heap@ == prev_st.heap@.remove(b);
            assert forall|k: int|
                0 <= k < 10000 && k != i && #[trigger] st.g_score@[k] != u32::MAX && !st.closed@[k] implies in_heap(
                st.heap@,
                k,
            ) by {
                assert(in_heap(prev_st.heap@, k));
                let j = choose|j: int| 0 <= j < prev_st.heap@.len() && pidx(#[trigger] prev_st.heap@[j].pos) == k;
                if j < b {
                    assert(st.heap@[j] == prev_st.heap@[j]);
                } else {
                    assert(j != b);
                    assert(st.heap@[j - 1] == prev_st.heap@[j]);
                }
            }
            assert forall|p: Position| #[trigger] st.is_closed(p) implies prev_st.is_closed(p) by {}
        }
        if st.closed[i] {
            continue;
        }
        let ghost before_close = st;
        st.close(ctx, start, i);
        proof {
            lemma_links_same(&before_close, &st, *ctx, start);
            assert forall|k: int|
                0 <= k < 10000 && #[trigger] st.g_score@[k] != u32::MAX && !st.closed@[k] implies in_heap(
                st.heap@,
                k,
            ) by {
                assert(before_close.g_score@[k] != u32::MAX);
            }
            assert forall|p: Position| #[trigger] st.is_closed(p) && p != pos implies before_close.is_closed(p) by {
                lemma_pidx(p);
            }
        }
        let g_cost = st.g_score[i];
        let h_cost = heuristic(goals, flee, pos);
        proof {
            lemma_heuristic_zero(goals@, flee, start);
            lemma_heuristic_zero(goals@, flee, pos);
        }
        if h_cost == 0 {
            min_node = Some(pos);
            min_node_h = 0;
            min_node_g = g_cost;
            break;
        } else if h_cost < min_node_h {
            min_node = Some(pos);
            min_node_h = h_cost;
            min_node_g = g_cost;
        }
        proof {
            assert forall|p: Position|
                #[trigger] st.is_closed(p) implies min_node is Some && min_node_h <= pf_heuristic(goals@, flee, p) by {
                if p != pos {
                    assert(before_close.is_closed(p));
                    assert(prev_st.is_closed(p));
                }
            }
            assert forall|p: Position| #[trigger] st.is_closed(p) implies pf_heuristic(goals@, flee, p) != 0 by {
                if p != pos {
                    assert(before_close.is_closed(p));
                    assert(prev_st.is_closed(p));
                }
            }
        }
        ops += 1;
        if ops > max_ops {
            break;
        }
        let ghost before_expand = st;
        st.expand(ctx, goals, flee, weight, start, pos, g_cost);
        proof {
            assert forall|p: Position| #[trigger] st.is_closed(p) implies before_expand.is_closed(p) by {}
            if let Some(m) = min_node {
                if m != start {
                    lemma_pidx(m);
                    assert(st.g_score@[pidx(m)] <= before_expand.g_score@[pidx(m)]);
                }
            }
        }
    }
    proof {
        if let Some(n) = lower {
            if st.heap@.len() == 0 && ops <= max_ops {
                assert(!in_heap(st.heap@, pidx(n)));
                assert(st.closed@[pidx(n)]);
                assert(st.is_closed(n));
            }
            if ops <= max_ops {
                assert(min_node is Some && min_node_h < pf_heuristic(goals@, flee, start));
            }
        }
        if let Some(n) = near {
            if st.heap@.len() == 0 && min_node_h != 0 && ops <= max_ops {
                assert(!in_heap(st.heap@, pidx(n)));
                assert(st.closed@[pidx(n)]);
                assert(st.is_closed(n));
            }
        }
    }
    let incomplete = min_node_h != 0;
    match min_node {
        None => empty_results(ops, true),
        Some(goal_node) => {
            let path = st.reconstruct(ctx, start, goal_node);
            proof {
                lemma_heuristic_zero(goals@, flee, goal_node);
                lemma_heuristic_zero(goals@, flee, start);
            }
            SearchResults { path, ops, cost: min_node_g, incomplete }
        },
    }
}

} // verus!
