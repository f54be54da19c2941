use vstd::prelude::*;
use crate::constants::{Direction, Terrain};

verus! {

/// Side length of the arena map.
pub const MAP_SIZE: u8 = 100;

/// A tile coordinate.
#[derive(Debug, Clone, Copy, PartialEq, Eq, Structural, Hash)]
pub struct Position {
    pub x: u8,
    pub y: u8,
}

/// Whether a coordinate pair lies on the 100 x 100 map.
pub open spec fn on_map(x: int, y: int) -> bool {
    0 <= x < 100 && 0 <= y < 100
}

/// Whether a position lies on the 100 x 100 map.
pub open spec fn in_bounds(p: Position) -> bool {
    on_map(p.x as int, p.y as int)
}

/// Absolute difference of two integers.
pub open spec fn abs_diff(a: int, b: int) -> int {
    if a >= b {
        a - b
    } else {
        b - a
    }
}

/// Chebyshev (king-move) distance between two positions.
pub open spec fn cheb(a: Position, b: Position) -> int {
    let dx = abs_diff(a.x as int, b.x as int);
    let dy = abs_diff(a.y as int, b.y as int);
    if dx >= dy {
        dx
    } else {
        dy
    }
}

/// Two positions are one king move apart.
pub open spec fn adjacent(a: Position, b: Position) -> bool {
    cheb(a, b) == 1
}

/// Slot of an on-map coordinate pair in a 100 x 100 table, column-major.
pub open spec fn idx100(x: int, y: int) -> int {
    x * 100 + y
}

/// The position held by slot `i` of a 100 x 100 table.
pub open spec fn pos_of(i: int) -> Position {
    Position { x: (i / 100) as u8, y: (i % 100) as u8 }
}

/// Slot of a position in a 100 x 100 table.
pub open spec fn pidx(p: Position) -> int {
    idx100(p.x as int, p.y as int)
}

/// Slot arithmetic: on-map positions have distinct slots in `0..10000`,
/// and the slot gives the position back.
pub proof fn lemma_pidx(p: Position)
    requires
        in_bounds(p),
    ensures
        0 <= pidx(p) < 10000,
        pos_of(pidx(p)) == p,
{
}

/// Slot arithmetic: every slot in `0..10000` holds an on-map position.
pub proof fn lemma_pos_of(i: int)
    requires
        0 <= i < 10000,
    ensures
        in_bounds(pos_of(i)),
        pidx(pos_of(i)) == i,
{
}

/// Exec form of `pidx`.
pub fn index_of(p: Position) -> (i: usize)
    requires
        in_bounds(p),
    ensures
        i == pidx(p),
        i < 10000,
{
    (p.x as usize) * 100 + (p.y as usize)
}

/// Saturating decrement of a coordinate.
pub open spec fn dec_sat(v: u8) -> u8 {
    if v == 0 {
        0
    } else {
        (v - 1) as u8
    }
}

/// Saturating increment of a coordinate.
pub open spec fn inc_sat(v: u8) -> u8 {
    if v == 255 {
        255
    } else {
        (v + 1) as u8
    }
}

/// The position one step from `p` in direction `d`, each coordinate
/// saturating at 0 and 255.
pub open spec fn spec_step(p: Position, d: Direction) -> Position {
    let x = if d.spec_dx() == 1 {
        inc_sat(p.x)
    } else if d.spec_dx() == -1 {
        dec_sat(p.x)
    } else {
        p.x
    };
    let y = if d.spec_dy() == 1 {
        inc_sat(p.y)
    } else if d.spec_dy() == -1 {
        dec_sat(p.y)
    } else {
        p.y
    };
    Position { x, y }
}

impl Position {
    /// The position itself.
    pub fn pos(&self) -> (p: Position)
        ensures
            p == *self,
    {
        *self
    }

    /// The position one step away in direction `dir`; each coordinate
    /// saturates at 0 and 255.
    pub fn add(self, dir: Direction) -> (p: Position)
        ensures
            p == spec_step(self, dir),
    {
        let mut p = self;
        match dir {
            Direction::Top => {
                p.y = p.y.saturating_sub(1);
            },
            Direction::TopRight => {
                p.x = p.x.saturating_add(1);
                p.y = p.y.saturating_sub(1);
            },
            Direction::Right => {
                p.x = p.x.saturating_add(1);
            },
            Direction::BottomRight => {
                p.x = p.x.saturating_add(1);
                p.y = p.y.saturating_add(1);
            },
            Direction::Bottom => {
                p.y = p.y.saturating_add(1);
            },
            Direction::BottomLeft => {
                p.x = p.x.saturating_sub(1);
                p.y = p.y.saturating_add(1);
            },
            Direction::Left => {
                p.x = p.x.saturating_sub(1);
            },
            Direction::TopLeft => {
                p.x = p.x.saturating_sub(1);
                p.y = p.y.saturating_sub(1);
            },
        }
        p
    }

    /// Chebyshev distance to another position.
    pub fn range_to(&self, other: &Position) -> (r: u8)
        ensures
            r == cheb(*self, *other),
    {
        let dx = if self.x >= other.x {
            self.x - other.x
        } else {
            other.x - self.x
        };
        let dy = if self.y >= other.y {
            self.y - other.y
        } else {
            other.y - self.y
        };
        if dx >= dy {
            dx
        } else {
            dy
        }
    }
}

/// Law: a step inside the map's interior moves exactly one king move.
pub proof fn law_step_is_adjacent(p: Position, d: Direction)
    requires
        1 <= p.x <= 254,
        1 <= p.y <= 254,
    ensures
        adjacent(p, spec_step(p, d)),
        spec_step(p, d).x == p.x + d.spec_dx(),
        spec_step(p, d).y == p.y + d.spec_dy(),
{
}

/// Law: stepping one way and then the opposite way returns to the start,
/// away from the coordinate limits.
pub proof fn law_step_back(p: Position, d: Direction)
    requires
        1 <= p.x <= 254,
        1 <= p.y <= 254,
    ensures
        spec_step(spec_step(p, d), d.spec_opposite()) == p,
{
}

/// Per-tile movement costs; 0 means "use the terrain", 255 means impassable.
/// Tile `(x, y)` is stored at `bits[x * 100 + y]`.
#[derive(Debug, Clone)]
pub struct CostMatrix {
    pub bits: Vec<u8>,
}

impl CostMatrix {
    /// A matrix whose lookups never read past its storage.
    pub open spec fn wf(&self) -> bool {
        self.bits@.len() == 0 || self.bits@.len() >= 10000
    }

    /// The cost that `get` reports for `(x, y)`.
    pub open spec fn spec_get(&self, x: int, y: int) -> u8 {
        if on_map(x, y) && self.bits@.len() > 0 {
            self.bits@[idx100(x, y)]
        } else {
            0
        }
    }

    /// A matrix of 10000 zero costs.
    pub fn new() -> (cm: Self)
        ensures
            cm.wf(),
            cm.bits@.len() == 10000,
            forall|i: int| 0 <= i < 10000 ==> cm.bits@[i] == 0,
            forall|x: int, y: int| cm.spec_get(x, y) == 0,
    {
        CostMatrix { bits: vec![0u8; 10000] }
    }

    /// Sets the cost of tile `(x, y)`; off-map coordinates are ignored.
    pub fn set(&mut self, x: u8, y: u8, cost: u8)
        requires
            on_map(x as int, y as int) ==> idx100(x as int, y as int) < old(self).bits@.len(),
        ensures
            on_map(x as int, y as int) ==> final(self).bits@ == old(self).bits@.update(
                idx100(x as int, y as int),
                cost,
            ),
            !on_map(x as int, y as int) ==> final(self).bits@ == old(self).bits@,
    {
        if (x as usize) < 100 && (y as usize) < 100 {
            self.bits.set((x as usize) * 100 + (y as usize), cost);
        }
    }

    /// The cost of tile `(x, y)`, or 0 off the map or for empty storage.
    pub fn get(&self, x: u8, y: u8) -> (c: u8)
        requires
            on_map(x as int, y as int) && self.bits@.len() > 0 ==> idx100(x as int, y as int)
                < self.bits@.len(),
        ensures
            c == self.spec_get(x as int, y as int),
    {
        if (x as usize) < 100 && (y as usize) < 100 && self.bits.len() > 0 {
            self.bits[(x as usize) * 100 + (y as usize)]
        } else {
            0
        }
    }
}

/// Law: reading a tile after setting it gives the cost set, and other
/// tiles keep their costs.
pub proof fn law_cost_matrix_get_after_set(
    before: CostMatrix,
    after: CostMatrix,
    x: u8,
    y: u8,
    cost: u8,
    qx: int,
    qy: int,
)
    requires
        before.bits@.len() >= 10000,
        on_map(x as int, y as int),
        after.bits@ == before.bits@.update(idx100(x as int, y as int), cost),
    ensures
        after.spec_get(x as int, y as int) == cost,
        (qx != x || qy != y) ==> after.spec_get(qx, qy) == before.spec_get(qx, qy),
{
}

/// Terrain of every tile addressable by a pair of `u8` coordinates.
pub struct TerrainMap {
    tiles: Vec<Terrain>,
}

impl TerrainMap {
    /// One terrain entry per `u8` coordinate pair.
    pub closed spec fn wf(&self) -> bool {
        self.tiles@.len() == 65536
    }

    /// The terrain at `(x, y)`.
    pub closed spec fn at(&self, x: int, y: int) -> Terrain {
        self.tiles@[x * 256 + y]
    }

    /// A map of plain terrain everywhere.
    pub fn plain() -> (t: Self)
        ensures
            t.wf(),
            forall|x: int, y: int| 0 <= x < 256 && 0 <= y < 256 ==> t.at(x, y) == Terrain::Plain,
    {
        let t = TerrainMap { tiles: vec![Terrain::Plain; 65536] };
        assert forall|x: int, y: int| 0 <= x < 256 && 0 <= y < 256 implies t.at(x, y) == Terrain::Plain by {
            assert(0 <= x * 256 + y < 65536);
        }
        t
    }

    /// The terrain at `(x, y)`.
    pub fn get(&self, x: u8, y: u8) -> (t: Terrain)
        requires
            self.wf(),
        ensures
            t == self.at(x as int, y as int),
    {
        self.tiles[(x as usize) * 256 + (y as usize)]
    }

    /// Sets the terrain at `(x, y)`.
    pub fn set(&mut self, x: u8, y: u8, t: Terrain)
        requires
            old(self).wf(),
        ensures
            final(self).wf(),
            final(self).at(x as int, y as int) == t,
            forall|a: int, b: int|
                0 <= a < 256 && 0 <= b < 256 && (a != x || b != y) ==> final(self).at(a, b) == old(self).at(a, b),
    {
        self.tiles.set((x as usize) * 256 + (y as usize), t);
    }
}

/// A search goal: reach (or, when fleeing, leave) the square of radius
/// `range` around `pos`.
#[derive(Debug, Clone, Copy, PartialEq, Eq, Structural)]
pub struct GoalSpec {
    pub pos: Position,
    pub range: u8,
}

/// A goal argument as the host may pass it: one goal, one bare position,
/// a list of either, or something else.
#[derive(Debug, Clone)]
pub enum GoalInput {
    Spec(GoalSpec),
    Pos(Position),
    Specs(Vec<GoalSpec>),
    Positions(Vec<Position>),
    Unrecognized,
}

/// The goals a goal argument stands for: bare positions get range 0.
pub open spec fn spec_goals(input: GoalInput) -> Seq<GoalSpec> {
    match input {
        GoalInput::Spec(g) => seq![g],
        GoalInput::Pos(p) => seq![GoalSpec { pos: p, range: 0 }],
        GoalInput::Specs(v) => v@,
        GoalInput::Positions(v) => v@.map_values(|p: Position| GoalSpec { pos: p, range: 0 }),
        GoalInput::Unrecognized => Seq::empty(),
    }
}

/// Turns a goal argument into its list of goals.
pub fn normalize_goals(input: &GoalInput) -> (goals: Vec<GoalSpec>)
    ensures
        goals@ == spec_goals(*input),
{
    match input {
        GoalInput::Spec(g) => vec![*g],
        GoalInput::Pos(p) => vec![GoalSpec { pos: *p, range: 0 }],
        GoalInput::Specs(v) => {
            let mut out: Vec<GoalSpec> = Vec::new();
            let mut i: usize = 0;
            while i < v.len()
                invariant
                    i <= v@.len(),
                    out@ == v@.subrange(0, i as int),
                decreases v@.len() - i,
            {
                out.push(v[i]);
                i += 1;
                assert(out@ =~= v@.subrange(0, i as int));
            }
            assert(out@ =~= v@);
            out
        },
        GoalInput::Positions(v) => {
            let mut out: Vec<GoalSpec> = Vec::new();
            let mut i: usize = 0;
            while i < v.len()
                invariant
                    i <= v@.len(),
                    out@ == v@.subrange(0, i as int).map_values(
                        |p: Position| GoalSpec { pos: p, range: 0 },
                    ),
                decreases v@.len() - i,
            {
                out.push(GoalSpec { pos: v[i], range: 0 });
                i += 1;
                assert(out@ =~= v@.subrange(0, i as int).map_values(
                    |p: Position| GoalSpec { pos: p, range: 0 },
                ));
            }
            assert(v@.subrange(0, v@.len() as int) =~= v@);
            out
        },
        GoalInput::Unrecognized => Vec::new(),
    }
}

/// The outcome of a path search.
#[derive(Debug, Clone)]
pub struct SearchResults {
    pub path: Vec<Position>,
    pub ops: u32,
    pub cost: u32,
    pub incomplete: bool,
}

impl SearchResults {
    /// The positions of the path, start excluded.
    pub fn path(&self) -> (p: Vec<Position>)
        ensures
            p@ == self.path@,
    {
        self.path.clone()
    }

    /// Whether the search stopped without reaching a goal.
    pub fn incomplete(&self) -> (b: bool)
        ensures
            b == self.incomplete,
    {
        self.incomplete
    }
}

/// An empty result with the given completeness flag and operation count.
pub fn empty_results(ops: u32, incomplete: bool) -> (r: SearchResults)
    ensures
        r.path@.len() == 0,
        r.ops == ops,
        r.cost == 0,
        r.incomplete == incomplete,
{
    SearchResults { path: Vec::new(), ops, cost: 0, incomplete }
}

/// Everything a search reads about the map: terrain, an optional cost
/// matrix, and the base costs of plain and swamp tiles.
pub struct SearchCtx<'a> {
    pub terrain: &'a TerrainMap,
    pub cost_matrix: Option<&'a CostMatrix>,
    pub plain_cost: u32,
    pub swamp_cost: u32,
}

impl<'a> SearchCtx<'a> {
    pub open spec fn wf(&self) -> bool {
        &&& self.terrain.wf()
        &&& self.plain_cost <= 255
        &&& self.swamp_cost <= 255
        &&& (self.cost_matrix matches Some(cm) ==> cm.wf())
    }

    /// The matrix cost of a tile, 0 without a matrix.
    pub open spec fn matrix_cost(&self, x: int, y: int) -> u8 {
        match self.cost_matrix {
            Some(cm) => cm.spec_get(x, y),
            None => 0,
        }
    }

    /// The cost of entering tile `(x, y)`, `None` when it is impassable:
    /// a matrix cost of 255 blocks, another nonzero matrix cost is used as
    /// is, and otherwise walls block, swamps cost `swamp_cost` and plains
    /// `plain_cost`.
    pub open spec fn spec_look(&self, x: int, y: int) -> Option<u32> {
        let c = self.matrix_cost(x, y);
        if c == 255 {
            None
        } else if c > 0 {
            Some(c as u32)
        } else {
            match self.terrain.at(x, y) {
                Terrain::Wall => None,
                Terrain::Swamp => Some(self.swamp_cost),
                Terrain::Plain => Some(self.plain_cost),
            }
        }
    }

    /// `spec_look` limited to the map: `None` off the map.
    pub open spec fn spec_look_at(&self, x: int, y: int) -> Option<u32> {
        if on_map(x, y) {
            self.spec_look(x, y)
        } else {
            None
        }
    }

    /// A tile that is on the map and passable.
    pub open spec fn passable(&self, x: int, y: int) -> bool {
        self.spec_look_at(x, y) is Some
    }

    /// The cost of entering tile `(x, y)`, `None` when impassable.
    pub fn look(&self, x: u8, y: u8) -> (r: Option<u32>)
        requires
            self.wf(),
        ensures
            r == self.spec_look(x as int, y as int),
            r matches Some(c) ==> c <= 255,
    {
        if let Some(cm) = self.cost_matrix {
            let c = cm.get(x, y);
            if c == 255 {
                return None;
            } else if c > 0 {
                return Some(c as u32);
            }
        }
        match self.terrain.get(x, y) {
            Terrain::Wall => None,
            Terrain::Swamp => Some(self.swamp_cost),
            Terrain::Plain => Some(self.plain_cost),
        }
    }

    /// `look` with a bounds check: `None` off the map.
    pub fn look_at(&self, ix: i32, iy: i32) -> (r: Option<u32>)
        requires
            self.wf(),
        ensures
            r == self.spec_look_at(ix as int, iy as int),
            r matches Some(c) ==> c <= 255,
    {
        if ix < 0 || ix >= 100 || iy < 0 || iy >= 100 {
            None
        } else {
            self.look(ix as u8, iy as u8)
        }
    }
}

} // verus!

verus! {

use crate::pf_cc::{goal_next_to, goal_reached, pf_heuristic, search, valid_walk, walk_end};

impl CostMatrix {
    /// A copy of the matrix.
    pub fn duplicate(&self) -> (cm: CostMatrix)
        ensures
            cm.bits@ == self.bits@,
    {
        let mut bits: Vec<u8> = Vec::new();
        let mut i: usize = 0;
        while i < self.bits.len()
            invariant
                i <= self.bits@.len(),
                bits@ == self.bits@.subrange(0, i as int),
            decreases self.bits@.len() - i,
        {
            bits.push(self.bits[i]);
            i += 1;
            assert(bits@ =~= self.bits@.subrange(0, i as int));
        }
        assert(self.bits@.subrange(0, self.bits@.len() as int) =~= self.bits@);
        CostMatrix { bits }
    }
}

/// Options of a path search; unset options take defaults. The heuristic
/// weight is given in thousandths (1200 stands for 1.2).
pub struct SearchPathOptions {
    pub cost_matrix: Option<CostMatrix>,
    pub max_ops: Option<u32>,
    pub heuristic_weight: Option<u32>,
    pub max_rooms: Option<u32>,
    pub plain_cost: Option<u8>,
    pub swamp_cost: Option<u8>,
    pub flee: Option<bool>,
}

impl SearchPathOptions {
    /// Options with nothing set.
    pub fn new() -> (o: Self)
        ensures
            o.cost_matrix.is_none(),
            o.max_ops.is_none(),
            o.heuristic_weight.is_none(),
            o.max_rooms.is_none(),
            o.plain_cost.is_none(),
            o.swamp_cost.is_none(),
            o.flee.is_none(),
    {
        SearchPathOptions {
            cost_matrix: None,
            max_ops: None,
            heuristic_weight: None,
            max_rooms: None,
            plain_cost: None,
            swamp_cost: None,
            flee: None,
        }
    }

    /// Sets the cost matrix to a copy of `cm`.
    pub fn cost_matrix(&mut self, cm: &CostMatrix)
        ensures
            final(self).cost_matrix matches Some(c) && c.bits@ == cm.bits@,
            final(self).max_ops == old(self).max_ops,
            final(self).heuristic_weight == old(self).heuristic_weight,
            final(self).max_rooms == old(self).max_rooms,
            final(self).plain_cost == old(self).plain_cost,
            final(self).swamp_cost == old(self).swamp_cost,
            final(self).flee == old(self).flee,
    {
        self.cost_matrix = Some(cm.duplicate());
    }

    /// Sets the bound on expansions.
    pub fn max_ops(&mut self, val: u32)
        ensures
            final(self).max_ops == Some(val),
            final(self).cost_matrix == old(self).cost_matrix,
            final(self).heuristic_weight == old(self).heuristic_weight,
            final(self).max_rooms == old(self).max_rooms,
            final(self).plain_cost == old(self).plain_cost,
            final(self).swamp_cost == old(self).swamp_cost,
            final(self).flee == old(self).flee,
    {
        self.max_ops = Some(val);
    }

    /// Sets the heuristic weight, in thousandths.
    pub fn heuristic_weight(&mut self, val: u32)
        ensures
            final(self).heuristic_weight == Some(val),
            final(self).cost_matrix == old(self).cost_matrix,
            final(self).max_ops == old(self).max_ops,
            final(self).max_rooms == old(self).max_rooms,
            final(self).plain_cost == old(self).plain_cost,
            final(self).swamp_cost == old(self).swamp_cost,
            final(self).flee == old(self).flee,
    {
        self.heuristic_weight = Some(val);
    }

    /// Sets the room bound (kept for compatibility; the arena is one room).
    pub fn max_rooms(&mut self, val: u32)
        ensures
            final(self).max_rooms == Some(val),
            final(self).cost_matrix == old(self).cost_matrix,
            final(self).max_ops == old(self).max_ops,
            final(self).heuristic_weight == old(self).heuristic_weight,
            final(self).plain_cost == old(self).plain_cost,
            final(self).swamp_cost == old(self).swamp_cost,
            final(self).flee == old(self).flee,
    {
        self.max_rooms = Some(val);
    }

    /// Sets the cost of plain tiles.
    pub fn plain_cost(&mut self, val: u8)
        ensures
            final(self).plain_cost == Some(val),
            final(self).cost_matrix == old(self).cost_matrix,
            final(self).max_ops == old(self).max_ops,
            final(self).heuristic_weight == old(self).heuristic_weight,
            final(self).max_rooms == old(self).max_rooms,
            final(self).swamp_cost == old(self).swamp_cost,
            final(self).flee == old(self).flee,
    {
        self.plain_cost = Some(val);
    }

    /// Sets the cost of swamp tiles.
    pub fn swamp_cost(&mut self, val: u8)
        ensures
            final(self).swamp_cost == Some(val),
            final(self).cost_matrix == old(self).cost_matrix,
            final(self).max_ops == old(self).max_ops,
            final(self).heuristic_weight == old(self).heuristic_weight,
            final(self).max_rooms == old(self).max_rooms,
            final(self).plain_cost == old(self).plain_cost,
            final(self).flee == old(self).flee,
    {
        self.swamp_cost = Some(val);
    }

    /// Sets whether the search flees from the goals.
    pub fn flee(&mut self, val: bool)
        ensures
            final(self).flee == Some(val),
            final(self).cost_matrix == old(self).cost_matrix,
            final(self).max_ops == old(self).max_ops,
            final(self).heuristic_weight == old(self).heuristic_weight,
            final(self).max_rooms == old(self).max_rooms,
            final(self).plain_cost == old(self).plain_cost,
            final(self).swamp_cost == old(self).swamp_cost,
    {
        self.flee = Some(val);
    }

    /// A copy of the cost matrix, or a new all-zero matrix when none is set.
    pub fn get_cost_matrix(&self) -> (cm: CostMatrix)
        ensures
            self.cost_matrix matches Some(c) ==> cm.bits@ == c.bits@,
            self.cost_matrix is None ==> cm.bits@ == Seq::new(10000, |i: int| 0u8),
    {
        match &self.cost_matrix {
            Some(c) => c.duplicate(),
            None => {
                let cm = CostMatrix::new();
                assert(cm.bits@ =~= Seq::new(10000, |i: int| 0u8));
                cm
            },
        }
    }

    /// The options' cost matrix, when set, fits the lookups.
    pub open spec fn wf(&self) -> bool {
        self.cost_matrix matches Some(c) ==> c.wf()
    }
}

/// Options of `find_path`: an optional cost matrix.
pub struct FindPathOptions {
    pub cost_matrix: Option<CostMatrix>,
}

/// `v` limited to `lo..=hi`.
pub open spec fn clamp_int(v: int, lo: int, hi: int) -> int {
    if v < lo {
        lo
    } else if v > hi {
        hi
    } else {
        v
    }
}

/// The options' cost matrix, by reference.
pub open spec fn options_matrix<'a>(options: Option<&'a SearchPathOptions>) -> Option<&'a CostMatrix> {
    match options {
        Some(o) => match &o.cost_matrix {
            Some(c) => Some(c),
            None => None,
        },
        None => None,
    }
}

/// The tile costs `search_path` uses: plain and swamp costs clamped to
/// `1..=254`, defaulting to 2 and 10 when unset or 0.
pub open spec fn search_path_ctx<'a>(terrain: &'a TerrainMap, options: Option<&'a SearchPathOptions>) -> SearchCtx<'a> {
    SearchCtx {
        terrain,
        cost_matrix: options_matrix(options),
        plain_cost: match options {
            Some(o) => match o.plain_cost {
                Some(c) => if c == 0 {
                    2
                } else {
                    clamp_int(c as int, 1, 254) as u32
                },
                None => 2,
            },
            None => 2,
        },
        swamp_cost: match options {
            Some(o) => match o.swamp_cost {
                Some(c) => if c == 0 {
                    10
                } else {
                    clamp_int(c as int, 1, 254) as u32
                },
                None => 10,
            },
            None => 10,
        },
    }
}

/// Law: `search_path` prices a tile without a matrix cost by its terrain
/// and the options: a swamp at the swamp cost option (clamped to at most
/// 254) or 10 when that is unset or 0, a plain tile at the plain cost
/// option likewise or 2, and a wall not at all.
pub proof fn law_search_path_tile_costs(terrain: &TerrainMap, o: SearchPathOptions, x: int, y: int)
    requires
        o.cost_matrix is None || o.cost_matrix->0.spec_get(x, y) == 0,
    ensures
        terrain.at(x, y) == Terrain::Swamp ==> search_path_ctx(terrain, Some(&o)).spec_look(x, y) == Some(
            match o.swamp_cost {
                Some(c) => if c == 0 {
                    10u32
                } else if c > 254 {
                    254u32
                } else {
                    c as u32
                },
                None => 10u32,
            },
        ),
        terrain.at(x, y) == Terrain::Plain ==> search_path_ctx(terrain, Some(&o)).spec_look(x, y) == Some(
            match o.plain_cost {
                Some(c) => if c == 0 {
                    2u32
                } else if c > 254 {
                    254u32
                } else {
                    c as u32
                },
                None => 2u32,
            },
        ),
        terrain.at(x, y) == Terrain::Wall ==> search_path_ctx(terrain, Some(&o)).spec_look(x, y) is None,
{
}

/// Law: an option of 0 searches as its default does: a plain or swamp
/// cost of 0 gives the tile costs of 2 or 10, and an expansion bound of 0
/// gives the bound of 10000.
pub proof fn law_zero_option_takes_default(terrain: &TerrainMap, o: SearchPathOptions)
    ensures
        o.plain_cost == Some(0u8) ==> search_path_ctx(terrain, Some(&o)) == search_path_ctx(
            terrain,
            Some(&SearchPathOptions { plain_cost: Some(2u8), ..o }),
        ),
        o.swamp_cost == Some(0u8) ==> search_path_ctx(terrain, Some(&o)) == search_path_ctx(
            terrain,
            Some(&SearchPathOptions { swamp_cost: Some(10u8), ..o }),
        ),
        o.max_ops == Some(0u32) ==> search_path_max_ops(Some(&o)) == search_path_max_ops(
            Some(&SearchPathOptions { max_ops: Some(10000u32), ..o }),
        ),
{
    assert(clamp_int(2, 1, 254) == 2);
    assert(clamp_int(10, 1, 254) == 10);
}

/// The expansion bound `search_path` uses: the option, or 10000 when it
/// is unset or 0.
pub open spec fn search_path_max_ops(options: Option<&SearchPathOptions>) -> int {
    match options {
        Some(o) => match o.max_ops {
            Some(m) => if m == 0 { 10000 } else { m as int },
            None => 10000,
        },
        None => 10000,
    }
}

/// Whether the options ask to flee.
pub open spec fn options_flee(options: Option<&SearchPathOptions>) -> bool {
    match options {
        Some(o) => match o.flee {
            Some(f) => f,
            None => false,
        },
        None => false,
    }
}

/// An option's value clamped to `lo..=hi`, or a default when it is unset
/// or 0.
fn opt_u8(v: Option<u8>, lo: u8, hi: u8, default: u8) -> (r: u32)
    requires
        lo <= hi,
    ensures
        r == (match v {
            Some(c) => if c == 0 {
                default as int
            } else {
                clamp_int(c as int, lo as int, hi as int)
            },
            None => default as int,
        }),
{
    match v {
        Some(c) => {
            if c == 0 {
                default as u32
            } else if c < lo {
                lo as u32
            } else if c > hi {
                hi as u32
            } else {
                c as u32
            }
        },
        None => default as u32,
    }
}

/// Searches a path from `start` to the goals `goal` stands for, on the
/// terrain given and with the options' costs and cost matrix, by the
/// jump-point search of `pf_cc::search`.
///
/// A start off the map, or a goal argument that names no goal, gives an
/// empty, complete result. Plain and swamp costs are clamped to
/// `1..=254` (defaults 2 and 10), the heuristic weight to `1000..=9000`
/// thousandths (default 1200); the expansion bound defaults to 10000. An
/// option set to 0 takes its default. The result's cost is at least the
/// cost of entering the tiles of its path.
pub fn search_path(
    start: Position,
    goal: &GoalInput,
    options: Option<&SearchPathOptions>,
    terrain: &TerrainMap,
) -> (r: SearchResults)
    requires
        terrain.wf(),
        options matches Some(o) ==> o.wf(),
    ensures
        !in_bounds(start) || spec_goals(*goal).len() == 0 ==> r.path@.len() == 0 && r.ops == 0 && r.cost
            == 0 && !r.incomplete,
        valid_walk(search_path_ctx(terrain, options), start, r.path@),
        !r.incomplete ==> !in_bounds(start) || goal_reached(
            spec_goals(*goal),
            options_flee(options),
            walk_end(start, r.path@),
        ),
        pf_heuristic(spec_goals(*goal), options_flee(options), start) == 0 ==> r.path@.len() == 0 && r.ops
            == 0 && r.cost == 0 && !r.incomplete,
        goal_next_to(search_path_ctx(terrain, options), spec_goals(*goal), options_flee(options), start) ==> !r.incomplete
            || r.ops > search_path_max_ops(options),
        r.ops <= search_path_max_ops(options) + 1,
        r.ops <= 10000,
        r.cost >= crate::search::path_cost(search_path_ctx(terrain, options), r.path@),
        in_bounds(start) && r.ops <= search_path_max_ops(options) && (exists|n: Position|
            adjacent(start, n) && #[trigger] search_path_ctx(terrain, options).passable(n.x as int, n.y as int)
                && pf_heuristic(spec_goals(*goal), options_flee(options), n) < pf_heuristic(
                spec_goals(*goal),
                options_flee(options),
                start,
            )) ==> r.path@.len() > 0,
{
    if start.x > 99 || start.y > 99 {
        return empty_results(0, false);
    }
    let (plain_cost, swamp_cost, weight, max_ops, flee) = match options {
        Some(o) => (
            opt_u8(o.plain_cost, 1, 254, 2),
            opt_u8(o.swamp_cost, 1, 254, 10),
            match o.heuristic_weight {
                Some(w) => if w == 0 {
                    1200
                } else if w < 1000 {
                    1000
                } else if w > 9000 {
                    9000
                } else {
                    w
                },
                None => 1200,
            },
            match o.max_ops {
                Some(m) => if m == 0 {
                    10000
                } else {
                    m
                },
                None => 10000,
            },
            match o.flee {
                Some(f) => f,
                None => false,
            },
        ),
        None => (2, 10, 1200, 10000, false),
    };
    let cost_matrix: Option<&CostMatrix> = match options {
        Some(o) => match &o.cost_matrix {
            Some(c) => Some(c),
            None => None,
        },
        None => None,
    };
    let goals = normalize_goals(goal);
    if goals.len() == 0 {
        return empty_results(0, false);
    }
    let ctx = SearchCtx { terrain, cost_matrix, plain_cost, swamp_cost };
    assert(ctx == search_path_ctx(terrain, options));
    search(&ctx, &goals, start, weight, max_ops, flee)
}

/// The plain-tile cost as the options give it, default 2.
pub open spec fn raw_plain_cost(options: Option<&SearchPathOptions>) -> u32 {
    match options {
        Some(o) => match o.plain_cost {
            Some(c) => c as u32,
            None => 2,
        },
        None => 2,
    }
}

/// The swamp-tile cost as the options give it, default 10.
pub open spec fn raw_swamp_cost(options: Option<&SearchPathOptions>) -> u32 {
    match options {
        Some(o) => match o.swamp_cost {
            Some(c) => c as u32,
            None => 10,
        },
        None => 10,
    }
}

/// The tile costs `search_path_pf_cc` uses: the options' plain and swamp
/// costs as given, defaulting to 2 and 10.
pub open spec fn raw_options_ctx<'a>(terrain: &'a TerrainMap, options: Option<&'a SearchPathOptions>) -> SearchCtx<'a> {
    SearchCtx {
        terrain,
        cost_matrix: options_matrix(options),
        plain_cost: raw_plain_cost(options),
        swamp_cost: raw_swamp_cost(options),
    }
}

/// The expansion bound of the unclamped searches: default 50000.
pub open spec fn raw_max_ops(options: Option<&SearchPathOptions>) -> int {
    match options {
        Some(o) => match o.max_ops {
            Some(m) => m as int,
            None => 50000,
        },
        None => 50000,
    }
}

/// The heuristic weight as the options give it, in thousandths, default 1200.
pub open spec fn raw_weight(options: Option<&SearchPathOptions>) -> u32 {
    match options {
        Some(o) => match o.heuristic_weight {
            Some(w) => w,
            None => 1200,
        },
        None => 1200,
    }
}

/// The options' costs as given (no clamping): plain, swamp, weight in
/// thousandths, expansion bound, flee.
pub fn raw_options(options: Option<&SearchPathOptions>) -> (r: (u32, u32, u32, u32, bool))
    ensures
        r.0 == raw_plain_cost(options),
        r.1 == raw_swamp_cost(options),
        r.2 == raw_weight(options),
        r.3 == raw_max_ops(options),
        r.4 == options_flee(options),
        r.0 <= 255,
        r.1 <= 255,
{
    match options {
        Some(o) => (
            match o.plain_cost {
                Some(c) => c as u32,
                None => 2,
            },
            match o.swamp_cost {
                Some(c) => c as u32,
                None => 10,
            },
            match o.heuristic_weight {
                Some(w) => w,
                None => 1200,
            },
            match o.max_ops {
                Some(m) => m,
                None => 50000,
            },
            match o.flee {
                Some(f) => f,
                None => false,
            },
        ),
        None => (2, 10, 1200, 50000, false),
    }
}

/// The options' cost matrix, by reference.
pub fn matrix_of(options: Option<&SearchPathOptions>) -> (r: Option<&CostMatrix>)
    ensures
        r == options_matrix(options),
{
    match options {
        Some(o) => match &o.cost_matrix {
            Some(c) => Some(c),
            None => None,
        },
        None => None,
    }
}

/// The jump-point search with the options taken as given (no clamping;
/// defaults: plain 2, swamp 10, weight 1200 thousandths, 50000 expansions).
/// A goal argument that names no goal gives an empty, complete result.
pub fn search_path_pf_cc(
    start: Position,
    goal: &GoalInput,
    options: Option<&SearchPathOptions>,
    terrain: &TerrainMap,
) -> (r: SearchResults)
    requires
        terrain.wf(),
        options matches Some(o) ==> o.wf(),
    ensures
        spec_goals(*goal).len() == 0 ==> r.path@.len() == 0 && r.ops == 0 && r.cost == 0 && !r.incomplete,
        valid_walk(raw_options_ctx(terrain, options), start, r.path@),
        !r.incomplete ==> goal_reached(spec_goals(*goal), options_flee(options), walk_end(start, r.path@)),
        pf_heuristic(spec_goals(*goal), options_flee(options), start) == 0 ==> r.path@.len() == 0 && r.ops
            == 0 && r.cost == 0 && !r.incomplete,
        goal_next_to(raw_options_ctx(terrain, options), spec_goals(*goal), options_flee(options), start) ==> !r.incomplete
            || r.ops > raw_max_ops(options),
        r.ops <= raw_max_ops(options) + 1,
        r.cost >= crate::search::path_cost(raw_options_ctx(terrain, options), r.path@),
        r.ops <= raw_max_ops(options) && (exists|n: Position|
            adjacent(start, n) && #[trigger] raw_options_ctx(terrain, options).passable(n.x as int, n.y as int)
                && pf_heuristic(spec_goals(*goal), options_flee(options), n) < pf_heuristic(
                spec_goals(*goal),
                options_flee(options),
                start,
            )) ==> r.path@.len() > 0,
{
    let goals = normalize_goals(goal);
    if goals.len() == 0 {
        return empty_results(0, false);
    }
    let (plain_cost, swamp_cost, weight, max_ops, flee) = raw_options(options);
    let ctx = SearchCtx { terrain, cost_matrix: matrix_of(options), plain_cost, swamp_cost };
    assert(ctx == raw_options_ctx(terrain, options));
    search(&ctx, &goals, start, weight, max_ops, flee)
}

/// Two searches that see the same costs accept the same walks.
pub proof fn lemma_walk_same_looks(c1: SearchCtx, c2: SearchCtx, start: Position, path: Seq<Position>)
    requires
        c1.terrain == c2.terrain,
        c1.plain_cost == c2.plain_cost,
        c1.swamp_cost == c2.swamp_cost,
        forall|x: int, y: int| c1.matrix_cost(x, y) == c2.matrix_cost(x, y),
        valid_walk(c1, start, path),
    ensures
        valid_walk(c2, start, path),
{
    assert forall|k: int| 0 <= k < path.len() implies #[trigger] c2.passable(path[k].x as int, path[k].y as int) by {
        assert(c1.passable(path[k].x as int, path[k].y as int));
        assert(c1.matrix_cost(path[k].x as int, path[k].y as int) == c2.matrix_cost(path[k].x as int, path[k].y as int));
    }
}

} // verus!
