use vstd::prelude::*;
use crate::constants::{Direction, Part, ResourceType, ReturnCode, Terrain, SPAWN_RANGE};
use crate::ffi::{ActionId, ActionRequest};
use crate::js_sys::{JsString, Object};
use crate::pf_cc::{goal_reached, pf_heuristic, sign};
use crate::pathfinder::{
    abs_diff, adjacent, cheb, in_bounds, on_map, search_path, spec_step, CostMatrix, GoalInput, GoalSpec, Position,
    SearchPathOptions, TerrainMap,
};
use crate::traits::{
    AsGameObject, Attackable, GameObjectProperties, HasHits, HasPosition, HasStore,
    OwnedStructureProperties, Transferable, Withdrawable,
};

verus! {

/// What every game object has: an id and a tile.
#[derive(Clone, Debug, Default)]
pub struct GameObject {
    pub id: String,
    pub x: u8,
    pub y: u8,
}

impl GameObject {
    /// Game objects handed out always exist.
    pub fn object_exists(&self) -> (b: bool)
        ensures
            b,
    {
        true
    }

    /// The object's id.
    pub fn id(&self) -> (s: JsString)
        ensures
            s.text@ == self.id@,
    {
        JsString { text: self.id.clone() }
    }

    /// The object's x coordinate.
    pub fn x(&self) -> (x: u8)
        ensures
            x == self.x,
    {
        self.x
    }

    /// The object's y coordinate.
    pub fn y(&self) -> (y: u8)
        ensures
            y == self.y,
    {
        self.y
    }

    /// Objects here never decay.
    pub fn ticks_to_decay(&self) -> (t: Option<u32>)
        ensures
            t is None,
    {
        None
    }
}

impl GameObject {
    /// A copy of the object.
    pub fn duplicate(&self) -> (g: GameObject)
        ensures
            g == *self,
    {
        GameObject { id: self.id.clone(), x: self.x, y: self.y }
    }
}

impl HasPosition for GameObject {
    open spec fn spec_pos(&self) -> Position {
        Position { x: self.x, y: self.y }
    }

    fn pos(&self) -> (p: Position) {
        Position { x: self.x, y: self.y }
    }
}

impl AsGameObject for GameObject {
    open spec fn spec_game_object(&self) -> GameObject {
        *self
    }

    fn game_object(&self) -> (g: &GameObject) {
        self
    }
}

impl GameObjectProperties for GameObject {}

/// A defensive tower.
#[derive(Clone, Debug)]
pub struct StructureTower {
    pub base: GameObject,
    pub hits: u32,
    pub hits_max: u32,
    pub energy: u32,
    pub energy_max: u32,
    pub my: Option<bool>,
}

impl HasPosition for StructureTower {
    open spec fn spec_pos(&self) -> Position {
        self.base.spec_pos()
    }

    fn pos(&self) -> (p: Position) {
        self.base.pos()
    }
}

impl AsGameObject for StructureTower {
    open spec fn spec_game_object(&self) -> GameObject {
        self.base
    }

    fn game_object(&self) -> (g: &GameObject) {
        &self.base
    }
}

impl GameObjectProperties for StructureTower {}

impl HasHits for StructureTower {
    open spec fn spec_hits(&self) -> u32 {
        self.hits
    }

    open spec fn spec_hits_max(&self) -> u32 {
        self.hits_max
    }

    fn hits(&self) -> (h: u32) {
        self.hits
    }

    fn hits_max(&self) -> (h: u32) {
        self.hits_max
    }
}

impl OwnedStructureProperties for StructureTower {
    open spec fn spec_my(&self) -> Option<bool> {
        self.my
    }

    fn my(&self) -> (m: Option<bool>) {
        self.my
    }
}

/// An energy extension of nearby spawns.
#[derive(Clone, Debug)]
pub struct StructureExtension {
    pub base: GameObject,
    pub hits: u32,
    pub hits_max: u32,
    pub energy: u32,
    pub energy_max: u32,
    pub my: Option<bool>,
}

impl HasPosition for StructureExtension {
    open spec fn spec_pos(&self) -> Position {
        self.base.spec_pos()
    }

    fn pos(&self) -> (p: Position) {
        self.base.pos()
    }
}

impl AsGameObject for StructureExtension {
    open spec fn spec_game_object(&self) -> GameObject {
        self.base
    }

    fn game_object(&self) -> (g: &GameObject) {
        &self.base
    }
}

impl GameObjectProperties for StructureExtension {}

impl HasHits for StructureExtension {
    open spec fn spec_hits(&self) -> u32 {
        self.hits
    }

    open spec fn spec_hits_max(&self) -> u32 {
        self.hits_max
    }

    fn hits(&self) -> (h: u32) {
        self.hits
    }

    fn hits_max(&self) -> (h: u32) {
        self.hits_max
    }
}

impl OwnedStructureProperties for StructureExtension {
    open spec fn spec_my(&self) -> Option<bool> {
        self.my
    }

    fn my(&self) -> (m: Option<bool>) {
        self.my
    }
}

/// A rampart.
#[derive(Clone, Debug)]
pub struct StructureRampart {
    pub base: GameObject,
    pub hits: u32,
    pub hits_max: u32,
    pub my: Option<bool>,
}

impl HasPosition for StructureRampart {
    open spec fn spec_pos(&self) -> Position {
        self.base.spec_pos()
    }

    fn pos(&self) -> (p: Position) {
        self.base.pos()
    }
}

impl AsGameObject for StructureRampart {
    open spec fn spec_game_object(&self) -> GameObject {
        self.base
    }

    fn game_object(&self) -> (g: &GameObject) {
        &self.base
    }
}

impl GameObjectProperties for StructureRampart {}

impl HasHits for StructureRampart {
    open spec fn spec_hits(&self) -> u32 {
        self.hits
    }

    open spec fn spec_hits_max(&self) -> u32 {
        self.hits_max
    }

    fn hits(&self) -> (h: u32) {
        self.hits
    }

    fn hits_max(&self) -> (h: u32) {
        self.hits_max
    }
}

impl OwnedStructureProperties for StructureRampart {
    open spec fn spec_my(&self) -> Option<bool> {
        self.my
    }

    fn my(&self) -> (m: Option<bool>) {
        self.my
    }
}

/// A container.
#[derive(Clone, Debug)]
pub struct StructureContainer {
    pub base: GameObject,
    pub hits: u32,
    pub hits_max: u32,
    pub store: u32,
    pub store_max: u32,
}

impl HasPosition for StructureContainer {
    open spec fn spec_pos(&self) -> Position {
        self.base.spec_pos()
    }

    fn pos(&self) -> (p: Position) {
        self.base.pos()
    }
}

impl AsGameObject for StructureContainer {
    open spec fn spec_game_object(&self) -> GameObject {
        self.base
    }

    fn game_object(&self) -> (g: &GameObject) {
        &self.base
    }
}

impl GameObjectProperties for StructureContainer {}

impl HasHits for StructureContainer {
    open spec fn spec_hits(&self) -> u32 {
        self.hits
    }

    open spec fn spec_hits_max(&self) -> u32 {
        self.hits_max
    }

    fn hits(&self) -> (h: u32) {
        self.hits
    }

    fn hits_max(&self) -> (h: u32) {
        self.hits_max
    }
}

/// A road.
#[derive(Clone, Debug)]
pub struct StructureRoad {
    pub base: GameObject,
    pub hits: u32,
    pub hits_max: u32,
}

impl HasPosition for StructureRoad {
    open spec fn spec_pos(&self) -> Position {
        self.base.spec_pos()
    }

    fn pos(&self) -> (p: Position) {
        self.base.pos()
    }
}

impl AsGameObject for StructureRoad {
    open spec fn spec_game_object(&self) -> GameObject {
        self.base
    }

    fn game_object(&self) -> (g: &GameObject) {
        &self.base
    }
}

impl GameObjectProperties for StructureRoad {}

impl HasHits for StructureRoad {
    open spec fn spec_hits(&self) -> u32 {
        self.hits
    }

    open spec fn spec_hits_max(&self) -> u32 {
        self.hits_max
    }

    fn hits(&self) -> (h: u32) {
        self.hits
    }

    fn hits_max(&self) -> (h: u32) {
        self.hits_max
    }
}

/// A wall.
#[derive(Clone, Debug)]
pub struct StructureWall {
    pub base: GameObject,
    pub hits: u32,
    pub hits_max: u32,
}

impl HasPosition for StructureWall {
    open spec fn spec_pos(&self) -> Position {
        self.base.spec_pos()
    }

    fn pos(&self) -> (p: Position) {
        self.base.pos()
    }
}

impl AsGameObject for StructureWall {
    open spec fn spec_game_object(&self) -> GameObject {
        self.base
    }

    fn game_object(&self) -> (g: &GameObject) {
        &self.base
    }
}

impl GameObjectProperties for StructureWall {}

impl HasHits for StructureWall {
    open spec fn spec_hits(&self) -> u32 {
        self.hits
    }

    open spec fn spec_hits_max(&self) -> u32 {
        self.hits_max
    }

    fn hits(&self) -> (h: u32) {
        self.hits
    }

    fn hits_max(&self) -> (h: u32) {
        self.hits_max
    }
}

/// An energy source.
#[derive(Clone, Debug)]
pub struct Source {
    pub base: GameObject,
    pub energy: u32,
    pub energy_max: u32,
}

impl HasPosition for Source {
    open spec fn spec_pos(&self) -> Position {
        self.base.spec_pos()
    }

    fn pos(&self) -> (p: Position) {
        self.base.pos()
    }
}

impl AsGameObject for Source {
    open spec fn spec_game_object(&self) -> GameObject {
        self.base
    }

    fn game_object(&self) -> (g: &GameObject) {
        &self.base
    }
}

impl GameObjectProperties for Source {}

/// A dropped resource.
#[derive(Clone, Debug)]
pub struct Resource {
    pub base: GameObject,
    pub amount: u32,
    pub resource_type: String,
}

impl HasPosition for Resource {
    open spec fn spec_pos(&self) -> Position {
        self.base.spec_pos()
    }

    fn pos(&self) -> (p: Position) {
        self.base.pos()
    }
}

impl AsGameObject for Resource {
    open spec fn spec_game_object(&self) -> GameObject {
        self.base
    }

    fn game_object(&self) -> (g: &GameObject) {
        &self.base
    }
}

impl GameObjectProperties for Resource {}

/// A construction site.
#[derive(Clone, Debug)]
pub struct ConstructionSite {
    pub base: GameObject,
    pub my: bool,
    pub progress: u32,
    pub progress_total: u32,
}

impl HasPosition for ConstructionSite {
    open spec fn spec_pos(&self) -> Position {
        self.base.spec_pos()
    }

    fn pos(&self) -> (p: Position) {
        self.base.pos()
    }
}

impl AsGameObject for ConstructionSite {
    open spec fn spec_game_object(&self) -> GameObject {
        self.base
    }

    fn game_object(&self) -> (g: &GameObject) {
        &self.base
    }
}

impl GameObjectProperties for ConstructionSite {}

/// A flag.
#[derive(Clone, Debug)]
pub struct Flag {
    pub base: GameObject,
    pub my: Option<bool>,
}

impl HasPosition for Flag {
    open spec fn spec_pos(&self) -> Position {
        self.base.spec_pos()
    }

    fn pos(&self) -> (p: Position) {
        self.base.pos()
    }
}

impl AsGameObject for Flag {
    open spec fn spec_game_object(&self) -> GameObject {
        self.base
    }

    fn game_object(&self) -> (g: &GameObject) {
        &self.base
    }
}

impl GameObjectProperties for Flag {}

/// A score collector.
#[derive(Clone, Debug)]
pub struct ScoreCollector {
    pub base: GameObject,
    pub my: bool,
}

impl HasPosition for ScoreCollector {
    open spec fn spec_pos(&self) -> Position {
        self.base.spec_pos()
    }

    fn pos(&self) -> (p: Position) {
        self.base.pos()
    }
}

impl AsGameObject for ScoreCollector {
    open spec fn spec_game_object(&self) -> GameObject {
        self.base
    }

    fn game_object(&self) -> (g: &GameObject) {
        &self.base
    }
}

impl GameObjectProperties for ScoreCollector {}

/// A bonus flag.
#[derive(Clone, Debug)]
pub struct BonusFlag {
    pub base: GameObject,
    pub my: Option<bool>,
}

impl HasPosition for BonusFlag {
    open spec fn spec_pos(&self) -> Position {
        self.base.spec_pos()
    }

    fn pos(&self) -> (p: Position) {
        self.base.pos()
    }
}

impl AsGameObject for BonusFlag {
    open spec fn spec_game_object(&self) -> GameObject {
        self.base
    }

    fn game_object(&self) -> (g: &GameObject) {
        &self.base
    }
}

impl GameObjectProperties for BonusFlag {}

/// An area effect.
#[derive(Clone, Debug)]
pub struct AreaEffect {
    pub base: GameObject,
    pub effect_type: String,
}

impl HasPosition for AreaEffect {
    open spec fn spec_pos(&self) -> Position {
        self.base.spec_pos()
    }

    fn pos(&self) -> (p: Position) {
        self.base.pos()
    }
}

impl AsGameObject for AreaEffect {
    open spec fn spec_game_object(&self) -> GameObject {
        self.base
    }

    fn game_object(&self) -> (g: &GameObject) {
        &self.base
    }
}

impl GameObjectProperties for AreaEffect {}
/// A spawn in progress.
#[derive(Clone, Copy, Debug)]
pub struct Spawning {
    pub need_time: u32,
    pub remaining_time: u32,
}

impl Spawning {
    /// Ticks the whole spawn takes.
    pub fn need_time(&self) -> (t: u32)
        ensures
            t == self.need_time,
    {
        self.need_time
    }

    /// Ticks left until the creep is out.
    pub fn remaining_time(&self) -> (t: u32)
        ensures
            t == self.remaining_time,
    {
        self.remaining_time
    }
}

/// A body part of a creep, with its hit points.
#[derive(Clone, Copy, Debug, PartialEq, Eq, Structural)]
pub struct BodyPart {
    pub part: Part,
    pub hits: u32,
}

impl BodyPart {
    /// The kind of part.
    pub fn part(&self) -> (p: Part)
        ensures
            p == self.part,
    {
        self.part
    }

    /// The part's hit points.
    pub fn hits(&self) -> (h: u32)
        ensures
            h == self.hits,
    {
        self.hits
    }
}

/// A spawn: it turns energy into creeps.
#[derive(Clone, Debug)]
pub struct StructureSpawn {
    pub base: GameObject,
    pub hits: u32,
    pub hits_max: u32,
    pub energy: u32,
    pub energy_max: u32,
    pub my: Option<bool>,
    pub spawning: Option<Spawning>,
    pub next_id: String,
    pub directions: Vec<Direction>,
}

/// Whether `b` lies within `SPAWN_RANGE` tiles of `a` along both axes.
pub open spec fn within_spawn_range(a: GameObject, b: GameObject) -> bool {
    abs_diff(a.x as int, b.x as int) <= SPAWN_RANGE && abs_diff(a.y as int, b.y as int) <= SPAWN_RANGE
}

/// The energy of our spawns, among `spawns`, within spawn range of `at`.
pub open spec fn spawn_energy_near(spawns: Seq<StructureSpawn>, at: GameObject) -> nat
    decreases spawns.len(),
{
    if spawns.len() == 0 {
        0
    } else {
        let s = spawns.last();
        spawn_energy_near(spawns.drop_last(), at) + if s.my == Some(true) && within_spawn_range(s.base, at) {
            s.energy as nat
        } else {
            0
        }
    }
}

/// The energy of our extensions, among `exts`, within spawn range of `at`.
pub open spec fn extension_energy_near(exts: Seq<StructureExtension>, at: GameObject) -> nat
    decreases exts.len(),
{
    if exts.len() == 0 {
        0
    } else {
        let e = exts.last();
        extension_energy_near(exts.drop_last(), at) + if e.my == Some(true) && within_spawn_range(e.base, at) {
            e.energy as nat
        } else {
            0
        }
    }
}

/// The energy cost of a body.
pub open spec fn body_cost(body: Seq<Part>) -> nat
    decreases body.len(),
{
    if body.len() == 0 {
        0
    } else {
        body_cost(body.drop_last()) + body.last().spec_cost() as nat
    }
}

/// How many parts of kind `k` a body has.
pub open spec fn part_count(body: Seq<Part>, k: Part) -> nat
    decreases body.len(),
{
    if body.len() == 0 {
        0
    } else {
        part_count(body.drop_last(), k) + if body.last() == k {
            1nat
        } else {
            0nat
        }
    }
}

/// Law: a body costs 50 per move part, 100 per work part, 50 per carry
/// part, 80 per attack part, 150 per ranged attack part, 10 per tough part
/// and 250 per heal part.
pub proof fn law_body_cost_by_parts(body: Seq<Part>)
    ensures
        body_cost(body) == 50 * part_count(body, Part::Move) + 100 * part_count(body, Part::Work) + 50
            * part_count(body, Part::Carry) + 80 * part_count(body, Part::Attack) + 150 * part_count(
            body,
            Part::RangedAttack,
        ) + 10 * part_count(body, Part::Tough) + 250 * part_count(body, Part::Heal),
    decreases body.len(),
{
    if body.len() > 0 {
        law_body_cost_by_parts(body.drop_last());
    }
}

/// `16` to the power `n`.
pub open spec fn pow16(n: nat) -> nat
    decreases n,
{
    if n == 0 {
        1
    } else {
        16 * pow16((n - 1) as nat)
    }
}

/// The first `n` parts of a body as base-16 digits, the first part lowest.
pub open spec fn encode_prefix(body: Seq<Part>, n: nat) -> nat
    decreases n,
{
    if n == 0 {
        0
    } else {
        (encode_prefix(body, (n - 1) as nat) + body[n - 1].number() * pow16((n - 1) as nat)) as nat
    }
}

/// The packed body sent to the host: the numbers of the first 16 parts,
/// four bits each, the first part in the lowest bits.
pub open spec fn encoded_body(body: Seq<Part>) -> nat {
    encode_prefix(body, if body.len() < 16 { body.len() } else { 16 })
}

/// The body a new creep gets: each part at 100 hit points.
pub open spec fn fresh_body(body: Seq<Part>) -> Seq<BodyPart> {
    body.map_values(|p: Part| BodyPart { part: p, hits: 100 })
}

/// No direction occurs twice.
pub open spec fn all_distinct(s: Seq<Direction>) -> bool {
    forall|i: int, j: int| 0 <= i < j < s.len() ==> s[i] != s[j]
}

/// Toward a single goal tile, the search heuristic is the distance to it.
proof fn lemma_single_goal_heuristic(target: Position, p: Position)
    ensures
        pf_heuristic(seq![GoalSpec { pos: target, range: 0 }], false, p) == cheb(p, target),
{
    let goals = seq![GoalSpec { pos: target, range: 0 }];
    assert(goals.drop_last() =~= Seq::<GoalSpec>::empty());
    if cheb(p, target) == 0 {
        assert(crate::pf_cc::some_goal_in_range(goals, p)) by {
            assert(cheb(p, goals[0].pos) <= goals[0].range);
        }
    } else {
        assert(!crate::pf_cc::some_goal_in_range(goals, p)) by {
            if crate::pf_cc::some_goal_in_range(goals, p) {
                let i = choose|i: int| 0 <= i < goals.len() && cheb(p, #[trigger] goals[i].pos) <= goals[i].range;
                assert(i == 0);
            }
        }
        assert(cheb(p, target) <= 255);
        assert(crate::pf_cc::seek_h(goals.drop_last(), p) == u32::MAX);
        assert(goals.last() == GoalSpec { pos: target, range: 0 });
        assert(crate::pf_cc::seek_h(goals, p) == cheb(p, target));
    }
}

/// Law: eight distinct directions are all eight directions, so the
/// directions a spawn accepts are an ordering of the eight.
pub proof fn law_eight_distinct_directions_cover_all(s: Seq<Direction>, d: Direction)
    requires
        s.len() == 8,
        all_distinct(s),
    ensures
        s.contains(d),
{
    let all = set![
        Direction::Top,
        Direction::TopRight,
        Direction::Right,
        Direction::BottomRight,
        Direction::Bottom,
        Direction::BottomLeft,
        Direction::Left,
        Direction::TopLeft
    ];
    assert(all.len() == 8);
    assert(s.no_duplicates()) by {
        assert forall|i: int, j: int| 0 <= i < s.len() && 0 <= j < s.len() && i != j implies s[i] != s[j] by {
            if i < j {
            } else {
            }
        }
    }
    s.unique_seq_to_set();
    if !s.contains(d) {
        let rest = all.remove(d);
        assert(rest.len() == 7);
        assert forall|x: Direction| s.to_set().contains(x) implies rest.contains(x) by {
            assert(s.contains(x));
        }
        vstd::set_lib::lemma_len_subset(s.to_set(), rest);
    }
}

proof fn lemma_spawn_energy_step(spawns: Seq<StructureSpawn>, at: GameObject, i: int)
    requires
        0 <= i < spawns.len(),
    ensures
        spawn_energy_near(spawns.subrange(0, i + 1), at) == spawn_energy_near(spawns.subrange(0, i), at)
            + if spawns[i].my == Some(true) && within_spawn_range(spawns[i].base, at) {
            spawns[i].energy as nat
        } else {
            0
        },
{
    assert(spawns.subrange(0, i + 1).drop_last() =~= spawns.subrange(0, i));
}

proof fn lemma_spawn_energy_prefix(spawns: Seq<StructureSpawn>, at: GameObject, i: int)
    requires
        0 <= i <= spawns.len(),
    ensures
        spawn_energy_near(spawns.subrange(0, i), at) <= spawn_energy_near(spawns, at),
    decreases spawns.len() - i,
{
    if i < spawns.len() {
        lemma_spawn_energy_prefix(spawns, at, i + 1);
        lemma_spawn_energy_step(spawns, at, i);
    } else {
        assert(spawns.subrange(0, i) =~= spawns);
    }
}

proof fn lemma_extension_energy_step(exts: Seq<StructureExtension>, at: GameObject, i: int)
    requires
        0 <= i < exts.len(),
    ensures
        extension_energy_near(exts.subrange(0, i + 1), at) == extension_energy_near(exts.subrange(0, i), at)
            + if exts[i].my == Some(true) && within_spawn_range(exts[i].base, at) {
            exts[i].energy as nat
        } else {
            0
        },
{
    assert(exts.subrange(0, i + 1).drop_last() =~= exts.subrange(0, i));
}

proof fn lemma_extension_energy_prefix(exts: Seq<StructureExtension>, at: GameObject, i: int)
    requires
        0 <= i <= exts.len(),
    ensures
        extension_energy_near(exts.subrange(0, i), at) <= extension_energy_near(exts, at),
    decreases exts.len() - i,
{
    if i < exts.len() {
        lemma_extension_energy_prefix(exts, at, i + 1);
        lemma_extension_energy_step(exts, at, i);
    } else {
        assert(exts.subrange(0, i) =~= exts);
    }
}

proof fn lemma_body_cost_step(body: Seq<Part>, i: int)
    requires
        0 <= i < body.len(),
    ensures
        body_cost(body.subrange(0, i + 1)) == body_cost(body.subrange(0, i)) + body[i].spec_cost(),
{
    assert(body.subrange(0, i + 1).drop_last() =~= body.subrange(0, i));
}

proof fn lemma_body_cost_bound(body: Seq<Part>)
    ensures
        body_cost(body) <= 250 * body.len(),
    decreases body.len(),
{
    if body.len() > 0 {
        lemma_body_cost_bound(body.drop_last());
    }
}

proof fn lemma_pow16_mono(a: nat, b: nat)
    requires
        a <= b,
    ensures
        pow16(a) <= pow16(b),
        pow16(a) >= 1,
    decreases b,
{
    if b > a {
        lemma_pow16_mono(a, (b - 1) as nat);
    } else if a > 0 {
        lemma_pow16_mono((a - 1) as nat, (a - 1) as nat);
    }
}

/// Absolute difference of two bytes.
fn abs_diff_u8(a: u8, b: u8) -> (d: u8)
    ensures
        d == abs_diff(a as int, b as int),
{
    if a >= b {
        a - b
    } else {
        b - a
    }
}

/// Total energy of our spawns within spawn range of `at`.
fn sum_spawn_energy(spawns: &[StructureSpawn], at: &GameObject) -> (total: u32)
    requires
        spawn_energy_near(spawns@, *at) <= u32::MAX,
    ensures
        total == spawn_energy_near(spawns@, *at),
{
    let mut total: u32 = 0;
    let mut i: usize = 0;
    while i < spawns.len()
        invariant
            i <= spawns@.len(),
            total == spawn_energy_near(spawns@.subrange(0, i as int), *at),
            spawn_energy_near(spawns@, *at) <= u32::MAX,
        decreases spawns@.len() - i,
    {
        let s = &spawns[i];
        proof {
            lemma_spawn_energy_step(spawns@, *at, i as int);
            lemma_spawn_energy_prefix(spawns@, *at, i as int + 1);
        }
        let mine = match s.my {
            Some(m) => m,
            None => false,
        };
        if mine && abs_diff_u8(s.base.x, at.x) as u32 <= SPAWN_RANGE && abs_diff_u8(s.base.y, at.y) as u32
            <= SPAWN_RANGE {
            total = total + s.energy;
        }
        i += 1;
    }
    assert(spawns@.subrange(0, spawns@.len() as int) =~= spawns@);
    total
}

/// Total energy of our extensions within spawn range of `at`.
fn sum_extension_energy(exts: &[StructureExtension], at: &GameObject) -> (total: u32)
    requires
        extension_energy_near(exts@, *at) <= u32::MAX,
    ensures
        total == extension_energy_near(exts@, *at),
{
    let mut total: u32 = 0;
    let mut i: usize = 0;
    while i < exts.len()
        invariant
            i <= exts@.len(),
            total == extension_energy_near(exts@.subrange(0, i as int), *at),
            extension_energy_near(exts@, *at) <= u32::MAX,
        decreases exts@.len() - i,
    {
        let e = &exts[i];
        proof {
            lemma_extension_energy_step(exts@, *at, i as int);
            lemma_extension_energy_prefix(exts@, *at, i as int + 1);
        }
        let mine = match e.my {
            Some(m) => m,
            None => false,
        };
        if mine && abs_diff_u8(e.base.x, at.x) as u32 <= SPAWN_RANGE && abs_diff_u8(e.base.y, at.y) as u32
            <= SPAWN_RANGE {
            total = total + e.energy;
        }
        i += 1;
    }
    assert(exts@.subrange(0, exts@.len() as int) =~= exts@);
    total
}

/// The energy cost of a body of at most 50 parts.
fn body_cost_of(body: &[Part]) -> (c: u32)
    requires
        body@.len() <= 50,
    ensures
        c == body_cost(body@),
{
    let mut c: u32 = 0;
    let mut i: usize = 0;
    while i < body.len()
        invariant
            i <= body@.len(),
            body@.len() <= 50,
            c == body_cost(body@.subrange(0, i as int)),
        decreases body@.len() - i,
    {
        proof {
            lemma_body_cost_step(body@, i as int);
            lemma_body_cost_bound(body@.subrange(0, i as int));
        }
        c = c + body[i].cost();
        i += 1;
    }
    assert(body@.subrange(0, body@.len() as int) =~= body@);
    c
}

/// The packed body: the numbers of the first 16 parts, four bits each.
fn encode_body(body: &[Part]) -> (code: u64)
    ensures
        code == encoded_body(body@),
{
    let n: usize = if body.len() < 16 {
        body.len()
    } else {
        16
    };
    let mut code: u64 = 0;
    let mut mult: u64 = 1;
    let mut i: usize = 0;
    proof {
        reveal_with_fuel(pow16, 16);
        assert(pow16(15) == 0x1000000000000000);
    }
    while i < n
        invariant
            i <= n,
            n <= 16,
            n <= body@.len(),
            n == (if body@.len() < 16 { body@.len() } else { 16 }),
            code == encode_prefix(body@, i as nat),
            code < pow16(i as nat),
            i < 16 ==> mult == pow16(i as nat),
            pow16(15) == 0x1000000000000000,
        decreases n - i,
    {
        proof {
            lemma_pow16_mono(i as nat, 15);
        }
        let digit: u64 = body[i].to_u8() as u64;
        assert(digit * mult <= 7 * mult) by (nonlinear_arith)
            requires
                digit <= 7,
        ;
        assert(pow16((i + 1) as nat) == 16 * pow16(i as nat));
        code = code + digit * mult;
        if i + 1 < 16 {
            proof {
                lemma_pow16_mono(i as nat, 14);
                assert(pow16(15) == 16 * pow16(14));
            }
            mult = mult * 16;
        }
        i += 1;
    }
    code
}

impl StructureSpawn {
    /// The spawn in progress, if any.
    pub fn spawning(&self) -> (s: Option<Spawning>)
        ensures
            s == self.spawning,
    {
        self.spawning
    }

    /// The id the next creep will get.
    pub fn next_id(&self) -> (s: String)
        ensures
            s == self.next_id,
    {
        self.next_id.clone()
    }

    /// The directions new creeps leave in, in order of preference.
    pub fn directions(&self) -> (d: Vec<Direction>)
        ensures
            d@ == self.directions@,
    {
        copy_directions(self.directions.as_slice())
    }

    /// Sets the directions new creeps leave in: eight distinct directions,
    /// on our own spawn while it is idle.
    pub fn set_directions(&mut self, directions: &[Direction]) -> (r: ReturnCode)
        ensures
            r == (if old(self).my != Some(true) {
                ReturnCode::NotOwner
            } else if old(self).spawning is Some {
                ReturnCode::Busy
            } else if directions@.len() != 8 || !all_distinct(directions@) {
                ReturnCode::InvalidArgs
            } else {
                ReturnCode::OK
            }),
            r == ReturnCode::OK ==> final(self).directions@ == directions@,
            r == ReturnCode::OK ==> forall|d: Direction| #[trigger] final(self).directions@.contains(d),
            r != ReturnCode::OK ==> final(self).directions@ == old(self).directions@,
            final(self).base == old(self).base,
            final(self).hits == old(self).hits,
            final(self).hits_max == old(self).hits_max,
            final(self).energy == old(self).energy,
            final(self).energy_max == old(self).energy_max,
            final(self).my == old(self).my,
            final(self).spawning == old(self).spawning,
            final(self).next_id == old(self).next_id,
    {
        let mine = match self.my {
            Some(m) => m,
            None => false,
        };
        if !mine {
            return ReturnCode::NotOwner;
        }
        if self.spawning.is_some() {
            return ReturnCode::Busy;
        }
        if directions.len() != 8 {
            return ReturnCode::InvalidArgs;
        }
        let mut seen: Vec<bool> = vec![false; 9];
        let mut i: usize = 0;
        while i < directions.len()
            invariant
                i <= directions@.len(),
                seen@.len() == 9,
                forall|k: int| 0 <= k < i ==> seen@[#[trigger] directions@[k].number()],
                forall|n: int|
                    1 <= n <= 8 && #[trigger] seen@[n] ==> exists|k: int|
                        0 <= k < i && #[trigger] directions@[k].number() == n,
                !seen@[0],
                forall|a: int, b: int| 0 <= a < b < i ==> directions@[a] != directions@[b],
                directions@.len() == 8,
                self.my == Some(true),
                self.spawning is None,
                *self == *old(self),
            decreases directions@.len() - i,
        {
            let d = directions[i];
            let n = d.to_u8() as usize;
            if seen[n] {
                proof {
                    let k = choose|k: int| 0 <= k < i && #[trigger] directions@[k].number() == n;
                    crate::constants::law_number_round_trip(directions@[k]);
                    crate::constants::law_number_round_trip(d);
                    assert(directions@[k] == directions@[i as int]);
                    assert(!all_distinct(directions@));
                }
                return ReturnCode::InvalidArgs;
            }
            proof {
                assert forall|k: int| 0 <= k < i implies directions@[k] != directions@[i as int] by {
                    assert(seen@[directions@[k].number()]);
                }
            }
            seen.set(n, true);
            i += 1;
        }
        self.directions = copy_directions(directions);
        proof {
            assert(all_distinct(directions@));
            assert forall|d: Direction| #[trigger] self.directions@.contains(d) by {
                law_eight_distinct_directions_cover_all(directions@, d);
            }
        }
        ReturnCode::OK
    }

    /// The energy a spawn here can draw on: that of our spawns and
    /// extensions within spawn range, or, when those hold none, its own.
    pub open spec fn energy_available(
        &self,
        spawns: Seq<StructureSpawn>,
        extensions: Seq<StructureExtension>,
    ) -> nat {
        let s = spawn_energy_near(spawns, self.base);
        let e = extension_energy_near(extensions, self.base);
        if s == 0 && e == 0 && self.energy > 0 {
            self.energy as nat
        } else {
            s + e
        }
    }

    /// Spawns a creep with the given body. `spawns` and `extensions` are the
    /// spawns and extensions on the map (empty without a host); the energy
    /// drawn on is `energy_available`. On success the creep is returned with
    /// the request to queue with the host.
    pub fn spawn_creep(
        &self,
        body: &[Part],
        spawns: &[StructureSpawn],
        extensions: &[StructureExtension],
    ) -> (r: Result<(Creep, ActionRequest), ReturnCode>)
        requires
            spawn_energy_near(spawns@, self.base) + extension_energy_near(extensions@, self.base) <= u32::MAX,
        ensures
            self.my != Some(true) ==> r == Err::<(Creep, ActionRequest), ReturnCode>(ReturnCode::NotOwner),
            self.my == Some(true) && self.spawning is Some ==> r == Err::<(Creep, ActionRequest), ReturnCode>(
                ReturnCode::Busy,
            ),
            self.my == Some(true) && self.spawning is None && (body@.len() == 0 || body@.len() > 50) ==> r
                == Err::<(Creep, ActionRequest), ReturnCode>(ReturnCode::InvalidArgs),
            self.my == Some(true) && self.spawning is None && 1 <= body@.len() <= 50 ==> (r is Err <==> self.energy_available(
                spawns@,
                extensions@,
            ) < body_cost(body@)),
            r is Err ==> r->Err_0 != ReturnCode::OK,
            self.my == Some(true) && self.spawning is None && 1 <= body@.len() <= 50 && self.energy_available(
                spawns@,
                extensions@,
            ) < body_cost(body@) ==> r == Err::<(Creep, ActionRequest), ReturnCode>(ReturnCode::NotEnough),
            r matches Ok((creep, req)) ==> {
                &&& creep.base == (GameObject { id: self.next_id, x: self.base.x, y: self.base.y })
                &&& creep.fatigue == 0
                &&& creep.hits == body@.len() * 100
                &&& creep.hits_max == body@.len() * 100
                &&& creep.my
                &&& creep.spawning
                &&& creep.body@ == fresh_body(body@)
                &&& req == ActionRequest {
                    actor_id: self.base.id,
                    action: ActionId::SpawnCreep,
                    target_id: None,
                    arg1: body@.len() as u64,
                    arg2: encoded_body(body@) as u64,
                }
            },
    {
        let mine = match self.my {
            Some(m) => m,
            None => false,
        };
        if !mine {
            return Err(ReturnCode::NotOwner);
        }
        if self.spawning.is_some() {
            return Err(ReturnCode::Busy);
        }
        if body.len() == 0 || body.len() > 50 {
            return Err(ReturnCode::InvalidArgs);
        }
        let cost = body_cost_of(body);
        let near_spawns = sum_spawn_energy(spawns, &self.base);
        let near_extensions = sum_extension_energy(extensions, &self.base);
        let (spawn_energy, extension_energy) = if near_spawns == 0 && near_extensions == 0 && self.energy > 0 {
            (self.energy, 0)
        } else {
            (near_spawns, near_extensions)
        };
        if spawn_energy + extension_energy < cost {
            return Err(ReturnCode::NotEnough);
        }
        let encoded = encode_body(body);
        let request = ActionRequest {
            actor_id: self.base.id.clone(),
            action: ActionId::SpawnCreep,
            target_id: None,
            arg1: body.len() as u64,
            arg2: encoded,
        };
        let mut parts: Vec<BodyPart> = Vec::new();
        let mut i: usize = 0;
        while i < body.len()
            invariant
                i <= body@.len(),
                parts@ == fresh_body(body@.subrange(0, i as int)),
            decreases body@.len() - i,
        {
            parts.push(BodyPart { part: body[i], hits: 100 });
            i += 1;
            assert(parts@ =~= fresh_body(body@.subrange(0, i as int)));
        }
        assert(body@.subrange(0, body@.len() as int) =~= body@);
        let hits: u32 = body.len() as u32 * 100;
        let creep = Creep {
            base: GameObject { id: self.next_id.clone(), x: self.base.x, y: self.base.y },
            fatigue: 0,
            hits,
            hits_max: hits,
            my: true,
            spawning: true,
            body: parts,
        };
        Ok((creep, request))
    }
}

/// A copy of a list of directions.
fn copy_directions(v: &[Direction]) -> (out: Vec<Direction>)
    ensures
        out@ == v@,
{
    let mut out: Vec<Direction> = Vec::new();
    let mut i: usize = 0;
    while i < v.len()
        invariant
            i <= v@.len(),
            out@ == v@.subrange(0, i as int),
        decreases v@.len() - i,
    {
        out.push(v[i]);
        i += 1;
        assert(out@ =~= v@.subrange(0, i as int));
    }
    assert(v@.subrange(0, v@.len() as int) =~= v@);
    out
}

/// A creep.
#[derive(Clone, Debug)]
pub struct Creep {
    pub base: GameObject,
    pub fatigue: u32,
    pub hits: u32,
    pub hits_max: u32,
    pub my: bool,
    pub spawning: bool,
    pub body: Vec<BodyPart>,
}

/// Whether a body has a move part with hit points left.
pub open spec fn has_active_move(body: Seq<BodyPart>) -> bool {
    exists|i: int| 0 <= i < body.len() && #[trigger] body[i].hits > 0 && body[i].part == Part::Move
}

/// A tile a creep may step onto: on the map, free of obstacles, not a wall.
pub open spec fn open_tile(terrain: TerrainMap, obstacles: Seq<Position>, p: Position) -> bool {
    &&& in_bounds(p)
    &&& !obstacles.contains(p)
    &&& terrain.at(p.x as int, p.y as int) != Terrain::Wall
}

/// The direction whose step goes from `from` to `to`, for neighbouring
/// tiles: the signs of the coordinate differences pick it.
pub fn direction_to(from: Position, to: Position) -> (r: Option<Direction>)
    ensures
        r is None <==> from == to,
        r matches Some(d) ==> d.spec_dx() == sign(to.x - from.x) && d.spec_dy() == sign(to.y - from.y),
{
    let sx: i8 = if to.x > from.x {
        1
    } else if to.x < from.x {
        -1
    } else {
        0
    };
    let sy: i8 = if to.y > from.y {
        1
    } else if to.y < from.y {
        -1
    } else {
        0
    };
    match (sx, sy) {
        (0, -1) => Some(Direction::Top),
        (1, -1) => Some(Direction::TopRight),
        (1, 0) => Some(Direction::Right),
        (1, 1) => Some(Direction::BottomRight),
        (0, 1) => Some(Direction::Bottom),
        (-1, 1) => Some(Direction::BottomLeft),
        (-1, 0) => Some(Direction::Left),
        (-1, -1) => Some(Direction::TopLeft),
        _ => None,
    }
}

/// Stepping from a tile toward a neighbouring on-map tile lands on it.
pub proof fn lemma_step_to_neighbour(from: Position, to: Position, d: Direction)
    requires
        adjacent(from, to),
        in_bounds(to),
        d.spec_dx() == sign(to.x - from.x),
        d.spec_dy() == sign(to.y - from.y),
    ensures
        spec_step(from, d) == to,
{
}

/// A cost matrix blocking exactly the on-map tiles of `obstacles`.
fn obstacle_matrix(obstacles: &[Position]) -> (cm: CostMatrix)
    ensures
        cm.wf(),
        cm.bits@.len() == 10000,
        forall|x: int, y: int|
            on_map(x, y) ==> #[trigger] cm.spec_get(x, y) == if obstacles@.contains(
                Position { x: x as u8, y: y as u8 },
            ) {
                255u8
            } else {
                0u8
            },
{
    let mut cm = CostMatrix::new();
    let mut i: usize = 0;
    while i < obstacles.len()
        invariant
            i <= obstacles@.len(),
            cm.bits@.len() == 10000,
            forall|x: int, y: int|
                on_map(x, y) ==> #[trigger] cm.spec_get(x, y) == if obstacles@.subrange(0, i as int).contains(
                    Position { x: x as u8, y: y as u8 },
                ) {
                    255u8
                } else {
                    0u8
                },
        decreases obstacles@.len() - i,
    {
        let p = obstacles[i];
        let ghost before = cm;
        cm.set(p.x, p.y, 255);
        proof {
            let pre = obstacles@.subrange(0, i as int);
            let post = obstacles@.subrange(0, i as int + 1);
            assert(post =~= pre.push(p));
            assert forall|x: int, y: int| on_map(x, y) implies #[trigger] cm.spec_get(x, y) == if post.contains(
                Position { x: x as u8, y: y as u8 },
            ) {
                255u8
            } else {
                0u8
            } by {
                let q = Position { x: x as u8, y: y as u8 };
                if q == p {
                    assert(post[i as int] == q);
                } else {
                    assert(cm.spec_get(x, y) == before.spec_get(x, y));
                    if post.contains(q) {
                        let k = choose|k: int| 0 <= k < post.len() && post[k] == q;
                        assert(pre[k] == q);
                    }
                    if pre.contains(q) {
                        let k = choose|k: int| 0 <= k < pre.len() && pre[k] == q;
                        assert(post[k] == q);
                    }
                }
            }
        }
        i += 1;
    }
    assert(obstacles@.subrange(0, obstacles@.len() as int) =~= obstacles@);
    cm
}

impl Creep {
    /// Fatigue left.
    pub fn fatigue(&self) -> (f: u32)
        ensures
            f == self.fatigue,
    {
        self.fatigue
    }

    /// Current hit points.
    pub fn hits(&self) -> (h: u32)
        ensures
            h == self.hits,
    {
        self.hits
    }

    /// Maximum hit points.
    pub fn hits_max(&self) -> (h: u32)
        ensures
            h == self.hits_max,
    {
        self.hits_max
    }

    /// Whether the creep is ours.
    pub fn my(&self) -> (b: bool)
        ensures
            b == self.my,
    {
        self.my
    }

    /// The body parts.
    pub fn body(&self) -> (b: Vec<BodyPart>)
        ensures
            b@ == self.body@,
    {
        let mut out: Vec<BodyPart> = Vec::new();
        let mut i: usize = 0;
        while i < self.body.len()
            invariant
                i <= self.body@.len(),
                out@ == self.body@.subrange(0, i as int),
            decreases self.body@.len() - i,
        {
            out.push(self.body[i]);
            i += 1;
            assert(out@ =~= self.body@.subrange(0, i as int));
        }
        assert(self.body@.subrange(0, self.body@.len() as int) =~= self.body@);
        out
    }

    /// Whether the creep is still being spawned.
    pub fn spawning(&self) -> (b: bool)
        ensures
            b == self.spawning,
    {
        self.spawning
    }

    /// The outcome of an action that needs an owned, spawned creep: the
    /// error, or the request to queue with the host.
    pub open spec fn spec_action(
        &self,
        action: ActionId,
        target_id: Option<String>,
        arg1: u64,
        arg2: u64,
    ) -> Result<ActionRequest, ReturnCode> {
        if !self.my {
            Err(ReturnCode::NotOwner)
        } else if self.spawning {
            Err(ReturnCode::Busy)
        } else {
            Ok(ActionRequest { actor_id: self.base.id, action, target_id, arg1, arg2 })
        }
    }

    fn action(&self, action: ActionId, target_id: Option<String>, arg1: u64, arg2: u64) -> (r: Result<
        ActionRequest,
        ReturnCode,
    >)
        ensures
            r == self.spec_action(action, target_id, arg1, arg2),
    {
        if !self.my {
            return Err(ReturnCode::NotOwner);
        }
        if self.spawning {
            return Err(ReturnCode::Busy);
        }
        Ok(ActionRequest { actor_id: self.base.id.clone(), action, target_id, arg1, arg2 })
    }

    /// The outcome of a move one step in `direction`: like any action, and
    /// a tired creep cannot move.
    pub open spec fn spec_move(&self, direction: Direction) -> Result<ActionRequest, ReturnCode> {
        if self.my && !self.spawning && self.fatigue > 0 {
            Err(ReturnCode::Tired)
        } else {
            self.spec_action(ActionId::Move, None, direction.number() as u64, 0)
        }
    }

    /// Moves one step in `direction`.
    pub fn move_direction(&self, direction: Direction) -> (r: Result<ActionRequest, ReturnCode>)
        ensures
            r == self.spec_move(direction),
    {
        if !self.my {
            return Err(ReturnCode::NotOwner);
        }
        if self.spawning {
            return Err(ReturnCode::Busy);
        }
        if self.fatigue > 0 {
            return Err(ReturnCode::Tired);
        }
        self.action(ActionId::Move, None, direction.to_u8() as u64, 0)
    }

    /// Moves one step along a path to `target`, around the tiles in
    /// `obstacles` (the structures and creeps on the map; empty without a
    /// host) and the walls of `terrain`. `Ok(None)`: already there, or no
    /// step was found.
    pub fn move_to<T: HasPosition>(
        &self,
        target: &T,
        options: Option<&Object>,
        obstacles: &[Position],
        terrain: &TerrainMap,
    ) -> (r: Result<Option<ActionRequest>, ReturnCode>)
        requires
            terrain.wf(),
        ensures
            !self.my ==> r == Err::<Option<ActionRequest>, ReturnCode>(ReturnCode::NotOwner),
            self.my && self.spawning ==> r == Err::<Option<ActionRequest>, ReturnCode>(ReturnCode::Busy),
            self.my && !self.spawning && self.fatigue > 0 ==> r == Err::<Option<ActionRequest>, ReturnCode>(
                ReturnCode::Tired,
            ),
            self.my && !self.spawning && self.fatigue == 0 && !has_active_move(self.body@) ==> r == Err::<
                Option<ActionRequest>,
                ReturnCode,
            >(ReturnCode::NoBodypart),
            self.my && !self.spawning && self.fatigue == 0 && has_active_move(self.body@) ==> r is Ok,
            self.spec_pos() == target.spec_pos() && r is Ok ==> r == Ok::<Option<ActionRequest>, ReturnCode>(None),
            self.my && !self.spawning && self.fatigue == 0 && has_active_move(self.body@) && in_bounds(self.spec_pos())
                && adjacent(self.spec_pos(), target.spec_pos()) && open_tile(*terrain, obstacles@, target.spec_pos())
                ==> r matches Ok(Some(_)),
            self.my && !self.spawning && self.fatigue == 0 && has_active_move(self.body@) && in_bounds(self.spec_pos())
                && (exists|n: Position|
                adjacent(self.spec_pos(), n) && #[trigger] open_tile(*terrain, obstacles@, n) && cheb(
                    n,
                    target.spec_pos(),
                ) < cheb(self.spec_pos(), target.spec_pos())) ==> r matches Ok(Some(_)),
            r matches Ok(Some(req)) ==> {
                &&& 1 <= req.arg1 <= 8
                &&& Ok::<ActionRequest, ReturnCode>(req) == self.spec_move(
                    crate::constants::direction_of(req.arg1 as int),
                )
                &&& adjacent(
                    self.spec_pos(),
                    spec_step(self.spec_pos(), crate::constants::direction_of(req.arg1 as int)),
                )
                &&& open_tile(
                    *terrain,
                    obstacles@,
                    spec_step(self.spec_pos(), crate::constants::direction_of(req.arg1 as int)),
                )
            },
    {
        if !self.my {
            return Err(ReturnCode::NotOwner);
        }
        if self.spawning {
            return Err(ReturnCode::Busy);
        }
        if self.fatigue > 0 {
            return Err(ReturnCode::Tired);
        }
        let mut has_move_part = false;
        let mut i: usize = 0;
        while i < self.body.len()
            invariant
                i <= self.body@.len(),
                has_move_part == exists|k: int|
                    0 <= k < i && #[trigger] self.body@[k].hits > 0 && self.body@[k].part == Part::Move,
            decreases self.body@.len() - i,
        {
            let p = self.body[i];
            if p.hits > 0 && p.part == Part::Move {
                has_move_part = true;
            }
            i += 1;
        }
        if !has_move_part {
            return Err(ReturnCode::NoBodypart);
        }
        let my_pos = self.pos();
        let target_pos = target.pos();
        if my_pos == target_pos {
            return Ok(None);
        }
        let cm = obstacle_matrix(obstacles);
        let mut opts = SearchPathOptions::new();
        opts.cost_matrix(&cm);
        let results = search_path(my_pos, &GoalInput::Pos(target_pos), Some(&opts), terrain);
        proof {
            let ctx = crate::pathfinder::search_path_ctx(terrain, Some(&opts));
            let goals = crate::pathfinder::spec_goals(GoalInput::Pos(target_pos));
            if in_bounds(my_pos) && adjacent(my_pos, target_pos) && open_tile(*terrain, obstacles@, target_pos) {
                assert(ctx.matrix_cost(target_pos.x as int, target_pos.y as int) == cm.spec_get(
                    target_pos.x as int,
                    target_pos.y as int,
                ));
                let q = Position { x: target_pos.x as u8, y: target_pos.y as u8 };
                assert(q == target_pos);
                assert(ctx.passable(target_pos.x as int, target_pos.y as int));
                assert(goals[0] == GoalSpec { pos: target_pos, range: 0 });
                assert(crate::pf_cc::some_goal_in_range(goals, target_pos));
                assert(goal_reached(goals, false, target_pos));
                assert(crate::pf_cc::goal_next_to(ctx, goals, false, my_pos));
                assert(!results.incomplete);
                if results.path@.len() == 0 {
                    assert(goal_reached(goals, false, my_pos));
                    assert(crate::pf_cc::some_goal_in_range(goals, my_pos));
                    let k = choose|k: int| 0 <= k < goals.len() && crate::pathfinder::cheb(my_pos, #[trigger] goals[k].pos) <= goals[k].range;
                    assert(k == 0);
                }
            }
        }
        proof {
            let ctx = crate::pathfinder::search_path_ctx(terrain, Some(&opts));
            let goals = crate::pathfinder::spec_goals(GoalInput::Pos(target_pos));
            if in_bounds(my_pos) && exists|n: Position|
                adjacent(my_pos, n) && #[trigger] open_tile(*terrain, obstacles@, n) && cheb(n, target_pos) < cheb(
                    my_pos,
                    target_pos,
                ) {
                let n = choose|n: Position|
                    adjacent(my_pos, n) && #[trigger] open_tile(*terrain, obstacles@, n) && cheb(n, target_pos) < cheb(
                        my_pos,
                        target_pos,
                    );
                assert(ctx.matrix_cost(n.x as int, n.y as int) == cm.spec_get(n.x as int, n.y as int));
                let q = Position { x: n.x as u8, y: n.y as u8 };
                assert(q == n);
                assert(ctx.passable(n.x as int, n.y as int));
                lemma_single_goal_heuristic(target_pos, n);
                lemma_single_goal_heuristic(target_pos, my_pos);
                assert(goals == seq![GoalSpec { pos: target_pos, range: 0 }]);
                assert(results.path@.len() > 0);
            }
        }
        if results.path.len() == 0 {
            return Ok(None);
        }
        let next_step = results.path[0];
        let direction = match direction_to(my_pos, next_step) {
            Some(d) => d,
            None => {
                return Ok(None);
            },
        };
        proof {
            let ctx = crate::pathfinder::search_path_ctx(terrain, Some(&opts));
            assert(ctx.passable(next_step.x as int, next_step.y as int));
            assert(adjacent(my_pos, next_step));
            lemma_step_to_neighbour(my_pos, next_step, direction);
            crate::constants::law_number_round_trip(direction);
            let q = Position { x: next_step.x as u8, y: next_step.y as u8 };
            assert(q == next_step);
            assert(ctx.matrix_cost(next_step.x as int, next_step.y as int) == cm.spec_get(
                next_step.x as int,
                next_step.y as int,
            ));
        }
        match self.move_direction(direction) {
            Ok(req) => Ok(Some(req)),
            Err(e) => Err(e),
        }
    }

    /// Attacks a target in melee.
    pub fn attack<T: Attackable>(&self, target: &T) -> (r: Result<ActionRequest, ReturnCode>)
        ensures
            r == self.spec_action(ActionId::Attack, Some(target.spec_game_object().id), 0, 0),
    {
        self.action(ActionId::Attack, Some(target.game_object().id.clone()), 0, 0)
    }

    /// Attacks a target at range.
    pub fn ranged_attack<T: Attackable>(&self, target: &T) -> (r: Result<ActionRequest, ReturnCode>)
        ensures
            r == self.spec_action(ActionId::RangedAttack, Some(target.spec_game_object().id), 0, 0),
    {
        self.action(ActionId::RangedAttack, Some(target.game_object().id.clone()), 0, 0)
    }

    /// Attacks everything around at range.
    pub fn ranged_mass_attack(&self) -> (r: Result<ActionRequest, ReturnCode>)
        ensures
            r == self.spec_action(ActionId::RangedMassAttack, None, 0, 0),
    {
        self.action(ActionId::RangedMassAttack, None, 0, 0)
    }

    /// Heals a creep in melee.
    pub fn heal(&self, target: &Creep) -> (r: Result<ActionRequest, ReturnCode>)
        ensures
            r == self.spec_action(ActionId::Heal, Some(target.base.id), 0, 0),
    {
        self.action(ActionId::Heal, Some(target.base.id.clone()), 0, 0)
    }

    /// Heals a creep at range.
    pub fn ranged_heal(&self, target: &Creep) -> (r: Result<ActionRequest, ReturnCode>)
        ensures
            r == self.spec_action(ActionId::RangedHeal, Some(target.base.id), 0, 0),
    {
        self.action(ActionId::RangedHeal, Some(target.base.id.clone()), 0, 0)
    }

    /// Harvests a source.
    pub fn harvest(&self, source: &Source) -> (r: Result<ActionRequest, ReturnCode>)
        ensures
            r == self.spec_action(ActionId::Harvest, Some(source.base.id), 0, 0),
    {
        self.action(ActionId::Harvest, Some(source.base.id.clone()), 0, 0)
    }

    /// Transfers a resource to a target; no amount means 0.
    pub fn transfer<T: Transferable>(
        &self,
        target: &T,
        resource_type: ResourceType,
        amount: Option<u32>,
    ) -> (r: Result<ActionRequest, ReturnCode>)
        ensures
            r == self.spec_action(
                ActionId::Transfer,
                Some(target.spec_game_object().id),
                resource_type.number() as u64,
                match amount {
                    Some(a) => a as u64,
                    None => 0,
                },
            ),
    {
        let a: u64 = match amount {
            Some(a) => a as u64,
            None => 0,
        };
        self.action(ActionId::Transfer, Some(target.game_object().id.clone()), resource_type.to_u8() as u64, a)
    }

    /// Withdraws a resource from a target; no amount means 0.
    pub fn withdraw<T: Withdrawable>(
        &self,
        target: &T,
        resource_type: ResourceType,
        amount: Option<u32>,
    ) -> (r: Result<ActionRequest, ReturnCode>)
        ensures
            r == self.spec_action(
                ActionId::Withdraw,
                Some(target.spec_game_object().id),
                resource_type.number() as u64,
                match amount {
                    Some(a) => a as u64,
                    None => 0,
                },
            ),
    {
        let a: u64 = match amount {
            Some(a) => a as u64,
            None => 0,
        };
        self.action(ActionId::Withdraw, Some(target.game_object().id.clone()), resource_type.to_u8() as u64, a)
    }

    /// Pulling is accepted and does nothing here.
    pub fn pull(&self, target: &Creep) -> (r: ReturnCode)
        ensures
            r == ReturnCode::OK,
    {
        ReturnCode::OK
    }
}

/// A resource store: 2000 units of capacity, all free.
#[derive(Clone, Copy, Debug, PartialEq, Eq, Structural)]
pub struct Store;

impl Store {
    /// The capacity: 2000.
    pub fn get_capacity(&self, resource_type: Option<ResourceType>) -> (c: Option<u32>)
        ensures
            c == Some(2000u32),
    {
        Some(2000)
    }

    /// The capacity in use: 0.
    pub fn get_used_capacity(&self, resource_type: Option<ResourceType>) -> (c: Option<u32>)
        ensures
            c == Some(0u32),
    {
        Some(0)
    }

    /// The free capacity: 2000.
    pub fn get_free_capacity(&self, resource_type: Option<ResourceType>) -> (c: Option<u32>)
        ensures
            c == Some(2000u32),
    {
        Some(2000)
    }
}

impl ConstructionSite {
    /// Whether the site is ours.
    pub fn my(&self) -> (b: bool)
        ensures
            b == self.my,
    {
        self.my
    }

    /// Build progress so far.
    pub fn progress(&self) -> (p: u32)
        ensures
            p == self.progress,
    {
        self.progress
    }

    /// Build progress needed.
    pub fn progress_total(&self) -> (p: u32)
        ensures
            p == self.progress_total,
    {
        self.progress_total
    }
}

/// A structure of no particular kind; it reports 100 hit points.
#[derive(Clone, Debug)]
pub struct Structure {
    pub base: GameObject,
}

/// An owned structure of no particular kind; it reports 100 hit points.
#[derive(Clone, Debug)]
pub struct OwnedStructure {
    pub base: Structure,
    pub my: Option<bool>,
}

impl HasPosition for StructureSpawn {
    open spec fn spec_pos(&self) -> Position {
        self.base.spec_pos()
    }

    fn pos(&self) -> (p: Position) {
        self.base.pos()
    }
}

impl AsGameObject for StructureSpawn {
    open spec fn spec_game_object(&self) -> GameObject {
        self.base
    }

    fn game_object(&self) -> (g: &GameObject) {
        &self.base
    }
}

impl GameObjectProperties for StructureSpawn {}

impl HasPosition for Creep {
    open spec fn spec_pos(&self) -> Position {
        self.base.spec_pos()
    }

    fn pos(&self) -> (p: Position) {
        self.base.pos()
    }
}

impl AsGameObject for Creep {
    open spec fn spec_game_object(&self) -> GameObject {
        self.base
    }

    fn game_object(&self) -> (g: &GameObject) {
        &self.base
    }
}

impl GameObjectProperties for Creep {}

impl HasPosition for Structure {
    open spec fn spec_pos(&self) -> Position {
        self.base.spec_pos()
    }

    fn pos(&self) -> (p: Position) {
        self.base.pos()
    }
}

impl AsGameObject for Structure {
    open spec fn spec_game_object(&self) -> GameObject {
        self.base
    }

    fn game_object(&self) -> (g: &GameObject) {
        &self.base
    }
}

impl GameObjectProperties for Structure {}

impl HasPosition for OwnedStructure {
    open spec fn spec_pos(&self) -> Position {
        self.base.base.spec_pos()
    }

    fn pos(&self) -> (p: Position) {
        self.base.base.pos()
    }
}

impl AsGameObject for OwnedStructure {
    open spec fn spec_game_object(&self) -> GameObject {
        self.base.base
    }

    fn game_object(&self) -> (g: &GameObject) {
        &self.base.base
    }
}

impl GameObjectProperties for OwnedStructure {}

impl HasHits for StructureSpawn {
    open spec fn spec_hits(&self) -> u32 {
        self.hits
    }

    open spec fn spec_hits_max(&self) -> u32 {
        self.hits_max
    }

    fn hits(&self) -> (h: u32) {
        self.hits
    }

    fn hits_max(&self) -> (h: u32) {
        self.hits_max
    }
}

impl HasHits for Creep {
    open spec fn spec_hits(&self) -> u32 {
        self.hits
    }

    open spec fn spec_hits_max(&self) -> u32 {
        self.hits_max
    }

    fn hits(&self) -> (h: u32) {
        self.hits
    }

    fn hits_max(&self) -> (h: u32) {
        self.hits_max
    }
}

impl HasHits for Structure {
    open spec fn spec_hits(&self) -> u32 {
        100
    }

    open spec fn spec_hits_max(&self) -> u32 {
        100
    }

    fn hits(&self) -> (h: u32) {
        100
    }

    fn hits_max(&self) -> (h: u32) {
        100
    }
}

impl HasHits for OwnedStructure {
    open spec fn spec_hits(&self) -> u32 {
        100
    }

    open spec fn spec_hits_max(&self) -> u32 {
        100
    }

    fn hits(&self) -> (h: u32) {
        100
    }

    fn hits_max(&self) -> (h: u32) {
        100
    }
}

impl OwnedStructureProperties for StructureSpawn {
    open spec fn spec_my(&self) -> Option<bool> {
        self.my
    }

    fn my(&self) -> (m: Option<bool>) {
        self.my
    }
}

impl OwnedStructureProperties for Creep {
    open spec fn spec_my(&self) -> Option<bool> {
        Some(self.my)
    }

    fn my(&self) -> (m: Option<bool>) {
        Some(self.my)
    }
}

impl OwnedStructureProperties for ConstructionSite {
    open spec fn spec_my(&self) -> Option<bool> {
        Some(self.my)
    }

    fn my(&self) -> (m: Option<bool>) {
        Some(self.my)
    }
}

impl OwnedStructureProperties for OwnedStructure {
    open spec fn spec_my(&self) -> Option<bool> {
        self.my
    }

    fn my(&self) -> (m: Option<bool>) {
        self.my
    }
}

impl HasStore for Creep {}

impl HasStore for StructureSpawn {}

impl HasStore for StructureTower {}

impl HasStore for StructureExtension {}

impl HasStore for StructureContainer {}

impl Transferable for Creep {}

impl Transferable for StructureSpawn {}

impl Transferable for StructureTower {}

impl Transferable for StructureExtension {}

impl Transferable for StructureContainer {}

impl Withdrawable for StructureSpawn {}

impl Withdrawable for StructureTower {}

impl Withdrawable for StructureExtension {}

impl Withdrawable for StructureContainer {}

impl Attackable for Creep {}

impl Attackable for StructureSpawn {}

impl Attackable for StructureTower {}

impl Attackable for StructureExtension {}

impl Attackable for StructureContainer {}

impl Attackable for StructureRoad {}

impl Attackable for StructureRampart {}

impl Attackable for StructureWall {}

impl Attackable for OwnedStructure {}
} // verus!
