use vstd::prelude::*;
use crate::js_sys::{JsString, Object};
use crate::objects::{GameObject, Store};
use crate::pathfinder::{cheb, FindPathOptions, Position, SearchResults, TerrainMap};

verus! {

/// Anything that stands on a tile.
pub trait HasPosition {
    /// The tile it stands on.
    spec fn spec_pos(&self) -> Position;

    /// The tile it stands on.
    fn pos(&self) -> (p: Position)
        ensures
            p == self.spec_pos(),
    ;

    /// Chebyshev distance to a tile.
    fn range_to(&self, pos: &Position) -> (r: u8)
        ensures
            r == cheb(self.spec_pos(), *pos),
    {
        self.pos().range_to(pos)
    }
}

/// Anything that is, or is built on, a game object.
pub trait AsGameObject {
    /// The game object underneath.
    spec fn spec_game_object(&self) -> GameObject;

    /// The game object underneath.
    fn game_object(&self) -> (g: &GameObject)
        ensures
            *g == self.spec_game_object(),
    ;
}

/// Hit points.
pub trait HasHits {
    /// Current hit points.
    spec fn spec_hits(&self) -> u32;

    /// Maximum hit points.
    spec fn spec_hits_max(&self) -> u32;

    /// Current hit points.
    fn hits(&self) -> (h: u32)
        ensures
            h == self.spec_hits(),
    ;

    /// Maximum hit points.
    fn hits_max(&self) -> (h: u32)
        ensures
            h == self.spec_hits_max(),
    ;
}

/// A cooldown counter.
pub trait HasCooldown {
    /// Ticks until the next use.
    fn cooldown(&self) -> u32;
}

/// A resource store.
pub trait HasStore {
    /// The store.
    fn store(&self) -> (s: Store)
        ensures
            s == Store,
    {
        Store
    }
}

/// The common properties of game objects, read off the object underneath.
pub trait GameObjectProperties: HasPosition + AsGameObject {
    /// Game objects handed out always exist.
    fn object_exists(&self) -> (b: bool)
        ensures
            b,
    {
        true
    }

    /// The object's id.
    fn id(&self) -> (s: JsString)
        ensures
            s.text@ == self.spec_game_object().id@,
    {
        JsString { text: self.game_object().id.clone() }
    }

    /// The object's x coordinate.
    fn x(&self) -> (x: u8)
        ensures
            x == self.spec_game_object().x,
    {
        self.game_object().x
    }

    /// The object's y coordinate.
    fn y(&self) -> (y: u8)
        ensures
            y == self.spec_game_object().y,
    {
        self.game_object().y
    }

    /// Objects here never decay.
    fn ticks_to_decay(&self) -> (t: Option<u32>)
        ensures
            t is None,
    {
        None
    }

    /// A path from this object to `pos`, as `find_path` finds it.
    fn find_path_to<T: HasPosition>(
        &self,
        pos: &T,
        options: Option<&FindPathOptions>,
        terrain: &TerrainMap,
    ) -> (r: SearchResults)
        requires
            terrain.wf(),
            options matches Some(o) ==> (o.cost_matrix matches Some(c) ==> c.wf()),
        ensures
            exists|base: Seq<Position>|
                #[trigger] crate::utils::find_path_tail(base, self.spec_pos(), pos.spec_pos()) == r.path@
                    && crate::pf_cc::valid_walk(crate::utils::find_path_ctx(terrain, options), self.spec_pos(), base),
            !r.incomplete && crate::pathfinder::in_bounds(self.spec_pos()) ==> r.path@.len() > 0
                && r.path@.last() == pos.spec_pos(),
    {
        crate::utils::find_path(self, pos, options, terrain)
    }

    /// The given things within `range`: this lookup finds none.
    fn find_in_range<T: HasPosition>(&self, positions: &[T], range: u8) -> (v: Vec<T>)
        ensures
            v@.len() == 0,
    {
        Vec::new()
    }

    /// The closest of the given things by range: this lookup finds none.
    fn find_closest_by_range<T: HasPosition>(&self, positions: &[T]) -> (r: Option<T>)
        ensures
            r is None,
    {
        None
    }

    /// The closest of the given things by path: this lookup finds none.
    fn find_closest_by_path<T: HasPosition>(
        &self,
        positions: &[T],
        options: Option<&FindPathOptions>,
    ) -> (r: Option<T>)
        ensures
            r is None,
    {
        None
    }

    /// Range to a script object: always 0 here.
    fn get_range_to(&self, pos: &Object) -> (r: u8)
        ensures
            r == 0,
    {
        0
    }
}

/// Ownership of a structure or creep.
pub trait OwnedStructureProperties {
    /// Whether it is ours, where that is known.
    spec fn spec_my(&self) -> Option<bool>;

    /// Whether it is ours, where that is known.
    fn my(&self) -> (m: Option<bool>)
        ensures
            m == self.spec_my(),
    ;
}

/// Targets of a transfer.
pub trait Transferable: AsGameObject {}

/// Targets of a withdrawal.
pub trait Withdrawable: AsGameObject {}

/// Targets of an attack.
pub trait Attackable: HasHits + AsGameObject {}

} // verus!

verus! {

impl HasPosition for Position {
    open spec fn spec_pos(&self) -> Position {
        *self
    }

    fn pos(&self) -> (p: Position) {
        *self
    }
}

} // verus!
