use vstd::prelude::*;
use crate::astar::{astar, lemma_first_move, leads_to, reachable};
use crate::grid::{Grid, CELLS};
use crate::location::{in_bounds, manhattan, step, Direction, Location};

verus! {

/// Handle of an entity: its index in the grid's store of entities.
pub type Object = usize;

/// Behaviour state of an agent.
#[derive(Debug, Clone, Copy, PartialEq, Eq, Structural)]
pub enum State {
    Idle,
    MoveToTile,
    MoveToHole,
}

/// An agent: where it stands, what it has collected and what it is after.
#[derive(Debug, Clone, Copy, PartialEq, Eq, Structural)]
pub struct AgentState {
    pub location: Location,
    pub id: u8,
    pub score: u32,
    pub tile: Option<Object>,
    pub hole: Option<Object>,
    pub has_tile: bool,
    pub state: State,
}

/// What the display shows of an agent.
#[derive(Debug, Clone, Copy, PartialEq, Eq, Structural)]
pub struct AgentInfo {
    pub id: u8,
    pub score: u32,
}

/// A tile: where it lies and what it is worth.
#[derive(Debug, Clone, Copy, PartialEq, Eq, Structural)]
pub struct TileState {
    pub location: Location,
    pub score: u32,
}

/// A hole, where agents drop their tiles.
#[derive(Debug, Clone, Copy, PartialEq, Eq, Structural)]
pub struct HoleState {
    pub location: Location,
}

/// An entity of the world.
#[derive(Debug, Clone, Copy, PartialEq, Eq, Structural)]
pub enum GO {
    Agent(AgentState),
    Tile(TileState),
    Hole(HoleState),
    Obstacle(Location),
}

impl GO {
    /// The cell the entity stands on.
    pub open spec fn loc(self) -> Location {
        match self {
            GO::Agent(a) => a.location,
            GO::Tile(t) => t.location,
            GO::Hole(h) => h.location,
            GO::Obstacle(o) => o,
        }
    }

    /// The entity moved to `l`; an obstacle never moves.
    pub open spec fn with_location(self, l: Location) -> GO {
        match self {
            GO::Agent(a) => GO::Agent(AgentState { location: l, ..a }),
            GO::Tile(t) => GO::Tile(TileState { location: l, ..t }),
            GO::Hole(h) => GO::Hole(HoleState { location: l }),
            GO::Obstacle(o) => GO::Obstacle(o),
        }
    }

    /// Score of an agent or of a tile; zero for the others.
    pub open spec fn score_of(self) -> u32 {
        match self {
            GO::Agent(a) => a.score,
            GO::Tile(t) => t.score,
            _ => 0,
        }
    }

    pub fn location(&self) -> (r: &Location)
        ensures
            *r == self.loc(),
    {
        match self {
            GO::Agent(a) => &a.location,
            GO::Tile(t) => &t.location,
            GO::Hole(h) => &h.location,
            GO::Obstacle(o) => o,
        }
    }

    pub fn set_location(&mut self, l: Location)
        ensures
            *final(self) == old(self).with_location(l),
    {
        match self {
            GO::Agent(a) => a.location = l,
            GO::Tile(t) => t.location = l,
            GO::Hole(h) => h.location = l,
            GO::Obstacle(_) => {},
        }
    }

    pub fn score(&self) -> (r: u32)
        ensures
            r == self.score_of(),
    {
        match self {
            GO::Agent(a) => a.score,
            GO::Tile(t) => t.score,
            _ => 0,
        }
    }
}

impl From<&AgentState> for AgentInfo {
    fn from(value: &AgentState) -> (r: AgentInfo) {
        AgentInfo { id: value.id, score: value.score }
    }
}

impl vstd::std_specs::convert::FromSpecImpl<&AgentState> for AgentInfo {
    open spec fn obeys_from_spec() -> bool {
        true
    }

    open spec fn from_spec(value: &AgentState) -> AgentInfo {
        AgentInfo { id: value.id, score: value.score }
    }
}

/// Manhattan distance from entity `o` to `loc`.
pub open spec fn dist_to(g: Grid, o: Object, loc: Location) -> nat {
    manhattan(g.entities()[o as int].loc(), loc)
}

/// The entity of `list` nearest to `loc`; of several equally near, the one
/// that comes first.
pub open spec fn closest(g: Grid, list: Seq<Object>, loc: Location) -> Option<Object>
    decreases list.len(),
{
    if list.len() == 0 {
        None
    } else {
        let last = list.last();
        match closest(g, list.drop_last(), loc) {
            None => Some(last),
            Some(o) => if dist_to(g, last, loc) < dist_to(g, o, loc) {
                Some(last)
            } else {
                Some(o)
            },
        }
    }
}

/// Each handle of `list` names an entity of `g`.
pub open spec fn handles_ok(g: Grid, list: Seq<Object>) -> bool {
    forall|j: int| 0 <= j < list.len() ==> #[trigger] list[j] < g.entities().len()
}

/// The entity of `collection` nearest to `loc` (the first of several equally
/// near); `None` for an empty collection.
pub fn get_closest(g: &Grid, collection: &[Object], loc: Location) -> (r: Option<Object>)
    requires
        handles_ok(*g, collection@),
    ensures
        r == closest(*g, collection@, loc),
        r is None <==> collection@.len() == 0,
        r matches Some(o) ==> collection@.contains(o) && forall|j: int|
            0 <= j < collection@.len() ==> dist_to(*g, o, loc) <= dist_to(*g, #[trigger] collection@[j], loc),
{
    let mut best: Option<Object> = None;
    let mut dist: u32 = 0;
    let mut i: usize = 0;
    while i < collection.len()
        invariant
            handles_ok(*g, collection@),
            i <= collection@.len(),
            best == closest(*g, collection@.subrange(0, i as int), loc),
            best is None <==> i == 0,
            best matches Some(o) ==> {
                &&& dist == dist_to(*g, o, loc)
                &&& collection@.contains(o)
                &&& forall|j: int| 0 <= j < i ==> dist_to(*g, o, loc) <= dist_to(*g, #[trigger] collection@[j], loc)
            },
        decreases collection@.len() - i,
    {
        let t = collection[i];
        let d = g.entity(t).location().distance(loc);
        proof {
            assert(collection@.subrange(0, i + 1).drop_last() =~= collection@.subrange(0, i as int));
        }
        match best {
            None => {
                best = Some(t);
                dist = d;
            },
            Some(_) => {
                if d < dist {
                    best = Some(t);
                    dist = d;
                }
            },
        }
        i = i + 1;
    }
    proof {
        assert(collection@.subrange(0, i as int) =~= collection@);
    }
    best
}

/// Each handle of `list` names a tile of `g`.
pub open spec fn tiles_ok(g: Grid, list: Seq<Object>) -> bool {
    forall|j: int|
        0 <= j < list.len() ==> #[trigger] list[j] < g.entities().len() && g.entities()[list[j] as int] is Tile
}

/// Each handle of `list` names a hole of `g`.
pub open spec fn holes_ok(g: Grid, list: Seq<Object>) -> bool {
    forall|j: int|
        0 <= j < list.len() ==> #[trigger] list[j] < g.entities().len() && g.entities()[list[j] as int] is Hole
}

/// Entity `b` is entity `a` after a turn: of the same kind, a tile with the
/// same score, an obstacle in the same place.
pub open spec fn kind_kept(a: GO, b: GO) -> bool {
    match (a, b) {
        (GO::Agent(_), GO::Agent(_)) => true,
        (GO::Tile(x), GO::Tile(y)) => x.score == y.score,
        (GO::Hole(_), GO::Hole(_)) => true,
        (GO::Obstacle(x), GO::Obstacle(y)) => x == y,
        _ => false,
    }
}

/// `a` is agent `go` of `g`, and `tiles` and `holes` are tiles and holes of `g`.
pub open spec fn turn_ready(g: Grid, a: AgentState, go: Object, tiles: Seq<Object>, holes: Seq<Object>) -> bool {
    &&& g.wf()
    &&& go < g.entities().len()
    &&& g.entities()[go as int] is Agent
    &&& g.entities()[go as int].loc() == a.location
    &&& g.targets_ok(a)
    &&& tiles_ok(g, tiles)
    &&& holes_ok(g, holes)
}

/// What the turn of agent `go`, which ends as `a`, leaves of world `g0` in `g1`:
/// the same entities of the same kinds, other agents untouched.
pub open spec fn turn_frame(g0: Grid, g1: Grid, go: Object, a: AgentState) -> bool {
    &&& g1.wf()
    &&& g1.entities().len() == g0.entities().len()
    &&& forall|i: int|
        0 <= i < g0.entities().len() ==> kind_kept(g0.entities()[i], #[trigger] g1.entities()[i])
    &&& forall|i: int|
        0 <= i < g0.entities().len() && i != go && g0.entities()[i] is Agent ==> #[trigger] g1.entities()[i]
            == g0.entities()[i]
    &&& g1.entities()[go as int].loc() == a.location
    &&& g1.targets_ok(a)
}

/// `l1` is the cell that the first move of a shortest way from `l0` to `t`
/// enters.
pub open spec fn first_step(g: Grid, l0: Location, l1: Location, t: Location) -> bool {
    exists|p: Seq<Direction>|
        #![trigger leads_to(g, l0, p, t)]
        leads_to(g, l0, p, t) && p.len() > 0 && l1 == step(l0, p[0]) && forall|other: Seq<Direction>|
            #[trigger] leads_to(g, l0, other, t) ==> p.len() <= other.len()
}

/// An agent on `l0` heading for `target`, which stands on `t`, ends on `l1`:
/// where it moves, it takes the first move of a shortest way; it moves
/// whenever a way exists and `t` holds `target` or nothing.
pub open spec fn advance(g: Grid, l0: Location, l1: Location, t: Location, target: Object) -> bool {
    &&& l1 != l0 ==> first_step(g, l0, l1, t)
    &&& reachable(g, l0, t) && (g.occupant(t) is None || g.occupant(t) == Some(target)) ==> l1 != l0
}

/// Entity `o` of `g0` stands in `g1` on a cell that was free in `g0`, and
/// nothing else changed.
pub open spec fn respawned(g0: Grid, g1: Grid, o: Object) -> bool {
    let l = g1.entities()[o as int].loc();
    &&& in_bounds(l)
    &&& g0.free(l)
    &&& g1.entities() == g0.entities().update(o as int, g0.entities()[o as int].with_location(l))
}

/// `a + b`, or the largest `u32` where that does not fit.
pub open spec fn sat_add(a: u32, b: u32) -> u32 {
    if a + b > u32::MAX {
        u32::MAX
    } else {
        (a + b) as u32
    }
}

/// The score of the tile that agent `a` carries, if any.
pub open spec fn carried(g: Grid, a: AgentState) -> u32 {
    if a.has_tile && a.tile is Some {
        g.entities()[a.tile->0 as int].score_of()
    } else {
        0
    }
}

/// Agent `a` after an idle turn.
pub open spec fn idle_next(g: Grid, a: AgentState, tiles: Seq<Object>) -> AgentState {
    match closest(g, tiles, a.location) {
        Some(t) => AgentState { tile: Some(t), state: State::MoveToTile, ..a },
        None => a,
    }
}

/// The turn from `a0` in `g0` to `a1` in `g1` of an agent on its way to
/// tile `t`.
pub open spec fn tile_turn(
    g0: Grid,
    g1: Grid,
    a0: AgentState,
    a1: AgentState,
    tiles: Seq<Object>,
    holes: Seq<Object>,
) -> bool {
    match closest(g0, tiles, a0.location) {
        None => a1 == AgentState { state: State::Idle, ..a0 } && g1 == g0,
        Some(t) => if g0.entities()[t as int].loc() != a0.location {
            &&& a1 == AgentState { tile: Some(t), location: a1.location, ..a0 }
            &&& advance(g0, a0.location, a1.location, g0.entities()[t as int].loc(), t)
        } else if g0.occupied_count() < CELLS {
            &&& a1 == AgentState {
                has_tile: true,
                tile: Some(t),
                hole: match closest(g0, holes, a0.location) {
                    Some(h) => Some(h),
                    None => a0.hole,
                },
                state: State::MoveToHole,
                ..a0
            }
            &&& respawned(g0, g1, t)
        } else {
            a1 == AgentState { tile: Some(t), ..a0 } && g1 == g0
        },
    }
}

/// The turn from `a0` in `g0` to `a1` in `g1` of an agent on its way to a
/// hole.
pub open spec fn hole_turn(
    g0: Grid,
    g1: Grid,
    a0: AgentState,
    a1: AgentState,
    tiles: Seq<Object>,
    holes: Seq<Object>,
) -> bool {
    match closest(g0, holes, a0.location) {
        None => a1 == a0 && g1 == g0,
        Some(h) => if g0.entities()[h as int].loc() != a0.location {
            &&& a1 == AgentState { hole: Some(h), location: a1.location, ..a0 }
            &&& advance(g0, a0.location, a1.location, g0.entities()[h as int].loc(), h)
        } else if g0.occupied_count() < CELLS {
            &&& a1 == AgentState {
                score: sat_add(a0.score, carried(g0, a0)),
                has_tile: false,
                hole: Some(h),
                tile: match closest(g1, tiles, a0.location) {
                    Some(t) => Some(t),
                    None => a0.tile,
                },
                state: if closest(g1, tiles, a0.location) is Some {
                    State::MoveToTile
                } else {
                    State::Idle
                },
                ..a0
            }
            &&& respawned(g0, g1, h)
        } else {
            a1 == AgentState { hole: Some(h), ..a0 } && g1 == g0
        },
    }
}

/// One turn of agent `go`, from state `a0` in `g0` to state `a1` in `g1`
/// (where the agent's own record is not yet written back).
pub open spec fn agent_step(
    g0: Grid,
    g1: Grid,
    a0: AgentState,
    a1: AgentState,
    go: Object,
    tiles: Seq<Object>,
    holes: Seq<Object>,
) -> bool {
    &&& turn_frame(g0, g1, go, a1)
    &&& a1.id == a0.id
    &&& a0.state == State::Idle ==> g1 == g0 && a1 == idle_next(g0, a0, tiles)
    &&& a0.state == State::MoveToTile ==> tile_turn(g0, g1, a0, a1, tiles, holes)
    &&& a0.state == State::MoveToHole ==> hole_turn(g0, g1, a0, a1, tiles, holes)
}

/// When a turn picks up a tile, the tile keeps its score and stands
/// afterwards on a cell of the world that was free before the turn.
pub proof fn lemma_pickup_respawn(
    g0: Grid,
    g1: Grid,
    a0: AgentState,
    a1: AgentState,
    go: Object,
    tiles: Seq<Object>,
    holes: Seq<Object>,
)
    requires
        turn_ready(g0, a0, go, tiles, holes),
        agent_step(g0, g1, a0, a1, go, tiles, holes),
        a0.state == State::MoveToTile,
        a1.state == State::MoveToHole,
    ensures
        a1.has_tile,
        (a1.tile is Some),
        (g1.entities()[a1.tile->0 as int] is Tile),
        g1.entities()[a1.tile->0 as int].score_of() == g0.entities()[a1.tile->0 as int].score_of(),
        in_bounds(g1.entities()[a1.tile->0 as int].loc()),
        g0.free(g1.entities()[a1.tile->0 as int].loc()),
{
    let t = a1.tile->0;
    assert(kind_kept(g0.entities()[t as int], g1.entities()[t as int]));
}

impl AgentState {
    /// One turn of agent `go`, whose state `self` is: a step of its
    /// behaviour.
    pub fn update(&mut self, g: &mut Grid, go: Object, tiles: &[Object], holes: &[Object])
        requires
            turn_ready(*old(g), *old(self), go, tiles@, holes@),
        ensures
            agent_step(*old(g), *final(g), *old(self), *final(self), go, tiles@, holes@),
    {
        match self.state {
            State::Idle => self.idle(g, tiles),
            State::MoveToTile => self.move_to_tile(g, go, tiles, holes),
            State::MoveToHole => self.move_to_hole(g, go, tiles, holes),
        }
    }

    /// Picks the nearest tile as target, if there is one.
    fn idle(&mut self, g: &Grid, tiles: &[Object])
        requires
            g.wf(),
            g.targets_ok(*old(self)),
            tiles_ok(*g, tiles@),
        ensures
            *final(self) == idle_next(*g, *old(self), tiles@),
            g.targets_ok(*final(self)),
    {
        let agent_location = self.location;
        if let Some(best_tile) = get_closest(g, tiles, agent_location) {
            self.tile = Some(best_tile);
            self.state = State::MoveToTile;
        }
    }

    /// On the turn of `self`, agent `go`, to target tile `best`: `best`, and
    /// a step towards it unless it is reached, in which case it is picked up.
    fn move_to_tile(&mut self, g: &mut Grid, go: Object, tiles: &[Object], holes: &[Object])
        requires
            turn_ready(*old(g), *old(self), go, tiles@, holes@),
        ensures
            turn_frame(*old(g), *final(g), go, *final(self)),
            tile_turn(*old(g), *final(g), *old(self), *final(self), tiles@, holes@),
    {
        let agent_location = self.location;
        match get_closest(g, tiles, agent_location) {
            None => {
                self.state = State::Idle;
            },
            Some(best) => {
                self.tile = Some(best);
                if agent_location == *g.entity(best).location() {
                    self.pick_tile(g, go, holes, agent_location, best);
                } else {
                    self.step_towards(g, go, best);
                }
            },
        }
    }

    /// On the turn of `self`, agent `go`, to target hole `best`: a step
    /// towards it unless it is reached, in which case the tile is dropped.
    fn move_to_hole(&mut self, g: &mut Grid, go: Object, tiles: &[Object], holes: &[Object])
        requires
            turn_ready(*old(g), *old(self), go, tiles@, holes@),
        ensures
            turn_frame(*old(g), *final(g), go, *final(self)),
            hole_turn(*old(g), *final(g), *old(self), *final(self), tiles@, holes@),
    {
        let agent_location = self.location;
        match get_closest(g, holes, agent_location) {
            None => {},
            Some(best) => {
                self.hole = Some(best);
                if agent_location == *g.entity(best).location() {
                    self.dump_tile(g, go, tiles, agent_location, best);
                } else {
                    self.step_towards(g, go, best);
                }
            },
        }
    }

    /// The agent stands on tile `best_tile`: it takes the tile, whose score
    /// stays with it while the tile itself moves to a free cell, and heads for
    /// the nearest hole. On a full world it waits.
    fn pick_tile(
        &mut self,
        g: &mut Grid,
        go: Object,
        holes: &[Object],
        agent_location: Location,
        best_tile: Object,
    )
        requires
            turn_ready(*old(g), *old(self), go, seq![], holes@),
            best_tile < old(g).entities().len(),
            old(g).entities()[best_tile as int] is Tile,
            old(g).entities()[best_tile as int].loc() == agent_location,
            old(self).location == agent_location,
            old(self).tile == Some(best_tile),
        ensures
            turn_frame(*old(g), *final(g), go, *final(self)),
            old(g).occupied_count() < CELLS ==> {
                &&& *final(self) == (AgentState {
                    has_tile: true,
                    hole: match closest(*old(g), holes@, agent_location) {
                        Some(h) => Some(h),
                        None => old(self).hole,
                    },
                    state: State::MoveToHole,
                    ..*old(self)
                })
                &&& respawned(*old(g), *final(g), best_tile)
            },
            old(g).occupied_count() >= CELLS ==> *final(self) == *old(self) && *final(g) == *old(g),
    {
        if g.has_room() {
            self.has_tile = true;
            if let Some(best_hole) = get_closest(g, holes, agent_location) {
                self.hole = Some(best_hole);
            }
            self.state = State::MoveToHole;
            let new_location = g.random_location();
            proof {
                assert(old(g).occupant(agent_location) == Some(go));
            }
            g.move_object(best_tile, agent_location, new_location);
            proof {
                assert(final(g).entities()[best_tile as int].loc() == new_location);
            }
        }
    }

    /// The agent stands on hole `best_hole`: it scores the tile it carries,
    /// the hole moves to a free cell, and the agent heads for the nearest
    /// tile, or idles where there is none. On a full world it waits.
    fn dump_tile(
        &mut self,
        g: &mut Grid,
        go: Object,
        tiles: &[Object],
        agent_location: Location,
        best_hole: Object,
    )
        requires
            turn_ready(*old(g), *old(self), go, tiles@, seq![]),
            best_hole < old(g).entities().len(),
            old(g).entities()[best_hole as int] is Hole,
            old(g).entities()[best_hole as int].loc() == agent_location,
            old(self).location == agent_location,
            old(self).hole == Some(best_hole),
        ensures
            turn_frame(*old(g), *final(g), go, *final(self)),
            old(g).occupied_count() < CELLS ==> {
                &&& *final(self) == (AgentState {
                    score: sat_add(old(self).score, carried(*old(g), *old(self))),
                    has_tile: false,
                    tile: match closest(*final(g), tiles@, agent_location) {
                        Some(t) => Some(t),
                        None => old(self).tile,
                    },
                    state: if closest(*final(g), tiles@, agent_location) is Some {
                        State::MoveToTile
                    } else {
                        State::Idle
                    },
                    ..*old(self)
                })
                &&& respawned(*old(g), *final(g), best_hole)
            },
            old(g).occupied_count() >= CELLS ==> *final(self) == *old(self) && *final(g) == *old(g),
    {
        if g.has_room() {
            if self.has_tile {
                if let Some(t) = self.tile {
                    let s = g.entity(t).score();
                    self.score = if self.score <= u32::MAX - s {
                        self.score + s
                    } else {
                        u32::MAX
                    };
                }
            }
            self.has_tile = false;
            let new_location = g.random_location();
            proof {
                assert(old(g).occupant(agent_location) == Some(go));
            }
            g.move_object(best_hole, agent_location, new_location);
            proof {
                assert(final(g).entities()[best_hole as int].loc() == new_location);
            }
            if let Some(best_tile) = get_closest(g, tiles, agent_location) {
                self.tile = Some(best_tile);
                self.state = State::MoveToTile;
            } else {
                self.state = State::Idle;
            }
        }
    }

    /// One step towards `target`, along a shortest way to it, where the next
    /// cell is free or holds `target`.
    fn step_towards(&mut self, g: &mut Grid, go: Object, target: Object)
        requires
            turn_ready(*old(g), *old(self), go, seq![], seq![]),
            target < old(g).entities().len(),
            (old(g).entities()[target as int] is Tile) || (old(g).entities()[target as int] is Hole),
            old(g).entities()[target as int].loc() != old(self).location,
        ensures
            *final(self) == (AgentState { location: final(self).location, ..*old(self) }),
            advance(
                *old(g),
                old(self).location,
                final(self).location,
                old(g).entities()[target as int].loc(),
                target,
            ),
            turn_frame(*old(g), *final(g), go, *final(self)),
            final(self).location == old(self).location ==> *final(g) == *old(g),
    {
        let agent_location = self.location;
        let target_location = *g.entity(target).location();
        if let Some(path) = astar(g, agent_location, target_location) {
            if path.len() > 0 {
                let next_location = agent_location.next_location(path[0]);
                let free = g.is_free(next_location);
                let held = g.occupant_at(next_location);
                proof {
                    lemma_first_move(*g, agent_location, path@, target_location);
                    assert(leads_to(*g, agent_location, path@, target_location));
                }
                if free || held == Some(target) {
                    g.move_object(go, agent_location, next_location);
                    self.location = next_location;
                }
            }
        }
    }
}

} // verus!
