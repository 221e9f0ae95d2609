use vstd::prelude::*;
use crate::location::{in_bounds, Location, COLS, ROWS};
use crate::objects::{
    agent_step, handles_ok, holes_ok, kind_kept, tiles_ok, AgentState, HoleState, Object, State,
    TileState, GO,
};
use rand::Rng;

verus! {

/// Number of cells of the world.
pub const CELLS: usize = 1600;

/// Random attempts made before free cells are searched in order.
const SAMPLE_TRIES: u32 = 4096;

/// Index of a cell in row-major order.
pub open spec fn key(l: Location) -> int {
    l.row as int * COLS as int + l.col as int
}

/// Number of occupied entries.
pub open spec fn count_occupied(s: Seq<Option<Object>>) -> nat
    decreases s.len(),
{
    if s.len() == 0 {
        0
    } else {
        count_occupied(s.drop_last()) + if s.last() is Some {
            1nat
        } else {
            0nat
        }
    }
}

proof fn lemma_count_update(s: Seq<Option<Object>>, k: int, v: Option<Object>)
    requires
        0 <= k < s.len(),
    ensures
        count_occupied(s.update(k, v)) + (if s[k] is Some {
            1int
        } else {
            0int
        }) == count_occupied(s) + (if v is Some {
            1int
        } else {
            0int
        }),
    decreases s.len(),
{
    let t = s.update(k, v);
    if k == s.len() - 1 {
        assert(t.drop_last() =~= s.drop_last());
    } else {
        assert(t.drop_last() =~= s.drop_last().update(k, v));
        lemma_count_update(s.drop_last(), k, v);
    }
}

proof fn lemma_count_has_free(s: Seq<Option<Object>>)
    requires
        count_occupied(s) < s.len(),
    ensures
        exists|k: int| 0 <= k < s.len() && s[k] is None,
    decreases s.len(),
{
    if s.last() is Some {
        lemma_count_has_free(s.drop_last());
        let k = choose|k: int| 0 <= k < s.drop_last().len() && s.drop_last()[k] is None;
        assert(s[k] is None);
    } else {
        assert(s[s.len() - 1] is None);
    }
}

proof fn lemma_count_bound(s: Seq<Option<Object>>)
    ensures
        count_occupied(s) <= s.len(),
    decreases s.len(),
{
    if s.len() > 0 {
        lemma_count_bound(s.drop_last());
    }
}

pub(crate) proof fn lemma_key_injective(a: Location, b: Location)
    requires
        in_bounds(a),
        in_bounds(b),
        key(a) == key(b),
    ensures
        a == b,
{
    assert(a.row == b.row && a.col == b.col) by (nonlinear_arith)
        requires
            a.row as int * 40 + a.col as int == b.row as int * 40 + b.col as int,
            a.col < 40,
            b.col < 40,
    ;
}

/// The cell with index `k`.
pub open spec fn cell_of(k: int) -> Location {
    Location { col: (k % COLS as int) as u16, row: (k / COLS as int) as u16 }
}

pub(crate) proof fn lemma_cell_of(k: int)
    requires
        0 <= k < CELLS,
    ensures
        in_bounds(cell_of(k)),
        key(cell_of(k)) == k,
{
    assert(k % 40 < 40 && k / 40 < 40 && (k / 40) * 40 + k % 40 == k) by (nonlinear_arith)
        requires
            0 <= k < 1600,
    ;
}

/// Relies on rand's `Rng::random_range` on the thread-local generator: a
/// value drawn from `lo..hi`, which may be any of them.
#[verifier::external_body]
pub(crate) fn random_in(lo: u32, hi: u32) -> (r: u32)
    requires
        lo < hi,
    ensures
        lo <= r < hi,
{
    rand::rng().random_range(lo..hi)
}

/// The entities from `start` on stand on their own cells.
pub open spec fn placed_from(g: Grid, start: int) -> bool {
    forall|i: int|
        start <= i < g.entities().len() ==> g.occupant(#[trigger] g.entities()[i].loc()) == Some(
            i as Object,
        )
}

/// `now` holds the entities of `before` unchanged, and maybe more.
pub open spec fn kept_prefix(before: Seq<GO>, now: Seq<GO>) -> bool {
    &&& before.len() <= now.len()
    &&& forall|j: int| 0 <= j < before.len() ==> #[trigger] now[j] == before[j]
}

/// A new agent with number `id`: idle, with nothing scored, carried or aimed at.
pub open spec fn fresh_agent(e: GO, id: int) -> bool {
    e matches GO::Agent(a) && a.id == id && a.score == 0 && a.tile is None && a.hole is None
        && !a.has_tile && a.state == State::Idle
}

/// A new tile, worth 1 to 5.
pub open spec fn fresh_tile(e: GO) -> bool {
    e matches GO::Tile(t) && 1 <= t.score <= 5
}

/// The first `n` handles of `list` name new agents, numbered from 1.
pub open spec fn agents_fresh(g: Grid, list: Seq<Object>, n: int) -> bool {
    forall|k: int|
        #![trigger list[k]]
        0 <= k < n ==> list[k] < g.entities().len() && fresh_agent(g.entities()[list[k] as int], k + 1)
}

/// The first `n` handles of `list` name new tiles.
pub open spec fn tiles_fresh(g: Grid, list: Seq<Object>, n: int) -> bool {
    forall|k: int|
        #![trigger list[k]]
        0 <= k < n ==> list[k] < g.entities().len() && fresh_tile(g.entities()[list[k] as int])
}

proof fn lemma_fresh_kept(
    g0: Grid,
    g1: Grid,
    agents: Seq<Object>,
    tiles: Seq<Object>,
    holes: Seq<Object>,
    na: int,
    nt: int,
)
    requires
        kept_prefix(g0.entities(), g1.entities()),
        agents_fresh(g0, agents, na),
        tiles_fresh(g0, tiles, nt),
        holes_ok(g0, holes),
    ensures
        agents_fresh(g1, agents, na),
        tiles_fresh(g1, tiles, nt),
        holes_ok(g1, holes),
{
    assert forall|k: int| #![trigger agents[k]] 0 <= k < na implies (agents[k] < g1.entities().len()
        && fresh_agent(g1.entities()[agents[k] as int], k + 1)) by {
        assert(g1.entities()[agents[k] as int] == g0.entities()[agents[k] as int]);
    }
    assert forall|k: int| #![trigger tiles[k]] 0 <= k < nt implies (tiles[k] < g1.entities().len()
        && fresh_tile(g1.entities()[tiles[k] as int])) by {
        assert(g1.entities()[tiles[k] as int] == g0.entities()[tiles[k] as int]);
    }
    assert forall|k: int| 0 <= k < holes.len() implies (#[trigger] holes[k] < g1.entities().len()
        && g1.entities()[holes[k] as int] is Hole) by {
        assert(g1.entities()[holes[k] as int] == g0.entities()[holes[k] as int]);
    }
}

proof fn lemma_agents_push(g: Grid, agents: Seq<Object>, n: int, o: Object)
    requires
        agents_fresh(g, agents, n),
        agents.len() == n,
        o < g.entities().len(),
        fresh_agent(g.entities()[o as int], n + 1),
    ensures
        agents_fresh(g, agents.push(o), n + 1),
{
    assert forall|k: int| #![trigger agents.push(o)[k]] 0 <= k < n + 1 implies (agents.push(o)[k]
        < g.entities().len() && fresh_agent(g.entities()[agents.push(o)[k] as int], k + 1)) by {
        if k < n {
            assert(agents.push(o)[k] == agents[k]);
        }
    }
}

proof fn lemma_tiles_push(g: Grid, tiles: Seq<Object>, n: int, o: Object)
    requires
        tiles_fresh(g, tiles, n),
        tiles.len() == n,
        o < g.entities().len(),
        fresh_tile(g.entities()[o as int]),
    ensures
        tiles_fresh(g, tiles.push(o), n + 1),
{
    assert forall|k: int| #![trigger tiles.push(o)[k]] 0 <= k < n + 1 implies (tiles.push(o)[k]
        < g.entities().len() && fresh_tile(g.entities()[tiles.push(o)[k] as int])) by {
        if k < n {
            assert(tiles.push(o)[k] == tiles[k]);
        }
    }
}

/// `g1` is world `g0` after the turn of entity `go`: for an agent, one step
/// of its behaviour with its new state written back; no change for others.
pub open spec fn tick_turn(g0: Grid, g1: Grid, go: Object, tiles: Seq<Object>, holes: Seq<Object>) -> bool {
    match g0.entities()[go as int] {
        GO::Agent(a0) => exists|gm: Grid, a1: AgentState|
            #![trigger agent_step(g0, gm, a0, a1, go, tiles, holes)]
            {
                &&& agent_step(g0, gm, a0, a1, go, tiles, holes)
                &&& g1.entities() == gm.entities().update(go as int, GO::Agent(a1))
                &&& forall|l: Location| #[trigger] g1.occupant(l) == gm.occupant(l)
            },
        _ => g1 == g0,
    }
}

/// `trace` runs from world `g0` to world `g1` through the turns of
/// `agents`, in order.
pub open spec fn tick_trace(
    trace: Seq<Grid>,
    g0: Grid,
    g1: Grid,
    agents: Seq<Object>,
    tiles: Seq<Object>,
    holes: Seq<Object>,
) -> bool {
    &&& trace.len() == agents.len() + 1
    &&& trace[0] == g0
    &&& trace[agents.len() as int] == g1
    &&& forall|k: int|
        0 <= k < agents.len() ==> tick_turn(#[trigger] trace[k], trace[k + 1], agents[k], tiles, holes)
}

/// The world: a store of entities and, for each cell, the entity placed on it.
pub struct Grid {
    pub(crate) cells: Vec<Option<Object>>,
    pub(crate) objects: Vec<GO>,
    pub(crate) occupied: usize,
}

pub(crate) fn cell_key(l: Location) -> (k: usize)
    requires
        in_bounds(l),
    ensures
        k == key(l),
        k < CELLS,
{
    proof {
        assert(l.row as int * 40 <= 39 * 40) by (nonlinear_arith)
            requires
                l.row < 40,
        ;
    }
    l.row as usize * COLS as usize + l.col as usize
}

impl Grid {
    /// The entity placed on `l`, if any.
    pub open(crate) spec fn occupant(&self, l: Location) -> Option<Object> {
        if in_bounds(l) {
            self.cells@[key(l)]
        } else {
            None
        }
    }

    /// All entities of the world, by handle.
    pub open(crate) spec fn entities(&self) -> Seq<GO> {
        self.objects@
    }

    /// Number of occupied cells.
    pub open(crate) spec fn occupied_count(&self) -> nat {
        count_occupied(self.cells@)
    }

    /// Whether `l` holds no entity.
    pub open spec fn free(&self, l: Location) -> bool {
        self.occupant(l) is None
    }

    /// Every placed entity stands where it is placed, and every entity lies
    /// on the world. Agents and obstacles are always placed; a tile or a
    /// hole may be covered by the agent that walked onto it.
    pub open(crate) spec fn wf(&self) -> bool {
        &&& self.cells@.len() == CELLS
        &&& self.occupied as nat == count_occupied(self.cells@)
        &&& self.objects@.len() <= usize::MAX
        &&& forall|l: Location|
            #![trigger self.occupant(l)]
            in_bounds(l) && self.occupant(l) is Some ==> {
                let i = self.occupant(l)->0;
                &&& 0 <= i < self.objects@.len()
                &&& self.objects@[i as int].loc() == l
            }
        &&& forall|i: int|
            #![trigger self.objects@[i]]
            0 <= i < self.objects@.len() ==> {
                let o = self.objects@[i];
                &&& in_bounds(o.loc())
                &&& (o is Agent || o is Obstacle) ==> self.occupant(o.loc()) == Some(i as Object)
                &&& o is Agent ==> self.targets_ok(o->Agent_0)
            }
    }

    /// The tile and the hole an agent refers to are entities of that kind.
    pub open(crate) spec fn targets_ok(&self, a: AgentState) -> bool {
        &&& a.tile matches Some(t) ==> t < self.objects@.len() && self.objects@[t as int] is Tile
        &&& a.hole matches Some(h) ==> h < self.objects@.len() && self.objects@[h as int] is Hole
    }

    pub fn new() -> (g: Grid)
        ensures
            g.wf(),
            g.entities().len() == 0,
            forall|l: Location| #[trigger] g.free(l),
    {
        let mut cells: Vec<Option<Object>> = Vec::new();
        let mut k: usize = 0;
        while k < CELLS
            invariant
                k <= CELLS,
                cells@.len() == k,
                count_occupied(cells@) == 0,
                forall|j: int| 0 <= j < k ==> cells@[j] is None,
            decreases CELLS - k,
        {
            proof {
                assert(cells@.push(None).drop_last() =~= cells@);
            }
            cells.push(None);
            k = k + 1;
        }
        Grid { cells, objects: Vec::new(), occupied: 0 }
    }

    /// The entity on `l`, if any.
    pub fn object(&self, l: Location) -> (r: Option<&GO>)
        requires
            self.wf(),
        ensures
            match self.occupant(l) {
                Some(i) => r == Some(&self.entities()[i as int]),
                None => r is None,
            },
    {
        if l.col < COLS && l.row < ROWS {
            match self.cells[cell_key(l)] {
                Some(i) => Some(&self.objects[i]),
                None => None,
            }
        } else {
            None
        }
    }

    /// True exactly when no entity is placed on `location`.
    pub fn is_free(&self, location: Location) -> (b: bool)
        requires
            self.wf(),
        ensures
            b == self.free(location),
    {
        if location.col < COLS && location.row < ROWS {
            self.cells[cell_key(location)].is_none()
        } else {
            true
        }
    }

    /// The entity with handle `o`.
    pub fn entity(&self, o: Object) -> (r: &GO)
        requires
            o < self.entities().len(),
        ensures
            *r == self.entities()[o as int],
    {
        &self.objects[o]
    }

    /// The handle of the entity on `l`, if any.
    pub fn occupant_at(&self, l: Location) -> (r: Option<Object>)
        requires
            self.wf(),
        ensures
            r == self.occupant(l),
    {
        if l.col < COLS && l.row < ROWS {
            self.cells[cell_key(l)]
        } else {
            None
        }
    }

    /// Writes back the state of agent `o`, which stays where it stands.
    pub(crate) fn set_agent(&mut self, o: Object, a: AgentState)
        requires
            old(self).wf(),
            o < old(self).entities().len(),
            old(self).entities()[o as int] is Agent,
            old(self).entities()[o as int].loc() == a.location,
            old(self).targets_ok(a),
        ensures
            final(self).wf(),
            final(self).entities() == old(self).entities().update(o as int, GO::Agent(a)),
            forall|l: Location| #[trigger] final(self).occupant(l) == old(self).occupant(l),
    {
        self.objects.set(o, GO::Agent(a));
        proof {
            assert forall|l: Location|
                #![trigger self.occupant(l)]
                in_bounds(l) && self.occupant(l) is Some implies {
                let i = self.occupant(l)->0;
                &&& 0 <= i < self.objects@.len()
                &&& self.objects@[i as int].loc() == l
            } by {
                assert(old(self).occupant(l) == self.occupant(l));
            }
            assert forall|i: int| 0 <= i < self.objects@.len() implies {
                let e = #[trigger] self.objects@[i];
                &&& in_bounds(e.loc())
                &&& (e is Agent || e is Obstacle) ==> self.occupant(e.loc()) == Some(i as Object)
                &&& e is Agent ==> self.targets_ok(e->Agent_0)
            } by {
                let e = self.objects@[i];
                let e0 = old(self).objects@[i];
                if e is Agent {
                    let b = e->Agent_0;
                    if let Some(t) = b.tile {
                        assert(old(self).objects@[t as int] is Tile);
                    }
                    if let Some(h) = b.hole {
                        assert(old(self).objects@[h as int] is Hole);
                    }
                }
                if e0 is Agent || e0 is Obstacle {
                    assert(old(self).occupant(e0.loc()) == Some(i as Object));
                }
            }
        }
    }

    /// Whether a free cell remains.
    pub fn has_room(&self) -> (b: bool)
        requires
            self.wf(),
        ensures
            b == (self.occupied_count() < CELLS),
    {
        self.occupied < CELLS
    }

    /// Moves entity `o` from `prev`, where it stands, to `next`, placing it
    /// there. A tile or a hole that was placed on `next` is covered.
    pub fn move_object(&mut self, o: Object, prev: Location, next: Location)
        requires
            old(self).wf(),
            o < old(self).entities().len(),
            !(old(self).entities()[o as int] is Obstacle),
            prev == old(self).entities()[o as int].loc(),
            in_bounds(next),
            match old(self).occupant(next) {
                None => true,
                Some(j) => j == o || old(self).entities()[j as int] is Tile
                    || old(self).entities()[j as int] is Hole,
            },
        ensures
            final(self).wf(),
            final(self).entities() == old(self).entities().update(
                o as int,
                old(self).entities()[o as int].with_location(next),
            ),
            forall|l: Location|
                #[trigger] final(self).occupant(l) == if l == next {
                    Some(o)
                } else if l == prev && old(self).occupant(prev) == Some(o) {
                    None
                } else {
                    old(self).occupant(l)
                },
    {
        let ko = cell_key(prev);
        let kn = cell_key(next);
        let ghost s0 = self.cells@;
        match self.cells[ko] {
            Some(i) => {
                if i == o {
                    proof {
                        lemma_count_update(self.cells@, ko as int, None);
                    }
                    self.cells.set(ko, None);
                    self.occupied = self.occupied - 1;
                }
            },
            None => {},
        }
        let ghost s1 = self.cells@;
        proof {
            lemma_count_update(self.cells@, kn as int, Some(o));
            lemma_count_bound(self.cells@.update(kn as int, Some(o)));
        }
        if self.cells[kn].is_none() {
            self.occupied = self.occupied + 1;
        }
        self.cells.set(kn, Some(o));
        let mut e = self.objects[o];
        e.set_location(next);
        self.objects.set(o, e);
        proof {
            assert forall|l: Location|
                #[trigger] self.occupant(l) == if l == next {
                    Some(o)
                } else if l == prev && old(self).occupant(prev) == Some(o) {
                    None
                } else {
                    old(self).occupant(l)
                } by {
                if in_bounds(l) {
                    if key(l) == key(next) {
                        lemma_key_injective(l, next);
                    }
                    if key(l) == key(prev) {
                        lemma_key_injective(l, prev);
                    }
                }
            }
            assert forall|i: int| 0 <= i < self.objects@.len() implies {
                let e = #[trigger] self.objects@[i];
                &&& in_bounds(e.loc())
                &&& (e is Agent || e is Obstacle) ==> self.occupant(e.loc()) == Some(i as Object)
                &&& e is Agent ==> self.targets_ok(e->Agent_0)
            } by {
                let e0 = old(self).objects@[i];
                if i != o && (e0 is Agent || e0 is Obstacle) {
                    assert(old(self).occupant(e0.loc()) == Some(i as Object));
                    assert(self.occupant(e0.loc()) == Some(i as Object));
                }
                if i == o {
                    assert(self.occupant(next) == Some(o));
                }
            }
        }
    }

    /// A free cell of the world, drawn at random.
    pub fn random_location(&self) -> (l: Location)
        requires
            self.wf(),
            self.occupied_count() < CELLS,
        ensures
            in_bounds(l),
            self.free(l),
    {
        let mut tries: u32 = 0;
        while tries < SAMPLE_TRIES
            invariant
                self.wf(),
            decreases SAMPLE_TRIES - tries,
        {
            let c = random_in(0, COLS as u32) as u16;
            let r = random_in(0, ROWS as u32) as u16;
            let l = Location::new(c, r);
            if self.is_free(l) {
                return l;
            }
            tries = tries + 1;
        }
        let mut k: usize = 0;
        while k < CELLS
            invariant
                self.wf(),
                self.occupied_count() < CELLS,
                forall|j: int| 0 <= j < k ==> self.cells@[j] is Some,
            decreases CELLS - k,
        {
            if self.cells[k].is_none() {
                let l = Location::new((k % 40) as u16, (k / 40) as u16);
                proof {
                    lemma_cell_of(k as int);
                }
                return l;
            }
            k = k + 1;
        }
        proof {
            lemma_count_has_free(self.cells@);
        }
        Location::new(0, 0)
    }

    /// One tick: each agent of `agents`, in order, takes its turn.
    pub fn update(&mut self, agents: &[Object], tiles: &[Object], holes: &[Object])
        requires
            old(self).wf(),
            handles_ok(*old(self), agents@),
            tiles_ok(*old(self), tiles@),
            holes_ok(*old(self), holes@),
        ensures
            final(self).wf(),
            final(self).entities().len() == old(self).entities().len(),
            forall|i: int|
                0 <= i < old(self).entities().len() ==> kind_kept(
                    old(self).entities()[i],
                    #[trigger] final(self).entities()[i],
                ),
            exists|trace: Seq<Grid>| tick_trace(trace, *old(self), *final(self), agents@, tiles@, holes@),
    {
        let ghost trace: Seq<Grid> = seq![*self];
        let mut i: usize = 0;
        while i < agents.len()
            invariant
                i <= agents@.len(),
                trace.len() == i + 1,
                trace[0] == *old(self),
                trace[i as int] == *self,
                forall|k: int|
                    0 <= k < i ==> tick_turn(#[trigger] trace[k], trace[k + 1], agents@[k], tiles@, holes@),
                self.wf(),
                self.entities().len() == old(self).entities().len(),
                forall|j: int|
                    0 <= j < old(self).entities().len() ==> kind_kept(
                        old(self).entities()[j],
                        #[trigger] self.entities()[j],
                    ),
                handles_ok(*self, agents@),
                tiles_ok(*self, tiles@),
                holes_ok(*self, holes@),
            decreases agents@.len() - i,
        {
            let a = agents[i];
            proof {
                assert(agents@[i as int] < self.entities().len());
            }
            let e = *self.entity(a);
            let ghost g0 = *self;
            match e {
                GO::Agent(st) => {
                    let mut st = st;
                    st.update(self, a, tiles, holes);
                    let ghost gm = *self;
                    self.set_agent(a, st);
                    proof {
                        assert(agent_step(g0, gm, e->Agent_0, st, a, tiles@, holes@));
                        assert(tick_turn(g0, *self, a, tiles@, holes@));
                        assert forall|j: int|
                            0 <= j < old(self).entities().len() implies kind_kept(
                            old(self).entities()[j],
                            #[trigger] self.entities()[j],
                        ) by {
                            assert(kind_kept(old(self).entities()[j], g0.entities()[j]));
                        }
                        assert forall|j: int| 0 <= j < tiles@.len() implies #[trigger] tiles@[j]
                            < self.entities().len() && self.entities()[tiles@[j] as int] is Tile by {
                            assert(kind_kept(g0.entities()[tiles@[j] as int], self.entities()[tiles@[j] as int]));
                        }
                        assert forall|j: int| 0 <= j < holes@.len() implies #[trigger] holes@[j]
                            < self.entities().len() && self.entities()[holes@[j] as int] is Hole by {
                            assert(kind_kept(g0.entities()[holes@[j] as int], self.entities()[holes@[j] as int]));
                        }
                    }
                },
                _ => {},
            }
            proof {
                let t2 = trace.push(*self);
                assert forall|k: int| 0 <= k < i + 1 implies tick_turn(
                    #[trigger] t2[k],
                    t2[k + 1],
                    agents@[k],
                    tiles@,
                    holes@,
                ) by {
                    if k < i {
                        assert(t2[k] == trace[k] && t2[k + 1] == trace[k + 1]);
                    }
                }
                trace = t2;
            }
            i = i + 1;
        }
        proof {
            assert(tick_trace(trace, *old(self), *self, agents@, tiles@, holes@));
        }
    }

    /// Places, each on a free cell drawn at random, `num_agents` idle agents
    /// numbered from 1, `num_tiles` tiles worth 1 to 5 each, `num_holes`
    /// holes and `num_obstacles` obstacles; returns the agents, the tiles and
    /// the holes.
    pub fn create_objects(
        &mut self,
        num_agents: u8,
        num_tiles: u8,
        num_holes: u8,
        num_obstacles: u8,
    ) -> (r: (Vec<Object>, Vec<Object>, Vec<Object>))
        requires
            old(self).wf(),
            old(self).occupied_count() + num_agents + num_tiles + num_holes + num_obstacles <= CELLS,
            old(self).entities().len() + 1024 <= usize::MAX,
        ensures
            final(self).wf(),
            r.0@.len() == num_agents,
            r.1@.len() == num_tiles,
            r.2@.len() == num_holes,
            final(self).entities().len() == old(self).entities().len() + num_agents + num_tiles
                + num_holes + num_obstacles,
            final(self).occupied_count() == old(self).occupied_count() + num_agents + num_tiles
                + num_holes + num_obstacles,
            kept_prefix(old(self).entities(), final(self).entities()),
            placed_from(*final(self), old(self).entities().len() as int),
            agents_fresh(*final(self), r.0@, num_agents as int),
            tiles_fresh(*final(self), r.1@, num_tiles as int),
            holes_ok(*final(self), r.2@),
    {
        let ghost n0 = self.entities().len();
        let mut agents: Vec<Object> = Vec::new();
        let mut tiles: Vec<Object> = Vec::new();
        let mut holes: Vec<Object> = Vec::new();
        let mut i: u8 = 0;
        while i < num_agents
            invariant
                self.wf(),
                i <= num_agents,
                self.occupied_count() == old(self).occupied_count() + i,
                old(self).occupied_count() + num_agents + num_tiles + num_holes + num_obstacles <= CELLS,
                self.entities().len() == n0 + i,
                n0 == old(self).entities().len(),
                n0 + 1024 <= usize::MAX,
                kept_prefix(old(self).entities(), self.entities()),
                placed_from(*self, n0 as int),
                agents@.len() == i,
                agents_fresh(*self, agents@, i as int),
                tiles@.len() == 0,
                holes@.len() == 0,
            decreases num_agents - i,
        {
            let l = self.random_location();
            let agent = AgentState {
                location: l,
                id: i + 1,
                score: 0,
                hole: None,
                tile: None,
                has_tile: false,
                state: State::Idle,
            };
            let ghost g0 = *self;
            let o = self.place(GO::Agent(agent));
            proof {
                lemma_fresh_kept(g0, *self, agents@, tiles@, holes@, i as int, 0);
                lemma_agents_push(*self, agents@, i as int, o);
            }
            agents.push(o);
            i = i + 1;
        }
        let mut i: u8 = 0;
        while i < num_tiles
            invariant
                self.wf(),
                i <= num_tiles,
                self.occupied_count() == old(self).occupied_count() + num_agents + i,
                old(self).occupied_count() + num_agents + num_tiles + num_holes + num_obstacles <= CELLS,
                self.entities().len() == n0 + num_agents + i,
                n0 == old(self).entities().len(),
                n0 + 1024 <= usize::MAX,
                kept_prefix(old(self).entities(), self.entities()),
                placed_from(*self, n0 as int),
                agents@.len() == num_agents,
                agents_fresh(*self, agents@, num_agents as int),
                tiles@.len() == i,
                tiles_fresh(*self, tiles@, i as int),
                holes@.len() == 0,
            decreases num_tiles - i,
        {
            let l = self.random_location();
            let score = random_in(1, 6);
            let ghost g0 = *self;
            let o = self.place(GO::Tile(TileState { location: l, score }));
            proof {
                lemma_fresh_kept(g0, *self, agents@, tiles@, holes@, num_agents as int, i as int);
                lemma_tiles_push(*self, tiles@, i as int, o);
            }
            tiles.push(o);
            i = i + 1;
        }
        let mut i: u8 = 0;
        while i < num_holes
            invariant
                self.wf(),
                i <= num_holes,
                self.occupied_count() == old(self).occupied_count() + num_agents + num_tiles + i,
                old(self).occupied_count() + num_agents + num_tiles + num_holes + num_obstacles <= CELLS,
                self.entities().len() == n0 + num_agents + num_tiles + i,
                n0 == old(self).entities().len(),
                n0 + 1024 <= usize::MAX,
                kept_prefix(old(self).entities(), self.entities()),
                placed_from(*self, n0 as int),
                agents@.len() == num_agents,
                agents_fresh(*self, agents@, num_agents as int),
                tiles@.len() == num_tiles,
                tiles_fresh(*self, tiles@, num_tiles as int),
                holes@.len() == i,
                holes_ok(*self, holes@),
            decreases num_holes - i,
        {
            let l = self.random_location();
            let ghost g0 = *self;
            let o = self.place(GO::Hole(HoleState { location: l }));
            proof {
                lemma_fresh_kept(g0, *self, agents@, tiles@, holes@, num_agents as int, num_tiles as int);
                assert(holes@.push(o)[i as int] == o);
            }
            holes.push(o);
            i = i + 1;
        }
        let mut i: u8 = 0;
        while i < num_obstacles
            invariant
                self.wf(),
                i <= num_obstacles,
                self.occupied_count() == old(self).occupied_count() + num_agents + num_tiles
                    + num_holes + i,
                old(self).occupied_count() + num_agents + num_tiles + num_holes + num_obstacles <= CELLS,
                self.entities().len() == n0 + num_agents + num_tiles + num_holes + i,
                n0 == old(self).entities().len(),
                n0 + 1024 <= usize::MAX,
                kept_prefix(old(self).entities(), self.entities()),
                placed_from(*self, n0 as int),
                agents@.len() == num_agents,
                agents_fresh(*self, agents@, num_agents as int),
                tiles@.len() == num_tiles,
                tiles_fresh(*self, tiles@, num_tiles as int),
                holes@.len() == num_holes,
                holes_ok(*self, holes@),
            decreases num_obstacles - i,
        {
            let l = self.random_location();
            let ghost g0 = *self;
            self.place(GO::Obstacle(l));
            proof {
                lemma_fresh_kept(g0, *self, agents@, tiles@, holes@, num_agents as int, num_tiles as int);
            }
            i = i + 1;
        }
        (agents, tiles, holes)
    }

    /// Whether the tile and the hole that agent `a` refers to are entities of
    /// that kind.
    fn targets_valid(&self, a: &AgentState) -> (b: bool)
        ensures
            b == self.targets_ok(*a),
    {
        let tile_ok = match a.tile {
            Some(t) => t < self.objects.len() && matches!(self.objects[t], GO::Tile(_)),
            None => true,
        };
        let hole_ok = match a.hole {
            Some(h) => h < self.objects.len() && matches!(self.objects[h], GO::Hole(_)),
            None => true,
        };
        tile_ok && hole_ok
    }

    /// Adds entity `e` on its own cell where that cell lies on the world and
    /// is free (and, for an agent, its targets are a tile and a hole); returns
    /// its handle. Otherwise nothing changes.
    pub fn add_object(&mut self, e: GO) -> (r: Option<Object>)
        requires
            old(self).wf(),
        ensures
            final(self).wf(),
            r is Some <==> {
                &&& in_bounds(e.loc())
                &&& old(self).free(e.loc())
                &&& old(self).entities().len() < usize::MAX
                &&& e is Agent ==> old(self).targets_ok(e->Agent_0)
            },
            r matches Some(o) ==> {
                &&& o == old(self).entities().len()
                &&& final(self).entities() == old(self).entities().push(e)
                &&& forall|l: Location|
                    #[trigger] final(self).occupant(l) == if l == e.loc() {
                        Some(o)
                    } else {
                        old(self).occupant(l)
                    }
            },
            r is None ==> *final(self) == *old(self),
    {
        let l = *e.location();
        if !(l.col < COLS && l.row < ROWS) || !self.is_free(l) || self.objects.len() == usize::MAX {
            return None;
        }
        match e {
            GO::Agent(a) => {
                if !self.targets_valid(&a) {
                    return None;
                }
            },
            _ => {},
        }
        Some(self.place(e))
    }

    /// Places a new entity on its own cell, which is free.
    fn place(&mut self, e: GO) -> (o: Object)
        requires
            old(self).wf(),
            in_bounds(e.loc()),
            old(self).free(e.loc()),
            old(self).entities().len() < usize::MAX,
            e is Agent ==> old(self).targets_ok(e->Agent_0),
        ensures
            final(self).wf(),
            o == old(self).entities().len(),
            final(self).entities() == old(self).entities().push(e),
            kept_prefix(old(self).entities(), final(self).entities()),
            final(self).occupied_count() == old(self).occupied_count() + 1,
            forall|n: int|
                0 <= n <= old(self).entities().len() && placed_from(*old(self), n) ==> #[trigger] placed_from(
                    *final(self),
                    n,
                ),
            forall|l: Location|
                #[trigger] final(self).occupant(l) == if l == e.loc() {
                    Some(o)
                } else {
                    old(self).occupant(l)
                },
    {
        let o = self.objects.len();
        let k = cell_key(*e.location());
        proof {
            lemma_count_update(self.cells@, k as int, Some(o));
            lemma_count_bound(self.cells@.update(k as int, Some(o)));
        }
        self.cells.set(k, Some(o));
        self.occupied = self.occupied + 1;
        self.objects.push(e);
        proof {
            assert forall|l: Location|
                #[trigger] self.occupant(l) == if l == e.loc() {
                    Some(o)
                } else {
                    old(self).occupant(l)
                } by {
                if in_bounds(l) && key(l) == key(e.loc()) {
                    lemma_key_injective(l, e.loc());
                }
            }
            assert forall|i: int| 0 <= i < self.objects@.len() implies {
                let e = #[trigger] self.objects@[i];
                &&& in_bounds(e.loc())
                &&& (e is Agent || e is Obstacle) ==> self.occupant(e.loc()) == Some(i as Object)
                &&& e is Agent ==> self.targets_ok(e->Agent_0)
            } by {
                let e0 = self.objects@[i];
                if e0 is Agent {
                    let a = e0->Agent_0;
                    if let Some(t) = a.tile {
                        assert(self.objects@[t as int] == old(self).objects@[t as int]);
                    }
                    if let Some(h) = a.hole {
                        assert(self.objects@[h as int] == old(self).objects@[h as int]);
                    }
                }
                if i < o {
                    assert(e0 == old(self).objects@[i]);
                    if e0 is Agent || e0 is Obstacle {
                        assert(old(self).occupant(e0.loc()) == Some(i as Object));
                    }
                }
            }
        }
        proof {
            assert forall|n: int|
                0 <= n <= old(self).entities().len() && placed_from(*old(self), n) implies #[trigger] placed_from(
                *self,
                n,
            ) by {
                assert forall|i: int| n <= i < self.entities().len() implies self.occupant(
                    #[trigger] self.entities()[i].loc(),
                ) == Some(i as Object) by {
                    if i < o {
                        assert(old(self).occupant(old(self).entities()[i].loc()) == Some(i as Object));
                    }
                }
            }
        }
        o
    }
}

} // verus!
