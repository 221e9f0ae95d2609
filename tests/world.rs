use tileworld::grid::{Grid, CELLS};
use tileworld::location::{Direction, Location, COLS, ROWS};
use tileworld::objects::{get_closest, AgentInfo, AgentState, HoleState, State, TileState, GO};

fn agent_at(location: Location, id: u8, state: State) -> GO {
    GO::Agent(AgentState {
        location,
        id,
        score: 0,
        tile: None,
        hole: None,
        has_tile: false,
        state,
    })
}

fn agent_state(grid: &Grid, o: usize) -> AgentState {
    match grid.entity(o) {
        GO::Agent(a) => *a,
        _ => panic!("not an agent"),
    }
}

#[test]
fn next_location_moves_one_cell_and_clamps_at_edges() {
    let l = Location::new(5, 7);
    assert_eq!(l.next_location(Direction::Up), Location::new(5, 6));
    assert_eq!(l.next_location(Direction::Down), Location::new(5, 8));
    assert_eq!(l.next_location(Direction::Left), Location::new(4, 7));
    assert_eq!(l.next_location(Direction::Right), Location::new(6, 7));
    let corner = Location::new(0, 0);
    assert_eq!(corner.next_location(Direction::Up), corner);
    assert_eq!(corner.next_location(Direction::Left), corner);
    let far = Location::new(COLS - 1, ROWS - 1);
    assert_eq!(far.next_location(Direction::Down), far);
    assert_eq!(far.next_location(Direction::Right), far);
}

#[test]
fn valid_move_agrees_with_next_location() {
    for l in [Location::new(0, 0), Location::new(COLS - 1, ROWS - 1), Location::new(3, 0), Location::new(0, 9)] {
        for d in [Direction::Up, Direction::Down, Direction::Left, Direction::Right] {
            assert_eq!(l.is_valid_move(d), l.next_location(d) != l);
        }
    }
    assert!(!Location::new(0, 0).is_valid_move(Direction::Up));
    assert!(Location::new(0, 0).is_valid_move(Direction::Down));
}

#[test]
fn distance_is_manhattan() {
    assert_eq!(Location::new(0, 0).distance(Location::new(3, 4)), 7);
    assert_eq!(Location::new(9, 2).distance(Location::new(1, 6)), 12);
    assert_eq!(Location::new(5, 5).distance(Location::new(5, 5)), 0);
    assert_eq!(Location::new(0, 0).distance(Location::new(u16::MAX, u16::MAX)), 131070);
}

#[test]
fn new_grid_is_empty() {
    let g = Grid::new();
    assert!(g.is_free(Location::new(0, 0)));
    assert!(g.is_free(Location::new(39, 39)));
    assert!(g.object(Location::new(10, 10)).is_none());
    assert!(g.has_room());
}

#[test]
fn is_free_twice_gives_the_same_answer() {
    let mut g = Grid::new();
    let l = Location::new(2, 2);
    assert_eq!(g.is_free(l), g.is_free(l));
    g.add_object(GO::Obstacle(l)).unwrap();
    let first = g.is_free(l);
    let second = g.is_free(l);
    assert!(!first);
    assert_eq!(first, second);
}

#[test]
fn add_object_places_and_refuses() {
    let mut g = Grid::new();
    let l = Location::new(4, 6);
    let o = g.add_object(GO::Hole(HoleState { location: l })).unwrap();
    assert_eq!(o, 0);
    assert_eq!(g.object(l), Some(&GO::Hole(HoleState { location: l })));
    assert_eq!(g.occupant_at(l), Some(0));
    assert!(g.add_object(GO::Obstacle(l)).is_none());
    assert!(g.add_object(GO::Obstacle(Location::new(40, 0))).is_none());
    let mut bad = AgentState {
        location: Location::new(1, 1),
        id: 1,
        score: 0,
        tile: Some(o),
        hole: None,
        has_tile: false,
        state: State::Idle,
    };
    assert!(g.add_object(GO::Agent(bad)).is_none());
    bad.tile = None;
    bad.hole = Some(o);
    assert_eq!(g.add_object(GO::Agent(bad)), Some(1));
}

#[test]
fn move_object_relocates() {
    let mut g = Grid::new();
    let a = Location::new(1, 1);
    let b = Location::new(1, 2);
    let o = g.add_object(GO::Tile(TileState { location: a, score: 3 })).unwrap();
    g.move_object(o, a, b);
    assert!(g.is_free(a));
    assert!(!g.is_free(b));
    assert_eq!(g.entity(o), &GO::Tile(TileState { location: b, score: 3 }));
}

#[test]
fn random_location_is_free_and_on_the_world() {
    let mut g = Grid::new();
    for c in 0..COLS {
        for r in 0..ROWS {
            if (c, r) != (17, 23) {
                g.add_object(GO::Obstacle(Location::new(c, r))).unwrap();
            }
        }
    }
    assert!(g.has_room());
    assert_eq!(g.random_location(), Location::new(17, 23));
    g.add_object(GO::Obstacle(Location::new(17, 23))).unwrap();
    assert!(!g.has_room());
    let h = Grid::new();
    for _ in 0..50 {
        let l = h.random_location();
        assert!(l.col < COLS && l.row < ROWS);
    }
}

#[test]
fn create_objects_places_everything() {
    let mut g = Grid::new();
    let (agents, tiles, holes) = g.create_objects(6, 20, 20, 20);
    assert_eq!(agents.len(), 6);
    assert_eq!(tiles.len(), 20);
    assert_eq!(holes.len(), 20);
    for (k, a) in agents.iter().enumerate() {
        let st = agent_state(&g, *a);
        assert_eq!(st.id as usize, k + 1);
        assert_eq!(st.state, State::Idle);
        assert_eq!(st.score, 0);
        assert_eq!(g.object(st.location), Some(g.entity(*a)));
    }
    for t in &tiles {
        match g.entity(*t) {
            GO::Tile(ts) => {
                assert!(1 <= ts.score && ts.score <= 5);
                assert_eq!(g.occupant_at(ts.location), Some(*t));
            }
            _ => panic!("not a tile"),
        }
    }
    for h in &holes {
        assert!(matches!(g.entity(*h), GO::Hole(_)));
    }
    let mut occupied = 0;
    for c in 0..COLS {
        for r in 0..ROWS {
            if !g.is_free(Location::new(c, r)) {
                occupied += 1;
            }
        }
    }
    assert_eq!(occupied, 66);
    assert!(66 < CELLS);
}

#[test]
fn closest_picks_nearest_and_first_of_equals() {
    let mut g = Grid::new();
    let far = g.add_object(GO::Tile(TileState { location: Location::new(9, 9), score: 1 })).unwrap();
    let near_a = g.add_object(GO::Tile(TileState { location: Location::new(2, 0), score: 1 })).unwrap();
    let near_b = g.add_object(GO::Tile(TileState { location: Location::new(0, 2), score: 1 })).unwrap();
    let here = Location::new(0, 0);
    assert_eq!(get_closest(&g, &[far, near_a, near_b], here), Some(near_a));
    assert_eq!(get_closest(&g, &[far, near_b, near_a], here), Some(near_b));
    assert_eq!(get_closest(&g, &[far], here), Some(far));
    assert_eq!(get_closest(&g, &[], here), None);
}

#[test]
fn idle_agent_targets_the_only_tile() {
    let mut g = Grid::new();
    let a = g.add_object(agent_at(Location::new(0, 0), 1, State::Idle)).unwrap();
    let t = g.add_object(GO::Tile(TileState { location: Location::new(1, 2), score: 3 })).unwrap();
    assert_eq!(Location::new(0, 0).distance(Location::new(1, 2)), 3);
    g.update(&[a], &[t], &[]);
    let st = agent_state(&g, a);
    assert_eq!(st.state, State::MoveToTile);
    assert_eq!(st.tile, Some(t));
    assert_eq!(st.location, Location::new(0, 0));
}

#[test]
fn idle_agent_without_tiles_stays_idle() {
    let mut g = Grid::new();
    let a = g.add_object(agent_at(Location::new(3, 3), 1, State::Idle)).unwrap();
    g.update(&[a], &[], &[]);
    let st = agent_state(&g, a);
    assert_eq!(st.state, State::Idle);
    assert_eq!(st.tile, None);
}

#[test]
fn agent_collects_tile_and_scores_at_hole() {
    let mut g = Grid::new();
    let a = g.add_object(agent_at(Location::new(3, 1), 1, State::Idle)).unwrap();
    let t = g.add_object(GO::Tile(TileState { location: Location::new(3, 3), score: 4 })).unwrap();
    let h = g.add_object(GO::Hole(HoleState { location: Location::new(3, 5) })).unwrap();
    let tiles = [t];
    let holes = [h];
    g.update(&[a], &tiles, &holes);
    assert_eq!(agent_state(&g, a).state, State::MoveToTile);
    g.update(&[a], &tiles, &holes);
    assert_eq!(agent_state(&g, a).location, Location::new(3, 2));
    g.update(&[a], &tiles, &holes);
    assert_eq!(agent_state(&g, a).location, Location::new(3, 3));
    assert_eq!(g.occupant_at(Location::new(3, 3)), Some(a));
    g.update(&[a], &tiles, &holes);
    let st = agent_state(&g, a);
    assert!(st.has_tile);
    assert_eq!(st.state, State::MoveToHole);
    assert_eq!(st.hole, Some(h));
    assert_eq!(st.location, Location::new(3, 3));
    match g.entity(t) {
        GO::Tile(ts) => {
            assert_eq!(ts.score, 4);
            assert_ne!(ts.location, Location::new(3, 3));
            assert_eq!(g.occupant_at(ts.location), Some(t));
        }
        _ => panic!("not a tile"),
    }
    let mut ticks = 0;
    while agent_state(&g, a).has_tile {
        g.update(&[a], &tiles, &holes);
        ticks += 1;
        assert!(ticks < 20);
    }
    let st = agent_state(&g, a);
    assert_eq!(st.location, Location::new(3, 5));
    assert_eq!(st.score, 4);
    assert!(!st.has_tile);
    assert_eq!(st.state, State::MoveToTile);
    assert_eq!(st.tile, Some(t));
    assert_ne!(g.entity(h).location(), &Location::new(3, 5));
    assert_eq!(g.entity(a).score(), 4);
}

#[test]
fn blocked_agent_waits() {
    let mut g = Grid::new();
    let a = g.add_object(agent_at(Location::new(0, 0), 1, State::MoveToTile)).unwrap();
    let t = g.add_object(GO::Tile(TileState { location: Location::new(0, 2), score: 1 })).unwrap();
    g.add_object(GO::Obstacle(Location::new(0, 1))).unwrap();
    g.add_object(GO::Obstacle(Location::new(1, 0))).unwrap();
    g.update(&[a], &[t], &[]);
    let st = agent_state(&g, a);
    assert_eq!(st.location, Location::new(0, 0));
    assert_eq!(st.tile, Some(t));
    assert_eq!(st.state, State::MoveToTile);
}

#[test]
fn agent_without_tiles_to_chase_goes_idle() {
    let mut g = Grid::new();
    let a = g.add_object(agent_at(Location::new(0, 0), 1, State::MoveToTile)).unwrap();
    g.update(&[a], &[], &[]);
    assert_eq!(agent_state(&g, a).state, State::Idle);
}

#[test]
fn entity_accessors() {
    let mut e = GO::Tile(TileState { location: Location::new(1, 2), score: 5 });
    assert_eq!(e.score(), 5);
    assert_eq!(e.location(), &Location::new(1, 2));
    e.set_location(Location::new(3, 4));
    assert_eq!(e.location(), &Location::new(3, 4));
    let mut o = GO::Obstacle(Location::new(1, 1));
    o.set_location(Location::new(2, 2));
    assert_eq!(o.location(), &Location::new(1, 1));
    assert_eq!(o.score(), 0);
    assert_eq!(GO::Hole(HoleState { location: Location::new(0, 0) }).score(), 0);
    let st = AgentState {
        location: Location::new(0, 0),
        id: 7,
        score: 12,
        tile: None,
        hole: None,
        has_tile: false,
        state: State::Idle,
    };
    let info = AgentInfo::from(&st);
    assert_eq!(info, AgentInfo { id: 7, score: 12 });
    assert_eq!(GO::Agent(st).score(), 12);
}
