use tileworld::astar::astar;
use tileworld::grid::Grid;
use tileworld::location::{Direction, Location};
use tileworld::objects::{TileState, GO};

fn follow(from: Location, path: &[Direction]) -> Location {
    let mut l = from;
    for d in path {
        assert!(l.is_valid_move(*d));
        l = l.next_location(*d);
    }
    l
}

#[test]
fn test_path() {
    let grid = Grid::new();
    let from = Location::new(0, 0);
    let to = Location::new(1, 1);
    let path = astar(&grid, from, to);
    let p = path.unwrap();
    assert_eq!(p.len(), 2);
    assert_eq!(p[0], Direction::Down);
    assert_eq!(p[1], Direction::Right);
}

#[test]
fn test_path2() {
    let grid = Grid::new();
    let from = Location::new(0, 0);
    let to = Location::new(0, 1);
    let path = astar(&grid, from, to);
    let p = path.unwrap();
    assert_eq!(p.len(), 1);
    assert_eq!(p[0], Direction::Down);
}

#[test]
fn test_path3() {
    let grid = Grid::new();
    let from = Location::new(0, 0);
    let to = Location::new(2, 2);
    let path = astar(&grid, from, to);
    let p = path.unwrap();
    println!("{:?}", p);
    assert_eq!(p.len(), 4);
    assert_eq!(p[0], Direction::Down);
    assert_eq!(p[1], Direction::Right);
    assert_eq!(p[2], Direction::Right);
    assert_eq!(p[3], Direction::Down);
}

#[test]
fn test_path_obstacle() {
    let mut grid = Grid::new();
    let from = Location::new(0, 0);
    let to = Location::new(1, 1);
    let obst_location = Location { col: 1, row: 0 };
    assert!(grid.add_object(GO::Obstacle(obst_location)).is_some());
    let path = astar(&grid, from, to);
    let p = path.unwrap();
    assert_eq!(p.len(), 2);
    assert_eq!(p[0], Direction::Down);
    assert_eq!(p[1], Direction::Right);
}

#[test]
fn test_big_grid() {
    let grid = Grid::new();
    let from = Location::new(0, 0);
    let to = Location::new(9, 9);
    let path = astar(&grid, from, to);
    assert!(path.is_some());
    let p = path.unwrap();
    assert_eq!(p.len(), 18);
}

#[test]
fn test_can_not_reach() {
    let grid = Grid::new();
    let from = Location::new(0, 0);
    let to = Location::new(100, 100);
    let path = astar(&grid, from, to);
    assert!(path.is_none());
}

#[test]
fn same_cell_gives_empty_path() {
    let mut grid = Grid::new();
    grid.add_object(GO::Obstacle(Location::new(4, 5))).unwrap();
    for l in [Location::new(0, 0), Location::new(7, 3), Location::new(39, 39)] {
        let p = astar(&grid, l, l).unwrap();
        assert!(p.is_empty());
    }
}

#[test]
fn open_grid_path_has_manhattan_length_and_reaches_target() {
    let grid = Grid::new();
    let from = Location::new(3, 17);
    let to = Location::new(12, 5);
    let p = astar(&grid, from, to).unwrap();
    assert_eq!(p.len() as u32, from.distance(to));
    assert_eq!(p.len(), 21);
    assert_eq!(follow(from, &p), to);
}

#[test]
fn obstacle_forces_path_through_other_corner() {
    let mut grid = Grid::new();
    grid.add_object(GO::Obstacle(Location::new(1, 0))).unwrap();
    let p = astar(&grid, Location::new(0, 0), Location::new(1, 1)).unwrap();
    assert_eq!(p.len(), 2);
    assert_eq!(Location::new(0, 0).next_location(p[0]), Location::new(0, 1));
    assert_eq!(follow(Location::new(0, 0), &p), Location::new(1, 1));
}

#[test]
fn boxed_in_target_is_unreachable() {
    let mut grid = Grid::new();
    for l in [
        Location::new(5, 4),
        Location::new(5, 6),
        Location::new(4, 5),
        Location::new(6, 5),
    ] {
        grid.add_object(GO::Obstacle(l)).unwrap();
    }
    assert!(astar(&grid, Location::new(0, 0), Location::new(5, 5)).is_none());
}

#[test]
fn wall_makes_a_detour() {
    let mut grid = Grid::new();
    for r in 0..3 {
        grid.add_object(GO::Obstacle(Location::new(1, r))).unwrap();
    }
    let from = Location::new(0, 0);
    let to = Location::new(2, 0);
    let p = astar(&grid, from, to).unwrap();
    assert_eq!(p.len(), 8);
    assert_eq!(follow(from, &p), to);
    let mut l = from;
    for d in &p {
        l = l.next_location(*d);
        assert!(l == to || grid.is_free(l));
    }
}

#[test]
fn occupied_target_can_be_reached() {
    let mut grid = Grid::new();
    let to = Location::new(2, 3);
    grid.add_object(GO::Tile(TileState { location: to, score: 4 })).unwrap();
    let p = astar(&grid, Location::new(2, 0), to).unwrap();
    assert_eq!(p, vec![Direction::Down, Direction::Down, Direction::Down]);
}

#[test]
fn occupied_cell_on_the_way_is_avoided() {
    let mut grid = Grid::new();
    grid.add_object(GO::Tile(TileState { location: Location::new(0, 1), score: 2 })).unwrap();
    let p = astar(&grid, Location::new(0, 0), Location::new(0, 2)).unwrap();
    assert_eq!(p.len(), 4);
    assert_eq!(p[0], Direction::Right);
}

#[test]
fn corner_cell_enclosed_is_unreachable() {
    let mut grid = Grid::new();
    grid.add_object(GO::Obstacle(Location::new(38, 39))).unwrap();
    grid.add_object(GO::Obstacle(Location::new(39, 38))).unwrap();
    assert!(astar(&grid, Location::new(0, 0), Location::new(39, 39)).is_none());
    assert!(astar(&grid, Location::new(39, 39), Location::new(0, 0)).is_none());
}
