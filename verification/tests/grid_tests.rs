use mazegen::Cell;
use mazegen::Maze;
use mazegen::Size;
use mazegen::TileDirection;
use mazegen::ALL_TILE_DIRECTIONS;

fn opposite(d: TileDirection) -> TileDirection {
    Maze::get_opposite(&d)
}

#[test]
fn cell_starts_without_walls() {
    let cell = Cell::new((2, 3));
    assert_eq!(cell.coord, (2, 3));
    for d in ALL_TILE_DIRECTIONS {
        assert!(!cell.is_wall_enabled(&d));
    }
}

#[test]
fn cell_enable_disable_wall() {
    let mut cell = Cell::new((0, 0));
    cell.enable_wall(&TileDirection::EAST);
    assert!(cell.is_wall_enabled(&TileDirection::EAST));
    assert!(!cell.is_wall_enabled(&TileDirection::WEST));
    cell.disable_wall(&TileDirection::EAST);
    assert!(!cell.is_wall_enabled(&TileDirection::EAST));
    // disabling a wall that is absent stays a no-op
    cell.disable_wall(&TileDirection::NORTH);
    assert!(!cell.is_wall_enabled(&TileDirection::NORTH));
}

#[test]
fn all_tile_directions_lists_each_direction_once() {
    assert_eq!(ALL_TILE_DIRECTIONS.len(), 4);
    for d in [
        TileDirection::NORTH,
        TileDirection::EAST,
        TileDirection::SOUTH,
        TileDirection::WEST,
    ] {
        assert_eq!(ALL_TILE_DIRECTIONS.iter().filter(|x| **x == d).count(), 1);
    }
}

#[test]
fn get_opposite_pairs() {
    assert_eq!(opposite(TileDirection::NORTH), TileDirection::SOUTH);
    assert_eq!(opposite(TileDirection::SOUTH), TileDirection::NORTH);
    assert_eq!(opposite(TileDirection::EAST), TileDirection::WEST);
    assert_eq!(opposite(TileDirection::WEST), TileDirection::EAST);
}

#[test]
fn new_maze_has_boundary_walls_only() {
    let size = Size { width: 3, height: 3 };
    let maze = Maze::new(&size);
    assert_eq!(maze.size, size);
    for i in 0..3 {
        for j in 0..3 {
            assert_eq!(maze.is_wall_enabled((i, j), &TileDirection::WEST), i == 0);
            assert_eq!(maze.is_wall_enabled((i, j), &TileDirection::EAST), i == 2);
            assert_eq!(maze.is_wall_enabled((i, j), &TileDirection::NORTH), j == 0);
            assert_eq!(maze.is_wall_enabled((i, j), &TileDirection::SOUTH), j == 2);
        }
    }
}

#[test]
fn non_square_maze_tests_each_side_against_its_own_axis() {
    // width and height differ, so a conflated boundary test would misplace
    // the EAST or SOUTH border
    let size = Size { width: 4, height: 2 };
    let maze = Maze::new(&size);
    assert!(maze.is_wall_enabled((3, 0), &TileDirection::EAST));
    assert!(!maze.is_wall_enabled((1, 0), &TileDirection::EAST));
    assert!(maze.is_wall_enabled((0, 1), &TileDirection::SOUTH));
    assert!(!maze.is_wall_enabled((0, 0), &TileDirection::SOUTH));
}

#[test]
fn is_valid_coord_bounds() {
    let maze = Maze::new(&Size { width: 2, height: 3 });
    assert!(maze.is_valid_coord(&(0, 0)));
    assert!(maze.is_valid_coord(&(1, 2)));
    assert!(!maze.is_valid_coord(&(2, 0)));
    assert!(!maze.is_valid_coord(&(0, 3)));
}

#[test]
fn get_cell_in_and_out_of_bounds() {
    let maze = Maze::new(&Size { width: 2, height: 2 });
    let cell = maze.get_cell((1, 0)).unwrap();
    assert_eq!(cell.coord, (1, 0));
    assert!(maze.get_cell((2, 0)).is_none());
    assert!(maze.get_cell((0, 2)).is_none());
}

#[test]
fn get_mut_cell_reaches_the_right_cell() {
    let mut maze = Maze::new(&Size { width: 2, height: 2 });
    let cell = maze.get_mut_cell((0, 1)).unwrap();
    assert_eq!(cell.coord, (0, 1));
    assert!(maze.get_mut_cell((5, 0)).is_none());
}

#[test]
fn mut_neighbor_shares_the_wall() {
    let mut maze = Maze::new(&Size { width: 2, height: 2 });
    {
        let (cell, shared) = maze
            .get_mut_neighbor_cell_and_shared_wall((0, 0), &TileDirection::EAST)
            .unwrap();
        assert_eq!(cell.coord, (1, 0));
        assert_eq!(shared, TileDirection::WEST);
        cell.enable_wall(&shared);
    }
    assert!(maze.is_wall_enabled((1, 0), &TileDirection::WEST));
    // a boundary direction has no neighbor
    assert!(maze
        .get_mut_neighbor_cell_and_shared_wall((0, 0), &TileDirection::NORTH)
        .is_none());
}

#[test]
fn neighbor_counts_by_position() {
    let maze = Maze::new(&Size { width: 3, height: 3 });
    // a corner has two in-bounds neighbors, an edge three, the middle four
    assert_eq!(maze.get_neighbor_cells_and_dir((0, 0)).len(), 2);
    assert_eq!(maze.get_neighbor_cells_and_dir((1, 0)).len(), 3);
    assert_eq!(maze.get_neighbor_cells_and_dir((1, 1)).len(), 4);
}

#[test]
fn neighbor_cells_carry_matching_directions() {
    let maze = Maze::new(&Size { width: 3, height: 3 });
    for (cell, dir) in maze.get_neighbor_cells_and_dir((1, 1)) {
        let expected = match dir {
            TileDirection::NORTH => (1, 0),
            TileDirection::EAST => (2, 1),
            TileDirection::SOUTH => (1, 2),
            TileDirection::WEST => (0, 1),
        };
        assert_eq!(cell.coord, expected);
    }
}

#[test]
fn enable_wall_updates_both_sides() {
    let mut maze = Maze::new(&Size { width: 3, height: 3 });
    maze.enable_wall((0, 0), &TileDirection::EAST);
    assert!(maze.is_wall_enabled((0, 0), &TileDirection::EAST));
    assert!(maze.is_wall_enabled((1, 0), &TileDirection::WEST));
    maze.disable_wall((1, 0), &TileDirection::WEST);
    assert!(!maze.is_wall_enabled((0, 0), &TileDirection::EAST));
    assert!(!maze.is_wall_enabled((1, 0), &TileDirection::WEST));
}

#[test]
fn boundary_walls_are_permanent() {
    let mut maze = Maze::new(&Size { width: 3, height: 3 });
    assert!(maze.is_wall_enabled((0, 1), &TileDirection::WEST));
    maze.disable_wall((0, 1), &TileDirection::WEST);
    assert!(maze.is_wall_enabled((0, 1), &TileDirection::WEST));
    maze.disable_all_walls();
    for i in 0..3 {
        assert!(maze.is_wall_enabled((i, 0), &TileDirection::NORTH));
        assert!(maze.is_wall_enabled((i, 2), &TileDirection::SOUTH));
        assert!(maze.is_wall_enabled((0, i), &TileDirection::WEST));
        assert!(maze.is_wall_enabled((2, i), &TileDirection::EAST));
    }
}

#[test]
fn enable_all_walls_fills_the_interior() {
    let mut maze = Maze::new(&Size { width: 3, height: 2 });
    maze.enable_all_walls();
    for i in 0..3 {
        for j in 0..2 {
            for d in ALL_TILE_DIRECTIONS {
                assert!(maze.is_wall_enabled((i, j), &d));
            }
        }
    }
}

#[test]
fn disable_all_walls_clears_the_interior() {
    let mut maze = Maze::new(&Size { width: 3, height: 2 });
    maze.enable_all_walls();
    maze.disable_all_walls();
    assert!(!maze.is_wall_enabled((0, 0), &TileDirection::EAST));
    assert!(!maze.is_wall_enabled((1, 0), &TileDirection::SOUTH));
    assert!(!maze.is_wall_enabled((1, 1), &TileDirection::WEST));
}

#[test]
fn wall_mutations_are_idempotent() {
    let size = Size { width: 3, height: 3 };
    let mut once = Maze::new(&size);
    once.enable_wall((1, 1), &TileDirection::EAST);
    let mut twice = Maze::new(&size);
    twice.enable_wall((1, 1), &TileDirection::EAST);
    twice.enable_wall((1, 1), &TileDirection::EAST);
    for i in 0..3 {
        for j in 0..3 {
            for d in ALL_TILE_DIRECTIONS {
                assert_eq!(
                    once.is_wall_enabled((i, j), &d),
                    twice.is_wall_enabled((i, j), &d)
                );
            }
        }
    }
    once.disable_wall((1, 1), &TileDirection::EAST);
    twice.disable_wall((1, 1), &TileDirection::EAST);
    twice.disable_wall((1, 1), &TileDirection::EAST);
    for i in 0..3 {
        for j in 0..3 {
            for d in ALL_TILE_DIRECTIONS {
                assert_eq!(
                    once.is_wall_enabled((i, j), &d),
                    twice.is_wall_enabled((i, j), &d)
                );
            }
        }
    }
}

#[test]
fn symmetry_holds_after_mutations() {
    let mut maze = Maze::new(&Size { width: 4, height: 3 });
    maze.enable_wall((1, 1), &TileDirection::SOUTH);
    maze.enable_wall((2, 0), &TileDirection::WEST);
    maze.disable_wall((1, 1), &TileDirection::SOUTH);
    for i in 0..4usize {
        for j in 0..3usize {
            if i + 1 < 4 {
                assert_eq!(
                    maze.is_wall_enabled((i, j), &TileDirection::EAST),
                    maze.is_wall_enabled((i + 1, j), &TileDirection::WEST)
                );
            }
            if j + 1 < 3 {
                assert_eq!(
                    maze.is_wall_enabled((i, j), &TileDirection::SOUTH),
                    maze.is_wall_enabled((i, j + 1), &TileDirection::NORTH)
                );
            }
        }
    }
}
