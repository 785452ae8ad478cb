use grid_planner::grid_map::{GridMap, GridMapError, GridPosition};

#[test]
fn create_map_with_given_size() {
    let map = GridMap::new(3, 2);

    assert_eq!(map.width(), 3);
    assert_eq!(map.height(), 2);
}

#[test]
fn point_inside_map_is_in_bounds() {
    let map = GridMap::new(3, 2);

    assert_eq!(map.in_bounds(GridPosition { x: 2, y: 1 }), true);
}

#[test]
fn point_outside_map_is_not_in_bounds() {
    let map = GridMap::new(3, 2);

    assert_eq!(map.in_bounds(GridPosition { x: 3, y: 1 }), false);
}

#[test]
fn can_set_obstacle_and_read_it() {
    let mut map = GridMap::new(3, 2);

    map.set_walkable(GridPosition { x: 1, y: 1 }, false).unwrap();

    assert_eq!(map.is_walkable(GridPosition { x: 1, y: 1 }), Ok(false));
}

#[test]
fn out_of_bounds_position_returns_error() {
    let map = GridMap::new(3, 2);

    assert_eq!(
        map.is_walkable(GridPosition { x: 5, y: 0 }),
        Err(GridMapError::OutOfBounds)
    );
}

#[test]
fn set_walkable_returns_error_for_out_of_bounds_position() {
    let mut map = GridMap::new(3, 2);

    assert_eq!(
        map.set_walkable(GridPosition { x: 9, y: 0 }, false),
        Err(GridMapError::OutOfBounds)
    );
}

#[test]
fn middle_position_returns_four_neighbors() {
    let map = GridMap::new(3, 3);

    assert_eq!(
        map.neighbors(GridPosition { x: 1, y: 1 }),
        Ok(vec![
            GridPosition { x: 1, y: 0 },
            GridPosition { x: 2, y: 1 },
            GridPosition { x: 1, y: 2 },
            GridPosition { x: 0, y: 1 },
        ])
    );
}

#[test]
fn obstacle_neighbor_is_filtered_out() {
    let mut map = GridMap::new(3, 3);

    map.set_walkable(GridPosition { x: 2, y: 1 }, false).unwrap();

    assert_eq!(
        map.neighbors(GridPosition { x: 1, y: 1 }),
        Ok(vec![
            GridPosition { x: 1, y: 0 },
            GridPosition { x: 1, y: 2 },
            GridPosition { x: 0, y: 1 },
        ])
    );
}

#[test]
fn out_of_bounds_position_has_no_neighbors() {
    let map = GridMap::new(3, 3);

    assert_eq!(
        map.neighbors(GridPosition { x: 10, y: 10 }),
        Err(GridMapError::OutOfBounds)
    );
}

#[test]
fn new_map_is_walkable_everywhere() {
    let map = GridMap::new(4, 2);

    for y in 0..2 {
        for x in 0..4 {
            assert_eq!(map.is_walkable(GridPosition { x, y }), Ok(true));
        }
    }
}

#[test]
fn empty_map_has_no_cells() {
    let map = GridMap::new(0, 5);

    assert_eq!(map.in_bounds(GridPosition { x: 0, y: 0 }), false);
    assert_eq!(
        map.is_walkable(GridPosition { x: 0, y: 0 }),
        Err(GridMapError::OutOfBounds)
    );
}

#[test]
fn writing_a_cell_leaves_the_others_alone() {
    let mut map = GridMap::new(3, 2);

    map.set_walkable(GridPosition { x: 2, y: 0 }, false).unwrap();
    map.set_walkable(GridPosition { x: 0, y: 1 }, false).unwrap();
    map.set_walkable(GridPosition { x: 2, y: 0 }, true).unwrap();

    assert_eq!(map.is_walkable(GridPosition { x: 2, y: 0 }), Ok(true));
    assert_eq!(map.is_walkable(GridPosition { x: 0, y: 1 }), Ok(false));
    assert_eq!(map.is_walkable(GridPosition { x: 1, y: 1 }), Ok(true));
    assert_eq!(map.is_walkable(GridPosition { x: 0, y: 0 }), Ok(true));
}

#[test]
fn corner_position_has_two_neighbors() {
    let map = GridMap::new(3, 3);

    assert_eq!(
        map.neighbors(GridPosition { x: 0, y: 0 }),
        Ok(vec![GridPosition { x: 1, y: 0 }, GridPosition { x: 0, y: 1 }])
    );
    assert_eq!(
        map.neighbors(GridPosition { x: 2, y: 2 }),
        Ok(vec![GridPosition { x: 2, y: 1 }, GridPosition { x: 1, y: 2 }])
    );
}

#[test]
fn neighbors_are_mutual() {
    let mut map = GridMap::new(3, 3);
    map.set_walkable(GridPosition { x: 1, y: 0 }, false).unwrap();

    let here = GridPosition { x: 1, y: 1 };
    for next in map.neighbors(here).unwrap() {
        assert!(map.neighbors(next).unwrap().contains(&here));
    }
    assert!(!map
        .neighbors(here)
        .unwrap()
        .contains(&GridPosition { x: 1, y: 0 }));
}

#[test]
fn cloned_map_keeps_cells() {
    let mut map = GridMap::new(2, 2);
    map.set_walkable(GridPosition { x: 1, y: 1 }, false).unwrap();
    let copy = map.clone();

    assert_eq!(copy.width(), 2);
    assert_eq!(copy.is_walkable(GridPosition { x: 1, y: 1 }), Ok(false));
    assert_eq!(copy.is_walkable(GridPosition { x: 0, y: 1 }), Ok(true));
}
