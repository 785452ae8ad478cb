use grid_planner::grid_map::{GridMap, GridPosition};
use grid_planner::path_planning::{
    heuristic, reconstruct_path, should_update_cost, AStartPlanner, Frontier, FrontierEntry,
    PathPlanner, PathPlanningError, PositionMap,
};

fn is_adjacent(a: GridPosition, b: GridPosition) -> bool {
    a.x.abs_diff(b.x) + a.y.abs_diff(b.y) == 1
}

fn assert_valid_path(map: &GridMap, path: &[GridPosition], start: GridPosition, goal: GridPosition) {
    assert_eq!(path.first().copied(), Some(start));
    assert_eq!(path.last().copied(), Some(goal));
    for p in path {
        assert_eq!(map.is_walkable(*p), Ok(true));
    }
    for pair in path.windows(2) {
        assert!(is_adjacent(pair[0], pair[1]));
    }
}

#[test]
fn returns_start_out_of_bounds_when_start_is_invalid() {
    let planner = AStartPlanner;
    let map = GridMap::new(3, 3);

    assert_eq!(
        planner.plan(&map, GridPosition { x: 9, y: 0 }, GridPosition { x: 1, y: 1 }),
        Err(PathPlanningError::StartOutOfBounds)
    );
}

#[test]
fn returns_goal_out_of_bounds_when_goal_is_invalid() {
    let planner = AStartPlanner;
    let map = GridMap::new(3, 3);

    assert_eq!(
        planner.plan(&map, GridPosition { x: 0, y: 0 }, GridPosition { x: 9, y: 9 }),
        Err(PathPlanningError::GoalOutOfBounds)
    );
}

#[test]
fn returns_start_blocked_when_start_cannot_be_walked() {
    let planner = AStartPlanner;
    let mut map = GridMap::new(3, 3);

    map.set_walkable(GridPosition { x: 0, y: 0 }, false).unwrap();

    assert_eq!(
        planner.plan(&map, GridPosition { x: 0, y: 0 }, GridPosition { x: 2, y: 2 }),
        Err(PathPlanningError::StartBlocked)
    );
}

#[test]
fn returns_goal_blocked_when_goal_cannot_be_walked() {
    let planner = AStartPlanner;
    let mut map = GridMap::new(3, 3);

    map.set_walkable(GridPosition { x: 2, y: 2 }, false).unwrap();

    assert_eq!(
        planner.plan(&map, GridPosition { x: 0, y: 0 }, GridPosition { x: 2, y: 2 }),
        Err(PathPlanningError::GoalBlocked)
    );
}

#[test]
fn returns_single_point_path_when_start_equals_goal() {
    let planner = AStartPlanner;
    let map = GridMap::new(3, 3);
    let point = GridPosition { x: 1, y: 1 };

    assert_eq!(planner.plan(&map, point, point), Ok(vec![point]));
}

#[test]
fn finds_path_on_open_grid() {
    let planner = AStartPlanner;
    let map = GridMap::new(3, 3);

    let path = planner
        .plan(&map, GridPosition { x: 0, y: 0 }, GridPosition { x: 2, y: 2 })
        .unwrap();

    assert_eq!(path.first().copied(), Some(GridPosition { x: 0, y: 0 }));
    assert_eq!(path.last().copied(), Some(GridPosition { x: 2, y: 2 }));
    assert_eq!(path.len(), 5);
}

#[test]
fn returns_no_path_found_when_goal_is_unreachable() {
    let planner = AStartPlanner;
    let mut map = GridMap::new(3, 3);

    map.set_walkable(GridPosition { x: 1, y: 0 }, false).unwrap();
    map.set_walkable(GridPosition { x: 0, y: 1 }, false).unwrap();

    assert_eq!(
        planner.plan(&map, GridPosition { x: 0, y: 0 }, GridPosition { x: 2, y: 2 }),
        Err(PathPlanningError::NoPathFound),
    )
}

#[test]
fn lower_priority_entry_is_popped_first() {
    let mut frontier = Frontier::new();

    frontier.push(FrontierEntry { position: GridPosition { x: 0, y: 0 }, priority: 5 });

    frontier.push(FrontierEntry { position: GridPosition { x: 1, y: 0 }, priority: 1 });

    let first = frontier.pop().unwrap();

    assert_eq!(first.position, GridPosition { x: 1, y: 0 });
    assert_eq!(first.priority, 1);
}

#[test]
fn hash_map_can_store_and_read_cost() {
    let start = GridPosition { x: 0, y: 0 };
    let mut cost_so_far: PositionMap<usize> = PositionMap::new(3, 3);

    cost_so_far.insert(start, 0);

    assert_eq!(cost_so_far.get(start), Some(0));
}

#[test]
fn hash_map_can_store_and_read_parent() {
    let start = GridPosition { x: 0, y: 0 };
    let goal = GridPosition { x: 1, y: 0 };
    let mut came_from: PositionMap<GridPosition> = PositionMap::new(3, 3);

    came_from.insert(goal, start);

    assert_eq!(came_from.get(goal), Some(start));
    assert_eq!(came_from.get(start), None);
}

#[test]
fn should_update_cost_for_new_position() {
    let cost_so_far: PositionMap<usize> = PositionMap::new(3, 3);

    assert_eq!(should_update_cost(&cost_so_far, GridPosition { x: 1, y: 1 }, 3), true);
}

#[test]
fn should_update_cost_when_new_cost_is_smaller() {
    let position = GridPosition { x: 1, y: 1 };
    let mut cost_so_far: PositionMap<usize> = PositionMap::new(3, 3);

    cost_so_far.insert(position, 5);

    assert_eq!(should_update_cost(&cost_so_far, position, 3), true);
}

#[test]
fn should_not_update_cost_when_new_cost_is_not_smaller() {
    let position = GridPosition { x: 1, y: 1 };
    let mut cost_so_far: PositionMap<usize> = PositionMap::new(3, 3);

    cost_so_far.insert(position, 3);

    assert_eq!(should_update_cost(&cost_so_far, position, 5), false);
}

#[test]
fn reconstruct_path_returns_full_path_when_chain_exists() {
    let start = GridPosition { x: 0, y: 0 };
    let middle = GridPosition { x: 1, y: 0 };
    let goal = GridPosition { x: 2, y: 0 };
    let mut came_from: PositionMap<GridPosition> = PositionMap::new(3, 3);

    came_from.insert(middle, start);
    came_from.insert(goal, middle);

    assert_eq!(reconstruct_path(&came_from, start, goal), Ok(vec![start, middle, goal]));
}

#[test]
fn reconstruct_path_returns_single_point_when_start_equals_goal() {
    let point = GridPosition { x: 1, y: 1 };
    let came_from: PositionMap<GridPosition> = PositionMap::new(3, 3);

    assert_eq!(reconstruct_path(&came_from, point, point), Ok(vec![point]));
}

#[test]
fn reconstruct_path_returns_error_when_chain_is_missing() {
    let start = GridPosition { x: 0, y: 0 };
    let goal = GridPosition { x: 2, y: 2 };
    let came_from: PositionMap<GridPosition> = PositionMap::new(3, 3);

    assert_eq!(
        reconstruct_path(&came_from, start, goal),
        Err(PathPlanningError::NoPathFound)
    );
}

#[test]
fn heuristic_is_zero_from_same_point() {
    let point = GridPosition { x: 1, y: 1 };

    assert_eq!(heuristic(point, point), 0);
}

#[test]
fn heuristic_returns_manhattan_distance() {
    let from = GridPosition { x: 1, y: 2 };
    let to = GridPosition { x: 4, y: 6 };

    assert_eq!(heuristic(from, to), 7);
}

#[test]
fn heuristic_is_symmetric() {
    let a = GridPosition { x: 7, y: 1 };
    let b = GridPosition { x: 2, y: 9 };

    assert_eq!(heuristic(a, b), 13);
    assert_eq!(heuristic(b, a), 13);
}

#[test]
fn plan_finds_shortest_way_around_a_wall() {
    let planner = AStartPlanner;
    let mut map = GridMap::new(5, 5);
    for y in 0..4 {
        map.set_walkable(GridPosition { x: 2, y }, false).unwrap();
    }
    let start = GridPosition { x: 0, y: 0 };
    let goal = GridPosition { x: 4, y: 0 };

    let path = planner.plan(&map, start, goal).unwrap();

    assert_valid_path(&map, &path, start, goal);
    assert_eq!(path.len(), 13);
}

#[test]
fn plan_on_the_default_scene_goes_around_the_obstacles() {
    let planner = AStartPlanner;
    let mut map = GridMap::new(3, 3);
    map.set_walkable(GridPosition { x: 1, y: 0 }, false).unwrap();
    map.set_walkable(GridPosition { x: 1, y: 1 }, false).unwrap();
    let start = GridPosition { x: 0, y: 0 };
    let goal = GridPosition { x: 2, y: 2 };

    let path = planner.plan(&map, start, goal).unwrap();

    assert_valid_path(&map, &path, start, goal);
    assert_eq!(path.len(), 5);
}

#[test]
fn plan_reports_start_before_goal() {
    let planner = AStartPlanner;
    let mut map = GridMap::new(3, 3);
    map.set_walkable(GridPosition { x: 0, y: 0 }, false).unwrap();
    map.set_walkable(GridPosition { x: 2, y: 2 }, false).unwrap();

    assert_eq!(
        planner.plan(&map, GridPosition { x: 0, y: 0 }, GridPosition { x: 2, y: 2 }),
        Err(PathPlanningError::StartBlocked)
    );
    assert_eq!(
        planner.plan(&map, GridPosition { x: 0, y: 0 }, GridPosition { x: 7, y: 2 }),
        Err(PathPlanningError::GoalOutOfBounds)
    );
    assert_eq!(
        planner.plan(&map, GridPosition { x: 9, y: 0 }, GridPosition { x: 7, y: 2 }),
        Err(PathPlanningError::StartOutOfBounds)
    );
}

#[test]
fn plan_on_a_single_row_walks_straight() {
    let planner = AStartPlanner;
    let map = GridMap::new(6, 1);
    let start = GridPosition { x: 5, y: 0 };
    let goal = GridPosition { x: 0, y: 0 };

    let path = planner.plan(&map, start, goal).unwrap();

    assert_eq!(
        path,
        (0..6).rev().map(|x| GridPosition { x, y: 0 }).collect::<Vec<_>>()
    );
}

#[test]
fn frontier_pops_by_priority_then_row_then_column() {
    let mut frontier = Frontier::new();
    frontier.push(FrontierEntry { position: GridPosition { x: 3, y: 1 }, priority: 4 });
    frontier.push(FrontierEntry { position: GridPosition { x: 0, y: 2 }, priority: 4 });
    frontier.push(FrontierEntry { position: GridPosition { x: 1, y: 1 }, priority: 4 });
    frontier.push(FrontierEntry { position: GridPosition { x: 9, y: 9 }, priority: 2 });

    assert_eq!(frontier.len(), 4);
    assert_eq!(frontier.pop().unwrap().position, GridPosition { x: 9, y: 9 });
    assert_eq!(frontier.pop().unwrap().position, GridPosition { x: 1, y: 1 });
    assert_eq!(frontier.pop().unwrap().position, GridPosition { x: 3, y: 1 });
    assert_eq!(frontier.pop().unwrap().position, GridPosition { x: 0, y: 2 });
    assert_eq!(frontier.pop(), None);
}

#[test]
fn position_map_insert_replaces_and_reports_old_value() {
    let mut costs: PositionMap<usize> = PositionMap::new(2, 2);
    let p = GridPosition { x: 1, y: 1 };

    assert_eq!(costs.insert(p, 9), None);
    assert_eq!(costs.insert(p, 4), Some(9));
    assert_eq!(costs.get(p), Some(4));
    assert_eq!(costs.get(GridPosition { x: 0, y: 1 }), None);
    assert_eq!(costs.get(GridPosition { x: 5, y: 5 }), None);
}

#[test]
fn reconstruct_path_stops_at_dead_end() {
    let start = GridPosition { x: 0, y: 0 };
    let goal = GridPosition { x: 2, y: 0 };
    let mut came_from: PositionMap<GridPosition> = PositionMap::new(3, 3);
    came_from.insert(goal, GridPosition { x: 2, y: 1 });
    came_from.insert(GridPosition { x: 2, y: 1 }, GridPosition { x: 1, y: 1 });

    assert_eq!(
        reconstruct_path(&came_from, start, goal),
        Err(PathPlanningError::NoPathFound)
    );
}

#[test]
fn entry_precedence_orders_priority_then_row_then_column() {
    let a = FrontierEntry { position: GridPosition { x: 5, y: 0 }, priority: 1 };
    let b = FrontierEntry { position: GridPosition { x: 0, y: 3 }, priority: 2 };
    let c = FrontierEntry { position: GridPosition { x: 1, y: 3 }, priority: 2 };

    assert!(a.precedes(&b));
    assert!(b.precedes(&c));
    assert!(!c.precedes(&b));
    assert!(!a.precedes(&a));
}

#[test]
fn plan_breaks_ties_by_priority_then_row_then_column() {
    let planner = AStartPlanner;
    let map = GridMap::new(3, 3);

    assert_eq!(
        planner.plan(&map, GridPosition { x: 0, y: 0 }, GridPosition { x: 2, y: 2 }),
        Ok(vec![
            GridPosition { x: 0, y: 0 },
            GridPosition { x: 1, y: 0 },
            GridPosition { x: 2, y: 0 },
            GridPosition { x: 2, y: 1 },
            GridPosition { x: 2, y: 2 },
        ])
    );
}
