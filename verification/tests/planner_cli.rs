use grid_planner::config::AppConfig;
use grid_planner::demo::{
    build_demo_scene, build_map, build_task_from_scene, cell_symbol, coordinate_width,
    describe_step, parse_scene_id_arg, path_move_count, run_task, scene_id_or_default,
    step_directions, RunTaskError, DEFAULT_SCENE_ID,
};
use grid_planner::grid_map::{GridMap, GridPosition};
use grid_planner::path_planning::{AStartPlanner, PathPlanner, PathPlanningError};
use grid_planner::task_core::{DeliveryTask, TaskError, TaskState};

#[test]
fn parse_scene_id_arg_accepts_valid_number() {
    let arg = String::from("2");

    assert_eq!(parse_scene_id_arg(Some(&arg)), Ok(2));
}

#[test]
fn parse_scene_id_arg_rejects_non_number() {
    let arg = String::from("abc");

    assert_eq!(parse_scene_id_arg(Some(&arg)), Err("invalid"));
}

#[test]
fn parse_scene_id_arg_reports_missing_argument() {
    assert_eq!(parse_scene_id_arg(None), Err("missing"));
}

#[test]
fn build_task_from_scene_uses_scene_goal() {
    let scene = build_demo_scene(1);
    let task = build_task_from_scene(&scene);

    assert_eq!(task.destination(), scene.config.goal);
    assert_eq!(task.state(), TaskState::Pending);
}

#[test]
fn run_task_completes_task_when_path_exists() {
    let planner = AStartPlanner;
    let scene = build_demo_scene(1);
    let map = build_map(&scene.config);
    let mut task = build_task_from_scene(&scene);

    let result = run_task(&planner, &map, scene.config.start, &mut task);

    assert!(result.is_ok());
    assert_eq!(task.state(), TaskState::Completed);
}

#[test]
fn run_task_marks_task_failed_when_no_path_exists() {
    let planner = AStartPlanner;
    let scene = build_demo_scene(2);
    let map = build_map(&scene.config);
    let mut task = build_task_from_scene(&scene);

    let result = run_task(&planner, &map, scene.config.start, &mut task);

    assert_eq!(result, Err(RunTaskError::Planning(PathPlanningError::NoPathFound)));
    assert_eq!(task.state(), TaskState::Failed);
}

#[test]
fn parse_scene_id_arg_edge_cases() {
    assert_eq!(parse_scene_id_arg(Some(&String::from("255"))), Ok(255));
    assert_eq!(parse_scene_id_arg(Some(&String::from("+7"))), Ok(7));
    assert_eq!(parse_scene_id_arg(Some(&String::from("007"))), Ok(7));
    assert_eq!(parse_scene_id_arg(Some(&String::from("256"))), Err("invalid"));
    assert_eq!(parse_scene_id_arg(Some(&String::from(""))), Err("invalid"));
    assert_eq!(parse_scene_id_arg(Some(&String::from("+"))), Err("invalid"));
    assert_eq!(parse_scene_id_arg(Some(&String::from("-1"))), Err("invalid"));
    assert_eq!(parse_scene_id_arg(Some(&String::from(" 1"))), Err("invalid"));
}

#[test]
fn demo_scenes_have_their_names() {
    let basic = build_demo_scene(1);
    assert_eq!(basic.name, "basic");
    assert_eq!(basic.config, AppConfig::default());

    let blocked = build_demo_scene(2);
    assert_eq!(blocked.name, "blocked_start");
    assert_eq!(
        blocked.config.obstacles,
        vec![GridPosition { x: 1, y: 0 }, GridPosition { x: 0, y: 1 }]
    );

    let other = build_demo_scene(9);
    assert_eq!(other.name, "empty");
    assert!(other.config.obstacles.is_empty());
    assert_eq!(other.config.validate(), Ok(()));
}

#[test]
fn build_map_blocks_exactly_the_obstacles() {
    let config = AppConfig::default();
    let map = build_map(&config);

    assert_eq!(map.width(), 3);
    assert_eq!(map.height(), 3);
    for y in 0..3 {
        for x in 0..3 {
            let p = GridPosition { x, y };
            assert_eq!(map.is_walkable(p), Ok(!config.obstacles.contains(&p)));
        }
    }
}

#[test]
fn run_task_refuses_a_task_that_is_not_pending() {
    let planner = AStartPlanner;
    let map = GridMap::new(3, 3);
    let mut task = DeliveryTask::new(4, GridPosition { x: 2, y: 2 });
    task.assign().unwrap();

    let result = run_task(&planner, &map, GridPosition { x: 0, y: 0 }, &mut task);

    assert_eq!(result, Err(RunTaskError::Task(TaskError::NotPending)));
    assert_eq!(task.state(), TaskState::Assigned);
}

#[test]
fn run_task_on_empty_scene_returns_shortest_path() {
    let planner = AStartPlanner;
    let scene = build_demo_scene(3);
    let map = build_map(&scene.config);
    let mut task = build_task_from_scene(&scene);

    let path = run_task(&planner, &map, scene.config.start, &mut task).unwrap();

    assert_eq!(path.len(), 5);
    assert_eq!(path[0], scene.config.start);
    assert_eq!(path[4], scene.config.goal);
    assert_eq!(task.state(), TaskState::Completed);
}

#[test]
fn run_task_fails_task_when_goal_is_out_of_bounds() {
    let planner = AStartPlanner;
    let map = GridMap::new(3, 3);
    let mut task = DeliveryTask::new(4, GridPosition { x: 5, y: 2 });

    let result = run_task(&planner, &map, GridPosition { x: 0, y: 0 }, &mut task);

    assert_eq!(result, Err(RunTaskError::Planning(PathPlanningError::GoalOutOfBounds)));
    assert_eq!(task.state(), TaskState::Failed);
}

#[test]
fn describe_step_names_each_direction() {
    let here = GridPosition { x: 1, y: 1 };

    assert_eq!(describe_step(here, GridPosition { x: 2, y: 1 }), "→");
    assert_eq!(describe_step(here, GridPosition { x: 0, y: 1 }), "←");
    assert_eq!(describe_step(here, GridPosition { x: 1, y: 2 }), "↓");
    assert_eq!(describe_step(here, GridPosition { x: 1, y: 0 }), "↑");
    assert_eq!(describe_step(here, here), ".");
    assert_eq!(describe_step(here, GridPosition { x: 2, y: 0 }), "→");
}

#[test]
fn step_directions_follow_the_path() {
    let path = vec![
        GridPosition { x: 0, y: 0 },
        GridPosition { x: 0, y: 1 },
        GridPosition { x: 1, y: 1 },
        GridPosition { x: 1, y: 0 },
    ];

    assert_eq!(step_directions(&path), vec!["↓", "→", "↑"]);
    assert_eq!(path_move_count(&path), 3);
    assert_eq!(step_directions(&Vec::new()), Vec::<&str>::new());
    assert_eq!(path_move_count(&Vec::new()), 0);
    assert_eq!(path_move_count(&vec![GridPosition { x: 0, y: 0 }]), 0);
}

#[test]
fn cell_symbols_follow_precedence() {
    let mut map = GridMap::new(3, 3);
    map.set_walkable(GridPosition { x: 1, y: 1 }, false).unwrap();
    let start = GridPosition { x: 0, y: 0 };
    let goal = GridPosition { x: 2, y: 2 };
    let path = vec![start, GridPosition { x: 1, y: 0 }, goal];

    assert_eq!(cell_symbol(&map, &path, start, goal, start), 'S');
    assert_eq!(cell_symbol(&map, &path, start, goal, goal), 'G');
    assert_eq!(cell_symbol(&map, &path, start, goal, GridPosition { x: 1, y: 0 }), '*');
    assert_eq!(cell_symbol(&map, &path, start, goal, GridPosition { x: 0, y: 1 }), '.');
    assert_eq!(cell_symbol(&map, &path, start, goal, GridPosition { x: 1, y: 1 }), '#');
}

#[test]
fn coordinate_width_counts_digits_of_largest_index() {
    assert_eq!(coordinate_width(3, 3), 1);
    assert_eq!(coordinate_width(10, 3), 1);
    assert_eq!(coordinate_width(11, 3), 2);
    assert_eq!(coordinate_width(1, 101), 3);
    assert_eq!(coordinate_width(1, 1), 1);
}

#[test]
fn scene_id_falls_back_to_default() {
    assert_eq!(scene_id_or_default(Ok(2)), 2);
    assert_eq!(scene_id_or_default(Err("missing")), DEFAULT_SCENE_ID);
    assert_eq!(scene_id_or_default(Err("invalid")), 1);
    assert_eq!(scene_id_or_default(parse_scene_id_arg(Some(&String::from("x9")))), 1);
}

#[test]
fn run_task_returns_the_planners_walk() {
    let planner = AStartPlanner;
    let map = GridMap::new(3, 3);
    let start = GridPosition { x: 0, y: 0 };
    let goal = GridPosition { x: 2, y: 2 };
    let mut task = DeliveryTask::new(9, goal);

    let result = run_task(&planner, &map, start, &mut task);

    assert_eq!(result, Ok(planner.plan(&map, start, goal).unwrap()));
}
