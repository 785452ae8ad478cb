use grid_planner::config::{AppConfig, ConfigError};
use grid_planner::grid_map::GridPosition;

#[test]
fn default_config_is_valid() {
    let config = AppConfig::default();

    assert_eq!(config.validate(), Ok(()));
}

#[test]
fn zero_width_is_invalid() {
    let mut config = AppConfig::default();
    config.map_width = 0;

    assert_eq!(config.validate(), Err(ConfigError::ZeroWidth));
}

#[test]
fn zero_height_is_invalid() {
    let mut config = AppConfig::default();
    config.map_height = 0;

    assert_eq!(config.validate(), Err(ConfigError::ZeroHeight));
}

#[test]
fn start_must_be_in_bounds() {
    let mut config = AppConfig::default();
    config.start = GridPosition { x: 99, y: 0 };

    assert_eq!(config.validate(), Err(ConfigError::StartOutOfBounds));
}

#[test]
fn goal_must_be_in_bounds() {
    let mut config = AppConfig::default();
    config.goal = GridPosition { x: 99, y: 0 };

    assert_eq!(config.validate(), Err(ConfigError::GoalOutOfBounds));
}

#[test]
fn obstacles_must_be_in_bounds() {
    let mut config = AppConfig::default();
    config.obstacles.push(GridPosition { x: 99, y: 0 });

    assert_eq!(config.validate(), Err(ConfigError::ObstacleOutOfBounds));
}

#[test]
fn default_config_has_documented_values() {
    let config = AppConfig::default();

    assert_eq!(config.map_width, 3);
    assert_eq!(config.map_height, 3);
    assert_eq!(config.start, GridPosition { x: 0, y: 0 });
    assert_eq!(config.goal, GridPosition { x: 2, y: 2 });
    assert_eq!(
        config.obstacles,
        vec![GridPosition { x: 1, y: 0 }, GridPosition { x: 1, y: 1 }]
    );
}

#[test]
fn first_failing_check_decides_the_error() {
    let mut config = AppConfig::default();
    config.map_width = 0;
    config.map_height = 0;
    config.start = GridPosition { x: 99, y: 99 };

    assert_eq!(config.validate(), Err(ConfigError::ZeroWidth));

    config.map_width = 3;
    assert_eq!(config.validate(), Err(ConfigError::ZeroHeight));

    config.map_height = 3;
    config.goal = GridPosition { x: 0, y: 7 };
    assert_eq!(config.validate(), Err(ConfigError::StartOutOfBounds));

    config.start = GridPosition { x: 0, y: 0 };
    config.obstacles.push(GridPosition { x: 3, y: 0 });
    assert_eq!(config.validate(), Err(ConfigError::GoalOutOfBounds));
}

#[test]
fn obstacle_on_the_edge_is_in_bounds() {
    let mut config = AppConfig::default();
    config.obstacles.push(GridPosition { x: 2, y: 2 });
    config.obstacles.push(GridPosition { x: 0, y: 2 });

    assert_eq!(config.validate(), Ok(()));

    config.obstacles.push(GridPosition { x: 2, y: 3 });
    assert_eq!(config.validate(), Err(ConfigError::ObstacleOutOfBounds));
}

#[test]
fn cloned_config_is_equal() {
    let config = AppConfig::default();

    assert_eq!(config.clone(), config);
}
