use vstd::prelude::*;

use crate::grid_map::GridPosition;

verus! {

/// The settings of a run: the map's size, where to start, where to go, and the
/// blocked cells.
#[derive(Debug, PartialEq, Eq)]
pub struct AppConfig {
    pub map_width: usize,
    pub map_height: usize,
    pub start: GridPosition,
    pub goal: GridPosition,
    pub obstacles: Vec<GridPosition>,
}

/// The first thing wrong with a configuration.
#[derive(Debug, Clone, Copy, PartialEq, Eq, Structural)]
pub enum ConfigError {
    ZeroWidth,
    ZeroHeight,
    StartOutOfBounds,
    GoalOutOfBounds,
    ObstacleOutOfBounds,
}

/// `p` lies inside a `width` by `height` map.
pub open spec fn inside(width: usize, height: usize, p: GridPosition) -> bool {
    p.x < width && p.y < height
}

/// The outcome of checking a configuration: the checks run in the order width, height,
/// start, goal, obstacles, and the first that fails decides the error.
pub open spec fn validation_outcome(
    width: usize,
    height: usize,
    start: GridPosition,
    goal: GridPosition,
    obstacles: Seq<GridPosition>,
) -> Result<(), ConfigError> {
    if width == 0 {
        Err(ConfigError::ZeroWidth)
    } else if height == 0 {
        Err(ConfigError::ZeroHeight)
    } else if !inside(width, height, start) {
        Err(ConfigError::StartOutOfBounds)
    } else if !inside(width, height, goal) {
        Err(ConfigError::GoalOutOfBounds)
    } else if exists|i: int| 0 <= i < obstacles.len() && !inside(width, height, #[trigger] obstacles[i]) {
        Err(ConfigError::ObstacleOutOfBounds)
    } else {
        Ok(())
    }
}

impl AppConfig {
    pub open spec fn outcome(&self) -> Result<(), ConfigError> {
        validation_outcome(self.map_width, self.map_height, self.start, self.goal, self.obstacles@)
    }

    /// Checks that the map is not empty and that the start, the goal and every obstacle
    /// lie on it.
    pub fn validate(&self) -> (r: Result<(), ConfigError>)
        ensures
            r == self.outcome(),
    {
        if self.map_width == 0 {
            return Err(ConfigError::ZeroWidth);
        }
        if self.map_height == 0 {
            return Err(ConfigError::ZeroHeight);
        }
        if self.start.x >= self.map_width || self.start.y >= self.map_height {
            return Err(ConfigError::StartOutOfBounds);
        }
        if self.goal.x >= self.map_width || self.goal.y >= self.map_height {
            return Err(ConfigError::GoalOutOfBounds);
        }
        let mut i: usize = 0;
        while i < self.obstacles.len()
            invariant
                self.map_width > 0,
                self.map_height > 0,
                inside(self.map_width, self.map_height, self.start),
                inside(self.map_width, self.map_height, self.goal),
                i <= self.obstacles@.len(),
                forall|k: int|
                    0 <= k < i ==> inside(self.map_width, self.map_height, #[trigger] self.obstacles@[k]),
            decreases self.obstacles@.len() - i,
        {
            let obstacle = self.obstacles[i];
            if obstacle.x >= self.map_width || obstacle.y >= self.map_height {
                assert(!inside(self.map_width, self.map_height, self.obstacles@[i as int]));
                return Err(ConfigError::ObstacleOutOfBounds);
            }
            i = i + 1;
        }
        Ok(())
    }
}

impl Clone for AppConfig {
    fn clone(&self) -> (r: Self)
        ensures
            r.map_width == self.map_width,
            r.map_height == self.map_height,
            r.start == self.start,
            r.goal == self.goal,
            r.obstacles@ == self.obstacles@,
    {
        let obstacles = self.obstacles.clone();
        assert(obstacles@ =~= self.obstacles@);
        AppConfig {
            map_width: self.map_width,
            map_height: self.map_height,
            start: self.start,
            goal: self.goal,
            obstacles,
        }
    }
}

impl Default for AppConfig {
    /// A three by three map from the top-left to the bottom-right corner, with the
    /// first two cells of the middle column blocked.
    fn default() -> (r: Self)
        ensures
            r.map_width == 3,
            r.map_height == 3,
            r.start == (GridPosition { x: 0, y: 0 }),
            r.goal == (GridPosition { x: 2, y: 2 }),
            r.obstacles@ == seq![GridPosition { x: 1, y: 0 }, GridPosition { x: 1, y: 1 }],
    {
        let mut obstacles: Vec<GridPosition> = Vec::new();
        obstacles.push(GridPosition { x: 1, y: 0 });
        obstacles.push(GridPosition { x: 1, y: 1 });
        AppConfig {
            map_width: 3,
            map_height: 3,
            start: GridPosition { x: 0, y: 0 },
            goal: GridPosition { x: 2, y: 2 },
            obstacles,
        }
    }
}

/// A configuration is accepted exactly when the map has cells and the start, the goal
/// and every obstacle have a column below the width and a row below the height; each
/// error names the first of these conditions that fails.
pub proof fn law_validation_accepts_exactly_what_fits(
    width: usize,
    height: usize,
    start: GridPosition,
    goal: GridPosition,
    obstacles: Seq<GridPosition>,
)
    ensures
        validation_outcome(width, height, start, goal, obstacles) is Ok <==> {
            &&& width > 0
            &&& height > 0
            &&& start.x < width && start.y < height
            &&& goal.x < width && goal.y < height
            &&& forall|i: int|
                0 <= i < obstacles.len() ==> (#[trigger] obstacles[i]).x < width && obstacles[i].y
                    < height
        },
        validation_outcome(width, height, start, goal, obstacles) == Err::<(), ConfigError>(
            ConfigError::ZeroWidth,
        ) <==> width == 0,
        validation_outcome(width, height, start, goal, obstacles) == Err::<(), ConfigError>(
            ConfigError::ZeroHeight,
        ) <==> width > 0 && height == 0,
        validation_outcome(width, height, start, goal, obstacles) == Err::<(), ConfigError>(
            ConfigError::StartOutOfBounds,
        ) <==> width > 0 && height > 0 && (start.x >= width || start.y >= height),
        validation_outcome(width, height, start, goal, obstacles) == Err::<(), ConfigError>(
            ConfigError::GoalOutOfBounds,
        ) <==> width > 0 && height > 0 && start.x < width && start.y < height && (goal.x >= width
            || goal.y >= height),
        validation_outcome(width, height, start, goal, obstacles) == Err::<(), ConfigError>(
            ConfigError::ObstacleOutOfBounds,
        ) <==> width > 0 && height > 0 && start.x < width && start.y < height && goal.x < width
            && goal.y < height && exists|i: int|
            0 <= i < obstacles.len() && ((#[trigger] obstacles[i]).x >= width || obstacles[i].y
                >= height),
{
    if exists|i: int|
        0 <= i < obstacles.len() && ((#[trigger] obstacles[i]).x >= width || obstacles[i].y >= height) {
        let i = choose|i: int|
            0 <= i < obstacles.len() && ((#[trigger] obstacles[i]).x >= width || obstacles[i].y
                >= height);
        assert(!inside(width, height, obstacles[i]));
    }
    if exists|i: int| 0 <= i < obstacles.len() && !inside(width, height, #[trigger] obstacles[i]) {
        let i = choose|i: int| 0 <= i < obstacles.len() && !inside(width, height, #[trigger] obstacles[i]);
        assert(obstacles[i].x >= width || obstacles[i].y >= height);
    }
}

} // verus!
