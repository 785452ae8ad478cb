use vstd::prelude::*;

use crate::config::{inside, AppConfig};
use crate::grid_map::{lemma_index_in_range, law_set_then_read, GridMap, GridModel, GridPosition};
use crate::path_planning::{
    astar_outcome, is_shortest_path, planning_error, AStartPlanner, PathPlanner, PathPlanningError,
};
use crate::task_core::{DeliveryTask, TaskError, TaskState};

verus! {

pub const START_SYMBOL: char = 'S';

pub const GOAL_SYMBOL: char = 'G';

pub const PATH_SYMBOL: char = '*';

pub const FREE_SYMBOL: char = '.';

pub const OBSTACLE_SYMBOL: char = '#';

/// The scene run when none, or no readable one, is asked for.
pub const DEFAULT_SCENE_ID: u8 = 1;

/// A named configuration to run.
#[derive(Debug)]
pub struct DemoScene {
    pub name: &'static str,
    pub config: AppConfig,
}

/// Why running a task went wrong.
#[derive(Debug, Clone, Copy, PartialEq, Eq, Structural)]
pub enum RunTaskError {
    Task(TaskError),
    Planning(PathPlanningError),
}

/// The scenes on offer: 1 is the default configuration, 2 walls the start in, and any
/// other id gives an empty three by three map.
pub fn build_demo_scene(scene_id: u8) -> (r: DemoScene)
    ensures
        r.config.map_width == 3,
        r.config.map_height == 3,
        r.config.start == (GridPosition { x: 0, y: 0 }),
        r.config.goal == (GridPosition { x: 2, y: 2 }),
        scene_id == 1 ==> r.name@ == "basic"@ && r.config.obstacles@ == seq![
            GridPosition { x: 1, y: 0 },
            GridPosition { x: 1, y: 1 },
        ],
        scene_id == 2 ==> r.name@ == "blocked_start"@ && r.config.obstacles@ == seq![
            GridPosition { x: 1, y: 0 },
            GridPosition { x: 0, y: 1 },
        ],
        scene_id != 1 && scene_id != 2 ==> r.name@ == "empty"@ && r.config.obstacles@ == Seq::<
            GridPosition,
        >::empty(),
{
    match scene_id {
        1 => DemoScene { name: "basic", config: AppConfig::default() },
        2 => {
            let mut obstacles: Vec<GridPosition> = Vec::new();
            obstacles.push(GridPosition { x: 1, y: 0 });
            obstacles.push(GridPosition { x: 0, y: 1 });
            DemoScene {
                name: "blocked_start",
                config: AppConfig {
                    map_width: 3,
                    map_height: 3,
                    start: GridPosition { x: 0, y: 0 },
                    goal: GridPosition { x: 2, y: 2 },
                    obstacles,
                },
            }
        },
        _ => {
            let obstacles: Vec<GridPosition> = Vec::new();
            DemoScene {
                name: "empty",
                config: AppConfig {
                    map_width: 3,
                    map_height: 3,
                    start: GridPosition { x: 0, y: 0 },
                    goal: GridPosition { x: 2, y: 2 },
                    obstacles,
                },
            }
        },
    }
}

/// The map the configuration describes: every cell walkable except the obstacles.
pub fn build_map(config: &AppConfig) -> (r: GridMap)
    requires
        config.map_width * config.map_height <= isize::MAX,
        forall|i: int|
            0 <= i < config.obstacles@.len() ==> (#[trigger] config.obstacles@[i]).x
                < config.map_width && config.obstacles@[i].y < config.map_height,
    ensures
        r@.width == config.map_width,
        r@.height == config.map_height,
        forall|p: GridPosition|
            r@.in_bounds(p) ==> (#[trigger] r@.walkable(p) <==> !config.obstacles@.contains(p)),
{
    let mut map = GridMap::new(config.map_width, config.map_height);
    proof {
        use_type_invariant(&map);
        assert forall|p: GridPosition| map@.in_bounds(p) implies (#[trigger] map@.walkable(p)
            <==> !config.obstacles@.subrange(0, 0).contains(p)) by {
            lemma_index_in_range(map@, p);
        }
    }
    let mut i: usize = 0;
    while i < config.obstacles.len()
        invariant
            map@.wf(),
            map@.width == config.map_width,
            map@.height == config.map_height,
            i <= config.obstacles@.len(),
            forall|k: int|
                0 <= k < config.obstacles@.len() ==> (#[trigger] config.obstacles@[k]).x
                    < config.map_width && config.obstacles@[k].y < config.map_height,
            forall|p: GridPosition|
                map@.in_bounds(p) ==> (#[trigger] map@.walkable(p) <==> !config.obstacles@.subrange(
                    0,
                    i as int,
                ).contains(p)),
        decreases config.obstacles@.len() - i,
    {
        proof {
            use_type_invariant(&map);
        }
        let obstacle = config.obstacles[i];
        let ghost before = map@;
        let _ = map.set_walkable(obstacle, false);
        proof {
            use_type_invariant(&map);
            let done = config.obstacles@.subrange(0, i as int);
            let done2 = config.obstacles@.subrange(0, i + 1);
            assert(done2 =~= done.push(obstacle));
            assert forall|p: GridPosition| map@.in_bounds(p) implies (#[trigger] map@.walkable(p)
                <==> !done2.contains(p)) by {
                law_set_then_read(before, obstacle, p, false);
                if p == obstacle {
                    assert(done2[i as int] == p);
                } else {
                    if done2.contains(p) {
                        let k = choose|k: int| 0 <= k < done2.len() && done2[k] == p;
                        assert(done[k] == p);
                    }
                    if done.contains(p) {
                        let k = choose|k: int| 0 <= k < done.len() && done[k] == p;
                        assert(done2[k] == p);
                    }
                }
            }
        }
        i = i + 1;
    }
    proof {
        assert(config.obstacles@.subrange(0, config.obstacles@.len() as int) =~= config.obstacles@);
        if config.obstacles@.len() == 0 {
            assert forall|p: GridPosition| map@.in_bounds(p) implies map@.walkable(p) by {
                assert(!config.obstacles@.subrange(0, 0).contains(p));
            }
        }
    }
    map
}

/// A configuration that passes `validate` describes a map that `build_map` can mark
/// every obstacle on, and on which a planner never finds the start or the goal out of
/// bounds.
pub proof fn law_valid_config_fits_its_map(config: AppConfig, m: GridModel)
    requires
        config.outcome() is Ok,
        m.width == config.map_width,
        m.height == config.map_height,
    ensures
        forall|i: int|
            0 <= i < config.obstacles@.len() ==> m.in_bounds(#[trigger] config.obstacles@[i]),
        m.in_bounds(config.start),
        m.in_bounds(config.goal),
        planning_error(m, config.start, config.goal) != Some(PathPlanningError::StartOutOfBounds),
        planning_error(m, config.start, config.goal) != Some(PathPlanningError::GoalOutOfBounds),
{
    assert forall|i: int| 0 <= i < config.obstacles@.len() implies m.in_bounds(
        #[trigger] config.obstacles@[i],
    ) by {
        assert(inside(config.map_width, config.map_height, config.obstacles@[i]));
    }
}

/// The task a scene asks for: task 1, to the scene's goal.
pub fn build_task_from_scene(scene: &DemoScene) -> (r: DeliveryTask)
    ensures
        r.spec_id() == 1,
        r.spec_destination() == scene.config.goal,
        r.spec_state() == TaskState::Pending,
{
    DeliveryTask::new(1, scene.config.goal)
}

/// Assigns the task, starts it, plans from `start` to its destination, and completes or
/// fails it on the planner's answer.
pub fn run_task(planner: &AStartPlanner, map: &GridMap, start: GridPosition, task: &mut DeliveryTask) -> (r:
    Result<Vec<GridPosition>, RunTaskError>)
    ensures
        final(task).spec_id() == old(task).spec_id(),
        final(task).spec_destination() == old(task).spec_destination(),
        old(task).spec_state() != TaskState::Pending ==> r == Err::<Vec<GridPosition>, RunTaskError>(
            RunTaskError::Task(TaskError::NotPending),
        ) && *final(task) == *old(task),
        old(task).spec_state() == TaskState::Pending ==> match astar_outcome(
            map@,
            start,
            old(task).spec_destination(),
        ) {
            Ok(p) => r is Ok && r->Ok_0@ == p,
            Err(e) => r == Err::<Vec<GridPosition>, RunTaskError>(RunTaskError::Planning(e)),
        },
        old(task).spec_state() == TaskState::Pending ==> match r {
            Ok(path) => final(task).spec_state() == TaskState::Completed && planning_error(
                map@,
                start,
                old(task).spec_destination(),
            ) is None && is_shortest_path(map@, path@, start, old(task).spec_destination()),
            Err(RunTaskError::Planning(e)) => final(task).spec_state() == TaskState::Failed
                && planning_error(map@, start, old(task).spec_destination()) == Some(e),
            Err(RunTaskError::Task(_)) => false,
        },
{
    if let Err(error) = task.assign() {
        return Err(RunTaskError::Task(error));
    }
    if let Err(error) = task.start_navigation() {
        return Err(RunTaskError::Task(error));
    }
    match planner.plan(map, start, task.destination()) {
        Ok(path) => {
            if let Err(error) = task.complete() {
                return Err(RunTaskError::Task(error));
            }
            Ok(path)
        },
        Err(error) => {
            if let Err(task_error) = task.fail() {
                return Err(RunTaskError::Task(task_error));
            }
            Err(RunTaskError::Planning(error))
        },
    }
}

/// An ASCII decimal digit.
pub open spec fn is_decimal_digit(c: char) -> bool {
    48 <= (c as u32) && (c as u32) <= 57
}

/// The value of a string of decimal digits.
pub open spec fn digits_value(s: Seq<char>) -> nat
    decreases s.len(),
{
    if s.len() == 0 {
        0
    } else {
        digits_value(s.drop_last()) * 10 + ((s.last() as u32) - 48) as nat
    }
}

/// The text after an optional leading `+`.
pub open spec fn unsigned_digits(s: Seq<char>) -> Seq<char> {
    if s.len() > 0 && s[0] == '+' {
        s.drop_first()
    } else {
        s
    }
}

/// What `str::parse::<u8>` gives for a text, as its documentation describes it: an
/// optional `+`, then one or more ASCII decimal digits whose value is at most 255.
pub open spec fn decimal_u8(s: Seq<char>) -> Option<u8> {
    let digits = unsigned_digits(s);
    if digits.len() > 0 && (forall|i: int| 0 <= i < digits.len() ==> is_decimal_digit(#[trigger] digits[i]))
        && digits_value(digits) <= 255 {
        Some(digits_value(digits) as u8)
    } else {
        None
    }
}

/// The character that writes the decimal digit `d`.
pub open spec fn digit_char(d: nat) -> char {
    if d == 0 {
        '0'
    } else if d == 1 {
        '1'
    } else if d == 2 {
        '2'
    } else if d == 3 {
        '3'
    } else if d == 4 {
        '4'
    } else if d == 5 {
        '5'
    } else if d == 6 {
        '6'
    } else if d == 7 {
        '7'
    } else if d == 8 {
        '8'
    } else {
        '9'
    }
}

/// `n` written in decimal, without leading zeros.
pub open spec fn decimal_text(n: nat) -> Seq<char>
    decreases n,
{
    if n < 10 {
        seq![digit_char(n)]
    } else {
        decimal_text(n / 10).push(digit_char(n % 10))
    }
}

/// The decimal digits are exactly the ten characters `'0'` to `'9'`.
pub proof fn law_decimal_digits_are_zero_to_nine(c: char)
    ensures
        is_decimal_digit(c) <==> (c == '0' || c == '1' || c == '2' || c == '3' || c == '4' || c
            == '5' || c == '6' || c == '7' || c == '8' || c == '9'),
{
}

proof fn lemma_decimal_text_value(n: nat)
    ensures
        decimal_text(n).len() >= 1,
        decimal_text(n)[0] != '+',
        forall|i: int| 0 <= i < decimal_text(n).len() ==> is_decimal_digit(#[trigger] decimal_text(n)[i]),
        digits_value(decimal_text(n)) == n,
    decreases n,
{
    let t = decimal_text(n);
    if n < 10 {
        assert(t.drop_last() =~= Seq::<char>::empty());
        assert((digit_char(n) as u32) - 48 == n);
        assert(digits_value(t) == digits_value(t.drop_last()) * 10 + ((t.last() as u32) - 48) as nat);
    } else {
        lemma_decimal_text_value(n / 10);
        let u = decimal_text(n / 10);
        assert(t.drop_last() =~= u);
        assert(t[0] == u[0]);
        assert((digit_char(n % 10) as u32) - 48 == n % 10);
        assert(digits_value(t) == digits_value(t.drop_last()) * 10 + ((t.last() as u32) - 48) as nat);
        assert(n == (n / 10) * 10 + n % 10);
        assert forall|i: int| 0 <= i < t.len() implies is_decimal_digit(#[trigger] t[i]) by {
            if i < u.len() {
                assert(t[i] == u[i]);
            }
        }
    }
}

/// Every number from 0 to 255, written in decimal, reads back as itself.
pub proof fn law_decimal_text_reads_back(n: nat)
    requires
        n <= 255,
    ensures
        decimal_u8(decimal_text(n)) == Some(n as u8),
{
    lemma_decimal_text_value(n);
    assert(unsigned_digits(decimal_text(n)) == decimal_text(n));
}

/// Reads a `u8` written in decimal, as `str::parse::<u8>` does.
fn parse_u8(text: &str) -> (r: Option<u8>)
    ensures
        r == decimal_u8(text@),
{
    let n: usize = text.unicode_len();
    let mut first: usize = 0;
    if n > 0 && text.get_char(0) == '+' {
        first = 1;
    }
    let ghost digits = unsigned_digits(text@);
    assert(digits =~= text@.subrange(first as int, n as int));
    if first >= n {
        return None;
    }
    let mut value: u32 = 0;
    let mut i: usize = first;
    while i < n
        invariant
            n == text@.len(),
            first <= i <= n,
            digits =~= text@.subrange(first as int, n as int),
            digits == unsigned_digits(text@),
            forall|k: int| first <= k < i ==> is_decimal_digit(#[trigger] text@[k]),
            value == if digits_value(text@.subrange(first as int, i as int)) < 256 {
                digits_value(text@.subrange(first as int, i as int))
            } else {
                256
            },
        decreases n - i,
    {
        let c: char = text.get_char(i);
        let code: u32 = c as u32;
        if code < 48 || code > 57 {
            assert(digits[i - first] == text@[i as int]);
            assert(!is_decimal_digit(digits[i - first]));
            assert(unsigned_digits(text@) == digits);
            assert(decimal_u8(text@) is None);
            return None;
        }
        let ghost prefix = text@.subrange(first as int, i as int);
        assert(text@.subrange(first as int, i + 1).drop_last() =~= prefix);
        assert(text@.subrange(first as int, i + 1).last() == c);
        let next: u32 = value * 10 + (code - 48);
        value = if next < 256 {
            next
        } else {
            256
        };
        i = i + 1;
    }
    assert(text@.subrange(first as int, n as int) =~= digits);
    assert forall|k: int| 0 <= k < digits.len() implies is_decimal_digit(#[trigger] digits[k]) by {
        assert(digits[k] == text@[k + first]);
    }
    if value < 256 {
        Some(value as u8)
    } else {
        None
    }
}

/// The scene id given on the command line: `"missing"` when there is none, `"invalid"`
/// when it is not a number from 0 to 255.
pub fn parse_scene_id_arg(arg: Option<&String>) -> (r: Result<u8, &'static str>)
    ensures
        arg is None ==> r is Err && r->Err_0@ == "missing"@,
        arg matches Some(value) ==> match decimal_u8(value@) {
            Some(n) => r == Ok::<u8, &'static str>(n),
            None => r is Err && r->Err_0@ == "invalid"@,
        },
{
    match arg {
        Some(value) => match parse_u8(value.as_str()) {
            Some(scene_id) => Ok(scene_id),
            None => Err("invalid"),
        },
        None => Err("missing"),
    }
}

/// The scene to run for a parsed argument: the id itself, or the default scene when the
/// argument was missing or unreadable.
pub fn scene_id_or_default(parsed: Result<u8, &'static str>) -> (r: u8)
    ensures
        r == match parsed {
            Ok(n) => n,
            Err(_) => DEFAULT_SCENE_ID,
        },
{
    match parsed {
        Ok(scene_id) => scene_id,
        Err(_) => DEFAULT_SCENE_ID,
    }
}

/// The arrow for one step: horizontal moves win over vertical ones, and a step that
/// stays put is a dot.
pub open spec fn step_arrow(from: GridPosition, to: GridPosition) -> Seq<char> {
    if to.x > from.x {
        "→"@
    } else if to.x < from.x {
        "←"@
    } else if to.y > from.y {
        "↓"@
    } else if to.y < from.y {
        "↑"@
    } else {
        "."@
    }
}

/// The arrow for the step from `from` to `to`.
pub fn describe_step(from: GridPosition, to: GridPosition) -> (r: &'static str)
    ensures
        r@ == step_arrow(from, to),
{
    if to.x > from.x {
        "→"
    } else if to.x < from.x {
        "←"
    } else if to.y > from.y {
        "↓"
    } else if to.y < from.y {
        "↑"
    } else {
        "."
    }
}

/// The arrows of all the steps of a path, in order.
pub fn step_directions(path: &Vec<GridPosition>) -> (r: Vec<&'static str>)
    ensures
        r@.len() == if path@.len() > 0 {
            path@.len() - 1
        } else {
            0
        },
        forall|i: int| 0 <= i < r@.len() ==> (#[trigger] r@[i])@ == step_arrow(path@[i], path@[i + 1]),
{
    let mut r: Vec<&'static str> = Vec::new();
    if path.len() == 0 {
        return r;
    }
    let mut i: usize = 1;
    while i < path.len()
        invariant
            1 <= i <= path@.len(),
            r@.len() == i - 1,
            forall|k: int| 0 <= k < r@.len() ==> (#[trigger] r@[k])@ == step_arrow(path@[k], path@[k + 1]),
        decreases path@.len() - i,
    {
        r.push(describe_step(path[i - 1], path[i]));
        i = i + 1;
    }
    r
}

/// The number of moves along a path: one fewer than its cells, none for an empty one.
pub fn path_move_count(path: &Vec<GridPosition>) -> (r: usize)
    ensures
        r == if path@.len() > 0 {
            path@.len() - 1
        } else {
            0
        },
{
    if path.len() > 0 {
        path.len() - 1
    } else {
        0
    }
}

/// Whether `position` occurs in `path`.
fn path_contains(path: &Vec<GridPosition>, position: GridPosition) -> (r: bool)
    ensures
        r == path@.contains(position),
{
    let mut i: usize = 0;
    while i < path.len()
        invariant
            i <= path@.len(),
            forall|k: int| 0 <= k < i ==> path@[k] != position,
        decreases path@.len() - i,
    {
        if path[i] == position {
            assert(path@[i as int] == position);
            return true;
        }
        i = i + 1;
    }
    false
}

/// The symbol drawn for a cell: start, goal, a cell of the path, free or blocked, in
/// that order of precedence.
pub open spec fn cell_symbol_spec(
    walkable: bool,
    on_path: bool,
    position: GridPosition,
    start: GridPosition,
    goal: GridPosition,
) -> char {
    if position == start {
        START_SYMBOL
    } else if position == goal {
        GOAL_SYMBOL
    } else if on_path {
        PATH_SYMBOL
    } else if walkable {
        FREE_SYMBOL
    } else {
        OBSTACLE_SYMBOL
    }
}

/// The start is always drawn as `S` and the goal, when it is not the start, as `G`,
/// whatever the path; any other cell of the path is `*`, and the remaining cells are `.`
/// when walkable and `#` when blocked.
pub proof fn law_cell_symbols(
    walkable: bool,
    on_path: bool,
    position: GridPosition,
    start: GridPosition,
    goal: GridPosition,
)
    ensures
        position == start ==> cell_symbol_spec(walkable, on_path, position, start, goal) == 'S',
        position != start && position == goal ==> cell_symbol_spec(walkable, on_path, position, start, goal)
            == 'G',
        position != start && position != goal && on_path ==> cell_symbol_spec(
            walkable,
            on_path,
            position,
            start,
            goal,
        ) == '*',
        position != start && position != goal && !on_path && walkable ==> cell_symbol_spec(
            walkable,
            on_path,
            position,
            start,
            goal,
        ) == '.',
        position != start && position != goal && !on_path && !walkable ==> cell_symbol_spec(
            walkable,
            on_path,
            position,
            start,
            goal,
        ) == '#',
{
}

/// The symbol drawn for `position` on a map showing `path` from `start` to `goal`.
pub fn cell_symbol(
    map: &GridMap,
    path: &Vec<GridPosition>,
    start: GridPosition,
    goal: GridPosition,
    position: GridPosition,
) -> (r: char)
    requires
        map@.in_bounds(position),
    ensures
        r == cell_symbol_spec(map@.walkable(position), path@.contains(position), position, start, goal),
{
    if position == start {
        START_SYMBOL
    } else if position == goal {
        GOAL_SYMBOL
    } else if path_contains(path, position) {
        PATH_SYMBOL
    } else {
        match map.is_walkable(position) {
            Ok(true) => FREE_SYMBOL,
            _ => OBSTACLE_SYMBOL,
        }
    }
}

/// The number of decimal digits of `n`.
pub open spec fn decimal_len(n: nat) -> nat
    decreases n,
{
    if n < 10 {
        1
    } else {
        1 + decimal_len(n / 10)
    }
}

proof fn lemma_decimal_len_bounds(n: nat)
    ensures
        1 <= decimal_len(n) <= n + 1,
    decreases n,
{
    if n >= 10 {
        lemma_decimal_len_bounds(n / 10);
    }
}

/// How many characters the widest coordinate label of a map takes.
pub fn coordinate_width(width: usize, height: usize) -> (r: usize)
    requires
        width >= 1,
        height >= 1,
    ensures
        r == decimal_len(if width >= height {
            (width - 1) as nat
        } else {
            (height - 1) as nat
        }),
{
    let max_x: usize = width - 1;
    let max_y: usize = height - 1;
    let mut n: usize = if max_x >= max_y {
        max_x
    } else {
        max_y
    };
    let ghost target: nat = n as nat;
    proof {
        lemma_decimal_len_bounds(target);
    }
    let mut digits: usize = 1;
    while n >= 10
        invariant
            digits + decimal_len(n as nat) == 1 + decimal_len(target),
            decimal_len(target) <= target + 1,
            target < usize::MAX,
            1 <= digits,
        decreases n,
    {
        proof {
            lemma_decimal_len_bounds((n / 10) as nat);
        }
        n = n / 10;
        digits = digits + 1;
    }
    digits
}

} // verus!
