use grid_planner::grid_map::GridPosition;
use grid_planner::task_core::{DeliveryTask, TaskError, TaskState};

#[test]
fn new_task_starts_pending() {
    let destination = GridPosition { x: 2, y: 3 };
    let task = DeliveryTask::new(7, destination);

    assert_eq!(task.id(), 7);
    assert_eq!(task.destination(), destination);
    assert_eq!(task.state(), TaskState::Pending);
}

#[test]
fn assign_moves_pending_to_assigned() {
    let destination = GridPosition { x: 1, y: 1 };
    let mut task = DeliveryTask::new(1, destination);

    assert_eq!(task.assign(), Ok(()));
    assert_eq!(task.state(), TaskState::Assigned);
}

#[test]
fn start_navigation_requires_assigned() {
    let destination = GridPosition { x: 1, y: 1 };
    let mut task = DeliveryTask::new(1, destination);

    assert_eq!(task.start_navigation(), Err(TaskError::NotAssigned));
}

#[test]
fn complete_moves_navigating_to_completed() {
    let destination = GridPosition { x: 4, y: 2 };
    let mut task = DeliveryTask::new(2, destination);

    task.assign().unwrap();
    task.start_navigation().unwrap();

    assert_eq!(task.complete(), Ok(()));
    assert_eq!(task.state(), TaskState::Completed);
}

#[test]
fn fail_moves_active_task_to_failed() {
    let destination = GridPosition { x: 5, y: 5 };
    let mut task = DeliveryTask::new(3, destination);

    task.assign().unwrap();

    assert_eq!(task.fail(), Ok(()));
    assert_eq!(task.state(), TaskState::Failed);
}

#[test]
fn fail_cannot_run_twice() {
    let destination = GridPosition { x: 5, y: 5 };
    let mut task = DeliveryTask::new(3, destination);

    task.fail().unwrap();

    assert_eq!(task.fail(), Err(TaskError::AlreadyFailed));
}

#[test]
fn assign_twice_is_refused_and_keeps_state() {
    let mut task = DeliveryTask::new(4, GridPosition { x: 0, y: 0 });

    task.assign().unwrap();

    assert_eq!(task.assign(), Err(TaskError::NotPending));
    assert_eq!(task.state(), TaskState::Assigned);
}

#[test]
fn complete_requires_navigating() {
    let mut task = DeliveryTask::new(5, GridPosition { x: 0, y: 0 });
    task.assign().unwrap();

    assert_eq!(task.complete(), Err(TaskError::NotNavigating));
    assert_eq!(task.state(), TaskState::Assigned);
}

#[test]
fn finished_tasks_refuse_every_transition() {
    let mut done = DeliveryTask::new(6, GridPosition { x: 1, y: 2 });
    done.assign().unwrap();
    done.start_navigation().unwrap();
    done.complete().unwrap();

    assert_eq!(done.assign(), Err(TaskError::NotPending));
    assert_eq!(done.start_navigation(), Err(TaskError::NotAssigned));
    assert_eq!(done.complete(), Err(TaskError::NotNavigating));
    assert_eq!(done.fail(), Err(TaskError::AlreadyCompleted));
    assert_eq!(done.state(), TaskState::Completed);

    let mut failed = DeliveryTask::new(7, GridPosition { x: 1, y: 2 });
    failed.fail().unwrap();

    assert_eq!(failed.assign(), Err(TaskError::NotPending));
    assert_eq!(failed.start_navigation(), Err(TaskError::NotAssigned));
    assert_eq!(failed.complete(), Err(TaskError::NotNavigating));
    assert_eq!(failed.state(), TaskState::Failed);
}

#[test]
fn navigating_task_can_fail() {
    let mut task = DeliveryTask::new(8, GridPosition { x: 3, y: 3 });
    task.assign().unwrap();
    task.start_navigation().unwrap();

    assert_eq!(task.fail(), Ok(()));
    assert_eq!(task.state(), TaskState::Failed);
    assert_eq!(task.id(), 8);
    assert_eq!(task.destination(), GridPosition { x: 3, y: 3 });
}
