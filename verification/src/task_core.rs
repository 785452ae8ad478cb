use vstd::prelude::*;

use crate::grid_map::GridPosition;

verus! {

/// Where a delivery task is in its life.
#[derive(Debug, Clone, Copy, PartialEq, Eq, Structural)]
pub enum TaskState {
    Pending,
    Assigned,
    Navigating,
    Completed,
    Failed,
}

/// Why a task could not change state.
#[derive(Debug, Clone, Copy, PartialEq, Eq, Structural)]
pub enum TaskError {
    NotPending,
    NotAssigned,
    NotNavigating,
    AlreadyCompleted,
    AlreadyFailed,
}

/// A delivery to `destination`, identified by `id`.
#[derive(Debug, PartialEq, Eq, Structural)]
pub struct DeliveryTask {
    id: u64,
    destination: GridPosition,
    state: TaskState,
}

/// The state `assign` moves to, or its error.
pub open spec fn assign_outcome(s: TaskState) -> Result<TaskState, TaskError> {
    match s {
        TaskState::Pending => Ok(TaskState::Assigned),
        _ => Err(TaskError::NotPending),
    }
}

/// The state `start_navigation` moves to, or its error.
pub open spec fn start_navigation_outcome(s: TaskState) -> Result<TaskState, TaskError> {
    match s {
        TaskState::Assigned => Ok(TaskState::Navigating),
        _ => Err(TaskError::NotAssigned),
    }
}

/// The state `complete` moves to, or its error.
pub open spec fn complete_outcome(s: TaskState) -> Result<TaskState, TaskError> {
    match s {
        TaskState::Navigating => Ok(TaskState::Completed),
        _ => Err(TaskError::NotNavigating),
    }
}

/// The state `fail` moves to, or its error.
pub open spec fn fail_outcome(s: TaskState) -> Result<TaskState, TaskError> {
    match s {
        TaskState::Completed => Err(TaskError::AlreadyCompleted),
        TaskState::Failed => Err(TaskError::AlreadyFailed),
        _ => Ok(TaskState::Failed),
    }
}

/// How far along its life a task is.
pub open spec fn stage(s: TaskState) -> int {
    match s {
        TaskState::Pending => 0,
        TaskState::Assigned => 1,
        TaskState::Navigating => 2,
        TaskState::Completed => 3,
        TaskState::Failed => 3,
    }
}

/// A finished task: completed or failed.
pub open spec fn is_finished(s: TaskState) -> bool {
    s == TaskState::Completed || s == TaskState::Failed
}

impl Clone for DeliveryTask {
    fn clone(&self) -> (r: Self)
        ensures
            r == *self,
    {
        DeliveryTask { id: self.id, destination: self.destination, state: self.state }
    }
}

impl DeliveryTask {
    pub closed spec fn spec_id(&self) -> u64 {
        self.id
    }

    pub closed spec fn spec_destination(&self) -> GridPosition {
        self.destination
    }

    pub closed spec fn spec_state(&self) -> TaskState {
        self.state
    }

    /// A new, pending task.
    pub fn new(id: u64, destination: GridPosition) -> (r: Self)
        ensures
            r.spec_id() == id,
            r.spec_destination() == destination,
            r.spec_state() == TaskState::Pending,
    {
        DeliveryTask { id, destination, state: TaskState::Pending }
    }

    pub fn id(&self) -> (r: u64)
        ensures
            r == self.spec_id(),
    {
        self.id
    }

    pub fn destination(&self) -> (r: GridPosition)
        ensures
            r == self.spec_destination(),
    {
        self.destination
    }

    pub fn state(&self) -> (r: TaskState)
        ensures
            r == self.spec_state(),
    {
        self.state
    }

    /// Pending becomes assigned; any other state is refused and kept.
    pub fn assign(&mut self) -> (r: Result<(), TaskError>)
        ensures
            final(self).spec_id() == old(self).spec_id(),
            final(self).spec_destination() == old(self).spec_destination(),
            match assign_outcome(old(self).spec_state()) {
                Ok(s) => r == Ok::<(), TaskError>(()) && final(self).spec_state() == s,
                Err(e) => r == Err::<(), TaskError>(e) && *final(self) == *old(self),
            },
    {
        if self.state == TaskState::Pending {
            self.state = TaskState::Assigned;
            Ok(())
        } else {
            Err(TaskError::NotPending)
        }
    }

    /// Assigned becomes navigating; any other state is refused and kept.
    pub fn start_navigation(&mut self) -> (r: Result<(), TaskError>)
        ensures
            final(self).spec_id() == old(self).spec_id(),
            final(self).spec_destination() == old(self).spec_destination(),
            match start_navigation_outcome(old(self).spec_state()) {
                Ok(s) => r == Ok::<(), TaskError>(()) && final(self).spec_state() == s,
                Err(e) => r == Err::<(), TaskError>(e) && *final(self) == *old(self),
            },
    {
        if self.state == TaskState::Assigned {
            self.state = TaskState::Navigating;
            Ok(())
        } else {
            Err(TaskError::NotAssigned)
        }
    }

    /// Navigating becomes completed; any other state is refused and kept.
    pub fn complete(&mut self) -> (r: Result<(), TaskError>)
        ensures
            final(self).spec_id() == old(self).spec_id(),
            final(self).spec_destination() == old(self).spec_destination(),
            match complete_outcome(old(self).spec_state()) {
                Ok(s) => r == Ok::<(), TaskError>(()) && final(self).spec_state() == s,
                Err(e) => r == Err::<(), TaskError>(e) && *final(self) == *old(self),
            },
    {
        if self.state == TaskState::Navigating {
            self.state = TaskState::Completed;
            Ok(())
        } else {
            Err(TaskError::NotNavigating)
        }
    }

    /// A task that is still under way fails; a finished one is refused and kept.
    pub fn fail(&mut self) -> (r: Result<(), TaskError>)
        ensures
            final(self).spec_id() == old(self).spec_id(),
            final(self).spec_destination() == old(self).spec_destination(),
            match fail_outcome(old(self).spec_state()) {
                Ok(s) => r == Ok::<(), TaskError>(()) && final(self).spec_state() == s,
                Err(e) => r == Err::<(), TaskError>(e) && *final(self) == *old(self),
            },
    {
        match self.state {
            TaskState::Pending | TaskState::Assigned | TaskState::Navigating => {
                self.state = TaskState::Failed;
                Ok(())
            },
            TaskState::Completed => Err(TaskError::AlreadyCompleted),
            TaskState::Failed => Err(TaskError::AlreadyFailed),
        }
    }
}

/// A finished task stays finished: every transition out of it is refused.
pub proof fn law_finished_tasks_are_final(s: TaskState)
    requires
        is_finished(s),
    ensures
        assign_outcome(s) is Err,
        start_navigation_outcome(s) is Err,
        complete_outcome(s) is Err,
        fail_outcome(s) is Err,
{
}

/// Every accepted transition moves the task strictly forward, so no state is ever
/// entered twice.
pub proof fn law_transitions_move_forward(s: TaskState)
    ensures
        assign_outcome(s) matches Ok(t) ==> stage(t) > stage(s),
        start_navigation_outcome(s) matches Ok(t) ==> stage(t) > stage(s),
        complete_outcome(s) matches Ok(t) ==> stage(t) > stage(s),
        fail_outcome(s) matches Ok(t) ==> stage(t) > stage(s),
{
}

/// The only transition into `Completed` is `complete` from `Navigating`, and the only
/// transition into `Navigating` is `start_navigation` from `Assigned`: a completed task
/// went through assignment and navigation.
pub proof fn law_completion_follows_navigation(s: TaskState)
    ensures
        assign_outcome(s) != Ok::<TaskState, TaskError>(TaskState::Completed),
        start_navigation_outcome(s) != Ok::<TaskState, TaskError>(TaskState::Completed),
        fail_outcome(s) != Ok::<TaskState, TaskError>(TaskState::Completed),
        complete_outcome(s) == Ok::<TaskState, TaskError>(TaskState::Completed) <==> s
            == TaskState::Navigating,
        start_navigation_outcome(s) == Ok::<TaskState, TaskError>(TaskState::Navigating) <==> s
            == TaskState::Assigned,
        assign_outcome(s) != Ok::<TaskState, TaskError>(TaskState::Navigating),
        complete_outcome(s) != Ok::<TaskState, TaskError>(TaskState::Navigating),
        fail_outcome(s) != Ok::<TaskState, TaskError>(TaskState::Navigating),
{
}

/// Each transition has one state it starts from and one it leads to; from every other
/// state it is refused with its own error. `fail` leads from any unfinished state to
/// `Failed`.
pub proof fn law_each_transition_has_one_source(s: TaskState)
    ensures
        assign_outcome(s) is Ok <==> s == TaskState::Pending,
        assign_outcome(s) matches Ok(t) ==> t == TaskState::Assigned,
        s != TaskState::Pending ==> assign_outcome(s) == Err::<TaskState, TaskError>(
            TaskError::NotPending,
        ),
        start_navigation_outcome(s) is Ok <==> s == TaskState::Assigned,
        start_navigation_outcome(s) matches Ok(t) ==> t == TaskState::Navigating,
        s != TaskState::Assigned ==> start_navigation_outcome(s) == Err::<TaskState, TaskError>(
            TaskError::NotAssigned,
        ),
        complete_outcome(s) is Ok <==> s == TaskState::Navigating,
        complete_outcome(s) matches Ok(t) ==> t == TaskState::Completed,
        s != TaskState::Navigating ==> complete_outcome(s) == Err::<TaskState, TaskError>(
            TaskError::NotNavigating,
        ),
        fail_outcome(s) is Ok <==> (s == TaskState::Pending || s == TaskState::Assigned || s
            == TaskState::Navigating),
        fail_outcome(s) matches Ok(t) ==> t == TaskState::Failed,
        s == TaskState::Completed ==> fail_outcome(s) == Err::<TaskState, TaskError>(
            TaskError::AlreadyCompleted,
        ),
        s == TaskState::Failed ==> fail_outcome(s) == Err::<TaskState, TaskError>(
            TaskError::AlreadyFailed,
        ),
{
}

} // verus!
