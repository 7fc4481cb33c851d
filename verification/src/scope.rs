//! The decisions of a scope: structured concurrency in which the tasks
//! spawned within a scope are joined at its close.
//!
//! Tasks return `Result<(), E>`. A scope returns the result of its body if
//! the body and all its tasks succeed, and otherwise the first error
//! encountered; when a task fails, the remaining tasks are aborted.
use vstd::prelude::*;

use tokio::task::JoinError;

verus! {

#[verifier::external_type_specification]
#[verifier::external_body]
pub struct ExJoinError(JoinError);

/// What to do after the next task of a scope was joined.
pub enum JoinStep<E> {
    /// A task succeeded or was aborted: join the next one.
    Next,
    /// A task failed: shut down the remaining tasks and fail with this error.
    Abort(E),
    /// Every task has been joined.
    Finished,
}

/// The outcome of a joined task: the task's own result when it ran to
/// completion, and success when it was aborted (deliberately, by the scope
/// or by the application).
pub fn task_outcome<E>(joined: Result<Result<(), E>, JoinError>) -> (outcome: Result<(), E>)
    ensures
        match joined {
            Ok(inner) => outcome == inner,
            Err(_) => outcome is Ok,
        },
{
    match joined {
        Ok(inner) => inner,
        Err(_) => Ok(()),
    }
}

/// The step that follows the outcome of the next joined task, or `None` when
/// no task is left to join.
pub fn join_step<E>(next: Option<Result<(), E>>) -> (step: JoinStep<E>)
    ensures
        match next {
            None => step is Finished,
            Some(Ok(())) => step is Next,
            Some(Err(e)) => step == JoinStep::Abort(e),
        },
{
    match next {
        Some(Ok(())) => JoinStep::Next,
        Some(Err(e)) => JoinStep::Abort(e),
        None => JoinStep::Finished,
    }
}

/// Whether the tasks of a scope are to be joined after its body returned
/// `body`; otherwise they are shut down.
pub fn joins_tasks<A, E>(body: &Result<A, E>) -> (join: bool)
    ensures
        join == body is Ok,
{
    body.is_ok()
}

/// The result of a scope whose body returned `body` and whose tasks, when
/// they were joined, ended with `tasks`: the body's result, unless the body
/// succeeded and a task failed, in which case the task's error.
pub fn scope_result<A, E>(body: Result<A, E>, tasks: Result<(), E>) -> (result: Result<A, E>)
    ensures
        match (body, tasks) {
            (Ok(_), Err(e)) => result == Err::<A, E>(e),
            _ => result == body,
        },
{
    match body {
        Ok(a) => match tasks {
            Ok(()) => Ok(a),
            Err(e) => Err(e),
        },
        Err(e) => Err(e),
    }
}

} // verus!
