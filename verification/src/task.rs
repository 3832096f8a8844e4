use vstd::prelude::*;
use crate::clock::now_millis;
use crate::ids::{new_short_id, short_id, short_id_of, is_hex_char};

verus! {

/// Where a task is in its life.
#[derive(Debug, Clone, Copy, PartialEq, Eq, Structural)]
pub enum TaskStatus {
    Pending,
    Running,
    Succeeded,
    Failed,
}

impl TaskStatus {
    pub open spec fn spec_name(self) -> Seq<char> {
        match self {
            TaskStatus::Pending => "pending"@,
            TaskStatus::Running => "running"@,
            TaskStatus::Succeeded => "succeeded"@,
            TaskStatus::Failed => "failed"@,
        }
    }

    /// The lower-case name used on the wire.
    pub fn as_str(&self) -> (s: &'static str)
        ensures
            s@ == self.spec_name(),
    {
        match self {
            TaskStatus::Pending => "pending",
            TaskStatus::Running => "running",
            TaskStatus::Succeeded => "succeeded",
            TaskStatus::Failed => "failed",
        }
    }

    /// Still in flight: pending or running.
    pub fn is_active(&self) -> (b: bool)
        ensures
            b == (*self == TaskStatus::Pending || *self == TaskStatus::Running),
    {
        match self {
            TaskStatus::Pending | TaskStatus::Running => true,
            _ => false,
        }
    }
}

/// A coded failure of a task.
#[derive(Debug, PartialEq, Eq)]
pub struct TaskError {
    pub code: String,
    pub message: String,
}

impl Clone for TaskError {
    fn clone(&self) -> (r: Self)
        ensures
            r == *self,
    {
        TaskError { code: self.code.clone(), message: self.message.clone() }
    }
}

impl TaskError {
    pub fn new(code: &str, message: &str) -> (e: TaskError)
        ensures
            e.code@ == code@,
            e.message@ == message@,
    {
        TaskError { code: code.to_owned(), message: message.to_owned() }
    }

    /// The message, which is what the error displays as.
    pub fn to_string(&self) -> (s: String)
        ensures
            s@ == self.message@,
    {
        self.message.clone()
    }
}

/// An asynchronous control-plane operation and its outcome.
///
/// `result` holds the JSON text of the value the operation produced. Times are
/// milliseconds since the Unix epoch.
#[derive(Debug, PartialEq, Eq)]
pub struct Task {
    pub id: String,
    pub task_type: String,
    pub status: TaskStatus,
    pub result: Option<String>,
    pub error: Option<String>,
    pub error_code: Option<String>,
    pub created_at: i64,
    pub started_at: Option<i64>,
    pub finished_at: Option<i64>,
}

impl Clone for Task {
    fn clone(&self) -> (r: Self)
        ensures
            r == *self,
    {
        Task {
            id: self.id.clone(),
            task_type: self.task_type.clone(),
            status: self.status,
            result: match &self.result { Some(s) => Some(s.clone()), None => None },
            error: match &self.error { Some(s) => Some(s.clone()), None => None },
            error_code: match &self.error_code { Some(s) => Some(s.clone()), None => None },
            created_at: self.created_at,
            started_at: self.started_at,
            finished_at: self.finished_at,
        }
    }
}

impl Task {
    /// A pending task of type `task_type`, with id `id`, created at `now`.
    pub open spec fn is_new(self, id: Seq<char>, task_type: Seq<char>, now: i64) -> bool {
        &&& self.id@ == id
        &&& self.task_type@ == task_type
        &&& self.status == TaskStatus::Pending
        &&& self.result is None
        &&& self.error is None
        &&& self.error_code is None
        &&& self.created_at == now
        &&& self.started_at is None
        &&& self.finished_at is None
    }

    /// The pending task whose id is the short id of the UUID `uuid`, created at `now`.
    pub fn new_at(task_type: &str, uuid: u128, now: i64) -> (t: Task)
        ensures
            t.is_new(short_id(uuid), task_type@, now),
    {
        Task {
            id: short_id_of(uuid),
            task_type: task_type.to_owned(),
            status: TaskStatus::Pending,
            result: None,
            error: None,
            error_code: None,
            created_at: now,
            started_at: None,
            finished_at: None,
        }
    }

    /// A new pending task with a fresh random id, created now; `None` when the random source
    /// fails.
    pub fn new(task_type: &str) -> (t: Option<Task>)
        ensures
            t matches Some(t) ==> {
                &&& t.is_new(t.id@, task_type@, t.created_at)
                &&& t.id@.len() == 16
                &&& forall|i: int| 0 <= i < 16 ==> is_hex_char(#[trigger] t.id@[i])
            },
    {
        let id = new_short_id()?;
        Some(Task {
            id,
            task_type: task_type.to_owned(),
            status: TaskStatus::Pending,
            result: None,
            error: None,
            error_code: None,
            created_at: now_millis(),
            started_at: None,
            finished_at: None,
        })
    }

    /// Marks the task running, started at `now`.
    pub fn start_at(&mut self, now: i64)
        ensures
            *final(self) == (Task { status: TaskStatus::Running, started_at: Some(now), ..*old(self) }),
    {
        self.started_at = Some(now);
        self.status = TaskStatus::Running;
    }

    /// Marks the task running, started now.
    pub fn start(&mut self)
        ensures
            final(self).started_at is Some,
            *final(self) == (Task { status: TaskStatus::Running, started_at: final(self).started_at, ..*old(self) }),
    {
        self.start_at(now_millis());
    }

    /// Marks the task succeeded with `result`, finished at `now`.
    pub fn succeed_at(&mut self, result: Option<String>, now: i64)
        ensures
            *final(self) == (Task { status: TaskStatus::Succeeded, result: result, finished_at: Some(now), ..*old(self) }),
    {
        self.result = result;
        self.status = TaskStatus::Succeeded;
        self.finished_at = Some(now);
    }

    /// Marks the task succeeded with `result`, finished now.
    pub fn succeed(&mut self, result: Option<String>)
        ensures
            final(self).finished_at is Some,
            *final(self) == (Task { status: TaskStatus::Succeeded, result: result, finished_at: final(self).finished_at, ..*old(self) }),
    {
        self.succeed_at(result, now_millis());
    }

    /// Marks the task failed with `error`'s code and message, finished at `now`.
    pub fn fail_at(&mut self, error: TaskError, now: i64)
        ensures
            *final(self) == (Task {
                status: TaskStatus::Failed,
                error_code: Some(error.code),
                error: Some(error.message),
                finished_at: Some(now),
                ..*old(self)
            }),
    {
        self.error_code = Some(error.code);
        self.error = Some(error.message);
        self.status = TaskStatus::Failed;
        self.finished_at = Some(now);
    }

    /// Marks the task failed with `error`'s code and message, finished now.
    pub fn fail(&mut self, error: TaskError)
        ensures
            final(self).finished_at is Some,
            *final(self) == (Task {
                status: TaskStatus::Failed,
                error_code: Some(error.code),
                error: Some(error.message),
                finished_at: final(self).finished_at,
                ..*old(self)
            }),
    {
        self.fail_at(error, now_millis());
    }

    /// Marks the task failed with code `INTERNAL` and message `msg`, finished at `now`.
    pub fn fail_internal_at(&mut self, msg: &str, now: i64)
        ensures
            final(self).error_code matches Some(c) && c@ == "INTERNAL"@,
            final(self).error matches Some(m) && m@ == msg@,
            final(self).status == TaskStatus::Failed,
            final(self).finished_at == Some(now),
            final(self).id == old(self).id,
            final(self).task_type == old(self).task_type,
            final(self).result == old(self).result,
            final(self).created_at == old(self).created_at,
            final(self).started_at == old(self).started_at,
    {
        self.error_code = Some(String::from_str("INTERNAL"));
        self.error = Some(msg.to_owned());
        self.status = TaskStatus::Failed;
        self.finished_at = Some(now);
    }

    /// Marks the task failed with code `INTERNAL` and message `msg`, finished now.
    pub fn fail_internal(&mut self, msg: &str)
        ensures
            final(self).error_code matches Some(c) && c@ == "INTERNAL"@,
            final(self).error matches Some(m) && m@ == msg@,
            final(self).status == TaskStatus::Failed,
            final(self).finished_at is Some,
            final(self).id == old(self).id,
            final(self).task_type == old(self).task_type,
            final(self).result == old(self).result,
            final(self).created_at == old(self).created_at,
            final(self).started_at == old(self).started_at,
    {
        self.fail_internal_at(msg, now_millis());
    }
}

} // verus!
