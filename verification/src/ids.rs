use vstd::prelude::*;

verus! {

/// The public, shareable reference to a single task: the 128-bit value of the
/// randomly generated identifier minted when the task is inserted.
#[derive(Clone, Copy, PartialEq, Eq, Structural, Debug)]
pub struct TaskId {
    value: u128,
}

impl View for TaskId {
    type V = int;

    closed spec fn view(&self) -> int {
        self.value as int
    }
}

impl TaskId {
    /// The raw 128-bit value, for callers that render the identifier to
    /// clients (for example as a UUID string in a URL).
    pub fn value(&self) -> (r: u128)
        ensures
            r as int == self@,
    {
        self.value
    }

    /// Rebuild an identifier from its raw 128-bit value, as a request-handling
    /// layer does after parsing a client-supplied identifier.
    pub fn from_value(value: u128) -> (r: TaskId)
        ensures
            r@ == value as int,
    {
        TaskId { value }
    }
}

/// Two identifiers are equal exactly when their mathematical values are.
pub proof fn lemma_task_id_view_injective(a: TaskId, b: TaskId)
    ensures
        (a@ == b@) <==> (a == b),
{
}

/// A unique handle to a single task: the sole capability allowed to advance
/// or complete it. It cannot be cloned and exposes no fields, so exactly one
/// handle exists per task; completing the task consumes it.
pub struct Handle {
    task: TaskId,
}

impl Handle {
    /// The identifier of the task this handle refers to. This is
    /// specification-only: executable code outside the registry can read
    /// nothing out of a handle.
    pub closed spec fn id(&self) -> int {
        self.task@
    }

    pub(crate) fn new(task: TaskId) -> (h: Handle)
        ensures
            h.id() == task@,
    {
        Handle { task }
    }

    pub(crate) fn task_id(&self) -> (t: TaskId)
        ensures
            t@ == self.id(),
    {
        self.task
    }
}

} // verus!
