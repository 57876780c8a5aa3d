//! An in-memory registry for tracking the lifecycle of long-running tasks
//! behind a polling interface: a caller inserts a task and receives a
//! single-use [`Handle`] together with a shareable [`TaskId`]; work advances
//! the task's progress through the handle and eventually completes it with a
//! result; clients poll by identifier and receive either a progress snapshot
//! or, exactly once, the final result. Completed results that are never
//! collected can be given a lifespan after which they are lazily purged.

mod ids;
mod kvseq;
mod pool;
mod progress;

pub use ids::{Handle, TaskId};
pub use pool::{completes_at, purged, retained, TaskPool, TaskState};
pub use pool::{
    lemma_completed_retrieved_once, lemma_inserted_ids_pairwise_distinct, lemma_lifespan_expiry,
    lemma_lifespan_retention, lemma_no_lifespan_completion_keeps_entry,
    lemma_no_lifespan_never_expires, lemma_pending_visibility,
    lemma_purge_spares_pending, lemma_unknown_identifier,
};
pub use progress::{advanced_by, lemma_progress_caps, Progressible, StepProgress};
