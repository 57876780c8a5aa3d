use long_running_task::{Progressible, StepProgress, TaskId, TaskPool, TaskState};

#[derive(Clone, Debug, PartialEq, Eq)]
struct EmptyProgress {}

impl Progressible for EmptyProgress {
    // In a build that verifies, `progressed` says what one advance step
    // produces and `clone_preserves_value` discharges the clone-fidelity
    // obligation; in an ordinary build they are plain trait items and these
    // bodies are never run.
    fn progressed(&self) -> Self {
        EmptyProgress {}
    }

    fn progress(&mut self) {}

    fn clone_preserves_value(_a: Self, _b: Self) {}
}

fn get_inner_size<V, P>(pool: &TaskPool<V, P>) -> usize
where
    P: Progressible,
{
    pool.pending_count() + pool.completed_count()
}

fn insert_and_complete(pool: &mut TaskPool<(), EmptyProgress>) -> TaskId {
    let (handle, id) = pool.insert(EmptyProgress {});
    pool.complete(handle, ());
    id
}

#[test]
fn insert_and_get() {
    let mut pool = TaskPool::<u8, StepProgress>::default();
    let initial_value = StepProgress {
        progress: 0,
        total: 7,
    };

    let (handle, uuid) = pool.insert(initial_value);
    assert_eq!(
        pool.retrieve(&uuid),
        Some(TaskState::Pending(StepProgress {
            progress: 0,
            total: 7
        }))
    );

    pool.progress(&handle);
    assert_eq!(
        pool.retrieve(&uuid),
        Some(TaskState::Pending(StepProgress {
            progress: 1,
            total: 7
        }))
    );

    pool.complete(handle, 42);

    assert_eq!(get_inner_size(&pool), 1);
    assert_eq!(pool.retrieve(&uuid), Some(TaskState::Done(42)));
    assert_eq!(get_inner_size(&pool), 0);
    assert_eq!(pool.retrieve(&uuid), None);
}

#[test]
fn within_lifespan() {
    let lifespan: u64 = 10;
    let mut pool = TaskPool::<(), EmptyProgress>::default().with_lifespan(Some(lifespan));

    let id = insert_and_complete(&mut pool);
    insert_and_complete(&mut pool); // trigger purge by completing new task

    assert_eq!(pool.retrieve(&id), Some(TaskState::Done(())));
}

#[test]
fn lifespan_expiry_at_explicit_times() {
    // Lifespan of 10 ms: task A completes at t=0, task B at t=15, which
    // purges A; A is gone while B is still retrievable.
    let mut pool = TaskPool::<u8, EmptyProgress>::default().with_lifespan(Some(10));

    let (handle_a, id_a) = pool.insert(EmptyProgress {});
    pool.complete_at(handle_a, 1, 0);
    let (handle_b, id_b) = pool.insert(EmptyProgress {});
    pool.complete_at(handle_b, 2, 15);

    assert_eq!(pool.retrieve(&id_a), None);
    assert_eq!(pool.retrieve(&id_b), Some(TaskState::Done(2)));
}

#[test]
fn lifespan_boundary() {
    // A completed task is retrievable up to but not including its lifespan.
    let mut pool = TaskPool::<u8, EmptyProgress>::default().with_lifespan(Some(10));
    let (handle_a, id_a) = pool.insert(EmptyProgress {});
    pool.complete_at(handle_a, 1, 0);
    let (handle_b, _) = pool.insert(EmptyProgress {});
    pool.complete_at(handle_b, 2, 9);
    assert_eq!(pool.retrieve(&id_a), Some(TaskState::Done(1)));

    let mut pool = TaskPool::<u8, EmptyProgress>::default().with_lifespan(Some(10));
    let (handle_a, id_a) = pool.insert(EmptyProgress {});
    pool.complete_at(handle_a, 1, 0);
    let (handle_b, _) = pool.insert(EmptyProgress {});
    pool.complete_at(handle_b, 2, 10);
    assert_eq!(pool.retrieve(&id_a), None);
}

#[test]
fn no_lifespan_keeps_completed() {
    let mut pool = TaskPool::<u8, EmptyProgress>::default();
    let (handle, id) = pool.insert(EmptyProgress {});
    pool.complete_at(handle, 7, 0);

    for age in 1..6u64 {
        let (other, _) = pool.insert(EmptyProgress {});
        pool.complete_at(other, 0, age * 1_000_000);
    }

    assert_eq!(pool.retrieve(&id), Some(TaskState::Done(7)));
}

#[test]
fn unknown_identifier_not_found() {
    let mut pool = TaskPool::<u8, StepProgress>::default();
    assert_eq!(pool.retrieve(&TaskId::from_value(12345)), None);

    let (_handle, id) = pool.insert(StepProgress::new(0, 1));
    let never_issued = TaskId::from_value(id.value().wrapping_add(1));
    assert_eq!(pool.retrieve(&never_issued), None);
}

#[test]
fn identifiers_pairwise_distinct() {
    let mut pool = TaskPool::<u8, StepProgress>::default();
    let mut ids: Vec<u128> = Vec::new();
    for _ in 0..32 {
        let (_handle, id) = pool.insert(StepProgress::new(0, 1));
        ids.push(id.value());
    }
    for i in 0..ids.len() {
        for j in (i + 1)..ids.len() {
            assert_ne!(ids[i], ids[j]);
        }
    }
}

#[test]
fn progress_caps_at_total() {
    let mut p = StepProgress::new(5, 7);
    for _ in 0..10 {
        p.progress();
    }
    assert_eq!(p, StepProgress::new(7, 7));
}

#[test]
fn pool_progress_caps_at_total() {
    let mut pool = TaskPool::<u8, StepProgress>::default();
    let (handle, id) = pool.insert(StepProgress::new(0, 3));
    for _ in 0..5 {
        pool.progress(&handle);
    }
    assert_eq!(pool.retrieve(&id), Some(TaskState::Pending(StepProgress::new(3, 3))));
}

#[test]
fn pending_retrieval_repeatable() {
    let mut pool = TaskPool::<u8, StepProgress>::default();
    let (handle, id) = pool.insert(StepProgress::new(0, 2));
    assert_eq!(pool.retrieve(&id), Some(TaskState::Pending(StepProgress::new(0, 2))));
    assert_eq!(pool.retrieve(&id), Some(TaskState::Pending(StepProgress::new(0, 2))));
    pool.progress(&handle);
    assert_eq!(pool.retrieve(&id), Some(TaskState::Pending(StepProgress::new(1, 2))));
    assert_eq!(pool.retrieve(&id), Some(TaskState::Pending(StepProgress::new(1, 2))));
}

#[test]
fn purge_never_removes_pending() {
    let mut pool = TaskPool::<u8, EmptyProgress>::default().with_lifespan(Some(10));
    let (pending_handle, pending_id) = pool.insert(EmptyProgress {});

    let (first, _) = pool.insert(EmptyProgress {});
    pool.complete_at(first, 1, 0);
    let (second, _) = pool.insert(EmptyProgress {});
    pool.complete_at(second, 2, 1_000_000);

    assert_eq!(pool.retrieve(&pending_id), Some(TaskState::Pending(EmptyProgress {})));
    pool.progress(&pending_handle);
    assert_eq!(pool.retrieve(&pending_id), Some(TaskState::Pending(EmptyProgress {})));
}
