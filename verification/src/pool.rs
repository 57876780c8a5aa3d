//! The task registry itself: a pool that issues a unique identifier and a
//! single-use handle per task, tracks pending progress, records completed
//! results, hands each result out at most once, and lazily purges completed
//! results that outlive a configured lifespan.

use crate::ids::{lemma_task_id_view_injective, Handle, TaskId};
use crate::kvseq::{
    distinct_keys, entry_map, has_key, lemma_entry_map_contains, lemma_entry_map_index,
    lemma_entry_map_len, lemma_entry_map_push, lemma_entry_map_remove, lemma_entry_map_update,
};
use crate::progress::Progressible;
use vstd::prelude::*;
use vstd::set_lib::{lemma_int_range, lemma_len_subset, lemma_len_union, set_int_range};

verus! {

/// Representation of a task's state, as retrieval reports it. "Not found" is
/// represented by absence (`None` from [`TaskPool::retrieve`]), not by a
/// variant.
#[derive(PartialEq, Eq, Debug)]
pub enum TaskState<V, P> where P: Progressible {
    /// The task is not finished yet and holds a snapshot of its current
    /// progress.
    Pending(P),
    /// The task is done with a value of type V.
    Done(V),
}

/// A pool to manage long-running tasks.
///
/// The pool owns two tables keyed by task identifier: one for tasks still in
/// progress and one for finished tasks, the latter holding the completion
/// time (in milliseconds) next to the result. An identifier appears in at
/// most one of the two. The pool is not internally thread-safe: a caller
/// must serialize access to it.
pub struct TaskPool<V, P> where P: Progressible {
    pending: Vec<(TaskId, P)>,
    completed: Vec<(TaskId, (u64, V))>,
    lifespan: Option<u64>,
}

/// Whether a completed entry stamped `stamp` still survives a purge at time
/// `now` under the given lifespan: its age is strictly under the lifespan.
pub open spec fn retained(stamp: u64, lifespan: u64, now: u64) -> bool {
    now - stamp < lifespan
}

/// The completed table after the purge that runs inside completion: with a
/// lifespan configured, exactly the entries still within it remain; with
/// none, every entry remains.
pub open spec fn purged<V>(
    completed: Map<int, (u64, V)>,
    lifespan: Option<u64>,
    now: u64,
) -> Map<int, (u64, V)> {
    match lifespan {
        Some(l) => Map::new(
            |k: int| completed.dom().contains(k) && retained(completed[k].0, l, now),
            |k: int| completed[k],
        ),
        None => completed,
    }
}

/// How completing the task `id` with `value` changes the pool when the clock
/// reads `now`: the task leaves the pending table, completed entries whose
/// age reached the lifespan are purged, and the result is recorded under
/// `id` with the completion time.
pub open spec fn completes_at<V, P: Progressible>(
    pre: TaskPool<V, P>,
    post: TaskPool<V, P>,
    id: int,
    value: V,
    now: u64,
) -> bool {
    &&& post.pending_map() == pre.pending_map().remove(id)
    &&& post.completed_map() == purged(pre.completed_map(), pre.lifespan_opt(), now).insert(
        id,
        (now, value),
    )
    &&& post.lifespan_opt() == pre.lifespan_opt()
}

/// Relies on `uuid::Uuid::new_v4`: a freshly drawn random version-4 UUID,
/// handed back as its 128-bit value. The value is random, so nothing is
/// assumed about which value comes back.
#[verifier::external_body]
fn random_id_value() -> u128 {
    uuid::Uuid::new_v4().as_u128()
}

/// Relies on `std::time::SystemTime::now`: the wall-clock time at the call,
/// converted to whole milliseconds since the Unix epoch (zero if the clock
/// reads earlier than the epoch). The reading depends on the clock, so
/// nothing is assumed about which value comes back.
#[verifier::external_body]
fn now_millis() -> u64 {
    let since_epoch = std::time::SystemTime::now()
        .duration_since(std::time::UNIX_EPOCH)
        .unwrap_or(std::time::Duration::ZERO);
    since_epoch.as_millis() as u64
}

impl<V, P> TaskPool<V, P> where P: Progressible {
    /// The pending table: each pending task's identifier mapped to its
    /// current progress.
    pub closed spec fn pending_map(&self) -> Map<int, P> {
        entry_map(self.pending@)
    }

    /// The completed table: each finished task's identifier mapped to its
    /// completion time and result.
    pub closed spec fn completed_map(&self) -> Map<int, (u64, V)> {
        entry_map(self.completed@)
    }

    /// The configured lifespan for completed entries, in milliseconds;
    /// `None` means they never expire.
    pub closed spec fn lifespan_opt(&self) -> Option<u64> {
        self.lifespan
    }

    /// Every identifier the pool currently represents, pending or completed.
    pub open spec fn issued_ids(&self) -> Set<int> {
        self.pending_map().dom() + self.completed_map().dom()
    }

    /// The pool's invariant: identifiers are unique within each table, and no
    /// identifier appears in both.
    pub closed spec fn wf(&self) -> bool {
        &&& distinct_keys(self.pending@)
        &&& distinct_keys(self.completed@)
        &&& forall|i: int, j: int|
            0 <= i < self.pending@.len() && 0 <= j < self.completed@.len()
                ==> #[trigger] self.pending@[i].0@ != #[trigger] self.completed@[j].0@
    }

    /// What retrieval reports for an identifier in this state: a snapshot of
    /// the progress while pending, the result once done, and nothing for an
    /// identifier the pool does not represent.
    pub open spec fn task_state(&self, id: int) -> Option<TaskState<V, P>> {
        if self.pending_map().contains_key(id) {
            Some(TaskState::Pending(self.pending_map()[id]))
        } else if self.completed_map().contains_key(id) {
            Some(TaskState::Done(self.completed_map()[id].1))
        } else {
            None
        }
    }

    /// In a well-formed pool no identifier is both pending and completed.
    pub proof fn lemma_wf_tables_disjoint(&self)
        requires
            self.wf(),
        ensures
            forall|k: int|
                !(#[trigger] self.pending_map().contains_key(k)
                    && self.completed_map().contains_key(k)),
    {
        assert forall|k: int|
            !(#[trigger] self.pending_map().contains_key(k)
                && self.completed_map().contains_key(k)) by {
            lemma_entry_map_contains(self.pending@, k);
            lemma_entry_map_contains(self.completed@, k);
            if has_key(self.pending@, k) && has_key(self.completed@, k) {
                let i = choose|i: int| 0 <= i < self.pending@.len() && self.pending@[i].0@ == k;
                let j = choose|j: int| 0 <= j < self.completed@.len() && self.completed@[j].0@ == k;
                assert(self.pending@[i].0@ != self.completed@[j].0@);
            }
        }
    }

    /// The index of the pending entry for `id`, if there is one.
    fn find_pending(&self, id: TaskId) -> (r: Option<usize>)
        ensures
            match r {
                Some(i) => i < self.pending@.len() && self.pending@[i as int].0@ == id@,
                None => !self.pending_map().contains_key(id@),
            },
    {
        let n = self.pending.len();
        let mut i: usize = 0;
        while i < n
            invariant
                n == self.pending@.len(),
                i <= n,
                forall|j: int| 0 <= j < i ==> #[trigger] self.pending@[j].0@ != id@,
            decreases n - i,
        {
            if self.pending[i].0 == id {
                return Some(i);
            }
            proof {
                lemma_task_id_view_injective(self.pending@[i as int].0, id);
            }
            i += 1;
        }
        proof {
            lemma_entry_map_contains(self.pending@, id@);
        }
        None
    }

    /// The index of the completed entry for `id`, if there is one.
    fn find_completed(&self, id: TaskId) -> (r: Option<usize>)
        ensures
            match r {
                Some(i) => i < self.completed@.len() && self.completed@[i as int].0@ == id@,
                None => !self.completed_map().contains_key(id@),
            },
    {
        let n = self.completed.len();
        let mut i: usize = 0;
        while i < n
            invariant
                n == self.completed@.len(),
                i <= n,
                forall|j: int| 0 <= j < i ==> #[trigger] self.completed@[j].0@ != id@,
            decreases n - i,
        {
            if self.completed[i].0 == id {
                return Some(i);
            }
            proof {
                lemma_task_id_view_injective(self.completed@[i as int].0, id);
            }
            i += 1;
        }
        proof {
            lemma_entry_map_contains(self.completed@, id@);
        }
        None
    }

    /// Whether some task, pending or completed, carries this identifier
    /// value.
    fn id_value_in_use(&self, value: u128) -> (r: bool)
        ensures
            r == self.issued_ids().contains(value as int),
    {
        let id = TaskId::from_value(value);
        let in_pending = match self.find_pending(id) {
            Some(i) => {
                proof {
                    lemma_entry_map_contains(self.pending@, id@);
                }
                true
            },
            None => false,
        };
        if in_pending {
            return true;
        }
        match self.find_completed(id) {
            Some(i) => {
                proof {
                    lemma_entry_map_contains(self.completed@, id@);
                }
                true
            },
            None => false,
        }
    }

    /// The smallest identifier value no task carries; the fallback for the
    /// operationally impossible case that a drawn random identifier is
    /// already in use.
    fn first_free_id_value(&self) -> (r: u128)
        ensures
            !self.issued_ids().contains(r as int),
    {
        let total: u128 = (self.pending.len() as u128) + (self.completed.len() as u128);
        proof {
            lemma_entry_map_len(self.pending@);
            lemma_entry_map_len(self.completed@);
            lemma_len_union(self.pending_map().dom(), self.completed_map().dom());
        }
        let mut candidate: u128 = 0;
        loop
            invariant
                total == self.pending@.len() + self.completed@.len(),
                candidate <= total,
                forall|k: int| 0 <= k < candidate ==> self.issued_ids().contains(k),
                self.issued_ids().finite(),
                self.issued_ids().len() <= total,
            ensures
                !self.issued_ids().contains(candidate as int),
            decreases total + 1 - candidate,
        {
            if !self.id_value_in_use(candidate) {
                break;
            }
            proof {
                lemma_int_range(0, candidate as int + 1);
                assert(set_int_range(0, candidate as int + 1).subset_of(self.issued_ids()));
                lemma_len_subset(set_int_range(0, candidate as int + 1), self.issued_ids());
            }
            candidate = candidate + 1;
        }
        candidate
    }

    /// Insert a task's initial progress to receive a [`Handle`] and
    /// [`TaskId`] referencing the task.
    ///
    /// The identifier is freshly minted and collision-free: it is drawn at
    /// random from 128 bits, and in the operationally impossible case that
    /// the drawn value is already in use, an unused value is picked instead.
    /// The identifier is the public, shareable reference to the task; the
    /// handle is the private, single-use write capability.
    #[must_use]
    pub fn insert(&mut self, pending: P) -> (r: (Handle, TaskId))
        requires
            old(self).wf(),
        ensures
            final(self).wf(),
            r.0.id() == r.1@,
            !old(self).issued_ids().contains(r.1@),
            final(self).pending_map() == old(self).pending_map().insert(r.1@, pending),
            final(self).completed_map() == old(self).completed_map(),
            final(self).lifespan_opt() == old(self).lifespan_opt(),
            final(self).issued_ids() == old(self).issued_ids().insert(r.1@),
    {
        let mut value = random_id_value();
        if self.id_value_in_use(value) {
            value = self.first_free_id_value();
        }
        let id = TaskId::from_value(value);
        proof {
            lemma_entry_map_contains(self.pending@, id@);
            lemma_entry_map_contains(self.completed@, id@);
            lemma_entry_map_push(self.pending@, id, pending);
        }
        self.pending.push((id, pending));
        proof {
            assert forall|i: int, j: int|
                0 <= i < self.pending@.len() && 0 <= j < self.completed@.len()
                    implies #[trigger] self.pending@[i].0@ != #[trigger] self.completed@[j].0@ by {
                if i < self.pending@.len() - 1 {
                    assert(self.pending@[i] == old(self).pending@[i]);
                } else {
                    assert(self.pending@[i].0@ == id@);
                    assert(!has_key(self.completed@, id@));
                }
            }
            assert(self.issued_ids() =~= old(self).issued_ids().insert(id@));
        }
        (Handle::new(id), id)
    }

    /// Configure the lifespan of completed tasks, in milliseconds.
    /// `None` means that tasks will never expire.
    /// Expired tasks are purged as soon as `complete` is invoked.
    /// Specifying a lifespan is useful because clients might not always
    /// retrieve completed tasks. Without configuring a lifespan, such
    /// abandoned tasks accumulate over time and fill up memory.
    #[must_use]
    pub fn with_lifespan(self, lifespan: Option<u64>) -> (r: Self)
        ensures
            r.pending_map() == self.pending_map(),
            r.completed_map() == self.completed_map(),
            r.lifespan_opt() == lifespan,
            self.wf() ==> r.wf(),
    {
        let TaskPool { pending, completed, lifespan: _ } = self;
        TaskPool { pending, completed, lifespan }
    }

    /// Get the task state and remove it from the pool if it is done.
    ///
    /// A pending task is reported as a snapshot of its progress and stays in
    /// the pool, so polling is repeatable; a completed task's result is
    /// handed out exactly once and its entry removed. An unknown identifier
    /// — never issued, already collected, or purged — yields `None`.
    pub fn retrieve(&mut self, id: &TaskId) -> (r: Option<TaskState<V, P>>)
        requires
            old(self).wf(),
        ensures
            final(self).wf(),
            r == old(self).task_state(id@),
            final(self).pending_map() == old(self).pending_map(),
            final(self).lifespan_opt() == old(self).lifespan_opt(),
            old(self).pending_map().contains_key(id@) || !old(self).completed_map().contains_key(
                id@,
            ) ==> final(self).completed_map() == old(self).completed_map(),
            !old(self).pending_map().contains_key(id@) && old(self).completed_map().contains_key(
                id@,
            ) ==> final(self).completed_map() == old(self).completed_map().remove(id@),
    {
        match self.find_pending(*id) {
            Some(i) => {
                proof {
                    lemma_entry_map_index(self.pending@, i as int);
                }
                let snapshot = self.pending[i].1.clone();
                proof {
                    P::clone_preserves_value(self.pending@[i as int].1, snapshot);
                }
                Some(TaskState::Pending(snapshot))
            },
            None => {
                match self.find_completed(*id) {
                    Some(i) => {
                        proof {
                            lemma_entry_map_index(self.completed@, i as int);
                            lemma_entry_map_remove(self.completed@, i as int);
                        }
                        let entry = self.completed.remove(i);
                        proof {
                            assert forall|a: int, b: int|
                                0 <= a < self.pending@.len() && 0 <= b < self.completed@.len()
                                    implies #[trigger] self.pending@[a].0@
                                    != #[trigger] self.completed@[b].0@ by {
                                let b0: int = if b < i { b } else { b + 1 };
                                assert(self.completed@[b] == old(self).completed@[b0]);
                            }
                        }
                        Some(TaskState::Done(entry.1.1))
                    },
                    None => None,
                }
            },
        }
    }

    /// Report progress on a pending task: calls [`Progressible::progress`] on
    /// the task's stored progress value.
    ///
    /// The handle is only ever produced by `insert` and only ever consumed by
    /// `complete`, so as long as `complete` has not been called the entry is
    /// still pending; calling this without that guarantee is a contract
    /// violation, not a recoverable error.
    pub fn progress(&mut self, handle: &Handle)
        requires
            old(self).wf(),
            old(self).pending_map().contains_key(handle.id()),
        ensures
            final(self).wf(),
            final(self).pending_map() == old(self).pending_map().insert(
                handle.id(),
                old(self).pending_map()[handle.id()].progressed(),
            ),
            final(self).completed_map() == old(self).completed_map(),
            final(self).lifespan_opt() == old(self).lifespan_opt(),
    {
        let i = match self.find_pending(handle.task_id()) {
            Some(i) => i,
            None => {
                proof {
                    assert(false);
                }
                unreached()
            },
        };
        proof {
            lemma_entry_map_index(self.pending@, i as int);
        }
        let tid = self.pending[i].0;
        let mut snapshot = self.pending[i].1.clone();
        proof {
            P::clone_preserves_value(self.pending@[i as int].1, snapshot);
        }
        snapshot.progress();
        proof {
            lemma_entry_map_update(self.pending@, i as int, snapshot);
        }
        self.pending.set(i, (tid, snapshot));
        proof {
            assert forall|a: int, b: int|
                0 <= a < self.pending@.len() && 0 <= b < self.completed@.len()
                    implies #[trigger] self.pending@[a].0@ != #[trigger] self.completed@[b].0@ by {
                assert(self.pending@[a].0 == old(self).pending@[a].0);
            }
        }
    }
    /// Mark the task associated to the handle as completed with a value of
    /// type V. The handle is passed by value and consumed, so this is the
    /// final action on the task. As a side effect expired tasks are purged.
    ///
    /// The completion time is read from the wall clock, so the postcondition
    /// states the transition for some clock reading; every consequence that
    /// does not depend on the reading is stated directly.
    pub fn complete(&mut self, handle: Handle, value: V)
        requires
            old(self).wf(),
            old(self).pending_map().contains_key(handle.id()),
        ensures
            final(self).wf(),
            exists|now: u64|
                completes_at(*old(self), *final(self), handle.id(), value, now),
            final(self).pending_map() == old(self).pending_map().remove(handle.id()),
            final(self).lifespan_opt() == old(self).lifespan_opt(),
            final(self).task_state(handle.id()) == Some(TaskState::<V, P>::Done(value)),
    {
        let now = now_millis();
        let ghost id = handle.id();
        self.complete_at(handle, value, now);
        proof {
            assert(completes_at(*old(self), *self, id, value, now));
        }
    }

    /// Complete the task at the explicit clock reading `now`, in milliseconds:
    /// what [`TaskPool::complete`] does once it has read the clock. Callers
    /// that need a deterministic notion of time call this directly.
    pub fn complete_at(&mut self, handle: Handle, value: V, now: u64)
        requires
            old(self).wf(),
            old(self).pending_map().contains_key(handle.id()),
        ensures
            final(self).wf(),
            completes_at(*old(self), *final(self), handle.id(), value, now),
            final(self).task_state(handle.id()) == Some(TaskState::<V, P>::Done(value)),
    {
        let id = handle.task_id();
        let i = match self.find_pending(id) {
            Some(i) => i,
            None => {
                proof {
                    assert(false);
                }
                unreached()
            },
        };
        proof {
            lemma_entry_map_remove(self.pending@, i as int);
        }
        let _ = self.pending.remove(i);
        proof {
            assert forall|a: int, b: int|
                0 <= a < self.pending@.len() && 0 <= b < self.completed@.len()
                    implies #[trigger] self.pending@[a].0@ != #[trigger] self.completed@[b].0@ by {
                let a0: int = if a < i { a } else { a + 1 };
                assert(self.pending@[a] == old(self).pending@[a0]);
            }
        }
        self.purge_expired_tasks(now);
        proof {
            old(self).lemma_wf_tables_disjoint();
            lemma_entry_map_contains(self.completed@, id@);
            lemma_entry_map_push(self.completed@, id, (now, value));
        }
        self.completed.push((id, (now, value)));
        proof {
            assert forall|a: int, b: int|
                0 <= a < self.pending@.len() && 0 <= b < self.completed@.len()
                    implies #[trigger] self.pending@[a].0@ != #[trigger] self.completed@[b].0@ by {
                let a0: int = if a < i { a } else { a + 1 };
                assert(self.pending@[a] == old(self).pending@[a0]);
                if b == self.completed@.len() - 1 {
                    assert(self.completed@[b].0@ == id@);
                    assert(old(self).pending@[i as int].0@ == id@);
                }
            }
        }
    }

    /// Remove every completed entry whose age at `now` has reached the
    /// configured lifespan; with no lifespan configured, remove nothing.
    fn purge_expired_tasks(&mut self, now: u64)
        requires
            old(self).wf(),
        ensures
            final(self).wf(),
            final(self).pending@ == old(self).pending@,
            final(self).completed_map() == purged(
                old(self).completed_map(),
                old(self).lifespan_opt(),
                now,
            ),
            final(self).lifespan_opt() == old(self).lifespan_opt(),
    {
        let lifespan = match self.lifespan {
            Some(lifespan) => lifespan,
            None => {
                return;
            },
        };
        let mut i: usize = 0;
        while i < self.completed.len()
            invariant
                self.wf(),
                self.pending@ == old(self).pending@,
                self.lifespan == old(self).lifespan,
                old(self).lifespan == Some(lifespan),
                i <= self.completed@.len(),
                forall|j: int|
                    0 <= j < i ==> retained(#[trigger] self.completed@[j].1.0, lifespan, now),
                purged(entry_map(self.completed@), Some(lifespan), now) == purged(
                    old(self).completed_map(),
                    Some(lifespan),
                    now,
                ),
            decreases self.completed@.len() - i,
        {
            let stamp = self.completed[i].1.0;
            if now < stamp || now - stamp < lifespan {
                i += 1;
            } else {
                proof {
                    lemma_entry_map_index(self.completed@, i as int);
                    lemma_entry_map_remove(self.completed@, i as int);
                    lemma_purged_drop_dead(
                        entry_map(self.completed@),
                        lifespan,
                        now,
                        self.completed@[i as int].0@,
                    );
                }
                let ghost before_remove = self.completed@;
                let _ = self.completed.remove(i);
                proof {
                    assert forall|a: int, b: int|
                        0 <= a < self.pending@.len() && 0 <= b < self.completed@.len()
                            implies #[trigger] self.pending@[a].0@
                            != #[trigger] self.completed@[b].0@ by {
                        let b0: int = if b < i { b } else { b + 1 };
                        assert(self.completed@[b] == before_remove[b0]);
                    }
                }
            }
        }
        proof {
            assert forall|k: int| self.completed_map().dom().contains(k) implies retained(
                #[trigger] self.completed_map()[k].0,
                lifespan,
                now,
            ) by {
                lemma_entry_map_contains(self.completed@, k);
                let j = choose|j: int|
                    0 <= j < self.completed@.len() && self.completed@[j].0@ == k;
                lemma_entry_map_index(self.completed@, j);
            }
            lemma_purged_all_retained(self.completed_map(), lifespan, now);
        }
    }

    /// The number of tasks currently pending.
    pub fn pending_count(&self) -> (n: usize)
        requires
            self.wf(),
        ensures
            n == self.pending_map().dom().len(),
    {
        proof {
            lemma_entry_map_len(self.pending@);
        }
        self.pending.len()
    }

    /// The number of completed tasks whose results have not been collected.
    pub fn completed_count(&self) -> (n: usize)
        requires
            self.wf(),
        ensures
            n == self.completed_map().dom().len(),
    {
        proof {
            lemma_entry_map_len(self.completed@);
        }
        self.completed.len()
    }
}

/// Removing an entry whose age has reached the lifespan does not change what
/// a purge produces.
proof fn lemma_purged_drop_dead<V>(m: Map<int, (u64, V)>, lifespan: u64, now: u64, k: int)
    requires
        m.dom().contains(k),
        !retained(m[k].0, lifespan, now),
    ensures
        purged(m.remove(k), Some(lifespan), now) == purged(m, Some(lifespan), now),
{
    assert(purged(m.remove(k), Some(lifespan), now) =~= purged(m, Some(lifespan), now));
}

/// A purge removes nothing from a table whose entries are all still within
/// the lifespan.
proof fn lemma_purged_all_retained<V>(m: Map<int, (u64, V)>, lifespan: u64, now: u64)
    requires
        forall|k: int|
            m.dom().contains(k) ==> retained(#[trigger] m[k].0, lifespan, now),
    ensures
        purged(m, Some(lifespan), now) == m,
{
    assert(purged(m, Some(lifespan), now) =~= m);
}

/// Along a chain of insertions, every identifier issued earlier is still in
/// every later issued-identifier set.
proof fn lemma_issued_chain_contains(doms: Seq<Set<int>>, ids: Seq<int>, i: int, j: int)
    requires
        doms.len() == ids.len() + 1,
        forall|k: int| 0 <= k < ids.len() ==> doms[k + 1] == (#[trigger] doms[k]).insert(ids[k]),
        0 <= i < j <= ids.len(),
    ensures
        doms[j].contains(ids[i]),
    decreases j - i,
{
    if j == i + 1 {
        assert(doms[i + 1] == doms[i].insert(ids[i]));
    } else {
        lemma_issued_chain_contains(doms, ids, i, j - 1);
        assert(doms[j] == doms[j - 1].insert(ids[j - 1]));
    }
}

/// Uniqueness: for all sequences of insertions the returned identifiers are
/// pairwise distinct. `ids` are the identifiers the insertions return, and
/// `doms` the chain of issued-identifier sets they run through; each
/// insertion returns an identifier outside the current set and adds it to
/// the set, exactly as `insert` ensures.
pub proof fn lemma_inserted_ids_pairwise_distinct(doms: Seq<Set<int>>, ids: Seq<int>)
    requires
        doms.len() == ids.len() + 1,
        forall|k: int| 0 <= k < ids.len() ==> !(#[trigger] doms[k]).contains(ids[k]),
        forall|k: int| 0 <= k < ids.len() ==> doms[k + 1] == (#[trigger] doms[k]).insert(ids[k]),
    ensures
        forall|i: int, j: int| 0 <= i < j < ids.len() ==> ids[i] != ids[j],
{
    assert forall|i: int, j: int| 0 <= i < j < ids.len() implies ids[i] != ids[j] by {
        lemma_issued_chain_contains(doms, ids, i, j);
    }
}

/// Pending visibility: while a task is pending with progress `p`, retrieval
/// reports `Pending(p)`. By `retrieve`'s contract the pool is left unchanged
/// in that case, so polling is repeatable any number of times and reflects
/// each intervening progress report.
pub proof fn lemma_pending_visibility<V, P: Progressible>(pool: TaskPool<V, P>, id: int)
    requires
        pool.pending_map().contains_key(id),
    ensures
        pool.task_state(id) == Some(TaskState::<V, P>::Pending(pool.pending_map()[id])),
{
}

/// Completion transition: once a task is completed — no longer pending, its
/// result recorded — retrieval reports `Done` with exactly the recorded
/// result; and after the retrieval that removed the entry, every further
/// retrieval reports nothing.
pub proof fn lemma_completed_retrieved_once<V, P: Progressible>(
    after_complete: TaskPool<V, P>,
    after_retrieve: TaskPool<V, P>,
    id: int,
)
    requires
        !after_complete.pending_map().contains_key(id),
        after_complete.completed_map().contains_key(id),
        after_retrieve.pending_map() == after_complete.pending_map(),
        after_retrieve.completed_map() == after_complete.completed_map().remove(id),
    ensures
        after_complete.task_state(id) == Some(
            TaskState::<V, P>::Done(after_complete.completed_map()[id].1),
        ),
        after_retrieve.task_state(id) == None::<TaskState<V, P>>,
{
}

/// Unknown identifier: retrieval reports nothing for an identifier the pool
/// does not represent — never issued, already collected, or purged.
pub proof fn lemma_unknown_identifier<V, P: Progressible>(pool: TaskPool<V, P>, id: int)
    requires
        !pool.issued_ids().contains(id),
    ensures
        pool.task_state(id) == None::<TaskState<V, P>>,
{
}

/// Lifespan expiry: with a lifespan configured, completing another task at a
/// clock reading at or past a completed entry's expiry purges that entry —
/// a subsequent retrieval reports nothing for it — while the newly completed
/// task's own result is reported.
pub proof fn lemma_lifespan_expiry<V, P: Progressible>(
    pre: TaskPool<V, P>,
    post: TaskPool<V, P>,
    lifespan: u64,
    expired_id: int,
    id: int,
    value: V,
    now: u64,
)
    requires
        pre.wf(),
        pre.lifespan_opt() == Some(lifespan),
        pre.completed_map().contains_key(expired_id),
        now - pre.completed_map()[expired_id].0 >= lifespan,
        expired_id != id,
        completes_at(pre, post, id, value, now),
    ensures
        post.task_state(expired_id) == None::<TaskState<V, P>>,
        post.task_state(id) == Some(TaskState::<V, P>::Done(value)),
{
    pre.lemma_wf_tables_disjoint();
}

/// Lifespan retention: a completed task is retrievable up to but not
/// including the lifespan — another completion at a clock reading strictly
/// before the entry's expiry leaves the entry and its result in place.
pub proof fn lemma_lifespan_retention<V, P: Progressible>(
    pre: TaskPool<V, P>,
    post: TaskPool<V, P>,
    lifespan: u64,
    kept_id: int,
    id: int,
    value: V,
    now: u64,
)
    requires
        pre.wf(),
        pre.lifespan_opt() == Some(lifespan),
        pre.completed_map().contains_key(kept_id),
        now - pre.completed_map()[kept_id].0 < lifespan,
        kept_id != id,
        completes_at(pre, post, id, value, now),
    ensures
        post.task_state(kept_id) == Some(
            TaskState::<V, P>::Done(pre.completed_map()[kept_id].1),
        ),
{
    pre.lemma_wf_tables_disjoint();
}

/// With the lifespan unset, one further completion — no matter how late its
/// clock reading — keeps a completed, unretrieved entry in place, entry and
/// lifespan unchanged.
pub proof fn lemma_no_lifespan_completion_keeps_entry<V, P: Progressible>(
    pre: TaskPool<V, P>,
    post: TaskPool<V, P>,
    kept_id: int,
    id: int,
    value: V,
    now: u64,
)
    requires
        pre.wf(),
        pre.lifespan_opt() == None::<u64>,
        pre.completed_map().contains_key(kept_id),
        kept_id != id,
        completes_at(pre, post, id, value, now),
    ensures
        post.lifespan_opt() == None::<u64>,
        post.completed_map().contains_key(kept_id),
        post.completed_map()[kept_id] == pre.completed_map()[kept_id],
        post.task_state(kept_id) == Some(
            TaskState::<V, P>::Done(pre.completed_map()[kept_id].1),
        ),
{
    pre.lemma_wf_tables_disjoint();
}

/// No lifespan: with the lifespan unset, a completed, unretrieved task
/// remains retrievable indefinitely, regardless of how many other
/// completions occur. `states` is the chain of pool states some sequence of
/// completions of other tasks runs through, each step related to the next
/// exactly as completion relates them.
pub proof fn lemma_no_lifespan_never_expires<V, P: Progressible>(
    states: Seq<TaskPool<V, P>>,
    ids: Seq<int>,
    values: Seq<V>,
    nows: Seq<u64>,
    kept_id: int,
)
    requires
        states.len() == ids.len() + 1,
        values.len() == ids.len(),
        nows.len() == ids.len(),
        forall|k: int| 0 <= k < states.len() ==> (#[trigger] states[k]).wf(),
        states[0].lifespan_opt() == None::<u64>,
        states[0].completed_map().contains_key(kept_id),
        forall|k: int| 0 <= k < ids.len() ==> #[trigger] ids[k] != kept_id,
        forall|k: int|
            0 <= k < ids.len() ==> completes_at(
                #[trigger] states[k],
                states[k + 1],
                ids[k],
                values[k],
                nows[k],
            ),
    ensures
        states.last().lifespan_opt() == None::<u64>,
        states.last().completed_map().contains_key(kept_id),
        states.last().completed_map()[kept_id] == states[0].completed_map()[kept_id],
        states.last().task_state(kept_id) == Some(
            TaskState::<V, P>::Done(states[0].completed_map()[kept_id].1),
        ),
    decreases ids.len(),
{
    let n = ids.len() as int;
    if n == 0 {
        states[0].lemma_wf_tables_disjoint();
    } else {
        lemma_no_lifespan_never_expires(
            states.drop_last(),
            ids.drop_last(),
            values.drop_last(),
            nows.drop_last(),
            kept_id,
        );
        assert(states.drop_last().last() == states[n - 1]);
        assert(completes_at(states[n - 1], states[n], ids[n - 1], values[n - 1], nows[n - 1]));
        lemma_no_lifespan_completion_keeps_entry(
            states[n - 1],
            states[n],
            kept_id,
            ids[n - 1],
            values[n - 1],
            nows[n - 1],
        );
    }
}

/// No purge of pending: completion — the only operation that purges —
/// removes nothing from the pending table except the task being completed,
/// regardless of any entry's age.
pub proof fn lemma_purge_spares_pending<V, P: Progressible>(
    pre: TaskPool<V, P>,
    post: TaskPool<V, P>,
    pending_id: int,
    id: int,
    value: V,
    now: u64,
)
    requires
        pre.pending_map().contains_key(pending_id),
        pending_id != id,
        completes_at(pre, post, id, value, now),
    ensures
        post.pending_map().contains_key(pending_id),
        post.pending_map()[pending_id] == pre.pending_map()[pending_id],
{
}

impl<V, P> Default for TaskPool<V, P> where P: Progressible {
    /// An empty pool: nothing pending, nothing completed, no lifespan.
    fn default() -> (r: Self)
        ensures
            r.wf(),
            r.pending_map() == Map::<int, P>::empty(),
            r.completed_map() == Map::<int, (u64, V)>::empty(),
            r.lifespan_opt() == None::<u64>,
    {
        TaskPool { pending: Vec::new(), completed: Vec::new(), lifespan: None }
    }
}

} // verus!
