//! Scheduler: task lifecycle, admission control, retries and checkpoints.
use vstd::prelude::*;
use crate::context::ContextManager;
use crate::error::Fault;
use crate::llm::{LLMAdapter, LLMRequest};
use crate::memory::MemoryManager;
use crate::storage::StorageManager;
use crate::tool::ToolManager;
use vstd::string::StringExecFns;

verus! {

/// Where a task stands in its lifecycle. `Completed`, `Failed` and
/// `Cancelled` are terminal.
#[derive(Debug, Clone, Copy, PartialEq, Eq, Structural)]
pub enum TaskState {
    Submitted,
    Running,
    Suspended,
    Completed,
    Failed,
    Cancelled,
}

impl TaskState {
    pub open spec fn spec_is_terminal(self) -> bool {
        self is Completed || self is Failed || self is Cancelled
    }

    #[verifier::when_used_as_spec(spec_is_terminal)]
    pub fn is_terminal(self) -> (r: bool)
        ensures
            r == self.spec_is_terminal(),
    {
        match self {
            TaskState::Completed | TaskState::Failed | TaskState::Cancelled => true,
            _ => false,
        }
    }
}

/// The record of one submitted task.
#[derive(Debug)]
pub struct Task {
    /// Assigned at submission; equal to the task's position in the table.
    pub id: u64,
    /// What the task asks of the model.
    pub prompt: String,
    pub state: TaskState,
    /// Model faults met in the current step.
    pub attempts: u64,
    /// The completion, once the model has given one.
    pub output: Option<String>,
    /// The fault that ended the task, if one did.
    pub fault: Option<Fault>,
    /// Context snapshots written for the task.
    pub snapshots: u64,
}

/// The number of entries of `s` equal to `st`.
pub open spec fn count_state(s: Seq<TaskState>, st: TaskState) -> nat
    decreases s.len(),
{
    if s.len() == 0 {
        0
    } else {
        count_state(s.drop_last(), st) + if s.last() == st {
            1nat
        } else {
            0nat
        }
    }
}

/// The lifecycle state of each task, in submission order.
pub open spec fn states_of(s: Seq<Task>) -> Seq<TaskState> {
    s.map_values(|t: Task| t.state)
}

/// The first position at or after `k` of a task still waiting for a slot,
/// or the length of `s` where there is none.
pub open spec fn first_submitted_from(s: Seq<Task>, k: int) -> int
    decreases s.len() - k,
{
    if k < 0 || k >= s.len() {
        s.len() as int
    } else if s[k].state == TaskState::Submitted {
        k
    } else {
        first_submitted_from(s, k + 1)
    }
}

/// A task just submitted for `prompt` under id `id`: running where `runs`,
/// waiting otherwise.
pub open spec fn fresh_task(id: u64, prompt: String, runs: bool) -> Task {
    Task {
        id,
        prompt,
        state: if runs {
            TaskState::Running
        } else {
            TaskState::Submitted
        },
        attempts: 0,
        output: None,
        fault: None,
        snapshots: 0,
    }
}

/// `t` in state `st`, all else kept.
pub open spec fn with_state(t: Task, st: TaskState) -> Task {
    Task { state: st, ..t }
}

/// The table after the earliest waiting task, if any, takes a free slot.
pub open spec fn promote_first(s: Seq<Task>) -> Seq<Task> {
    let j = first_submitted_from(s, 0);
    if j < s.len() {
        s.update(j, with_state(s[j], TaskState::Running))
    } else {
        s
    }
}

/// The table after a slot is freed: the earliest waiting task takes it while
/// the scheduler admits work.
pub open spec fn after_release(s: Seq<Task>, accepting: bool) -> Seq<Task> {
    if accepting {
        promote_first(s)
    } else {
        s
    }
}

/// What a step of a running task came to.
#[derive(Debug, Clone, Copy, PartialEq, Eq, Structural)]
pub enum StepOutcome {
    /// The model answered and the task is ready for its checkpoint.
    Checkpoint,
    /// The model faulted; the task stays running and will try again.
    Retry,
    /// The task reached a terminal failure.
    Failed,
    /// The task finished and its checkpoint was written.
    Completed,
}

/// `t` once the model answered `text`: the step's fault count starts over.
pub open spec fn with_output(t: Task, text: String) -> Task {
    Task { output: Some(text), attempts: 0, ..t }
}

/// `t` after a model fault that is its `attempts`-th in the step.
pub open spec fn with_attempts(t: Task, attempts: u64) -> Task {
    Task { attempts, ..t }
}

/// `t` ended in failure by `f`.
pub open spec fn failed_with(t: Task, attempts: u64, f: Fault) -> Task {
    Task { state: TaskState::Failed, attempts, fault: Some(f), ..t }
}

/// Task `t` after one more model fault in its step, with `max_retries` as
/// the bound: it fails once the step has met that many faults.
pub open spec fn after_fault(t: Task, max_retries: nat, f: Fault) -> Task {
    let n = (t.attempts + 1) as u64;
    if n >= max_retries {
        failed_with(t, n, f)
    } else {
        with_attempts(t, n)
    }
}

/// Task `t` after `k` model faults in a row, each `f`.
pub open spec fn after_faults(t: Task, max_retries: nat, f: Fault, k: nat) -> Task
    decreases k,
{
    if k == 0 {
        t
    } else {
        after_fault(after_faults(t, max_retries, f, (k - 1) as nat), max_retries, f)
    }
}

/// A running task whose model only faults stays running through its first
/// `max_retries - 1` faults, with the count of faults met, and fails at
/// fault number `max_retries`, never later.
pub proof fn lemma_retry_bound(t: Task, max_retries: u64, f: Fault, k: nat)
    requires
        t.state == TaskState::Running,
        t.attempts == 0,
        1 <= max_retries,
        k <= max_retries,
    ensures
        k < max_retries ==> after_faults(t, max_retries as nat, f, k).state == TaskState::Running
            && after_faults(t, max_retries as nat, f, k).attempts == k,
        k == max_retries ==> after_faults(t, max_retries as nat, f, k).state == TaskState::Failed
            && after_faults(t, max_retries as nat, f, k).attempts == max_retries
            && after_faults(t, max_retries as nat, f, k).fault == Some(f),
    decreases k,
{
    if k > 0 {
        lemma_retry_bound(t, max_retries, f, (k - 1) as nat);
    }
}

/// The states of `n` tasks submitted in a row to an empty table that admits
/// work and runs at most `limit` tasks: each runs where a slot is free at its
/// submission and waits otherwise, as `TaskTable::submit` states.
pub open spec fn states_after_submits(n: nat, limit: nat) -> Seq<TaskState>
    decreases n,
{
    if n == 0 {
        Seq::empty()
    } else {
        let prev = states_after_submits((n - 1) as nat, limit);
        prev.push(
            if count_state(prev, TaskState::Running) < limit {
                TaskState::Running
            } else {
                TaskState::Submitted
            },
        )
    }
}

/// Submitting `n` tasks to an empty table with room for `limit` leaves the
/// first `limit` of them running and every later one waiting, so no more
/// than `limit` run.
pub proof fn lemma_submissions_fill_then_wait(n: nat, limit: nat)
    ensures
        states_after_submits(n, limit).len() == n,
        forall|i: int|
            0 <= i < n ==> #[trigger] states_after_submits(n, limit)[i] == if i < limit {
                TaskState::Running
            } else {
                TaskState::Submitted
            },
        count_state(states_after_submits(n, limit), TaskState::Running) == if n < limit {
            n
        } else {
            limit
        },
    decreases n,
{
    if n > 0 {
        let prev = states_after_submits((n - 1) as nat, limit);
        lemma_submissions_fill_then_wait((n - 1) as nat, limit);
        let st = if count_state(prev, TaskState::Running) < limit {
            TaskState::Running
        } else {
            TaskState::Submitted
        };
        lemma_count_push(prev, st, TaskState::Running);
    }
}

/// One more written snapshot, the count held at its largest value.
pub open spec fn one_more(n: u64) -> u64 {
    if n < u64::MAX {
        (n + 1) as u64
    } else {
        n
    }
}

/// `t` in state `st` after one more context snapshot.
pub open spec fn checkpointed(t: Task, st: TaskState) -> Task {
    Task { state: st, snapshots: one_more(t.snapshots), ..t }
}

/// `t` back from suspension: it resumes from the recovered context where
/// there is one and from its last step boundary otherwise.
pub open spec fn resumed(t: Task, recovered: Option<String>, runs: bool) -> Task {
    Task {
        state: if runs {
            TaskState::Running
        } else {
            TaskState::Submitted
        },
        prompt: match recovered {
            Some(c) => c,
            None => t.prompt,
        },
        attempts: 0,
        output: None,
        ..t
    }
}

/// `after` is `before` as it stands, or `before` admitted from the queue.
pub open spec fn kept_or_admitted(before: Task, after: Task) -> bool {
    after == before || (before.state == TaskState::Submitted && after == with_state(
        before,
        TaskState::Running,
    ))
}

/// Task `before`, running at position `id` when the scheduler stopped, became
/// `after`: suspended with its prompt as the snapshot in `snapshots`, or failed
/// by a fault of the context store.
pub open spec fn suspended_or_failed(before: Task, after: Task, id: u64, snapshots: Map<u64, Seq<char>>) -> bool {
    ||| after == checkpointed(before, TaskState::Suspended) && snapshots.contains_key(id)
        && snapshots[id] == before.prompt@
    ||| after.fault matches Some(f) && f is ContextFault && after == failed_with(
        before,
        before.attempts,
        f,
    )
}

/// Replacing task `id` and freeing a slot leaves every other task as it was,
/// but for one waiting task that may take the slot.
pub proof fn lemma_release_others(base: Seq<Task>, s: Seq<Task>, id: int, v: Task, accepting: bool)
    requires
        0 <= id < s.len(),
        s.len() == base.len(),
        forall|k: int| 0 <= k < s.len() && k != id ==> s[k] == base[k],
    ensures
        after_release(s.update(id, v), accepting).len() == base.len(),
        forall|k: int|
            0 <= k < base.len() && k != id ==> kept_or_admitted(
                base[k],
                #[trigger] after_release(s.update(id, v), accepting)[k],
            ),
{
    lemma_first_submitted(s.update(id, v), 0);
}

/// Freeing a slot changes no task but a waiting one.
pub proof fn lemma_release_keeps(s: Seq<Task>, accepting: bool, k: int)
    requires
        0 <= k < s.len(),
        s[k].state != TaskState::Submitted,
    ensures
        after_release(s, accepting).len() == s.len(),
        after_release(s, accepting)[k] == s[k],
{
    lemma_first_submitted(s, 0);
}

proof fn lemma_count_present(s: Seq<TaskState>, i: int, st: TaskState)
    requires
        0 <= i < s.len(),
        s[i] == st,
    ensures
        count_state(s, st) > 0,
    decreases s.len(),
{
    if i < s.len() - 1 {
        lemma_count_present(s.drop_last(), i, st);
    }
}

proof fn lemma_count_push(s: Seq<TaskState>, v: TaskState, st: TaskState)
    ensures
        count_state(s.push(v), st) == count_state(s, st) + if v == st {
            1nat
        } else {
            0nat
        },
{
    assert(s.push(v).drop_last() =~= s);
}

proof fn lemma_count_update(s: Seq<TaskState>, i: int, v: TaskState, st: TaskState)
    requires
        0 <= i < s.len(),
    ensures
        count_state(s.update(i, v), st) + (if s[i] == st {
            1int
        } else {
            0int
        }) == count_state(s, st) + (if v == st {
            1int
        } else {
            0int
        }),
    decreases s.len(),
{
    if i == s.len() - 1 {
        assert(s.update(i, v).drop_last() =~= s.drop_last());
    } else {
        lemma_count_update(s.drop_last(), i, v, st);
        assert(s.update(i, v).drop_last() =~= s.drop_last().update(i, v));
    }
}

proof fn lemma_count_absent(s: Seq<TaskState>, st: TaskState)
    requires
        forall|i: int| 0 <= i < s.len() ==> s[i] != st,
    ensures
        count_state(s, st) == 0,
    decreases s.len(),
{
    if s.len() > 0 {
        lemma_count_absent(s.drop_last(), st);
    }
}

proof fn lemma_count_le_len(s: Seq<TaskState>, st: TaskState)
    ensures
        count_state(s, st) <= s.len(),
    decreases s.len(),
{
    if s.len() > 0 {
        lemma_count_le_len(s.drop_last(), st);
    }
}

proof fn lemma_first_submitted(s: Seq<Task>, k: int)
    requires
        0 <= k <= s.len(),
    ensures
        k <= first_submitted_from(s, k) <= s.len(),
        first_submitted_from(s, k) < s.len() ==> s[first_submitted_from(s, k)].state
            == TaskState::Submitted,
        forall|j: int| k <= j < first_submitted_from(s, k) ==> s[j].state != TaskState::Submitted,
    decreases s.len() - k,
{
    if k < s.len() && s[k].state != TaskState::Submitted {
        lemma_first_submitted(s, k + 1);
    }
}

/// The table of tasks and the policy that moves them through their lifecycle.
/// At most `limit` tasks run at once; while the scheduler admits work, a task
/// waits only when every slot is taken.
pub struct TaskTable {
    tasks: Vec<Task>,
    running: usize,
    limit: usize,
    max_retries: u64,
    accepting: bool,
}

impl TaskTable {
    pub closed spec fn tasks(&self) -> Seq<Task> {
        self.tasks@
    }

    pub closed spec fn limit(&self) -> nat {
        self.limit as nat
    }

    pub closed spec fn max_retries(&self) -> nat {
        self.max_retries as nat
    }

    pub closed spec fn accepting(&self) -> bool {
        self.accepting
    }

    pub open spec fn states(&self) -> Seq<TaskState> {
        states_of(self.tasks())
    }

    /// How many tasks are running.
    pub open spec fn running_count(&self) -> nat {
        count_state(self.states(), TaskState::Running)
    }

    /// How many tasks wait for a slot.
    pub open spec fn waiting_count(&self) -> nat {
        count_state(self.states(), TaskState::Submitted)
    }

    /// Whether a task submitted now would run at once.
    pub open spec fn admits_now(&self) -> bool {
        self.running_count() < self.limit()
    }

    /// Whether `id` names a task of the table.
    pub open spec fn has(&self, id: u64) -> bool {
        id < self.tasks().len()
    }

    /// The task with id `id`.
    pub open spec fn task(&self, id: u64) -> Task {
        self.tasks()[id as int]
    }

    pub closed spec fn wf(&self) -> bool {
        self.wf_with(self.tasks@)
    }

    /// `wf` of the table with `s` in place of its tasks.
    closed spec fn wf_with(&self, s: Seq<Task>) -> bool {
        &&& forall|i: int| 0 <= i < s.len() ==> #[trigger] s[i].id == i
        &&& forall|i: int|
            0 <= i < s.len() && !(#[trigger] s[i].state).is_terminal()
                ==> s[i].attempts == 0 || s[i].attempts < self.max_retries
        &&& self.running == count_state(states_of(s), TaskState::Running)
        &&& self.running <= self.limit
        &&& self.accepting && count_state(states_of(s), TaskState::Submitted) > 0
            ==> self.running == self.limit
    }

    /// An empty table that admits work, runs at most `limit` tasks at once, and
    /// gives a task up after `max_retries` model faults in one step.
    pub fn new(limit: usize, max_retries: u64) -> (r: TaskTable)
        ensures
            r.wf(),
            r.tasks() == Seq::<Task>::empty(),
            r.limit() == limit,
            r.max_retries() == max_retries,
            r.accepting(),
    {
        let r = TaskTable { tasks: Vec::new(), running: 0, limit, max_retries, accepting: true };
        assert(r.states() =~= Seq::<TaskState>::empty());
        r
    }

    /// Puts `t` back at position `i` of `prev`, from which the task at `i`
    /// was taken out.
    fn restore(&mut self, i: usize, t: Task, Ghost(prev): Ghost<Seq<Task>>)
        requires
            i < prev.len(),
            old(self).tasks@ == prev.remove(i as int),
        ensures
            final(self).tasks@ == prev.update(i as int, t),
            count_state(states_of(final(self).tasks@), TaskState::Running) + (if prev[i as int].state
                == TaskState::Running {
                1int
            } else {
                0int
            }) == count_state(states_of(prev), TaskState::Running) + (if t.state == TaskState::Running {
                1int
            } else {
                0int
            }),
            count_state(states_of(final(self).tasks@), TaskState::Submitted) + (if prev[i as int].state
                == TaskState::Submitted {
                1int
            } else {
                0int
            }) == count_state(states_of(prev), TaskState::Submitted) + (if t.state
                == TaskState::Submitted {
                1int
            } else {
                0int
            }),
            final(self).running == old(self).running,
            final(self).limit == old(self).limit,
            final(self).max_retries == old(self).max_retries,
            final(self).accepting == old(self).accepting,
    {
        self.tasks.insert(i, t);
        proof {
            assert(self.tasks@ =~= prev.update(i as int, t));
            assert(states_of(self.tasks@) =~= states_of(prev).update(i as int, t.state));
            lemma_count_update(states_of(prev), i as int, t.state, TaskState::Running);
            lemma_count_update(states_of(prev), i as int, t.state, TaskState::Submitted);
        }
    }

    /// The table just after a running task left its slot: all of `wf` but the
    /// rule that a task waits only when every slot is taken.
    closed spec fn slot_freed(&self) -> bool {
        &&& self.running < self.limit
        &&& self.running == self.running_count()
        &&& self.accepting && self.waiting_count() > 0 ==> self.running + 1 == self.limit
        &&& forall|i: int| 0 <= i < self.tasks@.len() ==> #[trigger] self.tasks@[i].id == i
        &&& forall|i: int|
            0 <= i < self.tasks@.len() && !(#[trigger] self.tasks@[i].state).is_terminal()
                ==> self.tasks@[i].attempts == 0 || self.tasks@[i].attempts < self.max_retries
    }

    /// All of `wf` but the rule that a task waits only when every slot is taken,
    /// with a slot free.
    closed spec fn slot_open(&self) -> bool {
        &&& self.running < self.limit
        &&& self.running == self.running_count()
        &&& forall|i: int| 0 <= i < self.tasks@.len() ==> #[trigger] self.tasks@[i].id == i
        &&& forall|i: int|
            0 <= i < self.tasks@.len() && !(#[trigger] self.tasks@[i].state).is_terminal()
                ==> self.tasks@[i].attempts == 0 || self.tasks@[i].attempts < self.max_retries
    }

    /// Gives the free slot to the earliest waiting task, if there is one.
    fn promote_one(&mut self) -> (r: bool)
        requires
            old(self).slot_open(),
        ensures
            final(self).tasks() == promote_first(old(self).tasks()),
            r == (first_submitted_from(old(self).tasks(), 0) < old(self).tasks().len()),
            r ==> final(self).running == old(self).running + 1,
            !r ==> final(self).running == old(self).running && old(self).waiting_count() == 0,
            final(self).running == final(self).running_count(),
            final(self).running <= final(self).limit,
            forall|i: int| 0 <= i < final(self).tasks@.len() ==> #[trigger] final(self).tasks@[i].id == i,
            forall|i: int|
                0 <= i < final(self).tasks@.len() && !(#[trigger] final(self).tasks@[i].state).is_terminal()
                    ==> final(self).tasks@[i].attempts == 0 || final(self).tasks@[i].attempts
                    < final(self).max_retries,
            final(self).waiting_count() + (if r { 1int } else { 0int }) == old(self).waiting_count(),
            final(self).limit == old(self).limit,
            final(self).max_retries == old(self).max_retries,
            final(self).accepting == old(self).accepting,
    {
        proof {
            lemma_first_submitted(self.tasks@, 0);
        }
        let mut i: usize = 0;
        while i < self.tasks.len()
            invariant
                i <= self.tasks@.len(),
                *self == *old(self),
                self.slot_open(),
                first_submitted_from(self.tasks@, 0) == first_submitted_from(self.tasks@, i as int),
                forall|j: int| 0 <= j < i ==> self.tasks@[j].state != TaskState::Submitted,
            decreases self.tasks@.len() - i,
        {
            if self.tasks[i].state == TaskState::Submitted {
                let ghost prev = old(self).tasks@;
                let mut t = self.tasks.remove(i);
                t.state = TaskState::Running;
                proof {
                    assert(t == with_state(prev[i as int], TaskState::Running));
                }
                self.tasks.insert(i, t);
                proof {
                    assert(self.tasks@ =~= prev.update(i as int, t));
                    assert(states_of(self.tasks@) =~= states_of(prev).update(
                        i as int,
                        TaskState::Running,
                    ));
                    lemma_count_update(states_of(prev), i as int, TaskState::Running, TaskState::Running);
                    lemma_count_update(states_of(prev), i as int, TaskState::Running, TaskState::Submitted);
                }
                self.running = self.running + 1;
                return true;
            }
            i = i + 1;
        }
        proof {
            lemma_count_absent(self.states(), TaskState::Submitted);
        }
        false
    }

    /// Hands a freed slot to the earliest waiting task while work is admitted.
    fn release(&mut self)
        requires
            old(self).slot_freed(),
        ensures
            final(self).wf(),
            final(self).tasks() == after_release(old(self).tasks(), old(self).accepting),
            final(self).limit == old(self).limit,
            final(self).max_retries == old(self).max_retries,
            final(self).accepting == old(self).accepting,
    {
        if self.accepting {
            self.promote_one();
        }
    }

    /// Puts `t` back at position `i` of `prev`, where a running task was
    /// taken out, and hands the freed slot on.
    fn leave_slot(&mut self, i: usize, t: Task, Ghost(prev): Ghost<Seq<Task>>)
        requires
            old(self).wf_with(prev),
            i < prev.len(),
            old(self).tasks@ == prev.remove(i as int),
            prev[i as int].state == TaskState::Running,
            t.id == i,
            t.state != TaskState::Running,
            t.state != TaskState::Submitted,
            !t.state.is_terminal() ==> t.attempts == 0 || t.attempts < old(self).max_retries,
        ensures
            final(self).wf(),
            final(self).tasks() == after_release(prev.update(i as int, t), old(self).accepting()),
            final(self).limit() == old(self).limit(),
            final(self).max_retries() == old(self).max_retries(),
            final(self).accepting() == old(self).accepting(),
    {
        self.restore(i, t, Ghost(prev));
        proof {
            lemma_count_present(states_of(prev), i as int, TaskState::Running);
        }
        self.running = self.running - 1;
        self.release();
    }

    /// Puts `t` back at position `i` of `prev`, where a task that held no slot
    /// was taken out.
    fn keep_slots(&mut self, i: usize, t: Task, Ghost(prev): Ghost<Seq<Task>>)
        requires
            old(self).wf_with(prev),
            i < prev.len(),
            old(self).tasks@ == prev.remove(i as int),
            prev[i as int].state != TaskState::Running,
            t.id == i,
            t.state != TaskState::Running,
            t.state == TaskState::Submitted ==> prev[i as int].state == TaskState::Submitted,
            !t.state.is_terminal() ==> t.attempts == 0 || t.attempts < old(self).max_retries,
        ensures
            final(self).wf(),
            final(self).tasks() == prev.update(i as int, t),
            final(self).limit() == old(self).limit(),
            final(self).max_retries() == old(self).max_retries(),
            final(self).accepting() == old(self).accepting(),
    {
        self.restore(i, t, Ghost(prev));
    }

    /// Records what the model answered for running task `id`. An answer
    /// readies the task for its checkpoint. A fault is retried until the
    /// step has met `max_retries` of them, and then fails the task.
    pub fn record_model_result(&mut self, id: u64, result: Result<String, Fault>) -> (r: StepOutcome)
        requires
            old(self).wf(),
            old(self).has(id),
            old(self).task(id).state == TaskState::Running,
        ensures
            final(self).wf(),
            final(self).limit() == old(self).limit(),
            final(self).max_retries() == old(self).max_retries(),
            final(self).accepting() == old(self).accepting(),
            result matches Ok(text) ==> {
                &&& r == StepOutcome::Checkpoint
                &&& final(self).tasks() == old(self).tasks().update(
                    id as int,
                    with_output(old(self).task(id), text),
                )
            },
            result matches Err(f) ==> final(self).task(id) == after_fault(
                old(self).task(id),
                old(self).max_retries(),
                f,
            ),
            result matches Err(f) ==> {
                let n = (old(self).task(id).attempts + 1) as u64;
                if n >= old(self).max_retries() {
                    &&& r == StepOutcome::Failed
                    &&& final(self).tasks() == after_release(
                        old(self).tasks().update(id as int, failed_with(old(self).task(id), n, f)),
                        old(self).accepting(),
                    )
                } else {
                    &&& r == StepOutcome::Retry
                    &&& final(self).tasks() == old(self).tasks().update(
                        id as int,
                        with_attempts(old(self).task(id), n),
                    )
                }
            },
    {
        let len = self.tasks.len();
        assert(id < len);
        let i = id as usize;
        let ghost prev = self.tasks@;
        let mut t = self.tasks.remove(i);
        match result {
            Ok(text) => {
                let ghost answer = text;
                t.output = Some(text);
                t.attempts = 0;
                assert(t == with_output(prev[i as int], answer));
                self.restore(i, t, Ghost(prev));
                proof {
                    assert(states_of(self.tasks@) =~= states_of(prev));
                }
                StepOutcome::Checkpoint
            },
            Err(f) => {
                let n = t.attempts + 1;
                if n >= self.max_retries {
                    t.state = TaskState::Failed;
                    t.attempts = n;
                    t.fault = Some(f);
                    let ghost done = t;
                    self.leave_slot(i, t, Ghost(prev));
                    proof {
                        lemma_release_keeps(prev.update(i as int, done), old(self).accepting, i as int);
                    }
                    StepOutcome::Failed
                } else {
                    t.attempts = n;
                    self.restore(i, t, Ghost(prev));
                    StepOutcome::Retry
                }
            },
        }
    }

    /// The position of task `id`, where the table holds it.
    fn slot_of(&self, id: u64) -> (r: Option<usize>)
        ensures
            r matches Some(i) ==> self.has(id) && i == id,
            r is None ==> !self.has(id),
    {
        if id < self.tasks.len() as u64 {
            Some(id as usize)
        } else {
            None
        }
    }

    /// Records the checkpoint of running task `id`, written where `result` is
    /// `Ok`. A written checkpoint completes the task; a fault of the context
    /// store fails it. Either way its slot is freed.
    pub fn record_checkpoint(&mut self, id: u64, result: Result<String, Fault>)
        requires
            old(self).wf(),
            old(self).has(id),
            old(self).task(id).state == TaskState::Running,
        ensures
            final(self).wf(),
            final(self).limit() == old(self).limit(),
            final(self).max_retries() == old(self).max_retries(),
            final(self).accepting() == old(self).accepting(),
            result is Ok ==> final(self).tasks() == after_release(
                old(self).tasks().update(id as int, checkpointed(old(self).task(id), TaskState::Completed)),
                old(self).accepting(),
            ),
            result matches Err(f) ==> final(self).tasks() == after_release(
                old(self).tasks().update(
                    id as int,
                    failed_with(old(self).task(id), old(self).task(id).attempts, f),
                ),
                old(self).accepting(),
            ),
    {
        self.settle(id, result, TaskState::Completed);
    }

    /// Records the snapshot of running task `id` on its way to suspension,
    /// written where `result` is `Ok`. A written snapshot suspends the task; a
    /// fault of the context store fails it. Either way its slot is freed.
    pub fn record_suspension(&mut self, id: u64, result: Result<String, Fault>)
        requires
            old(self).wf(),
            old(self).has(id),
            old(self).task(id).state == TaskState::Running,
        ensures
            final(self).wf(),
            final(self).limit() == old(self).limit(),
            final(self).max_retries() == old(self).max_retries(),
            final(self).accepting() == old(self).accepting(),
            result is Ok ==> final(self).tasks() == after_release(
                old(self).tasks().update(id as int, checkpointed(old(self).task(id), TaskState::Suspended)),
                old(self).accepting(),
            ),
            result matches Err(f) ==> final(self).tasks() == after_release(
                old(self).tasks().update(
                    id as int,
                    failed_with(old(self).task(id), old(self).task(id).attempts, f),
                ),
                old(self).accepting(),
            ),
    {
        self.settle(id, result, TaskState::Suspended);
    }

    /// Moves running task `id` to `st` after a written snapshot, or to
    /// `Failed` after a fault of the context store.
    fn settle(&mut self, id: u64, result: Result<String, Fault>, st: TaskState)
        requires
            old(self).wf(),
            old(self).has(id),
            old(self).task(id).state == TaskState::Running,
            st == TaskState::Completed || st == TaskState::Suspended,
        ensures
            final(self).wf(),
            final(self).limit() == old(self).limit(),
            final(self).max_retries() == old(self).max_retries(),
            final(self).accepting() == old(self).accepting(),
            result is Ok ==> final(self).tasks() == after_release(
                old(self).tasks().update(id as int, checkpointed(old(self).task(id), st)),
                old(self).accepting(),
            ),
            result matches Err(f) ==> final(self).tasks() == after_release(
                old(self).tasks().update(
                    id as int,
                    failed_with(old(self).task(id), old(self).task(id).attempts, f),
                ),
                old(self).accepting(),
            ),
    {
        let len = self.tasks.len();
        assert(id < len);
        let i = id as usize;
        let ghost prev = self.tasks@;
        let mut t = self.tasks.remove(i);
        match result {
            Ok(_) => {
                t.state = st;
                if t.snapshots < u64::MAX {
                    t.snapshots = t.snapshots + 1;
                }
                assert(t == checkpointed(prev[i as int], st));
            },
            Err(f) => {
                t.state = TaskState::Failed;
                t.fault = Some(f);
            },
        }
        self.leave_slot(i, t, Ghost(prev));
    }

    /// Cancels task `id`: a task that has not reached a terminal state becomes
    /// `Cancelled`, and a running one frees its slot. A terminal task is left
    /// as it is. An unknown id is `NotFound`.
    pub fn cancel(&mut self, id: u64) -> (r: Result<(), Fault>)
        requires
            old(self).wf(),
        ensures
            final(self).wf(),
            final(self).limit() == old(self).limit(),
            final(self).max_retries() == old(self).max_retries(),
            final(self).accepting() == old(self).accepting(),
            !old(self).has(id) ==> r == Err::<(), Fault>(Fault::NotFound) && final(self).tasks() == old(self).tasks(),
            old(self).has(id) ==> r is Ok,
            old(self).has(id) && old(self).task(id).state.is_terminal() ==> final(self).tasks()
                == old(self).tasks(),
            old(self).has(id) && old(self).task(id).state == TaskState::Running ==> final(self).tasks()
                == after_release(
                old(self).tasks().update(id as int, with_state(old(self).task(id), TaskState::Cancelled)),
                old(self).accepting(),
            ),
            old(self).has(id) && (old(self).task(id).state == TaskState::Submitted || old(self).task(
                id,
            ).state == TaskState::Suspended) ==> final(self).tasks() == old(self).tasks().update(
                id as int,
                with_state(old(self).task(id), TaskState::Cancelled),
            ),
    {
        let i = match self.slot_of(id) {
            Some(i) => i,
            None => return Err(Fault::NotFound),
        };
        let st = self.tasks[i].state;
        if st.is_terminal() {
            return Ok(());
        }
        let ghost prev = self.tasks@;
        let mut t = self.tasks.remove(i);
        t.state = TaskState::Cancelled;
        if st == TaskState::Running {
            self.leave_slot(i, t, Ghost(prev));
        } else {
            self.keep_slots(i, t, Ghost(prev));
            proof {
                if self.accepting && self.waiting_count() > 0 {
                    lemma_count_update(states_of(prev), i as int, TaskState::Cancelled, TaskState::Submitted);
                    assert(states_of(self.tasks@) =~= states_of(prev).update(i as int, TaskState::Cancelled));
                }
            }
        }
        Ok(())
    }

    /// Brings suspended task `id` back with the context `recovered` from the
    /// context store. It runs at once where work is admitted and a slot is
    /// free, and waits otherwise.
    pub fn resume(&mut self, id: u64, recovered: Option<String>)
        requires
            old(self).wf(),
            old(self).has(id),
            old(self).task(id).state == TaskState::Suspended,
        ensures
            final(self).wf(),
            final(self).limit() == old(self).limit(),
            final(self).max_retries() == old(self).max_retries(),
            final(self).accepting() == old(self).accepting(),
            final(self).tasks() == old(self).tasks().update(
                id as int,
                resumed(old(self).task(id), recovered, old(self).accepting() && old(self).admits_now()),
            ),
    {
        let len = self.tasks.len();
        assert(id < len);
        let i = id as usize;
        let runs = self.accepting && self.running < self.limit;
        let ghost prev = self.tasks@;
        let ghost rec = recovered;
        let mut t = self.tasks.remove(i);
        t.state = if runs {
            TaskState::Running
        } else {
            TaskState::Submitted
        };
        match recovered {
            Some(c) => {
                t.prompt = c;
            },
            None => {},
        }
        t.attempts = 0;
        t.output = None;
        assert(t == resumed(prev[i as int], rec, runs));
        self.restore(i, t, Ghost(prev));
        if runs {
            self.running = self.running + 1;
        }
        proof {
            assert(states_of(self.tasks@) =~= states_of(prev).update(i as int, t.state));
        }
    }

    /// Fails suspended task `id` with `f`, a fault met while bringing it back.
    pub fn fail_suspended(&mut self, id: u64, f: Fault)
        requires
            old(self).wf(),
            old(self).has(id),
            old(self).task(id).state == TaskState::Suspended,
        ensures
            final(self).wf(),
            final(self).limit() == old(self).limit(),
            final(self).max_retries() == old(self).max_retries(),
            final(self).accepting() == old(self).accepting(),
            final(self).tasks() == old(self).tasks().update(
                id as int,
                failed_with(old(self).task(id), old(self).task(id).attempts, f),
            ),
    {
        let len = self.tasks.len();
        assert(id < len);
        let i = id as usize;
        let ghost prev = self.tasks@;
        let mut t = self.tasks.remove(i);
        t.state = TaskState::Failed;
        t.fault = Some(f);
        self.keep_slots(i, t, Ghost(prev));
        proof {
            assert(states_of(self.tasks@) =~= states_of(prev).update(i as int, TaskState::Failed));
            lemma_count_update(states_of(prev), i as int, TaskState::Failed, TaskState::Submitted);
        }
    }

    /// Stops admitting work: later submissions are refused and freed slots
    /// stay free.
    pub fn close(&mut self)
        requires
            old(self).wf(),
        ensures
            final(self).wf(),
            !final(self).accepting(),
            final(self).tasks() == old(self).tasks(),
            final(self).limit() == old(self).limit(),
            final(self).max_retries() == old(self).max_retries(),
    {
        self.accepting = false;
    }

    /// Admits work again, handing each free slot to the earliest waiting task.
    pub fn open(&mut self)
        requires
            old(self).wf(),
        ensures
            final(self).wf(),
            final(self).accepting(),
            old(self).accepting() ==> *final(self) == *old(self),
            final(self).limit() == old(self).limit(),
            final(self).max_retries() == old(self).max_retries(),
            final(self).tasks().len() == old(self).tasks().len(),
            forall|i: int|
                0 <= i < old(self).tasks().len() ==> #[trigger] final(self).tasks()[i] == old(self).tasks()[i]
                    || (old(self).tasks()[i].state == TaskState::Submitted && final(self).tasks()[i]
                    == with_state(old(self).tasks()[i], TaskState::Running)),
    {
        if self.accepting {
            return;
        }
        self.accepting = true;
        while self.running < self.limit
            invariant
                !old(self).accepting,
                self.running == self.running_count(),
                self.running <= self.limit,
                self.accepting,
                self.limit == old(self).limit,
                self.max_retries == old(self).max_retries,
                forall|i: int| 0 <= i < self.tasks@.len() ==> #[trigger] self.tasks@[i].id == i,
                forall|i: int|
                    0 <= i < self.tasks@.len() && !(#[trigger] self.tasks@[i].state).is_terminal()
                        ==> self.tasks@[i].attempts == 0 || self.tasks@[i].attempts < self.max_retries,
                self.tasks@.len() == old(self).tasks@.len(),
                forall|i: int|
                    0 <= i < old(self).tasks@.len() ==> #[trigger] self.tasks@[i] == old(self).tasks@[i]
                        || (old(self).tasks@[i].state == TaskState::Submitted && self.tasks@[i]
                        == with_state(old(self).tasks@[i], TaskState::Running)),
            decreases self.limit - self.running,
        {
            let ghost prev = self.tasks@;
            proof {
                lemma_first_submitted(prev, 0);
            }
            if !self.promote_one() {
                return;
            }
            proof {
                let j = first_submitted_from(prev, 0);
                assert forall|i: int| 0 <= i < old(self).tasks@.len() implies #[trigger] self.tasks@[i]
                    == old(self).tasks@[i] || (old(self).tasks@[i].state == TaskState::Submitted
                    && self.tasks@[i] == with_state(old(self).tasks@[i], TaskState::Running)) by {
                    if i == j {
                        assert(prev[i].state == TaskState::Submitted);
                    } else {
                        assert(self.tasks@[i] == prev[i]);
                    }
                }
            }
        }
    }

    /// The state of task `id`, where the table holds it.
    pub fn status(&self, id: u64) -> (r: Option<TaskState>)
        ensures
            r matches Some(st) ==> self.has(id) && st == self.task(id).state,
            r is None ==> !self.has(id),
    {
        match self.slot_of(id) {
            Some(i) => Some(self.tasks[i].state),
            None => None,
        }
    }

    /// The completion of task `id`, where the table holds one.
    pub fn output(&self, id: u64) -> (r: Option<String>)
        ensures
            r matches Some(o) ==> self.has(id) && (self.task(id).output matches Some(x) && o@ == x@),
            r is None ==> !self.has(id) || self.task(id).output is None,
    {
        match self.slot_of(id) {
            Some(i) => match &self.tasks[i].output {
                Some(o) => Some(o.clone()),
                None => None,
            },
            None => None,
        }
    }

    /// The prompt of task `id`, where the table holds it.
    pub fn prompt(&self, id: u64) -> (r: Option<String>)
        ensures
            r matches Some(p) ==> self.has(id) && p@ == self.task(id).prompt@,
            r is None ==> !self.has(id),
    {
        match self.slot_of(id) {
            Some(i) => Some(self.tasks[i].prompt.clone()),
            None => None,
        }
    }

    /// The model faults met in the current step of task `id`.
    pub fn attempts(&self, id: u64) -> (r: Option<u64>)
        ensures
            r matches Some(n) ==> self.has(id) && n == self.task(id).attempts,
            r is None ==> !self.has(id),
    {
        match self.slot_of(id) {
            Some(i) => Some(self.tasks[i].attempts),
            None => None,
        }
    }

    /// The context snapshots written for task `id`.
    pub fn snapshot_count(&self, id: u64) -> (r: Option<u64>)
        ensures
            r matches Some(n) ==> self.has(id) && n == self.task(id).snapshots,
            r is None ==> !self.has(id),
    {
        match self.slot_of(id) {
            Some(i) => Some(self.tasks[i].snapshots),
            None => None,
        }
    }

    /// The fault that ended task `id`, where one did.
    pub fn fault(&self, id: u64) -> (r: Option<&Fault>)
        ensures
            r matches Some(f) ==> self.has(id) && self.task(id).fault == Some(*f),
            r is None ==> !self.has(id) || self.task(id).fault is None,
    {
        match self.slot_of(id) {
            Some(i) => match &self.tasks[i].fault {
                Some(f) => Some(f),
                None => None,
            },
            None => None,
        }
    }

    /// How many tasks the table holds.
    pub fn len(&self) -> (r: usize)
        ensures
            r == self.tasks().len(),
    {
        self.tasks.len()
    }

    /// How many tasks are running.
    pub fn running(&self) -> (r: usize)
        requires
            self.wf(),
        ensures
            r == self.running_count(),
    {
        self.running
    }

    /// Adds a task for `prompt`. It runs at once where a slot is free and
    /// waits otherwise. Refused while the scheduler admits no work.
    pub fn submit(&mut self, prompt: String) -> (r: Result<u64, Fault>)
        requires
            old(self).wf(),
        ensures
            final(self).wf(),
            final(self).limit() == old(self).limit(),
            final(self).max_retries() == old(self).max_retries(),
            final(self).accepting() == old(self).accepting(),
            !old(self).accepting() ==> {
                &&& r == Err::<u64, Fault>(Fault::AdmissionRejected)
                &&& final(self).tasks() == old(self).tasks()
            },
            old(self).accepting() ==> {
                &&& r == Ok::<u64, Fault>(old(self).tasks().len() as u64)
                &&& final(self).tasks() == old(self).tasks().push(
                    fresh_task(old(self).tasks().len() as u64, prompt, old(self).admits_now()),
                )
            },
    {
        if !self.accepting {
            return Err(Fault::AdmissionRejected);
        }
        proof {
            lemma_count_le_len(self.states(), TaskState::Running);
        }
        let id = self.tasks.len() as u64;
        let state = if self.running < self.limit {
            TaskState::Running
        } else {
            TaskState::Submitted
        };
        let t = Task { id, prompt, state, attempts: 0, output: None, fault: None, snapshots: 0 };
        let ghost prev = self.tasks@;
        self.tasks.push(t);
        proof {
            assert(states_of(self.tasks@) =~= states_of(prev).push(state));
            lemma_count_push(states_of(prev), state, TaskState::Running);
            lemma_count_push(states_of(prev), state, TaskState::Submitted);
        }
        if self.running < self.limit {
            self.running = self.running + 1;
        }
        Ok(id)
    }
}


/// A scheduler's process-wide lifecycle: it admits work between `start` and
/// `stop`.
pub trait Scheduler {
    /// The scheduler's own well-formedness, kept by both operations.
    spec fn inv(&self) -> bool;

    /// Whether the scheduler admits work.
    spec fn is_running(&self) -> bool;

    fn start(&mut self) -> (r: Result<(), Fault>)
        requires
            old(self).inv(),
        ensures
            final(self).inv(),
            r is Ok ==> final(self).is_running(),
    ;

    fn stop(&mut self) -> (r: Result<(), Fault>)
        requires
            old(self).inv(),
        ensures
            final(self).inv(),
            !final(self).is_running(),
    ;
}

/// A scheduler that holds the four subsystems and only keeps its lifecycle.
pub struct NoopScheduler<L, M, S, T> {
    pub llm: L,
    pub memory: M,
    pub storage: S,
    pub tool: T,
    /// Whether the scheduler admits work.
    pub running: bool,
}

impl<L: LLMAdapter, M: MemoryManager, S: StorageManager, T: ToolManager> NoopScheduler<L, M, S, T> {
    /// Whether the scheduler holds exactly these subsystems.
    pub open spec fn holds(&self, llm: L, memory: M, storage: S, tool: T) -> bool {
        self.llm == llm && self.memory == memory && self.storage == storage && self.tool == tool
    }

    pub fn new(llm: L, memory: M, storage: S, tool: T) -> (r: NoopScheduler<L, M, S, T>)
        ensures
            r.holds(llm, memory, storage, tool),
            !r.is_running(),
    {
        NoopScheduler { llm, memory, storage, tool, running: false }
    }
}

impl<L: LLMAdapter, M: MemoryManager, S: StorageManager, T: ToolManager> Scheduler for NoopScheduler<
    L,
    M,
    S,
    T,
> {
    open spec fn inv(&self) -> bool {
        true
    }

    closed spec fn is_running(&self) -> bool {
        self.running
    }

    fn start(&mut self) -> (r: Result<(), Fault>) {
        self.running = true;
        Ok(())
    }

    fn stop(&mut self) -> (r: Result<(), Fault>) {
        self.running = false;
        Ok(())
    }
}

/// The kernel's scheduler: it runs the steps of admitted tasks against a model
/// adapter and checkpoints them in a context store.
pub struct KernelScheduler<L, C> {
    llm: L,
    context: C,
    table: TaskTable,
}

impl<L: LLMAdapter, C: ContextManager> KernelScheduler<L, C> {
    pub closed spec fn adapter(&self) -> L {
        self.llm
    }

    pub closed spec fn ctx(&self) -> C {
        self.context
    }

    pub closed spec fn tasks_table(&self) -> TaskTable {
        self.table
    }

    pub open spec fn wf(&self) -> bool {
        self.tasks_table().wf() && self.ctx().inv()
    }

    /// A scheduler that admits work, runs at most `limit` tasks at once and
    /// gives a task up after `max_retries` model faults in one step.
    pub fn new(llm: L, context: C, limit: usize, max_retries: u64) -> (r: KernelScheduler<L, C>)
        requires
            context.inv(),
        ensures
            r.wf(),
            r.adapter() == llm,
            r.ctx() == context,
            r.tasks_table().tasks() == Seq::<Task>::empty(),
            r.tasks_table().limit() == limit,
            r.tasks_table().max_retries() == max_retries,
            r.tasks_table().accepting(),
    {
        KernelScheduler { llm, context, table: TaskTable::new(limit, max_retries) }
    }

    /// The task table, for status queries.
    pub fn table(&self) -> (r: &TaskTable)
        ensures
            *r == self.tasks_table(),
    {
        &self.table
    }

    /// Takes the scheduler apart into its model adapter, context store and
    /// task table, for a host that persists the store.
    pub fn into_parts(self) -> (r: (L, C, TaskTable))
        ensures
            r.0 == self.adapter(),
            r.1 == self.ctx(),
            r.2 == self.tasks_table(),
    {
        (self.llm, self.context, self.table)
    }

    /// The context store.
    pub fn context(&self) -> (r: &C)
        ensures
            *r == self.ctx(),
    {
        &self.context
    }

    /// Submits a task for `prompt`; see `TaskTable::submit`.
    pub fn submit(&mut self, prompt: &str) -> (r: Result<u64, Fault>)
        requires
            old(self).wf(),
        ensures
            final(self).wf(),
            final(self).adapter() == old(self).adapter(),
            final(self).ctx() == old(self).ctx(),
            final(self).tasks_table().limit() == old(self).tasks_table().limit(),
            final(self).tasks_table().max_retries() == old(self).tasks_table().max_retries(),
            final(self).tasks_table().accepting() == old(self).tasks_table().accepting(),
            !old(self).tasks_table().accepting() ==> {
                &&& r == Err::<u64, Fault>(Fault::AdmissionRejected)
                &&& final(self).tasks_table().tasks() == old(self).tasks_table().tasks()
            },
            old(self).tasks_table().accepting() ==> {
                let id = old(self).tasks_table().tasks().len() as u64;
                &&& r == Ok::<u64, Fault>(id)
                &&& final(self).tasks_table().tasks().len() == id + 1
                &&& final(self).tasks_table().tasks().take(id as int) == old(self).tasks_table().tasks()
                &&& final(self).tasks_table().task(id).prompt@ == prompt@
                &&& final(self).tasks_table().task(id).state == if old(self).tasks_table().admits_now() {
                    TaskState::Running
                } else {
                    TaskState::Submitted
                }
                &&& final(self).tasks_table().task(id).attempts == 0
                &&& final(self).tasks_table().task(id).output is None
                &&& final(self).tasks_table().task(id).snapshots == 0
            },
    {
        let n = self.table.len();
        let r = self.table.submit(String::from_str(prompt));
        proof {
            if old(self).table.accepting() {
                assert(self.table.tasks().take(old(self).table.tasks().len() as int)
                    =~= old(self).table.tasks());
            }
        }
        r
    }

    /// Runs one step of task `id`, where it is running: one call of the model
    /// adapter, then, on an answer, the checkpoint of that answer in the
    /// context store. `None` where `id` names no running task.
    pub fn step(&mut self, id: u64) -> (r: Option<StepOutcome>)
        requires
            old(self).wf(),
        ensures
            final(self).wf(),
            final(self).adapter() == old(self).adapter(),
            final(self).tasks_table().limit() == old(self).tasks_table().limit(),
            final(self).tasks_table().max_retries() == old(self).tasks_table().max_retries(),
            final(self).tasks_table().accepting() == old(self).tasks_table().accepting(),
            r is None <==> !(old(self).tasks_table().has(id) && old(self).tasks_table().task(id).state
                == TaskState::Running),
            r is None ==> final(self).tasks_table() == old(self).tasks_table() && final(self).ctx()
                == old(self).ctx(),
            r != Some(StepOutcome::Checkpoint),
            r is Some ==> final(self).tasks_table().tasks().len() == old(self).tasks_table().tasks().len(),
            r == Some(StepOutcome::Completed) ==> {
                let t = final(self).tasks_table().task(id);
                let answer = old(self).adapter().completion(old(self).tasks_table().task(id).prompt@);
                &&& t.state == TaskState::Completed
                &&& t.output matches Some(o) && o@ == answer
                &&& t.snapshots == one_more(old(self).tasks_table().task(id).snapshots)
                &&& final(self).ctx().snapshots() == old(self).ctx().snapshots().insert(id, answer)
            },
            r == Some(StepOutcome::Retry) ==> {
                &&& final(self).tasks_table().task(id).state == TaskState::Running
                &&& final(self).tasks_table().task(id).attempts == old(self).tasks_table().task(id).attempts + 1
                &&& final(self).tasks_table().task(id).attempts < old(self).tasks_table().max_retries()
                &&& final(self).ctx() == old(self).ctx()
            },
            r == Some(StepOutcome::Failed) ==> {
                let t = final(self).tasks_table().task(id);
                let answer = old(self).adapter().completion(old(self).tasks_table().task(id).prompt@);
                &&& t.state == TaskState::Failed
                &&& t.fault matches Some(f) && {
                    ||| f is ModelFault && t.attempts == old(self).tasks_table().task(id).attempts + 1
                        && t.attempts >= old(self).tasks_table().max_retries()
                    ||| f is ContextFault && (t.output matches Some(o) && o@ == answer)
                }
            },
            old(self).adapter().never_faults() && old(self).ctx().never_faults() && old(
                self).tasks_table().has(id) && old(self).tasks_table().task(id).state
                == TaskState::Running ==> r == Some(StepOutcome::Completed),
            final(self).ctx().never_faults() == old(self).ctx().never_faults(),
            forall|k: u64|
                k != id && #[trigger] old(self).tasks_table().has(k) ==> kept_or_admitted(
                    old(self).tasks_table().task(k),
                    final(self).tasks_table().task(k),
                ),
    {
        let prompt = match self.table.prompt(id) {
            Some(p) => p,
            None => return None,
        };
        match self.table.status(id) {
            Some(TaskState::Running) => {},
            _ => return None,
        }
        let ghost before = self.table.tasks();
        let answer = match self.llm.infer(LLMRequest { prompt }) {
            Ok(resp) => Ok(resp.content),
            Err(f) => Err(f),
        };
        let outcome = self.table.record_model_result(id, answer);
        match outcome {
            StepOutcome::Checkpoint => {},
            _ => {
                proof {
                    if outcome == StepOutcome::Failed {
                        let n = (before[id as int].attempts + 1) as u64;
                        lemma_release_keeps(
                            before.update(id as int, failed_with(before[id as int], n, answer->Err_0)),
                            old(self).table.accepting(),
                            id as int,
                        );
                        lemma_release_others(
                            before,
                            before,
                            id as int,
                            failed_with(before[id as int], n, answer->Err_0),
                            old(self).table.accepting(),
                        );
                    }
                    assert forall|k: u64|
                        k != id && #[trigger] old(self).tasks_table().has(k) implies kept_or_admitted(
                        old(self).tasks_table().task(k),
                        self.tasks_table().task(k),
                    ) by {
                        if outcome == StepOutcome::Failed {
                            let n = (before[id as int].attempts + 1) as u64;
                            assert(kept_or_admitted(
                                before[k as int],
                                after_release(
                                    before.update(id as int, failed_with(before[id as int], n, answer->Err_0)),
                                    old(self).table.accepting(),
                                )[k as int],
                            ));
                        }
                    }
                }
                return Some(outcome);
            },
        }
        let output = match self.table.output(id) {
            Some(o) => o,
            None => return Some(StepOutcome::Failed),
        };
        let ghost mid = self.table.tasks();
        let written = self.context.gen_snapshot(id, output.as_str());
        let ok = written.is_ok();
        let ghost fault = written;
        self.table.record_checkpoint(id, written);
        proof {
            let v = if ok {
                checkpointed(mid[id as int], TaskState::Completed)
            } else {
                failed_with(mid[id as int], mid[id as int].attempts, fault->Err_0)
            };
            lemma_release_keeps(mid.update(id as int, v), old(self).table.accepting(), id as int);
            lemma_release_others(before, mid, id as int, v, old(self).table.accepting());
            assert forall|k: u64|
                k != id && #[trigger] old(self).tasks_table().has(k) implies kept_or_admitted(
                old(self).tasks_table().task(k),
                self.tasks_table().task(k),
            ) by {
                assert(kept_or_admitted(
                    before[k as int],
                    after_release(mid.update(id as int, v), old(self).table.accepting())[k as int],
                ));
            }
        }
        if ok {
            Some(StepOutcome::Completed)
        } else {
            Some(StepOutcome::Failed)
        }
    }

    /// Cancels task `id`; see `TaskTable::cancel`. No snapshot is written.
    pub fn cancel(&mut self, id: u64) -> (r: Result<(), Fault>)
        requires
            old(self).wf(),
        ensures
            final(self).wf(),
            final(self).adapter() == old(self).adapter(),
            final(self).ctx() == old(self).ctx(),
            final(self).tasks_table().limit() == old(self).tasks_table().limit(),
            final(self).tasks_table().accepting() == old(self).tasks_table().accepting(),
            !old(self).tasks_table().has(id) ==> r == Err::<(), Fault>(Fault::NotFound)
                && final(self).tasks_table().tasks() == old(self).tasks_table().tasks(),
            old(self).tasks_table().has(id) ==> r is Ok,
            old(self).tasks_table().has(id) && old(self).tasks_table().task(id).state.is_terminal()
                ==> final(self).tasks_table().tasks() == old(self).tasks_table().tasks(),
            old(self).tasks_table().has(id) && old(self).tasks_table().task(id).state == TaskState::Running
                ==> final(self).tasks_table().tasks() == after_release(
                old(self).tasks_table().tasks().update(
                    id as int,
                    with_state(old(self).tasks_table().task(id), TaskState::Cancelled),
                ),
                old(self).tasks_table().accepting(),
            ),
            old(self).tasks_table().has(id) && (old(self).tasks_table().task(id).state
                == TaskState::Submitted || old(self).tasks_table().task(id).state == TaskState::Suspended)
                ==> final(self).tasks_table().tasks() == old(self).tasks_table().tasks().update(
                id as int,
                with_state(old(self).tasks_table().task(id), TaskState::Cancelled),
            ),
            old(self).tasks_table().has(id) && !old(self).tasks_table().task(id).state.is_terminal()
                ==> final(self).tasks_table().task(id).state == TaskState::Cancelled,
            final(self).tasks_table().tasks().len() == old(self).tasks_table().tasks().len(),
            forall|k: u64|
                k != id && #[trigger] old(self).tasks_table().has(k) ==> kept_or_admitted(
                    old(self).tasks_table().task(k),
                    final(self).tasks_table().task(k),
                ),
    {
        let r = self.table.cancel(id);
        proof {
            let s0 = old(self).table.tasks();
            if old(self).table.has(id) && !old(self).table.task(id).state.is_terminal() {
                let v = with_state(old(self).table.task(id), TaskState::Cancelled);
                if old(self).table.task(id).state == TaskState::Running {
                    lemma_release_keeps(s0.update(id as int, v), old(self).table.accepting(), id as int);
                    lemma_release_others(s0, s0, id as int, v, old(self).table.accepting());
                    assert forall|k: u64|
                        k != id && #[trigger] old(self).tasks_table().has(k) implies kept_or_admitted(
                        old(self).tasks_table().task(k),
                        self.tasks_table().task(k),
                    ) by {
                        assert(kept_or_admitted(
                            s0[k as int],
                            after_release(s0.update(id as int, v), old(self).table.accepting())[k as int],
                        ));
                    }
                }
            }
        }
        r
    }

    /// Brings suspended task `id` back from the context store. Where the
    /// store has no snapshot the task restarts from its last step boundary;
    /// where the store faults, the task fails with that fault, which is
    /// returned. `NotFound` where `id` names no suspended task.
    pub fn resume(&mut self, id: u64) -> (r: Result<(), Fault>)
        requires
            old(self).wf(),
        ensures
            final(self).wf(),
            final(self).adapter() == old(self).adapter(),
            final(self).ctx() == old(self).ctx(),
            !(old(self).tasks_table().has(id) && old(self).tasks_table().task(id).state
                == TaskState::Suspended) ==> r == Err::<(), Fault>(Fault::NotFound)
                && final(self).tasks_table() == old(self).tasks_table(),
            old(self).tasks_table().has(id) && old(self).tasks_table().task(id).state
                == TaskState::Suspended ==> {
                let t = final(self).tasks_table().task(id);
                &&& r is Ok ==> {
                    &&& t.state == if old(self).tasks_table().accepting()
                        && old(self).tasks_table().admits_now() {
                        TaskState::Running
                    } else {
                        TaskState::Submitted
                    }
                    &&& old(self).ctx().snapshots().contains_key(id) ==> t.prompt@
                        == old(self).ctx().snapshots()[id]
                    &&& !old(self).ctx().snapshots().contains_key(id) ==> t.prompt
                        == old(self).tasks_table().task(id).prompt
                }
                &&& r matches Err(f) ==> f is ContextFault && t.state == TaskState::Failed
            },
    {
        match self.table.status(id) {
            Some(TaskState::Suspended) => {},
            _ => return Err(Fault::NotFound),
        }
        match self.context.gen_recover(id) {
            Ok(recovered) => {
                self.table.resume(id, recovered);
                Ok(())
            },
            Err(f) => {
                let cause = match &f {
                    Fault::ContextFault(c) => c.clone(),
                    _ => String::new(),
                };
                self.table.fail_suspended(id, f);
                Err(Fault::ContextFault(cause))
            },
        }
    }

    /// Stops admitting work and suspends every running task, each after a
    /// snapshot of its context; a task whose snapshot faults fails instead.
    /// No task runs afterwards.
    pub fn shutdown(&mut self) -> (r: Result<(), Fault>)
        requires
            old(self).wf(),
        ensures
            final(self).wf(),
            final(self).adapter() == old(self).adapter(),
            !final(self).tasks_table().accepting(),
            final(self).tasks_table().tasks().len() == old(self).tasks_table().tasks().len(),
            forall|i: int|
                0 <= i < final(self).tasks_table().tasks().len() ==> (#[trigger] final(self).tasks_table().tasks()[i]).state != TaskState::Running,
            forall|i: int|
                0 <= i < old(self).tasks_table().tasks().len() && (#[trigger] old(self).tasks_table().tasks()[i]).state != TaskState::Running ==> final(self).tasks_table().tasks()[i]
                    == old(self).tasks_table().tasks()[i],
            forall|i: u64|
                #[trigger] old(self).tasks_table().has(i) && old(self).tasks_table().task(i).state
                    == TaskState::Running ==> suspended_or_failed(
                    old(self).tasks_table().task(i),
                    final(self).tasks_table().task(i),
                    i,
                    final(self).ctx().snapshots(),
                ),
            (forall|i: int|
                0 <= i < old(self).tasks_table().tasks().len() ==> (#[trigger] old(self).tasks_table().tasks()[i]).state
                    != TaskState::Running) ==> final(self).ctx() == old(self).ctx(),
            final(self).ctx().never_faults() == old(self).ctx().never_faults(),
            r is Ok,
    {
        self.table.close();
        let n = self.table.len();
        let mut i: usize = 0;
        while i < n
            invariant
                self.wf(),
                !self.table.accepting(),
                self.llm == old(self).llm,
                n == self.table.tasks().len(),
                n == old(self).table.tasks().len(),
                i <= n,
                forall|j: int| 0 <= j < i ==> (#[trigger] self.table.tasks()[j]).state != TaskState::Running,
                forall|j: int|
                    0 <= j < n && (#[trigger] old(self).table.tasks()[j]).state != TaskState::Running
                        ==> self.table.tasks()[j] == old(self).table.tasks()[j],
                forall|j: int| i <= j < n ==> #[trigger] self.table.tasks()[j] == old(self).table.tasks()[j],
                forall|j: u64|
                    j < i && #[trigger] old(self).table.has(j) && old(self).table.task(j).state
                        == TaskState::Running ==> suspended_or_failed(
                        old(self).table.task(j),
                        self.table.task(j),
                        j,
                        self.context.snapshots(),
                    ),
                (forall|j: int| 0 <= j < i ==> (#[trigger] old(self).table.tasks()[j]).state
                    != TaskState::Running) ==> self.context == old(self).context,
                self.context.never_faults() == old(self).context.never_faults(),
            decreases n - i,
        {
            let id = i as u64;
            match self.table.status(id) {
                Some(TaskState::Running) => {
                    let prompt = match self.table.prompt(id) {
                        Some(p) => p,
                        None => String::new(),
                    };
                    let ghost before = self.table.tasks();
                    let ghost snaps = self.context.snapshots();
                    let written = self.context.gen_snapshot(id, prompt.as_str());
                    let ghost w = written;
                    self.table.record_suspension(id, written);
                    proof {
                        let now = self.context.snapshots();
                        assert forall|j: u64| j != id && #[trigger] snaps.contains_key(j) implies now.contains_key(j)
                            && now[j] == snaps[j] by {
                            assert(now.remove(id).contains_key(j));
                            assert(now.remove(id)[j] == snaps.remove(id)[j]);
                        }
                        assert(self.table.tasks() =~= before.update(
                            i as int,
                            match w {
                                Ok(_) => checkpointed(before[i as int], TaskState::Suspended),
                                Err(f) => failed_with(before[i as int], before[i as int].attempts, f),
                            },
                        ));
                    }
                },
                _ => {},
            }
            i = i + 1;
        }
        Ok(())
    }

    /// Admits work again; see `TaskTable::open`.
    pub fn restart(&mut self) -> (r: Result<(), Fault>)
        requires
            old(self).wf(),
        ensures
            final(self).wf(),
            final(self).adapter() == old(self).adapter(),
            r is Ok ==> final(self).tasks_table().accepting(),
            r matches Err(f) ==> f is ContextFault,
            old(self).ctx().never_faults() ==> r is Ok,
            final(self).ctx().never_faults() == old(self).ctx().never_faults(),
            final(self).ctx().snapshots() == old(self).ctx().snapshots(),
            old(self).tasks_table().accepting() ==> final(self).tasks_table() == old(self).tasks_table(),
    {
        match self.context.start() {
            Ok(()) => {},
            Err(f) => return Err(f),
        }
        self.table.open();
        Ok(())
    }
}

impl<L: LLMAdapter, C: ContextManager> Scheduler for KernelScheduler<L, C> {
    open spec fn inv(&self) -> bool {
        self.wf()
    }

    open spec fn is_running(&self) -> bool {
        self.tasks_table().accepting()
    }

    fn start(&mut self) -> (r: Result<(), Fault>) {
        self.restart()
    }

    fn stop(&mut self) -> (r: Result<(), Fault>) {
        let r = self.shutdown();
        match self.context.stop() {
            Ok(()) => r,
            Err(f) => Err(f),
        }
    }
}

/// In every well-formed table at most `limit` tasks run, and while work is
/// admitted a task waits only when all `limit` slots are taken.
pub proof fn lemma_admission_bound(t: TaskTable)
    requires
        t.wf(),
    ensures
        t.running_count() <= t.limit(),
        t.accepting() && t.waiting_count() > 0 ==> t.running_count() == t.limit(),
{
}


} // verus!
