//! The sampling tasks, the table of their latest values, and the decisions of
//! the sampling loop: which task is due, what a finished sampling changes, and
//! when the table is published.
//!
//! The scheduler reads no clock and no sensor. Its caller tells it the time, in
//! milliseconds, and hands it the result of each sampling.

use crate::meter::{MeterError, MeterKind};
use crate::sample::{Measurements, Sample};
use std::collections::HashMap;
use vstd::prelude::*;

verus! {

broadcast use vstd::std_specs::hash::group_hash_axioms;

/// The longest polling quantum, in milliseconds: the sampling loop wakes at
/// least this often, however long the intervals of the tasks are.
pub const MAX_QUANTUM: u64 = 1000;

/// One meter under the scheduler: how often it is sampled and when it last
/// was. Times are in milliseconds.
#[derive(Clone, Copy, Debug, PartialEq, Eq, Structural)]
pub struct Task {
    /// Identifier of the meter, the key of its value in the table.
    pub id: u64,
    pub kind: MeterKind,
    /// Time from one sampling to the next; above zero.
    pub interval: u64,
    /// When the meter was last sampled, or when the task was made.
    pub last_run: u64,
}

/// Time that has passed from `since` to `now`; none where the clock went back.
pub open spec fn elapsed(since: u64, now: u64) -> int {
    if now >= since {
        now - since
    } else {
        0
    }
}

fn elapsed_between(since: u64, now: u64) -> (e: u64)
    ensures
        e == elapsed(since, now),
{
    if now >= since {
        now - since
    } else {
        0
    }
}

impl Task {
    /// The interval is above zero.
    pub open spec fn valid(self) -> bool {
        self.interval > 0
    }

    /// At `now` the task's interval has passed since its last sampling.
    pub open spec fn due(self, now: u64) -> bool {
        elapsed(self.last_run, now) >= self.interval
    }

    /// The task after a sampling at `now`.
    pub open spec fn ran(self, now: u64) -> Task {
        Task { id: self.id, kind: self.kind, interval: self.interval, last_run: now }
    }

    /// A task made at `now`: its first sampling is due one interval later.
    pub fn new(id: u64, kind: MeterKind, interval: u64, now: u64) -> (task: Task)
        requires
            interval > 0,
        ensures
            task == (Task { id, kind, interval, last_run: now }),
            task.valid(),
    {
        Task { id, kind, interval, last_run: now }
    }

    /// Whether the task's interval has passed at `now`.
    pub fn is_due(&self, now: u64) -> (due: bool)
        ensures
            due == self.due(now),
    {
        elapsed_between(self.last_run, now) >= self.interval
    }
}

/// The identifiers of the tasks of `tasks` that are due at `now`, in the order
/// of the tasks.
pub open spec fn due_ids(tasks: Seq<Task>, now: u64) -> Seq<u64>
    decreases tasks.len(),
{
    if tasks.len() == 0 {
        Seq::empty()
    } else {
        let front = due_ids(tasks.drop_last(), now);
        if tasks.last().due(now) {
            front.push(tasks.last().id)
        } else {
            front
        }
    }
}

/// The smallest of `cap` and the intervals of `tasks`.
pub open spec fn shortest(tasks: Seq<Task>, cap: u64) -> u64
    decreases tasks.len(),
{
    if tasks.len() == 0 {
        cap
    } else {
        let front = shortest(tasks.drop_last(), cap);
        if tasks.last().interval < front {
            tasks.last().interval
        } else {
            front
        }
    }
}

/// `shortest` is the least of the cap and the intervals: it is above none of
/// them and is one of them.
pub proof fn lemma_shortest_is_least(tasks: Seq<Task>, cap: u64)
    ensures
        shortest(tasks, cap) <= cap,
        forall|i: int| 0 <= i < tasks.len() ==> shortest(tasks, cap) <= (#[trigger] tasks[i]).interval,
        shortest(tasks, cap) == cap || exists|i: int|
            0 <= i < tasks.len() && (#[trigger] tasks[i]).interval == shortest(tasks, cap),
    decreases tasks.len(),
{
    if tasks.len() > 0 {
        let rest = tasks.drop_last();
        lemma_shortest_is_least(rest, cap);
        assert forall|i: int| 0 <= i < tasks.len() implies shortest(tasks, cap) <= (
        #[trigger] tasks[i]).interval by {
            if i < rest.len() {
                assert(rest[i] == tasks[i]);
            }
        }
        if shortest(tasks, cap) != cap {
            if shortest(tasks, cap) == shortest(rest, cap) {
                let i = choose|i: int|
                    0 <= i < rest.len() && (#[trigger] rest[i]).interval == shortest(rest, cap);
                assert(tasks[i] == rest[i]);
            } else {
                assert(tasks[tasks.len() - 1].interval == shortest(tasks, cap));
            }
        }
    }
}

/// The interval of the task is a whole number of seconds.
pub open spec fn whole_seconds(task: Task) -> bool {
    task.interval > 0 && task.interval % MAX_QUANTUM == 0
}

/// Where every interval is a whole number of seconds, the quantum is one
/// second and every interval is a whole number of quanta.
pub proof fn lemma_quantum_of_whole_seconds(tasks: Seq<Task>)
    requires
        forall|i: int| 0 <= i < tasks.len() ==> whole_seconds(#[trigger] tasks[i]),
    ensures
        shortest(tasks, MAX_QUANTUM) == MAX_QUANTUM,
        forall|i: int|
            0 <= i < tasks.len() ==> (#[trigger] tasks[i]).interval % shortest(tasks, MAX_QUANTUM)
                == 0,
    decreases tasks.len(),
{
    if tasks.len() > 0 {
        let rest = tasks.drop_last();
        assert forall|i: int| 0 <= i < rest.len() implies whole_seconds(#[trigger] rest[i]) by {
            assert(rest[i] == tasks[i]);
        }
        lemma_quantum_of_whole_seconds(rest);
        assert(whole_seconds(tasks[tasks.len() - 1]));
    }
}

/// An identifier is among `due_ids` exactly when a task with that identifier
/// is due.
pub proof fn lemma_due_ids(tasks: Seq<Task>, now: u64, id: u64)
    ensures
        due_ids(tasks, now).contains(id) <==> exists|i: int|
            0 <= i < tasks.len() && (#[trigger] tasks[i]).id == id && tasks[i].due(now),
    decreases tasks.len(),
{
    if tasks.len() > 0 {
        let rest = tasks.drop_last();
        let front = due_ids(rest, now);
        let all = due_ids(tasks, now);
        lemma_due_ids(rest, now, id);
        if all.contains(id) {
            let k = choose|k: int| 0 <= k < all.len() && all[k] == id;
            if k < front.len() {
                assert(front[k] == id);
                assert(front.contains(id));
                let i = choose|i: int|
                    0 <= i < rest.len() && (#[trigger] rest[i]).id == id && rest[i].due(now);
                assert(tasks[i] == rest[i]);
            } else {
                assert(tasks[tasks.len() - 1].id == id);
            }
        }
        if exists|i: int| 0 <= i < tasks.len() && (#[trigger] tasks[i]).id == id && tasks[i].due(now) {
            let i = choose|i: int|
                0 <= i < tasks.len() && (#[trigger] tasks[i]).id == id && tasks[i].due(now);
            if i < rest.len() {
                assert(rest[i] == tasks[i]);
                assert(front.contains(id));
                let k = choose|k: int| 0 <= k < front.len() && front[k] == id;
                assert(all[k] == id);
            } else {
                assert(all[all.len() - 1] == id);
            }
        }
    }
}

/// What a scheduler holds.
pub struct Timetable {
    /// The tasks, in the order in which they were registered.
    pub tasks: Seq<Task>,
    /// The latest value of each task's meter, by identifier.
    pub table: Map<u64, Sample>,
    /// Time from one publishing of the table to the next.
    pub refresh: u64,
    /// When the table was last published, or when the scheduler was made.
    pub last_publish: u64,
}

impl Timetable {
    /// A task is registered under `id`.
    pub open spec fn has(self, id: u64) -> bool {
        exists|i: int| 0 <= i < self.tasks.len() && (#[trigger] self.tasks[i]).id == id
    }

    /// Where the task registered under `id` stands.
    pub open spec fn slot(self, id: u64) -> int {
        choose|i: int| 0 <= i < self.tasks.len() && (#[trigger] self.tasks[i]).id == id
    }

    /// Every task has an interval above zero, no two tasks share an
    /// identifier, and the table has exactly one entry for each task.
    pub open spec fn wf(self) -> bool {
        &&& forall|i: int| 0 <= i < self.tasks.len() ==> (#[trigger] self.tasks[i]).valid()
        &&& forall|i: int, j: int|
            0 <= i < self.tasks.len() && 0 <= j < self.tasks.len() && i != j ==> (
            #[trigger] self.tasks[i]).id != (#[trigger] self.tasks[j]).id
        &&& forall|id: u64| #[trigger] self.table.dom().contains(id) <==> self.has(id)
    }

    /// An empty timetable made at `now`.
    pub open spec fn fresh(refresh: u64, now: u64) -> Timetable {
        Timetable { tasks: Seq::empty(), table: Map::empty(), refresh, last_publish: now }
    }

    /// The timetable after `task` was registered: it takes the place of the
    /// task with its identifier, or comes last where there is none. Its value
    /// in the table starts at zero.
    pub open spec fn register(self, task: Task) -> Timetable {
        Timetable {
            tasks: if self.has(task.id) {
                self.tasks.update(self.slot(task.id), task)
            } else {
                self.tasks.push(task)
            },
            table: self.table.insert(task.id, Sample::zero()),
            refresh: self.refresh,
            last_publish: self.last_publish,
        }
    }

    /// A sampling of the meter `id` at `now` is taken into account: a task is
    /// registered under `id` and is due.
    pub open spec fn accepts(self, id: u64, now: u64) -> bool {
        self.has(id) && self.tasks[self.slot(id)].due(now)
    }

    /// The timetable after the meter `id` was sampled at `now` with the given
    /// outcome. A value takes the place of the one in the table; a failure
    /// leaves the table as it is. Either way the task has run at `now`. A
    /// sampling that is not taken into account changes nothing.
    pub open spec fn record(self, id: u64, now: u64, outcome: Result<Sample, MeterError>) -> Timetable {
        if self.accepts(id, now) {
            Timetable {
                tasks: self.tasks.update(self.slot(id), self.tasks[self.slot(id)].ran(now)),
                table: match outcome {
                    Ok(value) => self.table.insert(id, value),
                    Err(_) => self.table,
                },
                refresh: self.refresh,
                last_publish: self.last_publish,
            }
        } else {
            self
        }
    }

    /// The timetable after the outcomes of one round of sampling at `now`
    /// were recorded in turn.
    pub open spec fn sampled(self, now: u64, outcomes: Seq<(u64, Result<Sample, MeterError>)>) -> Timetable
        decreases outcomes.len(),
    {
        if outcomes.len() == 0 {
            self
        } else {
            self.sampled(now, outcomes.drop_last()).record(
                outcomes.last().0,
                now,
                outcomes.last().1,
            )
        }
    }

    /// At `now` the refresh period has passed since the table was published.
    pub open spec fn publish_due(self, now: u64) -> bool {
        elapsed(self.last_publish, now) >= self.refresh
    }

    /// The timetable after its table was published at `now`.
    pub open spec fn published(self, now: u64) -> Timetable {
        Timetable {
            tasks: self.tasks,
            table: self.table,
            refresh: self.refresh,
            last_publish: now,
        }
    }

    /// Time between two polls: the shortest interval of a task, and never
    /// more than `MAX_QUANTUM`.
    pub open spec fn quantum(self) -> u64 {
        shortest(self.tasks, MAX_QUANTUM)
    }
}

/// Publishing changes neither the tasks nor the table, so a timetable that
/// is well formed stays so.
pub proof fn lemma_published_keeps(t: Timetable, now: u64)
    requires
        t.wf(),
    ensures
        t.published(now).wf(),
        t.published(now).tasks == t.tasks,
        t.published(now).table == t.table,
{
    let after = t.published(now);
    assert forall|id: u64| #[trigger] after.table.dom().contains(id) <==> after.has(id) by {
        if t.has(id) {
            let k = t.slot(id);
            assert(after.tasks[k].id == id);
        }
        if after.has(id) {
            let k = after.slot(id);
            assert(t.tasks[k].id == id);
        }
    }
}

/// Registering a task keeps the timetable well formed and adds the task's
/// identifier, and nothing else, to those that are registered.
pub proof fn lemma_register(t: Timetable, task: Task)
    requires
        t.wf(),
        task.valid(),
    ensures
        t.register(task).wf(),
        forall|id: u64| t.register(task).has(id) <==> t.has(id) || id == task.id,
{
    let after = t.register(task);
    let at = if t.has(task.id) {
        t.slot(task.id)
    } else {
        t.tasks.len() as int
    };
    assert(after.tasks[at].id == task.id);
    assert forall|id: u64| after.has(id) <==> t.has(id) || id == task.id by {
        if t.has(id) {
            let k = t.slot(id);
            if id != task.id {
                assert(after.tasks[k].id == id);
            }
        }
        if after.has(id) && id != task.id {
            let k = after.slot(id);
            assert(t.tasks[k].id == id);
        }
    }
    assert forall|i: int, j: int|
        0 <= i < after.tasks.len() && 0 <= j < after.tasks.len() && i != j implies (
    #[trigger] after.tasks[i]).id != (#[trigger] after.tasks[j]).id by {
        if t.has(task.id) {
            assert(after.tasks[i].id == t.tasks[i].id);
            assert(after.tasks[j].id == t.tasks[j].id);
        } else {
            if i < t.tasks.len() {
                assert(after.tasks[i] == t.tasks[i]);
            }
            if j < t.tasks.len() {
                assert(after.tasks[j] == t.tasks[j]);
            }
        }
    }
}

/// Once the tasks are registered the table keeps its entries: a sampling
/// changes at most the value of an entry, and what is published is the table
/// itself, entry for entry.
pub proof fn lemma_table_keeps_keys(
    t: Timetable,
    id: u64,
    now: u64,
    outcome: Result<Sample, MeterError>,
)
    requires
        t.wf(),
    ensures
        t.record(id, now, outcome).wf(),
        t.record(id, now, outcome).table.dom() == t.table.dom(),
        t.published(now).table.dom() == t.table.dom(),
{
    let after = t.record(id, now, outcome);
    if t.accepts(id, now) {
        let k = t.slot(id);
        assert(t.tasks[k].id == id);
        assert(t.table.dom().contains(id));
        assert(after.table.dom() =~= t.table.dom());
        assert forall|other: u64| #[trigger] after.table.dom().contains(other) <==> after.has(
            other,
        ) by {
            if t.has(other) {
                let j = t.slot(other);
                assert(after.tasks[j].id == other);
            }
            if after.has(other) {
                let j = after.slot(other);
                assert(t.tasks[j].id == other);
            }
        }
    }
}

/// A sampling that failed leaves every value as it was: the table published
/// after it is the table that would have been published before it.
pub proof fn lemma_failure_keeps_values(
    t: Timetable,
    id: u64,
    now: u64,
    error: MeterError,
    later: u64,
)
    ensures
        t.record(id, now, Err(error)).table == t.table,
        t.record(id, now, Err(error)).published(later).table == t.published(now).table,
{
}

/// The tasks and the measurement table.
pub struct Scheduler {
    tasks: Vec<Task>,
    table: Measurements,
    refresh: u64,
    last_publish: u64,
}

impl View for Scheduler {
    type V = Timetable;

    closed spec fn view(&self) -> Timetable {
        Timetable {
            tasks: self.tasks@,
            table: self.table@,
            refresh: self.refresh,
            last_publish: self.last_publish,
        }
    }
}

impl Scheduler {
    /// What the scheduler holds is well formed.
    pub open spec fn wf(&self) -> bool {
        self@.wf()
    }

    /// A scheduler without tasks, made at `now`, that publishes its table
    /// every `refresh` milliseconds.
    pub fn new(refresh: u64, now: u64) -> (s: Scheduler)
        ensures
            s@ == Timetable::fresh(refresh, now),
            s.wf(),
    {
        let s = Scheduler { tasks: Vec::new(), table: HashMap::new(), refresh, last_publish: now };
        assert(s@.tasks =~= Seq::<Task>::empty());
        assert(s@.table =~= Map::<u64, Sample>::empty());
        s
    }

    /// Where the task registered under `id` stands.
    fn find(&self, id: u64) -> (found: Option<usize>)
        requires
            self.wf(),
        ensures
            found.is_some() == self@.has(id),
            found matches Some(i) ==> i < self.tasks.len() && self.tasks[i as int].id == id
                && self@.slot(id) == i,
    {
        let mut i: usize = 0;
        while i < self.tasks.len()
            invariant
                self.wf(),
                i <= self.tasks.len(),
                forall|j: int| 0 <= j < i ==> (#[trigger] self.tasks@[j]).id != id,
            decreases self.tasks.len() - i,
        {
            if self.tasks[i].id == id {
                proof {
                    assert(self@.tasks[i as int].id == id);
                    assert(self@.has(id));
                    let k = self@.slot(id);
                    assert(self@.tasks[k].id == id);
                }
                return Some(i);
            }
            i = i + 1;
        }
        None
    }

    /// Registers `task` under its identifier.
    pub fn register_task(&mut self, task: Task)
        requires
            old(self).wf(),
            task.valid(),
        ensures
            final(self).wf(),
            final(self)@ == old(self)@.register(task),
            final(self)@.has(task.id),
    {
        match self.find(task.id) {
            Some(i) => {
                self.tasks.set(i, task);
            },
            None => {
                self.tasks.push(task);
            },
        }
        self.table.insert(task.id, Sample { millis: 0 });
        proof {
            let before = old(self)@;
            let after = self@;
            assert(after.tasks == before.register(task).tasks);
            assert(after.table == before.register(task).table);
            let at = if before.has(task.id) {
                before.slot(task.id)
            } else {
                before.tasks.len() as int
            };
            assert(after.tasks[at].id == task.id);
            assert forall|id: u64| #[trigger] after.table.dom().contains(id) <==> after.has(
                id,
            ) by {
                if id == task.id {
                    assert(after.has(id));
                } else {
                    if before.has(id) {
                        let k = before.slot(id);
                        assert(after.tasks[k].id == id);
                    }
                    if after.has(id) {
                        let k = after.slot(id);
                        assert(before.tasks[k].id == id);
                    }
                }
            }
        }
    }

    /// Number of tasks.
    pub fn task_count(&self) -> (n: usize)
        ensures
            n == self@.tasks.len(),
    {
        self.tasks.len()
    }

    /// Whether a task is registered under `id`.
    pub fn contains(&self, id: u64) -> (found: bool)
        requires
            self.wf(),
        ensures
            found == self@.has(id),
            found == self@.table.dom().contains(id),
    {
        self.find(id).is_some()
    }

    /// The value in the table for the meter `id`.
    pub fn value(&self, id: u64) -> (v: Option<Sample>)
        requires
            self.wf(),
        ensures
            v.is_some() == self@.table.dom().contains(id),
            v matches Some(s) ==> s == self@.table[id],
    {
        match self.table.get(&id) {
            Some(s) => Some(*s),
            None => None,
        }
    }

    /// The time to wait from one poll to the next.
    pub fn quantum(&self) -> (q: u64)
        ensures
            q == self@.quantum(),
    {
        let mut q: u64 = MAX_QUANTUM;
        let mut i: usize = 0;
        while i < self.tasks.len()
            invariant
                i <= self.tasks.len(),
                q == shortest(self.tasks@.subrange(0, i as int), MAX_QUANTUM),
            decreases self.tasks.len() - i,
        {
            assert(self.tasks@.subrange(0, i + 1).drop_last() =~= self.tasks@.subrange(0, i as int));
            if self.tasks[i].interval < q {
                q = self.tasks[i].interval;
            }
            i = i + 1;
        }
        assert(self.tasks@.subrange(0, i as int) =~= self.tasks@);
        q
    }

    /// The meters to sample at `now`: the identifiers of the tasks that are
    /// due, in the order in which the tasks were registered.
    pub fn due_tasks(&self, now: u64) -> (ids: Vec<u64>)
        ensures
            ids@ == due_ids(self@.tasks, now),
    {
        let mut ids: Vec<u64> = Vec::new();
        let mut i: usize = 0;
        while i < self.tasks.len()
            invariant
                i <= self.tasks.len(),
                ids@ == due_ids(self.tasks@.subrange(0, i as int), now),
            decreases self.tasks.len() - i,
        {
            assert(self.tasks@.subrange(0, i + 1).drop_last() =~= self.tasks@.subrange(0, i as int));
            if self.tasks[i].is_due(now) {
                ids.push(self.tasks[i].id);
            }
            i = i + 1;
        }
        assert(self.tasks@.subrange(0, i as int) =~= self.tasks@);
        ids
    }

    /// Takes in the outcome of sampling the meter `id` at `now`. Returns
    /// whether the sampling was taken into account: whether a task is
    /// registered under `id` and was due. The entries of the table stay the
    /// same; a failed sampling leaves their values the same too.
    pub fn record(&mut self, id: u64, now: u64, outcome: Result<Sample, MeterError>) -> (taken: bool)
        requires
            old(self).wf(),
        ensures
            final(self).wf(),
            taken == old(self)@.accepts(id, now),
            final(self)@ == old(self)@.record(id, now, outcome),
            final(self)@.table.dom() == old(self)@.table.dom(),
            outcome is Err ==> final(self)@.table == old(self)@.table,
    {
        let i = match self.find(id) {
            Some(i) => i,
            None => {
                return false;
            },
        };
        let task = self.tasks[i];
        if !task.is_due(now) {
            return false;
        }
        self.tasks.set(i, Task { id: task.id, kind: task.kind, interval: task.interval, last_run: now });
        match outcome {
            Ok(value) => {
                self.table.insert(id, value);
            },
            Err(_) => {},
        }
        proof {
            let before = old(self)@;
            let after = self@;
            assert(after.tasks == before.record(id, now, outcome).tasks);
            assert(after.table == before.record(id, now, outcome).table);
            assert(before.table.dom().contains(id));
            assert(after.table.dom() =~= before.table.dom());
            assert forall|other: u64| #[trigger] after.table.dom().contains(other) <==> after.has(
                other,
            ) by {
                if before.has(other) {
                    let k = before.slot(other);
                    assert(after.tasks[k].id == other);
                }
                if after.has(other) {
                    let k = after.slot(other);
                    assert(before.tasks[k].id == other);
                }
            }
        }
        true
    }

    /// The task registered under `id`.
    pub fn task(&self, id: u64) -> (task: Option<Task>)
        requires
            self.wf(),
        ensures
            task.is_some() == self@.has(id),
            task matches Some(t) ==> t == self@.tasks[self@.slot(id)],
    {
        match self.find(id) {
            Some(i) => Some(self.tasks[i]),
            None => None,
        }
    }

    /// One round of the sampling loop at `now`: records the outcomes of the
    /// samplings of this round in turn, then publishes the table if the
    /// refresh period has passed.
    pub fn tick(&mut self, now: u64, outcomes: &Vec<(u64, Result<Sample, MeterError>)>) -> (snapshot: Option<
        Measurements,
    >)
        requires
            old(self).wf(),
        ensures
            final(self).wf(),
            final(self)@.table.dom() == old(self)@.table.dom(),
            snapshot.is_some() == old(self)@.publish_due(now),
            snapshot matches Some(copy) ==> copy@ == old(self)@.sampled(now, outcomes@).table
                && final(self)@ == old(self)@.sampled(now, outcomes@).published(now),
            snapshot.is_none() ==> final(self)@ == old(self)@.sampled(now, outcomes@),
    {
        let mut i: usize = 0;
        while i < outcomes.len()
            invariant
                i <= outcomes.len(),
                self.wf(),
                self@ == old(self)@.sampled(now, outcomes@.subrange(0, i as int)),
                self@.table.dom() == old(self)@.table.dom(),
                self@.refresh == old(self)@.refresh,
                self@.last_publish == old(self)@.last_publish,
            decreases outcomes.len() - i,
        {
            assert(outcomes@.subrange(0, i + 1).drop_last() =~= outcomes@.subrange(0, i as int));
            assert(outcomes@.subrange(0, i + 1).last() == outcomes@[i as int]);
            let _ = self.record(outcomes[i].0, now, outcomes[i].1);
            i = i + 1;
        }
        assert(outcomes@.subrange(0, i as int) =~= outcomes@);
        self.try_publish(now)
    }

    /// Whether the table is to be published at `now`.
    pub fn publish_due(&self, now: u64) -> (due: bool)
        ensures
            due == self@.publish_due(now),
    {
        elapsed_between(self.last_publish, now) >= self.refresh
    }

    /// Publishes the table at `now`: returns a copy of it, which shares
    /// nothing with the table. Tasks and table stay as they are.
    pub fn publish(&mut self, now: u64) -> (snapshot: Measurements)
        requires
            old(self).wf(),
        ensures
            final(self).wf(),
            snapshot@ == old(self)@.table,
            snapshot@.dom() == final(self)@.table.dom(),
            final(self)@ == old(self)@.published(now),
    {
        self.last_publish = now;
        proof {
            lemma_published_keeps(old(self)@, now);
        }
        self.table.clone()
    }

    /// Publishes the table at `now` if the refresh period has passed, and
    /// does nothing otherwise.
    pub fn try_publish(&mut self, now: u64) -> (snapshot: Option<Measurements>)
        requires
            old(self).wf(),
        ensures
            final(self).wf(),
            snapshot.is_some() == old(self)@.publish_due(now),
            snapshot matches Some(copy) ==> copy@ == old(self)@.table && final(self)@ == old(self)@.published(now),
            snapshot.is_none() ==> final(self)@ == old(self)@,
    {
        if self.publish_due(now) {
            Some(self.publish(now))
        } else {
            None
        }
    }
}

} // verus!
