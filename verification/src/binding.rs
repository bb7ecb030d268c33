//! From the configured meters to the tasks of a scheduler.

use crate::config::MeterConfig;
use crate::meter::{create_meter, created, MeterError, MeterKind};
use crate::scheduler::{lemma_register, whole_seconds, Scheduler, Task, Timetable};
use vstd::prelude::*;

verus! {

/// The task of a configured meter of the given kind, made at `now`.
pub open spec fn task_for(config: MeterConfig, kind: MeterKind, now: u64) -> Task {
    Task { id: config.id, kind, interval: (config.interval * 1000) as u64, last_run: now }
}

/// The timetable after the meters of `configs` were registered in turn, each
/// for which a meter can be created.
pub open spec fn bound(
    start: Timetable,
    configs: Seq<MeterConfig>,
    available: Seq<MeterKind>,
    now: u64,
) -> Timetable
    decreases configs.len(),
{
    if configs.len() == 0 {
        start
    } else {
        let front = bound(start, configs.drop_last(), available, now);
        match created(configs.last().id, available) {
            Ok(kind) => front.register(task_for(configs.last(), kind, now)),
            Err(_) => front,
        }
    }
}

/// The meters of `configs` for which no meter can be created, each with the
/// reason, in the order of `configs`.
pub open spec fn left_out(configs: Seq<MeterConfig>, available: Seq<MeterKind>) -> Seq<
    (u64, MeterError),
>
    decreases configs.len(),
{
    if configs.len() == 0 {
        Seq::empty()
    } else {
        let front = left_out(configs.drop_last(), available);
        match created(configs.last().id, available) {
            Ok(_) => front,
            Err(error) => front.push((configs.last().id, error)),
        }
    }
}

/// After the meters of `configs` were registered the timetable is well
/// formed, and holds, beside the tasks it had, a task for exactly the meters
/// that can be created: it holds nothing of a meter that was left out.
pub proof fn lemma_bound(
    start: Timetable,
    configs: Seq<MeterConfig>,
    available: Seq<MeterKind>,
    now: u64,
)
    requires
        start.wf(),
        forall|i: int| 0 <= i < configs.len() ==> (#[trigger] configs[i]).valid(),
    ensures
        bound(start, configs, available, now).wf(),
        forall|id: u64|
            bound(start, configs, available, now).has(id) <==> start.has(id) || (created(
                id,
                available,
            ) is Ok && exists|i: int| 0 <= i < configs.len() && (#[trigger] configs[i]).id == id),
    decreases configs.len(),
{
    if configs.len() > 0 {
        let rest = configs.drop_last();
        let last = configs.last();
        assert forall|i: int| 0 <= i < rest.len() implies (#[trigger] rest[i]).valid() by {
            assert(rest[i] == configs[i]);
        }
        lemma_bound(start, rest, available, now);
        let front = bound(start, rest, available, now);
        let all = bound(start, configs, available, now);
        assert(configs[configs.len() - 1] == last);
        if let Ok(kind) = created(last.id, available) {
            assert(last.valid());
            lemma_register(front, task_for(last, kind, now));
        }
        assert forall|id: u64|
            all.has(id) <==> start.has(id) || (created(id, available) is Ok && exists|i: int|
                0 <= i < configs.len() && (#[trigger] configs[i]).id == id) by {
            let in_rest = exists|i: int| 0 <= i < rest.len() && (#[trigger] rest[i]).id == id;
            let in_all = exists|i: int| 0 <= i < configs.len() && (#[trigger] configs[i]).id == id;
            assert(front.has(id) <==> start.has(id) || (created(id, available) is Ok && in_rest));
            if in_rest {
                let i = choose|i: int| 0 <= i < rest.len() && (#[trigger] rest[i]).id == id;
                assert(configs[i] == rest[i]);
                assert(in_all);
            }
            if id == last.id {
                assert(in_all);
            }
            if in_all && id != last.id {
                let i = choose|i: int| 0 <= i < configs.len() && (#[trigger] configs[i]).id == id;
                assert(rest[i] == configs[i]);
                assert(in_rest);
            }
            assert(in_all <==> in_rest || id == last.id);
            if created(last.id, available) is Ok {
                assert(all.has(id) <==> front.has(id) || id == last.id);
            } else {
                assert(all == front);
            }
        }
    }
}

/// Configured intervals are whole seconds: where the tasks of a timetable
/// have such intervals, they still have after the meters of `configs` were
/// registered.
pub proof fn lemma_bound_whole_seconds(
    start: Timetable,
    configs: Seq<MeterConfig>,
    available: Seq<MeterKind>,
    now: u64,
)
    requires
        forall|i: int| 0 <= i < start.tasks.len() ==> whole_seconds(#[trigger] start.tasks[i]),
        forall|i: int| 0 <= i < configs.len() ==> (#[trigger] configs[i]).valid(),
    ensures
        forall|i: int|
            0 <= i < bound(start, configs, available, now).tasks.len() ==> whole_seconds(
                #[trigger] bound(start, configs, available, now).tasks[i],
            ),
    decreases configs.len(),
{
    if configs.len() > 0 {
        let rest = configs.drop_last();
        let last = configs.last();
        assert forall|i: int| 0 <= i < rest.len() implies (#[trigger] rest[i]).valid() by {
            assert(rest[i] == configs[i]);
        }
        lemma_bound_whole_seconds(start, rest, available, now);
        assert(configs[configs.len() - 1] == last);
        if let Ok(kind) = created(last.id, available) {
            let task = task_for(last, kind, now);
            assert(last.valid());
            assert(task.interval == last.interval * 1000);
            assert((last.interval * 1000) % 1000 == 0) by (nonlinear_arith);
            assert(whole_seconds(task));
            let front = bound(start, rest, available, now);
            let all = front.register(task);
            assert forall|i: int| 0 <= i < all.tasks.len() implies whole_seconds(
                #[trigger] all.tasks[i],
            ) by {
                if all.tasks[i] != task {
                    assert(all.tasks[i] == front.tasks[i]);
                }
            }
        }
    }
}

/// Registers a task for every configured meter that can be created, given
/// the kinds of meter that the host provides. A meter that cannot be created
/// is left out: the scheduler holds nothing of it. Returns the meters left
/// out, each with the reason.
pub fn register_meters(
    scheduler: &mut Scheduler,
    configs: &Vec<MeterConfig>,
    available: &Vec<MeterKind>,
    now: u64,
) -> (skipped: Vec<(u64, MeterError)>)
    requires
        old(scheduler).wf(),
        forall|i: int| 0 <= i < configs.len() ==> (#[trigger] configs[i]).valid(),
    ensures
        final(scheduler).wf(),
        final(scheduler)@ == bound(old(scheduler)@, configs@, available@, now),
        skipped@ == left_out(configs@, available@),
{
    let mut skipped: Vec<(u64, MeterError)> = Vec::new();
    let mut i: usize = 0;
    while i < configs.len()
        invariant
            i <= configs.len(),
            forall|k: int| 0 <= k < configs.len() ==> (#[trigger] configs[k]).valid(),
            scheduler.wf(),
            scheduler@ == bound(old(scheduler)@, configs@.subrange(0, i as int), available@, now),
            skipped@ == left_out(configs@.subrange(0, i as int), available@),
        decreases configs.len() - i,
    {
        assert(configs@.subrange(0, i + 1).drop_last() =~= configs@.subrange(0, i as int));
        assert(configs@.subrange(0, i + 1).last() == configs@[i as int]);
        let config = &configs[i];
        match create_meter(config.id, available) {
            Ok(kind) => {
                let task = Task::new(config.id, kind, config.interval_millis(), now);
                scheduler.register_task(task);
            },
            Err(error) => {
                skipped.push((config.id, error));
            },
        }
        i = i + 1;
    }
    assert(configs@.subrange(0, i as int) =~= configs@);
    skipped
}

} // verus!
