//! How often a task is sampled when the scheduler is polled at a steady pace.

use crate::meter::MeterError;
use crate::sample::Sample;
use crate::scheduler::{Task, Timetable};
use vstd::arithmetic::div_mod::{lemma_fundamental_div_mod, lemma_fundamental_div_mod_converse};
use vstd::prelude::*;

verus! {

/// The time of poll number `tick` of a task that is polled every `quantum`
/// from the time it was made.
pub open spec fn poll_time(task: Task, quantum: u64, tick: nat) -> u64 {
    (task.last_run + tick * quantum) as u64
}

/// The task after `ticks` polls, one every `quantum` from the time it was
/// made. A poll samples the task exactly where it is due.
pub open spec fn polled(task: Task, quantum: u64, ticks: nat) -> Task
    decreases ticks,
{
    if ticks == 0 {
        task
    } else {
        poll(polled(task, quantum, (ticks - 1) as nat), poll_time(task, quantum, ticks))
    }
}

/// How many of the first `ticks` polls sampled the task.
pub open spec fn samplings(task: Task, quantum: u64, ticks: nat) -> nat
    decreases ticks,
{
    if ticks == 0 {
        0
    } else {
        let before = polled(task, quantum, (ticks - 1) as nat);
        let earlier = samplings(task, quantum, (ticks - 1) as nat);
        if before.due(poll_time(task, quantum, ticks)) {
            earlier + 1
        } else {
            earlier
        }
    }
}

/// What one poll at `now` makes of a task: it has run at `now` where it was
/// due, and is as it was otherwise.
pub open spec fn poll(task: Task, now: u64) -> Task {
    if task.due(now) {
        task.ran(now)
    } else {
        task
    }
}

/// Recording the outcome of a sampling does to the task of the meter what a
/// poll does, whatever the outcome; the other tasks stay as they are.
pub proof fn lemma_record_polls(
    t: Timetable,
    id: u64,
    now: u64,
    outcome: Result<Sample, MeterError>,
)
    requires
        t.wf(),
        t.has(id),
    ensures
        t.record(id, now, outcome).tasks.len() == t.tasks.len(),
        t.record(id, now, outcome).tasks[t.slot(id)] == poll(t.tasks[t.slot(id)], now),
        forall|i: int|
            0 <= i < t.tasks.len() && i != t.slot(id) ==> (#[trigger] t.record(
                id,
                now,
                outcome,
            ).tasks[i]) == t.tasks[i],
{
}

/// Polls from one sampling to the next: the interval in quanta, rounded up.
pub open spec fn polls_per_sampling(interval: u64, quantum: u64) -> int {
    (interval + quantum - 1) / (quantum as int)
}

/// `polls_per_sampling` is the least number of quanta that make up the
/// interval.
proof fn lemma_polls_per_sampling(interval: int, quantum: int, k: int)
    requires
        interval > 0,
        quantum > 0,
        k == (interval + quantum - 1) / quantum,
    ensures
        k >= 1,
        (k - 1) * quantum < interval <= k * quantum,
        forall|m: int| #[trigger] (m * quantum) >= interval <==> m >= k,
{
    lemma_fundamental_div_mod(interval + quantum - 1, quantum);
    let r = (interval + quantum - 1) % quantum;
    assert(interval + quantum - 1 == quantum * k + r);
    assert(quantum * k == k * quantum) by (nonlinear_arith);
    assert((k - 1) * quantum == k * quantum - quantum) by (nonlinear_arith);
    assert(k >= 1) by (nonlinear_arith)
        requires
            k * quantum >= interval,
            interval > 0,
            quantum > 0,
    ;
    assert forall|m: int| #[trigger] (m * quantum) >= interval <==> m >= k by {
        if m >= k {
            assert(m * quantum >= k * quantum) by (nonlinear_arith)
                requires
                    m >= k,
                    quantum > 0,
            ;
        } else {
            assert(m * quantum <= (k - 1) * quantum) by (nonlinear_arith)
                requires
                    m <= k - 1,
                    quantum > 0,
            ;
        }
    }
}

/// After `ticks` polls the task has been sampled once for every full
/// `polls_per_sampling` polls, the last time at the last such poll.
proof fn lemma_polled(task: Task, quantum: u64, ticks: nat)
    requires
        task.valid(),
        quantum > 0,
        task.last_run + ticks * quantum <= u64::MAX,
    ensures
        samplings(task, quantum, ticks) == ticks as int / polls_per_sampling(
            task.interval,
            quantum,
        ),
        polled(task, quantum, ticks).interval == task.interval,
        polled(task, quantum, ticks).id == task.id,
        polled(task, quantum, ticks).last_run == task.last_run + samplings(task, quantum, ticks)
            * polls_per_sampling(task.interval, quantum) * quantum,
    decreases ticks,
{
    let k = polls_per_sampling(task.interval, quantum);
    let q = quantum as int;
    let n = ticks as int;
    lemma_polls_per_sampling(task.interval as int, q, k);
    if ticks == 0 {
        assert(0int / k == 0) by (nonlinear_arith)
            requires
                k >= 1,
        ;
        assert(0 * k * q == 0) by (nonlinear_arith);
    } else {
        let prev = (ticks - 1) as nat;
        assert((n - 1) * q <= n * q) by (nonlinear_arith)
            requires
                q > 0,
        ;
        lemma_polled(task, quantum, prev);
        let before = polled(task, quantum, prev);
        let c = (n - 1) / k;
        let s = (n - 1) % k;
        lemma_fundamental_div_mod(n - 1, k);
        assert(k * c == c * k) by (nonlinear_arith);
        assert(n - 1 == c * k + s);
        let now = poll_time(task, quantum, ticks);
        assert(now == task.last_run + n * q);
        assert(before.last_run == task.last_run + c * k * q);
        assert((n - c * k) * q == n * q - c * k * q) by (nonlinear_arith);
        assert(n - c * k >= 1);
        assert((n - c * k) * q >= 1) by (nonlinear_arith)
            requires
                n - c * k >= 1,
                q >= 1,
        ;
        assert(before.due(now) <==> (n - c * k) * q >= task.interval);
        assert(before.due(now) <==> n - c * k >= k);
        if s == k - 1 {
            assert(n == (c + 1) * k + 0) by (nonlinear_arith)
                requires
                    n - 1 == c * k + s,
                    s == k - 1,
            ;
            lemma_fundamental_div_mod_converse(n, k, c + 1, 0);
            assert(before.due(now));
            assert((c + 1) * k * q == n * q) by (nonlinear_arith)
                requires
                    n == (c + 1) * k + 0,
            ;
        } else {
            assert(n == c * k + (s + 1));
            lemma_fundamental_div_mod_converse(n, k, c, s + 1);
            assert(!before.due(now));
        }
    }
}

/// A task polled every `quantum` from the time it was made, over a run of
/// `ticks` polls and so of duration `ticks * quantum`, is sampled once for
/// every `polls_per_sampling` polls. That is never more often than once per
/// interval and never less often than once per interval and quantum; where the
/// quantum divides the interval, it is the duration divided by the interval.
pub proof fn lemma_sampling_cadence(task: Task, quantum: u64, ticks: nat)
    requires
        task.valid(),
        quantum > 0,
        task.last_run + ticks * quantum <= u64::MAX,
    ensures
        samplings(task, quantum, ticks) == ticks as int / polls_per_sampling(
            task.interval,
            quantum,
        ),
        samplings(task, quantum, ticks) <= (ticks * quantum) / (task.interval as int),
        samplings(task, quantum, ticks) >= (ticks * quantum) / (task.interval + quantum),
        task.interval % quantum == 0 ==> samplings(task, quantum, ticks) == (ticks * quantum) / (
        task.interval as int),
{
    lemma_polled(task, quantum, ticks);
    let k = polls_per_sampling(task.interval, quantum);
    let q = quantum as int;
    let n = ticks as int;
    let i = task.interval as int;
    let d = n * q;
    let c = n / k;
    lemma_polls_per_sampling(i, q, k);
    lemma_fundamental_div_mod(n, k);
    assert(k * c == c * k) by (nonlinear_arith);
    let s = n % k;
    assert(n == c * k + s);
    assert(c >= 0) by (nonlinear_arith)
        requires
            n == c * k + s,
            n >= 0,
            0 <= s < k,
    ;
    assert(d >= 0) by (nonlinear_arith)
        requires
            d == n * q,
            n >= 0,
            q > 0,
    ;
    // Not more often than once per interval.
    assert(c * i <= d) by (nonlinear_arith)
        requires
            n == c * k + s,
            s >= 0,
            c >= 0,
            i <= k * q,
            q > 0,
            d == n * q,
    ;
    lemma_fundamental_div_mod(d, i);
    assert(c <= d / i) by (nonlinear_arith)
        requires
            c * i <= d,
            d == i * (d / i) + d % i,
            0 <= d % i < i,
    ;
    // Not less often than once per interval and quantum.
    let e = d / (i + q);
    lemma_fundamental_div_mod(d, i + q);
    assert(e <= c) by (nonlinear_arith)
        requires
            d == (i + q) * e + d % (i + q),
            0 <= d % (i + q),
            d == n * q,
            n == c * k + s,
            s < k,
            (k - 1) * q < i,
            q > 0,
            c >= 0,
            k >= 1,
    ;
    // Exactly once per interval where the quantum divides it.
    if i % q == 0 {
        lemma_fundamental_div_mod(i, q);
        let a = i / q;
        assert(i == q * a);
        assert(a == k) by (nonlinear_arith)
            requires
                i == q * a,
                (k - 1) * q < i <= k * q,
                q > 0,
        ;
        assert(d == i * c + s * q) by (nonlinear_arith)
            requires
                d == n * q,
                n == c * k + s,
                i == q * k,
        ;
        assert(0 <= s * q < i) by (nonlinear_arith)
            requires
                0 <= s < k,
                i == q * k,
                q > 0,
        ;
        assert(i * c == c * i) by (nonlinear_arith);
        lemma_fundamental_div_mod_converse(d, i, c, s * q);
    }
}

/// Over a run of any duration, polled every `quantum`, a task whose interval
/// is a whole number of quanta is sampled as often as its interval fits into
/// the duration.
pub proof fn lemma_samplings_over_duration(task: Task, quantum: u64, duration: nat)
    requires
        task.valid(),
        quantum > 0,
        task.interval % quantum == 0,
        task.last_run + duration <= u64::MAX,
    ensures
        samplings(task, quantum, duration / (quantum as nat)) == duration / (task.interval as nat),
{
    let q = quantum as int;
    let i = task.interval as int;
    let d = duration as int;
    let n = d / q;
    let e = d % q;
    lemma_fundamental_div_mod(d, q);
    assert(q * n == n * q) by (nonlinear_arith);
    assert(d == n * q + e);
    assert(n >= 0) by (nonlinear_arith)
        requires
            d == n * q + e,
            d >= 0,
            0 <= e < q,
    ;
    assert(n * q >= 0) by (nonlinear_arith)
        requires
            n >= 0,
            q > 0,
    ;
    lemma_sampling_cadence(task, quantum, n as nat);
    let k = polls_per_sampling(task.interval, quantum);
    lemma_polls_per_sampling(i, q, k);
    lemma_fundamental_div_mod(i, q);
    let a = i / q;
    assert(i == q * a);
    assert(a == k) by (nonlinear_arith)
        requires
            i == q * a,
            (k - 1) * q < i <= k * q,
            q > 0,
    ;
    let c = n / k;
    let s = n % k;
    lemma_fundamental_div_mod(n, k);
    assert(k * c == c * k) by (nonlinear_arith);
    assert(d == i * c + (s * q + e)) by (nonlinear_arith)
        requires
            d == n * q + e,
            n == c * k + s,
            i == q * k,
    ;
    assert(0 <= s * q + e < i) by (nonlinear_arith)
        requires
            0 <= s < k,
            0 <= e < q,
            i == q * k,
    ;
    assert(i * c == c * i) by (nonlinear_arith);
    lemma_fundamental_div_mod_converse(d, i, c, s * q + e);
}

} // verus!
