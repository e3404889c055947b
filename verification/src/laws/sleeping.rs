//! Sleeping takes the ticks that it was asked to take.

use crate::laws::any_run::{
    all_in_run, handed_out, in_run, law_no_task_is_handed_out_twice, lemma_event_keeps_entry,
    lemma_not_handed_out,
};
use crate::laws::events::{after, after_all, named, step, Event, Kind};
use crate::laws::ids::{
    law_counter_counts_tasks, law_line_is_in_order_of_queueing, lemma_gone_stays_gone,
    lemma_ordered_is_numbered, line, ordered,
};
use crate::laws::runs::{lemma_handed_out, lemma_step_one_out};
use crate::laws::turns::{can_be_polled, lemma_turn};
use crate::pool::{entered, is_polling, polling, runs_as, Body, Outcome, Poll, PoolEntry};
use crate::queue::{waits_as, FutureObject};
use crate::seqs::{first_index, lemma_first_index, lemma_first_index_is};
use crate::sleep::{SleepForTick, Yield};
use crate::state::{Action, CosyncState};
use crate::task_id::CosyncTaskId;
use vstd::prelude::*;

verus! {

/// A sleep after `n` polls.
pub open spec fn polled_times(sleep: SleepForTick, n: nat) -> SleepForTick
    decreases n,
{
    if n == 0 {
        sleep
    } else {
        polled_times(sleep, (n - 1) as nat).polled()
    }
}

/// How often the first `n` polls of a sleep wake the task, all together.
pub open spec fn wakes_in(sleep: SleepForTick, n: nat) -> nat
    decreases n,
{
    if n == 0 {
        0
    } else {
        wakes_in(sleep, (n - 1) as nat) + polled_times(sleep, (n - 1) as nat).wakes()
    }
}

/// A sleep of `ticks` ticks is pending for so many polls, and complete at the next one and ever
/// after. Each poll that is pending wakes the task once, and no other poll wakes it.
pub proof fn law_sleep_takes_its_ticks(ticks: usize, n: nat)
    ensures
        n < ticks ==> polled_times(SleepForTick(ticks), n).outcome() == Poll::Pending,
        n >= ticks ==> polled_times(SleepForTick(ticks), n).outcome() == Poll::Ready,
        polled_times(SleepForTick(ticks), n).wakes() == if n < ticks {
            1nat
        } else {
            0nat
        },
        wakes_in(SleepForTick(ticks), n) == if n < ticks {
            n as int
        } else {
            ticks as int
        },
        polled_times(SleepForTick(ticks), n).0 == if n < ticks {
            ticks - n
        } else {
            0
        },
    decreases n,
{
    if n > 0 {
        law_sleep_takes_its_ticks(ticks, (n - 1) as nat);
    }
}

/// A yield after `n` polls.
pub open spec fn yield_polled_times(this: Yield, n: nat) -> Yield
    decreases n,
{
    if n == 0 {
        this
    } else {
        yield_polled_times(this, (n - 1) as nat).polled()
    }
}

/// Yielding is the same as sleeping for one tick: each poll of a new yield tells what the same poll
/// of a sleep of one tick tells, and wakes the task as often. So it is pending at the first poll
/// and wakes the task in it, and never after.
pub proof fn law_yield_is_one_tick(this: Yield, n: nat)
    requires
        !this.yielded(),
    ensures
        yield_polled_times(this, n).outcome() == polled_times(SleepForTick(1), n).outcome(),
        yield_polled_times(this, n).wakes() == polled_times(SleepForTick(1), n).wakes(),
        yield_polled_times(this, n).wakes() == if n == 0 {
            1nat
        } else {
            0nat
        },
{
    law_sleep_takes_its_ticks(1, n);
    if n > 0 {
        yield_polled_times(this, (n - 1) as nat).lemma_polled();
    }
}

/// The work of a task that sleeps, or any other work.
pub enum Work<F> {
    /// The task sleeps.
    Sleep(SleepForTick),
    /// The task does something else.
    Other(F),
}

/// The task `id` runs, sleeps for `sleep`, and has asked to be polled.
pub open spec fn runs_asleep<F>(
    pool: Seq<PoolEntry<Work<F>>>,
    id: CosyncTaskId,
    sleep: SleepForTick,
) -> bool {
    exists|k: int|
        {
            &&& 0 <= k < pool.len()
            &&& (#[trigger] pool[k]).id == id
            &&& pool[k].body == Body::Idle(Work::<F>::Sleep(sleep))
            &&& pool[k].ready
        }
}

/// The task `id` sleeps for `sleep`: it runs, or, in a `Cosync`, it waits for the next run. (In a
/// `SerialCosync` a task that waits only begins to sleep when those before it are complete.)
pub open spec fn sleeps<F>(
    kind: Kind,
    state: CosyncState<Work<F>>,
    id: CosyncTaskId,
    sleep: SleepForTick,
) -> bool {
    ||| runs_asleep(state.pool, id, sleep)
    ||| kind is Concurrent && state.queue.incoming.contains(
        FutureObject(Work::<F>::Sleep(sleep), id),
    )
}

/// The task `id` is out to be polled.
pub open spec fn is_out<F>(pool: Seq<PoolEntry<F>>, id: CosyncTaskId) -> bool {
    exists|k: int|
        0 <= k < pool.len() && (#[trigger] pool[k]).id == id && pool[k].body is Polling
}

/// The task `id` runs and has asked to be polled.
pub open spec fn has_asked<F>(pool: Seq<PoolEntry<F>>, id: CosyncTaskId) -> bool {
    exists|k: int| 0 <= k < pool.len() && (#[trigger] pool[k]).id == id && pool[k].ready
}

/// Every task that is handed out comes back before the next step.
pub open spec fn all_come_back<F>(
    kind: Kind,
    begun: CosyncState<F>,
    events: Seq<Event<F>>,
) -> bool {
    forall|i: int|
        0 <= i < events.len() && (#[trigger] events[i]) is NextAction ==> !is_polling(
            after_all(kind, begun, events.take(i)).pool,
        )
}

/// When the task `id` comes back from being polled, it has done what a poll of `sleep` does: it is
/// complete, or it has asked to be polled again and goes on with the sleep after the poll.
pub open spec fn sleeps_as_told<F>(
    kind: Kind,
    begun: CosyncState<Work<F>>,
    events: Seq<Event<Work<F>>>,
    id: CosyncTaskId,
    sleep: SleepForTick,
) -> bool {
    forall|i: int|
        #![trigger events[i]]
        0 <= i < events.len() && events[i] is FinishPoll && is_out(
            after_all(kind, begun, events.take(i)).pool,
            id,
        ) ==> match sleep.outcome() {
            Poll::Ready => events[i]->FinishPoll_0 is Ready,
            Poll::Pending => {
                &&& events[i]->FinishPoll_0 == Outcome::Pending(Work::<F>::Sleep(sleep.polled()))
                &&& has_asked(after_all(kind, begun, events.take(i)).pool, id)
            },
        }
}

/// The events of a run, from its beginning at `begun` to its end, in which the task `id` sleeps.
#[verifier::opaque]
pub open spec fn sleeps_through<F>(
    kind: Kind,
    begun: CosyncState<Work<F>>,
    events: Seq<Event<Work<F>>>,
    id: CosyncTaskId,
    sleep: SleepForTick,
) -> bool {
    &&& all_in_run(events)
    &&& all_come_back(kind, begun, events)
    &&& sleeps_as_told(kind, begun, events, id, sleep)
    &&& !is_polling(after_all(kind, begun, events).pool)
    &&& step(kind, after_all(kind, begun, events)).1 is Return
}

/// The entry of a task that sleeps and has asked to be polled.
spec fn sleeper<F>(id: CosyncTaskId, sleep: SleepForTick, polled: bool) -> PoolEntry<Work<F>> {
    PoolEntry { id, body: Body::Idle(Work::Sleep(sleep)), ready: true, polled }
}

/// Only the task `id` is out.
spec fn only_out<F>(pool: Seq<PoolEntry<F>>, id: CosyncTaskId) -> bool {
    exists|k: int|
        {
            &&& 0 <= k < pool.len()
            &&& (#[trigger] pool[k]).id == id
            &&& pool[k].body is Polling
            &&& pool[k].polled
            &&& forall|m: int|
                0 <= m < pool.len() && m != k ==> (#[trigger] pool[m]).body !is Polling
        }
}

/// A sleeper in the course of a run: it has not been polled yet, or it is out, or it has come back.
spec fn on_course<F>(
    now: CosyncState<Work<F>>,
    out: Seq<CosyncTaskId>,
    id: CosyncTaskId,
    sleep: SleepForTick,
) -> bool {
    ||| !out.contains(id) && now.pool.contains(sleeper(id, sleep, false))
    ||| out.contains(id) && only_out(now.pool, id)
    ||| out.contains(id) && came_back(now, id, sleep)
}

/// A sleeper that was polled in the present run has come back.
spec fn came_back<F>(
    now: CosyncState<Work<F>>,
    id: CosyncTaskId,
    sleep: SleepForTick,
) -> bool {
    if sleep.0 == 0 {
        !line(now).contains(id)
    } else {
        now.pool.contains(sleeper(id, sleep.polled(), true))
    }
}

/// A task that is handed out, where none was before, is the only one that is out.
proof fn lemma_handed_out_is_out<F>(kind: Kind, state: CosyncState<F>, task: FutureObject<F>)
    requires
        ordered(state),
        ordered(step(kind, state).0),
        !is_polling(state.pool),
        step(kind, state).1 == Action::Poll(task),
    ensures
        only_out(step(kind, state).0.pool, task.1),
{
    let next = step(kind, state).0;
    lemma_step_one_out(kind, state, task);
    let k = first_index(next.pool, polling()) as int;
    lemma_ordered_is_numbered(next);
    lemma_handed_out(kind, state, task);
    assert(next.pool[k].polled);
}

/// What happens to a task that is out while it is out.
proof fn lemma_stays_out<F>(
    kind: Kind,
    state: CosyncState<F>,
    event: Event<F>,
    id: CosyncTaskId,
)
    requires
        only_out(state.pool, id),
        event is Queue || event is Unqueue || event is Wake,
    ensures
        only_out(after(kind, state, event).pool, id),
{
    let next = after(kind, state, event);
    let k = choose|k: int|
        {
            &&& 0 <= k < state.pool.len()
            &&& (#[trigger] state.pool[k]).id == id
            &&& state.pool[k].body is Polling
            &&& state.pool[k].polled
            &&& forall|m: int|
                0 <= m < state.pool.len() && m != k ==> (#[trigger] state.pool[m]).body !is Polling
        };
    assert forall|m: int| 0 <= m < next.pool.len() implies (#[trigger] next.pool[m]).id
        == state.pool[m].id && next.pool[m].body == state.pool[m].body && next.pool[m].polled
        == state.pool[m].polled by {}
    assert(next.pool[k].body is Polling);
}

/// A sleeper comes back.
proof fn lemma_comes_back<F>(
    state: CosyncState<Work<F>>,
    outcome: Outcome<Work<F>>,
    id: CosyncTaskId,
    sleep: SleepForTick,
)
    requires
        ordered(state),
        only_out(state.pool, id),
        match sleep.outcome() {
            Poll::Ready => outcome is Ready,
            Poll::Pending => {
                &&& outcome == Outcome::Pending(Work::<F>::Sleep(sleep.polled()))
                &&& has_asked(state.pool, id)
            },
        },
    ensures
        came_back(state.finished(outcome), id, sleep),
{
    let next = state.finished(outcome);
    let k = choose|k: int|
        {
            &&& 0 <= k < state.pool.len()
            &&& (#[trigger] state.pool[k]).id == id
            &&& state.pool[k].body is Polling
            &&& state.pool[k].polled
            &&& forall|m: int|
                0 <= m < state.pool.len() && m != k ==> (#[trigger] state.pool[m]).body !is Polling
        };
    lemma_first_index_is(state.pool, polling(), k);
    lemma_ordered_is_numbered(state);
    assert(line(state)[k] == id);
    if sleep.0 == 0 {
        assert(line(next) =~= line(state).remove(k));
        assert forall|m: int| 0 <= m < line(next).len() implies line(next)[m] != id by {
            let n = if m < k { m } else { m + 1 };
            assert(line(next)[m] == line(state)[n]);
        }
    } else {
        let m = choose|m: int|
            0 <= m < state.pool.len() && (#[trigger] state.pool[m]).id == id
                && state.pool[m].ready;
        assert(line(state)[m] == id);
        assert(m == k);
        assert(next.pool[k] == sleeper::<F>(id, sleep.polled(), true));
    }
}

/// One event keeps a sleeper on course.
proof fn lemma_stays_on_course<F>(
    kind: Kind,
    now: CosyncState<Work<F>>,
    event: Event<Work<F>>,
    out: Seq<CosyncTaskId>,
    id: CosyncTaskId,
    sleep: SleepForTick,
)
    requires
        ordered(now),
        ordered(after(kind, now, event)),
        id.0 < now.queue.counter,
        now.queue.counter + named(seq![event]) <= u64::MAX,
        in_run(event),
        event is NextAction ==> !is_polling(now.pool),
        event is FinishPoll && is_out(now.pool, id) ==> match sleep.outcome() {
            Poll::Ready => event->FinishPoll_0 is Ready,
            Poll::Pending => {
                &&& event->FinishPoll_0 == Outcome::Pending(Work::<F>::Sleep(sleep.polled()))
                &&& has_asked(now.pool, id)
            },
        },
        on_course(now, out, id, sleep),
    ensures
        on_course(
            after(kind, now, event),
            match step(kind, now).1 {
                Action::Poll(task) if event is NextAction => out.push(task.1),
                _ => out,
            },
            id,
            sleep,
        ),
{
    let next = after(kind, now, event);
    let more = match step(kind, now).1 {
        Action::Poll(task) if event is NextAction => out.push(task.1),
        _ => out,
    };
    lemma_ordered_is_numbered(now);
    if out.contains(id) {
        let k = choose|k: int| 0 <= k < out.len() && out[k] == id;
        assert(more[k] == id);
    }
    if !out.contains(id) {
        let entry = sleeper::<F>(id, sleep, false);
        match step(kind, now).1 {
            Action::Poll(task) if event is NextAction && task.1 == id => {
                assert(more[out.len() as int] == id);
                lemma_handed_out_is_out(kind, now, task);
            },
            _ => {
                lemma_event_keeps_entry(kind, now, event, entry);
                assert forall|k: int| 0 <= k < more.len() implies more[k] != id by {
                    assert(k < out.len() ==> more[k] == out[k]);
                }
            },
        }
    } else if only_out(now.pool, id) {
        assert(is_polling(now.pool) && is_out(now.pool, id));
        match event {
            Event::FinishPoll(outcome) => {
                lemma_comes_back(now, outcome, id, sleep);
            },
            _ => {
                lemma_stays_out(kind, now, event, id);
            },
        }
    } else if sleep.0 == 0 {
        let one = seq![event];
        assert(one.drop_last() =~= Seq::empty());
        assert(after_all(kind, now, one.drop_last()) == now);
        lemma_gone_stays_gone(kind, now, one, id);
    } else {
        let entry = sleeper::<F>(id, sleep.polled(), true);
        lemma_not_handed_out(kind, now, entry);
        lemma_event_keeps_entry(kind, now, event, entry);
    }
}

/// A sleeper stays on course through a run.
proof fn lemma_on_course<F>(
    kind: Kind,
    begun: CosyncState<Work<F>>,
    events: Seq<Event<Work<F>>>,
    id: CosyncTaskId,
    sleep: SleepForTick,
)
    requires
        ordered(begun),
        begun.queue.counter + named(events) <= u64::MAX,
        begun.pool.contains(sleeper(id, sleep, false)),
        all_in_run(events),
        all_come_back(kind, begun, events),
        sleeps_as_told(kind, begun, events, id, sleep),
    ensures
        on_course(after_all(kind, begun, events), handed_out(kind, begun, events), id, sleep),
    decreases events.len(),
{
    if events.len() > 0 {
        let front = events.drop_last();
        let last = events.last();
        let now = after_all(kind, begun, front);
        assert(events.take(events.len() - 1) =~= front);
        assert(last == events[events.len() - 1]);
        assert forall|i: int| 0 <= i < front.len() implies front[i] == events[i] && front.take(i)
            == events.take(i) by {
            assert(front.take(i) =~= events.take(i));
        }
        lemma_on_course(kind, begun, front, id, sleep);
        law_line_is_in_order_of_queueing(kind, begun, front);
        law_line_is_in_order_of_queueing(kind, begun, events);
        law_counter_counts_tasks(kind, begun, front);
        let k = choose|k: int|
            0 <= k < begun.pool.len() && begun.pool[k] == sleeper::<F>(id, sleep, false);
        assert(line(begun)[k] == id);
        assert(seq![last].drop_last() =~= Seq::empty());
        assert(named(seq![last].drop_last()) == 0);
        lemma_stays_on_course(kind, now, last, handed_out(kind, begun, front), id, sleep);
    }
}

/// Among any other tasks, a task that sleeps is polled exactly once in each run. If ticks are left
/// it stays and sleeps on for one tick less, and if none is left it is complete and leaves.
pub proof fn law_sleeper_is_polled_once_per_run<F>(
    kind: Kind,
    state: CosyncState<Work<F>>,
    events: Seq<Event<Work<F>>>,
    id: CosyncTaskId,
    sleep: SleepForTick,
)
    requires
        ordered(state),
        state.queue.counter + named(events) <= u64::MAX,
        sleeps(kind, state, id, sleep),
        sleeps_through(kind, after(kind, state, Event::BeginRun), events, id, sleep),
    ensures
        ({
            let begun = after(kind, state, Event::BeginRun);
            let end = after_all(kind, begun, events);
            &&& handed_out(kind, begun, events).contains(id)
            &&& handed_out(kind, begun, events).no_duplicates()
            &&& sleep.0 > 0 ==> sleeps(kind, end, id, sleep.polled())
            &&& sleep.0 == 0 ==> !line(end).contains(id)
        }),
{
    let begun = after(kind, state, Event::BeginRun);
    let end = after_all(kind, begun, events);
    let entry = sleeper::<F>(id, sleep, false);
    reveal(sleeps_through);
    assert(line(begun) =~= line(state));
    if runs_asleep(state.pool, id, sleep) {
        let k = choose|k: int|
            {
                &&& 0 <= k < state.pool.len()
                &&& (#[trigger] state.pool[k]).id == id
                &&& state.pool[k].body == Body::Idle(Work::<F>::Sleep(sleep))
                &&& state.pool[k].ready
            };
        assert(begun.pool[k] == entry);
    } else {
        let task = FutureObject(Work::<F>::Sleep(sleep), id);
        let incoming = state.queue.incoming;
        let k = choose|k: int| 0 <= k < incoming.len() && incoming[k] == task;
        assert(state.drained().pool[state.pool.len() + k] == entered(incoming[k]));
        assert(begun.pool[state.pool.len() + k] == entry);
    }
    lemma_on_course(kind, begun, events, id, sleep);
    law_no_task_is_handed_out_twice(kind, begun, events);
    lemma_turn(end.pool);
    if end.pool.contains(entry) {
        let k = choose|k: int| 0 <= k < end.pool.len() && end.pool[k] == entry;
        assert(can_be_polled(end.pool[k]));
    }
    if sleep.0 > 0 {
        let later = sleeper::<F>(id, sleep.polled(), true);
        let k = choose|k: int| 0 <= k < end.pool.len() && end.pool[k] == later;
        assert(runs_asleep(end.pool, id, sleep.polled()));
    }
}

/// A run, with what the owner and the handles do before it begins.
pub struct Run<F> {
    /// What is done before the run begins.
    pub before: Seq<Event<F>>,
    /// What happens in the run.
    pub events: Seq<Event<F>>,
}

/// The cosync when the run begins.
pub open spec fn begun<F>(kind: Kind, state: CosyncState<F>, run: Run<F>) -> CosyncState<F> {
    after(kind, after_all(kind, state, run.before), Event::BeginRun)
}

/// The cosync after the runs.
pub open spec fn after_runs<F>(
    kind: Kind,
    state: CosyncState<F>,
    runs: Seq<Run<F>>,
) -> CosyncState<F>
    decreases runs.len(),
{
    if runs.len() == 0 {
        state
    } else {
        let last = runs.last();
        after_all(
            kind,
            begun(kind, after_runs(kind, state, runs.drop_last()), last),
            last.events,
        )
    }
}

/// How many tasks are queued before and in the runs.
pub open spec fn queued_in_runs<F>(runs: Seq<Run<F>>) -> nat
    decreases runs.len(),
{
    if runs.len() == 0 {
        0
    } else {
        queued_in_runs(runs.drop_last()) + named(runs.last().before) + named(runs.last().events)
    }
}

/// An operation between runs that neither stops the task `id`, nor takes it out of the queue, nor
/// drops tasks altogether.
pub open spec fn leaves_alone<F>(kind: Kind, event: Event<F>, id: CosyncTaskId) -> bool {
    match event {
        Event::Queue(_) | Event::Wake(_) => true,
        Event::Unqueue(other) => other != id,
        Event::Stop(other) => kind is Concurrent && other != id,
        _ => false,
    }
}

/// In each of the runs the task `id` sleeps, one tick of `ticks` less each time, and is left alone
/// before it.
#[verifier::opaque]
pub open spec fn sleeps_through_all<F>(
    kind: Kind,
    state: CosyncState<Work<F>>,
    runs: Seq<Run<Work<F>>>,
    id: CosyncTaskId,
    ticks: usize,
) -> bool {
    forall|n: int|
        #![trigger runs[n]]
        0 <= n < runs.len() ==> {
            &&& forall|i: int|
                0 <= i < runs[n].before.len() ==> leaves_alone(
                    kind,
                    #[trigger] runs[n].before[i],
                    id,
                )
            &&& sleeps_through(
                kind,
                begun(kind, after_runs(kind, state, runs.take(n)), runs[n]),
                runs[n].events,
                id,
                polled_times(SleepForTick(ticks), n as nat),
            )
        }
}

/// What is done between runs leaves a sleeper alone.
proof fn lemma_left_alone<F>(
    kind: Kind,
    state: CosyncState<Work<F>>,
    events: Seq<Event<Work<F>>>,
    id: CosyncTaskId,
    sleep: SleepForTick,
)
    requires
        sleeps(kind, state, id, sleep),
        forall|i: int| 0 <= i < events.len() ==> leaves_alone(kind, #[trigger] events[i], id),
    ensures
        sleeps(kind, after_all(kind, state, events), id, sleep),
    decreases events.len(),
{
    if events.len() > 0 {
        let front = events.drop_last();
        let now = after_all(kind, state, front);
        let event = events.last();
        let next = after(kind, now, event);
        let incoming = now.queue.incoming;
        let task = FutureObject(Work::<F>::Sleep(sleep), id);
        assert(event == events[events.len() - 1]);
        assert forall|i: int| 0 <= i < front.len() implies front[i] == events[i] by {}
        lemma_left_alone(kind, state, front, id, sleep);
        if runs_asleep(now.pool, id, sleep) {
            let k = choose|k: int|
                {
                    &&& 0 <= k < now.pool.len()
                    &&& (#[trigger] now.pool[k]).id == id
                    &&& now.pool[k].body == Body::Idle(Work::<F>::Sleep(sleep))
                    &&& now.pool[k].ready
                };
            if let Event::Stop(other) = event {
                lemma_first_index(now.pool, runs_as(other));
            }
            assert(next.pool[k] == now.pool[k]);
        } else {
            let k = choose|k: int| 0 <= k < incoming.len() && incoming[k] == task;
            match event {
                Event::Unqueue(other) => {
                    lemma_first_index(incoming, waits_as(other));
                    let i = first_index(incoming, waits_as(other)) as int;
                    let m = if i < k { k - 1 } else { k };
                    assert(next.queue.incoming[m] == task);
                },
                _ => {
                    assert(next.queue.incoming[k] == task);
                },
            }
        }
    }
}

/// The identifiers stay in order through the runs, and the counter counts.
proof fn lemma_runs_ordered<F>(kind: Kind, state: CosyncState<F>, runs: Seq<Run<F>>)
    requires
        ordered(state),
        state.queue.counter + queued_in_runs(runs) <= u64::MAX,
    ensures
        ordered(after_runs(kind, state, runs)),
        after_runs(kind, state, runs).queue.counter == state.queue.counter + queued_in_runs(runs),
    decreases runs.len(),
{
    if runs.len() > 0 {
        let last = runs.last();
        let earlier = after_runs(kind, state, runs.drop_last());
        let ready = after_all(kind, earlier, last.before);
        let start = begun(kind, earlier, last);
        lemma_runs_ordered(kind, state, runs.drop_last());
        law_line_is_in_order_of_queueing(kind, earlier, last.before);
        law_counter_counts_tasks(kind, earlier, last.before);
        assert(line(start) =~= line(ready));
        law_line_is_in_order_of_queueing(kind, start, last.events);
        law_counter_counts_tasks(kind, start, last.events);
    }
}

/// The same for the runs before the last.
proof fn lemma_sleeps_through_front<F>(
    kind: Kind,
    state: CosyncState<Work<F>>,
    runs: Seq<Run<Work<F>>>,
    id: CosyncTaskId,
    ticks: usize,
)
    requires
        runs.len() > 0,
        sleeps_through_all(kind, state, runs, id, ticks),
    ensures
        sleeps_through_all(kind, state, runs.drop_last(), id, ticks),
        forall|i: int|
            0 <= i < runs.last().before.len() ==> leaves_alone(
                kind,
                #[trigger] runs.last().before[i],
                id,
            ),
        sleeps_through(
            kind,
            begun(kind, after_runs(kind, state, runs.drop_last()), runs.last()),
            runs.last().events,
            id,
            polled_times(SleepForTick(ticks), (runs.len() - 1) as nat),
        ),
{
    reveal(sleeps_through_all);
    let front = runs.drop_last();
    assert(runs.last() == runs[runs.len() - 1]);
    assert(runs.take(runs.len() - 1) =~= front);
    assert forall|n: int| #![trigger front[n]] 0 <= n < front.len() implies {
        &&& forall|i: int|
            0 <= i < front[n].before.len() ==> leaves_alone(kind, #[trigger] front[n].before[i], id)
        &&& sleeps_through(
            kind,
            begun(kind, after_runs(kind, state, front.take(n)), front[n]),
            front[n].events,
            id,
            polled_times(SleepForTick(ticks), n as nat),
        )
    } by {
        assert(front[n] == runs[n]);
        assert(front.take(n) =~= runs.take(n));
    }
}

/// One run of a sleeper, with what is done before it.
proof fn lemma_one_more_run<F>(
    kind: Kind,
    state: CosyncState<Work<F>>,
    run: Run<Work<F>>,
    id: CosyncTaskId,
    sleep: SleepForTick,
)
    requires
        ordered(state),
        state.queue.counter + named(run.before) + named(run.events) <= u64::MAX,
        sleeps(kind, state, id, sleep),
        forall|i: int|
            0 <= i < run.before.len() ==> leaves_alone(kind, #[trigger] run.before[i], id),
        sleeps_through(kind, begun(kind, state, run), run.events, id, sleep),
    ensures
        ({
            let start = begun(kind, state, run);
            let end = after_all(kind, start, run.events);
            &&& handed_out(kind, start, run.events).contains(id)
            &&& handed_out(kind, start, run.events).no_duplicates()
            &&& sleep.0 > 0 ==> sleeps(kind, end, id, sleep.polled())
            &&& sleep.0 == 0 ==> !line(end).contains(id)
        }),
{
    let ready = after_all(kind, state, run.before);
    law_line_is_in_order_of_queueing(kind, state, run.before);
    law_counter_counts_tasks(kind, state, run.before);
    lemma_left_alone(kind, state, run.before, id, sleep);
    law_sleeper_is_polled_once_per_run(kind, ready, run.events, id, sleep);
}

/// One run without a sleeper that has left.
proof fn lemma_one_run_without<F>(
    kind: Kind,
    state: CosyncState<F>,
    run: Run<F>,
    id: CosyncTaskId,
)
    requires
        state.queue.counter + named(run.before) + named(run.events) <= u64::MAX,
        id.0 < state.queue.counter,
        !line(state).contains(id),
    ensures
        !line(after_all(kind, begun(kind, state, run), run.events)).contains(id),
{
    let ready = after_all(kind, state, run.before);
    let start = begun(kind, state, run);
    law_counter_counts_tasks(kind, state, run.before);
    lemma_gone_stays_gone(kind, state, run.before, id);
    assert(line(start) =~= line(ready));
    lemma_gone_stays_gone(kind, start, run.events, id);
}

/// Sleeping through runs: a task that sleeps for `ticks` ticks stays, among any other tasks, for so
/// many runs. It is polled exactly once in each of them, and once more in the next one, in which it
/// is complete and leaves for good.
pub proof fn law_sleeper_stays_for_its_ticks<F>(
    kind: Kind,
    state: CosyncState<Work<F>>,
    runs: Seq<Run<Work<F>>>,
    id: CosyncTaskId,
    ticks: usize,
)
    requires
        ordered(state),
        state.queue.counter + queued_in_runs(runs) <= u64::MAX,
        sleeps(kind, state, id, SleepForTick(ticks)),
        sleeps_through_all(kind, state, runs, id, ticks),
    ensures
        ({
            let n = runs.len();
            let end = after_runs(kind, state, runs);
            let start = begun(kind, after_runs(kind, state, runs.drop_last()), runs.last());
            &&& n <= ticks ==> sleeps(kind, end, id, SleepForTick((ticks - n) as usize))
            &&& n > ticks ==> !line(end).contains(id)
            &&& 0 < n <= ticks + 1 ==> {
                &&& handed_out(kind, start, runs.last().events).contains(id)
                &&& handed_out(kind, start, runs.last().events).no_duplicates()
            }
        }),
    decreases runs.len(),
{
    let n = runs.len();
    if n > 0 {
        let front = runs.drop_last();
        let earlier = after_runs(kind, state, front);
        let sleep = polled_times(SleepForTick(ticks), (n - 1) as nat);
        lemma_sleeps_through_front(kind, state, runs, id, ticks);
        law_sleeper_stays_for_its_ticks(kind, state, front, id, ticks);
        lemma_runs_ordered(kind, state, front);
        law_sleep_takes_its_ticks(ticks, (n - 1) as nat);
        if n - 1 <= ticks {
            assert(sleep == SleepForTick((ticks - (n - 1)) as usize));
            lemma_one_more_run(kind, earlier, runs.last(), id, sleep);
        } else {
            lemma_sleeper_is_numbered(kind, state, id, SleepForTick(ticks));
            lemma_one_run_without(kind, earlier, runs.last(), id);
        }
    }
}

/// The identifier of a sleeper was given out.
proof fn lemma_sleeper_is_numbered<F>(
    kind: Kind,
    state: CosyncState<Work<F>>,
    id: CosyncTaskId,
    sleep: SleepForTick,
)
    requires
        ordered(state),
        sleeps(kind, state, id, sleep),
    ensures
        id.0 < state.queue.counter,
{
    if runs_asleep(state.pool, id, sleep) {
        let k = choose|k: int|
            {
                &&& 0 <= k < state.pool.len()
                &&& (#[trigger] state.pool[k]).id == id
                &&& state.pool[k].body == Body::Idle(Work::<F>::Sleep(sleep))
                &&& state.pool[k].ready
            };
        assert(line(state)[k] == id);
    } else {
        let task = FutureObject(Work::<F>::Sleep(sleep), id);
        let incoming = state.queue.incoming;
        let k = choose|k: int| 0 <= k < incoming.len() && incoming[k] == task;
        assert(line(state)[state.pool.len() + k] == id);
    }
}

} // verus!
