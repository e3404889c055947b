//! Task identifiers: they grow, and no two tasks have the same one.

use crate::laws::events::{after, after_all, named, Event, Kind};
use crate::pool::{all_entered, next_turn, polling, runnable, Body, PoolEntry};
use crate::queue::{waits_as, FutureObject};
use crate::seqs::{first_index, lemma_first_index};
use crate::state::CosyncState;
use crate::task_id::CosyncTaskId;
use vstd::prelude::*;

verus! {

/// The identifiers of all tasks: of those that run, in the order of the pool, and then of those
/// that wait, in the order of the queue.
pub open spec fn line<F>(state: CosyncState<F>) -> Seq<CosyncTaskId> {
    pool_ids(state.pool) + queue_ids(state.queue.incoming)
}

/// The identifiers of running tasks.
pub open spec fn pool_ids<F>(pool: Seq<PoolEntry<F>>) -> Seq<CosyncTaskId> {
    pool.map_values(|entry: PoolEntry<F>| entry.id)
}

/// The identifiers of waiting tasks.
pub open spec fn queue_ids<F>(incoming: Seq<FutureObject<F>>) -> Seq<CosyncTaskId> {
    incoming.map_values(|task: FutureObject<F>| task.1)
}

/// No two tasks have the same identifier, and all identifiers are below the next one to be given
/// out.
pub open spec fn numbered<F>(state: CosyncState<F>) -> bool {
    &&& line(state).no_duplicates()
    &&& forall|i: int|
        0 <= i < line(state).len() ==> (#[trigger] line(state)[i]).0 < state.queue.counter
}

/// The elements of `some` stand in `all` at the indices `at`, one after the other.
pub open spec fn embeds(some: Seq<CosyncTaskId>, all: Seq<CosyncTaskId>, at: Seq<int>) -> bool {
    &&& at.len() == some.len()
    &&& forall|i: int|
        0 <= i < some.len() ==> 0 <= #[trigger] at[i] < all.len() && all[at[i]] == some[i]
    &&& forall|i: int, j: int| 0 <= i < j < some.len() ==> #[trigger] at[i] < #[trigger] at[j]
}

/// `some` is `all` without some of its elements, the rest in the same order.
pub open spec fn thinned(some: Seq<CosyncTaskId>, all: Seq<CosyncTaskId>) -> bool {
    exists|at: Seq<int>| embeds(some, all, at)
}

proof fn lemma_thinned_same(a: Seq<CosyncTaskId>)
    ensures
        thinned(a, a),
{
    assert(embeds(a, a, Seq::new(a.len(), |i: int| i)));
}

proof fn lemma_thinned_remove(a: Seq<CosyncTaskId>, r: int)
    requires
        0 <= r < a.len(),
    ensures
        thinned(a.remove(r), a),
{
    let at = Seq::new(
        (a.len() - 1) as nat,
        |i: int|
            if i < r {
                i
            } else {
                i + 1
            },
    );
    assert(embeds(a.remove(r), a, at));
}

proof fn lemma_thinned_transitive(
    a: Seq<CosyncTaskId>,
    b: Seq<CosyncTaskId>,
    c: Seq<CosyncTaskId>,
)
    requires
        thinned(a, b),
        thinned(b, c),
    ensures
        thinned(a, c),
{
    let ab = choose|at: Seq<int>| embeds(a, b, at);
    let bc = choose|at: Seq<int>| embeds(b, c, at);
    let ac = Seq::new(a.len(), |i: int| bc[ab[i]]);
    assert(embeds(a, c, ac));
}

proof fn lemma_thinned_append(a: Seq<CosyncTaskId>, b: Seq<CosyncTaskId>, c: Seq<CosyncTaskId>)
    requires
        thinned(a, b),
    ensures
        thinned(a + c, b + c),
{
    let ab = choose|at: Seq<int>| embeds(a, b, at);
    let at = Seq::new(
        a.len() + c.len(),
        |i: int|
            if i < a.len() {
                ab[i]
            } else {
                i - a.len() + b.len()
            },
    );
    assert(embeds(a + c, b + c, at));
}

proof fn lemma_suffix_thinned(a: Seq<CosyncTaskId>, b: Seq<CosyncTaskId>)
    ensures
        thinned(b, a + b),
{
    assert(embeds(b, a + b, Seq::new(b.len(), |i: int| i + a.len())));
}

proof fn lemma_prefix_thinned(a: Seq<CosyncTaskId>, b: Seq<CosyncTaskId>)
    ensures
        thinned(a, a + b),
{
    assert(embeds(a, a + b, Seq::new(a.len(), |i: int| i)));
}

/// Tasks only leave the pool when it is their turn and they were stopped.
proof fn lemma_turn_thins<F>(pool: Seq<PoolEntry<F>>)
    ensures
        thinned(pool_ids(next_turn(pool).0), pool_ids(pool)),
    decreases pool.len(),
{
    lemma_first_index(pool, runnable());
    let i = first_index(pool, runnable()) as int;
    if i < pool.len() {
        match pool[i].body {
            Body::Idle(_) => {
                lemma_thinned_same(pool_ids(pool));
                assert(pool_ids(next_turn(pool).0) =~= pool_ids(pool));
            },
            _ => {
                lemma_turn_thins(pool.remove(i));
                lemma_thinned_remove(pool_ids(pool), i);
                assert(pool_ids(pool.remove(i)) =~= pool_ids(pool).remove(i));
                lemma_thinned_transitive(
                    pool_ids(next_turn(pool).0),
                    pool_ids(pool.remove(i)),
                    pool_ids(pool),
                );
            },
        }
    } else {
        lemma_thinned_same(pool_ids(pool));
    }
}

/// What a step of a run makes of the line.
proof fn lemma_concurrent_step_thins<F>(state: CosyncState<F>)
    ensures
        thinned(line(state.concurrent_step().0), line(state)),
{
    let waiting = queue_ids(state.queue.incoming);
    let (pool, turn) = next_turn(state.pool);
    lemma_turn_thins(state.pool);
    lemma_thinned_append(pool_ids(pool), pool_ids(state.pool), waiting);
    if turn is None {
        let joined = pool + all_entered(state.queue.incoming);
        lemma_turn_thins(joined);
        assert(pool_ids(joined) =~= pool_ids(pool) + waiting);
        lemma_thinned_transitive(pool_ids(next_turn(joined).0), pool_ids(joined), line(state));
        assert(line(state.concurrent_step().0) =~= pool_ids(next_turn(joined).0));
    }
}

/// What a step of a serial run makes of the line.
proof fn lemma_serial_step_thins<F>(state: CosyncState<F>)
    ensures
        thinned(line(state.serial_step().0), line(state)),
{
    let waiting = queue_ids(state.queue.incoming);
    let (pool, turn) = next_turn(state.pool);
    lemma_turn_thins(state.pool);
    lemma_thinned_append(pool_ids(pool), pool_ids(state.pool), waiting);
    if turn is None && pool.len() == 0 && state.queue.incoming.len() > 0 {
        assert(line(state.serial_step().0) =~= waiting);
        assert(pool_ids(pool) + waiting =~= waiting);
    }
}

/// What an operation makes of the line: a new task joins its end, or else some may leave it.
proof fn lemma_line<F>(kind: Kind, state: CosyncState<F>, event: Event<F>)
    ensures
        event.names_task() ==> line(after(kind, state, event)) == line(state).push(
            state.queue.next_id(),
        ),
        !event.names_task() ==> thinned(line(after(kind, state, event)), line(state)),
{
    let ids = line(state);
    let next = after(kind, state, event);
    lemma_thinned_same(ids);
    match event {
        Event::Queue(_) => {
            assert(line(next) =~= ids.push(state.queue.next_id()));
        },
        Event::Unqueue(id) => {
            lemma_first_index(state.queue.incoming, waits_as(id));
            let i = first_index(state.queue.incoming, waits_as(id)) as int;
            if i < state.queue.incoming.len() {
                assert(line(next) =~= ids.remove(state.pool.len() + i));
                lemma_thinned_remove(ids, state.pool.len() + i);
            } else {
                assert(line(next) =~= ids);
            }
        },
        Event::Stop(_) => match kind {
            Kind::Concurrent => {
                assert(line(next) =~= ids);
            },
            Kind::Serial => {
                lemma_suffix_thinned(pool_ids(state.pool), queue_ids(state.queue.incoming));
                assert(line(next) =~= queue_ids(state.queue.incoming));
            },
        },
        Event::Wake(_) | Event::BeginRun => {
            assert(line(next) =~= ids);
        },
        Event::ClearRunning => {
            lemma_suffix_thinned(pool_ids(state.pool), queue_ids(state.queue.incoming));
            assert(line(next) =~= queue_ids(state.queue.incoming));
        },
        Event::ClearQueue => {
            lemma_prefix_thinned(pool_ids(state.pool), queue_ids(state.queue.incoming));
            assert(line(next) =~= pool_ids(state.pool));
        },
        Event::Clear => {
            lemma_prefix_thinned(Seq::empty(), ids);
            assert(Seq::<CosyncTaskId>::empty() + ids =~= ids);
            assert(line(next) =~= Seq::<CosyncTaskId>::empty());
        },
        Event::NextAction => {
            lemma_concurrent_step_thins(state);
            lemma_serial_step_thins(state);
        },
        Event::FinishPoll(outcome) => {
            lemma_first_index(state.pool, polling());
            let i = first_index(state.pool, polling()) as int;
            if i < state.pool.len() && outcome is Ready {
                assert(line(next) =~= ids.remove(i));
                lemma_thinned_remove(ids, i);
            } else {
                assert(line(next) =~= ids);
            }
        },
    }
}

/// How the counter goes on.
proof fn lemma_counter<F>(kind: Kind, state: CosyncState<F>, event: Event<F>)
    requires
        event.names_task() ==> state.queue.counter < u64::MAX,
    ensures
        after(kind, state, event).queue.counter == state.queue.counter + named(seq![event]),
{
    assert(seq![event].drop_last() =~= Seq::empty());
    assert(named(seq![event].drop_last()) == 0);
}

/// As long as fewer than 2^64 tasks were queued, the counter tells how many were.
pub proof fn law_counter_counts_tasks<F>(
    kind: Kind,
    state: CosyncState<F>,
    events: Seq<Event<F>>,
)
    requires
        state.queue.counter + named(events) <= u64::MAX,
    ensures
        after_all(kind, state, events).queue.counter == state.queue.counter + named(events),
    decreases events.len(),
{
    if events.len() > 0 {
        let last = events.last();
        law_counter_counts_tasks(kind, state, events.drop_last());
        lemma_counter(kind, after_all(kind, state, events.drop_last()), last);
        assert(seq![last].drop_last() =~= Seq::empty());
        assert(named(seq![last].drop_last()) == 0);
    }
}

/// A task that is queued later, whatever happens in between, gets a greater identifier, as long as
/// the identifiers have not come around.
pub proof fn law_later_ids_are_greater<F>(
    kind: Kind,
    state: CosyncState<F>,
    first: Event<F>,
    between: Seq<Event<F>>,
)
    requires
        first.names_task(),
        state.queue.counter + 1 + named(between) <= u64::MAX,
    ensures
        ({
            let earlier = state.queue.next_id();
            let later = after_all(kind, after(kind, state, first), between).queue.next_id();
            earlier.0 < later.0
        }),
{
    lemma_counter(kind, state, first);
    assert(seq![first].drop_last() =~= Seq::empty());
    assert(named(seq![first].drop_last()) == 0);
    law_counter_counts_tasks(kind, after(kind, state, first), between);
}

/// One operation keeps the identifiers apart.
proof fn lemma_stays_numbered<F>(kind: Kind, state: CosyncState<F>, event: Event<F>)
    requires
        numbered(state),
        event.names_task() ==> state.queue.counter < u64::MAX,
    ensures
        numbered(after(kind, state, event)),
        state.queue.counter <= after(kind, state, event).queue.counter,
{
    let next = after(kind, state, event);
    lemma_line(kind, state, event);
    lemma_counter(kind, state, event);
    assert(seq![event].drop_last() =~= Seq::empty());
    assert(named(seq![event].drop_last()) == 0);
    if event.names_task() {
        assert forall|i: int| 0 <= i < line(next).len() implies (#[trigger] line(next)[i]).0
            < next.queue.counter by {
            assert(i < line(state).len() ==> line(next)[i] == line(state)[i]);
        }
        assert forall|i: int, j: int|
            0 <= i < line(next).len() && 0 <= j < line(next).len() && i != j implies line(next)[i]
            != line(next)[j] by {
            assert(i < line(state).len() ==> line(next)[i] == line(state)[i]);
            assert(j < line(state).len() ==> line(next)[j] == line(state)[j]);
        }
    } else {
        let at = choose|at: Seq<int>| embeds(line(next), line(state), at);
        assert forall|i: int| 0 <= i < line(next).len() implies (#[trigger] line(next)[i]).0
            < next.queue.counter by {
            assert(line(state)[at[i]] == line(next)[i]);
        }
        assert forall|i: int, j: int|
            0 <= i < line(next).len() && 0 <= j < line(next).len() && i != j implies line(next)[i]
            != line(next)[j] by {
            assert(line(state)[at[i]] == line(next)[i]);
            assert(line(state)[at[j]] == line(next)[j]);
            assert(at[i] != at[j]);
        }
    }
}

/// No two tasks have the same identifier, whatever is done to a cosync, as long as the identifiers
/// have not come around.
pub proof fn law_ids_are_distinct<F>(kind: Kind, state: CosyncState<F>, events: Seq<Event<F>>)
    requires
        numbered(state),
        state.queue.counter + named(events) <= u64::MAX,
    ensures
        numbered(after_all(kind, state, events)),
    decreases events.len(),
{
    if events.len() > 0 {
        law_ids_are_distinct(kind, state, events.drop_last());
        law_counter_counts_tasks(kind, state, events.drop_last());
        lemma_stays_numbered(kind, after_all(kind, state, events.drop_last()), events.last());
    }
}

/// A task that is not in line, and whose identifier was given out, never joins the line again.
pub proof fn lemma_gone_stays_gone<F>(
    kind: Kind,
    state: CosyncState<F>,
    events: Seq<Event<F>>,
    id: CosyncTaskId,
)
    requires
        !line(state).contains(id),
        id.0 < state.queue.counter,
        state.queue.counter + named(events) <= u64::MAX,
    ensures
        !line(after_all(kind, state, events)).contains(id),
    decreases events.len(),
{
    if events.len() > 0 {
        let before = after_all(kind, state, events.drop_last());
        let event = events.last();
        let next = after(kind, before, event);
        lemma_gone_stays_gone(kind, state, events.drop_last(), id);
        law_counter_counts_tasks(kind, state, events.drop_last());
        lemma_line(kind, before, event);
        assert forall|i: int| 0 <= i < line(next).len() implies line(next)[i] != id by {
            if event.names_task() {
                assert(i < line(before).len() ==> line(next)[i] == line(before)[i]);
            } else {
                let at = choose|at: Seq<int>| embeds(line(next), line(before), at);
                assert(line(before)[at[i]] == line(next)[i]);
            }
        }
    }
}

/// A new cosync has no tasks, so none share an identifier.
pub proof fn law_new_is_numbered<F>()
    ensures
        numbered(CosyncState::<F>::initial()),
{
}

/// The task `a` stands in line before the task `b`.
pub open spec fn stands_before(ids: Seq<CosyncTaskId>, a: CosyncTaskId, b: CosyncTaskId) -> bool {
    exists|i: int, j: int|
        0 <= i < j < ids.len() && #[trigger] ids[i] == a && #[trigger] ids[j] == b
}

/// One operation keeps the order of the line.
proof fn lemma_order_kept<F>(
    kind: Kind,
    state: CosyncState<F>,
    event: Event<F>,
    a: CosyncTaskId,
    b: CosyncTaskId,
)
    requires
        a.0 < state.queue.counter,
        b.0 < state.queue.counter,
        stands_before(line(after(kind, state, event)), a, b),
    ensures
        stands_before(line(state), a, b),
{
    let next = line(after(kind, state, event));
    let (i, j) = choose|i: int, j: int|
        0 <= i < j < next.len() && #[trigger] next[i] == a && #[trigger] next[j] == b;
    lemma_line(kind, state, event);
    if event.names_task() {
        assert(i < line(state).len() && j < line(state).len());
        assert(line(state)[i] == a && line(state)[j] == b);
    } else {
        let at = choose|at: Seq<int>| embeds(next, line(state), at);
        assert(line(state)[at[i]] == a && line(state)[at[j]] == b);
    }
}

/// Any sequence of operations keeps the order of the line.
proof fn lemma_order_was<F>(
    kind: Kind,
    state: CosyncState<F>,
    events: Seq<Event<F>>,
    a: CosyncTaskId,
    b: CosyncTaskId,
)
    requires
        state.queue.counter + named(events) <= u64::MAX,
        a.0 < state.queue.counter,
        b.0 < state.queue.counter,
        stands_before(line(after_all(kind, state, events)), a, b),
    ensures
        stands_before(line(state), a, b),
    decreases events.len(),
{
    if events.len() > 0 {
        let before = after_all(kind, state, events.drop_last());
        law_counter_counts_tasks(kind, state, events.drop_last());
        lemma_order_kept(kind, before, events.last(), a, b);
        lemma_order_was(kind, state, events.drop_last(), a, b);
    }
}

/// Tasks never overtake one another: of two tasks in line, the one that stands before the other
/// still does so after any operations, if both are still there.
pub proof fn law_tasks_keep_their_order<F>(
    kind: Kind,
    state: CosyncState<F>,
    events: Seq<Event<F>>,
    a: CosyncTaskId,
    b: CosyncTaskId,
)
    requires
        numbered(state),
        state.queue.counter + named(events) <= u64::MAX,
        stands_before(line(state), a, b),
        line(after_all(kind, state, events)).contains(a),
        line(after_all(kind, state, events)).contains(b),
    ensures
        stands_before(line(after_all(kind, state, events)), a, b),
{
    let ids = line(state);
    let later = line(after_all(kind, state, events));
    let (i, j) = choose|i: int, j: int|
        0 <= i < j < ids.len() && #[trigger] ids[i] == a && #[trigger] ids[j] == b;
    let k = choose|k: int| 0 <= k < later.len() && later[k] == a;
    let l = choose|l: int| 0 <= l < later.len() && later[l] == b;
    assert(ids[i].0 < state.queue.counter && ids[j].0 < state.queue.counter);
    if l < k {
        assert(stands_before(later, b, a));
        lemma_order_was(kind, state, events, b, a);
    }
}

/// The tasks stand in line in the order in which they were queued, the oldest first, and all
/// identifiers are below the next one to be given out.
pub open spec fn ordered<F>(state: CosyncState<F>) -> bool {
    &&& forall|i: int, j: int|
        0 <= i < j < line(state).len() ==> (#[trigger] line(state)[i]).0 < (
        #[trigger] line(state)[j]).0
    &&& forall|i: int|
        0 <= i < line(state).len() ==> (#[trigger] line(state)[i]).0 < state.queue.counter
}

/// In a line that is in the order of queueing no two tasks share an identifier.
pub proof fn lemma_ordered_is_numbered<F>(state: CosyncState<F>)
    requires
        ordered(state),
    ensures
        numbered(state),
{
    assert forall|i: int, j: int|
        0 <= i < line(state).len() && 0 <= j < line(state).len() && i != j implies line(state)[i]
        != line(state)[j] by {
        if i < j {
            assert(line(state)[i].0 < line(state)[j].0);
        } else {
            assert(line(state)[j].0 < line(state)[i].0);
        }
    }
}

/// A new cosync has no tasks, so none are out of order.
pub proof fn law_new_is_ordered<F>()
    ensures
        ordered(CosyncState::<F>::initial()),
{
}

/// Tasks stand in line in the order in which they were queued, by whichever way, whatever is done
/// to a cosync, as long as the identifiers have not come around.
pub proof fn law_line_is_in_order_of_queueing<F>(
    kind: Kind,
    state: CosyncState<F>,
    events: Seq<Event<F>>,
)
    requires
        ordered(state),
        state.queue.counter + named(events) <= u64::MAX,
    ensures
        ordered(after_all(kind, state, events)),
    decreases events.len(),
{
    if events.len() > 0 {
        let before = after_all(kind, state, events.drop_last());
        let event = events.last();
        let next = after(kind, before, event);
        law_line_is_in_order_of_queueing(kind, state, events.drop_last());
        law_counter_counts_tasks(kind, state, events.drop_last());
        law_counter_counts_tasks(kind, state, events);
        lemma_line(kind, before, event);
        if event.names_task() {
            let n = line(before).len() as int;
            assert forall|i: int| 0 <= i < line(next).len() implies (#[trigger] line(next)[i]).0
                < next.queue.counter by {
                assert(i < n ==> line(next)[i] == line(before)[i]);
            }
            assert forall|i: int, j: int| 0 <= i < j < line(next).len() implies (
            #[trigger] line(next)[i]).0 < (#[trigger] line(next)[j]).0 by {
                assert(line(next)[i] == line(before)[i]);
                assert(j < n ==> line(next)[j] == line(before)[j]);
            }
        } else {
            let at = choose|at: Seq<int>| embeds(line(next), line(before), at);
            assert forall|i: int| 0 <= i < line(next).len() implies (#[trigger] line(next)[i]).0
                < next.queue.counter by {
                assert(line(before)[at[i]] == line(next)[i]);
            }
            assert forall|i: int, j: int| 0 <= i < j < line(next).len() implies (
            #[trigger] line(next)[i]).0 < (#[trigger] line(next)[j]).0 by {
                assert(line(before)[at[i]] == line(next)[i]);
                assert(line(before)[at[j]] == line(next)[j]);
                assert(at[i] < at[j]);
            }
        }
    }
}

/// A task that is queued stands behind all others.
pub proof fn law_queued_back_is_last<F>(state: CosyncState<F>, task: F)
    ensures
        line(state.queued_back(task)) == line(state).push(state.queue.next_id()),
{
    assert(line(state.queued_back(task)) =~= line(state).push(state.queue.next_id()));
}

} // verus!
