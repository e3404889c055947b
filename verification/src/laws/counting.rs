//! How many tasks there are.

use crate::laws::ids::line;
use crate::laws::turns::{law_run_ends, one_at_a_time};
use crate::pool::{runs, Poll};
use crate::state::{Action, CosyncState};
use crate::task_id::CosyncTaskId;
use vstd::prelude::*;

verus! {

/// Each task that is queued raises the number of tasks by one.
pub proof fn law_queueing_raises_the_count<F>(state: CosyncState<F>, task: F)
    ensures
        state.queued_back(task).count() == state.count() + 1,
{
}

/// A cosync without tasks has none in line, none that runs and none that waits, and one with tasks
/// has as many in line.
pub proof fn law_empty_has_no_tasks<F>(state: CosyncState<F>, id: CosyncTaskId)
    ensures
        line(state).len() == state.count(),
        state.count() == 0 ==> !runs(state.pool, id) && !state.queue.waits(id),
{
}

/// When a run ends, no task merely waits: all that are left run, they are the ones in line, and
/// there are none if and only if the run tells that all is done.
pub proof fn law_after_a_run_no_task_waits<F>(state: CosyncState<F>, id: CosyncTaskId)
    ensures
        state.concurrent_step().1 matches Action::Return(poll) ==> {
            let end = state.concurrent_step().0;
            &&& !end.queue.waits(id)
            &&& end.count() == end.pool.len()
            &&& runs(end.pool, id) == line(end).contains(id)
            &&& (poll == Poll::Ready) == (end.count() == 0)
        },
{
    law_run_ends(state);
    if state.concurrent_step().1 is Return {
        let end = state.concurrent_step().0;
        assert forall|k: int| 0 <= k < end.pool.len() implies line(end)[k] == (
        #[trigger] end.pool[k]).id by {}
        assert(line(end).len() == end.pool.len());
        if runs(end.pool, id) {
            let k = choose|k: int| 0 <= k < end.pool.len() && (#[trigger] end.pool[k]).id == id;
            assert(line(end)[k] == id);
        }
        if line(end).contains(id) {
            let k = choose|k: int| 0 <= k < line(end).len() && line(end)[k] == id;
            assert(end.pool[k].id == id);
        }
    }
}

/// Where at most one task runs, the number of tasks is that of those that wait, plus one if a task
/// runs.
pub proof fn law_serial_count<F>(state: CosyncState<F>)
    requires
        one_at_a_time(state),
    ensures
        state.count() == state.queue.incoming.len() + if state.pool.len() > 0 {
            1nat
        } else {
            0nat
        },
{
}

} // verus!
