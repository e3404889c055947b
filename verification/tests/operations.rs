//! The operations of a cosync, one by one, on tasks that are plain numbers.

use cosync::{
    sleep_ticks, waker_ref, yield_now, Action, ArcWake, BlockingAction, Context, Cosync,
    CosyncInput, CosyncInputGuard, CosyncQueueHandle, CosyncTaskId, Enter, EnterError,
    FutureObject, GetError, IncomingQueue, Outcome, Poll, SerialCosync, SleepForTick, TaskQueue,
    TaskWaker, ThreadNotify, WakerRef,
};
use parking_lot::Mutex;
use std::sync::atomic::{AtomicUsize, Ordering};
use std::sync::Arc;

/// The next step of a run, as a task and its identifier, or what the run tells at its end.
fn told(action: Action<u32>) -> Result<(u32, u64), Poll> {
    match action {
        Action::Poll(FutureObject(task, id)) => Ok((task, id.0)),
        Action::Return(poll) => Err(poll),
    }
}

#[derive(Default)]
struct Counting(AtomicUsize);

impl ArcWake for Counting {
    fn wake_by_ref(arc_self: &Arc<Self>) {
        arc_self.0.fetch_add(1, Ordering::SeqCst);
    }
}

#[test]
fn new_cosync_is_empty() {
    let mut cosync: Cosync<u32> = Cosync::default();
    assert!(cosync.is_empty());
    assert_eq!(cosync.len(), 0);
    assert!(!cosync.is_running_any());
    assert!(!cosync.is_running(CosyncTaskId(0)));
    cosync.begin_run();
    assert_eq!(told(cosync.next_action()), Err(Poll::Ready));
}

#[test]
fn tasks_are_polled_in_order_once_per_run() {
    let mut cosync: Cosync<u32> = Cosync::new();
    // whichever way they are queued, they stand in line in that order
    assert_eq!(cosync.queue_back(100), CosyncTaskId(0));
    assert_eq!(cosync.queue(101), CosyncTaskId(1));
    assert_eq!(cosync.queue_back(102), CosyncTaskId(2));
    assert_eq!(cosync.len(), 3);

    cosync.begin_run();
    assert_eq!(told(cosync.next_action()), Ok((100, 0)));
    assert!(cosync.finish_poll(Outcome::Pending(200)));
    assert_eq!(told(cosync.next_action()), Ok((101, 1)));
    cosync.wake(CosyncTaskId(1));
    assert!(cosync.finish_poll(Outcome::Pending(201)));
    assert_eq!(told(cosync.next_action()), Ok((102, 2)));
    assert!(cosync.finish_poll(Outcome::Ready));
    assert_eq!(told(cosync.next_action()), Err(Poll::Pending));
    assert_eq!(cosync.len(), 2);
    assert!(cosync.is_running(CosyncTaskId(0)));
    assert!(!cosync.is_running(CosyncTaskId(2)));

    // the second run: only the task that was woken has a turn
    cosync.begin_run();
    assert_eq!(told(cosync.next_action()), Ok((201, 1)));
    assert!(cosync.finish_poll(Outcome::Ready));
    assert_eq!(told(cosync.next_action()), Err(Poll::Pending));

    // a task that is woken in the course of a run still has its turn in it
    cosync.wake(CosyncTaskId(0));
    assert_eq!(told(cosync.next_action()), Ok((200, 0)));
    assert!(cosync.finish_poll(Outcome::Ready));
    assert_eq!(told(cosync.next_action()), Err(Poll::Ready));
}

#[test]
fn a_task_only_waits_before_a_run() {
    let mut cosync: Cosync<u32> = Cosync::new();
    let id = cosync.queue(1);
    assert_eq!(cosync.len(), 1);
    assert!(!cosync.is_empty());
    assert!(!cosync.is_running(id));
    assert!(!cosync.is_running_any());
    assert!(!cosync.stop_running_task(id));
    assert!(cosync.unqueue_task(id));
    assert!(cosync.is_empty());
}

#[test]
fn due_tasks_are_polled_once_whatever_is_woken() {
    let mut cosync: Cosync<u32> = Cosync::new();
    cosync.queue(10);
    cosync.queue(11);
    cosync.queue(12);
    cosync.begin_run();
    for task in [10, 11, 12] {
        assert_eq!(told(cosync.next_action()), Ok((task, task as u64 - 10)));
        assert!(cosync.finish_poll(Outcome::Pending(task)));
    }
    // the first task sleeps, the others are awake, and one more waits
    cosync.wake(CosyncTaskId(1));
    cosync.wake(CosyncTaskId(2));
    cosync.queue(13);
    cosync.begin_run();
    assert_eq!(told(cosync.next_action()), Ok((11, 1)));
    // while it is out, it wakes itself and the one behind it, and queues another
    cosync.wake(CosyncTaskId(1));
    cosync.wake(CosyncTaskId(2));
    cosync.queue_back(14);
    assert!(cosync.finish_poll(Outcome::Pending(11)));
    assert_eq!(told(cosync.next_action()), Ok((12, 2)));
    assert!(cosync.finish_poll(Outcome::Ready));
    assert_eq!(told(cosync.next_action()), Ok((13, 3)));
    assert!(cosync.finish_poll(Outcome::Ready));
    assert_eq!(told(cosync.next_action()), Ok((14, 4)));
    assert!(cosync.finish_poll(Outcome::Ready));
    assert_eq!(told(cosync.next_action()), Err(Poll::Pending));
}

#[test]
fn tasks_queued_in_a_run_join_it() {
    let mut cosync: Cosync<u32> = Cosync::new();
    cosync.queue(10);
    cosync.begin_run();
    assert_eq!(told(cosync.next_action()), Ok((10, 0)));
    cosync.queue_back(11);
    cosync.queue_back(12);
    assert!(cosync.finish_poll(Outcome::Ready));
    assert_eq!(told(cosync.next_action()), Ok((11, 1)));
    cosync.queue_back(13);
    assert!(cosync.finish_poll(Outcome::Ready));
    assert_eq!(told(cosync.next_action()), Ok((12, 2)));
    assert!(cosync.finish_poll(Outcome::Ready));
    assert_eq!(told(cosync.next_action()), Ok((13, 3)));
    assert!(cosync.finish_poll(Outcome::Ready));
    assert_eq!(told(cosync.next_action()), Err(Poll::Ready));
}

#[test]
fn unqueue_takes_waiting_tasks_only() {
    let mut cosync: Cosync<u32> = Cosync::new();
    let running = cosync.queue(1);
    cosync.begin_run();
    assert_eq!(told(cosync.next_action()), Ok((1, 0)));
    assert!(cosync.finish_poll(Outcome::Pending(4)));
    cosync.wake(running);
    let first = cosync.queue(2);
    let second = cosync.queue_back(3);
    assert!(!cosync.unqueue_task(running));
    assert!(!cosync.unqueue_task(CosyncTaskId::dangling()));
    assert!(cosync.unqueue_task(first));
    assert!(!cosync.unqueue_task(first));
    assert_eq!(cosync.len(), 2);
    cosync.begin_run();
    assert_eq!(told(cosync.next_action()), Ok((4, 0)));
    assert!(cosync.finish_poll(Outcome::Ready));
    assert_eq!(told(cosync.next_action()), Ok((3, second.0)));
}

#[test]
fn stopping_a_task() {
    let mut cosync: Cosync<u32> = Cosync::new();
    let first = cosync.queue(1);
    let second = cosync.queue(2);
    cosync.begin_run();
    let waiting = cosync.queue_back(3);
    assert!(!cosync.stop_running_task(waiting));
    assert!(cosync.stop_running_task(first));
    // it still counts as running until it has its turn
    assert!(cosync.is_running(first));
    assert_eq!(cosync.len(), 3);
    assert_eq!(told(cosync.next_action()), Ok((2, second.0)));
    assert!(!cosync.is_running(first));
    assert!(cosync.finish_poll(Outcome::Ready));
    assert_eq!(told(cosync.next_action()), Ok((3, waiting.0)));
    assert!(cosync.finish_poll(Outcome::Ready));
    assert_eq!(told(cosync.next_action()), Err(Poll::Ready));
}

#[test]
fn stopping_a_task_that_was_not_woken() {
    let mut cosync: Cosync<u32> = Cosync::new();
    let id = cosync.queue(1);
    cosync.begin_run();
    assert_eq!(told(cosync.next_action()), Ok((1, 0)));
    assert!(cosync.finish_poll(Outcome::Pending(1)));
    assert!(cosync.stop_running_task(id));
    cosync.begin_run();
    assert_eq!(told(cosync.next_action()), Err(Poll::Pending));
    assert!(cosync.is_running(id));
    cosync.wake(id);
    assert_eq!(told(cosync.next_action()), Err(Poll::Ready));
    assert!(!cosync.is_running(id));
}

#[test]
fn stopping_a_task_that_is_out() {
    let mut cosync: Cosync<u32> = Cosync::new();
    let id = cosync.queue(1);
    cosync.begin_run();
    assert_eq!(told(cosync.next_action()), Ok((1, 0)));
    assert!(cosync.stop_running_task(id));
    assert!(!cosync.finish_poll(Outcome::Pending(7)));
    cosync.wake(id);
    cosync.begin_run();
    assert_eq!(told(cosync.next_action()), Err(Poll::Ready));
}

#[test]
fn clearing() {
    let mut cosync: Cosync<u32> = Cosync::new();
    cosync.queue(1);
    cosync.begin_run();
    cosync.queue(2);
    cosync.clear_queue();
    assert_eq!(cosync.len(), 1);
    assert!(cosync.is_running_any());
    cosync.queue_back(3);
    cosync.clear_running();
    assert_eq!(cosync.len(), 1);
    assert!(!cosync.is_running_any());
    assert!(!cosync.is_empty());
    cosync.clear();
    assert!(cosync.is_empty());
    // the identifiers go on, and new tasks are run
    assert_eq!(cosync.queue(4), CosyncTaskId(3));
    assert_eq!(cosync.len(), 1);
    cosync.begin_run();
    assert_eq!(told(cosync.next_action()), Ok((4, 3)));
}

#[test]
fn serial_tasks_one_after_the_other() {
    let mut cosync: SerialCosync<u32> = SerialCosync::default();
    assert_eq!(cosync.queue(10), CosyncTaskId(0));
    assert_eq!(cosync.queue(11), CosyncTaskId(1));
    assert_eq!(cosync.queue_back(12), CosyncTaskId(2));
    assert_eq!(cosync.len(), 3);
    assert_eq!(cosync.current_task_id(), None);
    assert!(!cosync.is_running_any());

    cosync.begin_run();
    assert_eq!(told(cosync.next_action()), Ok((10, 0)));
    assert!(cosync.finish_poll(Outcome::Ready));
    assert_eq!(told(cosync.next_action()), Ok((11, 1)));
    cosync.wake(CosyncTaskId(1));
    assert!(cosync.finish_poll(Outcome::Pending(21)));
    assert_eq!(told(cosync.next_action()), Err(Poll::Pending));
    assert_eq!(cosync.current_task_id(), Some(CosyncTaskId(1)));
    assert_eq!(cosync.len(), 2);
    assert!(!cosync.unqueue_task(CosyncTaskId(1)));

    cosync.begin_run();
    assert_eq!(told(cosync.next_action()), Ok((21, 1)));
    assert!(cosync.finish_poll(Outcome::Pending(31)));
    assert_eq!(told(cosync.next_action()), Err(Poll::Pending));

    // the task was not woken, and the others wait for it
    cosync.begin_run();
    assert_eq!(told(cosync.next_action()), Err(Poll::Pending));
    cosync.stop_running_task();
    assert_eq!(cosync.current_task_id(), None);
    assert_eq!(told(cosync.next_action()), Ok((12, 2)));
    assert!(cosync.finish_poll(Outcome::Ready));
    assert_eq!(told(cosync.next_action()), Err(Poll::Ready));
    assert!(cosync.is_empty());
}

#[test]
fn serial_clearing() {
    let mut cosync: SerialCosync<u32> = SerialCosync::new();
    cosync.queue(1);
    cosync.queue(2);
    cosync.begin_run();
    assert_eq!(told(cosync.next_action()), Ok((1, 0)));
    assert!(cosync.finish_poll(Outcome::Pending(1)));
    cosync.clear_queue();
    assert_eq!(cosync.len(), 1);
    cosync.queue(3);
    cosync.clear();
    assert!(cosync.is_empty());
    assert_eq!(cosync.len(), 0);
    assert!(!cosync.finish_poll(Outcome::Ready));
}

#[test]
fn identifiers_are_ordered_by_age() {
    let mut queue: IncomingQueue<u32> = IncomingQueue::new();
    assert!(queue.is_empty());
    let ids: Vec<CosyncTaskId> = vec![queue.push_back(5), queue.push_back(6), queue.push_back(7)];
    assert!(ids[0] < ids[1] && ids[1] < ids[2]);
    assert!(ids[2] >= ids[2] && ids[0] != ids[1]);
    assert_eq!(ids[0].cmp(&ids[1]), ids[0].partial_cmp(&ids[1]).unwrap());
    assert!(CosyncTaskId::dangling() > ids[2]);
    assert_eq!(CosyncTaskId::dangling(), CosyncTaskId(u64::MAX));
    assert_eq!(queue.next_cosync_task_id(), CosyncTaskId(3));
    assert_eq!(queue.len(), 3);
    assert!(queue.take_task(CosyncTaskId(9)).is_none());
    assert_eq!(queue.take_task(ids[1]).map(|task| task.0), Some(6));
    assert!(!queue.unqueue_task(ids[1]));
    let front = queue.pop_front().unwrap();
    assert_eq!((front.0, front.1), (5, ids[0]));
    queue.clear();
    assert!(queue.pop_front().is_none());
    assert_eq!(queue.push_back(8), CosyncTaskId(4));
}

#[test]
fn sleep_is_pending_for_its_ticks() {
    let waker = Arc::new(Counting::default());
    let mut sleep = sleep_ticks(3);
    for left in [2, 1, 0] {
        let poll = sleep.poll(&mut Context::from_waker(waker_ref(&waker)));
        assert_eq!(poll, Poll::Pending);
        assert_eq!(sleep.0, left);
    }
    assert_eq!(waker.0.load(Ordering::SeqCst), 3);
    for _ in 0..2 {
        let poll = sleep.poll(&mut Context::from_waker(waker_ref(&waker)));
        assert_eq!(poll, Poll::Ready);
    }
    assert_eq!(waker.0.load(Ordering::SeqCst), 3);
    assert_eq!(SleepForTick::new(4).0, 4);
}

#[test]
fn yield_wakes_once_in_all() {
    let waker = Arc::new(Counting::default());
    let mut cx = Context::from_waker(waker_ref(&waker));
    let mut this = yield_now();
    assert_eq!(this.poll(&mut cx), Poll::Pending);
    assert_eq!(this.poll(&mut cx), Poll::Ready);
    assert_eq!(this.poll(&mut cx), Poll::Ready);
    assert_eq!(waker.0.load(Ordering::SeqCst), 1);
}

#[test]
fn yield_is_a_sleep_of_one_tick() {
    let waker = Arc::new(Counting::default());
    let mut this = yield_now();
    let mut sleep = sleep_ticks(1);
    for wakes in [2, 2, 2] {
        let mut cx = Context::from_waker(waker_ref(&waker));
        assert_eq!(this.poll(&mut cx), sleep.poll(&mut cx));
        assert_eq!(waker.0.load(Ordering::SeqCst), wakes);
    }
}

#[test]
fn wakers_point_to_what_they_wake() {
    let waker = Arc::new(Counting::default());
    let this = WakerRef::new_unowned(&waker);
    assert!(Arc::ptr_eq(&this, &waker));
    assert_eq!(Arc::strong_count(&waker), 1);
    let mut cx = Context::from_waker(this);
    cx.wake_by_ref();
    assert_eq!(waker.0.load(Ordering::SeqCst), 1);
    ArcWake::wake(waker.clone());
    assert_eq!(waker.0.load(Ordering::SeqCst), 2);
}

#[test]
fn task_wakers_wake_their_task() {
    let mut cosync: Cosync<u32> = Cosync::new();
    let id = cosync.queue(1);
    cosync.begin_run();
    assert_eq!(told(cosync.next_action()), Ok((1, 0)));
    assert!(cosync.finish_poll(Outcome::Pending(2)));
    let slot = Arc::new(Mutex::new(Some(cosync)));
    let waker = Arc::new(TaskWaker::new(&slot, id));
    {
        let mut cosync = slot.lock();
        let cosync = cosync.as_mut().unwrap();
        cosync.begin_run();
        assert_eq!(told(cosync.next_action()), Err(Poll::Pending));
    }
    let mut other = Some(Cosync::<u32>::new());
    waker.wake_slot(&mut other);
    assert!(other.unwrap().is_empty());
    ArcWake::wake_by_ref(&waker);
    {
        let mut cosync = slot.lock();
        assert_eq!(told(cosync.as_mut().unwrap().next_action()), Ok((2, 0)));
    }
    // to wake a task of a cosync that was dropped does nothing
    *slot.lock() = None;
    ArcWake::wake(waker);
    assert!(slot.lock().is_none());
}

#[test]
fn handles_of_a_serial_cosync() {
    let slot = Arc::new(Mutex::new(Some(SerialCosync::<u32>::new())));
    let mut handle = SerialCosync::create_queue_handle(&slot);
    assert_eq!(handle.queue(7), Some(CosyncTaskId(0)));
    assert_eq!(handle.queue(8), Some(CosyncTaskId(1)));
    assert_eq!(handle.unqueue_task(CosyncTaskId(0)), Some(true));
    let cosync = slot.lock().take();
    let mut cosync = cosync.unwrap();
    cosync.begin_run();
    assert_eq!(told(cosync.next_action()), Ok((8, 1)));
    assert_eq!(handle.queue(9), None);
    assert_eq!(handle.unqueue_task(CosyncTaskId(1)), None);
}

#[test]
fn input_needs_a_cosync_and_a_run() {
    let slot = Arc::new(Mutex::new(Some(Cosync::<u32>::new())));
    let handle = CosyncQueueHandle::new(&slot);
    let mut input = CosyncInput::new(handle);
    let mut value = 5;
    {
        let mut guard: CosyncInputGuard<'_, i32> = input.get(Some(&mut value)).ok().unwrap();
        assert_eq!(*guard, 5);
        *guard += 1;
    }
    assert_eq!(value, 6);
    assert_eq!(input.get::<i32>(None).err(), Some(GetError::NotRunning));
    assert_eq!(input.queue(3), Ok(CosyncTaskId(0)));
    assert_eq!(input.create_queue_handle().queue(4), Some(CosyncTaskId(1)));

    *slot.lock() = None;
    assert_eq!(
        input.get(Some(&mut value)).err(),
        Some(GetError::CosyncDropped)
    );
    // the parameter is left as it was
    assert_eq!(value, 6);
    assert_eq!(input.get::<i32>(None).err(), Some(GetError::CosyncDropped));
    assert_eq!(input.queue(3), Err(GetError::CosyncDropped));
    assert_eq!(
        GetError::CosyncDropped.message(),
        "cosync was dropped improperly"
    );
    assert_eq!(
        GetError::NotRunning.message(),
        "cosync was not initialized this run correctly"
    );
}

#[test]
fn each_run_has_its_own_parameter() {
    let slot = Arc::new(Mutex::new(Some(Cosync::<u32>::new())));
    let mut input = CosyncInput::new(Cosync::create_queue_handle(&slot));
    let (mut first, mut second) = (1, 2);
    {
        let mut guard = input.get(Some(&mut first)).ok().unwrap();
        assert_eq!(*guard, 1);
        *guard = 10;
        *guard += 1;
    }
    {
        let mut guard = input.get(Some(&mut second)).ok().unwrap();
        assert_eq!(*guard, 2);
        *guard = 20;
    }
    assert_eq!((first, second), (11, 20));
}

#[test]
fn tasks_are_dropped_with_the_lock_released() {
    /// Work that looks at the slot when it is dropped.
    struct LooksBack(Arc<Mutex<Option<Cosync<LooksBack>>>>, Arc<AtomicUsize>);

    impl Drop for LooksBack {
        fn drop(&mut self) {
            assert!(self.0.try_lock().is_some());
            self.1.fetch_add(1, Ordering::SeqCst);
        }
    }

    let slot = Arc::new(Mutex::new(Some(Cosync::new())));
    let drops = Arc::new(AtomicUsize::new(0));
    let mut handle = Cosync::create_queue_handle(&slot);
    let id = handle.queue(LooksBack(slot.clone(), drops.clone())).unwrap();
    assert_eq!(handle.unqueue_task(id), Some(true));
    assert_eq!(drops.load(Ordering::SeqCst), 1);
    *slot.lock() = None;
    assert_eq!(handle.queue(LooksBack(slot.clone(), drops.clone())), None);
    assert_eq!(drops.load(Ordering::SeqCst), 2);
}

#[test]
fn input_guards_unsized_parameters() {
    let slot = Arc::new(Mutex::new(Some(Cosync::<u32>::new())));
    let mut input = CosyncInput::new(Cosync::create_queue_handle(&slot));
    let mut numbers = [1, 2, 3];
    let slice: &mut [i32] = &mut numbers;
    let mut guard = input.get(Some(slice)).ok().unwrap();
    guard[1] = 20;
    assert_eq!(guard.len(), 3);
    drop(guard);
    assert_eq!(numbers, [1, 20, 3]);
}

#[test]
fn blocking_runs_do_not_forget_wake_ups() {
    let mut notify = ThreadNotify::new();
    assert_eq!(notify.after_poll(Poll::Pending), BlockingAction::Park);
    // a wake-up while the thread is parked: it must be unparked, once
    assert!(notify.wake_by_ref());
    assert!(!notify.wake_by_ref());
    notify.after_park();
    // a wake-up during a poll: the thread polls again, and is not parked
    assert!(notify.wake_by_ref());
    assert_eq!(notify.after_poll(Poll::Pending), BlockingAction::PollAgain);
    assert_eq!(notify.after_poll(Poll::Pending), BlockingAction::Park);
    assert_eq!(notify.after_poll(Poll::Ready), BlockingAction::Return);
}

#[test]
fn runs_do_not_nest() {
    let mut enter = Enter::new();
    assert_eq!(enter.enter(), Ok(()));
    assert_eq!(enter.enter(), Err(EnterError));
    assert_eq!(
        EnterError.message(),
        "cannot execute `LocalPool` executor from within another executor"
    );
    enter.leave();
    assert_eq!(enter.enter(), Ok(()));
}
