//! Coroutines written as `async` blocks, driven through the library.

use cosync::{
    sleep_ticks, waker_ref, yield_now, Action, ArcWake, BlockingAction, Context, Cosync,
    CosyncInput, CosyncQueueHandle, CosyncTaskId, Enter, FutureObject, Outcome, Poll, SerialCosync,
    SleepForTick, TaskQueue, TaskWaker, ThreadNotify, Yield,
};
use parking_lot::{MappedMutexGuard, Mutex, MutexGuard};
use std::future::Future;
use std::pin::Pin;
use std::sync::Arc;
use std::task::{Wake, Waker};

type Work = Pin<Box<dyn Future<Output = ()> + Send>>;
type Slot<C> = Arc<Mutex<Option<C>>>;

trait Driven: TaskQueue<Task = Work> + Send + 'static {
    fn create() -> Self;
    fn handle(slot: &Slot<Self>) -> CosyncQueueHandle<Self>;
    fn add(&mut self, work: Work) -> CosyncTaskId;
    fn begin(&mut self);
    fn next(&mut self) -> Action<Work>;
    fn finish(&mut self, outcome: Outcome<Work>) -> bool;
}

impl Driven for Cosync<Work> {
    fn create() -> Self {
        Cosync::new()
    }
    fn handle(slot: &Slot<Self>) -> CosyncQueueHandle<Self> {
        Cosync::create_queue_handle(slot)
    }
    fn add(&mut self, work: Work) -> CosyncTaskId {
        self.queue(work)
    }
    fn begin(&mut self) {
        self.begin_run()
    }
    fn next(&mut self) -> Action<Work> {
        self.next_action()
    }
    fn finish(&mut self, outcome: Outcome<Work>) -> bool {
        self.finish_poll(outcome)
    }
}

impl Driven for SerialCosync<Work> {
    fn create() -> Self {
        SerialCosync::new()
    }
    fn handle(slot: &Slot<Self>) -> CosyncQueueHandle<Self> {
        SerialCosync::create_queue_handle(slot)
    }
    fn add(&mut self, work: Work) -> CosyncTaskId {
        self.queue(work)
    }
    fn begin(&mut self) {
        self.begin_run()
    }
    fn next(&mut self) -> Action<Work> {
        self.next_action()
    }
    fn finish(&mut self, outcome: Outcome<Work>) -> bool {
        self.finish_poll(outcome)
    }
}

/// The waker that futures get.
struct FutureWaker<C: Driven> {
    task: Arc<TaskWaker<C>>,
    notify: Arc<Mutex<ThreadNotify>>,
}

impl<C: Driven> Wake for FutureWaker<C> {
    fn wake(self: Arc<Self>) {
        self.wake_by_ref()
    }
    fn wake_by_ref(self: &Arc<Self>) {
        ArcWake::wake_by_ref(&self.task);
        self.notify.lock().wake_by_ref();
    }
}

/// What a coroutine gets.
struct Input<T, C> {
    input: CosyncInput<C>,
    data: Arc<Mutex<Option<T>>>,
}

impl<T: Send + 'static, C: Driven> Input<T, C> {
    fn get(&mut self) -> MappedMutexGuard<'_, T> {
        let mut data = self.data.lock();
        if let Err(error) = self.input.get(data.as_mut()) {
            let message = error.message();
            drop(data);
            panic!("{}", message);
        }
        MutexGuard::map(data, |data| data.as_mut().unwrap())
    }

    fn queue<Task, Out>(&self, task: Task) -> CosyncTaskId
    where
        Task: FnOnce(Input<T, C>) -> Out + Send + 'static,
        Out: Future<Output = ()> + Send,
    {
        let work = create_work(task, self.input.create_queue_handle(), &self.data);
        match self.input.queue(work) {
            Ok(id) => id,
            Err(error) => panic!("{}", error.message()),
        }
    }
}

fn create_work<T, C, Task, Out>(
    task: Task,
    handle: CosyncQueueHandle<C>,
    data: &Arc<Mutex<Option<T>>>,
) -> Work
where
    T: Send + 'static,
    C: Driven,
    Task: FnOnce(Input<T, C>) -> Out + Send + 'static,
    Out: Future<Output = ()> + Send,
{
    let input = Input {
        input: CosyncInput::new(handle),
        data: data.clone(),
    };
    Box::pin(async move {
        task(input).await;
    })
}

/// The owner of a cosync.
struct Executor<T, C: Driven> {
    slot: Slot<C>,
    data: Arc<Mutex<Option<T>>>,
    notify: Arc<Mutex<ThreadNotify>>,
    enter: Enter,
}

impl<T: Default + Send + 'static, C: Driven> Executor<T, C> {
    fn new() -> Self {
        Executor {
            slot: Arc::new(Mutex::new(Some(C::create()))),
            data: Arc::new(Mutex::new(None)),
            notify: Arc::new(Mutex::new(ThreadNotify::new())),
            enter: Enter::new(),
        }
    }

    fn with<R>(&self, f: impl FnOnce(&mut C) -> R) -> R {
        f(self.slot.lock().as_mut().unwrap())
    }

    fn queue<Task, Out>(&mut self, task: Task) -> CosyncTaskId
    where
        Task: FnOnce(Input<T, C>) -> Out + Send + 'static,
        Out: Future<Output = ()> + Send,
    {
        let work = create_work(task, C::handle(&self.slot), &self.data);
        self.with(|cosync| cosync.add(work))
    }

    fn poll_pool(&self) -> Poll {
        self.with(|cosync| cosync.begin());
        loop {
            let action = self.with(|cosync| cosync.next());
            match action {
                Action::Return(poll) => return poll,
                Action::Poll(FutureObject(mut work, id)) => {
                    let waker = Waker::from(Arc::new(FutureWaker {
                        task: Arc::new(TaskWaker::new(&self.slot, id)),
                        notify: self.notify.clone(),
                    }));
                    let mut cx = std::task::Context::from_waker(&waker);
                    let outcome = match work.as_mut().poll(&mut cx) {
                        std::task::Poll::Ready(()) => Outcome::Ready,
                        std::task::Poll::Pending => Outcome::Pending(work),
                    };
                    assert!(self.with(|cosync| cosync.finish(outcome)));
                }
            }
        }
    }

    fn run(&mut self, value: &mut T) {
        assert!(self.enter.enter().is_ok());
        *self.data.lock() = Some(std::mem::take(value));
        self.poll_pool();
        *value = self.data.lock().take().unwrap();
        self.enter.leave();
    }

    fn run_blocking(&mut self, value: &mut T) {
        assert!(self.enter.enter().is_ok());
        *self.data.lock() = Some(std::mem::take(value));
        loop {
            let poll = self.poll_pool();
            let action = self.notify.lock().after_poll(poll);
            match action {
                BlockingAction::Return => break,
                BlockingAction::PollAgain => {}
                BlockingAction::Park => panic!("nobody would unpark the thread"),
            }
        }
        *value = self.data.lock().take().unwrap();
        self.enter.leave();
    }
}

impl<T, C: Driven> Drop for Executor<T, C> {
    fn drop(&mut self) {
        let cosync = self.slot.lock().take();
        drop(cosync);
    }
}

/// A waker of the library that passes on to the waker of a future.
struct PassOn(Waker);

impl ArcWake for PassOn {
    fn wake_by_ref(arc_self: &Arc<Self>) {
        arc_self.0.wake_by_ref();
    }
}

struct Sleeping(SleepForTick);

impl Future for Sleeping {
    type Output = ();
    fn poll(mut self: Pin<&mut Self>, cx: &mut std::task::Context<'_>) -> std::task::Poll<()> {
        let waker = Arc::new(PassOn(cx.waker().clone()));
        match self.0.poll(&mut Context::from_waker(waker_ref(&waker))) {
            Poll::Ready => std::task::Poll::Ready(()),
            Poll::Pending => std::task::Poll::Pending,
        }
    }
}

struct Yielding(Yield);

impl Future for Yielding {
    type Output = ();
    fn poll(mut self: Pin<&mut Self>, cx: &mut std::task::Context<'_>) -> std::task::Poll<()> {
        let waker = Arc::new(PassOn(cx.waker().clone()));
        match self.0.poll(&mut Context::from_waker(waker_ref(&waker))) {
            Poll::Ready => std::task::Poll::Ready(()),
            Poll::Pending => std::task::Poll::Pending,
        }
    }
}

fn sleeping(ticks: usize) -> Sleeping {
    Sleeping(sleep_ticks(ticks))
}

fn yielding() -> Yielding {
    Yielding(yield_now())
}

type Concurrent<T> = Executor<T, Cosync<Work>>;
type Serial<T> = Executor<T, SerialCosync<Work>>;

#[test]
fn cosync_ordering() {
    let mut cosync = Serial::new();

    let mut value = 0;
    cosync.queue(|_i| async move {
        println!("actual task body!");
    });
    cosync.run(&mut value);
}

#[test]
fn cosync_pool_is_sequential() {
    // notice that value is declared here
    let mut value;

    let mut executor: Serial<i32> = Serial::new();
    executor.queue(move |mut input| async move {
        let mut input = input.get();

        assert_eq!(*input, 10);
        *input = 10;
    });

    executor.queue(move |mut input| async move {
        assert_eq!(*input.get(), 10);

        // the executor stalls here, and goes on in the next run
        let sleep = Sleeping(SleepForTick(1));
        sleep.await;

        let input = &mut *input.get();
        assert_eq!(*input, 30);
        *input = 0;
    });

    // initialized here, after tasks are made
    // (so code is correctly being deferred)
    value = 10;
    executor.run(&mut value);
    value = 30;
    executor.run(&mut value);
    assert_eq!(value, 0);
}

#[test]
fn run_until_stalled_stalls() {
    let mut cosync = Serial::new();

    cosync.queue(move |mut input| async move {
        *input.get() = 10;
        sleeping(1).await;

        *input.get() = 20;
    });

    let mut value = 0;
    cosync.run(&mut value);
    assert_eq!(value, 10);
    cosync.run(&mut value);
    assert_eq!(value, 20);
}

#[test]
fn cosync_pool_remains_sequential() {
    // notice that value is declared here
    let mut value;

    let mut executor: Serial<i32> = Serial::new();
    executor.queue(move |mut input| async move {
        println!("starting task 1");
        *input.get() = 10;

        sleeping(100).await;

        *input.get() = 20;
    });

    executor.queue(move |mut input| async move {
        assert_eq!(*input.get(), 20);
    });

    value = 0;
    executor.run(&mut value);
}

#[test]
fn cosync_pool_is_still_sequential() {
    // notice that value is declared here
    let mut value;

    let mut executor: Serial<i32> = Serial::new();
    executor.queue(move |mut input| async move {
        println!("starting task 1");
        *input.get() = 10;

        input.queue(move |mut input| async move {
            println!("starting task 3");
            assert_eq!(*input.get(), 20);

            *input.get() = 30;
        });
    });

    executor.queue(move |mut input| async move {
        println!("starting task 2");
        *input.get() = 20;
    });

    // initialized here, after tasks are made
    // (so code is correctly being deferred)
    value = 0;
    executor.run(&mut value);
    assert_eq!(value, 30);
}

#[test]
fn cosync_cosync_can_be_moved() {
    // notice that value is declared here
    let mut value;

    let mut executor: Serial<i32> = Serial::new();
    executor.queue(move |mut input| async move {
        println!("starting task 1");
        *input.get() = 10;

        sleeping(1).await;

        *input.get() = 20;
    });

    // initialized here, after tasks are made
    // (so code is correctly being deferred)
    value = 0;
    executor.run(&mut value);
    assert_eq!(value, 10);

    // move it somewhere else..
    let mut executor = Box::new(executor);
    executor.run(&mut value);

    assert_eq!(value, 20);
}

#[test]
#[should_panic(expected = "cosync was dropped improperly")]
fn cosync_ub_on_move_is_prevented() {
    let (sndr, rx) = std::sync::mpsc::channel();
    let mut executor: Serial<i32> = Serial::new();

    executor.queue(move |input| async move {
        let sndr: std::sync::mpsc::Sender<_> = sndr;
        sndr.send(input).unwrap();
    });

    let mut value = 0;
    executor.run_blocking(&mut value);
    drop(executor);

    // the executor was dropped. whoopsie!
    let mut v = rx.recv().unwrap();
    *v.get() = 20;
}

#[test]
fn lib_ordering() {
    let mut cosync = Concurrent::new();

    let mut value = 0;
    cosync.queue(|_i| async move {
        println!("actual task body!");
    });
    cosync.run(&mut value);
}

#[test]
fn lib_pool_is_sequential() {
    // notice that value is declared here
    let mut value;

    let mut executor: Concurrent<i32> = Concurrent::new();
    executor.queue(move |mut input| async move {
        let mut input = input.get();

        assert_eq!(*input, 10);
        *input = 10;
    });

    executor.queue(move |mut input| async move {
        assert_eq!(*input.get(), 10);

        // the executor stalls here, and goes on in the next run
        yielding().await;

        let input = &mut *input.get();
        assert_eq!(*input, 30);
        *input = 0;
    });

    // initialized here, after tasks are made
    // (so code is correctly being deferred)
    value = 10;
    executor.run(&mut value);
    value = 30;
    executor.run(&mut value);
    assert_eq!(value, 0);
}

#[test]
fn multi_pool_is_parallel() {
    // notice that value is declared here
    let mut value;

    let mut executor: Concurrent<(i32, i32)> = Concurrent::new();
    executor.queue(move |mut input| async move {
        let mut input = input.get();

        assert_eq!((*input).0, 10);
        (*input).0 = 30;
    });

    executor.queue(move |mut input| async move {
        let mut input = input.get();

        assert_eq!((*input).1, 20);
        (*input).1 = 20;
    });

    // initialized here, after tasks are made
    // (so code is correctly being deferred)
    value = (10, 20);
    executor.run(&mut value);
    assert_eq!(value, (30, 20));
}

#[test]
fn run_stalls() {
    let mut cosync = Concurrent::new();

    cosync.queue(move |mut input| async move {
        *input.get() = 10;
        // the executor stalls here, and goes on in the next run
        yielding().await;

        *input.get() = 20;
    });

    let mut value = 0;
    cosync.run(&mut value);
    assert_eq!(value, 10);
    cosync.run(&mut value);
    assert_eq!(value, 20);
}

#[test]
fn run_multiple() {
    // notice that value is declared here
    let mut value = (10, 20);

    let mut executor: Concurrent<(i32, i32)> = Concurrent::new();
    executor.queue(move |mut input| async move {
        {
            let mut input_guard = input.get();

            assert_eq!((*input_guard).0, 10);
            (*input_guard).0 = 30;
        }

        yielding().await;

        {
            let mut input_guard = input.get();
            (*input_guard).0 = 40;
        }
    });

    executor.queue(move |mut input| async move {
        {
            let mut input = input.get();

            assert_eq!((*input).1, 20);
            (*input).1 = 20;
        }

        yielding().await;

        {
            let mut input = input.get();

            (*input).1 = 40;
        }
    });

    executor.run(&mut value);
    assert_eq!(value, (30, 20));

    executor.run(&mut value);
    assert_eq!(value, (40, 40));
}

#[test]
fn run_concurrent_weird() {
    // notice that value is declared here
    let mut value = (10, 20, 30);

    let mut executor: Concurrent<(i32, i32, i32)> = Concurrent::new();

    executor.queue(move |mut input| async move {
        {
            let mut input = input.get();

            assert_eq!(input.2, 30);
            input.2 = 20;
        }

        yielding().await;

        input.get().2 = 30;

        yielding().await;

        input.get().2 = 40;
    });

    executor.queue(move |mut input| async move {
        {
            let mut input_guard = input.get();

            assert_eq!((*input_guard).0, 10);
            (*input_guard).0 = 30;
        }

        yielding().await;

        {
            let mut input_guard = input.get();
            (*input_guard).0 = 40;
        }
    });

    executor.queue(move |mut input| async move {
        {
            let mut input = input.get();

            assert_eq!((*input).1, 20);
            (*input).1 = 20;
        }

        yielding().await;

        {
            let mut input = input.get();

            (*input).1 = 40;
        }
    });

    executor.run(&mut value);
    assert_eq!(value, (30, 20, 20));

    executor.run(&mut value);
    assert_eq!(value, (40, 40, 30));

    executor.run(&mut value);
    assert_eq!(value, (40, 40, 40));
}

#[test]
fn pool_remains_sequential_multi() {
    let mut value = 0;

    let mut executor: Concurrent<i32> = Concurrent::new();
    executor.queue(move |mut input| async move {
        *input.get() = 10;

        input.queue(|mut input| async move {
            println!("running this guy!!");

            *input.get() = 20;

            input.queue(|mut input| async move {
                println!("running final guy!!");

                *input.get() = 30;
            });
        });
    });

    executor.run(&mut value);

    assert_eq!(value, 30);
}

#[test]
fn multi_sequential_on_spawn() {
    #[derive(Default)]
    struct TestMe {
        one: i32,
        two: i32,
    }

    let mut value = TestMe { one: 0, two: 0 };

    let mut executor: Concurrent<TestMe> = Concurrent::new();
    executor.queue(move |mut input| async move {
        input.get().one = 10;

        input.queue(|mut input| async move {
            println!("running?/");
            input.get().two = 20;
        });

        yielding().await;
    });

    executor.run(&mut value);

    assert_eq!(value.one, 10);
    assert_eq!(value.two, 20);
}

#[test]
fn lib_pool_is_still_sequential() {
    // notice that value is declared here
    let mut value;

    let mut executor: Concurrent<i32> = Concurrent::new();
    executor.queue(move |mut input| async move {
        *input.get() = 10;

        input.queue(move |mut input| async move {
            assert_eq!(*input.get(), 20);

            *input.get() = 30;
        });
    });

    executor.queue(move |mut input| async move {
        *input.get() = 20;
    });

    // initialized here, after tasks are made
    // (so code is correctly being deferred)
    value = 0;
    executor.run(&mut value);
    assert_eq!(value, 30);
}

#[test]
fn lib_cosync_can_be_moved() {
    // notice that value is declared here
    let mut value;

    let mut executor: Concurrent<i32> = Concurrent::new();
    executor.queue(move |mut input| async move {
        *input.get() = 10;

        yielding().await;

        *input.get() = 20;
    });

    // initialized here, after tasks are made
    // (so code is correctly being deferred)
    value = 0;
    executor.run(&mut value);
    assert_eq!(value, 10);

    // move it somewhere else..
    let mut executor = Box::new(executor);
    executor.run(&mut value);

    assert_eq!(value, 20);
}

#[test]
#[should_panic(expected = "cosync was dropped improperly")]
fn lib_ub_on_move_is_prevented() {
    let (sndr, rx) = std::sync::mpsc::channel();
    let mut executor: Concurrent<i32> = Concurrent::new();

    executor.queue(move |input| async move {
        let sndr: std::sync::mpsc::Sender<_> = sndr;
        sndr.send(input).unwrap();
    });

    let mut value = 0;
    executor.run_blocking(&mut value);
    drop(executor);

    // the executor was dropped. whoopsie!
    let mut v = rx.recv().unwrap();
    *v.get() = 20;
}

#[test]
#[should_panic(expected = "cosync was not initialized this run correctly")]
fn ub2_on_move_is_prevented() {
    let (sndr, rx) = std::sync::mpsc::channel();
    let mut executor: Concurrent<i32> = Concurrent::new();

    executor.queue(move |input| async move {
        let sndr: std::sync::mpsc::Sender<_> = sndr;
        yielding().await;
        sndr.send(input).unwrap();
    });

    let mut value = 0;
    executor.run_blocking(&mut value);

    // no run is going on. whoopsie!
    let mut v = rx.recv().unwrap();
    *v.get() = 20;
}

#[test]
fn dynamic_dispatch() {
    trait DynDispatch {
        fn test(&self) -> i32;
    }

    impl DynDispatch for i32 {
        fn test(&self) -> i32 {
            *self
        }
    }

    impl DynDispatch for &'static str {
        fn test(&self) -> i32 {
            self.parse().unwrap()
        }
    }

    type Dispatched = Option<Box<dyn DynDispatch + Send>>;

    let mut cosync: Concurrent<Dispatched> = Concurrent::new();
    cosync.queue(|mut input: Input<Dispatched, Cosync<Work>>| async move {
        {
            let mut guard = input.get();
            let inner: &mut dyn DynDispatch = &mut **guard.as_mut().unwrap();
            assert_eq!(inner.test(), 3);
        }

        yielding().await;

        {
            let mut guard = input.get();
            let inner: &mut dyn DynDispatch = &mut **guard.as_mut().unwrap();
            assert_eq!(inner.test(), 3);
        }
    });

    cosync.run(&mut Some(Box::new(3)));
    cosync.run(&mut Some(Box::new("3")));
    assert!(cosync.with(|cosync| cosync.is_empty()));
}

#[test]
fn unsized_type() {
    let mut cosync: Concurrent<Box<str>> = Concurrent::new();

    cosync.queue(|mut input| async move {
        let input_guard = input.get();
        let inner_str: &str = &input_guard;
        println!("inner str = {}", inner_str);
    });
}

#[test]
fn can_move_non_copy() {
    let mut cosync: Concurrent<i32> = Concurrent::new();

    let my_vec = vec![10];

    cosync.queue(|_input| async move {
        let mut vec = my_vec;
        vec.push(10);

        assert_eq!(*vec, [10, 10]);
    });

    let mut value = 0;
    cosync.run(&mut value);
    assert!(cosync.with(|cosync| cosync.is_empty()));
}

#[test]
fn task_id_numbers() {
    let mut cosync: Concurrent<i32> = Concurrent::new();

    let id = cosync.queue(|_input| async {});
    assert_eq!(id, CosyncTaskId(0));
    let second_task = cosync.queue(|_input| async {});
    assert!(second_task > id);
}

#[test]
fn stop_a_running_task() {
    let mut cosync: Concurrent<i32> = Concurrent::new();

    let id = cosync.queue(|mut input| async move {
        *input.get() += 1;

        yielding().await;

        *input.get() += 1;
    });

    let mut value = 0;

    cosync.run(&mut value);

    assert_eq!(value, 1);

    let success = cosync.with(|cosync| cosync.stop_running_task(id));
    assert!(success);

    cosync.run(&mut value);

    // it's still 1 because we cancelled the task which would have otherwise gotten it to 2
    assert_eq!(value, 1);
    assert!(cosync.with(|cosync| cosync.is_empty()));
}

#[test]
fn sleep_ticker() {
    let mut cosync: Concurrent<i32> = Concurrent::new();

    let mut value = 0;
    cosync.queue(|mut input| async move {
        sleeping(5).await;
        *input.get() = 10;
    });

    for _ in 0..5 {
        cosync.run(&mut value);
        assert_eq!(value, 0);
    }
    cosync.run(&mut value);
    assert_eq!(value, 10);
}

#[test]
fn serial_pool_remains_sequential() {
    // notice that value is declared here
    let mut value;

    let mut executor: Serial<i32> = Serial::new();
    executor.queue(move |mut input| async move {
        *input.get() = 10;

        sleeping(100).await;

        *input.get() = 20;
    });

    executor.queue(move |mut input| async move {
        assert_eq!(*input.get(), 20);
    });

    value = 0;
    executor.run(&mut value);
}

#[test]
fn cancelling_a_task() {
    let mut cosync: Serial<i32> = Serial::new();

    cosync.queue(|mut input| async move {
        *input.get() += 1;

        sleeping(1).await;

        *input.get() += 1;
    });

    let mut value = 0;

    cosync.run(&mut value);

    assert_eq!(value, 1);

    cosync.with(|cosync| cosync.stop_running_task());

    cosync.run(&mut value);

    // it's still 1 because we cancelled the task which would have otherwise gotten it to 2
    assert_eq!(value, 1);

    assert!(cosync.with(|cosync| cosync.is_empty()));
    let id = cosync.queue(|_| async {});
    assert_eq!(cosync.with(|cosync| cosync.len()), 1);
    let success = cosync.with(|cosync| cosync.unqueue_task(id));
    assert!(success);
    assert!(cosync.with(|cosync| cosync.is_empty()));
}

#[test]
fn serial_tasks_wait_for_a_sleeper() {
    let mut executor: Serial<i32> = Serial::new();
    executor.queue(move |mut input| async move {
        *input.get() = 10;
        sleeping(100).await;
        *input.get() = 20;
    });
    executor.queue(move |mut input| async move {
        assert_eq!(*input.get(), 20);
        *input.get() = 30;
    });

    let mut value = 0;
    for _ in 0..100 {
        executor.run(&mut value);
        assert_eq!(value, 10);
    }
    executor.run(&mut value);
    assert_eq!(value, 30);
    assert!(executor.with(|cosync| cosync.is_empty()));
}

#[test]
fn a_sleeper_among_other_tasks() {
    let mut cosync: Concurrent<(i32, i32)> = Concurrent::new();
    cosync.queue(|mut input| async move {
        loop {
            input.get().0 += 1;
            yielding().await;
        }
    });
    let sleeper = cosync.queue(|mut input| async move {
        sleeping(3).await;
        input.get().1 += 1;
    });
    cosync.queue(|input| async move {
        input.queue(|_input| async move {});
    });

    let mut value = (0, 0);
    for run in 1..4 {
        cosync.run(&mut value);
        assert_eq!(value, (run, 0));
        assert!(cosync.with(|cosync| cosync.is_running(sleeper)));
        cosync.queue(|_input| async {});
    }
    cosync.run(&mut value);
    assert_eq!(value, (4, 1));
    assert!(!cosync.with(|cosync| cosync.is_running(sleeper)));
    cosync.run(&mut value);
    assert_eq!(value, (5, 1));
}

#[test]
fn run_blocking_completes_all() {
    let mut cosync: Concurrent<i32> = Concurrent::new();
    cosync.queue(|mut input| async move {
        sleeping(7).await;
        *input.get() += 1;
        input.queue(|mut input| async move {
            yielding().await;
            *input.get() += 10;
        });
    });

    let mut value = 0;
    cosync.run_blocking(&mut value);
    assert_eq!(value, 11);
    assert!(cosync.with(|cosync| cosync.is_empty()));
}

#[test]
fn handles_queue_and_unqueue() {
    let mut cosync: Concurrent<i32> = Concurrent::new();
    let mut handle = Cosync::create_queue_handle(&cosync.slot);
    let other = handle.clone();

    let first = handle
        .queue(create_work(
            |mut input| async move {
                *input.get() += 1;
            },
            handle.clone(),
            &cosync.data,
        ))
        .unwrap();
    let second = other
        .queue(create_work(
            |mut input| async move {
                *input.get() += 20;
            },
            other.clone(),
            &cosync.data,
        ))
        .unwrap();
    assert!(first < second);
    assert_eq!(cosync.with(|cosync| cosync.len()), 2);
    assert!(!cosync.with(|cosync| cosync.is_running_any()));
    assert_eq!(handle.unqueue_task(first), Some(true));
    assert_eq!(handle.unqueue_task(first), Some(false));

    let mut value = 1;
    cosync.run(&mut value);
    assert_eq!(value, 21);

    drop(cosync);
    let nothing: Work = Box::pin(async {});
    assert_eq!(other.queue(nothing), None);
    assert_eq!(handle.unqueue_task(second), None);
}

#[test]
fn tasks_are_done_in_the_order_they_are_queued() {
    let mut cosync: Concurrent<i32> = Concurrent::new();
    let handle = Cosync::create_queue_handle(&cosync.slot);
    let work = create_work(
        |mut input| async move {
            *input.get() = 1;
        },
        handle.clone(),
        &cosync.data,
    );
    assert!(handle.queue(work).is_some());
    let id = cosync.queue(|mut input| async move {
        *input.get() = 2;
    });
    assert!(!cosync.with(|cosync| cosync.is_running(id)));
    let mut value = 0;
    cosync.run(&mut value);
    assert_eq!(value, 2);
}

#[test]
fn a_task_that_is_not_woken_is_not_polled() {
    struct Never;
    impl Future for Never {
        type Output = ();
        fn poll(self: Pin<&mut Self>, _cx: &mut std::task::Context<'_>) -> std::task::Poll<()> {
            std::task::Poll::Pending
        }
    }

    let mut cosync: Concurrent<i32> = Concurrent::new();
    let asleep = cosync.queue(|mut input| async move {
        *input.get() += 1;
        Never.await;
    });
    let awake = cosync.queue(|mut input| async move {
        yielding().await;
        *input.get() += 10;
    });

    let mut value = 0;
    cosync.run(&mut value);
    assert_eq!(value, 1);
    cosync.run(&mut value);
    assert_eq!(value, 11);
    assert!(cosync.with(|cosync| cosync.is_running(asleep)));
    assert!(!cosync.with(|cosync| cosync.is_running(awake)));
}
